use gossip_mesh::auth::{content_id, sign_message, verify, LocalKey};
use gossip_mesh::message::{GossipError, Message, DEFAULT_MAX_PAYLOAD};

fn sample() -> Message {
    Message {
        topic: b"chat".to_vec(),
        sender: vec![7u8; 32],
        seq: 0x0102030405060708,
        payload: b"hello".to_vec(),
        signature: vec![9u8; 64],
        id: vec![3u8; 32],
    }
}

#[test]
fn encode_layout_is_length_prefixed() {
    let bytes = sample().encode();
    assert_eq!(&bytes[0..4], &[0, 0, 0, 4]);
    assert_eq!(&bytes[4..8], b"chat");
    assert_eq!(&bytes[8..12], &[0, 0, 0, 32]);
    assert_eq!(&bytes[44..52], &[1, 2, 3, 4, 5, 6, 7, 8]);
    assert_eq!(bytes.len(), 4 + 4 + 4 + 32 + 8 + 4 + 5 + 4 + 64 + 4 + 32);
}

#[test]
fn decode_of_encode_round_trips() {
    let m = sample();
    let d = Message::decode(&m.encode(), DEFAULT_MAX_PAYLOAD).unwrap();
    assert_eq!(d.topic, m.topic);
    assert_eq!(d.sender, m.sender);
    assert_eq!(d.seq, m.seq);
    assert_eq!(d.payload, m.payload);
    assert_eq!(d.signature, m.signature);
    assert_eq!(d.id, m.id);
}

#[test]
fn round_trip_with_empty_fields() {
    let m = Message { topic: vec![], sender: vec![], seq: 0, payload: vec![], signature: vec![], id: vec![] };
    let d = Message::decode(&m.encode(), 0).unwrap();
    assert!(d.topic.is_empty() && d.payload.is_empty() && d.seq == 0);
}

#[test]
fn decode_rejects_garbage_truncation_and_trailing_bytes() {
    assert!(matches!(Message::decode(&vec![], DEFAULT_MAX_PAYLOAD), Err(GossipError::MalformedPayload)));
    assert!(matches!(Message::decode(&vec![0xff; 10], DEFAULT_MAX_PAYLOAD), Err(GossipError::MalformedPayload)));
    let mut bytes = sample().encode();
    bytes.push(0);
    assert!(matches!(Message::decode(&bytes, DEFAULT_MAX_PAYLOAD), Err(GossipError::MalformedPayload)));
    let bytes = sample().encode();
    assert!(matches!(Message::decode(&bytes[..bytes.len() - 1].to_vec(), DEFAULT_MAX_PAYLOAD), Err(GossipError::MalformedPayload)));
}

#[test]
fn decode_rejects_payload_over_cap() {
    let mut m = sample();
    m.payload = vec![1u8; DEFAULT_MAX_PAYLOAD + 1];
    let bytes = m.encode();
    assert!(matches!(Message::decode(&bytes, DEFAULT_MAX_PAYLOAD), Err(GossipError::MalformedPayload)));
    m.payload = vec![1u8; DEFAULT_MAX_PAYLOAD];
    assert!(Message::decode(&m.encode(), DEFAULT_MAX_PAYLOAD).is_ok());
}

#[test]
fn content_id_is_sha256_of_sender_seq_payload() {
    let sender = vec![5u8; 32];
    let id = content_id(&sender, 1, &b"hello".to_vec());
    let mut input = vec![0, 0, 0, 32];
    input.extend_from_slice(&sender);
    input.extend_from_slice(&[0, 0, 0, 0, 0, 0, 0, 1]);
    input.extend_from_slice(&[0, 0, 0, 5]);
    input.extend_from_slice(b"hello");
    assert_eq!(id, <sha2::Sha256 as sha2::Digest>::digest(&input).to_vec());
    assert_ne!(id, content_id(&sender, 2, &b"hello".to_vec()));
}

#[test]
fn signed_message_verifies_and_tampered_payload_fails() {
    let key = LocalKey::from_seed(vec![1u8; 32]).unwrap();
    let m = sign_message(&key, &b"chat".to_vec(), 1, &b"hello".to_vec());
    assert_eq!(m.sender, key.peer_id());
    assert_eq!(m.signature.len(), 64);
    assert!(verify(&m).is_ok());
    for bit in 0..8 {
        for byte in 0..m.payload.len() {
            let mut t = Message {
                topic: m.topic.clone(),
                sender: m.sender.clone(),
                seq: m.seq,
                payload: m.payload.clone(),
                signature: m.signature.clone(),
                id: m.id.clone(),
            };
            t.payload[byte] ^= 1 << bit;
            assert!(matches!(verify(&t), Err(GossipError::AuthenticationFailure)));
        }
    }
}

#[test]
fn signature_from_another_key_fails() {
    let k1 = LocalKey::from_seed(vec![1u8; 32]).unwrap();
    let k2 = LocalKey::from_seed(vec![2u8; 32]).unwrap();
    let mut m = sign_message(&k1, &b"chat".to_vec(), 1, &b"hello".to_vec());
    m.sender = k2.peer_id();
    assert!(matches!(verify(&m), Err(GossipError::AuthenticationFailure)));
}

#[test]
fn peer_id_is_the_ed25519_public_key() {
    let seed = vec![4u8; 32];
    let key = LocalKey::from_seed(seed.clone()).unwrap();
    let secret = libp2p::identity::ed25519::SecretKey::try_from_bytes(seed).unwrap();
    let kp = libp2p::identity::ed25519::Keypair::from(secret);
    assert_eq!(key.peer_id(), kp.public().to_bytes().to_vec());
    assert_ne!(key.peer_id(), vec![4u8; 32]);
    let sig = key.sign(&b"abc".to_vec());
    assert!(kp.public().verify(b"abc", &sig));
    assert!(LocalKey::from_seed(vec![0u8; 31]).is_none());
    assert_eq!(LocalKey::generate().peer_id().len(), 32);
}

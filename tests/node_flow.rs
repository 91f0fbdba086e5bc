use gossip_mesh::auth::LocalKey;
use gossip_mesh::input::InputMessage;
use gossip_mesh::message::{GossipError, Message};
use gossip_mesh::node::{Config, Node};

fn node(seed: u8) -> Node {
    Node::new(LocalKey::from_seed(vec![seed; 32]).unwrap(), Config::standard())
}

fn topic() -> Vec<u8> {
    b"chat".to_vec()
}

#[test]
fn hello_reaches_b_then_c_and_is_not_sent_back() {
    let mut a = node(1);
    let mut b = node(2);
    let mut c = node(3);
    let (ida, idb, idc) = (a.local_peer_id(), b.local_peer_id(), c.local_peer_id());
    for n in [&mut a, &mut b, &mut c] {
        assert!(n.subscribe(&topic()));
    }
    let b_in_a = a.on_discovered(&idb, String::from("b"), 0);
    let a_in_b = b.on_discovered(&ida, String::from("a"), 0);
    let c_in_b = b.on_discovered(&idc, String::from("c"), 0);
    let b_in_c = c.on_discovered(&idb, String::from("b"), 0);
    a.heartbeat(0, 1);
    b.heartbeat(0, 2);
    c.heartbeat(0, 3);
    assert_eq!(a.mesh_peers(&topic()), Some(vec![b_in_a]));
    assert_eq!(c.mesh_peers(&topic()), Some(vec![b_in_c]));

    let (m, sends) = a.publish(&topic(), &b"hello".to_vec(), 10).unwrap();
    assert_eq!(m.seq, 1);
    assert_eq!(m.payload, b"hello".to_vec());
    assert_eq!(sends.len(), 1);
    assert_eq!(sends[0].to, b_in_a);

    let rb = b.on_receive(a_in_b, &sends[0].frame, 11).unwrap();
    let got = rb.deliver.unwrap();
    assert_eq!(got.payload, b"hello".to_vec());
    assert_eq!(got.sender, ida);
    assert_eq!(rb.forward.len(), 1);
    assert_eq!(rb.forward[0].to, c_in_b);

    let rc = c.on_receive(b_in_c, &rb.forward[0].frame, 12).unwrap();
    assert_eq!(rc.deliver.unwrap().payload, b"hello".to_vec());
    assert!(rc.forward.is_empty());

    let again = c.on_receive(b_in_c, &rb.forward[0].frame, 13).unwrap();
    assert!(again.deliver.is_none());
    assert!(again.forward.is_empty());
}

#[test]
fn second_delivery_within_window_is_dropped() {
    let mut a = node(1);
    let mut b = node(2);
    a.subscribe(&topic());
    b.subscribe(&topic());
    let ida = a.local_peer_id();
    let idb = b.local_peer_id();
    a.on_discovered(&idb, String::from("b"), 0);
    let from = b.on_discovered(&ida, String::from("a"), 0);
    a.heartbeat(0, 9);
    let (_, sends) = a.publish(&topic(), &b"x".to_vec(), 100).unwrap();
    assert!(b.on_receive(from, &sends[0].frame, 100).unwrap().deliver.is_some());
    assert!(b.on_receive(from, &sends[0].frame, 219).unwrap().deliver.is_none());
    b.heartbeat(219, 4);
    assert!(b.on_receive(from, &sends[0].frame, 219).unwrap().deliver.is_none());
    assert!(b.on_receive(from, &sends[0].frame, 220).unwrap().deliver.is_some());
}

#[test]
fn own_message_echoed_back_is_not_delivered() {
    let mut a = node(1);
    a.subscribe(&topic());
    let (_, _) = a.publish(&topic(), &b"x".to_vec(), 5).unwrap();
    let (m, _) = a.publish(&topic(), &b"y".to_vec(), 5).unwrap();
    assert_eq!(m.seq, 2);
    let r = a.on_receive(0, &m.encode(), 6).unwrap();
    assert!(r.deliver.is_none());
}

#[test]
fn discovered_then_expired_peer_never_enters_a_mesh() {
    let mut a = node(1);
    a.subscribe(&topic());
    let peer = vec![8u8; 32];
    let h = a.on_discovered(&peer, String::from("p"), 0);
    assert_eq!(a.on_expired(&peer), Some(h));
    a.heartbeat(1, 77);
    assert_eq!(a.mesh_peers(&topic()), Some(vec![]));
    assert_eq!(a.peer_id_of(h), None);
    let h2 = a.on_discovered(&peer, String::from("p"), 2);
    assert_ne!(h, h2);
    a.heartbeat(3, 78);
    assert_eq!(a.mesh_peers(&topic()), Some(vec![h2]));
}

#[test]
fn oversized_payload_is_a_configuration_error() {
    let mut a = node(1);
    a.subscribe(&topic());
    let p = a.on_discovered(&vec![8u8; 32], String::from("p"), 0);
    a.heartbeat(0, 1);
    assert_eq!(a.mesh_peers(&topic()), Some(vec![p]));
    let r = a.publish(&topic(), &vec![0u8; 64 * 1024 + 1], 1);
    assert!(matches!(r, Err(GossipError::ConfigurationError)));
    let (m, sends) = a.publish(&topic(), &vec![0u8; 64 * 1024], 1).unwrap();
    assert_eq!(m.seq, 1);
    assert_eq!(sends.len(), 1);
}

#[test]
fn invalid_topic_name_is_a_configuration_error() {
    let mut a = node(1);
    assert!(matches!(a.publish(&vec![], &b"x".to_vec(), 0), Err(GossipError::ConfigurationError)));
    assert!(matches!(a.publish(&vec![b'a'; 257], &b"x".to_vec(), 0), Err(GossipError::ConfigurationError)));
    assert!(!a.subscribe(&vec![]));
    assert!(a.subscribe(&topic()));
    assert!(!a.subscribe(&topic()));
    assert!(a.unsubscribe(&topic()));
    assert!(!a.unsubscribe(&topic()));
    assert_eq!(a.mesh_peers(&topic()), None);
}

#[test]
fn malformed_and_forged_frames_are_refused() {
    let mut a = node(1);
    let mut b = node(2);
    b.subscribe(&topic());
    assert!(matches!(b.on_receive(0, &vec![1, 2, 3], 0), Err(GossipError::MalformedPayload)));
    let (m, _) = a.publish(&topic(), &b"hello".to_vec(), 0).unwrap();
    let mut forged = Message {
        topic: m.topic.clone(),
        sender: m.sender.clone(),
        seq: m.seq,
        payload: b"hellp".to_vec(),
        signature: m.signature.clone(),
        id: m.id.clone(),
    };
    assert!(matches!(b.on_receive(0, &forged.encode(), 0), Err(GossipError::AuthenticationFailure)));
    forged.payload = m.payload.clone();
    forged.id = vec![0u8; 32];
    assert!(matches!(b.on_receive(0, &forged.encode(), 0), Err(GossipError::MalformedPayload)));
    assert!(b.on_receive(0, &m.encode(), 0).unwrap().deliver.is_some());
}

#[test]
fn heartbeat_keeps_mesh_within_marks() {
    let mut cfg = Config::standard();
    cfg.d_lo = 2;
    cfg.d_hi = 3;
    let mut a = Node::new(LocalKey::from_seed(vec![1u8; 32]).unwrap(), cfg);
    a.subscribe(&topic());
    for i in 0..6u8 {
        a.on_discovered(&vec![i + 10; 32], String::from("p"), 0);
    }
    let changes = a.heartbeat(0, 5);
    assert_eq!(a.mesh_peers(&topic()).unwrap().len(), 2);
    assert_eq!(changes.len(), 2);
    assert!(changes.iter().all(|c| c.graft && c.topic == topic()));
}

#[test]
fn input_message_keeps_text_and_stamps_time() {
    let m = InputMessage::new(String::from("hi there"));
    assert_eq!(m.message, "hi there");
    assert!(m.timestamp > 1_600_000_000);
    let f = InputMessage::with_timestamp(String::from("x"), 42);
    assert_eq!(f.timestamp, 42);
}

#[test]
fn unrefreshed_peer_times_out_and_refreshed_one_stays() {
    let mut a = node(1);
    a.subscribe(&topic());
    let old_peer = a.on_discovered(&vec![8u8; 32], String::from("p"), 0);
    let kept = a.on_discovered(&vec![9u8; 32], String::from("q"), 0);
    a.heartbeat(0, 3);
    assert_eq!(a.on_discovered(&vec![9u8; 32], String::from("q"), 100), kept);
    assert!(a.expire_stale(120).is_empty());
    assert_eq!(a.expire_stale(121), vec![old_peer]);
    assert_eq!(a.peer_id_of(old_peer), None);
    assert_eq!(a.mesh_peers(&topic()), Some(vec![kept]));
    assert_eq!(a.handle_of(&vec![9u8; 32]), Some(kept));
}

#[test]
fn graft_and_prune_requests_change_the_mesh() {
    let mut cfg = Config::standard();
    cfg.d_lo = 0;
    cfg.d_hi = 1;
    let mut a = Node::new(LocalKey::from_seed(vec![1u8; 32]).unwrap(), cfg);
    a.subscribe(&topic());
    let p = a.on_discovered(&vec![5u8; 32], String::from("p"), 0);
    let q = a.on_discovered(&vec![6u8; 32], String::from("q"), 0);
    assert!(a.on_graft(p, &topic()));
    assert!(!a.on_graft(q, &topic()));
    assert!(!a.on_graft(p, &b"other".to_vec()));
    assert_eq!(a.mesh_peers(&topic()), Some(vec![p]));
    a.on_prune(p, &topic());
    assert_eq!(a.mesh_peers(&topic()), Some(vec![]));
    assert!(a.on_graft(q, &topic()));
}

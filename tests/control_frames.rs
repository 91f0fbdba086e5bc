use gossip_mesh::auth::LocalKey;
use gossip_mesh::control::{decode_ids, encode_ids};
use gossip_mesh::node::{Config, Node};

#[test]
fn id_list_round_trips() {
    let ids = vec![vec![1u8, 2, 3], vec![], vec![9u8; 32]];
    let bytes = encode_ids(&ids);
    assert_eq!(bytes.len(), 4 + 3 + 4 + 4 + 32);
    assert_eq!(&bytes[0..4], &[0, 0, 0, 3]);
    assert_eq!(decode_ids(&bytes), Some(ids));
    assert_eq!(decode_ids(&vec![]), Some(vec![]));
}

#[test]
fn id_list_rejects_truncated_bytes() {
    let bytes = encode_ids(&vec![vec![1u8, 2, 3]]);
    assert_eq!(decode_ids(&bytes[..bytes.len() - 1].to_vec()), None);
    assert_eq!(decode_ids(&vec![0, 0]), None);
}

#[test]
fn announcement_asks_only_for_unseen_ids_and_request_returns_frames() {
    let key = |s: u8| LocalKey::from_seed(vec![s; 32]).unwrap();
    let mut a = Node::new(key(1), Config::standard());
    let mut b = Node::new(key(2), Config::standard());
    let topic = b"chat".to_vec();
    a.subscribe(&topic);
    b.subscribe(&topic);
    let (m1, _) = a.publish(&topic, &b"one".to_vec(), 0).unwrap();
    let (m2, _) = a.publish(&topic, &b"two".to_vec(), 0).unwrap();
    let from = b.on_discovered(&a.local_peer_id(), String::from("a"), 0);
    assert!(b.on_receive(from, &m1.encode(), 1).unwrap().deliver.is_some());

    let announced = a.announce(2);
    assert_eq!(announced.len(), 2);
    let wanted = b.on_ihave(&announced, 2);
    assert_eq!(wanted, vec![m2.id.clone()]);
    let frames = a.on_iwant(&wanted, 3);
    assert_eq!(frames, vec![m2.encode()]);
    assert!(b.on_receive(from, &frames[0], 3).unwrap().deliver.is_some());
    assert!(b.on_ihave(&announced, 4).is_empty());
    assert!(a.on_iwant(&wanted, 120).is_empty());
}

#[test]
fn gossip_goes_to_aware_peers_outside_the_mesh() {
    let mut cfg = Config::standard();
    cfg.d_lo = 1;
    cfg.d_hi = 1;
    let mut a = Node::new(LocalKey::from_seed(vec![1u8; 32]).unwrap(), cfg);
    let topic = b"chat".to_vec();
    a.subscribe(&topic);
    let p = a.on_discovered(&vec![5u8; 32], String::from("p"), 0);
    let q = a.on_discovered(&vec![6u8; 32], String::from("q"), 0);
    a.heartbeat(0, 8);
    let mesh = a.mesh_peers(&topic).unwrap();
    assert_eq!(mesh.len(), 1);
    let outside = a.gossip_peers(&topic);
    assert_eq!(outside.len(), 1);
    assert!(outside[0] == p || outside[0] == q);
    assert_ne!(outside[0], mesh[0]);
    assert!(a.gossip_peers(&b"other".to_vec()).is_empty());
}

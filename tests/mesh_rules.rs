use gossip_mesh::directory::PeerDirectory;
use gossip_mesh::mesh::{shuffle, TopicMesh};

#[test]
fn graft_up_to_low_water_mark() {
    let mut t = TopicMesh::new(b"chat".to_vec(), vec![1, 2, 3, 4, 5, 6]);
    let (grafted, pruned) = t.rebalance(4, 8, 42);
    assert_eq!(t.mesh().len(), 4);
    assert_eq!(grafted.len(), 4);
    assert!(pruned.is_empty());
    for p in t.mesh() {
        assert!(t.aware().contains(p));
    }
}

#[test]
fn graft_all_when_aware_set_is_small() {
    let mut t = TopicMesh::new(b"chat".to_vec(), vec![1, 2]);
    t.rebalance(4, 8, 7);
    let mut m = t.mesh().clone();
    m.sort();
    assert_eq!(m, vec![1, 2]);
}

#[test]
fn prune_down_to_high_water_mark() {
    let mut t = TopicMesh::new(b"chat".to_vec(), (0..10).collect());
    t.rebalance(10, 10, 1);
    assert_eq!(t.mesh().len(), 10);
    let (grafted, pruned) = t.rebalance(2, 3, 99);
    assert!(grafted.is_empty());
    assert_eq!(t.mesh().len(), 3);
    assert_eq!(pruned.len(), 7);
    for p in &pruned {
        assert!(!t.mesh().contains(p));
    }
}

#[test]
fn mesh_between_marks_is_left_alone() {
    let mut t = TopicMesh::new(b"chat".to_vec(), (0..10).collect());
    t.rebalance(3, 3, 5);
    let before = t.mesh().clone();
    let (g, p) = t.rebalance(2, 4, 11);
    assert_eq!(t.mesh(), &before);
    assert!(g.is_empty() && p.is_empty());
}

#[test]
fn removed_peer_leaves_mesh_and_aware_set() {
    let mut t = TopicMesh::new(b"chat".to_vec(), vec![1, 2, 3]);
    t.rebalance(3, 3, 0);
    t.remove_peer(2);
    assert!(!t.mesh().contains(&2));
    assert!(!t.aware().contains(&2));
    assert_eq!(t.mesh().len(), 2);
}

#[test]
fn shuffle_keeps_the_elements() {
    let mut v: Vec<u64> = (0..20).collect();
    shuffle(&mut v, 12345);
    let mut s = v.clone();
    s.sort();
    assert_eq!(s, (0..20).collect::<Vec<u64>>());
}

#[test]
fn directory_refresh_keeps_handle_and_rediscovery_gets_new_one() {
    let mut d = PeerDirectory::new(60);
    let a = d.on_discovered(&vec![1u8; 32], String::from("/ip4/10.0.0.1"), 0);
    let b = d.on_discovered(&vec![2u8; 32], String::from("/ip4/10.0.0.2"), 0);
    assert_ne!(a, b);
    assert_eq!(d.on_discovered(&vec![1u8; 32], String::from("/ip4/10.0.0.1"), 5), a);
    assert_eq!(d.on_expired(&vec![1u8; 32]), Some(a));
    assert_eq!(d.on_expired(&vec![1u8; 32]), None);
    assert_eq!(d.handle_of(&vec![1u8; 32]), None);
    let c = d.on_discovered(&vec![1u8; 32], String::from("/ip4/10.0.0.1"), 6);
    assert_ne!(c, a);
    assert_eq!(d.peer_id_of(b), Some(vec![2u8; 32]));
    assert_eq!(d.peer_id_of(a), None);
    let mut p = d.peers();
    p.sort();
    assert_eq!(p, vec![b, c]);
}

#[test]
fn graft_accepted_only_for_aware_peer_with_room() {
    let mut t = TopicMesh::new(b"chat".to_vec(), vec![1, 2, 3]);
    assert!(t.graft(1, 2));
    assert!(t.graft(1, 2));
    assert!(!t.graft(9, 2));
    assert!(t.graft(2, 2));
    assert!(!t.graft(3, 2));
    assert_eq!(t.mesh().len(), 2);
    t.prune(1);
    assert_eq!(t.mesh(), &vec![2]);
    assert_eq!(t.aware().len(), 3);
}

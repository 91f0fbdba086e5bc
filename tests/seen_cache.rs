use gossip_mesh::seen::SeenCache;

#[test]
fn duplicate_within_window_is_suppressed() {
    let mut c = SeenCache::new(120);
    let id = vec![1u8, 2, 3];
    assert!(c.check_and_insert(&id, &vec![], 1000));
    assert!(!c.check_and_insert(&id, &vec![], 1000));
    assert!(!c.check_and_insert(&id, &vec![], 1119));
    assert!(c.contains(&id, 1119));
    assert_eq!(c.len(), 1);
}

#[test]
fn expired_entry_counts_as_new() {
    let mut c = SeenCache::new(120);
    let id = vec![9u8];
    assert!(c.check_and_insert(&id, &vec![], 0));
    assert!(!c.contains(&id, 120));
    assert!(c.check_and_insert(&id, &vec![], 120));
}

#[test]
fn sweep_drops_only_expired_entries() {
    let mut c = SeenCache::new(10);
    assert!(c.check_and_insert(&vec![1], &vec![], 0));
    assert!(c.check_and_insert(&vec![2], &vec![], 5));
    c.sweep(12);
    assert_eq!(c.len(), 1);
    assert!(!c.contains(&vec![1], 12));
    assert!(c.contains(&vec![2], 12));
}

#[test]
fn empty_cache_has_seen_nothing() {
    let c = SeenCache::new(10);
    assert!(!c.contains(&vec![], 0));
    assert_eq!(c.len(), 0);
}

#[test]
fn frames_are_held_for_the_window_and_listed_as_recent() {
    let mut c = SeenCache::new(10);
    assert!(c.check_and_insert(&vec![1], &vec![7, 7], 0));
    assert!(c.check_and_insert(&vec![2], &vec![8], 6));
    assert_eq!(c.frame_of(&vec![1], 9), Some(vec![7, 7]));
    assert_eq!(c.frame_of(&vec![1], 10), None);
    assert_eq!(c.recent(10), vec![vec![2]]);
    c.sweep(10);
    assert_eq!(c.frame_of(&vec![2], 15), Some(vec![8]));
    assert_eq!(c.len(), 1);
}

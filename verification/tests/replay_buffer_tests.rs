use neuron_wire::distributed_replay::{ring_push, sample_indices, should_share};
use neuron_wire::memory_module::{lru_slot, write_slot};

#[test]
fn ring_fills_then_overwrites_the_oldest_slot() {
    let mut items: Vec<u32> = Vec::new();
    let mut pos = 0;
    for i in 0..3 {
        pos = ring_push(&mut items, 5, pos, i);
    }
    assert_eq!(items, vec![0, 1, 2]);
    assert_eq!(pos, 3);

    let mut ring: Vec<u32> = Vec::new();
    let mut pos = 0;
    for i in 0..5 {
        pos = ring_push(&mut ring, 3, pos, i);
    }
    assert_eq!(ring.len(), 3);
    assert_eq!(pos, 2);
    assert_eq!(ring, vec![3, 4, 2]);
}

#[test]
fn sample_draws_distinct_positions() {
    let s = sample_indices(7, 3);
    assert_eq!(s.len(), 3);
    for &i in &s {
        assert!(i < 7);
    }
    assert!(s[0] != s[1] && s[0] != s[2] && s[1] != s[2]);

    let mut all = sample_indices(4, 10);
    assert_eq!(all.len(), 4);
    all.sort();
    assert_eq!(all, vec![0, 1, 2, 3]);

    assert!(sample_indices(0, 2).is_empty());
    assert!(sample_indices(5, 0).is_empty());
}

#[test]
fn sharing_rounds_fall_on_multiples_of_the_interval() {
    assert!(should_share(5, 5));
    assert!(should_share(5, 10));
    assert!(should_share(5, 0));
    assert!(!should_share(5, 3));
    assert!(!should_share(0, 0));
    assert!(!should_share(0, 7));
}

#[test]
fn lru_slot_is_the_first_least_used() {
    assert_eq!(lru_slot(&[1, 1]), 0);
    assert_eq!(lru_slot(&[4, 2, 9, 2]), 1);
    assert_eq!(lru_slot(&[7]), 0);
    assert_eq!(lru_slot(&[5, 6, 3]), 2);
}

#[test]
fn writes_append_until_full_then_replace() {
    assert_eq!(write_slot(1, 2, &[1]), None);
    assert_eq!(write_slot(2, 2, &[3, 1]), Some(1));
    assert_eq!(write_slot(2, 2, &[1, 1]), Some(0));
    assert_eq!(write_slot(0, 0, &[8]), Some(0));
}

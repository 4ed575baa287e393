use est_inf::seeds::SeedSet;

#[test]
fn dedup_keeps_distinct_ids() {
    let s = SeedSet::from_ids(&vec![3, 1, 4, 1, 5]);
    assert_eq!(s.len(), 4);
    for id in [1, 3, 4, 5] {
        assert!(s.contains(id));
    }
    assert!(!s.contains(2));
    assert!(!s.contains(0));
}

#[test]
fn dedup_ignores_input_order() {
    let a = SeedSet::from_ids(&vec![3, 1, 4, 1, 5]);
    let b = SeedSet::from_ids(&vec![5, 1, 4, 3, 3, 1]);
    assert_eq!(a.len(), b.len());
    for id in 0..8 {
        assert_eq!(a.contains(id), b.contains(id));
    }
}

#[test]
fn empty_seed_list_gives_empty_set() {
    let s = SeedSet::from_ids(&vec![]);
    assert_eq!(s.len(), 0);
    assert!(!s.meets(&vec![0, 1, 2]));
}

#[test]
fn meets_needs_one_common_node() {
    let s = SeedSet::from_ids(&vec![3, 9]);
    assert!(!s.meets(&vec![]));
    assert!(!s.meets(&vec![7, 8]));
    assert!(s.meets(&vec![7, 3]));
    assert!(s.meets(&vec![9, 3, 1]));
}

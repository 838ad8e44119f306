use levenshtein_lite::{TChar, TempTracker};

#[test]
fn tracker_groups_pairs_by_key_in_insertion_order() {
    let mut t = TempTracker::new();
    t.add(TChar::Exact('a'), (1, 0));
    t.add(TChar::Wildcard, (0, 1));
    t.add(TChar::Exact('a'), (0, 1));
    t.add(TChar::Exact('b'), (2, 1));
    t.add(TChar::Wildcard, (1, 1));

    let snapshot = t.key();
    assert_eq!(snapshot.len(), 3);

    assert!(matches!(snapshot[0].0, TChar::Exact('a')));
    assert_eq!(snapshot[0].1, vec![(1, 0), (0, 1)]);

    assert!(matches!(snapshot[1].0, TChar::Wildcard));
    assert_eq!(snapshot[1].1, vec![(0, 1), (1, 1)]);

    assert!(matches!(snapshot[2].0, TChar::Exact('b')));
    assert_eq!(snapshot[2].1, vec![(2, 1)]);
}

#[test]
fn tracker_starts_empty() {
    let t = TempTracker::new();
    assert_eq!(t.key().len(), 0);
}

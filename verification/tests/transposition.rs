use gomoku::ai::transposition::{EntryType, TranspositionTable};

#[test]
fn test_transposition_table_basic() {
    let mut tt = TranspositionTable::new(100);

    tt.store(123456, 50, 5, EntryType::Exact, Some((7, 7)));

    let result = tt.probe(123456, 5, -100, 100);
    assert!(result.cutoff);
    assert_eq!(result.value, Some(50));
    assert_eq!(result.best_move, Some((7, 7)));

    let (hits, misses) = tt.get_stats();
    assert_eq!(hits, 1);
    assert_eq!(misses, 0);
}

#[test]
fn test_transposition_table_bounds() {
    let mut tt = TranspositionTable::new(100);

    tt.store(123456, 50, 5, EntryType::LowerBound, Some((7, 7)));

    let result = tt.probe(123456, 5, 10, 40);
    assert!(result.cutoff);
    assert_eq!(result.value, Some(50));

    let result = tt.probe(123456, 5, 10, 60);
    assert!(!result.cutoff);
    assert!(result.best_move.is_some());
}

#[test]
fn test_transposition_table_depth_requirement() {
    let mut tt = TranspositionTable::new(100);

    tt.store(123456, 50, 5, EntryType::Exact, Some((7, 7)));

    let result = tt.probe(123456, 8, -100, 100);
    assert!(!result.cutoff);
    assert!(result.best_move.is_some());

    let result = tt.probe(123456, 5, -100, 100);
    assert!(result.cutoff);
    assert_eq!(result.value, Some(50));
}

#[test]
fn upper_bound_cuts_only_below_alpha() {
    let mut tt = TranspositionTable::new(100);
    tt.store(1, -20, 3, EntryType::UpperBound, None);
    let r = tt.probe(1, 3, -10, 10);
    assert!(r.cutoff);
    assert_eq!(r.value, Some(-20));
    let r = tt.probe(1, 3, -30, 10);
    assert!(!r.cutoff);
    assert_eq!(r.value, None);
}

#[test]
fn missing_key_counts_a_miss() {
    let mut tt = TranspositionTable::new(100);
    let r = tt.probe(42, 1, -1, 1);
    assert!(!r.cutoff);
    assert_eq!(r.value, None);
    assert_eq!(r.best_move, None);
    assert_eq!(tt.get_stats(), (0, 1));
    assert_eq!(tt.get_best_move(42), None);
}

#[test]
fn shallower_result_does_not_replace_deeper() {
    let mut tt = TranspositionTable::new(100);
    tt.store(9, 10, 6, EntryType::Exact, Some((1, 1)));
    tt.store(9, 99, 2, EntryType::Exact, Some((2, 2)));
    assert_eq!(tt.get_best_move(9), Some((1, 1)));
    tt.store(9, 77, 7, EntryType::Exact, Some((3, 3)));
    assert_eq!(tt.get_best_move(9), Some((3, 3)));
    assert_eq!(tt.size(), 1);
}

#[test]
fn clear_and_age() {
    let mut tt = TranspositionTable::new(100);
    tt.store(1, 1, 1, EntryType::Exact, None);
    tt.store(2, 2, 1, EntryType::Exact, None);
    assert_eq!(tt.size(), 2);
    tt.advance_age();
    tt.add_stats(3, 4);
    assert_eq!(tt.get_stats(), (3, 4));
    tt.clear();
    assert_eq!(tt.size(), 0);
    assert_eq!(tt.get_stats(), (0, 0));
}

#[test]
fn full_table_drops_stale_entries() {
    let mut tt = TranspositionTable::new(4);
    for k in 0..4u64 {
        tt.store(k, 0, 1, EntryType::Exact, None);
    }
    for _ in 0..10 {
        tt.advance_age();
    }
    tt.store(100, 5, 12, EntryType::Exact, Some((0, 0)));
    assert_eq!(tt.size(), 1);
    assert_eq!(tt.get_best_move(100), Some((0, 0)));
}

use gomoku::ai::advanced_search::{HistoryTable, KillerMoves, ProfilingCounters, SearchContext, reset_profiling};
use gomoku::ai::eval_cache::EvalCache;
use gomoku::ai::heuristic_cache::{CachedPatternCounts, IncrementalHeuristicCache, ZoneCoord};
use gomoku::ai::incremental_patterns::IncrementalPatternCounts;
use gomoku::board::{Board, Player};

#[test]
fn eval_cache_returns_deep_enough_entries() {
    let mut cache = EvalCache::new(10);
    assert_eq!(cache.probe(7, 0), None);
    cache.store(7, 123, 4);
    assert_eq!(cache.probe(7, 4), Some(123));
    assert_eq!(cache.probe(7, 3), Some(123));
    assert_eq!(cache.probe(7, 5), None);
    assert_eq!(cache.hits(), 2);
    assert_eq!(cache.misses(), 2);
    assert_eq!(cache.size(), 1);
    cache.store(7, -5, 1);
    assert_eq!(cache.probe(7, 1), Some(-5));
    cache.clear();
    assert_eq!(cache.size(), 0);
    assert_eq!(cache.probe(7, 0), None);
}

#[test]
fn killer_moves_keep_two_latest() {
    let mut k = KillerMoves::new();
    assert!(k.get_moves().is_empty());
    k.store((1, 1));
    k.store((2, 2));
    assert_eq!(k.get_moves(), vec![(2, 2), (1, 1)]);
    k.store((2, 2));
    assert_eq!(k.get_moves(), vec![(2, 2), (1, 1)]);
    k.store((3, 3));
    assert_eq!(k.get_moves(), vec![(3, 3), (2, 2)]);
    assert!(k.contains((2, 2)));
    assert!(!k.contains((1, 1)));
}

#[test]
fn history_scores_grow_with_depth_squared() {
    let mut h = HistoryTable::new();
    assert_eq!(h.get_score((4, 5), Player::Max), 0);
    h.record_cutoff((4, 5), Player::Max, 3);
    assert_eq!(h.get_score((4, 5), Player::Max), 9);
    assert_eq!(h.get_score((4, 5), Player::Min), 0);
    h.record_cutoff((4, 5), Player::Max, 2);
    assert_eq!(h.get_score((4, 5), Player::Max), 13);
    h.age();
    assert_eq!(h.get_score((4, 5), Player::Max), 6);
    h.clear();
    assert_eq!(h.get_score((4, 5), Player::Max), 0);
    h.record_cutoff((30, 1), Player::Min, 5);
    assert_eq!(h.get_score((30, 1), Player::Min), 0);
}

#[test]
fn search_context_records() {
    let mut ctx = SearchContext::new();
    ctx.new_search(None);
    assert!(!ctx.is_time_up());
    assert_eq!(ctx.get_nodes_searched(), 0);
    ctx.record_killer((1, 2), 3);
    ctx.record_killer((1, 3), 100);
    ctx.record_history_cutoff((1, 2), Player::Min, 2);
    assert!(SearchContext::limit_reached(10, 10));
    assert!(!SearchContext::limit_reached(9, 10));
}

#[test]
fn profiling_counters_reset() {
    let mut counters = ProfilingCounters {
        minimax_calls: 1,
        tt_hits: 2,
        heuristic_calls: 3,
        move_generation_time: 4,
        heuristic_time: 5,
        tt_time: 6,
        killer_hits: 7,
        history_hits: 8,
    };
    reset_profiling(&mut counters);
    assert_eq!(counters.minimax_calls, 0);
    assert_eq!(counters.tt_hits, 0);
    assert_eq!(counters.history_hits, 0);
}

#[test]
fn pattern_counts_add_then_subtract() {
    let mut a = CachedPatternCounts::new();
    a.live_three = 2;
    a.five_in_row = 1;
    let mut b = CachedPatternCounts::new();
    b.live_three = 3;
    b.half_free_two = 4;
    let original = a;
    a.add(&b);
    assert_eq!(a.live_three, 5);
    assert_eq!(a.half_free_two, 4);
    a.subtract(&b);
    assert_eq!(a, original);
}

#[test]
fn pattern_counts_saturate() {
    let mut a = CachedPatternCounts::new();
    a.live_two = 250;
    let mut b = CachedPatternCounts::new();
    b.live_two = 10;
    a.add(&b);
    assert_eq!(a.live_two, 255);
    let mut c = CachedPatternCounts::new();
    c.subtract(&b);
    assert_eq!(c.live_two, 0);
}

#[test]
fn zone_coordinates_and_bounds() {
    let cache = IncrementalHeuristicCache::new(19);
    assert_eq!(cache.zone_rows, 3);
    assert_eq!(cache.zone_cols, 3);
    let z = cache.get_zone_coord(10, 17);
    assert_eq!(z, ZoneCoord { zone_row: 1, zone_col: 2 });
    assert_eq!(cache.get_zone_bounds(z), (8, 16, 16, 19));
    let zones = cache.get_affected_zones(9, 9);
    assert_eq!(zones, vec![ZoneCoord { zone_row: 1, zone_col: 1 }, ZoneCoord { zone_row: 0, zone_col: 1 }, ZoneCoord { zone_row: 1, zone_col: 0 }]);
    let zones = cache.get_affected_zones(4, 4);
    assert_eq!(zones, vec![ZoneCoord { zone_row: 0, zone_col: 0 }]);
}

#[test]
fn invalidating_a_position_marks_zones_dirty() {
    let mut cache = IncrementalHeuristicCache::new(19);
    cache.cache_valid = true;
    cache.invalidate_position(9, 9);
    assert!(!cache.cache_valid);
    assert_eq!(cache.dirty_zones.len(), 3);
    cache.invalidate_position(9, 9);
    assert_eq!(cache.dirty_zones.len(), 3);
    cache.invalidate_zones(&[ZoneCoord { zone_row: 5, zone_col: 5 }]);
    assert_eq!(cache.dirty_zones.len(), 3);
    cache.clear();
    assert!(cache.dirty_zones.is_empty());
}

#[test]
fn incremental_counts_start_at_zero() {
    let c = IncrementalPatternCounts::new();
    assert_eq!(c.max_live_four, 0);
    assert_eq!(c.min_five_in_row, 0);
}

#[test]
fn incremental_counts_after_a_move() {
    let mut b = Board::new(15);
    b.place_stone(7, 5, Player::Max);
    b.place_stone(7, 6, Player::Max);
    b.place_stone(7, 7, Player::Max);
    let mut c = IncrementalPatternCounts::new();
    c.update_after_move(&b, 7, 7, Player::Max, 5);
    let mut expected = IncrementalPatternCounts::new();
    expected.max_live_three = 1;
    assert_eq!(c, expected);
    c.recompute_full(&b, 5);
    expected.max_live_three = 3;
    assert_eq!(c, expected);
}

#[test]
fn incremental_counts_half_free_two() {
    let mut b = Board::new(15);
    b.place_stone(3, 3, Player::Max);
    b.place_stone(3, 4, Player::Min);
    b.place_stone(3, 5, Player::Min);
    b.place_stone(3, 6, Player::Max);
    let mut c = IncrementalPatternCounts::default();
    c.update_after_move(&b, 3, 5, Player::Min, 5);
    assert_eq!(c.min_half_free_two, 1);
    assert_eq!(c.min_live_two, 0);
    assert_eq!(c.max_half_free_two, 0);
}

fn zero_counters() -> ProfilingCounters {
    ProfilingCounters {
        minimax_calls: 0,
        tt_hits: 0,
        heuristic_calls: 0,
        move_generation_time: 0,
        heuristic_time: 0,
        tt_time: 0,
        killer_hits: 0,
        history_hits: 0,
    }
}

#[test]
fn search_context_orders_by_center_distance() {
    let mut ctx = SearchContext::new();
    let mut counters = zero_counters();
    let mut moves = vec![(0, 0), (9, 9), (5, 5)];
    ctx.order_moves(&mut moves, 5, Player::Max, None, &mut counters);
    assert_eq!(moves, vec![(9, 9), (5, 5), (0, 0)]);
    assert_eq!(counters.killer_hits, 0);
    assert_eq!(counters.history_hits, 0);
}

#[test]
fn search_context_puts_table_move_then_killers_first() {
    let mut ctx = SearchContext::new();
    ctx.record_killer((3, 3), 4);
    ctx.record_history_cutoff((8, 8), Player::Max, 10);
    let mut counters = zero_counters();
    let mut moves = vec![(9, 9), (3, 3), (0, 1), (8, 8)];
    ctx.order_moves(&mut moves, 4, Player::Max, Some((0, 1)), &mut counters);
    assert_eq!(moves, vec![(0, 1), (3, 3), (8, 8), (9, 9)]);
    assert_eq!(counters.killer_hits, 1);
    assert_eq!(counters.history_hits, 1);
}

#[test]
fn search_context_zero_limit_is_up_at_once() {
    let mut ctx = SearchContext::new();
    ctx.new_search(Some(0));
    assert!(ctx.is_time_up());
}

#[test]
fn eval_cache_evicts_when_full() {
    let mut c = EvalCache::new(4);
    for k in 1..=4u64 {
        c.store(k, 10, 1);
    }
    assert_eq!(c.size(), 4);
    c.store(5, 10, 1);
    assert!(c.size() <= 4);
    assert_eq!(c.probe(5, 1), Some(10));
    let mut one = EvalCache::new(1);
    one.store(1, 1, 1);
    one.store(2, 2, 1);
    assert_eq!(one.size(), 1);
    assert_eq!(one.probe(2, 1), Some(2));
}

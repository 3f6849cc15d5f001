use gomoku::ai::config::AIConfig;
use gomoku::ai::heuristic::{score_consecutive_pattern, score_gapped_pattern};
use gomoku::ai::lazy_smp::{
    combine_worker_results, final_choice, worker_aspiration_offset, worker_depth_offset, worker_search_depth,
    WorkerProgress,
};
use gomoku::ai::move_generation::MoveGenerator;
use gomoku::ai::move_ordering::MoveGenerator as MoveOrderer;
use gomoku::ai::pattern_utils::get_pattern_score;
use gomoku::ai::patterns::{get_pattern_table, PatternTable};
use gomoku::board::{Board, Player};
use gomoku::patterns::PatternFreedom;
use gomoku::zobrist::ZobristHash;

#[test]
fn pattern_table_scores() {
    let table = PatternTable::new();
    assert_eq!(table.lookup_pattern(0), 0);
    assert_eq!(table.lookup_pattern(121), 100_000);
    assert_eq!(table.lookup_pattern(242), -100_000);
    assert_eq!(table.lookup_pattern(120), 10_000);
    assert_eq!(table.lookup_pattern(112), 50_000);
    assert_eq!(table.lookup_pattern(13), 5_000);
    assert_eq!(table.lookup_pattern(91), 1_000);
    assert_eq!(table.lookup_pattern(4), 100);
    assert_eq!(table.lookup_pattern(82), 10);
    assert_eq!(table.lookup_pattern(8), -100);
    assert_eq!(table.lookup_pattern(5), 0);
    assert_eq!(table.lookup_pattern(243), 0);
    assert_eq!(get_pattern_table().lookup_pattern(121), 100_000);
}

#[test]
fn pattern_scores() {
    assert_eq!(get_pattern_score(5, PatternFreedom::Flanked), 100_000);
    assert_eq!(get_pattern_score(4, PatternFreedom::Free), 15_000);
    assert_eq!(get_pattern_score(4, PatternFreedom::Flanked), 400);
    assert_eq!(get_pattern_score(3, PatternFreedom::HalfFree), 200);
    assert_eq!(get_pattern_score(3, PatternFreedom::Flanked), 50);
    assert_eq!(get_pattern_score(2, PatternFreedom::Flanked), 0);
    assert_eq!(get_pattern_score(6, PatternFreedom::Free), 0);
    assert_eq!(score_consecutive_pattern(5, PatternFreedom::Free), 1_000_000);
    assert_eq!(score_consecutive_pattern(4, PatternFreedom::HalfFree), 3_500);
    assert_eq!(score_consecutive_pattern(2, PatternFreedom::Free), 50);
    assert_eq!(score_consecutive_pattern(4, PatternFreedom::Flanked), 0);
    assert_eq!(score_gapped_pattern(4, 1), 400);
    assert_eq!(score_gapped_pattern(3, 2), 100);
    assert_eq!(score_gapped_pattern(2, 2), 15);
    assert_eq!(score_gapped_pattern(5, 3), 5);
}

#[test]
fn default_config_values() {
    let c = AIConfig::default();
    assert_eq!(c.heuristic.scores.winning_score, 1_000_000);
    assert_eq!(c.heuristic.scores.live_three_score, 500);
    assert_eq!(c.move_generation.center_position_bonus, 10);
    assert_eq!(c.pattern_history.history_window, 4);
    assert_eq!(c.search.parallel.aspiration_offsets, vec![0, 25, -25, 75, -75]);
    assert_eq!(c.search.parallel.depth_offsets, vec![0, -1, 1, -2]);
}

#[test]
fn zobrist_move_update_is_its_own_inverse() {
    let z = ZobristHash::new(15);
    assert_eq!(z.board_size(), 15);
    let h0: u64 = 0x1234_5678_9abc_def0;
    let h1 = z.update_hash_make_move(h0, 3, 4, Player::Max);
    assert_ne!(h1, h0);
    assert_eq!(z.update_hash_undo_move(h1, 3, 4, Player::Max), h0);
    let h2 = z.update_hash_capture(h0, &[(1, 1), (1, 2)], Player::Min);
    assert_ne!(h2, h0);
    assert_eq!(z.update_hash_capture(h2, &[(1, 1), (1, 2)], Player::Min), h0);
}

#[test]
fn zobrist_keys_are_reproducible() {
    let a = ZobristHash::new(15);
    let b = ZobristHash::new(15);
    assert_eq!(a.update_hash_make_move(0, 7, 7, Player::Min), b.update_hash_make_move(0, 7, 7, Player::Min));
}

#[test]
fn worker_parameters() {
    assert_eq!(worker_depth_offset(0), 0);
    assert_eq!(worker_depth_offset(1), -1);
    assert_eq!(worker_depth_offset(2), 1);
    assert_eq!(worker_depth_offset(3), -2);
    assert_eq!(worker_depth_offset(4), 1);
    assert_eq!(worker_depth_offset(5), -1);
    assert_eq!(worker_depth_offset(6), 0);
    assert_eq!(worker_aspiration_offset(0), 0);
    assert_eq!(worker_aspiration_offset(1), 50);
    assert_eq!(worker_aspiration_offset(6), -50);
    assert_eq!(worker_aspiration_offset(7), 0);
    assert_eq!(worker_search_depth(1, -2), 1);
    assert_eq!(worker_search_depth(5, 1), 6);
}

#[test]
fn worker_progress_keeps_results_with_moves() {
    let mut p = WorkerProgress::new();
    assert!(!p.record_iteration(120, 50, Some((3, 3)), 2));
    assert_eq!(p.best_move, Some((3, 3)));
    assert_eq!(p.best_score, 120);
    assert_eq!(p.depth_reached, 2);
    assert!(!p.record_iteration(900, 10, None, 3));
    assert_eq!(p.best_score, 120);
    assert_eq!(p.total_nodes, 60);
    assert!(p.record_iteration(-1_000_000, 5, Some((1, 1)), 4));
    assert_eq!(p.best_move, Some((1, 1)));
}

#[test]
fn worker_results_are_combined() {
    let results = vec![
        (10, Some((1, 1)), 3, 100),
        (50, None, 5, 100),
        (40, Some((2, 2)), 2, 100),
        (40, Some((3, 3)), 4, 100),
    ];
    assert_eq!(combine_worker_results(&results), (40, Some((2, 2)), 5));
    assert_eq!(combine_worker_results(&Vec::new()), (i32::MIN, None, 0));
    assert_eq!(final_choice((40, Some((2, 2)), 5), 60, Some((9, 9)), 3), (60, Some((9, 9)), 5));
    assert_eq!(final_choice((40, Some((2, 2)), 5), 60, None, 7), (40, Some((2, 2)), 7));
}

#[test]
fn move_generators_on_empty_board() {
    let b = Board::new(19);
    assert_eq!(MoveGenerator::get_candidate_moves(&b, Player::Max), vec![(9, 9)]);
    assert_eq!(MoveOrderer::order_moves(&b, Player::Min), vec![(9, 9)]);
}

#[test]
fn ordered_moves_are_legal_empty_squares() {
    let mut b = Board::new(15);
    b.place_stone(7, 7, Player::Max);
    b.place_stone(7, 8, Player::Max);
    b.place_stone(8, 8, Player::Min);
    for moves in [MoveOrderer::order_moves(&b, Player::Max), MoveGenerator::get_candidate_moves(&b, Player::Min)] {
        assert!(!moves.is_empty());
        let mut seen = std::collections::HashSet::new();
        for &(r, c) in &moves {
            assert!(r < 15 && c < 15);
            assert_eq!(b.get_player(r, c), None);
            assert!(seen.insert((r, c)));
        }
    }
}

#[test]
fn ordering_puts_winning_squares_first() {
    let mut b = Board::new(15);
    for c in 4..8 {
        b.place_stone(7, c, Player::Max);
    }
    let moves = MoveOrderer::order_moves(&b, Player::Max);
    let first_two = &moves[..2];
    assert!(first_two.contains(&(7, 3)));
    assert!(first_two.contains(&(7, 8)));
}

#[test]
fn ordering_adds_the_capture_bonus() {
    let mut b = Board::new(19);
    b.place_stone(9, 9, Player::Max);
    b.place_stone(9, 10, Player::Max);
    b.place_stone(10, 12, Player::Min);
    b.place_stone(11, 13, Player::Min);
    b.place_stone(12, 14, Player::Max);
    let moves = MoveOrderer::order_moves(&b, Player::Max);
    assert_eq!(moves[0], (9, 11));
    assert!(moves.contains(&(9, 8)));
}

#[test]
fn candidates_are_exactly_the_scored_squares() {
    let mut b = Board::new(19);
    b.place_stone(9, 9, Player::Max);
    b.place_stone(9, 10, Player::Max);
    let mut moves = MoveGenerator::get_candidate_moves(&b, Player::Min);
    moves.sort();
    assert_eq!(moves, vec![(9, 8), (9, 11)]);
}

#[test]
fn pattern_scores_flip_sign_with_the_players() {
    let table = get_pattern_table();
    for p in 0u32..243 {
        let mut q = 0u32;
        let mut rest = p;
        let mut w = 1u32;
        for _ in 0..5 {
            let d = rest % 3;
            let sd = if d == 1 { 2 } else if d == 2 { 1 } else { 0 };
            q += sd * w;
            w *= 3;
            rest /= 3;
        }
        assert_eq!(table.lookup_pattern(q), -table.lookup_pattern(p));
    }
}

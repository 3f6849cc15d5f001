use std::time::Instant;

use gomoku::ai::heuristic::{Heuristic, WINNING_SCORE};
use gomoku::ai::minimax::mtdf;
use gomoku::ai::transposition::TranspositionTable;
use gomoku::board::Player;
use gomoku::state::GameState;

fn open_four_for_max() -> GameState {
    let mut state = GameState::new(15, 5);
    let min_moves = [(12, 0), (12, 2), (12, 4), (0, 14)];
    for i in 0..4 {
        state.make_move((7, 4 + i));
        state.make_move(min_moves[i]);
    }
    state
}

#[test]
fn mtdf_finds_the_winning_move() {
    let mut state = open_four_for_max();
    let hash = state.hash();
    let mut tt = TranspositionTable::new(10_000);
    let start = Instant::now();
    let (score, nodes, best) = mtdf(&mut state, 0, 1, &mut tt, &start, None);
    assert_eq!(score, WINNING_SCORE);
    assert!(nodes >= 1);
    let mv = best.expect("a best move");
    assert!(mv == (7, 3) || mv == (7, 8));
    assert_eq!(state.hash(), hash);
    assert_eq!(tt.get_best_move(hash), best);
    state.make_move(mv);
    assert_eq!(state.winner, Some(Player::Max));
}

#[test]
fn mtdf_leaves_the_position_unchanged() {
    let mut state = GameState::new(15, 5);
    state.make_move((7, 7));
    state.make_move((7, 8));
    state.make_move((8, 8));
    let hash = state.hash();
    let history = state.move_history.clone();
    let mut cells = Vec::new();
    for r in 0..15 {
        for c in 0..15 {
            cells.push(state.board.get_player(r, c));
        }
    }
    let mut tt = TranspositionTable::new(10_000);
    let start = Instant::now();
    let (_score, nodes, best) = mtdf(&mut state, 0, 2, &mut tt, &start, None);
    assert!(nodes >= 1);
    assert!(best.is_some());
    assert_eq!(state.hash(), hash);
    assert_eq!(state.move_history, history);
    assert_eq!(state.current_player, Player::Min);
    let mut after = Vec::new();
    for r in 0..15 {
        for c in 0..15 {
            after.push(state.board.get_player(r, c));
        }
    }
    assert_eq!(after, cells);
}

#[test]
fn mtdf_with_time_limit_returns() {
    let mut state = open_four_for_max();
    let mut tt = TranspositionTable::new(10_000);
    let start = Instant::now();
    let (_score, _nodes, _best) = mtdf(&mut state, 0, 2, &mut tt, &start, Some(60_000));
    assert!(state.winner.is_none());
}

#[test]
fn evaluation_of_a_won_position() {
    let mut state = open_four_for_max();
    state.make_move((7, 8));
    assert_eq!(Heuristic::evaluate(&state, 0), WINNING_SCORE);
}

#[test]
fn evaluation_of_empty_board_is_zero() {
    let state = GameState::new(15, 5);
    assert_eq!(Heuristic::evaluate(&state, 0), 0);
}

#[test]
fn capture_bonus_matches_square_root_formula() {
    for n in 0..=433usize {
        let mut state = GameState::new(15, 5);
        state.max_captures = n;
        state.capture_to_win = 1000;
        let expected = (15_000f32 * (n as f32).sqrt()) as i32;
        assert_eq!(Heuristic::evaluate(&state, 0), expected, "n = {}", n);
        state.max_captures = 0;
        state.min_captures = n;
        assert_eq!(Heuristic::evaluate(&state, 0), -expected, "n = {}", n);
    }
}

#[test]
fn capture_bonus_of_two_pairs() {
    let mut state = GameState::new(15, 5);
    state.max_captures = 2;
    assert_eq!(Heuristic::evaluate(&state, 0), 21213);
    state.min_captures = 1;
    assert_eq!(Heuristic::evaluate(&state, 0), 6213);
}

#[test]
fn evaluation_counts_an_open_three() {
    let mut state = GameState::new(15, 5);
    let min_moves = [(0, 0), (0, 14), (14, 0)];
    for i in 0..3 {
        state.make_move((7, 5 + i));
        state.make_move(min_moves[i]);
    }
    assert_eq!(Heuristic::evaluate(&state, 0), 500);
}

#[test]
fn evaluation_counts_a_gapped_three() {
    let mut state = GameState::new(15, 5);
    let max_moves = [(7, 5), (7, 6), (7, 8)];
    let min_moves = [(0, 0), (0, 14), (14, 0)];
    for i in 0..3 {
        state.make_move(max_moves[i]);
        state.make_move(min_moves[i]);
    }
    // The run (7,5)-(7,6) is a live two (50); the gapped three scores 150.
    assert_eq!(Heuristic::evaluate(&state, 0), 200);
}

use rand::Rng;
use rand_chacha::rand_core::SeedableRng;
use gomoku::board::Player;
use gomoku::rules::double_three::DoubleThreeDetection;
use gomoku::state::GameState;

fn stones(state: &GameState) -> Vec<Option<Player>> {
    let mut out = Vec::new();
    for r in 0..state.board.size {
        for c in 0..state.board.size {
            out.push(state.board.get_player(r, c));
        }
    }
    out
}

#[test]
fn new_state_is_an_empty_game() {
    let state = GameState::new(19, 5);
    assert_eq!(state.board.size, 19);
    assert_eq!(state.current_player, Player::Max);
    assert_eq!(state.win_condition, 5);
    assert_eq!(state.capture_to_win, 5);
    assert_eq!(state.max_captures, 0);
    assert_eq!(state.min_captures, 0);
    assert!(state.winner.is_none());
    assert!(state.board.is_empty());
    assert!(state.move_history.is_empty());
    assert_eq!(state.hash(), state.zobrist_hash.compute_hash(&state));
}

#[test]
fn make_move_places_stone_and_passes_turn() {
    let mut state = GameState::new(15, 5);
    state.make_move((7, 7));
    assert_eq!(state.board.get_player(7, 7), Some(Player::Max));
    assert_eq!(state.current_player, Player::Min);
    assert_eq!(state.move_history, vec![(7, 7)]);
    assert_eq!(state.capture_history.len(), 1);
    assert!(state.capture_history[0].is_empty());
    state.make_move((7, 8));
    assert_eq!(state.board.get_player(7, 8), Some(Player::Min));
    assert_eq!(state.current_player, Player::Max);
}

#[test]
fn hash_follows_the_position() {
    let mut state = GameState::new(15, 5);
    let empty_hash = state.hash();
    state.make_move((3, 4));
    assert_ne!(state.hash(), empty_hash);
    assert_eq!(state.hash(), state.zobrist_hash.compute_hash(&state));
    state.make_move((5, 6));
    assert_eq!(state.hash(), state.zobrist_hash.compute_hash(&state));
    state.undo_move((5, 6));
    state.undo_move((3, 4));
    assert_eq!(state.hash(), empty_hash);
}

#[test]
fn undo_restores_previous_position() {
    let mut state = GameState::new(15, 5);
    state.make_move((7, 7));
    state.make_move((8, 8));
    state.make_move((6, 6));
    let before = stones(&state);
    let hash = state.hash();
    let player = state.current_player;
    state.make_move((9, 9));
    state.undo_move((9, 9));
    assert_eq!(stones(&state), before);
    assert_eq!(state.hash(), hash);
    assert_eq!(state.current_player, player);
    assert_eq!(state.move_history, vec![(7, 7), (8, 8), (6, 6)]);
    assert_eq!(state.capture_history.len(), 3);
}

#[test]
fn flanked_pair_is_captured_and_undo_restores_it() {
    let mut state = GameState::new(15, 5);
    state.make_move((0, 0)); // Max
    state.make_move((0, 1)); // Min
    state.make_move((10, 10)); // Max
    state.make_move((0, 2)); // Min
    let before = stones(&state);
    let hash = state.hash();
    state.make_move((0, 3)); // Max flanks the pair
    assert_eq!(state.board.get_player(0, 1), None);
    assert_eq!(state.board.get_player(0, 2), None);
    assert_eq!(state.board.get_player(0, 3), Some(Player::Max));
    assert_eq!(state.max_captures, 1);
    assert_eq!(state.min_captures, 0);
    assert_eq!(state.capture_history.last().unwrap().len(), 2);
    assert_eq!(state.hash(), state.zobrist_hash.compute_hash(&state));
    state.undo_move((0, 3));
    assert_eq!(stones(&state), before);
    assert_eq!(state.max_captures, 0);
    assert_eq!(state.hash(), hash);
    assert_eq!(state.current_player, Player::Max);
}

#[test]
fn five_in_a_row_wins() {
    let mut state = GameState::new(15, 5);
    let min_moves = [(12, 0), (12, 2), (12, 4), (12, 6)];
    for i in 0..4 {
        state.make_move((5, 5 + i));
        state.make_move(min_moves[i]);
    }
    assert!(state.winner.is_none());
    assert!(!state.is_terminal());
    state.make_move((5, 9));
    assert_eq!(state.winner, Some(Player::Max));
    assert_eq!(state.check_winner(), Some(Player::Max));
    assert!(state.is_terminal());
}

#[test]
fn occupied_and_off_board_moves_are_illegal() {
    let mut state = GameState::new(15, 5);
    assert!(state.is_move_legal((7, 7)));
    state.make_move((7, 7));
    assert!(!state.is_move_legal((7, 7)));
    assert!(!state.is_move_legal((15, 0)));
    assert!(!state.is_move_legal((0, 15)));
    assert!(state.is_move_legal((0, 0)));
}

#[test]
fn legal_moves_on_empty_board_are_all_squares() {
    let state = GameState::new(9, 5);
    let moves = state.get_legal_moves();
    assert_eq!(moves.len(), 81);
    assert_eq!(moves[0], (0, 0));
    assert_eq!(moves[80], (8, 8));
}

#[test]
fn candidate_moves_on_empty_board_is_center() {
    let state = GameState::new(19, 5);
    assert_eq!(state.get_candidate_moves(), vec![(9, 9)]);
    let state = GameState::with_defaults(15, 5);
    assert_eq!(state.get_candidate_moves(), vec![(7, 7)]);
}

#[test]
fn candidate_moves_are_empty_squares() {
    let mut state = GameState::new(15, 5);
    state.make_move((7, 7));
    state.make_move((7, 8));
    state.make_move((8, 7));
    let moves = state.get_candidate_moves();
    assert!(!moves.is_empty());
    for (r, c) in moves {
        assert!(r < 15 && c < 15);
        assert_eq!(state.board.get_player(r, c), None);
    }
}

#[test]
fn capture_win_is_detected_from_counts() {
    let mut state = GameState::new(15, 5);
    assert_eq!(state.check_capture_win(), None);
    state.max_captures = 5;
    assert_eq!(state.check_capture_win(), Some(Player::Max));
    state.max_captures = 4;
    state.min_captures = 5;
    assert_eq!(state.check_capture_win(), Some(Player::Min));
}

#[test]
fn double_three_positions_are_listed() {
    let mut state = GameState::new(19, 5);
    let max_moves = [(9, 10), (9, 11), (10, 9), (11, 9)];
    let min_moves = [(0, 0), (0, 2), (0, 4), (0, 6)];
    for i in 0..4 {
        state.make_move(max_moves[i]);
        state.make_move(min_moves[i]);
    }
    let positions = state.get_double_three_positions();
    assert!(positions.contains(&(9, 9)));
    let mut expected = Vec::new();
    for r in 0..19 {
        for c in 0..19 {
            if state.board.get_player(r, c).is_none()
                && DoubleThreeDetection::creates_double_three(&state.board, r, c, Player::Max)
            {
                expected.push((r, c));
            }
        }
    }
    assert_eq!(positions, expected);
    assert!(!state.is_move_legal((9, 9)));
    assert!(GameState::new(19, 5).get_double_three_positions().is_empty());
}

#[test]
fn zobrist_keys_follow_the_seeded_stream() {
    let mut rng = rand_chacha::ChaCha8Rng::seed_from_u64(gomoku::zobrist::ZOBRIST_SEED);
    let mut keys: Vec<u64> = Vec::new();
    for _ in 0..(2 * 15 * 15 + 1) {
        keys.push(rng.random::<u64>());
    }
    let side = keys[2 * 15 * 15];
    let mut state = GameState::new(15, 5);
    let empty = state.hash();
    state.make_move((0, 1));
    assert_eq!(state.hash(), empty ^ keys[2] ^ side);
    state.make_move((3, 4));
    assert_eq!(state.hash(), empty ^ keys[2] ^ keys[2 * (3 * 15 + 4) + 1]);
}

#[test]
fn undo_recomputes_the_check_square() {
    let mut state = GameState::new(19, 5);
    for mv in [(5, 3), (4, 5), (5, 4), (0, 0), (5, 5), (0, 2), (6, 5), (0, 4), (5, 6), (0, 8)] {
        state.make_move(mv);
    }
    state.make_move((5, 7));
    assert!(state.winner.is_none());
    assert_eq!(state.player_in_check, Some(Player::Max));
    assert_eq!(state.check_position, Some((5, 7)));
    state.make_move((10, 10));
    state.undo_move((10, 10));
    assert_eq!(state.player_in_check, Some(Player::Max));
    assert_eq!(state.check_position, Some((5, 3)));
}

use gomoku::board::{Board, Player};
use gomoku::captures::CaptureHandler;
use gomoku::patterns::{PatternAnalyzer, PatternFreedom};
use gomoku::rules::capture_breaking::CaptureBreaking;
use gomoku::rules::double_three::DoubleThreeDetection;
use gomoku::rules::win_detection::WinDetection;
use gomoku::state::GameState;

fn board_with(size: usize, max: &[(usize, usize)], min: &[(usize, usize)]) -> Board {
    let mut b = Board::new(size);
    for &(r, c) in max {
        b.place_stone(r, c, Player::Max);
    }
    for &(r, c) in min {
        b.place_stone(r, c, Player::Min);
    }
    b
}

#[test]
fn board_basics() {
    let mut b = Board::new(19);
    assert!(b.is_empty());
    assert_eq!(b.count_stones(), 0);
    assert_eq!(b.center(), (9, 9));
    assert_eq!(b.index(2, 3), 41);
    assert!(b.is_valid_position(18, 18));
    assert!(!b.is_valid_position(19, 0));
    b.place_stone(3, 4, Player::Min);
    assert_eq!(b.get_player(3, 4), Some(Player::Min));
    assert!(!b.is_empty_position(3, 4));
    assert_eq!(b.count_player_stones(Player::Min), 1);
    assert_eq!(b.count_player_stones(Player::Max), 0);
    assert!(b.is_adjacent_to_stone(4, 5));
    assert!(!b.is_adjacent_to_stone(6, 6));
    assert_eq!(b.get_empty_positions().len(), 360);
    assert_eq!(b.get_occupied_positions(), vec![((3, 4), Player::Min)]);
    b.remove_stone(3, 4);
    assert!(b.is_empty());
    assert_eq!(b.get_player(3, 4), None);
}

#[test]
fn full_board() {
    let mut b = Board::new(2);
    assert!(!b.is_full());
    b.place_stone(0, 0, Player::Max);
    b.place_stone(0, 1, Player::Min);
    b.place_stone(1, 0, Player::Max);
    assert!(!b.is_full());
    b.place_stone(1, 1, Player::Min);
    assert!(b.is_full());
    assert_eq!(b.count_stones(), 4);
}

#[test]
fn flanked_pairs_are_detected_and_removed() {
    let mut b = board_with(15, &[(5, 5), (5, 2)], &[(5, 3), (5, 4), (6, 6), (7, 7)]);
    b.place_stone(8, 8, Player::Max);
    let caps = CaptureHandler::detect_captures(&b, 5, 5, Player::Max);
    assert_eq!(caps, vec![(5, 4), (5, 3), (6, 6), (7, 7)]);
    let caps2 = CaptureHandler::detect_captures(&b, 8, 8, Player::Max);
    assert_eq!(caps2, vec![(7, 7), (6, 6)]);
    CaptureHandler::execute_captures(&mut b, &caps2);
    assert_eq!(b.get_player(6, 6), None);
    assert_eq!(b.get_player(7, 7), None);
    assert_eq!(b.get_player(5, 4), Some(Player::Min));
    CaptureHandler::execute_captures(&mut b, &caps);
    assert_eq!(b.get_player(5, 3), None);
    assert_eq!(b.get_player(5, 4), None);
    assert!(CaptureHandler::detect_captures(&b, 0, 0, Player::Min).is_empty());
}

#[test]
fn win_detection_in_each_direction() {
    let horizontal = board_with(15, &[(2, 2), (2, 3), (2, 4), (2, 5), (2, 6)], &[]);
    assert!(WinDetection::check_win_around(&horizontal, 2, 4, 5));
    assert!(!WinDetection::check_win_around(&horizontal, 3, 4, 5));
    let diagonal = board_with(15, &[(1, 1), (2, 2), (3, 3), (4, 4), (5, 5)], &[]);
    assert!(WinDetection::check_win_around(&diagonal, 3, 3, 5));
    let anti = board_with(15, &[], &[(1, 5), (2, 4), (3, 3), (4, 2)]);
    assert!(!WinDetection::check_win_around(&anti, 2, 4, 5));
    assert!(WinDetection::check_win_around(&anti, 2, 4, 4));
    assert_eq!(WinDetection::check_capture_win(5, 2, 5), Some(Player::Max));
    assert_eq!(WinDetection::check_capture_win(2, 6, 5), Some(Player::Min));
    assert_eq!(WinDetection::check_capture_win(4, 4, 5), None);
}

fn breakable_five() -> Board {
    board_with(15, &[(5, 5), (5, 6), (5, 7), (5, 8), (5, 9), (6, 5)], &[(4, 5)])
}

#[test]
fn five_with_capturable_pair_is_breakable() {
    let b = breakable_five();
    assert_eq!(WinDetection::check_win_and_breakable(&b, 5, 7, 5), (true, true));
    assert!(CaptureBreaking::can_break_five_by_capture(&b, 5, 7, Player::Max));
    assert_eq!(CaptureBreaking::get_breaking_capture_moves(&b, 5, 7, Player::Max), vec![(7, 5)]);
    let solid = board_with(15, &[(5, 5), (5, 6), (5, 7), (5, 8), (5, 9)], &[]);
    assert_eq!(WinDetection::check_win_and_breakable(&solid, 5, 7, 5), (true, false));
    assert!(!CaptureBreaking::can_break_five_by_capture(&solid, 5, 7, Player::Max));
    assert!(CaptureBreaking::get_breaking_capture_moves(&solid, 5, 7, Player::Max).is_empty());
}

#[test]
fn breakable_five_puts_opponent_in_check() {
    let mut state = GameState::new(15, 5);
    let max_moves = [(5, 5), (5, 6), (5, 7), (5, 8), (6, 5)];
    let min_moves = [(4, 5), (12, 0), (12, 2), (12, 4), (12, 6)];
    for i in 0..5 {
        state.make_move(max_moves[i]);
        state.make_move(min_moves[i]);
    }
    state.make_move((5, 9));
    assert_eq!(state.winner, None);
    assert_eq!(state.player_in_check, Some(Player::Max));
    assert_eq!(state.check_position, Some((5, 9)));
    assert_eq!(state.get_candidate_moves(), vec![(7, 5)]);
    assert!(state.is_move_legal((7, 5)));
    assert!(!state.is_move_legal((0, 0)));
    state.make_move((7, 5));
    assert_eq!(state.board.get_player(5, 5), None);
    assert_eq!(state.board.get_player(6, 5), None);
    assert_eq!(state.min_captures, 1);
    assert_eq!(state.winner, None);
    assert_eq!(state.player_in_check, None);
}

#[test]
fn check_that_can_no_longer_be_broken_becomes_a_win() {
    let mut state = GameState::new(15, 5);
    let max_moves = [(5, 5), (5, 6), (5, 7), (5, 8), (6, 5)];
    let min_moves = [(4, 5), (12, 0), (12, 2), (12, 4), (12, 6)];
    for i in 0..5 {
        state.make_move(max_moves[i]);
        state.make_move(min_moves[i]);
    }
    state.make_move((5, 9));
    state.make_move((0, 0));
    assert_eq!(state.winner, None);
    assert_eq!(state.player_in_check, Some(Player::Max));
    state.make_move((7, 5));
    assert_eq!(state.winner, Some(Player::Max));
    assert_eq!(state.player_in_check, None);
}

#[test]
fn double_three_is_detected() {
    let b = board_with(19, &[(9, 10), (9, 11), (10, 9), (11, 9)], &[]);
    assert!(DoubleThreeDetection::creates_double_three(&b, 9, 9, Player::Max));
    assert!(!DoubleThreeDetection::creates_double_three(&b, 9, 9, Player::Min));
    let single = board_with(19, &[(9, 10), (9, 11)], &[]);
    assert!(!DoubleThreeDetection::creates_double_three(&single, 9, 9, Player::Max));
    assert_eq!(DoubleThreeDetection::calculate_gap((2, 3), (5, 9), 1, 0), 3);
    assert_eq!(DoubleThreeDetection::calculate_gap((2, 3), (5, 9), 0, 1), 6);
}

#[test]
fn capturing_move_is_never_a_double_three() {
    let b = board_with(19, &[(9, 10), (9, 11), (10, 9), (11, 9), (9, 6)], &[(9, 7), (9, 8)]);
    assert!(!DoubleThreeDetection::creates_double_three(&b, 9, 9, Player::Max));
}

#[test]
fn pattern_analysis() {
    let b = board_with(15, &[(7, 5), (7, 6), (7, 7)], &[(7, 8)]);
    assert_eq!(PatternAnalyzer::count_consecutive(&b, 7, 5, 0, 1, Player::Max), 2);
    assert_eq!(PatternAnalyzer::count_consecutive_bidirectional(&b, 7, 6, 0, 1, Player::Max), 3);
    assert_eq!(PatternAnalyzer::find_pattern_start(&b, 7, 7, 0, 1, Player::Max), (7, 5));
    assert_eq!(PatternAnalyzer::analyze_pattern_freedom(&b, 7, 5, 0, 1, 3), PatternFreedom::HalfFree);
    let info = PatternAnalyzer::analyze_consecutive_from_position(&b, 7, 6, 0, 1, Player::Max, 5);
    assert_eq!(info, Some((3, 7, 5, 8, PatternFreedom::HalfFree)));
    assert_eq!(PatternAnalyzer::manhattan_distance(1, 5, 4, 1), 7);
    assert_eq!(PatternAnalyzer::count_adjacent_stones(&b, 6, 6), 3);
    assert!(PatternAnalyzer::is_valid_empty(&b, 0, 0));
    assert!(!PatternAnalyzer::is_valid_empty(&b, -1, 0));
    assert!(PatternAnalyzer::is_valid_occupied(&b, 7, 8));
}

#[test]
fn gapped_patterns() {
    let b = board_with(15, &[(3, 3), (3, 4), (3, 6)], &[]);
    let stones = PatternAnalyzer::collect_gapped_stones(&b, 3, 4, 0, 1, Player::Max, 6);
    assert_eq!(stones, vec![(3, 3), (3, 4), (3, 6)]);
    assert_eq!(PatternAnalyzer::analyze_gapped_pattern(&stones), Some((3, 1, 4)));
    assert_eq!(PatternAnalyzer::extract_gap_positions(&b, &stones, 0, 1), vec![(3, 5)]);
    assert_eq!(PatternAnalyzer::analyze_gapped_pattern(&[(0, 0), (0, 1)]), None);
}

use gomoku::ai::config::AIConfig;
use gomoku::ai::pattern_history::{MoveRecord, PatternHistoryAnalyzer};
use gomoku::board::Player;

#[test]
fn initiative_follows_recent_captures() {
    let config = AIConfig::default();
    let mut h = PatternHistoryAnalyzer::new();
    assert_eq!(h.move_count(), 0);
    assert!(h.latest_move().is_none());
    h.record_move(Player::Max, 1, &config);
    assert_eq!(h.initiative_bonus(Player::Max, &config), 0);
    h.record_move(Player::Min, 0, &config);
    assert_eq!(h.initiative_bonus(Player::Max, &config), 100);
    assert_eq!(h.initiative_bonus(Player::Min, &config), -100);
    h.record_move(Player::Min, 2, &config);
    assert_eq!(h.initiative_bonus(Player::Min, &config), 100);
    h.record_move(Player::Max, 0, &config);
    h.record_move(Player::Max, 0, &config);
    assert_eq!(h.move_count(), 4);
    assert_eq!(h.latest_move(), Some(&MoveRecord { player: Player::Max, captures_made: 0 }));
    assert_eq!(h.initiative_bonus(Player::Min, &config), 100);
    assert_eq!(h.recent_captures(Player::Min), 2);
    assert_eq!(h.recent_captures(Player::Max), 0);
    h.reset();
    assert_eq!(h.move_count(), 0);
    assert_eq!(h.initiative_bonus(Player::Min, &config), 0);
}

#[test]
fn window_drops_oldest_moves() {
    let config = AIConfig::default();
    let mut h = PatternHistoryAnalyzer::default();
    h.record_move(Player::Max, 3, &config);
    for _ in 0..4 {
        h.record_move(Player::Min, 0, &config);
    }
    assert_eq!(h.move_count(), 4);
    assert_eq!(h.initiative_bonus(Player::Max, &config), 0);
    assert_eq!(h.recent_captures(Player::Max), 0);
}

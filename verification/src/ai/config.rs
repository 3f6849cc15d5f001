//! Tunable parameters of the AI: pattern scores, move generation, the
//! pattern history and the parallel search. Reading and writing them as
//! TOML happens outside the library.

use vstd::prelude::*;

verus! {

#[derive(Clone, Debug)]
pub struct AIConfig {
    pub heuristic: HeuristicConfig,
    pub move_generation: MoveGenerationConfig,
    pub pattern_history: PatternHistoryConfig,
    pub search: SearchConfig,
}

#[derive(Clone, Debug)]
pub struct HeuristicConfig {
    pub scores: HeuristicScores,
}

#[derive(Clone, Copy, Debug, PartialEq, Eq, Structural)]
pub struct HeuristicScores {
    pub winning_score: i32,
    pub five_in_row_score: i32,
    pub live_four_multiple_score: i32,
    pub live_four_single_score: i32,
    pub capture_bonus_multiplier: i32,
    pub check_penalty: i32,
    pub winning_threat_score: i32,
    pub half_free_four_score: i32,
    pub live_three_score: i32,
    pub dead_four_score: i32,
    pub half_free_three_score: i32,
    pub dead_three_score: i32,
    pub live_two_score: i32,
    pub half_free_two_score: i32,
}

#[derive(Clone, Copy, Debug, PartialEq, Eq, Structural)]
pub struct MoveGenerationConfig {
    pub center_position_bonus: i32,
}

#[derive(Clone, Copy, Debug, PartialEq, Eq, Structural)]
pub struct PatternHistoryConfig {
    pub capture_momentum_bonus: i32,
    pub initiative_bonus: i32,
    pub history_window: usize,
}

#[derive(Clone, Debug)]
pub struct SearchConfig {
    pub parallel: ParallelSearchConfig,
}

#[derive(Clone, Debug)]
pub struct ParallelSearchConfig {
    pub aspiration_offsets: Vec<i32>,
    pub depth_offsets: Vec<i32>,
}

/// The default scores.
pub open spec fn default_scores() -> HeuristicScores {
    HeuristicScores {
        winning_score: 1_000_000,
        five_in_row_score: 100_000,
        live_four_multiple_score: 20_000,
        live_four_single_score: 15_000,
        capture_bonus_multiplier: 15_000,
        check_penalty: 10_000,
        winning_threat_score: 10_000,
        half_free_four_score: 3_500,
        live_three_score: 500,
        dead_four_score: 400,
        half_free_three_score: 200,
        dead_three_score: 50,
        live_two_score: 50,
        half_free_two_score: 20,
    }
}

impl Default for AIConfig {
    fn default() -> (c: Self)
        ensures
            c.heuristic.scores == default_scores(),
            c.move_generation.center_position_bonus == 10,
            c.pattern_history.capture_momentum_bonus == 200,
            c.pattern_history.initiative_bonus == 100,
            c.pattern_history.history_window == 4,
            c.search.parallel.aspiration_offsets@ == seq![0i32, 25i32, -25i32, 75i32, -75i32],
            c.search.parallel.depth_offsets@ == seq![0i32, -1i32, 1i32, -2i32],
    {
        let c = AIConfig {
            heuristic: HeuristicConfig {
                scores: HeuristicScores {
                    winning_score: 1_000_000,
                    five_in_row_score: 100_000,
                    live_four_multiple_score: 20_000,
                    live_four_single_score: 15_000,
                    capture_bonus_multiplier: 15_000,
                    check_penalty: 10_000,
                    winning_threat_score: 10_000,
                    half_free_four_score: 3_500,
                    live_three_score: 500,
                    dead_four_score: 400,
                    half_free_three_score: 200,
                    dead_three_score: 50,
                    live_two_score: 50,
                    half_free_two_score: 20,
                },
            },
            move_generation: MoveGenerationConfig { center_position_bonus: 10 },
            pattern_history: PatternHistoryConfig {
                capture_momentum_bonus: 200,
                initiative_bonus: 100,
                history_window: 4,
            },
            search: SearchConfig {
                parallel: ParallelSearchConfig {
                    aspiration_offsets: vec![0, 25, -25, 75, -75],
                    depth_offsets: vec![0, -1, 1, -2],
                },
            },
        };
        proof {
            assert(c.search.parallel.aspiration_offsets@ =~= seq![0i32, 25i32, -25i32, 75i32, -75i32]);
            assert(c.search.parallel.depth_offsets@ =~= seq![0i32, -1i32, 1i32, -2i32]);
        }
        c
    }
}

} // verus!

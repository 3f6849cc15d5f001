//! Pattern scoring shared by the evaluation and the move generator.

use vstd::prelude::*;
use crate::patterns::PatternFreedom;
use crate::ai::heuristic::{
    DEAD_FOUR_SCORE, DEAD_THREE_SCORE, FIVE_IN_ROW_SCORE, HALF_FREE_FOUR_SCORE,
    HALF_FREE_THREE_SCORE, HALF_FREE_TWO_SCORE, LIVE_FOUR_SINGLE_SCORE, LIVE_THREE_SCORE,
    LIVE_TWO_SCORE,
};

verus! {

/// Score of a run of `length` stones with the given freedom on the shared
/// scale; dead twos count nothing.
pub open spec fn spec_pattern_score(length: int, freedom: PatternFreedom) -> i32 {
    if length == 5 {
        FIVE_IN_ROW_SCORE
    } else if length == 4 {
        match freedom {
            PatternFreedom::Free => LIVE_FOUR_SINGLE_SCORE,
            PatternFreedom::HalfFree => HALF_FREE_FOUR_SCORE,
            PatternFreedom::Flanked => DEAD_FOUR_SCORE,
        }
    } else if length == 3 {
        match freedom {
            PatternFreedom::Free => LIVE_THREE_SCORE,
            PatternFreedom::HalfFree => HALF_FREE_THREE_SCORE,
            PatternFreedom::Flanked => DEAD_THREE_SCORE,
        }
    } else if length == 2 {
        match freedom {
            PatternFreedom::Free => LIVE_TWO_SCORE,
            PatternFreedom::HalfFree => HALF_FREE_TWO_SCORE,
            PatternFreedom::Flanked => 0,
        }
    } else {
        0
    }
}

pub fn get_pattern_score(length: usize, freedom: PatternFreedom) -> (s: i32)
    ensures
        s == spec_pattern_score(length as int, freedom),
{
    match length {
        5 => FIVE_IN_ROW_SCORE,
        4 => match freedom {
            PatternFreedom::Free => LIVE_FOUR_SINGLE_SCORE,
            PatternFreedom::HalfFree => HALF_FREE_FOUR_SCORE,
            PatternFreedom::Flanked => DEAD_FOUR_SCORE,
        },
        3 => match freedom {
            PatternFreedom::Free => LIVE_THREE_SCORE,
            PatternFreedom::HalfFree => HALF_FREE_THREE_SCORE,
            PatternFreedom::Flanked => DEAD_THREE_SCORE,
        },
        2 => match freedom {
            PatternFreedom::Free => LIVE_TWO_SCORE,
            PatternFreedom::HalfFree => HALF_FREE_TWO_SCORE,
            PatternFreedom::Flanked => 0,
        },
        _ => 0,
    }
}

} // verus!

//! Win detection: lines of `win_condition` stones through a square, whether
//! such a line can be broken by a capture, and wins by captured pairs.

use vstd::prelude::*;
use crate::board::{Board, Player};
use crate::patterns::{PatternAnalyzer, DIRECTIONS};
use crate::rules::capture_breaking::CaptureBreaking;

verus! {

/// The stone at `(r, c)` has a line of at least `win` along direction `k`.
pub open spec fn win_dir(b: Board, r: int, c: int, k: int, win: int) -> bool {
    match b.stone(r, c) {
        Some(p) => crate::rules::capture_breaking::line_len(b, r, c, k, p) >= win,
        None => false,
    }
}

/// The stone at `(r, c)` belongs to a line of at least `win` stones.
pub open spec fn spec_win_around(b: Board, r: int, c: int, win: int) -> bool {
    exists|k: int| 0 <= k < 4 && #[trigger] win_dir(b, r, c, k, win)
}

/// The winner by captured pairs, Max checked first.
pub open spec fn spec_capture_win(max_captures: int, min_captures: int, capture_to_win: int) -> Option<Player> {
    if max_captures >= capture_to_win {
        Some(Player::Max)
    } else if min_captures >= capture_to_win {
        Some(Player::Min)
    } else {
        None
    }
}

pub struct WinDetection;

impl WinDetection {
    /// Index of the first direction with a line of `win_condition` through the
    /// stone at `(row, col)`, if any.
    fn first_winning_direction(board: &Board, row: usize, col: usize, player: Player, win_condition: usize) -> (k: usize)
        requires
            board.wf(),
            board.in_bounds(row as int, col as int),
            board.stone(row as int, col as int) == Some(player),
        ensures
            k <= 4,
            k < 4 ==> win_dir(*board, row as int, col as int, k as int, win_condition as int),
            k == 4 ==> !spec_win_around(*board, row as int, col as int, win_condition as int),
    {
        proof {
            board.lemma_wf_facts();
        }
        let mut k: usize = 0;
        while k < 4
            invariant
                board.wf(),
                board.in_bounds(row as int, col as int),
                board.stone(row as int, col as int) == Some(player),
                8 * board.size < isize::MAX,
                k <= 4,
                forall|k2: int| 0 <= k2 < k ==> !#[trigger] win_dir(*board, row as int, col as int, k2, win_condition as int),
            decreases 4 - k,
        {
            let (dx, dy) = DIRECTIONS[k];
            assert(dx == crate::patterns::dir(k as int).0 && dy == crate::patterns::dir(k as int).1);
            let mut count: usize = 1;
            count = count + PatternAnalyzer::count_consecutive(board, row, col, dx, dy, player);
            count = count + PatternAnalyzer::count_consecutive(board, row, col, -dx, -dy, player);
            if count >= win_condition {
                return k;
            }
            k = k + 1;
        }
        k
    }

    /// Whether the stone at `(row, col)` is part of a line of at least
    /// `win_condition` stones. Empty and off-board squares never win.
    pub fn check_win_around(board: &Board, row: usize, col: usize, win_condition: usize) -> (b: bool)
        requires
            board.wf(),
        ensures
            b == spec_win_around(*board, row as int, col as int, win_condition as int),
    {
        if row >= board.size || col >= board.size {
            return false;
        }
        proof {
            board.lemma_cell_index(row as int, col as int);
            board.lemma_stone_occ(row as int, col as int);
        }
        let idx = board.index(row, col);
        if !Board::is_bit_set(board.occupied.as_slice(), idx) {
            return false;
        }
        let player = if Board::is_bit_set(board.max_bits.as_slice(), idx) {
            Player::Max
        } else {
            Player::Min
        };
        let k = Self::first_winning_direction(board, row, col, player, win_condition);
        k < 4
    }

    /// `(is_win, is_breakable)`: whether the stone at `(row, col)` is part of a
    /// winning line, and if so whether a line of five through it can be
    /// broken by a capture.
    pub fn check_win_and_breakable(board: &Board, row: usize, col: usize, win_condition: usize) -> (r: (bool, bool))
        requires
            board.wf(),
        ensures
            r.0 == spec_win_around(*board, row as int, col as int, win_condition as int),
            r.1 == (r.0 && crate::rules::capture_breaking::spec_can_break(
                *board,
                row as int,
                col as int,
                board.stone(row as int, col as int).unwrap(),
            )),
    {
        if row >= board.size || col >= board.size {
            return (false, false);
        }
        proof {
            board.lemma_cell_index(row as int, col as int);
            board.lemma_stone_occ(row as int, col as int);
        }
        let idx = board.index(row, col);
        if !Board::is_bit_set(board.occupied.as_slice(), idx) {
            return (false, false);
        }
        let player = if Board::is_bit_set(board.max_bits.as_slice(), idx) {
            Player::Max
        } else {
            Player::Min
        };
        let k = Self::first_winning_direction(board, row, col, player, win_condition);
        if k < 4 {
            let is_breakable = CaptureBreaking::can_break_five_by_capture(board, row, col, player);
            return (true, is_breakable);
        }
        (false, false)
    }

    /// The winner by captured pairs, if either side reached `capture_to_win`.
    pub fn check_capture_win(max_captures: usize, min_captures: usize, capture_to_win: usize) -> (w: Option<Player>)
        ensures
            w == spec_capture_win(max_captures as int, min_captures as int, capture_to_win as int),
    {
        if max_captures >= capture_to_win {
            Some(Player::Max)
        } else if min_captures >= capture_to_win {
            Some(Player::Min)
        } else {
            None
        }
    }
}

} // verus!

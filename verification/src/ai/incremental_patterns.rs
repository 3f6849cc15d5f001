//! Pattern counts per player, kept alongside a game state: for a stone,
//! the line through it in each direction is classified by its length and by
//! whether its ends are open, and the matching count goes up by one.

use vstd::prelude::*;
use crate::board::{Board, Player};
use crate::patterns::{dir, freedom_of, run_len, step, valid_empty, PatternAnalyzer, PatternFreedom, DIRECTIONS};

verus! {

#[derive(Debug, Clone, Copy, PartialEq, Eq, Hash, Structural)]
pub struct IncrementalPatternCounts {
    pub max_five_in_row: u8,
    pub max_live_four: u8,
    pub max_half_free_four: u8,
    pub max_dead_four: u8,
    pub max_live_three: u8,
    pub max_half_free_three: u8,
    pub max_dead_three: u8,
    pub max_live_two: u8,
    pub max_half_free_two: u8,
    pub min_five_in_row: u8,
    pub min_live_four: u8,
    pub min_half_free_four: u8,
    pub min_dead_four: u8,
    pub min_live_three: u8,
    pub min_half_free_three: u8,
    pub min_dead_three: u8,
    pub min_live_two: u8,
    pub min_half_free_two: u8,
}

/// All counts zero.
pub open spec fn no_patterns() -> IncrementalPatternCounts {
    IncrementalPatternCounts {
        max_five_in_row: 0,
        max_live_four: 0,
        max_half_free_four: 0,
        max_dead_four: 0,
        max_live_three: 0,
        max_half_free_three: 0,
        max_dead_three: 0,
        max_live_two: 0,
        max_half_free_two: 0,
        min_five_in_row: 0,
        min_live_four: 0,
        min_half_free_four: 0,
        min_dead_four: 0,
        min_live_three: 0,
        min_half_free_three: 0,
        min_dead_three: 0,
        min_live_two: 0,
        min_half_free_two: 0,
    }
}

/// `x + 1`, staying at 255.
pub open spec fn inc(x: u8) -> u8 {
    if x == 255 {
        255
    } else {
        (x + 1) as u8
    }
}

/// The counts after one more line of `p` of `length` stones with ends `f`:
/// five or more is a five, four to two are live, half-free or dead (dead
/// twos are not counted), shorter lines are not counted.
pub open spec fn bump(c: IncrementalPatternCounts, p: Player, length: int, f: PatternFreedom) -> IncrementalPatternCounts {
    match p {
        Player::Max => if length >= 5 {
            IncrementalPatternCounts { max_five_in_row: inc(c.max_five_in_row), ..c }
        } else if length == 4 {
            match f {
                PatternFreedom::Free => IncrementalPatternCounts { max_live_four: inc(c.max_live_four), ..c },
                PatternFreedom::HalfFree => IncrementalPatternCounts { max_half_free_four: inc(c.max_half_free_four), ..c },
                PatternFreedom::Flanked => IncrementalPatternCounts { max_dead_four: inc(c.max_dead_four), ..c },
            }
        } else if length == 3 {
            match f {
                PatternFreedom::Free => IncrementalPatternCounts { max_live_three: inc(c.max_live_three), ..c },
                PatternFreedom::HalfFree => IncrementalPatternCounts { max_half_free_three: inc(c.max_half_free_three), ..c },
                PatternFreedom::Flanked => IncrementalPatternCounts { max_dead_three: inc(c.max_dead_three), ..c },
            }
        } else if length == 2 {
            match f {
                PatternFreedom::Free => IncrementalPatternCounts { max_live_two: inc(c.max_live_two), ..c },
                PatternFreedom::HalfFree => IncrementalPatternCounts { max_half_free_two: inc(c.max_half_free_two), ..c },
                PatternFreedom::Flanked => c,
            }
        } else {
            c
        },
        Player::Min => if length >= 5 {
            IncrementalPatternCounts { min_five_in_row: inc(c.min_five_in_row), ..c }
        } else if length == 4 {
            match f {
                PatternFreedom::Free => IncrementalPatternCounts { min_live_four: inc(c.min_live_four), ..c },
                PatternFreedom::HalfFree => IncrementalPatternCounts { min_half_free_four: inc(c.min_half_free_four), ..c },
                PatternFreedom::Flanked => IncrementalPatternCounts { min_dead_four: inc(c.min_dead_four), ..c },
            }
        } else if length == 3 {
            match f {
                PatternFreedom::Free => IncrementalPatternCounts { min_live_three: inc(c.min_live_three), ..c },
                PatternFreedom::HalfFree => IncrementalPatternCounts { min_half_free_three: inc(c.min_half_free_three), ..c },
                PatternFreedom::Flanked => IncrementalPatternCounts { min_dead_three: inc(c.min_dead_three), ..c },
            }
        } else if length == 2 {
            match f {
                PatternFreedom::Free => IncrementalPatternCounts { min_live_two: inc(c.min_live_two), ..c },
                PatternFreedom::HalfFree => IncrementalPatternCounts { min_half_free_two: inc(c.min_half_free_two), ..c },
                PatternFreedom::Flanked => c,
            }
        } else {
            c
        },
    }
}

/// Stones of `p` on the line through `(r, c)` along direction `k`, counting
/// `(r, c)` itself and the runs on both sides.
pub open spec fn line_len(b: Board, r: int, c: int, k: int, p: Player) -> int {
    1 + run_len(b, r, c, -dir(k).0, -dir(k).1, p) + run_len(b, r, c, dir(k).0, dir(k).1, p)
}

/// Steps back from `(r, c)` along direction `k` over stones of `p`, `(r, c)`
/// included (0 when `(r, c)` is not a stone of `p`).
pub open spec fn back_steps(b: Board, r: int, c: int, k: int, p: Player) -> int {
    if b.stone(r, c) == Some(p) {
        1 + run_len(b, r, c, -dir(k).0, -dir(k).1, p)
    } else {
        0
    }
}

/// `back_steps` for the direction `(dx, dy)`.
pub open spec fn back_steps_dir(b: Board, r: int, c: int, dx: int, dy: int, p: Player) -> int {
    if b.stone(r, c) == Some(p) {
        1 + run_len(b, r, c, -dx, -dy, p)
    } else {
        0
    }
}

/// The square before the run of `p` ending at `(r, c)` is empty.
pub open spec fn left_open(b: Board, r: int, c: int, k: int, p: Player) -> bool {
    let n = back_steps(b, r, c, k, p);
    valid_empty(b, step(r, -dir(k).0, n), step(c, -dir(k).1, n))
}

/// The square `length` steps from `(r, c)` along direction `k` is empty.
pub open spec fn right_open(b: Board, r: int, c: int, k: int, p: Player, length: int) -> bool {
    valid_empty(b, step(r, dir(k).0, length), step(c, dir(k).1, length))
}

/// The counts after the lines of `p` through `(r, c)` in the first `n`
/// directions are added to `c0`.
pub open spec fn local_update(
    c0: IncrementalPatternCounts,
    b: Board,
    r: int,
    c: int,
    p: Player,
    n: int,
) -> IncrementalPatternCounts
    decreases n,
{
    if n <= 0 {
        c0
    } else {
        let k = n - 1;
        let len = line_len(b, r, c, k, p);
        bump(
            local_update(c0, b, r, c, p, n - 1),
            p,
            len,
            freedom_of(left_open(b, r, c, k, p), right_open(b, r, c, k, p, len)),
        )
    }
}

/// `c0` after the stones of row `r`, columns `0..n`, are added.
pub open spec fn scan_row(c0: IncrementalPatternCounts, b: Board, r: int, n: int) -> IncrementalPatternCounts
    decreases n,
{
    if n <= 0 {
        c0
    } else {
        let prev = scan_row(c0, b, r, n - 1);
        match b.stone(r, n - 1) {
            Some(p) => local_update(prev, b, r, n - 1, p, 4),
            None => prev,
        }
    }
}

/// The counts of the stones of rows `0..m`, from zero.
pub open spec fn scan_rows(b: Board, m: int) -> IncrementalPatternCounts
    decreases m,
{
    if m <= 0 {
        no_patterns()
    } else {
        scan_row(scan_rows(b, m - 1), b, m - 1, b.size as int)
    }
}

impl IncrementalPatternCounts {
    pub fn new() -> (c: IncrementalPatternCounts)
        ensures
            c == no_patterns(),
    {
        IncrementalPatternCounts {
            max_five_in_row: 0,
            max_live_four: 0,
            max_half_free_four: 0,
            max_dead_four: 0,
            max_live_three: 0,
            max_half_free_three: 0,
            max_dead_three: 0,
            max_live_two: 0,
            max_half_free_two: 0,
            min_five_in_row: 0,
            min_live_four: 0,
            min_half_free_four: 0,
            min_dead_four: 0,
            min_live_three: 0,
            min_half_free_three: 0,
            min_dead_three: 0,
            min_live_two: 0,
            min_half_free_two: 0,
        }
    }
}

impl IncrementalPatternCounts {
    /// Adds the lines through the stone just played at `(row, col)`.
    pub fn update_after_move(
        &mut self,
        board: &Board,
        row: usize,
        col: usize,
        player: Player,
        win_condition: usize,
    )
        requires
            board.wf(),
            (row as int) + 2 * board.size + 2 < isize::MAX,
            (col as int) + 2 * board.size + 2 < isize::MAX,
        ensures
            *final(self) == local_update(*old(self), *board, row as int, col as int, player, 4),
    {
        self.update_local_patterns(board, row, col, player, win_condition);
    }

    fn update_local_patterns(
        &mut self,
        board: &Board,
        row: usize,
        col: usize,
        player: Player,
        _win_condition: usize,
    )
        requires
            board.wf(),
            (row as int) + 2 * board.size + 2 < isize::MAX,
            (col as int) + 2 * board.size + 2 < isize::MAX,
        ensures
            *final(self) == local_update(*old(self), *board, row as int, col as int, player, 4),
    {
        let mut k: usize = 0;
        while k < 4
            invariant
                board.wf(),
                (row as int) + 2 * board.size + 2 < isize::MAX,
                (col as int) + 2 * board.size + 2 < isize::MAX,
                k <= 4,
                *self == local_update(*old(self), *board, row as int, col as int, player, k as int),
            decreases 4 - k,
        {
            let (dx, dy) = DIRECTIONS[k];
            assert(dx == dir(k as int).0 && dy == dir(k as int).1);
            let count = Self::count_line(board, row, col, dx, dy, player);
            let (left, right) = Self::check_openness(board, row, col, dx, dy, count, player);
            self.update_counts_for_pattern(count, left, right, player);
            k = k + 1;
        }
    }

    /// Stones of `player` on the line through `(row, col)`, counting `(row, col)`.
    fn count_line(board: &Board, row: usize, col: usize, dx: isize, dy: isize, player: Player) -> (n: usize)
        requires
            board.wf(),
            crate::patterns::unit_dir(dx as int, dy as int),
            (row as int) < isize::MAX,
            (col as int) < isize::MAX,
        ensures
            n == 1 + run_len(*board, row as int, col as int, -dx as int, -dy as int, player) + run_len(
                *board,
                row as int,
                col as int,
                dx as int,
                dy as int,
                player,
            ),
            n <= 2 * board.size + 1,
    {
        proof {
            board.lemma_wf_facts();
        }
        let backward = PatternAnalyzer::count_consecutive(board, row, col, -dx, -dy, player);
        let forward = PatternAnalyzer::count_consecutive(board, row, col, dx, dy, player);
        1 + backward + forward
    }

    /// Whether the square before the run ending at `(row, col)`, and the
    /// square `length` steps ahead of `(row, col)`, are empty.
    fn check_openness(
        board: &Board,
        row: usize,
        col: usize,
        dx: isize,
        dy: isize,
        length: usize,
        player: Player,
    ) -> (r: (bool, bool))
        requires
            board.wf(),
            crate::patterns::unit_dir(dx as int, dy as int),
            (row as int) + 2 * board.size + 2 < isize::MAX,
            (col as int) + 2 * board.size + 2 < isize::MAX,
            length <= 2 * board.size + 1,
        ensures
            r.0 == valid_empty(
                *board,
                step(row as int, -dx as int, back_steps_dir(*board, row as int, col as int, dx as int, dy as int, player)),
                step(col as int, -dy as int, back_steps_dir(*board, row as int, col as int, dx as int, dy as int, player)),
            ),
            r.1 == valid_empty(*board, step(row as int, dx as int, length as int), step(col as int, dy as int, length as int)),
    {
        proof {
            board.lemma_wf_facts();
        }
        let steps: usize = match board.get_player(row, col) {
            Some(p) => if p == player {
                1 + PatternAnalyzer::count_consecutive(board, row, col, -dx, -dy, player)
            } else {
                0
            },
            None => 0,
        };
        proof {
            crate::patterns::lemma_unit_mul(dx as int, steps as int);
            crate::patterns::lemma_unit_mul(dy as int, steps as int);
            crate::patterns::lemma_unit_mul(dx as int, length as int);
            crate::patterns::lemma_unit_mul(dy as int, length as int);
        }
        let left_row = row as isize - dx * (steps as isize);
        let left_col = col as isize - dy * (steps as isize);
        let left = PatternAnalyzer::is_valid_empty(board, left_row, left_col);
        let right_row = row as isize + dx * (length as isize);
        let right_col = col as isize + dy * (length as isize);
        let right = PatternAnalyzer::is_valid_empty(board, right_row, right_col);
        (left, right)
    }

    /// Counts one line of `player` of `length` stones with the given ends.
    fn update_counts_for_pattern(&mut self, length: usize, left_open: bool, right_open: bool, player: Player)
        ensures
            *final(self) == bump(*old(self), player, length as int, freedom_of(left_open, right_open)),
    {
        let freedom = if left_open && right_open {
            PatternFreedom::Free
        } else if left_open || right_open {
            PatternFreedom::HalfFree
        } else {
            PatternFreedom::Flanked
        };
        match player {
            Player::Max => if length >= 5 {
                self.max_five_in_row = self.max_five_in_row.saturating_add(1);
            } else if length == 4 {
                match freedom {
                    PatternFreedom::Free => self.max_live_four = self.max_live_four.saturating_add(1),
                    PatternFreedom::HalfFree => self.max_half_free_four = self.max_half_free_four.saturating_add(1),
                    PatternFreedom::Flanked => self.max_dead_four = self.max_dead_four.saturating_add(1),
                }
            } else if length == 3 {
                match freedom {
                    PatternFreedom::Free => self.max_live_three = self.max_live_three.saturating_add(1),
                    PatternFreedom::HalfFree => self.max_half_free_three = self.max_half_free_three.saturating_add(1),
                    PatternFreedom::Flanked => self.max_dead_three = self.max_dead_three.saturating_add(1),
                }
            } else if length == 2 {
                match freedom {
                    PatternFreedom::Free => self.max_live_two = self.max_live_two.saturating_add(1),
                    PatternFreedom::HalfFree => self.max_half_free_two = self.max_half_free_two.saturating_add(1),
                    PatternFreedom::Flanked => {},
                }
            },
            Player::Min => if length >= 5 {
                self.min_five_in_row = self.min_five_in_row.saturating_add(1);
            } else if length == 4 {
                match freedom {
                    PatternFreedom::Free => self.min_live_four = self.min_live_four.saturating_add(1),
                    PatternFreedom::HalfFree => self.min_half_free_four = self.min_half_free_four.saturating_add(1),
                    PatternFreedom::Flanked => self.min_dead_four = self.min_dead_four.saturating_add(1),
                }
            } else if length == 3 {
                match freedom {
                    PatternFreedom::Free => self.min_live_three = self.min_live_three.saturating_add(1),
                    PatternFreedom::HalfFree => self.min_half_free_three = self.min_half_free_three.saturating_add(1),
                    PatternFreedom::Flanked => self.min_dead_three = self.min_dead_three.saturating_add(1),
                }
            } else if length == 2 {
                match freedom {
                    PatternFreedom::Free => self.min_live_two = self.min_live_two.saturating_add(1),
                    PatternFreedom::HalfFree => self.min_half_free_two = self.min_half_free_two.saturating_add(1),
                    PatternFreedom::Flanked => {},
                }
            },
        }
    }

    /// Counts every stone's lines from zero.
    pub fn recompute_full(&mut self, board: &Board, win_condition: usize)
        requires
            board.wf(),
        ensures
            *final(self) == scan_rows(*board, board.size as int),
    {
        proof {
            board.lemma_wf_facts();
        }
        *self = Self::new();
        let size = board.size;
        let mut row: usize = 0;
        while row < size
            invariant
                board.wf(),
                size == board.size,
                8 * board.size < isize::MAX,
                row <= size,
                *self == scan_rows(*board, row as int),
            decreases size - row,
        {
            let mut col: usize = 0;
            while col < size
                invariant
                    board.wf(),
                    size == board.size,
                    8 * board.size < isize::MAX,
                    row < size,
                    col <= size,
                    *self == scan_row(scan_rows(*board, row as int), *board, row as int, col as int),
                decreases size - col,
            {
                match board.get_player(row, col) {
                    Some(player) => {
                        self.update_local_patterns(board, row, col, player, win_condition);
                    },
                    None => {},
                }
                col = col + 1;
            }
            row = row + 1;
        }
    }
}

impl Default for IncrementalPatternCounts {
    fn default() -> (c: Self)
        ensures
            c == no_patterns(),
    {
        Self::new()
    }
}

} // verus!

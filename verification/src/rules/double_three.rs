//! The forbidden double-three: a move that makes free threes in two or more
//! of the four line directions at once, unless it captures.
//!
//! Along each direction the candidate line is made of the move square and the
//! stones of the mover within four squares on either side (other squares are
//! skipped, not stopping the scan). Every three consecutive members of that
//! line, in line order, are tried as a free three: their spacing must be
//! `XXX`, `XX-X` or `X-XX`, and a fourth stone placed on an empty square just
//! outside them must leave an empty square at one end of the four.

use vstd::prelude::*;
use crate::board::{Board, Player};
use crate::captures::CaptureHandler;
use crate::patterns::{PatternAnalyzer, DIRECTIONS};

verus! {

/// The square `t` steps from `(r, c)` along direction `k` of `DIRECTIONS`.
pub open spec fn line_pos(r: int, c: int, k: int, t: int) -> (int, int) {
    let d = crate::patterns::dir(k);
    (crate::patterns::step(r, d.0, t), crate::patterns::step(c, d.1, t))
}

/// Offset `t` belongs to the candidate line: the move square itself, or a
/// square holding a stone of `p`.
pub open spec fn in_line(b: Board, r: int, c: int, k: int, p: Player, t: int) -> bool {
    t == 0 || b.stone(line_pos(r, c, k, t).0, line_pos(r, c, k, t).1) == Some(p)
}

/// The offsets in `[-4, n - 4)` that belong to the candidate line, increasing.
pub open spec fn line_offsets(b: Board, r: int, c: int, k: int, p: Player, n: nat) -> Seq<int>
    decreases n,
{
    if n == 0 {
        Seq::empty()
    } else {
        let prev = line_offsets(b, r, c, k, p, (n - 1) as nat);
        let t = n - 5;
        if in_line(b, r, c, k, p, t) {
            prev.push(t)
        } else {
            prev
        }
    }
}

pub open spec fn abs_int(x: int) -> int {
    if x < 0 {
        -x
    } else {
        x
    }
}

/// Distance between two squares of a line, measured on the row when the
/// line moves along rows and on the column otherwise.
pub open spec fn spec_gap(s1: (int, int), s2: (int, int), dr: int) -> int {
    if dr != 0 {
        abs_int(s2.0 - s1.0)
    } else {
        abs_int(s2.1 - s1.1)
    }
}

/// A four spanning `lo..=hi` has an empty square just before or just after it.
pub open spec fn spec_threatening_four(b: Board, lo: (int, int), hi: (int, int), dr: int, dc: int) -> bool {
    crate::patterns::valid_empty(b, lo.0 - dr, lo.1 - dc) || crate::patterns::valid_empty(
        b,
        hi.0 + dr,
        hi.1 + dc,
    )
}

/// Three stones spanning `first..=last` can be extended by one stone on an
/// empty square next to them into a threatening four.
pub open spec fn spec_open_four(b: Board, first: (int, int), last: (int, int), dr: int, dc: int) -> bool {
    let before = (first.0 - dr, first.1 - dc);
    let after = (last.0 + dr, last.1 + dc);
    ||| (crate::patterns::valid_empty(b, before.0, before.1) && spec_threatening_four(
        b,
        before,
        last,
        dr,
        dc,
    ))
    ||| (crate::patterns::valid_empty(b, after.0, after.1) && spec_threatening_four(
        b,
        first,
        after,
        dr,
        dc,
    ))
}

/// Three line members, in line order, form a free three.
pub open spec fn spec_valid_three(
    b: Board,
    p0: (int, int),
    p1: (int, int),
    p2: (int, int),
    dr: int,
    dc: int,
) -> bool {
    let g1 = spec_gap(p0, p1, dr);
    let g2 = spec_gap(p1, p2, dr);
    &&& ((g1 == 1 && g2 == 1) || (g1 == 1 && g2 == 2) || (g1 == 2 && g2 == 1))
    &&& spec_open_four(b, p0, p2, dr, dc)
}

/// Members `i`, `i + 1`, `i + 2` of the line offsets `s` form a free three.
pub open spec fn window_ok(b: Board, r: int, c: int, k: int, s: Seq<int>, i: int) -> bool {
    let d = crate::patterns::dir(k);
    spec_valid_three(
        b,
        line_pos(r, c, k, s[i]),
        line_pos(r, c, k, s[i + 1]),
        line_pos(r, c, k, s[i + 2]),
        d.0,
        d.1,
    )
}

/// Playing `p` at `(r, c)` makes a free three along direction `k`.
pub open spec fn spec_free_three(b: Board, r: int, c: int, k: int, p: Player) -> bool {
    let s = line_offsets(b, r, c, k, p, 9);
    exists|i: int| 0 <= i && i + 2 < s.len() && #[trigger] window_ok(b, r, c, k, s, i)
}

/// Number of directions among the first `n` with a free three.
pub open spec fn free_three_count(b: Board, r: int, c: int, p: Player, n: int) -> int
    decreases n,
{
    if n <= 0 {
        0
    } else {
        free_three_count(b, r, c, p, n - 1) + if spec_free_three(b, r, c, n - 1, p) {
            1int
        } else {
            0int
        }
    }
}

/// Playing `p` at `(r, c)` is a forbidden double-three: it captures nothing
/// and makes free threes in at least two directions.
pub open spec fn spec_double_three(b: Board, r: int, c: int, p: Player) -> bool {
    crate::captures::spec_captures(b, r, c, p).len() == 0 && free_three_count(b, r, c, p, 4) >= 2
}

/// The stones of `p` on the line through `(r, c)` along direction `k` within
/// four squares are exactly those at offsets `a1` and `a2` (`0 < a1 < a2 <= 4`).
pub open spec fn only_stones_at(b: Board, r: int, c: int, k: int, p: Player, a1: int, a2: int) -> bool {
    forall|t: int|
        -4 <= t <= 4 && t != 0 ==> (b.stone(#[trigger] line_pos(r, c, k, t).0, line_pos(r, c, k, t).1) == Some(p)
            <==> (t == a1 || t == a2))
}

proof fn lemma_offsets_of_three(b: Board, r: int, c: int, k: int, p: Player, a1: int, a2: int, n: nat)
    requires
        0 < a1 < a2 <= 4,
        n <= 9,
        only_stones_at(b, r, c, k, p, a1, a2),
    ensures
        line_offsets(b, r, c, k, p, n) == if n <= 4 {
            Seq::<int>::empty()
        } else if n - 5 < a1 {
            seq![0int]
        } else if n - 5 < a2 {
            seq![0int, a1]
        } else {
            seq![0int, a1, a2]
        },
    decreases n,
{
    if n > 0 {
        lemma_offsets_of_three(b, r, c, k, p, a1, a2, (n - 1) as nat);
        let t = n - 5;
        if t != 0 {
            assert(b.stone(line_pos(r, c, k, t).0, line_pos(r, c, k, t).1) == Some(p) <==> (t == a1 || t == a2));
        }
    }
}

/// The squares at offsets `i` and `j` of a line along direction `k` are
/// `j - i` apart on the coordinate that `spec_gap` measures.
proof fn lemma_line_gap(r: int, c: int, k: int, i: int, j: int)
    requires
        0 <= k < 4,
        i <= j,
    ensures
        spec_gap(line_pos(r, c, k, i), line_pos(r, c, k, j), crate::patterns::dir(k).0) == j - i,
        line_pos(r, c, k, i).0 - crate::patterns::dir(k).0 == line_pos(r, c, k, i - 1).0,
        line_pos(r, c, k, i).1 - crate::patterns::dir(k).1 == line_pos(r, c, k, i - 1).1,
        line_pos(r, c, k, j).0 + crate::patterns::dir(k).0 == line_pos(r, c, k, j + 1).0,
        line_pos(r, c, k, j).1 + crate::patterns::dir(k).1 == line_pos(r, c, k, j + 1).1,
{
}

/// Three stones of the mover on one line, spaced `XX-X` or `X-XX` from the
/// move (the move and a stone next to it, a gap, a stone; or the move, a
/// gap, two stones), with no other stone of the mover within four squares,
/// an empty square on each side and room for an open four, form a free three.
pub proof fn lemma_split_three_is_free(b: Board, r: int, c: int, k: int, p: Player, a1: int, a2: int)
    requires
        0 <= k < 4,
        (a1 == 1 && a2 == 3) || (a1 == 2 && a2 == 3),
        only_stones_at(b, r, c, k, p, a1, a2),
        crate::patterns::valid_empty(b, line_pos(r, c, k, -1).0, line_pos(r, c, k, -1).1),
        crate::patterns::valid_empty(b, line_pos(r, c, k, 4).0, line_pos(r, c, k, 4).1),
    ensures
        spec_free_three(b, r, c, k, p),
{
    lemma_offsets_of_three(b, r, c, k, p, a1, a2, 9);
    let s = line_offsets(b, r, c, k, p, 9);
    assert(s == seq![0int, a1, a2]);
    lemma_line_gap(r, c, k, 0, a1);
    lemma_line_gap(r, c, k, a1, a2);
    lemma_line_gap(r, c, k, 0, a2);
    assert(window_ok(b, r, c, k, s, 0));
}

/// Three stones of the mover in a row `XXX` starting at the move, with no
/// other stone of the mover within four squares and an empty square on each
/// side, form a free three.
pub proof fn lemma_solid_three_is_free(b: Board, r: int, c: int, k: int, p: Player)
    requires
        0 <= k < 4,
        only_stones_at(b, r, c, k, p, 1, 2),
        crate::patterns::valid_empty(b, line_pos(r, c, k, -1).0, line_pos(r, c, k, -1).1),
        crate::patterns::valid_empty(b, line_pos(r, c, k, 3).0, line_pos(r, c, k, 3).1),
    ensures
        spec_free_three(b, r, c, k, p),
{
    lemma_offsets_of_three(b, r, c, k, p, 1, 2, 9);
    let s = line_offsets(b, r, c, k, p, 9);
    assert(s == seq![0int, 1, 2]);
    lemma_line_gap(r, c, k, 0, 1);
    lemma_line_gap(r, c, k, 1, 2);
    lemma_line_gap(r, c, k, 0, 2);
    assert(window_ok(b, r, c, k, s, 0));
}

proof fn lemma_free_three_count(b: Board, r: int, c: int, p: Player, n: int, k1: int, k2: int)
    requires
        0 <= k1 < k2 < n,
        spec_free_three(b, r, c, k1, p),
        spec_free_three(b, r, c, k2, p),
    ensures
        free_three_count(b, r, c, p, n) >= 2,
    decreases n,
{
    if k2 < n - 1 {
        lemma_free_three_count(b, r, c, p, n - 1, k1, k2);
    } else {
        lemma_free_three_nonneg_one(b, r, c, p, n - 1, k1);
    }
}

proof fn lemma_free_three_nonneg_one(b: Board, r: int, c: int, p: Player, n: int, k1: int)
    requires
        0 <= k1 < n,
        spec_free_three(b, r, c, k1, p),
    ensures
        free_three_count(b, r, c, p, n) >= 1,
    decreases n,
{
    if k1 < n - 1 {
        lemma_free_three_nonneg_one(b, r, c, p, n - 1, k1);
    } else {
        lemma_free_three_nonneg(b, r, c, p, n - 1);
    }
}

proof fn lemma_free_three_nonneg(b: Board, r: int, c: int, p: Player, n: int)
    ensures
        free_three_count(b, r, c, p, n) >= 0,
    decreases n,
{
    if n > 0 {
        lemma_free_three_nonneg(b, r, c, p, n - 1);
    }
}

/// A move that captures nothing and makes a split three (`XX-X` or `X-XX`)
/// in one direction and a free three `XXX` in another is a forbidden
/// double-three.
pub proof fn lemma_split_and_solid_three_forbidden(
    b: Board,
    r: int,
    c: int,
    p: Player,
    k1: int,
    a1: int,
    a2: int,
    k2: int,
)
    requires
        0 <= k1 < 4,
        0 <= k2 < 4,
        k1 != k2,
        crate::captures::spec_captures(b, r, c, p).len() == 0,
        (a1 == 1 && a2 == 3) || (a1 == 2 && a2 == 3),
        only_stones_at(b, r, c, k1, p, a1, a2),
        crate::patterns::valid_empty(b, line_pos(r, c, k1, -1).0, line_pos(r, c, k1, -1).1),
        crate::patterns::valid_empty(b, line_pos(r, c, k1, 4).0, line_pos(r, c, k1, 4).1),
        only_stones_at(b, r, c, k2, p, 1, 2),
        crate::patterns::valid_empty(b, line_pos(r, c, k2, -1).0, line_pos(r, c, k2, -1).1),
        crate::patterns::valid_empty(b, line_pos(r, c, k2, 3).0, line_pos(r, c, k2, 3).1),
    ensures
        spec_double_three(b, r, c, p),
{
    lemma_split_three_is_free(b, r, c, k1, p, a1, a2);
    lemma_solid_three_is_free(b, r, c, k2, p);
    if k1 < k2 {
        lemma_free_three_count(b, r, c, p, 4, k1, k2);
    } else {
        lemma_free_three_count(b, r, c, p, 4, k2, k1);
    }
}

/// A coordinate far enough from the ends of `isize` for the few steps taken here.
pub open spec fn coord_ok(v: int) -> bool {
    -32 <= v && v + 32 <= isize::MAX
}

pub proof fn lemma_line_offsets_range(b: Board, r: int, c: int, k: int, p: Player, n: nat)
    ensures
        line_offsets(b, r, c, k, p, n).len() <= n,
        forall|j: int|
            0 <= j < line_offsets(b, r, c, k, p, n).len() ==> -4 <= #[trigger] line_offsets(
                b,
                r,
                c,
                k,
                p,
                n,
            )[j] < n - 4,
    decreases n,
{
    if n > 0 {
        lemma_line_offsets_range(b, r, c, k, p, (n - 1) as nat);
    }
}

pub struct DoubleThreeDetection;

impl DoubleThreeDetection {
    /// Whether playing `player` at `(row, col)` is a forbidden double-three.
    /// A move that captures is never forbidden.
    pub fn creates_double_three(board: &Board, row: usize, col: usize, player: Player) -> (r: bool)
        requires
            board.wf(),
            (row as int) + 64 <= isize::MAX,
            (col as int) + 64 <= isize::MAX,
        ensures
            r == spec_double_three(*board, row as int, col as int, player),
            crate::captures::spec_captures(*board, row as int, col as int, player).len() > 0 ==> !r,
    {
        let captures = CaptureHandler::detect_captures(board, row, col, player);
        if captures.len() > 0 {
            return false;
        }
        let mut count: usize = 0;
        let mut k: usize = 0;
        while k < 4
            invariant
                board.wf(),
                (row as int) + 64 <= isize::MAX,
                (col as int) + 64 <= isize::MAX,
                k <= 4,
                count == free_three_count(*board, row as int, col as int, player, k as int),
                count <= k,
            decreases 4 - k,
        {
            if Self::is_free_three_in_direction(board, row, col, player, k) {
                count = count + 1;
            }
            k = k + 1;
        }
        count >= 2
    }

    /// Whether playing `player` at `(row, col)` makes a free three along
    /// direction `k` of `DIRECTIONS`.
    fn is_free_three_in_direction(board: &Board, row: usize, col: usize, player: Player, k: usize) -> (r: bool)
        requires
            board.wf(),
            k < 4,
            (row as int) + 64 <= isize::MAX,
            (col as int) + 64 <= isize::MAX,
        ensures
            r == spec_free_three(*board, row as int, col as int, k as int, player),
    {
        Self::would_create_free_three_line(board, row, col, player, k)
    }

    /// The square `t` steps from `(row, col)` along direction `k`.
    fn line_square(row: usize, col: usize, k: usize, t: isize) -> (sq: (isize, isize))
        requires
            k < 4,
            -4 <= t <= 4,
            (row as int) + 64 <= isize::MAX,
            (col as int) + 64 <= isize::MAX,
        ensures
            sq.0 == line_pos(row as int, col as int, k as int, t as int).0,
            sq.1 == line_pos(row as int, col as int, k as int, t as int).1,
    {
        let (dr, dc) = DIRECTIONS[k];
        assert(dr == crate::patterns::dir(k as int).0 && dc == crate::patterns::dir(k as int).1);
        proof {
            crate::patterns::lemma_unit_mul(dr as int, t as int);
            crate::patterns::lemma_unit_mul(dc as int, t as int);
        }
        (row as isize + dr * t, col as isize + dc * t)
    }

    /// Collects the candidate line along direction `k` and tries each run of
    /// three consecutive members as a free three.
    fn would_create_free_three_line(board: &Board, row: usize, col: usize, player: Player, k: usize) -> (r: bool)
        requires
            board.wf(),
            k < 4,
            (row as int) + 64 <= isize::MAX,
            (col as int) + 64 <= isize::MAX,
        ensures
            r == spec_free_three(*board, row as int, col as int, k as int, player),
    {
        let (dr, dc) = DIRECTIONS[k];
        assert(dr == crate::patterns::dir(k as int).0 && dc == crate::patterns::dir(k as int).1);
        let ghost r0 = row as int;
        let ghost c0 = col as int;
        let player_bits = board.get_player_bits(player);
        let mut stones_in_line: Vec<(isize, isize)> = Vec::new();
        let mut n: usize = 0;
        while n < 9
            invariant
                board.wf(),
                k < 4,
                (row as int) + 64 <= isize::MAX,
                (col as int) + 64 <= isize::MAX,
                dr == crate::patterns::dir(k as int).0,
                dc == crate::patterns::dir(k as int).1,
                n <= 9,
                r0 == row as int,
                c0 == col as int,
                player_bits@ == board.bits_of(player),
                stones_in_line@.len() == line_offsets(*board, r0, c0, k as int, player, n as nat).len(),
                forall|j: int|
                    0 <= j < stones_in_line@.len() ==> (#[trigger] stones_in_line@[j]).0 == line_pos(
                        r0,
                        c0,
                        k as int,
                        line_offsets(*board, r0, c0, k as int, player, n as nat)[j],
                    ).0 && stones_in_line@[j].1 == line_pos(
                        r0,
                        c0,
                        k as int,
                        line_offsets(*board, r0, c0, k as int, player, n as nat)[j],
                    ).1,
            decreases 9 - n,
        {
            let ghost prev = line_offsets(*board, r0, c0, k as int, player, n as nat);
            let ghost old_v = stones_in_line@;
            let t: isize = n as isize - 4;
            proof {
                crate::patterns::lemma_unit_mul(dr as int, t as int);
                crate::patterns::lemma_unit_mul(dc as int, t as int);
                assert(line_offsets(*board, r0, c0, k as int, player, (n + 1) as nat) == if in_line(
                    *board,
                    r0,
                    c0,
                    k as int,
                    player,
                    t as int,
                ) {
                    prev.push(t as int)
                } else {
                    prev
                });
            }
            let ghost inl = in_line(*board, r0, c0, k as int, player, t as int);
            if t == 0 {
                stones_in_line.push((row as isize, col as isize));
                assert(inl);
            } else {
                let (check_row, check_col) = Self::line_square(row, col, k, t);
                let mut member = false;
                if PatternAnalyzer::is_in_bounds(board, check_row, check_col) {
                    proof {
                        board.lemma_cell_index(check_row as int, check_col as int);
                        board.lemma_stone_occ(check_row as int, check_col as int);
                    }
                    let idx = board.index(check_row as usize, check_col as usize);
                    member = Board::is_bit_set(player_bits.as_slice(), idx);
                    proof {
                        match player {
                            Player::Max => assert(member == (board.stone(check_row as int, check_col as int) == Some(Player::Max))),
                            Player::Min => assert(member == (board.stone(check_row as int, check_col as int) == Some(Player::Min))),
                        }
                    }
                }
                assert(member == inl);
                if member {
                    stones_in_line.push((check_row, check_col));
                }
            }
            proof {
                let next = line_offsets(*board, r0, c0, k as int, player, (n + 1) as nat);
                assert forall|j: int| 0 <= j < stones_in_line@.len() implies (
                #[trigger] stones_in_line@[j]).0 == line_pos(r0, c0, k as int, next[j]).0
                    && stones_in_line@[j].1 == line_pos(r0, c0, k as int, next[j]).1 by {
                    if j < old_v.len() {
                        assert(stones_in_line@[j] == old_v[j]);
                        assert(next[j] == prev[j]);
                    }
                }
            }
            n = n + 1;
        }
        let ghost s = line_offsets(*board, r0, c0, k as int, player, 9);
        proof {
            lemma_line_offsets_range(*board, r0, c0, k as int, player, 9);
        }
        if stones_in_line.len() < 3 {
            return false;
        }
        let mut i: usize = 0;
        while i + 3 <= stones_in_line.len()
            invariant
                board.wf(),
                k < 4,
                (row as int) + 64 <= isize::MAX,
                (col as int) + 64 <= isize::MAX,
                dr == crate::patterns::dir(k as int).0,
                dc == crate::patterns::dir(k as int).1,
                s == line_offsets(*board, r0, c0, k as int, player, 9),
                stones_in_line@.len() == s.len(),
                s.len() <= 9,
                r0 == row as int,
                c0 == col as int,
                i <= s.len(),
                forall|j: int| 0 <= j < s.len() ==> -4 <= #[trigger] s[j] < 5,
                forall|j: int|
                    0 <= j < stones_in_line@.len() ==> (#[trigger] stones_in_line@[j]).0 == line_pos(
                        r0,
                        c0,
                        k as int,
                        s[j],
                    ).0 && stones_in_line@[j].1 == line_pos(r0, c0, k as int, s[j]).1,
                forall|j: int| 0 <= j < i ==> !#[trigger] window_ok(*board, r0, c0, k as int, s, j),
            decreases stones_in_line@.len() - i,
        {
            assert(-4 <= s[i as int] < 5 && -4 <= s[i + 1] < 5 && -4 <= s[i + 2] < 5);
            let a = stones_in_line[i];
            let m = stones_in_line[i + 1];
            let z = stones_in_line[i + 2];
            proof {
                crate::patterns::lemma_unit_mul(dr as int, s[i as int]);
                crate::patterns::lemma_unit_mul(dc as int, s[i as int]);
                crate::patterns::lemma_unit_mul(dr as int, s[i + 1]);
                crate::patterns::lemma_unit_mul(dc as int, s[i + 1]);
                crate::patterns::lemma_unit_mul(dr as int, s[i + 2]);
                crate::patterns::lemma_unit_mul(dc as int, s[i + 2]);
            }
            assert((a.0 as int, a.1 as int) == line_pos(r0, c0, k as int, s[i as int]));
            assert((m.0 as int, m.1 as int) == line_pos(r0, c0, k as int, s[i + 1]));
            assert((z.0 as int, z.1 as int) == line_pos(r0, c0, k as int, s[i + 2]));
            if Self::is_valid_free_three_pattern(board, a, m, z, dr, dc) {
                assert(window_ok(*board, r0, c0, k as int, s, i as int));
                return true;
            }
            i = i + 1;
        }
        false
    }

    /// Whether three line members, in line order, form a free three: spacing
    /// `XXX`, `XX-X` or `X-XX`, and room to grow into a threatening four.
    fn is_valid_free_three_pattern(
        board: &Board,
        first_stone: (isize, isize),
        middle_stone: (isize, isize),
        last_stone: (isize, isize),
        dr: isize,
        dc: isize,
    ) -> (r: bool)
        requires
            board.wf(),
            -1 <= dr <= 1,
            -1 <= dc <= 1,
            coord_ok(first_stone.0 as int),
            coord_ok(first_stone.1 as int),
            coord_ok(middle_stone.0 as int),
            coord_ok(middle_stone.1 as int),
            coord_ok(last_stone.0 as int),
            coord_ok(last_stone.1 as int),
        ensures
            r == spec_valid_three(
                *board,
                (first_stone.0 as int, first_stone.1 as int),
                (middle_stone.0 as int, middle_stone.1 as int),
                (last_stone.0 as int, last_stone.1 as int),
                dr as int,
                dc as int,
            ),
    {
        let gap1 = Self::calculate_gap(first_stone, middle_stone, dr, dc);
        let gap2 = Self::calculate_gap(middle_stone, last_stone, dr, dc);
        let is_valid_pattern = (gap1 == 1 && gap2 == 1) || (gap1 == 1 && gap2 == 2) || (gap1 == 2
            && gap2 == 1);
        if !is_valid_pattern {
            return false;
        }
        Self::can_form_open_four(board, first_stone, last_stone, dr, dc)
    }

    /// Whether a fourth stone on the empty square just before `first_stone`
    /// or just after `last_stone` makes a threatening four.
    fn can_form_open_four(
        board: &Board,
        first_stone: (isize, isize),
        last_stone: (isize, isize),
        dr: isize,
        dc: isize,
    ) -> (r: bool)
        requires
            board.wf(),
            -1 <= dr <= 1,
            -1 <= dc <= 1,
            coord_ok(first_stone.0 as int),
            coord_ok(first_stone.1 as int),
            coord_ok(last_stone.0 as int),
            coord_ok(last_stone.1 as int),
        ensures
            r == spec_open_four(
                *board,
                (first_stone.0 as int, first_stone.1 as int),
                (last_stone.0 as int, last_stone.1 as int),
                dr as int,
                dc as int,
            ),
    {
        let before_row = first_stone.0 - dr;
        let before_col = first_stone.1 - dc;
        if PatternAnalyzer::is_valid_empty(board, before_row, before_col) {
            if Self::would_create_threatening_four(board, (before_row, before_col), last_stone, dr, dc) {
                return true;
            }
        }
        let after_row = last_stone.0 + dr;
        let after_col = last_stone.1 + dc;
        if PatternAnalyzer::is_valid_empty(board, after_row, after_col) {
            if Self::would_create_threatening_four(board, first_stone, (after_row, after_col), dr, dc) {
                return true;
            }
        }
        false
    }

    /// Whether the four stones spanning `first..=last` have an empty square
    /// just before or just after them.
    fn would_create_threatening_four(
        board: &Board,
        first: (isize, isize),
        last: (isize, isize),
        dr: isize,
        dc: isize,
    ) -> (r: bool)
        requires
            board.wf(),
            -1 <= dr <= 1,
            -1 <= dc <= 1,
            -40 <= first.0 && first.0 + 24 <= isize::MAX,
            -40 <= first.1 && first.1 + 24 <= isize::MAX,
            -40 <= last.0 && last.0 + 24 <= isize::MAX,
            -40 <= last.1 && last.1 + 24 <= isize::MAX,
        ensures
            r == spec_threatening_four(
                *board,
                (first.0 as int, first.1 as int),
                (last.0 as int, last.1 as int),
                dr as int,
                dc as int,
            ),
    {
        let can_extend_before = PatternAnalyzer::is_valid_empty(board, first.0 - dr, first.1 - dc);
        let can_extend_after = PatternAnalyzer::is_valid_empty(board, last.0 + dr, last.1 + dc);
        can_extend_before || can_extend_after
    }

    /// Distance between two squares of a line along direction `(dr, _dc)`:
    /// the row distance when `dr != 0`, the column distance otherwise.
    pub fn calculate_gap(stone1: (isize, isize), stone2: (isize, isize), dr: isize, _dc: isize) -> (g: isize)
        requires
            isize::MIN < stone2.0 - stone1.0 <= isize::MAX,
            isize::MIN < stone2.1 - stone1.1 <= isize::MAX,
        ensures
            g == spec_gap(
                (stone1.0 as int, stone1.1 as int),
                (stone2.0 as int, stone2.1 as int),
                dr as int,
            ),
    {
        let d = if dr != 0 {
            stone2.0 - stone1.0
        } else {
            stone2.1 - stone1.1
        };
        if d < 0 {
            -d
        } else {
            d
        }
    }
}

} // verus!

//! Pattern detection helpers used by the heuristic, the move generator and
//! the rules: runs of stones along a line, empty space around a run, and the
//! freedom (open ends) of a run.

use vstd::prelude::*;
use crate::board::{Board, Player};

verus! {

/// The four line directions: vertical, horizontal, and the two diagonals.
pub const DIRECTIONS: [(isize, isize); 4] = [(1, 0), (0, 1), (1, 1), (1, -1)];

/// The eight neighbour offsets.
pub const ALL_DIRECTIONS: [(isize, isize); 8] = [
    (-1, -1),
    (-1, 0),
    (-1, 1),
    (0, -1),
    (0, 1),
    (1, -1),
    (1, 0),
    (1, 1),
];

/// Direction `k` of `DIRECTIONS`, as a spec value.
pub open spec fn dir(k: int) -> (int, int) {
    if k == 0 {
        (1, 0)
    } else if k == 1 {
        (0, 1)
    } else if k == 2 {
        (1, 1)
    } else {
        (1, -1)
    }
}

pub fn direction(k: usize) -> (d: (isize, isize))
    requires
        k < 4,
    ensures
        d.0 == dir(k as int).0,
        d.1 == dir(k as int).1,
{
    DIRECTIONS[k]
}

#[derive(Debug, Clone, Copy, PartialEq, Eq, Structural)]
pub enum PatternFreedom {
    Free,
    HalfFree,
    Flanked,
}

/// `x` moved `i` steps along the unit step `d`.
pub open spec fn step(x: int, d: int, i: int) -> int {
    if d > 0 {
        x + i
    } else if d < 0 {
        x - i
    } else {
        x
    }
}

/// A direction with components in `{-1, 0, 1}`, not both zero.
pub open spec fn unit_dir(dx: int, dy: int) -> bool {
    -1 <= dx <= 1 && -1 <= dy <= 1 && !(dx == 0 && dy == 0)
}

pub proof fn lemma_unit_mul(d: int, i: int)
    requires
        -1 <= d <= 1,
    ensures
        d * i == step(0, d, i),
        i * d == step(0, d, i),
{
    if d == 1 {
        assert(d * i == i);
        assert(i * d == i);
    } else if d == -1 {
        assert(d * i == -i && i * d == -i) by (nonlinear_arith)
            requires
                d == -1,
        ;
    } else {
        assert(d * i == 0);
        assert(i * d == 0);
    }
}

/// The stone `i` steps from `(r, c)` along `(dx, dy)`.
pub open spec fn ray_stone(b: Board, r: int, c: int, dx: int, dy: int, i: int) -> Option<Player> {
    b.stone(step(r, dx, i), step(c, dy, i))
}

/// Exactly `n` stones of `p` follow `(r, c)` along `(dx, dy)` (the start itself not counted).
pub open spec fn run_len_is(
    b: Board,
    r: int,
    c: int,
    dx: int,
    dy: int,
    p: Player,
    n: int,
) -> bool {
    &&& 0 <= n
    &&& forall|i: int| 1 <= i <= n ==> #[trigger] ray_stone(b, r, c, dx, dy, i) == Some(p)
    &&& ray_stone(b, r, c, dx, dy, n + 1) != Some(p)
}

/// The number of consecutive stones of `p` after `(r, c)` along `(dx, dy)`.
pub open spec fn run_len(b: Board, r: int, c: int, dx: int, dy: int, p: Player) -> int {
    choose|n: int| run_len_is(b, r, c, dx, dy, p, n)
}

pub proof fn lemma_run_len_unique(
    b: Board,
    r: int,
    c: int,
    dx: int,
    dy: int,
    p: Player,
    n: int,
)
    requires
        run_len_is(b, r, c, dx, dy, p, n),
    ensures
        run_len(b, r, c, dx, dy, p) == n,
{
    let m = run_len(b, r, c, dx, dy, p);
    assert(run_len_is(b, r, c, dx, dy, p, m));
    if m < n {
        assert(ray_stone(b, r, c, dx, dy, m + 1) == Some(p));
    }
    if n < m {
        assert(ray_stone(b, r, c, dx, dy, n + 1) == Some(p));
    }
}

/// Cell `i` steps along the ray is on the board and empty.
pub open spec fn ray_empty(b: Board, r: int, c: int, dx: int, dy: int, i: int) -> bool {
    b.in_bounds(step(r, dx, i), step(c, dy, i)) && ray_stone(b, r, c, dx, dy, i) is None
}

/// Exactly `n` empty on-board squares start at `(r, c)` (inclusive) along `(dx, dy)`.
pub open spec fn empty_len_is(b: Board, r: int, c: int, dx: int, dy: int, n: int) -> bool {
    &&& 0 <= n
    &&& forall|i: int| 0 <= i < n ==> #[trigger] ray_empty(b, r, c, dx, dy, i)
    &&& !ray_empty(b, r, c, dx, dy, n)
}

pub open spec fn empty_len(b: Board, r: int, c: int, dx: int, dy: int) -> int {
    choose|n: int| empty_len_is(b, r, c, dx, dy, n)
}

pub proof fn lemma_empty_len_unique(b: Board, r: int, c: int, dx: int, dy: int, n: int)
    requires
        empty_len_is(b, r, c, dx, dy, n),
    ensures
        empty_len(b, r, c, dx, dy) == n,
{
    let m = empty_len(b, r, c, dx, dy);
    assert(empty_len_is(b, r, c, dx, dy, m));
    if m < n {
        assert(ray_empty(b, r, c, dx, dy, m));
    }
    if n < m {
        assert(ray_empty(b, r, c, dx, dy, n));
    }
}

/// The square `(r, c)` is on the board and empty.
pub open spec fn valid_empty(b: Board, r: int, c: int) -> bool {
    b.in_bounds(r, c) && b.stone(r, c) is None
}

pub open spec fn freedom_of(start_open: bool, end_open: bool) -> PatternFreedom {
    if start_open && end_open {
        PatternFreedom::Free
    } else if start_open || end_open {
        PatternFreedom::HalfFree
    } else {
        PatternFreedom::Flanked
    }
}

/// Freedom of the run of `length` squares starting at `(r, c)` along `(dx, dy)`:
/// whether the square before it and the square after it are empty.
pub open spec fn spec_freedom(b: Board, r: int, c: int, dx: int, dy: int, length: int) -> PatternFreedom {
    freedom_of(
        valid_empty(b, step(r, dx, -1), step(c, dy, -1)),
        valid_empty(b, step(r, dx, length), step(c, dy, length)),
    )
}

/// Pattern length plus the empty squares extending it on both sides.
pub open spec fn spec_total_space(b: Board, r: int, c: int, dx: int, dy: int, length: int) -> int {
    length + empty_len(b, step(r, dx, -1), step(c, dy, -1), -dx, -dy) + empty_len(
        b,
        step(r, dx, length),
        step(c, dy, length),
        dx,
        dy,
    )
}

/// What `analyze_consecutive_from_position` reports for the run of `p` through `(r, c)`.
pub open spec fn spec_consecutive_info(
    b: Board,
    r: int,
    c: int,
    dx: int,
    dy: int,
    p: Player,
    win_condition: int,
) -> Option<(usize, usize, usize, usize, PatternFreedom)> {
    let back = run_len(b, r, c, -dx, -dy, p);
    let fwd = run_len(b, r, c, dx, dy, p);
    let length = back + fwd + 1;
    if length < 2 {
        None
    } else {
        let sr = step(r, -dx, back);
        let sc = step(c, -dy, back);
        let space = spec_total_space(b, sr, sc, dx, dy, length);
        if space < win_condition {
            None
        } else {
            Some(
                (
                    length as usize,
                    sr as usize,
                    sc as usize,
                    space as usize,
                    spec_freedom(b, sr, sc, dx, dy, length),
                ),
            )
        }
    }
}

/// Stones of `p` met at distances `i..=maxd` along the ray, skipping empty
/// squares and stopping at an opponent stone or the board edge.
pub open spec fn gap_scan(
    b: Board,
    r: int,
    c: int,
    dx: int,
    dy: int,
    p: Player,
    i: int,
    maxd: int,
) -> Seq<(usize, usize)>
    decreases maxd + 1 - i,
{
    if i > maxd {
        Seq::empty()
    } else {
        let rr = step(r, dx, i);
        let cc = step(c, dy, i);
        if !b.in_bounds(rr, cc) {
            Seq::empty()
        } else if b.stone(rr, cc) == Some(p) {
            seq![(rr as usize, cc as usize)] + gap_scan(b, r, c, dx, dy, p, i + 1, maxd)
        } else if b.stone(rr, cc) is Some {
            Seq::empty()
        } else {
            gap_scan(b, r, c, dx, dy, p, i + 1, maxd)
        }
    }
}

/// Chebyshev extent, plus one, of the segment from `first` to `last`.
pub open spec fn spec_span(first: (usize, usize), last: (usize, usize)) -> int {
    let dr = if last.0 >= first.0 { last.0 - first.0 } else { first.0 - last.0 };
    let dc = if last.1 >= first.1 { last.1 - first.1 } else { first.1 - last.1 };
    (if dr >= dc { dr } else { dc }) + 1
}

pub open spec fn spec_gapped_pattern(stones: Seq<(usize, usize)>) -> Option<(usize, usize, isize)> {
    if stones.len() < 2 {
        None
    } else {
        let span = spec_span(stones[0], stones.last());
        let gaps = span - stones.len();
        if gaps > 0 && span <= 7 && stones.len() + gaps >= 4 && gaps <= 3 {
            Some((stones.len() as usize, gaps as usize, span as isize))
        } else {
            None
        }
    }
}

/// Empty squares `start + d * s` for `s` in `[s, steps)`, in that order.
pub open spec fn gap_cells(
    b: Board,
    r: int,
    c: int,
    dx: int,
    dy: int,
    s: int,
    steps: int,
) -> Seq<(usize, usize)>
    decreases steps - s,
{
    if s >= steps {
        Seq::empty()
    } else {
        let rr = step(r, dx, s);
        let cc = step(c, dy, s);
        (if valid_empty(b, rr, cc) {
            seq![(rr as usize, cc as usize)]
        } else {
            Seq::empty()
        }) + gap_cells(b, r, c, dx, dy, s + 1, steps)
    }
}

/// Number of steps from the first to the last stone along a unit direction.
pub open spec fn spec_gap_steps(first: (usize, usize), last: (usize, usize)) -> int {
    let a = last.0 - first.0;
    let d = last.1 - first.1;
    if a >= d { a } else { d }
}

/// Offset `k` of `ALL_DIRECTIONS`.
pub open spec fn all_dir(k: int) -> (int, int) {
    if k == 0 {
        (-1, -1)
    } else if k == 1 {
        (-1, 0)
    } else if k == 2 {
        (-1, 1)
    } else if k == 3 {
        (0, -1)
    } else if k == 4 {
        (0, 1)
    } else if k == 5 {
        (1, -1)
    } else if k == 6 {
        (1, 0)
    } else {
        (1, 1)
    }
}

/// Occupied squares among the first `k` neighbour offsets of `(r, c)`.
pub open spec fn adjacent_count(b: Board, r: int, c: int, k: int) -> int
    decreases k,
{
    if k <= 0 {
        0
    } else {
        adjacent_count(b, r, c, k - 1) + if b.stone(r + all_dir(k - 1).0, c + all_dir(k - 1).1) is Some {
            1int
        } else {
            0int
        }
    }
}

/// Every stone found by `gap_scan` is on the board.
pub proof fn lemma_gap_scan_on_board(b: Board, r: int, c: int, dx: int, dy: int, p: Player, i: int, maxd: int)
    ensures
        forall|k: int|
            0 <= k < gap_scan(b, r, c, dx, dy, p, i, maxd).len() ==> b.in_bounds(
                (#[trigger] gap_scan(b, r, c, dx, dy, p, i, maxd)[k]).0 as int,
                gap_scan(b, r, c, dx, dy, p, i, maxd)[k].1 as int,
            ),
    decreases maxd + 1 - i,
{
    if i <= maxd {
        lemma_gap_scan_on_board(b, r, c, dx, dy, p, i + 1, maxd);
        let rest = gap_scan(b, r, c, dx, dy, p, i + 1, maxd);
        let cur = gap_scan(b, r, c, dx, dy, p, i, maxd);
        let rr = step(r, dx, i);
        let cc = step(c, dy, i);
        if b.in_bounds(rr, cc) && b.stone(rr, cc) == Some(p) {
            assert forall|k: int| 0 <= k < cur.len() implies b.in_bounds(
                (#[trigger] cur[k]).0 as int,
                cur[k].1 as int,
            ) by {
                if k > 0 {
                    assert(cur[k] == rest[k - 1]);
                }
            }
        }
    }
}

/// The stones collected around an on-board square are all on the board.
pub proof fn lemma_gapped_stones_on_board(b: Board, row: int, col: int, dx: int, dy: int, p: Player, maxd: int)
    requires
        b.in_bounds(row, col),
    ensures
        forall|k: int|
            0 <= k < (gap_scan(b, row, col, -dx, -dy, p, 1, maxd).reverse() + seq![
                (row as usize, col as usize),
            ] + gap_scan(b, row, col, dx, dy, p, 1, maxd)).len() ==> b.in_bounds(
                (#[trigger] (gap_scan(b, row, col, -dx, -dy, p, 1, maxd).reverse() + seq![
                    (row as usize, col as usize),
                ] + gap_scan(b, row, col, dx, dy, p, 1, maxd))[k]).0 as int,
                (gap_scan(b, row, col, -dx, -dy, p, 1, maxd).reverse() + seq![
                    (row as usize, col as usize),
                ] + gap_scan(b, row, col, dx, dy, p, 1, maxd))[k].1 as int,
            ),
{
    let back = gap_scan(b, row, col, -dx, -dy, p, 1, maxd);
    let fwd = gap_scan(b, row, col, dx, dy, p, 1, maxd);
    let all = back.reverse() + seq![(row as usize, col as usize)] + fwd;
    lemma_gap_scan_on_board(b, row, col, -dx, -dy, p, 1, maxd);
    lemma_gap_scan_on_board(b, row, col, dx, dy, p, 1, maxd);
    assert forall|k: int| 0 <= k < all.len() implies b.in_bounds(
        (#[trigger] all[k]).0 as int,
        all[k].1 as int,
    ) by {
        if k < back.len() {
            assert(all[k] == back[back.len() - 1 - k]);
        } else if k == back.len() {
            assert(all[k] == (row as usize, col as usize));
        } else {
            assert(all[k] == fwd[k - back.len() - 1]);
        }
    }
}

/// `gap_scan` from step `i` finds no more stones than the steps it covers:
/// it is empty (and the returned step is `i - 1`) or its last stone lies at
/// the returned step `s`, with at most `s - i + 1` stones.
pub proof fn lemma_gap_scan_extent(b: Board, r: int, c: int, dx: int, dy: int, p: Player, i: int, maxd: int) -> (s: int)
    ensures
        gap_scan(b, r, c, dx, dy, p, i, maxd).len() == 0 ==> s == i - 1,
        gap_scan(b, r, c, dx, dy, p, i, maxd).len() > 0 ==> {
            &&& i <= s
            &&& gap_scan(b, r, c, dx, dy, p, i, maxd).len() <= s - i + 1
            &&& b.in_bounds(step(r, dx, s), step(c, dy, s))
            &&& gap_scan(b, r, c, dx, dy, p, i, maxd).last() == (
                step(r, dx, s) as usize,
                step(c, dy, s) as usize,
            )
        },
    decreases maxd + 1 - i,
{
    if i > maxd {
        i - 1
    } else {
        let rr = step(r, dx, i);
        let cc = step(c, dy, i);
        let cur = gap_scan(b, r, c, dx, dy, p, i, maxd);
        let rest = gap_scan(b, r, c, dx, dy, p, i + 1, maxd);
        if !b.in_bounds(rr, cc) {
            i - 1
        } else if b.stone(rr, cc) == Some(p) {
            let s2 = lemma_gap_scan_extent(b, r, c, dx, dy, p, i + 1, maxd);
            if rest.len() == 0 {
                assert(cur =~= seq![(rr as usize, cc as usize)]);
                i
            } else {
                assert(cur.last() == rest.last());
                s2
            }
        } else if b.stone(rr, cc) is Some {
            i - 1
        } else {
            let s2 = lemma_gap_scan_extent(b, r, c, dx, dy, p, i + 1, maxd);
            if rest.len() == 0 {
                i - 1
            } else {
                s2
            }
        }
    }
}

/// The stones collected around an on-board square along a unit direction
/// never outnumber the squares they span.
pub proof fn lemma_gapped_span(b: Board, row: int, col: int, dx: int, dy: int, p: Player, maxd: int)
    requires
        b.in_bounds(row, col),
        unit_dir(dx, dy),
    ensures
        ({
            let stones = gap_scan(b, row, col, -dx, -dy, p, 1, maxd).reverse() + seq![
                (row as usize, col as usize),
            ] + gap_scan(b, row, col, dx, dy, p, 1, maxd);
            stones.len() >= 2 ==> spec_span(stones[0], stones.last()) >= stones.len()
        }),
{
    let back = gap_scan(b, row, col, -dx, -dy, p, 1, maxd);
    let fwd = gap_scan(b, row, col, dx, dy, p, 1, maxd);
    let stones = back.reverse() + seq![(row as usize, col as usize)] + fwd;
    let sb = lemma_gap_scan_extent(b, row, col, -dx, -dy, p, 1, maxd);
    let sf = lemma_gap_scan_extent(b, row, col, dx, dy, p, 1, maxd);
    let first = stones[0];
    let last = stones.last();
    if back.len() > 0 {
        assert(first == back.last());
    } else {
        assert(first == (row as usize, col as usize));
    }
    if fwd.len() > 0 {
        assert(last == fwd.last());
    } else {
        assert(last == (row as usize, col as usize));
    }
    assert(first.0 as int == step(row, -dx, sb) && first.1 as int == step(col, -dy, sb));
    assert(last.0 as int == step(row, dx, sf) && last.1 as int == step(col, dy, sf));
}

/// Every square listed by `gap_cells` is an empty square of the board.
pub proof fn lemma_gap_cells_empty(b: Board, r: int, c: int, dx: int, dy: int, s: int, steps: int)
    ensures
        forall|k: int|
            0 <= k < gap_cells(b, r, c, dx, dy, s, steps).len() ==> valid_empty(
                b,
                (#[trigger] gap_cells(b, r, c, dx, dy, s, steps)[k]).0 as int,
                gap_cells(b, r, c, dx, dy, s, steps)[k].1 as int,
            ),
    decreases steps - s,
{
    if s < steps {
        lemma_gap_cells_empty(b, r, c, dx, dy, s + 1, steps);
        let rest = gap_cells(b, r, c, dx, dy, s + 1, steps);
        let cur = gap_cells(b, r, c, dx, dy, s, steps);
        let rr = step(r, dx, s);
        let cc = step(c, dy, s);
        if valid_empty(b, rr, cc) {
            assert forall|k: int| 0 <= k < cur.len() implies valid_empty(
                b,
                (#[trigger] cur[k]).0 as int,
                cur[k].1 as int,
            ) by {
                if k > 0 {
                    assert(cur[k] == rest[k - 1]);
                }
            }
        } else {
            assert(cur =~= rest);
        }
    }
}

pub struct PatternAnalyzer;

impl PatternAnalyzer {
    /// Counts the consecutive stones of `player` after `(row, col)` along
    /// `(dx, dy)`, not counting `(row, col)` itself.
    pub fn count_consecutive(
        board: &Board,
        row: usize,
        col: usize,
        dx: isize,
        dy: isize,
        player: Player,
    ) -> (n: usize)
        requires
            board.wf(),
            unit_dir(dx as int, dy as int),
            (row as int) < isize::MAX,
            (col as int) < isize::MAX,
        ensures
            run_len_is(*board, row as int, col as int, dx as int, dy as int, player, n as int),
            n == run_len(*board, row as int, col as int, dx as int, dy as int, player),
            n <= board.size,
    {
        proof {
            board.lemma_wf_facts();
        }
        let player_bits = board.get_player_bits(player);
        let mut count: usize = 0;
        let mut current_row = row as isize + dx;
        let mut current_col = col as isize + dy;
        loop
            invariant
                board.wf(),
                unit_dir(dx as int, dy as int),
                8 * board.size < isize::MAX,
                player_bits@ == board.bits_of(player),
                current_row == step(row as int, dx as int, count + 1),
                current_col == step(col as int, dy as int, count + 1),
                count <= board.size,
                count > 0 ==> board.in_bounds(
                    step(row as int, dx as int, 1),
                    step(col as int, dy as int, 1),
                ),
                (row as int) < isize::MAX,
                (col as int) < isize::MAX,
                forall|i: int|
                    1 <= i <= count ==> #[trigger] ray_stone(
                        *board,
                        row as int,
                        col as int,
                        dx as int,
                        dy as int,
                        i,
                    ) == Some(player),
            decreases (if dx > 0 {
                board.size - current_row
            } else if dx < 0 {
                current_row + 1
            } else if dy > 0 {
                board.size - current_col
            } else {
                current_col + 1
            }),
        {
            if !(current_row >= 0 && current_row < board.size as isize && current_col >= 0
                && current_col < board.size as isize) {
                proof {
                    lemma_run_len_unique(
                        *board,
                        row as int,
                        col as int,
                        dx as int,
                        dy as int,
                        player,
                        count as int,
                    );
                }
                return count;
            }
            proof {
                board.lemma_cell_index(current_row as int, current_col as int);
                board.lemma_stone_occ(current_row as int, current_col as int);
            }
            let idx = board.index(current_row as usize, current_col as usize);
            if !Board::is_bit_set(player_bits.as_slice(), idx) {
                proof {
                    lemma_run_len_unique(
                        *board,
                        row as int,
                        col as int,
                        dx as int,
                        dy as int,
                        player,
                        count as int,
                    );
                }
                return count;
            }
            count = count + 1;
            current_row = current_row + dx;
            current_col = current_col + dy;
        }
    }

    pub fn is_in_bounds(board: &Board, row: isize, col: isize) -> (b: bool)
        requires
            board.wf(),
        ensures
            b == board.in_bounds(row as int, col as int),
    {
        proof {
            board.lemma_wf_facts();
        }
        row >= 0 && col >= 0 && row < board.size as isize && col < board.size as isize
    }

    pub fn is_valid_empty(board: &Board, row: isize, col: isize) -> (b: bool)
        requires
            board.wf(),
        ensures
            b == valid_empty(*board, row as int, col as int),
    {
        if !Self::is_in_bounds(board, row, col) {
            return false;
        }
        proof {
            board.lemma_cell_index(row as int, col as int);
            board.lemma_stone_occ(row as int, col as int);
        }
        !Board::is_bit_set(board.occupied.as_slice(), board.index(row as usize, col as usize))
    }

    pub fn is_valid_occupied(board: &Board, row: isize, col: isize) -> (b: bool)
        requires
            board.wf(),
        ensures
            b == (board.stone(row as int, col as int) is Some),
    {
        if !Self::is_in_bounds(board, row, col) {
            return false;
        }
        proof {
            board.lemma_cell_index(row as int, col as int);
            board.lemma_stone_occ(row as int, col as int);
        }
        Board::is_bit_set(board.occupied.as_slice(), board.index(row as usize, col as usize))
    }

    /// Count consecutive stones bidirectionally from a position, the position included.
    pub fn count_consecutive_bidirectional(
        board: &Board,
        row: usize,
        col: usize,
        dx: isize,
        dy: isize,
        player: Player,
    ) -> (n: usize)
        requires
            board.wf(),
            unit_dir(dx as int, dy as int),
            (row as int) < isize::MAX,
            (col as int) < isize::MAX,
        ensures
            n == run_len(*board, row as int, col as int, -dx, -dy, player) + run_len(
                *board,
                row as int,
                col as int,
                dx as int,
                dy as int,
                player,
            ) + 1,
    {
        proof {
            board.lemma_wf_facts();
        }
        let backward = Self::count_consecutive(board, row, col, -dx, -dy, player);
        let forward = Self::count_consecutive(board, row, col, dx, dy, player);
        backward + forward + 1
    }

    /// Counts empty squares starting at `(start_row, start_col)` along `(dx, dy)`.
    pub fn count_empty_in_direction(
        board: &Board,
        start_row: isize,
        start_col: isize,
        dx: isize,
        dy: isize,
    ) -> (n: usize)
        requires
            board.wf(),
            unit_dir(dx as int, dy as int),
        ensures
            empty_len_is(*board, start_row as int, start_col as int, dx as int, dy as int, n as int),
            n == empty_len(*board, start_row as int, start_col as int, dx as int, dy as int),
            n <= board.size,
    {
        proof {
            board.lemma_wf_facts();
        }
        let mut count: usize = 0;
        let mut current_row = start_row;
        let mut current_col = start_col;
        loop
            invariant
                board.wf(),
                unit_dir(dx as int, dy as int),
                8 * board.size < isize::MAX,
                current_row == step(start_row as int, dx as int, count as int),
                current_col == step(start_col as int, dy as int, count as int),
                count <= board.size,
                count > 0 ==> board.in_bounds(start_row as int, start_col as int),
                forall|i: int|
                    0 <= i < count ==> #[trigger] ray_empty(
                        *board,
                        start_row as int,
                        start_col as int,
                        dx as int,
                        dy as int,
                        i,
                    ),
            decreases (if dx > 0 {
                board.size - current_row
            } else if dx < 0 {
                current_row + 1
            } else if dy > 0 {
                board.size - current_col
            } else {
                current_col + 1
            }),
        {
            if !Self::is_in_bounds(board, current_row, current_col) {
                proof {
                    lemma_empty_len_unique(
                        *board,
                        start_row as int,
                        start_col as int,
                        dx as int,
                        dy as int,
                        count as int,
                    );
                }
                return count;
            }
            proof {
                board.lemma_cell_index(current_row as int, current_col as int);
                board.lemma_stone_occ(current_row as int, current_col as int);
            }
            let idx = board.index(current_row as usize, current_col as usize);
            if Board::is_bit_set(board.occupied.as_slice(), idx) {
                proof {
                    lemma_empty_len_unique(
                        *board,
                        start_row as int,
                        start_col as int,
                        dx as int,
                        dy as int,
                        count as int,
                    );
                }
                return count;
            }
            count = count + 1;
            current_row = current_row + dx;
            current_col = current_col + dy;
        }
    }
    /// Counts the total available space for a pattern in a given direction:
    /// the pattern length plus all empty squares extending it on both sides
    /// until blocked by a stone or the board edge.
    pub fn count_total_space(
        board: &Board,
        start_row: usize,
        start_col: usize,
        dx: isize,
        dy: isize,
        pattern_length: usize,
    ) -> (n: usize)
        requires
            board.wf(),
            unit_dir(dx as int, dy as int),
            pattern_length >= 1,
            start_row + pattern_length < isize::MAX,
            start_col + pattern_length < isize::MAX,
            pattern_length + 2 * board.size <= usize::MAX,
        ensures
            n == spec_total_space(
                *board,
                start_row as int,
                start_col as int,
                dx as int,
                dy as int,
                pattern_length as int,
            ),
    {
        proof {
            board.lemma_wf_facts();
            lemma_unit_mul(dx as int, (pattern_length - 1) as int);
            lemma_unit_mul(dy as int, (pattern_length - 1) as int);
        }
        let mut space = pattern_length;
        space = space + Self::count_empty_in_direction(
            board,
            start_row as isize - dx,
            start_col as isize - dy,
            -dx,
            -dy,
        );
        let end_row = start_row as isize + (pattern_length - 1) as isize * dx;
        let end_col = start_col as isize + (pattern_length - 1) as isize * dy;
        space = space + Self::count_empty_in_direction(board, end_row + dx, end_col + dy, dx, dy);
        space
    }

    /// Classifies a pattern by whether the square before it and the square
    /// after it are empty.
    pub fn analyze_pattern_freedom(
        board: &Board,
        start_row: usize,
        start_col: usize,
        dx: isize,
        dy: isize,
        length: usize,
    ) -> (f: PatternFreedom)
        requires
            board.wf(),
            unit_dir(dx as int, dy as int),
            length >= 1,
            start_row + length < isize::MAX,
            start_col + length < isize::MAX,
        ensures
            f == spec_freedom(
                *board,
                start_row as int,
                start_col as int,
                dx as int,
                dy as int,
                length as int,
            ),
    {
        proof {
            lemma_unit_mul(dx as int, (length - 1) as int);
            lemma_unit_mul(dy as int, (length - 1) as int);
        }
        let before_row = start_row as isize - dx;
        let before_col = start_col as isize - dy;
        let start_open = Self::is_valid_empty(board, before_row, before_col);
        let end_row = start_row as isize + (length - 1) as isize * dx;
        let end_col = start_col as isize + (length - 1) as isize * dy;
        let after_row = end_row + dx;
        let after_col = end_col + dy;
        let end_open = Self::is_valid_empty(board, after_row, after_col);
        match (start_open, end_open) {
            (true, true) => PatternFreedom::Free,
            (true, false) | (false, true) => PatternFreedom::HalfFree,
            (false, false) => PatternFreedom::Flanked,
        }
    }
    /// Analyzes the consecutive pattern of `player` through `(row, col)` in a
    /// direction. Returns `(length, start_row, start_col, total_space, freedom)`,
    /// or `None` when the run is shorter than two or has less room than
    /// `win_condition`.
    #[verifier::rlimit(50)]
    pub fn analyze_consecutive_from_position(
        board: &Board,
        row: usize,
        col: usize,
        dx: isize,
        dy: isize,
        player: Player,
        win_condition: usize,
    ) -> (info: Option<(usize, usize, usize, usize, PatternFreedom)>)
        requires
            board.wf(),
            unit_dir(dx as int, dy as int),
            row + 2 * board.size + 2 < isize::MAX,
            col + 2 * board.size + 2 < isize::MAX,
        ensures
            info == spec_consecutive_info(
                *board,
                row as int,
                col as int,
                dx as int,
                dy as int,
                player,
                win_condition as int,
            ),
    {
        proof {
            board.lemma_wf_facts();
        }
        let backward = Self::count_consecutive(board, row, col, -dx, -dy, player);
        let forward = Self::count_consecutive(board, row, col, dx, dy, player);
        let length = backward + forward + 1;
        if length < 2 {
            return None;
        }
        proof {
            lemma_unit_mul(dx as int, backward as int);
            lemma_unit_mul(dy as int, backward as int);
            if backward > 0 {
                assert(ray_stone(
                    *board,
                    row as int,
                    col as int,
                    -dx,
                    -dy,
                    backward as int,
                ) == Some(player));
            }
        }
        let pattern_start_row = (row as isize - dx * backward as isize) as usize;
        let pattern_start_col = (col as isize - dy * backward as isize) as usize;
        assert(pattern_start_row == step(row as int, -dx, backward as int));
        assert(pattern_start_col == step(col as int, -dy, backward as int));
        let total_space = Self::count_total_space(
            board,
            pattern_start_row,
            pattern_start_col,
            dx,
            dy,
            length,
        );
        if total_space < win_condition {
            return None;
        }
        let freedom = Self::analyze_pattern_freedom(
            board,
            pattern_start_row,
            pattern_start_col,
            dx,
            dy,
            length,
        );
        Some((length, pattern_start_row, pattern_start_col, total_space, freedom))
    }

    /// Collects the stones of `player` along the line through `(row, col)`,
    /// up to `max_distance` squares each way, skipping gaps and stopping at an
    /// opponent stone or the board edge. The result runs from the farthest
    /// stone behind through `(row, col)` to the farthest stone ahead.
    pub fn collect_gapped_stones(
        board: &Board,
        row: usize,
        col: usize,
        dx: isize,
        dy: isize,
        player: Player,
        max_distance: isize,
    ) -> (stones: Vec<(usize, usize)>)
        requires
            board.wf(),
            unit_dir(dx as int, dy as int),
            (row as int) < isize::MAX,
            (col as int) < isize::MAX,
            max_distance < isize::MAX,
        ensures
            stones@ == gap_scan(
                *board,
                row as int,
                col as int,
                -dx,
                -dy,
                player,
                1,
                max_distance as int,
            ).reverse() + seq![(row, col)] + gap_scan(
                *board,
                row as int,
                col as int,
                dx as int,
                dy as int,
                player,
                1,
                max_distance as int,
            ),
    {
        proof {
            board.lemma_wf_facts();
        }
        let mut stones: Vec<(usize, usize)> = Vec::new();
        stones.push((row, col));
        let forward = Self::scan_gapped(board, row, col, dx, dy, player, max_distance);
        let backward = Self::scan_gapped(board, row, col, -dx, -dy, player, max_distance);
        let mut result: Vec<(usize, usize)> = Vec::new();
        let mut k = backward.len();
        while k > 0
            invariant
                k <= backward@.len(),
                result@ == backward@.subrange(k as int, backward@.len() as int).reverse(),
            decreases k,
        {
            k = k - 1;
            result.push(backward[k]);
            proof {
                assert(result@ =~= backward@.subrange(k as int, backward@.len() as int).reverse());
            }
        }
        proof {
            assert(backward@.subrange(0, backward@.len() as int) =~= backward@);
        }
        let mut j: usize = 0;
        let ghost prefix = result@;
        while j < stones.len()
            invariant
                j <= stones@.len(),
                result@ == prefix + stones@.subrange(0, j as int),
            decreases stones@.len() - j,
        {
            result.push(stones[j]);
            j = j + 1;
            proof {
                assert(result@ =~= prefix + stones@.subrange(0, j as int));
            }
        }
        j = 0;
        let ghost prefix2 = result@;
        while j < forward.len()
            invariant
                j <= forward@.len(),
                result@ == prefix2 + forward@.subrange(0, j as int),
            decreases forward@.len() - j,
        {
            result.push(forward[j]);
            j = j + 1;
            proof {
                assert(result@ =~= prefix2 + forward@.subrange(0, j as int));
            }
        }
        proof {
            assert(stones@ =~= seq![(row, col)]);
            assert(stones@.subrange(0, stones@.len() as int) =~= stones@);
            assert(forward@.subrange(0, forward@.len() as int) =~= forward@);
        }
        result
    }

    /// One direction of `collect_gapped_stones`.
    fn scan_gapped(
        board: &Board,
        row: usize,
        col: usize,
        dx: isize,
        dy: isize,
        player: Player,
        max_distance: isize,
    ) -> (stones: Vec<(usize, usize)>)
        requires
            board.wf(),
            unit_dir(dx as int, dy as int),
            8 * board.size < isize::MAX,
            (row as int) < isize::MAX,
            (col as int) < isize::MAX,
            max_distance < isize::MAX,
        ensures
            stones@ == gap_scan(
                *board,
                row as int,
                col as int,
                dx as int,
                dy as int,
                player,
                1,
                max_distance as int,
            ),
    {
        let player_bits = board.get_player_bits(player);
        let mut stones: Vec<(usize, usize)> = Vec::new();
        let mut dist: isize = 1;
        loop
            invariant_except_break
                stones@ + gap_scan(
                    *board,
                    row as int,
                    col as int,
                    dx as int,
                    dy as int,
                    player,
                    dist as int,
                    max_distance as int,
                ) == gap_scan(
                    *board,
                    row as int,
                    col as int,
                    dx as int,
                    dy as int,
                    player,
                    1,
                    max_distance as int,
                ),
            invariant
                board.wf(),
                unit_dir(dx as int, dy as int),
                8 * board.size < isize::MAX,
                player_bits@ == board.bits_of(player),
                (row as int) < isize::MAX,
                (col as int) < isize::MAX,
                max_distance < isize::MAX,
                1 <= dist,
                dist <= max_distance + 1 || dist == 1,
                dist >= 2 ==> board.in_bounds(
                    step(row as int, dx as int, dist - 1),
                    step(col as int, dy as int, dist - 1),
                ),
            ensures
                stones@ == gap_scan(
                    *board,
                    row as int,
                    col as int,
                    dx as int,
                    dy as int,
                    player,
                    1,
                    max_distance as int,
                ),
            decreases max_distance + 1 - dist,
        {
            let ghost full = gap_scan(
                *board,
                row as int,
                col as int,
                dx as int,
                dy as int,
                player,
                1,
                max_distance as int,
            );
            if dist > max_distance {
                proof {
                    assert(stones@ =~= full);
                }
                break;
            }
            proof {
                lemma_unit_mul(dx as int, dist as int);
                lemma_unit_mul(dy as int, dist as int);
            }
            let check_row = row as isize + dx * dist;
            let check_col = col as isize + dy * dist;
            if Self::is_in_bounds(board, check_row, check_col) {
                proof {
                    board.lemma_cell_index(check_row as int, check_col as int);
                    board.lemma_stone_occ(check_row as int, check_col as int);
                }
                let idx = board.index(check_row as usize, check_col as usize);
                if Board::is_bit_set(player_bits.as_slice(), idx) {
                    let ghost before = stones@;
                    stones.push((check_row as usize, check_col as usize));
                    proof {
                        assert(stones@ == before + seq![(check_row as usize, check_col as usize)]);
                        assert((before + seq![(check_row as usize, check_col as usize)])
                            + gap_scan(
                            *board,
                            row as int,
                            col as int,
                            dx as int,
                            dy as int,
                            player,
                            dist + 1,
                            max_distance as int,
                        ) =~= before + (seq![(check_row as usize, check_col as usize)] + gap_scan(
                            *board,
                            row as int,
                            col as int,
                            dx as int,
                            dy as int,
                            player,
                            dist + 1,
                            max_distance as int,
                        )));
                    }
                } else if Board::is_bit_set(board.occupied.as_slice(), idx) {
                    proof {
                        assert(stones@ =~= full);
                    }
                    break;
                }
            } else {
                proof {
                    assert(stones@ =~= full);
                }
                break;
            }
            dist = dist + 1;
        }
        stones
    }
    /// Analyzes a gapped pattern and returns `(stones_count, gaps_count, span)`.
    /// A valid gapped pattern has at least 2 stones, a span of 7 or less, at
    /// least 1 and at most 3 gaps, and stones plus gaps of at least 4.
    pub fn analyze_gapped_pattern(stones: &[(usize, usize)]) -> (r: Option<(usize, usize, isize)>)
        requires
            forall|k: int|
                0 <= k < stones@.len() ==> 4 * #[trigger] stones@[k].0 < isize::MAX && 4
                    * stones@[k].1 < isize::MAX,
            stones@.len() >= 2 ==> spec_span(stones@[0], stones@.last()) >= stones@.len(),
        ensures
            r == spec_gapped_pattern(stones@),
    {
        if stones.len() < 2 {
            return None;
        }
        let first = stones[0];
        let last = stones[stones.len() - 1];
        let dr = last.0 as isize - first.0 as isize;
        let dc = last.1 as isize - first.1 as isize;
        let adr = if dr < 0 { -dr } else { dr };
        let adc = if dc < 0 { -dc } else { dc };
        let span = (if adr >= adc { adr } else { adc }) + 1;
        let gaps = (span as usize) - stones.len();
        if gaps > 0 && span <= 7 && stones.len() + gaps >= 4 && gaps <= 3 {
            Some((stones.len(), gaps, span))
        } else {
            None
        }
    }

    /// Extracts the empty squares strictly between the first and last stone of
    /// a gapped pattern laid out along `(dx, dy)`.
    pub fn extract_gap_positions(
        board: &Board,
        stones: &[(usize, usize)],
        dx: isize,
        dy: isize,
    ) -> (gaps: Vec<(usize, usize)>)
        requires
            board.wf(),
            unit_dir(dx as int, dy as int),
            forall|k: int|
                0 <= k < stones@.len() ==> 4 * #[trigger] stones@[k].0 < isize::MAX && 4
                    * stones@[k].1 < isize::MAX,
        ensures
            stones@.len() < 2 ==> gaps@ == Seq::<(usize, usize)>::empty(),
            stones@.len() >= 2 ==> gaps@ == gap_cells(
                *board,
                stones@[0].0 as int,
                stones@[0].1 as int,
                dx as int,
                dy as int,
                1,
                spec_gap_steps(stones@[0], stones@.last()),
            ),
    {
        if stones.len() < 2 {
            return Vec::new();
        }
        let first = stones[0];
        let last = stones[stones.len() - 1];
        let start_row = first.0 as isize;
        let start_col = first.1 as isize;
        let end_row = last.0 as isize;
        let end_col = last.1 as isize;
        let row_steps = end_row - start_row;
        let col_steps = end_col - start_col;
        let steps = if row_steps >= col_steps { row_steps } else { col_steps };
        let mut gap_positions: Vec<(usize, usize)> = Vec::new();
        let mut s: isize = 1;
        while s < steps
            invariant
                board.wf(),
                unit_dir(dx as int, dy as int),
                4 * start_row < isize::MAX,
                4 * start_col < isize::MAX,
                0 <= start_row,
                0 <= start_col,
                steps * 4 < isize::MAX,
                1 <= s,
                s <= steps || s == 1,
                gap_positions@ + gap_cells(
                    *board,
                    start_row as int,
                    start_col as int,
                    dx as int,
                    dy as int,
                    s as int,
                    steps as int,
                ) == gap_cells(
                    *board,
                    start_row as int,
                    start_col as int,
                    dx as int,
                    dy as int,
                    1,
                    steps as int,
                ),
            decreases steps - s,
        {
            proof {
                lemma_unit_mul(dx as int, s as int);
                lemma_unit_mul(dy as int, s as int);
            }
            let gap_row = start_row + dx * s;
            let gap_col = start_col + dy * s;
            let ghost before = gap_positions@;
            if Self::is_valid_empty(board, gap_row, gap_col) {
                gap_positions.push((gap_row as usize, gap_col as usize));
            }
            proof {
                assert(gap_positions@ + gap_cells(
                    *board,
                    start_row as int,
                    start_col as int,
                    dx as int,
                    dy as int,
                    s + 1,
                    steps as int,
                ) =~= before + gap_cells(
                    *board,
                    start_row as int,
                    start_col as int,
                    dx as int,
                    dy as int,
                    s as int,
                    steps as int,
                ));
            }
            s = s + 1;
        }
        proof {
            assert(gap_positions@ =~= gap_positions@ + gap_cells(
                *board,
                start_row as int,
                start_col as int,
                dx as int,
                dy as int,
                s as int,
                steps as int,
            ));
        }
        gap_positions
    }

    /// Manhattan distance between two squares.
    pub fn manhattan_distance(row1: usize, col1: usize, row2: usize, col2: usize) -> (d: usize)
        requires
            2 * row1 < isize::MAX,
            2 * col1 < isize::MAX,
            2 * row2 < isize::MAX,
            2 * col2 < isize::MAX,
        ensures
            d == (if row1 >= row2 { row1 - row2 } else { row2 - row1 }) + (if col1 >= col2 {
                col1 - col2
            } else {
                col2 - col1
            }),
    {
        let dr = row1 as isize - row2 as isize;
        let dc = col1 as isize - col2 as isize;
        let adr = if dr < 0 { -dr } else { dr };
        let adc = if dc < 0 { -dc } else { dc };
        (adr + adc) as usize
    }

    /// Counts the occupied squares among the eight neighbours of `(row, col)`.
    pub fn count_adjacent_stones(board: &Board, row: usize, col: usize) -> (n: i32)
        requires
            board.wf(),
            (row as int) < isize::MAX,
            (col as int) < isize::MAX,
        ensures
            n == adjacent_count(*board, row as int, col as int, 8),
    {
        let mut num_adjacent: i32 = 0;
        let mut k: usize = 0;
        while k < 8
            invariant
                board.wf(),
                (row as int) < isize::MAX,
                (col as int) < isize::MAX,
                k <= 8,
                num_adjacent == adjacent_count(*board, row as int, col as int, k as int),
                0 <= num_adjacent <= k,
            decreases 8 - k,
        {
            let (dx, dy) = ALL_DIRECTIONS[k];
            assert(dx == all_dir(k as int).0 && dy == all_dir(k as int).1);
            let nr = row as isize + dx;
            let nc = col as isize + dy;
            if Self::is_valid_occupied(board, nr, nc) {
                num_adjacent = num_adjacent + 1;
            }
            k = k + 1;
        }
        num_adjacent
    }

    /// Finds the start of the run of `player` through `(row, col)` by moving
    /// backward along `(dx, dy)`.
    pub fn find_pattern_start(
        board: &Board,
        row: usize,
        col: usize,
        dx: isize,
        dy: isize,
        player: Player,
    ) -> (start: (usize, usize))
        requires
            board.wf(),
            unit_dir(dx as int, dy as int),
            (row as int) < isize::MAX,
            (col as int) < isize::MAX,
        ensures
            start.0 == step(
                row as int,
                -dx,
                run_len(*board, row as int, col as int, -dx, -dy, player),
            ),
            start.1 == step(
                col as int,
                -dy,
                run_len(*board, row as int, col as int, -dx, -dy, player),
            ),
    {
        let back = Self::count_consecutive(board, row, col, -dx, -dy, player);
        proof {
            board.lemma_wf_facts();
            lemma_unit_mul(dx as int, back as int);
            lemma_unit_mul(dy as int, back as int);
            if back > 0 {
                assert(ray_stone(*board, row as int, col as int, -dx, -dy, back as int) == Some(
                    player,
                ));
            }
        }
        ((row as isize - dx * back as isize) as usize, (col as isize - dy * back as isize) as usize)
    }
}

} // verus!

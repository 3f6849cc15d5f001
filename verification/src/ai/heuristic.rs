//! Position evaluation: scores of line patterns, captured pairs and the
//! exposure of pairs to capture.

use vstd::prelude::*;
use crate::board::{Board, Player};
use crate::captures::CaptureHandler;
use crate::patterns::{PatternAnalyzer, PatternFreedom, DIRECTIONS};
use crate::state::GameState;

verus! {

pub const WINNING_SCORE: i32 = 1_000_000;
pub const CAPTURE_VULNERABILITY_BASE: i32 = 3_000;
pub const CAPTURE_BONUS_MULTIPLIER: i32 = 15_000;
pub const LIVE_FOUR_SCORE: i32 = 15_000;
pub const HALF_FREE_FOUR_SCORE: i32 = 3_500;
pub const LIVE_THREE_SCORE: i32 = 500;
pub const HALF_FREE_THREE_SCORE: i32 = 200;
pub const LIVE_TWO_SCORE: i32 = 50;
pub const HALF_FREE_TWO_SCORE: i32 = 20;

pub const GAPPED_FOUR_SCORE: i32 = 400;
pub const GAPPED_THREE_ONE_SCORE: i32 = 150;
pub const GAPPED_THREE_TWO_SCORE: i32 = 100;
pub const GAPPED_TWO_ONE_SCORE: i32 = 25;
pub const GAPPED_TWO_TWO_SCORE: i32 = 15;
pub const GAPPED_OTHER_SCORE: i32 = 5;

/// Scores of the shared pattern scale (the defaults of the AI configuration).
pub const FIVE_IN_ROW_SCORE: i32 = 100_000;
pub const LIVE_FOUR_SINGLE_SCORE: i32 = 15_000;
pub const DEAD_FOUR_SCORE: i32 = 400;
pub const DEAD_THREE_SCORE: i32 = 50;

pub struct Heuristic;

/// `k` is the integer square root of `x`.
pub open spec fn is_isqrt(x: int, k: int) -> bool {
    0 <= k && k * k <= x < (k + 1) * (k + 1)
}

/// The stone of `p` at `(r, c)` and the next one along direction `k` form a
/// pair with a stone of `opp` just before or just after it.
pub open spec fn pair_exposed(b: Board, r: int, c: int, k: int, p: Player, opp: Player) -> bool {
    let d = crate::patterns::dir(k);
    &&& b.stone(r, c) == Some(p)
    &&& b.stone(r + d.0, c + d.1) == Some(p)
    &&& (b.stone(r - d.0, c - d.1) == Some(opp) || b.stone(r + 2 * d.0, c + 2 * d.1) == Some(opp))
}

/// Exposed pairs starting at `(r, c)` among the first `n` directions.
pub open spec fn exposed_at(b: Board, r: int, c: int, p: Player, opp: Player, n: int) -> int
    decreases n,
{
    if n <= 0 {
        0
    } else {
        exposed_at(b, r, c, p, opp, n - 1) + if pair_exposed(b, r, c, n - 1, p, opp) {
            1int
        } else {
            0int
        }
    }
}

/// Exposed pairs starting in row `r`, columns `0..n`.
pub open spec fn exposed_in_row(b: Board, r: int, p: Player, opp: Player, n: int) -> int
    decreases n,
{
    if n <= 0 {
        0
    } else {
        exposed_in_row(b, r, p, opp, n - 1) + exposed_at(b, r, n - 1, p, opp, 4)
    }
}

/// Exposed pairs starting in rows `0..m`.
pub open spec fn exposed_in_rows(b: Board, p: Player, opp: Player, m: int) -> int
    decreases m,
{
    if m <= 0 {
        0
    } else {
        exposed_in_rows(b, p, opp, m - 1) + exposed_in_row(b, m - 1, p, opp, b.size as int)
    }
}

/// Pairs of `p` that `opp` could capture (each found from both stones, so halved).
pub open spec fn spec_capturable_pairs(b: Board, p: Player, opp: Player) -> int {
    exposed_in_rows(b, p, opp, b.size as int) / 2
}

proof fn lemma_exposed_at_bound(b: Board, r: int, c: int, p: Player, opp: Player, n: int)
    requires
        0 <= n,
    ensures
        0 <= exposed_at(b, r, c, p, opp, n) <= n,
    decreases n,
{
    if n > 0 {
        lemma_exposed_at_bound(b, r, c, p, opp, n - 1);
    }
}

proof fn lemma_exposed_in_row_bound(b: Board, r: int, p: Player, opp: Player, n: int)
    requires
        0 <= n,
    ensures
        0 <= exposed_in_row(b, r, p, opp, n) <= 4 * n,
    decreases n,
{
    if n > 0 {
        lemma_exposed_in_row_bound(b, r, p, opp, n - 1);
        lemma_exposed_at_bound(b, r, n - 1, p, opp, 4);
    }
}

proof fn lemma_exposed_in_rows_bound(b: Board, p: Player, opp: Player, m: int)
    requires
        0 <= m,
    ensures
        0 <= exposed_in_rows(b, p, opp, m) <= 4 * m * b.size,
    decreases m,
{
    if m > 0 {
        lemma_exposed_in_rows_bound(b, p, opp, m - 1);
        lemma_exposed_in_row_bound(b, m - 1, p, opp, b.size as int);
        assert(4 * (m - 1) * b.size + 4 * b.size == 4 * m * b.size) by (nonlinear_arith);
    }
}

/// Every stone starts at most four exposed pairs, so at most
/// `2 * size * size` pairs are capturable.
pub proof fn lemma_capturable_pairs_bound(b: Board, p: Player, opp: Player)
    ensures
        0 <= spec_capturable_pairs(b, p, opp) <= 2 * b.size * b.size,
{
    lemma_exposed_in_rows_bound(b, p, opp, b.size as int);
    assert(4 * b.size * b.size == 2 * (2 * b.size * b.size)) by (nonlinear_arith);
}

/// Some empty square lets `opp` capture enough pairs to reach `capture_to_win`.
pub open spec fn spec_capture_win_threat(b: Board, opp: Player, opp_captures: int, capture_to_win: int) -> bool {
    exists|r: int, c: int|
        b.in_bounds(r, c) && b.stone(r, c) is None && #[trigger] crate::captures::spec_captures(
            b,
            r,
            c,
            opp,
        ).len() > 0 && opp_captures + crate::captures::spec_captures(b, r, c, opp).len() / 2
            >= capture_to_win
}

/// The capture-vulnerability penalty of the side to move.
pub open spec fn spec_vulnerability(s: GameState) -> int {
    let p = s.current_player;
    let opp = p.other();
    let opp_captures = if opp == Player::Max {
        s.max_captures as int
    } else {
        s.min_captures as int
    };
    let pairs = spec_capturable_pairs(s.board, p, opp);
    let ctw = s.capture_to_win as int;
    if pairs == 0 {
        0
    } else if opp_captures >= ctw - 1 && spec_capture_win_threat(s.board, opp, opp_captures, ctw) {
        900_000
    } else {
        let mult = if opp_captures >= ctw - 2 {
            5int
        } else if opp_captures >= ctw - 3 {
            3int
        } else if opp_captures >= ctw / 2 {
            2int
        } else {
            1int
        };
        CAPTURE_VULNERABILITY_BASE * pairs * mult
    }
}

pub proof fn lemma_isqrt_unique(x: int, k1: int, k2: int)
    requires
        is_isqrt(x, k1),
        is_isqrt(x, k2),
    ensures
        k1 == k2,
{
    if k1 < k2 {
        assert((k1 + 1) * (k1 + 1) <= k2 * k2) by (nonlinear_arith)
            requires
                0 <= k1 < k2,
        ;
    }
    if k2 < k1 {
        assert((k2 + 1) * (k2 + 1) <= k1 * k1) by (nonlinear_arith)
            requires
                0 <= k2 < k1,
        ;
    }
}

/// The capture bonus of `n` captured pairs: the integer part of
/// `CAPTURE_BONUS_MULTIPLIER * sqrt(n)`, at most `i32::MAX`, and 0 for none.
pub open spec fn capture_bonus(n: int) -> int {
    if n <= 0 {
        0
    } else {
        let k = choose|k: int| #[trigger] is_isqrt(225_000_000 * n, k);
        if k > i32::MAX {
            i32::MAX as int
        } else {
            k
        }
    }
}

/// Evaluation from the pattern scores of both sides, the capture bonus and
/// the vulnerability penalty (quartered when either side has a live four),
/// in wrapping `i32` arithmetic.
pub open spec fn combine_scores(max_ps: i32, min_ps: i32, bonus: int, vulnerability: int) -> i32 {
    let strong = max_ps >= LIVE_FOUR_SCORE || min_ps >= LIVE_FOUR_SCORE;
    let penalty = if strong {
        vulnerability / 4
    } else {
        vulnerability
    };
    max_ps.wrapping_sub(min_ps).wrapping_add(bonus as i32).wrapping_sub(penalty as i32)
}

/// Score of a run of `length` stones with the given freedom.
pub open spec fn spec_consecutive_score(length: int, freedom: PatternFreedom) -> i32 {
    if length == 5 {
        WINNING_SCORE
    } else if length == 4 {
        match freedom {
            PatternFreedom::Free => LIVE_FOUR_SCORE,
            PatternFreedom::HalfFree => HALF_FREE_FOUR_SCORE,
            PatternFreedom::Flanked => 0,
        }
    } else if length == 3 {
        match freedom {
            PatternFreedom::Free => LIVE_THREE_SCORE,
            PatternFreedom::HalfFree => HALF_FREE_THREE_SCORE,
            PatternFreedom::Flanked => 0,
        }
    } else if length == 2 {
        match freedom {
            PatternFreedom::Free => LIVE_TWO_SCORE,
            PatternFreedom::HalfFree => HALF_FREE_TWO_SCORE,
            PatternFreedom::Flanked => 0,
        }
    } else {
        0
    }
}

/// Bit marking direction `k` as analysed.
pub open spec fn dir_mask(k: int) -> u8 {
    if k == 0 {
        1
    } else if k == 1 {
        2
    } else if k == 2 {
        4
    } else {
        8
    }
}

/// Square `j` lies on the run through `(r, c)` along `(dx, dy)`, from `back`
/// squares behind to `fwd` squares ahead.
pub open spec fn on_run(b: Board, r: int, c: int, dx: int, dy: int, back: int, fwd: int, j: int) -> bool {
    exists|i: int|
        -back <= i <= fwd && j == #[trigger] b.idx(
            crate::patterns::step(r, dx, i),
            crate::patterns::step(c, dy, i),
        )
}

/// `m` with `mask` set on the squares of that run.
pub open spec fn mark_run(
    b: Board,
    m: Seq<u8>,
    r: int,
    c: int,
    dx: int,
    dy: int,
    back: int,
    fwd: int,
    mask: u8,
) -> Seq<u8> {
    Seq::new(
        m.len(),
        |j: int|
            if on_run(b, r, c, dx, dy, back, fwd, j) {
                m[j] | mask
            } else {
                m[j]
            },
    )
}

/// Square `j` holds one of `stones`.
pub open spec fn among_stones(b: Board, stones: Seq<(usize, usize)>, j: int) -> bool {
    exists|k: int| 0 <= k < stones.len() && j == b.idx((#[trigger] stones[k]).0 as int, stones[k].1 as int)
}

/// `m` with `mask` set on the squares of `stones`.
pub open spec fn mark_stones(b: Board, m: Seq<u8>, stones: Seq<(usize, usize)>, mask: u8) -> Seq<u8> {
    Seq::new(
        m.len(),
        |j: int|
            if among_stones(b, stones, j) {
                m[j] | mask
            } else {
                m[j]
            },
    )
}

/// Scores of Max and Min, and the squares already analysed for runs and for
/// gapped patterns (one bit per direction).
pub type ScanState = (i32, i32, Seq<u8>, Seq<u8>);

/// `st` with `s` added (wrapping) to the score of `p`.
pub open spec fn add_score(st: ScanState, p: Player, s: i32) -> ScanState {
    match p {
        Player::Max => (st.0.wrapping_add(s), st.1, st.2, st.3),
        Player::Min => (st.0, st.1.wrapping_add(s), st.2, st.3),
    }
}

/// The run of `p` through `(r, c)` in direction `k`, unless its square is
/// already marked for `k`: a run of two or more with room for
/// `win_condition` stones scores (its length capped at `win_condition`) and
/// marks all its squares.
pub open spec fn run_step(b: Board, wc: int, r: int, c: int, p: Player, k: int, st: ScanState) -> ScanState {
    let d = crate::patterns::dir(k);
    let mask = dir_mask(k);
    if st.2[b.idx(r, c)] & mask != 0 {
        st
    } else {
        match crate::patterns::spec_consecutive_info(b, r, c, d.0, d.1, p, wc) {
            None => st,
            Some(info) => {
                let back = crate::patterns::run_len(b, r, c, -d.0, -d.1, p);
                let fwd = crate::patterns::run_len(b, r, c, d.0, d.1, p);
                let len = if info.0 < wc {
                    info.0 as int
                } else {
                    wc
                };
                add_score(
                    (st.0, st.1, mark_run(b, st.2, r, c, d.0, d.1, back, fwd, mask), st.3),
                    p,
                    spec_consecutive_score(len, info.4),
                )
            },
        }
    }
}

/// The stones of `p` collected around `(r, c)` in direction `k`.
pub open spec fn gapped_stones(b: Board, r: int, c: int, p: Player, k: int) -> Seq<(usize, usize)> {
    let d = crate::patterns::dir(k);
    crate::patterns::gap_scan(b, r, c, -d.0, -d.1, p, 1, 6).reverse() + seq![(r as usize, c as usize)]
        + crate::patterns::gap_scan(b, r, c, d.0, d.1, p, 1, 6)
}

/// The gapped pattern of `p` through `(r, c)` in direction `k`, unless its
/// square is already marked for `k`: a valid pattern scores and marks its stones.
pub open spec fn gap_step(b: Board, r: int, c: int, p: Player, k: int, st: ScanState) -> ScanState {
    let mask = dir_mask(k);
    if st.3[b.idx(r, c)] & mask != 0 {
        st
    } else {
        let stones = gapped_stones(b, r, c, p, k);
        match crate::patterns::spec_gapped_pattern(stones) {
            None => st,
            Some(g) => add_score(
                (st.0, st.1, st.2, mark_stones(b, st.3, stones, mask)),
                p,
                spec_gapped_score(g.0 as int, g.1 as int),
            ),
        }
    }
}

/// Directions `0..n` of the stone of `p` at `(r, c)`, run then gapped pattern.
pub open spec fn dirs_step(b: Board, wc: int, r: int, c: int, p: Player, n: int, st: ScanState) -> ScanState
    decreases n,
{
    if n <= 0 {
        st
    } else {
        let prev = dirs_step(b, wc, r, c, p, n - 1, st);
        gap_step(b, r, c, p, n - 1, run_step(b, wc, r, c, p, n - 1, prev))
    }
}

/// `st` after the stones of row `r`, columns `0..n`.
pub open spec fn scan_cols(b: Board, wc: int, r: int, n: int, st: ScanState) -> ScanState
    decreases n,
{
    if n <= 0 {
        st
    } else {
        let prev = scan_cols(b, wc, r, n - 1, st);
        match b.stone(r, n - 1) {
            Some(p) => dirs_step(b, wc, r, n - 1, p, 4, prev),
            None => prev,
        }
    }
}

/// The scan of rows `0..m` from zero scores and no marks.
pub open spec fn scan_all(b: Board, wc: int, m: int) -> ScanState
    decreases m,
{
    if m <= 0 {
        (0i32, 0i32, Seq::new((b.size * b.size) as nat, |j: int| 0u8), Seq::new((b.size * b.size) as nat, |j: int| 0u8))
    } else {
        scan_cols(b, wc, m - 1, b.size as int, scan_all(b, wc, m - 1))
    }
}

/// The pattern scores of Max and Min on `b`: every stone, in row-major
/// order, scores its run and its gapped pattern in each direction unless an
/// earlier stone's pattern already covered it in that direction.
pub open spec fn pattern_scores(b: Board, wc: int) -> (i32, i32) {
    let st = scan_all(b, wc, b.size as int);
    (st.0, st.1)
}

/// The board with every stone's colour exchanged.
pub open spec fn swap_board(b: Board) -> Board {
    Board {
        max_bits: b.min_bits,
        min_bits: b.max_bits,
        occupied: b.occupied,
        size: b.size,
        u64_count: b.u64_count,
        total_cells: b.total_cells,
    }
}

/// A square's stone after the colours are exchanged.
pub open spec fn swap_stone(o: Option<Player>) -> Option<Player> {
    match o {
        Some(p) => Some(p.other()),
        None => None,
    }
}

/// `st` with the two players' scores exchanged.
pub open spec fn swap_scan(st: ScanState) -> ScanState {
    (st.1, st.0, st.2, st.3)
}

proof fn lemma_swap_stone(b: Board)
    requires
        b.wf(),
    ensures
        forall|r: int, c: int| #[trigger] swap_board(b).stone(r, c) == swap_stone(b.stone(r, c)),
{
    assert forall|r: int, c: int| #[trigger] swap_board(b).stone(r, c) == swap_stone(b.stone(r, c)) by {
        if b.in_bounds(r, c) {
            let i = b.idx(r, c);
            assert(!(b.max_at(i) && b.min_at(i)));
        }
    }
}

proof fn lemma_swap_ray(b: Board, r: int, c: int, dx: int, dy: int)
    requires
        b.wf(),
    ensures
        forall|i: int|
            #[trigger] crate::patterns::ray_stone(swap_board(b), r, c, dx, dy, i) == swap_stone(
                crate::patterns::ray_stone(b, r, c, dx, dy, i),
            ),
{
    lemma_swap_stone(b);
    assert forall|i: int|
        #[trigger] crate::patterns::ray_stone(swap_board(b), r, c, dx, dy, i) == swap_stone(
            crate::patterns::ray_stone(b, r, c, dx, dy, i),
        ) by {
        assert(swap_board(b).stone(crate::patterns::step(r, dx, i), crate::patterns::step(c, dy, i)) == swap_stone(
            b.stone(crate::patterns::step(r, dx, i), crate::patterns::step(c, dy, i)),
        ));
    }
}

/// Some square along a unit direction from `(r, c)`, from step `i` on, is
/// not a stone of `p`: the ray leaves the board.
proof fn lemma_run_len_exists_from(b: Board, r: int, c: int, dx: int, dy: int, p: Player, i: int)
    requires
        crate::patterns::unit_dir(dx, dy),
        1 <= i,
        forall|j: int| 1 <= j < i ==> #[trigger] crate::patterns::ray_stone(b, r, c, dx, dy, j) == Some(p),
    ensures
        exists|n: int| crate::patterns::run_len_is(b, r, c, dx, dy, p, n),
    decreases crate::ai::advanced_search::abs_diff(r, 0) + crate::ai::advanced_search::abs_diff(c, 0) + b.size + 2 - i,
{
    if crate::patterns::ray_stone(b, r, c, dx, dy, i) != Some(p) {
        assert(crate::patterns::run_len_is(b, r, c, dx, dy, p, i - 1));
    } else {
        assert(b.in_bounds(crate::patterns::step(r, dx, i), crate::patterns::step(c, dy, i)));
        lemma_run_len_exists_from(b, r, c, dx, dy, p, i + 1);
    }
}

proof fn lemma_empty_len_exists_from(b: Board, r: int, c: int, dx: int, dy: int, i: int)
    requires
        crate::patterns::unit_dir(dx, dy),
        0 <= i,
        forall|j: int| 0 <= j < i ==> #[trigger] crate::patterns::ray_empty(b, r, c, dx, dy, j),
    ensures
        exists|n: int| crate::patterns::empty_len_is(b, r, c, dx, dy, n),
    decreases crate::ai::advanced_search::abs_diff(r, 0) + crate::ai::advanced_search::abs_diff(c, 0) + b.size + 2 - i,
{
    if !crate::patterns::ray_empty(b, r, c, dx, dy, i) {
        assert(crate::patterns::empty_len_is(b, r, c, dx, dy, i));
    } else {
        lemma_empty_len_exists_from(b, r, c, dx, dy, i + 1);
    }
}

proof fn lemma_swap_run_len(b: Board, r: int, c: int, dx: int, dy: int, p: Player)
    requires
        b.wf(),
        crate::patterns::unit_dir(dx, dy),
    ensures
        crate::patterns::run_len(swap_board(b), r, c, dx, dy, p.other()) == crate::patterns::run_len(b, r, c, dx, dy, p),
{
    lemma_swap_ray(b, r, c, dx, dy);
    let b2 = swap_board(b);
    assert forall|n: int|
        crate::patterns::run_len_is(b2, r, c, dx, dy, p.other(), n) == crate::patterns::run_len_is(
            b,
            r,
            c,
            dx,
            dy,
            p,
            n,
        ) by {
        assert(crate::patterns::ray_stone(b2, r, c, dx, dy, n + 1) == swap_stone(
            crate::patterns::ray_stone(b, r, c, dx, dy, n + 1),
        ));
        if crate::patterns::run_len_is(b, r, c, dx, dy, p, n) {
            assert forall|i: int| 1 <= i <= n implies #[trigger] crate::patterns::ray_stone(b2, r, c, dx, dy, i)
                == Some(p.other()) by {
                assert(crate::patterns::ray_stone(b, r, c, dx, dy, i) == Some(p));
            }
        }
        if crate::patterns::run_len_is(b2, r, c, dx, dy, p.other(), n) {
            assert forall|i: int| 1 <= i <= n implies #[trigger] crate::patterns::ray_stone(b, r, c, dx, dy, i)
                == Some(p) by {
                assert(crate::patterns::ray_stone(b2, r, c, dx, dy, i) == Some(p.other()));
            }
        }
    }
    lemma_run_len_exists_from(b, r, c, dx, dy, p, 1);
    let n = crate::patterns::run_len(b, r, c, dx, dy, p);
    assert(crate::patterns::run_len_is(b, r, c, dx, dy, p, n));
    crate::patterns::lemma_run_len_unique(b2, r, c, dx, dy, p.other(), n);
}

proof fn lemma_swap_empty_len(b: Board, r: int, c: int, dx: int, dy: int)
    requires
        b.wf(),
        crate::patterns::unit_dir(dx, dy),
    ensures
        crate::patterns::empty_len(swap_board(b), r, c, dx, dy) == crate::patterns::empty_len(b, r, c, dx, dy),
{
    lemma_swap_ray(b, r, c, dx, dy);
    let b2 = swap_board(b);
    assert forall|i: int|
        #[trigger] crate::patterns::ray_empty(b2, r, c, dx, dy, i) == crate::patterns::ray_empty(b, r, c, dx, dy, i) by {
        assert(crate::patterns::ray_stone(b2, r, c, dx, dy, i) == swap_stone(
            crate::patterns::ray_stone(b, r, c, dx, dy, i),
        ));
    }
    assert forall|n: int|
        crate::patterns::empty_len_is(b2, r, c, dx, dy, n) == crate::patterns::empty_len_is(b, r, c, dx, dy, n) by {
        assert(crate::patterns::ray_empty(b2, r, c, dx, dy, n) == crate::patterns::ray_empty(b, r, c, dx, dy, n));
        if crate::patterns::empty_len_is(b, r, c, dx, dy, n) {
            assert forall|i: int| 0 <= i < n implies #[trigger] crate::patterns::ray_empty(b2, r, c, dx, dy, i) by {
                assert(crate::patterns::ray_empty(b, r, c, dx, dy, i));
            }
        }
        if crate::patterns::empty_len_is(b2, r, c, dx, dy, n) {
            assert forall|i: int| 0 <= i < n implies #[trigger] crate::patterns::ray_empty(b, r, c, dx, dy, i) by {
                assert(crate::patterns::ray_empty(b2, r, c, dx, dy, i));
            }
        }
    }
    lemma_empty_len_exists_from(b, r, c, dx, dy, 0);
    let n = crate::patterns::empty_len(b, r, c, dx, dy);
    assert(crate::patterns::empty_len_is(b, r, c, dx, dy, n));
    crate::patterns::lemma_empty_len_unique(b2, r, c, dx, dy, n);
}

proof fn lemma_swap_info(b: Board, r: int, c: int, dx: int, dy: int, p: Player, wc: int)
    requires
        b.wf(),
        crate::patterns::unit_dir(dx, dy),
    ensures
        crate::patterns::spec_consecutive_info(swap_board(b), r, c, dx, dy, p.other(), wc)
            == crate::patterns::spec_consecutive_info(b, r, c, dx, dy, p, wc),
{
    lemma_swap_stone(b);
    lemma_swap_run_len(b, r, c, dx, dy, p);
    lemma_swap_run_len(b, r, c, -dx, -dy, p);
    let back = crate::patterns::run_len(b, r, c, -dx, -dy, p);
    let fwd = crate::patterns::run_len(b, r, c, dx, dy, p);
    let length = back + fwd + 1;
    let sr = crate::patterns::step(r, -dx, back);
    let sc = crate::patterns::step(c, -dy, back);
    lemma_swap_empty_len(b, crate::patterns::step(sr, dx, -1), crate::patterns::step(sc, dy, -1), -dx, -dy);
    lemma_swap_empty_len(b, crate::patterns::step(sr, dx, length), crate::patterns::step(sc, dy, length), dx, dy);
    let b2 = swap_board(b);
    assert(b2.stone(crate::patterns::step(sr, dx, -1), crate::patterns::step(sc, dy, -1)) == swap_stone(
        b.stone(crate::patterns::step(sr, dx, -1), crate::patterns::step(sc, dy, -1)),
    ));
    assert(b2.stone(crate::patterns::step(sr, dx, length), crate::patterns::step(sc, dy, length)) == swap_stone(
        b.stone(crate::patterns::step(sr, dx, length), crate::patterns::step(sc, dy, length)),
    ));
}

proof fn lemma_swap_gap_scan(b: Board, r: int, c: int, dx: int, dy: int, p: Player, i: int, maxd: int)
    requires
        b.wf(),
    ensures
        crate::patterns::gap_scan(swap_board(b), r, c, dx, dy, p.other(), i, maxd) == crate::patterns::gap_scan(
            b,
            r,
            c,
            dx,
            dy,
            p,
            i,
            maxd,
        ),
    decreases maxd + 1 - i,
{
    lemma_swap_stone(b);
    if i <= maxd {
        lemma_swap_gap_scan(b, r, c, dx, dy, p, i + 1, maxd);
        let rr = crate::patterns::step(r, dx, i);
        let cc = crate::patterns::step(c, dy, i);
        assert(swap_board(b).stone(rr, cc) == swap_stone(b.stone(rr, cc)));
    }
}

proof fn lemma_swap_run_step(b: Board, wc: int, r: int, c: int, p: Player, k: int, st: ScanState)
    requires
        b.wf(),
        0 <= k < 4,
    ensures
        run_step(swap_board(b), wc, r, c, p.other(), k, swap_scan(st)) == swap_scan(run_step(b, wc, r, c, p, k, st)),
{
    let d = crate::patterns::dir(k);
    let b2 = swap_board(b);
    lemma_swap_info(b, r, c, d.0, d.1, p, wc);
    lemma_swap_run_len(b, r, c, d.0, d.1, p);
    lemma_swap_run_len(b, r, c, -d.0, -d.1, p);
    let back = crate::patterns::run_len(b, r, c, -d.0, -d.1, p);
    let fwd = crate::patterns::run_len(b, r, c, d.0, d.1, p);
    assert forall|j: int| #[trigger] on_run(b2, r, c, d.0, d.1, back, fwd, j) == on_run(b, r, c, d.0, d.1, back, fwd, j) by {
        if on_run(b, r, c, d.0, d.1, back, fwd, j) {
            let i = choose|i: int|
                -back <= i <= fwd && j == #[trigger] b.idx(
                    crate::patterns::step(r, d.0, i),
                    crate::patterns::step(c, d.1, i),
                );
            assert(j == b2.idx(crate::patterns::step(r, d.0, i), crate::patterns::step(c, d.1, i)));
        }
        if on_run(b2, r, c, d.0, d.1, back, fwd, j) {
            let i = choose|i: int|
                -back <= i <= fwd && j == #[trigger] b2.idx(
                    crate::patterns::step(r, d.0, i),
                    crate::patterns::step(c, d.1, i),
                );
            assert(j == b.idx(crate::patterns::step(r, d.0, i), crate::patterns::step(c, d.1, i)));
        }
    }
    assert(mark_run(b2, st.2, r, c, d.0, d.1, back, fwd, dir_mask(k)) =~= mark_run(
        b,
        st.2,
        r,
        c,
        d.0,
        d.1,
        back,
        fwd,
        dir_mask(k),
    ));
}

proof fn lemma_swap_gap_step(b: Board, r: int, c: int, p: Player, k: int, st: ScanState)
    requires
        b.wf(),
        0 <= k < 4,
    ensures
        gap_step(swap_board(b), r, c, p.other(), k, swap_scan(st)) == swap_scan(gap_step(b, r, c, p, k, st)),
{
    let d = crate::patterns::dir(k);
    let b2 = swap_board(b);
    lemma_swap_gap_scan(b, r, c, -d.0, -d.1, p, 1, 6);
    lemma_swap_gap_scan(b, r, c, d.0, d.1, p, 1, 6);
    let stones = gapped_stones(b, r, c, p, k);
    assert(gapped_stones(b2, r, c, p.other(), k) == stones);
    assert forall|j: int| #[trigger] among_stones(b2, stones, j) == among_stones(b, stones, j) by {
        if among_stones(b, stones, j) {
            let q = choose|q: int| 0 <= q < stones.len() && j == b.idx((#[trigger] stones[q]).0 as int, stones[q].1 as int);
            assert(j == b2.idx(stones[q].0 as int, stones[q].1 as int));
        }
        if among_stones(b2, stones, j) {
            let q = choose|q: int| 0 <= q < stones.len() && j == b2.idx((#[trigger] stones[q]).0 as int, stones[q].1 as int);
            assert(j == b.idx(stones[q].0 as int, stones[q].1 as int));
        }
    }
    assert(mark_stones(b2, st.3, stones, dir_mask(k)) =~= mark_stones(b, st.3, stones, dir_mask(k)));
}

proof fn lemma_swap_dirs_step(b: Board, wc: int, r: int, c: int, p: Player, n: int, st: ScanState)
    requires
        b.wf(),
        n <= 4,
    ensures
        dirs_step(swap_board(b), wc, r, c, p.other(), n, swap_scan(st)) == swap_scan(
            dirs_step(b, wc, r, c, p, n, st),
        ),
    decreases n,
{
    if n > 0 {
        lemma_swap_dirs_step(b, wc, r, c, p, n - 1, st);
        let prev = dirs_step(b, wc, r, c, p, n - 1, st);
        lemma_swap_run_step(b, wc, r, c, p, n - 1, prev);
        lemma_swap_gap_step(b, r, c, p, n - 1, run_step(b, wc, r, c, p, n - 1, prev));
    }
}

proof fn lemma_swap_scan_cols(b: Board, wc: int, r: int, n: int, st: ScanState)
    requires
        b.wf(),
    ensures
        scan_cols(swap_board(b), wc, r, n, swap_scan(st)) == swap_scan(scan_cols(b, wc, r, n, st)),
    decreases n,
{
    if n > 0 {
        lemma_swap_scan_cols(b, wc, r, n - 1, st);
        lemma_swap_stone(b);
        let prev = scan_cols(b, wc, r, n - 1, st);
        assert(swap_board(b).stone(r, n - 1) == swap_stone(b.stone(r, n - 1)));
        match b.stone(r, n - 1) {
            Some(p) => {
                lemma_swap_dirs_step(b, wc, r, n - 1, p, 4, prev);
            },
            None => {},
        }
    }
}

proof fn lemma_swap_scan_all(b: Board, wc: int, m: int)
    requires
        b.wf(),
    ensures
        scan_all(swap_board(b), wc, m) == swap_scan(scan_all(b, wc, m)),
    decreases m,
{
    if m > 0 {
        lemma_swap_scan_all(b, wc, m - 1);
        lemma_swap_scan_cols(b, wc, m - 1, b.size as int, scan_all(b, wc, m - 1));
    } else {
        assert(scan_all(swap_board(b), wc, m) == swap_scan(scan_all(b, wc, m)));
    }
}

/// Exchanging the colours of all stones exchanges the two players' pattern
/// scores.
pub proof fn lemma_pattern_scores_colour_swap(b: Board, wc: int)
    requires
        b.wf(),
    ensures
        pattern_scores(swap_board(b), wc) == (pattern_scores(b, wc).1, pattern_scores(b, wc).0),
{
    lemma_swap_scan_all(b, wc, b.size as int);
}

/// What `evaluate` returns for `s`.
pub open spec fn spec_evaluate(s: GameState) -> i32 {
    match s.winner {
        Some(Player::Max) => WINNING_SCORE,
        Some(Player::Min) => (-WINNING_SCORE) as i32,
        None => if s.board.all_full() {
            0i32
        } else {
            combine_scores(
                pattern_scores(s.board, s.win_condition as int).0,
                pattern_scores(s.board, s.win_condition as int).1,
                capture_bonus(s.max_captures as int) - capture_bonus(s.min_captures as int),
                spec_vulnerability(s),
            )
        },
    }
}

/// The position with the colours exchanged: every stone, the capture
/// counts, the side to move and the winner.
pub open spec fn swap_state(s: GameState) -> GameState {
    GameState {
        board: swap_board(s.board),
        current_player: s.current_player.other(),
        win_condition: s.win_condition,
        capture_to_win: s.capture_to_win,
        winner: swap_stone(s.winner),
        win_reason: s.win_reason,
        max_captures: s.min_captures,
        min_captures: s.max_captures,
        capture_history: s.capture_history,
        move_history: s.move_history,
        zobrist_hash: s.zobrist_hash,
        current_hash: s.current_hash,
        player_in_check: s.player_in_check,
        check_position: s.check_position,
    }
}

proof fn lemma_isqrt_exists(x: int) -> (k: int)
    requires
        x >= 0,
    ensures
        is_isqrt(x, k),
    decreases x,
{
    if x == 0 {
        0
    } else {
        let j = lemma_isqrt_exists(x - 1);
        if (j + 1) * (j + 1) <= x {
            assert((j + 2) * (j + 2) == (j + 1) * (j + 1) + 2 * j + 3) by (nonlinear_arith);
            assert(x < (j + 2) * (j + 2)) by (nonlinear_arith)
                requires
                    x - 1 < (j + 1) * (j + 1),
                    j >= 0,
                    (j + 2) * (j + 2) == (j + 1) * (j + 1) + 2 * j + 3,
            ;
            j + 1
        } else {
            j
        }
    }
}

/// The capture bonus is between 0 and `i32::MAX`.
proof fn lemma_capture_bonus_range(n: int)
    ensures
        0 <= capture_bonus(n) <= i32::MAX,
{
    if n > 0 {
        let k0 = lemma_isqrt_exists(225_000_000 * n);
        let k = choose|k: int| #[trigger] is_isqrt(225_000_000 * n, k);
        assert(is_isqrt(225_000_000 * n, k));
    }
}

proof fn lemma_wrapping_negates(a: i32, b: i32, x: int)
    requires
        -i32::MAX <= x <= i32::MAX,
    ensures
        b.wrapping_sub(a).wrapping_add((-x) as i32).wrapping_sub(0i32) == 0i32.wrapping_sub(
            a.wrapping_sub(b).wrapping_add(x as i32).wrapping_sub(0i32),
        ),
{
}

/// Exchanging the colours of every stone, the capture counts, the side to
/// move and the winner negates the evaluation (in `i32` wrapping
/// arithmetic): a decided game scores the winner's winning score, a full
/// board 0, and otherwise, when neither position has a pair the opponent can
/// capture, the evaluation is Max's pattern score minus Min's, plus Max's
/// capture bonus minus Min's. (The vulnerability penalty is taken from the
/// side to move whatever its colour, so with it the evaluation is not
/// antisymmetric.)
pub proof fn lemma_evaluate_colour_swap(s: GameState)
    requires
        s.board.wf(),
        s.winner is None && !s.board.all_full() ==> spec_vulnerability(s) == 0 && spec_vulnerability(
            swap_state(s),
        ) == 0,
    ensures
        spec_evaluate(swap_state(s)) == 0i32.wrapping_sub(spec_evaluate(s)),
{
    let t = swap_state(s);
    assert(t.board.occupied == s.board.occupied);
    assert(t.board.total_cells == s.board.total_cells);
    if s.board.all_full() {
        assert forall|i: int| 0 <= i < t.board.total_cells implies #[trigger] t.board.occ_at(i) by {
            assert(s.board.occ_at(i));
        }
    }
    if t.board.all_full() {
        assert forall|i: int| 0 <= i < s.board.total_cells implies #[trigger] s.board.occ_at(i) by {
            assert(t.board.occ_at(i));
        }
    }
    assert(t.board.all_full() == s.board.all_full());
    if s.winner is None && !s.board.all_full() {
        lemma_pattern_scores_colour_swap(s.board, s.win_condition as int);
        lemma_capture_bonus_range(s.max_captures as int);
        lemma_capture_bonus_range(s.min_captures as int);
        let ps = pattern_scores(s.board, s.win_condition as int);
        let x = capture_bonus(s.max_captures as int) - capture_bonus(s.min_captures as int);
        assert(capture_bonus(t.max_captures as int) - capture_bonus(t.min_captures as int) == -x);
        lemma_wrapping_negates(ps.0, ps.1, x);
    }
}

proof fn lemma_or_idempotent(x: u8, m: u8)
    ensures
        (x | m) | m == x | m,
{
    assert((x | m) | m == x | m) by (bit_vector);
}

/// Marking the start square alone is the run from 0 to 0.
proof fn lemma_mark_run_start(b: Board, m0: Seq<u8>, r: int, c: int, dx: int, dy: int, mask: u8)
    requires
        0 <= b.idx(r, c) < m0.len(),
    ensures
        m0.update(b.idx(r, c), m0[b.idx(r, c)] | mask) =~= mark_run(b, m0, r, c, dx, dy, 0, 0, mask),
{
    let j0 = b.idx(r, c);
    assert(crate::patterns::step(r, dx, 0) == r && crate::patterns::step(c, dy, 0) == c);
    assert forall|j: int| 0 <= j < m0.len() implies m0.update(j0, m0[j0] | mask)[j] == mark_run(
        b,
        m0,
        r,
        c,
        dx,
        dy,
        0,
        0,
        mask,
    )[j] by {
        if j == j0 {
            assert(on_run(b, r, c, dx, dy, 0, 0, j)) by {
                assert(-0 <= 0int <= 0 && j == b.idx(crate::patterns::step(r, dx, 0), crate::patterns::step(c, dy, 0)));
            }
        } else if on_run(b, r, c, dx, dy, 0, 0, j) {
            let i = choose|i: int|
                -0 <= i <= 0 && j == #[trigger] b.idx(crate::patterns::step(r, dx, i), crate::patterns::step(c, dy, i));
            assert(i == 0);
        }
    }
}

/// Marking one more square at either end of a marked run.
proof fn lemma_mark_run_grow(
    b: Board,
    m0: Seq<u8>,
    r: int,
    c: int,
    dx: int,
    dy: int,
    back: int,
    fwd: int,
    back2: int,
    fwd2: int,
    i_new: int,
    mask: u8,
)
    requires
        0 <= back,
        0 <= fwd,
        (back2 == back + 1 && fwd2 == fwd && i_new == -back2) || (back2 == back && fwd2 == fwd + 1 && i_new
            == fwd2),
        0 <= b.idx(crate::patterns::step(r, dx, i_new), crate::patterns::step(c, dy, i_new)) < m0.len(),
    ensures
        ({
            let m = mark_run(b, m0, r, c, dx, dy, back, fwd, mask);
            let jn = b.idx(crate::patterns::step(r, dx, i_new), crate::patterns::step(c, dy, i_new));
            m.update(jn, m[jn] | mask) =~= mark_run(b, m0, r, c, dx, dy, back2, fwd2, mask)
        }),
{
    let m = mark_run(b, m0, r, c, dx, dy, back, fwd, mask);
    let jn = b.idx(crate::patterns::step(r, dx, i_new), crate::patterns::step(c, dy, i_new));
    let m2 = mark_run(b, m0, r, c, dx, dy, back2, fwd2, mask);
    assert forall|j: int| 0 <= j < m0.len() implies m.update(jn, m[jn] | mask)[j] == m2[j] by {
        if j == jn {
            assert(on_run(b, r, c, dx, dy, back2, fwd2, j)) by {
                assert(-back2 <= i_new <= fwd2 && j == b.idx(
                    crate::patterns::step(r, dx, i_new),
                    crate::patterns::step(c, dy, i_new),
                ));
            }
            lemma_or_idempotent(m0[j], mask);
        } else {
            if on_run(b, r, c, dx, dy, back2, fwd2, j) {
                let i = choose|i: int|
                    -back2 <= i <= fwd2 && j == #[trigger] b.idx(
                        crate::patterns::step(r, dx, i),
                        crate::patterns::step(c, dy, i),
                    );
                assert(i != i_new);
                assert(on_run(b, r, c, dx, dy, back, fwd, j)) by {
                    assert(-back <= i <= fwd && j == b.idx(crate::patterns::step(r, dx, i), crate::patterns::step(c, dy, i)));
                }
            }
            if on_run(b, r, c, dx, dy, back, fwd, j) {
                let i = choose|i: int|
                    -back <= i <= fwd && j == #[trigger] b.idx(
                        crate::patterns::step(r, dx, i),
                        crate::patterns::step(c, dy, i),
                    );
                assert(on_run(b, r, c, dx, dy, back2, fwd2, j)) by {
                    assert(-back2 <= i <= fwd2 && j == b.idx(crate::patterns::step(r, dx, i), crate::patterns::step(c, dy, i)));
                }
            }
        }
    }
}

/// Marking the next stone of a list.
proof fn lemma_mark_stones_grow(b: Board, m0: Seq<u8>, stones: Seq<(usize, usize)>, k: int, mask: u8)
    requires
        0 <= k < stones.len(),
        0 <= b.idx(stones[k].0 as int, stones[k].1 as int) < m0.len(),
    ensures
        ({
            let m = mark_stones(b, m0, stones.subrange(0, k), mask);
            let jn = b.idx(stones[k].0 as int, stones[k].1 as int);
            m.update(jn, m[jn] | mask) =~= mark_stones(b, m0, stones.subrange(0, k + 1), mask)
        }),
{
    let s1 = stones.subrange(0, k);
    let s2 = stones.subrange(0, k + 1);
    let m = mark_stones(b, m0, s1, mask);
    let jn = b.idx(stones[k].0 as int, stones[k].1 as int);
    let m2 = mark_stones(b, m0, s2, mask);
    assert forall|j: int| 0 <= j < m0.len() implies m.update(jn, m[jn] | mask)[j] == m2[j] by {
        if j == jn {
            assert(among_stones(b, s2, j)) by {
                assert(s2[k] == stones[k]);
            }
            lemma_or_idempotent(m0[j], mask);
        } else {
            if among_stones(b, s2, j) {
                let t = choose|t: int| 0 <= t < s2.len() && j == b.idx((#[trigger] s2[t]).0 as int, s2[t].1 as int);
                assert(t != k);
                assert(s1[t] == s2[t]);
                assert(among_stones(b, s1, j));
            }
            if among_stones(b, s1, j) {
                let t = choose|t: int| 0 <= t < s1.len() && j == b.idx((#[trigger] s1[t]).0 as int, s1[t].1 as int);
                assert(s1[t] == s2[t]);
                assert(among_stones(b, s2, j));
            }
        }
    }
}

/// Score of a gapped pattern of `stones` stones and `gaps` empty squares.
pub open spec fn spec_gapped_score(stones: int, gaps: int) -> i32 {
    if stones == 4 && gaps == 1 {
        GAPPED_FOUR_SCORE
    } else if stones == 3 && gaps == 1 {
        GAPPED_THREE_ONE_SCORE
    } else if stones == 3 && gaps == 2 {
        GAPPED_THREE_TWO_SCORE
    } else if stones == 2 && gaps == 1 {
        GAPPED_TWO_ONE_SCORE
    } else if stones == 2 && gaps == 2 {
        GAPPED_TWO_TWO_SCORE
    } else {
        GAPPED_OTHER_SCORE
    }
}

pub fn score_consecutive_pattern(length: usize, freedom: PatternFreedom) -> (s: i32)
    ensures
        s == spec_consecutive_score(length as int, freedom),
{
    match length {
        5 => WINNING_SCORE,
        4 => match freedom {
            PatternFreedom::Free => LIVE_FOUR_SCORE,
            PatternFreedom::HalfFree => HALF_FREE_FOUR_SCORE,
            PatternFreedom::Flanked => 0,
        },
        3 => match freedom {
            PatternFreedom::Free => LIVE_THREE_SCORE,
            PatternFreedom::HalfFree => HALF_FREE_THREE_SCORE,
            PatternFreedom::Flanked => 0,
        },
        2 => match freedom {
            PatternFreedom::Free => LIVE_TWO_SCORE,
            PatternFreedom::HalfFree => HALF_FREE_TWO_SCORE,
            PatternFreedom::Flanked => 0,
        },
        _ => 0,
    }
}

pub fn score_gapped_pattern(stones: usize, gaps: usize) -> (s: i32)
    ensures
        s == spec_gapped_score(stones as int, gaps as int),
{
    if stones == 4 && gaps == 1 {
        GAPPED_FOUR_SCORE
    } else if stones == 3 && gaps == 1 {
        GAPPED_THREE_ONE_SCORE
    } else if stones == 3 && gaps == 2 {
        GAPPED_THREE_TWO_SCORE
    } else if stones == 2 && gaps == 1 {
        GAPPED_TWO_ONE_SCORE
    } else if stones == 2 && gaps == 2 {
        GAPPED_TWO_TWO_SCORE
    } else {
        GAPPED_OTHER_SCORE
    }
}

} // verus!

verus! {

impl Heuristic {
    /// The evaluation of `state` for Max: the winning score for a decided
    /// game, 0 for a full board, otherwise the pattern scores of Max minus
    /// those of Min, plus the capture bonus, minus the capture vulnerability
    /// of the side to move.
    pub fn evaluate(state: &GameState, _depth: i32) -> (v: i32)
        requires
            state.board.wf(),
            4 * state.board.size * state.board.size <= usize::MAX,
            spec_capturable_pairs(state.board, state.current_player, state.current_player.other()) > 0
                ==> state.capture_to_win >= 3,
            15_000 * spec_capturable_pairs(
                state.board,
                state.current_player,
                state.current_player.other(),
            ) <= i32::MAX,
        ensures
            state.winner == Some(Player::Max) ==> v == WINNING_SCORE,
            state.winner == Some(Player::Min) ==> v == -WINNING_SCORE,
            state.winner is None && state.board.all_full() ==> v == 0,
            state.winner is None && !state.board.all_full() ==> v == combine_scores(
                pattern_scores(state.board, state.win_condition as int).0,
                pattern_scores(state.board, state.win_condition as int).1,
                capture_bonus(state.max_captures as int) - capture_bonus(state.min_captures as int),
                spec_vulnerability(*state),
            ),
            v == spec_evaluate(*state),
    {
        if let Some(winner) = state.check_winner() {
            return match winner {
                Player::Max => WINNING_SCORE,
                Player::Min => -WINNING_SCORE,
            };
        }
        if state.board.is_full() {
            return 0;
        }
        let (max_pattern_score, min_pattern_score) = Self::analyze_all_patterns(
            &state.board,
            state.win_condition,
        );
        let bonus = Self::calculate_capture_bonus(state);
        let vulnerability = Self::evaluate_capture_vulnerability(state);
        let has_strong_tactics = max_pattern_score >= LIVE_FOUR_SCORE || min_pattern_score
            >= LIVE_FOUR_SCORE;
        let capture_vulnerability_penalty = if has_strong_tactics {
            vulnerability / 4
        } else {
            vulnerability
        };
        let v = max_pattern_score.wrapping_sub(min_pattern_score).wrapping_add(
            bonus,
        ).wrapping_sub(capture_vulnerability_penalty);
        proof {
            assert(v == combine_scores(
                max_pattern_score,
                min_pattern_score,
                capture_bonus(state.max_captures as int) - capture_bonus(state.min_captures as int),
                spec_vulnerability(*state),
            ));
        }
        v
    }

    /// Pattern scores of Max and of Min: every stone, in row-major order,
    /// scores its run and its gapped pattern in each direction unless an
    /// earlier stone's pattern already covered it in that direction.
    #[verifier::spinoff_prover]
    #[verifier::rlimit(40)]
    fn analyze_all_patterns(board: &Board, win_condition: usize) -> (scores: (i32, i32))
        requires
            board.wf(),
        ensures
            scores == pattern_scores(*board, win_condition as int),
    {
        proof {
            board.lemma_wf_facts();
        }
        let size = board.size;
        let total = size * size;
        let mut consecutive_analyzed: Vec<u8> = Vec::new();
        let mut gap_analyzed: Vec<u8> = Vec::new();
        let mut i: usize = 0;
        while i < total
            invariant
                i <= total,
                consecutive_analyzed@ =~= Seq::new(i as nat, |j: int| 0u8),
                gap_analyzed@ =~= Seq::new(i as nat, |j: int| 0u8),
            decreases total - i,
        {
            consecutive_analyzed.push(0);
            gap_analyzed.push(0);
            i = i + 1;
        }
        let mut max_score: i32 = 0;
        let mut min_score: i32 = 0;
        let ghost wc = win_condition as int;
        assert((max_score, min_score, consecutive_analyzed@, gap_analyzed@) == scan_all(*board, wc, 0));
        let mut row: usize = 0;
        while row < size
            invariant
                board.wf(),
                size == board.size,
                total == size * size,
                wc == win_condition as int,
                8 * board.size < isize::MAX,
                16 * board.size <= usize::MAX,
                row <= size,
                consecutive_analyzed@.len() == total,
                gap_analyzed@.len() == total,
                (max_score, min_score, consecutive_analyzed@, gap_analyzed@) == scan_all(*board, wc, row as int),
            decreases size - row,
        {
            let mut col: usize = 0;
            while col < size
                invariant
                    board.wf(),
                    size == board.size,
                    total == size * size,
                    wc == win_condition as int,
                    8 * board.size < isize::MAX,
                    16 * board.size <= usize::MAX,
                    row < size,
                    col <= size,
                    consecutive_analyzed@.len() == total,
                    gap_analyzed@.len() == total,
                    (max_score, min_score, consecutive_analyzed@, gap_analyzed@) == scan_cols(
                        *board,
                        wc,
                        row as int,
                        col as int,
                        scan_all(*board, wc, row as int),
                    ),
                decreases size - col,
            {
                proof {
                    board.lemma_cell_index(row as int, col as int);
                    board.lemma_stone_occ(row as int, col as int);
                }
                let idx = board.index(row, col);
                if Board::is_bit_set(board.occupied.as_slice(), idx) {
                    let player = if Board::is_bit_set(board.max_bits.as_slice(), idx) {
                        Player::Max
                    } else {
                        Player::Min
                    };
                    let mut dir_idx: usize = 0;
                    while dir_idx < 4
                        invariant
                            board.wf(),
                            size == board.size,
                            total == size * size,
                            wc == win_condition as int,
                            8 * board.size < isize::MAX,
                            16 * board.size <= usize::MAX,
                            row < size,
                            col < size,
                            idx == row * size + col,
                            idx == board.idx(row as int, col as int),
                            idx < total,
                            board.stone(row as int, col as int) == Some(player),
                            dir_idx <= 4,
                            consecutive_analyzed@.len() == total,
                            gap_analyzed@.len() == total,
                            (max_score, min_score, consecutive_analyzed@, gap_analyzed@) == dirs_step(
                                *board,
                                wc,
                                row as int,
                                col as int,
                                player,
                                dir_idx as int,
                                scan_cols(*board, wc, row as int, col as int, scan_all(*board, wc, row as int)),
                            ),
                        decreases 4 - dir_idx,
                    {
                        let (dx, dy) = DIRECTIONS[dir_idx];
                        assert(dx == crate::patterns::dir(dir_idx as int).0 && dy == crate::patterns::dir(
                            dir_idx as int,
                        ).1);
                        let bit_mask: u8 = if dir_idx == 0 {
                            1
                        } else if dir_idx == 1 {
                            2
                        } else if dir_idx == 2 {
                            4
                        } else {
                            8
                        };
                        assert(bit_mask == dir_mask(dir_idx as int));
                        let ghost st0 = (max_score, min_score, consecutive_analyzed@, gap_analyzed@);
                        if consecutive_analyzed[idx] & bit_mask == 0 {
                            let bonus = Self::analyze_consecutive_pattern(
                                board,
                                row,
                                col,
                                dx,
                                dy,
                                player,
                                win_condition,
                                &mut consecutive_analyzed,
                                bit_mask,
                            );
                            match player {
                                Player::Max => max_score = max_score.wrapping_add(bonus),
                                Player::Min => min_score = min_score.wrapping_add(bonus),
                            }
                        }
                        let ghost st1 = (max_score, min_score, consecutive_analyzed@, gap_analyzed@);
                        assert(st1 == run_step(*board, wc, row as int, col as int, player, dir_idx as int, st0));
                        if gap_analyzed[idx] & bit_mask == 0 {
                            let bonus = Self::analyze_gapped_pattern(
                                board,
                                row,
                                col,
                                dx,
                                dy,
                                player,
                                &mut gap_analyzed,
                                bit_mask,
                            );
                            match player {
                                Player::Max => max_score = max_score.wrapping_add(bonus),
                                Player::Min => min_score = min_score.wrapping_add(bonus),
                            }
                        }
                        assert((max_score, min_score, consecutive_analyzed@, gap_analyzed@) == gap_step(
                            *board,
                            row as int,
                            col as int,
                            player,
                            dir_idx as int,
                            st1,
                        ));
                        dir_idx = dir_idx + 1;
                    }
                }
                col = col + 1;
            }
            row = row + 1;
        }
        (max_score, min_score)
    }

    /// Marks square `(r, c)` as analysed for `bit_mask`.
    fn mark(analyzed: &mut Vec<u8>, size: usize, r: usize, c: usize, bit_mask: u8)
        requires
            crate::board::size_ok(size as int),
            r < size,
            c < size,
            old(analyzed)@.len() == size * size,
        ensures
            final(analyzed)@ == old(analyzed)@.update(
                r * size + c,
                old(analyzed)@[r * size + c] | bit_mask,
            ),
            0 <= r * size + c < size * size,
    {
        proof {
            crate::board::lemma_index_in_range(size as int, r as int, c as int);
        }
        let i = r * size + c;
        let v = analyzed[i] | bit_mask;
        analyzed.set(i, v);
    }

    /// Scores the run of `player` through `(row, col)` along `(dx, dy)` and
    /// marks its stones for this direction; 0 for a run too short or without
    /// room for `win_condition` stones.
    fn analyze_consecutive_pattern(
        board: &Board,
        row: usize,
        col: usize,
        dx: isize,
        dy: isize,
        player: Player,
        win_condition: usize,
        analyzed: &mut Vec<u8>,
        bit_mask: u8,
    ) -> (score: i32)
        requires
            board.wf(),
            8 * board.size < isize::MAX,
            16 * board.size <= usize::MAX,
            row < board.size,
            col < board.size,
            crate::patterns::unit_dir(dx as int, dy as int),
            old(analyzed)@.len() == board.size * board.size,
        ensures
            final(analyzed)@.len() == old(analyzed)@.len(),
            match crate::patterns::spec_consecutive_info(
                *board,
                row as int,
                col as int,
                dx as int,
                dy as int,
                player,
                win_condition as int,
            ) {
                None => score == 0 && final(analyzed)@ == old(analyzed)@,
                Some(info) => {
                    &&& score == spec_consecutive_score(
                        if info.0 < win_condition {
                            info.0 as int
                        } else {
                            win_condition as int
                        },
                        info.4,
                    )
                    &&& final(analyzed)@ == mark_run(
                        *board,
                        old(analyzed)@,
                        row as int,
                        col as int,
                        dx as int,
                        dy as int,
                        crate::patterns::run_len(*board, row as int, col as int, -dx as int, -dy as int, player),
                        crate::patterns::run_len(*board, row as int, col as int, dx as int, dy as int, player),
                        bit_mask,
                    )
                },
            },
    {
        let ghost m0 = analyzed@;
        let pattern_info = PatternAnalyzer::analyze_consecutive_from_position(
            board,
            row,
            col,
            dx,
            dy,
            player,
            win_condition,
        );
        let (length, freedom) = match pattern_info {
            Some((length, _start_row, _start_col, _total_space, freedom)) => (length, freedom),
            None => {
                return 0;
            },
        };
        let backward = PatternAnalyzer::count_consecutive(board, row, col, -dx, -dy, player);
        let forward = PatternAnalyzer::count_consecutive(board, row, col, dx, dy, player);
        let size = board.size;
        Self::mark(analyzed, size, row, col, bit_mask);
        proof {
            lemma_mark_run_start(*board, m0, row as int, col as int, dx as int, dy as int, bit_mask);
        }
        let mut dist: usize = 1;
        while dist <= backward
            invariant
                board.wf(),
                size == board.size,
                8 * board.size < isize::MAX,
                row < size,
                col < size,
                crate::patterns::unit_dir(dx as int, dy as int),
                1 <= dist <= backward + 1,
                backward <= size,
                crate::patterns::run_len_is(*board, row as int, col as int, -dx as int, -dy as int, player, backward as int),
                m0.len() == size * size,
                analyzed@ == mark_run(*board, m0, row as int, col as int, dx as int, dy as int, dist - 1, 0, bit_mask),
            decreases backward + 1 - dist,
        {
            proof {
                crate::patterns::lemma_unit_mul(dx as int, dist as int);
                crate::patterns::lemma_unit_mul(dy as int, dist as int);
                assert(crate::patterns::ray_stone(*board, row as int, col as int, -dx as int, -dy as int, dist as int) == Some(player));
            }
            let r = (row as isize - dx * (dist as isize)) as usize;
            let c = (col as isize - dy * (dist as isize)) as usize;
            proof {
                assert(r as int == crate::patterns::step(row as int, dx as int, -(dist as int)));
                assert(c as int == crate::patterns::step(col as int, dy as int, -(dist as int)));
                assert(board.in_bounds(r as int, c as int));
                board.lemma_cell_index(r as int, c as int);
                lemma_mark_run_grow(
                    *board,
                    m0,
                    row as int,
                    col as int,
                    dx as int,
                    dy as int,
                    dist - 1,
                    0,
                    dist as int,
                    0,
                    -(dist as int),
                    bit_mask,
                );
            }
            Self::mark(analyzed, size, r, c, bit_mask);
            dist = dist + 1;
        }
        let mut dist: usize = 1;
        while dist <= forward
            invariant
                board.wf(),
                size == board.size,
                8 * board.size < isize::MAX,
                row < size,
                col < size,
                crate::patterns::unit_dir(dx as int, dy as int),
                1 <= dist <= forward + 1,
                forward <= size,
                crate::patterns::run_len_is(*board, row as int, col as int, dx as int, dy as int, player, forward as int),
                m0.len() == size * size,
                analyzed@ == mark_run(*board, m0, row as int, col as int, dx as int, dy as int, backward as int, dist - 1, bit_mask),
            decreases forward + 1 - dist,
        {
            proof {
                crate::patterns::lemma_unit_mul(dx as int, dist as int);
                crate::patterns::lemma_unit_mul(dy as int, dist as int);
                assert(crate::patterns::ray_stone(*board, row as int, col as int, dx as int, dy as int, dist as int) == Some(player));
            }
            let r = (row as isize + dx * (dist as isize)) as usize;
            let c = (col as isize + dy * (dist as isize)) as usize;
            proof {
                assert(r as int == crate::patterns::step(row as int, dx as int, dist as int));
                assert(c as int == crate::patterns::step(col as int, dy as int, dist as int));
                assert(board.in_bounds(r as int, c as int));
                board.lemma_cell_index(r as int, c as int);
                lemma_mark_run_grow(
                    *board,
                    m0,
                    row as int,
                    col as int,
                    dx as int,
                    dy as int,
                    backward as int,
                    dist - 1,
                    backward as int,
                    dist as int,
                    dist as int,
                    bit_mask,
                );
            }
            Self::mark(analyzed, size, r, c, bit_mask);
            dist = dist + 1;
        }
        let capped = if length < win_condition {
            length
        } else {
            win_condition
        };
        score_consecutive_pattern(capped, freedom)
    }

    /// Scores the gapped pattern of `player` through `(row, col)` along
    /// `(dx, dy)` and marks its stones for this direction; 0 when there is none.
    fn analyze_gapped_pattern(
        board: &Board,
        row: usize,
        col: usize,
        dx: isize,
        dy: isize,
        player: Player,
        analyzed: &mut Vec<u8>,
        bit_mask: u8,
    ) -> (score: i32)
        requires
            board.wf(),
            8 * board.size < isize::MAX,
            row < board.size,
            col < board.size,
            crate::patterns::unit_dir(dx as int, dy as int),
            old(analyzed)@.len() == board.size * board.size,
        ensures
            final(analyzed)@.len() == old(analyzed)@.len(),
            ({
                let stones = crate::patterns::gap_scan(*board, row as int, col as int, -dx as int, -dy as int, player, 1, 6).reverse()
                    + seq![(row, col)] + crate::patterns::gap_scan(
                    *board,
                    row as int,
                    col as int,
                    dx as int,
                    dy as int,
                    player,
                    1,
                    6,
                );
                match crate::patterns::spec_gapped_pattern(stones) {
                    None => score == 0 && final(analyzed)@ == old(analyzed)@,
                    Some(g) => score == spec_gapped_score(g.0 as int, g.1 as int) && final(analyzed)@
                        == mark_stones(*board, old(analyzed)@, stones, bit_mask),
                }
            }),
    {
        let ghost m0 = analyzed@;
        let stones = PatternAnalyzer::collect_gapped_stones(board, row, col, dx, dy, player, 6);
        proof {
            crate::patterns::lemma_gapped_stones_on_board(
                *board,
                row as int,
                col as int,
                dx as int,
                dy as int,
                player,
                6,
            );
            crate::patterns::lemma_gapped_span(*board, row as int, col as int, dx as int, dy as int, player, 6);
            assert(stones@ == crate::patterns::gap_scan(
                *board,
                row as int,
                col as int,
                -dx,
                -dy,
                player,
                1,
                6,
            ).reverse() + seq![((row as int) as usize, (col as int) as usize)] + crate::patterns::gap_scan(
                *board,
                row as int,
                col as int,
                dx as int,
                dy as int,
                player,
                1,
                6,
            ));
            assert forall|k: int| 0 <= k < stones@.len() implies 4 * (#[trigger] stones@[k]).0
                < isize::MAX && 4 * stones@[k].1 < isize::MAX && board.in_bounds(
                stones@[k].0 as int,
                stones@[k].1 as int,
            ) by {
                assert(board.in_bounds(stones@[k].0 as int, stones@[k].1 as int));
            }
        }
        let (stone_count, gaps) = match PatternAnalyzer::analyze_gapped_pattern(stones.as_slice()) {
            Some((stone_count, gaps, _span)) => (stone_count, gaps),
            None => {
                return 0;
            },
        };
        let size = board.size;
        let mut i: usize = 0;
        proof {
            assert(mark_stones(*board, m0, stones@.subrange(0, 0), bit_mask) =~= m0);
        }
        while i < stones.len()
            invariant
                board.wf(),
                i <= stones@.len(),
                size == board.size,
                forall|k: int|
                    0 <= k < stones@.len() ==> board.in_bounds(
                        (#[trigger] stones@[k]).0 as int,
                        stones@[k].1 as int,
                    ),
                m0.len() == size * size,
                analyzed@ == mark_stones(*board, m0, stones@.subrange(0, i as int), bit_mask),
            decreases stones@.len() - i,
        {
            let (r, c) = stones[i];
            proof {
                board.lemma_cell_index(r as int, c as int);
                lemma_mark_stones_grow(*board, m0, stones@, i as int, bit_mask);
            }
            Self::mark(analyzed, size, r, c, bit_mask);
            i = i + 1;
        }
        proof {
            assert(stones@.subrange(0, stones@.len() as int) =~= stones@);
        }
        score_gapped_pattern(stone_count, gaps)
    }

    /// The capture bonus of Max minus that of Min.
    fn calculate_capture_bonus(state: &GameState) -> (b: i32)
        ensures
            b == capture_bonus(state.max_captures as int) - capture_bonus(state.min_captures as int),
    {
        let max_bonus = Self::bonus_of(state.max_captures);
        let min_bonus = Self::bonus_of(state.min_captures);
        max_bonus - min_bonus
    }

    /// `CAPTURE_BONUS_MULTIPLIER * sqrt(n)`, rounded down, at most `i32::MAX`; 0 for none.
    fn bonus_of(n: usize) -> (b: i32)
        ensures
            b == capture_bonus(n as int),
            b >= 0,
    {
        if n == 0 {
            return 0;
        }
        let x: u128 = 225_000_000u128 * (n as u128);
        let mut lo: u128 = 0;
        let mut hi: u128 = 0x8000_0000_0000;
        assert(x < hi * hi) by (nonlinear_arith)
            requires
                x == 225_000_000 * n,
                n <= usize::MAX,
                usize::MAX <= u64::MAX,
                hi == 0x8000_0000_0000,
        ;
        while hi - lo > 1
            invariant
                lo < hi <= 0x8000_0000_0000,
                lo * lo <= x,
                x < hi * hi,
            decreases hi - lo,
        {
            let mid = lo + (hi - lo) / 2;
            assert(mid * mid <= 0x8000_0000_0000 * 0x8000_0000_0000) by (nonlinear_arith)
                requires
                    mid <= 0x8000_0000_0000,
            ;
            if mid * mid <= x {
                lo = mid;
            } else {
                hi = mid;
            }
        }
        proof {
            assert(hi == lo + 1);
            assert(is_isqrt(x as int, lo as int));
            let k = choose|k: int| #[trigger] is_isqrt(225_000_000 * n, k);
            lemma_isqrt_unique(x as int, k, lo as int);
        }
        if lo > 0x7fff_ffff {
            i32::MAX
        } else {
            lo as i32
        }
    }

    /// The penalty for the side to move having pairs its opponent can
    /// capture: prohibitive when the opponent can win by capture next move,
    /// otherwise growing with the number of pairs and the opponent's progress.
    fn evaluate_capture_vulnerability(state: &GameState) -> (p: i32)
        requires
            state.board.wf(),
            4 * state.board.size * state.board.size <= usize::MAX,
            spec_capturable_pairs(state.board, state.current_player, state.current_player.other()) > 0
                ==> state.capture_to_win >= 3,
            15_000 * spec_capturable_pairs(
                state.board,
                state.current_player,
                state.current_player.other(),
            ) <= i32::MAX,
        ensures
            p == spec_vulnerability(*state),
            p >= 0,
    {
        let current_player = state.current_player;
        let opponent = current_player.opponent();
        let opponent_captures = match opponent {
            Player::Max => state.max_captures,
            Player::Min => state.min_captures,
        };
        let capturable_pairs = Self::count_capturable_pairs(&state.board, current_player, opponent);
        if capturable_pairs == 0 {
            return 0;
        }
        let can_win_immediately = opponent_captures >= state.capture_to_win - 1
            && Self::opponent_can_capture_and_win(state, opponent);
        if can_win_immediately {
            return 900_000;
        }
        let progress_multiplier: i32 = if opponent_captures >= state.capture_to_win - 2 {
            5
        } else if opponent_captures >= state.capture_to_win - 3 {
            3
        } else if opponent_captures >= state.capture_to_win / 2 {
            2
        } else {
            1
        };
        CAPTURE_VULNERABILITY_BASE * (capturable_pairs as i32) * progress_multiplier
    }

    /// Pairs of `player` that `opponent` could capture.
    fn count_capturable_pairs(board: &Board, player: Player, opponent: Player) -> (n: usize)
        requires
            board.wf(),
            4 * board.size * board.size <= usize::MAX,
        ensures
            n == spec_capturable_pairs(*board, player, opponent),
    {
        proof {
            board.lemma_wf_facts();
        }
        let size = board.size;
        let mut count: usize = 0;
        let mut row: usize = 0;
        while row < size
            invariant
                board.wf(),
                size == board.size,
                8 * board.size < isize::MAX,
                16 * board.size <= usize::MAX,
                4 * board.size * board.size <= usize::MAX,
                row <= size,
                count == exposed_in_rows(*board, player, opponent, row as int),
                count <= 4 * size * row,
            decreases size - row,
        {
            let mut col: usize = 0;
            while col < size
                invariant
                    board.wf(),
                    size == board.size,
                    8 * board.size < isize::MAX,
                    16 * board.size <= usize::MAX,
                    4 * board.size * board.size <= usize::MAX,
                    row < size,
                    col <= size,
                    count == exposed_in_rows(*board, player, opponent, row as int) + exposed_in_row(
                        *board,
                        row as int,
                        player,
                        opponent,
                        col as int,
                    ),
                    count <= 4 * size * row + 4 * col,
                decreases size - col,
            {
                let here = Self::count_exposed_at(board, row, col, player, opponent);
                proof {
                    assert(4 * size * row + 4 * col + 4 <= 4 * size * size) by (nonlinear_arith)
                        requires
                            row < size,
                            col < size,
                    ;
                }
                count = count + here;
                col = col + 1;
            }
            proof {
                assert(4 * size * row + 4 * size == 4 * size * (row + 1)) by (nonlinear_arith);
            }
            row = row + 1;
        }
        count / 2
    }

    /// Exposed pairs of `player` starting at `(row, col)`.
    fn count_exposed_at(board: &Board, row: usize, col: usize, player: Player, opponent: Player) -> (n: usize)
        requires
            board.wf(),
            8 * board.size < isize::MAX,
            row < board.size,
            col < board.size,
        ensures
            n == exposed_at(*board, row as int, col as int, player, opponent, 4),
            n <= 4,
    {
        let mut n: usize = 0;
        let mut k: usize = 0;
        while k < 4
            invariant
                board.wf(),
                8 * board.size < isize::MAX,
                row < board.size,
                col < board.size,
                k <= 4,
                n == exposed_at(*board, row as int, col as int, player, opponent, k as int),
                n <= k,
            decreases 4 - k,
        {
            let (dx, dy) = DIRECTIONS[k];
            assert(dx == crate::patterns::dir(k as int).0 && dy == crate::patterns::dir(k as int).1);
            let r = row as isize;
            let c = col as isize;
            let mine = Self::is_stone_of(board, r, c, player);
            let next_mine = Self::is_stone_of(board, r + dx, c + dy, player);
            let before_opp = Self::is_stone_of(board, r - dx, c - dy, opponent);
            let after_opp = Self::is_stone_of(board, r + 2 * dx, c + 2 * dy, opponent);
            if mine && next_mine && (before_opp || after_opp) {
                n = n + 1;
            }
            k = k + 1;
        }
        n
    }

    /// Whether `(r, c)` holds a stone of `p` (off-board squares hold none).
    fn is_stone_of(board: &Board, r: isize, c: isize, p: Player) -> (b: bool)
        requires
            board.wf(),
        ensures
            b == (board.stone(r as int, c as int) == Some(p)),
    {
        if !PatternAnalyzer::is_in_bounds(board, r, c) {
            return false;
        }
        match board.get_player(r as usize, c as usize) {
            Some(q) => q == p,
            None => false,
        }
    }

    /// Whether `opponent` has an empty square whose captures bring it to
    /// `capture_to_win` pairs. (Putting the stone on the square first, as a
    /// copy of the board would, changes nothing: captures only look at the
    /// squares one to three steps away.)
    fn opponent_can_capture_and_win(state: &GameState, opponent: Player) -> (b: bool)
        requires
            state.board.wf(),
        ensures
            b == spec_capture_win_threat(
                state.board,
                opponent,
                if opponent == Player::Max {
                    state.max_captures as int
                } else {
                    state.min_captures as int
                },
                state.capture_to_win as int,
            ),
    {
        let board = &state.board;
        proof {
            board.lemma_wf_facts();
        }
        let opponent_captures = match opponent {
            Player::Max => state.max_captures,
            Player::Min => state.min_captures,
        };
        let ghost oc = opponent_captures as int;
        let ghost ctw = state.capture_to_win as int;
        let size = board.size;
        let mut row: usize = 0;
        while row < size
            invariant
                board.wf(),
                size == board.size,
                8 * board.size < isize::MAX,
                row <= size,
                oc == opponent_captures,
                ctw == state.capture_to_win,
                *board == state.board,
                oc == if opponent == Player::Max {
                    state.max_captures as int
                } else {
                    state.min_captures as int
                },
                forall|r: int, c: int|
                    0 <= r < row && 0 <= c < size ==> !(board.stone(r, c) is None
                        && #[trigger] crate::captures::spec_captures(*board, r, c, opponent).len() > 0
                        && oc + crate::captures::spec_captures(*board, r, c, opponent).len() / 2 >= ctw),
            decreases size - row,
        {
            let mut col: usize = 0;
            while col < size
                invariant
                    board.wf(),
                    size == board.size,
                    8 * board.size < isize::MAX,
                    row < size,
                    col <= size,
                    oc == opponent_captures,
                    ctw == state.capture_to_win,
                    *board == state.board,
                    oc == if opponent == Player::Max {
                        state.max_captures as int
                    } else {
                        state.min_captures as int
                    },
                    forall|r: int, c: int|
                        (0 <= r < row && 0 <= c < size || r == row && 0 <= c < col) ==> !(board.stone(r, c)
                            is None && #[trigger] crate::captures::spec_captures(
                            *board,
                            r,
                            c,
                            opponent,
                        ).len() > 0 && oc + crate::captures::spec_captures(*board, r, c, opponent).len()
                            / 2 >= ctw),
                decreases size - col,
            {
                if board.get_player(row, col).is_none() {
                    let captures = CaptureHandler::detect_captures(board, row, col, opponent);
                    if captures.len() > 0 {
                        let capture_pairs = captures.len() / 2;
                        let needed = if state.capture_to_win > opponent_captures {
                            state.capture_to_win - opponent_captures
                        } else {
                            0
                        };
                        if capture_pairs >= needed {
                            proof {
                                assert(board.in_bounds(row as int, col as int));
                                assert(crate::captures::spec_captures(*board, row as int, col as int, opponent).len() > 0);
                                assert(oc + crate::captures::spec_captures(*board, row as int, col as int, opponent).len() / 2 >= ctw);
                            }
                            return true;
                        }
                    }
                }
                col = col + 1;
            }
            row = row + 1;
        }
        false
    }
}

} // verus!

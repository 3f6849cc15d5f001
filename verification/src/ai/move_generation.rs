//! Candidate moves for the search: the empty squares that extend or block
//! lines, complete gapped patterns or make captures, best scored first;
//! around the stones when no such square exists; any legal square as a
//! last resort.

use vstd::prelude::*;
use crate::ai::heuristic::{score_consecutive_pattern, score_gapped_pattern};
use crate::board::{Board, Player};
use crate::patterns::{PatternAnalyzer, DIRECTIONS};
use crate::rules::double_three::DoubleThreeDetection;

verus! {

/// Score for each square where a capture can be made.
pub const CAPTURE_MOVE_SCORE: i32 = 5000;

/// Squares with accumulated scores, each square listed once, each an empty
/// square of the board.
pub open spec fn scores_ok(b: Board, s: Seq<((usize, usize), i32)>) -> bool {
    &&& forall|i: int|
        0 <= i < s.len() ==> crate::patterns::valid_empty(b, (#[trigger] s[i]).0.0 as int, s[i].0.1 as int)
    &&& forall|i: int, j: int| 0 <= i < j < s.len() ==> (#[trigger] s[i]).0 != (#[trigger] s[j]).0
}

/// Moves that are empty squares of the board, each listed once.
pub open spec fn moves_ok(b: Board, m: Seq<(usize, usize)>) -> bool {
    &&& forall|i: int|
        0 <= i < m.len() ==> crate::patterns::valid_empty(b, (#[trigger] m[i]).0 as int, m[i].1 as int)
    &&& forall|i: int, j: int| 0 <= i < j < m.len() ==> #[trigger] m[i] != #[trigger] m[j]
}

/// `mv` is an empty square where `player` may play without a double-three.
pub open spec fn legal_for(b: Board, player: Player, mv: (usize, usize)) -> bool {
    &&& b.in_bounds(mv.0 as int, mv.1 as int)
    &&& b.stone(mv.0 as int, mv.1 as int) is None
    &&& !crate::rules::double_three::spec_double_three(b, mv.0 as int, mv.1 as int, player)
}

/// Some square is legal for `player`.
pub open spec fn has_legal_move(b: Board, player: Player) -> bool {
    exists|r: int, c: int| b.in_bounds(r, c) && #[trigger] legal_for(b, player, (r as usize, c as usize))
}

/// Accumulated scores of squares.
pub type ScoreMap = Map<(usize, usize), i32>;

/// `m` with `s` added (wrapping) to the score of `pos`; a square not yet
/// scored starts at `s`.
pub open spec fn acc(m: ScoreMap, pos: (usize, usize), s: i32) -> ScoreMap {
    if m.contains_key(pos) {
        m.insert(pos, m[pos].wrapping_add(s))
    } else {
        m.insert(pos, s)
    }
}

/// The scores listed in `s`, as a map.
pub open spec fn score_view(s: Seq<((usize, usize), i32)>) -> ScoreMap
    decreases s.len(),
{
    if s.len() == 0 {
        Map::empty()
    } else {
        score_view(s.drop_last()).insert(s.last().0, s.last().1)
    }
}

/// The squares of `s` are listed once each.
pub open spec fn keys_unique(s: Seq<((usize, usize), i32)>) -> bool {
    forall|i: int, j: int| 0 <= i < j < s.len() ==> (#[trigger] s[i]).0 != (#[trigger] s[j]).0
}

/// With each square listed once, the map holds exactly the listed squares
/// with their listed scores.
pub proof fn lemma_score_view(s: Seq<((usize, usize), i32)>)
    requires
        keys_unique(s),
    ensures
        forall|pos: (usize, usize)|
            #[trigger] score_view(s).contains_key(pos) <==> exists|i: int| 0 <= i < s.len() && s[i].0 == pos,
        forall|i: int| 0 <= i < s.len() ==> #[trigger] score_view(s)[s[i].0] == s[i].1,
    decreases s.len(),
{
    if s.len() > 0 {
        let t = s.drop_last();
        lemma_score_view(t);
        assert forall|pos: (usize, usize)| #[trigger] score_view(s).contains_key(pos) <==> exists|i: int|
            0 <= i < s.len() && s[i].0 == pos by {
            if score_view(s).contains_key(pos) && pos != s.last().0 {
                assert(score_view(t).contains_key(pos));
                let i = choose|i: int| 0 <= i < t.len() && t[i].0 == pos;
                assert(s[i] == t[i]);
                assert(s[i].0 == pos);
            }
            if score_view(s).contains_key(pos) && pos == s.last().0 {
                assert(s[s.len() - 1].0 == pos);
            }
            if exists|i: int| 0 <= i < s.len() && s[i].0 == pos {
                let i = choose|i: int| 0 <= i < s.len() && s[i].0 == pos;
                if i < t.len() {
                    assert(t[i] == s[i]);
                    assert(t[i].0 == pos);
                    assert(score_view(t).contains_key(pos));
                }
            }
        }
        assert forall|i: int| 0 <= i < s.len() implies #[trigger] score_view(s)[s[i].0] == s[i].1 by {
            if i < t.len() {
                assert(t[i] == s[i]);
                assert(s[i].0 != s[s.len() - 1].0);
                assert(score_view(t)[t[i].0] == t[i].1);
            } else {
                assert(s[i] == s.last());
            }
        }
    }
}

/// Changing the score at an index changes the map at that square.
pub proof fn lemma_score_view_update(s: Seq<((usize, usize), i32)>, i: int, v: i32)
    requires
        keys_unique(s),
        0 <= i < s.len(),
    ensures
        score_view(s.update(i, (s[i].0, v))) =~= score_view(s).insert(s[i].0, v),
    decreases s.len(),
{
    let s2 = s.update(i, (s[i].0, v));
    let t = s.drop_last();
    if i == s.len() - 1 {
        assert(s2.drop_last() =~= t);
    } else {
        assert(s2.drop_last() =~= t.update(i, (t[i].0, v)));
        lemma_score_view_update(t, i, v);
        assert(s[i].0 != s.last().0);
    }
}

/// `m` after `score` is added, for offsets `i..=hi` along `(dx, dy)` from
/// `(r, c)`, to each offset square that is empty.
pub open spec fn offsets_acc(b: Board, r: int, c: int, dx: int, dy: int, score: i32, i: int, hi: int, m: ScoreMap) -> ScoreMap
    decreases hi + 1 - i,
{
    if i > hi {
        m
    } else {
        let rr = crate::patterns::step(r, dx, i);
        let cc = crate::patterns::step(c, dy, i);
        let m1 = if crate::patterns::valid_empty(b, rr, cc) {
            acc(m, (rr as usize, cc as usize), score)
        } else {
            m
        };
        offsets_acc(b, r, c, dx, dy, score, i + 1, hi, m1)
    }
}

/// `m` after `score` is added to each of the squares `sq[i..]`.
pub open spec fn cells_acc(sq: Seq<(usize, usize)>, score: i32, i: int, m: ScoreMap) -> ScoreMap
    decreases sq.len() - i,
{
    if i >= sq.len() {
        m
    } else {
        cells_acc(sq, score, i + 1, acc(m, sq[i], score))
    }
}

/// The line of `p` through `(r, c)` along `(dx, dy)`: two to four stones in
/// a row with room for five score (by length and open ends) every empty
/// square from one before the line to one after it.
pub open spec fn line_acc(b: Board, r: int, c: int, dx: int, dy: int, p: Player, m: ScoreMap) -> ScoreMap {
    let back = crate::patterns::run_len(b, r, c, -dx, -dy, p);
    let fwd = crate::patterns::run_len(b, r, c, dx, dy, p);
    let total = back + fwd + 1;
    let sr = crate::patterns::step(r, dx, -back);
    let sc = crate::patterns::step(c, dy, -back);
    if 2 <= total <= 4 && sr >= 0 && sc >= 0 && crate::patterns::spec_total_space(b, sr, sc, dx, dy, total) >= 5 {
        let score = crate::ai::heuristic::spec_consecutive_score(
            total,
            crate::patterns::spec_freedom(b, sr, sc, dx, dy, total),
        );
        offsets_acc(b, r, c, dx, dy, score, -(back + 1), fwd + 1, m)
    } else {
        m
    }
}

/// The stones of `p` collected around `(r, c)` along `(dx, dy)`.
pub open spec fn stones_around(b: Board, r: int, c: int, dx: int, dy: int, p: Player) -> Seq<(usize, usize)> {
    crate::patterns::gap_scan(b, r, c, -dx, -dy, p, 1, 6).reverse() + seq![(r as usize, c as usize)]
        + crate::patterns::gap_scan(b, r, c, dx, dy, p, 1, 6)
}

/// The empty squares between the first and last of `stones` along `(dx, dy)`.
pub open spec fn gaps_of(b: Board, stones: Seq<(usize, usize)>, dx: int, dy: int) -> Seq<(usize, usize)> {
    crate::patterns::gap_cells(
        b,
        stones[0].0 as int,
        stones[0].1 as int,
        dx,
        dy,
        1,
        crate::patterns::spec_gap_steps(stones[0], stones.last()),
    )
}

/// The gapped pattern of `p` through `(r, c)` along `(dx, dy)`: two or more
/// stones within seven squares, one to three gaps and at least four stones
/// and gaps together score each gap.
pub open spec fn gap_acc(b: Board, r: int, c: int, dx: int, dy: int, p: Player, m: ScoreMap) -> ScoreMap {
    let stones = stones_around(b, r, c, dx, dy, p);
    if stones.len() >= 2 && crate::patterns::spec_span(stones[0], stones.last()) <= 7 {
        let gaps = gaps_of(b, stones, dx, dy);
        if 0 < gaps.len() <= 3 && stones.len() >= 4 - gaps.len() {
            cells_acc(gaps, crate::ai::heuristic::spec_gapped_score(stones.len() as int, gaps.len() as int), 0, m)
        } else {
            m
        }
    } else {
        m
    }
}

/// The pair of `p`'s opponent at `(r, c)` and the next square along
/// `(dx, dy)`, flanked by `p` on one side: the empty square on the other
/// side scores `CAPTURE_MOVE_SCORE` (first the square before, then the one after).
pub open spec fn cap_acc(b: Board, r: int, c: int, dx: int, dy: int, p: Player, m: ScoreMap) -> ScoreMap {
    let nr = r + dx;
    let nc = c + dy;
    if b.in_bounds(nr, nc) && b.stone(nr, nc) == Some(p.other()) {
        let br = r - dx;
        let bc = c - dy;
        let ar = nr + dx;
        let ac = nc + dy;
        let m1 = if crate::patterns::valid_empty(b, br, bc) && b.in_bounds(ar, ac) && b.stone(ar, ac) == Some(p) {
            acc(m, (br as usize, bc as usize), CAPTURE_MOVE_SCORE)
        } else {
            m
        };
        if crate::patterns::valid_empty(b, ar, ac) && b.in_bounds(br, bc) && b.stone(br, bc) == Some(p) {
            acc(m1, (ar as usize, ac as usize), CAPTURE_MOVE_SCORE)
        } else {
            m1
        }
    } else {
        m
    }
}

/// What is scored from each stone in each direction: the move generator's
/// lines, gapped patterns and captures, or the move orderer's runs and
/// gapped patterns.
pub enum Scorer {
    Lines,
    Gaps,
    Captures,
    Runs,
    Patterns,
}

/// The stones scanned for `p`: the opponent's for captures, `p`'s otherwise.
pub open spec fn scanned(sc: Scorer, p: Player) -> Player {
    match sc {
        Scorer::Captures => p.other(),
        _ => p,
    }
}

/// One stone, one direction.
pub open spec fn dir_score(sc: Scorer, b: Board, r: int, c: int, k: int, p: Player, m: ScoreMap) -> ScoreMap {
    let d = crate::patterns::dir(k);
    match sc {
        Scorer::Lines => line_acc(b, r, c, d.0, d.1, p, m),
        Scorer::Gaps => gap_acc(b, r, c, d.0, d.1, p, m),
        Scorer::Captures => cap_acc(b, r, c, d.0, d.1, p, m),
        Scorer::Runs => crate::ai::move_ordering::run_acc(b, r, c, d.0, d.1, p, m),
        Scorer::Patterns => crate::ai::move_ordering::pattern_acc(b, r, c, d.0, d.1, p, m),
    }
}

/// Directions `k..4` of the stone at `(r, c)`.
pub open spec fn dirs_from(sc: Scorer, b: Board, r: int, c: int, p: Player, k: int, m: ScoreMap) -> ScoreMap
    decreases 4 - k,
{
    if k >= 4 {
        m
    } else {
        dirs_from(sc, b, r, c, p, k + 1, dir_score(sc, b, r, c, k, p, m))
    }
}

/// Columns `col..` of row `r`.
pub open spec fn cols_from(sc: Scorer, b: Board, p: Player, r: int, col: int, m: ScoreMap) -> ScoreMap
    decreases b.size - col,
{
    if col >= b.size {
        m
    } else {
        let m1 = if b.stone(r, col) == Some(scanned(sc, p)) {
            dirs_from(sc, b, r, col, p, 0, m)
        } else {
            m
        };
        cols_from(sc, b, p, r, col + 1, m1)
    }
}

/// Rows `row..` of the board.
pub open spec fn rows_from(sc: Scorer, b: Board, p: Player, row: int, m: ScoreMap) -> ScoreMap
    decreases b.size - row,
{
    if row >= b.size {
        m
    } else {
        rows_from(sc, b, p, row + 1, cols_from(sc, b, p, row, 0, m))
    }
}

/// `m` after the lines, gapped patterns and captures of `p` are scored.
pub open spec fn player_scores(b: Board, p: Player, m: ScoreMap) -> ScoreMap {
    let m1 = rows_from(Scorer::Lines, b, p, 0, m);
    let m2 = rows_from(Scorer::Gaps, b, p, 0, m1);
    rows_from(Scorer::Captures, b, p, 0, m2)
}

/// The threat scores for `player`: its lines, gapped patterns and captures,
/// then the opponent's, accumulated square by square.
pub open spec fn threat_scores(b: Board, player: Player) -> ScoreMap {
    player_scores(b, player.other(), player_scores(b, player, Map::empty()))
}

/// Some square has a threat score.
pub open spec fn has_threats(b: Board, player: Player) -> bool {
    exists|pos: (usize, usize)| #[trigger] threat_scores(b, player).contains_key(pos)
}

/// `mv` is within two rows and two columns of the stone at `(r, c)`.
pub open spec fn near_stone(b: Board, mv: (usize, usize), r: int, c: int) -> bool {
    &&& b.in_bounds(r, c)
    &&& b.stone(r, c) is Some
    &&& -2 <= mv.0 - r <= 2
    &&& -2 <= mv.1 - c <= 2
}

/// `mv` is an empty square within two rows and two columns of some stone.
pub open spec fn in_zone(b: Board, mv: (usize, usize)) -> bool {
    &&& crate::patterns::valid_empty(b, mv.0 as int, mv.1 as int)
    &&& exists|r: int, c: int| #[trigger] near_stone(b, mv, r, c)
}

/// Stone `(r, c)` comes before `(row, col)` in row-major order, or is
/// `(row, col)` with its offset to `mv` before `(dr, dc)`.
pub open spec fn zone_cond(mv: (usize, usize), r: int, c: int, row: int, col: int, dr: int, dc: int) -> bool {
    r < row || (r == row && (c < col || (c == col && (mv.0 - r < dr || (mv.0 - r == dr && mv.1 - c < dc)))))
}

/// Some stone near `mv` satisfies `zone_cond`.
pub open spec fn zone_before(b: Board, mv: (usize, usize), row: int, col: int, dr: int, dc: int) -> bool {
    exists|r: int, c: int| #[trigger] near_stone(b, mv, r, c) && zone_cond(mv, r, c, row, col, dr, dc)
}

/// Two prefixes that agree on every stone near `mv` agree on `mv`.
proof fn lemma_zone_same(
    b: Board,
    mv: (usize, usize),
    row1: int,
    col1: int,
    dr1: int,
    dc1: int,
    row2: int,
    col2: int,
    dr2: int,
    dc2: int,
)
    requires
        forall|r: int, c: int|
            #[trigger] near_stone(b, mv, r, c) ==> (zone_cond(mv, r, c, row1, col1, dr1, dc1) <==> zone_cond(
                mv,
                r,
                c,
                row2,
                col2,
                dr2,
                dc2,
            )),
    ensures
        zone_before(b, mv, row1, col1, dr1, dc1) == zone_before(b, mv, row2, col2, dr2, dc2),
{
    if zone_before(b, mv, row1, col1, dr1, dc1) {
        let (r, c) = choose|r: int, c: int| #[trigger] near_stone(b, mv, r, c) && zone_cond(mv, r, c, row1, col1, dr1, dc1);
        assert(near_stone(b, mv, r, c) && zone_cond(mv, r, c, row2, col2, dr2, dc2));
    }
    if zone_before(b, mv, row2, col2, dr2, dc2) {
        let (r, c) = choose|r: int, c: int| #[trigger] near_stone(b, mv, r, c) && zone_cond(mv, r, c, row2, col2, dr2, dc2);
        assert(near_stone(b, mv, r, c) && zone_cond(mv, r, c, row1, col1, dr1, dc1));
    }
}

/// One more offset of the stone at `(row, col)`.
proof fn lemma_zone_step(b: Board, mv: (usize, usize), row: int, col: int, dr: int, dc: int)
    ensures
        zone_before(b, mv, row, col, dr, dc + 1) == (zone_before(b, mv, row, col, dr, dc) || (near_stone(
            b,
            mv,
            row,
            col,
        ) && mv.0 - row == dr && mv.1 - col == dc)),
{
    if zone_before(b, mv, row, col, dr, dc + 1) {
        let (r, c) = choose|r: int, c: int| #[trigger] near_stone(b, mv, r, c) && zone_cond(mv, r, c, row, col, dr, dc + 1);
        if !(r == row && c == col && mv.0 - r == dr && mv.1 - c == dc) {
            assert(near_stone(b, mv, r, c) && zone_cond(mv, r, c, row, col, dr, dc));
        }
    }
    if zone_before(b, mv, row, col, dr, dc) {
        let (r, c) = choose|r: int, c: int| #[trigger] near_stone(b, mv, r, c) && zone_cond(mv, r, c, row, col, dr, dc);
        assert(near_stone(b, mv, r, c) && zone_cond(mv, r, c, row, col, dr, dc + 1));
    }
    if near_stone(b, mv, row, col) && mv.0 - row == dr && mv.1 - col == dc {
        assert(near_stone(b, mv, row, col) && zone_cond(mv, row, col, row, col, dr, dc + 1));
    }
}

/// The moves of `s` that are not double-threes for `p`, in order.
pub open spec fn not_double_three(b: Board, p: Player, s: Seq<(usize, usize)>) -> Seq<(usize, usize)>
    decreases s.len(),
{
    if s.len() == 0 {
        Seq::empty()
    } else {
        let rest = not_double_three(b, p, s.drop_last());
        if crate::rules::double_three::spec_double_three(b, s.last().0 as int, s.last().1 as int, p) {
            rest
        } else {
            rest.push(s.last())
        }
    }
}

/// The kept moves are the moves of `s` that are not double-threes.
pub proof fn lemma_not_double_three_contains(b: Board, p: Player, s: Seq<(usize, usize)>)
    ensures
        forall|x: (usize, usize)| #[trigger] not_double_three(b, p, s).contains(x) <==> s.contains(x)
            && !crate::rules::double_three::spec_double_three(b, x.0 as int, x.1 as int, p),
    decreases s.len(),
{
    if s.len() > 0 {
        let t = s.drop_last();
        lemma_not_double_three_contains(b, p, t);
        let rest = not_double_three(b, p, t);
        assert forall|x: (usize, usize)| #[trigger] not_double_three(b, p, s).contains(x) <==> s.contains(x)
            && !crate::rules::double_three::spec_double_three(b, x.0 as int, x.1 as int, p) by {
            if s.contains(x) {
                let k = choose|k: int| 0 <= k < s.len() && s[k] == x;
                if k < t.len() {
                    assert(t[k] == x);
                    assert(t.contains(x));
                }
            }
            if t.contains(x) {
                let k = choose|k: int| 0 <= k < t.len() && t[k] == x;
                assert(s[k] == x);
            }
            if !crate::rules::double_three::spec_double_three(b, s.last().0 as int, s.last().1 as int, p) {
                if rest.push(s.last()).contains(x) {
                    let k = choose|k: int| 0 <= k < rest.len() + 1 && rest.push(s.last())[k] == x;
                    if k < rest.len() {
                        assert(rest[k] == x);
                        assert(rest.contains(x));
                    }
                }
                if rest.contains(x) {
                    let k = choose|k: int| 0 <= k < rest.len() && rest[k] == x;
                    assert(rest.push(s.last())[k] == x);
                }
                if x == s.last() {
                    assert(rest.push(s.last())[rest.len() as int] == x);
                }
            }
        }
    }
}

/// Keeping some moves of a list sorted by decreasing score keeps it sorted.
pub proof fn lemma_not_double_three_sorted(b: Board, p: Player, s: Seq<(usize, usize)>, scores: ScoreMap)
    requires
        forall|i: int, j: int| 0 <= i < j < s.len() ==> scores[#[trigger] s[i]] >= scores[#[trigger] s[j]],
    ensures
        ({
            let kept = not_double_three(b, p, s);
            forall|i: int, j: int| 0 <= i < j < kept.len() ==> scores[#[trigger] kept[i]] >= scores[#[trigger] kept[j]]
        }),
    decreases s.len(),
{
    if s.len() > 0 {
        let t = s.drop_last();
        assert forall|i: int, j: int| 0 <= i < j < t.len() implies scores[#[trigger] t[i]] >= scores[#[trigger] t[j]] by {
            assert(t[i] == s[i] && t[j] == s[j]);
        }
        lemma_not_double_three_sorted(b, p, t, scores);
        lemma_not_double_three_contains(b, p, t);
        let rest = not_double_three(b, p, t);
        if !crate::rules::double_three::spec_double_three(b, s.last().0 as int, s.last().1 as int, p) {
            let kept = rest.push(s.last());
            assert forall|i: int, j: int| 0 <= i < j < kept.len() implies scores[#[trigger] kept[i]] >= scores[#[trigger] kept[j]] by {
                assert(kept[i] == rest[i]);
                if j == rest.len() {
                    assert(rest.contains(rest[i]));
                    assert(t.contains(rest[i]));
                    let k = choose|k: int| 0 <= k < t.len() && t[k] == rest[i];
                    assert(s[k] == rest[i]);
                    assert(s[s.len() - 1] == s.last());
                } else {
                    assert(kept[j] == rest[j]);
                }
            }
        }
    }
}

/// The squares the move generator draws from: the scored threat squares, or
/// the squares near the stones when none is scored.
pub open spec fn candidate_pool(b: Board, player: Player, mv: (usize, usize)) -> bool {
    if has_threats(b, player) {
        threat_scores(b, player).contains_key(mv)
    } else {
        in_zone(b, mv)
    }
}

/// Some square of the pool is legal for `player`.
pub open spec fn pool_has_legal(b: Board, player: Player) -> bool {
    exists|mv: (usize, usize)| #[trigger] candidate_pool(b, player, mv) && legal_for(b, player, mv)
}

/// Adding a score only ever adds keys.
pub proof fn lemma_offsets_grow(
    b: Board,
    r: int,
    c: int,
    dx: int,
    dy: int,
    score: i32,
    i: int,
    hi: int,
    m: ScoreMap,
)
    ensures
        m.dom().subset_of(offsets_acc(b, r, c, dx, dy, score, i, hi, m).dom()),
        forall|t: int|
            i <= t <= hi && crate::patterns::valid_empty(
                b,
                crate::patterns::step(r, dx, t),
                crate::patterns::step(c, dy, t),
            ) ==> #[trigger] offsets_acc(b, r, c, dx, dy, score, i, hi, m).dom().contains(
                (crate::patterns::step(r, dx, t) as usize, crate::patterns::step(c, dy, t) as usize),
            ),
    decreases hi + 1 - i,
{
    if i <= hi {
        let rr = crate::patterns::step(r, dx, i);
        let cc = crate::patterns::step(c, dy, i);
        let m1 = if crate::patterns::valid_empty(b, rr, cc) {
            acc(m, (rr as usize, cc as usize), score)
        } else {
            m
        };
        lemma_offsets_grow(b, r, c, dx, dy, score, i + 1, hi, m1);
    }
}

/// Adding scores to listed squares only ever adds keys.
pub proof fn lemma_cells_grow(sq: Seq<(usize, usize)>, score: i32, i: int, m: ScoreMap)
    ensures
        m.dom().subset_of(cells_acc(sq, score, i, m).dom()),
    decreases sq.len() - i,
{
    if i < sq.len() {
        lemma_cells_grow(sq, score, i + 1, acc(m, sq[i], score));
    }
}

/// One stone and direction only ever adds keys, whatever is scored.
pub proof fn lemma_dir_score_grow(sc: Scorer, b: Board, r: int, c: int, k: int, p: Player, m: ScoreMap)
    ensures
        m.dom().subset_of(dir_score(sc, b, r, c, k, p, m).dom()),
{
    let d = crate::patterns::dir(k);
    match sc {
        Scorer::Lines => {
            let back = crate::patterns::run_len(b, r, c, -d.0, -d.1, p);
            let fwd = crate::patterns::run_len(b, r, c, d.0, d.1, p);
            let total = back + fwd + 1;
            let sr = crate::patterns::step(r, d.0, -back);
            let sc2 = crate::patterns::step(c, d.1, -back);
            let score = crate::ai::heuristic::spec_consecutive_score(
                total,
                crate::patterns::spec_freedom(b, sr, sc2, d.0, d.1, total),
            );
            lemma_offsets_grow(b, r, c, d.0, d.1, score, -(back + 1), fwd + 1, m);
        },
        Scorer::Gaps => {
            let stones = stones_around(b, r, c, d.0, d.1, p);
            if stones.len() >= 2 {
                let gaps = gaps_of(b, stones, d.0, d.1);
                lemma_cells_grow(
                    gaps,
                    crate::ai::heuristic::spec_gapped_score(stones.len() as int, gaps.len() as int),
                    0,
                    m,
                );
            }
        },
        Scorer::Captures => {},
        Scorer::Runs => {
            crate::ai::move_ordering::lemma_run_acc_grow(b, r, c, d.0, d.1, p, m);
        },
        Scorer::Patterns => {
            let stones = stones_around(b, r, c, d.0, d.1, p);
            if stones.len() >= 2 {
                match crate::patterns::spec_gapped_pattern(stones) {
                    Some(g) => {
                        lemma_cells_grow(
                            gaps_of(b, stones, d.0, d.1),
                            crate::ai::heuristic::spec_gapped_score(g.0 as int, g.1 as int),
                            0,
                            m,
                        );
                    },
                    None => {},
                }
            }
        },
    }
}

/// Scoring direction `k` of the stone at `(r, c)` adds the key `x`, whatever
/// was scored before.
pub open spec fn adds_key(sc: Scorer, b: Board, r: int, c: int, k: int, p: Player, x: (usize, usize)) -> bool {
    forall|m: ScoreMap| #[trigger] dir_score(sc, b, r, c, k, p, m).dom().contains(x)
}

/// Directions `k..4` keep every key and add those that some of them add.
pub proof fn lemma_dirs_from_keys(sc: Scorer, b: Board, r: int, c: int, p: Player, k: int, m: ScoreMap)
    ensures
        m.dom().subset_of(dirs_from(sc, b, r, c, p, k, m).dom()),
        forall|k0: int, x: (usize, usize)|
            k <= k0 < 4 && #[trigger] adds_key(sc, b, r, c, k0, p, x) ==> dirs_from(sc, b, r, c, p, k, m).dom().contains(
                x,
            ),
    decreases 4 - k,
{
    if k < 4 {
        let m1 = dir_score(sc, b, r, c, k, p, m);
        lemma_dir_score_grow(sc, b, r, c, k, p, m);
        lemma_dirs_from_keys(sc, b, r, c, p, k + 1, m1);
        assert forall|k0: int, x: (usize, usize)|
            k <= k0 < 4 && #[trigger] adds_key(sc, b, r, c, k0, p, x) implies dirs_from(
            sc,
            b,
            r,
            c,
            p,
            k,
            m,
        ).dom().contains(x) by {
            if k0 == k {
                assert(m1.dom().contains(x));
            }
        }
    }
}

/// Columns `col..` of row `r` keep every key and add those that a scanned
/// stone among them adds.
pub proof fn lemma_cols_from_keys(sc: Scorer, b: Board, p: Player, r: int, col: int, m: ScoreMap)
    ensures
        m.dom().subset_of(cols_from(sc, b, p, r, col, m).dom()),
        forall|c0: int, k0: int, x: (usize, usize)|
            col <= c0 < b.size && b.stone(r, c0) == Some(scanned(sc, p)) && 0 <= k0 < 4
                && #[trigger] adds_key(sc, b, r, c0, k0, p, x) ==> cols_from(sc, b, p, r, col, m).dom().contains(
                x,
            ),
    decreases b.size - col,
{
    if col < b.size {
        let m1 = if b.stone(r, col) == Some(scanned(sc, p)) {
            dirs_from(sc, b, r, col, p, 0, m)
        } else {
            m
        };
        lemma_dirs_from_keys(sc, b, r, col, p, 0, m);
        lemma_cols_from_keys(sc, b, p, r, col + 1, m1);
        assert forall|c0: int, k0: int, x: (usize, usize)|
            col <= c0 < b.size && b.stone(r, c0) == Some(scanned(sc, p)) && 0 <= k0 < 4
                && #[trigger] adds_key(sc, b, r, c0, k0, p, x) implies cols_from(sc, b, p, r, col, m).dom().contains(
            x,
        ) by {
            if c0 == col {
                assert(m1.dom().contains(x));
            }
        }
    }
}

/// Rows `row..` keep every key and add those that a scanned stone among them adds.
pub proof fn lemma_rows_from_keys(sc: Scorer, b: Board, p: Player, row: int, m: ScoreMap)
    ensures
        m.dom().subset_of(rows_from(sc, b, p, row, m).dom()),
        forall|r0: int, c0: int, k0: int, x: (usize, usize)|
            row <= r0 < b.size && 0 <= c0 < b.size && b.stone(r0, c0) == Some(scanned(sc, p)) && 0 <= k0
                < 4 && #[trigger] adds_key(sc, b, r0, c0, k0, p, x) ==> rows_from(sc, b, p, row, m).dom().contains(
                x,
            ),
    decreases b.size - row,
{
    if row < b.size {
        let m1 = cols_from(sc, b, p, row, 0, m);
        lemma_cols_from_keys(sc, b, p, row, 0, m);
        lemma_rows_from_keys(sc, b, p, row + 1, m1);
        assert forall|r0: int, c0: int, k0: int, x: (usize, usize)|
            row <= r0 < b.size && 0 <= c0 < b.size && b.stone(r0, c0) == Some(scanned(sc, p)) && 0 <= k0 < 4
                && #[trigger] adds_key(sc, b, r0, c0, k0, p, x) implies rows_from(sc, b, p, row, m).dom().contains(
            x,
        ) by {
            if r0 == row {
                assert(m1.dom().contains(x));
            }
        }
    }
}

/// A capture found among the first `j` directions comes from one of them.
proof fn lemma_capture_dir_of(b: Board, r: int, c: int, p: Player, j: int)
    requires
        0 <= j <= 8,
        crate::captures::capture_seq(b, r, c, p, j).len() > 0,
    ensures
        exists|i: int|
            0 <= i < j && #[trigger] crate::captures::flanks_pair(
                b,
                r,
                c,
                crate::captures::capture_dir(i).0,
                crate::captures::capture_dir(i).1,
                p,
            ),
    decreases j,
{
    let d = crate::captures::capture_dir(j - 1);
    if !crate::captures::flanks_pair(b, r, c, d.0, d.1, p) {
        lemma_capture_dir_of(b, r, c, p, j - 1);
    }
}

/// The scan of `m` for `p`'s lines, gapped patterns and captures keeps its keys.
proof fn lemma_player_scores_grow(b: Board, p: Player, m: ScoreMap)
    ensures
        m.dom().subset_of(player_scores(b, p, m).dom()),
{
    let m1 = rows_from(Scorer::Lines, b, p, 0, m);
    let m2 = rows_from(Scorer::Gaps, b, p, 0, m1);
    lemma_rows_from_keys(Scorer::Lines, b, p, 0, m);
    lemma_rows_from_keys(Scorer::Gaps, b, p, 0, m1);
    lemma_rows_from_keys(Scorer::Captures, b, p, 0, m2);
}

/// `P` to play at `(r, c)` with the pair ahead: scanning the pair's first
/// stone scores `(r, c)`.
#[verifier::spinoff_prover]
proof fn lemma_cap_acc_before(b: Board, p: Player, r: int, c: int, dx: int, dy: int, m: ScoreMap)
    requires
        crate::patterns::valid_empty(b, r, c),
        b.stone(r + dx, c + dy) == Some(p.other()),
        b.stone(r + 2 * dx, c + 2 * dy) == Some(p.other()),
        b.stone(r + 3 * dx, c + 3 * dy) == Some(p),
    ensures
        cap_acc(b, r + dx, c + dy, dx, dy, p, m).dom().contains((r as usize, c as usize)),
{
    assert(b.in_bounds(r + 2 * dx, c + 2 * dy));
    assert(b.in_bounds(r + 3 * dx, c + 3 * dy));
    assert((r + dx) - dx == r && (c + dy) - dy == c);
    assert((r + dx) + dx == r + 2 * dx && (c + dy) + dy == c + 2 * dy);
    assert((r + 2 * dx) + dx == r + 3 * dx && (c + 2 * dy) + dy == c + 3 * dy);
}

/// `P` to play at `(r, c)` with the pair behind along `(dx, dy)`: scanning
/// the pair's far stone scores `(r, c)`.
#[verifier::spinoff_prover]
proof fn lemma_cap_acc_after(b: Board, p: Player, r: int, c: int, dx: int, dy: int, m: ScoreMap)
    requires
        crate::patterns::valid_empty(b, r, c),
        b.stone(r - dx, c - dy) == Some(p.other()),
        b.stone(r - 2 * dx, c - 2 * dy) == Some(p.other()),
        b.stone(r - 3 * dx, c - 3 * dy) == Some(p),
    ensures
        cap_acc(b, r - 2 * dx, c - 2 * dy, dx, dy, p, m).dom().contains((r as usize, c as usize)),
{
    assert(b.in_bounds(r - dx, c - dy));
    assert(b.in_bounds(r - 3 * dx, c - 3 * dy));
    assert((r - 2 * dx) + dx == r - dx && (c - 2 * dy) + dy == c - dy);
    assert((r - 2 * dx) - dx == r - 3 * dx && (c - 2 * dy) - dy == c - 3 * dy);
    assert((r - dx) + dx == r && (c - dy) + dy == c);
}

/// The capture direction of a capturing square gives an opponent stone and a
/// direction whose capture scoring adds that square.
#[verifier::spinoff_prover]
#[verifier::rlimit(60)]
proof fn lemma_capture_adds_key(b: Board, player: Player, mv: (usize, usize)) -> (w: (int, int, int))
    requires
        b.wf(),
        crate::patterns::valid_empty(b, mv.0 as int, mv.1 as int),
        crate::captures::spec_captures(b, mv.0 as int, mv.1 as int, player).len() > 0,
    ensures
        b.in_bounds(w.0, w.1),
        b.stone(w.0, w.1) == Some(player.other()),
        0 <= w.2 < 4,
        adds_key(Scorer::Captures, b, w.0, w.1, w.2, player, mv),
{
    let r = mv.0 as int;
    let c = mv.1 as int;
    lemma_capture_dir_of(b, r, c, player, 8);
    let j = choose|i: int|
        0 <= i < 8 && #[trigger] crate::captures::flanks_pair(
            b,
            r,
            c,
            crate::captures::capture_dir(i).0,
            crate::captures::capture_dir(i).1,
            player,
        );
    let k0 = j / 2;
    let d = crate::patterns::dir(k0);
    let (r0, c0) = if j % 2 == 0 {
        (r + d.0, c + d.1)
    } else {
        (r - 2 * d.0, c - 2 * d.1)
    };
    assert(b.stone(r0, c0) == Some(player.other()));
    assert forall|m: ScoreMap| #[trigger] dir_score(Scorer::Captures, b, r0, c0, k0, player, m).dom().contains(mv) by {
        assert(dir_score(Scorer::Captures, b, r0, c0, k0, player, m) == cap_acc(b, r0, c0, d.0, d.1, player, m));
        if j % 2 == 0 {
            lemma_cap_acc_before(b, player, r, c, d.0, d.1, m);
        } else {
            lemma_cap_acc_after(b, player, r, c, d.0, d.1, m);
        }
    }
    (r0, c0, k0)
}

/// An empty square where `player`'s stone would capture a pair is scored
/// among `player`'s threats, so it is in the move generator's pool, and it
/// is legal (a capture is never a forbidden double-three).
pub proof fn lemma_capture_square_scored(b: Board, player: Player, mv: (usize, usize))
    requires
        b.wf(),
        crate::patterns::valid_empty(b, mv.0 as int, mv.1 as int),
        crate::captures::spec_captures(b, mv.0 as int, mv.1 as int, player).len() > 0,
    ensures
        threat_scores(b, player).contains_key(mv),
        has_threats(b, player),
        candidate_pool(b, player, mv),
        legal_for(b, player, mv),
        pool_has_legal(b, player),
        !b.all_empty(),
{
    let w = lemma_capture_adds_key(b, player, mv);
    let m1 = rows_from(Scorer::Lines, b, player, 0, Map::empty());
    let m2 = rows_from(Scorer::Gaps, b, player, 0, m1);
    lemma_rows_from_keys(Scorer::Captures, b, player, 0, m2);
    let inner = player_scores(b, player, Map::empty());
    assert(inner.dom().contains(mv));
    lemma_player_scores_grow(b, player.other(), inner);
    assert(threat_scores(b, player).contains_key(mv));
    assert(candidate_pool(b, player, mv) && legal_for(b, player, mv));
    b.lemma_cell_index(w.0, w.1);
    b.lemma_stone_occ(w.0, w.1);
    assert(b.occ_at(b.idx(w.0, w.1)));
}

pub struct MoveGenerator;

impl MoveGenerator {
    /// Candidate moves for `player`: the centre on an empty board; otherwise
    /// the scored threat squares that are not double-threes, best first; or,
    /// when there is none, the first legal square in row-major order.
    pub fn get_candidate_moves(board: &Board, player: Player) -> (moves: Vec<(usize, usize)>)
        requires
            board.wf(),
        ensures
            board.all_empty() ==> moves@ == seq![((board.size / 2) as usize, (board.size / 2) as usize)],
            !board.all_empty() ==> moves_ok(*board, moves@),
            !board.all_empty() ==> forall|i: int|
                0 <= i < moves@.len() ==> legal_for(*board, player, #[trigger] moves@[i]),
            !board.all_empty() ==> (moves@.len() == 0 <==> !has_legal_move(*board, player)),
            !board.all_empty() && pool_has_legal(*board, player) ==> forall|mv: (usize, usize)|
                #[trigger] moves@.contains(mv) <==> candidate_pool(*board, player, mv) && legal_for(
                    *board,
                    player,
                    mv,
                ),
            !board.all_empty() && pool_has_legal(*board, player) && has_threats(*board, player) ==> forall|
                i: int,
                j: int,
            |
                0 <= i < j < moves@.len() ==> threat_scores(*board, player)[#[trigger] moves@[i]] >= threat_scores(
                    *board,
                    player,
                )[#[trigger] moves@[j]],
            !board.all_empty() && !pool_has_legal(*board, player) ==> moves@.len() <= 1,
            forall|mv: (usize, usize)|
                crate::patterns::valid_empty(*board, mv.0 as int, mv.1 as int) && crate::captures::spec_captures(
                    *board,
                    mv.0 as int,
                    mv.1 as int,
                    player,
                ).len() > 0 ==> #[trigger] moves@.contains(mv),
            !board.all_empty() && !pool_has_legal(*board, player) && moves@.len() == 1 ==> forall|r: int, c: int|
                board.in_bounds(r, c) && Board::before((r as usize, c as usize), moves@[0])
                    ==> !#[trigger] legal_for(*board, player, (r as usize, c as usize)),
    {
        proof {
            board.lemma_wf_facts();
        }
        proof {
            assert forall|mv: (usize, usize)|
                #![trigger crate::captures::spec_captures(*board, mv.0 as int, mv.1 as int, player)]
                crate::patterns::valid_empty(*board, mv.0 as int, mv.1 as int) && crate::captures::spec_captures(
                    *board,
                    mv.0 as int,
                    mv.1 as int,
                    player,
                ).len() > 0 implies !board.all_empty() && pool_has_legal(*board, player) && candidate_pool(
                *board,
                player,
                mv,
            ) && legal_for(*board, player, mv) by {
                lemma_capture_square_scored(*board, player, mv);
            }
        }
        if board.is_empty() {
            let c = board.center();
            return vec![c];
        }
        let threat_moves = Self::find_all_threat_moves(board, player);
        let ghost pool = threat_moves@;
        proof {
            lemma_not_double_three_contains(*board, player, pool);
            if has_threats(*board, player) {
                lemma_not_double_three_sorted(*board, player, pool, threat_scores(*board, player));
            }
            assert forall|mv: (usize, usize)| #[trigger] not_double_three(*board, player, pool).contains(mv)
                <==> candidate_pool(*board, player, mv) && legal_for(*board, player, mv) by {
                if pool.contains(mv) {
                    let k = choose|k: int| 0 <= k < pool.len() && pool[k] == mv;
                    assert(crate::patterns::valid_empty(*board, pool[k].0 as int, pool[k].1 as int));
                }
            }
        }
        if threat_moves.len() > 0 {
            let legal_threats = Self::filter_double_three_moves(board, threat_moves, player);
            if legal_threats.len() > 0 {
                proof {
                    let m = legal_threats@[0];
                    assert(legal_for(*board, player, m));
                    assert(board.in_bounds(m.0 as int, m.1 as int));
                    assert(legal_for(*board, player, ((m.0 as int) as usize, (m.1 as int) as usize)));
                    assert(legal_threats@.contains(m));
                    assert(candidate_pool(*board, player, m) && legal_for(*board, player, m));
                }
                return legal_threats;
            }
            proof {
                assert forall|mv: (usize, usize)| !(#[trigger] candidate_pool(*board, player, mv) && legal_for(
                    *board,
                    player,
                    mv,
                )) by {
                    if candidate_pool(*board, player, mv) && legal_for(*board, player, mv) {
                        assert(legal_threats@.contains(mv));
                    }
                }
            }
        } else {
            proof {
                assert forall|mv: (usize, usize)| !(#[trigger] candidate_pool(*board, player, mv) && legal_for(
                    *board,
                    player,
                    mv,
                )) by {
                    if candidate_pool(*board, player, mv) && legal_for(*board, player, mv) {
                        assert(not_double_three(*board, player, pool).contains(mv));
                        assert(pool.contains(mv));
                    }
                }
            }
        }
        Self::find_any_legal_move(board, player)
    }

    /// All scored threat squares (both players' lines and captures), best
    /// score first; the squares around the stones when none is scored.
    fn find_all_threat_moves(board: &Board, player: Player) -> (moves: Vec<(usize, usize)>)
        requires
            board.wf(),
        ensures
            moves_ok(*board, moves@),
            has_threats(*board, player) ==> forall|mv: (usize, usize)| #[trigger] moves@.contains(mv)
                <==> threat_scores(*board, player).contains_key(mv),
            has_threats(*board, player) ==> forall|i: int, j: int|
                0 <= i < j < moves@.len() ==> threat_scores(*board, player)[#[trigger] moves@[i]] >= threat_scores(
                    *board,
                    player,
                )[#[trigger] moves@[j]],
            !has_threats(*board, player) ==> forall|mv: (usize, usize)| #[trigger] moves@.contains(mv)
                <==> in_zone(*board, mv),
    {
        proof {
            board.lemma_wf_facts();
        }
        let mut move_scores: Vec<((usize, usize), i32)> = Vec::new();
        let mut t: usize = 0;
        while t < 2
            invariant
                board.wf(),
                8 * board.size < isize::MAX,
                t <= 2,
                scores_ok(*board, move_scores@),
                score_view(move_scores@) == if t == 0 {
                    Map::empty()
                } else if t == 1 {
                    player_scores(*board, player, Map::empty())
                } else {
                    threat_scores(*board, player)
                },
            decreases 2 - t,
        {
            let check_player = if t == 0 {
                player
            } else {
                player.opponent()
            };
            Self::collect_consecutive_threats(board, check_player, &mut move_scores);
            Self::collect_gapped_threats(board, check_player, &mut move_scores);
            Self::collect_capture_moves(board, check_player, &mut move_scores);
            t = t + 1;
        }
        proof {
            lemma_score_view(move_scores@);
        }
        let ghost scores = threat_scores(*board, player);
        if move_scores.len() == 0 {
            proof {
                assert forall|pos: (usize, usize)| !#[trigger] scores.contains_key(pos) by {}
            }
            return Self::get_zone_based_moves(board, player);
        }
        proof {
            assert(scores.contains_key(move_scores@[0].0));
        }
        Self::ranked_squares(board, move_scores)
    }

    /// The scored squares, best score first.
    pub(crate) fn ranked_squares(board: &Board, move_scores: Vec<((usize, usize), i32)>) -> (moves: Vec<
        (usize, usize),
    >)
        requires
            scores_ok(*board, move_scores@),
        ensures
            moves_ok(*board, moves@),
            forall|mv: (usize, usize)| #[trigger] moves@.contains(mv) <==> score_view(move_scores@).contains_key(mv),
            forall|i: int, j: int|
                0 <= i < j < moves@.len() ==> score_view(move_scores@)[#[trigger] moves@[i]] >= score_view(
                    move_scores@,
                )[#[trigger] moves@[j]],
    {
        proof {
            lemma_score_view(move_scores@);
        }
        let ghost scores = score_view(move_scores@);
        let ghost unsorted = move_scores@;
        let sorted = Self::sort_by_score(move_scores);
        let mut moves: Vec<(usize, usize)> = Vec::new();
        let mut i: usize = 0;
        while i < sorted.len()
            invariant
                i <= sorted@.len(),
                scores_ok(*board, sorted@),
                moves@.len() == i,
                forall|k: int| 0 <= k < i ==> #[trigger] moves@[k] == sorted@[k].0,
            decreases sorted@.len() - i,
        {
            moves.push(sorted[i].0);
            i = i + 1;
        }
        proof {
            assert forall|a: int, b: int| 0 <= a < b < moves@.len() implies #[trigger] moves@[a]
                != #[trigger] moves@[b] by {
                assert(sorted@[a].0 != sorted@[b].0);
            }
            assert forall|a: int| 0 <= a < moves@.len() implies crate::patterns::valid_empty(
                *board,
                (#[trigger] moves@[a]).0 as int,
                moves@[a].1 as int,
            ) by {
                assert(moves@[a] == sorted@[a].0);
            }
            assert forall|a: int| #![trigger sorted@[a]] 0 <= a < sorted@.len() implies scores[sorted@[a].0] == sorted@[a].1
                && scores.contains_key(sorted@[a].0) by {
                assert(sorted@.contains(sorted@[a]));
                assert(unsorted.contains(sorted@[a]));
                let k = choose|k: int| 0 <= k < unsorted.len() && unsorted[k] == sorted@[a];
                assert(score_view(unsorted)[unsorted[k].0] == unsorted[k].1);
            }
            assert forall|mv: (usize, usize)| #[trigger] moves@.contains(mv) <==> scores.contains_key(mv) by {
                if moves@.contains(mv) {
                    let a = choose|a: int| 0 <= a < moves@.len() && moves@[a] == mv;
                    assert(moves@[a] == sorted@[a].0);
                    assert(scores.contains_key(sorted@[a].0));
                }
                if scores.contains_key(mv) {
                    let k = choose|k: int| 0 <= k < unsorted.len() && unsorted[k].0 == mv;
                    assert(unsorted.contains(unsorted[k]));
                    assert(sorted@.contains(unsorted[k]));
                    let a = choose|a: int| 0 <= a < sorted@.len() && sorted@[a] == unsorted[k];
                    assert(moves@[a] == mv);
                }
            }
            assert forall|a: int, b: int| 0 <= a < b < moves@.len() implies scores[#[trigger] moves@[a]]
                >= scores[#[trigger] moves@[b]] by {
                assert(moves@[a] == sorted@[a].0);
                assert(moves@[b] == sorted@[b].0);
                assert(scores[sorted@[a].0] == sorted@[a].1);
                assert(scores[sorted@[b].0] == sorted@[b].1);
                assert(sorted@[a].1 >= sorted@[b].1);
            }
        }
        moves
    }

    /// Adds `score` to the entry of `pos`, creating it at 0 first.
    pub(crate) fn add_score(board: &Board, move_scores: &mut Vec<((usize, usize), i32)>, pos: (usize, usize), score: i32)
        requires
            scores_ok(*board, old(move_scores)@),
            crate::patterns::valid_empty(*board, pos.0 as int, pos.1 as int),
        ensures
            scores_ok(*board, final(move_scores)@),
            score_view(final(move_scores)@) == acc(score_view(old(move_scores)@), pos, score),
    {
        proof {
            lemma_score_view(old(move_scores)@);
        }
        let mut i: usize = 0;
        while i < move_scores.len()
            invariant
                i <= move_scores@.len(),
                move_scores@ == old(move_scores)@,
                scores_ok(*board, old(move_scores)@),
                forall|k: int| 0 <= k < i ==> (#[trigger] move_scores@[k]).0 != pos,
            decreases move_scores@.len() - i,
        {
            let (p, s) = move_scores[i];
            if p.0 == pos.0 && p.1 == pos.1 {
                let ghost before = move_scores@;
                move_scores.set(i, (p, s.wrapping_add(score)));
                proof {
                    lemma_score_view(before);
                    lemma_score_view_update(before, i as int, s.wrapping_add(score));
                    assert(before[i as int].0 == pos);
                    assert(score_view(before)[before[i as int].0] == before[i as int].1);
                    assert forall|a: int, b: int| 0 <= a < b < move_scores@.len() implies (
                    #[trigger] move_scores@[a]).0 != (#[trigger] move_scores@[b]).0 by {
                        assert(move_scores@[a].0 == before[a].0);
                        assert(move_scores@[b].0 == before[b].0);
                    }
                    assert forall|a: int| 0 <= a < move_scores@.len() implies crate::patterns::valid_empty(
                        *board,
                        (#[trigger] move_scores@[a]).0.0 as int,
                        move_scores@[a].0.1 as int,
                    ) by {
                        assert(move_scores@[a].0 == before[a].0);
                    }
                }
                return;
            }
            i = i + 1;
        }
        let ghost before = move_scores@;
        move_scores.push((pos, score));
        proof {
            assert(move_scores@.drop_last() =~= before);
            assert(!score_view(before).contains_key(pos));
            assert forall|a: int, b: int| 0 <= a < b < move_scores@.len() implies (
            #[trigger] move_scores@[a]).0 != (#[trigger] move_scores@[b]).0 by {
                if b == before.len() {
                    assert(before[a].0 != pos);
                }
            }
        }
    }

    /// Every stone of `player` scores its line in each direction (length two
    /// to four, room for five) onto the empty squares of the line and one
    /// past each end.
    fn collect_consecutive_threats(board: &Board, player: Player, move_scores: &mut Vec<((usize, usize), i32)>)
        requires
            board.wf(),
            scores_ok(*board, old(move_scores)@),
        ensures
            scores_ok(*board, final(move_scores)@),
            score_view(final(move_scores)@) == rows_from(
                Scorer::Lines,
                *board,
                player,
                0,
                score_view(old(move_scores)@),
            ),
    {
        proof {
            board.lemma_wf_facts();
        }
        let player_bits = board.get_player_bits(player);
        let size = board.size;
        let mut row: usize = 0;
        while row < size
            invariant
                board.wf(),
                size == board.size,
                8 * board.size < isize::MAX,
                16 * board.size <= usize::MAX,
                player_bits@ == board.bits_of(player),
                row <= size,
                scores_ok(*board, move_scores@),
                rows_from(Scorer::Lines, *board, player, row as int, score_view(move_scores@)) == rows_from(
                    Scorer::Lines,
                    *board,
                    player,
                    0,
                    score_view(old(move_scores)@),
                ),
            decreases size - row,
        {
            let mut col: usize = 0;
            while col < size
                invariant
                    board.wf(),
                    size == board.size,
                    8 * board.size < isize::MAX,
                    16 * board.size <= usize::MAX,
                    player_bits@ == board.bits_of(player),
                    row < size,
                    col <= size,
                    scores_ok(*board, move_scores@),
                    rows_from(
                        Scorer::Lines,
                        *board,
                        player,
                        row + 1,
                        cols_from(Scorer::Lines, *board, player, row as int, col as int, score_view(move_scores@)),
                    ) == rows_from(Scorer::Lines, *board, player, 0, score_view(old(move_scores)@)),
                decreases size - col,
            {
                proof {
                    board.lemma_cell_index(row as int, col as int);
                    board.lemma_stone_occ(row as int, col as int);
                }
                let idx = board.index(row, col);
                if Board::is_bit_set(player_bits.as_slice(), idx) {
                    assert(board.stone(row as int, col as int) == Some(player));
                    let mut k: usize = 0;
                    while k < 4
                        invariant
                            board.wf(),
                            size == board.size,
                            8 * board.size < isize::MAX,
                            16 * board.size <= usize::MAX,
                            row < size,
                            col < size,
                            k <= 4,
                            scores_ok(*board, move_scores@),
                            rows_from(
                                Scorer::Lines,
                                *board,
                                player,
                                row + 1,
                                cols_from(
                                    Scorer::Lines,
                                    *board,
                                    player,
                                    row as int,
                                    col + 1,
                                    dirs_from(
                                        Scorer::Lines,
                                        *board,
                                        row as int,
                                        col as int,
                                        player,
                                        k as int,
                                        score_view(move_scores@),
                                    ),
                                ),
                            ) == rows_from(Scorer::Lines, *board, player, 0, score_view(old(move_scores)@)),
                        decreases 4 - k,
                    {
                        let (dx, dy) = DIRECTIONS[k];
                        assert(dx == crate::patterns::dir(k as int).0 && dy == crate::patterns::dir(
                            k as int,
                        ).1);
                        Self::score_line(board, row, col, dx, dy, player, move_scores);
                        k = k + 1;
                    }
                } else {
                    assert(board.stone(row as int, col as int) != Some(player));
                }
                col = col + 1;
            }
            row = row + 1;
        }
    }

    /// The line of `player` through `(row, col)` along `(dx, dy)`.
    fn score_line(
        board: &Board,
        row: usize,
        col: usize,
        dx: isize,
        dy: isize,
        player: Player,
        move_scores: &mut Vec<((usize, usize), i32)>,
    )
        requires
            board.wf(),
            8 * board.size < isize::MAX,
            16 * board.size <= usize::MAX,
            row < board.size,
            col < board.size,
            crate::patterns::unit_dir(dx as int, dy as int),
            scores_ok(*board, old(move_scores)@),
        ensures
            scores_ok(*board, final(move_scores)@),
            score_view(final(move_scores)@) == line_acc(
                *board,
                row as int,
                col as int,
                dx as int,
                dy as int,
                player,
                score_view(old(move_scores)@),
            ),
    {
        let backward = PatternAnalyzer::count_consecutive(board, row, col, -dx, -dy, player);
        let forward = PatternAnalyzer::count_consecutive(board, row, col, dx, dy, player);
        let total = backward + forward + 1;
        if total >= 2 && total <= 4 {
            proof {
                crate::patterns::lemma_unit_mul(dx as int, backward as int);
                crate::patterns::lemma_unit_mul(dy as int, backward as int);
            }
            let pattern_start_row = row as isize - dx * (backward as isize);
            let pattern_start_col = col as isize - dy * (backward as isize);
            if pattern_start_row >= 0 && pattern_start_col >= 0 {
                let total_space = PatternAnalyzer::count_total_space(
                    board,
                    pattern_start_row as usize,
                    pattern_start_col as usize,
                    dx,
                    dy,
                    total,
                );
                if total_space >= 5 {
                    let freedom = PatternAnalyzer::analyze_pattern_freedom(
                        board,
                        pattern_start_row as usize,
                        pattern_start_col as usize,
                        dx,
                        dy,
                        total,
                    );
                    let score = score_consecutive_pattern(total, freedom);
                    proof {
                        assert(pattern_start_row as int == crate::patterns::step(row as int, dx as int, -(backward as int)));
                        assert(pattern_start_col as int == crate::patterns::step(col as int, dy as int, -(backward as int)));
                    }
                    let lo: isize = -(backward as isize + 1);
                    let hi: isize = forward as isize + 1;
                    let mut offset: isize = lo;
                    while offset <= hi
                        invariant
                            board.wf(),
                            8 * board.size < isize::MAX,
                            row < board.size,
                            col < board.size,
                            crate::patterns::unit_dir(dx as int, dy as int),
                            lo <= offset <= hi + 1,
                            -(board.size as int) - 1 <= lo,
                            hi <= board.size + 1,
                            scores_ok(*board, move_scores@),
                            offsets_acc(
                                *board,
                                row as int,
                                col as int,
                                dx as int,
                                dy as int,
                                score,
                                offset as int,
                                hi as int,
                                score_view(move_scores@),
                            ) == offsets_acc(
                                *board,
                                row as int,
                                col as int,
                                dx as int,
                                dy as int,
                                score,
                                lo as int,
                                hi as int,
                                score_view(old(move_scores)@),
                            ),
                        decreases hi + 1 - offset,
                    {
                        proof {
                            crate::patterns::lemma_unit_mul(dx as int, offset as int);
                            crate::patterns::lemma_unit_mul(dy as int, offset as int);
                        }
                        let r = row as isize + dx * offset;
                        let c = col as isize + dy * offset;
                        if PatternAnalyzer::is_valid_empty(board, r, c) {
                            Self::add_score(board, move_scores, (r as usize, c as usize), score);
                        }
                        offset = offset + 1;
                    }
                }
            }
        }
    }

    /// Every stone of `player` scores its gapped pattern in each direction
    /// (two stones or more within seven squares, one to three gaps, at least
    /// four stones and gaps together) onto the empty gaps.
    fn collect_gapped_threats(board: &Board, player: Player, move_scores: &mut Vec<((usize, usize), i32)>)
        requires
            board.wf(),
            scores_ok(*board, old(move_scores)@),
        ensures
            scores_ok(*board, final(move_scores)@),
            score_view(final(move_scores)@) == rows_from(
                Scorer::Gaps,
                *board,
                player,
                0,
                score_view(old(move_scores)@),
            ),
    {
        proof {
            board.lemma_wf_facts();
        }
        let player_bits = board.get_player_bits(player);
        let size = board.size;
        let mut row: usize = 0;
        while row < size
            invariant
                board.wf(),
                size == board.size,
                8 * board.size < isize::MAX,
                16 * board.size <= usize::MAX,
                player_bits@ == board.bits_of(player),
                row <= size,
                scores_ok(*board, move_scores@),
                rows_from(Scorer::Gaps, *board, player, row as int, score_view(move_scores@)) == rows_from(
                    Scorer::Gaps,
                    *board,
                    player,
                    0,
                    score_view(old(move_scores)@),
                ),
            decreases size - row,
        {
            let mut col: usize = 0;
            while col < size
                invariant
                    board.wf(),
                    size == board.size,
                    8 * board.size < isize::MAX,
                    16 * board.size <= usize::MAX,
                    player_bits@ == board.bits_of(player),
                    row < size,
                    col <= size,
                    scores_ok(*board, move_scores@),
                    rows_from(
                        Scorer::Gaps,
                        *board,
                        player,
                        row + 1,
                        cols_from(Scorer::Gaps, *board, player, row as int, col as int, score_view(move_scores@)),
                    ) == rows_from(Scorer::Gaps, *board, player, 0, score_view(old(move_scores)@)),
                decreases size - col,
            {
                proof {
                    board.lemma_cell_index(row as int, col as int);
                    board.lemma_stone_occ(row as int, col as int);
                }
                let idx = board.index(row, col);
                if Board::is_bit_set(player_bits.as_slice(), idx) {
                    assert(board.stone(row as int, col as int) == Some(player));
                    let mut k: usize = 0;
                    while k < 4
                        invariant
                            board.wf(),
                            size == board.size,
                            8 * board.size < isize::MAX,
                            16 * board.size <= usize::MAX,
                            row < size,
                            col < size,
                            k <= 4,
                            scores_ok(*board, move_scores@),
                            rows_from(
                                Scorer::Gaps,
                                *board,
                                player,
                                row + 1,
                                cols_from(
                                    Scorer::Gaps,
                                    *board,
                                    player,
                                    row as int,
                                    col + 1,
                                    dirs_from(
                                        Scorer::Gaps,
                                        *board,
                                        row as int,
                                        col as int,
                                        player,
                                        k as int,
                                        score_view(move_scores@),
                                    ),
                                ),
                            ) == rows_from(Scorer::Gaps, *board, player, 0, score_view(old(move_scores)@)),
                        decreases 4 - k,
                    {
                        let (dx, dy) = DIRECTIONS[k];
                        assert(dx == crate::patterns::dir(k as int).0 && dy == crate::patterns::dir(
                            k as int,
                        ).1);
                        Self::score_gaps(board, row, col, dx, dy, player, move_scores);
                        k = k + 1;
                    }
                } else {
                    assert(board.stone(row as int, col as int) != Some(player));
                }
                col = col + 1;
            }
            row = row + 1;
        }
    }

    /// The gapped pattern of `player` through `(row, col)` along `(dx, dy)`.
    fn score_gaps(
        board: &Board,
        row: usize,
        col: usize,
        dx: isize,
        dy: isize,
        player: Player,
        move_scores: &mut Vec<((usize, usize), i32)>,
    )
        requires
            board.wf(),
            8 * board.size < isize::MAX,
            row < board.size,
            col < board.size,
            crate::patterns::unit_dir(dx as int, dy as int),
            scores_ok(*board, old(move_scores)@),
        ensures
            scores_ok(*board, final(move_scores)@),
            score_view(final(move_scores)@) == gap_acc(
                *board,
                row as int,
                col as int,
                dx as int,
                dy as int,
                player,
                score_view(old(move_scores)@),
            ),
    {
        let stones_found = PatternAnalyzer::collect_gapped_stones(board, row, col, dx, dy, player, 6);
        proof {
            crate::patterns::lemma_gapped_stones_on_board(
                *board,
                row as int,
                col as int,
                dx as int,
                dy as int,
                player,
                6,
            );
            assert(stones_found@ == crate::patterns::gap_scan(
                *board,
                row as int,
                col as int,
                -dx,
                -dy,
                player,
                1,
                6,
            ).reverse() + seq![((row as int) as usize, (col as int) as usize)] + crate::patterns::gap_scan(
                *board,
                row as int,
                col as int,
                dx as int,
                dy as int,
                player,
                1,
                6,
            ));
            assert forall|k: int| 0 <= k < stones_found@.len() implies 4 * (#[trigger] stones_found@[k]).0
                < isize::MAX && 4 * stones_found@[k].1 < isize::MAX by {
                assert(board.in_bounds(stones_found@[k].0 as int, stones_found@[k].1 as int));
            }
        }
        if stones_found.len() >= 2 {
            let first = stones_found[0];
            let last = stones_found[stones_found.len() - 1];
            let dr = last.0 as isize - first.0 as isize;
            let dc = last.1 as isize - first.1 as isize;
            let adr = if dr < 0 {
                -dr
            } else {
                dr
            };
            let adc = if dc < 0 {
                -dc
            } else {
                dc
            };
            let total_span = (if adr >= adc {
                adr
            } else {
                adc
            }) + 1;
            if total_span <= 7 {
                let threat_positions = PatternAnalyzer::extract_gap_positions(
                    board,
                    stones_found.as_slice(),
                    dx,
                    dy,
                );
                let empty_gaps = threat_positions.len();
                if empty_gaps > 0 && empty_gaps <= 3 && stones_found.len() >= 4 - empty_gaps {
                    let score = score_gapped_pattern(stones_found.len(), empty_gaps);
                    proof {
                        crate::patterns::lemma_gap_cells_empty(
                            *board,
                            stones_found@[0].0 as int,
                            stones_found@[0].1 as int,
                            dx as int,
                            dy as int,
                            1,
                            crate::patterns::spec_gap_steps(stones_found@[0], stones_found@.last()),
                        );
                    }
                    let mut i: usize = 0;
                    while i < threat_positions.len()
                        invariant
                            i <= threat_positions@.len(),
                            forall|k: int|
                                0 <= k < threat_positions@.len() ==> crate::patterns::valid_empty(
                                    *board,
                                    (#[trigger] threat_positions@[k]).0 as int,
                                    threat_positions@[k].1 as int,
                                ),
                            scores_ok(*board, move_scores@),
                            cells_acc(threat_positions@, score, i as int, score_view(move_scores@)) == cells_acc(
                                threat_positions@,
                                score,
                                0,
                                score_view(old(move_scores)@),
                            ),
                        decreases threat_positions@.len() - i,
                    {
                        Self::add_score(board, move_scores, threat_positions[i], score);
                        i = i + 1;
                    }
                }
            }
        }
    }

    /// Every pair of `player`'s opponent flanked by `player` on one side and
    /// an empty square on the other scores that square.
    fn collect_capture_moves(board: &Board, player: Player, move_scores: &mut Vec<((usize, usize), i32)>)
        requires
            board.wf(),
            scores_ok(*board, old(move_scores)@),
        ensures
            scores_ok(*board, final(move_scores)@),
            score_view(final(move_scores)@) == rows_from(
                Scorer::Captures,
                *board,
                player,
                0,
                score_view(old(move_scores)@),
            ),
    {
        proof {
            board.lemma_wf_facts();
        }
        let player_bits = board.get_player_bits(player.opponent());
        let size = board.size;
        let mut row: usize = 0;
        while row < size
            invariant
                board.wf(),
                size == board.size,
                8 * board.size < isize::MAX,
                16 * board.size <= usize::MAX,
                player_bits@ == board.bits_of(player.other()),
                row <= size,
                scores_ok(*board, move_scores@),
                rows_from(Scorer::Captures, *board, player, row as int, score_view(move_scores@)) == rows_from(
                    Scorer::Captures,
                    *board,
                    player,
                    0,
                    score_view(old(move_scores)@),
                ),
            decreases size - row,
        {
            let mut col: usize = 0;
            while col < size
                invariant
                    board.wf(),
                    size == board.size,
                    8 * board.size < isize::MAX,
                    16 * board.size <= usize::MAX,
                    player_bits@ == board.bits_of(player.other()),
                    row < size,
                    col <= size,
                    scores_ok(*board, move_scores@),
                    rows_from(
                        Scorer::Captures,
                        *board,
                        player,
                        row + 1,
                        cols_from(Scorer::Captures, *board, player, row as int, col as int, score_view(move_scores@)),
                    ) == rows_from(Scorer::Captures, *board, player, 0, score_view(old(move_scores)@)),
                decreases size - col,
            {
                proof {
                    board.lemma_cell_index(row as int, col as int);
                    board.lemma_stone_occ(row as int, col as int);
                }
                let idx = board.index(row, col);
                if Board::is_bit_set(player_bits.as_slice(), idx) {
                    assert(board.stone(row as int, col as int) == Some(player.other()));
                    let mut k: usize = 0;
                    while k < 4
                        invariant
                            board.wf(),
                            size == board.size,
                            8 * board.size < isize::MAX,
                            16 * board.size <= usize::MAX,
                            row < size,
                            col < size,
                            k <= 4,
                            scores_ok(*board, move_scores@),
                            rows_from(
                                Scorer::Captures,
                                *board,
                                player,
                                row + 1,
                                cols_from(
                                    Scorer::Captures,
                                    *board,
                                    player,
                                    row as int,
                                    col + 1,
                                    dirs_from(
                                        Scorer::Captures,
                                        *board,
                                        row as int,
                                        col as int,
                                        player,
                                        k as int,
                                        score_view(move_scores@),
                                    ),
                                ),
                            ) == rows_from(Scorer::Captures, *board, player, 0, score_view(old(move_scores)@)),
                        decreases 4 - k,
                    {
                        let (dx, dy) = DIRECTIONS[k];
                        assert(dx == crate::patterns::dir(k as int).0 && dy == crate::patterns::dir(
                            k as int,
                        ).1);
                        Self::score_capture(board, row, col, dx, dy, player, move_scores);
                        k = k + 1;
                    }
                } else {
                    assert(board.stone(row as int, col as int) != Some(player.other()));
                }
                col = col + 1;
            }
            row = row + 1;
        }
    }

    /// The pair of `player`'s opponent starting at `(row, col)` along `(dx, dy)`.
    fn score_capture(
        board: &Board,
        row: usize,
        col: usize,
        dx: isize,
        dy: isize,
        player: Player,
        move_scores: &mut Vec<((usize, usize), i32)>,
    )
        requires
            board.wf(),
            8 * board.size < isize::MAX,
            row < board.size,
            col < board.size,
            crate::patterns::unit_dir(dx as int, dy as int),
            scores_ok(*board, old(move_scores)@),
        ensures
            scores_ok(*board, final(move_scores)@),
            score_view(final(move_scores)@) == cap_acc(
                *board,
                row as int,
                col as int,
                dx as int,
                dy as int,
                player,
                score_view(old(move_scores)@),
            ),
    {
        let opponent = player.opponent();
        let opponent_bits = board.get_player_bits(opponent);
        let player_bits = board.get_player_bits(player);
        let next_row = row as isize + dx;
        let next_col = col as isize + dy;
        if PatternAnalyzer::is_in_bounds(board, next_row, next_col) {
            proof {
                board.lemma_cell_index(next_row as int, next_col as int);
                board.lemma_stone_occ(next_row as int, next_col as int);
            }
            let next_idx = board.index(next_row as usize, next_col as usize);
            if Board::is_bit_set(opponent_bits.as_slice(), next_idx) {
                let before_row = row as isize - dx;
                let before_col = col as isize - dy;
                let after_row = next_row + dx;
                let after_col = next_col + dy;
                if PatternAnalyzer::is_valid_empty(board, before_row, before_col) {
                    if PatternAnalyzer::is_in_bounds(board, after_row, after_col) {
                        proof {
                            board.lemma_cell_index(after_row as int, after_col as int);
                            board.lemma_stone_occ(after_row as int, after_col as int);
                        }
                        let after_idx = board.index(after_row as usize, after_col as usize);
                        if Board::is_bit_set(player_bits.as_slice(), after_idx) {
                            Self::add_score(
                                board,
                                move_scores,
                                (before_row as usize, before_col as usize),
                                CAPTURE_MOVE_SCORE,
                            );
                        }
                    }
                }
                if PatternAnalyzer::is_valid_empty(board, after_row, after_col) {
                    if PatternAnalyzer::is_in_bounds(board, before_row, before_col) {
                        proof {
                            board.lemma_cell_index(before_row as int, before_col as int);
                            board.lemma_stone_occ(before_row as int, before_col as int);
                        }
                        let before_idx = board.index(before_row as usize, before_col as usize);
                        if Board::is_bit_set(player_bits.as_slice(), before_idx) {
                            Self::add_score(
                                board,
                                move_scores,
                                (after_row as usize, after_col as usize),
                                CAPTURE_MOVE_SCORE,
                            );
                        }
                    }
                }
            }
        }
    }

    /// Orders scored squares by decreasing score.
    pub(crate) fn sort_by_score(move_scores: Vec<((usize, usize), i32)>) -> (sorted: Vec<((usize, usize), i32)>)
        requires
            forall|a: int, b: int|
                0 <= a < b < move_scores@.len() ==> (#[trigger] move_scores@[a]).0 != (
                #[trigger] move_scores@[b]).0,
        ensures
            forall|b: Board| scores_ok(b, move_scores@) ==> scores_ok(b, sorted@),
            forall|i: int, j: int| 0 <= i < j < sorted@.len() ==> (#[trigger] sorted@[i]).1 >= (
            #[trigger] sorted@[j]).1,
            sorted@.len() == move_scores@.len(),
            forall|e: ((usize, usize), i32)| #[trigger] sorted@.contains(e) <==> move_scores@.contains(e),
            keys_unique(sorted@),
    {
        let mut rest = move_scores;
        let mut sorted: Vec<((usize, usize), i32)> = Vec::new();
        while rest.len() > 0
            invariant
                forall|k: int| 0 <= k < sorted@.len() ==> move_scores@.contains(#[trigger] sorted@[k]),
                forall|k: int| 0 <= k < rest@.len() ==> move_scores@.contains(#[trigger] rest@[k]),
                forall|a: int, b: int| 0 <= a < b < sorted@.len() ==> (#[trigger] sorted@[a]).0 != (
                #[trigger] sorted@[b]).0,
                forall|a: int, b: int| 0 <= a < b < rest@.len() ==> (#[trigger] rest@[a]).0 != (
                #[trigger] rest@[b]).0,
                forall|a: int, b: int|
                    0 <= a < sorted@.len() && 0 <= b < rest@.len() ==> (#[trigger] sorted@[a]).0 != (
                    #[trigger] rest@[b]).0,
                forall|i: int, j: int| 0 <= i < j < sorted@.len() ==> (#[trigger] sorted@[i]).1 >= (
                #[trigger] sorted@[j]).1,
                forall|i: int, j: int|
                    0 <= i < sorted@.len() && 0 <= j < rest@.len() ==> (#[trigger] sorted@[i]).1 >= (
                    #[trigger] rest@[j]).1,
                sorted@.len() + rest@.len() == move_scores@.len(),
                forall|k: int|
                    0 <= k < move_scores@.len() ==> sorted@.contains(#[trigger] move_scores@[k])
                        || rest@.contains(move_scores@[k]),
            decreases rest@.len(),
        {
            let mut best: usize = 0;
            let mut k: usize = 1;
            while k < rest.len()
                invariant
                    best < rest@.len(),
                    1 <= k <= rest@.len(),
                    forall|j: int| 0 <= j < k ==> (#[trigger] rest@[j]).1 <= rest@[best as int].1,
                decreases rest@.len() - k,
            {
                if rest[k].1 > rest[best].1 {
                    best = k;
                }
                k = k + 1;
            }
            let ghost old_rest = rest@;
            let ghost old_sorted = sorted@;
            let e = rest.remove(best);
            sorted.push(e);
            proof {
                assert(rest@ == old_rest.remove(best as int));
                assert(e == old_rest[best as int]);
                assert forall|k: int| 0 <= k < move_scores@.len() implies sorted@.contains(
                    #[trigger] move_scores@[k],
                ) || rest@.contains(move_scores@[k]) by {
                    let x = move_scores@[k];
                    if old_sorted.contains(x) {
                        let t = choose|t: int| 0 <= t < old_sorted.len() && old_sorted[t] == x;
                        assert(sorted@[t] == x);
                    } else {
                        assert(old_rest.contains(x));
                        let t = choose|t: int| 0 <= t < old_rest.len() && old_rest[t] == x;
                        if t == best {
                            assert(sorted@[old_sorted.len() as int] == x);
                        } else if t < best {
                            assert(rest@[t] == x);
                        } else {
                            assert(rest@[t - 1] == x);
                        }
                    }
                }
                assert forall|k2: int| 0 <= k2 < rest@.len() implies move_scores@.contains(
                    #[trigger] rest@[k2],
                ) by {
                    if k2 < best {
                        assert(rest@[k2] == old_rest[k2]);
                    } else {
                        assert(rest@[k2] == old_rest[k2 + 1]);
                    }
                }
                assert forall|k2: int| 0 <= k2 < sorted@.len() implies move_scores@.contains(
                    #[trigger] sorted@[k2],
                ) by {
                    if k2 < old_sorted.len() {
                        assert(sorted@[k2] == old_sorted[k2]);
                    }
                }
                assert forall|a: int, b: int| 0 <= a < b < rest@.len() implies (#[trigger] rest@[a]).0
                    != (#[trigger] rest@[b]).0 by {
                    let a2 = if a < best {
                        a
                    } else {
                        a + 1
                    };
                    let b2 = if b < best {
                        b
                    } else {
                        b + 1
                    };
                    assert(rest@[a] == old_rest[a2]);
                    assert(rest@[b] == old_rest[b2]);
                }
                assert forall|a: int, b: int| 0 <= a < b < sorted@.len() implies (
                #[trigger] sorted@[a]).0 != (#[trigger] sorted@[b]).0 by {
                    if b == old_sorted.len() {
                        assert(sorted@[a] == old_sorted[a]);
                    } else {
                        assert(sorted@[a] == old_sorted[a]);
                        assert(sorted@[b] == old_sorted[b]);
                    }
                }
                assert forall|a: int, b: int|
                    0 <= a < sorted@.len() && 0 <= b < rest@.len() implies (#[trigger] sorted@[a]).0
                    != (#[trigger] rest@[b]).0 by {
                    let b2 = if b < best {
                        b
                    } else {
                        b + 1
                    };
                    assert(rest@[b] == old_rest[b2]);
                    if a < old_sorted.len() {
                        assert(sorted@[a] == old_sorted[a]);
                    }
                }
                assert forall|i: int, j: int| 0 <= i < j < sorted@.len() implies (
                #[trigger] sorted@[i]).1 >= (#[trigger] sorted@[j]).1 by {
                    assert(sorted@[i] == old_sorted[i]);
                    if j < old_sorted.len() {
                        assert(sorted@[j] == old_sorted[j]);
                    }
                }
                assert forall|i: int, j: int|
                    0 <= i < sorted@.len() && 0 <= j < rest@.len() implies (#[trigger] sorted@[i]).1
                    >= (#[trigger] rest@[j]).1 by {
                    let j2 = if j < best {
                        j
                    } else {
                        j + 1
                    };
                    assert(rest@[j] == old_rest[j2]);
                    if i < old_sorted.len() {
                        assert(sorted@[i] == old_sorted[i]);
                    }
                }
            }
        }
        proof {
            assert forall|e: ((usize, usize), i32)| #[trigger] sorted@.contains(e) <==> move_scores@.contains(e) by {
                if move_scores@.contains(e) {
                    let k = choose|k: int| 0 <= k < move_scores@.len() && move_scores@[k] == e;
                    assert(sorted@.contains(move_scores@[k]) || rest@.contains(move_scores@[k]));
                }
                if sorted@.contains(e) {
                    let k = choose|k: int| 0 <= k < sorted@.len() && sorted@[k] == e;
                    assert(move_scores@.contains(sorted@[k]));
                }
            }
            assert forall|b: Board| scores_ok(b, move_scores@) implies scores_ok(b, sorted@) by {
                assert forall|i: int| 0 <= i < sorted@.len() implies crate::patterns::valid_empty(
                    b,
                    (#[trigger] sorted@[i]).0.0 as int,
                    sorted@[i].0.1 as int,
                ) by {
                    assert(move_scores@.contains(sorted@[i]));
                    let k = choose|k: int| 0 <= k < move_scores@.len() && move_scores@[k] == sorted@[i];
                    assert(crate::patterns::valid_empty(
                        b,
                        move_scores@[k].0.0 as int,
                        move_scores@[k].0.1 as int,
                    ));
                }
            }
        }
        sorted
    }

    /// The empty squares within two squares of some stone, each listed once.
    pub(crate) fn get_zone_based_moves(board: &Board, _player: Player) -> (moves: Vec<(usize, usize)>)
        requires
            board.wf(),
        ensures
            moves_ok(*board, moves@),
            forall|mv: (usize, usize)| #[trigger] moves@.contains(mv) <==> in_zone(*board, mv),
    {
        proof {
            board.lemma_wf_facts();
        }
        let mut candidates: Vec<(usize, usize)> = Vec::new();
        let size = board.size;
        let mut row: usize = 0;
        while row < size
            invariant
                board.wf(),
                size == board.size,
                8 * board.size < isize::MAX,
                row <= size,
                moves_ok(*board, candidates@),
                forall|mv: (usize, usize)|
                    #[trigger] candidates@.contains(mv) <==> crate::patterns::valid_empty(*board, mv.0 as int, mv.1 as int)
                        && zone_before(*board, mv, row as int, 0, -3, -3),
            decreases size - row,
        {
            let mut col: usize = 0;
            while col < size
                invariant
                    board.wf(),
                    size == board.size,
                    8 * board.size < isize::MAX,
                    row < size,
                    col <= size,
                    moves_ok(*board, candidates@),
                    forall|mv: (usize, usize)|
                        #[trigger] candidates@.contains(mv) <==> crate::patterns::valid_empty(*board, mv.0 as int, mv.1 as int)
                            && zone_before(*board, mv, row as int, col as int, -3, -3),
                decreases size - col,
            {
                proof {
                    board.lemma_cell_index(row as int, col as int);
                    board.lemma_stone_occ(row as int, col as int);
                }
                let idx = board.index(row, col);
                if Board::is_bit_set(board.occupied.as_slice(), idx) {
                    proof {
                        assert forall|mv: (usize, usize)| #[trigger] candidates@.contains(mv) <==> crate::patterns::valid_empty(
                            *board,
                            mv.0 as int,
                            mv.1 as int,
                        ) && zone_before(*board, mv, row as int, col as int, -2, -3) by {
                            lemma_zone_same(*board, mv, row as int, col as int, -3, -3, row as int, col as int, -2, -3);
                        }
                    }
                    let mut dr: isize = -2;
                    while dr <= 2
                        invariant
                            board.wf(),
                            8 * board.size < isize::MAX,
                            row < board.size,
                            col < board.size,
                            board.stone(row as int, col as int) is Some,
                            -2 <= dr <= 3,
                            moves_ok(*board, candidates@),
                            forall|mv: (usize, usize)|
                                #[trigger] candidates@.contains(mv) <==> crate::patterns::valid_empty(
                                    *board,
                                    mv.0 as int,
                                    mv.1 as int,
                                ) && zone_before(*board, mv, row as int, col as int, dr as int, -3),
                        decreases 3 - dr,
                    {
                        proof {
                            assert forall|mv: (usize, usize)| #[trigger] candidates@.contains(mv) <==> crate::patterns::valid_empty(
                                *board,
                                mv.0 as int,
                                mv.1 as int,
                            ) && zone_before(*board, mv, row as int, col as int, dr as int, -2) by {
                                lemma_zone_same(*board, mv, row as int, col as int, dr as int, -3, row as int, col as int, dr as int, -2);
                            }
                        }
                        let mut dc: isize = -2;
                        while dc <= 2
                            invariant
                                board.wf(),
                                8 * board.size < isize::MAX,
                                row < board.size,
                                col < board.size,
                                board.stone(row as int, col as int) is Some,
                                -2 <= dr <= 2,
                                -2 <= dc <= 3,
                                moves_ok(*board, candidates@),
                                forall|mv: (usize, usize)|
                                    #[trigger] candidates@.contains(mv) <==> crate::patterns::valid_empty(
                                        *board,
                                        mv.0 as int,
                                        mv.1 as int,
                                    ) && zone_before(*board, mv, row as int, col as int, dr as int, dc as int),
                            decreases 3 - dc,
                        {
                            let ghost before = candidates@;
                            let nr = row as isize + dr;
                            let nc = col as isize + dc;
                            if !(dr == 0 && dc == 0) && PatternAnalyzer::is_valid_empty(board, nr, nc) {
                                Self::insert_move(board, &mut candidates, (nr as usize, nc as usize));
                            }
                            proof {
                                assert forall|mv: (usize, usize)| #[trigger] candidates@.contains(mv) <==> crate::patterns::valid_empty(
                                    *board,
                                    mv.0 as int,
                                    mv.1 as int,
                                ) && zone_before(*board, mv, row as int, col as int, dr as int, dc + 1) by {
                                    lemma_zone_step(*board, mv, row as int, col as int, dr as int, dc as int);
                                    assert(before.contains(mv) <==> crate::patterns::valid_empty(
                                        *board,
                                        mv.0 as int,
                                        mv.1 as int,
                                    ) && zone_before(*board, mv, row as int, col as int, dr as int, dc as int));
                                }
                            }
                            dc = dc + 1;
                        }
                        proof {
                            assert forall|mv: (usize, usize)| #[trigger] candidates@.contains(mv) <==> crate::patterns::valid_empty(
                                *board,
                                mv.0 as int,
                                mv.1 as int,
                            ) && zone_before(*board, mv, row as int, col as int, dr + 1, -3) by {
                                lemma_zone_same(*board, mv, row as int, col as int, dr as int, 3, row as int, col as int, dr + 1, -3);
                            }
                        }
                        dr = dr + 1;
                    }
                    proof {
                        assert forall|mv: (usize, usize)| #[trigger] candidates@.contains(mv) <==> crate::patterns::valid_empty(
                            *board,
                            mv.0 as int,
                            mv.1 as int,
                        ) && zone_before(*board, mv, row as int, col + 1, -3, -3) by {
                            lemma_zone_same(*board, mv, row as int, col as int, 3, -3, row as int, col + 1, -3, -3);
                        }
                    }
                } else {
                    proof {
                        assert forall|mv: (usize, usize)| #[trigger] candidates@.contains(mv) <==> crate::patterns::valid_empty(
                            *board,
                            mv.0 as int,
                            mv.1 as int,
                        ) && zone_before(*board, mv, row as int, col + 1, -3, -3) by {
                            lemma_zone_same(*board, mv, row as int, col as int, -3, -3, row as int, col + 1, -3, -3);
                        }
                    }
                }
                col = col + 1;
            }
            proof {
                assert forall|mv: (usize, usize)| #[trigger] candidates@.contains(mv) <==> crate::patterns::valid_empty(
                    *board,
                    mv.0 as int,
                    mv.1 as int,
                ) && zone_before(*board, mv, row + 1, 0, -3, -3) by {
                    lemma_zone_same(*board, mv, row as int, size as int, -3, -3, row + 1, 0, -3, -3);
                }
            }
            row = row + 1;
        }
        proof {
            assert forall|mv: (usize, usize)| #[trigger] candidates@.contains(mv) <==> in_zone(*board, mv) by {
                if zone_before(*board, mv, size as int, 0, -3, -3) {
                    let (r, c) = choose|r: int, c: int| #[trigger] near_stone(*board, mv, r, c) && zone_cond(mv, r, c, size as int, 0, -3, -3);
                    assert(near_stone(*board, mv, r, c));
                }
                if in_zone(*board, mv) {
                    let (r, c) = choose|r: int, c: int| #[trigger] near_stone(*board, mv, r, c);
                    assert(near_stone(*board, mv, r, c) && zone_cond(mv, r, c, size as int, 0, -3, -3));
                }
            }
        }
        candidates
    }

    /// Adds `mv` unless it is already listed.
    fn insert_move(board: &Board, moves: &mut Vec<(usize, usize)>, mv: (usize, usize))
        requires
            moves_ok(*board, old(moves)@),
            crate::patterns::valid_empty(*board, mv.0 as int, mv.1 as int),
        ensures
            moves_ok(*board, final(moves)@),
            forall|x: (usize, usize)| #[trigger] final(moves)@.contains(x) <==> old(moves)@.contains(x) || x == mv,
    {
        let mut i: usize = 0;
        while i < moves.len()
            invariant
                i <= moves@.len(),
                moves@ == old(moves)@,
                moves_ok(*board, old(moves)@),
                forall|k: int| 0 <= k < i ==> #[trigger] moves@[k] != mv,
            decreases moves@.len() - i,
        {
            let m = moves[i];
            if m.0 == mv.0 && m.1 == mv.1 {
                proof {
                    assert(moves@[i as int] == mv);
                }
                return;
            }
            i = i + 1;
        }
        let ghost before = moves@;
        moves.push(mv);
        proof {
            assert forall|x: (usize, usize)| #[trigger] moves@.contains(x) <==> before.contains(x) || x == mv by {
                if moves@.contains(x) {
                    let k = choose|k: int| 0 <= k < moves@.len() && moves@[k] == x;
                    if k < before.len() {
                        assert(before[k] == x);
                    }
                }
                if before.contains(x) {
                    let k = choose|k: int| 0 <= k < before.len() && before[k] == x;
                    assert(moves@[k] == x);
                }
                if x == mv {
                    assert(moves@[before.len() as int] == x);
                }
            }
            assert forall|a: int, b: int| 0 <= a < b < moves@.len() implies #[trigger] moves@[a]
                != #[trigger] moves@[b] by {
                if b == before.len() {
                    assert(before[a] != mv);
                }
            }
        }
    }

    /// The moves that are not double-threes for `player`, in order.
    pub(crate) fn filter_double_three_moves(board: &Board, moves: Vec<(usize, usize)>, player: Player) -> (kept: Vec<
        (usize, usize),
    >)
        requires
            board.wf(),
            moves_ok(*board, moves@),
        ensures
            moves_ok(*board, kept@),
            forall|i: int| 0 <= i < kept@.len() ==> legal_for(*board, player, #[trigger] kept@[i]),
            kept@ == not_double_three(*board, player, moves@),
    {
        proof {
            board.lemma_wf_facts();
        }
        let mut kept: Vec<(usize, usize)> = Vec::new();
        let mut i: usize = 0;
        while i < moves.len()
            invariant
                board.wf(),
                8 * board.size < isize::MAX,
                i <= moves@.len(),
                moves_ok(*board, moves@),
                moves_ok(*board, kept@),
                forall|k: int| 0 <= k < kept@.len() ==> legal_for(*board, player, #[trigger] kept@[k]),
                forall|k: int|
                    0 <= k < kept@.len() ==> exists|j: int| 0 <= j < i && moves@[j] == #[trigger] kept@[k],
                kept@ == not_double_three(*board, player, moves@.subrange(0, i as int)),
            decreases moves@.len() - i,
        {
            proof {
                assert(moves@.subrange(0, i + 1).drop_last() =~= moves@.subrange(0, i as int));
                assert(moves@.subrange(0, i + 1).last() == moves@[i as int]);
            }
            let (row, col) = moves[i];
            if !DoubleThreeDetection::creates_double_three(board, row, col, player) {
                let ghost before = kept@;
                kept.push((row, col));
                proof {
                    assert forall|a: int, b: int| 0 <= a < b < kept@.len() implies #[trigger] kept@[a]
                        != #[trigger] kept@[b] by {
                        if b == before.len() {
                            let j = choose|j: int| 0 <= j < i && moves@[j] == before[a];
                            assert(kept@[a] == before[a]);
                            assert(moves@[j] != moves@[i as int]);
                        } else {
                            assert(kept@[a] == before[a] && kept@[b] == before[b]);
                        }
                    }
                    assert forall|k: int| 0 <= k < kept@.len() implies exists|j: int|
                        0 <= j < i + 1 && moves@[j] == #[trigger] kept@[k] by {
                        if k < before.len() {
                            let j = choose|j: int| 0 <= j < i && moves@[j] == before[k];
                            assert(kept@[k] == before[k]);
                        } else {
                            assert(moves@[i as int] == kept@[k]);
                        }
                    }
                }
            }
            i = i + 1;
        }
        proof {
            assert(moves@.subrange(0, moves@.len() as int) =~= moves@);
        }
        kept
    }

    /// The first square, in row-major order, that is legal for `player`.
    pub(crate) fn find_any_legal_move(board: &Board, player: Player) -> (moves: Vec<(usize, usize)>)
        requires
            board.wf(),
        ensures
            moves@.len() <= 1,
            moves@.len() == 0 <==> !has_legal_move(*board, player),
            moves@.len() == 1 ==> legal_for(*board, player, moves@[0]) && moves_ok(*board, moves@),
            moves@.len() == 1 ==> forall|r: int, c: int|
                board.in_bounds(r, c) && Board::before((r as usize, c as usize), moves@[0])
                    ==> !#[trigger] legal_for(*board, player, (r as usize, c as usize)),
    {
        proof {
            board.lemma_wf_facts();
        }
        let size = board.size;
        let mut row: usize = 0;
        while row < size
            invariant
                board.wf(),
                size == board.size,
                8 * board.size < isize::MAX,
                row <= size,
                forall|r: int, c: int|
                    0 <= r < row && 0 <= c < size ==> !#[trigger] legal_for(
                        *board,
                        player,
                        (r as usize, c as usize),
                    ),
            decreases size - row,
        {
            let mut col: usize = 0;
            while col < size
                invariant
                    board.wf(),
                    size == board.size,
                    8 * board.size < isize::MAX,
                    row < size,
                    col <= size,
                    forall|r: int, c: int|
                        (0 <= r < row && 0 <= c < size || r == row && 0 <= c < col) ==> !#[trigger] legal_for(
                            *board,
                            player,
                            (r as usize, c as usize),
                        ),
                decreases size - col,
            {
                if board.get_player(row, col).is_none() && !DoubleThreeDetection::creates_double_three(
                    board,
                    row,
                    col,
                    player,
                ) {
                    proof {
                        assert(legal_for(*board, player, (row, col)));
                        assert(legal_for(*board, player, ((row as int) as usize, (col as int) as usize)));
                        assert(board.in_bounds(row as int, col as int));
                    }
                    return vec![(row, col)];
                }
                col = col + 1;
            }
            row = row + 1;
        }
        proof {
            assert forall|r: int, c: int| board.in_bounds(r, c) implies !#[trigger] legal_for(
                *board,
                player,
                (r as usize, c as usize),
            ) by {}
        }
        vec![]
    }
}

} // verus!

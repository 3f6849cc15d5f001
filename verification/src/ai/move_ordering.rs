//! Move ordering: the squares that extend or block runs (with a bonus where
//! the stone would also capture) and fill gapped patterns, best scored
//! first; around the stones when no such square exists; any legal square as
//! a last resort.

use vstd::prelude::*;
use crate::ai::heuristic::{score_consecutive_pattern, score_gapped_pattern, CAPTURE_BONUS_MULTIPLIER};
use crate::ai::move_generation::{
    acc, cells_acc, cols_from, dirs_from, gaps_of, has_legal_move, in_zone, legal_for, lemma_not_double_three_contains,
    lemma_not_double_three_sorted, lemma_score_view, moves_ok, not_double_three, rows_from, score_view, scores_ok,
    stones_around, ScoreMap, Scorer,
};
use crate::board::{Board, Player};
use crate::captures::CaptureHandler;
use crate::patterns::{PatternAnalyzer, PatternFreedom, DIRECTIONS};

verus! {

type Generator = crate::ai::move_generation::MoveGenerator;

/// The bonus of a square where `p`'s stone would capture a pair.
pub open spec fn capture_bonus_at(b: Board, r: int, c: int, p: Player) -> int {
    if crate::captures::spec_captures(b, r, c, p).len() > 0 {
        CAPTURE_BONUS_MULTIPLIER as int
    } else {
        0
    }
}

/// `m` after each empty square at offsets `i..=hi` along `(dx, dy)` from
/// `(r, c)` gets `score`, plus the capture bonus where `p` would capture.
pub open spec fn run_offsets_acc(
    b: Board,
    r: int,
    c: int,
    dx: int,
    dy: int,
    p: Player,
    score: i32,
    i: int,
    hi: int,
    m: ScoreMap,
) -> ScoreMap
    decreases hi + 1 - i,
{
    if i > hi {
        m
    } else {
        let rr = crate::patterns::step(r, dx, i);
        let cc = crate::patterns::step(c, dy, i);
        let m1 = if crate::patterns::valid_empty(b, rr, cc) {
            acc(m, (rr as usize, cc as usize), (score + capture_bonus_at(b, rr, cc, p)) as i32)
        } else {
            m
        };
        run_offsets_acc(b, r, c, dx, dy, p, score, i + 1, hi, m1)
    }
}

/// Adding run scores only ever adds keys; every empty square of the
/// offsets gets one.
pub proof fn lemma_run_offsets_grow(
    b: Board,
    r: int,
    c: int,
    dx: int,
    dy: int,
    p: Player,
    score: i32,
    i: int,
    hi: int,
    m: ScoreMap,
)
    ensures
        m.dom().subset_of(run_offsets_acc(b, r, c, dx, dy, p, score, i, hi, m).dom()),
        forall|t: int|
            i <= t <= hi && crate::patterns::valid_empty(
                b,
                crate::patterns::step(r, dx, t),
                crate::patterns::step(c, dy, t),
            ) ==> #[trigger] run_offsets_acc(b, r, c, dx, dy, p, score, i, hi, m).dom().contains(
                (crate::patterns::step(r, dx, t) as usize, crate::patterns::step(c, dy, t) as usize),
            ),
    decreases hi + 1 - i,
{
    if i <= hi {
        let rr = crate::patterns::step(r, dx, i);
        let cc = crate::patterns::step(c, dy, i);
        let m1 = if crate::patterns::valid_empty(b, rr, cc) {
            acc(m, (rr as usize, cc as usize), (score + capture_bonus_at(b, rr, cc, p)) as i32)
        } else {
            m
        };
        lemma_run_offsets_grow(b, r, c, dx, dy, p, score, i + 1, hi, m1);
    }
}

/// The run of `p` through `(r, c)` along `(dx, dy)`: two to four stones,
/// room for five and not flanked, score (by length and open ends) every
/// empty square from one before the run to one after it.
pub open spec fn run_acc(b: Board, r: int, c: int, dx: int, dy: int, p: Player, m: ScoreMap) -> ScoreMap {
    match crate::patterns::spec_consecutive_info(b, r, c, dx, dy, p, 5) {
        Some((length, _sr, _sc, _space, freedom)) => {
            if 2 <= length <= 4 && freedom != PatternFreedom::Flanked {
                run_offsets_acc(
                    b,
                    r,
                    c,
                    dx,
                    dy,
                    p,
                    crate::ai::heuristic::spec_consecutive_score(length as int, freedom),
                    -(crate::patterns::run_len(b, r, c, -dx, -dy, p) + 1),
                    crate::patterns::run_len(b, r, c, dx, dy, p) + 1,
                    m,
                )
            } else {
                m
            }
        },
        None => m,
    }
}

/// Scoring a run only ever adds keys.
pub proof fn lemma_run_acc_grow(b: Board, r: int, c: int, dx: int, dy: int, p: Player, m: ScoreMap)
    ensures
        m.dom().subset_of(run_acc(b, r, c, dx, dy, p, m).dom()),
{
    match crate::patterns::spec_consecutive_info(b, r, c, dx, dy, p, 5) {
        Some((length, _sr, _sc, _space, freedom)) => {
            lemma_run_offsets_grow(
                b,
                r,
                c,
                dx,
                dy,
                p,
                crate::ai::heuristic::spec_consecutive_score(length as int, freedom),
                -(crate::patterns::run_len(b, r, c, -dx, -dy, p) + 1),
                crate::patterns::run_len(b, r, c, dx, dy, p) + 1,
                m,
            );
        },
        None => {},
    }
}

/// The gapped pattern of `p` through `(r, c)` along `(dx, dy)`: its gaps
/// score by stone and gap count.
pub open spec fn pattern_acc(b: Board, r: int, c: int, dx: int, dy: int, p: Player, m: ScoreMap) -> ScoreMap {
    let stones = stones_around(b, r, c, dx, dy, p);
    match crate::patterns::spec_gapped_pattern(stones) {
        Some((count, gaps, _span)) => cells_acc(
            gaps_of(b, stones, dx, dy),
            crate::ai::heuristic::spec_gapped_score(count as int, gaps as int),
            0,
            m,
        ),
        None => m,
    }
}

/// `m` after the runs, then the gapped patterns, of `p` are scored.
pub open spec fn ordering_player_scores(b: Board, p: Player, m: ScoreMap) -> ScoreMap {
    rows_from(Scorer::Patterns, b, p, 0, rows_from(Scorer::Runs, b, p, 0, m))
}

/// The ordering scores for `player`: its runs and gapped patterns, then the
/// opponent's, accumulated square by square.
pub open spec fn order_scores(b: Board, player: Player) -> ScoreMap {
    ordering_player_scores(b, player.other(), ordering_player_scores(b, player, Map::empty()))
}

/// Some square has an ordering score.
pub open spec fn has_order_threats(b: Board, player: Player) -> bool {
    exists|pos: (usize, usize)| #[trigger] order_scores(b, player).contains_key(pos)
}

/// The squares the orderer draws from: the scored squares, or the squares
/// near the stones when none is scored.
pub open spec fn order_pool(b: Board, player: Player, mv: (usize, usize)) -> bool {
    if has_order_threats(b, player) {
        order_scores(b, player).contains_key(mv)
    } else {
        in_zone(b, mv)
    }
}

/// Some square of the pool is legal for `player`.
pub open spec fn order_pool_has_legal(b: Board, player: Player) -> bool {
    exists|mv: (usize, usize)| #[trigger] order_pool(b, player, mv) && legal_for(b, player, mv)
}

/// The square one past either end of a run of two to four stones of either
/// player, not flanked and with room for five, is scored for move ordering
/// when it is empty: the orderer looks at both players' runs, so it offers
/// the squares that extend its own runs and those that block the opponent's.
pub proof fn lemma_run_end_scored(b: Board, player: Player, q: Player, r: int, c: int, k: int, t: int)
    requires
        b.wf(),
        b.stone(r, c) == Some(q),
        0 <= k < 4,
        crate::patterns::spec_consecutive_info(
            b,
            r,
            c,
            crate::patterns::dir(k).0,
            crate::patterns::dir(k).1,
            q,
            5,
        ) is Some,
        2 <= crate::patterns::spec_consecutive_info(
            b,
            r,
            c,
            crate::patterns::dir(k).0,
            crate::patterns::dir(k).1,
            q,
            5,
        ).unwrap().0 <= 4,
        crate::patterns::spec_consecutive_info(
            b,
            r,
            c,
            crate::patterns::dir(k).0,
            crate::patterns::dir(k).1,
            q,
            5,
        ).unwrap().4 != PatternFreedom::Flanked,
        t == crate::patterns::run_len(b, r, c, crate::patterns::dir(k).0, crate::patterns::dir(k).1, q) + 1 || t
            == -(crate::patterns::run_len(b, r, c, -crate::patterns::dir(k).0, -crate::patterns::dir(k).1, q) + 1),
        crate::patterns::valid_empty(
            b,
            crate::patterns::step(r, crate::patterns::dir(k).0, t),
            crate::patterns::step(c, crate::patterns::dir(k).1, t),
        ),
    ensures
        order_scores(b, player).contains_key(
            (
                crate::patterns::step(r, crate::patterns::dir(k).0, t) as usize,
                crate::patterns::step(c, crate::patterns::dir(k).1, t) as usize,
            ),
        ),
        has_order_threats(b, player),
        order_pool(
            b,
            player,
            (
                crate::patterns::step(r, crate::patterns::dir(k).0, t) as usize,
                crate::patterns::step(c, crate::patterns::dir(k).1, t) as usize,
            ),
        ),
{
    let d = crate::patterns::dir(k);
    let x = (crate::patterns::step(r, d.0, t) as usize, crate::patterns::step(c, d.1, t) as usize);
    let info = crate::patterns::spec_consecutive_info(b, r, c, d.0, d.1, q, 5).unwrap();
    let back = crate::patterns::run_len(b, r, c, -d.0, -d.1, q);
    let fwd = crate::patterns::run_len(b, r, c, d.0, d.1, q);
    assert forall|m: ScoreMap| #[trigger] crate::ai::move_generation::dir_score(Scorer::Runs, b, r, c, k, q, m).dom().contains(x) by {
        lemma_run_offsets_grow(
            b,
            r,
            c,
            d.0,
            d.1,
            q,
            crate::ai::heuristic::spec_consecutive_score(info.0 as int, info.4),
            -(back + 1),
            fwd + 1,
            m,
        );
    }
    assert(crate::ai::move_generation::adds_key(Scorer::Runs, b, r, c, k, q, x));
    let e: ScoreMap = Map::empty();
    let inner = ordering_player_scores(b, player, e);
    if q == player {
        crate::ai::move_generation::lemma_rows_from_keys(Scorer::Runs, b, player, 0, e);
        crate::ai::move_generation::lemma_rows_from_keys(
            Scorer::Patterns,
            b,
            player,
            0,
            rows_from(Scorer::Runs, b, player, 0, e),
        );
        assert(inner.dom().contains(x));
        crate::ai::move_generation::lemma_rows_from_keys(Scorer::Runs, b, player.other(), 0, inner);
        crate::ai::move_generation::lemma_rows_from_keys(
            Scorer::Patterns,
            b,
            player.other(),
            0,
            rows_from(Scorer::Runs, b, player.other(), 0, inner),
        );
    } else {
        assert(q == player.other());
        crate::ai::move_generation::lemma_rows_from_keys(Scorer::Runs, b, player.other(), 0, inner);
        crate::ai::move_generation::lemma_rows_from_keys(
            Scorer::Patterns,
            b,
            player.other(),
            0,
            rows_from(Scorer::Runs, b, player.other(), 0, inner),
        );
    }
    assert(order_scores(b, player).contains_key(x));
}

pub struct MoveGenerator;

impl MoveGenerator {
    /// Ordered moves for `player`: the centre on an empty board; otherwise
    /// the scored threat squares that are not double-threes, best first; or,
    /// when there is none, the first legal square in row-major order.
    pub fn order_moves(board: &Board, player: Player) -> (moves: Vec<(usize, usize)>)
        requires
            board.wf(),
        ensures
            board.all_empty() ==> moves@ == seq![((board.size / 2) as usize, (board.size / 2) as usize)],
            !board.all_empty() ==> moves_ok(*board, moves@),
            !board.all_empty() ==> forall|i: int|
                0 <= i < moves@.len() ==> legal_for(*board, player, #[trigger] moves@[i]),
            !board.all_empty() ==> (moves@.len() == 0 <==> !has_legal_move(*board, player)),
            !board.all_empty() && order_pool_has_legal(*board, player) ==> forall|mv: (usize, usize)|
                #[trigger] moves@.contains(mv) <==> order_pool(*board, player, mv) && legal_for(*board, player, mv),
            !board.all_empty() && order_pool_has_legal(*board, player) && has_order_threats(*board, player) ==> forall|
                i: int,
                j: int,
            |
                0 <= i < j < moves@.len() ==> order_scores(*board, player)[#[trigger] moves@[i]] >= order_scores(
                    *board,
                    player,
                )[#[trigger] moves@[j]],
            !board.all_empty() && !order_pool_has_legal(*board, player) ==> moves@.len() <= 1,
            !board.all_empty() && !order_pool_has_legal(*board, player) && moves@.len() == 1 ==> forall|
                r: int,
                c: int,
            |
                board.in_bounds(r, c) && Board::before((r as usize, c as usize), moves@[0]) ==> !#[trigger] legal_for(
                    *board,
                    player,
                    (r as usize, c as usize),
                ),
    {
        proof {
            board.lemma_wf_facts();
        }
        if board.is_empty() {
            let c = board.center();
            return vec![c];
        }
        let threat_moves = Self::find_all_threat_moves(board, player);
        let ghost pool = threat_moves@;
        proof {
            lemma_not_double_three_contains(*board, player, pool);
            if has_order_threats(*board, player) {
                lemma_not_double_three_sorted(*board, player, pool, order_scores(*board, player));
            }
            assert forall|mv: (usize, usize)| #[trigger] not_double_three(*board, player, pool).contains(mv)
                <==> order_pool(*board, player, mv) && legal_for(*board, player, mv) by {
                if pool.contains(mv) {
                    let k = choose|k: int| 0 <= k < pool.len() && pool[k] == mv;
                    assert(crate::patterns::valid_empty(*board, pool[k].0 as int, pool[k].1 as int));
                }
            }
        }
        if threat_moves.len() > 0 {
            let legal_threats = Generator::filter_double_three_moves(board, threat_moves, player);
            if legal_threats.len() > 0 {
                proof {
                    let m = legal_threats@[0];
                    assert(legal_for(*board, player, m));
                    assert(board.in_bounds(m.0 as int, m.1 as int));
                    assert(legal_for(*board, player, ((m.0 as int) as usize, (m.1 as int) as usize)));
                    assert(legal_threats@.contains(m));
                    assert(order_pool(*board, player, m) && legal_for(*board, player, m));
                }
                return legal_threats;
            }
            proof {
                assert forall|mv: (usize, usize)| !(#[trigger] order_pool(*board, player, mv) && legal_for(
                    *board,
                    player,
                    mv,
                )) by {
                    if order_pool(*board, player, mv) && legal_for(*board, player, mv) {
                        assert(legal_threats@.contains(mv));
                    }
                }
            }
        } else {
            proof {
                assert forall|mv: (usize, usize)| !(#[trigger] order_pool(*board, player, mv) && legal_for(
                    *board,
                    player,
                    mv,
                )) by {
                    if order_pool(*board, player, mv) && legal_for(*board, player, mv) {
                        assert(not_double_three(*board, player, pool).contains(mv));
                        assert(pool.contains(mv));
                    }
                }
            }
        }
        Generator::find_any_legal_move(board, player)
    }

    /// All scored threat squares of both players' runs and gapped patterns,
    /// best score first; the squares around the stones when none is scored.
    fn find_all_threat_moves(board: &Board, player: Player) -> (moves: Vec<(usize, usize)>)
        requires
            board.wf(),
        ensures
            moves_ok(*board, moves@),
            has_order_threats(*board, player) ==> forall|mv: (usize, usize)| #[trigger] moves@.contains(mv)
                <==> order_scores(*board, player).contains_key(mv),
            has_order_threats(*board, player) ==> forall|i: int, j: int|
                0 <= i < j < moves@.len() ==> order_scores(*board, player)[#[trigger] moves@[i]] >= order_scores(
                    *board,
                    player,
                )[#[trigger] moves@[j]],
            !has_order_threats(*board, player) ==> forall|mv: (usize, usize)| #[trigger] moves@.contains(mv)
                <==> in_zone(*board, mv),
    {
        proof {
            board.lemma_wf_facts();
        }
        let mut move_scores: Vec<((usize, usize), i32)> = Vec::new();
        let mut t: usize = 0;
        while t < 2
            invariant
                board.wf(),
                8 * board.size < isize::MAX,
                t <= 2,
                scores_ok(*board, move_scores@),
                score_view(move_scores@) == if t == 0 {
                    Map::empty()
                } else if t == 1 {
                    ordering_player_scores(*board, player, Map::empty())
                } else {
                    order_scores(*board, player)
                },
            decreases 2 - t,
        {
            let check_player = if t == 0 {
                player
            } else {
                player.opponent()
            };
            Self::collect_consecutive_threats(board, check_player, &mut move_scores);
            Self::collect_gapped_threats(board, check_player, &mut move_scores);
            t = t + 1;
        }
        proof {
            lemma_score_view(move_scores@);
        }
        let ghost scores = order_scores(*board, player);
        if move_scores.len() == 0 {
            proof {
                assert forall|pos: (usize, usize)| !#[trigger] scores.contains_key(pos) by {}
            }
            return Generator::get_zone_based_moves(board, player);
        }
        proof {
            assert(scores.contains_key(move_scores@[0].0));
        }
        Generator::ranked_squares(board, move_scores)
    }

    /// Every stone of `player` scores its run in each direction (two to four
    /// stones, not flanked, with room for five) onto the empty squares of the
    /// run and one past each end.
    fn collect_consecutive_threats(board: &Board, player: Player, move_scores: &mut Vec<((usize, usize), i32)>)
        requires
            board.wf(),
            scores_ok(*board, old(move_scores)@),
        ensures
            scores_ok(*board, final(move_scores)@),
            score_view(final(move_scores)@) == rows_from(
                Scorer::Runs,
                *board,
                player,
                0,
                score_view(old(move_scores)@),
            ),
    {
        proof {
            board.lemma_wf_facts();
        }
        let player_bits = board.get_player_bits(player);
        let size = board.size;
        let mut row: usize = 0;
        while row < size
            invariant
                board.wf(),
                size == board.size,
                8 * board.size < isize::MAX,
                16 * board.size <= usize::MAX,
                player_bits@ == board.bits_of(player),
                row <= size,
                scores_ok(*board, move_scores@),
                rows_from(Scorer::Runs, *board, player, row as int, score_view(move_scores@)) == rows_from(
                    Scorer::Runs,
                    *board,
                    player,
                    0,
                    score_view(old(move_scores)@),
                ),
            decreases size - row,
        {
            let mut col: usize = 0;
            while col < size
                invariant
                    board.wf(),
                    size == board.size,
                    8 * board.size < isize::MAX,
                    16 * board.size <= usize::MAX,
                    player_bits@ == board.bits_of(player),
                    row < size,
                    col <= size,
                    scores_ok(*board, move_scores@),
                    rows_from(
                        Scorer::Runs,
                        *board,
                        player,
                        row + 1,
                        cols_from(Scorer::Runs, *board, player, row as int, col as int, score_view(move_scores@)),
                    ) == rows_from(Scorer::Runs, *board, player, 0, score_view(old(move_scores)@)),
                decreases size - col,
            {
                proof {
                    board.lemma_cell_index(row as int, col as int);
                    board.lemma_stone_occ(row as int, col as int);
                }
                let idx = board.index(row, col);
                if Board::is_bit_set(player_bits.as_slice(), idx) {
                    assert(board.stone(row as int, col as int) == Some(player));
                    let mut k: usize = 0;
                    while k < 4
                        invariant
                            board.wf(),
                            size == board.size,
                            8 * board.size < isize::MAX,
                            16 * board.size <= usize::MAX,
                            row < size,
                            col < size,
                            k <= 4,
                            scores_ok(*board, move_scores@),
                            rows_from(
                                Scorer::Runs,
                                *board,
                                player,
                                row + 1,
                                cols_from(
                                    Scorer::Runs,
                                    *board,
                                    player,
                                    row as int,
                                    col + 1,
                                    dirs_from(
                                        Scorer::Runs,
                                        *board,
                                        row as int,
                                        col as int,
                                        player,
                                        k as int,
                                        score_view(move_scores@),
                                    ),
                                ),
                            ) == rows_from(Scorer::Runs, *board, player, 0, score_view(old(move_scores)@)),
                        decreases 4 - k,
                    {
                        let (dx, dy) = DIRECTIONS[k];
                        assert(dx == crate::patterns::dir(k as int).0 && dy == crate::patterns::dir(
                            k as int,
                        ).1);
                        Self::score_run(board, row, col, dx, dy, player, move_scores);
                        k = k + 1;
                    }
                } else {
                    assert(board.stone(row as int, col as int) != Some(player));
                }
                col = col + 1;
            }
            row = row + 1;
        }
    }

    /// The run of `player` through `(row, col)` along `(dx, dy)`.
    fn score_run(
        board: &Board,
        row: usize,
        col: usize,
        dx: isize,
        dy: isize,
        player: Player,
        move_scores: &mut Vec<((usize, usize), i32)>,
    )
        requires
            board.wf(),
            8 * board.size < isize::MAX,
            16 * board.size <= usize::MAX,
            row < board.size,
            col < board.size,
            crate::patterns::unit_dir(dx as int, dy as int),
            scores_ok(*board, old(move_scores)@),
        ensures
            scores_ok(*board, final(move_scores)@),
            score_view(final(move_scores)@) == run_acc(
                *board,
                row as int,
                col as int,
                dx as int,
                dy as int,
                player,
                score_view(old(move_scores)@),
            ),
    {
        let info = PatternAnalyzer::analyze_consecutive_from_position(board, row, col, dx, dy, player, 5);
        let (length, freedom) = match info {
            Some((length, _start_row, _start_col, _total_space, freedom)) => (length, freedom),
            None => {
                return ;
            },
        };
        if length < 2 || length > 4 {
            return ;
        }
        if freedom == PatternFreedom::Flanked {
            return ;
        }
        let score = score_consecutive_pattern(length, freedom);
        let backward = PatternAnalyzer::count_consecutive(board, row, col, -dx, -dy, player);
        let forward = PatternAnalyzer::count_consecutive(board, row, col, dx, dy, player);
        let lo: isize = -(backward as isize + 1);
        let hi: isize = forward as isize + 1;
        let mut offset: isize = lo;
        while offset <= hi
            invariant
                board.wf(),
                8 * board.size < isize::MAX,
                row < board.size,
                col < board.size,
                crate::patterns::unit_dir(dx as int, dy as int),
                lo <= offset <= hi + 1,
                -(board.size as int) - 1 <= lo,
                hi <= board.size + 1,
                score <= crate::ai::heuristic::LIVE_FOUR_SCORE,
                scores_ok(*board, move_scores@),
                run_offsets_acc(
                    *board,
                    row as int,
                    col as int,
                    dx as int,
                    dy as int,
                    player,
                    score,
                    offset as int,
                    hi as int,
                    score_view(move_scores@),
                ) == run_offsets_acc(
                    *board,
                    row as int,
                    col as int,
                    dx as int,
                    dy as int,
                    player,
                    score,
                    lo as int,
                    hi as int,
                    score_view(old(move_scores)@),
                ),
            decreases hi + 1 - offset,
        {
            proof {
                crate::patterns::lemma_unit_mul(dx as int, offset as int);
                crate::patterns::lemma_unit_mul(dy as int, offset as int);
            }
            let r = row as isize + dx * offset;
            let c = col as isize + dy * offset;
            if PatternAnalyzer::is_valid_empty(board, r, c) {
                let mut move_score = score;
                if Self::would_capture(board, r as usize, c as usize, player) {
                    move_score = move_score + CAPTURE_BONUS_MULTIPLIER;
                }
                Generator::add_score(board, move_scores, (r as usize, c as usize), move_score);
            }
            offset = offset + 1;
        }
    }

    /// Whether `player` playing the empty square `(row, col)` captures a
    /// pair. (Which pairs are flanked does not depend on the played square
    /// itself, so the stone need not be placed first.)
    fn would_capture(board: &Board, row: usize, col: usize, player: Player) -> (b: bool)
        requires
            board.wf(),
            (row as int) + 3 < isize::MAX,
            (col as int) + 3 < isize::MAX,
        ensures
            b == (crate::captures::spec_captures(*board, row as int, col as int, player).len() > 0),
    {
        let captures = CaptureHandler::detect_captures(board, row, col, player);
        captures.len() > 0
    }

    /// Every stone of `player` scores its gapped pattern in each direction
    /// onto the empty gaps.
    fn collect_gapped_threats(board: &Board, player: Player, move_scores: &mut Vec<((usize, usize), i32)>)
        requires
            board.wf(),
            scores_ok(*board, old(move_scores)@),
        ensures
            scores_ok(*board, final(move_scores)@),
            score_view(final(move_scores)@) == rows_from(
                Scorer::Patterns,
                *board,
                player,
                0,
                score_view(old(move_scores)@),
            ),
    {
        proof {
            board.lemma_wf_facts();
        }
        let player_bits = board.get_player_bits(player);
        let size = board.size;
        let mut row: usize = 0;
        while row < size
            invariant
                board.wf(),
                size == board.size,
                8 * board.size < isize::MAX,
                player_bits@ == board.bits_of(player),
                row <= size,
                scores_ok(*board, move_scores@),
                rows_from(Scorer::Patterns, *board, player, row as int, score_view(move_scores@)) == rows_from(
                    Scorer::Patterns,
                    *board,
                    player,
                    0,
                    score_view(old(move_scores)@),
                ),
            decreases size - row,
        {
            let mut col: usize = 0;
            while col < size
                invariant
                    board.wf(),
                    size == board.size,
                    8 * board.size < isize::MAX,
                    player_bits@ == board.bits_of(player),
                    row < size,
                    col <= size,
                    scores_ok(*board, move_scores@),
                    rows_from(
                        Scorer::Patterns,
                        *board,
                        player,
                        row + 1,
                        cols_from(Scorer::Patterns, *board, player, row as int, col as int, score_view(move_scores@)),
                    ) == rows_from(Scorer::Patterns, *board, player, 0, score_view(old(move_scores)@)),
                decreases size - col,
            {
                proof {
                    board.lemma_cell_index(row as int, col as int);
                    board.lemma_stone_occ(row as int, col as int);
                }
                let idx = board.index(row, col);
                if Board::is_bit_set(player_bits.as_slice(), idx) {
                    assert(board.stone(row as int, col as int) == Some(player));
                    let mut k: usize = 0;
                    while k < 4
                        invariant
                            board.wf(),
                            size == board.size,
                            8 * board.size < isize::MAX,
                            row < size,
                            col < size,
                            k <= 4,
                            scores_ok(*board, move_scores@),
                            rows_from(
                                Scorer::Patterns,
                                *board,
                                player,
                                row + 1,
                                cols_from(
                                    Scorer::Patterns,
                                    *board,
                                    player,
                                    row as int,
                                    col + 1,
                                    dirs_from(
                                        Scorer::Patterns,
                                        *board,
                                        row as int,
                                        col as int,
                                        player,
                                        k as int,
                                        score_view(move_scores@),
                                    ),
                                ),
                            ) == rows_from(Scorer::Patterns, *board, player, 0, score_view(old(move_scores)@)),
                        decreases 4 - k,
                    {
                        let (dx, dy) = DIRECTIONS[k];
                        assert(dx == crate::patterns::dir(k as int).0 && dy == crate::patterns::dir(
                            k as int,
                        ).1);
                        Self::score_gaps(board, row, col, dx, dy, player, move_scores);
                        k = k + 1;
                    }
                } else {
                    assert(board.stone(row as int, col as int) != Some(player));
                }
                col = col + 1;
            }
            row = row + 1;
        }
    }

    /// The gapped pattern of `player` through `(row, col)` along `(dx, dy)`.
    fn score_gaps(
        board: &Board,
        row: usize,
        col: usize,
        dx: isize,
        dy: isize,
        player: Player,
        move_scores: &mut Vec<((usize, usize), i32)>,
    )
        requires
            board.wf(),
            8 * board.size < isize::MAX,
            row < board.size,
            col < board.size,
            crate::patterns::unit_dir(dx as int, dy as int),
            scores_ok(*board, old(move_scores)@),
        ensures
            scores_ok(*board, final(move_scores)@),
            score_view(final(move_scores)@) == pattern_acc(
                *board,
                row as int,
                col as int,
                dx as int,
                dy as int,
                player,
                score_view(old(move_scores)@),
            ),
    {
        let stones = PatternAnalyzer::collect_gapped_stones(board, row, col, dx, dy, player, 6);
        proof {
            crate::patterns::lemma_gapped_stones_on_board(
                *board,
                row as int,
                col as int,
                dx as int,
                dy as int,
                player,
                6,
            );
            crate::patterns::lemma_gapped_span(
                *board,
                row as int,
                col as int,
                dx as int,
                dy as int,
                player,
                6,
            );
            assert(stones@ == crate::patterns::gap_scan(
                *board,
                row as int,
                col as int,
                -dx,
                -dy,
                player,
                1,
                6,
            ).reverse() + seq![((row as int) as usize, (col as int) as usize)] + crate::patterns::gap_scan(
                *board,
                row as int,
                col as int,
                dx as int,
                dy as int,
                player,
                1,
                6,
            ));
            assert forall|k: int| 0 <= k < stones@.len() implies 4 * (#[trigger] stones@[k]).0
                < isize::MAX && 4 * stones@[k].1 < isize::MAX by {
                assert(board.in_bounds(stones@[k].0 as int, stones@[k].1 as int));
            }
        }
        let (stone_count, gaps) = match PatternAnalyzer::analyze_gapped_pattern(stones.as_slice()) {
            Some((stone_count, gaps, _span)) => (stone_count, gaps),
            None => {
                return ;
            },
        };
        let threat_positions = PatternAnalyzer::extract_gap_positions(board, stones.as_slice(), dx, dy);
        let score = score_gapped_pattern(stone_count, gaps);
        proof {
            crate::patterns::lemma_gap_cells_empty(
                *board,
                stones@[0].0 as int,
                stones@[0].1 as int,
                dx as int,
                dy as int,
                1,
                crate::patterns::spec_gap_steps(stones@[0], stones@.last()),
            );
        }
        let mut i: usize = 0;
        while i < threat_positions.len()
            invariant
                i <= threat_positions@.len(),
                forall|k: int|
                    0 <= k < threat_positions@.len() ==> crate::patterns::valid_empty(
                        *board,
                        (#[trigger] threat_positions@[k]).0 as int,
                        threat_positions@[k].1 as int,
                    ),
                scores_ok(*board, move_scores@),
                cells_acc(threat_positions@, score, i as int, score_view(move_scores@)) == cells_acc(
                    threat_positions@,
                    score,
                    0,
                    score_view(old(move_scores)@),
                ),
            decreases threat_positions@.len() - i,
        {
            Generator::add_score(board, move_scores, threat_positions[i], score);
            i = i + 1;
        }
    }
}

} // verus!

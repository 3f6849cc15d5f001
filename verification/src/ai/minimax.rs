//! Alpha-beta search with a transposition table, driven by MTD(f).
//!
//! The search plays moves on the game state and takes them back; every call
//! leaves the state in the position it found it in.

use vstd::prelude::*;
use std::time::Instant;
use crate::ai::advanced_search::elapsed_millis;
use crate::ai::heuristic::{spec_evaluate, Heuristic, WINNING_SCORE};
use crate::ai::transposition::{entry_cuts, stored_table, EntryType, TranspositionEntry, TranspositionTable};
use crate::board::Player;
use crate::ai::move_generation::{candidate_pool, has_legal_move, legal_for};
use crate::patterns::valid_empty;
use crate::state::{same_position, scan_check, spec_forced, spec_made, spec_terminal, GameState};

verus! {

/// A state the search can start from: well formed, a board of at least one
/// square and small enough that every score fits an `i32`, at least three
/// pairs needed to win by captures, and room in the capture counters for
/// `depth` more moves.
pub open spec fn search_ok(s: GameState, depth: int) -> bool {
    &&& s.wf()
    &&& 1 <= s.board.size
    &&& 30_000 * s.board.size * s.board.size <= i32::MAX
    &&& s.capture_to_win >= 3
    &&& s.max_captures + 8 * depth + 8 <= usize::MAX
    &&& s.min_captures + 8 * depth + 8 <= usize::MAX
}

/// The evaluation's requirements hold in every state the search reaches.
proof fn lemma_evaluate_ok(s: GameState)
    requires
        s.board.wf(),
        30_000 * s.board.size * s.board.size <= i32::MAX,
        s.capture_to_win >= 3,
    ensures
        4 * s.board.size * s.board.size <= usize::MAX,
        crate::ai::heuristic::spec_capturable_pairs(s.board, s.current_player, s.current_player.other())
            > 0 ==> s.capture_to_win >= 3,
        15_000 * crate::ai::heuristic::spec_capturable_pairs(
            s.board,
            s.current_player,
            s.current_player.other(),
        ) <= i32::MAX,
{
    let b = s.board;
    crate::ai::heuristic::lemma_capturable_pairs_bound(b, s.current_player, s.current_player.other());
    let pairs = crate::ai::heuristic::spec_capturable_pairs(b, s.current_player, s.current_player.other());
    assert(15_000 * pairs <= 30_000 * b.size * b.size) by (nonlinear_arith)
        requires
            0 <= pairs <= 2 * b.size * b.size,
    ;
    assert(4 * b.size * b.size <= 30_000 * b.size * b.size) by (nonlinear_arith);
}

/// A position reached when the side to move in `s`, held in any state with
/// the same position, plays the empty square `m` has hash `h`.
pub open spec fn child_hash_of(s: GameState, m: (usize, usize), h: u64) -> bool {
    exists|u: GameState, t: GameState|
        #[trigger] spec_made(u, t, m) && same_position(u, s) && u.wf() && t.wf() && valid_empty(
            u.board,
            m.0 as int,
            m.1 as int,
        ) && t.current_hash == h
}

/// The positions one move away from `s`, and `s` itself, have pairwise
/// different hashes.
pub open spec fn one_ply_hashes_apart(s: GameState) -> bool {
    &&& forall|m: (usize, usize), h: u64| #[trigger] child_hash_of(s, m, h) ==> h != s.current_hash
    &&& forall|m1: (usize, usize), m2: (usize, usize), h: u64|
        #[trigger] child_hash_of(s, m1, h) && #[trigger] child_hash_of(s, m2, h) ==> m1 == m2
}

/// Playing `m` wins the game at once for the side to move in `s`.
pub open spec fn wins_at_once(s: GameState, m: (usize, usize)) -> bool {
    forall|u: GameState, t: GameState|
        #[trigger] spec_made(u, t, m) && same_position(u, s) ==> t.winner == Some(s.current_player)
}

/// The search tries `m` in every state that holds the position of `s` and is
/// not forced to break a five: the board is not empty and `m` is a legal
/// square of the candidate pool.
pub open spec fn searched_move(s: GameState, m: (usize, usize)) -> bool {
    forall|u: GameState|
        same_position(u, s) && u.wf() && !#[trigger] spec_forced(u) ==> {
            &&& !u.board.all_empty()
            &&& candidate_pool(u.board, u.current_player, m)
            &&& legal_for(u.board, u.current_player, m)
        }
}

/// No five of the player who just moved, one that a capture could break,
/// stands on the board of `s`: taking a move back never leaves the side to
/// move forced to break one.
pub open spec fn no_pending_five(s: GameState) -> bool {
    forall|u: GameState|
        same_position(u, s) && u.wf() ==> (#[trigger] scan_check(
            u.board,
            s.current_player.other(),
            s.win_condition as int,
            0,
            0,
        )) is None
}

/// The score of a game won by `p`.
pub open spec fn win_value(p: Player) -> int {
    match p {
        Player::Max => WINNING_SCORE as int,
        Player::Min => -WINNING_SCORE,
    }
}

/// The table agrees with a win by `m` in `s`: every entry under the hash of
/// a position that `m` reaches is exact and holds the winning score of the
/// side to move, and the entry under the hash of `s`, unless it only bounds
/// the value from the side of the loser, is at least as good for the winner.
pub open spec fn table_agrees(e: Map<u64, TranspositionEntry>, s: GameState, m: (usize, usize)) -> bool {
    &&& forall|h: u64|
        #[trigger] child_hash_of(s, m, h) && e.contains_key(h) ==> e[h].value == win_value(
            s.current_player,
        ) && e[h].entry_type == EntryType::Exact
    &&& e.contains_key(s.current_hash) ==> match s.current_player {
        Player::Max => e[s.current_hash].entry_type != EntryType::LowerBound ==> e[s.current_hash].value
            >= WINNING_SCORE,
        Player::Min => e[s.current_hash].entry_type != EntryType::UpperBound ==> e[s.current_hash].value
            <= -WINNING_SCORE,
    }
}

/// The table holds nothing for `s` nor for a position that `m` reaches.
pub open spec fn fresh_for(e: Map<u64, TranspositionEntry>, s: GameState, m: (usize, usize)) -> bool {
    &&& !e.contains_key(s.current_hash)
    &&& forall|h: u64| #[trigger] child_hash_of(s, m, h) ==> !e.contains_key(h)
}

/// Every predicate above means the same of two states with the same position.
proof fn lemma_same_position_law(a: GameState, b: GameState, m: (usize, usize))
    requires
        same_position(a, b),
    ensures
        forall|m2: (usize, usize), h: u64| #[trigger] child_hash_of(a, m2, h) == child_hash_of(b, m2, h),
        wins_at_once(a, m) == wins_at_once(b, m),
        searched_move(a, m) == searched_move(b, m),
        no_pending_five(a) == no_pending_five(b),
        one_ply_hashes_apart(a) == one_ply_hashes_apart(b),
        forall|e: Map<u64, TranspositionEntry>| #[trigger] table_agrees(e, a, m) == table_agrees(e, b, m),
{
    assert forall|m2: (usize, usize), h: u64| #[trigger] child_hash_of(a, m2, h) == child_hash_of(b, m2, h) by {
        if child_hash_of(a, m2, h) {
            let (u, t) = choose|u: GameState, t: GameState|
                #[trigger] spec_made(u, t, m2) && same_position(u, a) && u.wf() && t.wf() && valid_empty(
                    u.board,
                    m2.0 as int,
                    m2.1 as int,
                ) && t.current_hash == h;
            assert(same_position(u, b));
        }
        if child_hash_of(b, m2, h) {
            let (u, t) = choose|u: GameState, t: GameState|
                #[trigger] spec_made(u, t, m2) && same_position(u, b) && u.wf() && t.wf() && valid_empty(
                    u.board,
                    m2.0 as int,
                    m2.1 as int,
                ) && t.current_hash == h;
            assert(same_position(u, a));
        }
    }
    if wins_at_once(a, m) {
        assert forall|u: GameState, t: GameState|
            #[trigger] spec_made(u, t, m) && same_position(u, b) implies t.winner == Some(b.current_player) by {
            assert(same_position(u, a));
        }
    }
    if wins_at_once(b, m) {
        assert forall|u: GameState, t: GameState|
            #[trigger] spec_made(u, t, m) && same_position(u, a) implies t.winner == Some(a.current_player) by {
            assert(same_position(u, b));
        }
    }
    if searched_move(a, m) {
        assert forall|u: GameState| same_position(u, b) && u.wf() && !#[trigger] spec_forced(u) implies {
            &&& !u.board.all_empty()
            &&& candidate_pool(u.board, u.current_player, m)
            &&& legal_for(u.board, u.current_player, m)
        } by {
            assert(same_position(u, a));
        }
    }
    if searched_move(b, m) {
        assert forall|u: GameState| same_position(u, a) && u.wf() && !#[trigger] spec_forced(u) implies {
            &&& !u.board.all_empty()
            &&& candidate_pool(u.board, u.current_player, m)
            &&& legal_for(u.board, u.current_player, m)
        } by {
            assert(same_position(u, b));
        }
    }
    if no_pending_five(a) {
        assert forall|u: GameState| same_position(u, b) && u.wf() implies (#[trigger] scan_check(
            u.board,
            b.current_player.other(),
            b.win_condition as int,
            0,
            0,
        )) is None by {
            assert(same_position(u, a));
        }
    }
    if one_ply_hashes_apart(a) {
        assert forall|m2: (usize, usize), h: u64| #[trigger] child_hash_of(b, m2, h) implies h != b.current_hash by {
            assert(child_hash_of(a, m2, h));
        }
        assert forall|m1: (usize, usize), m2: (usize, usize), h: u64|
            #[trigger] child_hash_of(b, m1, h) && #[trigger] child_hash_of(b, m2, h) implies m1 == m2 by {
            assert(child_hash_of(a, m1, h));
            assert(child_hash_of(a, m2, h));
        }
    }
    if one_ply_hashes_apart(b) {
        assert forall|m2: (usize, usize), h: u64| #[trigger] child_hash_of(a, m2, h) implies h != a.current_hash by {
            assert(child_hash_of(b, m2, h));
        }
        assert forall|m1: (usize, usize), m2: (usize, usize), h: u64|
            #[trigger] child_hash_of(a, m1, h) && #[trigger] child_hash_of(a, m2, h) implies m1 == m2 by {
            assert(child_hash_of(b, m1, h));
            assert(child_hash_of(b, m2, h));
        }
    }
    assert forall|e: Map<u64, TranspositionEntry>| #[trigger] table_agrees(e, a, m) == table_agrees(e, b, m) by {
        if table_agrees(e, a, m) {
            assert forall|h: u64| #[trigger] child_hash_of(b, m, h) && e.contains_key(h) implies e[h].value
                == win_value(b.current_player) && e[h].entry_type == EntryType::Exact by {
                assert(child_hash_of(a, m, h));
            }
        }
        if table_agrees(e, b, m) {
            assert forall|h: u64| #[trigger] child_hash_of(a, m, h) && e.contains_key(h) implies e[h].value
                == win_value(a.current_player) && e[h].entry_type == EntryType::Exact by {
                assert(child_hash_of(b, m, h));
            }
        }
    }
    if no_pending_five(b) {
        assert forall|u: GameState| same_position(u, a) && u.wf() implies (#[trigger] scan_check(
            u.board,
            a.current_player.other(),
            a.win_condition as int,
            0,
            0,
        )) is None by {
            assert(same_position(u, b));
        }
    }
}

/// Under the premises of the win law, `s` is no leaf of the search and its
/// candidate moves include `m`.
proof fn lemma_win_move_searched(s: GameState, m: (usize, usize))
    requires
        s.wf(),
        s.winner is None,
        !spec_forced(s),
        searched_move(s, m),
    ensures
        !spec_terminal(s),
        !s.board.all_empty(),
        candidate_pool(s.board, s.current_player, m),
        legal_for(s.board, s.current_player, m),
        crate::ai::move_generation::pool_has_legal(s.board, s.current_player),
{
    assert(same_position(s, s));
    assert(!spec_forced(s));
    assert(legal_for(s.board, s.current_player, (m.0 as int as usize, m.1 as int as usize)));
    assert(has_legal_move(s.board, s.current_player));
}

/// A depth-0 search of a position that `mv` reaches from `s0` keeps the table
/// in agreement with a win by `m`, and gives the winning score when `mv` is
/// `m`.
proof fn lemma_child_keeps_agreement(
    s0: GameState,
    m: (usize, usize),
    u0: GameState,
    t: GameState,
    mv: (usize, usize),
    e0: Map<u64, TranspositionEntry>,
    e1: Map<u64, TranspositionEntry>,
    r: i32,
    alpha: i32,
    beta: i32,
    age: u32,
    cap: usize,
)
    requires
        table_agrees(e0, s0, m),
        one_ply_hashes_apart(s0),
        wins_at_once(s0, m),
        same_position(u0, s0),
        u0.wf(),
        t.wf(),
        spec_made(u0, t, mv),
        valid_empty(u0.board, mv.0 as int, mv.1 as int),
        ({
            let h = t.current_hash;
            let hit = e0.contains_key(h) && entry_cuts(e0[h], 0, alpha, beta);
            &&& hit ==> r == e0[h].value && e1 == e0
            &&& !hit ==> r == spec_evaluate(t) && e1 == stored_table(
                e0,
                age,
                cap,
                h,
                (TranspositionEntry {
                    value: r,
                    depth: 0,
                    entry_type: EntryType::Exact,
                    best_move: None,
                    age,
                }),
            )
        }),
    ensures
        table_agrees(e1, s0, m),
        mv == m ==> r == win_value(s0.current_player),
{
    let h = t.current_hash;
    assert(child_hash_of(s0, mv, h));
    assert(h != s0.current_hash);
    let hit = e0.contains_key(h) && entry_cuts(e0[h], 0, alpha, beta);
    if mv == m {
        assert(t.winner == Some(s0.current_player));
    }
    if !hit {
        let ne = TranspositionEntry { value: r, depth: 0, entry_type: EntryType::Exact, best_move: None, age };
        crate::ai::transposition::lemma_store_same(e0, age, cap, h, ne);
        crate::ai::transposition::lemma_store_other(e0, age, cap, h, ne, s0.current_hash);
        assert forall|h2: u64| #[trigger] child_hash_of(s0, m, h2) && e1.contains_key(h2) implies e1[h2].value
            == win_value(s0.current_player) && e1[h2].entry_type == EntryType::Exact by {
            if h2 == h {
                assert(mv == m);
            } else {
                crate::ai::transposition::lemma_store_other(e0, age, cap, h, ne, h2);
            }
        }
    }
}

/// Storing the root's result keeps the table in agreement with a win by `m`
/// when the result is at least a win for the side to move wherever it is not
/// a bound from the loser's side.
proof fn lemma_root_store_keeps_agreement(
    s0: GameState,
    m: (usize, usize),
    e0: Map<u64, TranspositionEntry>,
    value: i32,
    alpha: i32,
    beta: i32,
    entry_type: EntryType,
    best: Option<(usize, usize)>,
    age: u32,
    cap: usize,
)
    requires
        table_agrees(e0, s0, m),
        one_ply_hashes_apart(s0),
        alpha < beta,
        entry_type == (if value <= alpha {
            EntryType::UpperBound
        } else if value >= beta {
            EntryType::LowerBound
        } else {
            EntryType::Exact
        }),
        s0.current_player == Player::Max && value < beta ==> value >= WINNING_SCORE,
        s0.current_player == Player::Min && value > alpha ==> value <= -WINNING_SCORE,
    ensures
        table_agrees(
            stored_table(
                e0,
                age,
                cap,
                s0.current_hash,
                (TranspositionEntry { value, depth: 1, entry_type, best_move: best, age }),
            ),
            s0,
            m,
        ),
{
    let ne = TranspositionEntry { value, depth: 1, entry_type, best_move: best, age };
    crate::ai::transposition::lemma_store_same(e0, age, cap, s0.current_hash, ne);
    let e1 = stored_table(e0, age, cap, s0.current_hash, ne);
    if e1[s0.current_hash] == ne {
        match s0.current_player {
            Player::Max => {
                assert(entry_type != EntryType::LowerBound ==> value < beta);
            },
            Player::Min => {
                assert(entry_type != EntryType::UpperBound ==> value > alpha);
            },
        }
    }
    assert forall|h2: u64| #[trigger] child_hash_of(s0, m, h2) && e1.contains_key(h2) implies e1[h2].value
        == win_value(s0.current_player) && e1[h2].entry_type == EntryType::Exact by {
        crate::ai::transposition::lemma_store_other(e0, age, cap, s0.current_hash, ne, h2);
    }
}

/// Whether the time limit, if any, has passed since `start_time`: never
/// without a limit, always with a limit of 0 ms; for a positive limit the
/// answer depends on the clock.
fn time_up(start_time: &Instant, time_limit_ms: Option<u64>) -> (b: bool)
    ensures
        time_limit_ms is None ==> !b,
        time_limit_ms == Some(0u64) ==> b,
{
    match time_limit_ms {
        Some(limit) => elapsed_millis(start_time) >= limit,
        None => false,
    }
}

/// Alpha-beta search of `depth` plies with the window `(alpha, beta)`,
/// reading and filling the transposition table. Returns the value found and
/// the number of nodes visited. When the time limit has passed it returns 0.
///
/// The value is not a function of the position and depth alone: a table
/// entry stored deeper is used at a shallower depth, two positions with the
/// same hash share an entry, and `undo_move` recomputes the square of a
/// pending breakable five by scanning the board, where `make_move` recorded
/// the square just played, so later siblings are searched from a state whose
/// check square may differ. The contract therefore fixes the value at the
/// leaves, and at one ply above them when the side to move (whose turn
/// `maximizing_player` always names) has a move that wins at once: then a
/// result inside the window is at least that side's winning score.
fn alpha_beta_with_memory(
    state: &mut GameState,
    depth: i32,
    alpha: i32,
    beta: i32,
    maximizing_player: bool,
    tt: &mut TranspositionTable,
    start_time: &Instant,
    time_limit_ms: Option<u64>,
    Ghost(win_move): Ghost<(usize, usize)>,
) -> (r: (i32, u64))
    requires
        0 <= depth,
        search_ok(*old(state), depth as int),
        maximizing_player == (old(state).current_player == Player::Max),
    ensures
        final(state).wf(),
        same_position(*final(state), *old(state)),
        r.1 >= 1,
        final(tt).age() == old(tt).age(),
        final(tt).capacity() == old(tt).capacity(),
        ({
            let h = old(state).current_hash;
            time_limit_ms is None && !old(tt).entries().contains_key(h) && (depth == 0
                || old(state).winner is Some) ==> {
                &&& final(tt).entries().contains_key(h)
                &&& final(tt).entries()[h].value == r.0
                &&& final(tt).entries()[h].depth == depth
                &&& final(tt).entries()[h].entry_type == EntryType::Exact
                &&& old(state).winner == Some(Player::Max) ==> r.0 == WINNING_SCORE
                &&& old(state).winner == Some(Player::Min) ==> r.0 == -WINNING_SCORE
            }
        }),
        time_limit_ms is None && depth == 0 ==> ({
            let h = old(state).current_hash;
            let hit = old(tt).entries().contains_key(h) && entry_cuts(
                old(tt).entries()[h],
                depth,
                alpha,
                beta,
            );
            &&& hit ==> r.0 == old(tt).entries()[h].value && final(tt).entries() == old(
                tt,
            ).entries()
            &&& !hit ==> r.0 == spec_evaluate(*old(state)) && final(tt).entries() == stored_table(
                old(tt).entries(),
                old(tt).age(),
                old(tt).capacity(),
                h,
                (TranspositionEntry {
                    value: r.0,
                    depth,
                    entry_type: EntryType::Exact,
                    best_move: None,
                    age: old(tt).age(),
                }),
            )
        }),
        no_pending_five(*old(state)) && !spec_forced(*old(state)) ==> !spec_forced(*final(state)),
        depth == 1 && time_limit_ms is None && alpha < beta && old(state).winner is None && !spec_forced(
            *old(state),
        ) && wins_at_once(*old(state), win_move) && searched_move(*old(state), win_move)
            && one_ply_hashes_apart(*old(state)) && table_agrees(old(tt).entries(), *old(state), win_move)
            ==> {
            &&& table_agrees(final(tt).entries(), *old(state), win_move)
            &&& old(state).current_player == Player::Max && r.0 < beta ==> r.0 >= WINNING_SCORE
            &&& old(state).current_player == Player::Min && r.0 > alpha ==> r.0 <= -WINNING_SCORE
        },
    decreases depth,
{
    let ghost s0 = *state;
    let ghost tt0 = *tt;
    let ghost law = depth == 1 && time_limit_ms is None && alpha < beta && s0.winner is None
        && !spec_forced(s0) && wins_at_once(s0, win_move) && searched_move(s0, win_move)
        && one_ply_hashes_apart(s0) && table_agrees(tt0.entries(), s0, win_move);
    let original_alpha = alpha;
    let original_beta = beta;
    let mut alpha = alpha;
    let mut beta = beta;
    let hash_key = state.hash();
    let mut nodes_visited: u64 = 1;

    if time_up(start_time, time_limit_ms) {
        return (0, nodes_visited);
    }
    let tt_result = tt.probe(hash_key, depth, alpha, beta);
    if tt_result.cutoff {
        return (tt_result.value.unwrap(), nodes_visited);
    }
    proof {
        if law {
            lemma_win_move_searched(s0, win_move);
        }
    }
    if depth == 0 || state.is_terminal() {
        proof {
            lemma_evaluate_ok(*state);
        }
        let eval = Heuristic::evaluate(state, depth);
        tt.store(hash_key, eval, depth, EntryType::Exact, None);
        proof {
            if !tt0.entries().contains_key(hash_key) {
                crate::ai::transposition::lemma_store_absent(
                    tt0.entries(),
                    tt0.age(),
                    tt0.capacity(),
                    hash_key,
                    crate::ai::transposition::TranspositionEntry {
                        value: eval,
                        depth,
                        entry_type: EntryType::Exact,
                        best_move: None,
                        age: tt0.age(),
                    },
                );
            }
        }
        return (eval, nodes_visited);
    }
    let mut moves = state.get_candidate_moves();
    proof {
        if law {
            assert(moves@.contains(win_move));
        }
    }
    assert(forall|k: int|
        0 <= k < moves@.len() ==> crate::patterns::valid_empty(
            s0.board,
            (#[trigger] moves@[k]).0 as int,
            moves@[k].1 as int,
        ));

    // The move stored for this position is tried first.
    if let Some(best) = tt_result.best_move {
        let mut pos: usize = 0;
        while pos < moves.len() && !(moves[pos].0 == best.0 && moves[pos].1 == best.1)
            invariant
                pos <= moves.len(),
            decreases moves.len() - pos,
        {
            pos = pos + 1;
        }
        if pos < moves.len() {
            let ghost before = moves@;
            let first = moves[0];
            let found = moves[pos];
            moves.set(0, found);
            moves.set(pos, first);
            proof {
                if law {
                    let k0 = choose|k: int| 0 <= k < before.len() && before[k] == win_move;
                    if k0 == 0 {
                        assert(moves@[pos as int] == win_move);
                    } else if k0 == pos {
                        assert(moves@[0] == win_move);
                    } else {
                        assert(moves@[k0] == win_move);
                    }
                }
            }
            assert forall|k: int| 0 <= k < moves@.len() implies crate::patterns::valid_empty(
                s0.board,
                (#[trigger] moves@[k]).0 as int,
                moves@[k].1 as int,
            ) by {
                if k == 0 {
                    assert(moves@[k] == before[pos as int]);
                } else if k == pos {
                    assert(moves@[k] == before[0]);
                } else {
                    assert(moves@[k] == before[k]);
                }
            }
        }
    }

    let n = moves.len();
    let ghost k_w: int = if law {
        choose|k: int| 0 <= k < moves@.len() && moves@[k] == win_move
    } else {
        0
    };
    let mut best_move: Option<(usize, usize)> = None;
    let mut value: i32;
    let mut i: usize = 0;
    if maximizing_player {
        value = i32::MIN;
        while i < n
            invariant
                n == moves@.len(),
                i <= n,
                0 < depth,
                search_ok(s0, depth as int),
                s0.winner is None,
                maximizing_player,
                s0.current_player == Player::Max,
                beta == original_beta,
                law ==> depth == 1 && time_limit_ms is None && one_ply_hashes_apart(s0) && wins_at_once(
                    s0,
                    win_move,
                ) && 0 <= k_w < n && moves@[k_w] == win_move && table_agrees(tt.entries(), s0, win_move),
                law ==> (i > k_w ==> value >= WINNING_SCORE),
                no_pending_five(s0) && !spec_forced(s0) ==> !spec_forced(*state),
                state.wf(),
                same_position(*state, s0),
                forall|k: int|
                    0 <= k < n ==> crate::patterns::valid_empty(
                        s0.board,
                        (#[trigger] moves@[k]).0 as int,
                        moves@[k].1 as int,
                    ),
                nodes_visited >= 1,
                tt.age() == tt0.age(),
                tt.capacity() == tt0.capacity(),
            ensures
                i >= n || value >= beta,
            decreases n - i,
        {
            let move_ = moves[i];
            let ghost u0 = *state;
            proof {
                assert(crate::patterns::valid_empty(s0.board, move_.0 as int, move_.1 as int));
                assert(u0.board.stone(move_.0 as int, move_.1 as int) == s0.board.stone(
                    move_.0 as int,
                    move_.1 as int,
                ));
            }
            state.make_move(move_);
            let ghost t = *state;
            proof {
                assert(t.current_player == s0.current_player.other());
                crate::captures::lemma_captures_valid(
                    u0.board,
                    move_.0 as int,
                    move_.1 as int,
                    u0.current_player,
                );
            }
            let ghost tb = *tt;
            let (eval, child_nodes) = alpha_beta_with_memory(
                state,
                depth - 1,
                alpha,
                beta,
                false,
                tt,
                start_time,
                time_limit_ms,
                Ghost(win_move),
            );
            proof {
                if law {
                    lemma_child_keeps_agreement(
                        s0,
                        win_move,
                        u0,
                        t,
                        move_,
                        tb.entries(),
                        tt.entries(),
                        eval,
                        alpha,
                        beta,
                        tb.age(),
                        tb.capacity(),
                    );
                }
            }
            let ghost f = *state;
            proof {
                crate::state::lemma_undo_ready_in_position(u0, t, f, move_);
            }
            state.undo_move(move_);
            proof {
                crate::state::lemma_undo_in_position(u0, t, f, *state, move_);
                if no_pending_five(s0) && !spec_forced(s0) {
                    assert(f.current_player == s0.current_player.other());
                    assert((scan_check(
                        state.board,
                        s0.current_player.other(),
                        s0.win_condition as int,
                        0,
                        0,
                    )) is None);
                }
            }
            nodes_visited = nodes_visited.saturating_add(child_nodes);
            if eval > value {
                value = eval;
                best_move = Some(move_);
            }
            if value >= beta {
                break;
            }
            if value > alpha {
                alpha = value;
            }
            i = i + 1;
        }
    } else {
        value = i32::MAX;
        while i < n
            invariant
                n == moves@.len(),
                i <= n,
                0 < depth,
                search_ok(s0, depth as int),
                s0.winner is None,
                !maximizing_player,
                s0.current_player == Player::Min,
                alpha == original_alpha,
                law ==> depth == 1 && time_limit_ms is None && one_ply_hashes_apart(s0) && wins_at_once(
                    s0,
                    win_move,
                ) && 0 <= k_w < n && moves@[k_w] == win_move && table_agrees(tt.entries(), s0, win_move),
                law ==> (i > k_w ==> value <= -WINNING_SCORE),
                no_pending_five(s0) && !spec_forced(s0) ==> !spec_forced(*state),
                state.wf(),
                same_position(*state, s0),
                forall|k: int|
                    0 <= k < n ==> crate::patterns::valid_empty(
                        s0.board,
                        (#[trigger] moves@[k]).0 as int,
                        moves@[k].1 as int,
                    ),
                nodes_visited >= 1,
                tt.age() == tt0.age(),
                tt.capacity() == tt0.capacity(),
            ensures
                i >= n || value <= alpha,
            decreases n - i,
        {
            let move_ = moves[i];
            let ghost u0 = *state;
            proof {
                assert(crate::patterns::valid_empty(s0.board, move_.0 as int, move_.1 as int));
                assert(u0.board.stone(move_.0 as int, move_.1 as int) == s0.board.stone(
                    move_.0 as int,
                    move_.1 as int,
                ));
            }
            state.make_move(move_);
            let ghost t = *state;
            proof {
                assert(t.current_player == s0.current_player.other());
                crate::captures::lemma_captures_valid(
                    u0.board,
                    move_.0 as int,
                    move_.1 as int,
                    u0.current_player,
                );
            }
            let ghost tb = *tt;
            let (eval, child_nodes) = alpha_beta_with_memory(
                state,
                depth - 1,
                alpha,
                beta,
                true,
                tt,
                start_time,
                time_limit_ms,
                Ghost(win_move),
            );
            proof {
                if law {
                    lemma_child_keeps_agreement(
                        s0,
                        win_move,
                        u0,
                        t,
                        move_,
                        tb.entries(),
                        tt.entries(),
                        eval,
                        alpha,
                        beta,
                        tb.age(),
                        tb.capacity(),
                    );
                }
            }
            let ghost f = *state;
            proof {
                crate::state::lemma_undo_ready_in_position(u0, t, f, move_);
            }
            state.undo_move(move_);
            proof {
                crate::state::lemma_undo_in_position(u0, t, f, *state, move_);
                if no_pending_five(s0) && !spec_forced(s0) {
                    assert(f.current_player == s0.current_player.other());
                    assert((scan_check(
                        state.board,
                        s0.current_player.other(),
                        s0.win_condition as int,
                        0,
                        0,
                    )) is None);
                }
            }
            nodes_visited = nodes_visited.saturating_add(child_nodes);
            if eval < value {
                value = eval;
                best_move = Some(move_);
            }
            if value <= alpha {
                break;
            }
            if value < beta {
                beta = value;
            }
            i = i + 1;
        }
    }

    let entry_type = if value <= original_alpha {
        EntryType::UpperBound
    } else if value >= original_beta {
        EntryType::LowerBound
    } else {
        EntryType::Exact
    };
    tt.store(hash_key, value, depth, entry_type, best_move);
    (value, nodes_visited)
}

/// MTD(f): zero-window searches around a guess, each narrowing the bounds
/// on the value, until the bounds meet or the time limit passes. Returns the
/// last value found, the nodes searched and the best move that the table
/// holds for the position. Its value is that of the alpha-beta searches, so
/// for the reasons given at `alpha_beta_with_memory` it is not stated as a
/// minimax value in general. What is stated is the case of a win in one: in
/// a one-ply search where the side to move has a candidate move that wins at
/// once, the result is at least that side's winning score (Min minimises,
/// Max maximises), provided no five is pending, the table starts with
/// nothing for the position or for where the winning move leads, and no two
/// of the positions searched share a hash.
pub fn mtdf(
    state: &mut GameState,
    first_guess: i32,
    depth: i32,
    tt: &mut TranspositionTable,
    start_time: &Instant,
    time_limit_ms: Option<u64>,
) -> (r: (i32, u64, Option<(usize, usize)>))
    requires
        0 <= depth,
        search_ok(*old(state), depth as int),
    ensures
        final(state).wf(),
        same_position(*final(state), *old(state)),
        r.2 == (if final(tt).entries().contains_key(old(state).current_hash) {
            final(tt).entries()[old(state).current_hash].best_move
        } else {
            None
        }),
        time_limit_ms is None ==> r.1 >= 1,
        final(tt).age() == old(tt).age(),
        final(tt).capacity() == old(tt).capacity(),
        ({
            let s = *old(state);
            depth == 1 && time_limit_ms is None && s.winner is None && !spec_forced(s) && no_pending_five(s)
                && one_ply_hashes_apart(s) && (exists|m: (usize, usize)|
                #[trigger] wins_at_once(s, m) && searched_move(s, m) && fresh_for(old(tt).entries(), s, m))
                ==> if s.current_player == Player::Max {
                r.0 >= WINNING_SCORE
            } else {
                r.0 <= -WINNING_SCORE
            }
        }),
{
    let ghost s0 = *state;
    let ghost tt0 = *tt;
    let ghost law = depth == 1 && time_limit_ms is None && s0.winner is None && !spec_forced(s0)
        && no_pending_five(s0) && one_ply_hashes_apart(s0) && (exists|m: (usize, usize)|
        #[trigger] wins_at_once(s0, m) && searched_move(s0, m) && fresh_for(tt0.entries(), s0, m));
    let ghost m_w = choose|m: (usize, usize)|
        #[trigger] wins_at_once(s0, m) && searched_move(s0, m) && fresh_for(tt0.entries(), s0, m);
    let mut g = first_guess;
    let mut upper_bound = i32::MAX;
    let mut lower_bound = i32::MIN;
    let mut total_nodes: u64 = 0;
    let is_maximizing = match state.current_player {
        Player::Max => true,
        Player::Min => false,
    };
    while lower_bound < upper_bound
        invariant
            lower_bound < upper_bound ==> lower_bound <= g <= upper_bound,
            total_nodes >= 1 || (lower_bound == i32::MIN && upper_bound == i32::MAX),
            0 <= depth,
            search_ok(s0, depth as int),
            is_maximizing == (s0.current_player == Player::Max),
            state.wf(),
            same_position(*state, s0),
            tt.age() == tt0.age(),
            tt.capacity() == tt0.capacity(),
            g == lower_bound || g == upper_bound || (lower_bound == i32::MIN && upper_bound == i32::MAX),
            law ==> depth == 1 && time_limit_ms is None && s0.winner is None && no_pending_five(s0)
                && one_ply_hashes_apart(s0) && wins_at_once(s0, m_w) && searched_move(s0, m_w),
            law ==> !spec_forced(*state) && table_agrees(tt.entries(), s0, m_w),
            law && s0.current_player == Player::Min ==> lower_bound <= -WINNING_SCORE,
            law && s0.current_player == Player::Max ==> upper_bound >= WINNING_SCORE,
        ensures
            law && s0.current_player == Player::Min ==> g <= -WINNING_SCORE,
            law && s0.current_player == Player::Max ==> g >= WINNING_SCORE,
            state.wf(),
            same_position(*state, s0),
            tt.age() == tt0.age(),
            tt.capacity() == tt0.capacity(),
            time_limit_ms is None ==> total_nodes >= 1,
        decreases if lower_bound < upper_bound {
            upper_bound - lower_bound
        } else {
            0
        },
    {
        if time_up(start_time, time_limit_ms) {
            break;
        }
        let beta = if g == lower_bound {
            g + 1
        } else {
            g
        };
        let ghost u = *state;
        proof {
            if law {
                lemma_same_position_law(u, s0, m_w);
            }
        }
        let (value, nodes) = alpha_beta_with_memory(
            state,
            depth,
            beta - 1,
            beta,
            is_maximizing,
            tt,
            start_time,
            time_limit_ms,
            Ghost(m_w),
        );
        proof {
            if law {
                lemma_same_position_law(u, s0, m_w);
            }
        }
        total_nodes = total_nodes.saturating_add(nodes);
        if value < beta {
            upper_bound = value;
        } else {
            lower_bound = value;
        }
        g = value;
    }
    let hash_key = state.hash();
    let best_move = tt.get_best_move(hash_key);
    (g, total_nodes, best_move)
}

} // verus!

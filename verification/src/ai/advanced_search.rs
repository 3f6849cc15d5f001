//! Search bookkeeping: killer moves per depth, the history table of moves
//! that caused cutoffs, node counting and the time limit of a search.

use vstd::prelude::*;
use crate::board::Player;
use crate::patterns::{step, DIRECTIONS};
use std::time::Instant;

verus! {

#[verifier::external_type_specification]
#[verifier::external_body]
pub struct ExInstant(Instant);

/// `std::time::Instant::now()`: the current instant. Nothing is claimed of it.
#[verifier::external_body]
pub(crate) fn instant_now() -> (t: Instant) {
    Instant::now()
}

/// Milliseconds elapsed since `start` (`Instant::elapsed`, saturated into a
/// `u64`). It depends on the clock; nothing is claimed of the value.
#[verifier::external_body]
pub(crate) fn elapsed_millis(start: &Instant) -> (ms: u64) {
    u64::try_from(start.elapsed().as_millis()).unwrap_or(u64::MAX)
}

/// Number of depths with their own killer moves.
pub const MAX_DEPTH: usize = 32;

/// The two most recent distinct moves that caused a cutoff at one depth.
#[derive(Debug, Clone, Copy)]
pub struct KillerMoves {
    primary: Option<(usize, usize)>,
    secondary: Option<(usize, usize)>,
}

impl KillerMoves {
    /// The most recent killer.
    pub closed spec fn first(self) -> Option<(usize, usize)> {
        self.primary
    }

    /// The killer before it.
    pub closed spec fn second(self) -> Option<(usize, usize)> {
        self.secondary
    }

    /// A second killer only after a first, and never the same move twice.
    #[verifier::type_invariant]
    closed spec fn inv(self) -> bool {
        &&& self.secondary is Some ==> self.primary is Some
        &&& self.primary is Some ==> self.secondary != self.primary
    }

    pub fn new() -> (k: KillerMoves)
        ensures
            k.first() is None,
            k.second() is None,
    {
        KillerMoves { primary: None, secondary: None }
    }

    /// Records a cutoff move: it becomes the first killer and the old first
    /// becomes the second, unless it already is the first.
    pub fn store(&mut self, move_: (usize, usize))
        ensures
            old(self).first() == Some(move_) ==> *final(self) == *old(self),
            old(self).first() != Some(move_) ==> final(self).first() == Some(move_)
                && final(self).second() == old(self).first(),
            final(self).first() == Some(move_),
            final(self).second() != final(self).first(),
    {
        proof {
            use_type_invariant(&*self);
        }
        let same = match self.primary {
            Some(p) => p.0 == move_.0 && p.1 == move_.1,
            None => false,
        };
        if !same {
            *self = KillerMoves { primary: Some(move_), secondary: self.primary };
        }
    }

    /// Whether `move_` is one of the two killers.
    pub fn contains(&self, move_: (usize, usize)) -> (b: bool)
        ensures
            b == (self.first() == Some(move_) || self.second() == Some(move_)),
    {
        let in_primary = match self.primary {
            Some(p) => p.0 == move_.0 && p.1 == move_.1,
            None => false,
        };
        let in_secondary = match self.secondary {
            Some(p) => p.0 == move_.0 && p.1 == move_.1,
            None => false,
        };
        in_primary || in_secondary
    }

    /// The killers, most recent first; the two are distinct, and there is a
    /// second only after a first.
    pub fn get_moves(&self) -> (moves: Vec<(usize, usize)>)
        ensures
            moves@ == killer_seq(*self),
            moves@.len() == 2 ==> moves@[0] != moves@[1],
            self.second() is Some ==> self.first() is Some,
    {
        proof {
            use_type_invariant(self);
        }
        let mut moves: Vec<(usize, usize)> = Vec::new();
        if let Some(mv) = self.primary {
            moves.push(mv);
        }
        if let Some(mv) = self.secondary {
            moves.push(mv);
        }
        moves
    }
}

/// The killers of `k`, most recent first, absent ones left out.
pub open spec fn killer_seq(k: KillerMoves) -> Seq<(usize, usize)> {
    let first: Seq<(usize, usize)> = match k.first() {
        Some(m) => seq![m],
        None => Seq::empty(),
    };
    match k.second() {
        Some(m) => first.push(m),
        None => first,
    }
}

/// Side length of the history table's board.
pub const HISTORY_SIZE: usize = 19;

/// Flat slot of `(player, row, col)` in the history table.
pub open spec fn history_slot(player: Player, row: int, col: int) -> int {
    (if player == Player::Max {
        0int
    } else {
        1int
    }) * 361 + row * 19 + col
}

/// Cutoff scores per player and square of a 19x19 board.
#[derive(Debug)]
pub struct HistoryTable {
    table: Vec<i32>,
}

impl HistoryTable {
    /// The score stored for `player` on `(row, col)`.
    pub closed spec fn score(self, player: Player, row: int, col: int) -> int {
        self.table@[history_slot(player, row, col)] as int
    }

    /// One non-negative score per player and square.
    pub closed spec fn wf(self) -> bool {
        &&& self.table@.len() == 722
        &&& forall|i: int| 0 <= i < 722 ==> #[trigger] self.table@[i] >= 0
    }

    pub closed spec fn all_zero(self) -> bool {
        forall|i: int| 0 <= i < 722 ==> #[trigger] self.table@[i] == 0
    }

    /// A cleared history scores every square 0.
    pub proof fn lemma_all_zero_scores(self)
        requires
            self.all_zero(),
        ensures
            forall|p: Player, r: int, c: int|
                0 <= r < 19 && 0 <= c < 19 ==> #[trigger] self.score(p, r, c) == 0,
    {
        assert forall|p: Player, r: int, c: int| 0 <= r < 19 && 0 <= c < 19 implies #[trigger] self.score(
            p,
            r,
            c,
        ) == 0 by {
            assert(0 <= history_slot(p, r, c) < 722);
        }
    }

    pub fn new() -> (h: HistoryTable)
        ensures
            h.wf(),
            h.all_zero(),
    {
        let mut table: Vec<i32> = Vec::new();
        let mut i: usize = 0;
        while i < 722
            invariant
                i <= 722,
                table@.len() == i,
                forall|j: int| 0 <= j < i ==> #[trigger] table@[j] == 0,
            decreases 722 - i,
        {
            table.push(0);
            i = i + 1;
        }
        HistoryTable { table }
    }

    /// Adds `depth * depth` to the score of `move_` for `player`; squares off
    /// the 19x19 board are ignored.
    pub fn record_cutoff(&mut self, move_: (usize, usize), player: Player, depth: i32)
        requires
            old(self).wf(),
            move_.0 < 19 && move_.1 < 19 ==> old(self).score(player, move_.0 as int, move_.1 as int)
                + depth * depth <= i32::MAX,
        ensures
            final(self).wf(),
            forall|p: Player, r: int, c: int|
                0 <= r < 19 && 0 <= c < 19 ==> #[trigger] final(self).score(p, r, c) == if p == player
                    && r == move_.0 && c == move_.1 {
                    old(self).score(p, r, c) + depth * depth
                } else {
                    old(self).score(p, r, c)
                },
    {
        let player_idx: usize = if player == Player::Max {
            0
        } else {
            1
        };
        let (row, col) = move_;
        if row < 19 && col < 19 {
            let slot = player_idx * 361 + row * 19 + col;
            assert(slot == history_slot(player, row as int, col as int));
            assert(depth * depth >= 0) by (nonlinear_arith);
            assert(depth * depth <= i32::MAX) by (nonlinear_arith)
                requires
                    self.table@[slot as int] >= 0,
                    self.table@[slot as int] + depth * depth <= i32::MAX,
            ;
            let sq = depth * depth;
            let v = self.table[slot] + sq;
            self.table.set(slot, v);
            proof {
                assert forall|p: Player, r: int, c: int| 0 <= r < 19 && 0 <= c < 19 implies #[trigger] self.score(
                    p,
                    r,
                    c,
                ) == if p == player && r == row && c == col {
                    old(self).score(p, r, c) + depth * depth
                } else {
                    old(self).score(p, r, c)
                } by {
                    let s2 = history_slot(p, r, c);
                    assert(0 <= s2 < 722);
                    if s2 == slot {
                        assert(p == player && r == row && c == col);
                    }
                }
            }
        }
    }

    /// The score of `move_` for `player`; 0 off the 19x19 board.
    pub fn get_score(&self, move_: (usize, usize), player: Player) -> (s: i32)
        requires
            self.wf(),
        ensures
            s == if move_.0 < 19 && move_.1 < 19 {
                self.score(player, move_.0 as int, move_.1 as int)
            } else {
                0
            },
    {
        let player_idx: usize = if player == Player::Max {
            0
        } else {
            1
        };
        let (row, col) = move_;
        if row < 19 && col < 19 {
            self.table[player_idx * 361 + row * 19 + col]
        } else {
            0
        }
    }

    /// Resets every score to 0.
    pub fn clear(&mut self)
        ensures
            final(self).wf(),
            final(self).all_zero(),
    {
        *self = Self::new();
    }

    /// Halves every score, so that recent cutoffs weigh more.
    pub fn age(&mut self)
        requires
            old(self).wf(),
        ensures
            final(self).wf(),
            forall|p: Player, r: int, c: int|
                0 <= r < 19 && 0 <= c < 19 ==> #[trigger] final(self).score(p, r, c) == old(self).score(
                    p,
                    r,
                    c,
                ) / 2,
    {
        let mut i: usize = 0;
        while i < 722
            invariant
                i <= 722,
                self.table@.len() == 722,
                forall|j: int| 0 <= j < 722 ==> #[trigger] self.table@[j] >= 0,
                forall|j: int|
                    0 <= j < 722 ==> #[trigger] self.table@[j] == if j < i {
                        old(self).table@[j] / 2
                    } else {
                        old(self).table@[j] as int
                    },
            decreases 722 - i,
        {
            let v = self.table[i] / 2;
            self.table.set(i, v);
            i = i + 1;
        }
        proof {
            assert forall|p: Player, r: int, c: int| 0 <= r < 19 && 0 <= c < 19 implies #[trigger] self.score(
                p,
                r,
                c,
            ) == old(self).score(p, r, c) / 2 by {
                assert(0 <= history_slot(p, r, c) < 722);
            }
        }
    }
}

/// Killer moves, history and the node count and clock of one search.
pub struct SearchContext {
    killer_moves: Vec<KillerMoves>,
    history_table: HistoryTable,
    start_time: Instant,
    time_limit_ms: Option<u64>,
    nodes_searched: usize,
}

impl SearchContext {
    pub closed spec fn wf(self) -> bool {
        &&& self.killer_moves@.len() == MAX_DEPTH
        &&& self.history_table.wf()
    }

    pub closed spec fn killers(self, depth: int) -> KillerMoves {
        self.killer_moves@[depth]
    }

    pub closed spec fn history(self) -> HistoryTable {
        self.history_table
    }

    pub closed spec fn time_limit(self) -> Option<u64> {
        self.time_limit_ms
    }

    pub closed spec fn nodes(self) -> usize {
        self.nodes_searched
    }

    /// Empty killers at every depth, a cleared history, no time limit.
    pub fn new() -> (ctx: SearchContext)
        ensures
            ctx.wf(),
            forall|d: int| 0 <= d < MAX_DEPTH ==> (#[trigger] ctx.killers(d)).first() is None && ctx.killers(d).second() is None,
            ctx.history().all_zero(),
            ctx.time_limit() is None,
            ctx.nodes() == 0,
    {
        let mut killer_moves: Vec<KillerMoves> = Vec::new();
        let mut i: usize = 0;
        while i < MAX_DEPTH
            invariant
                i <= MAX_DEPTH,
                killer_moves@.len() == i,
                forall|j: int| 0 <= j < i ==> (#[trigger] killer_moves@[j]).first() is None && killer_moves@[j].second() is None,
            decreases MAX_DEPTH - i,
        {
            killer_moves.push(KillerMoves::new());
            i = i + 1;
        }
        SearchContext {
            killer_moves,
            history_table: HistoryTable::new(),
            start_time: instant_now(),
            time_limit_ms: None,
            nodes_searched: 0,
        }
    }

    /// Starts a new search: the history is aged (halved), the clock restarts,
    /// the time limit is replaced and the node count is reset.
    pub fn new_search(&mut self, time_limit_ms: Option<u64>)
        requires
            old(self).wf(),
        ensures
            final(self).wf(),
            forall|p: Player, r: int, c: int|
                0 <= r < 19 && 0 <= c < 19 ==> #[trigger] final(self).history().score(p, r, c)
                    == old(self).history().score(p, r, c) / 2,
            forall|d: int| 0 <= d < MAX_DEPTH ==> #[trigger] final(self).killers(d) == old(self).killers(d),
            final(self).time_limit() == time_limit_ms,
            final(self).nodes() == 0,
    {
        self.history_table.age();
        self.start_time = instant_now();
        self.time_limit_ms = time_limit_ms;
        self.nodes_searched = 0;
    }

    /// Whether the time limit has passed; never, without a limit, and always
    /// with a limit of 0 ms. For a positive limit the answer depends on the
    /// clock.
    pub fn is_time_up(&self) -> (b: bool)
        ensures
            self.time_limit() is None ==> !b,
            self.time_limit() == Some(0u64) ==> b,
    {
        match self.time_limit_ms {
            Some(limit) => Self::limit_reached(elapsed_millis(&self.start_time), limit),
            None => false,
        }
    }

    /// Whether `elapsed` milliseconds reach a limit of `limit` milliseconds.
    pub fn limit_reached(elapsed: u64, limit: u64) -> (b: bool)
        ensures
            b == (elapsed >= limit),
    {
        elapsed >= limit
    }

    pub fn get_nodes_searched(&self) -> (n: usize)
        ensures
            n == self.nodes(),
    {
        self.nodes_searched
    }

    /// Records a cutoff move as a killer at `depth` (depths past the last
    /// share the last slot).
    pub fn record_killer(&mut self, move_: (usize, usize), depth: usize)
        requires
            old(self).wf(),
        ensures
            final(self).wf(),
            ({
                let d = if depth < MAX_DEPTH {
                    depth as int
                } else {
                    MAX_DEPTH - 1
                };
                &&& forall|d2: int|
                    0 <= d2 < MAX_DEPTH && d2 != d ==> #[trigger] final(self).killers(d2) == old(self).killers(d2)
                &&& old(self).killers(d).first() == Some(move_) ==> final(self).killers(d) == old(self).killers(d)
                &&& old(self).killers(d).first() != Some(move_) ==> final(self).killers(d).first()
                    == Some(move_) && final(self).killers(d).second() == old(self).killers(d).first()
            }),
            final(self).history() == old(self).history(),
            final(self).time_limit() == old(self).time_limit(),
            final(self).nodes() == old(self).nodes(),
    {
        let depth_idx = if depth < MAX_DEPTH - 1 {
            depth
        } else {
            MAX_DEPTH - 1
        };
        let mut k = self.killer_moves[depth_idx];
        k.store(move_);
        self.killer_moves.set(depth_idx, k);
    }

    /// Adds a cutoff of `move_` for `player` at `depth` to the history.
    pub fn record_history_cutoff(&mut self, move_: (usize, usize), player: Player, depth: i32)
        requires
            old(self).wf(),
            move_.0 < 19 && move_.1 < 19 ==> old(self).history().score(
                player,
                move_.0 as int,
                move_.1 as int,
            ) + depth * depth <= i32::MAX,
        ensures
            final(self).wf(),
            forall|p: Player, r: int, c: int|
                0 <= r < 19 && 0 <= c < 19 ==> #[trigger] final(self).history().score(p, r, c) == if p
                    == player && r == move_.0 && c == move_.1 {
                    old(self).history().score(p, r, c) + depth * depth
                } else {
                    old(self).history().score(p, r, c)
                },
            forall|d: int| 0 <= d < MAX_DEPTH ==> #[trigger] final(self).killers(d) == old(self).killers(d),
            final(self).time_limit() == old(self).time_limit(),
            final(self).nodes() == old(self).nodes(),
    {
        self.history_table.record_cutoff(move_, player, depth);
    }
}

/// Squares stepped onto from `(r, c)` along `(dx, dy)`, from step `k + 1`
/// on, while they stay on a 19x19 board, up to four steps in all.
pub open spec fn ray_steps(r: int, c: int, dx: int, dy: int, k: int) -> int
    decreases 4 - k,
{
    if k >= 4 || !(0 <= step(r, dx, k + 1) < 19 && 0 <= step(c, dy, k + 1) < 19) {
        k
    } else {
        ray_steps(r, c, dx, dy, k + 1)
    }
}

/// Urgency of a direction with `count` squares of room around the move.
pub open spec fn urgency_of(count: int) -> int {
    if count >= 4 {
        100000
    } else if count == 3 {
        50000
    } else if count == 2 {
        10000
    } else if count == 1 {
        1000
    } else {
        0
    }
}

/// Urgency of direction `k` at `mv`: the room on both sides.
pub open spec fn dir_urgency(mv: (usize, usize), k: int) -> int {
    let d = crate::patterns::dir(k);
    urgency_of(
        ray_steps(mv.0 as int, mv.1 as int, -d.0, -d.1, 0) + ray_steps(mv.0 as int, mv.1 as int, d.0, d.1, 0),
    )
}

/// The best urgency over the first `k` directions (0 for none).
pub open spec fn urgency_upto(mv: (usize, usize), k: int) -> int
    decreases k,
{
    if k <= 0 {
        0
    } else {
        let prev = urgency_upto(mv, k - 1);
        let u = dir_urgency(mv, k - 1);
        if u > prev {
            u
        } else {
            prev
        }
    }
}

/// Quick urgency of `mv`: its best direction.
pub open spec fn spec_urgency(mv: (usize, usize)) -> int {
    urgency_upto(mv, 4)
}

/// `|a - b|`.
pub open spec fn abs_diff(a: int, b: int) -> int {
    if a >= b {
        a - b
    } else {
        b - a
    }
}

/// Manhattan distance of `mv` from the centre of a 19x19 board.
pub open spec fn center_distance(mv: (usize, usize)) -> int {
    abs_diff(mv.0 as int, 9) + abs_diff(mv.1 as int, 9)
}

/// `mv` is one of the killers of `k`.
pub open spec fn killer_has(k: KillerMoves, mv: (usize, usize)) -> bool {
    k.first() == Some(mv) || k.second() == Some(mv)
}

/// The history score of `mv` for `p`; 0 off the 19x19 board.
pub open spec fn history_value(h: HistoryTable, p: Player, mv: (usize, usize)) -> int {
    if mv.0 < 19 && mv.1 < 19 {
        h.score(p, mv.0 as int, mv.1 as int)
    } else {
        0
    }
}

/// The killer slot of `depth`: depths past the last share the last slot.
pub open spec fn depth_slot(depth: usize) -> int {
    if depth < MAX_DEPTH {
        depth as int
    } else {
        MAX_DEPTH - 1
    }
}

/// Number of moves of `s` that satisfy `f`.
pub open spec fn count_where(s: Seq<(usize, usize)>, f: spec_fn((usize, usize)) -> bool) -> nat
    decreases s.len(),
{
    if s.len() == 0 {
        0
    } else {
        count_where(s.drop_last(), f) + if f(s.last()) {
            1nat
        } else {
            0nat
        }
    }
}

/// `a` reduced modulo 2^64, as a wrapping `u64` counter holds it.
pub open spec fn wrap64(a: int) -> int {
    a % 0x1_0000_0000_0000_0000
}

/// One more count on a wrapped counter.
proof fn lemma_wrap_step(a: u64, total: int)
    requires
        total >= 0,
        a as int == wrap64(total),
    ensures
        a.wrapping_add(1) as int == wrap64(total + 1),
{
    let m: int = 0x1_0000_0000_0000_0000;
    vstd::arithmetic::div_mod::lemma_add_mod_noop(total, 1, m);
    vstd::arithmetic::div_mod::lemma_small_mod(1, m as nat);
    if a as int + 1 < m {
        vstd::arithmetic::div_mod::lemma_small_mod((a + 1) as nat, m as nat);
    } else {
        vstd::arithmetic::div_mod::lemma_mod_self_0(m);
    }
}

impl SearchContext {
    /// The ordering priority of `mv`: the table move first, then (at depth
    /// two or less) the quick urgency, the killers of the depth, a positive
    /// history score, and closeness to the centre.
    pub open spec fn move_priority(
        self,
        mv: (usize, usize),
        depth: usize,
        player: Player,
        tt_best: Option<(usize, usize)>,
    ) -> int {
        (if tt_best == Some(mv) {
            1000000int
        } else {
            0int
        }) + (if depth <= 2 {
            spec_urgency(mv)
        } else {
            0int
        }) + (if killer_has(self.killers(depth_slot(depth)), mv) {
            50000int
        } else {
            0int
        }) + (if history_value(self.history(), player, mv) > 0 {
            history_value(self.history(), player, mv)
        } else {
            0int
        }) + 100 - center_distance(mv)
    }

    /// The priority of `mv` can be computed in an `i32`.
    pub open spec fn priority_fits(self, mv: (usize, usize), player: Player) -> bool {
        &&& mv.0 < 0x3000_0000
        &&& mv.1 < 0x3000_0000
        &&& history_value(self.history(), player, mv) <= i32::MAX - 1_150_100
    }

    /// Orders `moves` by priority, highest first (equal priorities in no
    /// set order), counting the killer and history hits.
    pub fn order_moves(
        &mut self,
        moves: &mut Vec<(usize, usize)>,
        depth: usize,
        current_player: Player,
        tt_best: Option<(usize, usize)>,
        counters: &mut ProfilingCounters,
    )
        requires
            old(self).wf(),
            forall|k: int|
                0 <= k < old(moves)@.len() ==> old(self).priority_fits(#[trigger] old(moves)@[k], current_player),
        ensures
            *final(self) == *old(self),
            final(moves)@.to_multiset() == old(moves)@.to_multiset(),
            forall|i: int, j: int|
                0 <= i < j < final(moves)@.len() ==> old(self).move_priority(
                    #[trigger] final(moves)@[i],
                    depth,
                    current_player,
                    tt_best,
                ) >= old(self).move_priority(#[trigger] final(moves)@[j], depth, current_player, tt_best),
            final(counters).killer_hits == wrap64(
                old(counters).killer_hits + count_where(
                    old(moves)@,
                    |m: (usize, usize)| killer_has(old(self).killers(depth_slot(depth)), m),
                ),
            ),
            final(counters).history_hits == wrap64(
                old(counters).history_hits + count_where(
                    old(moves)@,
                    |m: (usize, usize)| history_value(old(self).history(), current_player, m) > 0,
                ),
            ),
            final(counters).minimax_calls == old(counters).minimax_calls,
            final(counters).tt_hits == old(counters).tt_hits,
            final(counters).heuristic_calls == old(counters).heuristic_calls,
            final(counters).move_generation_time == old(counters).move_generation_time,
            final(counters).heuristic_time == old(counters).heuristic_time,
            final(counters).tt_time == old(counters).tt_time,
    {
        let ghost orig = moves@;
        let ghost kf = |m: (usize, usize)| killer_has(self.killers(depth_slot(depth)), m);
        let ghost hf = |m: (usize, usize)| history_value(self.history(), current_player, m) > 0;
        let depth_idx = if depth < MAX_DEPTH - 1 {
            depth
        } else {
            MAX_DEPTH - 1
        };
        let killers = self.killer_moves[depth_idx];
        let mut rest_moves: Vec<(usize, usize)> = Vec::new();
        let mut rest_pri: Vec<i32> = Vec::new();
        let mut i: usize = 0;
        proof {
            lemma_small_wrap(counters.killer_hits);
            lemma_small_wrap(counters.history_hits);
        }
        while i < moves.len()
            invariant
                self.wf(),
                moves@ == orig,
                i <= orig.len(),
                killers == self.killers(depth_slot(depth)),
                forall|m: (usize, usize)| #[trigger] kf(m) == killer_has(killers, m),
                forall|m: (usize, usize)| #[trigger] hf(m) == (history_value(self.history(), current_player, m) > 0),
                forall|k: int| 0 <= k < orig.len() ==> self.priority_fits(#[trigger] orig[k], current_player),
                rest_moves@ == orig.subrange(0, i as int),
                rest_pri@.len() == i,
                forall|k: int|
                    0 <= k < i ==> #[trigger] rest_pri@[k] == self.move_priority(
                        orig[k],
                        depth,
                        current_player,
                        tt_best,
                    ),
                counters.killer_hits == wrap64(
                    old(counters).killer_hits + count_where(orig.subrange(0, i as int), kf),
                ),
                counters.history_hits == wrap64(
                    old(counters).history_hits + count_where(orig.subrange(0, i as int), hf),
                ),
                counters.minimax_calls == old(counters).minimax_calls,
                counters.tt_hits == old(counters).tt_hits,
                counters.heuristic_calls == old(counters).heuristic_calls,
                counters.move_generation_time == old(counters).move_generation_time,
                counters.heuristic_time == old(counters).heuristic_time,
                counters.tt_time == old(counters).tt_time,
            decreases orig.len() - i,
        {
            let mv = moves[i];
            proof {
                assert(orig.subrange(0, i + 1).drop_last() =~= orig.subrange(0, i as int));
                assert(orig.subrange(0, i + 1).last() == mv);
                assert(self.priority_fits(orig[i as int], current_player));
            }
            let ghost before = *counters;
            let priority = self.priority_counted(&killers, mv, depth, current_player, tt_best, counters);
            proof {
                let total_k = old(counters).killer_hits + count_where(orig.subrange(0, i as int), kf);
                let total_h = old(counters).history_hits + count_where(orig.subrange(0, i as int), hf);
                let next = orig.subrange(0, i + 1);
                assert(count_where(next, kf) == count_where(orig.subrange(0, i as int), kf) + if kf(mv) {
                    1nat
                } else {
                    0nat
                });
                assert(count_where(next, hf) == count_where(orig.subrange(0, i as int), hf) + if hf(mv) {
                    1nat
                } else {
                    0nat
                });
                assert(kf(mv) == killer_has(killers, mv));
                assert(hf(mv) == (history_value(self.history(), current_player, mv) > 0));
                if killer_has(killers, mv) {
                    lemma_wrap_step(before.killer_hits, total_k);
                }
                if history_value(self.history(), current_player, mv) > 0 {
                    lemma_wrap_step(before.history_hits, total_h);
                }
            }
            rest_moves.push(mv);
            rest_pri.push(priority);
            proof {
                assert(rest_moves@ =~= orig.subrange(0, i + 1));
            }
            i = i + 1;
        }
        let mut sorted: Vec<(usize, usize)> = Vec::new();
        proof {
            broadcast use vstd::seq_lib::group_to_multiset_ensures;
            broadcast use vstd::multiset::group_multiset_properties;

            assert(orig.subrange(0, orig.len() as int) =~= orig);
            assert(sorted@.to_multiset().len() == 0);
            assert(sorted@.to_multiset() =~= vstd::multiset::Multiset::empty());
            assert(sorted@.to_multiset().add(rest_moves@.to_multiset()) =~= orig.to_multiset());
        }
        while rest_moves.len() > 0
            invariant
                rest_moves@.len() == rest_pri@.len(),
                forall|k: int|
                    0 <= k < rest_moves@.len() ==> #[trigger] rest_pri@[k] == self.move_priority(
                        rest_moves@[k],
                        depth,
                        current_player,
                        tt_best,
                    ),
                sorted@.to_multiset().add(rest_moves@.to_multiset()) == orig.to_multiset(),
                forall|a: int, b: int|
                    0 <= a < b < sorted@.len() ==> self.move_priority(
                        #[trigger] sorted@[a],
                        depth,
                        current_player,
                        tt_best,
                    ) >= self.move_priority(#[trigger] sorted@[b], depth, current_player, tt_best),
                forall|a: int, b: int|
                    0 <= a < sorted@.len() && 0 <= b < rest_moves@.len() ==> self.move_priority(
                        #[trigger] sorted@[a],
                        depth,
                        current_player,
                        tt_best,
                    ) >= self.move_priority(#[trigger] rest_moves@[b], depth, current_player, tt_best),
            decreases rest_moves@.len(),
        {
            let mut best: usize = 0;
            let mut k: usize = 1;
            while k < rest_pri.len()
                invariant
                    rest_moves@.len() == rest_pri@.len(),
                    best < rest_pri@.len(),
                    1 <= k <= rest_pri@.len(),
                    forall|j: int| 0 <= j < k ==> #[trigger] rest_pri@[j] <= rest_pri@[best as int],
                decreases rest_pri@.len() - k,
            {
                if rest_pri[k] > rest_pri[best] {
                    best = k;
                }
                k = k + 1;
            }
            let ghost old_rest = rest_moves@;
            let ghost old_pri = rest_pri@;
            let ghost old_sorted = sorted@;
            let mv = rest_moves.remove(best);
            rest_pri.remove(best);
            sorted.push(mv);
            proof {
                broadcast use vstd::seq_lib::group_to_multiset_ensures;
                broadcast use vstd::multiset::group_multiset_properties;

                assert(mv == old_rest[best as int]);
                assert(old_sorted.push(mv).to_multiset() =~= old_sorted.to_multiset().insert(mv));
                assert(old_rest.remove(best as int).to_multiset() == old_rest.to_multiset().remove(mv));
                assert(old_rest.to_multiset().count(mv) > 0) by {
                    assert(old_rest.contains(mv));
                }
                assert(sorted@.to_multiset().add(rest_moves@.to_multiset()) =~= old_sorted.to_multiset().add(
                    old_rest.to_multiset(),
                ));
                assert forall|j: int| 0 <= j < rest_moves@.len() implies #[trigger] rest_pri@[j]
                    == self.move_priority(rest_moves@[j], depth, current_player, tt_best) by {
                    if j < best {
                        assert(rest_moves@[j] == old_rest[j] && rest_pri@[j] == old_pri[j]);
                    } else {
                        assert(rest_moves@[j] == old_rest[j + 1] && rest_pri@[j] == old_pri[j + 1]);
                    }
                }
                assert forall|a: int, b: int|
                    0 <= a < sorted@.len() && 0 <= b < rest_moves@.len() implies self.move_priority(
                    #[trigger] sorted@[a],
                    depth,
                    current_player,
                    tt_best,
                ) >= self.move_priority(#[trigger] rest_moves@[b], depth, current_player, tt_best) by {
                    let ob = if b < best {
                        b
                    } else {
                        b + 1
                    };
                    assert(rest_moves@[b] == old_rest[ob]);
                    assert(old_pri[ob] <= old_pri[best as int]);
                    if a < old_sorted.len() {
                        assert(sorted@[a] == old_sorted[a]);
                    }
                }
                assert forall|a: int, b: int| 0 <= a < b < sorted@.len() implies self.move_priority(
                    #[trigger] sorted@[a],
                    depth,
                    current_player,
                    tt_best,
                ) >= self.move_priority(#[trigger] sorted@[b], depth, current_player, tt_best) by {
                    assert(sorted@[a] == old_sorted[a]);
                    if b < old_sorted.len() {
                        assert(sorted@[b] == old_sorted[b]);
                    }
                }
            }
        }
        proof {
            broadcast use vstd::seq_lib::group_to_multiset_ensures;
            broadcast use vstd::multiset::group_multiset_properties;

            assert(rest_moves@.to_multiset().len() == 0);
            assert(rest_moves@.to_multiset() =~= vstd::multiset::Multiset::empty());
            assert(sorted@.to_multiset() =~= orig.to_multiset());
        }
        *moves = sorted;
    }

    /// The priority of one move, counting a killer hit and a history hit.
    fn priority_counted(
        &self,
        killers: &KillerMoves,
        mv: (usize, usize),
        depth: usize,
        current_player: Player,
        tt_best: Option<(usize, usize)>,
        counters: &mut ProfilingCounters,
    ) -> (priority: i32)
        requires
            self.wf(),
            *killers == self.killers(depth_slot(depth)),
            self.priority_fits(mv, current_player),
        ensures
            priority == self.move_priority(mv, depth, current_player, tt_best),
            final(counters).killer_hits == if killer_has(*killers, mv) {
                old(counters).killer_hits.wrapping_add(1)
            } else {
                old(counters).killer_hits
            },
            final(counters).history_hits == if history_value(self.history(), current_player, mv) > 0 {
                old(counters).history_hits.wrapping_add(1)
            } else {
                old(counters).history_hits
            },
            final(counters).minimax_calls == old(counters).minimax_calls,
            final(counters).tt_hits == old(counters).tt_hits,
            final(counters).heuristic_calls == old(counters).heuristic_calls,
            final(counters).move_generation_time == old(counters).move_generation_time,
            final(counters).heuristic_time == old(counters).heuristic_time,
            final(counters).tt_time == old(counters).tt_time,
    {
        let mut priority: i32 = 0;
        let is_tt = match tt_best {
            Some(b) => b.0 == mv.0 && b.1 == mv.1,
            None => false,
        };
        if is_tt {
            priority = priority + 1000000;
        }
        if depth <= 2 {
            let urgency = self.evaluate_move_urgency_quick(mv, current_player);
            priority = priority + urgency;
        }
        if killers.contains(mv) {
            priority = priority + 50000;
            counters.killer_hits = counters.killer_hits.wrapping_add(1);
        }
        let history_score = self.history_table.get_score(mv, current_player);
        if history_score > 0 {
            priority = priority + history_score;
            counters.history_hits = counters.history_hits.wrapping_add(1);
        }
        let (row, col) = mv;
        let dr: i32 = row as i32 - 9;
        let dc: i32 = col as i32 - 9;
        let adr: i32 = if dr < 0 {
            -dr
        } else {
            dr
        };
        let adc: i32 = if dc < 0 {
            -dc
        } else {
            dc
        };
        let distance_from_center = adr + adc;
        priority + (100 - distance_from_center)
    }

    /// How much room `mv` has on a 19x19 board: in each direction, the
    /// squares (up to four each way) that stay on the board, scored by their
    /// count; the best direction counts.
    fn evaluate_move_urgency_quick(&self, mv: (usize, usize), player: Player) -> (u: i32)
        requires
            mv.0 < 0x3000_0000,
            mv.1 < 0x3000_0000,
        ensures
            u == spec_urgency(mv),
            0 <= u <= 100000,
    {
        let (row, col) = mv;
        let mut max_urgency: i32 = 0;
        let mut k: usize = 0;
        while k < 4
            invariant
                k <= 4,
                row == mv.0,
                col == mv.1,
                row < 0x3000_0000,
                col < 0x3000_0000,
                max_urgency == urgency_upto(mv, k as int),
                0 <= max_urgency <= 100000,
            decreases 4 - k,
        {
            let (dx, dy) = DIRECTIONS[k];
            assert(dx == crate::patterns::dir(k as int).0 && dy == crate::patterns::dir(k as int).1);
            let back = Self::ray_count(row, col, -dx, -dy);
            let fwd = Self::ray_count(row, col, dx, dy);
            let adjacent_count = back + fwd;
            let urgency: i32 = if adjacent_count >= 4 {
                100000
            } else if adjacent_count == 3 {
                50000
            } else if adjacent_count == 2 {
                10000
            } else if adjacent_count == 1 {
                1000
            } else {
                0
            };
            if urgency > max_urgency {
                max_urgency = urgency;
            }
            k = k + 1;
        }
        max_urgency
    }

    /// Steps from `(row, col)` along `(dx, dy)` that stay on a 19x19 board,
    /// up to four.
    fn ray_count(row: usize, col: usize, dx: isize, dy: isize) -> (n: i32)
        requires
            row < 0x3000_0000,
            col < 0x3000_0000,
            -1 <= dx <= 1,
            -1 <= dy <= 1,
        ensures
            n == ray_steps(row as int, col as int, dx as int, dy as int, 0),
            0 <= n <= 4,
    {
        proof {
            crate::patterns::lemma_unit_mul(dx as int, 1);
            crate::patterns::lemma_unit_mul(dy as int, 1);
        }
        let mut r: isize = row as isize + dx;
        let mut c: isize = col as isize + dy;
        let mut count: i32 = 0;
        while r >= 0 && r < 19 && c >= 0 && c < 19 && count < 4
            invariant
                0 <= count <= 4,
                -1 <= dx <= 1,
                -1 <= dy <= 1,
                row < 0x3000_0000,
                col < 0x3000_0000,
                r == step(row as int, dx as int, count + 1),
                c == step(col as int, dy as int, count + 1),
                ray_steps(row as int, col as int, dx as int, dy as int, 0) == ray_steps(
                    row as int,
                    col as int,
                    dx as int,
                    dy as int,
                    count as int,
                ),
            decreases 4 - count,
        {
            r = r + dx;
            c = c + dy;
            count = count + 1;
        }
        count
    }
}

/// A `u64` counter equals its value modulo 2^64.
proof fn lemma_small_wrap(a: u64)
    ensures
        a as int == wrap64(a as int),
{
    vstd::arithmetic::div_mod::lemma_small_mod(a as nat, 0x1_0000_0000_0000_0000nat);
}


/// Counters gathered while searching, for profiling.
#[derive(Debug, Clone, Copy, PartialEq, Eq, Structural)]
pub struct ProfilingCounters {
    pub minimax_calls: u64,
    pub tt_hits: u64,
    pub heuristic_calls: u64,
    pub move_generation_time: u64,
    pub heuristic_time: u64,
    pub tt_time: u64,
    pub killer_hits: u64,
    pub history_hits: u64,
}

/// Sets every profiling counter back to 0.
pub fn reset_profiling(counters: &mut ProfilingCounters)
    ensures
        final(counters).minimax_calls == 0,
        final(counters).tt_hits == 0,
        final(counters).heuristic_calls == 0,
        final(counters).move_generation_time == 0,
        final(counters).heuristic_time == 0,
        final(counters).tt_time == 0,
        final(counters).killer_hits == 0,
        final(counters).history_hits == 0,
{
    counters.minimax_calls = 0;
    counters.tt_hits = 0;
    counters.heuristic_calls = 0;
    counters.move_generation_time = 0;
    counters.heuristic_time = 0;
    counters.tt_time = 0;
    counters.killer_hits = 0;
    counters.history_hits = 0;
}

} // verus!

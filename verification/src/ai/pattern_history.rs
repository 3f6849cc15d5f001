//! A short history of recent moves and the captures they made, used to bias
//! the evaluation towards the player with the initiative (more captures in
//! the recent window) and the player with capture momentum.

use vstd::prelude::*;
use crate::ai::config::AIConfig;
use crate::board::Player;

verus! {

#[derive(Debug, Clone, Copy, PartialEq, Eq, Hash, Structural)]
pub struct MoveRecord {
    pub player: Player,
    pub captures_made: usize,
}

/// Captures made by `p` in the last `n` records of `s`.
pub open spec fn tail_captures(s: Seq<MoveRecord>, p: Player, n: int) -> int
    decreases n,
{
    if n <= 0 {
        0
    } else {
        let r = s[s.len() - n];
        tail_captures(s, p, n - 1) + if r.player == p {
            r.captures_made as int
        } else {
            0
        }
    }
}

/// Captures made in all records of `s`.
pub open spec fn total_captures(s: Seq<MoveRecord>) -> int
    decreases s.len(),
{
    if s.len() == 0 {
        0
    } else {
        total_captures(s.drop_last()) + s.last().captures_made
    }
}

/// The player with more captures in the last `window` records (all of them
/// when there are fewer), none with fewer than two records or on a tie.
pub open spec fn spec_initiative(s: Seq<MoveRecord>, window: int) -> Option<Player> {
    let n = if window < s.len() {
        window
    } else {
        s.len() as int
    };
    let maxc = tail_captures(s, Player::Max, n);
    let minc = tail_captures(s, Player::Min, n);
    if s.len() < 2 {
        None
    } else if maxc > minc {
        Some(Player::Max)
    } else if minc > maxc {
        Some(Player::Min)
    } else {
        None
    }
}

/// The records after `r` is added with room for `window`: the oldest record
/// goes when there is one too many.
pub open spec fn spec_recorded(s: Seq<MoveRecord>, r: MoveRecord, window: int) -> Seq<MoveRecord> {
    let t = s.push(r);
    if t.len() > window {
        t.drop_first()
    } else {
        t
    }
}

proof fn lemma_total_nonneg(s: Seq<MoveRecord>)
    ensures
        0 <= total_captures(s),
    decreases s.len(),
{
    if s.len() > 0 {
        lemma_total_nonneg(s.drop_last());
    }
}

/// The captures of the last `n` records are between 0 and the total.
pub proof fn lemma_tail_captures_bound(s: Seq<MoveRecord>, p: Player, n: int)
    requires
        0 <= n <= s.len(),
    ensures
        0 <= tail_captures(s, p, n) <= total_captures(s),
    decreases s.len(),
{
    lemma_total_nonneg(s);
    if s.len() > 0 && n > 0 {
        let t = s.drop_last();
        lemma_tail_captures_bound(t, p, n - 1);
        lemma_tail_shift(s, p, n);
        assert(total_captures(s) == total_captures(t) + s.last().captures_made);
    }
}

/// The last `n` records of `s` are the last record and the last `n - 1` of the rest.
proof fn lemma_tail_shift(s: Seq<MoveRecord>, p: Player, n: int)
    requires
        0 < n <= s.len(),
    ensures
        tail_captures(s, p, n) == tail_captures(s.drop_last(), p, n - 1) + if s.last().player == p {
            s.last().captures_made as int
        } else {
            0
        },
    decreases n,
{
    let t = s.drop_last();
    let r = s[s.len() - n];
    assert(tail_captures(s, p, n) == tail_captures(s, p, n - 1) + if r.player == p {
        r.captures_made as int
    } else {
        0
    });
    if n > 1 {
        lemma_tail_shift(s, p, n - 1);
        assert(r == t[t.len() - (n - 1)]);
        assert(tail_captures(t, p, n - 1) == tail_captures(t, p, n - 2) + if r.player == p {
            r.captures_made as int
        } else {
            0
        });
    } else {
        assert(tail_captures(s, p, 0) == 0);
        assert(tail_captures(t, p, 0) == 0);
        assert(r == s.last());
    }
}

#[derive(Debug, Clone, PartialEq, Eq, Hash)]
pub struct PatternHistoryAnalyzer {
    recent_moves: Vec<MoveRecord>,
    current_initiative: Option<Player>,
}

impl PatternHistoryAnalyzer {
    /// The recorded moves, oldest first.
    pub closed spec fn records(self) -> Seq<MoveRecord> {
        self.recent_moves@
    }

    /// The player with the initiative, if any.
    pub closed spec fn initiative(self) -> Option<Player> {
        self.current_initiative
    }

    pub fn new() -> (a: PatternHistoryAnalyzer)
        ensures
            a.records() == Seq::<MoveRecord>::empty(),
            a.initiative() is None,
    {
        PatternHistoryAnalyzer { recent_moves: Vec::new(), current_initiative: None }
    }

    /// Records a move of `player` that captured `captures_made` pairs,
    /// keeping the configured window, and recomputes the initiative.
    pub fn record_move(&mut self, player: Player, captures_made: usize, ai_config: &AIConfig)
        requires
            total_captures(old(self).records()) + captures_made <= usize::MAX,
        ensures
            final(self).records() == spec_recorded(
                old(self).records(),
                MoveRecord { player, captures_made },
                ai_config.pattern_history.history_window as int,
            ),
            final(self).initiative() == spec_initiative(
                final(self).records(),
                ai_config.pattern_history.history_window as int,
            ),
    {
        let ghost before = self.recent_moves@;
        self.recent_moves.push(MoveRecord { player, captures_made });
        let ghost pushed = self.recent_moves@;
        proof {
            assert(pushed.drop_last() == before);
        }
        if self.recent_moves.len() > ai_config.pattern_history.history_window {
            self.recent_moves.remove(0);
            proof {
                assert(self.recent_moves@ =~= pushed.drop_first());
                lemma_total_drop_first(pushed);
            }
        }
        self.update_initiative(ai_config);
    }

    /// The initiative part of the historical bonus: plus the configured
    /// initiative bonus for the player with the initiative, minus it for the
    /// other player, nothing without initiative.
    pub fn initiative_bonus(&self, current_player: Player, ai_config: &AIConfig) -> (b: i32)
        requires
            ai_config.pattern_history.initiative_bonus > i32::MIN,
        ensures
            b == match self.initiative() {
                Some(q) => if q == current_player {
                    ai_config.pattern_history.initiative_bonus as int
                } else {
                    -ai_config.pattern_history.initiative_bonus
                },
                None => 0,
            },
    {
        match self.current_initiative {
            Some(initiative_player) => if initiative_player == current_player {
                ai_config.pattern_history.initiative_bonus
            } else {
                -ai_config.pattern_history.initiative_bonus
            },
            None => 0,
        }
    }

    /// Pairs captured by `player` in the last three recorded moves: the
    /// amount the capture momentum bonus grows with.
    pub fn recent_captures(&self, player: Player) -> (n: usize)
        requires
            total_captures(self.records()) <= usize::MAX,
        ensures
            n == tail_captures(
                self.records(),
                player,
                if 3 < self.records().len() {
                    3
                } else {
                    self.records().len() as int
                },
            ),
    {
        let len = self.recent_moves.len();
        let take: usize = if 3 < len {
            3
        } else {
            len
        };
        let mut sum: usize = 0;
        let mut i: usize = 0;
        while i < take
            invariant
                len == self.recent_moves@.len(),
                take <= len,
                i <= take,
                total_captures(self.recent_moves@) <= usize::MAX,
                sum == tail_captures(self.recent_moves@, player, i as int),
            decreases take - i,
        {
            proof {
                lemma_tail_captures_bound(self.recent_moves@, player, i + 1);
            }
            let record = self.recent_moves[len - 1 - i];
            if record.player == player && record.captures_made > 0 {
                sum = sum + record.captures_made;
            }
            i = i + 1;
        }
        sum
    }

    /// Forgets all moves.
    pub fn reset(&mut self)
        ensures
            final(self).records() == Seq::<MoveRecord>::empty(),
            final(self).initiative() is None,
    {
        self.recent_moves.clear();
        self.current_initiative = None;
    }

    pub fn move_count(&self) -> (n: usize)
        ensures
            n == self.records().len(),
    {
        self.recent_moves.len()
    }

    /// The most recent record.
    pub fn latest_move(&self) -> (r: Option<&MoveRecord>)
        ensures
            self.records().len() == 0 ==> r is None,
            self.records().len() > 0 ==> r == Some(&self.records().last()),
    {
        let len = self.recent_moves.len();
        if len == 0 {
            None
        } else {
            Some(&self.recent_moves[len - 1])
        }
    }

    fn update_initiative(&mut self, ai_config: &AIConfig)
        requires
            total_captures(old(self).records()) <= usize::MAX,
        ensures
            final(self).records() == old(self).records(),
            final(self).initiative() == spec_initiative(
                old(self).records(),
                ai_config.pattern_history.history_window as int,
            ),
    {
        let len = self.recent_moves.len();
        if len < 2 {
            self.current_initiative = None;
            return;
        }
        let window = ai_config.pattern_history.history_window;
        let take: usize = if window < len {
            window
        } else {
            len
        };
        let mut max_captures: usize = 0;
        let mut min_captures: usize = 0;
        let mut i: usize = 0;
        while i < take
            invariant
                len == self.recent_moves@.len(),
                take <= len,
                i <= take,
                total_captures(self.recent_moves@) <= usize::MAX,
                max_captures == tail_captures(self.recent_moves@, Player::Max, i as int),
                min_captures == tail_captures(self.recent_moves@, Player::Min, i as int),
            decreases take - i,
        {
            proof {
                lemma_tail_captures_bound(self.recent_moves@, Player::Max, i + 1);
                lemma_tail_captures_bound(self.recent_moves@, Player::Min, i + 1);
            }
            let record = self.recent_moves[len - 1 - i];
            if record.captures_made > 0 {
                match record.player {
                    Player::Max => max_captures = max_captures + record.captures_made,
                    Player::Min => min_captures = min_captures + record.captures_made,
                }
            }
            i = i + 1;
        }
        if max_captures > min_captures {
            self.current_initiative = Some(Player::Max);
        } else if min_captures > max_captures {
            self.current_initiative = Some(Player::Min);
        } else {
            self.current_initiative = None;
        }
    }
}

/// Dropping the oldest record does not add captures.
proof fn lemma_total_drop_first(s: Seq<MoveRecord>)
    requires
        s.len() > 0,
    ensures
        total_captures(s.drop_first()) <= total_captures(s),
    decreases s.len(),
{
    lemma_total_nonneg(s);
    if s.len() > 1 {
        let t = s.drop_last();
        let u = s.drop_first();
        lemma_total_drop_first(t);
        assert(u.drop_last() =~= t.drop_first());
        assert(u.last() == s.last());
        assert(total_captures(u) == total_captures(u.drop_last()) + u.last().captures_made);
        assert(total_captures(s) == total_captures(t) + s.last().captures_made);
    } else {
        assert(s.drop_first().len() == 0);
        assert(total_captures(s.drop_first()) == 0);
    }
}

impl Default for PatternHistoryAnalyzer {
    fn default() -> (a: Self)
        ensures
            a.records() == Seq::<MoveRecord>::empty(),
            a.initiative() is None,
    {
        Self::new()
    }
}

} // verus!

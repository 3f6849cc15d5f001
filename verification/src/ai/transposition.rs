//! The transposition table: search results keyed by Zobrist hash, with the
//! kind of bound each value is, the best move found, and an age used to
//! drop stale entries when the table is full.

use vstd::prelude::*;
use std::collections::HashMap;

verus! {

#[derive(Debug, Clone, Copy, PartialEq, Eq, Structural)]
pub enum EntryType {
    Exact,
    LowerBound,
    UpperBound,
}

#[derive(Debug, Clone, Copy)]
pub struct TranspositionEntry {
    pub value: i32,
    pub depth: i32,
    pub entry_type: EntryType,
    pub best_move: Option<(usize, usize)>,
    pub age: u32,
}

/// The entries of `m` that satisfy `keep`.
pub open spec fn retain_map(m: Map<u64, TranspositionEntry>, keep: spec_fn(TranspositionEntry) -> bool) -> Map<
    u64,
    TranspositionEntry,
> {
    Map::new(|k: u64| m.dom().contains(k) && keep(m[k]), |k: u64| m[k])
}

/// Whether entry `e` stays: recent enough or (`both`: and) deep enough.
pub open spec fn keeps(e: TranspositionEntry, cutoff_age: u32, min_depth: i32, both: bool) -> bool {
    if both {
        e.age >= cutoff_age && e.depth > min_depth
    } else {
        e.age >= cutoff_age || e.depth > min_depth
    }
}

/// The table after dropping stale entries at age `age`: nothing before age
/// 10; otherwise entries older than five ages and at most ten deep go, and
/// if more than three quarters of `max_size` remain, everything older than
/// two ages or at most five deep goes as well.
pub open spec fn spec_cleanup(m: Map<u64, TranspositionEntry>, age: u32, max_size: usize) -> Map<
    u64,
    TranspositionEntry,
> {
    if age < 10 {
        m
    } else {
        let first = retain_map(m, |e: TranspositionEntry| keeps(e, (age - 5) as u32, 10, false));
        if first.len() > max_size * 3 / 4 {
            retain_map(first, |e: TranspositionEntry| keeps(e, (age - 2) as u32, 5, true))
        } else {
            first
        }
    }
}

/// The table after storing `e` under `key`: an existing entry is replaced
/// only by a deeper one, or an equally deep one at least as recent.
pub open spec fn spec_store(m: Map<u64, TranspositionEntry>, key: u64, e: TranspositionEntry) -> Map<
    u64,
    TranspositionEntry,
> {
    if m.dom().contains(key) && !(e.depth > m[key].depth || (e.depth == m[key].depth && e.age
        >= m[key].age)) {
        m
    } else {
        m.insert(key, e)
    }
}

/// The table that `store` leaves: the cleaned table when `m` is full, with
/// `e` stored under `key`.
pub open spec fn stored_table(
    m: Map<u64, TranspositionEntry>,
    age: u32,
    max_size: usize,
    key: u64,
    e: TranspositionEntry,
) -> Map<u64, TranspositionEntry> {
    spec_store(
        if m.len() >= max_size {
            spec_cleanup(m, age, max_size)
        } else {
            m
        },
        key,
        e,
    )
}

/// A result stored under a key the table does not hold is found there
/// afterwards, whether or not the table was cleaned first.
pub proof fn lemma_store_absent(
    m: Map<u64, TranspositionEntry>,
    age: u32,
    max_size: usize,
    key: u64,
    e: TranspositionEntry,
)
    requires
        !m.dom().contains(key),
    ensures
        stored_table(m, age, max_size, key, e).dom().contains(key),
        stored_table(m, age, max_size, key, e)[key] == e,
{
    if m.len() >= max_size && age >= 10 {
        let first = retain_map(m, |e: TranspositionEntry| keeps(e, (age - 5) as u32, 10, false));
        assert(!first.dom().contains(key));
        let second = retain_map(first, |e: TranspositionEntry| keeps(e, (age - 2) as u32, 5, true));
        assert(!second.dom().contains(key));
    }
}

/// Storing under `key` leaves every other key either as it was or, when the
/// full table was cleaned first, gone.
pub proof fn lemma_store_other(
    m: Map<u64, TranspositionEntry>,
    age: u32,
    max_size: usize,
    key: u64,
    e: TranspositionEntry,
    k: u64,
)
    requires
        k != key,
    ensures
        stored_table(m, age, max_size, key, e).dom().contains(k) ==> m.dom().contains(k)
            && stored_table(m, age, max_size, key, e)[k] == m[k],
{
    if m.len() >= max_size && age >= 10 {
        let first = retain_map(m, |e: TranspositionEntry| keeps(e, (age - 5) as u32, 10, false));
        let second = retain_map(first, |e: TranspositionEntry| keeps(e, (age - 2) as u32, 5, true));
        assert(first.dom().contains(k) ==> m.dom().contains(k) && first[k] == m[k]);
        assert(second.dom().contains(k) ==> first.dom().contains(k) && second[k] == first[k]);
    }
}

/// After storing `e` under `key`, the entry there is `e` or the entry that
/// was there before.
pub proof fn lemma_store_same(
    m: Map<u64, TranspositionEntry>,
    age: u32,
    max_size: usize,
    key: u64,
    e: TranspositionEntry,
)
    ensures
        stored_table(m, age, max_size, key, e).dom().contains(key),
        stored_table(m, age, max_size, key, e)[key] == e || (m.dom().contains(key)
            && stored_table(m, age, max_size, key, e)[key] == m[key]),
{
    if m.len() >= max_size && age >= 10 {
        let first = retain_map(m, |e: TranspositionEntry| keeps(e, (age - 5) as u32, 10, false));
        let second = retain_map(first, |e: TranspositionEntry| keeps(e, (age - 2) as u32, 5, true));
        assert(first.dom().contains(key) ==> m.dom().contains(key) && first[key] == m[key]);
        assert(second.dom().contains(key) ==> first.dom().contains(key) && second[key] == first[key]);
    }
}

/// A result stored exactly under a key the table does not hold is found
/// again: a probe for that key at any depth up to the stored one cuts off,
/// whatever the window, with the stored value and best move.
pub proof fn lemma_exact_result_found(
    m: Map<u64, TranspositionEntry>,
    age: u32,
    max_size: usize,
    key: u64,
    value: i32,
    d: i32,
    best: Option<(usize, usize)>,
    depth: i32,
    alpha: i32,
    beta: i32,
)
    requires
        !m.dom().contains(key),
        depth <= d,
    ensures
        ({
            let t = stored_table(
                m,
                age,
                max_size,
                key,
                TranspositionEntry { value, depth: d, entry_type: EntryType::Exact, best_move: best, age },
            );
            &&& t.dom().contains(key)
            &&& entry_cuts(t[key], depth, alpha, beta)
            &&& t[key].value == value
            &&& t[key].best_move == best
        }),
{
    lemma_store_absent(
        m,
        age,
        max_size,
        key,
        TranspositionEntry { value, depth: d, entry_type: EntryType::Exact, best_move: best, age },
    );
}

pub struct TTResult {
    pub value: Option<i32>,
    pub best_move: Option<(usize, usize)>,
    pub cutoff: bool,
}

impl TTResult {
    pub fn miss() -> (r: TTResult)
        ensures
            r.value is None,
            r.best_move is None,
            !r.cutoff,
    {
        TTResult { value: None, best_move: None, cutoff: false }
    }

    pub fn hit_with_cutoff(value: i32, best_move: Option<(usize, usize)>) -> (r: TTResult)
        ensures
            r.value == Some(value),
            r.best_move == best_move,
            r.cutoff,
    {
        TTResult { value: Some(value), best_move, cutoff: true }
    }

    pub fn hit_move_only(best_move: Option<(usize, usize)>) -> (r: TTResult)
        ensures
            r.value is None,
            r.best_move == best_move,
            !r.cutoff,
    {
        TTResult { value: None, best_move, cutoff: false }
    }
}

/// An entry deep enough for `depth` whose bound settles the window `(alpha, beta)`.
pub open spec fn entry_cuts(e: TranspositionEntry, depth: i32, alpha: i32, beta: i32) -> bool {
    e.depth >= depth && match e.entry_type {
        EntryType::Exact => true,
        EntryType::LowerBound => e.value >= beta,
        EntryType::UpperBound => e.value <= alpha,
    }
}

pub struct TranspositionTable {
    table: HashMap<u64, TranspositionEntry>,
    current_age: u32,
    max_size: usize,
    hits: u64,
    misses: u64,
}

impl TranspositionTable {
    pub closed spec fn entries(self) -> Map<u64, TranspositionEntry> {
        self.table@
    }

    pub closed spec fn age(self) -> u32 {
        self.current_age
    }

    pub closed spec fn capacity(self) -> usize {
        self.max_size
    }

    pub closed spec fn hit_count(self) -> u64 {
        self.hits
    }

    pub closed spec fn miss_count(self) -> u64 {
        self.misses
    }

    pub fn new(max_size: usize) -> (t: TranspositionTable)
        ensures
            t.entries() == Map::<u64, TranspositionEntry>::empty(),
            t.age() == 0,
            t.capacity() == max_size,
            t.hit_count() == 0,
            t.miss_count() == 0,
    {
        let cap = if max_size < 1024 * 1024 {
            max_size
        } else {
            1024 * 1024
        };
        TranspositionTable {
            table: HashMap::with_capacity(cap),
            current_age: 0,
            max_size,
            hits: 0,
            misses: 0,
        }
    }

    /// Stores a search result under `key`, at the current age. A full table
    /// is cleaned first.
    pub fn store(
        &mut self,
        key: u64,
        value: i32,
        depth: i32,
        entry_type: EntryType,
        best_move: Option<(usize, usize)>,
    )
        ensures
            final(self).entries() == stored_table(
                old(self).entries(),
                old(self).age(),
                old(self).capacity(),
                key,
                TranspositionEntry { value, depth, entry_type, best_move, age: old(self).age() },
            ),
            final(self).age() == old(self).age(),
            final(self).capacity() == old(self).capacity(),
            final(self).hit_count() == old(self).hit_count(),
            final(self).miss_count() == old(self).miss_count(),
    {
        if self.table.len() >= self.max_size {
            self.cleanup_old_entries();
        }
        let current_age = self.current_age;
        let new_entry = TranspositionEntry { value, depth, entry_type, best_move, age: current_age };
        let replace = match self.table.get(&key) {
            Some(existing) => depth > existing.depth || (depth == existing.depth && current_age
                >= existing.age),
            None => true,
        };
        if replace {
            self.table.insert(key, new_entry);
        }
    }

    /// Looks `key` up for a search of `depth` with window `(alpha, beta)`:
    /// the stored value when its bound settles the window, otherwise just the
    /// stored best move. Counts a hit when an entry exists, a miss otherwise.
    pub fn probe(&mut self, key: u64, depth: i32, alpha: i32, beta: i32) -> (r: TTResult)
        ensures
            old(self).entries().contains_key(key) ==> {
                let e = old(self).entries()[key];
                &&& r.best_move == e.best_move
                &&& r.cutoff == entry_cuts(e, depth, alpha, beta)
                &&& r.value == if entry_cuts(e, depth, alpha, beta) {
                    Some(e.value)
                } else {
                    None::<i32>
                }
                &&& final(self).hit_count() == old(self).hit_count().wrapping_add(1)
                &&& final(self).miss_count() == old(self).miss_count()
            },
            !old(self).entries().contains_key(key) ==> {
                &&& r.value is None
                &&& r.best_move is None
                &&& !r.cutoff
                &&& final(self).miss_count() == old(self).miss_count().wrapping_add(1)
                &&& final(self).hit_count() == old(self).hit_count()
            },
            final(self).entries() == old(self).entries(),
            final(self).age() == old(self).age(),
            final(self).capacity() == old(self).capacity(),
    {
        match self.table.get(&key) {
            Some(entry) => {
                let e = *entry;
                let result = if e.depth >= depth {
                    match e.entry_type {
                        EntryType::Exact => Some(TTResult::hit_with_cutoff(e.value, e.best_move)),
                        EntryType::LowerBound => {
                            if e.value >= beta {
                                Some(TTResult::hit_with_cutoff(e.value, e.best_move))
                            } else {
                                None
                            }
                        },
                        EntryType::UpperBound => {
                            if e.value <= alpha {
                                Some(TTResult::hit_with_cutoff(e.value, e.best_move))
                            } else {
                                None
                            }
                        },
                    }
                } else {
                    None
                };
                self.hits = self.hits.wrapping_add(1);
                match result {
                    Some(result) => result,
                    None => TTResult::hit_move_only(e.best_move),
                }
            },
            None => {
                self.misses = self.misses.wrapping_add(1);
                TTResult::miss()
            },
        }
    }

    /// The best move stored for `key`.
    pub fn get_best_move(&self, key: u64) -> (m: Option<(usize, usize)>)
        ensures
            m == if self.entries().contains_key(key) {
                self.entries()[key].best_move
            } else {
                None
            },
    {
        match self.table.get(&key) {
            Some(entry) => entry.best_move,
            None => None,
        }
    }

    /// Empties the table and resets the age and the counters.
    pub fn clear(&mut self)
        ensures
            final(self).entries() == Map::<u64, TranspositionEntry>::empty(),
            final(self).age() == 0,
            final(self).hit_count() == 0,
            final(self).miss_count() == 0,
            final(self).capacity() == old(self).capacity(),
    {
        self.table.clear();
        self.current_age = 0;
        self.hits = 0;
        self.misses = 0;
    }

    pub fn advance_age(&mut self)
        requires
            old(self).age() < u32::MAX,
        ensures
            final(self).age() == old(self).age() + 1,
            final(self).entries() == old(self).entries(),
            final(self).capacity() == old(self).capacity(),
            final(self).hit_count() == old(self).hit_count(),
            final(self).miss_count() == old(self).miss_count(),
    {
        self.current_age = self.current_age + 1;
    }

    pub fn size(&self) -> (n: usize)
        ensures
            n == self.entries().len(),
    {
        self.table.len()
    }

    /// `(hits, misses)`.
    pub fn get_stats(&self) -> (s: (u64, u64))
        ensures
            s == (self.hit_count(), self.miss_count()),
    {
        (self.hits, self.misses)
    }

    pub fn add_stats(&mut self, hits: u64, misses: u64)
        requires
            old(self).hit_count() + hits <= u64::MAX,
            old(self).miss_count() + misses <= u64::MAX,
        ensures
            final(self).hit_count() == old(self).hit_count() + hits,
            final(self).miss_count() == old(self).miss_count() + misses,
            final(self).entries() == old(self).entries(),
            final(self).age() == old(self).age(),
            final(self).capacity() == old(self).capacity(),
    {
        self.hits = self.hits + hits;
        self.misses = self.misses + misses;
    }

    /// Drops stale entries (see `spec_cleanup`).
    fn cleanup_old_entries(&mut self)
        ensures
            final(self).entries() == spec_cleanup(old(self).entries(), old(self).age(), old(self).capacity()),
            final(self).age() == old(self).age(),
            final(self).capacity() == old(self).capacity(),
            final(self).hit_count() == old(self).hit_count(),
            final(self).miss_count() == old(self).miss_count(),
    {
        let current_age = self.current_age;
        if current_age < 10 {
            return;
        }
        let cutoff_age = current_age - 5;
        self.retain_entries(cutoff_age, 10, false);
        let limit = self.max_size / 4 * 3 + (self.max_size % 4) * 3 / 4;
        proof {
            assert(limit == self.max_size * 3 / 4) by (nonlinear_arith)
                requires
                    limit == self.max_size / 4 * 3 + (self.max_size % 4) * 3 / 4,
            ;
        }
        if self.table.len() > limit {
            let cutoff_age = current_age - 2;
            self.retain_entries(cutoff_age, 5, true);
        }

    }

    /// Keeps the entries with `age >= cutoff_age` or (`both`: and) `depth > min_depth`.
    fn retain_entries(&mut self, cutoff_age: u32, min_depth: i32, both: bool)
        ensures
            final(self).entries() == retain_map(
                old(self).entries(),
                |e: TranspositionEntry| keeps(e, cutoff_age, min_depth, both),
            ),
            final(self).age() == old(self).age(),
            final(self).capacity() == old(self).capacity(),
            final(self).hit_count() == old(self).hit_count(),
            final(self).miss_count() == old(self).miss_count(),
    {
        let ghost m0 = self.table@;
        let ghost mut processed: Set<u64> = Set::empty();
        let mut to_remove: Vec<u64> = Vec::new();
        for key in it: self.table.keys()
            invariant
                m0 == self.table@,
                forall|k: u64|
                    #[trigger] processed.contains(k) <==> exists|j: int| 0 <= j < it.index() && *it.seq()[j] == k,
                forall|k: u64|
                    #[trigger] processed.contains(k) && !keeps(m0[k], cutoff_age, min_depth, both)
                        ==> to_remove@.contains(k),
                it.seq().unref().to_set() == m0.dom(),
                forall|k: u64|
                    #[trigger] to_remove@.contains(k) ==> m0.dom().contains(k) && !keeps(
                        m0[k],
                        cutoff_age,
                        min_depth,
                        both,
                    ),
                forall|i: int|
                    0 <= i < it.index() ==> (!keeps(m0[*it.seq()[i]], cutoff_age, min_depth, both)
                        ==> #[trigger] to_remove@.contains(*it.seq()[i])),
        {
            let k = *key;
            let ghost idx = it.index();
            let ghost before = to_remove@;
            assert(k == *it.seq()[idx]);
            if let Some(e) = self.table.get(key) {
                assert(m0.dom().contains(k) && m0[k] == *e);
                let keep_it = if both {
                    e.age >= cutoff_age && e.depth > min_depth
                } else {
                    e.age >= cutoff_age || e.depth > min_depth
                };
                if !keep_it {
                    to_remove.push(k);
                }
            }
            proof {
                processed = processed.insert(k);
                assert forall|x: u64| #[trigger] to_remove@.contains(x) implies m0.dom().contains(x)
                    && !keeps(m0[x], cutoff_age, min_depth, both) by {
                    if to_remove@ != before {
                        crate::ai::heuristic_cache::lemma_push_contains(before, k, x);
                    }
                }
                assert forall|i: int|
                    0 <= i < idx + 1 && !keeps(m0[*it.seq()[i]], cutoff_age, min_depth, both) implies #[trigger] to_remove@.contains(
                    *it.seq()[i],
                ) by {
                    if to_remove@ != before {
                        crate::ai::heuristic_cache::lemma_push_contains(before, k, *it.seq()[i]);
                    }
                }
            }
        }
        let mut i: usize = 0;
        while i < to_remove.len()
            invariant
                i <= to_remove@.len(),
                self.current_age == old(self).current_age,
                self.max_size == old(self).max_size,
                self.hits == old(self).hits,
                self.misses == old(self).misses,
                m0 == old(self).table@,
                forall|k: u64|
                    #[trigger] to_remove@.contains(k) ==> m0.dom().contains(k) && !keeps(
                        m0[k],
                        cutoff_age,
                        min_depth,
                        both,
                    ),
                self.table@ == m0.remove_keys(to_remove@.subrange(0, i as int).to_set()),
            decreases to_remove@.len() - i,
        {
            let k = to_remove[i];
            self.table.remove(&k);
            proof {
                assert(to_remove@.subrange(0, i + 1) =~= to_remove@.subrange(0, i as int).push(k));
                to_remove@.subrange(0, i as int).lemma_push_to_set_commute(k);
                assert(self.table@ =~= m0.remove_keys(to_remove@.subrange(0, i + 1).to_set()));
            }
            i = i + 1;
        }
        proof {
            assert(to_remove@.subrange(0, to_remove@.len() as int) =~= to_remove@);
            assert forall|k: u64| m0.dom().contains(k) && !keeps(m0[k], cutoff_age, min_depth, both) implies #[trigger] to_remove@.contains(k) by {
                assert(processed.contains(k));
            }
            assert(self.table@ =~= retain_map(
                m0,
                |e: TranspositionEntry| keeps(e, cutoff_age, min_depth, both),
            ));
        }
    }
}

impl Default for TranspositionTable {
    fn default() -> (t: Self)
        ensures
            t.entries() == Map::<u64, TranspositionEntry>::empty(),
            t.age() == 0,
            t.capacity() == 1_000_000,
            t.hit_count() == 0,
            t.miss_count() == 0,
    {
        Self::new(1_000_000)
    }
}

} // verus!

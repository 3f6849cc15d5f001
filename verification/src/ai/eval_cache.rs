//! A cache of position evaluations keyed by Zobrist hash, separate from the
//! transposition table. When it is full, a quarter of its size in entries
//! (at least one, whichever the map yields first) are dropped before storing,
//! so it never holds more entries than its size.

use vstd::prelude::*;
use std::collections::HashMap;

verus! {

#[derive(Debug, Clone, Copy, PartialEq, Eq, Structural)]
pub struct EvalCacheEntry {
    pub score: i32,
    pub depth: i32,
}

pub struct EvalCache {
    cache: HashMap<u64, EvalCacheEntry>,
    max_size: usize,
    hits: u64,
    misses: u64,
}

/// What a probe for `hash` at `depth` finds in `m`: the stored score when
/// it was computed at least that deep.
pub open spec fn probe_result(m: Map<u64, EvalCacheEntry>, hash: u64, depth: i32) -> Option<i32> {
    if m.contains_key(hash) && m[hash].depth >= depth {
        Some(m[hash].score)
    } else {
        None
    }
}

/// Entries dropped when a cache of size `size` is full: a quarter of the
/// size, at least one.
pub open spec fn evicted_count(size: usize) -> nat {
    if size / 4 > 0 {
        (size / 4) as nat
    } else {
        1
    }
}

/// Reading back a write: after `store(hash, score, depth)` the cache holds
/// that entry, and a probe for `hash` at any depth up to `depth` returns
/// `score`; at a greater depth it misses.
pub proof fn lemma_probe_after_store(m: Map<u64, EvalCacheEntry>, hash: u64, score: i32, depth: i32, d: i32)
    requires
        m.contains_key(hash),
        m[hash] == (EvalCacheEntry { score, depth }),
    ensures
        d <= depth ==> probe_result(m, hash, d) == Some(score),
        d > depth ==> probe_result(m, hash, d) is None,
{
}

impl EvalCache {
    /// The cached entries.
    pub closed spec fn entries(self) -> Map<u64, EvalCacheEntry> {
        self.cache@
    }

    pub closed spec fn capacity(self) -> usize {
        self.max_size
    }

    pub closed spec fn hit_count(self) -> u64 {
        self.hits
    }

    pub closed spec fn miss_count(self) -> u64 {
        self.misses
    }

    pub fn new(max_size: usize) -> (c: EvalCache)
        ensures
            c.wf(),
            c.entries() == Map::<u64, EvalCacheEntry>::empty(),
            c.capacity() == max_size,
            c.hit_count() == 0,
            c.miss_count() == 0,
    {
        let cap = if max_size < 100_000 {
            max_size
        } else {
            100_000
        };
        EvalCache { cache: HashMap::with_capacity(cap), max_size, hits: 0, misses: 0 }
    }

    /// Never more entries than the size (a size of 0 bounds nothing).
    pub closed spec fn wf(self) -> bool {
        self.max_size == 0 || self.cache@.len() <= self.max_size
    }

    /// Stores the evaluation of `hash`. When the cache is full (it holds its
    /// size in entries or more), a quarter of the size in entries (at least
    /// one), whichever the map yields first, are dropped first; the entries
    /// that stay keep their values. A cache of size at least 1 thus never
    /// holds more than its size.
    pub fn store(&mut self, hash: u64, score: i32, depth: i32)
        requires
            old(self).wf(),
        ensures
            final(self).wf(),
            final(self).capacity() >= 1 ==> final(self).entries().len() <= final(self).capacity(),
            old(self).entries().len() < old(self).capacity() ==> final(self).entries() == old(self).entries().insert(
                hash,
                EvalCacheEntry { score, depth },
            ),
            old(self).entries().len() >= old(self).capacity() ==> exists|dropped: Set<u64>|
                {
                    &&& dropped.subset_of(old(self).entries().dom())
                    &&& dropped.len() == if old(self).entries().len() == 0 {
                        0
                    } else {
                        evicted_count(old(self).capacity())
                    }
                    &&& final(self).entries() == old(self).entries().remove_keys(dropped).insert(
                        hash,
                        EvalCacheEntry { score, depth },
                    )
                },
            final(self).capacity() == old(self).capacity(),
            final(self).hit_count() == old(self).hit_count(),
            final(self).miss_count() == old(self).miss_count(),
    {
        broadcast use vstd::std_specs::hash::group_hash_axioms;
        broadcast use vstd::set::group_set_axioms;
        broadcast use vstd::set_lib::group_set_properties;

        let ghost m0 = self.cache@;
        let ghost mut dropped: Set<u64> = Set::empty();
        if self.cache.len() >= self.max_size {
            let n: usize = if self.max_size / 4 > 0 {
                self.max_size / 4
            } else {
                1
            };
            let mut keys_to_remove: Vec<u64> = Vec::new();
            for key in it: self.cache.keys()
                invariant
                    m0 == self.cache@,
                    it.seq().unref().to_set() == m0.dom(),
                    it.seq().unref().no_duplicates(),
                    it.seq().len() == m0.dom().len(),
                    keys_to_remove@.len() == if it.index() < n {
                        it.index() as int
                    } else {
                        n as int
                    },
                    forall|j: int| 0 <= j < keys_to_remove@.len() ==> keys_to_remove@[j] == *it.seq()[j],
                    forall|j: int| 0 <= j < keys_to_remove@.len() ==> m0.dom().contains(#[trigger] keys_to_remove@[j]),
                    forall|a: int, b: int|
                        0 <= a < b < keys_to_remove@.len() ==> #[trigger] keys_to_remove@[a]
                            != #[trigger] keys_to_remove@[b],
            {
                let ghost idx = it.index();
                let ghost before = keys_to_remove@;
                if keys_to_remove.len() < n {
                    keys_to_remove.push(*key);
                    proof {
                        assert(it.seq().unref()[idx] == *key);
                        assert(it.seq().unref().contains(*key));
                        assert forall|a: int, b: int|
                            0 <= a < b < keys_to_remove@.len() implies #[trigger] keys_to_remove@[a]
                                != #[trigger] keys_to_remove@[b] by {
                            assert(it.seq().unref()[a] == keys_to_remove@[a]);
                            assert(it.seq().unref()[b] == keys_to_remove@[b]);
                        }
                    }
                }
            }
            let ghost removed = keys_to_remove@;
            let mut i: usize = 0;
            while i < keys_to_remove.len()
                invariant
                    i <= removed.len(),
                    keys_to_remove@ == removed,
                    self.max_size == old(self).max_size,
                    self.hits == old(self).hits,
                    self.misses == old(self).misses,
                    m0 == old(self).cache@,
                    forall|j: int| 0 <= j < removed.len() ==> m0.dom().contains(#[trigger] removed[j]),
                    forall|a: int, b: int| 0 <= a < b < removed.len() ==> #[trigger] removed[a] != #[trigger] removed[b],
                    self.cache@ == m0.remove_keys(removed.subrange(0, i as int).to_set()),
                    removed.subrange(0, i as int).to_set().len() == i,
                    removed.subrange(0, i as int).to_set().subset_of(m0.dom()),
                    self.cache@.dom().finite(),
                    self.cache@.len() == m0.len() - i,
                decreases removed.len() - i,
            {
                let k = keys_to_remove[i];
                proof {
                    assert(!removed.subrange(0, i as int).to_set().contains(k)) by {
                        if removed.subrange(0, i as int).to_set().contains(k) {
                            let j = choose|j: int| 0 <= j < i && removed.subrange(0, i as int)[j] == k;
                            assert(removed[j] == removed[i as int]);
                        }
                    }
                    assert(self.cache@.dom().contains(k));
                }
                self.cache.remove(&k);
                proof {
                    let prev = removed.subrange(0, i as int);
                    assert(removed.subrange(0, i + 1) =~= prev.push(k));
                    prev.lemma_push_to_set_commute(k);
                    assert(!prev.to_set().contains(k)) by {
                        if prev.to_set().contains(k) {
                            assert(prev.contains(k));
                            let j = choose|j: int| 0 <= j < prev.len() && prev[j] == k;
                            assert(removed[j] == removed[i as int]);
                        }
                    }
                    assert(self.cache@ =~= m0.remove_keys(removed.subrange(0, i + 1).to_set()));
                }
                i = i + 1;
            }
            proof {
                assert(removed.subrange(0, removed.len() as int) =~= removed);
                dropped = removed.to_set();
            }
        } else {
            proof {
                assert(m0.remove_keys(dropped) =~= m0);
            }
        }
        proof {
            assert(self.cache@ =~= m0.remove_keys(dropped));
        }
        self.cache.insert(hash, EvalCacheEntry { score, depth });
        proof {
            assert(self.cache@.dom() =~= m0.remove_keys(dropped).dom().insert(hash));
            assert(self.cache@.len() <= m0.remove_keys(dropped).len() + 1);
        }
    }

    /// The cached score of `hash` if it was evaluated at least `depth` deep.
    /// Counts a hit or a miss.
    pub fn probe(&mut self, hash: u64, depth: i32) -> (r: Option<i32>)
        requires
            old(self).hit_count() < u64::MAX,
            old(self).miss_count() < u64::MAX,
        ensures
            r == probe_result(old(self).entries(), hash, depth),
            r is Some ==> final(self).hit_count() == old(self).hit_count() + 1 && final(self).miss_count() == old(self).miss_count(),
            r is None ==> final(self).miss_count() == old(self).miss_count() + 1 && final(self).hit_count() == old(self).hit_count(),
            final(self).entries() == old(self).entries(),
            final(self).capacity() == old(self).capacity(),
            old(self).wf() ==> final(self).wf(),
    {
        if let Some(entry) = self.cache.get(&hash) {
            if entry.depth >= depth {
                self.hits = self.hits + 1;
                return Some(entry.score);
            }
        }
        self.misses = self.misses + 1;
        None
    }

    /// Empties the cache and resets the counters.
    pub fn clear(&mut self)
        ensures
            final(self).wf(),
            final(self).entries() == Map::<u64, EvalCacheEntry>::empty(),
            final(self).hit_count() == 0,
            final(self).miss_count() == 0,
            final(self).capacity() == old(self).capacity(),
    {
        self.cache.clear();
        self.hits = 0;
        self.misses = 0;
    }

    pub fn hits(&self) -> (h: u64)
        ensures
            h == self.hit_count(),
    {
        self.hits
    }

    pub fn misses(&self) -> (m: u64)
        ensures
            m == self.miss_count(),
    {
        self.misses
    }

    /// Number of cached entries.
    pub fn size(&self) -> (n: usize)
        ensures
            n == self.entries().len(),
    {
        self.cache.len()
    }
}

impl Default for EvalCache {
    fn default() -> (c: Self)
        ensures
            c.wf(),
            c.entries() == Map::<u64, EvalCacheEntry>::empty(),
            c.capacity() == 100_000,
            c.hit_count() == 0,
            c.miss_count() == 0,
    {
        Self::new(100_000)
    }
}

} // verus!

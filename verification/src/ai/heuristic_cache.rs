//! Pattern counts cached per 8x8 zone of the board, so that a move only
//! invalidates the zones around it.

use vstd::prelude::*;

verus! {

/// Side length of a zone.
pub const CACHE_ZONE_SIZE: usize = 8;

#[derive(Debug, Clone, Copy, PartialEq, Eq, Structural)]
pub struct CachedPatternCounts {
    pub five_in_row: u8,
    pub live_four: u8,
    pub half_free_four: u8,
    pub dead_four: u8,
    pub live_three: u8,
    pub half_free_three: u8,
    pub dead_three: u8,
    pub live_two: u8,
    pub half_free_two: u8,
}

/// All counts zero.
pub open spec fn zero_counts() -> CachedPatternCounts {
    CachedPatternCounts {
        five_in_row: 0,
        live_four: 0,
        half_free_four: 0,
        dead_four: 0,
        live_three: 0,
        half_free_three: 0,
        dead_three: 0,
        live_two: 0,
        half_free_two: 0,
    }
}

/// Field-wise saturating sum.
pub open spec fn counts_add(a: CachedPatternCounts, b: CachedPatternCounts) -> CachedPatternCounts {
    CachedPatternCounts {
        five_in_row: a.five_in_row.saturating_add(b.five_in_row),
        live_four: a.live_four.saturating_add(b.live_four),
        half_free_four: a.half_free_four.saturating_add(b.half_free_four),
        dead_four: a.dead_four.saturating_add(b.dead_four),
        live_three: a.live_three.saturating_add(b.live_three),
        half_free_three: a.half_free_three.saturating_add(b.half_free_three),
        dead_three: a.dead_three.saturating_add(b.dead_three),
        live_two: a.live_two.saturating_add(b.live_two),
        half_free_two: a.half_free_two.saturating_add(b.half_free_two),
    }
}

/// Field-wise saturating difference.
pub open spec fn counts_sub(a: CachedPatternCounts, b: CachedPatternCounts) -> CachedPatternCounts {
    CachedPatternCounts {
        five_in_row: a.five_in_row.saturating_sub(b.five_in_row),
        live_four: a.live_four.saturating_sub(b.live_four),
        half_free_four: a.half_free_four.saturating_sub(b.half_free_four),
        dead_four: a.dead_four.saturating_sub(b.dead_four),
        live_three: a.live_three.saturating_sub(b.live_three),
        half_free_three: a.half_free_three.saturating_sub(b.half_free_three),
        dead_three: a.dead_three.saturating_sub(b.dead_three),
        live_two: a.live_two.saturating_sub(b.live_two),
        half_free_two: a.half_free_two.saturating_sub(b.half_free_two),
    }
}

/// No field of `a + b` exceeds the `u8` range.
pub open spec fn sum_fits(a: CachedPatternCounts, b: CachedPatternCounts) -> bool {
    &&& a.five_in_row + b.five_in_row <= 255
    &&& a.live_four + b.live_four <= 255
    &&& a.half_free_four + b.half_free_four <= 255
    &&& a.dead_four + b.dead_four <= 255
    &&& a.live_three + b.live_three <= 255
    &&& a.half_free_three + b.half_free_three <= 255
    &&& a.dead_three + b.dead_three <= 255
    &&& a.live_two + b.live_two <= 255
    &&& a.half_free_two + b.half_free_two <= 255
}

/// Subtracting counts that were added restores the original counts, when
/// the addition did not saturate.
pub proof fn lemma_add_then_subtract(a: CachedPatternCounts, b: CachedPatternCounts)
    requires
        sum_fits(a, b),
    ensures
        counts_sub(counts_add(a, b), b) == a,
{
}

impl CachedPatternCounts {
    pub fn new() -> (c: CachedPatternCounts)
        ensures
            c == zero_counts(),
    {
        CachedPatternCounts {
            five_in_row: 0,
            live_four: 0,
            half_free_four: 0,
            dead_four: 0,
            live_three: 0,
            half_free_three: 0,
            dead_three: 0,
            live_two: 0,
            half_free_two: 0,
        }
    }

    /// Adds `other` field by field, saturating at 255.
    pub fn add(&mut self, other: &CachedPatternCounts)
        ensures
            *final(self) == counts_add(*old(self), *other),
    {
        self.five_in_row = self.five_in_row.saturating_add(other.five_in_row);
        self.live_four = self.live_four.saturating_add(other.live_four);
        self.half_free_four = self.half_free_four.saturating_add(other.half_free_four);
        self.dead_four = self.dead_four.saturating_add(other.dead_four);
        self.live_three = self.live_three.saturating_add(other.live_three);
        self.half_free_three = self.half_free_three.saturating_add(other.half_free_three);
        self.dead_three = self.dead_three.saturating_add(other.dead_three);
        self.live_two = self.live_two.saturating_add(other.live_two);
        self.half_free_two = self.half_free_two.saturating_add(other.half_free_two);
    }

    /// Subtracts `other` field by field, saturating at 0.
    pub fn subtract(&mut self, other: &CachedPatternCounts)
        ensures
            *final(self) == counts_sub(*old(self), *other),
    {
        self.five_in_row = self.five_in_row.saturating_sub(other.five_in_row);
        self.live_four = self.live_four.saturating_sub(other.live_four);
        self.half_free_four = self.half_free_four.saturating_sub(other.half_free_four);
        self.dead_four = self.dead_four.saturating_sub(other.dead_four);
        self.live_three = self.live_three.saturating_sub(other.live_three);
        self.half_free_three = self.half_free_three.saturating_sub(other.half_free_three);
        self.dead_three = self.dead_three.saturating_sub(other.dead_three);
        self.live_two = self.live_two.saturating_sub(other.live_two);
        self.half_free_two = self.half_free_two.saturating_sub(other.half_free_two);
    }
}

/// The dirty list `d` with `z` appended, unless it is listed already.
pub open spec fn with_dirty(d: Seq<ZoneCoord>, z: ZoneCoord) -> Seq<ZoneCoord> {
    if d.contains(z) {
        d
    } else {
        d.push(z)
    }
}

/// The dirty list `d` after each zone of `zones` on the `rows` by `cols`
/// grid is marked dirty, in order.
pub open spec fn dirty_after(d: Seq<ZoneCoord>, zones: Seq<ZoneCoord>, rows: usize, cols: usize) -> Seq<ZoneCoord>
    decreases zones.len(),
{
    if zones.len() == 0 {
        d
    } else {
        let prev = dirty_after(d, zones.drop_last(), rows, cols);
        let z = zones.last();
        if z.zone_row < rows && z.zone_col < cols {
            with_dirty(prev, z)
        } else {
            prev
        }
    }
}

#[derive(Debug, Clone, Copy, PartialEq, Eq, Hash, Structural)]
pub struct ZoneCoord {
    pub zone_row: usize,
    pub zone_col: usize,
}

#[derive(Debug, Clone, Copy, PartialEq, Eq, Structural)]
pub struct ZoneCache {
    pub max_patterns: CachedPatternCounts,
    pub min_patterns: CachedPatternCounts,
    pub is_valid: bool,
}

/// An invalid zone with zero counts.
pub open spec fn empty_zone() -> ZoneCache {
    ZoneCache { max_patterns: zero_counts(), min_patterns: zero_counts(), is_valid: false }
}

impl ZoneCache {
    pub fn new() -> (z: ZoneCache)
        ensures
            z == empty_zone(),
    {
        ZoneCache {
            max_patterns: CachedPatternCounts::new(),
            min_patterns: CachedPatternCounts::new(),
            is_valid: false,
        }
    }

    /// Marks the zone invalid and zeroes its counts.
    pub fn invalidate(&mut self)
        ensures
            *final(self) == empty_zone(),
    {
        self.is_valid = false;
        self.max_patterns = CachedPatternCounts::new();
        self.min_patterns = CachedPatternCounts::new();
    }
}

/// The zones to invalidate after a change at `(row, col)`: its own zone, and
/// a neighbouring zone (above, below, left, right) when the square is within
/// three squares of that side and the neighbour exists.
pub open spec fn affected_zones(row: int, col: int, zone_rows: int, zone_cols: int) -> Seq<ZoneCoord> {
    let zr = row / 8;
    let zc = col / 8;
    let own = seq![ZoneCoord { zone_row: zr as usize, zone_col: zc as usize }];
    let up = if row <= zr * 8 + 2 && zr > 0 {
        seq![ZoneCoord { zone_row: (zr - 1) as usize, zone_col: zc as usize }]
    } else {
        Seq::empty()
    };
    let down = if row >= (zr + 1) * 8 - 3 && zr + 1 < zone_rows {
        seq![ZoneCoord { zone_row: (zr + 1) as usize, zone_col: zc as usize }]
    } else {
        Seq::empty()
    };
    let left = if col <= zc * 8 + 2 && zc > 0 {
        seq![ZoneCoord { zone_row: zr as usize, zone_col: (zc - 1) as usize }]
    } else {
        Seq::empty()
    };
    let right = if col >= (zc + 1) * 8 - 3 && zc + 1 < zone_cols {
        seq![ZoneCoord { zone_row: zr as usize, zone_col: (zc + 1) as usize }]
    } else {
        Seq::empty()
    };
    own + up + down + left + right
}

#[derive(Debug, Clone)]
pub struct IncrementalHeuristicCache {
    /// Zone `(zr, zc)` is at index `zr * zone_cols + zc`.
    pub zones: Vec<ZoneCache>,
    pub zone_rows: usize,
    pub zone_cols: usize,
    pub board_size: usize,
    /// Zones invalidated since they were last recomputed, each listed once.
    pub dirty_zones: Vec<ZoneCoord>,
    pub cached_max_total: CachedPatternCounts,
    pub cached_min_total: CachedPatternCounts,
    pub cache_valid: bool,
}

impl IncrementalHeuristicCache {
    pub open spec fn rows(self) -> usize {
        self.zone_rows
    }

    pub open spec fn cols(self) -> usize {
        self.zone_cols
    }

    pub open spec fn size(self) -> usize {
        self.board_size
    }

    /// The cached zone `(zr, zc)`.
    pub open spec fn zone(self, zr: int, zc: int) -> ZoneCache {
        self.zones@[zr * self.zone_cols + zc]
    }

    pub open spec fn wf(self) -> bool {
        &&& self.zones@.len() == self.zone_rows * self.zone_cols
        &&& self.zone_rows == (self.board_size + 7) / 8
        &&& self.zone_cols == self.zone_rows
        &&& self.dirty_zones@.no_duplicates()
    }

    /// A zone grid over a `board_size` board, every zone invalid, nothing dirty.
    pub fn new(board_size: usize) -> (c: IncrementalHeuristicCache)
        requires
            board_size + 7 <= usize::MAX,
            ((board_size + 7) / 8) * ((board_size + 7) / 8) <= usize::MAX,
        ensures
            c.wf(),
            c.size() == board_size,
            c.rows() == (board_size + 7) / 8,
            c.cols() == (board_size + 7) / 8,
            forall|zr: int, zc: int|
                0 <= zr < c.rows() && 0 <= zc < c.cols() ==> #[trigger] c.zone(zr, zc) == empty_zone(),
            c.dirty_zones@.len() == 0,
            c.cached_max_total == zero_counts(),
            c.cached_min_total == zero_counts(),
            !c.cache_valid,
    {
        let zone_rows = (board_size + (CACHE_ZONE_SIZE - 1)) / CACHE_ZONE_SIZE;
        let zone_cols = (board_size + (CACHE_ZONE_SIZE - 1)) / CACHE_ZONE_SIZE;
        let total = zone_rows * zone_cols;
        let mut zones: Vec<ZoneCache> = Vec::new();
        let mut i: usize = 0;
        while i < total
            invariant
                i <= total,
                zones@.len() == i,
                forall|j: int| 0 <= j < i ==> #[trigger] zones@[j] == empty_zone(),
            decreases total - i,
        {
            zones.push(ZoneCache::new());
            i = i + 1;
        }
        let c = IncrementalHeuristicCache {
            zones,
            zone_rows,
            zone_cols,
            board_size,
            dirty_zones: Vec::new(),
            cached_max_total: CachedPatternCounts::new(),
            cached_min_total: CachedPatternCounts::new(),
            cache_valid: false,
        };
        proof {
            assert forall|zr: int, zc: int| 0 <= zr < c.rows() && 0 <= zc < c.cols() implies #[trigger] c.zone(
                zr,
                zc,
            ) == empty_zone() by {
                lemma_zone_index(zr, zc, zone_rows as int, zone_cols as int);
            }
        }
        c
    }

    /// The zone holding `(row, col)`.
    pub fn get_zone_coord(&self, row: usize, col: usize) -> (z: ZoneCoord)
        ensures
            z.zone_row == row / 8,
            z.zone_col == col / 8,
    {
        ZoneCoord { zone_row: row / CACHE_ZONE_SIZE, zone_col: col / CACHE_ZONE_SIZE }
    }

    /// The zones whose counts a change at `(row, col)` can affect.
    pub fn get_affected_zones(&self, row: usize, col: usize) -> (zones: Vec<ZoneCoord>)
        requires
            row + 8 <= usize::MAX,
            col + 8 <= usize::MAX,
        ensures
            zones@ == affected_zones(row as int, col as int, self.rows() as int, self.cols() as int),
    {
        let mut zones: Vec<ZoneCoord> = Vec::new();
        let zone_coord = self.get_zone_coord(row, col);
        zones.push(zone_coord);
        let zone_start_row = zone_coord.zone_row * CACHE_ZONE_SIZE;
        let zone_start_col = zone_coord.zone_col * CACHE_ZONE_SIZE;
        let zone_end_row = (zone_coord.zone_row + 1) * CACHE_ZONE_SIZE;
        let zone_end_col = (zone_coord.zone_col + 1) * CACHE_ZONE_SIZE;
        let ghost s0 = zones@;
        if row <= zone_start_row + 2 && zone_coord.zone_row > 0 {
            zones.push(ZoneCoord { zone_row: zone_coord.zone_row - 1, zone_col: zone_coord.zone_col });
        }
        let ghost s1 = zones@;
        if row >= zone_end_row - 3 && zone_coord.zone_row + 1 < self.zone_rows {
            zones.push(ZoneCoord { zone_row: zone_coord.zone_row + 1, zone_col: zone_coord.zone_col });
        }
        let ghost s2 = zones@;
        if col <= zone_start_col + 2 && zone_coord.zone_col > 0 {
            zones.push(ZoneCoord { zone_row: zone_coord.zone_row, zone_col: zone_coord.zone_col - 1 });
        }
        let ghost s3 = zones@;
        if col >= zone_end_col - 3 && zone_coord.zone_col + 1 < self.zone_cols {
            zones.push(ZoneCoord { zone_row: zone_coord.zone_row, zone_col: zone_coord.zone_col + 1 });
        }
        proof {
            assert(zones@ =~= affected_zones(
                row as int,
                col as int,
                self.rows() as int,
                self.cols() as int,
            ));
        }
        zones
    }

    /// Invalidates each listed zone that exists and marks it dirty; the
    /// totals are no longer valid.
    pub fn invalidate_zones(&mut self, zones: &[ZoneCoord])
        requires
            old(self).wf(),
        ensures
            final(self).wf(),
            final(self).rows() == old(self).rows(),
            final(self).cols() == old(self).cols(),
            final(self).size() == old(self).size(),
            forall|zr: int, zc: int|
                0 <= zr < old(self).rows() && 0 <= zc < old(self).cols() ==> #[trigger] final(self).zone(
                    zr,
                    zc,
                ) == if zones@.contains(ZoneCoord { zone_row: zr as usize, zone_col: zc as usize }) {
                    empty_zone()
                } else {
                    old(self).zone(zr, zc)
                },
            final(self).dirty_zones@.to_set() == old(self).dirty_zones@.to_set().union(
                zones@.to_set().filter(
                    |z: ZoneCoord| z.zone_row < old(self).rows() && z.zone_col < old(self).cols(),
                ),
            ),
            final(self).dirty_zones@ == dirty_after(
                old(self).dirty_zones@,
                zones@,
                old(self).rows(),
                old(self).cols(),
            ),
            final(self).cached_max_total == old(self).cached_max_total,
            final(self).cached_min_total == old(self).cached_min_total,
            !final(self).cache_valid,
    {
        let ghost z0 = *self;
        self.cache_valid = false;
        let mut i: usize = 0;
        while i < zones.len()
            invariant
                self.wf(),
                !self.cache_valid,
                z0 == *old(self),
                i <= zones@.len(),
                self.zone_rows == z0.zone_rows,
                self.zone_cols == z0.zone_cols,
                self.board_size == z0.board_size,
                self.cached_max_total == z0.cached_max_total,
                self.cached_min_total == z0.cached_min_total,
                forall|zr: int, zc: int|
                    0 <= zr < z0.rows() && 0 <= zc < z0.cols() ==> #[trigger] self.zone(zr, zc) == if zones@.subrange(
                        0,
                        i as int,
                    ).contains(ZoneCoord { zone_row: zr as usize, zone_col: zc as usize }) {
                        empty_zone()
                    } else {
                        z0.zone(zr, zc)
                    },
                self.dirty_zones@.to_set() == z0.dirty_zones@.to_set().union(
                    zones@.subrange(0, i as int).to_set().filter(
                        |z: ZoneCoord| z.zone_row < z0.rows() && z.zone_col < z0.cols(),
                    ),
                ),
                self.dirty_zones@ == dirty_after(z0.dirty_zones@, zones@.subrange(0, i as int), z0.rows(), z0.cols()),
            decreases zones@.len() - i,
        {
            let zone_coord = zones[i];
            let ghost before = *self;
            let ghost sub = zones@.subrange(0, i as int);
            let ghost sub2 = zones@.subrange(0, i + 1);
            proof {
                assert(sub2 =~= sub.push(zone_coord));
                assert(sub2.drop_last() =~= sub);
                sub.lemma_push_to_set_commute(zone_coord);
            }
            let total = self.zones.len();
            if zone_coord.zone_row < self.zone_rows && zone_coord.zone_col < self.zone_cols {
                proof {
                    lemma_zone_index(
                        zone_coord.zone_row as int,
                        zone_coord.zone_col as int,
                        self.zone_rows as int,
                        self.zone_cols as int,
                    );
                }
                let idx = zone_coord.zone_row * self.zone_cols + zone_coord.zone_col;
                let mut z = self.zones[idx];
                z.invalidate();
                self.zones.set(idx, z);
                self.insert_dirty(zone_coord);
            }
            proof {
                assert forall|zr: int, zc: int| 0 <= zr < z0.rows() && 0 <= zc < z0.cols() implies #[trigger] self.zone(
                    zr,
                    zc,
                ) == if sub2.contains(ZoneCoord { zone_row: zr as usize, zone_col: zc as usize }) {
                    empty_zone()
                } else {
                    z0.zone(zr, zc)
                } by {
                    let zz = ZoneCoord { zone_row: zr as usize, zone_col: zc as usize };
                    lemma_push_contains(sub, zone_coord, zz);
                    lemma_zone_index(zr, zc, self.zone_rows as int, self.zone_cols as int);
                    assert(before.zone(zr, zc) == if sub.contains(zz) {
                        empty_zone()
                    } else {
                        z0.zone(zr, zc)
                    });
                    if zone_coord.zone_row < self.zone_rows && zone_coord.zone_col < self.zone_cols {
                        let idx = zone_coord.zone_row * self.zone_cols + zone_coord.zone_col;
                        if zr * self.zone_cols + zc == idx {
                            lemma_zone_index_injective(
                                zr,
                                zc,
                                zone_coord.zone_row as int,
                                zone_coord.zone_col as int,
                                self.zone_cols as int,
                            );
                            assert(zz == zone_coord);
                            assert(self.zone(zr, zc) == empty_zone());
                        } else {
                            assert(zz != zone_coord);
                            assert(self.zones@[zr * self.zone_cols + zc] == before.zones@[zr * self.zone_cols + zc]);
                            assert(self.zone(zr, zc) == before.zone(zr, zc));
                        }
                    } else {
                        assert(zz != zone_coord);
                        assert(self.zone(zr, zc) == before.zone(zr, zc));
                    }
                }
                assert(self.dirty_zones@.to_set() =~= z0.dirty_zones@.to_set().union(
                    sub2.to_set().filter(
                        |z: ZoneCoord| z.zone_row < z0.rows() && z.zone_col < z0.cols(),
                    ),
                ));
            }
            i = i + 1;
        }
        proof {
            assert(zones@.subrange(0, zones@.len() as int) =~= zones@);
        }
    }

    /// Adds `z` to the dirty list unless it is already there.
    fn insert_dirty(&mut self, z: ZoneCoord)
        requires
            old(self).dirty_zones@.no_duplicates(),
        ensures
            final(self).dirty_zones@.no_duplicates(),
            final(self).dirty_zones@.to_set() == old(self).dirty_zones@.to_set().insert(z),
            final(self).dirty_zones@ == with_dirty(old(self).dirty_zones@, z),
            final(self).zones == old(self).zones,
            final(self).zone_rows == old(self).zone_rows,
            final(self).zone_cols == old(self).zone_cols,
            final(self).board_size == old(self).board_size,
            final(self).cached_max_total == old(self).cached_max_total,
            final(self).cached_min_total == old(self).cached_min_total,
            final(self).cache_valid == old(self).cache_valid,
    {
        let mut i: usize = 0;
        while i < self.dirty_zones.len()
            invariant
                i <= self.dirty_zones@.len(),
                *self == *old(self),
                old(self).dirty_zones@.no_duplicates(),
                forall|k: int| 0 <= k < i ==> #[trigger] self.dirty_zones@[k] != z,
            decreases self.dirty_zones@.len() - i,
        {
            let d = self.dirty_zones[i];
            if d.zone_row == z.zone_row && d.zone_col == z.zone_col {
                proof {
                    assert(self.dirty_zones@.to_set() =~= old(self).dirty_zones@.to_set().insert(z));
                    assert(self.dirty_zones@[i as int] == z);
                    assert(old(self).dirty_zones@.contains(z));
                }
                return;
            }
            i = i + 1;
        }
        let ghost before = self.dirty_zones@;
        self.dirty_zones.push(z);
        proof {
            assert(self.dirty_zones@ == before.push(z));
            before.lemma_push_to_set_commute(z);
            assert forall|a: int, b: int| 0 <= a < b < self.dirty_zones@.len() implies self.dirty_zones@[a]
                != self.dirty_zones@[b] by {
                if b == before.len() {
                    assert(before[a] != z);
                }
            }
        }
    }

    /// Invalidates the zones affected by a change at `(row, col)`.
    pub fn invalidate_position(&mut self, row: usize, col: usize)
        requires
            old(self).wf(),
            row + 8 <= usize::MAX,
            col + 8 <= usize::MAX,
        ensures
            final(self).wf(),
            final(self).rows() == old(self).rows(),
            final(self).cols() == old(self).cols(),
            final(self).size() == old(self).size(),
            forall|zr: int, zc: int|
                0 <= zr < old(self).rows() && 0 <= zc < old(self).cols() ==> #[trigger] final(self).zone(
                    zr,
                    zc,
                ) == if affected_zones(
                    row as int,
                    col as int,
                    old(self).rows() as int,
                    old(self).cols() as int,
                ).contains(ZoneCoord { zone_row: zr as usize, zone_col: zc as usize }) {
                    empty_zone()
                } else {
                    old(self).zone(zr, zc)
                },
            final(self).dirty_zones@.to_set() == old(self).dirty_zones@.to_set().union(
                affected_zones(
                    row as int,
                    col as int,
                    old(self).rows() as int,
                    old(self).cols() as int,
                ).to_set().filter(
                    |z: ZoneCoord| z.zone_row < old(self).rows() && z.zone_col < old(self).cols(),
                ),
            ),
            final(self).dirty_zones@ == dirty_after(
                old(self).dirty_zones@,
                affected_zones(row as int, col as int, old(self).rows() as int, old(self).cols() as int),
                old(self).rows(),
                old(self).cols(),
            ),
            final(self).cached_max_total == old(self).cached_max_total,
            final(self).cached_min_total == old(self).cached_min_total,
            !final(self).cache_valid,
    {
        let affected = self.get_affected_zones(row, col);
        self.invalidate_zones(affected.as_slice());
    }

    /// `(start_row, end_row, start_col, end_col)` of a zone, the ends
    /// exclusive and clipped to the board.
    pub fn get_zone_bounds(&self, zone_coord: ZoneCoord) -> (b: (usize, usize, usize, usize))
        requires
            (zone_coord.zone_row + 1) * 8 <= usize::MAX,
            (zone_coord.zone_col + 1) * 8 <= usize::MAX,
        ensures
            b.0 == zone_coord.zone_row * 8,
            b.1 == if (zone_coord.zone_row + 1) * 8 < self.size() {
                (zone_coord.zone_row + 1) * 8
            } else {
                self.size() as int
            },
            b.2 == zone_coord.zone_col * 8,
            b.3 == if (zone_coord.zone_col + 1) * 8 < self.size() {
                (zone_coord.zone_col + 1) * 8
            } else {
                self.size() as int
            },
    {
        let start_row = zone_coord.zone_row * CACHE_ZONE_SIZE;
        let end_row_raw = (zone_coord.zone_row + 1) * CACHE_ZONE_SIZE;
        let end_row = if end_row_raw < self.board_size {
            end_row_raw
        } else {
            self.board_size
        };
        let start_col = zone_coord.zone_col * CACHE_ZONE_SIZE;
        let end_col_raw = (zone_coord.zone_col + 1) * CACHE_ZONE_SIZE;
        let end_col = if end_col_raw < self.board_size {
            end_col_raw
        } else {
            self.board_size
        };
        (start_row, end_row, start_col, end_col)
    }

    /// Invalidates every zone, forgets the dirty list and zeroes the totals.
    pub fn clear(&mut self)
        requires
            old(self).wf(),
        ensures
            final(self).wf(),
            final(self).rows() == old(self).rows(),
            final(self).cols() == old(self).cols(),
            final(self).size() == old(self).size(),
            forall|zr: int, zc: int|
                0 <= zr < final(self).rows() && 0 <= zc < final(self).cols() ==> #[trigger] final(self).zone(
                    zr,
                    zc,
                ) == empty_zone(),
            final(self).dirty_zones@.len() == 0,
            final(self).cached_max_total == zero_counts(),
            final(self).cached_min_total == zero_counts(),
            !final(self).cache_valid,
    {
        let total = self.zones.len();
        let mut i: usize = 0;
        while i < total
            invariant
                total == self.zones@.len(),
                self.zones@.len() == old(self).zones@.len(),
                self.zone_rows == old(self).zone_rows,
                self.zone_cols == old(self).zone_cols,
                self.board_size == old(self).board_size,
                self.dirty_zones == old(self).dirty_zones,
                i <= total,
                forall|j: int| 0 <= j < i ==> #[trigger] self.zones@[j] == empty_zone(),
            decreases total - i,
        {
            let mut z = self.zones[i];
            z.invalidate();
            self.zones.set(i, z);
            i = i + 1;
        }
        self.dirty_zones = Vec::new();
        self.cached_max_total = CachedPatternCounts::new();
        self.cached_min_total = CachedPatternCounts::new();
        self.cache_valid = false;
        proof {
            assert forall|zr: int, zc: int| 0 <= zr < self.rows() && 0 <= zc < self.cols() implies #[trigger] self.zone(
                zr,
                zc,
            ) == empty_zone() by {
                lemma_zone_index(zr, zc, self.zone_rows as int, self.zone_cols as int);
            }
        }
    }
}

pub proof fn lemma_push_contains<A>(s: Seq<A>, x: A, y: A)
    ensures
        s.push(x).contains(y) <==> (s.contains(y) || y == x),
{
    if s.contains(y) {
        let k = choose|k: int| 0 <= k < s.len() && s[k] == y;
        assert(s.push(x)[k] == y);
    }
    if y == x {
        assert(s.push(x)[s.len() as int] == y);
    }
}

pub proof fn lemma_zone_index(zr: int, zc: int, rows: int, cols: int)
    requires
        0 <= zr < rows,
        0 <= zc < cols,
    ensures
        0 <= zr * cols + zc < rows * cols,
{
    assert(zr * cols + zc < rows * cols) by (nonlinear_arith)
        requires
            0 <= zr < rows,
            0 <= zc < cols,
    ;
    assert(0 <= zr * cols) by (nonlinear_arith)
        requires
            0 <= zr,
            0 <= cols,
    ;
}

pub proof fn lemma_zone_index_injective(zr1: int, zc1: int, zr2: int, zc2: int, cols: int)
    requires
        0 <= zr1,
        0 <= zr2,
        0 <= zc1 < cols,
        0 <= zc2 < cols,
        zr1 * cols + zc1 == zr2 * cols + zc2,
    ensures
        zr1 == zr2,
        zc1 == zc2,
{
    if zr1 < zr2 {
        assert(zr1 * cols + zc1 < zr2 * cols + zc2) by (nonlinear_arith)
            requires
                zr1 < zr2,
                0 <= zc1 < cols,
                0 <= zc2,
        ;
    } else if zr2 < zr1 {
        assert(zr2 * cols + zc2 < zr1 * cols + zc1) by (nonlinear_arith)
            requires
                zr2 < zr1,
                0 <= zc2 < cols,
                0 <= zc1,
        ;
    }
}

} // verus!

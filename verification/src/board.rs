//! Bitboard-backed board representation and utilities.
//!
//! The board is represented by three bitboards stored as `Vec<u64>`:
//! - `max_bits`: positions occupied by `Player::Max`
//! - `min_bits`: positions occupied by `Player::Min`
//! - `occupied`: union of both players' stones
//!
//! Cell `(row, col)` is global bit `row * size + col`; global bit `i` is bit
//! `i % 64` of word `i / 64`.

use vstd::prelude::*;

verus! {

#[derive(Copy, Clone, Debug, PartialEq, Eq, Hash, Structural)]
pub enum Player {
    Max,
    Min,
}

impl Player {
    /// The other player.
    pub open spec fn other(self) -> Player {
        match self {
            Player::Max => Player::Min,
            Player::Min => Player::Max,
        }
    }

    pub fn opponent(&self) -> (p: Player)
        ensures
            p == self.other(),
    {
        match self {
            Player::Max => Player::Min,
            Player::Min => Player::Max,
        }
    }
}

/// The board side lengths this representation can index: `size * size` cells
/// (plus one word of slack) must be countable in a `usize`.
pub open spec fn size_ok(size: int) -> bool {
    size * size + 64 <= usize::MAX
}

pub proof fn lemma_size_small(size: int)
    requires
        0 <= size,
        size_ok(size),
    ensures
        16 * size <= usize::MAX,
        8 * size < isize::MAX,
        size < 0x1_0000_0000,
{
    if size >= 16 {
        assert(16 * size <= size * size) by (nonlinear_arith)
            requires
                size >= 16,
        ;
    }
    if size >= 0x1_0000_0000 {
        assert(size * size >= 0x1_0000_0000 * 0x1_0000_0000) by (nonlinear_arith)
            requires
                size >= 0x1_0000_0000,
        ;
    }
}

/// `r * size + c` lies in `[0, size * size)` for an in-bounds cell.
pub proof fn lemma_index_in_range(size: int, r: int, c: int)
    requires
        0 <= r < size,
        0 <= c < size,
    ensures
        0 <= r * size + c < size * size,
        r * size + size <= size * size,
{
    assert(r * size + size <= size * size) by (nonlinear_arith)
        requires
            0 <= r < size,
    ;
    assert(0 <= r * size) by (nonlinear_arith)
        requires
            0 <= r,
            0 <= size,
    ;
}

/// Distinct in-bounds cells have distinct indices.
pub proof fn lemma_index_injective(size: int, r1: int, c1: int, r2: int, c2: int)
    requires
        0 <= r1 < size,
        0 <= c1 < size,
        0 <= r2 < size,
        0 <= c2 < size,
        r1 * size + c1 == r2 * size + c2,
    ensures
        r1 == r2,
        c1 == c2,
{
    if r1 < r2 {
        assert(r1 * size + c1 < r2 * size + c2) by (nonlinear_arith)
            requires
                r1 < r2,
                0 <= c1 < size,
                0 <= c2,
        ;
    } else if r2 < r1 {
        assert(r2 * size + c2 < r1 * size + c1) by (nonlinear_arith)
            requires
                r2 < r1,
                0 <= c2 < size,
                0 <= c1,
        ;
    }
}

/// Number of set bits among global bits `[0, limit)`.
pub open spec fn count_set(words: Seq<u64>, limit: int) -> nat
    decreases limit,
{
    if limit <= 0 {
        0
    } else {
        count_set(words, limit - 1) + if crate::bitops::bit_at(words, limit - 1) {
            1nat
        } else {
            0nat
        }
    }
}

pub proof fn lemma_count_set_bounded(words: Seq<u64>, limit: int)
    requires
        0 <= limit,
    ensures
        count_set(words, limit) <= limit,
        count_set(words, limit) == limit <==> (forall|i: int|
            0 <= i < limit ==> #[trigger] crate::bitops::bit_at(words, i)),
    decreases limit,
{
    if limit > 0 {
        lemma_count_set_bounded(words, limit - 1);
        if count_set(words, limit) == limit {
            assert forall|i: int| 0 <= i < limit implies #[trigger] crate::bitops::bit_at(
                words,
                i,
            ) by {
                if i < limit - 1 {
                    assert(count_set(words, limit - 1) == limit - 1);
                }
            }
        }
    }
}

pub proof fn lemma_count_set_ext(w1: Seq<u64>, w2: Seq<u64>, limit: int)
    requires
        forall|i: int|
            0 <= i < limit ==> crate::bitops::bit_at(w1, i) == crate::bitops::bit_at(w2, i),
    ensures
        count_set(w1, limit) == count_set(w2, limit),
    decreases limit,
{
    if limit > 0 {
        lemma_count_set_ext(w1, w2, limit - 1);
    }
}

/// Setting one more bit below `limit` adds one to the count.
pub proof fn lemma_count_set_one_more(w1: Seq<u64>, w2: Seq<u64>, j: int, limit: int)
    requires
        0 <= j < limit,
        !crate::bitops::bit_at(w1, j),
        crate::bitops::bit_at(w2, j),
        forall|i: int|
            0 <= i < limit && i != j ==> crate::bitops::bit_at(w1, i) == crate::bitops::bit_at(w2, i),
    ensures
        count_set(w2, limit) == count_set(w1, limit) + 1,
    decreases limit,
{
    if limit - 1 == j {
        lemma_count_set_ext(w1, w2, j);
    } else {
        lemma_count_set_one_more(w1, w2, j, limit - 1);
    }
}

pub proof fn lemma_zero_word_bits(j: u64)
    by (bit_vector)
    requires
        j < 64,
    ensures
        (0u64 >> j) & 1u64 != 1u64,
{
}

#[derive(Clone, Debug, PartialEq, Eq, Hash)]
pub struct Board {
    pub max_bits: Vec<u64>,
    pub min_bits: Vec<u64>,
    pub occupied: Vec<u64>,
    pub size: usize,
    pub u64_count: usize,
    pub total_cells: usize,
}

impl Board {
    pub open spec fn occ_at(self, i: int) -> bool {
        crate::bitops::bit_at(self.occupied@, i)
    }

    pub open spec fn max_at(self, i: int) -> bool {
        crate::bitops::bit_at(self.max_bits@, i)
    }

    pub open spec fn min_at(self, i: int) -> bool {
        crate::bitops::bit_at(self.min_bits@, i)
    }

    /// The bitboard of one player.
    pub open spec fn bits_of(self, p: Player) -> Seq<u64> {
        match p {
            Player::Max => self.max_bits@,
            Player::Min => self.min_bits@,
        }
    }

    pub open spec fn player_at(self, p: Player, i: int) -> bool {
        crate::bitops::bit_at(self.bits_of(p), i)
    }

    pub open spec fn in_bounds(self, r: int, c: int) -> bool {
        0 <= r < self.size && 0 <= c < self.size
    }

    pub open spec fn idx(self, r: int, c: int) -> int {
        r * self.size + c
    }

    /// The stone on global cell `i`.
    pub open spec fn cell(self, i: int) -> Option<Player> {
        if self.max_at(i) {
            Some(Player::Max)
        } else if self.min_at(i) {
            Some(Player::Min)
        } else {
            None
        }
    }

    /// The stone at `(r, c)`; `None` for an empty or off-board square.
    pub open spec fn stone(self, r: int, c: int) -> Option<Player> {
        if self.in_bounds(r, c) {
            self.cell(self.idx(r, c))
        } else {
            None
        }
    }

    /// Well-formedness: consistent sizes, `occupied` is the union of the two
    /// disjoint player bitboards, and no bit beyond the last cell is set.
    pub open spec fn wf(self) -> bool {
        &&& size_ok(self.size as int)
        &&& self.total_cells == self.size * self.size
        &&& self.u64_count == (self.total_cells + 63) / 64
        &&& self.max_bits@.len() == self.u64_count
        &&& self.min_bits@.len() == self.u64_count
        &&& self.occupied@.len() == self.u64_count
        &&& forall|i: int| #[trigger] self.occ_at(i) == (self.max_at(i) || self.min_at(i))
        &&& forall|i: int| #![trigger self.max_at(i)] !(self.max_at(i) && self.min_at(i))
        &&& forall|i: int| #[trigger] self.occ_at(i) ==> 0 <= i < self.total_cells
    }

    /// Every cell is empty.
    pub open spec fn all_empty(self) -> bool {
        forall|i: int| !#[trigger] self.occ_at(i)
    }

    /// Number of stones on the board.
    pub open spec fn stone_count(self) -> nat {
        count_set(self.occupied@, self.total_cells as int)
    }

    pub proof fn lemma_wf_facts(self)
        requires
            self.wf(),
        ensures
            self.total_cells <= self.u64_count * 64,
            self.u64_count * 64 <= self.total_cells + 64,
            8 * self.size < isize::MAX,
            self.size < 0x1_0000_0000,
            16 * self.size <= usize::MAX,
    {
        lemma_size_small(self.size as int);
    }

    /// Cell `(r, c)` as a global index, with its bounds.
    pub proof fn lemma_cell_index(self, r: int, c: int)
        requires
            self.wf(),
            self.in_bounds(r, c),
        ensures
            0 <= self.idx(r, c) < self.total_cells,
            self.idx(r, c) < self.u64_count * 64,
    {
        lemma_index_in_range(self.size as int, r, c);
    }

    /// `(r, c)` strictly precedes `(r2, c2)` in row-major order.
    pub open spec fn before(a: (usize, usize), b: (usize, usize)) -> bool {
        a.0 < b.0 || (a.0 == b.0 && a.1 < b.1)
    }

    /// `cells` lists, in row-major order and once each, exactly the on-board
    /// cells whose global index satisfies `pred`.
    pub open spec fn lists_cells(self, cells: Seq<(usize, usize)>, pred: spec_fn(int) -> bool) -> bool {
        &&& forall|k: int|
            0 <= k < cells.len() ==> self.in_bounds(#[trigger] cells[k].0 as int, cells[k].1 as int)
                && pred(self.idx(cells[k].0 as int, cells[k].1 as int))
        &&& forall|k1: int, k2: int|
            0 <= k1 < k2 < cells.len() ==> Self::before(#[trigger] cells[k1], #[trigger] cells[k2])
        &&& forall|r: int, c: int|
            self.in_bounds(r, c) && pred(self.idx(r, c)) ==> #[trigger] cells.contains(
                (r as usize, c as usize),
            )
    }

    /// On a well-formed board the occupancy bit of a cell says whether it holds a stone.
    pub proof fn lemma_stone_occ(self, r: int, c: int)
        requires
            self.wf(),
            self.in_bounds(r, c),
        ensures
            self.occ_at(self.idx(r, c)) == (self.stone(r, c) is Some),
            self.max_at(self.idx(r, c)) == (self.stone(r, c) == Some(Player::Max)),
            self.min_at(self.idx(r, c)) == (self.stone(r, c) == Some(Player::Min)),
    {
        let i = self.idx(r, c);
        assert(self.occ_at(i) == (self.max_at(i) || self.min_at(i)));
        assert(!(self.max_at(i) && self.min_at(i)));
    }

    pub fn new(size: usize) -> (b: Board)
        requires
            size_ok(size as int),
        ensures
            b.wf(),
            b.size == size,
            b.all_empty(),
            forall|r: int, c: int| b.stone(r, c) == None::<Player>,
    {
        let total_cells = size * size;
        let u64_count = (total_cells + 63) / 64;
        let b = Board {
            max_bits: vec![0u64; u64_count],
            min_bits: vec![0u64; u64_count],
            occupied: vec![0u64; u64_count],
            size,
            u64_count,
            total_cells,
        };
        proof {
            assert forall|i: int| !#[trigger] crate::bitops::bit_at(b.occupied@, i) by {
                if 0 <= i < b.occupied@.len() * 64 {
                    lemma_zero_word_bits((i % 64) as u64);
                }
            }
            assert forall|i: int| !#[trigger] crate::bitops::bit_at(b.max_bits@, i) by {
                if 0 <= i < b.max_bits@.len() * 64 {
                    lemma_zero_word_bits((i % 64) as u64);
                }
            }
            assert forall|i: int| !#[trigger] crate::bitops::bit_at(b.min_bits@, i) by {
                if 0 <= i < b.min_bits@.len() * 64 {
                    lemma_zero_word_bits((i % 64) as u64);
                }
            }
        }
        b
    }

    pub fn index(&self, row: usize, col: usize) -> (i: usize)
        requires
            row * self.size + col <= usize::MAX,
        ensures
            i == self.idx(row as int, col as int),
    {
        row * self.size + col
    }

    pub fn is_valid_position(&self, row: usize, col: usize) -> (b: bool)
        ensures
            b == self.in_bounds(row as int, col as int),
    {
        row < self.size && col < self.size
    }

    /// Sets global bit `idx`; an index past the last word changes nothing.
    pub fn set_bit(bits: &mut [u64], idx: usize)
        ensures
            final(bits)@.len() == old(bits)@.len(),
            forall|i: int|
                #![trigger crate::bitops::bit_at(final(bits)@, i)]
                crate::bitops::bit_at(final(bits)@, i) == (crate::bitops::bit_at(old(bits)@, i)
                    || (i == idx && idx < old(bits)@.len() * 64)),
    {
        let array_idx = idx / 64;
        if array_idx >= bits.len() {
            return;
        }
        let bit_idx = (idx % 64) as u64;
        let w = bits[array_idx];
        bits[array_idx] = w | (1u64 << bit_idx);
        proof {
            assert forall|i: int|
                #![trigger crate::bitops::bit_at(bits@, i)]
                crate::bitops::bit_at(bits@, i) == (crate::bitops::bit_at(old(bits)@, i) || (i
                    == idx && idx < old(bits)@.len() * 64)) by {
                if 0 <= i < bits@.len() * 64 && i / 64 == array_idx {
                    crate::bitops::lemma_or_bit(w, bit_idx, (i % 64) as u64);
                }
            }
        }
    }

    /// Clears global bit `idx`; an index past the last word changes nothing.
    pub fn clear_bit(bits: &mut [u64], idx: usize)
        ensures
            final(bits)@.len() == old(bits)@.len(),
            forall|i: int|
                #![trigger crate::bitops::bit_at(final(bits)@, i)]
                crate::bitops::bit_at(final(bits)@, i) == (crate::bitops::bit_at(old(bits)@, i)
                    && i != idx),
    {
        let array_idx = idx / 64;
        if array_idx >= bits.len() {
            return;
        }
        let bit_idx = (idx % 64) as u64;
        let w = bits[array_idx];
        bits[array_idx] = w & !(1u64 << bit_idx);
        proof {
            assert forall|i: int|
                #![trigger crate::bitops::bit_at(bits@, i)]
                crate::bitops::bit_at(bits@, i) == (crate::bitops::bit_at(old(bits)@, i) && i
                    != idx) by {
                if 0 <= i < bits@.len() * 64 && i / 64 == array_idx {
                    crate::bitops::lemma_and_not_bit(w, bit_idx, (i % 64) as u64);
                }
            }
        }
    }

    /// Whether global bit `idx` is set; `false` past the last word.
    pub fn is_bit_set(bits: &[u64], idx: usize) -> (b: bool)
        ensures
            b == crate::bitops::bit_at(bits@, idx as int),
    {
        let array_idx = idx / 64;
        if array_idx >= bits.len() {
            return false;
        }
        let bit_idx = (idx % 64) as u64;
        proof {
            crate::bitops::lemma_test_bit(bits@[array_idx as int], bit_idx);
        }
        (bits[array_idx] & (1u64 << bit_idx)) != 0
    }
    pub fn is_empty(&self) -> (b: bool)
        requires
            self.wf(),
        ensures
            b == self.all_empty(),
    {
        let mut i: usize = 0;
        while i < self.occupied.len()
            invariant
                self.wf(),
                i <= self.occupied@.len(),
                forall|k: int| 0 <= k < i ==> self.occupied@[k] == 0u64,
            decreases self.occupied@.len() - i,
        {
            let w = self.occupied[i];
            if w != 0 {
                proof {
                    vstd::std_specs::bits::axiom_u64_trailing_zeros(w);
                    let t = vstd::std_specs::bits::u64_trailing_zeros(w);
                    let g = i * 64 + t;
                    assert(g / 64 == i && g % 64 == t);
                    assert(self.occ_at(g));
                }
                return false;
            }
            i = i + 1;
        }
        proof {
            assert forall|g: int| !#[trigger] self.occ_at(g) by {
                if 0 <= g < self.occupied@.len() * 64 {
                    lemma_zero_word_bits((g % 64) as u64);
                }
            }
        }
        true
    }

    /// Counts the set bits among global bits `[0, limit)`.
    fn count_bits_below(bits: &[u64], limit: usize) -> (n: usize)
        ensures
            n == count_set(bits@, limit as int),
    {
        let mut n: usize = 0;
        let mut i: usize = 0;
        while i < limit
            invariant
                i <= limit,
                n == count_set(bits@, i as int),
                n <= i,
            decreases limit - i,
        {
            if Self::is_bit_set(bits, i) {
                n = n + 1;
            }
            i = i + 1;
        }
        n
    }

    pub fn count_stones(&self) -> (n: usize)
        requires
            self.wf(),
        ensures
            n == self.stone_count(),
    {
        Self::count_bits_below(self.occupied.as_slice(), self.total_cells)
    }

    pub fn count_player_stones(&self, player: Player) -> (n: usize)
        requires
            self.wf(),
        ensures
            n == count_set(self.bits_of(player), self.total_cells as int),
    {
        let bits = self.get_player_bits(player);
        Self::count_bits_below(bits.as_slice(), self.total_cells)
    }

    pub fn get_player_bits(&self, player: Player) -> (bits: &Vec<u64>)
        ensures
            bits@ == self.bits_of(player),
    {
        match player {
            Player::Max => &self.max_bits,
            Player::Min => &self.min_bits,
        }
    }

    pub fn get_player_bits_mut(&mut self, player: Player) -> (bits: &mut Vec<u64>)
        ensures
            player == Player::Max ==> *bits == old(self).max_bits && *final(self) == (Board {
                max_bits: *final(bits),
                ..*old(self)
            }),
            player == Player::Min ==> *bits == old(self).min_bits && *final(self) == (Board {
                min_bits: *final(bits),
                ..*old(self)
            }),
    {
        match player {
            Player::Max => &mut self.max_bits,
            Player::Min => &mut self.min_bits,
        }
    }

    pub fn center(&self) -> (c: (usize, usize))
        ensures
            c == (self.size / 2, self.size / 2),
    {
        (self.size / 2, self.size / 2)
    }

    pub fn is_empty_position(&self, row: usize, col: usize) -> (b: bool)
        requires
            self.wf(),
        ensures
            b == (self.in_bounds(row as int, col as int) && self.stone(row as int, col as int)
                is None),
    {
        if !self.is_valid_position(row, col) {
            return false;
        }
        proof {
            self.lemma_cell_index(row as int, col as int);
            self.lemma_stone_occ(row as int, col as int);
        }
        let idx = self.index(row, col);
        !Self::is_bit_set(self.occupied.as_slice(), idx)
    }

    pub fn get_player(&self, row: usize, col: usize) -> (p: Option<Player>)
        requires
            self.wf(),
        ensures
            p == self.stone(row as int, col as int),
    {
        if !self.is_valid_position(row, col) {
            return None;
        }
        proof {
            self.lemma_cell_index(row as int, col as int);
        }
        let idx = self.index(row, col);
        if Self::is_bit_set(self.max_bits.as_slice(), idx) {
            Some(Player::Max)
        } else if Self::is_bit_set(self.min_bits.as_slice(), idx) {
            Some(Player::Min)
        } else {
            None
        }
    }
    /// `b` is `a` with a stone of `p` set at `(r, c)`.
    pub open spec fn spec_placed(a: Board, b: Board, r: int, c: int, p: Player) -> bool {
        &&& forall|i: int| #[trigger] b.max_at(i) == (a.max_at(i) || (i == a.idx(r, c) && p == Player::Max))
        &&& forall|i: int| #[trigger] b.min_at(i) == (a.min_at(i) || (i == a.idx(r, c) && p == Player::Min))
        &&& forall|i: int| #[trigger] b.occ_at(i) == (a.occ_at(i) || i == a.idx(r, c))
    }

    /// `b` is `a` with square `(r, c)` cleared.
    pub open spec fn spec_removed(a: Board, b: Board, r: int, c: int) -> bool {
        &&& forall|i: int| #[trigger] b.max_at(i) == (a.max_at(i) && i != a.idx(r, c))
        &&& forall|i: int| #[trigger] b.min_at(i) == (a.min_at(i) && i != a.idx(r, c))
        &&& forall|i: int| #[trigger] b.occ_at(i) == (a.occ_at(i) && i != a.idx(r, c))
    }

    /// Placing a stone on an empty square adds exactly one stone to the board.
    pub proof fn lemma_place_adds_one_stone(a: Board, b: Board, r: int, c: int, p: Player)
        requires
            a.wf(),
            a.in_bounds(r, c),
            a.stone(r, c) is None,
            b.total_cells == a.total_cells,
            Board::spec_placed(a, b, r, c, p),
        ensures
            b.stone_count() == a.stone_count() + 1,
    {
        a.lemma_cell_index(r, c);
        a.lemma_stone_occ(r, c);
        let j = a.idx(r, c);
        assert(!a.occ_at(j) && b.occ_at(j));
        assert forall|i: int| 0 <= i < a.total_cells && i != j implies crate::bitops::bit_at(a.occupied@, i)
            == crate::bitops::bit_at(b.occupied@, i) by {
            assert(b.occ_at(i) == a.occ_at(i));
        }
        lemma_count_set_one_more(a.occupied@, b.occupied@, j, a.total_cells as int);
    }

    /// Removing the stone just placed on an empty square gives back the
    /// board as it was, bit for bit.
    pub proof fn lemma_place_then_remove(a: Board, b: Board, c2: Board, r: int, c: int, p: Player)
        requires
            a.wf(),
            a.in_bounds(r, c),
            a.stone(r, c) is None,
            b.size == a.size,
            Board::spec_placed(a, b, r, c, p),
            Board::spec_removed(b, c2, r, c),
        ensures
            forall|i: int|
                #![trigger c2.max_at(i)]
                #![trigger c2.min_at(i)]
                #![trigger c2.occ_at(i)]
                c2.max_at(i) == a.max_at(i) && c2.min_at(i) == a.min_at(i) && c2.occ_at(i) == a.occ_at(i),
    {
        a.lemma_cell_index(r, c);
        a.lemma_stone_occ(r, c);
        assert forall|i: int|
            #![trigger c2.max_at(i)]
            #![trigger c2.min_at(i)]
            #![trigger c2.occ_at(i)]
            c2.max_at(i) == a.max_at(i) && c2.min_at(i) == a.min_at(i) && c2.occ_at(i) == a.occ_at(i) by {
            assert(b.max_at(i) == (a.max_at(i) || (i == a.idx(r, c) && p == Player::Max)));
            assert(b.min_at(i) == (a.min_at(i) || (i == a.idx(r, c) && p == Player::Min)));
            assert(b.occ_at(i) == (a.occ_at(i) || i == a.idx(r, c)));
        }
    }

    /// All stones agree with `other` except possibly at `(r, c)`.
    pub open spec fn agrees_except(self, other: Board, r: int, c: int) -> bool {
        forall|r2: int, c2: int|
            (r2 != r || c2 != c) ==> #[trigger] self.stone(r2, c2) == other.stone(r2, c2)
    }

    /// Places a stone. Off-board coordinates change nothing. Placing on a
    /// square held by the other player would leave that square set in both
    /// player bitboards; the well-formedness clause excludes that case.
    pub fn place_stone(&mut self, row: usize, col: usize, player: Player)
        requires
            old(self).wf(),
        ensures
            final(self).size == old(self).size,
            final(self).u64_count == old(self).u64_count,
            final(self).total_cells == old(self).total_cells,
            !old(self).in_bounds(row as int, col as int) ==> *final(self) == *old(self),
            old(self).in_bounds(row as int, col as int) ==> Board::spec_placed(
                *old(self),
                *final(self),
                row as int,
                col as int,
                player,
            ),
            old(self).stone(row as int, col as int) != Some(player.other()) ==> {
                &&& final(self).wf()
                &&& old(self).in_bounds(row as int, col as int) ==> final(self).stone(
                    row as int,
                    col as int,
                ) == Some(player)
                &&& final(self).agrees_except(*old(self), row as int, col as int)
            },
    {
        if !self.is_valid_position(row, col) {
            return;
        }
        proof {
            self.lemma_cell_index(row as int, col as int);
        }
        let idx = self.index(row, col);
        match player {
            Player::Max => Self::set_bit(self.max_bits.as_mut_slice(), idx),
            Player::Min => Self::set_bit(self.min_bits.as_mut_slice(), idx),
        }
        Self::set_bit(self.occupied.as_mut_slice(), idx);
        proof {
            assert(self.max_bits@.len() == old(self).max_bits@.len());
            assert(self.min_bits@.len() == old(self).min_bits@.len());
            assert(self.occupied@.len() == old(self).occupied@.len());
            if old(self).stone(row as int, col as int) != Some(player.other()) {
                old(self).lemma_stone_occ(row as int, col as int);
                assert forall|i: int| #[trigger]
                    self.occ_at(i) == (self.max_at(i) || self.min_at(i)) by {
                    assert(old(self).occ_at(i) == (old(self).max_at(i) || old(self).min_at(i)));
                }
                assert forall|i: int| #![trigger self.max_at(i)] !(self.max_at(i) && self.min_at(i)) by {
                    assert(!(old(self).max_at(i) && old(self).min_at(i)));
                }
                assert forall|i: int| #[trigger] self.occ_at(i) implies 0 <= i < self.total_cells by {
                    if old(self).occ_at(i) {
                    }
                }
                assert forall|r2: int, c2: int|
                    (r2 != row || c2 != col) implies #[trigger] self.stone(r2, c2) == old(self).stone(r2, c2) by {
                    if self.in_bounds(r2, c2) {
                        lemma_index_in_range(self.size as int, r2, c2);
                        if self.idx(r2, c2) == idx {
                            lemma_index_injective(
                                self.size as int,
                                r2,
                                c2,
                                row as int,
                                col as int,
                            );
                        }
                    }
                }
            }
        }
    }

    /// Removes any stone at `(row, col)`. Off-board coordinates change nothing.
    pub fn remove_stone(&mut self, row: usize, col: usize)
        requires
            old(self).wf(),
        ensures
            final(self).wf(),
            final(self).size == old(self).size,
            final(self).u64_count == old(self).u64_count,
            final(self).total_cells == old(self).total_cells,
            !old(self).in_bounds(row as int, col as int) ==> *final(self) == *old(self),
            old(self).in_bounds(row as int, col as int) ==> Board::spec_removed(
                *old(self),
                *final(self),
                row as int,
                col as int,
            ),
            final(self).stone(row as int, col as int) is None,
            final(self).agrees_except(*old(self), row as int, col as int),
    {
        if !self.is_valid_position(row, col) {
            return;
        }
        proof {
            self.lemma_cell_index(row as int, col as int);
        }
        let idx = self.index(row, col);
        Self::clear_bit(self.max_bits.as_mut_slice(), idx);
        Self::clear_bit(self.min_bits.as_mut_slice(), idx);
        Self::clear_bit(self.occupied.as_mut_slice(), idx);
        proof {
            assert(self.max_bits@.len() == old(self).max_bits@.len());
            assert(self.min_bits@.len() == old(self).min_bits@.len());
            assert(self.occupied@.len() == old(self).occupied@.len());
            assert forall|i: int| #[trigger]
                self.occ_at(i) == (self.max_at(i) || self.min_at(i)) by {
                assert(old(self).occ_at(i) == (old(self).max_at(i) || old(self).min_at(i)));
            }
            assert forall|i: int| #![trigger self.max_at(i)] !(self.max_at(i) && self.min_at(i)) by {
                assert(!(old(self).max_at(i) && old(self).min_at(i)));
            }
            assert forall|i: int| #[trigger] self.occ_at(i) implies 0 <= i < self.total_cells by {
                assert(old(self).occ_at(i));
            }
            assert forall|r2: int, c2: int|
                (r2 != row || c2 != col) implies #[trigger] self.stone(r2, c2) == old(self).stone(
                    r2,
                    c2,
                ) by {
                if self.in_bounds(r2, c2) {
                    lemma_index_in_range(self.size as int, r2, c2);
                    if self.idx(r2, c2) == idx {
                        lemma_index_injective(self.size as int, r2, c2, row as int, col as int);
                    }
                }
            }
        }
    }

    /// Some of the eight neighbours of `(r, c)` holds a stone.
    pub open spec fn has_adjacent_stone(self, r: int, c: int) -> bool {
        exists|dr: int, dc: int|
            -1 <= dr <= 1 && -1 <= dc <= 1 && !(dr == 0 && dc == 0) && (#[trigger] self.stone(
                r + dr,
                c + dc,
            ) is Some)
    }

    pub fn is_adjacent_to_stone(&self, row: usize, col: usize) -> (b: bool)
        requires
            self.wf(),
        ensures
            b == (self.in_bounds(row as int, col as int) && self.has_adjacent_stone(
                row as int,
                col as int,
            )),
    {
        if !self.is_valid_position(row, col) {
            return false;
        }
        proof {
            self.lemma_wf_facts();
        }
        let mut dr: isize = -1;
        while dr <= 1
            invariant
                self.wf(),
                self.in_bounds(row as int, col as int),
                8 * self.size < isize::MAX,
                -1 <= dr <= 2,
                forall|dr2: int, dc2: int|
                    -1 <= dr2 < dr && -1 <= dc2 <= 1 && !(dr2 == 0 && dc2 == 0) ==> !(
                    #[trigger] self.stone(row + dr2, col + dc2) is Some),
            decreases 2 - dr,
        {
            let mut dc: isize = -1;
            while dc <= 1
                invariant
                    self.wf(),
                    self.in_bounds(row as int, col as int),
                    8 * self.size < isize::MAX,
                    -1 <= dr <= 1,
                    -1 <= dc <= 2,
                    forall|dr2: int, dc2: int|
                        -1 <= dr2 < dr && -1 <= dc2 <= 1 && !(dr2 == 0 && dc2 == 0) ==> !(
                        #[trigger] self.stone(row + dr2, col + dc2) is Some),
                    forall|dc2: int|
                        -1 <= dc2 < dc && !(dr == 0 && dc2 == 0) ==> !(#[trigger] self.stone(
                            row + dr,
                            row + dc2 - row + col,
                        ) is Some),
                decreases 2 - dc,
            {
                if !(dr == 0 && dc == 0) {
                    let nr = row as isize + dr;
                    let nc = col as isize + dc;
                    if nr >= 0 && nc >= 0 && nr < self.size as isize && nc < self.size as isize {
                        proof {
                            self.lemma_cell_index(nr as int, nc as int);
                            self.lemma_stone_occ(nr as int, nc as int);
                        }
                        let idx = self.index(nr as usize, nc as usize);
                        if Self::is_bit_set(self.occupied.as_slice(), idx) {
                            proof {
                                assert(self.stone(row + dr, col + dc) is Some);
                            }
                            return true;
                        }
                    }
                }
                dc = dc + 1;
            }
            proof {
                assert forall|dr2: int, dc2: int|
                    -1 <= dr2 < dr + 1 && -1 <= dc2 <= 1 && !(dr2 == 0 && dc2 == 0) implies !(
                    #[trigger] self.stone(row + dr2, col + dc2) is Some) by {
                    if dr2 == dr {
                        assert(!(self.stone(row + dr, row + dc2 - row + col) is Some));
                    }
                }
            }
            dr = dr + 1;
        }
        false
    }

    pub proof fn lemma_cell_of_index(self, i: int) -> (rc: (int, int))
        requires
            self.wf(),
            0 <= i < self.total_cells,
        ensures
            self.in_bounds(rc.0, rc.1),
            self.idx(rc.0, rc.1) == i,
    {
        let size = self.size as int;
        assert(size > 0) by (nonlinear_arith)
            requires
                0 <= i < size * size,
                size >= 0,
        ;
        vstd::arithmetic::div_mod::lemma_fundamental_div_mod(i, size);
        vstd::arithmetic::div_mod::lemma_mod_bound(i, size);
        let r = i / size;
        let c = i % size;
        assert(0 <= r) by (nonlinear_arith)
            requires
                0 <= i,
                size > 0,
                r == i / size,
        ;
        assert(r < size) by (nonlinear_arith)
            requires
                i == size * r + c,
                0 <= c,
                i < size * size,
                size > 0,
        ;
        assert(r * size + c == i) by (nonlinear_arith)
            requires
                i == size * r + c,
        ;
        (r, c)
    }

    /// Every square holds a stone.
    pub open spec fn all_full(self) -> bool {
        forall|i: int| 0 <= i < self.total_cells ==> #[trigger] self.occ_at(i)
    }

    /// A board is full exactly when every square holds a stone.
    pub proof fn lemma_all_full_cells(self)
        requires
            self.wf(),
        ensures
            self.all_full() <==> (forall|r: int, c: int|
                self.in_bounds(r, c) ==> #[trigger] self.stone(r, c) is Some),
    {
        if self.all_full() {
            assert forall|r: int, c: int| self.in_bounds(r, c) implies #[trigger] self.stone(
                r,
                c,
            ) is Some by {
                self.lemma_cell_index(r, c);
                self.lemma_stone_occ(r, c);
            }
        }
        if forall|r: int, c: int| self.in_bounds(r, c) ==> #[trigger] self.stone(r, c) is Some {
            assert forall|i: int| 0 <= i < self.total_cells implies #[trigger] self.occ_at(i) by {
                let rc = self.lemma_cell_of_index(i);
                self.lemma_stone_occ(rc.0, rc.1);
                assert(self.stone(rc.0, rc.1) is Some);
            }
        }
    }

    pub fn is_full(&self) -> (b: bool)
        requires
            self.wf(),
        ensures
            b == self.all_full(),
    {
        let n = self.count_stones();
        proof {
            lemma_count_set_bounded(self.occupied@, self.total_cells as int);
            if n == self.total_cells {
                assert forall|i: int| 0 <= i < self.total_cells implies #[trigger] self.occ_at(i) by {
                    assert(crate::bitops::bit_at(self.occupied@, i));
                }
            } else {
                let i = choose|i: int|
                    0 <= i < self.total_cells && !crate::bitops::bit_at(self.occupied@, i);
                assert(!self.occ_at(i));
            }
        }
        n == self.total_cells
    }

    /// Lists, in row-major order, the cells whose global bit in `bits` equals `want`.
    fn cells_where(&self, bits: &[u64], want: bool) -> (cells: Vec<(usize, usize)>)
        requires
            self.wf(),
        ensures
            self.lists_cells(cells@, |i: int| crate::bitops::bit_at(bits@, i) == want),
    {
        let ghost pred = |i: int| crate::bitops::bit_at(bits@, i) == want;
        let mut cells: Vec<(usize, usize)> = Vec::new();
        let mut r: usize = 0;
        while r < self.size
            invariant
                self.wf(),
                r <= self.size,
                pred == (|i: int| crate::bitops::bit_at(bits@, i) == want),
                forall|k: int|
                    0 <= k < cells@.len() ==> self.in_bounds(
                        #[trigger] cells@[k].0 as int,
                        cells@[k].1 as int,
                    ) && pred(self.idx(cells@[k].0 as int, cells@[k].1 as int)) && cells@[k].0 < r,
                forall|k1: int, k2: int|
                    0 <= k1 < k2 < cells@.len() ==> Self::before(
                        #[trigger] cells@[k1],
                        #[trigger] cells@[k2],
                    ),
                forall|r2: int, c2: int|
                    0 <= r2 < r && 0 <= c2 < self.size && pred(self.idx(r2, c2))
                        ==> #[trigger] cells@.contains((r2 as usize, c2 as usize)),
            decreases self.size - r,
        {
            let mut c: usize = 0;
            while c < self.size
                invariant
                    self.wf(),
                    r < self.size,
                    c <= self.size,
                    pred == (|i: int| crate::bitops::bit_at(bits@, i) == want),
                    forall|k: int|
                        0 <= k < cells@.len() ==> self.in_bounds(
                            #[trigger] cells@[k].0 as int,
                            cells@[k].1 as int,
                        ) && pred(self.idx(cells@[k].0 as int, cells@[k].1 as int)) && Self::before(
                            cells@[k],
                            (r, c),
                        ),
                    forall|k1: int, k2: int|
                        0 <= k1 < k2 < cells@.len() ==> Self::before(
                            #[trigger] cells@[k1],
                            #[trigger] cells@[k2],
                        ),
                    forall|r2: int, c2: int|
                        (0 <= r2 < r && 0 <= c2 < self.size || r2 == r && 0 <= c2 < c) && pred(
                            self.idx(r2, c2),
                        ) ==> #[trigger] cells@.contains((r2 as usize, c2 as usize)),
                decreases self.size - c,
            {
                proof {
                    self.lemma_cell_index(r as int, c as int);
                }
                let idx = self.index(r, c);
                if Self::is_bit_set(bits, idx) == want {
                    let ghost old_cells = cells@;
                    cells.push((r, c));
                    proof {
                        assert(cells@[old_cells.len() as int] == (r, c));
                        assert forall|r2: int, c2: int|
                            (0 <= r2 < r && 0 <= c2 < self.size || r2 == r && 0 <= c2 < c + 1)
                                && pred(self.idx(r2, c2)) implies #[trigger] cells@.contains(
                            (r2 as usize, c2 as usize),
                        ) by {
                            if r2 == r && c2 == c {
                                assert(cells@[old_cells.len() as int] == (r2 as usize, c2 as usize));
                            } else {
                                assert(old_cells.contains((r2 as usize, c2 as usize)));
                                let k = choose|k: int|
                                    0 <= k < old_cells.len() && old_cells[k] == (
                                        r2 as usize,
                                        c2 as usize,
                                    );
                                assert(cells@[k] == (r2 as usize, c2 as usize));
                            }
                        }
                    }
                }
                c = c + 1;
            }
            r = r + 1;
        }
        cells
    }

    /// The cells whose bit is set in `bitboard`, in row-major order.
    pub fn collect_bit_positions(&self, bitboard: &[u64]) -> (cells: Vec<(usize, usize)>)
        requires
            self.wf(),
        ensures
            self.lists_cells(cells@, |i: int| crate::bitops::bit_at(bitboard@, i)),
    {
        let cells = self.cells_where(bitboard, true);
        proof {
            assert((|i: int| crate::bitops::bit_at(bitboard@, i) == true) =~= (|i: int|
                crate::bitops::bit_at(bitboard@, i)));
        }
        cells
    }

    /// The empty squares, in row-major order.
    pub fn get_empty_positions(&self) -> (cells: Vec<(usize, usize)>)
        requires
            self.wf(),
        ensures
            self.lists_cells(cells@, |i: int| !self.occ_at(i)),
    {
        let cells = self.cells_where(self.occupied.as_slice(), false);
        proof {
            assert((|i: int| crate::bitops::bit_at(self.occupied@, i) == false) =~= (|i: int|
                !self.occ_at(i)));
        }
        cells
    }

    /// The occupied squares, in row-major order, each with its stone.
    pub fn get_occupied_positions(&self) -> (stones: Vec<((usize, usize), Player)>)
        requires
            self.wf(),
        ensures
            self.lists_cells(
                stones@.map_values(|e: ((usize, usize), Player)| e.0),
                |i: int| self.occ_at(i),
            ),
            forall|k: int|
                0 <= k < stones@.len() ==> self.stone(
                    #[trigger] stones@[k].0.0 as int,
                    stones@[k].0.1 as int,
                ) == Some(stones@[k].1),
    {
        let cells = self.collect_bit_positions(self.occupied.as_slice());
        let mut stones: Vec<((usize, usize), Player)> = Vec::new();
        let mut k: usize = 0;
        while k < cells.len()
            invariant
                self.wf(),
                self.lists_cells(cells@, |i: int| self.occ_at(i)),
                k <= cells@.len(),
                stones@.len() == k,
                forall|j: int| 0 <= j < k ==> #[trigger] stones@[j].0 == cells@[j],
                forall|j: int|
                    0 <= j < k ==> self.stone(
                        #[trigger] stones@[j].0.0 as int,
                        stones@[j].0.1 as int,
                    ) == Some(stones@[j].1),
            decreases cells@.len() - k,
        {
            let (row, col) = cells[k];
            proof {
                assert(self.in_bounds(cells@[k as int].0 as int, cells@[k as int].1 as int));
                self.lemma_cell_index(row as int, col as int);
                self.lemma_stone_occ(row as int, col as int);
            }
            let idx = self.index(row, col);
            let player = if Self::is_bit_set(self.max_bits.as_slice(), idx) {
                Player::Max
            } else {
                Player::Min
            };
            stones.push(((row, col), player));
            k = k + 1;
        }
        proof {
            assert(stones@.map_values(|e: ((usize, usize), Player)| e.0) =~= cells@);
        }
        stones
    }
}

} // verus!

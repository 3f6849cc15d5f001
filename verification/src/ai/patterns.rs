//! A lookup table of scores for every line of five squares.
//!
//! A line is encoded in base 3, one digit per square from the least
//! significant: 0 empty, 1 Max, 2 Min. There are `3^5 = 243` lines.

use vstd::prelude::*;
use std::collections::HashMap;

verus! {

pub open spec fn pow3(i: nat) -> nat
    decreases i,
{
    if i == 0 {
        1
    } else {
        3 * pow3((i - 1) as nat)
    }
}

/// Square `i` of the encoded line `p`.
pub open spec fn digit(p: u32, i: nat) -> u32 {
    ((p as nat / pow3(i)) % 3) as u32
}

/// The five squares of the encoded line `p`.
pub open spec fn pieces_of(p: u32) -> Seq<u32> {
    Seq::new(5, |i: int| digit(p, i as nat))
}

/// Occurrences of `v` among the first `n` elements of `s`.
pub open spec fn count_in(s: Seq<u32>, v: u32, n: int) -> int
    decreases n,
{
    if n <= 0 {
        0
    } else {
        count_in(s, v, n - 1) + if s[n - 1] == v {
            1int
        } else {
            0int
        }
    }
}

/// Index of the first `v` in `s` from `i` on.
pub open spec fn first_pos(s: Seq<u32>, v: u32, i: int) -> Option<int>
    decreases s.len() - i,
{
    if i < 0 || i >= s.len() {
        None
    } else if s[i] == v {
        Some(i)
    } else {
        first_pos(s, v, i + 1)
    }
}

/// Index of the last `v` in `s` before `n`.
pub open spec fn last_pos(s: Seq<u32>, v: u32, n: int) -> Option<int>
    decreases n,
{
    if n <= 0 {
        None
    } else if s[n - 1] == v {
        Some(n - 1)
    } else {
        last_pos(s, v, n - 1)
    }
}

/// The first empty square is neither end of the line.
pub open spec fn spec_open_four(s: Seq<u32>) -> bool {
    match first_pos(s, 0, 0) {
        Some(pos) => 0 < pos < 4,
        None => false,
    }
}

/// Exactly `k` stones of `player`, spanning at most four squares.
pub open spec fn spec_open_k(s: Seq<u32>, player: u32, k: int) -> bool {
    &&& count_in(s, player, s.len() as int) == k
    &&& last_pos(s, player, s.len() as int).unwrap() - first_pos(s, player, 0).unwrap() <= 3
}

/// Score of the encoded line `p`, positive for Max, negative for Min.
pub open spec fn spec_line_score(p: u32) -> int {
    let s = pieces_of(p);
    let maxc = count_in(s, 1, 5);
    let minc = count_in(s, 2, 5);
    let empty = count_in(s, 0, 5);
    if maxc == 5 {
        100_000
    } else if minc == 5 {
        -100_000
    } else if maxc == 4 && empty == 1 {
        if spec_open_four(s) {
            50_000
        } else {
            10_000
        }
    } else if minc == 4 && empty == 1 {
        if spec_open_four(s) {
            -50_000
        } else {
            -10_000
        }
    } else if maxc == 3 && empty == 2 {
        if spec_open_k(s, 1, 3) {
            5_000
        } else {
            1_000
        }
    } else if minc == 3 && empty == 2 {
        if spec_open_k(s, 2, 3) {
            -5_000
        } else {
            -1_000
        }
    } else if maxc == 2 && empty == 3 {
        if spec_open_k(s, 1, 2) {
            100
        } else {
            10
        }
    } else if minc == 2 && empty == 3 {
        if spec_open_k(s, 2, 2) {
            -100
        } else {
            -10
        }
    } else {
        0
    }
}

/// The square seen from the other player: Max and Min exchanged.
pub open spec fn swap_piece(d: u32) -> u32 {
    if d == 1 {
        2
    } else if d == 2 {
        1
    } else {
        d
    }
}

proof fn lemma_count_swapped(s: Seq<u32>, t: Seq<u32>, v: u32, n: int)
    requires
        s.len() == t.len(),
        0 <= n <= s.len(),
        forall|i: int| 0 <= i < s.len() ==> #[trigger] t[i] == swap_piece(s[i]),
    ensures
        count_in(t, swap_piece(v), n) == count_in(s, v, n),
    decreases n,
{
    if n > 0 {
        lemma_count_swapped(s, t, v, n - 1);
        assert(t[n - 1] == swap_piece(s[n - 1]));
    }
}

proof fn lemma_first_pos_swapped(s: Seq<u32>, t: Seq<u32>, v: u32, i: int)
    requires
        s.len() == t.len(),
        forall|k: int| 0 <= k < s.len() ==> #[trigger] t[k] == swap_piece(s[k]),
    ensures
        first_pos(t, swap_piece(v), i) == first_pos(s, v, i),
    decreases s.len() - i,
{
    if 0 <= i < s.len() {
        assert(t[i] == swap_piece(s[i]));
        lemma_first_pos_swapped(s, t, v, i + 1);
    }
}

proof fn lemma_last_pos_swapped(s: Seq<u32>, t: Seq<u32>, v: u32, n: int)
    requires
        s.len() == t.len(),
        n <= s.len(),
        forall|k: int| 0 <= k < s.len() ==> #[trigger] t[k] == swap_piece(s[k]),
    ensures
        last_pos(t, swap_piece(v), n) == last_pos(s, v, n),
    decreases n,
{
    if n > 0 {
        assert(t[n - 1] == swap_piece(s[n - 1]));
        lemma_last_pos_swapped(s, t, v, n - 1);
    }
}

proof fn lemma_counts_sum(s: Seq<u32>, n: int)
    requires
        0 <= n <= s.len(),
        forall|i: int| 0 <= i < s.len() ==> #[trigger] s[i] < 3,
    ensures
        count_in(s, 0, n) + count_in(s, 1, n) + count_in(s, 2, n) == n,
        count_in(s, 0, n) >= 0,
        count_in(s, 1, n) >= 0,
        count_in(s, 2, n) >= 0,
    decreases n,
{
    if n > 0 {
        lemma_counts_sum(s, n - 1);
        assert(s[n - 1] < 3);
    }
}

/// Exchanging the players on a line negates its score: a line of `q` that
/// holds Min wherever `p` holds Max and Max wherever `p` holds Min scores
/// minus the score of `p`. (`lookup_pattern` returns this score.)
pub proof fn lemma_line_score_antisymmetric(p: u32, q: u32)
    requires
        forall|i: nat| i < 5 ==> #[trigger] digit(q, i) == swap_piece(digit(p, i)),
    ensures
        spec_line_score(q) == -spec_line_score(p),
{
    let s = pieces_of(p);
    let t = pieces_of(q);
    assert forall|k: int| 0 <= k < s.len() implies #[trigger] t[k] == swap_piece(s[k]) by {
        assert(digit(q, k as nat) == swap_piece(digit(p, k as nat)));
    }
    assert forall|k: int| 0 <= k < s.len() implies #[trigger] s[k] < 3 by {
        assert(digit(p, k as nat) < 3);
    }
    lemma_counts_sum(s, 5);
    lemma_count_swapped(s, t, 1, 5);
    lemma_count_swapped(s, t, 2, 5);
    lemma_count_swapped(s, t, 0, 5);
    lemma_first_pos_swapped(s, t, 0, 0);
    lemma_first_pos_swapped(s, t, 1, 0);
    lemma_first_pos_swapped(s, t, 2, 0);
    lemma_last_pos_swapped(s, t, 1, 5);
    lemma_last_pos_swapped(s, t, 2, 5);
    assert(swap_piece(1) == 2 && swap_piece(2) == 1 && swap_piece(0) == 0);
    assert(s.len() == 5 && t.len() == 5);
    assert(count_in(t, 2, 5) == count_in(s, 1, 5));
    assert(count_in(t, 1, 5) == count_in(s, 2, 5));
    assert(count_in(t, 0, 5) == count_in(s, 0, 5));
    assert(spec_open_four(t) == spec_open_four(s));
    assert(first_pos(t, 2, 0) == first_pos(s, 1, 0));
    assert(first_pos(t, 1, 0) == first_pos(s, 2, 0));
    assert(last_pos(t, 2, 5) == last_pos(s, 1, 5));
    assert(last_pos(t, 1, 5) == last_pos(s, 2, 5));
    assert(spec_open_k(t, 2, 3) == spec_open_k(s, 1, 3));
    assert(spec_open_k(t, 1, 3) == spec_open_k(s, 2, 3));
    assert(spec_open_k(t, 2, 2) == spec_open_k(s, 1, 2));
    assert(spec_open_k(t, 1, 2) == spec_open_k(s, 2, 2));
}

pub proof fn lemma_pow3_pos(i: nat)
    ensures
        pow3(i) > 0,
    decreases i,
{
    if i > 0 {
        lemma_pow3_pos((i - 1) as nat);
    }
}

pub struct PatternTable {
    patterns: HashMap<u32, i32>,
}

impl PatternTable {
    /// The score stored for every line, and nothing else.
    pub closed spec fn wf(self) -> bool {
        &&& forall|p: u32| #[trigger] self.patterns@.contains_key(p) <==> p < 243
        &&& forall|p: u32| p < 243 ==> #[trigger] self.patterns@[p] == spec_line_score(p)
    }

    pub fn new() -> (t: PatternTable)
        ensures
            t.wf(),
    {
        let mut table = PatternTable { patterns: HashMap::with_capacity(1024) };
        table.initialize_patterns();
        table
    }

    /// Stores the score of each of the 243 lines.
    fn initialize_patterns(&mut self)
        requires
            old(self).patterns@ == Map::<u32, i32>::empty(),
        ensures
            final(self).wf(),
    {
        let mut pattern: u32 = 0;
        while pattern < 243
            invariant
                pattern <= 243,
                forall|p: u32| #[trigger] self.patterns@.contains_key(p) <==> p < pattern,
                forall|p: u32| p < pattern ==> #[trigger] self.patterns@[p] == spec_line_score(p),
            decreases 243 - pattern,
        {
            let score = Self::evaluate_pattern_static(pattern);
            self.patterns.insert(pattern, score);
            pattern = pattern + 1;
        }
    }

    /// The five squares of an encoded line.
    fn pieces(pattern: u32) -> (pieces: Vec<u32>)
        ensures
            pieces@ == pieces_of(pattern),
    {
        let mut pieces: Vec<u32> = Vec::new();
        let mut temp = pattern;
        let mut i: usize = 0;
        assert(pow3(0) == 1);
        while i < 5
            invariant
                i <= 5,
                pieces@.len() == i,
                temp == pattern as nat / pow3(i as nat),
                forall|j: int| 0 <= j < i ==> #[trigger] pieces@[j] == digit(pattern, j as nat),
            decreases 5 - i,
        {
            proof {
                lemma_pow3_pos(i as nat);
                vstd::arithmetic::div_mod::lemma_div_denominator(
                    pattern as int,
                    pow3(i as nat) as int,
                    3,
                );
                assert(pow3((i + 1) as nat) == pow3(i as nat) * 3);
            }
            pieces.push(temp % 3);
            temp = temp / 3;
            i = i + 1;
        }
        proof {
            assert(pieces@ =~= pieces_of(pattern));
        }
        pieces
    }

    /// Occurrences of `v` in `pieces`.
    fn count_value(pieces: &[u32], v: u32) -> (n: usize)
        ensures
            n == count_in(pieces@, v, pieces@.len() as int),
    {
        let mut n: usize = 0;
        let mut i: usize = 0;
        while i < pieces.len()
            invariant
                i <= pieces@.len(),
                n == count_in(pieces@, v, i as int),
                n <= i,
            decreases pieces@.len() - i,
        {
            if pieces[i] == v {
                n = n + 1;
            }
            i = i + 1;
        }
        n
    }

    /// Score of an encoded line.
    fn evaluate_pattern_static(pattern: u32) -> (s: i32)
        ensures
            s == spec_line_score(pattern),
    {
        let pieces = Self::pieces(pattern);
        let max_count = Self::count_value(pieces.as_slice(), 1);
        let min_count = Self::count_value(pieces.as_slice(), 2);
        let empty_count = Self::count_value(pieces.as_slice(), 0);
        if max_count == 5 {
            return 100_000;
        }
        if min_count == 5 {
            return -100_000;
        }
        if max_count == 4 && empty_count == 1 {
            return if Self::is_open_four(pieces.as_slice(), 1) {
                50_000
            } else {
                10_000
            };
        }
        if min_count == 4 && empty_count == 1 {
            return if Self::is_open_four(pieces.as_slice(), 2) {
                -50_000
            } else {
                -10_000
            };
        }
        if max_count == 3 && empty_count == 2 {
            return if Self::is_open_three(pieces.as_slice(), 1) {
                5_000
            } else {
                1_000
            };
        }
        if min_count == 3 && empty_count == 2 {
            return if Self::is_open_three(pieces.as_slice(), 2) {
                -5_000
            } else {
                -1_000
            };
        }
        if max_count == 2 && empty_count == 3 {
            return if Self::is_open_two(pieces.as_slice(), 1) {
                100
            } else {
                10
            };
        }
        if min_count == 2 && empty_count == 3 {
            return if Self::is_open_two(pieces.as_slice(), 2) {
                -100
            } else {
                -10
            };
        }
        0
    }

    /// Index of the first `v` in `pieces`.
    fn position_of(pieces: &[u32], v: u32) -> (r: Option<usize>)
        ensures
            r matches Some(i) ==> first_pos(pieces@, v, 0) == Some(i as int),
            r is None ==> first_pos(pieces@, v, 0) is None,
    {
        let mut i: usize = 0;
        while i < pieces.len()
            invariant
                i <= pieces@.len(),
                first_pos(pieces@, v, 0) == first_pos(pieces@, v, i as int),
            decreases pieces@.len() - i,
        {
            if pieces[i] == v {
                return Some(i);
            }
            i = i + 1;
        }
        None
    }

    /// Index of the last `v` in `pieces`.
    fn last_position_of(pieces: &[u32], v: u32) -> (r: Option<usize>)
        ensures
            r matches Some(i) ==> last_pos(pieces@, v, pieces@.len() as int) == Some(i as int),
            r is None ==> last_pos(pieces@, v, pieces@.len() as int) is None,
    {
        let mut n: usize = pieces.len();
        while n > 0
            invariant
                n <= pieces@.len(),
                last_pos(pieces@, v, pieces@.len() as int) == last_pos(pieces@, v, n as int),
            decreases n,
        {
            if pieces[n - 1] == v {
                return Some(n - 1);
            }
            n = n - 1;
        }
        None
    }

    /// The first empty square is neither end of the line.
    fn is_open_four(pieces: &[u32], _player: u32) -> (b: bool)
        ensures
            b == spec_open_four(pieces@),
    {
        match Self::position_of(pieces, 0) {
            Some(pos) => pos > 0 && pos < 4,
            None => false,
        }
    }

    /// Exactly `k` stones of `player`, spanning at most four squares.
    fn is_open_k(pieces: &[u32], player: u32, k: usize) -> (b: bool)
        requires
            k > 0,
        ensures
            b == spec_open_k(pieces@, player, k as int),
    {
        let n = Self::count_value(pieces, player);
        if n != k {
            return false;
        }
        match (Self::position_of(pieces, player), Self::last_position_of(pieces, player)) {
            (Some(min_pos), Some(max_pos)) => {
                if max_pos >= min_pos {
                    max_pos - min_pos <= 3
                } else {
                    true
                }
            },
            _ => {
                proof {
                    lemma_positions_exist(pieces@, player);
                }
                false
            },
        }
    }

    fn is_open_three(pieces: &[u32], player: u32) -> (b: bool)
        ensures
            b == spec_open_k(pieces@, player, 3),
    {
        Self::is_open_k(pieces, player, 3)
    }

    fn is_open_two(pieces: &[u32], player: u32) -> (b: bool)
        ensures
            b == spec_open_k(pieces@, player, 2),
    {
        Self::is_open_k(pieces, player, 2)
    }

    /// The score of an encoded line; 0 for codes past the last line.
    pub fn lookup_pattern(&self, pattern: u32) -> (s: i32)
        requires
            self.wf(),
        ensures
            s == if pattern < 243 {
                spec_line_score(pattern)
            } else {
                0
            },
            -100_000 <= s <= 100_000,
    {
        match self.patterns.get(&pattern) {
            Some(v) => *v,
            None => 0,
        }
    }
}

/// A value that occurs somewhere in `s` has a first and a last position.
pub proof fn lemma_positions_exist(s: Seq<u32>, v: u32)
    ensures
        count_in(s, v, s.len() as int) > 0 ==> first_pos(s, v, 0) is Some && last_pos(
            s,
            v,
            s.len() as int,
        ) is Some,
{
    lemma_count_first(s, v, 0);
    lemma_count_last(s, v, s.len() as int);
}

proof fn lemma_count_first(s: Seq<u32>, v: u32, i: int)
    requires
        0 <= i <= s.len(),
    ensures
        count_in(s, v, s.len() as int) > count_in(s, v, i) ==> first_pos(s, v, i) is Some,
    decreases s.len() - i,
{
    if i < s.len() {
        lemma_count_first(s, v, i + 1);
    }
}

proof fn lemma_count_last(s: Seq<u32>, v: u32, n: int)
    requires
        0 <= n <= s.len(),
    ensures
        count_in(s, v, n) > 0 ==> last_pos(s, v, n) is Some,
    decreases n,
{
    if n > 0 {
        lemma_count_last(s, v, n - 1);
    }
}

/// The pattern table, built afresh.
pub fn get_pattern_table() -> (t: PatternTable)
    ensures
        t.wf(),
{
    PatternTable::new()
}

} // verus!

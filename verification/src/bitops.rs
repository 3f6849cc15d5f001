//! Single-bit facts about `u64` words, used by the bitboards.

use vstd::prelude::*;

verus! {

/// Bit `j` of word `w` is set.
pub open spec fn word_bit(w: u64, j: int) -> bool {
    ((w >> (j as u64)) & 1u64) == 1u64
}

/// Global bit `idx` of a sequence of words (64 bits per word, lowest index first).
pub open spec fn bit_at(words: Seq<u64>, idx: int) -> bool {
    0 <= idx && idx < words.len() * 64 && word_bit(words[idx / 64], idx % 64)
}

pub proof fn lemma_or_bit(w: u64, b: u64, j: u64)
    by (bit_vector)
    requires
        b < 64,
        j < 64,
    ensures
        (((w | (1u64 << b)) >> j) & 1u64 == 1u64) == (j == b || (w >> j) & 1u64 == 1u64),
{
}

pub proof fn lemma_and_not_bit(w: u64, b: u64, j: u64)
    by (bit_vector)
    requires
        b < 64,
        j < 64,
    ensures
        (((w & !(1u64 << b)) >> j) & 1u64 == 1u64) == (j != b && (w >> j) & 1u64 == 1u64),
{
}

pub proof fn lemma_test_bit(w: u64, b: u64)
    by (bit_vector)
    requires
        b < 64,
    ensures
        ((w & (1u64 << b)) != 0u64) == ((w >> b) & 1u64 == 1u64),
{
}

} // verus!

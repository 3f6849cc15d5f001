//! Zobrist hashing of positions.
//!
//! Each (square, player) pair gets a 64-bit key and the side to move gets one
//! more; a position hashes to the XOR of the keys of its stones, with the
//! side key included when Min is to move. The keys come from a ChaCha8
//! generator with a fixed seed, so every table built for the same board size
//! holds the same keys. Making or undoing a move, or removing or restoring
//! captured stones, changes the hash by XOR with the keys involved.

use vstd::prelude::*;
use crate::board::{Board, Player};
use crate::state::GameState;
use rand::Rng;
use rand_chacha::rand_core::SeedableRng;
use rand_chacha::ChaCha8Rng;

verus! {

/// Seed of the key generator.
pub const ZOBRIST_SEED: u64 = 0x123456789ABCDEF0;

/// The 64-bit output of the ChaCha8 stream seeded from `seed` that starts at
/// 32-bit word `word_pos`.
pub uninterp spec fn chacha8_u64_at(seed: u64, word_pos: u128) -> u64;

/// The ChaCha8 generator of `rand_chacha` seeded with
/// `SeedableRng::seed_from_u64(seed)`, moved by `set_word_pos(word_pos)` to
/// that 32-bit word of its stream, then read once with `Rng::random::<u64>`:
/// the 64-bit output that starts there. ChaCha8 from a given seed is a fixed
/// stream, so the key depends on `seed` and `word_pos` alone; its value is
/// not stated.
#[verifier::external_body]
fn chacha8_key(seed: u64, word_pos: u128) -> (k: u64)
    ensures
        k == chacha8_u64_at(seed, word_pos),
{
    let mut rng = ChaCha8Rng::seed_from_u64(seed);
    rng.set_word_pos(word_pos);
    rng.random::<u64>()
}

pub proof fn lemma_xor_swap(a: u64, b: u64, c: u64)
    ensures
        (a ^ b) ^ c == (a ^ c) ^ b,
{
    assert((a ^ b) ^ c == (a ^ c) ^ b) by (bit_vector);
}

pub proof fn lemma_xor_cancel(a: u64, b: u64)
    ensures
        (a ^ b) ^ b == a,
        a ^ 0 == a,
{
    assert((a ^ b) ^ b == a) by (bit_vector);
    assert(a ^ 0 == a) by (bit_vector);
}

pub proof fn lemma_xor_assoc(a: u64, b: u64, c: u64)
    ensures
        (a ^ b) ^ c == a ^ (b ^ c),
        a ^ b == b ^ a,
{
    assert((a ^ b) ^ c == a ^ (b ^ c)) by (bit_vector);
    assert(a ^ b == b ^ a) by (bit_vector);
}

#[derive(Clone, Debug, PartialEq, Eq, Hash)]
pub struct ZobristHash {
    position_keys: Vec<[u64; 2]>,
    player_key: u64,
    board_size: usize,
}

/// Key slot of a player: 0 for Max, 1 for Min.
pub open spec fn slot(p: Player) -> int {
    match p {
        Player::Max => 0,
        Player::Min => 1,
    }
}

impl ZobristHash {
    /// Number of squares with keys.
    pub closed spec fn num_keys(self) -> nat {
        self.position_keys@.len()
    }

    /// Key of player `p` on global square `i`.
    pub closed spec fn key(self, i: int, p: Player) -> u64 {
        self.position_keys@[i]@[slot(p)]
    }

    /// Key of the side to move (included when Min is to move).
    pub closed spec fn side_key(self) -> u64 {
        self.player_key
    }

    pub closed spec fn size_spec(self) -> usize {
        self.board_size
    }

    /// One key pair for each square of the board.
    pub open spec fn wf(self) -> bool {
        self.num_keys() == self.size_spec() * self.size_spec()
    }

    /// The keys for a board of side `board_size`, drawn in order from the
    /// ChaCha8 stream seeded with `ZOBRIST_SEED`: for each square, Max's key
    /// then Min's (two 32-bit words each), then the side key. Every table for
    /// the same size thus holds the same keys.
    pub fn new(board_size: usize) -> (z: ZobristHash)
        requires
            crate::board::size_ok(board_size as int),
        ensures
            z.wf(),
            z.size_spec() == board_size,
            forall|i: int, p: Player|
                0 <= i < board_size * board_size ==> #[trigger] z.key(i, p) == chacha8_u64_at(
                    ZOBRIST_SEED,
                    (4 * i + 2 * slot(p)) as u128,
                ),
            z.side_key() == chacha8_u64_at(ZOBRIST_SEED, (4 * board_size * board_size) as u128),
    {
        let total_positions = board_size * board_size;
        let mut position_keys: Vec<[u64; 2]> = Vec::new();
        let mut n: usize = 0;
        while n < total_positions
            invariant
                n <= total_positions,
                total_positions == board_size * board_size,
                position_keys@.len() == n,
                forall|i: int|
                    0 <= i < n ==> (#[trigger] position_keys@[i])@[0] == chacha8_u64_at(
                        ZOBRIST_SEED,
                        (4 * i) as u128,
                    ) && position_keys@[i]@[1] == chacha8_u64_at(ZOBRIST_SEED, (4 * i + 2) as u128),
            decreases total_positions - n,
        {
            let base: u128 = 4 * (n as u128);
            let k0 = chacha8_key(ZOBRIST_SEED, base);
            let k1 = chacha8_key(ZOBRIST_SEED, base + 2);
            position_keys.push([k0, k1]);
            n = n + 1;
        }
        let player_key = chacha8_key(ZOBRIST_SEED, 4 * (total_positions as u128));
        let z = ZobristHash { position_keys, player_key, board_size };
        proof {
            assert(4 * board_size * board_size == 4 * (board_size * board_size)) by (nonlinear_arith);
            assert forall|i: int, p: Player| 0 <= i < board_size * board_size implies #[trigger] z.key(i, p)
                == chacha8_u64_at(ZOBRIST_SEED, (4 * i + 2 * slot(p)) as u128) by {
                assert(position_keys@[i]@[0] == chacha8_u64_at(ZOBRIST_SEED, (4 * i) as u128));
            }
        }
        z
    }

    /// Tables built for the same board size hold the same keys.
    pub proof fn lemma_same_size_same_keys(a: ZobristHash, b: ZobristHash)
        requires
            a.wf(),
            b.wf(),
            a.size_spec() == b.size_spec(),
            forall|i: int, p: Player|
                0 <= i < a.size_spec() * a.size_spec() ==> #[trigger] a.key(i, p) == chacha8_u64_at(
                    ZOBRIST_SEED,
                    (4 * i + 2 * slot(p)) as u128,
                ),
            forall|i: int, p: Player|
                0 <= i < b.size_spec() * b.size_spec() ==> #[trigger] b.key(i, p) == chacha8_u64_at(
                    ZOBRIST_SEED,
                    (4 * i + 2 * slot(p)) as u128,
                ),
            a.side_key() == chacha8_u64_at(ZOBRIST_SEED, (4 * a.size_spec() * a.size_spec()) as u128),
            b.side_key() == chacha8_u64_at(ZOBRIST_SEED, (4 * b.size_spec() * b.size_spec()) as u128),
        ensures
            forall|i: int, p: Player| 0 <= i < a.size_spec() * a.size_spec() ==> #[trigger] a.key(i, p) == b.key(i, p),
            a.side_key() == b.side_key(),
    {
    }

    pub fn board_size(&self) -> (s: usize)
        ensures
            s == self.size_spec(),
    {
        self.board_size
    }

    /// Global square index `row * board_size + col`.
    fn position_index(&self, row: usize, col: usize) -> (i: usize)
        requires
            row * self.size_spec() + col <= usize::MAX,
        ensures
            i == row * self.size_spec() + col,
    {
        row * self.board_size + col
    }

    fn player_index(player: Player) -> (i: usize)
        ensures
            i == slot(player),
    {
        match player {
            Player::Max => 0,
            Player::Min => 1,
        }
    }

    /// The hash of `state` computed from scratch: every stone's key, plus the
    /// side key when Min is to move.
    pub fn compute_hash(&self, state: &GameState) -> (h: u64)
        ensures
            h == full_hash(*self, state.board, state.current_player),
    {
        let mut hash: u64 = 0;
        let mut i: usize = 0;
        while i < self.position_keys.len()
            invariant
                i <= self.num_keys(),
                hash == bits_hash(*self, state.board, i as nat),
            decreases self.num_keys() - i,
        {
            let pair = self.position_keys[i];
            let mut part: u64 = 0;
            if Board::is_bit_set(state.board.max_bits.as_slice(), i) {
                part = pair[0];
            }
            if Board::is_bit_set(state.board.min_bits.as_slice(), i) {
                part = part ^ pair[1];
            }
            proof {
                lemma_xor_cancel(0, 0);
                lemma_xor_cancel(pair[0], 0);
                assert(part == square_keys(*self, state.board, i as int));
            }
            hash = hash ^ part;
            i = i + 1;
        }
        if state.current_player == Player::Min {
            hash = hash ^ self.player_key;
        } else {
            proof {
                lemma_xor_cancel(hash, 0);
            }
        }
        hash
    }

    /// The hash after `player` puts a stone on `(row, col)` (or takes it
    /// back): the stone's key and the side key are toggled.
    pub fn update_hash_make_move(&self, current_hash: u64, row: usize, col: usize, player: Player) -> (h: u64)
        requires
            row * self.size_spec() + col < self.num_keys(),
        ensures
            h == current_hash ^ self.key(row * self.size_spec() + col, player) ^ self.side_key(),
    {
        let _num_keys = self.position_keys.len();
        let pos_idx = self.position_index(row, col);
        let player_idx = Self::player_index(player);
        current_hash ^ self.position_keys[pos_idx][player_idx] ^ self.player_key
    }

    /// Same toggle as `update_hash_make_move`: XOR is its own inverse.
    pub fn update_hash_undo_move(&self, current_hash: u64, row: usize, col: usize, player: Player) -> (h: u64)
        requires
            row * self.size_spec() + col < self.num_keys(),
        ensures
            h == current_hash ^ self.key(row * self.size_spec() + col, player) ^ self.side_key(),
    {
        self.update_hash_make_move(current_hash, row, col, player)
    }

    /// The hash with the keys of `captured_player` on each listed square toggled.
    pub fn update_hash_capture(
        &self,
        current_hash: u64,
        captured_positions: &[(usize, usize)],
        captured_player: Player,
    ) -> (h: u64)
        requires
            forall|k: int|
                0 <= k < captured_positions@.len() ==> #[trigger] captured_positions@[k].0
                    * self.size_spec() + captured_positions@[k].1 < self.num_keys(),
        ensures
            h == caps_hash(
                *self,
                current_hash,
                captured_positions@,
                captured_player,
                captured_positions@.len() as int,
            ),
    {
        let num_keys = self.position_keys.len();
        let mut hash = current_hash;
        let player_idx = Self::player_index(captured_player);
        let mut n: usize = 0;
        while n < captured_positions.len()
            invariant
                n <= captured_positions@.len(),
                num_keys == self.num_keys(),
                player_idx == slot(captured_player),
                forall|k: int|
                    0 <= k < captured_positions@.len() ==> #[trigger] captured_positions@[k].0
                        * self.size_spec() + captured_positions@[k].1 < self.num_keys(),
                hash == caps_hash(*self, current_hash, captured_positions@, captured_player, n as int),
            decreases captured_positions@.len() - n,
        {
            let (row, col) = captured_positions[n];
            let pos_idx = self.position_index(row, col);
            hash = hash ^ self.position_keys[pos_idx][player_idx];
            n = n + 1;
        }
        hash
    }
}

/// Keys of the stones on global square `i` (both bitboards read, as stored).
pub open spec fn square_keys(z: ZobristHash, b: Board, i: int) -> u64 {
    (if b.max_at(i) {
        z.key(i, Player::Max)
    } else {
        0u64
    }) ^ (if b.min_at(i) {
        z.key(i, Player::Min)
    } else {
        0u64
    })
}

/// XOR of the stone keys over squares `0..n`.
pub open spec fn bits_hash(z: ZobristHash, b: Board, n: nat) -> u64
    decreases n,
{
    if n == 0 {
        0
    } else {
        bits_hash(z, b, (n - 1) as nat) ^ square_keys(z, b, n - 1)
    }
}

/// The hash of a position: stone keys over all keyed squares, and the side
/// key when Min is to move.
pub open spec fn full_hash(z: ZobristHash, b: Board, to_move: Player) -> u64 {
    bits_hash(z, b, z.num_keys()) ^ if to_move == Player::Min {
        z.side_key()
    } else {
        0u64
    }
}

/// `h` with the keys of `p` on the first `n` listed squares toggled.
pub open spec fn caps_hash(z: ZobristHash, h: u64, caps: Seq<(usize, usize)>, p: Player, n: int) -> u64
    decreases n,
{
    if n <= 0 {
        h
    } else {
        caps_hash(z, h, caps, p, n - 1) ^ z.key(caps[n - 1].0 * z.size_spec() + caps[n - 1].1, p)
    }
}

/// On a well-formed board a square contributes the key of the stone on it,
/// or nothing when it is empty.
pub proof fn lemma_square_keys_cell(z: ZobristHash, b: Board, i: int)
    requires
        b.wf(),
    ensures
        square_keys(z, b, i) == match b.cell(i) {
            Some(p) => z.key(i, p),
            None => 0u64,
        },
{
    assert(!(b.max_at(i) && b.min_at(i)));
    lemma_xor_cancel(0, 0);
    lemma_xor_cancel(z.key(i, Player::Max), 0);
    lemma_xor_zero_left(z.key(i, Player::Min));
}

pub proof fn lemma_xor_zero_left(a: u64)
    ensures
        0u64 ^ a == a,
{
    assert(0u64 ^ a == a) by (bit_vector);
}

/// Toggling the side key moves the side term from one player to the other.
pub proof fn lemma_xor_side(b: u64, k: u64, s: u64)
    ensures
        ((b ^ s) ^ k) ^ s == (b ^ k) ^ 0u64,
        ((b ^ 0u64) ^ k) ^ s == (b ^ k) ^ s,
{
    assert(((b ^ s) ^ k) ^ s == (b ^ k) ^ 0u64) by (bit_vector);
    assert(((b ^ 0u64) ^ k) ^ s == (b ^ k) ^ s) by (bit_vector);
}

/// Toggling keys commutes with XOR by a constant.
pub proof fn lemma_caps_hash_shift(z: ZobristHash, a: u64, x: u64, caps: Seq<(usize, usize)>, p: Player, n: int)
    ensures
        caps_hash(z, a ^ x, caps, p, n) == caps_hash(z, a, caps, p, n) ^ x,
    decreases n,
{
    if n > 0 {
        lemma_caps_hash_shift(z, a, x, caps, p, n - 1);
        lemma_xor_swap(
            caps_hash(z, a, caps, p, n - 1),
            x,
            z.key(caps[n - 1].0 * z.size_spec() + caps[n - 1].1, p),
        );
    }
}

/// Undoing a move's hash update gives back the hash from before the move.
pub proof fn lemma_move_update_undone(z: ZobristHash, h: u64, i: int, p: Player)
    ensures
        ((h ^ z.key(i, p)) ^ z.side_key()) ^ z.key(i, p) ^ z.side_key() == h,
{
    let k = z.key(i, p);
    let s = z.side_key();
    assert(((h ^ k) ^ s) ^ k ^ s == h) by (bit_vector);
}

/// Toggling the keys of the same captured squares twice gives back the hash.
pub proof fn lemma_capture_update_undone(z: ZobristHash, h: u64, caps: Seq<(usize, usize)>, p: Player, n: int)
    ensures
        caps_hash(z, caps_hash(z, h, caps, p, n), caps, p, n) == h,
{
    let d = caps_hash(z, 0, caps, p, n);
    lemma_xor_cancel(h, 0);
    lemma_xor_assoc(0, h, 0);
    assert(0u64 ^ h == h) by (bit_vector);
    lemma_caps_hash_shift(z, 0, h, caps, p, n);
    assert(caps_hash(z, h, caps, p, n) == d ^ h);
    lemma_caps_hash_shift(z, 0, d ^ h, caps, p, n);
    assert(0u64 ^ (d ^ h) == d ^ h) by (bit_vector);
    assert(d ^ (d ^ h) == h) by (bit_vector);
}

/// Changing the stones on one square `j` changes the hash over `0..n` by the
/// old and new keys of that square.
#[verifier::spinoff_prover]
pub proof fn lemma_bits_hash_one(z: ZobristHash, b1: Board, b2: Board, j: int, n: nat)
    requires
        forall|i: int|
            0 <= i < n && i != j ==> #[trigger] b1.max_at(i) == b2.max_at(i) && b1.min_at(i)
                == b2.min_at(i),
    ensures
        0 <= j < n ==> bits_hash(z, b2, n) == bits_hash(z, b1, n) ^ square_keys(z, b1, j)
            ^ square_keys(z, b2, j),
        !(0 <= j < n) ==> bits_hash(z, b2, n) == bits_hash(z, b1, n),
    decreases n,
{
    if n > 0 {
        let m = (n - 1) as nat;
        assert forall|i: int| 0 <= i < m && i != j implies #[trigger] b1.max_at(i) == b2.max_at(i)
            && b1.min_at(i) == b2.min_at(i) by {
            assert(0 <= i < n && i != j);
            assert(b1.max_at(i) == b2.max_at(i) && b1.min_at(i) == b2.min_at(i));
        }
        lemma_bits_hash_one(z, b1, b2, j, m);
        let h1 = bits_hash(z, b1, m);
        let c1 = square_keys(z, b1, j);
        let c2 = square_keys(z, b2, j);
        if j == m {
            assert(bits_hash(z, b2, m) == h1);
            lemma_xor_cancel(h1, c1);
        } else if 0 <= j < m {
            assert(b1.max_at(m as int) == b2.max_at(m as int));
            let cm = square_keys(z, b1, m as int);
            assert(square_keys(z, b2, m as int) == cm);
            lemma_xor_swap(h1 ^ c1, c2, cm);
            lemma_xor_swap(h1, c1, cm);
        } else {
            assert(b1.max_at(m as int) == b2.max_at(m as int));
        }
    }
}

} // verus!

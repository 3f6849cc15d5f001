//! Neighbour, ray and capture-pattern tables of a board, indexed by the
//! flat square index `row * size + col`, computed once per board size.

use vstd::prelude::*;
use crate::patterns::{step, ALL_DIRECTIONS, DIRECTIONS};

verus! {

/// `(r, c)` is a square of a `size` board.
pub open spec fn on_board(size: int, r: int, c: int) -> bool {
    0 <= r < size && 0 <= c < size
}

/// Flat index of `(r, c)`.
pub open spec fn flat(size: int, r: int, c: int) -> usize {
    (r * size + c) as usize
}

/// Flat indices of the on-board squares among the first `n` neighbour
/// offsets of `ALL_DIRECTIONS`, in that order.
pub open spec fn adj_seq(size: int, r: int, c: int, n: nat) -> Seq<usize>
    decreases n,
{
    if n == 0 {
        Seq::empty()
    } else {
        let d = crate::patterns::all_dir(n - 1);
        let prev = adj_seq(size, r, c, (n - 1) as nat);
        if on_board(size, r + d.0, c + d.1) {
            prev.push(flat(size, r + d.0, c + d.1))
        } else {
            prev
        }
    }
}

/// Number of steps, among the first `n`, taken along `(dr, dc)` from `(r, c)`
/// before the first step that leaves the board.
pub open spec fn ray_len(size: int, r: int, c: int, dr: int, dc: int, n: nat) -> nat
    decreases n,
{
    if n == 0 {
        0
    } else {
        let prev = ray_len(size, r, c, dr, dc, (n - 1) as nat);
        if prev == n - 1 && on_board(size, step(r, dr, n as int), step(c, dc, n as int)) {
            n
        } else {
            prev
        }
    }
}

/// The squares one, two, ... steps along `(dr, dc)` from `(r, c)`, up to
/// `max_len` steps, stopping at the edge.
pub open spec fn ray_seq(size: int, r: int, c: int, dr: int, dc: int, max_len: nat) -> Seq<usize> {
    Seq::new(
        ray_len(size, r, c, dr, dc, max_len),
        |i: int| flat(size, step(r, dr, i + 1), step(c, dc, i + 1)),
    )
}

/// The squares one, two and three steps along `(dr, dc)` from `(r, c)`, if
/// all three are on the board.
pub open spec fn cap_pat(size: int, r: int, c: int, dr: int, dc: int) -> Seq<(usize, usize, usize)> {
    if on_board(size, step(r, dr, 1), step(c, dc, 1)) && on_board(size, step(r, dr, 2), step(c, dc, 2))
        && on_board(size, step(r, dr, 3), step(c, dc, 3)) {
        seq![
            (
                flat(size, step(r, dr, 1), step(c, dc, 1)),
                flat(size, step(r, dr, 2), step(c, dc, 2)),
                flat(size, step(r, dr, 3), step(c, dc, 3)),
            ),
        ]
    } else {
        Seq::empty()
    }
}

/// Capture patterns of `(r, c)` along direction `k`: forwards, then backwards.
pub open spec fn cap_pats(size: int, r: int, c: int, k: int) -> Seq<(usize, usize, usize)> {
    let d = crate::patterns::dir(k);
    cap_pat(size, r, c, d.0, d.1) + cap_pat(size, r, c, -d.0, -d.1)
}

pub proof fn lemma_ray_len_bound(size: int, r: int, c: int, dr: int, dc: int, n: nat)
    ensures
        ray_len(size, r, c, dr, dc, n) <= n,
    decreases n,
{
    if n > 0 {
        lemma_ray_len_bound(size, r, c, dr, dc, (n - 1) as nat);
    }
}

/// Once a ray has stopped short, it stays stopped.
pub proof fn lemma_ray_len_stable(size: int, r: int, c: int, dr: int, dc: int, k: nat, n: nat)
    requires
        ray_len(size, r, c, dr, dc, k) < k,
        k <= n,
    ensures
        ray_len(size, r, c, dr, dc, n) == ray_len(size, r, c, dr, dc, k),
    decreases n - k,
{
    if n > k {
        lemma_ray_len_stable(size, r, c, dr, dc, k, (n - 1) as nat);
        lemma_ray_len_bound(size, r, c, dr, dc, k);
    }
}

/// Square sizes whose flat indices fit in a `usize`, as for boards.
pub open spec fn table_size_ok(size: int) -> bool {
    crate::board::size_ok(size)
}

#[derive(Clone, Debug, PartialEq, Eq, Hash)]
pub struct DirectionTables {
    pub board_size: usize,
    /// For each square, its on-board neighbours in `ALL_DIRECTIONS` order.
    pub adjacent_8: Vec<Vec<usize>>,
    /// For each square and each of the four directions, the squares ahead.
    pub rays_forward: Vec<[Vec<usize>; 4]>,
    /// Same, in the opposite direction.
    pub rays_backward: Vec<[Vec<usize>; 4]>,
    /// For each square and direction, the on-board triples of squares one to
    /// three steps away, forwards then backwards.
    pub capture_patterns: Vec<[Vec<(usize, usize, usize)>; 4]>,
}

impl DirectionTables {
    /// The entries of square `(r, c)` are those of a `size` board with rays
    /// of at most `max_len` steps.
    pub open spec fn entry_ok(self, size: int, max_len: nat, r: int, c: int) -> bool {
        let i = r * size + c;
        &&& self.adjacent_8@[i]@ == adj_seq(size, r, c, 8)
        &&& forall|k: int|
            0 <= k < 4 ==> #[trigger] self.rays_forward@[i]@[k]@ == ray_seq(
                size,
                r,
                c,
                crate::patterns::dir(k).0,
                crate::patterns::dir(k).1,
                max_len,
            ) && self.rays_backward@[i]@[k]@ == ray_seq(
                size,
                r,
                c,
                -crate::patterns::dir(k).0,
                -crate::patterns::dir(k).1,
                max_len,
            ) && self.capture_patterns@[i]@[k]@ == cap_pats(size, r, c, k)
    }

    /// Tables of a `board_size` board, rays of at most `max_ray_length` steps.
    pub fn new(board_size: usize, max_ray_length: usize) -> (t: DirectionTables)
        requires
            table_size_ok(board_size as int),
        ensures
            t.board_size == board_size,
            t.adjacent_8@.len() == board_size * board_size,
            t.rays_forward@.len() == board_size * board_size,
            t.rays_backward@.len() == board_size * board_size,
            t.capture_patterns@.len() == board_size * board_size,
            forall|r: int, c: int|
                on_board(board_size as int, r, c) ==> #[trigger] t.entry_ok(
                    board_size as int,
                    max_ray_length as nat,
                    r,
                    c,
                ),
    {
        proof {
            crate::board::lemma_size_small(board_size as int);
        }
        let ghost size = board_size as int;
        let ghost len = max_ray_length as nat;
        let mut t = DirectionTables {
            board_size,
            adjacent_8: Vec::new(),
            rays_forward: Vec::new(),
            rays_backward: Vec::new(),
            capture_patterns: Vec::new(),
        };
        let mut row: usize = 0;
        while row < board_size
            invariant
                crate::board::size_ok(size),
                size == board_size,
                len == max_ray_length,
                16 * size <= usize::MAX,
                size < 0x1_0000_0000,
                t.board_size == board_size,
                row <= board_size,
                t.adjacent_8@.len() == row * size,
                t.rays_forward@.len() == row * size,
                t.rays_backward@.len() == row * size,
                t.capture_patterns@.len() == row * size,
                forall|r: int, c: int|
                    0 <= r < row && 0 <= c < size ==> #[trigger] t.entry_ok(size, len, r, c),
            decreases board_size - row,
        {
            let mut col: usize = 0;
            while col < board_size
                invariant
                    crate::board::size_ok(size),
                    size == board_size,
                    len == max_ray_length,
                    16 * size <= usize::MAX,
                    size < 0x1_0000_0000,
                    t.board_size == board_size,
                    row < board_size,
                    col <= board_size,
                    t.adjacent_8@.len() == row * size + col,
                    t.rays_forward@.len() == row * size + col,
                    t.rays_backward@.len() == row * size + col,
                    t.capture_patterns@.len() == row * size + col,
                    forall|r: int, c: int|
                        (0 <= r < row && 0 <= c < size || r == row && 0 <= c < col)
                            ==> #[trigger] t.entry_ok(size, len, r, c),
                decreases board_size - col,
            {
                proof {
                    crate::board::lemma_index_in_range(size, row as int, col as int);
                }
                let ghost before = t;
                let adjacent = Self::adjacent_of(row, col, board_size);
                let f0 = Self::ray(row, col, 1, 0, board_size, max_ray_length);
                let f1 = Self::ray(row, col, 0, 1, board_size, max_ray_length);
                let f2 = Self::ray(row, col, 1, 1, board_size, max_ray_length);
                let f3 = Self::ray(row, col, 1, -1, board_size, max_ray_length);
                let b0 = Self::ray(row, col, -1, 0, board_size, max_ray_length);
                let b1 = Self::ray(row, col, 0, -1, board_size, max_ray_length);
                let b2 = Self::ray(row, col, -1, -1, board_size, max_ray_length);
                let b3 = Self::ray(row, col, -1, 1, board_size, max_ray_length);
                let c0 = Self::capture_pats_of(row, col, 0, board_size);
                let c1 = Self::capture_pats_of(row, col, 1, board_size);
                let c2 = Self::capture_pats_of(row, col, 2, board_size);
                let c3 = Self::capture_pats_of(row, col, 3, board_size);
                t.adjacent_8.push(adjacent);
                t.rays_forward.push([f0, f1, f2, f3]);
                t.rays_backward.push([b0, b1, b2, b3]);
                t.capture_patterns.push([c0, c1, c2, c3]);
                proof {
                    let i = row * size + col;
                    assert(t.adjacent_8@.len() == i + 1);
                    assert forall|r: int, c: int|
                        (0 <= r < row && 0 <= c < size || r == row && 0 <= c < col + 1)
                            implies #[trigger] t.entry_ok(size, len, r, c) by {
                        crate::board::lemma_index_in_range(size, r, c);
                        if r == row && c == col {
                            assert(t.rays_forward@[i]@[0]@ == f0@);
                            assert(t.rays_forward@[i]@[1]@ == f1@);
                            assert(t.rays_forward@[i]@[2]@ == f2@);
                            assert(t.rays_forward@[i]@[3]@ == f3@);
                            assert(t.rays_backward@[i]@[0]@ == b0@);
                            assert(t.rays_backward@[i]@[1]@ == b1@);
                            assert(t.rays_backward@[i]@[2]@ == b2@);
                            assert(t.rays_backward@[i]@[3]@ == b3@);
                            assert(t.capture_patterns@[i]@[0]@ == c0@);
                            assert(t.capture_patterns@[i]@[1]@ == c1@);
                            assert(t.capture_patterns@[i]@[2]@ == c2@);
                            assert(t.capture_patterns@[i]@[3]@ == c3@);
                            assert forall|k: int| 0 <= k < 4 implies #[trigger] t.rays_forward@[i]@[k]@
                                == ray_seq(
                                size,
                                r,
                                c,
                                crate::patterns::dir(k).0,
                                crate::patterns::dir(k).1,
                                len,
                            ) && t.rays_backward@[i]@[k]@ == ray_seq(
                                size,
                                r,
                                c,
                                -crate::patterns::dir(k).0,
                                -crate::patterns::dir(k).1,
                                len,
                            ) && t.capture_patterns@[i]@[k]@ == cap_pats(size, r, c, k) by {
                                if k == 0 {
                                } else if k == 1 {
                                } else if k == 2 {
                                } else {
                                }
                            }
                            assert(t.adjacent_8@[i]@ == adjacent@);
                        } else {
                            let j = r * size + c;
                            assert(j < i) by (nonlinear_arith)
                                requires
                                    0 <= r <= row,
                                    0 <= c < size,
                                    r < row || c < col,
                                    0 <= col < size,
                                    j == r * size + c,
                                    i == row * size + col,
                            ;
                            assert(before.entry_ok(size, len, r, c));
                            assert(t.adjacent_8@[j] == before.adjacent_8@[j]);
                            assert(t.rays_forward@[j] == before.rays_forward@[j]);
                            assert(t.rays_backward@[j] == before.rays_backward@[j]);
                            assert(t.capture_patterns@[j] == before.capture_patterns@[j]);
                        }
                    }
                }
                col = col + 1;
            }
            proof {
                assert(row * size + size == (row + 1) * size) by (nonlinear_arith);
            }
            row = row + 1;
        }
        proof {
            assert forall|r: int, c: int| on_board(size, r, c) implies #[trigger] t.entry_ok(
                size,
                len,
                r,
                c,
            ) by {}
        }
        t
    }

    /// The on-board neighbours of `(row, col)`.
    fn adjacent_of(row: usize, col: usize, size: usize) -> (v: Vec<usize>)
        requires
            row < size,
            col < size,
            crate::board::size_ok(size as int),
        ensures
            v@ == adj_seq(size as int, row as int, col as int, 8),
    {
        proof {
            crate::board::lemma_size_small(size as int);
        }
        let mut v: Vec<usize> = Vec::new();
        let mut k: usize = 0;
        while k < 8
            invariant
                row < size,
                col < size,
                crate::board::size_ok(size as int),
                size < 0x1_0000_0000,
                k <= 8,
                v@ == adj_seq(size as int, row as int, col as int, k as nat),
            decreases 8 - k,
        {
            let (dr, dc) = ALL_DIRECTIONS[k];
            assert(dr == crate::patterns::all_dir(k as int).0 && dc == crate::patterns::all_dir(
                k as int,
            ).1);
            if let Some(n_idx) = Self::safe_index(row, col, dr, dc, size) {
                v.push(n_idx);
            }
            k = k + 1;
        }
        v
    }

    /// The squares up to `max_len` steps along `(dr, dc)`, stopping at the edge.
    fn ray(row: usize, col: usize, dr: isize, dc: isize, size: usize, max_len: usize) -> (v: Vec<usize>)
        requires
            row < size,
            col < size,
            crate::board::size_ok(size as int),
            crate::patterns::unit_dir(dr as int, dc as int),
        ensures
            v@ == ray_seq(size as int, row as int, col as int, dr as int, dc as int, max_len as nat),
    {
        proof {
            crate::board::lemma_size_small(size as int);
        }
        let ghost sz = size as int;
        let mut v: Vec<usize> = Vec::new();
        let mut s: usize = 0;
        while s < max_len
            invariant
                row < size,
                col < size,
                sz == size,
                crate::board::size_ok(sz),
                size < 0x1_0000_0000,
                crate::patterns::unit_dir(dr as int, dc as int),
                s <= max_len,
                s < size,
                8 * size < isize::MAX,
                ray_len(sz, row as int, col as int, dr as int, dc as int, s as nat) == s,
                v@ == ray_seq(sz, row as int, col as int, dr as int, dc as int, s as nat),
            decreases max_len - s,
        {
            let n = s + 1;
            proof {
                crate::patterns::lemma_unit_mul(dr as int, n as int);
                crate::patterns::lemma_unit_mul(dc as int, n as int);
            }
            let step_r = dr * (n as isize);
            let step_c = dc * (n as isize);
            match Self::safe_index_multi(row, col, step_r, step_c, size) {
                Some(n_idx) => {
                    let ghost old_v = v@;
                    v.push(n_idx);
                    proof {
                        assert(v@ =~= ray_seq(sz, row as int, col as int, dr as int, dc as int, n as nat));
                    }
                },
                None => {
                    proof {
                        assert(ray_len(sz, row as int, col as int, dr as int, dc as int, n as nat) == s);
                        lemma_ray_len_stable(
                            sz,
                            row as int,
                            col as int,
                            dr as int,
                            dc as int,
                            n as nat,
                            max_len as nat,
                        );
                        assert(v@ =~= ray_seq(
                            sz,
                            row as int,
                            col as int,
                            dr as int,
                            dc as int,
                            max_len as nat,
                        ));
                    }
                    return v;
                },
            }
            s = n;
        }
        v
    }

    /// The capture triples of `(row, col)` along direction `k`.
    fn capture_pats_of(row: usize, col: usize, k: usize, size: usize) -> (v: Vec<(usize, usize, usize)>)
        requires
            row < size,
            col < size,
            k < 4,
            crate::board::size_ok(size as int),
        ensures
            v@ == cap_pats(size as int, row as int, col as int, k as int),
    {
        proof {
            crate::board::lemma_size_small(size as int);
        }
        let (dr, dc) = DIRECTIONS[k];
        assert(dr == crate::patterns::dir(k as int).0 && dc == crate::patterns::dir(k as int).1);
        let mut patterns: Vec<(usize, usize, usize)> = Vec::new();
        let mut m: usize = 0;
        while m < 2
            invariant
                row < size,
                col < size,
                crate::board::size_ok(size as int),
                size < 0x1_0000_0000,
                dr == crate::patterns::dir(k as int).0,
                dc == crate::patterns::dir(k as int).1,
                m <= 2,
                m == 0 ==> patterns@ == Seq::<(usize, usize, usize)>::empty(),
                m == 1 ==> patterns@ == cap_pat(size as int, row as int, col as int, dr as int, dc as int),
                m == 2 ==> patterns@ == cap_pats(size as int, row as int, col as int, k as int),
            decreases 2 - m,
        {
            let actual_dr: isize = if m == 0 {
                dr
            } else {
                -dr
            };
            let actual_dc: isize = if m == 0 {
                dc
            } else {
                -dc
            };
            let ghost before = patterns@;
            if let Some(pos1) = Self::safe_index_multi(row, col, actual_dr, actual_dc, size) {
                if let Some(pos2) = Self::safe_index_multi(
                    row,
                    col,
                    actual_dr * 2,
                    actual_dc * 2,
                    size,
                ) {
                    if let Some(pos3) = Self::safe_index_multi(
                        row,
                        col,
                        actual_dr * 3,
                        actual_dc * 3,
                        size,
                    ) {
                        patterns.push((pos1, pos2, pos3));
                    }
                }
            }
            proof {
                let here = cap_pat(
                    size as int,
                    row as int,
                    col as int,
                    actual_dr as int,
                    actual_dc as int,
                );
                assert(patterns@ =~= before + here);
                if m == 0 {
                    assert(before + here =~= here);
                }
            }
            m = m + 1;
        }
        patterns
    }

    /// Flat index `row * board_size + col`.
    pub fn to_index(&self, row: usize, col: usize) -> (i: usize)
        requires
            row * self.board_size + col <= usize::MAX,
        ensures
            i == row * self.board_size + col,
    {
        row * self.board_size + col
    }

    /// `(row, col)` of a flat index.
    pub fn to_coords(&self, idx: usize) -> (rc: (usize, usize))
        requires
            self.board_size > 0,
        ensures
            rc.0 == idx / self.board_size,
            rc.1 == idx % self.board_size,
    {
        (idx / self.board_size, idx % self.board_size)
    }

    /// The on-board neighbours of square `idx`.
    pub fn get_adjacent(&self, idx: usize) -> (a: &[usize])
        requires
            idx < self.adjacent_8@.len(),
        ensures
            a@ == self.adjacent_8@[idx as int]@,
    {
        self.adjacent_8[idx].as_slice()
    }

    /// The squares ahead of `idx` along direction `direction`.
    pub fn get_ray_forward(&self, idx: usize, direction: usize) -> (a: &[usize])
        requires
            idx < self.rays_forward@.len(),
            direction < 4,
        ensures
            a@ == self.rays_forward@[idx as int]@[direction as int]@,
    {
        self.rays_forward[idx][direction].as_slice()
    }

    /// The squares behind `idx` along direction `direction`.
    pub fn get_ray_backward(&self, idx: usize, direction: usize) -> (a: &[usize])
        requires
            idx < self.rays_backward@.len(),
            direction < 4,
        ensures
            a@ == self.rays_backward@[idx as int]@[direction as int]@,
    {
        self.rays_backward[idx][direction].as_slice()
    }

    /// The capture triples of `idx` along direction `direction`.
    pub fn get_capture_patterns(&self, idx: usize, direction: usize) -> (a: &[(usize, usize, usize)])
        requires
            idx < self.capture_patterns@.len(),
            direction < 4,
        ensures
            a@ == self.capture_patterns@[idx as int]@[direction as int]@,
    {
        self.capture_patterns[idx][direction].as_slice()
    }

    /// The flat index of the neighbour `(row + dr, col + dc)`, if on the board.
    fn safe_index(row: usize, col: usize, dr: isize, dc: isize, size: usize) -> (r: Option<usize>)
        requires
            row < size,
            col < size,
            crate::board::size_ok(size as int),
            -8 <= dr <= 8,
            -8 <= dc <= 8,
        ensures
            r == if on_board(size as int, row + dr, col + dc) {
                Some(flat(size as int, row + dr, col + dc))
            } else {
                None::<usize>
            },
    {
        proof {
            crate::board::lemma_size_small(size as int);
        }
        let nr = row as isize + dr;
        let nc = col as isize + dc;
        if nr >= 0 && nc >= 0 && nr < size as isize && nc < size as isize {
            proof {
                crate::board::lemma_index_in_range(size as int, nr as int, nc as int);
            }
            Some((nr as usize) * size + (nc as usize))
        } else {
            None
        }
    }

    /// The flat index of `(row + dr, col + dc)` for a multi-step offset, if on
    /// the board.
    fn safe_index_multi(row: usize, col: usize, dr: isize, dc: isize, size: usize) -> (r: Option<usize>)
        requires
            row < size,
            col < size,
            crate::board::size_ok(size as int),
            -4 * (size as int) <= dr <= 4 * (size as int),
            -4 * (size as int) <= dc <= 4 * (size as int),
        ensures
            r == if on_board(size as int, row + dr, col + dc) {
                Some(flat(size as int, row + dr, col + dc))
            } else {
                None::<usize>
            },
    {
        proof {
            crate::board::lemma_size_small(size as int);
        }
        let nr = row as isize + dr;
        let nc = col as isize + dc;
        if nr >= 0 && nc >= 0 && nr < size as isize && nc < size as isize {
            proof {
                crate::board::lemma_index_in_range(size as int, nr as int, nc as int);
            }
            Some((nr as usize) * size + (nc as usize))
        } else {
            None
        }
    }
}

} // verus!

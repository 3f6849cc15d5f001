//! Capture detection and execution.
//!
//! A stone placed at `(row, col)` captures a pair of opponent stones that it
//! flanks together with another stone of its own: `P O O P` along one of
//! the eight directions. The captured stones are removed from the board.

use vstd::prelude::*;
use crate::board::{Board, Player};
use crate::patterns::{PatternAnalyzer, DIRECTIONS};

verus! {

/// The `j`-th capture direction (`0 <= j < 8`): `DIRECTIONS[j / 2]`, negated for odd `j`.
pub open spec fn capture_dir(j: int) -> (int, int) {
    let d = crate::patterns::dir(j / 2);
    if j % 2 == 0 {
        d
    } else {
        (-d.0, -d.1)
    }
}

/// Playing `p` at `(r, c)` flanks a pair of opponent stones along `(dx, dy)`.
pub open spec fn flanks_pair(b: Board, r: int, c: int, dx: int, dy: int, p: Player) -> bool {
    &&& b.stone(r + dx, c + dy) == Some(p.other())
    &&& b.stone(r + 2 * dx, c + 2 * dy) == Some(p.other())
    &&& b.stone(r + 3 * dx, c + 3 * dy) == Some(p)
}

/// The captured squares found in the first `j` capture directions, in order,
/// two squares (nearer first) per capturing direction.
pub open spec fn capture_seq(b: Board, r: int, c: int, p: Player, j: int) -> Seq<(usize, usize)>
    decreases j,
{
    if j <= 0 {
        Seq::empty()
    } else {
        let d = capture_dir(j - 1);
        capture_seq(b, r, c, p, j - 1) + if flanks_pair(b, r, c, d.0, d.1, p) {
            seq![((r + d.0) as usize, (c + d.1) as usize), ((r + 2 * d.0) as usize, (c + 2 * d.1) as usize)]
        } else {
            Seq::empty()
        }
    }
}

/// The squares captured by playing `p` at `(r, c)`.
pub open spec fn spec_captures(b: Board, r: int, c: int, p: Player) -> Seq<(usize, usize)> {
    capture_seq(b, r, c, p, 8)
}

pub proof fn lemma_capture_seq_on_board(b: Board, r: int, c: int, p: Player, j: int)
    requires
        b.wf(),
        0 <= j <= 8,
    ensures
        capture_seq(b, r, c, p, j).len() % 2 == 0,
        capture_seq(b, r, c, p, j).len() <= 2 * j,
        forall|k: int|
            0 <= k < capture_seq(b, r, c, p, j).len() ==> b.in_bounds(
                #[trigger] capture_seq(b, r, c, p, j)[k].0 as int,
                capture_seq(b, r, c, p, j)[k].1 as int,
            ) && b.stone(capture_seq(b, r, c, p, j)[k].0 as int, capture_seq(b, r, c, p, j)[k].1 as int)
                == Some(p.other()),
    decreases j,
{
    if j > 0 {
        lemma_capture_seq_on_board(b, r, c, p, j - 1);
    }
}

/// Some of the first `n` listed squares has global index `i`.
pub open spec fn removed_by(b: Board, caps: Seq<(usize, usize)>, n: int, i: int) -> bool {
    exists|k: int| 0 <= k < n && b.idx(caps[k].0 as int, caps[k].1 as int) == i
}

pub proof fn lemma_removed_by_step(b: Board, caps: Seq<(usize, usize)>, n: int, i: int)
    requires
        0 <= n,
    ensures
        removed_by(b, caps, n + 1, i) == (removed_by(b, caps, n, i) || b.idx(
            caps[n].0 as int,
            caps[n].1 as int,
        ) == i),
{
    if removed_by(b, caps, n + 1, i) {
        let k = choose|k: int| 0 <= k < n + 1 && b.idx(caps[k].0 as int, caps[k].1 as int) == i;
        if k < n {
            assert(removed_by(b, caps, n, i));
        }
    }
    if removed_by(b, caps, n, i) {
        let k = choose|k: int| 0 <= k < n && b.idx(caps[k].0 as int, caps[k].1 as int) == i;
        assert(0 <= k < n + 1 && b.idx(caps[k].0 as int, caps[k].1 as int) == i);
    }
    if b.idx(caps[n].0 as int, caps[n].1 as int) == i {
        assert(0 <= n < n + 1 && b.idx(caps[n].0 as int, caps[n].1 as int) == i);
    }
}

/// Square `a` steps (`a` is 1 or 2) from `(r, c)` along capture direction `j`.
pub open spec fn cap_pos(r: int, c: int, j: int, a: int) -> (usize, usize) {
    let d = capture_dir(j);
    if a == 1 {
        ((r + d.0) as usize, (c + d.1) as usize)
    } else {
        ((r + 2 * d.0) as usize, (c + 2 * d.1) as usize)
    }
}

/// The eight capture directions are distinct unit steps.
pub proof fn lemma_capture_dirs_distinct(j1: int, j2: int)
    requires
        0 <= j1 < 8,
        0 <= j2 < 8,
    ensures
        -1 <= capture_dir(j1).0 <= 1,
        -1 <= capture_dir(j1).1 <= 1,
        capture_dir(j1) != (0int, 0int),
        j1 != j2 ==> capture_dir(j1) != capture_dir(j2),
{
}

/// Capture results only read squares one to three steps away, so a board
/// that differs from another only at `(r, c)` captures the same squares.
pub proof fn lemma_capture_seq_frame(b1: Board, b2: Board, r: int, c: int, p: Player, j: int)
    requires
        0 <= j <= 8,
        b2.agrees_except(b1, r, c),
    ensures
        capture_seq(b2, r, c, p, j) == capture_seq(b1, r, c, p, j),
    decreases j,
{
    if j > 0 {
        lemma_capture_seq_frame(b1, b2, r, c, p, j - 1);
        let d = capture_dir(j - 1);
        lemma_capture_dirs_distinct(j - 1, j - 1);
        assert(b2.stone(r + d.0, c + d.1) == b1.stone(r + d.0, c + d.1));
        assert(b2.stone(r + 2 * d.0, c + 2 * d.1) == b1.stone(r + 2 * d.0, c + 2 * d.1));
        assert(b2.stone(r + 3 * d.0, c + 3 * d.1) == b1.stone(r + 3 * d.0, c + 3 * d.1));
    }
}

/// `x` is one or two steps from `(r, c)` along one of the first `j` capture
/// directions, and `p` flanks a pair along that direction.
pub open spec fn on_capture_dir(b: Board, r: int, c: int, p: Player, j: int, x: (usize, usize)) -> bool {
    exists|jj: int, a: int|
        0 <= jj < j && (a == 1 || a == 2) && flanks_pair(
            b,
            r,
            c,
            capture_dir(jj).0,
            capture_dir(jj).1,
            p,
        ) && x == #[trigger] cap_pos(r, c, jj, a)
}

/// Every captured square lies along a flanking capture direction.
pub proof fn lemma_capture_seq_shape(b: Board, r: int, c: int, p: Player, j: int)
    requires
        0 <= j <= 8,
    ensures
        forall|k: int|
            0 <= k < capture_seq(b, r, c, p, j).len() ==> on_capture_dir(
                b,
                r,
                c,
                p,
                j,
                #[trigger] capture_seq(b, r, c, p, j)[k],
            ),
    decreases j,
{
    if j > 0 {
        lemma_capture_seq_shape(b, r, c, p, j - 1);
        let prev = capture_seq(b, r, c, p, j - 1);
        let cur = capture_seq(b, r, c, p, j);
        let d = capture_dir(j - 1);
        if flanks_pair(b, r, c, d.0, d.1, p) {
            assert forall|k: int| 0 <= k < cur.len() implies on_capture_dir(
                b,
                r,
                c,
                p,
                j,
                #[trigger] cur[k],
            ) by {
                if k < prev.len() {
                    assert(cur[k] == prev[k]);
                    assert(on_capture_dir(b, r, c, p, j - 1, prev[k]));
                    let (jj, a) = choose|jj: int, a: int|
                        0 <= jj < j - 1 && (a == 1 || a == 2) && flanks_pair(
                            b,
                            r,
                            c,
                            capture_dir(jj).0,
                            capture_dir(jj).1,
                            p,
                        ) && prev[k] == #[trigger] cap_pos(r, c, jj, a);
                    assert(cur[k] == cap_pos(r, c, jj, a));
                } else if k == prev.len() {
                    assert(cur[k] == cap_pos(r, c, j - 1, 1));
                } else {
                    assert(cur[k] == cap_pos(r, c, j - 1, 2));
                }
            }
        } else {
            assert(cur =~= prev);
            assert forall|k: int| 0 <= k < cur.len() implies on_capture_dir(
                b,
                r,
                c,
                p,
                j,
                #[trigger] cur[k],
            ) by {
                assert(on_capture_dir(b, r, c, p, j - 1, prev[k]));
                let (jj, a) = choose|jj: int, a: int|
                    0 <= jj < j - 1 && (a == 1 || a == 2) && flanks_pair(
                        b,
                        r,
                        c,
                        capture_dir(jj).0,
                        capture_dir(jj).1,
                        p,
                    ) && prev[k] == #[trigger] cap_pos(r, c, jj, a);
                assert(cur[k] == cap_pos(r, c, jj, a));
            }
        }
    }
}

/// No captured square is listed twice.
#[verifier::rlimit(30)]
pub proof fn lemma_capture_seq_distinct(b: Board, r: int, c: int, p: Player, j: int)
    requires
        b.wf(),
        0 <= j <= 8,
    ensures
        forall|k1: int, k2: int|
            0 <= k1 < k2 < capture_seq(b, r, c, p, j).len() ==> #[trigger] capture_seq(
                b,
                r,
                c,
                p,
                j,
            )[k1] != #[trigger] capture_seq(b, r, c, p, j)[k2],
    decreases j,
{
    if j > 0 {
        lemma_capture_seq_distinct(b, r, c, p, j - 1);
        lemma_capture_seq_shape(b, r, c, p, j - 1);
        let prev = capture_seq(b, r, c, p, j - 1);
        let cur = capture_seq(b, r, c, p, j);
        let d = capture_dir(j - 1);
        if flanks_pair(b, r, c, d.0, d.1, p) {
            assert(cur.len() == prev.len() + 2);
            assert(cur[prev.len() as int] == cap_pos(r, c, j - 1, 1));
            assert(cur[prev.len() + 1int] == cap_pos(r, c, j - 1, 2));
            assert forall|k1: int, k2: int| 0 <= k1 < k2 < cur.len() implies #[trigger] cur[k1]
                != #[trigger] cur[k2] by {
                if k2 < prev.len() {
                    assert(cur[k1] == prev[k1] && cur[k2] == prev[k2]);
                } else if k1 < prev.len() {
                    assert(cur[k1] == prev[k1]);
                    assert(on_capture_dir(b, r, c, p, j - 1, prev[k1]));
                    let (jj, a) = choose|jj: int, a: int|
                        0 <= jj < j - 1 && (a == 1 || a == 2) && flanks_pair(
                            b,
                            r,
                            c,
                            capture_dir(jj).0,
                            capture_dir(jj).1,
                            p,
                        ) && prev[k1] == #[trigger] cap_pos(r, c, jj, a);
                    let a2: int = if k2 == prev.len() {
                        1
                    } else {
                        2
                    };
                    assert(cur[k2] == cap_pos(r, c, j - 1, a2));
                    lemma_cap_pos_distinct(b, r, c, p, jj, a, j - 1, a2);
                } else {
                    assert(k1 == prev.len() && k2 == prev.len() + 1);
                    lemma_cap_pos_distinct(b, r, c, p, j - 1, 1, j - 1, 2);
                }
            }
        } else {
            assert(cur =~= prev);
        }
    }
}

/// Two squares of different (direction, distance) pairs on flanking
/// directions are different squares.
pub proof fn lemma_cap_pos_distinct(b: Board, r: int, c: int, p: Player, j1: int, a1: int, j2: int, a2: int)
    requires
        b.wf(),
        0 <= j1 < 8,
        0 <= j2 < 8,
        a1 == 1 || a1 == 2,
        a2 == 1 || a2 == 2,
        j1 != j2 || a1 != a2,
        flanks_pair(b, r, c, capture_dir(j1).0, capture_dir(j1).1, p),
        flanks_pair(b, r, c, capture_dir(j2).0, capture_dir(j2).1, p),
    ensures
        cap_pos(r, c, j1, a1) != cap_pos(r, c, j2, a2),
{
    lemma_cap_pos_on_board(b, r, c, p, j1, a1);
    lemma_cap_pos_on_board(b, r, c, p, j2, a2);
    lemma_capture_dirs_distinct(j1, j2);
    lemma_capture_dirs_distinct(j2, j1);
}

/// A captured square lies on the board; its coordinates as integers.
pub proof fn lemma_cap_pos_on_board(b: Board, r: int, c: int, p: Player, j: int, a: int)
    requires
        b.wf(),
        0 <= j < 8,
        a == 1 || a == 2,
        flanks_pair(b, r, c, capture_dir(j).0, capture_dir(j).1, p),
    ensures
        cap_pos(r, c, j, a).0 as int == r + (if a == 1 {
            capture_dir(j).0
        } else {
            2 * capture_dir(j).0
        }),
        cap_pos(r, c, j, a).1 as int == c + (if a == 1 {
            capture_dir(j).1
        } else {
            2 * capture_dir(j).1
        }),
        b.in_bounds(cap_pos(r, c, j, a).0 as int, cap_pos(r, c, j, a).1 as int),
{
}

/// The captured squares of a move are on the board, hold the opponent's
/// stones, and are pairwise distinct squares.
pub proof fn lemma_captures_valid(b: Board, r: int, c: int, p: Player)
    requires
        b.wf(),
    ensures
        spec_captures(b, r, c, p).len() <= 16,
        spec_captures(b, r, c, p).len() % 2 == 0,
        forall|k: int|
            0 <= k < spec_captures(b, r, c, p).len() ==> b.in_bounds(
                #[trigger] spec_captures(b, r, c, p)[k].0 as int,
                spec_captures(b, r, c, p)[k].1 as int,
            ) && b.stone(spec_captures(b, r, c, p)[k].0 as int, spec_captures(b, r, c, p)[k].1 as int)
                == Some(p.other()),
        forall|k1: int, k2: int|
            0 <= k1 < k2 < spec_captures(b, r, c, p).len() ==> #[trigger] spec_captures(
                b,
                r,
                c,
                p,
            )[k1] != #[trigger] spec_captures(b, r, c, p)[k2],
{
    lemma_capture_seq_on_board(b, r, c, p, 8);
    lemma_capture_seq_distinct(b, r, c, p, 8);
}

pub struct CaptureHandler;

impl CaptureHandler {
    /// Whether `player` at `(row, col)` flanks an opponent pair along `(dx, dy)`.
    fn flanks_in_direction(
        board: &Board,
        row: usize,
        col: usize,
        dx: isize,
        dy: isize,
        player_bits: &Vec<u64>,
        opponent_bits: &Vec<u64>,
        player: Player,
    ) -> (b: bool)
        requires
            board.wf(),
            8 * board.size < isize::MAX,
            -1 <= dx <= 1,
            -1 <= dy <= 1,
            (row as int) + 3 < isize::MAX,
            (col as int) + 3 < isize::MAX,
            player_bits@ == board.bits_of(player),
            opponent_bits@ == board.bits_of(player.other()),
        ensures
            b == flanks_pair(*board, row as int, col as int, dx as int, dy as int, player),
    {
        let pos1_x = row as isize + dx;
        let pos1_y = col as isize + dy;
        if !PatternAnalyzer::is_in_bounds(board, pos1_x, pos1_y) {
            return false;
        }
        proof {
            board.lemma_cell_index(pos1_x as int, pos1_y as int);
            board.lemma_stone_occ(pos1_x as int, pos1_y as int);
        }
        let idx1 = board.index(pos1_x as usize, pos1_y as usize);
        if !Board::is_bit_set(opponent_bits.as_slice(), idx1) {
            return false;
        }
        let pos2_x = pos1_x + dx;
        let pos2_y = pos1_y + dy;
        if !PatternAnalyzer::is_in_bounds(board, pos2_x, pos2_y) {
            return false;
        }
        proof {
            board.lemma_cell_index(pos2_x as int, pos2_y as int);
            board.lemma_stone_occ(pos2_x as int, pos2_y as int);
        }
        let idx2 = board.index(pos2_x as usize, pos2_y as usize);
        if !Board::is_bit_set(opponent_bits.as_slice(), idx2) {
            return false;
        }
        let pos3_x = pos2_x + dx;
        let pos3_y = pos2_y + dy;
        if !PatternAnalyzer::is_in_bounds(board, pos3_x, pos3_y) {
            return false;
        }
        proof {
            board.lemma_cell_index(pos3_x as int, pos3_y as int);
            board.lemma_stone_occ(pos3_x as int, pos3_y as int);
        }
        let idx3 = board.index(pos3_x as usize, pos3_y as usize);
        Board::is_bit_set(player_bits.as_slice(), idx3)
    }

    /// The opponent stones captured by `player` playing at `(row, col)`.
    pub fn detect_captures(board: &Board, row: usize, col: usize, player: Player) -> (captures: Vec<
        (usize, usize),
    >)
        requires
            board.wf(),
            (row as int) + 3 < isize::MAX,
            (col as int) + 3 < isize::MAX,
        ensures
            captures@ == spec_captures(*board, row as int, col as int, player),
    {
        proof {
            board.lemma_wf_facts();
        }
        let mut captures: Vec<(usize, usize)> = Vec::new();
        let opponent = player.opponent();
        let player_bits = board.get_player_bits(player);
        let opponent_bits = board.get_player_bits(opponent);
        let mut j: usize = 0;
        while j < 8
            invariant
                board.wf(),
                8 * board.size < isize::MAX,
                (row as int) + 3 < isize::MAX,
                (col as int) + 3 < isize::MAX,
                j <= 8,
                opponent == player.other(),
                player_bits@ == board.bits_of(player),
                opponent_bits@ == board.bits_of(opponent),
                captures@ == capture_seq(*board, row as int, col as int, player, j as int),
            decreases 8 - j,
        {
            let (dx, dy) = DIRECTIONS[j / 2];
            assert(dx == crate::patterns::dir(j as int / 2).0 && dy == crate::patterns::dir(j as int / 2).1);
            let multiplier: isize = if j % 2 == 0 { 1 } else { -1 };
            let actual_dx = dx * multiplier;
            let actual_dy = dy * multiplier;
            let ghost d = capture_dir(j as int);
            assert(actual_dx == d.0 && actual_dy == d.1);
            let ghost before = captures@;
            let ghost fl = flanks_pair(*board, row as int, col as int, d.0, d.1, player);
            if Self::flanks_in_direction(
                board,
                row,
                col,
                actual_dx,
                actual_dy,
                player_bits,
                opponent_bits,
                player,
            ) {
                captures.push(((row as isize + actual_dx) as usize, (col as isize + actual_dy) as usize));
                captures.push(
                    ((row as isize + 2 * actual_dx) as usize, (col as isize + 2 * actual_dy) as usize),
                );
            }
            proof {
                if fl {
                    assert(captures@ =~= before + seq![
                        ((row + d.0) as usize, (col + d.1) as usize),
                        ((row + 2 * d.0) as usize, (col + 2 * d.1) as usize),
                    ]);
                } else {
                    assert(captures@ =~= before + Seq::<(usize, usize)>::empty());
                }
            }
            j = j + 1;
        }
        captures
    }

    /// Removes the stones on the given squares. Each square `(r, c)` clears
    /// global index `r * size + c`.
    pub fn execute_captures(board: &mut Board, captures: &[(usize, usize)])
        requires
            old(board).wf(),
            forall|k: int|
                0 <= k < captures@.len() ==> #[trigger] captures@[k].0 * old(board).size
                    + captures@[k].1 <= usize::MAX,
        ensures
            final(board).wf(),
            final(board).size == old(board).size,
            final(board).u64_count == old(board).u64_count,
            final(board).total_cells == old(board).total_cells,
            forall|i: int|
                #[trigger] final(board).occ_at(i) == (old(board).occ_at(i) && !removed_by(
                    *old(board),
                    captures@,
                    captures@.len() as int,
                    i,
                )),
            forall|i: int|
                #[trigger] final(board).cell(i) == if old(board).occ_at(i) && !removed_by(
                    *old(board),
                    captures@,
                    captures@.len() as int,
                    i,
                ) {
                    old(board).cell(i)
                } else {
                    None
                },
            (forall|k: int|
                0 <= k < captures@.len() ==> old(board).in_bounds(
                    #[trigger] captures@[k].0 as int,
                    captures@[k].1 as int,
                )) ==> forall|r: int, c: int|
                #[trigger] final(board).stone(r, c) == if captures@.contains(
                    (r as usize, c as usize),
                ) && old(board).in_bounds(r, c) {
                    None
                } else {
                    old(board).stone(r, c)
                },
    {
        let mut n: usize = 0;
        while n < captures.len()
            invariant
                board.wf(),
                board.size == old(board).size,
                board.u64_count == old(board).u64_count,
                board.total_cells == old(board).total_cells,
                n <= captures@.len(),
                forall|k: int|
                    0 <= k < captures@.len() ==> #[trigger] captures@[k].0 * old(board).size
                        + captures@[k].1 <= usize::MAX,
                forall|i: int|
                    #[trigger] board.max_at(i) == (old(board).max_at(i) && !removed_by(
                        *old(board),
                        captures@,
                        n as int,
                        i,
                    )),
                forall|i: int|
                    #[trigger] board.min_at(i) == (old(board).min_at(i) && !removed_by(
                        *old(board),
                        captures@,
                        n as int,
                        i,
                    )),
                forall|i: int|
                    #[trigger] board.occ_at(i) == (old(board).occ_at(i) && !removed_by(
                        *old(board),
                        captures@,
                        n as int,
                        i,
                    )),
            decreases captures@.len() - n,
        {
            let (r, c) = captures[n];
            let idx = board.index(r, c);
            let ghost b0 = *board;
            Board::clear_bit(board.max_bits.as_mut_slice(), idx);
            Board::clear_bit(board.min_bits.as_mut_slice(), idx);
            Board::clear_bit(board.occupied.as_mut_slice(), idx);
            proof {
                assert(board.max_bits@.len() == b0.max_bits@.len());
                assert(board.min_bits@.len() == b0.min_bits@.len());
                assert(board.occupied@.len() == b0.occupied@.len());
                assert forall|i: int| #[trigger]
                    board.occ_at(i) == (board.max_at(i) || board.min_at(i)) by {
                    assert(b0.occ_at(i) == (b0.max_at(i) || b0.min_at(i)));
                }
                assert forall|i: int| #![trigger board.max_at(i)]
                    !(board.max_at(i) && board.min_at(i)) by {
                    assert(!(b0.max_at(i) && b0.min_at(i)));
                }
                assert forall|i: int| #[trigger] board.occ_at(i) implies 0 <= i
                    < board.total_cells by {
                    assert(b0.occ_at(i));
                }
                assert forall|i: int| #[trigger]
                    board.occ_at(i) == (old(board).occ_at(i) && !removed_by(
                        *old(board),
                        captures@,
                        n + 1,
                        i,
                    )) by {
                    lemma_removed_by_step(*old(board), captures@, n as int, i);
                    assert(b0.occ_at(i) == (old(board).occ_at(i) && !removed_by(
                        *old(board),
                        captures@,
                        n as int,
                        i,
                    )));
                    assert(board.occ_at(i) == (b0.occ_at(i) && i != idx));
                }
                assert forall|i: int| #[trigger]
                    board.max_at(i) == (old(board).max_at(i) && !removed_by(
                        *old(board),
                        captures@,
                        n + 1,
                        i,
                    )) by {
                    lemma_removed_by_step(*old(board), captures@, n as int, i);
                    assert(b0.max_at(i) == (old(board).max_at(i) && !removed_by(
                        *old(board),
                        captures@,
                        n as int,
                        i,
                    )));
                    assert(board.max_at(i) == (b0.max_at(i) && i != idx));
                }
                assert forall|i: int| #[trigger]
                    board.min_at(i) == (old(board).min_at(i) && !removed_by(
                        *old(board),
                        captures@,
                        n + 1,
                        i,
                    )) by {
                    lemma_removed_by_step(*old(board), captures@, n as int, i);
                    assert(b0.min_at(i) == (old(board).min_at(i) && !removed_by(
                        *old(board),
                        captures@,
                        n as int,
                        i,
                    )));
                    assert(board.min_at(i) == (b0.min_at(i) && i != idx));
                }
            }
            n = n + 1;
        }
        proof {
            assert forall|i: int| #[trigger] board.cell(i) == if old(board).occ_at(i) && !removed_by(
                *old(board),
                captures@,
                captures@.len() as int,
                i,
            ) {
                old(board).cell(i)
            } else {
                None
            } by {
                assert(old(board).occ_at(i) == (old(board).max_at(i) || old(board).min_at(i)));
            }
            if forall|k: int|
                0 <= k < captures@.len() ==> old(board).in_bounds(
                    #[trigger] captures@[k].0 as int,
                    captures@[k].1 as int,
                ) {
                assert forall|r: int, c: int| #[trigger] board.stone(r, c) == if captures@.contains(
                    (r as usize, c as usize),
                ) && old(board).in_bounds(r, c) {
                    None
                } else {
                    old(board).stone(r, c)
                } by {
                    if old(board).in_bounds(r, c) {
                        old(board).lemma_cell_index(r, c);
                        let i = old(board).idx(r, c);
                        if captures@.contains((r as usize, c as usize)) {
                            let k = choose|k: int|
                                0 <= k < captures@.len() && captures@[k] == (r as usize, c as usize);
                            assert(old(board).idx(captures@[k].0 as int, captures@[k].1 as int) == i);
                        } else {
                            if removed_by(*old(board), captures@, captures@.len() as int, i) {
                                let k = choose|k: int|
                                    0 <= k < captures@.len() && old(board).idx(
                                        captures@[k].0 as int,
                                        captures@[k].1 as int,
                                    ) == i;
                                crate::board::lemma_index_injective(
                                    old(board).size as int,
                                    captures@[k].0 as int,
                                    captures@[k].1 as int,
                                    r,
                                    c,
                                );
                                assert(captures@[k] == (r as usize, c as usize));
                            }
                        }
                    }
                }
            }
        }
    }
}

} // verus!

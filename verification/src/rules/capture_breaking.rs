//! Capture-based rule breaking.
//!
//! A five-in-a-row can be "broken" when the opponent can capture one of its
//! stones: the stone and its neighbour along some direction form a pair
//! flanked on one side by an opponent stone, with the other side empty.

use vstd::prelude::*;
use crate::board::{Board, Player};
use crate::patterns::{PatternAnalyzer, DIRECTIONS};

verus! {

/// `opponent` can capture the stone at `(r, c)` by playing two squares past
/// it along `(dx, dy)`: `O X X _` with `(r, c)` the first `X`.
pub open spec fn captures_stone_via(b: Board, r: int, c: int, dx: int, dy: int, opponent: Player) -> bool {
    &&& b.stone(r - dx, c - dy) == Some(opponent)
    &&& b.stone(r + dx, c + dy) == Some(opponent.other())
    &&& crate::patterns::valid_empty(b, r + 2 * dx, c + 2 * dy)
}

/// Some capture direction lets `opponent` capture the stone at `(r, c)`.
pub open spec fn stone_capturable(b: Board, r: int, c: int, opponent: Player) -> bool {
    exists|j: int|
        0 <= j < 8 && #[trigger] captures_stone_via(
            b,
            r,
            c,
            crate::captures::capture_dir(j).0,
            crate::captures::capture_dir(j).1,
            opponent,
        )
}

/// The capturing moves for the stone at `(r, c)` in capture directions `[0, j)`.
pub open spec fn capture_moves_seq(b: Board, r: int, c: int, opponent: Player, j: int) -> Seq<
    (usize, usize),
>
    decreases j,
{
    if j <= 0 {
        Seq::empty()
    } else {
        let d = crate::captures::capture_dir(j - 1);
        capture_moves_seq(b, r, c, opponent, j - 1) + if captures_stone_via(
            b,
            r,
            c,
            d.0,
            d.1,
            opponent,
        ) {
            seq![((r + 2 * d.0) as usize, (c + 2 * d.1) as usize)]
        } else {
            Seq::empty()
        }
    }
}

/// Length of the line of `p` through `(r, c)` along direction `k`, `(r, c)` counted.
pub open spec fn line_len(b: Board, r: int, c: int, k: int, p: Player) -> int {
    let d = crate::patterns::dir(k);
    1 + crate::patterns::run_len(b, r, c, d.0, d.1, p) + crate::patterns::run_len(
        b,
        r,
        c,
        -d.0,
        -d.1,
        p,
    )
}

pub open spec fn min4(n: int) -> int {
    if n < 4 {
        n
    } else {
        4
    }
}

/// Offset `i` along direction `k` names a stone of the inspected part of the
/// line through `(r, c)`: up to four stones each way.
pub open spec fn line_offset_ok(b: Board, r: int, c: int, k: int, p: Player, i: int) -> bool {
    let d = crate::patterns::dir(k);
    -min4(crate::patterns::run_len(b, r, c, -d.0, -d.1, p)) <= i <= min4(
        crate::patterns::run_len(b, r, c, d.0, d.1, p),
    )
}

pub open spec fn line_cell(r: int, c: int, k: int, i: int) -> (int, int) {
    let d = crate::patterns::dir(k);
    (crate::patterns::step(r, d.0, i), crate::patterns::step(c, d.1, i))
}

/// The inspected part of the line of five or more along direction `k`
/// holds a stone that the opponent of `p` can capture.
pub open spec fn dir_breakable(b: Board, r: int, c: int, k: int, p: Player) -> bool {
    line_len(b, r, c, k, p) >= 5 && exists|i: int|
        line_offset_ok(b, r, c, k, p, i) && #[trigger] stone_capturable(
            b,
            line_cell(r, c, k, i).0,
            line_cell(r, c, k, i).1,
            p.other(),
        )
}

/// Some line of five or more through `(r, c)` holds a stone, among those
/// inspected, that the opponent of `p` can capture.
pub open spec fn spec_can_break(b: Board, r: int, c: int, p: Player) -> bool {
    exists|k: int| 0 <= k < 4 && #[trigger] dir_breakable(b, r, c, k, p)
}

/// `m` captures an inspected stone of the line of five or more along direction `k`.
pub open spec fn dir_breaking_move(b: Board, r: int, c: int, k: int, p: Player, m: (usize, usize)) -> bool {
    line_len(b, r, c, k, p) >= 5 && exists|i: int|
        line_offset_ok(b, r, c, k, p, i) && #[trigger] capture_moves_seq(
            b,
            line_cell(r, c, k, i).0,
            line_cell(r, c, k, i).1,
            p.other(),
            8,
        ).contains(m)
}

/// `m` is a capturing move that breaks a line of five through `(r, c)`.
pub open spec fn is_breaking_move(b: Board, r: int, c: int, p: Player, m: (usize, usize)) -> bool {
    exists|k: int| 0 <= k < 4 && #[trigger] dir_breaking_move(b, r, c, k, p, m)
}

pub open spec fn pos_lt(a: (usize, usize), b: (usize, usize)) -> bool {
    a.0 < b.0 || (a.0 == b.0 && a.1 < b.1)
}

/// Strictly increasing in row-major order (hence without duplicates).
pub open spec fn sorted_unique(s: Seq<(usize, usize)>) -> bool {
    forall|a: int, b: int| 0 <= a < b < s.len() ==> pos_lt(#[trigger] s[a], #[trigger] s[b])
}

/// Inserts `x` into a strictly increasing list, keeping it strictly increasing.
pub fn insert_sorted_unique(v: &mut Vec<(usize, usize)>, x: (usize, usize))
    requires
        sorted_unique(old(v)@),
    ensures
        sorted_unique(final(v)@),
        forall|y: (usize, usize)| #[trigger] final(v)@.contains(y) <==> (old(v)@.contains(y) || y == x),
{
    let mut i: usize = 0;
    while i < v.len() && pos_lt_exec(v[i], x)
        invariant
            i <= v@.len(),
            v@ == old(v)@,
            sorted_unique(v@),
            forall|a: int| 0 <= a < i ==> pos_lt(#[trigger] v@[a], x),
        decreases v@.len() - i,
    {
        i = i + 1;
    }
    if i < v.len() && v[i].0 == x.0 && v[i].1 == x.1 {
        return;
    }
    let ghost before = v@;
    v.insert(i, x);
    proof {
        assert forall|a: int, b: int| 0 <= a < b < v@.len() implies pos_lt(
            #[trigger] v@[a],
            #[trigger] v@[b],
        ) by {
            if b < i {
            } else if a < i && b == i {
            } else if a < i {
                assert(v@[b] == before[b - 1]);
                assert(pos_lt(before[a], before[b - 1]));
            } else if a == i {
                assert(v@[b] == before[b - 1]);
                if b - 1 > i {
                    assert(pos_lt(before[i as int], before[b - 1]));
                }
            } else {
                assert(v@[a] == before[a - 1] && v@[b] == before[b - 1]);
            }
        }
        assert forall|y: (usize, usize)| #[trigger] v@.contains(y) <==> (before.contains(y) || y
            == x) by {
            if v@.contains(y) {
                let k = choose|k: int| 0 <= k < v@.len() && v@[k] == y;
                if k < i {
                    assert(before[k] == y);
                } else if k > i {
                    assert(before[k - 1] == y);
                }
            }
            if before.contains(y) {
                let k = choose|k: int| 0 <= k < before.len() && before[k] == y;
                if k < i {
                    assert(v@[k] == y);
                } else {
                    assert(v@[k + 1] == y);
                }
            }
            if y == x {
                assert(v@[i as int] == y);
            }
        }
    }
}

fn pos_lt_exec(a: (usize, usize), b: (usize, usize)) -> (r: bool)
    ensures
        r == pos_lt(a, b),
{
    a.0 < b.0 || (a.0 == b.0 && a.1 < b.1)
}

/// Every capturing move is an empty square of the board.
pub proof fn lemma_capture_moves_empty(b: Board, r: int, c: int, opponent: Player, j: int)
    ensures
        forall|k: int|
            0 <= k < capture_moves_seq(b, r, c, opponent, j).len() ==> crate::patterns::valid_empty(
                b,
                (#[trigger] capture_moves_seq(b, r, c, opponent, j)[k]).0 as int,
                capture_moves_seq(b, r, c, opponent, j)[k].1 as int,
            ),
    decreases j,
{
    if j > 0 {
        lemma_capture_moves_empty(b, r, c, opponent, j - 1);
        let prev = capture_moves_seq(b, r, c, opponent, j - 1);
        let cur = capture_moves_seq(b, r, c, opponent, j);
        assert forall|k: int| 0 <= k < cur.len() implies crate::patterns::valid_empty(
            b,
            (#[trigger] cur[k]).0 as int,
            cur[k].1 as int,
        ) by {
            if k < prev.len() {
                assert(cur[k] == prev[k]);
            }
        }
    }
}

/// Some of the capture directions `[0, j)` captures the stone exactly when
/// they give a capturing move.
proof fn lemma_capture_moves_nonempty(b: Board, r: int, c: int, opponent: Player, j: int)
    requires
        0 <= j <= 8,
    ensures
        (exists|i: int|
            0 <= i < j && #[trigger] captures_stone_via(
                b,
                r,
                c,
                crate::captures::capture_dir(i).0,
                crate::captures::capture_dir(i).1,
                opponent,
            )) <==> capture_moves_seq(b, r, c, opponent, j).len() > 0,
    decreases j,
{
    if j > 0 {
        lemma_capture_moves_nonempty(b, r, c, opponent, j - 1);
        let d = crate::captures::capture_dir(j - 1);
        if captures_stone_via(b, r, c, d.0, d.1, opponent) {
            assert(0 <= j - 1 < j);
        }
        if exists|i: int|
            0 <= i < j && #[trigger] captures_stone_via(
                b,
                r,
                c,
                crate::captures::capture_dir(i).0,
                crate::captures::capture_dir(i).1,
                opponent,
            ) {
            let i = choose|i: int|
                0 <= i < j && #[trigger] captures_stone_via(
                    b,
                    r,
                    c,
                    crate::captures::capture_dir(i).0,
                    crate::captures::capture_dir(i).1,
                    opponent,
                );
            if i < j - 1 {
                assert(capture_moves_seq(b, r, c, opponent, j - 1).len() > 0);
            }
        }
    }
}

/// A line of five through `(r, c)` can be broken by a capture exactly when
/// some move breaks it: `can_break_five_by_capture` holds exactly when
/// `get_breaking_capture_moves` is not empty.
pub proof fn lemma_breakable_iff_breaking_move(b: Board, r: int, c: int, p: Player)
    ensures
        spec_can_break(b, r, c, p) <==> exists|m: (usize, usize)| #[trigger] is_breaking_move(b, r, c, p, m),
{
    if spec_can_break(b, r, c, p) {
        let k = choose|k: int| 0 <= k < 4 && #[trigger] dir_breakable(b, r, c, k, p);
        let i = choose|i: int|
            line_offset_ok(b, r, c, k, p, i) && #[trigger] stone_capturable(
                b,
                line_cell(r, c, k, i).0,
                line_cell(r, c, k, i).1,
                p.other(),
            );
        let x = line_cell(r, c, k, i).0;
        let y = line_cell(r, c, k, i).1;
        lemma_capture_moves_nonempty(b, x, y, p.other(), 8);
        let s = capture_moves_seq(b, x, y, p.other(), 8);
        let m = s[0];
        assert(s.contains(m));
        assert(dir_breaking_move(b, r, c, k, p, m));
        assert(is_breaking_move(b, r, c, p, m));
    }
    if exists|m: (usize, usize)| #[trigger] is_breaking_move(b, r, c, p, m) {
        let m = choose|m: (usize, usize)| #[trigger] is_breaking_move(b, r, c, p, m);
        let k = choose|k: int| 0 <= k < 4 && #[trigger] dir_breaking_move(b, r, c, k, p, m);
        let i = choose|i: int|
            line_offset_ok(b, r, c, k, p, i) && #[trigger] capture_moves_seq(
                b,
                line_cell(r, c, k, i).0,
                line_cell(r, c, k, i).1,
                p.other(),
                8,
            ).contains(m);
        let x = line_cell(r, c, k, i).0;
        let y = line_cell(r, c, k, i).1;
        lemma_capture_moves_nonempty(b, x, y, p.other(), 8);
        assert(stone_capturable(b, x, y, p.other()));
        assert(dir_breakable(b, r, c, k, p));
    }
}

/// Every move that breaks a five is an empty square of the board.
pub proof fn lemma_breaking_move_empty(b: Board, r: int, c: int, p: Player, m: (usize, usize))
    requires
        is_breaking_move(b, r, c, p, m),
    ensures
        crate::patterns::valid_empty(b, m.0 as int, m.1 as int),
{
    let k = choose|k: int| 0 <= k < 4 && #[trigger] dir_breaking_move(b, r, c, k, p, m);
    let i = choose|i: int|
        line_offset_ok(b, r, c, k, p, i) && #[trigger] capture_moves_seq(
            b,
            line_cell(r, c, k, i).0,
            line_cell(r, c, k, i).1,
            p.other(),
            8,
        ).contains(m);
    let s = capture_moves_seq(b, line_cell(r, c, k, i).0, line_cell(r, c, k, i).1, p.other(), 8);
    lemma_capture_moves_empty(b, line_cell(r, c, k, i).0, line_cell(r, c, k, i).1, p.other(), 8);
    let idx = choose|idx: int| 0 <= idx < s.len() && s[idx] == m;
    assert(s[idx] == m);
}

pub struct CaptureBreaking;

impl CaptureBreaking {
    /// Whether `opponent` can capture the stone at `(row, col)`.
    fn can_opponent_capture_stone(board: &Board, row: isize, col: isize, opponent: Player) -> (b:
        bool)
        requires
            board.wf(),
            8 * board.size < isize::MAX,
            -8 <= row <= board.size + 8,
            -8 <= col <= board.size + 8,
        ensures
            b == stone_capturable(*board, row as int, col as int, opponent),
    {
        let mut j: usize = 0;
        while j < 8
            invariant
                board.wf(),
                8 * board.size < isize::MAX,
                -8 <= row <= board.size + 8,
                -8 <= col <= board.size + 8,
                j <= 8,
                forall|j2: int|
                    0 <= j2 < j ==> !#[trigger] captures_stone_via(
                        *board,
                        row as int,
                        col as int,
                        crate::captures::capture_dir(j2).0,
                        crate::captures::capture_dir(j2).1,
                        opponent,
                    ),
            decreases 8 - j,
        {
            let (dx, dy) = DIRECTIONS[j / 2];
            assert(dx == crate::patterns::dir(j as int / 2).0 && dy == crate::patterns::dir(
                j as int / 2,
            ).1);
            let actual_dx = if j % 2 == 0 { dx } else { -dx };
            let actual_dy = if j % 2 == 0 { dy } else { -dy };
            assert(actual_dx == crate::captures::capture_dir(j as int).0 && actual_dy
                == crate::captures::capture_dir(j as int).1);
            if Self::captures_via(board, row, col, actual_dx, actual_dy, opponent) {
                assert(captures_stone_via(
                    *board,
                    row as int,
                    col as int,
                    crate::captures::capture_dir(j as int).0,
                    crate::captures::capture_dir(j as int).1,
                    opponent,
                ));
                return true;
            }
            j = j + 1;
        }
        false
    }

    /// `captures_stone_via`: the flanking square first, then the partner stone,
    /// then the empty landing square.
    fn captures_via(board: &Board, row: isize, col: isize, dx: isize, dy: isize, opponent: Player) -> (b: bool)
        requires
            board.wf(),
            8 * board.size < isize::MAX,
            -8 <= row <= board.size + 8,
            -8 <= col <= board.size + 8,
            -1 <= dx <= 1,
            -1 <= dy <= 1,
        ensures
            b == captures_stone_via(*board, row as int, col as int, dx as int, dy as int, opponent),
    {
        let cap_row = row - dx;
        let cap_col = col - dy;
        if !PatternAnalyzer::is_in_bounds(board, cap_row, cap_col) {
            return false;
        }
        proof {
            board.lemma_cell_index(cap_row as int, cap_col as int);
        }
        if board.get_player(cap_row as usize, cap_col as usize) != Some(opponent) {
            return false;
        }
        let next_row = row + dx;
        let next_col = col + dy;
        if !PatternAnalyzer::is_in_bounds(board, next_row, next_col) {
            return false;
        }
        if board.get_player(next_row as usize, next_col as usize) != Some(opponent.opponent()) {
            return false;
        }
        let place_row = next_row + dx;
        let place_col = next_col + dy;
        PatternAnalyzer::is_valid_empty(board, place_row, place_col)
    }

    /// The moves by which `opponent` captures the stone at `(row, col)`.
    fn get_moves_that_capture_stone(board: &Board, row: isize, col: isize, opponent: Player) -> (moves: Vec<(usize, usize)>)
        requires
            board.wf(),
            8 * board.size < isize::MAX,
            -8 <= row <= board.size + 8,
            -8 <= col <= board.size + 8,
        ensures
            moves@ == capture_moves_seq(*board, row as int, col as int, opponent, 8),
    {
        let mut moves: Vec<(usize, usize)> = Vec::new();
        let mut j: usize = 0;
        while j < 8
            invariant
                board.wf(),
                8 * board.size < isize::MAX,
                -8 <= row <= board.size + 8,
                -8 <= col <= board.size + 8,
                j <= 8,
                moves@ == capture_moves_seq(*board, row as int, col as int, opponent, j as int),
            decreases 8 - j,
        {
            let (dx, dy) = DIRECTIONS[j / 2];
            assert(dx == crate::patterns::dir(j as int / 2).0 && dy == crate::patterns::dir(
                j as int / 2,
            ).1);
            let actual_dx = if j % 2 == 0 { dx } else { -dx };
            let actual_dy = if j % 2 == 0 { dy } else { -dy };
            assert(actual_dx == crate::captures::capture_dir(j as int).0 && actual_dy
                == crate::captures::capture_dir(j as int).1);
            let ghost before = moves@;
            if Self::captures_via(board, row, col, actual_dx, actual_dy, opponent) {
                moves.push(((row + 2 * actual_dx) as usize, (col + 2 * actual_dy) as usize));
                proof {
                    assert(moves@ =~= before + seq![
                        ((row + 2 * actual_dx) as usize, (col + 2 * actual_dy) as usize),
                    ]);
                }
            } else {
                proof {
                    assert(moves@ =~= before + Seq::<(usize, usize)>::empty());
                }
            }
            j = j + 1;
        }
        moves
    }
    /// Checks the inspected stones of the line along `DIRECTIONS[k]`:
    /// `(row, col)`, up to four stones behind, up to four ahead.
    fn line_capturable(
        board: &Board,
        row: usize,
        col: usize,
        dx: isize,
        dy: isize,
        back: usize,
        fwd: usize,
        player: Player,
        Ghost(k): Ghost<int>,
    ) -> (b: bool)
        requires
            board.wf(),
            8 * board.size < isize::MAX,
            board.in_bounds(row as int, col as int),
            0 <= k < 4,
            dx == crate::patterns::dir(k).0,
            dy == crate::patterns::dir(k).1,
            back == crate::patterns::run_len(*board, row as int, col as int, -dx, -dy, player),
            fwd == crate::patterns::run_len(*board, row as int, col as int, dx as int, dy as int, player),
        ensures
            b == exists|i: int|
                line_offset_ok(*board, row as int, col as int, k, player, i)
                    && #[trigger] stone_capturable(
                    *board,
                    line_cell(row as int, col as int, k, i).0,
                    line_cell(row as int, col as int, k, i).1,
                    player.other(),
                ),
    {
        let opponent = player.opponent();
        let nb: isize = if back < 4 { back as isize } else { 4 };
        let nf: isize = if fwd < 4 { fwd as isize } else { 4 };
        let mut i: isize = -nb;
        while i <= nf
            invariant
                board.wf(),
                8 * board.size < isize::MAX,
                board.in_bounds(row as int, col as int),
                0 <= k < 4,
                dx == crate::patterns::dir(k).0,
                dy == crate::patterns::dir(k).1,
                opponent == player.other(),
                nb == min4(back as int),
                nf == min4(fwd as int),
                back == crate::patterns::run_len(*board, row as int, col as int, -dx, -dy, player),
                fwd == crate::patterns::run_len(*board, row as int, col as int, dx as int, dy as int, player),
                -nb <= i <= nf + 1,
                forall|i2: int|
                    -nb <= i2 < i ==> !#[trigger] stone_capturable(
                        *board,
                        line_cell(row as int, col as int, k, i2).0,
                        line_cell(row as int, col as int, k, i2).1,
                        player.other(),
                    ),
            decreases nf + 1 - i,
        {
            proof {
                crate::patterns::lemma_unit_mul(dx as int, i as int);
                crate::patterns::lemma_unit_mul(dy as int, i as int);
            }
            let r = row as isize + dx * i;
            let c = col as isize + dy * i;
            assert(r == line_cell(row as int, col as int, k, i as int).0);
            assert(c == line_cell(row as int, col as int, k, i as int).1);
            if Self::can_opponent_capture_stone(board, r, c, opponent) {
                assert(line_offset_ok(*board, row as int, col as int, k, player, i as int));
                return true;
            }
            i = i + 1;
        }
        false
    }

    /// Check if a five-in-a-row through `(row, col)` can be broken by an
    /// opponent capture of one of its stones (up to four each way).
    pub fn can_break_five_by_capture(board: &Board, row: usize, col: usize, player: Player) -> (b: bool)
        requires
            board.wf(),
            board.in_bounds(row as int, col as int),
        ensures
            b == spec_can_break(*board, row as int, col as int, player),
    {
        proof {
            board.lemma_wf_facts();
        }
        let mut k: usize = 0;
        while k < 4
            invariant
                board.wf(),
                8 * board.size < isize::MAX,
                board.in_bounds(row as int, col as int),
                k <= 4,
                forall|k2: int| 0 <= k2 < k ==> !#[trigger] dir_breakable(*board, row as int, col as int, k2, player),
            decreases 4 - k,
        {
            let (dx, dy) = DIRECTIONS[k];
            assert(dx == crate::patterns::dir(k as int).0 && dy == crate::patterns::dir(k as int).1);
            let fwd = PatternAnalyzer::count_consecutive(board, row, col, dx, dy, player);
            let back = PatternAnalyzer::count_consecutive(board, row, col, -dx, -dy, player);
            let count = 1 + fwd + back;
            if count >= 5 {
                if Self::line_capturable(board, row, col, dx, dy, back, fwd, player, Ghost(k as int)) {
                    assert(dir_breakable(*board, row as int, col as int, k as int, player));
                    return true;
                }
            }
            k = k + 1;
        }
        false
    }

    /// Adds to `moves` the capturing moves of the inspected stones of the line
    /// along `DIRECTIONS[k]`.
    fn collect_line_moves(
        board: &Board,
        row: usize,
        col: usize,
        dx: isize,
        dy: isize,
        back: usize,
        fwd: usize,
        player: Player,
        moves: &mut Vec<(usize, usize)>,
        Ghost(k): Ghost<int>,
    )
        requires
            board.wf(),
            8 * board.size < isize::MAX,
            board.in_bounds(row as int, col as int),
            0 <= k < 4,
            dx == crate::patterns::dir(k).0,
            dy == crate::patterns::dir(k).1,
            back == crate::patterns::run_len(*board, row as int, col as int, -dx, -dy, player),
            fwd == crate::patterns::run_len(*board, row as int, col as int, dx as int, dy as int, player),
            sorted_unique(old(moves)@),
        ensures
            sorted_unique(final(moves)@),
            forall|m: (usize, usize)| #[trigger] final(moves)@.contains(m) <==> (old(moves)@.contains(m)
                || exists|i: int|
                line_offset_ok(*board, row as int, col as int, k, player, i)
                    && #[trigger] capture_moves_seq(
                    *board,
                    line_cell(row as int, col as int, k, i).0,
                    line_cell(row as int, col as int, k, i).1,
                    player.other(),
                    8,
                ).contains(m)),
    {
        let opponent = player.opponent();
        let nb: isize = if back < 4 { back as isize } else { 4 };
        let nf: isize = if fwd < 4 { fwd as isize } else { 4 };
        let mut i: isize = -nb;
        while i <= nf
            invariant
                board.wf(),
                8 * board.size < isize::MAX,
                board.in_bounds(row as int, col as int),
                0 <= k < 4,
                dx == crate::patterns::dir(k).0,
                dy == crate::patterns::dir(k).1,
                opponent == player.other(),
                nb == min4(back as int),
                nf == min4(fwd as int),
                back == crate::patterns::run_len(*board, row as int, col as int, -dx, -dy, player),
                fwd == crate::patterns::run_len(*board, row as int, col as int, dx as int, dy as int, player),
                -nb <= i <= nf + 1,
                sorted_unique(moves@),
                forall|m: (usize, usize)| #[trigger] moves@.contains(m) <==> (old(moves)@.contains(m)
                    || exists|i2: int|
                    -nb <= i2 < i && #[trigger] capture_moves_seq(
                        *board,
                        line_cell(row as int, col as int, k, i2).0,
                        line_cell(row as int, col as int, k, i2).1,
                        player.other(),
                        8,
                    ).contains(m)),
            decreases nf + 1 - i,
        {
            proof {
                crate::patterns::lemma_unit_mul(dx as int, i as int);
                crate::patterns::lemma_unit_mul(dy as int, i as int);
            }
            let r = row as isize + dx * i;
            let c = col as isize + dy * i;
            assert(r == line_cell(row as int, col as int, k, i as int).0);
            assert(c == line_cell(row as int, col as int, k, i as int).1);
            let found = Self::get_moves_that_capture_stone(board, r, c, opponent);
            let ghost before = moves@;
            let mut q: usize = 0;
            while q < found.len()
                invariant
                    q <= found@.len(),
                    sorted_unique(moves@),
                    forall|m: (usize, usize)| #[trigger] moves@.contains(m) <==> (before.contains(m)
                        || exists|t: int| 0 <= t < q && #[trigger] found@[t] == m),
                decreases found@.len() - q,
            {
                insert_sorted_unique(moves, found[q]);
                proof {
                    assert forall|m: (usize, usize)| #[trigger] moves@.contains(m) <==> (before.contains(m)
                        || exists|t: int| 0 <= t < q + 1 && #[trigger] found@[t] == m) by {
                        if exists|t: int| 0 <= t < q + 1 && #[trigger] found@[t] == m {
                            let t = choose|t: int| 0 <= t < q + 1 && #[trigger] found@[t] == m;
                            if t < q {
                                assert(exists|t: int| 0 <= t < q && #[trigger] found@[t] == m);
                            }
                        }
                        if m == found@[q as int] {
                            assert(0 <= q < q + 1 && found@[q as int] == m);
                        }
                    }
                }
                q = q + 1;
            }
            proof {
                assert forall|m: (usize, usize)| #[trigger] found@.contains(m) <==> exists|t: int| 0 <= t < found@.len() && #[trigger] found@[t] == m by {
                }
            }
            proof {
                assert forall|m: (usize, usize)| #[trigger] moves@.contains(m) <==> (old(moves)@.contains(m)
                    || exists|i2: int|
                    -nb <= i2 < i + 1 && #[trigger] capture_moves_seq(
                        *board,
                        line_cell(row as int, col as int, k, i2).0,
                        line_cell(row as int, col as int, k, i2).1,
                        player.other(),
                        8,
                    ).contains(m)) by {
                    if exists|i2: int|
                        -nb <= i2 < i + 1 && #[trigger] capture_moves_seq(
                            *board,
                            line_cell(row as int, col as int, k, i2).0,
                            line_cell(row as int, col as int, k, i2).1,
                            player.other(),
                            8,
                        ).contains(m) {
                        let i2 = choose|i2: int|
                            -nb <= i2 < i + 1 && #[trigger] capture_moves_seq(
                                *board,
                                line_cell(row as int, col as int, k, i2).0,
                                line_cell(row as int, col as int, k, i2).1,
                                player.other(),
                                8,
                            ).contains(m);
                        if i2 < i {
                            assert(before.contains(m));
                        } else {
                            assert(found@.contains(m));
                            let t = choose|t: int| 0 <= t < found@.len() && found@[t] == m;
                            assert(found@[t] == m);
                        }
                    }
                    if moves@.contains(m) && !before.contains(m) && !old(moves)@.contains(m) {
                        let t = choose|t: int| 0 <= t < found@.len() && #[trigger] found@[t] == m;
                        assert(found@.contains(m));
                        assert(-nb <= i < i + 1 && capture_moves_seq(
                            *board,
                            line_cell(row as int, col as int, k, i as int).0,
                            line_cell(row as int, col as int, k, i as int).1,
                            player.other(),
                            8,
                        ).contains(m));
                    }
                }
            }
            i = i + 1;
        }
        proof {
            assert forall|m: (usize, usize)| #[trigger] moves@.contains(m) <==> (old(moves)@.contains(m)
                || exists|i2: int|
                line_offset_ok(*board, row as int, col as int, k, player, i2)
                    && #[trigger] capture_moves_seq(
                    *board,
                    line_cell(row as int, col as int, k, i2).0,
                    line_cell(row as int, col as int, k, i2).1,
                    player.other(),
                    8,
                ).contains(m)) by {
                if exists|i2: int|
                    line_offset_ok(*board, row as int, col as int, k, player, i2)
                        && #[trigger] capture_moves_seq(
                        *board,
                        line_cell(row as int, col as int, k, i2).0,
                        line_cell(row as int, col as int, k, i2).1,
                        player.other(),
                        8,
                    ).contains(m) {
                    let i2 = choose|i2: int|
                        line_offset_ok(*board, row as int, col as int, k, player, i2)
                            && #[trigger] capture_moves_seq(
                            *board,
                            line_cell(row as int, col as int, k, i2).0,
                            line_cell(row as int, col as int, k, i2).1,
                            player.other(),
                            8,
                        ).contains(m);
                    assert(-nb <= i2 < i);
                }
            }
        }
    }

    /// All moves that break a five-in-a-row through `(row, col)` by capture,
    /// sorted in row-major order without duplicates.
    pub fn get_breaking_capture_moves(board: &Board, row: usize, col: usize, player: Player) -> (moves: Vec<(usize, usize)>)
        requires
            board.wf(),
            board.in_bounds(row as int, col as int),
        ensures
            sorted_unique(moves@),
            forall|m: (usize, usize)| #[trigger] moves@.contains(m) <==> is_breaking_move(*board, row as int, col as int, player, m),
    {
        proof {
            board.lemma_wf_facts();
        }
        let mut breaking_moves: Vec<(usize, usize)> = Vec::new();
        let mut k: usize = 0;
        while k < 4
            invariant
                board.wf(),
                8 * board.size < isize::MAX,
                board.in_bounds(row as int, col as int),
                k <= 4,
                sorted_unique(breaking_moves@),
                forall|m: (usize, usize)| #[trigger] breaking_moves@.contains(m) <==> exists|k2: int|
                    0 <= k2 < k && #[trigger] dir_breaking_move(*board, row as int, col as int, k2, player, m),
            decreases 4 - k,
        {
            let (dx, dy) = DIRECTIONS[k];
            assert(dx == crate::patterns::dir(k as int).0 && dy == crate::patterns::dir(k as int).1);
            let fwd = PatternAnalyzer::count_consecutive(board, row, col, dx, dy, player);
            let back = PatternAnalyzer::count_consecutive(board, row, col, -dx, -dy, player);
            let count = 1 + fwd + back;
            let ghost before = breaking_moves@;
            if count >= 5 {
                Self::collect_line_moves(board, row, col, dx, dy, back, fwd, player, &mut breaking_moves, Ghost(k as int));
            }
            proof {
                assert forall|m: (usize, usize)| #[trigger] breaking_moves@.contains(m) <==> exists|k2: int|
                    0 <= k2 < k + 1 && #[trigger] dir_breaking_move(*board, row as int, col as int, k2, player, m) by {
                    if exists|k2: int|
                        0 <= k2 < k + 1 && #[trigger] dir_breaking_move(*board, row as int, col as int, k2, player, m) {
                        let k2 = choose|k2: int|
                            0 <= k2 < k + 1 && #[trigger] dir_breaking_move(*board, row as int, col as int, k2, player, m);
                        if k2 < k {
                            assert(before.contains(m));
                        }
                    }
                    if breaking_moves@.contains(m) && !before.contains(m) {
                        assert(dir_breaking_move(*board, row as int, col as int, k as int, player, m));
                    }
                }
            }
            k = k + 1;
        }
        breaking_moves
    }
}

} // verus!

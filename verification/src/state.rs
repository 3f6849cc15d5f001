//! The full game state: board, side to move, captured pairs, histories, the
//! running Zobrist hash and the "check" left by a breakable five.
//!
//! Invariant (`wf`): the board is well formed, the key table fits the board,
//! and `current_hash` is the Zobrist hash of the board and side to move.
//! `make_move` and `undo_move` keep it, and undoing a move restores the
//! position, side to move, capture counts, hash and histories it had before.

use vstd::prelude::*;
use crate::ai::move_generation::MoveGenerator;
use crate::board::{Board, Player};
use crate::captures::CaptureHandler;
use crate::rules::capture_breaking::CaptureBreaking;
use crate::rules::double_three::DoubleThreeDetection;
use crate::rules::win_detection::WinDetection;
use crate::zobrist::ZobristHash;

verus! {

/// The listed squares are on the board, pairwise distinct, and each holds a stone of `q`.
pub open spec fn caps_held(b: Board, caps: Seq<(usize, usize)>, q: Player) -> bool {
    &&& forall|k: int|
        0 <= k < caps.len() ==> b.in_bounds(#[trigger] caps[k].0 as int, caps[k].1 as int) && b.stone(
            caps[k].0 as int,
            caps[k].1 as int,
        ) == Some(q)
    &&& forall|k1: int, k2: int| 0 <= k1 < k2 < caps.len() ==> #[trigger] caps[k1] != #[trigger] caps[k2]
}

/// The listed squares are on the board, pairwise distinct, and empty.
pub open spec fn caps_free(b: Board, caps: Seq<(usize, usize)>) -> bool {
    &&& forall|k: int|
        0 <= k < caps.len() ==> b.in_bounds(#[trigger] caps[k].0 as int, caps[k].1 as int) && b.stone(
            caps[k].0 as int,
            caps[k].1 as int,
        ) is None
    &&& forall|k1: int, k2: int| 0 <= k1 < k2 < caps.len() ==> #[trigger] caps[k1] != #[trigger] caps[k2]
}

/// The first `n` listed squares hold different global indices from square `k`'s.
pub proof fn lemma_listed_distinct(b: Board, caps: Seq<(usize, usize)>, n: int)
    requires
        b.wf(),
        0 <= n < caps.len(),
        forall|k: int|
            0 <= k < caps.len() ==> b.in_bounds(#[trigger] caps[k].0 as int, caps[k].1 as int),
        forall|k1: int, k2: int| 0 <= k1 < k2 < caps.len() ==> #[trigger] caps[k1] != #[trigger] caps[k2],
    ensures
        !crate::captures::removed_by(b, caps, n, b.idx(caps[n].0 as int, caps[n].1 as int)),
{
    if crate::captures::removed_by(b, caps, n, b.idx(caps[n].0 as int, caps[n].1 as int)) {
        let k = choose|k: int|
            0 <= k < n && b.idx(caps[k].0 as int, caps[k].1 as int) == b.idx(
                caps[n].0 as int,
                caps[n].1 as int,
            );
        assert(b.in_bounds(caps[k].0 as int, caps[k].1 as int));
        assert(b.in_bounds(caps[n].0 as int, caps[n].1 as int));
        crate::board::lemma_index_injective(
            b.size as int,
            caps[k].0 as int,
            caps[k].1 as int,
            caps[n].0 as int,
            caps[n].1 as int,
        );
        assert(caps[k] != caps[n]);
    }
}

/// Winner, win reason, player in check and check square after `mover` played
/// `mv` on `b` (captures already removed), given the capture counts and the
/// values these fields had before.
pub open spec fn spec_after_wins(
    b: Board,
    max_captures: int,
    min_captures: int,
    capture_to_win: int,
    win_condition: int,
    mover: Player,
    mv: (usize, usize),
    winner: Option<Player>,
    reason: Option<WinReason>,
    in_check: Option<Player>,
    check_pos: Option<(usize, usize)>,
) -> (Option<Player>, Option<WinReason>, Option<Player>, Option<(usize, usize)>) {
    let cw = crate::rules::win_detection::spec_capture_win(max_captures, min_captures, capture_to_win);
    let has = crate::rules::win_detection::spec_win_around(b, mv.0 as int, mv.1 as int, win_condition);
    if cw is Some {
        (cw, Some(WinReason::Captures), None, None)
    } else if has {
        if crate::rules::capture_breaking::spec_can_break(
            b,
            mv.0 as int,
            mv.1 as int,
            b.stone(mv.0 as int, mv.1 as int).unwrap(),
        ) {
            (None, None, Some(mover), Some(mv))
        } else {
            (Some(mover), Some(WinReason::Alignment), None, None)
        }
    } else if in_check is Some && check_pos is Some {
        let cp = check_pos.unwrap();
        let still = crate::rules::win_detection::spec_win_around(b, cp.0 as int, cp.1 as int, win_condition);
        if !still {
            (winner, reason, None, None)
        } else if !crate::rules::capture_breaking::spec_can_break(
            b,
            cp.0 as int,
            cp.1 as int,
            b.stone(cp.0 as int, cp.1 as int).unwrap(),
        ) {
            (in_check, Some(WinReason::Alignment), None, None)
        } else {
            (winner, reason, in_check, check_pos)
        }
    } else {
        (winner, reason, in_check, check_pos)
    }
}

/// Cell `i` after `p` plays `mv` on `b` and the squares `caps` are captured.
pub open spec fn made_cell(b: Board, mv: (usize, usize), p: Player, caps: Seq<(usize, usize)>, i: int) -> Option<
    Player,
> {
    if i == b.idx(mv.0 as int, mv.1 as int) {
        Some(p)
    } else if crate::captures::removed_by(b, caps, caps.len() as int, i) {
        None
    } else {
        b.cell(i)
    }
}

/// `t` is the state after the side to move in `s` plays `mv`.
pub open spec fn spec_made(s: GameState, t: GameState, mv: (usize, usize)) -> bool {
    let p = s.current_player;
    let caps = crate::captures::spec_captures(s.board, mv.0 as int, mv.1 as int, p);
    let pairs = caps.len() / 2;
    let maxc = s.max_captures + if p == Player::Max {
        pairs
    } else {
        0
    };
    let minc = s.min_captures + if p == Player::Min {
        pairs
    } else {
        0
    };
    &&& t.board.size == s.board.size
    &&& forall|i: int| #[trigger] t.board.cell(i) == made_cell(s.board, mv, p, caps, i)
    &&& t.current_player == p.other()
    &&& t.max_captures == maxc
    &&& t.min_captures == minc
    &&& t.capture_history@.len() == s.capture_history@.len() + 1
    &&& forall|k: int|
        0 <= k < s.capture_history@.len() ==> #[trigger] t.capture_history@[k] == s.capture_history@[k]
    &&& t.capture_history@[s.capture_history@.len() as int]@ == caps
    &&& t.move_history@ == s.move_history@.push(mv)
    &&& t.zobrist_hash == s.zobrist_hash
    &&& t.win_condition == s.win_condition
    &&& t.capture_to_win == s.capture_to_win
    &&& (t.winner, t.win_reason, t.player_in_check, t.check_position) == spec_after_wins(
        t.board,
        maxc,
        minc,
        s.capture_to_win as int,
        s.win_condition as int,
        p,
        mv,
        s.winner,
        s.win_reason,
        s.player_in_check,
        s.check_position,
    )
}

/// Some stone of `q` at `(x, y)` belongs to a winning line that a capture can break.
pub open spec fn check_at(b: Board, q: Player, win: int, x: int, y: int) -> bool {
    &&& b.stone(x, y) == Some(q)
    &&& crate::rules::win_detection::spec_win_around(b, x, y, win)
    &&& crate::rules::capture_breaking::spec_can_break(b, x, y, q)
}

/// The first square from `(x, y)` on, in row-major order, satisfying `check_at`.
pub open spec fn scan_check(b: Board, q: Player, win: int, x: int, y: int) -> Option<(usize, usize)>
    decreases b.size - x, b.size - y,
{
    if x < 0 || x >= b.size {
        None
    } else if y >= b.size {
        scan_check(b, q, win, x + 1, 0)
    } else if check_at(b, q, win, x, y) {
        Some((x as usize, y as usize))
    } else {
        scan_check(b, q, win, x, y + 1)
    }
}

/// The capture list recorded for the last move, empty if none is recorded.
pub open spec fn last_captures(s: GameState) -> Seq<(usize, usize)> {
    if s.capture_history@.len() > 0 {
        s.capture_history@[s.capture_history@.len() - 1]@
    } else {
        Seq::empty()
    }
}

/// Cell `i` after taking back the stone on `mv` and putting stones of `q`
/// back on the squares `caps`.
pub open spec fn undone_cell(b: Board, mv: (usize, usize), caps: Seq<(usize, usize)>, q: Player, i: int) -> Option<
    Player,
> {
    if crate::captures::removed_by(b, caps, caps.len() as int, i) {
        Some(q)
    } else if i == b.idx(mv.0 as int, mv.1 as int) {
        None
    } else {
        b.cell(i)
    }
}

/// `s` is a state in which the move `mv` of the side that just moved can be
/// taken back: its stone is on `mv`, and the squares it captured (the last
/// recorded list) are on the board, distinct and empty.
pub open spec fn undo_ready(s: GameState, mv: (usize, usize)) -> bool {
    &&& s.wf()
    &&& s.board.in_bounds(mv.0 as int, mv.1 as int)
    &&& s.board.stone(mv.0 as int, mv.1 as int) == Some(s.current_player.other())
    &&& caps_free(s.board, last_captures(s))
}

/// `t` is the state after taking back `mv` in `s`.
pub open spec fn spec_undone(s: GameState, t: GameState, mv: (usize, usize)) -> bool {
    let mover = s.current_player.other();
    let q = s.current_player;
    let caps = last_captures(s);
    let pairs = caps.len() / 2;
    let ml = s.move_history@.len();
    &&& t.board.size == s.board.size
    &&& forall|i: int| #[trigger] t.board.cell(i) == undone_cell(s.board, mv, caps, q, i)
    &&& t.current_player == mover
    &&& t.winner is None
    &&& t.win_reason == s.win_reason
    &&& t.move_history@ == if ml > 0 && s.move_history@[ml - 1] == mv {
        s.move_history@.drop_last()
    } else {
        s.move_history@
    }
    &&& t.capture_history@ == if s.capture_history@.len() > 0 {
        s.capture_history@.drop_last()
    } else {
        s.capture_history@
    }
    &&& t.max_captures == if mover == Player::Max && s.max_captures >= pairs {
        s.max_captures - pairs
    } else {
        s.max_captures as int
    }
    &&& t.min_captures == if mover == Player::Min && s.min_captures >= pairs {
        s.min_captures - pairs
    } else {
        s.min_captures as int
    }
    &&& t.check_position == scan_check(t.board, q, s.win_condition as int, 0, 0)
    &&& t.player_in_check == if t.check_position is Some {
        Some(q)
    } else {
        None
    }
    &&& t.zobrist_hash == s.zobrist_hash
    &&& t.win_condition == s.win_condition
    &&& t.capture_to_win == s.capture_to_win
}

/// A square found by `scan_check` is on the board.
pub proof fn lemma_scan_check_in_bounds(b: Board, q: Player, win: int, x: int, y: int)
    requires
        x >= 0,
        y >= 0,
    ensures
        scan_check(b, q, win, x, y) is Some ==> b.in_bounds(
            scan_check(b, q, win, x, y).unwrap().0 as int,
            scan_check(b, q, win, x, y).unwrap().1 as int,
        ),
    decreases b.size - x, b.size - y,
{
    if x < 0 || x >= b.size {
    } else if y >= b.size {
        lemma_scan_check_in_bounds(b, q, win, x + 1, 0);
    } else if check_at(b, q, win, x, y) {
    } else {
        lemma_scan_check_in_bounds(b, q, win, x, y + 1);
    }
}

pub proof fn lemma_removed_by_size(b1: Board, b2: Board, caps: Seq<(usize, usize)>, n: int, i: int)
    requires
        b1.size == b2.size,
    ensures
        crate::captures::removed_by(b1, caps, n, i) == crate::captures::removed_by(b2, caps, n, i),
{
    if crate::captures::removed_by(b1, caps, n, i) {
        let k = choose|k: int| 0 <= k < n && b1.idx(caps[k].0 as int, caps[k].1 as int) == i;
        assert(b2.idx(caps[k].0 as int, caps[k].1 as int) == i);
    }
    if crate::captures::removed_by(b2, caps, n, i) {
        let k = choose|k: int| 0 <= k < n && b2.idx(caps[k].0 as int, caps[k].1 as int) == i;
        assert(b1.idx(caps[k].0 as int, caps[k].1 as int) == i);
    }
}

/// A capture must be made: the opponent of the side to move has a breakable
/// five at the check square.
pub open spec fn spec_forced(s: GameState) -> bool {
    &&& s.player_in_check is Some
    &&& s.player_in_check.unwrap() != s.current_player
    &&& s.check_position is Some
}

/// `mv` may be played: an empty square on the board, not a forbidden
/// double-three, and, when a capture is forced, one that breaks the five.
pub open spec fn spec_is_legal(s: GameState, mv: (usize, usize)) -> bool {
    &&& s.board.in_bounds(mv.0 as int, mv.1 as int)
    &&& s.board.stone(mv.0 as int, mv.1 as int) is None
    &&& !crate::rules::double_three::spec_double_three(s.board, mv.0 as int, mv.1 as int, s.current_player)
    &&& spec_forced(s) ==> crate::rules::capture_breaking::is_breaking_move(
        s.board,
        s.check_position.unwrap().0 as int,
        s.check_position.unwrap().1 as int,
        s.player_in_check.unwrap(),
        mv,
    )
}

/// `cells` lists, in row-major order and once each, the legal moves of `s`.
pub open spec fn lists_legal(s: GameState, cells: Seq<(usize, usize)>) -> bool {
    &&& forall|k: int| 0 <= k < cells.len() ==> spec_is_legal(s, #[trigger] cells[k])
    &&& forall|k1: int, k2: int|
        0 <= k1 < k2 < cells.len() ==> Board::before(#[trigger] cells[k1], #[trigger] cells[k2])
    &&& forall|r: int, c: int|
        s.board.in_bounds(r, c) && spec_is_legal(s, (r as usize, c as usize))
            ==> #[trigger] cells.contains((r as usize, c as usize))
}

/// `mv` is an empty square where the side to move would make a forbidden
/// double-three.
pub open spec fn is_double_three_square(s: GameState, mv: (usize, usize)) -> bool {
    &&& s.board.in_bounds(mv.0 as int, mv.1 as int)
    &&& s.board.stone(mv.0 as int, mv.1 as int) is None
    &&& crate::rules::double_three::spec_double_three(s.board, mv.0 as int, mv.1 as int, s.current_player)
}

/// `cells` lists, in row-major order and once each, the double-three squares of `s`.
pub open spec fn lists_double_threes(s: GameState, cells: Seq<(usize, usize)>) -> bool {
    &&& forall|k: int| 0 <= k < cells.len() ==> is_double_three_square(s, #[trigger] cells[k])
    &&& forall|k1: int, k2: int|
        0 <= k1 < k2 < cells.len() ==> Board::before(#[trigger] cells[k1], #[trigger] cells[k2])
    &&& forall|r: int, c: int|
        s.board.in_bounds(r, c) && is_double_three_square(s, (r as usize, c as usize))
            ==> #[trigger] cells.contains((r as usize, c as usize))
}

/// Nothing remains to be played: a winner is declared, or there is no
/// candidate move (no move breaks the opponent's five when one must, or no
/// legal square on a non-empty board).
pub open spec fn spec_terminal(s: GameState) -> bool {
    ||| s.winner is Some
    ||| if spec_forced(s) {
        forall|m: (usize, usize)| !#[trigger] crate::rules::capture_breaking::is_breaking_move(
            s.board,
            s.check_position.unwrap().0 as int,
            s.check_position.unwrap().1 as int,
            s.player_in_check.unwrap(),
            m,
        )
    } else {
        !s.board.all_empty() && !crate::ai::move_generation::has_legal_move(s.board, s.current_player)
    }
}

#[derive(Clone, Copy, Debug, PartialEq, Eq, Hash, Structural)]
pub enum WinReason {
    Alignment,
    Captures,
}

#[derive(Clone, Debug, PartialEq, Eq, Hash)]
pub struct GameState {
    pub board: Board,
    pub current_player: Player,
    pub win_condition: usize,
    pub capture_to_win: usize,
    pub winner: Option<Player>,
    pub win_reason: Option<WinReason>,
    pub max_captures: usize,
    pub min_captures: usize,
    pub capture_history: Vec<Vec<(usize, usize)>>,
    pub move_history: Vec<(usize, usize)>,
    pub zobrist_hash: ZobristHash,
    pub current_hash: u64,
    pub player_in_check: Option<Player>,
    pub check_position: Option<(usize, usize)>,
}

impl GameState {
    /// Well-formed board, keys for every square, and a hash that matches the
    /// board and the side to move.
    pub open spec fn wf(self) -> bool {
        &&& self.board.wf()
        &&& self.zobrist_hash.wf()
        &&& self.zobrist_hash.size_spec() == self.board.size
        &&& self.current_hash == crate::zobrist::full_hash(
            self.zobrist_hash,
            self.board,
            self.current_player,
        )
        &&& self.check_position is Some ==> self.board.in_bounds(
            self.check_position.unwrap().0 as int,
            self.check_position.unwrap().1 as int,
        )
    }

    /// A new game on an empty `board_size` board, Max to move, five captured
    /// pairs to win by captures.
    pub fn new(board_size: usize, win_condition: usize) -> (s: GameState)
        requires
            crate::board::size_ok(board_size as int),
        ensures
            s.wf(),
            s.board.size == board_size,
            s.board.all_empty(),
            s.current_player == Player::Max,
            s.win_condition == win_condition,
            s.capture_to_win == 5,
            s.winner is None,
            s.win_reason is None,
            s.max_captures == 0,
            s.min_captures == 0,
            s.capture_history@.len() == 0,
            s.move_history@.len() == 0,
            s.player_in_check is None,
            s.check_position is None,
    {
        let zobrist_hash = ZobristHash::new(board_size);
        let board = Board::new(board_size);
        let mut state = GameState {
            board,
            current_player: Player::Max,
            win_condition,
            capture_to_win: 5,
            winner: None,
            win_reason: None,
            max_captures: 0,
            min_captures: 0,
            capture_history: Vec::new(),
            move_history: Vec::new(),
            zobrist_hash,
            current_hash: 0,
            player_in_check: None,
            check_position: None,
        };
        let h = state.zobrist_hash.compute_hash(&state);
        state.current_hash = h;
        state
    }

    /// Same as `new`.
    pub fn with_defaults(board_size: usize, win_condition: usize) -> (s: GameState)
        requires
            crate::board::size_ok(board_size as int),
        ensures
            s.wf(),
            s.board.size == board_size,
            s.board.all_empty(),
            s.current_player == Player::Max,
            s.win_condition == win_condition,
            s.capture_to_win == 5,
            s.winner is None,
            s.win_reason is None,
            s.max_captures == 0,
            s.min_captures == 0,
            s.capture_history@.len() == 0,
            s.move_history@.len() == 0,
            s.player_in_check is None,
            s.check_position is None,
    {
        Self::new(board_size, win_condition)
    }


    /// Removes the captured stones, credits the pairs to the side to move and
    /// records the capture list.
    fn execute_captures(&mut self, captures: Vec<(usize, usize)>)
        requires
            old(self).board.wf(),
            old(self).zobrist_hash.wf(),
            old(self).zobrist_hash.size_spec() == old(self).board.size,
            caps_held(old(self).board, captures@, old(self).current_player.other()),
            old(self).max_captures + captures@.len() / 2 <= usize::MAX,
            old(self).min_captures + captures@.len() / 2 <= usize::MAX,
        ensures
            final(self).board.wf(),
            final(self).board.size == old(self).board.size,
            forall|i: int|
                #[trigger] final(self).board.cell(i) == if crate::captures::removed_by(
                    old(self).board,
                    captures@,
                    captures@.len() as int,
                    i,
                ) {
                    None
                } else {
                    old(self).board.cell(i)
                },
            crate::zobrist::bits_hash(
                final(self).zobrist_hash,
                final(self).board,
                final(self).zobrist_hash.num_keys(),
            ) == crate::zobrist::caps_hash(
                old(self).zobrist_hash,
                crate::zobrist::bits_hash(
                    old(self).zobrist_hash,
                    old(self).board,
                    old(self).zobrist_hash.num_keys(),
                ),
                captures@,
                old(self).current_player.other(),
                captures@.len() as int,
            ),
            final(self).max_captures == old(self).max_captures + if old(self).current_player
                == Player::Max {
                captures@.len() / 2
            } else {
                0
            },
            final(self).min_captures == old(self).min_captures + if old(self).current_player
                == Player::Min {
                captures@.len() / 2
            } else {
                0
            },
            final(self).capture_history@ == old(self).capture_history@.push(captures),
            final(self).current_player == old(self).current_player,
            final(self).zobrist_hash == old(self).zobrist_hash,
            final(self).current_hash == old(self).current_hash,
            final(self).move_history == old(self).move_history,
            final(self).winner == old(self).winner,
            final(self).win_reason == old(self).win_reason,
            final(self).player_in_check == old(self).player_in_check,
            final(self).check_position == old(self).check_position,
            final(self).win_condition == old(self).win_condition,
            final(self).capture_to_win == old(self).capture_to_win,
    {
        let ghost s0 = *self;
        let ghost b0 = self.board;
        let ghost z = self.zobrist_hash;
        let ghost q = self.current_player.other();
        let ghost nk = self.zobrist_hash.num_keys();
        let ghost h0 = crate::zobrist::bits_hash(z, b0, nk);
        proof {
            b0.lemma_wf_facts();
        }
        if captures.len() == 0 {
            self.capture_history.push(captures);
            proof {
                assert forall|i: int| #[trigger] self.board.cell(i) == if crate::captures::removed_by(
                    b0,
                    captures@,
                    captures@.len() as int,
                    i,
                ) {
                    None
                } else {
                    b0.cell(i)
                } by {
                    assert(!crate::captures::removed_by(b0, captures@, 0, i));
                }
            }
            return;
        }
        let mut n: usize = 0;
        while n < captures.len()
            invariant
                self.board.wf(),
                b0.wf(),
                s0 == *old(self),
                self.current_player == s0.current_player,
                self.max_captures == s0.max_captures,
                self.min_captures == s0.min_captures,
                self.capture_history == s0.capture_history,
                self.move_history == s0.move_history,
                self.current_hash == s0.current_hash,
                self.winner == s0.winner,
                self.win_reason == s0.win_reason,
                self.player_in_check == s0.player_in_check,
                self.check_position == s0.check_position,
                self.win_condition == s0.win_condition,
                self.capture_to_win == s0.capture_to_win,
                q == s0.current_player.other(),
                self.board.size == b0.size,
                self.board.total_cells == b0.total_cells,
                self.board.u64_count == b0.u64_count,
                z == self.zobrist_hash,
                z.wf(),
                z.size_spec() == b0.size,
                nk == z.num_keys(),
                n <= captures@.len(),
                caps_held(b0, captures@, q),
                forall|i: int|
                    #[trigger] self.board.max_at(i) == (b0.max_at(i) && !crate::captures::removed_by(
                        b0,
                        captures@,
                        n as int,
                        i,
                    )),
                forall|i: int|
                    #[trigger] self.board.min_at(i) == (b0.min_at(i) && !crate::captures::removed_by(
                        b0,
                        captures@,
                        n as int,
                        i,
                    )),
                crate::zobrist::bits_hash(z, self.board, nk) == crate::zobrist::caps_hash(
                    z,
                    h0,
                    captures@,
                    q,
                    n as int,
                ),
            decreases captures@.len() - n,
        {
            let (row, col) = captures[n];
            let ghost cur = self.board;
            let ghost j = b0.idx(row as int, col as int);
            proof {
                b0.lemma_cell_index(row as int, col as int);
                b0.lemma_stone_occ(row as int, col as int);
                lemma_listed_distinct(b0, captures@, n as int);
                crate::zobrist::lemma_square_keys_cell(z, cur, j);
            }
            if row < self.board.size && col < self.board.size {
                self.board.remove_stone(row, col);
            }
            proof {
                let next = self.board;
                assert forall|i: int| #[trigger] next.max_at(i) == (b0.max_at(i)
                    && !crate::captures::removed_by(b0, captures@, n + 1, i)) by {
                    crate::captures::lemma_removed_by_step(b0, captures@, n as int, i);
                }
                assert forall|i: int| #[trigger] next.min_at(i) == (b0.min_at(i)
                    && !crate::captures::removed_by(b0, captures@, n + 1, i)) by {
                    crate::captures::lemma_removed_by_step(b0, captures@, n as int, i);
                }
                assert forall|i: int| 0 <= i < nk && i != j implies #[trigger] cur.max_at(i)
                    == next.max_at(i) && cur.min_at(i) == next.min_at(i) by {}
                crate::zobrist::lemma_bits_hash_one(z, cur, next, j, nk);
                crate::zobrist::lemma_square_keys_cell(z, next, j);
                assert(cur.cell(j) == Some(q));
                assert(next.cell(j) is None);
                crate::zobrist::lemma_xor_cancel(crate::zobrist::bits_hash(z, cur, nk) ^ z.key(j, q), 0);
            }
            n = n + 1;
        }
        let pairs_captured = captures.len() / 2;
        match self.current_player {
            Player::Max => self.max_captures = self.max_captures + pairs_captured,
            Player::Min => self.min_captures = self.min_captures + pairs_captured,
        }
        proof {
            assert forall|i: int| #[trigger] self.board.cell(i) == if crate::captures::removed_by(
                b0,
                captures@,
                captures@.len() as int,
                i,
            ) {
                None
            } else {
                b0.cell(i)
            } by {}
        }
        self.capture_history.push(captures);
    }


    /// Win checks after the side to move played `mv`: a capture win, then a
    /// line through `mv` (a breakable five puts the mover "in check" instead
    /// of winning), then whether an earlier check was broken or became a win.
    /// Returns whether the game was won.
    fn check_for_wins(&mut self, mv: (usize, usize)) -> (won: bool)
        requires
            old(self).board.wf(),
        ensures
            (final(self).winner, final(self).win_reason, final(self).player_in_check,
                final(self).check_position) == spec_after_wins(
                old(self).board,
                old(self).max_captures as int,
                old(self).min_captures as int,
                old(self).capture_to_win as int,
                old(self).win_condition as int,
                old(self).current_player,
                mv,
                old(self).winner,
                old(self).win_reason,
                old(self).player_in_check,
                old(self).check_position,
            ),
            final(self).board == old(self).board,
            final(self).current_player == old(self).current_player,
            final(self).max_captures == old(self).max_captures,
            final(self).min_captures == old(self).min_captures,
            final(self).capture_history == old(self).capture_history,
            final(self).move_history == old(self).move_history,
            final(self).zobrist_hash == old(self).zobrist_hash,
            final(self).current_hash == old(self).current_hash,
            final(self).win_condition == old(self).win_condition,
            final(self).capture_to_win == old(self).capture_to_win,
    {
        if let Some(winner) = self.check_capture_win() {
            self.winner = Some(winner);
            self.win_reason = Some(WinReason::Captures);
            self.player_in_check = None;
            self.check_position = None;
            return true;
        }
        let (has_win, is_breakable) = WinDetection::check_win_and_breakable(
            &self.board,
            mv.0,
            mv.1,
            self.win_condition,
        );
        if has_win {
            if is_breakable {
                self.player_in_check = Some(self.current_player);
                self.check_position = Some(mv);
                self.winner = None;
                self.win_reason = None;
                return false;
            } else {
                self.winner = Some(self.current_player);
                self.win_reason = Some(WinReason::Alignment);
                self.player_in_check = None;
                self.check_position = None;
                return true;
            }
        }
        if let Some(player_in_check) = self.player_in_check {
            if let Some(check_pos) = self.check_position {
                let (still_has_win, still_breakable) = WinDetection::check_win_and_breakable(
                    &self.board,
                    check_pos.0,
                    check_pos.1,
                    self.win_condition,
                );
                if !still_has_win {
                    self.player_in_check = None;
                    self.check_position = None;
                } else if !still_breakable {
                    self.winner = Some(player_in_check);
                    self.win_reason = Some(WinReason::Alignment);
                    self.player_in_check = None;
                    self.check_position = None;
                    return true;
                }
            }
        }
        false
    }

    fn switch_player(&mut self)
        ensures
            final(self).current_player == old(self).current_player.other(),
            final(self).board == old(self).board,
            final(self).winner == old(self).winner,
            final(self).win_reason == old(self).win_reason,
            final(self).player_in_check == old(self).player_in_check,
            final(self).check_position == old(self).check_position,
            final(self).max_captures == old(self).max_captures,
            final(self).min_captures == old(self).min_captures,
            final(self).capture_history == old(self).capture_history,
            final(self).move_history == old(self).move_history,
            final(self).zobrist_hash == old(self).zobrist_hash,
            final(self).current_hash == old(self).current_hash,
            final(self).win_condition == old(self).win_condition,
            final(self).capture_to_win == old(self).capture_to_win,
    {
        self.current_player = self.current_player.opponent();
    }

    /// The side to move plays `mv`: the stone is placed, flanked pairs are
    /// captured, the move is recorded, wins are checked and the turn passes.
    /// The hash is updated incrementally and stays equal to the hash of the
    /// new position.
    pub fn make_move(&mut self, mv: (usize, usize))
        requires
            old(self).wf(),
            old(self).board.in_bounds(mv.0 as int, mv.1 as int),
            old(self).board.stone(mv.0 as int, mv.1 as int) is None,
            old(self).max_captures + 8 <= usize::MAX,
            old(self).min_captures + 8 <= usize::MAX,
        ensures
            final(self).wf(),
            spec_made(*old(self), *final(self), mv),
    {
        let ghost s0 = *self;
        let ghost z = self.zobrist_hash;
        let ghost nk = z.num_keys();
        let ghost p = self.current_player;
        let ghost m = s0.board.idx(mv.0 as int, mv.1 as int);
        proof {
            s0.board.lemma_wf_facts();
            s0.board.lemma_cell_index(mv.0 as int, mv.1 as int);
            s0.board.lemma_stone_occ(mv.0 as int, mv.1 as int);
        }
        self.current_hash = self.zobrist_hash.update_hash_make_move(
            self.current_hash,
            mv.0,
            mv.1,
            self.current_player,
        );
        self.board.place_stone(mv.0, mv.1, self.current_player);
        let ghost b1 = self.board;
        let ghost h1 = self.current_hash;
        proof {
            assert forall|i: int| 0 <= i < nk && i != m implies #[trigger] s0.board.max_at(i)
                == b1.max_at(i) && s0.board.min_at(i) == b1.min_at(i) by {}
            crate::zobrist::lemma_bits_hash_one(z, s0.board, b1, m, nk);
            crate::zobrist::lemma_square_keys_cell(z, s0.board, m);
            crate::zobrist::lemma_square_keys_cell(z, b1, m);
            b1.lemma_stone_occ(mv.0 as int, mv.1 as int);
            let bh0 = crate::zobrist::bits_hash(z, s0.board, nk);
            crate::zobrist::lemma_xor_cancel(bh0, 0);
            crate::zobrist::lemma_xor_side(bh0, z.key(m, p), z.side_key());
            assert(crate::zobrist::bits_hash(z, b1, nk) == bh0 ^ z.key(m, p));
            assert(h1 == crate::zobrist::bits_hash(z, b1, nk) ^ if p == Player::Max {
                z.side_key()
            } else {
                0u64
            });
            crate::captures::lemma_capture_seq_frame(s0.board, b1, mv.0 as int, mv.1 as int, p, 8);
            crate::captures::lemma_captures_valid(b1, mv.0 as int, mv.1 as int, p);
        }
        let captures = CaptureHandler::detect_captures(&self.board, mv.0, mv.1, self.current_player);
        proof {
            assert forall|k: int| 0 <= k < captures@.len() implies #[trigger] captures@[k].0
                * z.size_spec() + captures@[k].1 < nk by {
                b1.lemma_cell_index(captures@[k].0 as int, captures@[k].1 as int);
            }
        }
        if captures.len() > 0 {
            let captured_player = self.current_player.opponent();
            self.current_hash = self.zobrist_hash.update_hash_capture(
                self.current_hash,
                captures.as_slice(),
                captured_player,
            );
        }
        let ghost caps = captures@;
        proof {
            assert(self.current_hash == crate::zobrist::caps_hash(z, h1, caps, p.other(), caps.len() as int));
        }
        self.execute_captures(captures);
        let ghost b2 = self.board;
        proof {
            let side = if p == Player::Max {
                z.side_key()
            } else {
                0u64
            };
            crate::zobrist::lemma_caps_hash_shift(
                z,
                crate::zobrist::bits_hash(z, b1, nk),
                side,
                caps,
                p.other(),
                caps.len() as int,
            );
            assert forall|i: int| #[trigger] b2.cell(i) == made_cell(s0.board, mv, p, caps, i) by {
                if i == m {
                    assert(!crate::captures::removed_by(b1, caps, caps.len() as int, i)) by {
                        if crate::captures::removed_by(b1, caps, caps.len() as int, i) {
                            let k = choose|k: int|
                                0 <= k < caps.len() && b1.idx(caps[k].0 as int, caps[k].1 as int) == i;
                            b1.lemma_stone_occ(caps[k].0 as int, caps[k].1 as int);
                            b1.lemma_cell_index(caps[k].0 as int, caps[k].1 as int);
                            crate::board::lemma_index_injective(
                                b1.size as int,
                                caps[k].0 as int,
                                caps[k].1 as int,
                                mv.0 as int,
                                mv.1 as int,
                            );
                        }
                    }
                } else {
                    if 0 <= i < s0.board.total_cells {
                        let rc = s0.board.lemma_cell_of_index(i);
                        assert(b1.stone(rc.0, rc.1) == s0.board.stone(rc.0, rc.1));
                    } else {
                        assert(!s0.board.occ_at(i));
                        assert(!b1.occ_at(i));
                    }
                }
            }
        }
        self.move_history.push(mv);
        self.check_for_wins(mv);
        self.switch_player();
    }


    /// Puts the stones of the last recorded capture list back for the side
    /// that lost them, takes the pairs off the capturer's count (when it has
    /// that many), and drops the list from the history.
    fn restore_captured_stones(&mut self)
        requires
            old(self).board.wf(),
            old(self).zobrist_hash.wf(),
            old(self).zobrist_hash.size_spec() == old(self).board.size,
            caps_free(old(self).board, last_captures(*old(self))),
        ensures
            final(self).board.wf(),
            final(self).board.size == old(self).board.size,
            forall|i: int|
                #[trigger] final(self).board.cell(i) == if crate::captures::removed_by(
                    old(self).board,
                    last_captures(*old(self)),
                    last_captures(*old(self)).len() as int,
                    i,
                ) {
                    Some(old(self).current_player.other())
                } else {
                    old(self).board.cell(i)
                },
            crate::zobrist::bits_hash(
                final(self).zobrist_hash,
                final(self).board,
                final(self).zobrist_hash.num_keys(),
            ) == crate::zobrist::caps_hash(
                old(self).zobrist_hash,
                crate::zobrist::bits_hash(
                    old(self).zobrist_hash,
                    old(self).board,
                    old(self).zobrist_hash.num_keys(),
                ),
                last_captures(*old(self)),
                old(self).current_player.other(),
                last_captures(*old(self)).len() as int,
            ),
            final(self).capture_history@ == if old(self).capture_history@.len() > 0 {
                old(self).capture_history@.drop_last()
            } else {
                old(self).capture_history@
            },
            final(self).max_captures == if old(self).current_player == Player::Max
                && old(self).max_captures >= last_captures(*old(self)).len() / 2 {
                old(self).max_captures - last_captures(*old(self)).len() / 2
            } else {
                old(self).max_captures as int
            },
            final(self).min_captures == if old(self).current_player == Player::Min
                && old(self).min_captures >= last_captures(*old(self)).len() / 2 {
                old(self).min_captures - last_captures(*old(self)).len() / 2
            } else {
                old(self).min_captures as int
            },
            final(self).current_player == old(self).current_player,
            final(self).zobrist_hash == old(self).zobrist_hash,
            final(self).current_hash == old(self).current_hash,
            final(self).move_history == old(self).move_history,
            final(self).winner == old(self).winner,
            final(self).win_reason == old(self).win_reason,
            final(self).player_in_check == old(self).player_in_check,
            final(self).check_position == old(self).check_position,
            final(self).win_condition == old(self).win_condition,
            final(self).capture_to_win == old(self).capture_to_win,
    {
        let ghost s0 = *self;
        let ghost b0 = self.board;
        let ghost z = self.zobrist_hash;
        let ghost nk = z.num_keys();
        let ghost caps = last_captures(s0);
        let ghost q = s0.current_player.other();
        let ghost h0 = crate::zobrist::bits_hash(z, b0, nk);
        proof {
            b0.lemma_wf_facts();
        }
        if let Some(last_captures) = self.capture_history.pop() {
            assert(last_captures@ == caps);
            if last_captures.len() > 0 {
                let opponent = self.current_player.opponent();
                let mut n: usize = 0;
                while n < last_captures.len()
                    invariant
                        self.board.wf(),
                        b0.wf(),
                        s0 == *old(self),
                        last_captures@ == caps,
                        opponent == q,
                        self.current_player == s0.current_player,
                        self.max_captures == s0.max_captures,
                        self.min_captures == s0.min_captures,
                        self.capture_history@ == s0.capture_history@.drop_last(),
                        self.move_history == s0.move_history,
                        self.current_hash == s0.current_hash,
                        self.winner == s0.winner,
                        self.win_reason == s0.win_reason,
                        self.player_in_check == s0.player_in_check,
                        self.check_position == s0.check_position,
                        self.win_condition == s0.win_condition,
                        self.capture_to_win == s0.capture_to_win,
                        self.board.size == b0.size,
                        self.board.total_cells == b0.total_cells,
                        self.board.u64_count == b0.u64_count,
                        z == self.zobrist_hash,
                        z.wf(),
                        z.size_spec() == b0.size,
                        nk == z.num_keys(),
                        n <= caps.len(),
                        caps_free(b0, caps),
                        forall|i: int|
                            #[trigger] self.board.max_at(i) == (b0.max_at(i) || (
                            crate::captures::removed_by(b0, caps, n as int, i) && q == Player::Max)),
                        forall|i: int|
                            #[trigger] self.board.min_at(i) == (b0.min_at(i) || (
                            crate::captures::removed_by(b0, caps, n as int, i) && q == Player::Min)),
                        crate::zobrist::bits_hash(z, self.board, nk) == crate::zobrist::caps_hash(
                            z,
                            h0,
                            caps,
                            q,
                            n as int,
                        ),
                    decreases caps.len() - n,
                {
                    let (row, col) = last_captures[n];
                    let ghost cur = self.board;
                    let ghost j = b0.idx(row as int, col as int);
                    proof {
                        b0.lemma_cell_index(row as int, col as int);
                        b0.lemma_stone_occ(row as int, col as int);
                        lemma_listed_distinct(b0, caps, n as int);
                        crate::zobrist::lemma_square_keys_cell(z, cur, j);
                        assert(!cur.max_at(j) && !cur.min_at(j));
                        assert(cur.stone(row as int, col as int) is None);
                    }
                    if row < self.board.size && col < self.board.size {
                        self.board.place_stone(row, col, opponent);
                    }
                    proof {
                        let next = self.board;
                        assert forall|i: int| #[trigger] next.max_at(i) == (b0.max_at(i) || (
                        crate::captures::removed_by(b0, caps, n + 1, i) && q == Player::Max)) by {
                            crate::captures::lemma_removed_by_step(b0, caps, n as int, i);
                        }
                        assert forall|i: int| #[trigger] next.min_at(i) == (b0.min_at(i) || (
                        crate::captures::removed_by(b0, caps, n + 1, i) && q == Player::Min)) by {
                            crate::captures::lemma_removed_by_step(b0, caps, n as int, i);
                        }
                        assert forall|i: int| 0 <= i < nk && i != j implies #[trigger] cur.max_at(
                            i,
                        ) == next.max_at(i) && cur.min_at(i) == next.min_at(i) by {}
                        crate::zobrist::lemma_bits_hash_one(z, cur, next, j, nk);
                        crate::zobrist::lemma_square_keys_cell(z, next, j);
                        next.lemma_stone_occ(row as int, col as int);
                        assert(next.cell(j) == Some(q));
                        crate::zobrist::lemma_xor_cancel(crate::zobrist::bits_hash(z, cur, nk), 0);
                    }
                    n = n + 1;
                }
                let pairs_captured = last_captures.len() / 2;
                match self.current_player {
                    Player::Max => {
                        if self.max_captures >= pairs_captured {
                            self.max_captures = self.max_captures - pairs_captured;
                        }
                    },
                    Player::Min => {
                        if self.min_captures >= pairs_captured {
                            self.min_captures = self.min_captures - pairs_captured;
                        }
                    },
                }
                proof {
                    assert forall|i: int| #[trigger] self.board.cell(i) == if crate::captures::removed_by(
                        b0,
                        caps,
                        caps.len() as int,
                        i,
                    ) {
                        Some(q)
                    } else {
                        b0.cell(i)
                    } by {
                        if crate::captures::removed_by(b0, caps, caps.len() as int, i) {
                            let k = choose|k: int|
                                0 <= k < caps.len() && b0.idx(caps[k].0 as int, caps[k].1 as int)
                                    == i;
                            b0.lemma_stone_occ(caps[k].0 as int, caps[k].1 as int);
                        }
                    }
                }
                return;
            }
        }
        proof {
            assert(caps.len() == 0);
            assert forall|i: int| #[trigger] self.board.cell(i) == if crate::captures::removed_by(
                b0,
                caps,
                caps.len() as int,
                i,
            ) {
                Some(q)
            } else {
                b0.cell(i)
            } by {}
        }
    }

    /// Clears the check, then looks, in row-major order, for a stone of the
    /// side that just moved belonging to a breakable winning line; the first
    /// one found becomes the check square.
    fn recalculate_check_state(&mut self)
        requires
            old(self).board.wf(),
        ensures
            final(self).check_position == scan_check(
                old(self).board,
                old(self).current_player.other(),
                old(self).win_condition as int,
                0,
                0,
            ),
            final(self).player_in_check == if final(self).check_position is Some {
                Some(old(self).current_player.other())
            } else {
                None
            },
            final(self).board == old(self).board,
            final(self).current_player == old(self).current_player,
            final(self).max_captures == old(self).max_captures,
            final(self).min_captures == old(self).min_captures,
            final(self).capture_history == old(self).capture_history,
            final(self).move_history == old(self).move_history,
            final(self).zobrist_hash == old(self).zobrist_hash,
            final(self).current_hash == old(self).current_hash,
            final(self).winner == old(self).winner,
            final(self).win_reason == old(self).win_reason,
            final(self).win_condition == old(self).win_condition,
            final(self).capture_to_win == old(self).capture_to_win,
    {
        self.player_in_check = None;
        self.check_position = None;
        let opponent = self.current_player.opponent();
        let ghost b = self.board;
        let ghost win = self.win_condition as int;
        let ghost target = scan_check(b, opponent, win, 0, 0);
        let size = self.board.size;
        let mut x: usize = 0;
        while x < size
            invariant
                self.board.wf(),
                self.board == b,
                size == b.size,
                win == self.win_condition,
                opponent == old(self).current_player.other(),
                self.board == old(self).board,
                self.current_player == old(self).current_player,
                self.max_captures == old(self).max_captures,
                self.min_captures == old(self).min_captures,
                self.capture_history == old(self).capture_history,
                self.move_history == old(self).move_history,
                self.zobrist_hash == old(self).zobrist_hash,
                self.current_hash == old(self).current_hash,
                self.winner == old(self).winner,
                self.win_reason == old(self).win_reason,
                self.win_condition == old(self).win_condition,
                self.capture_to_win == old(self).capture_to_win,
                self.player_in_check is None,
                self.check_position is None,
                x <= size,
                target == scan_check(b, opponent, win, 0, 0),
                target == scan_check(b, opponent, win, x as int, 0),
            decreases size - x,
        {
            let mut y: usize = 0;
            while y < size
                invariant
                    self.board.wf(),
                    self.board == b,
                    size == b.size,
                    win == self.win_condition,
                    opponent == old(self).current_player.other(),
                    self.board == old(self).board,
                    self.current_player == old(self).current_player,
                    self.max_captures == old(self).max_captures,
                    self.min_captures == old(self).min_captures,
                    self.capture_history == old(self).capture_history,
                    self.move_history == old(self).move_history,
                    self.zobrist_hash == old(self).zobrist_hash,
                    self.current_hash == old(self).current_hash,
                    self.winner == old(self).winner,
                    self.win_reason == old(self).win_reason,
                    self.win_condition == old(self).win_condition,
                    self.capture_to_win == old(self).capture_to_win,
                    self.player_in_check is None,
                    self.check_position is None,
                    x < size,
                    y <= size,
                    target == scan_check(b, opponent, win, 0, 0),
                    target == scan_check(b, opponent, win, x as int, y as int),
                decreases size - y,
            {
                let here = match self.board.get_player(x, y) {
                    Some(pl) => pl == opponent,
                    None => false,
                };
                if here {
                    let (has_win, is_breakable) = WinDetection::check_win_and_breakable(
                        &self.board,
                        x,
                        y,
                        self.win_condition,
                    );
                    if has_win && is_breakable {
                        assert(check_at(b, opponent, win, x as int, y as int));
                        assert(scan_check(b, opponent, win, x as int, y as int) == Some((x, y)));
                        self.player_in_check = Some(opponent);
                        self.check_position = Some((x, y));
                        return;
                    }
                }
                y = y + 1;
            }
            x = x + 1;
        }
    }

    /// Takes back `move_`, the last move of the side that just moved: the
    /// captured stones come back, the stone is removed, the turn returns to
    /// that side, the winner is cleared, the histories drop their last
    /// entries, and the check is looked for again on the whole board.
    pub fn undo_move(&mut self, move_: (usize, usize))
        requires
            undo_ready(*old(self), move_),
        ensures
            final(self).wf(),
            spec_undone(*old(self), *final(self), move_),
    {
        let ghost s0 = *self;
        let ghost z = self.zobrist_hash;
        let ghost nk = z.num_keys();
        let ghost caps = last_captures(s0);
        let ghost q = s0.current_player;
        let ghost m = s0.board.idx(move_.0 as int, move_.1 as int);
        let move_player = self.current_player.opponent();
        proof {
            s0.board.lemma_wf_facts();
            s0.board.lemma_cell_index(move_.0 as int, move_.1 as int);
            s0.board.lemma_stone_occ(move_.0 as int, move_.1 as int);
            assert forall|k: int| 0 <= k < caps.len() implies #[trigger] caps[k].0 * z.size_spec()
                + caps[k].1 < nk by {
                s0.board.lemma_cell_index(caps[k].0 as int, caps[k].1 as int);
            }
        }
        let nh = self.capture_history.len();
        if nh > 0 {
            if self.capture_history[nh - 1].len() > 0 {
                let captured_player = move_player.opponent();
                self.current_hash = self.zobrist_hash.update_hash_capture(
                    self.current_hash,
                    self.capture_history[nh - 1].as_slice(),
                    captured_player,
                );
            }
        }
        let ghost h1 = self.current_hash;
        proof {
            assert(h1 == crate::zobrist::caps_hash(z, s0.current_hash, caps, q, caps.len() as int));
        }
        self.board.remove_stone(move_.0, move_.1);
        let ghost b1 = self.board;
        proof {
            assert forall|i: int| 0 <= i < nk && i != m implies #[trigger] s0.board.max_at(i)
                == b1.max_at(i) && s0.board.min_at(i) == b1.min_at(i) by {}
            crate::zobrist::lemma_bits_hash_one(z, s0.board, b1, m, nk);
            crate::zobrist::lemma_square_keys_cell(z, s0.board, m);
            crate::zobrist::lemma_square_keys_cell(z, b1, m);
            let bh0 = crate::zobrist::bits_hash(z, s0.board, nk);
            crate::zobrist::lemma_xor_cancel(bh0 ^ z.key(m, move_player), 0);
            assert(crate::zobrist::bits_hash(z, b1, nk) == bh0 ^ z.key(m, move_player));
            assert forall|k: int| 0 <= k < caps.len() implies b1.in_bounds(
                #[trigger] caps[k].0 as int,
                caps[k].1 as int,
            ) && b1.stone(caps[k].0 as int, caps[k].1 as int) is None by {
                assert(s0.board.stone(caps[k].0 as int, caps[k].1 as int) is None);
            }
        }
        self.current_hash = self.zobrist_hash.update_hash_undo_move(
            self.current_hash,
            move_.0,
            move_.1,
            move_player,
        );
        self.current_player = move_player;
        self.winner = None;
        let nm = self.move_history.len();
        if nm > 0 {
            let last_move = self.move_history[nm - 1];
            if last_move.0 == move_.0 && last_move.1 == move_.1 {
                self.move_history.pop();
            }
        }
        proof {
            assert(last_captures(*self) == caps);
        }
        self.restore_captured_stones();
        let ghost b2 = self.board;
        proof {
            let bh0 = crate::zobrist::bits_hash(z, s0.board, nk);
            let side_q = if q == Player::Min {
                z.side_key()
            } else {
                0u64
            };
            crate::zobrist::lemma_caps_hash_shift(z, bh0, side_q, caps, q, caps.len() as int);
            crate::zobrist::lemma_caps_hash_shift(
                z,
                bh0,
                z.key(m, move_player),
                caps,
                q,
                caps.len() as int,
            );
            let cc = crate::zobrist::caps_hash(z, bh0, caps, q, caps.len() as int);
            crate::zobrist::lemma_xor_side(cc, z.key(m, move_player), z.side_key());
            assert forall|i: int| #[trigger] b2.cell(i) == undone_cell(s0.board, move_, caps, q, i) by {
                lemma_removed_by_size(s0.board, b1, caps, caps.len() as int, i);
            }
        }
        self.recalculate_check_state();
        proof {
            lemma_scan_check_in_bounds(b2, q, s0.win_condition as int, 0, 0);
        }
    }


    /// The capture moves that break the opponent's five, when a capture is
    /// forced; `None` otherwise.
    fn forced_moves(&self) -> (r: Option<Vec<(usize, usize)>>)
        requires
            self.wf(),
        ensures
            r is Some <==> spec_forced(*self),
            r is Some ==> crate::rules::capture_breaking::sorted_unique(r.unwrap()@),
            r is Some ==> forall|m: (usize, usize)| #[trigger] r.unwrap()@.contains(m)
                <==> crate::rules::capture_breaking::is_breaking_move(
                self.board,
                self.check_position.unwrap().0 as int,
                self.check_position.unwrap().1 as int,
                self.player_in_check.unwrap(),
                m,
            ),
    {
        if let Some(player_in_check) = self.player_in_check {
            if player_in_check != self.current_player {
                if let Some(check_pos) = self.check_position {
                    let breaking_moves = CaptureBreaking::get_breaking_capture_moves(
                        &self.board,
                        check_pos.0,
                        check_pos.1,
                        player_in_check,
                    );
                    return Some(breaking_moves);
                }
            }
        }
        None
    }

    /// Whether `mv` is a legal move for the side to move.
    pub fn is_move_legal(&self, mv: (usize, usize)) -> (b: bool)
        requires
            self.wf(),
        ensures
            b == spec_is_legal(*self, mv),
    {
        if mv.0 >= self.board.size || mv.1 >= self.board.size {
            return false;
        }
        if !self.board.is_empty_position(mv.0, mv.1) {
            return false;
        }
        proof {
            self.board.lemma_wf_facts();
        }
        if DoubleThreeDetection::creates_double_three(&self.board, mv.0, mv.1, self.current_player) {
            return false;
        }
        if let Some(breaking_moves) = self.forced_moves() {
            if breaking_moves.len() > 0 {
                let mut i: usize = 0;
                while i < breaking_moves.len()
                    invariant
                        i <= breaking_moves@.len(),
                        forall|k: int| 0 <= k < i ==> #[trigger] breaking_moves@[k] != mv,
                        spec_forced(*self),
                        self.board.in_bounds(mv.0 as int, mv.1 as int),
                        self.board.stone(mv.0 as int, mv.1 as int) is None,
                        !crate::rules::double_three::spec_double_three(
                            self.board,
                            mv.0 as int,
                            mv.1 as int,
                            self.current_player,
                        ),
                        forall|m: (usize, usize)| #[trigger] breaking_moves@.contains(m)
                            <==> crate::rules::capture_breaking::is_breaking_move(
                            self.board,
                            self.check_position.unwrap().0 as int,
                            self.check_position.unwrap().1 as int,
                            self.player_in_check.unwrap(),
                            m,
                        ),
                    decreases breaking_moves@.len() - i,
                {
                    let m = breaking_moves[i];
                    if m.0 == mv.0 && m.1 == mv.1 {
                        assert(breaking_moves@.contains(mv)) by {
                            assert(breaking_moves@[i as int] == mv);
                        }
                        return true;
                    }
                    i = i + 1;
                }
                assert(!breaking_moves@.contains(mv));
                return false;
            } else {
                assert(!breaking_moves@.contains(mv));
                return false;
            }
        }
        true
    }

    /// The legal moves: when a capture is forced, exactly the moves that
    /// break the five (sorted, without duplicates); otherwise every legal
    /// square in row-major order.
    pub fn get_legal_moves(&self) -> (moves: Vec<(usize, usize)>)
        requires
            self.wf(),
        ensures
            spec_forced(*self) ==> crate::rules::capture_breaking::sorted_unique(moves@),
            spec_forced(*self) ==> forall|m: (usize, usize)| #[trigger] moves@.contains(m)
                <==> crate::rules::capture_breaking::is_breaking_move(
                self.board,
                self.check_position.unwrap().0 as int,
                self.check_position.unwrap().1 as int,
                self.player_in_check.unwrap(),
                m,
            ),
            !spec_forced(*self) ==> lists_legal(*self, moves@),
    {
        if let Some(breaking_moves) = self.forced_moves() {
            return breaking_moves;
        }
        let mut legal_moves: Vec<(usize, usize)> = Vec::new();
        let size = self.board.size;
        let mut row: usize = 0;
        while row < size
            invariant
                self.wf(),
                !spec_forced(*self),
                size == self.board.size,
                row <= size,
                forall|k: int|
                    0 <= k < legal_moves@.len() ==> spec_is_legal(*self, #[trigger] legal_moves@[k])
                        && legal_moves@[k].0 < row,
                forall|k1: int, k2: int|
                    0 <= k1 < k2 < legal_moves@.len() ==> Board::before(
                        #[trigger] legal_moves@[k1],
                        #[trigger] legal_moves@[k2],
                    ),
                forall|r2: int, c2: int|
                    0 <= r2 < row && 0 <= c2 < size && spec_is_legal(*self, (r2 as usize, c2 as usize))
                        ==> #[trigger] legal_moves@.contains((r2 as usize, c2 as usize)),
            decreases size - row,
        {
            let mut col: usize = 0;
            while col < size
                invariant
                    self.wf(),
                    !spec_forced(*self),
                    size == self.board.size,
                    row < size,
                    col <= size,
                    forall|k: int|
                        0 <= k < legal_moves@.len() ==> spec_is_legal(*self, #[trigger] legal_moves@[k])
                            && Board::before(legal_moves@[k], (row, col)),
                    forall|k1: int, k2: int|
                        0 <= k1 < k2 < legal_moves@.len() ==> Board::before(
                            #[trigger] legal_moves@[k1],
                            #[trigger] legal_moves@[k2],
                        ),
                    forall|r2: int, c2: int|
                        (0 <= r2 < row && 0 <= c2 < size || r2 == row && 0 <= c2 < col)
                            && spec_is_legal(*self, (r2 as usize, c2 as usize))
                            ==> #[trigger] legal_moves@.contains((r2 as usize, c2 as usize)),
                decreases size - col,
            {
                if self.is_move_legal((row, col)) {
                    let ghost old_moves = legal_moves@;
                    legal_moves.push((row, col));
                    proof {
                        assert(legal_moves@[old_moves.len() as int] == (row, col));
                        assert forall|r2: int, c2: int|
                            (0 <= r2 < row && 0 <= c2 < size || r2 == row && 0 <= c2 < col + 1)
                                && spec_is_legal(*self, (r2 as usize, c2 as usize)) implies #[trigger] legal_moves@.contains(
                            (r2 as usize, c2 as usize),
                        ) by {
                            if r2 == row && c2 == col {
                                assert(legal_moves@[old_moves.len() as int] == (r2 as usize, c2 as usize));
                            } else {
                                assert(old_moves.contains((r2 as usize, c2 as usize)));
                                let k = choose|k: int|
                                    0 <= k < old_moves.len() && old_moves[k] == (
                                        r2 as usize,
                                        c2 as usize,
                                    );
                                assert(legal_moves@[k] == (r2 as usize, c2 as usize));
                            }
                        }
                    }
                }
                col = col + 1;
            }
            row = row + 1;
        }
        legal_moves
    }


    /// The empty squares where the side to move would make a forbidden
    /// double-three, in row-major order.
    pub fn get_double_three_positions(&self) -> (cells: Vec<(usize, usize)>)
        requires
            self.wf(),
        ensures
            lists_double_threes(*self, cells@),
    {
        proof {
            self.board.lemma_wf_facts();
        }
        let mut positions: Vec<(usize, usize)> = Vec::new();
        let size = self.board.size;
        let mut row: usize = 0;
        while row < size
            invariant
                self.wf(),
                size == self.board.size,
                8 * self.board.size < isize::MAX,
                row <= size,
                forall|k: int|
                    0 <= k < positions@.len() ==> is_double_three_square(*self, #[trigger] positions@[k])
                        && positions@[k].0 < row,
                forall|k1: int, k2: int|
                    0 <= k1 < k2 < positions@.len() ==> Board::before(
                        #[trigger] positions@[k1],
                        #[trigger] positions@[k2],
                    ),
                forall|r2: int, c2: int|
                    0 <= r2 < row && 0 <= c2 < size && is_double_three_square(*self, (r2 as usize, c2 as usize))
                        ==> #[trigger] positions@.contains((r2 as usize, c2 as usize)),
            decreases size - row,
        {
            let mut col: usize = 0;
            while col < size
                invariant
                    self.wf(),
                    size == self.board.size,
                    8 * self.board.size < isize::MAX,
                    row < size,
                    col <= size,
                    forall|k: int|
                        0 <= k < positions@.len() ==> is_double_three_square(*self, #[trigger] positions@[k])
                            && Board::before(positions@[k], (row, col)),
                    forall|k1: int, k2: int|
                        0 <= k1 < k2 < positions@.len() ==> Board::before(
                            #[trigger] positions@[k1],
                            #[trigger] positions@[k2],
                        ),
                    forall|r2: int, c2: int|
                        (0 <= r2 < row && 0 <= c2 < size || r2 == row && 0 <= c2 < col)
                            && is_double_three_square(*self, (r2 as usize, c2 as usize))
                            ==> #[trigger] positions@.contains((r2 as usize, c2 as usize)),
                decreases size - col,
            {
                if self.board.is_empty_position(row, col) && DoubleThreeDetection::creates_double_three(
                    &self.board,
                    row,
                    col,
                    self.current_player,
                ) {
                    let ghost old_positions = positions@;
                    positions.push((row, col));
                    proof {
                        assert(positions@[old_positions.len() as int] == (row, col));
                        assert forall|r2: int, c2: int|
                            (0 <= r2 < row && 0 <= c2 < size || r2 == row && 0 <= c2 < col + 1)
                                && is_double_three_square(*self, (r2 as usize, c2 as usize)) implies #[trigger] positions@.contains(
                            (r2 as usize, c2 as usize),
                        ) by {
                            if r2 == row && c2 == col {
                                assert(positions@[old_positions.len() as int] == (r2 as usize, c2 as usize));
                            } else {
                                assert(old_positions.contains((r2 as usize, c2 as usize)));
                                let k = choose|k: int|
                                    0 <= k < old_positions.len() && old_positions[k] == (
                                        r2 as usize,
                                        c2 as usize,
                                    );
                                assert(positions@[k] == (r2 as usize, c2 as usize));
                            }
                        }
                    }
                }
                col = col + 1;
            }
            row = row + 1;
        }
        positions
    }

    /// The moves the search considers: when a capture is forced, the moves
    /// that break the five; otherwise the move generator's candidates.
    /// Every candidate is an empty square of the board.
    pub fn get_candidate_moves(&self) -> (moves: Vec<(usize, usize)>)
        requires
            self.wf(),
        ensures
            spec_forced(*self) ==> crate::rules::capture_breaking::sorted_unique(moves@),
            spec_forced(*self) ==> forall|m: (usize, usize)| #[trigger] moves@.contains(m)
                <==> crate::rules::capture_breaking::is_breaking_move(
                self.board,
                self.check_position.unwrap().0 as int,
                self.check_position.unwrap().1 as int,
                self.player_in_check.unwrap(),
                m,
            ),
            !spec_forced(*self) && self.board.all_empty() ==> moves@ == seq![
                ((self.board.size / 2) as usize, (self.board.size / 2) as usize),
            ],
            !spec_forced(*self) && !self.board.all_empty() ==> forall|i: int|
                0 <= i < moves@.len() ==> crate::ai::move_generation::legal_for(
                    self.board,
                    self.current_player,
                    #[trigger] moves@[i],
                ),
            !spec_forced(*self) && !self.board.all_empty() ==> crate::ai::move_generation::moves_ok(
                self.board,
                moves@,
            ),
            !spec_forced(*self) && !self.board.all_empty() && crate::ai::move_generation::pool_has_legal(
                self.board,
                self.current_player,
            ) ==> forall|mv: (usize, usize)| #[trigger] moves@.contains(mv)
                <==> crate::ai::move_generation::candidate_pool(self.board, self.current_player, mv)
                && crate::ai::move_generation::legal_for(self.board, self.current_player, mv),
            !spec_forced(*self) && !self.board.all_empty() && crate::ai::move_generation::pool_has_legal(
                self.board,
                self.current_player,
            ) && crate::ai::move_generation::has_threats(self.board, self.current_player) ==> forall|
                i: int,
                j: int,
            |
                0 <= i < j < moves@.len() ==> crate::ai::move_generation::threat_scores(
                    self.board,
                    self.current_player,
                )[#[trigger] moves@[i]] >= crate::ai::move_generation::threat_scores(
                    self.board,
                    self.current_player,
                )[#[trigger] moves@[j]],
            !spec_forced(*self) && !self.board.all_empty() && !crate::ai::move_generation::pool_has_legal(
                self.board,
                self.current_player,
            ) ==> moves@.len() <= 1,
            self.board.size > 0 ==> forall|i: int|
                0 <= i < moves@.len() ==> crate::patterns::valid_empty(
                    self.board,
                    (#[trigger] moves@[i]).0 as int,
                    moves@[i].1 as int,
                ),
            moves@.len() == 0 <==> (if spec_forced(*self) {
                forall|m: (usize, usize)| !#[trigger] crate::rules::capture_breaking::is_breaking_move(
                    self.board,
                    self.check_position.unwrap().0 as int,
                    self.check_position.unwrap().1 as int,
                    self.player_in_check.unwrap(),
                    m,
                )
            } else {
                !self.board.all_empty() && !crate::ai::move_generation::has_legal_move(
                    self.board,
                    self.current_player,
                )
            }),
    {
        if let Some(breaking_moves) = self.forced_moves() {
            proof {
                let cp = self.check_position.unwrap();
                let q = self.player_in_check.unwrap();
                assert forall|i: int| 0 <= i < breaking_moves@.len() implies crate::patterns::valid_empty(
                    self.board,
                    (#[trigger] breaking_moves@[i]).0 as int,
                    breaking_moves@[i].1 as int,
                ) by {
                    assert(breaking_moves@.contains(breaking_moves@[i]));
                    crate::rules::capture_breaking::lemma_breaking_move_empty(
                        self.board,
                        cp.0 as int,
                        cp.1 as int,
                        q,
                        breaking_moves@[i],
                    );
                }
                if breaking_moves@.len() > 0 {
                    assert(breaking_moves@.contains(breaking_moves@[0]));
                } else {
                    assert forall|m: (usize, usize)| !#[trigger] crate::rules::capture_breaking::is_breaking_move(
                        self.board,
                        cp.0 as int,
                        cp.1 as int,
                        q,
                        m,
                    ) by {
                        assert(!breaking_moves@.contains(m));
                    }
                }
            }
            return breaking_moves;
        }
        let moves = MoveGenerator::get_candidate_moves(&self.board, self.current_player);
        proof {
            if self.board.all_empty() && self.board.size > 0 {
                let c = (self.board.size / 2) as int;
                self.board.lemma_stone_occ(c, c);
                assert(moves@[0] == (c as usize, c as usize));
            }
        }
        moves
    }

    /// Whether the game is over: a winner, or no candidate move.
    pub fn is_terminal(&self) -> (b: bool)
        requires
            self.wf(),
        ensures
            b == spec_terminal(*self),
    {
        if self.winner.is_some() {
            return true;
        }
        let moves = self.get_candidate_moves();
        moves.len() == 0
    }

    pub fn check_winner(&self) -> (w: Option<Player>)
        ensures
            w == self.winner,
    {
        self.winner
    }

    pub fn hash(&self) -> (h: u64)
        ensures
            h == self.current_hash,
    {
        self.current_hash
    }

    /// The winner by captured pairs, if either side reached `capture_to_win`.
    pub fn check_capture_win(&self) -> (w: Option<Player>)
        ensures
            w == crate::rules::win_detection::spec_capture_win(
                self.max_captures as int,
                self.min_captures as int,
                self.capture_to_win as int,
            ),
    {
        WinDetection::check_capture_win(self.max_captures, self.min_captures, self.capture_to_win)
    }
}

} // verus!

verus! {

/// A legal move (onto an empty square of a well-formed state) can always be
/// taken back: the state it leads to is ready for `undo_move` of that move.
pub proof fn lemma_move_is_undoable(s: GameState, t: GameState, mv: (usize, usize))
    requires
        s.wf(),
        s.board.in_bounds(mv.0 as int, mv.1 as int),
        s.board.stone(mv.0 as int, mv.1 as int) is None,
        spec_made(s, t, mv),
        t.wf(),
    ensures
        undo_ready(t, mv),
{
    let p = s.current_player;
    let caps = crate::captures::spec_captures(s.board, mv.0 as int, mv.1 as int, p);
    let m = s.board.idx(mv.0 as int, mv.1 as int);
    crate::captures::lemma_captures_valid(s.board, mv.0 as int, mv.1 as int, p);
    s.board.lemma_cell_index(mv.0 as int, mv.1 as int);
    s.board.lemma_stone_occ(mv.0 as int, mv.1 as int);
    assert(last_captures(t) == caps);
    assert(t.board.stone(mv.0 as int, mv.1 as int) == Some(p));
    assert forall|k: int| 0 <= k < caps.len() implies t.board.in_bounds(
        #[trigger] caps[k].0 as int,
        caps[k].1 as int,
    ) && t.board.stone(caps[k].0 as int, caps[k].1 as int) is None by {
        let i = s.board.idx(caps[k].0 as int, caps[k].1 as int);
        s.board.lemma_stone_occ(caps[k].0 as int, caps[k].1 as int);
        assert(crate::captures::removed_by(s.board, caps, caps.len() as int, i));
        assert(i != m);
    }
}

/// Taking back a move restores the position it was played in: the same
/// stones on every square, the same side to move, capture counts, hash,
/// capture history and move history, and no winner.
pub proof fn lemma_undo_restores(s: GameState, t: GameState, u: GameState, mv: (usize, usize))
    requires
        s.wf(),
        s.board.in_bounds(mv.0 as int, mv.1 as int),
        s.board.stone(mv.0 as int, mv.1 as int) is None,
        spec_made(s, t, mv),
        t.wf(),
        spec_undone(t, u, mv),
        u.wf(),
    ensures
        u.board.size == s.board.size,
        forall|r: int, c: int| #[trigger] u.board.stone(r, c) == s.board.stone(r, c),
        u.current_player == s.current_player,
        u.max_captures == s.max_captures,
        u.min_captures == s.min_captures,
        u.current_hash == s.current_hash,
        u.capture_history@ == s.capture_history@,
        u.move_history@ == s.move_history@,
        u.winner is None,
        u.zobrist_hash == s.zobrist_hash,
        u.win_condition == s.win_condition,
        u.capture_to_win == s.capture_to_win,
{
    let p = s.current_player;
    let caps = crate::captures::spec_captures(s.board, mv.0 as int, mv.1 as int, p);
    let m = s.board.idx(mv.0 as int, mv.1 as int);
    let z = s.zobrist_hash;
    let nk = z.num_keys();
    crate::captures::lemma_captures_valid(s.board, mv.0 as int, mv.1 as int, p);
    s.board.lemma_cell_index(mv.0 as int, mv.1 as int);
    s.board.lemma_stone_occ(mv.0 as int, mv.1 as int);
    assert(last_captures(t) == caps);
    assert forall|i: int| #[trigger] u.board.cell(i) == s.board.cell(i) by {
        lemma_removed_by_size(t.board, s.board, caps, caps.len() as int, i);
        if crate::captures::removed_by(s.board, caps, caps.len() as int, i) {
            let k = choose|k: int|
                0 <= k < caps.len() && s.board.idx(caps[k].0 as int, caps[k].1 as int) == i;
            s.board.lemma_stone_occ(caps[k].0 as int, caps[k].1 as int);
        }
    }
    assert forall|r: int, c: int| #[trigger] u.board.stone(r, c) == s.board.stone(r, c) by {
        if s.board.in_bounds(r, c) {
            assert(u.board.cell(s.board.idx(r, c)) == s.board.cell(s.board.idx(r, c)));
        }
    }
    assert forall|i: int| 0 <= i < nk && i != -1 implies #[trigger] s.board.max_at(i)
        == u.board.max_at(i) && s.board.min_at(i) == u.board.min_at(i) by {
        assert(u.board.cell(i) == s.board.cell(i));
        assert(!(s.board.max_at(i) && s.board.min_at(i)));
        assert(!(u.board.max_at(i) && u.board.min_at(i)));
    }
    crate::zobrist::lemma_bits_hash_one(z, s.board, u.board, -1, nk);
    assert(u.capture_history@ =~= s.capture_history@);
    assert(u.move_history@ =~= s.move_history@);
}

/// `a` and `b` hold the same position: the same stones, side to move,
/// capture counts, histories, hash, key table, rules and winner. (The check
/// square and the win reason may differ.)
pub open spec fn same_position(a: GameState, b: GameState) -> bool {
    &&& a.board.size == b.board.size
    &&& forall|i: int| #[trigger] a.board.cell(i) == b.board.cell(i)
    &&& a.current_player == b.current_player
    &&& a.max_captures == b.max_captures
    &&& a.min_captures == b.min_captures
    &&& a.current_hash == b.current_hash
    &&& a.capture_history@ == b.capture_history@
    &&& a.move_history@ == b.move_history@
    &&& a.winner == b.winner
    &&& a.zobrist_hash == b.zobrist_hash
    &&& a.win_condition == b.win_condition
    &&& a.capture_to_win == b.capture_to_win
}

/// After `mv` is played in `s` (giving `t`), any well-formed state `f` in
/// the same position as `t` is ready to take `mv` back.
pub proof fn lemma_undo_ready_in_position(s: GameState, t: GameState, f: GameState, mv: (usize, usize))
    requires
        s.wf(),
        s.board.in_bounds(mv.0 as int, mv.1 as int),
        s.board.stone(mv.0 as int, mv.1 as int) is None,
        spec_made(s, t, mv),
        t.wf(),
        same_position(f, t),
        f.wf(),
    ensures
        undo_ready(f, mv),
{
    lemma_move_is_undoable(s, t, mv);
    assert(last_captures(f) == last_captures(t));
    assert(f.board.stone(mv.0 as int, mv.1 as int) == t.board.stone(mv.0 as int, mv.1 as int));
    let caps = last_captures(t);
    assert forall|k: int| 0 <= k < caps.len() implies f.board.in_bounds(
        #[trigger] caps[k].0 as int,
        caps[k].1 as int,
    ) && f.board.stone(caps[k].0 as int, caps[k].1 as int) is None by {
        assert(f.board.stone(caps[k].0 as int, caps[k].1 as int) == t.board.stone(
            caps[k].0 as int,
            caps[k].1 as int,
        ));
    }
}

/// Playing `mv` in `s`, then taking it back from any state in the same
/// position as right after the move, gives the position of `s` again.
#[verifier::spinoff_prover]
pub proof fn lemma_undo_in_position(
    s: GameState,
    t: GameState,
    f: GameState,
    u: GameState,
    mv: (usize, usize),
)
    requires
        s.wf(),
        s.winner is None,
        s.board.in_bounds(mv.0 as int, mv.1 as int),
        s.board.stone(mv.0 as int, mv.1 as int) is None,
        spec_made(s, t, mv),
        t.wf(),
        same_position(f, t),
        f.wf(),
        spec_undone(f, u, mv),
        u.wf(),
    ensures
        same_position(u, s),
{
    let p = s.current_player;
    let caps = crate::captures::spec_captures(s.board, mv.0 as int, mv.1 as int, p);
    let m = s.board.idx(mv.0 as int, mv.1 as int);
    let z = s.zobrist_hash;
    let nk = z.num_keys();
    crate::captures::lemma_captures_valid(s.board, mv.0 as int, mv.1 as int, p);
    s.board.lemma_cell_index(mv.0 as int, mv.1 as int);
    s.board.lemma_stone_occ(mv.0 as int, mv.1 as int);
    assert(last_captures(f) == caps);
    assert forall|i: int| #[trigger] u.board.cell(i) == s.board.cell(i) by {
        lemma_removed_by_size(f.board, s.board, caps, caps.len() as int, i);
        assert(f.board.cell(i) == t.board.cell(i));
        if crate::captures::removed_by(s.board, caps, caps.len() as int, i) {
            let k = choose|k: int|
                0 <= k < caps.len() && s.board.idx(caps[k].0 as int, caps[k].1 as int) == i;
            s.board.lemma_stone_occ(caps[k].0 as int, caps[k].1 as int);
        }
    }
    assert forall|i: int| 0 <= i < nk && i != -1 implies #[trigger] s.board.max_at(i)
        == u.board.max_at(i) && s.board.min_at(i) == u.board.min_at(i) by {
        assert(u.board.cell(i) == s.board.cell(i));
        assert(!(s.board.max_at(i) && s.board.min_at(i)));
        assert(!(u.board.max_at(i) && u.board.min_at(i)));
    }
    crate::zobrist::lemma_bits_hash_one(z, s.board, u.board, -1, nk);
    assert(u.capture_history@ =~= s.capture_history@);
    assert(u.move_history@ =~= s.move_history@);
}

} // verus!

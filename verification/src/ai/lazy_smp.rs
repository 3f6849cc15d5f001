//! The decisions of the parallel (Lazy SMP) search: how each worker varies
//! its depth and first guess, what a worker keeps from each finished
//! iteration and when it stops, and how the workers' results are combined.
//! The threads and the state they share are run by the caller.

use vstd::prelude::*;
use std::time::Duration;

verus! {

/// Score from which a position counts as won or lost.
pub const DECISIVE_SCORE: i32 = 1_000_000;

/// Result of a search.
#[derive(Debug)]
pub struct SearchResult {
    pub best_move: Option<(usize, usize)>,
    pub score: i32,
    pub depth_reached: i32,
    pub nodes_searched: u64,
    pub time_elapsed: Duration,
}

/// Depth offset of worker `worker_id`.
pub open spec fn spec_depth_offset(worker_id: int) -> int {
    if worker_id == 0 {
        0
    } else if worker_id == 1 {
        -1
    } else if worker_id == 2 {
        1
    } else if worker_id == 3 {
        -2
    } else {
        (worker_id - 2) % 3 - 1
    }
}

/// First-guess offset of worker `worker_id`.
pub open spec fn spec_aspiration_offset(worker_id: int) -> int {
    let m = worker_id % 4;
    if m == 1 {
        50
    } else if m == 2 {
        -50
    } else {
        0
    }
}

/// The depth offset of a worker: the main worker searches the requested
/// depth, workers 1 to 3 one shallower, one deeper and two shallower, and the
/// others cycle through -1, 0 and 1.
pub fn worker_depth_offset(worker_id: usize) -> (o: i32)
    requires
        worker_id <= i32::MAX,
    ensures
        o == spec_depth_offset(worker_id as int),
        -2 <= o <= 1,
{
    match worker_id {
        0 => 0,
        1 => -1,
        2 => 1,
        3 => -2,
        _ => ((worker_id - 2) % 3) as i32 - 1,
    }
}

/// The offset a worker adds to the shared best score for its first guess.
pub fn worker_aspiration_offset(worker_id: usize) -> (o: i32)
    ensures
        o == spec_aspiration_offset(worker_id as int),
{
    match worker_id % 4 {
        0 => 0,
        1 => 50,
        2 => -50,
        _ => 0,
    }
}

/// The depth a worker searches at iteration `depth`: the depth moved by the
/// worker's offset, at least 1.
pub fn worker_search_depth(depth: i32, offset: i32) -> (d: i32)
    requires
        i32::MIN <= depth + offset <= i32::MAX,
    ensures
        d == if depth + offset >= 1 {
            depth + offset
        } else {
            1
        },
{
    let d = depth + offset;
    if d >= 1 {
        d
    } else {
        1
    }
}

/// What one worker has found so far.
pub struct WorkerProgress {
    pub best_move: Option<(usize, usize)>,
    pub best_score: i32,
    pub depth_reached: i32,
    pub total_nodes: u64,
}

impl WorkerProgress {
    /// Nothing found yet.
    pub fn new() -> (p: WorkerProgress)
        ensures
            p.best_move is None,
            p.best_score == 0,
            p.depth_reached == 0,
            p.total_nodes == 0,
    {
        WorkerProgress { best_move: None, best_score: 0, depth_reached: 0, total_nodes: 0 }
    }

    /// Records an iteration searched at `search_depth` that found `score`
    /// and `mv` in `nodes` nodes. An iteration with a move replaces the best
    /// result. Returns whether the worker should stop: the move's score is
    /// decisive (a win or a loss).
    pub fn record_iteration(
        &mut self,
        score: i32,
        nodes: u64,
        mv: Option<(usize, usize)>,
        search_depth: i32,
    ) -> (stop: bool)
        requires
            score != i32::MIN,
        ensures
            final(self).total_nodes == old(self).total_nodes.wrapping_add(nodes),
            mv is Some ==> {
                &&& final(self).best_move == mv
                &&& final(self).best_score == score
                &&& final(self).depth_reached == search_depth
                &&& stop == (score >= DECISIVE_SCORE || score <= -DECISIVE_SCORE)
            },
            mv is None ==> {
                &&& final(self).best_move == old(self).best_move
                &&& final(self).best_score == old(self).best_score
                &&& final(self).depth_reached == old(self).depth_reached
                &&& !stop
            },
    {
        self.total_nodes = self.total_nodes.wrapping_add(nodes);
        if mv.is_some() {
            self.best_move = mv;
            self.best_score = score;
            self.depth_reached = search_depth;
            let magnitude = if score < 0 {
                -score
            } else {
                score
            };
            return magnitude >= DECISIVE_SCORE;
        }
        false
    }
}

/// Best score with a move, that move, and the deepest depth, over the first
/// `n` worker results `(score, move, depth, nodes)`; a later result replaces
/// the best only with a strictly higher score.
pub open spec fn spec_combine(results: Seq<(i32, Option<(usize, usize)>, i32, u64)>, n: int) -> (
    i32,
    Option<(usize, usize)>,
    i32,
)
    decreases n,
{
    if n <= 0 {
        (i32::MIN, None, 0)
    } else {
        let prev = spec_combine(results, n - 1);
        let r = results[n - 1];
        let better = r.0 > prev.0 && r.1 is Some;
        (
            if better {
                r.0
            } else {
                prev.0
            },
            if better {
                r.1
            } else {
                prev.1
            },
            if r.2 > prev.2 {
                r.2
            } else {
                prev.2
            },
        )
    }
}

/// The combination keeps the best: its score is at least that of every
/// result with a move, its depth at least every depth (and 0), and a move it
/// returns comes, with its score, from one of the results.
pub proof fn lemma_combine_best(results: Seq<(i32, Option<(usize, usize)>, i32, u64)>, n: int)
    requires
        0 <= n <= results.len(),
    ensures
        forall|k: int| 0 <= k < n && (#[trigger] results[k]).1 is Some ==> results[k].0 <= spec_combine(results, n).0,
        forall|k: int| 0 <= k < n ==> (#[trigger] results[k]).2 <= spec_combine(results, n).2,
        0 <= spec_combine(results, n).2,
        spec_combine(results, n).1 is Some ==> exists|k: int|
            0 <= k < n && (#[trigger] results[k]).0 == spec_combine(results, n).0 && results[k].1
                == spec_combine(results, n).1,
    decreases n,
{
    if n > 0 {
        lemma_combine_best(results, n - 1);
        let prev = spec_combine(results, n - 1);
        let cur = spec_combine(results, n);
        let r = results[n - 1];
        if r.0 > prev.0 && r.1 is Some {
            assert(results[n - 1].0 == cur.0 && results[n - 1].1 == cur.1);
        } else if cur.1 is Some {
            let k = choose|k: int| 0 <= k < n - 1 && (#[trigger] results[k]).0 == prev.0 && results[k].1 == prev.1;
            assert(results[k].0 == cur.0 && results[k].1 == cur.1);
        }
    }
}

/// Combines the workers' results `(score, move, depth, nodes)`: the highest
/// score that comes with a move (the first of equals), that move, and the
/// deepest depth reached.
pub fn combine_worker_results(results: &Vec<(i32, Option<(usize, usize)>, i32, u64)>) -> (c: (
    i32,
    Option<(usize, usize)>,
    i32,
))
    ensures
        c == spec_combine(results@, results@.len() as int),
{
    let mut best_score: i32 = i32::MIN;
    let mut best_move: Option<(usize, usize)> = None;
    let mut max_depth_reached: i32 = 0;
    let mut i: usize = 0;
    while i < results.len()
        invariant
            i <= results@.len(),
            (best_score, best_move, max_depth_reached) == spec_combine(results@, i as int),
        decreases results@.len() - i,
    {
        let (score, mv, depth, _nodes) = results[i];
        if score > best_score && mv.is_some() {
            best_score = score;
            best_move = mv;
        }
        if depth > max_depth_reached {
            max_depth_reached = depth;
        }
        i = i + 1;
    }
    (best_score, best_move, max_depth_reached)
}

/// The final choice: the shared best result replaces the combined one when
/// its score is strictly higher and it has a move; the depth reached is the
/// larger of the two.
pub fn final_choice(
    combined: (i32, Option<(usize, usize)>, i32),
    shared_score: i32,
    shared_move: Option<(usize, usize)>,
    shared_depth: i32,
) -> (c: (i32, Option<(usize, usize)>, i32))
    ensures
        shared_score > combined.0 && shared_move is Some ==> c.0 == shared_score && c.1 == shared_move,
        !(shared_score > combined.0 && shared_move is Some) ==> c.0 == combined.0 && c.1 == combined.1,
        c.2 == if shared_depth > combined.2 {
            shared_depth
        } else {
            combined.2
        },
{
    let (mut best_score, mut best_move, max_depth_reached) = combined;
    if shared_score > best_score && shared_move.is_some() {
        best_score = shared_score;
        best_move = shared_move;
    }
    let depth = if shared_depth > max_depth_reached {
        shared_depth
    } else {
        max_depth_reached
    };
    (best_score, best_move, depth)
}

} // verus!

use vstd::prelude::*;

use rayon::iter::IntoParallelIterator;
use rayon::iter::ParallelIterator;

use crate::board::Board;
use crate::tree::Node;
use crate::tree::PLAYS_PER_EXPAND;

verus! {

/// Simulation passes each parallel worker runs against its private copy.
pub const WORKER_ITERATIONS: u32 = 20000;

/// Number of independent workers.
pub const WORKER_COUNT: usize = 10;

/// One tree-search worker: `iters` simulation passes of a fresh root against
/// a private copy of the board; the original board is never touched.
#[verifier::loop_isolation(false)]
fn run_worker(board: &Board, player: i8, iters: u32) -> (n: Node)
    requires
        board.wf(),
        player == 1 || player == -1,
        1 <= iters <= 100_000_000,
    ensures
        n.wf(),
        n.root,
        !n.leaf,
        Node::coords(n.nodes@) == board.cand_seq(),
        n.plays == 10 * (iters as int),
{
    let b0 = board.duplicate();
    let mut b = b0;
    let mut node = Node::new_root();
    let mut it: u32 = 0;
    while it < iters
        invariant
            it <= iters,
            b.wf(),
            b.same_state(*board),
            node.wf(),
            node.root,
            node.tree_in_range(board.shape as int),
            node.plays == 10 * it,
            it == 0 ==> node.leaf,
            it >= 1 ==> !node.leaf && Node::coords(node.nodes@) == board.cand_seq(),
        decreases iters - it,
    {
        let ghost b_pre = b;
        node.run_sim(&mut b, 0, player, player);
        proof {
            if it == 0 {
                Board::lemma_cand_same_state(b_pre, *board);
            }
        }
        it = it + 1;
    }
    node
}

/// Relies on rayon's into_par_iter().map().collect() over a range: the
/// closure runs the verified worker once per index and the results are
/// collected in order, one per worker.
#[verifier::external_body]
fn spawn_workers(board: &Board, player: i8, workers: usize, iters: u32) -> (v: Vec<Node>)
    requires
        board.wf(),
        player == 1 || player == -1,
        1 <= iters <= 100_000_000,
    ensures
        v@.len() == workers,
        forall|i: int|
            0 <= i < v@.len() ==> (#[trigger] v@[i]).wf() && v@[i].root && !v@[i].leaf
                && Node::coords(v@[i].nodes@) == board.cand_seq() && v@[i].plays == 10 * (
            iters as int),
{
    (0..workers).into_par_iter().map(|_i| run_worker(board, player, iters)).collect()
}

impl Board {
    /// Run `workers` independent workers, each for `iters` simulation passes
    /// on a private copy of this board, fold their statistics into one
    /// canonical root built against this board, and pick the consensus move:
    /// the child with the best merged win ratio. The board itself ends
    /// exactly as it began. None means no candidate move exists at all.
    #[verifier::loop_isolation(false)]
    pub fn do_monte_carlo_budget(&mut self, player: i8, workers: usize, iters: u32) -> (r: Option<
        (u32, u32),
    >)
        requires
            old(self).wf(),
            player == 1 || player == -1,
            1 <= workers <= 100,
            1 <= iters <= 100_000,
        ensures
            final(self).same_state(*old(self)),
            final(self).wf(),
            match r {
                Option::None => old(self).cand_seq().len() == 0,
                Option::Some(c) => (exists|i: int|
                    0 <= i < old(self).cand_seq().len() && c == #[trigger] old(self).cand_seq()[i])
                    && old(self).in_range(c.0 as int, c.1 as int) && old(self).cell(
                    c.0 as int,
                    c.1 as int,
                ) == 0,
            },
    {
        proof {
            Board::lemma_cand_props(*old(self), 0);
        }
        let workers = spawn_workers(self, player, workers, iters);
        let mut final_node = Node::new_root();
        final_node.run_sim(self, 0, player, player);
        proof {
            assert forall|i: int| 0 <= i < final_node.nodes@.len() implies (
            #[trigger] final_node.nodes@[i]).plays <= 10 && final_node.nodes@[i].wins <= 10 by {
                assert(final_node.nodes@[i].wf());
                assert(final_node.nodes@[i].plays + PLAYS_PER_EXPAND <= final_node.plays);
            }
        }
        let mut wi: usize = 0;
        while wi < workers.len()
            invariant
                wi <= workers@.len(),
                final_node.root,
                !final_node.leaf,
                Node::coords(final_node.nodes@) == old(self).cand_seq(),
                forall|i: int|
                    0 <= i < final_node.nodes@.len() ==> (#[trigger] final_node.nodes@[i]).plays
                        <= 10 + wi * (10 * (iters as int)) && final_node.nodes@[i].wins <= 10 + wi
                        * (10 * (iters as int)),
            decreases workers@.len() - wi,
        {
            let w = &workers[wi];
            proof {
                assert(Node::coords(w.nodes@).len() == w.nodes@.len());
                assert(Node::coords(final_node.nodes@).len() == final_node.nodes@.len());
                assert forall|i: int|
                    0 <= i < w.nodes@.len() implies (#[trigger] w.nodes@[i]).plays <= 10 * (
                    iters as int) && w.nodes@[i].wins <= 10 * (iters as int) by {
                    assert(w.nodes@[i].wf());
                }
                assert((wi + 1) * (10 * (iters as int)) == wi * (10 * (iters as int)) + 10 * (
                iters as int) && (wi + 1) * (10 * (iters as int)) <= 100 * (10 * (iters as int)))
                    by (nonlinear_arith)
                    requires
                        0 <= wi < 100,
                        1 <= iters,
                ;
            }
            final_node.add_other(w);
            wi = wi + 1;
        }
        let r = final_node.best();
        proof {
            assert(Node::coords(final_node.nodes@).len() == final_node.nodes@.len());
            if let Option::Some(c) = r {
                let i = choose|i: int|
                    0 <= i < final_node.nodes@.len() && c == (
                        (#[trigger] final_node.nodes@[i]).x,
                        final_node.nodes@[i].y,
                    ) && (forall|j: int|
                        0 <= j < final_node.nodes@.len() ==> !final_node.ratio_gt(j, i)) && (
                    forall|j: int| 0 <= j < i ==> final_node.ratio_gt(i, j));
                assert(Node::coords(final_node.nodes@)[i] == c);
                assert(old(self).cand_seq()[i] == c);
            }
        }
        r
    }

    /// The standard search: the fixed worker fan-out and per-worker
    /// simulation budget, against this board.
    pub fn do_monte_carlo(&mut self, player: i8) -> (r: Option<(u32, u32)>)
        requires
            old(self).wf(),
            player == 1 || player == -1,
        ensures
            final(self).same_state(*old(self)),
            final(self).wf(),
            match r {
                Option::None => old(self).cand_seq().len() == 0,
                Option::Some(c) => (exists|i: int|
                    0 <= i < old(self).cand_seq().len() && c == #[trigger] old(self).cand_seq()[i])
                    && old(self).in_range(c.0 as int, c.1 as int) && old(self).cell(
                    c.0 as int,
                    c.1 as int,
                ) == 0,
            },
    {
        self.do_monte_carlo_budget(player, WORKER_COUNT, WORKER_ITERATIONS)
    }

    /// Select a move with the given worker fan-out and per-worker budget and
    /// commit it. Returns the move played, or None when the board has no
    /// candidate cell left, in which case nothing changes.
    pub fn play_monte_carlo_budget(&mut self, player: i8, workers: usize, iters: u32) -> (r:
        Option<(u32, u32)>)
        requires
            old(self).wf(),
            player == 1 || player == -1,
            old(self).play_count < u32::MAX,
            1 <= workers <= 100,
            1 <= iters <= 100_000,
        ensures
            final(self).wf(),
            match r {
                Option::None => final(self).same_state(*old(self)) && old(self).cand_seq().len()
                    == 0,
                Option::Some(c) => {
                    &&& exists|i: int|
                        0 <= i < old(self).cand_seq().len() && c == #[trigger] old(
                            self,
                        ).cand_seq()[i]
                    &&& old(self).in_range(c.0 as int, c.1 as int)
                    &&& old(self).cell(c.0 as int, c.1 as int) == 0
                    &&& final(self).data@ == old(self).data@.update(
                        old(self).sidx(c.0 as int, c.1 as int),
                        player,
                    )
                    &&& final(self).play_count == old(self).play_count + 1
                    &&& final(self).done == (old(self).done || final(self).wins_at(
                        player,
                        c.0 as int,
                        c.1 as int,
                    ))
                    &&& final(self).last_play_position == c
                    &&& final(self).shape == old(self).shape
                    &&& final(self).radius == old(self).radius
                },
            },
    {
        let mv = self.do_monte_carlo_budget(player, workers, iters);
        match mv {
            Option::None => Option::None,
            Option::Some(c) => {
                proof {
                    Board::lemma_cand_props(*old(self), 0);
                }
                self.play_at(c.0, c.1, player);
                Option::Some(c)
            },
        }
    }

    /// Select a move by the standard search budget and commit it.
    pub fn play_monte_carlo(&mut self, player: i8) -> (r: Option<(u32, u32)>)
        requires
            old(self).wf(),
            player == 1 || player == -1,
            old(self).play_count < u32::MAX,
        ensures
            final(self).wf(),
            match r {
                Option::None => final(self).same_state(*old(self)) && old(self).cand_seq().len()
                    == 0,
                Option::Some(c) => {
                    &&& exists|i: int|
                        0 <= i < old(self).cand_seq().len() && c == #[trigger] old(
                            self,
                        ).cand_seq()[i]
                    &&& old(self).in_range(c.0 as int, c.1 as int)
                    &&& old(self).cell(c.0 as int, c.1 as int) == 0
                    &&& final(self).data@ == old(self).data@.update(
                        old(self).sidx(c.0 as int, c.1 as int),
                        player,
                    )
                    &&& final(self).play_count == old(self).play_count + 1
                    &&& final(self).done == (old(self).done || final(self).wins_at(
                        player,
                        c.0 as int,
                        c.1 as int,
                    ))
                    &&& final(self).last_play_position == c
                    &&& final(self).shape == old(self).shape
                    &&& final(self).radius == old(self).radius
                },
            },
    {
        self.play_monte_carlo_budget(player, WORKER_COUNT, WORKER_ITERATIONS as u32)
    }
}

} // verus!

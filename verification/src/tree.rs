use vstd::prelude::*;

use crate::board::Board;
use crate::rng::rand_index;
use crate::score::sel_score;
use crate::score::score_of;

verus! {

/// One node of the move-selection tree: the move it stands for, its visit
/// statistics, and its exclusively owned children, created on expansion.
pub struct Node {
    pub nodes: Vec<Node>,
    pub x: u32,
    pub y: u32,
    pub plays: u32,
    pub wins: u32,
    pub leaf: bool,
    pub root: bool,
}

/// The batch of simulated plays credited to a node per visit.
pub const PLAYS_PER_EXPAND: u32 = 10;

impl Node {
    /// Visit statistics are consistent through the whole tree: wins never
    /// exceed plays, a leaf has no children yet, and every child is at least
    /// one batch of plays behind its parent.
    pub open spec fn wf(self) -> bool
        decreases self,
    {
        &&& self.wins <= self.plays
        &&& (self.leaf ==> self.nodes@.len() == 0)
        &&& forall|i: int|
            0 <= i < self.nodes@.len() ==> (#[trigger] self.nodes@[i]).wf()
                && self.nodes@[i].plays + PLAYS_PER_EXPAND <= self.plays
    }

    /// Every non-root node of the tree carries a coordinate on a board of
    /// side `shape`.
    pub open spec fn tree_in_range(self, shape: int) -> bool
        decreases self,
    {
        &&& (!self.root ==> 0 <= self.x < shape && 0 <= self.y < shape)
        &&& forall|i: int|
            0 <= i < self.nodes@.len() ==> (#[trigger] self.nodes@[i]).tree_in_range(shape)
                && !self.nodes@[i].root
    }

    /// The children's move coordinates, in generation order.
    pub open spec fn coords(s: Seq<Node>) -> Seq<(u32, u32)> {
        s.map_values(|n: Node| (n.x, n.y))
    }

    /// The children's (plays, wins) statistics, in generation order.
    pub open spec fn stats(s: Seq<Node>) -> Seq<(int, int)> {
        s.map_values(|n: Node| (n.plays as int, n.wins as int))
    }

    /// Index-aligned sum of two statistics sequences.
    pub open spec fn merge_stats(a: Seq<(int, int)>, b: Seq<(int, int)>) -> Seq<(int, int)> {
        Seq::new(a.len(), |i: int| (a[i].0 + b[i].0, a[i].1 + b[i].1))
    }

    /// A fresh unexpanded node standing for the move (x, y).
    pub fn new(x: u32, y: u32) -> (n: Node)
        ensures
            n.x == x,
            n.y == y,
            n.plays == 0,
            n.wins == 0,
            n.leaf,
            !n.root,
            n.nodes@.len() == 0,
            n.wf(),
    {
        Node { x, y, plays: 0, wins: 0, leaf: true, nodes: Vec::new(), root: false }
    }

    /// A fresh root: it stands for no move and only aggregates children.
    pub fn new_root() -> (n: Node)
        ensures
            n.x == 0,
            n.y == 0,
            n.plays == 0,
            n.wins == 0,
            n.leaf,
            n.root,
            n.nodes@.len() == 0,
            n.wf(),
    {
        Node { x: 0, y: 0, plays: 0, wins: 0, leaf: true, nodes: Vec::new(), root: true }
    }

    /// Write `val` at (x, y) — unless this is the root, which stands for no
    /// move and leaves the board alone.
    pub fn set_board_at(&mut self, board: &mut Board, x: u32, y: u32, val: i8)
        requires
            old(board).wf(),
            !old(self).root ==> old(board).in_range(x as int, y as int),
            val == 0 || val == 1 || val == -1,
        ensures
            *final(self) == *old(self),
            final(board).wf(),
            old(self).root ==> final(board).same_state(*old(board)),
            !old(self).root ==> final(board).data@ == old(board).data@.update(
                old(board).sidx(x as int, y as int),
                val,
            ) && final(board).shape == old(board).shape && final(board).play_count == old(
                board,
            ).play_count && final(board).done == old(board).done && final(board).radius == old(
                board,
            ).radius && final(board).last_play_position == old(board).last_play_position,
    {
        if !self.root {
            board.set_at(x, y, val);
        }
    }

    /// One simulation pass: descend the tree by the selection rule, applying
    /// each node's move on the way down and undoing it on the way back, expand
    /// a first-visited node, and credit rollout results up the path. The board
    /// ends bit-for-bit as it began. Returns the wins credited toward
    /// orig_player out of this batch.
    #[verifier::loop_isolation(false)]
    pub fn run_sim(&mut self, board: &mut Board, depth: u32, player: i8, orig_player: i8) -> (r:
        u32)
        requires
            old(self).wf(),
            old(self).tree_in_range(old(board).shape as int),
            old(board).wf(),
            player == 1 || player == -1,
            orig_player == 1 || orig_player == -1,
            old(self).plays + PLAYS_PER_EXPAND <= u32::MAX,
        ensures
            final(board).same_state(*old(board)),
            final(board).wf(),
            final(self).wf(),
            final(self).tree_in_range(old(board).shape as int),
            final(self).x == old(self).x,
            final(self).y == old(self).y,
            final(self).root == old(self).root,
            final(self).plays == old(self).plays + PLAYS_PER_EXPAND,
            old(self).wins <= final(self).wins <= old(self).wins + PLAYS_PER_EXPAND,
            r <= PLAYS_PER_EXPAND,
            !old(self).leaf ==> !final(self).leaf && Node::coords(final(self).nodes@)
                == Node::coords(old(self).nodes@),
            old(self).root && old(self).leaf ==> !final(self).leaf && Node::coords(
                final(self).nodes@,
            ) == old(board).cand_seq(),
            // terminal short-circuit: a move completing five in a row credits
            // the full batch here and descends no further
            !old(self).root && old(board).wins_at(
                player,
                old(self).x as int,
                old(self).y as int,
            ) ==> final(self).nodes@ == old(self).nodes@ && final(self).leaf == old(self).leaf
                && final(self).wins == old(self).wins + PLAYS_PER_EXPAND && (player == orig_player
                ==> r == PLAYS_PER_EXPAND) && (player != orig_player ==> r == 0),
            // non-root first visit: children are the candidates of the board
            // with this node's move applied, and the rollout tally is credited
            !old(self).root && !old(board).wins_at(
                player,
                old(self).x as int,
                old(self).y as int,
            ) && old(self).leaf ==> final(self).wins == old(self).wins + r && (forall|b2: Board|
                b2.shape == old(board).shape && b2.play_count == old(board).play_count
                    && b2.radius == old(board).radius && b2.data@ == old(board).data@.update(
                    old(board).sidx(old(self).x as int, old(self).y as int),
                    player,
                ) ==> Node::coords(final(self).nodes@) == #[trigger] b2.cand_seq()),
            // a root's first visit only creates children; it rolls nothing out
            old(self).root && old(self).leaf ==> r == 0 && final(self).wins == old(self).wins,
            // an expanded node with no children contributes nothing
            !old(self).leaf && old(self).nodes@.len() == 0 && (old(self).root || !old(
                board,
            ).wins_at(player, old(self).x as int, old(self).y as int)) ==> r == 0 && final(self).wins == old(self).wins && final(self).nodes@ == old(
                self,
            ).nodes@,
            // the expanded case descends into exactly one child and credits
            // the returned score, inverted on the opponent's ply
            !old(self).leaf && old(self).nodes@.len() > 0 && (old(self).root || !old(
                board,
            ).wins_at(player, old(self).x as int, old(self).y as int)) ==> (player == orig_player
                ==> final(self).wins == old(self).wins + r) && (player != orig_player
                ==> final(self).wins == old(self).wins + PLAYS_PER_EXPAND - r) && (exists|i: int|
                0 <= i < old(self).nodes@.len() && (forall|j: int|
                    0 <= j < old(self).nodes@.len() && j != i ==> (#[trigger] final(self).nodes@[j])
                        == old(self).nodes@[j]) && (#[trigger] final(self).nodes@[i]).plays
                    == old(self).nodes@[i].plays + PLAYS_PER_EXPAND),
        decreases *old(self),
    {
        self.plays = self.plays + PLAYS_PER_EXPAND;
        let next_player: i8 = if self.root {
            player
        } else {
            -player
        };

        // apply this node's move, remembering what the cell held
        let mut prev: i8 = 0;
        if !self.root {
            prev = board.get_at(self.x, self.y);
            proof {
                assert(0 <= (self.y as int) * (board.shape as int) && (self.x as int) + (
                self.y as int) * (board.shape as int) < board.data@.len()) by (nonlinear_arith)
                    requires
                        0 <= self.x < board.shape,
                        0 <= self.y < board.shape,
                        board.data@.len() == board.shape * board.shape,
                ;
                assert(prev == 0 || prev == 1 || prev == -1);
            }
            board.set_at(self.x, self.y, player);
        }
        let ghost moved = *board;

        // a move that completes five in a row ends the descent here
        if !self.root {
            let won = board.define_win(player, self.x as i32, self.y as i32);
            proof {
                Board::lemma_wins_at_ignores_probe(
                    *old(board),
                    *board,
                    player,
                    self.x as int,
                    self.y as int,
                );
            }
            if won {
                self.wins = self.wins + PLAYS_PER_EXPAND;
                board.set_at(self.x, self.y, prev);
                proof {
                    Node::lemma_restore(
                        *old(board),
                        *board,
                        self.x as int,
                        self.y as int,
                        player,
                        prev,
                    );
                }
                return if player == orig_player {
                    PLAYS_PER_EXPAND
                } else {
                    0
                };
            }
        }

        // first visit: create one child per candidate move, then estimate the
        // position by random rollouts (the root never rolls out itself)
        if self.leaf {
            self.leaf = false;
            let cands = board.collect_candidates();
            let mut ci: usize = 0;
            while ci < cands.len()
                invariant
                    self.nodes@.len() == ci,
                    ci <= cands@.len(),
                    board.wf(),
                    self.x == old(self).x,
                    self.y == old(self).y,
                    self.root == old(self).root,
                    !self.leaf,
                    self.plays == old(self).plays + PLAYS_PER_EXPAND,
                    self.wins == old(self).wins,
                    forall|t: int|
                        0 <= t < ci ==> (#[trigger] self.nodes@[t]).x == cands@[t].0
                            && self.nodes@[t].y == cands@[t].1 && self.nodes@[t].plays == 0
                            && self.nodes@[t].wins == 0 && !self.nodes@[t].root
                            && self.nodes@[t].wf() && self.nodes@[t].nodes@.len() == 0,
                    forall|t: int|
                        0 <= t < cands@.len() ==> board.in_range(
                            #[trigger] cands@[t].0 as int,
                            cands@[t].1 as int,
                        ),
                decreases cands@.len() - ci,
            {
                let c = cands[ci];
                self.nodes.push(Node::new(c.0, c.1));
                ci = ci + 1;
            }
            proof {
                assert(Node::coords(self.nodes@) =~= cands@);
                assert forall|t: int| 0 <= t < self.nodes@.len() implies (#[trigger] self.nodes@[
                t]).tree_in_range(old(board).shape as int) && !self.nodes@[t].root by {
                    assert(board.in_range(cands@[t].0 as int, cands@[t].1 as int));
                    assert(self.nodes@[t].nodes@.len() == 0);
                }
                assert(self.tree_in_range(old(board).shape as int));
            }
            if !self.root {
                let ghost pre_rollout = *self;
                let mut wins: u32 = 0;
                let mut t: usize = 0;
                while t < PLAYS_PER_EXPAND as usize
                    invariant
                        wins <= t <= PLAYS_PER_EXPAND,
                        board.wf(),
                        board.same_state(moved),
                        player == 1 || player == -1,
                        *self == pre_rollout,
                    decreases PLAYS_PER_EXPAND - t,
                {
                    let result = board.rec_random_play(player, depth);
                    if result.0 == orig_player {
                        wins = wins + 1;
                    }
                    t = t + 1;
                }
                self.wins = self.wins + wins;
                board.set_at(self.x, self.y, prev);
                proof {
                    Node::lemma_restore(
                        *old(board),
                        *board,
                        self.x as int,
                        self.y as int,
                        player,
                        prev,
                    );
                    assert forall|b2: Board|
                        b2.shape == old(board).shape && b2.play_count == old(board).play_count
                            && b2.radius == old(board).radius && b2.data@ == old(
                            board,
                        ).data@.update(
                            old(board).sidx(old(self).x as int, old(self).y as int),
                            player,
                        ) implies Node::coords(self.nodes@) == #[trigger] b2.cand_seq() by {
                        Board::lemma_cand_same_state(moved, b2);
                    }
                }
                return wins;
            }
            return 0;
        }

        // an expanded node with no candidates left cannot descend: the board
        // is full around it, so this pass contributes nothing
        if self.nodes.len() == 0 {
            if !self.root {
                board.set_at(self.x, self.y, prev);
                proof {
                    Node::lemma_restore(
                        *old(board),
                        *board,
                        self.x as int,
                        self.y as int,
                        player,
                        prev,
                    );
                }
            }
            return 0;
        }

        // descend into the child the selection rule picks
        let play_pos = self.select_child(player, orig_player);
        let mut child = self.nodes.remove(play_pos);
        proof {
            assert(child == old(self).nodes@[play_pos as int]);
            assert(decreases_to!(*old(self) => old(self).nodes));
            assert(decreases_to!(old(self).nodes => old(self).nodes[play_pos as int]));
        }
        // the depth counter saturates: boards never have that many cells, so a
        // saturated depth already exhausts every rollout budget
        let next_depth: u32 = if depth < u32::MAX {
            depth + 1
        } else {
            depth
        };
        let score = child.run_sim(board, next_depth, next_player, orig_player);
        self.nodes.insert(play_pos, child);
        self.wins = self.wins + (if player == orig_player {
            score
        } else {
            PLAYS_PER_EXPAND - score
        });
        if !self.root {
            board.set_at(self.x, self.y, prev);
            proof {
                Node::lemma_restore(
                    *old(board),
                    *board,
                    self.x as int,
                    self.y as int,
                    player,
                    prev,
                );
            }
        }
        proof {
            assert(Node::coords(self.nodes@) =~= Node::coords(old(self).nodes@));
            assert forall|j: int|
                0 <= j < old(self).nodes@.len() && j != play_pos implies (#[trigger] self.nodes@[
            j]) == old(self).nodes@[j] by {}
            assert(self.nodes@[play_pos as int].plays == old(self).nodes@[play_pos as int].plays
                + PLAYS_PER_EXPAND);
        }
        score
    }

    /// After writing v and then the remembered previous value back at
    /// (x, y), the board is bit-for-bit at its original state.
    proof fn lemma_restore(orig: Board, cur: Board, x: int, y: int, v: i8, prev: i8)
        requires
            orig.wf(),
            orig.in_range(x, y),
            prev == orig.cell(x, y),
            cur.shape == orig.shape,
            cur.play_count == orig.play_count,
            cur.done == orig.done,
            cur.last_play_position == orig.last_play_position,
            cur.radius == orig.radius,
            cur.data@ == orig.data@.update(orig.sidx(x, y), v).update(orig.sidx(x, y), prev),
        ensures
            cur.same_state(orig),
    {
        assert(0 <= y * orig.shape && x + y * orig.shape < orig.data@.len()) by (nonlinear_arith)
            requires
                0 <= x < orig.shape,
                0 <= y < orig.shape,
                orig.data@.len() == orig.shape * orig.shape,
        ;
        assert(cur.data@ =~= orig.data@);
    }

    /// First child standing for the move (x, y), if any.
    pub fn get_sub_node_at(&self, x: u32, y: u32) -> (r: Option<&Node>)
        ensures
            match r {
                Some(n) => exists|i: int|
                    0 <= i < self.nodes@.len() && self.nodes@[i] == *n && (#[trigger] self.nodes@[i]).x == x
                        && self.nodes@[i].y == y && (forall|j: int|
                        0 <= j < i ==> !((#[trigger] self.nodes@[j]).x == x && self.nodes@[j].y
                            == y)),
                None => forall|i: int|
                    0 <= i < self.nodes@.len() ==> !((#[trigger] self.nodes@[i]).x == x
                        && self.nodes@[i].y == y),
            },
    {
        let mut i: usize = 0;
        while i < self.nodes.len()
            invariant
                i <= self.nodes@.len(),
                forall|j: int|
                    0 <= j < i ==> !((#[trigger] self.nodes@[j]).x == x && self.nodes@[j].y == y),
            decreases self.nodes@.len() - i,
        {
            if self.nodes[i].x == x && self.nodes[i].y == y {
                return Some(&self.nodes[i]);
            }
            i = i + 1;
        }
        None
    }

    /// Fold another tree's per-child statistics into this one's,
    /// index-aligned. Both trees must have been expanded from an identical
    /// starting board, so that their child lists line up.
    pub fn add_other(&mut self, other: &Node)
        requires
            old(self).nodes@.len() == other.nodes@.len(),
            forall|i: int|
                0 <= i < other.nodes@.len() ==> (#[trigger] old(self).nodes@[i]).plays
                    + other.nodes@[i].plays <= u32::MAX && old(self).nodes@[i].wins
                    + other.nodes@[i].wins <= u32::MAX,
        ensures
            final(self).nodes@.len() == old(self).nodes@.len(),
            forall|i: int|
                0 <= i < final(self).nodes@.len() ==> (#[trigger] final(self).nodes@[i]).plays
                    == old(self).nodes@[i].plays + other.nodes@[i].plays
                    && final(self).nodes@[i].wins == old(self).nodes@[i].wins
                    + other.nodes@[i].wins && final(self).nodes@[i].x == old(self).nodes@[i].x
                    && final(self).nodes@[i].y == old(self).nodes@[i].y
                    && final(self).nodes@[i].leaf == old(self).nodes@[i].leaf
                    && final(self).nodes@[i].root == old(self).nodes@[i].root
                    && final(self).nodes@[i].nodes == old(self).nodes@[i].nodes,
            Node::stats(final(self).nodes@) == Node::merge_stats(
                Node::stats(old(self).nodes@),
                Node::stats(other.nodes@),
            ),
            Node::coords(final(self).nodes@) == Node::coords(old(self).nodes@),
            final(self).x == old(self).x,
            final(self).y == old(self).y,
            final(self).plays == old(self).plays,
            final(self).wins == old(self).wins,
            final(self).leaf == old(self).leaf,
            final(self).root == old(self).root,
    {
        let mut i: usize = 0;
        while i < self.nodes.len()
            invariant
                self.nodes@.len() == old(self).nodes@.len(),
                other.nodes@.len() == old(self).nodes@.len(),
                i <= self.nodes@.len(),
                forall|j: int|
                    0 <= j < other.nodes@.len() ==> (#[trigger] old(self).nodes@[j]).plays
                        + other.nodes@[j].plays <= u32::MAX && old(self).nodes@[j].wins
                        + other.nodes@[j].wins <= u32::MAX,
                forall|j: int|
                    i <= j < self.nodes@.len() ==> #[trigger] self.nodes@[j] == old(
                        self,
                    ).nodes@[j],
                forall|j: int|
                    0 <= j < i ==> (#[trigger] self.nodes@[j]).plays == old(self).nodes@[j].plays
                        + other.nodes@[j].plays && self.nodes@[j].wins == old(self).nodes@[j].wins
                        + other.nodes@[j].wins && self.nodes@[j].x == old(self).nodes@[j].x
                        && self.nodes@[j].y == old(self).nodes@[j].y && self.nodes@[j].leaf == old(
                        self,
                    ).nodes@[j].leaf && self.nodes@[j].root == old(self).nodes@[j].root
                        && self.nodes@[j].nodes == old(self).nodes@[j].nodes,
                self.x == old(self).x,
                self.y == old(self).y,
                self.plays == old(self).plays,
                self.wins == old(self).wins,
                self.leaf == old(self).leaf,
                self.root == old(self).root,
            decreases self.nodes@.len() - i,
        {
            let mut n = self.nodes.remove(i);
            n.plays = n.plays + other.nodes[i].plays;
            n.wins = n.wins + other.nodes[i].wins;
            self.nodes.insert(i, n);
            i = i + 1;
        }
        proof {
            assert(Node::stats(self.nodes@) =~= Node::merge_stats(
                Node::stats(old(self).nodes@),
                Node::stats(other.nodes@),
            ));
            assert(Node::coords(self.nodes@) =~= Node::coords(old(self).nodes@));
        }
    }

    /// Law: folding workers' statistics into a canonical root is
    /// order-independent — merging b then c equals merging c then b.
    pub proof fn lemma_merge_comm(a: Seq<(int, int)>, b: Seq<(int, int)>, c: Seq<(int, int)>)
        requires
            b.len() == a.len(),
            c.len() == a.len(),
        ensures
            Node::merge_stats(Node::merge_stats(a, b), c) == Node::merge_stats(
                Node::merge_stats(a, c),
                b,
            ),
    {
        assert(Node::merge_stats(Node::merge_stats(a, b), c) =~= Node::merge_stats(
            Node::merge_stats(a, c),
            b,
        ));
    }

    /// Law: folding workers' statistics is also grouping-independent.
    pub proof fn lemma_merge_assoc(a: Seq<(int, int)>, b: Seq<(int, int)>, c: Seq<(int, int)>)
        requires
            b.len() == a.len(),
            c.len() == a.len(),
        ensures
            Node::merge_stats(Node::merge_stats(a, b), c) == Node::merge_stats(
                a,
                Node::merge_stats(b, c),
            ),
    {
        assert(Node::merge_stats(Node::merge_stats(a, b), c) =~= Node::merge_stats(
            a,
            Node::merge_stats(b, c),
        ));
    }

    /// Numerator of child i's observed win ratio (0 when unplayed).
    pub open spec fn rnum(self, i: int) -> int {
        if self.nodes@[i].plays == 0 {
            0
        } else {
            self.nodes@[i].wins as int
        }
    }

    /// Denominator of child i's observed win ratio (1 when unplayed).
    pub open spec fn rden(self, i: int) -> int {
        if self.nodes@[i].plays == 0 {
            1
        } else {
            self.nodes@[i].plays as int
        }
    }

    /// Child a's observed win ratio strictly exceeds child b's.
    pub open spec fn ratio_gt(self, a: int, b: int) -> bool {
        self.rnum(a) * self.rden(b) > self.rnum(b) * self.rden(a)
    }

    /// The move of the child with the highest observed win ratio, ties to the
    /// first in scan order; None when there is no child at all.
    pub fn best(&self) -> (r: Option<(u32, u32)>)
        ensures
            match r {
                Option::None => self.nodes@.len() == 0,
                Option::Some(c) => exists|i: int|
                    0 <= i < self.nodes@.len() && c == (
                        (#[trigger] self.nodes@[i]).x,
                        self.nodes@[i].y,
                    ) && (forall|j: int| 0 <= j < self.nodes@.len() ==> !self.ratio_gt(j, i)) && (
                    forall|j: int| 0 <= j < i ==> self.ratio_gt(i, j)),
            },
    {
        if self.nodes.len() == 0 {
            return Option::None;
        }
        let mut bi: usize = 0;
        let mut j: usize = 1;
        while j < self.nodes.len()
            invariant
                1 <= j <= self.nodes@.len(),
                bi < j,
                forall|t: int| 0 <= t < j ==> !self.ratio_gt(t, bi as int),
                forall|t: int| 0 <= t < bi ==> self.ratio_gt(bi as int, t),
            decreases self.nodes@.len() - j,
        {
            let (nj, dj) = if self.nodes[j].plays == 0 {
                (0u32, 1u32)
            } else {
                (self.nodes[j].wins, self.nodes[j].plays)
            };
            let (nb, db) = if self.nodes[bi].plays == 0 {
                (0u32, 1u32)
            } else {
                (self.nodes[bi].wins, self.nodes[bi].plays)
            };
            proof {
                assert(0 <= (nj as int) * (db as int) < 0x1_0000_0000 * 0x1_0000_0000 && 0 <= (
                nb as int) * (dj as int) < 0x1_0000_0000 * 0x1_0000_0000) by (nonlinear_arith)
                    requires
                        0 <= nj < 0x1_0000_0000,
                        0 <= db < 0x1_0000_0000,
                        0 <= nb < 0x1_0000_0000,
                        0 <= dj < 0x1_0000_0000,
                ;
            }
            if (nj as u64) * (db as u64) > (nb as u64) * (dj as u64) {
                proof {
                    assert forall|t: int| 0 <= t < j implies !self.ratio_gt(t, j as int)
                        && self.ratio_gt(j as int, t) by {
                        assert(!self.ratio_gt(t, bi as int));
                        lemma_ratio_trans(
                            self.rnum(t),
                            self.rden(t),
                            self.rnum(bi as int),
                            self.rden(bi as int),
                            self.rnum(j as int),
                            self.rden(j as int),
                        );
                        lemma_ratio_gt_carry(
                            self.rnum(t),
                            self.rden(t),
                            self.rnum(bi as int),
                            self.rden(bi as int),
                            self.rnum(j as int),
                            self.rden(j as int),
                        );
                    }
                }
                bi = j;
            }
            j = j + 1;
        }
        Option::Some((self.nodes[bi].x, self.nodes[bi].y))
    }

    /// The win count of child i as read from orig_player's perspective.
    pub open spec fn rel_wins_at(self, i: int, player: i8, orig_player: i8) -> int {
        if player == orig_player {
            self.nodes@[i].wins as int
        } else {
            self.nodes@[i].plays - self.nodes@[i].wins
        }
    }

    /// The selection score of child i.
    pub open spec fn score_at(self, i: int, player: i8, orig_player: i8) -> int {
        sel_score(self.plays as int, self.nodes@[i].plays as int, self.rel_wins_at(i, player, orig_player))
    }

    /// The child the selection rule picks: the first never-played child if
    /// one exists, else the first child attaining the maximal selection
    /// score, win rates always read from orig_player's perspective.
    fn select_child(&self, player: i8, orig_player: i8) -> (idx: usize)
        requires
            self.wf(),
            self.nodes@.len() >= 1,
            self.plays >= 1,
        ensures
            idx < self.nodes@.len(),
            (exists|i: int| 0 <= i < self.nodes@.len() && (#[trigger] self.nodes@[i]).plays == 0)
                ==> self.nodes@[idx as int].plays == 0 && (forall|i: int|
                0 <= i < idx ==> (#[trigger] self.nodes@[i]).plays != 0),
            (forall|i: int| 0 <= i < self.nodes@.len() ==> (#[trigger] self.nodes@[i]).plays != 0)
                ==> (forall|i: int|
                0 <= i < self.nodes@.len() ==> #[trigger] self.score_at(i, player, orig_player)
                    <= self.score_at(idx as int, player, orig_player)) && (forall|i: int|
                0 <= i < idx ==> #[trigger] self.score_at(i, player, orig_player) < self.score_at(
                    idx as int,
                    player,
                    orig_player,
                )),
    {
        let mut i: usize = 0;
        while i < self.nodes.len()
            invariant
                i <= self.nodes@.len(),
                forall|j: int| 0 <= j < i ==> (#[trigger] self.nodes@[j]).plays != 0,
            decreases self.nodes@.len() - i,
        {
            if self.nodes[i].plays == 0 {
                return i;
            }
            i = i + 1;
        }
        let mut best: usize = 0;
        proof {
            assert(self.nodes@[0].wf());
        }
        let w0 = if player == orig_player {
            self.nodes[0].wins
        } else {
            self.nodes[0].plays - self.nodes[0].wins
        };
        let mut best_score: u128 = score_of(self.plays as u64, self.nodes[0].plays as u64, w0 as u64);
        let mut j: usize = 1;
        while j < self.nodes.len()
            invariant
                self.wf(),
                1 <= j <= self.nodes@.len(),
                best < j,
                forall|t: int| 0 <= t < self.nodes@.len() ==> (#[trigger] self.nodes@[t]).plays != 0,
                self.plays >= 1,
                best_score == self.score_at(best as int, player, orig_player),
                forall|t: int|
                    0 <= t < j ==> #[trigger] self.score_at(t, player, orig_player) <= self.score_at(
                        best as int,
                        player,
                        orig_player,
                    ),
                forall|t: int|
                    0 <= t < best ==> #[trigger] self.score_at(t, player, orig_player)
                        < self.score_at(best as int, player, orig_player),
            decreases self.nodes@.len() - j,
        {
            proof {
                assert(self.nodes@[j as int].wf());
            }
            let wj = if player == orig_player {
                self.nodes[j].wins
            } else {
                self.nodes[j].plays - self.nodes[j].wins
            };
            let sc = score_of(self.plays as u64, self.nodes[j].plays as u64, wj as u64);
            if sc > best_score {
                best = j;
                best_score = sc;
            }
            j = j + 1;
        }
        best
    }
}

impl Board {
    /// A random playout: alternating random candidate moves until one wins or
    /// the empty-cell budget is spent. Every stone placed here is removed
    /// again before returning, so the board ends exactly as it began.
    /// Returns the winner's side (0 for a draw) and the depth reached.
    pub fn rec_random_play(&mut self, player: i8, depth: u32) -> (r: (i8, u32))
        requires
            old(self).wf(),
            player == 1 || player == -1,
        ensures
            final(self).same_state(*old(self)),
            final(self).wf(),
            r.0 == 0 || r.0 == player || r.0 == -player,
            r.1 >= depth,
            // an exhausted empty-cell budget is a draw, reported at once
            (depth as int) + old(self).play_count + 1 >= old(self).shape * old(self).shape
                ==> r.0 == 0 && r.1 == depth,
            // no candidate cell at all is a draw too
            old(self).cand_seq().len() == 0 ==> r.0 == 0 && r.1 == depth,
            // when every candidate completes five in a row, the first placed
            // stone wins, whichever the random draw picks
            ((depth as int) + old(self).play_count + 1 < old(self).shape * old(self).shape
                && old(self).cand_seq().len() > 0 && (forall|i: int|
                0 <= i < old(self).cand_seq().len() ==> old(self).wins_at(
                    player,
                    (#[trigger] old(self).cand_seq()[i]).0 as int,
                    old(self).cand_seq()[i].1 as int,
                ))) ==> r.0 == player && r.1 == depth,
        decreases (old(self).shape * old(self).shape) - old(self).play_count - depth,
    {
        proof {
            assert(self.shape * self.shape <= 46340 * 46340) by (nonlinear_arith)
                requires
                    1 <= self.shape <= 46340,
            ;
        }
        let total: u64 = (self.shape as u64) * (self.shape as u64);
        if (depth as u64) + (self.play_count as u64) + 1 >= total {
            return (0, depth);
        }
        let cands = self.collect_candidates();
        if cands.len() == 0 {
            return (0, depth);
        }
        let pick = rand_index(cands.len());
        let (px, py) = cands[pick];
        proof {
            assert(cands@[pick as int] == old(self).cand_seq()[pick as int]);
        }
        let prev = self.get_at(px, py);
        self.set_at(px, py, player);
        let won = self.define_win(player, px as i32, py as i32);
        proof {
            let ghost osh = old(self).shape as int;
            let ghost olen = old(self).data@.len() as int;
            assert(0 <= (py as int) * osh && (px as int) + (py as int) * osh < olen)
                by (nonlinear_arith)
                requires
                    0 <= px < osh,
                    0 <= py < osh,
                    olen == osh * osh,
            ;
            Board::lemma_wins_at_ignores_probe(*old(self), *self, player, px as int, py as int);
        }
        if won {
            self.set_at(px, py, prev);
            proof {
                assert(0 <= (py as int) * (self.shape as int) && (px as int) + (py as int) * (
                self.shape as int) < self.data@.len()) by (nonlinear_arith)
                    requires
                        0 <= px < self.shape,
                        0 <= py < self.shape,
                        self.data@.len() == self.shape * self.shape,
                ;
                assert(self.data@ =~= old(self).data@);
            }
            return (player, depth);
        }
        let result = self.rec_random_play(-player, depth + 1);
        self.set_at(px, py, prev);
        proof {
            assert(0 <= (py as int) * (self.shape as int) && (px as int) + (py as int) * (
            self.shape as int) < self.data@.len()) by (nonlinear_arith)
                requires
                    0 <= px < self.shape,
                    0 <= py < self.shape,
                    self.data@.len() == self.shape * self.shape,
            ;
            assert(self.data@ =~= old(self).data@);
        }
        (result.0, result.1)
    }
}

/// A ratio strictly above the running maximum is strictly above everything
/// the maximum dominates.
proof fn lemma_ratio_gt_carry(na: int, da: int, nb: int, db: int, nc: int, dc: int)
    requires
        0 <= na,
        1 <= da,
        0 <= nb,
        1 <= db,
        0 <= nc,
        1 <= dc,
        !(na * db > nb * da),
        nc * db > nb * dc,
    ensures
        nc * da > na * dc,
{
    assert(nc * da > na * dc) by (nonlinear_arith)
        requires
            na * db <= nb * da,
            nb * dc < nc * db,
            1 <= da,
            1 <= db,
            1 <= dc,
            0 <= na,
            0 <= nb,
            0 <= nc,
    ;
}

/// Ordering of ratios compared by cross-multiplication carries across a
/// middle element, for nonnegative numerators and positive denominators.
proof fn lemma_ratio_trans(na: int, da: int, nb: int, db: int, nc: int, dc: int)
    requires
        0 <= na,
        1 <= da,
        0 <= nb,
        1 <= db,
        0 <= nc,
        1 <= dc,
        !(na * db > nb * da),
        nc * db > nb * dc,
    ensures
        !(na * dc > nc * da),
{
    assert(na * dc <= nc * da) by (nonlinear_arith)
        requires
            na * db <= nb * da,
            nb * dc < nc * db,
            1 <= da,
            1 <= db,
            1 <= dc,
            0 <= na,
            0 <= nb,
            0 <= nc,
    ;
}

} // verus!

use vstd::prelude::*;

use crate::board::Board;
use crate::heuristic::heur;
use crate::heuristic::lemma_pow10_32;
use crate::rng::rand_index;

verus! {

/// Depth ceiling of the alpha-beta search, in plies.
pub const MINIMAX_DEPTH: u32 = 4;

/// The value of a position holding an immediate win; dominates every
/// heuristic value.
pub const MM_WIN: i128 = 100000000000000000000000000000000000000;

/// Initial alpha/beta bounds: beyond any reachable value.
pub const MM_INF: i128 = 160000000000000000000000000000000000000;

impl Board {
    /// One ply of fixed-depth alpha-beta search over the candidate-move set.
    /// Even depths maximize, odd depths minimize. A candidate that itself
    /// completes five in a row short-circuits to the win value no matter what
    /// alpha and beta hold; at the depth ceiling the heuristic net advantage
    /// stands in for search. An empty candidate set is a draw, reported as
    /// value 0 with no move. Among moves tied at the extremal value the
    /// returned one is drawn uniformly at random. The board ends bit-for-bit
    /// as it began.
    #[verifier::loop_isolation(false)]
    pub fn minimax_step(&mut self, player: i8, depth: u32, alpha: i128, beta: i128) -> (r: (
        i128,
        Option<(u32, u32)>,
    ))
        requires
            old(self).wf(),
            old(self).shape <= 32,
            player == 1 || player == -1,
            depth <= MINIMAX_DEPTH,
        ensures
            final(self).same_state(*old(self)),
            final(self).wf(),
            -MM_WIN <= r.0 <= MM_WIN,
            old(self).cand_seq().len() == 0 ==> r.0 == 0 && r.1 is None,
            (exists|i: int|
                0 <= i < old(self).cand_seq().len() && old(self).wins_at(
                    player,
                    (#[trigger] old(self).cand_seq()[i]).0 as int,
                    old(self).cand_seq()[i].1 as int,
                )) ==> (depth % 2 == 0 ==> r.0 == MM_WIN) && (depth % 2 != 0 ==> r.0 == -MM_WIN)
                && (match r.1 {
                Option::Some(c) => old(self).wins_at(player, c.0 as int, c.1 as int),
                Option::None => false,
            }),
            match r.1 {
                Option::Some(c) => (exists|i: int|
                    0 <= i < old(self).cand_seq().len() && c == #[trigger] old(self).cand_seq()[i])
                    && old(self).in_range(c.0 as int, c.1 as int) && old(self).cell(
                    c.0 as int,
                    c.1 as int,
                ) == 0,
                Option::None => true,
            },
            depth < MINIMAX_DEPTH && old(self).cand_seq().len() > 0 ==> r.1 is Some,
            (depth == MINIMAX_DEPTH && old(self).cand_seq().len() > 0 && (forall|i: int|
                0 <= i < old(self).cand_seq().len() ==> !old(self).wins_at(
                    player,
                    (#[trigger] old(self).cand_seq()[i]).0 as int,
                    old(self).cand_seq()[i].1 as int,
                ))) ==> r.1 is None && (depth % 2 == 0 ==> r.0 == 10 * heur(*old(self), player) - 7
                * heur(*old(self), (-player) as i8)) && (depth % 2 != 0 ==> r.0 == 7 * heur(
                *old(self),
                (-player) as i8,
            ) - 10 * heur(*old(self), player)),
        decreases MINIMAX_DEPTH - depth,
    {
        let cands = self.collect_candidates();
        if cands.len() == 0 {
            return (0, Option::None);
        }
        // a candidate completing five in a row decides this ply outright
        let mut wi: usize = 0;
        while wi < cands.len()
            invariant
                wi <= cands@.len(),
                forall|t: int|
                    0 <= t < wi ==> !self.wins_at(
                        player,
                        (#[trigger] cands@[t]).0 as int,
                        cands@[t].1 as int,
                    ),
            decreases cands@.len() - wi,
        {
            let c = cands[wi];
            if self.define_win(player, c.0 as i32, c.1 as i32) {
                let v: i128 = if depth % 2 == 0 {
                    MM_WIN
                } else {
                    -MM_WIN
                };
                return (v, Option::Some(c));
            }
            wi = wi + 1;
        }
        // the depth ceiling: heuristic net advantage, defender discounted
        if depth == MINIMAX_DEPTH {
            proof {
                lemma_pow10_32();
            }
            let att: i8 = if depth % 2 == 0 {
                player
            } else {
                -player
            };
            let a = self.heuristic_value(att);
            let d = self.heuristic_value(-att);
            let v: i128 = if depth % 2 == 0 {
                10 * (a as i128) - 7 * (d as i128)
            } else {
                7 * (a as i128) - 10 * (d as i128)
            };
            return (v, Option::None);
        }
        let maximizing = depth % 2 == 0;
        let mut best_v: i128 = if maximizing {
            -MM_INF
        } else {
            MM_INF
        };
        let mut ties: Vec<(u32, u32)> = Vec::new();
        let mut al = alpha;
        let mut be = beta;
        let mut ci: usize = 0;
        while ci < cands.len()
            invariant
                ci <= cands@.len(),
                self.same_state(*old(self)),
                self.wf(),
                ci == 0 ==> ties@.len() == 0 && (maximizing ==> best_v == -MM_INF) && (
                !maximizing ==> best_v == MM_INF),
                ci >= 1 ==> ties@.len() >= 1 && -MM_WIN <= best_v <= MM_WIN,
                forall|t: int|
                    0 <= t < ties@.len() ==> exists|i: int|
                        0 <= i < old(self).cand_seq().len() && #[trigger] ties@[t] == old(
                            self,
                        ).cand_seq()[i],
            decreases cands@.len() - ci,
        {
            let c = cands[ci];
            let prev = self.get_at(c.0, c.1);
            self.set_at(c.0, c.1, player);
            let ghost mid = *self;
            let sub = self.minimax_step(-player, depth + 1, al, be);
            self.set_at(c.0, c.1, prev);
            proof {
                let ghost osh = old(self).shape as int;
                let ghost olen = old(self).data@.len() as int;
                assert(0 <= (c.1 as int) * osh && (c.0 as int) + (c.1 as int) * osh < olen)
                    by (nonlinear_arith)
                    requires
                        0 <= c.0 < osh,
                        0 <= c.1 < osh,
                        olen == osh * osh,
                ;
                assert(self.data@ =~= old(self).data@);
            }
            let v = sub.0;
            if maximizing {
                if v > best_v {
                    best_v = v;
                    ties = Vec::new();
                    ties.push(c);
                } else if v == best_v {
                    ties.push(c);
                }
                if best_v > al {
                    al = best_v;
                }
            } else {
                if v < best_v {
                    best_v = v;
                    ties = Vec::new();
                    ties.push(c);
                } else if v == best_v {
                    ties.push(c);
                }
                if best_v < be {
                    be = best_v;
                }
            }
            ci = ci + 1;
            if al >= be {
                let idx = rand_index(ties.len());
                let mv = ties[idx];
                return (best_v, Option::Some(mv));
            }
        }
        let idx = rand_index(ties.len());
        let mv = ties[idx];
        (best_v, Option::Some(mv))
    }

    /// Select a move by fixed-depth alpha-beta search without committing it.
    /// None means the board has no candidate cell at all.
    pub fn do_minimax(&mut self, player: i8) -> (r: Option<(u32, u32)>)
        requires
            old(self).wf(),
            old(self).shape <= 32,
            player == 1 || player == -1,
        ensures
            final(self).same_state(*old(self)),
            final(self).wf(),
            match r {
                Option::None => old(self).cand_seq().len() == 0,
                Option::Some(c) => (exists|i: int|
                    0 <= i < old(self).cand_seq().len() && c == #[trigger] old(self).cand_seq()[i])
                    && old(self).in_range(c.0 as int, c.1 as int) && old(self).cell(
                    c.0 as int,
                    c.1 as int,
                ) == 0,
            },
            // an immediately winning candidate is always the move returned
            (exists|i: int|
                0 <= i < old(self).cand_seq().len() && old(self).wins_at(
                    player,
                    (#[trigger] old(self).cand_seq()[i]).0 as int,
                    old(self).cand_seq()[i].1 as int,
                )) ==> match r {
                Option::Some(c) => old(self).wins_at(player, c.0 as int, c.1 as int),
                Option::None => false,
            },
    {
        let res = self.minimax_step(player, 0, -MM_INF, MM_INF);
        res.1
    }
}

} // verus!

//! Negamax search with a transposition table keyed by the content hash of
//! the position.
//!
//! The table is a heuristic cache: distinct grids may share a hash, and a
//! cached entry searched to at least the requested depth is reused without
//! comparing grids, so a collision can silently lower search quality without
//! corrupting the board. The contracts therefore state what holds of every
//! search: scores stay within the sentinel bounds, the table only ever
//! gains entries and keeps its well-formedness, and a search of a position
//! absent from the table evaluates terminal and depth-zero nodes exactly.

use std::collections::HashMap;
use vstd::prelude::*;
use crate::board::{lemma_drop_preserves_gravity, lemma_gravity_valid, spec_gravity, spec_hash,
    spec_is_valid, Player, State, COLS, MAXIMIZER};
use crate::detect::spec_is_terminal;
use crate::eval::score::spec_evaluate;

verus! {

broadcast use vstd::std_specs::hash::group_hash_axioms;

/// The sentinel magnitude standing in for an unbounded score: the starting
/// alpha and beta bounds, and the value of a node with no moves to explore.
pub const INF_SCORE: i64 = 1_000_000_000;

/// Whether the search may stop exploring a node's remaining children once
/// `alpha` reaches `beta`. Left off: bounds are still computed and recorded,
/// but every child is explored, keeping stored table bounds meaningful at the
/// cost of the pruning speedup.
pub const ALPHA_BETA_CUTOFF: bool = false;

/// How a stored score bounds the true score of the position it was stored
/// for: exactly, from below, or from above.
#[allow(non_camel_case_types)]
#[derive(Clone, Copy, PartialEq, Eq, Structural, Debug)]
pub enum TranspositionFlag {
    EXACT,
    LOWERBOUND,
    UPPERBOUND,
}

/// A cached search result: the score found, the depth it was searched to,
/// and how the score bounds the true value.
pub struct TranspositionEntry {
    pub eval: i64,
    pub depth: usize,
    pub flag: TranspositionFlag,
}

/// The key of the transposition table: a content hash of the grid.
pub type TranspositionKey = u64;

/// The transposition table: content hash to cached search result.
pub type TranspositionTable = HashMap<TranspositionKey, TranspositionEntry>;

/// A stored score never exceeds the sentinel bounds.
pub open spec fn entry_wf(e: TranspositionEntry) -> bool {
    -INF_SCORE <= e.eval <= INF_SCORE
}

/// Every entry of the table is well-formed.
pub open spec fn tt_wf(m: Map<TranspositionKey, TranspositionEntry>) -> bool {
    forall|k: TranspositionKey| #[trigger] m.contains_key(k) ==> entry_wf(m[k])
}

/// Every entry of the table holds a finite score: one strictly inside the
/// sentinel bounds. Searches of gravity-respecting positions keep this.
pub open spec fn tt_finite(m: Map<TranspositionKey, TranspositionEntry>) -> bool {
    forall|k: TranspositionKey| #[trigger] m.contains_key(k) ==> -INF_SCORE < m[k].eval < INF_SCORE
}

/// The table key of a grid.
pub open spec fn spec_hash_key(g: Seq<Seq<crate::board::Cell>>) -> TranspositionKey {
    spec_hash(g) as u64
}

/// Stores a search result in the table, preserving its well-formedness.
fn tt_store(tt: &mut TranspositionTable, h: TranspositionKey, eval: i64, depth: usize,
    flag: TranspositionFlag)
    requires
        tt_wf(old(tt)@),
        -INF_SCORE <= eval <= INF_SCORE,
    ensures
        tt_wf(final(tt)@),
        forall|k: TranspositionKey| old(tt)@.contains_key(k) ==> final(tt)@.contains_key(k),
        tt_finite(old(tt)@) && -INF_SCORE < eval < INF_SCORE ==> tt_finite(final(tt)@),
{
    let ghost tt0 = tt@;
    tt.insert(h, TranspositionEntry { eval, depth, flag });
    proof {
        assert forall|k: TranspositionKey| #[trigger] tt@.contains_key(k) implies entry_wf(
            tt@[k],
        ) by {
            if k != h {
                assert(tt0.contains_key(k));
                assert(tt@[k] == tt0[k]);
            }
        }
        if tt_finite(tt0) && -INF_SCORE < eval < INF_SCORE {
            assert forall|k: TranspositionKey| #[trigger] tt@.contains_key(k) implies -INF_SCORE
                < tt@[k].eval < INF_SCORE by {
                if k != h {
                    assert(tt0.contains_key(k));
                    assert(tt@[k] == tt0[k]);
                }
            }
        }
    }
}

impl State {
    /// Scores this position for the player to move by searching the game
    /// tree `depth` plies deep, reusing and filling the transposition table.
    ///
    /// Alpha-beta bounds are tightened from cached entries and recorded in
    /// stored ones, but the early cutoff is governed by `ALPHA_BETA_CUTOFF`
    /// and off by default: every child is explored.
    #[verifier::rlimit(100)]
    pub fn negamax(&self, depth: usize, tt: &mut TranspositionTable, alpha: i64, beta: i64) -> (r:
        i64)
        requires
            self.wf(),
            tt_wf(old(tt)@),
            -INF_SCORE <= alpha <= INF_SCORE,
            -INF_SCORE <= beta <= INF_SCORE,
        ensures
            tt_wf(final(tt)@),
            -INF_SCORE <= r <= INF_SCORE,
            forall|k: TranspositionKey| old(tt)@.contains_key(k) ==> final(tt)@.contains_key(k),
            (depth == 0 || spec_is_terminal(self.grid())) && (old(tt)@.contains_key(
                spec_hash_key(self.grid()),
            ) ==> old(tt)@[spec_hash_key(self.grid())].depth < depth) ==> r == spec_evaluate(
                self.grid(),
            ) && final(tt)@ == old(tt)@,
            ({
                let h = spec_hash_key(self.grid());
                old(tt)@.contains_key(h) && old(tt)@[h].depth >= depth && old(tt)@[h].flag
                    == TranspositionFlag::EXACT
            }) ==> r == old(tt)@[spec_hash_key(self.grid())].eval && final(tt)@ == old(tt)@,
            spec_gravity(self.grid()) && tt_finite(old(tt)@) ==> tt_finite(final(tt)@) && -INF_SCORE
                < r < INF_SCORE,
        decreases depth,
    {
        let ghost g = self.grid();
        let ghost tt0 = tt@;
        let mut alpha = alpha;
        let mut beta = beta;
        let alpha_original = alpha;

        let h = self.hash_value();
        proof {
            assert(h == spec_hash_key(g));
        }
        let mut have_entry = false;
        let mut entry_eval: i64 = 0;
        let mut entry_depth: usize = 0;
        let mut entry_flag = TranspositionFlag::EXACT;
        match tt.get(&h) {
            Some(e) => {
                have_entry = true;
                entry_eval = e.eval;
                entry_depth = e.depth;
                entry_flag = e.flag;
            },
            None => {},
        }
        proof {
            if have_entry {
                assert(tt@.contains_key(h));
                assert(entry_wf(tt@[h]));
            } else {
                assert(!tt@.contains_key(h));
            }
        }
        if have_entry && entry_depth >= depth {
            match entry_flag {
                TranspositionFlag::EXACT => {
                    return entry_eval;
                },
                TranspositionFlag::LOWERBOUND => {
                    if entry_eval > alpha {
                        alpha = entry_eval;
                    }
                },
                TranspositionFlag::UPPERBOUND => {
                    if entry_eval < beta {
                        beta = entry_eval;
                    }
                },
            }
            if alpha >= beta {
                return entry_eval;
            }
        }

        if depth == 0 || self.is_terminal() {
            return self.evaluate();
        }

        let valid = self.get_valid();
        let player = self.player();
        let mut value: i64 = -INF_SCORE;
        let mut i: usize = 0;
        while i < valid.len() && !(ALPHA_BETA_CUTOFF && alpha >= beta)
            invariant
                self.wf(),
                g == self.grid(),
                depth >= 1,
                i <= valid@.len(),
                forall|j: int|
                    0 <= j < valid@.len() ==> spec_is_valid(g, #[trigger] valid@[j] as int),
                tt_wf(tt@),
                -INF_SCORE <= value <= INF_SCORE,
                -INF_SCORE <= alpha <= INF_SCORE,
                -INF_SCORE <= beta <= INF_SCORE,
                forall|k: TranspositionKey| tt0.contains_key(k) ==> tt@.contains_key(k),
                i == 0 ==> value == -INF_SCORE,
                spec_gravity(g) && tt_finite(tt0) ==> tt_finite(tt@),
                spec_gravity(g) && tt_finite(tt0) && i > 0 ==> -INF_SCORE < value < INF_SCORE,
            decreases valid@.len() - i,
        {
            let column = valid[i];
            let child = self.dropped(column, player);
            proof {
                if spec_gravity(g) {
                    lemma_drop_preserves_gravity(g, column as int, player);
                }
            }
            let ghost tt_pre = tt@;
            let score_raw = child.negamax(depth - 1, tt, -beta, -alpha);
            proof {
                if spec_gravity(g) && tt_finite(tt0) {
                    assert(spec_gravity(child.grid()));
                    assert(tt_finite(tt_pre));
                    assert(-INF_SCORE < score_raw < INF_SCORE);
                    assert(tt_finite(tt@));
                }
            }
            let score = -score_raw;
            if score > value {
                value = score;
            }
            if value > alpha {
                alpha = value;
            }
            i += 1;
        }
        proof {
            if spec_gravity(g) && tt_finite(tt0) {
                assert(!crate::board::spec_is_full(g));
                lemma_gravity_valid(g);
                let c = choose|c: int| #[trigger] spec_is_valid(g, c);
                assert(0 <= c < COLS);
                assert(valid@.contains(c as usize));
                assert(valid@.len() > 0);
                assert(i > 0);
            }
        }

        let flag = if value <= alpha_original {
            TranspositionFlag::UPPERBOUND
        } else if value >= beta {
            TranspositionFlag::LOWERBOUND
        } else {
            TranspositionFlag::EXACT
        };
        tt_store(tt, h, value, depth, flag);
        value
    }

    /// Picks the valid column whose child position scores best for `player`:
    /// the maximum score for the maximizer, the minimum for the minimizer.
    /// Returns `None` exactly when no column accepts a piece, provided the
    /// position respects gravity and the table holds only finite scores; on
    /// a board with no valid column it always returns `None`.
    #[verifier::rlimit(100)]
    pub fn best(&self, depth: usize, player: Player, tt: &mut TranspositionTable) -> (r: Option<
        usize,
    >)
        requires
            self.wf(),
            tt_wf(old(tt)@),
        ensures
            tt_wf(final(tt)@),
            match r {
                Some(c) => spec_is_valid(self.grid(), c as int),
                None => true,
            },
            (forall|c: int| !#[trigger] spec_is_valid(self.grid(), c)) ==> r is None,
            spec_gravity(self.grid()) && tt_finite(old(tt)@) && (exists|c: int|
                #[trigger] spec_is_valid(self.grid(), c)) ==> r is Some,
    {
        let ghost g = self.grid();
        let ghost tt0 = tt@;
        let valid = self.get_valid();
        proof {
            if exists|c: int| #[trigger] spec_is_valid(g, c) {
                let c = choose|c: int| #[trigger] spec_is_valid(g, c);
                assert(valid@.contains(c as usize));
                assert(valid@.len() > 0);
            }
        }
        let is_max = player.is_maximizer();
        let mut best_eval: i64 = if is_max {
            -INF_SCORE
        } else {
            INF_SCORE
        };
        let mut best_column: Option<usize> = None;
        let mut i: usize = 0;
        while i < valid.len()
            invariant
                self.wf(),
                g == self.grid(),
                i <= valid@.len(),
                forall|j: int|
                    0 <= j < valid@.len() ==> spec_is_valid(g, #[trigger] valid@[j] as int),
                tt_wf(tt@),
                is_max == (player == MAXIMIZER),
                -INF_SCORE <= best_eval <= INF_SCORE,
                match best_column {
                    Some(c) => spec_is_valid(g, c as int),
                    None => true,
                },
                i == 0 ==> best_column is None,
                best_column is None && is_max ==> best_eval == -INF_SCORE,
                best_column is None && !is_max ==> best_eval == INF_SCORE,
                spec_gravity(g) && tt_finite(tt0) ==> tt_finite(tt@),
                spec_gravity(g) && tt_finite(tt0) && i > 0 ==> best_column is Some,
            decreases valid@.len() - i,
        {
            let column = valid[i];
            let child = self.dropped(column, player);
            proof {
                if spec_gravity(g) {
                    lemma_drop_preserves_gravity(g, column as int, player);
                }
            }
            let ghost tt_pre = tt@;
            let score = child.negamax(depth, tt, -INF_SCORE, INF_SCORE);
            proof {
                if spec_gravity(g) && tt_finite(tt0) {
                    assert(spec_gravity(child.grid()));
                    assert(tt_finite(tt_pre));
                    assert(-INF_SCORE < score < INF_SCORE);
                    assert(tt_finite(tt@));
                }
            }
            if (is_max && score > best_eval) || (!is_max && score < best_eval) {
                best_eval = score;
                best_column = Some(column);
            }
            i += 1;
        }
        proof {
            if forall|c: int| !#[trigger] spec_is_valid(g, c) {
                if valid@.len() > 0 {
                    assert(spec_is_valid(g, valid@[0] as int));
                    assert(false);
                }
            }
        }
        best_column
    }
}

} // verus!


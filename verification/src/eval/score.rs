//! Static evaluation: terminal states score a fixed win, loss or draw value;
//! other states score the maximizer's runs by positional weight and an
//! exponential streak bonus.
//!
//! Scores are fixed-point integers with `SCORE_SCALE` units per point, so the
//! positional weight factor of one fifth of a point is exactly one unit.

use vstd::prelude::*;
use crate::board::{spec_is_full, spec_player_of, Cell, Player, State, COLS, MAXIMIZER, MINIMIZER,
    ROWS};
use crate::detect::{is_max_run, run_cells_in_bounds, seqs_view, sequences_all, sorted_run,
    sorted_runs, spec_has_line};

verus! {

/// Score units per point of the weighting scheme.
pub const SCORE_SCALE: i64 = 5;

/// The score of a won position, from the winner's perspective.
pub const WIN_SCORE: i64 = 500;

/// An upper bound on the magnitude of any static evaluation.
pub const EVAL_BOUND: i64 = 7_000_000;

/// The positional weight of a cell: a fixed table peaking at the center.
pub open spec fn spec_weight(r: int, c: int) -> int {
    if r == 0 {
        if c == 0 || c == 1 || c == 5 || c == 6 {
            1
        } else {
            2
        }
    } else if r == 1 {
        if c == 0 || c == 6 {
            1
        } else if c == 1 || c == 5 {
            2
        } else {
            3
        }
    } else if r == 2 || r == 4 {
        if c == 0 || c == 6 {
            1
        } else if c == 1 || c == 5 {
            2
        } else if c == 2 || c == 4 {
            3
        } else {
            4
        }
    } else if r == 3 {
        if c == 0 || c == 6 {
            1
        } else if c == 1 || c == 5 {
            3
        } else if c == 2 || c == 4 {
            4
        } else {
            5
        }
    } else {
        if c == 0 || c == 1 || c == 5 || c == 6 {
            1
        } else if c == 2 || c == 4 {
            2
        } else {
            3
        }
    }
}

/// The positional weight of a cell.
fn weight(row: usize, col: usize) -> (w: i64)
    requires
        row < ROWS,
        col < COLS,
    ensures
        w == spec_weight(row as int, col as int),
        1 <= w <= 5,
{
    if row == 0 {
        if col == 0 || col == 1 || col == 5 || col == 6 {
            1
        } else {
            2
        }
    } else if row == 1 {
        if col == 0 || col == 6 {
            1
        } else if col == 1 || col == 5 {
            2
        } else {
            3
        }
    } else if row == 2 || row == 4 {
        if col == 0 || col == 6 {
            1
        } else if col == 1 || col == 5 {
            2
        } else if col == 2 || col == 4 {
            3
        } else {
            4
        }
    } else if row == 3 {
        if col == 0 || col == 6 {
            1
        } else if col == 1 || col == 5 {
            3
        } else if col == 2 || col == 4 {
            4
        } else {
            5
        }
    } else {
        if col == 0 || col == 1 || col == 5 || col == 6 {
            1
        } else if col == 2 || col == 4 {
            2
        } else {
            3
        }
    }
}

/// Two to the power `n`.
pub open spec fn two_pow(n: nat) -> nat
    decreases n,
{
    if n == 0 {
        1
    } else {
        2 * two_pow((n - 1) as nat)
    }
}

/// `two_pow` grows monotonically.
proof fn lemma_two_pow_mono(a: nat, b: nat)
    requires
        a <= b,
    ensures
        two_pow(a) <= two_pow(b),
    decreases b,
{
    if a < b {
        lemma_two_pow_mono(a, (b - 1) as nat);
    }
}

/// The exponential streak bonus of a run of length `len`, in points.
fn evaluate_streak(len: usize) -> (r: i64)
    requires
        len <= 13,
    ensures
        r as nat == two_pow(len as nat),
        1 <= r <= 8192,
{
    proof {
        assert(two_pow(13) == 8192) by {
            reveal_with_fuel(two_pow, 14);
        }
    }
    let mut acc: i64 = 1;
    let mut j: usize = 0;
    while j < len
        invariant
            j <= len,
            len <= 13,
            acc as nat == two_pow(j as nat),
            1 <= acc <= 8192,
            two_pow(13) == 8192,
        decreases len - j,
    {
        proof {
            lemma_two_pow_mono(j as nat + 1, 13);
        }
        acc = acc * 2;
        j += 1;
    }
    proof {
        lemma_two_pow_mono(len as nat, 13);
    }
    acc
}

/// The summed positional weight of a run's cells, in score units.
pub open spec fn spec_cells_weight(s: Seq<(usize, usize)>) -> int
    decreases s.len(),
{
    if s.len() == 0 {
        0
    } else {
        spec_cells_weight(s.drop_last()) + spec_weight(s.last().0 as int, s.last().1 as int)
    }
}

/// The score of one run: its cells' weights plus the streak bonus.
pub open spec fn spec_run_score(s: Seq<(usize, usize)>) -> int {
    spec_cells_weight(s) + SCORE_SCALE * two_pow(s.len())
}

/// The summed score of a list of runs.
pub open spec fn spec_runs_score(v: Seq<Seq<(usize, usize)>>) -> int
    decreases v.len(),
{
    if v.len() == 0 {
        0
    } else {
        spec_runs_score(v.drop_last()) + spec_run_score(v.last())
    }
}

/// The cell weights of an in-bounds run sum to between its length and five
/// times its length.
proof fn lemma_cells_weight_bound(s: Seq<(usize, usize)>)
    requires
        run_cells_in_bounds(s),
    ensures
        s.len() <= spec_cells_weight(s) <= 5 * s.len(),
    decreases s.len(),
{
    if s.len() > 0 {
        assert(run_cells_in_bounds(s.drop_last()));
        lemma_cells_weight_bound(s.drop_last());
    }
}

/// True iff `v` is the canonical list of `p`'s maximal runs: sorted, free of
/// duplicates, holding exactly the maximal runs of length at least two.
pub open spec fn is_run_list(g: Seq<Seq<Cell>>, p: Player, v: Seq<Seq<(usize, usize)>>) -> bool {
    &&& sorted_runs(v)
    &&& forall|s: Seq<(usize, usize)>| (#[trigger] v.contains(s)) <==> is_max_run(g, p, s)
}

/// The canonical list of `p`'s maximal runs, as a pure function of the grid.
pub open spec fn all_runs(g: Seq<Seq<Cell>>, p: Player) -> Seq<Seq<(usize, usize)>> {
    choose|v: Seq<Seq<(usize, usize)>>| is_run_list(g, p, v)
}

/// A witness pins the canonical run list down: any sorted list holding
/// exactly the maximal runs equals `all_runs`.
pub proof fn lemma_all_runs_eq(g: Seq<Seq<Cell>>, p: Player, v: Seq<Seq<(usize, usize)>>)
    requires
        is_run_list(g, p, v),
    ensures
        all_runs(g, p) == v,
{
    assert(exists|w: Seq<Seq<(usize, usize)>>| is_run_list(g, p, w));
    let w = all_runs(g, p);
    assert(is_run_list(g, p, w));
    crate::detect::lemma_sorted_runs_unique(w, v);
}

/// The static evaluation of a grid, in score units, from the perspective of
/// the player about to move: a win for the mover scores `WIN_SCORE`, a win
/// for the opponent `-WIN_SCORE`, a full drawn board zero, and any other grid
/// the maximizer's runs by positional weight and streak bonus.
pub open spec fn spec_evaluate(g: Seq<Seq<Cell>>) -> int {
    if spec_has_line(g, MAXIMIZER) {
        if spec_player_of(g) == MAXIMIZER {
            WIN_SCORE as int
        } else {
            -(WIN_SCORE as int)
        }
    } else if spec_has_line(g, MINIMIZER) {
        if spec_player_of(g) == MINIMIZER {
            WIN_SCORE as int
        } else {
            -(WIN_SCORE as int)
        }
    } else if spec_is_full(g) {
        0
    } else {
        spec_runs_score(all_runs(g, MAXIMIZER))
    }
}

impl State {
    /// Returns the static evaluation of the state: exactly `WIN_SCORE` when
    /// the player about to move has a line of four, exactly `-WIN_SCORE` when
    /// the opponent has one, and exactly zero for a full drawn board.
    ///
    /// Any other state scores the maximizer's runs by positional weight and
    /// streak bonus. Note the convention: the terminal branches are relative
    /// to the player about to move, while the heuristic branch is from the
    /// maximizer's absolute perspective and is not re-signed for the
    /// minimizer's turns.
    pub fn evaluate(&self) -> (r: i64)
        requires
            self.wf(),
        ensures
            r == spec_evaluate(self.grid()),
            -WIN_SCORE <= r <= EVAL_BOUND,
    {
        let ghost g = self.grid();
        let winner = crate::detect::get_winner(self);
        match winner {
            Some(p) => {
                if p.is_maximizer() {
                    let me = self.player();
                    return if me.is_maximizer() {
                        WIN_SCORE
                    } else {
                        -WIN_SCORE
                    };
                } else {
                    let me = self.player();
                    return if me.is_minimizer() {
                        WIN_SCORE
                    } else {
                        -WIN_SCORE
                    };
                }
            },
            None => {},
        }
        if self.is_full() {
            return 0;
        }
        let seqs = sequences_all(self, MAXIMIZER);
        let ghost v = seqs_view(seqs@);
        proof {
            assert(is_run_list(g, MAXIMIZER, v));
            lemma_all_runs_eq(g, MAXIMIZER, v);
            assert(v.subrange(0, 0) =~= Seq::<Seq<(usize, usize)>>::empty());
        }
        let mut score: i64 = 0;
        let mut i: usize = 0;
        while i < seqs.len()
            invariant
                i <= seqs@.len(),
                v == seqs_view(seqs@),
                seqs@.len() <= 168,
                forall|j: int|
                    0 <= j < v.len() ==> sorted_run(#[trigger] v[j]) && 2 <= v[j].len() <= 13
                        && run_cells_in_bounds(v[j]),
                score == spec_runs_score(v.subrange(0, i as int)),
                0 <= score <= 41025 * i,
            decreases seqs@.len() - i,
        {
            let run = &seqs[i];
            let ghost s = v[i as int];
            proof {
                assert(s == run@);
                assert(s.subrange(0, 0) =~= Seq::<(usize, usize)>::empty());
            }
            let mut w: i64 = 0;
            let mut j: usize = 0;
            while j < run.len()
                invariant
                    j <= run@.len(),
                    s == run@,
                    run_cells_in_bounds(s),
                    s.len() <= 13,
                    w == spec_cells_weight(s.subrange(0, j as int)),
                    0 <= w <= 5 * j,
                decreases run@.len() - j,
            {
                let cell = run[j];
                w += weight(cell.0, cell.1);
                proof {
                    assert(s.subrange(0, j + 1).drop_last() =~= s.subrange(0, j as int));
                    assert(s.subrange(0, j + 1).last() == s[j as int]);
                }
                j += 1;
            }
            proof {
                assert(s.subrange(0, s.len() as int) =~= s);
            }
            let streak = evaluate_streak(run.len());
            let bonus = SCORE_SCALE * streak;
            score += w;
            score += bonus;
            proof {
                assert(v.subrange(0, i + 1).drop_last() =~= v.subrange(0, i as int));
                assert(v.subrange(0, i + 1).last() == v[i as int]);
            }
            i += 1;
        }
        proof {
            assert(v.subrange(0, v.len() as int) =~= v);
        }
        score
    }
}

} // verus!

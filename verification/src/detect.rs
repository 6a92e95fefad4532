//! Line detection: maximal same-player runs along the four board axes,
//! used both for win detection and for heuristic feature extraction.

use vstd::prelude::*;
use crate::board::{Cell, Player, State, COLS, ROWS};

verus! {

/// The four axis directions searched for runs, as `(row step, column step)`
/// pairs: right, down, down-right, down-left.
pub const DIRECTIONS: [(i32, i32); 4] = [(0, 1), (1, 0), (1, 1), (1, -1)];

/// The run length needed to win.
pub const WIN_LENGTH: usize = 4;

/// A step direction on the grid.
pub type Direction = (i32, i32);

/// A run of positions, each a `(row, column)` pair.
pub type Sequence = Vec<(usize, usize)>;

/// The canonical axis direction with the given index.
pub open spec fn dir_of(k: int) -> (int, int) {
    if k == 0 {
        (0, 1)
    } else if k == 1 {
        (1, 0)
    } else if k == 2 {
        (1, 1)
    } else {
        (1, -1)
    }
}

/// A unit step direction: both components in {-1, 0, 1}, not both zero.
pub open spec fn valid_direction(d: (int, int)) -> bool {
    &&& -1 <= d.0 <= 1
    &&& -1 <= d.1 <= 1
    &&& !(d.0 == 0 && d.1 == 0)
}

/// True iff `(r, c)` is on the board and holds a piece of `p`.
pub open spec fn player_at(g: Seq<Seq<Cell>>, p: Player, r: int, c: int) -> bool {
    &&& 0 <= r < ROWS
    &&& 0 <= c < COLS
    &&& g[r][c] == (Cell::Player { player: p })
}

/// Upper bound on the number of steps a walk from `(r, c)` in direction
/// `(dr, dc)` can take before leaving the board.
pub open spec fn dir_measure(r: int, c: int, dr: int, dc: int) -> int {
    if dr > 0 {
        ROWS - r
    } else if dr < 0 {
        r + 1
    } else if dc > 0 {
        COLS - c
    } else {
        c + 1
    }
}

/// The chain of contiguous same-player positions starting at `(r, c)` and
/// walking in direction `(dr, dc)`, in walking order.
pub open spec fn dir_run(g: Seq<Seq<Cell>>, p: Player, r: int, c: int, dr: int, dc: int) -> Seq<
    (usize, usize),
>
    decreases dir_measure(r, c, dr, dc),
{
    if !valid_direction((dr, dc)) || !player_at(g, p, r, c) {
        Seq::empty()
    } else {
        seq![(r as usize, c as usize)] + dir_run(g, p, r + dr, c + dc, dr, dc)
    }
}

/// True iff `q` lies one step from `p` in direction `(dr, dc)`.
pub open spec fn pos_step(p: (usize, usize), q: (usize, usize), dr: int, dc: int) -> bool {
    &&& q.0 == p.0 + dr
    &&& q.1 == p.1 + dc
}

/// Characterizes a directed run: it starts at its anchor, every position
/// holds a piece of the player, consecutive positions step by the direction,
/// and an anchor owned by the player yields a non-empty run.
pub proof fn lemma_dir_run_props(g: Seq<Seq<Cell>>, p: Player, r: int, c: int, dr: int, dc: int)
    ensures
        dir_run(g, p, r, c, dr, dc).len() > 0 ==> player_at(g, p, r, c) && dir_run(
            g,
            p,
            r,
            c,
            dr,
            dc,
        )[0] == ((r as usize, c as usize)),
        valid_direction((dr, dc)) && player_at(g, p, r, c) ==> dir_run(g, p, r, c, dr, dc).len()
            > 0,
        forall|i: int|
            0 <= i < dir_run(g, p, r, c, dr, dc).len() ==> player_at(
                g,
                p,
                (#[trigger] dir_run(g, p, r, c, dr, dc)[i]).0 as int,
                dir_run(g, p, r, c, dr, dc)[i].1 as int,
            ),
        forall|i: int|
            0 <= i < dir_run(g, p, r, c, dr, dc).len() - 1 ==> pos_step(
                #[trigger] dir_run(g, p, r, c, dr, dc)[i],
                dir_run(g, p, r, c, dr, dc)[i + 1],
                dr,
                dc,
            ),
    decreases dir_measure(r, c, dr, dc),
{
    let s = dir_run(g, p, r, c, dr, dc);
    if valid_direction((dr, dc)) && player_at(g, p, r, c) {
        let rest = dir_run(g, p, r + dr, c + dc, dr, dc);
        lemma_dir_run_props(g, p, r + dr, c + dc, dr, dc);
        assert(forall|i: int| 0 <= i < rest.len() ==> s[i + 1] == #[trigger] rest[i]);
    }
}

/// A directed run never takes more steps than its distance to the board edge.
pub proof fn lemma_dir_run_len(g: Seq<Seq<Cell>>, p: Player, r: int, c: int, dr: int, dc: int)
    ensures
        valid_direction((dr, dc)) && player_at(g, p, r, c) ==> dir_run(g, p, r, c, dr, dc).len()
            <= dir_measure(r, c, dr, dc),
        dir_run(g, p, r, c, dr, dc).len() <= 7,
    decreases dir_measure(r, c, dr, dc),
{
    if valid_direction((dr, dc)) && player_at(g, p, r, c) {
        lemma_dir_run_len(g, p, r + dr, c + dc, dr, dc);
    }
}

/// The maximal run of `p`'s pieces through `(r, c)` along axis `k`, in
/// canonical (position-sorted) order: the walk away from the axis direction,
/// reversed, followed by the walk along the axis direction without its anchor.
pub open spec fn axis_run(g: Seq<Seq<Cell>>, p: Player, r: int, c: int, k: int) -> Seq<
    (usize, usize),
> {
    if !player_at(g, p, r, c) {
        Seq::empty()
    } else {
        let d = dir_of(k);
        dir_run(g, p, r, c, -d.0, -d.1).reverse() + dir_run(g, p, r, c, d.0, d.1).drop_first()
    }
}

/// In a list of positions, every consecutive pair steps by a downward or
/// rightward direction; hence the list is strictly position-sorted.
proof fn lemma_step_sorted(s: Seq<(usize, usize)>, dr: int, dc: int)
    requires
        dr > 0 || (dr == 0 && dc > 0),
        forall|i: int| 0 <= i < s.len() - 1 ==> pos_step(#[trigger] s[i], s[i + 1], dr, dc),
    ensures
        sorted_run(s),
    decreases s.len(),
{
    if s.len() > 1 {
        let rest = s.drop_first();
        assert forall|i: int| 0 <= i < rest.len() - 1 implies pos_step(
            #[trigger] rest[i],
            rest[i + 1],
            dr,
            dc,
        ) by {
            assert(rest[i] == s[i + 1]);
            assert(rest[i + 1] == s[i + 2]);
        }
        lemma_step_sorted(rest, dr, dc);
        assert forall|i: int, j: int| 0 <= i < j < s.len() implies pos_lt(
            #[trigger] s[i],
            #[trigger] s[j],
        ) by {
            if i == 0 {
                assert(pos_step(s[0], s[1], dr, dc));
                if j > 1 {
                    assert(rest[0] == s[1]);
                    assert(rest[j - 1] == s[j]);
                    assert(pos_lt(rest[0], rest[j - 1]));
                }
            } else {
                assert(rest[i - 1] == s[i]);
                assert(rest[j - 1] == s[j]);
                assert(pos_lt(rest[i - 1], rest[j - 1]));
            }
        }
    }
}

/// Characterizes an axis run: all positions hold the player's pieces, the
/// run is strictly position-sorted, consecutive positions step by the axis
/// direction, and an anchored run contains its anchor.
pub proof fn lemma_axis_run_props(g: Seq<Seq<Cell>>, p: Player, r: int, c: int, k: int)
    requires
        0 <= k < 4,
    ensures
        sorted_run(axis_run(g, p, r, c, k)),
        forall|i: int|
            0 <= i < axis_run(g, p, r, c, k).len() ==> player_at(
                g,
                p,
                (#[trigger] axis_run(g, p, r, c, k)[i]).0 as int,
                axis_run(g, p, r, c, k)[i].1 as int,
            ),
        forall|i: int|
            0 <= i < axis_run(g, p, r, c, k).len() - 1 ==> pos_step(
                #[trigger] axis_run(g, p, r, c, k)[i],
                axis_run(g, p, r, c, k)[i + 1],
                dir_of(k).0,
                dir_of(k).1,
            ),
        player_at(g, p, r, c) ==> 1 <= axis_run(g, p, r, c, k).len() <= 13 && axis_run(
            g,
            p,
            r,
            c,
            k,
        ).contains(((r as usize, c as usize))),
        !player_at(g, p, r, c) ==> axis_run(g, p, r, c, k).len() == 0,
        axis_run(g, p, r, c, k).len() <= 13,
        player_at(g, p, r, c) ==> axis_run(g, p, r, c, k).len() + 1 == dir_run(
            g,
            p,
            r,
            c,
            -dir_of(k).0,
            -dir_of(k).1,
        ).len() + dir_run(g, p, r, c, dir_of(k).0, dir_of(k).1).len(),
{
    let s = axis_run(g, p, r, c, k);
    let dr = dir_of(k).0;
    let dc = dir_of(k).1;
    if player_at(g, p, r, c) {
        let back = dir_run(g, p, r, c, -dr, -dc);
        let fwd = dir_run(g, p, r, c, dr, dc);
        lemma_dir_run_props(g, p, r, c, -dr, -dc);
        lemma_dir_run_props(g, p, r, c, dr, dc);
        lemma_dir_run_len(g, p, r, c, -dr, -dc);
        lemma_dir_run_len(g, p, r, c, dr, dc);
        let rev = back.reverse();
        let n = back.len() as int;
        assert(forall|i: int| 0 <= i < n ==> #[trigger] rev[i] == back[n - 1 - i]);
        assert(s == rev + fwd.drop_first());
        assert(s.len() == n + fwd.len() - 1);
        assert(rev[n - 1] == back[0]);
        assert(back[0] == ((r as usize, c as usize)));
        assert(s[n - 1] == ((r as usize, c as usize)));
        assert(s.contains(((r as usize, c as usize))));
        // every position of the combined run is owned by the player
        assert forall|i: int| 0 <= i < s.len() implies player_at(
            g,
            p,
            (#[trigger] s[i]).0 as int,
            s[i].1 as int,
        ) by {
            if i < n {
                assert(s[i] == back[n - 1 - i]);
            } else {
                assert(s[i] == fwd.drop_first()[i - n]);
                assert(fwd.drop_first()[i - n] == fwd[i - n + 1]);
            }
        }
        // consecutive positions step by the axis direction
        assert forall|i: int| 0 <= i < s.len() - 1 implies pos_step(
            #[trigger] s[i],
            s[i + 1],
            dr,
            dc,
        ) by {
            if i + 1 < n {
                assert(s[i] == back[n - 1 - i]);
                assert(s[i + 1] == back[n - 2 - i]);
                assert(pos_step(back[n - 2 - i], back[n - 1 - i], -dr, -dc));
            } else if i == n - 1 {
                assert(s[i] == back[0]);
                assert(s[i + 1] == fwd.drop_first()[0]);
                assert(fwd.drop_first()[0] == fwd[1]);
                assert(pos_step(fwd[0], fwd[1], dr, dc));
                assert(fwd[0] == ((r as usize, c as usize)));
            } else {
                assert(s[i] == fwd[i - n + 1]);
                assert(s[i + 1] == fwd[i - n + 2]);
                assert(pos_step(fwd[i - n + 1], fwd[i - n + 2], dr, dc));
            }
        }
        lemma_step_sorted(s, dr, dc);
    }
}

/// Position order: by row, then by column.
pub open spec fn pos_lt(a: (usize, usize), b: (usize, usize)) -> bool {
    ||| a.0 < b.0
    ||| (a.0 == b.0 && a.1 < b.1)
}

/// Lexicographic order on runs of positions; a strict prefix comes first.
pub open spec fn seq_lt(a: Seq<(usize, usize)>, b: Seq<(usize, usize)>) -> bool
    decreases a.len(),
{
    if b.len() == 0 {
        false
    } else if a.len() == 0 {
        true
    } else if pos_lt(a.first(), b.first()) {
        true
    } else if a.first() == b.first() {
        seq_lt(a.drop_first(), b.drop_first())
    } else {
        false
    }
}

/// A run sorted strictly by position order.
pub open spec fn sorted_run(s: Seq<(usize, usize)>) -> bool {
    forall|i: int, j: int| 0 <= i < j < s.len() ==> pos_lt(#[trigger] s[i], #[trigger] s[j])
}

/// The views of a list of runs.
pub open spec fn seqs_view(v: Seq<Sequence>) -> Seq<Seq<(usize, usize)>> {
    v.map_values(|x: Sequence| x@)
}

/// A list of runs sorted strictly by run order.
pub open spec fn sorted_runs(v: Seq<Seq<(usize, usize)>>) -> bool {
    forall|i: int, j: int| 0 <= i < j < v.len() ==> seq_lt(#[trigger] v[i], #[trigger] v[j])
}

/// Run order never holds of a run and itself.
pub proof fn lemma_seq_lt_irrefl(a: Seq<(usize, usize)>)
    ensures
        !seq_lt(a, a),
    decreases a.len(),
{
    if a.len() > 0 {
        lemma_seq_lt_irrefl(a.drop_first());
    }
}

/// Run order is transitive.
pub proof fn lemma_seq_lt_trans(
    a: Seq<(usize, usize)>,
    b: Seq<(usize, usize)>,
    c: Seq<(usize, usize)>,
)
    requires
        seq_lt(a, b),
        seq_lt(b, c),
    ensures
        seq_lt(a, c),
    decreases a.len(),
{
    if a.len() > 0 && b.len() > 0 && a.first() == b.first() && b.first() == c.first() {
        lemma_seq_lt_trans(a.drop_first(), b.drop_first(), c.drop_first());
    }
}

/// Three-way comparison of the suffixes of two runs starting at `i`,
/// mirroring the run order.
fn seq_cmp_from(a: &Sequence, b: &Sequence, i: usize) -> (r: i8)
    requires
        i <= a@.len(),
        i <= b@.len(),
    ensures
        r == -1 || r == 0 || r == 1,
        r == -1 ==> seq_lt(a@.skip(i as int), b@.skip(i as int)),
        r == 0 ==> a@.skip(i as int) == b@.skip(i as int),
        r == 1 ==> seq_lt(b@.skip(i as int), a@.skip(i as int)),
    decreases a@.len() - i,
{
    let ghost sa = a@.skip(i as int);
    let ghost sb = b@.skip(i as int);
    if i == b.len() {
        if i == a.len() {
            proof {
                assert(sa =~= sb);
            }
            0
        } else {
            proof {
                assert(sb.len() == 0);
                assert(sa.len() > 0);
            }
            1
        }
    } else if i == a.len() {
        proof {
            assert(sa.len() == 0);
            assert(sb.len() > 0);
        }
        -1
    } else {
        let pa = a[i];
        let pb = b[i];
        proof {
            assert(sa.first() == a@[i as int]);
            assert(sb.first() == b@[i as int]);
            assert(sa.drop_first() =~= a@.skip(i as int + 1));
            assert(sb.drop_first() =~= b@.skip(i as int + 1));
        }
        if pa.0 < pb.0 || (pa.0 == pb.0 && pa.1 < pb.1) {
            -1
        } else if pa.0 == pb.0 && pa.1 == pb.1 {
            proof {
                assert(pa == (pb.0, pb.1));
            }
            let r = seq_cmp_from(a, b, i + 1);
            proof {
                if r == 0 {
                    assert(sa.drop_first() == sb.drop_first());
                    assert forall|j: int| 0 <= j < sa.len() implies sa[j] == sb[j] by {
                        if j > 0 {
                            assert(sa[j] == sa.drop_first()[j - 1]);
                            assert(sb[j] == sb.drop_first()[j - 1]);
                        }
                    }
                    assert(sa =~= sb);
                }
            }
            r
        } else {
            proof {
                assert(pos_lt(sb.first(), sa.first()));
            }
            1
        }
    }
}

/// Three-way comparison of two runs in run order.
fn seq_cmp(a: &Sequence, b: &Sequence) -> (r: i8)
    ensures
        r == -1 || r == 0 || r == 1,
        r == -1 ==> seq_lt(a@, b@),
        r == 0 ==> a@ == b@,
        r == 1 ==> seq_lt(b@, a@),
{
    proof {
        assert(a@.skip(0) =~= a@);
        assert(b@.skip(0) =~= b@);
    }
    seq_cmp_from(a, b, 0)
}

/// Inserts a run into a sorted list of distinct runs, keeping it sorted and
/// skipping the run if it is already present.
fn insert_run(list: &mut Vec<Sequence>, item: Sequence)
    requires
        sorted_runs(seqs_view(old(list)@)),
    ensures
        sorted_runs(seqs_view(final(list)@)),
        forall|s: Seq<(usize, usize)>|
            seqs_view(final(list)@).contains(s) <==> (seqs_view(old(list)@).contains(s) || s
                == item@),
        old(list)@.len() <= final(list)@.len() <= old(list)@.len() + 1,
{
    let ghost orig = list@;
    let mut i: usize = 0;
    while i < list.len()
        invariant
            sorted_runs(seqs_view(list@)),
            list@ == orig,
            orig == old(list)@,
            i <= list@.len(),
            forall|idx: int| 0 <= idx < i ==> seq_lt(seqs_view(list@)[idx], item@),
        decreases list@.len() - i,
    {
        let c = seq_cmp(&list[i], &item);
        if c == 0 {
            proof {
                assert(seqs_view(list@)[i as int] == item@);
                assert(seqs_view(list@).contains(item@));
            }
            return;
        }
        if c == 1 {
            let ghost n = list@.len() as int;
            list.insert(i, item);
            proof {
                orig.insert_ensures(i as int, item);
                let v_new = seqs_view(list@);
                let v_old = seqs_view(orig);
                assert(v_new.len() == v_old.len() + 1);
                assert(forall|j: int| 0 <= j < i ==> #[trigger] v_new[j] == v_old[j]);
                assert(v_new[i as int] == item@);
                assert(forall|j: int| i < j < v_new.len() ==> #[trigger] v_new[j] == v_old[j - 1]);
                assert forall|x: int, y: int| 0 <= x < y < v_new.len() implies seq_lt(
                    v_new[x],
                    v_new[y],
                ) by {
                    if y == i {
                        assert(seq_lt(v_old[x], item@));
                    } else if x == i {
                        if y > i + 1 {
                            lemma_seq_lt_trans(item@, v_old[i as int], v_old[y - 1]);
                        }
                    } else if x < i && y > i {
                        assert(seq_lt(v_old[x], v_old[y - 1]));
                    }
                }
                assert forall|s: Seq<(usize, usize)>| v_new.contains(s) implies (v_old.contains(s)
                    || s == item@) by {
                    let j = choose|j: int| 0 <= j < v_new.len() && v_new[j] == s;
                    if j < i {
                        assert(v_old[j] == s);
                    } else if j > i {
                        assert(v_old[j - 1] == s);
                    }
                }
                assert forall|s: Seq<(usize, usize)>| (v_old.contains(s) || s == item@) implies
                    v_new.contains(s) by {
                    if v_old.contains(s) {
                        let j = choose|j: int| 0 <= j < v_old.len() && v_old[j] == s;
                        if j < i {
                            assert(v_new[j] == s);
                        } else {
                            assert(v_new[j + 1] == s);
                        }
                    } else {
                        assert(v_new[i as int] == s);
                    }
                }
            }
            return;
        }
        proof {
            assert(seq_lt(seqs_view(list@)[i as int], item@));
        }
        i += 1;
    }
    list.push(item);
    proof {
        let v_new = seqs_view(list@);
        let v_old = seqs_view(orig);
        assert(v_new.len() == v_old.len() + 1);
        assert(forall|j: int| 0 <= j < v_old.len() ==> #[trigger] v_new[j] == v_old[j]);
        assert(v_new[v_old.len() as int] == item@);
        assert forall|s: Seq<(usize, usize)>| v_new.contains(s) implies (v_old.contains(s) || s
            == item@) by {
            let j = choose|j: int| 0 <= j < v_new.len() && v_new[j] == s;
            if j < v_old.len() {
                assert(v_old[j] == s);
            }
        }
        assert forall|s: Seq<(usize, usize)>| (v_old.contains(s) || s == item@) implies
            v_new.contains(s) by {
            if v_old.contains(s) {
                let j = choose|j: int| 0 <= j < v_old.len() && v_old[j] == s;
                assert(v_new[j] == s);
            } else {
                assert(v_new[v_old.len() as int] == s);
            }
        }
    }
}

/// True iff `s` is a run of at least two positions of `p` through the anchor
/// `(row, col)` along one of the first `kmax` axes.
pub open spec fn run_anchor_upto(
    g: Seq<Seq<Cell>>,
    p: Player,
    row: int,
    col: int,
    kmax: int,
    s: Seq<(usize, usize)>,
) -> bool {
    exists|kk: int| 0 <= kk < kmax && s == #[trigger] axis_run(g, p, row, col, kk) && s.len() >= 2
}

/// True iff `s` is a run of at least two positions of `p` through the anchor
/// `(row, col)` along one of the four axes.
pub open spec fn run_anchor_at(
    g: Seq<Seq<Cell>>,
    p: Player,
    row: int,
    col: int,
    s: Seq<(usize, usize)>,
) -> bool {
    run_anchor_upto(g, p, row, col, 4, s)
}

/// The axis direction with index `k`.
fn direction(k: usize) -> (d: Direction)
    requires
        k < 4,
    ensures
        d.0 as int == dir_of(k as int).0,
        d.1 as int == dir_of(k as int).1,
        valid_direction((d.0 as int, d.1 as int)),
{
    match k {
        0 => (0, 1),
        1 => (1, 0),
        2 => (1, 1),
        _ => (1, -1),
    }
}

/// Returns the canonical runs of length at least two of `player`'s pieces
/// through `(row, col)`, one per axis that has one, each sorted by position,
/// the list itself sorted and without duplicates.
pub fn sequences_from_position(state: &State, player: Player, row: usize, col: usize) -> (r: Vec<
    Sequence,
>)
    requires
        state.wf(),
        row < ROWS,
        col < COLS,
    ensures
        sorted_runs(seqs_view(r@)),
        forall|s: Seq<(usize, usize)>|
            seqs_view(r@).contains(s) <==> run_anchor_at(
                state.grid(),
                player,
                row as int,
                col as int,
                s,
            ),
        r@.len() <= 4,
{
    let ghost g = state.grid();
    proof {
        assert(g[row as int] == state.data@[row as int]@);
        assert(g[row as int].len() == COLS);
    }
    let cell = state.data[row][col];
    let ours = match cell {
        Cell::Player { player: q } => q == player,
        Cell::Empty => false,
    };
    if !ours {
        let r: Vec<Sequence> = Vec::new();
        proof {
            assert(!player_at(g, player, row as int, col as int));
            assert forall|s: Seq<(usize, usize)>| !run_anchor_at(
                g,
                player,
                row as int,
                col as int,
                s,
            ) by {
                if run_anchor_at(g, player, row as int, col as int, s) {
                    let kk = choose|kk: int|
                        0 <= kk < 4 && s == #[trigger] axis_run(g, player, row as int, col as int, kk)
                            && s.len() >= 2;
                    assert(axis_run(g, player, row as int, col as int, kk).len() == 0);
                }
            }
        }
        return r;
    }
    let mut result: Vec<Sequence> = Vec::new();
    let mut k: usize = 0;
    while k < 4
        invariant
            state.wf(),
            g == state.grid(),
            row < ROWS,
            col < COLS,
            player_at(g, player, row as int, col as int),
            k <= 4,
            sorted_runs(seqs_view(result@)),
            result@.len() <= k,
            forall|s: Seq<(usize, usize)>|
                seqs_view(result@).contains(s) <==> run_anchor_upto(
                    g,
                    player,
                    row as int,
                    col as int,
                    k as int,
                    s,
                ),
        decreases 4 - k,
    {
        let d = direction(k);
        let neg = (-d.0, -d.1);
        let ghost dr = d.0 as int;
        let ghost dc = d.1 as int;
        let fwd = sequence_in_direction(state, player, row, col, d);
        let back = sequence_in_direction(state, player, row, col, neg);
        proof {
            lemma_dir_run_props(g, player, row as int, col as int, dr, dc);
            lemma_dir_run_props(g, player, row as int, col as int, -dr, -dc);
        }
        let mut run: Sequence = Vec::new();
        let mut t: usize = back.len();
        while t > 0
            invariant
                t <= back@.len(),
                run@.len() == back@.len() - t,
                forall|j: int|
                    0 <= j < run@.len() ==> #[trigger] run@[j] == back@[back@.len() - 1 - j],
            decreases t,
        {
            t -= 1;
            run.push(back[t]);
        }
        proof {
            assert(run@ =~= back@.reverse());
        }
        let mut u: usize = 1;
        while u < fwd.len()
            invariant
                1 <= u,
                u <= fwd@.len(),
                run@ == back@.reverse() + fwd@.subrange(1, u as int),
            decreases fwd@.len() - u,
        {
            let ghost before = run@;
            run.push(fwd[u]);
            proof {
                assert(run@ =~= back@.reverse() + fwd@.subrange(1, u as int + 1));
            }
            u += 1;
        }
        proof {
            assert(fwd@.subrange(1, fwd@.len() as int) =~= fwd@.drop_first());
            assert(run@ == axis_run(g, player, row as int, col as int, k as int));
        }
        let ghost pre = result@;
        if run.len() >= 2 {
            insert_run(&mut result, run);
        }
        proof {
            let ki = k as int;
            let rr = row as int;
            let cc = col as int;
            assert forall|s: Seq<(usize, usize)>| seqs_view(result@).contains(s) implies
                run_anchor_upto(g, player, rr, cc, ki + 1, s) by {
                if seqs_view(pre).contains(s) {
                    let kk = choose|kk: int|
                        0 <= kk < ki && s == #[trigger] axis_run(g, player, rr, cc, kk) && s.len()
                            >= 2;
                    assert(0 <= kk < ki + 1 && s == axis_run(g, player, rr, cc, kk) && s.len()
                        >= 2);
                } else {
                    assert(s == axis_run(g, player, rr, cc, ki) && s.len() >= 2);
                }
            }
            assert forall|s: Seq<(usize, usize)>| run_anchor_upto(g, player, rr, cc, ki + 1, s)
                implies seqs_view(result@).contains(s) by {
                let kk = choose|kk: int|
                    0 <= kk < ki + 1 && s == #[trigger] axis_run(g, player, rr, cc, kk) && s.len()
                        >= 2;
                if kk < ki {
                    assert(run_anchor_upto(g, player, rr, cc, ki, s));
                    assert(seqs_view(pre).contains(s));
                }
            }
        }
        k += 1;
    }
    result
}

/// True iff `s` is a run of at least two of `p`'s pieces through some anchor
/// scanned before position `(i, j)` in row-major order.
pub open spec fn run_before(
    g: Seq<Seq<Cell>>,
    p: Player,
    i: int,
    j: int,
    s: Seq<(usize, usize)>,
) -> bool {
    exists|rr: int, cc: int|
        #![auto]
        0 <= rr < ROWS && 0 <= cc < COLS && (rr < i || (rr == i && cc < j)) && run_anchor_at(
            g,
            p,
            rr,
            cc,
            s,
        )
}

/// True iff `s` is a maximal run of at least two of `p`'s pieces somewhere on
/// the board: a run through some anchor cell along some axis.
pub open spec fn is_max_run(g: Seq<Seq<Cell>>, p: Player, s: Seq<(usize, usize)>) -> bool {
    exists|rr: int, cc: int|
        #![auto]
        0 <= rr < ROWS && 0 <= cc < COLS && run_anchor_at(g, p, rr, cc, s)
}

/// Every position of the run lies on the board.
pub open spec fn run_cells_in_bounds(s: Seq<(usize, usize)>) -> bool {
    forall|j: int| 0 <= j < s.len() ==> (#[trigger] s[j]).0 < ROWS && s[j].1 < COLS
}

/// Returns every maximal run of length at least two held by `player`, each
/// sorted by position, the list sorted and free of duplicates.
pub fn sequences_all(state: &State, player: Player) -> (r: Vec<Sequence>)
    requires
        state.wf(),
    ensures
        sorted_runs(seqs_view(r@)),
        forall|s: Seq<(usize, usize)>|
            seqs_view(r@).contains(s) <==> is_max_run(state.grid(), player, s),
        r@.len() <= 168,
        forall|i: int|
            0 <= i < r@.len() ==> sorted_run(#[trigger] seqs_view(r@)[i]) && 2 <= seqs_view(
                r@,
            )[i].len() <= 13 && run_cells_in_bounds(seqs_view(r@)[i]),
{
    let ghost g = state.grid();
    let mut result: Vec<Sequence> = Vec::new();
    let mut row: usize = 0;
    while row < ROWS
        invariant
            state.wf(),
            g == state.grid(),
            row <= ROWS,
            sorted_runs(seqs_view(result@)),
            result@.len() <= 28 * row,
            forall|s: Seq<(usize, usize)>|
                seqs_view(result@).contains(s) <==> run_before(g, player, row as int, 0, s),
        decreases ROWS - row,
    {
        let mut col: usize = 0;
        while col < COLS
            invariant
                state.wf(),
                g == state.grid(),
                row < ROWS,
                col <= COLS,
                sorted_runs(seqs_view(result@)),
                result@.len() <= 28 * row + 4 * col,
                forall|s: Seq<(usize, usize)>|
                    seqs_view(result@).contains(s) <==> run_before(
                        g,
                        player,
                        row as int,
                        col as int,
                        s,
                    ),
            decreases COLS - col,
        {
            let mut seqs = sequences_from_position(state, player, row, col);
            let ghost full = seqs@;
            let ghost base = result@;
            while seqs.len() > 0
                invariant
                    sorted_runs(seqs_view(result@)),
                    seqs@.len() <= full.len(),
                    seqs@ == full.subrange(0, seqs@.len() as int),
                    result@.len() <= base.len() + (full.len() - seqs@.len()),
                    forall|s: Seq<(usize, usize)>|
                        seqs_view(result@).contains(s) <==> (seqs_view(base).contains(s) || exists|
                            m: int,
                        |
                            seqs@.len() <= m < full.len() && #[trigger] seqs_view(full)[m] == s),
                decreases seqs@.len(),
            {
                let ghost before_pop = seqs@;
                let item = seqs.pop().unwrap();
                proof {
                    assert(item@ == seqs_view(full)[seqs@.len() as int]);
                    assert(seqs@ =~= full.subrange(0, seqs@.len() as int));
                }
                let ghost mid = result@;
                insert_run(&mut result, item);
                proof {
                    let ln = seqs@.len() as int;
                    assert forall|s: Seq<(usize, usize)>| seqs_view(result@).contains(s) implies
                        (seqs_view(base).contains(s) || exists|m: int|
                        ln <= m < full.len() && #[trigger] seqs_view(full)[m] == s) by {
                        if seqs_view(mid).contains(s) {
                        } else {
                            assert(seqs_view(full)[ln] == s);
                        }
                    }
                    assert forall|s: Seq<(usize, usize)>|
                        (seqs_view(base).contains(s) || exists|m: int|
                            ln <= m < full.len() && #[trigger] seqs_view(full)[m] == s) implies
                        seqs_view(result@).contains(s) by {
                        if seqs_view(base).contains(s) {
                        } else {
                            let m = choose|m: int|
                                ln <= m < full.len() && #[trigger] seqs_view(full)[m] == s;
                            if m > ln {
                                assert(exists|m2: int|
                                    before_pop.len() <= m2 < full.len()
                                        && #[trigger] seqs_view(full)[m2] == s);
                            } else {
                                assert(s == item@);
                            }
                        }
                    }
                }
            }
            proof {
                assert forall|s: Seq<(usize, usize)>|
                    seqs_view(result@).contains(s) <==> (seqs_view(base).contains(s) || seqs_view(
                        full,
                    ).contains(s)) by {
                    if seqs_view(result@).contains(s) && !seqs_view(base).contains(s) {
                        let m = choose|m: int|
                            seqs@.len() <= m < full.len() && #[trigger] seqs_view(full)[m] == s;
                        assert(seqs_view(full).contains(s));
                    }
                    if seqs_view(base).contains(s) {
                        assert(seqs_view(result@).contains(s));
                    }
                    if seqs_view(full).contains(s) {
                        let m = choose|m: int|
                            0 <= m < seqs_view(full).len() && seqs_view(full)[m] == s;
                        assert(seqs@.len() <= m < full.len() && seqs_view(full)[m] == s);
                        assert(exists|m2: int|
                            seqs@.len() <= m2 < full.len() && #[trigger] seqs_view(full)[m2] == s);
                        assert(seqs_view(result@).contains(s));
                    }
                }
            }
            proof {
                let ri = row as int;
                let ci = col as int;
                assert forall|s: Seq<(usize, usize)>|
                    seqs_view(result@).contains(s) <==> run_before(g, player, ri, ci + 1, s) by {
                    if seqs_view(result@).contains(s) {
                        if seqs_view(base).contains(s) {
                            assert(run_before(g, player, ri, ci, s));
                            let (rr, cc) = choose|rr: int, cc: int|
                                #![auto]
                                0 <= rr < ROWS && 0 <= cc < COLS && (rr < ri || (rr == ri && cc
                                    < ci)) && run_anchor_at(g, player, rr, cc, s);
                            assert(0 <= rr < ROWS && 0 <= cc < COLS && (rr < ri || (rr == ri && cc
                                < ci + 1)) && run_anchor_at(g, player, rr, cc, s));
                        } else {
                            assert(seqs_view(full).contains(s));
                            assert(run_anchor_at(g, player, ri, ci, s));
                            assert(0 <= ri < ROWS && 0 <= ci < COLS && (ri < ri || (ri == ri && ci
                                < ci + 1)) && run_anchor_at(g, player, ri, ci, s));
                        }
                    }
                    if run_before(g, player, ri, ci + 1, s) {
                        let (rr, cc) = choose|rr: int, cc: int|
                            #![auto]
                            0 <= rr < ROWS && 0 <= cc < COLS && (rr < ri || (rr == ri && cc < ci
                                + 1)) && run_anchor_at(g, player, rr, cc, s);
                        if rr < ri || (rr == ri && cc < ci) {
                            assert(run_before(g, player, ri, ci, s));
                            assert(seqs_view(base).contains(s));
                        } else {
                            assert(rr == ri && cc == ci);
                            assert(seqs_view(full).contains(s));
                        }
                        assert(seqs_view(result@).contains(s));
                    }
                }
            }
            col += 1;
        }
        proof {
            let ri = row as int;
            assert forall|s: Seq<(usize, usize)>|
                seqs_view(result@).contains(s) <==> run_before(g, player, ri + 1, 0, s) by {
                if seqs_view(result@).contains(s) {
                    let (rr, cc) = choose|rr: int, cc: int|
                        #![auto]
                        0 <= rr < ROWS && 0 <= cc < COLS && (rr < ri || (rr == ri && cc < COLS))
                            && run_anchor_at(g, player, rr, cc, s);
                    assert(0 <= rr < ROWS && 0 <= cc < COLS && rr < ri + 1 && run_anchor_at(
                        g,
                        player,
                        rr,
                        cc,
                        s,
                    ));
                }
                if run_before(g, player, ri + 1, 0, s) {
                    let (rr, cc) = choose|rr: int, cc: int|
                        #![auto]
                        0 <= rr < ROWS && 0 <= cc < COLS && (rr < ri + 1 || (rr == ri + 1 && cc
                            < 0)) && run_anchor_at(g, player, rr, cc, s);
                    assert(0 <= rr < ROWS && 0 <= cc < COLS && (rr < ri || (rr == ri && cc < COLS))
                        && run_anchor_at(g, player, rr, cc, s));
                    assert(run_before(g, player, ri, COLS as int, s));
                }
            }
        }
        row += 1;
    }
    proof {
        assert forall|s: Seq<(usize, usize)>|
            run_before(g, player, ROWS as int, 0, s) <==> is_max_run(g, player, s) by {
            if run_before(g, player, ROWS as int, 0, s) {
                let (rr, cc) = choose|rr: int, cc: int|
                    #![auto]
                    0 <= rr < ROWS && 0 <= cc < COLS && (rr < ROWS || (rr == ROWS && cc < 0))
                        && run_anchor_at(g, player, rr, cc, s);
                assert(is_max_run(g, player, s));
            }
            if is_max_run(g, player, s) {
                let (rr, cc) = choose|rr: int, cc: int|
                    #![auto]
                    0 <= rr < ROWS && 0 <= cc < COLS && run_anchor_at(g, player, rr, cc, s);
                assert(rr < ROWS);
            }
        }
        assert forall|i: int| 0 <= i < seqs_view(result@).len() implies sorted_run(
            #[trigger] seqs_view(result@)[i],
        ) && 2 <= seqs_view(result@)[i].len() <= 13 && run_cells_in_bounds(
            seqs_view(result@)[i],
        ) by {
            let s = seqs_view(result@)[i];
            assert(seqs_view(result@).contains(s));
            let (rr, cc) = choose|rr: int, cc: int|
                #![auto]
                0 <= rr < ROWS && 0 <= cc < COLS && run_anchor_at(g, player, rr, cc, s);
            let k = choose|k: int|
                0 <= k < 4 && s == #[trigger] axis_run(g, player, rr, cc, k) && s.len() >= 2;
            lemma_axis_run_props(g, player, rr, cc, k);
            assert forall|j: int| 0 <= j < s.len() implies (#[trigger] s[j]).0 < ROWS && s[j].1
                < COLS by {
                assert(player_at(g, player, s[j].0 as int, s[j].1 as int));
            }
        }
    }
    result
}

/// Four pieces of `p` in a row, starting at `(r, c)` and stepping along
/// axis `k`.
pub open spec fn line4_at(g: Seq<Seq<Cell>>, p: Player, r: int, c: int, k: int) -> bool {
    let d = dir_of(k);
    &&& player_at(g, p, r, c)
    &&& player_at(g, p, r + d.0, c + d.1)
    &&& player_at(g, p, r + 2 * d.0, c + 2 * d.1)
    &&& player_at(g, p, r + 3 * d.0, c + 3 * d.1)
}

/// True iff `p` holds four contiguous pieces along some axis.
pub open spec fn spec_has_line(g: Seq<Seq<Cell>>, p: Player) -> bool {
    exists|r: int, c: int, k: int| 0 <= k < 4 && #[trigger] line4_at(g, p, r, c, k)
}

/// The winner of a grid: the first player, in the fixed enumeration order,
/// holding a line of four.
pub open spec fn spec_winner(g: Seq<Seq<Cell>>) -> Option<Player> {
    if spec_has_line(g, Player::Red) {
        Some(Player::Red)
    } else if spec_has_line(g, Player::Yellow) {
        Some(Player::Yellow)
    } else {
        None
    }
}

/// A grid is terminal when it is full or has a winner.
pub open spec fn spec_is_terminal(g: Seq<Seq<Cell>>) -> bool {
    crate::board::spec_is_full(g) || spec_winner(g).is_some()
}

/// A maximal run of length at least four yields a line of four.
#[verifier::rlimit(50)]
pub proof fn lemma_run_implies_line(g: Seq<Seq<Cell>>, p: Player, s: Seq<(usize, usize)>)
    requires
        is_max_run(g, p, s),
        s.len() >= 4,
    ensures
        spec_has_line(g, p),
{
    let (rr, cc) = choose|rr: int, cc: int|
        #![auto]
        0 <= rr < ROWS && 0 <= cc < COLS && run_anchor_at(g, p, rr, cc, s);
    let k = choose|k: int| 0 <= k < 4 && s == #[trigger] axis_run(g, p, rr, cc, k) && s.len() >= 2;
    lemma_axis_run_props(g, p, rr, cc, k);
    let d = dir_of(k);
    assert(pos_step(s[0], s[1], d.0, d.1));
    assert(pos_step(s[1], s[2], d.0, d.1));
    assert(pos_step(s[2], s[3], d.0, d.1));
    assert(line4_at(g, p, s[0].0 as int, s[0].1 as int, k));
}

/// A line of four yields a maximal run of length at least four.
pub proof fn lemma_line_implies_run(g: Seq<Seq<Cell>>, p: Player)
    requires
        spec_has_line(g, p),
    ensures
        exists|s: Seq<(usize, usize)>| #[trigger] is_max_run(g, p, s) && s.len() >= 4,
{
    let (r, c, k) = choose|r: int, c: int, k: int| 0 <= k < 4 && #[trigger] line4_at(g, p, r, c, k);
    let d = dir_of(k);
    let dr = d.0;
    let dc = d.1;
    assert(valid_direction((dr, dc)));
    lemma_dir_run_props(g, p, r + 3 * dr, c + 3 * dc, dr, dc);
    assert(dir_run(g, p, r + 3 * dr, c + 3 * dc, dr, dc).len() >= 1);
    assert(dir_run(g, p, r + 2 * dr, c + 2 * dc, dr, dc) == seq![
        (((r + 2 * dr) as usize, (c + 2 * dc) as usize)),
    ] + dir_run(g, p, r + 3 * dr, c + 3 * dc, dr, dc));
    assert(dir_run(g, p, r + dr, c + dc, dr, dc) == seq![
        (((r + dr) as usize, (c + dc) as usize)),
    ] + dir_run(g, p, r + 2 * dr, c + 2 * dc, dr, dc));
    assert(dir_run(g, p, r, c, dr, dc) == seq![((r as usize, c as usize))] + dir_run(
        g,
        p,
        r + dr,
        c + dc,
        dr,
        dc,
    ));
    assert(dir_run(g, p, r, c, dr, dc).len() >= 4);
    lemma_dir_run_props(g, p, r, c, -dr, -dc);
    lemma_axis_run_props(g, p, r, c, k);
    let s = axis_run(g, p, r, c, k);
    assert(s.len() >= 4);
    assert(run_anchor_at(g, p, r, c, s));
    assert(is_max_run(g, p, s));
}

/// Returns the first player, in the fixed enumeration order, holding a run of
/// length at least `WIN_LENGTH`, if any.
pub fn get_winner(state: &State) -> (r: Option<Player>)
    requires
        state.wf(),
    ensures
        r == spec_winner(state.grid()),
{
    let ghost g = state.grid();
    let reds = sequences_all(state, Player::Red);
    let mut i: usize = 0;
    while i < reds.len()
        invariant
            g == state.grid(),
            i <= reds@.len(),
            forall|s: Seq<(usize, usize)>|
                seqs_view(reds@).contains(s) <==> is_max_run(g, Player::Red, s),
            forall|idx: int| 0 <= idx < i ==> (#[trigger] seqs_view(reds@)[idx]).len() < 4,
        decreases reds@.len() - i,
    {
        if reds[i].len() >= WIN_LENGTH {
            proof {
                let s = seqs_view(reds@)[i as int];
                assert(seqs_view(reds@).contains(s));
                lemma_run_implies_line(g, Player::Red, s);
            }
            return Some(Player::Red);
        }
        i += 1;
    }
    proof {
        if spec_has_line(g, Player::Red) {
            lemma_line_implies_run(g, Player::Red);
            let s = choose|s: Seq<(usize, usize)>|
                #[trigger] is_max_run(g, Player::Red, s) && s.len() >= 4;
            assert(seqs_view(reds@).contains(s));
            let idx = choose|idx: int|
                0 <= idx < seqs_view(reds@).len() && seqs_view(reds@)[idx] == s;
            assert(false);
        }
    }
    let yellows = sequences_all(state, Player::Yellow);
    let mut i: usize = 0;
    while i < yellows.len()
        invariant
            g == state.grid(),
            i <= yellows@.len(),
            !spec_has_line(g, Player::Red),
            forall|s: Seq<(usize, usize)>|
                seqs_view(yellows@).contains(s) <==> is_max_run(g, Player::Yellow, s),
            forall|idx: int| 0 <= idx < i ==> (#[trigger] seqs_view(yellows@)[idx]).len() < 4,
        decreases yellows@.len() - i,
    {
        if yellows[i].len() >= WIN_LENGTH {
            proof {
                let s = seqs_view(yellows@)[i as int];
                assert(seqs_view(yellows@).contains(s));
                lemma_run_implies_line(g, Player::Yellow, s);
            }
            return Some(Player::Yellow);
        }
        i += 1;
    }
    proof {
        if spec_has_line(g, Player::Yellow) {
            lemma_line_implies_run(g, Player::Yellow);
            let s = choose|s: Seq<(usize, usize)>|
                #[trigger] is_max_run(g, Player::Yellow, s) && s.len() >= 4;
            assert(seqs_view(yellows@).contains(s));
            let idx = choose|idx: int|
                0 <= idx < seqs_view(yellows@).len() && seqs_view(yellows@)[idx] == s;
            assert(false);
        }
    }
    None
}

impl State {
    /// Returns true iff the game is over: the board is full or a player has
    /// a line of four.
    pub fn is_terminal(&self) -> (r: bool)
        requires
            self.wf(),
        ensures
            r == spec_is_terminal(self.grid()),
    {
        self.is_full() || get_winner(self).is_some()
    }
}

/// Four contiguous pieces of one player along any axis produce a winner; the
/// winner is that player unless the other player precedes it in the fixed
/// enumeration order and also holds a line.
pub proof fn lemma_four_in_a_row_wins(g: Seq<Seq<Cell>>, p: Player, r: int, c: int, k: int)
    requires
        0 <= k < 4,
        line4_at(g, p, r, c, k),
    ensures
        spec_winner(g).is_some(),
        p == Player::Red ==> spec_winner(g) == Some(Player::Red),
        p == Player::Yellow && !spec_has_line(g, Player::Red) ==> spec_winner(g) == Some(
            Player::Yellow,
        ),
{
}

/// Two strictly position-sorted runs covering the same set of positions are
/// the same run.
pub proof fn lemma_sorted_run_set_unique(a: Seq<(usize, usize)>, b: Seq<(usize, usize)>)
    requires
        sorted_run(a),
        sorted_run(b),
        a.to_set() == b.to_set(),
    ensures
        a == b,
    decreases a.len(),
{
    if a.len() == 0 {
        if b.len() > 0 {
            assert(b.to_set().contains(b[0]));
            assert(a.to_set().contains(b[0]));
            assert(false);
        }
        assert(a =~= b);
    } else if b.len() == 0 {
        assert(a.to_set().contains(a[0]));
        assert(b.to_set().contains(a[0]));
        assert(false);
    } else {
        assert(a.to_set().contains(a[0]));
        assert(b.to_set().contains(b[0]));
        assert(b.contains(a[0]));
        assert(a.contains(b[0]));
        let ja = choose|j: int| 0 <= j < b.len() && b[j] == a[0];
        let jb = choose|j: int| 0 <= j < a.len() && a[j] == b[0];
        if ja > 0 {
            assert(pos_lt(b[0], b[ja]));
        }
        if jb > 0 {
            assert(pos_lt(a[0], a[jb]));
        }
        assert(a[0].0 == b[0].0 && a[0].1 == b[0].1);
        assert(a[0] == (b[0].0, b[0].1));
        assert(a[0] == b[0]);
        let at = a.drop_first();
        let bt = b.drop_first();
        assert forall|i: int, j: int| 0 <= i < j < at.len() implies pos_lt(
            #[trigger] at[i],
            #[trigger] at[j],
        ) by {
            assert(at[i] == a[i + 1]);
            assert(at[j] == a[j + 1]);
        }
        assert forall|i: int, j: int| 0 <= i < j < bt.len() implies pos_lt(
            #[trigger] bt[i],
            #[trigger] bt[j],
        ) by {
            assert(bt[i] == b[i + 1]);
            assert(bt[j] == b[j + 1]);
        }
        assert forall|x: (usize, usize)| at.to_set().contains(x) <==> bt.to_set().contains(x) by {
            if at.to_set().contains(x) {
                let i = choose|i: int| 0 <= i < at.len() && at[i] == x;
                assert(a[i + 1] == x);
                assert(pos_lt(a[0], a[i + 1]));
                assert(a.contains(x));
                assert(a.to_set().contains(x));
                assert(b.to_set().contains(x));
                assert(b.contains(x));
                let j = choose|j: int| 0 <= j < b.len() && b[j] == x;
                assert(j != 0);
                assert(bt[j - 1] == x);
                assert(bt.contains(x));
            }
            if bt.to_set().contains(x) {
                let i = choose|i: int| 0 <= i < bt.len() && bt[i] == x;
                assert(b[i + 1] == x);
                assert(pos_lt(b[0], b[i + 1]));
                assert(b.contains(x));
                assert(b.to_set().contains(x));
                assert(a.to_set().contains(x));
                assert(a.contains(x));
                let j = choose|j: int| 0 <= j < a.len() && a[j] == x;
                assert(j != 0);
                assert(at[j - 1] == x);
                assert(at.contains(x));
            }
        }
        assert(at.to_set() =~= bt.to_set());
        lemma_sorted_run_set_unique(at, bt);
        assert forall|j: int| 0 <= j < a.len() implies a[j] == b[j] by {
            if j > 0 {
                assert(a[j] == at[j - 1]);
                assert(b[j] == bt[j - 1]);
            }
        }
        assert(a =~= b);
    }
}

/// Two sorted duplicate-free run lists with the same members are equal.
pub proof fn lemma_sorted_runs_unique(a: Seq<Seq<(usize, usize)>>, b: Seq<Seq<(usize, usize)>>)
    requires
        sorted_runs(a),
        sorted_runs(b),
        forall|s: Seq<(usize, usize)>| a.contains(s) <==> b.contains(s),
    ensures
        a == b,
    decreases a.len(),
{
    if a.len() == 0 {
        if b.len() > 0 {
            assert(b.contains(b[0]));
            assert(a.contains(b[0]));
            assert(false);
        }
        assert(a =~= b);
    } else if b.len() == 0 {
        assert(a.contains(a[0]));
        assert(b.contains(a[0]));
        assert(false);
    } else {
        assert(a.contains(a[0]));
        assert(b.contains(b[0]));
        assert(b.contains(a[0]));
        assert(a.contains(b[0]));
        let ja = choose|j: int| 0 <= j < b.len() && b[j] == a[0];
        let jb = choose|j: int| 0 <= j < a.len() && a[j] == b[0];
        if ja > 0 && jb > 0 {
            assert(seq_lt(b[0], b[ja]));
            assert(seq_lt(a[0], a[jb]));
            lemma_seq_lt_trans(a[0], b[0], a[0]);
            lemma_seq_lt_irrefl(a[0]);
            assert(false);
        }
        assert(a[0] == b[0]);
        let at = a.drop_first();
        let bt = b.drop_first();
        assert forall|i: int, j: int| 0 <= i < j < at.len() implies seq_lt(
            #[trigger] at[i],
            #[trigger] at[j],
        ) by {
            assert(at[i] == a[i + 1]);
            assert(at[j] == a[j + 1]);
        }
        assert forall|i: int, j: int| 0 <= i < j < bt.len() implies seq_lt(
            #[trigger] bt[i],
            #[trigger] bt[j],
        ) by {
            assert(bt[i] == b[i + 1]);
            assert(bt[j] == b[j + 1]);
        }
        assert forall|s: Seq<(usize, usize)>| at.contains(s) <==> bt.contains(s) by {
            if at.contains(s) {
                let i = choose|i: int| 0 <= i < at.len() && at[i] == s;
                assert(a[i + 1] == s);
                assert(seq_lt(a[0], a[i + 1]));
                lemma_seq_lt_irrefl(a[0]);
                assert(s != a[0]);
                assert(a.contains(s));
                assert(b.contains(s));
                let j = choose|j: int| 0 <= j < b.len() && b[j] == s;
                assert(j != 0);
                assert(bt[j - 1] == s);
                assert(bt.contains(s));
            }
            if bt.contains(s) {
                let i = choose|i: int| 0 <= i < bt.len() && bt[i] == s;
                assert(b[i + 1] == s);
                assert(seq_lt(b[0], b[i + 1]));
                lemma_seq_lt_irrefl(b[0]);
                assert(s != b[0]);
                assert(b.contains(s));
                assert(a.contains(s));
                let j = choose|j: int| 0 <= j < a.len() && a[j] == s;
                assert(j != 0);
                assert(at[j - 1] == s);
                assert(at.contains(s));
            }
        }
        lemma_sorted_runs_unique(at, bt);
        assert forall|j: int| 0 <= j < a.len() implies a[j] == b[j] by {
            if j > 0 {
                assert(a[j] == at[j - 1]);
                assert(b[j] == bt[j - 1]);
            }
        }
        assert(a =~= b);
    }
}

/// Distinct entries of the run list returned by `sequences_all` never cover
/// the same unordered set of positions: the list holds no run twice, even up
/// to reordering of positions.
pub proof fn lemma_no_duplicate_runs(v: Seq<Seq<(usize, usize)>>, i: int, j: int)
    requires
        sorted_runs(v),
        forall|m: int| 0 <= m < v.len() ==> sorted_run(#[trigger] v[m]),
        0 <= i < j < v.len(),
    ensures
        v[i] != v[j],
        v[i].to_set() != v[j].to_set(),
{
    assert(seq_lt(v[i], v[j]));
    lemma_seq_lt_irrefl(v[i]);
    if v[i].to_set() == v[j].to_set() {
        lemma_sorted_run_set_unique(v[i], v[j]);
        assert(false);
    }
}

/// Returns the positions of contiguous pieces of `player` reachable from
/// `(row, col)` by walking in `direction`, in walking order, starting at
/// `(row, col)` itself.
pub fn sequence_in_direction(
    state: &State,
    player: Player,
    row: usize,
    col: usize,
    direction: Direction,
) -> (r: Sequence)
    requires
        state.wf(),
        row < ROWS,
        col < COLS,
        valid_direction((direction.0 as int, direction.1 as int)),
    ensures
        r@ == dir_run(
            state.grid(),
            player,
            row as int,
            col as int,
            direction.0 as int,
            direction.1 as int,
        ),
{
    let ghost g = state.grid();
    let ghost dr = direction.0 as int;
    let ghost dc = direction.1 as int;
    let mut sequence: Sequence = Vec::new();

    let mut r: i32 = row as i32;
    let mut c: i32 = col as i32;

    loop
        invariant
            state.wf(),
            g == state.grid(),
            valid_direction((dr, dc)),
            direction.0 as int == dr,
            direction.1 as int == dc,
            -1 <= r as int <= ROWS,
            -1 <= c as int <= COLS,
            dir_run(g, player, row as int, col as int, dr, dc) == sequence@ + dir_run(
                g,
                player,
                r as int,
                c as int,
                dr,
                dc,
            ),
        ensures
            dir_run(g, player, row as int, col as int, dr, dc) == sequence@,
        decreases dir_measure(r as int, c as int, dr, dc),
    {
        if !(r >= 0 && r < ROWS as i32 && c >= 0 && c < COLS as i32) {
            proof {
                assert(dir_run(g, player, r as int, c as int, dr, dc) =~= Seq::empty());
                assert(sequence@ + Seq::<(usize, usize)>::empty() =~= sequence@);
            }
            break;
        }
        let ru = r as usize;
        let cu = c as usize;
        proof {
            assert(g[ru as int] == state.data@[ru as int]@);
            assert(g[ru as int].len() == COLS);
        }
        let cell = state.data[ru][cu];
        let owned_here = match cell {
            Cell::Player { player: q } => q == player,
            Cell::Empty => false,
        };
        if !owned_here {
            proof {
                assert(dir_run(g, player, r as int, c as int, dr, dc) =~= Seq::empty());
                assert(sequence@ + Seq::<(usize, usize)>::empty() =~= sequence@);
            }
            break;
        }
        sequence.push((ru, cu));
        proof {
            assert(dir_run(g, player, r as int, c as int, dr, dc) == seq![(ru, cu)] + dir_run(
                g,
                player,
                r as int + dr,
                c as int + dc,
                dr,
                dc,
            ));
            assert(sequence@ + dir_run(g, player, r as int + dr, c as int + dc, dr, dc)
                =~= sequence@.drop_last() + (seq![(ru, cu)] + dir_run(
                g,
                player,
                r as int + dr,
                c as int + dc,
                dr,
                dc,
            )));
        }
        r += direction.0;
        c += direction.1;
    }
    sequence
}

} // verus!

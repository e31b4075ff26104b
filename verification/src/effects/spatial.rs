//! Distance fields: breadth-first step counts over the grid.

use crate::grid::{
    adjacent4, filled_vec, cell_index, count_true, holds_pos, lemma_cell_index_bounds, lemma_cell_index_injective,
    lemma_count_true_bound, lemma_count_true_flip, manhattan, pos, Grid, Tile,
};
use crate::effects::morphology::floor_snapshot;
use vstd::prelude::*;

verus! {

/// `p` lies inside a `w` by `h` grid on a cell set in the row-major mask `m`.
pub open spec fn mask_at(m: Seq<bool>, w: int, h: int, p: (int, int)) -> bool {
    0 <= p.0 < w && 0 <= p.1 < h && m[cell_index(w, p.0, p.1)]
}

/// A non-empty walk over cells set in `open`, each step to a 4-neighbour.
pub open spec fn mask_walk(open: Seq<bool>, w: int, h: int, p: Seq<(int, int)>) -> bool {
    &&& p.len() > 0
    &&& forall|i: int| 0 <= i < p.len() ==> mask_at(open, w, h, #[trigger] p[i])
    &&& forall|i: int| 0 <= i < p.len() - 1 ==> adjacent4(#[trigger] p[i], p[i + 1])
}

/// Some walk over `open` cells that begins on a `start` cell ends at `q`
/// after at most `k` steps.
pub open spec fn reach_within(open: Seq<bool>, start: Seq<bool>, w: int, h: int, q: (int, int), k: int) -> bool {
    exists|p: Seq<(int, int)>|
        #[trigger] mask_walk(open, w, h, p) && mask_at(start, w, h, p[0]) && p.last() == q && p.len() <= k + 1
}

/// `v` is the number of steps of a shortest walk over `open` cells from a
/// `start` cell to `q`, or `u32::MAX` when no such walk reaches `q`.
pub open spec fn is_step_count(open: Seq<bool>, start: Seq<bool>, w: int, h: int, q: (int, int), v: u32) -> bool {
    if v == u32::MAX {
        forall|k: int| !#[trigger] reach_within(open, start, w, h, q, k)
    } else {
        reach_within(open, start, w, h, q, v as int) && !reach_within(open, start, w, h, q, v - 1)
    }
}

/// Which entries of a distance vector hold a distance.
pub open spec fn assigned(dist: Seq<u32>) -> Seq<bool> {
    Seq::new(dist.len(), |i: int| dist[i] != u32::MAX)
}

/// Every cell of a grid with `n` cells.
pub open spec fn full_mask(n: nat) -> Seq<bool> {
    Seq::new(n, |i: int| true)
}

/// The floor cells of a grid, row by row.
pub open spec fn floor_mask(g: &Grid<Tile>) -> Seq<bool> {
    Seq::new(g.cells().len(), |i: int| g.cells()[i] == Tile::Floor)
}

/// The non-floor cells of a grid, row by row.
pub open spec fn wall_mask(g: &Grid<Tile>) -> Seq<bool> {
    Seq::new(g.cells().len(), |i: int| g.cells()[i] != Tile::Floor)
}

/// The in-bounds cells named in `sources`, row by row.
pub open spec fn source_mask(g: &Grid<Tile>, sources: Seq<(usize, usize)>) -> Seq<bool> {
    Seq::new(
        g.cells().len(),
        |i: int|
            exists|k: int|
                0 <= k < sources.len() && g.contains(sources[k].0 as int, sources[k].1 as int) && cell_index(
                    g.w() as int,
                    sources[k].0 as int,
                    sources[k].1 as int,
                ) == i,
    )
}

proof fn lemma_reach_mono(open: Seq<bool>, start: Seq<bool>, w: int, h: int, q: (int, int), j: int, k: int)
    requires
        reach_within(open, start, w, h, q, j),
        j <= k,
    ensures
        reach_within(open, start, w, h, q, k),
{
    let p = choose|p: Seq<(int, int)>|
        #[trigger] mask_walk(open, w, h, p) && mask_at(start, w, h, p[0]) && p.last() == q && p.len() <= j + 1;
    assert(mask_walk(open, w, h, p));
}

proof fn lemma_reach_start(open: Seq<bool>, start: Seq<bool>, w: int, h: int, q: (int, int))
    requires
        mask_at(start, w, h, q),
        mask_at(open, w, h, q),
    ensures
        reach_within(open, start, w, h, q, 0),
{
    let p = seq![q];
    assert(mask_walk(open, w, h, p));
}

proof fn lemma_reach_zero(open: Seq<bool>, start: Seq<bool>, w: int, h: int, q: (int, int))
    requires
        reach_within(open, start, w, h, q, 0),
    ensures
        mask_at(start, w, h, q),
        mask_at(open, w, h, q),
{
    let p = choose|p: Seq<(int, int)>|
        #[trigger] mask_walk(open, w, h, p) && mask_at(start, w, h, p[0]) && p.last() == q && p.len() <= 1;
    assert(p[0] == p[p.len() - 1]);
}

/// The end of a walk is an open cell.
proof fn lemma_reach_open(open: Seq<bool>, start: Seq<bool>, w: int, h: int, q: (int, int), k: int)
    requires
        reach_within(open, start, w, h, q, k),
    ensures
        mask_at(open, w, h, q),
        k >= 0,
{
    let p = choose|p: Seq<(int, int)>|
        #[trigger] mask_walk(open, w, h, p) && mask_at(start, w, h, p[0]) && p.last() == q && p.len() <= k + 1;
    assert(mask_at(open, w, h, p[p.len() - 1]));
}

/// One more step to an open neighbour.
proof fn lemma_reach_extend(
    open: Seq<bool>,
    start: Seq<bool>,
    w: int,
    h: int,
    a: (int, int),
    q: (int, int),
    k: int,
)
    requires
        reach_within(open, start, w, h, a, k),
        adjacent4(a, q),
        mask_at(open, w, h, q),
    ensures
        reach_within(open, start, w, h, q, k + 1),
{
    let p = choose|p: Seq<(int, int)>|
        #[trigger] mask_walk(open, w, h, p) && mask_at(start, w, h, p[0]) && p.last() == a && p.len() <= k + 1;
    let p2 = p.push(q);
    assert forall|i: int| 0 <= i < p2.len() implies mask_at(open, w, h, #[trigger] p2[i]) by {
        if i < p.len() {
            assert(p2[i] == p[i]);
        }
    }
    assert forall|i: int| 0 <= i < p2.len() - 1 implies adjacent4(#[trigger] p2[i], p2[i + 1]) by {
        if i < p.len() - 1 {
            assert(p2[i] == p[i] && p2[i + 1] == p[i + 1]);
        }
    }
    assert(mask_walk(open, w, h, p2));
    assert(p2[0] == p[0]);
}

/// A cell first reached after `k + 1` steps has a neighbour reached after `k`.
proof fn lemma_reach_pred(open: Seq<bool>, start: Seq<bool>, w: int, h: int, q: (int, int), k: int) -> (a: (int, int))
    requires
        reach_within(open, start, w, h, q, k + 1),
        !reach_within(open, start, w, h, q, k),
        k >= 0,
    ensures
        adjacent4(a, q),
        reach_within(open, start, w, h, a, k),
{
    let p = choose|p: Seq<(int, int)>|
        #[trigger] mask_walk(open, w, h, p) && mask_at(start, w, h, p[0]) && p.last() == q && p.len() <= k + 2;
    if p.len() <= k + 1 {
        assert(mask_walk(open, w, h, p));
        assert(false);
    }
    let p1 = p.drop_last();
    assert forall|i: int| 0 <= i < p1.len() implies mask_at(open, w, h, #[trigger] p1[i]) by {
        assert(p1[i] == p[i]);
    }
    assert forall|i: int| 0 <= i < p1.len() - 1 implies adjacent4(#[trigger] p1[i], p1[i + 1]) by {
        assert(p1[i] == p[i] && p1[i + 1] == p[i + 1]);
    }
    assert(mask_walk(open, w, h, p1));
    assert(p1[0] == p[0]);
    let a = p1.last();
    assert(adjacent4(p[p.len() - 2], p[p.len() - 1]));
    a
}

/// Between layers: every reached cell holds its step count, exactly the
/// cells within `d` steps are reached, and the frontier lists exactly the
/// cells `d` steps away.
spec fn layer_inv(
    open: Seq<bool>,
    start: Seq<bool>,
    w: int,
    h: int,
    d: int,
    dist: Seq<u32>,
    frontier: Seq<(usize, usize)>,
) -> bool {
    &&& dist.len() == w * h
    &&& forall|k: int| 0 <= k < frontier.len() ==> #[trigger] frontier[k].0 < w && frontier[k].1 < h
    &&& forall|q: (int, int)|
        0 <= q.0 < w && 0 <= q.1 < h ==> {
            &&& (#[trigger] dist[cell_index(w, q.0, q.1)] != u32::MAX) == reach_within(open, start, w, h, q, d)
            &&& dist[cell_index(w, q.0, q.1)] != u32::MAX ==> dist[cell_index(w, q.0, q.1)] <= d
                && is_step_count(open, start, w, h, q, dist[cell_index(w, q.0, q.1)])
            &&& holds_pos(frontier, q) == (dist[cell_index(w, q.0, q.1)] == d)
        }
}

/// While a layer is being expanded from `dist0`: only unreached cells next
/// to an expanded frontier cell gain the distance `d + 1`, and `next` lists
/// exactly those.
spec fn claim_inv(
    open: Seq<bool>,
    start: Seq<bool>,
    w: int,
    h: int,
    d: int,
    dist0: Seq<u32>,
    dist: Seq<u32>,
    frontier: Seq<(usize, usize)>,
    j: int,
    next: Seq<(usize, usize)>,
) -> bool {
    &&& dist.len() == w * h
    &&& forall|k: int| 0 <= k < next.len() ==> #[trigger] next[k].0 < w && next[k].1 < h
    &&& forall|q: (int, int)|
        0 <= q.0 < w && 0 <= q.1 < h ==> {
            &&& dist0[cell_index(w, q.0, q.1)] != u32::MAX ==> #[trigger] dist[cell_index(w, q.0, q.1)]
                == dist0[cell_index(w, q.0, q.1)]
            &&& dist0[cell_index(w, q.0, q.1)] == u32::MAX ==> (dist[cell_index(w, q.0, q.1)] == u32::MAX
                || dist[cell_index(w, q.0, q.1)] == d + 1)
            &&& dist0[cell_index(w, q.0, q.1)] == u32::MAX && dist[cell_index(w, q.0, q.1)] != u32::MAX
                ==> reach_within(open, start, w, h, q, d + 1)
            &&& holds_pos(next, q) == (dist0[cell_index(w, q.0, q.1)] == u32::MAX && dist[cell_index(
                w,
                q.0,
                q.1,
            )] != u32::MAX)
        }
    &&& forall|k: int, q: (int, int)|
        0 <= k < j && #[trigger] adjacent4(pos(frontier[k]), q) && mask_at(open, w, h, q)
            ==> dist[cell_index(w, q.0, q.1)] != u32::MAX
}

/// Sets `dist` at `(x, y)` to `d1` and queues the cell, when it is open and
/// has no distance yet.
fn claim(
    dist: &mut Vec<u32>,
    next: &mut Vec<(usize, usize)>,
    open: &Vec<bool>,
    w: usize,
    h: usize,
    x: usize,
    y: usize,
    d1: u32,
)
    requires
        x < w,
        y < h,
        w * h <= usize::MAX,
        old(dist)@.len() == w * h,
        open@.len() == w * h,
    ensures
        ({
            let i = cell_index(w as int, x as int, y as int);
            let fresh = open@[i] && old(dist)@[i] == u32::MAX;
            &&& final(dist)@ == if fresh { old(dist)@.update(i, d1) } else { old(dist)@ }
            &&& final(next)@ == if fresh { old(next)@.push((x, y)) } else { old(next)@ }
        }),
{
    proof {
        lemma_cell_index_bounds(w as int, h as int, x as int, y as int);
    }
    let i = y * w + x;
    if open[i] && dist[i] == u32::MAX {
        dist.set(i, d1);
        next.push((x, y));
    }
}

#[verifier::spinoff_prover]
proof fn lemma_claim_one(
    open: Seq<bool>,
    w: int,
    h: int,
    x: int,
    y: int,
    d1: u32,
    dist0: Seq<u32>,
    next0: Seq<(usize, usize)>,
    dist: Seq<u32>,
    next: Seq<(usize, usize)>,
)
    requires
        0 <= x < w <= usize::MAX,
        0 <= y < h <= usize::MAX,
        dist0.len() == w * h,
        open.len() == w * h,
        d1 != u32::MAX,
        ({
            let i = cell_index(w, x, y);
            let fresh = open[i] && dist0[i] == u32::MAX;
            &&& dist == if fresh { dist0.update(i, d1) } else { dist0 }
            &&& next == if fresh { next0.push((x as usize, y as usize)) } else { next0 }
        }),
    ensures
        count_true(assigned(dist)) == count_true(assigned(dist0)) + next.len() - next0.len(),
        next0.len() <= next.len(),
        next0 == next.subrange(0, next0.len() as int),
        forall|k: int| next0.len() <= k < next.len() ==> #[trigger] next[k] == (x as usize, y as usize),
        forall|q: (int, int)|
            0 <= q.0 < w && 0 <= q.1 < h ==> {
                let fresh = open[cell_index(w, x, y)] && dist0[cell_index(w, x, y)] == u32::MAX;
                &&& #[trigger] dist[cell_index(w, q.0, q.1)] == if fresh && q == (x, y) {
                    d1
                } else {
                    dist0[cell_index(w, q.0, q.1)]
                }
                &&& holds_pos(next, q) == (holds_pos(next0, q) || (fresh && q == (x, y)))
            },
{
    let i = cell_index(w, x, y);
    lemma_cell_index_bounds(w, h, x, y);
    let fresh = open[i] && dist0[i] == u32::MAX;
    if fresh {
        assert(assigned(dist) =~= assigned(dist0).update(i, true));
        lemma_count_true_flip(assigned(dist0), i);
    }
    assert(next0 =~= next.subrange(0, next0.len() as int));
    assert forall|q: (int, int)| 0 <= q.0 < w && 0 <= q.1 < h implies {
        &&& #[trigger] dist[cell_index(w, q.0, q.1)] == if fresh && q == (x, y) {
            d1
        } else {
            dist0[cell_index(w, q.0, q.1)]
        }
        &&& holds_pos(next, q) == (holds_pos(next0, q) || (fresh && q == (x, y)))
    } by {
        lemma_cell_index_bounds(w, h, q.0, q.1);
        if cell_index(w, q.0, q.1) == i {
            lemma_cell_index_injective(w, q.0, q.1, x, y);
        }
        if fresh {
            if holds_pos(next, q) && !holds_pos(next0, q) {
                let k = choose|k: int| 0 <= k < next.len() && pos(#[trigger] next[k]) == q;
                if k < next0.len() {
                    assert(next[k] == next0[k]);
                }
            }
            if holds_pos(next0, q) {
                let k = choose|k: int| 0 <= k < next0.len() && pos(#[trigger] next0[k]) == q;
                assert(next[k] == next0[k]);
            }
            if q == (x, y) {
                assert(pos(next[next.len() - 1]) == q);
            }
        }
    }
}

/// How claiming the open, unreached cells among the candidates `cand`
/// changes `dist` (they get `d1`) and `next` (they are appended).
spec fn claimed_by(
    open: Seq<bool>,
    w: int,
    h: int,
    cand: spec_fn((int, int)) -> bool,
    d1: u32,
    dist0: Seq<u32>,
    dist: Seq<u32>,
    next0: Seq<(usize, usize)>,
    next: Seq<(usize, usize)>,
) -> bool {
    &&& dist.len() == dist0.len()
    &&& next0.len() <= next.len()
    &&& next0 == next.subrange(0, next0.len() as int)
    &&& forall|k: int| next0.len() <= k < next.len() ==> #[trigger] next[k].0 < w && next[k].1 < h
    &&& count_true(assigned(dist)) == count_true(assigned(dist0)) + next.len() - next0.len()
    &&& forall|q: (int, int)|
        0 <= q.0 < w && 0 <= q.1 < h ==> {
            let fresh = cand(q) && mask_at(open, w, h, q) && dist0[cell_index(w, q.0, q.1)] == u32::MAX;
            &&& #[trigger] dist[cell_index(w, q.0, q.1)] == if fresh {
                d1
            } else {
                dist0[cell_index(w, q.0, q.1)]
            }
            &&& holds_pos(next, q) == (holds_pos(next0, q) || fresh)
        }
}

proof fn lemma_claimed_none(open: Seq<bool>, w: int, h: int, d1: u32, dist0: Seq<u32>, next0: Seq<(usize, usize)>)
    ensures
        claimed_by(open, w, h, |q: (int, int)| false, d1, dist0, dist0, next0, next0),
{
    assert(next0 =~= next0.subrange(0, next0.len() as int));
}

#[verifier::spinoff_prover]
proof fn lemma_claimed_add(
    open: Seq<bool>,
    w: int,
    h: int,
    cand: spec_fn((int, int)) -> bool,
    d1: u32,
    dist0: Seq<u32>,
    dist: Seq<u32>,
    next0: Seq<(usize, usize)>,
    next: Seq<(usize, usize)>,
    x: int,
    y: int,
    dist2: Seq<u32>,
    next2: Seq<(usize, usize)>,
)
    requires
        claimed_by(open, w, h, cand, d1, dist0, dist, next0, next),
        !cand((x, y)),
        0 <= x < w <= usize::MAX,
        0 <= y < h <= usize::MAX,
        dist0.len() == w * h,
        open.len() == w * h,
        d1 != u32::MAX,
        ({
            let i = cell_index(w, x, y);
            let fresh = open[i] && dist[i] == u32::MAX;
            &&& dist2 == if fresh { dist.update(i, d1) } else { dist }
            &&& next2 == if fresh { next.push((x as usize, y as usize)) } else { next }
        }),
    ensures
        claimed_by(open, w, h, |q: (int, int)| cand(q) || q == (x, y), d1, dist0, dist2, next0, next2),
{
    let i = cell_index(w, x, y);
    let cand2 = |q: (int, int)| cand(q) || q == (x, y);
    lemma_claim_one(open, w, h, x, y, d1, dist, next, dist2, next2);
    lemma_cell_index_bounds(w, h, x, y);
    let q0 = (x, y);
    assert(dist[cell_index(w, q0.0, q0.1)] == dist0[cell_index(w, q0.0, q0.1)]);
    assert(next0 =~= next2.subrange(0, next0.len() as int)) by {
        assert forall|k: int| 0 <= k < next0.len() implies next2[k] == next0[k] by {
            assert(next[k] == next0[k]);
        }
    }
    assert forall|k: int| next0.len() <= k < next2.len() implies #[trigger] next2[k].0 < w && next2[k].1 < h by {
        if k < next.len() {
            assert(next2[k] == next[k]);
        }
    }
    assert forall|q: (int, int)| 0 <= q.0 < w && 0 <= q.1 < h implies {
        let fresh2 = cand2(q) && mask_at(open, w, h, q) && dist0[cell_index(w, q.0, q.1)] == u32::MAX;
        &&& #[trigger] dist2[cell_index(w, q.0, q.1)] == if fresh2 {
            d1
        } else {
            dist0[cell_index(w, q.0, q.1)]
        }
        &&& holds_pos(next2, q) == (holds_pos(next0, q) || fresh2)
    } by {
        assert(dist[cell_index(w, q.0, q.1)] == if cand(q) && mask_at(open, w, h, q) && dist0[cell_index(
            w,
            q.0,
            q.1,
        )] == u32::MAX {
            d1
        } else {
            dist0[cell_index(w, q.0, q.1)]
        });
        assert(dist2[cell_index(w, q.0, q.1)] == dist2[cell_index(w, q.0, q.1)]);
        if q == (x, y) {
            assert(cell_index(w, q.0, q.1) == i);
            assert(mask_at(open, w, h, q) == open[i]);
        } else {
            assert(cand2(q) == cand(q));
        }
    }
    assert(claimed_by(open, w, h, cand2, d1, dist0, dist2, next0, next2));
    assert(cand2 =~= |q: (int, int)| cand(q) || q == (x, y));
}

/// Only the candidates' membership inside the grid matters.
proof fn lemma_claimed_same(
    open: Seq<bool>,
    w: int,
    h: int,
    cand: spec_fn((int, int)) -> bool,
    cand2: spec_fn((int, int)) -> bool,
    d1: u32,
    dist0: Seq<u32>,
    dist: Seq<u32>,
    next0: Seq<(usize, usize)>,
    next: Seq<(usize, usize)>,
)
    requires
        claimed_by(open, w, h, cand, d1, dist0, dist, next0, next),
        forall|q: (int, int)| 0 <= q.0 < w && 0 <= q.1 < h ==> #[trigger] cand(q) == cand2(q),
    ensures
        claimed_by(open, w, h, cand2, d1, dist0, dist, next0, next),
{
    assert forall|q: (int, int)| 0 <= q.0 < w && 0 <= q.1 < h implies {
        let fresh = cand2(q) && mask_at(open, w, h, q) && dist0[cell_index(w, q.0, q.1)] == u32::MAX;
        &&& #[trigger] dist[cell_index(w, q.0, q.1)] == if fresh {
            d1
        } else {
            dist0[cell_index(w, q.0, q.1)]
        }
        &&& holds_pos(next, q) == (holds_pos(next0, q) || fresh)
    } by {
        assert(cand(q) == cand2(q));
        let fresh1 = cand(q) && mask_at(open, w, h, q) && dist0[cell_index(w, q.0, q.1)] == u32::MAX;
        assert(dist[cell_index(w, q.0, q.1)] == if fresh1 {
            d1
        } else {
            dist0[cell_index(w, q.0, q.1)]
        });
        assert(holds_pos(next, q) == (holds_pos(next0, q) || fresh1));
    }
}

/// Claims the open, unreached 4-neighbours of `(x, y)` for distance `d1`.
#[verifier::spinoff_prover]
fn claim_around(
    dist: &mut Vec<u32>,
    next: &mut Vec<(usize, usize)>,
    open: &Vec<bool>,
    w: usize,
    h: usize,
    x: usize,
    y: usize,
    d1: u32,
)
    requires
        x < w,
        y < h,
        w * h <= usize::MAX,
        old(dist)@.len() == w * h,
        open@.len() == w * h,
        d1 != u32::MAX,
    ensures
        claimed_by(
            open@,
            w as int,
            h as int,
            |q: (int, int)| adjacent4((x as int, y as int), q),
            d1,
            old(dist)@,
            final(dist)@,
            old(next)@,
            final(next)@,
        ),
{
    let ghost d0 = dist@;
    let ghost n0 = next@;
    let ghost wi = w as int;
    let ghost hi = h as int;
    let ghost xi = x as int;
    let ghost yi = y as int;
    let ghost c0: spec_fn((int, int)) -> bool = |q: (int, int)| false;
    let ghost c1: spec_fn((int, int)) -> bool = |q: (int, int)| q == (xi - 1, yi);
    let ghost c2: spec_fn((int, int)) -> bool = |q: (int, int)| q == (xi - 1, yi) || q == (xi + 1, yi);
    let ghost c3: spec_fn((int, int)) -> bool = |q: (int, int)|
        q == (xi - 1, yi) || q == (xi + 1, yi) || q == (xi, yi - 1);
    let ghost c4: spec_fn((int, int)) -> bool = |q: (int, int)|
        q == (xi - 1, yi) || q == (xi + 1, yi) || q == (xi, yi - 1) || q == (xi, yi + 1);
    proof {
        lemma_claimed_none(open@, wi, hi, d1, d0, n0);
    }
    let ghost da = dist@;
    let ghost na = next@;
    if x > 0 {
        claim(dist, next, open, w, h, x - 1, y, d1);
        proof {
            lemma_claimed_add(open@, wi, hi, c0, d1, d0, da, n0, na, xi - 1, yi, dist@, next@);
            lemma_claimed_same(open@, wi, hi, |q: (int, int)| c0(q) || q == (xi - 1, yi), c1, d1, d0, dist@, n0, next@);
        }
    } else {
        proof {
            lemma_claimed_same(open@, wi, hi, c0, c1, d1, d0, dist@, n0, next@);
        }
    }
    let ghost da = dist@;
    let ghost na = next@;
    if x + 1 < w {
        claim(dist, next, open, w, h, x + 1, y, d1);
        proof {
            lemma_claimed_add(open@, wi, hi, c1, d1, d0, da, n0, na, xi + 1, yi, dist@, next@);
            lemma_claimed_same(open@, wi, hi, |q: (int, int)| c1(q) || q == (xi + 1, yi), c2, d1, d0, dist@, n0, next@);
        }
    } else {
        proof {
            lemma_claimed_same(open@, wi, hi, c1, c2, d1, d0, dist@, n0, next@);
        }
    }
    let ghost da = dist@;
    let ghost na = next@;
    if y > 0 {
        claim(dist, next, open, w, h, x, y - 1, d1);
        proof {
            lemma_claimed_add(open@, wi, hi, c2, d1, d0, da, n0, na, xi, yi - 1, dist@, next@);
            lemma_claimed_same(open@, wi, hi, |q: (int, int)| c2(q) || q == (xi, yi - 1), c3, d1, d0, dist@, n0, next@);
        }
    } else {
        proof {
            lemma_claimed_same(open@, wi, hi, c2, c3, d1, d0, dist@, n0, next@);
        }
    }
    let ghost da = dist@;
    let ghost na = next@;
    if y + 1 < h {
        claim(dist, next, open, w, h, x, y + 1, d1);
        proof {
            lemma_claimed_add(open@, wi, hi, c3, d1, d0, da, n0, na, xi, yi + 1, dist@, next@);
            lemma_claimed_same(open@, wi, hi, |q: (int, int)| c3(q) || q == (xi, yi + 1), c4, d1, d0, dist@, n0, next@);
        }
    } else {
        proof {
            lemma_claimed_same(open@, wi, hi, c3, c4, d1, d0, dist@, n0, next@);
        }
    }
    proof {
        lemma_claimed_same(open@, wi, hi, c4, |q: (int, int)| adjacent4((xi, yi), q), d1, d0, dist@, n0, next@);
    }
}

/// Expanding the layer from `dist0` starts with nothing claimed.
proof fn lemma_claim_start(
    open: Seq<bool>,
    start: Seq<bool>,
    w: int,
    h: int,
    d: int,
    dist0: Seq<u32>,
    frontier: Seq<(usize, usize)>,
)
    requires
        layer_inv(open, start, w, h, d, dist0, frontier),
    ensures
        claim_inv(open, start, w, h, d, dist0, dist0, frontier, 0, seq![]),
{
}

/// Expanding one more frontier cell keeps the expansion invariant.
proof fn lemma_claim_step(
    open: Seq<bool>,
    start: Seq<bool>,
    w: int,
    h: int,
    d: int,
    dist0: Seq<u32>,
    frontier: Seq<(usize, usize)>,
    j: int,
    x: int,
    y: int,
    dist_a: Seq<u32>,
    next_a: Seq<(usize, usize)>,
    dist_b: Seq<u32>,
    next_b: Seq<(usize, usize)>,
)
    requires
        layer_inv(open, start, w, h, d, dist0, frontier),
        claim_inv(open, start, w, h, d, dist0, dist_a, frontier, j, next_a),
        0 <= j < frontier.len(),
        pos(frontier[j]) == (x, y),
        0 <= d,
        d + 1 < u32::MAX,
        claimed_by(
            open,
            w,
            h,
            |q: (int, int)| adjacent4((x, y), q),
            (d + 1) as u32,
            dist_a,
            dist_b,
            next_a,
            next_b,
        ),
    ensures
        claim_inv(open, start, w, h, d, dist0, dist_b, frontier, j + 1, next_b),
{
    let f = pos(frontier[j]);
    assert(0 <= f.0 < w && 0 <= f.1 < h);
    assert(holds_pos(frontier, f));
    assert(dist0[cell_index(w, f.0, f.1)] == d);
    assert(reach_within(open, start, w, h, f, d));
    assert forall|k: int| 0 <= k < next_b.len() implies #[trigger] next_b[k].0 < w && next_b[k].1 < h by {
        if k < next_a.len() {
            assert(next_b[k] == next_a[k]);
        }
    }
    assert forall|q: (int, int)| 0 <= q.0 < w && 0 <= q.1 < h && dist0[cell_index(w, q.0, q.1)] == u32::MAX
        && dist_b[cell_index(w, q.0, q.1)] != u32::MAX implies reach_within(open, start, w, h, q, d + 1) by {
        if dist_a[cell_index(w, q.0, q.1)] == u32::MAX {
            lemma_reach_extend(open, start, w, h, f, q, d);
        }
    }
    assert forall|k: int, q: (int, int)|
        0 <= k < j + 1 && #[trigger] adjacent4(pos(frontier[k]), q) && mask_at(open, w, h, q) implies dist_b[cell_index(
        w,
        q.0,
        q.1,
    )] != u32::MAX by {
        if k < j {
            assert(dist_a[cell_index(w, q.0, q.1)] != u32::MAX);
        }
    }
}

/// A fully expanded layer gives the next layer's invariant.
proof fn lemma_next_layer(
    open: Seq<bool>,
    start: Seq<bool>,
    w: int,
    h: int,
    d: int,
    dist0: Seq<u32>,
    frontier: Seq<(usize, usize)>,
    dist: Seq<u32>,
    next: Seq<(usize, usize)>,
)
    requires
        layer_inv(open, start, w, h, d, dist0, frontier),
        claim_inv(open, start, w, h, d, dist0, dist, frontier, frontier.len() as int, next),
        0 <= d,
        d + 1 < u32::MAX,
    ensures
        layer_inv(open, start, w, h, d + 1, dist, next),
{
    assert forall|q: (int, int)| 0 <= q.0 < w && 0 <= q.1 < h implies {
        &&& (#[trigger] dist[cell_index(w, q.0, q.1)] != u32::MAX) == reach_within(open, start, w, h, q, d + 1)
        &&& dist[cell_index(w, q.0, q.1)] != u32::MAX ==> dist[cell_index(w, q.0, q.1)] <= d + 1
            && is_step_count(open, start, w, h, q, dist[cell_index(w, q.0, q.1)])
        &&& holds_pos(next, q) == (dist[cell_index(w, q.0, q.1)] == d + 1)
    } by {
        let i = cell_index(w, q.0, q.1);
        if dist0[i] != u32::MAX {
            lemma_reach_mono(open, start, w, h, q, d, d + 1);
            assert(dist[i] == dist0[i] && dist0[i] <= d);
        } else {
            assert(dist[i] == u32::MAX || dist[i] == d + 1);
        }
        assert(holds_pos(next, q) == (dist0[i] == u32::MAX && dist[i] != u32::MAX));
        if reach_within(open, start, w, h, q, d + 1) && !reach_within(open, start, w, h, q, d) {
            let a = lemma_reach_pred(open, start, w, h, q, d);
            lemma_reach_open(open, start, w, h, a, d);
            lemma_reach_open(open, start, w, h, q, d + 1);
            let ia = cell_index(w, a.0, a.1);
            assert(dist0[ia] != u32::MAX);
            if dist0[ia] < d {
                lemma_reach_extend(open, start, w, h, a, q, dist0[ia] as int);
                lemma_reach_mono(open, start, w, h, q, dist0[ia] + 1, d);
                assert(false);
            }
            assert(holds_pos(frontier, a));
            let k = choose|k: int| 0 <= k < frontier.len() && pos(#[trigger] frontier[k]) == a;
            assert(adjacent4(pos(frontier[k]), q));
        }
    }
}

/// With an empty frontier every cell without a distance is unreachable.
proof fn lemma_path_within(
    open: Seq<bool>,
    start: Seq<bool>,
    w: int,
    h: int,
    d: int,
    dist: Seq<u32>,
    p: Seq<(int, int)>,
    i: int,
)
    requires
        layer_inv(open, start, w, h, d, dist, seq![]),
        0 <= d,
        mask_walk(open, w, h, p),
        mask_at(start, w, h, p[0]),
        0 <= i < p.len(),
    ensures
        reach_within(open, start, w, h, p[i], d),
    decreases i,
{
    if i == 0 {
        lemma_reach_start(open, start, w, h, p[0]);
        lemma_reach_mono(open, start, w, h, p[0], 0, d);
    } else {
        lemma_path_within(open, start, w, h, d, dist, p, i - 1);
        let a = p[i - 1];
        assert(mask_at(open, w, h, a));
        assert(mask_at(open, w, h, p[i]));
        assert(adjacent4(p[i - 1], p[i]));
        let v = dist[cell_index(w, a.0, a.1)];
        assert(v != u32::MAX);
        assert(!holds_pos(seq![], a));
        lemma_reach_extend(open, start, w, h, a, p[i], v as int);
        lemma_reach_mono(open, start, w, h, p[i], v + 1, d);
    }
}

#[verifier::spinoff_prover]
proof fn lemma_bfs_done(open: Seq<bool>, start: Seq<bool>, w: int, h: int, d: int, dist: Seq<u32>)
    requires
        layer_inv(open, start, w, h, d, dist, seq![]),
        0 <= d,
    ensures
        forall|x: int, y: int|
            0 <= x < w && 0 <= y < h ==> is_step_count(open, start, w, h, (x, y), #[trigger] dist[cell_index(w, x, y)]),
{
    assert forall|x: int, y: int| 0 <= x < w && 0 <= y < h implies is_step_count(
        open,
        start,
        w,
        h,
        (x, y),
        #[trigger] dist[cell_index(w, x, y)],
    ) by {
        let q = (x, y);
        assert(dist[cell_index(w, q.0, q.1)] == dist[cell_index(w, x, y)]);
        if dist[cell_index(w, x, y)] == u32::MAX {
            assert forall|k: int| !#[trigger] reach_within(open, start, w, h, q, k) by {
                if reach_within(open, start, w, h, q, k) {
                    let p = choose|p: Seq<(int, int)>|
                        #[trigger] mask_walk(open, w, h, p) && mask_at(start, w, h, p[0]) && p.last() == q
                            && p.len() <= k + 1;
                    lemma_path_within(open, start, w, h, d, dist, p, p.len() - 1);
                }
            }
        }
    }
}

/// Breadth-first step counts from the `start` cells over the `open` cells
/// of a `w` by `h` grid, layer by layer; `u32::MAX` marks unreachable cells.
#[verifier::spinoff_prover]
fn step_counts(open: &Vec<bool>, start: &Vec<bool>, w: usize, h: usize) -> (dist: Vec<u32>)
    requires
        open@.len() == w * h,
        start@.len() == w * h,
        w * h < u32::MAX,
        w * h <= usize::MAX,
    ensures
        dist@.len() == w * h,
        forall|x: int, y: int|
            0 <= x < w && 0 <= y < h ==> is_step_count(
                open@,
                start@,
                w as int,
                h as int,
                (x, y),
                #[trigger] dist@[cell_index(w as int, x, y)],
            ),
{
    let ghost wi = w as int;
    let ghost hi = h as int;
    let n = w * h;
    let mut dist = filled_vec(u32::MAX, n);
    let mut frontier: Vec<(usize, usize)> = Vec::new();
    proof {
        assert(assigned(dist@) =~= Seq::new(n as nat, |i: int| false));
        lemma_count_none(n as nat);
        assert forall|q: (int, int)| 0 <= q.0 < w && 0 <= q.1 < h implies #[trigger] dist@[cell_index(
            wi,
            q.0,
            q.1,
        )] == u32::MAX && !holds_pos(frontier@, q) by {
            lemma_cell_index_bounds(wi, hi, q.0, q.1);
        }
    }
    let mut y: usize = 0;
    while y < h
        invariant
            y <= h,
            wi == w,
            hi == h,
            n == w * h,
            n <= usize::MAX,
            open@.len() == n,
            start@.len() == n,
            dist@.len() == n,
            count_true(assigned(dist@)) == frontier@.len(),
            forall|k: int| 0 <= k < frontier@.len() ==> #[trigger] frontier@[k].0 < w && frontier@[k].1 < h,
            forall|q: (int, int)|
                0 <= q.0 < w && 0 <= q.1 < h ==> {
                    let seeded = q.1 < y && mask_at(start@, wi, hi, q) && mask_at(open@, wi, hi, q);
                    &&& #[trigger] dist@[cell_index(wi, q.0, q.1)] == if seeded { 0u32 } else { u32::MAX }
                    &&& holds_pos(frontier@, q) == seeded
                },
        decreases h - y,
    {
        let mut x: usize = 0;
        while x < w
            invariant
                x <= w,
                y < h,
                wi == w,
                hi == h,
                n == w * h,
                n <= usize::MAX,
                open@.len() == n,
                start@.len() == n,
                dist@.len() == n,
                count_true(assigned(dist@)) == frontier@.len(),
                forall|k: int| 0 <= k < frontier@.len() ==> #[trigger] frontier@[k].0 < w && frontier@[k].1 < h,
                forall|q: (int, int)|
                    0 <= q.0 < w && 0 <= q.1 < h ==> {
                        let seeded = (q.1 < y || (q.1 == y && q.0 < x)) && mask_at(start@, wi, hi, q) && mask_at(
                            open@,
                            wi,
                            hi,
                            q,
                        );
                        &&& #[trigger] dist@[cell_index(wi, q.0, q.1)] == if seeded { 0u32 } else { u32::MAX }
                        &&& holds_pos(frontier@, q) == seeded
                    },
            decreases w - x,
        {
            proof {
                lemma_cell_index_bounds(wi, hi, x as int, y as int);
            }
            if start[y * w + x] {
                let ghost da = dist@;
                let ghost fa = frontier@;
                claim(&mut dist, &mut frontier, open, w, h, x, y, 0);
                proof {
                    lemma_claim_one(open@, wi, hi, x as int, y as int, 0, da, fa, dist@, frontier@);
                    let q0 = (x as int, y as int);
                    assert(da[cell_index(wi, q0.0, q0.1)] == u32::MAX);
                }
            }
            x = x + 1;
        }
        y = y + 1;
    }
    proof {
        lemma_count_true_bound(assigned(dist@));
        assert forall|q: (int, int)| 0 <= q.0 < w && 0 <= q.1 < h implies {
            &&& (#[trigger] dist@[cell_index(wi, q.0, q.1)] != u32::MAX) == reach_within(open@, start@, wi, hi, q, 0)
            &&& dist@[cell_index(wi, q.0, q.1)] != u32::MAX ==> dist@[cell_index(wi, q.0, q.1)] <= 0
                && is_step_count(open@, start@, wi, hi, q, dist@[cell_index(wi, q.0, q.1)])
            &&& holds_pos(frontier@, q) == (dist@[cell_index(wi, q.0, q.1)] == 0)
        } by {
            if reach_within(open@, start@, wi, hi, q, 0) {
                lemma_reach_zero(open@, start@, wi, hi, q);
            }
            if mask_at(start@, wi, hi, q) && mask_at(open@, wi, hi, q) {
                lemma_reach_start(open@, start@, wi, hi, q);
            }
        }
        assert(layer_inv(open@, start@, wi, hi, 0, dist@, frontier@));
    }
    let mut d: u32 = 0;
    while frontier.len() > 0
        invariant
            wi == w,
            hi == h,
            n == w * h,
            n < u32::MAX,
            n <= usize::MAX,
            open@.len() == n,
            start@.len() == n,
            layer_inv(open@, start@, wi, hi, d as int, dist@, frontier@),
            d + (if frontier@.len() > 0 { 1int } else { 0int }) <= count_true(assigned(dist@)),
            count_true(assigned(dist@)) <= n,
        decreases n - count_true(assigned(dist@)) + if frontier@.len() > 0 { 1int } else { 0int },
    {
        let ghost dist0 = dist@;
        let d1 = d + 1;
        let mut next: Vec<(usize, usize)> = Vec::new();
        proof {
            lemma_claim_start(open@, start@, wi, hi, d as int, dist0, frontier@);
        }
        let mut j: usize = 0;
        while j < frontier.len()
            invariant
                j <= frontier@.len(),
                wi == w,
                hi == h,
                n == w * h,
                n < u32::MAX,
                n <= usize::MAX,
                open@.len() == n,
                start@.len() == n,
                d1 == d + 1,
                d1 < u32::MAX,
                layer_inv(open@, start@, wi, hi, d as int, dist0, frontier@),
                claim_inv(open@, start@, wi, hi, d as int, dist0, dist@, frontier@, j as int, next@),
                count_true(assigned(dist@)) == count_true(assigned(dist0)) + next@.len(),
            decreases frontier@.len() - j,
        {
            let (x, y) = frontier[j];
            let ghost da = dist@;
            let ghost na = next@;
            claim_around(&mut dist, &mut next, open, w, h, x, y, d1);
            proof {
                lemma_claim_step(
                    open@,
                    start@,
                    wi,
                    hi,
                    d as int,
                    dist0,
                    frontier@,
                    j as int,
                    x as int,
                    y as int,
                    da,
                    na,
                    dist@,
                    next@,
                );
            }
            j = j + 1;
        }
        proof {
            lemma_next_layer(open@, start@, wi, hi, d as int, dist0, frontier@, dist@, next@);
            lemma_count_true_bound(assigned(dist@));
        }
        frontier = next;
        d = d1;
    }
    proof {
        assert(frontier@ =~= seq![]);
        lemma_bfs_done(open@, start@, wi, hi, d as int, dist@);
    }
    dist
}

proof fn lemma_count_none(n: nat)
    ensures
        count_true(Seq::new(n, |i: int| false)) == 0,
    decreases n,
{
    if n > 0 {
        assert(Seq::new(n, |i: int| false).drop_last() =~= Seq::new((n - 1) as nat, |i: int| false));
        lemma_count_none((n - 1) as nat);
    }
}

/// Splits row-major values into `h` rows of `w`.
fn into_rows(flat: &Vec<u32>, w: usize, h: usize) -> (rows: Vec<Vec<u32>>)
    requires
        flat@.len() == w * h,
        w * h <= usize::MAX,
    ensures
        rows@.len() == h,
        forall|y: int| 0 <= y < h ==> (#[trigger] rows@[y])@.len() == w,
        forall|x: int, y: int|
            0 <= x < w && 0 <= y < h ==> #[trigger] rows@[y]@[x] == flat@[cell_index(w as int, x, y)],
{
    let mut rows: Vec<Vec<u32>> = Vec::with_capacity(h);
    let mut y: usize = 0;
    while y < h
        invariant
            y <= h,
            flat@.len() == w * h,
            w * h <= usize::MAX,
            rows@.len() == y,
            forall|yy: int| 0 <= yy < y ==> (#[trigger] rows@[yy])@.len() == w,
            forall|x: int, yy: int|
                0 <= x < w && 0 <= yy < y ==> #[trigger] rows@[yy]@[x] == flat@[cell_index(w as int, x, yy)],
        decreases h - y,
    {
        let mut row: Vec<u32> = Vec::with_capacity(w);
        let mut x: usize = 0;
        while x < w
            invariant
                x <= w,
                y < h,
                flat@.len() == w * h,
                w * h <= usize::MAX,
                row@.len() == x,
                forall|xx: int| 0 <= xx < x ==> #[trigger] row@[xx] == flat@[cell_index(w as int, xx, y as int)],
            decreases w - x,
        {
            proof {
                lemma_cell_index_bounds(w as int, h as int, x as int, y as int);
            }
            row.push(flat[y * w + x]);
            x = x + 1;
        }
        rows.push(row);
        y = y + 1;
    }
    rows
}

/// Steps from every cell to the nearest non-floor cell, moving between
/// 4-neighbours through any cells; `u32::MAX` everywhere when the grid has
/// no such cell. Indexed `[y][x]`.
pub fn distance_transform(grid: &Grid<Tile>) -> (r: Vec<Vec<u32>>)
    requires
        grid.wf(),
        grid.w() * grid.h() < u32::MAX,
    ensures
        r@.len() == grid.h(),
        forall|y: int| 0 <= y < grid.h() ==> (#[trigger] r@[y])@.len() == grid.w(),
        forall|x: int, y: int|
            grid.contains(x, y) ==> is_step_count(
                full_mask(grid.w() * grid.h()),
                wall_mask(grid),
                grid.w() as int,
                grid.h() as int,
                (x, y),
                #[trigger] r@[y]@[x],
            ),
{
    let w = grid.width();
    let h = grid.height();
    let floors = floor_snapshot(grid);
    let n = floors.len();
    let open = filled_vec(true, n);
    let mut walls: Vec<bool> = Vec::with_capacity(n);
    let mut i: usize = 0;
    while i < n
        invariant
            i <= n,
            n == floors@.len(),
            n == grid.cells().len(),
            forall|k: int| 0 <= k < n ==> floors@[k] == (grid.cells()[k] == Tile::Floor),
            walls@.len() == i,
            forall|k: int| 0 <= k < i ==> walls@[k] == (grid.cells()[k] != Tile::Floor),
        decreases n - i,
    {
        walls.push(!floors[i]);
        i = i + 1;
    }
    proof {
        assert(open@ =~= full_mask(grid.w() * grid.h()));
        assert(walls@ =~= wall_mask(grid));
    }
    let dist = step_counts(&open, &walls, w, h);
    into_rows(&dist, w, h)
}

/// Steps from the nearest source over floor cells (4-neighbours) to every
/// cell; sources outside the grid or off the floor are ignored, and cells no
/// walk reaches hold `u32::MAX`. Indexed `[y][x]`.
pub fn dijkstra_map(grid: &Grid<Tile>, sources: &[(usize, usize)]) -> (r: Vec<Vec<u32>>)
    requires
        grid.wf(),
        grid.w() * grid.h() < u32::MAX,
    ensures
        r@.len() == grid.h(),
        forall|y: int| 0 <= y < grid.h() ==> (#[trigger] r@[y])@.len() == grid.w(),
        forall|x: int, y: int|
            grid.contains(x, y) ==> is_step_count(
                floor_mask(grid),
                source_mask(grid, sources@),
                grid.w() as int,
                grid.h() as int,
                (x, y),
                #[trigger] r@[y]@[x],
            ),
{
    let w = grid.width();
    let h = grid.height();
    let open = floor_snapshot(grid);
    let n = open.len();
    let mut marks = filled_vec(false, n);
    let mut k: usize = 0;
    while k < sources.len()
        invariant
            k <= sources@.len(),
            w == grid.w(),
            h == grid.h(),
            n == grid.cells().len(),
            grid.wf(),
            marks@.len() == n,
            forall|i: int|
                0 <= i < n ==> #[trigger] marks@[i] == exists|j: int|
                    0 <= j < k && grid.contains(sources@[j].0 as int, sources@[j].1 as int) && cell_index(
                        w as int,
                        sources@[j].0 as int,
                        sources@[j].1 as int,
                    ) == i,
        decreases sources@.len() - k,
    {
        let (x, y) = sources[k];
        if x < w && y < h {
            proof {
                lemma_cell_index_bounds(w as int, h as int, x as int, y as int);
            }
            marks.set(y * w + x, true);
        }
        proof {
            assert forall|i: int| 0 <= i < n implies #[trigger] marks@[i] == exists|j: int|
                0 <= j < k + 1 && grid.contains(sources@[j].0 as int, sources@[j].1 as int) && cell_index(
                    w as int,
                    sources@[j].0 as int,
                    sources@[j].1 as int,
                ) == i by {
                if grid.contains(x as int, y as int) && cell_index(w as int, x as int, y as int) == i {
                    assert(sources@[k as int] == (x, y));
                }
            }
        }
        k = k + 1;
    }
    proof {
        assert(open@ =~= floor_mask(grid));
        assert(marks@ =~= source_mask(grid, sources@));
    }
    let dist = step_counts(&open, &marks, w, h);
    into_rows(&dist, w, h)
}

/// Step counts change by at most one between open 4-neighbours: when `p`
/// is reached in `vp` steps, its open neighbour `q` is reached in at most
/// `vp + 1`.
pub proof fn law_step_counts_adjacent(
    open: Seq<bool>,
    start: Seq<bool>,
    w: int,
    h: int,
    p: (int, int),
    q: (int, int),
    vp: u32,
    vq: u32,
)
    requires
        is_step_count(open, start, w, h, p, vp),
        is_step_count(open, start, w, h, q, vq),
        adjacent4(p, q),
        mask_at(open, w, h, q),
        vp != u32::MAX,
    ensures
        vq != u32::MAX,
        vq <= vp + 1,
{
    lemma_reach_extend(open, start, w, h, p, q, vp as int);
    if vq == u32::MAX {
        assert(!reach_within(open, start, w, h, q, vp + 1));
    } else if vq > vp + 1 {
        lemma_reach_mono(open, start, w, h, q, vp + 1, vq - 1);
    }
}

/// An open start cell is reached in zero steps.
pub proof fn law_start_counts_zero(open: Seq<bool>, start: Seq<bool>, w: int, h: int, q: (int, int), v: u32)
    requires
        is_step_count(open, start, w, h, q, v),
        mask_at(start, w, h, q),
        mask_at(open, w, h, q),
    ensures
        v == 0,
{
    lemma_reach_start(open, start, w, h, q);
    if v == u32::MAX {
        assert(!reach_within(open, start, w, h, q, 0));
    } else if v > 0 {
        lemma_reach_mono(open, start, w, h, q, 0, v - 1);
    }
}

/// Along a walk, the taxicab distance from its first cell grows by at most
/// one per step.
proof fn lemma_walk_taxicab(open: Seq<bool>, w: int, h: int, p: Seq<(int, int)>, i: int)
    requires
        mask_walk(open, w, h, p),
        0 <= i < p.len(),
    ensures
        manhattan(p[0], p[i]) <= i,
    decreases i,
{
    if i > 0 {
        lemma_walk_taxicab(open, w, h, p, i - 1);
        assert(adjacent4(p[i - 1], p[i]));
    }
}

/// The `i`-th cell of a walk from `a` to `q` that first moves along the
/// row, then along the column.
pub open spec fn stair_point(a: (int, int), q: (int, int), i: int) -> (int, int) {
    let nx = if q.0 >= a.0 { q.0 - a.0 } else { a.0 - q.0 };
    if i <= nx {
        (if q.0 >= a.0 { a.0 + i } else { a.0 - i }, a.1)
    } else {
        (q.0, if q.1 >= a.1 { a.1 + (i - nx) } else { a.1 - (i - nx) })
    }
}

/// With every cell open, a start cell `a` reaches `q` in its taxicab
/// distance.
proof fn lemma_reach_taxicab(start: Seq<bool>, w: int, h: int, a: (int, int), q: (int, int))
    requires
        start.len() == w * h,
        mask_at(start, w, h, a),
        0 <= q.0 < w,
        0 <= q.1 < h,
    ensures
        reach_within(full_mask((w * h) as nat), start, w, h, q, manhattan(a, q)),
{
    let full = full_mask((w * h) as nat);
    let n = manhattan(a, q);
    let p = Seq::new((n + 1) as nat, |i: int| stair_point(a, q, i));
    assert forall|i: int| 0 <= i < p.len() implies mask_at(full, w, h, #[trigger] p[i]) by {
        let c = p[i];
        assert(0 <= c.0 < w && 0 <= c.1 < h);
        lemma_cell_index_bounds(w, h, c.0, c.1);
    }
    assert forall|i: int| 0 <= i < p.len() - 1 implies adjacent4(#[trigger] p[i], p[i + 1]) by {
        assert(p[i] == stair_point(a, q, i));
        assert(p[i + 1] == stair_point(a, q, i + 1));
    }
    assert(mask_walk(full, w, h, p));
    assert(p[0] == a);
    assert(p.last() == q);
}

/// Where every cell is open, the step count to a cell is its taxicab
/// distance to the nearest start cell, and `u32::MAX` exactly when there is
/// no start cell. This is what [`distance_transform`] gives, with the
/// non-floor cells as start cells.
pub proof fn law_open_steps_are_taxicab(start: Seq<bool>, w: int, h: int, q: (int, int), v: u32)
    requires
        start.len() == w * h,
        0 <= q.0 < w,
        0 <= q.1 < h,
        is_step_count(full_mask((w * h) as nat), start, w, h, q, v),
    ensures
        (v == u32::MAX) == (forall|a: (int, int)| !#[trigger] mask_at(start, w, h, a)),
        v != u32::MAX ==> exists|a: (int, int)| #[trigger] mask_at(start, w, h, a) && manhattan(a, q) == v,
        v != u32::MAX ==> forall|a: (int, int)| #[trigger] mask_at(start, w, h, a) ==> manhattan(a, q) >= v,
{
    let full = full_mask((w * h) as nat);
    if v == u32::MAX {
        assert forall|a: (int, int)| !#[trigger] mask_at(start, w, h, a) by {
            if mask_at(start, w, h, a) {
                lemma_reach_taxicab(start, w, h, a, q);
                assert(!reach_within(full, start, w, h, q, manhattan(a, q)));
            }
        }
    } else {
        let p = choose|p: Seq<(int, int)>|
            #[trigger] mask_walk(full, w, h, p) && mask_at(start, w, h, p[0]) && p.last() == q && p.len() <= v + 1;
        lemma_walk_taxicab(full, w, h, p, p.len() - 1);
        let a0 = p[0];
        assert(mask_at(start, w, h, a0));
        assert forall|a: (int, int)| #[trigger] mask_at(start, w, h, a) implies manhattan(a, q) >= v by {
            if manhattan(a, q) < v {
                lemma_reach_taxicab(start, w, h, a, q);
                lemma_reach_mono(full, start, w, h, q, manhattan(a, q), v - 1);
            }
        }
        assert(manhattan(a0, q) == v);
    }
}

} // verus!

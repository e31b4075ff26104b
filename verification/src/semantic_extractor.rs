//! Semantic extraction that works on any grid: regions, their
//! classification, marker sites and region adjacency.

use crate::effects::connectivity::{has_label, label_at, label_regions};
use crate::grid::{cell_index, lemma_cell_index_bounds, lemma_cell_index_decompose, lemma_cell_index_injective, Grid, Tile};
use crate::semantic::{ConnectivityGraph, ConnectivityType, Region};
use vstd::prelude::*;

verus! {

/// A region cell, read as a point.
pub open spec fn cell_pos(c: (u32, u32)) -> (int, int) {
    (c.0 as int, c.1 as int)
}

/// Row-major index of a region cell in a `w`-wide grid.
pub open spec fn cell_rank(w: int, c: (u32, u32)) -> int {
    cell_index(w, c.0 as int, c.1 as int)
}

/// `rs` are the floor regions of `g`: region `k` has id `k + 1`, kind
/// `Unknown` and no tags, and lists in row-major order exactly the floor
/// cells connected to its first cell; regions come in row-major order of
/// their first cells, no two are connected, and every floor cell lies in
/// one of them.
pub open spec fn extracted(g: &Grid<Tile>, rs: Seq<Region>) -> bool {
    let w = g.w() as int;
    &&& forall|k: int|
        0 <= k < rs.len() ==> (#[trigger] rs[k]).id == k + 1 && rs[k].kind@ == "Unknown"@ && rs[k].tags@.len() == 0
            && rs[k].cells@.len() > 0
    &&& forall|k: int, i: int|
        0 <= k < rs.len() && 0 <= i < rs[k].cells@.len() ==> g.open_at(cell_pos(#[trigger] rs[k].cells@[i]))
            && g.connected(cell_pos(rs[k].cells@[0]), cell_pos(rs[k].cells@[i]))
    &&& forall|k: int, i: int, j: int|
        0 <= k < rs.len() && 0 <= i < j < rs[k].cells@.len() ==> cell_rank(w, #[trigger] rs[k].cells@[i]) < cell_rank(
            w,
            #[trigger] rs[k].cells@[j],
        )
    &&& forall|k: int, p: (int, int)|
        0 <= k < rs.len() && #[trigger] g.connected(cell_pos(rs[k].cells@[0]), p) ==> exists|i: int|
            0 <= i < rs[k].cells@.len() && cell_pos(#[trigger] rs[k].cells@[i]) == p
    &&& forall|k1: int, k2: int|
        0 <= k1 < k2 < rs.len() ==> cell_rank(w, (#[trigger] rs[k1]).cells@[0]) < cell_rank(w, (#[trigger] rs[k2]).cells@[0])
            && !g.connected(cell_pos(rs[k1].cells@[0]), cell_pos(rs[k2].cells@[0]))
    &&& forall|p: (int, int)|
        #[trigger] g.open_at(p) ==> exists|k: int, i: int|
            0 <= k < rs.len() && 0 <= i < rs[k].cells@.len() && cell_pos(#[trigger] rs[k].cells@[i]) == p
}

/// The cells carrying label `id`, in row-major order.
fn cells_with_label(labels: &Vec<u32>, w: usize, h: usize, id: u32) -> (r: Vec<(u32, u32)>)
    requires
        labels@.len() == w * h,
        w * h <= u32::MAX,
    ensures
        forall|i: int| 0 <= i < r@.len() ==> 0 <= (#[trigger] r@[i]).0 < w && 0 <= r@[i].1 < h,
        forall|i: int| 0 <= i < r@.len() ==> labels@[cell_rank(w as int, #[trigger] r@[i])] == id,
        forall|i: int, j: int| 0 <= i < j < r@.len() ==> cell_rank(w as int, #[trigger] r@[i]) < cell_rank(w as int, #[trigger] r@[j]),
        forall|m: int| 0 <= m < w * h && labels@[m] == id ==> exists|i: int| 0 <= i < r@.len() && cell_rank(w as int, #[trigger] r@[i]) == m,
{
    let n = w * h;
    let ghost wi = w as int;
    let ghost hi = h as int;
    let mut r: Vec<(u32, u32)> = Vec::new();
    let mut m: usize = 0;
    while m < n
        invariant
            labels@.len() == n,
            n == w * h,
            n <= u32::MAX,
            wi == w,
            hi == h,
            m <= n,
            forall|i: int| 0 <= i < r@.len() ==> 0 <= (#[trigger] r@[i]).0 < w && 0 <= r@[i].1 < h,
            forall|i: int| 0 <= i < r@.len() ==> labels@[cell_rank(wi, #[trigger] r@[i])] == id,
            forall|i: int| 0 <= i < r@.len() ==> cell_rank(wi, #[trigger] r@[i]) < m,
            forall|i: int, j: int| 0 <= i < j < r@.len() ==> cell_rank(wi, #[trigger] r@[i]) < cell_rank(wi, #[trigger] r@[j]),
            forall|q: int| 0 <= q < m && labels@[q] == id ==> exists|i: int| 0 <= i < r@.len() && cell_rank(wi, #[trigger] r@[i]) == q,
        decreases n - m,
    {
        if labels[m] == id {
            proof {
                assert(0 < w) by (nonlinear_arith)
                    requires
                        m < n,
                        n == w * h,
                ;
                lemma_cell_index_decompose(wi, hi, m as int);
            }
            let x = (m % w) as u32;
            let y = (m / w) as u32;
            let ghost r0 = r@;
            r.push((x, y));
            proof {
                assert(cell_rank(wi, r@[r@.len() - 1]) == m);
                assert forall|q: int| 0 <= q < m + 1 && labels@[q] == id implies exists|i: int|
                    0 <= i < r@.len() && cell_rank(wi, #[trigger] r@[i]) == q by {
                    if q < m {
                        let i = choose|i: int| 0 <= i < r0.len() && cell_rank(wi, #[trigger] r0[i]) == q;
                        assert(r@[i] == r0[i]);
                    } else {
                        assert(cell_rank(wi, r@[r0.len() as int]) == q);
                    }
                }
            }
        }
        m = m + 1;
    }
    r
}

/// Region `k` of `rs` lists the cell of row-major index `m`.
spec fn lists_label(rs: Seq<Region>, w: int, k: int, m: int) -> bool {
    exists|i: int| 0 <= i < rs[k].cells@.len() && cell_rank(w, #[trigger] rs[k].cells@[i]) == m
}

/// What `label_regions` promises of `labels` and `count`.
#[verifier::opaque]
spec fn labelled(g: &Grid<Tile>, labels: Seq<u32>, count: u32) -> bool {
    let w = g.w() as int;
    &&& labels.len() == g.w() * g.h()
    &&& forall|p: (int, int)| g.contains(p.0, p.1) ==> ((#[trigger] label_at(labels, w, p) == 0) == !g.open_at(p))
    &&& forall|p: (int, int)| #[trigger] g.open_at(p) ==> 1 <= label_at(labels, w, p) <= count
    &&& forall|p: (int, int), q: (int, int)|
        g.open_at(p) && g.open_at(q) ==> ((#[trigger] label_at(labels, w, p) == #[trigger] label_at(labels, w, q))
            == g.connected(p, q))
    &&& forall|l: u32| 1 <= l <= count ==> #[trigger] has_label(g, labels, l)
    &&& forall|p: (int, int)|
        #[trigger] g.open_at(p) && label_at(labels, w, p) > 1 ==> exists|q: (int, int)|
            #[trigger] g.open_at(q) && cell_index(w, q.0, q.1) < cell_index(w, p.0, p.1) && label_at(labels, w, q)
                == label_at(labels, w, p) - 1
}

/// Region `k` of `rs` has id `k + 1`, kind `Unknown`, no tags, and lists in
/// row-major order exactly the cells labelled `k + 1`.
#[verifier::opaque]
spec fn listed(g: &Grid<Tile>, labels: Seq<u32>, rs: Seq<Region>) -> bool {
    let w = g.w() as int;
    &&& forall|k: int|
        0 <= k < rs.len() ==> (#[trigger] rs[k]).id == k + 1 && rs[k].kind@ == "Unknown"@ && rs[k].tags@.len() == 0
            && rs[k].cells@.len() > 0
    &&& forall|k: int, i: int|
        0 <= k < rs.len() && 0 <= i < rs[k].cells@.len() ==> 0 <= (#[trigger] rs[k].cells@[i]).0 < g.w()
            && rs[k].cells@[i].1 < g.h() && labels[cell_rank(w, rs[k].cells@[i])] == k + 1
    &&& forall|k: int, i: int, j: int|
        0 <= k < rs.len() && 0 <= i < j < rs[k].cells@.len() ==> cell_rank(w, #[trigger] rs[k].cells@[i]) < cell_rank(
            w,
            #[trigger] rs[k].cells@[j],
        )
    &&& forall|k: int, m: int|
        0 <= k < rs.len() && 0 <= m < g.w() * g.h() && labels[m] == k + 1 ==> #[trigger] lists_label(rs, w, k, m)
}

/// The floor regions of `grid` (see [`extracted`]).
pub fn extract_regions(grid: &Grid<Tile>) -> (r: Vec<Region>)
    requires
        grid.wf(),
        grid.w() * grid.h() <= u32::MAX,
    ensures
        extracted(grid, r@),
{
    let (labels, count) = label_regions(grid);
    let w = grid.width();
    let h = grid.height();
    let ghost wi = w as int;
    let ghost hi = h as int;
    proof {
        reveal(labelled);
        reveal(listed);
    }
    let mut regions: Vec<Region> = Vec::new();
    let mut id: u64 = 1;
    while id <= count as u64
        invariant
            grid.wf(),
            wi == w,
            hi == h,
            w == grid.w(),
            h == grid.h(),
            w * h <= u32::MAX,
            labels@.len() == w * h,
            1 <= id <= count + 1,
            regions@.len() == id - 1,
            labelled(grid, labels@, count),
            listed(grid, labels@, regions@),
        decreases count + 1 - id,
    {
        let lid = id as u32;
        let cells = cells_with_label(&labels, w, h, lid);
        let mut region = Region::new(lid, "Unknown".to_string());
        let mut j: usize = 0;
        while j < cells.len()
            invariant
                j <= cells@.len(),
                region.id == lid,
                region.kind@ == "Unknown"@,
                region.tags@.len() == 0,
                region.cells@ == cells@.take(j as int),
            decreases cells@.len() - j,
        {
            region.add_cell(cells[j].0, cells[j].1);
            proof {
                assert(cells@.take(j as int).push(cells@[j as int]) =~= cells@.take(j + 1));
            }
            j = j + 1;
        }
        proof {
            reveal(labelled);
            assert(cells@.take(cells@.len() as int) =~= cells@);
            // The label is carried by some cell, so the region is not empty.
            assert(has_label(grid, labels@, lid));
            let p = choose|p: (int, int)| #[trigger] grid.open_at(p) && label_at(labels@, wi, p) == lid;
            let wk = choose|wk: Seq<(int, int)>| #[trigger] grid.is_walk(wk) && wk[0] == p && wk.last() == p;
            assert(grid.open_at(wk[0]));
            lemma_cell_index_bounds(wi, hi, p.0, p.1);
            let m = cell_index(wi, p.0, p.1);
            assert(labels@[m] == lid);
        }
        let ghost rs0 = regions@;
        if !region.cells.is_empty() {
            regions.push(region);
        }
        proof {
            reveal(listed);
            let rs = regions@;
            assert(rs.len() == rs0.len() + 1);
            assert forall|k: int, m: int|
                0 <= k < rs.len() && 0 <= m < w * h && labels@[m] == k + 1 implies #[trigger] lists_label(rs, wi, k, m) by {
                if k < rs0.len() {
                    assert(lists_label(rs0, wi, k, m));
                    let i = choose|i: int| 0 <= i < rs0[k].cells@.len() && cell_rank(wi, #[trigger] rs0[k].cells@[i]) == m;
                    assert(rs[k] == rs0[k]);
                    assert(cell_rank(wi, rs[k].cells@[i]) == m);
                } else {
                    let i = choose|i: int| 0 <= i < cells@.len() && cell_rank(wi, #[trigger] cells@[i]) == m;
                    assert(cell_rank(wi, rs[k].cells@[i]) == m);
                }
            }
            assert(listed(grid, labels@, rs));
        }
        id = id + 1;
    }
    proof {
        lemma_extracted(grid, labels@, count, regions@);
    }
    regions
}

/// The regions listed from the labels of `label_regions` are the floor
/// regions of the grid.
proof fn lemma_extracted(g: &Grid<Tile>, labels: Seq<u32>, count: u32, rs: Seq<Region>)
    requires
        g.wf(),
        rs.len() == count,
        labelled(g, labels, count),
        listed(g, labels, rs),
    ensures
        extracted(g, rs),
{
    reveal(labelled);
    reveal(listed);
    let w = g.w() as int;
    let h = g.h() as int;
    // Each listed cell is open and carries its region's label.
    assert forall|k: int, i: int| 0 <= k < rs.len() && 0 <= i < rs[k].cells@.len() implies g.open_at(
        cell_pos(#[trigger] rs[k].cells@[i]),
    ) && label_at(labels, w, cell_pos(rs[k].cells@[i])) == k + 1 by {
        let c = rs[k].cells@[i];
        assert(labels[cell_rank(w, c)] == k + 1);
        assert(label_at(labels, w, cell_pos(c)) == k + 1);
        assert(g.contains(c.0 as int, c.1 as int));
    }
    assert forall|k: int, i: int| 0 <= k < rs.len() && 0 <= i < rs[k].cells@.len() implies g.open_at(
        cell_pos(#[trigger] rs[k].cells@[i]),
    ) && g.connected(cell_pos(rs[k].cells@[0]), cell_pos(rs[k].cells@[i])) by {
        let c0 = rs[k].cells@[0];
        let c = rs[k].cells@[i];
        assert(g.open_at(cell_pos(c0)) && label_at(labels, w, cell_pos(c0)) == k + 1);
        assert(g.open_at(cell_pos(c)) && label_at(labels, w, cell_pos(c)) == k + 1);
    }
    assert forall|k: int, p: (int, int)| 0 <= k < rs.len() && #[trigger] g.connected(cell_pos(rs[k].cells@[0]), p) implies exists|
        i: int,
    | 0 <= i < rs[k].cells@.len() && cell_pos(#[trigger] rs[k].cells@[i]) == p by {
        let c0 = rs[k].cells@[0];
        assert(g.open_at(cell_pos(c0)) && label_at(labels, w, cell_pos(c0)) == k + 1);
        let wk = choose|wk: Seq<(int, int)>| #[trigger] g.is_walk(wk) && wk[0] == cell_pos(c0) && wk.last() == p;
        assert(g.open_at(wk[wk.len() - 1]));
        assert(label_at(labels, w, p) == k + 1);
        let m = cell_index(w, p.0, p.1);
        lemma_cell_index_bounds(w, h, p.0, p.1);
        assert(labels[m] == k + 1);
        assert(lists_label(rs, w, k, m));
        let i = choose|i: int| 0 <= i < rs[k].cells@.len() && cell_rank(w, #[trigger] rs[k].cells@[i]) == m;
        let c = rs[k].cells@[i];
        assert(g.contains(c.0 as int, c.1 as int));
        lemma_cell_index_injective(w, c.0 as int, c.1 as int, p.0, p.1);
    }
    assert forall|k1: int, k2: int| 0 <= k1 < k2 < rs.len() implies cell_rank(w, (#[trigger] rs[k1]).cells@[0]) < cell_rank(
        w,
        (#[trigger] rs[k2]).cells@[0],
    ) && !g.connected(cell_pos(rs[k1].cells@[0]), cell_pos(rs[k2].cells@[0])) by {
        let c1 = rs[k1].cells@[0];
        let c2 = rs[k2].cells@[0];
        assert(g.open_at(cell_pos(c1)) && label_at(labels, w, cell_pos(c1)) == k1 + 1);
        assert(g.open_at(cell_pos(c2)) && label_at(labels, w, cell_pos(c2)) == k2 + 1);
        lemma_first_ranks(g, labels, count, rs, k1, k2);
    }
    assert forall|p: (int, int)| #[trigger] g.open_at(p) implies exists|k: int, i: int|
        0 <= k < rs.len() && 0 <= i < rs[k].cells@.len() && cell_pos(#[trigger] rs[k].cells@[i]) == p by {
        let l = label_at(labels, w, p);
        let k = l - 1;
        let m = cell_index(w, p.0, p.1);
        lemma_cell_index_bounds(w, h, p.0, p.1);
        assert(labels[m] == k + 1);
        assert(lists_label(rs, w, k, m));
        let i = choose|i: int| 0 <= i < rs[k].cells@.len() && cell_rank(w, #[trigger] rs[k].cells@[i]) == m;
        let c = rs[k].cells@[i];
        assert(g.contains(c.0 as int, c.1 as int));
        lemma_cell_index_injective(w, c.0 as int, c.1 as int, p.0, p.1);
    }
}

/// The first cell of a region with a lower label comes first.
proof fn lemma_first_ranks(g: &Grid<Tile>, labels: Seq<u32>, count: u32, rs: Seq<Region>, k1: int, k2: int)
    requires
        g.wf(),
        rs.len() == count,
        0 <= k1 < k2 < rs.len(),
        labelled(g, labels, count),
        listed(g, labels, rs),
    ensures
        cell_rank(g.w() as int, rs[k1].cells@[0]) < cell_rank(g.w() as int, rs[k2].cells@[0]),
    decreases k2 - k1,
{
    reveal(labelled);
    reveal(listed);
    let w = g.w() as int;
    let h = g.h() as int;
    let c2 = rs[k2].cells@[0];
    assert(labels[cell_rank(w, c2)] == k2 + 1);
    assert(g.contains(c2.0 as int, c2.1 as int));
    assert(label_at(labels, w, cell_pos(c2)) == k2 + 1);
    assert(g.open_at(cell_pos(c2)));
    let q = choose|q: (int, int)|
        #[trigger] g.open_at(q) && cell_index(w, q.0, q.1) < cell_index(w, cell_pos(c2).0, cell_pos(c2).1) && label_at(
            labels,
            w,
            q,
        ) == label_at(labels, w, cell_pos(c2)) - 1;
    let m = cell_index(w, q.0, q.1);
    lemma_cell_index_bounds(w, h, q.0, q.1);
    assert(labels[m] == (k2 - 1) + 1);
    assert(lists_label(rs, w, k2 - 1, m));
    let i = choose|i: int| 0 <= i < rs[k2 - 1].cells@.len() && cell_rank(w, #[trigger] rs[k2 - 1].cells@[i]) == m;
    if i > 0 {
        assert(cell_rank(w, rs[k2 - 1].cells@[0]) < cell_rank(w, rs[k2 - 1].cells@[i]));
    }
    if k1 < k2 - 1 {
        lemma_first_ranks(g, labels, count, rs, k1, k2 - 1);
    }
}

/// The kind given to a region of `size` cells: the name of the first
/// threshold from index `i` on that `size` reaches, or `Unknown`.
pub open spec fn kind_from(thresholds: Seq<(usize, String)>, size: int, i: int) -> Seq<char>
    decreases thresholds.len() - i,
{
    if i < 0 || i >= thresholds.len() {
        "Unknown"@
    } else if size >= thresholds[i].0 {
        thresholds[i].1@
    } else {
        kind_from(thresholds, size, i + 1)
    }
}

/// The kind for a region of `size` cells (see [`kind_from`]).
fn kind_for_size(size: usize, thresholds: &Vec<(usize, String)>) -> (r: String)
    ensures
        r@ == kind_from(thresholds@, size as int, 0),
{
    let mut i: usize = 0;
    while i < thresholds.len()
        invariant
            i <= thresholds@.len(),
            kind_from(thresholds@, size as int, 0) == kind_from(thresholds@, size as int, i as int),
        decreases thresholds@.len() - i,
    {
        if size >= thresholds[i].0 {
            return thresholds[i].1.clone();
        }
        i = i + 1;
    }
    "Unknown".to_string()
}

/// Gives each region the kind of the first size threshold it reaches
/// (thresholds are meant to be sorted by size, largest first), or
/// `Unknown`; nothing else changes.
pub fn classify_regions(regions: &mut Vec<Region>, thresholds: &Vec<(usize, String)>)
    ensures
        final(regions)@.len() == old(regions)@.len(),
        forall|k: int|
            0 <= k < final(regions)@.len() ==> (#[trigger] final(regions)@[k]).id == old(regions)@[k].id
                && final(regions)@[k].cells == old(regions)@[k].cells && final(regions)@[k].tags == old(regions)@[k].tags
                && final(regions)@[k].kind@ == kind_from(thresholds@, old(regions)@[k].cells@.len() as int, 0),
{
    let n = regions.len();
    let ghost rs0 = regions@;
    let mut out: Vec<Region> = Vec::with_capacity(n);
    let mut k: usize = 0;
    while k < n
        invariant
            n == rs0.len(),
            k <= n,
            regions@ == rs0.subrange(k as int, n as int),
            out@.len() == k,
            forall|j: int|
                0 <= j < k ==> (#[trigger] out@[j]).id == rs0[j].id && out@[j].cells == rs0[j].cells && out@[j].tags
                    == rs0[j].tags && out@[j].kind@ == kind_from(thresholds@, rs0[j].cells@.len() as int, 0),
        decreases n - k,
    {
        let mut r = regions.remove(0);
        proof {
            assert(r == rs0[k as int]);
            assert(regions@ =~= rs0.subrange(k + 1, n as int));
        }
        let size = r.cells.len();
        r.kind = kind_for_size(size, thresholds);
        out.push(r);
        k = k + 1;
    }
    *regions = out;
}

/// Sum of the `x` (`first`) or `y` coordinates of `cells`.
pub open spec fn coord_sum(cells: Seq<(u32, u32)>, first: bool) -> int
    decreases cells.len(),
{
    if cells.len() == 0 {
        0
    } else {
        coord_sum(cells.drop_last(), first) + if first {
            cells.last().0 as int
        } else {
            cells.last().1 as int
        }
    }
}

proof fn lemma_coord_sum_take(cells: Seq<(u32, u32)>, first: bool, i: int)
    requires
        0 <= i < cells.len(),
    ensures
        coord_sum(cells.take(i + 1), first) == coord_sum(cells.take(i), first) + if first {
            cells[i].0 as int
        } else {
            cells[i].1 as int
        },
{
    assert(cells.take(i + 1).drop_last() =~= cells.take(i));
}

proof fn lemma_coord_sum_mono(cells: Seq<(u32, u32)>, first: bool, i: int, j: int)
    requires
        0 <= i <= j <= cells.len(),
    ensures
        coord_sum(cells.take(i), first) <= coord_sum(cells.take(j), first),
    decreases j - i,
{
    if i < j {
        lemma_coord_sum_take(cells, first, j - 1);
        lemma_coord_sum_mono(cells, first, i, j - 1);
    }
}

/// The centre of a region: the mean of its cells' coordinates, rounded
/// down, or `None` for an empty region.
pub fn find_region_center(region: &Region) -> (r: Option<(u32, u32)>)
    requires
        coord_sum(region.cells@, true) <= u32::MAX,
        coord_sum(region.cells@, false) <= u32::MAX,
        region.cells@.len() <= u32::MAX,
    ensures
        r == if region.cells@.len() == 0 {
            None
        } else {
            Some(
                (
                    (coord_sum(region.cells@, true) / region.cells@.len() as int) as u32,
                    (coord_sum(region.cells@, false) / region.cells@.len() as int) as u32,
                ),
            )
        },
{
    let cells = &region.cells;
    if cells.len() == 0 {
        return None;
    }
    let mut sx: u32 = 0;
    let mut sy: u32 = 0;
    let mut i: usize = 0;
    while i < cells.len()
        invariant
            cells@ == region.cells@,
            i <= cells@.len(),
            coord_sum(cells@, true) <= u32::MAX,
            coord_sum(cells@, false) <= u32::MAX,
            sx == coord_sum(cells@.take(i as int), true),
            sy == coord_sum(cells@.take(i as int), false),
        decreases cells@.len() - i,
    {
        proof {
            lemma_coord_sum_take(cells@, true, i as int);
            lemma_coord_sum_take(cells@, false, i as int);
            lemma_coord_sum_mono(cells@, true, i + 1, cells@.len() as int);
            lemma_coord_sum_mono(cells@, false, i + 1, cells@.len() as int);
            assert(cells@.take(cells@.len() as int) =~= cells@);
        }
        sx = sx + cells[i].0;
        sy = sy + cells[i].1;
        i = i + 1;
    }
    proof {
        assert(cells@.take(cells@.len() as int) =~= cells@);
    }
    let count = cells.len() as u32;
    Some((sx / count, sy / count))
}

/// Least (`least`) or greatest `x` (`first`) or `y` coordinate among the
/// cells of a non-empty list.
pub open spec fn coord_bound(cells: Seq<(u32, u32)>, first: bool, least: bool) -> u32
    decreases cells.len(),
{
    let v = if first {
        cells.last().0
    } else {
        cells.last().1
    };
    if cells.len() <= 1 {
        v
    } else {
        let rest = coord_bound(cells.drop_last(), first, least);
        if (least && v < rest) || (!least && v > rest) {
            v
        } else {
            rest
        }
    }
}

/// The coordinate bound over `cells` (see [`coord_bound`]).
fn bound_of(cells: &Vec<(u32, u32)>, first: bool, least: bool) -> (r: u32)
    requires
        cells@.len() > 0,
    ensures
        r == coord_bound(cells@, first, least),
{
    let mut b: u32 = if first {
        cells[0].0
    } else {
        cells[0].1
    };
    let mut i: usize = 1;
    proof {
        assert(cells@.take(1).last() == cells@[0]);
    }
    while i < cells.len()
        invariant
            1 <= i <= cells@.len(),
            b == coord_bound(cells@.take(i as int), first, least),
        decreases cells@.len() - i,
    {
        let v = if first {
            cells[i].0
        } else {
            cells[i].1
        };
        proof {
            assert(cells@.take(i + 1).drop_last() =~= cells@.take(i as int));
            assert(cells@.take(i + 1).last() == cells@[i as int]);
        }
        if (least && v < b) || (!least && v > b) {
            b = v;
        }
        i = i + 1;
    }
    proof {
        assert(cells@.take(cells@.len() as int) =~= cells@);
    }
    b
}

/// `c` as a one-element list when `cells` holds it, else nothing.
pub open spec fn kept_if_listed(cells: Seq<(u32, u32)>, c: (u32, u32)) -> Seq<(u32, u32)> {
    if cells.contains(c) {
        seq![c]
    } else {
        Seq::empty()
    }
}

/// The corner sites of a region: all its cells when it has fewer than
/// four, else those of the four corners of its bounding box (top-left,
/// top-right, bottom-left, bottom-right) that are cells of the region.
pub open spec fn corner_sites(cells: Seq<(u32, u32)>) -> Seq<(u32, u32)> {
    if cells.len() < 4 {
        cells
    } else {
        let x0 = coord_bound(cells, true, true);
        let x1 = coord_bound(cells, true, false);
        let y0 = coord_bound(cells, false, true);
        let y1 = coord_bound(cells, false, false);
        kept_if_listed(cells, (x0, y0)) + kept_if_listed(cells, (x1, y0)) + kept_if_listed(cells, (x0, y1))
            + kept_if_listed(cells, (x1, y1))
    }
}

/// Whether `cells` holds `c`.
fn lists_cell(cells: &Vec<(u32, u32)>, c: (u32, u32)) -> (r: bool)
    ensures
        r == cells@.contains(c),
{
    let mut i: usize = 0;
    while i < cells.len()
        invariant
            i <= cells@.len(),
            forall|j: int| 0 <= j < i ==> cells@[j] != c,
        decreases cells@.len() - i,
    {
        if cells[i].0 == c.0 && cells[i].1 == c.1 {
            proof {
                assert(cells@[i as int] == c);
            }
            return true;
        }
        i = i + 1;
    }
    false
}

/// The corner sites of `region` (see [`corner_sites`]).
pub fn find_corner_positions(region: &Region) -> (r: Vec<(u32, u32)>)
    ensures
        r@ == corner_sites(region.cells@),
{
    let cells = &region.cells;
    if cells.len() < 4 {
        let mut out: Vec<(u32, u32)> = Vec::new();
        let mut i: usize = 0;
        while i < cells.len()
            invariant
                i <= cells@.len(),
                out@ == cells@.take(i as int),
            decreases cells@.len() - i,
        {
            out.push(cells[i]);
            proof {
                assert(cells@.take(i as int).push(cells@[i as int]) =~= cells@.take(i + 1));
            }
            i = i + 1;
        }
        proof {
            assert(cells@.take(cells@.len() as int) =~= cells@);
        }
        return out;
    }
    let x0 = bound_of(cells, true, true);
    let x1 = bound_of(cells, true, false);
    let y0 = bound_of(cells, false, true);
    let y1 = bound_of(cells, false, false);
    let mut out: Vec<(u32, u32)> = Vec::new();
    let ghost s0 = out@;
    if lists_cell(cells, (x0, y0)) {
        out.push((x0, y0));
    }
    let ghost s1 = out@;
    proof {
        assert(s1 =~= kept_if_listed(cells@, (x0, y0)));
    }
    if lists_cell(cells, (x1, y0)) {
        out.push((x1, y0));
    }
    let ghost s2 = out@;
    proof {
        assert(s2 =~= s1 + kept_if_listed(cells@, (x1, y0)));
    }
    if lists_cell(cells, (x0, y1)) {
        out.push((x0, y1));
    }
    let ghost s3 = out@;
    proof {
        assert(s3 =~= s2 + kept_if_listed(cells@, (x0, y1)));
    }
    if lists_cell(cells, (x1, y1)) {
        out.push((x1, y1));
    }
    proof {
        assert(out@ =~= s3 + kept_if_listed(cells@, (x1, y1)));
    }
    out
}

/// Region `r` lists a cell at point `p`.
pub open spec fn lists_point(r: Region, p: (int, int)) -> bool {
    exists|i: int| 0 <= i < r.cells@.len() && cell_pos(#[trigger] r.cells@[i]) == p
}

/// Id of the last region of `rs` that lists point `p`, if any.
pub open spec fn region_owner(rs: Seq<Region>, p: (int, int)) -> Option<u32>
    decreases rs.len(),
{
    if rs.len() == 0 {
        None
    } else if lists_point(rs.last(), p) {
        Some(rs.last().id)
    } else {
        region_owner(rs.drop_last(), p)
    }
}

/// Neighbour offsets of a connectivity type, in the order they are
/// visited.
pub open spec fn neighbour_offsets(c: ConnectivityType) -> Seq<(int, int)> {
    match c {
        ConnectivityType::FourConnected => seq![(0, 1), (1, 0), (0, -1), (-1, 0)],
        ConnectivityType::EightConnected => seq![(0, 1), (1, 0), (0, -1), (-1, 0), (1, 1), (1, -1), (-1, 1), (-1, -1)],
    }
}

/// Cell `i` of region `k`, moved by offset `d`.
pub open spec fn moved(rs: Seq<Region>, c: ConnectivityType, k: int, i: int, d: int) -> (int, int) {
    let cell = cell_pos(rs[k].cells@[i]);
    (cell.0 + neighbour_offsets(c)[d].0, cell.1 + neighbour_offsets(c)[d].1)
}

/// Some cell of a region with id `a` has a neighbour owned by a region
/// with another id `b`.
pub open spec fn touches(rs: Seq<Region>, c: ConnectivityType, a: u32, b: u32) -> bool {
    exists|k: int, i: int, d: int|
        0 <= k < rs.len() && 0 <= i < rs[k].cells@.len() && 0 <= d < neighbour_offsets(c).len() && rs[k].id == a
            && a != b && #[trigger] region_owner(rs, moved(rs, c, k, i, d)) == Some(b)
}

/// The owner of a point is a region of the list.
proof fn lemma_owner_listed(rs: Seq<Region>, p: (int, int))
    requires
        region_owner(rs, p) is Some,
    ensures
        exists|k: int| 0 <= k < rs.len() && (#[trigger] rs[k]).id == region_owner(rs, p)->0,
    decreases rs.len(),
{
    if !lists_point(rs.last(), p) {
        lemma_owner_listed(rs.drop_last(), p);
        let k = choose|k: int| 0 <= k < rs.drop_last().len() && (#[trigger] rs.drop_last()[k]).id == region_owner(
            rs.drop_last(),
            p,
        )->0;
        assert(rs[k] == rs.drop_last()[k]);
    } else {
        assert(rs[rs.len() - 1] == rs.last());
    }
}

/// The owner of `(x, y)` among `regions` (see [`region_owner`]).
fn owner_of(regions: &Vec<Region>, x: i64, y: i64) -> (r: Option<u32>)
    requires
        x <= u32::MAX,
        y <= u32::MAX,
    ensures
        r == region_owner(regions@, (x as int, y as int)),
{
    let ghost p = (x as int, y as int);
    if x < 0 || y < 0 {
        proof {
            lemma_owner_none(regions@, p);
        }
        return None;
    }
    let mut k = regions.len();
    proof {
        assert(regions@.take(k as int) =~= regions@);
    }
    while k > 0
        invariant
            k <= regions@.len(),
            0 <= x <= u32::MAX,
            0 <= y <= u32::MAX,
            p == (x as int, y as int),
            region_owner(regions@, p) == region_owner(regions@.take(k as int), p),
        decreases k,
    {
        k = k - 1;
        let ghost t = regions@.take(k + 1);
        proof {
            assert(t.drop_last() =~= regions@.take(k as int));
            assert(t.last() == regions@[k as int]);
        }
        if lists_cell(&regions[k].cells, (x as u32, y as u32)) {
            proof {
                let i = choose|i: int| 0 <= i < regions@[k as int].cells@.len() && regions@[k as int].cells@[i] == (x as u32, y as u32);
                assert(cell_pos(regions@[k as int].cells@[i]) == p);
            }
            return Some(regions[k].id);
        }
        proof {
            if lists_point(t.last(), p) {
                let i = choose|i: int| 0 <= i < t.last().cells@.len() && cell_pos(#[trigger] t.last().cells@[i]) == p;
                assert(t.last().cells@[i] == (x as u32, y as u32));
            }
        }
    }
    proof {
        assert(regions@.take(0) =~= Seq::<Region>::empty());
    }
    None
}

/// A point with a negative coordinate belongs to no region.
proof fn lemma_owner_none(rs: Seq<Region>, p: (int, int))
    requires
        p.0 < 0 || p.1 < 0,
    ensures
        region_owner(rs, p) == None::<u32>,
    decreases rs.len(),
{
    if rs.len() > 0 {
        if lists_point(rs.last(), p) {
            let i = choose|i: int| 0 <= i < rs.last().cells@.len() && cell_pos(#[trigger] rs.last().cells@[i]) == p;
        }
        lemma_owner_none(rs.drop_last(), p);
    }
}

/// The offsets of `connectivity` (see [`neighbour_offsets`]).
fn offsets_of(connectivity: ConnectivityType) -> (r: Vec<(i64, i64)>)
    ensures
        r@.len() == neighbour_offsets(connectivity).len(),
        forall|d: int|
            0 <= d < r@.len() ==> (#[trigger] r@[d]).0 == neighbour_offsets(connectivity)[d].0 && r@[d].1
                == neighbour_offsets(connectivity)[d].1,
{
    let mut v: Vec<(i64, i64)> = Vec::new();
    v.push((0, 1));
    v.push((1, 0));
    v.push((0, -1));
    v.push((-1, 0));
    match connectivity {
        ConnectivityType::FourConnected => {},
        ConnectivityType::EightConnected => {
            v.push((1, 1));
            v.push((1, -1));
            v.push((-1, 1));
            v.push((-1, -1));
        },
    }
    v
}

/// Every `(k, i, d)` before `(k0, i0, d0)` (in visiting order) whose moved
/// cell is owned by a region with another id has its edge in `g`.
spec fn edges_done(rs: Seq<Region>, c: ConnectivityType, g: ConnectivityGraph, k0: int, i0: int, d0: int) -> bool {
    forall|k: int, i: int, d: int|
        0 <= k < rs.len() && 0 <= i < rs[k].cells@.len() && 0 <= d < neighbour_offsets(c).len() && (k < k0 || (k == k0
            && i < i0) || (k == k0 && i == i0 && d < d0)) && (#[trigger] region_owner(rs, moved(rs, c, k, i, d))) is Some
            && region_owner(rs, moved(rs, c, k, i, d))->0 != rs[k].id ==> g.edges@.contains(
            (rs[k].id, region_owner(rs, moved(rs, c, k, i, d))->0),
        ) || g.edges@.contains((region_owner(rs, moved(rs, c, k, i, d))->0, rs[k].id))
}

/// The region adjacency graph: every region id is listed, and an edge
/// joins ids `a` and `b` exactly when a cell of a region with id `a` has a
/// neighbour (under `connectivity`) listed last by a region with id `b`
/// (see [`touches`]). The grid is not read.
pub fn build_connectivity(grid: &Grid<Tile>, regions: &Vec<Region>, connectivity: ConnectivityType) -> (g: ConnectivityGraph)
    requires
        forall|k: int, i: int|
            0 <= k < regions@.len() && 0 <= i < regions@[k].cells@.len() ==> (#[trigger] regions@[k].cells@[i]).0
                < i32::MAX && regions@[k].cells@[i].1 < i32::MAX,
    ensures
        g.wf(),
        forall|r: u32| g.regions@.contains(r) <==> exists|k: int| 0 <= k < regions@.len() && (#[trigger] regions@[k]).id == r,
        forall|e: int| 0 <= e < g.edges@.len() ==> touches(regions@, connectivity, (#[trigger] g.edges@[e]).0, g.edges@[e].1),
        forall|a: u32, b: u32|
            #[trigger] touches(regions@, connectivity, a, b) ==> g.edges@.contains((a, b)) || g.edges@.contains((b, a)),
{
    let ghost rs = regions@;
    let mut graph = ConnectivityGraph::new();
    let mut k: usize = 0;
    while k < regions.len()
        invariant
            rs == regions@,
            k <= rs.len(),
            graph.wf(),
            graph.edges@.len() == 0,
            forall|r: u32| graph.regions@.contains(r) <==> exists|j: int| 0 <= j < k && (#[trigger] rs[j]).id == r,
        decreases rs.len() - k,
    {
        let ghost g0 = graph;
        graph.add_region(regions[k].id);
        proof {
            assert forall|r: u32| graph.regions@.contains(r) <==> exists|j: int| 0 <= j < k + 1 && (#[trigger] rs[j]).id == r by {
                if graph.regions@.contains(r) && !g0.regions@.contains(r) {
                    assert(rs[k as int].id == r);
                }
                if exists|j: int| 0 <= j < k + 1 && (#[trigger] rs[j]).id == r {
                    let j = choose|j: int| 0 <= j < k + 1 && (#[trigger] rs[j]).id == r;
                    if j == k {
                        if g0.regions@.contains(r) {
                            let t = choose|t: int| 0 <= t < g0.regions@.len() && g0.regions@[t] == r;
                            assert(graph.regions@[t] == r);
                        } else {
                            assert(graph.regions@[graph.regions@.len() - 1] == r);
                        }
                    } else {
                        assert(g0.regions@.contains(r));
                        let t = choose|t: int| 0 <= t < g0.regions@.len() && g0.regions@[t] == r;
                        if !g0.regions@.contains(rs[k as int].id) {
                            assert(graph.regions@[t] == r);
                        }
                    }
                }
            }
        }
        k = k + 1;
    }
    let offsets = offsets_of(connectivity);
    let ghost nd = neighbour_offsets(connectivity).len();
    let mut k: usize = 0;
    while k < regions.len()
        invariant
            rs == regions@,
            k <= rs.len(),
            offsets@.len() == nd,
            nd == neighbour_offsets(connectivity).len(),
            forall|d: int|
                0 <= d < offsets@.len() ==> (#[trigger] offsets@[d]).0 == neighbour_offsets(connectivity)[d].0
                    && offsets@[d].1 == neighbour_offsets(connectivity)[d].1,
            forall|k1: int, i: int|
                0 <= k1 < rs.len() && 0 <= i < rs[k1].cells@.len() ==> (#[trigger] rs[k1].cells@[i]).0 < i32::MAX
                    && rs[k1].cells@[i].1 < i32::MAX,
            graph.wf(),
            forall|r: u32| graph.regions@.contains(r) <==> exists|j: int| 0 <= j < rs.len() && (#[trigger] rs[j]).id == r,
            forall|e: int| 0 <= e < graph.edges@.len() ==> touches(rs, connectivity, (#[trigger] graph.edges@[e]).0, graph.edges@[e].1),
            edges_done(rs, connectivity, graph, k as int, 0, 0),
        decreases rs.len() - k,
    {
        let region = &regions[k];
        let mut i: usize = 0;
        while i < region.cells.len()
            invariant
                rs == regions@,
                k < rs.len(),
                *region == rs[k as int],
                i <= rs[k as int].cells@.len(),
                offsets@.len() == nd,
                nd == neighbour_offsets(connectivity).len(),
                forall|d: int|
                    0 <= d < offsets@.len() ==> (#[trigger] offsets@[d]).0 == neighbour_offsets(connectivity)[d].0
                        && offsets@[d].1 == neighbour_offsets(connectivity)[d].1,
                forall|k1: int, i1: int|
                    0 <= k1 < rs.len() && 0 <= i1 < rs[k1].cells@.len() ==> (#[trigger] rs[k1].cells@[i1]).0 < i32::MAX
                        && rs[k1].cells@[i1].1 < i32::MAX,
                graph.wf(),
                forall|r: u32| graph.regions@.contains(r) <==> exists|j: int| 0 <= j < rs.len() && (#[trigger] rs[j]).id == r,
                forall|e: int|
                    0 <= e < graph.edges@.len() ==> touches(rs, connectivity, (#[trigger] graph.edges@[e]).0, graph.edges@[e].1),
                edges_done(rs, connectivity, graph, k as int, i as int, 0),
            decreases rs[k as int].cells@.len() - i,
        {
            let (cx, cy) = region.cells[i];
            let mut d: usize = 0;
            while d < offsets.len()
                invariant
                    rs == regions@,
                    k < rs.len(),
                    *region == rs[k as int],
                    i < rs[k as int].cells@.len(),
                    (cx, cy) == rs[k as int].cells@[i as int],
                    d <= offsets@.len(),
                    offsets@.len() == nd,
                    nd == neighbour_offsets(connectivity).len(),
                    forall|d1: int|
                        0 <= d1 < offsets@.len() ==> (#[trigger] offsets@[d1]).0 == neighbour_offsets(connectivity)[d1].0
                            && offsets@[d1].1 == neighbour_offsets(connectivity)[d1].1,
                    cx < i32::MAX,
                    cy < i32::MAX,
                    graph.wf(),
                    forall|r: u32| graph.regions@.contains(r) <==> exists|j: int| 0 <= j < rs.len() && (#[trigger] rs[j]).id == r,
                    forall|e: int|
                        0 <= e < graph.edges@.len() ==> touches(rs, connectivity, (#[trigger] graph.edges@[e]).0, graph.edges@[e].1),
                    edges_done(rs, connectivity, graph, k as int, i as int, d as int),
                decreases offsets@.len() - d,
            {
                let nx = cx as i64 + offsets[d].0;
                let ny = cy as i64 + offsets[d].1;
                let ghost mv = moved(rs, connectivity, k as int, i as int, d as int);
                assert(mv == (nx as int, ny as int));
                let owner = owner_of(regions, nx, ny);
                let ghost g0 = graph;
                match owner {
                    Some(o) => {
                        if o != region.id {
                            proof {
                                lemma_owner_listed(rs, mv);
                            }
                            graph.add_edge(region.id, o);
                            proof {
                                assert(touches(rs, connectivity, rs[k as int].id, o));
                                assert(graph.edges@.contains((rs[k as int].id, o)) || graph.edges@.contains((o, rs[k as int].id))) by {
                                    if !(g0.edges@.contains((rs[k as int].id, o)) || g0.edges@.contains((o, rs[k as int].id))) {
                                        assert(graph.edges@[graph.edges@.len() - 1] == (rs[k as int].id, o));
                                    }
                                }
                                lemma_edges_grow(rs, connectivity, g0, graph, k as int, i as int, d as int);
                            }
                        }
                    },
                    None => {},
                }
                d = d + 1;
            }
            proof {
                assert(edges_done(rs, connectivity, graph, k as int, i + 1, 0));
            }
            i = i + 1;
        }
        proof {
            assert(edges_done(rs, connectivity, graph, k + 1, 0, 0));
        }
        k = k + 1;
    }
    proof {
        assert forall|a: u32, b: u32| #[trigger] touches(regions@, connectivity, a, b) implies graph.edges@.contains((a, b))
            || graph.edges@.contains((b, a)) by {
            let (k1, i1, d1) = choose|k1: int, i1: int, d1: int|
                0 <= k1 < rs.len() && 0 <= i1 < rs[k1].cells@.len() && 0 <= d1 < neighbour_offsets(connectivity).len()
                    && rs[k1].id == a && a != b && #[trigger] region_owner(rs, moved(rs, connectivity, k1, i1, d1)) == Some(b);
            assert(region_owner(rs, moved(rs, connectivity, k1, i1, d1)) is Some);
        }
    }
    graph
}

/// Adding one edge keeps the earlier edges and the edges-done property,
/// and covers the current step.
proof fn lemma_edges_grow(rs: Seq<Region>, c: ConnectivityType, g0: ConnectivityGraph, g1: ConnectivityGraph, k: int, i: int, d: int)
    requires
        edges_done(rs, c, g0, k, i, d),
        forall|e: (u32, u32)| g0.edges@.contains(e) ==> g1.edges@.contains(e),
        region_owner(rs, moved(rs, c, k, i, d)) is Some ==> region_owner(rs, moved(rs, c, k, i, d))->0 != rs[k].id ==> (
        g1.edges@.contains((rs[k].id, region_owner(rs, moved(rs, c, k, i, d))->0)) || g1.edges@.contains(
            (region_owner(rs, moved(rs, c, k, i, d))->0, rs[k].id),
        )),
    ensures
        edges_done(rs, c, g1, k, i, d + 1),
{
}

} // verus!

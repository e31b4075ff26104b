//! Connectivity effects.

use crate::grid::{
    adjacent4, between, cell_index, count_true, lemma_count_true_bound, lemma_count_true_flip, holds_pos, in_some, lemma_cell_index_bounds, lemma_cell_index_injective,
    lemma_line_step_adjacent, line_points, line_step, manhattan, pos, Cell, Grid, Tile,
};
use crate::effects::morphology::{floor_at, interior};
use crate::rng::{after_u64, below, is_permutation_of, shuffled, u64_at, Rng};
use vstd::prelude::*;

verus! {

/// Method for connecting markers.
#[derive(Debug, Clone, Copy, PartialEq, Eq, Structural)]
pub enum MarkerConnectMethod {
    /// Connect with a straight line.
    Line,
    /// Connect with an L-shaped path.
    Path,
}

/// A strictly increasing sequence of indices below `n` has at most `n`
/// entries.
proof fn lemma_increasing_bound(s: Seq<int>, n: int)
    requires
        n >= 0,
        forall|i: int, j: int| 0 <= i < j < s.len() ==> s[i] < s[j],
        forall|i: int| 0 <= i < s.len() ==> 0 <= #[trigger] s[i] < n,
    ensures
        s.len() <= n,
{
    if s.len() > 0 {
        let last = s.len() - 1;
        lemma_increasing_at_least(s, last);
        assert(s[last] >= last);
        assert(0 <= s[last] < n);
        assert(last < n);
    }
}

proof fn lemma_increasing_at_least(s: Seq<int>, k: int)
    requires
        forall|i: int, j: int| 0 <= i < j < s.len() ==> s[i] < s[j],
        forall|i: int| 0 <= i < s.len() ==> 0 <= #[trigger] s[i],
        0 <= k < s.len(),
    ensures
        s[k] >= k,
    decreases k,
{
    if k > 0 {
        lemma_increasing_at_least(s, k - 1);
    }
}

/// Label of position `p` in a row-major label vector of a `w`-wide grid.
pub open spec fn label_at(labels: Seq<u32>, w: int, p: (int, int)) -> u32 {
    labels[cell_index(w, p.0, p.1)]
}

/// Some passable cell carries label `l`.
pub open spec fn has_label(g: &Grid<Tile>, labels: Seq<u32>, l: u32) -> bool {
    exists|p: (int, int)| #[trigger] g.open_at(p) && label_at(labels, g.w() as int, p) == l
}

/// A cell lies in at most one region of `flood_regions`.
proof fn lemma_region_unique(g: &Grid<Tile>, regions: Seq<Vec<(usize, usize)>>, r1: int, r2: int, p: (int, int))
    requires
        forall|r: int| 0 <= r < regions.len() ==> #[trigger] g.is_component(regions[r]@),
        forall|a: int, b: int|
            0 <= a < b < regions.len() ==> !g.connected(pos(#[trigger] regions[a]@[0]), pos(#[trigger] regions[b]@[0])),
        0 <= r1 < regions.len(),
        0 <= r2 < regions.len(),
        holds_pos(regions[r1]@, p),
        holds_pos(regions[r2]@, p),
    ensures
        r1 == r2,
{
    if r1 != r2 {
        assert(g.is_component(regions[r1]@));
        assert(g.is_component(regions[r2]@));
        let k1 = choose|k: int| 0 <= k < regions[r1]@.len() && pos(#[trigger] regions[r1]@[k]) == p;
        let k2 = choose|k: int| 0 <= k < regions[r2]@.len() && pos(#[trigger] regions[r2]@[k]) == p;
        let f1 = pos(regions[r1]@[0]);
        let f2 = pos(regions[r2]@[0]);
        assert(g.connected(f1, pos(regions[r1]@[k1])));
        assert(g.connected(f2, pos(regions[r2]@[k2])));
        g.lemma_connected_symmetric(f2, p);
        g.lemma_connected_trans(f1, p, f2);
        if r1 < r2 {
            assert(!g.connected(f1, f2));
        } else {
            g.lemma_connected_symmetric(f1, f2);
            assert(!g.connected(f2, f1));
        }
    }
}

/// Labels connected floor regions (4-neighbourhood): walls get 0, the
/// regions get 1, 2, ... in row-major order of their first cell. Returns the
/// labels, row by row, and the number of regions.
pub fn label_regions(grid: &Grid<Tile>) -> (r: (Vec<u32>, u32))
    requires
        grid.wf(),
        grid.w() * grid.h() <= u32::MAX,
    ensures
        r.0@.len() == grid.cells().len(),
        forall|p: (int, int)| grid.contains(p.0, p.1) ==> ((#[trigger] label_at(r.0@, grid.w() as int, p) == 0) == !grid.open_at(p)),
        forall|p: (int, int)| #[trigger] grid.open_at(p) ==> 1 <= label_at(r.0@, grid.w() as int, p) <= r.1,
        forall|p: (int, int), q: (int, int)|
            grid.open_at(p) && grid.open_at(q) ==> ((#[trigger] label_at(r.0@, grid.w() as int, p) == #[trigger] label_at(
                r.0@,
                grid.w() as int,
                q,
            )) == grid.connected(p, q)),
        forall|l: u32| 1 <= l <= r.1 ==> #[trigger] has_label(grid, r.0@, l),
        forall|p: (int, int)|
            #[trigger] grid.open_at(p) && label_at(r.0@, grid.w() as int, p) > 1 ==> exists|q: (int, int)|
                #[trigger] grid.open_at(q) && cell_index(grid.w() as int, q.0, q.1) < cell_index(grid.w() as int, p.0, p.1)
                    && label_at(r.0@, grid.w() as int, q) == label_at(r.0@, grid.w() as int, p) - 1,
{
    let w = grid.width();
    let h = grid.height();
    let regions = grid.flood_regions();
    let n = w * h;
    let ghost wi = w as int;
    proof {
        let firsts = Seq::new(regions@.len(), |r: int| grid.index_at(regions@[r]@[0]));
        assert forall|i: int| 0 <= i < firsts.len() implies 0 <= #[trigger] firsts[i] < n by {
            assert(grid.is_component(regions@[i]@));
            grid.lemma_connected_refl(pos(regions@[i]@[0]));
            let f = pos(regions@[i]@[0]);
            assert(grid.connected(f, pos(regions@[i]@[0])));
            let wk = choose|wk: Seq<(int, int)>| #[trigger] grid.is_walk(wk) && wk[0] == f && wk.last() == f;
            assert(grid.open_at(wk[0]));
            lemma_cell_index_bounds(w as int, h as int, f.0, f.1);
        }
        lemma_increasing_bound(firsts, n as int);
    }
    let mut labels: Vec<u32> = Vec::with_capacity(n);
    let mut i: usize = 0;
    while i < n
        invariant
            i <= n,
            labels@.len() == i,
            forall|j: int| 0 <= j < i ==> labels@[j] == 0,
        decreases n - i,
    {
        labels.push(0);
        i = i + 1;
    }
    proof {
        assert forall|p: (int, int)| grid.contains(p.0, p.1) implies #[trigger] label_at(labels@, wi, p) == 0 by {
            lemma_cell_index_bounds(w as int, h as int, p.0, p.1);
        }
    }
    let mut ri: usize = 0;
    while ri < regions.len()
        invariant
            grid.wf(),
            w == grid.w(),
            h == grid.h(),
            wi == w as int,
            n == w * h,
            n <= u32::MAX,
            regions@.len() <= n,
            ri <= regions@.len(),
            labels@.len() == n,
            forall|r: int| 0 <= r < regions@.len() ==> #[trigger] grid.is_component(regions@[r]@),
            forall|a: int, b: int|
                0 <= a < b < regions@.len() ==> !grid.connected(pos(#[trigger] regions@[a]@[0]), pos(#[trigger] regions@[b]@[0])),
            forall|r: int, k: int|
                0 <= r < ri && 0 <= k < regions@[r]@.len() ==> label_at(labels@, wi, pos(#[trigger] regions@[r]@[k])) == r
                    + 1,
            forall|p: (int, int)|
                grid.contains(p.0, p.1) && #[trigger] label_at(labels@, wi, p) != 0 ==> exists|r: int|
                    0 <= r < ri && holds_pos(#[trigger] regions@[r]@, p),
        decreases regions@.len() - ri,
    {
        let region = &regions[ri];
        let ghost reg = region@;
        assert(grid.is_component(reg));
        let label = (ri + 1) as u32;
        let mut k: usize = 0;
        while k < region.len()
            invariant
                grid.wf(),
                w == grid.w(),
                h == grid.h(),
                wi == w as int,
                n == w * h,
                n <= u32::MAX,
                regions@.len() <= n,
                ri < regions@.len(),
                reg == regions@[ri as int]@,
                *region == regions@[ri as int],
                grid.is_component(reg),
                label == ri + 1,
                k <= reg.len(),
                labels@.len() == n,
                forall|r: int| 0 <= r < regions@.len() ==> #[trigger] grid.is_component(regions@[r]@),
                forall|a: int, b: int|
                    0 <= a < b < regions@.len() ==> !grid.connected(pos(#[trigger] regions@[a]@[0]), pos(#[trigger] regions@[b]@[0])),
                forall|r: int, j: int|
                    0 <= r < ri && 0 <= j < regions@[r]@.len() ==> label_at(labels@, wi, pos(#[trigger] regions@[r]@[j]))
                        == r + 1,
                forall|j: int| 0 <= j < k ==> label_at(labels@, wi, pos(#[trigger] reg[j])) == label,
                forall|p: (int, int)|
                    grid.contains(p.0, p.1) && #[trigger] label_at(labels@, wi, p) != 0 ==> exists|r: int|
                        0 <= r <= ri && holds_pos(#[trigger] regions@[r]@, p),
            decreases reg.len() - k,
        {
            let (x, y) = region[k];
            let ghost p = pos(reg[k as int]);
            proof {
                assert(grid.connected(pos(reg[0]), p));
                let wk = choose|wk: Seq<(int, int)>| #[trigger] grid.is_walk(wk) && wk[0] == pos(reg[0]) && wk.last() == p;
                assert(grid.open_at(wk[wk.len() - 1]));
                lemma_cell_index_bounds(w as int, h as int, x as int, y as int);
            }
            let ghost l0 = labels@;
            labels.set(y * w + x, label);
            proof {
                let idx = cell_index(wi, p.0, p.1);
                assert(holds_pos(regions@[ri as int]@, p));
                assert forall|q: (int, int)| grid.contains(q.0, q.1) && q != p implies #[trigger] label_at(labels@, wi, q)
                    == label_at(l0, wi, q) by {
                    lemma_cell_index_bounds(w as int, h as int, q.0, q.1);
                    if cell_index(wi, q.0, q.1) == idx {
                        lemma_cell_index_injective(wi, q.0, q.1, p.0, p.1);
                    }
                }
                assert forall|r: int, j: int|
                    0 <= r < ri && 0 <= j < regions@[r]@.len() implies label_at(labels@, wi, pos(#[trigger] regions@[r]@[j]))
                        == r + 1 by {
                    let q = pos(regions@[r]@[j]);
                    assert(grid.is_component(regions@[r]@));
                    assert(grid.connected(pos(regions@[r]@[0]), q));
                    let wk = choose|wk: Seq<(int, int)>| #[trigger] grid.is_walk(wk) && wk[0] == pos(regions@[r]@[0]) && wk.last() == q;
                    assert(grid.open_at(wk[wk.len() - 1]));
                    if q == p {
                        assert(holds_pos(regions@[r]@, p));
                        lemma_region_unique(grid, regions@, r, ri as int, p);
                    }
                }
                assert forall|j: int| 0 <= j < k + 1 implies label_at(labels@, wi, pos(#[trigger] reg[j])) == label by {
                    if j < k {
                        let q = pos(reg[j]);
                        assert(grid.connected(pos(reg[0]), q));
                        let wk = choose|wk: Seq<(int, int)>| #[trigger] grid.is_walk(wk) && wk[0] == pos(reg[0]) && wk.last() == q;
                        assert(grid.open_at(wk[wk.len() - 1]));
                    }
                }
                assert forall|q: (int, int)| grid.contains(q.0, q.1) && #[trigger] label_at(labels@, wi, q) != 0 implies exists|r: int|
                    0 <= r <= ri && holds_pos(#[trigger] regions@[r]@, q) by {
                    if q == p {
                        assert(holds_pos(regions@[ri as int]@, q));
                    } else {
                        assert(label_at(l0, wi, q) != 0);
                    }
                }
            }
            k = k + 1;
        }
        ri = ri + 1;
    }
    let count = regions.len() as u32;
    proof {
        let ls = labels@;
        // every cell of every region carries that region's label
        assert forall|r: int, p: (int, int)| 0 <= r < regions@.len() && #[trigger] holds_pos(regions@[r]@, p) implies label_at(
            ls,
            wi,
            p,
        ) == r + 1 by {
            let k = choose|k: int| 0 <= k < regions@[r]@.len() && pos(#[trigger] regions@[r]@[k]) == p;
        }
        assert forall|p: (int, int)| grid.contains(p.0, p.1) implies ((#[trigger] label_at(ls, wi, p) == 0)
            == !grid.open_at(p)) by {
            if grid.open_at(p) {
                let r = choose|r: int| 0 <= r < regions@.len() && holds_pos(#[trigger] regions@[r]@, p);
                assert(label_at(ls, wi, p) == r + 1);
            }
            if label_at(ls, wi, p) != 0 {
                let r = choose|r: int| 0 <= r < regions@.len() && holds_pos(#[trigger] regions@[r]@, p);
                assert(grid.is_component(regions@[r]@));
                let k = choose|k: int| 0 <= k < regions@[r]@.len() && pos(#[trigger] regions@[r]@[k]) == p;
                assert(grid.connected(pos(regions@[r]@[0]), p));
                let wk = choose|wk: Seq<(int, int)>| #[trigger] grid.is_walk(wk) && wk[0] == pos(regions@[r]@[0]) && wk.last() == p;
                assert(grid.open_at(wk[wk.len() - 1]));
            }
        }
        assert forall|p: (int, int)| #[trigger] grid.open_at(p) implies 1 <= label_at(ls, wi, p) <= count by {
            let r = choose|r: int| 0 <= r < regions@.len() && holds_pos(#[trigger] regions@[r]@, p);
            assert(label_at(ls, wi, p) == r + 1);
        }
        assert forall|p: (int, int), q: (int, int)| grid.open_at(p) && grid.open_at(q) implies ((#[trigger] label_at(
            ls,
            wi,
            p,
        ) == #[trigger] label_at(ls, wi, q)) == grid.connected(p, q)) by {
            let rp = choose|r: int| 0 <= r < regions@.len() && holds_pos(#[trigger] regions@[r]@, p);
            let rq = choose|r: int| 0 <= r < regions@.len() && holds_pos(#[trigger] regions@[r]@, q);
            assert(label_at(ls, wi, p) == rp + 1);
            assert(label_at(ls, wi, q) == rq + 1);
            assert(grid.is_component(regions@[rp]@));
            assert(grid.is_component(regions@[rq]@));
            let fp = pos(regions@[rp]@[0]);
            let kp = choose|k: int| 0 <= k < regions@[rp]@.len() && pos(#[trigger] regions@[rp]@[k]) == p;
            let kq = choose|k: int| 0 <= k < regions@[rq]@.len() && pos(#[trigger] regions@[rq]@[k]) == q;
            assert(grid.connected(fp, p));
            assert(grid.connected(pos(regions@[rq]@[0]), q));
            if rp == rq {
                grid.lemma_connected_symmetric(fp, p);
                grid.lemma_connected_trans(p, fp, q);
            }
            if grid.connected(p, q) {
                grid.lemma_connected_trans(fp, p, q);
                assert(holds_pos(regions@[rp]@, q));
                lemma_region_unique(grid, regions@, rp, rq, q);
            }
        }
        assert forall|l: u32| 1 <= l <= count implies #[trigger] has_label(grid, ls, l) by {
            let r = (l - 1) as int;
            assert(grid.is_component(regions@[r]@));
            let f = pos(regions@[r]@[0]);
            assert(grid.connected(f, pos(regions@[r]@[0])));
            let wk = choose|wk: Seq<(int, int)>| #[trigger] grid.is_walk(wk) && wk[0] == f && wk.last() == f;
            assert(grid.open_at(wk[0]));
            assert(holds_pos(regions@[r]@, f));
            assert(label_at(ls, wi, f) == l);
        }
        assert forall|p: (int, int)| #[trigger] grid.open_at(p) && label_at(ls, wi, p) > 1 implies exists|q: (int, int)|
            #[trigger] grid.open_at(q) && cell_index(wi, q.0, q.1) < cell_index(wi, p.0, p.1) && label_at(ls, wi, q)
                == label_at(ls, wi, p) - 1 by {
            let r = choose|r: int| 0 <= r < regions@.len() && holds_pos(#[trigger] regions@[r]@, p);
            assert(label_at(ls, wi, p) == r + 1);
            let prev = r - 1;
            assert(grid.is_component(regions@[prev]@));
            assert(grid.is_component(regions@[r]@));
            let f = pos(regions@[prev]@[0]);
            let fr = pos(regions@[r]@[0]);
            let k = choose|k: int| 0 <= k < regions@[r]@.len() && pos(#[trigger] regions@[r]@[k]) == p;
            assert(grid.connected(fr, p));
            assert(grid.index_at(regions@[r]@[0]) <= cell_index(wi, p.0, p.1));
            assert(grid.index_at(regions@[prev]@[0]) < grid.index_at(regions@[r]@[0]));
            assert(grid.connected(f, pos(regions@[prev]@[0])));
            let wk = choose|wk: Seq<(int, int)>| #[trigger] grid.is_walk(wk) && wk[0] == f && wk.last() == f;
            assert(grid.open_at(wk[0]));
            assert(holds_pos(regions@[prev]@, f));
            assert(label_at(ls, wi, f) == prev + 1);
        }
    }
    (labels, count)
}

/// `p` lies within `r` (Euclidean) of `c`.
pub open spec fn in_disk(c: (int, int), r: int, p: (int, int)) -> bool {
    (p.0 - c.0) * (p.0 - c.0) + (p.1 - c.1) * (p.1 - c.1) <= r * r
}

proof fn lemma_square_bound(d: int, r: int)
    requires
        -r <= d <= r,
    ensures
        0 <= d * d <= r * r,
{
    assert(0 <= d * d <= r * r) by (nonlinear_arith)
        requires
            -r <= d <= r,
    ;
}

/// Floors every in-bounds cell within `radius` of `(x, y)`.
pub fn carve_point(grid: &mut Grid<Tile>, x: i32, y: i32, radius: usize)
    requires
        old(grid).wf(),
        radius <= 32767,
        x - radius >= i32::MIN,
        x + radius <= i32::MAX,
        y - radius >= i32::MIN,
        y + radius <= i32::MAX,
    ensures
        final(grid).wf(),
        final(grid).w() == old(grid).w(),
        final(grid).h() == old(grid).h(),
        forall|px: int, py: int|
            old(grid).contains(px, py) ==> #[trigger] final(grid).at(px, py) == if in_disk(
                (x as int, y as int),
                radius as int,
                (px, py),
            ) {
                Tile::Floor
            } else {
                old(grid).at(px, py)
            },
{
    let ghost g0 = *grid;
    let ghost c = (x as int, y as int);
    if radius == 0 {
        grid.set(x, y, Tile::Floor);
        proof {
            assert forall|px: int, py: int| g0.contains(px, py) implies #[trigger] grid.at(px, py) == if in_disk(
                c,
                0,
                (px, py),
            ) {
                Tile::Floor
            } else {
                g0.at(px, py)
            } by {
                if in_disk(c, 0, (px, py)) {
                    assert((px - x) * (px - x) >= 0) by (nonlinear_arith);
                    assert((py - y) * (py - y) >= 0) by (nonlinear_arith);
                    assert((px - x) * (px - x) == 0);
                    assert(px == x) by (nonlinear_arith)
                        requires
                            (px - x) * (px - x) == 0,
                    ;
                    assert(py == y) by (nonlinear_arith)
                        requires
                            (py - y) * (py - y) <= 0,
                            (px - x) * (px - x) == 0,
                            (py - y) * (py - y) >= 0,
                    ;
                }
            }
        }
        return;
    }
    let r = radius as i32;
    proof {
        assert(r * r <= 32767 * 32767) by (nonlinear_arith)
            requires
                0 <= r <= 32767,
        ;
    }
    let r2 = r * r;
    let mut dy: i32 = -r;
    proof {
        assert forall|px: int, py: int| g0.contains(px, py) implies #[trigger] grid.at(px, py) == if in_disk(
            c,
            r as int,
            (px, py),
        ) && py < y + dy {
            Tile::Floor
        } else {
            g0.at(px, py)
        } by {
            if in_disk(c, r as int, (px, py)) {
                lemma_outside_disk(c, r as int, (px, py));
            }
        }
    }
    while dy <= r
        invariant
            -r <= dy <= r + 1,
            r == radius,
            1 <= r <= 32767,
            r2 == r * r,
            x - r >= i32::MIN,
            x + r <= i32::MAX,
            y - r >= i32::MIN,
            y + r <= i32::MAX,
            c == (x as int, y as int),
            grid.wf(),
            grid.w() == g0.w(),
            grid.h() == g0.h(),
            forall|px: int, py: int|
                g0.contains(px, py) ==> #[trigger] grid.at(px, py) == if in_disk(c, r as int, (px, py)) && py < y
                    + dy {
                    Tile::Floor
                } else {
                    g0.at(px, py)
                },
        decreases r + 1 - dy,
    {
        let mut dx: i32 = -r;
        proof {
            assert forall|px: int, py: int| g0.contains(px, py) implies #[trigger] grid.at(px, py) == if in_disk(
                c,
                r as int,
                (px, py),
            ) && (py < y + dy || (py == y + dy && px < x + dx)) {
                Tile::Floor
            } else {
                g0.at(px, py)
            } by {
                if in_disk(c, r as int, (px, py)) {
                    lemma_outside_disk(c, r as int, (px, py));
                }
            }
        }
        while dx <= r
            invariant
                -r <= dx <= r + 1,
                -r <= dy <= r,
                r == radius,
                1 <= r <= 32767,
                r2 == r * r,
                x - r >= i32::MIN,
                x + r <= i32::MAX,
                y - r >= i32::MIN,
                y + r <= i32::MAX,
                c == (x as int, y as int),
                grid.wf(),
                grid.w() == g0.w(),
                grid.h() == g0.h(),
                forall|px: int, py: int|
                    g0.contains(px, py) ==> #[trigger] grid.at(px, py) == if in_disk(c, r as int, (px, py)) && (py
                        < y + dy || (py == y + dy && px < x + dx)) {
                        Tile::Floor
                    } else {
                        g0.at(px, py)
                    },
            decreases r + 1 - dx,
        {
            proof {
                lemma_square_bound(dx as int, r as int);
                lemma_square_bound(dy as int, r as int);
                assert(r * r <= 32767 * 32767) by (nonlinear_arith)
                    requires
                        0 <= r <= 32767,
                ;
            }
            if dx * dx + dy * dy <= r2 {
                grid.set(x + dx, y + dy, Tile::Floor);
            }
            proof {
                assert forall|px: int, py: int| g0.contains(px, py) implies #[trigger] grid.at(px, py) == if in_disk(
                    c,
                    r as int,
                    (px, py),
                ) && (py < y + dy || (py == y + dy && px < x + dx + 1)) {
                    Tile::Floor
                } else {
                    g0.at(px, py)
                } by {
                    if px == x + dx && py == y + dy {
                        assert((px - x) == dx && (py - y) == dy);
                    }
                }
            }
            dx = dx + 1;
        }
        proof {
            assert forall|px: int, py: int| g0.contains(px, py) implies #[trigger] grid.at(px, py) == if in_disk(
                c,
                r as int,
                (px, py),
            ) && py < y + dy + 1 {
                Tile::Floor
            } else {
                g0.at(px, py)
            } by {
                if py == y + dy && in_disk(c, r as int, (px, py)) && px >= x + r + 1 {
                    lemma_outside_disk(c, r as int, (px, py));
                }
            }
        }
        dy = dy + 1;
    }
    proof {
        assert forall|px: int, py: int| g0.contains(px, py) implies #[trigger] grid.at(px, py) == if in_disk(
            c,
            r as int,
            (px, py),
        ) {
            Tile::Floor
        } else {
            g0.at(px, py)
        } by {
            if in_disk(c, r as int, (px, py)) && py >= y + r + 1 {
                lemma_outside_disk(c, r as int, (px, py));
            }
        }
    }
}

/// A point of a disk lies within `r` of the centre on each axis.
proof fn lemma_outside_disk(c: (int, int), r: int, p: (int, int))
    requires
        r >= 0,
        in_disk(c, r, p),
    ensures
        c.0 - r <= p.0 <= c.0 + r,
        c.1 - r <= p.1 <= c.1 + r,
{
    let a = p.0 - c.0;
    let b = p.1 - c.1;
    assert(a * a <= r * r) by (nonlinear_arith)
        requires
            a * a + b * b <= r * r,
    ;
    assert(b * b <= r * r) by (nonlinear_arith)
        requires
            a * a + b * b <= r * r,
    ;
    assert(-r <= a <= r) by (nonlinear_arith)
        requires
            a * a <= r * r,
            r >= 0,
    ;
    assert(-r <= b <= r) by (nonlinear_arith)
        requires
            b * b <= r * r,
            r >= 0,
    ;
}

/// Some point of `path` has `p` in its disk of radius `r`.
pub open spec fn near_path(path: Seq<(usize, usize)>, r: int, p: (int, int)) -> bool {
    exists|k: int| 0 <= k < path.len() && in_disk(pos(#[trigger] path[k]), r, p)
}

/// Floors every in-bounds cell within `radius` of a point of `path`.
pub fn carve_path(grid: &mut Grid<Tile>, path: &[(usize, usize)], radius: usize)
    requires
        old(grid).wf(),
        radius <= 32767,
        forall|k: int| 0 <= k < path@.len() ==> (#[trigger] path@[k]).0 + radius <= i32::MAX && path@[k].1 + radius <= i32::MAX,
    ensures
        final(grid).wf(),
        final(grid).w() == old(grid).w(),
        final(grid).h() == old(grid).h(),
        forall|px: int, py: int|
            old(grid).contains(px, py) ==> #[trigger] final(grid).at(px, py) == if near_path(path@, radius as int, (px, py)) {
                Tile::Floor
            } else {
                old(grid).at(px, py)
            },
{
    let ghost g0 = *grid;
    let mut k: usize = 0;
    while k < path.len()
        invariant
            k <= path@.len(),
            radius <= 32767,
            forall|j: int| 0 <= j < path@.len() ==> (#[trigger] path@[j]).0 + radius <= i32::MAX && path@[j].1 + radius <= i32::MAX,
            grid.wf(),
            grid.w() == g0.w(),
            grid.h() == g0.h(),
            forall|px: int, py: int|
                g0.contains(px, py) ==> #[trigger] grid.at(px, py) == if near_path(path@.take(k as int), radius as int, (px, py)) {
                    Tile::Floor
                } else {
                    g0.at(px, py)
                },
        decreases path@.len() - k,
    {
        let (x, y) = path[k];
        carve_point(grid, x as i32, y as i32, radius);
        proof {
            let t0 = path@.take(k as int);
            let t1 = path@.take(k + 1);
            assert forall|px: int, py: int| g0.contains(px, py) implies #[trigger] grid.at(px, py) == if near_path(
                t1,
                radius as int,
                (px, py),
            ) {
                Tile::Floor
            } else {
                g0.at(px, py)
            } by {
                if near_path(t0, radius as int, (px, py)) {
                    let j = choose|j: int| 0 <= j < t0.len() && in_disk(pos(#[trigger] t0[j]), radius as int, (px, py));
                    assert(t1[j] == t0[j]);
                }
                if in_disk((x as int, y as int), radius as int, (px, py)) {
                    assert(t1[k as int] == (x, y));
                }
                if near_path(t1, radius as int, (px, py)) && !in_disk((x as int, y as int), radius as int, (px, py)) {
                    let j = choose|j: int| 0 <= j < t1.len() && in_disk(pos(#[trigger] t1[j]), radius as int, (px, py));
                    assert(j != k);
                    assert(t0[j] == t1[j]);
                }
            }
        }
        k = k + 1;
    }
    proof {
        assert(path@.take(path@.len() as int) =~= path@);
    }
}

/// Floors the `w` by `h` rectangle centred at `center` (the extra cell of
/// an even size falling right and below); nothing when a size is zero.
pub fn clear_rect(grid: &mut Grid<Tile>, center: (usize, usize), w: usize, h: usize)
    requires
        old(grid).wf(),
        w > 0 && h > 0 ==> w <= i32::MAX && h <= i32::MAX && center.0 + w - w / 2 <= i32::MAX + 1 && center.1 + h
            - h / 2 <= i32::MAX + 1,
    ensures
        final(grid).wf(),
        final(grid).w() == old(grid).w(),
        final(grid).h() == old(grid).h(),
        forall|px: int, py: int|
            old(grid).contains(px, py) ==> #[trigger] final(grid).at(px, py) == if w > 0 && h > 0 && center.0 - w
                / 2 <= px < center.0 - w / 2 + w && center.1 - h / 2 <= py < center.1 - h / 2 + h {
                Tile::Floor
            } else {
                old(grid).at(px, py)
            },
{
    if w == 0 || h == 0 {
        return;
    }
    let x = center.0 as i32 - (w as i32 / 2);
    let y = center.1 as i32 - (h as i32 / 2);
    grid.fill_rect(x, y, w, h, Tile::Floor);
}

/// Taxicab distance between entry `i` of `r1` and entry `j` of `r2`.
pub open spec fn pair_dist(r1: Seq<(usize, usize)>, r2: Seq<(usize, usize)>, i: int, j: int) -> int {
    manhattan(pos(r1[i]), pos(r2[j]))
}

/// Some pair of entries of `r1` and `r2` lies within `d` of each other.
pub open spec fn within(r1: Seq<(usize, usize)>, r2: Seq<(usize, usize)>, d: int) -> bool {
    exists|i: int, j: int| 0 <= i < r1.len() && 0 <= j < r2.len() && #[trigger] pair_dist(r1, r2, i, j) <= d
}

/// The closest pair of cells of `r1` and `r2` (taxicab), provided it lies
/// within `max_dist`; of equally close pairs the first in iteration order
/// (over `r1`, then over `r2`).
pub fn find_closest(r1: &[(usize, usize)], r2: &[(usize, usize)], max_dist: usize) -> (r: Option<
    (usize, usize, usize, usize),
>)
    requires
        max_dist < usize::MAX,
        forall|i: int| 0 <= i < r1@.len() ==> (#[trigger] r1@[i]).0 <= i32::MAX && r1@[i].1 <= i32::MAX,
        forall|j: int| 0 <= j < r2@.len() ==> (#[trigger] r2@[j]).0 <= i32::MAX && r2@[j].1 <= i32::MAX,
        forall|i: int, j: int|
            0 <= i < r1@.len() && 0 <= j < r2@.len() ==> #[trigger] pair_dist(r1@, r2@, i, j) <= i32::MAX,
    ensures
        r.is_none() == !within(r1@, r2@, max_dist as int),
        r matches Some(t) ==> exists|i: int, j: int|
            {
                &&& 0 <= i < r1@.len()
                &&& 0 <= j < r2@.len()
                &&& t == (r1@[i].0, r1@[i].1, r2@[j].0, r2@[j].1)
                &&& #[trigger] pair_dist(r1@, r2@, i, j) <= max_dist
                &&& forall|i2: int, j2: int|
                    0 <= i2 < r1@.len() && 0 <= j2 < r2@.len() ==> #[trigger] pair_dist(r1@, r2@, i2, j2) >= pair_dist(
                        r1@,
                        r2@,
                        i,
                        j,
                    ) && ((i2 < i || (i2 == i && j2 < j)) ==> pair_dist(r1@, r2@, i2, j2) > pair_dist(r1@, r2@, i, j))
            },
{
    let mut best: Option<(usize, usize, usize, usize)> = None;
    let mut best_dist: usize = max_dist + 1;
    let ghost mut bi: int = 0;
    let ghost mut bj: int = 0;
    let mut i: usize = 0;
    while i < r1.len()
        invariant
            i <= r1@.len(),
            max_dist < usize::MAX,
            forall|a: int| 0 <= a < r1@.len() ==> (#[trigger] r1@[a]).0 <= i32::MAX && r1@[a].1 <= i32::MAX,
            forall|b: int| 0 <= b < r2@.len() ==> (#[trigger] r2@[b]).0 <= i32::MAX && r2@[b].1 <= i32::MAX,
            forall|a: int, b: int|
                0 <= a < r1@.len() && 0 <= b < r2@.len() ==> #[trigger] pair_dist(r1@, r2@, a, b) <= i32::MAX,
            best_dist <= max_dist + 1,
            best.is_none() ==> best_dist == max_dist + 1,
            best.is_none() ==> forall|a: int, b: int| 0 <= a < i && 0 <= b < r2@.len() ==> #[trigger] pair_dist(r1@, r2@, a, b) > max_dist,
            best matches Some(t) ==> {
                &&& 0 <= bi < i
                &&& 0 <= bj < r2@.len()
                &&& t == (r1@[bi].0, r1@[bi].1, r2@[bj].0, r2@[bj].1)
                &&& best_dist == pair_dist(r1@, r2@, bi, bj)
                &&& best_dist <= max_dist
                &&& forall|a: int, b: int| 0 <= a < i && 0 <= b < r2@.len() ==> #[trigger] pair_dist(r1@, r2@, a, b) >= best_dist
                    && ((a < bi || (a == bi && b < bj)) ==> pair_dist(r1@, r2@, a, b) > best_dist)
            },
        decreases r1@.len() - i,
    {
        let (x1, y1) = r1[i];
        let mut j: usize = 0;
        while j < r2.len()
            invariant
                i < r1@.len(),
                j <= r2@.len(),
                (x1, y1) == r1@[i as int],
                max_dist < usize::MAX,
                forall|a: int| 0 <= a < r1@.len() ==> (#[trigger] r1@[a]).0 <= i32::MAX && r1@[a].1 <= i32::MAX,
                forall|b: int| 0 <= b < r2@.len() ==> (#[trigger] r2@[b]).0 <= i32::MAX && r2@[b].1 <= i32::MAX,
                forall|a: int, b: int|
                    0 <= a < r1@.len() && 0 <= b < r2@.len() ==> #[trigger] pair_dist(r1@, r2@, a, b) <= i32::MAX,
                best_dist <= max_dist + 1,
                best.is_none() ==> best_dist == max_dist + 1,
                best.is_none() ==> forall|a: int, b: int|
                    (0 <= a < i && 0 <= b < r2@.len()) || (a == i && 0 <= b < j) ==> #[trigger] pair_dist(r1@, r2@, a, b) > max_dist,
                best matches Some(t) ==> {
                    &&& (0 <= bi < i && 0 <= bj < r2@.len()) || (bi == i && 0 <= bj < j)
                    &&& t == (r1@[bi].0, r1@[bi].1, r2@[bj].0, r2@[bj].1)
                    &&& best_dist == pair_dist(r1@, r2@, bi, bj)
                    &&& best_dist <= max_dist
                    &&& forall|a: int, b: int|
                        (0 <= a < i && 0 <= b < r2@.len()) || (a == i && 0 <= b < j) ==> #[trigger] pair_dist(
                            r1@,
                            r2@,
                            a,
                            b,
                        ) >= best_dist && ((a < bi || (a == bi && b < bj)) ==> pair_dist(r1@, r2@, a, b) > best_dist)
                },
            decreases r2@.len() - j,
        {
            let (x2, y2) = r2[j];
            assert(pair_dist(r1@, r2@, i as int, j as int) <= i32::MAX);
            let dx: i32 = if x1 >= x2 { (x1 as i32) - (x2 as i32) } else { (x2 as i32) - (x1 as i32) };
            let dy: i32 = if y1 >= y2 { (y1 as i32) - (y2 as i32) } else { (y2 as i32) - (y1 as i32) };
            let dist = (dx + dy) as usize;
            if dist < best_dist {
                best_dist = dist;
                best = Some((x1, y1, x2, y2));
                proof {
                    bi = i as int;
                    bj = j as int;
                }
            }
            j = j + 1;
        }
        i = i + 1;
    }
    proof {
        if best.is_some() {
            assert(within(r1@, r2@, max_dist as int)) by {
                assert(pair_dist(r1@, r2@, bi, bj) <= max_dist);
            }
        }
    }
    best
}

/// A sequence of passable cells, each a 4-neighbour of the previous one,
/// connects its ends.
proof fn lemma_chain_connects(g: &Grid<Tile>, pts: Seq<(usize, usize)>)
    requires
        pts.len() > 0,
        forall|k: int| 0 <= k < pts.len() ==> g.open_at(pos(#[trigger] pts[k])),
        forall|k: int| 0 <= k < pts.len() - 1 ==> adjacent4(pos(#[trigger] pts[k]), pos(pts[k + 1])),
    ensures
        g.connected(pos(pts[0]), pos(pts.last())),
{
    let wk = pts.map_values(|p: (usize, usize)| pos(p));
    assert forall|i: int| 0 <= i < wk.len() implies g.open_at(#[trigger] wk[i]) by {
        assert(wk[i] == pos(pts[i]));
    }
    assert forall|i: int| 0 <= i < wk.len() - 1 implies adjacent4(#[trigger] wk[i], wk[i + 1]) by {
        assert(wk[i] == pos(pts[i]) && wk[i + 1] == pos(pts[i + 1]));
    }
    assert(g.is_walk(wk));
    assert(wk[0] == pos(pts[0]) && wk.last() == pos(pts.last()));
}

/// Floors the points of `line_points` from `(x1, y1)` to `(x2, y2)`.
/// `pts` is the line [`line_points`] draws from `start` to `end`.
pub open spec fn is_line(pts: Seq<(usize, usize)>, start: (usize, usize), end: (usize, usize)) -> bool {
    &&& pts.len() == manhattan(pos(start), pos(end)) + 1
    &&& pts[0] == start
    &&& pts.last() == end
    &&& forall|i: int| 0 <= i < pts.len() - 1 ==> pos(#[trigger] pts[i + 1]) == line_step(pos(pts[i]), pos(end))
}

/// Floor cells `p` and `q` of `g` lie in different regions within `d` of
/// each other, and no two cells of those regions are closer.
pub open spec fn closest_cells(g: &Grid<Tile>, p: (int, int), q: (int, int), d: int) -> bool {
    &&& g.open_at(p)
    &&& g.open_at(q)
    &&& !g.connected(p, q)
    &&& manhattan(p, q) <= d
    &&& forall|p2: (int, int), q2: (int, int)|
        #[trigger] g.connected(p, p2) && #[trigger] g.connected(q, q2) ==> manhattan(p2, q2) >= manhattan(p, q)
}

/// Cell `c` lies on the line between two closest cells of two regions of `g`
/// within `d` of each other.
pub open spec fn on_bridge(g: &Grid<Tile>, d: int, c: (int, int)) -> bool {
    exists|p: (usize, usize), q: (usize, usize), pts: Seq<(usize, usize)>|
        #[trigger] closest_cells(g, pos(p), pos(q), d) && #[trigger] is_line(pts, p, q) && holds_pos(pts, c)
}

fn carve_line(grid: &mut Grid<Tile>, x1: usize, y1: usize, x2: usize, y2: usize)
    requires
        old(grid).wf(),
        x1 < old(grid).w(),
        x2 < old(grid).w(),
        y1 < old(grid).h(),
        y2 < old(grid).h(),
        x1 <= i32::MAX,
        x2 <= i32::MAX,
        y1 <= i32::MAX,
        y2 <= i32::MAX,
    ensures
        old(grid).grows_to(final(grid)),
        final(grid).connected((x1 as int, y1 as int), (x2 as int, y2 as int)),
        exists|pts: Seq<(usize, usize)>|
            #[trigger] is_line(pts, (x1, y1), (x2, y2)) && forall|x: int, y: int|
                old(grid).contains(x, y) ==> #[trigger] final(grid).at(x, y) == if holds_pos(pts, (x, y)) {
                    Tile::Floor
                } else {
                    old(grid).at(x, y)
                },
{
    let ghost g0 = *grid;
    let path = line_points((x1, y1), (x2, y2));
    carve_path(grid, path.as_slice(), 0);
    proof {
        let pts = path@;
        assert(is_line(pts, (x1, y1), (x2, y2)));
        assert forall|x: int, y: int| g0.contains(x, y) implies #[trigger] grid.at(x, y) == if holds_pos(pts, (x, y)) {
            Tile::Floor
        } else {
            g0.at(x, y)
        } by {
            if near_path(pts, 0, (x, y)) {
                let k = choose|k: int| 0 <= k < pts.len() && in_disk(pos(#[trigger] pts[k]), 0, (x, y));
                let c = pos(pts[k]);
                assert((x - c.0) * (x - c.0) + (y - c.1) * (y - c.1) <= 0 ==> x == c.0 && y == c.1) by (nonlinear_arith);
                assert(pos(pts[k]) == (x, y));
            }
            if holds_pos(pts, (x, y)) {
                let k = choose|k: int| 0 <= k < pts.len() && pos(#[trigger] pts[k]) == (x, y);
                assert(in_disk(pos(pts[k]), 0, (x, y)));
            }
        }
    }
    proof {
        let pts = path@;
        assert forall|k: int| 0 <= k < pts.len() implies grid.open_at(pos(#[trigger] pts[k])) by {
            let p = pos(pts[k]);
            assert(between(x1 as int, p.0, x2 as int) && between(y1 as int, p.1, y2 as int));
            assert(in_disk(pos(pts[k]), 0, p));
            assert(near_path(pts, 0, p));
        }
        assert forall|k: int| 0 <= k < pts.len() - 1 implies adjacent4(pos(#[trigger] pts[k]), pos(pts[k + 1])) by {
            assert(manhattan(pos(pts[k]), (x2 as int, y2 as int)) == pts.len() - 1 - k);
            lemma_line_step_adjacent(pos(pts[k]), (x2 as int, y2 as int));
        }
        lemma_chain_connects(grid, pts);
        assert forall|x: int, y: int| g0.contains(x, y) implies #[trigger] grid.at(x, y) == g0.at(x, y) || grid.at(
            x,
            y,
        ).passable() by {
        }
    }
}

/// Two regions of `regions` come within `d` of each other.
pub open spec fn regions_close(regions: Seq<Vec<(usize, usize)>>, a: int, b: int, d: int) -> bool {
    within(regions[a]@, regions[b]@, d)
}

/// Joins every two floor regions that come within `max_distance`
/// (taxicab) with a straight floor line between their closest cells.
/// Afterwards any two cells whose regions came that close are connected;
/// only cells on such lines change, so with at most one region nothing
/// changes.
pub fn bridge_gaps(grid: &mut Grid<Tile>, max_distance: usize)
    requires
        old(grid).wf(),
        old(grid).w() + old(grid).h() <= i32::MAX + 2,
        max_distance < usize::MAX,
    ensures
        old(grid).grows_to(final(grid)),
        forall|p: (int, int), q: (int, int), a: (int, int), b: (int, int)|
            #[trigger] old(grid).connected(p, a) && #[trigger] old(grid).connected(q, b) && manhattan(a, b)
                <= max_distance ==> final(grid).connected(p, q),
        forall|x: int, y: int|
            old(grid).contains(x, y) && #[trigger] final(grid).at(x, y) != old(grid).at(x, y) ==> on_bridge(
                old(grid),
                max_distance as int,
                (x, y),
            ),
        (forall|p: (int, int), q: (int, int)| #[trigger] old(grid).open_at(p) && #[trigger] old(grid).open_at(q)
            ==> old(grid).connected(p, q)) ==> forall|x: int, y: int|
            old(grid).contains(x, y) ==> #[trigger] final(grid).at(x, y) == old(grid).at(x, y),
{
    let ghost g0 = *grid;
    let regions = grid.flood_regions();
    let n = regions.len();
    let w = grid.width();
    let h = grid.height();
    proof {
        assert forall|r: int, k: int| 0 <= r < n && 0 <= k < regions@[r]@.len() implies #[trigger] g0.open_at(pos(regions@[r]@[k])) by {
            assert(g0.is_component(regions@[r]@));
            assert(g0.connected(pos(regions@[r]@[0]), pos(regions@[r]@[k])));
            let wk = choose|wk: Seq<(int, int)>| #[trigger] g0.is_walk(wk) && wk[0] == pos(regions@[r]@[0]) && wk.last() == pos(regions@[r]@[k]);
            assert(g0.open_at(wk[wk.len() - 1]));
        }
    }
    if n > 1 {
        let mut r1: usize = 0;
        while r1 < n
            invariant
                n == regions@.len(),
                w == g0.w(),
                h == g0.h(),
                w + h <= i32::MAX + 2,
                max_distance < usize::MAX,
                g0.wf(),
                forall|r: int| 0 <= r < n ==> #[trigger] g0.is_component(regions@[r]@),
                forall|r: int, k: int| 0 <= r < n && 0 <= k < regions@[r]@.len() ==> #[trigger] g0.open_at(pos(regions@[r]@[k])),
                g0.grows_to(grid),
                forall|r1: int, r2: int|
                    0 <= r1 < r2 < n ==> !g0.connected(pos(#[trigger] regions@[r1]@[0]), pos(#[trigger] regions@[r2]@[0])),
                forall|x: int, y: int|
                    g0.contains(x, y) && #[trigger] grid.at(x, y) != g0.at(x, y) ==> on_bridge(&g0, max_distance as int, (x, y)),
                forall|a: int, b: int|
                    0 <= a < r1 && a < b < n && #[trigger] regions_close(regions@, a, b, max_distance as int)
                        ==> grid.connected(pos(regions@[a]@[0]), pos(regions@[b]@[0])),
            decreases n - r1,
        {
            let mut r2: usize = r1 + 1;
            while r2 < n
                invariant
                    n == regions@.len(),
                    r1 < n,
                    r1 + 1 <= r2 <= n,
                    w == g0.w(),
                    h == g0.h(),
                    w + h <= i32::MAX + 2,
                    max_distance < usize::MAX,
                    g0.wf(),
                    forall|r: int| 0 <= r < n ==> #[trigger] g0.is_component(regions@[r]@),
                    forall|r: int, k: int| 0 <= r < n && 0 <= k < regions@[r]@.len() ==> #[trigger] g0.open_at(pos(regions@[r]@[k])),
                    g0.grows_to(grid),
                    forall|r1: int, r2: int|
                        0 <= r1 < r2 < n ==> !g0.connected(pos(#[trigger] regions@[r1]@[0]), pos(#[trigger] regions@[r2]@[0])),
                    forall|x: int, y: int|
                        g0.contains(x, y) && #[trigger] grid.at(x, y) != g0.at(x, y) ==> on_bridge(&g0, max_distance as int, (x, y)),
                    forall|a: int, b: int|
                        ((0 <= a < r1 && a < b < n) || (a == r1 && a < b < r2)) && #[trigger] regions_close(
                            regions@,
                            a,
                            b,
                            max_distance as int,
                        ) ==> grid.connected(pos(regions@[a]@[0]), pos(regions@[b]@[0])),
                decreases n - r2,
            {
                let ghost ra = regions@[r1 as int]@;
                let ghost rb = regions@[r2 as int]@;
                proof {
                    assert forall|i: int| 0 <= i < ra.len() implies (#[trigger] ra[i]).0 <= i32::MAX && ra[i].1 <= i32::MAX by {
                        assert(g0.open_at(pos(regions@[r1 as int]@[i])));
                    }
                    assert forall|j: int| 0 <= j < rb.len() implies (#[trigger] rb[j]).0 <= i32::MAX && rb[j].1 <= i32::MAX by {
                        assert(g0.open_at(pos(regions@[r2 as int]@[j])));
                    }
                    assert forall|i: int, j: int| 0 <= i < ra.len() && 0 <= j < rb.len() implies #[trigger] pair_dist(ra, rb, i, j)
                        <= i32::MAX by {
                        assert(g0.open_at(pos(regions@[r1 as int]@[i])));
                        assert(g0.open_at(pos(regions@[r2 as int]@[j])));
                    }
                }
                let found = find_closest(regions[r1].as_slice(), regions[r2].as_slice(), max_distance);
                let ghost gbefore = *grid;
                if let Some((x1, y1, x2, y2)) = found {
                    proof {
                        let (i, j) = choose|i: int, j: int|
                            {
                                &&& 0 <= i < ra.len()
                                &&& 0 <= j < rb.len()
                                &&& (x1, y1, x2, y2) == (ra[i].0, ra[i].1, rb[j].0, rb[j].1)
                                &&& #[trigger] pair_dist(ra, rb, i, j) <= max_distance
                                &&& forall|i2: int, j2: int|
                                    0 <= i2 < ra.len() && 0 <= j2 < rb.len() ==> #[trigger] pair_dist(ra, rb, i2, j2)
                                        >= pair_dist(ra, rb, i, j) && ((i2 < i || (i2 == i && j2 < j)) ==> pair_dist(
                                        ra,
                                        rb,
                                        i2,
                                        j2,
                                    ) > pair_dist(ra, rb, i, j))
                            };
                        assert(g0.open_at(pos(regions@[r1 as int]@[i])));
                        assert(g0.open_at(pos(regions@[r2 as int]@[j])));
                    }
                    carve_line(grid, x1, y1, x2, y2);
                    proof {
                        let (i, j) = choose|i: int, j: int|
                            {
                                &&& 0 <= i < ra.len()
                                &&& 0 <= j < rb.len()
                                &&& (x1, y1, x2, y2) == (ra[i].0, ra[i].1, rb[j].0, rb[j].1)
                                &&& #[trigger] pair_dist(ra, rb, i, j) <= max_distance
                                &&& forall|i2: int, j2: int|
                                    0 <= i2 < ra.len() && 0 <= j2 < rb.len() ==> #[trigger] pair_dist(ra, rb, i2, j2)
                                        >= pair_dist(ra, rb, i, j) && ((i2 < i || (i2 == i && j2 < j)) ==> pair_dist(
                                        ra,
                                        rb,
                                        i2,
                                        j2,
                                    ) > pair_dist(ra, rb, i, j))
                            };
                        assert(g0.is_component(ra) && g0.is_component(rb));
                        assert(!g0.connected(pos(ra[0]), pos(rb[0])));
                        lemma_closest(&g0, ra, rb, i, j, max_distance as int);
                        let pts = choose|pts: Seq<(usize, usize)>|
                            #[trigger] is_line(pts, (x1, y1), (x2, y2)) && forall|x: int, y: int|
                                gbefore.contains(x, y) ==> #[trigger] grid.at(x, y) == if holds_pos(pts, (x, y)) {
                                    Tile::Floor
                                } else {
                                    gbefore.at(x, y)
                                };
                        assert forall|x: int, y: int|
                            g0.contains(x, y) && #[trigger] grid.at(x, y) != g0.at(x, y) implies on_bridge(
                            &g0,
                            max_distance as int,
                            (x, y),
                        ) by {
                            if holds_pos(pts, (x, y)) {
                                assert(closest_cells(&g0, pos((x1, y1)), pos((x2, y2)), max_distance as int));
                            } else {
                                assert(grid.at(x, y) == gbefore.at(x, y));
                            }
                        }
                    }
                    proof {
                        let (i, j) = choose|i: int, j: int|
                            {
                                &&& 0 <= i < ra.len()
                                &&& 0 <= j < rb.len()
                                &&& (x1, y1, x2, y2) == (ra[i].0, ra[i].1, rb[j].0, rb[j].1)
                                &&& #[trigger] pair_dist(ra, rb, i, j) <= max_distance
                                &&& forall|i2: int, j2: int|
                                    0 <= i2 < ra.len() && 0 <= j2 < rb.len() ==> #[trigger] pair_dist(ra, rb, i2, j2)
                                        >= pair_dist(ra, rb, i, j) && ((i2 < i || (i2 == i && j2 < j)) ==> pair_dist(
                                        ra,
                                        rb,
                                        i2,
                                        j2,
                                    ) > pair_dist(ra, rb, i, j))
                            };
                        gbefore.lemma_grows_trans(grid, grid);
                        g0.lemma_grows_trans(&gbefore, grid);
                        let fa = pos(ra[0]);
                        let fb = pos(rb[0]);
                        assert(g0.is_component(ra));
                        assert(g0.is_component(rb));
                        assert(g0.connected(fa, pos(ra[i])));
                        assert(g0.connected(fb, pos(rb[j])));
                        g0.lemma_grows_connected(grid, fa, pos(ra[i]));
                        g0.lemma_grows_connected(grid, fb, pos(rb[j]));
                        grid.lemma_connected_symmetric(fb, pos(rb[j]));
                        grid.lemma_connected_trans(fa, pos(ra[i]), pos(rb[j]));
                        grid.lemma_connected_trans(fa, pos(rb[j]), fb);
                        assert forall|a: int, b: int|
                            ((0 <= a < r1 && a < b < n) || (a == r1 && a < b < r2 + 1)) && #[trigger] regions_close(
                                regions@,
                                a,
                                b,
                                max_distance as int,
                            ) implies grid.connected(pos(regions@[a]@[0]), pos(regions@[b]@[0])) by {
                            if !(a == r1 && b == r2) {
                                gbefore.lemma_grows_connected(grid, pos(regions@[a]@[0]), pos(regions@[b]@[0]));
                            }
                        }
                    }
                } else {
                    proof {
                        assert forall|a: int, b: int|
                            ((0 <= a < r1 && a < b < n) || (a == r1 && a < b < r2 + 1)) && #[trigger] regions_close(
                                regions@,
                                a,
                                b,
                                max_distance as int,
                            ) implies grid.connected(pos(regions@[a]@[0]), pos(regions@[b]@[0])) by {
                        }
                    }
                }
                r2 = r2 + 1;
            }
            r1 = r1 + 1;
        }
    }
    proof {
        assert forall|p: (int, int), q: (int, int), a: (int, int), b: (int, int)|
            #[trigger] g0.connected(p, a) && #[trigger] g0.connected(q, b) && manhattan(a, b) <= max_distance implies grid.connected(
            p,
            q,
        ) by {
            lemma_bridge_pair(&g0, grid, regions@, max_distance as int, p, q, a, b);
        }
        if forall|p: (int, int), q: (int, int)| #[trigger] g0.open_at(p) && #[trigger] g0.open_at(q) ==> g0.connected(p, q) {
            assert forall|x: int, y: int| g0.contains(x, y) implies #[trigger] grid.at(x, y) == g0.at(x, y) by {
                if grid.at(x, y) != g0.at(x, y) {
                    assert(on_bridge(&g0, max_distance as int, (x, y)));
                    let (p, q, pts) = choose|p: (usize, usize), q: (usize, usize), pts: Seq<(usize, usize)>|
                        #[trigger] closest_cells(&g0, pos(p), pos(q), max_distance as int) && #[trigger] is_line(pts, p, q)
                            && holds_pos(pts, (x, y));
                    assert(g0.open_at(pos(p)) && g0.open_at(pos(q)));
                }
            }
        }
    }
}

/// The closest pair that `find_closest` picks from two regions is a pair of
/// closest cells of those regions.
proof fn lemma_closest(g0: &Grid<Tile>, ra: Seq<(usize, usize)>, rb: Seq<(usize, usize)>, i: int, j: int, d: int)
    requires
        g0.is_component(ra),
        g0.is_component(rb),
        !g0.connected(pos(ra[0]), pos(rb[0])),
        0 <= i < ra.len(),
        0 <= j < rb.len(),
        g0.open_at(pos(ra[i])),
        g0.open_at(pos(rb[j])),
        pair_dist(ra, rb, i, j) <= d,
        forall|i2: int, j2: int|
            0 <= i2 < ra.len() && 0 <= j2 < rb.len() ==> #[trigger] pair_dist(ra, rb, i2, j2) >= pair_dist(ra, rb, i, j),
    ensures
        closest_cells(g0, pos(ra[i]), pos(rb[j]), d),
{
    let p = pos(ra[i]);
    let q = pos(rb[j]);
    let a0 = pos(ra[0]);
    let b0 = pos(rb[0]);
    assert(g0.connected(a0, p));
    assert(g0.connected(b0, q));
    if g0.connected(p, q) {
        g0.lemma_connected_trans(a0, p, q);
        g0.lemma_connected_symmetric(b0, q);
        g0.lemma_connected_trans(a0, q, b0);
    }
    assert forall|p2: (int, int), q2: (int, int)|
        #[trigger] g0.connected(p, p2) && #[trigger] g0.connected(q, q2) implies manhattan(p2, q2) >= manhattan(p, q) by {
        g0.lemma_connected_trans(a0, p, p2);
        g0.lemma_connected_trans(b0, q, q2);
        assert(holds_pos(ra, p2));
        assert(holds_pos(rb, q2));
        let i2 = choose|k: int| 0 <= k < ra.len() && pos(#[trigger] ra[k]) == p2;
        let j2 = choose|k: int| 0 <= k < rb.len() && pos(#[trigger] rb[k]) == q2;
        assert(pair_dist(ra, rb, i2, j2) >= pair_dist(ra, rb, i, j));
    }
}

/// From the region-level facts to cells: cells whose regions come within
/// `d` are connected in the bridged grid.
proof fn lemma_bridge_pair(
    g0: &Grid<Tile>,
    g: &Grid<Tile>,
    regions: Seq<Vec<(usize, usize)>>,
    d: int,
    p: (int, int),
    q: (int, int),
    a: (int, int),
    b: (int, int),
)
    requires
        g0.grows_to(g),
        forall|r: int| 0 <= r < regions.len() ==> #[trigger] g0.is_component(regions[r]@),
        forall|x: (int, int)| #[trigger] g0.open_at(x) ==> in_some(regions, x),
        regions.len() > 1 ==> forall|r1: int, r2: int|
            0 <= r1 < r2 < regions.len() && #[trigger] regions_close(regions, r1, r2, d) ==> g.connected(
                pos(regions[r1]@[0]),
                pos(regions[r2]@[0]),
            ),
        g0.connected(p, a),
        g0.connected(q, b),
        manhattan(a, b) <= d,
    ensures
        g.connected(p, q),
{
    let wp = choose|wk: Seq<(int, int)>| #[trigger] g0.is_walk(wk) && wk[0] == p && wk.last() == a;
    let wq = choose|wk: Seq<(int, int)>| #[trigger] g0.is_walk(wk) && wk[0] == q && wk.last() == b;
    assert(g0.open_at(wp[0]));
    assert(g0.open_at(wq[0]));
    let rp = choose|r: int| 0 <= r < regions.len() && holds_pos(#[trigger] regions[r]@, p);
    let rq = choose|r: int| 0 <= r < regions.len() && holds_pos(#[trigger] regions[r]@, q);
    assert(g0.is_component(regions[rp]@));
    assert(g0.is_component(regions[rq]@));
    let fp = pos(regions[rp]@[0]);
    let fq = pos(regions[rq]@[0]);
    let kp = choose|k: int| 0 <= k < regions[rp]@.len() && pos(#[trigger] regions[rp]@[k]) == p;
    let kq = choose|k: int| 0 <= k < regions[rq]@.len() && pos(#[trigger] regions[rq]@[k]) == q;
    assert(g0.connected(fp, p));
    assert(g0.connected(fq, q));
    g0.lemma_connected_trans(fp, p, a);
    g0.lemma_connected_trans(fq, q, b);
    assert(holds_pos(regions[rp]@, a));
    assert(holds_pos(regions[rq]@, b));
    let ia = choose|k: int| 0 <= k < regions[rp]@.len() && pos(#[trigger] regions[rp]@[k]) == a;
    let ib = choose|k: int| 0 <= k < regions[rq]@.len() && pos(#[trigger] regions[rq]@[k]) == b;
    g0.lemma_connected_symmetric(fp, p);
    g0.lemma_connected_symmetric(fq, q);
    if rp == rq {
        g0.lemma_connected_trans(p, fp, q);
        g0.lemma_grows_connected(g, p, q);
    } else {
        g0.lemma_grows_connected(g, p, fp);
        g0.lemma_grows_connected(g, fq, q);
        if rp < rq {
            assert(pair_dist(regions[rp]@, regions[rq]@, ia, ib) <= d);
            assert(regions_close(regions, rp, rq, d));
            assert(g.connected(fp, fq));
        } else {
            assert(pair_dist(regions[rq]@, regions[rp]@, ib, ia) <= d);
            assert(regions_close(regions, rq, rp, d));
            assert(g.connected(fq, fp));
            g.lemma_connected_symmetric(fq, fp);
        }
        g.lemma_connected_trans(p, fp, fq);
        g.lemma_connected_trans(p, fq, q);
    }
}

/// Number of floor cells among the 4-neighbours of `(x, y)`.
pub open spec fn floor_neighbours(s: Seq<Tile>, w: int, x: int, y: int) -> int {
    (if floor_at(s, w, x - 1, y) { 1int } else { 0int }) + (if floor_at(s, w, x + 1, y) { 1int } else { 0int }) + (
    if floor_at(s, w, x, y - 1) { 1int } else { 0int }) + (if floor_at(s, w, x, y + 1) { 1int } else { 0int })
}

/// The dead-end check at `(x, y)`: a floor cell with at most one floor
/// 4-neighbour becomes wall.
pub open spec fn prune_cell(s: Seq<Tile>, w: int, x: int, y: int) -> Seq<Tile> {
    if floor_at(s, w, x, y) && floor_neighbours(s, w, x, y) <= 1 {
        s.update(cell_index(w, x, y), Tile::Wall)
    } else {
        s
    }
}

/// The checks at `(1, y)` up to `(k - 1, y)`, in order, each seeing the
/// result of the previous ones.
pub open spec fn prune_row(s: Seq<Tile>, w: int, y: int, k: int) -> Seq<Tile>
    decreases k,
{
    if k <= 1 {
        s
    } else {
        prune_cell(prune_row(s, w, y, k - 1), w, k - 1, y)
    }
}

/// The checks of rows `1` up to `k - 1`, each row from `x = 1` to `x = w - 2`.
pub open spec fn prune_rows(s: Seq<Tile>, w: int, k: int) -> Seq<Tile>
    decreases k,
{
    if k <= 1 {
        s
    } else {
        prune_row(prune_rows(s, w, k - 1), w, k - 1, w - 1)
    }
}

/// One pass over all interior cells in row-major order.
pub open spec fn prune_pass(s: Seq<Tile>, w: int, h: int) -> Seq<Tile> {
    prune_rows(s, w, h - 1)
}

/// `n` passes.
pub open spec fn prune_n(s: Seq<Tile>, w: int, h: int, n: nat) -> Seq<Tile>
    decreases n,
{
    if n == 0 {
        s
    } else {
        prune_pass(prune_n(s, w, h, (n - 1) as nat), w, h)
    }
}

/// Once a pass changes nothing, further passes change nothing.
pub proof fn lemma_prune_settled(s: Seq<Tile>, w: int, h: int, k: nat, n: nat)
    requires
        prune_pass(prune_n(s, w, h, k), w, h) == prune_n(s, w, h, k),
        k <= n,
    ensures
        prune_n(s, w, h, n) == prune_n(s, w, h, k),
    decreases n,
{
    if n > k {
        lemma_prune_settled(s, w, h, k, (n - 1) as nat);
    }
}

/// Fills in dead ends: `iterations` times (or until a pass changes nothing)
/// every interior floor cell with at most one floor 4-neighbour becomes
/// wall, cells being checked row by row, left to right, each check seeing
/// the earlier ones.
pub fn remove_dead_ends(grid: &mut Grid<Tile>, iterations: usize)
    requires
        old(grid).wf(),
        old(grid).w() <= i32::MAX,
        old(grid).h() <= i32::MAX,
        iterations > 0 ==> old(grid).h() >= 1 && (old(grid).h() >= 3 ==> old(grid).w() >= 1),
    ensures
        final(grid).wf(),
        final(grid).w() == old(grid).w(),
        final(grid).h() == old(grid).h(),
        final(grid).cells() == prune_n(old(grid).cells(), old(grid).w() as int, old(grid).h() as int, iterations as nat),
{
    let ghost s0 = grid.cells();
    let w = grid.width();
    let h = grid.height();
    let ghost wi = w as int;
    let ghost hi = h as int;
    let mut it: usize = 0;
    let mut settled = false;
    while it < iterations && !settled
        invariant
            it <= iterations,
            wi == w,
            hi == h,
            grid.wf(),
            grid.w() == w,
            grid.h() == h,
            w <= i32::MAX,
            h <= i32::MAX,
            grid.cells() == prune_n(s0, wi, hi, it as nat),
            settled ==> prune_pass(grid.cells(), wi, hi) == grid.cells(),
            iterations > 0 ==> h >= 1 && (h >= 3 ==> w >= 1),
        decreases iterations - it,
    {
        let ghost start = grid.cells();
        let mut changed = false;
        let mut y: usize = 1;
        while y + 1 < h
            invariant
                1 <= y <= h,
                h >= 2 ==> y <= h - 1,
                h >= 3 ==> w >= 1,
                wi == w,
                hi == h,
                grid.wf(),
                grid.w() == w,
                grid.h() == h,
                w <= i32::MAX,
                h <= i32::MAX,
                grid.cells() == prune_rows(start, wi, y as int),
                !changed ==> grid.cells() == start,
            decreases h - y,
        {
            let ghost row_start = grid.cells();
            let mut x: usize = 1;
            while x + 1 < w
                invariant
                    1 <= x <= w,
                    w >= 2 ==> x <= w - 1,
                    1 <= y,
                    y + 1 < h,
                    wi == w,
                    hi == h,
                    grid.wf(),
                    grid.w() == w,
                    grid.h() == h,
                    w <= i32::MAX,
                    h <= i32::MAX,
                    row_start == prune_rows(start, wi, y as int),
                    grid.cells() == prune_row(row_start, wi, y as int, x as int),
                    !changed ==> grid.cells() == start,
                decreases w - x,
            {
                let ghost cur = grid.cells();
                proof {
                    lemma_cell_index_bounds(wi, hi, x as int, y as int);
                    lemma_cell_index_bounds(wi, hi, x - 1, y as int);
                    lemma_cell_index_bounds(wi, hi, x + 1, y as int);
                    lemma_cell_index_bounds(wi, hi, x as int, y - 1);
                    lemma_cell_index_bounds(wi, hi, x as int, y + 1);
                }
                if grid.cell(x, y).is_floor() {
                    let mut count: usize = 0;
                    if grid.cell(x - 1, y).is_floor() {
                        count = count + 1;
                    }
                    if grid.cell(x + 1, y).is_floor() {
                        count = count + 1;
                    }
                    if grid.cell(x, y - 1).is_floor() {
                        count = count + 1;
                    }
                    if grid.cell(x, y + 1).is_floor() {
                        count = count + 1;
                    }
                    if count <= 1 {
                        grid.set(x as i32, y as i32, Tile::Wall);
                        changed = true;
                        proof {
                            let t = cur.update(cell_index(wi, x as int, y as int), Tile::Wall);
                            assert forall|px: int, py: int| grid.contains(px, py) implies #[trigger] grid.at(px, py)
                                == t[cell_index(wi, px, py)] by {
                                lemma_cell_index_bounds(wi, hi, px, py);
                                if cell_index(wi, px, py) == cell_index(wi, x as int, y as int) {
                                    lemma_cell_index_injective(wi, px, py, x as int, y as int);
                                }
                            }
                            grid.lemma_cells_match(t);
                        }
                    }
                }
                assert(grid.cells() == prune_cell(cur, wi, x as int, y as int));
                x = x + 1;
            }
            proof {
                if w <= 2 {
                    assert(prune_row(row_start, wi, y as int, wi - 1) == row_start);
                }
                assert(prune_rows(start, wi, y + 1) == prune_row(row_start, wi, y as int, wi - 1));
            }
            y = y + 1;
        }
        proof {
            if h <= 2 {
                assert(prune_rows(start, wi, hi - 1) == start);
            }
            assert(grid.cells() == prune_pass(start, wi, hi));
            if !changed {
                assert(prune_pass(start, wi, hi) == start);
            }
        }
        settled = !changed;
        it = it + 1;
    }
    proof {
        if settled {
            lemma_prune_settled(s0, wi, hi, it as nat, iterations as nat);
        }
    }
}

/// An interior floor cell with at least two floor 4-neighbours, some of
/// which (taken west, east, north, south) the walls would cut off from the
/// first once the cell itself is walled.
pub open spec fn is_chokepoint(g: &Grid<Tile>, x: int, y: int) -> bool {
    let nb = g.open_neighbors4((x as usize, y as usize));
    &&& interior(g.w() as int, g.h() as int, x, y)
    &&& g.at(x, y) == Tile::Floor
    &&& nb.len() >= 2
    &&& exists|j: int| 1 <= j < nb.len() && !g.connected_avoiding(pos(nb[0]), pos(#[trigger] nb[j]), (x, y))
}

/// The floor 4-neighbours of `(x, y)`: west, east, north, south.
fn floor_neighbours_of(grid: &Grid<Tile>, x: usize, y: usize) -> (r: Vec<(usize, usize)>)
    requires
        grid.wf(),
        x < grid.w(),
        y < grid.h(),
    ensures
        r@ == grid.open_neighbors4((x, y)),
{
    let w = grid.width();
    let h = grid.height();
    let mut r: Vec<(usize, usize)> = Vec::new();
    if x > 0 && grid.cell(x - 1, y).is_floor() {
        r.push((x - 1, y));
    }
    let ghost r1 = r@;
    if x + 1 < w && grid.cell(x + 1, y).is_floor() {
        r.push((x + 1, y));
    }
    let ghost r2 = r@;
    if y > 0 && grid.cell(x, y - 1).is_floor() {
        r.push((x, y - 1));
    }
    let ghost r3 = r@;
    if y + 1 < h && grid.cell(x, y + 1).is_floor() {
        r.push((x, y + 1));
    }
    proof {
        let t = (x, y);
        assert(r@ =~= grid.open_neighbors4(t));
    }
    r
}

/// Whether some entry of `v` is `p`.
fn holds_point(v: &Vec<(usize, usize)>, p: (usize, usize)) -> (r: bool)
    ensures
        r == holds_pos(v@, pos(p)),
{
    let mut k: usize = 0;
    while k < v.len()
        invariant
            k <= v@.len(),
            forall|j: int| 0 <= j < k ==> pos(#[trigger] v@[j]) != pos(p),
        decreases v@.len() - k,
    {
        if v[k].0 == p.0 && v[k].1 == p.1 {
            assert(pos(v@[k as int]) == pos(p));
            return true;
        }
        k = k + 1;
    }
    false
}

/// Whether walling `(x, y)` off cuts one of its floor neighbours `nb[1..]`
/// from `nb[0]`; `blocked` is `grid` with `(x, y)` walled.
fn cuts_off(grid: &Grid<Tile>, blocked: &Grid<Tile>, x: usize, y: usize, nb: &Vec<(usize, usize)>) -> (r: bool)
    requires
        grid.wf(),
        blocked.wf(),
        blocked.w() == grid.w(),
        blocked.h() == grid.h(),
        x < grid.w(),
        y < grid.h(),
        nb@ == grid.open_neighbors4((x, y)),
        nb@.len() >= 1,
        forall|px: int, py: int|
            grid.contains(px, py) ==> #[trigger] blocked.at(px, py) == if px == x && py == y {
                Tile::Wall
            } else {
                grid.at(px, py)
            },
    ensures
        r == exists|j: int|
            1 <= j < nb@.len() && !grid.connected_avoiding(pos(nb@[0]), pos(#[trigger] nb@[j]), (x as int, y as int)),
{
    let ghost c = (x as int, y as int);
    let ghost t = (x, y);
    let first = nb[0];
    proof {
        grid.lemma_open_neighbors4(t);
        assert(grid.open_at(pos(nb@[0])));
        assert(adjacent4(c, pos(nb@[0])));
        assert(blocked.at(pos(first).0, pos(first).1) == grid.at(pos(first).0, pos(first).1));
        assert forall|q: (int, int)| blocked.connected(pos(first), q) == grid.connected_avoiding(pos(first), q, c) by {
            grid.lemma_blocked_connected(blocked, c, pos(first), q);
        }
    }
    let comp = blocked.flood_fill(first.0, first.1);
    let mut cut = false;
    let mut j: usize = 1;
    while j < nb.len()
        invariant
            1 <= j <= nb@.len(),
            blocked.open_at(pos(first)),
            first == nb@[0],
            comp@[0] == first,
            blocked.is_component(comp@),
            cut == exists|k: int| 1 <= k < j && !grid.connected_avoiding(pos(nb@[0]), pos(#[trigger] nb@[k]), c),
            forall|q: (int, int)| blocked.connected(pos(first), q) == grid.connected_avoiding(pos(first), q, c),
        decreases nb@.len() - j,
    {
        let p = nb[j];
        let inside = holds_point(&comp, p);
        proof {
            if inside {
                let k = choose|k: int| 0 <= k < comp@.len() && pos(#[trigger] comp@[k]) == pos(p);
                assert(blocked.connected(pos(comp@[0]), pos(comp@[k])));
            } else {
                assert(!blocked.connected(pos(first), pos(p)));
            }
        }
        if !inside {
            cut = true;
        }
        j = j + 1;
    }
    cut
}

/// The chokepoints (see [`is_chokepoint`]) in row-major order.
#[verifier::spinoff_prover]
pub fn find_chokepoints(grid: &Grid<Tile>) -> (r: Vec<(usize, usize)>)
    requires
        grid.wf(),
        grid.w() <= i32::MAX,
        grid.h() <= i32::MAX,
        grid.h() >= 1,
        grid.h() >= 3 ==> grid.w() >= 1,
    ensures
        forall|k: int| 0 <= k < r@.len() ==> is_chokepoint(grid, (#[trigger] r@[k]).0 as int, r@[k].1 as int),
        forall|x: int, y: int| #[trigger] is_chokepoint(grid, x, y) ==> holds_pos(r@, (x, y)),
        forall|k1: int, k2: int|
            0 <= k1 < k2 < r@.len() ==> grid.index_at(#[trigger] r@[k1]) < grid.index_at(#[trigger] r@[k2]),
{
    let w = grid.width();
    let h = grid.height();
    let mut blocked = grid.duplicate();
    let mut out: Vec<(usize, usize)> = Vec::new();
    let mut y: usize = 1;
    while y + 1 < h
        invariant
            1 <= y <= h,
            h >= 2 ==> y <= h - 1,
            h >= 3 ==> w >= 1,
            w == grid.w(),
            h == grid.h(),
            w <= i32::MAX,
            h <= i32::MAX,
            grid.wf(),
            blocked.wf(),
            blocked.w() == w,
            blocked.h() == h,
            blocked.cells() == grid.cells(),
            forall|k: int| 0 <= k < out@.len() ==> is_chokepoint(grid, (#[trigger] out@[k]).0 as int, out@[k].1 as int),
            forall|k: int| 0 <= k < out@.len() ==> (#[trigger] out@[k]).1 < y,
            forall|px: int, py: int| py < y && #[trigger] is_chokepoint(grid, px, py) ==> holds_pos(out@, (px, py)),
            forall|k1: int, k2: int|
                0 <= k1 < k2 < out@.len() ==> grid.index_at(#[trigger] out@[k1]) < grid.index_at(#[trigger] out@[k2]),
        decreases h - y,
    {
        let mut x: usize = 1;
        while x + 1 < w
            invariant
                1 <= x <= w,
                w >= 2 ==> x <= w - 1,
                1 <= y,
                y + 1 < h,
                w == grid.w(),
                h == grid.h(),
                w <= i32::MAX,
                h <= i32::MAX,
                grid.wf(),
                blocked.wf(),
                blocked.w() == w,
                blocked.h() == h,
                blocked.cells() == grid.cells(),
                forall|k: int| 0 <= k < out@.len() ==> is_chokepoint(grid, (#[trigger] out@[k]).0 as int, out@[k].1 as int),
                forall|k: int| 0 <= k < out@.len() ==> (#[trigger] out@[k]).1 < y || (out@[k].1 == y && out@[k].0 < x),
                forall|px: int, py: int|
                    (py < y || (py == y && px < x)) && #[trigger] is_chokepoint(grid, px, py) ==> holds_pos(
                        out@,
                        (px, py),
                    ),
                forall|k1: int, k2: int|
                    0 <= k1 < k2 < out@.len() ==> grid.index_at(#[trigger] out@[k1]) < grid.index_at(#[trigger] out@[k2]),
            decreases w - x,
        {
            let mut choke = false;
            if grid.cell(x, y).is_floor() {
                let nb = floor_neighbours_of(grid, x, y);
                if nb.len() >= 2 {
                    blocked.set(x as i32, y as i32, Tile::Wall);
                    choke = cuts_off(grid, &blocked, x, y, &nb);
                    blocked.set(x as i32, y as i32, Tile::Floor);
                    proof {
                        assert forall|px: int, py: int| blocked.contains(px, py) implies #[trigger] blocked.at(px, py)
                            == grid.cells()[cell_index(w as int, px, py)] by {
                        }
                        blocked.lemma_cells_match(grid.cells());
                    }
                }
            }
            assert(choke == is_chokepoint(grid, x as int, y as int));
            if choke {
                let ghost e0 = out@;
                out.push((x, y));
                proof {
                    assert(pos(out@[e0.len() as int]) == (x as int, y as int));
                    assert forall|px: int, py: int|
                        (py < y || (py == y && px < x + 1)) && #[trigger] is_chokepoint(grid, px, py) implies holds_pos(
                        out@,
                        (px, py),
                    ) by {
                        if !(py == y && px == x) {
                            let k = choose|k: int| 0 <= k < e0.len() && pos(#[trigger] e0[k]) == (px, py);
                            assert(out@[k] == e0[k]);
                        }
                    }
                    assert forall|k1: int, k2: int| 0 <= k1 < k2 < out@.len() implies grid.index_at(
                        #[trigger] out@[k1],
                    ) < grid.index_at(#[trigger] out@[k2]) by {
                        if k2 == e0.len() {
                            let e = out@[k1];
                            assert(e == e0[k1]);
                            assert(e.1 < y || (e.1 == y && e.0 < x));
                            assert(is_chokepoint(grid, e.0 as int, e.1 as int));
                            if e.1 < y {
                                assert(cell_index(w as int, e.0 as int, e.1 as int) < cell_index(
                                    w as int,
                                    x as int,
                                    y as int,
                                )) by (nonlinear_arith)
                                    requires
                                        e.0 < w,
                                        e.1 < y,
                                ;
                            }
                        }
                    }
                }
            }
            x = x + 1;
        }
        proof {
            assert forall|px: int, py: int| (py < y + 1) && #[trigger] is_chokepoint(grid, px, py) implies holds_pos(
                out@,
                (px, py),
            ) by {
                if py == y {
                    assert(interior(w as int, h as int, px, py));
                }
            }
        }
        y = y + 1;
    }
    proof {
        assert forall|px: int, py: int| #[trigger] is_chokepoint(grid, px, py) implies holds_pos(out@, (px, py)) by {
            assert(interior(w as int, h as int, px, py));
        }
    }
    out
}

/// `t` differs from `s` only by interior floor cells turned to wall.
pub open spec fn walls_inside(s: Seq<Tile>, t: Seq<Tile>, w: int, h: int) -> bool {
    &&& t.len() == s.len()
    &&& forall|i: int| 0 <= i < s.len() && #[trigger] t[i] == Tile::Floor ==> s[i] == Tile::Floor
    &&& forall|x: int, y: int|
        0 <= x < w && 0 <= y < h && !interior(w, h, x, y) ==> #[trigger] t[cell_index(w, x, y)] == s[cell_index(
            w,
            x,
            y,
        )]
}

proof fn lemma_walls_inside_trans(a: Seq<Tile>, b: Seq<Tile>, c: Seq<Tile>, w: int, h: int)
    requires
        walls_inside(a, b, w, h),
        walls_inside(b, c, w, h),
    ensures
        walls_inside(a, c, w, h),
{
    assert forall|i: int| 0 <= i < a.len() && #[trigger] c[i] == Tile::Floor implies a[i] == Tile::Floor by {
        assert(b[i] == Tile::Floor);
    }
    assert forall|x: int, y: int| 0 <= x < w && 0 <= y < h && !interior(w, h, x, y) implies #[trigger] c[cell_index(
        w,
        x,
        y,
    )] == a[cell_index(w, x, y)] by {
        assert(c[cell_index(w, x, y)] == b[cell_index(w, x, y)]);
    }
}

proof fn lemma_prune_row_inside(s: Seq<Tile>, w: int, h: int, y: int, k: int)
    requires
        s.len() == w * h,
        1 <= y < h - 1,
        k <= w - 1,
    ensures
        walls_inside(s, prune_row(s, w, y, k), w, h),
    decreases k,
{
    if k > 1 {
        lemma_prune_row_inside(s, w, h, y, k - 1);
        let p = prune_row(s, w, y, k - 1);
        let x = k - 1;
        let t = prune_cell(p, w, x, y);
        lemma_cell_index_bounds(w, h, x, y);
        assert forall|px: int, py: int| 0 <= px < w && 0 <= py < h && !interior(w, h, px, py) implies #[trigger] t[cell_index(
            w,
            px,
            py,
        )] == p[cell_index(w, px, py)] by {
            lemma_cell_index_bounds(w, h, px, py);
            if cell_index(w, px, py) == cell_index(w, x, y) {
                lemma_cell_index_injective(w, px, py, x, y);
            }
        }
        assert(walls_inside(p, t, w, h));
        lemma_walls_inside_trans(s, p, t, w, h);
    }
}

proof fn lemma_prune_rows_inside(s: Seq<Tile>, w: int, h: int, k: int)
    requires
        s.len() == w * h,
        k <= h - 1,
    ensures
        walls_inside(s, prune_rows(s, w, k), w, h),
    decreases k,
{
    if k > 1 {
        lemma_prune_rows_inside(s, w, h, k - 1);
        let p = prune_rows(s, w, k - 1);
        lemma_prune_row_inside(p, w, h, k - 1, w - 1);
        lemma_walls_inside_trans(s, p, prune_rows(s, w, k), w, h);
    }
}

/// Removing dead ends never creates floor and never touches the border:
/// after any number of passes every floor cell was floor before, and every
/// border cell keeps its value.
pub proof fn law_dead_ends_only_wall_up(s: Seq<Tile>, w: int, h: int, n: nat)
    requires
        s.len() == w * h,
    ensures
        walls_inside(s, prune_n(s, w, h, n), w, h),
    decreases n,
{
    if n > 0 {
        law_dead_ends_only_wall_up(s, w, h, (n - 1) as nat);
        let p = prune_n(s, w, h, (n - 1) as nat);
        lemma_prune_rows_inside(p, w, h, h - 1);
        lemma_walls_inside_trans(s, p, prune_n(s, w, h, n), w, h);
    }
}

/// An interior wall with floor 4-neighbours from two different regions.
pub open spec fn is_connector(g: &Grid<Tile>, x: int, y: int) -> bool {
    &&& interior(g.w() as int, g.h() as int, x, y)
    &&& g.at(x, y) != Tile::Floor
    &&& exists|a: (int, int), b: (int, int)|
        adjacent4((x, y), a) && adjacent4((x, y), b) && #[trigger] g.open_at(a) && #[trigger] g.open_at(b)
            && !g.connected(a, b)
}

/// Some floor 4-neighbour of `(x, y)` carries label `l`.
pub open spec fn neighbour_has_label(g: &Grid<Tile>, labels: Seq<u32>, x: int, y: int, l: u32) -> bool {
    exists|a: (int, int)| adjacent4((x, y), a) && #[trigger] g.open_at(a) && label_at(labels, g.w() as int, a) == l
}

/// A connector with the distinct region labels around it.
pub struct Connector {
    pub x: usize,
    pub y: usize,
    pub labels: Vec<u32>,
}

/// The distinct labels of the floor 4-neighbours of interior cell `(x, y)`,
/// in the order west, east, north, south.
fn neighbour_labels(grid: &Grid<Tile>, labels: &Vec<u32>, x: usize, y: usize) -> (r: Vec<u32>)
    requires
        grid.wf(),
        1 <= x < grid.w() - 1,
        1 <= y < grid.h() - 1,
        labels@.len() == grid.cells().len(),
    ensures
        forall|k: int| 0 <= k < r@.len() ==> neighbour_has_label(grid, labels@, x as int, y as int, #[trigger] r@[k]),
        forall|a: (int, int)|
            adjacent4((x as int, y as int), a) && #[trigger] grid.open_at(a) ==> r@.contains(
                label_at(labels@, grid.w() as int, a),
            ),
        forall|k1: int, k2: int| 0 <= k1 < k2 < r@.len() ==> r@[k1] != r@[k2],
{
    let w = grid.width();
    let h = grid.height();
    let ghost c = (x as int, y as int);
    let ghost wi = w as int;
    let mut out: Vec<u32> = Vec::new();
    let ghost mut src: Seq<(int, int)> = seq![];
    let cand: [(usize, usize); 4] = [(x - 1, y), (x + 1, y), (x, y - 1), (x, y + 1)];
    let mut k: usize = 0;
    while k < 4
        invariant
            k <= 4,
            w == grid.w(),
            h == grid.h(),
            wi == w,
            c == (x as int, y as int),
            grid.wf(),
            1 <= x < w - 1,
            1 <= y < h - 1,
            labels@.len() == grid.cells().len(),
            cand@ == seq![((x - 1) as usize, y), ((x + 1) as usize, y), (x, (y - 1) as usize), (x, (y + 1) as usize)],
            src.len() == out@.len(),
            forall|j: int|
                0 <= j < out@.len() ==> adjacent4(c, #[trigger] src[j]) && grid.open_at(src[j]) && label_at(
                    labels@,
                    wi,
                    src[j],
                ) == out@[j],
            forall|j: int|
                0 <= j < k && #[trigger] grid.open_at(pos(cand@[j])) ==> out@.contains(label_at(labels@, wi, pos(cand@[j]))),
            forall|k1: int, k2: int| 0 <= k1 < k2 < out@.len() ==> out@[k1] != out@[k2],
        decreases 4 - k,
    {
        let (nx, ny) = cand[k];
        if grid.cell(nx, ny).is_floor() {
            proof {
                lemma_cell_index_bounds(wi, h as int, nx as int, ny as int);
            }
            let l = labels[ny * w + nx];
            let mut seen = false;
            let mut j: usize = 0;
            while j < out.len()
                invariant
                    j <= out@.len(),
                    seen == exists|i: int| 0 <= i < j && out@[i] == l,
                decreases out@.len() - j,
            {
                if out[j] == l {
                    seen = true;
                }
                j = j + 1;
            }
            let ghost o0 = out@;
            if !seen {
                out.push(l);
                proof {
                    let a = pos(cand@[k as int]);
                    let s0 = src;
                    src = src.push(a);
                    assert(out@[o0.len() as int] == l);
                    assert(adjacent4(c, a) && grid.open_at(a));
                    assert(label_at(labels@, wi, a) == l);
                    assert forall|i: int| 0 <= i < out@.len() implies adjacent4(c, #[trigger] src[i]) && grid.open_at(
                        src[i],
                    ) && label_at(labels@, wi, src[i]) == out@[i] by {
                        if i < o0.len() {
                            assert(out@[i] == o0[i]);
                            assert(src[i] == s0[i]);
                        }
                    }
                    assert forall|i: int| 0 <= i <= k && #[trigger] grid.open_at(pos(cand@[i])) implies out@.contains(
                        label_at(labels@, wi, pos(cand@[i])),
                    ) by {
                        if i < k {
                            let m = choose|m: int| 0 <= m < o0.len() && o0[m] == label_at(labels@, wi, pos(cand@[i]));
                            assert(out@[m] == o0[m]);
                        } else {
                            assert(out@[o0.len() as int] == label_at(labels@, wi, pos(cand@[i])));
                        }
                    }
                }
            } else {
                proof {
                    let i0 = choose|i: int| 0 <= i < j && out@[i] == l;
                    assert(label_at(labels@, wi, pos(cand@[k as int])) == l);
                    assert(out@.contains(l));
                }
            }
        }
        k = k + 1;
    }
    proof {
        assert forall|a: (int, int)| adjacent4(c, a) && #[trigger] grid.open_at(a) implies out@.contains(
            label_at(labels@, wi, a),
        ) by {
            if a == (c.0 - 1, c.1) {
                assert(pos(cand@[0]) == a);
            } else if a == (c.0 + 1, c.1) {
                assert(pos(cand@[1]) == a);
            } else if a == (c.0, c.1 - 1) {
                assert(pos(cand@[2]) == a);
            } else {
                assert(pos(cand@[3]) == a);
            }
        }
        assert forall|j: int| 0 <= j < out@.len() implies neighbour_has_label(
            grid,
            labels@,
            x as int,
            y as int,
            #[trigger] out@[j],
        ) by {
            assert(grid.open_at(src[j]));
        }
    }
    out
}

/// What the scan for connectors keeps true of each one found.
pub open spec fn connector_ok(g: &Grid<Tile>, labels: Seq<u32>, count: u32, c: Connector) -> bool {
    &&& is_connector(g, c.x as int, c.y as int)
    &&& c.labels@.len() >= 2
    &&& forall|j: int| 0 <= j < c.labels@.len() ==> 1 <= #[trigger] c.labels@[j] <= count
    &&& forall|j: int|
        0 <= j < c.labels@.len() ==> neighbour_has_label(g, labels, c.x as int, c.y as int, #[trigger] c.labels@[j])
    &&& forall|j1: int, j2: int| 0 <= j1 < j2 < c.labels@.len() ==> #[trigger] c.labels@[j1] != #[trigger] c.labels@[j2]
    &&& forall|a: (int, int)|
        adjacent4((c.x as int, c.y as int), a) && #[trigger] g.open_at(a) ==> c.labels@.contains(
            label_at(labels, g.w() as int, a),
        )
}

/// Labels that differ on two floor neighbours make the cell a connector.
proof fn lemma_connector(g: &Grid<Tile>, labels: Seq<u32>, count: u32, x: int, y: int, adj: Seq<u32>)
    requires
        g.wf(),
        interior(g.w() as int, g.h() as int, x, y),
        g.at(x, y) != Tile::Floor,
        adj.len() >= 2,
        adj[0] != adj[1],
        forall|k: int| 0 <= k < adj.len() ==> neighbour_has_label(g, labels, x, y, #[trigger] adj[k]),
        forall|p: (int, int), q: (int, int)|
            g.open_at(p) && g.open_at(q) ==> ((#[trigger] label_at(labels, g.w() as int, p) == #[trigger] label_at(
                labels,
                g.w() as int,
                q,
            )) == g.connected(p, q)),
        forall|p: (int, int)| #[trigger] g.open_at(p) ==> 1 <= label_at(labels, g.w() as int, p) <= count,
    ensures
        is_connector(g, x, y),
        forall|j: int| 0 <= j < adj.len() ==> 1 <= #[trigger] adj[j] <= count,
{
    assert(neighbour_has_label(g, labels, x, y, adj[0]));
    assert(neighbour_has_label(g, labels, x, y, adj[1]));
    let a = choose|a: (int, int)| adjacent4((x, y), a) && #[trigger] g.open_at(a) && label_at(labels, g.w() as int, a)
        == adj[0];
    let b = choose|b: (int, int)| adjacent4((x, y), b) && #[trigger] g.open_at(b) && label_at(labels, g.w() as int, b)
        == adj[1];
    assert(!g.connected(a, b));
    assert forall|j: int| 0 <= j < adj.len() implies 1 <= #[trigger] adj[j] <= count by {
        assert(neighbour_has_label(g, labels, x, y, adj[j]));
    }
}

/// A sequence of `false` entries counts none.
proof fn lemma_count_true_none(bs: Seq<bool>)
    requires
        forall|i: int| 0 <= i < bs.len() ==> !#[trigger] bs[i],
    ensures
        count_true(bs) == 0,
    decreases bs.len(),
{
    if bs.len() > 0 {
        let d = bs.drop_last();
        assert forall|i: int| 0 <= i < d.len() implies !#[trigger] d[i] by {
            assert(d[i] == bs[i]);
        }
        lemma_count_true_none(d);
    }
}

/// A sequence with at least as many `true` entries as entries holds only `true`.
proof fn lemma_count_true_full(bs: Seq<bool>)
    requires
        count_true(bs) >= bs.len(),
    ensures
        forall|i: int| 0 <= i < bs.len() ==> #[trigger] bs[i],
    decreases bs.len(),
{
    if bs.len() > 0 {
        let d = bs.drop_last();
        lemma_count_true_bound(d);
        lemma_count_true_full(d);
        assert forall|i: int| 0 <= i < bs.len() implies #[trigger] bs[i] by {
            if i < d.len() {
                assert(bs[i] == d[i]);
            }
        }
    }
}

/// The connectors of the grid (see [`connector_ok`]), in row-major order;
/// every connector of the grid is among them.
fn find_connectors(grid: &Grid<Tile>, labels: &Vec<u32>, count: u32) -> (connectors: Vec<Connector>)
    requires
        grid.wf(),
        grid.w() >= 1,
        grid.h() >= 1,
        grid.w() <= i32::MAX,
        grid.h() <= i32::MAX,
        labels@.len() == grid.cells().len(),
        forall|p: (int, int), q: (int, int)|
            grid.open_at(p) && grid.open_at(q) ==> ((#[trigger] label_at(labels@, grid.w() as int, p) == #[trigger] label_at(
                labels@,
                grid.w() as int,
                q,
            )) == grid.connected(p, q)),
        forall|p: (int, int)| #[trigger] grid.open_at(p) ==> 1 <= label_at(labels@, grid.w() as int, p) <= count,
    ensures
        forall|i: int| 0 <= i < connectors@.len() ==> connector_ok(grid, labels@, count, #[trigger] connectors@[i]),
        forall|i1: int, i2: int|
            0 <= i1 < i2 < connectors@.len() ==> cell_index(
                grid.w() as int,
                (#[trigger] connectors@[i1]).x as int,
                connectors@[i1].y as int,
            ) < cell_index(grid.w() as int, (#[trigger] connectors@[i2]).x as int, connectors@[i2].y as int),
        forall|i: int| 0 <= i < connectors@.len() ==> (#[trigger] connectors@[i]).x < grid.w(),
        forall|px: int, py: int|
            #[trigger] is_connector(grid, px, py) ==> exists|i: int|
                0 <= i < connectors@.len() && connectors@[i].x == px && connectors@[i].y == py,
{
    let ghost g0 = *grid;
    let w = grid.width();
    let h = grid.height();
    let mut connectors: Vec<Connector> = Vec::new();
    let mut y: usize = 1;
    while y + 1 < h
        invariant
            1 <= y <= h,
            h >= 2 ==> y <= h - 1,
            w >= 1,
            w == g0.w(),
            h == g0.h(),
            *grid == g0,
            g0.wf(),
            labels@.len() == g0.cells().len(),
            forall|p: (int, int), q: (int, int)|
                g0.open_at(p) && g0.open_at(q) ==> ((#[trigger] label_at(labels@, w as int, p) == #[trigger] label_at(
                    labels@,
                    w as int,
                    q,
                )) == g0.connected(p, q)),
            forall|p: (int, int)| #[trigger] g0.open_at(p) ==> 1 <= label_at(labels@, w as int, p) <= count,
            forall|i: int| 0 <= i < connectors@.len() ==> connector_ok(&g0, labels@, count, #[trigger] connectors@[i]),
            forall|i1: int, i2: int|
                0 <= i1 < i2 < connectors@.len() ==> cell_index(
                    w as int,
                    (#[trigger] connectors@[i1]).x as int,
                    connectors@[i1].y as int,
                ) < cell_index(w as int, (#[trigger] connectors@[i2]).x as int, connectors@[i2].y as int),
            forall|i: int| 0 <= i < connectors@.len() ==> (#[trigger] connectors@[i]).y < y && connectors@[i].x < w,
            forall|px: int, py: int|
                py < y && #[trigger] is_connector(&g0, px, py) ==> exists|i: int|
                    0 <= i < connectors@.len() && connectors@[i].x == px && connectors@[i].y == py,
        decreases h - y,
    {
        let mut x: usize = 1;
        while x + 1 < w
            invariant
                1 <= x <= w,
                w >= 2 ==> x <= w - 1,
                1 <= y,
                y + 1 < h,
                w == g0.w(),
                h == g0.h(),
                *grid == g0,
                g0.wf(),
                labels@.len() == g0.cells().len(),
                forall|p: (int, int), q: (int, int)|
                    g0.open_at(p) && g0.open_at(q) ==> ((#[trigger] label_at(labels@, w as int, p) == #[trigger] label_at(
                        labels@,
                        w as int,
                        q,
                    )) == g0.connected(p, q)),
                forall|p: (int, int)| #[trigger] g0.open_at(p) ==> 1 <= label_at(labels@, w as int, p) <= count,
                forall|i: int| 0 <= i < connectors@.len() ==> connector_ok(&g0, labels@, count, #[trigger] connectors@[i]),
                forall|i1: int, i2: int|
                    0 <= i1 < i2 < connectors@.len() ==> cell_index(
                        w as int,
                        (#[trigger] connectors@[i1]).x as int,
                        connectors@[i1].y as int,
                    ) < cell_index(w as int, (#[trigger] connectors@[i2]).x as int, connectors@[i2].y as int),
                forall|i: int|
                    0 <= i < connectors@.len() ==> ((#[trigger] connectors@[i]).y < y || (connectors@[i].y == y
                        && connectors@[i].x < x)) && connectors@[i].x < w,
                forall|px: int, py: int|
                    (py < y || (py == y && px < x)) && #[trigger] is_connector(&g0, px, py) ==> exists|i: int|
                        0 <= i < connectors@.len() && connectors@[i].x == px && connectors@[i].y == py,
            decreases w - x,
        {
            if !grid.cell(x, y).is_floor() {
                let adj = neighbour_labels(grid, &labels, x, y);
                proof {
                    if adj.len() < 2 && is_connector(&g0, x as int, y as int) {
                        let (a, b) = choose|a: (int, int), b: (int, int)|
                            adjacent4((x as int, y as int), a) && adjacent4((x as int, y as int), b)
                                && #[trigger] g0.open_at(a) && #[trigger] g0.open_at(b) && !g0.connected(a, b);
                        let la = label_at(labels@, w as int, a);
                        let lb = label_at(labels@, w as int, b);
                        assert(la != lb);
                        assert(adj@.contains(la) && adj@.contains(lb));
                        let i = choose|i: int| 0 <= i < adj@.len() && adj@[i] == la;
                        let j = choose|j: int| 0 <= j < adj@.len() && adj@[j] == lb;
                        assert(i != j);
                    }
                }
                if adj.len() >= 2 {
                    proof {
                        lemma_connector(&g0, labels@, count, x as int, y as int, adj@);
                    }
                    let ghost c0 = connectors@;
                    connectors.push(Connector { x, y, labels: adj });
                    proof {
                        assert(connector_ok(&g0, labels@, count, connectors@[c0.len() as int]));
                        assert forall|px: int, py: int|
                            (py < y || (py == y && px < x + 1)) && #[trigger] is_connector(&g0, px, py) implies exists|
                            i: int,
                        | 0 <= i < connectors@.len() && connectors@[i].x == px && connectors@[i].y == py by {
                            if py == y && px == x {
                                assert(connectors@[c0.len() as int].x == px);
                            } else {
                                let i = choose|i: int| 0 <= i < c0.len() && c0[i].x == px && c0[i].y == py;
                                assert(connectors@[i] == c0[i]);
                            }
                        }
                        assert forall|i1: int, i2: int| 0 <= i1 < i2 < connectors@.len() implies cell_index(
                            w as int,
                            (#[trigger] connectors@[i1]).x as int,
                            connectors@[i1].y as int,
                        ) < cell_index(w as int, (#[trigger] connectors@[i2]).x as int, connectors@[i2].y as int) by {
                            if i2 == c0.len() {
                                let e = connectors@[i1];
                                assert(e == c0[i1]);
                                if e.y < y {
                                    assert(cell_index(w as int, e.x as int, e.y as int) < cell_index(
                                        w as int,
                                        x as int,
                                        y as int,
                                    )) by (nonlinear_arith)
                                        requires
                                            e.x < w,
                                            e.y < y,
                                    ;
                                }
                            } else {
                                assert(connectors@[i1] == c0[i1] && connectors@[i2] == c0[i2]);
                            }
                        }
                        assert forall|i: int| 0 <= i < connectors@.len() implies connector_ok(
                            &g0,
                            labels@,
                            count,
                            #[trigger] connectors@[i],
                        ) by {
                            if i < c0.len() {
                                assert(connectors@[i] == c0[i]);
                            }
                        }
                        assert forall|i: int| 0 <= i < connectors@.len() implies ((#[trigger] connectors@[i]).y < y
                            || (connectors@[i].y == y && connectors@[i].x < x + 1)) && connectors@[i].x < w by {
                            if i < c0.len() {
                                assert(connectors@[i] == c0[i]);
                            }
                        }
                    }
                }
            }
            x = x + 1;
        }
        y = y + 1;
    }
    proof {
        assert forall|px: int, py: int| #[trigger] is_connector(&g0, px, py) implies exists|i: int|
            0 <= i < connectors@.len() && connectors@[i].x == px && connectors@[i].y == py by {
            assert(py < y);
        }
    }
    connectors
}

/// `comp` gives each label `1..=count` the label that stands for its group,
/// and every such label stands for itself.
spec fn groups_ok(comp: Seq<u32>, count: int) -> bool {
    &&& comp.len() == count
    &&& forall|i: int| 0 <= i < count ==> 1 <= #[trigger] comp[i] <= count && comp[comp[i] - 1] == comp[i]
}

/// Which labels stand for their own group.
spec fn roots(comp: Seq<u32>) -> Seq<bool> {
    Seq::new(comp.len(), |i: int| comp[i] == i + 1)
}

/// `comp` with group `b` merged into group `a`.
pub open spec fn merged(comp: Seq<u32>, a: u32, b: u32) -> Seq<u32> {
    Seq::new(comp.len(), |i: int| if comp[i] == b { a } else { comp[i] })
}

/// Floor cells of `g0` whose labels share a group are connected in `g`.
#[verifier::opaque]
spec fn groups_joined(g0: &Grid<Tile>, g: &Grid<Tile>, labels: Seq<u32>, comp: Seq<u32>) -> bool {
    forall|p: (int, int), q: (int, int)|
        #![trigger g0.open_at(p), g0.open_at(q)]
        g0.open_at(p) && g0.open_at(q) && comp[label_at(labels, g0.w() as int, p) - 1] == comp[label_at(
            labels,
            g0.w() as int,
            q,
        ) - 1] ==> g.connected(p, q)
}

/// The labels of each of the first `k` connectors share a group.
#[verifier::opaque]
spec fn groups_cover(cs: Seq<Connector>, comp: Seq<u32>, k: int) -> bool {
    forall|i: int, jj: int|
        0 <= i < k && 0 <= jj < cs[i].labels@.len() ==> comp[#[trigger] cs[i].labels@[jj] - 1] == comp[cs[i].labels@[0] - 1]
}

/// Merging groups keeps labels that shared a group together.
proof fn lemma_cover_merged(cs: Seq<Connector>, comp: Seq<u32>, k: int, a: u32, b: u32, count: u32)
    requires
        groups_cover(cs, comp, k),
        comp.len() == count,
        forall|i: int, jj: int|
            0 <= i < k && 0 <= jj < cs[i].labels@.len() ==> 1 <= #[trigger] cs[i].labels@[jj] <= count,
        forall|i: int| 0 <= i < k ==> cs[i].labels@.len() >= 1,
    ensures
        groups_cover(cs, merged(comp, a, b), k),
{
    reveal(groups_cover);
    assert forall|i: int, jj: int| 0 <= i < k && 0 <= jj < cs[i].labels@.len() implies merged(comp, a, b)[
        #[trigger] cs[i].labels@[jj] - 1] == merged(comp, a, b)[cs[i].labels@[0] - 1] by {
        assert(1 <= cs[i].labels@[0] <= count);
        assert(1 <= cs[i].labels@[jj] <= count);
    }
}

/// Two distinct `true` entries count at least two.
proof fn lemma_count_true_two(bs: Seq<bool>, i: int, j: int)
    requires
        0 <= i < bs.len(),
        0 <= j < bs.len(),
        i != j,
        bs[i],
        bs[j],
    ensures
        count_true(bs) >= 2,
{
    let b1 = bs.update(i, false);
    let b2 = b1.update(j, false);
    lemma_count_true_flip(b1, i);
    assert(b1.update(i, true) =~= bs);
    lemma_count_true_flip(b2, j);
    assert(b2.update(j, true) =~= b1);
}

/// Merges group `b` into group `a`.
fn merge_groups(comp: &mut Vec<u32>, a: u32, b: u32, Ghost(count): Ghost<int>)
    requires
        groups_ok(old(comp)@, count),
        1 <= a <= count,
        1 <= b <= count,
        old(comp)@[a - 1] == a,
        old(comp)@[b - 1] == b,
        a != b,
    ensures
        final(comp)@ == merged(old(comp)@, a, b),
        groups_ok(final(comp)@, count),
        count_true(roots(final(comp)@)) + 1 == count_true(roots(old(comp)@)),
{
    let ghost c0 = comp@;
    let n = comp.len();
    let mut i: usize = 0;
    while i < n
        invariant
            n == c0.len(),
            comp@.len() == n,
            i <= n,
            forall|j: int| 0 <= j < i ==> #[trigger] comp@[j] == (if c0[j] == b { a } else { c0[j] }),
            forall|j: int| i <= j < n ==> #[trigger] comp@[j] == c0[j],
        decreases n - i,
    {
        if comp[i] == b {
            comp.set(i, a);
        }
        i = i + 1;
    }
    proof {
        let c1 = comp@;
        assert(c1 =~= merged(c0, a, b));
        assert forall|j: int| 0 <= j < count implies 1 <= #[trigger] c1[j] <= count && c1[c1[j] - 1] == c1[j] by {
            assert(1 <= c0[j] <= count);
            assert(c0[c0[j] - 1] == c0[j]);
        }
        let r0 = roots(c0);
        let r1 = roots(c1);
        assert(!r1[b - 1]);
        assert(r1.update(b - 1, true) =~= r0) by {
            assert forall|j: int| 0 <= j < n implies #[trigger] r1.update(b - 1, true)[j] == r0[j] by {
                if j != b - 1 && c0[j] == b {
                    assert(c0[j] != j + 1);
                    assert(a != j + 1) by {
                        if a == j + 1 {
                            assert(c0[a - 1] == a);
                        }
                    }
                }
            }
        }
        lemma_count_true_flip(r1, b - 1);
    }
}

/// Opening cells keeps cells of one group connected.
proof fn lemma_joined_grows(g0: &Grid<Tile>, g1: &Grid<Tile>, g2: &Grid<Tile>, labels: Seq<u32>, comp: Seq<u32>)
    requires
        groups_joined(g0, g1, labels, comp),
        g1.grows_to(g2),
    ensures
        groups_joined(g0, g2, labels, comp),
{
    reveal(groups_joined);
    assert forall|p: (int, int), q: (int, int)|
        #![trigger g0.open_at(p), g0.open_at(q)]
        g0.open_at(p) && g0.open_at(q) && comp[label_at(labels, g0.w() as int, p) - 1] == comp[label_at(
            labels,
            g0.w() as int,
            q,
        ) - 1] implies g2.connected(p, q) by {
        g1.lemma_grows_connected(g2, p, q);
    }
}

/// An open cell `pc` next to a cell of group `a` and a cell of group `b`
/// joins the two groups: merging them keeps cells of one group connected.
proof fn lemma_joined_merge(
    g0: &Grid<Tile>,
    g: &Grid<Tile>,
    labels: Seq<u32>,
    comp: Seq<u32>,
    count: u32,
    pc: (int, int),
    ua: (int, int),
    ub: (int, int),
)
    requires
        groups_joined(g0, g, labels, comp),
        groups_ok(comp, count as int),
        forall|p: (int, int)| #[trigger] g0.open_at(p) ==> 1 <= label_at(labels, g0.w() as int, p) <= count,
        forall|p: (int, int)| #[trigger] g0.open_at(p) ==> g.open_at(p),
        g.open_at(pc),
        g0.open_at(ua),
        g0.open_at(ub),
        adjacent4(pc, ua),
        adjacent4(pc, ub),
    ensures
        groups_joined(
            g0,
            g,
            labels,
            merged(
                comp,
                comp[label_at(labels, g0.w() as int, ua) - 1],
                comp[label_at(labels, g0.w() as int, ub) - 1],
            ),
        ),
{
    reveal(groups_joined);
    let w = g0.w() as int;
    let a = comp[label_at(labels, w, ua) - 1];
    let b = comp[label_at(labels, w, ub) - 1];
    let m = merged(comp, a, b);
    assert(g.open_at(ua) && g.open_at(ub));
    // Every cell of group `a` reaches every cell of group `b` through `pc`.
    assert forall|p: (int, int), q: (int, int)|
        g0.open_at(p) && g0.open_at(q) && comp[label_at(labels, w, p) - 1] == a && comp[label_at(labels, w, q) - 1]
            == b implies g.connected(p, q) && g.connected(q, p) by {
        assert(g.connected(p, ua));
        g.lemma_connected_step(p, ua, pc);
        assert(adjacent4(ub, pc) ==> adjacent4(pc, ub));
        g.lemma_connected_step(p, pc, ub);
        assert(g.connected(ub, q));
        g.lemma_connected_trans(p, ub, q);
        g.lemma_connected_symmetric(p, q);
    }
    assert forall|p: (int, int), q: (int, int)|
        #![trigger g0.open_at(p), g0.open_at(q)]
        g0.open_at(p) && g0.open_at(q) && m[label_at(labels, w, p) - 1] == m[label_at(labels, w, q) - 1] implies g.connected(
        p,
        q,
    ) by {
        let lp = label_at(labels, w, p);
        let lq = label_at(labels, w, q);
        assert(1 <= lp <= count && 1 <= lq <= count);
        let cp = comp[lp - 1];
        let cq = comp[lq - 1];
        if cp == cq {
        } else if cp == a && cq == b {
        } else if cp == b && cq == a {
        } else {
            assert(m[lp - 1] == cp && m[lq - 1] == cq || cp == b || cq == b);
        }
    }
}

/// The groups `comp` after joining, one label after another, the group of
/// label `l0` with the group of each of the first `j` labels of `ls`.
pub open spec fn join_labels(comp: Seq<u32>, ls: Seq<u32>, l0: u32, j: nat) -> Seq<u32>
    decreases j,
{
    if j == 0 {
        comp
    } else {
        let c = join_labels(comp, ls, l0, (j - 1) as nat);
        let a = c[l0 - 1];
        let b = c[ls[j - 1] - 1];
        if a != b {
            merged(c, a, b)
        } else {
            c
        }
    }
}

/// The labels `ls` lie in more than one group of `comp`.
pub open spec fn joins_groups(comp: Seq<u32>, ls: Seq<u32>) -> bool {
    exists|jj: int| 0 <= jj < ls.len() && comp[#[trigger] ls[jj] - 1] != comp[ls[0] - 1]
}

/// Kruskal's round on connector `k` of `cs`, from the groups, the number
/// of joining openings, the opened cells and the word position of the next
/// draw on the stream of `seed`: a connector whose labels lie in more than
/// one group opens and joins them; any other opens when its draw falls
/// below `extra` (see [`below`]).
#[verifier::opaque]
pub open spec fn kruskal_round(
    cs: Seq<Connector>,
    k: int,
    extra: u64,
    seed: u64,
    st: (Seq<u32>, int, Seq<(usize, usize)>, u128),
) -> (Seq<u32>, int, Seq<(usize, usize)>, u128) {
    let c = cs[k];
    let ls = c.labels@;
    let joins = joins_groups(st.0, ls);
    let opens = joins || below(u64_at(seed, st.3), extra);
    let made = if opens {
        st.2.push((c.x, c.y))
    } else {
        st.2
    };
    if joins {
        (join_labels(st.0, ls, ls[0], ls.len()), st.1 + 1, made, st.3)
    } else {
        (st.0, st.1, made, after_u64(seed, st.3))
    }
}

/// Kruskal's state after the first `k` connectors of `cs` over `count`
/// regions, drawing from word position `pos` of the stream of `seed`:
/// every region its own group at first, and no connector is looked at once
/// one fewer joining openings than regions have been made.
#[verifier::opaque]
pub open spec fn kruskal_run(cs: Seq<Connector>, count: u32, extra: u64, seed: u64, pos: u128, k: nat) -> (
    Seq<u32>,
    int,
    Seq<(usize, usize)>,
    u128,
)
    decreases k,
{
    if k == 0 {
        (Seq::new(count as nat, |i: int| (i + 1) as u32), 0, Seq::empty(), pos)
    } else {
        let st = kruskal_run(cs, count, extra, seed, pos, (k - 1) as nat);
        if st.1 >= count - 1 {
            st
        } else {
            kruskal_round(cs, k - 1, extra, seed, st)
        }
    }
}

/// Once the regions form one group, further connectors change nothing.
proof fn lemma_kruskal_done(cs: Seq<Connector>, count: u32, extra: u64, seed: u64, pos: u128, k: nat, m: nat)
    requires
        k <= m,
        kruskal_run(cs, count, extra, seed, pos, k).1 >= count - 1,
    ensures
        kruskal_run(cs, count, extra, seed, pos, m) == kruskal_run(cs, count, extra, seed, pos, k),
    decreases m - k,
{
    reveal(kruskal_run);
    if k < m {
        lemma_kruskal_done(cs, count, extra, seed, pos, k, (m - 1) as nat);
    }
}

/// Kruskal's algorithm goes one connector further unless the regions
/// already form one group.
proof fn lemma_kruskal_next(cs: Seq<Connector>, count: u32, extra: u64, seed: u64, pos: u128, k: nat)
    ensures
        kruskal_run(cs, count, extra, seed, pos, 0) == (
            Seq::new(count as nat, |i: int| (i + 1) as u32),
            0int,
            Seq::<(usize, usize)>::empty(),
            pos,
        ),
        kruskal_run(cs, count, extra, seed, pos, k).1 < count - 1 ==> kruskal_run(cs, count, extra, seed, pos, k + 1)
            == kruskal_round(cs, k as int, extra, seed, kruskal_run(cs, count, extra, seed, pos, k)),
{
    reveal(kruskal_run);
}

/// Opens connectors in the order of `cs`, as Kruskal's algorithm over the
/// regions: a connector whose regions are not yet all joined is opened and
/// joins them, until the regions form one group (one fewer openings than
/// regions); any other connector opens when a draw falls below
/// `extra_chance`.
fn open_connectors(
    grid: &mut Grid<Tile>,
    cs: &Vec<Connector>,
    count: u32,
    extra_chance: u64,
    rng: &mut Rng,
    Ghost(labels): Ghost<Seq<u32>>,
) -> (made: Vec<(usize, usize)>)
    requires
        old(grid).wf(),
        old(grid).w() <= i32::MAX,
        old(grid).h() <= i32::MAX,
        count >= 2,
        labels.len() == old(grid).cells().len(),
        forall|p: (int, int)| #[trigger] old(grid).open_at(p) ==> 1 <= label_at(labels, old(grid).w() as int, p) <= count,
        forall|p: (int, int), q: (int, int)|
            old(grid).open_at(p) && old(grid).open_at(q) ==> ((#[trigger] label_at(labels, old(grid).w() as int, p)
                == #[trigger] label_at(labels, old(grid).w() as int, q)) == old(grid).connected(p, q)),
        forall|i: int| 0 <= i < cs@.len() ==> connector_ok(old(grid), labels, count, #[trigger] cs@[i]),
        forall|i1: int, i2: int|
            0 <= i1 < i2 < cs@.len() ==> (#[trigger] cs@[i1].x, cs@[i1].y) != (#[trigger] cs@[i2].x, cs@[i2].y),
    ensures
        final(grid).wf(),
        final(grid).w() == old(grid).w(),
        final(grid).h() == old(grid).h(),
        forall|m: int| 0 <= m < made@.len() ==> is_connector(old(grid), (#[trigger] made@[m]).0 as int, made@[m].1 as int),
        forall|m1: int, m2: int| 0 <= m1 < m2 < made@.len() ==> #[trigger] made@[m1] != #[trigger] made@[m2],
        forall|px: int, py: int|
            old(grid).contains(px, py) ==> #[trigger] final(grid).at(px, py) == if holds_pos(made@, (px, py)) {
                Tile::Floor
            } else {
                old(grid).at(px, py)
            },
        cs@.len() > 0 ==> made@.len() > 0,
        extra_chance == 0 ==> made@.len() < count,
        final(rng).seed_of() == old(rng).seed_of(),
        made@ == kruskal_run(cs@, count, extra_chance, old(rng).seed_of(), old(rng).pos_of(), cs@.len() as nat).2,
        final(rng).pos_of() == kruskal_run(
            cs@,
            count,
            extra_chance,
            old(rng).seed_of(),
            old(rng).pos_of(),
            cs@.len() as nat,
        ).3,
        exists|comp: Seq<u32>|
            #![trigger groups_ok(comp, count as int)]
            groups_ok(comp, count as int) && groups_joined(old(grid), final(grid), labels, comp) && ((forall|i: int|
                0 <= i < count ==> #[trigger] comp[i] == comp[0]) || groups_cover(cs@, comp, cs@.len() as int)),
{
    let ghost g0 = *grid;
    let ghost seed0 = rng.seed_of();
    let ghost pos0 = rng.pos_of();
    let w = grid.width();
    let h = grid.height();
    let n = cs.len();
    let mut comp: Vec<u32> = Vec::with_capacity(count as usize);
    let mut i: u32 = 0;
    while i < count
        invariant
            i <= count,
            comp@.len() == i,
            forall|j: int| 0 <= j < i ==> #[trigger] comp@[j] == j + 1,
        decreases count - i,
    {
        comp.push(i + 1);
        i = i + 1;
    }
    let mut made: Vec<(usize, usize)> = Vec::new();
    let ghost mut idx: Seq<int> = seq![];
    let mut used: u32 = 0;
    let mut done = false;
    let mut k: usize = 0;
    proof {
        reveal(groups_joined);
        reveal(groups_cover);
        assert forall|p: (int, int), q: (int, int)|
            #![trigger g0.open_at(p), g0.open_at(q)]
            g0.open_at(p) && g0.open_at(q) && comp@[label_at(labels, w as int, p) - 1] == comp@[label_at(
                labels,
                w as int,
                q,
            ) - 1] implies grid.connected(p, q) by {
            assert(1 <= label_at(labels, w as int, p) <= count && 1 <= label_at(labels, w as int, q) <= count);
        }
        assert(roots(comp@) =~= Seq::new(count as nat, |j: int| true));
        lemma_count_true_full_seq(count as nat);
        assert(comp@ =~= Seq::new(count as nat, |i: int| (i + 1) as u32));
        lemma_kruskal_next(cs@, count, extra_chance, seed0, pos0, 0);
    }
    while k < n && !done
        invariant
            rng.seed_of() == seed0,
            (comp@, used as int, made@, rng.pos_of()) == kruskal_run(cs@, count, extra_chance, seed0, pos0, k as nat),
            k <= n,
            n == cs@.len(),
            k == 0 ==> forall|j: int| 0 <= j < count ==> #[trigger] comp@[j] == j + 1,
            k > 0 ==> made@.len() > 0,
            done ==> k > 0,
            done ==> used == count - 1,
            used <= count - 1,
            !done ==> used < count - 1,
            extra_chance == 0 ==> made@.len() == used,
            count >= 2,
            groups_ok(comp@, count as int),
            count_true(roots(comp@)) + used <= count,
            groups_joined(&g0, grid, labels, comp@),
            groups_cover(cs@, comp@, k as int),
            w == g0.w(),
            h == g0.h(),
            g0.wf(),
            g0.w() <= i32::MAX,
            g0.h() <= i32::MAX,
            grid.wf(),
            grid.w() == w,
            grid.h() == h,
            labels.len() == g0.cells().len(),
            forall|p: (int, int)| #[trigger] g0.open_at(p) ==> 1 <= label_at(labels, g0.w() as int, p) <= count,
            forall|i: int| 0 <= i < cs@.len() ==> connector_ok(&g0, labels, count, #[trigger] cs@[i]),
            forall|i1: int, i2: int|
                0 <= i1 < i2 < cs@.len() ==> (#[trigger] cs@[i1].x, cs@[i1].y) != (#[trigger] cs@[i2].x, cs@[i2].y),
            idx.len() == made@.len(),
            forall|m: int|
                0 <= m < made@.len() ==> 0 <= #[trigger] idx[m] < k && made@[m] == (cs@[idx[m]].x, cs@[idx[m]].y),
            forall|m1: int, m2: int| 0 <= m1 < m2 < made@.len() ==> #[trigger] idx[m1] < #[trigger] idx[m2],
            forall|px: int, py: int|
                g0.contains(px, py) ==> #[trigger] grid.at(px, py) == if holds_pos(made@, (px, py)) {
                    Tile::Floor
                } else {
                    g0.at(px, py)
                },
        decreases n - k,
    {
        let c = &cs[k];
        let ghost st0 = (comp@, used as int, made@, rng.pos_of());
        proof {
            assert(connector_ok(&g0, labels, count, cs@[k as int]));
        }
        let l0 = c.labels[0];
        let a0 = comp[l0 as usize - 1];
        let mut joins = false;
        let mut j: usize = 1;
        while j < c.labels.len()
            invariant
                1 <= j <= c.labels@.len(),
                connector_ok(&g0, labels, count, *c),
                groups_ok(comp@, count as int),
                l0 == c.labels@[0],
                a0 == comp@[l0 - 1],
                k == 0 ==> forall|i: int| 0 <= i < count ==> #[trigger] comp@[i] == i + 1,
                k == 0 && j > 1 ==> joins,
                joins ==> exists|jj: int| 0 <= jj < j && comp@[c.labels@[jj] - 1] != a0,
                !joins ==> forall|jj: int| 0 <= jj < j ==> comp@[#[trigger] c.labels@[jj] - 1] == a0,
            decreases c.labels@.len() - j,
        {
            let l = c.labels[j];
            if comp[l as usize - 1] != a0 {
                joins = true;
            }
            proof {
                if k == 0 {
                    assert(c.labels@[0] != c.labels@[j as int]);
                }
            }
            j = j + 1;
        }
        proof {
            if joins {
                assert(joins_groups(comp@, c.labels@));
            } else {
                assert forall|jj: int| 0 <= jj < c.labels@.len() implies comp@[#[trigger] c.labels@[jj] - 1] == comp@[c.labels@[0]
                    - 1] by {}
                assert(!joins_groups(comp@, c.labels@));
            }
        }
        let mut open_it = joins;
        if !joins {
            if rng.chance_below(extra_chance) {
                open_it = true;
            }
        }
        let ghost g_before = *grid;
        if open_it {
            let (cx, cy) = (c.x, c.y);
            let ghost m0 = made@;
            let ghost g1 = *grid;
            proof {
                assert(is_connector(&g0, cx as int, cy as int));
            }
            grid.set(cx as i32, cy as i32, Tile::Floor);
            made.push((cx, cy));
            proof {
                idx = idx.push(k as int);
                assert(pos(made@[m0.len() as int]) == (cx as int, cy as int));
                assert forall|px: int, py: int| g0.contains(px, py) implies #[trigger] grid.at(px, py) == if holds_pos(
                    made@,
                    (px, py),
                ) {
                    Tile::Floor
                } else {
                    g0.at(px, py)
                } by {
                    if holds_pos(m0, (px, py)) {
                        let m = choose|m: int| 0 <= m < m0.len() && pos(#[trigger] m0[m]) == (px, py);
                        assert(made@[m] == m0[m]);
                    }
                    if holds_pos(made@, (px, py)) && !(px == cx && py == cy) {
                        let m = choose|m: int| 0 <= m < made@.len() && pos(#[trigger] made@[m]) == (px, py);
                        assert(m < m0.len());
                        assert(made@[m] == m0[m]);
                    }
                    assert(g1.at(px, py) == if holds_pos(m0, (px, py)) {
                        Tile::Floor
                    } else {
                        g0.at(px, py)
                    });
                }
                assert forall|m: int| 0 <= m < made@.len() implies 0 <= #[trigger] idx[m] < k + 1 && made@[m] == (
                cs@[idx[m]].x, cs@[idx[m]].y) by {
                    if m < m0.len() {
                        assert(made@[m] == m0[m]);
                    }
                }
                assert(g1.grows_to(grid));
                lemma_joined_grows(&g0, &g1, grid, labels, comp@);
            }
        }
        if joins {
            let ghost cstart = comp@;
            let ghost mut merged_any = false;
            let ghost pc = (c.x as int, c.y as int);
            proof {
                assert(grid.open_at(pc));
                assert(neighbour_has_label(&g0, labels, c.x as int, c.y as int, c.labels@[0]));
                assert forall|p: (int, int)| #[trigger] g0.open_at(p) implies grid.open_at(p) by {
                    assert(grid.at(p.0, p.1) == Tile::Floor);
                }
            }
            let ghost ua = choose|a: (int, int)|
                adjacent4(pc, a) && #[trigger] g0.open_at(a) && label_at(labels, g0.w() as int, a) == l0;
            let mut j: usize = 0;
            while j < c.labels.len()
                invariant
                    j <= c.labels@.len(),
                    connector_ok(&g0, labels, count, *c),
                    cs@[k as int] == *c,
                    l0 == c.labels@[0],
                    groups_ok(comp@, count as int),
                    groups_joined(&g0, grid, labels, comp@),
                    groups_cover(cs@, comp@, k as int),
                    forall|p: (int, int)| #[trigger] g0.open_at(p) ==> 1 <= label_at(labels, g0.w() as int, p) <= count,
                    forall|p: (int, int)| #[trigger] g0.open_at(p) ==> grid.open_at(p),
                    grid.open_at(pc),
                    pc == (c.x as int, c.y as int),
                    g0.open_at(ua),
                    adjacent4(pc, ua),
                    label_at(labels, g0.w() as int, ua) == l0,
                    k < n,
                    n == cs@.len(),
                    forall|i: int| 0 <= i < cs@.len() ==> connector_ok(&g0, labels, count, #[trigger] cs@[i]),
                    forall|jj: int| 0 <= jj < j ==> comp@[#[trigger] c.labels@[jj] - 1] == comp@[l0 - 1],
                    !merged_any ==> comp@ == cstart,
                    merged_any ==> count_true(roots(comp@)) + 1 <= count_true(roots(cstart)),
                    count_true(roots(comp@)) <= count_true(roots(cstart)),
                    (exists|jj: int| 0 <= jj < j && cstart[c.labels@[jj] - 1] != cstart[l0 - 1]) ==> merged_any,
                    comp@ == join_labels(cstart, c.labels@, l0, j as nat),
                    st0.0 == cstart,
                decreases c.labels@.len() - j,
            {
                let l = c.labels[j];
                let a = comp[l0 as usize - 1];
                let b = comp[l as usize - 1];
                proof {
                    assert(neighbour_has_label(&g0, labels, c.x as int, c.y as int, c.labels@[j as int]));
                }
                let ghost ub = choose|u: (int, int)|
                    adjacent4(pc, u) && #[trigger] g0.open_at(u) && label_at(labels, g0.w() as int, u) == l;
                if a != b {
                    let ghost before = comp@;
                    proof {
                        lemma_joined_merge(&g0, grid, labels, comp@, count, pc, ua, ub);
                        assert forall|i: int| 0 <= i < k implies cs@[i].labels@.len() >= 1 by {
                            assert(connector_ok(&g0, labels, count, cs@[i]));
                        }
                        assert forall|i: int, jj: int|
                            0 <= i < k && 0 <= jj < cs@[i].labels@.len() implies 1 <= #[trigger] cs@[i].labels@[jj]
                            <= count by {
                            assert(connector_ok(&g0, labels, count, cs@[i]));
                        }
                        lemma_cover_merged(cs@, comp@, k as int, a, b, count);
                    }
                    merge_groups(&mut comp, a, b, Ghost(count as int));
                    proof {
                        merged_any = true;
                        assert forall|jj: int| 0 <= jj < j + 1 implies comp@[#[trigger] c.labels@[jj] - 1] == comp@[l0
                            - 1] by {
                            assert(1 <= c.labels@[jj] <= count);
                        }
                    }
                }
                j = j + 1;
            }
            used = used + 1;
            if used >= count - 1 {
                done = true;
            }
            proof {
                let jj0 = choose|jj: int| 0 <= jj < c.labels@.len() && cstart[c.labels@[jj] - 1] != cstart[l0 - 1];
                reveal(groups_cover);
                assert forall|i: int, jj: int| 0 <= i < k + 1 && 0 <= jj < cs@[i].labels@.len() implies comp@[
                    #[trigger] cs@[i].labels@[jj] - 1] == comp@[cs@[i].labels@[0] - 1] by {
                    if i == k {
                        assert(cs@[i] == *c);
                    }
                }
            }
        } else {
            proof {
                reveal(groups_cover);
                assert forall|i: int, jj: int| 0 <= i < k + 1 && 0 <= jj < cs@[i].labels@.len() implies comp@[
                    #[trigger] cs@[i].labels@[jj] - 1] == comp@[cs@[i].labels@[0] - 1] by {
                    if i == k {
                        assert(cs@[i] == *c);
                    }
                }
            }
        }
        proof {
            reveal(kruskal_round);
            assert((comp@, used as int, made@, rng.pos_of()) == kruskal_round(cs@, k as int, extra_chance, seed0, st0));
            lemma_kruskal_next(cs@, count, extra_chance, seed0, pos0, k as nat);
        }
        k = k + 1;
    }
    proof {
        if done {
            lemma_kruskal_done(cs@, count, extra_chance, seed0, pos0, k as nat, n as nat);
        }
        if done {
            assert forall|i: int| 0 <= i < count implies #[trigger] comp@[i] == comp@[0] by {
                let ci = comp@[i];
                let c0 = comp@[0];
                if ci != c0 {
                    assert(roots(comp@)[ci - 1]);
                    assert(roots(comp@)[c0 - 1]);
                    lemma_count_true_two(roots(comp@), ci - 1, c0 - 1);
                }
            }
        }
        assert(groups_ok(comp@, count as int));
        assert forall|m: int| 0 <= m < made@.len() implies is_connector(&g0, (#[trigger] made@[m]).0 as int, made@[m].1 as int) by {
            assert(connector_ok(&g0, labels, count, cs@[idx[m]]));
        }
        assert forall|m1: int, m2: int| 0 <= m1 < m2 < made@.len() implies #[trigger] made@[m1] != #[trigger] made@[m2] by {
            assert(idx[m1] < idx[m2]);
        }
    }
    made
}

/// `n` `true` entries count `n`.
proof fn lemma_count_true_full_seq(n: nat)
    ensures
        count_true(Seq::new(n, |j: int| true)) == n,
    decreases n,
{
    if n > 0 {
        lemma_count_true_full_seq((n - 1) as nat);
        assert(Seq::new(n, |j: int| true).drop_last() =~= Seq::new((n - 1) as nat, |j: int| true));
    }
}

/// Shuffled connectors keep what the scan found true of each, and no two
/// share a cell.
proof fn lemma_shuffled_connectors(g0: &Grid<Tile>, labels: Seq<u32>, count: u32, cs0: Seq<Connector>, cs: Seq<Connector>)
    requires
        forall|i: int| 0 <= i < cs0.len() ==> connector_ok(g0, labels, count, #[trigger] cs0[i]),
        forall|i1: int, i2: int|
            0 <= i1 < i2 < cs0.len() ==> cell_index(g0.w() as int, (#[trigger] cs0[i1]).x as int, cs0[i1].y as int)
                < cell_index(g0.w() as int, (#[trigger] cs0[i2]).x as int, cs0[i2].y as int),
        forall|i: int| 0 <= i < cs0.len() ==> (#[trigger] cs0[i]).x < g0.w(),
        is_permutation_of(cs, cs0),
    ensures
        forall|i: int| 0 <= i < cs.len() ==> connector_ok(g0, labels, count, #[trigger] cs[i]),
        forall|i1: int, i2: int| 0 <= i1 < i2 < cs.len() ==> (#[trigger] cs[i1].x, cs[i1].y) != (#[trigger] cs[i2].x, cs[i2].y),
{
    let w = g0.w();
    let p = choose|p: Seq<int>|
        #![trigger p.len()]
        p.len() == cs.len() && (forall|k: int| 0 <= k < cs.len() ==> 0 <= #[trigger] p[k] < cs0.len() && cs[k]
            == cs0[p[k]]) && (forall|k1: int, k2: int| 0 <= k1 < k2 < cs.len() ==> #[trigger] p[k1] != #[trigger] p[k2]);
    assert forall|i: int| 0 <= i < cs.len() implies connector_ok(g0, labels, count, #[trigger] cs[i]) by {
        assert(cs[i] == cs0[p[i]]);
    }
    assert forall|i1: int, i2: int| 0 <= i1 < i2 < cs.len() implies (#[trigger] cs[i1].x, cs[i1].y) != (
        #[trigger] cs[i2].x,
        cs[i2].y,
    ) by {
        let a = p[i1];
        let b = p[i2];
        assert(cs[i1] == cs0[a] && cs[i2] == cs0[b]);
        if a < b {
            assert(cell_index(w as int, cs0[a].x as int, cs0[a].y as int) < cell_index(
                w as int,
                cs0[b].x as int,
                cs0[b].y as int,
            ));
        } else {
            assert(cell_index(w as int, cs0[b].x as int, cs0[b].y as int) < cell_index(
                w as int,
                cs0[a].x as int,
                cs0[a].y as int,
            ));
        }
    }
}

/// Floor cells `a` and `b` are both next to one connector.
pub open spec fn joins_through(g: &Grid<Tile>, a: (int, int), b: (int, int)) -> bool {
    exists|x: int, y: int| #[trigger] is_connector(g, x, y) && adjacent4((x, y), a) && adjacent4((x, y), b)
}

/// `s` is a chain of floor cells, each connected to the next or joined to
/// it through a connector.
pub open spec fn link_chain(g: &Grid<Tile>, s: Seq<(int, int)>) -> bool {
    &&& s.len() >= 1
    &&& forall|i: int| 0 <= i < s.len() ==> g.open_at(#[trigger] s[i])
    &&& forall|i: int|
        0 <= i < s.len() - 1 ==> g.connected(#[trigger] s[i], s[i + 1]) || joins_through(g, s[i], s[i + 1])
}

/// The floor regions form one graph when joined through connectors.
pub open spec fn regions_linked(g: &Grid<Tile>) -> bool {
    forall|p: (int, int), q: (int, int)|
        #![trigger g.open_at(p), g.open_at(q)]
        g.open_at(p) && g.open_at(q) ==> exists|s: Seq<(int, int)>| #[trigger] link_chain(g, s) && s[0] == p && s[s.len() - 1] == q
}

/// Along a chain, every cell's label shares the group of the first cell's.
proof fn lemma_chain_group(
    g0: &Grid<Tile>,
    labels: Seq<u32>,
    count: u32,
    cs0: Seq<Connector>,
    cs: Seq<Connector>,
    comp: Seq<u32>,
    s: Seq<(int, int)>,
    i: int,
)
    requires
        forall|p: (int, int), q: (int, int)|
            g0.open_at(p) && g0.open_at(q) ==> ((#[trigger] label_at(labels, g0.w() as int, p) == #[trigger] label_at(
                labels,
                g0.w() as int,
                q,
            )) == g0.connected(p, q)),
        forall|px: int, py: int|
            #[trigger] is_connector(g0, px, py) ==> exists|j: int| 0 <= j < cs0.len() && cs0[j].x == px && cs0[j].y == py,
        forall|m: int| 0 <= m < cs0.len() ==> cs.contains(#[trigger] cs0[m]),
        forall|j: int| 0 <= j < cs.len() ==> connector_ok(g0, labels, count, #[trigger] cs[j]),
        groups_cover(cs, comp, cs.len() as int),
        link_chain(g0, s),
        0 <= i < s.len(),
    ensures
        comp[label_at(labels, g0.w() as int, s[i]) - 1] == comp[label_at(labels, g0.w() as int, s[0]) - 1],
    decreases i,
{
    if i > 0 {
        lemma_chain_group(g0, labels, count, cs0, cs, comp, s, i - 1);
        let a = s[i - 1];
        let b = s[i];
        assert(g0.open_at(a) && g0.open_at(b));
        if !g0.connected(a, b) {
            assert(joins_through(g0, a, b));
            let (x, y) = choose|x: int, y: int| #[trigger] is_connector(g0, x, y) && adjacent4((x, y), a) && adjacent4((x, y), b);
            let j0 = choose|j: int| 0 <= j < cs0.len() && cs0[j].x == x && cs0[j].y == y;
            assert(cs.contains(cs0[j0]));
            let j = choose|j: int| 0 <= j < cs.len() && cs[j] == cs0[j0];
            let c = cs[j];
            assert(connector_ok(g0, labels, count, c));
            assert(c.labels@.contains(label_at(labels, g0.w() as int, a)));
            assert(c.labels@.contains(label_at(labels, g0.w() as int, b)));
            let ja = choose|t: int| 0 <= t < c.labels@.len() && c.labels@[t] == label_at(labels, g0.w() as int, a);
            let jb = choose|t: int| 0 <= t < c.labels@.len() && c.labels@[t] == label_at(labels, g0.w() as int, b);
            reveal(groups_cover);
            assert(comp[cs[j].labels@[ja] - 1] == comp[cs[j].labels@[0] - 1]);
            assert(comp[cs[j].labels@[jb] - 1] == comp[cs[j].labels@[0] - 1]);
        }
    }
}

/// When the regions are linked through connectors and the groups left by
/// the openings are one group or cover every connector, the floor of the
/// final grid is one region.
proof fn lemma_spanning(
    g0: &Grid<Tile>,
    g: &Grid<Tile>,
    labels: Seq<u32>,
    count: u32,
    cs0: Seq<Connector>,
    cs: Seq<Connector>,
    comp: Seq<u32>,
    made: Seq<(usize, usize)>,
)
    requires
        g0.wf(),
        g.wf(),
        g.w() == g0.w(),
        g.h() == g0.h(),
        forall|p: (int, int), q: (int, int)|
            g0.open_at(p) && g0.open_at(q) ==> ((#[trigger] label_at(labels, g0.w() as int, p) == #[trigger] label_at(
                labels,
                g0.w() as int,
                q,
            )) == g0.connected(p, q)),
        forall|p: (int, int)| #[trigger] g0.open_at(p) ==> 1 <= label_at(labels, g0.w() as int, p) <= count,
        forall|px: int, py: int|
            #[trigger] is_connector(g0, px, py) ==> exists|j: int| 0 <= j < cs0.len() && cs0[j].x == px && cs0[j].y == py,
        forall|m: int| 0 <= m < cs0.len() ==> cs.contains(#[trigger] cs0[m]),
        forall|j: int| 0 <= j < cs.len() ==> connector_ok(g0, labels, count, #[trigger] cs[j]),
        groups_ok(comp, count as int),
        groups_joined(g0, g, labels, comp),
        (forall|i: int| 0 <= i < count ==> #[trigger] comp[i] == comp[0]) || groups_cover(cs, comp, cs.len() as int),
        forall|m: int| 0 <= m < made.len() ==> is_connector(g0, (#[trigger] made[m]).0 as int, made[m].1 as int),
        forall|px: int, py: int|
            g0.contains(px, py) ==> #[trigger] g.at(px, py) == if holds_pos(made, (px, py)) {
                Tile::Floor
            } else {
                g0.at(px, py)
            },
        regions_linked(g0),
    ensures
        forall|p: (int, int), q: (int, int)| #[trigger] g.open_at(p) && #[trigger] g.open_at(q) ==> g.connected(p, q),
{
    let w = g0.w() as int;
    // Floor cells of `g0` all share one group, so they are connected in `g`.
    assert forall|p: (int, int), q: (int, int)| g0.open_at(p) && g0.open_at(q) implies #[trigger] g.connected(p, q) by {
        assert(1 <= label_at(labels, w, p) <= count && 1 <= label_at(labels, w, q) <= count);
        if !(forall|i: int| 0 <= i < count ==> #[trigger] comp[i] == comp[0]) {
            let s = choose|s: Seq<(int, int)>| #[trigger] link_chain(g0, s) && s[0] == p && s[s.len() - 1] == q;
            lemma_chain_group(g0, labels, count, cs0, cs, comp, s, s.len() - 1);
        }
        reveal(groups_joined);
        assert(comp[label_at(labels, w, p) - 1] == comp[label_at(labels, w, q) - 1]);
    }
    // Every floor cell of `g` is connected to a floor cell of `g0`.
    assert forall|p: (int, int)| #[trigger] g.open_at(p) implies exists|a: (int, int)|
        g0.open_at(a) && g.connected(a, p) by {
        if g0.open_at(p) {
            g.lemma_connected_refl(p);
            g0.lemma_connected_refl(p);
            assert(g.connected(p, p));
        } else {
            assert(g.at(p.0, p.1) == Tile::Floor);
            assert(holds_pos(made, p));
            let m = choose|m: int| 0 <= m < made.len() && pos(#[trigger] made[m]) == p;
            assert(is_connector(g0, p.0, p.1));
            let (a, b) = choose|a: (int, int), b: (int, int)|
                adjacent4((p.0, p.1), a) && adjacent4((p.0, p.1), b) && #[trigger] g0.open_at(a) && #[trigger] g0.open_at(b)
                    && !g0.connected(a, b);
            assert(g.connected(a, a));
            g.lemma_connected_step(a, a, p);
        }
    }
    assert forall|p: (int, int), q: (int, int)| #[trigger] g.open_at(p) && #[trigger] g.open_at(q) implies g.connected(p, q) by {
        let a = choose|a: (int, int)| g0.open_at(a) && g.connected(a, p);
        let b = choose|b: (int, int)| g0.open_at(b) && g.connected(b, q);
        assert(g.connected(a, b));
        g.lemma_connected_symmetric(a, p);
        g.lemma_connected_trans(p, a, b);
        g.lemma_connected_trans(p, b, q);
    }
}

/// There are at least `n` floor cells of `g0`, no two connected, when `n`
/// is at most the number of labels.
proof fn lemma_regions_apart(g0: &Grid<Tile>, labels: Seq<u32>, count: u32, n: int) -> (s: Seq<(int, int)>)
    requires
        0 <= n <= count,
        forall|p: (int, int), q: (int, int)|
            g0.open_at(p) && g0.open_at(q) ==> ((#[trigger] label_at(labels, g0.w() as int, p) == #[trigger] label_at(
                labels,
                g0.w() as int,
                q,
            )) == g0.connected(p, q)),
        forall|l: u32| 1 <= l <= count ==> #[trigger] has_label(g0, labels, l),
    ensures
        s.len() == n,
        forall|i: int| 0 <= i < n ==> g0.open_at(#[trigger] s[i]),
        forall|i: int, j: int| 0 <= i < j < n ==> !g0.connected(#[trigger] s[i], #[trigger] s[j]),
{
    let s = Seq::new(
        n as nat,
        |i: int| choose|p: (int, int)| #[trigger] g0.open_at(p) && label_at(labels, g0.w() as int, p) == (i + 1) as u32,
    );
    assert forall|i: int| 0 <= i < n implies g0.open_at(#[trigger] s[i]) && label_at(labels, g0.w() as int, s[i]) == (i
        + 1) as u32 by {
        assert(has_label(g0, labels, (i + 1) as u32));
    }
    assert forall|i: int, j: int| 0 <= i < j < n implies !g0.connected(#[trigger] s[i], #[trigger] s[j]) by {
        assert(label_at(labels, g0.w() as int, s[i]) == (i + 1) as u32);
        assert(label_at(labels, g0.w() as int, s[j]) == (j + 1) as u32);
    }
    s
}

/// `labels` numbers the floor regions of `g` from 1 to `count`, in the
/// order in which they first appear row by row, and is 0 off the floor.
#[verifier::opaque]
pub open spec fn labels_regions(g: &Grid<Tile>, labels: Seq<u32>, count: u32) -> bool {
    &&& labels.len() == g.cells().len()
    &&& forall|p: (int, int)| g.contains(p.0, p.1) ==> ((#[trigger] label_at(labels, g.w() as int, p) == 0) == !g.open_at(p))
    &&& forall|p: (int, int)| #[trigger] g.open_at(p) ==> 1 <= label_at(labels, g.w() as int, p) <= count
    &&& forall|p: (int, int), q: (int, int)|
        g.open_at(p) && g.open_at(q) ==> ((#[trigger] label_at(labels, g.w() as int, p) == #[trigger] label_at(
            labels,
            g.w() as int,
            q,
        )) == g.connected(p, q))
    &&& forall|l: u32| 1 <= l <= count ==> #[trigger] has_label(g, labels, l)
}

/// `cs` lists the connectors of `g`, each once and in row-major order, each
/// with the labels of the regions around it.
#[verifier::opaque]
pub open spec fn lists_connectors(g: &Grid<Tile>, labels: Seq<u32>, count: u32, cs: Seq<Connector>) -> bool {
    &&& forall|i: int| 0 <= i < cs.len() ==> connector_ok(g, labels, count, #[trigger] cs[i])
    &&& forall|i1: int, i2: int|
        0 <= i1 < i2 < cs.len() ==> cell_index(g.w() as int, (#[trigger] cs[i1]).x as int, cs[i1].y as int) < cell_index(
            g.w() as int,
            (#[trigger] cs[i2]).x as int,
            cs[i2].y as int,
        )
    &&& forall|px: int, py: int|
        #[trigger] is_connector(g, px, py) ==> exists|i: int| 0 <= i < cs.len() && cs[i].x == px && cs[i].y == py
}

/// What [`connect_regions_spanning`] draws on `g` from word position `pos`
/// of the stream of `seed`: the connectors `cs`, shuffled, go through
/// Kruskal's algorithm ([`kruskal_run`]), which opens `made` and leaves the
/// stream at `end`.
#[verifier::opaque]
pub open spec fn spanning_draws(
    g: &Grid<Tile>,
    cs: Seq<Connector>,
    count: u32,
    extra: u64,
    seed: u64,
    pos: u128,
    made: Seq<(usize, usize)>,
    end: u128,
) -> bool {
    let sh = shuffled(cs, seed, pos, cs.len());
    let st = kruskal_run(sh.0, count, extra, seed, sh.1, cs.len());
    &&& made == st.2
    &&& end == st.3
}

/// A floor of at most one region has no connectors.
proof fn lemma_no_connectors(g0: &Grid<Tile>, labels: Seq<u32>, count: u32)
    requires
        labels_regions(g0, labels, count),
        count <= 1,
    ensures
        lists_connectors(g0, labels, count, Seq::<Connector>::empty()),
{
    reveal(labels_regions);
    reveal(lists_connectors);
    assert forall|px: int, py: int| #[trigger] is_connector(g0, px, py) implies exists|i: int|
        0 <= i < Seq::<Connector>::empty().len() && Seq::<Connector>::empty()[i].x == px && Seq::<Connector>::empty()[i].y
            == py by {
        let (a, b) = choose|a: (int, int), b: (int, int)|
            adjacent4((px, py), a) && adjacent4((px, py), b) && #[trigger] g0.open_at(a) && #[trigger] g0.open_at(b)
                && !g0.connected(a, b);
        assert(label_at(labels, g0.w() as int, a) == label_at(labels, g0.w() as int, b));
    }
}

/// The connectors shuffled and run through Kruskal's algorithm are what
/// [`spanning_draws`] names.
proof fn lemma_spanning_draws(
    g: &Grid<Tile>,
    cs0: Seq<Connector>,
    cs: Seq<Connector>,
    count: u32,
    extra: u64,
    seed: u64,
    pos0: u128,
    pos1: u128,
    made: Seq<(usize, usize)>,
    end: u128,
)
    requires
        (cs, pos1) == shuffled(cs0, seed, pos0, cs0.len()),
        made == kruskal_run(cs, count, extra, seed, pos1, cs0.len()).2,
        end == kruskal_run(cs, count, extra, seed, pos1, cs0.len()).3,
    ensures
        spanning_draws(g, cs0, count, extra, seed, pos0, made, end),
{
    reveal(spanning_draws);
}

/// `g1` is what [`connect_regions_spanning`] makes of `g0` with extra
/// chance `extra` and a generator seeded with `seed`: the connectors are
/// shuffled and run through Kruskal's algorithm ([`spanning_draws`]), and
/// exactly the cells it opens become floor.
pub open spec fn spanning_result(g0: Grid<Tile>, g1: Grid<Tile>, extra: u64, seed: u64) -> bool {
    &&& g1.wf()
    &&& g1.w() == g0.w()
    &&& g1.h() == g0.h()
    &&& exists|cs: Seq<Connector>, labels: Seq<u32>, count: u32, made: Seq<(usize, usize)>, end: u128|
        #![trigger spanning_draws(&g0, cs, count, extra, seed, 0, made, end), lists_connectors(&g0, labels, count, cs)]
        {
            &&& labels_regions(&g0, labels, count)
            &&& lists_connectors(&g0, labels, count, cs)
            &&& spanning_draws(&g0, cs, count, extra, seed, 0, made, end)
            &&& forall|x: int, y: int|
                g0.contains(x, y) ==> #[trigger] g1.at(x, y) == if holds_pos(made, (x, y)) {
                    Tile::Floor
                } else {
                    g0.at(x, y)
                }
        }
}

/// Opens walls between floor regions along a spanning tree (Kruskal's
/// algorithm over the regions): collects the connectors (interior walls
/// next to floor of two regions), shuffles them with `rng`, then opens each
/// connector whose regions are not all joined yet and joins them, until one
/// fewer than the number of regions have been opened that way; any other
/// connector opens when a draw falls below `extra_chance` (see
/// [`Rng::chance_below`]). Returns the opened cells in opening order;
/// nothing happens when the floor forms at most one region. Whenever there
/// is a connector at least one opens; when the regions can be joined
/// through connectors the floor ends as one region, and with no extra
/// chance fewer connectors open than there are regions.
#[verifier::spinoff_prover]
#[verifier::rlimit(100)]
pub fn connect_regions_spanning(grid: &mut Grid<Tile>, extra_chance: u64, rng: &mut Rng) -> (r: Vec<(usize, usize)>)
    requires
        old(grid).wf(),
        old(grid).w() <= i32::MAX,
        old(grid).h() <= i32::MAX,
        old(grid).w() * old(grid).h() <= u32::MAX,
    ensures
        final(grid).wf(),
        final(grid).w() == old(grid).w(),
        final(grid).h() == old(grid).h(),
        forall|k: int| 0 <= k < r@.len() ==> is_connector(old(grid), (#[trigger] r@[k]).0 as int, r@[k].1 as int),
        forall|k1: int, k2: int| 0 <= k1 < k2 < r@.len() ==> #[trigger] r@[k1] != #[trigger] r@[k2],
        forall|x: int, y: int|
            old(grid).contains(x, y) ==> #[trigger] final(grid).at(x, y) == if holds_pos(r@, (x, y)) {
                Tile::Floor
            } else {
                old(grid).at(x, y)
            },
        (forall|p: (int, int), q: (int, int)| #[trigger] old(grid).open_at(p) && #[trigger] old(grid).open_at(q)
            ==> old(grid).connected(p, q)) ==> r@.len() == 0,
        (exists|x: int, y: int| is_connector(old(grid), x, y)) ==> r@.len() > 0,
        regions_linked(old(grid)) ==> forall|p: (int, int), q: (int, int)|
            #[trigger] final(grid).open_at(p) && #[trigger] final(grid).open_at(q) ==> final(grid).connected(p, q),
        final(rng).seed_of() == old(rng).seed_of(),
        exists|cs: Seq<Connector>, labels: Seq<u32>, count: u32|
            #![trigger lists_connectors(old(grid), labels, count, cs)]
            labels_regions(old(grid), labels, count) && lists_connectors(old(grid), labels, count, cs) && spanning_draws(
                old(grid),
                cs,
                count,
                extra_chance,
                old(rng).seed_of(),
                old(rng).pos_of(),
                r@,
                final(rng).pos_of(),
            ),
        extra_chance == 0 && r@.len() > 0 ==> exists|s: Seq<(int, int)>|
            #![trigger s.len()]
            s.len() == r@.len() + 1 && (forall|i: int| 0 <= i < s.len() ==> old(grid).open_at(#[trigger] s[i])) && (
            forall|i: int, j: int| 0 <= i < j < s.len() ==> !old(grid).connected(#[trigger] s[i], #[trigger] s[j])),
{
    let ghost g0 = *grid;
    let ghost seed0 = rng.seed_of();
    let ghost pos0 = rng.pos_of();
    let (labels, count) = label_regions(grid);
    proof {
        assert(labels_regions(&g0, labels@, count)) by {
            reveal(labels_regions);
        }
    }
    if count <= 1 {
        proof {
            if !(forall|p: (int, int), q: (int, int)| #[trigger] g0.open_at(p) && #[trigger] g0.open_at(q)
                ==> g0.connected(p, q)) {
            }
            assert forall|p: (int, int), q: (int, int)| #[trigger] g0.open_at(p) && #[trigger] g0.open_at(q) implies g0.connected(
                p,
                q,
            ) by {
                assert(label_at(labels@, g0.w() as int, p) == label_at(labels@, g0.w() as int, q));
            }
            if exists|x: int, y: int| is_connector(&g0, x, y) {
                let (x, y) = choose|x: int, y: int| is_connector(&g0, x, y);
                let (a, b) = choose|a: (int, int), b: (int, int)|
                    adjacent4((x, y), a) && adjacent4((x, y), b) && #[trigger] g0.open_at(a) && #[trigger] g0.open_at(b)
                        && !g0.connected(a, b);
                assert(label_at(labels@, g0.w() as int, a) == label_at(labels@, g0.w() as int, b));
            }
            lemma_no_connectors(&g0, labels@, count);
            lemma_kruskal_next(Seq::<Connector>::empty(), count, extra_chance, seed0, pos0, 0);
            lemma_spanning_draws(
                &g0,
                Seq::<Connector>::empty(),
                Seq::<Connector>::empty(),
                count,
                extra_chance,
                seed0,
                pos0,
                pos0,
                Seq::empty(),
                pos0,
            );
        }
        return Vec::new();
    }
    let w = grid.width();
    let h = grid.height();
    proof {
        assert(has_label(&g0, labels@, 1));
        assert(has_label(&g0, labels@, 2));
        let p = choose|p: (int, int)| #[trigger] g0.open_at(p) && label_at(labels@, g0.w() as int, p) == 1;
        let q = choose|q: (int, int)| #[trigger] g0.open_at(q) && label_at(labels@, g0.w() as int, q) == 2;
        assert(g0.contains(p.0, p.1));
        assert(!g0.connected(p, q));
    }
    proof {
        let p = choose|p: (int, int)| #[trigger] g0.open_at(p) && label_at(labels@, g0.w() as int, p) == 1;
        assert(g0.contains(p.0, p.1));
        assert(g0.h() >= 1);
    }
    let mut connectors = find_connectors(grid, &labels, count);
    let ghost cs0 = connectors@;
    proof {
        assert(lists_connectors(&g0, labels@, count, cs0)) by {
            reveal(lists_connectors);
        }
    }
    rng.shuffle(connectors.as_mut_slice());
    let ghost cs = connectors@;
    let ghost pos1 = rng.pos_of();
    proof {
        lemma_shuffled_connectors(&g0, labels@, count, cs0, cs);
    }
    let made = open_connectors(grid, &connectors, count, extra_chance, rng, Ghost(labels@));
    proof {
        lemma_spanning_draws(&g0, cs0, cs, count, extra_chance, seed0, pos0, pos1, made@, rng.pos_of());
        if exists|x: int, y: int| is_connector(&g0, x, y) {
            let (x, y) = choose|x: int, y: int| is_connector(&g0, x, y);
            let i = choose|i: int| 0 <= i < cs0.len() && cs0[i].x == x && cs0[i].y == y;
        }
        if regions_linked(&g0) {
            let comp = choose|comp: Seq<u32>|
                #![trigger groups_ok(comp, count as int)]
                groups_ok(comp, count as int) && groups_joined(&g0, grid, labels@, comp) && ((forall|i: int|
                    0 <= i < count ==> #[trigger] comp[i] == comp[0]) || groups_cover(cs, comp, cs.len() as int));
            lemma_spanning(&g0, grid, labels@, count, cs0, cs, comp, made@);
        }
        if extra_chance == 0 && made@.len() > 0 {
            let s = lemma_regions_apart(&g0, labels@, count, made@.len() as int + 1);
            assert(s.len() == made@.len() + 1);
        }
    }
    made
}

/// A vector of `n` `false` marks.
fn filled_marks(n: usize) -> (v: Vec<bool>)
    ensures
        v@.len() == n,
        forall|i: int| 0 <= i < n ==> !#[trigger] v@[i],
{
    let mut v: Vec<bool> = Vec::with_capacity(n);
    let mut i: usize = 0;
    while i < n
        invariant
            i <= n,
            v@.len() == i,
            forall|j: int| 0 <= j < i ==> !#[trigger] v@[j],
        decreases n - i,
    {
        v.push(false);
        i = i + 1;
    }
    v
}

} // verus!

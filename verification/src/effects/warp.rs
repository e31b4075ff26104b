//! Edge detection.

use crate::grid::{cell_index, holds_pos, pos, Cell, Grid, Tile};
use crate::effects::morphology::interior;
use vstd::prelude::*;

verus! {

/// An interior cell whose floor-ness differs from one of its 4-neighbours.
pub open spec fn is_edge(g: &Grid<Tile>, x: int, y: int) -> bool {
    let f = g.at(x, y) == Tile::Floor;
    &&& interior(g.w() as int, g.h() as int, x, y)
    &&& ((g.at(x - 1, y) == Tile::Floor) != f || (g.at(x + 1, y) == Tile::Floor) != f || (g.at(x, y - 1)
        == Tile::Floor) != f || (g.at(x, y + 1) == Tile::Floor) != f)
}

/// The edge cells (see [`is_edge`]) in row-major order.
pub fn edge_detect(grid: &Grid<Tile>) -> (r: Vec<(usize, usize)>)
    requires
        grid.wf(),
        1 <= grid.w(),
        1 <= grid.h(),
    ensures
        forall|k: int| 0 <= k < r@.len() ==> is_edge(grid, (#[trigger] r@[k]).0 as int, r@[k].1 as int),
        forall|x: int, y: int| #[trigger] is_edge(grid, x, y) ==> holds_pos(r@, (x, y)),
        forall|k1: int, k2: int|
            0 <= k1 < k2 < r@.len() ==> grid.index_at(#[trigger] r@[k1]) < grid.index_at(#[trigger] r@[k2]),
{
    let w = grid.width();
    let h = grid.height();
    let mut edges: Vec<(usize, usize)> = Vec::new();
    let mut y: usize = 1;
    while y < h - 1
        invariant
            1 <= y <= h - 1 || (h == 1 && y == 1),
            w == grid.w(),
            h == grid.h(),
            1 <= w,
            1 <= h,
            grid.wf(),
            forall|k: int| 0 <= k < edges@.len() ==> is_edge(grid, (#[trigger] edges@[k]).0 as int, edges@[k].1 as int),
            forall|k: int| 0 <= k < edges@.len() ==> (#[trigger] edges@[k]).1 < y,
            forall|px: int, py: int| py < y && #[trigger] is_edge(grid, px, py) ==> holds_pos(edges@, (px, py)),
            forall|k1: int, k2: int|
                0 <= k1 < k2 < edges@.len() ==> grid.index_at(#[trigger] edges@[k1]) < grid.index_at(#[trigger] edges@[k2]),
        decreases h - y,
    {
        let mut x: usize = 1;
        while x < w - 1
            invariant
                1 <= x <= w - 1 || (w == 1 && x == 1),
                1 <= y < h - 1,
                w == grid.w(),
                h == grid.h(),
                grid.wf(),
                forall|k: int| 0 <= k < edges@.len() ==> is_edge(grid, (#[trigger] edges@[k]).0 as int, edges@[k].1 as int),
                forall|k: int|
                    0 <= k < edges@.len() ==> (#[trigger] edges@[k]).1 < y || (edges@[k].1 == y && edges@[k].0 < x),
                forall|px: int, py: int|
                    (py < y || (py == y && px < x)) && #[trigger] is_edge(grid, px, py) ==> holds_pos(edges@, (px, py)),
                forall|k1: int, k2: int|
                    0 <= k1 < k2 < edges@.len() ==> grid.index_at(#[trigger] edges@[k1]) < grid.index_at(#[trigger] edges@[k2]),
            decreases w - x,
        {
            let is_floor = grid.cell(x, y).is_floor();
            let diff = grid.cell(x - 1, y).is_floor() != is_floor || grid.cell(x + 1, y).is_floor() != is_floor
                || grid.cell(x, y - 1).is_floor() != is_floor || grid.cell(x, y + 1).is_floor() != is_floor;
            if diff {
                let ghost e0 = edges@;
                edges.push((x, y));
                proof {
                    assert(pos(edges@[e0.len() as int]) == (x as int, y as int));
                    assert forall|px: int, py: int|
                        (py < y || (py == y && px < x + 1)) && #[trigger] is_edge(grid, px, py) implies holds_pos(
                        edges@,
                        (px, py),
                    ) by {
                        if !(py == y && px == x) {
                            let k = choose|k: int| 0 <= k < e0.len() && pos(#[trigger] e0[k]) == (px, py);
                            assert(edges@[k] == e0[k]);
                        }
                    }
                    assert forall|k1: int, k2: int| 0 <= k1 < k2 < edges@.len() implies grid.index_at(
                        #[trigger] edges@[k1],
                    ) < grid.index_at(#[trigger] edges@[k2]) by {
                        if k2 == e0.len() {
                            let e = edges@[k1];
                            assert(e == e0[k1]);
                            assert(e.1 < y || (e.1 == y && e.0 < x));
                            if e.1 < y {
                                assert(cell_index(w as int, e.0 as int, e.1 as int) < cell_index(
                                    w as int,
                                    x as int,
                                    y as int,
                                )) by (nonlinear_arith)
                                    requires
                                        e.0 < w,
                                        e.1 < y,
                                ;
                            }
                        }
                    }
                }
            } else {
                proof {
                    assert forall|px: int, py: int|
                        (py < y || (py == y && px < x + 1)) && #[trigger] is_edge(grid, px, py) implies holds_pos(
                        edges@,
                        (px, py),
                    ) by {
                    }
                }
            }
            x = x + 1;
        }
        y = y + 1;
    }
    edges
}

} // verus!

//! Smoothing filters: majority votes over square windows.

use crate::effects::morphology::{floor_at, floor_snapshot};
use crate::grid::{cell_index, lemma_cell_index_bounds, lemma_cell_index_injective, Grid, Tile};
use vstd::prelude::*;

verus! {

/// The coordinate sampled at offset `d` (`0 ..= 2r`) of a window of radius
/// `r` around `v`: `v + d - r`, or `0` where that would be negative.
pub open spec fn shifted(v: int, d: int, r: int) -> int {
    if v + d >= r {
        v + d - r
    } else {
        0
    }
}

/// Whether the sample at offsets `(dx, dy)` of the window of radius `r`
/// around `(x, y)` is an in-bounds floor cell.
pub open spec fn window_hit(s: Seq<Tile>, w: int, h: int, r: int, x: int, y: int, dx: int, dy: int) -> bool {
    let nx = shifted(x, dx, r);
    let ny = shifted(y, dy, r);
    nx < w && ny < h && floor_at(s, w, nx, ny)
}

/// Floor samples among offsets `(0, dy)` up to `(k - 1, dy)`.
pub open spec fn window_row(s: Seq<Tile>, w: int, h: int, r: int, x: int, y: int, dy: int, k: int) -> nat
    decreases k,
{
    if k <= 0 {
        0
    } else {
        window_row(s, w, h, r, x, y, dy, k - 1) + if window_hit(s, w, h, r, x, y, k - 1, dy) {
            1nat
        } else {
            0nat
        }
    }
}

/// Floor samples among the window rows `0` up to `k - 1`.
pub open spec fn window_rows(s: Seq<Tile>, w: int, h: int, r: int, x: int, y: int, k: int) -> nat
    decreases k,
{
    if k <= 0 {
        0
    } else {
        window_rows(s, w, h, r, x, y, k - 1) + window_row(s, w, h, r, x, y, k - 1, 2 * r + 1)
    }
}

/// Floor samples in the whole `(2r + 1)` by `(2r + 1)` window around `(x, y)`.
pub open spec fn window_count(s: Seq<Tile>, w: int, h: int, r: int, x: int, y: int) -> nat {
    window_rows(s, w, h, r, x, y, 2 * r + 1)
}

proof fn lemma_window_row_bound(s: Seq<Tile>, w: int, h: int, r: int, x: int, y: int, dy: int, k: int)
    requires
        k >= 0,
    ensures
        window_row(s, w, h, r, x, y, dy, k) <= k,
    decreases k,
{
    if k > 0 {
        lemma_window_row_bound(s, w, h, r, x, y, dy, k - 1);
    }
}

/// Counts the floor samples of the window of radius `r` around `(x, y)`.
fn window_sum(floors: &Vec<bool>, w: usize, h: usize, r: usize, x: usize, y: usize) -> (c: usize)
    requires
        floors@.len() == w * h,
        w * h <= usize::MAX,
        x < w,
        y < h,
        (2 * r + 1) * (2 * r + 1) <= usize::MAX,
    ensures
        c <= (2 * r + 1) * (2 * r + 1),
        forall|s: Seq<Tile>|
            s.len() == w * h && (forall|i: int| 0 <= i < s.len() ==> floors@[i] == (s[i] == Tile::Floor)) ==> c
                == window_count(s, w as int, h as int, r as int, x as int, y as int),
{
    assert(2 * r + 1 <= (2 * r + 1) * (2 * r + 1)) by (nonlinear_arith);
    let side = 2 * r + 1;
    let ghost wi = w as int;
    let ghost hi = h as int;
    let ghost ri = r as int;
    let mut c: usize = 0;
    let mut dy: usize = 0;
    assert(dy * side == 0) by (nonlinear_arith)
        requires
            dy == 0,
    ;
    while dy < side
        invariant
            wi == w,
            hi == h,
            ri == r,
            side == 2 * r + 1,
            side * side <= usize::MAX,
            dy <= side,
            floors@.len() == w * h,
            w * h <= usize::MAX,
            x < w,
            y < h,
            c <= dy * side,
            forall|s: Seq<Tile>|
                s.len() == w * h && (forall|i: int| 0 <= i < s.len() ==> floors@[i] == (s[i] == Tile::Floor)) ==> c
                    == window_rows(s, wi, hi, ri, x as int, y as int, dy as int),
        decreases side - dy,
    {
        assert(dy * side + side <= side * side) by (nonlinear_arith)
            requires
                dy < side,
        ;
        let ny: usize;
        let iny: bool;
        if dy >= r {
            let e = dy - r;
            if e < h - y {
                ny = y + e;
                iny = true;
            } else {
                ny = 0;
                iny = false;
            }
        } else {
            let e = r - dy;
            ny = if y >= e { y - e } else { 0 };
            iny = true;
        }
        let mut dx: usize = 0;
        let ghost c0 = c;
        while dx < side
            invariant
                wi == w,
                hi == h,
                ri == r,
                side == 2 * r + 1,
                dy < side,
                dx <= side,
                floors@.len() == w * h,
                w * h <= usize::MAX,
                x < w,
                y < h,
                c <= c0 + dx,
                c0 + side <= usize::MAX,
                iny ==> ny < h,
                iny == (shifted(y as int, dy as int, ri) < hi),
                iny ==> ny == shifted(y as int, dy as int, ri),
                forall|s: Seq<Tile>|
                    s.len() == w * h && (forall|i: int| 0 <= i < s.len() ==> floors@[i] == (s[i] == Tile::Floor))
                        ==> c == c0 + window_row(s, wi, hi, ri, x as int, y as int, dy as int, dx as int),
            decreases side - dx,
        {
            let nx: usize;
            let inx: bool;
            if dx >= r {
                let e = dx - r;
                if e < w - x {
                    nx = x + e;
                    inx = true;
                } else {
                    nx = 0;
                    inx = false;
                }
            } else {
                let e = r - dx;
                nx = if x >= e { x - e } else { 0 };
                inx = true;
            }
            let mut hit = false;
            if inx && iny {
                proof {
                    lemma_cell_index_bounds(wi, hi, nx as int, ny as int);
                }
                hit = floors[ny * w + nx];
            }
            proof {
                assert forall|s: Seq<Tile>|
                    s.len() == w * h && (forall|i: int| 0 <= i < s.len() ==> floors@[i] == (s[i] == Tile::Floor))
                        implies hit == window_hit(s, wi, hi, ri, x as int, y as int, dx as int, dy as int) by {
                    if inx && iny {
                        lemma_cell_index_bounds(wi, hi, nx as int, ny as int);
                    }
                }
            }
            if hit {
                c = c + 1;
            }
            dx = dx + 1;
        }
        assert((dy + 1) * side == dy * side + side) by (nonlinear_arith);
        dy = dy + 1;
    }
    assert(dy * side == side * side);
    c
}

/// The cell at `(x, y)` after [`gaussian_blur`] with radius `r`: an
/// interior cell becomes floor when at least half of its window's samples
/// are floor, and wall otherwise; border cells keep their value.
pub open spec fn blurred(s: Seq<Tile>, w: int, h: int, r: int, x: int, y: int) -> Tile {
    if 1 <= x < w - 1 && 1 <= y < h - 1 {
        if 2 * window_count(s, w, h, r, x, y) >= (2 * r + 1) * (2 * r + 1) {
            Tile::Floor
        } else {
            Tile::Wall
        }
    } else {
        s[cell_index(w, x, y)]
    }
}

/// The cell at `(x, y)` after [`median_filter`] with radius `r`: a cell
/// whose whole window lies inside the grid becomes floor when more than
/// half (rounded down) of the window's samples are floor, and wall
/// otherwise; other cells keep their value.
pub open spec fn median_cell(s: Seq<Tile>, w: int, h: int, r: int, x: int, y: int) -> Tile {
    if r <= x < w - r && r <= y < h - r {
        if window_count(s, w, h, r, x, y) > (2 * r + 1) * (2 * r + 1) / 2 {
            Tile::Floor
        } else {
            Tile::Wall
        }
    } else {
        s[cell_index(w, x, y)]
    }
}

/// Smooths the floor by a majority vote: every interior cell becomes floor
/// when at least half of the `(2 radius + 1)`-square window around it is
/// floor in the input grid (samples left of or above the grid repeat
/// its first column or row; samples right of or below it count as wall),
/// and wall otherwise.
pub fn gaussian_blur(grid: &mut Grid<Tile>, radius: usize)
    requires
        old(grid).wf(),
        old(grid).w() <= i32::MAX,
        old(grid).h() <= i32::MAX,
        old(grid).h() >= 2,
        old(grid).h() >= 3 ==> old(grid).w() >= 2,
        (2 * radius + 1) * (2 * radius + 1) <= usize::MAX,
    ensures
        final(grid).wf(),
        final(grid).w() == old(grid).w(),
        final(grid).h() == old(grid).h(),
        forall|x: int, y: int|
            old(grid).contains(x, y) ==> #[trigger] final(grid).at(x, y) == blurred(
                old(grid).cells(),
                old(grid).w() as int,
                old(grid).h() as int,
                radius as int,
                x,
                y,
            ),
{
    let ghost g0 = *grid;
    let ghost s = g0.cells();
    let w = grid.width();
    let h = grid.height();
    let floors = floor_snapshot(grid);
    assert(2 * radius + 1 <= (2 * radius + 1) * (2 * radius + 1)) by (nonlinear_arith);
    let side = 2 * radius + 1;
    let kernel = side * side;
    let mut y: usize = 1;
    while y + 1 < h
        invariant
            1 <= y <= h - 1,
            h >= 3 ==> w >= 2,
            w == g0.w(),
            h == g0.h(),
            w <= i32::MAX,
            h <= i32::MAX,
            g0.wf(),
            s == g0.cells(),
            side == 2 * radius + 1,
            kernel == side * side,
            floors@.len() == s.len(),
            forall|i: int| 0 <= i < s.len() ==> floors@[i] == (s[i] == Tile::Floor),
            grid.wf(),
            grid.w() == w,
            grid.h() == h,
            forall|px: int, py: int|
                g0.contains(px, py) ==> #[trigger] grid.at(px, py) == if 1 <= py < y {
                    blurred(s, w as int, h as int, radius as int, px, py)
                } else {
                    g0.at(px, py)
                },
        decreases h - y,
    {
        let mut x: usize = 1;
        while x + 1 < w
            invariant
                1 <= x <= w - 1,
                1 <= y,
                y + 1 < h,
                w == g0.w(),
                h == g0.h(),
                w <= i32::MAX,
                h <= i32::MAX,
                g0.wf(),
                s == g0.cells(),
                side == 2 * radius + 1,
                kernel == side * side,
                floors@.len() == s.len(),
                forall|i: int| 0 <= i < s.len() ==> floors@[i] == (s[i] == Tile::Floor),
                grid.wf(),
                grid.w() == w,
                grid.h() == h,
                forall|px: int, py: int|
                    g0.contains(px, py) ==> #[trigger] grid.at(px, py) == if 1 <= py < y || (py == y && 1 <= px
                        < x) {
                        blurred(s, w as int, h as int, radius as int, px, py)
                    } else {
                        g0.at(px, py)
                    },
            decreases w - x,
        {
            let count = window_sum(&floors, w, h, radius, x, y);
            let cell = if count >= kernel - count {
                Tile::Floor
            } else {
                Tile::Wall
            };
            grid.set(x as i32, y as i32, cell);
            x = x + 1;
        }
        proof {
            assert forall|px: int, py: int| g0.contains(px, py) implies #[trigger] grid.at(px, py) == if 1 <= py
                < y + 1 {
                blurred(s, w as int, h as int, radius as int, px, py)
            } else {
                g0.at(px, py)
            } by {
                if py == y && (px == 0 || px == w - 1) {
                    assert(blurred(s, w as int, h as int, radius as int, px, py) == g0.at(px, py));
                }
            }
        }
        y = y + 1;
    }
    proof {
        assert forall|px: int, py: int| g0.contains(px, py) implies #[trigger] grid.at(px, py) == blurred(
            s,
            w as int,
            h as int,
            radius as int,
            px,
            py,
        ) by {
            if py == 0 || py >= y {
                assert(blurred(s, w as int, h as int, radius as int, px, py) == g0.at(px, py));
            }
        }
    }
}

/// Majority filter: every cell whose `(2 radius + 1)`-square window lies
/// inside the grid becomes floor when more than half (rounded down) of the
/// window is floor in the input grid, and wall otherwise.
pub fn median_filter(grid: &mut Grid<Tile>, radius: usize)
    requires
        old(grid).wf(),
        old(grid).w() <= i32::MAX,
        old(grid).h() <= i32::MAX,
        radius <= old(grid).h(),
        old(grid).h() > 2 * radius ==> radius <= old(grid).w(),
        (2 * radius + 1) * (2 * radius + 1) <= usize::MAX,
    ensures
        final(grid).wf(),
        final(grid).w() == old(grid).w(),
        final(grid).h() == old(grid).h(),
        forall|x: int, y: int|
            old(grid).contains(x, y) ==> #[trigger] final(grid).at(x, y) == median_cell(
                old(grid).cells(),
                old(grid).w() as int,
                old(grid).h() as int,
                radius as int,
                x,
                y,
            ),
{
    let ghost g0 = *grid;
    let ghost s = g0.cells();
    let w = grid.width();
    let h = grid.height();
    let floors = floor_snapshot(grid);
    assert(2 * radius + 1 <= (2 * radius + 1) * (2 * radius + 1)) by (nonlinear_arith);
    let side = 2 * radius + 1;
    let threshold = side * side / 2;
    let mut y: usize = radius;
    while y < h - radius
        invariant
            radius <= y,
            y <= h - radius || y == radius,
            radius <= h,
            h > 2 * radius ==> radius <= w,
            w == g0.w(),
            h == g0.h(),
            w <= i32::MAX,
            h <= i32::MAX,
            g0.wf(),
            s == g0.cells(),
            side == 2 * radius + 1,
            threshold == side * side / 2,
            side * side <= usize::MAX,
            floors@.len() == s.len(),
            forall|i: int| 0 <= i < s.len() ==> floors@[i] == (s[i] == Tile::Floor),
            grid.wf(),
            grid.w() == w,
            grid.h() == h,
            forall|px: int, py: int|
                g0.contains(px, py) ==> #[trigger] grid.at(px, py) == if radius <= py < y {
                    median_cell(s, w as int, h as int, radius as int, px, py)
                } else {
                    g0.at(px, py)
                },
        decreases h - y,
    {
        let mut x: usize = radius;
        while x < w - radius
            invariant
                radius <= x,
                x <= w - radius || x == radius,
                radius <= y < h - radius,
                radius <= w,
                w == g0.w(),
                h == g0.h(),
                w <= i32::MAX,
                h <= i32::MAX,
                g0.wf(),
                s == g0.cells(),
                side == 2 * radius + 1,
                threshold == side * side / 2,
                side * side <= usize::MAX,
                floors@.len() == s.len(),
                forall|i: int| 0 <= i < s.len() ==> floors@[i] == (s[i] == Tile::Floor),
                grid.wf(),
                grid.w() == w,
                grid.h() == h,
                forall|px: int, py: int|
                    g0.contains(px, py) ==> #[trigger] grid.at(px, py) == if radius <= py < y || (py == y && radius
                        <= px < x) {
                        median_cell(s, w as int, h as int, radius as int, px, py)
                    } else {
                        g0.at(px, py)
                    },
            decreases w - x,
        {
            let count = window_sum(&floors, w, h, radius, x, y);
            let cell = if count > threshold {
                Tile::Floor
            } else {
                Tile::Wall
            };
            grid.set(x as i32, y as i32, cell);
            x = x + 1;
        }
        proof {
            assert forall|px: int, py: int| g0.contains(px, py) implies #[trigger] grid.at(px, py) == if radius
                <= py < y + 1 {
                median_cell(s, w as int, h as int, radius as int, px, py)
            } else {
                g0.at(px, py)
            } by {
                if py == y && !(radius <= px < w - radius) {
                    assert(median_cell(s, w as int, h as int, radius as int, px, py) == g0.at(px, py));
                }
            }
        }
        y = y + 1;
    }
    proof {
        assert forall|px: int, py: int| g0.contains(px, py) implies #[trigger] grid.at(px, py) == median_cell(
            s,
            w as int,
            h as int,
            radius as int,
            px,
            py,
        ) by {
            if !(radius <= py < y) {
                assert(median_cell(s, w as int, h as int, radius as int, px, py) == g0.at(px, py));
            }
        }
    }
}

} // verus!

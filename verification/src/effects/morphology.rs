//! Morphological operations on floor tiles.

use crate::effects::transform::flip;
use crate::grid::{cell_index, lemma_cell_index_bounds, lemma_cell_index_decompose, Cell, Grid, Tile};
use vstd::prelude::*;

verus! {

/// Whether the cell at `(x, y)` of row-major cells `s` (`w` wide) is floor.
pub open spec fn floor_at(s: Seq<Tile>, w: int, x: int, y: int) -> bool {
    s[cell_index(w, x, y)] == Tile::Floor
}

/// `(x, y)` lies at least one cell inside every edge of a `w` by `h` grid.
pub open spec fn interior(w: int, h: int, x: int, y: int) -> bool {
    1 <= x < w - 1 && 1 <= y < h - 1
}

/// The cell at `(x, y)` after one pass: erosion turns an interior floor
/// cell with a wall 4-neighbour into wall; dilation turns an interior wall
/// cell with a floor 4-neighbour into floor.
pub open spec fn morph_cell(s: Seq<Tile>, w: int, h: int, erode: bool, x: int, y: int) -> Tile {
    let here = floor_at(s, w, x, y);
    let any_wall = !floor_at(s, w, x - 1, y) || !floor_at(s, w, x + 1, y) || !floor_at(s, w, x, y - 1)
        || !floor_at(s, w, x, y + 1);
    let any_floor = floor_at(s, w, x - 1, y) || floor_at(s, w, x + 1, y) || floor_at(s, w, x, y - 1)
        || floor_at(s, w, x, y + 1);
    if interior(w, h, x, y) && erode && here && any_wall {
        Tile::Wall
    } else if interior(w, h, x, y) && !erode && !here && any_floor {
        Tile::Floor
    } else {
        s[cell_index(w, x, y)]
    }
}

/// One erosion (`erode`) or dilation pass over all cells.
pub open spec fn morph_once(s: Seq<Tile>, w: int, h: int, erode: bool) -> Seq<Tile> {
    Seq::new(s.len(), |i: int| morph_cell(s, w, h, erode, i % w, i / w))
}

/// `n` passes.
pub open spec fn morph_n(s: Seq<Tile>, w: int, h: int, erode: bool, n: nat) -> Seq<Tile>
    decreases n,
{
    if n == 0 {
        s
    } else {
        morph_once(morph_n(s, w, h, erode, (n - 1) as nat), w, h, erode)
    }
}

/// Floor flags of all cells, row by row.
pub(crate) fn floor_snapshot(grid: &Grid<Tile>) -> (r: Vec<bool>)
    requires
        grid.wf(),
    ensures
        r@.len() == grid.cells().len(),
        forall|i: int| 0 <= i < r@.len() ==> r@[i] == (grid.cells()[i] == Tile::Floor),
{
    let cells = grid.iter();
    let mut r: Vec<bool> = Vec::with_capacity(cells.len());
    let mut i: usize = 0;
    while i < cells.len()
        invariant
            i <= cells@.len(),
            cells@.len() == grid.cells().len(),
            forall|j: int| 0 <= j < cells@.len() ==> (#[trigger] cells@[j]).2 == grid.cells()[j],
            r@.len() == i,
            forall|j: int| 0 <= j < i ==> r@[j] == (grid.cells()[j] == Tile::Floor),
        decreases cells@.len() - i,
    {
        r.push(cells[i].2.is_floor());
        i = i + 1;
    }
    r
}

/// One pass of erosion or dilation.
fn morph_pass(grid: &mut Grid<Tile>, erode: bool)
    requires
        old(grid).wf(),
        1 <= old(grid).w() <= i32::MAX,
        1 <= old(grid).h() <= i32::MAX,
    ensures
        final(grid).wf(),
        final(grid).w() == old(grid).w(),
        final(grid).h() == old(grid).h(),
        final(grid).cells() == morph_once(old(grid).cells(), old(grid).w() as int, old(grid).h() as int, erode),
{
    let ghost g0 = *grid;
    let ghost s = g0.cells();
    let w = grid.width();
    let h = grid.height();
    let snapshot = floor_snapshot(grid);
    let mut y: usize = 1;
    while y < h - 1
        invariant
            1 <= y <= h - 1 || (h == 1 && y == 1),
            w == g0.w(),
            h == g0.h(),
            1 <= w <= i32::MAX,
            1 <= h <= i32::MAX,
            g0.wf(),
            s == g0.cells(),
            snapshot@.len() == s.len(),
            forall|i: int| 0 <= i < snapshot@.len() ==> snapshot@[i] == (s[i] == Tile::Floor),
            grid.wf(),
            grid.w() == w,
            grid.h() == h,
            forall|px: int, py: int|
                g0.contains(px, py) ==> #[trigger] grid.at(px, py) == if py < y {
                    morph_cell(s, w as int, h as int, erode, px, py)
                } else {
                    g0.at(px, py)
                },
        decreases h - y,
    {
        let mut x: usize = 1;
        while x < w - 1
            invariant
                1 <= x <= w - 1 || (w == 1 && x == 1),
                1 <= y < h - 1,
                w == g0.w(),
                h == g0.h(),
                1 <= w <= i32::MAX,
                1 <= h <= i32::MAX,
                g0.wf(),
                s == g0.cells(),
                snapshot@.len() == s.len(),
                forall|i: int| 0 <= i < snapshot@.len() ==> snapshot@[i] == (s[i] == Tile::Floor),
                grid.wf(),
                grid.w() == w,
                grid.h() == h,
                forall|px: int, py: int|
                    g0.contains(px, py) ==> #[trigger] grid.at(px, py) == if py < y || (py == y && 1 <= px
                        < x) {
                        morph_cell(s, w as int, h as int, erode, px, py)
                    } else {
                        g0.at(px, py)
                    },
            decreases w - x,
        {
            proof {
                lemma_cell_index_bounds(w as int, h as int, x as int, y as int);
                lemma_cell_index_bounds(w as int, h as int, x - 1, y as int);
                lemma_cell_index_bounds(w as int, h as int, x + 1, y as int);
                lemma_cell_index_bounds(w as int, h as int, x as int, y - 1);
                lemma_cell_index_bounds(w as int, h as int, x as int, y + 1);
                assert(cell_index(w as int, x as int, y as int) - w == cell_index(w as int, x as int, y - 1)) by (nonlinear_arith);
                assert(cell_index(w as int, x as int, y as int) + w == cell_index(w as int, x as int, y + 1)) by (nonlinear_arith);
            }
            let idx = y * w + x;
            if erode {
                if snapshot[idx] {
                    let has_wall = !snapshot[idx - 1] || !snapshot[idx + 1] || !snapshot[idx - w] || !snapshot[idx
                        + w];
                    if has_wall {
                        grid.set(x as i32, y as i32, Tile::Wall);
                    }
                }
            } else {
                if !snapshot[idx] {
                    let has_floor = snapshot[idx - 1] || snapshot[idx + 1] || snapshot[idx - w] || snapshot[idx
                        + w];
                    if has_floor {
                        grid.set(x as i32, y as i32, Tile::Floor);
                    }
                }
            }
            x = x + 1;
        }
        proof {
            assert forall|px: int, py: int| g0.contains(px, py) implies #[trigger] grid.at(px, py) == if py < y
                + 1 {
                morph_cell(s, w as int, h as int, erode, px, py)
            } else {
                g0.at(px, py)
            } by {
                if py == y && (px == 0 || px == w - 1) {
                    assert(!interior(w as int, h as int, px, py));
                }
            }
        }
        y = y + 1;
    }
    proof {
        assert forall|px: int, py: int| g0.contains(px, py) implies #[trigger] grid.at(px, py) == morph_cell(
            s,
            w as int,
            h as int,
            erode,
            px,
            py,
        ) by {
            if py >= y {
                assert(!interior(w as int, h as int, px, py));
            }
        }
        let t = morph_once(s, w as int, h as int, erode);
        assert forall|i: int| 0 <= i < s.len() implies grid.cells()[i] == t[i] by {
            lemma_cell_index_decompose(w as int, h as int, i);
            assert(grid.at(i % (w as int), i / (w as int)) == grid.cells()[i]);
        }
        assert(grid.cells() =~= t);
    }
}

/// Erodes floor tiles `iterations` times: each pass turns every interior
/// floor cell with a wall 4-neighbour into wall.
pub fn erode(grid: &mut Grid<Tile>, iterations: usize)
    requires
        old(grid).wf(),
        old(grid).w() <= i32::MAX,
        old(grid).h() <= i32::MAX,
        iterations > 0 ==> old(grid).w() >= 1 && old(grid).h() >= 1,
    ensures
        final(grid).wf(),
        final(grid).w() == old(grid).w(),
        final(grid).h() == old(grid).h(),
        final(grid).cells() == morph_n(
            old(grid).cells(),
            old(grid).w() as int,
            old(grid).h() as int,
            true,
            iterations as nat,
        ),
{
    repeat_pass(grid, iterations, true);
}

/// Dilates floor tiles `iterations` times: each pass turns every interior
/// wall cell with a floor 4-neighbour into floor.
pub fn dilate(grid: &mut Grid<Tile>, iterations: usize)
    requires
        old(grid).wf(),
        old(grid).w() <= i32::MAX,
        old(grid).h() <= i32::MAX,
        iterations > 0 ==> old(grid).w() >= 1 && old(grid).h() >= 1,
    ensures
        final(grid).wf(),
        final(grid).w() == old(grid).w(),
        final(grid).h() == old(grid).h(),
        final(grid).cells() == morph_n(
            old(grid).cells(),
            old(grid).w() as int,
            old(grid).h() as int,
            false,
            iterations as nat,
        ),
{
    repeat_pass(grid, iterations, false);
}

fn repeat_pass(grid: &mut Grid<Tile>, iterations: usize, erode: bool)
    requires
        old(grid).wf(),
        old(grid).w() <= i32::MAX,
        old(grid).h() <= i32::MAX,
        iterations > 0 ==> old(grid).w() >= 1 && old(grid).h() >= 1,
    ensures
        final(grid).wf(),
        final(grid).w() == old(grid).w(),
        final(grid).h() == old(grid).h(),
        final(grid).cells() == morph_n(
            old(grid).cells(),
            old(grid).w() as int,
            old(grid).h() as int,
            erode,
            iterations as nat,
        ),
{
    let ghost g0 = *grid;
    let mut k: usize = 0;
    while k < iterations
        invariant
            k <= iterations,
            iterations > 0 ==> g0.w() >= 1 && g0.h() >= 1,
            g0.w() <= i32::MAX,
            g0.h() <= i32::MAX,
            grid.wf(),
            grid.w() == g0.w(),
            grid.h() == g0.h(),
            grid.cells() == morph_n(g0.cells(), g0.w() as int, g0.h() as int, erode, k as nat),
        decreases iterations - k,
    {
        morph_pass(grid, erode);
        k = k + 1;
    }
}

/// Morphological opening: erosion then dilation, `iterations` passes each.
pub fn open(grid: &mut Grid<Tile>, iterations: usize)
    requires
        old(grid).wf(),
        old(grid).w() <= i32::MAX,
        old(grid).h() <= i32::MAX,
        iterations > 0 ==> old(grid).w() >= 1 && old(grid).h() >= 1,
    ensures
        final(grid).wf(),
        final(grid).w() == old(grid).w(),
        final(grid).h() == old(grid).h(),
        final(grid).cells() == morph_n(
            morph_n(old(grid).cells(), old(grid).w() as int, old(grid).h() as int, true, iterations as nat),
            old(grid).w() as int,
            old(grid).h() as int,
            false,
            iterations as nat,
        ),
{
    erode(grid, iterations);
    dilate(grid, iterations);
}

/// Morphological closing: dilation then erosion, `iterations` passes each.
pub fn close(grid: &mut Grid<Tile>, iterations: usize)
    requires
        old(grid).wf(),
        old(grid).w() <= i32::MAX,
        old(grid).h() <= i32::MAX,
        iterations > 0 ==> old(grid).w() >= 1 && old(grid).h() >= 1,
    ensures
        final(grid).wf(),
        final(grid).w() == old(grid).w(),
        final(grid).h() == old(grid).h(),
        final(grid).cells() == morph_n(
            morph_n(old(grid).cells(), old(grid).w() as int, old(grid).h() as int, false, iterations as nat),
            old(grid).w() as int,
            old(grid).h() as int,
            true,
            iterations as nat,
        ),
{
    dilate(grid, iterations);
    erode(grid, iterations);
}

/// Repeated erosion only ever turns floor into wall, and repeated dilation
/// only wall into floor: after `n` erosion passes every floor cell was floor
/// before, and after `n` dilation passes every cell that was floor still is.
pub proof fn law_erode_shrinks_dilate_grows(s: Seq<Tile>, w: int, h: int, n: nat)
    requires
        0 < w,
        s.len() == w * h,
    ensures
        morph_n(s, w, h, true, n).len() == s.len(),
        morph_n(s, w, h, false, n).len() == s.len(),
        forall|i: int| 0 <= i < s.len() && #[trigger] morph_n(s, w, h, true, n)[i] == Tile::Floor ==> s[i] == Tile::Floor,
        forall|i: int| 0 <= i < s.len() && s[i] == Tile::Floor ==> #[trigger] morph_n(s, w, h, false, n)[i] == Tile::Floor,
    decreases n,
{
    if n > 0 {
        law_erode_shrinks_dilate_grows(s, w, h, (n - 1) as nat);
        let e = morph_n(s, w, h, true, (n - 1) as nat);
        let d = morph_n(s, w, h, false, (n - 1) as nat);
        assert forall|i: int| 0 <= i < s.len() && #[trigger] morph_n(s, w, h, true, n)[i] == Tile::Floor implies s[i]
            == Tile::Floor by {
            lemma_cell_index_decompose(w, h, i);
            assert(morph_n(s, w, h, true, n)[i] == morph_cell(e, w, h, true, i % w, i / w));
        }
        assert forall|i: int| 0 <= i < s.len() && s[i] == Tile::Floor implies #[trigger] morph_n(s, w, h, false, n)[i]
            == Tile::Floor by {
            lemma_cell_index_decompose(w, h, i);
            assert(morph_n(s, w, h, false, n)[i] == morph_cell(d, w, h, false, i % w, i / w));
        }
    }
}

/// Every cell of `s` flipped between wall and floor.
pub open spec fn flipped(s: Seq<Tile>) -> Seq<Tile> {
    s.map_values(|t: Tile| flip(t))
}

/// One dilation pass is one erosion pass of the flipped cells, flipped back.
proof fn lemma_dual_once(s: Seq<Tile>, w: int, h: int)
    requires
        0 < w,
        s.len() == w * h,
    ensures
        morph_once(s, w, h, false) == flipped(morph_once(flipped(s), w, h, true)),
{
    let fs = flipped(s);
    let a = morph_once(s, w, h, false);
    let b = flipped(morph_once(fs, w, h, true));
    assert forall|i: int| 0 <= i < s.len() implies a[i] == b[i] by {
        lemma_cell_index_decompose(w, h, i);
        let x = i % w;
        let y = i / w;
        if interior(w, h, x, y) {
            lemma_cell_index_bounds(w, h, x - 1, y);
            lemma_cell_index_bounds(w, h, x + 1, y);
            lemma_cell_index_bounds(w, h, x, y - 1);
            lemma_cell_index_bounds(w, h, x, y + 1);
        }
        assert(a[i] == morph_cell(s, w, h, false, x, y));
        assert(b[i] == flip(morph_cell(fs, w, h, true, x, y)));
    }
    assert(a =~= b);
}

/// Dilation is erosion of the inverted grid, inverted back: `n` dilation
/// passes over the cells `s` of a `w` by `h` grid give the flipped result of
/// `n` erosion passes over the flipped cells.
pub proof fn law_dilate_is_inverted_erode(s: Seq<Tile>, w: int, h: int, n: nat)
    requires
        0 < w,
        s.len() == w * h,
    ensures
        morph_n(s, w, h, false, n) == flipped(morph_n(flipped(s), w, h, true, n)),
    decreases n,
{
    if n == 0 {
        assert(flipped(flipped(s)) =~= s);
    } else {
        let m = (n - 1) as nat;
        law_dilate_is_inverted_erode(s, w, h, m);
        law_erode_shrinks_dilate_grows(s, w, h, m);
        law_erode_shrinks_dilate_grows(flipped(s), w, h, m);
        let d = morph_n(s, w, h, false, m);
        let e = morph_n(flipped(s), w, h, true, m);
        assert(flipped(d) =~= e);
        lemma_dual_once(d, w, h);
    }
}

/// Dilating a grid gives what inverting it, eroding the result as many
/// times and inverting again gives: `g1` is `g0` dilated `n` times, `g2` is
/// `g0` inverted, `g3` is `g2` eroded `n` times and `g4` is `g3` inverted.
pub proof fn law_dilate_is_invert_erode_invert(
    g0: &Grid<Tile>,
    g1: &Grid<Tile>,
    g2: &Grid<Tile>,
    g3: &Grid<Tile>,
    g4: &Grid<Tile>,
    n: nat,
)
    requires
        g0.wf(),
        g0.w() >= 1,
        g1.w() == g0.w() && g1.h() == g0.h(),
        g1.cells() == morph_n(g0.cells(), g0.w() as int, g0.h() as int, false, n),
        g2.wf() && g2.w() == g0.w() && g2.h() == g0.h(),
        forall|x: int, y: int| g0.contains(x, y) ==> #[trigger] g2.at(x, y) == flip(g0.at(x, y)),
        g3.w() == g2.w() && g3.h() == g2.h(),
        g3.cells() == morph_n(g2.cells(), g2.w() as int, g2.h() as int, true, n),
        g4.w() == g3.w() && g4.h() == g3.h(),
        forall|x: int, y: int| g3.contains(x, y) ==> #[trigger] g4.at(x, y) == flip(g3.at(x, y)),
    ensures
        g4.same_as(g1),
{
    let w = g0.w() as int;
    let h = g0.h() as int;
    let s = g0.cells();
    assert(g2.cells() =~= flipped(s)) by {
        assert forall|i: int| 0 <= i < s.len() implies g2.cells()[i] == flipped(s)[i] by {
            lemma_cell_index_decompose(w, h, i);
            assert(g2.at(i % w, i / w) == flip(g0.at(i % w, i / w)));
        }
    }
    law_dilate_is_inverted_erode(s, w, h, n);
    law_erode_shrinks_dilate_grows(flipped(s), w, h, n);
    assert forall|x: int, y: int| g4.contains(x, y) implies #[trigger] g4.at(x, y) == g1.at(x, y) by {
        lemma_cell_index_bounds(w, h, x, y);
        assert(g4.at(x, y) == flip(g3.at(x, y)));
    }
}

} // verus!

//! Transformation effects.

use crate::grid::{Cell, Grid, Tile};
use crate::rng::{below, u64_draw, u64_pos, Rng, CHANCE_ONE};
use crate::structures::cellular::inner_index;
use vstd::prelude::*;

verus! {

/// Copies the right half onto the left half (`horizontal`), then the bottom
/// half onto the top half (`vertical`).
pub fn mirror(grid: &mut Grid<Tile>, horizontal: bool, vertical: bool)
    requires
        old(grid).wf(),
        old(grid).w() <= i32::MAX,
        old(grid).h() <= i32::MAX,
    ensures
        final(grid).wf(),
        final(grid).w() == old(grid).w(),
        final(grid).h() == old(grid).h(),
        forall|x: int, y: int|
            old(grid).contains(x, y) ==> #[trigger] final(grid).at(x, y) == old(grid).at(
                mirror_x(horizontal, old(grid).w() as int, x),
                mirror_y(vertical, old(grid).h() as int, y),
            ),
{
    let ghost g0 = *grid;
    let w = grid.width();
    let h = grid.height();
    if horizontal {
        let mut y: usize = 0;
        while y < h
            invariant
                y <= h,
                w == g0.w(),
                h == g0.h(),
                w <= i32::MAX,
                h <= i32::MAX,
                grid.wf(),
                grid.w() == w,
                grid.h() == h,
                forall|px: int, py: int|
                    g0.contains(px, py) ==> #[trigger] grid.at(px, py) == if py < y {
                        g0.at(mirror_x(true, w as int, px), py)
                    } else {
                        g0.at(px, py)
                    },
            decreases h - y,
        {
            let mut x: usize = 0;
            while x < w / 2
                invariant
                    x <= w / 2,
                    y < h,
                    w == g0.w(),
                    h == g0.h(),
                    w <= i32::MAX,
                    h <= i32::MAX,
                    grid.wf(),
                    grid.w() == w,
                    grid.h() == h,
                    forall|px: int, py: int|
                        g0.contains(px, py) ==> #[trigger] grid.at(px, py) == if py < y || (py == y && px < x) {
                            g0.at(mirror_x(true, w as int, px), py)
                        } else {
                            g0.at(px, py)
                        },
                decreases w / 2 - x,
            {
                let cell = grid.cell(w - 1 - x, y);
                grid.set(x as i32, y as i32, cell);
                x = x + 1;
            }
            y = y + 1;
        }
    }
    let ghost g1 = *grid;
    if vertical {
        let mut y: usize = 0;
        while y < h / 2
            invariant
                y <= h / 2,
                w == g1.w(),
                h == g1.h(),
                w <= i32::MAX,
                h <= i32::MAX,
                grid.wf(),
                grid.w() == w,
                grid.h() == h,
                forall|px: int, py: int|
                    g1.contains(px, py) ==> #[trigger] grid.at(px, py) == if py < y {
                        g1.at(px, h - 1 - py)
                    } else {
                        g1.at(px, py)
                    },
            decreases h / 2 - y,
        {
            let mut x: usize = 0;
            while x < w
                invariant
                    x <= w,
                    y < h / 2,
                    w == g1.w(),
                    h == g1.h(),
                    w <= i32::MAX,
                    h <= i32::MAX,
                    grid.wf(),
                    grid.w() == w,
                    grid.h() == h,
                    forall|px: int, py: int|
                        g1.contains(px, py) ==> #[trigger] grid.at(px, py) == if py < y || (py == y && px < x) {
                            g1.at(px, h - 1 - py)
                        } else {
                            g1.at(px, py)
                        },
                decreases w - x,
            {
                let cell = grid.cell(x, h - 1 - y);
                grid.set(x as i32, y as i32, cell);
                x = x + 1;
            }
            y = y + 1;
        }
    }
    proof {
        assert forall|x: int, y: int| g0.contains(x, y) implies #[trigger] grid.at(x, y) == g0.at(
            mirror_x(horizontal, w as int, x),
            mirror_y(vertical, h as int, y),
        ) by {
            let my = mirror_y(vertical, h as int, y);
            assert(g1.at(x, my) == g0.at(mirror_x(horizontal, w as int, x), my));
        }
    }
}

/// Column read by the horizontal mirror for column `x`.
pub open spec fn mirror_x(horizontal: bool, w: int, x: int) -> int {
    if horizontal && x < w / 2 {
        w - 1 - x
    } else {
        x
    }
}

/// Row read by the vertical mirror for row `y`.
pub open spec fn mirror_y(vertical: bool, h: int, y: int) -> int {
    if vertical && y < h / 2 {
        h - 1 - y
    } else {
        y
    }
}

/// Flips every cell between wall and floor.
pub fn invert(grid: &mut Grid<Tile>)
    requires
        old(grid).wf(),
        old(grid).w() <= i32::MAX,
        old(grid).h() <= i32::MAX,
    ensures
        final(grid).wf(),
        final(grid).w() == old(grid).w(),
        final(grid).h() == old(grid).h(),
        forall|x: int, y: int|
            old(grid).contains(x, y) ==> #[trigger] final(grid).at(x, y) == flip(old(grid).at(x, y)),
{
    let ghost g0 = *grid;
    let w = grid.width();
    let h = grid.height();
    let mut y: usize = 0;
    while y < h
        invariant
            y <= h,
            w == g0.w(),
            h == g0.h(),
            w <= i32::MAX,
            h <= i32::MAX,
            grid.wf(),
            grid.w() == w,
            grid.h() == h,
            forall|px: int, py: int|
                g0.contains(px, py) ==> #[trigger] grid.at(px, py) == if py < y {
                    flip(g0.at(px, py))
                } else {
                    g0.at(px, py)
                },
        decreases h - y,
    {
        let mut x: usize = 0;
        while x < w
            invariant
                x <= w,
                y < h,
                w == g0.w(),
                h == g0.h(),
                w <= i32::MAX,
                h <= i32::MAX,
                grid.wf(),
                grid.w() == w,
                grid.h() == h,
                forall|px: int, py: int|
                    g0.contains(px, py) ==> #[trigger] grid.at(px, py) == if py < y || (py == y && px < x) {
                        flip(g0.at(px, py))
                    } else {
                        g0.at(px, py)
                    },
            decreases w - x,
        {
            let next = if grid.cell(x, y).is_floor() { Tile::Wall } else { Tile::Floor };
            grid.set(x as i32, y as i32, next);
            x = x + 1;
        }
        y = y + 1;
    }
}

/// The other tile.
pub open spec fn flip(t: Tile) -> Tile {
    if t == Tile::Floor {
        Tile::Wall
    } else {
        Tile::Floor
    }
}

/// Where `rotate` reads the cell it writes at `(x, y)` of a `w` by `h` grid.
pub open spec fn rotate_source(degrees: u32, w: int, h: int, x: int, y: int) -> (int, int) {
    let d = degrees % 360;
    if (d == 90 || d == 270) && w == h {
        if degrees == 90 {
            (y, w - 1 - x)
        } else {
            (h - 1 - y, x)
        }
    } else if d == 180 {
        (w - 1 - x, h - 1 - y)
    } else {
        (x, y)
    }
}

/// Rotates by 180 degrees, or by 90 or 270 on a square grid; other angles
/// leave the grid as it is. (For a right angle the cell is read from the
/// 270-degree source unless `degrees` is exactly 90.)
pub fn rotate(grid: &mut Grid<Tile>, degrees: u32)
    requires
        old(grid).wf(),
        old(grid).w() <= i32::MAX,
        old(grid).h() <= i32::MAX,
    ensures
        final(grid).wf(),
        final(grid).w() == old(grid).w(),
        final(grid).h() == old(grid).h(),
        forall|x: int, y: int|
            old(grid).contains(x, y) ==> {
                let s = rotate_source(degrees, old(grid).w() as int, old(grid).h() as int, x, y);
                #[trigger] final(grid).at(x, y) == old(grid).at(s.0, s.1)
            },
{
    let ghost g0 = *grid;
    let w = grid.width();
    let h = grid.height();
    let d = degrees % 360;
    if !(((d == 90 || d == 270) && w == h) || d == 180) {
        return;
    }
    let snapshot = grid.iter();
    let mut y: usize = 0;
    while y < h
        invariant
            y <= h,
            w == g0.w(),
            h == g0.h(),
            w <= i32::MAX,
            h <= i32::MAX,
            d == degrees % 360,
            ((d == 90 || d == 270) && w == h) || d == 180,
            snapshot@.len() == w * h,
            forall|i: int| 0 <= i < snapshot@.len() ==> (#[trigger] snapshot@[i]).2 == g0.cells()[i],
            g0.wf(),
            grid.wf(),
            grid.w() == w,
            grid.h() == h,
            forall|px: int, py: int|
                g0.contains(px, py) ==> #[trigger] grid.at(px, py) == if py < y {
                    let s = rotate_source(degrees, w as int, h as int, px, py);
                    g0.at(s.0, s.1)
                } else {
                    g0.at(px, py)
                },
        decreases h - y,
    {
        let mut x: usize = 0;
        while x < w
            invariant
                x <= w,
                y < h,
                w == g0.w(),
                h == g0.h(),
                w <= i32::MAX,
                h <= i32::MAX,
                d == degrees % 360,
                ((d == 90 || d == 270) && w == h) || d == 180,
                snapshot@.len() == w * h,
                forall|i: int| 0 <= i < snapshot@.len() ==> (#[trigger] snapshot@[i]).2 == g0.cells()[i],
                g0.wf(),
                grid.wf(),
                grid.w() == w,
                grid.h() == h,
                forall|px: int, py: int|
                    g0.contains(px, py) ==> #[trigger] grid.at(px, py) == if py < y || (py == y && px < x) {
                        let s = rotate_source(degrees, w as int, h as int, px, py);
                        g0.at(s.0, s.1)
                    } else {
                        g0.at(px, py)
                    },
            decreases w - x,
        {
            let (sx, sy) = if d == 90 || d == 270 {
                if degrees == 90 {
                    (y, w - 1 - x)
                } else {
                    (h - 1 - y, x)
                }
            } else {
                (w - 1 - x, h - 1 - y)
            };
            proof {
                crate::grid::lemma_cell_index_bounds(w as int, h as int, sx as int, sy as int);
            }
            let i = sy * w + sx;
            let cell = snapshot[i].2;
            grid.set(x as i32, y as i32, cell);
            x = x + 1;
        }
        y = y + 1;
    }
}

/// Replaces the grid by a `width` by `height` one holding the old cells
/// where both overlap and `pad` elsewhere.
pub fn resize(grid: &mut Grid<Tile>, width: usize, height: usize, pad: Tile)
    requires
        old(grid).wf(),
        width * height <= usize::MAX,
        width <= i32::MAX,
        height <= i32::MAX,
    ensures
        final(grid).wf(),
        final(grid).w() == width,
        final(grid).h() == height,
        forall|x: int, y: int|
            final(grid).contains(x, y) ==> #[trigger] final(grid).at(x, y) == if old(grid).contains(x, y) {
                old(grid).at(x, y)
            } else {
                pad
            },
{
    let ghost g0 = *grid;
    let mut next: Grid<Tile> = Grid::new(width, height);
    next.fill(pad);
    let w = if width < grid.width() { width } else { grid.width() };
    let h = if height < grid.height() { height } else { grid.height() };
    let mut y: usize = 0;
    while y < h
        invariant
            y <= h,
            w <= width,
            h <= height,
            w <= g0.w(),
            h <= g0.h(),
            w == width || w == g0.w(),
            h == height || h == g0.h(),
            width <= i32::MAX,
            height <= i32::MAX,
            g0.wf(),
            *grid == g0,
            next.wf(),
            next.w() == width,
            next.h() == height,
            forall|px: int, py: int|
                next.contains(px, py) ==> #[trigger] next.at(px, py) == if py < y && px < w {
                    g0.at(px, py)
                } else {
                    pad
                },
        decreases h - y,
    {
        let mut x: usize = 0;
        while x < w
            invariant
                x <= w,
                y < h,
                w <= width,
                h <= height,
                w <= g0.w(),
                h <= g0.h(),
                width <= i32::MAX,
                height <= i32::MAX,
                g0.wf(),
                *grid == g0,
                next.wf(),
                next.w() == width,
                next.h() == height,
                forall|px: int, py: int|
                    next.contains(px, py) ==> #[trigger] next.at(px, py) == if (py < y && px < w) || (py == y && px
                        < x) {
                        g0.at(px, py)
                    } else {
                        pad
                    },
            decreases w - x,
        {
            let c = grid.cell(x, y);
            next.set(x as i32, y as i32, c);
            x = x + 1;
        }
        y = y + 1;
    }
    *grid = next;
}

/// Inverting twice gives back the starting grid: `g1` is `g0` inverted and
/// `g2` is `g1` inverted.
pub proof fn law_invert_twice(g0: &Grid<Tile>, g1: &Grid<Tile>, g2: &Grid<Tile>)
    requires
        g1.w() == g0.w(),
        g1.h() == g0.h(),
        g2.w() == g1.w(),
        g2.h() == g1.h(),
        forall|x: int, y: int| g0.contains(x, y) ==> #[trigger] g1.at(x, y) == flip(g0.at(x, y)),
        forall|x: int, y: int| g1.contains(x, y) ==> #[trigger] g2.at(x, y) == flip(g1.at(x, y)),
    ensures
        g2.same_as(g0),
{
    assert forall|x: int, y: int| g2.contains(x, y) implies #[trigger] g2.at(x, y) == g0.at(x, y) by {
        assert(g1.at(x, y) == flip(g0.at(x, y)));
    }
}

/// Two half turns give back the starting grid: `g1` is `g0` rotated by
/// 180 degrees and `g2` is `g1` rotated by 180 degrees.
pub proof fn law_half_turn_twice(g0: &Grid<Tile>, g1: &Grid<Tile>, g2: &Grid<Tile>)
    requires
        g1.w() == g0.w(),
        g1.h() == g0.h(),
        g2.w() == g1.w(),
        g2.h() == g1.h(),
        forall|x: int, y: int|
            g0.contains(x, y) ==> {
                let s = rotate_source(180, g0.w() as int, g0.h() as int, x, y);
                #[trigger] g1.at(x, y) == g0.at(s.0, s.1)
            },
        forall|x: int, y: int|
            g1.contains(x, y) ==> {
                let s = rotate_source(180, g1.w() as int, g1.h() as int, x, y);
                #[trigger] g2.at(x, y) == g1.at(s.0, s.1)
            },
    ensures
        g2.same_as(g0),
{
    assert forall|x: int, y: int| g2.contains(x, y) implies #[trigger] g2.at(x, y) == g0.at(x, y) by {
        let s = rotate_source(180, g1.w() as int, g1.h() as int, x, y);
        assert(g2.at(x, y) == g1.at(s.0, s.1));
        assert(g1.at(s.0, s.1) == g0.at(x, y));
    }
}

/// On a square grid a quarter turn is undone by a three-quarter turn: `g1`
/// is `g0` rotated by 90 degrees and `g2` is `g1` rotated by 270 degrees.
pub proof fn law_quarter_turn_undone(g0: &Grid<Tile>, g1: &Grid<Tile>, g2: &Grid<Tile>)
    requires
        g0.w() == g0.h(),
        g1.w() == g0.w(),
        g1.h() == g0.h(),
        g2.w() == g1.w(),
        g2.h() == g1.h(),
        forall|x: int, y: int|
            g0.contains(x, y) ==> {
                let s = rotate_source(90, g0.w() as int, g0.h() as int, x, y);
                #[trigger] g1.at(x, y) == g0.at(s.0, s.1)
            },
        forall|x: int, y: int|
            g1.contains(x, y) ==> {
                let s = rotate_source(270, g1.w() as int, g1.h() as int, x, y);
                #[trigger] g2.at(x, y) == g1.at(s.0, s.1)
            },
    ensures
        g2.same_as(g0),
{
    assert forall|x: int, y: int| g2.contains(x, y) implies #[trigger] g2.at(x, y) == g0.at(x, y) by {
        let s = rotate_source(270, g1.w() as int, g1.h() as int, x, y);
        assert(g2.at(x, y) == g1.at(s.0, s.1));
        assert(g1.at(s.0, s.1) == g0.at(x, y));
    }
}

/// A mirrored grid is symmetric: about its vertical axis when mirrored
/// horizontally, about its horizontal axis when mirrored vertically.
/// `g1` is `g0` mirrored.
pub proof fn law_mirror_symmetric(g0: &Grid<Tile>, g1: &Grid<Tile>, horizontal: bool, vertical: bool)
    requires
        g1.w() == g0.w(),
        g1.h() == g0.h(),
        forall|x: int, y: int|
            g0.contains(x, y) ==> #[trigger] g1.at(x, y) == g0.at(
                mirror_x(horizontal, g0.w() as int, x),
                mirror_y(vertical, g0.h() as int, y),
            ),
    ensures
        horizontal ==> forall|x: int, y: int| g1.contains(x, y) ==> #[trigger] g1.at(x, y) == g1.at(g1.w() - 1 - x, y),
        vertical ==> forall|x: int, y: int| g1.contains(x, y) ==> #[trigger] g1.at(x, y) == g1.at(x, g1.h() - 1 - y),
{
    let w = g0.w() as int;
    let h = g0.h() as int;
    if horizontal {
        assert forall|x: int, y: int| g1.contains(x, y) implies #[trigger] g1.at(x, y) == g1.at(w - 1 - x, y) by {
            assert(g1.at(w - 1 - x, y) == g0.at(mirror_x(horizontal, w, w - 1 - x), mirror_y(vertical, h, y)));
            assert(mirror_x(horizontal, w, w - 1 - x) == mirror_x(horizontal, w, x));
        }
    }
    if vertical {
        assert forall|x: int, y: int| g1.contains(x, y) implies #[trigger] g1.at(x, y) == g1.at(x, h - 1 - y) by {
            assert(g1.at(x, h - 1 - y) == g0.at(mirror_x(horizontal, w, x), mirror_y(vertical, h, h - 1 - y)));
            assert(mirror_y(vertical, h, h - 1 - y) == mirror_y(vertical, h, y));
        }
    }
}

/// Turns each inner cell (row by row) to floor with chance `density` (in
/// units of `1 / CHANCE_ONE`, see [`crate::rng::CHANCE_ONE`]): inner cell
/// number `k` becomes floor exactly when `u64` draw `k` of the stream of
/// `seed` falls below the chance ([`below`]). Cells only become floor and
/// the border ring is kept; a zero chance changes nothing and a certain
/// one floors every inner cell.
pub fn scatter(grid: &mut Grid<Tile>, density: u64, seed: u64)
    requires
        old(grid).wf(),
        old(grid).h() >= 1,
        old(grid).w() >= 1 || old(grid).h() <= 2,
    ensures
        old(grid).grows_to(final(grid)),
        old(grid).same_outside(final(grid), 1, 1, old(grid).w() - 1, old(grid).h() - 1),
        density == 0 ==> final(grid).cells() == old(grid).cells(),
        density >= CHANCE_ONE ==> forall|x: int, y: int|
            1 <= x < old(grid).w() - 1 && 1 <= y < old(grid).h() - 1 ==> #[trigger] final(grid).at(x, y) == Tile::Floor,
        forall|x: int, y: int|
            1 <= x < old(grid).w() - 1 && 1 <= y < old(grid).h() - 1 ==> #[trigger] final(grid).at(x, y) == if below(
                u64_draw(seed, 0, inner_index(old(grid).w() as int, x, y) as nat),
                density,
            ) {
                Tile::Floor
            } else {
                old(grid).at(x, y)
            },
{
    let ghost g0 = *grid;
    let mut rng = Rng::new(seed);
    let w = grid.width();
    let h = grid.height();
    let ghost wi = w as int;
    let mut y: usize = 1;
    while y < h - 1
        invariant
            rng.seed_of() == seed,
            wi == w,
            wi >= 2 ==> rng.pos_of() == u64_pos(seed, 0, inner_index(wi, 1, y as int) as nat),
            wi >= 2 ==> inner_index(wi, 1, y as int) >= 0,
            forall|px: int, py: int|
                1 <= px < w - 1 && 1 <= py < h - 1 && py < y ==> #[trigger] grid.at(px, py) == if below(
                    u64_draw(seed, 0, inner_index(wi, px, py) as nat),
                    density,
                ) {
                    Tile::Floor
                } else {
                    g0.at(px, py)
                },
            forall|px: int, py: int|
                g0.contains(px, py) && !(1 <= px < w - 1 && 1 <= py < h - 1 && py < y) ==> #[trigger] grid.at(px, py)
                    == g0.at(px, py),
            grid.wf(),
            w == g0.w(),
            h == g0.h(),
            w == grid.w(),
            h == grid.h(),
            1 <= y <= h,
            w >= 1 || h <= 2,
            g0.grows_to(grid),
            g0.same_outside(grid, 1, 1, w - 1, h - 1),
            density == 0 ==> grid.cells() == g0.cells(),
            density >= CHANCE_ONE ==> forall|px: int, py: int|
                1 <= px < w - 1 && 1 <= py < y ==> #[trigger] grid.at(px, py) == Tile::Floor,
        decreases h - y,
    {
        let mut x: usize = 1;
        while x < w - 1
            invariant
                rng.seed_of() == seed,
                wi == w,
                wi >= 2 ==> rng.pos_of() == u64_pos(seed, 0, inner_index(wi, x as int, y as int) as nat),
                wi >= 2 ==> inner_index(wi, x as int, y as int) >= 0,
                wi >= 2 ==> x <= w - 1,
                forall|px: int, py: int|
                    1 <= px < w - 1 && 1 <= py < h - 1 && (py < y || (py == y && px < x)) ==> #[trigger] grid.at(px, py)
                        == if below(u64_draw(seed, 0, inner_index(wi, px, py) as nat), density) {
                        Tile::Floor
                    } else {
                        g0.at(px, py)
                    },
                forall|px: int, py: int|
                    g0.contains(px, py) && !(1 <= px < w - 1 && 1 <= py < h - 1 && (py < y || (py == y && px < x)))
                        ==> #[trigger] grid.at(px, py) == g0.at(px, py),
                grid.wf(),
                w == g0.w(),
                h == g0.h(),
                w == grid.w(),
                h == grid.h(),
                1 <= y,
                y + 1 < h,
                w >= 1,
                1 <= x <= w,
                g0.grows_to(grid),
                g0.same_outside(grid, 1, 1, w - 1, h - 1),
                density == 0 ==> grid.cells() == g0.cells(),
                density >= CHANCE_ONE ==> forall|px: int, py: int|
                    (1 <= px < w - 1 && 1 <= py < y) || (1 <= px < x && py == y) ==> #[trigger] grid.at(px, py) == Tile::Floor,
            decreases w - x,
        {
            let ghost k = inner_index(wi, x as int, y as int);
            if rng.chance_below(density) {
                grid.set_at(x, y, Tile::Floor);
            }
            proof {
                assert(u64_pos(seed, 0, (k + 1) as nat) == rng.pos_of());
                assert(inner_index(wi, x as int + 1, y as int) == k + 1);
            }
            x = x + 1;
        }
        proof {
            if wi >= 2 {
                assert(x == w - 1);
                assert(inner_index(wi, wi - 1, y as int) == inner_index(wi, 1, y as int + 1)) by (nonlinear_arith)
                    requires
                        wi >= 2,
                ;
                assert(inner_index(wi, 1, y as int + 1) >= 0) by (nonlinear_arith)
                    requires
                        wi >= 2,
                        y >= 1,
                ;
            }
        }
        y = y + 1;
    }
}

} // verus!

//! Morphology with structuring elements.

use crate::grid::{Cell, Grid, Tile};
use vstd::prelude::*;

verus! {

/// Morphological operations.
#[derive(Debug, Clone, Copy, PartialEq, Eq, Structural)]
pub enum MorphologyOp {
    /// Erosion: shrink shapes.
    Erosion,
    /// Dilation: expand shapes.
    Dilation,
    /// Opening: erosion followed by dilation.
    Opening,
    /// Closing: dilation followed by erosion.
    Closing,
}

/// A pattern of active offsets with a centre, for morphological operations.
#[derive(Debug)]
pub struct StructuringElement {
    pattern: Vec<Vec<bool>>,
    width: usize,
    height: usize,
    center_x: usize,
    center_y: usize,
}

/// A `width` by `height` table holding `v` everywhere.
fn table(width: usize, height: usize, v: bool) -> (r: Vec<Vec<bool>>)
    ensures
        r@.len() == height,
        forall|y: int| 0 <= y < height ==> (#[trigger] r@[y])@.len() == width,
        forall|x: int, y: int| 0 <= x < width && 0 <= y < height ==> #[trigger] r@[y]@[x] == v,
{
    let mut rows: Vec<Vec<bool>> = Vec::with_capacity(height);
    let mut y: usize = 0;
    while y < height
        invariant
            y <= height,
            rows@.len() == y,
            forall|yy: int| 0 <= yy < y ==> (#[trigger] rows@[yy])@.len() == width,
            forall|x: int, yy: int| 0 <= x < width && 0 <= yy < y ==> #[trigger] rows@[yy]@[x] == v,
        decreases height - y,
    {
        let mut row: Vec<bool> = Vec::with_capacity(width);
        let mut x: usize = 0;
        while x < width
            invariant
                x <= width,
                row@.len() == x,
                forall|xx: int| 0 <= xx < x ==> #[trigger] row@[xx] == v,
            decreases width - x,
        {
            row.push(v);
            x = x + 1;
        }
        rows.push(row);
        y = y + 1;
    }
    rows
}

impl StructuringElement {
    #[verifier::type_invariant]
    closed spec fn shaped(self) -> bool {
        &&& self.pattern@.len() == self.height
        &&& forall|y: int| 0 <= y < self.height ==> (#[trigger] self.pattern@[y])@.len() == self.width
    }

    /// Number of columns.
    pub closed spec fn w(&self) -> nat {
        self.width as nat
    }

    /// Number of rows.
    pub closed spec fn h(&self) -> nat {
        self.height as nat
    }

    /// Column of the centre.
    pub closed spec fn cx(&self) -> int {
        self.center_x as int
    }

    /// Row of the centre.
    pub closed spec fn cy(&self) -> int {
        self.center_y as int
    }

    /// Whether offset `(x, y)` lies in the element and is active.
    pub closed spec fn at(&self, x: int, y: int) -> bool {
        0 <= x < self.width && 0 <= y < self.height && self.pattern@[y]@[x]
    }

    /// Every offset of a `width` by `height` rectangle, centred at
    /// `(width / 2, height / 2)`.
    pub fn rectangle(width: usize, height: usize) -> (e: StructuringElement)
        ensures
            e.w() == width,
            e.h() == height,
            e.cx() == width / 2,
            e.cy() == height / 2,
            forall|x: int, y: int| #[trigger] e.at(x, y) == (0 <= x < width && 0 <= y < height),
    {
        StructuringElement {
            pattern: table(width, height, true),
            width,
            height,
            center_x: width / 2,
            center_y: height / 2,
        }
    }

    /// The offsets of a `(2 radius + 1)`-square within Euclidean distance
    /// `radius` of its centre. (The squared distances compared stay below
    /// 2^24 for the radii accepted.)
    pub fn circle(radius: usize) -> (e: StructuringElement)
        requires
            radius <= 2896,
        ensures
            e.w() == 2 * radius + 1,
            e.h() == 2 * radius + 1,
            e.cx() == radius,
            e.cy() == radius,
            forall|x: int, y: int|
                #[trigger] e.at(x, y) == (0 <= x < 2 * radius + 1 && 0 <= y < 2 * radius + 1 && (x - radius) * (x
                    - radius) + (y - radius) * (y - radius) <= radius * radius),
    {
        let size = radius * 2 + 1;
        let mut pattern = table(size, size, false);
        let r = radius as i64;
        assert(r * r <= 2896 * 2896) by (nonlinear_arith)
            requires
                0 <= r <= 2896,
        ;
        let r2 = r * r;
        let mut y: usize = 0;
        while y < size
            invariant
                y <= size,
                size == 2 * radius + 1,
                radius <= 2896,
                r == radius,
                r2 == radius * radius,
                pattern@.len() == size,
                forall|yy: int| 0 <= yy < size ==> (#[trigger] pattern@[yy])@.len() == size,
                forall|x: int, yy: int|
                    0 <= x < size && 0 <= yy < size ==> #[trigger] pattern@[yy]@[x] == (yy < y && (x - radius) * (x
                        - radius) + (yy - radius) * (yy - radius) <= radius * radius),
            decreases size - y,
        {
            let mut row = table(size, 1, false).pop().unwrap();
            let mut x: usize = 0;
            while x < size
                invariant
                    x <= size,
                    y < size,
                    size == 2 * radius + 1,
                    radius <= 2896,
                    r == radius,
                    r2 == radius * radius,
                    row@.len() == size,
                    forall|xx: int|
                        0 <= xx < size ==> #[trigger] row@[xx] == (xx < x && (xx - radius) * (xx - radius) + (y
                            - radius) * (y - radius) <= radius * radius),
                decreases size - x,
            {
                let dx = x as i64 - r;
                let dy = y as i64 - r;
                assert(-2897 <= dx <= 2897 && -2897 <= dy <= 2897);
                assert(0 <= dx * dx <= 2897 * 2897 && 0 <= dy * dy <= 2897 * 2897) by (nonlinear_arith)
                    requires
                        -2897 <= dx <= 2897,
                        -2897 <= dy <= 2897,
                ;
                row.set(x, dx * dx + dy * dy <= r2);
                x = x + 1;
            }
            pattern.set(y, row);
            y = y + 1;
        }
        StructuringElement { pattern, width: size, height: size, center_x: radius, center_y: radius }
    }

    /// The centre row and centre column of a `size`-square, centred at
    /// `(size / 2, size / 2)`.
    pub fn cross(size: usize) -> (e: StructuringElement)
        requires
            size > 0,
        ensures
            e.w() == size,
            e.h() == size,
            e.cx() == size / 2,
            e.cy() == size / 2,
            forall|x: int, y: int|
                #[trigger] e.at(x, y) == (0 <= x < size && 0 <= y < size && (x == size / 2 || y == size / 2)),
    {
        let center = size / 2;
        let mut pattern = table(size, size, false);
        let mut y: usize = 0;
        while y < size
            invariant
                y <= size,
                center == size / 2,
                pattern@.len() == size,
                forall|yy: int| 0 <= yy < size ==> (#[trigger] pattern@[yy])@.len() == size,
                forall|x: int, yy: int|
                    0 <= x < size && 0 <= yy < size ==> #[trigger] pattern@[yy]@[x] == (yy < y && (x == center
                        || yy == center)),
            decreases size - y,
        {
            let mut row = table(size, 1, false).pop().unwrap();
            let mut x: usize = 0;
            while x < size
                invariant
                    x <= size,
                    y < size,
                    center == size / 2,
                    row@.len() == size,
                    forall|xx: int| 0 <= xx < size ==> #[trigger] row@[xx] == (xx < x && (xx == center || y == center)),
                decreases size - x,
            {
                row.set(x, x == center || y == center);
                x = x + 1;
            }
            pattern.set(y, row);
            y = y + 1;
        }
        StructuringElement { pattern, width: size, height: size, center_x: center, center_y: center }
    }

    /// Number of columns.
    pub fn width(&self) -> (r: usize)
        ensures
            r == self.w(),
    {
        self.width
    }

    /// Number of rows.
    pub fn height(&self) -> (r: usize)
        ensures
            r == self.h(),
    {
        self.height
    }

    /// Whether offset `(x, y)` is active.
    pub fn get(&self, x: usize, y: usize) -> (r: bool)
        requires
            x < self.w(),
            y < self.h(),
        ensures
            r == self.at(x as int, y as int),
    {
        proof {
            use_type_invariant(self);
        }
        self.pattern[y][x]
    }

    /// Column of the centre.
    fn center_col(&self) -> (r: usize)
        ensures
            r == self.cx(),
    {
        self.center_x
    }

    /// Row of the centre.
    fn center_row(&self) -> (r: usize)
        ensures
            r == self.cy(),
    {
        self.center_y
    }
}

/// The grid cell under offset `(ex, ey)` of `e` placed with its centre on
/// `(x, y)`.
pub open spec fn under(e: &StructuringElement, x: int, y: int, ex: int, ey: int) -> (int, int) {
    (x + ex - e.cx(), y + ey - e.cy())
}

/// Every active offset of `e` centred on `(x, y)` lies on a passable cell.
pub open spec fn fits<C: Cell>(g: &Grid<C>, e: &StructuringElement, x: int, y: int) -> bool {
    forall|ex: int, ey: int| #[trigger] e.at(ex, ey) ==> g.open_at(under(e, x, y, ex, ey))
}

/// Some active offset of `e` centred on `(x, y)` lies on a passable cell.
pub open spec fn hits<C: Cell>(g: &Grid<C>, e: &StructuringElement, x: int, y: int) -> bool {
    exists|ex: int, ey: int| #[trigger] e.at(ex, ey) && g.open_at(under(e, x, y, ex, ey))
}

/// Opening at `(x, y)`: some active offset lies on an in-bounds cell where
/// the element fits.
pub open spec fn opened<C: Cell>(g: &Grid<C>, e: &StructuringElement, x: int, y: int) -> bool {
    exists|ex: int, ey: int|
        #[trigger] e.at(ex, ey) && g.contains(under(e, x, y, ex, ey).0, under(e, x, y, ex, ey).1) && fits(
            g,
            e,
            under(e, x, y, ex, ey).0,
            under(e, x, y, ex, ey).1,
        )
}

/// Closing at `(x, y)`: every active offset lies on an in-bounds cell that
/// the element hits.
pub open spec fn closed_at<C: Cell>(g: &Grid<C>, e: &StructuringElement, x: int, y: int) -> bool {
    forall|ex: int, ey: int|
        #[trigger] e.at(ex, ey) ==> g.contains(under(e, x, y, ex, ey).0, under(e, x, y, ex, ey).1) && hits(
            g,
            e,
            under(e, x, y, ex, ey).0,
            under(e, x, y, ex, ey).1,
        )
}

/// Whether `(x, y)` is floor after `op`.
pub open spec fn morph_floor<C: Cell>(g: &Grid<C>, op: MorphologyOp, e: &StructuringElement, x: int, y: int) -> bool {
    match op {
        MorphologyOp::Erosion => fits(g, e, x, y),
        MorphologyOp::Dilation => hits(g, e, x, y),
        MorphologyOp::Opening => opened(g, e, x, y),
        MorphologyOp::Closing => closed_at(g, e, x, y),
    }
}

/// Whether the cell under offset `(ex, ey)` of `e` centred on `(x, y)` is passable.
fn sample<C: Cell>(grid: &Grid<C>, e: &StructuringElement, x: usize, y: usize, ex: usize, ey: usize) -> (r: bool)
    requires
        grid.wf(),
        x < grid.w(),
        y < grid.h(),
        ex < e.w(),
        ey < e.h(),
        grid.w() + e.w() <= i32::MAX,
        grid.h() + e.h() <= i32::MAX,
    ensures
        r == grid.open_at(under(e, x as int, y as int, ex as int, ey as int)),
{
    let cx = e.center_col();
    let cy = e.center_row();
    if x + ex < cx || y + ey < cy {
        return false;
    }
    let gx = x + ex - cx;
    let gy = y + ey - cy;
    if gx >= grid.width() || gy >= grid.height() {
        return false;
    }
    grid.cell(gx, gy).is_passable()
}

/// Whether `e` centred on `(x, y)` fits (`all`) or hits (`!all`).
fn probe<C: Cell>(grid: &Grid<C>, e: &StructuringElement, x: usize, y: usize, all: bool) -> (r: bool)
    requires
        grid.wf(),
        x < grid.w(),
        y < grid.h(),
        grid.w() + e.w() <= i32::MAX,
        grid.h() + e.h() <= i32::MAX,
    ensures
        r == if all {
            fits(grid, e, x as int, y as int)
        } else {
            hits(grid, e, x as int, y as int)
        },
{
    let ew = e.width();
    let eh = e.height();
    let mut ey: usize = 0;
    while ey < eh
        invariant
            ey <= eh,
            ew == e.w(),
            eh == e.h(),
            grid.wf(),
            x < grid.w(),
            y < grid.h(),
            grid.w() + e.w() <= i32::MAX,
            grid.h() + e.h() <= i32::MAX,
            forall|ex: int, yy: int|
                0 <= yy < ey && #[trigger] e.at(ex, yy) ==> grid.open_at(under(e, x as int, y as int, ex, yy))
                    == all,
        decreases eh - ey,
    {
        let mut ex: usize = 0;
        while ex < ew
            invariant
                ex <= ew,
                ey < eh,
                ew == e.w(),
                eh == e.h(),
                grid.wf(),
                x < grid.w(),
                y < grid.h(),
                grid.w() + e.w() <= i32::MAX,
                grid.h() + e.h() <= i32::MAX,
                forall|xx: int, yy: int|
                    (0 <= yy < ey || (yy == ey && xx < ex)) && #[trigger] e.at(xx, yy) ==> grid.open_at(
                        under(e, x as int, y as int, xx, yy),
                    ) == all,
            decreases ew - ex,
        {
            if e.get(ex, ey) {
                let s = sample(grid, e, x, y, ex, ey);
                if s != all {
                    proof {
                        assert(e.at(ex as int, ey as int));
                    }
                    return !all;
                }
            }
            ex = ex + 1;
        }
        ey = ey + 1;
    }
    proof {
        if all {
            assert forall|ex: int, yy: int| #[trigger] e.at(ex, yy) implies grid.open_at(
                under(e, x as int, y as int, ex, yy),
            ) by {
                assert(0 <= yy < e.h());
            }
        } else {
            if hits(grid, e, x as int, y as int) {
                let (ex, yy) = choose|ex: int, yy: int|
                    #[trigger] e.at(ex, yy) && grid.open_at(under(e, x as int, y as int, ex, yy));
                assert(0 <= yy < e.h());
            }
        }
    }
    all
}

/// The grid with floor exactly where `e` fits (`all`) or hits (`!all`).
fn sweep<C: Cell>(grid: &Grid<C>, e: &StructuringElement, all: bool) -> (r: Grid<Tile>)
    requires
        grid.wf(),
        grid.w() + e.w() <= i32::MAX,
        grid.h() + e.h() <= i32::MAX,
    ensures
        r.wf(),
        r.w() == grid.w(),
        r.h() == grid.h(),
        forall|x: int, y: int|
            grid.contains(x, y) ==> #[trigger] r.at(x, y) == if (if all {
                fits(grid, e, x, y)
            } else {
                hits(grid, e, x, y)
            }) {
                Tile::Floor
            } else {
                Tile::Wall
            },
{
    let w = grid.width();
    let h = grid.height();
    let mut result: Grid<Tile> = Grid::new(w, h);
    let mut y: usize = 0;
    while y < h
        invariant
            y <= h,
            w == grid.w(),
            h == grid.h(),
            grid.wf(),
            grid.w() + e.w() <= i32::MAX,
            grid.h() + e.h() <= i32::MAX,
            result.wf(),
            result.w() == w,
            result.h() == h,
            forall|px: int, py: int|
                grid.contains(px, py) && py < y ==> #[trigger] result.at(px, py) == if (if all {
                    fits(grid, e, px, py)
                } else {
                    hits(grid, e, px, py)
                }) {
                    Tile::Floor
                } else {
                    Tile::Wall
                },
        decreases h - y,
    {
        let mut x: usize = 0;
        while x < w
            invariant
                x <= w,
                y < h,
                w == grid.w(),
                h == grid.h(),
                grid.wf(),
                grid.w() + e.w() <= i32::MAX,
                grid.h() + e.h() <= i32::MAX,
                result.wf(),
                result.w() == w,
                result.h() == h,
                forall|px: int, py: int|
                    grid.contains(px, py) && (py < y || (py == y && px < x)) ==> #[trigger] result.at(px, py) == if (
                    if all {
                        fits(grid, e, px, py)
                    } else {
                        hits(grid, e, px, py)
                    }) {
                        Tile::Floor
                    } else {
                        Tile::Wall
                    },
            decreases w - x,
        {
            let on = probe(grid, e, x, y, all);
            let t = if on {
                Tile::Floor
            } else {
                Tile::Wall
            };
            result.set(x as i32, y as i32, t);
            x = x + 1;
        }
        y = y + 1;
    }
    result
}

/// Applies `op` with the structuring element `element`: erosion keeps
/// floor where the whole element fits on passable cells, dilation where any
/// of it touches one, opening dilates the erosion and closing erodes the
/// dilation. Cells outside the grid count as impassable.
pub fn morphological_transform<C: Cell>(grid: &Grid<C>, op: MorphologyOp, element: &StructuringElement) -> (r: Grid<
    Tile,
>)
    requires
        grid.wf(),
        grid.w() + element.w() <= i32::MAX,
        grid.h() + element.h() <= i32::MAX,
    ensures
        r.wf(),
        r.w() == grid.w(),
        r.h() == grid.h(),
        forall|x: int, y: int|
            grid.contains(x, y) ==> #[trigger] r.at(x, y) == if morph_floor(grid, op, element, x, y) {
                Tile::Floor
            } else {
                Tile::Wall
            },
{
    match op {
        MorphologyOp::Erosion => sweep(grid, element, true),
        MorphologyOp::Dilation => sweep(grid, element, false),
        MorphologyOp::Opening => {
            let eroded = sweep(grid, element, true);
            let r = sweep(&eroded, element, false);
            proof {
                assert forall|x: int, y: int| grid.contains(x, y) implies #[trigger] r.at(x, y) == if opened(
                    grid,
                    element,
                    x,
                    y,
                ) {
                    Tile::Floor
                } else {
                    Tile::Wall
                } by {
                    if hits(&eroded, element, x, y) {
                        let (ex, ey) = choose|ex: int, ey: int|
                            #[trigger] element.at(ex, ey) && eroded.open_at(under(element, x, y, ex, ey));
                        let p = under(element, x, y, ex, ey);
                        assert(eroded.at(p.0, p.1) == Tile::Floor);
                    }
                    if opened(grid, element, x, y) {
                        let (ex, ey) = choose|ex: int, ey: int|
                            #[trigger] element.at(ex, ey) && grid.contains(
                                under(element, x, y, ex, ey).0,
                                under(element, x, y, ex, ey).1,
                            ) && fits(grid, element, under(element, x, y, ex, ey).0, under(element, x, y, ex, ey).1);
                        let p = under(element, x, y, ex, ey);
                        assert(eroded.open_at(p));
                    }
                }
            }
            r
        },
        MorphologyOp::Closing => {
            let dilated = sweep(grid, element, false);
            let r = sweep(&dilated, element, true);
            proof {
                assert forall|x: int, y: int| grid.contains(x, y) implies #[trigger] r.at(x, y) == if closed_at(
                    grid,
                    element,
                    x,
                    y,
                ) {
                    Tile::Floor
                } else {
                    Tile::Wall
                } by {
                    if fits(&dilated, element, x, y) {
                        assert forall|ex: int, ey: int| #[trigger] element.at(ex, ey) implies grid.contains(
                            under(element, x, y, ex, ey).0,
                            under(element, x, y, ex, ey).1,
                        ) && hits(grid, element, under(element, x, y, ex, ey).0, under(element, x, y, ex, ey).1) by {
                            let p = under(element, x, y, ex, ey);
                            assert(dilated.open_at(p));
                        }
                    }
                    if closed_at(grid, element, x, y) {
                        assert forall|ex: int, ey: int| #[trigger] element.at(ex, ey) implies dilated.open_at(
                            under(element, x, y, ex, ey),
                        ) by {
                            let p = under(element, x, y, ex, ey);
                            assert(grid.contains(p.0, p.1) && hits(grid, element, p.0, p.1));
                        }
                    }
                }
            }
            r
        },
    }
}

} // verus!

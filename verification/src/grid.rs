//! Core grid and cell types.

use vstd::prelude::*;

verus! {

/// Row-major position of `(x, y)` in a grid `w` cells wide.
pub open spec fn cell_index(w: int, x: int, y: int) -> int {
    y * w + x
}

/// A position inside a `w` by `h` grid maps to an index below `w * h`.
pub proof fn lemma_cell_index_bounds(w: int, h: int, x: int, y: int)
    requires
        0 <= x < w,
        0 <= y < h,
    ensures
        0 <= cell_index(w, x, y) < w * h,
        cell_index(w, x, y) + 1 <= w * h,
{
    assert(y * w + x < w * h) by (nonlinear_arith)
        requires
            0 <= x < w,
            0 <= y < h,
    ;
    assert(0 <= y * w) by (nonlinear_arith)
        requires
            0 <= y,
            0 <= w,
    ;
}

/// Distinct positions inside a grid have distinct indices.
pub proof fn lemma_cell_index_injective(w: int, x1: int, y1: int, x2: int, y2: int)
    requires
        0 <= x1 < w,
        0 <= x2 < w,
        cell_index(w, x1, y1) == cell_index(w, x2, y2),
    ensures
        x1 == x2,
        y1 == y2,
{
    assert(y1 == y2) by (nonlinear_arith)
        requires
            0 <= x1 < w,
            0 <= x2 < w,
            y1 * w + x1 == y2 * w + x2,
    ;
}

/// Every index below `w * h` is the index of exactly one position.
pub proof fn lemma_cell_index_decompose(w: int, h: int, i: int)
    requires
        0 < w,
        0 <= i < w * h,
    ensures
        0 <= i % w < w,
        0 <= i / w < h,
        cell_index(w, i % w, i / w) == i,
{
    assert(i == (i / w) * w + i % w) by (nonlinear_arith)
        requires
            0 < w,
    ;
    assert(0 <= i % w < w) by (nonlinear_arith)
        requires
            0 < w,
    ;
    assert(0 <= i / w < h) by (nonlinear_arith)
        requires
            0 < w,
            0 <= i < w * h,
    ;
}

/// A cell type that a [`Grid`] can hold.
pub trait Cell: Sized + Copy {
    /// Whether an entity can walk through this cell.
    spec fn passable(&self) -> bool;

    /// The cell a fresh grid is filled with.
    spec fn blank() -> Self;

    /// Whether an entity can walk through this cell.
    fn is_passable(&self) -> (r: bool)
        ensures
            r == self.passable(),
    ;

    /// Turns the cell into a passable one, where the cell type allows it.
    fn set_passable(&mut self);

    /// The cell a fresh grid is filled with.
    fn blank_cell() -> (r: Self)
        ensures
            r == Self::blank(),
    ;
}

/// Basic tile type for dungeon/terrain generation.
#[derive(Debug, Clone, Copy, PartialEq, Eq, Hash, Structural)]
pub enum Tile {
    Wall,
    Floor,
}

impl Tile {
    pub fn is_wall(&self) -> (r: bool)
        ensures
            r == (*self == Tile::Wall),
    {
        match self {
            Tile::Wall => true,
            Tile::Floor => false,
        }
    }

    pub fn is_floor(&self) -> (r: bool)
        ensures
            r == (*self == Tile::Floor),
    {
        match self {
            Tile::Wall => false,
            Tile::Floor => true,
        }
    }
}

impl Tile {
    /// The character that stands for the tile in a text picture of a grid.
    pub open spec fn glyph(self) -> char {
        match self {
            Tile::Wall => '#',
            Tile::Floor => '.',
        }
    }

    /// `#` for a wall, `.` for a floor.
    pub fn symbol(&self) -> (r: char)
        ensures
            r == self.glyph(),
    {
        match self {
            Tile::Wall => '#',
            Tile::Floor => '.',
        }
    }
}

impl Default for Tile {
    fn default() -> (r: Tile)
        ensures
            r == Tile::Wall,
    {
        Tile::Wall
    }
}

impl Cell for Tile {
    open spec fn passable(&self) -> bool {
        *self == Tile::Floor
    }

    open spec fn blank() -> Tile {
        Tile::Wall
    }

    fn is_passable(&self) -> (r: bool) {
        self.is_floor()
    }

    fn set_passable(&mut self)
        ensures
            *final(self) == Tile::Floor,
    {
        *self = Tile::Floor;
    }

    fn blank_cell() -> (r: Tile) {
        Tile::Wall
    }
}


/// A grid cell that carries a [`Tile`].
#[derive(Debug, Clone, Copy, PartialEq, Eq, Hash, Structural)]
pub struct TileCell {
    pub tile: Tile,
}

impl TileCell {
    /// A floor cell, as a value of specifications.
    pub open spec fn floor_cell() -> TileCell {
        TileCell { tile: Tile::Floor }
    }

    pub fn floor() -> (r: TileCell)
        ensures
            r == TileCell::floor_cell(),
    {
        TileCell { tile: Tile::Floor }
    }

    pub fn wall() -> (r: TileCell)
        ensures
            r.tile == Tile::Wall,
    {
        TileCell { tile: Tile::Wall }
    }
}

impl Default for TileCell {
    fn default() -> (r: TileCell)
        ensures
            r.tile == Tile::Wall,
    {
        TileCell { tile: Tile::Wall }
    }
}

impl Cell for TileCell {
    open spec fn passable(&self) -> bool {
        self.tile == Tile::Floor
    }

    open spec fn blank() -> TileCell {
        TileCell { tile: Tile::Wall }
    }

    fn is_passable(&self) -> (r: bool) {
        self.tile.is_floor()
    }

    fn set_passable(&mut self)
        ensures
            final(self).tile == Tile::Floor,
    {
        self.tile = Tile::Floor;
    }

    fn blank_cell() -> (r: TileCell) {
        TileCell { tile: Tile::Wall }
    }
}

/// A vector of `n` copies of `c`.
pub(crate) fn filled_vec<C: Copy>(c: C, n: usize) -> (v: Vec<C>)
    ensures
        v@.len() == n,
        forall|i: int| 0 <= i < n ==> v@[i] == c,
{
    let mut v: Vec<C> = Vec::with_capacity(n);
    let mut k: usize = 0;
    while k < n
        invariant
            k <= n,
            v@.len() == k,
            forall|i: int| 0 <= i < k ==> v@[i] == c,
        decreases n - k,
    {
        v.push(c);
        k = k + 1;
    }
    v
}

/// A rectangular grid of cells stored row by row.
#[derive(Debug, Clone)]
pub struct Grid<C = Tile> {
    width: usize,
    height: usize,
    cells: Vec<C>,
}

impl<C: Cell> Grid<C> {
    /// Number of columns.
    pub closed spec fn w(&self) -> nat {
        self.width as nat
    }

    /// Number of rows.
    pub closed spec fn h(&self) -> nat {
        self.height as nat
    }

    /// All cells, row by row.
    pub closed spec fn cells(&self) -> Seq<C> {
        self.cells@
    }

    /// The cell store holds exactly one cell per position.
    pub open spec fn wf(&self) -> bool {
        &&& self.cells().len() == self.w() * self.h()
        &&& self.w() * self.h() <= usize::MAX
    }

    /// Whether `(x, y)` lies inside the grid.
    pub open spec fn contains(&self, x: int, y: int) -> bool {
        0 <= x < self.w() && 0 <= y < self.h()
    }

    /// The cell at `(x, y)`.
    pub open spec fn at(&self, x: int, y: int) -> C {
        self.cells()[cell_index(self.w() as int, x, y)]
    }

    /// Same shape, and the same cell at every position.
    pub open spec fn same_as(&self, other: &Grid<C>) -> bool {
        &&& self.w() == other.w()
        &&& self.h() == other.h()
        &&& forall|x: int, y: int| self.contains(x, y) ==> #[trigger] self.at(x, y) == other.at(x, y)
    }

    /// Number of passable cells among the first `n` of the cell store.
    pub open spec fn passable_prefix(cells: Seq<C>, n: int) -> nat
        decreases n,
    {
        if n <= 0 {
            0
        } else {
            Self::passable_prefix(cells, n - 1) + if cells[n - 1].passable() { 1nat } else { 0nat }
        }
    }

    /// Replacing one cell changes the passable count of a prefix that holds
    /// it by the change in that cell's passability.
    pub proof fn lemma_passable_prefix_update(cells: Seq<C>, i: int, c: C, n: int)
        requires
            0 <= i < cells.len(),
            0 <= n <= cells.len(),
        ensures
            Self::passable_prefix(cells.update(i, c), n) + (if i < n && cells[i].passable() { 1nat } else { 0nat })
                == Self::passable_prefix(cells, n) + (if i < n && c.passable() { 1nat } else { 0nat }),
        decreases n,
    {
        if n > 0 {
            Self::lemma_passable_prefix_update(cells, i, c, n - 1);
        }
    }

    /// Number of passable cells in the grid.
    pub open spec fn passable_count(&self) -> nat {
        Self::passable_prefix(self.cells(), self.cells().len() as int)
    }

    /// A `width` by `height` grid filled with the blank cell.
    pub fn new(width: usize, height: usize) -> (g: Grid<C>)
        requires
            width * height <= usize::MAX,
        ensures
            g.wf(),
            g.w() == width,
            g.h() == height,
            forall|x: int, y: int| g.contains(x, y) ==> #[trigger] g.at(x, y) == C::blank(),
    {
        let c = C::blank_cell();
        let cells = filled_vec(c, width * height);
        let g = Grid { width, height, cells };
        assert forall|x: int, y: int| g.contains(x, y) implies #[trigger] g.at(x, y) == C::blank() by {
            lemma_cell_index_bounds(width as int, height as int, x, y);
        }
        g
    }

    /// Row-major index of an in-bounds position.
    fn index_of(&self, x: usize, y: usize) -> (i: usize)
        requires
            self.wf(),
            x < self.w(),
            y < self.h(),
        ensures
            i == cell_index(self.w() as int, x as int, y as int),
            i < self.cells().len(),
    {
        let n = self.cells.len();
        proof {
            lemma_cell_index_bounds(self.width as int, self.height as int, x as int, y as int);
        }
        y * self.width + x
    }

    pub fn width(&self) -> (r: usize)
        ensures
            r == self.w(),
    {
        self.width
    }

    pub fn height(&self) -> (r: usize)
        ensures
            r == self.h(),
    {
        self.height
    }

    pub fn in_bounds(&self, x: i32, y: i32) -> (r: bool)
        ensures
            r == self.contains(x as int, y as int),
    {
        x >= 0 && y >= 0 && (x as usize) < self.width && (y as usize) < self.height
    }

    /// The cell at `(x, y)`, or `None` outside the grid.
    pub fn get(&self, x: i32, y: i32) -> (r: Option<&C>)
        requires
            self.wf(),
        ensures
            r == (if self.contains(x as int, y as int) {
                Some(&self.at(x as int, y as int))
            } else {
                None
            }),
    {
        if self.in_bounds(x, y) {
            let i = self.index_of(x as usize, y as usize);
            Some(&self.cells[i])
        } else {
            None
        }
    }

    /// The cell at `(x, y)` for in-place change, or `None` outside the grid.
    pub fn get_mut(&mut self, x: i32, y: i32) -> (r: Option<&mut C>)
        requires
            old(self).wf(),
        ensures
            old(self).contains(x as int, y as int) ==> {
                &&& r.is_some()
                &&& *r.unwrap() == old(self).at(x as int, y as int)
                &&& final(self).w() == old(self).w()
                &&& final(self).h() == old(self).h()
                &&& final(self).cells() == old(self).cells().update(
                    cell_index(old(self).w() as int, x as int, y as int),
                    *final(r.unwrap()),
                )
            },
            !old(self).contains(x as int, y as int) ==> r.is_none() && *final(self) == *old(self),
    {
        if self.in_bounds(x, y) {
            let i = self.index_of(x as usize, y as usize);
            Some(&mut self.cells[i])
        } else {
            None
        }
    }

    /// Writes `cell` at `(x, y)`; returns whether the position was inside the grid.
    pub fn set(&mut self, x: i32, y: i32, cell: C) -> (r: bool)
        requires
            old(self).wf(),
        ensures
            r == old(self).contains(x as int, y as int),
            final(self).wf(),
            final(self).w() == old(self).w(),
            final(self).h() == old(self).h(),
            forall|px: int, py: int|
                old(self).contains(px, py) ==> #[trigger] final(self).at(px, py) == if px == x && py
                    == y {
                    cell
                } else {
                    old(self).at(px, py)
                },
    {
        if self.in_bounds(x, y) {
            let i = self.index_of(x as usize, y as usize);
            self.cells.set(i, cell);
            proof {
                assert forall|px: int, py: int| old(self).contains(px, py) implies #[trigger] self.at(
                    px,
                    py,
                ) == if px == x && py == y {
                    cell
                } else {
                    old(self).at(px, py)
                } by {
                    lemma_cell_index_bounds(self.width as int, self.height as int, px, py);
                    if cell_index(self.width as int, px, py) == i as int {
                        lemma_cell_index_injective(self.width as int, px, py, x as int, y as int);
                    }
                }
            }
            true
        } else {
            false
        }
    }
}


/// Number of `true` entries.
pub open spec fn count_true(bs: Seq<bool>) -> nat
    decreases bs.len(),
{
    if bs.len() == 0 {
        0
    } else {
        count_true(bs.drop_last()) + if bs.last() { 1nat } else { 0nat }
    }
}

pub proof fn lemma_count_true_bound(bs: Seq<bool>)
    ensures
        count_true(bs) <= bs.len(),
    decreases bs.len(),
{
    if bs.len() > 0 {
        lemma_count_true_bound(bs.drop_last());
    }
}

/// No entry is `true`: the count is zero.
pub proof fn lemma_count_true_zero(bs: Seq<bool>)
    requires
        forall|i: int| 0 <= i < bs.len() ==> !bs[i],
    ensures
        count_true(bs) == 0,
    decreases bs.len(),
{
    if bs.len() > 0 {
        lemma_count_true_zero(bs.drop_last());
    }
}

/// Setting a `false` entry to `true` adds one to the count.
pub proof fn lemma_count_true_flip(bs: Seq<bool>, i: int)
    requires
        0 <= i < bs.len(),
        !bs[i],
    ensures
        count_true(bs.update(i, true)) == count_true(bs) + 1,
    decreases bs.len(),
{
    let u = bs.update(i, true);
    if i == bs.len() - 1 {
        assert(u.drop_last() =~= bs.drop_last());
    } else {
        assert(u.drop_last() =~= bs.drop_last().update(i, true));
        lemma_count_true_flip(bs.drop_last(), i);
    }
}

/// The 4-neighbours of `(x, y)` inside a `w` by `h` grid, in the order
/// west, east, north, south.
pub open spec fn neighbors4_spec(x: int, y: int, w: int, h: int) -> Seq<(usize, usize)> {
    (if x > 0 { seq![((x - 1) as usize, y as usize)] } else { seq![] })
    + (if x + 1 < w { seq![((x + 1) as usize, y as usize)] } else { seq![] })
    + (if y > 0 { seq![(x as usize, (y - 1) as usize)] } else { seq![] })
    + (if y + 1 < h { seq![(x as usize, (y + 1) as usize)] } else { seq![] })
}

/// `(x + dx, y + dy)` as a one-element sequence when it lies inside a `w` by
/// `h` grid, else empty.
pub open spec fn offset_if_inside(x: int, y: int, dx: int, dy: int, w: int, h: int) -> Seq<(usize, usize)> {
    if 0 <= x + dx < w && 0 <= y + dy < h {
        seq![((x + dx) as usize, (y + dy) as usize)]
    } else {
        seq![]
    }
}

/// The in-bounds 8-neighbours of `(x, y)`, row by row (north row first,
/// west to east within a row).
pub open spec fn neighbors8_spec(x: int, y: int, w: int, h: int) -> Seq<(usize, usize)> {
    offset_if_inside(x, y, -1, -1, w, h) + offset_if_inside(x, y, 0, -1, w, h) + offset_if_inside(
        x,
        y,
        1,
        -1,
        w,
        h,
    ) + offset_if_inside(x, y, -1, 0, w, h) + offset_if_inside(x, y, 1, 0, w, h) + offset_if_inside(
        x,
        y,
        -1,
        1,
        w,
        h,
    ) + offset_if_inside(x, y, 0, 1, w, h) + offset_if_inside(x, y, 1, 1, w, h)
}

/// Appends `(x + dx, y + dy)` when it lies inside a `w` by `h` grid.
fn push_offset(v: &mut Vec<(usize, usize)>, x: usize, y: usize, dx: i8, dy: i8, w: usize, h: usize)
    requires
        -1 <= dx <= 1,
        -1 <= dy <= 1,
    ensures
        final(v)@ == old(v)@ + offset_if_inside(x as int, y as int, dx as int, dy as int, w as int, h as int),
{
    let inside_x = if dx < 0 {
        x > 0 && x - 1 < w
    } else if dx == 0 {
        x < w
    } else {
        x < w && x + 1 < w
    };
    let inside_y = if dy < 0 {
        y > 0 && y - 1 < h
    } else if dy == 0 {
        y < h
    } else {
        y < h && y + 1 < h
    };
    if inside_x && inside_y {
        let nx = if dx < 0 { x - 1 } else if dx == 0 { x } else { x + 1 };
        let ny = if dy < 0 { y - 1 } else if dy == 0 { y } else { y + 1 };
        v.push((nx, ny));
    }
    assert(v@ =~= old(v)@ + offset_if_inside(x as int, y as int, dx as int, dy as int, w as int, h as int));
}

/// The point one step from `p` toward `e`: along x while x is the farther
/// axis, otherwise along y.
pub open spec fn line_step(p: (int, int), e: (int, int)) -> (int, int) {
    let ax = if p.0 >= e.0 { p.0 - e.0 } else { e.0 - p.0 };
    let ay = if p.1 >= e.1 { p.1 - e.1 } else { e.1 - p.1 };
    if ax > ay {
        (if e.0 > p.0 { p.0 + 1 } else { p.0 - 1 }, p.1)
    } else {
        (p.0, if e.1 > p.1 { p.1 + 1 } else { p.1 - 1 })
    }
}

/// `v` lies between `a` and `b` (in either order).
pub open spec fn between(a: int, v: int, b: int) -> bool {
    (a <= v <= b) || (b <= v <= a)
}

/// One step toward a different point moves to a 4-neighbour.
pub proof fn lemma_line_step_adjacent(p: (int, int), e: (int, int))
    requires
        p != e,
    ensures
        adjacent4(p, line_step(p, e)),
        manhattan(line_step(p, e), e) == manhattan(p, e) - 1,
{
}

/// Taxicab distance.
pub open spec fn manhattan(a: (int, int), b: (int, int)) -> int {
    (if a.0 >= b.0 { a.0 - b.0 } else { b.0 - a.0 }) + (if a.1 >= b.1 { a.1 - b.1 } else { b.1 - a.1 })
}

pub open spec fn pos(p: (usize, usize)) -> (int, int) {
    (p.0 as int, p.1 as int)
}

/// Points from `start` to `end` (both included), each a 4-neighbour of the
/// previous one, stepping along the axis with the larger remaining distance
/// (y on ties).
pub fn line_points(start: (usize, usize), end: (usize, usize)) -> (r: Vec<(usize, usize)>)
    requires
        start.0 <= i32::MAX,
        start.1 <= i32::MAX,
        end.0 <= i32::MAX,
        end.1 <= i32::MAX,
    ensures
        r@.len() == manhattan(pos(start), pos(end)) + 1,
        r@[0] == start,
        r@.last() == end,
        forall|i: int| 0 <= i < r@.len() - 1 ==> pos(#[trigger] r@[i + 1]) == line_step(pos(r@[i]), pos(end)),
        forall|i: int| 0 <= i < r@.len() ==> manhattan(pos(#[trigger] r@[i]), pos(end)) == r@.len() - 1 - i,
        forall|i: int|
            0 <= i < r@.len() ==> between(start.0 as int, (#[trigger] r@[i]).0 as int, end.0 as int) && between(
                start.1 as int,
                r@[i].1 as int,
                end.1 as int,
            ),
{
    let mut x: i32 = start.0 as i32;
    let mut y: i32 = start.1 as i32;
    let tx: i32 = end.0 as i32;
    let ty: i32 = end.1 as i32;
    let mut points: Vec<(usize, usize)> = Vec::new();
    while x != tx || y != ty
        invariant
            0 <= x <= i32::MAX,
            0 <= y <= i32::MAX,
            tx == end.0,
            ty == end.1,
            (x <= start.0 && x >= tx) || (x >= start.0 && x <= tx),
            (y <= start.1 && y >= ty) || (y >= start.1 && y <= ty),
            points@.len() + manhattan((x as int, y as int), pos(end)) == manhattan(pos(start), pos(end)),
            points@.len() > 0 ==> points@[0] == start,
            points@.len() == 0 ==> x == start.0 && y == start.1,
            points@.len() > 0 ==> (x as int, y as int) == line_step(pos(points@.last()), pos(end)),
            forall|i: int| 0 <= i < points@.len() - 1 ==> pos(#[trigger] points@[i + 1]) == line_step(pos(points@[i]), pos(end)),
            forall|i: int|
                0 <= i < points@.len() ==> manhattan(pos(#[trigger] points@[i]), pos(end)) == manhattan(pos(start), pos(end)) - i,
            forall|i: int|
                0 <= i < points@.len() ==> between(start.0 as int, (#[trigger] points@[i]).0 as int, end.0 as int) && between(
                    start.1 as int,
                    points@[i].1 as int,
                    end.1 as int,
                ),
        decreases manhattan((x as int, y as int), pos(end)),
    {
        points.push((x as usize, y as usize));
        let ax: i32 = if x >= tx { x - tx } else { tx - x };
        let ay: i32 = if y >= ty { y - ty } else { ty - y };
        if ax > ay {
            x = if tx > x { x + 1 } else { x - 1 };
        } else {
            y = if ty > y { y + 1 } else { y - 1 };
        }
    }
    points.push((tx as usize, ty as usize));
    points
}

impl<C: Cell> Grid<C> {
    /// The cell at an in-bounds `(x, y)`.
    pub fn cell(&self, x: usize, y: usize) -> (r: C)
        requires
            self.wf(),
            x < self.w(),
            y < self.h(),
        ensures
            r == self.at(x as int, y as int),
    {
        let i = self.index_of(x, y);
        self.cells[i]
    }

    /// Writes `cell` at every position.
    pub fn fill(&mut self, cell: C)
        requires
            old(self).wf(),
        ensures
            final(self).wf(),
            final(self).w() == old(self).w(),
            final(self).h() == old(self).h(),
            forall|x: int, y: int| final(self).contains(x, y) ==> #[trigger] final(self).at(x, y) == cell,
    {
        let n = self.cells.len();
        let mut i: usize = 0;
        while i < n
            invariant
                i <= n,
                n == self.cells@.len(),
                self.width == old(self).width,
                self.height == old(self).height,
                self.cells@.len() == old(self).cells@.len(),
                forall|j: int| 0 <= j < i ==> self.cells@[j] == cell,
            decreases n - i,
        {
            self.cells.set(i, cell);
            i = i + 1;
        }
        proof {
            assert forall|x: int, y: int| self.contains(x, y) implies #[trigger] self.at(x, y) == cell by {
                lemma_cell_index_bounds(self.width as int, self.height as int, x, y);
            }
        }
    }

    /// Writes `cell` at every in-bounds position of the `w` by `h` rectangle
    /// whose top-left corner is `(x, y)`.
    pub fn fill_rect(&mut self, x: i32, y: i32, w: usize, h: usize, cell: C)
        requires
            old(self).wf(),
            w <= 0x8000_0000,
            h <= 0x8000_0000,
            x + w <= 0x8000_0000,
            y + h <= 0x8000_0000,
        ensures
            final(self).wf(),
            final(self).w() == old(self).w(),
            final(self).h() == old(self).h(),
            forall|px: int, py: int|
                old(self).contains(px, py) ==> #[trigger] final(self).at(px, py) == if x <= px < x + w
                    && y <= py < y + h {
                    cell
                } else {
                    old(self).at(px, py)
                },
    {
        let ghost g0 = *self;
        let mut dy: usize = 0;
        while dy < h
            invariant
                dy <= h,
                h <= 0x8000_0000,
                w <= 0x8000_0000,
                x + w <= 0x8000_0000,
                y + h <= 0x8000_0000,
                self.wf(),
                self.w() == g0.w(),
                self.h() == g0.h(),
                forall|px: int, py: int|
                    g0.contains(px, py) ==> #[trigger] self.at(px, py) == if x <= px < x + w && y <= py
                        < y + dy {
                        cell
                    } else {
                        g0.at(px, py)
                    },
            decreases h - dy,
        {
            let mut dx: usize = 0;
            while dx < w
                invariant
                    dx <= w,
                    dy < h,
                    h <= 0x8000_0000,
                    w <= 0x8000_0000,
                    x + w <= 0x8000_0000,
                    y + h <= 0x8000_0000,
                    self.wf(),
                    self.w() == g0.w(),
                    self.h() == g0.h(),
                    forall|px: int, py: int|
                        g0.contains(px, py) ==> #[trigger] self.at(px, py) == if (x <= px < x + w && y
                            <= py < y + dy) || (x <= px < x + dx && py == y + dy) {
                            cell
                        } else {
                            g0.at(px, py)
                        },
                decreases w - dx,
            {
                self.set(x + dx as i32, y + dy as i32, cell);
                dx = dx + 1;
            }
            dy = dy + 1;
        }
    }

    /// Number of passable cells.
    pub fn count_passable(&self) -> (r: usize)
        requires
            self.wf(),
        ensures
            r == self.passable_count(),
    {
        let n = self.cells.len();
        let mut k: usize = 0;
        let mut i: usize = 0;
        while i < n
            invariant
                i <= n,
                n == self.cells@.len(),
                k == Self::passable_prefix(self.cells@, i as int),
                k <= i,
            decreases n - i,
        {
            if self.cells[i].is_passable() {
                k = k + 1;
            }
            i = i + 1;
        }
        k
    }

    /// Number of cells for which `predicate` holds.
    pub fn count<F: Fn(&C) -> bool>(&self, predicate: F) -> (r: usize)
        requires
            self.wf(),
            forall|c: &C| predicate.requires((c,)),
        ensures
            exists|bs: Seq<bool>|
                {
                    &&& bs.len() == self.cells().len()
                    &&& forall|i: int| 0 <= i < bs.len() ==> predicate.ensures((&self.cells()[i],), #[trigger] bs[i])
                    &&& r == count_true(bs)
                },
    {
        let n = self.cells.len();
        let mut k: usize = 0;
        let mut i: usize = 0;
        let ghost mut bs: Seq<bool> = Seq::empty();
        while i < n
            invariant
                i <= n,
                n == self.cells@.len(),
                forall|c: &C| predicate.requires((c,)),
                bs.len() == i,
                forall|j: int| 0 <= j < i ==> predicate.ensures((&self.cells@[j],), #[trigger] bs[j]),
                k == count_true(bs),
                k <= i,
            decreases n - i,
        {
            let b = predicate(&self.cells[i]);
            proof {
                let old_bs = bs;
                bs = bs.push(b);
                assert(bs.drop_last() =~= old_bs);
            }
            if b {
                k = k + 1;
            }
            i = i + 1;
        }
        k
    }

    /// Every cell with its position, row by row.
    pub fn iter(&self) -> (r: Vec<(usize, usize, C)>)
        requires
            self.wf(),
        ensures
            r@.len() == self.cells().len(),
            forall|i: int|
                0 <= i < r@.len() ==> #[trigger] r@[i] == ((i % self.w() as int) as usize, (i
                    / self.w() as int) as usize, self.cells()[i]),
    {
        let n = self.cells.len();
        let mut out: Vec<(usize, usize, C)> = Vec::with_capacity(n);
        let mut i: usize = 0;
        while i < n
            invariant
                i <= n,
                n == self.cells@.len(),
                n == self.width * self.height,
                out@.len() == i,
                forall|j: int|
                    0 <= j < i ==> #[trigger] out@[j] == ((j % self.width as int) as usize, (j
                        / self.width as int) as usize, self.cells@[j]),
            decreases n - i,
        {
            proof {
                if self.width == 0 {
                    assert(n == 0) by (nonlinear_arith)
                        requires
                            n == self.width * self.height,
                            self.width == 0,
                    ;
                }
            }
            let x = i % self.width;
            let y = i / self.width;
            out.push((x, y, self.cells[i]));
            i = i + 1;
        }
        out
    }

    /// A separate grid with the same shape and cells.
    pub fn duplicate(&self) -> (g: Grid<C>)
        requires
            self.wf(),
        ensures
            g.wf(),
            g.w() == self.w(),
            g.h() == self.h(),
            g.cells() == self.cells(),
    {
        let n = self.cells.len();
        let mut cells: Vec<C> = Vec::with_capacity(n);
        let mut i: usize = 0;
        while i < n
            invariant
                i <= n,
                n == self.cells@.len(),
                cells@ == self.cells@.subrange(0, i as int),
            decreases n - i,
        {
            cells.push(self.cells[i]);
            i = i + 1;
        }
        Grid { width: self.width, height: self.height, cells }
    }

    /// Writes `cell` at the in-bounds position `(x, y)`.
    pub(crate) fn set_at(&mut self, x: usize, y: usize, cell: C)
        requires
            old(self).wf(),
            x < old(self).w(),
            y < old(self).h(),
        ensures
            final(self).wf(),
            final(self).w() == old(self).w(),
            final(self).h() == old(self).h(),
            final(self).cells() == old(self).cells().update(cell_index(old(self).w() as int, x as int, y as int), cell),
            forall|px: int, py: int|
                old(self).contains(px, py) ==> #[trigger] final(self).at(px, py) == if px == x && py == y {
                    cell
                } else {
                    old(self).at(px, py)
                },
    {
        let i = self.index_of(x, y);
        self.cells.set(i, cell);
        proof {
            assert forall|px: int, py: int| old(self).contains(px, py) implies #[trigger] self.at(px, py) == if px
                == x && py == y {
                cell
            } else {
                old(self).at(px, py)
            } by {
                lemma_cell_index_bounds(self.width as int, self.height as int, px, py);
                if cell_index(self.width as int, px, py) == i as int {
                    lemma_cell_index_injective(self.width as int, px, py, x as int, y as int);
                }
            }
        }
    }

    /// A `width` by `height` grid holding `cells`, row by row.
    pub(crate) fn from_cells(width: usize, height: usize, cells: Vec<C>) -> (g: Grid<C>)
        requires
            cells@.len() == width * height,
            width * height <= usize::MAX,
        ensures
            g.wf(),
            g.w() == width,
            g.h() == height,
            g.cells() == cells@,
    {
        Grid { width, height, cells }
    }

    /// A grid whose cell at every position is the entry of `t` at that
    /// position's row-major index holds exactly `t`.
    pub proof fn lemma_cells_match(&self, t: Seq<C>)
        requires
            self.wf(),
            t.len() == self.cells().len(),
            forall|x: int, y: int| self.contains(x, y) ==> #[trigger] self.at(x, y) == t[cell_index(self.w() as int, x, y)],
        ensures
            self.cells() == t,
    {
        let w = self.w() as int;
        let h = self.h() as int;
        assert forall|i: int| 0 <= i < t.len() implies self.cells()[i] == t[i] by {
            if w == 0 {
                assert(w * h == 0) by (nonlinear_arith)
                    requires
                        w == 0,
                ;
            }
            lemma_cell_index_decompose(w, h, i);
            assert(self.at(i % w, i / w) == t[i]);
        }
        assert(self.cells() =~= t);
    }

    /// In-bounds 4-neighbours of `(x, y)`: west, east, north, south.
    pub fn neighbors_4(&self, x: usize, y: usize) -> (r: Vec<(usize, usize)>)
        ensures
            r@ == neighbors4_spec(x as int, y as int, self.w() as int, self.h() as int),
    {
        let (w, h) = (self.width, self.height);
        let mut n: Vec<(usize, usize)> = Vec::with_capacity(4);
        if x > 0 {
            n.push((x - 1, y));
        }
        if x < w && x + 1 < w {
            n.push((x + 1, y));
        }
        if y > 0 {
            n.push((x, y - 1));
        }
        if y < h && y + 1 < h {
            n.push((x, y + 1));
        }
        assert(n@ =~= neighbors4_spec(x as int, y as int, w as int, h as int));
        n
    }

    /// In-bounds 8-neighbours of `(x, y)`, row by row from the north.
    pub fn neighbors_8(&self, x: usize, y: usize) -> (r: Vec<(usize, usize)>)
        ensures
            r@ == neighbors8_spec(x as int, y as int, self.w() as int, self.h() as int),
    {
        let (w, h) = (self.width, self.height);
        let mut n: Vec<(usize, usize)> = Vec::with_capacity(8);
        push_offset(&mut n, x, y, -1, -1, w, h);
        push_offset(&mut n, x, y, 0, -1, w, h);
        push_offset(&mut n, x, y, 1, -1, w, h);
        push_offset(&mut n, x, y, -1, 0, w, h);
        push_offset(&mut n, x, y, 1, 0, w, h);
        push_offset(&mut n, x, y, -1, 1, w, h);
        push_offset(&mut n, x, y, 0, 1, w, h);
        push_offset(&mut n, x, y, 1, 1, w, h);
        assert(n@ =~= neighbors8_spec(x as int, y as int, w as int, h as int));
        n
    }
}


/// `a` and `b` differ by one step along exactly one axis.
pub open spec fn adjacent4(a: (int, int), b: (int, int)) -> bool {
    ||| (a.0 == b.0 && (a.1 == b.1 + 1 || b.1 == a.1 + 1))
    ||| (a.1 == b.1 && (a.0 == b.0 + 1 || b.0 == a.0 + 1))
}

impl<C: Cell> Grid<C> {
    /// `p` lies inside the grid on a passable cell.
    pub open spec fn open_at(&self, p: (int, int)) -> bool {
        self.contains(p.0, p.1) && self.at(p.0, p.1).passable()
    }

    /// A non-empty walk over passable cells, each step to a 4-neighbour.
    pub open spec fn is_walk(&self, p: Seq<(int, int)>) -> bool {
        &&& p.len() > 0
        &&& forall|i: int| 0 <= i < p.len() ==> self.open_at(#[trigger] p[i])
        &&& forall|i: int| 0 <= i < p.len() - 1 ==> adjacent4(#[trigger] p[i], p[i + 1])
    }

    /// A walk over passable cells leads from `a` to `b`.
    pub open spec fn connected(&self, a: (int, int), b: (int, int)) -> bool {
        exists|p: Seq<(int, int)>| #[trigger] self.is_walk(p) && p[0] == a && p.last() == b
    }

    /// A walk over passable cells that never enters `c` leads from `a` to `b`.
    pub open spec fn connected_avoiding(&self, a: (int, int), b: (int, int), c: (int, int)) -> bool {
        exists|p: Seq<(int, int)>|
            #[trigger] self.is_walk(p) && p[0] == a && p.last() == b && forall|i: int| 0 <= i < p.len() ==> p[i] != c
    }

    /// Walling off `c` leaves exactly the walks that avoid it.
    pub proof fn lemma_blocked_connected(&self, blocked: &Grid<C>, c: (int, int), a: (int, int), b: (int, int))
        requires
            blocked.w() == self.w(),
            blocked.h() == self.h(),
            forall|x: int, y: int|
                self.contains(x, y) ==> (#[trigger] blocked.at(x, y)).passable() == (self.at(x, y).passable() && (
                x,
                y,
            ) != c),
        ensures
            blocked.connected(a, b) == self.connected_avoiding(a, b, c),
    {
        if blocked.connected(a, b) {
            let p = choose|p: Seq<(int, int)>| #[trigger] blocked.is_walk(p) && p[0] == a && p.last() == b;
            assert forall|i: int| 0 <= i < p.len() implies self.open_at(#[trigger] p[i]) && p[i] != c by {
                assert(blocked.open_at(p[i]));
                assert(blocked.at(p[i].0, p[i].1).passable());
            }
            assert(self.is_walk(p));
        }
        if self.connected_avoiding(a, b, c) {
            let p = choose|p: Seq<(int, int)>|
                #[trigger] self.is_walk(p) && p[0] == a && p.last() == b && forall|i: int| 0 <= i < p.len() ==> p[i] != c;
            assert forall|i: int| 0 <= i < p.len() implies blocked.open_at(#[trigger] p[i]) by {
                assert(self.open_at(p[i]));
                assert(p[i] != c);
                assert(self.at(p[i].0, p[i].1).passable());
            }
            assert(blocked.is_walk(p));
        }
    }

    /// Whether the mark of position `p` is set in a row-major mark vector.
    pub open spec fn marked(&self, vs: Seq<bool>, p: (int, int)) -> bool {
        vs[cell_index(self.w() as int, p.0, p.1)]
    }

    /// Every marked position is passable, and so are, marked, its passable 4-neighbours.
    pub open spec fn marks_closed(&self, vs: Seq<bool>) -> bool {
        forall|p: (int, int)|
            self.contains(p.0, p.1) && #[trigger] self.marked(vs, p) ==> {
                &&& self.open_at(p)
                &&& forall|q: (int, int)| adjacent4(p, q) && self.open_at(q) ==> #[trigger] self.marked(vs, q)
            }
    }

    pub proof fn lemma_connected_refl(&self, a: (int, int))
        requires
            self.open_at(a),
        ensures
            self.connected(a, a),
    {
        let p = seq![a];
        assert(self.is_walk(p));
    }

    pub proof fn lemma_connected_step(&self, a: (int, int), b: (int, int), c: (int, int))
        requires
            self.connected(a, b),
            adjacent4(b, c),
            self.open_at(c),
        ensures
            self.connected(a, c),
    {
        let p = choose|p: Seq<(int, int)>| #[trigger] self.is_walk(p) && p[0] == a && p.last() == b;
        let q = p.push(c);
        assert forall|i: int| 0 <= i < q.len() - 1 implies adjacent4(#[trigger] q[i], q[i + 1]) by {
            if i < p.len() - 1 {
                assert(q[i] == p[i] && q[i + 1] == p[i + 1]);
            }
        }
        assert(self.is_walk(q));
    }

    pub proof fn lemma_connected_symmetric(&self, a: (int, int), b: (int, int))
        requires
            self.connected(a, b),
        ensures
            self.connected(b, a),
    {
        let p = choose|p: Seq<(int, int)>| #[trigger] self.is_walk(p) && p[0] == a && p.last() == b;
        let q = p.reverse();
        assert forall|i: int| 0 <= i < q.len() implies self.open_at(#[trigger] q[i]) by {
            assert(q[i] == p[p.len() - 1 - i]);
        }
        assert forall|i: int| 0 <= i < q.len() - 1 implies adjacent4(#[trigger] q[i], q[i + 1]) by {
            let j = p.len() - 2 - i;
            assert(q[i] == p[j + 1] && q[i + 1] == p[j]);
            assert(adjacent4(p[j], p[j + 1]));
        }
        assert(self.is_walk(q));
    }

    /// A walk that starts on a marked cell stays on marked cells when the marks are closed.
    pub proof fn lemma_walk_marked(&self, vs: Seq<bool>, p: Seq<(int, int)>)
        requires
            self.marks_closed(vs),
            self.is_walk(p),
            self.marked(vs, p[0]),
        ensures
            forall|i: int| 0 <= i < p.len() ==> #[trigger] self.marked(vs, p[i]),
    {
        assert forall|i: int| 0 <= i < p.len() implies #[trigger] self.marked(vs, p[i]) by {
            self.lemma_walk_marked_upto(vs, p, i);
        }
    }

    proof fn lemma_walk_marked_upto(&self, vs: Seq<bool>, p: Seq<(int, int)>, i: int)
        requires
            self.marks_closed(vs),
            self.is_walk(p),
            self.marked(vs, p[0]),
            0 <= i < p.len(),
        ensures
            self.marked(vs, p[i]),
        decreases i,
    {
        if i > 0 {
            self.lemma_walk_marked_upto(vs, p, i - 1);
            assert(self.open_at(p[i - 1]));
            assert(adjacent4(p[i - 1], p[i]));
            assert(self.open_at(p[i]));
        }
    }

    /// The passable in-bounds 4-neighbours of `t`: west, east, north, south.
    pub open spec fn open_neighbors4(&self, t: (usize, usize)) -> Seq<(usize, usize)> {
        let x = t.0 as int;
        let y = t.1 as int;
        (if x > 0 && self.open_at((x - 1, y)) { seq![((x - 1) as usize, t.1)] } else { seq![] })
        + (if x + 1 < self.w() && self.open_at((x + 1, y)) { seq![((x + 1) as usize, t.1)] } else { seq![] })
        + (if y > 0 && self.open_at((x, y - 1)) { seq![(t.0, (y - 1) as usize)] } else { seq![] })
        + (if y + 1 < self.h() && self.open_at((x, y + 1)) { seq![(t.0, (y + 1) as usize)] } else { seq![] })
    }

    /// Each listed neighbour is passable and a 4-neighbour of `t`.
    pub proof fn lemma_open_neighbors4(&self, t: (usize, usize))
        ensures
            forall|k: int|
                0 <= k < self.open_neighbors4(t).len() ==> self.open_at(pos(#[trigger] self.open_neighbors4(t)[k]))
                    && adjacent4(pos(t), pos(self.open_neighbors4(t)[k])),
    {
    }

    /// What a depth-first search from `s` keeps true between steps: the
    /// marks `vs` are the starting marks `old_vs` plus the found `cells`,
    /// and every passable neighbour of a found cell is marked or waiting on
    /// the `stack`.
    #[verifier::opaque]
    pub closed spec fn dfs_inv(
        &self,
        old_vs: Seq<bool>,
        s: (int, int),
        vs: Seq<bool>,
        stack: Seq<(usize, usize)>,
        cells: Seq<(usize, usize)>,
    ) -> bool {
        &&& self.wf()
        &&& vs.len() == old_vs.len() == self.cells().len()
        &&& self.marks_closed(old_vs)
        &&& !self.marked(old_vs, s)
        &&& self.open_at(s)
        &&& cells.len() == 0 ==> stack == seq![(s.0 as usize, s.1 as usize)] && vs == old_vs
        &&& cells.len() > 0 ==> pos(cells[0]) == s
        &&& forall|k: int|
            0 <= k < stack.len() ==> self.open_at(pos(#[trigger] stack[k])) && self.connected(s, pos(stack[k]))
        &&& forall|k: int|
            0 <= k < cells.len() ==> self.open_at(pos(#[trigger] cells[k])) && self.connected(s, pos(cells[k]))
                && self.marked(vs, pos(cells[k])) && !self.marked(old_vs, pos(cells[k]))
        &&& forall|k1: int, k2: int| 0 <= k1 < k2 < cells.len() ==> #[trigger] cells[k1] != #[trigger] cells[k2]
        &&& forall|p: (int, int)|
            self.contains(p.0, p.1) && #[trigger] self.marked(vs, p) ==> self.marked(old_vs, p) || holds_pos(cells, p)
        &&& forall|p: (int, int)| self.contains(p.0, p.1) && self.marked(old_vs, p) ==> #[trigger] self.marked(vs, p)
        &&& forall|p: (int, int), q: (int, int)|
            self.contains(p.0, p.1) && #[trigger] self.marked(vs, p) && !self.marked(old_vs, p) && adjacent4(p, q)
                && self.open_at(q) ==> #[trigger] self.marked(vs, q) || holds_pos(stack, q)
    }

    proof fn lemma_dfs_init(&self, old_vs: Seq<bool>, s: (int, int))
        requires
            self.wf(),
            old_vs.len() == self.cells().len(),
            self.marks_closed(old_vs),
            !self.marked(old_vs, s),
            self.open_at(s),
        ensures
            self.dfs_inv(old_vs, s, old_vs, seq![(s.0 as usize, s.1 as usize)], seq![]),
    {
        reveal(Grid::dfs_inv);
        self.lemma_connected_refl(s);
        assert(pos(seq![(s.0 as usize, s.1 as usize)][0]) == s);
    }

    proof fn lemma_dfs_facts(
        &self,
        old_vs: Seq<bool>,
        s: (int, int),
        vs: Seq<bool>,
        stack: Seq<(usize, usize)>,
        cells: Seq<(usize, usize)>,
    )
        requires
            self.dfs_inv(old_vs, s, vs, stack, cells),
        ensures
            self.wf(),
            vs.len() == self.cells().len(),
            forall|k: int| 0 <= k < stack.len() ==> self.open_at(pos(#[trigger] stack[k])),
            cells.len() == 0 ==> stack.len() == 1 && pos(stack[0]) == s && vs == old_vs,
            !self.marked(old_vs, s),
    {
        reveal(Grid::dfs_inv);
    }

    /// Popping an already marked cell keeps the invariant.
    proof fn lemma_dfs_skip(
        &self,
        old_vs: Seq<bool>,
        s: (int, int),
        vs: Seq<bool>,
        stack: Seq<(usize, usize)>,
        cells: Seq<(usize, usize)>,
    )
        requires
            self.dfs_inv(old_vs, s, vs, stack, cells),
            stack.len() > 0,
            self.marked(vs, pos(stack.last())),
        ensures
            cells.len() > 0,
            self.dfs_inv(old_vs, s, vs, stack.drop_last(), cells),
    {
        reveal(Grid::dfs_inv);
        lemma_holds_pop(stack);
        let d = stack.drop_last();
        assert forall|k: int| 0 <= k < d.len() implies self.open_at(pos(#[trigger] d[k])) && self.connected(
            s,
            pos(d[k]),
        ) by {
            assert(d[k] == stack[k]);
        }
        assert forall|p: (int, int), q: (int, int)|
            self.contains(p.0, p.1) && #[trigger] self.marked(vs, p) && !self.marked(old_vs, p) && adjacent4(p, q)
                && self.open_at(q) implies #[trigger] self.marked(vs, q) || holds_pos(d, q) by {
            if !self.marked(vs, q) {
                assert(holds_pos(stack, q));
                assert(pos(stack.last()) != q);
            }
        }
    }

    /// Marking the popped cell, recording it, and pushing its passable
    /// neighbours keeps the invariant.
    #[verifier::spinoff_prover]
    #[verifier::rlimit(40)]
    proof fn lemma_dfs_visit(
        &self,
        old_vs: Seq<bool>,
        s: (int, int),
        vs: Seq<bool>,
        stack: Seq<(usize, usize)>,
        cells: Seq<(usize, usize)>,
    )
        requires
            self.dfs_inv(old_vs, s, vs, stack, cells),
            stack.len() > 0,
            !self.marked(vs, pos(stack.last())),
        ensures
            self.dfs_inv(
                old_vs,
                s,
                vs.update(cell_index(self.w() as int, stack.last().0 as int, stack.last().1 as int), true),
                stack.drop_last() + self.open_neighbors4(stack.last()),
                cells.push(stack.last()),
            ),
    {
        reveal(Grid::dfs_inv);
        let top = stack.last();
        let t = pos(top);
        let w = self.w() as int;
        let h = self.h() as int;
        let i = cell_index(w, t.0, t.1);
        let vs1 = vs.update(i, true);
        let mid = stack.drop_last();
        let nb = self.open_neighbors4(top);
        let st = mid + nb;
        let cells1 = cells.push(top);
        assert(self.open_at(t));
        assert(self.connected(s, t));
        lemma_cell_index_bounds(w, h, t.0, t.1);
        assert forall|p: (int, int)| self.contains(p.0, p.1) implies #[trigger] self.marked(vs1, p) == (self.marked(vs, p)
            || p == t) by {
            lemma_cell_index_bounds(w, h, p.0, p.1);
            if cell_index(w, p.0, p.1) == i {
                lemma_cell_index_injective(w, p.0, p.1, t.0, t.1);
            }
        }
        lemma_holds_pop(stack);
        lemma_holds_push(cells, top);
        // the neighbours pushed are passable, connected to `s`, and all of them are on the new stack
        assert forall|k: int| 0 <= k < nb.len() implies self.open_at(pos(#[trigger] nb[k])) && adjacent4(t, pos(nb[k])) by {
        }
        assert forall|k: int| 0 <= k < st.len() implies self.open_at(pos(#[trigger] st[k])) && self.connected(
            s,
            pos(st[k]),
        ) by {
            if k < mid.len() {
                assert(st[k] == stack[k]);
            } else {
                assert(st[k] == nb[k - mid.len()]);
                self.lemma_connected_step(s, t, pos(nb[k - mid.len()]));
            }
        }
        assert forall|q: (int, int)| holds_pos(mid, q) implies holds_pos(st, q) by {
            let k = choose|k: int| 0 <= k < mid.len() && pos(#[trigger] mid[k]) == q;
            assert(st[k] == mid[k]);
        }
        assert forall|q: (int, int)| adjacent4(t, q) && self.open_at(q) implies holds_pos(st, q) by {
            let x = t.0;
            let y = t.1;
            let a = if x > 0 && self.open_at((x - 1, y)) { seq![((x - 1) as usize, top.1)] } else { seq![] };
            let b = if x + 1 < w && self.open_at((x + 1, y)) { seq![((x + 1) as usize, top.1)] } else { seq![] };
            let c = if y > 0 && self.open_at((x, y - 1)) { seq![(top.0, (y - 1) as usize)] } else { seq![] };
            let d = if y + 1 < h && self.open_at((x, y + 1)) { seq![(top.0, (y + 1) as usize)] } else { seq![] };
            assert(nb == a + b + c + d);
            let m = mid.len() as int;
            if q == (x - 1, y) {
                assert(pos(st[m]) == q);
            } else if q == (x + 1, y) {
                assert(pos(st[m + a.len()]) == q);
            } else if q == (x, y - 1) {
                assert(pos(st[m + a.len() + b.len()]) == q);
            } else {
                assert(q == (x, y + 1));
                assert(pos(st[m + a.len() + b.len() + c.len()]) == q);
            }
        }
        assert forall|p: (int, int), q: (int, int)|
            self.contains(p.0, p.1) && #[trigger] self.marked(vs1, p) && !self.marked(old_vs, p) && adjacent4(p, q)
                && self.open_at(q) implies #[trigger] self.marked(vs1, q) || holds_pos(st, q) by {
            if p != t {
                assert(self.marked(vs, p));
                if !self.marked(vs, q) {
                    assert(holds_pos(stack, q));
                    if q != t {
                        assert(holds_pos(mid, q));
                    }
                }
            }
        }
        assert forall|k: int| 0 <= k < cells1.len() implies self.open_at(pos(#[trigger] cells1[k])) && self.connected(
            s,
            pos(cells1[k]),
        ) && self.marked(vs1, pos(cells1[k])) && !self.marked(old_vs, pos(cells1[k])) by {
            if k < cells.len() {
                assert(cells1[k] == cells[k]);
            }
        }
        assert forall|k1: int, k2: int| 0 <= k1 < k2 < cells1.len() implies #[trigger] cells1[k1]
            != #[trigger] cells1[k2] by {
            assert(cells1[k1] == cells[k1]);
            if k2 == cells.len() {
                assert(self.marked(vs, pos(cells[k1])));
            } else {
                assert(cells1[k2] == cells[k2]);
            }
        }
        if cells.len() == 0 {
            assert(pos(cells1[0]) == s);
        } else {
            assert(cells1[0] == cells[0]);
        }
    }

    /// When the stack is empty the found cells are exactly the cells
    /// connected to `s`.
    proof fn lemma_dfs_done(
        &self,
        old_vs: Seq<bool>,
        s: (int, int),
        vs: Seq<bool>,
        cells: Seq<(usize, usize)>,
    )
        requires
            self.dfs_inv(old_vs, s, vs, seq![], cells),
        ensures
            vs.len() == old_vs.len(),
            self.marks_closed(vs),
            cells.len() > 0,
            pos(cells[0]) == s,
            forall|p: (int, int)|
                self.contains(p.0, p.1) ==> (#[trigger] self.marked(vs, p) == (self.marked(old_vs, p)
                    || self.connected(s, p))),
            forall|k: int| 0 <= k < cells.len() ==> self.connected(s, pos(#[trigger] cells[k])),
            forall|p: (int, int)| #[trigger] self.connected(s, p) ==> holds_pos(cells, p),
            forall|k1: int, k2: int| 0 <= k1 < k2 < cells.len() ==> #[trigger] cells[k1] != #[trigger] cells[k2],
    {
        reveal(Grid::dfs_inv);
        let empty: Seq<(usize, usize)> = seq![];
        assert(cells.len() > 0) by {
            if cells.len() == 0 {
                assert(empty.len() == 0);
            }
        }
        assert forall|p: (int, int)| self.contains(p.0, p.1) && #[trigger] self.marked(vs, p) implies {
            &&& self.open_at(p)
            &&& forall|q: (int, int)| adjacent4(p, q) && self.open_at(q) ==> #[trigger] self.marked(vs, q)
        } by {
            if !self.marked(old_vs, p) {
                let k = choose|k: int| 0 <= k < cells.len() && pos(#[trigger] cells[k]) == p;
                assert(self.open_at(pos(cells[k])));
                assert forall|q: (int, int)| adjacent4(p, q) && self.open_at(q) implies #[trigger] self.marked(vs, q) by {
                    if !self.marked(vs, q) {
                        assert(holds_pos(empty, q));
                    }
                }
            }
        }
        assert(self.marks_closed(vs));
        assert(self.marked(vs, pos(cells[0])));
        assert forall|p: (int, int)| #[trigger] self.connected(s, p) implies self.marked(vs, p)
            && !self.marked(old_vs, p) by {
            let wk = choose|wk: Seq<(int, int)>| #[trigger] self.is_walk(wk) && wk[0] == s && wk.last() == p;
            self.lemma_walk_marked(vs, wk);
            assert(self.marked(vs, wk[wk.len() - 1]));
            if self.marked(old_vs, p) {
                self.lemma_connected_symmetric(s, p);
                let wr = choose|wr: Seq<(int, int)>| #[trigger] self.is_walk(wr) && wr[0] == p && wr.last() == s;
                assert(self.open_at(wk[wk.len() - 1]));
                self.lemma_walk_marked(old_vs, wr);
                assert(self.marked(old_vs, wr[wr.len() - 1]));
            }
        }
        assert forall|p: (int, int)| #[trigger] self.connected(s, p) implies holds_pos(cells, p) by {
            assert(self.marked(vs, p) && !self.marked(old_vs, p));
            let wk = choose|wk: Seq<(int, int)>| #[trigger] self.is_walk(wk) && wk[0] == s && wk.last() == p;
            assert(self.open_at(wk[wk.len() - 1]));
        }
        assert forall|p: (int, int)| self.contains(p.0, p.1) implies (#[trigger] self.marked(vs, p) == (
        self.marked(old_vs, p) || self.connected(s, p))) by {
            if self.marked(vs, p) && !self.marked(old_vs, p) {
                let k = choose|k: int| 0 <= k < cells.len() && pos(#[trigger] cells[k]) == p;
                assert(self.connected(s, pos(cells[k])));
            }
        }
    }

    /// Depth-first search from `(sx, sy)` over passable 4-neighbours, skipping
    /// marked cells; marks and returns the cells reached in visiting order.
    fn explore(&self, visited: &mut Vec<bool>, sx: usize, sy: usize) -> (cells: Vec<(usize, usize)>)
        requires
            self.wf(),
            old(visited)@.len() == self.cells().len(),
            sx < self.w(),
            sy < self.h(),
            self.at(sx as int, sy as int).passable(),
            !self.marked(old(visited)@, (sx as int, sy as int)),
            self.marks_closed(old(visited)@),
        ensures
            final(visited)@.len() == old(visited)@.len(),
            self.marks_closed(final(visited)@),
            cells@.len() > 0,
            cells@[0] == (sx, sy),
            forall|p: (int, int)|
                self.contains(p.0, p.1) ==> (#[trigger] self.marked(final(visited)@, p) == (self.marked(
                    old(visited)@,
                    p,
                ) || self.connected((sx as int, sy as int), p))),
            forall|k: int| 0 <= k < cells@.len() ==> self.connected((sx as int, sy as int), pos(#[trigger] cells@[k])),
            forall|p: (int, int)|
                #[trigger] self.connected((sx as int, sy as int), p) ==> holds_pos(cells@, p),
            forall|k1: int, k2: int|
                0 <= k1 < k2 < cells@.len() ==> #[trigger] cells@[k1] != #[trigger] cells@[k2],
    {
        let ghost old_vs = visited@;
        let ghost s = (sx as int, sy as int);
        let w = self.width;
        let h = self.height;
        let n = self.cells.len();
        let mut stack: Vec<(usize, usize)> = Vec::new();
        stack.push((sx, sy));
        let mut cells: Vec<(usize, usize)> = Vec::new();
        proof {
            self.lemma_dfs_init(old_vs, s);
            assert(stack@ == seq![(s.0 as usize, s.1 as usize)]);
            lemma_count_true_bound(visited@);
        }
        while stack.len() > 0
            invariant
                w == self.w(),
                h == self.h(),
                n == self.cells().len(),
                visited@.len() == n,
                count_true(visited@) <= n,
                self.dfs_inv(old_vs, s, visited@, stack@, cells@),
            decreases 5 * (n - count_true(visited@)) + stack@.len(),
        {
            proof {
                self.lemma_dfs_facts(old_vs, s, visited@, stack@, cells@);
            }
            let ghost st0 = stack@;
            let top = stack.pop().unwrap();
            let x = top.0;
            let y = top.1;
            assert(self.open_at(pos(st0[st0.len() - 1])));
            let i = self.index_of(x, y);
            if visited[i] {
                proof {
                    self.lemma_dfs_skip(old_vs, s, visited@, st0, cells@);
                }
                continue;
            }
            proof {
                self.lemma_dfs_visit(old_vs, s, visited@, st0, cells@);
                lemma_count_true_flip(visited@, i as int);
            }
            visited.set(i, true);
            proof {
                lemma_count_true_bound(visited@);
            }
            cells.push((x, y));
            let ghost mid = stack@;
            if x > 0 && self.cells[self.index_of(x - 1, y)].is_passable() {
                stack.push((x - 1, y));
            }
            let ghost st1 = stack@;
            if x + 1 < w && self.cells[self.index_of(x + 1, y)].is_passable() {
                stack.push((x + 1, y));
            }
            let ghost st2 = stack@;
            if y > 0 && self.cells[self.index_of(x, y - 1)].is_passable() {
                stack.push((x, y - 1));
            }
            let ghost st3 = stack@;
            if y + 1 < h && self.cells[self.index_of(x, y + 1)].is_passable() {
                stack.push((x, y + 1));
            }
            proof {
                let nb = self.open_neighbors4(top);
                assert(stack@ =~= mid + nb);
            }
        }
        proof {
            assert(stack@ =~= seq![]);
            self.lemma_dfs_done(old_vs, s, visited@, cells@);
        }
        cells
    }
}

impl<C: Cell> Grid<C> {
    /// `reg` lists, without repeats, exactly the cells connected to its first cell.
    pub open spec fn is_component(&self, reg: Seq<(usize, usize)>) -> bool {
        &&& reg.len() > 0
        &&& forall|k: int| 0 <= k < reg.len() ==> self.connected(pos(reg[0]), pos(#[trigger] reg[k]))
        &&& forall|p: (int, int)| #[trigger] self.connected(pos(reg[0]), p) ==> holds_pos(reg, p)
        &&& forall|k1: int, k2: int| 0 <= k1 < k2 < reg.len() ==> #[trigger] reg[k1] != #[trigger] reg[k2]
    }

    /// Row-major index of a point of this grid.
    pub open spec fn index_at(&self, p: (usize, usize)) -> int {
        cell_index(self.w() as int, p.0 as int, p.1 as int)
    }

    /// No position is marked in an all-`false` mark vector.
    proof fn lemma_no_marks_closed(&self, vs: Seq<bool>)
        requires
            self.wf(),
            vs.len() == self.cells().len(),
            forall|i: int| 0 <= i < vs.len() ==> !vs[i],
        ensures
            self.marks_closed(vs),
            forall|p: (int, int)| self.contains(p.0, p.1) ==> !#[trigger] self.marked(vs, p),
    {
        assert forall|p: (int, int)| self.contains(p.0, p.1) implies !#[trigger] self.marked(vs, p) by {
            lemma_cell_index_bounds(self.w() as int, self.h() as int, p.0, p.1);
        }
    }

    /// A walk of at most `k` steps leads from `a` to `b`.
    pub open spec fn within_steps(&self, a: (int, int), b: (int, int), k: int) -> bool {
        exists|p: Seq<(int, int)>| #[trigger] self.is_walk(p) && p[0] == a && p.last() == b && p.len() <= k + 1
    }

    /// `d` is the length of a shortest walk from `a` to `b`.
    pub open spec fn distance_is(&self, a: (int, int), b: (int, int), d: int) -> bool {
        &&& d >= 0
        &&& self.within_steps(a, b, d)
        &&& d > 0 ==> !self.within_steps(a, b, d - 1)
    }

    /// `r` lists its cells by non-decreasing distance from `s`.
    pub open spec fn in_distance_order(&self, s: (int, int), r: Seq<(usize, usize)>) -> bool {
        exists|lv: Seq<int>|
            #[trigger] lv.len() == r.len() && (forall|i: int, j: int| 0 <= i < j < lv.len() ==> lv[i] <= lv[j]) && (
            forall|i: int| 0 <= i < lv.len() ==> self.distance_is(s, pos(r[i]), lv[i]))
    }

    proof fn lemma_within_mono(&self, a: (int, int), b: (int, int), k: int, m: int)
        requires
            self.within_steps(a, b, k),
            k <= m,
        ensures
            self.within_steps(a, b, m),
    {
        let p = choose|p: Seq<(int, int)>| #[trigger] self.is_walk(p) && p[0] == a && p.last() == b && p.len() <= k + 1;
        assert(self.is_walk(p) && p[0] == a && p.last() == b && p.len() <= m + 1);
    }

    proof fn lemma_within_step(&self, a: (int, int), b: (int, int), c: (int, int), k: int)
        requires
            self.within_steps(a, b, k),
            adjacent4(b, c),
            self.open_at(c),
        ensures
            self.within_steps(a, c, k + 1),
    {
        let p = choose|p: Seq<(int, int)>| #[trigger] self.is_walk(p) && p[0] == a && p.last() == b && p.len() <= k + 1;
        let q = p.push(c);
        assert forall|i: int| 0 <= i < q.len() implies self.open_at(#[trigger] q[i]) by {
            if i < p.len() {
                assert(q[i] == p[i]);
            }
        }
        assert forall|i: int| 0 <= i < q.len() - 1 implies adjacent4(#[trigger] q[i], q[i + 1]) by {
            if i < p.len() - 1 {
                assert(q[i] == p[i] && q[i + 1] == p[i + 1]);
            } else {
                assert(q[i] == b);
            }
        }
        assert(self.is_walk(q) && q[0] == a && q.last() == c && q.len() <= k + 2);
    }

    /// A cell first reached in `k + 1` steps has a 4-neighbour reached in `k`.
    proof fn lemma_within_back(&self, a: (int, int), c: (int, int), k: int) -> (b: (int, int))
        requires
            k >= 0,
            self.within_steps(a, c, k + 1),
            !self.within_steps(a, c, k),
        ensures
            adjacent4(b, c),
            self.open_at(b),
            self.within_steps(a, b, k),
    {
        let p = choose|p: Seq<(int, int)>| #[trigger] self.is_walk(p) && p[0] == a && p.last() == c && p.len() <= k + 2;
        assert(p.len() == k + 2);
        let q = p.drop_last();
        assert forall|i: int| 0 <= i < q.len() implies self.open_at(#[trigger] q[i]) by {
            assert(q[i] == p[i]);
        }
        assert forall|i: int| 0 <= i < q.len() - 1 implies adjacent4(#[trigger] q[i], q[i + 1]) by {
            assert(q[i] == p[i] && q[i + 1] == p[i + 1]);
        }
        assert(self.is_walk(q) && q[0] == a && q.last() == p[k] && q.len() <= k + 1);
        assert(adjacent4(p[k], p[k + 1]));
        assert(self.open_at(p[k]));
        p[k]
    }

    /// Distances are unique.
    proof fn lemma_distance_unique(&self, a: (int, int), b: (int, int), d1: int, d2: int)
        requires
            self.distance_is(a, b, d1),
            self.distance_is(a, b, d2),
        ensures
            d1 == d2,
    {
        if d1 < d2 {
            self.lemma_within_mono(a, b, d1, d2 - 1);
        } else if d2 < d1 {
            self.lemma_within_mono(a, b, d2, d1 - 1);
        }
    }

    /// When no cell is first reached in `k + 1` steps, every cell reached
    /// at all is reached within `k`.
    proof fn lemma_within_closed(&self, a: (int, int), c: (int, int), k: int, m: int)
        requires
            k >= 0,
            forall|p: (int, int)| #[trigger] self.within_steps(a, p, k + 1) ==> self.within_steps(a, p, k),
            self.within_steps(a, c, m),
        ensures
            self.within_steps(a, c, k),
        decreases m - k,
    {
        if m > k && !self.within_steps(a, c, m - 1) {
            let b = self.lemma_within_back(a, c, m - 1);
            self.lemma_within_closed(a, b, k, m - 1);
            self.lemma_within_step(a, b, c, k);
        } else if m > k {
            self.lemma_within_closed(a, c, k, m - 1);
        } else {
            self.lemma_within_mono(a, c, m, k);
        }
    }

    /// The state of a breadth-first search from `s`: `out` holds the found
    /// cells without repeats, each with its distance in `lv` (never
    /// decreasing), and the marks are exactly the found cells.
    spec fn bfs_inv(&self, s: (int, int), vs: Seq<bool>, out: Seq<(usize, usize)>, lv: Seq<int>) -> bool {
        &&& vs.len() == self.cells().len()
        &&& count_true(vs) == out.len()
        &&& lv.len() == out.len()
        &&& out.len() > 0
        &&& pos(out[0]) == s
        &&& forall|i: int| 0 <= i < out.len() ==> self.contains(#[trigger] out[i].0 as int, out[i].1 as int)
        &&& forall|i: int| 0 <= i < out.len() ==> self.distance_is(s, pos(#[trigger] out[i]), lv[i])
        &&& forall|i: int, j: int| 0 <= i < j < out.len() ==> #[trigger] lv[i] <= #[trigger] lv[j]
        &&& forall|i: int, j: int| 0 <= i < j < out.len() ==> #[trigger] out[i] != #[trigger] out[j]
        &&& forall|p: (int, int)| self.contains(p.0, p.1) ==> (#[trigger] self.marked(vs, p) <==> holds_pos(out, p))
    }

    /// Adds `(x, y)` to `out` and marks it, when it is a passable cell not
    /// marked yet.
    fn try_add(&self, visited: &mut Vec<bool>, out: &mut Vec<(usize, usize)>, x: usize, y: usize)
        requires
            self.wf(),
            old(visited)@.len() == self.cells().len(),
            x < self.w(),
            y < self.h(),
        ensures
            final(visited)@.len() == old(visited)@.len(),
            self.open_at((x as int, y as int)) && !self.marked(old(visited)@, (x as int, y as int)) ==> {
                &&& final(out)@ == old(out)@.push((x, y))
                &&& final(visited)@ == old(visited)@.update(cell_index(self.w() as int, x as int, y as int), true)
            },
            !(self.open_at((x as int, y as int)) && !self.marked(old(visited)@, (x as int, y as int))) ==> {
                &&& final(out)@ == old(out)@
                &&& final(visited)@ == old(visited)@
            },
    {
        let i = self.index_of(x, y);
        if self.cells[i].is_passable() && !visited[i] {
            visited.set(i, true);
            out.push((x, y));
        }
    }

    /// One [`Self::try_add`] of a neighbour `q` of a cell `c` at distance
    /// `k` keeps the search state, with `q` at distance `k + 1` when added;
    /// marks only grow, and `q` ends marked when passable.
    proof fn lemma_bfs_after_try(
        &self,
        s: (int, int),
        v0: Seq<bool>,
        o0: Seq<(usize, usize)>,
        lv0: Seq<int>,
        v1: Seq<bool>,
        o1: Seq<(usize, usize)>,
        q: (usize, usize),
        k: int,
        c: (int, int),
    ) -> (lv1: Seq<int>)
        requires
            self.wf(),
            self.bfs_inv(s, v0, o0, lv0),
            forall|j: int| 0 <= j < lv0.len() ==> #[trigger] lv0[j] <= k + 1,
            forall|p: (int, int)| self.contains(p.0, p.1) && #[trigger] self.within_steps(s, p, k) ==> self.marked(v0, p),
            self.distance_is(s, c, k),
            adjacent4(c, pos(q)),
            (q.0 as int) < self.w(),
            (q.1 as int) < self.h(),
            self.open_at(pos(q)) && !self.marked(v0, pos(q)) ==> {
                &&& o1 == o0.push(q)
                &&& v1 == v0.update(cell_index(self.w() as int, q.0 as int, q.1 as int), true)
            },
            !(self.open_at(pos(q)) && !self.marked(v0, pos(q))) ==> o1 == o0 && v1 == v0,
        ensures
            self.bfs_inv(s, v1, o1, lv1),
            lv1.len() >= lv0.len(),
            forall|j: int| 0 <= j < lv0.len() ==> lv1[j] == lv0[j] && o1[j] == o0[j],
            forall|j: int| lv0.len() <= j < lv1.len() ==> #[trigger] lv1[j] == k + 1,
            forall|p: (int, int)| self.contains(p.0, p.1) && self.marked(v0, p) ==> #[trigger] self.marked(v1, p),
            self.open_at(pos(q)) ==> self.marked(v1, pos(q)),
    {
        let w = self.w() as int;
        let h = self.h() as int;
        if self.open_at(pos(q)) && !self.marked(v0, pos(q)) {
            let iq = cell_index(w, q.0 as int, q.1 as int);
            lemma_cell_index_bounds(w, h, q.0 as int, q.1 as int);
            lemma_count_true_flip(v0, iq);
            let lv1 = lv0.push(k + 1);
            self.lemma_within_step(s, c, pos(q), k);
            if k + 1 > 0 && self.within_steps(s, pos(q), k) {
                assert(self.marked(v0, pos(q)));
            }
            assert(self.distance_is(s, pos(q), k + 1));
            assert forall|p: (int, int)| self.contains(p.0, p.1) implies (#[trigger] self.marked(v1, p) <==> holds_pos(o1, p)) by {
                lemma_cell_index_bounds(w, h, p.0, p.1);
                if p != pos(q) {
                    if cell_index(w, p.0, p.1) == iq {
                        lemma_cell_index_injective(w, p.0, p.1, q.0 as int, q.1 as int);
                    }
                    assert(self.marked(v1, p) == self.marked(v0, p));
                    if holds_pos(o1, p) {
                        let j = choose|j: int| 0 <= j < o1.len() && pos(#[trigger] o1[j]) == p;
                        assert(j < o0.len());
                        assert(o0[j] == o1[j]);
                    }
                    if holds_pos(o0, p) {
                        let j = choose|j: int| 0 <= j < o0.len() && pos(#[trigger] o0[j]) == p;
                        assert(o1[j] == o0[j]);
                    }
                } else {
                    assert(o1[o0.len() as int] == q);
                }
            }
            assert forall|i: int, j: int| 0 <= i < j < o1.len() implies #[trigger] o1[i] != #[trigger] o1[j] by {
                if j == o0.len() {
                    assert(o1[i] == o0[i]);
                    if o0[i] == q {
                        assert(holds_pos(o0, pos(q)));
                    }
                } else {
                    assert(o1[i] == o0[i] && o1[j] == o0[j]);
                }
            }
            assert forall|i: int, j: int| 0 <= i < j < o1.len() implies #[trigger] lv1[i] <= #[trigger] lv1[j] by {
                if j < o0.len() {
                    assert(lv1[i] == lv0[i] && lv1[j] == lv0[j]);
                } else {
                    assert(lv1[i] == lv0[i]);
                }
            }
            assert forall|i: int| 0 <= i < o1.len() implies self.distance_is(s, pos(#[trigger] o1[i]), lv1[i]) by {
                if i < o0.len() {
                    assert(o1[i] == o0[i] && lv1[i] == lv0[i]);
                }
            }
            assert forall|i: int| 0 <= i < o1.len() implies self.contains(#[trigger] o1[i].0 as int, o1[i].1 as int) by {
                if i < o0.len() {
                    assert(o1[i] == o0[i]);
                }
            }
            assert forall|p: (int, int)| self.contains(p.0, p.1) && self.marked(v0, p) implies #[trigger] self.marked(v1, p) by {
                lemma_cell_index_bounds(w, h, p.0, p.1);
            }
            assert(self.marked(v1, pos(q)));
            lv1
        } else {
            lv0
        }
    }

    /// Cells connected to `(sx, sy)` through passable 4-neighbours, in
    /// breadth-first order: by non-decreasing walking distance from the
    /// start, each cell's neighbours taken left, right, up, down; empty when
    /// the start is not a passable in-bounds cell.
    pub fn flood_fill(&self, sx: usize, sy: usize) -> (r: Vec<(usize, usize)>)
        requires
            self.wf(),
        ensures
            !self.open_at((sx as int, sy as int)) ==> r@.len() == 0,
            self.open_at((sx as int, sy as int)) ==> r@[0] == (sx, sy) && self.is_component(r@),
            self.open_at((sx as int, sy as int)) ==> self.in_distance_order((sx as int, sy as int), r@),
    {
        let w = self.width;
        let h = self.height;
        if sx >= w || sy >= h || !self.cell(sx, sy).is_passable() {
            return Vec::new();
        }
        let ghost s = (sx as int, sy as int);
        let ghost wi = w as int;
        let ghost hi = h as int;
        let n = self.cells.len();
        let mut visited = filled_vec(false, n);
        let ghost v00 = visited@;
        let mut out: Vec<(usize, usize)> = Vec::new();
        proof {
            lemma_count_true_zero(v00);
            lemma_cell_index_bounds(wi, hi, s.0, s.1);
        }
        self.try_add(&mut visited, &mut out, sx, sy);
        let ghost mut lv: Seq<int> = seq![0int];
        proof {
            let is = cell_index(wi, s.0, s.1);
            lemma_count_true_flip(v00, is);
            assert(out@[0] == (sx, sy));
            assert(self.is_walk(seq![s]));
            assert(self.within_steps(s, s, 0));
            assert forall|p: (int, int)| self.contains(p.0, p.1) implies (#[trigger] self.marked(visited@, p) <==> holds_pos(
                out@,
                p,
            )) by {
                lemma_cell_index_bounds(wi, hi, p.0, p.1);
                if p != s && cell_index(wi, p.0, p.1) == is {
                    lemma_cell_index_injective(wi, p.0, p.1, s.0, s.1);
                }
                if p == s {
                    assert(pos(out@[0]) == p);
                }
            }
            assert forall|p: (int, int)| self.contains(p.0, p.1) && #[trigger] self.within_steps(s, p, 0) implies self.marked(
                visited@,
                p,
            ) by {
                let wk = choose|wk: Seq<(int, int)>| #[trigger] self.is_walk(wk) && wk[0] == s && wk.last() == p && wk.len()
                    <= 1;
                assert(p == s);
            }
            assert(self.bfs_inv(s, visited@, out@, lv));
        }
        let mut ls: usize = 0;
        let ghost mut k: int = 0;
        while ls < out.len()
            invariant
                self.wf(),
                w == self.w(),
                h == self.h(),
                wi == w,
                hi == h,
                n == self.cells().len(),
                self.bfs_inv(s, visited@, out@, lv),
                ls <= out@.len(),
                k >= 0,
                forall|j: int| 0 <= j < ls ==> #[trigger] lv[j] < k,
                forall|j: int| ls <= j < out@.len() ==> #[trigger] lv[j] == k,
                forall|p: (int, int)|
                    self.contains(p.0, p.1) && #[trigger] self.within_steps(s, p, k) ==> self.marked(visited@, p),
            decreases n - ls,
        {
            proof {
                lemma_count_true_bound(visited@);
            }
            let le = out.len();
            let mut i = ls;
            while i < le
                invariant
                    self.wf(),
                    w == self.w(),
                    h == self.h(),
                    wi == w,
                    hi == h,
                    n == self.cells().len(),
                    self.bfs_inv(s, visited@, out@, lv),
                    ls <= i <= le,
                    le <= out@.len(),
                    k >= 0,
                    forall|j: int| 0 <= j < ls ==> #[trigger] lv[j] < k,
                    forall|j: int| ls <= j < le ==> #[trigger] lv[j] == k,
                    forall|j: int| le <= j < out@.len() ==> #[trigger] lv[j] == k + 1,
                    forall|p: (int, int)|
                        self.contains(p.0, p.1) && #[trigger] self.within_steps(s, p, k) ==> self.marked(visited@, p),
                    forall|j: int, p: (int, int)|
                        #![trigger self.marked(visited@, p), out@[j]]
                        ls <= j < i && adjacent4(pos(out@[j]), p) && self.open_at(p) ==> self.marked(visited@, p),
                decreases le - i,
            {
                let (x, y) = out[i];
                let ghost c = pos(out@[i as int]);
                let ghost v0 = visited@;
                let ghost o0 = out@;
                let ghost lv0 = lv;
                proof {
                    assert(self.contains(out@[i as int].0 as int, out@[i as int].1 as int));
                    assert(self.distance_is(s, c, lv[i as int]));
                }
                if x > 0 {
                    let ghost va = visited@;
                    let ghost oa = out@;
                    self.try_add(&mut visited, &mut out, x - 1, y);
                    proof {
                        lv = self.lemma_bfs_after_try(s, va, oa, lv, visited@, out@, ((x - 1) as usize, y), k, c);
                    }
                }
                let ghost v1 = visited@;
                let ghost o1 = out@;
                let ghost lv1 = lv;
                if x + 1 < w {
                    let ghost va = visited@;
                    let ghost oa = out@;
                    self.try_add(&mut visited, &mut out, x + 1, y);
                    proof {
                        lv = self.lemma_bfs_after_try(s, va, oa, lv, visited@, out@, ((x + 1) as usize, y), k, c);
                    }
                }
                let ghost v2 = visited@;
                let ghost o2 = out@;
                let ghost lv2 = lv;
                if y > 0 {
                    let ghost va = visited@;
                    let ghost oa = out@;
                    self.try_add(&mut visited, &mut out, x, y - 1);
                    proof {
                        lv = self.lemma_bfs_after_try(s, va, oa, lv, visited@, out@, (x, (y - 1) as usize), k, c);
                    }
                }
                let ghost v3 = visited@;
                let ghost o3 = out@;
                let ghost lv3 = lv;
                if y + 1 < h {
                    let ghost va = visited@;
                    let ghost oa = out@;
                    self.try_add(&mut visited, &mut out, x, y + 1);
                    proof {
                        lv = self.lemma_bfs_after_try(s, va, oa, lv, visited@, out@, (x, (y + 1) as usize), k, c);
                    }
                }
                proof {
                    let v4 = visited@;
                    let o4 = out@;
                    assert forall|j: int| 0 <= j < o0.len() implies out@[j] == o0[j] && lv[j] == lv0[j] by {
                        assert(o1[j] == o0[j] && lv1[j] == lv0[j]);
                        assert(o2[j] == o1[j] && lv2[j] == lv1[j]);
                        assert(o3[j] == o2[j] && lv3[j] == lv2[j]);
                    }
                    assert forall|j: int| o0.len() <= j < out@.len() implies #[trigger] lv[j] == k + 1 by {
                        if j < lv1.len() {
                            assert(lv3[j] == lv2[j] && lv2[j] == lv1[j]);
                        } else if j < lv2.len() {
                            assert(lv3[j] == lv2[j]);
                        }
                    }
                    assert forall|p: (int, int)| self.contains(p.0, p.1) && self.marked(v0, p) implies #[trigger] self.marked(
                        visited@,
                        p,
                    ) by {
                        assert(self.marked(v1, p));
                        assert(self.marked(v2, p));
                        assert(self.marked(v3, p));
                    }
                    assert forall|j: int, p: (int, int)|
                        #![trigger self.marked(visited@, p), out@[j]]
                        ls <= j < i + 1 && adjacent4(pos(out@[j]), p) && self.open_at(p) implies self.marked(visited@, p) by {
                        assert(out@[j] == o0[j]);
                        if j < i {
                            assert(self.marked(v0, p));
                        } else {
                            if p == (x as int - 1, y as int) {
                                assert(self.marked(v1, p));
                                assert(self.marked(v2, p));
                                assert(self.marked(v3, p));
                            } else if p == (x as int + 1, y as int) {
                                assert(self.marked(v2, p));
                                assert(self.marked(v3, p));
                            } else if p == (x as int, y as int - 1) {
                                assert(self.marked(v3, p));
                            } else {
                                assert(p == (x as int, y as int + 1));
                            }
                        }
                    }
                }
                i = i + 1;
            }
            proof {
                assert forall|p: (int, int)| self.contains(p.0, p.1) && #[trigger] self.within_steps(s, p, k + 1) implies self.marked(
                    visited@,
                    p,
                ) by {
                    if !self.within_steps(s, p, k) {
                        let b = self.lemma_within_back(s, p, k);
                        assert(self.contains(b.0, b.1));
                        assert(self.marked(visited@, b));
                        let j = choose|j: int| 0 <= j < out@.len() && pos(#[trigger] out@[j]) == b;
                        assert(self.distance_is(s, b, lv[j]));
                        if k > 0 && self.within_steps(s, b, k - 1) {
                            self.lemma_within_step(s, b, p, k - 1);
                        }
                        assert(self.distance_is(s, b, k));
                        self.lemma_distance_unique(s, b, k, lv[j]);
                        assert(ls <= j < le);
                        assert(self.marked(visited@, p));
                    }
                }
                k = k + 1;
            }
            ls = le;
        }
        proof {
            assert forall|p: (int, int)| #[trigger] self.within_steps(s, p, k + 1) implies self.within_steps(s, p, k) by {
                if !self.within_steps(s, p, k) {
                    let b = self.lemma_within_back(s, p, k);
                    assert(self.contains(b.0, b.1));
                    assert(self.marked(visited@, b));
                    let j = choose|j: int| 0 <= j < out@.len() && pos(#[trigger] out@[j]) == b;
                    assert(self.distance_is(s, b, lv[j]));
                    if k > 0 && self.within_steps(s, b, k - 1) {
                        self.lemma_within_step(s, b, p, k - 1);
                    }
                    assert(self.distance_is(s, b, k));
                    self.lemma_distance_unique(s, b, k, lv[j]);
                }
            }
            let r = out@;
            assert forall|j: int| 0 <= j < r.len() implies self.connected(pos(r[0]), pos(#[trigger] r[j])) by {
                assert(self.distance_is(s, pos(r[j]), lv[j]));
                let wk = choose|wk: Seq<(int, int)>| #[trigger] self.is_walk(wk) && wk[0] == s && wk.last() == pos(r[j])
                    && wk.len() <= lv[j] + 1;
                assert(self.is_walk(wk));
            }
            assert forall|p: (int, int)| #[trigger] self.connected(pos(r[0]), p) implies holds_pos(r, p) by {
                let wk = choose|wk: Seq<(int, int)>| #[trigger] self.is_walk(wk) && wk[0] == s && wk.last() == p;
                assert(self.within_steps(s, p, wk.len() as int));
                self.lemma_within_closed(s, p, k, wk.len() as int);
                assert(self.open_at(wk[wk.len() - 1]));
                assert(self.marked(visited@, p));
            }
            assert(self.is_component(r));
            assert(self.in_distance_order(s, r));
        }
        out
    }

    /// All connected passable regions (4-neighbourhood). Regions come in
    /// row-major order of their first cell, which is the region's
    /// lowest-index cell; each lists its cells without repeats in
    /// depth-first visiting order.
    pub fn flood_regions(&self) -> (regions: Vec<Vec<(usize, usize)>>)
        requires
            self.wf(),
        ensures
            forall|r: int| 0 <= r < regions@.len() ==> #[trigger] self.is_component(regions@[r]@),
            forall|p: (int, int)| #[trigger] self.open_at(p) ==> in_some(regions@, p),
            forall|r1: int, r2: int|
                0 <= r1 < r2 < regions@.len() ==> self.index_at(#[trigger] regions@[r1]@[0]) < self.index_at(
                    #[trigger] regions@[r2]@[0],
                ) && !self.connected(pos(regions@[r1]@[0]), pos(regions@[r2]@[0])),
            forall|r: int, p: (int, int)|
                0 <= r < regions@.len() && #[trigger] self.connected(pos(regions@[r]@[0]), p) ==> self.index_at(
                    regions@[r]@[0],
                ) <= cell_index(self.w() as int, p.0, p.1),
    {
        let w = self.width;
        let h = self.height;
        let n = self.cells.len();
        let mut visited = filled_vec(false, n);
        proof {
            self.lemma_no_marks_closed(visited@);
        }
        let mut regions: Vec<Vec<(usize, usize)>> = Vec::new();
        let mut y: usize = 0;
        while y < h
            invariant
                self.wf(),
                w == self.w(),
                h == self.h(),
                n == self.cells().len(),
                y <= h,
                visited@.len() == n,
                self.regions_inv(visited@, regions@, cell_index(w as int, 0, y as int)),
            decreases h - y,
        {
            let mut x: usize = 0;
            while x < w
                invariant
                    self.wf(),
                    w == self.w(),
                    h == self.h(),
                    n == self.cells().len(),
                    y < h,
                    x <= w,
                    visited@.len() == n,
                    self.regions_inv(visited@, regions@, cell_index(w as int, x as int, y as int)),
                decreases w - x,
            {
                let idx = self.index_of(x, y);
                let ghost vs0 = visited@;
                let ghost regs0 = regions@;
                if !visited[idx] && self.cells[idx].is_passable() {
                    proof {
                        self.lemma_regions_inv_facts(vs0, regs0, idx as int);
                    }
                    let region = self.explore(&mut visited, x, y);
                    regions.push(region);
                    proof {
                        self.lemma_regions_inv_add(vs0, regs0, visited@, regions@, x, y);
                    }
                } else {
                    proof {
                        self.lemma_regions_inv_skip(vs0, regs0, x, y);
                    }
                }
                x = x + 1;
            }
            proof {
                assert(cell_index(w as int, w as int, y as int) == cell_index(w as int, 0, y + 1)) by (nonlinear_arith);
            }
            y = y + 1;
        }
        proof {
            assert(cell_index(w as int, 0, h as int) == w * h) by (nonlinear_arith);
            self.lemma_regions_inv_done(visited@, regions@);
        }
        regions
    }

    /// Scan state of `flood_regions` before row-major index `cur`.
    pub closed spec fn regions_inv(&self, vs: Seq<bool>, regions: Seq<Vec<(usize, usize)>>, cur: int) -> bool {
        &&& self.wf()
        &&& vs.len() == self.cells().len()
        &&& 0 <= cur <= self.cells().len()
        &&& self.marks_closed(vs)
        &&& forall|p: (int, int)| self.contains(p.0, p.1) ==> (#[trigger] self.marked(vs, p) == in_some(regions, p))
        &&& forall|p: (int, int)|
            self.open_at(p) && cell_index(self.w() as int, p.0, p.1) < cur ==> #[trigger] self.marked(vs, p)
        &&& forall|r: int| 0 <= r < regions.len() ==> #[trigger] self.is_component(regions[r]@)
        &&& forall|r: int| 0 <= r < regions.len() ==> self.index_at(#[trigger] regions[r]@[0]) < cur
        &&& forall|r1: int, r2: int|
            0 <= r1 < r2 < regions.len() ==> self.index_at(#[trigger] regions[r1]@[0]) < self.index_at(
                #[trigger] regions[r2]@[0],
            ) && !self.connected(pos(regions[r1]@[0]), pos(regions[r2]@[0]))
        &&& forall|r: int, p: (int, int)|
            0 <= r < regions.len() && #[trigger] self.connected(pos(regions[r]@[0]), p) ==> self.index_at(
                regions[r]@[0],
            ) <= cell_index(self.w() as int, p.0, p.1)
    }

    proof fn lemma_regions_inv_facts(&self, vs: Seq<bool>, regions: Seq<Vec<(usize, usize)>>, cur: int)
        requires
            self.regions_inv(vs, regions, cur),
        ensures
            self.marks_closed(vs),
    {
    }

    proof fn lemma_regions_inv_skip(&self, vs: Seq<bool>, regions: Seq<Vec<(usize, usize)>>, x: usize, y: usize)
        requires
            self.regions_inv(vs, regions, cell_index(self.w() as int, x as int, y as int)),
            x < self.w(),
            y < self.h(),
            vs[cell_index(self.w() as int, x as int, y as int)] || !self.at(x as int, y as int).passable(),
        ensures
            self.regions_inv(vs, regions, cell_index(self.w() as int, x as int, y as int) + 1),
    {
        let w = self.w() as int;
        let cur = cell_index(w, x as int, y as int);
        lemma_cell_index_bounds(w, self.h() as int, x as int, y as int);
        assert forall|p: (int, int)| self.open_at(p) && cell_index(w, p.0, p.1) < cur + 1 implies #[trigger] self.marked(
            vs,
            p,
        ) by {
            if cell_index(w, p.0, p.1) == cur {
                lemma_cell_index_injective(w, p.0, p.1, x as int, y as int);
            }
        }
    }

    proof fn lemma_regions_inv_add(
        &self,
        vs: Seq<bool>,
        regions: Seq<Vec<(usize, usize)>>,
        vs1: Seq<bool>,
        regions1: Seq<Vec<(usize, usize)>>,
        x: usize,
        y: usize,
    )
        requires
            self.regions_inv(vs, regions, cell_index(self.w() as int, x as int, y as int)),
            x < self.w(),
            y < self.h(),
            !vs[cell_index(self.w() as int, x as int, y as int)],
            self.at(x as int, y as int).passable(),
            vs1.len() == vs.len(),
            self.marks_closed(vs1),
            regions1.len() == regions.len() + 1,
            forall|r: int| 0 <= r < regions.len() ==> regions1[r] == regions[r],
            regions1.last()@.len() > 0,
            regions1.last()@[0] == (x, y),
            forall|p: (int, int)|
                self.contains(p.0, p.1) ==> (#[trigger] self.marked(vs1, p) == (self.marked(vs, p) || self.connected(
                    (x as int, y as int),
                    p,
                ))),
            forall|k: int| 0 <= k < regions1.last()@.len() ==> self.connected((x as int, y as int), pos(#[trigger] regions1.last()@[k])),
            forall|p: (int, int)| #[trigger] self.connected((x as int, y as int), p) ==> holds_pos(regions1.last()@, p),
            forall|k1: int, k2: int|
                0 <= k1 < k2 < regions1.last()@.len() ==> #[trigger] regions1.last()@[k1] != #[trigger] regions1.last()@[k2],
        ensures
            self.regions_inv(vs1, regions1, cell_index(self.w() as int, x as int, y as int) + 1),
    {
        let w = self.w() as int;
        let h = self.h() as int;
        let s = (x as int, y as int);
        let cur = cell_index(w, s.0, s.1);
        let m = regions.len() as int;
        let last = regions1.last()@;
        lemma_cell_index_bounds(w, h, s.0, s.1);
        assert(regions1[m]@ == last);
        assert(self.is_component(last));
        assert forall|r: int| 0 <= r < regions1.len() implies #[trigger] self.is_component(regions1[r]@) by {
            if r < m {
                assert(regions1[r] == regions[r]);
            }
        }
        // the new start is not connected to any earlier region
        assert forall|r: int| 0 <= r < m implies !self.connected(pos(regions[r]@[0]), s) by {
            if self.connected(pos(regions[r]@[0]), s) {
                assert(self.is_component(regions[r]@));
                assert(holds_pos(regions[r]@, s));
                assert(in_some(regions, s));
                assert(self.marked(vs, s));
            }
        }
        assert forall|p: (int, int)| self.contains(p.0, p.1) implies (#[trigger] self.marked(vs1, p) == in_some(
            regions1,
            p,
        )) by {
            if in_some(regions, p) {
                let r = choose|r: int| 0 <= r < regions.len() && holds_pos(regions[r]@, p);
                assert(regions1[r] == regions[r]);
            }
            if self.connected(s, p) {
                assert(holds_pos(regions1[m]@, p));
            }
            if in_some(regions1, p) {
                let r = choose|r: int| 0 <= r < regions1.len() && holds_pos(regions1[r]@, p);
                if r < m {
                    assert(regions1[r] == regions[r]);
                } else {
                    let k = choose|k: int| 0 <= k < last.len() && pos(#[trigger] last[k]) == p;
                    assert(self.connected(s, pos(last[k])));
                }
            }
        }
        assert forall|p: (int, int)| self.open_at(p) && cell_index(w, p.0, p.1) < cur + 1 implies #[trigger] self.marked(
            vs1,
            p,
        ) by {
            if cell_index(w, p.0, p.1) == cur {
                lemma_cell_index_injective(w, p.0, p.1, s.0, s.1);
                self.lemma_connected_refl(s);
            } else {
                assert(self.marked(vs, p));
            }
        }
        assert forall|r: int| 0 <= r < regions1.len() implies self.index_at(#[trigger] regions1[r]@[0]) < cur + 1 by {
            if r < m {
                assert(regions1[r] == regions[r]);
            }
        }
        assert forall|r1: int, r2: int|
            0 <= r1 < r2 < regions1.len() implies self.index_at(#[trigger] regions1[r1]@[0]) < self.index_at(
                #[trigger] regions1[r2]@[0],
            ) && !self.connected(pos(regions1[r1]@[0]), pos(regions1[r2]@[0])) by {
            assert(regions1[r1] == regions[r1]);
            if r2 < m {
                assert(regions1[r2] == regions[r2]);
            }
        }
        assert forall|r: int, p: (int, int)|
            0 <= r < regions1.len() && #[trigger] self.connected(pos(regions1[r]@[0]), p) implies self.index_at(
                regions1[r]@[0],
            ) <= cell_index(w, p.0, p.1) by {
            if r < m {
                assert(regions1[r] == regions[r]);
            } else {
                // a lower-index cell of this component would have been marked earlier
                let wk = choose|wk: Seq<(int, int)>| #[trigger] self.is_walk(wk) && wk[0] == s && wk.last() == p;
                assert(self.open_at(wk[wk.len() - 1]));
                if cell_index(w, p.0, p.1) < cur {
                    assert(self.marked(vs, p));
                    let r0 = choose|r0: int| 0 <= r0 < regions.len() && holds_pos(regions[r0]@, p);
                    let k = choose|k: int| 0 <= k < regions[r0]@.len() && pos(#[trigger] regions[r0]@[k]) == p;
                    assert(self.is_component(regions[r0]@));
                    assert(self.connected(pos(regions[r0]@[0]), p));
                    self.lemma_connected_symmetric(s, p);
                    self.lemma_connected_trans(pos(regions[r0]@[0]), p, s);
                }
            }
        }
    }

    proof fn lemma_regions_inv_done(&self, vs: Seq<bool>, regions: Seq<Vec<(usize, usize)>>)
        requires
            self.regions_inv(vs, regions, self.cells().len() as int),
        ensures
            forall|r: int| 0 <= r < regions.len() ==> #[trigger] self.is_component(regions[r]@),
            forall|p: (int, int)| #[trigger] self.open_at(p) ==> in_some(regions, p),
            forall|r1: int, r2: int|
                0 <= r1 < r2 < regions.len() ==> self.index_at(#[trigger] regions[r1]@[0]) < self.index_at(
                    #[trigger] regions[r2]@[0],
                ) && !self.connected(pos(regions[r1]@[0]), pos(regions[r2]@[0])),
            forall|r: int, p: (int, int)|
                0 <= r < regions.len() && #[trigger] self.connected(pos(regions[r]@[0]), p) ==> self.index_at(
                    regions[r]@[0],
                ) <= cell_index(self.w() as int, p.0, p.1),
    {
        assert forall|p: (int, int)| #[trigger] self.open_at(p) implies in_some(regions, p) by {
            lemma_cell_index_bounds(self.w() as int, self.h() as int, p.0, p.1);
            assert(self.marked(vs, p));
        }
    }

    pub proof fn lemma_connected_trans(&self, a: (int, int), b: (int, int), c: (int, int))
        requires
            self.connected(a, b),
            self.connected(b, c),
        ensures
            self.connected(a, c),
    {
        let p = choose|p: Seq<(int, int)>| #[trigger] self.is_walk(p) && p[0] == a && p.last() == b;
        let q = choose|q: Seq<(int, int)>| #[trigger] self.is_walk(q) && q[0] == b && q.last() == c;
        let r = p + q.drop_first();
        assert forall|i: int| 0 <= i < r.len() implies self.open_at(#[trigger] r[i]) by {
            if i >= p.len() {
                assert(r[i] == q[i - p.len() + 1]);
            }
        }
        assert forall|i: int| 0 <= i < r.len() - 1 implies adjacent4(#[trigger] r[i], r[i + 1]) by {
            if i < p.len() - 1 {
                assert(r[i] == p[i] && r[i + 1] == p[i + 1]);
            } else if i == p.len() - 1 {
                assert(r[i] == p[i] && r[i] == q[0] && r[i + 1] == q[1]);
            } else {
                assert(r[i] == q[i - p.len() + 1] && r[i + 1] == q[i - p.len() + 2]);
            }
        }
        if q.len() == 1 {
            assert(r =~= p);
        } else {
            assert(r.last() == q.last());
        }
        assert(self.is_walk(r));
    }
}

impl<C: Cell> Grid<C> {
    /// `new` has this grid's shape, and differs from it only where `new`
    /// holds a passable cell.
    pub open spec fn grows_to(&self, new: &Grid<C>) -> bool {
        &&& new.wf()
        &&& new.w() == self.w()
        &&& new.h() == self.h()
        &&& forall|x: int, y: int|
            self.contains(x, y) ==> #[trigger] new.at(x, y) == self.at(x, y) || new.at(x, y).passable()
    }

    /// `new` holds the same cells as this grid outside the rectangle with
    /// corners `(x0, y0)` (included) and `(x1, y1)` (excluded).
    pub open spec fn same_outside(&self, new: &Grid<C>, x0: int, y0: int, x1: int, y1: int) -> bool {
        forall|x: int, y: int|
            self.contains(x, y) && !(x0 <= x < x1 && y0 <= y < y1) ==> #[trigger] new.at(x, y) == self.at(x, y)
    }
}

impl<C: Cell> Grid<C> {
    /// A walk of this grid stays a walk when cells only become passable.
    pub proof fn lemma_grows_connected(&self, new: &Grid<C>, a: (int, int), b: (int, int))
        requires
            self.grows_to(new),
            self.connected(a, b),
        ensures
            new.connected(a, b),
    {
        let p = choose|p: Seq<(int, int)>| #[trigger] self.is_walk(p) && p[0] == a && p.last() == b;
        assert forall|i: int| 0 <= i < p.len() implies new.open_at(#[trigger] p[i]) by {
            assert(self.open_at(p[i]));
            assert(new.at(p[i].0, p[i].1) == self.at(p[i].0, p[i].1) || new.at(p[i].0, p[i].1).passable());
        }
        assert(new.is_walk(p));
    }

    /// Growth is transitive.
    pub proof fn lemma_grows_trans(&self, mid: &Grid<C>, new: &Grid<C>)
        requires
            self.grows_to(mid),
            mid.grows_to(new),
        ensures
            self.grows_to(new),
    {
        assert forall|x: int, y: int| self.contains(x, y) implies #[trigger] new.at(x, y) == self.at(x, y)
            || new.at(x, y).passable() by {
            assert(mid.at(x, y) == self.at(x, y) || mid.at(x, y).passable());
            assert(new.at(x, y) == mid.at(x, y) || new.at(x, y).passable());
        }
    }

    /// Every passable cell of this grid is connected to `c`, or to a cell that
    /// is passable in `base`.
    pub open spec fn anchored(&self, base: &Grid<C>, c: (int, int)) -> bool {
        forall|p: (int, int)|
            #[trigger] self.open_at(p) ==> self.connected(c, p) || exists|q: (int, int)|
                base.open_at(q) && #[trigger] self.connected(q, p)
    }
}

/// Some region of `regions` holds `p`.
pub open spec fn in_some(regions: Seq<Vec<(usize, usize)>>, p: (int, int)) -> bool {
    exists|r: int| 0 <= r < regions.len() && holds_pos(#[trigger] regions[r]@, p)
}

/// Some entry of `s`, read as a point, is `q`.
pub open spec fn holds_pos(s: Seq<(usize, usize)>, q: (int, int)) -> bool {
    exists|k: int| 0 <= k < s.len() && pos(#[trigger] s[k]) == q
}

proof fn lemma_holds_push(s: Seq<(usize, usize)>, v: (usize, usize))
    ensures
        forall|q: (int, int)| holds_pos(s, q) ==> #[trigger] holds_pos(s.push(v), q),
        holds_pos(s.push(v), pos(v)),
{
    let t = s.push(v);
    assert(pos(t[s.len() as int]) == pos(v));
    assert forall|q: (int, int)| holds_pos(s, q) implies #[trigger] holds_pos(t, q) by {
        let k = choose|k: int| 0 <= k < s.len() && pos(#[trigger] s[k]) == q;
        assert(t[k] == s[k]);
    }
}

proof fn lemma_holds_pop(s: Seq<(usize, usize)>)
    requires
        s.len() > 0,
    ensures
        forall|q: (int, int)| #[trigger] holds_pos(s, q) ==> holds_pos(s.drop_last(), q) || pos(s.last()) == q,
{
    let d = s.drop_last();
    assert forall|q: (int, int)| #[trigger] holds_pos(s, q) implies holds_pos(d, q) || pos(s.last()) == q by {
        let k = choose|k: int| 0 <= k < s.len() && pos(#[trigger] s[k]) == q;
        if k < s.len() - 1 {
            assert(d[k] == s[k]);
        }
    }
}


impl Grid<Tile> {
    /// Row `y` drawn one character per tile.
    pub open spec fn row_text(&self, y: int) -> Seq<char> {
        Seq::new(self.w(), |x: int| self.at(x, y).glyph())
    }

    /// The first `n` rows, each drawn by [`Grid::row_text`], joined by newlines.
    pub open spec fn rows_text(&self, n: nat) -> Seq<char>
        decreases n,
    {
        if n == 0 {
            Seq::empty()
        } else if n == 1 {
            self.row_text(0)
        } else {
            self.rows_text((n - 1) as nat) + seq!['\n'] + self.row_text(n - 1)
        }
    }

    /// The whole grid as text: every row, top to bottom, with no newline after the last.
    pub open spec fn text(&self) -> Seq<char> {
        self.rows_text(self.h())
    }

    /// Draws the grid as text, `#` for walls and `.` for floors, one line per row.
    pub fn to_text(&self) -> (r: String)
        requires
            self.wf(),
        ensures
            r@ == self.text(),
    {
        let mut out = String::new();
        let w = self.width;
        let h = self.height;
        let mut y: usize = 0;
        while y < h
            invariant
                self.wf(),
                w == self.w(),
                h == self.h(),
                y <= h,
                out@ == self.rows_text(y as nat),
            decreases h - y,
        {
            if y > 0 {
                crate::semantic_visualization::push_char(&mut out, '\n');
            }
            let ghost start = out@;
            let mut x: usize = 0;
            while x < w
                invariant
                    self.wf(),
                    w == self.w(),
                    h == self.h(),
                    y < h,
                    x <= w,
                    out@ == start + self.row_text(y as int).take(x as int),
                decreases w - x,
            {
                let c = self.cell(x, y).symbol();
                proof {
                    assert(self.row_text(y as int).take(x as int + 1) =~= self.row_text(y as int).take(
                        x as int,
                    ).push(c));
                }
                crate::semantic_visualization::push_char(&mut out, c);
                x = x + 1;
            }
            proof {
                assert(self.row_text(y as int).take(w as int) =~= self.row_text(y as int));
                if y == 0 {
                    assert(start =~= Seq::<char>::empty());
                    assert(out@ =~= self.rows_text(1));
                } else {
                    assert(out@ =~= self.rows_text((y + 1) as nat));
                }
            }
            y = y + 1;
        }
        out
    }
}

/// The tiles of `g` as tile cells, position by position.
pub fn tile_cells(g: &Grid<Tile>) -> (r: Grid<TileCell>)
    requires
        g.wf(),
    ensures
        r.wf(),
        r.w() == g.w(),
        r.h() == g.h(),
        r.cells().len() == g.cells().len(),
        forall|i: int| 0 <= i < r.cells().len() ==> (#[trigger] r.cells()[i]).tile == g.cells()[i],
{
    let n = g.cells.len();
    let mut cells: Vec<TileCell> = Vec::with_capacity(n);
    let mut i: usize = 0;
    while i < n
        invariant
            i <= n,
            n == g.cells@.len(),
            cells@.len() == i,
            forall|k: int| 0 <= k < i ==> (#[trigger] cells@[k]).tile == g.cells@[k],
        decreases n - i,
    {
        cells.push(TileCell { tile: g.cells[i] });
        i = i + 1;
    }
    Grid { width: g.width, height: g.height, cells }
}

/// The tiles of the tile cells of `g`, position by position.
pub fn cell_tiles(g: &Grid<TileCell>) -> (r: Grid<Tile>)
    requires
        g.wf(),
    ensures
        r.wf(),
        r.w() == g.w(),
        r.h() == g.h(),
        r.cells().len() == g.cells().len(),
        forall|i: int| 0 <= i < r.cells().len() ==> #[trigger] r.cells()[i] == g.cells()[i].tile,
{
    let n = g.cells.len();
    let mut cells: Vec<Tile> = Vec::with_capacity(n);
    let mut i: usize = 0;
    while i < n
        invariant
            i <= n,
            n == g.cells@.len(),
            cells@.len() == i,
            forall|k: int| 0 <= k < i ==> #[trigger] cells@[k] == g.cells@[k].tile,
        decreases n - i,
    {
        cells.push(g.cells[i].tile);
        i = i + 1;
    }
    Grid { width: g.width, height: g.height, cells }
}

} // verus!

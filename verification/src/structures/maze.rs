//! Recursive-backtracker mazes.

use crate::grid::{cell_index, count_true, lemma_count_true_bound, lemma_count_true_flip, Cell, Grid, TileCell};
use crate::rng::{chacha_usize_in, Rng};
use vstd::prelude::*;

verus! {

/// Configuration for maze generation.
#[derive(Debug, Clone)]
pub struct MazeConfig {
    pub corridor_width: usize,
}

impl Default for MazeConfig {
    fn default() -> (r: MazeConfig)
        ensures
            r.corridor_width == 1,
    {
        MazeConfig { corridor_width: 1 }
    }
}

/// Recursive backtracker maze generator.
pub struct Maze {
    config: MazeConfig,
}

impl Maze {
    pub fn new(config: MazeConfig) -> (r: Maze)
        ensures
            r.config() == config,
    {
        Maze { config }
    }

    pub closed spec fn config(&self) -> MazeConfig {
        self.config
    }
}

impl Default for Maze {
    fn default() -> (r: Maze)
        ensures
            r.config().corridor_width == 1,
    {
        Maze::new(MazeConfig::default())
    }
}

/// A maze cell `c` of a maze `maze_w` cells wide, cells being `cell` grid
/// cells apart, ends (corridor included) inside the border ring of a grid
/// `w` wide.
proof fn lemma_cell_fits(c: int, cell: int, maze_w: int, w: int)
    requires
        0 <= c < maze_w,
        cell >= 1,
        w >= 1,
        maze_w == (w - 1) / cell,
    ensures
        1 + c * cell + cell <= w,
        0 <= c * cell,
{
    assert(maze_w * cell <= w - 1) by (nonlinear_arith)
        requires
            maze_w == (w - 1) / cell,
            cell >= 1,
            w >= 1,
    ;
    assert((c + 1) * cell <= maze_w * cell) by (nonlinear_arith)
        requires
            c + 1 <= maze_w,
            cell >= 1,
    ;
    assert(0 <= c * cell) by (nonlinear_arith)
        requires
            0 <= c,
            cell >= 1,
    ;
    assert((c + 1) * cell == c * cell + cell) by (nonlinear_arith);
}

/// Grid cell `(x, y)` lies in the corridor square of maze cell `(cx, cy)`,
/// maze cells being `cell` grid cells apart.
pub open spec fn in_cell_square(cx: int, cy: int, cell: int, x: int, y: int) -> bool {
    1 + cx * cell <= x < 1 + cx * cell + (cell - 1) && 1 + cy * cell <= y < 1 + cy * cell + (cell - 1)
}

/// Grid cell `(x, y)` lies in the wall strip between the 4-neighbouring
/// maze cells `a` and `b`.
pub open spec fn in_passage(a: (usize, usize), b: (usize, usize), cell: int, x: int, y: int) -> bool {
    let lo = if b.0 < a.0 || b.1 < a.1 { b } else { a };
    if a.1 == b.1 {
        x == 1 + lo.0 * cell + (cell - 1) && 1 + lo.1 * cell <= y < 1 + lo.1 * cell + (cell - 1)
    } else {
        1 + lo.0 * cell <= x < 1 + lo.0 * cell + (cell - 1) && y == 1 + lo.1 * cell + (cell - 1)
    }
}

/// Maze cells `a` and `b` are 4-neighbours.
pub open spec fn maze_adjacent(a: (usize, usize), b: (usize, usize)) -> bool {
    ||| (a.0 + 1 == b.0 && a.1 == b.1)
    ||| (b.0 + 1 == a.0 && a.1 == b.1)
    ||| (a.0 == b.0 && a.1 + 1 == b.1)
    ||| (a.0 == b.0 && b.1 + 1 == a.1)
}

/// The passages `es` grow a tree over the `w` by `h` maze cells from
/// `(0, 0)`: each joins 4-neighbours inside the maze, starts at `(0, 0)` or
/// at a cell an earlier passage reached, and reaches a cell that is not
/// `(0, 0)` and that no other passage reaches.
pub open spec fn maze_tree(es: Seq<((usize, usize), (usize, usize))>, w: int, h: int) -> bool {
    &&& forall|k: int|
        0 <= k < es.len() ==> {
            let e = #[trigger] es[k];
            &&& e.0.0 < w && e.0.1 < h && e.1.0 < w && e.1.1 < h
            &&& maze_adjacent(e.0, e.1)
            &&& e.1 != (0usize, 0usize)
            &&& (e.0 == (0usize, 0usize) || exists|j: int| 0 <= j < k && es[j].1 == e.0)
        }
    &&& forall|j: int, k: int| 0 <= j < k < es.len() ==> (#[trigger] es[j]).1 != (#[trigger] es[k]).1
}

/// The tree reaches every maze cell: there is one passage per cell other
/// than `(0, 0)`, and each such cell is reached by one.
pub open spec fn maze_spans(es: Seq<((usize, usize), (usize, usize))>, w: int, h: int) -> bool {
    &&& es.len() + 1 == w * h
    &&& forall|x: int, y: int| 0 <= x < w && 0 <= y < h && !(x == 0 && y == 0) ==> #[trigger] maze_reached(es, x, y)
}

/// Some passage of `es` reaches maze cell `(x, y)`.
pub open spec fn maze_reached(es: Seq<((usize, usize), (usize, usize))>, x: int, y: int) -> bool {
    exists|k: int| 0 <= k < es.len() && (#[trigger] es[k]).1 == (x as usize, y as usize)
}

/// Passage `k` of `es` covers grid cell `(x, y)`.
pub open spec fn passage_covers(es: Seq<((usize, usize), (usize, usize))>, k: int, cell: int, x: int, y: int) -> bool {
    in_passage(es[k].0, es[k].1, cell, x, y)
}

/// Grid cell `(x, y)` is floor in the maze of `w` by `h` cells with
/// passages `es`: it lies in a cell's square or in a passage.
pub open spec fn maze_covers(es: Seq<((usize, usize), (usize, usize))>, w: int, h: int, cell: int, x: int, y: int) -> bool {
    ||| exists|cx: int, cy: int| 0 <= cx < w && 0 <= cy < h && #[trigger] in_cell_square(cx, cy, cell, x, y)
    ||| exists|k: int| 0 <= k < es.len() && #[trigger] passage_covers(es, k, cell, x, y)
}

/// Like [`maze_covers`], counting only the squares of the marked cells.
#[verifier::opaque]
pub open spec fn maze_drawn(
    visited: Seq<bool>,
    es: Seq<((usize, usize), (usize, usize))>,
    w: int,
    h: int,
    cell: int,
    x: int,
    y: int,
) -> bool {
    ||| exists|cx: int, cy: int|
        0 <= cx < w && 0 <= cy < h && maze_seen(visited, h, cx, cy) && #[trigger] in_cell_square(cx, cy, cell, x, y)
    ||| exists|k: int| 0 <= k < es.len() && #[trigger] passage_covers(es, k, cell, x, y)
}

/// Every maze cell next to `(x, y)` is marked.
pub open spec fn around_seen(visited: Seq<bool>, w: int, h: int, x: int, y: int) -> bool {
    &&& (x > 0 ==> maze_seen(visited, h, x - 1, y))
    &&& (x + 1 < w ==> maze_seen(visited, h, x + 1, y))
    &&& (y > 0 ==> maze_seen(visited, h, x, y - 1))
    &&& (y + 1 < h ==> maze_seen(visited, h, x, y + 1))
}

/// The number of maze cells a side of `len` grid cells holds, with
/// corridors `corridor_width` wide.
pub open spec fn maze_span(len: int, corridor_width: int) -> int {
    (len - 1) / (corridor_width + 1)
}

/// Floors the `cell - 1` square of maze cell `(cx, cy)`.
pub fn carve_cell(grid: &mut Grid<TileCell>, cx: usize, cy: usize, cell_size: usize)
    requires
        old(grid).wf(),
        1 <= old(grid).w() <= i32::MAX,
        1 <= old(grid).h() <= i32::MAX,
        cell_size >= 1,
        cx < (old(grid).w() - 1) / cell_size as int,
        cy < (old(grid).h() - 1) / cell_size as int,
    ensures
        final(grid).wf(),
        final(grid).w() == old(grid).w(),
        final(grid).h() == old(grid).h(),
        forall|x: int, y: int|
            old(grid).contains(x, y) ==> #[trigger] final(grid).at(x, y) == if in_cell_square(
                cx as int,
                cy as int,
                cell_size as int,
                x,
                y,
            ) {
                TileCell::floor_cell()
            } else {
                old(grid).at(x, y)
            },
        old(grid).grows_to(final(grid)),
        old(grid).same_outside(final(grid), 1, 1, old(grid).w() - 1, old(grid).h() - 1),
{
    proof {
        lemma_cell_fits(cx as int, cell_size as int, (grid.w() - 1) / cell_size as int, grid.w() as int);
        lemma_cell_fits(cy as int, cell_size as int, (grid.h() - 1) / cell_size as int, grid.h() as int);
    }
    let x = 1 + cx * cell_size;
    let y = 1 + cy * cell_size;
    let corridor = cell_size - 1;
    grid.fill_rect(x as i32, y as i32, corridor, corridor, TileCell::floor());
}

/// Floors the wall strip between maze cell `(cx, cy)` and its 4-neighbour
/// `(nx, ny)`.
pub fn carve_passage(grid: &mut Grid<TileCell>, cx: usize, cy: usize, nx: usize, ny: usize, cell_size: usize)
    requires
        old(grid).wf(),
        1 <= old(grid).w() <= i32::MAX,
        1 <= old(grid).h() <= i32::MAX,
        cell_size >= 1,
        cx < (old(grid).w() - 1) / cell_size as int,
        cy < (old(grid).h() - 1) / cell_size as int,
        nx < (old(grid).w() - 1) / cell_size as int,
        ny < (old(grid).h() - 1) / cell_size as int,
        (nx == cx + 1 && ny == cy) || (nx + 1 == cx && ny == cy) || (nx == cx && ny == cy + 1) || (nx == cx && ny
            + 1 == cy),
    ensures
        final(grid).wf(),
        final(grid).w() == old(grid).w(),
        final(grid).h() == old(grid).h(),
        forall|x: int, y: int|
            old(grid).contains(x, y) ==> #[trigger] final(grid).at(x, y) == if in_passage(
                (cx, cy),
                (nx, ny),
                cell_size as int,
                x,
                y,
            ) {
                TileCell::floor_cell()
            } else {
                old(grid).at(x, y)
            },
        old(grid).grows_to(final(grid)),
        old(grid).same_outside(final(grid), 1, 1, old(grid).w() - 1, old(grid).h() - 1),
{
    let ghost mw = (grid.w() - 1) / cell_size as int;
    let ghost mh = (grid.h() - 1) / cell_size as int;
    proof {
        lemma_cell_fits(cx as int, cell_size as int, mw, grid.w() as int);
        lemma_cell_fits(cy as int, cell_size as int, mh, grid.h() as int);
        lemma_cell_fits(nx as int, cell_size as int, mw, grid.w() as int);
        lemma_cell_fits(ny as int, cell_size as int, mh, grid.h() as int);
        assert((cx + 1) * cell_size == cx * cell_size + cell_size) by (nonlinear_arith);
        assert((cy + 1) * cell_size == cy * cell_size + cell_size) by (nonlinear_arith);
        assert((nx + 1) * cell_size == nx * cell_size + cell_size) by (nonlinear_arith);
        assert((ny + 1) * cell_size == ny * cell_size + cell_size) by (nonlinear_arith);
    }
    let corridor = cell_size - 1;
    if nx > cx {
        let x = 1 + cx * cell_size + corridor;
        let y = 1 + cy * cell_size;
        grid.fill_rect(x as i32, y as i32, 1, corridor, TileCell::floor());
    } else if nx < cx {
        let x = 1 + nx * cell_size + corridor;
        let y = 1 + ny * cell_size;
        grid.fill_rect(x as i32, y as i32, 1, corridor, TileCell::floor());
    } else if ny > cy {
        let x = 1 + cx * cell_size;
        let y = 1 + cy * cell_size + corridor;
        grid.fill_rect(x as i32, y as i32, corridor, 1, TileCell::floor());
    } else {
        let x = 1 + nx * cell_size;
        let y = 1 + ny * cell_size + corridor;
        grid.fill_rect(x as i32, y as i32, corridor, 1, TileCell::floor());
    }
}

/// Whether maze cell `(x, y)` is marked; marks are stored column by column.
pub open spec fn maze_seen(visited: Seq<bool>, h: int, x: int, y: int) -> bool {
    visited[x * h + y]
}

/// The unvisited in-range 4-neighbours of `(x, y)`: west, east, north, south.
pub open spec fn unvisited_spec(x: int, y: int, w: int, h: int, visited: Seq<bool>) -> Seq<(usize, usize)> {
    (if x > 0 && !maze_seen(visited, h, x - 1, y) { seq![((x - 1) as usize, y as usize)] } else { seq![] })
    + (if x + 1 < w && !maze_seen(visited, h, x + 1, y) { seq![((x + 1) as usize, y as usize)] } else { seq![] })
    + (if y > 0 && !maze_seen(visited, h, x, y - 1) { seq![(x as usize, (y - 1) as usize)] } else { seq![] })
    + (if y + 1 < h && !maze_seen(visited, h, x, y + 1) { seq![(x as usize, (y + 1) as usize)] } else { seq![] })
}

proof fn lemma_maze_index(w: int, h: int, x: int, y: int)
    requires
        0 <= x < w,
        0 <= y < h,
    ensures
        0 <= x * h + y < w * h,
{
    crate::grid::lemma_cell_index_bounds(h, w, y, x);
    assert(x * h + y == crate::grid::cell_index(h, y, x));
    assert(h * w == w * h) by (nonlinear_arith);
}

/// The unvisited in-range 4-neighbours of maze cell `(x, y)`.
pub fn get_unvisited_neighbors(x: usize, y: usize, w: usize, h: usize, visited: &Vec<bool>) -> (r: Vec<(usize, usize)>)
    requires
        x < w,
        y < h,
        visited@.len() == w * h,
    ensures
        r@ == unvisited_spec(x as int, y as int, w as int, h as int, visited@),
{
    let n = visited.len();
    let mut out: Vec<(usize, usize)> = Vec::new();
    proof {
        lemma_maze_index(w as int, h as int, x as int, y as int);
    }
    if x > 0 {
        proof {
            lemma_maze_index(w as int, h as int, x - 1, y as int);
        }
        if !visited[(x - 1) * h + y] {
            out.push((x - 1, y));
        }
    }
    if x + 1 < w {
        proof {
            lemma_maze_index(w as int, h as int, x + 1, y as int);
        }
        if !visited[(x + 1) * h + y] {
            out.push((x + 1, y));
        }
    }
    if y > 0 {
        proof {
            lemma_maze_index(w as int, h as int, x as int, y - 1);
        }
        if !visited[x * h + (y - 1)] {
            out.push((x, y - 1));
        }
    }
    if y + 1 < h {
        proof {
            lemma_maze_index(w as int, h as int, x as int, y + 1);
        }
        if !visited[x * h + (y + 1)] {
            out.push((x, y + 1));
        }
    }
    assert(out@ =~= unvisited_spec(x as int, y as int, w as int, h as int, visited@));
    out
}

/// `new` is `old` with the maze of passages `es` carved in: the passages
/// form a tree that reaches every maze cell, and exactly the cells that
/// [`maze_covers`] names become floor.
pub open spec fn maze_result(
    old: Grid<TileCell>,
    new: Grid<TileCell>,
    es: Seq<((usize, usize), (usize, usize))>,
    corridor_width: int,
) -> bool {
    let mw = maze_span(old.w() as int, corridor_width);
    let mh = maze_span(old.h() as int, corridor_width);
    &&& maze_tree(es, mw, mh)
    &&& maze_spans(es, mw, mh)
    &&& forall|x: int, y: int|
        old.contains(x, y) ==> #[trigger] new.at(x, y) == if maze_covers(es, mw, mh, corridor_width + 1, x, y) {
            TileCell::floor_cell()
        } else {
            old.at(x, y)
        }
}

/// Marking cell `(nx, ny)` marks it and leaves every other cell as it was.
proof fn lemma_seen_update(visited: Seq<bool>, w: int, h: int, nx: int, ny: int)
    requires
        visited.len() == w * h,
        0 <= nx < w,
        0 <= ny < h,
    ensures
        forall|cx: int, cy: int|
            0 <= cx < w && 0 <= cy < h ==> #[trigger] maze_seen(visited.update(nx * h + ny, true), h, cx, cy) == (
            maze_seen(visited, h, cx, cy) || (cx == nx && cy == ny)),
{
    lemma_maze_index(w, h, nx, ny);
    assert forall|cx: int, cy: int| 0 <= cx < w && 0 <= cy < h implies #[trigger] maze_seen(
        visited.update(nx * h + ny, true),
        h,
        cx,
        cy,
    ) == (maze_seen(visited, h, cx, cy) || (cx == nx && cy == ny)) by {
        lemma_maze_index(w, h, cx, cy);
        if cx * h + cy == nx * h + ny {
            assert(crate::grid::cell_index(h, cy, cx) == crate::grid::cell_index(h, ny, nx));
            crate::grid::lemma_cell_index_injective(h, cy, cx, ny, nx);
        }
    }
}

/// Marked cells whose neighbours are all marked, starting from a marked
/// `(0, 0)`, take in every cell up to `(x, y)`.
proof fn lemma_seen_at(visited: Seq<bool>, w: int, h: int, x: int, y: int)
    requires
        0 <= x < w,
        0 <= y < h,
        maze_seen(visited, h, 0, 0),
        forall|cx: int, cy: int|
            0 <= cx < w && 0 <= cy < h && #[trigger] maze_seen(visited, h, cx, cy) ==> around_seen(visited, w, h, cx, cy),
    ensures
        maze_seen(visited, h, x, y),
    decreases x + y,
{
    if y > 0 {
        lemma_seen_at(visited, w, h, x, y - 1);
        assert(around_seen(visited, w, h, x, y - 1));
    } else if x > 0 {
        lemma_seen_at(visited, w, h, x - 1, y);
        assert(around_seen(visited, w, h, x - 1, y));
    }
}

/// A sequence of `true` entries counts them all.
proof fn lemma_count_all(bs: Seq<bool>)
    requires
        forall|i: int| 0 <= i < bs.len() ==> #[trigger] bs[i],
    ensures
        count_true(bs) == bs.len(),
    decreases bs.len(),
{
    if bs.len() > 0 {
        let d = bs.drop_last();
        assert forall|i: int| 0 <= i < d.len() implies #[trigger] d[i] by {
            assert(d[i] == bs[i]);
        }
        lemma_count_all(d);
    }
}

/// Marking the new end of passage `e` and adding `e` adds to the drawing
/// exactly the passage and the new cell's square.
proof fn lemma_drawn_grow(
    v1: Seq<bool>,
    es: Seq<((usize, usize), (usize, usize))>,
    e: ((usize, usize), (usize, usize)),
    mw: int,
    mh: int,
    ci: int,
    x: int,
    y: int,
)
    requires
        v1.len() == mw * mh,
        e.1.0 < mw,
        e.1.1 < mh,
    ensures
        maze_drawn(v1.update(e.1.0 * mh + e.1.1, true), es.push(e), mw, mh, ci, x, y) == (maze_drawn(
            v1,
            es,
            mw,
            mh,
            ci,
            x,
            y,
        ) || in_passage(e.0, e.1, ci, x, y) || in_cell_square(e.1.0 as int, e.1.1 as int, ci, x, y)),
{
    reveal(maze_drawn);
    let nx = e.1.0 as int;
    let ny = e.1.1 as int;
    let v2 = v1.update(nx * mh + ny, true);
    let es1 = es.push(e);
    lemma_seen_update(v1, mw, mh, nx, ny);
    assert(passage_covers(es1, es.len() as int, ci, x, y) == in_passage(e.0, e.1, ci, x, y));
    if maze_drawn(v1, es, mw, mh, ci, x, y) {
        if exists|qx: int, qy: int|
            0 <= qx < mw && 0 <= qy < mh && maze_seen(v1, mh, qx, qy) && #[trigger] in_cell_square(qx, qy, ci, x, y) {
            let (qx, qy) = choose|qx: int, qy: int|
                0 <= qx < mw && 0 <= qy < mh && maze_seen(v1, mh, qx, qy) && #[trigger] in_cell_square(qx, qy, ci, x, y);
            assert(maze_seen(v2, mh, qx, qy));
        } else {
            let k = choose|k: int| 0 <= k < es.len() && #[trigger] passage_covers(es, k, ci, x, y);
            assert(es1[k] == es[k]);
            assert(passage_covers(es1, k, ci, x, y));
        }
    }
    if in_cell_square(nx, ny, ci, x, y) {
        assert(maze_seen(v2, mh, nx, ny));
    }
    if maze_drawn(v2, es1, mw, mh, ci, x, y) {
        if exists|qx: int, qy: int|
            0 <= qx < mw && 0 <= qy < mh && maze_seen(v2, mh, qx, qy) && #[trigger] in_cell_square(qx, qy, ci, x, y) {
            let (qx, qy) = choose|qx: int, qy: int|
                0 <= qx < mw && 0 <= qy < mh && maze_seen(v2, mh, qx, qy) && #[trigger] in_cell_square(qx, qy, ci, x, y);
            if !(qx == nx && qy == ny) {
                assert(maze_seen(v1, mh, qx, qy));
                assert(maze_drawn(v1, es, mw, mh, ci, x, y));
            }
        } else {
            let k = choose|k: int| 0 <= k < es1.len() && #[trigger] passage_covers(es1, k, ci, x, y);
            if k < es.len() {
                assert(es1[k] == es[k]);
                assert(passage_covers(es, k, ci, x, y));
                assert(maze_drawn(v1, es, mw, mh, ci, x, y));
            }
        }
    }
}

/// The passages grown so far form a tree from `(0, 0)` whose reached
/// cells are exactly the marked ones other than `(0, 0)`, which is marked.
#[verifier::opaque]
spec fn tree_marked(es: Seq<((usize, usize), (usize, usize))>, v: Seq<bool>, mw: int, mh: int) -> bool {
    &&& maze_tree(es, mw, mh)
    &&& maze_seen(v, mh, 0, 0)
    &&& forall|k: int| 0 <= k < es.len() ==> maze_seen(v, mh, (#[trigger] es[k]).1.0 as int, es[k].1.1 as int)
    &&& forall|cx: int, cy: int|
        0 <= cx < mw && 0 <= cy < mh && #[trigger] maze_seen(v, mh, cx, cy) ==> ((cx == 0 && cy == 0)
            || maze_reached(es, cx, cy))
}

/// The search stack holds marked maze cells, and every marked cell that is
/// not on it has all its neighbours marked.
#[verifier::opaque]
spec fn frontier(v: Seq<bool>, st: Seq<(usize, usize)>, mw: int, mh: int) -> bool {
    &&& forall|k: int|
        0 <= k < st.len() ==> (#[trigger] st[k]).0 < mw && st[k].1 < mh && maze_seen(v, mh, st[k].0 as int, st[k].1 as int)
    &&& forall|cx: int, cy: int|
        0 <= cx < mw && 0 <= cy < mh && #[trigger] maze_seen(v, mh, cx, cy) ==> (st.contains((cx as usize, cy as usize))
            || around_seen(v, mw, mh, cx, cy))
}

/// `g` is `g0` with the drawing of the marked squares and the passages.
#[verifier::opaque]
spec fn grid_drawn(
    g0: Grid<TileCell>,
    g: Grid<TileCell>,
    v: Seq<bool>,
    es: Seq<((usize, usize), (usize, usize))>,
    mw: int,
    mh: int,
    ci: int,
) -> bool {
    forall|x: int, y: int|
        g0.contains(x, y) ==> #[trigger] g.at(x, y) == if maze_drawn(v, es, mw, mh, ci, x, y) {
            TileCell::floor_cell()
        } else {
            g0.at(x, y)
        }
}

/// A passage from a marked cell to an unmarked 4-neighbour keeps the
/// passages a tree whose reached cells are the marked ones.
#[verifier::spinoff_prover]
proof fn lemma_tree_grow(
    es: Seq<((usize, usize), (usize, usize))>,
    e: ((usize, usize), (usize, usize)),
    v1: Seq<bool>,
    mw: int,
    mh: int,
)
    requires
        v1.len() == mw * mh,
        tree_marked(es, v1, mw, mh),
        e.0.0 < mw && e.0.1 < mh && e.1.0 < mw && e.1.1 < mh,
        maze_adjacent(e.0, e.1),
        maze_seen(v1, mh, e.0.0 as int, e.0.1 as int),
        !maze_seen(v1, mh, e.1.0 as int, e.1.1 as int),
    ensures
        tree_marked(es.push(e), v1.update(e.1.0 * mh + e.1.1, true), mw, mh),
{
    reveal(tree_marked);
    let nx = e.1.0 as int;
    let ny = e.1.1 as int;
    let v2 = v1.update(nx * mh + ny, true);
    let es1 = es.push(e);
    lemma_seen_update(v1, mw, mh, nx, ny);
    assert(!(nx == 0 && ny == 0));
    assert forall|k: int| 0 <= k < es1.len() implies {
        let f = #[trigger] es1[k];
        &&& f.0.0 < mw && f.0.1 < mh && f.1.0 < mw && f.1.1 < mh
        &&& maze_adjacent(f.0, f.1)
        &&& f.1 != (0usize, 0usize)
        &&& (f.0 == (0usize, 0usize) || exists|j: int| 0 <= j < k && es1[j].1 == f.0)
    } by {
        if k < es.len() {
            assert(es1[k] == es[k]);
            if es[k].0 != (0usize, 0usize) {
                let j = choose|j: int| 0 <= j < k && es[j].1 == es[k].0;
                assert(es1[j] == es[j]);
            }
        } else {
            if e.0 != (0usize, 0usize) {
                let cx = e.0.0 as int;
                let cy = e.0.1 as int;
                assert(maze_seen(v1, mh, cx, cy));
                assert(maze_reached(es, cx, cy));
                let j = choose|j: int| 0 <= j < es.len() && (#[trigger] es[j]).1 == (cx as usize, cy as usize);
                assert(es1[j] == es[j]);
            }
        }
    }
    assert forall|j: int, k: int| 0 <= j < k < es1.len() implies (#[trigger] es1[j]).1 != (#[trigger] es1[k]).1 by {
        assert(es1[j] == es[j]);
        if k == es.len() {
            assert(maze_seen(v1, mh, es[j].1.0 as int, es[j].1.1 as int));
        } else {
            assert(es1[k] == es[k]);
        }
    }
    assert forall|k: int| 0 <= k < es1.len() implies maze_seen(v2, mh, (#[trigger] es1[k]).1.0 as int, es1[k].1.1 as int) by {
        if k < es.len() {
            assert(es1[k] == es[k]);
        }
    }
    assert forall|px: int, py: int|
        0 <= px < mw && 0 <= py < mh && #[trigger] maze_seen(v2, mh, px, py) implies ((px == 0 && py == 0)
        || maze_reached(es1, px, py)) by {
        if px == nx && py == ny {
            assert(es1[es.len() as int].1 == (px as usize, py as usize));
        } else if !(px == 0 && py == 0) {
            assert(maze_seen(v1, mh, px, py));
            let k = choose|k: int| 0 <= k < es.len() && (#[trigger] es[k]).1 == (px as usize, py as usize);
            assert(es1[k] == es[k]);
        }
    }
}

/// Facts about the top of a non-empty search stack.
proof fn lemma_frontier_top(v: Seq<bool>, st: Seq<(usize, usize)>, mw: int, mh: int)
    requires
        frontier(v, st, mw, mh),
        st.len() > 0,
    ensures
        st.last().0 < mw && st.last().1 < mh,
        maze_seen(v, mh, st.last().0 as int, st.last().1 as int),
{
    reveal(frontier);
    assert(st[st.len() - 1] == st.last());
}

/// Popping a cell whose neighbours are all marked keeps the frontier.
proof fn lemma_frontier_pop(v: Seq<bool>, st: Seq<(usize, usize)>, mw: int, mh: int)
    requires
        frontier(v, st, mw, mh),
        st.len() > 0,
        around_seen(v, mw, mh, st.last().0 as int, st.last().1 as int),
        mw <= usize::MAX,
        mh <= usize::MAX,
    ensures
        frontier(v, st.drop_last(), mw, mh),
{
    reveal(frontier);
    let d = st.drop_last();
    let t = st.last();
    assert forall|k: int| 0 <= k < d.len() implies (#[trigger] d[k]).0 < mw && d[k].1 < mh && maze_seen(
        v,
        mh,
        d[k].0 as int,
        d[k].1 as int,
    ) by {
        assert(d[k] == st[k]);
    }
    assert forall|px: int, py: int|
        0 <= px < mw && 0 <= py < mh && #[trigger] maze_seen(v, mh, px, py) implies (d.contains((px as usize, py as usize))
        || around_seen(v, mw, mh, px, py)) by {
        if st.contains((px as usize, py as usize)) && !(px == t.0 && py == t.1) {
            let k = choose|k: int| 0 <= k < st.len() && st[k] == (px as usize, py as usize);
            assert(st[st.len() - 1] == t);
            assert(k < st.len() - 1);
            assert(d[k] == st[k]);
        }
    }
}

/// Marking a cell and pushing it keeps the frontier.
proof fn lemma_frontier_push(v1: Seq<bool>, st: Seq<(usize, usize)>, mw: int, mh: int, nx: int, ny: int)
    requires
        v1.len() == mw * mh,
        frontier(v1, st, mw, mh),
        0 <= nx < mw <= usize::MAX,
        0 <= ny < mh <= usize::MAX,
    ensures
        frontier(v1.update(nx * mh + ny, true), st.push((nx as usize, ny as usize)), mw, mh),
{
    reveal(frontier);
    let v2 = v1.update(nx * mh + ny, true);
    let s2 = st.push((nx as usize, ny as usize));
    lemma_seen_update(v1, mw, mh, nx, ny);
    assert forall|k: int| 0 <= k < s2.len() implies (#[trigger] s2[k]).0 < mw && s2[k].1 < mh && maze_seen(
        v2,
        mh,
        s2[k].0 as int,
        s2[k].1 as int,
    ) by {
        if k < st.len() {
            assert(s2[k] == st[k]);
            assert(maze_seen(v1, mh, st[k].0 as int, st[k].1 as int));
        } else {
            assert(s2[k].0 as int == nx && s2[k].1 as int == ny);
            assert(maze_seen(v2, mh, nx, ny));
        }
    }
    assert forall|px: int, py: int|
        0 <= px < mw && 0 <= py < mh && #[trigger] maze_seen(v2, mh, px, py) implies (s2.contains(
        (px as usize, py as usize),
    ) || around_seen(v2, mw, mh, px, py)) by {
        if px == nx && py == ny {
            assert(s2[st.len() as int] == (px as usize, py as usize));
        } else {
            assert(maze_seen(v1, mh, px, py));
            if st.contains((px as usize, py as usize)) {
                let k = choose|k: int| 0 <= k < st.len() && st[k] == (px as usize, py as usize);
                assert(s2[k] == st[k]);
            } else {
                assert(around_seen(v1, mw, mh, px, py));
            }
        }
    }
}

/// Carving the passage and the new square onto a drawn grid gives the
/// drawing of the grown maze.
proof fn lemma_grid_grow(
    g0: Grid<TileCell>,
    g1: Grid<TileCell>,
    g2: Grid<TileCell>,
    g3: Grid<TileCell>,
    v1: Seq<bool>,
    es: Seq<((usize, usize), (usize, usize))>,
    e: ((usize, usize), (usize, usize)),
    mw: int,
    mh: int,
    ci: int,
)
    requires
        v1.len() == mw * mh,
        e.1.0 < mw,
        e.1.1 < mh,
        g1.w() == g0.w() && g1.h() == g0.h(),
        g2.w() == g0.w() && g2.h() == g0.h(),
        grid_drawn(g0, g1, v1, es, mw, mh, ci),
        forall|x: int, y: int|
            g1.contains(x, y) ==> #[trigger] g2.at(x, y) == if in_passage(e.0, e.1, ci, x, y) {
                TileCell::floor_cell()
            } else {
                g1.at(x, y)
            },
        forall|x: int, y: int|
            g2.contains(x, y) ==> #[trigger] g3.at(x, y) == if in_cell_square(e.1.0 as int, e.1.1 as int, ci, x, y) {
                TileCell::floor_cell()
            } else {
                g2.at(x, y)
            },
    ensures
        grid_drawn(g0, g3, v1.update(e.1.0 * mh + e.1.1, true), es.push(e), mw, mh, ci),
{
    reveal(grid_drawn);
    assert forall|x: int, y: int| g0.contains(x, y) implies #[trigger] g3.at(x, y) == if maze_drawn(
        v1.update(e.1.0 * mh + e.1.1, true),
        es.push(e),
        mw,
        mh,
        ci,
        x,
        y,
    ) {
        TileCell::floor_cell()
    } else {
        g0.at(x, y)
    } by {
        lemma_drawn_grow(v1, es, e, mw, mh, ci, x, y);
        assert(g2.at(x, y) == if in_passage(e.0, e.1, ci, x, y) {
            TileCell::floor_cell()
        } else {
            g1.at(x, y)
        });
        assert(g1.at(x, y) == if maze_drawn(v1, es, mw, mh, ci, x, y) {
            TileCell::floor_cell()
        } else {
            g0.at(x, y)
        });
    }
}

/// A sequence of `false` entries counts none.
proof fn lemma_count_true_zero(bs: Seq<bool>)
    requires
        forall|i: int| 0 <= i < bs.len() ==> !#[trigger] bs[i],
    ensures
        count_true(bs) == 0,
    decreases bs.len(),
{
    if bs.len() > 0 {
        let d = bs.drop_last();
        assert forall|i: int| 0 <= i < d.len() implies !#[trigger] d[i] by {
            assert(d[i] == bs[i]);
        }
        lemma_count_true_zero(d);
    }
}

/// Carves the passage from maze cell `(cx, cy)` to its unmarked neighbour
/// `(nx, ny)` and the neighbour's square, keeping the grid the drawing of
/// the maze grown by that passage.
fn carve_step(
    grid: &mut Grid<TileCell>,
    cx: usize,
    cy: usize,
    nx: usize,
    ny: usize,
    cell: usize,
    Ghost(g0): Ghost<Grid<TileCell>>,
    Ghost(v1): Ghost<Seq<bool>>,
    Ghost(es): Ghost<Seq<((usize, usize), (usize, usize))>>,
)
    requires
        old(grid).wf(),
        old(grid).w() == g0.w(),
        old(grid).h() == g0.h(),
        1 <= g0.w() <= i32::MAX,
        1 <= g0.h() <= i32::MAX,
        cell >= 1,
        cx < (g0.w() - 1) / cell as int,
        cy < (g0.h() - 1) / cell as int,
        nx < (g0.w() - 1) / cell as int,
        ny < (g0.h() - 1) / cell as int,
        maze_adjacent((cx, cy), (nx, ny)),
        v1.len() == ((g0.w() - 1) / cell as int) * ((g0.h() - 1) / cell as int),
        grid_drawn(
            g0,
            *old(grid),
            v1,
            es,
            (g0.w() - 1) / cell as int,
            (g0.h() - 1) / cell as int,
            cell as int,
        ),
        g0.grows_to(old(grid)),
        g0.same_outside(old(grid), 1, 1, g0.w() - 1, g0.h() - 1),
    ensures
        final(grid).wf(),
        final(grid).w() == g0.w(),
        final(grid).h() == g0.h(),
        grid_drawn(
            g0,
            *final(grid),
            v1.update(nx * ((g0.h() - 1) / cell as int) + ny, true),
            es.push(((cx, cy), (nx, ny))),
            (g0.w() - 1) / cell as int,
            (g0.h() - 1) / cell as int,
            cell as int,
        ),
        g0.grows_to(final(grid)),
        g0.same_outside(final(grid), 1, 1, g0.w() - 1, g0.h() - 1),
{
    let ghost g1 = *grid;
    carve_passage(grid, cx, cy, nx, ny, cell);
    let ghost g2 = *grid;
    carve_cell(grid, nx, ny, cell);
    proof {
        g0.lemma_grows_trans(&g1, &g2);
        g0.lemma_grows_trans(&g2, grid);
        lemma_grid_grow(
            g0,
            g1,
            g2,
            *grid,
            v1,
            es,
            ((cx, cy), (nx, ny)),
            (g0.w() - 1) / cell as int,
            (g0.h() - 1) / cell as int,
            cell as int,
        );
    }
}

/// The backtracker's state: the marks, the stack of maze cells, the
/// passages so far and the word position of the next draw.
pub open spec fn maze_start(mw: int, mh: int) -> (
    Seq<bool>,
    Seq<(usize, usize)>,
    Seq<((usize, usize), (usize, usize))>,
    u128,
) {
    (Seq::new((mw * mh) as nat, |i: int| false).update(0, true), seq![(0usize, 0usize)], Seq::empty(), 0)
}

/// One round of the backtracker on a `mw` by `mh` maze with the stream of
/// `seed`: with the stack empty nothing changes; else, when the cell on top
/// has no unmarked neighbour it is popped, and otherwise the stream picks
/// one of them ([`unvisited_spec`] order), which is marked, pushed, and
/// joined to the top by a passage.
#[verifier::opaque]
pub open spec fn maze_round(
    mw: int,
    mh: int,
    seed: u64,
    st: (Seq<bool>, Seq<(usize, usize)>, Seq<((usize, usize), (usize, usize))>, u128),
) -> (Seq<bool>, Seq<(usize, usize)>, Seq<((usize, usize), (usize, usize))>, u128) {
    if st.1.len() == 0 {
        st
    } else {
        let top = st.1.last();
        let nb = unvisited_spec(top.0 as int, top.1 as int, mw, mh, st.0);
        if nb.len() == 0 {
            (st.0, st.1.drop_last(), st.2, st.3)
        } else {
            let d = chacha_usize_in(seed, st.3, 0, nb.len() as usize, usize::BITS);
            let next = nb[d.0 as int];
            (st.0.update(next.0 * mh + next.1, true), st.1.push(next), st.2.push((top, next)), d.1)
        }
    }
}

/// The backtracker's state after `k` rounds.
pub open spec fn maze_run(mw: int, mh: int, seed: u64, k: nat) -> (
    Seq<bool>,
    Seq<(usize, usize)>,
    Seq<((usize, usize), (usize, usize))>,
    u128,
)
    decreases k,
{
    if k == 0 {
        maze_start(mw, mh)
    } else {
        maze_round(mw, mh, seed, maze_run(mw, mh, seed, (k - 1) as nat))
    }
}

/// The passages `es` are those the backtracker has made on a `mw` by `mh`
/// maze with the stream of `seed` once its stack runs empty.
pub open spec fn maze_passages(mw: int, mh: int, seed: u64, es: Seq<((usize, usize), (usize, usize))>) -> bool {
    exists|k: nat| #[trigger] maze_run(mw, mh, seed, k).1.len() == 0 && maze_run(mw, mh, seed, k).2 == es
}

/// A round whose top cell has no unmarked neighbour pops it.
proof fn lemma_round_pop(mw: int, mh: int, seed: u64, k: nat)
    requires
        maze_run(mw, mh, seed, k).1.len() > 0,
        unvisited_spec(
            maze_run(mw, mh, seed, k).1.last().0 as int,
            maze_run(mw, mh, seed, k).1.last().1 as int,
            mw,
            mh,
            maze_run(mw, mh, seed, k).0,
        ).len() == 0,
    ensures
        ({
            let st = maze_run(mw, mh, seed, k);
            maze_run(mw, mh, seed, k + 1) == (st.0, st.1.drop_last(), st.2, st.3)
        }),
{
    reveal(maze_round);
}

/// A round whose top cell has unmarked neighbours marks, pushes and joins
/// the one the stream picks.
proof fn lemma_round_push(mw: int, mh: int, seed: u64, k: nat)
    requires
        maze_run(mw, mh, seed, k).1.len() > 0,
        unvisited_spec(
            maze_run(mw, mh, seed, k).1.last().0 as int,
            maze_run(mw, mh, seed, k).1.last().1 as int,
            mw,
            mh,
            maze_run(mw, mh, seed, k).0,
        ).len() > 0,
    ensures
        ({
            let st = maze_run(mw, mh, seed, k);
            let top = st.1.last();
            let nb = unvisited_spec(top.0 as int, top.1 as int, mw, mh, st.0);
            let d = chacha_usize_in(seed, st.3, 0, nb.len() as usize, usize::BITS);
            let next = nb[d.0 as int];
            maze_run(mw, mh, seed, k + 1) == (
                st.0.update(next.0 * mh + next.1, true),
                st.1.push(next),
                st.2.push((top, next)),
                d.1,
            )
        }),
{
    reveal(maze_round);
}

/// Once the stack is empty, further rounds change nothing.
proof fn lemma_maze_done(mw: int, mh: int, seed: u64, k: nat, m: nat)
    requires
        k <= m,
        maze_run(mw, mh, seed, k).1.len() == 0,
    ensures
        maze_run(mw, mh, seed, m) == maze_run(mw, mh, seed, k),
    decreases m - k,
{
    reveal(maze_round);
    if k < m {
        lemma_maze_done(mw, mh, seed, k, (m - 1) as nat);
    }
}

/// What [`Maze::generate`] makes of the grid `g0` with `seed`: grids with
/// fewer than two maze cells each way stay as they were; on others the
/// passages are those the stream of `seed` picks ([`maze_passages`]) and
/// `g1` is `g0` with the maze carved in.
pub open spec fn maze_outcome(c: MazeConfig, seed: u64, g0: Grid<TileCell>, g1: Grid<TileCell>) -> bool {
    &&& (maze_span(g0.w() as int, c.corridor_width as int) < 2 || maze_span(
            g0.h() as int,
            c.corridor_width as int,
        ) < 2) ==> g1 == g0
    &&& (maze_span(g0.w() as int, c.corridor_width as int) >= 2 && maze_span(
            g0.h() as int,
            c.corridor_width as int,
        ) >= 2) ==> exists|es: Seq<((usize, usize), (usize, usize))>|
            #[trigger] maze_result(g0, g1, es, c.corridor_width as int) && maze_passages(
                maze_span(g0.w() as int, c.corridor_width as int),
                maze_span(g0.h() as int, c.corridor_width as int),
                seed,
                es,
            )
    &&& g1.wf()
    &&& g0.grows_to(&g1)
    &&& g0.same_outside(&g1, 1, 1, g0.w() - 1, g0.h() - 1)
}

/// Maze generation is deterministic: the same configuration, seed and grid
/// give the same result.
pub proof fn law_maze_deterministic(c: MazeConfig, seed: u64, g0: Grid<TileCell>, g1: Grid<TileCell>, g2: Grid<TileCell>)
    requires
        maze_outcome(c, seed, g0, g1),
        maze_outcome(c, seed, g0, g2),
    ensures
        g1.cells() == g2.cells(),
{
    let cw = c.corridor_width as int;
    let mw = maze_span(g0.w() as int, cw);
    let mh = maze_span(g0.h() as int, cw);
    if mw >= 2 && mh >= 2 {
        let e1 = choose|es: Seq<((usize, usize), (usize, usize))>|
            #[trigger] maze_result(g0, g1, es, cw) && maze_passages(mw, mh, seed, es);
        let e2 = choose|es: Seq<((usize, usize), (usize, usize))>|
            #[trigger] maze_result(g0, g2, es, cw) && maze_passages(mw, mh, seed, es);
        let k1 = choose|k: nat| #[trigger] maze_run(mw, mh, seed, k).1.len() == 0 && maze_run(mw, mh, seed, k).2 == e1;
        let k2 = choose|k: nat| #[trigger] maze_run(mw, mh, seed, k).1.len() == 0 && maze_run(mw, mh, seed, k).2 == e2;
        if k1 <= k2 {
            lemma_maze_done(mw, mh, seed, k1, k2);
        } else {
            lemma_maze_done(mw, mh, seed, k2, k1);
        }
        assert forall|x: int, y: int| g2.contains(x, y) implies #[trigger] g2.at(x, y) == g1.cells()[cell_index(
            g2.w() as int,
            x,
            y,
        )] by {
            assert(g1.at(x, y) == g2.at(x, y));
        }
        g2.lemma_cells_match(g1.cells());
    }
}

impl Maze {
    /// Carves a perfect maze with the recursive backtracker: maze cells are
    /// `corridor_width` squares one wall apart, starting at the top-left
    /// one. Grids with fewer than two maze cells each way are left alone;
    /// on others every maze cell's square is floored and the passages form a
    /// tree that reaches every maze cell from the top-left one, and nothing
    /// else changes.
    #[verifier::spinoff_prover]
    #[verifier::rlimit(30)]
    pub fn generate(&self, grid: &mut Grid<TileCell>, seed: u64)
        requires
            old(grid).wf(),
            1 <= old(grid).w() <= i32::MAX,
            1 <= old(grid).h() <= i32::MAX,
            self.config().corridor_width < usize::MAX,
        ensures
            maze_outcome(self.config(), seed, *old(grid), *final(grid)),
    {
        let ghost g0 = *grid;
        let mut rng = Rng::new(seed);
        let w = grid.width();
        let h = grid.height();
        let cell = self.config.corridor_width + 1;
        let maze_w = (w - 1) / cell;
        let maze_h = (h - 1) / cell;
        if maze_w < 2 || maze_h < 2 {
            return;
        }
        proof {
            assert(maze_w * maze_h <= w * h) by (nonlinear_arith)
                requires
                    maze_w <= w,
                    maze_h <= h,
            ;
            assert(maze_w <= w) by (nonlinear_arith)
                requires
                    maze_w == (w - 1) / (cell as int),
                    cell >= 1,
                    w >= 1,
            ;
            assert(maze_h <= h) by (nonlinear_arith)
                requires
                    maze_h == (h - 1) / (cell as int),
                    cell >= 1,
                    h >= 1,
            ;
            assert(w * h <= usize::MAX);
        }
        let ghost mw = maze_w as int;
        let ghost mh = maze_h as int;
        let ghost ci = cell as int;
        let n = maze_w * maze_h;
        let mut visited: Vec<bool> = Vec::with_capacity(n);
        let mut i: usize = 0;
        while i < n
            invariant
                i <= n,
                visited@.len() == i,
                forall|j: int| 0 <= j < i ==> !visited@[j],
            decreases n - i,
        {
            visited.push(false);
            i = i + 1;
        }
        let mut stack: Vec<(usize, usize)> = Vec::new();
        let ghost mut es: Seq<((usize, usize), (usize, usize))> = Seq::empty();
        let ghost v0 = visited@;
        proof {
            lemma_maze_index(mw, mh, 0, 0);
            lemma_count_true_flip(visited@, 0);
            lemma_seen_update(visited@, mw, mh, 0, 0);
            assert forall|cx: int, cy: int| 0 <= cx < mw && 0 <= cy < mh implies !maze_seen(v0, mh, cx, cy) by {
                lemma_maze_index(mw, mh, cx, cy);
            }
            lemma_count_true_zero(v0);
        }
        visited.set(0, true);
        carve_cell(grid, 0, 0, cell);
        stack.push((0, 0));
        proof {
            lemma_count_true_bound(visited@);
            reveal(grid_drawn);
            reveal(tree_marked);
            reveal(frontier);
            assert forall|x: int, y: int| g0.contains(x, y) implies #[trigger] grid.at(x, y) == if maze_drawn(
                visited@,
                es,
                mw,
                mh,
                ci,
                x,
                y,
            ) {
                TileCell::floor_cell()
            } else {
                g0.at(x, y)
            } by {
                reveal(maze_drawn);
                if in_cell_square(0, 0, ci, x, y) {
                    assert(maze_seen(visited@, mh, 0, 0));
                }
            }
            assert(stack@[0] == (0usize, 0usize));
            assert forall|cx: int, cy: int|
                0 <= cx < mw && 0 <= cy < mh && #[trigger] maze_seen(visited@, mh, cx, cy) implies (stack@.contains(
                (cx as usize, cy as usize),
            ) || around_seen(visited@, mw, mh, cx, cy)) by {
                assert(cx == 0 && cy == 0);
                assert(stack@[0] == (cx as usize, cy as usize));
            }
            assert(v0 =~= Seq::new((mw * mh) as nat, |i: int| false));
            assert(stack@ =~= seq![(0usize, 0usize)]);
        }
        let ghost mut rounds: nat = 0;
        while stack.len() > 0
            invariant
                rng.seed_of() == seed,
                (visited@, stack@, es, rng.pos_of()) == maze_run(mw, mh, seed, rounds),
                w == g0.w(),
                h == g0.h(),
                1 <= w <= i32::MAX,
                1 <= h <= i32::MAX,
                cell >= 1,
                ci == cell,
                maze_w == (w - 1) / cell as int,
                maze_h == (h - 1) / cell as int,
                mw == maze_w,
                mh == maze_h,
                mw >= 2,
                mh >= 2,
                n == maze_w * maze_h,
                visited@.len() == n,
                count_true(visited@) <= n,
                count_true(visited@) == es.len() + 1,
                tree_marked(es, visited@, mw, mh),
                frontier(visited@, stack@, mw, mh),
                grid.wf(),
                grid.w() == g0.w(),
                grid.h() == g0.h(),
                grid_drawn(g0, *grid, visited@, es, mw, mh, ci),
                g0.grows_to(grid),
                g0.same_outside(grid, 1, 1, w - 1, h - 1),
            decreases 2 * (n - count_true(visited@)) + stack@.len(),
        {
            proof {
                lemma_frontier_top(visited@, stack@, mw, mh);
            }
            let (cx, cy) = stack[stack.len() - 1];
            let neighbors = get_unvisited_neighbors(cx, cy, maze_w, maze_h, &visited);
            if neighbors.len() == 0 {
                proof {
                    assert(around_seen(visited@, mw, mh, cx as int, cy as int));
                    lemma_frontier_pop(visited@, stack@, mw, mh);
                    lemma_round_pop(mw, mh, seed, rounds);
                }
                stack.pop();
                proof {
                    rounds = rounds + 1;
                }
            } else {
                proof {
                    lemma_round_push(mw, mh, seed, rounds);
                }
                let picked = rng.pick(neighbors.as_slice());
                let (nx, ny) = *picked.unwrap();
                proof {
                    let j = choose|j: int| 0 <= j < neighbors@.len() && (nx, ny) == neighbors@[j];
                    assert(nx < maze_w && ny < maze_h && !maze_seen(visited@, maze_h as int, nx as int, ny as int));
                    assert((nx == cx + 1 && ny == cy) || (nx + 1 == cx && ny == cy) || (nx == cx && ny == cy + 1) || (
                    nx == cx && ny + 1 == cy));
                }
                let ghost v1 = visited@;
                let ghost e = ((cx, cy), (nx, ny));
                carve_step(grid, cx, cy, nx, ny, cell, Ghost(g0), Ghost(v1), Ghost(es));
                proof {
                    lemma_maze_index(maze_w as int, maze_h as int, nx as int, ny as int);
                    lemma_count_true_flip(visited@, nx * maze_h + ny);
                }
                visited.set(nx * maze_h + ny, true);
                proof {
                    lemma_count_true_bound(visited@);
                    lemma_tree_grow(es, e, v1, mw, mh);
                    lemma_frontier_push(v1, stack@, mw, mh, nx as int, ny as int);
                    es = es.push(e);
                }
                stack.push((nx, ny));
                proof {
                    rounds = rounds + 1;
                }
            }
        }
        proof {
            reveal(tree_marked);
            reveal(frontier);
            reveal(grid_drawn);
            let v = visited@;
            assert forall|px: int, py: int|
                0 <= px < mw && 0 <= py < mh && #[trigger] maze_seen(v, mh, px, py) implies around_seen(v, mw, mh, px, py) by {
                assert(!stack@.contains((px as usize, py as usize)));
            }
            assert forall|px: int, py: int| 0 <= px < mw && 0 <= py < mh implies #[trigger] maze_seen(v, mh, px, py) by {
                lemma_seen_at(v, mw, mh, px, py);
            }
            assert(mw * mh == mh * mw) by (nonlinear_arith);
            assert forall|j: int| 0 <= j < v.len() implies #[trigger] v[j] by {
                crate::grid::lemma_cell_index_decompose(mh, mw, j);
                assert(maze_seen(v, mh, j / mh, j % mh));
                assert((j / mh) * mh + j % mh == j);
            }
            lemma_count_all(v);
            assert forall|px: int, py: int|
                0 <= px < mw && 0 <= py < mh && !(px == 0 && py == 0) implies #[trigger] maze_reached(es, px, py) by {
                assert(maze_seen(v, mh, px, py));
            }
            assert forall|x: int, y: int| g0.contains(x, y) implies #[trigger] grid.at(x, y) == if maze_covers(
                es,
                mw,
                mh,
                ci,
                x,
                y,
            ) {
                TileCell::floor_cell()
            } else {
                g0.at(x, y)
            } by {
                reveal(maze_drawn);
                if maze_covers(es, mw, mh, ci, x, y) {
                    if exists|qx: int, qy: int| 0 <= qx < mw && 0 <= qy < mh && #[trigger] in_cell_square(qx, qy, ci, x, y) {
                        let (qx, qy) = choose|qx: int, qy: int|
                            0 <= qx < mw && 0 <= qy < mh && #[trigger] in_cell_square(qx, qy, ci, x, y);
                        assert(maze_seen(v, mh, qx, qy));
                    }
                }
            }
            assert(maze_spans(es, mw, mh));
            assert(maze_span(w as int, self.config.corridor_width as int) == mw);
            assert(maze_span(h as int, self.config.corridor_width as int) == mh);
            assert(maze_result(g0, *grid, es, self.config.corridor_width as int));
            assert(maze_run(mw, mh, seed, rounds).1.len() == 0);
            assert(maze_passages(mw, mh, seed, es));
        }
    }

    pub fn name(&self) -> (r: &'static str)
        ensures
            r@ == "Maze"@,
    {
        "Maze"
    }
}

} // verus!

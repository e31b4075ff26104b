//! Drunkard's walk caves.

use crate::grid::{adjacent4, cell_index, lemma_cell_index_bounds, Cell, Grid, Tile, TileCell};
use crate::rng::{chacha_i32_in, Rng, CHANCE_ONE};
use vstd::prelude::*;

verus! {

/// Configuration for the drunkard's walk. `floor_percent` is the share of
/// the grid to turn to floor, in units of `1 / CHANCE_ONE` (see
/// [`crate::rng::CHANCE_ONE`]).
#[derive(Debug, Clone)]
pub struct DrunkardConfig {
    pub floor_percent: u64,
    pub max_iterations: usize,
}

impl Default for DrunkardConfig {
    /// A floor share of 0.4 and at most 50000 steps.
    fn default() -> (r: DrunkardConfig)
        ensures
            r.floor_percent == 3602879701896397,
            r.max_iterations == 50000,
    {
        DrunkardConfig { floor_percent: 3602879701896397, max_iterations: 50000 }
    }
}

/// Drunkard's walk cave generator.
pub struct DrunkardWalk {
    config: DrunkardConfig,
}

impl DrunkardWalk {
    pub fn new(config: DrunkardConfig) -> (r: DrunkardWalk)
        ensures
            r.config() == config,
    {
        DrunkardWalk { config }
    }

    pub closed spec fn config(&self) -> DrunkardConfig {
        self.config
    }
}

impl Default for DrunkardWalk {
    fn default() -> (r: DrunkardWalk)
        ensures
            r.config().floor_percent == 3602879701896397,
            r.config().max_iterations == 50000,
    {
        DrunkardWalk::new(DrunkardConfig::default())
    }
}

/// The number of floor cells the walk aims for: the floor share of the
/// cell count, rounded down, and capped at `usize::MAX`.
pub open spec fn floor_target(w: int, h: int, share: int) -> int {
    let t = w * h * share / CHANCE_ONE as int;
    if t > usize::MAX {
        usize::MAX as int
    } else {
        t
    }
}

/// The walk target (see [`floor_target`]) for `n == w * h` cells.
fn walk_target(n: usize, share: u64, Ghost(w): Ghost<int>, Ghost(h): Ghost<int>) -> (r: usize)
    requires
        n == w * h,
    ensures
        r == floor_target(w, h, share as int),
{
    proof {
        assert((n as int) * (share as int) <= u128::MAX) by (nonlinear_arith)
            requires
                n <= u64::MAX,
                share <= u64::MAX,
        ;
    }
    let t = (n as u128) * (share as u128) / (CHANCE_ONE as u128);
    if t > usize::MAX as u128 {
        usize::MAX
    } else {
        t as usize
    }
}

/// Number of passable cells of a grid, as a function of its cells.
spec fn floor_total(g: &Grid<TileCell>) -> nat {
    g.passable_count()
}

/// Setting a floor cell on a grid raises its passable count by at most one.
proof fn lemma_count_after_set(g1: &Grid<TileCell>, g2: &Grid<TileCell>, x: int, y: int)
    requires
        g1.wf(),
        g1.contains(x, y),
        g2.cells() == g1.cells().update(cell_index(g1.w() as int, x, y), TileCell { tile: Tile::Floor }),
    ensures
        floor_total(g2) <= floor_total(g1) + 1,
{
    lemma_cell_index_bounds(g1.w() as int, g1.h() as int, x, y);
    Grid::<TileCell>::lemma_passable_prefix_update(
        g1.cells(),
        cell_index(g1.w() as int, x, y),
        TileCell { tile: Tile::Floor },
        g1.cells().len() as int,
    );
}

/// A floor set next to an open cell connected to `c` keeps every open cell
/// anchored to `c`, and is itself connected to `c`.
proof fn lemma_walk_step(g0: &Grid<TileCell>, g1: &Grid<TileCell>, g2: &Grid<TileCell>, c: (int, int), from: (int, int), to: (int, int))
    requires
        g0.grows_to(g1),
        g1.anchored(g0, c),
        g1.open_at(from),
        g1.connected(c, from),
        adjacent4(from, to),
        g1.contains(to.0, to.1),
        g2.wf(),
        g2.w() == g1.w(),
        g2.h() == g1.h(),
        forall|px: int, py: int|
            g1.contains(px, py) ==> #[trigger] g2.at(px, py) == if px == to.0 && py == to.1 {
                TileCell { tile: Tile::Floor }
            } else {
                g1.at(px, py)
            },
    ensures
        g1.grows_to(g2),
        g0.grows_to(g2),
        g2.anchored(g0, c),
        g2.connected(c, to),
{
    assert(g1.grows_to(g2));
    g0.lemma_grows_trans(g1, g2);
    assert(g2.open_at(to));
    g1.lemma_grows_connected(g2, c, from);
    g2.lemma_connected_step(c, from, to);
    assert forall|p: (int, int)| #[trigger] g2.open_at(p) implies g2.connected(c, p) || exists|q: (int, int)|
        g0.open_at(q) && #[trigger] g2.connected(q, p) by {
        if p != to {
            assert(g1.open_at(p));
            if g1.connected(c, p) {
                g1.lemma_grows_connected(g2, c, p);
            } else {
                let q = choose|q: (int, int)| g0.open_at(q) && #[trigger] g1.connected(q, p);
                g1.lemma_grows_connected(g2, q, p);
            }
        }
    }
}

/// `path` is a walk of at most `max_steps` moves from `c`: each position
/// after the first is a 4-neighbour of the one before it and lies inside the
/// border ring of a `w` by `h` grid.
pub open spec fn walk_path_ok(path: Seq<(int, int)>, c: (int, int), w: int, h: int, max_steps: int) -> bool {
    &&& 1 <= path.len() <= max_steps + 1
    &&& path[0] == c
    &&& forall|i: int|
        1 <= i < path.len() ==> adjacent4(path[i - 1], #[trigger] path[i]) && 1 <= path[i].0 < w - 1 && 1
            <= path[i].1 < h - 1
}

/// The walk `path` passes through `(x, y)`.
pub open spec fn on_walk(path: Seq<(int, int)>, x: int, y: int) -> bool {
    exists|i: int| 0 <= i < path.len() && #[trigger] path[i] == (x, y)
}

/// `new` is `old` with floor on every cell the walk passes through.
pub open spec fn walked(old: Grid<TileCell>, new: Grid<TileCell>, path: Seq<(int, int)>) -> bool {
    &&& new.wf()
    &&& new.w() == old.w()
    &&& new.h() == old.h()
    &&& forall|x: int, y: int|
        old.contains(x, y) ==> #[trigger] new.at(x, y) == if on_walk(path, x, y) {
            TileCell::floor_cell()
        } else {
            old.at(x, y)
        }
}

/// One step of the walk on `g0`, from the walk so far, the number of floor
/// cells made and the word position of the next draw on the stream of
/// `seed`: once `target` floor cells are made nothing changes; else a
/// direction is drawn (right, left, down, up) and, if the move stays inside
/// the border ring, the walk enters the cell, which counts when it was not
/// floor yet.
pub open spec fn drunk_step(g0: Grid<TileCell>, target: int, seed: u64, st: (Seq<(int, int)>, int, u128)) -> (
    Seq<(int, int)>,
    int,
    u128,
) {
    if st.1 >= target {
        st
    } else {
        let d = chacha_i32_in(seed, st.2, 0, 4);
        let at = st.0.last();
        let nx = at.0 + if d.0 == 0 {
            1int
        } else if d.0 == 1 {
            -1int
        } else {
            0int
        };
        let ny = at.1 + if d.0 == 2 {
            1int
        } else if d.0 == 3 {
            -1int
        } else {
            0int
        };
        if 0 < nx < g0.w() - 1 && 0 < ny < g0.h() - 1 {
            let was_floor = on_walk(st.0, nx, ny) || g0.at(nx, ny).tile == Tile::Floor;
            (st.0.push((nx, ny)), if was_floor {
                st.1
            } else {
                st.1 + 1
            }, d.1)
        } else {
            (st.0, st.1, d.1)
        }
    }
}

/// The walk after `k` steps from the centre of `g0`, which counts as one
/// floor cell made, at the start of the stream of `seed`.
pub open spec fn drunk_run(g0: Grid<TileCell>, target: int, seed: u64, k: nat) -> (Seq<(int, int)>, int, u128)
    decreases k,
{
    if k == 0 {
        (seq![((g0.w() / 2) as int, (g0.h() / 2) as int)], 1, 0)
    } else {
        drunk_step(g0, target, seed, drunk_run(g0, target, seed, (k - 1) as nat))
    }
}

/// Once the target is met, further steps change nothing.
proof fn lemma_drunk_done(g0: Grid<TileCell>, target: int, seed: u64, k: nat, m: nat)
    requires
        k <= m,
        drunk_run(g0, target, seed, k).1 >= target,
    ensures
        drunk_run(g0, target, seed, m) == drunk_run(g0, target, seed, k),
    decreases m - k,
{
    if k < m {
        lemma_drunk_done(g0, target, seed, k, (m - 1) as nat);
    }
}

/// What [`DrunkardWalk::generate`] makes of the grid `g0` with `seed`: the
/// walk is the one the stream of `seed` draws ([`drunk_run`] over the step
/// budget), and `g1` is `g0` with floor along it.
pub open spec fn drunkard_outcome(c: DrunkardConfig, seed: u64, g0: Grid<TileCell>, g1: Grid<TileCell>) -> bool {
    &&& g0.grows_to(&g1)
    &&& forall|x: int, y: int|
            g0.contains(x, y) && #[trigger] g1.at(x, y) != g0.at(x, y) ==> (1 <= x < g0.w() - 1 && 1 <= y < g0.h() - 1) || (x == g0.w() / 2 && y == g0.h() / 2)
    &&& g0.w() >= 1 && g0.h() >= 1 ==> g1.at(
            (g0.w() / 2) as int,
            (g0.h() / 2) as int,
        ).tile == Tile::Floor
    &&& g1.anchored(&g0, ((g0.w() / 2) as int, (g0.h() / 2) as int))
    &&& g0.w() == 0 || g0.h() == 0 ==> g1 == g0
    &&& g0.w() >= 1 && g0.h() >= 1 ==> exists|path: Seq<(int, int)>|
            #![trigger walked(g0, g1, path)]
            walk_path_ok(
                path,
                ((g0.w() / 2) as int, (g0.h() / 2) as int),
                g0.w() as int,
                g0.h() as int,
                c.max_iterations as int,
            ) && walked(g0, g1, path) && path == drunk_run(
                g0,
                floor_target(g0.w() as int, g0.h() as int, c.floor_percent as int),
                seed,
                c.max_iterations as nat,
            ).0
    &&& g1.passable_count() <= g0.passable_count() + if floor_target(
            g0.w() as int,
            g0.h() as int,
            c.floor_percent as int,
        ) > 1 {
            floor_target(g0.w() as int, g0.h() as int, c.floor_percent as int)
        } else {
            1
        }
}

/// The drunkard's walk is deterministic: the same configuration, seed and
/// grid give the same result.
pub proof fn law_drunkard_deterministic(
    c: DrunkardConfig,
    seed: u64,
    g0: Grid<TileCell>,
    g1: Grid<TileCell>,
    g2: Grid<TileCell>,
)
    requires
        drunkard_outcome(c, seed, g0, g1),
        drunkard_outcome(c, seed, g0, g2),
    ensures
        g1.cells() == g2.cells(),
{
    if g0.w() >= 1 && g0.h() >= 1 {
        let path = drunk_run(
            g0,
            floor_target(g0.w() as int, g0.h() as int, c.floor_percent as int),
            seed,
            c.max_iterations as nat,
        ).0;
        assert(walked(g0, g1, path));
        assert(walked(g0, g2, path));
        assert forall|x: int, y: int| g2.contains(x, y) implies #[trigger] g2.at(x, y) == g1.cells()[cell_index(
            g2.w() as int,
            x,
            y,
        )] by {
            assert(g1.at(x, y) == g2.at(x, y));
        }
        g2.lemma_cells_match(g1.cells());
    }
}

impl DrunkardWalk {
    /// Walks from the centre cell, one random 4-step at a time, staying
    /// inside the border ring and turning the cells it enters to floor,
    /// until the walk has made as many floor cells as the target (see
    /// [`floor_target`]; the centre counts as one) or the step budget is
    /// spent. Cells only become floor, only the centre and inner cells
    /// change, and every floor cell is connected to the centre or to a cell
    /// that was floor before.
    pub fn generate(&self, grid: &mut Grid<TileCell>, seed: u64)
        requires
            old(grid).wf(),
            old(grid).w() <= i32::MAX,
            old(grid).h() <= i32::MAX,
        ensures
            drunkard_outcome(self.config(), seed, *old(grid), *final(grid)),
    {
        let ghost g0 = *grid;
        let mut rng = Rng::new(seed);
        let w = grid.width();
        let h = grid.height();
        let target = walk_target(w * h, self.config.floor_percent, Ghost(w as int), Ghost(h as int));
        let ghost c = ((w / 2) as int, (h / 2) as int);
        if w == 0 || h == 0 {
            proof {
                assert forall|p: (int, int)| #[trigger] grid.open_at(p) implies grid.connected(c, p) || exists|q: (int, int)|
                    g0.open_at(q) && #[trigger] grid.connected(q, p) by {
                    assert(!grid.contains(p.0, p.1));
                }
            }
            return;
        }
        let mut x = w / 2;
        let mut y = h / 2;
        let ghost g1 = *grid;
        grid.set_at(x, y, TileCell::floor());
        let mut floor_count: usize = 1;
        proof {
            lemma_count_after_set(&g1, grid, c.0, c.1);
            grid.lemma_connected_refl(c);
            assert(g0.grows_to(grid));
            assert forall|p: (int, int)| #[trigger] grid.open_at(p) implies grid.connected(c, p) || exists|q: (int, int)|
                g0.open_at(q) && #[trigger] grid.connected(q, p) by {
                if p != c {
                    assert(g0.open_at(p));
                    g0.lemma_connected_refl(p);
                    g0.lemma_grows_connected(grid, p, p);
                }
            }
        }
        let ghost mut path: Seq<(int, int)> = seq![c];
        proof {
            assert(path[0] == c);
            assert forall|px: int, py: int| g0.contains(px, py) implies #[trigger] grid.at(px, py) == if on_walk(
                path,
                px,
                py,
            ) {
                TileCell::floor_cell()
            } else {
                g0.at(px, py)
            } by {
                if px == c.0 && py == c.1 {
                    assert(path[0] == (px, py));
                }
            }
        }
        let mut step: usize = 0;
        proof {
            if floor_count >= target {
                lemma_drunk_done(g0, target as int, seed, 0, self.config.max_iterations as nat);
            }
        }
        while step < self.config.max_iterations
            invariant
                rng.seed_of() == seed,
                (path, floor_count as int, rng.pos_of()) == drunk_run(g0, target as int, seed, step as nat),
                path.len() <= step + 1,
                step <= self.config.max_iterations,
                walk_path_ok(path, c, w as int, h as int, self.config.max_iterations as int),
                path.last() == (x as int, y as int),
                walked(g0, *grid, path),
                w == g0.w(),
                h == g0.h(),
                1 <= w <= i32::MAX,
                1 <= h <= i32::MAX,
                c == ((w / 2) as int, (h / 2) as int),
                target == floor_target(w as int, h as int, self.config.floor_percent as int),
                g0.grows_to(grid),
                forall|px: int, py: int|
                    g0.contains(px, py) && #[trigger] grid.at(px, py) != g0.at(px, py) ==> (1 <= px < w - 1 && 1 <= py
                        < h - 1) || (px == c.0 && py == c.1),
                grid.at(c.0, c.1).tile == Tile::Floor,
                grid.anchored(&g0, c),
                grid.contains(x as int, y as int),
                grid.open_at((x as int, y as int)),
                grid.connected(c, (x as int, y as int)),
                1 <= floor_count,
                floor_count <= if target > 1 { target } else { 1 },
                floor_total(grid) <= floor_total(&g0) + floor_count,
            ensures
                (path, floor_count as int, rng.pos_of()) == drunk_run(
                    g0,
                    target as int,
                    seed,
                    self.config.max_iterations as nat,
                ),
            decreases self.config.max_iterations - step,
        {
            if floor_count >= target {
                proof {
                    lemma_drunk_done(g0, target as int, seed, step as nat, self.config.max_iterations as nat);
                }
                break;
            }
            let ghost st0 = (path, floor_count as int, rng.pos_of());
            let dir = rng.range(0, 4);
            let (dx, dy): (i32, i32) = if dir == 0 {
                (1, 0)
            } else if dir == 1 {
                (-1, 0)
            } else if dir == 2 {
                (0, 1)
            } else {
                (0, -1)
            };
            let nx = x as i32 + dx;
            let ny = y as i32 + dy;
            if nx > 0 && nx < (w - 1) as i32 && ny > 0 && ny < (h - 1) as i32 {
                let ghost from = (x as int, y as int);
                x = nx as usize;
                y = ny as usize;
                let ghost to = (x as int, y as int);
                let ghost gb = *grid;
                let ghost p0 = path;
                if !grid.cell(x, y).tile.is_floor() {
                    grid.set_at(x, y, TileCell::floor());
                    floor_count = floor_count + 1;
                    proof {
                        lemma_walk_step(&g0, &gb, grid, c, from, to);
                        lemma_count_after_set(&gb, grid, to.0, to.1);
                    }
                } else {
                    proof {
                        grid.lemma_connected_step(c, from, to);
                    }
                }
                proof {
                    path = p0.push(to);
                    assert(path[p0.len() as int] == to);
                    assert forall|i: int| 1 <= i < path.len() implies adjacent4(path[i - 1], #[trigger] path[i]) && 1
                        <= path[i].0 < w - 1 && 1 <= path[i].1 < h - 1 by {
                        if i < p0.len() {
                            assert(path[i] == p0[i] && path[i - 1] == p0[i - 1]);
                        } else {
                            assert(path[i - 1] == p0[p0.len() - 1]);
                        }
                    }
                    assert(path[0] == p0[0]);
                    assert forall|px: int, py: int| g0.contains(px, py) implies #[trigger] grid.at(px, py) == if on_walk(
                        path,
                        px,
                        py,
                    ) {
                        TileCell::floor_cell()
                    } else {
                        g0.at(px, py)
                    } by {
                        assert(gb.at(px, py) == if on_walk(p0, px, py) {
                            TileCell::floor_cell()
                        } else {
                            g0.at(px, py)
                        });
                        if on_walk(p0, px, py) {
                            let i = choose|i: int| 0 <= i < p0.len() && #[trigger] p0[i] == (px, py);
                            assert(path[i] == p0[i]);
                        }
                        if on_walk(path, px, py) && !(px == to.0 && py == to.1) {
                            let i = choose|i: int| 0 <= i < path.len() && #[trigger] path[i] == (px, py);
                            assert(i < p0.len());
                            assert(p0[i] == path[i]);
                        }
                    }
                }
            }
            proof {
                assert((path, floor_count as int, rng.pos_of()) == drunk_step(g0, target as int, seed, st0));
            }
            step = step + 1;
        }
    }
}

} // verus!

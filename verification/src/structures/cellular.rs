//! Cellular automata caves.

use crate::grid::{cell_index, lemma_cell_index_bounds, lemma_cell_index_decompose, lemma_cell_index_injective, Grid, Tile, TileCell};
use crate::rng::{below, u64_draw, u64_pos, Rng, CHANCE_ONE};
use vstd::prelude::*;

verus! {

/// Configuration for cellular automata cave generation. The initial floor
/// chance is in units of `1 / CHANCE_ONE` (see [`crate::rng::CHANCE_ONE`]).
#[derive(Debug, Clone)]
pub struct CellularConfig {
    pub initial_floor_chance: u64,
    pub iterations: usize,
    /// A wall becomes floor with at least this many floor neighbours.
    pub birth_limit: usize,
    /// A floor stays floor with at least this many floor neighbours.
    pub death_limit: usize,
}

impl Default for CellularConfig {
    /// Floor chance 0.45, four iterations, birth at 5, death below 4.
    fn default() -> (r: CellularConfig)
        ensures
            r.initial_floor_chance == 4053239664633447,
            r.iterations == 4,
            r.birth_limit == 5,
            r.death_limit == 4,
    {
        CellularConfig { initial_floor_chance: 4053239664633447, iterations: 4, birth_limit: 5, death_limit: 4 }
    }
}

/// Cellular automata cave generator.
pub struct CellularAutomata {
    config: CellularConfig,
}

impl CellularAutomata {
    pub fn new(config: CellularConfig) -> (r: CellularAutomata)
        ensures
            r.config() == config,
    {
        CellularAutomata { config }
    }

    pub closed spec fn config(&self) -> CellularConfig {
        self.config
    }
}

impl Default for CellularAutomata {
    fn default() -> (r: CellularAutomata)
        ensures
            r.config().initial_floor_chance == 4053239664633447,
            r.config().iterations == 4,
            r.config().birth_limit == 5,
            r.config().death_limit == 4,
    {
        CellularAutomata::new(CellularConfig::default())
    }
}

/// `(x, y)` is a floor cell of the `w` by `h` row-major cells `s`.
pub open spec fn floor_in(s: Seq<TileCell>, w: int, h: int, x: int, y: int) -> bool {
    0 <= x < w && 0 <= y < h && s[cell_index(w, x, y)].tile == Tile::Floor
}

/// `1` for a floor cell, `0` otherwise (outside the grid too).
pub open spec fn floor_bit(s: Seq<TileCell>, w: int, h: int, x: int, y: int) -> int {
    if floor_in(s, w, h, x, y) {
        1
    } else {
        0
    }
}

/// Number of floor cells among the 8 neighbours of `(x, y)`.
pub open spec fn floor_neighbours8(s: Seq<TileCell>, w: int, h: int, x: int, y: int) -> int {
    floor_bit(s, w, h, x - 1, y - 1) + floor_bit(s, w, h, x, y - 1) + floor_bit(s, w, h, x + 1, y - 1)
        + floor_bit(s, w, h, x - 1, y) + floor_bit(s, w, h, x + 1, y) + floor_bit(s, w, h, x - 1, y + 1)
        + floor_bit(s, w, h, x, y + 1) + floor_bit(s, w, h, x + 1, y + 1)
}

/// `(x, y)` lies inside the border ring of a `w` by `h` grid.
pub open spec fn inner(w: int, h: int, x: int, y: int) -> bool {
    1 <= x < w - 1 && 1 <= y < h - 1
}

/// The cell at `(x, y)` after one automaton step: an inner floor cell stays
/// floor with at least `death` floor neighbours, an inner wall cell becomes
/// floor with at least `birth`, every other inner cell becomes wall, and
/// the border ring is kept.
pub open spec fn cave_cell(s: Seq<TileCell>, w: int, h: int, birth: int, death: int, x: int, y: int) -> TileCell {
    if inner(w, h, x, y) {
        let n = floor_neighbours8(s, w, h, x, y);
        if (floor_in(s, w, h, x, y) && n >= death) || (!floor_in(s, w, h, x, y) && n >= birth) {
            TileCell { tile: Tile::Floor }
        } else {
            TileCell { tile: Tile::Wall }
        }
    } else {
        s[cell_index(w, x, y)]
    }
}

/// One automaton step over all cells.
pub open spec fn cave_step(s: Seq<TileCell>, w: int, h: int, birth: int, death: int) -> Seq<TileCell> {
    Seq::new(s.len(), |i: int| cave_cell(s, w, h, birth, death, i % w, i / w))
}

/// Writing `c` at `p` changes the floor bit at `p` only.
proof fn lemma_floor_bit_update(s: Seq<TileCell>, w: int, h: int, p: (int, int), c: TileCell, q: (int, int))
    requires
        s.len() == w * h,
        0 <= p.0 < w,
        0 <= p.1 < h,
    ensures
        floor_bit(s.update(cell_index(w, p.0, p.1), c), w, h, q.0, q.1) == if q == p {
            if c.tile == Tile::Floor {
                1int
            } else {
                0int
            }
        } else {
            floor_bit(s, w, h, q.0, q.1)
        },
{
    lemma_cell_index_bounds(w, h, p.0, p.1);
    if 0 <= q.0 < w && 0 <= q.1 < h {
        lemma_cell_index_bounds(w, h, q.0, q.1);
        if cell_index(w, q.0, q.1) == cell_index(w, p.0, p.1) {
            lemma_cell_index_injective(w, q.0, q.1, p.0, p.1);
        }
    }
}

/// The neighbour count counts each of the eight cells around `(x, y)` once
/// and no other cell: turning the cell at `p` from wall to floor raises it
/// by one exactly when `p` is one of those eight cells, and leaves it alone
/// otherwise.
pub proof fn law_neighbour_count_counts_each(s: Seq<TileCell>, w: int, h: int, x: int, y: int, p: (int, int))
    requires
        s.len() == w * h,
        0 <= p.0 < w,
        0 <= p.1 < h,
    ensures
        floor_neighbours8(s.update(cell_index(w, p.0, p.1), TileCell { tile: Tile::Floor }), w, h, x, y)
            == floor_neighbours8(s.update(cell_index(w, p.0, p.1), TileCell { tile: Tile::Wall }), w, h, x, y) + if -1
            <= p.0 - x <= 1 && -1 <= p.1 - y <= 1 && p != (x, y) {
            1int
        } else {
            0int
        },
{
    let fl = TileCell { tile: Tile::Floor };
    let wl = TileCell { tile: Tile::Wall };
    let qs = seq![(x - 1, y - 1), (x, y - 1), (x + 1, y - 1), (x - 1, y), (x + 1, y), (x - 1, y + 1), (x, y + 1), (x + 1, y + 1)];
    assert forall|k: int| 0 <= k < 8 implies floor_bit(s.update(cell_index(w, p.0, p.1), fl), w, h, (#[trigger] qs[k]).0, qs[k].1)
        == floor_bit(s.update(cell_index(w, p.0, p.1), wl), w, h, qs[k].0, qs[k].1) + if qs[k] == p {
        1int
    } else {
        0int
    } by {
        lemma_floor_bit_update(s, w, h, p, fl, qs[k]);
        lemma_floor_bit_update(s, w, h, p, wl, qs[k]);
    }
    assert(qs[0] == (x - 1, y - 1) && qs[1] == (x, y - 1) && qs[2] == (x + 1, y - 1) && qs[3] == (x - 1, y));
    assert(qs[4] == (x + 1, y) && qs[5] == (x - 1, y + 1) && qs[6] == (x, y + 1) && qs[7] == (x + 1, y + 1));
}

/// One automaton step decides an inner cell by its floor neighbours alone:
/// a wall cell becomes floor exactly when at least `birth` of its eight
/// neighbours are floor, a floor cell stays floor exactly when at least
/// `death` are; every other result is wall, and border cells are kept.
pub proof fn law_cave_step_rule(s: Seq<TileCell>, w: int, h: int, birth: int, death: int, x: int, y: int)
    requires
        s.len() == w * h,
        0 <= x < w,
        0 <= y < h,
    ensures
        1 <= x < w - 1 && 1 <= y < h - 1 && !floor_in(s, w, h, x, y) ==> (cave_step(s, w, h, birth, death)[cell_index(
            w,
            x,
            y,
        )].tile == Tile::Floor <==> floor_neighbours8(s, w, h, x, y) >= birth),
        1 <= x < w - 1 && 1 <= y < h - 1 && floor_in(s, w, h, x, y) ==> (cave_step(s, w, h, birth, death)[cell_index(
            w,
            x,
            y,
        )].tile == Tile::Floor <==> floor_neighbours8(s, w, h, x, y) >= death),
        1 <= x < w - 1 && 1 <= y < h - 1 ==> cave_step(s, w, h, birth, death)[cell_index(w, x, y)].tile == Tile::Floor
            || cave_step(s, w, h, birth, death)[cell_index(w, x, y)].tile == Tile::Wall,
        x == 0 || y == 0 || x == w - 1 || y == h - 1 ==> cave_step(s, w, h, birth, death)[cell_index(w, x, y)]
            == s[cell_index(w, x, y)],
{
    let i = cell_index(w, x, y);
    lemma_cell_index_bounds(w, h, x, y);
    lemma_cell_index_decompose(w, h, i);
    lemma_cell_index_injective(w, x, y, i % w, i / w);
}

/// `n` automaton steps.
pub open spec fn cave_steps(s: Seq<TileCell>, w: int, h: int, birth: int, death: int, n: nat) -> Seq<TileCell>
    decreases n,
{
    if n == 0 {
        s
    } else {
        cave_step(cave_steps(s, w, h, birth, death, (n - 1) as nat), w, h, birth, death)
    }
}

/// `seeded` is `g` with some inner cells turned to floor.
pub open spec fn seeded_from(g: &Grid<TileCell>, seeded: &Grid<TileCell>) -> bool {
    &&& g.grows_to(seeded)
    &&& g.same_outside(seeded, 1, 1, g.w() - 1, g.h() - 1)
}

/// `seeded` is `g` seeded with floor chance `chance` (in units of
/// `1 / CHANCE_ONE`): some inner cells turned to floor; none with chance
/// zero, and all of them with certainty.
pub open spec fn seeded_with(g: &Grid<TileCell>, seeded: &Grid<TileCell>, chance: u64) -> bool {
    &&& seeded_from(g, seeded)
    &&& chance == 0 ==> forall|x: int, y: int| g.contains(x, y) ==> #[trigger] seeded.at(x, y) == g.at(x, y)
    &&& chance >= CHANCE_ONE ==> forall|x: int, y: int|
        1 <= x < g.w() - 1 && 1 <= y < g.h() - 1 ==> #[trigger] seeded.at(x, y) == TileCell::floor_cell()
}

/// Number of inner cell `(x, y)` of a `w` wide grid, counted row by row.
pub open spec fn inner_index(w: int, x: int, y: int) -> int {
    (y - 1) * (w - 2) + (x - 1)
}

/// `seeded` is `g` seeded with chance `chance` from the stream of `seed`
/// at word position `pos`: inner cell number `k` (row by row) becomes
/// floor exactly when `u64` draw `k` falls below the chance, and every
/// other cell stays.
pub open spec fn seeded_by(g: &Grid<TileCell>, seeded: &Grid<TileCell>, chance: u64, seed: u64, pos: u128) -> bool {
    &&& seeded_with(g, seeded, chance)
    &&& forall|x: int, y: int|
        1 <= x < g.w() - 1 && 1 <= y < g.h() - 1 ==> #[trigger] seeded.at(x, y) == if below(
            u64_draw(seed, pos, inner_index(g.w() as int, x, y) as nat),
            chance,
        ) {
            TileCell::floor_cell()
        } else {
            g.at(x, y)
        }
}

/// Two grids seeded alike from the same grid are the same grid.
pub proof fn lemma_seeded_unique(
    g: &Grid<TileCell>,
    s1: &Grid<TileCell>,
    s2: &Grid<TileCell>,
    chance: u64,
    seed: u64,
    pos: u128,
)
    requires
        seeded_by(g, s1, chance, seed, pos),
        seeded_by(g, s2, chance, seed, pos),
    ensures
        s1.cells() == s2.cells(),
{
    let w = g.w() as int;
    let h = g.h() as int;
    assert forall|i: int| 0 <= i < s1.cells().len() implies s1.cells()[i] == s2.cells()[i] by {
        lemma_cell_index_decompose(w, h, i);
        let x = i % w;
        let y = i / w;
        if 1 <= x < w - 1 && 1 <= y < h - 1 {
            assert(s1.at(x, y) == s2.at(x, y));
        } else {
            assert(s1.at(x, y) == g.at(x, y));
            assert(s2.at(x, y) == g.at(x, y));
        }
    }
    assert(s1.cells() =~= s2.cells());
}

/// Turns each inner cell, row by row, to floor with chance `chance` (see
/// [`Rng::chance_below`]): the cell becomes floor exactly when its draw
/// falls below the chance ([`seeded_by`]).
pub fn seed_inner(grid: &mut Grid<TileCell>, rng: &mut Rng, chance: u64)
    requires
        old(grid).wf(),
        old(grid).h() >= 1,
        old(grid).w() >= 1 || old(grid).h() <= 2,
    ensures
        final(grid).wf(),
        final(grid).w() == old(grid).w(),
        final(grid).h() == old(grid).h(),
        seeded_with(old(grid), final(grid), chance),
        seeded_by(old(grid), final(grid), chance, old(rng).seed_of(), old(rng).pos_of()),
        final(rng).seed_of() == old(rng).seed_of(),
{
    let ghost g0 = *grid;
    let ghost seed = rng.seed_of();
    let ghost pos0 = rng.pos_of();
    let w = grid.width();
    let h = grid.height();
    let ghost wi = w as int;
    let mut y: usize = 1;
    while y < h - 1
        invariant
            rng.seed_of() == seed,
            wi == w,
            wi >= 2 ==> rng.pos_of() == u64_pos(seed, pos0, inner_index(wi, 1, y as int) as nat),
            wi >= 2 ==> inner_index(wi, 1, y as int) >= 0,
            forall|px: int, py: int|
                1 <= px < w - 1 && 1 <= py < h - 1 && py < y ==> #[trigger] grid.at(px, py) == if below(
                    u64_draw(seed, pos0, inner_index(wi, px, py) as nat),
                    chance,
                ) {
                    TileCell::floor_cell()
                } else {
                    g0.at(px, py)
                },
            forall|px: int, py: int|
                g0.contains(px, py) && !(1 <= px < w - 1 && 1 <= py < h - 1 && py < y) ==> #[trigger] grid.at(px, py)
                    == g0.at(px, py),
            grid.wf(),
            w == g0.w(),
            h == g0.h(),
            w == grid.w(),
            h == grid.h(),
            1 <= y <= h,
            w >= 1 || h <= 2,
            seeded_from(&g0, grid),
            chance == 0 ==> forall|px: int, py: int| g0.contains(px, py) ==> #[trigger] grid.at(px, py) == g0.at(px, py),
            chance >= CHANCE_ONE ==> forall|px: int, py: int|
                1 <= px < w - 1 && 1 <= py < h - 1 && py < y ==> #[trigger] grid.at(px, py) == TileCell::floor_cell(),
        decreases h - y,
    {
        let mut x: usize = 1;
        while x < w - 1
            invariant
                rng.seed_of() == seed,
                wi == w,
                wi >= 2 ==> rng.pos_of() == u64_pos(seed, pos0, inner_index(wi, x as int, y as int) as nat),
                wi >= 2 ==> inner_index(wi, x as int, y as int) >= 0,
                wi >= 2 ==> x <= w - 1,
                forall|px: int, py: int|
                    1 <= px < w - 1 && 1 <= py < h - 1 && (py < y || (py == y && px < x)) ==> #[trigger] grid.at(px, py)
                        == if below(u64_draw(seed, pos0, inner_index(wi, px, py) as nat), chance) {
                        TileCell::floor_cell()
                    } else {
                        g0.at(px, py)
                    },
                forall|px: int, py: int|
                    g0.contains(px, py) && !(1 <= px < w - 1 && 1 <= py < h - 1 && (py < y || (py == y && px < x)))
                        ==> #[trigger] grid.at(px, py) == g0.at(px, py),
                grid.wf(),
                w == g0.w(),
                h == g0.h(),
                w == grid.w(),
                h == grid.h(),
                1 <= y,
                y + 1 < h,
                w >= 1,
                1 <= x <= w,
                seeded_from(&g0, grid),
                chance == 0 ==> forall|px: int, py: int| g0.contains(px, py) ==> #[trigger] grid.at(px, py) == g0.at(px, py),
                chance >= CHANCE_ONE ==> forall|px: int, py: int|
                    1 <= px < w - 1 && 1 <= py < h - 1 && (py < y || (py == y && px < x)) ==> #[trigger] grid.at(px, py)
                        == TileCell::floor_cell(),
            decreases w - x,
        {
            let ghost k = inner_index(wi, x as int, y as int);
            if rng.chance_below(chance) {
                grid.set_at(x, y, TileCell::floor());
            }
            proof {
                assert(u64_pos(seed, pos0, (k + 1) as nat) == rng.pos_of());
                assert(inner_index(wi, x as int + 1, y as int) == k + 1);
            }
            x = x + 1;
        }
        proof {
            if wi >= 2 {
                assert(x == w - 1);
                assert(inner_index(wi, wi - 1, y as int) == inner_index(wi, 1, y as int + 1)) by (nonlinear_arith)
                    requires
                        wi >= 2,
                ;
                assert(inner_index(wi, 1, y as int + 1) >= 0) by (nonlinear_arith)
                    requires
                        wi >= 2,
                        y >= 1,
                ;
            }
        }
        y = y + 1;
    }
}

/// Steps keep the length and every cell of the border ring.
proof fn lemma_cave_steps_keep_border(s: Seq<TileCell>, w: int, h: int, birth: int, death: int, n: nat)
    requires
        0 < w,
        s.len() == w * h,
    ensures
        cave_steps(s, w, h, birth, death, n).len() == s.len(),
        forall|x: int, y: int|
            0 <= x < w && 0 <= y < h && !inner(w, h, x, y) ==> #[trigger] cave_steps(s, w, h, birth, death, n)[cell_index(
                w,
                x,
                y,
            )] == s[cell_index(w, x, y)],
    decreases n,
{
    if n > 0 {
        let prev = cave_steps(s, w, h, birth, death, (n - 1) as nat);
        lemma_cave_steps_keep_border(s, w, h, birth, death, (n - 1) as nat);
        assert forall|x: int, y: int| 0 <= x < w && 0 <= y < h && !inner(w, h, x, y) implies #[trigger] cave_steps(
            s,
            w,
            h,
            birth,
            death,
            n,
        )[cell_index(w, x, y)] == s[cell_index(w, x, y)] by {
            let i = cell_index(w, x, y);
            lemma_cell_index_bounds(w, h, x, y);
            lemma_cell_index_decompose(w, h, i);
            lemma_cell_index_injective(w, x, y, i % w, i / w);
            assert(cave_step(prev, w, h, birth, death)[i] == cave_cell(prev, w, h, birth, death, x, y));
        }
    }
}

/// Number of floor cells among the 8 neighbours of an inner cell.
fn floor_neighbour_count(grid: &Grid<TileCell>, x: usize, y: usize) -> (r: usize)
    requires
        grid.wf(),
        inner(grid.w() as int, grid.h() as int, x as int, y as int),
    ensures
        r == floor_neighbours8(grid.cells(), grid.w() as int, grid.h() as int, x as int, y as int),
{
    let w = grid.width();
    let h = grid.height();
    let mut c: usize = 0;
    if grid.cell(x - 1, y - 1).tile.is_floor() {
        c = c + 1;
    }
    if grid.cell(x, y - 1).tile.is_floor() {
        c = c + 1;
    }
    if grid.cell(x + 1, y - 1).tile.is_floor() {
        c = c + 1;
    }
    if grid.cell(x - 1, y).tile.is_floor() {
        c = c + 1;
    }
    if grid.cell(x + 1, y).tile.is_floor() {
        c = c + 1;
    }
    if grid.cell(x - 1, y + 1).tile.is_floor() {
        c = c + 1;
    }
    if grid.cell(x, y + 1).tile.is_floor() {
        c = c + 1;
    }
    if grid.cell(x + 1, y + 1).tile.is_floor() {
        c = c + 1;
    }
    c
}

/// One automaton step (see [`cave_cell`]).
pub fn cave_pass(grid: &Grid<TileCell>, birth: usize, death: usize) -> (r: Grid<TileCell>)
    requires
        grid.wf(),
    ensures
        r.wf(),
        r.w() == grid.w(),
        r.h() == grid.h(),
        r.cells() == cave_step(grid.cells(), grid.w() as int, grid.h() as int, birth as int, death as int),
        forall|x: int, y: int|
            inner(grid.w() as int, grid.h() as int, x, y) ==> ((#[trigger] r.at(x, y)).tile == Tile::Floor <==> if grid.at(
                x,
                y,
            ).tile == Tile::Floor {
                floor_neighbours8(grid.cells(), grid.w() as int, grid.h() as int, x, y) >= death
            } else {
                floor_neighbours8(grid.cells(), grid.w() as int, grid.h() as int, x, y) >= birth
            }),
        forall|x: int, y: int|
            grid.contains(x, y) && !inner(grid.w() as int, grid.h() as int, x, y) ==> #[trigger] r.at(x, y) == grid.at(
                x,
                y,
            ),
{
    let w = grid.width();
    let h = grid.height();
    let n = w * h;
    let ghost s = grid.cells();
    let ghost wi = w as int;
    let ghost hi = h as int;
    let mut cells: Vec<TileCell> = Vec::with_capacity(n);
    let mut i: usize = 0;
    while i < n
        invariant
            grid.wf(),
            w == grid.w(),
            h == grid.h(),
            wi == w,
            hi == h,
            s == grid.cells(),
            n == w * h,
            i <= n,
            cells@.len() == i,
            forall|k: int| 0 <= k < i ==> cells@[k] == cave_cell(s, wi, hi, birth as int, death as int, k % wi, k / wi),
        decreases n - i,
    {
        proof {
            assert(0 < w) by (nonlinear_arith)
                requires
                    i < n,
                    n == w * h,
            ;
            lemma_cell_index_decompose(wi, hi, i as int);
        }
        let x = i % w;
        let y = i / w;
        let c = if x >= 1 && x + 1 < w && y >= 1 && y + 1 < h {
            let nb = floor_neighbour_count(grid, x, y);
            let here = grid.cell(x, y).tile.is_floor();
            if (here && nb >= death) || (!here && nb >= birth) {
                TileCell::floor()
            } else {
                TileCell::wall()
            }
        } else {
            grid.cell(x, y)
        };
        cells.push(c);
        i = i + 1;
    }
    proof {
        assert(cells@ =~= cave_step(s, wi, hi, birth as int, death as int));
    }
    let r = Grid::from_cells(w, h, cells);
    proof {
        assert forall|x: int, y: int| 0 <= x < wi && 0 <= y < hi implies #[trigger] r.at(x, y) == cave_step(
            s,
            wi,
            hi,
            birth as int,
            death as int,
        )[cell_index(wi, x, y)] by {}
        assert forall|x: int, y: int| inner(wi, hi, x, y) implies ((#[trigger] r.at(x, y)).tile == Tile::Floor <==> if grid.at(
            x,
            y,
        ).tile == Tile::Floor {
            floor_neighbours8(s, wi, hi, x, y) >= death
        } else {
            floor_neighbours8(s, wi, hi, x, y) >= birth
        }) by {
            law_cave_step_rule(s, wi, hi, birth as int, death as int, x, y);
        }
        assert forall|x: int, y: int| grid.contains(x, y) && !inner(wi, hi, x, y) implies #[trigger] r.at(x, y) == grid.at(
            x,
            y,
        ) by {
            law_cave_step_rule(s, wi, hi, birth as int, death as int, x, y);
        }
    }
    r
}

/// What [`CellularAutomata::generate`] makes of the grid `g0` with `seed` and
/// configuration `c`: the draws are those the stream of `seed` gives, so
/// the result is fixed (see the determinism law of this module).
pub open spec fn cellular_outcome(c: CellularConfig, seed: u64, g0: Grid<TileCell>, g1: Grid<TileCell>) -> bool {
    &&& g1.wf()
    &&& g1.w() == g0.w()
    &&& g1.h() == g0.h()
    &&& g0.same_outside(&g1, 1, 1, g0.w() - 1, g0.h() - 1)
    &&& exists|seeded: Grid<TileCell>|
            #[trigger] seeded_by(&g0, &seeded, c.initial_floor_chance, seed, 0) && g1.cells()
                == cave_steps(
                seeded.cells(),
                g0.w() as int,
                g0.h() as int,
                c.birth_limit as int,
                c.death_limit as int,
                c.iterations as nat,
            )
}

/// Automaton steps keep the number of cells.
proof fn lemma_cave_steps_len(s: Seq<TileCell>, w: int, h: int, birth: int, death: int, n: nat)
    ensures
        cave_steps(s, w, h, birth, death, n).len() == s.len(),
    decreases n,
{
    if n > 0 {
        lemma_cave_steps_len(s, w, h, birth, death, (n - 1) as nat);
    }
}

/// The last step of a cave run follows the configured limits: an inner cell
/// that was wall before it becomes floor exactly when at least
/// `birth_limit` of its eight neighbours were floor, and one that was floor
/// stays floor exactly when at least `death_limit` were.
pub proof fn law_cellular_last_step(c: CellularConfig, seed: u64, g0: Grid<TileCell>, g1: Grid<TileCell>, x: int, y: int)
    requires
        g0.wf(),
        c.iterations >= 1,
        cellular_outcome(c, seed, g0, g1),
        1 <= x < g0.w() - 1,
        1 <= y < g0.h() - 1,
    ensures
        exists|prev: Seq<TileCell>|
            #![trigger floor_neighbours8(prev, g0.w() as int, g0.h() as int, x, y)]
            {
                let w = g0.w() as int;
                let h = g0.h() as int;
                let n = floor_neighbours8(prev, w, h, x, y);
                &&& prev.len() == w * h
                &&& (exists|seeded: Grid<TileCell>|
                    #[trigger] seeded_by(&g0, &seeded, c.initial_floor_chance, seed, 0) && prev == cave_steps(
                        seeded.cells(),
                        w,
                        h,
                        c.birth_limit as int,
                        c.death_limit as int,
                        (c.iterations - 1) as nat,
                    ))
                &&& floor_in(prev, w, h, x, y) ==> (g1.at(x, y).tile == Tile::Floor <==> n >= c.death_limit)
                &&& !floor_in(prev, w, h, x, y) ==> (g1.at(x, y).tile == Tile::Floor <==> n >= c.birth_limit)
            },
{
    let w = g0.w() as int;
    let h = g0.h() as int;
    let seeded = choose|seeded: Grid<TileCell>|
        #[trigger] seeded_by(&g0, &seeded, c.initial_floor_chance, seed, 0) && g1.cells() == cave_steps(
            seeded.cells(),
            w,
            h,
            c.birth_limit as int,
            c.death_limit as int,
            c.iterations as nat,
        );
    let prev = cave_steps(seeded.cells(), w, h, c.birth_limit as int, c.death_limit as int, (c.iterations - 1) as nat);
    lemma_cave_steps_len(seeded.cells(), w, h, c.birth_limit as int, c.death_limit as int, (c.iterations - 1) as nat);
    assert(g1.cells() == cave_step(prev, w, h, c.birth_limit as int, c.death_limit as int));
    law_cave_step_rule(prev, w, h, c.birth_limit as int, c.death_limit as int, x, y);
    assert(g1.at(x, y) == cave_step(prev, w, h, c.birth_limit as int, c.death_limit as int)[cell_index(w, x, y)]);
}

/// Cellular caves are reproducible: two runs with the same configuration
/// on the same grid with the same seed give the same cells.
pub proof fn law_cellular_deterministic(c: CellularConfig, seed: u64, g0: Grid<TileCell>, g1: Grid<TileCell>, g2: Grid<TileCell>)
    requires
        cellular_outcome(c, seed, g0, g1),
        cellular_outcome(c, seed, g0, g2),
    ensures
        g1.cells() == g2.cells(),
{
    let s1 = choose|seeded: Grid<TileCell>|
        #[trigger] seeded_by(&g0, &seeded, c.initial_floor_chance, seed, 0) && g1.cells() == cave_steps(
            seeded.cells(),
            g0.w() as int,
            g0.h() as int,
            c.birth_limit as int,
            c.death_limit as int,
            c.iterations as nat,
        );
    let s2 = choose|seeded: Grid<TileCell>|
        #[trigger] seeded_by(&g0, &seeded, c.initial_floor_chance, seed, 0) && g2.cells() == cave_steps(
            seeded.cells(),
            g0.w() as int,
            g0.h() as int,
            c.birth_limit as int,
            c.death_limit as int,
            c.iterations as nat,
        );
    lemma_seeded_unique(&g0, &s1, &s2, c.initial_floor_chance, seed, 0);
}

impl CellularAutomata {
    /// Turns each inner cell (row by row) to floor with the initial floor
    /// chance, then runs the configured number of automaton steps (see
    /// [`cave_cell`]). The border ring is never changed.
    pub fn generate(&self, grid: &mut Grid<TileCell>, seed: u64)
        requires
            old(grid).wf(),
            old(grid).h() >= 1,
            old(grid).w() >= 1 || old(grid).h() <= 2,
        ensures
            cellular_outcome(self.config(), seed, *old(grid), *final(grid)),
    {
        let ghost g0 = *grid;
        let mut rng = Rng::new(seed);
        let w = grid.width();
        let h = grid.height();
        seed_inner(grid, &mut rng, self.config.initial_floor_chance);
        let ghost s1 = *grid;
        let birth = self.config.birth_limit;
        let death = self.config.death_limit;
        let mut it: usize = 0;
        while it < self.config.iterations
            invariant
                grid.wf(),
                w == grid.w(),
                h == grid.h(),
                w == s1.w(),
                h == s1.h(),
                birth == self.config.birth_limit,
                death == self.config.death_limit,
                it <= self.config.iterations,
                grid.cells() == cave_steps(s1.cells(), w as int, h as int, birth as int, death as int, it as nat),
            decreases self.config.iterations - it,
        {
            let next = cave_pass(grid, birth, death);
            *grid = next;
            it = it + 1;
        }
        proof {
            assert(seeded_with(&g0, &s1, self.config().initial_floor_chance));
            assert(seeded_by(&g0, &s1, self.config().initial_floor_chance, seed, 0));
            if w > 0 {
                lemma_cave_steps_keep_border(s1.cells(), w as int, h as int, birth as int, death as int, it as nat);
                assert forall|x: int, y: int|
                    g0.contains(x, y) && !(1 <= x < w - 1 && 1 <= y < h - 1) implies #[trigger] grid.at(x, y) == g0.at(
                    x,
                    y,
                ) by {
                    assert(s1.at(x, y) == g0.at(x, y));
                }
            }
        }
    }
}

} // verus!

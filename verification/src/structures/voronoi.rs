//! Voronoi regions of random seed points.

use crate::grid::{cell_index, lemma_cell_index_bounds, lemma_cell_index_decompose, lemma_cell_index_injective, Grid, Tile, TileCell};
use crate::rng::{below, chacha_usize_in, u64_draw, u64_pos, Rng, CHANCE_ONE};
use vstd::prelude::*;

verus! {

/// Configuration for Voronoi generation. `floor_chance` is the chance that
/// a region is floor, in units of `1 / CHANCE_ONE` (see
/// [`crate::rng::CHANCE_ONE`]).
#[derive(Debug, Clone)]
pub struct VoronoiConfig {
    pub num_points: usize,
    pub floor_chance: u64,
}

impl Default for VoronoiConfig {
    /// Fifteen points, floor chance 0.5.
    fn default() -> (r: VoronoiConfig)
        ensures
            r.num_points == 15,
            r.floor_chance == 4503599627370496,
    {
        VoronoiConfig { num_points: 15, floor_chance: 4503599627370496 }
    }
}

/// Voronoi diagram generator.
pub struct Voronoi {
    config: VoronoiConfig,
}

impl Voronoi {
    pub fn new(config: VoronoiConfig) -> (r: Voronoi)
        ensures
            r.config() == config,
    {
        Voronoi { config }
    }

    pub closed spec fn config(&self) -> VoronoiConfig {
        self.config
    }
}

impl Default for Voronoi {
    fn default() -> (r: Voronoi)
        ensures
            r.config().num_points == 15,
            r.config().floor_chance == 4503599627370496,
    {
        Voronoi::new(VoronoiConfig::default())
    }
}

/// Squared distance from seed point `p` to `(x, y)`.
pub open spec fn sq_dist(p: (usize, usize), x: int, y: int) -> int {
    (x - p.0) * (x - p.0) + (y - p.1) * (y - p.1)
}

/// Point `i` is the first of `points` nearest to `(x, y)`.
pub open spec fn is_nearest(points: Seq<(usize, usize)>, x: int, y: int, i: int) -> bool {
    &&& 0 <= i < points.len()
    &&& forall|j: int| 0 <= j < i ==> sq_dist(#[trigger] points[j], x, y) > sq_dist(points[i], x, y)
    &&& forall|j: int| i < j < points.len() ==> sq_dist(#[trigger] points[j], x, y) >= sq_dist(points[i], x, y)
}

/// `fin` is `g` with every inner cell taking the kind (`true`: floor) of
/// its nearest seed point; the `n` seed points lie inside the border ring.
pub open spec fn voronoi_result(
    g: &Grid<TileCell>,
    fin: &Grid<TileCell>,
    points: Seq<(usize, usize)>,
    kinds: Seq<bool>,
    n: nat,
) -> bool {
    &&& points.len() == n
    &&& kinds.len() == n
    &&& forall|k: int| 0 <= k < n ==> 1 <= (#[trigger] points[k]).0 < g.w() - 1 && 1 <= points[k].1 < g.h() - 1
    &&& forall|x: int, y: int|
        1 <= x < g.w() - 1 && 1 <= y < g.h() - 1 ==> #[trigger] takes_nearest(fin, points, kinds, x, y)
}

/// The first `n` seed points the stream of `seed` gives from word position
/// `pos` on a `w` by `h` grid (for each a column in `1..w - 1`, then a row
/// in `1..h - 1`), and the word position after them.
pub open spec fn seed_points(seed: u64, pos: u128, w: usize, h: usize, n: nat) -> (Seq<(usize, usize)>, u128)
    decreases n,
{
    if n == 0 {
        (seq![], pos)
    } else {
        let prev = seed_points(seed, pos, w, h, (n - 1) as nat);
        let dx = chacha_usize_in(seed, prev.1, 1, (w - 1) as usize, usize::BITS);
        let dy = chacha_usize_in(seed, dx.1, 1, (h - 1) as usize, usize::BITS);
        (prev.0.push((dx.0, dy.0)), dy.1)
    }
}

/// The kinds are the `u64` draws of the stream of `seed` from word position
/// `pos`, each floor exactly when it falls below `chance`.
pub open spec fn kinds_drawn(kinds: Seq<bool>, seed: u64, pos: u128, chance: u64) -> bool {
    forall|k: int| 0 <= k < kinds.len() ==> #[trigger] kinds[k] == below(u64_draw(seed, pos, k as nat), chance)
}

/// The kinds drawn with floor chance `chance`: all wall with chance zero,
/// all floor with certainty.
pub open spec fn kinds_with(kinds: Seq<bool>, chance: u64) -> bool {
    &&& chance == 0 ==> forall|k: int| 0 <= k < kinds.len() ==> !#[trigger] kinds[k]
    &&& chance >= CHANCE_ONE ==> forall|k: int| 0 <= k < kinds.len() ==> #[trigger] kinds[k]
}

/// The cell at `(x, y)` of `fin` has the kind of the first seed point
/// nearest to it.
pub open spec fn takes_nearest(fin: &Grid<TileCell>, points: Seq<(usize, usize)>, kinds: Seq<bool>, x: int, y: int) -> bool {
    exists|i: int|
        #[trigger] is_nearest(points, x, y, i) && fin.at(x, y).tile == if kinds[i] {
            Tile::Floor
        } else {
            Tile::Wall
        }
}

/// Cell `m` (row-major) of the result: the kind of its nearest point if
/// inner, else the cell of `g`.
spec fn cell_ok(points: Seq<(usize, usize)>, kinds: Seq<bool>, g: Seq<TileCell>, w: int, h: int, m: int, c: TileCell) -> bool {
    if 1 <= m % w < w - 1 && 1 <= m / w < h - 1 {
        exists|q: int| is_nearest(points, m % w, m / w, q) && c.tile == if kinds[q] { Tile::Floor } else { Tile::Wall }
    } else {
        c == g[m]
    }
}

/// Squared distance from `p` to `(x, y)`, for coordinates below `2^31`.
fn squared_distance(p: (usize, usize), x: usize, y: usize) -> (r: u64)
    requires
        p.0 <= i32::MAX,
        p.1 <= i32::MAX,
        x <= i32::MAX,
        y <= i32::MAX,
    ensures
        r == sq_dist(p, x as int, y as int),
{
    let dx: u64 = if x >= p.0 {
        (x - p.0) as u64
    } else {
        (p.0 - x) as u64
    };
    let dy: u64 = if y >= p.1 {
        (y - p.1) as u64
    } else {
        (p.1 - y) as u64
    };
    proof {
        assert(dx * dx <= 0x4000_0000_0000_0000) by (nonlinear_arith)
            requires
                dx <= 0x8000_0000,
        ;
        assert(dy * dy <= 0x4000_0000_0000_0000) by (nonlinear_arith)
            requires
                dy <= 0x8000_0000,
        ;
        assert(dx * dx == (x - p.0) * (x - p.0)) by (nonlinear_arith)
            requires
                dx == x - p.0 || dx == p.0 - x,
        ;
        assert(dy * dy == (y - p.1) * (y - p.1)) by (nonlinear_arith)
            requires
                dy == y - p.1 || dy == p.1 - y,
        ;
    }
    dx * dx + dy * dy
}

/// Index of the first of `points` nearest to `(x, y)`.
fn nearest_point(points: &Vec<(usize, usize)>, x: usize, y: usize) -> (r: usize)
    requires
        points@.len() > 0,
        forall|k: int| 0 <= k < points@.len() ==> (#[trigger] points@[k]).0 <= i32::MAX && points@[k].1 <= i32::MAX,
        x <= i32::MAX,
        y <= i32::MAX,
    ensures
        is_nearest(points@, x as int, y as int, r as int),
{
    let mut best: usize = 0;
    let mut best_d = squared_distance(points[0], x, y);
    let mut k: usize = 1;
    while k < points.len()
        invariant
            0 < k <= points@.len(),
            best < k,
            forall|j: int|
                0 <= j < points@.len() ==> (#[trigger] points@[j]).0 <= i32::MAX && points@[j].1 <= i32::MAX,
            x <= i32::MAX,
            y <= i32::MAX,
            best_d == sq_dist(points@[best as int], x as int, y as int),
            forall|j: int| 0 <= j < best ==> sq_dist(#[trigger] points@[j], x as int, y as int) > best_d,
            forall|j: int| best < j < k ==> sq_dist(#[trigger] points@[j], x as int, y as int) >= best_d,
        decreases points@.len() - k,
    {
        let d = squared_distance(points[k], x, y);
        if d < best_d {
            best = k;
            best_d = d;
        }
        k = k + 1;
    }
    best
}

/// What [`Voronoi::generate`] makes of the grid `g0` with `seed` and
/// configuration `c`: the draws are those the stream of `seed` gives, so
/// the result is fixed (see the determinism law of this module).
pub open spec fn voronoi_outcome(c: VoronoiConfig, seed: u64, g0: Grid<TileCell>, g1: Grid<TileCell>) -> bool {
    let drawn = seed_points(seed, 0, g0.w() as usize, g0.h() as usize, c.num_points as nat);
    &&& g1.wf()
    &&& g1.w() == g0.w()
    &&& g1.h() == g0.h()
    &&& g0.same_outside(&g1, 1, 1, g0.w() - 1, g0.h() - 1)
    &&& exists|points: Seq<(usize, usize)>, kinds: Seq<bool>|
            #[trigger] voronoi_result(&g0, &g1, points, kinds, c.num_points as nat)
                && kinds_with(kinds, c.floor_chance) && points == drawn.0 && kinds_drawn(kinds, seed, drawn.1, c.floor_chance)
}

/// The first of several nearest seed points is unique.
proof fn lemma_nearest_unique(points: Seq<(usize, usize)>, x: int, y: int, i1: int, i2: int)
    requires
        is_nearest(points, x, y, i1),
        is_nearest(points, x, y, i2),
    ensures
        i1 == i2,
{
    if i1 < i2 {
        assert(sq_dist(points[i1], x, y) > sq_dist(points[i2], x, y));
    } else if i2 < i1 {
        assert(sq_dist(points[i2], x, y) > sq_dist(points[i1], x, y));
    }
}

/// Voronoi maps are reproducible: two runs with the same configuration on
/// the same grid with the same seed give the same cells.
pub proof fn law_voronoi_deterministic(c: VoronoiConfig, seed: u64, g0: Grid<TileCell>, g1: Grid<TileCell>, g2: Grid<TileCell>)
    requires
        g0.wf(),
        voronoi_outcome(c, seed, g0, g1),
        voronoi_outcome(c, seed, g0, g2),
    ensures
        g1.cells() == g2.cells(),
{
    let n = c.num_points as nat;
    let drawn = seed_points(seed, 0, g0.w() as usize, g0.h() as usize, n);
    let (p1, k1) = choose|points: Seq<(usize, usize)>, kinds: Seq<bool>|
        #[trigger] voronoi_result(&g0, &g1, points, kinds, n) && kinds_with(kinds, c.floor_chance) && points == drawn.0
            && kinds_drawn(kinds, seed, drawn.1, c.floor_chance);
    let (p2, k2) = choose|points: Seq<(usize, usize)>, kinds: Seq<bool>|
        #[trigger] voronoi_result(&g0, &g2, points, kinds, n) && kinds_with(kinds, c.floor_chance) && points == drawn.0
            && kinds_drawn(kinds, seed, drawn.1, c.floor_chance);
    assert(k1 =~= k2) by {
        assert forall|k: int| 0 <= k < k1.len() implies k1[k] == k2[k] by {
            assert(k1[k] == below(u64_draw(seed, drawn.1, k as nat), c.floor_chance));
            assert(k2[k] == below(u64_draw(seed, drawn.1, k as nat), c.floor_chance));
        }
    }
    let w = g0.w() as int;
    let h = g0.h() as int;
    assert forall|i: int| 0 <= i < g1.cells().len() implies g1.cells()[i] == g2.cells()[i] by {
        assert(g1.cells().len() == w * h);
        assert(w > 0) by (nonlinear_arith)
            requires
                0 <= i < w * h,
                h >= 0,
        ;
        lemma_cell_index_decompose(w, h, i);
        let x = i % w;
        let y = i / w;
        if 1 <= x < w - 1 && 1 <= y < h - 1 {
            assert(takes_nearest(&g1, p1, k1, x, y));
            assert(takes_nearest(&g2, p2, k2, x, y));
            let a = choose|a: int| #[trigger] is_nearest(p1, x, y, a) && g1.at(x, y).tile == if k1[a] { Tile::Floor } else { Tile::Wall };
            let b = choose|b: int| #[trigger] is_nearest(p2, x, y, b) && g2.at(x, y).tile == if k2[b] { Tile::Floor } else { Tile::Wall };
            lemma_nearest_unique(p1, x, y, a, b);
            assert(g1.at(x, y) == g2.at(x, y));
        } else {
            assert(g1.at(x, y) == g0.at(x, y));
            assert(g2.at(x, y) == g0.at(x, y));
        }
    }
    assert(g1.cells() =~= g2.cells());
}

impl Voronoi {
    /// Draws the seed points (each inside the border ring), then a kind for
    /// each (floor with the floor chance), then gives every inner cell the
    /// kind of its nearest seed point (the first one on ties). The border
    /// ring is kept.
    pub fn generate(&self, grid: &mut Grid<TileCell>, seed: u64)
        requires
            old(grid).wf(),
            old(grid).w() <= i32::MAX,
            old(grid).h() <= i32::MAX,
            self.config().num_points > 0 ==> old(grid).w() >= 3 && old(grid).h() >= 3,
            self.config().num_points == 0 ==> old(grid).w() <= 2 || old(grid).h() <= 2,
            old(grid).h() >= 1,
            old(grid).w() >= 1 || old(grid).h() <= 2,
        ensures
            voronoi_outcome(self.config(), seed, *old(grid), *final(grid)),
    {
        let ghost g0 = *grid;
        let mut rng = Rng::new(seed);
        let w = grid.width();
        let h = grid.height();
        let count = self.config.num_points;
        let mut points: Vec<(usize, usize)> = Vec::with_capacity(count);
        let mut k: usize = 0;
        while k < count
            invariant
                rng.seed_of() == seed,
                w == g0.w(),
                h == g0.h(),
                (points@, rng.pos_of()) == seed_points(seed, 0, w, h, k as nat),
                count == self.config.num_points,
                count > 0 ==> w >= 3 && h >= 3,
                k <= count,
                points@.len() == k,
                forall|j: int| 0 <= j < k ==> 1 <= (#[trigger] points@[j]).0 < w - 1 && 1 <= points@[j].1 < h - 1,
            decreases count - k,
        {
            let px = rng.range_usize(1, w - 1);
            let py = rng.range_usize(1, h - 1);
            points.push((px, py));
            proof {
                assert(points@ =~= seed_points(seed, 0, w, h, k as nat).0.push((px, py)));
            }
            k = k + 1;
        }
        let ghost pk = rng.pos_of();
        let mut kinds: Vec<bool> = Vec::with_capacity(count);
        let mut k: usize = 0;
        while k < count
            invariant
                rng.seed_of() == seed,
                rng.pos_of() == u64_pos(seed, pk, k as nat),
                kinds_drawn(kinds@, seed, pk, self.config.floor_chance),
                k <= count,
                kinds@.len() == k,
                kinds_with(kinds@, self.config.floor_chance),
            decreases count - k,
        {
            let ghost kv = kinds@;
            kinds.push(rng.chance_below(self.config.floor_chance));
            proof {
                assert forall|j: int| 0 <= j < kinds@.len() implies #[trigger] kinds@[j] == below(
                    u64_draw(seed, pk, j as nat),
                    self.config.floor_chance,
                ) by {
                    if j < kv.len() {
                        assert(kinds@[j] == kv[j]);
                    }
                }
            }
            k = k + 1;
        }
        let n = w * h;
        let ghost wi = w as int;
        let ghost hi = h as int;
        let mut cells: Vec<TileCell> = Vec::with_capacity(n);
        let mut i: usize = 0;
        while i < n
            invariant
                grid.wf(),
                *grid == g0,
                w == grid.w(),
                h == grid.h(),
                wi == w,
                hi == h,
                w <= i32::MAX,
                h <= i32::MAX,
                n == w * h,
                i <= n,
                cells@.len() == i,
                points@.len() == count,
                kinds@.len() == count,
                count > 0 ==> w >= 3 && h >= 3,
                count == 0 ==> w <= 2 || h <= 2,
                forall|j: int| 0 <= j < count ==> 1 <= (#[trigger] points@[j]).0 < w - 1 && 1 <= points@[j].1 < h - 1,
                forall|m: int| 0 <= m < i ==> #[trigger] cell_ok(points@, kinds@, g0.cells(), wi, hi, m, cells@[m]),
            decreases n - i,
        {
            proof {
                assert(0 < w) by (nonlinear_arith)
                    requires
                        i < n,
                        n == w * h,
                ;
                lemma_cell_index_decompose(wi, hi, i as int);
            }
            let x = i % w;
            let y = i / w;
            let ghost c0 = cells@;
            if x >= 1 && x + 1 < w && y >= 1 && y + 1 < h {
                let q = nearest_point(&points, x, y);
                if kinds[q] {
                    cells.push(TileCell::floor());
                } else {
                    cells.push(TileCell::wall());
                }
                proof {
                    assert(is_nearest(points@, (i as int) % wi, (i as int) / wi, q as int));
                    assert(cell_ok(points@, kinds@, g0.cells(), wi, hi, i as int, cells@[i as int]));
                }
            } else {
                cells.push(grid.cell(x, y));
                proof {
                    assert(cell_ok(points@, kinds@, g0.cells(), wi, hi, i as int, cells@[i as int]));
                }
            }
            proof {
                assert forall|m: int| 0 <= m < i + 1 implies #[trigger] cell_ok(points@, kinds@, g0.cells(), wi, hi, m, cells@[m]) by {
                    if m < i {
                        assert(cells@[m] == c0[m]);
                    }
                }
            }
            i = i + 1;
        }
        *grid = Grid::from_cells(w, h, cells);
        proof {
            let cs = cells@;
            assert forall|x: int, y: int| g0.contains(x, y) && !(1 <= x < w - 1 && 1 <= y < h - 1) implies #[trigger] grid.at(
                x,
                y,
            ) == g0.at(x, y) by {
                let m = cell_index(wi, x, y);
                lemma_cell_index_bounds(wi, hi, x, y);
                lemma_cell_index_decompose(wi, hi, m);
                lemma_cell_index_injective(wi, x, y, m % wi, m / wi);
                assert(cell_ok(points@, kinds@, g0.cells(), wi, hi, m, cs[m]));
            }
            assert forall|x: int, y: int| 1 <= x < g0.w() - 1 && 1 <= y < g0.h() - 1 implies #[trigger] takes_nearest(
                grid,
                points@,
                kinds@,
                x,
                y,
            ) by {
                let m = cell_index(wi, x, y);
                lemma_cell_index_bounds(wi, hi, x, y);
                lemma_cell_index_decompose(wi, hi, m);
                lemma_cell_index_injective(wi, x, y, m % wi, m / wi);
                assert(grid.at(x, y) == cs[m]);
                assert(cell_ok(points@, kinds@, g0.cells(), wi, hi, m, cs[m]));
            }
            assert(voronoi_result(&g0, grid, points@, kinds@, count as nat));
            assert(kinds_with(kinds@, self.config().floor_chance));
            assert(kinds_drawn(kinds@, seed, pk, self.config().floor_chance));
        }
    }
}

} // verus!

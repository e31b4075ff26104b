//! Percolation: random fill, then keep the largest connected cluster.

use crate::grid::{cell_index, holds_pos, in_some, lemma_cell_index_bounds, lemma_cell_index_decompose, lemma_cell_index_injective, pos, Cell, Grid, Tile, TileCell};
use crate::rng::Rng;
use crate::structures::cellular::{lemma_seeded_unique, seed_inner, seeded_by, seeded_with};
use vstd::prelude::*;

verus! {

/// Configuration for percolation. The fill probability is in units of
/// `1 / CHANCE_ONE` (see [`crate::rng::CHANCE_ONE`]).
#[derive(Debug, Clone)]
pub struct PercolationConfig {
    pub fill_probability: u64,
    pub keep_largest: bool,
}

impl Default for PercolationConfig {
    /// Fill probability 0.45, keeping the largest cluster.
    fn default() -> (r: PercolationConfig)
        ensures
            r.fill_probability == 4053239664633447,
            r.keep_largest,
    {
        PercolationConfig { fill_probability: 4053239664633447, keep_largest: true }
    }
}

/// Percolation generator: random fill with connected cluster extraction.
pub struct Percolation {
    config: PercolationConfig,
}

impl Percolation {
    pub fn new(config: PercolationConfig) -> (r: Percolation)
        ensures
            r.config() == config,
    {
        Percolation { config }
    }

    pub closed spec fn config(&self) -> PercolationConfig {
        self.config
    }
}

impl Default for Percolation {
    fn default() -> (r: Percolation)
        ensures
            r.config().fill_probability == 4053239664633447,
            r.config().keep_largest,
    {
        Percolation::new(PercolationConfig::default())
    }
}

/// `reg` is a largest connected floor region of `g`: no component has more
/// cells, and any other component with as many cells has a cell that comes
/// before every cell of `reg` in row-major order.
pub open spec fn largest_region(g: &Grid<TileCell>, reg: Seq<(usize, usize)>) -> bool {
    &&& g.is_component(reg)
    &&& forall|reg2: Seq<(usize, usize)>| #[trigger] g.is_component(reg2) ==> reg2.len() <= reg.len()
    &&& forall|reg2: Seq<(usize, usize)>|
        #[trigger] g.is_component(reg2) && reg2.len() == reg.len() && !holds_pos(reg, pos(reg2[0])) ==> exists|k2: int|
            0 <= k2 < reg2.len() && forall|k: int|
                0 <= k < reg.len() ==> g.index_at(#[trigger] reg2[k2]) < g.index_at(#[trigger] reg[k])
}

/// `fin` is `g` with every floor cell outside `reg` turned to wall.
pub open spec fn keeps_only(g: &Grid<TileCell>, fin: &Grid<TileCell>, reg: Seq<(usize, usize)>) -> bool {
    &&& fin.wf()
    &&& fin.w() == g.w()
    &&& fin.h() == g.h()
    &&& forall|x: int, y: int|
        g.contains(x, y) ==> #[trigger] fin.at(x, y) == if g.open_at((x, y)) && !holds_pos(reg, (x, y)) {
            TileCell { tile: Tile::Wall }
        } else {
            g.at(x, y)
        }
}

/// Two listings of one component have the same length.
proof fn lemma_component_len(g: &Grid<TileCell>, r1: Seq<(usize, usize)>, r2: Seq<(usize, usize)>)
    requires
        g.is_component(r1),
        g.is_component(r2),
        g.connected(pos(r1[0]), pos(r2[0])),
    ensures
        r1.len() == r2.len(),
{
    g.lemma_connected_symmetric(pos(r1[0]), pos(r2[0]));
    assert forall|e: (usize, usize)| r1.to_set().contains(e) implies r2.to_set().contains(e) by {
        let k = choose|k: int| 0 <= k < r1.len() && r1[k] == e;
        assert(g.connected(pos(r1[0]), pos(r1[k])));
        g.lemma_connected_trans(pos(r2[0]), pos(r1[0]), pos(e));
        assert(holds_pos(r2, pos(e)));
        let k2 = choose|k2: int| 0 <= k2 < r2.len() && pos(#[trigger] r2[k2]) == pos(e);
        assert(r2[k2] == e);
    }
    assert forall|e: (usize, usize)| r2.to_set().contains(e) implies r1.to_set().contains(e) by {
        let k = choose|k: int| 0 <= k < r2.len() && r2[k] == e;
        assert(g.connected(pos(r2[0]), pos(r2[k])));
        g.lemma_connected_trans(pos(r1[0]), pos(r2[0]), pos(e));
        assert(holds_pos(r1, pos(e)));
        let k1 = choose|k1: int| 0 <= k1 < r1.len() && pos(#[trigger] r1[k1]) == pos(e);
        assert(r1[k1] == e);
    }
    assert(r1.to_set() =~= r2.to_set());
    assert(r1.no_duplicates()) by {
        assert forall|i: int, j: int| 0 <= i < r1.len() && 0 <= j < r1.len() && i != j implies r1[i] != r1[j] by {
            if i < j {
                assert(r1[i] != r1[j]);
            } else {
                assert(r1[j] != r1[i]);
            }
        }
    }
    assert(r2.no_duplicates()) by {
        assert forall|i: int, j: int| 0 <= i < r2.len() && 0 <= j < r2.len() && i != j implies r2[i] != r2[j] by {
            if i < j {
                assert(r2[j] != r2[i]);
            } else {
                assert(r2[j] != r2[i]);
            }
        }
    }
    r1.unique_seq_to_set();
    r2.unique_seq_to_set();
}

/// The region at index `best` of the regions of `g` is a largest region
/// when it is the last of the longest.
proof fn lemma_last_longest(g: &Grid<TileCell>, regions: Seq<Vec<(usize, usize)>>, best: int)
    requires
        g.wf(),
        0 <= best < regions.len(),
        forall|r: int| 0 <= r < regions.len() ==> #[trigger] g.is_component(regions[r]@),
        forall|p: (int, int)| #[trigger] g.open_at(p) ==> in_some(regions, p),
        forall|r1: int, r2: int|
            0 <= r1 < r2 < regions.len() ==> g.index_at(#[trigger] regions[r1]@[0]) < g.index_at(
                #[trigger] regions[r2]@[0],
            ) && !g.connected(pos(regions[r1]@[0]), pos(regions[r2]@[0])),
        forall|r: int, p: (int, int)|
            0 <= r < regions.len() && #[trigger] g.connected(pos(regions[r]@[0]), p) ==> g.index_at(regions[r]@[0])
                <= cell_index(g.w() as int, p.0, p.1),
        forall|r: int| 0 <= r < regions.len() ==> (#[trigger] regions[r]@).len() <= regions[best]@.len(),
        forall|r: int| best < r < regions.len() ==> (#[trigger] regions[r]@).len() < regions[best]@.len(),
    ensures
        largest_region(g, regions[best]@),
{
    let reg = regions[best]@;
    assert forall|reg2: Seq<(usize, usize)>| #[trigger] g.is_component(reg2) implies reg2.len() <= reg.len() && (
    reg2.len() == reg.len() && !holds_pos(reg, pos(reg2[0])) ==> exists|k2: int|
        0 <= k2 < reg2.len() && forall|k: int|
            0 <= k < reg.len() ==> g.index_at(#[trigger] reg2[k2]) < g.index_at(#[trigger] reg[k])) by {
        let p0 = pos(reg2[0]);
        g.lemma_connected_refl(p0);
        assert(g.connected(pos(reg2[0]), pos(reg2[0])));
        let wk = choose|wk: Seq<(int, int)>| #[trigger] g.is_walk(wk) && wk[0] == p0 && wk.last() == p0;
        assert(g.open_at(wk[0]));
        assert(in_some(regions, p0));
        let r2 = choose|r: int| 0 <= r < regions.len() && holds_pos(#[trigger] regions[r]@, p0);
        let reg3 = regions[r2]@;
        let k3 = choose|k: int| 0 <= k < reg3.len() && pos(#[trigger] reg3[k]) == p0;
        assert(g.is_component(regions[r2]@));
        assert(g.connected(pos(reg3[0]), pos(reg3[k3])));
        lemma_component_len(g, reg3, reg2);
        if reg2.len() == reg.len() && !holds_pos(reg, p0) {
            if r2 == best {
                assert(holds_pos(reg, p0));
            }
            assert(r2 < best);
            assert(g.index_at(reg3[0]) < g.index_at(reg[0]));
            // reg3[0] lies in reg2: it is connected to reg2's first cell.
            g.lemma_connected_symmetric(pos(reg3[0]), p0);
            assert(holds_pos(reg2, pos(reg3[0])));
            let k2 = choose|k2: int| 0 <= k2 < reg2.len() && pos(#[trigger] reg2[k2]) == pos(reg3[0]);
            assert(reg2[k2] == reg3[0]);
            assert forall|k: int| 0 <= k < reg.len() implies g.index_at(#[trigger] reg2[k2]) < g.index_at(
                #[trigger] reg[k],
            ) by {
                assert(g.is_component(regions[best]@));
                assert(g.connected(pos(reg[0]), pos(reg[k])));
                assert(g.index_at(reg[0]) <= cell_index(g.w() as int, pos(reg[k]).0, pos(reg[k]).1));
            }
        }
    }
}

/// What [`Percolation::generate`] makes of the grid `g0` with `seed` and
/// configuration `c`: the draws are those the stream of `seed` gives, so
/// the result is fixed (see the determinism law of this module).
pub open spec fn percolation_outcome(c: PercolationConfig, seed: u64, g0: Grid<TileCell>, g1: Grid<TileCell>) -> bool {
    &&& g1.wf()
    &&& g1.w() == g0.w()
    &&& g1.h() == g0.h()
    &&& exists|seeded: Grid<TileCell>|
            #[trigger] seeded_by(&g0, &seeded, c.fill_probability, seed, 0) && if !c.keep_largest {
                g1.cells() == seeded.cells()
            } else {
                (exists|reg: Seq<(usize, usize)>|
                    largest_region(&seeded, reg) && #[trigger] keeps_only(&seeded, &g1, reg)) || (
                g1.cells() == seeded.cells() && forall|p: (int, int)| !#[trigger] seeded.open_at(p))
            }
}

/// Percolation without keeping the largest cluster is reproducible: two
/// runs with the same configuration on the same grid with the same seed
/// give the same cells.
pub proof fn law_percolation_fill_deterministic(
    c: PercolationConfig,
    seed: u64,
    g0: Grid<TileCell>,
    g1: Grid<TileCell>,
    g2: Grid<TileCell>,
)
    requires
        !c.keep_largest,
        percolation_outcome(c, seed, g0, g1),
        percolation_outcome(c, seed, g0, g2),
    ensures
        g1.cells() == g2.cells(),
{
    let s1 = choose|seeded: Grid<TileCell>|
        #[trigger] seeded_by(&g0, &seeded, c.fill_probability, seed, 0) && g1.cells() == seeded.cells();
    let s2 = choose|seeded: Grid<TileCell>|
        #[trigger] seeded_by(&g0, &seeded, c.fill_probability, seed, 0) && g2.cells() == seeded.cells();
    lemma_seeded_unique(&g0, &s1, &s2, c.fill_probability, seed, 0);
}

/// Grids of one shape with the same cells join the same cells by walks.
proof fn lemma_same_connected(s1: &Grid<TileCell>, s2: &Grid<TileCell>, p: (int, int), q: (int, int))
    requires
        s1.w() == s2.w(),
        s1.h() == s2.h(),
        s1.cells() == s2.cells(),
    ensures
        s1.connected(p, q) == s2.connected(p, q),
{
    if s1.connected(p, q) {
        let wk = choose|wk: Seq<(int, int)>| #[trigger] s1.is_walk(wk) && wk[0] == p && wk.last() == q;
        assert forall|i: int| 0 <= i < wk.len() implies s2.open_at(#[trigger] wk[i]) by {
            assert(s1.open_at(wk[i]));
        }
        assert(s2.is_walk(wk));
    }
    if s2.connected(p, q) {
        let wk = choose|wk: Seq<(int, int)>| #[trigger] s2.is_walk(wk) && wk[0] == p && wk.last() == q;
        assert forall|i: int| 0 <= i < wk.len() implies s1.open_at(#[trigger] wk[i]) by {
            assert(s2.open_at(wk[i]));
        }
        assert(s1.is_walk(wk));
    }
}

/// Two largest regions of a grid hold the same cells: a largest region is
/// the one, among those of the largest size, whose first cell in row-major
/// order comes last.
proof fn lemma_largest_unique(g: &Grid<TileCell>, r1: Seq<(usize, usize)>, r2: Seq<(usize, usize)>, p: (int, int))
    requires
        largest_region(g, r1),
        largest_region(g, r2),
    ensures
        holds_pos(r1, p) == holds_pos(r2, p),
{
    let a = pos(r1[0]);
    let b = pos(r2[0]);
    assert(g.connected(a, pos(r1[0])));
    assert(g.connected(b, pos(r2[0])));
    if holds_pos(r1, b) {
        let k = choose|k: int| 0 <= k < r1.len() && pos(#[trigger] r1[k]) == b;
        assert(g.connected(a, pos(r1[k])));
        g.lemma_connected_symmetric(a, b);
        if holds_pos(r1, p) {
            let k1 = choose|k1: int| 0 <= k1 < r1.len() && pos(#[trigger] r1[k1]) == p;
            assert(g.connected(a, pos(r1[k1])));
            g.lemma_connected_trans(b, a, p);
        }
        if holds_pos(r2, p) {
            let k2 = choose|k2: int| 0 <= k2 < r2.len() && pos(#[trigger] r2[k2]) == p;
            assert(g.connected(b, pos(r2[k2])));
            g.lemma_connected_trans(a, b, p);
        }
    } else {
        if holds_pos(r2, a) {
            let k = choose|k: int| 0 <= k < r2.len() && pos(#[trigger] r2[k]) == a;
            assert(g.connected(b, pos(r2[k])));
            g.lemma_connected_symmetric(b, a);
            assert(g.connected(a, b));
            assert(holds_pos(r1, b));
        }
        assert(g.is_component(r1) && g.is_component(r2));
        assert(r1.len() <= r2.len() && r2.len() <= r1.len());
        let k2 = choose|k2: int|
            0 <= k2 < r2.len() && forall|k: int| 0 <= k < r1.len() ==> g.index_at(#[trigger] r2[k2]) < g.index_at(#[trigger] r1[k]);
        let k1 = choose|k1: int|
            0 <= k1 < r1.len() && forall|k: int| 0 <= k < r2.len() ==> g.index_at(#[trigger] r1[k1]) < g.index_at(#[trigger] r2[k]);
        assert(g.index_at(r2[k2]) < g.index_at(r1[k1]));
        assert(g.index_at(r1[k1]) < g.index_at(r2[k2]));
    }
}

/// Grids of one shape with the same cells have the same components.
proof fn lemma_same_components(s1: &Grid<TileCell>, s2: &Grid<TileCell>, reg: Seq<(usize, usize)>)
    requires
        s1.w() == s2.w(),
        s1.h() == s2.h(),
        s1.cells() == s2.cells(),
    ensures
        s1.is_component(reg) == s2.is_component(reg),
{
    if reg.len() > 0 {
        let a = pos(reg[0]);
        assert forall|q: (int, int)|
            #![trigger s1.connected(a, q)]
            #![trigger s2.connected(a, q)]
            s1.connected(a, q) == s2.connected(a, q) by {
            lemma_same_connected(s1, s2, a, q);
        }
        assert forall|k: int| 0 <= k < reg.len() implies s1.connected(a, pos(#[trigger] reg[k])) == s2.connected(
            a,
            pos(reg[k]),
        ) by {
            lemma_same_connected(s1, s2, a, pos(reg[k]));
        }
    }
}

/// Keeping a largest region of grids with the same cells gives the same cells.
proof fn lemma_kept_same(
    s1: &Grid<TileCell>,
    s2: &Grid<TileCell>,
    g1: &Grid<TileCell>,
    g2: &Grid<TileCell>,
    r1: Seq<(usize, usize)>,
    r2: Seq<(usize, usize)>,
)
    requires
        s1.w() == s2.w(),
        s1.h() == s2.h(),
        s1.cells() == s2.cells(),
        largest_region(s1, r1),
        keeps_only(s1, g1, r1),
        largest_region(s2, r2),
        keeps_only(s2, g2, r2),
    ensures
        g1.cells() == g2.cells(),
{
    assert forall|reg: Seq<(usize, usize)>|
        #![trigger s1.is_component(reg)]
        #![trigger s2.is_component(reg)]
        s1.is_component(reg) == s2.is_component(reg) by {
        lemma_same_components(s1, s2, reg);
    }
    assert(largest_region(s1, r2));
    assert forall|x: int, y: int| g2.contains(x, y) implies #[trigger] g2.at(x, y) == g1.cells()[cell_index(
        g2.w() as int,
        x,
        y,
    )] by {
        lemma_largest_unique(s1, r1, r2, (x, y));
        assert(s1.at(x, y) == s2.at(x, y));
        assert(g1.at(x, y) == g2.at(x, y));
    }
    g2.lemma_cells_match(g1.cells());
}

/// A largest region has a floor cell.
proof fn lemma_largest_open(s: &Grid<TileCell>, r: Seq<(usize, usize)>) -> (p: (int, int))
    requires
        largest_region(s, r),
    ensures
        s.open_at(p),
{
    assert(s.connected(pos(r[0]), pos(r[0])));
    let wk = choose|wk: Seq<(int, int)>| #[trigger] s.is_walk(wk) && wk[0] == pos(r[0]) && wk.last() == pos(r[0]);
    wk[0]
}

/// Percolation is reproducible: two runs with the same configuration on
/// the same grid with the same seed give the same cells.
pub proof fn law_percolation_deterministic(
    c: PercolationConfig,
    seed: u64,
    g0: Grid<TileCell>,
    g1: Grid<TileCell>,
    g2: Grid<TileCell>,
)
    requires
        percolation_outcome(c, seed, g0, g1),
        percolation_outcome(c, seed, g0, g2),
    ensures
        g1.cells() == g2.cells(),
{
    if !c.keep_largest {
        law_percolation_fill_deterministic(c, seed, g0, g1, g2);
    } else {
        let s1 = choose|seeded: Grid<TileCell>|
            #[trigger] seeded_by(&g0, &seeded, c.fill_probability, seed, 0) && ((exists|reg: Seq<(usize, usize)>|
                largest_region(&seeded, reg) && #[trigger] keeps_only(&seeded, &g1, reg)) || (g1.cells() == seeded.cells()
                && forall|p: (int, int)| !#[trigger] seeded.open_at(p)));
        let s2 = choose|seeded: Grid<TileCell>|
            #[trigger] seeded_by(&g0, &seeded, c.fill_probability, seed, 0) && ((exists|reg: Seq<(usize, usize)>|
                largest_region(&seeded, reg) && #[trigger] keeps_only(&seeded, &g2, reg)) || (g2.cells() == seeded.cells()
                && forall|p: (int, int)| !#[trigger] seeded.open_at(p)));
        lemma_seeded_unique(&g0, &s1, &s2, c.fill_probability, seed, 0);
        assert(s1.w() == s2.w() && s1.h() == s2.h());
        let one = exists|reg: Seq<(usize, usize)>| largest_region(&s1, reg) && #[trigger] keeps_only(&s1, &g1, reg);
        let two = exists|reg: Seq<(usize, usize)>| largest_region(&s2, reg) && #[trigger] keeps_only(&s2, &g2, reg);
        if one && two {
            let r1 = choose|reg: Seq<(usize, usize)>| largest_region(&s1, reg) && #[trigger] keeps_only(&s1, &g1, reg);
            let r2 = choose|reg: Seq<(usize, usize)>| largest_region(&s2, reg) && #[trigger] keeps_only(&s2, &g2, reg);
            lemma_kept_same(&s1, &s2, &g1, &g2, r1, r2);
        } else if one {
            let r1 = choose|reg: Seq<(usize, usize)>| largest_region(&s1, reg) && #[trigger] keeps_only(&s1, &g1, reg);
            let p = lemma_largest_open(&s1, r1);
            assert(s1.at(p.0, p.1) == s2.at(p.0, p.1));
            assert(s2.open_at(p));
        } else if two {
            let r2 = choose|reg: Seq<(usize, usize)>| largest_region(&s2, reg) && #[trigger] keeps_only(&s2, &g2, reg);
            let p = lemma_largest_open(&s2, r2);
            assert(s1.at(p.0, p.1) == s2.at(p.0, p.1));
            assert(s1.open_at(p));
        }
    }
}

impl Percolation {
    /// Turns each inner cell (row by row) to floor with the fill
    /// probability. With `keep_largest`, every floor cell outside a largest
    /// connected floor region (see [`largest_region`]) then becomes wall.
    pub fn generate(&self, grid: &mut Grid<TileCell>, seed: u64)
        requires
            old(grid).wf(),
            old(grid).h() >= 1,
            old(grid).w() >= 1 || old(grid).h() <= 2,
        ensures
            percolation_outcome(self.config(), seed, *old(grid), *final(grid)),
    {
        let ghost g0 = *grid;
        let mut rng = Rng::new(seed);
        let w = grid.width();
        let h = grid.height();
        seed_inner(grid, &mut rng, self.config.fill_probability);
        let ghost s1 = *grid;
        proof {
            assert(seeded_with(&g0, &s1, self.config().fill_probability));
            assert(seeded_by(&g0, &s1, self.config().fill_probability, seed, 0));
        }
        if !self.config.keep_largest {
            return;
        }
        let regions = grid.flood_regions();
        if regions.len() == 0 {
            proof {
                assert forall|p: (int, int)| !#[trigger] s1.open_at(p) by {
                    if s1.open_at(p) {
                        assert(in_some(regions@, p));
                    }
                }
            }
            return;
        }
        let mut best: usize = 0;
        let mut r: usize = 1;
        while r < regions.len()
            invariant
                0 < regions@.len(),
                best < r <= regions@.len(),
                forall|q: int| 0 <= q < r ==> (#[trigger] regions@[q]@).len() <= regions@[best as int]@.len(),
                forall|q: int| best < q < r ==> (#[trigger] regions@[q]@).len() < regions@[best as int]@.len(),
            decreases regions@.len() - r,
        {
            if regions[r].len() >= regions[best].len() {
                best = r;
            }
            r = r + 1;
        }
        proof {
            lemma_last_longest(grid, regions@, best as int);
        }
        let n = w * h;
        let ghost wi = w as int;
        let ghost hi = h as int;
        let kept = &regions[best];
        let ghost reg = kept@;
        let mut mark: Vec<bool> = Vec::with_capacity(n);
        let mut i: usize = 0;
        while i < n
            invariant
                i <= n,
                mark@.len() == i,
                forall|m: int| 0 <= m < i ==> !mark@[m],
            decreases n - i,
        {
            mark.push(false);
            i = i + 1;
        }
        let mut j: usize = 0;
        while j < kept.len()
            invariant
                grid.wf(),
                s1 == *grid,
                wi == w,
                hi == h,
                w == grid.w(),
                h == grid.h(),
                n == w * h,
                reg == kept@,
                grid.is_component(reg),
                mark@.len() == n,
                j <= reg.len(),
                forall|m: int|
                    0 <= m < n ==> (#[trigger] mark@[m] <==> exists|k: int| 0 <= k < j && grid.index_at(reg[k]) == m),
            decreases reg.len() - j,
        {
            let (px, py) = kept[j];
            proof {
                assert(grid.connected(pos(reg[0]), pos(reg[j as int])));
                let wk = choose|wk: Seq<(int, int)>| #[trigger] grid.is_walk(wk) && wk[0] == pos(reg[0]) && wk.last()
                    == pos(reg[j as int]);
                assert(grid.open_at(wk[wk.len() - 1]));
                lemma_cell_index_bounds(wi, hi, px as int, py as int);
            }
            let ghost m0 = mark@;
            mark.set(py * w + px, true);
            proof {
                assert forall|m: int| 0 <= m < n implies (#[trigger] mark@[m] <==> exists|k: int|
                    0 <= k < j + 1 && grid.index_at(reg[k]) == m) by {
                    if m == grid.index_at(reg[j as int]) {
                        assert(grid.index_at(reg[j as int]) == m);
                    } else {
                        assert(mark@[m] == m0[m]);
                        if exists|k: int| 0 <= k < j + 1 && grid.index_at(reg[k]) == m {
                            let k = choose|k: int| 0 <= k < j + 1 && grid.index_at(reg[k]) == m;
                            assert(k < j);
                        }
                    }
                }
            }
            j = j + 1;
        }
        let mut cells: Vec<TileCell> = Vec::with_capacity(n);
        let mut i: usize = 0;
        while i < n
            invariant
                grid.wf(),
                s1 == *grid,
                wi == w,
                hi == h,
                w == grid.w(),
                h == grid.h(),
                n == w * h,
                mark@.len() == n,
                i <= n,
                cells@.len() == i,
                forall|m: int|
                    0 <= m < i ==> #[trigger] cells@[m] == if grid.cells()[m].tile == Tile::Floor && !mark@[m] {
                        TileCell { tile: Tile::Wall }
                    } else {
                        grid.cells()[m]
                    },
            decreases n - i,
        {
            proof {
                assert(0 < w) by (nonlinear_arith)
                    requires
                        i < n,
                        n == w * h,
                ;
                lemma_cell_index_decompose(wi, hi, i as int);
            }
            let c = grid.cell(i % w, i / w);
            if c.tile.is_floor() && !mark[i] {
                cells.push(TileCell::wall());
            } else {
                cells.push(c);
            }
            i = i + 1;
        }
        let ghost marks = mark@;
        *grid = Grid::from_cells(w, h, cells);
        proof {
            assert forall|x: int, y: int| s1.contains(x, y) implies #[trigger] grid.at(x, y) == if s1.open_at((x, y))
                && !holds_pos(reg, (x, y)) {
                TileCell { tile: Tile::Wall }
            } else {
                s1.at(x, y)
            } by {
                let m = cell_index(wi, x, y);
                lemma_cell_index_bounds(wi, hi, x, y);
                if marks[m] {
                    let k = choose|k: int| 0 <= k < reg.len() && s1.index_at(reg[k]) == m;
                    lemma_cell_index_bounds(wi, hi, reg[k].0 as int, reg[k].1 as int);
                    assert(s1.connected(pos(reg[0]), pos(reg[k])));
                    let wk = choose|wk: Seq<(int, int)>| #[trigger] s1.is_walk(wk) && wk[0] == pos(reg[0]) && wk.last()
                        == pos(reg[k]);
                    assert(s1.open_at(wk[wk.len() - 1]));
                    lemma_cell_index_injective(wi, x, y, reg[k].0 as int, reg[k].1 as int);
                    assert(pos(reg[k]) == (x, y));
                    assert(holds_pos(reg, (x, y)));
                } else if holds_pos(reg, (x, y)) {
                    let k = choose|k: int| 0 <= k < reg.len() && pos(#[trigger] reg[k]) == (x, y);
                    assert(s1.index_at(reg[k]) == m);
                }
            }
            assert(keeps_only(&s1, grid, reg));
            assert(largest_region(&s1, reg));
            assert(seeded_with(&g0, &s1, self.config().fill_probability));
            assert(seeded_by(&g0, &s1, self.config().fill_probability, seed, 0));
        }
    }
}

} // verus!

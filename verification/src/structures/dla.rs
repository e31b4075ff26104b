//! Diffusion-limited aggregation.

use crate::grid::{adjacent4, cell_index, Cell, Grid, Tile, TileCell};
use crate::rng::{chacha_i32_in, chacha_usize_in, Rng};
use vstd::prelude::*;

verus! {

/// Configuration for diffusion-limited aggregation.
#[derive(Debug, Clone)]
pub struct DlaConfig {
    pub num_particles: usize,
    pub max_walk_steps: usize,
}

impl Default for DlaConfig {
    fn default() -> (r: DlaConfig)
        ensures
            r.num_particles == 500,
            r.max_walk_steps == 1000,
    {
        DlaConfig { num_particles: 500, max_walk_steps: 1000 }
    }
}

/// Diffusion-limited aggregation generator.
pub struct Dla {
    config: DlaConfig,
}

impl Dla {
    pub fn new(config: DlaConfig) -> (r: Dla)
        ensures
            r.config() == config,
    {
        Dla { config }
    }

    pub closed spec fn config(&self) -> DlaConfig {
        self.config
    }
}

impl Default for Dla {
    fn default() -> (r: Dla)
        ensures
            r.config().num_particles == 500,
            r.config().max_walk_steps == 1000,
    {
        Dla::new(DlaConfig::default())
    }
}

/// Whether a 4-neighbour of `(x, y)` inside the grid is floor.
pub fn has_floor_neighbor(grid: &Grid<TileCell>, x: usize, y: usize) -> (r: bool)
    requires
        grid.wf(),
        1 <= x < grid.w(),
        1 <= y < grid.h(),
        grid.w() <= i32::MAX,
        grid.h() <= i32::MAX,
    ensures
        r == (grid.open_at((x - 1, y as int)) || grid.open_at((x + 1, y as int)) || grid.open_at(
            (x as int, y - 1),
        ) || grid.open_at((x as int, y + 1))),
{
    let xi = x as i32;
    let yi = y as i32;
    let mut found = false;
    if let Some(c) = grid.get(xi - 1, yi) {
        if c.tile.is_floor() {
            found = true;
        }
    }
    if !found {
        if let Some(c) = grid.get(xi + 1, yi) {
            if c.tile.is_floor() {
                found = true;
            }
        }
    }
    if !found {
        if let Some(c) = grid.get(xi, yi - 1) {
            if c.tile.is_floor() {
                found = true;
            }
        }
    }
    if !found {
        if let Some(c) = grid.get(xi, yi + 1) {
            if c.tile.is_floor() {
                found = true;
            }
        }
    }
    found
}

/// In the structure grown on `g0` from the seed cell `c` by the first `k`
/// stuck particles of `sticks`, the cell `q` is floor.
pub open spec fn dla_open(g0: Grid<TileCell>, c: (int, int), sticks: Seq<(int, int)>, k: int, q: (int, int)) -> bool {
    &&& g0.contains(q.0, q.1)
    &&& (g0.open_at(q) || q == c || exists|j: int| 0 <= j < k && #[trigger] sticks[j] == q)
}

/// Every stuck particle lies inside the border ring and, when it stuck,
/// had a 4-neighbour that was already floor.
pub open spec fn dla_grown(g0: Grid<TileCell>, c: (int, int), sticks: Seq<(int, int)>) -> bool {
    forall|k: int|
        0 <= k < sticks.len() ==> {
            let t = #[trigger] sticks[k];
            &&& 1 <= t.0 < g0.w() - 1
            &&& 1 <= t.1 < g0.h() - 1
            &&& (dla_open(g0, c, sticks, k, (t.0 - 1, t.1)) || dla_open(g0, c, sticks, k, (t.0 + 1, t.1)) || dla_open(
                g0,
                c,
                sticks,
                k,
                (t.0, t.1 - 1),
            ) || dla_open(g0, c, sticks, k, (t.0, t.1 + 1)))
        }
}

/// `new` is `old` with floor on the seed cell `c` and on every stuck particle.
pub open spec fn dla_result(old: Grid<TileCell>, new: Grid<TileCell>, c: (int, int), sticks: Seq<(int, int)>) -> bool {
    &&& new.wf()
    &&& new.w() == old.w()
    &&& new.h() == old.h()
    &&& forall|x: int, y: int|
        old.contains(x, y) ==> #[trigger] new.at(x, y) == if (x, y) == c || (exists|j: int|
            0 <= j < sticks.len() && #[trigger] sticks[j] == (x, y)) {
            TileCell::floor_cell()
        } else {
            old.at(x, y)
        }
}

/// Sticking particle `t` next to floor keeps the grid the structure grown
/// by the stuck particles.
proof fn lemma_dla_stick(
    g0: Grid<TileCell>,
    g1: Grid<TileCell>,
    g2: Grid<TileCell>,
    c: (int, int),
    sticks: Seq<(int, int)>,
    t: (int, int),
)
    requires
        g0.wf(),
        g0.contains(c.0, c.1),
        dla_grown(g0, c, sticks),
        dla_result(g0, g1, c, sticks),
        1 <= t.0 < g0.w() - 1,
        1 <= t.1 < g0.h() - 1,
        g1.open_at((t.0 - 1, t.1)) || g1.open_at((t.0 + 1, t.1)) || g1.open_at((t.0, t.1 - 1)) || g1.open_at(
            (t.0, t.1 + 1),
        ),
        g2.wf(),
        g2.w() == g1.w(),
        g2.h() == g1.h(),
        forall|px: int, py: int|
            g1.contains(px, py) ==> #[trigger] g2.at(px, py) == if px == t.0 && py == t.1 {
                TileCell { tile: Tile::Floor }
            } else {
                g1.at(px, py)
            },
    ensures
        dla_grown(g0, c, sticks.push(t)),
        dla_result(g0, g2, c, sticks.push(t)),
{
    let s2 = sticks.push(t);
    let k = sticks.len() as int;
    assert(s2[k] == t);
    assert forall|q: (int, int)| g1.open_at(q) implies dla_open(g0, c, s2, k, q) by {
        assert(g1.at(q.0, q.1) == if q == c || (exists|j: int| 0 <= j < sticks.len() && #[trigger] sticks[j] == q) {
            TileCell::floor_cell()
        } else {
            g0.at(q.0, q.1)
        });
        if exists|j: int| 0 <= j < sticks.len() && #[trigger] sticks[j] == q {
            let j = choose|j: int| 0 <= j < sticks.len() && #[trigger] sticks[j] == q;
            assert(s2[j] == sticks[j]);
        }
    }
    assert(g1.open_at((t.0 - 1, t.1)) ==> dla_open(g0, c, s2, k, (t.0 - 1, t.1)));
    assert(g1.open_at((t.0 + 1, t.1)) ==> dla_open(g0, c, s2, k, (t.0 + 1, t.1)));
    assert(g1.open_at((t.0, t.1 - 1)) ==> dla_open(g0, c, s2, k, (t.0, t.1 - 1)));
    assert(g1.open_at((t.0, t.1 + 1)) ==> dla_open(g0, c, s2, k, (t.0, t.1 + 1)));
    assert forall|i: int| 0 <= i < s2.len() implies {
        let u = #[trigger] s2[i];
        &&& 1 <= u.0 < g0.w() - 1
        &&& 1 <= u.1 < g0.h() - 1
        &&& (dla_open(g0, c, s2, i, (u.0 - 1, u.1)) || dla_open(g0, c, s2, i, (u.0 + 1, u.1)) || dla_open(
            g0,
            c,
            s2,
            i,
            (u.0, u.1 - 1),
        ) || dla_open(g0, c, s2, i, (u.0, u.1 + 1)))
    } by {
        if i < k {
            let u = sticks[i];
            assert(s2[i] == u);
            assert forall|q: (int, int)| dla_open(g0, c, sticks, i, q) implies dla_open(g0, c, s2, i, q) by {
                if exists|j: int| 0 <= j < i && #[trigger] sticks[j] == q {
                    let j = choose|j: int| 0 <= j < i && #[trigger] sticks[j] == q;
                    assert(s2[j] == sticks[j]);
                }
            }
            assert(dla_open(g0, c, sticks, i, (u.0 - 1, u.1)) || dla_open(g0, c, sticks, i, (u.0 + 1, u.1))
                || dla_open(g0, c, sticks, i, (u.0, u.1 - 1)) || dla_open(g0, c, sticks, i, (u.0, u.1 + 1)));
        }
    }
    assert forall|x: int, y: int| g0.contains(x, y) implies #[trigger] g2.at(x, y) == if (x, y) == c || (exists|j: int|
        0 <= j < s2.len() && #[trigger] s2[j] == (x, y)) {
        TileCell::floor_cell()
    } else {
        g0.at(x, y)
    } by {
        if exists|j: int| 0 <= j < sticks.len() && #[trigger] sticks[j] == (x, y) {
            let j = choose|j: int| 0 <= j < sticks.len() && #[trigger] sticks[j] == (x, y);
            assert(s2[j] == sticks[j]);
        }
        if exists|j: int| 0 <= j < s2.len() && #[trigger] s2[j] == (x, y) {
            let j = choose|j: int| 0 <= j < s2.len() && #[trigger] s2[j] == (x, y);
            if j < k {
                assert(s2[j] == sticks[j]);
            }
        }
    }
}

/// A particle at `(x, y)` touches the structure grown on `g0` from `c` by
/// the stuck particles `sticks`: one of its 4-neighbours is floor there.
pub open spec fn dla_touches(g0: Grid<TileCell>, c: (int, int), sticks: Seq<(int, int)>, x: int, y: int) -> bool {
    let k = sticks.len() as int;
    dla_open(g0, c, sticks, k, (x - 1, y)) || dla_open(g0, c, sticks, k, (x + 1, y)) || dla_open(
        g0,
        c,
        sticks,
        k,
        (x, y - 1),
    ) || dla_open(g0, c, sticks, k, (x, y + 1))
}

/// A grid holding the grown structure is floor exactly where the structure is.
proof fn lemma_dla_open(g0: Grid<TileCell>, g: Grid<TileCell>, c: (int, int), sticks: Seq<(int, int)>, q: (int, int))
    requires
        dla_result(g0, g, c, sticks),
    ensures
        g.open_at(q) == dla_open(g0, c, sticks, sticks.len() as int, q),
{
    if g0.contains(q.0, q.1) {
        assert(g.at(q.0, q.1) == if q == c || (exists|j: int| 0 <= j < sticks.len() && #[trigger] sticks[j] == q) {
            TileCell::floor_cell()
        } else {
            g0.at(q.0, q.1)
        });
    }
}

/// A particle's start drawn at word position `pos` of the stream of `seed`:
/// a side of the inner edge of a `w` by `h` grid (top, bottom, left,
/// right), then a cell along it. Gives the cell and the next word position.
pub open spec fn particle_start(w: usize, h: usize, seed: u64, pos: u128) -> (int, int, u128) {
    let side = chacha_i32_in(seed, pos, 0, 4);
    let across = chacha_usize_in(seed, side.1, 1, (w - 1) as usize, usize::BITS);
    let down = chacha_usize_in(seed, side.1, 1, (h - 1) as usize, usize::BITS);
    if side.0 == 0 {
        (across.0 as int, 1, across.1)
    } else if side.0 == 1 {
        (across.0 as int, h - 2, across.1)
    } else if side.0 == 2 {
        (1, down.0 as int, down.1)
    } else {
        (w - 2, down.0 as int, down.1)
    }
}

/// A particle's state after `n` steps of its walk from `st` on the
/// structure grown by `sticks`: once it touches the structure it sticks and
/// stays; else it draws a direction (right, left, down, up) and moves there
/// if that stays inside the border ring. Gives the cell, the next word
/// position and whether it stuck.
pub open spec fn particle_walk(
    g0: Grid<TileCell>,
    c: (int, int),
    sticks: Seq<(int, int)>,
    seed: u64,
    st: (int, int, u128),
    n: nat,
) -> (int, int, u128, bool)
    decreases n,
{
    if n == 0 {
        (st.0, st.1, st.2, false)
    } else {
        let r = particle_walk(g0, c, sticks, seed, st, (n - 1) as nat);
        if r.3 {
            r
        } else if dla_touches(g0, c, sticks, r.0, r.1) {
            (r.0, r.1, r.2, true)
        } else {
            let d = chacha_i32_in(seed, r.2, 0, 4);
            let nx = r.0 + if d.0 == 0 {
                1int
            } else if d.0 == 1 {
                -1int
            } else {
                0int
            };
            let ny = r.1 + if d.0 == 2 {
                1int
            } else if d.0 == 3 {
                -1int
            } else {
                0int
            };
            if 0 < nx < g0.w() - 1 && 0 < ny < g0.h() - 1 {
                (nx, ny, d.1, false)
            } else {
                (r.0, r.1, d.1, false)
            }
        }
    }
}

/// A particle that stuck stays stuck where it is.
proof fn lemma_particle_stuck(
    g0: Grid<TileCell>,
    c: (int, int),
    sticks: Seq<(int, int)>,
    seed: u64,
    st: (int, int, u128),
    n: nat,
    m: nat,
)
    requires
        n <= m,
        particle_walk(g0, c, sticks, seed, st, n).3,
    ensures
        particle_walk(g0, c, sticks, seed, st, m) == particle_walk(g0, c, sticks, seed, st, n),
    decreases m - n,
{
    if n < m {
        lemma_particle_stuck(g0, c, sticks, seed, st, n, (m - 1) as nat);
    }
}

/// The stuck particles, in sticking order, and the next word position after
/// the first `n` particles released on `g0` from the start of the stream of
/// `seed`, each walking at most `max_walk_steps` steps.
pub open spec fn dla_particles(c: DlaConfig, g0: Grid<TileCell>, seed: u64, n: nat) -> (Seq<(int, int)>, u128)
    decreases n,
{
    if n == 0 {
        (Seq::empty(), 0)
    } else {
        let st = dla_particles(c, g0, seed, (n - 1) as nat);
        let centre = ((g0.w() / 2) as int, (g0.h() / 2) as int);
        let start = particle_start(g0.w() as usize, g0.h() as usize, seed, st.1);
        let r = particle_walk(g0, centre, st.0, seed, start, c.max_walk_steps as nat);
        if r.3 {
            (st.0.push((r.0, r.1)), r.2)
        } else {
            (st.0, r.2)
        }
    }
}

/// What [`Dla::generate`] makes of the grid `g0` with `seed`: the particles
/// drawn from the stream of `seed` stick where [`dla_particles`] says, and
/// `g1` is `g0` with floor on the centre and on them.
pub open spec fn dla_outcome(c: DlaConfig, seed: u64, g0: Grid<TileCell>, g1: Grid<TileCell>) -> bool {
    &&& g0.grows_to(&g1)
    &&& g0.same_outside(&g1, 1, 1, g0.w() - 1, g0.h() - 1)
    &&& g1.at((g0.w() / 2) as int, (g0.h() / 2) as int).tile == Tile::Floor
    &&& g1.anchored(&g0, ((g0.w() / 2) as int, (g0.h() / 2) as int))
    &&& exists|sticks: Seq<(int, int)>|
            #![trigger dla_result(g0, g1, ((g0.w() / 2) as int, (g0.h() / 2) as int), sticks)]
            {
                let centre = ((g0.w() / 2) as int, (g0.h() / 2) as int);
                &&& sticks == dla_particles(c, g0, seed, c.num_particles as nat).0
                &&& sticks.len() <= c.num_particles
                &&& dla_grown(g0, centre, sticks)
                &&& dla_result(g0, g1, centre, sticks)
            }
}

/// Diffusion-limited aggregation is deterministic: the same configuration,
/// seed and grid give the same result.
pub proof fn law_dla_deterministic(c: DlaConfig, seed: u64, g0: Grid<TileCell>, g1: Grid<TileCell>, g2: Grid<TileCell>)
    requires
        dla_outcome(c, seed, g0, g1),
        dla_outcome(c, seed, g0, g2),
    ensures
        g1.cells() == g2.cells(),
{
    let centre = ((g0.w() / 2) as int, (g0.h() / 2) as int);
    let s1 = choose|sticks: Seq<(int, int)>|
        #![trigger dla_result(g0, g1, centre, sticks)]
        sticks == dla_particles(c, g0, seed, c.num_particles as nat).0 && dla_result(g0, g1, centre, sticks);
    let s2 = choose|sticks: Seq<(int, int)>|
        #![trigger dla_result(g0, g2, centre, sticks)]
        sticks == dla_particles(c, g0, seed, c.num_particles as nat).0 && dla_result(g0, g2, centre, sticks);
    assert forall|x: int, y: int| g2.contains(x, y) implies #[trigger] g2.at(x, y) == g1.cells()[cell_index(
        g2.w() as int,
        x,
        y,
    )] by {
        assert(g1.at(x, y) == g2.at(x, y));
    }
    g2.lemma_cells_match(g1.cells());
}

impl Dla {
    /// Grows a floor structure from the centre cell: particles start on the
    /// inner edge, walk randomly inside the border ring, and stick when they
    /// touch floor. Only interior cells change, only to floor; the centre
    /// ends as floor; every floor cell is connected to the centre or to a
    /// cell that was floor before.
    pub fn generate(&self, grid: &mut Grid<TileCell>, seed: u64)
        requires
            old(grid).wf(),
            3 <= old(grid).w() <= i32::MAX,
            3 <= old(grid).h() <= i32::MAX,
        ensures
            dla_outcome(self.config(), seed, *old(grid), *final(grid)),
    {
        let ghost g0 = *grid;
        let mut rng = Rng::new(seed);
        let w = grid.width();
        let h = grid.height();
        let cx = w / 2;
        let cy = h / 2;
        let ghost c = (cx as int, cy as int);
        grid.set(cx as i32, cy as i32, TileCell::floor());
        proof {
            grid.lemma_connected_refl(c);
            assert forall|p: (int, int)| #[trigger] grid.open_at(p) implies grid.connected(c, p) || exists|q: (int, int)|
                g0.open_at(q) && #[trigger] grid.connected(q, p) by {
                if p != c {
                    assert(g0.open_at(p));
                    g0.lemma_connected_refl(p);
                    g0.lemma_grows_connected(grid, p, p);
                }
            }
        }
        let ghost mut sticks: Seq<(int, int)> = Seq::empty();
        proof {
            assert forall|x: int, y: int| g0.contains(x, y) implies #[trigger] grid.at(x, y) == if (x, y) == c || (exists|
                j: int,
            | 0 <= j < sticks.len() && #[trigger] sticks[j] == (x, y)) {
                TileCell::floor_cell()
            } else {
                g0.at(x, y)
            } by {}
        }
        let mut particle: usize = 0;
        while particle < self.config.num_particles
            invariant
                sticks.len() <= particle,
                particle <= self.config.num_particles,
                dla_grown(g0, c, sticks),
                dla_result(g0, *grid, c, sticks),
                g0.wf(),
                w == g0.w(),
                h == g0.h(),
                3 <= w <= i32::MAX,
                3 <= h <= i32::MAX,
                c == (cx as int, cy as int),
                cx == w / 2,
                cy == h / 2,
                g0.grows_to(grid),
                g0.same_outside(grid, 1, 1, w - 1, h - 1),
                grid.at(cx as int, cy as int).tile == Tile::Floor,
                grid.anchored(&g0, c),
                rng.seed_of() == seed,
                (sticks, rng.pos_of()) == dla_particles(self.config, g0, seed, particle as nat),
            decreases self.config.num_particles - particle,
        {
            let ghost pos0 = rng.pos_of();
            let ghost s0 = sticks;
            let side = rng.range(0, 4);
            let (mut x, mut y) = if side == 0 {
                (rng.range_usize(1, w - 1), 1)
            } else if side == 1 {
                (rng.range_usize(1, w - 1), h - 2)
            } else if side == 2 {
                (1, rng.range_usize(1, h - 1))
            } else {
                (w - 2, rng.range_usize(1, h - 1))
            };
            let ghost start = (x as int, y as int, rng.pos_of());
            proof {
                assert(start == particle_start(w, h, seed, pos0));
            }
            let mut step: usize = 0;
            while step < self.config.max_walk_steps
                invariant_except_break
                    sticks.len() <= particle,
                    sticks == s0,
                    (x as int, y as int, rng.pos_of(), false) == particle_walk(g0, c, s0, seed, start, step as nat),
                invariant
                    rng.seed_of() == seed,
                    step <= self.config.max_walk_steps,
                    sticks.len() <= particle + 1,
                    particle < self.config.num_particles,
                    dla_grown(g0, c, sticks),
                    dla_result(g0, *grid, c, sticks),
                    g0.wf(),
                    w == g0.w(),
                    h == g0.h(),
                    3 <= w <= i32::MAX,
                    3 <= h <= i32::MAX,
                    1 <= x < w - 1,
                    1 <= y < h - 1,
                    c == (cx as int, cy as int),
                    cx == w / 2,
                    cy == h / 2,
                    g0.grows_to(grid),
                    g0.same_outside(grid, 1, 1, w - 1, h - 1),
                    grid.at(cx as int, cy as int).tile == Tile::Floor,
                    grid.anchored(&g0, c),
                ensures
                    ({
                        let r = particle_walk(g0, c, s0, seed, start, self.config.max_walk_steps as nat);
                        rng.pos_of() == r.2 && sticks == if r.3 {
                            s0.push((r.0, r.1))
                        } else {
                            s0
                        }
                    }),
                decreases self.config.max_walk_steps - step,
            {
                proof {
                    lemma_dla_open(g0, *grid, c, sticks, (x - 1, y as int));
                    lemma_dla_open(g0, *grid, c, sticks, (x + 1, y as int));
                    lemma_dla_open(g0, *grid, c, sticks, (x as int, y - 1));
                    lemma_dla_open(g0, *grid, c, sticks, (x as int, y + 1));
                }
                if has_floor_neighbor(grid, x, y) {
                    let ghost g1 = *grid;
                    proof {
                        assert(particle_walk(g0, c, s0, seed, start, (step + 1) as nat) == (x as int, y as int, rng.pos_of(), true));
                        lemma_particle_stuck(g0, c, s0, seed, start, (step + 1) as nat, self.config.max_walk_steps as nat);
                    }
                    grid.set(x as i32, y as i32, TileCell::floor());
                    proof {
                        self.lemma_stick(&g0, &g1, grid, c, (x as int, y as int));
                        lemma_dla_stick(g0, g1, *grid, c, sticks, (x as int, y as int));
                        sticks = sticks.push((x as int, y as int));
                    }
                    break;
                }
                let dir = rng.range(0, 4);
                let (dx, dy): (i32, i32) = if dir == 0 {
                    (1, 0)
                } else if dir == 1 {
                    (-1, 0)
                } else if dir == 2 {
                    (0, 1)
                } else {
                    (0, -1)
                };
                let nx = x as i32 + dx;
                let ny = y as i32 + dy;
                if nx > 0 && nx < (w - 1) as i32 && ny > 0 && ny < (h - 1) as i32 {
                    x = nx as usize;
                    y = ny as usize;
                }
                proof {
                    assert(particle_walk(g0, c, s0, seed, start, (step + 1) as nat) == (x as int, y as int, rng.pos_of(), false));
                }
                step = step + 1;
            }
            particle = particle + 1;
        }
    }

    /// Sticking a particle next to a floor cell keeps every floor cell
    /// anchored.
    proof fn lemma_stick(
        &self,
        g0: &Grid<TileCell>,
        g1: &Grid<TileCell>,
        g2: &Grid<TileCell>,
        c: (int, int),
        t: (int, int),
    )
        requires
            g0.grows_to(g1),
            g1.anchored(g0, c),
            g1.contains(t.0, t.1),
            g1.open_at((t.0 - 1, t.1)) || g1.open_at((t.0 + 1, t.1)) || g1.open_at((t.0, t.1 - 1)) || g1.open_at(
                (t.0, t.1 + 1),
            ),
            g2.wf(),
            g2.w() == g1.w(),
            g2.h() == g1.h(),
            g2.at(t.0, t.1).tile == Tile::Floor,
            forall|px: int, py: int|
                g1.contains(px, py) ==> #[trigger] g2.at(px, py) == if px == t.0 && py == t.1 {
                    TileCell { tile: Tile::Floor }
                } else {
                    g1.at(px, py)
                },
        ensures
            g1.grows_to(g2),
            g0.grows_to(g2),
            g2.anchored(g0, c),
    {
        assert(g1.grows_to(g2));
        g0.lemma_grows_trans(g1, g2);
        let n = if g1.open_at((t.0 - 1, t.1)) {
            (t.0 - 1, t.1)
        } else if g1.open_at((t.0 + 1, t.1)) {
            (t.0 + 1, t.1)
        } else if g1.open_at((t.0, t.1 - 1)) {
            (t.0, t.1 - 1)
        } else {
            (t.0, t.1 + 1)
        };
        assert(g1.open_at(n));
        assert(adjacent4(n, t));
        assert(g2.open_at(t));
        assert forall|p: (int, int)| #[trigger] g2.open_at(p) implies g2.connected(c, p) || exists|q: (int, int)|
            g0.open_at(q) && #[trigger] g2.connected(q, p) by {
            let target = if p == t { n } else { p };
            assert(g1.open_at(target));
            if g1.connected(c, target) {
                g1.lemma_grows_connected(g2, c, target);
                if p == t {
                    g2.lemma_connected_step(c, n, t);
                }
            } else {
                let q = choose|q: (int, int)| g0.open_at(q) && #[trigger] g1.connected(q, target);
                g1.lemma_grows_connected(g2, q, target);
                if p == t {
                    g2.lemma_connected_step(q, n, t);
                }
                assert(g2.connected(q, p));
            }
        }
    }
}

} // verus!

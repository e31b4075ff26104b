//! Agent-based carving: several random walkers dig tunnels.

use crate::grid::{adjacent4, cell_index, Cell, Grid, TileCell};
use crate::rng::{after_u64, below, chacha_i32_in, chacha_usize_in, u64_at, Rng, HALF_U64};
use vstd::prelude::*;

verus! {

/// Configuration for agent-based generation. `turn_chance` is the chance
/// that an agent turns before a step, in units of `1 / CHANCE_ONE` (see
/// [`crate::rng::CHANCE_ONE`]).
#[derive(Debug, Clone)]
pub struct AgentConfig {
    pub num_agents: usize,
    pub steps_per_agent: usize,
    pub turn_chance: u64,
}

impl Default for AgentConfig {
    /// Five agents of 200 steps, turn chance 0.3.
    fn default() -> (r: AgentConfig)
        ensures
            r.num_agents == 5,
            r.steps_per_agent == 200,
            r.turn_chance == 2702159776422298,
    {
        AgentConfig { num_agents: 5, steps_per_agent: 200, turn_chance: 2702159776422298 }
    }
}

/// Agent-based dungeon generation with several carvers.
pub struct AgentBased {
    config: AgentConfig,
}

impl AgentBased {
    pub fn new(config: AgentConfig) -> (r: AgentBased)
        ensures
            r.config() == config,
    {
        AgentBased { config }
    }

    pub closed spec fn config(&self) -> AgentConfig {
        self.config
    }
}

impl Default for AgentBased {
    fn default() -> (r: AgentBased)
        ensures
            r.config().num_agents == 5,
            r.config().steps_per_agent == 200,
            r.config().turn_chance == 2702159776422298,
    {
        AgentBased::new(AgentConfig::default())
    }
}

/// Every floor cell of `g` is connected to one of the `starts` or to a cell
/// that is floor in `g0`.
pub open spec fn dug_from(g0: &Grid<TileCell>, g: &Grid<TileCell>, starts: Seq<(int, int)>) -> bool {
    forall|p: (int, int)|
        #[trigger] g.open_at(p) ==> (exists|q: (int, int)| g0.open_at(q) && #[trigger] g.connected(q, p)) || (exists|
            k: int,
        |
            0 <= k < starts.len() && #[trigger] g.connected(starts[k], p))
}

/// The agents' starting cells: `n` of them, each inside the border ring of
/// `g0`, and every floor cell of `g` dug from one of them or from an old
/// floor cell.
pub open spec fn agent_starts(g0: &Grid<TileCell>, g: &Grid<TileCell>, starts: Seq<(int, int)>, n: nat) -> bool {
    &&& starts.len() == n
    &&& forall|k: int| 0 <= k < n ==> 1 <= (#[trigger] starts[k]).0 < g0.w() - 1 && 1 <= starts[k].1 < g0.h() - 1
    &&& dug_from(g0, g, starts)
}

/// Growing the grid keeps cells dug, from the same starts or more.
proof fn lemma_dug_grows(g0: &Grid<TileCell>, g1: &Grid<TileCell>, g2: &Grid<TileCell>, starts: Seq<(int, int)>, t: (int, int), k: int)
    requires
        g1.grows_to(g2),
        dug_from(g0, g1, starts),
        0 <= k < starts.len(),
        g2.connected(starts[k], t),
        forall|p: (int, int)| #[trigger] g2.open_at(p) && p != t ==> g1.open_at(p),
    ensures
        dug_from(g0, g2, starts),
{
    assert forall|p: (int, int)| #[trigger] g2.open_at(p) implies (exists|q: (int, int)|
        g0.open_at(q) && #[trigger] g2.connected(q, p)) || (exists|k2: int|
        0 <= k2 < starts.len() && #[trigger] g2.connected(starts[k2], p)) by {
        if p != t {
            assert(g1.open_at(p));
            if exists|q: (int, int)| g0.open_at(q) && #[trigger] g1.connected(q, p) {
                let q = choose|q: (int, int)| g0.open_at(q) && #[trigger] g1.connected(q, p);
                g1.lemma_grows_connected(g2, q, p);
            } else {
                let k2 = choose|k2: int| 0 <= k2 < starts.len() && #[trigger] g1.connected(starts[k2], p);
                g1.lemma_grows_connected(g2, starts[k2], p);
            }
        }
    }
}

/// The column step of direction `d` (0 up, 1 right, 2 down, 3 left).
pub open spec fn dir_dx(d: int) -> int {
    if d == 1 {
        1
    } else if d == 3 {
        -1
    } else {
        0
    }
}

/// The row step of direction `d` (0 up, 1 right, 2 down, 3 left).
pub open spec fn dir_dy(d: int) -> int {
    if d == 0 {
        -1
    } else if d == 2 {
        1
    } else {
        0
    }
}

/// One step of an agent at `(st.0, st.1)` facing `st.2`, with its next draw
/// at word position `st.3` of the stream of `seed`: when the draw falls
/// below the turn chance it turns right or left on a coin, then it moves
/// ahead if that stays inside the border ring of a `w` by `h` grid, or else
/// turns around.
pub open spec fn agent_step(c: AgentConfig, w: int, h: int, seed: u64, st: (int, int, int, u128)) -> (
    int,
    int,
    int,
    u128,
) {
    let turn = below(u64_at(seed, st.3), c.turn_chance);
    let p1 = after_u64(seed, st.3);
    let d = if !turn {
        st.2
    } else if u64_at(seed, p1) < HALF_U64 {
        (st.2 + 1) % 4
    } else {
        (st.2 + 3) % 4
    };
    let p2 = if turn {
        after_u64(seed, p1)
    } else {
        p1
    };
    let nx = st.0 + dir_dx(d);
    let ny = st.1 + dir_dy(d);
    if 0 < nx < w - 1 && 0 < ny < h - 1 {
        (nx, ny, d, p2)
    } else {
        (st.0, st.1, (d + 2) % 4, p2)
    }
}

/// An agent's state after `n` steps from `st`.
pub open spec fn agent_walk(c: AgentConfig, w: int, h: int, seed: u64, st: (int, int, int, u128), n: nat) -> (
    int,
    int,
    int,
    u128,
)
    decreases n,
{
    if n == 0 {
        st
    } else {
        agent_step(c, w, h, seed, agent_walk(c, w, h, seed, st, (n - 1) as nat))
    }
}

/// An agent's start drawn at word position `pos`: a column and a row inside
/// the border ring of a `w` by `h` grid, and a direction.
pub open spec fn agent_start(w: usize, h: usize, seed: u64, pos: u128) -> (int, int, int, u128) {
    let dx = chacha_i32_in(seed, pos, 1, (w - 1) as i32);
    let dy = chacha_i32_in(seed, dx.1, 1, (h - 1) as i32);
    let dd = chacha_usize_in(seed, dy.1, 0, 4, usize::BITS);
    (dx.0 as int, dy.0 as int, dd.0 as int, dd.1)
}

/// The start of agent `a`: the first draws from the start of the stream of
/// `seed`, each later one where the agent before it stopped.
pub open spec fn agent_begin(c: AgentConfig, w: usize, h: usize, seed: u64, a: nat) -> (int, int, int, u128)
    decreases a,
{
    if a == 0 {
        agent_start(w, h, seed, 0)
    } else {
        let prev = agent_begin(c, w, h, seed, (a - 1) as nat);
        agent_start(w, h, seed, agent_walk(c, w as int, h as int, seed, prev, c.steps_per_agent as nat).3)
    }
}

/// The cell agent `a` digs on its step `i`.
pub open spec fn agent_at(c: AgentConfig, w: usize, h: usize, seed: u64, a: int, i: int) -> (int, int) {
    let st = agent_walk(c, w as int, h as int, seed, agent_begin(c, w, h, seed, a as nat), i as nat);
    (st.0, st.1)
}

/// An agent before agent `a`, or agent `a` before its step `i`, dug `(x, y)`.
pub open spec fn dug_before(c: AgentConfig, w: usize, h: usize, seed: u64, a: int, i: int, x: int, y: int) -> bool {
    exists|b: int, j: int|
        0 <= b <= a && 0 <= j < c.steps_per_agent && (b < a || j < i) && #[trigger] agent_at(c, w, h, seed, b, j)
            == (x, y)
}

/// Agent `a`'s step `i` adds its cell to what was dug before it.
proof fn lemma_dug_step(c: AgentConfig, w: usize, h: usize, seed: u64, a: int, i: int, x: int, y: int)
    requires
        0 <= a,
        0 <= i < c.steps_per_agent,
    ensures
        dug_before(c, w, h, seed, a, i + 1, x, y) == (dug_before(c, w, h, seed, a, i, x, y) || agent_at(
            c,
            w,
            h,
            seed,
            a,
            i,
        ) == (x, y)),
{
    if dug_before(c, w, h, seed, a, i + 1, x, y) {
        let (b, j) = choose|b: int, j: int|
            0 <= b <= a && 0 <= j < c.steps_per_agent && (b < a || j < i + 1) && #[trigger] agent_at(c, w, h, seed, b, j)
                == (x, y);
        if b < a || j < i {
            assert(dug_before(c, w, h, seed, a, i, x, y));
        }
    }
    if dug_before(c, w, h, seed, a, i, x, y) {
        let (b, j) = choose|b: int, j: int|
            0 <= b <= a && 0 <= j < c.steps_per_agent && (b < a || j < i) && #[trigger] agent_at(c, w, h, seed, b, j)
                == (x, y);
        assert(dug_before(c, w, h, seed, a, i + 1, x, y));
    }
    if agent_at(c, w, h, seed, a, i) == (x, y) {
        assert(dug_before(c, w, h, seed, a, i + 1, x, y));
    }
}

/// All of agent `a`'s steps are what was dug before agent `a + 1`.
proof fn lemma_dug_next_agent(c: AgentConfig, w: usize, h: usize, seed: u64, a: int, x: int, y: int)
    requires
        0 <= a,
    ensures
        dug_before(c, w, h, seed, a, c.steps_per_agent as int, x, y) == dug_before(c, w, h, seed, a + 1, 0, x, y),
{
    if dug_before(c, w, h, seed, a, c.steps_per_agent as int, x, y) {
        let (b, j) = choose|b: int, j: int|
            0 <= b <= a && 0 <= j < c.steps_per_agent && (b < a || j < c.steps_per_agent) && #[trigger] agent_at(
                c,
                w,
                h,
                seed,
                b,
                j,
            ) == (x, y);
        assert(dug_before(c, w, h, seed, a + 1, 0, x, y));
    }
    if dug_before(c, w, h, seed, a + 1, 0, x, y) {
        let (b, j) = choose|b: int, j: int|
            0 <= b <= a + 1 && 0 <= j < c.steps_per_agent && (b < a + 1 || j < 0) && #[trigger] agent_at(
                c,
                w,
                h,
                seed,
                b,
                j,
            ) == (x, y);
        assert(dug_before(c, w, h, seed, a, c.steps_per_agent as int, x, y));
    }
}

/// What [`AgentBased::generate`] makes of the grid `g0` with `seed`: every
/// cell an agent dug is floor, every other cell is as in `g0`.
pub open spec fn agent_outcome(c: AgentConfig, seed: u64, g0: Grid<TileCell>, g1: Grid<TileCell>) -> bool {
    &&& forall|x: int, y: int|
        g0.contains(x, y) ==> #[trigger] g1.at(x, y) == if dug_before(
            c,
            g0.w() as usize,
            g0.h() as usize,
            seed,
            c.num_agents as int,
            0,
            x,
            y,
        ) {
            TileCell::floor_cell()
        } else {
            g0.at(x, y)
        }
    &&& g0.grows_to(&g1)
    &&& g0.same_outside(&g1, 1, 1, g0.w() - 1, g0.h() - 1)
    &&& exists|starts: Seq<(int, int)>|
            #[trigger] agent_starts(&g0, &g1, starts, c.num_agents as nat)
}

/// Agent-based carving is deterministic: the same configuration, seed and
/// grid give the same result.
pub proof fn law_agent_deterministic(c: AgentConfig, seed: u64, g0: Grid<TileCell>, g1: Grid<TileCell>, g2: Grid<TileCell>)
    requires
        agent_outcome(c, seed, g0, g1),
        agent_outcome(c, seed, g0, g2),
    ensures
        g1.cells() == g2.cells(),
{
    assert forall|x: int, y: int| g2.contains(x, y) implies #[trigger] g2.at(x, y) == g1.cells()[cell_index(
        g2.w() as int,
        x,
        y,
    )] by {
        assert(g1.at(x, y) == g2.at(x, y));
    }
    g2.lemma_cells_match(g1.cells());
}

impl AgentBased {
    /// Each agent starts on a random cell inside the border ring, facing a
    /// random direction. On each of its steps it turns that cell to floor,
    /// turns left or right (each half the time) with the turn chance, and
    /// moves ahead if that stays inside the border ring, or else turns
    /// around. Cells only become floor, the border ring is kept, and every
    /// floor cell is connected to an agent's start or to an old floor cell.
    pub fn generate(&self, grid: &mut Grid<TileCell>, seed: u64)
        requires
            old(grid).wf(),
            old(grid).w() <= i32::MAX,
            old(grid).h() <= i32::MAX,
            self.config().num_agents > 0 ==> old(grid).w() >= 3 && old(grid).h() >= 3,
        ensures
            agent_outcome(self.config(), seed, *old(grid), *final(grid)),
    {
        let ghost g0 = *grid;
        let mut rng = Rng::new(seed);
        let w = grid.width();
        let h = grid.height();
        let ghost mut starts: Seq<(int, int)> = Seq::empty();
        proof {
            assert forall|p: (int, int)| #[trigger] grid.open_at(p) implies (exists|q: (int, int)|
                g0.open_at(q) && #[trigger] grid.connected(q, p)) || (exists|k: int|
                0 <= k < starts.len() && #[trigger] grid.connected(starts[k], p)) by {
                grid.lemma_connected_refl(p);
            }
        }
        let mut agent: usize = 0;
        while agent < self.config.num_agents
            invariant
                w == g0.w(),
                h == g0.h(),
                w <= i32::MAX,
                h <= i32::MAX,
                self.config.num_agents > 0 ==> w >= 3 && h >= 3,
                agent <= self.config.num_agents,
                g0.grows_to(grid),
                g0.same_outside(grid, 1, 1, w - 1, h - 1),
                starts.len() == agent,
                forall|k: int| 0 <= k < agent ==> 1 <= (#[trigger] starts[k]).0 < w - 1 && 1 <= starts[k].1 < h - 1,
                dug_from(&g0, grid, starts),
                rng.seed_of() == seed,
                agent == 0 ==> rng.pos_of() == 0,
                agent > 0 ==> rng.pos_of() == agent_walk(
                    self.config,
                    w as int,
                    h as int,
                    seed,
                    agent_begin(self.config, w, h, seed, (agent - 1) as nat),
                    self.config.steps_per_agent as nat,
                ).3,
                forall|px: int, py: int|
                    g0.contains(px, py) ==> #[trigger] grid.at(px, py) == if dug_before(
                        self.config,
                        w,
                        h,
                        seed,
                        agent as int,
                        0,
                        px,
                        py,
                    ) {
                        TileCell::floor_cell()
                    } else {
                        g0.at(px, py)
                    },
            decreases self.config.num_agents - agent,
        {
            let ghost pos0 = rng.pos_of();
            let mut x = rng.range(1, w as i32 - 1);
            let mut y = rng.range(1, h as i32 - 1);
            let mut dir = rng.range_usize(0, 4);
            proof {
                assert((x as int, y as int, dir as int, rng.pos_of()) == agent_start(w, h, seed, pos0));
                assert((x as int, y as int, dir as int, rng.pos_of()) == agent_begin(self.config, w, h, seed, agent as nat));
            }
            let ghost start = (x as int, y as int);
            let ghost k = starts.len() as int;
            proof {
                let s0 = starts;
                starts = starts.push(start);
                assert forall|p: (int, int)| #[trigger] grid.open_at(p) implies (exists|q: (int, int)|
                    g0.open_at(q) && #[trigger] grid.connected(q, p)) || (exists|k2: int|
                    0 <= k2 < starts.len() && #[trigger] grid.connected(starts[k2], p)) by {
                    if !(exists|q: (int, int)| g0.open_at(q) && #[trigger] grid.connected(q, p)) {
                        let k2 = choose|k2: int| 0 <= k2 < s0.len() && #[trigger] grid.connected(s0[k2], p);
                        assert(starts[k2] == s0[k2]);
                    }
                }
            }
            let ghost mut prev = start;
            let mut step: usize = 0;
            while step < self.config.steps_per_agent
                invariant
                    w == g0.w(),
                    h == g0.h(),
                    w <= i32::MAX,
                    h <= i32::MAX,
                    w >= 3,
                    h >= 3,
                    g0.grows_to(grid),
                    g0.same_outside(grid, 1, 1, w - 1, h - 1),
                    0 <= k,
                    starts.len() == k + 1,
                    starts[k] == start,
                    forall|j: int| 0 <= j < k + 1 ==> 1 <= (#[trigger] starts[j]).0 < w - 1 && 1 <= starts[j].1 < h - 1,
                    dug_from(&g0, grid, starts),
                    1 <= x < w - 1,
                    1 <= y < h - 1,
                    dir < 4,
                    step == 0 ==> (x as int, y as int) == start,
                    step > 0 ==> grid.open_at(prev) && grid.connected(start, prev) && ((x as int, y as int) == prev
                        || adjacent4(prev, (x as int, y as int))),
                    step <= self.config.steps_per_agent,
                    agent < self.config.num_agents,
                    rng.seed_of() == seed,
                    (x as int, y as int, dir as int, rng.pos_of()) == agent_walk(
                        self.config,
                        w as int,
                        h as int,
                        seed,
                        agent_begin(self.config, w, h, seed, agent as nat),
                        step as nat,
                    ),
                    forall|px: int, py: int|
                        g0.contains(px, py) ==> #[trigger] grid.at(px, py) == if dug_before(
                            self.config,
                            w,
                            h,
                            seed,
                            agent as int,
                            step as int,
                            px,
                            py,
                        ) {
                            TileCell::floor_cell()
                        } else {
                            g0.at(px, py)
                        },
                decreases self.config.steps_per_agent - step,
            {
                let ghost st0 = (x as int, y as int, dir as int, rng.pos_of());
                let ghost g1 = *grid;
                let ghost cur = (x as int, y as int);
                grid.set(x, y, TileCell::floor());
                proof {
                    assert(g1.grows_to(grid));
                    g0.lemma_grows_trans(&g1, grid);
                    assert(grid.open_at(cur));
                    if step == 0 {
                        grid.lemma_connected_refl(cur);
                    } else {
                        g1.lemma_grows_connected(grid, start, prev);
                        if cur != prev {
                            grid.lemma_connected_step(start, prev, cur);
                        }
                    }
                    lemma_dug_grows(&g0, &g1, grid, starts, cur, k);
                    prev = cur;
                    assert forall|px: int, py: int| g0.contains(px, py) implies #[trigger] grid.at(px, py) == if dug_before(
                        self.config,
                        w,
                        h,
                        seed,
                        agent as int,
                        step + 1,
                        px,
                        py,
                    ) {
                        TileCell::floor_cell()
                    } else {
                        g0.at(px, py)
                    } by {
                        lemma_dug_step(self.config, w, h, seed, agent as int, step as int, px, py);
                        assert(g1.at(px, py) == if dug_before(self.config, w, h, seed, agent as int, step as int, px, py) {
                            TileCell::floor_cell()
                        } else {
                            g0.at(px, py)
                        });
                    }
                }
                if rng.chance_below(self.config.turn_chance) {
                    dir = if rng.coin() {
                        (dir + 1) % 4
                    } else {
                        (dir + 3) % 4
                    };
                }
                let (dx, dy): (i32, i32) = if dir == 0 {
                    (0, -1)
                } else if dir == 1 {
                    (1, 0)
                } else if dir == 2 {
                    (0, 1)
                } else {
                    (-1, 0)
                };
                let nx = x + dx;
                let ny = y + dy;
                if nx > 0 && nx < w as i32 - 1 && ny > 0 && ny < h as i32 - 1 {
                    x = nx;
                    y = ny;
                } else {
                    dir = (dir + 2) % 4;
                }
                proof {
                    assert((x as int, y as int, dir as int, rng.pos_of()) == agent_step(
                        self.config,
                        w as int,
                        h as int,
                        seed,
                        st0,
                    ));
                }
                step = step + 1;
            }
            proof {
                assert forall|px: int, py: int| g0.contains(px, py) implies #[trigger] grid.at(px, py) == if dug_before(
                    self.config,
                    w,
                    h,
                    seed,
                    agent + 1,
                    0,
                    px,
                    py,
                ) {
                    TileCell::floor_cell()
                } else {
                    g0.at(px, py)
                } by {
                    lemma_dug_next_agent(self.config, w, h, seed, agent as int, px, py);
                }
            }
            agent = agent + 1;
        }
        proof {
            assert(agent_starts(&g0, grid, starts, self.config.num_agents as nat));
        }
    }
}

} // verus!

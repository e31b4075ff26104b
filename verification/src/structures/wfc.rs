//! Wave function collapse over wall (`0`) and floor (`1`) tiles.
//!
//! Every cell keeps the set of tiles it may still become, written as a
//! number: `1` wall only, `2` floor only, `3` either, `0` none.

use crate::grid::{cell_index, lemma_cell_index_bounds, lemma_cell_index_decompose, lemma_cell_index_injective, Grid, Tile, TileCell};
use crate::rng::{after_u64, below, chacha_usize_in, u64_at, Rng, CHANCE_ONE};
use vstd::prelude::*;

verus! {

/// Adjacency rules for WFC tiles: entry `t` lists the tile ids that may
/// sit next to tile `t`.
#[derive(Debug, Clone)]
pub struct WfcRules {
    pub adjacencies: Vec<Vec<usize>>,
}

impl WfcRules {
    /// Simple floor/wall rules (`0` = wall, `1` = floor): either tile may
    /// sit next to either tile.
    pub fn simple_dungeon() -> (r: WfcRules)
        ensures
            r.adjacencies@.len() == 2,
            r.adjacencies@[0]@ == seq![0usize, 1usize],
            r.adjacencies@[1]@ == seq![0usize, 1usize],
    {
        let mut adj: Vec<Vec<usize>> = Vec::new();
        let mut wall: Vec<usize> = Vec::new();
        wall.push(0);
        wall.push(1);
        let mut floor: Vec<usize> = Vec::new();
        floor.push(0);
        floor.push(1);
        adj.push(wall);
        adj.push(floor);
        WfcRules { adjacencies: adj }
    }
}

/// Configuration for wave function collapse. `floor_weight` is the chance
/// (in units of `1 / CHANCE_ONE`, see [`crate::rng::CHANCE_ONE`]) that a
/// collapsing cell becomes floor.
#[derive(Debug, Clone)]
pub struct WfcConfig {
    pub rules: WfcRules,
    pub floor_weight: u64,
}

impl Default for WfcConfig {
    /// The simple dungeon rules and a floor chance of 0.4.
    fn default() -> (r: WfcConfig)
        ensures
            r.rules.adjacencies@.len() == 2,
            r.rules.adjacencies@[0]@ == seq![0usize, 1usize],
            r.rules.adjacencies@[1]@ == seq![0usize, 1usize],
            r.floor_weight == 3602879701896397,
    {
        WfcConfig { rules: WfcRules::simple_dungeon(), floor_weight: 3602879701896397 }
    }
}

/// Wave function collapse generator (simplified constraint propagation).
pub struct Wfc {
    config: WfcConfig,
}

impl Wfc {
    pub fn new(config: WfcConfig) -> (r: Wfc)
        ensures
            r.config() == config,
    {
        Wfc { config }
    }

    pub closed spec fn config(&self) -> WfcConfig {
        self.config
    }
}

impl Default for Wfc {
    fn default() -> (r: Wfc)
        ensures
            r.config().rules.adjacencies@.len() == 2,
            r.config().rules.adjacencies@[0]@ == seq![0usize, 1usize],
            r.config().rules.adjacencies@[1]@ == seq![0usize, 1usize],
            r.config().floor_weight == 3602879701896397,
    {
        Wfc::new(WfcConfig::default())
    }
}

/// Whether `rules` let tile `u` sit next to tile `t`.
pub open spec fn allows(rules: Seq<Vec<usize>>, t: int, u: usize) -> bool {
    0 <= t < rules.len() && rules[t]@.contains(u)
}

/// The options `s` still include wall.
pub open spec fn may_wall(s: u8) -> bool {
    s == 1 || s == 3
}

/// The options `s` still include floor.
pub open spec fn may_floor(s: u8) -> bool {
    s == 2 || s == 3
}

/// The options made of wall and/or floor.
pub open spec fn options(wall: bool, floor: bool) -> u8 {
    if wall && floor {
        3
    } else if floor {
        2
    } else if wall {
        1
    } else {
        0
    }
}

/// Some tile left in `s` lets a wall sit next to it.
pub open spec fn supports_wall(rules: Seq<Vec<usize>>, s: u8) -> bool {
    (may_wall(s) && allows(rules, 0, 0)) || (may_floor(s) && allows(rules, 1, 0))
}

/// Some tile left in `s` lets a floor sit next to it.
pub open spec fn supports_floor(rules: Seq<Vec<usize>>, s: u8) -> bool {
    (may_wall(s) && allows(rules, 0, 1)) || (may_floor(s) && allows(rules, 1, 1))
}

/// The options `n` of a neighbour of a cell with options `s`, cut down to
/// the tiles that `s` supports.
pub open spec fn narrowed(rules: Seq<Vec<usize>>, s: u8, n: u8) -> u8 {
    options(may_wall(n) && supports_wall(rules, s), may_floor(n) && supports_floor(rules, s))
}

/// Every tile left in `n` is supported by `s`.
pub open spec fn fits(rules: Seq<Vec<usize>>, s: u8, n: u8) -> bool {
    (may_wall(n) ==> supports_wall(rules, s)) && (may_floor(n) ==> supports_floor(rules, s))
}

/// The options `s` are some of the options `t`.
pub open spec fn within(s: u8, t: u8) -> bool {
    s <= 3 && (may_wall(s) ==> may_wall(t)) && (may_floor(s) ==> may_floor(t))
}

/// `(x, y)` lies in a `w` by `h` grid.
pub open spec fn in_grid(w: int, h: int, x: int, y: int) -> bool {
    0 <= x < w && 0 <= y < h
}

/// The options of the cell at `(x, y)` in row-major options `p`.
pub open spec fn opt_at(p: Seq<u8>, w: int, x: int, y: int) -> u8 {
    p[cell_index(w, x, y)]
}

/// The options the collapse starts from: wall only on the border, either
/// tile inside.
pub open spec fn start_options(w: int, h: int, x: int, y: int) -> u8 {
    if x == 0 || y == 0 || x == w - 1 || y == h - 1 {
        1
    } else {
        3
    }
}

/// The neighbour `(nx, ny)`, if inside the grid, fits the cell `(x, y)`.
pub open spec fn fits_toward(rules: Seq<Vec<usize>>, p: Seq<u8>, w: int, h: int, x: int, y: int, nx: int, ny: int) -> bool {
    in_grid(w, h, nx, ny) ==> fits(rules, opt_at(p, w, x, y), opt_at(p, w, nx, ny))
}

/// All 4-neighbours of `(x, y)` fit it.
pub open spec fn fits_around(rules: Seq<Vec<usize>>, p: Seq<u8>, w: int, h: int, x: int, y: int) -> bool {
    &&& fits_toward(rules, p, w, h, x, y, x - 1, y)
    &&& fits_toward(rules, p, w, h, x, y, x + 1, y)
    &&& fits_toward(rules, p, w, h, x, y, x, y - 1)
    &&& fits_toward(rules, p, w, h, x, y, x, y + 1)
}

/// What a finished collapse leaves: every cell holds at most one tile, no
/// more than it started with (so the border holds no floor), and every
/// interior cell that holds a tile has 4-neighbours that fit it.
pub open spec fn wfc_settled(rules: Seq<Vec<usize>>, p: Seq<u8>, w: int, h: int) -> bool {
    &&& p.len() == w * h
    &&& forall|x: int, y: int|
        in_grid(w, h, x, y) ==> within(#[trigger] opt_at(p, w, x, y), start_options(w, h, x, y)) && opt_at(
            p,
            w,
            x,
            y,
        ) != 3
    &&& forall|x: int, y: int|
        1 <= x < w - 1 && 1 <= y < h - 1 && #[trigger] opt_at(p, w, x, y) != 0 ==> fits_around(rules, p, w, h, x, y)
}

/// `g` is what the collapse writes for the finished options `p`: floor
/// where a cell holds floor, wall elsewhere.
pub open spec fn wfc_result(rules: Seq<Vec<usize>>, p: Seq<u8>, g: Grid<TileCell>) -> bool {
    &&& wfc_settled(rules, p, g.w() as int, g.h() as int)
    &&& forall|x: int, y: int|
        #![trigger g.at(x, y)]
        g.contains(x, y) ==> g.at(x, y).tile == if may_floor(opt_at(p, g.w() as int, x, y)) {
            Tile::Floor
        } else {
            Tile::Wall
        }
}

/// The picks of a collapse: each `(x, y, choice, pos)` collapsed an in-grid
/// cell to `choice` -- `2` (floor) exactly when the `u64` the stream of
/// `seed` gives at word position `pos` falls below the floor weight, `1`
/// (wall) otherwise; so wall with floor weight zero, floor with certainty
/// -- and the finished options `p` of that cell lie within the choice.
pub open spec fn picks_with(p: Seq<u8>, w: int, h: int, picks: Seq<(int, int, u8, u128)>, weight: u64, seed: u64) -> bool {
    forall|k: int|
        0 <= k < picks.len() ==> {
            let q = #[trigger] picks[k];
            &&& in_grid(w, h, q.0, q.1)
            &&& q.2 == if below(u64_at(seed, q.3), weight) { 2u8 } else { 1u8 }
            &&& within(opt_at(p, w, q.0, q.1), q.2)
            &&& weight == 0 ==> q.2 == 1
            &&& weight >= CHANCE_ONE ==> q.2 == 2
        }
}

/// Number of tiles in `s`.
spec fn opts(s: u8) -> nat {
    (if may_wall(s) { 1nat } else { 0nat }) + (if may_floor(s) { 1nat } else { 0nat })
}

/// Number of tiles left over all cells.
spec fn option_total(p: Seq<u8>) -> nat
    decreases p.len(),
{
    if p.len() == 0 {
        0
    } else {
        option_total(p.drop_last()) + opts(p.last())
    }
}

proof fn lemma_total_update(p: Seq<u8>, i: int, v: u8)
    requires
        0 <= i < p.len(),
    ensures
        option_total(p.update(i, v)) + opts(p[i]) == option_total(p) + opts(v),
    decreases p.len(),
{
    if i == p.len() - 1 {
        assert(p.update(i, v).drop_last() =~= p.drop_last());
    } else {
        lemma_total_update(p.drop_last(), i, v);
        assert(p.update(i, v).drop_last() =~= p.drop_last().update(i, v));
    }
}

/// A position that is no grid cell.
spec fn nowhere() -> (int, int) {
    (-1, -1)
}

/// Propagation state: options only shrink from the start, the stack holds
/// grid cells, and every cell other than `skip` whose options changed, are
/// not empty and wait on no stack entry has fitting neighbours.
spec fn wave_inv(rules: Seq<Vec<usize>>, p: Seq<u8>, w: int, h: int, stack: Seq<(usize, usize)>, skip: (int, int)) -> bool {
    &&& p.len() == w * h
    &&& forall|x: int, y: int|
        in_grid(w, h, x, y) ==> within(#[trigger] opt_at(p, w, x, y), start_options(w, h, x, y))
    &&& forall|k: int| 0 <= k < stack.len() ==> in_grid(w, h, #[trigger] stack[k].0 as int, stack[k].1 as int)
    &&& forall|x: int, y: int|
        in_grid(w, h, x, y) && (x, y) != skip && #[trigger] opt_at(p, w, x, y) != start_options(w, h, x, y)
            && opt_at(p, w, x, y) != 0 && !stack.contains((x as usize, y as usize)) ==> fits_around(
            rules,
            p,
            w,
            h,
            x,
            y,
        )
}

/// Writing `a` at `j` changes the options at `j` only.
proof fn lemma_opt_update(p: Seq<u8>, w: int, h: int, j: (int, int), a: u8)
    requires
        p.len() == w * h,
        in_grid(w, h, j.0, j.1),
    ensures
        forall|x: int, y: int|
            in_grid(w, h, x, y) ==> #[trigger] opt_at(p.update(cell_index(w, j.0, j.1), a), w, x, y) == if (x, y)
                == j {
                a
            } else {
                opt_at(p, w, x, y)
            },
{
    lemma_cell_index_bounds(w, h, j.0, j.1);
    assert forall|x: int, y: int| in_grid(w, h, x, y) implies #[trigger] opt_at(
        p.update(cell_index(w, j.0, j.1), a),
        w,
        x,
        y,
    ) == if (x, y) == j {
        a
    } else {
        opt_at(p, w, x, y)
    } by {
        lemma_cell_index_bounds(w, h, x, y);
        if cell_index(w, x, y) == cell_index(w, j.0, j.1) {
            lemma_cell_index_injective(w, x, y, j.0, j.1);
        }
    }
}

/// Cutting the options at `j` down to some of them keeps every other cell's
/// neighbours fitting.
proof fn lemma_shrink_keeps_fit(rules: Seq<Vec<usize>>, p: Seq<u8>, q: Seq<u8>, w: int, h: int, j: (int, int), a: u8, x: int, y: int)
    requires
        p.len() == w * h,
        in_grid(w, h, j.0, j.1),
        in_grid(w, h, x, y),
        (x, y) != j,
        within(a, opt_at(p, w, j.0, j.1)),
        q == p.update(cell_index(w, j.0, j.1), a),
        fits_around(rules, p, w, h, x, y),
    ensures
        fits_around(rules, q, w, h, x, y),
{
    lemma_opt_update(p, w, h, j, a);
    assert(opt_at(q, w, x, y) == opt_at(p, w, x, y));
    if in_grid(w, h, x - 1, y) {
        assert(opt_at(q, w, x - 1, y) == if (x - 1, y) == j { a } else { opt_at(p, w, x - 1, y) });
    }
    if in_grid(w, h, x + 1, y) {
        assert(opt_at(q, w, x + 1, y) == if (x + 1, y) == j { a } else { opt_at(p, w, x + 1, y) });
    }
    if in_grid(w, h, x, y - 1) {
        assert(opt_at(q, w, x, y - 1) == if (x, y - 1) == j { a } else { opt_at(p, w, x, y - 1) });
    }
    if in_grid(w, h, x, y + 1) {
        assert(opt_at(q, w, x, y + 1) == if (x, y + 1) == j { a } else { opt_at(p, w, x, y + 1) });
    }
}

/// The four adjacency flags of `rules`: wall-wall, wall-floor, floor-wall,
/// floor-floor.
fn adjacency_flags(rules: &WfcRules) -> (r: (bool, bool, bool, bool))
    ensures
        r.0 == allows(rules.adjacencies@, 0, 0),
        r.1 == allows(rules.adjacencies@, 0, 1),
        r.2 == allows(rules.adjacencies@, 1, 0),
        r.3 == allows(rules.adjacencies@, 1, 1),
{
    (rule_allows(rules, 0, 0), rule_allows(rules, 0, 1), rule_allows(rules, 1, 0), rule_allows(rules, 1, 1))
}

/// Whether tile `u` may sit next to tile `t`.
fn rule_allows(rules: &WfcRules, t: usize, u: usize) -> (r: bool)
    ensures
        r == allows(rules.adjacencies@, t as int, u),
{
    if t >= rules.adjacencies.len() {
        return false;
    }
    let list = &rules.adjacencies[t];
    let mut k: usize = 0;
    while k < list.len()
        invariant
            t < rules.adjacencies@.len(),
            k <= list@.len(),
            list == rules.adjacencies@[t as int],
            forall|i: int| 0 <= i < k ==> list@[i] != u,
        decreases list@.len() - k,
    {
        if list[k] == u {
            proof {
                assert(list@[k as int] == u);
            }
            return true;
        }
        k = k + 1;
    }
    false
}

/// The options and stack after cutting the options at `(x, y)` down to the
/// tiles that a neighbour with options `s` supports: a cell that lost a
/// tile and still holds one is stacked.
pub open spec fn relaxed(rules: Seq<Vec<usize>>, p: Seq<u8>, st: Seq<(usize, usize)>, w: int, x: int, y: int, s: u8) -> (
    Seq<u8>,
    Seq<(usize, usize)>,
) {
    let before = opt_at(p, w, x, y);
    let after = narrowed(rules, s, before);
    if after == before {
        (p, st)
    } else if after == 0 {
        (p.update(cell_index(w, x, y), after), st)
    } else {
        (p.update(cell_index(w, x, y), after), st.push((x as usize, y as usize)))
    }
}

/// Cuts the options at `(x, y)` down to those that the tiles supported by
/// a neighbour allow (`sw`: wall, `sf`: floor), and stacks the cell when it
/// lost a tile and still holds one.
fn relax(
    rules: &WfcRules,
    poss: &mut Vec<u8>,
    stack: &mut Vec<(usize, usize)>,
    w: usize,
    h: usize,
    src: (usize, usize),
    x: usize,
    y: usize,
    sw: bool,
    sf: bool,
)
    requires
        w * h <= usize::MAX,
        in_grid(w as int, h as int, x as int, y as int),
        in_grid(w as int, h as int, src.0 as int, src.1 as int),
        (x, y) != src,
        wave_inv(rules.adjacencies@, old(poss)@, w as int, h as int, old(stack)@, (src.0 as int, src.1 as int)),
        sw == supports_wall(rules.adjacencies@, opt_at(old(poss)@, w as int, src.0 as int, src.1 as int)),
        sf == supports_floor(rules.adjacencies@, opt_at(old(poss)@, w as int, src.0 as int, src.1 as int)),
    ensures
        wave_inv(rules.adjacencies@, final(poss)@, w as int, h as int, final(stack)@, (src.0 as int, src.1 as int)),
        fits(
            rules.adjacencies@,
            opt_at(final(poss)@, w as int, src.0 as int, src.1 as int),
            opt_at(final(poss)@, w as int, x as int, y as int),
        ),
        forall|px: int, py: int|
            in_grid(w as int, h as int, px, py) ==> within(
                #[trigger] opt_at(final(poss)@, w as int, px, py),
                opt_at(old(poss)@, w as int, px, py),
            ),
        opt_at(final(poss)@, w as int, src.0 as int, src.1 as int) == opt_at(
            old(poss)@,
            w as int,
            src.0 as int,
            src.1 as int,
        ),
        5 * option_total(final(poss)@) + final(stack)@.len() <= 5 * option_total(old(poss)@) + old(stack)@.len(),
        option_total(final(poss)@) <= option_total(old(poss)@),
        (final(poss)@, final(stack)@) == relaxed(
            rules.adjacencies@,
            old(poss)@,
            old(stack)@,
            w as int,
            x as int,
            y as int,
            opt_at(old(poss)@, w as int, src.0 as int, src.1 as int),
        ),
{
    let ghost rs = rules.adjacencies@;
    let ghost wi = w as int;
    let ghost hi = h as int;
    let ghost p = poss@;
    let ghost st = stack@;
    let ghost j = (x as int, y as int);
    let ghost s = opt_at(p, wi, src.0 as int, src.1 as int);
    proof {
        lemma_cell_index_bounds(wi, hi, x as int, y as int);
        lemma_cell_index_bounds(wi, hi, src.0 as int, src.1 as int);
        assert(within(opt_at(p, wi, x as int, y as int), start_options(wi, hi, x as int, y as int)));
    }
    let i = y * w + x;
    let before = poss[i];
    let mw = before == 1 || before == 3;
    let mf = before == 2 || before == 3;
    let kw = mw && sw;
    let kf = mf && sf;
    let after: u8 = if kw && kf {
        3
    } else if kf {
        2
    } else if kw {
        1
    } else {
        0
    };
    assert(after == narrowed(rs, s, before));
    if after != before {
        poss.set(i, after);
        proof {
            lemma_opt_update(p, wi, hi, j, after);
            lemma_total_update(p, i as int, after);
        }
        if after != 0 {
            stack.push((x, y));
        }
        proof {
            let q = poss@;
            let st2 = stack@;
            assert(q == p.update(cell_index(wi, j.0, j.1), after));
            assert forall|k: int| 0 <= k < st2.len() implies in_grid(wi, hi, #[trigger] st2[k].0 as int, st2[k].1 as int) by {
                if k < st.len() {
                    assert(st2[k] == st[k]);
                }
            }
            assert forall|px: int, py: int|
                in_grid(wi, hi, px, py) && (px, py) != (src.0 as int, src.1 as int) && #[trigger] opt_at(q, wi, px, py)
                    != start_options(wi, hi, px, py) && opt_at(q, wi, px, py) != 0 && !st2.contains(
                    (px as usize, py as usize),
                ) implies fits_around(rs, q, wi, hi, px, py) by {
                if (px, py) == j {
                    assert(st2[st2.len() - 1] == (x, y));
                } else {
                    assert(opt_at(q, wi, px, py) == opt_at(p, wi, px, py));
                    if st.contains((px as usize, py as usize)) {
                        let k = choose|k: int| 0 <= k < st.len() && st[k] == (px as usize, py as usize);
                        assert(st2[k] == st[k]);
                    }
                    lemma_shrink_keeps_fit(rs, p, q, wi, hi, j, after, px, py);
                }
            }
            assert(opt_at(q, wi, src.0 as int, src.1 as int) == s);
        }
    }
}

/// One round of propagation: the cell on top of the stack is popped and its
/// 4-neighbours inside the grid (left, right, above, below, in that order)
/// are relaxed against its options (see [`relaxed`]).
#[verifier::opaque]
pub open spec fn prop_round(rules: Seq<Vec<usize>>, w: int, h: int, st: (Seq<u8>, Seq<(usize, usize)>)) -> (
    Seq<u8>,
    Seq<(usize, usize)>,
) {
    if st.1.len() == 0 {
        st
    } else {
        let c = st.1.last();
        let cx = c.0 as int;
        let cy = c.1 as int;
        let s = opt_at(st.0, w, cx, cy);
        let a0 = (st.0, st.1.drop_last());
        let a1 = if cx > 0 {
            relaxed(rules, a0.0, a0.1, w, cx - 1, cy, s)
        } else {
            a0
        };
        let a2 = if cx + 1 < w {
            relaxed(rules, a1.0, a1.1, w, cx + 1, cy, s)
        } else {
            a1
        };
        let a3 = if cy > 0 {
            relaxed(rules, a2.0, a2.1, w, cx, cy - 1, s)
        } else {
            a2
        };
        if cy + 1 < h {
            relaxed(rules, a3.0, a3.1, w, cx, cy + 1, s)
        } else {
            a3
        }
    }
}

/// The options and stack after `k` rounds of propagation from `p` and `st`.
pub open spec fn prop_run(rules: Seq<Vec<usize>>, w: int, h: int, p: Seq<u8>, st: Seq<(usize, usize)>, k: nat) -> (
    Seq<u8>,
    Seq<(usize, usize)>,
)
    decreases k,
{
    if k == 0 {
        (p, st)
    } else {
        prop_round(rules, w, h, prop_run(rules, w, h, p, st, (k - 1) as nat))
    }
}

/// The options propagation from `p` and `st` ends with, once its stack is
/// empty.
pub open spec fn propagated(rules: Seq<Vec<usize>>, w: int, h: int, p: Seq<u8>, st: Seq<(usize, usize)>) -> Seq<u8> {
    prop_run(rules, w, h, p, st, choose|k: nat| #[trigger] prop_run(rules, w, h, p, st, k).1.len() == 0).0
}

/// With the stack empty, further rounds change nothing.
proof fn lemma_prop_done(rules: Seq<Vec<usize>>, w: int, h: int, p: Seq<u8>, st: Seq<(usize, usize)>, k: nat, m: nat)
    requires
        k <= m,
        prop_run(rules, w, h, p, st, k).1.len() == 0,
    ensures
        prop_run(rules, w, h, p, st, m) == prop_run(rules, w, h, p, st, k),
    decreases m - k,
{
    reveal(prop_round);
    if k < m {
        lemma_prop_done(rules, w, h, p, st, k, (m - 1) as nat);
    }
}

/// Propagation that empties its stack ends with [`propagated`].
proof fn lemma_propagated(rules: Seq<Vec<usize>>, w: int, h: int, p: Seq<u8>, st: Seq<(usize, usize)>, k: nat)
    requires
        prop_run(rules, w, h, p, st, k).1.len() == 0,
    ensures
        propagated(rules, w, h, p, st) == prop_run(rules, w, h, p, st, k).0,
{
    let k2 = choose|k: nat| #[trigger] prop_run(rules, w, h, p, st, k).1.len() == 0;
    if k <= k2 {
        lemma_prop_done(rules, w, h, p, st, k, k2);
    } else {
        lemma_prop_done(rules, w, h, p, st, k2, k);
    }
}

/// Propagates the options of the stacked cells to their neighbours until
/// the stack is empty.
fn propagate(rules: &WfcRules, flags: (bool, bool, bool, bool), poss: &mut Vec<u8>, stack: &mut Vec<(usize, usize)>, w: usize, h: usize)
    requires
        w * h <= usize::MAX,
        flags.0 == allows(rules.adjacencies@, 0, 0),
        flags.1 == allows(rules.adjacencies@, 0, 1),
        flags.2 == allows(rules.adjacencies@, 1, 0),
        flags.3 == allows(rules.adjacencies@, 1, 1),
        wave_inv(rules.adjacencies@, old(poss)@, w as int, h as int, old(stack)@, nowhere()),
    ensures
        wave_inv(rules.adjacencies@, final(poss)@, w as int, h as int, final(stack)@, nowhere()),
        final(stack)@.len() == 0,
        option_total(final(poss)@) <= option_total(old(poss)@),
        forall|px: int, py: int|
            in_grid(w as int, h as int, px, py) ==> within(
                #[trigger] opt_at(final(poss)@, w as int, px, py),
                opt_at(old(poss)@, w as int, px, py),
            ),
        final(poss)@ == propagated(rules.adjacencies@, w as int, h as int, old(poss)@, old(stack)@),
{
    let ghost rs = rules.adjacencies@;
    let ghost wi = w as int;
    let ghost hi = h as int;
    let ghost t0 = option_total(poss@);
    let ghost pe = poss@;
    let ghost ste = stack@;
    let ghost mut rounds: nat = 0;
    proof {
        assert forall|px: int, py: int| in_grid(wi, hi, px, py) implies within(
            #[trigger] opt_at(poss@, wi, px, py),
            opt_at(pe, wi, px, py),
        ) by {
            assert(within(opt_at(pe, wi, px, py), start_options(wi, hi, px, py)));
        }
    }
    while stack.len() > 0
        invariant
            w * h <= usize::MAX,
            rs == rules.adjacencies@,
            wi == w,
            hi == h,
            flags.0 == allows(rs, 0, 0),
            flags.1 == allows(rs, 0, 1),
            flags.2 == allows(rs, 1, 0),
            flags.3 == allows(rs, 1, 1),
            wave_inv(rs, poss@, wi, hi, stack@, nowhere()),
            option_total(poss@) <= t0,
            pe.len() == wi * hi,
            forall|px: int, py: int|
                in_grid(wi, hi, px, py) ==> within(#[trigger] opt_at(poss@, wi, px, py), opt_at(pe, wi, px, py)),
            (poss@, stack@) == prop_run(rs, wi, hi, pe, ste, rounds),
        decreases 5 * option_total(poss@) + stack@.len(),
    {
        let ghost st0 = stack@;
        let ghost p0 = poss@;
        let top = stack.pop();
        let (cx, cy) = match top {
            Some(c) => c,
            None => (0, 0),
        };
        let ghost c = (cx as int, cy as int);
        proof {
            assert(st0[st0.len() - 1] == (cx, cy));
            assert(in_grid(wi, hi, st0[st0.len() - 1].0 as int, st0[st0.len() - 1].1 as int));
            let st1 = stack@;
            assert forall|k: int| 0 <= k < st1.len() implies in_grid(wi, hi, #[trigger] st1[k].0 as int, st1[k].1 as int) by {
                assert(st1[k] == st0[k]);
            }
            assert forall|px: int, py: int|
                in_grid(wi, hi, px, py) && (px, py) != c && #[trigger] opt_at(p0, wi, px, py) != start_options(
                    wi,
                    hi,
                    px,
                    py,
                ) && opt_at(p0, wi, px, py) != 0 && !st1.contains((px as usize, py as usize)) implies fits_around(
                rs,
                p0,
                wi,
                hi,
                px,
                py,
            ) by {
                if st0.contains((px as usize, py as usize)) {
                    let k = choose|k: int| 0 <= k < st0.len() && st0[k] == (px as usize, py as usize);
                    if k < st1.len() {
                        assert(st1[k] == st0[k]);
                    }
                }
            }
            lemma_cell_index_bounds(wi, hi, cx as int, cy as int);
        }
        let s = poss[cy * w + cx];
        let mw = s == 1 || s == 3;
        let mf = s == 2 || s == 3;
        let sw = (mw && flags.0) || (mf && flags.2);
        let sf = (mw && flags.1) || (mf && flags.3);
        let ghost p1 = poss@;
        if cx > 0 {
            relax(rules, poss, stack, w, h, (cx, cy), cx - 1, cy, sw, sf);
        }
        let ghost p2 = poss@;
        if cx + 1 < w {
            relax(rules, poss, stack, w, h, (cx, cy), cx + 1, cy, sw, sf);
        }
        let ghost p3 = poss@;
        if cy > 0 {
            relax(rules, poss, stack, w, h, (cx, cy), cx, cy - 1, sw, sf);
        }
        let ghost p4 = poss@;
        if cy + 1 < h {
            relax(rules, poss, stack, w, h, (cx, cy), cx, cy + 1, sw, sf);
        }
        proof {
            let p5 = poss@;
            let sv = opt_at(p1, wi, cx as int, cy as int);
            assert(opt_at(p5, wi, cx as int, cy as int) == sv);
            if in_grid(wi, hi, cx - 1, cy as int) {
                assert(fits(rs, sv, opt_at(p2, wi, cx - 1, cy as int)));
                assert(within(opt_at(p3, wi, cx - 1, cy as int), opt_at(p2, wi, cx - 1, cy as int)));
                assert(within(opt_at(p4, wi, cx - 1, cy as int), opt_at(p3, wi, cx - 1, cy as int)));
                assert(within(opt_at(p5, wi, cx - 1, cy as int), opt_at(p4, wi, cx - 1, cy as int)));
            }
            if in_grid(wi, hi, cx + 1, cy as int) {
                assert(fits(rs, sv, opt_at(p3, wi, cx + 1, cy as int)));
                assert(within(opt_at(p4, wi, cx + 1, cy as int), opt_at(p3, wi, cx + 1, cy as int)));
                assert(within(opt_at(p5, wi, cx + 1, cy as int), opt_at(p4, wi, cx + 1, cy as int)));
            }
            if in_grid(wi, hi, cx as int, cy - 1) {
                assert(fits(rs, sv, opt_at(p4, wi, cx as int, cy - 1)));
                assert(within(opt_at(p5, wi, cx as int, cy - 1), opt_at(p4, wi, cx as int, cy - 1)));
            }
            assert(fits_around(rs, p5, wi, hi, cx as int, cy as int));
            reveal(prop_round);
            assert((poss@, stack@) == prop_round(rs, wi, hi, (p0, st0)));
            rounds = rounds + 1;
            assert forall|px: int, py: int| in_grid(wi, hi, px, py) implies within(
                #[trigger] opt_at(p5, wi, px, py),
                opt_at(pe, wi, px, py),
            ) by {
                assert(within(opt_at(p1, wi, px, py), opt_at(pe, wi, px, py)));
                assert(within(opt_at(p2, wi, px, py), opt_at(p1, wi, px, py)));
                assert(within(opt_at(p3, wi, px, py), opt_at(p2, wi, px, py)));
                assert(within(opt_at(p4, wi, px, py), opt_at(p3, wi, px, py)));
                assert(within(opt_at(p5, wi, px, py), opt_at(p4, wi, px, py)));
            }
        }
    }
    proof {
        lemma_propagated(rs, wi, hi, pe, ste, rounds);
    }
}

/// The first `y` cells of column `x` that still hold both tiles, top down.
pub open spec fn open_in_column(p: Seq<u8>, w: int, x: int, y: int) -> Seq<(usize, usize)>
    decreases y,
{
    if y <= 0 {
        Seq::empty()
    } else {
        open_in_column(p, w, x, y - 1) + if opt_at(p, w, x, y - 1) == 3 {
            seq![(x as usize, (y - 1) as usize)]
        } else {
            Seq::empty()
        }
    }
}

/// The cells of the first `x` columns of a grid `h` tall that still hold
/// both tiles, column by column.
pub open spec fn open_list(p: Seq<u8>, w: int, h: int, x: int) -> Seq<(usize, usize)>
    decreases x,
{
    if x <= 0 {
        Seq::empty()
    } else {
        open_list(p, w, h, x - 1) + open_in_column(p, w, x - 1, h)
    }
}

/// Cells that still hold both tiles, column by column.
fn open_cells(poss: &Vec<u8>, w: usize, h: usize) -> (r: Vec<(usize, usize)>)
    requires
        poss@.len() == w * h,
        w * h <= usize::MAX,
    ensures
        forall|k: int|
            0 <= k < r@.len() ==> in_grid(w as int, h as int, #[trigger] r@[k].0 as int, r@[k].1 as int) && opt_at(
                poss@,
                w as int,
                r@[k].0 as int,
                r@[k].1 as int,
            ) == 3,
        r@.len() == 0 ==> forall|x: int, y: int|
            in_grid(w as int, h as int, x, y) ==> #[trigger] opt_at(poss@, w as int, x, y) != 3,
        r@ == open_list(poss@, w as int, h as int, w as int),
{
    let mut r: Vec<(usize, usize)> = Vec::new();
    let mut x: usize = 0;
    while x < w
        invariant
            poss@.len() == w * h,
            w * h <= usize::MAX,
            x <= w,
            forall|k: int|
                0 <= k < r@.len() ==> in_grid(w as int, h as int, #[trigger] r@[k].0 as int, r@[k].1 as int)
                    && opt_at(poss@, w as int, r@[k].0 as int, r@[k].1 as int) == 3,
            r@.len() == 0 ==> forall|px: int, py: int|
                0 <= px < x && 0 <= py < h ==> #[trigger] opt_at(poss@, w as int, px, py) != 3,
            r@ == open_list(poss@, w as int, h as int, x as int),
        decreases w - x,
    {
        let mut y: usize = 0;
        proof {
            assert(r@ =~= open_list(poss@, w as int, h as int, x as int) + open_in_column(poss@, w as int, x as int, 0));
        }
        while y < h
            invariant
                poss@.len() == w * h,
                w * h <= usize::MAX,
                x < w,
                y <= h,
                forall|k: int|
                    0 <= k < r@.len() ==> in_grid(w as int, h as int, #[trigger] r@[k].0 as int, r@[k].1 as int)
                        && opt_at(poss@, w as int, r@[k].0 as int, r@[k].1 as int) == 3,
                r@.len() == 0 ==> forall|px: int, py: int|
                    (0 <= px < x && 0 <= py < h) || (px == x && 0 <= py < y) ==> #[trigger] opt_at(
                        poss@,
                        w as int,
                        px,
                        py,
                    ) != 3,
                r@ == open_list(poss@, w as int, h as int, x as int) + open_in_column(poss@, w as int, x as int, y as int),
            decreases h - y,
        {
            proof {
                lemma_cell_index_bounds(w as int, h as int, x as int, y as int);
            }
            let ghost r0 = r@;
            if poss[y * w + x] == 3 {
                r.push((x, y));
            }
            proof {
                let a = open_list(poss@, w as int, h as int, x as int);
                let b = open_in_column(poss@, w as int, x as int, y as int);
                if opt_at(poss@, w as int, x as int, y as int) == 3 {
                    assert(r@ =~= a + (b + seq![(x, y)]));
                } else {
                    assert(r@ =~= a + (b + Seq::<(usize, usize)>::empty()));
                }
            }
            y = y + 1;
        }
        x = x + 1;
    }
    r
}

/// The options the collapse starts from on a `w` by `h` grid, row by row.
pub open spec fn wfc_start(w: int, h: int) -> Seq<u8> {
    Seq::new((w * h) as nat, |i: int| start_options(w, h, i % w, i / w))
}

/// One collapse step from the options `st.0`, with the next draw at word
/// position `st.1` of the stream of `seed`: with no cell holding both
/// tiles nothing changes; else the stream picks one such cell (in
/// [`open_list`] order), which becomes floor when the next draw falls below
/// `weight` and wall otherwise, and the change propagates.
pub open spec fn wfc_step(rules: Seq<Vec<usize>>, w: int, h: int, weight: u64, seed: u64, st: (Seq<u8>, u128)) -> (
    Seq<u8>,
    u128,
) {
    let open = open_list(st.0, w, h, w);
    if open.len() == 0 {
        st
    } else {
        let d = chacha_usize_in(seed, st.1, 0, open.len() as usize, usize::BITS);
        let c = open[d.0 as int];
        let choice: u8 = if below(u64_at(seed, d.1), weight) {
            2
        } else {
            1
        };
        let p1 = st.0.update(cell_index(w, c.0 as int, c.1 as int), choice);
        (propagated(rules, w, h, p1, seq![c]), after_u64(seed, d.1))
    }
}

/// The options and word position after `k` collapse steps from the start
/// of the stream of `seed`.
pub open spec fn wfc_run(rules: Seq<Vec<usize>>, w: int, h: int, weight: u64, seed: u64, k: nat) -> (Seq<u8>, u128)
    decreases k,
{
    if k == 0 {
        (wfc_start(w, h), 0)
    } else {
        wfc_step(rules, w, h, weight, seed, wfc_run(rules, w, h, weight, seed, (k - 1) as nat))
    }
}

/// The options `p` are where the collapse with the stream of `seed` stops:
/// no cell holds both tiles any more.
pub open spec fn wfc_collapsed(rules: Seq<Vec<usize>>, w: int, h: int, weight: u64, seed: u64, p: Seq<u8>) -> bool {
    exists|k: nat| #[trigger] wfc_run(rules, w, h, weight, seed, k).0 == p && open_list(p, w, h, w).len() == 0
}

/// Once no cell holds both tiles, further steps change nothing.
proof fn lemma_wfc_done(rules: Seq<Vec<usize>>, w: int, h: int, weight: u64, seed: u64, k: nat, m: nat)
    requires
        k <= m,
        open_list(wfc_run(rules, w, h, weight, seed, k).0, w, h, w).len() == 0,
    ensures
        wfc_run(rules, w, h, weight, seed, m) == wfc_run(rules, w, h, weight, seed, k),
    decreases m - k,
{
    if k < m {
        lemma_wfc_done(rules, w, h, weight, seed, k, (m - 1) as nat);
    }
}

/// What [`Wfc::generate`] makes of the grid `g0` with `seed` and
/// configuration `c`: the draws are those the stream of `seed` gives, so
/// the result is fixed (see the determinism law of this module).
pub open spec fn wfc_outcome(c: WfcConfig, seed: u64, g0: Grid<TileCell>, g1: Grid<TileCell>) -> bool {
    &&& g1.wf()
    &&& g1.w() == g0.w()
    &&& g1.h() == g0.h()
    &&& exists|p: Seq<u8>, picks: Seq<(int, int, u8, u128)>|
            #![trigger wfc_result(c.rules.adjacencies@, p, g1), picks_with(p, g0.w() as int, g0.h() as int, picks, c.floor_weight, seed)]
            {
                &&& wfc_result(c.rules.adjacencies@, p, g1)
                &&& wfc_collapsed(c.rules.adjacencies@, g0.w() as int, g0.h() as int, c.floor_weight, seed, p)
                &&& picks_with(p, g0.w() as int, g0.h() as int, picks, c.floor_weight, seed)
                &&& g0.w() >= 3 && g0.h() >= 3 ==> picks.len() >= 1
            }
}

/// Wave function collapse is deterministic: the same configuration, seed
/// and grid give the same result.
pub proof fn law_wfc_deterministic(c: WfcConfig, seed: u64, g0: Grid<TileCell>, g1: Grid<TileCell>, g2: Grid<TileCell>)
    requires
        wfc_outcome(c, seed, g0, g1),
        wfc_outcome(c, seed, g0, g2),
    ensures
        g1.cells() == g2.cells(),
{
    let rs = c.rules.adjacencies@;
    let w = g0.w() as int;
    let h = g0.h() as int;
    let (p1, q1) = choose|p: Seq<u8>, picks: Seq<(int, int, u8, u128)>|
        #![trigger wfc_result(rs, p, g1), picks_with(p, w, h, picks, c.floor_weight, seed)]
        wfc_result(rs, p, g1) && wfc_collapsed(rs, w, h, c.floor_weight, seed, p) && picks_with(
            p,
            w,
            h,
            picks,
            c.floor_weight,
            seed,
        ) && (w >= 3 && h >= 3 ==> picks.len() >= 1);
    let (p2, q2) = choose|p: Seq<u8>, picks: Seq<(int, int, u8, u128)>|
        #![trigger wfc_result(rs, p, g2), picks_with(p, w, h, picks, c.floor_weight, seed)]
        wfc_result(rs, p, g2) && wfc_collapsed(rs, w, h, c.floor_weight, seed, p) && picks_with(
            p,
            w,
            h,
            picks,
            c.floor_weight,
            seed,
        ) && (w >= 3 && h >= 3 ==> picks.len() >= 1);
    let k1 = choose|k: nat| #[trigger] wfc_run(rs, w, h, c.floor_weight, seed, k).0 == p1 && open_list(p1, w, h, w).len() == 0;
    let k2 = choose|k: nat| #[trigger] wfc_run(rs, w, h, c.floor_weight, seed, k).0 == p2 && open_list(p2, w, h, w).len() == 0;
    if k1 <= k2 {
        lemma_wfc_done(rs, w, h, c.floor_weight, seed, k1, k2);
    } else {
        lemma_wfc_done(rs, w, h, c.floor_weight, seed, k2, k1);
    }
    assert(p1 == p2);
    assert forall|x: int, y: int| g2.contains(x, y) implies #[trigger] g2.at(x, y) == g1.cells()[cell_index(
        g2.w() as int,
        x,
        y,
    )] by {
        assert(g1.at(x, y).tile == g2.at(x, y).tile);
    }
    g2.lemma_cells_match(g1.cells());
}

impl Wfc {
    /// Collapses the grid: the border starts as wall only and every other
    /// cell as either tile. While some cell holds both tiles, one of them
    /// (picked at random, cells listed column by column) collapses to floor
    /// with chance `floor_weight` and to wall otherwise, and the change
    /// propagates to the 4-neighbours under the adjacency rules. Finally a
    /// cell becomes floor when it holds floor, and wall otherwise. The
    /// picks made are recorded in [`picks_with`]: each picked cell ends
    /// within its pick, and a grid with inner cells gets at least one pick.
    pub fn generate(&self, grid: &mut Grid<TileCell>, seed: u64)
        requires
            old(grid).wf(),
            (old(grid).w() == 0) == (old(grid).h() == 0),
        ensures
            wfc_outcome(self.config(), seed, *old(grid), *final(grid)),
    {
        let w = grid.width();
        let h = grid.height();
        let ghost rs = self.config.rules.adjacencies@;
        let ghost wi = w as int;
        let ghost hi = h as int;
        if w == 0 {
            proof {
                let p = Seq::<u8>::empty();
                assert(hi == 0);
                assert(p.len() == wi * hi);
                assert(forall|x: int, y: int| !in_grid(wi, hi, x, y));
                assert(wfc_settled(rs, p, wi, hi));
                assert(forall|x: int, y: int| #![trigger grid.at(x, y)] !grid.contains(x, y));
                assert(rs == self.config().rules.adjacencies@);
                assert(wfc_result(self.config().rules.adjacencies@, p, *grid));
                assert(picks_with(p, wi, hi, Seq::<(int, int, u8, u128)>::empty(), self.config().floor_weight, seed));
                assert(wfc_start(wi, hi) =~= p);
                assert(wfc_run(rs, wi, hi, self.config().floor_weight, seed, 0).0 == p);
                assert(open_list(p, wi, hi, wi).len() == 0);
                assert(wfc_collapsed(rs, wi, hi, self.config().floor_weight, seed, p));
            }
            return;
        }
        let mut rng = Rng::new(seed);
        let flags = adjacency_flags(&self.config.rules);
        let n = w * h;
        let mut poss: Vec<u8> = Vec::with_capacity(n);
        let mut i: usize = 0;
        while i < n
            invariant
                0 < w,
                wi == w,
                hi == h,
                n == w * h,
                i <= n,
                poss@.len() == i,
                forall|k: int| 0 <= k < i ==> poss@[k] == start_options(wi, hi, k % wi, k / wi),
            decreases n - i,
        {
            let x = i % w;
            let y = i / w;
            let v: u8 = if x == 0 || y == 0 || x == w - 1 || y == h - 1 {
                1
            } else {
                3
            };
            proof {
                lemma_cell_index_decompose(wi, hi, i as int);
            }
            poss.push(v);
            i = i + 1;
        }
        let mut stack: Vec<(usize, usize)> = Vec::new();
        proof {
            assert forall|x: int, y: int| in_grid(wi, hi, x, y) implies #[trigger] opt_at(poss@, wi, x, y)
                == start_options(wi, hi, x, y) by {
                let k = cell_index(wi, x, y);
                lemma_cell_index_bounds(wi, hi, x, y);
                lemma_cell_index_decompose(wi, hi, k);
                lemma_cell_index_injective(wi, x, y, k % wi, k / wi);
            }
            assert(wave_inv(rs, poss@, wi, hi, stack@, nowhere()));
        }
        let ghost pinit = poss@;
        let ghost mut picks: Seq<(int, int, u8, u128)> = Seq::empty();
        let ghost mut rounds: nat = 0;
        proof {
            assert forall|k: int| 0 <= k < pinit.len() implies pinit[k] == #[trigger] wfc_start(wi, hi)[k] by {}
            assert(pinit =~= wfc_start(wi, hi));
        }
        loop
            invariant
                (poss@, rng.pos_of()) == wfc_run(rs, wi, hi, self.config.floor_weight, seed, rounds),
                picks_with(poss@, wi, hi, picks, self.config.floor_weight, seed),
                rng.seed_of() == seed,
                picks.len() == 0 ==> poss@ == pinit,
                forall|x: int, y: int| in_grid(wi, hi, x, y) ==> #[trigger] opt_at(pinit, wi, x, y) == start_options(wi, hi, x, y),
                0 < w,
                n == w * h,
                n <= usize::MAX,
                rs == self.config.rules.adjacencies@,
                wi == w,
                hi == h,
                flags.0 == allows(rs, 0, 0),
                flags.1 == allows(rs, 0, 1),
                flags.2 == allows(rs, 1, 0),
                flags.3 == allows(rs, 1, 1),
                wave_inv(rs, poss@, wi, hi, Seq::<(usize, usize)>::empty(), nowhere()),
            ensures
                (poss@, rng.pos_of()) == wfc_run(rs, wi, hi, self.config.floor_weight, seed, rounds),
                open_list(poss@, wi, hi, wi).len() == 0,
                wave_inv(rs, poss@, wi, hi, Seq::<(usize, usize)>::empty(), nowhere()),
                forall|x: int, y: int| in_grid(wi, hi, x, y) ==> #[trigger] opt_at(poss@, wi, x, y) != 3,
                picks_with(poss@, wi, hi, picks, self.config.floor_weight, seed),
                wi >= 3 && hi >= 3 ==> picks.len() >= 1,
            decreases option_total(poss@),
        {
            let open = open_cells(&poss, w, h);
            if open.len() == 0 {
                proof {
                    if wi >= 3 && hi >= 3 && picks.len() == 0 {
                        assert(opt_at(pinit, wi, 1, 1) == start_options(wi, hi, 1, 1));
                        assert(opt_at(poss@, wi, 1, 1) != 3);
                    }
                }
                break;
            }
            let ghost pc0 = rng.pos_of();
            let picked = rng.pick(open.as_slice());
            let (cx, cy) = match picked {
                Some(c) => *c,
                None => (0, 0),
            };
            proof {
                let k = choose|k: int| 0 <= k < open@.len() && (cx, cy) == open@[k];
                assert(in_grid(wi, hi, open@[k].0 as int, open@[k].1 as int));
                lemma_cell_index_bounds(wi, hi, cx as int, cy as int);
            }
            let ghost pc = rng.pos_of();
            let choice: u8 = if rng.chance_below(self.config.floor_weight) {
                2
            } else {
                1
            };
            let ghost p0 = poss@;
            let ghost c = (cx as int, cy as int);
            poss.set(cy * w + cx, choice);
            let mut stack: Vec<(usize, usize)> = Vec::new();
            stack.push((cx, cy));
            proof {
                let q = poss@;
                lemma_opt_update(p0, wi, hi, c, choice);
                lemma_total_update(p0, cell_index(wi, cx as int, cy as int), choice);
                assert(opt_at(p0, wi, cx as int, cy as int) == 3);
                assert forall|px: int, py: int|
                    in_grid(wi, hi, px, py) && (px, py) != nowhere() && #[trigger] opt_at(q, wi, px, py)
                        != start_options(wi, hi, px, py) && opt_at(q, wi, px, py) != 0 && !stack@.contains(
                        (px as usize, py as usize),
                    ) implies fits_around(rs, q, wi, hi, px, py) by {
                    if (px, py) == c {
                        assert(stack@[0] == (cx, cy));
                    } else {
                        assert(opt_at(q, wi, px, py) == opt_at(p0, wi, px, py));
                        assert(!Seq::<(usize, usize)>::empty().contains((px as usize, py as usize)));
                        lemma_shrink_keeps_fit(rs, p0, q, wi, hi, c, choice, px, py);
                    }
                }
                assert(wave_inv(rs, q, wi, hi, stack@, nowhere()));
            }
            let ghost pset = poss@;
            proof {
                assert(stack@ =~= seq![(cx, cy)]);
            }
            propagate(&self.config.rules, flags, &mut poss, &mut stack, w, h);
            proof {
                assert((poss@, rng.pos_of()) == wfc_step(rs, wi, hi, self.config.floor_weight, seed, (p0, pc0)));
                rounds = rounds + 1;
                assert(stack@ =~= Seq::<(usize, usize)>::empty());
                let np = picks.push((cx as int, cy as int, choice, pc));
                assert forall|k: int| 0 <= k < np.len() implies {
                    let q = #[trigger] np[k];
                    &&& in_grid(wi, hi, q.0, q.1)
                    &&& q.2 == if below(u64_at(seed, q.3), self.config.floor_weight) { 2u8 } else { 1u8 }
                    &&& within(opt_at(poss@, wi, q.0, q.1), q.2)
                    &&& self.config.floor_weight == 0 ==> q.2 == 1
                    &&& self.config.floor_weight >= CHANCE_ONE ==> q.2 == 2
                } by {
                    let q = np[k];
                    assert(within(opt_at(poss@, wi, q.0, q.1), opt_at(pset, wi, q.0, q.1)));
                    if k < picks.len() {
                        assert(q == picks[k]);
                        assert(within(opt_at(p0, wi, q.0, q.1), q.2));
                        if (q.0, q.1) == c {
                            assert(opt_at(p0, wi, cx as int, cy as int) == 3);
                        }
                        assert(opt_at(pset, wi, q.0, q.1) == opt_at(p0, wi, q.0, q.1));
                    } else {
                        assert(opt_at(pset, wi, cx as int, cy as int) == choice);
                    }
                }
                picks = np;
            }
        }
        let mut cells: Vec<TileCell> = Vec::with_capacity(n);
        let mut k: usize = 0;
        while k < n
            invariant
                n == poss@.len(),
                k <= n,
                cells@.len() == k,
                forall|m: int|
                    0 <= m < k ==> (#[trigger] cells@[m]).tile == if may_floor(poss@[m]) {
                        Tile::Floor
                    } else {
                        Tile::Wall
                    },
            decreases n - k,
        {
            let v = poss[k];
            if v == 2 || v == 3 {
                cells.push(TileCell::floor());
            } else {
                cells.push(TileCell::wall());
            }
            k = k + 1;
        }
        *grid = Grid::from_cells(w, h, cells);
        proof {
            let p = poss@;
            assert forall|x: int, y: int|
                in_grid(wi, hi, x, y) && #[trigger] opt_at(p, wi, x, y) != 3 implies within(
                opt_at(p, wi, x, y),
                start_options(wi, hi, x, y),
            ) && opt_at(p, wi, x, y) != 3 by {}
            assert forall|x: int, y: int|
                1 <= x < wi - 1 && 1 <= y < hi - 1 && #[trigger] opt_at(p, wi, x, y) != 0 implies fits_around(
                rs,
                p,
                wi,
                hi,
                x,
                y,
            ) by {
                assert(in_grid(wi, hi, x, y));
                assert(!Seq::<(usize, usize)>::empty().contains((x as usize, y as usize)));
            }
            assert(wfc_settled(rs, p, wi, hi));
            assert forall|x: int, y: int| #![trigger grid.at(x, y)] grid.contains(x, y) implies grid.at(x, y).tile
                == if may_floor(opt_at(p, wi, x, y)) {
                Tile::Floor
            } else {
                Tile::Wall
            } by {
                lemma_cell_index_bounds(wi, hi, x, y);
            }
            assert(rs == self.config().rules.adjacencies@);
            assert(wfc_result(self.config().rules.adjacencies@, p, *grid));
            assert(picks_with(p, wi, hi, picks, self.config().floor_weight, seed));
            assert(wfc_run(rs, wi, hi, self.config().floor_weight, seed, rounds).0 == p);
            assert(wfc_collapsed(rs, wi, hi, self.config().floor_weight, seed, p));
        }
    }
}

} // verus!

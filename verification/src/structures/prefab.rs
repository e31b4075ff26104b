//! Prefabricated room templates stamped onto the grid.

use crate::grid::{cell_index, Cell, Grid, TileCell};
use crate::rng::{chacha_usize_in, Rng};
use vstd::prelude::*;
use vstd::string::StringSliceAdditionalSpecFns;

verus! {

/// Configuration for prefab placement.
#[derive(Debug, Clone)]
pub struct PrefabConfig {
    pub max_prefabs: usize,
    pub min_spacing: usize,
}

impl Default for PrefabConfig {
    fn default() -> (r: PrefabConfig)
        ensures
            r.max_prefabs == 3,
            r.min_spacing == 5,
    {
        PrefabConfig { max_prefabs: 3, min_spacing: 5 }
    }
}

/// A prefab room template: `data` holds one entry per cell, row by row,
/// `true` for floor.
#[derive(Clone)]
pub struct Prefab {
    pub width: usize,
    pub height: usize,
    pub data: Vec<bool>,
}

/// Whether each character of the rows, read row by row, is `'.'`.
pub open spec fn pattern_cells(rows: Seq<Seq<char>>) -> Seq<bool>
    decreases rows.len(),
{
    if rows.len() == 0 {
        seq![]
    } else {
        pattern_cells(rows.drop_last()) + rows.last().map_values(|c: char| c == '.')
    }
}

impl Prefab {
    /// One entry per cell.
    pub open spec fn wf(&self) -> bool {
        self.data@.len() == self.width * self.height
    }

    /// A prefab from text rows: `'.'` is floor, anything else wall. The
    /// width is the byte length of the first row.
    pub fn new(pattern: &[&str]) -> (r: Prefab)
        ensures
            r.height == pattern@.len(),
            r.width == if pattern@.len() == 0 { 0 } else { pattern@[0].spec_bytes().len() as usize },
            r.data@ == pattern_cells(pattern@.map_values(|s: &str| s@)),
    {
        let height = pattern.len();
        let width = if pattern.len() == 0 { 0 } else { pattern[0].len() };
        let mut data: Vec<bool> = Vec::new();
        let ghost rows = pattern@.map_values(|s: &str| s@);
        let mut i: usize = 0;
        while i < pattern.len()
            invariant
                i <= pattern@.len(),
                rows == pattern@.map_values(|s: &str| s@),
                data@ == pattern_cells(rows.take(i as int)),
            decreases pattern@.len() - i,
        {
            let row: &str = pattern[i];
            let ghost before = data@;
            for c in it: row.chars()
                invariant
                    rows == pattern@.map_values(|s: &str| s@),
                    i < pattern@.len(),
                    row@ == rows[i as int],
                    it.seq() == row@,
                    data@ == before + it.seq().take(it.index() as int).map_values(|ch: char| ch == '.'),
            {
                proof {
                    assert(it.seq().take(it.index() + 1).map_values(|ch: char| ch == '.') =~= it.seq().take(
                        it.index() as int,
                    ).map_values(|ch: char| ch == '.').push(c == '.'));
                }
                data.push(c == '.');
            }
            proof {
                assert(rows.take(i + 1).drop_last() =~= rows.take(i as int));
                assert(row@.take(row@.len() as int) =~= row@);
            }
            i = i + 1;
        }
        proof {
            assert(rows.take(pattern@.len() as int) =~= rows);
        }
        Prefab { width, height, data }
    }

    /// An all-floor `w` by `h` prefab.
    pub fn rect(w: usize, h: usize) -> (r: Prefab)
        requires
            w * h <= usize::MAX,
        ensures
            r.width == w,
            r.height == h,
            r.wf(),
            forall|i: int| 0 <= i < r.data@.len() ==> r.data@[i],
    {
        let n = w * h;
        let mut data: Vec<bool> = Vec::with_capacity(n);
        let mut i: usize = 0;
        while i < n
            invariant
                i <= n,
                data@.len() == i,
                forall|j: int| 0 <= j < i ==> data@[j],
            decreases n - i,
        {
            data.push(true);
            i = i + 1;
        }
        Prefab { width: w, height: h, data }
    }

    /// A `size` by `size` plus sign: the middle row and middle column are
    /// floor.
    pub fn cross(size: usize) -> (r: Prefab)
        requires
            size * size <= usize::MAX,
        ensures
            r.width == size,
            r.height == size,
            r.wf(),
            forall|x: int, y: int|
                0 <= x < size && 0 <= y < size ==> #[trigger] r.data@[y * size + x] == (x == size / 2 || y == size
                    / 2),
    {
        let n = size * size;
        let mid = size / 2;
        let mut data: Vec<bool> = Vec::with_capacity(n);
        let mut i: usize = 0;
        while i < n
            invariant
                i <= n,
                n == size * size,
                data@.len() == i,
                forall|j: int| 0 <= j < i ==> data@[j] == false,
            decreases n - i,
        {
            data.push(false);
            i = i + 1;
        }
        proof {
            assert forall|x: int, y: int| 0 <= x < size && 0 <= y < size implies #[trigger] data@[y * size + x] == ((
            x == mid && y < 0) || (y == mid && x < 0)) by {
                crate::grid::lemma_cell_index_bounds(size as int, size as int, x, y);
            }
        }
        let mut k: usize = 0;
        while k < size
            invariant
                k <= size,
                n == size * size,
                mid == size / 2,
                data@.len() == n,
                forall|x: int, y: int|
                    0 <= x < size && 0 <= y < size ==> #[trigger] data@[y * size + x] == ((x == mid && y < k) || (y
                        == mid && x < k)),
            decreases size - k,
        {
            proof {
                crate::grid::lemma_cell_index_bounds(size as int, size as int, k as int, mid as int);
                crate::grid::lemma_cell_index_bounds(size as int, size as int, mid as int, k as int);
            }
            data.set(mid * size + k, true);
            data.set(k * size + mid, true);
            proof {
                assert forall|x: int, y: int| 0 <= x < size && 0 <= y < size implies #[trigger] data@[y * size + x] == ((
                x == mid && y < k + 1) || (y == mid && x < k + 1)) by {
                    crate::grid::lemma_cell_index_bounds(size as int, size as int, x, y);
                    if y * size + x == mid * size + k {
                        crate::grid::lemma_cell_index_injective(size as int, x, y, k as int, mid as int);
                    }
                    if y * size + x == k * size + mid {
                        crate::grid::lemma_cell_index_injective(size as int, x, y, mid as int, k as int);
                    }
                }
            }
            k = k + 1;
        }
        Prefab { width: size, height: size, data }
    }
}

/// Prefab placement algorithm.
pub struct PrefabPlacer {
    config: PrefabConfig,
    prefabs: Vec<Prefab>,
}

/// Prefab `p` stamped with its top-left corner at `(ox, oy)` floors `(x, y)`.
pub open spec fn stamp_covers(p: Prefab, ox: int, oy: int, x: int, y: int) -> bool {
    &&& ox <= x < ox + p.width
    &&& oy <= y < oy + p.height
    &&& p.data@[(y - oy) * p.width + (x - ox)]
}

/// Placement `k` of `places` (corner and prefab index) floors `(x, y)`.
pub open spec fn place_stamps(prefabs: Seq<Prefab>, places: Seq<(usize, usize, usize)>, k: int, x: int, y: int) -> bool {
    stamp_covers(prefabs[places[k].2 as int], places[k].0 as int, places[k].1 as int, x, y)
}

/// Some placement floors `(x, y)`.
pub open spec fn layout_stamps(prefabs: Seq<Prefab>, places: Seq<(usize, usize, usize)>, x: int, y: int) -> bool {
    exists|k: int| 0 <= k < places.len() && #[trigger] place_stamps(prefabs, places, k, x, y)
}

/// `new` is `old` with floor on exactly the cells the placements floor.
pub open spec fn stamped(
    old: Grid<TileCell>,
    new: Grid<TileCell>,
    prefabs: Seq<Prefab>,
    places: Seq<(usize, usize, usize)>,
) -> bool {
    &&& new.wf()
    &&& new.w() == old.w()
    &&& new.h() == old.h()
    &&& forall|x: int, y: int|
        old.contains(x, y) ==> #[trigger] new.at(x, y) == if layout_stamps(prefabs, places, x, y) {
            TileCell::floor_cell()
        } else {
            old.at(x, y)
        }
}

/// The rectangle `(x, y, w, h)` that placement `k` takes.
pub open spec fn place_rect(prefabs: Seq<Prefab>, places: Seq<(usize, usize, usize)>, k: int) -> (int, int, int, int) {
    (
        places[k].0 as int,
        places[k].1 as int,
        prefabs[places[k].2 as int].width as int,
        prefabs[places[k].2 as int].height as int,
    )
}

/// The rectangles come within `s` cells of each other.
pub open spec fn stamps_meet(a: (int, int, int, int), b: (int, int, int, int), s: int) -> bool {
    !(a.0 + a.2 + s < b.0 || b.0 + b.2 + s < a.0 || a.1 + a.3 + s < b.1 || b.1 + b.3 + s < a.1)
}

/// Cell `p` lies in the rectangle `(x, y, w, h)`.
pub open spec fn in_rect(r: (int, int, int, int), p: (int, int)) -> bool {
    r.0 <= p.0 < r.0 + r.2 && r.1 <= p.1 < r.1 + r.3
}

/// Rectangles with spacing `s` meet whenever a cell of one lies within
/// `s + 1` of a cell of the other along both axes; in particular when they
/// share a cell.
pub proof fn law_close_stamps_meet(a: (int, int, int, int), b: (int, int, int, int), s: int, p: (int, int), q: (int, int))
    requires
        s >= 0,
        in_rect(a, p),
        in_rect(b, q),
        -(s + 1) <= p.0 - q.0 <= s + 1,
        -(s + 1) <= p.1 - q.1 <= s + 1,
    ensures
        stamps_meet(a, b, s),
        stamps_meet(b, a, s),
{
}

/// Any two placements keep apart: every cell of one placement's rectangle
/// lies more than `s + 1` away from every cell of the other's along some
/// axis, so no two stamps overlap.
pub proof fn law_placements_apart(
    prefabs: Seq<Prefab>,
    places: Seq<(usize, usize, usize)>,
    gw: int,
    gh: int,
    s: int,
    i: int,
    j: int,
    p: (int, int),
    q: (int, int),
)
    requires
        placements_ok(prefabs, places, gw, gh, s),
        s >= 0,
        0 <= i < places.len(),
        0 <= j < places.len(),
        i != j,
        in_rect(place_rect(prefabs, places, i), p),
        in_rect(place_rect(prefabs, places, j), q),
    ensures
        !(-(s + 1) <= p.0 - q.0 <= s + 1 && -(s + 1) <= p.1 - q.1 <= s + 1),
        p != q,
{
    if -(s + 1) <= p.0 - q.0 <= s + 1 && -(s + 1) <= p.1 - q.1 <= s + 1 {
        law_close_stamps_meet(place_rect(prefabs, places, i), place_rect(prefabs, places, j), s, p, q);
        if i < j {
            assert(!stamps_meet(place_rect(prefabs, places, i), place_rect(prefabs, places, j), s));
        } else {
            assert(!stamps_meet(place_rect(prefabs, places, j), place_rect(prefabs, places, i), s));
        }
    }
}

/// Every placement names a prefab and lies in the interior of a `gw` by
/// `gh` grid, and no two come within `s` cells of each other.
pub open spec fn placements_ok(
    prefabs: Seq<Prefab>,
    places: Seq<(usize, usize, usize)>,
    gw: int,
    gh: int,
    s: int,
) -> bool {
    &&& forall|q: int|
        0 <= q < places.len() ==> {
            let pl = #[trigger] places[q];
            &&& (pl.2 as int) < prefabs.len()
            &&& 1 <= pl.0 && pl.0 + prefabs[pl.2 as int].width + 1 < gw
            &&& 1 <= pl.1 && pl.1 + prefabs[pl.2 as int].height + 1 < gh
        }
    &&& forall|i: int, j: int|
        0 <= i < j < places.len() ==> !stamps_meet(
            #[trigger] place_rect(prefabs, places, i),
            #[trigger] place_rect(prefabs, places, j),
            s,
        )
}

/// A placement's rectangle lies inside the grid.
proof fn placements_fit(prefabs: Seq<Prefab>, places: Seq<(usize, usize, usize)>, gw: int, gh: int, s: int, k: int)
    requires
        placements_ok(prefabs, places, gw, gh, s),
        0 <= k < places.len(),
    ensures
        place_rect(prefabs, places, k).0 + place_rect(prefabs, places, k).2 < gw,
        place_rect(prefabs, places, k).1 + place_rect(prefabs, places, k).3 < gh,
{
    let pl = places[k];
}

/// Floors the cells of `grid` under the floor entries of `prefab` placed
/// with its top-left corner at `(x, y)`.
pub fn stamp(grid: &mut Grid<TileCell>, prefab: &Prefab, x: usize, y: usize)
    requires
        old(grid).wf(),
        prefab.wf(),
        x + prefab.width <= old(grid).w(),
        y + prefab.height <= old(grid).h(),
        old(grid).w() <= i32::MAX,
        old(grid).h() <= i32::MAX,
    ensures
        final(grid).wf(),
        final(grid).w() == old(grid).w(),
        final(grid).h() == old(grid).h(),
        forall|qx: int, qy: int|
            old(grid).contains(qx, qy) ==> #[trigger] final(grid).at(qx, qy) == if stamp_covers(
                *prefab,
                x as int,
                y as int,
                qx,
                qy,
            ) {
                TileCell::floor_cell()
            } else {
                old(grid).at(qx, qy)
            },
{
    let ghost g0 = *grid;
    let pw = prefab.width;
    let ph = prefab.height;
    let dlen = prefab.data.len();
    let mut dy: usize = 0;
    while dy < ph
        invariant
            dy <= ph,
            dlen == prefab.data@.len(),
            prefab.wf(),
            pw == prefab.width,
            ph == prefab.height,
            x + pw <= g0.w(),
            y + ph <= g0.h(),
            g0.w() <= i32::MAX,
            g0.h() <= i32::MAX,
            grid.wf(),
            grid.w() == g0.w(),
            grid.h() == g0.h(),
            forall|qx: int, qy: int|
                g0.contains(qx, qy) ==> #[trigger] grid.at(qx, qy) == if stamp_covers(*prefab, x as int, y as int, qx, qy)
                    && qy - y < dy {
                    TileCell::floor_cell()
                } else {
                    g0.at(qx, qy)
                },
        decreases ph - dy,
    {
        let mut dx: usize = 0;
        while dx < pw
            invariant
                dx <= pw,
                dy < ph,
                dlen == prefab.data@.len(),
                prefab.wf(),
                pw == prefab.width,
                ph == prefab.height,
                x + pw <= g0.w(),
                y + ph <= g0.h(),
                g0.w() <= i32::MAX,
                g0.h() <= i32::MAX,
                grid.wf(),
                grid.w() == g0.w(),
                grid.h() == g0.h(),
                forall|qx: int, qy: int|
                    g0.contains(qx, qy) ==> #[trigger] grid.at(qx, qy) == if stamp_covers(
                        *prefab,
                        x as int,
                        y as int,
                        qx,
                        qy,
                    ) && (qy - y < dy || (qy - y == dy && qx - x < dx)) {
                        TileCell::floor_cell()
                    } else {
                        g0.at(qx, qy)
                    },
            decreases pw - dx,
        {
            proof {
                crate::grid::lemma_cell_index_bounds(pw as int, ph as int, dx as int, dy as int);
            }
            if prefab.data[dy * pw + dx] {
                grid.set((x + dx) as i32, (y + dy) as i32, TileCell::floor());
            }
            proof {
                let cx = (x + dx) as int;
                let cy = (y + dy) as int;
                assert(cy - y == dy && cx - x == dx);
                assert((cy - y) * pw + (cx - x) == dy * pw + dx);
            }
            dx = dx + 1;
        }
        dy = dy + 1;
    }
}

/// Some cell of the prefab is floor.
pub open spec fn has_floor(p: Prefab) -> bool {
    exists|j: int| 0 <= j < p.data@.len() && #[trigger] p.data@[j]
}

/// Every prefab fits inside the border ring of a `gw` by `gh` grid with a
/// cell to spare on each side.
pub open spec fn all_fit(pfs: Seq<Prefab>, gw: int, gh: int) -> bool {
    forall|i: int| 0 <= i < pfs.len() ==> (#[trigger] pfs[i]).width + 2 < gw && pfs[i].height + 2 < gh
}

/// The rectangle `cand` comes within `s` cells of one of the placements.
pub open spec fn overlaps_any(
    ps: Seq<Prefab>,
    places: Seq<(usize, usize, usize)>,
    cand: (int, int, int, int),
    s: int,
) -> bool {
    exists|j: int| 0 <= j < places.len() && stamps_meet(cand, #[trigger] place_rect(ps, places, j), s)
}

/// One placement attempt on a `gw` by `gh` grid with spacing `s`, from the
/// placements so far and the word position of the next draw on the stream
/// of `seed`: draw a prefab; if it fits the interior, draw its corner, and
/// keep it unless it comes too close to an earlier one.
pub open spec fn prefab_attempt(
    ps: Seq<Prefab>,
    gw: usize,
    gh: usize,
    s: int,
    seed: u64,
    st: (Seq<(usize, usize, usize)>, u128),
) -> (Seq<(usize, usize, usize)>, u128) {
    let dp = chacha_usize_in(seed, st.1, 0, ps.len() as usize, usize::BITS);
    let pw = ps[dp.0 as int].width;
    let ph = ps[dp.0 as int].height;
    if pw >= gw || ph >= gh || pw + 2 >= gw || ph + 2 >= gh {
        (st.0, dp.1)
    } else {
        let dx = chacha_usize_in(seed, dp.1, 1, (gw - pw - 1) as usize, usize::BITS);
        let dy = chacha_usize_in(seed, dx.1, 1, (gh - ph - 1) as usize, usize::BITS);
        if overlaps_any(ps, st.0, (dx.0 as int, dy.0 as int, pw as int, ph as int), s) {
            (st.0, dy.1)
        } else {
            (st.0.push((dx.0, dy.0, dp.0)), dy.1)
        }
    }
}

/// The placements after `n` attempts from the start of the stream of
/// `seed`; attempts stop changing them once `max_prefabs` stand.
pub open spec fn prefab_run(
    c: PrefabConfig,
    ps: Seq<Prefab>,
    gw: usize,
    gh: usize,
    seed: u64,
    n: nat,
) -> (Seq<(usize, usize, usize)>, u128)
    decreases n,
{
    if n == 0 {
        (Seq::empty(), 0)
    } else {
        let st = prefab_run(c, ps, gw, gh, seed, (n - 1) as nat);
        if st.0.len() >= c.max_prefabs {
            st
        } else {
            prefab_attempt(ps, gw, gh, c.min_spacing as int, seed, st)
        }
    }
}

/// Once `max_prefabs` stand, further attempts change nothing.
proof fn lemma_prefab_full(c: PrefabConfig, ps: Seq<Prefab>, gw: usize, gh: usize, seed: u64, n: nat, m: nat)
    requires
        n <= m,
        prefab_run(c, ps, gw, gh, seed, n).0.len() >= c.max_prefabs,
    ensures
        prefab_run(c, ps, gw, gh, seed, m) == prefab_run(c, ps, gw, gh, seed, n),
    decreases m - n,
{
    if n < m {
        lemma_prefab_full(c, ps, gw, gh, seed, n, (m - 1) as nat);
    }
}

/// What [`PrefabPlacer::generate`] makes of the grid `g0` with `seed`, for
/// configuration `c` and prefabs `ps`: with prefabs to choose from, the
/// placements are those the stream of `seed` draws in `10 * max_prefabs`
/// attempts, and `g1` is `g0` stamped with them.
pub open spec fn prefab_outcome(c: PrefabConfig, ps: Seq<Prefab>, seed: u64, g0: Grid<TileCell>, g1: Grid<TileCell>) -> bool {
    &&& exists|places: Seq<(usize, usize, usize)>|
            #![trigger stamped(g0, g1, ps, places)]
            {
                &&& ps.len() > 0 ==> places == prefab_run(
                    c,
                    ps,
                    g0.w() as usize,
                    g0.h() as usize,
                    seed,
                    (c.max_prefabs * 10) as nat,
                ).0
                &&& places.len() <= c.max_prefabs
                &&& placements_ok(
                    ps,
                    places,
                    g0.w() as int,
                    g0.h() as int,
                    c.min_spacing as int,
                )
                &&& stamped(g0, g1, ps, places)
                &&& c.max_prefabs > 0 && ps.len() > 0 && all_fit(
                    ps,
                    g0.w() as int,
                    g0.h() as int,
                ) ==> places.len() >= 1
            }
    &&& g0.grows_to(&g1)
    &&& g0.same_outside(&g1, 1, 1, g0.w() - 1, g0.h() - 1)
}

/// Prefab placement is deterministic: the same configuration, prefabs,
/// seed and grid give the same result.
pub proof fn law_prefab_deterministic(
    c: PrefabConfig,
    ps: Seq<Prefab>,
    seed: u64,
    g0: Grid<TileCell>,
    g1: Grid<TileCell>,
    g2: Grid<TileCell>,
)
    requires
        prefab_outcome(c, ps, seed, g0, g1),
        prefab_outcome(c, ps, seed, g0, g2),
    ensures
        g1.cells() == g2.cells(),
{
    let gw = g0.w() as int;
    let gh = g0.h() as int;
    let sp = c.min_spacing as int;
    let p1 = choose|places: Seq<(usize, usize, usize)>|
        #![trigger stamped(g0, g1, ps, places)]
        (ps.len() > 0 ==> places == prefab_run(c, ps, g0.w() as usize, g0.h() as usize, seed, (c.max_prefabs * 10) as nat).0)
            && placements_ok(ps, places, gw, gh, sp) && stamped(g0, g1, ps, places);
    let p2 = choose|places: Seq<(usize, usize, usize)>|
        #![trigger stamped(g0, g2, ps, places)]
        (ps.len() > 0 ==> places == prefab_run(c, ps, g0.w() as usize, g0.h() as usize, seed, (c.max_prefabs * 10) as nat).0)
            && placements_ok(ps, places, gw, gh, sp) && stamped(g0, g2, ps, places);
    if ps.len() == 0 {
        if p1.len() > 0 {
            assert((p1[0].2 as int) < ps.len());
        }
        if p2.len() > 0 {
            assert((p2[0].2 as int) < ps.len());
        }
        assert(p1 =~= p2);
    }
    assert forall|x: int, y: int| g2.contains(x, y) implies #[trigger] g2.at(x, y) == g1.cells()[cell_index(
        g2.w() as int,
        x,
        y,
    )] by {
        assert(g1.at(x, y) == g2.at(x, y));
    }
    g2.lemma_cells_match(g1.cells());
}

impl PrefabPlacer {
    pub fn new(config: PrefabConfig, prefabs: Vec<Prefab>) -> (r: PrefabPlacer)
        ensures
            r.config() == config,
            r.prefabs() == prefabs@,
    {
        PrefabPlacer { config, prefabs }
    }

    /// A placer with the default configuration.
    pub fn with_prefabs(prefabs: Vec<Prefab>) -> (r: PrefabPlacer)
        ensures
            r.config().max_prefabs == 3,
            r.config().min_spacing == 5,
            r.prefabs() == prefabs@,
    {
        PrefabPlacer::new(PrefabConfig::default(), prefabs)
    }

    pub closed spec fn config(&self) -> PrefabConfig {
        self.config
    }

    pub closed spec fn prefabs(&self) -> Seq<Prefab> {
        self.prefabs@
    }

    /// Stamps up to `max_prefabs` randomly chosen prefabs at random interior
    /// positions, never two closer than `min_spacing`; floor entries of a
    /// prefab become floor. The grid changes exactly by the stamps of those
    /// placements ([`stamp`]); only interior cells change, only to floor.
    pub fn generate(&self, grid: &mut Grid<TileCell>, seed: u64)
        requires
            old(grid).wf(),
            old(grid).w() + self.config().min_spacing <= i32::MAX,
            old(grid).h() + self.config().min_spacing <= i32::MAX,
            self.config().max_prefabs * 10 <= usize::MAX,
            forall|i: int| 0 <= i < self.prefabs().len() ==> #[trigger] self.prefabs()[i].wf(),
        ensures
            prefab_outcome(self.config(), self.prefabs(), seed, *old(grid), *final(grid)),
            self.config().max_prefabs > 0 && self.prefabs().len() > 0 && all_fit(
                self.prefabs(),
                old(grid).w() as int,
                old(grid).h() as int,
            ) && (forall|i: int| 0 <= i < self.prefabs().len() ==> has_floor(#[trigger] self.prefabs()[i]))
                ==> exists|x: int, y: int| old(grid).contains(x, y) && #[trigger] final(grid).at(x, y) == TileCell::floor_cell(),
    {
        let ghost g0 = *grid;
        let ghost pfs = self.prefabs@;
        let ghost mut places: Seq<(usize, usize, usize)> = Seq::empty();
        proof {
            assert(stamped(g0, *grid, pfs, places)) by {
                assert forall|qx: int, qy: int| g0.contains(qx, qy) implies !layout_stamps(pfs, places, qx, qy) by {}
            }
        }
        if self.prefabs.len() == 0 {
            proof {
                assert(places.len() <= self.config().max_prefabs && placements_ok(
                    pfs,
                    places,
                    g0.w() as int,
                    g0.h() as int,
                    self.config().min_spacing as int,
                ) && stamped(g0, *grid, self.prefabs(), places));
            }
            return;
        }
        let mut rng = Rng::new(seed);
        let mut placed: Vec<(usize, usize, usize, usize)> = Vec::new();
        let gw = grid.width();
        let gh = grid.height();
        let s = self.config.min_spacing;
        let attempts = self.config.max_prefabs * 10;
        let ghost sure = self.config.max_prefabs > 0 && all_fit(pfs, gw as int, gh as int);
        let mut attempt: usize = 0;
        while attempt < attempts
            invariant
                attempts == self.config.max_prefabs * 10,
                sure == (self.config.max_prefabs > 0 && all_fit(pfs, gw as int, gh as int)),
                sure ==> attempt == 0 || places.len() >= 1,
                sure && attempt == 0 ==> places.len() == 0,
                rng.seed_of() == seed,
                (places, rng.pos_of()) == prefab_run(self.config, pfs, gw, gh, seed, attempt as nat),
                attempt <= attempts,
                gw == g0.w(),
                gh == g0.h(),
                pfs == self.prefabs@,
                s == self.config().min_spacing,
                gw + s <= i32::MAX,
                gh + s <= i32::MAX,
                self.prefabs@.len() > 0,
                forall|i: int| 0 <= i < self.prefabs().len() ==> #[trigger] self.prefabs()[i].wf(),
                placed@.len() == places.len(),
                places.len() <= self.config().max_prefabs,
                forall|i: int|
                    0 <= i < placed@.len() ==> (#[trigger] placed@[i]) == (
                        places[i].0,
                        places[i].1,
                        pfs[places[i].2 as int].width,
                        pfs[places[i].2 as int].height,
                    ),
                placements_ok(pfs, places, gw as int, gh as int, s as int),
                stamped(g0, *grid, pfs, places),
                g0.grows_to(grid),
                g0.same_outside(grid, 1, 1, gw - 1, gh - 1),
            ensures
                sure ==> places.len() >= 1,
                (places, rng.pos_of()) == prefab_run(self.config, pfs, gw, gh, seed, attempts as nat),
            decreases attempts - attempt,
        {
            if placed.len() >= self.config.max_prefabs {
                proof {
                    lemma_prefab_full(self.config, pfs, gw, gh, seed, attempt as nat, attempts as nat);
                }
                break;
            }
            proof {
                assert(prefab_run(self.config, pfs, gw, gh, seed, (attempt + 1) as nat) == prefab_attempt(
                    pfs,
                    gw,
                    gh,
                    s as int,
                    seed,
                    prefab_run(self.config, pfs, gw, gh, seed, attempt as nat),
                ));
            }
            attempt = attempt + 1;
            let pi = rng.range_usize(0, self.prefabs.len());
            let prefab = &self.prefabs[pi];
            let pw = prefab.width;
            let ph = prefab.height;
            assert(self.prefabs()[pi as int].wf());
            if pw >= gw || ph >= gh || pw + 2 >= gw || ph + 2 >= gh {
                continue;
            }
            let x = rng.range_usize(1, gw - pw - 1);
            let y = rng.range_usize(1, gh - ph - 1);
            let ghost cand = (x as int, y as int, pw as int, ph as int);
            let mut overlaps = false;
            let mut k: usize = 0;
            while k < placed.len()
                invariant
                    k <= placed@.len(),
                    placed@.len() == places.len(),
                    forall|i: int|
                        0 <= i < placed@.len() ==> (#[trigger] placed@[i]) == (
                            places[i].0,
                            places[i].1,
                            pfs[places[i].2 as int].width,
                            pfs[places[i].2 as int].height,
                        ),
                    placements_ok(pfs, places, gw as int, gh as int, s as int),
                    gw + s <= i32::MAX,
                    gh + s <= i32::MAX,
                    x + pw <= gw,
                    y + ph <= gh,
                    cand == (x as int, y as int, pw as int, ph as int),
                    !overlaps ==> forall|j: int|
                        0 <= j < k ==> !stamps_meet(cand, #[trigger] place_rect(pfs, places, j), s as int),
                    overlaps ==> exists|j: int|
                        0 <= j < k && stamps_meet(cand, #[trigger] place_rect(pfs, places, j), s as int),
                decreases placed@.len() - k,
            {
                let (px, py, qw, qh) = placed[k];
                proof {
                    assert(placed@[k as int] == (
                        places[k as int].0,
                        places[k as int].1,
                        pfs[places[k as int].2 as int].width,
                        pfs[places[k as int].2 as int].height,
                    ));
                    placements_fit(pfs, places, gw as int, gh as int, s as int, k as int);
                }
                if !(x + pw + s < px || px + qw + s < x || y + ph + s < py || py + qh + s < y) {
                    overlaps = true;
                }
                k = k + 1;
            }
            if overlaps {
                continue;
            }
            let ghost g1 = *grid;
            stamp(grid, prefab, x, y);
            let ghost np = places.push((x, y, pi));
            proof {
                assert(np[places.len() as int] == (x, y, pi));
                assert forall|qx: int, qy: int| g0.contains(qx, qy) implies #[trigger] grid.at(qx, qy) == if layout_stamps(
                    pfs,
                    np,
                    qx,
                    qy,
                ) {
                    TileCell::floor_cell()
                } else {
                    g0.at(qx, qy)
                } by {
                    assert(g1.at(qx, qy) == if layout_stamps(pfs, places, qx, qy) {
                        TileCell::floor_cell()
                    } else {
                        g0.at(qx, qy)
                    });
                    assert(place_stamps(pfs, np, places.len() as int, qx, qy) == stamp_covers(*prefab, x as int, y as int, qx, qy));
                    if layout_stamps(pfs, places, qx, qy) {
                        let j = choose|j: int| 0 <= j < places.len() && #[trigger] place_stamps(pfs, places, j, qx, qy);
                        assert(np[j] == places[j]);
                        assert(place_stamps(pfs, np, j, qx, qy));
                    }
                    if layout_stamps(pfs, np, qx, qy) {
                        let j = choose|j: int| 0 <= j < np.len() && #[trigger] place_stamps(pfs, np, j, qx, qy);
                        if j < places.len() {
                            assert(np[j] == places[j]);
                            assert(place_stamps(pfs, places, j, qx, qy));
                        }
                    }
                }
                assert forall|q: int| 0 <= q < np.len() implies {
                    let pl = #[trigger] np[q];
                    &&& (pl.2 as int) < pfs.len()
                    &&& 1 <= pl.0 && pl.0 + pfs[pl.2 as int].width + 1 < gw
                    &&& 1 <= pl.1 && pl.1 + pfs[pl.2 as int].height + 1 < gh
                } by {
                    if q < places.len() {
                        assert(np[q] == places[q]);
                    }
                }
                assert forall|i: int, j: int| 0 <= i < j < np.len() implies !stamps_meet(
                    #[trigger] place_rect(pfs, np, i),
                    #[trigger] place_rect(pfs, np, j),
                    s as int,
                ) by {
                    assert(np[i] == places[i]);
                    assert(place_rect(pfs, np, i) == place_rect(pfs, places, i));
                    if j < places.len() {
                        assert(np[j] == places[j]);
                        assert(place_rect(pfs, np, j) == place_rect(pfs, places, j));
                    } else {
                        assert(place_rect(pfs, np, j) == cand);
                    }
                }
                places = np;
            }
            let ghost pl0 = placed@;
            placed.push((x, y, pw, ph));
            proof {
                assert forall|i: int| 0 <= i < placed@.len() implies (#[trigger] placed@[i]) == (
                    places[i].0,
                    places[i].1,
                    pfs[places[i].2 as int].width,
                    pfs[places[i].2 as int].height,
                ) by {
                    if i < pl0.len() {
                        assert(placed@[i] == pl0[i]);
                    }
                }
                assert(g1.grows_to(grid));
                g0.lemma_grows_trans(&g1, grid);
                assert forall|qx: int, qy: int|
                    g0.contains(qx, qy) && !(1 <= qx < gw - 1 && 1 <= qy < gh - 1) implies #[trigger] grid.at(qx, qy)
                    == g0.at(qx, qy) by {
                    assert(grid.at(qx, qy) == if stamp_covers(*prefab, x as int, y as int, qx, qy) {
                        TileCell::floor_cell()
                    } else {
                        g1.at(qx, qy)
                    });
                }
            }
        }
        proof {
            assert(places.len() <= self.config().max_prefabs && placements_ok(
                pfs,
                places,
                g0.w() as int,
                g0.h() as int,
                self.config().min_spacing as int,
            ) && stamped(g0, *grid, self.prefabs(), places));
            if sure && forall|i: int| 0 <= i < pfs.len() ==> has_floor(#[trigger] pfs[i]) {
                let pl = places[0];
                assert((pl.2 as int) < pfs.len());
                let pf = pfs[pl.2 as int];
                assert(pf.wf());
                assert(has_floor(pf));
                let j = choose|j: int| 0 <= j < pf.data@.len() && #[trigger] pf.data@[j];
                assert(pf.width > 0) by {
                    if pf.width == 0 {
                        assert(pf.width * pf.height == 0) by (nonlinear_arith)
                            requires
                                pf.width == 0,
                        ;
                    }
                }
                crate::grid::lemma_cell_index_decompose(pf.width as int, pf.height as int, j);
                let cx = pl.0 + j % (pf.width as int);
                let cy = pl.1 + j / (pf.width as int);
                assert(place_stamps(pfs, places, 0, cx, cy));
                assert(layout_stamps(pfs, places, cx, cy));
                assert(g0.contains(cx, cy));
                assert(grid.at(cx, cy) == TileCell::floor_cell());
            }
        }
    }

    pub fn name(&self) -> (r: &'static str)
        ensures
            r@ == "PrefabPlacer"@,
    {
        "PrefabPlacer"
    }
}

} // verus!

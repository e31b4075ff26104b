//! Semantic layers: regions, markers, masks and connectivity information
//! that accompany generated tiles for game integration.

use crate::grid::{Grid, Tile};
use crate::semantic_visualization::{decimal, push_decimal};
use vstd::prelude::*;

verus! {

/// Type of connectivity analysis to perform.
#[derive(Debug, Clone, Copy, PartialEq, Eq, Structural)]
pub enum ConnectivityType {
    /// 4-connected (orthogonal neighbours only).
    FourConnected,
    /// 8-connected (includes diagonal neighbours).
    EightConnected,
}

/// Configuration for advanced region analysis.
#[derive(Debug, Clone, Copy)]
pub struct RegionAnalysisConfig {
    /// Enable shape analysis (aspect ratio, compactness).
    pub analyze_shape: bool,
    /// Enable connectivity pattern analysis.
    pub analyze_connectivity_patterns: bool,
    /// Minimum region size for detailed analysis.
    pub min_analysis_size: usize,
}

/// Marker placement strategies.
#[derive(Debug, Clone, Copy, PartialEq, Eq, Structural)]
pub enum PlacementStrategy {
    /// Random placement within region.
    Random,
    /// Place at region center.
    Center,
    /// Place near region edges.
    Edges,
    /// Place in corners/extremes.
    Corners,
}

/// Configuration for marker placement strategies.
#[derive(Debug, Clone, Copy)]
pub struct MarkerPlacementConfig {
    /// Placement strategy for markers.
    pub strategy: PlacementStrategy,
    /// Minimum distance between markers of same type.
    pub min_marker_distance: usize,
    /// Avoid placing markers near walls.
    pub avoid_walls: bool,
}

/// A distinct region within the generated map.
#[derive(Debug, Clone)]
pub struct Region {
    pub id: u32,
    pub kind: String,
    pub cells: Vec<(u32, u32)>,
    pub tags: Vec<String>,
}

impl Region {
    /// An empty region `id` of the given kind.
    pub fn new(id: u32, kind: String) -> (r: Region)
        ensures
            r.id == id,
            r.kind@ == kind@,
            r.cells@ == Seq::<(u32, u32)>::empty(),
            r.tags@.len() == 0,
    {
        Region { id, kind, cells: Vec::new(), tags: Vec::new() }
    }

    /// Appends the cell `(x, y)`.
    pub fn add_cell(&mut self, x: u32, y: u32)
        ensures
            final(self).cells@ == old(self).cells@.push((x, y)),
            final(self).id == old(self).id,
            final(self).kind == old(self).kind,
            final(self).tags == old(self).tags,
    {
        self.cells.push((x, y));
    }

    /// Appends the tag `tag`.
    pub fn add_tag(&mut self, tag: String)
        ensures
            final(self).tags@ == old(self).tags@.push(tag),
            final(self).id == old(self).id,
            final(self).kind == old(self).kind,
            final(self).cells == old(self).cells,
    {
        self.tags.push(tag);
    }

    /// Number of cells.
    pub fn area(&self) -> (r: usize)
        ensures
            r == self.cells@.len(),
    {
        self.cells.len()
    }
}

/// Hierarchical marker types for different gameplay elements.
#[derive(Debug, Clone, PartialEq, Eq, Hash)]
pub enum MarkerType {
    /// Basic spawn point.
    Spawn,
    Exit,
    /// Quest-related markers.
    QuestObjective { priority: u8 },
    QuestStart,
    QuestEnd,
    /// Loot and rewards.
    LootTier { tier: u8 },
    Treasure,
    /// Encounter zones.
    EncounterZone { difficulty: u8 },
    BossRoom,
    SafeZone,
    /// Custom marker with a string tag.
    Custom(String),
}

/// The base category of a marker type.
pub open spec fn category_of(m: MarkerType) -> Seq<char> {
    match m {
        MarkerType::Spawn | MarkerType::Exit => "spawn"@,
        MarkerType::QuestObjective { .. } | MarkerType::QuestStart | MarkerType::QuestEnd => "quest"@,
        MarkerType::LootTier { .. } | MarkerType::Treasure => "loot"@,
        MarkerType::EncounterZone { .. } | MarkerType::BossRoom | MarkerType::SafeZone => "encounter"@,
        MarkerType::Custom(_) => "custom"@,
    }
}

/// The tag string of a marker type.
pub open spec fn tag_of(m: MarkerType) -> Seq<char> {
    match m {
        MarkerType::Spawn => "spawn"@,
        MarkerType::Exit => "exit"@,
        MarkerType::QuestObjective { priority } => "quest_objective_"@ + decimal(priority as nat),
        MarkerType::QuestStart => "quest_start"@,
        MarkerType::QuestEnd => "quest_end"@,
        MarkerType::LootTier { tier } => "loot_tier_"@ + decimal(tier as nat),
        MarkerType::Treasure => "treasure"@,
        MarkerType::EncounterZone { difficulty } => "encounter_"@ + decimal(difficulty as nat),
        MarkerType::BossRoom => "boss_room"@,
        MarkerType::SafeZone => "safe_zone"@,
        MarkerType::Custom(tag) => tag@,
    }
}

impl MarkerType {
    /// The tag string of this marker type: a fixed name, with the priority,
    /// tier or difficulty appended in decimal, or the custom tag itself.
    pub fn tag(&self) -> (r: String)
        ensures
            r@ == tag_of(*self),
    {
        match self {
            MarkerType::Spawn => "spawn".to_string(),
            MarkerType::Exit => "exit".to_string(),
            MarkerType::QuestObjective { priority } => {
                let mut s = "quest_objective_".to_string();
                push_decimal(&mut s, *priority as u32);
                s
            },
            MarkerType::QuestStart => "quest_start".to_string(),
            MarkerType::QuestEnd => "quest_end".to_string(),
            MarkerType::LootTier { tier } => {
                let mut s = "loot_tier_".to_string();
                push_decimal(&mut s, *tier as u32);
                s
            },
            MarkerType::Treasure => "treasure".to_string(),
            MarkerType::EncounterZone { difficulty } => {
                let mut s = "encounter_".to_string();
                push_decimal(&mut s, *difficulty as u32);
                s
            },
            MarkerType::BossRoom => "boss_room".to_string(),
            MarkerType::SafeZone => "safe_zone".to_string(),
            MarkerType::Custom(tag) => tag.clone(),
        }
    }

    /// The base category of this marker type.
    pub fn category(&self) -> (r: &'static str)
        ensures
            r@ == category_of(*self),
    {
        match self {
            MarkerType::Spawn | MarkerType::Exit => "spawn",
            MarkerType::QuestObjective { .. } | MarkerType::QuestStart | MarkerType::QuestEnd => "quest",
            MarkerType::LootTier { .. } | MarkerType::Treasure => "loot",
            MarkerType::EncounterZone { .. } | MarkerType::BossRoom | MarkerType::SafeZone => "encounter",
            MarkerType::Custom(_) => "custom",
        }
    }
}

/// A `width` by `height` table of `false`.
fn false_rows(width: usize, height: usize) -> (r: Vec<Vec<bool>>)
    ensures
        r@.len() == height,
        forall|y: int| 0 <= y < height ==> (#[trigger] r@[y])@.len() == width,
        forall|x: int, y: int| 0 <= x < width && 0 <= y < height ==> !#[trigger] r@[y]@[x],
{
    let mut rows: Vec<Vec<bool>> = Vec::with_capacity(height);
    let mut y: usize = 0;
    while y < height
        invariant
            y <= height,
            rows@.len() == y,
            forall|yy: int| 0 <= yy < y ==> (#[trigger] rows@[yy])@.len() == width,
            forall|x: int, yy: int| 0 <= x < width && 0 <= yy < y ==> !#[trigger] rows@[yy]@[x],
        decreases height - y,
    {
        let mut row: Vec<bool> = Vec::with_capacity(width);
        let mut x: usize = 0;
        while x < width
            invariant
                x <= width,
                row@.len() == x,
                forall|xx: int| 0 <= xx < x ==> !#[trigger] row@[xx],
            decreases width - x,
        {
            row.push(false);
            x = x + 1;
        }
        rows.push(row);
        y = y + 1;
    }
    rows
}

/// Spatial masks for gameplay logic, indexed `[y][x]`.
#[derive(Debug, Clone)]
pub struct Masks {
    pub walkable: Vec<Vec<bool>>,
    pub no_spawn: Vec<Vec<bool>>,
    pub width: usize,
    pub height: usize,
}

impl Masks {
    /// Both masks `width` by `height` rows of `false`.
    pub fn new(width: usize, height: usize) -> (m: Masks)
        ensures
            m.width == width,
            m.height == height,
            m.walkable@.len() == height,
            m.no_spawn@.len() == height,
            forall|y: int| 0 <= y < height ==> (#[trigger] m.walkable@[y])@.len() == width,
            forall|y: int| 0 <= y < height ==> (#[trigger] m.no_spawn@[y])@.len() == width,
            forall|x: int, y: int| 0 <= x < width && 0 <= y < height ==> !#[trigger] m.walkable@[y]@[x],
            forall|x: int, y: int| 0 <= x < width && 0 <= y < height ==> !#[trigger] m.no_spawn@[y]@[x],
    {
        Masks { walkable: false_rows(width, height), no_spawn: false_rows(width, height), width, height }
    }

    /// Masks of the grid's size: walkable exactly on floor cells, spawning
    /// allowed everywhere.
    pub fn from_tiles(tiles: &Grid<Tile>) -> (m: Masks)
        requires
            tiles.wf(),
        ensures
            m.width == tiles.w(),
            m.height == tiles.h(),
            m.walkable@.len() == tiles.h(),
            m.no_spawn@.len() == tiles.h(),
            forall|y: int| 0 <= y < tiles.h() ==> (#[trigger] m.walkable@[y])@.len() == tiles.w(),
            forall|y: int| 0 <= y < tiles.h() ==> (#[trigger] m.no_spawn@[y])@.len() == tiles.w(),
            forall|x: int, y: int|
                tiles.contains(x, y) ==> #[trigger] m.walkable@[y]@[x] == (tiles.at(x, y) == Tile::Floor),
            forall|x: int, y: int| tiles.contains(x, y) ==> !#[trigger] m.no_spawn@[y]@[x],
    {
        let w = tiles.width();
        let h = tiles.height();
        let mut walkable: Vec<Vec<bool>> = Vec::with_capacity(h);
        let mut y: usize = 0;
        while y < h
            invariant
                y <= h,
                w == tiles.w(),
                h == tiles.h(),
                tiles.wf(),
                walkable@.len() == y,
                forall|yy: int| 0 <= yy < y ==> (#[trigger] walkable@[yy])@.len() == w,
                forall|x: int, yy: int|
                    0 <= x < w && 0 <= yy < y ==> #[trigger] walkable@[yy]@[x] == (tiles.at(x, yy) == Tile::Floor),
            decreases h - y,
        {
            let mut row: Vec<bool> = Vec::with_capacity(w);
            let mut x: usize = 0;
            while x < w
                invariant
                    x <= w,
                    y < h,
                    w == tiles.w(),
                    h == tiles.h(),
                    tiles.wf(),
                    row@.len() == x,
                    forall|xx: int| 0 <= xx < x ==> #[trigger] row@[xx] == (tiles.at(xx, y as int) == Tile::Floor),
                decreases w - x,
            {
                row.push(tiles.cell(x, y).is_floor());
                x = x + 1;
            }
            walkable.push(row);
            y = y + 1;
        }
        Masks { walkable, no_spawn: false_rows(w, h), width: w, height: h }
    }
}

/// Whether `v` holds `id`.
fn holds_id(v: &Vec<u32>, id: u32) -> (r: bool)
    ensures
        r == v@.contains(id),
{
    let mut k: usize = 0;
    while k < v.len()
        invariant
            k <= v@.len(),
            forall|j: int| 0 <= j < k ==> v@[j] != id,
        decreases v@.len() - k,
    {
        if v[k] == id {
            assert(v@[k as int] == id);
            return true;
        }
        k = k + 1;
    }
    false
}

/// Whether `v` holds the pair `e`.
fn holds_pair(v: &Vec<(u32, u32)>, e: (u32, u32)) -> (r: bool)
    ensures
        r == v@.contains(e),
{
    let mut k: usize = 0;
    while k < v.len()
        invariant
            k <= v@.len(),
            forall|j: int| 0 <= j < k ==> v@[j] != e,
        decreases v@.len() - k,
    {
        if v[k].0 == e.0 && v[k].1 == e.1 {
            assert(v@[k as int] == e);
            return true;
        }
        k = k + 1;
    }
    false
}

/// Region connectivity information.
#[derive(Debug, Clone)]
pub struct ConnectivityGraph {
    pub regions: Vec<u32>,
    pub edges: Vec<(u32, u32)>,
}

/// `rs` with `id` appended when it is not there yet.
pub open spec fn with_region(rs: Seq<u32>, id: u32) -> Seq<u32> {
    if rs.contains(id) {
        rs
    } else {
        rs.push(id)
    }
}

impl ConnectivityGraph {
    /// Regions are listed once each, an edge is listed once in either
    /// direction, and both ends of an edge are listed regions.
    pub open spec fn wf(&self) -> bool {
        &&& forall|i: int, j: int| 0 <= i < j < self.regions@.len() ==> self.regions@[i] != self.regions@[j]
        &&& forall|i: int, j: int|
            0 <= i < j < self.edges@.len() ==> self.edges@[i] != self.edges@[j] && self.edges@[i] != (
            self.edges@[j].1,
            self.edges@[j].0,
        )
        &&& forall|i: int|
            0 <= i < self.edges@.len() ==> self.regions@.contains(#[trigger] self.edges@[i].0)
                && self.regions@.contains(self.edges@[i].1)
    }

    /// No regions and no edges.
    pub fn new() -> (g: ConnectivityGraph)
        ensures
            g.regions@ == Seq::<u32>::empty(),
            g.edges@ == Seq::<(u32, u32)>::empty(),
            g.wf(),
    {
        ConnectivityGraph { regions: Vec::new(), edges: Vec::new() }
    }

    /// Lists region `id` unless it is listed already.
    pub fn add_region(&mut self, id: u32)
        ensures
            final(self).regions@ == if old(self).regions@.contains(id) {
                old(self).regions@
            } else {
                old(self).regions@.push(id)
            },
            final(self).edges == old(self).edges,
            old(self).wf() ==> final(self).wf(),
    {
        if !holds_id(&self.regions, id) {
            self.regions.push(id);
            proof {
                assert forall|r: u32| old(self).regions@.contains(r) implies self.regions@.contains(r) by {
                    let k = choose|k: int| 0 <= k < old(self).regions@.len() && old(self).regions@[k] == r;
                    assert(self.regions@[k] == r);
                }
            }
        }
    }

    /// Lists both regions, then the edge `(from, to)` unless it is listed
    /// already in either direction.
    #[verifier::spinoff_prover]
    pub fn add_edge(&mut self, from: u32, to: u32)
        ensures
            final(self).regions@ == with_region(with_region(old(self).regions@, from), to),
            final(self).regions@.contains(from),
            final(self).regions@.contains(to),
            final(self).edges@ == if old(self).edges@.contains((from, to)) || old(self).edges@.contains((to, from)) {
                old(self).edges@
            } else {
                old(self).edges@.push((from, to))
            },
            forall|r: u32| old(self).regions@.contains(r) ==> final(self).regions@.contains(r),
            forall|r: u32| #[trigger] final(self).regions@.contains(r) ==> old(self).regions@.contains(r) || r == from || r == to,
            old(self).wf() ==> final(self).wf(),
    {
        let ghost g0 = *self;
        self.add_region(from);
        let ghost g1 = *self;
        self.add_region(to);
        proof {
            assert forall|r: u32| g0.regions@.contains(r) implies self.regions@.contains(r) by {
                let k = choose|k: int| 0 <= k < g0.regions@.len() && g0.regions@[k] == r;
                assert(g1.regions@[k] == r);
                assert(self.regions@[k] == r);
            }
            assert(g1.regions@.contains(from)) by {
                if !g0.regions@.contains(from) {
                    assert(g1.regions@[g1.regions@.len() - 1] == from);
                }
            }
            assert(self.regions@.contains(from)) by {
                let k = choose|k: int| 0 <= k < g1.regions@.len() && g1.regions@[k] == from;
                assert(self.regions@[k] == from);
            }
            assert(self.regions@.contains(to)) by {
                if !g1.regions@.contains(to) {
                    assert(self.regions@[self.regions@.len() - 1] == to);
                }
            }
            assert forall|r: u32| #[trigger] self.regions@.contains(r) implies g0.regions@.contains(r) || r == from
                || r == to by {
                let k = choose|k: int| 0 <= k < self.regions@.len() && self.regions@[k] == r;
                if k < g1.regions@.len() {
                    assert(g1.regions@[k] == r);
                    if k < g0.regions@.len() {
                        assert(g0.regions@[k] == r);
                    }
                }
            }
        }
        if !holds_pair(&self.edges, (from, to)) && !holds_pair(&self.edges, (to, from)) {
            self.edges.push((from, to));
            proof {
                if g0.wf() {
                    assert forall|i: int|
                        0 <= i < self.edges@.len() implies self.regions@.contains(#[trigger] self.edges@[i].0)
                        && self.regions@.contains(self.edges@[i].1) by {
                        if i < g0.edges@.len() {
                            assert(self.edges@[i] == g0.edges@[i]);
                            assert(g0.regions@.contains(g0.edges@[i].0));
                            assert(g0.regions@.contains(g0.edges@[i].1));
                        }
                    }
                    assert forall|i: int, j: int| 0 <= i < j < self.edges@.len() implies self.edges@[i]
                        != self.edges@[j] && self.edges@[i] != (self.edges@[j].1, self.edges@[j].0) by {
                        assert(self.edges@[i] == g0.edges@[i]);
                        if j == g0.edges@.len() {
                            assert(g0.edges@.contains(g0.edges@[i]));
                        } else {
                            assert(self.edges@[j] == g0.edges@[j]);
                        }
                    }
                }
            }
        } else {
            proof {
                if g0.wf() {
                    assert forall|i: int|
                        0 <= i < self.edges@.len() implies self.regions@.contains(#[trigger] self.edges@[i].0)
                        && self.regions@.contains(self.edges@[i].1) by {
                        assert(g0.regions@.contains(g0.edges@[i].0));
                        assert(g0.regions@.contains(g0.edges@[i].1));
                    }
                }
            }
        }
    }
}

/// A stair position `(x, y, from_floor, to_floor)`.
pub type StairSpot = (u32, u32, u32, u32);

/// Every cell within `c` (on each axis) of `(x, y)` is floor on both grids.
pub open spec fn stair_site(a: &Grid<Tile>, b: &Grid<Tile>, x: int, y: int, c: int) -> bool {
    forall|px: int, py: int|
        x - c <= px <= x + c && y - c <= py <= y + c ==> #[trigger] a.open_at((px, py)) && b.open_at((px, py))
}

/// `(px, py)` lies just outside the square of cells within `c` of `(x, y)`,
/// sharing a side with it.
pub open spec fn beside_square(x: int, y: int, c: int, px: int, py: int) -> bool {
    ||| ((px == x - c - 1 || px == x + c + 1) && y - c <= py <= y + c)
    ||| ((py == y - c - 1 || py == y + c + 1) && x - c <= px <= x + c)
}

/// Some cell of grid `a` just outside the square of cells within `c` of
/// `(x, y)`, sharing a side with it, is a wall (with `c` zero: a
/// 4-neighbour of `(x, y)`).
pub open spec fn wall_next_to(a: &Grid<Tile>, x: int, y: int, c: int) -> bool {
    exists|px: int, py: int| beside_square(x, y, c, px, py) && a.contains(px, py) && #[trigger] a.at(px, py) == Tile::Wall
}

/// `t` is a stair candidate between floor `t.2` and the next one: at least
/// `c` cells inside the lower floor's edges, on a clear site (every cell
/// within `c` is floor on both floors), beside a wall of the lower floor
/// that borders the clear site and can support the stair.
pub open spec fn is_stair_candidate(floors: Seq<Grid<Tile>>, c: int, t: StairSpot) -> bool {
    let f = t.2 as int;
    &&& t.3 == t.2 + 1
    &&& f + 1 < floors.len()
    &&& c <= t.0 < floors[f].w() - c
    &&& c <= t.1 < floors[f].h() - c
    &&& stair_site(&floors[f], &floors[f + 1], t.0 as int, t.1 as int, c)
    &&& wall_next_to(&floors[f], t.0 as int, t.1 as int, c)
}

/// `a` comes before `b`: by lower floor, then row, then column.
pub open spec fn stair_before(a: StairSpot, b: StairSpot) -> bool {
    ||| a.2 < b.2
    ||| (a.2 == b.2 && a.1 < b.1)
    ||| (a.2 == b.2 && a.1 == b.1 && a.0 < b.0)
}

/// The floor pair of a stair spot.
pub open spec fn pair_of(t: StairSpot) -> (u32, u32) {
    (t.2, t.3)
}

/// The spots of `s` between the floor pair `p`, in order.
pub open spec fn with_pair(s: Seq<StairSpot>, p: (u32, u32)) -> Seq<StairSpot>
    decreases s.len(),
{
    if s.len() == 0 {
        seq![]
    } else {
        let r = with_pair(s.drop_last(), p);
        if pair_of(s.last()) == p {
            r.push(s.last())
        } else {
            r
        }
    }
}

/// The distinct floor pairs of `s` in order of first appearance.
pub open spec fn first_pairs(s: Seq<StairSpot>) -> Seq<(u32, u32)>
    decreases s.len(),
{
    if s.len() == 0 {
        seq![]
    } else {
        let r = first_pairs(s.drop_last());
        if r.contains(pair_of(s.last())) {
            r
        } else {
            r.push(pair_of(s.last()))
        }
    }
}

/// The first `m` entries of `s` (all of them when there are fewer).
pub open spec fn capped<A>(s: Seq<A>, m: int) -> Seq<A> {
    if s.len() <= m {
        s
    } else {
        s.take(m)
    }
}

/// For each floor pair of `ps` in turn, its first `m` spots of `s`.
pub open spec fn stairs_for(s: Seq<StairSpot>, ps: Seq<(u32, u32)>, m: int) -> Seq<StairSpot>
    decreases ps.len(),
{
    if ps.len() == 0 {
        seq![]
    } else {
        stairs_for(s, ps.drop_last(), m) + capped(with_pair(s, ps.last()), m)
    }
}

/// Vertical connectivity analysis for multi-floor maps.
#[derive(Debug, Clone)]
pub struct VerticalConnectivity {
    /// Potential stair locations `(x, y, floor_from, floor_to)`.
    pub stair_candidates: Vec<StairSpot>,
    /// Confirmed stair placements.
    pub stairs: Vec<StairSpot>,
    /// Regions accessible from each floor, keyed by floor.
    pub floor_accessibility: Vec<(u32, Vec<u32>)>,
}

/// Whether some 4-neighbour of `(x, y)` inside `a` is a wall.
/// Where a cell beside the square of cells within `c` of `(x, y)` lies
/// along its side, counted from the side's first cell.
spec fn beside_index(x: int, y: int, c: int, px: int, py: int) -> int {
    if px == x - c - 1 || px == x + c + 1 {
        py - (y - c)
    } else {
        px - (x - c)
    }
}

/// Whether a cell beside the clear square around `(x, y)` is a wall
/// ([`wall_next_to`]).
fn has_wall_beside(a: &Grid<Tile>, x: usize, y: usize, c: usize) -> (r: bool)
    requires
        a.wf(),
        c <= x,
        c <= y,
        x + c < a.w(),
        y + c < a.h(),
    ensures
        r == wall_next_to(a, x as int, y as int, c as int),
{
    let w = a.width();
    let h = a.height();
    let ghost ci = c as int;
    let mut k: usize = 0;
    while k <= 2 * c
        invariant
            a.wf(),
            w == a.w(),
            h == a.h(),
            ci == c,
            c <= x,
            c <= y,
            x + c < w,
            y + c < h,
            k <= 2 * c + 1,
            forall|px: int, py: int|
                beside_square(x as int, y as int, ci, px, py) && a.contains(px, py) && beside_index(
                    x as int,
                    y as int,
                    ci,
                    px,
                    py,
                ) < k ==> #[trigger] a.at(px, py) != Tile::Wall,
        decreases 2 * c + 1 - k,
    {
        let yy = y - c + k;
        let xx = x - c + k;
        if x > c && a.cell(x - c - 1, yy) == Tile::Wall {
            assert(beside_square(x as int, y as int, ci, (x - c - 1) as int, yy as int));
            return true;
        }
        if x + c + 1 < w && a.cell(x + c + 1, yy) == Tile::Wall {
            assert(beside_square(x as int, y as int, ci, (x + c + 1) as int, yy as int));
            return true;
        }
        if y > c && a.cell(xx, y - c - 1) == Tile::Wall {
            assert(beside_square(x as int, y as int, ci, xx as int, (y - c - 1) as int));
            return true;
        }
        if y + c + 1 < h && a.cell(xx, y + c + 1) == Tile::Wall {
            assert(beside_square(x as int, y as int, ci, xx as int, (y + c + 1) as int));
            return true;
        }
        k = k + 1;
    }
    false
}

/// Whether every cell within `c` of `(x, y)` is floor on both grids.
fn clear_site(a: &Grid<Tile>, b: &Grid<Tile>, x: usize, y: usize, c: usize) -> (r: bool)
    requires
        a.wf(),
        b.wf(),
        c <= x,
        c <= y,
        x + c < a.w(),
        y + c < a.h(),
    ensures
        r == stair_site(a, b, x as int, y as int, c as int),
{
    let ghost ci = c as int;
    let aw = a.width();
    let ah = a.height();
    let mut ny: usize = y - c;
    while ny <= y + c
        invariant
            aw == a.w(),
            ah == a.h(),
            ci == c,
            c <= x,
            c <= y,
            y - c <= ny <= y + c + 1,
            x + c < a.w(),
            y + c < a.h(),
            a.wf(),
            b.wf(),
            forall|px: int, py: int|
                x - ci <= px <= x + ci && y - ci <= py < ny ==> #[trigger] a.open_at((px, py)) && b.open_at((px, py)),
        decreases y + c + 1 - ny,
    {
        let mut nx: usize = x - c;
        while nx <= x + c
            invariant
                aw == a.w(),
                ah == a.h(),
                ci == c,
                c <= x,
                c <= y,
                y - c <= ny <= y + c,
                x - c <= nx <= x + c + 1,
                x + c < a.w(),
                y + c < a.h(),
                a.wf(),
                b.wf(),
                forall|px: int, py: int|
                    x - ci <= px <= x + ci && y - ci <= py && (py < ny || (py == ny && px < nx)) ==> #[trigger] a.open_at(
                        (px, py),
                    ) && b.open_at((px, py)),
            decreases x + c + 1 - nx,
        {
            let ok = a.cell(nx, ny).is_floor() && nx < b.width() && ny < b.height() && b.cell(nx, ny).is_floor();
            if !ok {
                proof {
                    assert(!(a.open_at((nx as int, ny as int)) && b.open_at((nx as int, ny as int))));
                    assert(!stair_site(a, b, x as int, y as int, c as int)) by {
                        if stair_site(a, b, x as int, y as int, c as int) {
                            assert(x - ci <= nx <= x + ci && y - ci <= ny <= y + ci);
                            assert(a.open_at((nx as int, ny as int)) && b.open_at((nx as int, ny as int)));
                        }
                    }
                }
                return false;
            }
            nx = nx + 1;
        }
        ny = ny + 1;
    }
    true
}

impl VerticalConnectivity {
    /// No candidates, no stairs, no accessibility data.
    pub fn new() -> (v: VerticalConnectivity)
        ensures
            v.stair_candidates@ == Seq::<StairSpot>::empty(),
            v.stairs@ == Seq::<StairSpot>::empty(),
            v.floor_accessibility@.len() == 0,
    {
        VerticalConnectivity { stair_candidates: Vec::new(), stairs: Vec::new(), floor_accessibility: Vec::new() }
    }

    /// Replaces the candidates with every stair candidate between
    /// consecutive floors (see [`is_stair_candidate`]), ordered by lower
    /// floor, then row, then column.
    pub fn analyze_stair_candidates(&mut self, floor_grids: &[Grid<Tile>], min_clearance: usize)
        requires
            floor_grids@.len() <= u32::MAX,
            min_clearance <= i32::MAX,
            forall|f: int|
                0 <= f < floor_grids@.len() ==> (#[trigger] floor_grids@[f]).wf() && floor_grids@[f].w() <= i32::MAX
                    && floor_grids@[f].h() <= i32::MAX,
        ensures
            forall|k: int|
                0 <= k < final(self).stair_candidates@.len() ==> is_stair_candidate(
                    floor_grids@,
                    min_clearance as int,
                    #[trigger] final(self).stair_candidates@[k],
                ),
            forall|t: StairSpot| #[trigger]
                is_stair_candidate(floor_grids@, min_clearance as int, t) ==> final(self).stair_candidates@.contains(t),
            forall|k1: int, k2: int|
                0 <= k1 < k2 < final(self).stair_candidates@.len() ==> stair_before(
                    #[trigger] final(self).stair_candidates@[k1],
                    #[trigger] final(self).stair_candidates@[k2],
                ),
            final(self).stairs == old(self).stairs,
            final(self).floor_accessibility == old(self).floor_accessibility,
    {
        let c = min_clearance;
        let ghost fs = floor_grids@;
        let ghost ci = c as int;
        let mut out: Vec<StairSpot> = Vec::new();
        let n = floor_grids.len();
        let pairs = if n > 0 {
            n - 1
        } else {
            0
        };
        let mut f: usize = 0;
        while f < pairs
            invariant
                f <= pairs,
                pairs == if n > 0 { n - 1 } else { 0 },
                n == fs.len(),
                fs == floor_grids@,
                ci == c,
                n <= u32::MAX,
                c <= i32::MAX,
                forall|g: int| 0 <= g < n ==> (#[trigger] fs[g]).wf() && fs[g].w() <= i32::MAX && fs[g].h() <= i32::MAX,
                forall|k: int| 0 <= k < out@.len() ==> is_stair_candidate(fs, ci, #[trigger] out@[k]),
                forall|k: int| 0 <= k < out@.len() ==> (#[trigger] out@[k]).2 < f,
                forall|t: StairSpot| #[trigger] is_stair_candidate(fs, ci, t) && t.2 < f ==> out@.contains(t),
                forall|k1: int, k2: int|
                    0 <= k1 < k2 < out@.len() ==> stair_before(#[trigger] out@[k1], #[trigger] out@[k2]),
            decreases n - f,
        {
            let cur = &floor_grids[f];
            let next = &floor_grids[f + 1];
            let w = cur.width();
            let h = cur.height();
            let mut y: usize = c;
            while y + c < h
                invariant
                    y + c <= h || y == c,
                    f + 1 < n,
                    n == fs.len(),
                    fs == floor_grids@,
                    ci == c,
                    c <= y,
                    n <= u32::MAX,
                    c <= i32::MAX,
                    *cur == fs[f as int],
                    *next == fs[f + 1],
                    w == cur.w(),
                    h == cur.h(),
                    forall|g: int| 0 <= g < n ==> (#[trigger] fs[g]).wf() && fs[g].w() <= i32::MAX && fs[g].h() <= i32::MAX,
                    forall|k: int| 0 <= k < out@.len() ==> is_stair_candidate(fs, ci, #[trigger] out@[k]),
                    forall|k: int|
                        0 <= k < out@.len() ==> (#[trigger] out@[k]).2 < f || (out@[k].2 == f && out@[k].1 < y),
                    forall|t: StairSpot|
                        #[trigger] is_stair_candidate(fs, ci, t) && (t.2 < f || (t.2 == f && t.1 < y)) ==> out@.contains(t),
                    forall|k1: int, k2: int|
                        0 <= k1 < k2 < out@.len() ==> stair_before(#[trigger] out@[k1], #[trigger] out@[k2]),
                decreases h - y,
            {
                let mut x: usize = c;
                while x + c < w
                    invariant
                        x + c <= w || x == c,
                        f + 1 < n,
                        n == fs.len(),
                        fs == floor_grids@,
                        ci == c,
                        c <= x,
                        c <= y,
                        y + c < h,
                        n <= u32::MAX,
                        c <= i32::MAX,
                        *cur == fs[f as int],
                        *next == fs[f + 1],
                        w == cur.w(),
                        h == cur.h(),
                        forall|g: int|
                            0 <= g < n ==> (#[trigger] fs[g]).wf() && fs[g].w() <= i32::MAX && fs[g].h() <= i32::MAX,
                        forall|k: int| 0 <= k < out@.len() ==> is_stair_candidate(fs, ci, #[trigger] out@[k]),
                        forall|k: int|
                            0 <= k < out@.len() ==> (#[trigger] out@[k]).2 < f || (out@[k].2 == f && out@[k].1 < y) || (
                            out@[k].2 == f && out@[k].1 == y && out@[k].0 < x),
                        forall|t: StairSpot|
                            #[trigger] is_stair_candidate(fs, ci, t) && (t.2 < f || (t.2 == f && t.1 < y) || (t.2 == f
                                && t.1 == y && t.0 < x)) ==> out@.contains(t),
                        forall|k1: int, k2: int|
                            0 <= k1 < k2 < out@.len() ==> stair_before(#[trigger] out@[k1], #[trigger] out@[k2]),
                    decreases w - x,
                {
                    assert(fs[f as int].wf() && fs[f + 1].wf());
                    if clear_site(cur, next, x, y, c) && has_wall_beside(cur, x, y, c) {
                        let t: StairSpot = (x as u32, y as u32, f as u32, (f + 1) as u32);
                        let ghost o0 = out@;
                        out.push(t);
                        proof {
                            assert(is_stair_candidate(fs, ci, t));
                            assert(out@[o0.len() as int] == t);
                            assert forall|s: StairSpot|
                                #[trigger] is_stair_candidate(fs, ci, s) && (s.2 < f || (s.2 == f && s.1 < y) || (s.2
                                    == f && s.1 == y && s.0 < x + 1)) implies out@.contains(s) by {
                                if s != t {
                                    assert(o0.contains(s));
                                    let k = choose|k: int| 0 <= k < o0.len() && o0[k] == s;
                                    assert(out@[k] == s);
                                }
                            }
                        }
                    } else {
                        proof {
                            let t: StairSpot = (x as u32, y as u32, f as u32, (f + 1) as u32);
                            assert(!is_stair_candidate(fs, ci, t));
                        }
                    }
                    x = x + 1;
                }
                proof {
                    assert forall|t: StairSpot|
                        #[trigger] is_stair_candidate(fs, ci, t) && (t.2 < f || (t.2 == f && t.1 < y + 1)) implies out@.contains(
                        t,
                    ) by {
                        if t.2 == f && t.1 == y {
                            assert(t.0 < x);
                        }
                    }
                }
                y = y + 1;
            }
            proof {
                assert forall|t: StairSpot| #[trigger] is_stair_candidate(fs, ci, t) && t.2 < f + 1 implies out@.contains(t) by {
                    if t.2 == f {
                        assert(t.1 < y);
                    }
                }
            }
            f = f + 1;
        }
        proof {
            assert forall|t: StairSpot| #[trigger] is_stair_candidate(fs, ci, t) implies out@.contains(t) by {
                assert(t.2 < f);
            }
        }
        self.stair_candidates = out;
    }

    /// Replaces the stairs with, for each floor pair in order of first
    /// appearance among the candidates, its first `max_stairs_per_floor`
    /// candidates in candidate order.
    pub fn place_stairs(&mut self, max_stairs_per_floor: usize)
        ensures
            final(self).stairs@ == stairs_for(
                old(self).stair_candidates@,
                first_pairs(old(self).stair_candidates@),
                max_stairs_per_floor as int,
            ),
            final(self).stair_candidates == old(self).stair_candidates,
            final(self).floor_accessibility == old(self).floor_accessibility,
    {
        let ghost cs = self.stair_candidates@;
        let m = max_stairs_per_floor;
        let n = self.stair_candidates.len();
        let mut seen: Vec<(u32, u32)> = Vec::new();
        let mut out: Vec<StairSpot> = Vec::new();
        let mut i: usize = 0;
        while i < n
            invariant
                i <= n,
                n == cs.len(),
                cs == self.stair_candidates@,
                seen@ == first_pairs(cs.take(i as int)),
                out@ == stairs_for(cs, seen@, m as int),
            decreases n - i,
        {
            let t = self.stair_candidates[i];
            let p = (t.2, t.3);
            proof {
                assert(cs.take(i + 1).drop_last() =~= cs.take(i as int));
                assert(cs.take(i + 1).last() == t);
            }
            if !holds_pair(&seen, p) {
                let ghost out0 = out@;
                let mut taken: usize = 0;
                let mut j: usize = 0;
                while j < n
                    invariant
                        j <= n,
                        n == cs.len(),
                        cs == self.stair_candidates@,
                        out@ == out0 + capped(with_pair(cs.take(j as int), p), m as int),
                        taken == capped(with_pair(cs.take(j as int), p), m as int).len(),
                        taken <= m,
                    decreases n - j,
                {
                    let u = self.stair_candidates[j];
                    proof {
                        assert(cs.take(j + 1).drop_last() =~= cs.take(j as int));
                        assert(cs.take(j + 1).last() == u);
                    }
                    if u.2 == p.0 && u.3 == p.1 && taken < m {
                        out.push(u);
                        taken = taken + 1;
                        proof {
                            let r = with_pair(cs.take(j as int), p);
                            assert(r.len() < m);
                            assert(capped(r.push(u), m as int) =~= capped(r, m as int).push(u));
                        }
                    } else if u.2 == p.0 && u.3 == p.1 {
                        proof {
                            let r = with_pair(cs.take(j as int), p);
                            assert(capped(r, m as int).len() == m);
                            assert(capped(r.push(u), m as int) =~= capped(r, m as int));
                        }
                    }
                    j = j + 1;
                }
                proof {
                    assert(cs.take(n as int) =~= cs);
                    assert(seen@.push(p).drop_last() =~= seen@);
                }
                seen.push(p);
            }
            i = i + 1;
        }
        proof {
            assert(cs.take(n as int) =~= cs);
        }
        self.stairs = out;
    }
}

/// Requirements for semantic-driven generation. The keyed lists hold each
/// key at most once.
#[derive(Debug, Clone)]
pub struct SemanticRequirements {
    /// Minimum number of regions of each kind.
    pub min_regions: Vec<(String, usize)>,
    /// Maximum number of regions of each kind.
    pub max_regions: Vec<(String, usize)>,
    /// Required connectivity between region kinds.
    pub required_connections: Vec<(String, String)>,
    /// Minimum total walkable area.
    pub min_walkable_area: Option<usize>,
    /// Required marker types and their minimum counts.
    pub required_markers: Vec<(MarkerType, usize)>,
}

impl SemanticRequirements {
    /// Requirements with no constraints.
    pub fn none() -> (r: SemanticRequirements)
        ensures
            r.min_regions@.len() == 0,
            r.max_regions@.len() == 0,
            r.required_connections@.len() == 0,
            r.min_walkable_area is None,
            r.required_markers@.len() == 0,
    {
        SemanticRequirements {
            min_regions: Vec::new(),
            max_regions: Vec::new(),
            required_connections: Vec::new(),
            min_walkable_area: None,
            required_markers: Vec::new(),
        }
    }

    /// Basic dungeon requirements: at least three rooms, rooms connected to
    /// corridors, one spawn and one exit.
    pub fn basic_dungeon() -> (r: SemanticRequirements)
        ensures
            r.min_regions@.len() == 1,
            r.min_regions@[0].0@ == "room"@,
            r.min_regions@[0].1 == 3,
            r.max_regions@.len() == 0,
            r.required_connections@.len() == 1,
            r.required_connections@[0].0@ == "room"@,
            r.required_connections@[0].1@ == "corridor"@,
            r.min_walkable_area is None,
            r.required_markers@ == seq![(MarkerType::Spawn, 1usize), (MarkerType::Exit, 1usize)],
    {
        let mut req = Self::none();
        req.min_regions.push((String::from_str("room"), 3));
        req.required_connections.push((String::from_str("room"), String::from_str("corridor")));
        req.required_markers.push((MarkerType::Spawn, 1));
        req.required_markers.push((MarkerType::Exit, 1));
        req
    }
}

/// Whether two marker types are the same, custom tags compared by text.
pub open spec fn same_marker(a: MarkerType, b: MarkerType) -> bool {
    match (a, b) {
        (MarkerType::Custom(s), MarkerType::Custom(t)) => s@ == t@,
        (MarkerType::Custom(_), _) => false,
        (_, MarkerType::Custom(_)) => false,
        _ => a == b,
    }
}

/// Number of regions of `rs` whose kind is `kind`.
pub open spec fn kind_count(rs: Seq<Region>, kind: Seq<char>) -> nat
    decreases rs.len(),
{
    if rs.len() == 0 {
        0
    } else {
        kind_count(rs.drop_last(), kind) + if rs.last().kind@ == kind { 1nat } else { 0nat }
    }
}

/// Number of entries of `ms` that are the marker type `m`.
pub open spec fn marker_count(ms: Seq<MarkerType>, m: MarkerType) -> nat
    decreases ms.len(),
{
    if ms.len() == 0 {
        0
    } else {
        marker_count(ms.drop_last(), m) + if same_marker(ms.last(), m) { 1nat } else { 0nat }
    }
}

/// Whether two marker types are the same, custom tags compared by text.
fn marker_eq(a: &MarkerType, b: &MarkerType) -> (r: bool)
    ensures
        r == same_marker(*a, *b),
{
    match (a, b) {
        (MarkerType::Spawn, MarkerType::Spawn) => true,
        (MarkerType::Exit, MarkerType::Exit) => true,
        (MarkerType::QuestObjective { priority: p }, MarkerType::QuestObjective { priority: q }) => *p == *q,
        (MarkerType::QuestStart, MarkerType::QuestStart) => true,
        (MarkerType::QuestEnd, MarkerType::QuestEnd) => true,
        (MarkerType::LootTier { tier: p }, MarkerType::LootTier { tier: q }) => *p == *q,
        (MarkerType::Treasure, MarkerType::Treasure) => true,
        (MarkerType::EncounterZone { difficulty: p }, MarkerType::EncounterZone { difficulty: q }) => *p == *q,
        (MarkerType::BossRoom, MarkerType::BossRoom) => true,
        (MarkerType::SafeZone, MarkerType::SafeZone) => true,
        (MarkerType::Custom(s), MarkerType::Custom(t)) => *s == *t,
        _ => false,
    }
}

/// Number of regions of kind `kind`.
fn count_kind(regions: &[Region], kind: &String) -> (r: usize)
    ensures
        r == kind_count(regions@, kind@),
{
    let mut c: usize = 0;
    let mut i: usize = 0;
    while i < regions.len()
        invariant
            i <= regions@.len(),
            c == kind_count(regions@.take(i as int), kind@),
            c <= i,
        decreases regions@.len() - i,
    {
        proof {
            assert(regions@.take(i + 1).drop_last() =~= regions@.take(i as int));
        }
        if regions[i].kind == *kind {
            c = c + 1;
        }
        i = i + 1;
    }
    proof {
        assert(regions@.take(regions@.len() as int) =~= regions@);
    }
    c
}

/// Number of markers of type `m`.
fn count_marker(markers: &[MarkerType], m: &MarkerType) -> (r: usize)
    ensures
        r == marker_count(markers@, *m),
{
    let mut c: usize = 0;
    let mut i: usize = 0;
    while i < markers.len()
        invariant
            i <= markers@.len(),
            c == marker_count(markers@.take(i as int), *m),
            c <= i,
        decreases markers@.len() - i,
    {
        proof {
            assert(markers@.take(i + 1).drop_last() =~= markers@.take(i as int));
        }
        if marker_eq(&markers[i], m) {
            c = c + 1;
        }
        i = i + 1;
    }
    proof {
        assert(markers@.take(markers@.len() as int) =~= markers@);
    }
    c
}

impl SemanticRequirements {
    /// Whether `regions` and the marker types `markers` meet the minimum
    /// region counts per kind and the minimum marker counts per type (the
    /// other requirements are not checked).
    pub fn validate(&self, regions: &[Region], markers: &[MarkerType]) -> (r: bool)
        ensures
            r == ((forall|i: int|
                0 <= i < self.min_regions@.len() ==> kind_count(regions@, (#[trigger] self.min_regions@[i]).0@)
                    >= self.min_regions@[i].1) && (forall|i: int|
                0 <= i < self.required_markers@.len() ==> marker_count(
                    markers@,
                    (#[trigger] self.required_markers@[i]).0,
                ) >= self.required_markers@[i].1)),
    {
        let mut i: usize = 0;
        while i < self.min_regions.len()
            invariant
                i <= self.min_regions@.len(),
                forall|j: int|
                    0 <= j < i ==> kind_count(regions@, (#[trigger] self.min_regions@[j]).0@) >= self.min_regions@[j].1,
            decreases self.min_regions@.len() - i,
        {
            let n = count_kind(regions, &self.min_regions[i].0);
            if n < self.min_regions[i].1 {
                return false;
            }
            i = i + 1;
        }
        let mut i: usize = 0;
        while i < self.required_markers.len()
            invariant
                i <= self.required_markers@.len(),
                forall|j: int|
                    0 <= j < self.min_regions@.len() ==> kind_count(regions@, (#[trigger] self.min_regions@[j]).0@)
                        >= self.min_regions@[j].1,
                forall|j: int|
                    0 <= j < i ==> marker_count(markers@, (#[trigger] self.required_markers@[j]).0)
                        >= self.required_markers@[j].1,
            decreases self.required_markers@.len() - i,
        {
            let n = count_marker(markers, &self.required_markers[i].0);
            if n < self.required_markers[i].1 {
                return false;
            }
            i = i + 1;
        }
        true
    }
}

/// The positions of the entries of `ms` whose marker type is `t`, in order.
pub open spec fn positions_of(ms: Seq<(MarkerType, (u32, u32))>, t: MarkerType) -> Seq<(usize, usize)>
    decreases ms.len(),
{
    if ms.len() == 0 {
        seq![]
    } else if same_marker(ms.last().0, t) {
        positions_of(ms.drop_last(), t).push((ms.last().1.0 as usize, ms.last().1.1 as usize))
    } else {
        positions_of(ms.drop_last(), t)
    }
}

/// The positions of the markers of type `t` among `markers` (each a type
/// and a position), in marker order.
pub fn marker_positions(markers: &Vec<(MarkerType, (u32, u32))>, t: &MarkerType) -> (r: Vec<(usize, usize)>)
    ensures
        r@ == positions_of(markers@, *t),
{
    let mut out: Vec<(usize, usize)> = Vec::new();
    let mut i: usize = 0;
    while i < markers.len()
        invariant
            i <= markers@.len(),
            out@ == positions_of(markers@.take(i as int), *t),
        decreases markers@.len() - i,
    {
        proof {
            assert(markers@.take(i + 1).drop_last() =~= markers@.take(i as int));
            assert(markers@.take(i + 1).last() == markers@[i as int]);
        }
        if marker_eq(&markers[i].0, t) {
            let p = markers[i].1;
            out.push((p.0 as usize, p.1 as usize));
        }
        i = i + 1;
    }
    proof {
        assert(markers@.take(markers@.len() as int) =~= markers@);
    }
    out
}

} // verus!

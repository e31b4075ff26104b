//! Simple rectangular rooms joined by L-shaped corridors.

use crate::grid::{cell_index, Cell, Grid, TileCell};
use crate::rng::{after_u64, chacha_usize_in, u64_at, Rng, HALF_U64};
use vstd::prelude::*;

verus! {

/// Configuration for simple room placement.
#[derive(Debug, Clone)]
pub struct SimpleRoomsConfig {
    pub min_room_size: usize,
    pub max_room_size: usize,
    pub max_rooms: usize,
    pub min_spacing: usize,
}

impl Default for SimpleRoomsConfig {
    fn default() -> (r: SimpleRoomsConfig)
        ensures
            r.min_room_size == 4,
            r.max_room_size == 10,
            r.max_rooms == 10,
            r.min_spacing == 1,
    {
        SimpleRoomsConfig { min_room_size: 4, max_room_size: 10, max_rooms: 10, min_spacing: 1 }
    }
}

/// Simple room placement algorithm.
pub struct SimpleRooms {
    config: SimpleRoomsConfig,
}

impl SimpleRooms {
    pub fn new(config: SimpleRoomsConfig) -> (r: SimpleRooms)
        ensures
            r.config() == config,
    {
        SimpleRooms { config }
    }

    pub closed spec fn config(&self) -> SimpleRoomsConfig {
        self.config
    }
}

impl Default for SimpleRooms {
    fn default() -> (r: SimpleRooms)
        ensures
            r.config().min_room_size == 4,
            r.config().max_room_size == 10,
            r.config().max_rooms == 10,
            r.config().min_spacing == 1,
    {
        SimpleRooms::new(SimpleRoomsConfig::default())
    }
}

/// A placed room: top-left corner and size.
#[derive(Clone, Copy)]
pub struct Room {
    pub x: usize,
    pub y: usize,
    pub w: usize,
    pub h: usize,
}

/// The rooms overlap once each is grown by `s` cells on its right and
/// bottom sides.
pub open spec fn rooms_meet(a: Room, b: Room, s: int) -> bool {
    !(a.x + a.w + s < b.x || b.x + b.w + s < a.x || a.y + a.h + s < b.y || b.y + b.h + s < a.y)
}

/// Cells `p` and `q` lie within `d` of each other along both axes.
pub open spec fn cells_within(p: (int, int), q: (int, int), d: int) -> bool {
    -d <= p.0 - q.0 <= d && -d <= p.1 - q.1 <= d
}

/// Rooms with spacing `s` clash whenever a cell of one lies within `s + 1`
/// of a cell of the other along both axes; in particular rooms that share a
/// cell clash, whichever of the two lies up or left of the other.
pub proof fn law_close_rooms_clash(a: Room, b: Room, s: int, p: (int, int), q: (int, int))
    requires
        s >= 0,
        in_room(a, p.0, p.1),
        in_room(b, q.0, q.1),
        cells_within(p, q, s + 1),
    ensures
        rooms_meet(a, b, s),
        rooms_meet(b, a, s),
{
}

/// Rooms (each at least one cell) clash only when some cell of one lies
/// within `s + 1` of some cell of the other along both axes.
pub proof fn law_clashing_rooms_are_close(a: Room, b: Room, s: int) -> (pq: ((int, int), (int, int)))
    requires
        s >= 0,
        a.w >= 1,
        a.h >= 1,
        b.w >= 1,
        b.h >= 1,
        rooms_meet(a, b, s),
    ensures
        in_room(a, pq.0.0, pq.0.1),
        in_room(b, pq.1.0, pq.1.1),
        cells_within(pq.0, pq.1, s + 1),
{
    let (px, qx) = if b.x >= a.x + a.w {
        (a.x + a.w - 1, b.x as int)
    } else if a.x >= b.x + b.w {
        (a.x as int, b.x + b.w - 1)
    } else if a.x >= b.x {
        (a.x as int, a.x as int)
    } else {
        (b.x as int, b.x as int)
    };
    let (py, qy) = if b.y >= a.y + a.h {
        (a.y + a.h - 1, b.y as int)
    } else if a.y >= b.y + b.h {
        (a.y as int, b.y + b.h - 1)
    } else if a.y >= b.y {
        (a.y as int, a.y as int)
    } else {
        (b.y as int, b.y as int)
    };
    ((px, py), (qx, qy))
}

/// Any two rooms of a placed layout keep apart: every cell of one lies more
/// than `s + 1` away from every cell of the other along some axis, so they
/// share no cell and leave at least `s` cells between them.
pub proof fn law_placed_rooms_apart(
    rooms: Seq<Room>,
    gw: int,
    gh: int,
    s: int,
    i: int,
    j: int,
    p: (int, int),
    q: (int, int),
)
    requires
        rooms_placed(rooms, gw, gh, s),
        s >= 0,
        0 <= i < rooms.len(),
        0 <= j < rooms.len(),
        i != j,
        in_room(rooms[i], p.0, p.1),
        in_room(rooms[j], q.0, q.1),
    ensures
        !cells_within(p, q, s + 1),
        p != q,
{
    if cells_within(p, q, s + 1) {
        law_close_rooms_clash(rooms[i], rooms[j], s, p, q);
        if i < j {
            assert(!rooms_meet(rooms[i], rooms[j], s));
        } else {
            assert(!rooms_meet(rooms[j], rooms[i], s));
        }
    }
}

impl Room {
    /// Whether the rooms come closer than `spacing` (see [`rooms_meet`]).
    pub fn intersects(&self, other: &Room, spacing: usize) -> (r: bool)
        requires
            self.x + self.w + spacing <= usize::MAX,
            other.x + other.w + spacing <= usize::MAX,
            self.y + self.h + spacing <= usize::MAX,
            other.y + other.h + spacing <= usize::MAX,
        ensures
            r == rooms_meet(*self, *other, spacing as int),
            forall|p: (int, int), q: (int, int)|
                in_room(*self, p.0, p.1) && in_room(*other, q.0, q.1) && #[trigger] cells_within(p, q, spacing + 1)
                    ==> r,
            r && self.w >= 1 && self.h >= 1 && other.w >= 1 && other.h >= 1 ==> exists|p: (int, int), q: (int, int)|
                in_room(*self, p.0, p.1) && in_room(*other, q.0, q.1) && #[trigger] cells_within(p, q, spacing + 1),
    {
        proof {
            assert forall|p: (int, int), q: (int, int)|
                in_room(*self, p.0, p.1) && in_room(*other, q.0, q.1) && #[trigger] cells_within(p, q, spacing + 1)
                    implies rooms_meet(*self, *other, spacing as int) by {
                law_close_rooms_clash(*self, *other, spacing as int, p, q);
            }
            if rooms_meet(*self, *other, spacing as int) && self.w >= 1 && self.h >= 1 && other.w >= 1 && other.h >= 1 {
                let pq = law_clashing_rooms_are_close(*self, *other, spacing as int);
                assert(cells_within(pq.0, pq.1, spacing + 1));
            }
        }
        let s = spacing;
        !((self.x + self.w + s) < other.x || (other.x + other.w + s) < self.x || (self.y + self.h + s)
            < other.y || (other.y + other.h + s) < self.y)
    }

    /// The centre cell.
    pub fn center(&self) -> (r: (usize, usize))
        requires
            self.x + self.w <= usize::MAX,
            self.y + self.h <= usize::MAX,
        ensures
            r.0 == self.x + self.w / 2,
            r.1 == self.y + self.h / 2,
    {
        (self.x + self.w / 2, self.y + self.h / 2)
    }
}

/// Floors row `y` from column `x1` to column `x2` (both included, any order).
pub fn carve_h_corridor(grid: &mut Grid<TileCell>, x1: usize, x2: usize, y: usize)
    requires
        old(grid).wf(),
        x1 < old(grid).w(),
        x2 < old(grid).w(),
        y < old(grid).h(),
        old(grid).w() <= i32::MAX,
        old(grid).h() <= i32::MAX,
    ensures
        final(grid).wf(),
        final(grid).w() == old(grid).w(),
        final(grid).h() == old(grid).h(),
        forall|px: int, py: int|
            old(grid).contains(px, py) ==> #[trigger] final(grid).at(px, py) == if py == y && ((x1 <= px <= x2)
                || (x2 <= px <= x1)) {
                TileCell::floor_cell()
            } else {
                old(grid).at(px, py)
            },
{
    let ghost g0 = *grid;
    let (start, end) = if x1 < x2 { (x1, x2) } else { (x2, x1) };
    let mut x = start;
    while x <= end
        invariant
            start <= x <= end + 1,
            end < g0.w(),
            y < g0.h(),
            start == if x1 < x2 { x1 } else { x2 },
            end == if x1 < x2 { x2 } else { x1 },
            g0.w() <= i32::MAX,
            g0.h() <= i32::MAX,
            grid.wf(),
            grid.w() == g0.w(),
            grid.h() == g0.h(),
            forall|px: int, py: int|
                g0.contains(px, py) ==> #[trigger] grid.at(px, py) == if py == y && start <= px < x {
                    TileCell::floor_cell()
                } else {
                    g0.at(px, py)
                },
        decreases end + 1 - x,
    {
        grid.set(x as i32, y as i32, TileCell::floor());
        x = x + 1;
    }
}

/// Floors column `x` from row `y1` to row `y2` (both included, any order).
pub fn carve_v_corridor(grid: &mut Grid<TileCell>, y1: usize, y2: usize, x: usize)
    requires
        old(grid).wf(),
        y1 < old(grid).h(),
        y2 < old(grid).h(),
        x < old(grid).w(),
        old(grid).w() <= i32::MAX,
        old(grid).h() <= i32::MAX,
    ensures
        final(grid).wf(),
        final(grid).w() == old(grid).w(),
        final(grid).h() == old(grid).h(),
        forall|px: int, py: int|
            old(grid).contains(px, py) ==> #[trigger] final(grid).at(px, py) == if px == x && ((y1 <= py <= y2)
                || (y2 <= py <= y1)) {
                TileCell::floor_cell()
            } else {
                old(grid).at(px, py)
            },
{
    let ghost g0 = *grid;
    let (start, end) = if y1 < y2 { (y1, y2) } else { (y2, y1) };
    let mut y = start;
    while y <= end
        invariant
            start <= y <= end + 1,
            end < g0.h(),
            x < g0.w(),
            start == if y1 < y2 { y1 } else { y2 },
            end == if y1 < y2 { y2 } else { y1 },
            g0.w() <= i32::MAX,
            g0.h() <= i32::MAX,
            grid.wf(),
            grid.w() == g0.w(),
            grid.h() == g0.h(),
            forall|px: int, py: int|
                g0.contains(px, py) ==> #[trigger] grid.at(px, py) == if px == x && start <= py < y {
                    TileCell::floor_cell()
                } else {
                    g0.at(px, py)
                },
        decreases end + 1 - y,
    {
        grid.set(x as i32, y as i32, TileCell::floor());
        y = y + 1;
    }
}

/// Every room lies in the interior (at least one cell from each edge) of a
/// `gw` by `gh` grid, and no two rooms meet with the given spacing.
pub open spec fn rooms_placed(rooms: Seq<Room>, gw: int, gh: int, s: int) -> bool {
    &&& forall|i: int|
        0 <= i < rooms.len() ==> {
            let r = #[trigger] rooms[i];
            &&& 1 <= r.x
            &&& r.x + r.w <= gw - 1
            &&& 1 <= r.y
            &&& r.y + r.h <= gh - 1
            &&& r.x < gw - 1
            &&& r.y < gh - 1
        }
    &&& forall|i: int, j: int| 0 <= i < j < rooms.len() ==> !rooms_meet(#[trigger] rooms[i], #[trigger] rooms[j], s)
}

/// The centre cell of a room.
pub open spec fn room_center(r: Room) -> (int, int) {
    (r.x + r.w / 2, r.y + r.h / 2)
}

/// `(x, y)` lies inside room `r`.
pub open spec fn in_room(r: Room, x: int, y: int) -> bool {
    r.x <= x < r.x + r.w && r.y <= y < r.y + r.h
}

/// `(x, y)` lies on row `row` between columns `a` and `b`, both included.
pub open spec fn on_row(a: int, b: int, row: int, x: int, y: int) -> bool {
    y == row && ((a <= x <= b) || (b <= x <= a))
}

/// `(x, y)` lies on column `col` between rows `a` and `b`, both included.
pub open spec fn on_column(a: int, b: int, col: int, x: int, y: int) -> bool {
    x == col && ((a <= y <= b) || (b <= y <= a))
}

/// `(x, y)` lies on the L-shaped corridor from the centre of `prev` to the
/// centre of `room`: along the row of `prev`'s centre and then the column of
/// `room`'s centre when `h_first`, else along the column of `prev`'s centre
/// and then the row of `room`'s centre.
pub open spec fn on_link(prev: Room, room: Room, h_first: bool, x: int, y: int) -> bool {
    let p = room_center(prev);
    let c = room_center(room);
    if h_first {
        on_row(p.0, c.0, p.1, x, y) || on_column(p.1, c.1, c.0, x, y)
    } else {
        on_column(p.1, c.1, p.0, x, y) || on_row(p.0, c.0, c.1, x, y)
    }
}

/// Room `k` of the layout, or the corridor that joins it to room `k - 1`,
/// covers `(x, y)`.
pub open spec fn step_covers(rooms: Seq<Room>, h_first: Seq<bool>, k: int, x: int, y: int) -> bool {
    in_room(rooms[k], x, y) || (k > 0 && on_link(rooms[k - 1], rooms[k], h_first[k], x, y))
}

/// One of the first `n` rooms of the layout, or their corridors, covers `(x, y)`.
pub open spec fn layout_covers(rooms: Seq<Room>, h_first: Seq<bool>, n: int, x: int, y: int) -> bool {
    exists|k: int| 0 <= k < n && #[trigger] step_covers(rooms, h_first, k, x, y)
}

/// `new` is `old` with floor on every cell that the first `n` rooms of the
/// layout and their corridors cover, and no other change.
pub open spec fn carved(
    old: Grid<TileCell>,
    new: Grid<TileCell>,
    rooms: Seq<Room>,
    h_first: Seq<bool>,
    n: int,
) -> bool {
    &&& new.wf()
    &&& new.w() == old.w()
    &&& new.h() == old.h()
    &&& forall|x: int, y: int|
        old.contains(x, y) ==> #[trigger] new.at(x, y) == if layout_covers(rooms, h_first, n, x, y) {
            TileCell::floor_cell()
        } else {
            old.at(x, y)
        }
}

/// Room `r` lies inside a `gw` by `gh` grid, its corner cell included.
pub open spec fn room_fits(r: Room, gw: int, gh: int) -> bool {
    r.x + r.w <= gw && r.y + r.h <= gh && r.x < gw && r.y < gh
}

/// Lays the rooms of a layout on the grid: each room is floored, and each
/// room after the first is joined to the one before it by an L-shaped
/// corridor whose first leg is horizontal where `h_first` says so.
pub fn carve_rooms(grid: &mut Grid<TileCell>, rooms: &Vec<Room>, h_first: &Vec<bool>)
    requires
        old(grid).wf(),
        old(grid).w() <= i32::MAX,
        old(grid).h() <= i32::MAX,
        rooms@.len() == h_first@.len(),
        forall|k: int| 0 <= k < rooms@.len() ==> room_fits(#[trigger] rooms@[k], old(grid).w() as int, old(grid).h() as int),
    ensures
        carved(*old(grid), *final(grid), rooms@, h_first@, rooms@.len() as int),
{
    let ghost g0 = *grid;
    let n = rooms.len();
    let mut i: usize = 0;
    while i < n
        invariant
            n == rooms@.len(),
            n == h_first@.len(),
            i <= n,
            g0.wf(),
            g0.w() <= i32::MAX,
            g0.h() <= i32::MAX,
            forall|k: int| 0 <= k < n ==> room_fits(#[trigger] rooms@[k], g0.w() as int, g0.h() as int),
            carved(g0, *grid, rooms@, h_first@, i as int),
        decreases n - i,
    {
        let room = rooms[i];
        let ghost g1 = *grid;
        assert(room_fits(rooms@[i as int], g0.w() as int, g0.h() as int));
        grid.fill_rect(room.x as i32, room.y as i32, room.w, room.h, TileCell::floor());
        let ghost g2 = *grid;
        if i > 0 {
            let prev = rooms[i - 1];
            assert(room_fits(rooms@[i - 1], g0.w() as int, g0.h() as int));
            let (cx, cy) = room.center();
            let (px, py) = prev.center();
            if h_first[i] {
                carve_h_corridor(grid, px, cx, py);
                carve_v_corridor(grid, py, cy, cx);
            } else {
                carve_v_corridor(grid, py, cy, px);
                carve_h_corridor(grid, px, cx, cy);
            }
        }
        proof {
            assert forall|x: int, y: int| g0.contains(x, y) implies #[trigger] grid.at(x, y) == if layout_covers(
                rooms@,
                h_first@,
                i + 1,
                x,
                y,
            ) {
                TileCell::floor_cell()
            } else {
                g0.at(x, y)
            } by {
                assert(g1.at(x, y) == if layout_covers(rooms@, h_first@, i as int, x, y) {
                    TileCell::floor_cell()
                } else {
                    g0.at(x, y)
                });
                assert(g2.at(x, y) == if in_room(rooms@[i as int], x, y) {
                    TileCell::floor_cell()
                } else {
                    g1.at(x, y)
                });
                if step_covers(rooms@, h_first@, i as int, x, y) {
                    assert(layout_covers(rooms@, h_first@, i + 1, x, y));
                } else if layout_covers(rooms@, h_first@, i as int, x, y) {
                    let k = choose|k: int| 0 <= k < i && #[trigger] step_covers(rooms@, h_first@, k, x, y);
                    assert(layout_covers(rooms@, h_first@, i + 1, x, y));
                } else {
                    assert forall|k: int| 0 <= k < i + 1 implies !#[trigger] step_covers(rooms@, h_first@, k, x, y) by {
                        if k < i {
                            assert(!layout_covers(rooms@, h_first@, i as int, x, y));
                        }
                    }
                }
            }
        }
        i = i + 1;
    }
}

/// The layout's rooms lie in the interior of a `gw` by `gh` grid and have
/// sides between `lo` and `hi`; the grid's outer ring is outside every room
/// and corridor.
proof fn lemma_layout_interior(rooms: Seq<Room>, h_first: Seq<bool>, gw: int, gh: int, s: int, x: int, y: int)
    requires
        rooms_placed(rooms, gw, gh, s),
        layout_covers(rooms, h_first, rooms.len() as int, x, y),
    ensures
        1 <= x < gw - 1,
        1 <= y < gh - 1,
{
    let k = choose|k: int| 0 <= k < rooms.len() && #[trigger] step_covers(rooms, h_first, k, x, y);
    let r = rooms[k];
    if k > 0 {
        let q = rooms[k - 1];
        assert(1 <= q.x && q.x + q.w <= gw - 1 && 1 <= q.y && q.y + q.h <= gh - 1 && q.x < gw - 1 && q.y < gh - 1);
    }
    assert(1 <= r.x && r.x + r.w <= gw - 1 && 1 <= r.y && r.y + r.h <= gh - 1 && r.x < gw - 1 && r.y < gh - 1);
}

/// Room `room` comes closer than spacing `s` to one of `rooms`.
pub open spec fn clashes(rooms: Seq<Room>, room: Room, s: int) -> bool {
    exists|j: int| 0 <= j < rooms.len() && rooms_meet(#[trigger] rooms[j], room, s)
}

/// One placement attempt on a `gw` by `gh` grid, from the rooms and corridor
/// flags so far and the word position of the next draw on the stream of
/// `seed`: draw a width and a height; if the room fits the interior, draw
/// its corner; keep it unless it clashes, and for every room after the
/// first draw whether its corridor leaves horizontally (a [`Rng::coin`]).
pub open spec fn rooms_attempt(
    c: SimpleRoomsConfig,
    gw: usize,
    gh: usize,
    seed: u64,
    st: (Seq<Room>, Seq<bool>, u128),
) -> (Seq<Room>, Seq<bool>, u128) {
    let rooms = st.0;
    let hs = st.1;
    let dw = chacha_usize_in(seed, st.2, c.min_room_size, (c.max_room_size + 1) as usize, usize::BITS);
    let dh = chacha_usize_in(seed, dw.1, c.min_room_size, (c.max_room_size + 1) as usize, usize::BITS);
    let w = dw.0;
    let h = dh.0;
    if w + 2 >= gw || h + 2 >= gh {
        (rooms, hs, dh.1)
    } else {
        let dx = chacha_usize_in(seed, dh.1, 1, (gw - w - 1) as usize, usize::BITS);
        let dy = chacha_usize_in(seed, dx.1, 1, (gh - h - 1) as usize, usize::BITS);
        let room = Room { x: dx.0, y: dy.0, w, h };
        if clashes(rooms, room, c.min_spacing as int) {
            (rooms, hs, dy.1)
        } else if rooms.len() > 0 {
            (rooms.push(room), hs.push(u64_at(seed, dy.1) < HALF_U64), after_u64(seed, dy.1))
        } else {
            (rooms.push(room), hs.push(false), dy.1)
        }
    }
}

/// The layout after `n` placement attempts from the start of the stream of
/// `seed`; attempts stop changing it once `max_rooms` rooms stand.
pub open spec fn rooms_drawn(c: SimpleRoomsConfig, gw: usize, gh: usize, seed: u64, n: nat) -> (
    Seq<Room>,
    Seq<bool>,
    u128,
)
    decreases n,
{
    if n == 0 {
        (Seq::empty(), Seq::empty(), 0)
    } else {
        let st = rooms_drawn(c, gw, gh, seed, (n - 1) as nat);
        if st.0.len() >= c.max_rooms {
            st
        } else {
            rooms_attempt(c, gw, gh, seed, st)
        }
    }
}

/// Once `max_rooms` rooms stand, further attempts change nothing.
proof fn lemma_rooms_full(c: SimpleRoomsConfig, gw: usize, gh: usize, seed: u64, n: nat, m: nat)
    requires
        n <= m,
        rooms_drawn(c, gw, gh, seed, n).0.len() >= c.max_rooms,
    ensures
        rooms_drawn(c, gw, gh, seed, m) == rooms_drawn(c, gw, gh, seed, n),
    decreases m - n,
{
    if n < m {
        lemma_rooms_full(c, gw, gh, seed, n, (m - 1) as nat);
    }
}

/// What [`SimpleRooms::generate`] makes of the grid `g0` with `seed`: the
/// layout is the one the stream of `seed` draws in `3 * max_rooms`
/// attempts, and `g1` is `g0` carved by it.
pub open spec fn rooms_outcome(c: SimpleRoomsConfig, seed: u64, g0: Grid<TileCell>, g1: Grid<TileCell>) -> bool {
    &&& exists|rooms: Seq<Room>, h_first: Seq<bool>|
            {
                &&& rooms == rooms_drawn(c, g0.w() as usize, g0.h() as usize, seed, (c.max_rooms * 3) as nat).0
                &&& h_first == rooms_drawn(c, g0.w() as usize, g0.h() as usize, seed, (c.max_rooms * 3) as nat).1
                &&& rooms.len() == h_first.len()
                &&& rooms.len() <= c.max_rooms
                &&& rooms_placed(rooms, g0.w() as int, g0.h() as int, c.min_spacing as int)
                &&& forall|k: int|
                    0 <= k < rooms.len() ==> c.min_room_size <= (#[trigger] rooms[k]).w
                        <= c.max_room_size && c.min_room_size <= rooms[k].h
                        <= c.max_room_size
                &&& carved(g0, g1, rooms, h_first, rooms.len() as int)
                &&& c.max_rooms > 0 && c.max_room_size + 2 < g0.w()
                    && c.max_room_size + 2 < g0.h() ==> rooms.len() >= 1
            }
    &&& g0.grows_to(&g1)
    &&& g0.same_outside(&g1, 1, 1, g0.w() - 1, g0.h() - 1)
    &&& c.max_rooms > 0 && c.min_room_size >= 1 && c.max_room_size + 2 < g0.w() && c.max_room_size + 2 < g0.h() ==> exists|x: int, y: int|
            g0.contains(x, y) && #[trigger] g1.at(x, y) == TileCell::floor_cell()
}

/// Simple rooms are deterministic: the same configuration, seed and grid
/// give the same result.
pub proof fn law_rooms_deterministic(
    c: SimpleRoomsConfig,
    seed: u64,
    g0: Grid<TileCell>,
    g1: Grid<TileCell>,
    g2: Grid<TileCell>,
)
    requires
        rooms_outcome(c, seed, g0, g1),
        rooms_outcome(c, seed, g0, g2),
    ensures
        g1.cells() == g2.cells(),
{
    let d = rooms_drawn(c, g0.w() as usize, g0.h() as usize, seed, (c.max_rooms * 3) as nat);
    let (r1, f1) = choose|rooms: Seq<Room>, h_first: Seq<bool>|
        rooms == d.0 && h_first == d.1 && #[trigger] carved(g0, g1, rooms, h_first, rooms.len() as int);
    let (r2, f2) = choose|rooms: Seq<Room>, h_first: Seq<bool>|
        rooms == d.0 && h_first == d.1 && #[trigger] carved(g0, g2, rooms, h_first, rooms.len() as int);
    assert forall|x: int, y: int| g2.contains(x, y) implies #[trigger] g2.at(x, y) == g1.cells()[cell_index(
        g2.w() as int,
        x,
        y,
    )] by {
        assert(g1.at(x, y) == g2.at(x, y));
    }
    g2.lemma_cells_match(g1.cells());
}

/// The rooms that simple room placement carves keep apart: the grid is
/// carved by a layout in which every cell of one room lies more than
/// `min_spacing + 1` away from every cell of any other room along some
/// axis, so no two rooms overlap.
pub proof fn law_rooms_keep_apart(c: SimpleRoomsConfig, seed: u64, g0: Grid<TileCell>, g1: Grid<TileCell>)
    requires
        rooms_outcome(c, seed, g0, g1),
    ensures
        exists|rooms: Seq<Room>, h_first: Seq<bool>|
            #![trigger carved(g0, g1, rooms, h_first, rooms.len() as int)]
            carved(g0, g1, rooms, h_first, rooms.len() as int) && forall|i: int, j: int, p: (int, int), q: (int, int)|
                0 <= i < rooms.len() && 0 <= j < rooms.len() && i != j && #[trigger] in_room(rooms[i], p.0, p.1)
                    && #[trigger] in_room(rooms[j], q.0, q.1) ==> !cells_within(p, q, c.min_spacing + 1),
{
    let (rooms, h_first) = choose|rooms: Seq<Room>, h_first: Seq<bool>|
        rooms.len() == h_first.len() && rooms_placed(rooms, g0.w() as int, g0.h() as int, c.min_spacing as int)
            && carved(g0, g1, rooms, h_first, rooms.len() as int);
    assert forall|i: int, j: int, p: (int, int), q: (int, int)|
        0 <= i < rooms.len() && 0 <= j < rooms.len() && i != j && #[trigger] in_room(rooms[i], p.0, p.1)
            && #[trigger] in_room(rooms[j], q.0, q.1) implies !cells_within(p, q, c.min_spacing + 1) by {
        law_placed_rooms_apart(rooms, g0.w() as int, g0.h() as int, c.min_spacing as int, i, j, p, q);
    }
    assert(carved(g0, g1, rooms, h_first, rooms.len() as int));
}

impl SimpleRooms {
    /// Places up to `max_rooms` rooms at random interior positions, never two
    /// closer than `min_spacing`, each with sides between `min_room_size` and
    /// `max_room_size`, joining each new room to the previous one with an
    /// L-shaped corridor between their centres. The grid changes exactly by
    /// [`carve_rooms`] of that layout; only interior cells change, only to floor.
    pub fn generate(&self, grid: &mut Grid<TileCell>, seed: u64)
        requires
            old(grid).wf(),
            old(grid).w() + self.config().min_spacing <= i32::MAX,
            old(grid).h() + self.config().min_spacing <= i32::MAX,
            self.config().min_room_size <= self.config().max_room_size <= usize::MAX - 2,
            self.config().max_rooms * 3 <= usize::MAX,
        ensures
            rooms_outcome(self.config(), seed, *old(grid), *final(grid)),
    {
        let ghost g0 = *grid;
        let mut rng = Rng::new(seed);
        let mut rooms: Vec<Room> = Vec::new();
        let mut h_first: Vec<bool> = Vec::new();
        let cfg = &self.config;
        let gw = grid.width();
        let gh = grid.height();
        let attempts = cfg.max_rooms * 3;
        let ghost sure = cfg.max_rooms > 0 && cfg.max_room_size + 2 < gw && cfg.max_room_size + 2 < gh;
        let mut attempt: usize = 0;
        while attempt < attempts
            invariant
                attempts == cfg.max_rooms * 3,
                sure == (cfg.max_rooms > 0 && cfg.max_room_size + 2 < gw && cfg.max_room_size + 2 < gh),
                sure ==> attempt == 0 || rooms@.len() >= 1,
                sure && attempt == 0 ==> rooms@.len() == 0,
                rng.seed_of() == seed,
                (rooms@, h_first@, rng.pos_of()) == rooms_drawn(*cfg, gw, gh, seed, attempt as nat),
                attempt <= attempts,
                gw == g0.w(),
                gh == g0.h(),
                gw + cfg.min_spacing <= i32::MAX,
                gh + cfg.min_spacing <= i32::MAX,
                cfg.min_room_size <= cfg.max_room_size <= usize::MAX - 2,
                rooms_placed(rooms@, gw as int, gh as int, cfg.min_spacing as int),
                rooms@.len() == h_first@.len(),
                rooms@.len() <= cfg.max_rooms,
                forall|k: int|
                    0 <= k < rooms@.len() ==> cfg.min_room_size <= (#[trigger] rooms@[k]).w <= cfg.max_room_size
                        && cfg.min_room_size <= rooms@[k].h <= cfg.max_room_size,
            ensures
                sure ==> rooms@.len() >= 1,
                (rooms@, h_first@, rng.pos_of()) == rooms_drawn(*cfg, gw, gh, seed, attempts as nat),
            decreases attempts - attempt,
        {
            if rooms.len() >= cfg.max_rooms {
                proof {
                    lemma_rooms_full(*cfg, gw, gh, seed, attempt as nat, attempts as nat);
                }
                break;
            }
            proof {
                assert(rooms_drawn(*cfg, gw, gh, seed, (attempt + 1) as nat) == rooms_attempt(
                    *cfg,
                    gw,
                    gh,
                    seed,
                    rooms_drawn(*cfg, gw, gh, seed, attempt as nat),
                ));
            }
            attempt = attempt + 1;
            let w = rng.range_usize(cfg.min_room_size, cfg.max_room_size + 1);
            let h = rng.range_usize(cfg.min_room_size, cfg.max_room_size + 1);
            if w + 2 >= gw || h + 2 >= gh {
                continue;
            }
            let x = rng.range_usize(1, gw - w - 1);
            let y = rng.range_usize(1, gh - h - 1);
            let room = Room { x, y, w, h };
            let mut clash = false;
            let mut k: usize = 0;
            while k < rooms.len()
                invariant
                    k <= rooms@.len(),
                    rooms_placed(rooms@, gw as int, gh as int, cfg.min_spacing as int),
                    gw + cfg.min_spacing <= i32::MAX,
                    gh + cfg.min_spacing <= i32::MAX,
                    1 <= room.x,
                    room.x + room.w <= gw - 1,
                    1 <= room.y,
                    room.y + room.h <= gh - 1,
                    !clash ==> forall|j: int| 0 <= j < k ==> !rooms_meet(#[trigger] rooms@[j], room, cfg.min_spacing as int),
                    clash ==> exists|j: int| 0 <= j < k && rooms_meet(#[trigger] rooms@[j], room, cfg.min_spacing as int),
                decreases rooms@.len() - k,
            {
                if rooms[k].intersects(&room, cfg.min_spacing) {
                    clash = true;
                }
                k = k + 1;
            }
            if clash {
                continue;
            }
            let flag = if rooms.len() > 0 {
                rng.coin()
            } else {
                false
            };
            let ghost rooms0 = rooms@;
            rooms.push(room);
            h_first.push(flag);
            proof {
                assert forall|i: int, j: int| 0 <= i < j < rooms@.len() implies !rooms_meet(
                    #[trigger] rooms@[i],
                    #[trigger] rooms@[j],
                    cfg.min_spacing as int,
                ) by {
                    if j == rooms0.len() {
                        assert(rooms@[i] == rooms0[i]);
                    } else {
                        assert(rooms@[i] == rooms0[i] && rooms@[j] == rooms0[j]);
                    }
                }
                assert forall|k: int|
                    0 <= k < rooms@.len() implies cfg.min_room_size <= (#[trigger] rooms@[k]).w <= cfg.max_room_size
                    && cfg.min_room_size <= rooms@[k].h <= cfg.max_room_size by {
                    if k < rooms0.len() {
                        assert(rooms@[k] == rooms0[k]);
                    }
                }
                assert(rooms_placed(rooms@, gw as int, gh as int, cfg.min_spacing as int)) by {
                    assert forall|i: int| 0 <= i < rooms@.len() implies {
                        let r = #[trigger] rooms@[i];
                        &&& 1 <= r.x
                        &&& r.x + r.w <= gw - 1
                        &&& 1 <= r.y
                        &&& r.y + r.h <= gh - 1
                        &&& r.x < gw - 1
                        &&& r.y < gh - 1
                    } by {
                        if i < rooms0.len() {
                            assert(rooms@[i] == rooms0[i]);
                        }
                    }
                }
            }
        }
        proof {
            if sure {
                assert(rooms@.len() >= 1);
            }
            assert forall|k: int| 0 <= k < rooms@.len() implies room_fits(#[trigger] rooms@[k], gw as int, gh as int) by {
                let r = rooms@[k];
                assert(1 <= r.x && r.x + r.w <= gw - 1 && 1 <= r.y && r.y + r.h <= gh - 1);
            }
        }
        carve_rooms(grid, &rooms, &h_first);
        proof {
            let rs = rooms@;
            let hs = h_first@;
            if sure && cfg.min_room_size >= 1 {
                let r0 = rs[0];
                assert(step_covers(rs, hs, 0, r0.x as int, r0.y as int));
                assert(layout_covers(rs, hs, rs.len() as int, r0.x as int, r0.y as int));
                assert(grid.at(r0.x as int, r0.y as int) == TileCell::floor_cell());
            }
            assert forall|x: int, y: int| g0.contains(x, y) implies #[trigger] grid.at(x, y) == g0.at(x, y)
                || grid.at(x, y).passable() by {}
            assert forall|x: int, y: int|
                g0.contains(x, y) && !(1 <= x < gw - 1 && 1 <= y < gh - 1) implies #[trigger] grid.at(x, y) == g0.at(
                x,
                y,
            ) by {
                if layout_covers(rs, hs, rs.len() as int, x, y) {
                    lemma_layout_interior(rs, hs, gw as int, gh as int, cfg.min_spacing as int, x, y);
                }
            }
        }
    }

    pub fn name(&self) -> (r: &'static str)
        ensures
            r@ == "SimpleRooms"@,
    {
        "SimpleRooms"
    }
}

} // verus!

//! Binary space partitioning dungeons.

use crate::grid::{cell_index, Cell, Grid, TileCell};
use crate::rng::{after_u64, chacha_usize_in, u64_at, Rng, HALF_U64};
use crate::structures::rooms::{carve_h_corridor, carve_v_corridor, on_column, on_row};
use vstd::prelude::*;

verus! {

/// Configuration for BSP dungeon generation.
#[derive(Debug, Clone)]
pub struct BspConfig {
    pub min_room_size: usize,
    pub max_depth: usize,
    pub room_padding: usize,
}

impl Default for BspConfig {
    fn default() -> (r: BspConfig)
        ensures
            r.min_room_size == 5,
            r.max_depth == 4,
            r.room_padding == 1,
    {
        BspConfig { min_room_size: 5, max_depth: 4, room_padding: 1 }
    }
}

/// Binary space partitioning dungeon generator.
pub struct Bsp {
    config: BspConfig,
}

impl Bsp {
    pub fn new(config: BspConfig) -> (r: Bsp)
        ensures
            r.config() == config,
    {
        Bsp { config }
    }

    pub closed spec fn config(&self) -> BspConfig {
        self.config
    }
}

impl Default for Bsp {
    fn default() -> (r: Bsp)
        ensures
            r.config().min_room_size == 5,
            r.config().max_depth == 4,
            r.config().room_padding == 1,
    {
        Bsp::new(BspConfig::default())
    }
}

/// A node of a BSP tree: a rectangle, either split in two halves or a leaf
/// that may hold a room `(x, y, w, h)`.
pub struct BspNode {
    pub x: usize,
    pub y: usize,
    pub w: usize,
    pub h: usize,
    pub left: Option<Box<BspNode>>,
    pub right: Option<Box<BspNode>>,
    pub room: Option<(usize, usize, usize, usize)>,
}

/// `c`'s rectangle lies inside `p`'s.
pub open spec fn rect_inside(c: BspNode, p: BspNode) -> bool {
    p.x <= c.x && c.x + c.w <= p.x + p.w && p.y <= c.y && c.y + c.h <= p.y + p.h
}

/// Children lie inside their parent, and rooms inside their node with sides
/// of at least three cells.
pub open spec fn node_ok(n: BspNode) -> bool
    decreases n,
{
    &&& n.x + n.w < usize::MAX
    &&& n.y + n.h < usize::MAX
    &&& match n.left {
        Some(l) => rect_inside(*l, n) && node_ok(*l),
        None => true,
    }
    &&& match n.right {
        Some(r) => rect_inside(*r, n) && node_ok(*r),
        None => true,
    }
    &&& match n.room {
        Some(rm) => n.x <= rm.0 && rm.0 + rm.2 <= n.x + n.w && n.y <= rm.1 && rm.1 + rm.3 <= n.y + n.h && rm.2
            >= 3 && rm.3 >= 3,
        None => true,
    }
}

/// Centre of the first room of the subtree, the node's own room first, then
/// the left subtree, then the right.
pub open spec fn room_center_of(n: BspNode) -> Option<(int, int)>
    decreases n,
{
    match n.room {
        Some(rm) => Some((rm.0 + rm.2 / 2, rm.1 + rm.3 / 2)),
        None => {
            let l = match n.left {
                Some(b) => room_center_of(*b),
                None => None,
            };
            if l is Some {
                l
            } else {
                match n.right {
                    Some(b) => room_center_of(*b),
                    None => None,
                }
            }
        },
    }
}

/// The subtree floors `(x, y)`: a room covers it, or, at a node with two
/// halves, one half does or the L-shaped corridor does that runs along the
/// row of the left half's room centre and then the column of the right
/// half's.
pub open spec fn tree_covers(n: BspNode, x: int, y: int) -> bool
    decreases n,
{
    ||| (n.room matches Some(rm) && rm.0 <= x < rm.0 + rm.2 && rm.1 <= y < rm.1 + rm.3)
    ||| match (n.left, n.right) {
        (Some(l), Some(r)) => {
            ||| tree_covers(*l, x, y)
            ||| tree_covers(*r, x, y)
            ||| match (room_center_of(*l), room_center_of(*r)) {
                (Some(a), Some(b)) => on_row(a.0, b.0, a.1, x, y) || on_column(a.1, b.1, b.0, x, y),
                _ => false,
            }
        },
        _ => false,
    }
}

/// `l` and `r` are the top and bottom parts of `n`, each at least `min` rows tall.
pub open spec fn halves_h(n: BspNode, l: BspNode, r: BspNode, min: int) -> bool {
    &&& n.h >= 2 * min
    &&& l.x == n.x && l.y == n.y && l.w == n.w && min <= l.h <= n.h - min
    &&& r.x == n.x && r.y == n.y + l.h && r.w == n.w && r.h == n.h - l.h
}

/// `l` and `r` are the left and right parts of `n`, each at least `min` columns wide.
pub open spec fn halves_v(n: BspNode, l: BspNode, r: BspNode, min: int) -> bool {
    &&& n.w >= 2 * min
    &&& l.x == n.x && l.y == n.y && l.h == n.h && min <= l.w <= n.w - min
    &&& r.x == n.x + l.w && r.y == n.y && r.h == n.h && r.w == n.w - l.w
}

/// The subtree at `n`, at depth `depth`, is what splitting produces: no
/// rooms; a node at `max_depth` or with no side at least `2 * min` stays a
/// leaf, and every other node is cut across a side at least `2 * min` long
/// into two parts, each at least `min` long on that side.
pub open spec fn split_ok(n: BspNode, min: int, depth: int, max_depth: int) -> bool
    decreases n,
{
    &&& n.room.is_none()
    &&& if depth >= max_depth || (n.h < 2 * min && n.w < 2 * min) {
        n.left.is_none() && n.right.is_none()
    } else {
        match (n.left, n.right) {
            (Some(l), Some(r)) => {
                &&& halves_h(n, *l, *r, min) || halves_v(n, *l, *r, min)
                &&& split_ok(*l, min, depth + 1, max_depth)
                &&& split_ok(*r, min, depth + 1, max_depth)
            },
            _ => false,
        }
    }
}

/// The room placed in leaf `n` with padding `pad`: where the rectangle
/// less the padding leaves at least three cells each way, a room at least
/// three cells each way inside it; otherwise the leaf keeps `n.room`.
pub open spec fn leaf_room(n: BspNode, room: Option<(usize, usize, usize, usize)>, pad: int) -> bool {
    let iw = if n.w >= 2 * pad { n.w - 2 * pad } else { 0 };
    let ih = if n.h >= 2 * pad { n.h - 2 * pad } else { 0 };
    if iw >= 3 && ih >= 3 {
        room matches Some(rm) && 3 <= rm.2 <= iw && 3 <= rm.3 <= ih && n.x + pad <= rm.0 <= n.x + pad + iw - rm.2
            && n.y + pad <= rm.1 <= n.y + pad + ih - rm.3
    } else {
        room == n.room
    }
}

/// `new` is `old` with a room placed in every leaf (see [`leaf_room`]) and
/// nothing else changed.
pub open spec fn rooms_made(old: BspNode, new: BspNode, pad: int) -> bool
    decreases old,
{
    &&& new.x == old.x && new.y == old.y && new.w == old.w && new.h == old.h
    &&& if old.left.is_some() || old.right.is_some() {
        &&& new.room == old.room
        &&& match (old.left, new.left) {
            (Some(a), Some(b)) => rooms_made(*a, *b, pad),
            (None, None) => true,
            _ => false,
        }
        &&& match (old.right, new.right) {
            (Some(a), Some(b)) => rooms_made(*a, *b, pad),
            (None, None) => true,
            _ => false,
        }
    } else {
        new.left.is_none() && new.right.is_none() && leaf_room(old, new.room, pad)
    }
}

/// A leaf node of the given rectangle.
pub open spec fn leaf(x: usize, y: usize, w: usize, h: usize) -> BspNode {
    BspNode { x, y, w, h, left: None, right: None, room: None }
}

/// The tree that [`BspNode::split`] grows from the leaf `n` at depth
/// `depth`, drawing from word position `pos` of the stream of `seed`, and
/// the word position after it: where both ways are open a coin picks a cut
/// across the rows, then the cut is drawn and the two parts are split in
/// turn, the first before the second.
pub open spec fn bsp_split_drawn(n: BspNode, min: usize, depth: int, max_depth: int, seed: u64, pos: u128) -> (
    BspNode,
    u128,
)
    decreases max_depth - depth,
{
    if depth >= max_depth {
        (n, pos)
    } else {
        let can_h = n.h >= min * 2;
        let can_v = n.w >= min * 2;
        if !can_h && !can_v {
            (n, pos)
        } else {
            let across = if can_h && can_v {
                u64_at(seed, pos) < HALF_U64
            } else {
                can_h
            };
            let p1 = if can_h && can_v {
                after_u64(seed, pos)
            } else {
                pos
            };
            if across {
                let d = chacha_usize_in(seed, p1, min, (n.h - min + 1) as usize, usize::BITS);
                let l = bsp_split_drawn(leaf(n.x, n.y, n.w, d.0), min, depth + 1, max_depth, seed, d.1);
                let r = bsp_split_drawn(
                    leaf(n.x, (n.y + d.0) as usize, n.w, (n.h - d.0) as usize),
                    min,
                    depth + 1,
                    max_depth,
                    seed,
                    l.1,
                );
                (
                    BspNode {
                        x: n.x,
                        y: n.y,
                        w: n.w,
                        h: n.h,
                        left: Some(Box::new(l.0)),
                        right: Some(Box::new(r.0)),
                        room: n.room,
                    },
                    r.1,
                )
            } else {
                let d = chacha_usize_in(seed, p1, min, (n.w - min + 1) as usize, usize::BITS);
                let l = bsp_split_drawn(leaf(n.x, n.y, d.0, n.h), min, depth + 1, max_depth, seed, d.1);
                let r = bsp_split_drawn(
                    leaf((n.x + d.0) as usize, n.y, (n.w - d.0) as usize, n.h),
                    min,
                    depth + 1,
                    max_depth,
                    seed,
                    l.1,
                );
                (
                    BspNode {
                        x: n.x,
                        y: n.y,
                        w: n.w,
                        h: n.h,
                        left: Some(Box::new(l.0)),
                        right: Some(Box::new(r.0)),
                        room: n.room,
                    },
                    r.1,
                )
            }
        }
    }
}

/// The tree that [`BspNode::create_rooms`] makes of `n` with padding `pad`,
/// drawing from word position `pos` of the stream of `seed`, and the word
/// position after it: the parts are visited first before second, and each
/// leaf that leaves at least three cells each way inside the padding draws
/// a room's width, height and offsets.
pub open spec fn bsp_rooms_drawn(n: BspNode, pad: usize, seed: u64, pos: u128) -> (BspNode, u128)
    decreases n,
{
    if n.left.is_some() || n.right.is_some() {
        let l = match n.left {
            Some(b) => {
                let q = bsp_rooms_drawn(*b, pad, seed, pos);
                (Some(Box::new(q.0)), q.1)
            },
            None => (None, pos),
        };
        let r = match n.right {
            Some(b) => {
                let q = bsp_rooms_drawn(*b, pad, seed, l.1);
                (Some(Box::new(q.0)), q.1)
            },
            None => (None, l.1),
        };
        (BspNode { x: n.x, y: n.y, w: n.w, h: n.h, left: l.0, right: r.0, room: n.room }, r.1)
    } else {
        let iw = if n.w >= pad * 2 {
            n.w - pad * 2
        } else {
            0
        };
        let ih = if n.h >= pad * 2 {
            n.h - pad * 2
        } else {
            0
        };
        if iw < 3 || ih < 3 {
            (n, pos)
        } else {
            let dw = chacha_usize_in(seed, pos, 3, (iw + 1) as usize, usize::BITS);
            let dh = chacha_usize_in(seed, dw.1, 3, (ih + 1) as usize, usize::BITS);
            let dx = chacha_usize_in(seed, dh.1, 0, (iw - dw.0 + 1) as usize, usize::BITS);
            let dy = chacha_usize_in(seed, dx.1, 0, (ih - dh.0 + 1) as usize, usize::BITS);
            (
                BspNode {
                    x: n.x,
                    y: n.y,
                    w: n.w,
                    h: n.h,
                    left: n.left,
                    right: n.right,
                    room: Some(((n.x + pad + dx.0) as usize, (n.y + pad + dy.0) as usize, dw.0, dh.0)),
                },
                dy.1,
            )
        }
    }
}

impl BspNode {
    fn new(x: usize, y: usize, w: usize, h: usize) -> (r: BspNode)
        ensures
            r == leaf(x, y, w, h),
    {
        BspNode { x, y, w, h, left: None, right: None, room: None }
    }

    /// Splits the rectangle recursively until `max_depth` or until no side
    /// is at least twice `min_size`.
    fn split(&mut self, rng: &mut Rng, min_size: usize, depth: usize, max_depth: usize)
        requires
            old(self).x + old(self).w < usize::MAX,
            old(self).y + old(self).h < usize::MAX,
            old(self).left.is_none(),
            old(self).right.is_none(),
            old(self).room.is_none(),
            min_size <= usize::MAX / 2,
        ensures
            final(self).x == old(self).x,
            final(self).y == old(self).y,
            final(self).w == old(self).w,
            final(self).h == old(self).h,
            final(self).room.is_none(),
            node_ok(*final(self)),
            split_ok(*final(self), min_size as int, depth as int, max_depth as int),
            (*final(self), final(rng).pos_of()) == bsp_split_drawn(
                *old(self),
                min_size,
                depth as int,
                max_depth as int,
                old(rng).seed_of(),
                old(rng).pos_of(),
            ),
            final(rng).seed_of() == old(rng).seed_of(),
        decreases max_depth - depth,
    {
        if depth >= max_depth {
            return;
        }
        let can_split_h = self.h >= min_size * 2;
        let can_split_v = self.w >= min_size * 2;
        if !can_split_h && !can_split_v {
            return;
        }
        let split_h = if can_split_h && can_split_v {
            rng.coin()
        } else {
            can_split_h
        };
        if split_h {
            let split = rng.range_usize(min_size, self.h - min_size + 1);
            let mut left = BspNode::new(self.x, self.y, self.w, split);
            let mut right = BspNode::new(self.x, self.y + split, self.w, self.h - split);
            left.split(rng, min_size, depth + 1, max_depth);
            right.split(rng, min_size, depth + 1, max_depth);
            self.left = Some(Box::new(left));
            self.right = Some(Box::new(right));
        } else {
            let split = rng.range_usize(min_size, self.w - min_size + 1);
            let mut left = BspNode::new(self.x, self.y, split, self.h);
            let mut right = BspNode::new(self.x + split, self.y, self.w - split, self.h);
            left.split(rng, min_size, depth + 1, max_depth);
            right.split(rng, min_size, depth + 1, max_depth);
            self.left = Some(Box::new(left));
            self.right = Some(Box::new(right));
        }
    }

    /// Places a room in every leaf whose rectangle leaves at least three
    /// cells each way inside the padding.
    fn create_rooms(&mut self, rng: &mut Rng, padding: usize)
        requires
            node_ok(*old(self)),
            padding <= usize::MAX / 2,
        ensures
            node_ok(*final(self)),
            final(self).x == old(self).x,
            final(self).y == old(self).y,
            final(self).w == old(self).w,
            final(self).h == old(self).h,
            rooms_made(*old(self), *final(self), padding as int),
            (*final(self), final(rng).pos_of()) == bsp_rooms_drawn(
                *old(self),
                padding,
                old(rng).seed_of(),
                old(rng).pos_of(),
            ),
            final(rng).seed_of() == old(rng).seed_of(),
        decreases *old(self),
    {
        if self.left.is_some() || self.right.is_some() {
            let left = self.left.take();
            match left {
                Some(mut l) => {
                    l.create_rooms(rng, padding);
                    self.left = Some(l);
                },
                None => {},
            }
            let right = self.right.take();
            match right {
                Some(mut r) => {
                    r.create_rooms(rng, padding);
                    self.right = Some(r);
                },
                None => {},
            }
        } else {
            let inner_w = if self.w >= padding * 2 { self.w - padding * 2 } else { 0 };
            let inner_h = if self.h >= padding * 2 { self.h - padding * 2 } else { 0 };
            let min_w = if inner_w < 3 { inner_w } else { 3 };
            let min_h = if inner_h < 3 { inner_h } else { 3 };
            if min_w < 3 || min_h < 3 {
                return;
            }
            let max_w = inner_w;
            let max_h = inner_h;
            let w = rng.range_usize(min_w, max_w + 1);
            let h = rng.range_usize(min_h, max_h + 1);
            let x = self.x + padding + rng.range_usize(0, max_w - w + 1);
            let y = self.y + padding + rng.range_usize(0, max_h - h + 1);
            self.room = Some((x, y, w, h));
        }
    }

    /// Centre of the first room found, left subtree first.
    pub fn get_room_center(&self) -> (r: Option<(usize, usize)>)
        requires
            node_ok(*self),
        ensures
            r is None <==> room_center_of(*self) is None,
            r matches Some(c) ==> room_center_of(*self) == Some((c.0 as int, c.1 as int)),
            r matches Some(c) ==> self.x <= c.0 < self.x + self.w && self.y <= c.1 < self.y + self.h,
        decreases *self,
    {
        if let Some(rm) = self.room {
            return Some((rm.0 + rm.2 / 2, rm.1 + rm.3 / 2));
        }
        let left_center = match &self.left {
            Some(n) => n.get_room_center(),
            None => None,
        };
        if left_center.is_some() {
            return left_center;
        }
        match &self.right {
            Some(n) => n.get_room_center(),
            None => None,
        }
    }

    /// Carves the rooms of this subtree and joins the two halves of every
    /// split with an L-shaped corridor between their room centres: exactly
    /// the cells that [`tree_covers`] names become floor.
    pub fn carve(&self, grid: &mut Grid<TileCell>)
        requires
            node_ok(*self),
            old(grid).wf(),
            self.x + self.w <= old(grid).w(),
            self.y + self.h <= old(grid).h(),
            old(grid).w() <= i32::MAX,
            old(grid).h() <= i32::MAX,
        ensures
            final(grid).wf(),
            final(grid).w() == old(grid).w(),
            final(grid).h() == old(grid).h(),
            forall|x: int, y: int|
                old(grid).contains(x, y) ==> #[trigger] final(grid).at(x, y) == if tree_covers(*self, x, y) {
                    TileCell::floor_cell()
                } else {
                    old(grid).at(x, y)
                },
            old(grid).grows_to(final(grid)),
            old(grid).same_outside(
                final(grid),
                self.x as int,
                self.y as int,
                (self.x + self.w) as int,
                (self.y + self.h) as int,
            ),
        decreases *self,
    {
        let ghost g0 = *grid;
        if let Some(rm) = self.room {
            grid.fill_rect(rm.0 as i32, rm.1 as i32, rm.2, rm.3, TileCell::floor());
        }
        let ghost g1 = *grid;
        match (&self.left, &self.right) {
            (Some(left), Some(right)) => {
                left.carve(grid);
                let ghost g2 = *grid;
                right.carve(grid);
                let ghost g3 = *grid;
                let lc = left.get_room_center();
                let rc = right.get_room_center();
                match (lc, rc) {
                    (Some(l), Some(r)) => {
                        let (lx, ly) = l;
                        let (rx, ry) = r;
                        carve_h_corridor(grid, lx, rx, ly);
                        carve_v_corridor(grid, ly, ry, rx);
                    },
                    _ => {},
                }
                proof {
                    assert forall|x: int, y: int| g0.contains(x, y) implies #[trigger] grid.at(x, y) == if tree_covers(
                        *self,
                        x,
                        y,
                    ) {
                        TileCell::floor_cell()
                    } else {
                        g0.at(x, y)
                    } by {
                        assert(g1.at(x, y) == g0.at(x, y) || g1.at(x, y) == TileCell::floor_cell());
                        assert(g2.at(x, y) == if tree_covers(**left, x, y) {
                            TileCell::floor_cell()
                        } else {
                            g1.at(x, y)
                        });
                        assert(g3.at(x, y) == if tree_covers(**right, x, y) {
                            TileCell::floor_cell()
                        } else {
                            g2.at(x, y)
                        });
                    }
                }
            },
            _ => {},
        }
        proof {
            assert forall|x: int, y: int| g0.contains(x, y) && tree_covers(*self, x, y) implies self.x <= x < self.x
                + self.w && self.y <= y < self.y + self.h by {
                self.lemma_covers_inside(x, y);
            }
        }
    }

    /// Every cell that the subtree covers lies in its rectangle.
    proof fn lemma_covers_inside(&self, x: int, y: int)
        requires
            node_ok(*self),
            tree_covers(*self, x, y),
        ensures
            self.x <= x < self.x + self.w,
            self.y <= y < self.y + self.h,
        decreases *self,
    {
        if !(self.room matches Some(rm) && rm.0 <= x < rm.0 + rm.2 && rm.1 <= y < rm.1 + rm.3) {
            match (self.left, self.right) {
                (Some(l), Some(r)) => {
                    if tree_covers(*l, x, y) {
                        l.lemma_covers_inside(x, y);
                    } else if tree_covers(*r, x, y) {
                        r.lemma_covers_inside(x, y);
                    } else {
                        l.lemma_center_inside();
                        r.lemma_center_inside();
                    }
                },
                _ => {},
            }
        }
    }

    /// The room centre of a subtree lies in its rectangle.
    proof fn lemma_center_inside(&self)
        requires
            node_ok(*self),
        ensures
            room_center_of(*self) matches Some(c) ==> self.x <= c.0 < self.x + self.w && self.y <= c.1 < self.y
                + self.h,
        decreases *self,
    {
        if self.room.is_none() {
            match self.left {
                Some(b) => b.lemma_center_inside(),
                None => {},
            }
            match self.right {
                Some(b) => b.lemma_center_inside(),
                None => {},
            }
        }
    }
}


/// When every part of a split keeps sides of at least `min` cells and `min`
/// leaves room for a three-cell room inside the padding, the tree with its
/// rooms covers some cell of the split rectangle.
proof fn lemma_some_room(split: BspNode, tree: BspNode, min: int, depth: int, max_depth: int, pad: int) -> (c: (int, int))
    requires
        split_ok(split, min, depth, max_depth),
        rooms_made(split, tree, pad),
        split.w >= min,
        split.h >= min,
        pad >= 0,
        min >= 2 * pad + 3,
    ensures
        tree_covers(tree, c.0, c.1),
        split.x <= c.0 < split.x + split.w,
        split.y <= c.1 < split.y + split.h,
    decreases split,
{
    if split.left.is_some() || split.right.is_some() {
        let l = *split.left.unwrap();
        let r = *split.right.unwrap();
        let tl = *tree.left.unwrap();
        let tr = *tree.right.unwrap();
        assert(rooms_made(l, tl, pad));
        let c = lemma_some_room(l, tl, min, depth + 1, max_depth, pad);
        assert(tree_covers(tl, c.0, c.1));
        c
    } else {
        let rm = tree.room.unwrap();
        (rm.0 as int, rm.1 as int)
    }
}

/// What [`Bsp::generate`] makes of the grid `g0` with `seed`: the tree is
/// the one the stream of `seed` draws ([`bsp_split_drawn`], then
/// [`bsp_rooms_drawn`]), and `g1` is `g0` carved by it.
pub open spec fn bsp_outcome(c: BspConfig, seed: u64, g0: Grid<TileCell>, g1: Grid<TileCell>) -> bool {
    &&& exists|split: BspNode, tree: BspNode|
            {
                let drawn = bsp_split_drawn(
                    leaf(1, 1, (g0.w() - 2) as usize, (g0.h() - 2) as usize),
                    c.min_room_size,
                    0,
                    c.max_depth as int,
                    seed,
                    0,
                );
                &&& split == drawn.0
                &&& tree == bsp_rooms_drawn(split, c.room_padding, seed, drawn.1).0
                &&& split_ok(split, c.min_room_size as int, 0, c.max_depth as int)
                &&& split.x == 1 && split.y == 1
                &&& split.w == g0.w() - 2 && split.h == g0.h() - 2
                &&& #[trigger] rooms_made(split, tree, c.room_padding as int)
                &&& node_ok(tree)
                &&& tree.x == 1 && tree.y == 1
                &&& tree.w == g0.w() - 2 && tree.h == g0.h() - 2
                &&& forall|x: int, y: int|
                    g0.contains(x, y) ==> #[trigger] g1.at(x, y) == if tree_covers(tree, x, y) {
                        TileCell::floor_cell()
                    } else {
                        g0.at(x, y)
                    }
            }
    &&& g1.wf()
    &&& g0.grows_to(&g1)
    &&& g0.same_outside(
            &g1,
            1,
            1,
            g0.w() - 1,
            g0.h() - 1,
        )
    &&& c.min_room_size >= 2 * c.room_padding + 3 && g0.w() - 2
            >= c.min_room_size && g0.h() - 2 >= c.min_room_size ==> exists|x: int, y: int|
            g0.contains(x, y) && #[trigger] g1.at(x, y) == TileCell::floor_cell()
}

/// BSP generation is deterministic: the same configuration, seed and grid
/// give the same result.
pub proof fn law_bsp_deterministic(c: BspConfig, seed: u64, g0: Grid<TileCell>, g1: Grid<TileCell>, g2: Grid<TileCell>)
    requires
        bsp_outcome(c, seed, g0, g1),
        bsp_outcome(c, seed, g0, g2),
    ensures
        g1.cells() == g2.cells(),
{
    let drawn = bsp_split_drawn(
        leaf(1, 1, (g0.w() - 2) as usize, (g0.h() - 2) as usize),
        c.min_room_size,
        0,
        c.max_depth as int,
        seed,
        0,
    );
    let tree = bsp_rooms_drawn(drawn.0, c.room_padding, seed, drawn.1).0;
    assert forall|x: int, y: int| g2.contains(x, y) implies #[trigger] g2.at(x, y) == g1.cells()[cell_index(
        g2.w() as int,
        x,
        y,
    )] by {
        assert(rooms_made(drawn.0, tree, c.room_padding as int) ==> g1.at(x, y) == if tree_covers(tree, x, y) {
            TileCell::floor_cell()
        } else {
            g0.at(x, y)
        });
        assert(g1.at(x, y) == g2.at(x, y));
    }
    g2.lemma_cells_match(g1.cells());
}

impl Bsp {
    /// Splits the interior of `grid` into a BSP tree ([`split_ok`]), places a
    /// room in each large enough leaf ([`rooms_made`]) and carves the tree
    /// ([`BspNode::carve`]): the grid changes exactly on the cells that tree
    /// covers, the border ring is left as it was, and every changed cell
    /// becomes floor.
    pub fn generate(&self, grid: &mut Grid<TileCell>, seed: u64)
        requires
            old(grid).wf(),
            2 <= old(grid).w() <= i32::MAX,
            2 <= old(grid).h() <= i32::MAX,
            self.config().min_room_size <= usize::MAX / 2,
            self.config().room_padding <= usize::MAX / 2,
        ensures
            bsp_outcome(self.config(), seed, *old(grid), *final(grid)),
    {
        let mut rng = Rng::new(seed);
        let mut root = BspNode::new(1, 1, grid.width() - 2, grid.height() - 2);
        root.split(&mut rng, self.config.min_room_size, 0, self.config.max_depth);
        let ghost split = root;
        root.create_rooms(&mut rng, self.config.room_padding);
        root.carve(grid);
        proof {
            assert(rooms_made(split, root, self.config().room_padding as int));
            let min = self.config().min_room_size as int;
            let pad = self.config().room_padding as int;
            if min >= 2 * pad + 3 && split.w >= min && split.h >= min {
                let c = lemma_some_room(split, root, min, 0, self.config().max_depth as int, pad);
                assert(grid.at(c.0, c.1) == TileCell::floor_cell());
            }
        }
    }

    pub fn name(&self) -> (r: &'static str)
        ensures
            r@ == "BSP"@,
    {
        "BSP"
    }
}

} // verus!

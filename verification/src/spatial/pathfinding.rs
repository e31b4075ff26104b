//! Flow fields for AI movement.

use crate::grid::cell_index;
use crate::grid::lemma_cell_index_bounds;
use vstd::prelude::*;

verus! {

/// A direction per cell of a `width` by `height` area, row by row.
#[derive(Debug, Clone)]
pub struct FlowField {
    directions: Vec<(i32, i32)>,
    width: usize,
    height: usize,
}

impl FlowField {
    /// One direction per cell.
    pub closed spec fn wf(&self) -> bool {
        &&& self.directions@.len() == self.width * self.height
        &&& self.width * self.height <= usize::MAX
    }

    /// Number of columns.
    pub closed spec fn w(&self) -> nat {
        self.width as nat
    }

    /// Number of rows.
    pub closed spec fn h(&self) -> nat {
        self.height as nat
    }

    /// The direction stored for `(x, y)`.
    pub closed spec fn dir(&self, x: int, y: int) -> (i32, i32) {
        self.directions@[cell_index(self.width as int, x, y)]
    }

    /// A field of `(0, 0)` directions.
    pub fn new(width: usize, height: usize) -> (f: FlowField)
        requires
            width * height <= usize::MAX,
        ensures
            f.wf(),
            f.w() == width,
            f.h() == height,
            forall|x: int, y: int| 0 <= x < width && 0 <= y < height ==> #[trigger] f.dir(x, y) == (0i32, 0i32),
    {
        let n = width * height;
        let mut directions: Vec<(i32, i32)> = Vec::with_capacity(n);
        let mut i: usize = 0;
        while i < n
            invariant
                i <= n,
                directions@.len() == i,
                forall|j: int| 0 <= j < i ==> directions@[j] == (0i32, 0i32),
            decreases n - i,
        {
            directions.push((0, 0));
            i = i + 1;
        }
        let f = FlowField { directions, width, height };
        assert forall|x: int, y: int| 0 <= x < width && 0 <= y < height implies #[trigger] f.dir(x, y) == (
            0i32,
            0i32,
        ) by {
            lemma_cell_index_bounds(width as int, height as int, x, y);
        }
        f
    }

    /// The direction at `(x, y)`.
    pub fn get_direction(&self, x: usize, y: usize) -> (r: (i32, i32))
        requires
            self.wf(),
            x < self.w(),
            y < self.h(),
        ensures
            r == self.dir(x as int, y as int),
    {
        proof {
            lemma_cell_index_bounds(self.width as int, self.height as int, x as int, y as int);
        }
        self.directions[y * self.width + x]
    }

    /// Sets the direction at `(x, y)`.
    pub fn set_direction(&mut self, x: usize, y: usize, dir: (i32, i32))
        requires
            old(self).wf(),
            x < old(self).w(),
            y < old(self).h(),
        ensures
            final(self).wf(),
            final(self).w() == old(self).w(),
            final(self).h() == old(self).h(),
            forall|px: int, py: int|
                0 <= px < old(self).w() && 0 <= py < old(self).h() ==> #[trigger] final(self).dir(px, py) == if px
                    == x && py == y {
                    dir
                } else {
                    old(self).dir(px, py)
                },
    {
        proof {
            lemma_cell_index_bounds(self.width as int, self.height as int, x as int, y as int);
        }
        let i = y * self.width + x;
        self.directions.set(i, dir);
        proof {
            assert forall|px: int, py: int|
                0 <= px < old(self).w() && 0 <= py < old(self).h() implies #[trigger] self.dir(px, py) == if px == x
                && py == y {
                dir
            } else {
                old(self).dir(px, py)
            } by {
                lemma_cell_index_bounds(self.width as int, self.height as int, px, py);
                if cell_index(self.width as int, px, py) == i {
                    crate::grid::lemma_cell_index_injective(self.width as int, px, py, x as int, y as int);
                }
            }
        }
    }

    /// Number of columns.
    pub fn width(&self) -> (r: usize)
        ensures
            r == self.w(),
    {
        self.width
    }

    /// Number of rows.
    pub fn height(&self) -> (r: usize)
        ensures
            r == self.h(),
    {
        self.height
    }
}

} // verus!

//! Blending effects.

use crate::grid::{Cell, Grid, Tile};
use vstd::prelude::*;

verus! {

/// Fills the overlap of the three grids from `base` on the first half and
/// from `overlay` past the middle: columns `x` with `2x > w` when
/// `horizontal`, rows `y` with `2y > h` otherwise (`w`, `h` being the
/// overlap's size). Cells of `output` outside the overlap keep their value.
pub fn gradient_blend(base: &Grid<Tile>, overlay: &Grid<Tile>, output: &mut Grid<Tile>, horizontal: bool)
    requires
        base.wf(),
        overlay.wf(),
        old(output).wf(),
        old(output).w() <= i32::MAX,
        old(output).h() <= i32::MAX,
    ensures
        final(output).wf(),
        final(output).w() == old(output).w(),
        final(output).h() == old(output).h(),
        forall|x: int, y: int|
            old(output).contains(x, y) ==> #[trigger] final(output).at(x, y) == if base.contains(x, y)
                && overlay.contains(x, y) {
                if blend_takes_overlay(base, overlay, old(output), horizontal, x, y) {
                    overlay.at(x, y)
                } else {
                    base.at(x, y)
                }
            } else {
                old(output).at(x, y)
            },
{
    let ghost o0 = *output;
    let bw = if base.width() < overlay.width() { base.width() } else { overlay.width() };
    let w = if bw < output.width() { bw } else { output.width() };
    let bh = if base.height() < overlay.height() { base.height() } else { overlay.height() };
    let h = if bh < output.height() { bh } else { output.height() };
    let mut y: usize = 0;
    while y < h
        invariant
            y <= h,
            w == min3(base.w() as int, overlay.w() as int, o0.w() as int),
            h == min3(base.h() as int, overlay.h() as int, o0.h() as int),
            base.wf(),
            overlay.wf(),
            o0.w() <= i32::MAX,
            o0.h() <= i32::MAX,
            output.wf(),
            output.w() == o0.w(),
            output.h() == o0.h(),
            forall|px: int, py: int|
                o0.contains(px, py) ==> #[trigger] output.at(px, py) == if py < y && px < w {
                    if blend_takes_overlay(base, overlay, &o0, horizontal, px, py) {
                        overlay.at(px, py)
                    } else {
                        base.at(px, py)
                    }
                } else {
                    o0.at(px, py)
                },
        decreases h - y,
    {
        let mut x: usize = 0;
        while x < w
            invariant
                x <= w,
                y < h,
                w == min3(base.w() as int, overlay.w() as int, o0.w() as int),
                h == min3(base.h() as int, overlay.h() as int, o0.h() as int),
                base.wf(),
                overlay.wf(),
                o0.w() <= i32::MAX,
                o0.h() <= i32::MAX,
                output.wf(),
                output.w() == o0.w(),
                output.h() == o0.h(),
                forall|px: int, py: int|
                    o0.contains(px, py) ==> #[trigger] output.at(px, py) == if (py < y && px < w) || (py == y && px
                        < x) {
                        if blend_takes_overlay(base, overlay, &o0, horizontal, px, py) {
                            overlay.at(px, py)
                        } else {
                            base.at(px, py)
                        }
                    } else {
                        o0.at(px, py)
                    },
            decreases w - x,
        {
            let past_middle = if horizontal { 2 * (x as u64) > w as u64 } else { 2 * (y as u64) > h as u64 };
            let cell = if past_middle { overlay.cell(x, y) } else { base.cell(x, y) };
            output.set(x as i32, y as i32, cell);
            x = x + 1;
        }
        y = y + 1;
    }
}

pub open spec fn min3(a: int, b: int, c: int) -> int {
    let m = if a < b { a } else { b };
    if m < c { m } else { c }
}

/// Whether the blend takes `overlay` at `(x, y)`: the position lies past
/// the middle of the overlap along the blend direction.
pub open spec fn blend_takes_overlay(
    base: &Grid<Tile>,
    overlay: &Grid<Tile>,
    output: &Grid<Tile>,
    horizontal: bool,
    x: int,
    y: int,
) -> bool {
    if horizontal {
        2 * x > min3(base.w() as int, overlay.w() as int, output.w() as int)
    } else {
        2 * y > min3(base.h() as int, overlay.h() as int, output.h() as int)
    }
}

} // verus!

//! Moving colors between canvases of different lowest visible brightness.

use vstd::prelude::*;
use crate::canvas::{Color, UNIT};

verus! {

/// `offset * num / den`, rounded toward zero.
pub open spec fn scale_offset(offset: int, num: int, den: int) -> int {
    if offset >= 0 {
        (offset * num) / den
    } else {
        -(((-offset) * num) / den)
    }
}

/// The nearest value to `v` that an `i64` holds.
pub open spec fn saturate(v: int) -> i64 {
    if v < i64::MIN {
        i64::MIN
    } else if v > i64::MAX {
        i64::MAX
    } else {
        v as i64
    }
}

/// One channel moved from a canvas whose lowest visible brightness is
/// `source` to one where it is `target`: `(c - 1) * (1 - target) / (1 -
/// source) + 1`, where 1 stands for `UNIT`. The distance of the channel
/// from `UNIT` is scaled and rounded toward zero, and a result that an `i64`
/// cannot hold becomes the nearest one that it can.
pub open spec fn remap_channel(c: i64, source: u32, target: u32) -> i64 {
    saturate(UNIT + scale_offset(c - UNIT, UNIT - target, UNIT - source))
}

/// A color with each channel moved by `remap_channel`.
pub open spec fn remap(color: Color, source: u32, target: u32) -> Color {
    Color {
        r: remap_channel(color.r, source, target),
        g: remap_channel(color.g, source, target),
        b: remap_channel(color.b, source, target),
    }
}

/// Scaling a distance by at most `UNIT` keeps it within `UNIT` times
/// itself.
proof fn lemma_scaled_bound(v: int, num: int, den: int)
    requires
        0 <= v,
        0 <= num <= 0x1_0000,
        1 <= den,
    ensures
        0 <= v * num <= v * 0x1_0000,
        0 <= (v * num) / den <= v * 0x1_0000,
{
    assert(0 <= v * num <= v * 0x1_0000) by (nonlinear_arith)
        requires
            0 <= v,
            0 <= num <= 0x1_0000,
    ;
    vstd::arithmetic::div_mod::lemma_div_pos_is_pos(v * num, den);
    vstd::arithmetic::div_mod::lemma_div_is_ordered_by_denominator(v * num, 1, den);
}

/// One channel of `transform_color`.
fn transform_channel(c: i64, source: u32, target: u32) -> (out: i64)
    requires
        source < UNIT,
        target < UNIT,
    ensures
        out == remap_channel(c, source, target),
{
    let num: i128 = (UNIT - target) as i128;
    let den: i128 = (UNIT - source) as i128;
    let offset: i128 = c as i128 - UNIT as i128;
    let scaled: i128 = if offset >= 0 {
        proof {
            lemma_scaled_bound(offset as int, num as int, den as int);
        }
        offset * num / den
    } else {
        proof {
            lemma_scaled_bound(-offset as int, num as int, den as int);
        }
        -((-offset) * num / den)
    };
    let moved: i128 = UNIT as i128 + scaled;
    if moved < i64::MIN as i128 {
        i64::MIN
    } else if moved > i64::MAX as i128 {
        i64::MAX
    } else {
        moved as i64
    }
}

/// Moves a color authored against the lowest visible brightness `source` to
/// a canvas whose lowest visible brightness is `target`.
pub fn transform_color(color: Color, source: u32, target: u32) -> (out: Color)
    requires
        source < UNIT,
        target < UNIT,
    ensures
        out == remap(color, source, target),
{
    Color {
        r: transform_channel(color.r, source, target),
        g: transform_channel(color.g, source, target),
        b: transform_channel(color.b, source, target),
    }
}

/// The remap takes the source's lowest visible brightness to the target's,
/// leaves `UNIT` where it is, and changes nothing between canvases of equal
/// lowest visible brightness.
pub proof fn lemma_remap_anchors(c: i64, source: u32, target: u32)
    requires
        source < UNIT,
        target < UNIT,
    ensures
        remap_channel(source as i64, source, target) == target,
        remap_channel(UNIT as i64, source, target) == UNIT,
        remap_channel(c, source, source) == c,
{
    let den = UNIT - source;
    let num = UNIT - target;
    assert((den * num) / den == num) by (nonlinear_arith)
        requires
            den >= 1,
    ;
    assert((0 * num) / den == 0) by (nonlinear_arith)
        requires
            den >= 1,
    ;
    let away: int = if c >= UNIT { c - UNIT } else { UNIT - c };
    assert((away * den) / den == away) by (nonlinear_arith)
        requires
            den >= 1,
    ;
}

} // verus!

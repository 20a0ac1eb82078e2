//! Pixel access and the median edge detector.

use vstd::prelude::*;

verus! {

/// Where channel `ch` (0 blue, 1 green, 2 red, 3 alpha) of pixel `(x, y)`
/// lies in raw pixels stored red first; gray images have one channel.
pub open spec fn channel_offset(x: int, y: int, width: int, colors: int, ch: int) -> int {
    let offset = y * width * colors + x * colors;
    if colors == 1 {
        offset
    } else if ch == 0 {
        offset + 2
    } else if ch == 1 {
        offset + 1
    } else if ch == 2 {
        offset
    } else {
        offset + 3
    }
}

/// Channel `ch` of pixel `(x, y)`, blue first whatever the storage order;
/// 0 for a colour count other than 1, 3 and 4.
#[verifier::opaque]
pub open spec fn spec_pixel_channel(data: Seq<u8>, x: int, y: int, width: int, colors: int, ch: int) -> u8 {
    if colors == 1 || colors == 3 || colors == 4 {
        data[channel_offset(x, y, width, colors, ch)]
    } else {
        0
    }
}

/// Channel `ch` of pixel `(x, y)`, blue first whatever the storage order.
pub fn pixel_channel(data: &[u8], x: usize, y: usize, width: usize, colors: usize, ch: usize) -> (v: u8)
    requires
        y * width <= usize::MAX,
        y * width * colors + x * colors + 4 <= usize::MAX,
        (colors == 1 || colors == 3 || colors == 4) ==> 0 <= channel_offset(x as int, y as int, width as int, colors as int, ch as int) < data@.len(),
    ensures
        v == spec_pixel_channel(data@, x as int, y as int, width as int, colors as int, ch as int),
{
    reveal(spec_pixel_channel);
    assert(y * width * colors >= 0 && x * colors >= 0) by (nonlinear_arith);
    let yw = y * width;
    let offset = yw * colors + x * colors;
    match colors {
        1 => data[offset],
        3 | 4 => match ch {
            0 => data[offset + 2],
            1 => data[offset + 1],
            2 => data[offset],
            _ => data[offset + 3],
        },
        _ => 0,
    }
}

/// The median edge detector: the smaller of the left and upper neighbours
/// where the upper-left one is at least both, the larger where it is below
/// both, and the planar estimate `a + b - c` otherwise.
pub open spec fn med(a: int, b: int, c: int) -> int {
    let lo = if a > b { b } else { a };
    let hi = if a < b { b } else { a };
    if c >= hi {
        lo
    } else if c < lo {
        hi
    } else {
        a + b - c
    }
}

/// The median edge detector gives the planar estimate `a + b - c` kept
/// within the neighbours `a` and `b`: it lies between them, is the estimate
/// where that lies between them, and is the nearer neighbour otherwise.
pub proof fn lemma_med_clamps(a: int, b: int, c: int)
    ensures
        ({
            let lo = if a < b { a } else { b };
            let hi = if a < b { b } else { a };
            let p = a + b - c;
            &&& lo <= med(a, b, c) <= hi
            &&& lo <= p <= hi ==> med(a, b, c) == p
            &&& p < lo ==> med(a, b, c) == lo
            &&& p > hi ==> med(a, b, c) == hi
        }),
{
}

/// The median edge detector on one channel.
pub fn med_predict(pa: u8, pb: u8, pc: u8) -> (v: u8)
    ensures
        v == med(pa as int, pb as int, pc as int),
{
    let min_a_b = if pa > pb {
        pb
    } else {
        pa
    };
    let max_a_b = if pa < pb {
        pb
    } else {
        pa
    };
    if pc >= max_a_b {
        min_a_b
    } else if pc < min_a_b {
        max_a_b
    } else {
        pa.wrapping_add(pb).wrapping_sub(pc)
    }
}

} // verus!

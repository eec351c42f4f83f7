//! Integer points and the little arithmetic the rasterizers share.

use vstd::prelude::*;

verus! {

/// The points of a coordinate list, as pairs of mathematical integers.
pub open spec fn points_of(s: Seq<(usize, usize)>) -> Seq<(int, int)> {
    s.map_values(|p: (usize, usize)| (p.0 as int, p.1 as int))
}

/// A list of machine integers as mathematical integers.
pub open spec fn ints_of(s: Seq<usize>) -> Seq<int> {
    s.map_values(|v: usize| v as int)
}

/// The absolute value of `v`.
pub open spec fn magnitude(v: int) -> int {
    if v >= 0 {
        v
    } else {
        -v
    }
}

/// The quotient of `n` by `d` rounded toward zero, for `d != 0`.
pub open spec fn truncating_div(n: int, d: int) -> int {
    if (n >= 0) == (d > 0) {
        magnitude(n) / magnitude(d)
    } else {
        -(magnitude(n) / magnitude(d))
    }
}

/// The distance between two coordinates.
pub(crate) fn distance(a: usize, b: usize) -> (d: usize)
    ensures
        d == magnitude(a - b),
{
    if a >= b {
        a - b
    } else {
        b - a
    }
}

/// `part * whole_b / whole_a` rounded down, which is at most `whole_b`
/// whenever `part` is at most `whole_a`.
pub(crate) fn scale_down(part: usize, whole_b: usize, whole_a: usize) -> (q: usize)
    requires
        0 < whole_a,
        part <= whole_a,
    ensures
        q == (part * whole_b) / (whole_a as int),
        q <= whole_b,
{
    proof {
        lemma_scaled_part_bounded(part as int, whole_b as int, whole_a as int);
        assert(part * whole_b <= 0xffff_ffff_ffff_ffff * 0xffff_ffff_ffff_ffff)
            by (nonlinear_arith)
            requires
                0 <= part <= 0xffff_ffff_ffff_ffff,
                0 <= whole_b <= 0xffff_ffff_ffff_ffff,
        ;
    }
    let product: u128 = part as u128 * whole_b as u128;
    (product / whole_a as u128) as usize
}

/// For `0 <= part <= whole_a`, the scaled part `part * whole_b / whole_a`
/// lies between `0` and `whole_b`.
pub proof fn lemma_scaled_part_bounded(part: int, whole_b: int, whole_a: int)
    requires
        0 < whole_a,
        0 <= part <= whole_a,
        0 <= whole_b,
    ensures
        0 <= part * whole_b,
        0 <= (part * whole_b) / whole_a <= whole_b,
{
    assert(0 <= part * whole_b <= whole_a * whole_b) by (nonlinear_arith)
        requires
            0 <= part <= whole_a,
            0 <= whole_b,
    ;
    vstd::arithmetic::div_mod::lemma_div_pos_is_pos(part * whole_b, whole_a);
    vstd::arithmetic::div_mod::lemma_div_is_ordered(part * whole_b, whole_a * whole_b, whole_a);
    assert(whole_a * whole_b == whole_b * whole_a) by (nonlinear_arith);
    vstd::arithmetic::div_mod::lemma_div_multiples_vanish(whole_b, whole_a);
}

/// In a `width` x `height` grid stored row by row, the index of an
/// in-range cell is below `width * height` and gives the cell back: its
/// quotient by the width is the row, its remainder the column.
pub proof fn lemma_row_major(width: int, height: int, x: int, y: int)
    requires
        0 <= x < width,
        0 <= y < height,
    ensures
        0 <= y * width + x < width * height,
        (y * width + x) / width == y,
        (y * width + x) % width == x,
{
    assert(y * width + x < width * height) by (nonlinear_arith)
        requires
            0 <= x < width,
            0 <= y < height,
    ;
    assert(0 <= y * width) by (nonlinear_arith)
        requires
            0 <= y,
            0 < width,
    ;
    vstd::arithmetic::div_mod::lemma_fundamental_div_mod_converse(y * width + x, width, y, x);
}

} // verus!

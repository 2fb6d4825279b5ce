use vstd::prelude::*;
use vstd::arithmetic::div_mod::{lemma_fundamental_div_mod, lemma_fundamental_div_mod_converse};
use vstd::arithmetic::mul::{lemma_mul_inequality, lemma_mul_is_commutative};

verus! {

/// Row-major index of the cell in column `x` and row `y` of a grid `w` cells wide.
pub open spec fn idx(x: int, y: int, w: int) -> int {
    x + y * w
}

/// A column and row inside a `w` by `h` grid give an index inside its cell array,
/// from which the column and row are read back by `%` and `/`.
pub proof fn lemma_idx(x: int, y: int, w: int, h: int)
    requires
        0 <= x < w,
        0 <= y < h,
    ensures
        0 <= idx(x, y, w) < w * h,
        idx(x, y, w) % w == x,
        idx(x, y, w) / w == y,
{
    lemma_mul_inequality(y, h - 1, w);
    assert((h - 1) * w == h * w - w) by (nonlinear_arith);
    lemma_mul_is_commutative(h, w);
    assert(0 <= y * w) by (nonlinear_arith)
        requires
            0 <= y,
            0 < w,
    ;
    lemma_fundamental_div_mod_converse(idx(x, y, w), w, y, x);
}

/// An index inside a `w` by `h` cell array splits into a column below `w` and a row below `h`.
pub proof fn lemma_split(i: int, w: int, h: int)
    requires
        0 <= i < w * h,
        0 <= w,
        0 <= h,
    ensures
        0 < w,
        0 < h,
        0 <= i % w < w,
        0 <= i / w < h,
        i == idx(i % w, i / w, w),
{
    assert(0 < w && 0 < h) by (nonlinear_arith)
        requires
            0 <= i < w * h,
            0 <= w,
            0 <= h,
    ;
    lemma_fundamental_div_mod(i, w);
    assert(0 <= i % w < w) by (nonlinear_arith)
        requires
            0 < w,
    ;
    assert(0 <= i / w < h) by (nonlinear_arith)
        requires
            0 <= i < w * h,
            0 < w,
            i == w * (i / w) + i % w,
            0 <= i % w < w,
    ;
    lemma_mul_is_commutative(w, i / w);
}

} // verus!

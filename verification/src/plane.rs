//! Row-major image planes: where pixel (x, y) sits in a `width` x `height`
//! buffer.
use vstd::prelude::*;

verus! {

/// Row-major index of pixel (x, y) in a plane of width `w`.
pub open spec fn index_of(w: int, x: int, y: int) -> int {
    y * w + x
}

/// (x, y) is a pixel of a `w` x `h` plane.
pub open spec fn in_plane(w: int, h: int, x: int, y: int) -> bool {
    0 <= x < w && 0 <= y < h
}

/// A pixel's index lies in the buffer, and row offsets stay in range.
pub proof fn lemma_index_bounds(w: int, h: int, x: int, y: int)
    requires
        in_plane(w, h, x, y),
    ensures
        0 <= y * w,
        0 <= y * w + x < w * h,
        y * w + w <= w * h,
{
    assert(0 <= y * w && y * w + w <= w * h) by (nonlinear_arith)
        requires
            0 <= y < h,
            0 < w,
    ;
}

/// Column and row are recovered from an index by remainder and quotient.
pub proof fn lemma_index_split(w: int, x: int, y: int)
    requires
        0 <= x < w,
        0 <= y,
    ensures
        (y * w + x) / w == y,
        (y * w + x) % w == x,
{
    vstd::arithmetic::div_mod::lemma_fundamental_div_mod_converse(y * w + x, w, y, x);
}

/// Every index of the buffer is the index of a pixel.
pub proof fn lemma_index_unsplit(w: int, h: int, i: int)
    requires
        0 < w,
        0 <= i < w * h,
    ensures
        in_plane(w, h, i % w, i / w),
        index_of(w, i % w, i / w) == i,
{
    vstd::arithmetic::div_mod::lemma_fundamental_div_mod(i, w);
    assert(i / w < h) by (nonlinear_arith)
        requires
            0 < w,
            0 <= i < w * h,
            i == w * (i / w) + (i % w),
            0 <= i % w,
    ;
    assert(i / w >= 0) by (nonlinear_arith)
        requires
            0 < w,
            0 <= i,
            i == w * (i / w) + (i % w),
            i % w < w,
    ;
    assert((i / w) * w == w * (i / w)) by (nonlinear_arith);
}

} // verus!

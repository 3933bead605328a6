//! Facts about row-major indexing that the grid and screen proofs share.
use vstd::prelude::*;

verus! {

/// The row-major index of a position inside a `w` by `h` grid lies inside the grid's storage.
pub proof fn lemma_row_major_bounds(x: int, y: int, w: int, h: int)
    requires
        0 <= x < w,
        0 <= y < h,
    ensures
        0 <= y * w + x < w * h,
        y * w + x + 1 <= w * h,
{
    assert(0 <= y * w) by (nonlinear_arith)
        requires
            0 <= y,
            0 <= w,
    ;
    assert(y * w + x < w * h) by (nonlinear_arith)
        requires
            0 <= x < w,
            0 <= y < h,
    ;
}

/// Stepping to the next row adds the row length to the row-major index.
pub proof fn lemma_next_row(y: int, w: int)
    ensures
        (y + 1) * w == y * w + w,
{
    assert((y + 1) * w == y * w + w) by (nonlinear_arith);
}

/// Two positions with the same row-major index are the same position.
pub proof fn lemma_row_major_injective(x1: int, y1: int, x2: int, y2: int, w: int)
    requires
        0 <= x1 < w,
        0 <= x2 < w,
        y1 * w + x1 == y2 * w + x2,
    ensures
        x1 == x2,
        y1 == y2,
{
    vstd::arithmetic::div_mod::lemma_fundamental_div_mod_converse(y1 * w + x1, w, y1, x1);
    vstd::arithmetic::div_mod::lemma_fundamental_div_mod_converse(y2 * w + x2, w, y2, x2);
}

/// The byte of channel `c` of pixel `k` in a packed buffer of four-byte pixels is unique to
/// that pixel and channel.
pub proof fn lemma_channel_injective(k1: int, c1: int, k2: int, c2: int)
    requires
        0 <= c1 < 4,
        0 <= c2 < 4,
        k1 * 4 + c1 == k2 * 4 + c2,
    ensures
        k1 == k2,
        c1 == c2,
{
    vstd::arithmetic::div_mod::lemma_fundamental_div_mod_converse(k1 * 4 + c1, 4, k1, c1);
    vstd::arithmetic::div_mod::lemma_fundamental_div_mod_converse(k2 * 4 + c2, 4, k2, c2);
}

} // verus!

//! Row-major indices.

use vstd::prelude::*;
use vstd::arithmetic::div_mod;
use crate::patch;

verus! {

/// A cell inside the grid has an index inside the list, and is found again from
/// it.
pub proof fn lemma_index(w: int, h: int, x: int, y: int)
    requires
        0 <= x < w,
        0 <= y < h,
    ensures
        0 <= y * w + x < w * h,
        0 <= y * w <= y * w + x,
        (y * w + x) % w == x,
        (y * w + x) / w == y,
{
    assert(0 <= y * w) by (nonlinear_arith)
        requires
            0 <= y,
            0 < w,
    ;
    assert(y * w + w <= w * h) by (nonlinear_arith)
        requires
            0 <= y < h,
            0 < w,
    ;
    div_mod::lemma_fundamental_div_mod_converse(y * w + x, w, y, x);
}

/// An index inside the list belongs to a cell inside the grid.
pub proof fn lemma_cell(w: int, h: int, k: int)
    requires
        0 < w,
        0 <= k < w * h,
    ensures
        0 <= k % w < w,
        0 <= k / w < h,
        (k / w) * w + k % w == k,
{
    div_mod::lemma_fundamental_div_mod(k, w);
    div_mod::lemma_mod_bound(k, w);
    assert(w * (k / w) == (k / w) * w) by (nonlinear_arith);
    assert(0 <= k / w < h) by (nonlinear_arith)
        requires
            k == w * (k / w) + k % w,
            0 <= k % w < w,
            0 <= k < w * h,
            0 < w,
    ;
}

/// The nearest index to `p` from `0` to `n - 1`.
pub open spec fn pin(p: int, n: int) -> int {
    if p < 0 {
        0
    } else if p >= n {
        n - 1
    } else {
        p
    }
}


/// The `k`th vertex of the outline of a `w × h` grid, counter-clockwise from
/// the top-left corner: down the left column, right along the bottom, up the
/// right column, left along the top.
pub fn border_point(w: usize, h: usize, k: usize) -> (r: (usize, usize))
    requires
        w >= 2,
        h >= 2,
        2 * (w + h) <= usize::MAX,
        k < 2 * (w + h) - 4,
    ensures
        (r.0 as int, r.1 as int) == patch::around(w - 1, h - 1, k as int),
        r.0 < w,
        r.1 < h,
{
    if k < h {
        (0, k)
    } else if k < h + w - 1 {
        (k - h + 1, h - 1)
    } else if k < 2 * h + w - 2 {
        (w - 1, 2 * h + w - 3 - k)
    } else {
        (2 * h + 2 * w - 4 - k, 0)
    }
}

} // verus!

use vstd::prelude::*;

verus! {

/// The position of cell `(i, j)` (column, row) in a row-major grid `w` cells wide.
pub open spec fn cell(w: int, i: int, j: int) -> int {
    j * w + i
}

pub proof fn lemma_cell_bounds(w: int, h: int, i: int, j: int)
    requires
        0 <= i < w,
        0 <= j < h,
    ensures
        0 <= cell(w, i, j) < w * h,
        cell(w, i, j) < h * w,
        cell(w, i, j) < (j + 1) * w,
        j * w <= cell(w, i, j),
{
    assert(0 <= j * w) by (nonlinear_arith)
        requires
            0 <= j,
            0 <= w,
    ;
    assert((j + 1) * w <= h * w) by (nonlinear_arith)
        requires
            j + 1 <= h,
            0 <= w,
    ;
    assert((j + 1) * w == j * w + w) by (nonlinear_arith);
    assert(h * w == w * h) by (nonlinear_arith);
}

pub proof fn lemma_cell_injective(w: int, i: int, j: int, i2: int, j2: int)
    requires
        0 <= i < w,
        0 <= i2 < w,
        0 <= j,
        0 <= j2,
        cell(w, i, j) == cell(w, i2, j2),
    ensures
        i == i2,
        j == j2,
{
    if j < j2 {
        assert((j + 1) * w <= j2 * w) by (nonlinear_arith)
            requires
                j + 1 <= j2,
                0 <= w,
        ;
        assert((j + 1) * w == j * w + w) by (nonlinear_arith);
    } else if j2 < j {
        assert((j2 + 1) * w <= j * w) by (nonlinear_arith)
            requires
                j2 + 1 <= j,
                0 <= w,
        ;
        assert((j2 + 1) * w == j2 * w + w) by (nonlinear_arith);
    }
}

} // verus!

//! Positions in row-major grids.
use vstd::prelude::*;

verus! {

/// Row and column of a position come back from the position.
pub proof fn row_and_column(row: int, column: int, width: int)
    requires
        0 <= column < width,
    ensures
        (row * width + column) / width == row,
        (row * width + column) % width == column,
{
    vstd::arithmetic::div_mod::lemma_fundamental_div_mod_converse(
        row * width + column,
        width,
        row,
        column,
    );
}

/// A position is made of its row and column.
pub proof fn position(p: int, width: int)
    requires
        width > 0,
    ensures
        p == (p / width) * width + p % width,
        0 <= p % width < width,
        p >= 0 ==> p / width >= 0,
{
    vstd::arithmetic::div_mod::lemma_fundamental_div_mod(p, width);
    assert(width * (p / width) == (p / width) * width) by (nonlinear_arith);
    assert(0 <= p % width < width) by (nonlinear_arith)
        requires
            width > 0,
    ;
    if p >= 0 {
        assert(p / width >= 0) by (nonlinear_arith)
            requires
                p >= 0,
                width > 0,
        ;
    }
}

/// A position in a grid lies inside it, and so does the whole row.
pub proof fn in_grid(row: int, column: int, rows: int, width: int)
    requires
        0 <= row < rows,
        0 <= column < width,
    ensures
        0 <= row * width,
        row * width + width <= rows * width,
        0 <= row * width + column < rows * width,
{
    assert(row * width + width <= rows * width) by (nonlinear_arith)
        requires
            row + 1 <= rows,
            0 <= width,
    ;
    assert(0 <= row * width) by (nonlinear_arith)
        requires
            0 <= row,
            0 <= width,
    ;
}

/// The row of a position in a grid is one of its rows.
pub proof fn row_in_grid(p: int, rows: int, width: int)
    requires
        width > 0,
        0 <= p < rows * width,
    ensures
        0 <= p / width < rows,
{
    position(p, width);
    let row = p / width;
    if row >= rows {
        assert(row * width >= rows * width) by (nonlinear_arith)
            requires
                row >= rows,
                width > 0,
        ;
    }
}

/// A factor of a product that is not empty is positive.
pub proof fn factors_positive(a: int, b: int)
    requires
        a >= 0,
        b >= 0,
        a * b > 0,
    ensures
        a > 0,
        b > 0,
{
    if a == 0 {
        assert(a * b == 0) by (nonlinear_arith)
            requires
                a == 0,
        ;
    }
    if b == 0 {
        assert(a * b == 0) by (nonlinear_arith)
            requires
                b == 0,
        ;
    }
}

} // verus!

//! Grid coordinates and line membership of an `n` by `m` grid whose cells are
//! numbered `row * m + col`.

use vstd::prelude::*;

verus! {

/// Two vertices share a row or a column of a grid with `m` columns.
pub open spec fn same_line(m: int, u: int, v: int) -> bool {
    u / m == v / m || u % m == v % m
}

/// Two distinct vertices are adjacent in the rook's graph of a grid with `m` columns.
pub open spec fn rook_adjacent(m: int, u: int, v: int) -> bool {
    u != v && same_line(m, u, v)
}

/// The vertex index of the cell at `row`, `col` of a grid with `m` columns.
pub open spec fn cell(m: int, row: int, col: int) -> int {
    row * m + col
}

/// A cell's index gives back its row and column, and lies below `n * m`.
pub proof fn lemma_cell(n: int, m: int, row: int, col: int)
    requires
        0 <= row < n,
        0 <= col < m,
    ensures
        0 <= cell(m, row, col) < n * m,
        cell(m, row, col) / m == row,
        cell(m, row, col) % m == col,
{
    assert(0 <= row * m + col < n * m) by (nonlinear_arith)
        requires
            0 <= row < n,
            0 <= col < m,
    ;
    vstd::arithmetic::div_mod::lemma_fundamental_div_mod_converse(row * m + col, m, row, col);
}

/// Each vertex below `n * m` is the cell at its row `u / m` and column `u % m`.
pub proof fn lemma_cell_of(n: int, m: int, u: int)
    requires
        0 <= n,
        0 <= m,
        0 <= u < n * m,
    ensures
        m > 0,
        u == cell(m, u / m, u % m),
        0 <= u / m < n,
        0 <= u % m < m,
{
    assert(m > 0) by (nonlinear_arith)
        requires
            0 <= n,
            0 <= m,
            0 <= u < n * m,
    ;
    vstd::arithmetic::div_mod::lemma_fundamental_div_mod(u, m);
    let q = u / m;
    let r = u % m;
    assert(0 <= q < n) by (nonlinear_arith)
        requires
            0 <= u < n * m,
            u == m * q + r,
            0 <= r < m,
            m > 0,
    ;
    assert(u == q * m + r) by (nonlinear_arith)
        requires
            u == m * q + r,
    ;
}

/// Whether vertices `u` and `v` lie in one row or one column; derived from the
/// indices alone.
pub fn in_line(m: usize, u: usize, v: usize) -> (r: bool)
    requires
        m > 0,
    ensures
        r == same_line(m as int, u as int, v as int),
{
    u / m == v / m || u % m == v % m
}

} // verus!

//! The grid of square tiles over an image.
//!
//! An image of `width` by `height` pixels is covered by tiles of side `edge`,
//! numbered row by row from the tile at the origin. A tile at the right or
//! upper border is cut off where the image ends.

use vstd::arithmetic::div_mod::{
    lemma_fundamental_div_mod, lemma_fundamental_div_mod_converse, lemma_mod_bound,
};
use vstd::prelude::*;

verus! {

/// Number of tiles of side `edge` that it takes to span `extent` pixels:
/// `extent / edge`, rounded up.
pub open spec fn tiles_along(extent: int, edge: int) -> int {
    (extent + edge - 1) / edge
}

/// Number of tiles in the grid over a `width` by `height` image.
pub open spec fn tile_total(width: int, height: int, edge: int) -> int {
    tiles_along(width, edge) * tiles_along(height, edge)
}

/// First pixel of the `k`-th tile along an axis.
pub open spec fn span_start(k: int, edge: int) -> int {
    k * edge
}

/// One past the last pixel of the `k`-th tile along an axis of `extent`
/// pixels: a full `edge` further, or the end of the axis where that comes
/// first.
pub open spec fn span_end(k: int, edge: int, extent: int) -> int {
    if k * edge + edge <= extent {
        k * edge + edge
    } else {
        extent
    }
}

/// Column of the grid in which tile number `index` lies.
pub open spec fn column_of(index: int, width: int, edge: int) -> int {
    index % tiles_along(width, edge)
}

/// Row of the grid in which tile number `index` lies.
pub open spec fn row_of(index: int, width: int, edge: int) -> int {
    index / tiles_along(width, edge)
}

/// Number of the tile that holds pixel `(x, y)`.
pub open spec fn index_at(x: int, y: int, width: int, edge: int) -> int {
    (y / edge) * tiles_along(width, edge) + x / edge
}

proof fn lemma_mul_step(k: int, n: int, edge: int)
    by (nonlinear_arith)
    requires
        k < n,
        edge > 0,
    ensures
        k * edge + edge <= n * edge,
{
}

proof fn lemma_mul_le(k: int, n: int, edge: int)
    by (nonlinear_arith)
    requires
        k <= n,
        edge >= 0,
    ensures
        k * edge <= n * edge,
{
}

/// The `k`-th tile along an axis exists exactly when it starts inside the
/// axis.
pub proof fn lemma_tiles_along(extent: int, edge: int, k: int)
    requires
        edge > 0,
        extent >= 0,
        k >= 0,
    ensures
        tiles_along(extent, edge) >= 0,
        k < tiles_along(extent, edge) <==> k * edge < extent,
{
    let n = tiles_along(extent, edge);
    lemma_fundamental_div_mod(extent + edge - 1, edge);
    lemma_mod_bound(extent + edge - 1, edge);
    assert(edge * n == n * edge) by (nonlinear_arith);
    // (n - 1) * edge < extent <= n * edge
    assert((n - 1) * edge == n * edge - edge) by (nonlinear_arith);
    if n < 0 {
        lemma_mul_step(n, 0, edge);
    }
    if k < n {
        lemma_mul_le(k, n - 1, edge);
    } else {
        lemma_mul_le(n, k, edge);
    }
}

/// A pixel lies in the `k`-th tile along its axis exactly when `k` is its
/// coordinate divided by the tile's side.
pub proof fn lemma_span_holds(x: int, extent: int, edge: int, k: int)
    requires
        edge > 0,
        0 <= x < extent,
        k >= 0,
    ensures
        span_start(k, edge) <= x < span_end(k, edge, extent) <==> k == x / edge,
        0 <= x / edge < tiles_along(extent, edge),
{
    let q = x / edge;
    lemma_fundamental_div_mod(x, edge);
    lemma_mod_bound(x, edge);
    assert(edge * q == q * edge) by (nonlinear_arith);
    if q < 0 {
        lemma_mul_step(q, 0, edge);
    }
    lemma_tiles_along(extent, edge, q);
    if k < q {
        lemma_mul_step(k, q, edge);
    } else if q < k {
        lemma_mul_step(q, k, edge);
    }
}

/// A tile's number splits into its row and column, and back.
pub proof fn lemma_index_splits(row: int, column: int, columns: int)
    requires
        0 <= column < columns,
    ensures
        (row * columns + column) / columns == row,
        (row * columns + column) % columns == column,
{
    lemma_fundamental_div_mod_converse(row * columns + column, columns, row, column);
}

/// Every tile number below the total names a row and a column of the grid.
pub proof fn lemma_index_in_grid(index: int, width: int, height: int, edge: int)
    requires
        edge > 0,
        width >= 0,
        height >= 0,
        0 <= index < tile_total(width, height, edge),
    ensures
        0 <= column_of(index, width, edge) < tiles_along(width, edge),
        0 <= row_of(index, width, edge) < tiles_along(height, edge),
        index == row_of(index, width, edge) * tiles_along(width, edge) + column_of(
            index,
            width,
            edge,
        ),
{
    let columns = tiles_along(width, edge);
    let rows = tiles_along(height, edge);
    lemma_tiles_along(width, edge, 0);
    lemma_tiles_along(height, edge, 0);
    assert(columns > 0) by (nonlinear_arith)
        requires
            columns >= 0,
            0 < columns * rows,
    ;
    lemma_fundamental_div_mod(index, columns);
    lemma_mod_bound(index, columns);
    let row = index / columns;
    assert(columns * row == row * columns) by (nonlinear_arith);
    if row < 0 {
        lemma_mul_step(row, 0, columns);
    }
    if row >= rows {
        lemma_mul_le(rows, row, columns);
        assert(rows * columns == columns * rows) by (nonlinear_arith);
    }
}

/// Counts the tiles of side `edge` that span `extent` pixels.
pub fn tile_count(extent: usize, edge: usize) -> (count: usize)
    requires
        edge > 0,
    ensures
        count == tiles_along(extent as int, edge as int),
{
    let whole: usize = extent / edge;
    let rest: usize = extent % edge;
    proof {
        let e = edge as int;
        lemma_fundamental_div_mod(extent as int, e);
        assert(e * (whole as int) == whole * e) by (nonlinear_arith);
        if rest == 0 {
            lemma_fundamental_div_mod_converse(extent + e - 1, e, whole as int, e - 1);
        } else {
            assert((whole + 1) * e == whole * e + e) by (nonlinear_arith);
            lemma_fundamental_div_mod_converse(extent + e - 1, e, whole + 1, rest - 1);
            assert(whole + 1 <= usize::MAX) by (nonlinear_arith)
                requires
                    whole * e + rest == extent,
                    extent <= usize::MAX,
                    0 < rest < e,
                    whole >= 0,
            ;
        }
    }
    if rest == 0 {
        whole
    } else {
        whole + 1
    }
}

} // verus!

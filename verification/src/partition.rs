//! Cutting an image into tiles, and why the tiles cover it exactly.

use crate::color::CHANNELS;
use crate::grid::{
    column_of, index_at, lemma_index_in_grid, lemma_index_splits, lemma_span_holds,
    lemma_tiles_along, row_of, span_end, span_start, tile_count, tile_total, tiles_along,
};
use crate::tile::Tile;
use vstd::prelude::*;

verus! {

/// Whether `tile` is tile number `index` of the grid over a `width` by
/// `height` image.
pub open spec fn is_grid_tile(tile: Tile, index: int, width: int, height: int, edge: int) -> bool {
    &&& tile.wf()
    &&& tile.edge() == edge
    &&& tile.x_min() == span_start(column_of(index, width, edge), edge)
    &&& tile.x_max() == span_end(column_of(index, width, edge), edge, width)
    &&& tile.y_min() == span_start(row_of(index, width, edge), edge)
    &&& tile.y_max() == span_end(row_of(index, width, edge), edge, height)
}

/// Whether `tiles` are the tiles of the grid over a `width` by `height`
/// image, all of them and in order.
pub open spec fn is_partition(tiles: Seq<Tile>, width: int, height: int, edge: int) -> bool {
    &&& tiles.len() == tile_total(width, height, edge)
    &&& forall|i: int|
        0 <= i < tiles.len() ==> is_grid_tile(#[trigger] tiles[i], i, width, height, edge)
}

/// Cuts a `width` by `height` image into tiles of side `edge`, row by row,
/// each with a zeroed buffer.
pub fn partition(width: usize, height: usize, edge: usize) -> (tiles: Vec<Tile>)
    requires
        edge > 0,
        edge * edge * CHANNELS <= usize::MAX,
    ensures
        is_partition(tiles@, width as int, height as int, edge as int),
        forall|i: int, k: int|
            0 <= i < tiles@.len() && 0 <= k < tiles@[i]@.len() ==> #[trigger] tiles@[i]@[k] == 0,
{
    let columns: usize = tile_count(width, edge);
    let rows: usize = tile_count(height, edge);
    let mut tiles: Vec<Tile> = Vec::new();
    let mut row: usize = 0;
    while row < rows
        invariant
            edge > 0,
            edge * edge * CHANNELS <= usize::MAX,
            columns == tiles_along(width as int, edge as int),
            rows == tiles_along(height as int, edge as int),
            row <= rows,
            tiles@.len() == row * columns,
            forall|i: int|
                0 <= i < tiles@.len() ==> is_grid_tile(
                    #[trigger] tiles@[i],
                    i,
                    width as int,
                    height as int,
                    edge as int,
                ),
            forall|i: int, k: int|
                0 <= i < tiles@.len() && 0 <= k < tiles@[i]@.len() ==> #[trigger] tiles@[i]@[k]
                    == 0,
        decreases rows - row,
    {
        proof {
            lemma_tiles_along(height as int, edge as int, row as int);
        }
        let y_min: usize = row * edge;
        let y_max: usize = if edge <= height - y_min {
            y_min + edge
        } else {
            height
        };
        let mut col: usize = 0;
        while col < columns
            invariant
                edge > 0,
                edge * edge * CHANNELS <= usize::MAX,
                columns == tiles_along(width as int, edge as int),
                row < rows,
                col <= columns,
                y_min == span_start(row as int, edge as int),
                y_max == span_end(row as int, edge as int, height as int),
                y_min < y_max <= y_min + edge,
                tiles@.len() == row * columns + col,
                forall|i: int|
                    0 <= i < tiles@.len() ==> is_grid_tile(
                        #[trigger] tiles@[i],
                        i,
                        width as int,
                        height as int,
                        edge as int,
                    ),
                forall|i: int, k: int|
                    0 <= i < tiles@.len() && 0 <= k < tiles@[i]@.len() ==> #[trigger] tiles@[i]@[k]
                        == 0,
            decreases columns - col,
        {
            proof {
                lemma_tiles_along(width as int, edge as int, col as int);
                lemma_index_splits(row as int, col as int, columns as int);
            }
            let x_min: usize = col * edge;
            let x_max: usize = if edge <= width - x_min {
                x_min + edge
            } else {
                width
            };
            let tile = Tile::new(x_min, x_max, y_min, y_max, edge);
            tiles.push(tile);
            col = col + 1;
        }
        proof {
            assert(row * columns + columns == (row + 1) * columns) by (nonlinear_arith);
        }
        row = row + 1;
    }
    proof {
        assert(rows * columns == columns * rows) by (nonlinear_arith);
    }
    tiles
}

/// Each tile of a partition lies inside the image.
pub proof fn lemma_tile_inside(tiles: Seq<Tile>, width: int, height: int, edge: int, i: int)
    requires
        edge > 0,
        width >= 0,
        height >= 0,
        is_partition(tiles, width, height, edge),
        0 <= i < tiles.len(),
    ensures
        0 <= tiles[i].x_min() < tiles[i].x_max() <= width,
        0 <= tiles[i].y_min() < tiles[i].y_max() <= height,
{
    assert(is_grid_tile(tiles[i], i, width, height, edge));
}

/// No tile of a partition reaches outside the image, and a pixel that a
/// tile holds is held by the tile that `index_at` names and by no other.
pub proof fn lemma_tile_holds(
    tiles: Seq<Tile>,
    width: int,
    height: int,
    edge: int,
    i: int,
    x: int,
    y: int,
)
    requires
        edge > 0,
        width >= 0,
        height >= 0,
        is_partition(tiles, width, height, edge),
        0 <= i < tiles.len(),
        tiles[i].covers(x, y),
    ensures
        0 <= x < width,
        0 <= y < height,
        i == index_at(x, y, width, edge),
{
    let column = column_of(i, width, edge);
    let row = row_of(i, width, edge);
    assert(is_grid_tile(tiles[i], i, width, height, edge));
    lemma_index_in_grid(i, width, height, edge);
    lemma_tiles_along(width, edge, column);
    lemma_tiles_along(height, edge, row);
    assert(0 <= column * edge && 0 <= row * edge) by (nonlinear_arith)
        requires
            0 <= column,
            0 <= row,
            0 < edge,
    ;
    lemma_span_holds(x, width, edge, column);
    lemma_span_holds(y, height, edge, row);
}

/// Every pixel of the image is held by the tile that `index_at` names.
pub proof fn lemma_pixel_held(
    tiles: Seq<Tile>,
    width: int,
    height: int,
    edge: int,
    x: int,
    y: int,
)
    requires
        edge > 0,
        is_partition(tiles, width, height, edge),
        0 <= x < width,
        0 <= y < height,
    ensures
        0 <= index_at(x, y, width, edge) < tiles.len(),
        tiles[index_at(x, y, width, edge)].covers(x, y),
{
    let columns = tiles_along(width, edge);
    let rows = tiles_along(height, edge);
    let column = x / edge;
    let row = y / edge;
    let i = index_at(x, y, width, edge);
    lemma_span_holds(x, width, edge, column);
    lemma_span_holds(y, height, edge, row);
    lemma_index_splits(row, column, columns);
    assert(0 <= row * columns && row * columns + columns <= rows * columns) by (nonlinear_arith)
        requires
            0 <= row < rows,
            0 < columns,
    ;
    assert(rows * columns == columns * rows) by (nonlinear_arith);
    assert(is_grid_tile(tiles[i], i, width, height, edge));
}

/// The tiles of a partition cover the image exactly. Each pixel of the
/// image lies in one tile and in no second one, and no tile holds a pixel
/// outside the image. This holds for every width, height and tile side, so
/// also where the last column or row of tiles is narrower than the others.
pub proof fn lemma_partition_exact(tiles: Seq<Tile>, width: int, height: int, edge: int)
    requires
        edge > 0,
        width >= 0,
        height >= 0,
        is_partition(tiles, width, height, edge),
    ensures
        forall|x: int, y: int|
            0 <= x < width && 0 <= y < height ==> 0 <= #[trigger] index_at(x, y, width, edge)
                < tiles.len() && tiles[index_at(x, y, width, edge)].covers(x, y),
        forall|i: int, x: int, y: int|
            0 <= i < tiles.len() && #[trigger] tiles[i].covers(x, y) ==> 0 <= x < width && 0 <= y
                < height && i == index_at(x, y, width, edge),
{
    assert forall|x: int, y: int| 0 <= x < width && 0 <= y < height implies 0
        <= #[trigger] index_at(x, y, width, edge) < tiles.len() && tiles[index_at(
        x,
        y,
        width,
        edge,
    )].covers(x, y) by {
        lemma_pixel_held(tiles, width, height, edge, x, y);
    }
    assert forall|i: int, x: int, y: int|
        0 <= i < tiles.len() && #[trigger] tiles[i].covers(x, y) implies 0 <= x < width && 0 <= y
        < height && i == index_at(x, y, width, edge) by {
        lemma_tile_holds(tiles, width, height, edge, i, x, y);
    }
}

} // verus!

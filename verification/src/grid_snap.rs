//! Hexagonal grid extents: the lattice points and cell count of a grid, and
//! the cell totals of hexagonal and square packings of a box.

use vstd::prelude::*;
use crate::lattice::{HexCoord, disk_scan, disk_radius_ok, hex_disk_points, hex_disk_count, lemma_disk_size};

verus! {

/// The ring radius of a grid of `columns` by `rows` cells: the larger of the
/// two, as a `u32` (truncated, as a cast does).
pub open spec fn grid_radius(columns: usize, rows: usize) -> u32 {
    (if columns >= rows {
        columns
    } else {
        rows
    }) as u32
}

/// The lattice points of a grid of `columns` by `rows`: the hex disk whose
/// radius is the larger extent.
pub fn grid_coords(columns: usize, rows: usize) -> (v: Vec<HexCoord>)
    requires
        disk_radius_ok(grid_radius(columns, rows) as int),
    ensures
        v@ == disk_scan(grid_radius(columns, rows) as int),
        columns <= u32::MAX && rows <= u32::MAX ==> v@ == disk_scan(
            vstd::math::max(columns as int, rows as int),
        ),
        columns <= u32::MAX && rows <= u32::MAX ==> v@.len() == 3 * vstd::math::max(
            columns as int,
            rows as int,
        ) * vstd::math::max(columns as int, rows as int) + 3 * vstd::math::max(
            columns as int,
            rows as int,
        ) + 1,
{
    let extent = if columns >= rows {
        columns
    } else {
        rows
    };
    let v = hex_disk_points(extent as u32);
    proof {
        if columns <= u32::MAX && rows <= u32::MAX {
            lemma_disk_size(extent as int);
        }
    }
    v
}

/// The number of cells of a grid of `columns` by `rows`: `3r² + 3r + 1`
/// for its radius `r`.
pub fn grid_cell_count(columns: usize, rows: usize) -> (n: u64)
    requires
        3 * grid_radius(columns, rows) * grid_radius(columns, rows) + 3 * grid_radius(
            columns,
            rows,
        ) + 1 <= u64::MAX,
    ensures
        n == 3 * grid_radius(columns, rows) * grid_radius(columns, rows) + 3 * grid_radius(
            columns,
            rows,
        ) + 1,
        columns <= u32::MAX && rows <= u32::MAX ==> n == 3 * vstd::math::max(
            columns as int,
            rows as int,
        ) * vstd::math::max(columns as int, rows as int) + 3 * vstd::math::max(
            columns as int,
            rows as int,
        ) + 1,
{
    let extent = if columns >= rows {
        columns
    } else {
        rows
    };
    hex_disk_count(extent as u32)
}

/// A grid's lattice points are as many as its cell count: `grid_coords`
/// lists `3r² + 3r + 1` points for the grid radius `r`, the number that
/// `grid_cell_count` reports.
pub proof fn lemma_grid_coords_match_count(columns: usize, rows: usize)
    requires
        disk_radius_ok(grid_radius(columns, rows) as int),
    ensures
        disk_scan(grid_radius(columns, rows) as int).len() == 3 * grid_radius(columns, rows)
            * grid_radius(columns, rows) + 3 * grid_radius(columns, rows) + 1,
{
    lemma_disk_size(grid_radius(columns, rows) as int);
}

/// A grid extends as far as its larger side: for sides that fit in `u32`,
/// the grid of `columns` by `rows` is the hex disk of radius
/// `max(columns, rows)`, with `3m² + 3m + 1` cells for that `m`; the
/// columns and rows can be swapped without changing the grid, and widening
/// a grid never shrinks it.
pub proof fn lemma_grid_extent_is_larger_side(columns: usize, rows: usize)
    requires
        columns <= u32::MAX,
        rows <= u32::MAX,
    ensures
        grid_radius(columns, rows) == vstd::math::max(columns as int, rows as int),
        grid_radius(columns, rows) >= columns,
        grid_radius(columns, rows) >= rows,
        grid_radius(columns, rows) == grid_radius(rows, columns),
        disk_radius_ok(vstd::math::max(columns as int, rows as int)) ==> disk_scan(
            grid_radius(columns, rows) as int,
        ).len() == 3 * vstd::math::max(columns as int, rows as int) * vstd::math::max(
            columns as int,
            rows as int,
        ) + 3 * vstd::math::max(columns as int, rows as int) + 1,
{
    if disk_radius_ok(vstd::math::max(columns as int, rows as int)) {
        lemma_disk_size(vstd::math::max(columns as int, rows as int));
    }
}

/// Cell totals of the packings of a box: `square_columns * square_rows`
/// square cells, and `hex_columns * hex_rows` hexagonal cells plus one for
/// every second (offset) row when there is at least one column.
pub fn packing_cells(
    square_columns: usize,
    square_rows: usize,
    hex_columns: usize,
    hex_rows: usize,
) -> (r: (usize, usize))
    requires
        square_columns * square_rows <= usize::MAX,
        hex_columns * hex_rows + (if hex_columns > 0 {
            hex_rows / 2
        } else {
            0
        }) <= usize::MAX,
    ensures
        r.0 == hex_columns * hex_rows + (if hex_columns > 0 {
            hex_rows / 2
        } else {
            0
        }),
        r.1 == square_columns * square_rows,
{
    let square_cells = square_columns * square_rows;
    let extra: usize = if hex_columns > 0 {
        1
    } else {
        0
    };
    proof {
        assert(0 <= hex_columns * hex_rows) by (nonlinear_arith);
    }
    let hex_cells = hex_columns * hex_rows + (hex_rows / 2) * extra;
    (hex_cells, square_cells)
}

} // verus!

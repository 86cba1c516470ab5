//! A rectangular grid of cells, held in an `ndarray` two-dimensional array.
//! Both the board and a piece's shape are grids.

use vstd::prelude::*;
use crate::block::Block;
use ndarray::Array2;

verus! {

/// A grid of cells, row by row. The array itself is `ndarray`'s; Verus sees the
/// rows through `grid_rows`.
#[verifier::external_body]
pub struct Grid {
    cells: Array2<Block>,
}

/// The cells of a grid, as a sequence of rows (row 0 first), each a sequence of
/// the row's cells (column 0 first).
pub uninterp spec fn grid_rows(g: Grid) -> Seq<Seq<Block>>;

/// The number of columns of a grid, which an array keeps even when it has no rows.
pub uninterp spec fn grid_width(g: Grid) -> nat;

impl View for Grid {
    type V = Seq<Seq<Block>>;

    open spec fn view(&self) -> Seq<Seq<Block>> {
        grid_rows(*self)
    }
}

/// `rows` is a rectangle of `height` rows of `width` cells each.
pub open spec fn is_rect(rows: Seq<Seq<Block>>, height: int, width: int) -> bool {
    &&& rows.len() == height
    &&& forall|i: int| 0 <= i < height ==> #[trigger] rows[i].len() == width
}

/// The grid of `height` rows of `width` copies of `fill`.
pub open spec fn filled(height: int, width: int, fill: Block) -> Seq<Seq<Block>> {
    Seq::new(height as nat, |i: int| Seq::new(width as nat, |j: int| fill))
}

/// `ndarray::Array::from_elem` on the shape `(height, width)` in column-major
/// layout: a grid of `height` rows of `width` copies of `fill`. It panics when the
/// product of the non-zero side lengths overflows `isize`, which `requires` leaves
/// out.
#[verifier::external_body]
pub(crate) fn array_from_elem(height: usize, width: usize, fill: Block) -> (g: Grid)
    requires
        height <= isize::MAX,
        width <= isize::MAX,
        height * width <= isize::MAX,
    ensures
        grid_rows(g) == filled(height as int, width as int, fill),
        grid_width(g) == width,
{
    Grid { cells: ndarray::Array::from_elem(ndarray::ShapeBuilder::f((height, width)), fill) }
}

/// `ArrayBase::dim` of a two-dimensional array: its number of rows and of columns.
/// Every row of an `ndarray` array has as many cells as the array has columns, and
/// neither side nor the number of cells ever exceeds `isize::MAX`.
#[verifier::external_body]
pub(crate) fn array_dim(g: &Grid) -> (d: (usize, usize))
    ensures
        is_rect(grid_rows(*g), d.0 as int, d.1 as int),
        d.1 == grid_width(*g),
        d.0 <= isize::MAX,
        d.1 <= isize::MAX,
        d.0 * d.1 <= isize::MAX,
{
    g.cells.dim()
}

/// Indexing an array by `[[row, col]]`: the cell there. Indexing outside the
/// array panics, which `requires` leaves out.
#[verifier::external_body]
pub(crate) fn array_get(g: &Grid, row: usize, col: usize) -> (b: Block)
    requires
        row < grid_rows(*g).len(),
        col < grid_rows(*g)[row as int].len(),
    ensures
        b == grid_rows(*g)[row as int][col as int],
{
    g.cells[[row, col]]
}

/// Mutable indexing of an array by `[[row, col]]`, written to: the one cell
/// changes to `b`, every other stays.
#[verifier::external_body]
pub(crate) fn array_set(g: &mut Grid, row: usize, col: usize, b: Block)
    requires
        row < grid_rows(*old(g)).len(),
        col < grid_rows(*old(g))[row as int].len(),
    ensures
        grid_rows(*final(g)) == grid_rows(*old(g)).update(
            row as int,
            grid_rows(*old(g))[row as int].update(col as int, b),
        ),
        grid_width(*final(g)) == grid_width(*old(g)),
{
    g.cells[[row, col]] = b;
}

/// `Clone::clone` of an array of `Copy` cells: a grid with the same cells.
#[verifier::external_body]
pub(crate) fn array_clone(g: &Grid) -> (c: Grid)
    ensures
        grid_rows(c) == grid_rows(*g),
        grid_width(c) == grid_width(*g),
{
    Grid { cells: g.cells.clone() }
}

impl Grid {
    /// The number of columns.
    pub open spec fn width(&self) -> nat {
        grid_width(*self)
    }

    /// A grid of `height` rows of `width` copies of `fill`.
    pub fn new(height: usize, width: usize, fill: Block) -> (g: Grid)
        requires
            height <= isize::MAX,
            width <= isize::MAX,
            height * width <= isize::MAX,
        ensures
            g@ == filled(height as int, width as int, fill),
            is_rect(g@, height as int, width as int),
            g.width() == width,
    {
        array_from_elem(height, width, fill)
    }

    /// The number of rows and the number of columns.
    pub fn dim(&self) -> (d: (usize, usize))
        ensures
            is_rect(self@, d.0 as int, d.1 as int),
            d.0 == self@.len(),
            d.1 == self.width(),
            d.0 <= isize::MAX,
            d.1 <= isize::MAX,
            d.0 * d.1 <= isize::MAX,
    {
        array_dim(self)
    }

    /// The cell in row `row` and column `col`.
    pub fn get(&self, row: usize, col: usize) -> (b: Block)
        requires
            row < self@.len(),
            col < self@[row as int].len(),
        ensures
            b == self@[row as int][col as int],
    {
        array_get(self, row, col)
    }

    /// Sets the cell in row `row` and column `col` to `b`.
    pub fn set(&mut self, row: usize, col: usize, b: Block)
        requires
            row < old(self)@.len(),
            col < old(self)@[row as int].len(),
        ensures
            final(self)@ == old(self)@.update(row as int, old(self)@[row as int].update(col as int, b)),
            final(self).width() == old(self).width(),
    {
        array_set(self, row, col, b)
    }

    /// A grid with the same cells.
    pub fn duplicate(&self) -> (c: Grid)
        ensures
            c@ == self@,
            c.width() == self.width(),
    {
        array_clone(self)
    }
}

} // verus!

//! The tile grid, a fixed matrix of tiles addressed by row and column.

use array2d::Array2D;
use vstd::prelude::*;

verus! {

/// What a cell of the grid holds.
#[derive(Clone, Copy, PartialEq, Eq, Debug, Structural)]
pub enum Tile {
    Ground,
    Wall,
}

/// A tile of the grid, by its column `x` and its row `y`.
#[derive(Clone, Copy, Debug)]
pub struct Location(pub i32, pub i32);

impl Default for Location {
    fn default() -> (location: Location)
        ensures
            location.0 == 1,
            location.1 == 1,
    {
        Location(1, 1)
    }
}

/// `array2d::Array2D`, a matrix of fixed size. Of its cells only what
/// `array_rows` names is known.
#[verifier::external_type_specification]
#[verifier::external_body]
#[verifier::reject_recursive_types(T)]
pub struct ExArray2D<T: Clone>(Array2D<T>);

/// The rows of an array, each a sequence of its cells from the first column
/// on: what `Array2D::as_rows` hands out.
pub uninterp spec fn array_rows(array: Array2D<Tile>) -> Seq<Seq<Tile>>;

/// Whether `array` has a cell at `row` and `column`.
pub open spec fn array_has(array: Array2D<Tile>, row: int, column: int) -> bool {
    0 <= row < array_rows(array).len() && 0 <= column < array_rows(array)[row].len()
}

/// `Array2D::filled_with`: an array of `rows` rows of `columns` cells, each
/// holding `tile`. The product of the two must fit a `usize`, as the array
/// multiplies them to size its storage.
#[verifier::external_body]
fn array_filled(tile: Tile, rows: usize, columns: usize) -> (array: Array2D<Tile>)
    requires
        rows * columns <= usize::MAX,
    ensures
        array_rows(array).len() == rows,
        forall|r: int| 0 <= r < rows ==> (#[trigger] array_rows(array)[r]).len() == columns,
        forall|r: int, c: int|
            0 <= r < rows && 0 <= c < columns ==> #[trigger] array_rows(array)[r][c] == tile,
{
    Array2D::filled_with(tile, rows, columns)
}

/// `Array2D::get`: the cell at `row` and `column`, or `None` where the array
/// has no such cell.
#[verifier::external_body]
fn array_get(array: &Array2D<Tile>, row: usize, column: usize) -> (cell: Option<Tile>)
    ensures
        array_has(*array, row as int, column as int) ==> cell == Some(
            array_rows(*array)[row as int][column as int],
        ),
        !array_has(*array, row as int, column as int) ==> cell is None,
{
    array.get(row, column).copied()
}

/// `Array2D::set`: writes `tile` at `row` and `column` and answers `true`;
/// where the array has no such cell it is left as it was and the answer is
/// `false`.
#[verifier::external_body]
fn array_set(array: &mut Array2D<Tile>, row: usize, column: usize, tile: Tile) -> (done: bool)
    ensures
        done == array_has(*old(array), row as int, column as int),
        done ==> array_rows(*final(array)) == array_rows(*old(array)).update(
            row as int,
            array_rows(*old(array))[row as int].update(column as int, tile),
        ),
        !done ==> array_rows(*final(array)) == array_rows(*old(array)),
{
    array.set(row, column, tile).is_ok()
}

/// The rows of a grid of the given size with a wall in every cell.
pub open spec fn spec_blank(height: int, width: int) -> Seq<Seq<Tile>> {
    Seq::new(height as nat, |y: int| Seq::new(width as nat, |x: int| Tile::Wall))
}

/// A fixed `height × width` matrix of tiles. Rows are counted upwards from
/// the bottom (`y`), columns from the left (`x`).
pub struct Grid {
    cells: Array2D<Tile>,
    height: usize,
    width: usize,
}

impl Grid {
    /// The rows of the grid, from `y = 0` on; each row from `x = 0` on.
    pub closed spec fn view(&self) -> Seq<Seq<Tile>> {
        array_rows(self.cells)
    }

    /// The number of rows.
    pub closed spec fn spec_height(&self) -> usize {
        self.height
    }

    /// The number of columns.
    pub closed spec fn spec_width(&self) -> usize {
        self.width
    }

    /// The grid has `height()` rows of `width()` tiles each.
    pub open spec fn wf(&self) -> bool {
        &&& self@.len() == self.spec_height()
        &&& forall|row: int|
            0 <= row < self@.len() ==> (#[trigger] self@[row]).len() == self.spec_width()
    }

    /// Whether `(x, y)` names a cell of the grid.
    pub open spec fn has(&self, x: int, y: int) -> bool {
        0 <= y < self.spec_height() && 0 <= x < self.spec_width()
    }

    /// Whether `(x, y)` is a cell of the grid that holds ground.
    pub open spec fn ground(&self, x: int, y: int) -> bool {
        self.has(x, y) && self@[y][x] == Tile::Ground
    }

    /// A grid of the given size with a wall in every cell.
    pub fn new(height: usize, width: usize) -> (grid: Grid)
        requires
            height * width <= usize::MAX,
        ensures
            grid.wf(),
            grid.spec_height() == height,
            grid.spec_width() == width,
            forall|x: int, y: int| grid.has(x, y) ==> #[trigger] grid@[y][x] == Tile::Wall,
            grid@ == spec_blank(height as int, width as int),
    {
        let grid = Grid { cells: array_filled(Tile::Wall, height, width), height, width };
        proof {
            let blank = spec_blank(height as int, width as int);
            assert forall|y: int| 0 <= y < grid@.len() implies #[trigger] grid@[y] == blank[y] by {
                assert(grid@[y] =~= blank[y]);
            }
            assert(grid@ =~= blank);
        }
        grid
    }

    #[verifier::when_used_as_spec(spec_height)]
    pub fn height(&self) -> (height: usize)
        ensures
            height == self.spec_height(),
    {
        self.height
    }

    #[verifier::when_used_as_spec(spec_width)]
    pub fn width(&self) -> (width: usize)
        ensures
            width == self.spec_width(),
    {
        self.width
    }

    /// The tile at `row` and `column`, or `None` where the grid has no such
    /// cell.
    pub fn get(&self, row: usize, column: usize) -> (tile: Option<Tile>)
        requires
            self.wf(),
        ensures
            self.has(column as int, row as int) ==> tile == Some(self@[row as int][column as int]),
            !self.has(column as int, row as int) ==> tile is None,
    {
        array_get(&self.cells, row, column)
    }

    /// What lies at the tile `(x, y)`: its tile, or `None` where the grid has
    /// no such cell.
    pub open spec fn spec_look(&self, x: int, y: int) -> Option<Tile> {
        if self.has(x, y) {
            Some(self@[y][x])
        } else {
            None
        }
    }

    /// What lies at the tile `(x, y)`: its tile, or `None` where the grid has
    /// no such cell, as for every tile left of the first column or below the
    /// first row.
    pub fn look(&self, x: i32, y: i32) -> (tile: Option<Tile>)
        requires
            self.wf(),
        ensures
            tile == self.spec_look(x as int, y as int),
    {
        if x < 0 || y < 0 {
            None
        } else {
            self.get(y as usize, x as usize)
        }
    }

    /// Writes `tile` at `row` and `column`. Outside the grid nothing is
    /// written and the answer is `false`.
    pub fn set(&mut self, row: usize, column: usize, tile: Tile) -> (done: bool)
        requires
            old(self).wf(),
        ensures
            final(self).wf(),
            final(self).spec_height() == old(self).spec_height(),
            final(self).spec_width() == old(self).spec_width(),
            done == old(self).has(column as int, row as int),
            done ==> final(self)@ == old(self)@.update(
                row as int,
                old(self)@[row as int].update(column as int, tile),
            ),
            !done ==> final(self)@ == old(self)@,
    {
        array_set(&mut self.cells, row, column, tile)
    }
}

} // verus!

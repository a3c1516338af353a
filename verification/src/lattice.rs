//! The sector lattice: a coarse grid of equal sectors laid over the tile
//! grid. Sectors are numbered row by row from the bottom left, starting at 0.

use vstd::arithmetic::div_mod::{lemma_fundamental_div_mod, lemma_fundamental_div_mod_converse};
use vstd::prelude::*;

verus! {

/// Why no map was produced.
#[derive(Clone, Copy, PartialEq, Eq, Debug, Structural)]
pub enum MapError {
    /// The sectors cannot host a room of the smallest size with its margin,
    /// or the number of real rooms is not between one and the number of
    /// sectors.
    ConfigError,
    /// Some real room cannot be linked to the spawn room by any further
    /// link.
    GenerationError,
}

/// The narrowest sector that hosts a room: five tiles and a margin of two.
pub const MIN_SECTOR_WIDTH: u32 = 7;

/// The lowest sector that hosts a room: four tiles and a margin of two.
pub const MIN_SECTOR_HEIGHT: u32 = 6;

/// The fewest tiles of a sector that hosts a room.
pub const MIN_SECTOR_TILES: u32 = 42;

/// The largest number of tiles a grid may have, so that every coordinate
/// and every count fits the integer types in use.
pub const MAX_TILES: u32 = 0x7fff_ffff;

/// A lattice of `rows × columns` sectors of `sector_width × sector_height`
/// tiles each.
#[derive(Clone, Copy, Debug)]
pub struct Lattice {
    pub rows: u32,
    pub columns: u32,
    pub sector_width: u32,
    pub sector_height: u32,
}

impl Lattice {
    /// The lattice has a sector, each sector can host a room, and the
    /// lattice covers no more than `MAX_TILES` tiles.
    pub open spec fn wf(&self) -> bool {
        &&& self.rows >= 1
        &&& self.columns >= 1
        &&& self.sector_width >= MIN_SECTOR_WIDTH
        &&& self.sector_height >= MIN_SECTOR_HEIGHT
        &&& MIN_SECTOR_TILES * (self.rows * self.columns) <= MAX_TILES
        &&& self.columns * self.sector_width <= MAX_TILES
        &&& self.rows * self.sector_height <= MAX_TILES
    }

    /// The lattice lies within a grid of `height × width` tiles.
    pub open spec fn fits(&self, height: int, width: int) -> bool {
        self.columns * self.sector_width <= width && self.rows * self.sector_height <= height
    }

    /// The lattice is what dividing a grid of `map_height × map_width`
    /// tiles into `rows × columns` sectors gives: each sector as wide and as
    /// high as a whole number of tiles allows.
    pub open spec fn divides(
        &self,
        map_height: u32,
        map_width: u32,
        rows: u32,
        columns: u32,
    ) -> bool {
        &&& self.rows == rows
        &&& self.columns == columns
        &&& self.sector_width == map_width / columns
        &&& self.sector_height == map_height / rows
    }

    /// The number of sectors.
    pub open spec fn spec_total(&self) -> int {
        self.rows * self.columns
    }

    /// The lattice column of sector `id`.
    pub open spec fn column_of(&self, id: int) -> int {
        id % (self.columns as int)
    }

    /// The lattice row of sector `id`.
    pub open spec fn row_of(&self, id: int) -> int {
        id / (self.columns as int)
    }

    /// The tile column at which sector `id` begins.
    pub open spec fn origin_x(&self, id: int) -> int {
        self.column_of(id) * self.sector_width
    }

    /// The tile row at which sector `id` begins.
    pub open spec fn origin_y(&self, id: int) -> int {
        self.row_of(id) * self.sector_height
    }

    /// Sector `b` is the left, right, lower or upper neighbour of sector
    /// `a`.
    pub open spec fn adjacent(&self, a: int, b: int) -> bool {
        &&& 0 <= a < self.spec_total()
        &&& {
            ||| b == a - 1 && self.column_of(a) > 0
            ||| b == a + 1 && self.column_of(a) + 1 < self.columns
            ||| b == a - self.columns && self.row_of(a) > 0
            ||| b == a + self.columns && self.row_of(a) + 1 < self.rows
        }
    }

    /// Sector `b` is the right neighbour of sector `a`.
    pub open spec fn beside(&self, a: int, b: int) -> bool {
        0 <= a < self.spec_total() && b == a + 1 && self.column_of(a) + 1 < self.columns
    }

    /// Sector `b` is the upper neighbour of sector `a`.
    pub open spec fn above(&self, a: int, b: int) -> bool {
        0 <= a < self.spec_total() && b == a + self.columns && self.row_of(a) + 1 < self.rows
    }

    /// The neighbours of sector `id`: left, right, lower, upper, as far as
    /// the lattice has them.
    pub open spec fn spec_neighbours(&self, id: int) -> Seq<u32> {
        let left = if self.column_of(id) > 0 {
            seq![(id - 1) as u32]
        } else {
            Seq::empty()
        };
        let right = if self.column_of(id) + 1 < self.columns {
            seq![(id + 1) as u32]
        } else {
            Seq::empty()
        };
        let lower = if self.row_of(id) > 0 {
            seq![(id - self.columns) as u32]
        } else {
            Seq::empty()
        };
        let upper = if self.row_of(id) + 1 < self.rows {
            seq![(id + self.columns) as u32]
        } else {
            Seq::empty()
        };
        left + right + lower + upper
    }

    /// Divides a grid of `map_height × map_width` tiles into
    /// `rows × columns` sectors. Tiles that the division leaves over belong
    /// to no sector.
    pub fn partition(
        map_height: u32,
        map_width: u32,
        rows: u32,
        columns: u32,
    ) -> (made: Result<Lattice, MapError>)
        requires
            map_height * map_width <= MAX_TILES,
        ensures
            made is Err <==> rows == 0 || columns == 0 || map_width / columns < MIN_SECTOR_WIDTH
                || map_height / rows < MIN_SECTOR_HEIGHT,
            made is Err ==> made == Err::<Lattice, MapError>(MapError::ConfigError),
            made matches Ok(lattice) ==> lattice.divides(map_height, map_width, rows, columns),
            made matches Ok(lattice) ==> lattice.wf() && lattice.fits(
                map_height as int,
                map_width as int,
            ),
    {
        if rows == 0 || columns == 0 {
            return Err(MapError::ConfigError);
        }
        let sector_width = map_width / columns;
        let sector_height = map_height / rows;
        if sector_width < MIN_SECTOR_WIDTH || sector_height < MIN_SECTOR_HEIGHT {
            return Err(MapError::ConfigError);
        }
        proof {
            lemma_fundamental_div_mod(map_width as int, columns as int);
            lemma_fundamental_div_mod(map_height as int, rows as int);
            let (h, w, r, c, sh, sw) = (
                map_height as int,
                map_width as int,
                rows as int,
                columns as int,
                sector_height as int,
                sector_width as int,
            );
            assert(c * sw <= w);
            assert(r * sh <= h);
            assert(42 * (r * c) <= h * w) by (nonlinear_arith)
                requires
                    r * sh <= h,
                    c * sw <= w,
                    sh >= 6,
                    sw >= 7,
                    r >= 1,
                    c >= 1,
            ;
            assert(w <= h * w && h <= h * w) by (nonlinear_arith)
                requires
                    h >= 1,
                    w >= 1,
            ;
        }
        Ok(Lattice { rows, columns, sector_width, sector_height })
    }

    /// The number of sectors.
    #[verifier::when_used_as_spec(spec_total_u32)]
    pub fn total(&self) -> (total: u32)
        requires
            self.wf(),
        ensures
            total == self.spec_total(),
    {
        self.rows * self.columns
    }

    /// The number of sectors, as the count that `total` gives.
    pub open spec fn spec_total_u32(&self) -> u32 {
        (self.rows * self.columns) as u32
    }

    /// The neighbours of sector `id`: left, right, lower, upper, as far as
    /// the lattice has them.
    pub fn neighbours(&self, id: u32) -> (near: Vec<u32>)
        requires
            self.wf(),
            id < self.spec_total(),
        ensures
            near@ == self.spec_neighbours(id as int),
    {
        let column = id % self.columns;
        let row = id / self.columns;
        proof {
            self.lemma_position(id as int);
            if column + 1 < self.columns {
                self.lemma_adjacent(id as int, id + 1);
            }
            if row + 1 < self.rows {
                self.lemma_adjacent(id as int, id + self.columns);
            }
            if row > 0 {
                self.lemma_adjacent(id as int, id - self.columns);
            }
        }
        let mut near: Vec<u32> = Vec::new();
        if column > 0 {
            near.push(id - 1);
        }
        if column + 1 < self.columns {
            near.push(id + 1);
        }
        if row > 0 {
            near.push(id - self.columns);
        }
        if row + 1 < self.rows {
            near.push(id + self.columns);
        }
        near
    }

    /// The tile at which sector `id` begins, as its column and its row.
    pub fn origin(&self, id: u32) -> (at: (u32, u32))
        requires
            self.wf(),
            id < self.spec_total(),
        ensures
            at.0 == self.origin_x(id as int),
            at.1 == self.origin_y(id as int),
    {
        proof {
            self.lemma_position(id as int);
        }
        ((id % self.columns) * self.sector_width, (id / self.columns) * self.sector_height)
    }

    /// The list of neighbours holds each neighbour once and nothing else.
    pub proof fn lemma_neighbours(&self, id: int)
        requires
            self.wf(),
            0 <= id < self.spec_total(),
        ensures
            self.spec_neighbours(id).no_duplicates(),
            self.spec_neighbours(id).len() <= 4,
            forall|b: u32| #[trigger]
                self.spec_neighbours(id).contains(b) <==> self.adjacent(id, b as int),
    {
        self.lemma_position(id);
        let near = self.spec_neighbours(id);
        let c = self.columns as int;
        assert(self.spec_total() == self.rows * c);
        if self.column_of(id) + 1 < c {
            self.lemma_adjacent(id, id + 1);
        }
        if self.row_of(id) + 1 < self.rows {
            self.lemma_adjacent(id, id + c);
        }
        if self.row_of(id) > 0 {
            self.lemma_adjacent(id, id - c);
        }
        if self.column_of(id) > 0 {
            self.lemma_adjacent(id, id - 1);
        }
        assert forall|b: u32| #[trigger] near.contains(b) <==> self.adjacent(id, b as int) by {
            if self.adjacent(id, b as int) {
                if b == id - 1 && self.column_of(id) > 0 {
                    assert(near[0] == b);
                } else if b == id + 1 && self.column_of(id) + 1 < c {
                    let at = if self.column_of(id) > 0 { 1int } else { 0int };
                    assert(near[at] == b);
                } else if b == id - c && self.row_of(id) > 0 {
                    let left = if self.column_of(id) > 0 { 1int } else { 0int };
                    let right = if self.column_of(id) + 1 < c { 1int } else { 0int };
                    assert(near[left + right] == b);
                } else {
                    let at = near.len() - 1;
                    assert(near[at] == b);
                }
            }
        }
    }

    /// The sector to the right begins where the first one ends, in the same
    /// tile rows; the sector above begins where the first one ends, in the
    /// same tile columns.
    pub proof fn lemma_origins(&self, a: int, b: int)
        requires
            self.wf(),
            self.beside(a, b) || self.above(a, b),
        ensures
            self.adjacent(a, b),
            0 <= b < self.spec_total(),
            self.beside(a, b) ==> self.origin_x(b) == self.origin_x(a) + self.sector_width
                && self.origin_y(b) == self.origin_y(a),
            self.above(a, b) ==> self.origin_y(b) == self.origin_y(a) + self.sector_height
                && self.origin_x(b) == self.origin_x(a),
    {
        self.lemma_adjacent(a, b);
        let col = self.column_of(a);
        let row = self.row_of(a);
        let sw = self.sector_width as int;
        let sh = self.sector_height as int;
        assert((col + 1) * sw == col * sw + sw) by (nonlinear_arith);
        assert((row + 1) * sh == row * sh + sh) by (nonlinear_arith);
    }

    /// Whether the tile `(x, y)` lies in sector `id`.
    pub open spec fn holds(&self, id: int, x: int, y: int) -> bool {
        &&& self.origin_x(id) <= x < self.origin_x(id) + self.sector_width
        &&& self.origin_y(id) <= y < self.origin_y(id) + self.sector_height
    }

    /// How many steps from a sector to a neighbour lead from `a` to `b`.
    pub open spec fn distance(&self, a: int, b: int) -> int {
        let across = self.column_of(a) - self.column_of(b);
        let along = self.row_of(a) - self.row_of(b);
        (if across < 0 {
            -across
        } else {
            across
        }) + (if along < 0 {
            -along
        } else {
            along
        })
    }

    /// The lattice is in one piece: a set of sectors that holds, with each
    /// sector, all its neighbours, holds every sector if it holds one.
    pub proof fn lemma_spread(&self, inside: Set<int>, from: int, to: int)
        requires
            self.wf(),
            0 <= from < self.spec_total(),
            0 <= to < self.spec_total(),
            inside.contains(from),
            forall|a: int, b: int| inside.contains(a) && self.adjacent(a, b) ==> inside.contains(b),
        ensures
            inside.contains(to),
        decreases self.distance(to, from),
    {
        self.lemma_position(from);
        self.lemma_position(to);
        let step = if self.column_of(to) > self.column_of(from) {
            to - 1
        } else if self.column_of(to) < self.column_of(from) {
            to + 1
        } else if self.row_of(to) > self.row_of(from) {
            to - self.columns
        } else {
            to + self.columns
        };
        if self.column_of(to) == self.column_of(from) && self.row_of(to) == self.row_of(from) {
            assert(to == from);
        } else {
            assert(self.adjacent(to, step));
            self.lemma_adjacent(to, step);
            self.lemma_adjacent(step, to);
            self.lemma_position(step);
            self.lemma_spread(inside, from, step);
        }
    }

    /// Where a sector lies in the lattice, and what follows for its
    /// neighbours' numbers.
    pub proof fn lemma_position(&self, id: int)
        requires
            self.wf(),
            0 <= id < self.spec_total(),
        ensures
            0 <= self.column_of(id) < self.columns,
            0 <= self.row_of(id) < self.rows,
            id == self.row_of(id) * self.columns + self.column_of(id),
            0 <= self.origin_x(id),
            self.origin_x(id) + self.sector_width <= self.columns * self.sector_width,
            0 <= self.origin_y(id),
            self.origin_y(id) + self.sector_height <= self.rows * self.sector_height,
    {
        let c = self.columns as int;
        let r = self.rows as int;
        let col = id % c;
        let row = id / c;
        lemma_fundamental_div_mod(id, c);
        assert(c * row == row * c) by (nonlinear_arith);
        assert(row < r) by (nonlinear_arith)
            requires
                row * c + col == id,
                id < r * c,
                0 <= col,
                c > 0,
        ;
        assert(row >= 0) by (nonlinear_arith)
            requires
                row * c + col == id,
                id >= 0,
                col < c,
                c > 0,
        ;
        let sw = self.sector_width as int;
        let sh = self.sector_height as int;
        assert(0 <= col * sw && col * sw + sw <= c * sw) by (nonlinear_arith)
            requires
                0 <= col < c,
                sw >= 0,
        ;
        assert(0 <= row * sh && row * sh + sh <= r * sh) by (nonlinear_arith)
            requires
                0 <= row < r,
                sh >= 0,
        ;
    }

    /// A neighbour is a sector of the lattice that differs by one in its
    /// column or in its row, and has the first sector as a neighbour in
    /// turn.
    pub proof fn lemma_adjacent(&self, a: int, b: int)
        requires
            self.wf(),
            self.adjacent(a, b),
        ensures
            0 <= b < self.spec_total(),
            a != b,
            self.adjacent(b, a),
            a < b ==> (self.beside(a, b) || self.above(a, b)) && !(self.beside(a, b) && self.above(
                a,
                b,
            )),
            self.beside(a, b) ==> self.row_of(b) == self.row_of(a) && self.column_of(b)
                == self.column_of(a) + 1,
            self.above(a, b) ==> self.row_of(b) == self.row_of(a) + 1 && self.column_of(b)
                == self.column_of(a),
    {
        self.lemma_position(a);
        let c = self.columns as int;
        let r = self.rows as int;
        let col = a % c;
        let row = a / c;
        assert(r * c == (r - 1) * c + c) by (nonlinear_arith);
        assert((row + 1) * c == row * c + c) by (nonlinear_arith);
        assert((row - 1) * c == row * c - c) by (nonlinear_arith);
        assert(row * c <= (r - 1) * c) by (nonlinear_arith)
            requires
                row <= r - 1,
                c >= 0,
        ;
        if b == a - 1 && col > 0 {
            lemma_fundamental_div_mod_converse(b, c, row, col - 1);
        } else if b == a + 1 && col + 1 < c {
            lemma_fundamental_div_mod_converse(b, c, row, col + 1);
        } else if b == a - c && row > 0 {
            assert(row * c >= c) by (nonlinear_arith)
                requires
                    row >= 1,
                    c >= 0,
            ;
            lemma_fundamental_div_mod_converse(b, c, row - 1, col);
        } else {
            assert((row + 1) * c <= (r - 1) * c) by (nonlinear_arith)
                requires
                    row + 1 <= r - 1,
                    c >= 0,
            ;
            lemma_fundamental_div_mod_converse(b, c, row + 1, col);
        }
    }
}

} // verus!

//! Rooms: one per sector, either a real room of random size or a dummy of a
//! single tile that only anchors corridors.

use crate::dice::{between_drawn, Dice};
use crate::lattice::Lattice;
use crate::sectors::contains;
use vstd::prelude::*;

verus! {

/// The smallest width of a real room.
pub const MIN_ROOM_WIDTH: u32 = 5;

/// The smallest height of a real room.
pub const MIN_ROOM_HEIGHT: u32 = 4;

/// The tiles kept free between a room and the left and lower edge of its
/// sector.
pub const MARGIN: u32 = 2;

/// A room: the rectangle of tiles from `(left, bottom)` on, `width` wide and
/// `height` high, in the sector numbered `id`.
#[derive(Clone, Copy, Debug)]
pub struct Room {
    pub id: u32,
    pub dummy: bool,
    pub left: u32,
    pub width: u32,
    pub bottom: u32,
    pub height: u32,
}

/// The room that `Room::place` gives in a state, and the state that it
/// leaves. A real room draws its width, its height, and its distances from
/// the left and from the lower edge of the sector, in this order; a dummy
/// draws the two distances.
pub open spec fn room_placed(lattice: &Lattice, id: u32, solid: bool, state: Seq<u8>) -> (
    Room,
    Seq<u8>,
) {
    if solid {
        let width = between_drawn(state, MIN_ROOM_WIDTH, (lattice.sector_width - MARGIN) as u32);
        let height = between_drawn(
            width.1,
            MIN_ROOM_HEIGHT,
            (lattice.sector_height - MARGIN) as u32,
        );
        let x = between_drawn(height.1, MARGIN, (lattice.sector_width - width.0) as u32);
        let y = between_drawn(x.1, MARGIN, (lattice.sector_height - height.0) as u32);
        (
            Room {
                id,
                dummy: false,
                left: (lattice.origin_x(id as int) + x.0) as u32,
                width: width.0,
                bottom: (lattice.origin_y(id as int) + y.0) as u32,
                height: height.0,
            },
            y.1,
        )
    } else {
        let x = between_drawn(state, MARGIN, (lattice.sector_width - 1) as u32);
        let y = between_drawn(x.1, MARGIN, (lattice.sector_height - 1) as u32);
        (
            Room {
                id,
                dummy: true,
                left: (lattice.origin_x(id as int) + x.0) as u32,
                width: 1,
                bottom: (lattice.origin_y(id as int) + y.0) as u32,
                height: 1,
            },
            y.1,
        )
    }
}

/// The rooms that are there once the sectors after those of `rooms` have
/// got theirs, and the state that this leaves.
pub open spec fn placing(
    lattice: &Lattice,
    real_ids: Seq<u32>,
    rooms: Seq<Room>,
    state: Seq<u8>,
) -> (
    Seq<Room>,
    Seq<u8>,
)
    decreases lattice.spec_total() - rooms.len(),
{
    if rooms.len() >= lattice.spec_total() {
        (rooms, state)
    } else {
        let id = rooms.len() as u32;
        let next = room_placed(lattice, id, real_ids.contains(id), state);
        placing(lattice, real_ids, rooms.push(next.0), next.1)
    }
}

impl Room {
    /// Whether the tile `(x, y)` belongs to the room.
    pub open spec fn covers(&self, x: int, y: int) -> bool {
        self.left <= x < self.left + self.width && self.bottom <= y < self.bottom + self.height
    }

    /// The room is one that placement can give for its sector. `x` and `y`
    /// are its distances from the left and the lower edge of the sector.
    ///
    /// A real room is at least `MIN_ROOM_WIDTH × MIN_ROOM_HEIGHT` tiles and
    /// stays under the sector's size less the margin; it keeps the margin
    /// to the left and below and ends before the sector does. Where the
    /// sector leaves no choice, the smallest value is taken. A dummy is one
    /// tile, with the margin to the left and below and one tile free to the
    /// right and above.
    pub open spec fn placed(&self, lattice: &Lattice) -> bool {
        let x = self.left - lattice.origin_x(self.id as int);
        let y = self.bottom - lattice.origin_y(self.id as int);
        &&& self.id < lattice.spec_total()
        &&& MARGIN <= x
        &&& MARGIN <= y
        &&& if self.dummy {
            &&& self.width == 1
            &&& self.height == 1
            &&& x < lattice.sector_width - 1
            &&& y < lattice.sector_height - 1
        } else {
            &&& MIN_ROOM_WIDTH <= self.width
            &&& self.width < lattice.sector_width - MARGIN || self.width == MIN_ROOM_WIDTH
            &&& MIN_ROOM_HEIGHT <= self.height
            &&& self.height < lattice.sector_height - MARGIN || self.height == MIN_ROOM_HEIGHT
            &&& x < lattice.sector_width - self.width || x == MARGIN
            &&& y < lattice.sector_height - self.height || y == MARGIN
        }
    }

    /// A placed room lies in its sector, and so in the lattice: with the
    /// margin to the left and below, and never beyond the right or upper
    /// edge.
    pub proof fn lemma_placed(&self, lattice: &Lattice)
        requires
            lattice.wf(),
            self.placed(lattice),
        ensures
            self.width >= 1,
            self.height >= 1,
            lattice.origin_x(self.id as int) + MARGIN <= self.left,
            self.left + self.width <= lattice.origin_x(self.id as int) + lattice.sector_width,
            lattice.origin_y(self.id as int) + MARGIN <= self.bottom,
            self.bottom + self.height <= lattice.origin_y(self.id as int) + lattice.sector_height,
            self.left + self.width <= lattice.columns * lattice.sector_width,
            self.bottom + self.height <= lattice.rows * lattice.sector_height,
    {
        lattice.lemma_position(self.id as int);
    }

    /// The real room of sector `id` that is `width × height` tiles and lies
    /// `x` tiles from the left and `y` tiles from the lower edge of the
    /// sector.
    pub fn real_at(
        lattice: &Lattice,
        id: u32,
        width: u32,
        height: u32,
        x: u32,
        y: u32,
    ) -> (room: Room)
        requires
            lattice.wf(),
            id < lattice.spec_total(),
            x + width <= lattice.sector_width,
            y + height <= lattice.sector_height,
        ensures
            room.id == id,
            !room.dummy,
            room.left == lattice.origin_x(id as int) + x,
            room.bottom == lattice.origin_y(id as int) + y,
            room.width == width,
            room.height == height,
    {
        proof {
            lattice.lemma_position(id as int);
        }
        let origin = lattice.origin(id);
        Room { id, dummy: false, left: origin.0 + x, width, bottom: origin.1 + y, height }
    }

    /// The dummy of sector `id`: the one tile that lies `x` tiles from the
    /// left and `y` tiles from the lower edge of the sector.
    pub fn dummy_at(lattice: &Lattice, id: u32, x: u32, y: u32) -> (room: Room)
        requires
            lattice.wf(),
            id < lattice.spec_total(),
            x < lattice.sector_width,
            y < lattice.sector_height,
        ensures
            room.id == id,
            room.dummy,
            room.left == lattice.origin_x(id as int) + x,
            room.bottom == lattice.origin_y(id as int) + y,
            room.width == 1,
            room.height == 1,
    {
        proof {
            lattice.lemma_position(id as int);
        }
        let origin = lattice.origin(id);
        Room { id, dummy: true, left: origin.0 + x, width: 1, bottom: origin.1 + y, height: 1 }
    }

    /// Places the room of sector `id` at random: a real room where `solid`,
    /// else a dummy.
    pub fn place(lattice: &Lattice, id: u32, solid: bool, dice: &mut Dice) -> (room: Room)
        requires
            lattice.wf(),
            id < lattice.spec_total(),
        ensures
            room.id == id,
            room.dummy == !solid,
            room.placed(lattice),
            (room, final(dice)@) == room_placed(lattice, id, solid, old(dice)@),
    {
        if solid {
            let width = dice.between(MIN_ROOM_WIDTH, lattice.sector_width - MARGIN);
            let height = dice.between(MIN_ROOM_HEIGHT, lattice.sector_height - MARGIN);
            let x = dice.between(MARGIN, lattice.sector_width - width);
            let y = dice.between(MARGIN, lattice.sector_height - height);
            Room::real_at(lattice, id, width, height, x, y)
        } else {
            let x = dice.between(MARGIN, lattice.sector_width - 1);
            let y = dice.between(MARGIN, lattice.sector_height - 1);
            Room::dummy_at(lattice, id, x, y)
        }
    }
}

/// The rooms are those of the lattice: one for each sector, in the order of
/// the sectors' numbers, each placed in its own sector, real in the sectors
/// of `real_ids` and dummy elsewhere.
pub open spec fn rooms_of(rooms: Seq<Room>, lattice: &Lattice, real_ids: Seq<u32>) -> bool {
    &&& rooms.len() == lattice.spec_total()
    &&& forall|id: int|
        0 <= id < rooms.len() ==> {
            &&& (#[trigger] rooms[id]).id == id
            &&& rooms[id].placed(lattice)
            &&& rooms[id].dummy == !real_ids.contains(id as u32)
        }
}

/// Places a room in every sector of the lattice, row by row.
pub fn place_rooms(lattice: &Lattice, real_ids: &Vec<u32>, dice: &mut Dice) -> (rooms: Vec<Room>)
    requires
        lattice.wf(),
    ensures
        rooms_of(rooms@, lattice, real_ids@),
        (rooms@, final(dice)@) == placing(lattice, real_ids@, Seq::empty(), old(dice)@),
{
    let total = lattice.total();
    let mut rooms: Vec<Room> = Vec::new();
    let mut id: u32 = 0;
    while id < total
        invariant
            lattice.wf(),
            total == lattice.spec_total(),
            id <= total,
            rooms@.len() == id,
            forall|k: int|
                0 <= k < rooms@.len() ==> {
                    &&& (#[trigger] rooms@[k]).id == k
                    &&& rooms@[k].placed(lattice)
                    &&& rooms@[k].dummy == !real_ids@.contains(k as u32)
                },
            placing(lattice, real_ids@, rooms@, dice@) == placing(
                lattice,
                real_ids@,
                Seq::empty(),
                old(dice)@,
            ),
        decreases total - id,
    {
        let solid = contains(real_ids, id);
        let room = Room::place(lattice, id, solid, dice);
        rooms.push(room);
        id += 1;
    }
    rooms
}

} // verus!

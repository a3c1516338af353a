//! Joining two linked rooms on the map: by a corridor between them, or by
//! merging them into one.

use crate::carve::{
    corridor_horizontal, corridor_vertical, dig_view, dug, lemma_dug_kept, lemma_dug_view,
    make_corridor_horizontal, make_corridor_vertical, merge_rooms, merged,
};
use crate::dice::{between_drawn, flip_drawn, range_drawn, Chance, Dice};
use crate::grid::{Grid, Location, Tile};
use crate::lattice::{Lattice, MAX_TILES};
use crate::paths::{
    cleared, joined, kept, lemma_joined_back, lemma_joined_block, lemma_joined_column,
    lemma_joined_on, lemma_joined_row,
};
use crate::rooms::Room;
use vstd::prelude::*;

verus! {

/// Every tile of the room is a ground tile of the grid.
pub open spec fn solid(grid: &Grid, room: &Room) -> bool {
    cleared(
        grid,
        room.left as int,
        room.bottom as int,
        room.left + room.width,
        room.bottom + room.height,
    )
}

/// The lower left tile of a room.
pub open spec fn anchor(room: &Room) -> (int, int) {
    (room.left as int, room.bottom as int)
}

/// Whether the second room is the right neighbour of the first, so that a
/// corridor between them runs from left to right; else it runs upwards.
pub open spec fn runs_across(lattice: &Lattice, room1: &Room, room2: &Room) -> bool {
    lattice.beside(room1.id as int, room2.id as int)
}

/// Where the corridor leaves the first room: on its right edge, `offset`
/// tiles above its lowest row, where the corridor runs across; on its upper
/// edge, `offset` tiles right of its first column, where it runs upwards.
pub open spec fn exit_of(room: &Room, across: bool, offset: int) -> (int, int) {
    if across {
        (room.left + room.width - 1, room.bottom + offset)
    } else {
        (room.left + offset, room.bottom + room.height - 1)
    }
}

/// Where the corridor enters the second room: on its left edge, `offset`
/// tiles above its lowest row, where the corridor runs across; on its lower
/// edge, `offset` tiles right of its first column, where it runs upwards.
pub open spec fn entry_of(room: &Room, across: bool, offset: int) -> (int, int) {
    if across {
        (room.left as int, room.bottom + offset)
    } else {
        (room.left + offset, room.bottom as int)
    }
}

/// The tiles of the corridor between two rooms with the given offsets of
/// its ends and the given column, or row, of its bridge.
pub open spec fn corridor(
    room1: &Room,
    room2: &Room,
    across: bool,
    offset1: int,
    offset2: int,
    bridge: int,
) -> spec_fn(int, int) -> bool {
    let from = exit_of(room1, across, offset1);
    let to = entry_of(room2, across, offset2);
    let point1 = Location(from.0 as i32, from.1 as i32);
    let point2 = Location(to.0 as i32, to.1 as i32);
    if across {
        corridor_horizontal(point1, point2, bridge)
    } else {
        corridor_vertical(point1, point2, bridge)
    }
}

/// The rooms are two rooms of the lattice, the second the right or the
/// upper neighbour of the first, and the lattice lies within the grid.
pub open spec fn neighbours_on(lattice: &Lattice, room1: &Room, room2: &Room, grid: &Grid) -> bool {
    &&& lattice.wf()
    &&& grid.wf()
    &&& lattice.fits(grid.spec_height() as int, grid.spec_width() as int)
    &&& room1.placed(lattice)
    &&& room2.placed(lattice)
    &&& lattice.beside(room1.id as int, room2.id as int) || lattice.above(
        room1.id as int,
        room2.id as int,
    )
}

/// The offsets and the bridge are such as a draw can give: each offset
/// within the edge of its room, the bridge between the two rooms, one tile
/// at least from the first and from the second.
pub open spec fn drawn_between(
    room1: &Room,
    room2: &Room,
    across: bool,
    offset1: int,
    offset2: int,
    bridge: int,
) -> bool {
    if across {
        &&& 0 <= offset1 < room1.height
        &&& 0 <= offset2 < room2.height
        &&& room1.left + room1.width < bridge < room2.left
    } else {
        &&& 0 <= offset1 < room1.width
        &&& 0 <= offset2 < room2.width
        &&& room1.bottom + room1.height < bridge < room2.bottom
    }
}

/// Between a room and its right or upper neighbour lie two tiles at least,
/// and both rooms lie within the grid.
pub proof fn lemma_gap(lattice: &Lattice, room1: &Room, room2: &Room, grid: &Grid)
    requires
        neighbours_on(lattice, room1, room2, grid),
    ensures
        room1.width >= 1 && room1.height >= 1 && room2.width >= 1 && room2.height >= 1,
        room1.left + room1.width <= grid.spec_width() && room1.bottom + room1.height
            <= grid.spec_height(),
        room2.left + room2.width <= grid.spec_width() && room2.bottom + room2.height
            <= grid.spec_height(),
        runs_across(lattice, room1, room2) ==> room1.left + room1.width + 2 <= room2.left,
        !runs_across(lattice, room1, room2) ==> room1.bottom + room1.height + 2 <= room2.bottom,
        room1.left + room1.width <= MAX_TILES,
        room2.left + room2.width <= MAX_TILES,
        room1.bottom + room1.height <= MAX_TILES,
        room2.bottom + room2.height <= MAX_TILES,
{
    room1.lemma_placed(lattice);
    room2.lemma_placed(lattice);
    lattice.lemma_origins(room1.id as int, room2.id as int);
    lattice.lemma_adjacent(room1.id as int, room2.id as int);
}

/// A corridor dug between two neighbouring rooms joins the tile where it
/// leaves the first room to the tile where it enters the second.
pub proof fn lemma_corridor_joins(
    lattice: &Lattice,
    room1: &Room,
    room2: &Room,
    before: &Grid,
    after: &Grid,
    offset1: int,
    offset2: int,
    bridge: int,
)
    requires
        neighbours_on(lattice, room1, room2, before),
        drawn_between(room1, room2, runs_across(lattice, room1, room2), offset1, offset2, bridge),
        dug(
            before,
            after,
            corridor(room1, room2, runs_across(lattice, room1, room2), offset1, offset2, bridge),
        ),
    ensures
        joined(
            after,
            exit_of(room1, runs_across(lattice, room1, room2), offset1),
            entry_of(room2, runs_across(lattice, room1, room2), offset2),
        ),
{
    let across = runs_across(lattice, room1, room2);
    let shape = corridor(room1, room2, across, offset1, offset2, bridge);
    let from = exit_of(room1, across, offset1);
    let to = entry_of(room2, across, offset2);
    lemma_gap(lattice, room1, room2, before);
    lemma_dug_kept(before, after, shape);
    if across {
        let turn1 = (bridge, from.1);
        let turn2 = (bridge, to.1);
        assert(cleared(after, from.0, from.1, bridge + 1, from.1 + 1)) by {
            assert forall|x: int, y: int|
                from.0 <= x < bridge + 1 && from.1 <= y < from.1 + 1
                    implies #[trigger] after.ground(x, y) by {
                assert(before.has(x, y) && shape(x, y));
            }
        }
        lemma_joined_row(after, from.1, from.0, bridge);
        assert(cleared(after, bridge, to.1, to.0 + 1, to.1 + 1)) by {
            assert forall|x: int, y: int|
                bridge <= x < to.0 + 1 && to.1 <= y < to.1 + 1
                    implies #[trigger] after.ground(x, y) by {
                assert(before.has(x, y) && shape(x, y));
            }
        }
        lemma_joined_row(after, to.1, bridge, to.0);
        if from.1 <= to.1 {
            assert(cleared(after, bridge, from.1, bridge + 1, to.1 + 1)) by {
                assert forall|x: int, y: int|
                    bridge <= x < bridge + 1 && from.1 <= y < to.1 + 1
                        implies #[trigger] after.ground(x, y) by {
                    assert(before.has(x, y) && shape(x, y));
                }
            }
            lemma_joined_column(after, bridge, from.1, to.1);
        } else {
            assert(cleared(after, bridge, to.1, bridge + 1, from.1 + 1)) by {
                assert forall|x: int, y: int|
                    bridge <= x < bridge + 1 && to.1 <= y < from.1 + 1
                        implies #[trigger] after.ground(x, y) by {
                    assert(before.has(x, y) && shape(x, y));
                }
            }
            lemma_joined_column(after, bridge, to.1, from.1);
            lemma_joined_back(after, turn2, turn1);
        }
        lemma_joined_on(after, from, turn1, turn2);
        lemma_joined_on(after, from, turn2, to);
    } else {
        let turn1 = (from.0, bridge);
        let turn2 = (to.0, bridge);
        assert(cleared(after, from.0, from.1, from.0 + 1, bridge + 1)) by {
            assert forall|x: int, y: int|
                from.0 <= x < from.0 + 1 && from.1 <= y < bridge + 1
                    implies #[trigger] after.ground(x, y) by {
                assert(before.has(x, y) && shape(x, y));
            }
        }
        lemma_joined_column(after, from.0, from.1, bridge);
        assert(cleared(after, to.0, bridge, to.0 + 1, to.1 + 1)) by {
            assert forall|x: int, y: int|
                to.0 <= x < to.0 + 1 && bridge <= y < to.1 + 1
                    implies #[trigger] after.ground(x, y) by {
                assert(before.has(x, y) && shape(x, y));
            }
        }
        lemma_joined_column(after, to.0, bridge, to.1);
        if from.0 <= to.0 {
            assert(cleared(after, from.0, bridge, to.0 + 1, bridge + 1)) by {
                assert forall|x: int, y: int|
                    from.0 <= x < to.0 + 1 && bridge <= y < bridge + 1
                        implies #[trigger] after.ground(x, y) by {
                    assert(before.has(x, y) && shape(x, y));
                }
            }
            lemma_joined_row(after, bridge, from.0, to.0);
        } else {
            assert(cleared(after, to.0, bridge, from.0 + 1, bridge + 1)) by {
                assert forall|x: int, y: int|
                    to.0 <= x < from.0 + 1 && bridge <= y < bridge + 1
                        implies #[trigger] after.ground(x, y) by {
                    assert(before.has(x, y) && shape(x, y));
                }
            }
            lemma_joined_row(after, bridge, to.0, from.0);
            lemma_joined_back(after, turn2, turn1);
        }
        lemma_joined_on(after, from, turn1, turn2);
        lemma_joined_on(after, from, turn2, to);
    }
}

/// Two solid rooms are joined once the tile where a corridor leaves the
/// first is joined to the tile where it enters the second.
pub proof fn lemma_rooms_joined(
    grid: &Grid,
    room1: &Room,
    room2: &Room,
    from: (int, int),
    to: (int, int),
)
    requires
        solid(grid, room1),
        solid(grid, room2),
        room1.covers(from.0, from.1),
        room2.covers(to.0, to.1),
        room1.width >= 1 && room1.height >= 1 && room2.width >= 1 && room2.height >= 1,
        joined(grid, from, to),
    ensures
        joined(grid, anchor(room1), anchor(room2)),
{
    lemma_joined_block(
        grid,
        room1.left as int,
        room1.bottom as int,
        room1.left + room1.width,
        room1.bottom + room1.height,
        anchor(room1),
        from,
    );
    lemma_joined_block(
        grid,
        room2.left as int,
        room2.bottom as int,
        room2.left + room2.width,
        room2.bottom + room2.height,
        to,
        anchor(room2),
    );
    lemma_joined_on(grid, anchor(room1), from, to);
    lemma_joined_on(grid, anchor(room1), to, anchor(room2));
}

/// A room that was solid stays solid when ground is added.
pub proof fn lemma_solid_kept(before: &Grid, after: &Grid, room: &Room)
    requires
        solid(before, room),
        kept(before, after),
    ensures
        solid(after, room),
{
    assert forall|x: int, y: int|
        room.left <= x < room.left + room.width
            && room.bottom <= y < room.bottom + room.height implies #[trigger] after.ground(
        x,
        y,
    ) by {
        assert(before.ground(x, y));
    }
}

/// Digs the corridor between a room and its right or upper neighbour: from
/// the first room's right edge, `offset1` tiles up, to the second room's
/// left edge, `offset2` tiles up, with its bridge in the column `bridge`;
/// or, between a room and its upper neighbour, from the upper edge to the
/// lower edge, the offsets counted to the right and the bridge a row.
pub fn bridge_rooms(
    lattice: &Lattice,
    room1: &Room,
    room2: &Room,
    offset1: u32,
    offset2: u32,
    bridge: u32,
    map: &mut Grid,
)
    requires
        neighbours_on(lattice, room1, room2, old(map)),
        drawn_between(
            room1,
            room2,
            runs_across(lattice, room1, room2),
            offset1 as int,
            offset2 as int,
            bridge as int,
        ),
    ensures
        dug(
            old(map),
            final(map),
            corridor(
                room1,
                room2,
                runs_across(lattice, room1, room2),
                offset1 as int,
                offset2 as int,
                bridge as int,
            ),
        ),
        solid(old(map), room1) && solid(old(map), room2) ==> joined(
            final(map),
            anchor(room1),
            anchor(room2),
        ),
{
    proof {
        lemma_gap(lattice, room1, room2, old(map));
    }
    let across = room2.id == room1.id + 1 && room1.id % lattice.columns + 1 < lattice.columns;
    if across {
        let point1 = Location((room1.left + room1.width - 1) as i32,
            (room1.bottom + offset1) as i32);
        let point2 = Location(room2.left as i32, (room2.bottom + offset2) as i32);
        make_corridor_horizontal(map, &point1, &point2, bridge as i32);
    } else {
        let point1 = Location((room1.left + offset1) as i32,
            (room1.bottom + room1.height - 1) as i32);
        let point2 = Location((room2.left + offset2) as i32, room2.bottom as i32);
        make_corridor_vertical(map, &point1, &point2, bridge as i32);
    }
    proof {
        let shape = corridor(room1, room2, runs_across(lattice, room1, room2), offset1 as int,
            offset2 as int, bridge as int);
        lemma_corridor_joins(lattice, room1, room2, old(map), map, offset1 as int, offset2 as int,
            bridge as int);
        lemma_dug_kept(old(map), map, shape);
        if solid(old(map), room1) && solid(old(map), room2) {
            lemma_solid_kept(old(map), map, room1);
            lemma_solid_kept(old(map), map, room2);
            lemma_rooms_joined(
                map,
                room1,
                room2,
                exit_of(room1, across, offset1 as int),
                entry_of(room2, across, offset2 as int),
            );
        }
    }
}

/// Whether the tile `(x, y)` lies in the sector of one of the two rooms.
pub open spec fn around(lattice: &Lattice, room1: &Room, room2: &Room, x: int, y: int) -> bool {
    lattice.holds(room1.id as int, x, y) || lattice.holds(room2.id as int, x, y)
}

/// The block that two merged rooms become, and every corridor between
/// them, lie in the sectors of the two rooms.
pub proof fn lemma_around(
    lattice: &Lattice,
    room1: &Room,
    room2: &Room,
    grid: &Grid,
    offset1: int,
    offset2: int,
    bridge: int,
    x: int,
    y: int,
)
    requires
        neighbours_on(lattice, room1, room2, grid),
        merged(room1, room2)(x, y) || (drawn_between(
            room1,
            room2,
            runs_across(lattice, room1, room2),
            offset1,
            offset2,
            bridge,
        ) && corridor(room1, room2, runs_across(lattice, room1, room2), offset1, offset2, bridge)(
            x,
            y,
        )),
    ensures
        around(lattice, room1, room2, x, y),
{
    lemma_gap(lattice, room1, room2, grid);
    room1.lemma_placed(lattice);
    room2.lemma_placed(lattice);
    lattice.lemma_origins(room1.id as int, room2.id as int);
}

/// Two rooms that have been merged are joined.
pub proof fn lemma_merge_joins(
    lattice: &Lattice,
    room1: &Room,
    room2: &Room,
    before: &Grid,
    after: &Grid,
)
    requires
        neighbours_on(lattice, room1, room2, before),
        dug(before, after, merged(room1, room2)),
    ensures
        solid(after, room1),
        solid(after, room2),
        joined(after, anchor(room1), anchor(room2)),
{
    lemma_gap(lattice, room1, room2, before);
    lemma_dug_kept(before, after, merged(room1, room2));
    let left = if room1.left < room2.left {
        room1.left as int
    } else {
        room2.left as int
    };
    let bottom = if room1.bottom < room2.bottom {
        room1.bottom as int
    } else {
        room2.bottom as int
    };
    let right = if room1.left + room1.width > room2.left + room2.width {
        room1.left + room1.width
    } else {
        room2.left + room2.width
    };
    let top = if room1.bottom + room1.height > room2.bottom + room2.height {
        room1.bottom + room1.height
    } else {
        room2.bottom + room2.height
    };
    assert(cleared(after, left, bottom, right, top)) by {
        assert forall|x: int, y: int|
            left <= x < right && bottom <= y < top implies #[trigger] after.ground(x, y) by {
            assert(before.has(x, y) && merged(room1, room2)(x, y));
        }
    }
    lemma_joined_block(after, left, bottom, right, top, anchor(room1), anchor(room2));
}

/// What `link_rooms` gives in a state: whether the rooms were merged, the
/// flags, the rows of the map and the state that it leaves. Where both
/// rooms can be merged the coin is flipped; without a merge the offset of
/// the corridor's first end, that of its second end and its bridge are
/// drawn, in this order.
pub open spec fn rooms_linked(
    lattice: &Lattice,
    room1: &Room,
    room2: &Room,
    can_merge: Seq<bool>,
    merge: Chance,
    view: Seq<Seq<Tile>>,
    state: Seq<u8>,
) -> (bool, Seq<bool>, Seq<Seq<Tile>>, Seq<u8>) {
    let flipped = if can_merge[room1.id as int] && can_merge[room2.id as int] {
        flip_drawn(state, merge)
    } else {
        (false, state)
    };
    let across = runs_across(lattice, room1, room2);
    let offset1 = range_drawn(
        flipped.1,
        0,
        if across {
            room1.height
        } else {
            room1.width
        },
    );
    let offset2 = range_drawn(
        offset1.1,
        0,
        if across {
            room2.height
        } else {
            room2.width
        },
    );
    let bridge = if across {
        between_drawn(offset2.1, (room1.left + room1.width + 1) as u32, (room2.left - 1) as u32)
    } else {
        between_drawn(offset2.1, (room1.bottom + room1.height + 1) as u32,
            (room2.bottom - 1) as u32)
    };
    if flipped.0 {
        (
            true,
            can_merge.update(room1.id as int, false).update(room2.id as int, false),
            dig_view(view, merged(room1, room2)),
            flipped.1,
        )
    } else {
        (
            false,
            can_merge,
            dig_view(
                view,
                corridor(room1, room2, across, offset1.0 as int, offset2.0 as int, bridge.0 as int),
            ),
            bridge.1,
        )
    }
}

/// Joins a room to its right or upper neighbour. Where both may still be
/// merged, they are, with the chance `merge`, merged into one block, and
/// neither may be merged again. Else a corridor is dug between them, its
/// two ends and its bridge drawn at random.
pub fn link_rooms(
    lattice: &Lattice,
    room1: &Room,
    room2: &Room,
    can_merge: &mut Vec<bool>,
    merge: Chance,
    map: &mut Grid,
    dice: &mut Dice,
) -> (merging: bool)
    requires
        neighbours_on(lattice, room1, room2, old(map)),
        old(can_merge)@.len() == lattice.spec_total(),
    ensures
        merging ==> old(can_merge)@[room1.id as int] && old(can_merge)@[room2.id as int],
        merging ==> final(can_merge)@ == old(can_merge)@.update(room1.id as int, false).update(
            room2.id as int,
            false,
        ),
        !merging ==> final(can_merge)@ == old(can_merge)@,
        merge.never() ==> !merging,
        merge.certain() && old(can_merge)@[room1.id as int] && old(can_merge)@[room2.id as int]
            ==> merging,
        merging ==> dug(old(map), final(map), merged(room1, room2)),
        !merging ==> exists|offset1: int, offset2: int, bridge: int| #[trigger]
            drawn_between(
                room1,
                room2,
                runs_across(lattice, room1, room2),
                offset1,
                offset2,
                bridge,
            ) && dug(
                old(map),
                final(map),
                corridor(
                    room1,
                    room2,
                    runs_across(lattice, room1, room2),
                    offset1,
                    offset2,
                    bridge,
                ),
            ),
        final(map).wf(),
        final(map).spec_height() == old(map).spec_height(),
        final(map).spec_width() == old(map).spec_width(),
        kept(old(map), final(map)),
        merging || (solid(old(map), room1) && solid(old(map), room2)) ==> joined(
            final(map),
            anchor(room1),
            anchor(room2),
        ),
        forall|x: int, y: int|
            #[trigger] final(map).ground(x, y) ==> old(map).ground(x, y) || around(
                lattice,
                room1,
                room2,
                x,
                y,
            ),
        (merging, final(can_merge)@, final(map)@, final(dice)@) == rooms_linked(
            lattice,
            room1,
            room2,
            old(can_merge)@,
            merge,
            old(map)@,
            old(dice)@,
        ),
{
    proof {
        lemma_gap(lattice, room1, room2, old(map));
        lattice.lemma_adjacent(room1.id as int, room2.id as int);
    }
    let id1 = room1.id as usize;
    let id2 = room2.id as usize;
    if can_merge[id1] && can_merge[id2] && dice.flip(merge) {
        merge_rooms(map, room1, room2);
        can_merge.set(id1, false);
        can_merge.set(id2, false);
        proof {
            lemma_merge_joins(lattice, room1, room2, old(map), map);
            lemma_dug_kept(old(map), map, merged(room1, room2));
            lemma_dug_view(old(map), map, merged(room1, room2));
            assert forall|x: int, y: int|
                #[trigger] map.ground(x, y) implies old(map).ground(x, y) || around(
                lattice,
                room1,
                room2,
                x,
                y,
            ) by {
                if !old(map).ground(x, y) {
                    assert(map@[y][x] == Tile::Ground);
                    lemma_around(lattice, room1, room2, old(map), 0, 0, 0, x, y);
                }
            }
        }
        return true;
    }
    let across = room2.id == room1.id + 1 && room1.id % lattice.columns + 1 < lattice.columns;
    let (offset1, offset2, bridge) = if across {
        let offset1 = dice.range(0, room1.height);
        let offset2 = dice.range(0, room2.height);
        let bridge = dice.between(room1.left + room1.width + 1, room2.left - 1);
        (offset1, offset2, bridge)
    } else {
        let offset1 = dice.range(0, room1.width);
        let offset2 = dice.range(0, room2.width);
        let bridge = dice.between(room1.bottom + room1.height + 1, room2.bottom - 1);
        (offset1, offset2, bridge)
    };
    bridge_rooms(lattice, room1, room2, offset1, offset2, bridge, map);
    proof {
        let shape = corridor(room1, room2, across, offset1 as int, offset2 as int, bridge as int);
        lemma_dug_kept(old(map), map, shape);
        lemma_dug_view(old(map), map, shape);
        assert(drawn_between(room1, room2, across, offset1 as int, offset2 as int, bridge as int));
        assert forall|x: int, y: int|
            #[trigger] map.ground(x, y) implies old(map).ground(x, y) || around(
            lattice,
            room1,
            room2,
            x,
            y,
        ) by {
            if !old(map).ground(x, y) {
                assert(map@[y][x] == Tile::Ground);
                lemma_around(
                    lattice,
                    room1,
                    room2,
                    old(map),
                    offset1 as int,
                    offset2 as int,
                    bridge as int,
                    x,
                    y,
                );
            }
        }
    }
    false
}

} // verus!

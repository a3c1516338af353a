//! Carving: rooms, merged rooms and corridors are dug into the grid as
//! ground.

use crate::grid::{Grid, Location, Tile};
use crate::paths::kept;
use crate::rooms::Room;
use vstd::prelude::*;

verus! {

/// `after` is `before` with ground on every tile of the grid that `shape`
/// holds of, and nothing else changed.
pub open spec fn dug(before: &Grid, after: &Grid, shape: spec_fn(int, int) -> bool) -> bool {
    &&& after.wf()
    &&& after.spec_height() == before.spec_height()
    &&& after.spec_width() == before.spec_width()
    &&& forall|x: int, y: int|
        before.has(x, y) ==> #[trigger] after@[y][x] == (if shape(x, y) {
            Tile::Ground
        } else {
            before@[y][x]
        })
}

/// The rows of a grid after ground was dug on every tile that `shape` holds
/// of.
pub open spec fn dig_view(
    before: Seq<Seq<Tile>>,
    shape: spec_fn(int, int) -> bool,
) -> Seq<Seq<Tile>> {
    Seq::new(
        before.len(),
        |y: int|
            Seq::new(
                before[y].len(),
                |x: int|
                    if shape(x, y) {
                        Tile::Ground
                    } else {
                        before[y][x]
                    },
            ),
    )
}

/// The rows of a grid that was dug from another are those of `dig_view`.
pub proof fn lemma_dug_view(before: &Grid, after: &Grid, shape: spec_fn(int, int) -> bool)
    requires
        before.wf(),
        dug(before, after, shape),
    ensures
        after@ == dig_view(before@, shape),
{
    let model = dig_view(before@, shape);
    assert(after@.len() == model.len());
    assert forall|y: int| 0 <= y < after@.len() implies #[trigger] after@[y] == model[y] by {
        assert(after@[y].len() == model[y].len());
        assert forall|x: int|
            0 <= x < after@[y].len() implies #[trigger] after@[y][x] == model[y][x] by {
            assert(before.has(x, y));
        }
        assert(after@[y] =~= model[y]);
    }
    assert(after@ =~= model);
}

/// The tiles from `(left, bottom)` up to, not including, column `right` and
/// row `top`.
pub open spec fn block(left: int, bottom: int, right: int, top: int) -> spec_fn(int, int) -> bool {
    |x: int, y: int| left <= x < right && bottom <= y < top
}

/// The tiles of a room.
pub open spec fn footprint(room: &Room) -> spec_fn(int, int) -> bool {
    |x: int, y: int| room.covers(x, y)
}

/// The smallest block that holds both rooms.
pub open spec fn merged(room1: &Room, room2: &Room) -> spec_fn(int, int) -> bool {
    let left = if room1.left < room2.left {
        room1.left
    } else {
        room2.left
    };
    let bottom = if room1.bottom < room2.bottom {
        room1.bottom
    } else {
        room2.bottom
    };
    let right = if room1.left + room1.width > room2.left + room2.width {
        room1.left + room1.width
    } else {
        room2.left + room2.width
    };
    let top = if room1.bottom + room1.height > room2.bottom + room2.height {
        room1.bottom + room1.height
    } else {
        room2.bottom + room2.height
    };
    block(left as int, bottom as int, right, top)
}

/// A corridor that leaves `point1` to the right, runs in the column
/// `bridge_x` to the row of `point2`, and goes on to the right to `point2`.
pub open spec fn corridor_horizontal(
    point1: Location,
    point2: Location,
    bridge_x: int,
) -> spec_fn(int, int) -> bool {
    |x: int, y: int|
        {
            ||| y == point1.1 && point1.0 <= x <= bridge_x
            ||| y == point2.1 && bridge_x <= x <= point2.0
            ||| x == bridge_x && point1.1 != point2.1 && (point1.1 <= y <= point2.1 || point2.1 <= y
                <= point1.1)
        }
}

/// A corridor that leaves `point1` upwards, runs in the row `bridge_y` to
/// the column of `point2`, and goes on upwards to `point2`.
pub open spec fn corridor_vertical(
    point1: Location,
    point2: Location,
    bridge_y: int,
) -> spec_fn(int, int) -> bool {
    |x: int, y: int|
        {
            ||| x == point1.0 && point1.1 <= y <= bridge_y
            ||| x == point2.0 && bridge_y <= y <= point2.1
            ||| y == bridge_y && point1.0 != point2.0 && (point1.0 <= x <= point2.0 || point2.0 <= x
                <= point1.0)
        }
}

/// Digging adds ground and takes none away.
pub proof fn lemma_dug_kept(before: &Grid, after: &Grid, shape: spec_fn(int, int) -> bool)
    requires
        dug(before, after, shape),
    ensures
        kept(before, after),
        forall|x: int, y: int| before.has(x, y) && shape(x, y) ==> #[trigger] after.ground(x, y),
{
    assert forall|x: int, y: int| #[trigger] before.ground(x, y) implies after.ground(x, y) by {
        assert(after@[y][x] == Tile::Ground);
    }
    assert forall|x: int, y: int|
        before.has(x, y) && shape(x, y) implies #[trigger] after.ground(x, y) by {
        assert(after@[y][x] == Tile::Ground);
    }
}

/// Digs the block from `(left, bottom)` up to, not including, column
/// `right` and row `top`. What lies outside the grid is left out.
pub fn dig(grid: &mut Grid, left: u64, bottom: u64, right: u64, top: u64)
    requires
        old(grid).wf(),
    ensures
        dug(old(grid), final(grid), block(left as int, bottom as int, right as int, top as int)),
{
    let width = grid.width() as u64;
    let height = grid.height() as u64;
    let x_end = if right < width {
        right
    } else {
        width
    };
    let y_end = if top < height {
        top
    } else {
        height
    };
    let mut y = bottom;
    while y < y_end
        invariant
            grid.wf(),
            grid.spec_height() == old(grid).spec_height(),
            grid.spec_width() == old(grid).spec_width(),
            width == grid.spec_width(),
            height == grid.spec_height(),
            x_end <= width,
            x_end <= right,
            x_end == right || x_end == width,
            y_end <= height,
            y_end <= top,
            y_end == top || y_end == height,
            bottom <= y,
            y <= y_end || y == bottom,
            old(grid).wf(),
            forall|px: int, py: int|
                old(grid).has(px, py) ==> #[trigger] grid@[py][px] == (if left <= px < right
                    && bottom <= py < y {
                    Tile::Ground
                } else {
                    old(grid)@[py][px]
                }),
        decreases y_end - y,
    {
        let mut x = left;
        while x < x_end
            invariant
                grid.wf(),
                grid.spec_height() == old(grid).spec_height(),
                grid.spec_width() == old(grid).spec_width(),
                width == grid.spec_width(),
                height == grid.spec_height(),
                x_end <= width,
                x_end <= right,
                x_end == right || x_end == width,
                y < y_end <= height,
                bottom <= y,
                left <= x,
                x <= x_end || x == left,
                old(grid).wf(),
                forall|px: int, py: int|
                    old(grid).has(px, py)
                        ==> #[trigger] grid@[py][px] == (if (left <= px < right
                            && bottom <= py < y) || (
                    py == y && left <= px < x) {
                        Tile::Ground
                    } else {
                        old(grid)@[py][px]
                    }),
            decreases x_end - x,
        {
            let ghost before = grid@;
            grid.set(y as usize, x as usize, Tile::Ground);
            proof {
                assert forall|px: int, py: int|
                    old(grid).has(px, py) implies #[trigger] grid@[py][px] == (if (left <= px
                    < right && bottom <= py < y) || (py == y && left <= px < x + 1) {
                    Tile::Ground
                } else {
                    old(grid)@[py][px]
                }) by {
                    assert(before[py][px] == (if (left <= px < right && bottom <= py < y)
                        || (py == y && left <= px < x) {
                        Tile::Ground
                    } else {
                        old(grid)@[py][px]
                    }));
                }
            }
            x += 1;
        }
        y += 1;
    }
}

/// The tiles of the columns `x_from` to `x_to` in the rows `y_from` to
/// `y_to`, the ends included.
pub open spec fn span(x_from: int, x_to: int, y_from: int, y_to: int) -> spec_fn(int, int) -> bool {
    |x: int, y: int| x_from <= x <= x_to && y_from <= y <= y_to
}

/// Digs the columns `x_from` to `x_to` in the rows `y_from` to `y_to`, the
/// ends included. What lies outside the grid is left out.
pub fn dig_span(grid: &mut Grid, x_from: i32, x_to: i32, y_from: i32, y_to: i32)
    requires
        old(grid).wf(),
    ensures
        dug(old(grid), final(grid), span(x_from as int, x_to as int, y_from as int, y_to as int)),
{
    if x_to < 0 || y_to < 0 {
        return ;
    }
    let left: u64 = if x_from < 0 {
        0
    } else {
        x_from as u64
    };
    let bottom: u64 = if y_from < 0 {
        0
    } else {
        y_from as u64
    };
    dig(grid, left, bottom, x_to as u64 + 1, y_to as u64 + 1);
}

/// Digs the room into the map.
pub fn make_room(map: &mut Grid, room: &Room)
    requires
        old(map).wf(),
    ensures
        dug(old(map), final(map), footprint(room)),
{
    dig(
        map,
        room.left as u64,
        room.bottom as u64,
        room.left as u64 + room.width as u64,
        room.bottom as u64 + room.height as u64,
    );
}

/// Digs the smallest block that holds both rooms into the map.
pub fn merge_rooms(map: &mut Grid, room1: &Room, room2: &Room)
    requires
        old(map).wf(),
    ensures
        dug(old(map), final(map), merged(room1, room2)),
{
    let big_left = if room1.left < room2.left {
        room1.left
    } else {
        room2.left
    };
    let big_bottom = if room1.bottom < room2.bottom {
        room1.bottom
    } else {
        room2.bottom
    };
    let right1 = room1.left as u64 + room1.width as u64;
    let right2 = room2.left as u64 + room2.width as u64;
    let big_right = if right1 > right2 {
        right1
    } else {
        right2
    };
    let top1 = room1.bottom as u64 + room1.height as u64;
    let top2 = room2.bottom as u64 + room2.height as u64;
    let big_top = if top1 > top2 {
        top1
    } else {
        top2
    };
    dig(map, big_left as u64, big_bottom as u64, big_right, big_top);
}

/// Digs a corridor from `point1` on the left to `point2` on the right,
/// which changes its row in the column `bridge_x`: along the row of
/// `point1` to `bridge_x`, along the row of `point2` from `bridge_x` on,
/// and, where the two rows differ, along the column from one row to the
/// other.
pub fn make_corridor_horizontal(map: &mut Grid, point1: &Location, point2: &Location, bridge_x: i32)
    requires
        old(map).wf(),
    ensures
        dug(old(map), final(map), corridor_horizontal(*point1, *point2, bridge_x as int)),
{
    dig_span(map, point1.0, bridge_x, point1.1, point1.1);
    let ghost first = *map;
    dig_span(map, bridge_x, point2.0, point2.1, point2.1);
    let ghost second = *map;
    if point1.1 < point2.1 {
        dig_span(map, bridge_x, bridge_x, point1.1, point2.1);
    } else if point1.1 > point2.1 {
        dig_span(map, bridge_x, bridge_x, point2.1, point1.1);
    }
    proof {
        assert forall|x: int, y: int|
            old(map).has(x, y) implies #[trigger] map@[y][x] == (if corridor_horizontal(
            *point1,
            *point2,
            bridge_x as int,
        )(x, y) {
            Tile::Ground
        } else {
            old(map)@[y][x]
        }) by {
            assert(first.has(x, y) && second.has(x, y));
            let a = first@[y][x];
            let b = second@[y][x];
        }
    }
}

/// Digs a corridor from `point1` below to `point2` above, which changes its
/// column in the row `bridge_y`: along the column of `point1` to
/// `bridge_y`, along the column of `point2` from `bridge_y` on, and, where
/// the two columns differ, along the row from one column to the other.
pub fn make_corridor_vertical(map: &mut Grid, point1: &Location, point2: &Location, bridge_y: i32)
    requires
        old(map).wf(),
    ensures
        dug(old(map), final(map), corridor_vertical(*point1, *point2, bridge_y as int)),
{
    dig_span(map, point1.0, point1.0, point1.1, bridge_y);
    let ghost first = *map;
    dig_span(map, point2.0, point2.0, bridge_y, point2.1);
    let ghost second = *map;
    if point1.0 < point2.0 {
        dig_span(map, point1.0, point2.0, bridge_y, bridge_y);
    } else if point1.0 > point2.0 {
        dig_span(map, point2.0, point1.0, bridge_y, bridge_y);
    }
    proof {
        assert forall|x: int, y: int|
            old(map).has(x, y) implies #[trigger] map@[y][x] == (if corridor_vertical(
            *point1,
            *point2,
            bridge_y as int,
        )(x, y) {
            Tile::Ground
        } else {
            old(map)@[y][x]
        }) by {
            assert(first.has(x, y) && second.has(x, y));
            let a = first@[y][x];
            let b = second@[y][x];
        }
    }
}

} // verus!

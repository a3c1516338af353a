//! Steps of a token on the map: which of the eight directions are open
//! from a tile.

use crate::grid::{Grid, Location, Tile};
use vstd::prelude::*;

verus! {

/// Whether a step from `from` by `(xdir, ydir)` is open: it ends on a
/// ground tile that a `Location` can name, and a diagonal step passes no
/// wall on either side of the corner it cuts.
pub open spec fn open_step(map: &Grid, from: Location, xdir: int, ydir: int) -> bool {
    let x = from.0 + xdir;
    let y = from.1 + ydir;
    &&& map.ground(x, y)
    &&& x <= i32::MAX
    &&& y <= i32::MAX
    &&& xdir != 0 && ydir != 0 ==> map.spec_look(x, from.1 as int) != Some(Tile::Wall)
        && map.spec_look(
        from.0 as int,
        y,
    ) != Some(Tile::Wall)
}

/// The step that a token on `from` takes when asked to move by
/// `(xdir, ydir)`: the step itself where it is open, none at all where it
/// is not.
pub fn try_step(map: &Grid, from: &Location, xdir: i32, ydir: i32) -> (step: (i32, i32))
    requires
        map.wf(),
    ensures
        open_step(map, *from, xdir as int, ydir as int) ==> step == (xdir, ydir),
        !open_step(map, *from, xdir as int, ydir as int) ==> step == (0i32, 0i32),
{
    let xnew = from.0 as i64 + xdir as i64;
    let ynew = from.1 as i64 + ydir as i64;
    if xnew < 0 || ynew < 0 || xnew > i32::MAX as i64 || ynew > i32::MAX as i64 {
        return (0, 0);
    }
    match map.look(xnew as i32, ynew as i32) {
        Some(Tile::Ground) => {
            if xdir != 0 && ydir != 0 {
                let beside = map.look(xnew as i32, from.1);
                let above = map.look(from.0, ynew as i32);
                if is_wall(beside) || is_wall(above) {
                    return (0, 0);
                }
            }
            (xdir, ydir)
        },
        _ => (0, 0),
    }
}

/// Whether the cell is one of the grid and holds a wall.
pub fn is_wall(cell: Option<Tile>) -> (wall: bool)
    ensures
        wall == (cell == Some(Tile::Wall)),
{
    match cell {
        Some(Tile::Wall) => true,
        _ => false,
    }
}

/// The tile that a token on `from` stands on after it was asked to move by
/// `(xdir, ydir)`.
pub fn step_from(map: &Grid, from: &Location, xdir: i32, ydir: i32) -> (to: Location)
    requires
        map.wf(),
    ensures
        open_step(map, *from, xdir as int, ydir as int) ==> to.0 == from.0 + xdir && to.1 == from.1
            + ydir,
        !open_step(map, *from, xdir as int, ydir as int) ==> to.0 == from.0 && to.1 == from.1,
{
    let step = try_step(map, from, xdir, ydir);
    if step.0 == 0 && step.1 == 0 {
        Location(from.0, from.1)
    } else {
        Location(from.0 + step.0, from.1 + step.1)
    }
}

} // verus!

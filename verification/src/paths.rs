//! Walks over ground: what it means that one tile can be reached from
//! another, as a flood fill over ground tiles would find it.

use crate::grid::Grid;
use vstd::prelude::*;

verus! {

/// Two tiles are the same or share an edge.
pub open spec fn beside(a: (int, int), b: (int, int)) -> bool {
    ||| a == b
    ||| a.0 == b.0 && (a.1 == b.1 + 1 || b.1 == a.1 + 1)
    ||| a.1 == b.1 && (a.0 == b.0 + 1 || b.0 == a.0 + 1)
}

/// A walk: ground tiles of the grid, each beside the next.
pub open spec fn walk(grid: &Grid, path: Seq<(int, int)>) -> bool {
    &&& path.len() > 0
    &&& forall|k: int| 0 <= k < path.len() ==> grid.ground((#[trigger] path[k]).0, path[k].1)
    &&& forall|k: int| 0 <= k < path.len() - 1 ==> beside(#[trigger] path[k], path[k + 1])
}

/// Whether a walk leads from tile `a` to tile `b`.
pub open spec fn joined(grid: &Grid, a: (int, int), b: (int, int)) -> bool {
    exists|path: Seq<(int, int)>| walk(grid, path) && path.first() == a && path.last() == b
}

/// Every ground tile of `before` is a ground tile of `after`.
pub open spec fn kept(before: &Grid, after: &Grid) -> bool {
    forall|x: int, y: int| #[trigger] before.ground(x, y) ==> after.ground(x, y)
}

/// Every tile of the block from `(left, bottom)` up to, not including,
/// column `right` and row `top` is a ground tile.
pub open spec fn cleared(grid: &Grid, left: int, bottom: int, right: int, top: int) -> bool {
    forall|x: int, y: int| left <= x < right && bottom <= y < top ==> #[trigger] grid.ground(x, y)
}

/// A ground tile is joined to itself.
pub proof fn lemma_joined_self(grid: &Grid, a: (int, int))
    requires
        grid.ground(a.0, a.1),
    ensures
        joined(grid, a, a),
{
    let path = seq![a];
    assert(walk(grid, path) && path.first() == a && path.last() == a);
}

/// A walk can be made longer by a ground tile beside its end.
pub proof fn lemma_joined_step(grid: &Grid, a: (int, int), b: (int, int), c: (int, int))
    requires
        joined(grid, a, b),
        beside(b, c),
        grid.ground(c.0, c.1),
    ensures
        joined(grid, a, c),
{
    let path = choose|path: Seq<(int, int)>|
        walk(grid, path) && path.first() == a && path.last() == b;
    let longer = path.push(c);
    assert forall|k: int|
        0 <= k < longer.len() - 1 implies beside(#[trigger] longer[k], longer[k + 1]) by {
        if k < path.len() - 1 {
            assert(beside(path[k], path[k + 1]));
        }
    }
    assert forall|k: int|
        0 <= k < longer.len() implies grid.ground((#[trigger] longer[k]).0, longer[k].1) by {
        if k < path.len() {
            assert(grid.ground(path[k].0, path[k].1));
        }
    }
    assert(walk(grid, longer) && longer.first() == a && longer.last() == c);
}

/// Two walks that meet make one.
pub proof fn lemma_joined_on(grid: &Grid, a: (int, int), b: (int, int), c: (int, int))
    requires
        joined(grid, a, b),
        joined(grid, b, c),
    ensures
        joined(grid, a, c),
{
    let path = choose|path: Seq<(int, int)>|
        walk(grid, path) && path.first() == b && path.last() == c;
    lemma_joined_along(grid, a, path, path.len() as int);
}

/// A walk to the start of a second walk reaches every tile of the second.
proof fn lemma_joined_along(grid: &Grid, a: (int, int), path: Seq<(int, int)>, upto: int)
    requires
        walk(grid, path),
        joined(grid, a, path.first()),
        1 <= upto <= path.len(),
    ensures
        joined(grid, a, path[upto - 1]),
    decreases upto,
{
    if upto > 1 {
        lemma_joined_along(grid, a, path, upto - 1);
        assert(beside(path[upto - 2], path[upto - 2 + 1]));
        assert(grid.ground(path[upto - 1].0, path[upto - 1].1));
        lemma_joined_step(grid, a, path[upto - 2], path[upto - 1]);
    }
}

/// A walk can be taken backwards.
pub proof fn lemma_joined_back(grid: &Grid, a: (int, int), b: (int, int))
    requires
        joined(grid, a, b),
    ensures
        joined(grid, b, a),
{
    let path = choose|path: Seq<(int, int)>|
        walk(grid, path) && path.first() == a && path.last() == b;
    let back = Seq::new(path.len(), |k: int| path[path.len() - 1 - k]);
    assert forall|k: int|
        0 <= k < back.len() - 1 implies beside(#[trigger] back[k], back[k + 1]) by {
        let j = path.len() - 2 - k;
        assert(beside(path[j], path[j + 1]));
    }
    assert forall|k: int|
        0 <= k < back.len() implies grid.ground((#[trigger] back[k]).0, back[k].1) by {
        let j = path.len() - 1 - k;
        assert(grid.ground(path[j].0, path[j].1));
    }
    assert(walk(grid, back) && back.first() == b && back.last() == a);
}

/// A walk stays a walk when ground is added.
pub proof fn lemma_joined_kept(before: &Grid, after: &Grid, a: (int, int), b: (int, int))
    requires
        joined(before, a, b),
        kept(before, after),
    ensures
        joined(after, a, b),
{
    let path = choose|path: Seq<(int, int)>|
        walk(before, path) && path.first() == a && path.last() == b;
    assert forall|k: int|
        0 <= k < path.len() implies after.ground((#[trigger] path[k]).0, path[k].1) by {
        assert(before.ground(path[k].0, path[k].1));
    }
    assert(walk(after, path));
}

/// Along a row of ground, the tile in column `from` is joined to the tile
/// in column `to`.
pub proof fn lemma_joined_row(grid: &Grid, y: int, from: int, to: int)
    requires
        from <= to,
        cleared(grid, from, y, to + 1, y + 1),
    ensures
        joined(grid, (from, y), (to, y)),
    decreases to - from,
{
    assert(grid.ground(from, y));
    assert(grid.ground(to, y));
    if from == to {
        lemma_joined_self(grid, (from, y));
    } else {
        assert(cleared(grid, from, y, to, y + 1)) by {
            assert forall|x: int, y2: int|
                from <= x < to && y <= y2 < y + 1 implies #[trigger] grid.ground(x, y2) by {
            }
        }
        lemma_joined_row(grid, y, from, to - 1);
        lemma_joined_step(grid, (from, y), (to - 1, y), (to, y));
    }
}

/// Along a column of ground, the tile in row `from` is joined to the tile
/// in row `to`.
pub proof fn lemma_joined_column(grid: &Grid, x: int, from: int, to: int)
    requires
        from <= to,
        cleared(grid, x, from, x + 1, to + 1),
    ensures
        joined(grid, (x, from), (x, to)),
    decreases to - from,
{
    assert(grid.ground(x, from));
    assert(grid.ground(x, to));
    if from == to {
        lemma_joined_self(grid, (x, from));
    } else {
        assert(cleared(grid, x, from, x + 1, to)) by {
            assert forall|x2: int, y: int|
                x <= x2 < x + 1 && from <= y < to implies #[trigger] grid.ground(x2, y) by {
            }
        }
        lemma_joined_column(grid, x, from, to - 1);
        lemma_joined_step(grid, (x, from), (x, to - 1), (x, to));
    }
}

/// Within a block of ground every tile is joined to every other.
pub proof fn lemma_joined_block(
    grid: &Grid,
    left: int,
    bottom: int,
    right: int,
    top: int,
    a: (int, int),
    b: (int, int),
)
    requires
        cleared(grid, left, bottom, right, top),
        left <= a.0 < right,
        bottom <= a.1 < top,
        left <= b.0 < right,
        bottom <= b.1 < top,
    ensures
        joined(grid, a, b),
{
    let corner = (b.0, a.1);
    if a.0 <= b.0 {
        assert(cleared(grid, a.0, a.1, b.0 + 1, a.1 + 1)) by {
            assert forall|x: int, y: int|
                a.0 <= x < b.0 + 1 && a.1 <= y < a.1 + 1 implies #[trigger] grid.ground(x, y) by {
            }
        }
        lemma_joined_row(grid, a.1, a.0, b.0);
    } else {
        assert(cleared(grid, b.0, a.1, a.0 + 1, a.1 + 1)) by {
            assert forall|x: int, y: int|
                b.0 <= x < a.0 + 1 && a.1 <= y < a.1 + 1 implies #[trigger] grid.ground(x, y) by {
            }
        }
        lemma_joined_row(grid, a.1, b.0, a.0);
        lemma_joined_back(grid, corner, a);
    }
    if a.1 <= b.1 {
        assert(cleared(grid, b.0, a.1, b.0 + 1, b.1 + 1)) by {
            assert forall|x: int, y: int|
                b.0 <= x < b.0 + 1 && a.1 <= y < b.1 + 1 implies #[trigger] grid.ground(x, y) by {
            }
        }
        lemma_joined_column(grid, b.0, a.1, b.1);
    } else {
        assert(cleared(grid, b.0, b.1, b.0 + 1, a.1 + 1)) by {
            assert forall|x: int, y: int|
                b.0 <= x < b.0 + 1 && b.1 <= y < a.1 + 1 implies #[trigger] grid.ground(x, y) by {
            }
        }
        lemma_joined_column(grid, b.0, b.1, a.1);
        lemma_joined_back(grid, b, corner);
    }
    lemma_joined_on(grid, a, corner, b);
}

} // verus!

//! The carver: draws the rooms of the cluster and joins every linked pair
//! of them on the map.

use crate::carve::{dig_view, footprint, lemma_dug_kept, lemma_dug_view, make_room};
use crate::cluster::{chain, is_cluster, lemma_reaches_itself, lemma_reaches_next, reaches};
use crate::dice::{Chance, Dice};
use crate::grid::{Grid, Tile};
use crate::lattice::Lattice;
use crate::links::{joins, linked, links_wf};
use crate::paths::{
    joined, kept, lemma_joined_back, lemma_joined_kept, lemma_joined_on, lemma_joined_self,
};
use crate::rooms::Room;
use crate::sectors::contains;
use crate::tunnel::{anchor, around, lemma_solid_kept, link_rooms, rooms_linked, solid};
use vstd::prelude::*;

verus! {

/// One placed room for each sector of the lattice, in the order of the
/// sectors' numbers.
pub open spec fn rooms_placed(rooms: Seq<Room>, lattice: &Lattice) -> bool {
    &&& rooms.len() == lattice.spec_total()
    &&& forall|id: int|
        0 <= id < rooms.len() ==> (#[trigger] rooms[id]).id == id && rooms[id].placed(lattice)
}

/// Every room of the cluster is solid ground.
pub open spec fn rooms_drawn(grid: &Grid, rooms: Seq<Room>, cluster: Seq<u32>) -> bool {
    forall|k: int| 0 <= k < cluster.len() ==> solid(grid, &rooms[(#[trigger] cluster[k]) as int])
}

/// The first `upto` links that lie within the cluster have their two rooms
/// joined.
pub open spec fn links_drawn(
    grid: &Grid,
    rooms: Seq<Room>,
    links: Seq<(u32, u32)>,
    cluster: Seq<u32>,
    upto: int,
) -> bool {
    forall|k: int|
        0 <= k < upto && cluster.contains((#[trigger] links[k]).0)
            && cluster.contains(links[k].1) ==> joined(
            grid,
            anchor(&rooms[links[k].0 as int]),
            anchor(&rooms[links[k].1 as int]),
        )
}

/// With each end of a link the cluster holds the other end.
pub open spec fn closed_under(cluster: Seq<u32>, links: Seq<(u32, u32)>) -> bool {
    forall|k: int|
        0 <= k < links.len() ==> (cluster.contains((#[trigger] links[k]).0)
            <==> cluster.contains(links[k].1))
}

/// Every ground tile of `after` is one of `before` or lies in the sector of
/// a room of the cluster.
pub open spec fn dug_within(
    before: &Grid,
    after: &Grid,
    lattice: &Lattice,
    cluster: Seq<u32>,
) -> bool {
    forall|x: int, y: int|
        #[trigger] after.ground(x, y) ==> before.ground(x, y) || exists|k: int|
            0 <= k < cluster.len() && lattice.holds((#[trigger] cluster[k]) as int, x, y)
}

/// The merges are such as the carver makes: each merges two real rooms that
/// could still be merged, so no sector takes part in two of them.
pub open spec fn merges_wf(
    merges: Seq<(u32, u32)>,
    rooms: Seq<Room>,
    links: Seq<(u32, u32)>,
) -> bool {
    &&& forall|k: int|
        0 <= k < merges.len() ==> {
            &&& links.contains(#[trigger] merges[k])
            &&& merges[k].0 < rooms.len()
            &&& merges[k].1 < rooms.len()
            &&& !rooms[merges[k].0 as int].dummy
            &&& !rooms[merges[k].1 as int].dummy
        }
    &&& forall|i: int, j: int|
        0 <= i < j < merges.len() ==> {
            &&& (#[trigger] merges[i]).0 != (#[trigger] merges[j]).0
            &&& merges[i].0 != merges[j].1
            &&& merges[i].1 != merges[j].0
            &&& merges[i].1 != merges[j].1
        }
}

/// The flags say of each sector whether its room can still be merged: it
/// is real and takes part in none of the merges.
pub open spec fn eligible(can_merge: Seq<bool>, rooms: Seq<Room>, merges: Seq<(u32, u32)>) -> bool {
    &&& can_merge.len() == rooms.len()
    &&& forall|id: int|
        0 <= id < rooms.len() ==> (#[trigger] can_merge[id] <==> !rooms[id].dummy && forall|k: int|
            0 <= k < merges.len() ==> (#[trigger] merges[k]).0 != id && merges[k].1 != id)
}

/// The flags before any merge: set for the real rooms.
pub open spec fn spec_unmerged(rooms: Seq<Room>) -> Seq<bool> {
    Seq::new(rooms.len(), |id: int| !rooms[id].dummy)
}

/// The rows of the map once the rooms from `at` on have been drawn.
pub open spec fn rooms_dug(
    rooms: Seq<Room>,
    cluster: Seq<u32>,
    at: int,
    view: Seq<Seq<Tile>>,
) -> Seq<Seq<Tile>>
    decreases rooms.len() - at,
{
    if at < 0 || at >= rooms.len() {
        view
    } else if cluster.contains(rooms[at].id) {
        rooms_dug(rooms, cluster, at + 1, dig_view(view, footprint(&rooms[at])))
    } else {
        rooms_dug(rooms, cluster, at + 1, view)
    }
}

/// The merges and the rows of the map once the links from `at` on have
/// been drawn, and the state that this leaves.
pub open spec fn links_dug(
    lattice: &Lattice,
    rooms: Seq<Room>,
    links: Seq<(u32, u32)>,
    cluster: Seq<u32>,
    merge: Chance,
    at: int,
    can_merge: Seq<bool>,
    merges: Seq<(u32, u32)>,
    view: Seq<Seq<Tile>>,
    state: Seq<u8>,
) -> (Seq<(u32, u32)>, Seq<Seq<Tile>>, Seq<u8>)
    decreases links.len() - at,
{
    if at < 0 || at >= links.len() {
        (merges, view, state)
    } else if cluster.contains(links[at].0) || cluster.contains(links[at].1) {
        let done = rooms_linked(
            lattice,
            &rooms[links[at].0 as int],
            &rooms[links[at].1 as int],
            can_merge,
            merge,
            view,
            state,
        );
        links_dug(
            lattice,
            rooms,
            links,
            cluster,
            merge,
            at + 1,
            done.1,
            if done.0 {
                merges.push(links[at])
            } else {
                merges
            },
            done.2,
            done.3,
        )
    } else {
        links_dug(lattice, rooms, links, cluster, merge, at + 1, can_merge, merges, view, state)
    }
}

/// The merges and the rows of the map that `carve` gives in a state, and
/// the state that it leaves.
pub open spec fn carved(
    lattice: &Lattice,
    rooms: Seq<Room>,
    links: Seq<(u32, u32)>,
    cluster: Seq<u32>,
    merge: Chance,
    view: Seq<Seq<Tile>>,
    state: Seq<u8>,
) -> (Seq<(u32, u32)>, Seq<Seq<Tile>>, Seq<u8>) {
    links_dug(
        lattice,
        rooms,
        links,
        cluster,
        merge,
        0,
        spec_unmerged(rooms),
        Seq::empty(),
        rooms_dug(rooms, cluster, 0, view),
        state,
    )
}

/// The flags before any merge: real rooms can be merged, dummies cannot.
pub fn unmerged(rooms: &Vec<Room>) -> (can_merge: Vec<bool>)
    ensures
        eligible(can_merge@, rooms@, Seq::empty()),
        can_merge@ == spec_unmerged(rooms@),
{
    let mut can_merge: Vec<bool> = Vec::new();
    let mut at: usize = 0;
    while at < rooms.len()
        invariant
            at <= rooms.len(),
            can_merge@.len() == at,
            forall|id: int| 0 <= id < at ==> #[trigger] can_merge@[id] == !rooms@[id].dummy,
        decreases rooms.len() - at,
    {
        can_merge.push(!rooms[at].dummy);
        at += 1;
    }
    can_merge
}

/// Digs every room of the cluster into the map.
pub fn draw_rooms(lattice: &Lattice, rooms: &Vec<Room>, cluster: &Vec<u32>, map: &mut Grid)
    requires
        lattice.wf(),
        rooms_placed(rooms@, lattice),
        old(map).wf(),
        lattice.fits(old(map).spec_height() as int, old(map).spec_width() as int),
        forall|k: int| 0 <= k < cluster@.len() ==> #[trigger] cluster@[k] < lattice.spec_total(),
    ensures
        final(map).wf(),
        final(map).spec_height() == old(map).spec_height(),
        final(map).spec_width() == old(map).spec_width(),
        kept(old(map), final(map)),
        rooms_drawn(final(map), rooms@, cluster@),
        dug_within(old(map), final(map), lattice, cluster@),
        final(map)@ == rooms_dug(rooms@, cluster@, 0, old(map)@),
{
    let mut at: usize = 0;
    while at < rooms.len()
        invariant
            lattice.wf(),
            rooms_placed(rooms@, lattice),
            map.wf(),
            map.spec_height() == old(map).spec_height(),
            map.spec_width() == old(map).spec_width(),
            lattice.fits(map.spec_height() as int, map.spec_width() as int),
            forall|k: int|
                0 <= k < cluster@.len() ==> #[trigger] cluster@[k] < lattice.spec_total(),
            at <= rooms.len(),
            kept(old(map), map),
            forall|k: int|
                0 <= k < cluster@.len() && (#[trigger] cluster@[k]) < at
                    ==> solid(map, &rooms@[cluster@[k] as int]),
            dug_within(old(map), map, lattice, cluster@),
            rooms_dug(rooms@, cluster@, at as int, map@) == rooms_dug(rooms@, cluster@, 0,
                old(map)@),
        decreases rooms.len() - at,
    {
        let room = &rooms[at];
        if contains(cluster, room.id) {
            let ghost before = *map;
            make_room(map, room);
            proof {
                lemma_dug_kept(&before, map, footprint(room));
                lemma_dug_view(&before, map, footprint(room));
                room.lemma_placed(lattice);
                assert forall|k: int|
                    0 <= k < cluster@.len() && (#[trigger] cluster@[k]) < at + 1 implies solid(
                    map,
                    &rooms@[cluster@[k] as int],
                ) by {
                    let other = &rooms@[cluster@[k] as int];
                    if cluster@[k] < at {
                        lemma_solid_kept(&before, map, other);
                    } else {
                        assert forall|x: int, y: int|
                            other.left <= x < other.left + other.width
                                && other.bottom <= y < other.bottom + other.height
                                    implies #[trigger] map.ground(
                            x,
                            y,
                        ) by {
                            assert(before.has(x, y) && footprint(room)(x, y));
                        }
                    }
                }
                let k0 = choose|k: int| 0 <= k < cluster@.len() && cluster@[k] == room.id;
                assert forall|x: int, y: int|
                    #[trigger] map.ground(x, y) implies old(map).ground(x, y) || exists|k: int|
                    0 <= k < cluster@.len()
                        && lattice.holds((#[trigger] cluster@[k]) as int, x, y) by {
                    if !before.ground(x, y) {
                        assert(map@[y][x] == Tile::Ground);
                        assert(footprint(room)(x, y));
                        assert(lattice.holds(cluster@[k0] as int, x, y));
                    }
                }
            }
        }
        at += 1;
    }
}

/// Rooms that were drawn stay drawn when ground is added.
pub proof fn lemma_rooms_drawn_kept(
    before: &Grid,
    after: &Grid,
    rooms: Seq<Room>,
    cluster: Seq<u32>,
)
    requires
        rooms_drawn(before, rooms, cluster),
        kept(before, after),
    ensures
        rooms_drawn(after, rooms, cluster),
{
    assert forall|k: int|
        0 <= k < cluster.len() implies solid(after, &rooms[(#[trigger] cluster[k]) as int]) by {
        lemma_solid_kept(before, after, &rooms[cluster[k] as int]);
    }
}

/// Links that were drawn stay drawn when ground is added.
pub proof fn lemma_links_drawn_kept(
    before: &Grid,
    after: &Grid,
    rooms: Seq<Room>,
    links: Seq<(u32, u32)>,
    cluster: Seq<u32>,
    upto: int,
)
    requires
        links_drawn(before, rooms, links, cluster, upto),
        kept(before, after),
    ensures
        links_drawn(after, rooms, links, cluster, upto),
{
    assert forall|k: int|
        0 <= k < upto && cluster.contains((#[trigger] links[k]).0)
            && cluster.contains(links[k].1) implies joined(
        after,
        anchor(&rooms[links[k].0 as int]),
        anchor(&rooms[links[k].1 as int]),
    ) by {
        lemma_joined_kept(
            before,
            after,
            anchor(&rooms[links[k].0 as int]),
            anchor(&rooms[links[k].1 as int]),
        );
    }
}

/// Adding ground twice adds ground.
pub proof fn lemma_kept_on(first: &Grid, second: &Grid, third: &Grid)
    requires
        kept(first, second),
        kept(second, third),
    ensures
        kept(first, third),
{
    assert forall|x: int, y: int| #[trigger] first.ground(x, y) implies third.ground(x, y) by {
        assert(second.ground(x, y));
    }
}

/// A merge of two rooms that can both still be merged keeps the record of
/// merges in order.
pub proof fn lemma_merge_recorded(
    can_merge: Seq<bool>,
    rooms: Seq<Room>,
    links: Seq<(u32, u32)>,
    merges: Seq<(u32, u32)>,
    link: (u32, u32),
)
    requires
        eligible(can_merge, rooms, merges),
        merges_wf(merges, rooms, links),
        links.contains(link),
        link.0 < rooms.len(),
        link.1 < rooms.len(),
        link.0 != link.1,
        can_merge[link.0 as int],
        can_merge[link.1 as int],
    ensures
        eligible(
            can_merge.update(link.0 as int, false).update(link.1 as int, false),
            rooms,
            merges.push(link),
        ),
        merges_wf(merges.push(link), rooms, links),
{
    let flags = can_merge.update(link.0 as int, false).update(link.1 as int, false);
    let more = merges.push(link);
    assert forall|id: int|
        0 <= id < rooms.len() implies (#[trigger] flags[id] <==> !rooms[id].dummy && forall|k: int|
        0 <= k < more.len() ==> (#[trigger] more[k]).0 != id && more[k].1 != id) by {
        if id == link.0 || id == link.1 {
            assert(more[merges.len() as int] == link);
        } else {
            if can_merge[id] {
                assert forall|k: int|
                    0 <= k < more.len() implies (#[trigger] more[k]).0 != id && more[k].1 != id by {
                    if k < merges.len() {
                        assert(merges[k].0 != id && merges[k].1 != id);
                    }
                }
            }
            if !rooms[id].dummy && forall|k: int|
                0 <= k < more.len() ==> (#[trigger] more[k]).0 != id && more[k].1 != id {
                assert forall|k: int|
                    0 <= k < merges.len() implies (#[trigger] merges[k]).0 != id
                        && merges[k].1 != id by {
                    assert(more[k] == merges[k]);
                }
            }
        }
    }
    assert forall|i: int, j: int| 0 <= i < j < more.len() implies {
        &&& (#[trigger] more[i]).0 != (#[trigger] more[j]).0
        &&& more[i].0 != more[j].1
        &&& more[i].1 != more[j].0
        &&& more[i].1 != more[j].1
    } by {
        if j == merges.len() {
            assert(merges[i].0 != link.0 && merges[i].1 != link.0);
            assert(merges[i].0 != link.1 && merges[i].1 != link.1);
        }
    }
}

/// Joins the two rooms of every link that touches the cluster, link by
/// link in the order of the list, and gives the links whose rooms were
/// merged.
pub fn draw_links(
    lattice: &Lattice,
    rooms: &Vec<Room>,
    conn_list: &Vec<(u32, u32)>,
    cluster: &Vec<u32>,
    merge: Chance,
    map: &mut Grid,
    dice: &mut Dice,
) -> (merges: Vec<(u32, u32)>)
    requires
        lattice.wf(),
        rooms_placed(rooms@, lattice),
        links_wf(conn_list@, lattice),
        old(map).wf(),
        lattice.fits(old(map).spec_height() as int, old(map).spec_width() as int),
        rooms_drawn(old(map), rooms@, cluster@),
        closed_under(cluster@, conn_list@),
    ensures
        final(map).wf(),
        final(map).spec_height() == old(map).spec_height(),
        final(map).spec_width() == old(map).spec_width(),
        kept(old(map), final(map)),
        rooms_drawn(final(map), rooms@, cluster@),
        links_drawn(final(map), rooms@, conn_list@, cluster@, conn_list@.len() as int),
        merges_wf(merges@, rooms@, conn_list@),
        forall|k: int|
            0 <= k < merges@.len() ==> cluster@.contains((#[trigger] merges@[k]).0)
                || cluster@.contains(
                merges@[k].1,
            ),
        merge.never() ==> merges@.len() == 0,
        dug_within(old(map), final(map), lattice, cluster@),
        (merges@, final(map)@, final(dice)@) == links_dug(
            lattice,
            rooms@,
            conn_list@,
            cluster@,
            merge,
            0,
            spec_unmerged(rooms@),
            Seq::empty(),
            old(map)@,
            old(dice)@,
        ),
{
    let mut can_merge = unmerged(rooms);
    let mut merges: Vec<(u32, u32)> = Vec::new();
    let mut at: usize = 0;
    while at < conn_list.len()
        invariant
            lattice.wf(),
            rooms_placed(rooms@, lattice),
            links_wf(conn_list@, lattice),
            map.wf(),
            map.spec_height() == old(map).spec_height(),
            map.spec_width() == old(map).spec_width(),
            lattice.fits(map.spec_height() as int, map.spec_width() as int),
            at <= conn_list.len(),
            kept(old(map), map),
            rooms_drawn(map, rooms@, cluster@),
            links_drawn(map, rooms@, conn_list@, cluster@, at as int),
            eligible(can_merge@, rooms@, merges@),
            merges_wf(merges@, rooms@, conn_list@),
            forall|k: int|
                0 <= k < merges@.len() ==> cluster@.contains((#[trigger] merges@[k]).0)
                    || cluster@.contains(
                    merges@[k].1,
                ),
            merge.never() ==> merges@.len() == 0,
            closed_under(cluster@, conn_list@),
            dug_within(old(map), map, lattice, cluster@),
            links_dug(
                lattice,
                rooms@,
                conn_list@,
                cluster@,
                merge,
                at as int,
                can_merge@,
                merges@,
                map@,
                dice@,
            ) == links_dug(
                lattice,
                rooms@,
                conn_list@,
                cluster@,
                merge,
                0,
                spec_unmerged(rooms@),
                Seq::empty(),
                old(map)@,
                old(dice)@,
            ),
        decreases conn_list.len() - at,
    {
        let (id1, id2) = conn_list[at];
        proof {
            lattice.lemma_adjacent(id1 as int, id2 as int);
            assert(conn_list@.contains(conn_list@[at as int]));
        }
        if contains(cluster, id1) || contains(cluster, id2) {
            let room1 = &rooms[id1 as usize];
            let room2 = &rooms[id2 as usize];
            let ghost before = *map;
            let ghost flags = can_merge@;
            let merging = link_rooms(lattice, room1, room2, &mut can_merge, merge, map, dice);
            proof {
                lemma_kept_on(old(map), &before, map);
                lemma_rooms_drawn_kept(&before, map, rooms@, cluster@);
                lemma_links_drawn_kept(&before, map, rooms@, conn_list@, cluster@, at as int);
                assert(cluster@.contains(id1) && cluster@.contains(id2));
                let k1 = choose|k: int| 0 <= k < cluster@.len() && cluster@[k] == id1;
                let k2 = choose|k: int| 0 <= k < cluster@.len() && cluster@[k] == id2;
                assert(solid(&before, &rooms@[cluster@[k1] as int]));
                assert(solid(&before, &rooms@[cluster@[k2] as int]));
                assert forall|x: int, y: int|
                    #[trigger] map.ground(x, y) implies old(map).ground(x, y) || exists|k: int|
                    0 <= k < cluster@.len()
                        && lattice.holds((#[trigger] cluster@[k]) as int, x, y) by {
                    if !before.ground(x, y) {
                        assert(around(lattice, room1, room2, x, y));
                        assert(lattice.holds(cluster@[k1] as int, x, y)
                            || lattice.holds(cluster@[k2] as int, x, y));
                    }
                }
                if merging {
                    lemma_merge_recorded(flags, rooms@, conn_list@, merges@, (id1, id2));
                }
            }
            if merging {
                merges.push((id1, id2));
            }
        }
        at += 1;
    }
    merges
}

/// Carves the cluster into the map: first its rooms, then its links.
/// Rooms and links outside the cluster are not drawn. Gives the links
/// whose rooms were merged.
pub fn carve(
    lattice: &Lattice,
    rooms: &Vec<Room>,
    conn_list: &Vec<(u32, u32)>,
    cluster: &Vec<u32>,
    merge: Chance,
    map: &mut Grid,
    dice: &mut Dice,
) -> (merges: Vec<(u32, u32)>)
    requires
        lattice.wf(),
        rooms_placed(rooms@, lattice),
        links_wf(conn_list@, lattice),
        old(map).wf(),
        lattice.fits(old(map).spec_height() as int, old(map).spec_width() as int),
        forall|k: int| 0 <= k < cluster@.len() ==> #[trigger] cluster@[k] < lattice.spec_total(),
        closed_under(cluster@, conn_list@),
    ensures
        final(map).wf(),
        final(map).spec_height() == old(map).spec_height(),
        final(map).spec_width() == old(map).spec_width(),
        kept(old(map), final(map)),
        rooms_drawn(final(map), rooms@, cluster@),
        links_drawn(final(map), rooms@, conn_list@, cluster@, conn_list@.len() as int),
        merges_wf(merges@, rooms@, conn_list@),
        forall|k: int|
            0 <= k < merges@.len() ==> cluster@.contains((#[trigger] merges@[k]).0)
                || cluster@.contains(
                merges@[k].1,
            ),
        merge.never() ==> merges@.len() == 0,
        dug_within(old(map), final(map), lattice, cluster@),
        (merges@, final(map)@, final(dice)@) == carved(
            lattice,
            rooms@,
            conn_list@,
            cluster@,
            merge,
            old(map)@,
            old(dice)@,
        ),
{
    draw_rooms(lattice, rooms, cluster, map);
    let ghost drawn = *map;
    let merges = draw_links(lattice, rooms, conn_list, cluster, merge, map, dice);
    proof {
        lemma_kept_on(old(map), &drawn, map);
        assert forall|x: int, y: int|
            #[trigger] map.ground(x, y) implies old(map).ground(x, y) || exists|k: int|
            0 <= k < cluster@.len() && lattice.holds((#[trigger] cluster@[k]) as int, x, y) by {
            if !drawn.ground(x, y) {
            }
        }
    }
    merges
}

/// On a carved map every room of the cluster is joined to the room of the
/// sector that the cluster grew from.
pub proof fn lemma_cluster_joined(
    grid: &Grid,
    rooms: Seq<Room>,
    links: Seq<(u32, u32)>,
    cluster: Seq<u32>,
    start: u32,
    id: u32,
)
    requires
        is_cluster(cluster, links, start),
        rooms_drawn(grid, rooms, cluster),
        links_drawn(grid, rooms, links, cluster, links.len() as int),
        forall|k: int|
            0 <= k < cluster.len() ==> (#[trigger] rooms[cluster[k] as int]).width >= 1
                && rooms[cluster[k] as int].height >= 1,
        cluster.contains(id),
    ensures
        joined(grid, anchor(&rooms[start as int]), anchor(&rooms[id as int])),
{
    let path = choose|path: Seq<int>|
        chain(links, path) && path.first() == start as int && path.last() == id as int;
    lemma_chain_joined(grid, rooms, links, cluster, start, path, path.len() as int);
}

/// Along a chain of linked sectors that begins where the cluster grew from,
/// every sector has its room joined to the first.
proof fn lemma_chain_joined(
    grid: &Grid,
    rooms: Seq<Room>,
    links: Seq<(u32, u32)>,
    cluster: Seq<u32>,
    start: u32,
    path: Seq<int>,
    upto: int,
)
    requires
        is_cluster(cluster, links, start),
        rooms_drawn(grid, rooms, cluster),
        links_drawn(grid, rooms, links, cluster, links.len() as int),
        forall|k: int|
            0 <= k < cluster.len() ==> (#[trigger] rooms[cluster[k] as int]).width >= 1
                && rooms[cluster[k] as int].height >= 1,
        chain(links, path),
        path.first() == start as int,
        1 <= upto <= path.len(),
    ensures
        reaches(links, start as int, path[upto - 1]),
        joined(grid, anchor(&rooms[start as int]), anchor(&rooms[path[upto - 1]])),
    decreases upto,
{
    if upto == 1 {
        lemma_reaches_itself(links, start as int);
        assert(cluster.contains(start));
        let k = choose|k: int| 0 <= k < cluster.len() && cluster[k] == start;
        let room = &rooms[cluster[k] as int];
        assert(solid(grid, room));
        assert(grid.ground(room.left as int, room.bottom as int));
        lemma_joined_self(grid, anchor(room));
    } else {
        lemma_chain_joined(grid, rooms, links, cluster, start, path, upto - 1);
        let a = path[upto - 2];
        let b = path[upto - 2 + 1];
        assert(linked(links, a, b));
        lemma_reaches_next(links, start as int, a, b);
        let k = choose|k: int| 0 <= k < links.len() && joins(#[trigger] links[k], a, b);
        assert(cluster.contains(links[k].0));
        assert(cluster.contains(links[k].1));
        if links[k].0 == a {
            lemma_joined_on(grid, anchor(&rooms[start as int]), anchor(&rooms[a]),
                anchor(&rooms[b]));
        } else {
            lemma_joined_back(grid, anchor(&rooms[b]), anchor(&rooms[a]));
            lemma_joined_on(grid, anchor(&rooms[start as int]), anchor(&rooms[a]),
                anchor(&rooms[b]));
        }
    }
}

} // verus!

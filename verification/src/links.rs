//! Links between neighbouring sectors. A link is kept as the pair of its
//! two sector numbers, the smaller first, so that one pair stands for both
//! directions.

use crate::dice::{flip_drawn, range_drawn, Chance, Dice};
use crate::lattice::Lattice;
use crate::rooms::Room;
use crate::sectors::{lemma_without, without};
use vstd::prelude::*;

verus! {

/// Whether `link` joins the sectors `a` and `b`, in either order.
pub open spec fn joins(link: (u32, u32), a: int, b: int) -> bool {
    (link.0 == a && link.1 == b) || (link.0 == b && link.1 == a)
}

/// Whether some link of the list joins the sectors `a` and `b`.
pub open spec fn linked(links: Seq<(u32, u32)>, a: int, b: int) -> bool {
    exists|k: int| 0 <= k < links.len() && joins(#[trigger] links[k], a, b)
}

/// The pair that stands for a link between `a` and `b`: the smaller number
/// first.
pub open spec fn spec_ordered(a: u32, b: u32) -> (u32, u32) {
    if a > b {
        (b, a)
    } else {
        (a, b)
    }
}

/// The list is a set of links of the lattice: every pair has its smaller
/// number first and joins a sector with one of its neighbours, and no pair
/// stands twice.
pub open spec fn links_wf(links: Seq<(u32, u32)>, lattice: &Lattice) -> bool {
    &&& forall|k: int|
        0 <= k < links.len() ==> (#[trigger] links[k]).0 < links[k].1 && lattice.adjacent(
            links[k].0 as int,
            links[k].1 as int,
        )
    &&& links.no_duplicates()
}

/// In a set of links no pair joins a sector with itself, no two pairs join
/// the same two sectors, in whichever order, and each pair joins two
/// sectors of the lattice that are neighbours of each other.
pub proof fn lemma_links_distinct(links: Seq<(u32, u32)>, lattice: &Lattice)
    requires
        lattice.wf(),
        links_wf(links, lattice),
    ensures
        forall|k: int| 0 <= k < links.len() ==> (#[trigger] links[k]).0 != links[k].1,
        forall|i: int, j: int|
            0 <= i < links.len() && 0 <= j < links.len() && i != j ==> !joins(
                #[trigger] links[i],
                (#[trigger] links[j]).0 as int,
                links[j].1 as int,
            ),
        forall|k: int|
            0 <= k < links.len() ==> (#[trigger] links[k]).1 < lattice.spec_total()
                && lattice.adjacent(links[k].1 as int, links[k].0 as int),
{
    assert forall|k: int| 0 <= k < links.len() implies (#[trigger] links[k]).1
        < lattice.spec_total() && lattice.adjacent(links[k].1 as int, links[k].0 as int) by {
        lattice.lemma_adjacent(links[k].0 as int, links[k].1 as int);
    }
}

/// Whether the list holds a link between `id1` and `id2`.
pub fn already_has_connection(conn_list: &Vec<(u32, u32)>, id1: u32, id2: u32) -> (found: bool)
    ensures
        found == linked(conn_list@, id1 as int, id2 as int),
{
    let mut at: usize = 0;
    while at < conn_list.len()
        invariant
            at <= conn_list.len(),
            forall|k: int| 0 <= k < at ==> !joins(#[trigger] conn_list@[k], id1 as int, id2 as int),
        decreases conn_list.len() - at,
    {
        let (e1, e2) = conn_list[at];
        if (e1 == id1 && e2 == id2) || (e1 == id2 && e2 == id1) {
            return true;
        }
        at += 1;
    }
    false
}

/// The pair that stands for a link between `a` and `b`.
pub fn ordered(a: u32, b: u32) -> (link: (u32, u32))
    ensures
        link == spec_ordered(a, b),
{
    if a > b {
        (b, a)
    } else {
        (a, b)
    }
}

/// The list after a link between `a` and `b` has been asked for: the pair
/// is added at the end unless the list held the link already.
pub open spec fn with_link(links: Seq<(u32, u32)>, a: u32, b: u32) -> Seq<(u32, u32)> {
    if linked(links, a as int, b as int) {
        links
    } else {
        links.push(spec_ordered(a, b))
    }
}

/// Adds a link between `id1` and `id2` unless the list holds it already,
/// and says whether it was added.
pub fn add_connection(conn_list: &mut Vec<(u32, u32)>, id1: u32, id2: u32) -> (added: bool)
    ensures
        added == !linked(old(conn_list)@, id1 as int, id2 as int),
        final(conn_list)@ == with_link(old(conn_list)@, id1, id2),
{
    if already_has_connection(conn_list, id1, id2) {
        false
    } else {
        conn_list.push(ordered(id1, id2));
        true
    }
}

/// A link between neighbours keeps a set of links one, keeps every link it
/// held, and makes the two sectors linked.
pub proof fn lemma_with_link(links: Seq<(u32, u32)>, lattice: &Lattice, a: u32, b: u32)
    requires
        lattice.wf(),
        links_wf(links, lattice),
        lattice.adjacent(a as int, b as int),
    ensures
        links_wf(with_link(links, a, b), lattice),
        links.is_prefix_of(with_link(links, a, b)),
        linked(with_link(links, a, b), a as int, b as int),
        forall|x: int, y: int| linked(links, x, y) ==> linked(with_link(links, a, b), x, y),
{
    lattice.lemma_adjacent(a as int, b as int);
    let more = with_link(links, a, b);
    if !linked(links, a as int, b as int) {
        let link = spec_ordered(a, b);
        assert(more[links.len() as int] == link);
        assert(joins(link, a as int, b as int));
        assert forall|i: int, j: int|
            0 <= i < more.len() && 0 <= j < more.len() && i != j implies more[i]
            != more[j] by {
            if i < links.len() && j < links.len() {
            } else if i < links.len() {
                assert(!joins(links[i], a as int, b as int));
            } else {
                assert(!joins(links[j], a as int, b as int));
            }
        }
        assert forall|x: int, y: int| linked(links, x, y) implies linked(more, x, y) by {
            let k = choose|k: int| 0 <= k < links.len() && joins(#[trigger] links[k], x, y);
            assert(joins(more[k], x, y));
        }
    }
}

/// The links of `after` are those of `before` and, behind them, links of
/// sector `id` alone.
pub open spec fn grown_at(before: Seq<(u32, u32)>, after: Seq<(u32, u32)>, id: u32) -> bool {
    &&& before.is_prefix_of(after)
    &&& forall|k: int|
        before.len() <= k < after.len() ==> (#[trigger] after[k]).0 == id || after[k].1 == id
}

/// Whether some link of the list has `id` at one of its ends.
pub open spec fn touched(links: Seq<(u32, u32)>, id: int) -> bool {
    exists|k: int| 0 <= k < links.len() && ((#[trigger] links[k]).0 == id || links[k].1 == id)
}

/// The links that are there once sector `id` has got `more` further links
/// to neighbours of `near`, and the state that this leaves: each link draws
/// the place in `near` of the neighbour that it leads to.
pub open spec fn linking(
    id: u32,
    near: Seq<u32>,
    links: Seq<(u32, u32)>,
    more: nat,
    state: Seq<u8>,
) -> (Seq<(u32, u32)>, Seq<u8>)
    decreases more,
{
    if more == 0 {
        (links, state)
    } else {
        let drawn = range_drawn(state, 0, near.len() as u32);
        linking(
            id,
            without(near, drawn.0 as int),
            with_link(links, id, near[drawn.0 as int]),
            (more - 1) as nat,
            drawn.1,
        )
    }
}

/// The links that `connect_room` leaves in a state, and the state that it
/// leaves. A dummy first flips the coin that decides whether it is
/// skipped; then the number of links is drawn, then the links.
pub open spec fn room_connected(
    lattice: &Lattice,
    room: &Room,
    links: Seq<(u32, u32)>,
    skip: Chance,
    state: Seq<u8>,
) -> (Seq<(u32, u32)>, Seq<u8>) {
    let flipped = if room.dummy {
        flip_drawn(state, skip)
    } else {
        (false, state)
    };
    let near = lattice.spec_neighbours(room.id as int);
    if flipped.0 || near.len() == 0 {
        (links, flipped.1)
    } else {
        let count = range_drawn(flipped.1, 1, (near.len() + 1) as u32);
        linking(room.id, near, links, count.0 as nat, count.1)
    }
}

/// The links that are there once the rooms from `at` on have been linked,
/// and the state that this leaves.
pub open spec fn connecting(
    lattice: &Lattice,
    rooms: Seq<Room>,
    at: int,
    links: Seq<(u32, u32)>,
    skip: Chance,
    state: Seq<u8>,
) -> (Seq<(u32, u32)>, Seq<u8>)
    decreases rooms.len() - at,
{
    if at < 0 || at >= rooms.len() {
        (links, state)
    } else {
        let next = room_connected(lattice, &rooms[at], links, skip, state);
        connecting(lattice, rooms, at + 1, next.0, skip, next.1)
    }
}

/// Links the room to some of its neighbours, chosen at random: at least one
/// and at most all of them. A dummy is, with the chance `skip`, left as it
/// is instead.
pub fn connect_room(
    lattice: &Lattice,
    room: &Room,
    conn_list: &mut Vec<(u32, u32)>,
    skip: Chance,
    dice: &mut Dice,
)
    requires
        lattice.wf(),
        room.id < lattice.spec_total(),
        links_wf(old(conn_list)@, lattice),
    ensures
        links_wf(final(conn_list)@, lattice),
        grown_at(old(conn_list)@, final(conn_list)@, room.id),
        room.dummy && skip.certain() ==> final(conn_list)@ == old(conn_list)@,
        (!room.dummy || skip.never()) && lattice.spec_total() > 1 ==> touched(
            final(conn_list)@,
            room.id as int,
        ),
        (final(conn_list)@, final(dice)@) == room_connected(
            lattice,
            room,
            old(conn_list)@,
            skip,
            old(dice)@,
        ),
{
    if room.dummy && dice.flip(skip) {
        return ;
    }
    let mut near = lattice.neighbours(room.id);
    proof {
        lattice.lemma_neighbours(room.id as int);
    }
    if near.len() == 0 {
        proof {
            if lattice.spec_total() > 1 {
                lemma_has_neighbour(lattice, room.id as int);
            }
        }
        return ;
    }
    proof {
        assert forall|k: int| 0 <= k < near@.len() implies lattice.adjacent(
            room.id as int,
            #[trigger] near@[k] as int,
        ) by {
            assert(near@.contains(near@[k]));
        }
    }
    let count = dice.range(1, near.len() as u32 + 1);
    let mut done: u32 = 0;
    while done < count
        invariant
            lattice.wf(),
            room.id < lattice.spec_total(),
            links_wf(conn_list@, lattice),
            grown_at(old(conn_list)@, conn_list@, room.id),
            near@.no_duplicates(),
            forall|k: int|
                0 <= k < near@.len()
                    ==> lattice.adjacent(room.id as int, #[trigger] near@[k] as int),
            done <= count,
            near@.len() + done >= count,
            near@.len() <= 4,
            done > 0 ==> touched(conn_list@, room.id as int),
            linking(room.id, near@, conn_list@, (count - done) as nat, dice@) == room_connected(
                lattice,
                room,
                old(conn_list)@,
                skip,
                old(dice)@,
            ),
        decreases count - done,
    {
        let pick = dice.index(near.len());
        let ghost before = conn_list@;
        let ghost pool = near@;
        let id = near.swap_remove(pick);
        add_connection(conn_list, room.id, id);
        proof {
            lemma_without(pool, pick as int);
            lemma_with_link(before, lattice, room.id, id);
            assert forall|k: int| 0 <= k < near@.len() implies lattice.adjacent(
                room.id as int,
                #[trigger] near@[k] as int,
            ) by {
                assert(near@.contains(near@[k]));
                assert(pool.contains(near@[k]));
            }
            let k = choose|k: int|
                0 <= k < conn_list@.len()
                    && joins(#[trigger] conn_list@[k], room.id as int, id as int);
            assert(conn_list@[k].0 == room.id || conn_list@[k].1 == room.id);
        }
        done += 1;
    }
}

/// In a lattice of more than one sector every sector has a neighbour.
pub proof fn lemma_has_neighbour(lattice: &Lattice, id: int)
    requires
        lattice.wf(),
        0 <= id < lattice.spec_total(),
        lattice.spec_total() > 1,
    ensures
        lattice.spec_neighbours(id).len() > 0,
{
    lattice.lemma_position(id);
    if lattice.columns == 1 && lattice.rows == 1 {
        assert(lattice.spec_total() == 1) by (nonlinear_arith)
            requires
                lattice.columns == 1,
                lattice.rows == 1,
                lattice.spec_total() == lattice.rows * lattice.columns,
        ;
    }
}

/// The links are such as linking every room in turn gives: a set of links
/// of the lattice in which every real room has a link, unless the lattice
/// is a single sector.
pub open spec fn links_of(links: Seq<(u32, u32)>, lattice: &Lattice, rooms: Seq<Room>) -> bool {
    &&& links_wf(links, lattice)
    &&& lattice.spec_total() > 1 ==> forall|id: int|
        0 <= id < rooms.len() && !(#[trigger] rooms[id]).dummy ==> touched(links, id)
}

/// Links every room in turn to some of its neighbours.
pub fn connect_rooms(
    lattice: &Lattice,
    rooms: &Vec<Room>,
    skip: Chance,
    dice: &mut Dice,
) -> (conn_list: Vec<(u32, u32)>)
    requires
        lattice.wf(),
        rooms@.len() == lattice.spec_total(),
        forall|id: int| 0 <= id < rooms@.len() ==> (#[trigger] rooms@[id]).id == id,
    ensures
        links_of(conn_list@, lattice, rooms@),
        (conn_list@, final(dice)@) == connecting(lattice, rooms@, 0, Seq::empty(), skip,
            old(dice)@),
{
    let mut conn_list: Vec<(u32, u32)> = Vec::new();
    let mut at: usize = 0;
    while at < rooms.len()
        invariant
            lattice.wf(),
            rooms@.len() == lattice.spec_total(),
            forall|id: int| 0 <= id < rooms@.len() ==> (#[trigger] rooms@[id]).id == id,
            at <= rooms.len(),
            links_wf(conn_list@, lattice),
            lattice.spec_total() > 1 ==> forall|id: int|
                0 <= id < at && !(#[trigger] rooms@[id]).dummy ==> touched(conn_list@, id),
            connecting(lattice, rooms@, at as int, conn_list@, skip, dice@) == connecting(
                lattice,
                rooms@,
                0,
                Seq::empty(),
                skip,
                old(dice)@,
            ),
        decreases rooms.len() - at,
    {
        let ghost before = conn_list@;
        connect_room(lattice, &rooms[at], &mut conn_list, skip, dice);
        proof {
            assert forall|id: int| touched(before, id) implies touched(conn_list@, id) by {
                let k = choose|k: int|
                    0 <= k < before.len() && ((#[trigger] before[k]).0 == id || before[k].1 == id);
                assert(conn_list@[k] == before[k]);
            }
        }
        at += 1;
    }
    conn_list
}

} // verus!

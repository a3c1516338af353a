//! Lists of sector numbers, and the choice of the sectors that hold real
//! rooms.

use crate::dice::{range_drawn, Dice};
use vstd::prelude::*;

verus! {

/// The numbers `0, 1, .., total - 1` in this order.
pub open spec fn spec_all_sectors(total: int) -> Seq<u32> {
    Seq::new(total as nat, |id: int| id as u32)
}

/// Whether `list` holds `id`.
pub fn contains(list: &Vec<u32>, id: u32) -> (found: bool)
    ensures
        found == list@.contains(id),
{
    let mut at: usize = 0;
    while at < list.len()
        invariant
            at <= list.len(),
            forall|k: int| 0 <= k < at ==> list@[k] != id,
        decreases list.len() - at,
    {
        if list[at] == id {
            return true;
        }
        at += 1;
    }
    false
}

/// Whether the cluster holds every one of the sectors.
pub open spec fn holds_all(cluster: Seq<u32>, ids: Seq<u32>) -> bool {
    forall|k: int| 0 <= k < ids.len() ==> cluster.contains(#[trigger] ids[k])
}

/// Whether the cluster holds every one of `rooms`.
pub fn has_all(cluster: &Vec<u32>, rooms: &Vec<u32>) -> (all: bool)
    ensures
        all == holds_all(cluster@, rooms@),
{
    let mut at: usize = 0;
    while at < rooms.len()
        invariant
            at <= rooms.len(),
            forall|k: int| 0 <= k < at ==> cluster@.contains(#[trigger] rooms@[k]),
        decreases rooms.len() - at,
    {
        if !contains(cluster, rooms[at]) {
            return false;
        }
        at += 1;
    }
    true
}

/// The numbers of all sectors of a lattice of `total` sectors, in rising
/// order.
pub fn all_sectors(total: u32) -> (ids: Vec<u32>)
    ensures
        ids@ == spec_all_sectors(total as int),
{
    let mut ids: Vec<u32> = Vec::new();
    let mut id: u32 = 0;
    while id < total
        invariant
            id <= total,
            ids@ == spec_all_sectors(id as int),
        decreases total - id,
    {
        ids.push(id);
        id += 1;
    }
    ids
}

/// What `Vec::swap_remove` leaves of a list: the item at `at` is gone and
/// the last item stands in its place.
pub open spec fn without(list: Seq<u32>, at: int) -> Seq<u32> {
    list.update(at, list.last()).drop_last()
}

/// Taking an item out of a list without repeats leaves a list without
/// repeats that holds all the other items and nothing else.
pub proof fn lemma_without(list: Seq<u32>, at: int)
    requires
        list.no_duplicates(),
        0 <= at < list.len(),
    ensures
        without(list, at).no_duplicates(),
        without(list, at).len() == list.len() - 1,
        forall|id: u32| #[trigger]
            without(list, at).contains(id) <==> list.contains(id) && id != list[at],
{
    let rest = without(list, at);
    let last = list.len() - 1;
    assert forall|id: u32| #[trigger] rest.contains(id) <==> list.contains(id) && id
        != list[at] by {
        if rest.contains(id) {
            let k = choose|k: int| 0 <= k < rest.len() && rest[k] == id;
            if k == at {
                assert(list[last] == id);
            } else {
                assert(list[k] == id);
            }
        }
        if list.contains(id) && id != list[at] {
            let k = choose|k: int| 0 <= k < list.len() && list[k] == id;
            if k == last {
                assert(rest[at] == id);
            } else {
                assert(rest[k] == id);
            }
        }
    }
}

/// The sectors chosen so far and those still to choose from share out the
/// sectors of the lattice between them.
pub open spec fn shared_out(pool: Seq<u32>, chosen: Seq<u32>, total: int) -> bool {
    &&& pool.no_duplicates()
    &&& chosen.no_duplicates()
    &&& pool.len() + chosen.len() == total
    &&& forall|k: int| 0 <= k < pool.len() ==> #[trigger] pool[k] < total
    &&& forall|k: int| 0 <= k < chosen.len() ==> #[trigger] chosen[k] < total
    &&& forall|k: int| 0 <= k < chosen.len() ==> !pool.contains(#[trigger] chosen[k])
}

/// Moves the sector at `pick` from the pool to the chosen ones.
pub fn choose_sector(pool: &mut Vec<u32>, chosen: &mut Vec<u32>, pick: usize)
    requires
        pick < old(pool)@.len(),
    ensures
        final(pool)@ == without(old(pool)@, pick as int),
        final(chosen)@ == old(chosen)@.push(old(pool)@[pick as int]),
{
    let id = pool.swap_remove(pick);
    chosen.push(id);
}

/// A choice keeps the sectors shared out.
pub proof fn lemma_choose_sector(pool: Seq<u32>, chosen: Seq<u32>, total: int, pick: int)
    requires
        shared_out(pool, chosen, total),
        0 <= pick < pool.len(),
    ensures
        shared_out(without(pool, pick), chosen.push(pool[pick]), total),
{
    lemma_without(pool, pick);
    let rest = without(pool, pick);
    let more = chosen.push(pool[pick]);
    assert forall|i: int, j: int|
        0 <= i < more.len() && 0 <= j < more.len() && i != j implies more[i]
        != more[j] by {
        if i < chosen.len() && j < chosen.len() {
        } else if i < chosen.len() {
            assert(!pool.contains(chosen[i]));
        } else {
            assert(!pool.contains(chosen[j]));
        }
    }
    assert forall|k: int| 0 <= k < rest.len() implies #[trigger] rest[k] < total by {
        assert(rest.contains(rest[k]));
        assert(pool.contains(rest[k]));
    }
    assert forall|k: int| 0 <= k < more.len() implies !rest.contains(#[trigger] more[k]) by {
        if k < chosen.len() {
            assert(!pool.contains(chosen[k]));
        }
    }
}

/// The outcome of `more` further choices from the pool, and the state that
/// they leave: each choice draws the place in the pool of the sector that
/// it moves to the chosen ones.
pub open spec fn choosing(pool: Seq<u32>, chosen: Seq<u32>, more: nat, state: Seq<u8>) -> (
    Seq<u32>,
    Seq<u8>,
)
    decreases more,
{
    if more == 0 {
        (chosen, state)
    } else {
        let drawn = range_drawn(state, 0, pool.len() as u32);
        choosing(
            without(pool, drawn.0 as int),
            chosen.push(pool[drawn.0 as int]),
            (more - 1) as nat,
            drawn.1,
        )
    }
}

/// The real sectors that `choose_real` gives in a state, and the state
/// that it leaves.
pub open spec fn real_chosen(total: u32, wanted: u32, state: Seq<u8>) -> (Seq<u32>, Seq<u8>) {
    if wanted >= total {
        (spec_all_sectors(total as int), state)
    } else {
        choosing(spec_all_sectors(total as int), Seq::empty(), wanted as nat, state)
    }
}

/// Chooses the sectors that hold real rooms: `wanted` of them, drawn
/// without replacement, each sector as likely as any other; all sectors
/// where `wanted` is the number of sectors or more.
pub fn choose_real(total: u32, wanted: u32, dice: &mut Dice) -> (real_ids: Vec<u32>)
    ensures
        real_ids@.no_duplicates(),
        forall|k: int| 0 <= k < real_ids@.len() ==> #[trigger] real_ids@[k] < total,
        wanted < total ==> real_ids@.len() == wanted,
        wanted >= total ==> real_ids@.len() == total,
        wanted >= total ==> real_ids@ == spec_all_sectors(total as int),
        (real_ids@, final(dice)@) == real_chosen(total, wanted, old(dice)@),
{
    let mut pool = all_sectors(total);
    if wanted >= total {
        return pool;
    }
    let mut real_ids: Vec<u32> = Vec::new();
    let mut count: u32 = 0;
    while count < wanted
        invariant
            count <= wanted < total,
            real_ids@.len() == count,
            shared_out(pool@, real_ids@, total as int),
            choosing(pool@, real_ids@, (wanted - count) as nat, dice@) == real_chosen(
                total,
                wanted,
                old(dice)@,
            ),
        decreases wanted - count,
    {
        let pick = dice.index(pool.len());
        proof {
            lemma_choose_sector(pool@, real_ids@, total as int, pick as int);
        }
        choose_sector(&mut pool, &mut real_ids, pick);
        count += 1;
    }
    real_ids
}

} // verus!

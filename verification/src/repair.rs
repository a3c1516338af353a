//! Completing the links: while some real room lies outside the cluster of
//! the spawn sector, one more link is made from the cluster to a sector
//! next to it.

use crate::cluster::{
    cluster_of, get_cluster, is_cluster, lemma_reaches_itself, lemma_reaches_more,
    lemma_reaches_next, reaches, rising, within,
};
use crate::dice::{range_drawn, Dice};
use crate::lattice::{Lattice, MapError};
use crate::links::{
    add_connection, already_has_connection, joins, lemma_with_link, linked, links_wf, with_link,
};
use crate::sectors::{contains, has_all, holds_all};
use vstd::prelude::*;
use vstd::seq_lib::seq_to_set_is_finite;
use vstd::set_lib::lemma_len_subset;

verus! {

/// Whether `edge` could become the next link: it leads from a sector of the
/// cluster to a neighbour outside the cluster, and the two are not linked
/// yet.
pub open spec fn candidate(
    lattice: &Lattice,
    links: Seq<(u32, u32)>,
    cluster: Seq<u32>,
    edge: (u32, u32),
) -> bool {
    &&& cluster.contains(edge.0)
    &&& lattice.adjacent(edge.0 as int, edge.1 as int)
    &&& !cluster.contains(edge.1)
    &&& !linked(links, edge.0 as int, edge.1 as int)
}

/// The list holds every candidate once and nothing else.
pub open spec fn candidates_of(
    edges: Seq<(u32, u32)>,
    lattice: &Lattice,
    links: Seq<(u32, u32)>,
    cluster: Seq<u32>,
) -> bool {
    &&& edges.no_duplicates()
    &&& forall|edge: (u32, u32)|
        #[trigger] edges.contains(edge) <==> candidate(lattice, links, cluster, edge)
}

/// The candidates that lead from sector `id` to the sectors of `near`, in
/// the order of `near`.
pub open spec fn edges_from(
    links: Seq<(u32, u32)>,
    cluster: Seq<u32>,
    id: u32,
    near: Seq<u32>,
) -> Seq<(u32, u32)>
    decreases near.len(),
{
    if near.len() == 0 {
        Seq::empty()
    } else {
        let before = edges_from(links, cluster, id, near.drop_last());
        if !linked(links, id as int, near.last() as int) && !cluster.contains(near.last()) {
            before.push((id, near.last()))
        } else {
            before
        }
    }
}

/// The candidates that lead out of the first `upto` sectors of the
/// cluster: sector by sector, and for each sector in the order of its
/// neighbours.
pub open spec fn edges_upto(
    lattice: &Lattice,
    links: Seq<(u32, u32)>,
    cluster: Seq<u32>,
    upto: int,
) -> Seq<(u32, u32)>
    decreases upto,
{
    if upto <= 0 {
        Seq::empty()
    } else {
        edges_upto(lattice, links, cluster, upto - 1) + edges_from(
            links,
            cluster,
            cluster[upto - 1],
            lattice.spec_neighbours(cluster[upto - 1] as int),
        )
    }
}

/// The candidates that lead out of sector `id`, added to `edges`.
fn candidates_from(
    lattice: &Lattice,
    conn_list: &Vec<(u32, u32)>,
    cluster: &Vec<u32>,
    id: u32,
    edges: &mut Vec<(u32, u32)>,
)
    requires
        lattice.wf(),
        id < lattice.spec_total(),
        cluster@.contains(id),
        old(edges)@.no_duplicates(),
        forall|k: int| 0 <= k < old(edges)@.len() ==> (#[trigger] old(edges)@[k]).0 != id,
    ensures
        final(edges)@.no_duplicates(),
        old(edges)@.is_prefix_of(final(edges)@),
        final(edges)@ == old(edges)@ + edges_from(
            conn_list@,
            cluster@,
            id,
            lattice.spec_neighbours(id as int),
        ),
        final(edges)@.len() <= old(edges)@.len() + 4,
        forall|k: int|
            old(edges)@.len() <= k < final(edges)@.len() ==> (#[trigger] final(edges)@[k]).0 == id,
        forall|edge: (u32, u32)|
            edge.0 == id ==> (#[trigger] final(edges)@.contains(edge) <==> candidate(
                lattice,
                conn_list@,
                cluster@,
                edge,
            )),
{
    let near = lattice.neighbours(id);
    proof {
        lattice.lemma_neighbours(id as int);
    }
    let mut at: usize = 0;
    while at < near.len()
        invariant
            lattice.wf(),
            id < lattice.spec_total(),
            cluster@.contains(id),
            near@ == lattice.spec_neighbours(id as int),
            near@.no_duplicates(),
            forall|b: u32| #[trigger] near@.contains(b) <==> lattice.adjacent(id as int, b as int),
            at <= near.len(),
            near@.len() <= 4,
            edges@.len() <= old(edges)@.len() + at,
            edges@ == old(edges)@ + edges_from(conn_list@, cluster@, id, near@.take(at as int)),
            edges@.no_duplicates(),
            old(edges)@.is_prefix_of(edges@),
            forall|k: int| 0 <= k < old(edges)@.len() ==> (#[trigger] old(edges)@[k]).0 != id,
            forall|k: int| old(edges)@.len() <= k < edges@.len() ==> (#[trigger] edges@[k]).0 == id,
            forall|k: int|
                old(edges)@.len() <= k < edges@.len() ==> exists|j: int|
                    0 <= j < at && near@[j] == (#[trigger] edges@[k]).1,
            forall|j: int|
                0 <= j < at && candidate(lattice, conn_list@, cluster@, (id, #[trigger] near@[j]))
                    ==> edges@.contains((id, near@[j])),
            forall|k: int|
                old(edges)@.len() <= k < edges@.len() ==> candidate(
                    lattice,
                    conn_list@,
                    cluster@,
                    #[trigger] edges@[k],
                ),
        decreases near.len() - at,
    {
        let other = near[at];
        assert(near@.contains(other));
        proof {
            assert(near@.take(at + 1).drop_last() == near@.take(at as int));
        }
        if !already_has_connection(conn_list, id, other) && !contains(cluster, other) {
            let ghost before = edges@;
            edges.push((id, other));
            proof {
                assert(edges@[before.len() as int] == (id, other));
                assert forall|i: int, j: int|
                    0 <= i < edges@.len() && 0 <= j < edges@.len() && i != j implies edges@[i]
                    != edges@[j] by {
                    let (lo, hi) = if i < j {
                        (i, j)
                    } else {
                        (j, i)
                    };
                    if hi == before.len() {
                        if lo < old(edges)@.len() {
                            assert(old(edges)@[lo].0 != id);
                        } else {
                            let j2 = choose|j2: int| 0 <= j2 < at && near@[j2] == before[lo].1;
                            assert(near@[j2] != near@[at as int]);
                        }
                    }
                }
                assert forall|j: int|
                    0 <= j < at + 1
                        && candidate(lattice, conn_list@, cluster@, (id,
                            #[trigger] near@[j])) implies edges@.contains(
                    (id, near@[j]),
                ) by {
                    if j < at {
                        assert(before.contains((id, near@[j])));
                        let k = choose|k: int| 0 <= k < before.len() && before[k] == (id, near@[j]);
                        assert(edges@[k] == (id, near@[j]));
                    }
                }
                assert forall|k: int| old(edges)@.len() <= k < edges@.len() implies exists|j: int|
                    0 <= j < at + 1 && near@[j] == (#[trigger] edges@[k]).1 by {
                    if k < before.len() {
                        let j2 = choose|j2: int| 0 <= j2 < at && near@[j2] == before[k].1;
                        assert(near@[j2] == edges@[k].1);
                    } else {
                        assert(near@[at as int] == edges@[k].1);
                    }
                }
            }
        }
        at += 1;
    }
    proof {
        assert(near@.take(at as int) == near@);
        assert forall|edge: (u32, u32)|
            edge.0 == id implies (#[trigger] edges@.contains(edge) <==> candidate(
            lattice,
            conn_list@,
            cluster@,
            edge,
        )) by {
            if edges@.contains(edge) {
                let k = choose|k: int| 0 <= k < edges@.len() && edges@[k] == edge;
                if k < old(edges)@.len() {
                    assert(old(edges)@[k].0 != id);
                }
            }
            if candidate(lattice, conn_list@, cluster@, edge) {
                assert(near@.contains(edge.1));
                let j = choose|j: int| 0 <= j < near@.len() && near@[j] == edge.1;
                assert(edge == (id, near@[j]));
            }
        }
    }
}

/// The candidates for the next link: from every sector of the cluster, in
/// the order of the cluster, to each of its neighbours that lies outside
/// the cluster and is not linked to it.
pub fn candidates(
    lattice: &Lattice,
    conn_list: &Vec<(u32, u32)>,
    cluster: &Vec<u32>,
) -> (edges: Vec<(u32, u32)>)
    requires
        lattice.wf(),
        rising(cluster@),
        forall|k: int| 0 <= k < cluster@.len() ==> #[trigger] cluster@[k] < lattice.spec_total(),
    ensures
        candidates_of(edges@, lattice, conn_list@, cluster@),
        edges@ == edges_upto(lattice, conn_list@, cluster@, cluster@.len() as int),
        edges@.len() <= 4 * cluster@.len(),
{
    let mut edges: Vec<(u32, u32)> = Vec::new();
    let mut at: usize = 0;
    while at < cluster.len()
        invariant
            lattice.wf(),
            rising(cluster@),
            forall|k: int|
                0 <= k < cluster@.len() ==> #[trigger] cluster@[k] < lattice.spec_total(),
            at <= cluster.len(),
            edges@.len() <= 4 * at,
            edges@ == edges_upto(lattice, conn_list@, cluster@, at as int),
            edges@.no_duplicates(),
            forall|k: int|
                0 <= k < edges@.len() ==> exists|i: int|
                    0 <= i < at && cluster@[i] == (#[trigger] edges@[k]).0,
            forall|edge: (u32, u32), i: int|
                0 <= i < at && edge.0 == #[trigger] cluster@[i]
                    ==> (#[trigger] edges@.contains(edge) <==> candidate(
                    lattice,
                    conn_list@,
                    cluster@,
                    edge,
                )),
        decreases cluster.len() - at,
    {
        let id = cluster[at];
        let ghost before = edges@;
        proof {
            assert(cluster@.contains(id));
            assert forall|k: int| 0 <= k < before.len() implies (#[trigger] before[k]).0 != id by {
                let i = choose|i: int| 0 <= i < at && cluster@[i] == before[k].0;
                assert(cluster@[i] < cluster@[at as int]);
            }
        }
        candidates_from(lattice, conn_list, cluster, id, &mut edges);
        proof {
            assert forall|k: int| 0 <= k < edges@.len() implies exists|i: int|
                0 <= i < at + 1 && cluster@[i] == (#[trigger] edges@[k]).0 by {
                if k < before.len() {
                    let i = choose|i: int| 0 <= i < at && cluster@[i] == before[k].0;
                    assert(edges@[k] == before[k]);
                    assert(cluster@[i] == edges@[k].0);
                } else {
                    assert(cluster@[at as int] == edges@[k].0);
                }
            }
            assert forall|edge: (u32, u32), i: int|
                0 <= i < at + 1 && edge.0 == #[trigger] cluster@[i]
                    implies (#[trigger] edges@.contains(edge) <==> candidate(
                lattice,
                conn_list@,
                cluster@,
                edge,
            )) by {
                if i < at {
                    assert(cluster@[i] < cluster@[at as int]);
                    if edges@.contains(edge) {
                        let k = choose|k: int| 0 <= k < edges@.len() && edges@[k] == edge;
                        if k >= before.len() {
                            assert(edges@[k].0 == id);
                        } else {
                            assert(before[k] == edge);
                            assert(before.contains(edge));
                        }
                    }
                    if before.contains(edge) {
                        let k = choose|k: int| 0 <= k < before.len() && before[k] == edge;
                        assert(edges@[k] == edge);
                    }
                }
            }
        }
        at += 1;
    }
    proof {
        assert forall|edge: (u32, u32)|
            #[trigger] edges@.contains(edge)
                <==> candidate(lattice, conn_list@, cluster@, edge) by {
            if edges@.contains(edge) {
                let k = choose|k: int| 0 <= k < edges@.len() && edges@[k] == edge;
                let i = choose|i: int| 0 <= i < at && cluster@[i] == edges@[k].0;
                assert(edge.0 == cluster@[i]);
            }
            if candidate(lattice, conn_list@, cluster@, edge) {
                let i = choose|i: int| 0 <= i < cluster@.len() && cluster@[i] == edge.0;
                assert(edge.0 == cluster@[i]);
            }
        }
    }
    edges
}

/// Without a candidate the cluster holds every sector of the lattice.
pub proof fn lemma_no_candidate(
    lattice: &Lattice,
    links: Seq<(u32, u32)>,
    cluster: Seq<u32>,
    start: u32,
)
    requires
        lattice.wf(),
        start < lattice.spec_total(),
        is_cluster(cluster, links, start),
        forall|edge: (u32, u32)| !candidate(lattice, links, cluster, edge),
    ensures
        forall|id: u32| id < lattice.spec_total() ==> cluster.contains(id),
{
    let inside = Set::new(|id: int| 0 <= id < lattice.spec_total() && cluster.contains(id as u32));
    lemma_reaches_itself(links, start as int);
    assert(cluster.contains(start));
    assert forall|a: int, b: int|
        inside.contains(a) && lattice.adjacent(a, b) implies inside.contains(b) by {
        lattice.lemma_adjacent(a, b);
        let edge = (a as u32, b as u32);
        assert(!candidate(lattice, links, cluster, edge));
        if linked(links, a, b) {
            lemma_reaches_next(links, start as int, a, b);
        }
    }
    assert forall|id: u32| id < lattice.spec_total() implies cluster.contains(id) by {
        lattice.lemma_spread(inside, start as int, id as int);
        assert(inside.contains(id as int));
    }
}

/// A list without repeats that holds all of another such list and one item
/// more is the longer of the two.
pub proof fn lemma_longer(small: Seq<u32>, big: Seq<u32>, extra: u32)
    requires
        small.no_duplicates(),
        big.no_duplicates(),
        forall|id: u32| small.contains(id) ==> big.contains(id),
        big.contains(extra),
        !small.contains(extra),
    ensures
        small.len() < big.len(),
{
    small.unique_seq_to_set();
    big.unique_seq_to_set();
    seq_to_set_is_finite(small);
    seq_to_set_is_finite(big);
    let less = big.to_set().remove(extra);
    assert(small.to_set().subset_of(less));
    lemma_len_subset(small.to_set(), less);
}

/// A rising list of numbers below `total` has no repeats and at most
/// `total` items.
pub proof fn lemma_rising(list: Seq<u32>, total: int)
    requires
        0 <= total,
        rising(list),
        forall|k: int| 0 <= k < list.len() ==> #[trigger] list[k] < total,
    ensures
        list.no_duplicates(),
        list.len() <= total,
    decreases list.len(),
{
    if list.len() > 0 {
        let shorter = list.drop_last();
        let top = list.last();
        assert forall|k: int| 0 <= k < shorter.len() implies #[trigger] shorter[k] < top by {
            assert(list[k] < list[list.len() - 1]);
        }
        assert forall|i: int, j: int|
            0 <= i < j < shorter.len() implies shorter[i] < shorter[j] by {
            assert(list[i] < list[j]);
        }
        lemma_rising(shorter, top as int);
    }
    assert forall|i: int, j: int|
        0 <= i < list.len() && 0 <= j < list.len() && i != j implies list[i]
        != list[j] by {
        if i < j {
            assert(list[i] < list[j]);
        } else {
            assert(list[j] < list[i]);
        }
    }
}

/// The cluster that `repair` gives in a state, or `None` where it fails,
/// with the links and the state that it leaves. While the cluster lacks a
/// sector of `real_ids`, the place of the next link among the candidates
/// is drawn.
pub open spec fn repaired(
    lattice: &Lattice,
    links: Seq<(u32, u32)>,
    start: u32,
    real_ids: Seq<u32>,
    state: Seq<u8>,
) -> (Option<Seq<u32>>, Seq<(u32, u32)>, Seq<u8>)
    decreases lattice.spec_total() - cluster_of(links, start).len(),
{
    let cluster = cluster_of(links, start);
    let edges = edges_upto(lattice, links, cluster, cluster.len() as int);
    let drawn = range_drawn(state, 0, edges.len() as u32);
    let more = with_link(links, edges[drawn.0 as int].0, edges[drawn.0 as int].1);
    if holds_all(cluster, real_ids) {
        (Some(cluster), links, state)
    } else if edges.len() > 0 && cluster.len() < cluster_of(more, start).len()
        <= lattice.spec_total() {
        repaired(lattice, more, start, real_ids, drawn.1)
    } else {
        (None, links, state)
    }
}

/// The cluster of an outcome of `repair`, if it has one.
pub open spec fn cluster_in(outcome: Result<Vec<u32>, MapError>) -> Option<Seq<u32>> {
    match outcome {
        Ok(cluster) => Some(cluster@),
        Err(_) => None,
    }
}

/// Completes the links until the cluster of `start` holds every sector of
/// `real_ids`, and gives that cluster. Each further link leads from the
/// cluster to a neighbouring sector outside it, drawn among all such pairs
/// that are not linked yet.
///
/// This fails where `real_ids` names a sector that the lattice does not
/// have: such a sector stays out of reach when no link is left to add.
pub fn repair(
    lattice: &Lattice,
    conn_list: &mut Vec<(u32, u32)>,
    start: u32,
    real_ids: &Vec<u32>,
    dice: &mut Dice,
) -> (outcome: Result<Vec<u32>, MapError>)
    requires
        lattice.wf(),
        start < lattice.spec_total(),
        links_wf(old(conn_list)@, lattice),
    ensures
        links_wf(final(conn_list)@, lattice),
        old(conn_list)@.is_prefix_of(final(conn_list)@),
        outcome is Err <==> exists|k: int|
            0 <= k < real_ids@.len() && real_ids@[k] >= lattice.spec_total(),
        outcome is Err ==> outcome == Err::<Vec<u32>, MapError>(MapError::GenerationError),
        outcome matches Ok(cluster) ==> is_cluster(cluster@, final(conn_list)@, start),
        outcome matches Ok(cluster) ==> forall|k: int|
            0 <= k < cluster@.len() ==> #[trigger] cluster@[k] < lattice.spec_total(),
        outcome matches Ok(cluster) ==> forall|k: int|
            0 <= k < real_ids@.len() ==> cluster@.contains(#[trigger] real_ids@[k]),
        (forall|k: int|
            0 <= k < real_ids@.len()
                ==> reaches(old(conn_list)@, start as int, #[trigger] real_ids@[k] as int))
            ==> final(conn_list)@ == old(conn_list)@,
        (cluster_in(outcome), final(conn_list)@, final(dice)@) == repaired(
            lattice,
            old(conn_list)@,
            start,
            real_ids@,
            old(dice)@,
        ),
{
    let total = lattice.total();
    proof {
        lemma_links_within(conn_list@, lattice);
    }
    let mut cluster = get_cluster(conn_list, start, total);
    proof {
        lemma_rising(cluster@, total as int);
    }
    while !has_all(&cluster, real_ids)
        invariant
            lattice.wf(),
            total == lattice.spec_total(),
            start < total,
            links_wf(conn_list@, lattice),
            within(conn_list@, total as int),
            old(conn_list)@.is_prefix_of(conn_list@),
            is_cluster(cluster@, conn_list@, start),
            forall|k: int| 0 <= k < cluster@.len() ==> #[trigger] cluster@[k] < total,
            cluster@.len() <= total,
            (forall|k: int|
                0 <= k < real_ids@.len()
                    ==> reaches(old(conn_list)@, start as int, #[trigger] real_ids@[k] as int))
                ==> conn_list@ == old(conn_list)@,
            cluster@ == cluster_of(conn_list@, start),
            repaired(lattice, conn_list@, start, real_ids@, dice@) == repaired(
                lattice,
                old(conn_list)@,
                start,
                real_ids@,
                old(dice)@,
            ),
        decreases total - cluster@.len(),
    {
        let edges = candidates(lattice, conn_list, &cluster);
        if edges.len() == 0 {
            proof {
                assert forall|edge: (u32, u32)| !candidate(lattice, conn_list@, cluster@, edge) by {
                    assert(!edges@.contains(edge));
                }
                lemma_no_candidate(lattice, conn_list@, cluster@, start);
                let k = choose|k: int|
                    0 <= k < real_ids@.len() && !cluster@.contains(#[trigger] real_ids@[k]);
                assert(real_ids@[k] >= total);
            }
            return Err(MapError::GenerationError);
        }
        let pick = dice.index(edges.len());
        let (id1, id2) = edges[pick];
        let ghost before = conn_list@;
        let ghost smaller = cluster@;
        proof {
            assert(edges@.contains(edges@[pick as int]));
            assert(candidate(lattice, before, smaller, (id1, id2)));
            lemma_with_link(before, lattice, id1, id2);
            lattice.lemma_adjacent(id1 as int, id2 as int);
        }
        add_connection(conn_list, id1, id2);
        proof {
            lemma_links_within(conn_list@, lattice);
        }
        cluster = get_cluster(conn_list, start, total);
        proof {
            lemma_rising(smaller, total as int);
            lemma_rising(cluster@, total as int);
            assert forall|id: u32| smaller.contains(id) implies cluster@.contains(id) by {
                lemma_reaches_more(before, conn_list@, start as int, id as int);
            }
            lemma_reaches_more(before, conn_list@, start as int, id1 as int);
            lemma_reaches_next(conn_list@, start as int, id1 as int, id2 as int);
            lemma_longer(smaller, cluster@, id2);
            let k = choose|k: int|
                0 <= k < real_ids@.len() && !smaller.contains(#[trigger] real_ids@[k]);
            assert(!reaches(old(conn_list)@, start as int, real_ids@[k] as int)) by {
                if reaches(old(conn_list)@, start as int, real_ids@[k] as int) {
                    assert forall|a: int, b: int|
                        linked(old(conn_list)@, a, b) implies linked(before, a, b) by {
                        let j = choose|j: int|
                            0 <= j < old(conn_list)@.len()
                                && joins(#[trigger] old(conn_list)@[j], a, b);
                        assert(before[j] == old(conn_list)@[j]);
                    }
                    lemma_reaches_more(old(conn_list)@, before, start as int, real_ids@[k] as int);
                }
            }
        }
    }
    proof {
        assert forall|k: int| 0 <= k < real_ids@.len() implies real_ids@[k] < total by {
            assert(cluster@.contains(real_ids@[k]));
            let j = choose|j: int| 0 <= j < cluster@.len() && cluster@[j] == real_ids@[k];
        }
    }
    Ok(cluster)
}

/// The links of a lattice join sectors of that lattice.
pub proof fn lemma_links_within(links: Seq<(u32, u32)>, lattice: &Lattice)
    requires
        lattice.wf(),
        links_wf(links, lattice),
    ensures
        within(links, lattice.spec_total()),
{
    assert forall|k: int|
        0 <= k < links.len() implies (#[trigger] links[k]).0 < lattice.spec_total()
        && links[k].1 < lattice.spec_total() by {
        lattice.lemma_adjacent(links[k].0 as int, links[k].1 as int);
    }
}

} // verus!

//! The cluster: the sectors that can be reached from the spawn sector over
//! the links.

use crate::links::{joins, linked};
use vstd::prelude::*;

verus! {

/// A chain of sectors: each one linked to the next.
pub open spec fn chain(links: Seq<(u32, u32)>, path: Seq<int>) -> bool {
    &&& path.len() > 0
    &&& forall|k: int| 0 <= k < path.len() - 1 ==> linked(links, #[trigger] path[k], path[k + 1])
}

/// Whether a chain of linked sectors leads from `from` to `to`.
pub open spec fn reaches(links: Seq<(u32, u32)>, from: int, to: int) -> bool {
    exists|path: Seq<int>| chain(links, path) && path.first() == from && path.last() == to
}

/// Whether the numbers of the list rise from each item to the next.
pub open spec fn rising(list: Seq<u32>) -> bool {
    forall|i: int, j: int| 0 <= i < j < list.len() ==> list[i] < list[j]
}

/// The list is the cluster of `start`: the sectors that `start` reaches over
/// the links, each once, in rising order.
pub open spec fn is_cluster(cluster: Seq<u32>, links: Seq<(u32, u32)>, start: u32) -> bool {
    &&& rising(cluster)
    &&& forall|id: u32| #[trigger] cluster.contains(id) <==> reaches(links, start as int, id as int)
}

/// The cluster of `start` over the links.
pub open spec fn cluster_of(links: Seq<(u32, u32)>, start: u32) -> Seq<u32> {
    choose|cluster: Seq<u32>| is_cluster(cluster, links, start)
}

/// Two rising lists that hold the same numbers are the same list.
pub proof fn lemma_rising_same(a: Seq<u32>, b: Seq<u32>)
    requires
        rising(a),
        rising(b),
        forall|id: u32| a.contains(id) <==> b.contains(id),
    ensures
        a == b,
    decreases a.len(),
{
    if a.len() == 0 {
        if b.len() > 0 {
            assert(b.contains(b[0]));
        }
        assert(a =~= b);
    } else {
        let top = a.last();
        assert(a.contains(top));
        assert(b.contains(top));
        let at = choose|at: int| 0 <= at < b.len() && b[at] == top;
        assert(b.contains(b.last()));
        assert(a.contains(b.last()));
        let back = choose|back: int| 0 <= back < a.len() && a[back] == b.last();
        assert(b.last() == top) by {
            if back < a.len() - 1 {
                assert(a[back] < a[a.len() - 1]);
            }
            if at < b.len() - 1 {
                assert(b[at] < b[b.len() - 1]);
            }
        }
        let a0 = a.drop_last();
        let b0 = b.drop_last();
        assert forall|id: u32| a0.contains(id) <==> b0.contains(id) by {
            if a0.contains(id) {
                let k = choose|k: int| 0 <= k < a0.len() && a0[k] == id;
                assert(a[k] < a[a.len() - 1]);
                assert(a.contains(id));
                assert(b.contains(id));
                let j = choose|j: int| 0 <= j < b.len() && b[j] == id;
                assert(b0[j] == id);
            }
            if b0.contains(id) {
                let k = choose|k: int| 0 <= k < b0.len() && b0[k] == id;
                assert(b[k] < b[b.len() - 1]);
                assert(b.contains(id));
                assert(a.contains(id));
                let j = choose|j: int| 0 <= j < a.len() && a[j] == id;
                assert(a0[j] == id);
            }
        }
        assert(rising(a0)) by {
            assert forall|i: int, j: int| 0 <= i < j < a0.len() implies a0[i] < a0[j] by {
                assert(a[i] < a[j]);
            }
        }
        assert(rising(b0)) by {
            assert forall|i: int, j: int| 0 <= i < j < b0.len() implies b0[i] < b0[j] by {
                assert(b[i] < b[j]);
            }
        }
        lemma_rising_same(a0, b0);
        assert(a =~= a0.push(top));
        assert(b =~= b0.push(top));
    }
}

/// A list that is the cluster of `start` is the one cluster of `start`.
pub proof fn lemma_cluster_of(cluster: Seq<u32>, links: Seq<(u32, u32)>, start: u32)
    requires
        is_cluster(cluster, links, start),
    ensures
        cluster == cluster_of(links, start),
{
    lemma_rising_same(cluster, cluster_of(links, start));
}

/// Every sector reaches itself.
pub proof fn lemma_reaches_itself(links: Seq<(u32, u32)>, id: int)
    ensures
        reaches(links, id, id),
{
    let path = seq![id];
    assert(chain(links, path) && path.first() == id && path.last() == id);
}

/// A chain can be made longer by a link at its end.
pub proof fn lemma_reaches_next(links: Seq<(u32, u32)>, from: int, via: int, to: int)
    requires
        reaches(links, from, via),
        linked(links, via, to),
    ensures
        reaches(links, from, to),
{
    let path = choose|path: Seq<int>|
        chain(links, path) && path.first() == from && path.last() == via;
    let longer = path.push(to);
    assert forall|k: int|
        0 <= k < longer.len() - 1 implies linked(links, #[trigger] longer[k], longer[k + 1]) by {
        if k < path.len() - 1 {
            assert(linked(links, path[k], path[k + 1]));
        }
    }
    assert(chain(links, longer) && longer.first() == from && longer.last() == to);
}

/// What is reached over some links is reached over more links.
pub proof fn lemma_reaches_more(links: Seq<(u32, u32)>, more: Seq<(u32, u32)>, from: int, to: int)
    requires
        reaches(links, from, to),
        forall|a: int, b: int| linked(links, a, b) ==> linked(more, a, b),
    ensures
        reaches(more, from, to),
{
    let path = choose|path: Seq<int>|
        chain(links, path) && path.first() == from && path.last() == to;
    assert forall|k: int|
        0 <= k < path.len() - 1 implies linked(more, #[trigger] path[k], path[k + 1]) by {
        assert(linked(links, path[k], path[k + 1]));
    }
    assert(chain(more, path));
}

/// A set of sectors that holds, with each sector, all that are linked to
/// it, holds everything that its sectors reach.
pub proof fn lemma_closed(links: Seq<(u32, u32)>, inside: Set<int>, path: Seq<int>)
    requires
        chain(links, path),
        inside.contains(path.first()),
        forall|a: int, b: int| inside.contains(a) && linked(links, a, b) ==> inside.contains(b),
    ensures
        inside.contains(path.last()),
    decreases path.len(),
{
    if path.len() > 1 {
        let shorter = path.drop_last();
        assert forall|k: int|
            0 <= k < shorter.len() - 1
                implies linked(links, #[trigger] shorter[k], shorter[k + 1]) by {
            assert(linked(links, path[k], path[k + 1]));
        }
        lemma_closed(links, inside, shorter);
        assert(linked(links, path[path.len() - 2], path[path.len() - 1]));
    }
}

/// How many of the flags are set.
pub open spec fn count_set(flags: Seq<bool>) -> nat
    decreases flags.len(),
{
    if flags.len() == 0 {
        0
    } else {
        count_set(flags.drop_last()) + if flags.last() {
            1nat
        } else {
            0nat
        }
    }
}

/// Setting a flag that was not set raises the count by one, and the count
/// never exceeds the number of flags.
pub proof fn lemma_count_set(flags: Seq<bool>, at: int)
    requires
        0 <= at < flags.len(),
        !flags[at],
    ensures
        count_set(flags.update(at, true)) == count_set(flags) + 1,
        count_set(flags) < flags.len(),
    decreases flags.len(),
{
    let last = flags.len() - 1;
    if at == last {
        assert(flags.update(at, true).drop_last() == flags.drop_last());
        lemma_count_bound(flags.drop_last());
    } else {
        assert(flags.update(at, true).drop_last() == flags.drop_last().update(at, true));
        lemma_count_set(flags.drop_last(), at);
    }
}

/// The count never exceeds the number of flags.
pub proof fn lemma_count_bound(flags: Seq<bool>)
    ensures
        count_set(flags) <= flags.len(),
    decreases flags.len(),
{
    if flags.len() > 0 {
        lemma_count_bound(flags.drop_last());
    }
}

/// Every link joins two sectors of a lattice of `total` sectors.
pub open spec fn within(links: Seq<(u32, u32)>, total: int) -> bool {
    forall|k: int| 0 <= k < links.len() ==> (#[trigger] links[k]).0 < total && links[k].1 < total
}

/// Every marked sector is one that `start` reaches.
spec fn sound(flags: Seq<bool>, links: Seq<(u32, u32)>, start: int) -> bool {
    forall|id: int| 0 <= id < flags.len() && #[trigger] flags[id] ==> reaches(links, start, id)
}

/// The first `upto` links have both ends marked or neither.
spec fn settled(flags: Seq<bool>, links: Seq<(u32, u32)>, upto: int) -> bool {
    forall|k: int|
        0 <= k < upto ==> flags[(#[trigger] links[k]).0 as int] == flags[links[k].1 as int]
}

/// Marks the sector `id`, which the marked sector `from` is linked to.
fn mark(
    flags: &mut Vec<bool>,
    Ghost(links): Ghost<Seq<(u32, u32)>>,
    Ghost(start): Ghost<int>,
    from: u32,
    id: u32,
)
    requires
        from < old(flags)@.len(),
        id < old(flags)@.len(),
        old(flags)@[from as int],
        !old(flags)@[id as int],
        linked(links, from as int, id as int),
        sound(old(flags)@, links, start),
    ensures
        final(flags)@ == old(flags)@.update(id as int, true),
        sound(final(flags)@, links, start),
        count_set(final(flags)@) == count_set(old(flags)@) + 1,
        count_set(final(flags)@) <= final(flags)@.len(),
{
    proof {
        lemma_count_set(flags@, id as int);
        lemma_reaches_next(links, start, from as int, id as int);
    }
    flags.set(id as usize, true);
    proof {
        lemma_count_bound(flags@);
    }
}

/// One pass over the links: each link with one marked end marks its other
/// end. Says whether anything was marked.
fn mark_pass(
    conn_list: &Vec<(u32, u32)>,
    flags: &mut Vec<bool>,
    Ghost(start): Ghost<int>,
) -> (grew: bool)
    requires
        within(conn_list@, old(flags)@.len() as int),
        sound(old(flags)@, conn_list@, start),
    ensures
        final(flags)@.len() == old(flags)@.len(),
        sound(final(flags)@, conn_list@, start),
        forall|id: int| 0 <= id < old(flags)@.len() && old(flags)@[id] ==> final(flags)@[id],
        !grew ==> final(flags)@ == old(flags)@
            && settled(final(flags)@, conn_list@, conn_list@.len() as int),
        grew ==> count_set(final(flags)@) > count_set(old(flags)@),
        count_set(final(flags)@) <= final(flags)@.len(),
{
    let mut grew = false;
    let mut at: usize = 0;
    proof {
        lemma_count_bound(flags@);
    }
    while at < conn_list.len()
        invariant
            within(conn_list@, flags@.len() as int),
            flags@.len() == old(flags)@.len(),
            sound(flags@, conn_list@, start),
            forall|id: int| 0 <= id < old(flags)@.len() && old(flags)@[id] ==> flags@[id],
            at <= conn_list.len(),
            !grew ==> flags@ == old(flags)@ && settled(flags@, conn_list@, at as int),
            grew ==> count_set(flags@) > count_set(old(flags)@),
            count_set(flags@) <= flags@.len(),
        decreases conn_list.len() - at,
    {
        let (id1, id2) = conn_list[at];
        let has_id1 = flags[id1 as usize];
        let has_id2 = flags[id2 as usize];
        proof {
            assert(joins(conn_list@[at as int], id1 as int, id2 as int));
            assert(joins(conn_list@[at as int], id2 as int, id1 as int));
        }
        if has_id2 && !has_id1 {
            mark(flags, Ghost(conn_list@), Ghost(start), id2, id1);
            grew = true;
        } else if has_id1 && !has_id2 {
            mark(flags, Ghost(conn_list@), Ghost(start), id1, id2);
            grew = true;
        }
        at += 1;
    }
    grew
}

/// Flags for `total` sectors, of which `start` alone is marked.
fn mark_start(Ghost(links): Ghost<Seq<(u32, u32)>>, start: u32, total: u32) -> (flags: Vec<bool>)
    requires
        start < total,
    ensures
        flags@.len() == total,
        flags@[start as int],
        sound(flags@, links, start as int),
        count_set(flags@) <= total,
{
    let mut flags: Vec<bool> = Vec::new();
    let mut id: u32 = 0;
    while id < total
        invariant
            id <= total,
            flags@.len() == id,
            forall|k: int| 0 <= k < id ==> !#[trigger] flags@[k],
        decreases total - id,
    {
        flags.push(false);
        id += 1;
    }
    flags.set(start as usize, true);
    proof {
        lemma_reaches_itself(links, start as int);
        lemma_count_bound(flags@);
    }
    flags
}

/// Marks all that `start` reaches over the links: in pass after pass over
/// the list, each link with one marked end marks its other end, until a
/// pass marks nothing.
fn mark_cluster(conn_list: &Vec<(u32, u32)>, start: u32, total: u32) -> (flags: Vec<bool>)
    requires
        start < total,
        within(conn_list@, total as int),
    ensures
        flags@.len() == total,
        forall|id: int|
            0 <= id < total && #[trigger] flags@[id] ==> reaches(conn_list@, start as int, id),
        forall|id: int|
            #[trigger] reaches(conn_list@, start as int, id) ==> 0 <= id < total && flags@[id],
{
    let mut flags = mark_start(Ghost(conn_list@), start, total);
    let mut grew = true;
    while grew
        invariant
            start < total,
            within(conn_list@, total as int),
            flags@.len() == total,
            flags@[start as int],
            sound(flags@, conn_list@, start as int),
            !grew ==> settled(flags@, conn_list@, conn_list@.len() as int),
            count_set(flags@) <= total,
        decreases 2 * (total - count_set(flags@)) + if grew { 1int } else { 0int },
    {
        grew = mark_pass(conn_list, &mut flags, Ghost(start as int));
    }
    proof {
        lemma_settled(flags@, conn_list@, start as int);
    }
    flags
}

/// Marks that no link leads out of hold all that `start` reaches.
proof fn lemma_settled(flags: Seq<bool>, links: Seq<(u32, u32)>, start: int)
    requires
        0 <= start < flags.len(),
        flags[start],
        within(links, flags.len() as int),
        settled(flags, links, links.len() as int),
    ensures
        forall|id: int| #[trigger] reaches(links, start, id) ==> 0 <= id < flags.len() && flags[id],
{
    let inside = Set::new(|id: int| 0 <= id < flags.len() && flags[id]);
    assert forall|a: int, b: int|
        inside.contains(a) && linked(links, a, b) implies inside.contains(b) by {
        let k = choose|k: int| 0 <= k < links.len() && joins(#[trigger] links[k], a, b);
        assert(flags[links[k].0 as int] == flags[links[k].1 as int]);
    }
    assert forall|id: int| #[trigger] reaches(links, start, id) implies 0 <= id < flags.len()
        && flags[id] by {
        let path = choose|path: Seq<int>|
            chain(links, path) && path.first() == start && path.last() == id;
        lemma_closed(links, inside, path);
    }
}

/// The cluster of `start`: the sectors that `start` reaches over the links
/// of the list, in rising order. The sectors are those of a lattice of
/// `total` sectors.
pub fn get_cluster(conn_list: &Vec<(u32, u32)>, start: u32, total: u32) -> (cluster: Vec<u32>)
    requires
        start < total,
        within(conn_list@, total as int),
    ensures
        is_cluster(cluster@, conn_list@, start),
        cluster@ == cluster_of(conn_list@, start),
        forall|k: int| 0 <= k < cluster@.len() ==> #[trigger] cluster@[k] < total,
{
    let flags = mark_cluster(conn_list, start, total);
    let mut cluster: Vec<u32> = Vec::new();
    let mut id: u32 = 0;
    while id < total
        invariant
            id <= total,
            flags@.len() == total,
            rising(cluster@),
            forall|k: int| 0 <= k < cluster@.len() ==> #[trigger] cluster@[k] < id,
            forall|x: u32| #[trigger] cluster@.contains(x) <==> x < id && flags@[x as int],
        decreases total - id,
    {
        if flags[id as usize] {
            let ghost before = cluster@;
            cluster.push(id);
            proof {
                assert(cluster@[before.len() as int] == id);
                assert forall|x: u32|
                    #[trigger] cluster@.contains(x) <==> x < id + 1 && flags@[x as int] by {
                    if cluster@.contains(x) {
                        let k = choose|k: int| 0 <= k < cluster@.len() && cluster@[k] == x;
                        if k < before.len() {
                            assert(before[k] == x);
                            assert(before.contains(x));
                        }
                    }
                    if x < id && flags@[x as int] {
                        assert(before.contains(x));
                        let k = choose|k: int| 0 <= k < before.len() && before[k] == x;
                        assert(cluster@[k] == x);
                    }
                }
            }
        }
        id += 1;
    }
    proof {
        lemma_cluster_of(cluster@, conn_list@, start);
    }
    cluster
}

} // verus!

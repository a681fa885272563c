//! Topological orders that resolve every free choice by a fixed order of the points.

use vstd::prelude::*;

use crate::ordered::{Key, KeyOrder, OrderedMap, OrderedSet};
use crate::relation::{acyclic, lemma_acyclic_source};
use crate::scc::graph_edges;

verus! {

/// Whether `x` can come next once `done` have come: all that must precede it is done.
pub open spec fn is_ready<K>(edges: Set<(K, K)>, points: Set<K>, done: Set<K>, x: K) -> bool {
    &&& points.contains(x)
    &&& !done.contains(x)
    &&& forall|y: K| points.contains(y) && #[trigger] edges.contains((y, x)) ==> done.contains(y)
}

/// Whether `order` lists the points once each, every point after all that must precede it, and at
/// each place the point that stands before all others that could come there.
pub open spec fn is_key_order<K>(
    edges: Set<(K, K)>,
    points: Set<K>,
    stands_before: spec_fn(K, K) -> bool,
    order: Seq<K>,
) -> bool {
    &&& order.no_duplicates()
    &&& order.to_set() == points
    &&& forall|i: int|
        0 <= i < order.len() ==> is_ready(
            edges,
            points,
            order.take(i).to_set(),
            #[trigger] order[i],
        )
    &&& forall|i: int, x: K|
        0 <= i < order.len() && #[trigger] is_ready(edges, points, order.take(i).to_set(), x) && x
            != order[i] ==> stands_before(order[i], x)
}

/// The edges that start at one of the points.
pub open spec fn edges_within<K>(edges: Set<(K, K)>, points: Set<K>) -> Set<(K, K)> {
    edges.filter(|e: (K, K)| points.contains(e.0))
}

/// The order by rank, and by the points themselves where the ranks agree.
pub open spec fn rank_order<K: Key>(rank: Map<K, usize>) -> spec_fn(K, K) -> bool {
    |x: K, y: K| rank[x] < rank[y] || (rank[x] == rank[y] && x.ord() < y.ord())
}

/// The points among `from` with an edge to `x`.
spec fn sources<K>(edges: Set<(K, K)>, from: Set<K>, x: K) -> Set<K> {
    from.filter(|y: K| edges.contains((y, x)))
}

proof fn lemma_sources_insert<K>(edges: Set<(K, K)>, from: Set<K>, y: K, x: K)
    requires
        from.finite(),
        !from.contains(y),
    ensures
        sources(edges, from.insert(y), x).len() == sources(edges, from, x).len() + if edges.contains(
            (y, x),
        ) {
            1int
        } else {
            0int
        },
        sources(edges, from, x).len() <= from.len(),
{
    broadcast use vstd::set_lib::group_set_lib_default;

    from.lemma_len_filter(|z: K| edges.contains((z, x)));
    assert(sources(edges, from, x).finite());
    if edges.contains((y, x)) {
        assert(sources(edges, from.insert(y), x) =~= sources(edges, from, x).insert(y));
    } else {
        assert(sources(edges, from.insert(y), x) =~= sources(edges, from, x));
    }
}

/// A prefix one longer holds one more item.
pub proof fn lemma_take_next<K>(s: Seq<K>, i: int)
    requires
        0 <= i < s.len(),
    ensures
        s.take(i + 1) == s.take(i).push(s[i]),
        s.take(i + 1).to_set() == s.take(i).to_set().insert(s[i]),
        s.no_duplicates() ==> !s.take(i).to_set().contains(s[i]),
{
    assert(s.take(i + 1) =~= s.take(i).push(s[i]));
    assert forall|x: K| s.take(i + 1).to_set().contains(x) <==> s.take(i).to_set().insert(
        s[i],
    ).contains(x) by {
        if s.take(i).contains(x) {
            assert(s.take(i + 1)[s.take(i).index_of(x)] == x);
        }
        assert(s.take(i + 1)[i] == s[i]);
        if s.take(i + 1).contains(x) {
            let j = s.take(i + 1).index_of(x);
            if j < i {
                assert(s.take(i)[j] == x);
            }
        }
    }
    assert(s.take(i + 1).to_set() =~= s.take(i).to_set().insert(s[i]));
    if s.no_duplicates() && s.take(i).contains(s[i]) {
        let j = s.take(i).index_of(s[i]);
        assert(s[j] == s[i]);
    }
}

/// The number of edges that enter each member from a member.
fn count_incoming<K: Key>(members: &[K], outgoing: &OrderedMap<K, OrderedSet<K>>) -> (indegree:
    OrderedMap<K, usize>)
    requires
        members@.no_duplicates(),
        members@.to_set().subset_of(outgoing@.dom()),
        forall|x: K, y: K|
            members@.contains(x) && #[trigger] graph_edges(outgoing@).contains((x, y))
                ==> members@.contains(y),
    ensures
        indegree@.dom() == members@.to_set(),
        forall|x: K|
            members@.contains(x) ==> #[trigger] indegree@[x] == sources(
                graph_edges(outgoing@),
                members@.to_set(),
                x,
            ).len(),
{
    let ghost edges = graph_edges(outgoing@);
    let mut indegree: OrderedMap<K, usize> = OrderedMap::new();
    let size = members.len();
    let mut i: usize = 0;
    while i < members.len()
        invariant
            i <= members@.len(),
            indegree@.dom() == members@.take(i as int).to_set(),
            forall|x: K| indegree@.contains_key(x) ==> #[trigger] indegree@[x] == 0,
        decreases members.len() - i,
    {
        let _ = indegree.insert(members[i], 0);
        proof {
            lemma_take_next(members@, i as int);
            assert(indegree@.dom() =~= members@.take(i + 1).to_set());
        }
        i = i + 1;
    }
    assert(members@.take(members@.len() as int) =~= members@);
    i = 0;
    proof {
        assert(members@.take(0).to_set() =~= Set::<K>::empty());
        assert forall|x: K| members@.contains(x) implies #[trigger] indegree@[x] == sources(
            edges,
            members@.take(0).to_set(),
            x,
        ).len() by {
            assert(indegree@.dom().contains(x));
            assert(sources(edges, members@.take(0).to_set(), x) =~= Set::<K>::empty());
        }
    }
    while i < size
        invariant
            i <= size,
            size == members@.len(),
            members@.no_duplicates(),
            members@.to_set().subset_of(outgoing@.dom()),
            edges == graph_edges(outgoing@),
            forall|x: K, y: K|
                members@.contains(x) && #[trigger] edges.contains((x, y)) ==> members@.contains(y),
            indegree@.dom() == members@.to_set(),
            forall|x: K|
                members@.contains(x) ==> #[trigger] indegree@[x] == sources(
                    edges,
                    members@.take(i as int).to_set(),
                    x,
                ).len(),
        decreases size - i,
    {
        let member = members[i];
        let ghost from = members@.take(i as int).to_set();
        proof {
            assert(members@[i as int] == member);
            assert(members@.to_set().contains(member));
            assert(outgoing@.dom().contains(member));
        }
        let successors = outgoing.get(&member).expect("vertex must have outgoing entry");
        let degree = successors.len();
        let mut j: usize = 0;
        while j < degree
            invariant
                j <= degree,
                i < size,
                size == members@.len(),
                degree == successors.member_seq().len(),
                successors.member_seq().no_duplicates(),
                edges == graph_edges(outgoing@),
                outgoing@.contains_key(member),
                outgoing@[member] == *successors,
                members@.contains(member),
                from == members@.take(i as int).to_set(),
                forall|x: K, y: K|
                    members@.contains(x) && #[trigger] edges.contains((x, y)) ==> members@.contains(y),
                indegree@.dom() == members@.to_set(),
                forall|x: K|
                    members@.contains(x) ==> #[trigger] indegree@[x] == sources(edges, from, x).len()
                        + if successors.member_seq().take(j as int).contains(x) {
                        1int
                    } else {
                        0int
                    },
            decreases degree - j,
        {
            let to = successors.at(j);
            let ghost before = indegree@;
            proof {
                lemma_take_next(successors.member_seq(), j as int);
                assert(edges.contains((member, to)));
                assert(indegree@.dom().contains(to));
                assert(!successors.member_seq().take(j as int).contains(to));
                assert(from.finite());
                assert(members@.take(i as int).len() == i);
                members@.take(i as int).lemma_cardinality_of_set();
                from.lemma_len_filter(|z: K| edges.contains((z, to)));
                assert(before[to] == sources(edges, from, to).len());
            }
            let degree = indegree.get_mut(&to).expect("causal endpoint must be in component");
            *degree = *degree + 1;
            proof {
                assert(indegree@.dom() =~= before.dom());
                let shorter = successors.member_seq().take(j as int);
                let longer = successors.member_seq().take(j + 1);
                assert forall|x: K| members@.contains(x) implies #[trigger] indegree@[x] == sources(
                    edges,
                    from,
                    x,
                ).len() + if longer.contains(x) {
                    1int
                } else {
                    0int
                } by {
                    assert(before[x] == sources(edges, from, x).len() + if shorter.contains(x) {
                        1int
                    } else {
                        0int
                    });
                    assert(longer.to_set().contains(x) <==> shorter.to_set().contains(x) || x == to);
                }
            }
            j = j + 1;
        }
        proof {
            lemma_take_next(members@, i as int);
            assert(successors.member_seq().take(degree as int) =~= successors.member_seq());
            assert forall|x: K| members@.contains(x) implies #[trigger] indegree@[x] == sources(
                edges,
                members@.take(i + 1).to_set(),
                x,
            ).len() by {
                lemma_sources_insert(edges, from, member, x);
                assert(successors@.contains(x) <==> successors.member_seq().contains(x));
                assert(edges.contains((member, x)) <==> successors@.contains(x));
            }
        }
        i = i + 1;
    }
    indegree
}

/// The place of the item that stands before all others.
fn first_place<K: Key>(items: &Vec<K>, rank: &OrderedMap<K, usize>) -> (place: usize)
    requires
        items@.len() > 0,
        items@.to_set().subset_of(rank@.dom()),
    ensures
        place < items@.len(),
        forall|i: int|
            0 <= i < items@.len() && (#[trigger] items@[i]) != items@[place as int] ==> rank_order(rank@)(
                items@[place as int],
                items@[i],
            ),
{
    let mut place: usize = 0;
    let mut i: usize = 1;
    while i < items.len()
        invariant
            place < i <= items@.len(),
            items@.to_set().subset_of(rank@.dom()),
            forall|j: int|
                0 <= j < i && (#[trigger] items@[j]) != items@[place as int] ==> rank_order(rank@)(
                    items@[place as int],
                    items@[j],
                ),
        decreases items.len() - i,
    {
        proof {
            assert(items@.to_set().contains(items@[place as int]));
            assert(items@.to_set().contains(items@[i as int]));
            K::lemma_ord_injective(items@[place as int], items@[i as int]);
        }
        let closer = match (rank.get(&items[i]), rank.get(&items[place])) {
            (Some(a), Some(b)) => {
                if *a < *b {
                    true
                } else if *b < *a {
                    false
                } else {
                    match items[i].compare(&items[place]) {
                        KeyOrder::Less => true,
                        _ => false,
                    }
                }
            },
            _ => false,
        };
        if closer {
            place = i;
        }
        i = i + 1;
    }
    place
}

/// Orders the members so that every member comes after those with an edge to it, and among the
/// members that could come next the one with the lowest rank is taken.
pub fn topological_sort<K: Key>(
    members: &[K],
    outgoing: &OrderedMap<K, OrderedSet<K>>,
    rank: &OrderedMap<K, usize>,
) -> (order: Vec<K>)
    requires
        members@.no_duplicates(),
        members@.to_set().subset_of(outgoing@.dom()),
        members@.to_set().subset_of(rank@.dom()),
        forall|x: K, y: K|
            members@.contains(x) && #[trigger] graph_edges(outgoing@).contains((x, y))
                ==> members@.contains(y),
        acyclic(edges_within(graph_edges(outgoing@), members@.to_set())),
    ensures
        is_key_order(
            edges_within(graph_edges(outgoing@), members@.to_set()),
            members@.to_set(),
            rank_order(rank@),
            order@,
        ),
{
    broadcast use vstd::set_lib::group_set_lib_default;

    let ghost all = graph_edges(outgoing@);
    let ghost points = members@.to_set();
    let ghost edges = edges_within(all, points);
    let mut indegree = count_incoming(members, outgoing);
    let mut ready: Vec<K> = Vec::new();
    let mut i: usize = 0;
    while i < members.len()
        invariant
            i <= members@.len(),
            members@.no_duplicates(),
            indegree@.dom() == members@.to_set(),
            ready@.no_duplicates(),
            forall|x: K| #[trigger]
                ready@.contains(x) <==> members@.take(i as int).to_set().contains(x) && indegree@[x] == 0,
        decreases members.len() - i,
    {
        proof {
            assert(members@.to_set().contains(members@[i as int]));
            lemma_take_next(members@, i as int);
        }
        let ghost before = ready@;
        if *indegree.get(&members[i]).expect("vertex must have indegree entry") == 0 {
            ready.push(members[i]);
        }
        proof {
            assert(!before.contains(members@[i as int]));
            assert forall|x: K| #[trigger] ready@.contains(x) <==> members@.take(
                i + 1,
            ).to_set().contains(x) && indegree@[x] == 0 by {
                assert(before.contains(x) <==> members@.take(i as int).to_set().contains(x)
                    && indegree@[x] == 0);
                if indegree@[members@[i as int]] == 0 {
                    assert(ready@[before.len() as int] == members@[i as int]);
                    if before.contains(x) {
                        assert(ready@[before.index_of(x)] == x);
                    }
                }
            }
        }
        i = i + 1;
    }
    assert(members@.take(members@.len() as int) =~= members@);
    let mut order: Vec<K> = Vec::new();
    proof {
        assert(points.difference(order@.to_set()) =~= points);
        assert forall|x: K| points.contains(x) implies #[trigger] indegree@[x] == sources(
            edges,
            points.difference(order@.to_set()),
            x,
        ).len() by {
            assert(members@.contains(x));
            assert(sources(edges, points, x) =~= sources(all, points, x));
        }
        assert(points.finite());
    }
    loop
        invariant
            points == members@.to_set(),
            points.finite(),
            all == graph_edges(outgoing@),
            edges == edges_within(all, points),
            acyclic(edges),
            points.subset_of(outgoing@.dom()),
            points.subset_of(rank@.dom()),
            forall|x: K, y: K|
                members@.contains(x) && #[trigger] all.contains((x, y)) ==> members@.contains(y),
            indegree@.dom() == points,
            forall|x: K|
                points.contains(x) ==> #[trigger] indegree@[x] == sources(
                    edges,
                    points.difference(order@.to_set()),
                    x,
                ).len(),
            ready@.no_duplicates(),
            forall|x: K| #[trigger]
                ready@.contains(x) <==> points.contains(x) && !order@.to_set().contains(x)
                    && indegree@[x] == 0,
            order@.no_duplicates(),
            order@.to_set().subset_of(points),
            forall|k: int|
                0 <= k < order@.len() ==> is_ready(
                    edges,
                    points,
                    order@.take(k).to_set(),
                    #[trigger] order@[k],
                ),
            forall|k: int, x: K|
                0 <= k < order@.len() && #[trigger] is_ready(edges, points, order@.take(k).to_set(), x)
                    && x != order@[k] ==> rank_order(rank@)(order@[k], x),
        ensures
            ready@.len() == 0,
        decreases points.difference(order@.to_set()).len(),
    {
        if ready.len() == 0 {
            break;
        }
        let ghost done = order@.to_set();
        let ghost rest = points.difference(done);
        let ghost order_before = order@;
        let ghost ready_before = ready@;
        proof {
            assert(ready@.to_set().subset_of(rank@.dom())) by {
                assert forall|x: K| ready@.to_set().contains(x) implies rank@.dom().contains(x) by {
                    assert(ready@.contains(x));
                }
            }
        }
        let place = first_place(&ready, rank);
        let current = ready.remove(place);
        order.push(current);
        proof {
            assert(ready_before[place as int] == current);
            assert(ready_before.contains(current));
            assert(points.contains(current) && !done.contains(current));
            // What is ready is what has no undone predecessor.
            assert forall|x: K| #[trigger] ready_before.contains(x) <==> is_ready(edges, points, done, x) by {
                assert(ready_before.contains(x) <==> points.contains(x) && !done.contains(x)
                    && indegree@[x] == 0);
                if points.contains(x) {
                    assert(indegree@[x] == sources(edges, rest, x).len());
                    assert(sources(edges, rest, x).finite());
                    if indegree@[x] == 0 {
                        assert forall|y: K| points.contains(y) && #[trigger] edges.contains((y, x)) implies done.contains(
                            y,
                        ) by {
                            if !done.contains(y) {
                                assert(sources(edges, rest, x).contains(y));
                            }
                        }
                    }
                    if is_ready(edges, points, done, x) {
                        assert(sources(edges, rest, x) =~= Set::<K>::empty());
                    }
                }
            }
            assert(order@.take(order_before.len() as int) =~= order_before);
            assert forall|k: int| 0 <= k < order_before.len() implies #[trigger] order@.take(k)
                == order_before.take(k) by {
                assert(order@.take(k) =~= order_before.take(k));
            }
            assert forall|k: int| 0 <= k < order@.len() implies is_ready(
                edges,
                points,
                order@.take(k).to_set(),
                #[trigger] order@[k],
            ) by {
                if k < order_before.len() {
                    assert(order@.take(k) == order_before.take(k));
                    assert(order@[k] == order_before[k]);
                }
            }
            assert forall|k: int, x: K|
                0 <= k < order@.len() && #[trigger] is_ready(edges, points, order@.take(k).to_set(), x)
                    && x != order@[k] implies rank_order(rank@)(order@[k], x) by {
                if k < order_before.len() {
                    assert(order@.take(k) == order_before.take(k));
                    assert(order@[k] == order_before[k]);
                } else {
                    assert(ready_before.contains(x));
                    let at = ready_before.index_of(x);
                    assert(ready_before[at] == x);
                }
            }
            assert(order@.to_set() =~= done.insert(current)) by {
                lemma_take_next(order@, order_before.len() as int);
                assert(order@.take(order@.len() as int) =~= order@);
            }
            assert forall|x: K| #[trigger] ready@.contains(x) <==> ready_before.contains(x) && x != current by {
                if ready@.contains(x) {
                    let at = ready@.index_of(x);
                    let at_before: int = if at < place { at } else { at + 1 };
                    assert(ready_before[at_before] == x);
                }
                if ready_before.contains(x) && x != current {
                    let at_before = ready_before.index_of(x);
                    let at: int = if at_before < place { at_before } else { at_before - 1 };
                    assert(ready@[at] == x);
                }
            }
            assert(points.difference(order@.to_set()) =~= rest.remove(current));
        }
        assert(outgoing@.dom().contains(current));
        let successors = outgoing.get(&current).expect("component vertex must have outgoing entry");
        let degree = successors.len();
        let mut j: usize = 0;
        proof {
            assert(successors.member_seq().take(0) =~= Seq::<K>::empty());
            assert forall|x: K| #[trigger] ready@.contains(x) <==> points.contains(x)
                && !order@.to_set().contains(x) && indegree@[x] == 0 by {
                assert(ready_before.contains(x) <==> points.contains(x) && !done.contains(x)
                    && indegree@[x] == 0);
            }
        }
        while j < degree
            invariant
                j <= degree,
                degree == successors.member_seq().len(),
                successors.member_seq().no_duplicates(),
                points == members@.to_set(),
                all == graph_edges(outgoing@),
                edges == edges_within(all, points),
                outgoing@.contains_key(current),
                outgoing@[current] == *successors,
                forall|x: K, y: K|
                    members@.contains(x) && #[trigger] all.contains((x, y)) ==> members@.contains(y),
                points.contains(current),
                rest.contains(current),
                rest.finite(),
                rest == points.difference(done),
                order@.to_set() == done.insert(current),
                acyclic(edges),
                forall|k: int| 0 <= k < order@.len() ==> is_ready(
                    edges,
                    points,
                    order@.take(k).to_set(),
                    #[trigger] order@[k],
                ),
                order@.no_duplicates(),
                order@.len() > 0,
                order@.last() == current,
                indegree@.dom() == points,
                forall|x: K|
                    points.contains(x) ==> #[trigger] indegree@[x] == sources(edges, rest, x).len()
                        - if successors.member_seq().take(j as int).contains(x) {
                        1int
                    } else {
                        0int
                    },
                ready@.no_duplicates(),
                forall|x: K| #[trigger]
                    ready@.contains(x) <==> points.contains(x) && !order@.to_set().contains(x)
                        && indegree@[x] == 0,
            decreases degree - j,
        {
            let next = successors.at(j);
            let ghost before = indegree@;
            let ghost ready_now = ready@;
            proof {
                lemma_take_next(successors.member_seq(), j as int);
                assert(members@.contains(current));
                assert(all.contains((current, next)));
                assert(edges.contains((current, next)));
                assert(points.contains(next));
                assert(!successors.member_seq().take(j as int).contains(next));
                assert(sources(edges, rest, next).contains(current));
                assert(sources(edges, rest, next).finite());
                assert(before[next] == sources(edges, rest, next).len());
                assert(before[next] >= 1) by {
                    assert(sources(edges, rest, next).len() > 0);
                }
                // What follows the point just placed was not placed before it.
                assert(!order@.to_set().contains(next)) by {
                    if order@.contains(next) {
                        let at = order@.index_of(next);
                        assert(order@[at] == next);
                        assert(is_ready(edges, points, order@.take(at).to_set(), order@[at]));
                        assert(order@.take(at).to_set().contains(current));
                        let at_current = order@.take(at).index_of(current);
                        assert(order@[at_current] == current);
                        assert(order@[order@.len() - 1] == current);
                    }
                }
            }
            let degree = indegree.get_mut(&next).expect("component vertex must have indegree entry");
            *degree = *degree - 1;
            let freed = *degree == 0;
            if freed {
                ready.push(next);
            }
            proof {
                assert(indegree@.dom() =~= before.dom());
                assert(!ready_now.contains(next));
                let shorter = successors.member_seq().take(j as int);
                let longer = successors.member_seq().take(j + 1);
                assert forall|x: K| points.contains(x) implies #[trigger] indegree@[x] == sources(
                    edges,
                    rest,
                    x,
                ).len() - if longer.contains(x) {
                    1int
                } else {
                    0int
                } by {
                    assert(before[x] == sources(edges, rest, x).len() - if shorter.contains(x) {
                        1int
                    } else {
                        0int
                    });
                    assert(longer.to_set().contains(x) <==> shorter.to_set().contains(x) || x == next);
                }
                assert forall|x: K| #[trigger] ready@.contains(x) <==> points.contains(x)
                    && !order@.to_set().contains(x) && indegree@[x] == 0 by {
                    assert(ready_now.contains(x) <==> points.contains(x) && !order@.to_set().contains(x)
                        && before[x] == 0);
                    if freed {
                        if ready_now.contains(x) {
                            assert(ready@[ready_now.index_of(x)] == x);
                        }
                        assert(ready@[ready_now.len() as int] == next);
                    }
                }
            }
            j = j + 1;
        }
        proof {
            assert(successors.member_seq().take(degree as int) =~= successors.member_seq());
            let rest_now = points.difference(order@.to_set());
            assert(rest_now =~= rest.remove(current));
            assert forall|x: K| points.contains(x) implies #[trigger] indegree@[x] == sources(
                edges,
                rest_now,
                x,
            ).len() by {
                lemma_sources_insert(edges, rest_now, current, x);
                assert(rest_now.insert(current) =~= rest);
                assert(successors@.contains(x) <==> successors.member_seq().contains(x));
                assert(edges.contains((current, x)) <==> successors@.contains(x));
            }
        }
    }
    proof {
        assert(order@.to_set() =~= points) by {
            assert forall|x: K| points.contains(x) implies order@.to_set().contains(x) by {
                if !order@.to_set().contains(x) {
                    let rest = points.difference(order@.to_set());
                    let source = lemma_acyclic_source(edges, rest, x);
                    assert(sources(edges, rest, source) =~= Set::<K>::empty());
                    assert(indegree@[source] == 0);
                    assert(ready@.contains(source));
                }
            }
        }
    }
    order
}

} // verus!

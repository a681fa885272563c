//! What the ordering of a slice changed, and how much of it the graph constrains.

use vstd::prelude::*;

use crate::counting::{
    count_where, is_kth_smallest, lemma_ascending_kth, lemma_count_bound, lemma_count_take,
    sort_ascending,
};
use crate::ordered::{OrderedMap, OrderedSet};
use crate::relation::{
    closed_under, lemma_reach_append, lemma_reach_edge, lemma_reach_plus_is_reach,
    lemma_reach_self, lemma_reach_stays, reach, reach_plus,
};
use crate::scc::graph_edges;
use crate::state::{MrvExecutor, OrderingMetrics};
use crate::topology::lemma_take_next;
use crate::types::Digest;

verus! {

/// Whether a path leads between the components of the pair, one way or the other.
pub open spec fn pair_constrained(
    number: Map<Digest, usize>,
    reachable: Seq<OrderedSet<usize>>,
    pair: (Digest, Digest),
) -> bool {
    let a = number[pair.0];
    let b = number[pair.1];
    a != b && (reachable[a as int]@.contains(b) || reachable[b as int]@.contains(a))
}

/// Whether the vertices of the pair have components for which reachability is known.
pub open spec fn pair_known(
    number: Map<Digest, usize>,
    reachable: Seq<OrderedSet<usize>>,
    pair: (Digest, Digest),
) -> bool {
    &&& number.contains_key(pair.0)
    &&& number.contains_key(pair.1)
    &&& number[pair.0] < reachable.len()
    &&& number[pair.1] < reachable.len()
}

/// The last place of an item.
pub open spec fn position(items: Seq<Digest>, x: Digest) -> int
    decreases items.len(),
{
    if items.len() == 0 {
        -1
    } else if items.last() == x {
        items.len() - 1
    } else {
        position(items.drop_last(), x)
    }
}

/// The place of a listed item holds that item.
pub proof fn law_position(items: Seq<Digest>, x: Digest)
    requires
        items.contains(x),
    ensures
        0 <= position(items, x) < items.len(),
        items[position(items, x)] == x,
    decreases items.len(),
{
    if items.last() != x {
        let k = items.index_of(x);
        assert(items.drop_last()[k] == x);
        law_position(items.drop_last(), x);
    }
}

/// Whether the two orders place the vertices of the pair differently.
pub open spec fn inverted(base: Seq<Digest>, mrv: Seq<Digest>, pair: (Digest, Digest)) -> bool {
    (position(base, pair.0) < position(base, pair.1)) != (position(mrv, pair.0) < position(
        mrv,
        pair.1,
    ))
}

/// How far the vertex has moved.
pub open spec fn displacement(base: Seq<Digest>, mrv: Seq<Digest>, x: Digest) -> int {
    let from = position(base, x);
    let to = position(mrv, x);
    if from >= to {
        from - to
    } else {
        to - from
    }
}

/// How far each vertex has moved, in the base order.
pub open spec fn displacements(base: Seq<Digest>, mrv: Seq<Digest>) -> Seq<usize> {
    base.map_values(|x: Digest| displacement(base, mrv, x) as usize)
}

/// The counts after the base order is compared with the resulting order.
pub open spec fn intervention(
    before: OrderingMetrics,
    after: OrderingMetrics,
    base: Seq<Digest>,
    mrv: Seq<Digest>,
    pairs: Seq<(Digest, Digest)>,
    number: Map<Digest, usize>,
    reachable: Seq<OrderedSet<usize>>,
) -> bool {
    let n = base.len() as int;
    let moves = displacements(base, mrv);
    &&& after.incomparable_pair_inversion_count == before.incomparable_pair_inversion_count
        + count_where(pairs, |p: (Digest, Digest)| inverted(base, mrv, p))
    &&& after.constrained_inversion_count == before.constrained_inversion_count + count_where(
        pairs,
        |p: (Digest, Digest)| inverted(base, mrv, p) && pair_constrained(number, reachable, p),
    )
    &&& after.unconstrained_inversion_count == before.unconstrained_inversion_count + count_where(
        pairs,
        |p: (Digest, Digest)| inverted(base, mrv, p) && !pair_constrained(number, reachable, p),
    )
    &&& after.moved_vertex_count == count_where(
        base,
        |x: Digest| position(base, x) != position(mrv, x),
    )
    &&& after.unchanged_slice == (base == mrv)
    &&& after.position_displacement_denominator == (if n <= 2 {
        1
    } else {
        n - 1
    })
    &&& n > 0 ==> {
        &&& is_kth_smallest(moves, (n - 1) / 2, after.position_displacement_median_low)
        &&& is_kth_smallest(moves, n / 2, after.position_displacement_median_high)
        &&& is_kth_smallest(moves, (95 * n + 99) / 100 - 1, after.position_displacement_p95)
    }
    &&& n == 0 ==> {
        &&& after.position_displacement_median_low == before.position_displacement_median_low
        &&& after.position_displacement_median_high == before.position_displacement_median_high
        &&& after.position_displacement_p95 == before.position_displacement_p95
    }
    &&& after == (OrderingMetrics {
        incomparable_pair_inversion_count: after.incomparable_pair_inversion_count,
        constrained_inversion_count: after.constrained_inversion_count,
        unconstrained_inversion_count: after.unconstrained_inversion_count,
        moved_vertex_count: after.moved_vertex_count,
        unchanged_slice: after.unchanged_slice,
        position_displacement_denominator: after.position_displacement_denominator,
        position_displacement_median_low: after.position_displacement_median_low,
        position_displacement_median_high: after.position_displacement_median_high,
        position_displacement_p95: after.position_displacement_p95,
        ..before
    })
}

/// What the component reaches by at least one edge.
fn reachable_from(start: usize, graph: &OrderedMap<usize, OrderedSet<usize>>) -> (reachable:
    OrderedSet<usize>)
    requires
        graph@.contains_key(start),
        forall|y: usize| #[trigger] reach(graph_edges(graph@), start, y) ==> graph@.contains_key(y),
    ensures
        forall|y: usize| #[trigger]
            reachable@.contains(y) <==> reach_plus(graph_edges(graph@), start, y),
{
    let ghost edges = graph_edges(graph@);
    let mut reachable: OrderedSet<usize> = OrderedSet::new();
    let mut stack: Vec<usize> = Vec::new();
    let known = graph.len();
    proof {
        lemma_reach_self(edges, start);
    }
    push_successors(&mut stack, graph, start);
    proof {
        assert forall|x: usize| #[trigger] stack@.contains(x) implies reach_plus(edges, start, x) by {
            assert(edges.contains((start, x)));
            lemma_reach_edge(edges, start, x);
        }
    }
    loop
        invariant
            edges == graph_edges(graph@),
            graph@.dom().finite(),
            forall|y: usize| #[trigger] reach(edges, start, y) ==> graph@.contains_key(y),
            forall|x: usize| #[trigger] stack@.contains(x) ==> reach_plus(edges, start, x),
            forall|x: usize| #[trigger] reachable@.contains(x) ==> reach_plus(edges, start, x),
            forall|y: usize| #[trigger]
                edges.contains((start, y)) ==> reachable@.contains(y) || stack@.contains(y),
            forall|x: usize, y: usize| #[trigger]
                edges.contains((x, y)) && reachable@.contains(x) ==> reachable@.contains(y)
                    || stack@.contains(y),
        ensures
            stack@.len() == 0,
        decreases graph@.dom().difference(reachable@).len(), stack@.len(),
    {
        let ghost stack_before = stack@;
        match stack.pop() {
            None => {
                break;
            },
            Some(current) => {
                proof {
                    assert(stack_before.last() == current);
                    assert(stack_before.contains(current));
                    lemma_reach_plus_is_reach(edges, start, current);
                    assert(graph@.contains_key(current));
                    assert forall|x: usize| #[trigger] stack_before.contains(x) implies x == current
                        || stack@.contains(x) by {
                        let k = stack_before.index_of(x);
                        if k < stack@.len() {
                            assert(stack@[k] == x);
                        }
                    }
                    assert forall|x: usize| #[trigger] stack@.contains(x) implies stack_before.contains(x) by {
                        assert(stack_before[stack@.index_of(x)] == x);
                    }
                }
                let ghost seen = reachable@;
                let fresh = reachable.insert(current);
                if !fresh {
                    assert(reachable@ =~= seen);
                    continue;
                }
                let ghost popped = stack@;
                push_successors(&mut stack, graph, current);
                proof {
                    assert forall|x: usize| #[trigger] stack@.contains(x) implies reach_plus(
                        edges,
                        start,
                        x,
                    ) by {
                        if !popped.contains(x) {
                            assert(edges.contains((current, x)));
                            lemma_reach_append(edges, start, current, x);
                        }
                    }
                    assert forall|x: usize, y: usize| #[trigger]
                        edges.contains((x, y)) && reachable@.contains(x) implies reachable@.contains(y)
                        || stack@.contains(y) by {
                        if x != current {
                            assert(seen.contains(x));
                            assert(seen.contains(y) || stack_before.contains(y));
                        }
                    }
                    assert forall|y: usize| #[trigger] edges.contains((start, y)) implies reachable@.contains(
                        y,
                    ) || stack@.contains(y) by {
                        assert(seen.contains(y) || stack_before.contains(y));
                    }
                    assert(graph@.dom().difference(reachable@) =~= graph@.dom().difference(seen).remove(
                        current,
                    ));
                }
            },
        }
    }
    proof {
        assert forall|y: usize| #[trigger] reachable@.contains(y) <==> reach_plus(edges, start, y) by {
            if reach_plus(edges, start, y) {
                let z = choose|z: usize| #[trigger] edges.contains((start, z)) && reach(edges, z, y);
                assert(closed_under(edges, reachable@));
                lemma_reach_stays(edges, reachable@, z, y);
            }
        }
    }
    reachable
}

/// Pushes the successors of a component.
fn push_successors(
    stack: &mut Vec<usize>,
    graph: &OrderedMap<usize, OrderedSet<usize>>,
    current: usize,
)
    requires
        graph@.contains_key(current),
    ensures
        forall|x: usize| #[trigger]
            final(stack)@.contains(x) <==> old(stack)@.contains(x) || graph_edges(graph@).contains(
                (current, x),
            ),
{
    let ghost before = stack@;
    match graph.get(&current) {
        Some(successors) => {
            let degree = successors.len();
            let mut i: usize = 0;
            while i < degree
                invariant
                    i <= degree,
                    degree == successors.member_seq().len(),
                    stack@ == before + successors.member_seq().take(i as int),
                decreases degree - i,
            {
                stack.push(successors.at(i));
                assert(stack@ =~= before + successors.member_seq().take(i + 1));
                i = i + 1;
            }
            proof {
                let items = successors.member_seq();
                assert(items.take(degree as int) =~= items);
                assert forall|x: usize| #[trigger] stack@.contains(x) <==> before.contains(x)
                    || graph_edges(graph@).contains((current, x)) by {
                    assert(successors@.contains(x) <==> items.contains(x));
                    if before.contains(x) {
                        assert(stack@[before.index_of(x)] == x);
                    }
                    if items.contains(x) {
                        assert(stack@[before.len() + items.index_of(x)] == x);
                    }
                    if stack@.contains(x) {
                        let k = stack@.index_of(x);
                        if k < before.len() {
                            assert(before[k] == x);
                        } else {
                            assert(items[k - before.len()] == x);
                        }
                    }
                }
            }
        },
        None => {},
    }
}

/// The last place of each item.
fn positions(items: &[Digest]) -> (places: OrderedMap<Digest, usize>)
    ensures
        places@.dom() == items@.to_set(),
        forall|x: Digest| items@.contains(x) ==> #[trigger] places@[x] == position(items@, x),
{
    let mut places: OrderedMap<Digest, usize> = OrderedMap::new();
    let mut i: usize = 0;
    assert(items@.take(0).to_set() =~= places@.dom());
    while i < items.len()
        invariant
            i <= items@.len(),
            places@.dom() == items@.take(i as int).to_set(),
            forall|x: Digest| #[trigger]
                places@.contains_key(x) ==> places@[x] == position(items@.take(i as int), x),
        decreases items.len() - i,
    {
        let _ = places.insert(items[i], i);
        proof {
            lemma_take_next(items@, i as int);
            assert(places@.dom() =~= items@.take(i + 1).to_set());
            assert(items@.take(i + 1).drop_last() =~= items@.take(i as int));
        }
        i = i + 1;
    }
    proof {
        assert(items@.take(items@.len() as int) =~= items@);
        assert forall|x: Digest| items@.contains(x) implies #[trigger] places@[x] == position(items@, x) by {
            assert(places@.dom().contains(x));
        }
    }
    places
}

/// The place recorded for an item.
fn place_of(places: &OrderedMap<Digest, usize>, x: &Digest) -> (place: usize)
    requires
        places@.contains_key(*x),
    ensures
        place == places@[*x],
{
    *places.get(x).expect("the item must be listed")
}

/// Whether two lists are the same.
fn same_list(one: &[Digest], other: &[Digest]) -> (same: bool)
    ensures
        same == (one@ == other@),
{
    if one.len() != other.len() {
        return false;
    }
    let mut i: usize = 0;
    while i < one.len()
        invariant
            i <= one@.len(),
            one@.len() == other@.len(),
            forall|j: int| 0 <= j < i ==> one@[j] == #[trigger] other@[j],
        decreases one.len() - i,
    {
        if !one[i].same(&other[i]) {
            return false;
        }
        i = i + 1;
    }
    assert(one@ =~= other@);
    true
}

impl MrvExecutor {
    /// What each component reaches by at least one edge.
    pub fn component_reachability(
        component_count: usize,
        graph: &OrderedMap<usize, OrderedSet<usize>>,
    ) -> (reachability: Vec<OrderedSet<usize>>)
        requires
            forall|i: usize| i < component_count ==> #[trigger] graph@.contains_key(i),
            forall|i: usize, y: usize|
                i < component_count && #[trigger] reach(graph_edges(graph@), i, y)
                    ==> graph@.contains_key(y),
        ensures
            reachability@.len() == component_count,
            forall|i: usize, y: usize|
                i < component_count ==> (#[trigger] reachability@[i as int]@.contains(y) <==> reach_plus(
                    graph_edges(graph@),
                    i,
                    y,
                )),
    {
        let mut reachability: Vec<OrderedSet<usize>> = Vec::new();
        let mut start: usize = 0;
        while start < component_count
            invariant
                start <= component_count,
                forall|i: usize| i < component_count ==> #[trigger] graph@.contains_key(i),
                forall|i: usize, y: usize|
                    i < component_count && #[trigger] reach(graph_edges(graph@), i, y)
                        ==> graph@.contains_key(y),
                reachability@.len() == start,
                forall|i: usize, y: usize|
                    i < start ==> (#[trigger] reachability@[i as int]@.contains(y) <==> reach_plus(
                        graph_edges(graph@),
                        i,
                        y,
                    )),
            decreases component_count - start,
        {
            let ghost before = reachability@;
            reachability.push(reachable_from(start, graph));
            proof {
                assert forall|i: usize, y: usize| i < start + 1 implies (
                #[trigger] reachability@[i as int]@.contains(y) <==> reach_plus(
                    graph_edges(graph@),
                    i,
                    y,
                )) by {
                    if i < start {
                        assert(reachability@[i as int] == before[i as int]);
                    }
                }
            }
            start = start + 1;
        }
        reachability
    }

    /// Whether a path leads between the components of two vertices.
    pub fn pair_is_constrained(
        a: &Digest,
        b: &Digest,
        node_to_component: &OrderedMap<Digest, usize>,
        component_reachability: &[OrderedSet<usize>],
    ) -> (yes: bool)
        requires
            pair_known(node_to_component@, component_reachability@, (*a, *b)),
        ensures
            yes == pair_constrained(node_to_component@, component_reachability@, (*a, *b)),
    {
        let component_a = place_of(node_to_component, a);
        let component_b = place_of(node_to_component, b);
        component_a != component_b && (component_reachability[component_a].contains(&component_b)
            || component_reachability[component_b].contains(&component_a))
    }

    /// How many pairs are constrained.
    pub fn count_constrained_pairs(
        incomparable_pairs: &[(Digest, Digest)],
        node_to_component: &OrderedMap<Digest, usize>,
        component_reachability: &[OrderedSet<usize>],
    ) -> (count: usize)
        requires
            forall|i: int|
                0 <= i < incomparable_pairs@.len() ==> pair_known(
                    node_to_component@,
                    component_reachability@,
                    #[trigger] incomparable_pairs@[i],
                ),
        ensures
            count == count_where(
                incomparable_pairs@,
                |p: (Digest, Digest)|
                    pair_constrained(node_to_component@, component_reachability@, p),
            ),
    {
        let ghost keep = |p: (Digest, Digest)|
            pair_constrained(node_to_component@, component_reachability@, p);
        let size = incomparable_pairs.len();
        let mut count: usize = 0;
        let mut i: usize = 0;
        while i < size
            invariant
                i <= size,
                size == incomparable_pairs@.len(),
                forall|j: int|
                    0 <= j < incomparable_pairs@.len() ==> pair_known(
                        node_to_component@,
                        component_reachability@,
                        #[trigger] incomparable_pairs@[j],
                    ),
                keep == (|p: (Digest, Digest)|
                    pair_constrained(node_to_component@, component_reachability@, p)),
                count == count_where(incomparable_pairs@.take(i as int), keep),
                count <= i,
            decreases size - i,
        {
            let (a, b) = incomparable_pairs[i];
            proof {
                assert(incomparable_pairs@[i as int] == (a, b));
                lemma_count_take(incomparable_pairs@, keep, i as int);
            }
            if Self::pair_is_constrained(&a, &b, node_to_component, component_reachability) {
                count = count + 1;
            }
            i = i + 1;
        }
        assert(incomparable_pairs@.take(size as int) =~= incomparable_pairs@);
        count
    }

    /// Compares the native order with the resulting one: inverted pairs, moved vertices and how far
    /// they moved.
    pub fn collect_intervention_metrics(
        &self,
        base_order: &[Digest],
        mrv_order: &[Digest],
        incomparable_pairs: &[(Digest, Digest)],
        node_to_component: &OrderedMap<Digest, usize>,
        component_reachability: &[OrderedSet<usize>],
        metrics: &mut OrderingMetrics,
    )
        requires
            forall|i: int|
                0 <= i < incomparable_pairs@.len() ==> pair_known(
                    node_to_component@,
                    component_reachability@,
                    #[trigger] incomparable_pairs@[i],
                ),
            forall|i: int|
                0 <= i < incomparable_pairs@.len() ==> base_order@.contains(
                    (#[trigger] incomparable_pairs@[i]).0,
                ) && base_order@.contains(incomparable_pairs@[i].1) && mrv_order@.contains(
                    incomparable_pairs@[i].0,
                ) && mrv_order@.contains(incomparable_pairs@[i].1),
            base_order@.to_set().subset_of(mrv_order@.to_set()),
            old(metrics).incomparable_pair_inversion_count + incomparable_pairs@.len() <= usize::MAX,
            old(metrics).constrained_inversion_count + incomparable_pairs@.len() <= usize::MAX,
            old(metrics).unconstrained_inversion_count + incomparable_pairs@.len() <= usize::MAX,
        ensures
            intervention(
                *old(metrics),
                *final(metrics),
                base_order@,
                mrv_order@,
                incomparable_pairs@,
                node_to_component@,
                component_reachability@,
            ),
    {
        let ghost before = *metrics;
        let ghost base = base_order@;
        let ghost mrv = mrv_order@;
        let ghost pairs = incomparable_pairs@;
        let ghost number = node_to_component@;
        let ghost reachable = component_reachability@;
        let ghost any = |p: (Digest, Digest)| inverted(base, mrv, p);
        let ghost bound = |p: (Digest, Digest)|
            inverted(base, mrv, p) && pair_constrained(number, reachable, p);
        let ghost free = |p: (Digest, Digest)|
            inverted(base, mrv, p) && !pair_constrained(number, reachable, p);
        let base_positions = positions(base_order);
        let mrv_positions = positions(mrv_order);
        let size = incomparable_pairs.len();
        let mut all_inversions: usize = 0;
        let mut constrained: usize = 0;
        let mut unconstrained: usize = 0;
        let mut i: usize = 0;
        while i < size
            invariant
                i <= size,
                size == pairs.len(),
                pairs == incomparable_pairs@,
                base == base_order@,
                mrv == mrv_order@,
                number == node_to_component@,
                reachable == component_reachability@,
                forall|j: int| 0 <= j < pairs.len() ==> pair_known(number, reachable, #[trigger] pairs[j]),
                forall|j: int|
                    0 <= j < pairs.len() ==> base.contains((#[trigger] pairs[j]).0) && base.contains(
                        pairs[j].1,
                    ) && mrv.contains(pairs[j].0) && mrv.contains(pairs[j].1),
                base_positions@.dom() == base.to_set(),
                forall|x: Digest|
                    base.contains(x) ==> #[trigger] base_positions@[x] == position(base, x),
                mrv_positions@.dom() == mrv.to_set(),
                forall|x: Digest| mrv.contains(x) ==> #[trigger] mrv_positions@[x] == position(mrv, x),
                any == (|p: (Digest, Digest)| inverted(base, mrv, p)),
                bound == (|p: (Digest, Digest)|
                    inverted(base, mrv, p) && pair_constrained(number, reachable, p)),
                free == (|p: (Digest, Digest)|
                    inverted(base, mrv, p) && !pair_constrained(number, reachable, p)),
                all_inversions == count_where(pairs.take(i as int), any),
                constrained == count_where(pairs.take(i as int), bound),
                unconstrained == count_where(pairs.take(i as int), free),
                all_inversions <= i,
                constrained <= i,
                unconstrained <= i,
            decreases size - i,
        {
            let (a, b) = incomparable_pairs[i];
            proof {
                assert(pairs[i as int] == (a, b));
                assert(base.to_set().contains(a) && base.to_set().contains(b));
                assert(mrv.to_set().contains(a) && mrv.to_set().contains(b));
                lemma_count_take(pairs, any, i as int);
                lemma_count_take(pairs, bound, i as int);
                lemma_count_take(pairs, free, i as int);
            }
            let base_first = place_of(&base_positions, &a) < place_of(&base_positions, &b);
            let mrv_first = place_of(&mrv_positions, &a) < place_of(&mrv_positions, &b);
            if base_first != mrv_first {
                all_inversions = all_inversions + 1;
                if Self::pair_is_constrained(&a, &b, node_to_component, component_reachability) {
                    constrained = constrained + 1;
                } else {
                    unconstrained = unconstrained + 1;
                }
            }
            i = i + 1;
        }
        proof {
            assert(pairs.take(size as int) =~= pairs);
            lemma_count_bound(pairs, any);
            lemma_count_bound(pairs, bound);
            lemma_count_bound(pairs, free);
        }
        metrics.incomparable_pair_inversion_count =
        metrics.incomparable_pair_inversion_count + all_inversions;
        metrics.constrained_inversion_count = metrics.constrained_inversion_count + constrained;
        metrics.unconstrained_inversion_count = metrics.unconstrained_inversion_count + unconstrained;

        let ghost moved = |x: Digest| position(base, x) != position(mrv, x);
        let vertices = base_order.len();
        let mut moves: Vec<usize> = Vec::new();
        let mut moved_count: usize = 0;
        let mut i: usize = 0;
        assert(displacements(base, mrv).take(0) =~= moves@);
        while i < vertices
            invariant
                i <= vertices,
                vertices == base.len(),
                base == base_order@,
                mrv == mrv_order@,
                base.to_set().subset_of(mrv.to_set()),
                base_positions@.dom() == base.to_set(),
                forall|x: Digest|
                    base.contains(x) ==> #[trigger] base_positions@[x] == position(base, x),
                mrv_positions@.dom() == mrv.to_set(),
                forall|x: Digest| mrv.contains(x) ==> #[trigger] mrv_positions@[x] == position(mrv, x),
                moved == (|x: Digest| position(base, x) != position(mrv, x)),
                moved_count == count_where(base.take(i as int), moved),
                moved_count <= i,
                moves@ == displacements(base, mrv).take(i as int),
            decreases vertices - i,
        {
            let digest = base_order[i];
            proof {
                assert(base[i as int] == digest);
                assert(base.to_set().contains(digest));
                assert(mrv.to_set().contains(digest));
                lemma_count_take(base, moved, i as int);
            }
            let from = place_of(&base_positions, &digest);
            let to = place_of(&mrv_positions, &digest);
            if from != to {
                moved_count = moved_count + 1;
            }
            let distance: usize = if from >= to {
                from - to
            } else {
                to - from
            };
            moves.push(distance);
            assert(moves@ =~= displacements(base, mrv).take(i + 1));
            i = i + 1;
        }
        assert(base.take(vertices as int) =~= base);
        assert(displacements(base, mrv).take(vertices as int) =~= displacements(base, mrv));
        metrics.moved_vertex_count = moved_count;
        metrics.unchanged_slice = same_list(base_order, mrv_order);
        metrics.position_displacement_denominator =
        if vertices <= 2 {
            1
        } else {
            vertices - 1
        };
        if vertices > 0 {
            let sorted = sort_ascending(&moves);
            let middle_low: usize = (vertices - 1) / 2;
            let middle_high: usize = vertices / 2;
            let p95: usize = vertices - vertices / 20 - 1;
            proof {
                lemma_ascending_kth(sorted@, middle_low as int);
                lemma_ascending_kth(sorted@, middle_high as int);
                lemma_ascending_kth(sorted@, p95 as int);
                assert((95 * vertices + 99) / 100 - 1 == p95) by (nonlinear_arith)
                    requires
                        vertices > 0,
                        p95 == vertices - vertices / 20 - 1,
                ;
            }
            metrics.position_displacement_median_low = sorted[middle_low];
            metrics.position_displacement_median_high = sorted[middle_high];
            metrics.position_displacement_p95 = sorted[p95];
        }
    }
}

} // verus!

//! Deterministic completion of an ordering graph.

use vstd::prelude::*;

use crate::ordered::{OrderedMap, OrderedSet};
use crate::relation::{
    acyclic, connected, lemma_reach_append, lemma_reach_edge, lemma_reach_join,
    lemma_reach_monotone, lemma_reach_self, reach, reach_in, reach_plus,
};
use crate::scc::{
    add_edge, are_components, edgeless, edges_lead_forward, find_scc, graph_edges, graph_within,
    lists,
};
use crate::state::MrvExecutor;
use crate::tie_break::{lemma_tie_total, tie_before, tie_order};
use crate::topology::{
    edges_within, is_key_order, is_ready, lemma_take_next, rank_order, topological_sort,
};
use crate::types::{CertificateModel, Digest};

verus! {

/// A total order of the vertices of a slice, component by component.
#[derive(Debug)]
pub struct Linearization {
    pub ordered_sccs: Vec<Vec<Digest>>,
    pub order: Vec<Digest>,
    /// The number of the component of each vertex.
    pub node_to_component: OrderedMap<Digest, usize>,
    /// The edges between components, by their numbers.
    pub component_graph: OrderedMap<usize, OrderedSet<usize>>,
}

/// The lists one after another.
pub open spec fn joined<K>(parts: Seq<Seq<K>>) -> Seq<K>
    decreases parts.len(),
{
    if parts.len() == 0 {
        Seq::empty()
    } else {
        joined(parts.drop_last()) + parts.last()
    }
}

/// The causal edges that stay within a component.
pub open spec fn causal_within<K>(edges: Set<(K, K)>, causal: Set<(K, K)>) -> Set<(K, K)> {
    causal.filter(|e: (K, K)| connected(edges, e.0, e.1))
}

/// Whether, once the components before place `c` have come, nothing else must precede the
/// component at place `d`.
pub open spec fn component_ready<K>(
    edges: Set<(K, K)>,
    components: Seq<Seq<K>>,
    c: int,
    d: int,
) -> bool {
    forall|x: K, y: K| #[trigger]
        edges.contains((x, y)) && components[d].contains(y) && !components[d].contains(x)
            ==> exists|b: int| 0 <= b < c && (#[trigger] components[b]).contains(x)
}

/// Whether the first vertex of one list comes before the first vertex of the other, by the fixed
/// key.
pub open spec fn leads(
    certificates: Map<Digest, CertificateModel>,
    one: Seq<Digest>,
    other: Seq<Digest>,
) -> bool {
    exists|m: Digest| #[trigger]
        one.contains(m) && forall|n: Digest| #[trigger]
            other.contains(n) ==> tie_before(certificates, m, n)
}

/// Whether the components are the strongly connected components of the graph, in an order that
/// respects every edge between them, and at each place the one that leads by its lowest key among
/// those that could come there; and whether within each the vertices stand in the causal order that
/// takes the lowest key among those that could come next.
pub open spec fn is_linearization(
    certificates: Map<Digest, CertificateModel>,
    nodes: Set<Digest>,
    edges: Set<(Digest, Digest)>,
    causal: Set<(Digest, Digest)>,
    components: Seq<Seq<Digest>>,
    order: Seq<Digest>,
) -> bool {
    &&& are_components(edges, nodes, components)
    &&& order == joined(components)
    &&& edges_lead_forward(edges, components)
    &&& forall|c: int, d: int|
        0 <= c < d < components.len() && #[trigger] component_ready(edges, components, c, d) ==> leads(
            certificates,
            components[c],
            components[d],
        )
    &&& forall|c: int|
        0 <= c < components.len() ==> is_key_order(
            edges_within(causal_within(edges, causal), components[c].to_set()),
            (#[trigger] components[c]).to_set(),
            tie_order(certificates),
            components[c],
        )
}

/// Whether the numbers tell the components apart: two vertices have the same number just if they
/// are connected, and every number is below `count`.
pub open spec fn numbers_components(
    nodes: Set<Digest>,
    edges: Set<(Digest, Digest)>,
    number: Map<Digest, usize>,
    count: nat,
) -> bool {
    &&& number.dom() == nodes
    &&& forall|x: Digest| #[trigger] nodes.contains(x) ==> number[x] < count
    &&& forall|x: Digest, y: Digest|
        nodes.contains(x) && nodes.contains(y) ==> (#[trigger] number[x] == #[trigger] number[y]
            <==> connected(edges, x, y))
}

/// The edges between the numbers of different components.
pub open spec fn condensed(edges: Set<(Digest, Digest)>, number: Map<Digest, usize>) -> Set<
    (usize, usize),
> {
    Set::new(
        |e: (usize, usize)|
            e.0 != e.1 && exists|x: Digest, y: Digest| #[trigger]
                edges.contains((x, y)) && number[x] == e.0 && number[y] == e.1,
    )
}

pub proof fn lemma_joined_push<K>(parts: Seq<Seq<K>>, part: Seq<K>)
    ensures
        joined(parts.push(part)) == joined(parts) + part,
{
    assert(parts.push(part).drop_last() =~= parts);
}

/// An item is in the joined list just if it is in one of the parts.
pub proof fn lemma_joined_contains<K>(parts: Seq<Seq<K>>, x: K)
    ensures
        joined(parts).contains(x) <==> exists|c: int|
            0 <= c < parts.len() && (#[trigger] parts[c]).contains(x),
    decreases parts.len(),
{
    if parts.len() > 0 {
        let init = parts.drop_last();
        let last = parts.last();
        lemma_joined_contains(init, x);
        let all = joined(init) + last;
        if joined(parts).contains(x) {
            let k = all.index_of(x);
            if k < joined(init).len() {
                assert(joined(init)[k] == x);
                let c = choose|c: int| 0 <= c < init.len() && (#[trigger] init[c]).contains(x);
                assert(parts[c].contains(x));
            } else {
                assert(last[k - joined(init).len()] == x);
                assert(parts[parts.len() - 1].contains(x));
            }
        }
        if exists|c: int| 0 <= c < parts.len() && (#[trigger] parts[c]).contains(x) {
            let c = choose|c: int| 0 <= c < parts.len() && (#[trigger] parts[c]).contains(x);
            if c < init.len() {
                assert(init[c].contains(x));
                let k = joined(init).index_of(x);
                assert(all[k] == x);
            } else {
                let k = last.index_of(x);
                assert(all[joined(init).len() + k] == x);
            }
        }
    }
}

/// Disjoint lists without repetition join to a list without repetition.
proof fn lemma_joined_distinct<K>(parts: Seq<Seq<K>>)
    requires
        forall|c: int| 0 <= c < parts.len() ==> (#[trigger] parts[c]).no_duplicates(),
        forall|c: int, d: int, x: K|
            #![trigger parts[c].contains(x), parts[d].contains(x)]
            0 <= c < d < parts.len() ==> !(parts[c].contains(x) && parts[d].contains(x)),
    ensures
        joined(parts).no_duplicates(),
    decreases parts.len(),
{
    if parts.len() > 0 {
        let init = parts.drop_last();
        let last = parts.last();
        assert forall|c: int, d: int, x: K|
            #![trigger init[c].contains(x), init[d].contains(x)]
            0 <= c < d < init.len() implies !(init[c].contains(x) && init[d].contains(x)) by {
            assert(init[c] == parts[c] && init[d] == parts[d]);
        }
        assert forall|c: int| 0 <= c < init.len() implies (#[trigger] init[c]).no_duplicates() by {
            assert(init[c] == parts[c]);
        }
        lemma_joined_distinct(init);
        let front = joined(init);
        let all = front + last;
        assert(parts[parts.len() - 1] == last);
        assert forall|i: int, j: int|
            0 <= i < all.len() && 0 <= j < all.len() && i != j implies all[i] != all[j] by {
            if i < front.len() && j >= front.len() {
                lemma_front_differs(parts, i, j - front.len());
            }
            if j < front.len() && i >= front.len() {
                lemma_front_differs(parts, j, i - front.len());
            }
        }
    }
}

proof fn lemma_front_differs<K>(parts: Seq<Seq<K>>, i: int, j: int)
    requires
        parts.len() > 0,
        forall|c: int, d: int, x: K|
            #![trigger parts[c].contains(x), parts[d].contains(x)]
            0 <= c < d < parts.len() ==> !(parts[c].contains(x) && parts[d].contains(x)),
        0 <= i < joined(parts.drop_last()).len(),
        0 <= j < parts.last().len(),
    ensures
        joined(parts.drop_last())[i] != parts.last()[j],
{
    let init = parts.drop_last();
    let x = joined(init)[i];
    assert(joined(init).contains(x));
    lemma_joined_contains(init, x);
    let c = choose|c: int| 0 <= c < init.len() && (#[trigger] init[c]).contains(x);
    assert(parts[c].contains(x));
    if x == parts.last()[j] {
        assert(parts[parts.len() - 1].contains(x));
    }
}

/// A linearization lists every vertex once.
pub proof fn lemma_components_joined<K>(edges: Set<(K, K)>, nodes: Set<K>, components: Seq<Seq<K>>)
    requires
        are_components(edges, nodes, components),
    ensures
        joined(components).no_duplicates(),
        joined(components).to_set() == nodes,
{
    lemma_joined_distinct(components);
    assert forall|x: K| joined(components).to_set().contains(x) <==> nodes.contains(x) by {
        lemma_joined_contains(components, x);
        if joined(components).contains(x) {
            let c = choose|c: int| 0 <= c < components.len() && (#[trigger] components[c]).contains(x);
            assert(components[c].contains(x));
        }
    }
    assert(joined(components).to_set() =~= nodes);
}

/// A path between numbers is a path between any two vertices of the two components.
pub proof fn lemma_condensed_reach(
    nodes: Set<Digest>,
    edges: Set<(Digest, Digest)>,
    number: Map<Digest, usize>,
    count: nat,
    x: Digest,
    y: Digest,
)
    requires
        numbers_components(nodes, edges, number, count),
        forall|a: Digest, b: Digest| #[trigger]
            edges.contains((a, b)) ==> nodes.contains(a) && nodes.contains(b),
        nodes.contains(x),
        nodes.contains(y),
    ensures
        reach(condensed(edges, number), number[x], number[y]) <==> reach(edges, x, y),
{
    let turned = condensed(edges, number);
    if reach(turned, number[x], number[y]) {
        let n = choose|n: nat| #[trigger] reach_in(turned, n, number[x], number[y]);
        lemma_condensed_reach_in(nodes, edges, number, count, n, x, y);
    }
    if reach(edges, x, y) {
        let n = choose|n: nat| #[trigger] reach_in(edges, n, x, y);
        lemma_reach_in_condensed(nodes, edges, number, count, n, x, y);
    }
}

proof fn lemma_condensed_reach_in(
    nodes: Set<Digest>,
    edges: Set<(Digest, Digest)>,
    number: Map<Digest, usize>,
    count: nat,
    n: nat,
    x: Digest,
    y: Digest,
)
    requires
        numbers_components(nodes, edges, number, count),
        forall|a: Digest, b: Digest| #[trigger]
            edges.contains((a, b)) ==> nodes.contains(a) && nodes.contains(b),
        nodes.contains(x),
        nodes.contains(y),
        reach_in(condensed(edges, number), n, number[x], number[y]),
    ensures
        reach(edges, x, y),
    decreases n,
{
    let turned = condensed(edges, number);
    if n > 0 {
        let k = choose|k: usize| #[trigger]
            turned.contains((number[x], k)) && reach_in(turned, (n - 1) as nat, k, number[y]);
        let (a, b) = choose|a: Digest, b: Digest| #[trigger]
            edges.contains((a, b)) && number[a] == number[x] && number[b] == k;
        assert(number[x] == number[a]);
        assert(connected(edges, x, a));
        lemma_condensed_reach_in(nodes, edges, number, count, (n - 1) as nat, b, y);
        lemma_reach_append(edges, x, a, b);
        lemma_reach_join(edges, x, b, y);
    } else {
        assert(number[x] == number[y]);
    }
}

proof fn lemma_reach_in_condensed(
    nodes: Set<Digest>,
    edges: Set<(Digest, Digest)>,
    number: Map<Digest, usize>,
    count: nat,
    n: nat,
    x: Digest,
    y: Digest,
)
    requires
        numbers_components(nodes, edges, number, count),
        forall|a: Digest, b: Digest| #[trigger]
            edges.contains((a, b)) ==> nodes.contains(a) && nodes.contains(b),
        nodes.contains(x),
        nodes.contains(y),
        reach_in(edges, n, x, y),
    ensures
        reach(condensed(edges, number), number[x], number[y]),
    decreases n,
{
    let turned = condensed(edges, number);
    if n > 0 {
        let z = choose|z: Digest| #[trigger]
            edges.contains((x, z)) && reach_in(edges, (n - 1) as nat, z, y);
        lemma_reach_in_condensed(nodes, edges, number, count, (n - 1) as nat, z, y);
        if number[x] != number[z] {
            assert(turned.contains((number[x], number[z])));
            lemma_reach_edge(turned, number[x], number[z]);
            lemma_reach_join(turned, number[x], number[z], number[y]);
        }
    } else {
        lemma_reach_self(turned, number[x]);
    }
}

/// The edges between components form no cycle.
proof fn lemma_condensed_acyclic(
    nodes: Set<Digest>,
    edges: Set<(Digest, Digest)>,
    number: Map<Digest, usize>,
    count: nat,
)
    requires
        numbers_components(nodes, edges, number, count),
        forall|a: Digest, b: Digest| #[trigger]
            edges.contains((a, b)) ==> nodes.contains(a) && nodes.contains(b),
    ensures
        acyclic(condensed(edges, number)),
{
    let turned = condensed(edges, number);
    assert forall|i: usize| !#[trigger] reach_plus(turned, i, i) by {
        if reach_plus(turned, i, i) {
            let k = choose|k: usize| #[trigger] turned.contains((i, k)) && reach(turned, k, i);
            let (a, b) = choose|a: Digest, b: Digest| #[trigger]
                edges.contains((a, b)) && number[a] == i && number[b] == k;
            lemma_condensed_reach(nodes, edges, number, count, b, a);
            lemma_reach_edge(edges, a, b);
            assert(connected(edges, a, b));
            assert(number[a] == number[b]);
        }
    }
}

/// Whether the ranks follow the fixed key.
pub open spec fn ranks_by_key(
    certificates: Map<Digest, CertificateModel>,
    nodes: Set<Digest>,
    rank: Map<Digest, usize>,
) -> bool {
    &&& rank.dom() == nodes
    &&& forall|x: Digest, y: Digest|
        nodes.contains(x) && nodes.contains(y) ==> (#[trigger] rank[x] < #[trigger] rank[y] <==> tie_before(
            certificates,
            x,
            y,
        ))
    &&& forall|x: Digest, y: Digest|
        nodes.contains(x) && nodes.contains(y) && #[trigger] rank[x] == #[trigger] rank[y] ==> x == y
}

impl MrvExecutor {
    /// The rank of each vertex by the fixed key.
    fn rank_nodes(&self, nodes: &[Digest]) -> (rank: OrderedMap<Digest, usize>)
        requires
            nodes@.no_duplicates(),
            nodes@.to_set().subset_of(self.store@.dom()),
        ensures
            ranks_by_key(self.certificates(), nodes@.to_set(), rank@),
    {
        let keyed = self.sort_by_key(nodes);
        let mut rank: OrderedMap<Digest, usize> = OrderedMap::new();
        let mut i: usize = 0;
        assert(keyed@.take(0).to_set() =~= rank@.dom());
        while i < keyed.len()
            invariant
                i <= keyed@.len(),
                keyed@.no_duplicates(),
                rank@.dom() == keyed@.take(i as int).to_set(),
                forall|j: int| 0 <= j < i ==> rank@[#[trigger] keyed@[j]] == j,
            decreases keyed.len() - i,
        {
            let ghost before = rank@;
            let _ = rank.insert(keyed[i], i);
            proof {
                lemma_take_next(keyed@, i as int);
                assert(rank@.dom() =~= keyed@.take(i + 1).to_set());
                assert forall|j: int| 0 <= j < i + 1 implies rank@[#[trigger] keyed@[j]] == j by {
                    if j < i {
                        assert(keyed@[j] != keyed@[i as int]);
                        assert(before[keyed@[j]] == j);
                    }
                }
            }
            i = i + 1;
        }
        proof {
            let points = nodes@.to_set();
            assert(keyed@.take(keyed@.len() as int) =~= keyed@);
            assert forall|x: Digest, y: Digest| points.contains(x) && points.contains(y) implies (
            #[trigger] rank@[x] < #[trigger] rank@[y] <==> tie_before(self.certificates(), x, y)) && (
            rank@[x] == rank@[y] ==> x == y) by {
                assert(keyed@.to_set().contains(x) && keyed@.to_set().contains(y));
                let a = keyed@.index_of(x);
                let b = keyed@.index_of(y);
                assert(keyed@[a] == x && keyed@[b] == y);
                assert(rank@[keyed@[a]] == a && rank@[keyed@[b]] == b);
                lemma_tie_total(self.certificates(), x, y);
                if a < b {
                    assert(tie_before(self.certificates(), keyed@[a], keyed@[b]));
                }
                if b < a {
                    assert(tie_before(self.certificates(), keyed@[b], keyed@[a]));
                }
            }
        }
        rank
    }
}

/// The number of the component of each vertex.
fn number_components(
    nodes: &[Digest],
    graph: &OrderedMap<Digest, OrderedSet<Digest>>,
    components: &Vec<Vec<Digest>>,
) -> (number: OrderedMap<Digest, usize>)
    requires
        are_components(graph_edges(graph@), nodes@.to_set(), lists(components@)),
    ensures
        numbers_components(nodes@.to_set(), graph_edges(graph@), number@, components@.len()),
        forall|c: int, x: Digest|
            0 <= c < components@.len() && #[trigger] components@[c]@.contains(x) ==> number@[x] == c,
{
    let ghost edges = graph_edges(graph@);
    let ghost points = nodes@.to_set();
    let ghost parts = lists(components@);
    let mut number: OrderedMap<Digest, usize> = OrderedMap::new();
    let mut c: usize = 0;
    while c < components.len()
        invariant
            c <= components@.len(),
            points == nodes@.to_set(),
            parts == lists(components@),
            are_components(edges, points, parts),
            forall|x: Digest| #[trigger]
                number@.contains_key(x) <==> exists|d: int|
                    0 <= d < c && (#[trigger] components@[d])@.contains(x),
            forall|d: int, x: Digest|
                0 <= d < c && #[trigger] components@[d]@.contains(x) ==> number@[x] == d,
        decreases components.len() - c,
    {
        let ghost before = number@;
        let mut i: usize = 0;
        while i < components[c].len()
            invariant
                c < components@.len(),
                i <= components@[c as int]@.len(),
                parts == lists(components@),
                are_components(edges, points, parts),
                forall|x: Digest| #[trigger]
                    number@.contains_key(x) <==> before.contains_key(x) || components@[c as int]@.take(
                        i as int,
                    ).contains(x),
                forall|x: Digest| #[trigger]
                    components@[c as int]@.take(i as int).contains(x) ==> number@[x] == c,
                forall|d: int, x: Digest|
                    0 <= d < c && #[trigger] components@[d]@.contains(x) ==> number@[x] == d,
            decreases components@[c as int]@.len() - i,
        {
            let ghost earlier = number@;
            let digest = components[c][i];
            let _ = number.insert(digest, c);
            proof {
                let component = components@[c as int]@;
                lemma_take_next(component, i as int);
                assert forall|x: Digest| #[trigger] component.take(i + 1).contains(x)
                    <==> component.take(i as int).contains(x) || x == digest by {
                    assert(component.take(i + 1).to_set().contains(x) <==> component.take(
                        i as int,
                    ).to_set().contains(x) || x == digest);
                }
                assert forall|d: int, x: Digest|
                    0 <= d < c && #[trigger] components@[d]@.contains(x) implies number@[x] == d by {
                    assert(earlier[x] == d);
                    assert(parts[d].contains(x));
                    if x == digest {
                        assert(component[i as int] == x);
                        assert(parts[c as int].contains(x));
                    }
                }
            }
            i = i + 1;
        }
        proof {
            let component = components@[c as int]@;
            assert(component.take(component.len() as int) =~= component);
        }
        c = c + 1;
    }
    proof {
        assert(number@.dom() =~= points) by {
            assert forall|x: Digest| number@.dom().contains(x) <==> points.contains(x) by {
                if points.contains(x) {
                    let d = choose|d: int| 0 <= d < parts.len() && (#[trigger] parts[d]).contains(x);
                    assert(components@[d]@.contains(x));
                }
                if number@.contains_key(x) {
                    let d = choose|d: int|
                        0 <= d < components@.len() && (#[trigger] components@[d])@.contains(x);
                    assert(parts[d].contains(x));
                }
            }
        }
        assert forall|x: Digest| #[trigger] points.contains(x) implies number@[x] < components@.len()
            && parts[number@[x] as int].contains(x) by {
            let d = choose|d: int| 0 <= d < parts.len() && (#[trigger] parts[d]).contains(x);
            assert(components@[d]@.contains(x));
        }
        assert forall|x: Digest, y: Digest| points.contains(x) && points.contains(y) implies (
        #[trigger] number@[x] == #[trigger] number@[y] <==> connected(edges, x, y)) by {
            let d = number@[x] as int;
            assert(parts[d].contains(x));
            assert(parts[number@[y] as int].contains(y));
            if connected(edges, x, y) {
                assert(parts[d].contains(y) <==> points.contains(y) && connected(edges, x, y));
                assert(components@[d]@.contains(y));
            }
        }
    }
    number
}

/// The edges between the numbered components.
fn condense(
    graph: &OrderedMap<Digest, OrderedSet<Digest>>,
    number: &OrderedMap<Digest, usize>,
    count: usize,
) -> (condensation: OrderedMap<usize, OrderedSet<usize>>)
    requires
        graph_within(graph@, number@.dom()),
        forall|x: Digest| number@.contains_key(x) ==> #[trigger] number@[x] < count,
    ensures
        graph_edges(condensation@) == condensed(graph_edges(graph@), number@),
        forall|i: usize| #[trigger] condensation@.contains_key(i) <==> i < count,
{
    let ghost edges = graph_edges(graph@);
    let mut condensation: OrderedMap<usize, OrderedSet<usize>> = OrderedMap::new();
    let mut k: usize = 0;
    while k < count
        invariant
            k <= count,
            forall|i: usize| #[trigger] condensation@.contains_key(i) <==> i < k,
            graph_edges(condensation@) == Set::<(usize, usize)>::empty(),
        decreases count - k,
    {
        let _ = condensation.insert(k, OrderedSet::new());
        assert(graph_edges(condensation@) =~= Set::<(usize, usize)>::empty());
        k = k + 1;
    }
    let sources = graph.len();
    let mut i: usize = 0;
    proof {
        assert(graph_edges(condensation@) =~= condensed(
            edges_from_keys(edges, graph.key_seq(), 0, Seq::<Digest>::empty()),
            number@,
        ));
    }
    while i < sources
        invariant
            i <= sources,
            sources == graph.key_seq().len(),
            graph.key_seq().no_duplicates(),
            graph@.dom() == graph.key_seq().to_set(),
            edges == graph_edges(graph@),
            graph_within(graph@, number@.dom()),
            forall|x: Digest| number@.contains_key(x) ==> #[trigger] number@[x] < count,
            forall|j: usize| #[trigger] condensation@.contains_key(j) <==> j < count,
            graph_edges(condensation@) == condensed(
                edges_from_keys(edges, graph.key_seq(), i as int, Seq::<Digest>::empty()),
                number@,
            ),
        decreases sources - i,
    {
        let from = graph.key_at(i);
        let successors = graph.value_at(i);
        assert(number@.dom().contains(from));
        let from_component: usize = *number.get(&from).expect("source must be in a component");
        let degree = successors.len();
        let mut j: usize = 0;
        assert(successors.member_seq().take(0) =~= Seq::<Digest>::empty());
        while j < degree
            invariant
                j <= degree,
                i < sources,
                sources == graph.key_seq().len(),
                graph.key_seq().no_duplicates(),
                degree == successors.member_seq().len(),
                successors.member_seq().no_duplicates(),
                from == graph.key_seq()[i as int],
                graph@.contains_key(from),
                graph@[from] == *successors,
                edges == graph_edges(graph@),
                graph_within(graph@, number@.dom()),
                number@.contains_key(from),
                number@[from] == from_component,
                forall|x: Digest| number@.contains_key(x) ==> #[trigger] number@[x] < count,
                forall|m: usize| #[trigger] condensation@.contains_key(m) <==> m < count,
                graph_edges(condensation@) == condensed(
                    edges_from_keys(
                        edges,
                        graph.key_seq(),
                        i as int,
                        successors.member_seq().take(j as int),
                    ),
                    number@,
                ),
            decreases degree - j,
        {
            let to = successors.at(j);
            let ghost before = graph_edges(condensation@);
            let ghost done = successors.member_seq().take(j as int);
            let ghost more = successors.member_seq().take(j + 1);
            assert(edges.contains((from, to)));
            assert(number@.dom().contains(to));
            let to_component: usize = *number.get(&to).expect("target must be in a component");
            if from_component != to_component {
                let ghost keys = condensation@.dom();
                let _ = add_edge(&mut condensation, from_component, to_component);
                assert(condensation@.dom() =~= keys) by {
                    assert(keys.contains(from_component));
                }
                assert forall|m: usize| #[trigger] condensation@.contains_key(m) <==> m < count by {
                    assert(condensation@.dom().contains(m) <==> keys.contains(m));
                }
            }
            proof {
                lemma_take_next(successors.member_seq(), j as int);
                let few = edges_from_keys(edges, graph.key_seq(), i as int, done);
                let many = edges_from_keys(edges, graph.key_seq(), i as int, more);
                assert forall|e: (Digest, Digest)| #[trigger] many.contains(e) <==> few.contains(e) || e
                    == (from, to) by {
                    assert(more.to_set().contains(e.1) <==> done.to_set().contains(e.1) || e.1 == to);
                }
                lemma_condensed_insert(few, many, number@, from, to);
                assert(graph_edges(condensation@) =~= condensed(many, number@));
            }
            j = j + 1;
        }
        proof {
            let all = successors.member_seq();
            assert(all.take(degree as int) =~= all);
            lemma_take_next(graph.key_seq(), i as int);
            let few = edges_from_keys(edges, graph.key_seq(), i as int, all);
            let many = edges_from_keys(edges, graph.key_seq(), i + 1, Seq::<Digest>::empty());
            assert forall|e: (Digest, Digest)| #[trigger] few.contains(e) <==> many.contains(e) by {
                let keys = graph.key_seq().take(i as int);
                let longer = graph.key_seq().take(i + 1);
                assert(longer.to_set().contains(e.0) <==> keys.to_set().contains(e.0) || e.0 == from);
                assert(successors@.contains(e.1) <==> all.to_set().contains(e.1));
            }
            assert(few =~= many);
        }
        i = i + 1;
    }
    proof {
        let whole = edges_from_keys(edges, graph.key_seq(), sources as int, Seq::<Digest>::empty());
        assert(graph.key_seq().take(sources as int) =~= graph.key_seq());
        assert forall|e: (Digest, Digest)| #[trigger] whole.contains(e) <==> edges.contains(e) by {
            if edges.contains(e) {
                assert(graph@.dom().contains(e.0));
                assert(graph.key_seq().to_set().contains(e.0));
            }
        }
        assert(whole =~= edges);
    }
    condensation
}

/// The edges that start at one of the first `i` keys, and those from the next key to the given
/// points.
spec fn edges_from_keys(
    edges: Set<(Digest, Digest)>,
    keys: Seq<Digest>,
    i: int,
    next: Seq<Digest>,
) -> Set<(Digest, Digest)> {
    edges.filter(
        |e: (Digest, Digest)|
            keys.take(i).contains(e.0) || (i < keys.len() && e.0 == keys[i] && next.contains(e.1)),
    )
}

proof fn lemma_condensed_insert(
    few: Set<(Digest, Digest)>,
    many: Set<(Digest, Digest)>,
    number: Map<Digest, usize>,
    from: Digest,
    to: Digest,
)
    requires
        forall|e: (Digest, Digest)| #[trigger] many.contains(e) <==> few.contains(e) || e == (from, to),
    ensures
        condensed(many, number) == (if number[from] != number[to] {
            condensed(few, number).insert((number[from], number[to]))
        } else {
            condensed(few, number)
        }),
{
    let longer = if number[from] != number[to] {
        condensed(few, number).insert((number[from], number[to]))
    } else {
        condensed(few, number)
    };
    assert forall|e: (usize, usize)| condensed(many, number).contains(e) <==> longer.contains(e) by {
        if condensed(many, number).contains(e) {
            let (x, y) = choose|x: Digest, y: Digest| #[trigger]
                many.contains((x, y)) && number[x] == e.0 && number[y] == e.1;
            if few.contains((x, y)) {
                assert(condensed(few, number).contains(e));
            }
        }
        if condensed(few, number).contains(e) {
            let (x, y) = choose|x: Digest, y: Digest| #[trigger]
                few.contains((x, y)) && number[x] == e.0 && number[y] == e.1;
            assert(many.contains((x, y)));
        }
        if number[from] != number[to] && e == (number[from], number[to]) {
            assert(many.contains((from, to)));
        }
    }
    assert(condensed(many, number) =~= longer);
}

/// The causal edges within components, as a graph over the vertices.
fn collect_causal(
    nodes: &[Digest],
    causal_edges: &[(Digest, Digest)],
    number: &OrderedMap<Digest, usize>,
    graph: &OrderedMap<Digest, OrderedSet<Digest>>,
    count: usize,
) -> (outgoing: OrderedMap<Digest, OrderedSet<Digest>>)
    requires
        numbers_components(nodes@.to_set(), graph_edges(graph@), number@, count as nat),
        forall|i: int|
            0 <= i < causal_edges@.len() ==> nodes@.contains((#[trigger] causal_edges@[i]).0)
                && nodes@.contains(causal_edges@[i].1),
    ensures
        outgoing@.dom() == nodes@.to_set(),
        graph_edges(outgoing@) == causal_within(graph_edges(graph@), causal_edges@.to_set()),
{
    let ghost edges = graph_edges(graph@);
    let ghost points = nodes@.to_set();
    let mut outgoing = edgeless(nodes);
    let mut i: usize = 0;
    assert(graph_edges(outgoing@) =~= causal_within(edges, causal_edges@.take(0).to_set()));
    while i < causal_edges.len()
        invariant
            i <= causal_edges@.len(),
            edges == graph_edges(graph@),
            points == nodes@.to_set(),
            numbers_components(points, edges, number@, count as nat),
            forall|j: int|
                0 <= j < causal_edges@.len() ==> nodes@.contains((#[trigger] causal_edges@[j]).0)
                    && nodes@.contains(causal_edges@[j].1),
            outgoing@.dom() == points,
            graph_edges(outgoing@) == causal_within(edges, causal_edges@.take(i as int).to_set()),
        decreases causal_edges.len() - i,
    {
        let (from, to) = causal_edges[i];
        proof {
            assert(causal_edges@[i as int] == (from, to));
            assert(points.contains(from) && points.contains(to));
            lemma_take_next(causal_edges@, i as int);
        }
        let within = match (number.get(&from), number.get(&to)) {
            (Some(a), Some(b)) => *a == *b,
            _ => false,
        };
        assert(within == connected(edges, from, to)) by {
            assert(number@.dom().contains(from) && number@.dom().contains(to));
            assert(number@[from] == number@[to] <==> connected(edges, from, to));
        }
        if within {
            let _ = add_edge(&mut outgoing, from, to);
        }
        proof {
            assert(outgoing@.dom() =~= points);
            assert(graph_edges(outgoing@) =~= causal_within(edges, causal_edges@.take(i + 1).to_set()));
        }
        i = i + 1;
    }
    assert(causal_edges@.take(causal_edges@.len() as int) =~= causal_edges@);
    outgoing
}

/// The lowest rank in each component, by the number of the component.
fn rank_components(components: &Vec<Vec<Digest>>, rank: &OrderedMap<Digest, usize>) -> (
    component_rank: OrderedMap<usize, usize>)
    requires
        forall|c: int| 0 <= c < components@.len() ==> (#[trigger] components@[c])@.len() > 0,
        forall|c: int, x: Digest|
            0 <= c < components@.len() && #[trigger] components@[c]@.contains(x) ==> rank@.contains_key(x),
    ensures
        forall|i: usize| #[trigger] component_rank@.contains_key(i) <==> i < components@.len(),
        forall|i: usize|
            i < components@.len() ==> is_lowest(
                rank@,
                components@[i as int]@,
                #[trigger] component_rank@[i],
            ),
{
    let mut component_rank: OrderedMap<usize, usize> = OrderedMap::new();
    let mut c: usize = 0;
    while c < components.len()
        invariant
            c <= components@.len(),
            forall|d: int| 0 <= d < components@.len() ==> (#[trigger] components@[d])@.len() > 0,
            forall|d: int, x: Digest|
                0 <= d < components@.len() && #[trigger] components@[d]@.contains(x)
                    ==> rank@.contains_key(x),
            forall|i: usize| #[trigger] component_rank@.contains_key(i) <==> i < c,
            forall|i: usize|
                i < c ==> is_lowest(rank@, components@[i as int]@, #[trigger] component_rank@[i]),
        decreases components.len() - c,
    {
        let ghost before = component_rank@;
        let lowest = lowest_rank(&components[c], rank);
        let _ = component_rank.insert(c, lowest);
        proof {
            assert forall|i: usize| i < c + 1 implies is_lowest(
                rank@,
                components@[i as int]@,
                #[trigger] component_rank@[i],
            ) by {
                if i < c {
                    assert(is_lowest(rank@, components@[i as int]@, before[i]));
                }
            }
        }
        c = c + 1;
    }
    component_rank
}

/// Whether `lowest` is the lowest rank of the items.
spec fn is_lowest(rank: Map<Digest, usize>, items: Seq<Digest>, lowest: usize) -> bool {
    &&& exists|x: Digest| #[trigger] items.contains(x) && rank[x] == lowest
    &&& forall|x: Digest| #[trigger] items.contains(x) ==> lowest <= rank[x]
}

fn lowest_rank(items: &Vec<Digest>, rank: &OrderedMap<Digest, usize>) -> (lowest: usize)
    requires
        items@.len() > 0,
        forall|x: Digest| #[trigger] items@.contains(x) ==> rank@.contains_key(x),
    ensures
        is_lowest(rank@, items@, lowest),
{
    let mut lowest: usize = usize::MAX;
    let mut i: usize = 0;
    while i < items.len()
        invariant
            i <= items@.len(),
            forall|x: Digest| #[trigger] items@.contains(x) ==> rank@.contains_key(x),
            i == 0 ==> lowest == usize::MAX,
            i > 0 ==> exists|x: Digest| #[trigger] items@.contains(x) && rank@[x] == lowest,
            forall|j: int| 0 <= j < i ==> lowest <= rank@[#[trigger] items@[j]],
        decreases items.len() - i,
    {
        assert(items@.contains(items@[i as int]));
        let found: usize = *rank.get(&items[i]).expect("vertex must have a rank");
        if i == 0 || found < lowest {
            lowest = found;
        }
        i = i + 1;
    }
    proof {
        assert forall|x: Digest| #[trigger] items@.contains(x) implies lowest <= rank@[x] by {
            let j = items@.index_of(x);
            assert(items@[j] == x);
        }
    }
    lowest
}

/// Fewer edges form no new cycle.
pub proof fn lemma_acyclic_subset<K>(few: Set<(K, K)>, many: Set<(K, K)>)
    requires
        few.subset_of(many),
        acyclic(many),
    ensures
        acyclic(few),
{
    assert forall|x: K| !#[trigger] reach_plus(few, x, x) by {
        if reach_plus(few, x, x) {
            let z = choose|z: K| #[trigger] few.contains((x, z)) && reach(few, z, x);
            lemma_reach_monotone(few, many, z, x);
            assert(many.contains((x, z)));
            assert(reach_plus(many, x, x));
        }
    }
}

/// An order by rank is an order by the fixed key.
proof fn lemma_rank_order_is_key_order(
    certificates: Map<Digest, CertificateModel>,
    nodes: Set<Digest>,
    rank: Map<Digest, usize>,
    edges: Set<(Digest, Digest)>,
    points: Set<Digest>,
    order: Seq<Digest>,
)
    requires
        ranks_by_key(certificates, nodes, rank),
        points.subset_of(nodes),
        is_key_order(edges, points, rank_order(rank), order),
    ensures
        is_key_order(edges, points, tie_order(certificates), order),
{
    assert forall|i: int, x: Digest|
        0 <= i < order.len() && #[trigger] is_ready(edges, points, order.take(i).to_set(), x) && x
            != order[i] implies tie_order(certificates)(order[i], x) by {
        assert(rank_order(rank)(order[i], x));
        assert(is_ready(edges, points, order.take(i).to_set(), order[i]));
        assert(nodes.contains(order[i]) && nodes.contains(x));
        assert(rank[order[i]] < rank[x]);
    }
}

/// Components placed in the key order of their numbers, each in its own key order, make up a
/// linearization.
proof fn lemma_assemble(
    certificates: Map<Digest, CertificateModel>,
    nodes: Set<Digest>,
    edges: Set<(Digest, Digest)>,
    causal: Set<(Digest, Digest)>,
    components: Seq<Seq<Digest>>,
    number: Map<Digest, usize>,
    rank: Map<Digest, usize>,
    component_rank: Map<usize, usize>,
    numbers: Set<usize>,
    placed: Seq<usize>,
    sccs: Seq<Seq<Digest>>,
)
    requires
        forall|a: Digest, b: Digest| #[trigger]
            edges.contains((a, b)) ==> nodes.contains(a) && nodes.contains(b),
        are_components(edges, nodes, components),
        numbers_components(nodes, edges, number, components.len()),
        forall|c: int, x: Digest|
            0 <= c < components.len() && #[trigger] components[c].contains(x) ==> number[x] == c,
        ranks_by_key(certificates, nodes, rank),
        forall|i: usize| #[trigger] numbers.contains(i) <==> i < components.len(),
        forall|i: usize|
            i < components.len() ==> is_lowest(rank, components[i as int], #[trigger] component_rank[i]),
        is_key_order(condensed(edges, number), numbers, rank_order(component_rank), placed),
        sccs.len() == placed.len(),
        forall|p: int|
            0 <= p < sccs.len() ==> (#[trigger] sccs[p]).to_set() == components[placed[p] as int].to_set(),
        forall|p: int|
            0 <= p < sccs.len() ==> is_key_order(
                edges_within(causal_within(edges, causal), sccs[p].to_set()),
                (#[trigger] sccs[p]).to_set(),
                tie_order(certificates),
                sccs[p],
            ),
    ensures
        is_linearization(certificates, nodes, edges, causal, sccs, joined(sccs)),
{
    let turned = condensed(edges, number);
    // Where each component stands.
    assert forall|p: int, x: Digest| 0 <= p < sccs.len() implies (#[trigger] sccs[p].contains(x)
        <==> nodes.contains(x) && number[x] == placed[p]) by {
        assert(placed.to_set().contains(placed[p]));
        assert(numbers.contains(placed[p]));
        let c = placed[p] as int;
        assert(sccs[p].to_set().contains(x) <==> components[c].to_set().contains(x));
        if components[c].contains(x) {
            assert(nodes.contains(x));
        }
        if nodes.contains(x) && number[x] == c {
            let d = choose|d: int| 0 <= d < components.len() && (#[trigger] components[d]).contains(x);
            assert(number[x] == d);
        }
    }
    assert forall|x: Digest| #[trigger] nodes.contains(x) implies exists|p: int|
        0 <= p < sccs.len() && (#[trigger] sccs[p]).contains(x) by {
        assert(numbers.contains(number[x]));
        assert(placed.to_set().contains(number[x]));
        let p = placed.index_of(number[x]);
        assert(placed[p] == number[x]);
        assert(sccs[p].contains(x));
    }
    assert(are_components(edges, nodes, sccs)) by {
        assert forall|p: int| 0 <= p < sccs.len() implies (#[trigger] sccs[p]).len() > 0
            && sccs[p].no_duplicates() by {
            assert(numbers.contains(placed[p])) by {
                assert(placed.to_set().contains(placed[p]));
            }
            let c = placed[p] as int;
            let x = components[c][0];
            assert(components[c].contains(x));
            assert(sccs[p].to_set().contains(x));
        }
        assert forall|p: int, x: Digest, y: Digest|
            #![trigger sccs[p].contains(x), sccs[p].contains(y)]
            0 <= p < sccs.len() && sccs[p].contains(x) implies (sccs[p].contains(y)
            <==> nodes.contains(y) && connected(edges, x, y)) by {
            if nodes.contains(y) {
                assert(number[x] == number[y] <==> connected(edges, x, y));
            }
        }
        assert forall|p: int, q: int, x: Digest|
            #![trigger sccs[p].contains(x), sccs[q].contains(x)]
            0 <= p < q < sccs.len() implies !(sccs[p].contains(x) && sccs[q].contains(x)) by {
            assert(placed[p] != placed[q]);
        }
    }
    assert forall|c: int, d: int, x: Digest, y: Digest|
        #![trigger sccs[c].contains(x), sccs[d].contains(y)]
        0 <= c < sccs.len() && 0 <= d < sccs.len() && sccs[c].contains(x) && sccs[d].contains(y)
            && edges.contains((x, y)) implies c <= d by {
        if c != d {
            assert(placed[c] != placed[d]);
            assert(turned.contains((placed[c], placed[d])));
            assert(is_ready(turned, numbers, placed.take(d).to_set(), placed[d]));
            assert(placed.to_set().contains(placed[c]));
            assert(placed.take(d).to_set().contains(placed[c]));
            let k = placed.take(d).index_of(placed[c]);
            assert(placed[k] == placed[c]);
        }
    }
    assert forall|c: int, d: int|
        0 <= c < d < sccs.len() && #[trigger] component_ready(edges, sccs, c, d) implies leads(
        certificates,
        sccs[c],
        sccs[d],
    ) by {
        let done = placed.take(c).to_set();
        assert(placed.to_set().contains(placed[c]) && placed.to_set().contains(placed[d]));
        assert(numbers.contains(placed[c]) && numbers.contains(placed[d]));
        assert(is_ready(turned, numbers, done, placed[d])) by {
            if done.contains(placed[d]) {
                let k = placed.take(c).index_of(placed[d]);
                assert(placed[k] == placed[d]);
            }
            assert forall|i: usize|
                numbers.contains(i) && #[trigger] turned.contains((i, placed[d])) implies done.contains(i) by {
                let (x, y) = choose|x: Digest, y: Digest| #[trigger]
                    edges.contains((x, y)) && number[x] == i && number[y] == placed[d];
                assert(sccs[d].contains(y));
                assert(!sccs[d].contains(x));
                let b = choose|b: int| 0 <= b < c && (#[trigger] sccs[b]).contains(x);
                assert(placed[b] == i);
                assert(placed.take(c)[b] == i);
            }
        }
        assert(placed[c] != placed[d]);
        assert(rank_order(component_rank)(placed[c], placed[d]));
        let low_c = component_rank[placed[c]];
        let low_d = component_rank[placed[d]];
        assert(is_lowest(rank, components[placed[c] as int], low_c));
        assert(is_lowest(rank, components[placed[d] as int], low_d));
        let m = choose|x: Digest| #[trigger]
            components[placed[c] as int].contains(x) && rank[x] == low_c;
        let n0 = choose|x: Digest| #[trigger]
            components[placed[d] as int].contains(x) && rank[x] == low_d;
        assert(sccs[c].to_set().contains(m));
        assert(sccs[c].contains(m));
        assert(sccs[d].to_set().contains(n0));
        assert(sccs[d].contains(n0));
        assert(nodes.contains(m) && nodes.contains(n0));
        if low_c == low_d {
            assert(rank[m] == rank[n0]);
            assert(m == n0);
        }
        assert forall|n: Digest| #[trigger] sccs[d].contains(n) implies tie_before(certificates, m, n) by {
            assert(sccs[d].to_set().contains(n));
            assert(components[placed[d] as int].contains(n));
            assert(low_d <= rank[n]);
            assert(rank[m] < rank[n]);
        }
    }
}

impl MrvExecutor {
    /// Orders the members of a component by the causal edges alone; where they leave a choice, the
    /// lowest rank comes first.
    pub fn topological_sort_causal_component(
        &self,
        members: &[Digest],
        causal_outgoing: &OrderedMap<Digest, OrderedSet<Digest>>,
        node_rank: &OrderedMap<Digest, usize>,
    ) -> (order: Vec<Digest>)
        requires
            members@.no_duplicates(),
            members@.to_set().subset_of(causal_outgoing@.dom()),
            members@.to_set().subset_of(node_rank@.dom()),
            forall|x: Digest, y: Digest|
                members@.contains(x) && #[trigger] graph_edges(causal_outgoing@).contains((x, y))
                    ==> members@.contains(y),
            acyclic(edges_within(graph_edges(causal_outgoing@), members@.to_set())),
        ensures
            is_key_order(
                edges_within(graph_edges(causal_outgoing@), members@.to_set()),
                members@.to_set(),
                rank_order(node_rank@),
                order@,
            ),
    {
        topological_sort(members, causal_outgoing, node_rank)
    }

    /// Completes the graph to a total order: its strongly connected components in topological
    /// order, the vertices of each in causal order, and the fixed key for residual choices.
    pub fn linearize_graph(
        &self,
        nodes: &[Digest],
        graph: &OrderedMap<Digest, OrderedSet<Digest>>,
        causal_edges: &[(Digest, Digest)],
    ) -> (linearization: Linearization)
        requires
            nodes@.no_duplicates(),
            nodes@.to_set().subset_of(self.store@.dom()),
            graph_within(graph@, nodes@.to_set()),
            forall|i: int|
                0 <= i < causal_edges@.len() ==> nodes@.contains((#[trigger] causal_edges@[i]).0)
                    && nodes@.contains(causal_edges@[i].1),
            acyclic(causal_within(graph_edges(graph@), causal_edges@.to_set())),
        ensures
            is_linearization(
                self.certificates(),
                nodes@.to_set(),
                graph_edges(graph@),
                causal_edges@.to_set(),
                lists(linearization.ordered_sccs@),
                linearization.order@,
            ),
            linearization.order@.no_duplicates(),
            linearization.order@.to_set() == nodes@.to_set(),
            linearization.order@.len() == nodes@.len(),
            numbers_components(
                nodes@.to_set(),
                graph_edges(graph@),
                linearization.node_to_component@,
                linearization.ordered_sccs@.len(),
            ),
            graph_edges(linearization.component_graph@) == condensed(
                graph_edges(graph@),
                linearization.node_to_component@,
            ),
            forall|i: usize| #[trigger]
                linearization.component_graph@.contains_key(i) <==> i
                    < linearization.ordered_sccs@.len(),
    {
        let ghost certificates = self.certificates();
        let ghost points = nodes@.to_set();
        let ghost edges = graph_edges(graph@);
        let ghost causal = causal_edges@.to_set();
        let ghost within = causal_within(edges, causal);
        assert forall|a: Digest, b: Digest| #[trigger] edges.contains((a, b)) implies points.contains(a)
            && points.contains(b) by {
            assert(graph@.dom().contains(a));
        }
        let components = find_scc(nodes, graph);
        let ghost parts = lists(components@);
        assert forall|c: int| 0 <= c < components@.len() implies #[trigger] parts[c] == components@[c]@ by {}
        let count = components.len();
        let node_rank = self.rank_nodes(nodes);
        let node_to_component = number_components(nodes, graph, &components);
        let component_graph = condense(graph, &node_to_component, count);
        let causal_outgoing = collect_causal(nodes, causal_edges, &node_to_component, graph, count);
        proof {
            assert forall|c: int, x: Digest|
                0 <= c < components@.len() && #[trigger] components@[c]@.contains(x) implies node_rank@.contains_key(
                x,
            ) by {
                assert(parts[c].contains(x));
                assert(node_rank@.dom().contains(x));
            }
            assert forall|c: int| 0 <= c < components@.len() implies (#[trigger] components@[c])@.len() > 0 by {
                assert(parts[c].len() > 0);
            }
        }
        let component_rank = rank_components(&components, &node_rank);
        let mut numbers: Vec<usize> = Vec::new();
        let mut k: usize = 0;
        while k < count
            invariant
                k <= count,
                numbers@.len() == k,
                forall|j: int| 0 <= j < k ==> #[trigger] numbers@[j] == j,
            decreases count - k,
        {
            numbers.push(k);
            k = k + 1;
        }
        let ghost number_set = numbers@.to_set();
        let ghost turned = condensed(edges, node_to_component@);
        proof {
            assert forall|i: usize| #[trigger] number_set.contains(i) <==> i < count by {
                if i < count {
                    assert(numbers@[i as int] == i);
                }
            }
            assert forall|x: usize, y: usize| #[trigger] turned.contains((x, y)) implies x < count && y < count by {
                let (a, b) = choose|a: Digest, b: Digest| #[trigger]
                    edges.contains((a, b)) && node_to_component@[a] == x && node_to_component@[b] == y;
            }
            assert forall|x: usize, y: usize|
                numbers@.contains(x) && #[trigger] graph_edges(component_graph@).contains(
                    (x, y),
                ) implies numbers@.contains(y) by {
                assert(number_set.contains(y));
            }
            assert(edges_within(turned, number_set) =~= turned) by {
                assert forall|e: (usize, usize)| turned.contains(e) implies number_set.contains(e.0) by {
                    assert(turned.contains((e.0, e.1)));
                }
            }
            lemma_condensed_acyclic(points, edges, node_to_component@, components@.len());
        }
        let placed = topological_sort(&numbers, &component_graph, &component_rank);
        let mut ordered_sccs: Vec<Vec<Digest>> = Vec::new();
        let mut order: Vec<Digest> = Vec::new();
        let mut p: usize = 0;
        assert(lists(ordered_sccs@) =~= Seq::<Seq<Digest>>::empty());
        while p < placed.len()
            invariant
                p <= placed@.len(),
                points == nodes@.to_set(),
                edges == graph_edges(graph@),
                causal == causal_edges@.to_set(),
                within == causal_within(edges, causal),
                certificates == self.certificates(),
                are_components(edges, points, parts),
                parts == lists(components@),
                count == components@.len(),
                causal_outgoing@.dom() == points,
                graph_edges(causal_outgoing@) == within,
                forall|i: int|
                    0 <= i < causal_edges@.len() ==> nodes@.contains((#[trigger] causal_edges@[i]).0)
                        && nodes@.contains(causal_edges@[i].1),
                acyclic(within),
                ranks_by_key(certificates, points, node_rank@),
                placed@.to_set() == number_set,
                forall|i: usize| #[trigger] number_set.contains(i) <==> i < count,
                ordered_sccs@.len() == p,
                order@ == joined(lists(ordered_sccs@)),
                forall|q: int|
                    0 <= q < p ==> (#[trigger] ordered_sccs@[q])@.to_set() == parts[placed@[q] as int].to_set(),
                forall|q: int|
                    0 <= q < p ==> is_key_order(
                        edges_within(within, ordered_sccs@[q]@.to_set()),
                        (#[trigger] ordered_sccs@[q])@.to_set(),
                        tie_order(certificates),
                        ordered_sccs@[q]@,
                    ),
            decreases placed.len() - p,
        {
            let current = placed[p];
            proof {
                assert(placed@.to_set().contains(placed@[p as int]));
                assert(number_set.contains(current));
            }
            let ghost members = parts[current as int];
            let ghost before = ordered_sccs@;
            proof {
                assert(members == components@[current as int]@);
                assert forall|x: Digest| members.to_set().contains(x) implies points.contains(x) by {
                    assert(parts[current as int].contains(x));
                }
                assert forall|x: Digest, y: Digest|
                    members.contains(x) && #[trigger] within.contains((x, y)) implies members.contains(y) by {
                    assert(parts[current as int].contains(x));
                    let i = causal_edges@.index_of((x, y));
                    assert(causal_edges@[i] == (x, y));
                    assert(points.contains(y));
                    assert(parts[current as int].contains(y) <==> points.contains(y) && connected(
                        edges,
                        x,
                        y,
                    ));
                }
                lemma_acyclic_subset(edges_within(within, members.to_set()), within);
            }
            let component_order = self.topological_sort_causal_component(
                &components[current],
                &causal_outgoing,
                &node_rank,
            );
            let ghost sorted = component_order@;
            proof {
                lemma_rank_order_is_key_order(
                    certificates,
                    points,
                    node_rank@,
                    edges_within(within, members.to_set()),
                    members.to_set(),
                    sorted,
                );
            }
            extend(&mut order, &component_order);
            ordered_sccs.push(component_order);
            proof {
                lemma_joined_push(lists(before), sorted);
                assert(lists(ordered_sccs@) =~= lists(before).push(sorted));
                assert forall|q: int| 0 <= q < p + 1 implies (#[trigger] ordered_sccs@[q])@.to_set()
                    == parts[placed@[q] as int].to_set() by {
                    if q < p {
                        assert(ordered_sccs@[q] == before[q]);
                    }
                }
                assert forall|q: int| 0 <= q < p + 1 implies is_key_order(
                    edges_within(within, ordered_sccs@[q]@.to_set()),
                    (#[trigger] ordered_sccs@[q])@.to_set(),
                    tie_order(certificates),
                    ordered_sccs@[q]@,
                ) by {
                    if q < p {
                        assert(ordered_sccs@[q] == before[q]);
                    }
                }
            }
            p = p + 1;
        }
        proof {
            let sccs = lists(ordered_sccs@);
            assert forall|q: int| 0 <= q < sccs.len() implies #[trigger] sccs[q] == ordered_sccs@[q]@ by {}
            assert forall|q: int| 0 <= q < sccs.len() implies (#[trigger] sccs[q]).to_set()
                == parts[placed@[q] as int].to_set() by {
                assert(ordered_sccs@[q]@.to_set() == parts[placed@[q] as int].to_set());
            }
            assert forall|q: int| 0 <= q < sccs.len() implies is_key_order(
                edges_within(causal_within(edges, causal), sccs[q].to_set()),
                (#[trigger] sccs[q]).to_set(),
                tie_order(certificates),
                sccs[q],
            ) by {
                assert(ordered_sccs@[q]@ == sccs[q]);
            }
            assert forall|c: int, x: Digest|
                0 <= c < parts.len() && #[trigger] parts[c].contains(x) implies node_to_component@[x] == c by {
                assert(components@[c]@.contains(x));
            }
            assert forall|i: usize| i < parts.len() implies is_lowest(
                node_rank@,
                parts[i as int],
                #[trigger] component_rank@[i],
            ) by {
                assert(parts[i as int] == components@[i as int]@);
            }
            lemma_assemble(
                certificates,
                points,
                edges,
                causal,
                parts,
                node_to_component@,
                node_rank@,
                component_rank@,
                number_set,
                placed@,
                sccs,
            );
            lemma_components_joined(edges, points, sccs);
            order@.unique_seq_to_set();
            nodes@.unique_seq_to_set();
            placed@.unique_seq_to_set();
            numbers@.unique_seq_to_set();
        }
        Linearization { ordered_sccs, order, node_to_component, component_graph }
    }
}

/// Appends the items.
fn extend(list: &mut Vec<Digest>, items: &Vec<Digest>)
    ensures
        final(list)@ == old(list)@ + items@,
{
    let ghost before = list@;
    let mut i: usize = 0;
    while i < items.len()
        invariant
            i <= items@.len(),
            list@ == before + items@.take(i as int),
        decreases items.len() - i,
    {
        list.push(items[i]);
        assert(list@ =~= before + items@.take(i + 1));
        i = i + 1;
    }
    assert(list@ =~= before + items@);
}

} // verus!

//! What is counted of a slice.

use vstd::prelude::*;

use crate::counting::{
    ascending, count_where, is_kth_smallest, lemma_ascending_kth, lemma_count_insert,
    lemma_count_push, lemma_count_same, lemma_kth_unique,
};
use crate::determinism::lemma_by_key_exists;
use crate::metrics::{
    displacement, displacements, intervention, inverted, law_position, pair_constrained, position,
};
use crate::ordered::OrderedSet;
use crate::ordering::{
    all_pairs, by_key, edge_and, incomparable_and, largest, lemma_pairs_before, lemma_verdict_flips,
    ordered_by_graph, pair_row, pairs_before, slice_metrics, total_length, Snapshot,
};
use crate::ordering_laws::precedes;
use crate::relation::{connected, reach};
use crate::state::OrderingMetrics;
use crate::tie_break::{lemma_tie_sorted_distinct, lemma_tie_total, tie_before};
use crate::types::Digest;
use crate::visibility::{eligible, PairVerdict};

verus! {

/// Of an empty list nothing counts; a further item counts just if it is wanted.
pub proof fn law_count<A>(items: Seq<A>, keep: spec_fn(A) -> bool, x: A)
    ensures
        count_where(Seq::<A>::empty(), keep) == 0,
        keep(x) ==> count_where(items.push(x), keep) == count_where(items, keep) + 1,
        !keep(x) ==> count_where(items.push(x), keep) == count_where(items, keep),
{
    lemma_count_push(items, keep, x);
}

/// Of different items, as many count as there are wanted ones.
pub proof fn law_count_is_a_size<A>(items: Seq<A>, keep: spec_fn(A) -> bool)
    requires
        items.no_duplicates(),
    ensures
        items.to_set().filter(keep).finite(),
        count_where(items, keep) == items.to_set().filter(keep).len(),
    decreases items.len(),
{
    if items.len() == 0 {
        assert(items.to_set().filter(keep) =~= Set::<A>::empty());
    } else {
        let init = items.drop_last();
        let last = items.last();
        assert forall|i: int, j: int|
            0 <= i < init.len() && 0 <= j < init.len() && i != j implies init[i] != init[j] by {
            assert(items[i] != items[j]);
        }
        law_count_is_a_size(init, keep);
        let few = init.to_set().filter(keep);
        assert(!init.contains(last)) by {
            if init.contains(last) {
                let k = init.index_of(last);
                assert(items[k] == items[items.len() - 1]);
            }
        }
        assert forall|x: A| items.to_set().contains(x) <==> init.to_set().contains(x) || x
            == last by {
            if items.contains(x) {
                let k = items.index_of(x);
                if k < init.len() {
                    assert(init[k] == x);
                }
            }
            if init.contains(x) {
                let k = init.index_of(x);
                assert(items[k] == x);
            }
            assert(items[items.len() - 1] == last);
        }
        if keep(last) {
            assert(items.to_set().filter(keep) =~= few.insert(last));
        } else {
            assert(items.to_set().filter(keep) =~= few);
        }
    }
}

/// The longest list is one of the lists, and none is longer.
pub proof fn law_largest(parts: Seq<Seq<Digest>>, i: int)
    ensures
        0 <= i < parts.len() ==> parts[i].len() <= largest(parts),
        parts.len() == 0 ==> largest(parts) == 0,
        parts.len() > 0 ==> exists|k: int|
            0 <= k < parts.len() && (#[trigger] parts[k]).len() == largest(parts),
    decreases parts.len(),
{
    if parts.len() > 0 {
        let init = parts.drop_last();
        law_largest(init, i);
        if parts.last().len() > largest(init) {
            assert(parts[parts.len() - 1].len() == largest(parts));
        } else if init.len() > 0 {
            let k = choose|k: int| 0 <= k < init.len() && (#[trigger] init[k]).len() == largest(init);
            assert(parts[k].len() == largest(parts));
        } else {
            assert(parts[0].len() == largest(parts));
        }
        if 0 <= i < init.len() {
            assert(init[i] == parts[i]);
        }
    }
}

/// A further list adds its length just if it is wanted.
pub proof fn law_total_length(
    parts: Seq<Seq<Digest>>,
    keep: spec_fn(Seq<Digest>) -> bool,
    part: Seq<Digest>,
)
    ensures
        total_length(Seq::empty(), keep) == 0,
        keep(part) ==> total_length(parts.push(part), keep) == total_length(parts, keep)
            + part.len(),
        !keep(part) ==> total_length(parts.push(part), keep) == total_length(parts, keep),
{
    assert(parts.push(part).drop_last() =~= parts);
}

/// The place of a vertex that is listed once is where it stands.
pub proof fn law_place(items: Seq<Digest>, i: int)
    requires
        items.no_duplicates(),
        0 <= i < items.len(),
    ensures
        position(items, items[i]) == i,
{
    assert(items.contains(items[i]));
    law_position(items, items[i]);
}

/// A pair is inverted just if one order puts its first vertex before the second and the other does
/// not.
pub proof fn law_inverted(base: Seq<Digest>, order: Seq<Digest>, a: Digest, b: Digest)
    requires
        base.no_duplicates(),
        order.no_duplicates(),
        base.contains(a) && base.contains(b),
        order.contains(a) && order.contains(b),
    ensures
        inverted(base, order, (a, b)) <==> precedes(base, a, b) != precedes(order, a, b),
{
    lemma_precedes(base, a, b);
    lemma_precedes(order, a, b);
}

proof fn lemma_precedes(items: Seq<Digest>, a: Digest, b: Digest)
    requires
        items.no_duplicates(),
        items.contains(a),
        items.contains(b),
    ensures
        precedes(items, a, b) <==> position(items, a) < position(items, b),
{
    law_position(items, a);
    law_position(items, b);
    let p = position(items, a);
    let q = position(items, b);
    assert(items[p] == a && items[q] == b);
    if precedes(items, a, b) {
        let (i, j) = choose|i: int, j: int|
            0 <= i < j < items.len() && #[trigger] items[i] == a && #[trigger] items[j] == b;
        assert(items[i] == items[p] && items[j] == items[q]);
    }
}

/// A vertex has moved by as many places as lie between where it stood and where it stands.
pub proof fn law_displacement(base: Seq<Digest>, order: Seq<Digest>, i: int, j: int)
    requires
        base.no_duplicates(),
        order.no_duplicates(),
        0 <= i < base.len(),
        0 <= j < order.len(),
        base[i] == order[j],
        base.len() <= usize::MAX,
        order.len() <= usize::MAX,
    ensures
        i <= j ==> displacement(base, order, base[i]) == j - i,
        j <= i ==> displacement(base, order, base[i]) == i - j,
        displacements(base, order).len() == base.len(),
        displacements(base, order)[i] == displacement(base, order, base[i]),
{
    law_place(base, i);
    law_place(order, j);
}

/// The item at a place of the ascending order is the one that stands there once the items are
/// sorted.
pub proof fn law_kth_smallest(items: Seq<usize>, sorted: Seq<usize>, k: int, value: usize)
    requires
        sorted.to_multiset() == items.to_multiset(),
        forall|i: int, j: int|
            0 <= i <= j < sorted.len() ==> #[trigger] sorted[i] <= #[trigger] sorted[j],
        0 <= k < sorted.len(),
    ensures
        is_kth_smallest(items, k, value) <==> value == sorted[k],
{
    assert(ascending(sorted));
    lemma_ascending_kth(sorted, k);
    let top = sorted[k];
    lemma_count_permuted(items, sorted, |x: usize| x < top);
    lemma_count_permuted(items, sorted, |x: usize| x <= top);
    if is_kth_smallest(items, k, value) {
        lemma_kth_unique(items, k, value, top);
    }
}

proof fn lemma_count_permuted<A>(one: Seq<A>, other: Seq<A>, keep: spec_fn(A) -> bool)
    requires
        one.to_multiset() == other.to_multiset(),
    ensures
        count_where(one, keep) == count_where(other, keep),
    decreases one.len(),
{
    broadcast use vstd::seq_lib::group_to_multiset_ensures;

    assert(one.len() == one.to_multiset().len() == other.len());
    if one.len() > 0 {
        let last = one.last();
        let init = one.drop_last();
        assert(one.contains(last));
        assert(other.to_multiset().count(last) > 0);
        let k = other.index_of(last);
        assert(other[k] == last);
        let rest = other.remove(k);
        assert(init.push(last) =~= one);
        assert(init.to_multiset() =~= one.to_multiset().remove(last));
        assert(rest.to_multiset() == other.to_multiset().remove(last));
        lemma_count_permuted(init, rest, keep);
        assert(other =~= rest.insert(k, last));
        lemma_count_insert(rest, keep, k, last);
    }
}

/// The median lies between the two middle displacements, and the high percentile is the lowest
/// displacement that at least 95 of 100 vertices do not exceed. Displacements are measured against
/// the largest one possible.
pub proof fn law_displacement_summary(
    s: Snapshot,
    base: Seq<Digest>,
    components: Seq<Seq<Digest>>,
    order: Seq<Digest>,
    m: OrderingMetrics,
    sorted: Seq<usize>,
    k: int,
)
    requires
        slice_metrics(s, base, components, order, m),
        base.len() > 0,
        sorted.to_multiset() == displacements(base, order).to_multiset(),
        sorted.len() == base.len(),
        forall|i: int, j: int|
            0 <= i <= j < sorted.len() ==> #[trigger] sorted[i] <= #[trigger] sorted[j],
        100 * k < 95 * base.len() <= 100 * (k + 1),
    ensures
        base.len() % 2 == 1 ==> m.position_displacement_median_low == sorted[base.len() as int / 2]
            && m.position_displacement_median_high == sorted[base.len() as int / 2],
        base.len() % 2 == 0 ==> m.position_displacement_median_low == sorted[base.len() as int / 2
            - 1] && m.position_displacement_median_high == sorted[base.len() as int / 2],
        0 <= k < base.len(),
        m.position_displacement_p95 == sorted[k],
        base.len() >= 2 ==> m.position_displacement_denominator == base.len() - 1,
        base.len() == 1 ==> m.position_displacement_denominator == 1,
{
    let n = base.len() as int;
    let moves = displacements(base, order);
    assert((95 * n + 99) / 100 - 1 == k);
    law_kth_smallest(moves, sorted, (n - 1) / 2, m.position_displacement_median_low);
    law_kth_smallest(moves, sorted, n / 2, m.position_displacement_median_high);
    law_kth_smallest(moves, sorted, k, m.position_displacement_p95);
}

/// As many vertices have moved as do not stand in the resulting order where they were committed. A
/// slice is unchanged just if none has.
pub proof fn law_moved(
    s: Snapshot,
    base: Seq<Digest>,
    components: Seq<Seq<Digest>>,
    order: Seq<Digest>,
    m: OrderingMetrics,
)
    requires
        slice_metrics(s, base, components, order, m),
        base.no_duplicates(),
        order.no_duplicates(),
        order.to_set() == base.to_set(),
    ensures
        m.moved_vertex_count == base.to_set().filter(
            |x: Digest|
                !exists|k: int|
                    0 <= k < base.len() && k < order.len() && #[trigger] base[k] == x && order[k]
                        == x,
        ).len(),
        m.unchanged_slice <==> base == order,
{
    let moved = |x: Digest| position(base, x) != position(order, x);
    let stands = |x: Digest|
        !exists|k: int|
            0 <= k < base.len() && k < order.len() && #[trigger] base[k] == x && order[k] == x;
    assert forall|i: int| 0 <= i < base.len() implies moved(#[trigger] base[i]) == stands(base[i]) by {
        let x = base[i];
        assert(base.to_set().contains(x));
        assert(order.to_set().contains(x));
        law_place(base, i);
        law_position(order, x);
        let j = position(order, x);
        if !stands(x) {
            let k = choose|k: int|
                0 <= k < base.len() && k < order.len() && #[trigger] base[k] == x && order[k] == x;
            assert(base[k] == base[i]);
            assert(order[k] == order[j]);
        }
        if i == j {
            assert(base[i] == x && order[i] == x);
        }
    }
    lemma_count_same(base, moved, stands);
    law_count_is_a_size(base, stands);
}

/// How many vertices are eligible, and how many are not.
pub proof fn law_vertex_counts(
    s: Snapshot,
    base: Seq<Digest>,
    components: Seq<Seq<Digest>>,
    order: Seq<Digest>,
    m: OrderingMetrics,
)
    requires
        slice_metrics(s, base, components, order, m),
        base.no_duplicates(),
    ensures
        m.eligible_vertex_count == base.to_set().filter(
            |x: Digest| eligible(s.evidence, s.window, s.quorum, x),
        ).len(),
        m.ineligible_vertex_count == base.to_set().filter(
            |x: Digest| !eligible(s.evidence, s.window, s.quorum, x),
        ).len(),
        m.scc_count == components.len(),
        m.nontrivial_scc_count == count_where(components, |part: Seq<Digest>| part.len() >= 2),
        m.vertices_in_nontrivial_sccs == total_length(
            components,
            |part: Seq<Digest>| part.len() >= 2,
        ),
        m.max_scc_size == largest(components),
{
    let nodes = by_key(s.certificates, base.to_set());
    lemma_by_key_exists(s.certificates, base);
    lemma_tie_sorted_distinct(s.certificates, nodes);
    let yes = |x: Digest| eligible(s.evidence, s.window, s.quorum, x);
    let no = |x: Digest| !eligible(s.evidence, s.window, s.quorum, x);
    lemma_count_same(nodes, |x: Digest| s.is_eligible(x), yes);
    lemma_count_same(nodes, |x: Digest| !s.is_eligible(x), no);
    law_count_is_a_size(nodes, yes);
    law_count_is_a_size(nodes, no);
    lemma_count_same(
        components,
        |part: Seq<Digest>| part.len() > 1,
        |part: Seq<Digest>| part.len() >= 2,
    );
    lemma_total_same(
        components,
        |part: Seq<Digest>| part.len() > 1,
        |part: Seq<Digest>| part.len() >= 2,
    );
}

proof fn lemma_total_same(
    parts: Seq<Seq<Digest>>,
    one: spec_fn(Seq<Digest>) -> bool,
    other: spec_fn(Seq<Digest>) -> bool,
)
    requires
        forall|part: Seq<Digest>| #[trigger] one(part) == other(part),
    ensures
        total_length(parts, one) == total_length(parts, other),
    decreases parts.len(),
{
    if parts.len() > 0 {
        lemma_total_same(parts.drop_last(), one, other);
    }
}

/// The pairs of different vertices that are wanted, each once: in the order of the fixed key.
pub open spec fn pairs_of(
    s: Snapshot,
    base: Seq<Digest>,
    keep: spec_fn((Digest, Digest)) -> bool,
) -> Set<(Digest, Digest)> {
    Set::new(
        |p: (Digest, Digest)|
            base.contains(p.0) && base.contains(p.1) && tie_before(s.certificates, p.0, p.1)
                && keep(p),
    )
}

proof fn lemma_pairs_distinct(nodes: Seq<Digest>, i: int)
    requires
        nodes.no_duplicates(),
        0 <= i <= nodes.len(),
    ensures
        pairs_before(nodes, i).no_duplicates(),
    decreases i,
{
    if i > 0 {
        let front = pairs_before(nodes, i - 1);
        let row = pair_row(nodes, i - 1);
        let all = front + row;
        lemma_pairs_distinct(nodes, i - 1);
        assert forall|x: int, y: int|
            0 <= x < all.len() && 0 <= y < all.len() && x != y implies all[x] != all[y] by {
            if x < front.len() && y >= front.len() {
                lemma_front_row(nodes, i, x, y - front.len());
            } else if y < front.len() && x >= front.len() {
                lemma_front_row(nodes, i, y, x - front.len());
            } else if x >= front.len() {
                let u = x - front.len();
                let v = y - front.len();
                assert(row[u].1 == nodes[i + u] && row[v].1 == nodes[i + v]);
            }
        }
        assert(pairs_before(nodes, i) =~= all);
    }
}

proof fn lemma_front_row(nodes: Seq<Digest>, i: int, x: int, y: int)
    requires
        nodes.no_duplicates(),
        0 < i <= nodes.len(),
        0 <= x < pairs_before(nodes, i - 1).len(),
        0 <= y < pair_row(nodes, i - 1).len(),
    ensures
        pairs_before(nodes, i - 1)[x] != pair_row(nodes, i - 1)[y],
{
    let p = pairs_before(nodes, i - 1)[x];
    assert(pairs_before(nodes, i - 1).contains(p));
    lemma_pairs_before(nodes, i - 1, p);
    let (a, b) = choose|a: int, b: int|
        0 <= a < i - 1 && a < b < nodes.len() && p == (#[trigger] nodes[a], #[trigger] nodes[b]);
    assert(nodes[a] != nodes[i - 1]);
}

/// Counting pairs of a list is counting the wanted pairs.
proof fn lemma_pairs_count(
    s: Snapshot,
    base: Seq<Digest>,
    count: spec_fn((Digest, Digest)) -> bool,
    keep: spec_fn((Digest, Digest)) -> bool,
)
    requires
        base.no_duplicates(),
        forall|a: Digest, b: Digest|
            base.contains(a) && base.contains(b) && a != b ==> #[trigger] count((a, b)) == keep(
                (a, b),
            ),
    ensures
        count_where(all_pairs(by_key(s.certificates, base.to_set())), count) == pairs_of(
            s,
            base,
            keep,
        ).len(),
{
    let nodes = by_key(s.certificates, base.to_set());
    let pairs = all_pairs(nodes);
    let n = nodes.len() as int;
    lemma_by_key_exists(s.certificates, base);
    lemma_tie_sorted_distinct(s.certificates, nodes);
    lemma_pairs_distinct(nodes, n);
    law_count_is_a_size(pairs, count);
    assert forall|p: (Digest, Digest)| pairs.to_set().filter(count).contains(p) <==> pairs_of(
        s,
        base,
        keep,
    ).contains(p) by {
        lemma_pairs_before(nodes, n, p);
        assert(nodes.to_set().contains(p.0) <==> base.to_set().contains(p.0));
        assert(nodes.to_set().contains(p.1) <==> base.to_set().contains(p.1));
        if pairs.contains(p) {
            let (a, b) = choose|a: int, b: int|
                0 <= a < n && a < b < nodes.len() && p == (#[trigger] nodes[a], #[trigger] nodes[b]);
            assert(tie_before(s.certificates, nodes[a], nodes[b]));
            assert(nodes.to_set().contains(nodes[a]) && nodes.to_set().contains(nodes[b]));
            assert(nodes[a] != nodes[b]);
            assert(count((p.0, p.1)) == keep((p.0, p.1)));
        }
        if base.contains(p.0) && base.contains(p.1) && tie_before(s.certificates, p.0, p.1) {
            lemma_tie_total(s.certificates, p.0, p.1);
            assert(nodes.to_set().contains(p.0) && nodes.to_set().contains(p.1));
            let a = nodes.index_of(p.0);
            let b = nodes.index_of(p.1);
            assert(nodes[a] == p.0 && nodes[b] == p.1);
            if b < a {
                assert(tie_before(s.certificates, nodes[b], nodes[a]));
            }
            assert(count((p.0, p.1)) == keep((p.0, p.1)));
        }
    }
    assert(pairs.to_set().filter(count) =~= pairs_of(s, base, keep));
}

/// How many pairs are causally related, and how many of the others are eligible, get an edge, are
/// in conflict or show no signal. Every pair counts once.
pub proof fn law_pair_counts(
    s: Snapshot,
    base: Seq<Digest>,
    components: Seq<Seq<Digest>>,
    order: Seq<Digest>,
    m: OrderingMetrics,
)
    requires
        slice_metrics(s, base, components, order, m),
        base.no_duplicates(),
    ensures
        m.causal_pair_count == pairs_of(
            s,
            base,
            |p: (Digest, Digest)| s.causal(p.0, p.1) || s.causal(p.1, p.0),
        ).len(),
        m.incomparable_pair_count == pairs_of(
            s,
            base,
            |p: (Digest, Digest)| !s.causal(p.0, p.1) && !s.causal(p.1, p.0),
        ).len(),
        m.eligible_pair_count == pairs_of(
            s,
            base,
            |p: (Digest, Digest)|
                !s.causal(p.0, p.1) && !s.causal(p.1, p.0) && s.is_eligible(p.0) && s.is_eligible(
                    p.1,
                ),
        ).len(),
        m.ineligible_pair_count == pairs_of(
            s,
            base,
            |p: (Digest, Digest)|
                !s.causal(p.0, p.1) && !s.causal(p.1, p.0) && !(s.is_eligible(p.0)
                    && s.is_eligible(p.1)),
        ).len(),
        m.edge_count == pairs_of(
            s,
            base,
            |p: (Digest, Digest)| s.visible_first(p.0, p.1) || s.visible_first(p.1, p.0),
        ).len(),
        m.conflict_count == pairs_of(
            s,
            base,
            |p: (Digest, Digest)|
                !s.causal(p.0, p.1) && !s.causal(p.1, p.0) && s.verdict(p.0, p.1)
                    == PairVerdict::Conflict,
        ).len(),
        m.no_signal_count == pairs_of(
            s,
            base,
            |p: (Digest, Digest)|
                !s.causal(p.0, p.1) && !s.causal(p.1, p.0) && s.verdict(p.0, p.1)
                    == PairVerdict::NoSignal,
        ).len(),
{
    assert forall|a: Digest, b: Digest| s.visible_first(a, b) || s.visible_first(b, a)
        <==> a != b && !s.comparable(a, b) && #[trigger] s.has_edge((a, b)) by {
        lemma_verdict_flips(s, a, b);
    }
    lemma_pairs_count(
        s,
        base,
        |p: (Digest, Digest)| s.comparable(p.0, p.1),
        |p: (Digest, Digest)| s.causal(p.0, p.1) || s.causal(p.1, p.0),
    );
    lemma_pairs_count(
        s,
        base,
        incomparable_and(s, |p: (Digest, Digest)| true),
        |p: (Digest, Digest)| !s.causal(p.0, p.1) && !s.causal(p.1, p.0),
    );
    lemma_pairs_count(
        s,
        base,
        |p: (Digest, Digest)|
            !s.comparable(p.0, p.1) && s.is_eligible(p.0) && s.is_eligible(p.1),
        |p: (Digest, Digest)|
            !s.causal(p.0, p.1) && !s.causal(p.1, p.0) && s.is_eligible(p.0) && s.is_eligible(p.1),
    );
    lemma_pairs_count(
        s,
        base,
        |p: (Digest, Digest)|
            !s.comparable(p.0, p.1) && s.verdict(p.0, p.1) == PairVerdict::Ineligible,
        |p: (Digest, Digest)|
            !s.causal(p.0, p.1) && !s.causal(p.1, p.0) && !(s.is_eligible(p.0) && s.is_eligible(
                p.1,
            )),
    );
    lemma_pairs_count(
        s,
        base,
        edge_and(s, |p: (Digest, Digest)| true),
        |p: (Digest, Digest)| s.visible_first(p.0, p.1) || s.visible_first(p.1, p.0),
    );
    lemma_pairs_count(
        s,
        base,
        |p: (Digest, Digest)|
            !s.comparable(p.0, p.1) && s.verdict(p.0, p.1) == PairVerdict::Conflict,
        |p: (Digest, Digest)|
            !s.causal(p.0, p.1) && !s.causal(p.1, p.0) && s.verdict(p.0, p.1)
                == PairVerdict::Conflict,
    );
    lemma_pairs_count(
        s,
        base,
        |p: (Digest, Digest)|
            !s.comparable(p.0, p.1) && s.verdict(p.0, p.1) == PairVerdict::NoSignal,
        |p: (Digest, Digest)|
            !s.causal(p.0, p.1) && !s.causal(p.1, p.0) && s.verdict(p.0, p.1)
                == PairVerdict::NoSignal,
    );
}

/// How many unrelated pairs the graph orders, how many visibility edges stay within a component,
/// and how many unrelated pairs the resulting order turns around, with the graph or without it.
pub proof fn law_graph_counts(
    s: Snapshot,
    base: Seq<Digest>,
    components: Seq<Seq<Digest>>,
    order: Seq<Digest>,
    m: OrderingMetrics,
)
    requires
        slice_metrics(s, base, components, order, m),
        base.no_duplicates(),
        order.no_duplicates(),
        order.to_set() == base.to_set(),
    ensures
        ({
            let edges = s.edges(base.to_set());
            let unrelated = |p: (Digest, Digest)| !s.causal(p.0, p.1) && !s.causal(p.1, p.0);
            let one_way = |p: (Digest, Digest)|
                reach(edges, p.0, p.1) != reach(edges, p.1, p.0);
            let both_ways = |p: (Digest, Digest)|
                reach(edges, p.0, p.1) && reach(edges, p.1, p.0);
            let edge = |p: (Digest, Digest)|
                s.visible_first(p.0, p.1) || s.visible_first(p.1, p.0);
            let turned = |p: (Digest, Digest)|
                precedes(base, p.0, p.1) != precedes(order, p.0, p.1);
            &&& m.intra_scc_ordering_edge_count == pairs_of(
                s,
                base,
                |p: (Digest, Digest)| edge(p) && both_ways(p),
            ).len()
            &&& m.inter_scc_ordering_edge_count == pairs_of(
                s,
                base,
                |p: (Digest, Digest)| edge(p) && !both_ways(p),
            ).len()
            &&& m.constrained_pair_count == pairs_of(
                s,
                base,
                |p: (Digest, Digest)| unrelated(p) && one_way(p),
            ).len()
            &&& m.incomparable_pair_inversion_count == pairs_of(
                s,
                base,
                |p: (Digest, Digest)| unrelated(p) && turned(p),
            ).len()
            &&& m.constrained_inversion_count == pairs_of(
                s,
                base,
                |p: (Digest, Digest)| unrelated(p) && turned(p) && one_way(p),
            ).len()
            &&& m.unconstrained_inversion_count == pairs_of(
                s,
                base,
                |p: (Digest, Digest)| unrelated(p) && turned(p) && !one_way(p),
            ).len()
        }),
{
    let edges = s.edges(base.to_set());
    let unrelated = |p: (Digest, Digest)| !s.causal(p.0, p.1) && !s.causal(p.1, p.0);
    let one_way = |p: (Digest, Digest)| reach(edges, p.0, p.1) != reach(edges, p.1, p.0);
    let both_ways = |p: (Digest, Digest)| reach(edges, p.0, p.1) && reach(edges, p.1, p.0);
    let edge = |p: (Digest, Digest)| s.visible_first(p.0, p.1) || s.visible_first(p.1, p.0);
    let turned = |p: (Digest, Digest)| precedes(base, p.0, p.1) != precedes(order, p.0, p.1);
    assert forall|a: Digest, b: Digest| s.visible_first(a, b) || s.visible_first(b, a)
        <==> a != b && !s.comparable(a, b) && #[trigger] s.has_edge((a, b)) by {
        lemma_verdict_flips(s, a, b);
    }
    assert forall|a: Digest, b: Digest|
        base.contains(a) && base.contains(b) implies #[trigger] inverted(base, order, (a, b))
        == turned((a, b)) by {
        assert(base.to_set().contains(a) && base.to_set().contains(b));
        assert(order.to_set().contains(a) && order.to_set().contains(b));
        law_inverted(base, order, a, b);
    }
    lemma_pairs_count(
        s,
        base,
        edge_and(s, |p: (Digest, Digest)| connected(edges, p.0, p.1)),
        |p: (Digest, Digest)| edge(p) && both_ways(p),
    );
    lemma_pairs_count(
        s,
        base,
        edge_and(s, |p: (Digest, Digest)| !connected(edges, p.0, p.1)),
        |p: (Digest, Digest)| edge(p) && !both_ways(p),
    );
    lemma_pairs_count(
        s,
        base,
        incomparable_and(s, |p: (Digest, Digest)| ordered_by_graph(edges, p)),
        |p: (Digest, Digest)| unrelated(p) && one_way(p),
    );
    lemma_pairs_count(
        s,
        base,
        incomparable_and(s, |p: (Digest, Digest)| inverted(base, order, p)),
        |p: (Digest, Digest)| unrelated(p) && turned(p),
    );
    lemma_pairs_count(
        s,
        base,
        incomparable_and(
            s,
            |p: (Digest, Digest)| inverted(base, order, p) && ordered_by_graph(edges, p),
        ),
        |p: (Digest, Digest)| unrelated(p) && turned(p) && one_way(p),
    );
    lemma_pairs_count(
        s,
        base,
        incomparable_and(
            s,
            |p: (Digest, Digest)| inverted(base, order, p) && !ordered_by_graph(edges, p),
        ),
        |p: (Digest, Digest)| unrelated(p) && turned(p) && !one_way(p),
    );
}

/// A pair is constrained just if it lies in two components of which one leads to the other.
pub proof fn law_pair_constrained(
    number: Map<Digest, usize>,
    reachable: Seq<OrderedSet<usize>>,
    a: Digest,
    b: Digest,
)
    ensures
        pair_constrained(number, reachable, (a, b)) <==> number[a] != number[b] && (
        reachable[number[a] as int]@.contains(number[b]) || reachable[number[b] as int]@.contains(
            number[a],
        )),
        pair_constrained(number, reachable, (a, b)) == pair_constrained(
            number,
            reachable,
            (b, a),
        ),
{
}

/// There are as many pairs as two can be taken from the vertices, as far as that can be counted; of
/// an empty slice nothing is displaced.
pub proof fn law_pair_total(
    s: Snapshot,
    base: Seq<Digest>,
    components: Seq<Seq<Digest>>,
    order: Seq<Digest>,
    m: OrderingMetrics,
)
    requires
        slice_metrics(s, base, components, order, m),
    ensures
        base.len() * (base.len() - 1) <= usize::MAX ==> 2 * m.all_pair_count == base.len() * (
        base.len() - 1) || 2 * m.all_pair_count + 1 == base.len() * (base.len() - 1),
        base.len() * (base.len() - 1) > usize::MAX ==> m.all_pair_count == usize::MAX / 2,
        base.len() == 0 ==> m.position_displacement_median_low == 0
            && m.position_displacement_median_high == 0 && m.position_displacement_p95 == 0
            && m.position_displacement_denominator == 1,
{
}

/// Whether a vertex stands at the same place in both orders.
pub open spec fn keeps_place(base: Seq<Digest>, order: Seq<Digest>, x: Digest) -> bool {
    exists|k: int|
        0 <= k < base.len() && k < order.len() && #[trigger] base[k] == x && order[k] == x
}

/// What comparing two orders adds to the counts: of the given pairs those that stand the other way
/// round, told apart by whether the graph constrains them; how far the vertices have moved; and
/// nothing else.
pub proof fn law_intervention(
    before: OrderingMetrics,
    after: OrderingMetrics,
    base: Seq<Digest>,
    order: Seq<Digest>,
    pairs: Seq<(Digest, Digest)>,
    number: Map<Digest, usize>,
    reachable: Seq<OrderedSet<usize>>,
    sorted: Seq<usize>,
    k: int,
)
    requires
        intervention(before, after, base, order, pairs, number, reachable),
        base.no_duplicates(),
        order.no_duplicates(),
        base.to_set().subset_of(order.to_set()),
        forall|i: int|
            0 <= i < pairs.len() ==> base.contains((#[trigger] pairs[i]).0) && base.contains(
                pairs[i].1,
            ) && order.contains(pairs[i].0) && order.contains(pairs[i].1) && pairs[i].0
                != pairs[i].1,
        sorted.to_multiset() == displacements(base, order).to_multiset(),
        sorted.len() == base.len(),
        forall|i: int, j: int|
            0 <= i <= j < sorted.len() ==> #[trigger] sorted[i] <= #[trigger] sorted[j],
        100 * k < 95 * base.len() <= 100 * (k + 1),
    ensures
        ({
            let turned = |p: (Digest, Digest)|
                precedes(base, p.0, p.1) != precedes(order, p.0, p.1);
            let bound = |p: (Digest, Digest)|
                number[p.0] != number[p.1] && (reachable[number[p.0] as int]@.contains(number[p.1])
                    || reachable[number[p.1] as int]@.contains(number[p.0]));
            let n = base.len() as int;
            &&& after.incomparable_pair_inversion_count - before.incomparable_pair_inversion_count
                == count_where(pairs, turned)
            &&& after.constrained_inversion_count - before.constrained_inversion_count
                == count_where(pairs, |p: (Digest, Digest)| turned(p) && bound(p))
            &&& after.unconstrained_inversion_count - before.unconstrained_inversion_count
                == count_where(pairs, |p: (Digest, Digest)| turned(p) && !bound(p))
            &&& after.moved_vertex_count == count_where(base, |x: Digest| !keeps_place(base, order, x))
            &&& after.unchanged_slice <==> base == order
            &&& n > 0 ==> after.position_displacement_median_low == sorted[(n - 1) / 2]
                && after.position_displacement_median_high == sorted[n / 2]
                && after.position_displacement_p95 == sorted[k]
            &&& n > 1 ==> after.position_displacement_denominator == n - 1
            &&& n <= 1 ==> after.position_displacement_denominator == 1
            &&& after.eligible_vertex_count == before.eligible_vertex_count
            &&& after.ineligible_vertex_count == before.ineligible_vertex_count
            &&& after.all_pair_count == before.all_pair_count
            &&& after.causal_pair_count == before.causal_pair_count
            &&& after.incomparable_pair_count == before.incomparable_pair_count
            &&& after.eligible_pair_count == before.eligible_pair_count
            &&& after.ineligible_pair_count == before.ineligible_pair_count
            &&& after.edge_count == before.edge_count
            &&& after.conflict_count == before.conflict_count
            &&& after.no_signal_count == before.no_signal_count
            &&& after.constrained_pair_count == before.constrained_pair_count
            &&& after.intra_scc_ordering_edge_count == before.intra_scc_ordering_edge_count
            &&& after.inter_scc_ordering_edge_count == before.inter_scc_ordering_edge_count
            &&& after.scc_count == before.scc_count
            &&& after.nontrivial_scc_count == before.nontrivial_scc_count
            &&& after.vertices_in_nontrivial_sccs == before.vertices_in_nontrivial_sccs
            &&& after.max_scc_size == before.max_scc_size
        }),
{
    let turned = |p: (Digest, Digest)| precedes(base, p.0, p.1) != precedes(order, p.0, p.1);
    let bound = |p: (Digest, Digest)|
        number[p.0] != number[p.1] && (reachable[number[p.0] as int]@.contains(number[p.1])
            || reachable[number[p.1] as int]@.contains(number[p.0]));
    assert forall|i: int| 0 <= i < pairs.len() implies inverted(base, order, #[trigger] pairs[i])
        == turned(pairs[i]) by {
        law_inverted(base, order, pairs[i].0, pairs[i].1);
    }
    lemma_count_same(pairs, |p: (Digest, Digest)| inverted(base, order, p), turned);
    lemma_count_same(
        pairs,
        |p: (Digest, Digest)| inverted(base, order, p) && pair_constrained(number, reachable, p),
        |p: (Digest, Digest)| turned(p) && bound(p),
    );
    lemma_count_same(
        pairs,
        |p: (Digest, Digest)| inverted(base, order, p) && !pair_constrained(number, reachable, p),
        |p: (Digest, Digest)| turned(p) && !bound(p),
    );
    let moved = |x: Digest| position(base, x) != position(order, x);
    let leaves = |x: Digest| !keeps_place(base, order, x);
    assert forall|i: int| 0 <= i < base.len() implies moved(#[trigger] base[i]) == leaves(
        base[i],
    ) by {
        let x = base[i];
        assert(base.to_set().contains(x));
        assert(order.to_set().contains(x));
        law_place(base, i);
        law_position(order, x);
        let j = position(order, x);
        if keeps_place(base, order, x) {
            let k = choose|k: int|
                0 <= k < base.len() && k < order.len() && #[trigger] base[k] == x && order[k] == x;
            assert(base[k] == base[i]);
            assert(order[k] == order[j]);
        }
        if i == j {
            assert(base[i] == x && order[i] == x);
        }
    }
    lemma_count_same(base, moved, leaves);
    let n = base.len() as int;
    if n > 0 {
        let moves = displacements(base, order);
        assert((95 * n + 99) / 100 - 1 == k);
        law_kth_smallest(moves, sorted, (n - 1) / 2, after.position_displacement_median_low);
        law_kth_smallest(moves, sorted, n / 2, after.position_displacement_median_high);
        law_kth_smallest(moves, sorted, k, after.position_displacement_p95);
    }
}

/// Before anything has been counted, all counts are zero.
pub proof fn law_nothing_counted(m: OrderingMetrics)
    requires
        m == OrderingMetrics::none(),
    ensures
        m.eligible_vertex_count == 0 && m.ineligible_vertex_count == 0,
        m.all_pair_count == 0 && m.causal_pair_count == 0 && m.incomparable_pair_count == 0,
        m.eligible_pair_count == 0 && m.ineligible_pair_count == 0,
        m.edge_count == 0 && m.conflict_count == 0 && m.no_signal_count == 0,
        m.intra_scc_ordering_edge_count == 0 && m.inter_scc_ordering_edge_count == 0,
        m.constrained_pair_count == 0,
        m.scc_count == 0 && m.nontrivial_scc_count == 0 && m.max_scc_size == 0,
        m.vertices_in_nontrivial_sccs == 0,
        m.incomparable_pair_inversion_count == 0 && m.constrained_inversion_count == 0
            && m.unconstrained_inversion_count == 0,
        m.moved_vertex_count == 0 && !m.unchanged_slice,
        m.position_displacement_denominator == 0 && m.position_displacement_median_low == 0
            && m.position_displacement_median_high == 0 && m.position_displacement_p95 == 0,
{
}

} // verus!

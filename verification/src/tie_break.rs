//! The fixed key that resolves residual choices.

use std::cmp::Ordering;

use vstd::prelude::*;

use crate::ordered::{Key, KeyOrder};
use crate::state::MrvExecutor;
use crate::types::{CertificateModel, Digest};

verus! {

/// Whether `a` comes before `b` by the fixed key: round, then creator, then digest.
pub open spec fn tie_before(
    certificates: Map<Digest, CertificateModel>,
    a: Digest,
    b: Digest,
) -> bool {
    let left = certificates[a];
    let right = certificates[b];
    ||| left.round < right.round
    ||| left.round == right.round && left.origin.ord() < right.origin.ord()
    ||| left.round == right.round && left.origin == right.origin && a.ord() < b.ord()
}

/// The fixed key as an order of the vertices.
pub open spec fn tie_order(certificates: Map<Digest, CertificateModel>) -> spec_fn(
    Digest,
    Digest,
) -> bool {
    |a: Digest, b: Digest| tie_before(certificates, a, b)
}

/// Whether the vertices stand in the order of the fixed key.
pub open spec fn tie_sorted(certificates: Map<Digest, CertificateModel>, nodes: Seq<Digest>) -> bool {
    forall|i: int, j: int|
        0 <= i < j < nodes.len() ==> tie_before(certificates, #[trigger] nodes[i], #[trigger] nodes[j])
}

/// The fixed key orders any two different vertices one way.
pub proof fn lemma_tie_total(certificates: Map<Digest, CertificateModel>, a: Digest, b: Digest)
    ensures
        a != b ==> tie_before(certificates, a, b) || tie_before(certificates, b, a),
        !(tie_before(certificates, a, b) && tie_before(certificates, b, a)),
        !tie_before(certificates, a, a),
{
    Digest::lemma_ord_injective(a, b);
    crate::types::PublicKey::lemma_ord_injective(certificates[a].origin, certificates[b].origin);
}

/// The fixed key is transitive.
pub proof fn lemma_tie_transitive(
    certificates: Map<Digest, CertificateModel>,
    a: Digest,
    b: Digest,
    c: Digest,
)
    requires
        tie_before(certificates, a, b),
        tie_before(certificates, b, c),
    ensures
        tie_before(certificates, a, c),
{
}

/// Vertices in the order of the fixed key are distinct.
pub proof fn lemma_tie_sorted_distinct(
    certificates: Map<Digest, CertificateModel>,
    nodes: Seq<Digest>,
)
    requires
        tie_sorted(certificates, nodes),
    ensures
        nodes.no_duplicates(),
{
    assert forall|i: int, j: int|
        0 <= i < nodes.len() && 0 <= j < nodes.len() && i != j implies nodes[i] != nodes[j] by {
        lemma_tie_total(certificates, nodes[i], nodes[j]);
        if i < j {
            assert(tie_before(certificates, nodes[i], nodes[j]));
        } else {
            assert(tie_before(certificates, nodes[j], nodes[i]));
        }
    }
}

/// Inserting a vertex where the earlier ones end keeps the order of the fixed key.
pub proof fn lemma_insert_sorted(
    certificates: Map<Digest, CertificateModel>,
    sorted: Seq<Digest>,
    place: int,
    node: Digest,
)
    requires
        tie_sorted(certificates, sorted),
        0 <= place <= sorted.len(),
        !sorted.contains(node),
        forall|i: int| 0 <= i < place ==> tie_before(certificates, #[trigger] sorted[i], node),
        place < sorted.len() ==> tie_before(certificates, node, sorted[place]),
    ensures
        tie_sorted(certificates, sorted.insert(place, node)),
        sorted.insert(place, node).to_set() == sorted.to_set().insert(node),
{
    let longer = sorted.insert(place, node);
    assert forall|i: int, j: int| 0 <= i < j < longer.len() implies tie_before(
        certificates,
        #[trigger] longer[i],
        #[trigger] longer[j],
    ) by {
        let a: int = if i < place {
            i
        } else {
            i - 1
        };
        let b: int = if j < place {
            j
        } else {
            j - 1
        };
        if i == place {
            if b > place {
                assert(tie_before(certificates, sorted[place], sorted[b]));
                lemma_tie_transitive(certificates, node, sorted[place], sorted[b]);
            }
        } else if j == place {
            assert(tie_before(certificates, sorted[i], node));
        } else {
            assert(tie_before(certificates, sorted[a], sorted[b]));
        }
    }
    assert forall|x: Digest| longer.to_set().contains(x) <==> sorted.to_set().insert(node).contains(x) by {
        assert(longer[place] == node);
        if sorted.contains(x) {
            let k = sorted.index_of(x);
            let at: int = if k < place {
                k
            } else {
                k + 1
            };
            assert(longer[at] == x);
        }
        if longer.contains(x) && x != node {
            let at = longer.index_of(x);
            let k: int = if at < place {
                at
            } else {
                at - 1
            };
            assert(sorted[k] == x);
        }
    }
    assert(longer.to_set() =~= sorted.to_set().insert(node));
}

impl MrvExecutor {
    /// Compares two slice members by round, then creator, then digest.
    pub fn tie_break(&self, a: &Digest, b: &Digest) -> (order: Ordering)
        requires
            self.store@.contains_key(*a),
            self.store@.contains_key(*b),
        ensures
            order == Ordering::Less <==> tie_before(self.certificates(), *a, *b),
            order == Ordering::Equal <==> *a == *b,
            order == Ordering::Greater <==> tie_before(self.certificates(), *b, *a),
    {
        proof {
            lemma_tie_total(self.certificates(), *a, *b);
        }
        let left = self.store.get(a).expect(
            "left slice member certificate missing from MRV store during deterministic tie-breaking",
        );
        let right = self.store.get(b).expect(
            "right slice member certificate missing from MRV store during deterministic tie-breaking",
        );
        if left.round < right.round {
            return Ordering::Less;
        }
        if right.round < left.round {
            return Ordering::Greater;
        }
        match left.origin.compare(&right.origin) {
            KeyOrder::Less => Ordering::Less,
            KeyOrder::Greater => Ordering::Greater,
            KeyOrder::Equal => match a.compare(b) {
                KeyOrder::Less => Ordering::Less,
                KeyOrder::Greater => Ordering::Greater,
                KeyOrder::Equal => Ordering::Equal,
            },
        }
    }

    /// Adds a vertex to vertices in the order of the fixed key.
    fn insert_by_key(&self, sorted: &mut Vec<Digest>, node: Digest)
        requires
            self.store@.contains_key(node),
            old(sorted)@.to_set().subset_of(self.store@.dom()),
            !old(sorted)@.contains(node),
            tie_sorted(self.certificates(), old(sorted)@),
        ensures
            tie_sorted(self.certificates(), final(sorted)@),
            final(sorted)@.to_set() == old(sorted)@.to_set().insert(node),
            final(sorted)@.len() == old(sorted)@.len() + 1,
    {
        let mut place: usize = 0;
        while place < sorted.len()
            invariant_except_break
                forall|i: int|
                    0 <= i < place ==> tie_before(self.certificates(), #[trigger] sorted@[i], node),
            invariant
                place <= sorted@.len(),
                *sorted == *old(sorted),
                self.store@.contains_key(node),
                sorted@.to_set().subset_of(self.store@.dom()),
                !sorted@.contains(node),
            ensures
                forall|i: int|
                    0 <= i < place ==> tie_before(self.certificates(), #[trigger] sorted@[i], node),
                forall|i: int|
                    i == place && i < sorted@.len() ==> tie_before(
                        self.certificates(),
                        node,
                        #[trigger] sorted@[i],
                    ),
            decreases sorted@.len() - place,
        {
            proof {
                lemma_member(sorted@, place);
            }
            match self.tie_break(&sorted[place], &node) {
                Ordering::Less => {},
                _ => {
                    proof {
                        lemma_at_place(self.certificates(), sorted@, place, node);
                    }
                    break;
                },
            }
            place = place + 1;
        }
        proof {
            lemma_insert_at(self.certificates(), sorted@, place, node);
        }
        sorted.insert(place, node);
    }

    /// The vertices in the order of the fixed key.
    pub fn sort_by_key(&self, nodes: &[Digest]) -> (sorted: Vec<Digest>)
        requires
            nodes@.no_duplicates(),
            nodes@.to_set().subset_of(self.store@.dom()),
        ensures
            tie_sorted(self.certificates(), sorted@),
            sorted@.no_duplicates(),
            sorted@.to_set() == nodes@.to_set(),
            sorted@.len() == nodes@.len(),
    {
        let mut sorted: Vec<Digest> = Vec::new();
        let mut i: usize = 0;
        assert(nodes@.take(0).to_set() =~= sorted@.to_set());
        while i < nodes.len()
            invariant
                i <= nodes@.len(),
                nodes@.no_duplicates(),
                nodes@.to_set().subset_of(self.store@.dom()),
                tie_sorted(self.certificates(), sorted@),
                sorted@.to_set() == nodes@.take(i as int).to_set(),
                sorted@.len() == i,
            decreases nodes.len() - i,
        {
            proof {
                crate::topology::lemma_take_next(nodes@, i as int);
                assert(nodes@.to_set().contains(nodes@[i as int]));
                assert(!sorted@.to_set().contains(nodes@[i as int]));
                assert forall|x: Digest| sorted@.to_set().contains(x) implies self.store@.dom().contains(x) by {
                    assert(nodes@.take(i as int).contains(x));
                    let k = nodes@.take(i as int).index_of(x);
                    assert(nodes@[k] == x);
                    assert(nodes@.to_set().contains(x));
                }
            }
            self.insert_by_key(&mut sorted, nodes[i]);
            i = i + 1;
        }
        proof {
            assert(nodes@.take(nodes@.len() as int) =~= nodes@);
            lemma_tie_sorted_distinct(self.certificates(), sorted@);
        }
        sorted
    }
}

proof fn lemma_insert_at(
    certificates: Map<Digest, CertificateModel>,
    sorted: Seq<Digest>,
    place: usize,
    node: Digest,
)
    requires
        tie_sorted(certificates, sorted),
        place <= sorted.len(),
        !sorted.contains(node),
        forall|i: int| 0 <= i < place ==> tie_before(certificates, #[trigger] sorted[i], node),
        forall|i: int|
            i == place && i < sorted.len() ==> tie_before(certificates, node, #[trigger] sorted[i]),
    ensures
        tie_sorted(certificates, sorted.insert(place as int, node)),
        sorted.insert(place as int, node).to_set() == sorted.to_set().insert(node),
{
    lemma_insert_sorted(certificates, sorted, place as int, node);
}

proof fn lemma_member(items: Seq<Digest>, place: usize)
    requires
        place < items.len(),
    ensures
        items.to_set().contains(items[place as int]),
{
}

proof fn lemma_at_place(
    certificates: Map<Digest, CertificateModel>,
    items: Seq<Digest>,
    place: usize,
    node: Digest,
)
    requires
        place < items.len(),
        !items.contains(node),
        !tie_before(certificates, items[place as int], node),
    ensures
        forall|i: int|
            i == place && i < items.len() ==> tie_before(certificates, node, #[trigger] items[i]),
{
    assert(items.contains(items[place as int]));
    lemma_tie_total(certificates, node, items[place as int]);
}

} // verus!

//! What the evidence says of the committed prefix.

use vstd::prelude::*;

use crate::invariants::distinct;
use crate::model::{
    booked, by_round, commit_all, commit_one, is_floor, registered, ExecutorModel,
};
use crate::ordering_laws::{ancestry_steps, law_visibility_walk_is_complete, parents_are_older};
use crate::relation::{
    lemma_reach_edge, lemma_reach_join, lemma_reach_monotone, lemma_reach_self, reach, reach_in,
};
use crate::types::{CertificateModel, CommitModel, Digest, PublicKey, Round};
use crate::visibility::{makes_visible, seen_at};

verus! {

/// Whether the certificates are distinct, and parents come before their children and are of lower
/// rounds.
pub open spec fn parents_come_first(prefix: Seq<CertificateModel>) -> bool {
    &&& distinct(prefix)
    &&& forall|i: int, j: int|
        0 <= i < prefix.len() && 0 <= j < prefix.len() && #[trigger] prefix[i].parents.contains(
            (#[trigger] prefix[j]).digest,
        ) ==> j < i && prefix[j].round < prefix[i].round
}

/// The steps from the certificates of the prefix to their parents.
pub open spec fn prefix_steps(prefix: Seq<CertificateModel>) -> Set<(Digest, Digest)> {
    Set::new(
        |e: (Digest, Digest)|
            exists|i: int|
                0 <= i < prefix.len() && (#[trigger] prefix[i]).digest == e.0
                    && prefix[i].parents.contains(e.1),
    )
}

/// Whether the creator has seen the vertex in the round: the prefix holds a certificate of the
/// creator, of that round, that is or descends from the vertex.
pub open spec fn observed(
    prefix: Seq<CertificateModel>,
    d: Digest,
    round: Round,
    creator: PublicKey,
) -> bool {
    exists|i: int|
        0 <= i < prefix.len() && (#[trigger] prefix[i]).round == round && prefix[i].origin == creator
            && reach(prefix_steps(prefix), prefix[i].digest, d)
}

/// Whether the vertex stands at the place, and all certificates from there on that could descend
/// from it are stored.
pub open spec fn covered(
    certificates: Map<Digest, CertificateModel>,
    prefix: Seq<CertificateModel>,
    d: Digest,
    t: int,
) -> bool {
    &&& 0 <= t < prefix.len()
    &&& prefix[t].digest == d
    &&& forall|i: int|
        t <= i < prefix.len() && (#[trigger] prefix[i]).round >= prefix[t].round
            ==> certificates.contains_key(prefix[i].digest)
}

/// Whether the evidence of every active vertex is what the committed prefix shows: a creator is
/// counted in a round just if the prefix holds a certificate of the creator, of that round, that is
/// or descends from the vertex.
pub open spec fn reflects(model: ExecutorModel, prefix: Seq<CertificateModel>) -> bool {
    &&& parents_come_first(prefix)
    &&& forall|d: Digest| #[trigger]
        model.certificates.contains_key(d) ==> prefix.contains(model.certificates[d])
    &&& forall|d: Digest| #[trigger]
        model.evidence.contains_key(d) ==> exists|t: int| #[trigger]
            covered(model.certificates, prefix, d, t)
    &&& forall|d: Digest, round: Round, creator: PublicKey|
        model.evidence.contains_key(d) ==> (#[trigger] seen_at(model.evidence, d, round).contains(
            creator,
        ) <==> observed(prefix, d, round, creator))
}

/// What is known of the store and the evidence while certificates join.
spec fn sound(model: ExecutorModel) -> bool {
    &&& is_floor(model.evidence, model.floor)
    &&& forall|d: Digest| #[trigger]
        model.certificates.contains_key(d) ==> model.certificates[d].digest == d
    &&& forall|d: Digest| #[trigger]
        model.evidence.contains_key(d) ==> model.certificates.contains_key(d)
            && model.evidence[d].round == model.certificates[d].round
}

/// A certificate that joins keeps what is known.
proof fn lemma_sound_step(model: ExecutorModel, c: CertificateModel)
    requires
        sound(model),
        !model.certificates.contains_key(c.digest),
    ensures
        sound(commit_one(model, c)),
        commit_one(model, c).floor is Some,
        forall|d: Digest| #[trigger]
            commit_one(model, c).evidence.contains_key(d) <==> model.evidence.contains_key(d) || d
                == c.digest,
        forall|d: Digest| #[trigger]
            commit_one(model, c).evidence.contains_key(d) ==> commit_one(model, c).certificates[d].round
                >= commit_one(model, c).floor->0,
        commit_one(model, c).certificates == model.certificates.insert(c.digest, c),
{
    let after = commit_one(model, c);
    let digest = c.digest;
    assert(!model.evidence.contains_key(digest));
    assert forall|d: Digest| #[trigger] after.evidence.contains_key(d) <==> model.evidence.contains_key(
        d,
    ) || d == digest by {}
    assert forall|d: Digest| #[trigger] after.evidence.contains_key(d) implies after.evidence[d].round
        == after.certificates[d].round && after.evidence[d].round >= after.floor->0 by {
        if d != digest {
            assert(model.evidence.contains_key(d));
        }
    }
    match model.floor {
        Some(current) if current <= c.round => {
            let d = choose|d: Digest| #[trigger]
                model.evidence.contains_key(d) && model.evidence[d].round == current;
            assert(after.evidence.contains_key(d));
        },
        _ => {
            assert(after.evidence.contains_key(digest));
        },
    }
}

/// A shorter prefix is in order too.
pub proof fn lemma_shorter(prefix: Seq<CertificateModel>, c: CertificateModel)
    requires
        parents_come_first(prefix.push(c)),
    ensures
        parents_come_first(prefix),
        forall|i: int|
            0 <= i < prefix.len() ==> (#[trigger] prefix[i]).digest != c.digest
                && !prefix[i].parents.contains(c.digest),
{
    let longer = prefix.push(c);
    let n = prefix.len() as int;
    assert forall|i: int| 0 <= i < n implies (#[trigger] prefix[i]).digest != c.digest
        && !prefix[i].parents.contains(c.digest) by {
        assert(longer[i] == prefix[i] && longer[n] == c);
        assert(longer[i].digest != longer[n].digest);
        if longer[i].parents.contains(longer[n].digest) {
            assert(n < i);
        }
    }
    assert forall|i: int, j: int| 0 <= i < j < n implies (#[trigger] prefix[i]).digest != (
    #[trigger] prefix[j]).digest by {
        assert(longer[i].digest != longer[j].digest);
    }
    assert forall|i: int, j: int|
        0 <= i < n && 0 <= j < n && #[trigger] prefix[i].parents.contains(
            (#[trigger] prefix[j]).digest,
        ) implies j < i && prefix[j].round < prefix[i].round by {
        assert(longer[i].parents.contains(longer[j].digest));
    }
}

/// A certificate that joins opens no new path from earlier certificates.
pub proof fn lemma_old_paths(prefix: Seq<CertificateModel>, c: CertificateModel, n: nat, x: Digest, d: Digest)
    requires
        parents_come_first(prefix.push(c)),
        x != c.digest,
        reach_in(prefix_steps(prefix.push(c)), n, x, d),
    ensures
        d != c.digest,
        reach(prefix_steps(prefix), x, d),
    decreases n,
{
    let longer = prefix.push(c);
    let old_steps = prefix_steps(prefix);
    let steps = prefix_steps(longer);
    lemma_shorter(prefix, c);
    if n == 0 {
        lemma_reach_self(old_steps, x);
    } else {
        let z = choose|z: Digest| #[trigger]
            steps.contains((x, z)) && reach_in(steps, (n - 1) as nat, z, d);
        let i = choose|i: int|
            0 <= i < longer.len() && (#[trigger] longer[i]).digest == x
                && longer[i].parents.contains(z);
        assert(i < prefix.len());
        assert(prefix[i] == longer[i]);
        assert(old_steps.contains((x, z)));
        assert(z != c.digest);
        lemma_old_paths(prefix, c, (n - 1) as nat, z, d);
        lemma_reach_edge(old_steps, x, z);
        lemma_reach_join(old_steps, x, z, d);
    }
}

/// On a path down to a vertex, all certificates joined after the vertex and are of higher rounds,
/// so that they are still stored.
pub proof fn lemma_path_is_stored(
    certificates: Map<Digest, CertificateModel>,
    prefix: Seq<CertificateModel>,
    n: nat,
    i: int,
    d: Digest,
    t: int,
)
    requires
        parents_come_first(prefix),
        forall|x: Digest| #[trigger]
            certificates.contains_key(x) ==> prefix.contains(certificates[x])
                && certificates[x].digest == x,
        covered(certificates, prefix, d, t),
        0 <= i < prefix.len(),
        reach_in(prefix_steps(prefix), n, prefix[i].digest, d),
    ensures
        t <= i,
        prefix[i].round >= prefix[t].round,
        reach(ancestry_steps(certificates), prefix[i].digest, d),
    decreases n,
{
    let steps = prefix_steps(prefix);
    let stored = ancestry_steps(certificates);
    if n == 0 {
        lemma_same_place(prefix, i, t);
        lemma_reach_self(stored, d);
    } else {
        let z = choose|z: Digest| #[trigger]
            steps.contains((prefix[i].digest, z)) && reach_in(steps, (n - 1) as nat, z, d);
        let k = choose|k: int|
            0 <= k < prefix.len() && (#[trigger] prefix[k]).digest == prefix[i].digest
                && prefix[k].parents.contains(z);
        lemma_same_place(prefix, k, i);
        let j = lemma_path_place(prefix, (n - 1) as nat, z, d, t);
        assert(prefix[i].parents.contains(prefix[j].digest));
        assert(j < i && prefix[j].round < prefix[i].round);
        lemma_path_is_stored(certificates, prefix, (n - 1) as nat, j, d, t);
        assert(certificates.contains_key(prefix[i].digest));
        let kept = certificates[prefix[i].digest];
        let m = prefix.index_of(kept);
        assert(prefix[m] == kept);
        lemma_same_place(prefix, m, i);
        assert(stored.contains((prefix[i].digest, z)));
        lemma_reach_edge(stored, prefix[i].digest, z);
        lemma_reach_join(stored, prefix[i].digest, z, d);
    }
}

/// Whatever leads to a vertex of the prefix stands in the prefix.
proof fn lemma_path_place(prefix: Seq<CertificateModel>, n: nat, z: Digest, d: Digest, t: int) -> (j:
    int)
    requires
        0 <= t < prefix.len(),
        prefix[t].digest == d,
        reach_in(prefix_steps(prefix), n, z, d),
    ensures
        0 <= j < prefix.len(),
        prefix[j].digest == z,
{
    let steps = prefix_steps(prefix);
    if n == 0 {
        t
    } else {
        let w = choose|w: Digest| #[trigger]
            steps.contains((z, w)) && reach_in(steps, (n - 1) as nat, w, d);
        choose|j: int|
            0 <= j < prefix.len() && (#[trigger] prefix[j]).digest == z && prefix[j].parents.contains(
                w,
            )
    }
}

proof fn lemma_same_place(prefix: Seq<CertificateModel>, i: int, j: int)
    requires
        distinct(prefix),
        0 <= i < prefix.len(),
        0 <= j < prefix.len(),
        prefix[i].digest == prefix[j].digest,
    ensures
        i == j,
{
    if i < j {
        assert(prefix[i].digest != prefix[j].digest);
    } else if j < i {
        assert(prefix[j].digest != prefix[i].digest);
    }
}

/// What the prefix shows of a vertex after a certificate joins.
proof fn lemma_observed_step(
    prefix: Seq<CertificateModel>,
    c: CertificateModel,
    d: Digest,
    round: Round,
    creator: PublicKey,
)
    requires
        parents_come_first(prefix.push(c)),
    ensures
        observed(prefix.push(c), d, round, creator) <==> (d != c.digest && observed(
            prefix,
            d,
            round,
            creator,
        )) || (creator == c.origin && round == c.round && reach(
            prefix_steps(prefix.push(c)),
            c.digest,
            d,
        )),
{
    let longer = prefix.push(c);
    let old_steps = prefix_steps(prefix);
    let steps = prefix_steps(longer);
    lemma_shorter(prefix, c);
    assert(longer[prefix.len() as int] == c);
    if observed(longer, d, round, creator) {
        let i = choose|i: int|
            0 <= i < longer.len() && (#[trigger] longer[i]).round == round && longer[i].origin
                == creator && reach(steps, longer[i].digest, d);
        if i < prefix.len() {
            assert(prefix[i] == longer[i]);
            let n = choose|n: nat| #[trigger] reach_in(steps, n, longer[i].digest, d);
            lemma_old_paths(prefix, c, n, longer[i].digest, d);
            assert(observed(prefix, d, round, creator));
        }
    }
    if d != c.digest && observed(prefix, d, round, creator) {
        let i = choose|i: int|
            0 <= i < prefix.len() && (#[trigger] prefix[i]).round == round && prefix[i].origin
                == creator && reach(old_steps, prefix[i].digest, d);
        assert(old_steps.subset_of(steps)) by {
            assert forall|e: (Digest, Digest)| #[trigger] old_steps.contains(e) implies steps.contains(
                e,
            ) by {
                let k = choose|k: int|
                    0 <= k < prefix.len() && (#[trigger] prefix[k]).digest == e.0
                        && prefix[k].parents.contains(e.1);
                assert(longer[k] == prefix[k]);
            }
        }
        lemma_reach_monotone(old_steps, steps, prefix[i].digest, d);
        assert(longer[i] == prefix[i]);
    }
}

/// Stored certificates of a prefix whose parents are older have older parents.
pub proof fn lemma_stored_is_older(
    certificates: Map<Digest, CertificateModel>,
    prefix: Seq<CertificateModel>,
)
    requires
        parents_come_first(prefix),
        forall|x: Digest| #[trigger]
            certificates.contains_key(x) ==> prefix.contains(certificates[x])
                && certificates[x].digest == x,
    ensures
        parents_are_older(certificates),
        ancestry_steps(certificates).subset_of(prefix_steps(prefix)),
{
    assert forall|d: Digest, p: Digest|
        certificates.contains_key(d) && certificates.contains_key(p)
            && #[trigger] certificates[d].parents.contains(p) implies certificates[p].round
        < certificates[d].round by {
        let i = prefix.index_of(certificates[d]);
        let j = prefix.index_of(certificates[p]);
        assert(prefix[i] == certificates[d] && prefix[j] == certificates[p]);
        assert(prefix[i].parents.contains(prefix[j].digest));
    }
    assert forall|e: (Digest, Digest)| #[trigger] ancestry_steps(certificates).contains(e) implies prefix_steps(
        prefix,
    ).contains(e) by {
        let i = prefix.index_of(certificates[e.0]);
        assert(prefix[i] == certificates[e.0]);
    }
}

/// A certificate joins: the evidence keeps reflecting the prefix.
proof fn lemma_joining_reflects(
    model: ExecutorModel,
    prefix: Seq<CertificateModel>,
    c: CertificateModel,
)
    requires
        sound(model),
        reflects(model, prefix),
        parents_come_first(prefix.push(c)),
    ensures
        sound(commit_one(model, c)),
        reflects(commit_one(model, c), prefix.push(c)),
{
    let longer = prefix.push(c);
    let after = commit_one(model, c);
    let n = prefix.len() as int;
    lemma_shorter(prefix, c);
    assert(longer[n] == c);
    assert(!model.certificates.contains_key(c.digest)) by {
        if model.certificates.contains_key(c.digest) {
            let i = prefix.index_of(model.certificates[c.digest]);
            assert(prefix[i] == model.certificates[c.digest]);
        }
    }
    lemma_sound_step(model, c);
    assert forall|d: Digest| #[trigger] after.certificates.contains_key(d) implies longer.contains(
        after.certificates[d],
    ) && after.certificates[d].digest == d by {
        if d == c.digest {
            assert(longer[n] == after.certificates[d]);
        } else {
            let i = prefix.index_of(model.certificates[d]);
            assert(prefix[i] == model.certificates[d]);
            assert(longer[i] == after.certificates[d]);
        }
    }
    assert forall|d: Digest| #[trigger] after.evidence.contains_key(d) implies exists|t: int| #[trigger]
        covered(after.certificates, longer, d, t) by {
        if d == c.digest {
            assert(covered(after.certificates, longer, d, n));
        } else {
            assert(model.evidence.contains_key(d));
            let t = choose|t: int| #[trigger] covered(model.certificates, prefix, d, t);
            assert(longer[t] == prefix[t]);
            assert forall|i: int|
                t <= i < longer.len() && (#[trigger] longer[i]).round >= longer[t].round implies after.certificates.contains_key(
            longer[i].digest) by {
                if i < n {
                    assert(prefix[i] == longer[i]);
                }
            }
            assert(covered(after.certificates, longer, d, t));
        }
    }
    lemma_stored_is_older(after.certificates, longer);
    assert forall|d: Digest, round: Round, creator: PublicKey|
        after.evidence.contains_key(d) implies (#[trigger] seen_at(
        after.evidence,
        d,
        round,
    ).contains(creator) <==> observed(longer, d, round, creator)) by {
        let stored = ancestry_steps(after.certificates);
        let steps = prefix_steps(longer);
        let t = choose|t: int| #[trigger] covered(after.certificates, longer, d, t);
        assert(reach(stored, c.digest, d) <==> reach(steps, c.digest, d)) by {
            if reach(stored, c.digest, d) {
                lemma_reach_monotone(stored, steps, c.digest, d);
            }
            if reach(steps, c.digest, d) {
                let k = choose|k: nat| #[trigger] reach_in(steps, k, c.digest, d);
                lemma_path_is_stored(after.certificates, longer, k, n, d, t);
            }
        }
        lemma_observed_step(prefix, c, d, round, creator);
        law_visibility_walk_is_complete(after.certificates, after.floor->0, c.digest, d);
        assert(makes_visible(after.certificates, after.floor->0, c.digest, d) <==> reach(
            stored,
            c.digest,
            d,
        ));
        if d == c.digest {
            assert(!model.evidence.contains_key(d));
            lemma_reach_self(steps, d);
        } else {
            assert(model.evidence.contains_key(d));
            assert(seen_at(model.evidence, d, round).contains(creator) <==> observed(
                prefix,
                d,
                round,
                creator,
            ));
        }
    }
}

/// Certificates join one after the other: the evidence keeps reflecting the prefix.
proof fn lemma_joining_all_reflects(
    model: ExecutorModel,
    prefix: Seq<CertificateModel>,
    certificates: Seq<CertificateModel>,
)
    requires
        sound(model),
        reflects(model, prefix),
        parents_come_first(prefix + certificates),
    ensures
        sound(commit_all(model, certificates)),
        reflects(commit_all(model, certificates), prefix + certificates),
    decreases certificates.len(),
{
    if certificates.len() == 0 {
        assert(prefix + certificates =~= prefix);
    } else {
        let init = certificates.drop_last();
        let last = certificates.last();
        assert(prefix + certificates =~= (prefix + init).push(last));
        lemma_shorter(prefix + init, last);
        lemma_joining_all_reflects(model, prefix, init);
        lemma_joining_reflects(commit_all(model, init), prefix + init, last);
    }
}

/// Giving up evidence, slices or certificates that are not needed leaves the rest as it is.
proof fn lemma_reflects_less(
    model: ExecutorModel,
    after: ExecutorModel,
    prefix: Seq<CertificateModel>,
)
    requires
        reflects(model, prefix),
        forall|d: Digest| #[trigger]
            after.evidence.contains_key(d) ==> model.evidence.contains_key(d) && after.evidence[d]
                == model.evidence[d],
        forall|d: Digest| #[trigger]
            after.certificates.contains_key(d) ==> model.certificates.contains_key(d)
                && after.certificates[d] == model.certificates[d],
        forall|d: Digest, t: int|
            after.evidence.contains_key(d) && #[trigger] covered(model.certificates, prefix, d, t)
                ==> covered(after.certificates, prefix, d, t),
    ensures
        reflects(after, prefix),
{
    assert forall|d: Digest| #[trigger] after.evidence.contains_key(d) implies exists|t: int| #[trigger]
        covered(after.certificates, prefix, d, t) by {
        let t = choose|t: int| #[trigger] covered(model.certificates, prefix, d, t);
        assert(covered(after.certificates, prefix, d, t));
    }
    assert forall|d: Digest, round: Round, creator: PublicKey|
        after.evidence.contains_key(d) implies (#[trigger] seen_at(
        after.evidence,
        d,
        round,
    ).contains(creator) <==> observed(prefix, d, round, creator)) by {
        assert(seen_at(model.evidence, d, round) == seen_at(after.evidence, d, round));
        assert(seen_at(model.evidence, d, round).contains(creator) <==> observed(
            prefix,
            d,
            round,
            creator,
        ));
    }
}

/// A new executor reflects the empty prefix.
pub proof fn law_new_executor_reflects_nothing(model: ExecutorModel)
    requires
        model.certificates == Map::<Digest, CertificateModel>::empty(),
        model.evidence.dom() == Set::<Digest>::empty(),
    ensures
        reflects(model, Seq::empty()),
{
    assert forall|d: Digest| !#[trigger] model.evidence.contains_key(d) by {
        assert(!model.evidence.dom().contains(d));
    }
}

/// A commit that is registered extends the prefix that the evidence reflects.
pub proof fn lemma_registered_reflects(
    model: ExecutorModel,
    commit: CommitModel,
    prefix: Seq<CertificateModel>,
)
    requires
        model.valid(),
        reflects(model, prefix),
        parents_come_first(prefix + by_round(commit.certificates)),
    ensures
        reflects(registered(model, commit), prefix + by_round(commit.certificates)),
{
    let certificates = by_round(commit.certificates);
    let start = booked(model, commit);
    assert(sound(start));
    assert(reflects(start, prefix));
    lemma_joining_all_reflects(start, prefix, certificates);
    lemma_reflects_less(
        commit_all(start, certificates),
        registered(model, commit),
        prefix + certificates,
    );
}

/// The evidence is reconstructed from the committed prefix alone, and from all of it: over a
/// commit, although certificates that are not needed are dropped, a creator stays counted for an
/// active vertex in a round just if the prefix, which the commit extends by its certificates in the
/// order of their rounds, holds a certificate of the creator, of that round, that is or descends
/// from the vertex.
pub proof fn law_evidence_reflects_the_prefix(
    model: ExecutorModel,
    commit: CommitModel,
    prefix: Seq<CertificateModel>,
)
    requires
        model.settled(),
        model.accepts(commit),
        model.sealed_by(commit).valid(),
        reflects(model, prefix),
        parents_come_first(prefix + by_round(commit.certificates)),
    ensures
        reflects(model.next(commit), prefix + by_round(commit.certificates)),
{
    let certificates = by_round(commit.certificates);
    let longer = prefix + certificates;
    if commit.certificates.len() == 0 {
        assert(longer =~= prefix);
    } else {
        let reg = registered(model, commit);
        let sealed = model.sealed_by(commit);
        let left = sealed.without_free();
        lemma_registered_reflects(model, commit, prefix);
        lemma_reflects_less(reg, sealed, longer);
        lemma_reflects_less(sealed, left, longer);
        let after = left.collected();
        assert forall|d: Digest, t: int|
            after.evidence.contains_key(d) && #[trigger] covered(
                left.certificates,
                longer,
                d,
                t,
            ) implies covered(after.certificates, longer, d, t) by {
            assert(sealed.evidence.contains_key(d));
            assert(left.floor is Some);
            let low = left.floor->0;
            assert(sealed.evidence[d].round >= low);
            assert(sealed.certificates.contains_key(d));
            let kept = left.certificates[d];
            let m = longer.index_of(kept);
            assert(longer[m] == kept);
            lemma_same_place(longer, m, t);
            assert forall|i: int|
                t <= i < longer.len() && (#[trigger] longer[i]).round >= longer[t].round implies after.certificates.contains_key(
            longer[i].digest) by {
                let x = longer[i].digest;
                assert(left.certificates.contains_key(x));
                let other = left.certificates[x];
                assert(sealed.certificates.contains_key(x));
                let k = longer.index_of(other);
                assert(longer[k] == other);
                lemma_same_place(longer, k, i);
                assert(left.is_needed(x));
            }
        }
        lemma_reflects_less(left, after, longer);
    }
}

} // verus!

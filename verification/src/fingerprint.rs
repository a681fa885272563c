//! Diagnostic fingerprints of slices, orders and committed prefixes.

use vstd::prelude::*;
use vstd::string::*;

use crate::ordered::{increasing, lemma_increasing_unique, OrderedSet};
use crate::topology::lemma_take_next;
use crate::types::{Digest, Round};

verus! {

/// The SHA-512 hash of the bytes.
pub uninterp spec fn sha512(bytes: Seq<u8>) -> Seq<u8>;

/// `ed25519_dalek::Sha512`, by `ed25519_dalek::Digest::digest`: the SHA-512 hash of the bytes. It
/// depends on the bytes alone and is 64 bytes long.
#[verifier::external_body]
fn sha512_hash(bytes: &[u8]) -> (hash: Vec<u8>)
    ensures
        hash@ == sha512(bytes@),
        hash@.len() == 64,
{
    <ed25519_dalek::Sha512 as ed25519_dalek::Digest>::digest(bytes).to_vec()
}

/// The lowest `count` bytes of a number, least significant byte first.
pub open spec fn little_endian(value: int, count: nat) -> Seq<u8>
    decreases count,
{
    if count == 0 {
        Seq::empty()
    } else {
        seq![(value % 256) as u8] + little_endian(value / 256, (count - 1) as nat)
    }
}

/// The bytes of the digests, one after the other.
pub open spec fn digest_bytes(digests: Seq<Digest>) -> Seq<u8>
    decreases digests.len(),
{
    if digests.len() == 0 {
        Seq::empty()
    } else {
        digest_bytes(digests.drop_last()) + digests.last().0@
    }
}

/// The digest that the bytes make up.
pub open spec fn digest_of(bytes: Seq<u8>) -> Digest {
    choose|digest: Digest| digest.0@ == bytes
}

/// What is hashed for the fingerprint of a list of digests.
pub open spec fn fingerprint_input(domain: Seq<u8>, digests: Seq<Digest>) -> Seq<u8> {
    domain + little_endian(digests.len() as int, 8) + digest_bytes(digests)
}

/// The fingerprint of a list of digests: the first half of the hash of the domain, the length
/// and the digests.
pub open spec fn fingerprint(domain: Seq<u8>, digests: Seq<Digest>) -> Digest {
    digest_of(sha512(fingerprint_input(domain, digests)).take(32))
}

/// What is hashed for the fingerprint of the committed prefix that a slice extends.
pub open spec fn prefix_input(
    previous: Digest,
    leader_round: Round,
    leader_digest: Digest,
    member_set: Digest,
) -> Seq<u8> {
    "MRV-EXPORT-PREFIX-v1".spec_bytes() + previous.0@ + little_endian(leader_round as int, 8)
        + leader_digest.0@ + member_set.0@
}

/// The fingerprint of the committed prefix that a slice extends.
pub open spec fn extended_prefix(
    previous: Digest,
    leader_round: Round,
    leader_digest: Digest,
    member_set: Digest,
) -> Digest {
    digest_of(sha512(prefix_input(previous, leader_round, leader_digest, member_set)).take(32))
}

/// The digests of a set in increasing order.
pub open spec fn sorted_digests(digests: Set<Digest>) -> Seq<Digest> {
    choose|sorted: Seq<Digest>| increasing(sorted) && sorted.to_set() == digests
}

/// The fingerprint of the members of a slice, whatever their order.
pub open spec fn member_set_fingerprint(members: Set<Digest>) -> Digest {
    fingerprint("MRV-MEMBER-SET-v1".spec_bytes(), sorted_digests(members))
}

/// The bytes of a digest are those that it was made of.
pub proof fn lemma_digest_of(digest: Digest)
    ensures
        digest_of(digest.0@) == digest,
{
    let other = digest_of(digest.0@);
    assert(other.0@ == digest.0@);
    assert(other.0 =~= digest.0);
}

/// The first half of a hash, as a digest.
pub fn truncate_hash(hash: &[u8]) -> (digest: Digest)
    requires
        hash@.len() >= 32,
    ensures
        digest.0@ == hash@.take(32),
{
    let mut bytes: [u8; 32] = [0u8; 32];
    let mut i: usize = 0;
    while i < 32
        invariant
            i <= 32,
            hash@.len() >= 32,
            forall|j: int| 0 <= j < i ==> #[trigger] bytes@[j] == hash@[j],
        decreases 32 - i,
    {
        bytes[i] = hash[i];
        i = i + 1;
    }
    assert(bytes@ =~= hash@.take(32));
    Digest(bytes)
}

/// Appends bytes.
fn append(bytes: &mut Vec<u8>, more: &[u8])
    ensures
        final(bytes)@ == old(bytes)@ + more@,
{
    let count = more.len();
    let mut i: usize = 0;
    assert(bytes@ =~= old(bytes)@ + more@.take(0));
    while i < count
        invariant
            i <= count,
            count == more@.len(),
            bytes@ == old(bytes)@ + more@.take(i as int),
        decreases count - i,
    {
        bytes.push(more[i]);
        assert(more@.take(i + 1) =~= more@.take(i as int).push(more@[i as int]));
        assert(bytes@ =~= old(bytes)@ + more@.take(i + 1));
        i = i + 1;
    }
    assert(more@.take(count as int) =~= more@);
}

/// Appends a number, least significant byte first.
fn append_number(bytes: &mut Vec<u8>, value: u64)
    ensures
        final(bytes)@ == old(bytes)@ + little_endian(value as int, 8),
{
    let mut rest: u64 = value;
    let mut i: usize = 0;
    assert(bytes@ + little_endian(rest as int, 8) =~= old(bytes)@ + little_endian(value as int, 8));
    while i < 8
        invariant
            i <= 8,
            bytes@ + little_endian(rest as int, (8 - i) as nat) == old(bytes)@ + little_endian(
                value as int,
                8,
            ),
        decreases 8 - i,
    {
        let ghost before = bytes@;
        let low: u8 = (rest % 256) as u8;
        bytes.push(low);
        proof {
            let more = little_endian(rest as int / 256, (8 - i - 1) as nat);
            assert(little_endian(rest as int, (8 - i) as nat) == seq![low] + more);
            assert(before + (seq![low] + more) =~= before.push(low) + more);
        }
        rest = rest / 256;
        i = i + 1;
    }
    assert(bytes@ + little_endian(rest as int, 0) =~= bytes@);
}

/// Appends digests.
fn append_digests(bytes: &mut Vec<u8>, digests: &[Digest])
    ensures
        final(bytes)@ == old(bytes)@ + digest_bytes(digests@),
{
    let count = digests.len();
    let mut i: usize = 0;
    assert(digest_bytes(digests@.take(0)) =~= Seq::<u8>::empty());
    assert(bytes@ =~= old(bytes)@ + digest_bytes(digests@.take(0)));
    while i < count
        invariant
            i <= count,
            count == digests@.len(),
            bytes@ == old(bytes)@ + digest_bytes(digests@.take(i as int)),
        decreases count - i,
    {
        let digest = digests[i];
        append(bytes, &digest.0);
        proof {
            assert(digests@.take(i + 1).drop_last() =~= digests@.take(i as int));
            assert(bytes@ =~= old(bytes)@ + digest_bytes(digests@.take(i + 1)));
        }
        i = i + 1;
    }
    assert(digests@.take(count as int) =~= digests@);
}

/// What is hashed for the fingerprint of a list of digests.
pub fn fingerprint_message(domain: &[u8], digests: &[Digest]) -> (message: Vec<u8>)
    ensures
        message@ == fingerprint_input(domain@, digests@),
{
    let mut message: Vec<u8> = Vec::new();
    append(&mut message, domain);
    append_number(&mut message, digests.len() as u64);
    append_digests(&mut message, digests);
    assert(message@ =~= fingerprint_input(domain@, digests@));
    message
}

/// What is hashed for the fingerprint of the committed prefix that a slice extends.
pub fn prefix_message(
    previous: &Digest,
    leader_round: Round,
    leader_digest: &Digest,
    member_set: &Digest,
) -> (message: Vec<u8>)
    ensures
        message@ == prefix_input(*previous, leader_round, *leader_digest, *member_set),
{
    let mut message: Vec<u8> = Vec::new();
    append(&mut message, "MRV-EXPORT-PREFIX-v1".as_bytes());
    append(&mut message, &previous.0);
    append_number(&mut message, leader_round);
    append(&mut message, &leader_digest.0);
    append(&mut message, &member_set.0);
    assert(message@ =~= prefix_input(*previous, leader_round, *leader_digest, *member_set));
    message
}

/// The fingerprint of a list of digests within a domain.
pub fn fingerprint_digests(domain: &[u8], digests: &[Digest]) -> (digest: Digest)
    ensures
        digest == fingerprint(domain@, digests@),
{
    let digest = truncate_hash(&sha512_hash(&fingerprint_message(domain, digests)));
    proof {
        lemma_digest_of(digest);
    }
    digest
}

/// The fingerprint of the committed prefix that a slice extends.
pub fn extend_prefix(
    previous: &Digest,
    leader_round: Round,
    leader_digest: &Digest,
    member_set: &Digest,
) -> (digest: Digest)
    ensures
        digest == extended_prefix(*previous, leader_round, *leader_digest, *member_set),
{
    let message = prefix_message(previous, leader_round, leader_digest, member_set);
    let digest = truncate_hash(&sha512_hash(&message));
    proof {
        lemma_digest_of(digest);
    }
    digest
}

/// The digests in increasing order.
pub fn sort_digests(digests: &[Digest]) -> (sorted: Vec<Digest>)
    requires
        digests@.no_duplicates(),
    ensures
        increasing(sorted@),
        sorted@.to_set() == digests@.to_set(),
        sorted@.len() == digests@.len(),
        sorted@ == sorted_digests(digests@.to_set()),
{
    let mut members: OrderedSet<Digest> = OrderedSet::new();
    let mut i: usize = 0;
    assert(digests@.take(0).to_set() =~= members@);
    while i < digests.len()
        invariant
            i <= digests@.len(),
            members@ == digests@.take(i as int).to_set(),
        decreases digests.len() - i,
    {
        proof {
            lemma_take_next(digests@, i as int);
        }
        let _ = members.insert(digests[i]);
        i = i + 1;
    }
    assert(digests@.take(digests@.len() as int) =~= digests@);
    let count = members.len();
    let mut sorted: Vec<Digest> = Vec::new();
    let mut j: usize = 0;
    while j < count
        invariant
            j <= count,
            count == members.member_seq().len(),
            sorted@ == members.member_seq().take(j as int),
        decreases count - j,
    {
        sorted.push(members.at(j));
        assert(sorted@ =~= members.member_seq().take(j + 1));
        j = j + 1;
    }
    proof {
        assert(members.member_seq().take(count as int) =~= members.member_seq());
        let chosen = sorted_digests(digests@.to_set());
        assert(increasing(chosen) && chosen.to_set() == digests@.to_set());
        lemma_increasing_unique(sorted@, chosen);
        digests@.unique_seq_to_set();
        sorted@.unique_seq_to_set();
    }
    sorted
}

} // verus!

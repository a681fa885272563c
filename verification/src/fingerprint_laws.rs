//! What goes into the fingerprints of slices, orders and committed prefixes.

use vstd::prelude::*;
use vstd::string::*;

use crate::fingerprint::{
    digest_bytes, extended_prefix, fingerprint, fingerprint_input, lemma_digest_of, little_endian,
    member_set_fingerprint, prefix_input, sha512, sorted_digests,
};
use crate::ordered::{increasing, lemma_increasing_unique, Key};
use crate::types::{Digest, Round};

verus! {

/// A number is written in eight bytes, least significant byte first.
pub proof fn law_little_endian(number: u64)
    ensures
        ({
            let bytes = little_endian(number as int, 8);
            &&& bytes.len() == 8
            &&& number == bytes[0] + bytes[1] * 0x100 + bytes[2] * 0x1_0000 + bytes[3] * 0x100_0000
                + bytes[4] * 0x1_0000_0000 + bytes[5] * 0x100_0000_0000 + bytes[6]
                * 0x1_0000_0000_0000 + bytes[7] * 0x100_0000_0000_0000
        }),
{
    reveal_with_fuel(little_endian, 9);
    let v = number as int;
    let bytes = little_endian(v, 8);
    assert(bytes.len() == 8);
    assert(bytes[0] == (v % 256) as u8);
    assert(bytes[1] == (v / 256 % 256) as u8);
    assert(bytes[2] == (v / 256 / 256 % 256) as u8);
    assert(bytes[3] == (v / 256 / 256 / 256 % 256) as u8);
    assert(bytes[4] == (v / 256 / 256 / 256 / 256 % 256) as u8);
    assert(bytes[5] == (v / 256 / 256 / 256 / 256 / 256 % 256) as u8);
    assert(bytes[6] == (v / 256 / 256 / 256 / 256 / 256 / 256 % 256) as u8);
    assert(bytes[7] == (v / 256 / 256 / 256 / 256 / 256 / 256 / 256 % 256) as u8);
    assert(v / 256 / 256 / 256 / 256 / 256 / 256 / 256 < 256);
}

proof fn lemma_digest_bytes(digests: Seq<Digest>, k: int, i: int)
    ensures
        digest_bytes(digests).len() == 32 * digests.len(),
        0 <= k < digests.len() && 0 <= i < 32 ==> digest_bytes(digests)[32 * k + i]
            == digests[k].0@[i],
    decreases digests.len(),
{
    if digests.len() > 0 {
        lemma_digest_bytes(digests.drop_last(), k, i);
    }
}

/// What is hashed for a list of digests: the domain, the number of digests in eight bytes, least
/// significant byte first, and then the digests one after the other.
pub proof fn law_fingerprint_message(domain: Seq<u8>, digests: Seq<Digest>, k: int, i: int)
    requires
        digests.len() <= u64::MAX,
    ensures
        ({
            let message = fingerprint_input(domain, digests);
            let at = domain.len() as int;
            &&& message.len() == domain.len() + 8 + 32 * digests.len()
            &&& 0 <= i < domain.len() ==> message[i] == domain[i]
            &&& digests.len() == message[at] + message[at + 1] * 0x100 + message[at + 2] * 0x1_0000
                + message[at + 3] * 0x100_0000 + message[at + 4] * 0x1_0000_0000 + message[at + 5]
                * 0x100_0000_0000 + message[at + 6] * 0x1_0000_0000_0000 + message[at + 7]
                * 0x100_0000_0000_0000
            &&& 0 <= k < digests.len() && 0 <= i < 32 ==> message[at + 8 + 32 * k + i]
                == digests[k].0@[i]
        }),
{
    let message = fingerprint_input(domain, digests);
    let at = domain.len() as int;
    let number = little_endian(digests.len() as int, 8);
    law_little_endian(digests.len() as u64);
    lemma_digest_bytes(digests, k, i);
    assert forall|j: int| 0 <= j < 8 implies #[trigger] number[j] == message[at + j] by {}
    assert(message[at + 0] == number[0]);
    assert(message[at + 1] == number[1]);
    assert(message[at + 2] == number[2]);
    assert(message[at + 3] == number[3]);
    assert(message[at + 4] == number[4]);
    assert(message[at + 5] == number[5]);
    assert(message[at + 6] == number[6]);
    assert(message[at + 7] == number[7]);
}

/// What is hashed for a committed prefix: its domain, the fingerprint of the prefix before, the
/// round of the leader in eight bytes, least significant byte first, the digest of the leader, and
/// the fingerprint of the set of vertices.
pub proof fn law_prefix_message(
    previous: Digest,
    leader_round: Round,
    leader_digest: Digest,
    member_set: Digest,
    i: int,
)
    ensures
        ({
            let message = prefix_input(previous, leader_round, leader_digest, member_set);
            let domain = "MRV-EXPORT-PREFIX-v1".spec_bytes();
            let at = domain.len() as int;
            &&& message.len() == domain.len() + 104
            &&& 0 <= i < domain.len() ==> message[i] == domain[i]
            &&& 0 <= i < 32 ==> message[at + i] == previous.0@[i]
            &&& leader_round == message[at + 32] + message[at + 33] * 0x100 + message[at + 34]
                * 0x1_0000 + message[at + 35] * 0x100_0000 + message[at + 36] * 0x1_0000_0000
                + message[at + 37] * 0x100_0000_0000 + message[at + 38] * 0x1_0000_0000_0000
                + message[at + 39] * 0x100_0000_0000_0000
            &&& 0 <= i < 32 ==> message[at + 40 + i] == leader_digest.0@[i]
            &&& 0 <= i < 32 ==> message[at + 72 + i] == member_set.0@[i]
        }),
{
    law_little_endian(leader_round);
}

/// A fingerprint is the first half of the hash of its message.
pub proof fn law_fingerprint(domain: Seq<u8>, digests: Seq<Digest>, digest: Digest)
    requires
        digest.0@ == sha512(fingerprint_input(domain, digests)).take(32),
    ensures
        fingerprint(domain, digests) == digest,
{
    lemma_digest_of(digest);
}

/// The fingerprint of a prefix is the first half of the hash of its message.
pub proof fn law_extended_prefix(
    previous: Digest,
    leader_round: Round,
    leader_digest: Digest,
    member_set: Digest,
    digest: Digest,
)
    requires
        digest.0@ == sha512(
            prefix_input(previous, leader_round, leader_digest, member_set),
        ).take(32),
    ensures
        extended_prefix(previous, leader_round, leader_digest, member_set) == digest,
{
    lemma_digest_of(digest);
}

/// The fingerprint of a set of vertices is that of its digests in ascending order, in a domain of
/// its own, however they were listed.
pub proof fn law_member_set(members: Seq<Digest>, sorted: Seq<Digest>)
    requires
        sorted.to_set() == members.to_set(),
        forall|i: int, j: int|
            0 <= i < j < sorted.len() ==> #[trigger] sorted[i].ord() < #[trigger] sorted[j].ord(),
    ensures
        member_set_fingerprint(members.to_set()) == fingerprint(
            "MRV-MEMBER-SET-v1".spec_bytes(),
            sorted,
        ),
{
    assert(increasing(sorted));
    lemma_increasing_unique(sorted, sorted_digests(members.to_set()));
}

} // verus!

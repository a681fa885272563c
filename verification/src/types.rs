//! Committed certificates and the identifiers that they carry.

use vstd::prelude::*;

use crate::ordered::{Key, KeyOrder};

verus! {

/// A round of the DAG.
pub type Round = u64;

/// The identity of a certificate.
#[derive(Clone, Copy, Debug, PartialEq, Eq, PartialOrd, Ord, Hash)]
pub struct Digest(pub [u8; 32]);

/// The identity of a creator.
#[derive(Clone, Copy, Debug, PartialEq, Eq, PartialOrd, Ord, Hash)]
pub struct PublicKey(pub [u8; 32]);

/// The number that a byte string spells, most significant byte first.
pub open spec fn byte_value(bytes: Seq<u8>) -> int
    decreases bytes.len(),
{
    if bytes.len() == 0 {
        0
    } else {
        byte_value(bytes.drop_last()) * 256 + bytes.last()
    }
}

/// Byte strings of one length compare as the numbers that they spell: by the first byte in which
/// they differ.
pub proof fn lemma_byte_value_lexicographic(a: Seq<u8>, b: Seq<u8>, i: int)
    requires
        a.len() == b.len(),
        0 <= i < a.len(),
        a.take(i) == b.take(i),
        a[i] < b[i],
    ensures
        byte_value(a) < byte_value(b),
    decreases a.len(),
{
    let a_init = a.drop_last();
    let b_init = b.drop_last();
    if i == a.len() - 1 {
        assert(a_init =~= a.take(i));
        assert(b_init =~= b.take(i));
    } else {
        assert(a_init.take(i) =~= a.take(i));
        assert(b_init.take(i) =~= b.take(i));
        lemma_byte_value_lexicographic(a_init, b_init, i);
    }
}

/// Byte strings of one length that spell the same number are the same.
pub proof fn lemma_byte_value_injective(a: Seq<u8>, b: Seq<u8>)
    requires
        a.len() == b.len(),
        byte_value(a) == byte_value(b),
    ensures
        a == b,
    decreases a.len(),
{
    if a.len() > 0 {
        lemma_byte_value_injective(a.drop_last(), b.drop_last());
        assert(a =~= a.drop_last().push(a.last()));
        assert(b =~= b.drop_last().push(b.last()));
    } else {
        assert(a =~= b);
    }
}

/// Compares two byte strings of 32 bytes by the first byte in which they differ.
fn compare_bytes(a: &[u8; 32], b: &[u8; 32]) -> (order: KeyOrder)
    ensures
        order == KeyOrder::Less <==> byte_value(a@) < byte_value(b@),
        order == KeyOrder::Equal <==> a@ == b@,
        order == KeyOrder::Greater <==> byte_value(b@) < byte_value(a@),
{
    let mut i: usize = 0;
    while i < 32
        invariant
            i <= 32,
            a@.take(i as int) == b@.take(i as int),
        decreases 32 - i,
    {
        if a[i] < b[i] {
            proof {
                lemma_byte_value_lexicographic(a@, b@, i as int);
            }
            return KeyOrder::Less;
        }
        if b[i] < a[i] {
            proof {
                lemma_byte_value_lexicographic(b@, a@, i as int);
            }
            return KeyOrder::Greater;
        }
        proof {
            assert(a@.take(i + 1) =~= a@.take(i as int).push(a@[i as int]));
            assert(b@.take(i + 1) =~= b@.take(i as int).push(b@[i as int]));
        }
        i = i + 1;
    }
    assert(a@.take(32) =~= a@);
    assert(b@.take(32) =~= b@);
    KeyOrder::Equal
}

impl Digest {
    /// The digest of all zeros.
    pub fn zero() -> (digest: Digest)
        ensures
            digest.0@ == Seq::new(32, |i: int| 0u8),
    {
        let digest = Digest([0u8; 32]);
        assert(digest.0@ =~= Seq::new(32, |i: int| 0u8));
        digest
    }

    /// Whether the digests are the same.
    pub fn same(&self, other: &Digest) -> (equal: bool)
        ensures
            equal == (*self == *other),
    {
        match self.compare(other) {
            KeyOrder::Equal => true,
            _ => false,
        }
    }
}

impl Key for Digest {
    /// Digests are ordered byte by byte.
    open spec fn ord(self) -> int {
        byte_value(self.0@)
    }

    proof fn lemma_ord_injective(a: Self, b: Self) {
        if a.ord() == b.ord() {
            lemma_byte_value_injective(a.0@, b.0@);
            assert(a.0 =~= b.0);
        }
    }

    fn compare(&self, other: &Self) -> (order: KeyOrder) {
        let order = compare_bytes(&self.0, &other.0);
        assert(self.0@ == other.0@ ==> self.0 =~= other.0);
        order
    }
}

impl Key for PublicKey {
    /// Creators are ordered byte by byte.
    open spec fn ord(self) -> int {
        byte_value(self.0@)
    }

    proof fn lemma_ord_injective(a: Self, b: Self) {
        if a.ord() == b.ord() {
            lemma_byte_value_injective(a.0@, b.0@);
            assert(a.0 =~= b.0);
        }
    }

    fn compare(&self, other: &Self) -> (order: KeyOrder) {
        let order = compare_bytes(&self.0, &other.0);
        assert(self.0@ == other.0@ ==> self.0 =~= other.0);
        order
    }
}

/// A committed vertex of the DAG: who created it, in which round, and on which parents.
#[derive(Debug)]
pub struct Certificate {
    pub digest: Digest,
    pub round: Round,
    pub origin: PublicKey,
    pub parents: Vec<Digest>,
}

/// What a certificate holds.
#[verifier::ext_equal]
pub struct CertificateModel {
    pub digest: Digest,
    pub round: Round,
    pub origin: PublicKey,
    pub parents: Seq<Digest>,
}

impl View for Certificate {
    type V = CertificateModel;

    open spec fn view(&self) -> CertificateModel {
        CertificateModel {
            digest: self.digest,
            round: self.round,
            origin: self.origin,
            parents: self.parents@,
        }
    }
}

impl Clone for Certificate {
    fn clone(&self) -> (copy: Self)
        ensures
            copy@ == self@,
    {
        let parents = self.parents.clone();
        assert(parents@ =~= self.parents@);
        Certificate { digest: self.digest, round: self.round, origin: self.origin, parents }
    }
}

/// One commit of the consensus: the vertices of an execution slice in their native order.
#[derive(Debug)]
pub struct CommittedSubDag {
    pub batch_index: u64,
    pub leader_round: Round,
    pub leader_digest: Digest,
    pub certificates: Vec<Certificate>,
}

/// What a commit holds.
#[verifier::ext_equal]
pub struct CommitModel {
    pub batch_index: u64,
    pub leader_round: Round,
    pub leader_digest: Digest,
    pub certificates: Seq<CertificateModel>,
}

impl View for CommittedSubDag {
    type V = CommitModel;

    open spec fn view(&self) -> CommitModel {
        CommitModel {
            batch_index: self.batch_index,
            leader_round: self.leader_round,
            leader_digest: self.leader_digest,
            certificates: self.certificates@.map_values(|certificate: Certificate| certificate@),
        }
    }
}

impl CommitModel {
    /// The digests of the vertices in their native order.
    pub open spec fn members(self) -> Seq<Digest> {
        self.certificates.map_values(|certificate: CertificateModel| certificate.digest)
    }
}

} // verus!

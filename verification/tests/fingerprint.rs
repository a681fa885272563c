use mrv_executor::fingerprint::{
    extend_prefix, fingerprint_digests, fingerprint_message, prefix_message, sort_digests,
    truncate_hash,
};
use mrv_executor::types::Digest;

fn raw_digest(value: u8) -> Digest {
    Digest([value; 32])
}

#[test]
fn diagnostic_fingerprints_separate_member_set_and_orders() {
    let a = raw_digest(1);
    let b = raw_digest(2);
    let first_order = vec![a, b];
    let second_order = vec![b, a];
    let mut first_set = first_order.clone();
    first_set.sort();
    let mut second_set = second_order.clone();
    second_set.sort();

    assert_eq!(
        fingerprint_digests(b"MRV-MEMBER-SET-v1", &first_set),
        fingerprint_digests(b"MRV-MEMBER-SET-v1", &second_set),
    );
    assert_ne!(
        fingerprint_digests(b"MRV-MEMBER-ORDER-v1", &first_order),
        fingerprint_digests(b"MRV-MEMBER-ORDER-v1", &second_order),
    );
    assert_ne!(
        fingerprint_digests(b"MRV-MEMBER-ORDER-v1", &first_order),
        fingerprint_digests(b"MRV-EXECUTION-ORDER-v1", &first_order),
    );
}

#[test]
fn sorting_agrees_with_the_order_of_digests() {
    let digests = vec![raw_digest(9), raw_digest(200), raw_digest(1), raw_digest(10)];
    let mut expected = digests.clone();
    expected.sort();
    assert_eq!(sort_digests(&digests), expected);
}

#[test]
fn message_holds_domain_length_and_digests() {
    let message = fingerprint_message(b"ab", &[raw_digest(5), raw_digest(6)]);
    let mut expected = b"ab".to_vec();
    expected.extend(2u64.to_le_bytes());
    expected.extend([5u8; 32]);
    expected.extend([6u8; 32]);
    assert_eq!(message, expected);
    assert_eq!(fingerprint_message(b"", &[]), vec![0u8; 8]);
}

#[test]
fn prefix_message_holds_all_parts() {
    let message = prefix_message(&raw_digest(1), 0x0102_0304, &raw_digest(2), &raw_digest(3));
    let mut expected = b"MRV-EXPORT-PREFIX-v1".to_vec();
    expected.extend([1u8; 32]);
    expected.extend([4, 3, 2, 1, 0, 0, 0, 0]);
    expected.extend([2u8; 32]);
    expected.extend([3u8; 32]);
    assert_eq!(message, expected);
}

#[test]
fn truncation_keeps_the_first_half() {
    let hash: Vec<u8> = (0..64).collect();
    let digest = truncate_hash(&hash);
    assert_eq!(digest.0.to_vec(), (0..32).collect::<Vec<u8>>());
}

#[test]
fn fingerprint_is_the_truncated_hash_of_the_message() {
    // The first half of the SHA-512 hash of eight zero bytes.
    let expected: [u8; 32] = [
        0x1b, 0x74, 0x09, 0xcc, 0xf0, 0xd5, 0xa3, 0x4d, 0x3a, 0x77, 0xea, 0xab, 0xfa, 0x9f, 0xe2,
        0x74, 0x27, 0x65, 0x5b, 0xe9, 0x29, 0x71, 0x27, 0xee, 0x95, 0x22, 0xaa, 0x1b, 0xf4, 0x04,
        0x6d, 0x4f,
    ];
    assert_eq!(fingerprint_digests(b"", &[]), Digest(expected));
}

#[test]
fn prefix_is_the_truncated_hash_of_the_message() {
    let expected: [u8; 32] = [
        0x3b, 0xeb, 0x40, 0xe7, 0x5e, 0xb6, 0xa9, 0x3c, 0xe2, 0xc2, 0x7e, 0x0d, 0xe9, 0xa6, 0x9b,
        0xca, 0x0d, 0x30, 0xb5, 0xfe, 0x73, 0x94, 0x5d, 0x59, 0x91, 0x5b, 0x3e, 0xbf, 0x04, 0x6e,
        0x59, 0xca,
    ];
    let prefix = extend_prefix(&raw_digest(1), 1, &raw_digest(2), &raw_digest(3));
    assert_eq!(prefix, Digest(expected));
    assert_ne!(
        prefix,
        extend_prefix(&raw_digest(1), 2, &raw_digest(2), &raw_digest(3)),
    );
}

use kzg_blob::blob::{Blob, BYTES_PER_BLOB};
use kzg_blob::eip_4844::Bytes48;
use kzg_blob::fr::{be_sub, hash_to_fr, u64_to_be_bytes, MODULUS_BE};
use kzg_blob::transcript::{compute_batch_challenge_input, compute_challenge_input};

fn hex32(s: &str) -> [u8; 32] {
    let mut out = [0u8; 32];
    for i in 0..32 {
        out[i] = u8::from_str_radix(&s[2 * i..2 * i + 2], 16).unwrap();
    }
    out
}

#[test]
fn be_sub_borrows_across_bytes() {
    let mut a = [0u8; 32];
    a[30] = 1;
    let mut b = [0u8; 32];
    b[31] = 1;
    let mut expected = [0u8; 32];
    expected[31] = 0xff;
    assert_eq!(be_sub(&a, &b), expected);
    assert_eq!(be_sub(&MODULUS_BE, &MODULUS_BE), [0u8; 32]);
}

#[test]
fn hash_to_fr_reduces_modulo_order() {
    assert_eq!(hash_to_fr(&[0u8; 32]).bytes, [0u8; 32]);
    assert_eq!(hash_to_fr(&MODULUS_BE).bytes, [0u8; 32]);
    let mut above = MODULUS_BE;
    above[31] += 5;
    let mut five = [0u8; 32];
    five[31] = 5;
    assert_eq!(hash_to_fr(&above).bytes, five);
    assert_eq!(
        hash_to_fr(&[0xff; 32]).bytes,
        hex32("1824b159acc5056f998c4fefecbc4ff55884b7fa0003480200000001fffffffd")
    );
    assert_eq!(
        hash_to_fr(&[0xab; 32]).bytes,
        hex32("37be0458820e2e637871d3a3a209d3a657ee07a8abad4facabababacabababaa")
    );
}

#[test]
fn hash_to_fr_keeps_small_digests() {
    let mut below = MODULUS_BE;
    below[31] -= 1;
    assert_eq!(hash_to_fr(&below).bytes, below);
}

#[test]
fn u64_big_endian() {
    assert_eq!(u64_to_be_bytes(4096), [0, 0, 0, 0, 0, 0, 0x10, 0]);
    assert_eq!(u64_to_be_bytes(0x0102030405060708), [1, 2, 3, 4, 5, 6, 7, 8]);
    assert_eq!(u64_to_be_bytes(u64::MAX), [0xff; 8]);
}

#[test]
fn challenge_input_layout() {
    let mut bytes = vec![0u8; BYTES_PER_BLOB];
    bytes[0] = 0xaa;
    let blob = Blob { bytes };
    let commitment = Bytes48 { bytes: [0xc0; 48] };
    let input = compute_challenge_input(&blob, &commitment);
    assert_eq!(input.len(), 16 + 8 + BYTES_PER_BLOB + 48);
    assert_eq!(&input[..16], b"FSBLOBVERIFY_V1_");
    assert_eq!(&input[16..24], &[0, 0, 0, 0, 0, 0, 0x10, 0]);
    assert_eq!(input[24], 0xaa);
    assert_eq!(&input[24 + BYTES_PER_BLOB..], &[0xc0; 48][..]);
}

#[test]
fn batch_challenge_input_layout() {
    let blobs = vec![Blob { bytes: vec![1u8; 4] }, Blob { bytes: vec![2u8; 4] }];
    let commitments = vec![Bytes48 { bytes: [3; 48] }, Bytes48 { bytes: [4; 48] }];
    let proofs = vec![Bytes48 { bytes: [5; 48] }, Bytes48 { bytes: [6; 48] }];
    let input = compute_batch_challenge_input(&blobs, &commitments, &proofs);
    assert_eq!(&input[..16], b"RCKZGBATCH___V1_");
    assert_eq!(&input[16..24], &[0, 0, 0, 0, 0, 0, 0x10, 0]);
    assert_eq!(&input[24..32], &[0, 0, 0, 0, 0, 0, 0, 2]);
    let mut expected_tail = Vec::new();
    for (v, n) in [(3u8, 48usize), (1, 4), (5, 48), (4, 48), (2, 4), (6, 48)] {
        expected_tail.extend(std::iter::repeat(v).take(n));
    }
    assert_eq!(&input[32..], &expected_tail[..]);
    let empty = compute_batch_challenge_input(&vec![], &vec![], &vec![]);
    assert_eq!(empty.len(), 32);
}

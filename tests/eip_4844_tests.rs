use std::sync::Arc;

use kzg_blob::backend::KzgBackend;
use kzg_blob::blob::{Blob, BYTES_PER_BLOB};
use kzg_blob::eip_4844::{
    blob_to_kzg_commitment, bytes_from_g1, compute_blob_kzg_proof, compute_challenge,
    compute_kzg_proof, load_trusted_setup, load_trusted_setup_file, verify_blob_kzg_proof,
    verify_blob_kzg_proof_batch, verify_kzg_proof, Bytes32, Bytes48, CKzgRet, G1_GENERATOR,
    ROOT_OF_UNITY_4096,
};
use kzg_blob::fr::{Fr, MODULUS_BE};
use kzg_blob::poly::FrArith;
use kzg_blob::settings::{CKzgSettings, PrecomputationTableManager, G1, G2};
use kzg_blob::setup_text::trusted_setup_text;
use vstd::prelude::nat;
use vstd::seq::Seq;

/// The arithmetic of the BLS12-381 scalar field on four 64-bit limbs, least
/// significant first: a slow but plain stand-in for a curve backend.
struct BlsArith;

const R: [u64; 4] = [
    0xffffffff00000001,
    0x53bda402fffe5bfe,
    0x3339d80809a1d805,
    0x73eda753299d7d48,
];

fn limbs(f: &Fr) -> [u64; 4] {
    let mut l = [0u64; 4];
    for k in 0..4 {
        let start = 32 - 8 * (k + 1);
        l[k] = u64::from_be_bytes(f.bytes[start..start + 8].try_into().unwrap());
    }
    l
}

fn from_limbs(l: [u64; 4]) -> Fr {
    let mut bytes = [0u8; 32];
    for k in 0..4 {
        let start = 32 - 8 * (k + 1);
        bytes[start..start + 8].copy_from_slice(&l[k].to_be_bytes());
    }
    Fr { bytes }
}

fn geq(a: &[u64; 4], b: &[u64; 4]) -> bool {
    for k in (0..4).rev() {
        if a[k] != b[k] {
            return a[k] > b[k];
        }
    }
    true
}

fn add_raw(a: &[u64; 4], b: &[u64; 4]) -> [u64; 4] {
    let mut r = [0u64; 4];
    let mut carry = 0u128;
    for k in 0..4 {
        let s = a[k] as u128 + b[k] as u128 + carry;
        r[k] = s as u64;
        carry = s >> 64;
    }
    r
}

fn sub_raw(a: &[u64; 4], b: &[u64; 4]) -> [u64; 4] {
    let mut r = [0u64; 4];
    let mut borrow = 0u64;
    for k in 0..4 {
        let (d1, o1) = a[k].overflowing_sub(b[k]);
        let (d2, o2) = d1.overflowing_sub(borrow);
        r[k] = d2;
        borrow = (o1 || o2) as u64;
    }
    r
}

fn add_mod(a: &[u64; 4], b: &[u64; 4]) -> [u64; 4] {
    let s = add_raw(a, b);
    if geq(&s, &R) {
        sub_raw(&s, &R)
    } else {
        s
    }
}

fn mul_mod(a: &[u64; 4], b: &[u64; 4]) -> [u64; 4] {
    let mut acc = [0u64; 4];
    for i in (0..256).rev() {
        acc = add_mod(&acc, &acc);
        if (b[i / 64] >> (i % 64)) & 1 == 1 {
            acc = add_mod(&acc, a);
        }
    }
    acc
}

impl FrArith for BlsArith {
    fn fr_add(&self, a: &Fr, b: &Fr) -> Fr {
        from_limbs(add_mod(&limbs(a), &limbs(b)))
    }

    fn fr_sub(&self, a: &Fr, b: &Fr) -> Fr {
        let (a, b) = (limbs(a), limbs(b));
        if geq(&a, &b) {
            from_limbs(sub_raw(&a, &b))
        } else {
            from_limbs(sub_raw(&add_raw(&a, &R), &b))
        }
    }

    fn fr_mul(&self, a: &Fr, b: &Fr) -> Fr {
        from_limbs(mul_mod(&limbs(a), &limbs(b)))
    }

    fn fr_inv(&self, a: &Fr) -> Fr {
        let e = sub_raw(&R, &[2, 0, 0, 0]);
        let a = limbs(a);
        let mut acc = [1u64, 0, 0, 0];
        for i in (0..256).rev() {
            acc = mul_mod(&acc, &acc);
            if (e[i / 64] >> (i % 64)) & 1 == 1 {
                acc = mul_mod(&acc, &a);
            }
        }
        from_limbs(acc)
    }
}

/// A stand-in for the curve: a point is valid when its compression flag is set;
/// a combination carries its first scalar and the tail of its first point; two
/// pairings agree when their G1 arguments do.
struct MockBackend;

impl FrArith for MockBackend {
    fn fr_add(&self, a: &Fr, b: &Fr) -> Fr {
        BlsArith.fr_add(a, b)
    }

    fn fr_sub(&self, a: &Fr, b: &Fr) -> Fr {
        BlsArith.fr_sub(a, b)
    }

    fn fr_mul(&self, a: &Fr, b: &Fr) -> Fr {
        BlsArith.fr_mul(a, b)
    }

    fn fr_inv(&self, a: &Fr) -> Fr {
        BlsArith.fr_inv(a)
    }
}

fn combine(first_scalar: Option<&Fr>, first_point_tail: Option<&[u8]>) -> G1 {
    let mut bytes = [0x80u8; 48];
    if let Some(s) = first_scalar {
        bytes[1..33].copy_from_slice(&s.bytes);
    }
    if let Some(t) = first_point_tail {
        bytes[33..48].copy_from_slice(t);
    }
    G1 { bytes }
}

impl KzgBackend for MockBackend {
    type Table = u32;

    fn g1_valid(&self, _b: Seq<u8>) -> bool {
        unreachable!()
    }

    fn g2_valid(&self, _b: Seq<u8>) -> bool {
        unreachable!()
    }

    fn g1_msm(&self, _points: Seq<G1>, _scalars: Seq<nat>) -> G1 {
        unreachable!()
    }

    fn g2_msm(&self, _points: Seq<G2>, _scalars: Seq<nat>) -> G2 {
        unreachable!()
    }

    fn pairing_eq(&self, _a: G1, _b: G2, _c: G1, _d: G2) -> bool {
        unreachable!()
    }

    fn sha256(&self, _msg: Seq<u8>) -> Seq<u8> {
        unreachable!()
    }

    fn g1_ifft(&self, _points: Seq<G1>, _roots: Seq<Fr>) -> Seq<G1> {
        unreachable!()
    }

    fn makes_table(&self, _n: nat) -> bool {
        unreachable!()
    }

    fn g1_from_bytes(&self, b: &[u8; 48]) -> Option<G1> {
        if b[0] & 0x80 != 0 {
            Some(G1 { bytes: *b })
        } else {
            None
        }
    }

    fn g2_from_bytes(&self, b: &[u8; 96]) -> Option<G2> {
        if b[0] & 0x80 != 0 {
            Some(G2 { bytes: *b })
        } else {
            None
        }
    }

    fn g1_lincomb(&self, points: &Vec<G1>, scalars: &Vec<Fr>, _table: &Option<Arc<u32>>) -> G1 {
        combine(scalars.first(), points.first().map(|p| &p.bytes[33..48]))
    }

    fn g2_lincomb(&self, points: &Vec<G2>, _scalars: &Vec<Fr>) -> G2 {
        points[0]
    }

    fn pairings_verify(&self, a: &G1, _b: &G2, c: &G1, _d: &G2) -> bool {
        a == c
    }

    fn sha256_digest(&self, msg: &Vec<u8>) -> [u8; 32] {
        let mut d = [0u8; 32];
        for (i, b) in msg.iter().enumerate() {
            d[i % 32] = d[i % 32].wrapping_mul(31).wrapping_add(*b);
        }
        d[0] = 0;
        d
    }

    fn g1_ifft_exec(&self, points: &Vec<G1>, _roots: &Vec<Fr>) -> Vec<G1> {
        points.clone()
    }

    fn precompute(&self, points: &Vec<G1>) -> Option<Arc<u32>> {
        Some(Arc::new(points.len() as u32))
    }
}

fn empty_setup() -> CKzgSettings {
    CKzgSettings {
        max_width: 0,
        roots_of_unity: Vec::new(),
        g1_values: Vec::new(),
        g2_values: Vec::new(),
    }
}

fn g1_setup_bytes() -> Vec<u8> {
    (0..4096 * 48).map(|i| if i % 48 == 0 { 0x80 } else { (i % 251) as u8 }).collect()
}

fn setup() -> CKzgSettings {
    let mut out = empty_setup();
    let mut tables = PrecomputationTableManager::new();
    let g1 = g1_setup_bytes();
    let g2 = vec![0x80u8; 65 * 96];
    assert_eq!(
        load_trusted_setup(&mut out, &g1, 4096, &g2, 65, &mut tables, &MockBackend),
        CKzgRet::Success
    );
    out
}

fn fr_of_u64(v: u64) -> Fr {
    Fr::from_u64(v)
}

fn blob_with(first: u64, second: u64) -> Blob {
    let mut bytes = vec![0u8; BYTES_PER_BLOB];
    bytes[24..32].copy_from_slice(&first.to_be_bytes());
    bytes[56..64].copy_from_slice(&second.to_be_bytes());
    Blob { bytes }
}

#[test]
fn load_trusted_setup_builds_domain_and_keeps_table() {
    let mut out = empty_setup();
    let mut tables = PrecomputationTableManager::new();
    let g1 = g1_setup_bytes();
    let g2 = vec![0x80u8; 65 * 96];
    assert_eq!(
        load_trusted_setup(&mut out, &g1, 4096, &g2, 65, &mut tables, &MockBackend),
        CKzgRet::Success
    );
    assert_eq!(out.max_width, 4096);
    assert_eq!(out.roots_of_unity.len(), 4096);
    assert_eq!(out.roots_of_unity[0], Fr::one());
    assert_eq!(out.roots_of_unity[1].bytes, ROOT_OF_UNITY_4096);
    let w2 = BlsArith.fr_mul(&out.roots_of_unity[1], &out.roots_of_unity[1]);
    assert_eq!(out.roots_of_unity[2], w2);
    // w^2048 is -1
    let minus_one = BlsArith.fr_sub(&Fr::zero(), &Fr::one());
    assert_eq!(out.roots_of_unity[2048], minus_one);
    // the points come back in bit-reversed order
    assert_eq!(out.g1_values[1].bytes[..], g1[2048 * 48..2049 * 48]);
    assert_eq!(out.g2_values.len(), 65);
    assert_eq!(tables.get_precomputation(&out).map(|t| *t), Some(4096));
}

#[test]
fn load_trusted_setup_refuses_bad_input() {
    let mut out = empty_setup();
    let mut tables = PrecomputationTableManager::new();
    let g1 = g1_setup_bytes();
    let g2 = vec![0x80u8; 65 * 96];
    assert_eq!(
        load_trusted_setup(&mut out, &g1, 4095, &g2, 65, &mut tables, &MockBackend),
        CKzgRet::BadArgs
    );
    assert_eq!(
        load_trusted_setup(&mut out, &g1, 4096, &g2, 64, &mut tables, &MockBackend),
        CKzgRet::BadArgs
    );
    let mut bad_point = g1.clone();
    bad_point[48 * 7] = 0;
    assert_eq!(
        load_trusted_setup(&mut out, &bad_point, 4096, &g2, 65, &mut tables, &MockBackend),
        CKzgRet::BadArgs
    );
    assert_eq!(out.max_width, 0);
    assert!(tables.get_precomputation(&out).is_none());
}

#[test]
fn load_trusted_setup_file_from_text() {
    let g1 = g1_setup_bytes();
    let g2 = vec![0x80u8; 65 * 96];
    let text = String::from_utf8(trusted_setup_text(&g1, &g2)).unwrap();
    let mut out = empty_setup();
    let mut tables = PrecomputationTableManager::new();
    assert_eq!(
        load_trusted_setup_file(&mut out, &text, &mut tables, &MockBackend),
        CKzgRet::Success
    );
    assert_eq!(out.max_width, 4096);
    assert_eq!(out.g2_values.len(), 65);

    let mut fresh = empty_setup();
    assert_eq!(
        load_trusted_setup_file(&mut fresh, "4096\n65\n", &mut tables, &MockBackend),
        CKzgRet::BadArgs
    );
    assert_eq!(fresh.max_width, 0);
}

#[test]
fn commitment_written_on_success() {
    let s = setup();
    let tables = PrecomputationTableManager::new();
    let mut out = Bytes48 { bytes: [0u8; 48] };
    let r = blob_to_kzg_commitment(&mut out, &blob_with(5, 6), &s, &tables, &MockBackend);
    assert_eq!(r, CKzgRet::Success);
    assert_eq!(out.bytes[1..33], fr_of_u64(5).bytes);
}

#[test]
fn commitment_bad_blob_or_setup_leaves_output() {
    let s = setup();
    let tables = PrecomputationTableManager::new();
    let mut out = Bytes48 { bytes: [9u8; 48] };
    let mut blob = blob_with(5, 6);
    blob.bytes[..32].copy_from_slice(&MODULUS_BE);
    assert_eq!(
        blob_to_kzg_commitment(&mut out, &blob, &s, &tables, &MockBackend),
        CKzgRet::BadArgs
    );
    let short = Blob { bytes: vec![0u8; 64] };
    assert_eq!(
        blob_to_kzg_commitment(&mut out, &short, &s, &tables, &MockBackend),
        CKzgRet::BadArgs
    );
    let mut narrow = setup();
    narrow.max_width = 8;
    assert_eq!(
        blob_to_kzg_commitment(&mut out, &blob_with(5, 6), &narrow, &tables, &MockBackend),
        CKzgRet::BadArgs
    );
    assert_eq!(out.bytes, [9u8; 48]);
}

#[test]
fn verify_kzg_proof_bad_inputs_clear_flag() {
    let s = setup();
    let good = Bytes48 { bytes: [0x80u8; 48] };
    let bad_point = Bytes48 { bytes: [0u8; 48] };
    let z = Bytes32 { bytes: [0u8; 32] };
    let bad_scalar = Bytes32 { bytes: [0xffu8; 32] };
    let mut ok = true;
    assert_eq!(
        verify_kzg_proof(&mut ok, &bad_point, &z, &z, &good, &s, &MockBackend),
        CKzgRet::BadArgs
    );
    assert!(!ok);
    ok = true;
    assert_eq!(
        verify_kzg_proof(&mut ok, &good, &z, &bad_scalar, &good, &s, &MockBackend),
        CKzgRet::BadArgs
    );
    assert!(!ok);
    ok = true;
    let mut narrow = setup();
    narrow.g2_values.truncate(1);
    assert_eq!(
        verify_kzg_proof(&mut ok, &good, &z, &z, &good, &narrow, &MockBackend),
        CKzgRet::BadArgs
    );
    assert!(!ok);
}

#[test]
fn verify_kzg_proof_runs_the_pairing_check() {
    let s = setup();
    let c = Bytes48 { bytes: [0x81u8; 48] };
    let z = Bytes32 { bytes: fr_of_u64(3).bytes };
    let y = Bytes32 { bytes: fr_of_u64(4).bytes };
    // the mock's left side carries the scalar one and the commitment's tail
    let matching = Bytes48 { bytes: combine(Some(&Fr::one()), Some(&c.bytes[33..48])).bytes };
    let mut ok = false;
    assert_eq!(
        verify_kzg_proof(&mut ok, &c, &z, &y, &matching, &s, &MockBackend),
        CKzgRet::Success
    );
    assert!(ok);
    let other = Bytes48 { bytes: [0x80u8; 48] };
    assert_eq!(
        verify_kzg_proof(&mut ok, &c, &z, &y, &other, &s, &MockBackend),
        CKzgRet::Success
    );
    assert!(!ok);
}

#[test]
fn blob_proof_functions_refuse_bad_input() {
    let s = setup();
    let tables = PrecomputationTableManager::new();
    let good = Bytes48 { bytes: [0x80u8; 48] };
    let bad = Bytes48 { bytes: [0u8; 48] };
    let mut proof = Bytes48 { bytes: [4u8; 48] };
    assert_eq!(
        compute_blob_kzg_proof(&mut proof, &blob_with(1, 2), &bad, &s, &tables, &MockBackend),
        CKzgRet::BadArgs
    );
    assert_eq!(proof.bytes, [4u8; 48]);
    let mut ok = true;
    assert_eq!(
        verify_blob_kzg_proof(&mut ok, &blob_with(1, 2), &good, &bad, &s, &MockBackend),
        CKzgRet::BadArgs
    );
    assert!(!ok);
    let mut y = Bytes32 { bytes: [1u8; 32] };
    let z = Bytes32 { bytes: MODULUS_BE };
    assert_eq!(
        compute_kzg_proof(&mut proof, &mut y, &blob_with(1, 2), &z, &s, &tables, &MockBackend),
        CKzgRet::BadArgs
    );
    assert_eq!(y.bytes, [1u8; 32]);
}

#[test]
fn batch_of_none_holds() {
    let s = setup();
    let mut ok = false;
    assert_eq!(
        verify_blob_kzg_proof_batch(&mut ok, &vec![], &vec![], &vec![], &s, &MockBackend),
        CKzgRet::Success
    );
    assert!(ok);
}

#[test]
fn batch_bad_inputs_clear_flag() {
    let s = setup();
    let good = Bytes48 { bytes: [0x80u8; 48] };
    let bad = Bytes48 { bytes: [0u8; 48] };
    let mut ok = true;
    assert_eq!(
        verify_blob_kzg_proof_batch(&mut ok, &vec![blob_with(1, 2)], &vec![good], &vec![bad], &s, &MockBackend),
        CKzgRet::BadArgs
    );
    assert!(!ok);
    ok = true;
    assert_eq!(
        verify_blob_kzg_proof_batch(&mut ok, &vec![blob_with(1, 2)], &vec![good], &vec![], &s, &MockBackend),
        CKzgRet::BadArgs
    );
    assert!(!ok);
}

#[test]
fn challenge_depends_on_commitment() {
    let blob = blob_with(1, 2);
    let a = compute_challenge(&MockBackend, &blob, &Bytes48 { bytes: [0x80u8; 48] });
    let b = compute_challenge(&MockBackend, &blob, &Bytes48 { bytes: [0x81u8; 48] });
    assert_ne!(a, b);
    assert_eq!(a, compute_challenge(&MockBackend, &blob, &Bytes48 { bytes: [0x80u8; 48] }));
}

#[test]
fn bytes_from_g1_copies_encoding() {
    let g = G1 { bytes: G1_GENERATOR };
    let mut out = [0u8; 48];
    bytes_from_g1(&mut out, &g);
    assert_eq!(out, G1_GENERATOR);
}

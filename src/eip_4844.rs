use std::sync::Arc;

use vstd::prelude::*;

use vstd::arithmetic::power::pow;

use crate::backend::{values, KzgBackend};
use crate::blob::{
    blob_valid, decode_blob, deserialize_blob, fr_of, lemma_fr_of, Blob, FIELD_ELEMENTS_PER_BLOB,
};
use crate::domain::{bit_reversed, is_pow2, reverse_bit_order};
use crate::fr::{be_less, be_nat, hash_to_fr, is_canonical, modulus, Fr, MODULUS_BE};
use crate::kzg::{
    add_v, compute_quotient, eval_spec, evaluate_polynomial_in_evaluation_form, mul_v, pow_v,
    quotient_spec, sub_v,
};
use crate::poly::FrArith;
use crate::fr::{bytes_at, lemma_be_nat_bound, lemma_be_nat_prepend, pow256};
use crate::settings::{copy_vec, setup_key, CKzgSettings, PrecomputationTableManager, G1, G2};
use crate::setup_text::{load_trusted_setup_string, parse_setup, TRUSTED_SETUP_NUM_G2_POINTS};
use vstd::string::StringSliceAdditionalSpecFns;
use crate::transcript::{
    batch_challenge_bytes, challenge_bytes, compute_batch_challenge_input, compute_challenge_input,
};


verus! {

/// Return codes of the C interface.
#[derive(Clone, Copy, Debug, PartialEq, Eq, Structural)]
pub enum CKzgRet {
    /// Success.
    Success,
    /// An input was malformed or out of range.
    BadArgs,
    /// An internal failure.
    InternalError,
}

/// 32 bytes: a field element at the boundary.
#[derive(Clone, Copy, Debug, PartialEq, Eq)]
pub struct Bytes32 {
    pub bytes: [u8; 32],
}

/// 48 bytes: a compressed G1 point at the boundary.
#[derive(Clone, Copy, Debug, PartialEq, Eq)]
pub struct Bytes48 {
    pub bytes: [u8; 48],
}

/// A commitment: a compressed G1 point.
pub type KZGCommitment = Bytes48;

/// A proof: a compressed G1 point.
pub type KZGProof = Bytes48;

/// The compressed encoding of the generator of G1.
pub const G1_GENERATOR: [u8; 48] = [
    0x97, 0xf1, 0xd3, 0xa7, 0x31, 0x97, 0xd7, 0x94, 0x26, 0x95, 0x63, 0x8c, 0x4f, 0xa9, 0xac, 0x0f,
    0xc3, 0x68, 0x8c, 0x4f, 0x97, 0x74, 0xb9, 0x05, 0xa1, 0x4e, 0x3a, 0x3f, 0x17, 0x1b, 0xac, 0x58,
    0x6c, 0x55, 0xe8, 0x3f, 0xf9, 0x7a, 0x1a, 0xef, 0xfb, 0x3a, 0xf0, 0x0a, 0xdb, 0x22, 0xc6, 0xbb,
];

/// The generator of G1.
pub open spec fn g1_gen() -> G1 {
    G1 { bytes: G1_GENERATOR }
}

/// The G1 point whose encoding is the 48 bytes `b`.
pub open spec fn g1_of(b: Seq<u8>) -> G1 {
    G1 { bytes: choose|a: [u8; 48]| a@ == b }
}

proof fn lemma_g1_of(g: G1)
    ensures
        g1_of(g.bytes@) == g,
{
    broadcast use vstd::array::axiom_array_ext_equal;

    let b = g.bytes@;
    let a = choose|a: [u8; 48]| a@ == b;
    assert(a@ == b);
    assert(a =~= g.bytes);
    assert(g1_of(b).bytes == a);
    assert(g == G1 { bytes: a });
}

/// Decodes a compressed G1 point through the backend.
fn decode_g1<B: KzgBackend>(backend: &B, b: &Bytes48) -> (r: Option<G1>)
    ensures
        r is Some <==> backend.g1_valid(b.bytes@),
        r matches Some(g) ==> g == g1_of(b.bytes@),
{
    let r = backend.g1_from_bytes(&b.bytes);
    proof {
        if let Some(g) = r {
            lemma_g1_of(g);
        }
    }
    r
}

/// Writes the compressed encoding of `g` to `out`.
pub fn bytes_from_g1(out: &mut [u8; 48], g: &G1)
    ensures
        final(out)@ == g.bytes@,
{
    *out = g.bytes;
}

/// The setup fits the blobs: 4096 canonical roots of unity, a power of two,
/// 4096 G1 points, and at least the two G2 points `[1]` and `[tau]`.
pub open spec fn setup_ok(s: &CKzgSettings) -> bool {
    &&& s.width_ok()
    &&& s.max_width == FIELD_ELEMENTS_PER_BLOB
    &&& s.g1_values@.len() == FIELD_ELEMENTS_PER_BLOB
    &&& s.g2_values@.len() >= 2
    &&& forall|i: int| 0 <= i < s.roots_of_unity@.len() ==> (#[trigger] s.roots_of_unity@[i]).wf()
}

/// The evaluation domain of blobs: the roots of unity in bit-reversed order.
pub open spec fn domain(s: &CKzgSettings) -> Seq<Fr> {
    bit_reversed(s.roots_of_unity@)
}

/// Checks `setup_ok`.
fn check_setup(s: &CKzgSettings) -> (r: bool)
    ensures
        r == setup_ok(s),
{
    if s.max_width != 4096 || s.roots_of_unity.len() != 4096 || s.g1_values.len() != 4096
        || s.g2_values.len() < 2 {
        return false;
    }
    assert(is_pow2(4096)) by {
        reveal_with_fuel(is_pow2, 14);
    }
    let mut i: usize = 0;
    while i < s.roots_of_unity.len()
        invariant
            i <= s.roots_of_unity@.len(),
            forall|k: int| 0 <= k < i ==> (#[trigger] s.roots_of_unity@[k]).wf(),
        decreases s.roots_of_unity@.len() - i,
    {
        if !be_less(&s.roots_of_unity[i].bytes, &MODULUS_BE) {
            return false;
        }
        i = i + 1;
    }
    true
}

/// The domain of `s`, as a vector.
fn domain_of(s: &CKzgSettings) -> (r: Vec<Fr>)
    requires
        setup_ok(s),
    ensures
        r@ == domain(s),
        forall|i: int| 0 <= i < r@.len() ==> (#[trigger] r@[i]).wf(),
        r@.len() == FIELD_ELEMENTS_PER_BLOB,
{
    let mut d = copy_vec(&s.roots_of_unity);
    let _ = reverse_bit_order(&mut d);
    proof {
        assert forall|i: int| 0 <= i < d@.len() implies (#[trigger] d@[i]).wf() by {
            crate::domain::lemma_rev_bits_bound(i as nat, crate::domain::log2(4096));
            crate::domain::lemma_pow2_log2(4096);
        }
    }
    d
}

/// The Fiat-Shamir challenge of a blob and its commitment.
pub open spec fn challenge_v<B: KzgBackend>(backend: &B, blob: Seq<u8>, commitment: Seq<u8>) -> nat {
    be_nat(backend.sha256(challenge_bytes(blob, commitment))) % modulus()
}

/// Computes the Fiat-Shamir challenge of a blob and its commitment.
pub fn compute_challenge<B: KzgBackend>(backend: &B, blob: &Blob, commitment: &Bytes48) -> (r: Fr)
    ensures
        r.wf(),
        r.value() == challenge_v(backend, blob.bytes@, commitment.bytes@),
{
    let input = compute_challenge_input(blob, commitment);
    let digest = backend.sha256_digest(&input);
    hash_to_fr(&digest)
}

/// The pairing check of a single proof: `e(C - y*G, [1]) == e(proof, [tau] - z*[1])`.
pub open spec fn verify_pairing<B: KzgBackend>(
    backend: &B,
    commitment: G1,
    z: nat,
    y: nat,
    proof: G1,
    s: &CKzgSettings,
) -> bool {
    backend.pairing_eq(
        backend.g1_msm(seq![commitment, g1_gen()], seq![1nat, sub_v(0, y)]),
        s.g2_values@[0],
        proof,
        backend.g2_msm(seq![s.g2_values@[1], s.g2_values@[0]], seq![1nat, sub_v(0, z)]),
    )
}

/// Runs the pairing check of a single proof.
fn verify_kzg_proof_impl<B: KzgBackend>(
    backend: &B,
    commitment: &G1,
    z: &Fr,
    y: &Fr,
    proof: &G1,
    s: &CKzgSettings,
) -> (r: bool)
    requires
        z.wf(),
        y.wf(),
        s.g2_values@.len() >= 2,
    ensures
        r == verify_pairing(backend, *commitment, z.value(), y.value(), *proof, s),
{
    let zero = Fr::zero();
    let one = Fr::from_u64(1);
    let neg_y = backend.fr_sub(&zero, y);
    let neg_z = backend.fr_sub(&zero, z);
    let g1_points = vec![*commitment, G1 { bytes: G1_GENERATOR }];
    let g1_scalars = vec![one, neg_y];
    let g2_points = vec![s.g2_values[1], s.g2_values[0]];
    let g2_scalars = vec![one, neg_z];
    proof {
        assert(values(g1_scalars@) =~= seq![1nat, sub_v(0, y.value())]);
        assert(values(g2_scalars@) =~= seq![1nat, sub_v(0, z.value())]);
        assert(g1_points@ =~= seq![*commitment, g1_gen()]);
        assert(g2_points@ =~= seq![s.g2_values@[1], s.g2_values@[0]]);
    }
    let lhs = backend.g1_lincomb(&g1_points, &g1_scalars, &None);
    let rhs = backend.g2_lincomb(&g2_points, &g2_scalars);
    backend.pairings_verify(&lhs, &s.g2_values[0], proof, &rhs)
}

/// Decodes a field element.
fn decode_fr(b: &Bytes32) -> (r: Option<Fr>)
    ensures
        r is Some <==> is_canonical(b.bytes@),
        r matches Some(f) ==> f == fr_of(b.bytes@) && f.wf() && f.value() == be_nat(b.bytes@),
{
    let r = Fr::from_bytes(&b.bytes);
    proof {
        if let Some(f) = r {
            lemma_fr_of(f);
        }
    }
    r
}

/// Computes into `out` the commitment to `blob`: the multi-scalar multiplication
/// of its field elements with the setup's G1 points in the Lagrange basis.
/// `BadArgs`, leaving `out` as it was, where the blob does not decode or the
/// setup does not fit blobs.
pub fn blob_to_kzg_commitment<B: KzgBackend>(
    out: &mut KZGCommitment,
    blob: &Blob,
    s: &CKzgSettings,
    tables: &PrecomputationTableManager<B::Table>,
    backend: &B,
) -> (r: CKzgRet)
    ensures
        r == CKzgRet::Success <==> blob_valid(blob.bytes@) && setup_ok(s),
        r != CKzgRet::Success ==> r == CKzgRet::BadArgs && *final(out) == *old(out),
        r == CKzgRet::Success ==> final(out).bytes@ == backend.g1_msm(
            s.g1_values@,
            values(decode_blob(blob.bytes@)),
        ).bytes@,
{
    let deserialized_blob = match deserialize_blob(blob) {
        Some(v) => v,
        None => {
            return CKzgRet::BadArgs;
        },
    };
    if !check_setup(s) {
        return CKzgRet::BadArgs;
    }
    let precomputation = tables.get_precomputation(s);
    let c = backend.g1_lincomb(&s.g1_values, &deserialized_blob, &precomputation);
    out.bytes = c.bytes;
    CKzgRet::Success
}

/// The evaluation proof at `z` of the blob `p` (decoded) and its value there.
fn compute_kzg_proof_impl<B: KzgBackend>(
    backend: &B,
    p: &Vec<Fr>,
    z: &Fr,
    s: &CKzgSettings,
    precomputation: &Option<Arc<B::Table>>,
) -> (r: (G1, Fr))
    requires
        setup_ok(s),
        z.wf(),
        p@.len() == FIELD_ELEMENTS_PER_BLOB,
        forall|i: int| 0 <= i < p@.len() ==> (#[trigger] p@[i]).wf(),
    ensures
        r.1.wf(),
        r.1.value() == eval_spec(p@, domain(s), z.value()),
        r.0 == backend.g1_msm(
            s.g1_values@,
            quotient_spec(p@, domain(s), z.value(), eval_spec(p@, domain(s), z.value())),
        ),
{
    let dom = domain_of(s);
    let y = evaluate_polynomial_in_evaluation_form(backend, p, &dom, z);
    let q = compute_quotient(backend, p, &dom, z, &y);
    let proof = backend.g1_lincomb(&s.g1_values, &q, precomputation);
    (proof, y)
}

/// Computes into `proof_out` the proof of the blob's value at `z`, the
/// multi-scalar multiplication of the quotient `(p(X) - y) / (X - z)` with the
/// setup's G1 points, and into `y_out` that value `y`. `BadArgs`, leaving both as
/// they were, where the blob or `z` does not decode or the setup does not fit.
pub fn compute_kzg_proof<B: KzgBackend>(
    proof_out: &mut KZGProof,
    y_out: &mut Bytes32,
    blob: &Blob,
    z_bytes: &Bytes32,
    s: &CKzgSettings,
    tables: &PrecomputationTableManager<B::Table>,
    backend: &B,
) -> (r: CKzgRet)
    ensures
        r == CKzgRet::Success <==> blob_valid(blob.bytes@) && is_canonical(z_bytes.bytes@)
            && setup_ok(s),
        r != CKzgRet::Success ==> r == CKzgRet::BadArgs && *final(proof_out) == *old(proof_out)
            && *final(y_out) == *old(y_out),
        r == CKzgRet::Success ==> {
            let p = decode_blob(blob.bytes@);
            let z = be_nat(z_bytes.bytes@);
            let y = eval_spec(p, domain(s), z);
            &&& be_nat(final(y_out).bytes@) == y
            &&& final(proof_out).bytes@ == backend.g1_msm(
                s.g1_values@,
                quotient_spec(p, domain(s), z, y),
            ).bytes@
        },
{
    let deserialized_blob = match deserialize_blob(blob) {
        Some(v) => v,
        None => {
            return CKzgRet::BadArgs;
        },
    };
    let frz = match decode_fr(z_bytes) {
        Some(v) => v,
        None => {
            return CKzgRet::BadArgs;
        },
    };
    if !check_setup(s) {
        return CKzgRet::BadArgs;
    }
    let precomputation = tables.get_precomputation(s);
    let (proof, fry) = compute_kzg_proof_impl(backend, &deserialized_blob, &frz, s, &precomputation);
    proof_out.bytes = proof.bytes;
    y_out.bytes = fry.to_bytes();
    CKzgRet::Success
}

/// Computes into `out` the blob proof of `blob` against `commitment_bytes`: the
/// evaluation proof at the Fiat-Shamir challenge of the blob and the commitment.
/// `BadArgs`, leaving `out` as it was, where the blob or the commitment does not
/// decode or the setup does not fit.
pub fn compute_blob_kzg_proof<B: KzgBackend>(
    out: &mut KZGProof,
    blob: &Blob,
    commitment_bytes: &Bytes48,
    s: &CKzgSettings,
    tables: &PrecomputationTableManager<B::Table>,
    backend: &B,
) -> (r: CKzgRet)
    ensures
        r == CKzgRet::Success <==> blob_valid(blob.bytes@) && backend.g1_valid(
            commitment_bytes.bytes@,
        ) && setup_ok(s),
        r != CKzgRet::Success ==> r == CKzgRet::BadArgs && *final(out) == *old(out),
        r == CKzgRet::Success ==> {
            let p = decode_blob(blob.bytes@);
            let z = challenge_v(backend, blob.bytes@, commitment_bytes.bytes@);
            final(out).bytes@ == backend.g1_msm(
                s.g1_values@,
                quotient_spec(p, domain(s), z, eval_spec(p, domain(s), z)),
            ).bytes@
        },
{
    let deserialized_blob = match deserialize_blob(blob) {
        Some(v) => v,
        None => {
            return CKzgRet::BadArgs;
        },
    };
    if decode_g1(backend, commitment_bytes).is_none() {
        return CKzgRet::BadArgs;
    }
    if !check_setup(s) {
        return CKzgRet::BadArgs;
    }
    let z = compute_challenge(backend, blob, commitment_bytes);
    let precomputation = tables.get_precomputation(s);
    let (proof, _y) = compute_kzg_proof_impl(backend, &deserialized_blob, &z, s, &precomputation);
    out.bytes = proof.bytes;
    CKzgRet::Success
}

/// Checks that `proof_bytes` proves that the polynomial committed to by
/// `commitment_bytes` takes `y_bytes` at `z_bytes`, by the pairing check
/// `e(C - y*G, [1]) == e(proof, [tau] - z*[1])`; the answer goes to `ok`.
/// `BadArgs` with `ok` false where an input does not decode or the setup does
/// not fit.
pub fn verify_kzg_proof<B: KzgBackend>(
    ok: &mut bool,
    commitment_bytes: &Bytes48,
    z_bytes: &Bytes32,
    y_bytes: &Bytes32,
    proof_bytes: &Bytes48,
    s: &CKzgSettings,
    backend: &B,
) -> (r: CKzgRet)
    ensures
        r == CKzgRet::Success <==> is_canonical(z_bytes.bytes@) && is_canonical(y_bytes.bytes@)
            && backend.g1_valid(commitment_bytes.bytes@) && backend.g1_valid(proof_bytes.bytes@)
            && setup_ok(s),
        r != CKzgRet::Success ==> r == CKzgRet::BadArgs && !*final(ok),
        r == CKzgRet::Success ==> *final(ok) == verify_pairing(
            backend,
            g1_of(commitment_bytes.bytes@),
            be_nat(z_bytes.bytes@),
            be_nat(y_bytes.bytes@),
            g1_of(proof_bytes.bytes@),
            s,
        ),
{
    *ok = false;
    let frz = match decode_fr(z_bytes) {
        Some(v) => v,
        None => {
            return CKzgRet::BadArgs;
        },
    };
    let fry = match decode_fr(y_bytes) {
        Some(v) => v,
        None => {
            return CKzgRet::BadArgs;
        },
    };
    let commitment = match decode_g1(backend, commitment_bytes) {
        Some(v) => v,
        None => {
            return CKzgRet::BadArgs;
        },
    };
    let proof = match decode_g1(backend, proof_bytes) {
        Some(v) => v,
        None => {
            return CKzgRet::BadArgs;
        },
    };
    if !check_setup(s) {
        return CKzgRet::BadArgs;
    }
    *ok = verify_kzg_proof_impl(backend, &commitment, &frz, &fry, &proof, s);
    CKzgRet::Success
}

/// Checks the blob proof `proof_bytes` of `blob` against `commitment_bytes`: `z`
/// is the Fiat-Shamir challenge of the two, `y` the blob's value at `z`, and the
/// single-proof pairing check decides; the answer goes to `ok`. `BadArgs` with
/// `ok` false where an input does not decode or the setup does not fit.
pub fn verify_blob_kzg_proof<B: KzgBackend>(
    ok: &mut bool,
    blob: &Blob,
    commitment_bytes: &Bytes48,
    proof_bytes: &Bytes48,
    s: &CKzgSettings,
    backend: &B,
) -> (r: CKzgRet)
    ensures
        r == CKzgRet::Success <==> blob_valid(blob.bytes@) && backend.g1_valid(
            commitment_bytes.bytes@,
        ) && backend.g1_valid(proof_bytes.bytes@) && setup_ok(s),
        r != CKzgRet::Success ==> r == CKzgRet::BadArgs && !*final(ok),
        r == CKzgRet::Success ==> {
            let z = challenge_v(backend, blob.bytes@, commitment_bytes.bytes@);
            *final(ok) == verify_pairing(
                backend,
                g1_of(commitment_bytes.bytes@),
                z,
                eval_spec(decode_blob(blob.bytes@), domain(s), z),
                g1_of(proof_bytes.bytes@),
                s,
            )
        },
{
    *ok = false;
    let deserialized_blob = match deserialize_blob(blob) {
        Some(v) => v,
        None => {
            return CKzgRet::BadArgs;
        },
    };
    let commitment = match decode_g1(backend, commitment_bytes) {
        Some(v) => v,
        None => {
            return CKzgRet::BadArgs;
        },
    };
    let proof = match decode_g1(backend, proof_bytes) {
        Some(v) => v,
        None => {
            return CKzgRet::BadArgs;
        },
    };
    if !check_setup(s) {
        return CKzgRet::BadArgs;
    }
    let z = compute_challenge(backend, blob, commitment_bytes);
    let dom = domain_of(s);
    let y = evaluate_polynomial_in_evaluation_form(backend, &deserialized_blob, &dom, &z);
    *ok = verify_kzg_proof_impl(backend, &commitment, &z, &y, &proof, s);
    CKzgRet::Success
}

/// Every blob, commitment and proof of the batch decodes, and there are as many
/// of each.
pub open spec fn batch_inputs_valid<B: KzgBackend>(
    backend: &B,
    blobs: Seq<Blob>,
    commitments: Seq<Bytes48>,
    proofs: Seq<Bytes48>,
) -> bool {
    &&& commitments.len() == blobs.len()
    &&& proofs.len() == blobs.len()
    &&& forall|i: int| 0 <= i < blobs.len() ==> #[trigger] blob_valid(blobs[i].bytes@)
    &&& forall|i: int| 0 <= i < blobs.len() ==> #[trigger] backend.g1_valid(commitments[i].bytes@)
    &&& forall|i: int| 0 <= i < blobs.len() ==> #[trigger] backend.g1_valid(proofs[i].bytes@)
}

/// The random challenge `r` that batches the proofs.
pub open spec fn batch_r<B: KzgBackend>(
    backend: &B,
    blobs: Seq<Blob>,
    commitments: Seq<Bytes48>,
    proofs: Seq<Bytes48>,
) -> nat {
    be_nat(backend.sha256(batch_challenge_bytes(blobs, commitments, proofs))) % modulus()
}

/// The challenge `z_i` of entry `i`.
pub open spec fn batch_z<B: KzgBackend>(
    backend: &B,
    blobs: Seq<Blob>,
    commitments: Seq<Bytes48>,
    i: int,
) -> nat {
    challenge_v(backend, blobs[i].bytes@, commitments[i].bytes@)
}

/// The value `y_i` of blob `i` at its challenge.
pub open spec fn batch_y<B: KzgBackend>(
    backend: &B,
    blobs: Seq<Blob>,
    commitments: Seq<Bytes48>,
    s: &CKzgSettings,
    i: int,
) -> nat {
    eval_spec(decode_blob(blobs[i].bytes@), domain(s), batch_z(backend, blobs, commitments, i))
}

/// `sum r^i * y_i` over the first `k` entries.
pub open spec fn batch_y_sum<B: KzgBackend>(
    backend: &B,
    blobs: Seq<Blob>,
    commitments: Seq<Bytes48>,
    s: &CKzgSettings,
    r: nat,
    k: nat,
) -> nat
    decreases k,
{
    if k == 0 {
        0
    } else {
        add_v(
            batch_y_sum(backend, blobs, commitments, s, r, (k - 1) as nat),
            mul_v(pow_v(r, (k - 1) as nat), batch_y(backend, blobs, commitments, s, k - 1)),
        )
    }
}

/// The batched pairing check: with `r` the batch challenge, `C* = sum r^i C_i
/// - (sum r^i y_i) G + sum r^i z_i proof_i` and `proof* = sum r^i proof_i`,
/// `e(C*, [1]) == e(proof*, [tau])`. An empty batch holds.
pub open spec fn batch_check<B: KzgBackend>(
    backend: &B,
    blobs: Seq<Blob>,
    commitments: Seq<Bytes48>,
    proofs: Seq<Bytes48>,
    s: &CKzgSettings,
) -> bool {
    let n = blobs.len();
    let r = batch_r(backend, blobs, commitments, proofs);
    let cs = Seq::new(n, |i: int| g1_of(commitments[i].bytes@));
    let ps = Seq::new(n, |i: int| g1_of(proofs[i].bytes@));
    let rp = Seq::new(n, |i: int| pow_v(r, i as nat));
    let rz = Seq::new(n, |i: int| mul_v(pow_v(r, i as nat), batch_z(backend, blobs, commitments, i)));
    let y_sum = batch_y_sum(backend, blobs, commitments, s, r, n);
    n == 0 || backend.pairing_eq(
        backend.g1_msm(cs + seq![g1_gen()] + ps, rp + seq![sub_v(0, y_sum)] + rz),
        s.g2_values@[0],
        backend.g1_msm(ps, rp),
        s.g2_values@[1],
    )
}

/// Checks the blob proofs of all blobs against their commitments in one go; the
/// answer goes to `ok`. `BadArgs` with `ok` false where the three have different
/// lengths, an input does not decode, or the setup does not fit.
pub fn verify_blob_kzg_proof_batch<B: KzgBackend>(
    ok: &mut bool,
    blobs: &Vec<Blob>,
    commitments_bytes: &Vec<Bytes48>,
    proofs_bytes: &Vec<Bytes48>,
    s: &CKzgSettings,
    backend: &B,
) -> (r: CKzgRet)
    ensures
        r == CKzgRet::Success <==> batch_inputs_valid(
            backend,
            blobs@,
            commitments_bytes@,
            proofs_bytes@,
        ) && setup_ok(s),
        r != CKzgRet::Success ==> r == CKzgRet::BadArgs && !*final(ok),
        r == CKzgRet::Success ==> *final(ok) == batch_check(
            backend,
            blobs@,
            commitments_bytes@,
            proofs_bytes@,
            s,
        ),
{
    *ok = false;
    let n = blobs.len();
    if commitments_bytes.len() != n || proofs_bytes.len() != n {
        return CKzgRet::BadArgs;
    }
    let mut decoded: Vec<Vec<Fr>> = Vec::new();
    let mut commitments: Vec<G1> = Vec::new();
    let mut proofs: Vec<G1> = Vec::new();
    let mut i: usize = 0;
    while i < n
        invariant
            !*ok,
            n == blobs@.len(),
            commitments_bytes@.len() == n,
            proofs_bytes@.len() == n,
            i <= n,
            decoded@.len() == i,
            commitments@.len() == i,
            proofs@.len() == i,
            forall|k: int| 0 <= k < i ==> #[trigger] blob_valid(blobs@[k].bytes@),
            forall|k: int| 0 <= k < i ==> #[trigger] backend.g1_valid(commitments_bytes@[k].bytes@),
            forall|k: int| 0 <= k < i ==> #[trigger] backend.g1_valid(proofs_bytes@[k].bytes@),
            forall|k: int|
                0 <= k < i ==> (#[trigger] decoded@[k])@ == decode_blob(blobs@[k].bytes@),
            forall|k: int|
                0 <= k < i ==> (#[trigger] decoded@[k])@.len() == FIELD_ELEMENTS_PER_BLOB,
            forall|k: int, j: int|
                0 <= k < i && 0 <= j < FIELD_ELEMENTS_PER_BLOB ==> (#[trigger] decoded@[k]@[j]).wf(),
            forall|k: int| 0 <= k < i ==> #[trigger] commitments@[k] == g1_of(commitments_bytes@[k].bytes@),
            forall|k: int| 0 <= k < i ==> #[trigger] proofs@[k] == g1_of(proofs_bytes@[k].bytes@),
        decreases n - i,
    {
        let b = match deserialize_blob(&blobs[i]) {
            Some(v) => v,
            None => {
                return CKzgRet::BadArgs;
            },
        };
        let c = match decode_g1(backend, &commitments_bytes[i]) {
            Some(v) => v,
            None => {
                return CKzgRet::BadArgs;
            },
        };
        let p = match decode_g1(backend, &proofs_bytes[i]) {
            Some(v) => v,
            None => {
                return CKzgRet::BadArgs;
            },
        };
        decoded.push(b);
        commitments.push(c);
        proofs.push(p);
        i = i + 1;
    }
    if !check_setup(s) {
        return CKzgRet::BadArgs;
    }
    if n == 0 {
        *ok = true;
        return CKzgRet::Success;
    }
    let input = compute_batch_challenge_input(blobs, commitments_bytes, proofs_bytes);
    let digest = backend.sha256_digest(&input);
    let r = hash_to_fr(&digest);
    let ghost rv = r.value();
    let dom = domain_of(s);
    let mut r_powers: Vec<Fr> = Vec::new();
    let mut rz: Vec<Fr> = Vec::new();
    let mut y_sum = Fr::zero();
    let mut r_pow = Fr::from_u64(1);
    proof {
        crate::fr::lemma_modulus_pos();
        vstd::arithmetic::power::lemma_pow0(rv as int);
        vstd::arithmetic::div_mod::lemma_small_mod(1, modulus());
    }
    let mut k: usize = 0;
    while k < n
        invariant
            n == blobs@.len(),
            commitments_bytes@.len() == n,
            proofs_bytes@.len() == n,
            decoded@.len() == n,
            k <= n,
            r.wf(),
            rv == r.value(),
            rv == batch_r(backend, blobs@, commitments_bytes@, proofs_bytes@),
            modulus() > 0,
            setup_ok(s),
            dom@ == domain(s),
            dom@.len() == FIELD_ELEMENTS_PER_BLOB,
            forall|j: int| 0 <= j < dom@.len() ==> (#[trigger] dom@[j]).wf(),
            forall|j: int| 0 <= j < n ==> (#[trigger] decoded@[j])@ == decode_blob(blobs@[j].bytes@),
            forall|j: int| 0 <= j < n ==> (#[trigger] decoded@[j])@.len() == FIELD_ELEMENTS_PER_BLOB,
            forall|j: int, l: int|
                0 <= j < n && 0 <= l < FIELD_ELEMENTS_PER_BLOB ==> (#[trigger] decoded@[j]@[l]).wf(),
            r_pow.wf(),
            r_pow.value() == pow_v(rv, k as nat),
            y_sum.wf(),
            y_sum.value() == batch_y_sum(backend, blobs@, commitments_bytes@, s, rv, k as nat),
            r_powers@.len() == k,
            rz@.len() == k,
            forall|j: int| 0 <= j < k ==> (#[trigger] r_powers@[j]).wf() && r_powers@[j].value() == pow_v(rv, j as nat),
            forall|j: int|
                0 <= j < k ==> (#[trigger] rz@[j]).wf() && rz@[j].value() == mul_v(
                    pow_v(rv, j as nat),
                    batch_z(backend, blobs@, commitments_bytes@, j),
                ),
        decreases n - k,
    {
        let z = compute_challenge(backend, &blobs[k], &commitments_bytes[k]);
        let y = evaluate_polynomial_in_evaluation_form(backend, &decoded[k], &dom, &z);
        let ry = backend.fr_mul(&r_pow, &y);
        y_sum = backend.fr_add(&y_sum, &ry);
        let rzk = backend.fr_mul(&r_pow, &z);
        r_powers.push(r_pow);
        rz.push(rzk);
        let next = backend.fr_mul(&r_pow, &r);
        proof {
            let m = modulus() as int;
            let p = pow(rv as int, k as nat);
            assert(pow(rv as int, (k + 1) as nat) == rv * p) by {
                reveal(pow);
            }
            vstd::arithmetic::div_mod::lemma_mul_mod_noop_left(p, rv as int, m);
            assert(p * rv == rv * p) by (nonlinear_arith);
        }
        r_pow = next;
        k = k + 1;
    }
    let zero = Fr::zero();
    let neg_y_sum = backend.fr_sub(&zero, &y_sum);
    let mut points: Vec<G1> = copy_vec(&commitments);
    points.push(G1 { bytes: G1_GENERATOR });
    let mut proof_copy = copy_vec(&proofs);
    points.append(&mut proof_copy);
    let mut scalars: Vec<Fr> = copy_vec(&r_powers);
    scalars.push(neg_y_sum);
    let mut rz_copy = copy_vec(&rz);
    scalars.append(&mut rz_copy);
    proof {
        assert(commitments@ =~= Seq::new(n as nat, |i: int| g1_of(commitments_bytes@[i].bytes@)));
        assert(proofs@ =~= Seq::new(n as nat, |i: int| g1_of(proofs_bytes@[i].bytes@)));
        assert(values(r_powers@) =~= Seq::new(n as nat, |i: int| pow_v(rv, i as nat)));
        assert(values(rz@) =~= Seq::new(
            n as nat,
            |i: int| mul_v(pow_v(rv, i as nat), batch_z(backend, blobs@, commitments_bytes@, i)),
        ));
        assert(values(scalars@) =~= values(r_powers@) + seq![sub_v(0, y_sum.value())] + values(rz@));
        assert(points@ =~= commitments@ + seq![g1_gen()] + proofs@);
    }
    let lhs = backend.g1_lincomb(&points, &scalars, &None);
    let rhs = backend.g1_lincomb(&proofs, &r_powers, &None);
    *ok = backend.pairings_verify(&lhs, &s.g2_values[0], &rhs, &s.g2_values[1]);
    proof {
        let cs = Seq::new(n as nat, |i: int| g1_of(commitments_bytes@[i].bytes@));
        let ps = Seq::new(n as nat, |i: int| g1_of(proofs_bytes@[i].bytes@));
        let rp = Seq::new(n as nat, |i: int| pow_v(rv, i as nat));
        let rzs = Seq::new(
            n as nat,
            |i: int| mul_v(pow_v(rv, i as nat), batch_z(backend, blobs@, commitments_bytes@, i)),
        );
        assert(points@ == cs + seq![g1_gen()] + ps);
        assert(values(scalars@) == rp + seq![sub_v(0, y_sum.value())] + rzs);
        assert(lhs == backend.g1_msm(cs + seq![g1_gen()] + ps, rp + seq![sub_v(0, y_sum.value())] + rzs));
        assert(rhs == backend.g1_msm(ps, rp));
    }
    CKzgRet::Success
}

/// A primitive 4096th root of unity of the scalar field, `7^((r - 1) / 4096)`, as
/// 32 big-endian bytes.
pub const ROOT_OF_UNITY_4096: [u8; 32] = [
    0x56, 0x4c, 0x0a, 0x11, 0xa0, 0xf7, 0x04, 0xf4, 0xfc, 0x3e, 0x8a, 0xcf, 0xe0, 0xf8, 0x24, 0x5f,
    0x0a, 0xd1, 0x34, 0x7b, 0x37, 0x8f, 0xbf, 0x96, 0xe2, 0x06, 0xda, 0x11, 0xa5, 0xd3, 0x63, 0x06,
];

/// The domain's generator `w`.
pub open spec fn omega() -> nat {
    be_nat(ROOT_OF_UNITY_4096@)
}

/// The generator is a canonical field element: its leading byte is below the
/// order's.
proof fn lemma_omega_canonical()
    ensures
        omega() < modulus(),
{
    let a = ROOT_OF_UNITY_4096@;
    let b = MODULUS_BE@;
    assert(a =~= seq![a[0]] + a.skip(1));
    assert(b =~= seq![b[0]] + b.skip(1));
    lemma_be_nat_prepend(a[0], a.skip(1));
    lemma_be_nat_prepend(b[0], b.skip(1));
    lemma_be_nat_bound(a.skip(1));
    let p = pow256(31);
    let ra = be_nat(a.skip(1));
    assert(a[0] == 0x56 && b[0] == 0x73);
    assert(a[0] * p + ra < b[0] * p) by (nonlinear_arith)
        requires
            ra < p,
            a[0] == 0x56,
            b[0] == 0x73,
    ;
}

/// The roots of unity of the domain, canonical order: `w^0, w^1, ..., w^4095`.
fn compute_roots<A: FrArith>(arith: &A) -> (r: Vec<Fr>)
    ensures
        r@.len() == FIELD_ELEMENTS_PER_BLOB,
        forall|i: int| 0 <= i < r@.len() ==> (#[trigger] r@[i]).wf() && r@[i].value() == pow_v(
            omega(),
            i as nat,
        ),
{
    proof {
        lemma_omega_canonical();
        crate::fr::lemma_modulus_pos();
        vstd::arithmetic::power::lemma_pow0(omega() as int);
        vstd::arithmetic::div_mod::lemma_small_mod(1, modulus());
    }
    let w = Fr { bytes: ROOT_OF_UNITY_4096 };
    let mut roots: Vec<Fr> = Vec::new();
    let mut acc = Fr::from_u64(1);
    let mut i: usize = 0;
    while i < FIELD_ELEMENTS_PER_BLOB
        invariant
            i <= FIELD_ELEMENTS_PER_BLOB,
            w.wf(),
            w.value() == omega(),
            modulus() > 0,
            acc.wf(),
            acc.value() == pow_v(omega(), i as nat),
            roots@.len() == i,
            forall|k: int| 0 <= k < i ==> (#[trigger] roots@[k]).wf() && roots@[k].value() == pow_v(
                omega(),
                k as nat,
            ),
        decreases FIELD_ELEMENTS_PER_BLOB - i,
    {
        roots.push(acc);
        let next = arith.fr_mul(&acc, &w);
        proof {
            let m = modulus() as int;
            let p = pow(omega() as int, i as nat);
            assert(pow(omega() as int, (i + 1) as nat) == omega() * p) by {
                reveal(pow);
            }
            vstd::arithmetic::div_mod::lemma_mul_mod_noop_left(p, omega() as int, m);
            assert(p * omega() == omega() * p) by (nonlinear_arith);
        }
        acc = next;
        i = i + 1;
    }
    roots
}

/// The G2 point whose encoding is the 96 bytes `b`.
pub open spec fn g2_of(b: Seq<u8>) -> G2 {
    G2 { bytes: choose|a: [u8; 96]| a@ == b }
}

proof fn lemma_g2_of(g: G2)
    ensures
        g2_of(g.bytes@) == g,
{
    broadcast use vstd::array::axiom_array_ext_equal;

    let b = g.bytes@;
    let a = choose|a: [u8; 96]| a@ == b;
    assert(a@ == b);
    assert(a =~= g.bytes);
    assert(g2_of(b).bytes == a);
    assert(g == G2 { bytes: a });
}

/// The `n` G1 points encoded one after another in `b`.
pub open spec fn g1_points_of(b: Seq<u8>, n: nat) -> Seq<G1> {
    Seq::new(n, |i: int| g1_of(b.subrange(48 * i, 48 * i + 48)))
}

/// The `n` G2 points encoded one after another in `b`.
pub open spec fn g2_points_of(b: Seq<u8>, n: nat) -> Seq<G2> {
    Seq::new(n, |i: int| g2_of(b.subrange(96 * i, 96 * i + 96)))
}

/// Every one of the 4096 G1 and 65 G2 points in `g1` and `g2` decodes.
pub open spec fn setup_points_valid<B: KzgBackend>(backend: &B, g1: Seq<u8>, g2: Seq<u8>) -> bool {
    &&& forall|i: int|
        0 <= i < FIELD_ELEMENTS_PER_BLOB ==> #[trigger] backend.g1_valid(
            g1.subrange(48 * i, 48 * i + 48),
        )
    &&& forall|i: int|
        0 <= i < TRUSTED_SETUP_NUM_G2_POINTS ==> #[trigger] backend.g2_valid(
            g2.subrange(96 * i, 96 * i + 96),
        )
}

/// What a setup read from `g1` and `g2` holds: 4096 roots, the powers of `w`; the
/// G1 points brought to the Lagrange basis by the inverse FFT and put in
/// bit-reversed order; the G2 points as given.
pub open spec fn setup_from<B: KzgBackend>(backend: &B, s: &CKzgSettings, g1: Seq<u8>, g2: Seq<u8>) -> bool {
    &&& s.max_width == FIELD_ELEMENTS_PER_BLOB
    &&& s.roots_of_unity@.len() == FIELD_ELEMENTS_PER_BLOB
    &&& forall|i: int|
        0 <= i < FIELD_ELEMENTS_PER_BLOB ==> (#[trigger] s.roots_of_unity@[i]).wf()
            && s.roots_of_unity@[i].value() == pow_v(omega(), i as nat)
    &&& s.g1_values@ == bit_reversed(
        backend.g1_ifft(g1_points_of(g1, FIELD_ELEMENTS_PER_BLOB as nat), s.roots_of_unity@),
    )
    &&& s.g2_values@ == g2_points_of(g2, TRUSTED_SETUP_NUM_G2_POINTS as nat)
}

/// The store after a setup `s` is installed: its table under its key where the
/// backend builds one, else as it was.
pub open spec fn tables_after<B: KzgBackend>(
    backend: &B,
    before: Map<u64, Arc<B::Table>>,
    after: Map<u64, Arc<B::Table>>,
    s: &CKzgSettings,
) -> bool {
    if backend.makes_table(FIELD_ELEMENTS_PER_BLOB as nat) {
        exists|t: Arc<B::Table>| after == before.insert(setup_key(s), t)
    } else {
        after == before
    }
}

/// Reads a setup from 4096 compressed G1 points (monomial basis) and 65
/// compressed G2 points into `out`, keeping its precomputed table in `tables`.
fn load_setup_points<B: KzgBackend>(
    out: &mut CKzgSettings,
    g1_bytes: &[u8],
    g2_bytes: &[u8],
    tables: &mut PrecomputationTableManager<B::Table>,
    backend: &B,
) -> (r: CKzgRet)
    requires
        g1_bytes@.len() == 4096 * 48,
        g2_bytes@.len() == 65 * 96,
    ensures
        r == CKzgRet::Success <==> setup_points_valid(backend, g1_bytes@, g2_bytes@),
        r != CKzgRet::Success ==> r == CKzgRet::BadArgs && *final(out) == *old(out)
            && final(tables)@ == old(tables)@,
        r == CKzgRet::Success ==> setup_from(backend, final(out), g1_bytes@, g2_bytes@)
            && setup_ok(final(out)) && tables_after(backend, old(tables)@, final(tables)@, final(out)),
{
    let mut g1: Vec<G1> = Vec::new();
    let mut i: usize = 0;
    while i < FIELD_ELEMENTS_PER_BLOB
        invariant
            g1_bytes@.len() == 4096 * 48,
            i <= FIELD_ELEMENTS_PER_BLOB,
            g1@.len() == i,
            forall|k: int| 0 <= k < i ==> #[trigger] backend.g1_valid(g1_bytes@.subrange(48 * k, 48 * k + 48)),
            forall|k: int| 0 <= k < i ==> #[trigger] g1@[k] == g1_of(g1_bytes@.subrange(48 * k, 48 * k + 48)),
        decreases FIELD_ELEMENTS_PER_BLOB - i,
    {
        let a: [u8; 48] = bytes_at(g1_bytes, 48 * i);
        match backend.g1_from_bytes(&a) {
            Some(g) => {
                proof {
                    lemma_g1_of(g);
                }
                g1.push(g);
            },
            None => {
                return CKzgRet::BadArgs;
            },
        }
        i = i + 1;
    }
    let mut g2: Vec<G2> = Vec::new();
    let mut j: usize = 0;
    while j < TRUSTED_SETUP_NUM_G2_POINTS
        invariant
            g2_bytes@.len() == 65 * 96,
            j <= TRUSTED_SETUP_NUM_G2_POINTS,
            g2@.len() == j,
            forall|k: int| 0 <= k < FIELD_ELEMENTS_PER_BLOB ==> #[trigger] backend.g1_valid(g1_bytes@.subrange(48 * k, 48 * k + 48)),
            forall|k: int| 0 <= k < j ==> #[trigger] backend.g2_valid(g2_bytes@.subrange(96 * k, 96 * k + 96)),
            forall|k: int| 0 <= k < j ==> #[trigger] g2@[k] == g2_of(g2_bytes@.subrange(96 * k, 96 * k + 96)),
        decreases TRUSTED_SETUP_NUM_G2_POINTS - j,
    {
        let a: [u8; 96] = bytes_at(g2_bytes, 96 * j);
        match backend.g2_from_bytes(&a) {
            Some(g) => {
                proof {
                    lemma_g2_of(g);
                }
                g2.push(g);
            },
            None => {
                return CKzgRet::BadArgs;
            },
        }
        j = j + 1;
    }
    let roots = compute_roots(backend);
    let mut lagrange = backend.g1_ifft_exec(&g1, &roots);
    assert(is_pow2(4096)) by {
        reveal_with_fuel(is_pow2, 14);
    }
    let _ = reverse_bit_order(&mut lagrange);
    let table = backend.precompute(&lagrange);
    let c = CKzgSettings {
        max_width: 4096,
        roots_of_unity: roots,
        g1_values: lagrange,
        g2_values: g2,
    };
    proof {
        assert(g1@ =~= g1_points_of(g1_bytes@, FIELD_ELEMENTS_PER_BLOB as nat));
        assert(c.g2_values@ =~= g2_points_of(g2_bytes@, TRUSTED_SETUP_NUM_G2_POINTS as nat));
    }
    match table {
        Some(t) => {
            tables.insert_precomputation(&c, t);
        },
        None => {},
    }
    *out = c;
    CKzgRet::Success
}

/// Reads a setup from the compressed G1 points `g1_bytes` (`n1` of them, in the
/// monomial basis) and G2 points `g2_bytes` (`n2` of them) into `out`: the
/// roots of unity are computed, and the G1 points are brought to the Lagrange
/// basis over the bit-reversed domain. The backend's precomputed table, where it
/// builds one, is kept in `tables` under the setup's key. `BadArgs`, leaving both
/// as they were, where the counts are not 4096 and 65, the byte counts do not
/// match them, or a point does not decode.
pub fn load_trusted_setup<B: KzgBackend>(
    out: &mut CKzgSettings,
    g1_bytes: &[u8],
    n1: usize,
    g2_bytes: &[u8],
    n2: usize,
    tables: &mut PrecomputationTableManager<B::Table>,
    backend: &B,
) -> (r: CKzgRet)
    ensures
        r == CKzgRet::Success <==> n1 == FIELD_ELEMENTS_PER_BLOB && n2
            == TRUSTED_SETUP_NUM_G2_POINTS && g1_bytes@.len() == n1 * 48 && g2_bytes@.len() == n2
            * 96 && setup_points_valid(backend, g1_bytes@, g2_bytes@),
        r != CKzgRet::Success ==> r == CKzgRet::BadArgs && *final(out) == *old(out)
            && final(tables)@ == old(tables)@,
        r == CKzgRet::Success ==> setup_from(backend, final(out), g1_bytes@, g2_bytes@)
            && setup_ok(final(out)) && tables_after(backend, old(tables)@, final(tables)@, final(out)),
{
    if n1 != FIELD_ELEMENTS_PER_BLOB || n2 != TRUSTED_SETUP_NUM_G2_POINTS {
        return CKzgRet::BadArgs;
    }
    if g1_bytes.len() != n1 * 48 || g2_bytes.len() != n2 * 96 {
        return CKzgRet::BadArgs;
    }
    load_setup_points(out, g1_bytes, g2_bytes, tables, backend)
}

/// The G1 bytes of the setup text `text`, where it is one.
pub open spec fn text_g1(text: Seq<u8>) -> Seq<u8> {
    match parse_setup(text) {
        Some((g1, _)) => g1,
        None => Seq::empty(),
    }
}

/// The G2 bytes of the setup text `text`, where it is one.
pub open spec fn text_g2(text: Seq<u8>) -> Seq<u8> {
    match parse_setup(text) {
        Some((_, g2)) => g2,
        None => Seq::empty(),
    }
}

/// Reads a setup from its text form into `out`, as `load_trusted_setup` does with
/// the bytes that the text's lines hold. `BadArgs`, leaving both as they were,
/// where the text is not a setup or a point does not decode.
pub fn load_trusted_setup_file<B: KzgBackend>(
    out: &mut CKzgSettings,
    contents: &str,
    tables: &mut PrecomputationTableManager<B::Table>,
    backend: &B,
) -> (r: CKzgRet)
    ensures
        r == CKzgRet::Success <==> parse_setup(contents.spec_bytes()) is Some && setup_points_valid(
            backend,
            text_g1(contents.spec_bytes()),
            text_g2(contents.spec_bytes()),
        ),
        r != CKzgRet::Success ==> r == CKzgRet::BadArgs && *final(out) == *old(out)
            && final(tables)@ == old(tables)@,
        r == CKzgRet::Success ==> setup_from(
            backend,
            final(out),
            text_g1(contents.spec_bytes()),
            text_g2(contents.spec_bytes()),
        ) && setup_ok(final(out)) && tables_after(backend, old(tables)@, final(tables)@, final(out)),
{
    let (g1_bytes, g2_bytes) = match load_trusted_setup_string(contents) {
        Ok(v) => v,
        Err(_) => {
            return CKzgRet::BadArgs;
        },
    };
    proof {
        crate::setup_text::lemma_parse_setup_lens(contents.spec_bytes());
    }
    load_setup_points(out, g1_bytes.as_slice(), g2_bytes.as_slice(), tables, backend)
}

} // verus!

use vstd::prelude::*;

use crate::blob::{Blob, FIELD_ELEMENTS_PER_BLOB};
use crate::eip_4844::Bytes48;
use crate::fr::{u64_be, u64_to_be_bytes};

verus! {

/// Domain tag of the per-blob challenge: `"FSBLOBVERIFY_V1_"`.
pub const FIAT_SHAMIR_PROTOCOL_DOMAIN: [u8; 16] = [
    70, 83, 66, 76, 79, 66, 86, 69, 82, 73, 70, 89, 95, 86, 49, 95,
];

/// Domain tag of the batch challenge: `"RCKZGBATCH___V1_"`.
pub const RANDOM_CHALLENGE_KZG_BATCH_DOMAIN: [u8; 16] = [
    82, 67, 75, 90, 71, 66, 65, 84, 67, 72, 95, 95, 95, 86, 49, 95,
];

/// The bytes of the per-blob challenge: the domain tag, the number of field
/// elements per blob, the blob and its commitment.
pub open spec fn challenge_bytes(blob: Seq<u8>, commitment: Seq<u8>) -> Seq<u8> {
    FIAT_SHAMIR_PROTOCOL_DOMAIN@ + u64_be(FIELD_ELEMENTS_PER_BLOB as nat) + blob + commitment
}

/// Commitment, blob and proof of each of the first `k` entries, in turn.
pub open spec fn batch_items(
    blobs: Seq<Blob>,
    commitments: Seq<Bytes48>,
    proofs: Seq<Bytes48>,
    k: nat,
) -> Seq<u8>
    decreases k,
{
    if k == 0 {
        Seq::empty()
    } else {
        let i = k - 1;
        batch_items(blobs, commitments, proofs, (k - 1) as nat) + commitments[i].bytes@
            + blobs[i].bytes@ + proofs[i].bytes@
    }
}

/// The bytes of the batch challenge: the domain tag, the number of field
/// elements per blob, the number of entries, then each entry's commitment, blob
/// and proof.
pub open spec fn batch_challenge_bytes(
    blobs: Seq<Blob>,
    commitments: Seq<Bytes48>,
    proofs: Seq<Bytes48>,
) -> Seq<u8> {
    RANDOM_CHALLENGE_KZG_BATCH_DOMAIN@ + u64_be(FIELD_ELEMENTS_PER_BLOB as nat) + u64_be(
        blobs.len(),
    ) + batch_items(blobs, commitments, proofs, blobs.len())
}

/// Appends the bytes `b` to `out`.
fn append_bytes(out: &mut Vec<u8>, b: &[u8])
    ensures
        final(out)@ == old(out)@ + b@,
{
    let ghost start = out@;
    let mut i: usize = 0;
    while i < b.len()
        invariant
            i <= b@.len(),
            out@ == start + b@.take(i as int),
        decreases b@.len() - i,
    {
        out.push(b[i]);
        i = i + 1;
        assert(out@ =~= start + b@.take(i as int));
    }
    assert(b@.take(b@.len() as int) =~= b@);
}

/// The bytes hashed for the challenge of `blob` against `commitment`.
pub fn compute_challenge_input(blob: &Blob, commitment: &Bytes48) -> (r: Vec<u8>)
    ensures
        r@ == challenge_bytes(blob.bytes@, commitment.bytes@),
{
    let mut out: Vec<u8> = Vec::new();
    append_bytes(&mut out, &FIAT_SHAMIR_PROTOCOL_DOMAIN);
    let n = u64_to_be_bytes(FIELD_ELEMENTS_PER_BLOB as u64);
    append_bytes(&mut out, &n);
    append_bytes(&mut out, blob.bytes.as_slice());
    append_bytes(&mut out, &commitment.bytes);
    assert(out@ =~= challenge_bytes(blob.bytes@, commitment.bytes@));
    out
}

/// The bytes hashed for the challenge of a batch of blobs, commitments and
/// proofs.
pub fn compute_batch_challenge_input(
    blobs: &Vec<Blob>,
    commitments: &Vec<Bytes48>,
    proofs: &Vec<Bytes48>,
) -> (r: Vec<u8>)
    requires
        commitments@.len() == blobs@.len(),
        proofs@.len() == blobs@.len(),
    ensures
        r@ == batch_challenge_bytes(blobs@, commitments@, proofs@),
{
    let mut out: Vec<u8> = Vec::new();
    append_bytes(&mut out, &RANDOM_CHALLENGE_KZG_BATCH_DOMAIN);
    let w = u64_to_be_bytes(FIELD_ELEMENTS_PER_BLOB as u64);
    append_bytes(&mut out, &w);
    let n = u64_to_be_bytes(blobs.len() as u64);
    append_bytes(&mut out, &n);
    let ghost head = out@;
    let mut i: usize = 0;
    while i < blobs.len()
        invariant
            commitments@.len() == blobs@.len(),
            proofs@.len() == blobs@.len(),
            i <= blobs@.len(),
            out@ == head + batch_items(blobs@, commitments@, proofs@, i as nat),
        decreases blobs@.len() - i,
    {
        append_bytes(&mut out, &commitments[i].bytes);
        append_bytes(&mut out, blobs[i].bytes.as_slice());
        append_bytes(&mut out, &proofs[i].bytes);
        i = i + 1;
        assert(out@ =~= head + batch_items(blobs@, commitments@, proofs@, i as nat));
    }
    assert(out@ =~= batch_challenge_bytes(blobs@, commitments@, proofs@));
    out
}

} // verus!

use std::sync::Arc;

use vstd::prelude::*;

use crate::fr::Fr;
use crate::poly::FrArith;
use crate::settings::{G1, G2};

verus! {

/// The values of field elements, as integers.
pub open spec fn values(s: Seq<Fr>) -> Seq<nat> {
    s.map_values(|f: Fr| f.value())
}

/// The curve capabilities that the KZG operations are built on: decoding of
/// compressed points, multi-scalar multiplication in G1 and G2, the pairing
/// check, SHA-256, the inverse FFT of G1 points, and precomputed MSM tables.
/// Each capability states its result as a spec function of its inputs; the KZG
/// operations of the library are verified over those.
pub trait KzgBackend: FrArith {
    /// A precomputed MSM table for a fixed array of G1 points.
    type Table;

    /// `b` is the canonical compressed encoding of a point of G1's prime-order
    /// subgroup.
    spec fn g1_valid(&self, b: Seq<u8>) -> bool;

    /// `b` is the canonical compressed encoding of a point of G2's prime-order
    /// subgroup.
    spec fn g2_valid(&self, b: Seq<u8>) -> bool;

    /// `sum scalars[i] * points[i]` in G1, compressed.
    spec fn g1_msm(&self, points: Seq<G1>, scalars: Seq<nat>) -> G1;

    /// `sum scalars[i] * points[i]` in G2, compressed.
    spec fn g2_msm(&self, points: Seq<G2>, scalars: Seq<nat>) -> G2;

    /// `e(a, b) == e(c, d)`.
    spec fn pairing_eq(&self, a: G1, b: G2, c: G1, d: G2) -> bool;

    /// The SHA-256 digest of `msg`.
    spec fn sha256(&self, msg: Seq<u8>) -> Seq<u8>;

    /// The inverse FFT of the G1 points `points` over the domain whose roots, in
    /// canonical order, are `roots`.
    spec fn g1_ifft(&self, points: Seq<G1>, roots: Seq<Fr>) -> Seq<G1>;

    /// Whether a table is worth building for `n` points.
    spec fn makes_table(&self, n: nat) -> bool;

    /// Decodes a compressed G1 point, checking it lies in the subgroup.
    fn g1_from_bytes(&self, b: &[u8; 48]) -> (r: Option<G1>)
        ensures
            r is Some <==> self.g1_valid(b@),
            r matches Some(g) ==> g.bytes@ == b@,
    ;

    /// Decodes a compressed G2 point, checking it lies in the subgroup.
    fn g2_from_bytes(&self, b: &[u8; 96]) -> (r: Option<G2>)
        ensures
            r is Some <==> self.g2_valid(b@),
            r matches Some(g) ==> g.bytes@ == b@,
    ;

    /// Multi-scalar multiplication in G1, with the table of `points` if given.
    fn g1_lincomb(&self, points: &Vec<G1>, scalars: &Vec<Fr>, table: &Option<Arc<Self::Table>>) -> (r:
        G1)
        requires
            points@.len() == scalars@.len(),
        ensures
            r == self.g1_msm(points@, values(scalars@)),
    ;

    /// Multi-scalar multiplication in G2.
    fn g2_lincomb(&self, points: &Vec<G2>, scalars: &Vec<Fr>) -> (r: G2)
        requires
            points@.len() == scalars@.len(),
        ensures
            r == self.g2_msm(points@, values(scalars@)),
    ;

    /// Checks `e(a, b) == e(c, d)`.
    fn pairings_verify(&self, a: &G1, b: &G2, c: &G1, d: &G2) -> (r: bool)
        ensures
            r == self.pairing_eq(*a, *b, *c, *d),
    ;

    /// The SHA-256 digest of `msg`.
    fn sha256_digest(&self, msg: &Vec<u8>) -> (r: [u8; 32])
        ensures
            r@ == self.sha256(msg@),
    ;

    /// The inverse FFT of G1 points over the domain of `roots`.
    fn g1_ifft_exec(&self, points: &Vec<G1>, roots: &Vec<Fr>) -> (r: Vec<G1>)
        requires
            points@.len() == roots@.len(),
        ensures
            r@ == self.g1_ifft(points@, roots@),
            r@.len() == points@.len(),
    ;

    /// A precomputed MSM table for `points`, where one is worth building.
    fn precompute(&self, points: &Vec<G1>) -> (r: Option<Arc<Self::Table>>)
        ensures
            r is Some <==> self.makes_table(points@.len()),
    ;
}

} // verus!

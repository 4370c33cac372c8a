//! KZG commitments over BLS12-381 for Ethereum blobs: the byte codecs of blobs,
//! scalars and trusted setups, the domain tables, the store of precomputed MSM
//! tables, the Fiat-Shamir transcripts, the split of a parallel Pippenger run,
//! and the entry points of the C interface, built on a curve backend.
pub mod backend;
pub mod blob;
pub mod domain;
pub mod eip_4844;
pub mod fr;
pub mod kzg;
pub mod msm;
pub mod poly;
pub mod settings;
pub mod setup_text;
pub mod transcript;

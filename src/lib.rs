//! Reed-Solomon erasure coding and Shamir-style secret sharing over GF(2^8).
//!
//! `gf` states the field arithmetic and its laws; `finite_field` implements it three ways;
//! `polynomial` and `matrix` build the algebra on top; `encoder` is the codec; `shamir` and
//! `words` turn stripes into human-readable shards.
pub mod chunker;
pub mod encoder;
pub mod encoding;
pub mod error;
pub mod finite_field;
pub mod gf;
pub mod matrix;
pub mod polynomial;
pub mod shamir;
pub mod words;

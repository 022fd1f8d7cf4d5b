//! A univariate polynomial commitment scheme in the KZG10 family over the
//! BLS12-377 pairing-friendly curve.
//!
//! A prover commits succinctly to labeled polynomials and later convinces a
//! verifier of their evaluations at chosen points.  A universal structured
//! reference string is specialized into prover and verifier keys with
//! degree-bound and Lagrange-basis support; many polynomials and many query
//! points are batched into a single pairing equality through challenges drawn
//! from an algebraic sponge; a linear-combination layer proves evaluations of
//! weighted sums of committed polynomials through commitment homomorphism.
//!
//! Scalars and group elements travel as canonical little-endian byte vectors,
//! so every protocol decision is made on plain values; the curve arithmetic
//! itself is supplied by the snarkvm crates behind a small set of trusted
//! wrappers.

pub mod scalar;
pub mod group;
pub mod sponge;
pub mod poly;
pub mod data;
pub mod kzg;
pub mod lc;

//! Group elements of BLS12-377, carried as their little-endian affine byte
//! encodings (coordinates followed by an infinity flag).
//!
//! The protocol only ever decides *which* group operations to perform; the
//! operations themselves are supplied by snarkvm_curves behind trusted
//! wrappers.  Each wrapper reads bytes back as a point, treating bytes that do
//! not encode a prime-subgroup point as the identity, so every wrapper is
//! total and its result is a function of the argument bytes alone; the
//! uninterpreted spec functions below name those results.

use vstd::prelude::*;

use snarkvm_curves::bls12_377::{Bls12_377, Fr, G1Affine, G2Affine};
use snarkvm_curves::traits::{AffineCurve, PairingEngine, ProjectiveCurve};
use snarkvm_fields::Zero;
use snarkvm_utilities::{FromBytes, ToBytes};

verus! {

/// An element of G1, as its 97-byte affine encoding.
pub struct G1El {
    pub b: Vec<u8>,
}

/// An element of G2, as its 193-byte affine encoding.
pub struct G2El {
    pub b: Vec<u8>,
}

impl View for G1El {
    type V = Seq<u8>;

    open spec fn view(&self) -> Seq<u8> {
        self.b@
    }
}

impl View for G2El {
    type V = Seq<u8>;

    open spec fn view(&self) -> Seq<u8> {
        self.b@
    }
}

impl G1El {
    pub open spec fn wf(&self) -> bool {
        self.b@.len() == 97
    }
}

impl G2El {
    pub open spec fn wf(&self) -> bool {
        self.b@.len() == 193
    }
}

impl Clone for G1El {
    fn clone(&self) -> (r: Self)
        ensures
            r@ == self@,
    {
        let b = self.b.clone();
        assert(b@ =~= self.b@);
        G1El { b }
    }
}

impl Clone for G2El {
    fn clone(&self) -> (r: Self)
        ensures
            r@ == self@,
    {
        let b = self.b.clone();
        assert(b@ =~= self.b@);
        G2El { b }
    }
}

/// The encoding of the identity of G1: zero coordinates save for a one in the
/// second, and the infinity flag set.
pub open spec fn g1_zero_bytes() -> Seq<u8> {
    Seq::new(97, |i: int| if i == 48 || i == 96 { 1u8 } else { 0u8 })
}

/// The identity element of G1.
pub fn g1_zero() -> (r: G1El)
    ensures
        r.wf(),
        r@ == g1_zero_bytes(),
{
    let mut b: Vec<u8> = Vec::new();
    let mut i: usize = 0;
    while i < 97
        invariant
            i <= 97,
            b@.len() == i,
            forall|j: int| 0 <= j < i ==> b@[j] == g1_zero_bytes()[j],
        decreases 97 - i,
    {
        if i == 48 || i == 96 {
            b.push(1);
        } else {
            b.push(0);
        }
        i = i + 1;
    }
    proof {
        assert(b@ =~= g1_zero_bytes());
    }
    G1El { b }
}

/// Whether two G1 encodings are byte-for-byte equal.
pub fn g1_eq(a: &G1El, b: &G1El) -> (r: bool)
    requires
        a.wf(),
        b.wf(),
    ensures
        r == (a@ == b@),
{
    let mut i: usize = 0;
    let mut same: bool = true;
    while i < 97
        invariant
            i <= 97,
            a.wf(),
            b.wf(),
            same <==> (forall|j: int| 0 <= j < i ==> a.b@[j] == b.b@[j]),
        decreases 97 - i,
    {
        if a.b[i] != b.b[i] {
            same = false;
        }
        i = i + 1;
    }
    proof {
        if same {
            assert(a.b@ =~= b.b@);
        }
    }
    same
}

/// Names the sum that snarkvm_curves' point addition returns for two G1
/// encodings.
pub uninterp spec fn g1_add_of(a: Seq<u8>, b: Seq<u8>) -> Seq<u8>;

/// Names the scalar multiple that snarkvm_curves' scalar multiplication
/// returns for a G1 encoding and a scalar value.
pub uninterp spec fn g1_mul_of(p: Seq<u8>, k: int) -> Seq<u8>;

/// Names the negation that snarkvm_curves' point negation returns for a G1
/// encoding.
pub uninterp spec fn g1_neg_of(p: Seq<u8>) -> Seq<u8>;

/// Names the scalar multiple that snarkvm_curves' scalar multiplication
/// returns for a G2 encoding and a scalar value.
pub uninterp spec fn g2_mul_of(p: Seq<u8>, k: int) -> Seq<u8>;

/// Names whether the two pairings that snarkvm_curves' `Bls12_377::pairing`
/// computes for the given encodings coincide.
pub uninterp spec fn pair_eq_of(p1: Seq<u8>, q1: Seq<u8>, p2: Seq<u8>, q2: Seq<u8>) -> bool;

/// Relies on snarkvm_curves' `prime_subgroup_generator` for G1: a fixed
/// generator of the prime-order subgroup, so not the identity — its encoding
/// carries a clear infinity flag.
#[verifier::external_body]
pub(crate) fn g1_generator() -> (r: G1El)
    ensures
        r.wf(),
        r@[96] == 0,
{
    let mut v: Vec<u8> = Vec::new();
    G1Affine::prime_subgroup_generator().write_le(&mut v).unwrap();
    G1El { b: v }
}

/// Relies on snarkvm_curves' mixed point addition on the BLS12-377 G1 curve.
#[verifier::external_body]
pub(crate) fn g1_add(a: &G1El, b: &G1El) -> (r: G1El)
    ensures
        r.wf(),
        r@ == g1_add_of(a@, b@),
{
    let pa = G1Affine::read_le(a.b.as_slice()).ok().filter(|p| p.is_zero() || (p.is_on_curve() && p.is_in_correct_subgroup_assuming_on_curve())).unwrap_or(G1Affine::zero());
    let pb = G1Affine::read_le(b.b.as_slice()).ok().filter(|p| p.is_zero() || (p.is_on_curve() && p.is_in_correct_subgroup_assuming_on_curve())).unwrap_or(G1Affine::zero());
    let mut v: Vec<u8> = Vec::new();
    pa.to_projective().add_mixed(&pb).to_affine().write_le(&mut v).unwrap();
    G1El { b: v }
}

/// Relies on snarkvm_curves' scalar multiplication on the BLS12-377 G1 curve.
#[verifier::external_body]
pub(crate) fn g1_mul(p: &G1El, k: &crate::scalar::Scalar) -> (r: G1El)
    requires
        k.wf(),
    ensures
        r.wf(),
        r@ == g1_mul_of(p@, k@),
{
    let pa = G1Affine::read_le(p.b.as_slice()).ok().filter(|q| q.is_zero() || (q.is_on_curve() && q.is_in_correct_subgroup_assuming_on_curve())).unwrap_or(G1Affine::zero());
    let x = Fr::read_le(k.b.as_slice()).unwrap();
    let mut v: Vec<u8> = Vec::new();
    (pa.to_projective() * x).to_affine().write_le(&mut v).unwrap();
    G1El { b: v }
}

/// Relies on snarkvm_curves' point negation on the BLS12-377 G1 curve.
#[verifier::external_body]
pub(crate) fn g1_neg(p: &G1El) -> (r: G1El)
    ensures
        r.wf(),
        r@ == g1_neg_of(p@),
{
    let pa = G1Affine::read_le(p.b.as_slice()).ok().filter(|q| q.is_zero() || (q.is_on_curve() && q.is_in_correct_subgroup_assuming_on_curve())).unwrap_or(G1Affine::zero());
    let mut v: Vec<u8> = Vec::new();
    (-pa).write_le(&mut v).unwrap();
    G1El { b: v }
}

/// Relies on snarkvm_curves' `prime_subgroup_generator` for G2: a fixed
/// generator of the prime-order subgroup, so not the identity — its encoding
/// carries a clear infinity flag.
#[verifier::external_body]
pub(crate) fn g2_generator() -> (r: G2El)
    ensures
        r.wf(),
        r@[192] == 0,
{
    let mut v: Vec<u8> = Vec::new();
    G2Affine::prime_subgroup_generator().write_le(&mut v).unwrap();
    G2El { b: v }
}

/// Relies on snarkvm_curves' scalar multiplication on the BLS12-377 G2 curve.
#[verifier::external_body]
pub(crate) fn g2_mul(p: &G2El, k: &crate::scalar::Scalar) -> (r: G2El)
    requires
        k.wf(),
    ensures
        r.wf(),
        r@ == g2_mul_of(p@, k@),
{
    let pa = G2Affine::read_le(p.b.as_slice()).ok().filter(|q| q.is_zero() || (q.is_on_curve() && q.is_in_correct_subgroup_assuming_on_curve())).unwrap_or(G2Affine::zero());
    let x = Fr::read_le(k.b.as_slice()).unwrap();
    let mut v: Vec<u8> = Vec::new();
    (pa.to_projective() * x).to_affine().write_le(&mut v).unwrap();
    G2El { b: v }
}

/// Relies on snarkvm_curves' `Bls12_377::pairing`: whether the pairing of the
/// first pair of points equals the pairing of the second pair.
#[verifier::external_body]
pub(crate) fn pairing_eq(p1: &G1El, q1: &G2El, p2: &G1El, q2: &G2El) -> (r: bool)
    ensures
        r == pair_eq_of(p1@, q1@, p2@, q2@),
{
    let d1 = |v: &[u8]| G1Affine::read_le(v).ok().filter(|p| p.is_on_curve() && p.is_in_correct_subgroup_assuming_on_curve()).unwrap_or(G1Affine::zero());
    let d2 = |v: &[u8]| G2Affine::read_le(v).ok().filter(|p| p.is_on_curve() && p.is_in_correct_subgroup_assuming_on_curve()).unwrap_or(G2Affine::zero());
    Bls12_377::pairing(d1(p1.b.as_slice()), d2(q1.b.as_slice())) == Bls12_377::pairing(d1(p2.b.as_slice()), d2(q2.b.as_slice()))
}

} // verus!

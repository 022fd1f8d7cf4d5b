//! The commitment engine: universal parameters, their specialization into
//! prover and verifier keys, the commitment operation, and the batched
//! opening and checking protocol.

use vstd::prelude::*;

use crate::data::{
    BatchProof, Commitment, DegreeInfo, Evaluations, LabeledCommitment, LabeledPolynomial,
    LabeledPolynomialWithBasis, PCError, QuerySet, Randomness, spec_lookup_eval,
};
use crate::group::{
    G1El, G2El, g1_add, g1_add_of, g1_generator, g1_mul, g1_mul_of, g1_neg, g1_neg_of, g1_zero,
    g1_zero_bytes, g2_generator, g2_mul, g2_mul_of, pair_eq_of, pairing_eq,
};
use crate::poly::{Poly, spec_add_scaled, spec_eval, spec_quot, spec_shift, vals};
use crate::scalar::{
    Scalar, fr_add, fr_inv, fr_mul, fr_order, fr_pow, fr_rand, fr_root_of_unity, fr_sub, is_pow2,
    pow_mod, root_of_unity_of, scalar_from_u64, scalar_one, scalar_zero,
};
use crate::sponge::{Sponge, spec_absorb, spec_absorb_bytes, spec_squeeze};
use vstd::arithmetic::div_mod::{lemma_add_mod_noop, lemma_small_mod};

verus! {

/// The byte views of a vector of G1 elements.
pub open spec fn g1s(v: Seq<G1El>) -> Seq<Seq<u8>> {
    v.map_values(|g: G1El| g@)
}

/// All elements of a G1 vector are well-formed.
pub open spec fn g1s_wf(v: Seq<G1El>) -> bool {
    forall|i: int| 0 <= i < v.len() ==> (#[trigger] v[i]).wf()
}

/// A multi-scalar multiplication over the first `n` positions, folded left to
/// right from the identity.
pub open spec fn spec_msm_upto(bases: Seq<Seq<u8>>, coeffs: Seq<int>, n: nat) -> Seq<u8>
    decreases n,
{
    if n == 0 {
        g1_zero_bytes()
    } else {
        g1_add_of(
            spec_msm_upto(bases, coeffs, (n - 1) as nat),
            g1_mul_of(bases[n - 1], coeffs[n - 1]),
        )
    }
}

/// The multi-scalar multiplication of a coefficient sequence with the basis.
pub open spec fn spec_msm(bases: Seq<Seq<u8>>, coeffs: Seq<int>) -> Seq<u8> {
    spec_msm_upto(bases, coeffs, coeffs.len())
}

/// The commitment to a coefficient vector with a blinding polynomial: the
/// power-basis part plus the hiding-basis part.
pub open spec fn spec_commit(
    powers: Seq<Seq<u8>>,
    gamma_powers: Seq<Seq<u8>>,
    coeffs: Seq<int>,
    blind: Seq<int>,
) -> Seq<u8> {
    g1_add_of(spec_msm(powers, coeffs), spec_msm(gamma_powers, blind))
}

/// The universal structured reference string.
pub struct UniversalParams {
    /// The largest committable degree.
    pub max_degree: usize,
    /// `beta^i * G` for `i` up to `max_degree`.
    pub powers_of_beta_g: Vec<G1El>,
    /// `gamma * beta^i * G` for `i` up to `max_degree`.
    pub powers_of_gamma_g: Vec<G1El>,
    /// The G2 generator.
    pub h: G2El,
    /// `beta * H`.
    pub beta_h: G2El,
    /// The setup scalar; retained because this loader is a deterministic
    /// stand-in for a ceremony, and Lagrange bases are derived from it.
    pub beta: Scalar,
    /// The hiding-basis scalar.
    pub gamma: Scalar,
}

impl UniversalParams {
    pub open spec fn wf(&self) -> bool {
        &&& self.max_degree + 1 <= usize::MAX
        &&& self.powers_of_beta_g@.len() == self.max_degree + 1
        &&& self.powers_of_gamma_g@.len() == self.max_degree + 1
        &&& g1s_wf(self.powers_of_beta_g@)
        &&& g1s_wf(self.powers_of_gamma_g@)
        &&& self.h.wf()
        &&& self.beta_h.wf()
        &&& self.beta.wf()
        &&& self.gamma.wf()
    }

    pub fn max_degree(&self) -> (r: usize)
        ensures
            r == self.max_degree,
    {
        self.max_degree
    }
}

/// The setup scalar of the deterministic loader, derived from the sponge.
pub open spec fn spec_srs_beta(d: int) -> int {
    spec_squeeze(spec_absorb(0, d))
}

/// The hiding scalar of the deterministic loader: the second squeeze.
pub open spec fn spec_srs_gamma(d: int) -> int {
    spec_squeeze(spec_squeeze(spec_absorb(0, d)))
}

/// Loads the universal reference string for a given maximum degree.  The
/// loader is a deterministic stand-in for a trusted-setup ceremony: the setup
/// scalars are squeezed from the sponge, so identical inputs give identical
/// parameters.
pub fn load_srs(max_degree: usize) -> (r: Result<UniversalParams, PCError>)
    requires
        max_degree + 1 <= usize::MAX,
    ensures
        r.is_ok(),
        r.unwrap().wf(),
        r.unwrap().max_degree == max_degree,
        r.unwrap().beta@ == spec_srs_beta(max_degree as int),
        r.unwrap().gamma@ == spec_srs_gamma(max_degree as int),
        r.unwrap().beta_h@ == g2_mul_of(r.unwrap().h@, spec_srs_beta(max_degree as int)),
        r.unwrap().powers_of_beta_g@[0]@[96] == 0,
        r.unwrap().h@[192] == 0,
        forall|i: int|
            1 <= i <= max_degree ==> (#[trigger] r.unwrap().powers_of_beta_g@[i])@ == g1_mul_of(
                r.unwrap().powers_of_beta_g@[i - 1]@,
                spec_srs_beta(max_degree as int),
            ),
        r.unwrap().powers_of_gamma_g@[0]@ == g1_mul_of(
            r.unwrap().powers_of_beta_g@[0]@,
            spec_srs_gamma(max_degree as int),
        ),
        forall|i: int|
            1 <= i <= max_degree ==> (#[trigger] r.unwrap().powers_of_gamma_g@[i])@ == g1_mul_of(
                r.unwrap().powers_of_gamma_g@[i - 1]@,
                spec_srs_beta(max_degree as int),
            ),
{
    let mut sponge = Sponge::new();
    let d = scalar_from_u64(max_degree as u64);
    sponge.absorb(&d);
    let beta = sponge.squeeze();
    let gamma = sponge.squeeze();
    proof {
        assert(max_degree as u64 as int == max_degree as int);
    }

    let g = g1_generator();
    let mut powers_of_beta_g: Vec<G1El> = Vec::new();
    powers_of_beta_g.push(g);
    let mut i: usize = 1;
    while i <= max_degree
        invariant
            1 <= i <= max_degree + 1,
            max_degree + 1 <= usize::MAX,
            beta.wf(),
            powers_of_beta_g@[0]@[96] == 0,
            powers_of_beta_g@.len() == i,
            g1s_wf(powers_of_beta_g@),
            forall|j: int|
                1 <= j < i ==> (#[trigger] powers_of_beta_g@[j])@ == g1_mul_of(
                    powers_of_beta_g@[j - 1]@,
                    beta@,
                ),
        decreases max_degree + 1 - i,
    {
        let next = g1_mul(&powers_of_beta_g[i - 1], &beta);
        powers_of_beta_g.push(next);
        i = i + 1;
    }

    let mut powers_of_gamma_g: Vec<G1El> = Vec::new();
    powers_of_gamma_g.push(g1_mul(&powers_of_beta_g[0], &gamma));
    let mut m: usize = 1;
    while m <= max_degree
        invariant
            1 <= m <= max_degree + 1,
            max_degree + 1 <= usize::MAX,
            beta.wf(),
            gamma.wf(),
            powers_of_beta_g@.len() >= 1,
            powers_of_beta_g@[0]@[96] == 0,
            powers_of_gamma_g@[0]@ == g1_mul_of(powers_of_beta_g@[0]@, gamma@),
            powers_of_gamma_g@.len() == m,
            g1s_wf(powers_of_gamma_g@),
            forall|j: int|
                1 <= j < m ==> (#[trigger] powers_of_gamma_g@[j])@ == g1_mul_of(
                    powers_of_gamma_g@[j - 1]@,
                    beta@,
                ),
        decreases max_degree + 1 - m,
    {
        let next = g1_mul(&powers_of_gamma_g[m - 1], &beta);
        powers_of_gamma_g.push(next);
        m = m + 1;
    }

    let h = g2_generator();
    let beta_h = g2_mul(&h, &beta);
    Ok(
        UniversalParams {
            max_degree,
            powers_of_beta_g,
            powers_of_gamma_g,
            h,
            beta_h,
            beta,
            gamma,
        },
    )
}

/// Copies a vector of group elements, element views preserved.
fn clone_g1_vec(v: &Vec<G1El>) -> (r: Vec<G1El>)
    ensures
        r@.len() == v@.len(),
        forall|i: int| 0 <= i < v@.len() ==> (#[trigger] r@[i])@ == v@[i]@,
        g1s_wf(v@) ==> g1s_wf(r@),
{
    let mut out: Vec<G1El> = Vec::new();
    let mut i: usize = 0;
    while i < v.len()
        invariant
            i <= v@.len(),
            out@.len() == i,
            forall|j: int| 0 <= j < i ==> (#[trigger] out@[j])@ == v@[j]@,
            forall|j: int| 0 <= j < i ==> (#[trigger] out@[j])@.len() == v@[j]@.len(),
        decreases v@.len() - i,
    {
        out.push(v[i].clone());
        i = i + 1;
    }
    out
}

/// Whether a list of sizes contains a value.
fn contains_usize(v: &Vec<usize>, x: usize) -> (r: bool)
    ensures
        r == v@.contains(x),
{
    let mut i: usize = 0;
    while i < v.len()
        invariant
            i <= v@.len(),
            forall|j: int| 0 <= j < i ==> v@[j] != x,
        decreases v@.len() - i,
    {
        if v[i] == x {
            proof {
                assert(v@[i as int] == x);
            }
            return true;
        }
        i = i + 1;
    }
    proof {
        assert(forall|j: int| 0 <= j < v@.len() ==> v@[j] != x);
    }
    false
}

/// Whether some listed degree bound exceeds the cap.
fn check_bad_bound(bounds: &Option<Vec<usize>>, cap: usize) -> (r: bool)
    ensures
        r == spec_has_bad_bound(*bounds, cap as int),
{
    match bounds {
        Some(v) => {
            let mut i: usize = 0;
            while i < v.len()
                invariant
                    *bounds == Option::Some(*v),
                    i <= v@.len(),
                    forall|j: int| 0 <= j < i ==> v@[j] <= cap,
                decreases v@.len() - i,
            {
                if v[i] > cap {
                    proof {
                        assert(bounds.unwrap()@ == v@);
                        assert((i as int) < bounds.unwrap()@.len() && bounds.unwrap()@[i as int]
                            > cap);
                    }
                    return true;
                }
                i = i + 1;
            }
            false
        },
        None => false,
    }
}

/// Whether some listed Lagrange size cannot be derived.
fn check_bad_lagrange(sizes: &Option<Vec<usize>>, cap: usize) -> (r: bool)
    ensures
        r == spec_has_bad_lagrange(*sizes, cap as int),
{
    match sizes {
        Some(v) => {
            let mut i: usize = 0;
            while i < v.len()
                invariant
                    *sizes == Option::Some(*v),
                    i <= v@.len(),
                    forall|j: int| 0 <= j < i ==> !spec_bad_lagrange_size(v@[j], cap as int),
                decreases v@.len() - i,
            {
                let size = v[i];
                if !is_pow2_exec(size) || size > cap || (size as u64) > 0x8000_0000_0000u64 {
                    proof {
                        assert(sizes.unwrap()@ == v@);
                        assert((i as int) < sizes.unwrap()@.len() && spec_bad_lagrange_size(
                            sizes.unwrap()@[i as int],
                            cap as int,
                        ));
                    }
                    return true;
                }
                i = i + 1;
            }
            false
        },
        None => false,
    }
}

/// The specialized proving key: the reference-string elements a use scoped by
/// a `DegreeInfo` needs.
pub struct UniversalProver {
    /// The reference string's cap; degree-bound shifts are taken against it.
    pub max_degree: usize,
    /// The cap this use declared.
    pub supported_degree: usize,
    /// `beta^i * G` for `i` up to `max_degree`.
    pub powers_of_beta_g: Vec<G1El>,
    /// `gamma * beta^i * G` for `i` up to `max_degree`.
    pub powers_of_gamma_g: Vec<G1El>,
    /// The degree bounds commitments may declare.
    pub degree_bounds: Option<Vec<usize>>,
    /// The largest blinding-polynomial degree.
    pub hiding_bound: usize,
    /// The supported Lagrange domain sizes.
    pub lagrange_sizes: Vec<usize>,
    /// For each supported size, the domain's Lagrange basis evaluated in the
    /// exponent.
    pub lagrange_bases: Vec<Vec<G1El>>,
}

impl UniversalProver {
    pub open spec fn wf(&self) -> bool {
        &&& self.max_degree + 1 <= usize::MAX
        &&& self.hiding_bound <= self.max_degree
        &&& match self.degree_bounds {
            Some(v) => forall|i: int| 0 <= i < v@.len() ==> (#[trigger] v@[i])
                <= self.supported_degree,
            None => true,
        }
        &&& self.powers_of_beta_g@.len() == self.max_degree + 1
        &&& self.powers_of_gamma_g@.len() == self.max_degree + 1
        &&& g1s_wf(self.powers_of_beta_g@)
        &&& g1s_wf(self.powers_of_gamma_g@)
        &&& self.supported_degree <= self.max_degree
        &&& self.lagrange_bases@.len() == self.lagrange_sizes@.len()
        &&& forall|i: int|
            0 <= i < self.lagrange_bases@.len() ==> g1s_wf(#[trigger] self.lagrange_bases@[i]@)
        &&& forall|i: int|
            0 <= i < self.lagrange_bases@.len() ==> (#[trigger] self.lagrange_bases@[i])@.len()
                == self.lagrange_sizes@[i]
    }
}

/// The verifying key: the pairing-check constants.  It depends on the
/// reference string alone, not on any `DegreeInfo`.
pub struct UniversalVerifier {
    /// The G1 generator.
    pub g: G1El,
    /// The hiding generator `gamma * G`.
    pub gamma_g: G1El,
    /// The G2 generator.
    pub h: G2El,
    /// `beta * H`.
    pub beta_h: G2El,
    /// The reference string's cap; a degree bound beyond it is unsupported.
    pub max_degree: usize,
}

impl UniversalVerifier {
    pub open spec fn wf(&self) -> bool {
        self.g.wf() && self.gamma_g.wf() && self.h.wf() && self.beta_h.wf()
    }
}

/// A degree bound some listed bound exceeds the declared cap.
pub open spec fn spec_has_bad_bound(bounds: Option<Vec<usize>>, cap: int) -> bool {
    match bounds {
        Some(v) => exists|k: int| 0 <= k < v@.len() && v@[k] > cap,
        None => false,
    }
}

/// Whether a requested Lagrange size cannot be derived from the reference
/// string: not a power of two, beyond the cap, or beyond the field's
/// two-adic subgroup.
pub open spec fn spec_bad_lagrange_size(size: usize, cap: int) -> bool {
    !is_pow2(size as nat) || size > cap || size > 0x800000000000
}

/// Whether the size-`n` domain degenerates at the setup scalar: some domain
/// point equals it, so a Lagrange denominator vanishes there.
pub open spec fn spec_lagrange_degenerate(n: usize, beta: int) -> bool {
    exists|i: nat| i < n && #[trigger] pow_mod(root_of_unity_of(n as int), i) == beta
}

/// Some requested Lagrange size cannot be derived.
pub open spec fn spec_has_bad_lagrange(sizes: Option<Vec<usize>>, cap: int) -> bool {
    match sizes {
        Some(v) => exists|k: int| 0 <= k < v@.len() && spec_bad_lagrange_size(v@[k], cap),
        None => false,
    }
}

impl UniversalParams {
    /// Specializes the reference string for verification; this always
    /// succeeds, since the verifying key does not depend on a `DegreeInfo`.
    pub fn to_universal_verifier(&self) -> (r: Result<UniversalVerifier, PCError>)
        requires
            self.wf(),
        ensures
            r.is_ok(),
            r.unwrap().wf(),
            r.unwrap().g@ == self.powers_of_beta_g@[0]@,
            r.unwrap().gamma_g@ == self.powers_of_gamma_g@[0]@,
            r.unwrap().h@ == self.h@,
            r.unwrap().beta_h@ == self.beta_h@,
            r.unwrap().max_degree == self.max_degree,
    {
        Ok(
            UniversalVerifier {
                g: self.powers_of_beta_g[0].clone(),
                gamma_g: self.powers_of_gamma_g[0].clone(),
                h: self.h.clone(),
                beta_h: self.beta_h.clone(),
                max_degree: self.max_degree,
            },
        )
    }

    /// Specializes the reference string for proving, scoped to a
    /// `DegreeInfo`.  Fails when the declared cap exceeds the reference
    /// string's, when a requested degree bound exceeds the declared cap, or
    /// when a requested Lagrange size cannot be derived.
    pub fn to_universal_prover(&self, degree_info: DegreeInfo) -> (r: Result<
        UniversalProver,
        PCError,
    >)
        requires
            self.wf(),
        ensures
            (r == Result::<UniversalProver, PCError>::Err(PCError::DegreeTooLarge)) <==> (
            degree_info.max_degree > self.max_degree || degree_info.hiding_bound
                > self.max_degree),
            (r == Result::<UniversalProver, PCError>::Err(PCError::UnsupportedDegreeBound)) <==> (
            degree_info.max_degree <= self.max_degree && degree_info.hiding_bound
                <= self.max_degree && spec_has_bad_bound(
                degree_info.degree_bounds,
                degree_info.max_degree as int,
            )),
            r is Err ==> (r == Result::<UniversalProver, PCError>::Err(PCError::DegreeTooLarge) || r
                == Result::<UniversalProver, PCError>::Err(PCError::UnsupportedDegreeBound) || r
                == Result::<UniversalProver, PCError>::Err(PCError::UnsupportedLagrangeSize)),
            degree_info.max_degree <= self.max_degree && degree_info.hiding_bound
                <= self.max_degree && !spec_has_bad_bound(
                degree_info.degree_bounds,
                degree_info.max_degree as int,
            ) && spec_has_bad_lagrange(degree_info.lagrange_sizes, self.max_degree as int) ==> r
                == Result::<UniversalProver, PCError>::Err(PCError::UnsupportedLagrangeSize),
            degree_info.max_degree <= self.max_degree && degree_info.hiding_bound
                <= self.max_degree && !spec_has_bad_bound(
                degree_info.degree_bounds,
                degree_info.max_degree as int,
            ) && !spec_has_bad_lagrange(degree_info.lagrange_sizes, self.max_degree as int) && (
            match degree_info.lagrange_sizes {
                None => true,
                Some(v) => forall|k: int|
                    0 <= k < v@.len() ==> !spec_lagrange_degenerate(#[trigger] v@[k], self.beta@),
            }) ==> r is Ok,
            r is Ok ==> {
                &&& r.unwrap().wf()
                &&& degree_info.max_degree <= self.max_degree
                &&& degree_info.hiding_bound <= self.max_degree
                &&& !spec_has_bad_bound(degree_info.degree_bounds, degree_info.max_degree as int)
                &&& !spec_has_bad_lagrange(degree_info.lagrange_sizes, self.max_degree as int)
                &&& r.unwrap().max_degree == self.max_degree
                &&& r.unwrap().supported_degree == degree_info.max_degree
                &&& r.unwrap().hiding_bound == degree_info.hiding_bound
                &&& r.unwrap().degree_bounds == degree_info.degree_bounds
                &&& forall|i: int|
                    0 <= i <= self.max_degree ==> (#[trigger] r.unwrap().powers_of_beta_g@[i])@
                        == self.powers_of_beta_g@[i]@
                &&& forall|i: int|
                    0 <= i <= self.max_degree ==> (#[trigger] r.unwrap().powers_of_gamma_g@[i])@
                        == self.powers_of_gamma_g@[i]@
                &&& r.unwrap().lagrange_sizes@ == match degree_info.lagrange_sizes {
                    Some(v) => v@,
                    None => Seq::<usize>::empty(),
                }
            },
    {
        if degree_info.max_degree > self.max_degree || degree_info.hiding_bound
            > self.max_degree {
            return Err(PCError::DegreeTooLarge);
        }
        if check_bad_bound(&degree_info.degree_bounds, degree_info.max_degree) {
            return Err(PCError::UnsupportedDegreeBound);
        }
        if check_bad_lagrange(&degree_info.lagrange_sizes, self.max_degree) {
            return Err(PCError::UnsupportedLagrangeSize);
        }
        let lagrange_sizes: Vec<usize> = match &degree_info.lagrange_sizes {
            Some(v) => {
                let mut out: Vec<usize> = Vec::new();
                let mut i: usize = 0;
                while i < v.len()
                    invariant
                        i <= v@.len(),
                        out@ == v@.take(i as int),
                    decreases v@.len() - i,
                {
                    out.push(v[i]);
                    proof {
                        assert(out@ =~= v@.take(i + 1));
                    }
                    i = i + 1;
                }
                proof {
                    assert(out@ =~= v@);
                }
                out
            },
            None => Vec::new(),
        };

        let mut lagrange_bases: Vec<Vec<G1El>> = Vec::new();
        let mut s: usize = 0;
        while s < lagrange_sizes.len()
            invariant
                self.wf(),
                s <= lagrange_sizes@.len(),
                lagrange_bases@.len() == s,
                degree_info.max_degree <= self.max_degree,
                degree_info.hiding_bound <= self.max_degree,
                !spec_has_bad_bound(degree_info.degree_bounds, degree_info.max_degree as int),
                !spec_has_bad_lagrange(degree_info.lagrange_sizes, self.max_degree as int),
                match degree_info.lagrange_sizes {
                    Some(v) => lagrange_sizes@ == v@,
                    None => lagrange_sizes@.len() == 0,
                },
                forall|j: int| 0 <= j < s ==> g1s_wf(#[trigger] lagrange_bases@[j]@),
                forall|j: int|
                    0 <= j < s ==> (#[trigger] lagrange_bases@[j])@.len() == lagrange_sizes@[j],
            decreases lagrange_sizes@.len() - s,
        {
            let n = lagrange_sizes[s];
            proof {
                let v = degree_info.lagrange_sizes.unwrap();
                assert(v@[s as int] == n);
                if spec_bad_lagrange_size(n, self.max_degree as int) {
                    assert(spec_has_bad_lagrange(
                        degree_info.lagrange_sizes,
                        self.max_degree as int,
                    ));
                }
            }
            match self.lagrange_basis_for(n) {
                Some(basis) => {
                    lagrange_bases.push(basis);
                },
                None => {
                    proof {
                        assert(spec_lagrange_degenerate(
                            degree_info.lagrange_sizes.unwrap()@[s as int],
                            self.beta@,
                        ));
                    }
                    return Err(PCError::UnsupportedLagrangeSize);
                },
            }
            s = s + 1;
        }

        Ok(
            UniversalProver {
                max_degree: self.max_degree,
                supported_degree: degree_info.max_degree,
                powers_of_beta_g: clone_g1_vec(&self.powers_of_beta_g),
                powers_of_gamma_g: clone_g1_vec(&self.powers_of_gamma_g),
                degree_bounds: degree_info.degree_bounds,
                hiding_bound: degree_info.hiding_bound,
                lagrange_sizes,
                lagrange_bases,
            },
        )
    }

    /// The Lagrange basis of the size-`n` domain, evaluated in the exponent:
    /// each element is the value of one Lagrange polynomial at the setup
    /// scalar, times the generator.  `None` when the domain degenerates at
    /// the setup scalar.
    fn lagrange_basis_for(&self, n: usize) -> (r: Option<Vec<G1El>>)
        requires
            self.wf(),
            !spec_bad_lagrange_size(n, self.max_degree as int),
        ensures
            r.is_some() <==> !spec_lagrange_degenerate(n, self.beta@),
            r.is_some() ==> r.unwrap()@.len() == n && g1s_wf(r.unwrap()@),
    {
        proof {
            if n == 0 {
                assert(!is_pow2(0nat));
            }
        }
        let omega = match fr_root_of_unity(n) {
            Some(w) => w,
            None => {
                proof {
                    assert(false);
                }
                return None;
            },
        };
        let n_scalar = scalar_from_u64(n as u64);
        let n_inv = match fr_inv(&n_scalar) {
            Some(v) => v,
            None => {
                proof {
                    assert(n_scalar@ == n as int);
                    assert(false);
                }
                return None;
            },
        };
        let beta_n = fr_pow(&self.beta, n);
        let one = scalar_one();
        let zh = fr_sub(&beta_n, &one);
        let mut basis: Vec<G1El> = Vec::new();
        let mut omega_i = scalar_one();
        let mut i: usize = 0;
        while i < n
            invariant
                self.wf(),
                i <= n,
                omega.wf(),
                omega@ == root_of_unity_of(n as int),
                n_inv.wf(),
                zh.wf(),
                omega_i.wf(),
                omega_i@ == pow_mod(omega@, i as nat),
                forall|j: nat| j < i ==> #[trigger] pow_mod(omega@, j) != self.beta@,
                basis@.len() == i,
                g1s_wf(basis@),
            decreases n - i,
        {
            let denom = fr_sub(&self.beta, &omega_i);
            proof {
                crate::scalar::lemma_sub_mod_zero(self.beta@, omega_i@, fr_order());
            }
            let denom_inv = match fr_inv(&denom) {
                Some(v) => v,
                None => {
                    proof {
                        assert(self.beta@ == pow_mod(omega@, i as nat));
                        assert(spec_lagrange_degenerate(n, self.beta@));
                    }
                    return None;
                },
            };
            let num = fr_mul(&zh, &omega_i);
            let l_i = fr_mul(&fr_mul(&num, &denom_inv), &n_inv);
            basis.push(g1_mul(&self.powers_of_beta_g[0], &l_i));
            let next_omega_i = fr_mul(&omega_i, &omega);
            proof {
                assert(omega_i@ * omega@ == omega@ * omega_i@) by (nonlinear_arith);
            }
            omega_i = next_omega_i;
            i = i + 1;
        }
        proof {
            if spec_lagrange_degenerate(n, self.beta@) {
                let w = choose|j: nat| j < n && #[trigger] pow_mod(root_of_unity_of(n as int), j)
                    == self.beta@;
                assert(pow_mod(omega@, w) != self.beta@);
            }
        }
        Some(basis)
    }
}

/// A source of blinding randomness; commitments that request hiding must be
/// handed one.
pub struct RandomSource {}

impl RandomSource {
    pub fn new() -> (r: RandomSource) {
        RandomSource {}
    }
}

/// Multi-scalar multiplication of a polynomial's coefficients with a basis,
/// folded left to right.
fn msm(bases: &Vec<G1El>, p: &Poly) -> (r: G1El)
    requires
        g1s_wf(bases@),
        p.wf(),
        p@.len() <= bases@.len(),
    ensures
        r.wf(),
        r@ == spec_msm(g1s(bases@), p@),
{
    let mut acc = g1_zero();
    let mut k: usize = 0;
    while k < p.coeffs.len()
        invariant
            k <= p@.len(),
            g1s_wf(bases@),
            p.wf(),
            p@.len() <= bases@.len(),
            p@.len() == p.coeffs@.len(),
            acc.wf(),
            acc@ == spec_msm_upto(g1s(bases@), p@, k as nat),
        decreases p@.len() - k,
    {
        let term = g1_mul(&bases[k], &p.coeffs[k]);
        proof {
            assert(g1s(bases@)[k as int] == bases@[k as int]@);
            assert(p@[k as int] == p.coeffs@[k as int]@);
        }
        acc = g1_add(&acc, &term);
        k = k + 1;
    }
    acc
}

/// Commits to a coefficient vector with a blinding polynomial: the
/// power-basis part plus the hiding-basis part.
fn commit_one(powers: &Vec<G1El>, gamma_powers: &Vec<G1El>, p: &Poly, blind: &Poly) -> (r: G1El)
    requires
        g1s_wf(powers@),
        g1s_wf(gamma_powers@),
        p.wf(),
        blind.wf(),
        p@.len() <= powers@.len(),
        blind@.len() <= gamma_powers@.len(),
    ensures
        r.wf(),
        r@ == spec_commit(g1s(powers@), g1s(gamma_powers@), p@, blind@),
{
    let base = msm(powers, p);
    let hiding = msm(gamma_powers, blind);
    g1_add(&base, &hiding)
}

/// Samples a fresh blinding polynomial of the given degree.
fn sample_blind(degree: usize) -> (r: Poly)
    requires
        degree + 1 <= usize::MAX,
    ensures
        r.wf(),
        r@.len() == degree + 1,
{
    let mut coeffs: Vec<Scalar> = Vec::new();
    let mut i: usize = 0;
    while i < degree + 1
        invariant
            degree + 1 <= usize::MAX,
            i <= degree + 1,
            coeffs@.len() == i,
            forall|j: int| 0 <= j < i ==> (#[trigger] coeffs@[j]).wf(),
        decreases degree + 1 - i,
    {
        coeffs.push(fr_rand());
        i = i + 1;
    }
    proof {
        assert(vals(coeffs@).len() == coeffs@.len());
    }
    Poly { coeffs }
}

/// The first position of a size in the supported list, if any.
fn find_size_index(sizes: &Vec<usize>, n: usize) -> (r: Option<usize>)
    ensures
        match r {
            Some(i) => i < sizes@.len() && sizes@[i as int] == n && forall|j: int|
                0 <= j < i ==> sizes@[j] != n,
            None => !sizes@.contains(n),
        },
{
    let mut i: usize = 0;
    while i < sizes.len()
        invariant
            i <= sizes@.len(),
            forall|j: int| 0 <= j < i ==> sizes@[j] != n,
        decreases sizes@.len() - i,
    {
        if sizes[i] == n {
            return Some(i);
        }
        i = i + 1;
    }
    proof {
        assert(forall|j: int| 0 <= j < sizes@.len() ==> sizes@[j] != n);
    }
    None
}

/// The error a single item causes at commitment time, if any: an unsupported
/// degree or hiding bound, an unlisted degree bound or Lagrange size, or a
/// missing randomness source.
pub open spec fn spec_item_err(
    pk: UniversalProver,
    item: LabeledPolynomialWithBasis,
    has_rng: bool,
) -> Option<PCError> {
    match item {
        LabeledPolynomialWithBasis::Monomial(p) => {
            if p.spec_poly().len() > pk.supported_degree + 1 {
                Some(PCError::DegreeTooLarge)
            } else if p.spec_degree_bound() is Some && !(pk.degree_bounds is Some
                && pk.degree_bounds.unwrap()@.contains(p.spec_degree_bound().unwrap())) {
                Some(PCError::UnsupportedDegreeBound)
            } else if p.spec_degree_bound() is Some && p.spec_poly().len() - 1
                > p.spec_degree_bound().unwrap() {
                Some(PCError::DegreeTooLarge)
            } else if p.spec_hiding_bound() is Some && p.spec_hiding_bound().unwrap()
                > pk.hiding_bound {
                Some(PCError::DegreeTooLarge)
            } else if p.spec_hiding_bound() is Some && !has_rng {
                Some(PCError::MissingRng)
            } else {
                None
            }
        },
        LabeledPolynomialWithBasis::Lagrange { evaluations, hiding_bound, .. } => {
            if !pk.lagrange_sizes@.contains(evaluations@.len() as usize) {
                Some(PCError::UnsupportedLagrangeSize)
            } else if hiding_bound is Some && hiding_bound.unwrap() > pk.hiding_bound {
                Some(PCError::DegreeTooLarge)
            } else if hiding_bound is Some && !has_rng {
                Some(PCError::MissingRng)
            } else {
                None
            }
        },
    }
}

/// The first item error in a batch, if any.
pub open spec fn spec_commit_err(
    pk: UniversalProver,
    items: Seq<LabeledPolynomialWithBasis>,
    has_rng: bool,
) -> Option<PCError>
    decreases items.len(),
{
    if items.len() == 0 {
        None
    } else if spec_item_err(pk, items[0], has_rng) is Some {
        spec_item_err(pk, items[0], has_rng)
    } else {
        spec_commit_err(pk, items.skip(1), has_rng)
    }
}

/// What the base commitment of an item must be, given the blinding
/// polynomial it was committed with.
pub open spec fn spec_item_comm(
    pk: UniversalProver,
    item: LabeledPolynomialWithBasis,
    blind: Seq<int>,
    lagrange_index: int,
) -> Seq<u8> {
    match item {
        LabeledPolynomialWithBasis::Monomial(p) => spec_commit(
            g1s(pk.powers_of_beta_g@),
            g1s(pk.powers_of_gamma_g@),
            p.spec_poly(),
            blind,
        ),
        LabeledPolynomialWithBasis::Lagrange { evaluations, .. } => spec_commit(
            g1s(pk.lagrange_bases@[lagrange_index]@),
            g1s(pk.powers_of_gamma_g@),
            vals(evaluations@),
            blind,
        ),
    }
}

/// What commitment an item received: labels carried over, the base
/// commitment pinned to the multi-scalar multiplication of the item's
/// coefficients (or Lagrange values) with the key, the blinding polynomial
/// recorded in the returned randomness, and a shifted commitment to
/// `X^(max_degree - bound) * p` exactly when a degree bound is declared.
pub open spec fn spec_item_ok(
    pk: UniversalProver,
    item: LabeledPolynomialWithBasis,
    lc: LabeledCommitment,
    rand: Randomness,
) -> bool {
    &&& lc.spec_label() == item.spec_label()
    &&& lc.wf()
    &&& rand.wf()
    &&& match item {
        LabeledPolynomialWithBasis::Monomial(p) => {
            &&& lc.spec_degree_bound() == p.spec_degree_bound()
            &&& rand.blind@.len() == (match p.spec_hiding_bound() {
                Some(hb) => hb + 1 as int,
                None => 0int,
            })
            &&& lc.spec_commitment().comm@ == spec_commit(
                g1s(pk.powers_of_beta_g@),
                g1s(pk.powers_of_gamma_g@),
                p.spec_poly(),
                rand.blind@,
            )
            &&& match p.spec_degree_bound() {
                Some(b) => {
                    &&& lc.spec_commitment().shifted_comm is Some
                    &&& rand.shifted_blind is Some
                    &&& rand.shifted_blind.unwrap()@.len() == (match p.spec_hiding_bound() {
                        Some(hb) => hb + 1 as int,
                        None => 0int,
                    })
                    &&& lc.spec_commitment().shifted_comm.unwrap()@ == spec_commit(
                        g1s(pk.powers_of_beta_g@),
                        g1s(pk.powers_of_gamma_g@),
                        spec_shift(p.spec_poly(), (pk.max_degree - b) as nat),
                        rand.shifted_blind.unwrap()@,
                    )
                },
                None => lc.spec_commitment().shifted_comm is None && rand.shifted_blind is None,
            }
        },
        LabeledPolynomialWithBasis::Lagrange { evaluations, hiding_bound, .. } => {
            &&& lc.spec_degree_bound() is None
            &&& lc.spec_commitment().shifted_comm is None
            &&& rand.shifted_blind is None
            &&& rand.blind@.len() == (match hiding_bound {
                Some(hb) => hb + 1 as int,
                None => 0int,
            })
            &&& exists|j: int|
                0 <= j < pk.lagrange_sizes@.len() && pk.lagrange_sizes@[j] == evaluations@.len()
                    && (forall|k: int| 0 <= k < j ==> pk.lagrange_sizes@[k] != evaluations@.len())
                    && lc.spec_commitment().comm@ == spec_commit(
                    g1s(#[trigger] pk.lagrange_bases@[j]@),
                    g1s(pk.powers_of_gamma_g@),
                    vals(evaluations@),
                    rand.blind@,
                )
        },
    }
}

/// While no item fails, the batch error is decided by the remaining items.
proof fn lemma_commit_err_skip(
    pk: UniversalProver,
    items: Seq<LabeledPolynomialWithBasis>,
    has_rng: bool,
    i: int,
)
    requires
        0 <= i <= items.len(),
        forall|j: int| 0 <= j < i ==> spec_item_err(pk, #[trigger] items[j], has_rng) is None,
    ensures
        spec_commit_err(pk, items, has_rng) == spec_commit_err(pk, items.skip(i), has_rng),
    decreases i,
{
    if i == 0 {
        assert(items.skip(0) =~= items);
    } else {
        lemma_commit_err_skip(pk, items, has_rng, i - 1);
        assert(items.skip(i - 1).len() > 0);
        assert(items.skip(i - 1)[0] == items[i - 1]);
        assert(items.skip(i - 1).skip(1) =~= items.skip(i));
    }
}

/// Copies a vector of scalars, element values preserved.
fn clone_scalar_vec(v: &Vec<Scalar>) -> (r: Vec<Scalar>)
    requires
        forall|i: int| 0 <= i < v@.len() ==> (#[trigger] v@[i]).wf(),
    ensures
        r@.len() == v@.len(),
        forall|i: int| 0 <= i < v@.len() ==> (#[trigger] r@[i])@ == v@[i]@,
        forall|i: int| 0 <= i < v@.len() ==> (#[trigger] r@[i]).wf(),
{
    let mut out: Vec<Scalar> = Vec::new();
    let mut i: usize = 0;
    while i < v.len()
        invariant
            i <= v@.len(),
            forall|j: int| 0 <= j < v@.len() ==> (#[trigger] v@[j]).wf(),
            out@.len() == i,
            forall|j: int| 0 <= j < i ==> (#[trigger] out@[j])@ == v@[j]@,
            forall|j: int| 0 <= j < i ==> (#[trigger] out@[j]).wf(),
        decreases v@.len() - i,
    {
        out.push(v[i].clone());
        i = i + 1;
    }
    out
}

/// Commits to a batch of labeled polynomials, one (commitment, randomness)
/// pair per input, order preserving.  A degree bound yields a second,
/// shifted commitment; a hiding bound draws a fresh blinding polynomial from
/// the randomness source, which may be omitted only when no item requests
/// hiding.
pub fn commit(
    pk: &UniversalProver,
    polynomials: &Vec<LabeledPolynomialWithBasis>,
    rng: Option<&RandomSource>,
) -> (r: Result<(Vec<LabeledCommitment>, Vec<Randomness>), PCError>)
    requires
        pk.wf(),
        forall|i: int| 0 <= i < polynomials@.len() ==> (#[trigger] polynomials@[i]).wf(),
    ensures
        match r {
            Ok(out) => {
                &&& spec_commit_err(*pk, polynomials@, rng is Some) is None
                &&& out.0@.len() == polynomials@.len()
                &&& out.1@.len() == polynomials@.len()
                &&& forall|i: int|
                    0 <= i < polynomials@.len() ==> spec_item_ok(
                        *pk,
                        #[trigger] polynomials@[i],
                        out.0@[i],
                        out.1@[i],
                    )
            },
            Err(e) => spec_commit_err(*pk, polynomials@, rng is Some) == Some(e),
        },
{
    let mut comms: Vec<LabeledCommitment> = Vec::new();
    let mut rands: Vec<Randomness> = Vec::new();
    let mut i: usize = 0;
    while i < polynomials.len()
        invariant
            pk.wf(),
            forall|j: int| 0 <= j < polynomials@.len() ==> (#[trigger] polynomials@[j]).wf(),
            i <= polynomials@.len(),
            comms@.len() == i,
            rands@.len() == i,
            forall|j: int|
                0 <= j < i ==> spec_item_err(*pk, #[trigger] polynomials@[j], rng is Some)
                    is None,
            forall|j: int|
                0 <= j < i ==> spec_item_ok(*pk, #[trigger] polynomials@[j], comms@[j], rands@[j]),
        decreases polynomials@.len() - i,
    {
        let ghost pre_item = polynomials@[i as int];
        match &polynomials[i] {
            LabeledPolynomialWithBasis::Monomial(p) => {
                if p.polynomial().coeffs.len() > pk.supported_degree + 1 {
                    proof {
                        lemma_commit_err_skip(*pk, polynomials@, rng is Some, i as int);
                        assert(polynomials@.skip(i as int)[0] == pre_item);
                    }
                    return Err(PCError::DegreeTooLarge);
                }
                let db = p.degree_bound();
                if let Some(b) = db {
                    let listed: bool = match &pk.degree_bounds {
                        Some(v) => contains_usize(v, b),
                        None => false,
                    };
                    if !listed {
                        proof {
                            lemma_commit_err_skip(*pk, polynomials@, rng is Some, i as int);
                            assert(polynomials@.skip(i as int)[0] == pre_item);
                        }
                        return Err(PCError::UnsupportedDegreeBound);
                    }
                    if p.polynomial().coeffs.len() >= 1 && p.polynomial().coeffs.len() - 1 > b {
                        proof {
                            lemma_commit_err_skip(*pk, polynomials@, rng is Some, i as int);
                            assert(polynomials@.skip(i as int)[0] == pre_item);
                        }
                        return Err(PCError::DegreeTooLarge);
                    }
                }
                let hb = p.hiding_bound();
                if let Some(h) = hb {
                    if h > pk.hiding_bound {
                        proof {
                            lemma_commit_err_skip(*pk, polynomials@, rng is Some, i as int);
                            assert(polynomials@.skip(i as int)[0] == pre_item);
                        }
                        return Err(PCError::DegreeTooLarge);
                    }
                    if rng.is_none() {
                        proof {
                            lemma_commit_err_skip(*pk, polynomials@, rng is Some, i as int);
                            assert(polynomials@.skip(i as int)[0] == pre_item);
                        }
                        return Err(PCError::MissingRng);
                    }
                }
                let blind: Poly = match hb {
                    Some(h) => sample_blind(h),
                    None => Poly::zero(),
                };
                let comm = commit_one(
                    &pk.powers_of_beta_g,
                    &pk.powers_of_gamma_g,
                    p.polynomial(),
                    &blind,
                );
                let (shifted_comm, shifted_blind): (Option<G1El>, Option<Poly>) = match db {
                    Some(b) => {
                        proof {
                            if pk.degree_bounds is Some {
                                let v = pk.degree_bounds.unwrap();
                                assert(v@.contains(b));
                                let k = choose|k: int| 0 <= k < v@.len() && v@[k] == b;
                                assert(v@[k] <= pk.supported_degree);
                            }
                        }
                        let shift: usize = pk.max_degree - b;
                        let shifted = p.polynomial().shift(shift);
                        let sb: Poly = match hb {
                            Some(h) => sample_blind(h),
                            None => Poly::zero(),
                        };
                        let sc = commit_one(
                            &pk.powers_of_beta_g,
                            &pk.powers_of_gamma_g,
                            &shifted,
                            &sb,
                        );
                        (Some(sc), Some(sb))
                    },
                    None => (None, None),
                };
                let commitment = Commitment { comm, shifted_comm };
                comms.push(LabeledCommitment::new(p.label().clone(), commitment, db));
                rands.push(Randomness { blind, shifted_blind });
            },
            LabeledPolynomialWithBasis::Lagrange { label, evaluations, hiding_bound } => {
                let idx: usize = match find_size_index(&pk.lagrange_sizes, evaluations.len()) {
                    Some(j) => j,
                    None => {
                        proof {
                            lemma_commit_err_skip(*pk, polynomials@, rng is Some, i as int);
                            assert(polynomials@.skip(i as int)[0] == pre_item);
                        }
                        return Err(PCError::UnsupportedLagrangeSize);
                    },
                };
                let hb = *hiding_bound;
                if let Some(h) = hb {
                    if h > pk.hiding_bound {
                        proof {
                            lemma_commit_err_skip(*pk, polynomials@, rng is Some, i as int);
                            assert(polynomials@.skip(i as int)[0] == pre_item);
                        }
                        return Err(PCError::DegreeTooLarge);
                    }
                    if rng.is_none() {
                        proof {
                            lemma_commit_err_skip(*pk, polynomials@, rng is Some, i as int);
                            assert(polynomials@.skip(i as int)[0] == pre_item);
                        }
                        return Err(PCError::MissingRng);
                    }
                }
                let blind: Poly = match hb {
                    Some(h) => sample_blind(h),
                    None => Poly::zero(),
                };
                let epoly = Poly { coeffs: clone_scalar_vec(evaluations) };
                proof {
                    assert(epoly@ =~= vals(evaluations@));
                }
                let comm = commit_one(
                    &pk.lagrange_bases[idx],
                    &pk.powers_of_gamma_g,
                    &epoly,
                    &blind,
                );
                let commitment = Commitment { comm, shifted_comm: None };
                comms.push(LabeledCommitment::new(label.clone(), commitment, None));
                rands.push(Randomness { blind, shifted_blind: None });
            },
        }
        proof {
            assert(spec_item_err(*pk, pre_item, rng is Some) is None);
            assert(spec_item_ok(*pk, pre_item, comms@[i as int], rands@[i as int]));
        }
        i = i + 1;
    }
    proof {
        lemma_commit_err_skip(*pk, polynomials@, rng is Some, polynomials@.len() as int);
        assert(polynomials@.skip(polynomials@.len() as int)
            =~= Seq::<LabeledPolynomialWithBasis>::empty());
    }
    Ok((comms, rands))
}

/// One opening claim: a commitment, the query point, and the claimed value,
/// with the declared degree bound and the shifted commitment if any.  Prover
/// and verifier drive the transcript from the same claim sequence.
pub struct Claim {
    pub comm: G1El,
    pub shifted: Option<G1El>,
    pub point: Scalar,
    pub value: Scalar,
    pub bound: Option<usize>,
}

/// The mathematical content of a claim: byte encodings and field values.
pub ghost struct ClaimView {
    pub comm: Seq<u8>,
    pub shifted: Option<Seq<u8>>,
    pub point: int,
    pub value: int,
    pub bound: Option<int>,
}

impl ClaimView {
    /// The bytes of the shifted commitment, the identity encoding when
    /// absent.
    pub open spec fn shifted_bytes(&self) -> Seq<u8> {
        match self.shifted {
            Some(s) => s,
            None => g1_zero_bytes(),
        }
    }
}

impl View for Claim {
    type V = ClaimView;

    open spec fn view(&self) -> ClaimView {
        ClaimView {
            comm: self.comm@,
            shifted: match self.shifted {
                Some(s) => Some(s@),
                None => None,
            },
            point: self.point@,
            value: self.value@,
            bound: match self.bound {
                Some(b) => Some(b as int),
                None => None,
            },
        }
    }
}

impl Claim {
    pub open spec fn wf(&self) -> bool {
        &&& self.comm.wf()
        &&& self.point.wf()
        &&& self.value.wf()
        &&& match self.shifted {
            Some(s) => s.wf(),
            None => true,
        }
    }
}

/// The views of a claim sequence.
pub open spec fn claim_views(s: Seq<Claim>) -> Seq<ClaimView> {
    s.map_values(|c: Claim| c@)
}

/// All claims are well-formed.
pub open spec fn claims_wf(claims: Seq<Claim>) -> bool {
    forall|i: int| 0 <= i < claims.len() ==> (#[trigger] claims[i]).wf()
}

/// The sponge state after absorbing one claim: the commitment bytes, the
/// shifted commitment bytes if any, the point, and the claimed value.
pub open spec fn spec_absorb_claim(s: int, c: ClaimView) -> int {
    let s1 = spec_absorb_bytes(s, c.comm);
    let s2 = match c.shifted {
        Some(b) => spec_absorb_bytes(s1, b),
        None => s1,
    };
    let s3 = spec_absorb(s2, c.point);
    spec_absorb(s3, c.value)
}

/// The sponge state after absorbing every claim in order.
pub open spec fn spec_absorb_claims(s: int, claims: Seq<ClaimView>) -> int
    decreases claims.len(),
{
    if claims.len() == 0 {
        s
    } else {
        spec_absorb_claims(spec_absorb_claim(s, claims[0]), claims.skip(1))
    }
}

/// The distinct query points in order of first appearance, given the points
/// already collected.
pub open spec fn spec_distinct(claims: Seq<ClaimView>, acc: Seq<int>) -> Seq<int>
    decreases claims.len(),
{
    if claims.len() == 0 {
        acc
    } else {
        spec_distinct(
            claims.skip(1),
            if acc.contains(claims[0].point) {
                acc
            } else {
                acc.push(claims[0].point)
            },
        )
    }
}

/// The sponge state after `n` squeezes.
pub open spec fn spec_squeeze_n(s: int, n: nat) -> int
    decreases n,
{
    if n == 0 {
        s
    } else {
        spec_squeeze(spec_squeeze_n(s, (n - 1) as nat))
    }
}

/// The challenge squeezed in position `j` (counting from zero) from state
/// `s`.
pub open spec fn spec_chal(s: int, j: int) -> int {
    spec_squeeze_n(s, (j + 1) as nat)
}

/// Folds the base units of one point over the claims: every claim queried at
/// `z` contributes its commitment with weight `ch^t` to the combined
/// commitment, and its claimed value with the same weight to the combined
/// value; `t` counts the units consumed so far.
pub open spec fn spec_fold_base(
    claims: Seq<ClaimView>,
    z: int,
    ch: int,
    t: nat,
    acc_c: Seq<u8>,
    acc_v: int,
) -> (Seq<u8>, int, nat)
    decreases claims.len(),
{
    if claims.len() == 0 {
        (acc_c, acc_v, t)
    } else if claims[0].point == z {
        spec_fold_base(
            claims.skip(1),
            z,
            ch,
            t + 1,
            g1_add_of(acc_c, g1_mul_of(claims[0].comm, pow_mod(ch, t))),
            (acc_v + pow_mod(ch, t) * claims[0].value) % fr_order(),
        )
    } else {
        spec_fold_base(claims.skip(1), z, ch, t, acc_c, acc_v)
    }
}

/// Folds the degree-bound units of one point: every bounded claim queried at
/// `z` contributes its shifted commitment, and its value scaled by
/// `z^(max_degree - bound)`, with the next weights.
pub open spec fn spec_fold_shift(
    claims: Seq<ClaimView>,
    z: int,
    ch: int,
    max_degree: int,
    t: nat,
    acc_c: Seq<u8>,
    acc_v: int,
) -> (Seq<u8>, int, nat)
    decreases claims.len(),
{
    if claims.len() == 0 {
        (acc_c, acc_v, t)
    } else if claims[0].point == z && claims[0].bound is Some {
        spec_fold_shift(
            claims.skip(1),
            z,
            ch,
            max_degree,
            t + 1,
            g1_add_of(acc_c, g1_mul_of(claims[0].shifted_bytes(), pow_mod(ch, t))),
            (acc_v + pow_mod(ch, t) * ((pow_mod(z, (max_degree - claims[0].bound.unwrap()) as nat)
                * claims[0].value) % fr_order())) % fr_order(),
        )
    } else {
        spec_fold_shift(claims.skip(1), z, ch, max_degree, t, acc_c, acc_v)
    }
}

/// The combined commitment and combined claimed value for one point.
pub open spec fn spec_point_combination(
    claims: Seq<ClaimView>,
    z: int,
    ch: int,
    max_degree: int,
) -> (Seq<u8>, int) {
    let base = spec_fold_base(claims, z, ch, 0, g1_zero_bytes(), 0);
    let full = spec_fold_shift(claims, z, ch, max_degree, base.2, base.0, base.1);
    (full.0, full.1)
}

/// Both sides of the aggregated pairing equality: folds `r^j` times the
/// per-point terms into the accumulators, left to right over the distinct
/// points.
pub open spec fn spec_fold_rhs(
    claims: Seq<ClaimView>,
    pts: Seq<int>,
    witnesses: Seq<Seq<u8>>,
    s_abs: int,
    rch: int,
    max_degree: int,
    g: Seq<u8>,
    j: nat,
    acc_l: Seq<u8>,
    acc_r: Seq<u8>,
) -> (Seq<u8>, Seq<u8>)
    decreases pts.len() - j,
{
    if j >= pts.len() || pts.len() != witnesses.len() {
        (acc_l, acc_r)
    } else {
        let z = pts[j as int];
        let ch = spec_chal(s_abs, j as int);
        let comb = spec_point_combination(claims, z, ch, max_degree);
        let w = pow_mod(rch, j);
        let term = g1_add_of(
            g1_add_of(comb.0, g1_neg_of(g1_mul_of(g, comb.1))),
            g1_mul_of(witnesses[j as int], z),
        );
        spec_fold_rhs(
            claims,
            pts,
            witnesses,
            s_abs,
            rch,
            max_degree,
            g,
            j + 1,
            g1_add_of(acc_l, g1_mul_of(witnesses[j as int], w)),
            g1_add_of(acc_r, g1_mul_of(term, w)),
        )
    }
}

/// The verifier's decision for a claim sequence, a proof, and an initial
/// sponge state: recompute the challenges, combine commitments and values
/// per point, aggregate with the second-round challenge, subtract the
/// blinding contribution, and compare the two pairings.
pub open spec fn spec_check_decision(
    g: Seq<u8>,
    gamma_g: Seq<u8>,
    h: Seq<u8>,
    beta_h: Seq<u8>,
    max_degree: int,
    claims: Seq<ClaimView>,
    witnesses: Seq<Seq<u8>>,
    random_v: int,
    s0: int,
) -> bool {
    let s_abs = spec_absorb_claims(s0, claims);
    let pts = spec_distinct(claims, Seq::empty());
    if witnesses.len() != pts.len() {
        false
    } else {
        let rch = spec_chal(spec_squeeze_n(s_abs, pts.len()), 0);
        let folded = spec_fold_rhs(
            claims,
            pts,
            witnesses,
            s_abs,
            rch,
            max_degree,
            g,
            0,
            g1_zero_bytes(),
            g1_zero_bytes(),
        );
        let rhs = g1_add_of(folded.1, g1_neg_of(g1_mul_of(gamma_g, random_v)));
        pair_eq_of(folded.0, beta_h, rhs, h)
    }
}

/// Absorbs a claim sequence into the sponge.
fn absorb_claims(sponge: &mut Sponge, claims: &Vec<Claim>)
    requires
        old(sponge).wf(),
        claims_wf(claims@),
    ensures
        final(sponge).wf(),
        final(sponge).state@ == spec_absorb_claims(old(sponge).state@, claim_views(claims@)),
{
    let ghost orig: int = sponge.state@;
    let mut i: usize = 0;
    proof {
        assert(claim_views(claims@).skip(0) =~= claim_views(claims@));
    }
    while i < claims.len()
        invariant
            i <= claims@.len(),
            sponge.wf(),
            claims_wf(claims@),
            spec_absorb_claims(orig, claim_views(claims@)) == spec_absorb_claims(
                sponge.state@,
                claim_views(claims@).skip(i as int),
            ),
        decreases claims@.len() - i,
    {
        proof {
            assert(claim_views(claims@).skip(i as int)[0] == claims@[i as int]@);
            assert(claim_views(claims@).skip(i as int).skip(1) =~= claim_views(claims@).skip(
                i + 1,
            ));
        }
        let c = &claims[i];
        sponge.absorb_bytes(&c.comm.b);
        if let Some(s) = &c.shifted {
            sponge.absorb_bytes(&s.b);
        }
        sponge.absorb(&c.point);
        sponge.absorb(&c.value);
        i = i + 1;
    }
    proof {
        assert(claim_views(claims@).skip(claims@.len() as int) =~= Seq::<ClaimView>::empty());
    }
}

/// Collects the distinct query points in order of first appearance.
fn distinct_points(claims: &Vec<Claim>) -> (r: Vec<Scalar>)
    requires
        claims_wf(claims@),
    ensures
        forall|i: int| 0 <= i < r@.len() ==> (#[trigger] r@[i]).wf(),
        vals(r@) == spec_distinct(claim_views(claims@), Seq::empty()),
{
    let mut pts: Vec<Scalar> = Vec::new();
    let mut i: usize = 0;
    proof {
        assert(claim_views(claims@).skip(0) =~= claim_views(claims@));
        assert(vals(pts@) =~= Seq::<int>::empty());
    }
    while i < claims.len()
        invariant
            i <= claims@.len(),
            claims_wf(claims@),
            forall|j: int| 0 <= j < pts@.len() ==> (#[trigger] pts@[j]).wf(),
            spec_distinct(claim_views(claims@), Seq::empty()) == spec_distinct(
                claim_views(claims@).skip(i as int),
                vals(pts@),
            ),
        decreases claims@.len() - i,
    {
        proof {
            assert(claim_views(claims@).skip(i as int)[0] == claims@[i as int]@);
            assert(claim_views(claims@).skip(i as int).skip(1) =~= claim_views(claims@).skip(
                i + 1,
            ));
        }
        let p = &claims[i].point;
        let mut seen: bool = false;
        let mut j: usize = 0;
        while j < pts.len()
            invariant
                j <= pts@.len(),
                p.wf(),
                forall|k: int| 0 <= k < pts@.len() ==> (#[trigger] pts@[k]).wf(),
                seen <==> exists|k: int| 0 <= k < j && (#[trigger] vals(pts@)[k]) == p@,
            decreases pts@.len() - j,
        {
            if crate::scalar::scalar_eq(&pts[j], p) {
                proof {
                    assert(vals(pts@)[j as int] == p@);
                }
                seen = true;
            }
            j = j + 1;
        }
        proof {
            assert(seen == vals(pts@).contains(p@));
        }
        if !seen {
            let ghost pts_before = pts@;
            let pc = p.clone();
            pts.push(pc);
            proof {
                assert(vals(pts@) =~= vals(pts_before).push(p@));
            }
        }
        i = i + 1;
    }
    proof {
        assert(claim_views(claims@).skip(claims@.len() as int) =~= Seq::<ClaimView>::empty());
    }
    pts
}

/// A power in the scalar field is already reduced.
proof fn lemma_pow_reduced(b: int, t: nat)
    ensures
        pow_mod(b, t) % fr_order() == pow_mod(b, t),
{
    if t == 0 {
        vstd::arithmetic::div_mod::lemma_small_mod(1nat, fr_order() as nat);
    } else {
        vstd::arithmetic::div_mod::lemma_mod_bound(
            b * pow_mod(b, (t - 1) as nat),
            fr_order(),
        );
        vstd::arithmetic::div_mod::lemma_small_mod(
            pow_mod(b, t) as nat,
            fr_order() as nat,
        );
    }
}

/// Squeezes one challenge per distinct point.
fn squeeze_challenges(sponge: &mut Sponge, n: usize) -> (r: Vec<Scalar>)
    requires
        old(sponge).wf(),
    ensures
        final(sponge).wf(),
        final(sponge).state@ == spec_squeeze_n(old(sponge).state@, n as nat),
        r@.len() == n,
        forall|j: int| 0 <= j < n ==> (#[trigger] r@[j]).wf(),
        forall|j: int| 0 <= j < n ==> (#[trigger] r@[j])@ == spec_chal(old(sponge).state@, j),
{
    let ghost orig: int = sponge.state@;
    let mut out: Vec<Scalar> = Vec::new();
    let mut i: usize = 0;
    while i < n
        invariant
            i <= n,
            sponge.wf(),
            sponge.state@ == spec_squeeze_n(orig, i as nat),
            out@.len() == i,
            forall|j: int| 0 <= j < i ==> (#[trigger] out@[j]).wf(),
            forall|j: int| 0 <= j < i ==> (#[trigger] out@[j])@ == spec_chal(orig, j),
        decreases n - i,
    {
        let c = sponge.squeeze();
        out.push(c);
        i = i + 1;
    }
    out
}

/// All bounded claims declare a bound within the cap.
pub open spec fn claims_bounds_ok(claims: Seq<Claim>, cap: int) -> bool {
    forall|i: int|
        0 <= i < claims.len() ==> ((#[trigger] claims[i]).bound is Some ==> claims[i].bound.unwrap()
            <= cap)
}

/// Combines the commitments and claimed values of every claim queried at one
/// point, challenge-weighted, degree-bound units after the base units.
fn point_combination(claims: &Vec<Claim>, z: &Scalar, ch: &Scalar, max_degree: usize) -> (r: (
    G1El,
    Scalar,
))
    requires
        claims_wf(claims@),
        claims_bounds_ok(claims@, max_degree as int),
        claims@.len() * 2 <= usize::MAX,
        z.wf(),
        ch.wf(),
    ensures
        r.0.wf(),
        r.1.wf(),
        (r.0@, r.1@) == spec_point_combination(
            claim_views(claims@),
            z@,
            ch@,
            max_degree as int,
        ),
{
    let ghost cv = claim_views(claims@);
    let mut acc_c = g1_zero();
    let mut acc_v = scalar_zero();
    let mut t: usize = 0;
    let mut i: usize = 0;
    proof {
        assert(cv.skip(0) =~= cv);
    }
    while i < claims.len()
        invariant
            i <= claims@.len(),
            t <= i,
            claims_wf(claims@),
            claims_bounds_ok(claims@, max_degree as int),
            z.wf(),
            ch.wf(),
            acc_c.wf(),
            acc_v.wf(),
            cv == claim_views(claims@),
            spec_fold_base(cv, z@, ch@, 0, g1_zero_bytes(), 0) == spec_fold_base(
                cv.skip(i as int),
                z@,
                ch@,
                t as nat,
                acc_c@,
                acc_v@,
            ),
        decreases claims@.len() - i,
    {
        proof {
            assert(cv.skip(i as int)[0] == claims@[i as int]@);
            assert(cv.skip(i as int).skip(1) =~= cv.skip(i + 1));
        }
        let c = &claims[i];
        if crate::scalar::scalar_eq(&c.point, z) {
            let w = fr_pow(ch, t);
            proof {
                lemma_pow_reduced(ch@, t as nat);
            }
            let term = g1_mul(&c.comm, &w);
            acc_c = g1_add(&acc_c, &term);
            let prod = fr_mul(&w, &c.value);
            proof {
                lemma_small_mod(acc_v@ as nat, fr_order() as nat);
                lemma_add_mod_noop(acc_v@, w@ * c.value@, fr_order());
            }
            acc_v = fr_add(&acc_v, &prod);
            t = t + 1;
        }
        i = i + 1;
    }
    proof {
        assert(cv.skip(claims@.len() as int) =~= Seq::<ClaimView>::empty());
    }
    let ghost base = spec_fold_base(cv, z@, ch@, 0, g1_zero_bytes(), 0);
    let mut m: usize = 0;
    proof {
        assert(cv.skip(0) =~= cv);
        assert(base == (acc_c@, acc_v@, t as nat));
    }
    while m < claims.len()
        invariant
            m <= claims@.len(),
            t <= claims@.len() + m,
            claims@.len() * 2 <= usize::MAX,
            claims_wf(claims@),
            claims_bounds_ok(claims@, max_degree as int),
            z.wf(),
            ch.wf(),
            acc_c.wf(),
            acc_v.wf(),
            cv == claim_views(claims@),
            base == spec_fold_base(cv, z@, ch@, 0, g1_zero_bytes(), 0),
            spec_fold_shift(cv, z@, ch@, max_degree as int, base.2, base.0, base.1)
                == spec_fold_shift(
                cv.skip(m as int),
                z@,
                ch@,
                max_degree as int,
                t as nat,
                acc_c@,
                acc_v@,
            ),
        decreases claims@.len() - m,
    {
        proof {
            assert(cv.skip(m as int)[0] == claims@[m as int]@);
            assert(cv.skip(m as int).skip(1) =~= cv.skip(m + 1));
        }
        let c = &claims[m];
        let is_match: bool = match c.bound {
            Some(_) => crate::scalar::scalar_eq(&c.point, z),
            None => false,
        };
        if is_match {
            let b: usize = match c.bound {
                Some(b) => b,
                None => 0,
            };
            let w = fr_pow(ch, t);
            let shifted_el: G1El = match &c.shifted {
                Some(s) => s.clone(),
                None => g1_zero(),
            };
            proof {
                lemma_pow_reduced(ch@, t as nat);
                assert(shifted_el@ == claims@[m as int]@.shifted_bytes());
            }
            let term = g1_mul(&shifted_el, &w);
            acc_c = g1_add(&acc_c, &term);
            let zpow = fr_pow(z, max_degree - b);
            let sv = fr_mul(&zpow, &c.value);
            proof {
                lemma_pow_reduced(z@, (max_degree - b) as nat);
            }
            let prod = fr_mul(&w, &sv);
            proof {
                lemma_small_mod(acc_v@ as nat, fr_order() as nat);
                lemma_add_mod_noop(acc_v@, w@ * sv@, fr_order());
            }
            acc_v = fr_add(&acc_v, &prod);
            t = t + 1;
        }
        m = m + 1;
    }
    proof {
        assert(cv.skip(claims@.len() as int) =~= Seq::<ClaimView>::empty());
    }
    (acc_c, acc_v)
}

/// The first position of a label among the commitments, or -1.
pub open spec fn spec_find_label(comms: Seq<LabeledCommitment>, label: Seq<char>) -> int
    decreases comms.len(),
{
    if comms.len() == 0 {
        -1
    } else if comms[0].spec_label() == label {
        0
    } else {
        let r = spec_find_label(comms.skip(1), label);
        if r == -1 {
            -1
        } else {
            r + 1
        }
    }
}

/// The first-index characterization of `spec_find_label`.
pub(crate) proof fn lemma_find_label(comms: Seq<LabeledCommitment>, label: Seq<char>)
    ensures
        spec_find_label(comms, label) == -1 ==> forall|k: int|
            0 <= k < comms.len() ==> (#[trigger] comms[k]).spec_label() != label,
        spec_find_label(comms, label) != -1 ==> {
            &&& 0 <= spec_find_label(comms, label) < comms.len()
            &&& comms[spec_find_label(comms, label)].spec_label() == label
            &&& forall|k: int|
                0 <= k < spec_find_label(comms, label) ==> (#[trigger] comms[k]).spec_label()
                    != label
        },
    decreases comms.len(),
{
    if comms.len() > 0 && comms[0].spec_label() != label {
        let rest = comms.skip(1);
        lemma_find_label(rest, label);
        let r = spec_find_label(rest, label);
        if r == -1 {
            assert forall|k: int| 0 <= k < comms.len() implies (#[trigger] comms[k]).spec_label()
                != label by {
                if k >= 1 {
                    assert(comms[k] == rest[k - 1]);
                }
            }
        } else {
            assert(comms[r + 1] == rest[r]);
            assert forall|k: int| 0 <= k < r + 1 implies (#[trigger] comms[k]).spec_label()
                != label by {
                if k >= 1 {
                    assert(comms[k] == rest[k - 1]);
                }
            }
        }
    }
}

/// Finds a commitment by label.
pub(crate) fn find_commitment(comms: &Vec<LabeledCommitment>, label: &String) -> (r: Option<usize>)
    ensures
        match r {
            Some(i) => i as int == spec_find_label(comms@, label@),
            None => spec_find_label(comms@, label@) == -1,
        },
{
    let mut i: usize = 0;
    while i < comms.len()
        invariant
            i <= comms@.len(),
            forall|k: int| 0 <= k < i ==> (#[trigger] comms@[k]).spec_label() != label@,
        decreases comms@.len() - i,
    {
        if comms[i].label().eq(label) {
            proof {
                lemma_find_label(comms@, label@);
                assert(comms@[i as int].spec_label() == label@);
                if spec_find_label(comms@, label@) == -1 {
                    assert(false);
                }
                assert(spec_find_label(comms@, label@) == i as int);
            }
            return Some(i);
        }
        i = i + 1;
    }
    proof {
        lemma_find_label(comms@, label@);
        if spec_find_label(comms@, label@) != -1 {
            assert(comms@[spec_find_label(comms@, label@)].spec_label() == label@);
            assert(false);
        }
    }
    None
}

/// The first error the verifier meets while resolving the query set: an
/// unknown label, a degree bound beyond the key, or a missing claimed value.
pub open spec fn spec_check_err(
    comms: Seq<LabeledCommitment>,
    qs: Seq<(String, (String, Scalar))>,
    evals: Seq<((String, Scalar), Scalar)>,
    cap: int,
) -> Option<PCError>
    decreases qs.len(),
{
    if qs.len() == 0 {
        None
    } else {
        let e = qs[0];
        let ci = spec_find_label(comms, e.0@);
        if ci == -1 {
            Some(PCError::MissingPolynomial)
        } else if comms[ci].spec_degree_bound() is Some && comms[ci].spec_degree_bound().unwrap()
            > cap {
            Some(PCError::UnsupportedDegreeBound)
        } else if spec_lookup_eval(evals, e.0@, e.1.1@) is None {
            Some(PCError::MissingEvaluation)
        } else {
            spec_check_err(comms, qs.skip(1), evals, cap)
        }
    }
}

/// The per-query error decides the batch error while earlier queries are
/// clean.
proof fn lemma_check_err_skip(
    comms: Seq<LabeledCommitment>,
    qs: Seq<(String, (String, Scalar))>,
    evals: Seq<((String, Scalar), Scalar)>,
    cap: int,
    i: int,
)
    requires
        0 <= i <= qs.len(),
        forall|j: int|
            0 <= j < i ==> {
                let ci = spec_find_label(comms, (#[trigger] qs[j]).0@);
                &&& ci != -1
                &&& !(comms[ci].spec_degree_bound() is Some
                    && comms[ci].spec_degree_bound().unwrap() > cap)
                &&& spec_lookup_eval(evals, qs[j].0@, qs[j].1.1@) is Some
            },
    ensures
        spec_check_err(comms, qs, evals, cap) == spec_check_err(comms, qs.skip(i), evals, cap),
    decreases i,
{
    if i == 0 {
        assert(qs.skip(0) =~= qs);
    } else {
        lemma_check_err_skip(comms, qs, evals, cap, i - 1);
        assert(qs.skip(i - 1).len() > 0);
        assert(qs.skip(i - 1)[0] == qs[i - 1]);
        assert(qs.skip(i - 1).skip(1) =~= qs.skip(i));
    }
}

/// The claim a clean query resolves to: the labeled commitment's parts, the
/// query point, and the claimed value.
pub open spec fn spec_claim_of(
    comms: Seq<LabeledCommitment>,
    evals: Seq<((String, Scalar), Scalar)>,
    e: (String, (String, Scalar)),
) -> ClaimView {
    let ci = spec_find_label(comms, e.0@);
    ClaimView {
        comm: comms[ci].spec_commitment().comm@,
        shifted: match comms[ci].spec_commitment().shifted_comm {
            Some(s) => Some(s@),
            None => None,
        },
        point: e.1.1@,
        value: spec_lookup_eval(evals, e.0@, e.1.1@).unwrap(),
        bound: match comms[ci].spec_degree_bound() {
            Some(b) => Some(b as int),
            None => None,
        },
    }
}

/// The claims a clean query set resolves to, in query order.
pub open spec fn spec_claims_of(
    comms: Seq<LabeledCommitment>,
    evals: Seq<((String, Scalar), Scalar)>,
    qs: Seq<(String, (String, Scalar))>,
) -> Seq<ClaimView> {
    Seq::new(qs.len(), |q: int| spec_claim_of(comms, evals, qs[q]))
}

/// Checks a batch of opening claims against a proof: recomputes the
/// challenge sequence from its own copies of the commitments and claimed
/// values, reconstructs the combined commitment and value per point, and
/// decides one aggregated pairing equality.  `Ok(false)` means the proof was
/// rejected; an error means the query set could not be resolved.
pub fn batch_check(
    vk: &UniversalVerifier,
    commitments: &Vec<LabeledCommitment>,
    query_set: &QuerySet,
    evaluations: &Evaluations,
    proof: &BatchProof,
    sponge: &mut Sponge,
) -> (r: Result<bool, PCError>)
    requires
        vk.wf(),
        forall|i: int| 0 <= i < commitments@.len() ==> (#[trigger] commitments@[i]).wf(),
        query_set.wf(),
        evaluations.wf(),
        proof.wf(),
        old(sponge).wf(),
        query_set.entries@.len() * 2 <= usize::MAX,
    ensures
        final(sponge).wf(),
        match r {
            Err(e) => spec_check_err(
                commitments@,
                query_set.entries@,
                evaluations.entries@,
                vk.max_degree as int,
            ) == Some(e),
            Ok(b) => {
                &&& spec_check_err(
                    commitments@,
                    query_set.entries@,
                    evaluations.entries@,
                    vk.max_degree as int,
                ) is None
                &&& b == spec_check_decision(
                    vk.g@,
                    vk.gamma_g@,
                    vk.h@,
                    vk.beta_h@,
                    vk.max_degree as int,
                    spec_claims_of(commitments@, evaluations.entries@, query_set.entries@),
                    g1s(proof.witnesses@),
                    proof.random_v@,
                    old(sponge).state@,
                )
            },
        },
{
    let ghost qs = query_set.entries@;
    let mut claims: Vec<Claim> = Vec::new();
    let mut q: usize = 0;
    while q < query_set.entries.len()
        invariant
            q <= qs.len(),
            qs == query_set.entries@,
            *sponge == *old(sponge),
            old(sponge).wf(),
            qs.len() * 2 <= usize::MAX,
            vk.wf(),
            forall|i: int| 0 <= i < commitments@.len() ==> (#[trigger] commitments@[i]).wf(),
            query_set.wf(),
            evaluations.wf(),
            claims@.len() == q,
            claims_wf(claims@),
            claims_bounds_ok(claims@, vk.max_degree as int),
            forall|j: int|
                0 <= j < q ==> (#[trigger] claims@[j])@ == spec_claim_of(
                    commitments@,
                    evaluations.entries@,
                    qs[j],
                ),
            forall|j: int|
                0 <= j < q ==> {
                    let ci = spec_find_label(commitments@, (#[trigger] qs[j]).0@);
                    &&& ci != -1
                    &&& !(commitments@[ci].spec_degree_bound() is Some
                        && commitments@[ci].spec_degree_bound().unwrap() > vk.max_degree as int)
                    &&& spec_lookup_eval(evaluations.entries@, qs[j].0@, qs[j].1.1@) is Some
                },
        decreases qs.len() - q,
    {
        let label: &String = &query_set.entries[q].0;
        let point: &Scalar = &query_set.entries[q].1.1;
        let ci: usize = match find_commitment(commitments, label) {
            Some(i) => i,
            None => {
                proof {
                    lemma_check_err_skip(
                        commitments@,
                        qs,
                        evaluations.entries@,
                        vk.max_degree as int,
                        q as int,
                    );
                    assert(qs.skip(q as int)[0] == qs[q as int]);
                }
                return Err(PCError::MissingPolynomial);
            },
        };
        proof {
            lemma_find_label(commitments@, label@);
        }
        let lc = &commitments[ci];
        if let Some(b) = lc.degree_bound() {
            if b > vk.max_degree {
                proof {
                    lemma_check_err_skip(
                        commitments@,
                        qs,
                        evaluations.entries@,
                        vk.max_degree as int,
                        q as int,
                    );
                    assert(qs.skip(q as int)[0] == qs[q as int]);
                }
                return Err(PCError::UnsupportedDegreeBound);
            }
        }
        let value: Scalar = match evaluations.get(label, point) {
            Some(v) => v,
            None => {
                proof {
                    lemma_check_err_skip(
                        commitments@,
                        qs,
                        evaluations.entries@,
                        vk.max_degree as int,
                        q as int,
                    );
                    assert(qs.skip(q as int)[0] == qs[q as int]);
                }
                return Err(PCError::MissingEvaluation);
            },
        };
        let shifted: Option<G1El> = match &lc.commitment().shifted_comm {
            Some(s) => Some(s.clone()),
            None => None,
        };
        let claim = Claim {
            comm: lc.commitment().comm.clone(),
            shifted,
            point: point.clone(),
            value,
            bound: lc.degree_bound(),
        };
        claims.push(claim);
        proof {
            assert(claims@[q as int]@ == spec_claim_of(
                commitments@,
                evaluations.entries@,
                qs[q as int],
            ));
        }
        q = q + 1;
    }
    proof {
        lemma_check_err_skip(
            commitments@,
            qs,
            evaluations.entries@,
            vk.max_degree as int,
            qs.len() as int,
        );
        assert(qs.skip(qs.len() as int) =~= Seq::<(String, (String, Scalar))>::empty());
        assert(claim_views(claims@) =~= spec_claims_of(
            commitments@,
            evaluations.entries@,
            qs,
        ));
    }
    let ghost s0: int = sponge.state@;
    absorb_claims(sponge, &claims);
    let ghost s_abs: int = sponge.state@;
    let pts = distinct_points(&claims);
    let chs = squeeze_challenges(sponge, pts.len());
    let rch = sponge.squeeze();

    if proof.witnesses.len() != pts.len() {
        return Ok(false);
    }

    let ghost cv = claim_views(claims@);
    let ghost wviews = g1s(proof.witnesses@);
    proof {
        let s_after = spec_squeeze_n(s_abs, pts@.len() as nat);
        assert(spec_squeeze_n(s_after, 0) == s_after);
        assert(spec_chal(s_after, 0) == spec_squeeze(spec_squeeze_n(s_after, 0)));
    }
    let mut lhs_acc = g1_zero();
    let mut rhs_acc = g1_zero();
    let mut j: usize = 0;
    while j < pts.len()
        invariant
            j <= pts@.len(),
            vk.wf(),
            proof.wf(),
            claims_wf(claims@),
            claims@.len() * 2 <= usize::MAX,
            claims_bounds_ok(claims@, vk.max_degree as int),
            cv == claim_views(claims@),
            wviews == g1s(proof.witnesses@),
            proof.witnesses@.len() == pts@.len(),
            forall|k: int| 0 <= k < pts@.len() ==> (#[trigger] pts@[k]).wf(),
            chs@.len() == pts@.len(),
            forall|k: int| 0 <= k < chs@.len() ==> (#[trigger] chs@[k]).wf(),
            forall|k: int| 0 <= k < chs@.len() ==> (#[trigger] chs@[k])@ == spec_chal(s_abs, k),
            rch.wf(),
            rch@ == spec_chal(spec_squeeze_n(s_abs, pts@.len() as nat), 0),
            lhs_acc.wf(),
            rhs_acc.wf(),
            spec_fold_rhs(
                cv,
                vals(pts@),
                wviews,
                s_abs,
                rch@,
                vk.max_degree as int,
                vk.g@,
                0,
                g1_zero_bytes(),
                g1_zero_bytes(),
            ) == spec_fold_rhs(
                cv,
                vals(pts@),
                wviews,
                s_abs,
                rch@,
                vk.max_degree as int,
                vk.g@,
                j as nat,
                lhs_acc@,
                rhs_acc@,
            ),
        decreases pts@.len() - j,
    {
        let comb = point_combination(&claims, &pts[j], &chs[j], vk.max_degree);
        let w_j = &proof.witnesses[j];
        let rpow = fr_pow(&rch, j);
        proof {
            lemma_pow_reduced(rch@, j as nat);
            assert(wviews[j as int] == proof.witnesses@[j as int]@);
            assert(vals(pts@)[j as int] == pts@[j as int]@);
        }
        let lterm = g1_mul(w_j, &rpow);
        lhs_acc = g1_add(&lhs_acc, &lterm);
        let t1 = g1_mul(&vk.g, &comb.1);
        let t2 = g1_neg(&t1);
        let t3 = g1_add(&comb.0, &t2);
        let t4 = g1_mul(w_j, &pts[j]);
        let t5 = g1_add(&t3, &t4);
        let rterm = g1_mul(&t5, &rpow);
        rhs_acc = g1_add(&rhs_acc, &rterm);
        j = j + 1;
    }
    let gterm = g1_mul(&vk.gamma_g, &proof.random_v);
    let gneg = g1_neg(&gterm);
    let rhs = g1_add(&rhs_acc, &gneg);
    let decision = pairing_eq(&lhs_acc, &vk.beta_h, &rhs, &vk.h);
    Ok(decision)
}

/// The first position of a label among the polynomials, or -1.
pub open spec fn spec_find_poly(polys: Seq<LabeledPolynomial>, label: Seq<char>) -> int
    decreases polys.len(),
{
    if polys.len() == 0 {
        -1
    } else if polys[0].spec_label() == label {
        0
    } else {
        let r = spec_find_poly(polys.skip(1), label);
        if r == -1 {
            -1
        } else {
            r + 1
        }
    }
}

/// The first-index characterization of `spec_find_poly`.
pub(crate) proof fn lemma_find_poly(polys: Seq<LabeledPolynomial>, label: Seq<char>)
    ensures
        spec_find_poly(polys, label) == -1 ==> forall|k: int|
            0 <= k < polys.len() ==> (#[trigger] polys[k]).spec_label() != label,
        spec_find_poly(polys, label) != -1 ==> {
            &&& 0 <= spec_find_poly(polys, label) < polys.len()
            &&& polys[spec_find_poly(polys, label)].spec_label() == label
            &&& forall|k: int|
                0 <= k < spec_find_poly(polys, label) ==> (#[trigger] polys[k]).spec_label()
                    != label
        },
    decreases polys.len(),
{
    if polys.len() > 0 && polys[0].spec_label() != label {
        let rest = polys.skip(1);
        lemma_find_poly(rest, label);
        let r = spec_find_poly(rest, label);
        if r == -1 {
            assert forall|k: int| 0 <= k < polys.len() implies (#[trigger] polys[k]).spec_label()
                != label by {
                if k >= 1 {
                    assert(polys[k] == rest[k - 1]);
                }
            }
        } else {
            assert(polys[r + 1] == rest[r]);
            assert forall|k: int| 0 <= k < r + 1 implies (#[trigger] polys[k]).spec_label()
                != label by {
                if k >= 1 {
                    assert(polys[k] == rest[k - 1]);
                }
            }
        }
    }
}

/// Finds a polynomial by label.
pub(crate) fn find_poly(polys: &Vec<LabeledPolynomial>, label: &String) -> (r: Option<usize>)
    ensures
        match r {
            Some(i) => i as int == spec_find_poly(polys@, label@),
            None => spec_find_poly(polys@, label@) == -1,
        },
{
    let mut i: usize = 0;
    while i < polys.len()
        invariant
            i <= polys@.len(),
            forall|k: int| 0 <= k < i ==> (#[trigger] polys@[k]).spec_label() != label@,
        decreases polys@.len() - i,
    {
        if polys[i].label().eq(label) {
            proof {
                lemma_find_poly(polys@, label@);
                assert(polys@[i as int].spec_label() == label@);
                if spec_find_poly(polys@, label@) == -1 {
                    assert(false);
                }
                assert(spec_find_poly(polys@, label@) == i as int);
            }
            return Some(i);
        }
        i = i + 1;
    }
    proof {
        lemma_find_poly(polys@, label@);
        if spec_find_poly(polys@, label@) != -1 {
            assert(polys@[spec_find_poly(polys@, label@)].spec_label() == label@);
            assert(false);
        }
    }
    None
}

/// The blinding coefficients for the shifted part, empty when absent.
pub open spec fn spec_shifted_blind(rand: Randomness) -> Seq<int> {
    match rand.shifted_blind {
        Some(q) => q@,
        None => Seq::<int>::empty(),
    }
}

/// The first error the prover meets while resolving the query set: an
/// unknown label, a polynomial beyond the declared cap, or a degree bound
/// that is unlisted or below the polynomial's degree.
pub open spec fn spec_open_err(
    pk: UniversalProver,
    polys: Seq<LabeledPolynomial>,
    qs: Seq<(String, (String, Scalar))>,
) -> Option<PCError>
    decreases qs.len(),
{
    if qs.len() == 0 {
        None
    } else {
        let e = qs[0];
        let pi = spec_find_poly(polys, e.0@);
        if pi == -1 {
            Some(PCError::MissingPolynomial)
        } else if polys[pi].spec_poly().len() > pk.supported_degree + 1 {
            Some(PCError::DegreeTooLarge)
        } else if polys[pi].spec_degree_bound() is Some && !(pk.degree_bounds is Some
            && pk.degree_bounds.unwrap()@.contains(polys[pi].spec_degree_bound().unwrap())) {
            Some(PCError::UnsupportedDegreeBound)
        } else if polys[pi].spec_degree_bound() is Some && polys[pi].spec_poly().len() - 1
            > polys[pi].spec_degree_bound().unwrap() {
            Some(PCError::DegreeTooLarge)
        } else {
            spec_open_err(pk, polys, qs.skip(1), )
        }
    }
}

/// A query that resolves without error on the prover side.
pub open spec fn spec_query_clean(
    pk: UniversalProver,
    polys: Seq<LabeledPolynomial>,
    e: (String, (String, Scalar)),
) -> bool {
    let pi = spec_find_poly(polys, e.0@);
    &&& pi != -1
    &&& polys[pi].spec_poly().len() <= pk.supported_degree + 1
    &&& (polys[pi].spec_degree_bound() is Some ==> pk.degree_bounds is Some
        && pk.degree_bounds.unwrap()@.contains(polys[pi].spec_degree_bound().unwrap()))
    &&& (polys[pi].spec_degree_bound() is Some ==> polys[pi].spec_poly().len() - 1
        <= polys[pi].spec_degree_bound().unwrap())
}

/// The per-query error decides the batch error while earlier queries are
/// clean.
proof fn lemma_open_err_skip(
    pk: UniversalProver,
    polys: Seq<LabeledPolynomial>,
    qs: Seq<(String, (String, Scalar))>,
    i: int,
)
    requires
        0 <= i <= qs.len(),
        forall|j: int| 0 <= j < i ==> spec_query_clean(pk, polys, #[trigger] qs[j]),
    ensures
        spec_open_err(pk, polys, qs) == spec_open_err(pk, polys, qs.skip(i)),
    decreases i,
{
    if i == 0 {
        assert(qs.skip(0) =~= qs);
    } else {
        lemma_open_err_skip(pk, polys, qs, i - 1);
        assert(qs.skip(i - 1).len() > 0);
        assert(qs.skip(i - 1)[0] == qs[i - 1]);
        assert(qs.skip(i - 1).skip(1) =~= qs.skip(i));
    }
}

/// The claim a clean query resolves to on the prover side: the commitment
/// recomputed from the polynomial and its blinding, and the evaluation at
/// the query point.
pub open spec fn spec_open_claim(
    pk: UniversalProver,
    polys: Seq<LabeledPolynomial>,
    rands: Seq<Randomness>,
    e: (String, (String, Scalar)),
) -> ClaimView {
    let pi = spec_find_poly(polys, e.0@);
    let p = polys[pi];
    let rand = rands[pi];
    ClaimView {
        comm: spec_commit(
            g1s(pk.powers_of_beta_g@),
            g1s(pk.powers_of_gamma_g@),
            p.spec_poly(),
            rand.blind@,
        ),
        shifted: match p.spec_degree_bound() {
            Some(b) => Some(
                spec_commit(
                    g1s(pk.powers_of_beta_g@),
                    g1s(pk.powers_of_gamma_g@),
                    spec_shift(p.spec_poly(), (pk.max_degree - b) as nat),
                    spec_shifted_blind(rand),
                ),
            ),
            None => None,
        },
        point: e.1.1@,
        value: spec_eval(p.spec_poly(), e.1.1@),
        bound: match p.spec_degree_bound() {
            Some(b) => Some(b as int),
            None => None,
        },
    }
}

/// The claims a clean query set resolves to on the prover side.
pub open spec fn spec_open_claims(
    pk: UniversalProver,
    polys: Seq<LabeledPolynomial>,
    rands: Seq<Randomness>,
    qs: Seq<(String, (String, Scalar))>,
) -> Seq<ClaimView> {
    Seq::new(qs.len(), |q: int| spec_open_claim(pk, polys, rands, qs[q]))
}

/// Folds the base units of one point on the prover side: every query at `z`
/// contributes its polynomial and its blinding, challenge-weighted.
pub open spec fn spec_fold_open_base(
    polys: Seq<LabeledPolynomial>,
    rands: Seq<Randomness>,
    qs: Seq<(String, (String, Scalar))>,
    z: int,
    ch: int,
    t: nat,
    acc_p: Seq<int>,
    acc_b: Seq<int>,
) -> (Seq<int>, Seq<int>, nat)
    decreases qs.len(),
{
    if qs.len() == 0 {
        (acc_p, acc_b, t)
    } else if qs[0].1.1@ == z {
        let pi = spec_find_poly(polys, qs[0].0@);
        spec_fold_open_base(
            polys,
            rands,
            qs.skip(1),
            z,
            ch,
            t + 1,
            spec_add_scaled(acc_p, pow_mod(ch, t), polys[pi].spec_poly()),
            spec_add_scaled(acc_b, pow_mod(ch, t), rands[pi].blind@),
        )
    } else {
        spec_fold_open_base(polys, rands, qs.skip(1), z, ch, t, acc_p, acc_b)
    }
}

/// Folds the degree-bound units of one point on the prover side: every
/// bounded query at `z` contributes its shifted polynomial and shifted
/// blinding, with the next weights.
pub open spec fn spec_fold_open_shift(
    pk: UniversalProver,
    polys: Seq<LabeledPolynomial>,
    rands: Seq<Randomness>,
    qs: Seq<(String, (String, Scalar))>,
    z: int,
    ch: int,
    t: nat,
    acc_p: Seq<int>,
    acc_b: Seq<int>,
) -> (Seq<int>, Seq<int>, nat)
    decreases qs.len(),
{
    if qs.len() == 0 {
        (acc_p, acc_b, t)
    } else {
        let pi = spec_find_poly(polys, qs[0].0@);
        if qs[0].1.1@ == z && 0 <= pi < polys.len() && polys[pi].spec_degree_bound() is Some {
            let b = polys[pi].spec_degree_bound().unwrap();
            spec_fold_open_shift(
                pk,
                polys,
                rands,
                qs.skip(1),
                z,
                ch,
                t + 1,
                spec_add_scaled(
                    acc_p,
                    pow_mod(ch, t),
                    spec_shift(polys[pi].spec_poly(), (pk.max_degree - b) as nat),
                ),
                spec_add_scaled(acc_b, pow_mod(ch, t), spec_shifted_blind(rands[pi])),
            )
        } else {
            spec_fold_open_shift(pk, polys, rands, qs.skip(1), z, ch, t, acc_p, acc_b)
        }
    }
}

/// The combined polynomial and combined blinding for one point.
pub open spec fn spec_open_combined(
    pk: UniversalProver,
    polys: Seq<LabeledPolynomial>,
    rands: Seq<Randomness>,
    qs: Seq<(String, (String, Scalar))>,
    z: int,
    ch: int,
) -> (Seq<int>, Seq<int>) {
    let base = spec_fold_open_base(
        polys,
        rands,
        qs,
        z,
        ch,
        0,
        Seq::<int>::empty(),
        Seq::<int>::empty(),
    );
    let full = spec_fold_open_shift(pk, polys, rands, qs, z, ch, base.2, base.0, base.1);
    (full.0, full.1)
}

/// The witness the prover must produce for point `j`: the commitment to the
/// quotients of the combined polynomial and combined blinding by `X - z`.
pub open spec fn spec_open_witness(
    pk: UniversalProver,
    polys: Seq<LabeledPolynomial>,
    rands: Seq<Randomness>,
    qs: Seq<(String, (String, Scalar))>,
    s_abs: int,
    j: int,
    z: int,
) -> Seq<u8> {
    let comb = spec_open_combined(pk, polys, rands, qs, z, spec_chal(s_abs, j));
    spec_commit(
        g1s(pk.powers_of_beta_g@),
        g1s(pk.powers_of_gamma_g@),
        spec_quot(comb.0, z),
        spec_quot(comb.1, z),
    )
}

/// The combined blinding evaluation: the second-round-weighted sum of the
/// combined blinding polynomials' values at their points.
pub open spec fn spec_fold_rv(
    pk: UniversalProver,
    polys: Seq<LabeledPolynomial>,
    rands: Seq<Randomness>,
    qs: Seq<(String, (String, Scalar))>,
    pts: Seq<int>,
    s_abs: int,
    rch: int,
    j: nat,
    acc: int,
) -> int
    decreases pts.len() - j,
{
    if j >= pts.len() {
        acc
    } else {
        let z = pts[j as int];
        let comb = spec_open_combined(pk, polys, rands, qs, z, spec_chal(s_abs, j as int));
        spec_fold_rv(
            pk,
            polys,
            rands,
            qs,
            pts,
            s_abs,
            rch,
            j + 1,
            (acc + pow_mod(rch, j) * spec_eval(comb.1, z)) % fr_order(),
        )
    }
}

/// The randomness vector matches the key: every blinding polynomial fits the
/// hiding basis.
pub open spec fn rands_ok(pk: UniversalProver, rands: Seq<Randomness>) -> bool {
    forall|i: int|
        0 <= i < rands.len() ==> {
            &&& (#[trigger] rands[i]).wf()
            &&& rands[i].blind@.len() <= pk.max_degree + 1
            &&& (rands[i].shifted_blind is Some ==> rands[i].shifted_blind.unwrap()@.len()
                <= pk.max_degree + 1)
        }
}

/// Combines the polynomials and blindings of every query at one point,
/// challenge-weighted, degree-bound units after the base units.
fn open_combination(
    pk: &UniversalProver,
    polys: &Vec<LabeledPolynomial>,
    rands: &Vec<Randomness>,
    query_set: &QuerySet,
    pidx: &Vec<usize>,
    z: &Scalar,
    ch: &Scalar,
) -> (r: (Poly, Poly))
    requires
        pk.wf(),
        forall|i: int| 0 <= i < polys@.len() ==> (#[trigger] polys@[i]).wf(),
        rands_ok(*pk, rands@),
        rands@.len() == polys@.len(),
        query_set.wf(),
        query_set.entries@.len() * 2 <= usize::MAX,
        pidx@.len() == query_set.entries@.len(),
        forall|q: int|
            0 <= q < query_set.entries@.len() ==> (#[trigger] pidx@[q]) as int == spec_find_poly(
                polys@,
                query_set.entries@[q].0@,
            ),
        forall|q: int|
            0 <= q < query_set.entries@.len() ==> spec_query_clean(
                *pk,
                polys@,
                #[trigger] query_set.entries@[q],
            ),
        z.wf(),
        ch.wf(),
    ensures
        r.0.wf(),
        r.1.wf(),
        (r.0@, r.1@) == spec_open_combined(*pk, polys@, rands@, query_set.entries@, z@, ch@),
        r.0@.len() <= pk.max_degree + 1,
        r.1@.len() <= pk.max_degree + 1,
{
    let ghost qs = query_set.entries@;
    let empty_poly = Poly::zero();
    let mut acc_p = Poly::zero();
    let mut acc_b = Poly::zero();
    let mut t: usize = 0;
    let mut q: usize = 0;
    proof {
        assert(qs.skip(0) =~= qs);
        assert(acc_p@ =~= Seq::<int>::empty());
        assert(acc_b@ =~= Seq::<int>::empty());
    }
    while q < query_set.entries.len()
        invariant
            q <= qs.len(),
            t <= q,
            qs == query_set.entries@,
            pk.wf(),
            forall|i: int| 0 <= i < polys@.len() ==> (#[trigger] polys@[i]).wf(),
            rands_ok(*pk, rands@),
            rands@.len() == polys@.len(),
            query_set.wf(),
            pidx@.len() == qs.len(),
            forall|k: int|
                0 <= k < qs.len() ==> (#[trigger] pidx@[k]) as int == spec_find_poly(
                    polys@,
                    qs[k].0@,
                ),
            forall|k: int| 0 <= k < qs.len() ==> spec_query_clean(*pk, polys@, #[trigger] qs[k]),
            z.wf(),
            ch.wf(),
            acc_p.wf(),
            acc_b.wf(),
            acc_p@.len() <= pk.max_degree + 1,
            acc_b@.len() <= pk.max_degree + 1,
            spec_fold_open_base(
                polys@,
                rands@,
                qs,
                z@,
                ch@,
                0,
                Seq::<int>::empty(),
                Seq::<int>::empty(),
            ) == spec_fold_open_base(
                polys@,
                rands@,
                qs.skip(q as int),
                z@,
                ch@,
                t as nat,
                acc_p@,
                acc_b@,
            ),
        decreases qs.len() - q,
    {
        proof {
            assert(qs.skip(q as int)[0] == qs[q as int]);
            assert(qs.skip(q as int).skip(1) =~= qs.skip(q + 1));
        }
        let e = &query_set.entries[q];
        if crate::scalar::scalar_eq(&e.1.1, z) {
            let pi = pidx[q];
            proof {
                lemma_find_poly(polys@, qs[q as int].0@);
                lemma_pow_reduced(ch@, t as nat);
            }
            let w = fr_pow(ch, t);
            acc_p = acc_p.add_scaled(&w, polys[pi].polynomial());
            acc_b = acc_b.add_scaled(&w, &rands[pi].blind);
            t = t + 1;
        }
        q = q + 1;
    }
    proof {
        assert(qs.skip(qs.len() as int) =~= Seq::<(String, (String, Scalar))>::empty());
    }
    let ghost base = spec_fold_open_base(
        polys@,
        rands@,
        qs,
        z@,
        ch@,
        0,
        Seq::<int>::empty(),
        Seq::<int>::empty(),
    );
    let mut m: usize = 0;
    proof {
        assert(qs.skip(0) =~= qs);
        assert(base == (acc_p@, acc_b@, t as nat));
    }
    while m < query_set.entries.len()
        invariant
            m <= qs.len(),
            t <= qs.len() + m,
            qs == query_set.entries@,
            qs.len() * 2 <= usize::MAX,
            pk.wf(),
            forall|i: int| 0 <= i < polys@.len() ==> (#[trigger] polys@[i]).wf(),
            rands_ok(*pk, rands@),
            rands@.len() == polys@.len(),
            query_set.wf(),
            pidx@.len() == qs.len(),
            forall|k: int|
                0 <= k < qs.len() ==> (#[trigger] pidx@[k]) as int == spec_find_poly(
                    polys@,
                    qs[k].0@,
                ),
            forall|k: int| 0 <= k < qs.len() ==> spec_query_clean(*pk, polys@, #[trigger] qs[k]),
            z.wf(),
            ch.wf(),
            empty_poly@ == Seq::<int>::empty(),
            empty_poly.wf(),
            acc_p.wf(),
            acc_b.wf(),
            acc_p@.len() <= pk.max_degree + 1,
            acc_b@.len() <= pk.max_degree + 1,
            base == spec_fold_open_base(
                polys@,
                rands@,
                qs,
                z@,
                ch@,
                0,
                Seq::<int>::empty(),
                Seq::<int>::empty(),
            ),
            spec_fold_open_shift(*pk, polys@, rands@, qs, z@, ch@, base.2, base.0, base.1)
                == spec_fold_open_shift(
                *pk,
                polys@,
                rands@,
                qs.skip(m as int),
                z@,
                ch@,
                t as nat,
                acc_p@,
                acc_b@,
            ),
        decreases qs.len() - m,
    {
        proof {
            assert(qs.skip(m as int)[0] == qs[m as int]);
            assert(qs.skip(m as int).skip(1) =~= qs.skip(m + 1));
        }
        let e = &query_set.entries[m];
        let pi = pidx[m];
        proof {
            lemma_find_poly(polys@, qs[m as int].0@);
        }
        let p = &polys[pi];
        let is_match: bool = match p.degree_bound() {
            Some(_) => crate::scalar::scalar_eq(&e.1.1, z),
            None => false,
        };
        if is_match {
            let b: usize = match p.degree_bound() {
                Some(b) => b,
                None => 0,
            };
            proof {
                lemma_pow_reduced(ch@, t as nat);
                if pk.degree_bounds is Some {
                    let v = pk.degree_bounds.unwrap();
                    assert(v@.contains(b));
                    let k = choose|k: int| 0 <= k < v@.len() && v@[k] == b;
                    assert(v@[k] <= pk.supported_degree);
                }
            }
            let w = fr_pow(ch, t);
            let shift: usize = pk.max_degree - b;
            let shifted = p.polynomial().shift(shift);
            let sb: &Poly = match &rands[pi].shifted_blind {
                Some(x) => x,
                None => &empty_poly,
            };
            proof {
                assert(sb@ == spec_shifted_blind(rands@[pi as int]));
            }
            acc_p = acc_p.add_scaled(&w, &shifted);
            acc_b = acc_b.add_scaled(&w, sb);
            t = t + 1;
        }
        m = m + 1;
    }
    proof {
        assert(qs.skip(qs.len() as int) =~= Seq::<(String, (String, Scalar))>::empty());
    }
    (acc_p, acc_b)
}

/// Produces the opening proof for a batch of queries: recomputes the
/// commitments, drives the transcript exactly as the verifier will,
/// combines the polynomials queried at each point with the challenge
/// weights, and commits to the quotient of each combination by `X - point`.
pub fn batch_open(
    pk: &UniversalProver,
    polynomials: &Vec<LabeledPolynomial>,
    query_set: &QuerySet,
    rands: &Vec<Randomness>,
    sponge: &mut Sponge,
) -> (r: Result<BatchProof, PCError>)
    requires
        pk.wf(),
        forall|i: int| 0 <= i < polynomials@.len() ==> (#[trigger] polynomials@[i]).wf(),
        query_set.wf(),
        rands_ok(*pk, rands@),
        rands@.len() == polynomials@.len(),
        query_set.entries@.len() * 2 <= usize::MAX,
        old(sponge).wf(),
    ensures
        final(sponge).wf(),
        match r {
            Err(e) => spec_open_err(*pk, polynomials@, query_set.entries@) == Some(e),
            Ok(proof) => {
                let claims = spec_open_claims(*pk, polynomials@, rands@, query_set.entries@);
                let s_abs = spec_absorb_claims(old(sponge).state@, claims);
                let pts = spec_distinct(claims, Seq::empty());
                &&& spec_open_err(*pk, polynomials@, query_set.entries@) is None
                &&& proof.wf()
                &&& proof.witnesses@.len() == pts.len()
                &&& forall|j: int|
                    0 <= j < pts.len() ==> (#[trigger] proof.witnesses@[j])@ == spec_open_witness(
                        *pk,
                        polynomials@,
                        rands@,
                        query_set.entries@,
                        s_abs,
                        j,
                        pts[j],
                    )
                &&& proof.random_v@ == spec_fold_rv(
                    *pk,
                    polynomials@,
                    rands@,
                    query_set.entries@,
                    pts,
                    s_abs,
                    spec_chal(spec_squeeze_n(s_abs, pts.len()), 0),
                    0,
                    0,
                )
                &&& final(sponge).state@ == spec_squeeze(spec_squeeze_n(s_abs, pts.len()))
            },
        },
{
    let ghost qs = query_set.entries@;
    let empty_poly = Poly::zero();
    let mut claims: Vec<Claim> = Vec::new();
    let mut pidx: Vec<usize> = Vec::new();
    let mut q: usize = 0;
    while q < query_set.entries.len()
        invariant
            q <= qs.len(),
            qs == query_set.entries@,
            *sponge == *old(sponge),
            old(sponge).wf(),
            qs.len() * 2 <= usize::MAX,
            pk.wf(),
            forall|i: int| 0 <= i < polynomials@.len() ==> (#[trigger] polynomials@[i]).wf(),
            query_set.wf(),
            rands_ok(*pk, rands@),
            rands@.len() == polynomials@.len(),
            empty_poly@ == Seq::<int>::empty(),
            empty_poly.wf(),
            claims@.len() == q,
            pidx@.len() == q,
            claims_wf(claims@),
            forall|j: int|
                0 <= j < q ==> (#[trigger] pidx@[j]) as int == spec_find_poly(
                    polynomials@,
                    qs[j].0@,
                ),
            forall|j: int| 0 <= j < q ==> spec_query_clean(*pk, polynomials@, #[trigger] qs[j]),
            forall|j: int|
                0 <= j < q ==> (#[trigger] claims@[j])@ == spec_open_claim(
                    *pk,
                    polynomials@,
                    rands@,
                    qs[j],
                ),
        decreases qs.len() - q,
    {
        let label: &String = &query_set.entries[q].0;
        let point: &Scalar = &query_set.entries[q].1.1;
        let pi: usize = match find_poly(polynomials, label) {
            Some(i) => i,
            None => {
                proof {
                    lemma_open_err_skip(*pk, polynomials@, qs, q as int);
                    assert(qs.skip(q as int)[0] == qs[q as int]);
                }
                return Err(PCError::MissingPolynomial);
            },
        };
        proof {
            lemma_find_poly(polynomials@, label@);
        }
        let p = &polynomials[pi];
        if p.polynomial().coeffs.len() > pk.supported_degree + 1 {
            proof {
                lemma_open_err_skip(*pk, polynomials@, qs, q as int);
                assert(qs.skip(q as int)[0] == qs[q as int]);
            }
            return Err(PCError::DegreeTooLarge);
        }
        if let Some(b) = p.degree_bound() {
            let listed: bool = match &pk.degree_bounds {
                Some(v) => contains_usize(v, b),
                None => false,
            };
            if !listed {
                proof {
                    lemma_open_err_skip(*pk, polynomials@, qs, q as int);
                    assert(qs.skip(q as int)[0] == qs[q as int]);
                }
                return Err(PCError::UnsupportedDegreeBound);
            }
            if p.polynomial().coeffs.len() >= 1 && p.polynomial().coeffs.len() - 1 > b {
                proof {
                    lemma_open_err_skip(*pk, polynomials@, qs, q as int);
                    assert(qs.skip(q as int)[0] == qs[q as int]);
                }
                return Err(PCError::DegreeTooLarge);
            }
        }
        let comm = commit_one(
            &pk.powers_of_beta_g,
            &pk.powers_of_gamma_g,
            p.polynomial(),
            &rands[pi].blind,
        );
        let shifted: Option<G1El> = match p.degree_bound() {
            Some(b) => {
                proof {
                    if pk.degree_bounds is Some {
                        let v = pk.degree_bounds.unwrap();
                        assert(v@.contains(b));
                        let k = choose|k: int| 0 <= k < v@.len() && v@[k] == b;
                        assert(v@[k] <= pk.supported_degree);
                    }
                }
                let shift: usize = pk.max_degree - b;
                let shifted_poly = p.polynomial().shift(shift);
                let sb: &Poly = match &rands[pi].shifted_blind {
                    Some(x) => x,
                    None => &empty_poly,
                };
                proof {
                    assert(sb@ == spec_shifted_blind(rands@[pi as int]));
                }
                Some(commit_one(&pk.powers_of_beta_g, &pk.powers_of_gamma_g, &shifted_poly, sb))
            },
            None => None,
        };
        let value = p.evaluate(point);
        let claim = Claim {
            comm,
            shifted,
            point: point.clone(),
            value,
            bound: p.degree_bound(),
        };
        claims.push(claim);
        pidx.push(pi);
        proof {
            assert(claims@[q as int]@ == spec_open_claim(*pk, polynomials@, rands@, qs[q as int]));
        }
        q = q + 1;
    }
    proof {
        lemma_open_err_skip(*pk, polynomials@, qs, qs.len() as int);
        assert(qs.skip(qs.len() as int) =~= Seq::<(String, (String, Scalar))>::empty());
        assert(claim_views(claims@) =~= spec_open_claims(*pk, polynomials@, rands@, qs));
    }
    let ghost s0: int = sponge.state@;
    absorb_claims(sponge, &claims);
    let ghost s_abs: int = sponge.state@;
    let pts = distinct_points(&claims);
    let chs = squeeze_challenges(sponge, pts.len());
    let rch = sponge.squeeze();
    proof {
        let s_after = spec_squeeze_n(s_abs, pts@.len() as nat);
        assert(spec_squeeze_n(s_after, 0) == s_after);
        assert(spec_chal(s_after, 0) == spec_squeeze(spec_squeeze_n(s_after, 0)));
    }

    let mut witnesses: Vec<G1El> = Vec::new();
    let mut rv = scalar_zero();
    let mut j: usize = 0;
    while j < pts.len()
        invariant
            j <= pts@.len(),
            qs == query_set.entries@,
            pk.wf(),
            forall|i: int| 0 <= i < polynomials@.len() ==> (#[trigger] polynomials@[i]).wf(),
            query_set.wf(),
            rands_ok(*pk, rands@),
            rands@.len() == polynomials@.len(),
            qs.len() * 2 <= usize::MAX,
            pidx@.len() == qs.len(),
            forall|k: int|
                0 <= k < qs.len() ==> (#[trigger] pidx@[k]) as int == spec_find_poly(
                    polynomials@,
                    qs[k].0@,
                ),
            forall|k: int| 0 <= k < qs.len() ==> spec_query_clean(*pk, polynomials@, #[trigger] qs[k]),
            forall|k: int| 0 <= k < pts@.len() ==> (#[trigger] pts@[k]).wf(),
            chs@.len() == pts@.len(),
            forall|k: int| 0 <= k < chs@.len() ==> (#[trigger] chs@[k]).wf(),
            forall|k: int| 0 <= k < chs@.len() ==> (#[trigger] chs@[k])@ == spec_chal(s_abs, k),
            rch.wf(),
            rch@ == spec_chal(spec_squeeze_n(s_abs, pts@.len() as nat), 0),
            rv.wf(),
            witnesses@.len() == j,
            g1s_wf(witnesses@),
            forall|k: int|
                0 <= k < j ==> (#[trigger] witnesses@[k])@ == spec_open_witness(
                    *pk,
                    polynomials@,
                    rands@,
                    qs,
                    s_abs,
                    k,
                    vals(pts@)[k],
                ),
            spec_fold_rv(
                *pk,
                polynomials@,
                rands@,
                qs,
                vals(pts@),
                s_abs,
                rch@,
                0,
                0,
            ) == spec_fold_rv(
                *pk,
                polynomials@,
                rands@,
                qs,
                vals(pts@),
                s_abs,
                rch@,
                j as nat,
                rv@,
            ),
        decreases pts@.len() - j,
    {
        proof {
            assert(vals(pts@)[j as int] == pts@[j as int]@);
        }
        let comb = open_combination(pk, polynomials, rands, query_set, &pidx, &pts[j], &chs[j]);
        let (qpoly, _rem) = comb.0.divide_by_linear(&pts[j]);
        let (bq, brem) = comb.1.divide_by_linear(&pts[j]);
        let w = commit_one(&pk.powers_of_beta_g, &pk.powers_of_gamma_g, &qpoly, &bq);
        witnesses.push(w);
        let rpow = fr_pow(&rch, j);
        proof {
            lemma_pow_reduced(rch@, j as nat);
        }
        let prod = fr_mul(&rpow, &brem);
        proof {
            lemma_small_mod(rv@ as nat, fr_order() as nat);
            lemma_add_mod_noop(rv@, rpow@ * brem@, fr_order());
        }
        rv = fr_add(&rv, &prod);
        j = j + 1;
    }
    Ok(BatchProof { witnesses, random_v: rv })
}

/// Matching label lists resolve to the same first index.
proof fn lemma_find_agree(
    comms: Seq<LabeledCommitment>,
    polys: Seq<LabeledPolynomial>,
    label: Seq<char>,
)
    requires
        comms.len() == polys.len(),
        forall|i: int|
            0 <= i < comms.len() ==> (#[trigger] comms[i]).spec_label() == polys[i].spec_label(),
    ensures
        spec_find_label(comms, label) == spec_find_poly(polys, label),
    decreases comms.len(),
{
    if comms.len() > 0 {
        assert(comms.skip(1).len() == polys.skip(1).len());
        assert forall|i: int| 0 <= i < comms.skip(1).len() implies (#[trigger] comms.skip(1)[
        i]).spec_label() == polys.skip(1)[i].spec_label() by {
            assert(comms.skip(1)[i] == comms[i + 1]);
            assert(polys.skip(1)[i] == polys[i + 1]);
        }
        lemma_find_agree(comms.skip(1), polys.skip(1), label);
    }
}

/// The Fiat-Shamir anchor: when the commitments are exactly those the
/// polynomials and blindings commit to, and the claimed values are exactly
/// the polynomials' evaluations, the verifier resolves the query set to the
/// same claim sequence as the prover — so both drive the sponge through the
/// same absorptions and squeeze the same challenges.
pub proof fn lemma_transcript_agreement(
    pk: UniversalProver,
    polys: Seq<LabeledPolynomial>,
    rands: Seq<Randomness>,
    comms: Seq<LabeledCommitment>,
    evals: Seq<((String, Scalar), Scalar)>,
    qs: Seq<(String, (String, Scalar))>,
)
    requires
        comms.len() == polys.len(),
        rands.len() == polys.len(),
        forall|i: int|
            0 <= i < comms.len() ==> (#[trigger] comms[i]).spec_label() == polys[i].spec_label(),
        forall|i: int|
            0 <= i < comms.len() ==> (#[trigger] comms[i]).spec_degree_bound() == polys[
                i
            ].spec_degree_bound(),
        forall|i: int|
            0 <= i < comms.len() ==> (#[trigger] comms[i]).spec_commitment().comm@ == spec_commit(
                g1s(pk.powers_of_beta_g@),
                g1s(pk.powers_of_gamma_g@),
                polys[i].spec_poly(),
                rands[i].blind@,
            ),
        forall|i: int|
            0 <= i < comms.len() ==> ((#[trigger] comms[i]).spec_commitment().shifted_comm is Some
                <==> polys[i].spec_degree_bound() is Some),
        forall|i: int|
            0 <= i < comms.len() ==> ((#[trigger] polys[i]).spec_degree_bound() is Some ==> comms[
                i
            ].spec_commitment().shifted_comm.unwrap()@ == spec_commit(
                g1s(pk.powers_of_beta_g@),
                g1s(pk.powers_of_gamma_g@),
                spec_shift(
                    polys[i].spec_poly(),
                    (pk.max_degree - polys[i].spec_degree_bound().unwrap()) as nat,
                ),
                spec_shifted_blind(rands[i]),
            )),
        forall|q: int|
            0 <= q < qs.len() ==> spec_find_poly(polys, (#[trigger] qs[q]).0@) != -1,
        forall|q: int|
            0 <= q < qs.len() ==> spec_lookup_eval(evals, (#[trigger] qs[q]).0@, qs[q].1.1@)
                == Some(
                spec_eval(polys[spec_find_poly(polys, qs[q].0@)].spec_poly(), qs[q].1.1@),
            ),
    ensures
        spec_claims_of(comms, evals, qs) == spec_open_claims(pk, polys, rands, qs),
{
    assert forall|q: int| 0 <= q < qs.len() implies spec_claims_of(comms, evals, qs)[q]
        == spec_open_claims(pk, polys, rands, qs)[q] by {
        lemma_find_agree(comms, polys, qs[q].0@);
        lemma_find_poly(polys, qs[q].0@);
    }
    assert(spec_claims_of(comms, evals, qs) =~= spec_open_claims(pk, polys, rands, qs));
}

/// Over honest claims, folding base units combines the claimed values
/// exactly as evaluating the combined polynomial does.
proof fn lemma_fold_base_agree(
    pk: UniversalProver,
    polys: Seq<LabeledPolynomial>,
    rands: Seq<Randomness>,
    qs: Seq<(String, (String, Scalar))>,
    claims: Seq<ClaimView>,
    z: int,
    ch: int,
    t: nat,
    acc_c: Seq<u8>,
    acc_v: int,
    acc_p: Seq<int>,
    acc_b: Seq<int>,
)
    requires
        claims.len() == qs.len(),
        forall|q: int|
            0 <= q < qs.len() ==> claims[q] == spec_open_claim(pk, polys, rands, #[trigger] qs[q]),
        acc_v == spec_eval(acc_p, z),
    ensures
        spec_fold_base(claims, z, ch, t, acc_c, acc_v).1 == spec_eval(
            spec_fold_open_base(polys, rands, qs, z, ch, t, acc_p, acc_b).0,
            z,
        ),
        spec_fold_base(claims, z, ch, t, acc_c, acc_v).2 == spec_fold_open_base(
            polys,
            rands,
            qs,
            z,
            ch,
            t,
            acc_p,
            acc_b,
        ).2,
    decreases qs.len(),
{
    if qs.len() > 0 {
        assert(claims[0] == spec_open_claim(pk, polys, rands, qs[0]));
        assert forall|q: int| 0 <= q < qs.skip(1).len() implies claims.skip(1)[q]
            == spec_open_claim(pk, polys, rands, #[trigger] qs.skip(1)[q]) by {
            assert(claims.skip(1)[q] == claims[q + 1]);
            assert(qs.skip(1)[q] == qs[q + 1]);
        }
        if claims[0].point == z {
            let pi = spec_find_poly(polys, qs[0].0@);
            let w = pow_mod(ch, t);
            let acc_p2 = spec_add_scaled(acc_p, w, polys[pi].spec_poly());
            crate::poly::lemma_eval_add_scaled(acc_p, w, polys[pi].spec_poly(), z);
            assert(claims[0].value == spec_eval(polys[pi].spec_poly(), z));
            lemma_fold_base_agree(
                pk,
                polys,
                rands,
                qs.skip(1),
                claims.skip(1),
                z,
                ch,
                t + 1,
                g1_add_of(acc_c, g1_mul_of(claims[0].comm, w)),
                (acc_v + w * claims[0].value) % fr_order(),
                acc_p2,
                spec_add_scaled(acc_b, w, rands[pi].blind@),
            );
        } else {
            lemma_fold_base_agree(
                pk,
                polys,
                rands,
                qs.skip(1),
                claims.skip(1),
                z,
                ch,
                t,
                acc_c,
                acc_v,
                acc_p,
                acc_b,
            );
        }
    }
}

/// Over honest claims from resolvable queries, folding degree-bound units
/// combines the scaled claimed values exactly as evaluating the combined
/// shifted polynomial does.
proof fn lemma_fold_shift_agree(
    pk: UniversalProver,
    polys: Seq<LabeledPolynomial>,
    rands: Seq<Randomness>,
    qs: Seq<(String, (String, Scalar))>,
    claims: Seq<ClaimView>,
    z: int,
    ch: int,
    t: nat,
    acc_c: Seq<u8>,
    acc_v: int,
    acc_p: Seq<int>,
    acc_b: Seq<int>,
)
    requires
        claims.len() == qs.len(),
        forall|q: int|
            0 <= q < qs.len() ==> claims[q] == spec_open_claim(pk, polys, rands, #[trigger] qs[q]),
        forall|q: int| 0 <= q < qs.len() ==> spec_find_poly(polys, (#[trigger] qs[q]).0@) != -1,
        acc_v == spec_eval(acc_p, z),
    ensures
        spec_fold_shift(claims, z, ch, pk.max_degree as int, t, acc_c, acc_v).1 == spec_eval(
            spec_fold_open_shift(pk, polys, rands, qs, z, ch, t, acc_p, acc_b).0,
            z,
        ),
    decreases qs.len(),
{
    if qs.len() > 0 {
        assert(claims[0] == spec_open_claim(pk, polys, rands, qs[0]));
        assert forall|q: int| 0 <= q < qs.skip(1).len() implies claims.skip(1)[q]
            == spec_open_claim(pk, polys, rands, #[trigger] qs.skip(1)[q]) && spec_find_poly(
            polys,
            qs.skip(1)[q].0@,
        ) != -1 by {
            assert(claims.skip(1)[q] == claims[q + 1]);
            assert(qs.skip(1)[q] == qs[q + 1]);
        }
        let pi = spec_find_poly(polys, qs[0].0@);
        lemma_find_poly(polys, qs[0].0@);
        assert(0 <= pi < polys.len());
        assert(claims[0].bound is Some <==> polys[pi].spec_degree_bound() is Some);
        if claims[0].point == z && claims[0].bound is Some {
            let b = polys[pi].spec_degree_bound().unwrap();
            assert(claims[0].bound.unwrap() == b as int);
            let w = pow_mod(ch, t);
            let k = (pk.max_degree - b) as nat;
            let shifted = spec_shift(polys[pi].spec_poly(), k);
            crate::poly::lemma_eval_add_scaled(acc_p, w, shifted, z);
            crate::poly::lemma_eval_shift(polys[pi].spec_poly(), k, z);
            assert(claims[0].value == spec_eval(polys[pi].spec_poly(), z));
            assert(spec_eval(shifted, z) == (pow_mod(z, k) * claims[0].value) % fr_order());
            lemma_fold_shift_agree(
                pk,
                polys,
                rands,
                qs.skip(1),
                claims.skip(1),
                z,
                ch,
                t + 1,
                g1_add_of(acc_c, g1_mul_of(claims[0].shifted_bytes(), w)),
                (acc_v + w * ((pow_mod(z, k) * claims[0].value) % fr_order())) % fr_order(),
                spec_add_scaled(acc_p, w, shifted),
                spec_add_scaled(acc_b, w, spec_shifted_blind(rands[pi])),
            );
        } else {
            lemma_fold_shift_agree(
                pk,
                polys,
                rands,
                qs.skip(1),
                claims.skip(1),
                z,
                ch,
                t,
                acc_c,
                acc_v,
                acc_p,
                acc_b,
            );
        }
    }
}

/// The batching anchor of completeness: over honest claims — the values the
/// prover's own polynomials evaluate to — the combined claimed value the
/// verifier reconstructs for a point equals the prover's combined polynomial
/// evaluated there, degree-bound units included.
pub proof fn lemma_combined_value_agreement(
    pk: UniversalProver,
    polys: Seq<LabeledPolynomial>,
    rands: Seq<Randomness>,
    qs: Seq<(String, (String, Scalar))>,
    z: int,
    ch: int,
)
    requires
        forall|q: int| 0 <= q < qs.len() ==> spec_find_poly(polys, (#[trigger] qs[q]).0@) != -1,
    ensures
        spec_point_combination(
            spec_open_claims(pk, polys, rands, qs),
            z,
            ch,
            pk.max_degree as int,
        ).1 == spec_eval(spec_open_combined(pk, polys, rands, qs, z, ch).0, z),
{
    let claims = spec_open_claims(pk, polys, rands, qs);
    assert(spec_eval(Seq::<int>::empty(), z) == 0);
    lemma_fold_base_agree(
        pk,
        polys,
        rands,
        qs,
        claims,
        z,
        ch,
        0,
        g1_zero_bytes(),
        0,
        Seq::<int>::empty(),
        Seq::<int>::empty(),
    );
    let cb = spec_fold_base(claims, z, ch, 0, g1_zero_bytes(), 0);
    let ob = spec_fold_open_base(
        polys,
        rands,
        qs,
        z,
        ch,
        0,
        Seq::<int>::empty(),
        Seq::<int>::empty(),
    );
    lemma_fold_shift_agree(pk, polys, rands, qs, claims, z, ch, cb.2, cb.0, cb.1, ob.0, ob.1);
}

/// Whether a size is a power of two.
pub fn is_pow2_exec(n: usize) -> (r: bool)
    ensures
        r == is_pow2(n as nat),
{
    if n == 0 {
        return false;
    }
    let mut m: usize = n;
    while m > 1
        invariant
            m >= 1,
            is_pow2(n as nat) == is_pow2(m as nat),
        decreases m,
    {
        if m % 2 != 0 {
            return false;
        }
        m = m / 2;
    }
    true
}

} // verus!

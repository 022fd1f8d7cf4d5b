//! The data model of the commitment scheme: labeled polynomials, degree
//! information, commitments, randomness, query sets, claimed evaluations and
//! linear combinations, together with the scheme's error type.

use vstd::prelude::*;

use crate::group::G1El;
use crate::poly::{Poly, spec_eval};
use crate::scalar::Scalar;

verus! {

/// The errors the scheme can report.
#[derive(Clone, Copy, Debug, PartialEq, Eq, Structural)]
pub enum PCError {
    /// A polynomial, degree bound or hiding bound exceeds what the reference
    /// string supports.
    DegreeTooLarge,
    /// A degree bound is not among those the key supports.
    UnsupportedDegreeBound,
    /// A Lagrange domain size is not among those the key supports.
    UnsupportedLagrangeSize,
    /// A query or combination references a label that was not supplied.
    MissingPolynomial,
    /// A queried (label, point) pair has no claimed evaluation.
    MissingEvaluation,
    /// A linear combination is empty, or mixes a degree-bounded term with
    /// other terms.
    InvalidLinearCombination,
    /// Hiding was requested but no randomness source was supplied.
    MissingRng,
}

/// What a specific use needs from the reference string.
pub struct DegreeInfo {
    /// The largest committable degree.
    pub max_degree: usize,
    /// The largest supported FFT size.
    pub max_fft_size: usize,
    /// The degree bounds that commitments may declare, if any.
    pub degree_bounds: Option<Vec<usize>>,
    /// The degree of blinding polynomials; zero disables hiding.
    pub hiding_bound: usize,
    /// The Lagrange domain sizes supported for direct commitment, if any.
    pub lagrange_sizes: Option<Vec<usize>>,
}

/// A named polynomial with an optional degree bound and hiding bound.
pub struct LabeledPolynomial {
    pub label: String,
    pub polynomial: Poly,
    pub degree_bound: Option<usize>,
    pub hiding_bound: Option<usize>,
}

impl Clone for LabeledPolynomial {
    fn clone(&self) -> (r: Self)
        ensures
            r.spec_label() == self.spec_label(),
            r.spec_poly() == self.spec_poly(),
            r.spec_degree_bound() == self.spec_degree_bound(),
            r.spec_hiding_bound() == self.spec_hiding_bound(),
            self.wf() ==> r.wf(),
    {
        LabeledPolynomial {
            label: self.label.clone(),
            polynomial: self.polynomial.clone(),
            degree_bound: self.degree_bound,
            hiding_bound: self.hiding_bound,
        }
    }
}

impl LabeledPolynomial {
    pub open spec fn wf(&self) -> bool {
        self.polynomial.wf()
    }

    pub open spec fn spec_label(&self) -> Seq<char> {
        self.label@
    }

    pub open spec fn spec_poly(&self) -> Seq<int> {
        self.polynomial@
    }

    pub open spec fn spec_degree_bound(&self) -> Option<usize> {
        self.degree_bound
    }

    pub open spec fn spec_hiding_bound(&self) -> Option<usize> {
        self.hiding_bound
    }

    pub fn new(
        label: String,
        polynomial: Poly,
        degree_bound: Option<usize>,
        hiding_bound: Option<usize>,
    ) -> (r: LabeledPolynomial)
        requires
            polynomial.wf(),
        ensures
            r.wf(),
            r.spec_label() == label@,
            r.spec_poly() == polynomial@,
            r.spec_degree_bound() == degree_bound,
            r.spec_hiding_bound() == hiding_bound,
    {
        LabeledPolynomial { label, polynomial, degree_bound, hiding_bound }
    }

    pub fn label(&self) -> (r: &String)
        ensures
            r@ == self.spec_label(),
    {
        &self.label
    }

    pub fn polynomial(&self) -> (r: &Poly)
        ensures
            r@ == self.spec_poly(),
            self.wf() ==> r.wf(),
    {
        &self.polynomial
    }

    pub fn degree(&self) -> (r: usize)
        ensures
            r == if self.spec_poly().len() == 0 {
                0int
            } else {
                self.spec_poly().len() - 1
            },
    {
        self.polynomial.degree()
    }

    pub fn degree_bound(&self) -> (r: Option<usize>)
        ensures
            r == self.spec_degree_bound(),
    {
        self.degree_bound
    }

    pub fn hiding_bound(&self) -> (r: Option<usize>)
        ensures
            r == self.spec_hiding_bound(),
    {
        self.hiding_bound
    }

    pub fn evaluate(&self, point: &Scalar) -> (r: Scalar)
        requires
            self.wf(),
            point.wf(),
        ensures
            r.wf(),
            r@ == spec_eval(self.spec_poly(), point@),
    {
        self.polynomial.evaluate(point)
    }
}

/// A polynomial handed to the committer either by coefficients or by its
/// values over a power-of-two domain.
pub enum LabeledPolynomialWithBasis {
    /// Coefficient form, with the labeled polynomial's bounds.
    Monomial(LabeledPolynomial),
    /// Lagrange form: values over a domain whose size is the vector's length.
    Lagrange { label: String, evaluations: Vec<Scalar>, hiding_bound: Option<usize> },
}

impl LabeledPolynomialWithBasis {
    pub open spec fn wf(&self) -> bool {
        match self {
            LabeledPolynomialWithBasis::Monomial(p) => p.wf(),
            LabeledPolynomialWithBasis::Lagrange { evaluations, .. } => forall|i: int|
                0 <= i < evaluations@.len() ==> (#[trigger] evaluations@[i]).wf(),
        }
    }

    pub open spec fn spec_label(&self) -> Seq<char> {
        match self {
            LabeledPolynomialWithBasis::Monomial(p) => p.spec_label(),
            LabeledPolynomialWithBasis::Lagrange { label, .. } => label@,
        }
    }

    /// Wraps a coefficient-form labeled polynomial.
    pub fn from_monomial(p: LabeledPolynomial) -> (r: LabeledPolynomialWithBasis)
        requires
            p.wf(),
        ensures
            r.wf(),
            r == LabeledPolynomialWithBasis::Monomial(p),
    {
        LabeledPolynomialWithBasis::Monomial(p)
    }

    /// Wraps a vector of evaluations over the domain of matching size.
    pub fn new_lagrange_basis(
        label: String,
        evaluations: Vec<Scalar>,
        hiding_bound: Option<usize>,
    ) -> (r: LabeledPolynomialWithBasis)
        requires
            forall|i: int| 0 <= i < evaluations@.len() ==> (#[trigger] evaluations@[i]).wf(),
        ensures
            r.wf(),
            r == (LabeledPolynomialWithBasis::Lagrange { label, evaluations, hiding_bound }),
    {
        LabeledPolynomialWithBasis::Lagrange { label, evaluations, hiding_bound }
    }
}

/// A commitment: a base group element, and a second one when a degree bound
/// is declared.
pub struct Commitment {
    pub comm: G1El,
    pub shifted_comm: Option<G1El>,
}

impl Commitment {
    pub open spec fn wf(&self) -> bool {
        self.comm.wf() && match self.shifted_comm {
            Some(s) => s.wf(),
            None => true,
        }
    }
}

impl Clone for Commitment {
    fn clone(&self) -> (r: Self)
        ensures
            r.comm@ == self.comm@,
            r.shifted_comm.is_some() == self.shifted_comm.is_some(),
            r.shifted_comm.is_some() ==> r.shifted_comm.unwrap()@
                == self.shifted_comm.unwrap()@,
            self.wf() ==> r.wf(),
    {
        let shifted: Option<G1El> = match &self.shifted_comm {
            Some(s) => Some(s.clone()),
            None => None,
        };
        Commitment { comm: self.comm.clone(), shifted_comm: shifted }
    }
}

/// The canonical encoding of a commitment: a presence flag for the shifted
/// part, the base element, and the shifted element if present.
pub open spec fn spec_commitment_bytes(comm: Seq<u8>, shifted: Option<Seq<u8>>) -> Seq<u8> {
    match shifted {
        None => seq![0u8] + comm,
        Some(s) => seq![1u8] + comm + s,
    }
}

/// Appends the bytes of a group element to a buffer.
fn push_g1_bytes(out: &mut Vec<u8>, g: &G1El)
    ensures
        final(out)@ == old(out)@ + g@,
{
    let ghost orig = out@;
    let mut i: usize = 0;
    while i < g.b.len()
        invariant
            i <= g.b@.len(),
            out@ == orig + g.b@.take(i as int),
        decreases g.b@.len() - i,
    {
        out.push(g.b[i]);
        proof {
            assert(orig + g.b@.take(i + 1) =~= (orig + g.b@.take(i as int)).push(g.b@[i as int]));
        }
        i = i + 1;
    }
    proof {
        assert(g.b@.take(g.b@.len() as int) =~= g.b@);
    }
}

/// Reads a group element out of a buffer.
fn read_g1_bytes(v: &Vec<u8>, start: usize, len: usize) -> (r: G1El)
    requires
        start + len <= v@.len(),
    ensures
        r@ == v@.subrange(start as int, start + len),
{
    let total: usize = v.len();
    let mut b: Vec<u8> = Vec::new();
    let mut i: usize = 0;
    while i < len
        invariant
            i <= len,
            total == v@.len(),
            start + len <= total,
            b@ == v@.subrange(start as int, start + i),
        decreases len - i,
    {
        b.push(v[start + i]);
        proof {
            assert(v@.subrange(start as int, start + i + 1) =~= v@.subrange(
                start as int,
                start + i,
            ).push(v@[start + i]));
        }
        i = i + 1;
    }
    G1El { b }
}

impl Commitment {
    /// The canonical byte encoding: flag, base element, shifted element.
    pub fn to_bytes(&self) -> (r: Vec<u8>)
        ensures
            r@ == spec_commitment_bytes(
                self.comm@,
                match self.shifted_comm {
                    Some(s) => Some(s@),
                    None => None,
                },
            ),
    {
        let mut out: Vec<u8> = Vec::new();
        match &self.shifted_comm {
            Some(s) => {
                out.push(1);
                proof {
                    assert(out@ =~= seq![1u8]);
                }
                push_g1_bytes(&mut out, &self.comm);
                push_g1_bytes(&mut out, s);
            },
            None => {
                out.push(0);
                proof {
                    assert(out@ =~= seq![0u8]);
                }
                push_g1_bytes(&mut out, &self.comm);
            },
        }
        out
    }

    /// Decodes the canonical encoding; `None` exactly when the length or the
    /// flag does not fit either shape.
    pub fn from_bytes(v: &Vec<u8>) -> (r: Option<Commitment>)
        ensures
            r is Some <==> ((v@.len() == 98 && v@[0] == 0) || (v@.len() == 195 && v@[0] == 1)),
            r is Some ==> r.unwrap().wf() && spec_commitment_bytes(
                r.unwrap().comm@,
                match r.unwrap().shifted_comm {
                    Some(s) => Some(s@),
                    None => None,
                },
            ) == v@,
    {
        if v.len() == 98 && v[0] == 0 {
            let comm = read_g1_bytes(v, 1, 97);
            proof {
                assert(seq![0u8] + v@.subrange(1, 98) =~= v@);
            }
            Some(Commitment { comm, shifted_comm: None })
        } else if v.len() == 195 && v[0] == 1 {
            let comm = read_g1_bytes(v, 1, 97);
            let shifted = read_g1_bytes(v, 98, 97);
            proof {
                assert(seq![1u8] + v@.subrange(1, 98) + v@.subrange(98, 195) =~= v@);
            }
            Some(Commitment { comm, shifted_comm: Some(shifted) })
        } else {
            None
        }
    }
}

/// The canonical commitment encoding pins the commitment: two well-formed
/// commitments with the same bytes have the same parts, so a decoded
/// commitment verifies exactly as the encoded one did.
pub proof fn lemma_commitment_bytes_injective(
    c1: Seq<u8>,
    s1: Option<Seq<u8>>,
    c2: Seq<u8>,
    s2: Option<Seq<u8>>,
)
    requires
        c1.len() == 97,
        c2.len() == 97,
        spec_commitment_bytes(c1, s1) == spec_commitment_bytes(c2, s2),
    ensures
        c1 == c2,
        s1 == s2,
{
    let b1 = spec_commitment_bytes(c1, s1);
    let b2 = spec_commitment_bytes(c2, s2);
    assert(b1[0] == b2[0]);
    match (s1, s2) {
        (None, None) => {
            assert(c1 =~= b1.subrange(1, 98));
            assert(c2 =~= b2.subrange(1, 98));
        },
        (Some(x1), Some(x2)) => {
            assert(c1 =~= b1.subrange(1, 98));
            assert(c2 =~= b2.subrange(1, 98));
            assert(b1.len() == 98 + x1.len());
            assert(b2.len() == 98 + x2.len());
            assert(x1 =~= b1.subrange(98, b1.len() as int));
            assert(x2 =~= b2.subrange(98, b2.len() as int));
        },
        (None, Some(_)) => {
            assert(b1[0] == 0 && b2[0] == 1);
        },
        (Some(_), None) => {
            assert(b1[0] == 1 && b2[0] == 0);
        },
    }
}

/// A commitment under the label of the polynomial it binds.
pub struct LabeledCommitment {
    pub label: String,
    pub commitment: Commitment,
    pub degree_bound: Option<usize>,
}

impl LabeledCommitment {
    pub open spec fn wf(&self) -> bool {
        self.commitment.wf()
    }

    pub open spec fn spec_label(&self) -> Seq<char> {
        self.label@
    }

    pub open spec fn spec_commitment(&self) -> Commitment {
        self.commitment
    }

    pub open spec fn spec_degree_bound(&self) -> Option<usize> {
        self.degree_bound
    }

    pub fn new(label: String, commitment: Commitment, degree_bound: Option<usize>) -> (r:
        LabeledCommitment)
        requires
            commitment.wf(),
        ensures
            r.wf(),
            r.spec_label() == label@,
            r.spec_commitment() == commitment,
            r.spec_degree_bound() == degree_bound,
    {
        LabeledCommitment { label, commitment, degree_bound }
    }

    pub fn label(&self) -> (r: &String)
        ensures
            r@ == self.spec_label(),
    {
        &self.label
    }

    pub fn commitment(&self) -> (r: &Commitment)
        ensures
            r == self.spec_commitment(),
            self.wf() ==> r.wf(),
    {
        &self.commitment
    }

    pub fn degree_bound(&self) -> (r: Option<usize>)
        ensures
            r == self.spec_degree_bound(),
    {
        self.degree_bound
    }
}

/// The blinding material a commitment was produced with.
pub struct Randomness {
    /// The blinding polynomial for the base commitment; empty when hiding was
    /// not requested.
    pub blind: Poly,
    /// The blinding polynomial for the shifted commitment, when a degree
    /// bound is declared.
    pub shifted_blind: Option<Poly>,
}

impl Randomness {
    pub open spec fn wf(&self) -> bool {
        self.blind.wf() && match self.shifted_blind {
            Some(p) => p.wf(),
            None => true,
        }
    }
}

/// The requested evaluations: a set of (label, (query name, point)) entries.
pub struct QuerySet {
    pub entries: Vec<(String, (String, Scalar))>,
}

impl QuerySet {
    pub open spec fn wf(&self) -> bool {
        forall|i: int| 0 <= i < self.entries@.len() ==> (#[trigger] self.entries@[i]).1.1.wf()
    }

    pub fn new() -> (r: QuerySet)
        ensures
            r.wf(),
            r.entries@.len() == 0,
    {
        QuerySet { entries: Vec::new() }
    }

    pub fn insert(&mut self, entry: (String, (String, Scalar)))
        requires
            old(self).wf(),
            entry.1.1.wf(),
        ensures
            final(self).wf(),
            final(self).entries@ == old(self).entries@.push(entry),
    {
        self.entries.push(entry);
    }
}

/// Claimed values: a map from (label, point) to the claimed evaluation.
pub struct Evaluations {
    pub entries: Vec<((String, Scalar), Scalar)>,
}

/// The first claimed value for a (label, point) pair, if any.
pub open spec fn spec_lookup_eval(
    entries: Seq<((String, Scalar), Scalar)>,
    label: Seq<char>,
    point: int,
) -> Option<int>
    decreases entries.len(),
{
    if entries.len() == 0 {
        Option::None
    } else if entries[0].0.0@ == label && entries[0].0.1@ == point {
        Option::Some(entries[0].1@)
    } else {
        spec_lookup_eval(entries.skip(1), label, point)
    }
}

impl Evaluations {
    pub open spec fn wf(&self) -> bool {
        forall|i: int|
            0 <= i < self.entries@.len() ==> (#[trigger] self.entries@[i]).0.1.wf()
                && self.entries@[i].1.wf()
    }

    pub fn new() -> (r: Evaluations)
        ensures
            r.wf(),
            r.entries@.len() == 0,
    {
        Evaluations { entries: Vec::new() }
    }

    pub fn insert(&mut self, key: (String, Scalar), value: Scalar)
        requires
            old(self).wf(),
            key.1.wf(),
            value.wf(),
        ensures
            final(self).wf(),
            final(self).entries@ == old(self).entries@.push((key, value)),
    {
        self.entries.push((key, value));
    }

    /// Looks a claimed value up by label and point.
    pub fn get(&self, label: &String, point: &Scalar) -> (r: Option<Scalar>)
        requires
            self.wf(),
            point.wf(),
        ensures
            match r {
                Some(v) => v.wf() && spec_lookup_eval(self.entries@, label@, point@)
                    == Option::Some(v@),
                None => spec_lookup_eval(self.entries@, label@, point@) is None,
            },
    {
        let mut i: usize = 0;
        proof {
            assert(self.entries@.skip(0) =~= self.entries@);
        }
        while i < self.entries.len()
            invariant
                i <= self.entries@.len(),
                self.wf(),
                point.wf(),
                spec_lookup_eval(self.entries@, label@, point@) == spec_lookup_eval(
                    self.entries@.skip(i as int),
                    label@,
                    point@,
                ),
            decreases self.entries@.len() - i,
        {
            proof {
                assert(self.entries@.skip(i as int)[0] == self.entries@[i as int]);
                assert(self.entries@.skip(i as int).skip(1) =~= self.entries@.skip(i + 1));
            }
            let hit: bool = {
                let e = &self.entries[i];
                if e.0.0.eq(label) {
                    crate::scalar::scalar_eq(&e.0.1, point)
                } else {
                    false
                }
            };
            if hit {
                return Some(self.entries[i].1.clone());
            }
            i = i + 1;
        }
        proof {
            assert(self.entries@.skip(self.entries@.len() as int) =~= Seq::<(
                (String, Scalar),
                Scalar,
            )>::empty());
        }
        None
    }
}

/// A named weighted sum of labeled polynomials.
pub struct LinearCombination {
    pub label: String,
    pub terms: Vec<(Scalar, String)>,
}

impl LinearCombination {
    pub open spec fn wf(&self) -> bool {
        forall|i: int| 0 <= i < self.terms@.len() ==> (#[trigger] self.terms@[i]).0.wf()
    }

    pub open spec fn spec_label(&self) -> Seq<char> {
        self.label@
    }

    pub open spec fn spec_terms(&self) -> Seq<(Scalar, String)> {
        self.terms@
    }

    /// A combination with no terms yet.
    pub fn empty(label: String) -> (r: LinearCombination)
        ensures
            r.wf(),
            r.spec_label() == label@,
            r.spec_terms().len() == 0,
    {
        LinearCombination { label, terms: Vec::new() }
    }

    /// Appends a (coefficient, referenced label) term.
    pub fn add(&mut self, coeff: Scalar, label: String)
        requires
            old(self).wf(),
            coeff.wf(),
        ensures
            final(self).wf(),
            final(self).spec_label() == old(self).spec_label(),
            final(self).spec_terms() == old(self).spec_terms().push((coeff, label)),
    {
        self.terms.push((coeff, label));
    }

    pub fn is_empty(&self) -> (r: bool)
        ensures
            r == (self.spec_terms().len() == 0),
    {
        self.terms.len() == 0
    }

    pub fn label(&self) -> (r: &String)
        ensures
            r@ == self.spec_label(),
    {
        &self.label
    }

    pub fn terms(&self) -> (r: &Vec<(Scalar, String)>)
        ensures
            r@ == self.spec_terms(),
    {
        &self.terms
    }
}

/// Evidence for a batch of opening claims: one witness per distinct query
/// point, and the combined blinding evaluation.
pub struct BatchProof {
    pub witnesses: Vec<G1El>,
    pub random_v: Scalar,
}

impl BatchProof {
    pub open spec fn wf(&self) -> bool {
        self.random_v.wf() && forall|i: int|
            0 <= i < self.witnesses@.len() ==> (#[trigger] self.witnesses@[i]).wf()
    }
}

/// Appends the bytes of a buffer to another.
fn push_bytes(out: &mut Vec<u8>, v: &Vec<u8>)
    ensures
        final(out)@ == old(out)@ + v@,
{
    let ghost orig = out@;
    let mut i: usize = 0;
    while i < v.len()
        invariant
            i <= v@.len(),
            out@ == orig + v@.take(i as int),
        decreases v@.len() - i,
    {
        out.push(v[i]);
        proof {
            assert(orig + v@.take(i + 1) =~= (orig + v@.take(i as int)).push(v@[i as int]));
        }
        i = i + 1;
    }
    proof {
        assert(v@.take(v@.len() as int) =~= v@);
    }
}

/// Reads a byte range out of a buffer.
fn read_bytes(v: &Vec<u8>, start: usize, len: usize) -> (r: Vec<u8>)
    requires
        start + len <= v@.len(),
    ensures
        r@ == v@.subrange(start as int, start + len),
{
    let total: usize = v.len();
    let mut b: Vec<u8> = Vec::new();
    let mut i: usize = 0;
    while i < len
        invariant
            i <= len,
            total == v@.len(),
            start + len <= total,
            b@ == v@.subrange(start as int, start + i),
        decreases len - i,
    {
        b.push(v[start + i]);
        proof {
            assert(v@.subrange(start as int, start + i + 1) =~= v@.subrange(
                start as int,
                start + i,
            ).push(v@[start + i]));
        }
        i = i + 1;
    }
    b
}

impl BatchProof {
    /// The canonical byte encoding: the witness count as eight little-endian
    /// bytes, the witnesses, then the combined blinding evaluation.
    pub fn to_bytes(&self) -> (r: Vec<u8>)
        requires
            self.wf(),
        ensures
            r@.len() == 40 + 97 * self.witnesses@.len(),
            crate::scalar::le_int(r@.subrange(0, 8)) == self.witnesses@.len(),
            forall|j: int|
                0 <= j < self.witnesses@.len() ==> r@.subrange(8 + 97 * j, 8 + 97 * (j + 1)) == (
                #[trigger] self.witnesses@[j])@,
            crate::scalar::le_int(r@.subrange(r@.len() - 32, r@.len() as int))
                == self.random_v@,
    {
        let mut out: Vec<u8> = Vec::new();
        let k: u64 = self.witnesses.len() as u64;
        let mut x: u64 = k;
        let mut i: usize = 0;
        proof {
            assert(crate::scalar::pow256(8) == 0x1_0000_0000_0000_0000) by {
                reveal_with_fuel(crate::scalar::pow256, 9);
            }
        }
        while i < 8
            invariant
                i <= 8,
                out@.len() == i,
                x < crate::scalar::pow256((8 - i) as nat),
                crate::scalar::le_int(out@) + x * crate::scalar::pow256(i as nat) == k as int,
            decreases 8 - i,
        {
            let byte: u8 = (x % 256) as u8;
            proof {
                crate::scalar::lemma_le_int_push(out@, byte);
                crate::scalar::lemma_pow256_pos(i as nat);
                vstd::arithmetic::div_mod::lemma_fundamental_div_mod(x as int, 256);
                assert(crate::scalar::pow256((8 - i) as nat) == 256 * crate::scalar::pow256(
                    (7 - i) as nat,
                ));
                assert((x as int) / 256 < crate::scalar::pow256((7 - i) as nat))
                    by (nonlinear_arith)
                    requires
                        x < 256 * crate::scalar::pow256((7 - i) as nat),
                        crate::scalar::pow256((7 - i) as nat) >= 1,
                ;
                assert(((x as int) % 256 + 256 * ((x as int) / 256)) * crate::scalar::pow256(
                    i as nat,
                ) == ((x as int) % 256) * crate::scalar::pow256(i as nat) + 256 * ((x as int)
                    / 256) * crate::scalar::pow256(i as nat)) by (nonlinear_arith);
                assert(((x as int) / 256) * (256 * crate::scalar::pow256(i as nat)) == 256 * ((
                x as int) / 256) * crate::scalar::pow256(i as nat)) by (nonlinear_arith);
            }
            out.push(byte);
            x = x / 256;
            i = i + 1;
        }
        proof {
            assert(out@.subrange(0, 8) =~= out@);
        }
        let ghost len8 = out@;
        let mut j: usize = 0;
        while j < self.witnesses.len()
            invariant
                j <= self.witnesses@.len(),
                self.wf(),
                out@.len() == 8 + 97 * j,
                out@.subrange(0, 8) == len8,
                crate::scalar::le_int(len8) == self.witnesses@.len(),
                forall|m: int|
                    0 <= m < j ==> out@.subrange(8 + 97 * m, 8 + 97 * (m + 1)) == (
                    #[trigger] self.witnesses@[m])@,
            decreases self.witnesses@.len() - j,
        {
            let ghost before = out@;
            push_bytes(&mut out, &self.witnesses[j].b);
            proof {
                assert(out@.subrange(0, 8) =~= before.subrange(0, 8));
                assert forall|m: int| 0 <= m < j implies out@.subrange(
                    8 + 97 * m,
                    8 + 97 * (m + 1),
                ) == (#[trigger] self.witnesses@[m])@ by {
                    assert(out@.subrange(8 + 97 * m, 8 + 97 * (m + 1)) =~= before.subrange(
                        8 + 97 * m,
                        8 + 97 * (m + 1),
                    ));
                }
                assert(out@.subrange(8 + 97 * j, 8 + 97 * (j + 1)) =~= self.witnesses@[
                j as int].b@);
            }
            j = j + 1;
        }
        let ghost before_rv = out@;
        push_bytes(&mut out, &self.random_v.b);
        proof {
            assert(out@.subrange(0, 8) =~= before_rv.subrange(0, 8));
            assert forall|m: int| 0 <= m < self.witnesses@.len() implies out@.subrange(
                8 + 97 * m,
                8 + 97 * (m + 1),
            ) == (#[trigger] self.witnesses@[m])@ by {
                assert(out@.subrange(8 + 97 * m, 8 + 97 * (m + 1)) =~= before_rv.subrange(
                    8 + 97 * m,
                    8 + 97 * (m + 1),
                ));
            }
            assert(out@.subrange(out@.len() - 32, out@.len() as int) =~= self.random_v.b@);
        }
        out
    }

    /// Decodes the canonical encoding; `None` exactly when the length, the
    /// recorded count, or the blinding evaluation does not fit.
    pub fn from_bytes(v: &Vec<u8>) -> (r: Option<BatchProof>)
        ensures
            r is Some <==> (v@.len() >= 40 && (v@.len() - 40) % 97 == 0 && crate::scalar::le_int(
                v@.subrange(0, 8),
            ) == (v@.len() - 40) / 97 && crate::scalar::le_int(
                v@.subrange(v@.len() - 32, v@.len() as int),
            ) < crate::scalar::fr_order()),
            r is Some ==> {
                let bp = r.unwrap();
                &&& bp.wf()
                &&& bp.witnesses@.len() == (v@.len() - 40) / 97
                &&& forall|j: int|
                    0 <= j < bp.witnesses@.len() ==> (#[trigger] bp.witnesses@[j])@
                        == v@.subrange(8 + 97 * j, 8 + 97 * (j + 1))
                &&& bp.random_v@ == crate::scalar::le_int(
                    v@.subrange(v@.len() - 32, v@.len() as int),
                )
            },
    {
        let n: usize = v.len();
        if n < 40 {
            return None;
        }
        let body: usize = n - 40;
        if body % 97 != 0 {
            return None;
        }
        let k: usize = body / 97;
        proof {
            vstd::arithmetic::div_mod::lemma_fundamental_div_mod(body as int, 97);
        }
        let mut x: u64 = 0;
        let mut i: usize = 8;
        proof {
            assert(v@.subrange(8, 8) =~= Seq::<u8>::empty());
            assert(crate::scalar::pow256(8) == 0x1_0000_0000_0000_0000) by {
                reveal_with_fuel(crate::scalar::pow256, 9);
            }
        }
        while i > 0
            invariant
                i <= 8,
                v@.len() >= 40,
                x as int == crate::scalar::le_int(v@.subrange(i as int, 8)),
                x < crate::scalar::pow256((8 - i) as nat),
                crate::scalar::pow256(8) == 0x1_0000_0000_0000_0000,
            decreases i,
        {
            i = i - 1;
            proof {
                crate::scalar::lemma_pow256_pos((7 - i) as nat);
                crate::scalar::lemma_pow256_mono((8 - i) as nat, 8);
                assert(v@.subrange(i as int, 8).skip(1) =~= v@.subrange(i + 1, 8));
                assert(v@.subrange(i as int, 8)[0] == v@[i as int]);
                assert(crate::scalar::pow256((8 - i) as nat) == 256 * crate::scalar::pow256(
                    (7 - i) as nat,
                ));
                assert((x as int) * 256 + 255 < 256 * crate::scalar::pow256((7 - i) as nat))
                    by (nonlinear_arith)
                    requires
                        (x as int) < crate::scalar::pow256((7 - i) as nat),
                ;
            }
            x = x * 256 + (v[i] as u64);
        }
        if x != (k as u64) {
            return None;
        }
        proof {
            assert(v@.subrange(0, 8) == v@.subrange(0int, 8));
        }
        let rvb = read_bytes(v, n - 32, 32);
        let rv: Scalar = match crate::scalar::fr_from_bytes(&rvb) {
            Some(s) => s,
            None => {
                proof {
                    crate::scalar::lemma_le_int_bounds(rvb@);
                }
                return None;
            },
        };
        let mut wits: Vec<G1El> = Vec::new();
        let mut j: usize = 0;
        while j < k
            invariant
                j <= k,
                v@.len() == 40 + 97 * k,
                40 + 97 * k <= usize::MAX,
                wits@.len() == j,
                forall|m: int|
                    0 <= m < j ==> (#[trigger] wits@[m])@ == v@.subrange(
                        8 + 97 * m,
                        8 + 97 * (m + 1),
                    ) && wits@[m].wf(),
            decreases k - j,
        {
            proof {
                assert(97 * (j + 1) <= 97 * k) by (nonlinear_arith)
                    requires
                        j + 1 <= k,
                ;
            }
            let b = read_bytes(v, 8 + 97 * j, 97);
            wits.push(G1El { b });
            j = j + 1;
        }
        Some(BatchProof { witnesses: wits, random_v: rv })
    }
}

/// Evidence for a batch of linear-combination claims.
pub struct BatchLCProof {
    pub proof: BatchProof,
}

impl BatchLCProof {
    pub open spec fn wf(&self) -> bool {
        self.proof.wf()
    }

    /// The canonical byte encoding: that of the underlying batch proof.
    pub fn to_bytes(&self) -> (r: Vec<u8>)
        requires
            self.wf(),
        ensures
            r@.len() == 40 + 97 * self.proof.witnesses@.len(),
            crate::scalar::le_int(r@.subrange(0, 8)) == self.proof.witnesses@.len(),
            forall|j: int|
                0 <= j < self.proof.witnesses@.len() ==> r@.subrange(8 + 97 * j, 8 + 97 * (j + 1))
                    == (#[trigger] self.proof.witnesses@[j])@,
            crate::scalar::le_int(r@.subrange(r@.len() - 32, r@.len() as int))
                == self.proof.random_v@,
    {
        self.proof.to_bytes()
    }

    /// Decodes the canonical encoding.
    pub fn from_bytes(v: &Vec<u8>) -> (r: Option<BatchLCProof>)
        ensures
            r is Some <==> (v@.len() >= 40 && (v@.len() - 40) % 97 == 0 && crate::scalar::le_int(
                v@.subrange(0, 8),
            ) == (v@.len() - 40) / 97 && crate::scalar::le_int(
                v@.subrange(v@.len() - 32, v@.len() as int),
            ) < crate::scalar::fr_order()),
            r is Some ==> {
                let bp = r.unwrap().proof;
                &&& r.unwrap().wf()
                &&& bp.witnesses@.len() == (v@.len() - 40) / 97
                &&& forall|j: int|
                    0 <= j < bp.witnesses@.len() ==> (#[trigger] bp.witnesses@[j])@
                        == v@.subrange(8 + 97 * j, 8 + 97 * (j + 1))
                &&& bp.random_v@ == crate::scalar::le_int(
                    v@.subrange(v@.len() - 32, v@.len() as int),
                )
            },
    {
        match BatchProof::from_bytes(v) {
            Some(p) => Some(BatchLCProof { proof: p }),
            None => None,
        }
    }
}

} // verus!

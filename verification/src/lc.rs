//! The linear-combination layer: proving and verifying evaluations of named
//! weighted sums of committed polynomials, through commitment homomorphism.
//!
//! The prover forms each virtual polynomial as the coefficient-weighted sum
//! of the referenced polynomials and opens it with the batch protocol; the
//! verifier reconstructs each virtual commitment as the same weighted sum of
//! the referenced commitments and runs the batch check.  A combination that
//! mixes a degree-bounded term with any other term is malformed, as is an
//! empty one.

use vstd::prelude::*;

use crate::data::{
    BatchLCProof, Commitment, Evaluations, LabeledCommitment, LabeledPolynomial,
    LinearCombination, PCError, QuerySet, Randomness,
};
use crate::group::{G1El, g1_add, g1_add_of, g1_mul, g1_mul_of, g1_zero, g1_zero_bytes};
use crate::kzg::{
    batch_check, batch_open, find_poly, g1s, lemma_find_label, lemma_find_poly, rands_ok,
    spec_absorb_claims, spec_chal, spec_check_decision, spec_check_err, spec_claims_of,
    spec_distinct, spec_find_label, spec_find_poly, spec_fold_rv, spec_open_claims, spec_open_err,
    spec_open_witness, spec_shifted_blind, spec_squeeze_n, UniversalProver, UniversalVerifier,
};
use crate::poly::{Poly, spec_add_scaled, spec_eval, vals};
use crate::scalar::{Scalar, fr_order};
use crate::sponge::{Sponge, spec_squeeze};

verus! {

/// The number of terms referencing a degree-bounded polynomial.
pub open spec fn spec_count_bounded(polys: Seq<LabeledPolynomial>, terms: Seq<(Scalar, String)>) -> int
    decreases terms.len(),
{
    if terms.len() == 0 {
        0
    } else {
        let pi = spec_find_poly(polys, terms[0].1@);
        let here: int = if 0 <= pi < polys.len() && polys[pi].spec_degree_bound() is Some {
            1
        } else {
            0
        };
        here + spec_count_bounded(polys, terms.skip(1))
    }
}

/// The first unknown label among a combination's terms, if any.
pub open spec fn spec_terms_missing(
    polys: Seq<LabeledPolynomial>,
    terms: Seq<(Scalar, String)>,
) -> bool
    decreases terms.len(),
{
    if terms.len() == 0 {
        false
    } else if spec_find_poly(polys, terms[0].1@) == -1 {
        true
    } else {
        spec_terms_missing(polys, terms.skip(1))
    }
}

/// The error one combination causes when resolved against the polynomials:
/// empty, referencing an unknown label, or mixing a degree-bounded term with
/// other terms.
pub open spec fn spec_lc_one_err(polys: Seq<LabeledPolynomial>, lc: LinearCombination) -> Option<
    PCError,
> {
    if lc.spec_terms().len() == 0 {
        Some(PCError::InvalidLinearCombination)
    } else if spec_terms_missing(polys, lc.spec_terms()) {
        Some(PCError::MissingPolynomial)
    } else if spec_count_bounded(polys, lc.spec_terms()) >= 1 && lc.spec_terms().len() > 1 {
        Some(PCError::InvalidLinearCombination)
    } else {
        None
    }
}

/// The first combination error, if any.
pub open spec fn spec_lc_err(
    polys: Seq<LabeledPolynomial>,
    lcs: Seq<LinearCombination>,
) -> Option<PCError>
    decreases lcs.len(),
{
    if lcs.len() == 0 {
        None
    } else if spec_lc_one_err(polys, lcs[0]) is Some {
        spec_lc_one_err(polys, lcs[0])
    } else {
        spec_lc_err(polys, lcs.skip(1))
    }
}

/// While earlier combinations are clean, the batch error is decided by the
/// remaining ones.
proof fn lemma_lc_err_skip(polys: Seq<LabeledPolynomial>, lcs: Seq<LinearCombination>, i: int)
    requires
        0 <= i <= lcs.len(),
        forall|j: int| 0 <= j < i ==> spec_lc_one_err(polys, #[trigger] lcs[j]) is None,
    ensures
        spec_lc_err(polys, lcs) == spec_lc_err(polys, lcs.skip(i)),
    decreases i,
{
    if i == 0 {
        assert(lcs.skip(0) =~= lcs);
    } else {
        lemma_lc_err_skip(polys, lcs, i - 1);
        assert(lcs.skip(i - 1).len() > 0);
        assert(lcs.skip(i - 1)[0] == lcs[i - 1]);
        assert(lcs.skip(i - 1).skip(1) =~= lcs.skip(i));
    }
}

/// The coefficients of a combination's virtual polynomial: the weighted sum
/// of the referenced polynomials, folded left to right.
pub open spec fn spec_lc_poly_fold(
    polys: Seq<LabeledPolynomial>,
    terms: Seq<(Scalar, String)>,
    acc: Seq<int>,
) -> Seq<int>
    decreases terms.len(),
{
    if terms.len() == 0 {
        acc
    } else {
        let pi = spec_find_poly(polys, terms[0].1@);
        spec_lc_poly_fold(
            polys,
            terms.skip(1),
            spec_add_scaled(acc, terms[0].0@, polys[pi].spec_poly()),
        )
    }
}

/// The virtual blinding: the same weighted sum over the base blindings.
pub open spec fn spec_lc_blind_fold(
    polys: Seq<LabeledPolynomial>,
    rands: Seq<Randomness>,
    terms: Seq<(Scalar, String)>,
    acc: Seq<int>,
) -> Seq<int>
    decreases terms.len(),
{
    if terms.len() == 0 {
        acc
    } else {
        let pi = spec_find_poly(polys, terms[0].1@);
        spec_lc_blind_fold(
            polys,
            rands,
            terms.skip(1),
            spec_add_scaled(acc, terms[0].0@, rands[pi].blind@),
        )
    }
}

/// The coefficient-weighted sum of the referenced polynomials' values at a
/// point, modulo the field order.
pub open spec fn spec_lc_value(
    polys: Seq<LabeledPolynomial>,
    terms: Seq<(Scalar, String)>,
    x: int,
) -> int
    decreases terms.len(),
{
    if terms.len() == 0 {
        0
    } else {
        let pi = spec_find_poly(polys, terms[0].1@);
        (terms[0].0@ * spec_eval(polys[pi].spec_poly(), x) + spec_lc_value(
            polys,
            terms.skip(1),
            x,
        )) % fr_order()
    }
}

/// Folding terms onto an accumulator adds their weighted values.
proof fn lemma_lc_fold_eval(
    polys: Seq<LabeledPolynomial>,
    terms: Seq<(Scalar, String)>,
    acc: Seq<int>,
    x: int,
)
    ensures
        spec_eval(spec_lc_poly_fold(polys, terms, acc), x) == (spec_eval(acc, x) + spec_lc_value(
            polys,
            terms,
            x,
        )) % fr_order(),
    decreases terms.len(),
{
    let p = fr_order();
    if terms.len() == 0 {
        if acc.len() == 0 {
            assert(spec_eval(acc, x) == 0);
        } else {
            vstd::arithmetic::div_mod::lemma_mod_twice(
                acc[0] + x * spec_eval(acc.skip(1), x),
                p,
            );
        }
    } else {
        let pi = spec_find_poly(polys, terms[0].1@);
        let acc2 = spec_add_scaled(acc, terms[0].0@, polys[pi].spec_poly());
        lemma_lc_fold_eval(polys, terms.skip(1), acc2, x);
        crate::poly::lemma_eval_add_scaled(acc, terms[0].0@, polys[pi].spec_poly(), x);
        let e_acc = spec_eval(acc, x);
        let e0 = terms[0].0@ * spec_eval(polys[pi].spec_poly(), x);
        let v1 = spec_lc_value(polys, terms.skip(1), x);
        crate::poly::lemma_add_mod_l(e_acc + e0, v1, p);
        crate::poly::lemma_add_mod_l(e_acc, e0 + v1, p);
    }
}

/// The linearity law: a combination's virtual polynomial evaluates to the
/// coefficient-weighted sum of the referenced polynomials' evaluations, at
/// every point.  This is the arithmetic the homomorphic verification of a
/// combination's claimed value rests on.
pub proof fn lemma_combination_value(
    polys: Seq<LabeledPolynomial>,
    lc: LinearCombination,
    x: int,
)
    ensures
        spec_eval(spec_lc_poly_fold(polys, lc.spec_terms(), Seq::<int>::empty()), x)
            == spec_lc_value(polys, lc.spec_terms(), x) % fr_order(),
{
    lemma_lc_fold_eval(polys, lc.spec_terms(), Seq::<int>::empty(), x);
    assert(spec_eval(Seq::<int>::empty(), x) == 0);
}

/// The degree bound of a combination's virtual polynomial: carried over only
/// when the combination is the single bounded term.
pub open spec fn spec_lc_bound(polys: Seq<LabeledPolynomial>, lc: LinearCombination) -> Option<
    usize,
> {
    if lc.spec_terms().len() == 1 && spec_count_bounded(polys, lc.spec_terms()) >= 1 {
        polys[spec_find_poly(polys, lc.spec_terms()[0].1@)].spec_degree_bound()
    } else {
        None
    }
}

/// The virtual polynomials and blindings a clean combination list resolves
/// to, up to views.
pub open spec fn spec_derived_ok(
    polys: Seq<LabeledPolynomial>,
    rands: Seq<Randomness>,
    lcs: Seq<LinearCombination>,
    dp: Seq<LabeledPolynomial>,
    dr: Seq<Randomness>,
) -> bool {
    &&& dp.len() == lcs.len()
    &&& dr.len() == lcs.len()
    &&& forall|k: int|
        0 <= k < lcs.len() ==> {
            &&& (#[trigger] dp[k]).spec_label() == lcs[k].spec_label()
            &&& dp[k].spec_poly() == spec_lc_poly_fold(
                polys,
                lcs[k].spec_terms(),
                Seq::<int>::empty(),
            )
            &&& dp[k].spec_degree_bound() == spec_lc_bound(polys, lcs[k])
            &&& dr[k].blind@ == spec_lc_blind_fold(
                polys,
                rands,
                lcs[k].spec_terms(),
                Seq::<int>::empty(),
            )
            &&& (dr[k].shifted_blind is Some <==> spec_lc_bound(polys, lcs[k]) is Some)
            &&& (spec_lc_bound(polys, lcs[k]) is Some ==> spec_shifted_blind(dr[k])
                == spec_add_scaled(
                Seq::<int>::empty(),
                lcs[k].spec_terms()[0].0@,
                spec_shifted_blind(rands[spec_find_poly(polys, lcs[k].spec_terms()[0].1@)]),
            ))
        }
}

/// What a returned linear-combination proof is: the batch opening of the
/// derived virtual polynomials — one witness per distinct point, each the
/// commitment to the quotients of that point's combination by `X - point`,
/// together with the combined blinding evaluation, the sponge having been
/// driven through the derived claims.
pub open spec fn spec_open_combinations_ok(
    pk: UniversalProver,
    polys: Seq<LabeledPolynomial>,
    rands: Seq<Randomness>,
    lcs: Seq<LinearCombination>,
    qs: Seq<(String, (String, Scalar))>,
    s0: int,
    pf: BatchLCProof,
    s_final: int,
) -> bool {
    exists|dp: Seq<LabeledPolynomial>, dr: Seq<Randomness>|
        #[trigger] spec_derived_ok(polys, rands, lcs, dp, dr) && spec_open_err(pk, dp, qs) is None
            && {
            let claims = spec_open_claims(pk, dp, dr, qs);
            let s_abs = spec_absorb_claims(s0, claims);
            let pts = spec_distinct(claims, Seq::empty());
            &&& pf.proof.witnesses@.len() == pts.len()
            &&& (forall|j: int|
                0 <= j < pts.len() ==> (#[trigger] pf.proof.witnesses@[j])@ == spec_open_witness(
                    pk,
                    dp,
                    dr,
                    qs,
                    s_abs,
                    j,
                    pts[j],
                ))
            &&& pf.proof.random_v@ == spec_fold_rv(
                pk,
                dp,
                dr,
                qs,
                pts,
                s_abs,
                spec_chal(spec_squeeze_n(s_abs, pts.len()), 0),
                0,
                0,
            )
            &&& s_final == spec_squeeze(spec_squeeze_n(s_abs, pts.len()))
        }
}

/// Proves the evaluations of the virtual polynomials named by the
/// combinations: each is formed as the weighted sum of its referenced
/// polynomials and blindings, and the batch opening runs on the virtual
/// polynomials under the combination labels.
pub fn open_combinations(
    pk: &UniversalProver,
    lc_s: &Vec<LinearCombination>,
    polynomials: &Vec<LabeledPolynomial>,
    rands: &Vec<Randomness>,
    query_set: &QuerySet,
    sponge: &mut Sponge,
) -> (r: Result<BatchLCProof, PCError>)
    requires
        pk.wf(),
        forall|i: int| 0 <= i < lc_s@.len() ==> (#[trigger] lc_s@[i]).wf(),
        forall|i: int| 0 <= i < polynomials@.len() ==> (#[trigger] polynomials@[i]).wf(),
        query_set.wf(),
        rands_ok(*pk, rands@),
        rands@.len() == polynomials@.len(),
        query_set.entries@.len() * 2 <= usize::MAX,
        old(sponge).wf(),
    ensures
        final(sponge).wf(),
        match r {
            Err(e) => spec_lc_err(polynomials@, lc_s@) == Some(e) || (spec_lc_err(
                polynomials@,
                lc_s@,
            ) is None && exists|dp: Seq<LabeledPolynomial>, dr: Seq<Randomness>|
                spec_derived_ok(polynomials@, rands@, lc_s@, dp, dr) && spec_open_err(
                    *pk,
                    dp,
                    query_set.entries@,
                ) == Some(e)),
            Ok(pf) => {
                &&& spec_lc_err(polynomials@, lc_s@) is None
                &&& pf.wf()
                &&& spec_open_combinations_ok(
                    *pk,
                    polynomials@,
                    rands@,
                    lc_s@,
                    query_set.entries@,
                    old(sponge).state@,
                    pf,
                    final(sponge).state@,
                )
            },
        },
{
    let empty_poly = Poly::zero();
    let mut derived: Vec<LabeledPolynomial> = Vec::new();
    let mut drands: Vec<Randomness> = Vec::new();
    let mut i: usize = 0;
    while i < lc_s.len()
        invariant
            i <= lc_s@.len(),
            *sponge == *old(sponge),
            old(sponge).wf(),
            pk.wf(),
            forall|j: int| 0 <= j < lc_s@.len() ==> (#[trigger] lc_s@[j]).wf(),
            forall|j: int| 0 <= j < polynomials@.len() ==> (#[trigger] polynomials@[j]).wf(),
            rands_ok(*pk, rands@),
            rands@.len() == polynomials@.len(),
            empty_poly@ == Seq::<int>::empty(),
            empty_poly.wf(),
            derived@.len() == i,
            drands@.len() == i,
            forall|j: int| 0 <= j < i ==> spec_lc_one_err(polynomials@, #[trigger] lc_s@[j]) is None,
            forall|j: int| 0 <= j < i ==> (#[trigger] derived@[j]).wf(),
            rands_ok(*pk, drands@),
            forall|j: int|
                0 <= j < i ==> {
                    &&& (#[trigger] derived@[j]).spec_label() == lc_s@[j].spec_label()
                    &&& derived@[j].spec_poly() == spec_lc_poly_fold(
                        polynomials@,
                        lc_s@[j].spec_terms(),
                        Seq::<int>::empty(),
                    )
                    &&& derived@[j].spec_degree_bound() == spec_lc_bound(polynomials@, lc_s@[j])
                    &&& drands@[j].blind@ == spec_lc_blind_fold(
                        polynomials@,
                        rands@,
                        lc_s@[j].spec_terms(),
                        Seq::<int>::empty(),
                    )
                    &&& (drands@[j].shifted_blind is Some <==> spec_lc_bound(
                        polynomials@,
                        lc_s@[j],
                    ) is Some)
                    &&& (spec_lc_bound(polynomials@, lc_s@[j]) is Some ==> spec_shifted_blind(
                        drands@[j],
                    ) == spec_add_scaled(
                        Seq::<int>::empty(),
                        lc_s@[j].spec_terms()[0].0@,
                        spec_shifted_blind(
                            rands@[spec_find_poly(polynomials@, lc_s@[j].spec_terms()[0].1@)],
                        ),
                    ))
                },
        decreases lc_s@.len() - i,
    {
        let lc = &lc_s[i];
        let ghost terms = lc.spec_terms();
        if lc.is_empty() {
            proof {
                lemma_lc_err_skip(polynomials@, lc_s@, i as int);
                assert(lc_s@.skip(i as int)[0] == lc_s@[i as int]);
            }
            return Err(PCError::InvalidLinearCombination);
        }
        let mut bounded: usize = 0;
        let mut acc = Poly::zero();
        let mut accb = Poly::zero();
        let mut t: usize = 0;
        proof {
            assert(terms.skip(0) =~= terms);
            assert(acc@ =~= Seq::<int>::empty());
            assert(accb@ =~= Seq::<int>::empty());
        }
        while t < lc.terms().len()
            invariant
                t <= terms.len(),
                bounded <= t,
                terms == lc_s@[i as int].spec_terms(),
                i < lc_s@.len(),
                lc == lc_s@[i as int],
                *sponge == *old(sponge),
                old(sponge).wf(),
                forall|j: int| 0 <= j < i ==> spec_lc_one_err(polynomials@, #[trigger] lc_s@[j]) is None,
                pk.wf(),
                forall|j: int| 0 <= j < lc_s@.len() ==> (#[trigger] lc_s@[j]).wf(),
                forall|j: int| 0 <= j < polynomials@.len() ==> (#[trigger] polynomials@[j]).wf(),
                rands_ok(*pk, rands@),
                rands@.len() == polynomials@.len(),
                acc.wf(),
                accb.wf(),
                accb@.len() <= pk.max_degree + 1,
                !spec_terms_missing(polynomials@, terms.take(t as int)),
                bounded as int == spec_count_bounded(polynomials@, terms.take(t as int)),
                spec_lc_poly_fold(polynomials@, terms, Seq::<int>::empty()) == spec_lc_poly_fold(
                    polynomials@,
                    terms.skip(t as int),
                    acc@,
                ),
                spec_lc_blind_fold(polynomials@, rands@, terms, Seq::<int>::empty())
                    == spec_lc_blind_fold(polynomials@, rands@, terms.skip(t as int), accb@),
            decreases terms.len() - t,
        {
            proof {
                assert(terms.skip(t as int)[0] == terms[t as int]);
                assert(terms.skip(t as int).skip(1) =~= terms.skip(t + 1));
                assert(terms.take(t + 1).drop_last() =~= terms.take(t as int));
                assert(terms.take(t + 1).last() == terms[t as int]);
            }
            let term_coeff: &Scalar = &lc.terms()[t].0;
            let term_label: &String = &lc.terms()[t].1;
            let pi: usize = match crate::kzg::find_poly(polynomials, term_label) {
                Some(x) => x,
                None => {
                    proof {
                        lemma_terms_missing_take(polynomials@, terms, t as int);
                        assert(terms.take(terms.len() as int) =~= terms);
                        lemma_terms_missing_grow(polynomials@, terms, t + 1);
                        lemma_lc_err_skip(polynomials@, lc_s@, i as int);
                        assert(lc_s@.skip(i as int)[0] == lc_s@[i as int]);
                    }
                    return Err(PCError::MissingPolynomial);
                },
            };
            proof {
                lemma_find_poly(polynomials@, term_label@);
                lemma_count_bounded_prefix(polynomials@, terms, t as int);
                lemma_terms_missing_take(polynomials@, terms, t as int);
            }
            let p = &polynomials[pi];
            if p.degree_bound().is_some() {
                bounded = bounded + 1;
            }
            acc = acc.add_scaled(term_coeff, p.polynomial());
            accb = accb.add_scaled(term_coeff, &rands[pi].blind);
            t = t + 1;
        }
        proof {
            assert(terms.take(terms.len() as int) =~= terms);
            assert(terms.skip(terms.len() as int) =~= Seq::<(Scalar, String)>::empty());
        }
        if bounded >= 1 && lc.terms().len() > 1 {
            proof {
                lemma_lc_err_skip(polynomials@, lc_s@, i as int);
                assert(lc_s@.skip(i as int)[0] == lc_s@[i as int]);
            }
            return Err(PCError::InvalidLinearCombination);
        }
        let (bound_opt, shifted_blind): (Option<usize>, Option<Poly>) = if bounded >= 1 {
            let term_coeff: &Scalar = &lc.terms()[0].0;
            let term_label: &String = &lc.terms()[0].1;
            let pi: usize = match crate::kzg::find_poly(polynomials, term_label) {
                Some(x) => x,
                None => {
                    proof {
                        assert(spec_terms_missing(polynomials@, terms));
                        assert(false);
                    }
                    return Err(PCError::MissingPolynomial);
                },
            };
            proof {
                lemma_find_poly(polynomials@, term_label@);
                assert(terms.len() == 1);
                assert(terms.skip(1) =~= Seq::<(Scalar, String)>::empty());
                assert(spec_count_bounded(polynomials@, terms.skip(1)) == 0);
                assert(spec_count_bounded(polynomials@, terms) >= 1);
                assert(polynomials@[pi as int].spec_degree_bound() is Some);
            }
            let sb: &Poly = match &rands[pi].shifted_blind {
                Some(x) => x,
                None => &empty_poly,
            };
            let scaled = Poly::zero().add_scaled(term_coeff, sb);
            proof {
                assert(Seq::<int>::empty() =~= vals(Seq::<Scalar>::empty()));
                assert(sb@ == spec_shifted_blind(rands@[pi as int]));
            }
            (polynomials[pi].degree_bound(), Some(scaled))
        } else {
            (None, None)
        };
        proof {
            if terms.len() == 1 {
                assert(terms.take(1) =~= terms);
            }
        }
        proof {
            assert(bound_opt == spec_lc_bound(polynomials@, lc_s@[i as int]));
            assert(acc@ == spec_lc_poly_fold(polynomials@, terms, Seq::<int>::empty()));
            assert(accb@ == spec_lc_blind_fold(polynomials@, rands@, terms, Seq::<int>::empty()));
        }
        derived.push(
            LabeledPolynomial::new(lc.label().clone(), acc, bound_opt, None),
        );
        drands.push(Randomness { blind: accb, shifted_blind });
        proof {
            assert(spec_lc_one_err(polynomials@, lc_s@[i as int]) is None);
            assert(derived@[i as int].spec_label() == lc_s@[i as int].spec_label());
            assert(derived@[i as int].spec_degree_bound() == spec_lc_bound(
                polynomials@,
                lc_s@[i as int],
            ));
            assert(drands@[i as int].blind@ == spec_lc_blind_fold(
                polynomials@,
                rands@,
                lc_s@[i as int].spec_terms(),
                Seq::<int>::empty(),
            ));
            assert(derived@[i as int].spec_poly() == spec_lc_poly_fold(
                polynomials@,
                lc_s@[i as int].spec_terms(),
                Seq::<int>::empty(),
            ));
            assert(drands@[i as int].shifted_blind is Some <==> spec_lc_bound(
                polynomials@,
                lc_s@[i as int],
            ) is Some);
            assert(spec_lc_bound(polynomials@, lc_s@[i as int]) is Some
                ==> spec_shifted_blind(drands@[i as int]) == spec_add_scaled(
                Seq::<int>::empty(),
                lc_s@[i as int].spec_terms()[0].0@,
                spec_shifted_blind(
                    rands@[spec_find_poly(polynomials@, lc_s@[i as int].spec_terms()[0].1@)],
                ),
            ));
        }
        i = i + 1;
    }
    proof {
        lemma_lc_err_skip(polynomials@, lc_s@, lc_s@.len() as int);
        assert(lc_s@.skip(lc_s@.len() as int) =~= Seq::<LinearCombination>::empty());
        assert(spec_derived_ok(polynomials@, rands@, lc_s@, derived@, drands@));
    }
    match batch_open(pk, &derived, query_set, &drands, sponge) {
        Ok(p) => {
            let out = BatchLCProof { proof: p };
            proof {
                assert(spec_open_combinations_ok(
                    *pk,
                    polynomials@,
                    rands@,
                    lc_s@,
                    query_set.entries@,
                    old(sponge).state@,
                    out,
                    sponge.state@,
                )) by {
                    assert(spec_derived_ok(polynomials@, rands@, lc_s@, derived@, drands@));
                }
            }
            Ok(out)
        },
        Err(e) => Err(e),
    }
}

/// The number of terms referencing a degree-bounded commitment.
pub open spec fn spec_count_bounded_c(
    comms: Seq<LabeledCommitment>,
    terms: Seq<(Scalar, String)>,
) -> int
    decreases terms.len(),
{
    if terms.len() == 0 {
        0
    } else {
        let ci = spec_find_label(comms, terms[0].1@);
        let here: int = if 0 <= ci < comms.len() && comms[ci].spec_degree_bound() is Some {
            1
        } else {
            0
        };
        here + spec_count_bounded_c(comms, terms.skip(1))
    }
}

/// Whether some term references a label with no commitment.
pub open spec fn spec_terms_missing_c(
    comms: Seq<LabeledCommitment>,
    terms: Seq<(Scalar, String)>,
) -> bool
    decreases terms.len(),
{
    if terms.len() == 0 {
        false
    } else if spec_find_label(comms, terms[0].1@) == -1 {
        true
    } else {
        spec_terms_missing_c(comms, terms.skip(1))
    }
}

/// The error one combination causes when resolved against the commitments.
pub open spec fn spec_lc_one_err_c(comms: Seq<LabeledCommitment>, lc: LinearCombination) -> Option<
    PCError,
> {
    if lc.spec_terms().len() == 0 {
        Some(PCError::InvalidLinearCombination)
    } else if spec_terms_missing_c(comms, lc.spec_terms()) {
        Some(PCError::MissingPolynomial)
    } else if spec_count_bounded_c(comms, lc.spec_terms()) >= 1 && lc.spec_terms().len() > 1 {
        Some(PCError::InvalidLinearCombination)
    } else {
        None
    }
}

/// The first combination error on the verifier side, if any.
pub open spec fn spec_lc_err_c(
    comms: Seq<LabeledCommitment>,
    lcs: Seq<LinearCombination>,
) -> Option<PCError>
    decreases lcs.len(),
{
    if lcs.len() == 0 {
        None
    } else if spec_lc_one_err_c(comms, lcs[0]) is Some {
        spec_lc_one_err_c(comms, lcs[0])
    } else {
        spec_lc_err_c(comms, lcs.skip(1))
    }
}

/// While earlier combinations are clean, the batch error is decided by the
/// remaining ones.
proof fn lemma_lc_err_skip_c(comms: Seq<LabeledCommitment>, lcs: Seq<LinearCombination>, i: int)
    requires
        0 <= i <= lcs.len(),
        forall|j: int| 0 <= j < i ==> spec_lc_one_err_c(comms, #[trigger] lcs[j]) is None,
    ensures
        spec_lc_err_c(comms, lcs) == spec_lc_err_c(comms, lcs.skip(i)),
    decreases i,
{
    if i == 0 {
        assert(lcs.skip(0) =~= lcs);
    } else {
        lemma_lc_err_skip_c(comms, lcs, i - 1);
        assert(lcs.skip(i - 1).len() > 0);
        assert(lcs.skip(i - 1)[0] == lcs[i - 1]);
        assert(lcs.skip(i - 1).skip(1) =~= lcs.skip(i));
    }
}

/// The virtual commitment of a combination: the weighted sum of the
/// referenced commitments, folded left to right from the identity.
pub open spec fn spec_lc_comm_fold(
    comms: Seq<LabeledCommitment>,
    terms: Seq<(Scalar, String)>,
    acc: Seq<u8>,
) -> Seq<u8>
    decreases terms.len(),
{
    if terms.len() == 0 {
        acc
    } else {
        let ci = spec_find_label(comms, terms[0].1@);
        spec_lc_comm_fold(
            comms,
            terms.skip(1),
            g1_add_of(acc, g1_mul_of(comms[ci].spec_commitment().comm@, terms[0].0@)),
        )
    }
}

/// The degree bound of a virtual commitment: carried over only when the
/// combination is the single bounded term.
pub open spec fn spec_lc_bound_c(comms: Seq<LabeledCommitment>, lc: LinearCombination) -> Option<
    usize,
> {
    if lc.spec_terms().len() == 1 && spec_count_bounded_c(comms, lc.spec_terms()) >= 1 {
        comms[spec_find_label(comms, lc.spec_terms()[0].1@)].spec_degree_bound()
    } else {
        None
    }
}

/// The bytes of a labeled commitment's shifted part, the identity encoding
/// when absent.
pub open spec fn spec_shifted_comm_bytes(lc: LabeledCommitment) -> Seq<u8> {
    match lc.spec_commitment().shifted_comm {
        Some(s) => s@,
        None => g1_zero_bytes(),
    }
}

/// The virtual commitments a clean combination list resolves to, up to
/// views.
pub open spec fn spec_derived_comms_ok(
    comms: Seq<LabeledCommitment>,
    lcs: Seq<LinearCombination>,
    dc: Seq<LabeledCommitment>,
) -> bool {
    &&& dc.len() == lcs.len()
    &&& forall|k: int|
        0 <= k < lcs.len() ==> {
            &&& (#[trigger] dc[k]).spec_label() == lcs[k].spec_label()
            &&& dc[k].spec_commitment().comm@ == spec_lc_comm_fold(
                comms,
                lcs[k].spec_terms(),
                g1_zero_bytes(),
            )
            &&& dc[k].spec_degree_bound() == spec_lc_bound_c(comms, lcs[k])
            &&& (dc[k].spec_commitment().shifted_comm is Some <==> spec_lc_bound_c(
                comms,
                lcs[k],
            ) is Some)
            &&& (spec_lc_bound_c(comms, lcs[k]) is Some
                ==> dc[k].spec_commitment().shifted_comm.unwrap()@ == g1_mul_of(
                spec_shifted_comm_bytes(
                    comms[spec_find_label(comms, lcs[k].spec_terms()[0].1@)],
                ),
                lcs[k].spec_terms()[0].0@,
            ))
        }
}

/// Extending a prefix by one term adds exactly that term's label check, on
/// the verifier side.
proof fn lemma_terms_missing_take_c(
    comms: Seq<LabeledCommitment>,
    terms: Seq<(Scalar, String)>,
    t: int,
)
    requires
        0 <= t < terms.len(),
    ensures
        spec_terms_missing_c(comms, terms.take(t + 1)) == (spec_terms_missing_c(
            comms,
            terms.take(t),
        ) || spec_find_label(comms, terms[t].1@) == -1),
    decreases t,
{
    if t == 0 {
        assert(terms.take(1)[0] == terms[0]);
        assert(terms.take(1).skip(1) =~= Seq::<(Scalar, String)>::empty());
        assert(terms.take(0) =~= Seq::<(Scalar, String)>::empty());
    } else {
        assert(terms.take(t + 1)[0] == terms[0]);
        assert(terms.take(t)[0] == terms[0]);
        assert(terms.take(t + 1).skip(1) =~= terms.skip(1).take(t));
        assert(terms.take(t).skip(1) =~= terms.skip(1).take(t - 1));
        assert(terms.skip(1)[t - 1] == terms[t]);
        lemma_terms_missing_take_c(comms, terms.skip(1), t - 1);
    }
}

/// A missing label in a prefix is a missing label in every longer prefix,
/// on the verifier side.
proof fn lemma_terms_missing_grow_c(
    comms: Seq<LabeledCommitment>,
    terms: Seq<(Scalar, String)>,
    t: int,
)
    requires
        0 <= t <= terms.len(),
        spec_terms_missing_c(comms, terms.take(t)),
    ensures
        spec_terms_missing_c(comms, terms),
    decreases terms.len() - t,
{
    if t < terms.len() {
        lemma_terms_missing_take_c(comms, terms, t);
        lemma_terms_missing_grow_c(comms, terms, t + 1);
    } else {
        assert(terms.take(t) =~= terms);
    }
}

/// Counting bounded terms over prefixes, on the verifier side.
proof fn lemma_count_bounded_prefix_c(
    comms: Seq<LabeledCommitment>,
    terms: Seq<(Scalar, String)>,
    t: int,
)
    requires
        0 <= t < terms.len(),
    ensures
        spec_count_bounded_c(comms, terms.take(t + 1)) == spec_count_bounded_c(
            comms,
            terms.take(t),
        ) + ({
            let ci = spec_find_label(comms, terms[t].1@);
            if 0 <= ci < comms.len() && comms[ci].spec_degree_bound() is Some {
                1int
            } else {
                0int
            }
        }),
    decreases t,
{
    if t == 0 {
        assert(terms.take(1)[0] == terms[0]);
        assert(terms.take(1).skip(1) =~= Seq::<(Scalar, String)>::empty());
        assert(terms.take(0) =~= Seq::<(Scalar, String)>::empty());
    } else {
        assert(terms.take(t + 1)[0] == terms[0]);
        assert(terms.take(t)[0] == terms[0]);
        assert(terms.take(t + 1).skip(1) =~= terms.skip(1).take(t));
        assert(terms.take(t).skip(1) =~= terms.skip(1).take(t - 1));
        assert(terms.skip(1)[t - 1] == terms[t]);
        lemma_count_bounded_prefix_c(comms, terms.skip(1), t - 1);
    }
}

/// Verifies the claimed evaluations of the virtual polynomials named by the
/// combinations: each virtual commitment is reconstructed as the weighted
/// sum of the referenced commitments, and the batch check runs on them
/// against the supplied proof.
pub fn check_combinations(
    vk: &UniversalVerifier,
    lc_s: &Vec<LinearCombination>,
    commitments: &Vec<LabeledCommitment>,
    query_set: &QuerySet,
    evaluations: &Evaluations,
    proof: &BatchLCProof,
    sponge: &mut Sponge,
) -> (r: Result<bool, PCError>)
    requires
        vk.wf(),
        forall|i: int| 0 <= i < lc_s@.len() ==> (#[trigger] lc_s@[i]).wf(),
        forall|i: int| 0 <= i < commitments@.len() ==> (#[trigger] commitments@[i]).wf(),
        query_set.wf(),
        evaluations.wf(),
        proof.wf(),
        query_set.entries@.len() * 2 <= usize::MAX,
        old(sponge).wf(),
    ensures
        final(sponge).wf(),
        match r {
            Err(e) => spec_lc_err_c(commitments@, lc_s@) == Some(e) || (spec_lc_err_c(
                commitments@,
                lc_s@,
            ) is None && exists|dc: Seq<LabeledCommitment>|
                spec_derived_comms_ok(commitments@, lc_s@, dc) && spec_check_err(
                    dc,
                    query_set.entries@,
                    evaluations.entries@,
                    vk.max_degree as int,
                ) == Some(e)),
            Ok(b) => {
                &&& spec_lc_err_c(commitments@, lc_s@) is None
                &&& exists|dc: Seq<LabeledCommitment>|
                    spec_derived_comms_ok(commitments@, lc_s@, dc) && spec_check_err(
                        dc,
                        query_set.entries@,
                        evaluations.entries@,
                        vk.max_degree as int,
                    ) is None && b == spec_check_decision(
                        vk.g@,
                        vk.gamma_g@,
                        vk.h@,
                        vk.beta_h@,
                        vk.max_degree as int,
                        spec_claims_of(dc, evaluations.entries@, query_set.entries@),
                        g1s(proof.proof.witnesses@),
                        proof.proof.random_v@,
                        old(sponge).state@,
                    )
            },
        },
{
    let mut derived: Vec<LabeledCommitment> = Vec::new();
    let mut i: usize = 0;
    while i < lc_s.len()
        invariant
            i <= lc_s@.len(),
            *sponge == *old(sponge),
            old(sponge).wf(),
            vk.wf(),
            forall|j: int| 0 <= j < lc_s@.len() ==> (#[trigger] lc_s@[j]).wf(),
            forall|j: int| 0 <= j < commitments@.len() ==> (#[trigger] commitments@[j]).wf(),
            derived@.len() == i,
            forall|j: int|
                0 <= j < i ==> spec_lc_one_err_c(commitments@, #[trigger] lc_s@[j]) is None,
            forall|j: int| 0 <= j < i ==> (#[trigger] derived@[j]).wf(),
            forall|j: int|
                0 <= j < i ==> {
                    &&& (#[trigger] derived@[j]).spec_label() == lc_s@[j].spec_label()
                    &&& derived@[j].spec_commitment().comm@ == spec_lc_comm_fold(
                        commitments@,
                        lc_s@[j].spec_terms(),
                        g1_zero_bytes(),
                    )
                    &&& derived@[j].spec_degree_bound() == spec_lc_bound_c(
                        commitments@,
                        lc_s@[j],
                    )
                    &&& (derived@[j].spec_commitment().shifted_comm is Some <==> spec_lc_bound_c(
                        commitments@,
                        lc_s@[j],
                    ) is Some)
                    &&& (spec_lc_bound_c(commitments@, lc_s@[j]) is Some
                        ==> derived@[j].spec_commitment().shifted_comm.unwrap()@ == g1_mul_of(
                        spec_shifted_comm_bytes(
                            commitments@[spec_find_label(
                                commitments@,
                                lc_s@[j].spec_terms()[0].1@,
                            )],
                        ),
                        lc_s@[j].spec_terms()[0].0@,
                    ))
                },
        decreases lc_s@.len() - i,
    {
        let lc = &lc_s[i];
        let ghost terms = lc.spec_terms();
        if lc.is_empty() {
            proof {
                lemma_lc_err_skip_c(commitments@, lc_s@, i as int);
                assert(lc_s@.skip(i as int)[0] == lc_s@[i as int]);
            }
            return Err(PCError::InvalidLinearCombination);
        }
        let mut bounded: usize = 0;
        let mut gc = g1_zero();
        let mut t: usize = 0;
        proof {
            assert(terms.skip(0) =~= terms);
        }
        while t < lc.terms().len()
            invariant
                t <= terms.len(),
                bounded <= t,
                terms == lc_s@[i as int].spec_terms(),
                i < lc_s@.len(),
                lc == lc_s@[i as int],
                *sponge == *old(sponge),
                old(sponge).wf(),
                forall|j: int|
                    0 <= j < i ==> spec_lc_one_err_c(commitments@, #[trigger] lc_s@[j]) is None,
                vk.wf(),
                forall|j: int| 0 <= j < lc_s@.len() ==> (#[trigger] lc_s@[j]).wf(),
                forall|j: int| 0 <= j < commitments@.len() ==> (#[trigger] commitments@[j]).wf(),
                gc.wf(),
                !spec_terms_missing_c(commitments@, terms.take(t as int)),
                bounded as int == spec_count_bounded_c(commitments@, terms.take(t as int)),
                spec_lc_comm_fold(commitments@, terms, g1_zero_bytes()) == spec_lc_comm_fold(
                    commitments@,
                    terms.skip(t as int),
                    gc@,
                ),
            decreases terms.len() - t,
        {
            proof {
                assert(terms.skip(t as int)[0] == terms[t as int]);
                assert(terms.skip(t as int).skip(1) =~= terms.skip(t + 1));
            }
            let term_coeff: &Scalar = &lc.terms()[t].0;
            let term_label: &String = &lc.terms()[t].1;
            let ci: usize = match crate::kzg::find_commitment(commitments, term_label) {
                Some(x) => x,
                None => {
                    proof {
                        lemma_terms_missing_take_c(commitments@, terms, t as int);
                        lemma_terms_missing_grow_c(commitments@, terms, t + 1);
                        lemma_lc_err_skip_c(commitments@, lc_s@, i as int);
                        assert(lc_s@.skip(i as int)[0] == lc_s@[i as int]);
                    }
                    return Err(PCError::MissingPolynomial);
                },
            };
            proof {
                lemma_find_label(commitments@, term_label@);
                lemma_count_bounded_prefix_c(commitments@, terms, t as int);
                lemma_terms_missing_take_c(commitments@, terms, t as int);
            }
            let c = &commitments[ci];
            if c.degree_bound().is_some() {
                bounded = bounded + 1;
            }
            let prod = g1_mul(&c.commitment().comm, term_coeff);
            gc = g1_add(&gc, &prod);
            t = t + 1;
        }
        proof {
            assert(terms.take(terms.len() as int) =~= terms);
            assert(terms.skip(terms.len() as int) =~= Seq::<(Scalar, String)>::empty());
        }
        if bounded >= 1 && lc.terms().len() > 1 {
            proof {
                lemma_lc_err_skip_c(commitments@, lc_s@, i as int);
                assert(lc_s@.skip(i as int)[0] == lc_s@[i as int]);
            }
            return Err(PCError::InvalidLinearCombination);
        }
        let (bound_opt, shifted_comm): (Option<usize>, Option<G1El>) = if bounded >= 1 {
            let term_coeff: &Scalar = &lc.terms()[0].0;
            let term_label: &String = &lc.terms()[0].1;
            let ci: usize = match crate::kzg::find_commitment(commitments, term_label) {
                Some(x) => x,
                None => {
                    proof {
                        assert(spec_terms_missing_c(commitments@, terms));
                        assert(false);
                    }
                    return Err(PCError::MissingPolynomial);
                },
            };
            proof {
                lemma_find_label(commitments@, term_label@);
                assert(terms.len() == 1);
                assert(terms.skip(1) =~= Seq::<(Scalar, String)>::empty());
                assert(spec_count_bounded_c(commitments@, terms.skip(1)) == 0);
                assert(spec_count_bounded_c(commitments@, terms) >= 1);
                assert(commitments@[ci as int].spec_degree_bound() is Some);
            }
            let c = &commitments[ci];
            let sbase: G1El = match &c.commitment().shifted_comm {
                Some(s) => s.clone(),
                None => g1_zero(),
            };
            proof {
                assert(sbase@ == spec_shifted_comm_bytes(commitments@[ci as int]));
            }
            let sc = g1_mul(&sbase, term_coeff);
            (c.degree_bound(), Some(sc))
        } else {
            (None, None)
        };
        derived.push(
            LabeledCommitment::new(
                lc.label().clone(),
                Commitment { comm: gc, shifted_comm },
                bound_opt,
            ),
        );
        proof {
            assert(spec_lc_one_err_c(commitments@, lc_s@[i as int]) is None);
        }
        i = i + 1;
    }
    proof {
        lemma_lc_err_skip_c(commitments@, lc_s@, lc_s@.len() as int);
        assert(lc_s@.skip(lc_s@.len() as int) =~= Seq::<LinearCombination>::empty());
        assert(spec_derived_comms_ok(commitments@, lc_s@, derived@));
    }
    batch_check(vk, &derived, query_set, evaluations, &proof.proof, sponge)
}

/// Extending a prefix by one term adds exactly that term's label check.
proof fn lemma_terms_missing_take(
    polys: Seq<LabeledPolynomial>,
    terms: Seq<(Scalar, String)>,
    t: int,
)
    requires
        0 <= t < terms.len(),
    ensures
        spec_terms_missing(polys, terms.take(t + 1)) == (spec_terms_missing(polys, terms.take(t))
            || spec_find_poly(polys, terms[t].1@) == -1),
    decreases t,
{
    if t == 0 {
        assert(terms.take(1)[0] == terms[0]);
        assert(terms.take(1).skip(1) =~= Seq::<(Scalar, String)>::empty());
        assert(terms.take(0) =~= Seq::<(Scalar, String)>::empty());
    } else {
        assert(terms.take(t + 1)[0] == terms[0]);
        assert(terms.take(t)[0] == terms[0]);
        assert(terms.take(t + 1).skip(1) =~= terms.skip(1).take(t));
        assert(terms.take(t).skip(1) =~= terms.skip(1).take(t - 1));
        assert(terms.skip(1)[t - 1] == terms[t]);
        lemma_terms_missing_take(polys, terms.skip(1), t - 1);
    }
}

/// A missing label in a prefix is a missing label in every longer prefix.
proof fn lemma_terms_missing_grow(
    polys: Seq<LabeledPolynomial>,
    terms: Seq<(Scalar, String)>,
    t: int,
)
    requires
        0 <= t <= terms.len(),
        spec_terms_missing(polys, terms.take(t)),
    ensures
        spec_terms_missing(polys, terms),
    decreases terms.len() - t,
{
    if t < terms.len() {
        lemma_terms_missing_take(polys, terms, t);
        lemma_terms_missing_grow(polys, terms, t + 1);
    } else {
        assert(terms.take(t) =~= terms);
    }
}

/// Counting bounded terms over a full list agrees with counting over its
/// prefixes.
proof fn lemma_count_bounded_prefix(
    polys: Seq<LabeledPolynomial>,
    terms: Seq<(Scalar, String)>,
    t: int,
)
    requires
        0 <= t < terms.len(),
    ensures
        spec_count_bounded(polys, terms.take(t + 1)) == spec_count_bounded(polys, terms.take(t)) + (
        {
            let pi = spec_find_poly(polys, terms[t].1@);
            if 0 <= pi < polys.len() && polys[pi].spec_degree_bound() is Some {
                1int
            } else {
                0int
            }
        }),
    decreases t,
{
    if t == 0 {
        assert(terms.take(1)[0] == terms[0]);
        assert(terms.take(1).skip(1) =~= Seq::<(Scalar, String)>::empty());
        assert(terms.take(0) =~= Seq::<(Scalar, String)>::empty());
    } else {
        assert(terms.take(t + 1)[0] == terms[0]);
        assert(terms.take(t)[0] == terms[0]);
        assert(terms.take(t + 1).skip(1) =~= terms.skip(1).take(t));
        assert(terms.take(t).skip(1) =~= terms.skip(1).take(t - 1));
        assert(terms.skip(1)[t - 1] == terms[t]);
        lemma_count_bounded_prefix(polys, terms.skip(1), t - 1);
    }
}

} // verus!

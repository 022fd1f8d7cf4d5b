//! End-to-end behaviour of the commitment scheme: honest runs verify,
//! tampered runs are rejected, the two commitment bases agree, and linear
//! combinations verify through the homomorphism.

use polycommit::data::{
    DegreeInfo, Evaluations, LabeledCommitment, LabeledPolynomial, LabeledPolynomialWithBasis,
    LinearCombination, QuerySet,
};
use polycommit::group::g1_eq;
use polycommit::kzg::{RandomSource, batch_check, batch_open, commit, load_srs};
use polycommit::lc::{check_combinations, open_combinations};
use polycommit::poly::Poly;
use polycommit::scalar::{
    Scalar, fr_add, fr_mul, fr_pow, fr_rand, fr_root_of_unity, scalar_from_u64, scalar_one,
};
use polycommit::sponge::Sponge;

fn rand_poly(degree: usize) -> Poly {
    let mut coeffs: Vec<Scalar> = Vec::new();
    for _ in 0..degree + 1 {
        coeffs.push(fr_rand());
    }
    Poly { coeffs }
}

fn degree_info(
    max_degree: usize,
    bounds: Option<Vec<usize>>,
    hiding: usize,
    lagrange: Option<Vec<usize>>,
) -> DegreeInfo {
    DegreeInfo {
        max_degree,
        max_fft_size: max_degree,
        degree_bounds: bounds,
        hiding_bound: hiding,
        lagrange_sizes: lagrange,
    }
}

#[test]
fn single_poly_test() {
    let pp = load_srs(8).unwrap();
    let vk = pp.to_universal_verifier().unwrap();
    let pk = pp.to_universal_prover(degree_info(8, Some(vec![]), 1, None)).unwrap();
    let rng = RandomSource::new();

    let p = rand_poly(3);
    let labeled = LabeledPolynomial::new("Test0".to_string(), p, None, Some(1));
    let point = fr_rand();
    let value = labeled.evaluate(&point);

    let items = vec![LabeledPolynomialWithBasis::from_monomial(labeled.clone())];
    let (comms, rands) = commit(&pk, &items, Some(&rng)).unwrap();

    let mut qs = QuerySet::new();
    qs.insert(("Test0".to_string(), ("rand".to_string(), point.clone())));
    let mut values = Evaluations::new();
    values.insert(("Test0".to_string(), point.clone()), value);

    let polys = vec![labeled];
    let mut sponge_open = Sponge::new();
    let proof = batch_open(&pk, &polys, &qs, &rands, &mut sponge_open).unwrap();
    let mut sponge_check = Sponge::new();
    let ok = batch_check(&vk, &comms, &qs, &values, &proof, &mut sponge_check).unwrap();
    assert!(ok);
}

#[test]
fn degree_bound_scenario() {
    // max_degree 2, one degree-1 polynomial with degree bound 2, one query.
    let pp = load_srs(2).unwrap();
    let vk = pp.to_universal_verifier().unwrap();
    let pk = pp.to_universal_prover(degree_info(2, Some(vec![2]), 1, None)).unwrap();
    let rng = RandomSource::new();

    let p = rand_poly(1);
    let labeled = LabeledPolynomial::new("Test0".to_string(), p, Some(2), Some(1));
    let point = fr_rand();
    let value = labeled.evaluate(&point);

    let items = vec![LabeledPolynomialWithBasis::from_monomial(labeled.clone())];
    let (comms, rands) = commit(&pk, &items, Some(&rng)).unwrap();

    let mut qs = QuerySet::new();
    qs.insert(("Test0".to_string(), ("rand".to_string(), point.clone())));
    let mut values = Evaluations::new();
    values.insert(("Test0".to_string(), point.clone()), value.clone());

    let polys = vec![labeled];
    let mut sponge_open = Sponge::new();
    let proof = batch_open(&pk, &polys, &qs, &rands, &mut sponge_open).unwrap();
    let mut sponge_check = Sponge::new();
    let ok = batch_check(&vk, &comms, &qs, &values, &proof, &mut sponge_check).unwrap();
    assert!(ok);

    // corrupt the claimed evaluation by adding one
    let mut bad_values = Evaluations::new();
    bad_values.insert(("Test0".to_string(), point.clone()), fr_add(&value, &scalar_one()));
    let mut sponge_bad = Sponge::new();
    let bad = batch_check(&vk, &comms, &qs, &bad_values, &proof, &mut sponge_bad).unwrap();
    assert!(!bad);
}

#[test]
fn tampered_commitment_is_rejected() {
    let pp = load_srs(4).unwrap();
    let vk = pp.to_universal_verifier().unwrap();
    let pk = pp.to_universal_prover(degree_info(4, Some(vec![]), 1, None)).unwrap();
    let rng = RandomSource::new();

    let labeled = LabeledPolynomial::new("Test0".to_string(), rand_poly(2), None, Some(1));
    let point = fr_rand();
    let value = labeled.evaluate(&point);

    let items = vec![LabeledPolynomialWithBasis::from_monomial(labeled.clone())];
    let (comms, rands) = commit(&pk, &items, Some(&rng)).unwrap();

    let mut qs = QuerySet::new();
    qs.insert(("Test0".to_string(), ("rand".to_string(), point.clone())));
    let mut values = Evaluations::new();
    values.insert(("Test0".to_string(), point.clone()), value);

    let polys = vec![labeled];
    let mut sponge_open = Sponge::new();
    let proof = batch_open(&pk, &polys, &qs, &rands, &mut sponge_open).unwrap();

    // flip one byte of the commitment
    let mut tampered = comms[0].commitment().clone();
    tampered.comm.b[1] = tampered.comm.b[1].wrapping_add(1);
    let bad_comms = vec![LabeledCommitment::new("Test0".to_string(), tampered, None)];
    let mut sponge_check = Sponge::new();
    let bad = batch_check(&vk, &bad_comms, &qs, &values, &proof, &mut sponge_check).unwrap();
    assert!(!bad);
}

#[test]
fn swapped_query_point_is_rejected() {
    let pp = load_srs(4).unwrap();
    let vk = pp.to_universal_verifier().unwrap();
    let pk = pp.to_universal_prover(degree_info(4, Some(vec![]), 1, None)).unwrap();
    let rng = RandomSource::new();

    let labeled = LabeledPolynomial::new("Test0".to_string(), rand_poly(2), None, Some(1));
    let point = fr_rand();
    let value = labeled.evaluate(&point);

    let items = vec![LabeledPolynomialWithBasis::from_monomial(labeled.clone())];
    let (comms, rands) = commit(&pk, &items, Some(&rng)).unwrap();

    let mut qs = QuerySet::new();
    qs.insert(("Test0".to_string(), ("rand".to_string(), point.clone())));

    let polys = vec![labeled];
    let mut sponge_open = Sponge::new();
    let proof = batch_open(&pk, &polys, &qs, &rands, &mut sponge_open).unwrap();

    // move the query to another point, carrying the old claimed value over
    let other = fr_rand();
    let mut qs2 = QuerySet::new();
    qs2.insert(("Test0".to_string(), ("rand".to_string(), other.clone())));
    let mut values2 = Evaluations::new();
    values2.insert(("Test0".to_string(), other.clone()), value);
    let mut sponge_check = Sponge::new();
    let bad = batch_check(&vk, &comms, &qs2, &values2, &proof, &mut sponge_check).unwrap();
    assert!(!bad);
}

#[test]
fn basis_equivalence() {
    // committing by coefficients and by values over the domain agree
    let pp = load_srs(8).unwrap();
    let pk = pp.to_universal_prover(degree_info(8, None, 0, Some(vec![4]))).unwrap();

    let p = rand_poly(3);
    let omega = fr_root_of_unity(4).unwrap();
    let mut evals: Vec<Scalar> = Vec::new();
    for i in 0..4 {
        evals.push(p.evaluate(&fr_pow(&omega, i)));
    }

    let coeff_item = LabeledPolynomialWithBasis::from_monomial(LabeledPolynomial::new(
        "Test0".to_string(),
        p,
        None,
        None,
    ));
    let lagrange_item =
        LabeledPolynomialWithBasis::new_lagrange_basis("Test0".to_string(), evals, None);

    let (c1, _) = commit(&pk, &vec![coeff_item], None).unwrap();
    let (c2, _) = commit(&pk, &vec![lagrange_item], None).unwrap();
    assert!(g1_eq(&c1[0].commitment().comm, &c2[0].commitment().comm));
}

#[test]
fn lagrange_test_template() {
    // committing in the Lagrange basis with hiding, then opening from the
    // coefficient form with the same blinding, verifies
    let pp = load_srs(8).unwrap();
    let vk = pp.to_universal_verifier().unwrap();
    let pk = pp.to_universal_prover(degree_info(8, Some(vec![]), 1, Some(vec![4]))).unwrap();
    let rng = RandomSource::new();

    let p = rand_poly(3);
    let omega = fr_root_of_unity(4).unwrap();
    let mut evals: Vec<Scalar> = Vec::new();
    for i in 0..4 {
        evals.push(p.evaluate(&fr_pow(&omega, i)));
    }
    let labeled = LabeledPolynomial::new("Test0".to_string(), p, None, Some(1));

    let lagrange_item =
        LabeledPolynomialWithBasis::new_lagrange_basis("Test0".to_string(), evals, Some(1));
    let (comms, rands) = commit(&pk, &vec![lagrange_item], Some(&rng)).unwrap();

    let point = fr_rand();
    let value = labeled.evaluate(&point);
    let mut qs = QuerySet::new();
    qs.insert(("Test0".to_string(), ("rand".to_string(), point.clone())));
    let mut values = Evaluations::new();
    values.insert(("Test0".to_string(), point.clone()), value);

    let polys = vec![labeled];
    let mut sponge_open = Sponge::new();
    let proof = batch_open(&pk, &polys, &qs, &rands, &mut sponge_open).unwrap();
    let mut sponge_check = Sponge::new();
    let ok = batch_check(&vk, &comms, &qs, &values, &proof, &mut sponge_check).unwrap();
    assert!(ok);
}

#[test]
fn two_equation_test() {
    // two linear combinations over two polynomials, one shared point
    let pp = load_srs(8).unwrap();
    let vk = pp.to_universal_verifier().unwrap();
    let pk = pp.to_universal_prover(degree_info(8, Some(vec![]), 1, None)).unwrap();
    let rng = RandomSource::new();

    let p0 = LabeledPolynomial::new("Test0".to_string(), rand_poly(3), None, Some(1));
    let p1 = LabeledPolynomial::new("Test1".to_string(), rand_poly(2), None, Some(1));
    let items = vec![
        LabeledPolynomialWithBasis::from_monomial(p0.clone()),
        LabeledPolynomialWithBasis::from_monomial(p1.clone()),
    ];
    let (comms, rands) = commit(&pk, &items, Some(&rng)).unwrap();

    let z = fr_rand();
    let (c0, c1, c2) = (fr_rand(), fr_rand(), fr_rand());

    let mut lc0 = LinearCombination::empty("eqn0".to_string());
    lc0.add(c0.clone(), "Test0".to_string());
    lc0.add(c1.clone(), "Test1".to_string());
    let mut lc1 = LinearCombination::empty("eqn1".to_string());
    lc1.add(c2.clone(), "Test0".to_string());
    let lcs = vec![lc0, lc1];

    // the claimed values are the weighted sums of the component evaluations
    let v0 = fr_add(&fr_mul(&c0, &p0.evaluate(&z)), &fr_mul(&c1, &p1.evaluate(&z)));
    let v1 = fr_mul(&c2, &p0.evaluate(&z));

    let mut qs = QuerySet::new();
    qs.insert(("eqn0".to_string(), ("rand_0".to_string(), z.clone())));
    qs.insert(("eqn1".to_string(), ("rand_0".to_string(), z.clone())));
    let mut values = Evaluations::new();
    values.insert(("eqn0".to_string(), z.clone()), v0);
    values.insert(("eqn1".to_string(), z.clone()), v1);

    let polys = vec![p0, p1];
    let mut sponge_open = Sponge::new();
    let proof = open_combinations(&pk, &lcs, &polys, &rands, &qs, &mut sponge_open).unwrap();
    let mut sponge_check = Sponge::new();
    let ok =
        check_combinations(&vk, &lcs, &comms, &qs, &values, &proof, &mut sponge_check).unwrap();
    assert!(ok);

    // a wrong claimed sum must be rejected
    let mut bad_values = Evaluations::new();
    bad_values.insert(("eqn0".to_string(), z.clone()), fr_add(&scalar_one(), &scalar_one()));
    bad_values.insert(("eqn1".to_string(), z.clone()), scalar_from_u64(3));
    let mut sponge_bad = Sponge::new();
    let bad =
        check_combinations(&vk, &lcs, &comms, &qs, &bad_values, &proof, &mut sponge_bad).unwrap();
    assert!(!bad);
}

#[test]
fn two_equation_degree_bound_test() {
    // one combination that is exactly one degree-bounded term
    let pp = load_srs(8).unwrap();
    let vk = pp.to_universal_verifier().unwrap();
    let pk = pp.to_universal_prover(degree_info(8, Some(vec![4]), 1, None)).unwrap();
    let rng = RandomSource::new();

    let p0 = LabeledPolynomial::new("Test0".to_string(), rand_poly(3), Some(4), Some(1));
    let p1 = LabeledPolynomial::new("Test1".to_string(), rand_poly(2), None, Some(1));
    let items = vec![
        LabeledPolynomialWithBasis::from_monomial(p0.clone()),
        LabeledPolynomialWithBasis::from_monomial(p1.clone()),
    ];
    let (comms, rands) = commit(&pk, &items, Some(&rng)).unwrap();

    let z = fr_rand();
    let c0 = fr_rand();
    let mut lc0 = LinearCombination::empty("eqn0".to_string());
    lc0.add(c0.clone(), "Test0".to_string());
    let mut lc1 = LinearCombination::empty("eqn1".to_string());
    lc1.add(fr_rand(), "Test1".to_string());
    let v1 = match lc1.terms()[0].0.clone() {
        c => fr_mul(&c, &p1.evaluate(&z)),
    };
    let lcs = vec![lc0, lc1];

    let v0 = fr_mul(&c0, &p0.evaluate(&z));
    let mut qs = QuerySet::new();
    qs.insert(("eqn0".to_string(), ("rand_0".to_string(), z.clone())));
    qs.insert(("eqn1".to_string(), ("rand_0".to_string(), z.clone())));
    let mut values = Evaluations::new();
    values.insert(("eqn0".to_string(), z.clone()), v0);
    values.insert(("eqn1".to_string(), z.clone()), v1);

    let polys = vec![p0, p1];
    let mut sponge_open = Sponge::new();
    let proof = open_combinations(&pk, &lcs, &polys, &rands, &qs, &mut sponge_open).unwrap();
    let mut sponge_check = Sponge::new();
    let ok =
        check_combinations(&vk, &lcs, &comms, &qs, &values, &proof, &mut sponge_check).unwrap();
    assert!(ok);
}

#[test]
fn empty_combination_set_is_not_an_error() {
    let pp = load_srs(4).unwrap();
    let pk = pp.to_universal_prover(degree_info(4, Some(vec![]), 1, None)).unwrap();
    let lcs: Vec<LinearCombination> = Vec::new();
    let polys: Vec<LabeledPolynomial> = Vec::new();
    let rands = Vec::new();
    let qs = QuerySet::new();
    let mut sponge = Sponge::new();
    let r = open_combinations(&pk, &lcs, &polys, &rands, &qs, &mut sponge);
    assert!(r.is_ok());
}

#[test]
fn multiple_points_verify() {
    // one polynomial queried at two points, batched into one proof
    let pp = load_srs(8).unwrap();
    let vk = pp.to_universal_verifier().unwrap();
    let pk = pp.to_universal_prover(degree_info(8, Some(vec![]), 1, None)).unwrap();
    let rng = RandomSource::new();

    let labeled = LabeledPolynomial::new("Test0".to_string(), rand_poly(4), None, Some(1));
    let items = vec![LabeledPolynomialWithBasis::from_monomial(labeled.clone())];
    let (comms, rands) = commit(&pk, &items, Some(&rng)).unwrap();

    let z0 = fr_rand();
    let z1 = fr_rand();
    let mut qs = QuerySet::new();
    qs.insert(("Test0".to_string(), ("rand_0".to_string(), z0.clone())));
    qs.insert(("Test0".to_string(), ("rand_1".to_string(), z1.clone())));
    let mut values = Evaluations::new();
    values.insert(("Test0".to_string(), z0.clone()), labeled.evaluate(&z0));
    values.insert(("Test0".to_string(), z1.clone()), labeled.evaluate(&z1));

    let polys = vec![labeled];
    let mut sponge_open = Sponge::new();
    let proof = batch_open(&pk, &polys, &qs, &rands, &mut sponge_open).unwrap();
    assert_eq!(proof.witnesses.len(), 2);
    let mut sponge_check = Sponge::new();
    let ok = batch_check(&vk, &comms, &qs, &values, &proof, &mut sponge_check).unwrap();
    assert!(ok);
}

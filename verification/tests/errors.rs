//! Every error variant is reachable, and unsupported degree bounds are
//! rejected at key derivation and at commitment, never passed through.

use polycommit::data::{
    DegreeInfo, Evaluations, LabeledCommitment, LabeledPolynomial, LabeledPolynomialWithBasis,
    LinearCombination, PCError, QuerySet,
};
use polycommit::kzg::{RandomSource, batch_check, batch_open, commit, load_srs};
use polycommit::lc::open_combinations;
use polycommit::poly::Poly;
use polycommit::scalar::{Scalar, fr_rand, scalar_from_u64};
use polycommit::sponge::Sponge;

fn rand_poly(degree: usize) -> Poly {
    let mut coeffs: Vec<Scalar> = Vec::new();
    for _ in 0..degree + 1 {
        coeffs.push(fr_rand());
    }
    Poly { coeffs }
}

fn degree_info(
    max_degree: usize,
    bounds: Option<Vec<usize>>,
    hiding: usize,
    lagrange: Option<Vec<usize>>,
) -> DegreeInfo {
    DegreeInfo {
        max_degree,
        max_fft_size: max_degree,
        degree_bounds: bounds,
        hiding_bound: hiding,
        lagrange_sizes: lagrange,
    }
}

#[test]
fn trim_rejects_excessive_max_degree() {
    let pp = load_srs(10).unwrap();
    let r = pp.to_universal_prover(degree_info(20, None, 0, None));
    assert!(matches!(r, Err(PCError::DegreeTooLarge)));
}

#[test]
fn trim_rejects_unsupported_degree_bound() {
    let pp = load_srs(10).unwrap();
    let r = pp.to_universal_prover(degree_info(10, Some(vec![15]), 0, None));
    assert!(matches!(r, Err(PCError::UnsupportedDegreeBound)));
}

#[test]
fn trim_rejects_bad_lagrange_sizes() {
    let pp = load_srs(10).unwrap();
    let r = pp.to_universal_prover(degree_info(10, None, 0, Some(vec![3])));
    assert!(matches!(r, Err(PCError::UnsupportedLagrangeSize)));
    let r2 = pp.to_universal_prover(degree_info(10, None, 0, Some(vec![16])));
    assert!(matches!(r2, Err(PCError::UnsupportedLagrangeSize)));
}

#[test]
fn bad_degree_bound_test() {
    // a declared bound below the polynomial's degree is rejected at commit
    let pp = load_srs(10).unwrap();
    let pk = pp.to_universal_prover(degree_info(10, Some(vec![1]), 1, None)).unwrap();
    let rng = RandomSource::new();
    let labeled = LabeledPolynomial::new("Test0".to_string(), rand_poly(5), Some(1), Some(1));
    let items = vec![LabeledPolynomialWithBasis::from_monomial(labeled)];
    let r = commit(&pk, &items, Some(&rng));
    assert!(matches!(r, Err(PCError::DegreeTooLarge)));

    // with a degree-1 polynomial the same bound is fine
    let ok_poly = LabeledPolynomial::new("Test0".to_string(), rand_poly(1), Some(1), Some(1));
    let items2 = vec![LabeledPolynomialWithBasis::from_monomial(ok_poly)];
    assert!(commit(&pk, &items2, Some(&rng)).is_ok());
}

#[test]
fn commit_rejects_unlisted_degree_bound() {
    let pp = load_srs(10).unwrap();
    let pk = pp.to_universal_prover(degree_info(10, Some(vec![3]), 1, None)).unwrap();
    let rng = RandomSource::new();
    let labeled = LabeledPolynomial::new("Test0".to_string(), rand_poly(2), Some(2), Some(1));
    let items = vec![LabeledPolynomialWithBasis::from_monomial(labeled)];
    let r = commit(&pk, &items, Some(&rng));
    assert!(matches!(r, Err(PCError::UnsupportedDegreeBound)));
}

#[test]
fn commit_rejects_excessive_degree() {
    let srs = load_srs(10).unwrap();
    let pk = srs.to_universal_prover(degree_info(3, None, 0, None)).unwrap();
    let labeled = LabeledPolynomial::new("Test0".to_string(), rand_poly(5), None, None);
    let items = vec![LabeledPolynomialWithBasis::from_monomial(labeled)];
    let r = commit(&pk, &items, None);
    assert!(matches!(r, Err(PCError::DegreeTooLarge)));
}

#[test]
fn commit_requires_randomness_for_hiding() {
    let pp = load_srs(10).unwrap();
    let pk = pp.to_universal_prover(degree_info(10, None, 1, None)).unwrap();
    let labeled = LabeledPolynomial::new("Test0".to_string(), rand_poly(2), None, Some(1));
    let items = vec![LabeledPolynomialWithBasis::from_monomial(labeled)];
    let r = commit(&pk, &items, None);
    assert!(matches!(r, Err(PCError::MissingRng)));
}

#[test]
fn commit_rejects_unlisted_lagrange_size() {
    let pp = load_srs(10).unwrap();
    let pk = pp.to_universal_prover(degree_info(10, None, 0, Some(vec![4]))).unwrap();
    let mut evals: Vec<Scalar> = Vec::new();
    for i in 0..8 {
        evals.push(scalar_from_u64(i));
    }
    let item = LabeledPolynomialWithBasis::new_lagrange_basis("Test0".to_string(), evals, None);
    let r = commit(&pk, &vec![item], None);
    assert!(matches!(r, Err(PCError::UnsupportedLagrangeSize)));
}

#[test]
fn open_rejects_unknown_label() {
    let pp = load_srs(8).unwrap();
    let pk = pp.to_universal_prover(degree_info(8, None, 0, None)).unwrap();
    let labeled = LabeledPolynomial::new("Test0".to_string(), rand_poly(2), None, None);
    let polys = vec![labeled];
    let rands = vec![polycommit::data::Randomness { blind: Poly::zero(), shifted_blind: None }];
    let mut qs = QuerySet::new();
    qs.insert(("Nope".to_string(), ("rand".to_string(), fr_rand())));
    let mut sponge = Sponge::new();
    let r = batch_open(&pk, &polys, &qs, &rands, &mut sponge);
    assert!(matches!(r, Err(PCError::MissingPolynomial)));
}

#[test]
fn check_rejects_unknown_label_and_missing_value() {
    let pp = load_srs(8).unwrap();
    let vk = pp.to_universal_verifier().unwrap();
    let pk = pp.to_universal_prover(degree_info(8, None, 0, None)).unwrap();
    let labeled = LabeledPolynomial::new("Test0".to_string(), rand_poly(2), None, None);
    let items = vec![LabeledPolynomialWithBasis::from_monomial(labeled)];
    let (comms, _rands) = commit(&pk, &items, None).unwrap();

    let proof = polycommit::data::BatchProof {
        witnesses: Vec::new(),
        random_v: scalar_from_u64(0),
    };

    let mut qs = QuerySet::new();
    qs.insert(("Nope".to_string(), ("rand".to_string(), fr_rand())));
    let mut sponge = Sponge::new();
    let r = batch_check(&vk, &comms, &qs, &Evaluations::new(), &proof, &mut sponge);
    assert!(matches!(r, Err(PCError::MissingPolynomial)));

    let mut qs2 = QuerySet::new();
    qs2.insert(("Test0".to_string(), ("rand".to_string(), fr_rand())));
    let mut sponge2 = Sponge::new();
    let r2 = batch_check(&vk, &comms, &qs2, &Evaluations::new(), &proof, &mut sponge2);
    assert!(matches!(r2, Err(PCError::MissingEvaluation)));
}

#[test]
fn check_rejects_degree_bound_beyond_key() {
    let pp = load_srs(8).unwrap();
    let vk = pp.to_universal_verifier().unwrap();
    let pk = pp.to_universal_prover(degree_info(8, None, 0, None)).unwrap();
    let labeled = LabeledPolynomial::new("Test0".to_string(), rand_poly(2), None, None);
    let items = vec![LabeledPolynomialWithBasis::from_monomial(labeled)];
    let (comms, _rands) = commit(&pk, &items, None).unwrap();

    // re-label the commitment with a bound the key cannot support
    let forged = LabeledCommitment::new(
        "Test0".to_string(),
        comms[0].commitment().clone(),
        Some(100),
    );
    let point = fr_rand();
    let mut qs = QuerySet::new();
    qs.insert(("Test0".to_string(), ("rand".to_string(), point.clone())));
    let mut values = Evaluations::new();
    values.insert(("Test0".to_string(), point.clone()), scalar_from_u64(1));
    let proof = polycommit::data::BatchProof {
        witnesses: Vec::new(),
        random_v: scalar_from_u64(0),
    };
    let mut sponge = Sponge::new();
    let r = batch_check(&vk, &vec![forged], &qs, &values, &proof, &mut sponge);
    assert!(matches!(r, Err(PCError::UnsupportedDegreeBound)));
}

#[test]
fn empty_combination_is_invalid() {
    let pp = load_srs(8).unwrap();
    let pk = pp.to_universal_prover(degree_info(8, None, 0, None)).unwrap();
    let lcs = vec![LinearCombination::empty("eqn".to_string())];
    let polys: Vec<LabeledPolynomial> = Vec::new();
    let rands = Vec::new();
    let qs = QuerySet::new();
    let mut sponge = Sponge::new();
    let r = open_combinations(&pk, &lcs, &polys, &rands, &qs, &mut sponge);
    assert!(matches!(r, Err(PCError::InvalidLinearCombination)));
}

#[test]
fn mixed_bound_combination_is_invalid() {
    let pp = load_srs(8).unwrap();
    let pk = pp.to_universal_prover(degree_info(8, Some(vec![4]), 1, None)).unwrap();
    let rng = RandomSource::new();
    let p0 = LabeledPolynomial::new("Test0".to_string(), rand_poly(3), Some(4), Some(1));
    let p1 = LabeledPolynomial::new("Test1".to_string(), rand_poly(2), None, Some(1));
    let items = vec![
        LabeledPolynomialWithBasis::from_monomial(p0.clone()),
        LabeledPolynomialWithBasis::from_monomial(p1.clone()),
    ];
    let (_comms, rands) = commit(&pk, &items, Some(&rng)).unwrap();

    let mut lc = LinearCombination::empty("eqn".to_string());
    lc.add(fr_rand(), "Test0".to_string());
    lc.add(fr_rand(), "Test1".to_string());
    let lcs = vec![lc];
    let z = fr_rand();
    let mut qs = QuerySet::new();
    qs.insert(("eqn".to_string(), ("rand".to_string(), z)));
    let polys = vec![p0, p1];
    let mut sponge = Sponge::new();
    let r = open_combinations(&pk, &lcs, &polys, &rands, &qs, &mut sponge);
    assert!(matches!(r, Err(PCError::InvalidLinearCombination)));
}

#[test]
fn combination_with_unknown_label_is_missing() {
    let pp = load_srs(8).unwrap();
    let pk = pp.to_universal_prover(degree_info(8, None, 0, None)).unwrap();
    let mut lc = LinearCombination::empty("eqn".to_string());
    lc.add(fr_rand(), "Nope".to_string());
    let lcs = vec![lc];
    let polys: Vec<LabeledPolynomial> = Vec::new();
    let rands = Vec::new();
    let qs = QuerySet::new();
    let mut sponge = Sponge::new();
    let r = open_combinations(&pk, &lcs, &polys, &rands, &qs, &mut sponge);
    assert!(matches!(r, Err(PCError::MissingPolynomial)));
}

//! Protocol exercises over varied shapes: degree bounds, several
//! polynomials, several query points, and linear combinations, plus the
//! round trip of the serialized artifacts.

use polycommit::data::{
    BatchLCProof, BatchProof, Commitment, DegreeInfo, Evaluations, LabeledCommitment,
    LabeledPolynomial, LabeledPolynomialWithBasis, LinearCombination, QuerySet, Randomness,
};
use polycommit::group::g1_eq;
use polycommit::kzg::{
    RandomSource, UniversalVerifier, batch_check, batch_open, commit, load_srs,
};
use polycommit::lc::{check_combinations, open_combinations};
use polycommit::poly::Poly;
use polycommit::scalar::{Scalar, fr_mul, fr_rand, scalar_eq};
use polycommit::sponge::Sponge;

/// Everything one protocol round produces, for later inspection.
pub struct TestComponents {
    pub universal_verifier: UniversalVerifier,
    pub commitments: Vec<LabeledCommitment>,
    pub query_set: QuerySet,
    pub evaluations: Evaluations,
    pub batch_proof: Option<BatchProof>,
    pub batch_lc_proof: Option<BatchLCProof>,
    pub randomness: Vec<Randomness>,
}

fn rand_poly(degree: usize) -> Poly {
    let mut coeffs: Vec<Scalar> = Vec::new();
    for _ in 0..degree + 1 {
        coeffs.push(fr_rand());
    }
    Poly { coeffs }
}

/// Runs one full commit / open / check round and asserts it verifies.
fn run_template(
    max_degree: usize,
    supported_degree: usize,
    num_polynomials: usize,
    enforce_degree_bounds: bool,
    num_points: usize,
) -> TestComponents {
    let pp = load_srs(max_degree).unwrap();
    let universal_verifier = pp.to_universal_verifier().unwrap();
    let rng = RandomSource::new();

    let mut polynomials: Vec<LabeledPolynomial> = Vec::new();
    let mut degree_bounds: Vec<usize> = Vec::new();
    for i in 0..num_polynomials {
        let degree = 1 + (i % supported_degree.max(1));
        let degree = degree.min(supported_degree);
        let bound = if enforce_degree_bounds && i % 2 == 0 {
            if !degree_bounds.contains(&degree) {
                degree_bounds.push(degree);
            }
            Some(degree)
        } else {
            None
        };
        polynomials.push(LabeledPolynomial::new(
            format!("Test{i}"),
            rand_poly(degree),
            bound,
            Some(1),
        ));
    }
    let degree_info = DegreeInfo {
        max_degree,
        max_fft_size: supported_degree,
        degree_bounds: Some(degree_bounds),
        hiding_bound: 1,
        lagrange_sizes: None,
    };
    let universal_prover = pp.to_universal_prover(degree_info).unwrap();

    let mut items: Vec<LabeledPolynomialWithBasis> = Vec::new();
    for p in &polynomials {
        items.push(LabeledPolynomialWithBasis::from_monomial(p.clone()));
    }
    let (commitments, randomness) = commit(&universal_prover, &items, Some(&rng)).unwrap();

    let mut query_set = QuerySet::new();
    let mut evaluations = Evaluations::new();
    for point_id in 0..num_points {
        let point = fr_rand();
        for p in &polynomials {
            query_set.insert((p.label().clone(), (format!("rand_{point_id}"), point.clone())));
            evaluations.insert((p.label().clone(), point.clone()), p.evaluate(&point));
        }
    }

    let mut sponge_for_open = Sponge::new();
    let proof = batch_open(
        &universal_prover,
        &polynomials,
        &query_set,
        &randomness,
        &mut sponge_for_open,
    )
        .unwrap();
    let mut sponge_for_check = Sponge::new();
    let result = batch_check(
        &universal_verifier,
        &commitments,
        &query_set,
        &evaluations,
        &proof,
        &mut sponge_for_check,
    )
        .unwrap();
    assert!(result, "proof was incorrect");

    TestComponents {
        universal_verifier,
        commitments,
        query_set,
        evaluations,
        batch_proof: Some(proof),
        batch_lc_proof: None,
        randomness,
    }
}

#[test]
fn linear_poly_degree_bound_test() {
    run_template(2, 1, 1, true, 1);
}

#[test]
fn single_poly_degree_bound_test() {
    run_template(8, 4, 1, true, 1);
}

#[test]
fn quadratic_poly_degree_bound_multiple_queries_test() {
    run_template(3, 2, 1, true, 2);
}

#[test]
fn single_poly_degree_bound_multiple_queries_test() {
    run_template(8, 4, 1, true, 2);
}

#[test]
fn two_polys_degree_bound_single_query_test() {
    run_template(8, 4, 2, true, 1);
}

#[test]
fn full_end_to_end_test() {
    run_template(8, 5, 4, true, 2);
}

#[test]
fn single_equation_test() {
    // one combination over one polynomial at one point
    let pp = load_srs(8).unwrap();
    let vk = pp.to_universal_verifier().unwrap();
    let degree_info = DegreeInfo {
        max_degree: 8,
        max_fft_size: 8,
        degree_bounds: Some(vec![]),
        hiding_bound: 1,
        lagrange_sizes: None,
    };
    let pk = pp.to_universal_prover(degree_info).unwrap();
    let rng = RandomSource::new();

    let p0 = LabeledPolynomial::new("Test0".to_string(), rand_poly(3), None, Some(1));
    let items = vec![LabeledPolynomialWithBasis::from_monomial(p0.clone())];
    let (comms, rands) = commit(&pk, &items, Some(&rng)).unwrap();

    let z = fr_rand();
    let c0 = fr_rand();
    let mut lc = LinearCombination::empty("eqn0".to_string());
    lc.add(c0.clone(), "Test0".to_string());
    let lcs = vec![lc];
    let v0 = fr_mul(&c0, &p0.evaluate(&z));

    let mut qs = QuerySet::new();
    qs.insert(("eqn0".to_string(), ("rand_0".to_string(), z.clone())));
    let mut values = Evaluations::new();
    values.insert(("eqn0".to_string(), z.clone()), v0);

    let polys = vec![p0];
    let mut sponge_open = Sponge::new();
    let proof = open_combinations(&pk, &lcs, &polys, &rands, &qs, &mut sponge_open).unwrap();
    let mut sponge_check = Sponge::new();
    let ok =
        check_combinations(&vk, &lcs, &comms, &qs, &values, &proof, &mut sponge_check).unwrap();
    assert!(ok);
}

#[test]
fn full_end_to_end_equation_test() {
    // combinations over three polynomials, two points
    let pp = load_srs(8).unwrap();
    let vk = pp.to_universal_verifier().unwrap();
    let degree_info = DegreeInfo {
        max_degree: 8,
        max_fft_size: 8,
        degree_bounds: Some(vec![]),
        hiding_bound: 1,
        lagrange_sizes: None,
    };
    let pk = pp.to_universal_prover(degree_info).unwrap();
    let rng = RandomSource::new();

    let mut polys: Vec<LabeledPolynomial> = Vec::new();
    let mut items: Vec<LabeledPolynomialWithBasis> = Vec::new();
    for i in 0..3usize {
        let p = LabeledPolynomial::new(format!("Test{i}"), rand_poly(1 + i), None, Some(1));
        items.push(LabeledPolynomialWithBasis::from_monomial(p.clone()));
        polys.push(p);
    }
    let (comms, rands) = commit(&pk, &items, Some(&rng)).unwrap();

    let mut lcs: Vec<LinearCombination> = Vec::new();
    let mut qs = QuerySet::new();
    let mut values = Evaluations::new();
    for point_id in 0..2usize {
        let z = fr_rand();
        let label = format!("query {point_id}");
        let mut lc = LinearCombination::empty(label.clone());
        let mut value: Option<Scalar> = None;
        for p in &polys {
            let coeff = fr_rand();
            let term = fr_mul(&coeff, &p.evaluate(&z));
            value = Some(match value {
                Some(v) => polycommit::scalar::fr_add(&v, &term),
                None => term,
            });
            lc.add(coeff, p.label().clone());
        }
        lcs.push(lc);
        qs.insert((label.clone(), (format!("rand_{point_id}"), z.clone())));
        values.insert((label, z), value.unwrap());
    }

    let mut sponge_open = Sponge::new();
    let proof = open_combinations(&pk, &lcs, &polys, &rands, &qs, &mut sponge_open).unwrap();
    let mut sponge_check = Sponge::new();
    let ok =
        check_combinations(&vk, &lcs, &comms, &qs, &values, &proof, &mut sponge_check).unwrap();
    assert!(ok);
}

#[test]
fn commitment_round_trip() {
    let pp = load_srs(4).unwrap();
    let degree_info = DegreeInfo {
        max_degree: 4,
        max_fft_size: 4,
        degree_bounds: Some(vec![2]),
        hiding_bound: 1,
        lagrange_sizes: None,
    };
    let pk = pp.to_universal_prover(degree_info).unwrap();
    let rng = RandomSource::new();
    let p = LabeledPolynomial::new("Test0".to_string(), rand_poly(2), Some(2), Some(1));
    let items = vec![LabeledPolynomialWithBasis::from_monomial(p)];
    let (comms, _rands) = commit(&pk, &items, Some(&rng)).unwrap();

    let bytes = comms[0].commitment().to_bytes();
    let back: Commitment = Commitment::from_bytes(&bytes).unwrap();
    assert!(g1_eq(&back.comm, &comms[0].commitment().comm));
    assert!(g1_eq(
        back.shifted_comm.as_ref().unwrap(),
        comms[0].commitment().shifted_comm.as_ref().unwrap(),
    ));

    // garbage does not decode
    assert!(Commitment::from_bytes(&vec![7u8; 13]).is_none());
}

#[test]
fn proof_round_trip() {
    let pp = load_srs(4).unwrap();
    let degree_info = DegreeInfo {
        max_degree: 4,
        max_fft_size: 4,
        degree_bounds: Some(vec![]),
        hiding_bound: 1,
        lagrange_sizes: None,
    };
    let pk = pp.to_universal_prover(degree_info).unwrap();
    let vk = pp.to_universal_verifier().unwrap();
    let rng = RandomSource::new();
    let p = LabeledPolynomial::new("Test0".to_string(), rand_poly(2), None, Some(1));
    let items = vec![LabeledPolynomialWithBasis::from_monomial(p.clone())];
    let (comms, rands) = commit(&pk, &items, Some(&rng)).unwrap();

    let z = fr_rand();
    let mut qs = QuerySet::new();
    qs.insert(("Test0".to_string(), ("rand".to_string(), z.clone())));
    let mut values = Evaluations::new();
    values.insert(("Test0".to_string(), z.clone()), p.evaluate(&z));

    let polys = vec![p];
    let mut sponge_open = Sponge::new();
    let proof = batch_open(&pk, &polys, &qs, &rands, &mut sponge_open).unwrap();

    let bytes = proof.to_bytes();
    let back: BatchProof = BatchProof::from_bytes(&bytes).unwrap();
    assert_eq!(back.witnesses.len(), proof.witnesses.len());
    for i in 0..back.witnesses.len() {
        assert!(g1_eq(&back.witnesses[i], &proof.witnesses[i]));
    }
    assert!(scalar_eq(&back.random_v, &proof.random_v));

    // the decoded proof verifies exactly as the original did
    let mut sponge_check = Sponge::new();
    let ok = batch_check(&vk, &comms, &qs, &values, &back, &mut sponge_check).unwrap();
    assert!(ok);

    // garbage does not decode
    assert!(BatchProof::from_bytes(&vec![1u8; 41]).is_none());
    assert!(BatchLCProof::from_bytes(&vec![]).is_none());
}

//! Randomized trials: many protocol rounds with freshly sampled degrees,
//! bounds, query counts and coefficients, every honest round verifying and a
//! corrupted round rejected.

use rand::RngExt;

use polycommit::data::{
    DegreeInfo, Evaluations, LabeledPolynomial, LabeledPolynomialWithBasis, LinearCombination,
    QuerySet,
};
use polycommit::kzg::{RandomSource, batch_check, batch_open, commit, load_srs};
use polycommit::lc::{check_combinations, open_combinations};
use polycommit::poly::Poly;
use polycommit::scalar::{Scalar, fr_add, fr_mul, fr_rand, scalar_one};
use polycommit::sponge::Sponge;

fn rand_poly(degree: usize) -> Poly {
    let mut coeffs: Vec<Scalar> = Vec::new();
    for _ in 0..degree + 1 {
        coeffs.push(fr_rand());
    }
    Poly { coeffs }
}

#[test]
fn randomized_batch_trials() {
    let mut shape = rand::rng();
    let max_degree: usize = 8;
    let pp = load_srs(max_degree).unwrap();
    let vk = pp.to_universal_verifier().unwrap();
    let rng = RandomSource::new();

    for trial in 0..12 {
        let supported: usize = shape.random_range(2..=max_degree);
        let num_polys: usize = shape.random_range(1..=2);
        let num_points: usize = shape.random_range(1..=2);
        let enforce_bounds: bool = shape.random_range(0..2) == 0;

        let mut polynomials: Vec<LabeledPolynomial> = Vec::new();
        let mut bounds: Vec<usize> = Vec::new();
        for i in 0..num_polys {
            let degree: usize = shape.random_range(1..=supported);
            let bound = if enforce_bounds && shape.random_range(0..2) == 0 {
                let b: usize = shape.random_range(degree..=supported);
                if !bounds.contains(&b) {
                    bounds.push(b);
                }
                Some(b)
            } else {
                None
            };
            polynomials.push(LabeledPolynomial::new(
                format!("Test{i}"),
                rand_poly(degree),
                bound,
                Some(1),
            ));
        }
        let degree_info = DegreeInfo {
            max_degree,
            max_fft_size: supported,
            degree_bounds: Some(bounds),
            hiding_bound: 1,
            lagrange_sizes: None,
        };
        let pk = pp.to_universal_prover(degree_info).unwrap();

        let mut items: Vec<LabeledPolynomialWithBasis> = Vec::new();
        for p in &polynomials {
            items.push(LabeledPolynomialWithBasis::from_monomial(p.clone()));
        }
        let (comms, rands) = commit(&pk, &items, Some(&rng)).unwrap();

        let mut qs = QuerySet::new();
        let mut values = Evaluations::new();
        for point_id in 0..num_points {
            let point = fr_rand();
            for p in &polynomials {
                qs.insert((p.label().clone(), (format!("rand_{point_id}"), point.clone())));
                values.insert((p.label().clone(), point.clone()), p.evaluate(&point));
            }
        }

        let mut sponge_open = Sponge::new();
        let proof = batch_open(&pk, &polynomials, &qs, &rands, &mut sponge_open).unwrap();
        let mut sponge_check = Sponge::new();
        let ok = batch_check(&vk, &comms, &qs, &values, &proof, &mut sponge_check).unwrap();
        assert!(ok, "honest trial {trial} did not verify");

        // every fourth trial, corrupt one claimed value and expect rejection
        if trial % 4 == 0 {
            let mut bad = Evaluations::new();
            for e in &values.entries {
                bad.insert(e.0.clone(), fr_add(&e.1, &scalar_one()));
            }
            let mut sponge_bad = Sponge::new();
            let rejected = !batch_check(&vk, &comms, &qs, &bad, &proof, &mut sponge_bad).unwrap();
            assert!(rejected, "corrupted trial {trial} verified");
        }
    }
}

#[test]
fn randomized_equation_trials() {
    let mut shape = rand::rng();
    let max_degree: usize = 8;
    let pp = load_srs(max_degree).unwrap();
    let vk = pp.to_universal_verifier().unwrap();
    let rng = RandomSource::new();

    for trial in 0..6 {
        let num_polys: usize = shape.random_range(1..=2);
        let num_eqns: usize = shape.random_range(1..=2);

        let mut polynomials: Vec<LabeledPolynomial> = Vec::new();
        for i in 0..num_polys {
            let degree: usize = shape.random_range(1..=4);
            polynomials.push(LabeledPolynomial::new(
                format!("Test{i}"),
                rand_poly(degree),
                None,
                Some(1),
            ));
        }
        let degree_info = DegreeInfo {
            max_degree,
            max_fft_size: max_degree,
            degree_bounds: Some(vec![]),
            hiding_bound: 1,
            lagrange_sizes: None,
        };
        let pk = pp.to_universal_prover(degree_info).unwrap();

        let mut items: Vec<LabeledPolynomialWithBasis> = Vec::new();
        for p in &polynomials {
            items.push(LabeledPolynomialWithBasis::from_monomial(p.clone()));
        }
        let (comms, rands) = commit(&pk, &items, Some(&rng)).unwrap();

        let z = fr_rand();
        let mut lcs: Vec<LinearCombination> = Vec::new();
        let mut qs = QuerySet::new();
        let mut values = Evaluations::new();
        for j in 0..num_eqns {
            let label = format!("eqn{j}");
            let mut lc = LinearCombination::empty(label.clone());
            let mut value: Option<Scalar> = None;
            for p in &polynomials {
                let coeff = fr_rand();
                let term = fr_mul(&coeff, &p.evaluate(&z));
                value = Some(match value {
                    Some(v) => fr_add(&v, &term),
                    None => term,
                });
                lc.add(coeff, p.label().clone());
            }
            lcs.push(lc);
            qs.insert((label.clone(), ("rand_0".to_string(), z.clone())));
            values.insert((label, z.clone()), value.unwrap());
        }

        let mut sponge_open = Sponge::new();
        let proof =
            open_combinations(&pk, &lcs, &polynomials, &rands, &qs, &mut sponge_open).unwrap();
        let mut sponge_check = Sponge::new();
        let ok = check_combinations(&vk, &lcs, &comms, &qs, &values, &proof, &mut sponge_check)
            .unwrap();
        assert!(ok, "honest equation trial {trial} did not verify");
    }
}

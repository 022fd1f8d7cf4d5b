//! Field arithmetic, sponge and polynomial arithmetic behave as stated on
//! concrete values.

use polycommit::poly::Poly;
use polycommit::scalar::{
    Scalar, fr_add, fr_inv, fr_mul, fr_pow, fr_rand, fr_root_of_unity, fr_sub, scalar_eq,
    scalar_from_u64, scalar_one, scalar_zero,
};
use polycommit::sponge::Sponge;

fn s(u: u64) -> Scalar {
    scalar_from_u64(u)
}

fn poly(coeffs: &[u64]) -> Poly {
    let mut v: Vec<Scalar> = Vec::new();
    for c in coeffs {
        v.push(s(*c));
    }
    Poly { coeffs: v }
}

#[test]
fn addition_matches_integers() {
    assert!(scalar_eq(&fr_add(&s(5), &s(7)), &s(12)));
    assert!(scalar_eq(&fr_add(&s(0), &s(0)), &scalar_zero()));
    assert!(!scalar_eq(&fr_add(&s(5), &s(7)), &s(13)));
}

#[test]
fn multiplication_matches_integers() {
    assert!(scalar_eq(&fr_mul(&s(6), &s(7)), &s(42)));
    assert!(scalar_eq(&fr_mul(&s(123456), &scalar_one()), &s(123456)));
    assert!(scalar_eq(&fr_mul(&s(123456), &scalar_zero()), &scalar_zero()));
}

#[test]
fn subtraction_inverts_addition() {
    let a = s(5);
    let b = s(7);
    let d = fr_sub(&a, &b);
    assert!(scalar_eq(&fr_add(&d, &b), &a));
    assert!(!scalar_eq(&d, &fr_sub(&b, &a)));
}

#[test]
fn inverse_gives_one() {
    let a = s(12345);
    let inv = fr_inv(&a).unwrap();
    assert!(scalar_eq(&fr_mul(&a, &inv), &scalar_one()));
    assert!(fr_inv(&scalar_zero()).is_none());
}

#[test]
fn powers_match_integers() {
    assert!(scalar_eq(&fr_pow(&s(2), 10), &s(1024)));
    assert!(scalar_eq(&fr_pow(&s(7), 0), &scalar_one()));
}

#[test]
fn random_scalars_differ() {
    let a = fr_rand();
    let b = fr_rand();
    assert!(!scalar_eq(&a, &b));
}

#[test]
fn root_of_unity_has_exact_order() {
    let omega = fr_root_of_unity(8).unwrap();
    assert!(scalar_eq(&fr_pow(&omega, 8), &scalar_one()));
    assert!(!scalar_eq(&fr_pow(&omega, 4), &scalar_one()));
    assert!(fr_root_of_unity(3).is_none());
}

#[test]
fn sponge_is_deterministic_and_input_sensitive() {
    let mut s1 = Sponge::new();
    let mut s2 = Sponge::new();
    s1.absorb(&s(42));
    s2.absorb(&s(42));
    let c1 = s1.squeeze();
    let c2 = s2.squeeze();
    assert!(scalar_eq(&c1, &c2));

    let mut s3 = Sponge::new();
    s3.absorb(&s(43));
    let c3 = s3.squeeze();
    assert!(!scalar_eq(&c1, &c3));

    let d1 = s1.squeeze();
    assert!(!scalar_eq(&c1, &d1));
}

#[test]
fn evaluation_matches_integers() {
    // 3 + 2x + x^2 at x = 2 gives 11
    let p = poly(&[3, 2, 1]);
    assert!(scalar_eq(&p.evaluate(&s(2)), &s(11)));
    assert!(scalar_eq(&Poly::zero().evaluate(&s(9)), &scalar_zero()));
}

#[test]
fn division_by_linear_gives_quotient_and_value() {
    // x^2 + 5x + 6 divided by (x - 1): quotient x + 6, remainder 12
    let p = poly(&[6, 5, 1]);
    let (q, rem) = p.divide_by_linear(&s(1));
    assert!(scalar_eq(&rem, &s(12)));
    assert_eq!(q.coeffs.len(), 2);
    assert!(scalar_eq(&q.coeffs[0], &s(6)));
    assert!(scalar_eq(&q.coeffs[1], &s(1)));
    // check the identity q(x)(x - z) + p(z) == p(x) at x = 5
    let x = s(5);
    let lhs = fr_add(&fr_mul(&q.evaluate(&x), &fr_sub(&x, &s(1))), &rem);
    assert!(scalar_eq(&lhs, &p.evaluate(&x)));
}

#[test]
fn add_scaled_is_linear_at_a_point() {
    let a = poly(&[1, 2, 3]);
    let b = poly(&[4, 5]);
    let k = s(7);
    let c = a.add_scaled(&k, &b);
    let x = s(9);
    let want = fr_add(&a.evaluate(&x), &fr_mul(&k, &b.evaluate(&x)));
    assert!(scalar_eq(&c.evaluate(&x), &want));
}

//! Dense univariate polynomials over the scalar field, with verified
//! evaluation, scaled addition, coefficient shifting and division by a linear
//! factor — the polynomial arithmetic the opening protocol is built from.

use vstd::prelude::*;

use crate::scalar::{
    Scalar, fr_add, fr_mul, fr_order, le_int, scalar_zero,
};
use vstd::arithmetic::div_mod::{lemma_add_mod_noop, lemma_small_mod};

verus! {

/// The integer values of a coefficient vector.
pub open spec fn vals(s: Seq<Scalar>) -> Seq<int> {
    s.map_values(|c: Scalar| c@)
}

/// Horner evaluation of a coefficient sequence at a point, modulo the field
/// order.
pub open spec fn spec_eval(c: Seq<int>, x: int) -> int
    decreases c.len(),
{
    if c.len() == 0 {
        0
    } else {
        (c[0] + x * spec_eval(c.skip(1), x)) % fr_order()
    }
}

/// The coefficient at `i`, reading absent positions as zero.
pub open spec fn coeff_or_zero(c: Seq<int>, i: int) -> int {
    if 0 <= i < c.len() {
        c[i]
    } else {
        0
    }
}

/// The coefficients of `a + k * b`, padded to the longer operand.
pub open spec fn spec_add_scaled(a: Seq<int>, k: int, b: Seq<int>) -> Seq<int> {
    Seq::new(
        if a.len() >= b.len() {
            a.len()
        } else {
            b.len()
        },
        |i: int| (coeff_or_zero(a, i) + k * coeff_or_zero(b, i)) % fr_order(),
    )
}

/// The coefficients of `X^k * b`.
pub open spec fn spec_shift(b: Seq<int>, k: nat) -> Seq<int> {
    Seq::new(b.len() + k, |i: int| if i < k { 0 } else { b[i - k] })
}

/// The quotient of a polynomial by `X - z`: each coefficient is the Horner
/// evaluation of the coefficients above it.
pub open spec fn spec_quot(c: Seq<int>, z: int) -> Seq<int> {
    Seq::new(
        if c.len() == 0 {
            0
        } else {
            (c.len() - 1) as nat
        },
        |i: int| spec_eval(c.skip(i + 1), z),
    )
}

/// A dense polynomial; the coefficient of `X^i` sits at index `i`.
pub struct Poly {
    pub coeffs: Vec<Scalar>,
}

impl View for Poly {
    type V = Seq<int>;

    open spec fn view(&self) -> Seq<int> {
        vals(self.coeffs@)
    }
}

impl Clone for Poly {
    fn clone(&self) -> (r: Self)
        ensures
            r@ == self@,
            self.wf() ==> r.wf(),
    {
        let mut out: Vec<Scalar> = Vec::new();
        let mut i: usize = 0;
        while i < self.coeffs.len()
            invariant
                i <= self.coeffs@.len(),
                out@.len() == i,
                forall|j: int| 0 <= j < i ==> (#[trigger] out@[j])@ == self.coeffs@[j]@,
                forall|j: int|
                    0 <= j < i ==> (#[trigger] out@[j]).wf() == self.coeffs@[j].wf(),
            decreases self.coeffs@.len() - i,
        {
            out.push(self.coeffs[i].clone());
            i = i + 1;
        }
        let r = Poly { coeffs: out };
        proof {
            assert(r@ =~= self@);
            assert(forall|j: int|
                0 <= j < r.coeffs@.len() ==> (#[trigger] r.coeffs@[j]).wf()
                    == self.coeffs@[j].wf());
            if self.wf() {
                assert(r.wf());
            }
        }
        r
    }
}

impl Poly {
    pub open spec fn wf(&self) -> bool {
        forall|i: int| 0 <= i < self.coeffs@.len() ==> (#[trigger] self.coeffs@[i]).wf()
    }

    /// The zero polynomial.
    pub fn zero() -> (r: Poly)
        ensures
            r.wf(),
            r@ =~= Seq::<int>::empty(),
    {
        Poly { coeffs: Vec::new() }
    }

    /// The declared degree: one less than the coefficient count.
    pub fn degree(&self) -> (r: usize)
        ensures
            r == if self@.len() == 0 {
                0int
            } else {
                self@.len() - 1
            },
    {
        if self.coeffs.len() == 0 {
            0
        } else {
            self.coeffs.len() - 1
        }
    }

    /// Evaluates the polynomial at a point by Horner's rule.
    pub fn evaluate(&self, x: &Scalar) -> (r: Scalar)
        requires
            self.wf(),
            x.wf(),
        ensures
            r.wf(),
            r@ == spec_eval(self@, x@),
    {
        let mut acc: Scalar = scalar_zero();
        let mut i: usize = self.coeffs.len();
        proof {
            assert(self@.skip(self@.len() as int) =~= Seq::<int>::empty());
        }
        while i > 0
            invariant
                i <= self.coeffs@.len(),
                self.wf(),
                x.wf(),
                acc.wf(),
                acc@ == spec_eval(self@.skip(i as int), x@),
            decreases i,
        {
            i = i - 1;
            let prod = fr_mul(x, &acc);
            let next = fr_add(&self.coeffs[i], &prod);
            proof {
                assert(self@.skip(i as int)[0] == self@[i as int]);
                assert(self@.skip(i as int).skip(1) =~= self@.skip(i + 1));
                assert(self@[i as int] == self.coeffs@[i as int]@);
                lemma_small_mod(self@[i as int] as nat, fr_order() as nat);
                lemma_add_mod_noop(self@[i as int], x@ * acc@, fr_order());
            }
            acc = next;
        }
        proof {
            assert(self@.skip(0) =~= self@);
        }
        acc
    }

    /// The coefficients of `self + k * other`, padded to the longer operand.
    pub fn add_scaled(&self, k: &Scalar, other: &Poly) -> (r: Poly)
        requires
            self.wf(),
            k.wf(),
            other.wf(),
        ensures
            r.wf(),
            r@ =~= spec_add_scaled(self@, k@, other@),
    {
        let n: usize = if self.coeffs.len() >= other.coeffs.len() {
            self.coeffs.len()
        } else {
            other.coeffs.len()
        };
        let mut out: Vec<Scalar> = Vec::new();
        let mut i: usize = 0;
        while i < n
            invariant
                i <= n,
                self.wf(),
                k.wf(),
                other.wf(),
                n == if self@.len() >= other@.len() {
                    self@.len()
                } else {
                    other@.len()
                },
                out@.len() == i,
                forall|j: int| 0 <= j < i ==> (#[trigger] out@[j]).wf(),
                forall|j: int|
                    0 <= j < i ==> (#[trigger] out@[j])@ == (coeff_or_zero(self@, j) + k@
                        * coeff_or_zero(other@, j)) % fr_order(),
            decreases n - i,
        {
            let a: Scalar = if i < self.coeffs.len() {
                self.coeffs[i].clone()
            } else {
                scalar_zero()
            };
            let b: Scalar = if i < other.coeffs.len() {
                other.coeffs[i].clone()
            } else {
                scalar_zero()
            };
            let prod = fr_mul(k, &b);
            let entry = fr_add(&a, &prod);
            proof {
                lemma_small_mod(a@ as nat, fr_order() as nat);
                lemma_add_mod_noop(a@, k@ * b@, fr_order());
            }
            out.push(entry);
            i = i + 1;
        }
        Poly { coeffs: out }
    }

    /// The coefficients of `X^k * self`.
    pub fn shift(&self, k: usize) -> (r: Poly)
        requires
            self.wf(),
            self@.len() + k <= usize::MAX,
        ensures
            r.wf(),
            r@ =~= spec_shift(self@, k as nat),
    {
        let mut out: Vec<Scalar> = Vec::new();
        let mut i: usize = 0;
        while i < k
            invariant
                i <= k,
                out@.len() == i,
                forall|j: int| 0 <= j < i ==> (#[trigger] out@[j]).wf(),
                forall|j: int| 0 <= j < i ==> (#[trigger] out@[j])@ == 0,
            decreases k - i,
        {
            out.push(scalar_zero());
            i = i + 1;
        }
        let mut m: usize = 0;
        while m < self.coeffs.len()
            invariant
                m <= self.coeffs@.len(),
                self.wf(),
                out@.len() == k + m,
                forall|j: int| 0 <= j < k + m ==> (#[trigger] out@[j]).wf(),
                forall|j: int| 0 <= j < k ==> (#[trigger] out@[j])@ == 0,
                forall|j: int| k <= j < k + m ==> (#[trigger] out@[j])@ == self@[j - k],
            decreases self.coeffs@.len() - m,
        {
            out.push(self.coeffs[m].clone());
            m = m + 1;
        }
        Poly { coeffs: out }
    }

    /// Divides by `X - z`: returns the quotient and the remainder, which is
    /// the value of the polynomial at `z`.  Each quotient coefficient is the
    /// Horner evaluation of the coefficients above it.
    pub fn divide_by_linear(&self, z: &Scalar) -> (r: (Poly, Scalar))
        requires
            self.wf(),
            z.wf(),
        ensures
            r.0.wf(),
            r.1.wf(),
            r.0@.len() == if self@.len() == 0 {
                0int
            } else {
                self@.len() - 1
            },
            forall|j: int| 0 <= j < r.0@.len() ==> r.0@[j] == spec_eval(self@.skip(j + 1), z@),
            r.0@ == spec_quot(self@, z@),
            r.1@ == spec_eval(self@, z@),
    {
        let mut rev: Vec<Scalar> = Vec::new();
        let mut acc: Scalar = scalar_zero();
        let mut i: usize = self.coeffs.len();
        proof {
            assert(self@.skip(self@.len() as int) =~= Seq::<int>::empty());
        }
        while i > 0
            invariant
                i <= self.coeffs@.len(),
                self.wf(),
                z.wf(),
                acc.wf(),
                acc@ == spec_eval(self@.skip(i as int), z@),
                rev@.len() == self.coeffs@.len() - i,
                forall|j: int| 0 <= j < rev@.len() ==> (#[trigger] rev@[j]).wf(),
                forall|j: int|
                    0 <= j < rev@.len() ==> (#[trigger] rev@[j])@ == spec_eval(
                        self@.skip(self@.len() - j),
                        z@,
                    ),
            decreases i,
        {
            i = i - 1;
            rev.push(acc.clone());
            let prod = fr_mul(z, &acc);
            let next = fr_add(&self.coeffs[i], &prod);
            proof {
                assert(self@.skip(i as int)[0] == self@[i as int]);
                assert(self@.skip(i as int).skip(1) =~= self@.skip(i + 1));
                assert(self@[i as int] == self.coeffs@[i as int]@);
                lemma_small_mod(self@[i as int] as nat, fr_order() as nat);
                lemma_add_mod_noop(self@[i as int], z@ * acc@, fr_order());
            }
            acc = next;
        }
        let mut q: Vec<Scalar> = Vec::new();
        let n: usize = rev.len();
        let mut m: usize = 0;
        while m + 1 < n
            invariant
                n == rev@.len(),
                n >= 1 ==> m + 1 <= n,
                n == 0 ==> m == 0,
                forall|j: int| 0 <= j < rev@.len() ==> (#[trigger] rev@[j]).wf(),
                forall|j: int|
                    0 <= j < rev@.len() ==> (#[trigger] rev@[j])@ == spec_eval(
                        self@.skip(self@.len() - j),
                        z@,
                    ),
                q@.len() == m,
                forall|j: int| 0 <= j < m ==> (#[trigger] q@[j]).wf(),
                forall|j: int|
                    0 <= j < m ==> (#[trigger] q@[j])@ == spec_eval(self@.skip(j + 1), z@),
                self@.len() == rev@.len(),
            decreases n - m,
        {
            let idx: usize = n - 1 - m;
            q.push(rev[idx].clone());
            proof {
                assert(rev@[idx as int]@ == spec_eval(self@.skip(self@.len() - idx), z@));
            }
            m = m + 1;
        }
        proof {
            assert(self@.skip(0) =~= self@);
            assert(vals(q@) =~= spec_quot(self@, z@));
        }
        (Poly { coeffs: q }, acc)
    }
}

/// Multiplying by a reduced factor gives the same residue as multiplying by
/// the factor itself, on the left.
proof fn lemma_mul_mod_right(a: int, b: int, m: int)
    requires
        m > 0,
    ensures
        ((a % m) * b) % m == (a * b) % m,
{
    crate::scalar::lemma_mul_mod_left(b, a, m);
    assert(b * (a % m) == (a % m) * b) by (nonlinear_arith);
    assert(b * a == a * b) by (nonlinear_arith);
}

/// Dropping the reduction of either summand does not change the residue.
pub proof fn lemma_add_mod_l(a: int, b: int, m: int)
    requires
        m > 0,
    ensures
        ((a % m) + b) % m == (a + b) % m,
        (a + (b % m)) % m == (a + b) % m,
{
    lemma_add_mod_noop(a, b, m);
    vstd::arithmetic::div_mod::lemma_mod_twice(a, m);
    vstd::arithmetic::div_mod::lemma_mod_twice(b, m);
    lemma_add_mod_noop(a % m, b, m);
    lemma_add_mod_noop(a, b % m, m);
}

/// Evaluation is linear: evaluating `a + k * b` gives the weighted sum of
/// the evaluations, modulo the field order.
pub proof fn lemma_eval_add_scaled(a: Seq<int>, k: int, b: Seq<int>, x: int)
    ensures
        spec_eval(spec_add_scaled(a, k, b), x) == (spec_eval(a, x) + k * spec_eval(b, x))
            % fr_order(),
    decreases a.len() + b.len(),
{
    let p = fr_order();
    let s = spec_add_scaled(a, k, b);
    if s.len() == 0 {
        assert(a.len() == 0 && b.len() == 0);
        assert((0 + k * 0) % p == 0) by (nonlinear_arith)
            requires
                p > 1,
        ;
    } else {
        let a1 = if a.len() == 0 {
            a
        } else {
            a.skip(1)
        };
        let b1 = if b.len() == 0 {
            b
        } else {
            b.skip(1)
        };
        assert(s.skip(1) =~= spec_add_scaled(a1, k, b1)) by {
            assert forall|i: int| 0 <= i < s.len() - 1 implies s.skip(1)[i] == spec_add_scaled(
                a1,
                k,
                b1,
            )[i] by {
                assert(s.skip(1)[i] == s[i + 1]);
                assert(coeff_or_zero(a, i + 1) == coeff_or_zero(a1, i));
                assert(coeff_or_zero(b, i + 1) == coeff_or_zero(b1, i));
            }
        }
        lemma_eval_add_scaled(a1, k, b1, x);
        let ea = spec_eval(a1, x);
        let eb = spec_eval(b1, x);
        let a0 = coeff_or_zero(a, 0);
        let b0 = coeff_or_zero(b, 0);
        assert(spec_eval(s, x) == ((a0 + k * b0) % p + x * ((ea + k * eb) % p)) % p);
        lemma_add_mod_l(a0 + k * b0, x * ((ea + k * eb) % p), p);
        crate::scalar::lemma_mul_mod_left(x, ea + k * eb, p);
        lemma_add_mod_l(a0 + k * b0, x * (ea + k * eb), p);
        assert(a0 + k * b0 + x * (ea + k * eb) == (a0 + x * ea) + k * (b0 + x * eb))
            by (nonlinear_arith);
        // the weighted sum of the two evaluations reduces to the same residue
        if a.len() == 0 {
            assert(spec_eval(a, x) == 0);
            assert(ea == 0);
            assert(b.len() > 0);
            assert(spec_eval(b, x) == (b[0] + x * eb) % p);
            assert(a0 == 0 && b0 == b[0]);
            crate::scalar::lemma_mul_mod_left(k, b0 + x * eb, p);
            lemma_add_mod_l(0 + x * 0, k * (b0 + x * eb), p);
            assert((spec_eval(a, x) + k * spec_eval(b, x)) % p == (0 + k * ((b0 + x * eb) % p))
                % p);
        } else if b.len() == 0 {
            assert(spec_eval(b, x) == 0);
            assert(eb == 0);
            assert(spec_eval(a, x) == (a[0] + x * ea) % p);
            assert(b0 == 0 && a0 == a[0]);
            assert(k * 0 == 0) by (nonlinear_arith);
            lemma_add_mod_l(a0 + x * ea, k * 0, p);
            assert((a0 + x * ea) % p + 0 == (a0 + x * ea) % p);
            lemma_add_mod_l(a0 + x * ea, 0, p);
            vstd::arithmetic::div_mod::lemma_mod_twice(a0 + x * ea, p);
        } else {
            assert(spec_eval(a, x) == (a[0] + x * ea) % p);
            assert(spec_eval(b, x) == (b[0] + x * eb) % p);
            assert(a0 == a[0] && b0 == b[0]);
            crate::scalar::lemma_mul_mod_left(k, b0 + x * eb, p);
            lemma_add_mod_l((a0 + x * ea), k * ((b0 + x * eb) % p), p);
            lemma_add_mod_l((a0 + x * ea), k * (b0 + x * eb), p);
        }
    }
}

/// Shifting multiplies the evaluation by the corresponding power of the
/// point.
pub proof fn lemma_eval_shift(b: Seq<int>, k: nat, x: int)
    ensures
        spec_eval(spec_shift(b, k), x) == (crate::scalar::pow_mod(x, k) * spec_eval(b, x))
            % fr_order(),
    decreases k,
{
    let p = fr_order();
    if k == 0 {
        assert(spec_shift(b, 0) =~= b);
        if b.len() == 0 {
            assert((1int * 0int) % p == 0int) by (nonlinear_arith)
                requires
                    p > 1,
            ;
        } else {
            assert(1 * spec_eval(b, x) == spec_eval(b, x)) by (nonlinear_arith);
            vstd::arithmetic::div_mod::lemma_mod_twice(b[0] + x * spec_eval(b.skip(1), x), p);
        }
    } else {
        lemma_eval_shift(b, (k - 1) as nat, x);
        let s = spec_shift(b, k);
        assert(s.len() == b.len() + k);
        assert(s[0] == 0);
        assert(s.skip(1) =~= spec_shift(b, (k - 1) as nat));
        let e = spec_eval(b, x);
        let pk1 = crate::scalar::pow_mod(x, (k - 1) as nat);
        assert(spec_eval(s, x) == (0 + x * ((pk1 * e) % p)) % p);
        crate::scalar::lemma_mul_mod_left(x, pk1 * e, p);
        assert((x * (pk1 * e)) % p == ((x * pk1) * e) % p) by {
            assert(x * (pk1 * e) == (x * pk1) * e) by (nonlinear_arith);
        }
        lemma_mul_mod_right(x * pk1, e, p);
        assert(crate::scalar::pow_mod(x, k) == (x * pk1) % p);
    }
}

/// Division by `X - z` is exact up to the remainder: for every point, the
/// quotient times `X - z` plus the value at `z` gives back the polynomial's
/// value, modulo the field order.
#[verifier::rlimit(50)]
pub proof fn lemma_division_identity(c: Seq<int>, z: int, x: int)
    ensures
        (spec_eval(spec_quot(c, z), x) * (x - z) + spec_eval(c, z)) % fr_order() == spec_eval(
            c,
            x,
        ) % fr_order(),
    decreases c.len(),
{
    let p = fr_order();
    let q = spec_quot(c, z);
    if c.len() == 0 {
        assert(q.len() == 0);
        assert(spec_eval(q, x) == 0 && spec_eval(c, z) == 0 && spec_eval(c, x) == 0);
        assert(0 * (x - z) == 0) by (nonlinear_arith);
    } else if c.len() == 1 {
        assert(q.len() == 0);
        assert(spec_eval(q, x) == 0);
        assert(0 * (x - z) == 0) by (nonlinear_arith);
        vstd::arithmetic::div_mod::lemma_mod_twice(c[0] + z * spec_eval(c.skip(1), z), p);
        vstd::arithmetic::div_mod::lemma_mod_twice(c[0] + x * spec_eval(c.skip(1), x), p);
        assert(spec_eval(c.skip(1), z) == 0 && spec_eval(c.skip(1), x) == 0);
    } else {
        assert(c.skip(1).len() == c.len() - 1);
        lemma_division_identity(c.skip(1), z, x);
        let cap_a = spec_eval(c.skip(1), z);
        let cap_b = spec_eval(spec_quot(c.skip(1), z), x);
        let cap_c = spec_eval(c.skip(1), x);
        assert(q.skip(1) =~= spec_quot(c.skip(1), z)) by {
            assert forall|i: int| 0 <= i < q.len() - 1 implies q.skip(1)[i] == spec_quot(
                c.skip(1),
                z,
            )[i] by {
                assert(q.skip(1)[i] == q[i + 1]);
                assert(q[i + 1] == spec_eval(c.skip(i + 2), z));
                assert(c.skip(1).skip(i + 1) =~= c.skip(i + 2));
            }
        }
        assert(q[0] == spec_eval(c.skip(1), z));
        assert(spec_eval(q, x) == (cap_a + x * cap_b) % p);
        assert(spec_eval(c, z) == (c[0] + z * cap_a) % p);
        assert(spec_eval(c, x) == (c[0] + x * cap_c) % p);
        let s_red = (cap_a + x * cap_b) % p;
        // replace the reduced remainder, then the reduced quotient value
        lemma_add_mod_l(s_red * (x - z), c[0] + z * cap_a, p);
        assert((s_red * (x - z) + spec_eval(c, z)) % p == (s_red * (x - z) + (c[0] + z * cap_a))
            % p);
        lemma_add_mod_l(s_red * (x - z), c[0] + z * cap_a, p);
        lemma_mul_mod_right(cap_a + x * cap_b, x - z, p);
        lemma_add_mod_l((cap_a + x * cap_b) * (x - z), c[0] + z * cap_a, p);
        assert((s_red * (x - z) + (c[0] + z * cap_a)) % p == ((s_red * (x - z)) % p + (c[0] + z
            * cap_a)) % p) by {
            lemma_add_mod_l(s_red * (x - z), c[0] + z * cap_a, p);
            vstd::arithmetic::div_mod::lemma_mod_twice(s_red * (x - z), p);
        }
        assert(((s_red * (x - z)) % p + (c[0] + z * cap_a)) % p == (((cap_a + x * cap_b) * (x - z))
            % p + (c[0] + z * cap_a)) % p);
        assert((((cap_a + x * cap_b) * (x - z)) % p + (c[0] + z * cap_a)) % p == ((cap_a + x
            * cap_b) * (x - z) + (c[0] + z * cap_a)) % p);
        // ring identity
        assert((cap_a + x * cap_b) * (x - z) + (c[0] + z * cap_a) == c[0] + x * (cap_a + cap_b * (
        x - z))) by (nonlinear_arith);
        // fold the inductive residue back in
        assert((cap_b * (x - z) + cap_a) % p == cap_c % p);
        assert(cap_a + cap_b * (x - z) == cap_b * (x - z) + cap_a);
        vstd::arithmetic::div_mod::lemma_mod_twice(cap_c, p);
        assert(cap_c % p == cap_c);
        crate::scalar::lemma_mul_mod_left(x, cap_a + cap_b * (x - z), p);
        assert((x * ((cap_a + cap_b * (x - z)) % p)) % p == (x * (cap_a + cap_b * (x - z))) % p);
        assert((cap_a + cap_b * (x - z)) % p == cap_c);
        assert((x * cap_c) % p == (x * (cap_a + cap_b * (x - z))) % p);
        lemma_add_mod_l(c[0], x * (cap_a + cap_b * (x - z)), p);
        lemma_add_mod_l(c[0], x * cap_c, p);
        assert((c[0] + x * (cap_a + cap_b * (x - z))) % p == (c[0] + (x * (cap_a + cap_b * (x - z)))
            % p) % p) by {
            lemma_add_mod_l(c[0], x * (cap_a + cap_b * (x - z)), p);
            vstd::arithmetic::div_mod::lemma_mod_twice(x * (cap_a + cap_b * (x - z)), p);
        }
        assert((c[0] + (x * cap_c) % p) % p == (c[0] + x * cap_c) % p) by {
            lemma_add_mod_l(c[0], x * cap_c, p);
            vstd::arithmetic::div_mod::lemma_mod_twice(x * cap_c, p);
        }
        vstd::arithmetic::div_mod::lemma_mod_twice(c[0] + x * cap_c, p);
        assert(spec_eval(c, x) % p == (c[0] + x * cap_c) % p);
    }
}

} // verus!

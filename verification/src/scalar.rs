//! Scalar-field elements of BLS12-377, carried as canonical 32-byte
//! little-endian encodings so that contracts can speak of their integer value.

use vstd::prelude::*;
use vstd::arithmetic::div_mod::{
    lemma_fundamental_div_mod, lemma_fundamental_div_mod_converse, lemma_small_mod,
};

use snarkvm_curves::bls12_377::Fr;
use snarkvm_fields::{FftField, Field};
use snarkvm_utilities::{FromBytes, ToBytes, rand::Uniform};

verus! {

/// The order of the BLS12-377 scalar field.
pub open spec fn fr_order() -> int {
    8444461749428370424248824938781546531375899335154063827935233455917409239041int
}

/// 256 to the power `n`.
pub open spec fn pow256(n: nat) -> int
    decreases n,
{
    if n == 0 {
        1
    } else {
        256 * pow256((n - 1) as nat)
    }
}

/// Little-endian integer value of a byte sequence.
pub open spec fn le_int(s: Seq<u8>) -> int
    decreases s.len(),
{
    if s.len() == 0 {
        0
    } else {
        s[0] + 256 * le_int(s.skip(1))
    }
}

pub proof fn lemma_pow256_pos(n: nat)
    ensures
        pow256(n) >= 1,
    decreases n,
{
    if n > 0 {
        lemma_pow256_pos((n - 1) as nat);
    }
}

/// Powers of 256 grow with the exponent.
pub proof fn lemma_pow256_mono(a: nat, b: nat)
    requires
        a <= b,
    ensures
        pow256(a) <= pow256(b),
    decreases b,
{
    if a < b {
        lemma_pow256_mono(a, (b - 1) as nat);
        lemma_pow256_pos((b - 1) as nat);
    }
}

pub proof fn lemma_le_int_bounds(s: Seq<u8>)
    ensures
        0 <= le_int(s) < pow256(s.len()),
    decreases s.len(),
{
    if s.len() == 0 {
    } else {
        lemma_le_int_bounds(s.skip(1));
    }
}

/// Appending a byte raises the value by that byte times the old weight.
pub proof fn lemma_le_int_push(s: Seq<u8>, v: u8)
    ensures
        le_int(s.push(v)) == le_int(s) + v * pow256(s.len()),
    decreases s.len(),
{
    if s.len() == 0 {
        assert(s.push(v).skip(1) =~= Seq::<u8>::empty());
        assert(s.push(v)[0] == v);
        assert(le_int(s.push(v)) == v + 256 * le_int(s.push(v).skip(1)));
        assert(le_int(s.push(v).skip(1)) == 0);
    } else {
        assert(s.push(v).skip(1) =~= s.skip(1).push(v));
        lemma_le_int_push(s.skip(1), v);
        assert(s.push(v)[0] == s[0]);
        assert(le_int(s.push(v)) == s[0] + 256 * le_int(s.push(v).skip(1)));
        assert(le_int(s.push(v).skip(1)) == le_int(s.skip(1).push(v)));
        assert(le_int(s.skip(1).push(v)) == le_int(s.skip(1)) + v * pow256(s.skip(1).len()));
        assert(s.skip(1).len() == (s.len() - 1) as nat);
        assert(256 * (v * pow256((s.len() - 1) as nat)) == v * (256 * pow256((s.len() - 1) as nat)))
            by (nonlinear_arith);
        assert(pow256(s.len()) == 256 * pow256((s.len() - 1) as nat));
        assert(le_int(s) == s[0] + 256 * le_int(s.skip(1)));
    }
}

/// Equal-length byte sequences with the same value are equal.
pub proof fn lemma_le_int_injective(s1: Seq<u8>, s2: Seq<u8>)
    requires
        s1.len() == s2.len(),
        le_int(s1) == le_int(s2),
    ensures
        s1 =~= s2,
    decreases s1.len(),
{
    if s1.len() > 0 {
        lemma_le_int_bounds(s1.skip(1));
        lemma_le_int_bounds(s2.skip(1));
        assert(le_int(s1) == s1[0] + 256 * le_int(s1.skip(1)));
        assert(le_int(s2) == s2[0] + 256 * le_int(s2.skip(1)));
        lemma_fundamental_div_mod_converse(le_int(s1), 256, le_int(s1.skip(1)), s1[0] as int);
        lemma_fundamental_div_mod_converse(le_int(s2), 256, le_int(s2.skip(1)), s2[0] as int);
        assert(s1[0] == le_int(s1) % 256 && s2[0] == le_int(s2) % 256);
        assert(le_int(s1.skip(1)) == le_int(s1) / 256 && le_int(s2.skip(1)) == le_int(s2) / 256);
        lemma_le_int_injective(s1.skip(1), s2.skip(1));
        assert(s1 =~= seq![s1[0]] + s1.skip(1));
        assert(s2 =~= seq![s2[0]] + s2.skip(1));
    }
}

/// An element of the scalar field, as its canonical 32-byte little-endian
/// encoding.
pub struct Scalar {
    pub b: Vec<u8>,
}

impl View for Scalar {
    type V = int;

    open spec fn view(&self) -> int {
        le_int(self.b@)
    }
}

impl Scalar {
    /// The encoding is 32 bytes and canonical: its value lies below the field
    /// order.
    pub open spec fn wf(&self) -> bool {
        self.b@.len() == 32 && 0 <= le_int(self.b@) < fr_order()
    }
}

impl Clone for Scalar {
    fn clone(&self) -> (r: Self)
        ensures
            r@ == self@,
            r.wf() == self.wf(),
    {
        let b = self.b.clone();
        assert(b@ =~= self.b@);
        Scalar { b }
    }
}

/// The scalar with a given 64-bit value.
pub fn scalar_from_u64(u: u64) -> (r: Scalar)
    ensures
        r.wf(),
        r@ == u as int,
{
    let mut b: Vec<u8> = Vec::new();
    let mut x: u64 = u;
    let mut i: usize = 0;
    proof {
        assert(pow256(8) == 0x1_0000_0000_0000_0000) by {
            reveal_with_fuel(pow256, 9);
        }
    }
    while i < 8
        invariant
            i <= 8,
            b@.len() == i,
            x < pow256((8 - i) as nat),
            le_int(b@) + x * pow256(i as nat) == u as int,
            le_int(b@) < pow256(i as nat),
        decreases 8 - i,
    {
        let byte: u8 = (x % 256) as u8;
        proof {
            lemma_le_int_push(b@, byte);
            lemma_pow256_pos(i as nat);
            lemma_fundamental_div_mod(x as int, 256);
            assert(pow256((8 - i) as nat) == 256 * pow256((7 - i) as nat));
            assert((x as int) / 256 < pow256((7 - i) as nat)) by (nonlinear_arith)
                requires
                    x < 256 * pow256((7 - i) as nat),
                    pow256((7 - i) as nat) >= 1,
            ;
            assert(le_int(b@) + byte + 256 * ((x as int) / 256) * pow256(i as nat) + ((x as int)
                / 256) * (256 * pow256(i as nat)) - ((x as int) / 256) * (256 * pow256(i as nat))
                == le_int(b@) + byte + 256 * ((x as int) / 256) * pow256(i as nat));
            assert(((x as int) % 256 + 256 * ((x as int) / 256)) * pow256(i as nat) == ((
            x as int) % 256) * pow256(i as nat) + 256 * ((x as int) / 256) * pow256(i as nat))
                by (nonlinear_arith);
            assert(((x as int) / 256) * (256 * pow256(i as nat)) == 256 * ((x as int) / 256)
                * pow256(i as nat)) by (nonlinear_arith);
            assert(byte * pow256(i as nat) + pow256(i as nat) <= 256 * pow256(i as nat))
                by (nonlinear_arith)
                requires
                    byte < 256,
                    pow256(i as nat) >= 1,
            ;
        }
        b.push(byte);
        x = x / 256;
        i = i + 1;
    }
    while i < 32
        invariant
            8 <= i <= 32,
            b@.len() == i,
            le_int(b@) == u as int,
            le_int(b@) < pow256(8),
        decreases 32 - i,
    {
        proof {
            lemma_le_int_push(b@, 0);
        }
        b.push(0);
        i = i + 1;
    }
    Scalar { b }
}

/// The zero scalar.
pub fn scalar_zero() -> (r: Scalar)
    ensures
        r.wf(),
        r@ == 0,
{
    scalar_from_u64(0)
}

/// The scalar one.
pub fn scalar_one() -> (r: Scalar)
    ensures
        r.wf(),
        r@ == 1,
{
    scalar_from_u64(1)
}

/// Whether two scalars have the same value.
pub fn scalar_eq(a: &Scalar, b: &Scalar) -> (r: bool)
    requires
        a.wf(),
        b.wf(),
    ensures
        r == (a@ == b@),
{
    let mut i: usize = 0;
    let mut same: bool = true;
    while i < 32
        invariant
            i <= 32,
            a.wf(),
            b.wf(),
            same <==> (forall|j: int| 0 <= j < i ==> a.b@[j] == b.b@[j]),
        decreases 32 - i,
    {
        if a.b[i] != b.b[i] {
            same = false;
        }
        i = i + 1;
    }
    proof {
        if same {
            assert(a.b@ =~= b.b@);
        }
        if a@ == b@ {
            lemma_le_int_injective(a.b@, b.b@);
            assert(a.b@ == b.b@);
        }
    }
    same
}

/// Modular exponentiation in the scalar field.
pub open spec fn pow_mod(base: int, e: nat) -> int
    decreases e,
{
    if e == 0 {
        1
    } else {
        (base * pow_mod(base, (e - 1) as nat)) % fr_order()
    }
}

/// Relies on snarkvm_fields' `Fp256` addition and its canonical little-endian
/// serialization: the sum of two field elements modulo the field order.
#[verifier::external_body]
pub fn fr_add(a: &Scalar, b: &Scalar) -> (r: Scalar)
    requires
        a.wf(),
        b.wf(),
    ensures
        r.wf(),
        r@ == (a@ + b@) % fr_order(),
{
    let x = Fr::read_le(a.b.as_slice()).unwrap();
    let y = Fr::read_le(b.b.as_slice()).unwrap();
    let mut v: Vec<u8> = Vec::new();
    (x + y).write_le(&mut v).unwrap();
    Scalar { b: v }
}

/// Relies on snarkvm_fields' `Fp256` subtraction: the difference modulo the
/// field order.
#[verifier::external_body]
pub fn fr_sub(a: &Scalar, b: &Scalar) -> (r: Scalar)
    requires
        a.wf(),
        b.wf(),
    ensures
        r.wf(),
        r@ == (a@ - b@) % fr_order(),
{
    let x = Fr::read_le(a.b.as_slice()).unwrap();
    let y = Fr::read_le(b.b.as_slice()).unwrap();
    let mut v: Vec<u8> = Vec::new();
    (x - y).write_le(&mut v).unwrap();
    Scalar { b: v }
}

/// Relies on snarkvm_fields' `Fp256` multiplication: the product modulo the
/// field order.
#[verifier::external_body]
pub fn fr_mul(a: &Scalar, b: &Scalar) -> (r: Scalar)
    requires
        a.wf(),
        b.wf(),
    ensures
        r.wf(),
        r@ == (a@ * b@) % fr_order(),
{
    let x = Fr::read_le(a.b.as_slice()).unwrap();
    let y = Fr::read_le(b.b.as_slice()).unwrap();
    let mut v: Vec<u8> = Vec::new();
    (x * y).write_le(&mut v).unwrap();
    Scalar { b: v }
}

/// Relies on snarkvm_fields' `Field::inverse`: the multiplicative inverse of a
/// nonzero element, and `None` exactly for zero.
#[verifier::external_body]
pub fn fr_inv(a: &Scalar) -> (r: Option<Scalar>)
    requires
        a.wf(),
    ensures
        r.is_some() <==> a@ != 0,
        r.is_some() ==> r.unwrap().wf() && (a@ * r.unwrap()@) % fr_order() == 1,
{
    let x = Fr::read_le(a.b.as_slice()).unwrap();
    match x.inverse() {
        Some(inv) => {
            let mut v: Vec<u8> = Vec::new();
            inv.write_le(&mut v).unwrap();
            Some(Scalar { b: v })
        },
        None => None,
    }
}

/// Names the root of unity that snarkvm_fields' `FftField::get_root_of_unity`
/// returns for a given order; its value depends on the order alone.
pub uninterp spec fn root_of_unity_of(n: int) -> int;

/// Whether `n` is a power of two.
pub open spec fn is_pow2(n: nat) -> bool
    decreases n,
{
    if n == 0 {
        false
    } else if n == 1 {
        true
    } else {
        n % 2 == 0 && is_pow2(n / 2)
    }
}

/// Relies on snarkvm_fields' `FftField::get_root_of_unity` for the scalar
/// field: a value for every power-of-two order within the field's two-adicity.
#[verifier::external_body]
pub fn fr_root_of_unity(n: usize) -> (r: Option<Scalar>)
    ensures
        r.is_some() ==> r.unwrap().wf() && r.unwrap()@ == root_of_unity_of(n as int),
        is_pow2(n as nat) && n <= 0x800000000000 ==> r.is_some(),
{
    match Fr::get_root_of_unity(n) {
        Some(omega) => {
            let mut v: Vec<u8> = Vec::new();
            omega.write_le(&mut v).unwrap();
            Some(Scalar { b: v })
        },
        None => None,
    }
}

/// Relies on snarkvm_utilities' `Uniform::rand` for the scalar field: every
/// outcome is a field element in canonical form.
#[verifier::external_body]
pub fn fr_rand() -> (r: Scalar)
    ensures
        r.wf(),
{
    let mut rng = rand::rng();
    let x = Fr::rand(&mut rng);
    let mut v: Vec<u8> = Vec::new();
    x.write_le(&mut v).unwrap();
    Scalar { b: v }
}

/// The canonical bytes of a scalar.
pub fn scalar_to_bytes(s: &Scalar) -> (r: Vec<u8>)
    ensures
        r@ == s.b@,
{
    let b = s.b.clone();
    proof {
        assert(b@ =~= s.b@);
    }
    b
}

/// Relies on snarkvm_fields' `Fp256` deserialization: it accepts exactly the
/// canonical 32-byte little-endian encodings, those whose value lies below
/// the field order.
#[verifier::external_body]
pub(crate) fn fr_from_bytes(v: &Vec<u8>) -> (r: Option<Scalar>)
    ensures
        r is Some <==> (v@.len() == 32 && 0 <= le_int(v@) < fr_order()),
        r is Some ==> r.unwrap().wf() && r.unwrap()@ == le_int(v@),
{
    if v.len() != 32 {
        return None;
    }
    match Fr::read_le(v.as_slice()) {
        Ok(x) => {
            let mut out: Vec<u8> = Vec::new();
            x.write_le(&mut out).unwrap();
            Some(Scalar { b: out })
        },
        Err(_) => None,
    }
}

/// Raises a scalar to a power by repeated multiplication.
pub fn fr_pow(base: &Scalar, e: usize) -> (r: Scalar)
    requires
        base.wf(),
    ensures
        r.wf(),
        r@ == pow_mod(base@, e as nat) % fr_order(),
{
    let mut acc: Scalar = scalar_one();
    let mut i: usize = 0;
    proof {
        lemma_small_mod(1, fr_order() as nat);
    }
    while i < e
        invariant
            i <= e,
            base.wf(),
            acc.wf(),
            acc@ == pow_mod(base@, i as nat) % fr_order(),
        decreases e - i,
    {
        let next = fr_mul(base, &acc);
        proof {
            lemma_mul_mod_left(base@, pow_mod(base@, i as nat), fr_order());
        }
        acc = next;
        i = i + 1;
    }
    acc
}

/// For reduced values, the difference reduces to zero exactly on equality.
pub proof fn lemma_sub_mod_zero(a: int, b: int, m: int)
    requires
        m > 0,
        0 <= a < m,
        0 <= b < m,
    ensures
        ((a - b) % m == 0) <==> (a == b),
{
    if a == b {
        lemma_small_mod(0nat, m as nat);
    } else if a > b {
        lemma_small_mod((a - b) as nat, m as nat);
    } else {
        vstd::arithmetic::div_mod::lemma_mod_multiples_vanish(1, a - b, m);
        assert(m * 1 + (a - b) == a - b + m);
        lemma_small_mod((a - b + m) as nat, m as nat);
    }
}

/// Multiplying by a reduced factor gives the same residue as multiplying by
/// the factor itself.
pub proof fn lemma_mul_mod_left(a: int, b: int, m: int)
    requires
        m > 0,
    ensures
        (a * (b % m)) % m == (a * b) % m,
{
    let q = b / m;
    lemma_fundamental_div_mod(b, m);
    assert(a * b == a * (b % m) + (a * q) * m) by (nonlinear_arith)
        requires
            b == m * q + b % m,
    ;
    vstd::arithmetic::div_mod::lemma_mod_multiples_vanish(a * q, a * (b % m), m);
}

} // verus!

use ff::PrimeField;
use halo2curves::bn256::Fr;
use vstd::prelude::*;

verus! {

/// The order r of the scalar field of bn256 (and of its group G1).
pub open spec fn modulus() -> int {
    21888242871839275222246405745257275088548364400416034343698204186575808495617int
}

/// The integer that four little-endian 64-bit limbs spell.
pub open spec fn limbs_value(l: [u64; 4]) -> int {
    l[0] as int + l[1] as int * 0x1_0000_0000_0000_0000int + l[2] as int
        * 0x1_0000_0000_0000_0000_0000_0000_0000_0000int + l[3] as int
        * 0x1_0000_0000_0000_0000_0000_0000_0000_0000_0000_0000_0000_0000int
}

/// `base` raised to `e`, as an integer.
pub open spec fn pow(base: int, e: nat) -> int
    decreases e,
{
    if e == 0 {
        1
    } else {
        base * pow(base, (e - 1) as nat)
    }
}

/// An element of the scalar field of bn256, held as its canonical integer in four
/// little-endian limbs.
#[derive(Clone, Copy, Debug, PartialEq, Eq)]
pub struct Scalar {
    pub limbs: [u64; 4],
}

impl Scalar {
    /// The field element, as an integer in `[0, r)` when the value is canonical.
    pub open spec fn value(self) -> int {
        limbs_value(self.limbs)
    }

    /// The limbs spell an integer below the modulus.
    pub open spec fn wf(self) -> bool {
        0 <= self.value() < modulus()
    }

    pub fn zero() -> (r: Scalar)
        ensures
            r.wf(),
            r.value() == 0,
    {
        Scalar { limbs: [0u64, 0u64, 0u64, 0u64] }
    }

    pub fn one() -> (r: Scalar)
        ensures
            r.wf(),
            r.value() == 1,
    {
        Scalar { limbs: [1u64, 0u64, 0u64, 0u64] }
    }

    pub fn from_u64(v: u64) -> (r: Scalar)
        ensures
            r.wf(),
            r.value() == v as int,
    {
        Scalar { limbs: [v, 0u64, 0u64, 0u64] }
    }

    /// Whether the limbs spell an integer below the modulus.
    pub fn is_canonical(&self) -> (r: bool)
        ensures
            r == self.wf(),
    {
        let m: [u64; 4] = [0x43e1f593f0000001u64, 0x2833e84879b97091u64, 0xb85045b68181585du64, 0x30644e72e131a029u64];
        let l = self.limbs;
        proof {
            assert(limbs_value(m) == modulus());
            lemma_limbs_nested(l);
            lemma_limbs_nested(m);
            let b = 0x1_0000_0000_0000_0000int;
            lemma_lex(l[2] as int, l[3] as int, m[2] as int, m[3] as int);
            lemma_lex(l[1] as int, l[2] + b * l[3], m[1] as int, m[2] + b * m[3]);
            lemma_lex(l[0] as int, l[1] + b * (l[2] + b * l[3]), m[0] as int, m[1] + b * (m[2] + b * m[3]));
        }
        if l[3] != m[3] {
            l[3] < m[3]
        } else if l[2] != m[2] {
            l[2] < m[2]
        } else if l[1] != m[1] {
            l[1] < m[1]
        } else {
            l[0] < m[0]
        }
    }

    pub fn add(&self, o: &Scalar) -> (r: Scalar)
        requires
            self.wf(),
            o.wf(),
        ensures
            r.wf(),
            r.value() == (self.value() + o.value()) % modulus(),
    {
        fr_add(self, o)
    }

    pub fn sub(&self, o: &Scalar) -> (r: Scalar)
        requires
            self.wf(),
            o.wf(),
        ensures
            r.wf(),
            r.value() == (self.value() - o.value()) % modulus(),
    {
        fr_sub(self, o)
    }

    pub fn mul(&self, o: &Scalar) -> (r: Scalar)
        requires
            self.wf(),
            o.wf(),
        ensures
            r.wf(),
            r.value() == (self.value() * o.value()) % modulus(),
    {
        fr_mul(self, o)
    }

    pub fn neg(&self) -> (r: Scalar)
        requires
            self.wf(),
        ensures
            r.wf(),
            r.value() == (-self.value()) % modulus(),
    {
        fr_neg(self)
    }

    /// The multiplicative inverse, none for zero.
    pub fn invert(&self) -> (r: Option<Scalar>)
        requires
            self.wf(),
        ensures
            self.value() == 0 ==> r is None,
            self.value() != 0 ==> r is Some && r->0.wf() && (self.value() * r->0.value()) % modulus() == 1,
    {
        fr_invert(self)
    }

    /// `self` raised to `e`, by repeated multiplication.
    pub fn pow_u64(&self, e: u64) -> (r: Scalar)
        requires
            self.wf(),
        ensures
            r.wf(),
            r.value() == pow(self.value(), e as nat) % modulus(),
    {
        let mut acc = Scalar::one();
        let mut i: u64 = 0;
        while i < e
            invariant
                i <= e,
                self.wf(),
                acc.wf(),
                acc.value() == pow(self.value(), i as nat) % modulus(),
            decreases e - i,
        {
            let next = acc.mul(self);
            proof {
                lemma_mul_mod_left(pow(self.value(), i as nat), self.value());
                assert(self.value() * pow(self.value(), i as nat) == pow(self.value(), (i + 1) as nat));
            }
            acc = next;
            i = i + 1;
        }
        acc
    }
}

/// The inverse of two modulo r.
pub open spec fn two_inv_value() -> int {
    10944121435919637611123202872628637544274182200208017171849102093287904247809int
}

/// The inverse of the fixed primitive `2^28`-th root of unity of bn256's scalar field.
pub open spec fn root_of_unity_inv_value() -> int {
    2037444462055058054189478067370099086220733342011840546702672064072905551290int
}

/// Relies on `PrimeField::TWO_INV` of `Fr`: the inverse of two.
#[verifier::external_body]
pub(crate) fn two_inv() -> (r: Scalar)
    ensures
        r.wf(),
        r.value() == two_inv_value(),
{
    Scalar { limbs: Fr::TWO_INV.into() }
}

/// Relies on `PrimeField::ROOT_OF_UNITY_INV` of `Fr`: the inverse of the fixed
/// primitive `2^S`-th root of unity.
#[verifier::external_body]
pub(crate) fn root_of_unity_inv() -> (r: Scalar)
    ensures
        r.wf(),
        r.value() == root_of_unity_inv_value(),
{
    Scalar { limbs: Fr::ROOT_OF_UNITY_INV.into() }
}

/// Relies on `PrimeField::S` of `Fr`: the two-adicity of `r - 1`.
#[verifier::external_body]
pub(crate) fn two_adicity() -> (r: u32)
    ensures
        r == 28,
{
    Fr::S
}

/// The limbs read as nested base-`2^64` digits.
proof fn lemma_limbs_nested(l: [u64; 4])
    ensures
        limbs_value(l) == l[0] + 0x1_0000_0000_0000_0000int * (l[1] + 0x1_0000_0000_0000_0000int * (l[2]
            + 0x1_0000_0000_0000_0000int * l[3])),
{
    let b = 0x1_0000_0000_0000_0000int;
    assert(l[0] + b * (l[1] + b * (l[2] + b * l[3])) == l[0] + l[1] * b + l[2] * (b * b) + l[3] * (b * b * b))
        by (nonlinear_arith);
}

/// Comparing `x0 + B x` with `y0 + B y` for digits `x0, y0 < B` and non-negative `x, y`
/// goes by the high parts first.
proof fn lemma_lex(x0: int, x: int, y0: int, y: int)
    requires
        0 <= x0 < 0x1_0000_0000_0000_0000int,
        0 <= y0 < 0x1_0000_0000_0000_0000int,
        0 <= x,
        0 <= y,
    ensures
        (x0 + 0x1_0000_0000_0000_0000int * x < y0 + 0x1_0000_0000_0000_0000int * y) == (x < y || (x == y
            && x0 < y0)),
        x0 + 0x1_0000_0000_0000_0000int * x >= 0,
{
    let b = 0x1_0000_0000_0000_0000int;
    if x < y {
        assert(b * x + b <= b * y) by (nonlinear_arith)
            requires
                x < y,
                b > 0,
        ;
    } else if x > y {
        assert(b * y + b <= b * x) by (nonlinear_arith)
            requires
                x > y,
                b > 0,
        ;
    }
    assert(b * x >= 0) by (nonlinear_arith)
        requires
            x >= 0,
            b > 0,
    ;
}

/// Relies on `Add for Fr`: addition modulo r.
#[verifier::external_body]
fn fr_add(a: &Scalar, b: &Scalar) -> (r: Scalar)
    requires
        a.wf(),
        b.wf(),
    ensures
        r.wf(),
        r.value() == (a.value() + b.value()) % modulus(),
{
    Scalar { limbs: (Fr::from_raw(a.limbs) + Fr::from_raw(b.limbs)).into() }
}

/// Relies on `Sub for Fr`: subtraction modulo r.
#[verifier::external_body]
fn fr_sub(a: &Scalar, b: &Scalar) -> (r: Scalar)
    requires
        a.wf(),
        b.wf(),
    ensures
        r.wf(),
        r.value() == (a.value() - b.value()) % modulus(),
{
    Scalar { limbs: (Fr::from_raw(a.limbs) - Fr::from_raw(b.limbs)).into() }
}

/// Relies on `Mul for Fr`: multiplication modulo r.
#[verifier::external_body]
fn fr_mul(a: &Scalar, b: &Scalar) -> (r: Scalar)
    requires
        a.wf(),
        b.wf(),
    ensures
        r.wf(),
        r.value() == (a.value() * b.value()) % modulus(),
{
    Scalar { limbs: (Fr::from_raw(a.limbs) * Fr::from_raw(b.limbs)).into() }
}

/// Relies on `Neg for Fr`: the additive inverse modulo r.
#[verifier::external_body]
fn fr_neg(a: &Scalar) -> (r: Scalar)
    requires
        a.wf(),
    ensures
        r.wf(),
        r.value() == (-a.value()) % modulus(),
{
    Scalar { limbs: (-Fr::from_raw(a.limbs)).into() }
}

/// Relies on `Fr::invert`: the multiplicative inverse, none for zero.
#[verifier::external_body]
fn fr_invert(a: &Scalar) -> (r: Option<Scalar>)
    requires
        a.wf(),
    ensures
        a.value() == 0 ==> r is None,
        a.value() != 0 ==> r is Some && r->0.wf() && (a.value() * r->0.value()) % modulus() == 1,
{
    let inv: Option<Fr> = Fr::from_raw(a.limbs).invert().into();
    inv.map(|v| Scalar { limbs: v.into() })
}

/// `((a % m) * b) % m == (b * a) % m`.
pub proof fn lemma_mul_mod_left(a: int, b: int)
    ensures
        ((a % modulus()) * b) % modulus() == (b * a) % modulus(),
{
    vstd::arithmetic::div_mod::lemma_mul_mod_noop_left(a, b, modulus());
    vstd::arithmetic::mul::lemma_mul_is_commutative(a, b);
}

} // verus!

use crate::curve::Point;
use crate::parallel::{current_num_threads, map_on_workers};
use crate::field::{limbs_value, modulus, Scalar};
use crate::poly::lemma_add_step;
use vstd::arithmetic::power2::{lemma_pow2_unfold, pow2};
use vstd::prelude::*;

verus! {

/// Bit `k` of the integer that the limbs spell (zero from bit 256 on).
pub open spec fn scalar_bit(l: [u64; 4], k: nat) -> int {
    if k < 256 {
        (l[(k / 64) as int] as int / pow2(k % 64) as int) % 2
    } else {
        0
    }
}

/// The integer that the limbs spell, shifted right by `k` bits.
pub open spec fn scalar_hi(l: [u64; 4], k: nat) -> int
    decreases 256 - k,
{
    if k >= 256 {
        0
    } else {
        2 * scalar_hi(l, k + 1) + scalar_bit(l, k)
    }
}

/// `sum of coeffs[i] * bases[i]` over the first `n` pairs, as integers.
pub open spec fn msm_sum(coeffs: Seq<Scalar>, bases: Seq<Point>, n: int) -> int
    decreases n,
{
    if n <= 0 {
        0
    } else {
        msm_sum(coeffs, bases, n - 1) + coeffs[n - 1].value() * bases[n - 1].log()
    }
}

/// `sum of (coeffs[i] >> k) * bases[i]` over the first `n` pairs.
pub open spec fn hi_sum(coeffs: Seq<Scalar>, bases: Seq<Point>, k: nat, n: int) -> int
    decreases n,
{
    if n <= 0 {
        0
    } else {
        hi_sum(coeffs, bases, k, n - 1) + scalar_hi(coeffs[n - 1].limbs, k) * bases[n - 1].log()
    }
}

/// `sum of bit k of coeffs[i] * bases[i]` over the first `n` pairs.
pub open spec fn bit_sum(coeffs: Seq<Scalar>, bases: Seq<Point>, k: nat, n: int) -> int
    decreases n,
{
    if n <= 0 {
        0
    } else {
        bit_sum(coeffs, bases, k, n - 1) + scalar_bit(coeffs[n - 1].limbs, k) * bases[n - 1].log()
    }
}

/// Within limb `j`: the bits from `64 j + t` up spell the limbs above `j` shifted
/// up, plus the top of limb `j`.
proof fn lemma_hi_in_limb(l: [u64; 4], j: nat, t: nat)
    requires
        j < 4,
        t <= 64,
    ensures
        scalar_hi(l, 64 * j + t) == scalar_hi(l, 64 * j + 64) * pow2((64 - t) as nat) + l[j as int]
            as int / pow2(t) as int,
    decreases 64 - t,
{
    vstd::arithmetic::power2::lemma_pow2_pos(t);
    if t == 64 {
        vstd::arithmetic::power2::lemma2_to64();
        assert(pow2(0) == 1);
        assert(l[j as int] as int / pow2(64) as int == 0) by {
            vstd::arithmetic::div_mod::lemma_basic_div(l[j as int] as int, pow2(64) as int);
        }
        let h = scalar_hi(l, 64 * j + 64);
        assert(h * 1 == h);
    } else {
        lemma_hi_in_limb(l, j, t + 1);
        let k = 64 * j + t;
        assert(k / 64 == j && k % 64 == t) by (nonlinear_arith)
            requires
                k == 64 * j + t,
                t < 64,
        ;
        let x = l[j as int] as int;
        lemma_pow2_unfold((t + 1) as nat);
        lemma_pow2_unfold((64 - t) as nat);
        assert((64 - t - 1) as nat == (64 - (t + 1)) as nat);
        vstd::arithmetic::power2::lemma_pow2_pos(t);
        vstd::arithmetic::div_mod::lemma_div_denominator(x, pow2(t) as int, 2);
        vstd::arithmetic::div_mod::lemma_fundamental_div_mod(x / pow2(t) as int, 2);
        assert(pow2(t) * 2 == pow2(t + 1)) by {
            vstd::arithmetic::mul::lemma_mul_is_commutative(pow2(t) as int, 2);
        }
        let h = scalar_hi(l, 64 * j + 64);
        let p = pow2((64 - (t + 1)) as nat) as int;
        let q = x / pow2(t) as int;
        let q1 = x / pow2(t + 1) as int;
        assert(scalar_hi(l, k) == 2 * scalar_hi(l, k + 1) + scalar_bit(l, k));
        assert(k + 1 == 64 * j + (t + 1));
        assert(scalar_hi(l, k + 1) == h * p + q1);
        assert(scalar_bit(l, k) == q % 2);
        assert(q1 == q / 2);
        assert(q == 2 * q1 + q % 2);
        assert(pow2((64 - t) as nat) == 2 * p);
        assert(2 * (h * p) == h * (2 * p)) by (nonlinear_arith);
        assert(scalar_hi(l, k) == h * pow2((64 - t) as nat) + q);
    }
}

/// The bits from zero up spell the whole value.
pub proof fn lemma_hi_zero(l: [u64; 4])
    ensures
        scalar_hi(l, 0) == limbs_value(l),
{
    vstd::arithmetic::power2::lemma2_to64();
    lemma_hi_in_limb(l, 0, 0);
    lemma_hi_in_limb(l, 1, 0);
    lemma_hi_in_limb(l, 2, 0);
    lemma_hi_in_limb(l, 3, 0);
    assert(scalar_hi(l, 256) == 0);
    let b = pow2(64) as int;
    assert(b == 0x1_0000_0000_0000_0000int);
    let l0 = l[0] as int;
    let l1 = l[1] as int;
    let l2 = l[2] as int;
    let l3 = l[3] as int;
    assert(l0 / 1 == l0 && l1 / 1 == l1 && l2 / 1 == l2 && l3 / 1 == l3);
    assert(scalar_hi(l, 192) == l3);
    assert(scalar_hi(l, 128) == l3 * b + l2);
    assert(scalar_hi(l, 64) == (l3 * b + l2) * b + l1);
    assert(scalar_hi(l, 0) == ((l3 * b + l2) * b + l1) * b + l0);
    assert(((l3 * b + l2) * b + l1) * b + l0 == l0 + l1 * b + l2 * (b * b) + l3 * (b * b * b))
        by (nonlinear_arith);
    assert(b * b == 0x1_0000_0000_0000_0000_0000_0000_0000_0000int);
    assert(b * b * b == 0x1_0000_0000_0000_0000_0000_0000_0000_0000_0000_0000_0000_0000int);
}

/// Reading the value bit by bit from the top: each step doubles and adds one bit.
proof fn lemma_hi_sum_step(coeffs: Seq<Scalar>, bases: Seq<Point>, k: nat, n: int)
    requires
        k < 256,
        0 <= n,
    ensures
        hi_sum(coeffs, bases, k, n) == 2 * hi_sum(coeffs, bases, k + 1, n) + bit_sum(coeffs, bases, k, n),
    decreases n,
{
    if n > 0 {
        lemma_hi_sum_step(coeffs, bases, k, n - 1);
        let h = scalar_hi(coeffs[n - 1].limbs, k + 1);
        let b = scalar_bit(coeffs[n - 1].limbs, k);
        let g = bases[n - 1].log();
        assert((2 * h + b) * g == 2 * (h * g) + b * g) by (nonlinear_arith);
    }
}

/// Above bit 255 nothing is left.
proof fn lemma_hi_sum_top(coeffs: Seq<Scalar>, bases: Seq<Point>, n: int)
    requires
        0 <= n,
    ensures
        hi_sum(coeffs, bases, 256, n) == 0,
    decreases n,
{
    if n > 0 {
        lemma_hi_sum_top(coeffs, bases, n - 1);
    }
}

/// Read from bit zero, the shifted sums are the sum itself.
proof fn lemma_hi_sum_zero(coeffs: Seq<Scalar>, bases: Seq<Point>, n: int)
    requires
        0 <= n,
    ensures
        hi_sum(coeffs, bases, 0, n) == msm_sum(coeffs, bases, n),
    decreases n,
{
    if n > 0 {
        lemma_hi_sum_zero(coeffs, bases, n - 1);
        lemma_hi_zero(coeffs[n - 1].limbs);
    }
}

/// Bit `k` of the limbs.
fn get_bit(l: &[u64; 4], k: usize) -> (r: u64)
    requires
        k < 256,
    ensures
        r as int == scalar_bit(*l, k as nat),
        r <= 1,
{
    let w = l[k / 64];
    let s = (k % 64) as u64;
    proof {
        vstd::bits::lemma_u64_shr_is_div(w, s);
    }
    let sh = w >> s;
    let r = sh & 1;
    assert(sh & 1 == sh % 2) by (bit_vector);
    r
}

/// Performs a small multi-exponentiation operation.
/// Uses the double-and-add algorithm with doublings shared across points.
pub fn small_multiexp(coeffs: &[Scalar], bases: &[Point]) -> (r: Point)
    requires
        coeffs.len() == bases.len(),
    ensures
        r.log() == msm_sum(coeffs@, bases@, coeffs.len() as int) % modulus(),
{
    let n = coeffs.len();
    let mut acc = Point::identity();
    let mut k: usize = 256;
    proof {
        lemma_hi_sum_top(coeffs@, bases@, n as int);
    }
    while k > 0
        invariant
            k <= 256,
            n == coeffs.len(),
            n == bases.len(),
            acc.log() == hi_sum(coeffs@, bases@, k as nat, n as int) % modulus(),
        decreases k,
    {
        k = k - 1;
        let ghost h = hi_sum(coeffs@, bases@, (k + 1) as nat, n as int);
        acc = acc.double();
        proof {
            vstd::arithmetic::div_mod::lemma_mul_mod_noop_right(2, h, modulus());
        }
        let mut i: usize = 0;
        while i < n
            invariant
                i <= n,
                k < 256,
                n == coeffs.len(),
                n == bases.len(),
                acc.log() == (2 * h + bit_sum(coeffs@, bases@, k as nat, i as int)) % modulus(),
            decreases n - i,
        {
            let b = get_bit(&coeffs[i].limbs, k);
            let ghost before = 2 * h + bit_sum(coeffs@, bases@, k as nat, i as int);
            proof {
                let g = bases@[i as int].log();
                assert(0 * g == 0 && 1 * g == g);
                assert(bit_sum(coeffs@, bases@, k as nat, i + 1) == bit_sum(coeffs@, bases@, k as nat, i as int)
                    + b * g);
            }
            if b != 0 {
                acc = acc.add(&bases[i]);
                proof {
                    bases@[i as int].lemma_log_range();
                    vstd::arithmetic::div_mod::lemma_small_mod(
                        bases@[i as int].log() as nat,
                        modulus() as nat,
                    );
                    lemma_add_step(before, bases@[i as int].log());
                }
            }
            i = i + 1;
        }
        proof {
            lemma_hi_sum_step(coeffs@, bases@, k as nat, n as int);
        }
    }
    proof {
        lemma_hi_sum_zero(coeffs@, bases@, n as int);
    }
    acc
}

/// The `m` bits of the value from bit `k` up, as an integer.
pub open spec fn scalar_digit(l: [u64; 4], k: nat, m: nat) -> int
    decreases m,
{
    if m == 0 {
        0
    } else {
        scalar_bit(l, k) + 2 * scalar_digit(l, k + 1, (m - 1) as nat)
    }
}

/// `sum of w(i) * bases[i]` over the first `n` points, as integers.
pub open spec fn wsum(w: spec_fn(int) -> int, bases: Seq<Point>, n: int) -> int
    decreases n,
{
    if n <= 0 {
        0
    } else {
        wsum(w, bases, n - 1) + w(n - 1) * bases[n - 1].log()
    }
}

proof fn lemma_wsum_linear(
    w1: spec_fn(int) -> int,
    w2: spec_fn(int) -> int,
    w3: spec_fn(int) -> int,
    a: int,
    bases: Seq<Point>,
    n: int,
)
    requires
        forall|i: int| 0 <= i < n ==> #[trigger] w3(i) == a * w1(i) + w2(i),
    ensures
        wsum(w3, bases, n) == a * wsum(w1, bases, n) + wsum(w2, bases, n),
    decreases n,
{
    if n > 0 {
        lemma_wsum_linear(w1, w2, w3, a, bases, n - 1);
        let g = bases[n - 1].log();
        let x = w1(n - 1);
        let y = w2(n - 1);
        let s1 = wsum(w1, bases, n - 1);
        assert((a * x + y) * g == a * (x * g) + y * g) by (nonlinear_arith);
        assert(a * (s1 + x * g) == a * s1 + a * (x * g)) by (nonlinear_arith);
    }
}

proof fn lemma_wsum_zero(w: spec_fn(int) -> int, bases: Seq<Point>, n: int)
    requires
        forall|i: int| 0 <= i < n ==> #[trigger] w(i) == 0,
    ensures
        wsum(w, bases, n) == 0,
    decreases n,
{
    if n > 0 {
        lemma_wsum_zero(w, bases, n - 1);
        assert(w(n - 1) == 0);
        assert(0 * bases[n - 1].log() == 0);
    }
}

proof fn lemma_msm_is_wsum(coeffs: Seq<Scalar>, bases: Seq<Point>, n: int)
    ensures
        wsum(|i: int| coeffs[i].value(), bases, n) == msm_sum(coeffs, bases, n),
    decreases n,
{
    if n > 0 {
        lemma_msm_is_wsum(coeffs, bases, n - 1);
    }
}

/// The value from bit `k` up is its `m` lowest bits plus the rest shifted.
proof fn lemma_hi_split(l: [u64; 4], k: nat, m: nat)
    ensures
        scalar_hi(l, k) == pow2(m) * scalar_hi(l, k + m) + scalar_digit(l, k, m),
    decreases m,
{
    if m == 0 {
        vstd::arithmetic::power2::lemma2_to64();
    } else {
        lemma_hi_split(l, k + 1, (m - 1) as nat);
        lemma_pow2_unfold(m);
        assert(k + 1 + (m - 1) as nat == k + m);
        assert(scalar_hi(l, k) == 2 * scalar_hi(l, k + 1) + scalar_bit(l, k));
        let p = pow2((m - 1) as nat) as int;
        let h = scalar_hi(l, k + m);
        assert(2 * (p * h) == (2 * p) * h) by (nonlinear_arith);
    }
}

/// Digits are below `2^m`.
proof fn lemma_digit_bound(l: [u64; 4], k: nat, m: nat)
    ensures
        0 <= scalar_digit(l, k, m) < pow2(m),
    decreases m,
{
    if m == 0 {
        vstd::arithmetic::power2::lemma2_to64();
    } else {
        lemma_digit_bound(l, k + 1, (m - 1) as nat);
        lemma_pow2_unfold(m);
        vstd::arithmetic::power2::lemma_pow2_pos(k % 64);
    }
}

/// The value shifted past its top bit is zero.
proof fn lemma_hi_top(l: [u64; 4], k: nat)
    requires
        k >= 256,
    ensures
        scalar_hi(l, k) == 0,
{
}

/// Bit `k` of the limbs, zero from bit 256 on.
fn get_bit_any(l: &[u64; 4], k: usize) -> (r: u64)
    ensures
        r as int == scalar_bit(*l, k as nat),
        r <= 1,
{
    if k < 256 {
        get_bit(l, k)
    } else {
        0
    }
}

/// The `c` bits of the scalar from bit `segment * c` up.
fn get_at(segment: usize, c: usize, l: &[u64; 4]) -> (r: usize)
    requires
        1 <= c <= 30,
        segment * c <= 512,
    ensures
        r as int == scalar_digit(*l, (segment * c) as nat, c as nat),
        (r as int) < pow2(c as nat),
{
    let k = segment * c;
    let mut d: u64 = 0;
    let mut t: usize = c;
    proof {
        vstd::arithmetic::power2::lemma2_to64();
    }
    while t > 0
        invariant
            t <= c,
            c <= 30,
            k == segment * c,
            k <= 512,
            d as int == scalar_digit(*l, (k + t) as nat, (c - t) as nat),
            (d as int) < pow2((c - t) as nat),
        decreases t,
    {
        let b = get_bit_any(l, k + t - 1);
        proof {
            lemma_pow2_unfold((c - t + 1) as nat);
            assert(((k + t - 1) + 1) as nat == (k + t) as nat);
            assert((c - t + 1 - 1) as nat == (c - t) as nat);
            vstd::arithmetic::power2::lemma2_to64();
            if c - t < 30 {
                vstd::arithmetic::power2::lemma_pow2_strictly_increases((c - t) as nat, 30);
            }
        }
        d = 2 * d + b;
        t = t - 1;
    }
    proof {
        lemma_digit_bound(*l, k as nat, c as nat);
        assert((k + 0) as nat == k as nat);
        assert((c - 0) as nat == c as nat);
    }
    d as usize
}

/// An accumulator for one digit value of one window: nothing yet, one point, or a
/// running sum.
#[derive(Clone, Copy)]
pub enum Bucket {
    Empty,
    Single(Point),
    Sum(Point),
}

impl Bucket {
    /// What the bucket holds, as an integer modulo r.
    pub open spec fn log(self) -> int {
        match self {
            Bucket::Empty => 0,
            Bucket::Single(p) => p.log(),
            Bucket::Sum(p) => p.log(),
        }
    }

    pub fn add_assign(&mut self, other: &Point)
        ensures
            final(self).log() == (old(self).log() + other.log()) % modulus(),
    {
        let next = match *self {
            Bucket::Empty => {
                proof {
                    other.lemma_log_range();
                    vstd::arithmetic::div_mod::lemma_small_mod(other.log() as nat, modulus() as nat);
                }
                Bucket::Single(*other)
            },
            Bucket::Single(a) => Bucket::Sum(a.add(other)),
            Bucket::Sum(a) => Bucket::Sum(a.add(other)),
        };
        *self = next;
    }

    pub fn add(self, other: Point) -> (r: Point)
        ensures
            r.log() == (self.log() + other.log()) % modulus(),
    {
        match self {
            Bucket::Empty => {
                proof {
                    other.lemma_log_range();
                    vstd::arithmetic::div_mod::lemma_small_mod(other.log() as nat, modulus() as nat);
                }
                other
            },
            Bucket::Single(a) => other.add(&a),
            Bucket::Sum(a) => other.add(&a),
        }
    }
}

/// Bits per window for `n` points: 1 below 4 points, 3 below 32, else `ceil(ln n)`,
/// held at 30 at most.
pub fn window_size(n: usize) -> (c: usize)
    ensures
        1 <= c <= 30,
        n < 4 ==> c == 1,
        4 <= n < 32 ==> c == 3,
{
    if n < 4 {
        1
    } else if n < 32 {
        3
    } else {
        // floor(e^c) for c = 4, 5, ...: ceil(ln n) is the first c with n <= floor(e^c)
        let bounds: [u64; 26] = [
            54, 148, 403, 1096, 2980, 8103, 22026, 59874, 162754, 442413, 1202604, 3269017,
            8886110, 24154952, 65659969, 178482300, 485165195, 1318815734, 3584912846,
            9744803446, 26489122129, 72004899337, 195729609428, 532048240601, 1446257064291,
            3931334297144,
        ];
        let mut i: usize = 0;
        while i < 26 && bounds[i] < n as u64
            invariant
                i <= 26,
            decreases 26 - i,
        {
            i = i + 1;
        }
        if i < 26 {
            i + 4
        } else {
            30
        }
    }
}

/// The digit of point `j`'s scalar in the window of `c` bits from bit `k`.
pub open spec fn digit_of(coeffs: Seq<Scalar>, j: int, k: nat, c: nat) -> int {
    scalar_digit(coeffs[j].limbs, k, c)
}

/// Weight 1 for the points whose digit is at least `t`.
pub open spec fn ge_w(coeffs: Seq<Scalar>, k: nat, c: nat, t: int) -> spec_fn(int) -> int {
    |jj: int| if digit_of(coeffs, jj, k, c) >= t { 1int } else { 0int }
}

/// Weight `digit - t + 1` for the points whose digit is at least `t`.
pub open spec fn tri_w(coeffs: Seq<Scalar>, k: nat, c: nat, t: int) -> spec_fn(int) -> int {
    |jj: int|
        if digit_of(coeffs, jj, k, c) >= t {
            digit_of(coeffs, jj, k, c) - t + 1
        } else {
            0int
        }
}

/// Performs the windowed bucket multi-exponentiation on one run of points.
fn multiexp_serial(coeffs: &[Scalar], bases: &[Point]) -> (acc: Point)
    requires
        coeffs.len() == bases.len(),
    ensures
        acc.log() == msm_sum(coeffs@, bases@, coeffs.len() as int) % modulus(),
{
    let n = coeffs.len();
    let c = window_size(n);
    let segments = 256 / c + 1;
    let mut pw: usize = 1;
    let mut j: usize = 0;
    proof {
        vstd::arithmetic::power2::lemma2_to64();
    }
    while j < c
        invariant
            j <= c,
            c <= 30,
            pw as int == pow2(j as nat),
        decreases c - j,
    {
        proof {
            lemma_pow2_unfold((j + 1) as nat);
            vstd::arithmetic::power2::lemma2_to64();
            if j < 29 {
                vstd::arithmetic::power2::lemma_pow2_strictly_increases(j as nat, 29);
            }
        }
        pw = pw * 2;
        j = j + 1;
    }
    let nb: usize = pw - 1;
    proof {
        vstd::arithmetic::div_mod::lemma_fundamental_div_mod(256, c as int);
        assert(segments * c <= 512) by (nonlinear_arith)
            requires
                segments == 256usize / c + 1,
                256 == c * (256usize / c) + 256usize % c,
                256usize % c >= 0,
                1 <= c <= 30,
        ;
        assert(segments * c > 256) by (nonlinear_arith)
            requires
                segments == 256usize / c + 1,
                c >= 1,
        ;
        assert forall|i: int| 0 <= i < n implies #[trigger] scalar_hi(coeffs@[i].limbs, (segments * c) as nat) == 0 by {
            lemma_hi_top(coeffs@[i].limbs, (segments * c) as nat);
        }
        lemma_wsum_zero(|i: int| scalar_hi(coeffs@[i].limbs, (segments * c) as nat), bases@, n as int);
    }
    let mut acc = Point::identity();
    let mut seg: usize = segments;
    while seg > 0
        invariant
            n == coeffs.len(),
            n == bases.len(),
            1 <= c <= 30,
            seg <= segments,
            segments == 256usize / c + 1,
            segments * c <= 512,
            nb as int == pow2(c as nat) - 1,
            acc.log() == wsum(|i: int| scalar_hi(coeffs@[i].limbs, (seg * c) as nat), bases@, n as int)
                % modulus(),
        decreases seg,
    {
        seg = seg - 1;
        let ghost k = (seg * c) as nat;
        let ghost h = wsum(|i: int| scalar_hi(coeffs@[i].limbs, (k + c) as nat), bases@, n as int);
        proof {
            assert(((seg + 1) * c) as nat == (k + c) as nat) by (nonlinear_arith)
                requires
                    k == seg * c,
            ;
            assert(seg * c <= segments * c) by (nonlinear_arith)
                requires
                    seg <= segments,
            ;
        }
        let mut j: usize = 0;
        proof {
            vstd::arithmetic::power2::lemma2_to64();
            acc.lemma_log_range();
            vstd::arithmetic::div_mod::lemma_small_mod(acc.log() as nat, modulus() as nat);
        }
        while j < c
            invariant
                j <= c,
                acc.log() == (pow2(j as nat) * h) % modulus(),
            decreases c - j,
        {
            acc = acc.double();
            proof {
                lemma_pow2_unfold((j + 1) as nat);
                vstd::arithmetic::div_mod::lemma_mul_mod_noop_right(2, pow2(j as nat) * h, modulus());
                assert(2 * (pow2(j as nat) * h) == (2 * pow2(j as nat)) * h) by (nonlinear_arith);
            }
            j = j + 1;
        }
        let mut buckets: Vec<Bucket> = Vec::new();
        let mut b: usize = 0;
        while b < nb
            invariant
                b <= nb,
                buckets.len() == b,
                forall|d: int| 0 <= d < b ==> #[trigger] buckets@[d] == Bucket::Empty,
            decreases nb - b,
        {
            buckets.push(Bucket::Empty);
            b = b + 1;
        }
        let mut i: usize = 0;
        proof {
            assert forall|d: int| 1 <= d <= nb implies #[trigger] buckets@[d - 1].log() == wsum(
                |jj: int| if digit_of(coeffs@, jj, k, c as nat) == d { 1int } else { 0int },
                bases@,
                0,
            ) % modulus() by {
                assert(buckets@[d - 1] == Bucket::Empty);
            }
        }
        while i < n
            invariant
                i <= n,
                n == coeffs.len(),
                n == bases.len(),
                1 <= c <= 30,
                k == seg * c,
                seg * c <= 512,
                buckets.len() == nb,
                nb as int == pow2(c as nat) - 1,
                forall|d: int| 1 <= d <= nb ==> #[trigger] buckets@[d - 1].log() == wsum(
                    |jj: int| if digit_of(coeffs@, jj, k, c as nat) == d { 1int } else { 0int },
                    bases@,
                    i as int,
                ) % modulus(),
            decreases n - i,
        {
            let dg = get_at(seg, c, &coeffs[i].limbs);
            let ghost old_b = buckets@;
            if dg != 0 {
                let mut bk = buckets[dg - 1];
                bk.add_assign(&bases[i]);
                buckets.set(dg - 1, bk);
            }
            proof {
                let g = bases@[i as int].log();
                assert forall|d: int| 1 <= d <= nb implies #[trigger] buckets@[d - 1].log() == wsum(
                    |jj: int| if digit_of(coeffs@, jj, k, c as nat) == d { 1int } else { 0int },
                    bases@,
                    i + 1,
                ) % modulus() by {
                    let w = |jj: int| if digit_of(coeffs@, jj, k, c as nat) == d { 1int } else { 0int };
                    let prev = wsum(w, bases@, i as int);
                    assert(wsum(w, bases@, i + 1) == prev + w(i as int) * g);
                    assert(old_b[d - 1].log() == prev % modulus());
                    if d == dg {
                        assert(w(i as int) == 1);
                        lemma_add_step(prev, g);
                        bases@[i as int].lemma_log_range();
                        vstd::arithmetic::div_mod::lemma_small_mod(g as nat, modulus() as nat);
                    } else {
                        assert(w(i as int) == 0);
                        assert(buckets@[d - 1] == old_b[d - 1]);
                    }
                }
            }
            i = i + 1;
        }
        let ghost p: int = pow2(c as nat) * h;
        let ghost top: int = pow2(c as nat) as int;
        proof {
            assert forall|jj: int| 0 <= jj < n implies #[trigger] ge_w(coeffs@, k, c as nat, top)(jj) == 0 by {
                lemma_digit_bound(coeffs@[jj].limbs, k, c as nat);
            }
            assert forall|jj: int| 0 <= jj < n implies #[trigger] tri_w(coeffs@, k, c as nat, top)(jj) == 0 by {
                lemma_digit_bound(coeffs@[jj].limbs, k, c as nat);
            }
            lemma_wsum_zero(ge_w(coeffs@, k, c as nat, top), bases@, n as int);
            lemma_wsum_zero(tri_w(coeffs@, k, c as nat, top), bases@, n as int);
        }
        let mut running = Point::identity();
        let mut e: usize = nb;
        while e > 0
            invariant
                e <= nb,
                nb as int == top - 1,
                n == bases.len(),
                buckets.len() == nb,
                forall|d: int| 1 <= d <= nb ==> #[trigger] buckets@[d - 1].log() == wsum(
                    |jj: int| if digit_of(coeffs@, jj, k, c as nat) == d { 1int } else { 0int },
                    bases@,
                    n as int,
                ) % modulus(),
                p == pow2(c as nat) * h,
                top == pow2(c as nat),
                running.log() == wsum(ge_w(coeffs@, k, c as nat, e + 1), bases@, n as int) % modulus(),
                acc.log() == (p + wsum(tri_w(coeffs@, k, c as nat, e + 1), bases@, n as int)) % modulus(),
            decreases e,
        {
            let ghost ind = |jj: int| if digit_of(coeffs@, jj, k, c as nat) == e { 1int } else { 0int };
            let ghost r_old = wsum(ge_w(coeffs@, k, c as nat, e + 1), bases@, n as int);
            let ghost t_old = wsum(tri_w(coeffs@, k, c as nat, e + 1), bases@, n as int);
            proof {
                assert(buckets@[e - 1].log() == wsum(ind, bases@, n as int) % modulus());
            }
            running = buckets[e - 1].add(running);
            proof {
                lemma_add_step(wsum(ind, bases@, n as int), r_old);
                assert forall|jj: int| 0 <= jj < n implies #[trigger] ge_w(coeffs@, k, c as nat, e as int)(jj) == 1 * ind(jj) + ge_w(coeffs@, k, c as nat, e + 1)(jj) by {
                    let d = digit_of(coeffs@, jj, k, c as nat);
                    assert(ge_w(coeffs@, k, c as nat, e as int)(jj) == if d >= e as int { 1int } else { 0int });
                    assert(ge_w(coeffs@, k, c as nat, e + 1)(jj) == if d >= e + 1 { 1int } else { 0int });
                    assert(ind(jj) == if d == e as int { 1int } else { 0int });
                }
                lemma_wsum_linear(ind, ge_w(coeffs@, k, c as nat, e + 1), ge_w(coeffs@, k, c as nat, e as int), 1, bases@, n as int);
            }
            acc = acc.add(&running);
            proof {
                let r_new = wsum(ge_w(coeffs@, k, c as nat, e as int), bases@, n as int);
                lemma_add_step(p + t_old, r_new);
                assert forall|jj: int| 0 <= jj < n implies #[trigger] tri_w(coeffs@, k, c as nat, e as int)(jj) == 1 * ge_w(coeffs@, k, c as nat, e as int)(jj) + tri_w(coeffs@, k, c as nat, e + 1)(jj) by {
                    let d = digit_of(coeffs@, jj, k, c as nat);
                    assert(ge_w(coeffs@, k, c as nat, e as int)(jj) == if d >= e as int { 1int } else { 0int });
                    assert(tri_w(coeffs@, k, c as nat, e + 1)(jj) == if d >= e + 1 { d - (e + 1) + 1 } else { 0int });
                    assert(tri_w(coeffs@, k, c as nat, e as int)(jj) == if d >= e as int { d - e + 1 } else { 0int });
                }
                lemma_wsum_linear(ge_w(coeffs@, k, c as nat, e as int), tri_w(coeffs@, k, c as nat, e + 1), tri_w(coeffs@, k, c as nat, e as int), 1, bases@, n as int);
            }
            e = e - 1;
        }
        proof {
            let dig = |jj: int| digit_of(coeffs@, jj, k, c as nat);
            let hk = |jj: int| scalar_hi(coeffs@[jj].limbs, k);
            let hk2 = |jj: int| scalar_hi(coeffs@[jj].limbs, (k + c) as nat);
            assert forall|jj: int| 0 <= jj < n implies #[trigger] tri_w(coeffs@, k, c as nat, 1)(jj) == 0 * dig(jj) + dig(jj) by {
                lemma_digit_bound(coeffs@[jj].limbs, k, c as nat);
            }
            lemma_wsum_linear(dig, dig, tri_w(coeffs@, k, c as nat, 1), 0, bases@, n as int);
            assert forall|jj: int| 0 <= jj < n implies #[trigger] hk(jj) == top * hk2(jj) + dig(jj) by {
                lemma_hi_split(coeffs@[jj].limbs, k, c as nat);
            }
            lemma_wsum_linear(hk2, dig, hk, top, bases@, n as int);
            assert(hk2 == (|i: int| scalar_hi(coeffs@[i].limbs, (k + c) as nat)));
        }
    }
    proof {
        assert forall|i: int| 0 <= i < n implies #[trigger] scalar_hi(coeffs@[i].limbs, 0) == coeffs@[i].value() by {
            lemma_hi_zero(coeffs@[i].limbs);
        }
        lemma_wsum_linear(
            |i: int| 0int,
            |i: int| scalar_hi(coeffs@[i].limbs, 0),
            |i: int| coeffs@[i].value(),
            0,
            bases@,
            n as int,
        );
        lemma_msm_is_wsum(coeffs@, bases@, n as int);
        assert((0 * c) as nat == 0);
    }
    acc
}

/// The sum over a run of pairs splits at any index.
pub proof fn lemma_msm_sum_split(coeffs: Seq<Scalar>, bases: Seq<Point>, s: int, e: int)
    requires
        0 <= s <= e <= coeffs.len(),
        coeffs.len() == bases.len(),
    ensures
        msm_sum(coeffs, bases, e) == msm_sum(coeffs, bases, s) + msm_sum(
            coeffs.subrange(s, e),
            bases.subrange(s, e),
            e - s,
        ),
    decreases e - s,
{
    if e > s {
        lemma_msm_sum_split(coeffs, bases, s, e - 1);
        let c2 = coeffs.subrange(s, e);
        let b2 = bases.subrange(s, e);
        assert(msm_sum(c2, b2, e - 1 - s) == msm_sum(coeffs.subrange(s, e - 1), bases.subrange(s, e - 1), e - 1 - s)) by {
            lemma_msm_sum_prefix(c2, b2, coeffs.subrange(s, e - 1), bases.subrange(s, e - 1), e - 1 - s);
        }
    }
}

/// The sum over the first `n` pairs reads only those pairs.
proof fn lemma_msm_sum_prefix(c1: Seq<Scalar>, b1: Seq<Point>, c2: Seq<Scalar>, b2: Seq<Point>, n: int)
    requires
        0 <= n <= c1.len(),
        n <= c2.len(),
        n <= b1.len(),
        n <= b2.len(),
        forall|i: int| 0 <= i < n ==> c1[i] == c2[i] && b1[i] == b2[i],
    ensures
        msm_sum(c1, b1, n) == msm_sum(c2, b2, n),
    decreases n,
{
    if n > 0 {
        lemma_msm_sum_prefix(c1, b1, c2, b2, n - 1);
    }
}

/// Job `k` holds the pairs from the end of job `k - 1` (or zero) to `ends[k]`.
pub open spec fn job_ok(
    coeffs: Seq<Scalar>,
    bases: Seq<Point>,
    ends: Seq<int>,
    job: (Vec<Scalar>, Vec<Point>),
    k: int,
) -> bool {
    let lo = if k == 0 { 0 } else { ends[k - 1] };
    &&& 0 <= lo < ends[k] <= coeffs.len()
    &&& job.0@ == coeffs.subrange(lo, ends[k])
    &&& job.1@ == bases.subrange(lo, ends[k])
}

/// Multi-exponentiation with the work cut into runs for `threads` workers; the
/// result does not depend on `threads`.
pub fn multiexp_with(coeffs: &[Scalar], bases: &[Point], threads: usize) -> (r: Point)
    requires
        coeffs.len() == bases.len(),
        threads >= 1,
    ensures
        r.log() == msm_sum(coeffs@, bases@, coeffs.len() as int) % modulus(),
{
    let n = coeffs.len();
    if n > threads {
        let chunk = n / threads;
        assert(chunk >= 1) by {
            vstd::arithmetic::div_mod::lemma_div_is_ordered(threads as int, n as int, threads as int);
            vstd::arithmetic::div_mod::lemma_div_by_self(threads as int);
        }
        let mut jobs: Vec<(Vec<Scalar>, Vec<Point>)> = Vec::new();
        let ghost mut ends: Seq<int> = Seq::empty();
        let mut s: usize = 0;
        while s < n
            invariant
                s <= n,
                n == coeffs.len(),
                n == bases.len(),
                chunk >= 1,
                jobs.len() == ends.len(),
                s == if ends.len() == 0 { 0 } else { ends.last() },
                forall|k: int| 0 <= k < jobs.len() ==> #[trigger] job_ok(coeffs@, bases@, ends, jobs@[k], k),
            decreases n - s,
        {
            let e = if n - s > chunk { s + chunk } else { n };
            let cs = vstd::slice::slice_to_vec(vstd::slice::slice_subrange(coeffs, s, e));
            let bs = vstd::slice::slice_to_vec(vstd::slice::slice_subrange(bases, s, e));
            let ghost old_ends = ends;
            let ghost old_jobs = jobs@;
            jobs.push((cs, bs));
            proof {
                ends = ends.push(e as int);
                assert forall|k: int| 0 <= k < jobs.len() implies #[trigger] job_ok(coeffs@, bases@, ends, jobs@[k], k) by {
                    if k < old_jobs.len() {
                        assert(job_ok(coeffs@, bases@, old_ends, old_jobs[k], k));
                        assert(jobs@[k] == old_jobs[k]);
                        assert(ends[k] == old_ends[k]);
                        if k > 0 {
                            assert(ends[k - 1] == old_ends[k - 1]);
                        }
                    } else {
                        assert(k == old_jobs.len());
                        if k > 0 {
                            assert(ends[k - 1] == old_ends.last());
                        }
                    }
                }
            }
            s = e;
        }
        let ghost js = jobs@;
        proof {
            assert(ends.len() > 0 ==> ends.last() == n);
            if ends.len() == 0 {
                assert(s == 0);
            }
        }
        let run = |job: (Vec<Scalar>, Vec<Point>)| -> (r: Point)
            ensures
                job.0.len() == job.1.len() ==> r.log() == msm_sum(job.0@, job.1@, job.0.len() as int) % modulus(),
            {
                if job.0.len() == job.1.len() {
                    multiexp_serial(job.0.as_slice(), job.1.as_slice())
                } else {
                    Point::identity()
                }
            };
        let parts = map_on_workers(jobs, &run);
        let mut acc = Point::identity();
        let mut k: usize = 0;
        while k < parts.len()
            invariant
                k <= parts.len(),
                parts.len() == js.len(),
                js.len() == ends.len(),
                n == coeffs.len(),
                n == bases.len(),
                ends.len() > 0 ==> ends.last() == n,
                forall|q: int| 0 <= q < js.len() ==> #[trigger] run.ensures((js[q],), parts@[q]),
                forall|job: (Vec<Scalar>, Vec<Point>), r: Point|
                    #[trigger] run.ensures((job,), r) ==> (job.0.len() == job.1.len() ==> r.log() == msm_sum(
                        job.0@,
                        job.1@,
                        job.0.len() as int,
                    ) % modulus()),
                forall|q: int| 0 <= q < js.len() ==> #[trigger] job_ok(coeffs@, bases@, ends, js[q], q),
                acc.log() == msm_sum(coeffs@, bases@, if k == 0 { 0 } else { ends[k - 1] }) % modulus(),
            decreases parts.len() - k,
        {
            let ghost lo = if k == 0 { 0 } else { ends[k - 1] };
            let ghost hi = ends[k as int];
            proof {
                assert(run.ensures((js[k as int],), parts@[k as int]));
                let job = js[k as int];
                assert(job_ok(coeffs@, bases@, ends, js[k as int], k as int));
                assert(job.0@ == coeffs@.subrange(lo, hi));
                assert(job.1@ == bases@.subrange(lo, hi));
                assert(job.0@.len() == hi - lo);
                assert(job.0@.len() == job.1@.len());
                assert(job.0.len() == job.1.len());
                assert(parts@[k as int].log() == msm_sum(job.0@, job.1@, job.0.len() as int) % modulus());
                assert(parts@[k as int].log() == msm_sum(job.0@, job.1@, hi - lo) % modulus());
                lemma_msm_sum_split(coeffs@, bases@, lo, hi);
                lemma_add_step(msm_sum(coeffs@, bases@, lo), msm_sum(job.0@, job.1@, hi - lo));
            }
            acc = acc.add(&parts[k]);
            k = k + 1;
        }
        acc
    } else {
        multiexp_serial(coeffs, bases)
    }
}

/// Performs a multi-exponentiation operation.
///
/// This will use multithreading if beneficial.
pub fn multiexp_cpu(coeffs: &[Scalar], bases: &[Point]) -> (r: Point)
    requires
        coeffs.len() == bases.len(),
    ensures
        r.log() == msm_sum(coeffs@, bases@, coeffs.len() as int) % modulus(),
{
    let threads = current_num_threads();
    multiexp_with(coeffs, bases, threads)
}

/// Performs a multi-exponentiation operation on the configured path.
pub fn best_multiexp(coeffs: &[Scalar], bases: &[Point]) -> (r: Point)
    requires
        coeffs.len() == bases.len(),
    ensures
        r.log() == msm_sum(coeffs@, bases@, coeffs.len() as int) % modulus(),
{
    multiexp_cpu(coeffs, bases)
}

/// Results computed for two worker counts on the same pairs denote the same point
/// whenever both meet the contract of `multiexp_with`.
pub proof fn lemma_msm_thread_invariance(
    coeffs: Seq<Scalar>,
    bases: Seq<Point>,
    with_one: Point,
    with_many: Point,
)
    requires
        coeffs.len() == bases.len(),
        with_one.log() == msm_sum(coeffs, bases, coeffs.len() as int) % modulus(),
        with_many.log() == msm_sum(coeffs, bases, coeffs.len() as int) % modulus(),
    ensures
        with_one.eq_point_spec(with_many),
{
}

/// The windowed result and the double-and-add reference denote the same point
/// whenever both meet their contracts on the same pairs.
pub proof fn lemma_msm_matches_reference(coeffs: Seq<Scalar>, bases: Seq<Point>, windowed: Point, reference: Point)
    requires
        coeffs.len() == bases.len(),
        windowed.log() == msm_sum(coeffs, bases, coeffs.len() as int) % modulus(),
        reference.log() == msm_sum(coeffs, bases, coeffs.len() as int) % modulus(),
    ensures
        windowed.eq_point_spec(reference),
{
}

} // verus!

use crate::curve::Point;
use crate::field::{
    lemma_mul_mod_left, modulus, pow, root_of_unity_inv, root_of_unity_inv_value, two_adicity, two_inv,
    two_inv_value, Scalar,
};
use crate::parallel::{current_num_threads, log2_floor};
use vstd::arithmetic::power2::pow2;
use vstd::prelude::*;

verus! {

/// This represents an element of a group with basic operations that can be
/// performed. This allows an FFT implementation (for example) to operate
/// generically over either a field or elliptic curve group. Every element stands
/// for an integer modulo r.
pub trait FftGroup: Copy + Sized {
    /// The element as an integer modulo r.
    spec fn elem(&self) -> int;

    /// The value is a proper element of the group.
    spec fn valid(&self) -> bool;

    /// Whether the value is a proper element of the group.
    fn is_valid(&self) -> (r: bool)
        ensures
            r == self.valid(),
    ;

    proof fn lemma_elem_range(&self)
        requires
            self.valid(),
        ensures
            0 <= self.elem() < modulus(),
    ;

    fn group_add(&self, o: &Self) -> (r: Self)
        requires
            self.valid(),
            o.valid(),
        ensures
            r.valid(),
            r.elem() == (self.elem() + o.elem()) % modulus(),
    ;

    fn group_sub(&self, o: &Self) -> (r: Self)
        requires
            self.valid(),
            o.valid(),
        ensures
            r.valid(),
            r.elem() == (self.elem() - o.elem()) % modulus(),
    ;

    fn group_scale(&self, s: &Scalar) -> (r: Self)
        requires
            self.valid(),
            s.wf(),
        ensures
            r.valid(),
            r.elem() == (self.elem() * s.value()) % modulus(),
    ;
}

impl FftGroup for Scalar {
    open spec fn elem(&self) -> int {
        self.value()
    }

    open spec fn valid(&self) -> bool {
        self.wf()
    }

    proof fn lemma_elem_range(&self) {
    }

    fn is_valid(&self) -> (r: bool) {
        self.is_canonical()
    }

    fn group_add(&self, o: &Self) -> (r: Self) {
        self.add(o)
    }

    fn group_sub(&self, o: &Self) -> (r: Self) {
        self.sub(o)
    }

    fn group_scale(&self, s: &Scalar) -> (r: Self) {
        self.mul(s)
    }
}

impl FftGroup for Point {
    open spec fn elem(&self) -> int {
        self.log()
    }

    open spec fn valid(&self) -> bool {
        true
    }

    proof fn lemma_elem_range(&self) {
        self.lemma_log_range();
    }

    fn is_valid(&self) -> (r: bool) {
        true
    }

    fn group_add(&self, o: &Self) -> (r: Self) {
        self.add(o)
    }

    fn group_sub(&self, o: &Self) -> (r: Self) {
        self.sub(o)
    }

    fn group_scale(&self, s: &Scalar) -> (r: Self) {
        self.mul(s)
    }
}

/// The elements as integers modulo r.
pub open spec fn elems<G: FftGroup>(s: Seq<G>) -> Seq<int> {
    s.map_values(|g: G| g.elem())
}

/// Every element is valid.
pub open spec fn all_valid<G: FftGroup>(s: Seq<G>) -> bool {
    forall|i: int| 0 <= i < s.len() ==> #[trigger] s[i].valid()
}

/// The values of twiddle factors.
pub open spec fn values(s: Seq<Scalar>) -> Seq<int> {
    s.map_values(|x: Scalar| x.value())
}

/// One butterfly layer: halves `l` and `r` become `l[i] + r[i] w_i` and
/// `l[i] - r[i] w_i`, with `w_i = tw[i * stride]` (the first pair takes no factor).
pub open spec fn combine(l: Seq<int>, r: Seq<int>, tw: Seq<int>, stride: int) -> Seq<int> {
    let h = l.len();
    Seq::new(
        2 * h,
        |i: int|
            if i < h {
                if i == 0 {
                    (l[0] + r[0]) % modulus()
                } else {
                    (l[i] + (r[i] * tw[i * stride]) % modulus()) % modulus()
                }
            } else if i == h {
                (l[0] - r[0]) % modulus()
            } else {
                (l[i - h] - (r[i - h] * tw[(i - h) * stride]) % modulus()) % modulus()
            },
    )
}

/// The radix-2 butterfly network on `a` (already in bit-reversed order): each half
/// is transformed with twice the twiddle stride, then the halves are combined.
pub open spec fn network(a: Seq<int>, tw: Seq<int>, stride: int) -> Seq<int>
    decreases a.len(),
{
    if a.len() <= 1 {
        a
    } else {
        let h = (a.len() / 2) as int;
        combine(
            network(a.subrange(0, h), tw, 2 * stride),
            network(a.subrange(h, a.len() as int), tw, 2 * stride),
            tw,
            stride,
        )
    }
}

/// `n` is a power of two.
pub open spec fn is_pow2(n: nat) -> bool {
    exists|m: nat| vstd::arithmetic::power2::pow2(m) == n
}

/// Combines the halves `a[off .. off + h]` and `a[off + h .. off + 2h]` in place.
fn butterfly_combine<G: FftGroup>(a: &mut Vec<G>, off: usize, h: usize, stride: usize, tw: &[Scalar])
    requires
        h >= 1,
        off + 2 * h <= old(a).len(),
        (h - 1) * stride < tw.len(),
        all_valid(old(a)@),
        forall|i: int| 0 <= i < tw.len() ==> #[trigger] tw@[i].wf(),
    ensures
        final(a).len() == old(a).len(),
        all_valid(final(a)@),
        elems(final(a)@).subrange(off as int, off + 2 * h) == combine(
            elems(old(a)@).subrange(off as int, off + h),
            elems(old(a)@).subrange(off + h, off + 2 * h),
            values(tw@),
            stride as int,
        ),
        forall|i: int|
            0 <= i < final(a).len() && !(off <= i < off + 2 * h) ==> #[trigger] final(a)@[i] == old(a)@[i],
{
    let ghost a0 = a@;
    let ghost l = elems(a0).subrange(off as int, off + h);
    let ghost r = elems(a0).subrange(off + h, off + 2 * h);
    let ghost want = combine(l, r, values(tw@), stride as int);
    let mut i: usize = 0;
    while i < h
        invariant
            i <= h,
            h >= 1,
            off + 2 * h <= a.len(),
            a.len() == a0.len(),
            (h - 1) * stride < tw.len(),
            all_valid(a@),
            forall|j: int| 0 <= j < tw.len() ==> #[trigger] tw@[j].wf(),
            l == elems(a0).subrange(off as int, off + h),
            r == elems(a0).subrange(off + h, off + 2 * h),
            want == combine(l, r, values(tw@), stride as int),
            forall|j: int| 0 <= j < i ==> #[trigger] a@[off + j].elem() == want[j],
            forall|j: int| 0 <= j < i ==> #[trigger] a@[off + h + j].elem() == want[h + j],
            forall|j: int| i <= j < h ==> #[trigger] a@[off + j] == a0[off + j],
            forall|j: int| i <= j < h ==> #[trigger] a@[off + h + j] == a0[off + h + j],
            forall|j: int|
                0 <= j < a.len() && !(off <= j < off + 2 * h) ==> #[trigger] a@[j] == a0[j],
        decreases h - i,
    {
        let x = a[off + i];
        let y = a[off + h + i];
        assert(a@[off + i].valid() && a@[off + h + i].valid());
        let t = if i == 0 {
            y
        } else {
            proof {
                assert(i * stride <= (h - 1) * stride) by (nonlinear_arith)
                    requires
                        i <= h - 1,
                ;
            }
            y.group_scale(&tw[i * stride])
        };
        let u = x.group_add(&t);
        let v = x.group_sub(&t);
        a.set(off + i, u);
        a.set(off + h + i, v);
        proof {
            assert(x.elem() == l[i as int]);
            assert(y.elem() == r[i as int]);
            if i > 0 {
                assert(values(tw@)[i * stride] == tw@[i * stride].value());
            }
            assert(a@[off + i] == u);
            assert(a@[off + h + i] == v);
            assert(want[i as int] == u.elem());
            assert(want[h + i] == v.elem());
        }
        i = i + 1;
    }
    proof {
        assert(elems(a@).subrange(off as int, off + 2 * h) =~= want) by {
            assert forall|j: int| 0 <= j < 2 * h implies #[trigger] elems(a@).subrange(off as int, off + 2 * h)[j] == want[j] by {
                if j < h {
                    assert(a@[off + j].elem() == want[j]);
                } else {
                    let jj = j - h;
                    assert(a@[off + h + jj].elem() == want[h + jj]);
                    assert(off + h + jj == off + j);
                }
            }
        }
    }
}

/// The butterfly network on `a[off .. off + n]`, recursing on the halves.
fn butterfly_at<G: FftGroup>(a: &mut Vec<G>, off: usize, n: usize, stride: usize, tw: &[Scalar], Ghost(m): Ghost<nat>)
    requires
        m >= 1,
        n as int == vstd::arithmetic::power2::pow2(m),
        off + n <= old(a).len(),
        stride >= 1,
        n * stride <= 2 * tw.len(),
        all_valid(old(a)@),
        forall|i: int| 0 <= i < tw.len() ==> #[trigger] tw@[i].wf(),
    ensures
        final(a).len() == old(a).len(),
        all_valid(final(a)@),
        elems(final(a)@).subrange(off as int, off + n) == network(
            elems(old(a)@).subrange(off as int, off + n),
            values(tw@),
            stride as int,
        ),
        forall|i: int|
            0 <= i < final(a).len() && !(off <= i < off + n) ==> #[trigger] final(a)@[i] == old(a)@[i],
    decreases m,
{
    let ghost a0 = elems(a@);
    let h = n / 2;
    proof {
        vstd::arithmetic::power2::lemma_pow2_unfold(m);
        assert(h as int == vstd::arithmetic::power2::pow2((m - 1) as nat));
        vstd::arithmetic::power2::lemma_pow2_pos((m - 1) as nat);
    }
    if n == 2 {
        proof {
            assert(0 * stride == 0);
        }
        butterfly_combine(a, off, 1, stride, tw);
        proof {
            let w = a0.subrange(off as int, off + 2);
            assert(w.subrange(0, 1) =~= a0.subrange(off as int, off + 1));
            assert(w.subrange(1, 2) =~= a0.subrange(off + 1, off + 2));
            let tv = values(tw@);
            assert(network(w.subrange(0, 1), tv, 2 * stride) == w.subrange(0, 1));
            assert(network(w.subrange(1, 2), tv, 2 * stride) == w.subrange(1, 2));
            assert(network(w, tv, stride as int) == combine(
                network(w.subrange(0, 1), tv, 2 * stride),
                network(w.subrange(1, 2), tv, 2 * stride),
                tv,
                stride as int,
            ));
        }
    } else {
        proof {
            if m == 1 {
                vstd::arithmetic::power2::lemma2_to64();
                assert(false);
            }
            vstd::arithmetic::power2::lemma_pow2_unfold((m - 1) as nat);
            assert(h * (2 * stride) == n * stride && 2 * stride <= tw.len()) by (nonlinear_arith)
                requires
                    n == 2 * h,
                    h >= 2,
                    n * stride <= 2 * tw.len(),
            ;
        }
        butterfly_at(a, off, h, 2 * stride, tw, Ghost((m - 1) as nat));
        let ghost a1 = elems(a@);
        butterfly_at(a, off + h, h, 2 * stride, tw, Ghost((m - 1) as nat));
        let ghost a2 = elems(a@);
        proof {
            assert((h - 1) * stride < tw.len()) by (nonlinear_arith)
                requires
                    n == 2 * h,
                    stride >= 1,
                    n * stride <= 2 * tw.len(),
            ;
            assert(a2.subrange(off as int, off + h) =~= a1.subrange(off as int, off + h));
            assert(a1.subrange(off + h, off + n) =~= a0.subrange(off + h, off + n));
        }
        butterfly_combine(a, off, h, stride, tw);
        proof {
            let w = a0.subrange(off as int, off + n);
            assert(w.subrange(0, h as int) =~= a0.subrange(off as int, off + h));
            assert(w.subrange(h as int, n as int) =~= a0.subrange(off + h, off + n));
        }
    }
}

/// This perform recursive butterfly arithmetic
pub fn recursive_butterfly_arithmetic<G: FftGroup>(a: &mut Vec<G>, n: usize, twiddle_chunk: usize, twiddles: &[Scalar])
    requires
        n == old(a).len(),
        n >= 2,
        is_pow2(n as nat),
        twiddle_chunk >= 1,
        n * twiddle_chunk <= 2 * twiddles.len(),
        all_valid(old(a)@),
        forall|i: int| 0 <= i < twiddles.len() ==> #[trigger] twiddles@[i].wf(),
    ensures
        final(a).len() == n,
        all_valid(final(a)@),
        elems(final(a)@) == network(elems(old(a)@), values(twiddles@), twiddle_chunk as int),
{
    let ghost m = choose|m: nat| vstd::arithmetic::power2::pow2(m) == n;
    proof {
        if m == 0 {
            vstd::arithmetic::power2::lemma2_to64();
            assert(false);
        }
    }
    let ghost before = elems(a@);
    butterfly_at(a, 0, n, twiddle_chunk, twiddles, Ghost(m));
    proof {
        assert(before.subrange(0, n as int) =~= before);
        assert(elems(a@).subrange(0, n as int) =~= elems(a@));
    }
}

/// Block `q` of `size` elements.
pub open spec fn block(s: Seq<int>, q: int, size: int) -> Seq<int> {
    s.subrange(q * size, (q + 1) * size)
}

/// The butterfly network with every layer run as a flat pass over all blocks.
fn flat_butterfly<G: FftGroup>(a: &mut Vec<G>, log_n: u32, tw: &[Scalar])
    requires
        log_n >= 1,
        old(a).len() as int == vstd::arithmetic::power2::pow2(log_n as nat),
        2 * tw.len() == old(a).len(),
        all_valid(old(a)@),
        forall|i: int| 0 <= i < tw.len() ==> #[trigger] tw@[i].wf(),
    ensures
        final(a).len() == old(a).len(),
        all_valid(final(a)@),
        elems(final(a)@) == network(elems(old(a)@), values(tw@), 1),
{
    let n = a.len();
    let ghost input = elems(a@);
    let ghost tv = values(tw@);
    let mut half: usize = 1;
    let mut tc: usize = n / 2;
    let mut r: u32 = 0;
    proof {
        vstd::arithmetic::power2::lemma2_to64();
        vstd::arithmetic::power2::lemma_pow2_unfold(log_n as nat);
        assert forall|q: int| 0 <= q < n implies #[trigger] block(elems(a@), q, 1) == network(block(input, q, 1), tv, n as int) by {
            assert(block(input, q, 1).len() == 1);
        }
    }
    while r < log_n
        invariant
            r <= log_n,
            n == a.len(),
            n as int == vstd::arithmetic::power2::pow2(log_n as nat),
            2 * tw.len() == n,
            half as int == vstd::arithmetic::power2::pow2(r as nat),
            r < log_n ==> tc as int == vstd::arithmetic::power2::pow2((log_n - r - 1) as nat),
            r == log_n ==> half == n,
            input.len() == n,
            tv == values(tw@),
            all_valid(a@),
            forall|i: int| 0 <= i < tw.len() ==> #[trigger] tw@[i].wf(),
            forall|q: int| 0 <= q < n as int / half as int ==> #[trigger] block(elems(a@), q, half as int) == network(block(input, q, half as int), tv, n as int / half as int),
        decreases log_n - r,
    {
        proof {
            vstd::arithmetic::power2::lemma_pow2_unfold((r + 1) as nat);
            vstd::arithmetic::power2::lemma_pow2_pos(r as nat);
            vstd::arithmetic::power2::lemma_pow2_pos((log_n - r - 1) as nat);
            vstd::arithmetic::power2::lemma_pow2_adds((r + 1) as nat, (log_n - r - 1) as nat);
            assert((r + 1) as nat + (log_n - r - 1) as nat == log_n as nat);
            let pw_next = vstd::arithmetic::power2::pow2((r + 1) as nat) as int;
            assert(half * (2 * tc) == n) by (nonlinear_arith)
                requires
                    pw_next == 2 * half,
                    pw_next * tc == n,
            ;
            assert(2 * half <= n) by (nonlinear_arith)
                requires
                    half * (2 * tc) == n,
                    tc >= 1,
                    half >= 1,
            ;
        }
        let size = 2 * half;
        let nchunks = n / size;
        let ghost start = elems(a@);
        proof {
            assert(n as int / half as int == 2 * tc) by {
                vstd::arithmetic::div_mod::lemma_div_multiples_vanish(2 * tc as int, half as int);
            }
            assert(size * tc == n) by (nonlinear_arith)
                requires
                    half * (2 * tc) == n,
                    size == 2 * half,
            ;
            vstd::arithmetic::div_mod::lemma_div_multiples_vanish(tc as int, size as int);
            assert(nchunks == tc);
            assert(nchunks * size == n) by (nonlinear_arith)
                requires
                    nchunks == tc,
                    size * tc == n,
            ;
        }
        let mut q: usize = 0;
        while q < nchunks
            invariant
                q <= nchunks,
                nchunks * size == n,
                size == 2 * half,
                half >= 1,
                tc >= 1,
                size * tc == n,
                n == a.len(),
                2 * tw.len() == n,
                tv == values(tw@),
                start.len() == n,
                input.len() == n,
                all_valid(a@),
                forall|i: int| 0 <= i < tw.len() ==> #[trigger] tw@[i].wf(),
                forall|p: int| 0 <= p < n as int / half as int ==> #[trigger] block(start, p, half as int) == network(block(input, p, half as int), tv, 2 * tc),
                forall|p: int| 0 <= p < q ==> #[trigger] block(elems(a@), p, size as int) == network(block(input, p, size as int), tv, tc as int),
                forall|i: int| q * size <= i < n ==> #[trigger] elems(a@)[i] == start[i],
            decreases nchunks - q,
        {
            proof {
                assert(q * size + size <= n) by (nonlinear_arith)
                    requires
                        q < nchunks,
                        nchunks * size == n,
                ;
                assert((half - 1) * tc < tw.len()) by (nonlinear_arith)
                    requires
                        size == 2 * half,
                        size * tc == n,
                        2 * tw.len() == n,
                        tc >= 1,
                ;
            }
            let ghost before = elems(a@);
            butterfly_combine(a, q * size, half, tc, tw);
            proof {
                let off = q * size;
                assert(n as int / half as int == 2 * nchunks) by (nonlinear_arith)
                    requires
                        nchunks * size == n,
                        size == 2 * half,
                        half >= 1,
                ;
                let blk = 2 * q as int;
                assert(blk * half == off && (blk + 1) * half == off + half && (blk + 2) * half == off + size) by (nonlinear_arith)
                    requires
                        blk == 2 * q,
                        off == q * size,
                        size == 2 * half,
                ;
                assert(block(start, blk, half as int) == network(block(input, blk, half as int), tv, 2 * tc));
                assert(block(start, blk + 1, half as int) == network(block(input, blk + 1, half as int), tv, 2 * tc));
                assert(before.subrange(off as int, off + half) =~= block(start, blk, half as int));
                assert(before.subrange(off + half, off + size) =~= block(start, blk + 1, half as int));
                let whole = block(input, q as int, size as int);
                assert((q + 1) * size == off + size) by (nonlinear_arith)
                    requires
                        off == q * size,
                ;
                assert(whole.subrange(0, half as int) =~= block(input, blk, half as int));
                assert(whole.subrange(half as int, size as int) =~= block(input, blk + 1, half as int));
                assert(whole.len() == size);
                assert(network(whole, tv, tc as int) == combine(
                    network(whole.subrange(0, half as int), tv, 2 * tc),
                    network(whole.subrange(half as int, size as int), tv, 2 * tc),
                    tv,
                    tc as int,
                ));
                assert(block(elems(a@), q as int, size as int) =~= elems(a@).subrange(off as int, off + size));
                assert forall|p: int| 0 <= p < q + 1 implies #[trigger] block(elems(a@), p, size as int) == network(block(input, p, size as int), tv, tc as int) by {
                    if p < q {
                        assert(p * size + size <= off) by (nonlinear_arith)
                            requires
                                p < q,
                                off == q * size,
                        ;
                        assert((p + 1) * size == p * size + size) by (nonlinear_arith);
                        assert(block(elems(a@), p, size as int) =~= block(before, p, size as int));
                    }
                }
                assert forall|i: int| (q + 1) * size <= i < n implies #[trigger] elems(a@)[i] == start[i] by {
                    assert(elems(a@)[i] == before[i]);
                }
            }
            q = q + 1;
        }
        proof {
            assert(n as int / size as int == nchunks) by {
                vstd::arithmetic::div_mod::lemma_div_multiples_vanish(nchunks as int, size as int);
                vstd::arithmetic::mul::lemma_mul_is_commutative(nchunks as int, size as int);
            }
            assert(n as int / size as int == tc) by {
                vstd::arithmetic::div_mod::lemma_div_multiples_vanish(tc as int, size as int);
            }
            if r + 1 < log_n {
                vstd::arithmetic::power2::lemma_pow2_unfold((log_n - r - 1) as nat);
                assert((log_n - r - 1 - 1) as nat == (log_n - (r + 1) - 1) as nat);
            } else {
                vstd::arithmetic::power2::lemma_pow2_adds((r + 1) as nat, 0);
                assert(size == n);
            }
        }
        half = size;
        tc = tc / 2;
        r = r + 1;
    }
    proof {
        vstd::arithmetic::power2::lemma_pow2_pos(log_n as nat);
        vstd::arithmetic::div_mod::lemma_div_by_self(n as int);
        assert(n as int / half as int == 1);
        assert(block(elems(a@), 0, n as int) =~= elems(a@));
        assert(block(input, 0, n as int) =~= input);
    }
}

/// The lowest `l` bits of `k` in reverse order.
pub open spec fn bitrev(k: nat, l: nat) -> nat
    decreases l,
{
    if l == 0 {
        0
    } else {
        ((k % 2) * pow2((l - 1) as nat) + bitrev(k / 2, (l - 1) as nat)) as nat
    }
}

proof fn lemma_bitrev_bound(k: nat, l: nat)
    ensures
        bitrev(k, l) < pow2(l),
    decreases l,
{
    vstd::arithmetic::power2::lemma_pow2_pos(l);
    if l > 0 {
        lemma_bitrev_bound(k / 2, (l - 1) as nat);
        vstd::arithmetic::power2::lemma_pow2_unfold(l);
        let p = pow2((l - 1) as nat) as int;
        assert((k % 2) * p <= p) by (nonlinear_arith)
            requires
                k % 2 <= 1,
                p >= 0,
        ;
    }
}

/// Bit `i` of `x`.
pub open spec fn bit(x: nat, i: nat) -> nat {
    (x / pow2(i)) % 2
}

proof fn lemma_bit_half(x: nat, j: nat)
    ensures
        bit(x / 2, j) == bit(x, j + 1),
{
    vstd::arithmetic::power2::lemma_pow2_pos(j);
    vstd::arithmetic::power2::lemma_pow2_unfold(j + 1);
    vstd::arithmetic::div_mod::lemma_div_denominator(x as int, 2, pow2(j) as int);
}

/// Adding a top bit `b0` at position `m` above `r < 2^m` keeps the bits below it.
proof fn lemma_bit_add_high(b0: nat, r: nat, m: nat, i: nat)
    requires
        b0 <= 1,
        r < pow2(m),
        i <= m,
    ensures
        i < m ==> bit(b0 * pow2(m) + r, i) == bit(r, i),
        i == m ==> bit(b0 * pow2(m) + r, i) == b0,
{
    vstd::arithmetic::power2::lemma_pow2_pos(i);
    vstd::arithmetic::power2::lemma_pow2_adds((m - i) as nat, i);
    assert(((m - i) as nat + i) as nat == m);
    let d = pow2(i) as int;
    let j = b0 * pow2((m - i) as nat);
    assert(b0 * pow2(m) == j * d) by (nonlinear_arith)
        requires
            pow2(m) == pow2((m - i) as nat) * pow2(i),
            j == b0 * pow2((m - i) as nat),
            d == pow2(i),
    ;
    vstd::arithmetic::div_mod::lemma_hoist_over_denominator(r as int, j as int, d as nat);
    if i < m {
        vstd::arithmetic::power2::lemma_pow2_unfold((m - i) as nat);
        let h = b0 * pow2((m - i - 1) as nat);
        assert(j == 2 * h) by (nonlinear_arith)
            requires
                j == b0 * pow2((m - i) as nat),
                pow2((m - i) as nat) == 2 * pow2((m - i - 1) as nat),
                h == b0 * pow2((m - i - 1) as nat),
        ;
        vstd::arithmetic::div_mod::lemma_div_pos_is_pos(r as int, d);
        vstd::arithmetic::div_mod::lemma_mod_multiples_vanish(h as int, (r as int) / d, 2);
    } else {
        assert(pow2(0) == 1) by {
            vstd::arithmetic::power2::lemma2_to64();
        }
        assert(j == b0);
        vstd::arithmetic::div_mod::lemma_basic_div(r as int, d);
    }
}

/// Numbers below `2^l` with the same low `l` bits are equal.
proof fn lemma_bits_eq(x: nat, y: nat, l: nat)
    requires
        x < pow2(l),
        y < pow2(l),
        forall|i: nat| i < l ==> #[trigger] bit(x, i) == bit(y, i),
    ensures
        x == y,
    decreases l,
{
    vstd::arithmetic::power2::lemma2_to64();
    if l > 0 {
        vstd::arithmetic::power2::lemma_pow2_unfold(l);
        assert forall|i: nat| i < (l - 1) as nat implies #[trigger] bit(x / 2, i) == bit(y / 2, i) by {
            lemma_bit_half(x, i);
            lemma_bit_half(y, i);
            assert(bit(x, i + 1) == bit(y, i + 1));
        }
        lemma_bits_eq(x / 2, y / 2, (l - 1) as nat);
        assert(bit(x, 0) == bit(y, 0));
        assert(x / 1 == x && y / 1 == y);
    }
}

/// Bit `i` of the reversal is bit `l - 1 - i` of `k`.
proof fn lemma_bitrev_bit(k: nat, l: nat, i: nat)
    requires
        i < l,
    ensures
        bit(bitrev(k, l), i) == bit(k, (l - 1 - i) as nat),
    decreases l,
{
    let m = (l - 1) as nat;
    let r = bitrev(k / 2, m);
    lemma_bitrev_bound(k / 2, m);
    assert(bitrev(k, l) == (k % 2) * pow2(m) + r);
    lemma_bit_add_high(k % 2, r, m, i);
    if i < m {
        lemma_bitrev_bit(k / 2, m, i);
        lemma_bit_half(k, (m - 1 - i) as nat);
        assert(((m - 1 - i) as nat + 1) as nat == (l - 1 - i) as nat);
    } else {
        vstd::arithmetic::power2::lemma2_to64();
        assert(k / 1 == k);
    }
}

/// Reversing twice gives back `k`.
pub proof fn lemma_bitrev_involution(k: nat, l: nat)
    requires
        k < pow2(l),
    ensures
        bitrev(bitrev(k, l), l) == k,
{
    let r = bitrev(k, l);
    lemma_bitrev_bound(k, l);
    lemma_bitrev_bound(r, l);
    assert forall|i: nat| i < l implies #[trigger] bit(bitrev(r, l), i) == bit(k, i) by {
        lemma_bitrev_bit(r, l, i);
        lemma_bitrev_bit(k, l, (l - 1 - i) as nat);
        assert((l - 1 - (l - 1 - i) as nat) as nat == i);
    }
    lemma_bits_eq(bitrev(r, l), k, l);
}

/// Reverses the lowest `l` bits of `n`.
fn bitreverse(n: usize, l: usize) -> (r: usize)
    requires
        pow2(l as nat) <= usize::MAX,
    ensures
        r as nat == bitrev(n as nat, l as nat),
        (r as nat) < pow2(l as nat),
{
    let mut m = n;
    let mut r: usize = 0;
    let mut j: usize = 0;
    proof {
        vstd::arithmetic::power2::lemma2_to64();
        lemma_bitrev_bound(n as nat, l as nat);
    }
    while j < l
        invariant
            j <= l,
            pow2(l as nat) <= usize::MAX,
            bitrev(n as nat, l as nat) == r * pow2((l - j) as nat) + bitrev(m as nat, (l - j) as nat),
            (r as nat) < pow2(j as nat),
            bitrev(n as nat, l as nat) < pow2(l as nat),
        decreases l - j,
    {
        proof {
            vstd::arithmetic::power2::lemma_pow2_unfold((l - j) as nat);
            vstd::arithmetic::power2::lemma_pow2_unfold((j + 1) as nat);
            if j + 1 < l {
                vstd::arithmetic::power2::lemma_pow2_strictly_increases((j + 1) as nat, l as nat);
            }
            let p = pow2((l - j - 1) as nat) as int;
            assert((l - j - 1) as nat == ((l - j) - 1) as nat);
            assert(r * (2 * p) + ((m % 2) * p + bitrev((m / 2) as nat, (l - j - 1) as nat)) == (2 * r + m % 2) * p
                + bitrev((m / 2) as nat, (l - j - 1) as nat)) by (nonlinear_arith);
        }
        r = 2 * r + m % 2;
        m = m / 2;
        j = j + 1;
    }
    proof {
        vstd::arithmetic::power2::lemma2_to64();
        assert(r * pow2(0) == r);
    }
    r
}

/// `s` in bit-reversed order: entry `i` is `s[bitrev(i, l)]`.
pub open spec fn bitrev_permuted(s: Seq<int>, l: nat) -> Seq<int> {
    Seq::new(s.len(), |i: int| s[bitrev(i as nat, l) as int])
}

/// The twiddle values `omega^i` for `i < half`.
pub open spec fn twiddle_values(omega: int, half: nat) -> Seq<int> {
    Seq::new(half, |i: int| pow(omega, i as nat) % modulus())
}

/// The radix-2 transform of `a` (length `2^log_n`) with root `omega`: bit-reversal
/// permutation, then the butterfly network over the powers of `omega`.
pub open spec fn fft_spec(a: Seq<int>, omega: int, log_n: nat) -> Seq<int> {
    network(bitrev_permuted(a, log_n), twiddle_values(omega, a.len() / 2), 1)
}

/// The powers `omega^i` for `i < half`.
fn twiddles(omega: &Scalar, half: usize) -> (tw: Vec<Scalar>)
    requires
        omega.wf(),
    ensures
        tw.len() == half,
        forall|i: int| 0 <= i < half ==> #[trigger] tw@[i].wf(),
        values(tw@) == twiddle_values(omega.value(), half as nat),
{
    let mut tw: Vec<Scalar> = Vec::new();
    let mut w = Scalar::one();
    let mut i: usize = 0;
    proof {
        vstd::arithmetic::div_mod::lemma_small_mod(1, modulus() as nat);
    }
    while i < half
        invariant
            i <= half,
            omega.wf(),
            w.wf(),
            w.value() == pow(omega.value(), i as nat) % modulus(),
            tw.len() == i,
            forall|j: int| 0 <= j < i ==> #[trigger] tw@[j].wf(),
            forall|j: int| 0 <= j < i ==> #[trigger] tw@[j].value() == pow(omega.value(), j as nat) % modulus(),
        decreases half - i,
    {
        tw.push(w);
        let next = w.mul(omega);
        proof {
            lemma_mul_mod_left(pow(omega.value(), i as nat), omega.value());
        }
        w = next;
        i = i + 1;
    }
    assert(values(tw@) =~= twiddle_values(omega.value(), half as nat));
    tw
}

/// Performs the radix-2 transform in place with `threads` workers' worth of
/// parallelism deciding between the flat and the recursive butterfly network; the
/// result is the same either way.
pub fn cpu_fft_with<G: FftGroup>(a: &mut Vec<G>, omega: Scalar, log_n: u32, threads: usize)
    requires
        log_n < 64,
        old(a).len() as int == pow2(log_n as nat),
        omega.wf(),
        threads >= 1,
        all_valid(old(a)@),
    ensures
        final(a).len() == old(a).len(),
        all_valid(final(a)@),
        elems(final(a)@) == fft_spec(elems(old(a)@), omega.value(), log_n as nat),
{
    let log_threads = log2_floor(threads);
    let n = a.len();
    let ghost input = elems(a@);
    let mut k: usize = 0;
    while k < n
        invariant
            k <= n,
            n == a.len(),
            n as int == pow2(log_n as nat),
            log_n < 64,
            all_valid(a@),
            input.len() == n,
            forall|i: int|
                0 <= i < n ==> #[trigger] elems(a@)[i] == if i < k || bitrev(i as nat, log_n as nat) < k {
                    input[bitrev(i as nat, log_n as nat) as int]
                } else {
                    input[i]
                },
        decreases n - k,
    {
        proof {
            assert(pow2(log_n as nat) <= usize::MAX);
        }
        let rk = bitreverse(k, log_n as usize);
        let ghost p = elems(a@);
        proof {
            lemma_bitrev_involution(k as nat, log_n as nat);
        }
        if k < rk {
            let x = a[k];
            let y = a[rk];
            a.set(k, y);
            a.set(rk, x);
        }
        proof {
            let l = log_n as nat;
            assert forall|i: int|
                0 <= i < n implies #[trigger] elems(a@)[i] == if i < k + 1 || bitrev(i as nat, l) < k + 1 {
                    input[bitrev(i as nat, l) as int]
                } else {
                    input[i]
                } by {
                lemma_bitrev_involution(i as nat, l);
                lemma_bitrev_bound(i as nat, l);
                if i == k {
                    if k < rk {
                        assert(elems(a@)[i] == p[rk as int]);
                    }
                } else if i == rk {
                    assert(elems(a@)[i] == p[k as int] || k >= rk);
                } else {
                    assert(elems(a@)[i] == p[i]);
                    if bitrev(i as nat, l) == k {
                        assert(i == rk);
                    }
                }
            }
        }
        k = k + 1;
    }
    proof {
        assert(elems(a@) =~= bitrev_permuted(input, log_n as nat)) by {
            assert forall|i: int| 0 <= i < n implies #[trigger] elems(a@)[i] == bitrev_permuted(input, log_n as nat)[i] by {
                lemma_bitrev_bound(i as nat, log_n as nat);
            }
        }
    }
    let half = n / 2;
    let tw = twiddles(&omega, half);
    proof {
        assert(input.len() / 2 == half as nat);
    }
    if log_n == 0 {
        proof {
            vstd::arithmetic::power2::lemma2_to64();
        }
    } else if log_n <= log_threads {
        proof {
            vstd::arithmetic::power2::lemma_pow2_unfold(log_n as nat);
        }
        flat_butterfly(a, log_n, tw.as_slice());
    } else {
        proof {
            vstd::arithmetic::power2::lemma_pow2_unfold(log_n as nat);
            vstd::arithmetic::power2::lemma_pow2_pos((log_n - 1) as nat);
            assert(is_pow2(n as nat));
        }
        recursive_butterfly_arithmetic(a, n, 1, tw.as_slice());
    }
}

/// The flat pass and the recursive pass agree: outputs that meet the contracts of
/// both for the same bit-reversed input and twiddles are equal.
pub proof fn lemma_fft_paths_agree(input: Seq<int>, tw: Seq<int>, flat: Seq<int>, recursive: Seq<int>)
    requires
        flat == network(input, tw, 1),
        recursive == network(input, tw, 1),
    ensures
        flat == recursive,
{
}

/// Performs a radix-2 Fast-Fourier Transformation (FFT) on a vector of size
/// `n = 2^log_n`, when provided `log_n` and an element of multiplicative order
/// `n` called `omega`. The result is that the vector `a`, when interpreted as the
/// coefficients of a polynomial of degree `n - 1`, is transformed into the
/// evaluations of this polynomial at each of the `n` distinct powers of `omega`.
/// This transformation is invertible by providing `omega^{-1}` in place of `omega`
/// and dividing each resulting field element by `n`.
pub fn cpu_fft<G: FftGroup>(a: &mut Vec<G>, omega: Scalar, log_n: u32)
    requires
        log_n < 64,
        old(a).len() as int == pow2(log_n as nat),
        omega.wf(),
        all_valid(old(a)@),
    ensures
        final(a).len() == old(a).len(),
        all_valid(final(a)@),
        elems(final(a)@) == fft_spec(elems(old(a)@), omega.value(), log_n as nat),
{
    let threads = current_num_threads();
    cpu_fft_with(a, omega, log_n, threads);
}

/// The transform on the configured path.
pub fn best_fft<G: FftGroup>(a: &mut Vec<G>, omega: Scalar, log_n: u32)
    requires
        log_n < 64,
        old(a).len() as int == pow2(log_n as nat),
        omega.wf(),
        all_valid(old(a)@),
    ensures
        final(a).len() == old(a).len(),
        all_valid(final(a)@),
        elems(final(a)@) == fft_spec(elems(old(a)@), omega.value(), log_n as nat),
{
    cpu_fft(a, omega, log_n);
}

/// `x` squared `j` times modulo r.
pub open spec fn squared(x: int, j: nat) -> int
    decreases j,
{
    if j == 0 {
        x
    } else {
        (squared(x, (j - 1) as nat) * squared(x, (j - 1) as nat)) % modulus()
    }
}

/// Convert coefficient bases group elements to lagrange basis by inverse FFT.
pub fn g_to_lagrange(g_projective: Vec<Point>, k: u32) -> (r: Vec<Point>)
    requires
        k <= 28,
        g_projective.len() as int == pow2(k as nat),
    ensures
        r.len() == g_projective.len(),
        forall|i: int|
            0 <= i < r.len() ==> #[trigger] r@[i].log() == (fft_spec(
                elems(g_projective@),
                squared(root_of_unity_inv_value(), (28 - k) as nat),
                k as nat,
            )[i] * (pow(two_inv_value(), k as nat) % modulus())) % modulus(),
{
    let n_inv = two_inv().pow_u64(k as u64);
    let mut omega_inv = root_of_unity_inv();
    let s = two_adicity();
    let mut j: u32 = k;
    while j < s
        invariant
            k <= j <= s,
            s == 28,
            omega_inv.wf(),
            omega_inv.value() == squared(root_of_unity_inv_value(), (j - k) as nat),
        decreases s - j,
    {
        omega_inv = omega_inv.mul(&omega_inv);
        proof {
            assert((j + 1 - k) as nat - 1 == (j - k) as nat);
        }
        j = j + 1;
    }
    let mut g = g_projective;
    let ghost input = elems(g@);
    best_fft(&mut g, omega_inv, k);
    let ghost out = elems(g@);
    let n = g.len();
    let mut i: usize = 0;
    while i < n
        invariant
            i <= n,
            n == g.len(),
            out.len() == n,
            n_inv.wf(),
            forall|t: int| 0 <= t < i ==> #[trigger] g@[t].log() == (out[t] * n_inv.value()) % modulus(),
            forall|t: int| i <= t < n ==> #[trigger] g@[t].log() == out[t],
        decreases n - i,
    {
        let x = g[i].mul(&n_inv);
        g.set(i, x);
        i = i + 1;
    }
    Point::batch_normalize(&g)
}

} // verus!

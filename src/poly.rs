use crate::field::{lemma_mul_mod_left, modulus, pow, Scalar};
use crate::parallel::{current_num_threads, map_on_workers};
use ff::BatchInvert;
use halo2curves::bn256::Fr;
use vstd::arithmetic::div_mod::{lemma_add_mod_noop, lemma_mod_twice, lemma_small_mod};
use vstd::prelude::*;

verus! {

/// Every element is canonical.
pub open spec fn all_wf(s: Seq<Scalar>) -> bool {
    forall|i: int| 0 <= i < s.len() ==> #[trigger] s[i].wf()
}

/// The polynomial with coefficients `p` (index `i` for `x^i`) at `x`, over the integers.
pub open spec fn eval(p: Seq<Scalar>, x: int) -> int
    decreases p.len(),
{
    if p.len() == 0 {
        0
    } else {
        p[0].value() + x * eval(p.drop_first(), x)
    }
}

/// `sum of a[i] * b[i]` over the first `n` indices, over the integers.
pub open spec fn inner(a: Seq<Scalar>, b: Seq<Scalar>, n: int) -> int
    decreases n,
{
    if n <= 0 {
        0
    } else {
        inner(a, b, n - 1) + a[n - 1].value() * b[n - 1].value()
    }
}

/// `product of (z - roots[i])` over the first `n` roots, over the integers.
pub open spec fn vanishing(roots: Seq<Scalar>, z: int, n: int) -> int
    decreases n,
{
    if n <= 0 {
        1
    } else {
        vanishing(roots, z, n - 1) * (z - roots[n - 1].value())
    }
}

/// The product over the first `e` roots splits at any `k <= e`.
pub proof fn lemma_vanishing_split(roots: Seq<Scalar>, z: int, k: int, e: int)
    requires
        0 <= k <= e <= roots.len(),
    ensures
        vanishing(roots, z, e) == vanishing(roots, z, k) * vanishing(roots.subrange(k, e), z, e - k),
    decreases e - k,
{
    if e == k {
        assert(vanishing(roots, z, k) * 1 == vanishing(roots, z, k));
    } else {
        lemma_vanishing_split(roots, z, k, e - 1);
        let sub = roots.subrange(k, e);
        assert(vanishing(sub, z, e - 1 - k) == vanishing(roots.subrange(k, e - 1), z, e - 1 - k)) by {
            lemma_vanishing_prefix(sub, roots.subrange(k, e - 1), z, e - 1 - k);
        }
        let a = vanishing(roots, z, k);
        let b = vanishing(roots.subrange(k, e - 1), z, e - 1 - k);
        let f = z - roots[e - 1].value();
        assert(sub[e - 1 - k] == roots[e - 1]);
        assert((a * b) * f == a * (b * f)) by (nonlinear_arith);
    }
}

/// The product over the first `n` roots reads only those roots.
proof fn lemma_vanishing_prefix(r1: Seq<Scalar>, r2: Seq<Scalar>, z: int, n: int)
    requires
        0 <= n <= r1.len(),
        n <= r2.len(),
        forall|i: int| 0 <= i < n ==> r1[i] == r2[i],
    ensures
        vanishing(r1, z, n) == vanishing(r2, z, n),
    decreases n,
{
    if n > 0 {
        lemma_vanishing_prefix(r1, r2, z, n - 1);
    }
}

/// Job `k` holds the entries of `s` from the end of job `k - 1` (or zero) to
/// `ends[k]`, with its offset.
pub open spec fn run_ok(s: Seq<Scalar>, ends: Seq<int>, job: (Vec<Scalar>, usize), k: int) -> bool {
    let lo = if k == 0 { 0 } else { ends[k - 1] };
    &&& 0 <= lo < ends[k] <= s.len()
    &&& job.0@ == s.subrange(lo, ends[k])
    &&& job.1 == lo
}

/// Cuts `s` into runs of `chunk_size`, each with its offset.
fn cut_runs(s: &[Scalar], chunk_size: usize) -> (r: (Vec<(Vec<Scalar>, usize)>, Ghost<Seq<int>>))
    requires
        chunk_size >= 1,
        s.len() >= 1,
    ensures
        r.0.len() == r.1@.len(),
        r.1@.len() > 0,
        r.1@.last() == s.len(),
        forall|k: int| 0 <= k < r.0.len() ==> #[trigger] run_ok(s@, r.1@, r.0@[k], k),
{
    let n = s.len();
    let mut jobs: Vec<(Vec<Scalar>, usize)> = Vec::new();
    let ghost mut ends: Seq<int> = Seq::empty();
    let mut start: usize = 0;
    while start < n
        invariant
            start <= n,
            n == s.len(),
            chunk_size >= 1,
            jobs.len() == ends.len(),
            start == if ends.len() == 0 { 0 } else { ends.last() },
            forall|k: int| 0 <= k < jobs.len() ==> #[trigger] run_ok(s@, ends, jobs@[k], k),
        decreases n - start,
    {
        let end = if n - start > chunk_size { start + chunk_size } else { n };
        let chunk = vstd::slice::slice_to_vec(vstd::slice::slice_subrange(s, start, end));
        let ghost old_ends = ends;
        let ghost old_jobs = jobs@;
        jobs.push((chunk, start));
        proof {
            ends = ends.push(end as int);
            assert forall|k: int| 0 <= k < jobs.len() implies #[trigger] run_ok(s@, ends, jobs@[k], k) by {
                if k < old_jobs.len() {
                    assert(run_ok(s@, old_ends, old_jobs[k], k));
                    assert(jobs@[k] == old_jobs[k]);
                    assert(ends[k] == old_ends[k]);
                    if k > 0 {
                        assert(ends[k - 1] == old_ends[k - 1]);
                    }
                } else if k > 0 {
                    assert(ends[k - 1] == old_ends.last());
                }
            }
        }
        start = end;
    }
    (jobs, Ghost(ends))
}

/// Evaluates the vanishing polynomial of `roots` at `z` in chunks, one per worker out
/// of `threads`, multiplying the partial products; small inputs take one pass.
pub fn evaluate_vanishing_with(roots: &[Scalar], z: Scalar, threads: usize) -> (r: Scalar)
    requires
        threads >= 1,
        all_wf(roots@),
        z.wf(),
    ensures
        r.wf(),
        r.value() == vanishing(roots@, z.value(), roots.len() as int) % modulus(),
{
    let n = roots.len();
    if n < threads / 2 + threads % 2 {
        return vanishing_serial(roots, z);
    }
    let q = n / threads;
    proof {
        if n % threads != 0 {
            if threads == 1 {
                vstd::arithmetic::div_mod::lemma_mod_self_0(n as int);
                assert(n % 1 == 0);
            }
            vstd::arithmetic::div_mod::lemma_div_decreases(n as int, threads as int);
        }
    }
    let chunk_size = if n % threads != 0 { q + 1 } else { q };
    if chunk_size == 0 {
        return vanishing_serial(roots, z);
    }
    let (jobs, Ghost(ends)) = cut_runs(roots, chunk_size);
    let ghost js = jobs@;
    let run = |job: (Vec<Scalar>, usize)| -> (r: Scalar)
        ensures
            all_wf(job.0@) ==> r.wf() && r.value() == vanishing(job.0@, z.value(), job.0@.len() as int) % modulus(),
        {
            let mut ok = true;
            let mut i: usize = 0;
            while i < job.0.len()
                invariant
                    i <= job.0.len(),
                    ok ==> forall|t: int| 0 <= t < i ==> #[trigger] job.0@[t].wf(),
                    all_wf(job.0@) ==> ok,
                decreases job.0.len() - i,
            {
                if !job.0[i].is_canonical() {
                    ok = false;
                }
                i = i + 1;
            }
            if ok {
                vanishing_serial(job.0.as_slice(), z)
            } else {
                Scalar::one()
            }
        };
    let parts = map_on_workers(jobs, &run);
    let mut acc = Scalar::one();
    let mut k: usize = 0;
    proof {
        lemma_small_mod(1, modulus() as nat);
    }
    while k < parts.len()
        invariant
            k <= parts.len(),
            parts.len() == js.len(),
            js.len() == ends.len(),
            n == roots.len(),
            all_wf(roots@),
            z.wf(),
            ends.len() > 0 && ends.last() == n,
            forall|q: int| 0 <= q < js.len() ==> #[trigger] run.ensures((js[q],), parts@[q]),
            forall|job: (Vec<Scalar>, usize), r: Scalar|
                #[trigger] run.ensures((job,), r) ==> (all_wf(job.0@) ==> r.wf() && r.value() == vanishing(
                    job.0@,
                    z.value(),
                    job.0@.len() as int,
                ) % modulus()),
            forall|q: int| 0 <= q < js.len() ==> #[trigger] run_ok(roots@, ends, js[q], q),
            acc.wf(),
            acc.value() == vanishing(roots@, z.value(), if k == 0 { 0 } else { ends[k - 1] }) % modulus(),
        decreases parts.len() - k,
    {
        let ghost lo = if k == 0 { 0 } else { ends[k - 1] };
        let ghost hi = ends[k as int];
        proof {
            assert(run_ok(roots@, ends, js[k as int], k as int));
            let job = js[k as int];
            assert forall|t: int| 0 <= t < job.0@.len() implies #[trigger] job.0@[t].wf() by {
                assert(job.0@[t] == roots@[lo + t]);
            }
            assert(run.ensures((js[k as int],), parts@[k as int]));
            lemma_vanishing_split(roots@, z.value(), lo, hi);
            vstd::arithmetic::div_mod::lemma_mul_mod_noop(
                vanishing(roots@, z.value(), lo),
                vanishing(job.0@, z.value(), hi - lo),
                modulus(),
            );
        }
        acc = acc.mul(&parts[k]);
        k = k + 1;
    }
    acc
}

/// The product of `z - root` over `roots`.
pub fn evaluate_vanishing_polynomial(roots: &[Scalar], z: Scalar) -> (r: Scalar)
    requires
        all_wf(roots@),
        z.wf(),
    ensures
        r.wf(),
        r.value() == vanishing(roots@, z.value(), roots.len() as int) % modulus(),
{
    let threads = current_num_threads();
    evaluate_vanishing_with(roots, z, threads)
}

/// One Horner step taken modulo r agrees with the step over the integers.
pub proof fn lemma_horner_step(e: int, x: int, c: int)
    requires
        0 <= c < modulus(),
    ensures
        (((e % modulus()) * x) % modulus() + c) % modulus() == (c + x * e) % modulus(),
{
    let m = modulus();
    lemma_mul_mod_left(e, x);
    lemma_add_mod_noop(x * e, c, m);
    lemma_small_mod(c as nat, m as nat);
    lemma_mod_twice(x * e, m);
}

/// Adding a canonical value modulo r to a value reduced modulo r.
pub proof fn lemma_add_step(e: int, t: int)
    ensures
        ((e % modulus()) + (t % modulus())) % modulus() == (e + t) % modulus(),
{
    lemma_add_mod_noop(e, t, modulus());
}

/// Evaluates `poly` at `point` by Horner's rule.
pub fn horner(poly: &[Scalar], point: &Scalar) -> (r: Scalar)
    requires
        all_wf(poly@),
        point.wf(),
    ensures
        r.wf(),
        r.value() == eval(poly@, point.value()) % modulus(),
{
    let n = poly.len();
    let mut acc = Scalar::zero();
    let mut i: usize = n;
    proof {
        assert(poly@.subrange(n as int, n as int).len() == 0);
    }
    while i > 0
        invariant
            i <= n,
            n == poly@.len(),
            all_wf(poly@),
            point.wf(),
            acc.wf(),
            acc.value() == eval(poly@.subrange(i as int, n as int), point.value()) % modulus(),
        decreases i,
    {
        let c = poly[i - 1];
        let t = acc.mul(point);
        let next = t.add(&c);
        proof {
            let tail = poly@.subrange(i as int, n as int);
            let longer = poly@.subrange(i - 1, n as int);
            assert(longer.drop_first() =~= tail);
            assert(poly@[i - 1].wf());
            lemma_horner_step(eval(tail, point.value()), point.value(), c.value());
        }
        acc = next;
        i = i - 1;
    }
    proof {
        assert(poly@.subrange(0, n as int) =~= poly@);
    }
    acc
}

/// The value at `x` splits at any index `k`: the low part plus `x^k` times the high part.
pub proof fn lemma_eval_split(p: Seq<Scalar>, x: int, k: int)
    requires
        0 <= k <= p.len(),
    ensures
        eval(p, x) == eval(p.subrange(0, k), x) + pow(x, k as nat) * eval(p.subrange(k, p.len() as int), x),
    decreases k,
{
    let n = p.len() as int;
    if k == 0 {
        assert(p.subrange(0, 0) =~= Seq::<Scalar>::empty());
        assert(p.subrange(0, n) =~= p);
    } else {
        let d = p.drop_first();
        lemma_eval_split(d, x, k - 1);
        assert(d.subrange(0, k - 1) =~= p.subrange(0, k).drop_first());
        assert(d.subrange(k - 1, d.len() as int) =~= p.subrange(k, n));
        let lo = eval(d.subrange(0, k - 1), x);
        let hi = eval(p.subrange(k, n), x);
        let pk = pow(x, (k - 1) as nat);
        assert(x * (lo + pk * hi) == x * lo + (x * pk) * hi) by (nonlinear_arith);
    }
}

/// Evaluates `poly` at `point` in chunks, one per worker out of `threads`, each chunk
/// weighted by `point` to the power of its offset; small inputs take one pass.
pub fn eval_polynomial_with(poly: &[Scalar], point: Scalar, threads: usize) -> (r: Scalar)
    requires
        threads >= 1,
        all_wf(poly@),
        point.wf(),
    ensures
        r.wf(),
        r.value() == eval(poly@, point.value()) % modulus(),
{
    let n = poly.len();
    if n < threads / 2 + threads % 2 {
        return horner(poly, &point);
    }
    let q = n / threads;
    proof {
        if n % threads != 0 {
            if threads == 1 {
                vstd::arithmetic::div_mod::lemma_mod_self_0(n as int);
                assert(n % 1 == 0);
            }
            vstd::arithmetic::div_mod::lemma_div_decreases(n as int, threads as int);
        }
    }
    let chunk_size = if n % threads != 0 { q + 1 } else { q };
    if chunk_size == 0 {
        return horner(poly, &point);
    }
    let (jobs, Ghost(ends)) = cut_runs(poly, chunk_size);
    let ghost js = jobs@;
    let run = |job: (Vec<Scalar>, usize)| -> (r: Scalar)
        ensures
            all_wf(job.0@) ==> r.wf() && r.value() == (eval(job.0@, point.value()) * pow(point.value(), job.1 as nat))
                % modulus(),
        {
            let mut ok = true;
            let mut i: usize = 0;
            while i < job.0.len()
                invariant
                    i <= job.0.len(),
                    ok ==> forall|t: int| 0 <= t < i ==> #[trigger] job.0@[t].wf(),
                    all_wf(job.0@) ==> ok,
                decreases job.0.len() - i,
            {
                if !job.0[i].is_canonical() {
                    ok = false;
                }
                i = i + 1;
            }
            if ok {
                let local = horner(job.0.as_slice(), &point);
                let weight = point.pow_u64(job.1 as u64);
                proof {
                    vstd::arithmetic::div_mod::lemma_mul_mod_noop(
                        eval(job.0@, point.value()),
                        pow(point.value(), job.1 as nat),
                        modulus(),
                    );
                }
                local.mul(&weight)
            } else {
                Scalar::zero()
            }
        };
    let parts = map_on_workers(jobs, &run);
    let mut acc = Scalar::zero();
    let mut k: usize = 0;
    proof {
        assert(poly@.subrange(0, 0) =~= Seq::<Scalar>::empty());
    }
    while k < parts.len()
        invariant
            k <= parts.len(),
            parts.len() == js.len(),
            js.len() == ends.len(),
            n == poly.len(),
            all_wf(poly@),
            point.wf(),
            ends.len() > 0 && ends.last() == n,
            forall|q: int| 0 <= q < js.len() ==> #[trigger] run.ensures((js[q],), parts@[q]),
            forall|job: (Vec<Scalar>, usize), r: Scalar|
                #[trigger] run.ensures((job,), r) ==> (all_wf(job.0@) ==> r.wf() && r.value() == (eval(
                    job.0@,
                    point.value(),
                ) * pow(point.value(), job.1 as nat)) % modulus()),
            forall|q: int| 0 <= q < js.len() ==> #[trigger] run_ok(poly@, ends, js[q], q),
            acc.wf(),
            acc.value() == eval(poly@.subrange(0, if k == 0 { 0 } else { ends[k - 1] }), point.value()) % modulus(),
        decreases parts.len() - k,
    {
        let ghost lo = if k == 0 { 0 } else { ends[k - 1] };
        let ghost hi = ends[k as int];
        proof {
            assert(run_ok(poly@, ends, js[k as int], k as int));
            let job = js[k as int];
            assert forall|t: int| 0 <= t < job.0@.len() implies #[trigger] job.0@[t].wf() by {
                assert(job.0@[t] == poly@[lo + t]);
            }
            assert(run.ensures((js[k as int],), parts@[k as int]));
            let x = point.value();
            let e = eval(job.0@, x);
            let w = pow(x, lo as nat);
            vstd::arithmetic::mul::lemma_mul_is_commutative(e, w);
            lemma_add_step(eval(poly@.subrange(0, lo), x), w * e);
            let q = poly@.subrange(0, hi);
            lemma_eval_split(q, x, lo);
            assert(q.subrange(0, lo) =~= poly@.subrange(0, lo));
            assert(q.subrange(lo, hi) =~= job.0@);
        }
        acc = acc.add(&parts[k]);
        k = k + 1;
    }
    proof {
        assert(poly@.subrange(0, n as int) =~= poly@);
    }
    acc
}

/// This evaluates a provided polynomial (in coefficient form) at `point`.
pub fn eval_polynomial(poly: &[Scalar], point: Scalar) -> (r: Scalar)
    requires
        all_wf(poly@),
        point.wf(),
    ensures
        r.wf(),
        r.value() == eval(poly@, point.value()) % modulus(),
{
    let threads = current_num_threads();
    eval_polynomial_with(poly, point, threads)
}

/// This computes the inner product of two vectors `a` and `b`.
pub fn compute_inner_product(a: &[Scalar], b: &[Scalar]) -> (r: Scalar)
    requires
        a.len() == b.len(),
        all_wf(a@),
        all_wf(b@),
    ensures
        r.wf(),
        r.value() == inner(a@, b@, a.len() as int) % modulus(),
{
    let mut acc = Scalar::zero();
    let mut i: usize = 0;
    while i < a.len()
        invariant
            i <= a.len(),
            a.len() == b.len(),
            all_wf(a@),
            all_wf(b@),
            acc.wf(),
            acc.value() == inner(a@, b@, i as int) % modulus(),
        decreases a.len() - i,
    {
        assert(a@[i as int].wf() && b@[i as int].wf());
        let t = a[i].mul(&b[i]);
        let next = acc.add(&t);
        proof {
            lemma_add_step(inner(a@, b@, i as int), a@[i as int].value() * b@[i as int].value());
        }
        acc = next;
        i = i + 1;
    }
    acc
}

/// The product of `z - root` over `roots`, in one pass.
fn vanishing_serial(roots: &[Scalar], z: Scalar) -> (r: Scalar)
    requires
        all_wf(roots@),
        z.wf(),
    ensures
        r.wf(),
        r.value() == vanishing(roots@, z.value(), roots.len() as int) % modulus(),
{
    let mut acc = Scalar::one();
    let mut i: usize = 0;
    proof {
        lemma_small_mod(1, modulus() as nat);
    }
    while i < roots.len()
        invariant
            i <= roots.len(),
            all_wf(roots@),
            z.wf(),
            acc.wf(),
            acc.value() == vanishing(roots@, z.value(), i as int) % modulus(),
        decreases roots.len() - i,
    {
        assert(roots@[i as int].wf());
        let d = z.sub(&roots[i]);
        let next = d.mul(&acc);
        proof {
            let v = vanishing(roots@, z.value(), i as int);
            let f = z.value() - roots@[i as int].value();
            vstd::arithmetic::div_mod::lemma_mul_mod_noop(f, v, modulus());
            vstd::arithmetic::mul::lemma_mul_is_commutative(f, v);
        }
        acc = next;
        i = i + 1;
    }
    acc
}

/// The quotient of dividing `a` by `x - b`: the coefficient at `j` is
/// `a[j + 1] + b * q[j + 1]`, with the coefficient past the top taken as zero.
pub open spec fn kate_coeff_ok(a: Seq<Scalar>, b: int, q: Seq<Scalar>, j: int) -> bool {
    q[j].value() == (a[j + 1].value() + b * (if j + 1 < q.len() {
        q[j + 1].value()
    } else {
        0
    })) % modulus()
}

/// Divides polynomial `a` in `X` by `X - b` with
/// no remainder.
pub fn kate_division(a: &[Scalar], b: Scalar) -> (q: Vec<Scalar>)
    requires
        a.len() >= 1,
        all_wf(a@),
        b.wf(),
    ensures
        q.len() == a.len() - 1,
        all_wf(q@),
        forall|j: int| 0 <= j < q.len() ==> #[trigger] kate_coeff_ok(a@, b.value(), q@, j),
{
    let neg_b = b.neg();
    let n = a.len() - 1;
    let mut q: Vec<Scalar> = Vec::new();
    let mut k: usize = 0;
    while k < n
        invariant
            k <= n,
            q.len() == k,
            all_wf(q@),
        decreases n - k,
    {
        q.push(Scalar::zero());
        k = k + 1;
    }
    let mut tmp = Scalar::zero();
    let mut j: usize = n;
    while j > 0
        invariant
            j <= n,
            n == a.len() - 1,
            q.len() == n,
            all_wf(a@),
            all_wf(q@),
            b.wf(),
            neg_b.wf(),
            neg_b.value() == (-b.value()) % modulus(),
            tmp.wf(),
            j == n ==> tmp.value() == 0,
            j < n ==> tmp.value() == (q@[j as int].value() * neg_b.value()) % modulus(),
            forall|i: int| j <= i < n ==> #[trigger] kate_coeff_ok(a@, b.value(), q@, i),
        decreases j,
    {
        assert(a@[j as int].wf());
        let lead = a[j].sub(&tmp);
        proof {
            let m = modulus();
            let t = if j < n { q@[j as int].value() } else { 0 };
            // tmp == (t * (-b)) % m, so a[j] - tmp == a[j] + b * t modulo m
            if j < n {
                vstd::arithmetic::div_mod::lemma_mul_mod_noop_right(t, -b.value(), m);
                vstd::arithmetic::div_mod::lemma_sub_mod_noop(a@[j as int].value(), t * (-b.value()), m);
                lemma_small_mod(a@[j as int].value() as nat, m as nat);
                assert(t * (-b.value()) == -(b.value() * t)) by (nonlinear_arith);
            }
        }
        let ghost old_q = q@;
        q.set(j - 1, lead);
        tmp = lead.mul(&neg_b);
        proof {
            vstd::arithmetic::div_mod::lemma_mul_mod_noop_right(lead.value(), -b.value(), modulus());
            assert forall|i: int| j - 1 <= i < n implies #[trigger] kate_coeff_ok(a@, b.value(), q@, i) by {
                if i >= j {
                    assert(kate_coeff_ok(a@, b.value(), old_q, i));
                }
            }
        }
        j = j - 1;
    }
    q
}

/// The coefficients as integers.
pub open spec fn vals(p: Seq<Scalar>) -> Seq<int> {
    p.map_values(|c: Scalar| c.value())
}

/// The polynomial with integer coefficients `s` at `x`.
pub open spec fn evali(s: Seq<int>, x: int) -> int
    decreases s.len(),
{
    if s.len() == 0 {
        0
    } else {
        s[0] + x * evali(s.drop_first(), x)
    }
}

pub proof fn lemma_eval_vals(p: Seq<Scalar>, x: int)
    ensures
        eval(p, x) == evali(vals(p), x),
    decreases p.len(),
{
    if p.len() > 0 {
        lemma_eval_vals(p.drop_first(), x);
        assert(vals(p).drop_first() =~= vals(p.drop_first()));
    }
}

/// Evaluation is linear in the coefficients.
pub proof fn lemma_evali_linear(u: Seq<int>, v: Seq<int>, w: Seq<int>, a: int, b: int, x: int)
    requires
        u.len() == v.len(),
        w.len() == u.len(),
        forall|i: int| 0 <= i < w.len() ==> #[trigger] w[i] == a * u[i] + b * v[i],
    ensures
        evali(w, x) == a * evali(u, x) + b * evali(v, x),
    decreases w.len(),
{
    if w.len() > 0 {
        assert forall|i: int| 0 <= i < w.drop_first().len() implies #[trigger] w.drop_first()[i] == a * u.drop_first()[i] + b * v.drop_first()[i] by {
            assert(w[i + 1] == a * u[i + 1] + b * v[i + 1]);
        }
        lemma_evali_linear(u.drop_first(), v.drop_first(), w.drop_first(), a, b, x);
        let eu = evali(u.drop_first(), x);
        let ev = evali(v.drop_first(), x);
        assert(x * (a * eu + b * ev) == a * (x * eu) + b * (x * ev)) by (nonlinear_arith);
        assert(w[0] == a * u[0] + b * v[0]);
        let u0 = u[0];
        let v0 = v[0];
        assert(a * u0 + b * v0 + (a * (x * eu) + b * (x * ev)) == a * (u0 + x * eu) + b * (v0 + x * ev))
            by (nonlinear_arith);
    } else {
        assert(a * 0 + b * 0 == 0);
    }
}

/// A zero on top changes nothing.
pub proof fn lemma_evali_push_zero(u: Seq<int>, x: int)
    ensures
        evali(u.push(0), x) == evali(u, x),
    decreases u.len(),
{
    if u.len() > 0 {
        lemma_evali_push_zero(u.drop_first(), x);
        assert(u.push(0).drop_first() =~= u.drop_first().push(0));
        assert(u.push(0)[0] == u[0]);
    } else {
        assert(u.push(0).drop_first() =~= Seq::<int>::empty());
        assert(x * 0 == 0);
        assert(u =~= Seq::<int>::empty());
    }
}

/// Coefficients equal modulo r give values equal modulo r.
pub proof fn lemma_evali_congruent(u: Seq<int>, v: Seq<int>, x: int)
    requires
        u.len() == v.len(),
        forall|i: int| 0 <= i < u.len() ==> #[trigger] (u[i] % modulus()) == v[i] % modulus(),
    ensures
        evali(u, x) % modulus() == evali(v, x) % modulus(),
    decreases u.len(),
{
    if u.len() > 0 {
        let m = modulus();
        lemma_evali_congruent(u.drop_first(), v.drop_first(), x);
        let eu = evali(u.drop_first(), x);
        let ev = evali(v.drop_first(), x);
        assert(u[0] % m == v[0] % m);
        vstd::arithmetic::div_mod::lemma_mul_mod_noop_right(x, eu, m);
        vstd::arithmetic::div_mod::lemma_mul_mod_noop_right(x, ev, m);
        lemma_add_mod_noop(u[0], x * eu, m);
        lemma_add_mod_noop(v[0], x * ev, m);
    }
}

/// Multiplying by the linear factor `c0 + c1 x`: coefficient `i` of the product is
/// `p[i] c0 + p[i - 1] c1`.
pub open spec fn times_linear(p: Seq<int>, c0: int, c1: int) -> Seq<int> {
    Seq::new(
        p.len() + 1,
        |i: int|
            c0 * (if i < p.len() {
                p[i]
            } else {
                0
            }) + c1 * (if i >= 1 {
                p[i - 1]
            } else {
                0
            }),
    )
}

pub proof fn lemma_times_linear(p: Seq<int>, c0: int, c1: int, x: int)
    ensures
        evali(times_linear(p, c0, c1), x) == (c0 + c1 * x) * evali(p, x),
{
    let ext = p.push(0);
    let sh = seq![0int] + p;
    lemma_evali_push_zero(p, x);
    assert(sh.drop_first() =~= p);
    assert forall|i: int| 0 <= i < p.len() + 1 implies #[trigger] times_linear(p, c0, c1)[i] == c0 * ext[i] + c1 * sh[i] by {
        if i < p.len() {
            assert(ext[i] == p[i]);
        } else {
            assert(ext[i] == 0);
        }
        if i >= 1 {
            assert(sh[i] == p[i - 1]);
        } else {
            assert(sh[i] == 0);
        }
    }
    lemma_evali_linear(ext, sh, times_linear(p, c0, c1), c0, c1, x);
    let e = evali(p, x);
    assert(c0 * e + c1 * (x * e) == (c0 + c1 * x) * e) by (nonlinear_arith);
}

/// Relies on `ff::BatchInvert::batch_invert`: each nonzero element is replaced by
/// its inverse, and zeros are left as zero.
#[verifier::external_body]
fn batch_invert(v: &mut Vec<Vec<Scalar>>)
    ensures
        final(v).len() == old(v).len(),
        forall|j: int|
            0 <= j < old(v).len() ==> (#[trigger] final(v)@[j]).len() == old(v)@[j].len(),
        forall|j: int, t: int|
            0 <= j < old(v).len() && 0 <= t < old(v)@[j].len() && old(v)@[j]@[t].wf() ==> {
                let a = old(v)@[j]@[t].value();
                let b = (#[trigger] final(v)@[j]@[t]).value();
                &&& final(v)@[j]@[t].wf()
                &&& a == 0 ==> b == 0
                &&& a != 0 ==> (a * b) % modulus() == 1
            },
{
    let mut f: Vec<Vec<Fr>> = v.iter().map(|d| d.iter().map(|s| Fr::from_raw(s.limbs)).collect()).collect();
    f.iter_mut().flat_map(|d| d.iter_mut()).batch_invert();
    *v = f.iter().map(|d| d.iter().map(|x| Scalar { limbs: (*x).into() }).collect()).collect();
}

/// Coefficient-wise `c0 * p[i] + c1 * p[i - 1]` modulo r: `p` times `c0 + c1 x`.
fn mul_linear(p: &Vec<Scalar>, c0: &Scalar, c1: &Scalar) -> (r: Vec<Scalar>)
    requires
        p.len() < usize::MAX,
        all_wf(p@),
        c0.wf(),
        c1.wf(),
    ensures
        r.len() == p.len() + 1,
        all_wf(r@),
        forall|i: int| 0 <= i < r.len() ==> #[trigger] r@[i].value() == times_linear(vals(p@), c0.value(), c1.value())[i] % modulus(),
{
    let n = p.len();
    let mut r: Vec<Scalar> = Vec::new();
    let mut i: usize = 0;
    while i <= n
        invariant
            i <= n + 1,
            n == p.len(),
            n < usize::MAX,
            all_wf(p@),
            c0.wf(),
            c1.wf(),
            r.len() == i,
            all_wf(r@),
            forall|t: int| 0 <= t < i ==> #[trigger] r@[t].value() == times_linear(vals(p@), c0.value(), c1.value())[t] % modulus(),
        decreases n + 1 - i,
    {
        let a = if i < n { p[i] } else { Scalar::zero() };
        let b = if i >= 1 { p[i - 1] } else { Scalar::zero() };
        proof {
            if i < n { assert(p@[i as int].wf()); }
            if i >= 1 { assert(p@[i - 1].wf()); }
        }
        let x = c0.mul(&a);
        let y = c1.mul(&b);
        let z = x.add(&y);
        proof {
            lemma_add_step(c0.value() * a.value(), c1.value() * b.value());
        }
        r.push(z);
        i = i + 1;
    }
    r
}

/// Adds `e * p` to `acc` coefficient-wise modulo r.
fn add_scaled(acc: &mut Vec<Scalar>, p: &Vec<Scalar>, e: &Scalar)
    requires
        old(acc).len() == p.len(),
        all_wf(old(acc)@),
        all_wf(p@),
        e.wf(),
    ensures
        final(acc).len() == old(acc).len(),
        all_wf(final(acc)@),
        forall|i: int| 0 <= i < p.len() ==> #[trigger] final(acc)@[i].value() == (old(acc)@[i].value() + e.value() * p@[i].value()) % modulus(),
{
    let ghost a0 = acc@;
    let mut i: usize = 0;
    while i < p.len()
        invariant
            i <= p.len(),
            acc.len() == p.len(),
            a0.len() == p.len(),
            all_wf(acc@),
            all_wf(p@),
            all_wf(a0),
            e.wf(),
            forall|t: int| 0 <= t < i ==> #[trigger] acc@[t].value() == (a0[t].value() + e.value() * p@[t].value()) % modulus(),
            forall|t: int| i <= t < p.len() ==> #[trigger] acc@[t] == a0[t],
        decreases p.len() - i,
    {
        assert(p@[i as int].wf() && acc@[i as int].wf());
        let t = p[i].mul(e);
        let v = acc[i].add(&t);
        proof {
            lemma_mul_mod_left(e.value(), p@[i as int].value());
            vstd::arithmetic::mul::lemma_mul_is_commutative(e.value(), p@[i as int].value());
            lemma_small_mod(a0[i as int].value() as nat, modulus() as nat);
            lemma_add_step(a0[i as int].value(), e.value() * p@[i as int].value());
        }
        acc.set(i, v);
        i = i + 1;
    }
}

/// The points are pairwise distinct.
pub open spec fn distinct(points: Seq<Scalar>) -> bool {
    forall|i: int, j: int| 0 <= i < j < points.len() ==> #[trigger] points[i].value() != #[trigger] points[j].value()
}

/// The `t`-th index other than `j`.
pub open spec fn other(j: int, t: int) -> int {
    if t < j {
        t
    } else {
        t + 1
    }
}

/// `product over t' < t of inv[t'] * (z - points[other(j, t')])`, over the integers.
pub open spec fn basis(points: Seq<Scalar>, inv: Seq<Scalar>, j: int, t: int, z: int) -> int
    decreases t,
{
    if t <= 0 {
        1
    } else {
        basis(points, inv, j, t - 1, z) * (inv[t - 1].value() * (z - points[other(j, t - 1)].value()))
    }
}

/// At a point other than `points[j]` some factor vanishes.
proof fn lemma_basis_other(points: Seq<Scalar>, inv: Seq<Scalar>, j: int, t: int, m: int)
    requires
        0 <= j < points.len(),
        0 <= m < points.len(),
        m != j,
        0 <= t,
        other(j, if m < j { m } else { m - 1 }) == m,
        (if m < j { m } else { m - 1 }) < t,
    ensures
        basis(points, inv, j, t, points[m].value()) == 0,
    decreases t,
{
    let tm = if m < j { m } else { m - 1 };
    if t - 1 == tm {
        let z = points[m].value();
        assert(z - points[other(j, t - 1)].value() == 0);
        assert(inv[t - 1].value() * 0 == 0);
        assert(basis(points, inv, j, t - 1, z) * 0 == 0);
    } else {
        lemma_basis_other(points, inv, j, t - 1, m);
        let z = points[m].value();
        assert(0 * (inv[t - 1].value() * (z - points[other(j, t - 1)].value())) == 0);
    }
}

/// At `points[j]` every factor is one modulo r.
proof fn lemma_basis_self(points: Seq<Scalar>, inv: Seq<Scalar>, j: int, t: int)
    requires
        0 <= t,
        forall|s: int| 0 <= s < t ==> (#[trigger] inv[s].value() * ((points[j].value() - points[other(j, s)].value()) % modulus())) % modulus() == 1,
    ensures
        basis(points, inv, j, t, points[j].value()) % modulus() == 1,
    decreases t,
{
    let m = modulus();
    if t == 0 {
        vstd::arithmetic::div_mod::lemma_small_mod(1, m as nat);
    } else {
        lemma_basis_self(points, inv, j, t - 1);
        let d = inv[t - 1].value();
        let f = points[j].value() - points[other(j, t - 1)].value();
        let b = basis(points, inv, j, t - 1, points[j].value());
        vstd::arithmetic::div_mod::lemma_mul_mod_noop_right(d, f, m);
        vstd::arithmetic::div_mod::lemma_mul_mod_noop(b, d * f, m);
        vstd::arithmetic::div_mod::lemma_small_mod(1, m as nat);
    }
}

/// One linear factor taken modulo r.
proof fn lemma_factor_step(e: int, b: int, d: int, xk: int, z: int, c0: int, p: int)
    requires
        e % modulus() == b % modulus(),
        c0 == ((-d) % modulus() * xk) % modulus(),
        p % modulus() == ((c0 + d * z) * e) % modulus(),
    ensures
        p % modulus() == (b * (d * (z - xk))) % modulus(),
{
    let m = modulus();
    vstd::arithmetic::div_mod::lemma_mul_mod_noop_left(-d, xk, m);
    assert((-d) * xk == -(d * xk)) by (nonlinear_arith);
    lemma_add_mod_noop(c0, d * z, m);
    lemma_add_mod_noop(-(d * xk), d * z, m);
    lemma_mod_twice(-(d * xk), m);
    assert(-(d * xk) + d * z == d * (z - xk)) by (nonlinear_arith);
    assert((c0 + d * z) % m == (d * (z - xk)) % m);
    vstd::arithmetic::div_mod::lemma_mul_mod_noop(c0 + d * z, e, m);
    vstd::arithmetic::div_mod::lemma_mul_mod_noop(d * (z - xk), b, m);
    vstd::arithmetic::mul::lemma_mul_is_commutative(d * (z - xk), b);
}

/// Returns coefficients of an n - 1 degree polynomial given a set of n points
/// and their evaluations: the polynomial takes `evals[i]` at `points[i]`.
pub fn lagrange_interpolate(points: &[Scalar], evals: &[Scalar]) -> (r: Vec<Scalar>)
    requires
        points.len() == evals.len(),
        all_wf(points@),
        all_wf(evals@),
        distinct(points@),
    ensures
        r.len() == points.len(),
        all_wf(r@),
        forall|m: int|
            0 <= m < points.len() ==> #[trigger] (eval(r@, points@[m].value()) % modulus()) == evals@[m].value(),
{
    let n = points.len();
    let ghost xs = points@;
    if n == 1 {
        let r = vec![evals[0]];
        proof {
            assert(evals@[0].wf());
            assert(r@.len() == 1);
            assert(r@[0] == evals@[0]);
            assert(r@.drop_first() =~= Seq::<Scalar>::empty());
            assert(eval(r@.drop_first(), xs[0].value()) == 0);
            assert(xs[0].value() * 0 == 0);
            assert(eval(r@, xs[0].value()) == r@[0].value() + xs[0].value() * 0);
            lemma_small_mod(evals@[0].value() as nat, modulus() as nat);
        }
        return r;
    }
    let mut denoms: Vec<Vec<Scalar>> = Vec::new();
    let mut j: usize = 0;
    while j < n
        invariant
            j <= n,
            n == points.len(),
            n != 1,
            all_wf(points@),
            denoms.len() == j,
            forall|jj: int| 0 <= jj < j ==> (#[trigger] denoms@[jj]).len() == n - 1,
            forall|jj: int, t: int|
                0 <= jj < j && 0 <= t < n - 1 ==> (#[trigger] denoms@[jj]@[t]).wf() && denoms@[jj]@[t].value()
                    == (points@[jj].value() - points@[other(jj, t)].value()) % modulus(),
        decreases n - j,
    {
        let mut d: Vec<Scalar> = Vec::new();
        let mut k: usize = 0;
        while k < n
            invariant
                k <= n,
                j < n,
                n == points.len(),
                all_wf(points@),
                d.len() == if k <= j { k as int } else { k - 1 },
                forall|t: int|
                    0 <= t < d.len() ==> (#[trigger] d@[t]).wf() && d@[t].value() == (points@[j as int].value()
                        - points@[other(j as int, t)].value()) % modulus(),
            decreases n - k,
        {
            if k != j {
                assert(points@[j as int].wf() && points@[k as int].wf());
                let v = points[j].sub(&points[k]);
                proof {
                    let t = d.len() as int;
                    assert(other(j as int, t) == k);
                }
                d.push(v);
            }
            k = k + 1;
        }
        denoms.push(d);
        j = j + 1;
    }
    batch_invert(&mut denoms);
    let mut final_poly: Vec<Scalar> = Vec::new();
    let mut i: usize = 0;
    while i < n
        invariant
            i <= n,
            final_poly.len() == i,
            all_wf(final_poly@),
            forall|t: int| 0 <= t < i ==> #[trigger] final_poly@[t].value() == 0,
        decreases n - i,
    {
        final_poly.push(Scalar::zero());
        i = i + 1;
    }
    proof {
        assert forall|m: int| 0 <= m < n implies #[trigger] (evali(vals(final_poly@), xs[m].value()) % modulus()) == 0 by {
            let z = Seq::new(n as nat, |t: int| 0int);
            assert forall|t: int| 0 <= t < n implies #[trigger] z[t] == 0 * z[t] + 0 * z[t] by {}
            lemma_evali_linear(z, z, z, 0, 0, xs[m].value());
            assert forall|t: int| 0 <= t < n implies #[trigger] (vals(final_poly@)[t] % modulus()) == z[t] % modulus() by {
                assert(final_poly@[t].value() == 0);
            }
            lemma_evali_congruent(vals(final_poly@), z, xs[m].value());
        }
    }
    let mut j: usize = 0;
    while j < n
        invariant
            j <= n,
            n == points.len(),
            n == evals.len(),
            n != 1,
            xs == points@,
            all_wf(points@),
            all_wf(evals@),
            distinct(points@),
            final_poly.len() == n,
            all_wf(final_poly@),
            denoms.len() == n,
            forall|jj: int| 0 <= jj < n ==> (#[trigger] denoms@[jj]).len() == n - 1,
            forall|jj: int, t: int|
                0 <= jj < n && 0 <= t < n - 1 ==> {
                    let a = (points@[jj].value() - points@[other(jj, t)].value()) % modulus();
                    let b = (#[trigger] denoms@[jj]@[t]).value();
                    &&& denoms@[jj]@[t].wf()
                    &&& a == 0 ==> b == 0
                    &&& a != 0 ==> (a * b) % modulus() == 1
                },
            forall|m: int|
                0 <= m < n ==> #[trigger] (evali(vals(final_poly@), xs[m].value()) % modulus()) == if m < j {
                    evals@[m].value()
                } else {
                    0
                },
        decreases n - j,
    {
        let inv = &denoms[j];
        let ghost invs = inv@;
        let mut tmp: Vec<Scalar> = vec![Scalar::one()];
        proof {
            assert forall|m: int| 0 <= m < n implies #[trigger] (evali(vals(tmp@), xs[m].value()) % modulus())
                == basis(xs, invs, j as int, 0, xs[m].value()) % modulus() by {
                assert(tmp@.len() == 1);
                assert(vals(tmp@)[0] == 1);
                assert(vals(tmp@).drop_first() =~= Seq::<int>::empty());
                assert(evali(vals(tmp@).drop_first(), xs[m].value()) == 0);
                assert(xs[m].value() * 0 == 0);
                lemma_small_mod(1, modulus() as nat);
            }
        }
        let mut t: usize = 0;
        while t < n - 1
            invariant
                t <= n - 1,
                j < n,
                n == points.len(),
                xs == points@,
                all_wf(points@),
                invs == inv@,
                inv.len() == n - 1,
                forall|s: int| 0 <= s < n - 1 ==> (#[trigger] inv@[s]).wf(),
                tmp.len() == t + 1,
                all_wf(tmp@),
                forall|m: int|
                    0 <= m < n ==> #[trigger] (evali(vals(tmp@), xs[m].value()) % modulus()) == basis(
                        xs,
                        invs,
                        j as int,
                        t as int,
                        xs[m].value(),
                    ) % modulus(),
            decreases n - 1 - t,
        {
            let k = if t < j { t } else { t + 1 };
            let d = inv[t];
            assert(points@[k as int].wf());
            let c0 = d.neg().mul(&points[k]);
            let product = mul_linear(&tmp, &c0, &d);
            proof {
                assert(k as int == other(j as int, t as int));
                assert forall|m: int| 0 <= m < n implies #[trigger] (evali(vals(product@), xs[m].value()) % modulus())
                    == basis(xs, invs, j as int, t + 1, xs[m].value()) % modulus() by {
                    let z = xs[m].value();
                    let tl = times_linear(vals(tmp@), c0.value(), d.value());
                    assert forall|i: int| 0 <= i < vals(product@).len() implies #[trigger] (vals(product@)[i] % modulus()) == tl[i] % modulus() by {
                        lemma_mod_twice(tl[i], modulus());
                    }
                    lemma_evali_congruent(vals(product@), tl, z);
                    lemma_times_linear(vals(tmp@), c0.value(), d.value(), z);
                    lemma_factor_step(
                        evali(vals(tmp@), z),
                        basis(xs, invs, j as int, t as int, z),
                        d.value(),
                        xs[k as int].value(),
                        z,
                        c0.value(),
                        evali(vals(product@), z),
                    );
                }
            }
            tmp = product;
            t = t + 1;
        }
        proof {
            assert forall|m: int| 0 <= m < n implies #[trigger] (evali(vals(tmp@), xs[m].value()) % modulus())
                == if m == j { 1int } else { 0int } by {
                if m == j {
                    assert forall|s: int| 0 <= s < n - 1 implies (#[trigger] invs[s].value() * ((xs[j as int].value()
                        - xs[other(j as int, s)].value()) % modulus())) % modulus() == 1 by {
                        let a = (points@[j as int].value() - points@[other(j as int, s)].value()) % modulus();
                        let b = denoms@[j as int]@[s].value();
                        assert(denoms@[j as int]@[s].wf());
                        assert(a != 0) by {
                            let o = other(j as int, s);
                            assert(points@[j as int].wf() && points@[o].wf());
                            if o < j {
                                assert(points@[o].value() != points@[j as int].value());
                            } else {
                                assert(points@[j as int].value() != points@[o].value());
                            }
                            if a == 0 {
                                vstd::arithmetic::div_mod::lemma_fundamental_div_mod(
                                    points@[j as int].value() - points@[o].value(),
                                    modulus(),
                                );
                                assert(false);
                            }
                        }
                        vstd::arithmetic::mul::lemma_mul_is_commutative(a, b);
                    }
                    lemma_basis_self(xs, invs, j as int, (n - 1) as int);
                } else {
                    lemma_basis_other(xs, invs, j as int, (n - 1) as int, m);
                    assert(0int % modulus() == 0);
                }
            }
        }
        let ghost before = final_poly@;
        assert(evals@[j as int].wf());
        add_scaled(&mut final_poly, &tmp, &evals[j]);
        proof {
            let e = evals@[j as int].value();
            assert forall|m: int| 0 <= m < n implies #[trigger] (evali(vals(final_poly@), xs[m].value()) % modulus())
                == if m < j + 1 { evals@[m].value() } else { 0 } by {
                let z = xs[m].value();
                let w = Seq::new(n as nat, |i: int| 1 * vals(before)[i] + e * vals(tmp@)[i]);
                lemma_evali_linear(vals(before), vals(tmp@), w, 1, e, z);
                assert forall|i: int| 0 <= i < n implies #[trigger] (vals(final_poly@)[i] % modulus()) == w[i] % modulus() by {
                    lemma_mod_twice(vals(before)[i] + e * vals(tmp@)[i], modulus());
                }
                lemma_evali_congruent(vals(final_poly@), w, z);
                let eb = evali(vals(before), z);
                let et = evali(vals(tmp@), z);
                lemma_add_mod_noop(eb, e * et, modulus());
                vstd::arithmetic::div_mod::lemma_mul_mod_noop_right(e, et, modulus());
                lemma_small_mod(e as nat, modulus() as nat);
                lemma_mod_twice(eb, modulus());
                if m == j {
                    assert(e * 1 == e);
                } else {
                    assert(e * 0 == 0);
                }
                if m < j {
                    lemma_small_mod(evals@[m].value() as nat, modulus() as nat);
                }
            }
        }
        j = j + 1;
    }
    proof {
        assert forall|m: int| 0 <= m < n implies #[trigger] (eval(final_poly@, points@[m].value()) % modulus()) == evals@[m].value() by {
            lemma_eval_vals(final_poly@, points@[m].value());
        }
    }
    final_poly
}

/// Quotient coefficient `j`, read as zero past the top.
pub open spec fn q_at(q: Seq<Scalar>, j: int) -> int {
    if 0 <= j < q.len() {
        q[j].value()
    } else {
        0
    }
}

/// Each quotient coefficient carries the value of the top part of `a` at `b`.
proof fn lemma_kate_carry(a: Seq<Scalar>, b: int, q: Seq<Scalar>, j: int)
    requires
        a.len() >= 1,
        q.len() == a.len() - 1,
        0 <= j < a.len(),
        forall|i: int| 0 <= i < q.len() ==> #[trigger] kate_coeff_ok(a, b, q, i),
    ensures
        (a[j].value() + b * q_at(q, j)) % modulus() == evali(vals(a).subrange(j, a.len() as int), b)
            % modulus(),
    decreases a.len() - j,
{
    let n = a.len() as int;
    let m = modulus();
    let sub = vals(a).subrange(j, n);
    if j == n - 1 {
        assert(sub.drop_first() =~= Seq::<int>::empty());
        assert(evali(sub.drop_first(), b) == 0);
        assert(sub[0] == a[j].value());
        assert(q_at(q, j) == 0);
        assert(b * 0 == 0);
    } else {
        assert(sub[0] == a[j].value());
        lemma_kate_carry(a, b, q, j + 1);
        assert(sub.drop_first() =~= vals(a).subrange(j + 1, n));
        assert(kate_coeff_ok(a, b, q, j));
        let e = evali(vals(a).subrange(j + 1, n), b);
        assert(q_at(q, j) == e % m);
        vstd::arithmetic::div_mod::lemma_mul_mod_noop_right(b, e, m);
        lemma_add_mod_noop(a[j].value(), b * e, m);
        lemma_add_mod_noop(a[j].value(), b * (e % m), m);
        lemma_mod_twice(b * e, m);
    }
}

/// Dividing by `x - b` is exact when `a` vanishes at `b`: the quotient times
/// `x - b` gives back `a`, coefficient by coefficient.
pub proof fn lemma_kate_exact(a: Seq<Scalar>, b: Scalar, q: Seq<Scalar>)
    requires
        a.len() >= 1,
        all_wf(a),
        b.wf(),
        q.len() == a.len() - 1,
        all_wf(q),
        forall|j: int| 0 <= j < q.len() ==> #[trigger] kate_coeff_ok(a, b.value(), q, j),
        eval(a, b.value()) % modulus() == 0,
    ensures
        forall|i: int|
            0 <= i < a.len() ==> #[trigger] times_linear(vals(q), -b.value(), 1)[i] % modulus() == a[i].value(),
{
    let m = modulus();
    let n = a.len() as int;
    let bv = b.value();
    lemma_eval_vals(a, bv);
    assert(vals(a).subrange(0, n) =~= vals(a));
    lemma_kate_carry(a, bv, q, 0);
    assert forall|i: int| 0 <= i < n implies #[trigger] times_linear(vals(q), -bv, 1)[i] % m == a[i].value() by {
        let tl = times_linear(vals(q), -bv, 1);
        assert(a[i].wf());
        lemma_small_mod(a[i].value() as nat, m as nat);
        if i == 0 {
            let q0 = q_at(q, 0);
            assert(tl[0] == -bv * q0 + 1 * 0);
            assert(-bv * q0 == a[0].value() - (a[0].value() + bv * q0)) by (nonlinear_arith);
            vstd::arithmetic::div_mod::lemma_sub_mod_noop(a[0].value(), a[0].value() + bv * q0, m);
            lemma_mod_twice(a[0].value(), m);
            assert(0int % m == 0);
        } else {
            assert(kate_coeff_ok(a, bv, q, i - 1));
            let qi = q_at(q, i);
            assert(tl[i] == -bv * qi + 1 * q[i - 1].value()) by {
                if i < q.len() {
                    assert(vals(q)[i] == qi);
                }
            }
            assert(-bv * qi + (a[i].value() + bv * qi) == a[i].value()) by (nonlinear_arith);
            lemma_add_mod_noop(-bv * qi, a[i].value() + bv * qi, m);
            lemma_mod_twice(a[i].value() + bv * qi, m);
            lemma_add_mod_noop(-bv * qi, (a[i].value() + bv * qi) % m, m);
        }
    }
}

} // verus!

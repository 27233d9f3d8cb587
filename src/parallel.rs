use rayon::iter::{IntoParallelIterator, ParallelIterator};
use vstd::prelude::*;

verus! {

/// Relies on `rayon::current_num_threads`: the size of the current pool, which
/// rayon always makes at least one.
#[verifier::external_body]
pub fn current_num_threads() -> (r: usize)
    ensures
        r >= 1,
{
    rayon::current_num_threads()
}

/// Number of chunks that `total` items are split into for `threads` workers.
pub open spec fn chunk_count(total: nat, threads: nat) -> nat {
    if total < threads {
        total
    } else {
        threads
    }
}

/// Size of chunk `i`: the first `total % threads` chunks take one item more.
pub open spec fn chunk_len(total: nat, threads: nat, i: nat) -> nat
    recommends
        threads > 0,
{
    if i < total % threads {
        total / threads + 1
    } else {
        total / threads
    }
}

/// Start of chunk `i`: the sum of the sizes of the chunks before it.
pub open spec fn chunk_start(total: nat, threads: nat, i: nat) -> nat
    recommends
        threads > 0,
{
    if i < total % threads {
        i * (total / threads + 1)
    } else {
        ((total % threads) * (total / threads + 1) + (i - total % threads) * (total / threads)) as nat
    }
}

/// End (exclusive) of chunk `i`.
pub open spec fn chunk_end(total: nat, threads: nat, i: nat) -> int {
    (chunk_start(total, threads, i) + chunk_len(total, threads, i)) as int
}

/// The chunks cover `[0, total)` exactly once each, in order and without gaps: the
/// first starts at zero, each next one starts where the one before it ends, the last
/// ends at `total`, none is empty, and any two sizes differ by at most one.
pub proof fn lemma_chunks_partition(total: nat, threads: nat)
    requires
        threads >= 1,
    ensures
        chunk_count(total, threads) >= 1 ==> chunk_start(total, threads, 0) == 0,
        forall|i: nat|
            i + 1 < chunk_count(total, threads) ==> #[trigger] chunk_start(total, threads, i + 1)
                == chunk_end(total, threads, i),
        chunk_count(total, threads) >= 1 ==> chunk_start(
            total,
            threads,
            (chunk_count(total, threads) - 1) as nat,
        ) + chunk_len(total, threads, (chunk_count(total, threads) - 1) as nat) == total,
        chunk_count(total, threads) == 0 ==> total == 0,
        forall|i: nat| i < chunk_count(total, threads) ==> #[trigger] chunk_len(total, threads, i) >= 1,
        forall|i: nat, j: nat|
            i < chunk_count(total, threads) && j < chunk_count(total, threads) ==> #[trigger] chunk_len(
                total,
                threads,
                i,
            ) <= #[trigger] chunk_len(total, threads, j) + 1,
{
    let base = total / threads;
    let cutoff = total % threads;
    vstd::arithmetic::div_mod::lemma_fundamental_div_mod(total as int, threads as int);
    if total < threads {
        vstd::arithmetic::div_mod::lemma_small_mod(total, threads);
        vstd::arithmetic::div_mod::lemma_basic_div(total as int, threads as int);
    }
    assert forall|i: nat| i + 1 < chunk_count(total, threads) implies #[trigger] chunk_start(total, threads, i + 1)
        == chunk_start(total, threads, i) + chunk_len(total, threads, i) by {
        if i + 1 < cutoff {
            assert((i + 1) * (base + 1) == i * (base + 1) + (base + 1)) by (nonlinear_arith);
        } else if i < cutoff {
            assert(i + 1 == cutoff);
            assert((i + 1) * (base + 1) == i * (base + 1) + (base + 1)) by (nonlinear_arith);
            assert(0 * base == 0);
            assert(chunk_start(total, threads, i + 1) == cutoff * (base + 1));
        } else {
            assert((i + 1 - cutoff) * base == (i - cutoff) * base + base) by (nonlinear_arith)
                requires
                    i >= cutoff,
            ;
        }
    }
    assert(0 * (base + 1) == 0 && 0 * base == 0);
    if chunk_count(total, threads) >= 1 {
        let last = (chunk_count(total, threads) - 1) as nat;
        if total < threads {
            assert(base == 0 && cutoff == total);
            assert(last * (base + 1) + base + 1 == total);
        } else {
            assert(last == threads - 1);
            if cutoff == threads {
                assert(false);
            }
            assert(cutoff * (base + 1) + (last - cutoff) * base + base == total) by (nonlinear_arith)
                requires
                    total == threads * base + cutoff,
                    last == threads - 1,
                    last >= cutoff,
            ;
        }
    }
    assert forall|i: nat| i < chunk_count(total, threads) implies #[trigger] chunk_len(total, threads, i) >= 1 by {
        if total >= threads {
            assert(base >= 1) by (nonlinear_arith)
                requires
                    total == threads * base + cutoff,
                    cutoff < threads,
                    total >= threads,
            ;
        }
    }
}

/// The chunks handed to workers: `(offset, length)` pairs for `threads` workers.
pub fn chunk_ranges(total: usize, threads: usize) -> (r: Vec<(usize, usize)>)
    requires
        threads >= 1,
    ensures
        r.len() == chunk_count(total as nat, threads as nat),
        forall|i: int|
            0 <= i < r.len() ==> #[trigger] r@[i].0 == chunk_start(
                total as nat,
                threads as nat,
                i as nat,
            ) && r@[i].1 == chunk_len(total as nat, threads as nat, i as nat),
{
    let base = total / threads;
    let cutoff = total % threads;
    let mut r: Vec<(usize, usize)> = Vec::new();
    let mut i: usize = 0;
    let count = if total < threads { total } else { threads };
    proof {
        vstd::arithmetic::div_mod::lemma_fundamental_div_mod(total as int, threads as int);
        if total < threads {
            vstd::arithmetic::div_mod::lemma_small_mod(total as nat, threads as nat);
            vstd::arithmetic::div_mod::lemma_basic_div(total as int, threads as int);
        }
    }
    while i < count
        invariant
            i <= count,
            count == chunk_count(total as nat, threads as nat),
            threads >= 1,
            base == total / threads,
            cutoff == total % threads,
            total == threads * base + cutoff,
            cutoff < threads,
            count <= threads,
            total < threads ==> base == 0 && cutoff == total,
            r.len() == i,
            forall|k: int|
                0 <= k < r.len() ==> #[trigger] r@[k].0 == chunk_start(
                    total as nat,
                    threads as nat,
                    k as nat,
                ) && r@[k].1 == chunk_len(total as nat, threads as nat, k as nat),
        decreases count - i,
    {
        proof {
            assert(cutoff * (base + 1) <= total) by (nonlinear_arith)
                requires
                    total == threads * base + cutoff,
                    cutoff < threads,
            ;
            if i < cutoff {
                assert(i * (base + 1) <= cutoff * (base + 1)) by (nonlinear_arith)
                    requires
                        i < cutoff,
                ;
                assert(base + 1 <= cutoff * (base + 1)) by (nonlinear_arith)
                    requires
                        i < cutoff,
                ;
            } else {
                assert((i - cutoff) * base <= (threads - cutoff) * base) by (nonlinear_arith)
                    requires
                        i - cutoff <= threads - cutoff,
                ;
                assert(cutoff * (base + 1) + (threads - cutoff) * base == total) by (nonlinear_arith)
                    requires
                        total == threads * base + cutoff,
                ;
                assert(cutoff * (base + 1) + (i - cutoff) * base == i * base + cutoff) by (nonlinear_arith);
                assert(i * base <= threads * base) by (nonlinear_arith)
                    requires
                        i <= threads,
                ;
            }
        }
        if i < cutoff {
            r.push((i * (base + 1), base + 1));
        } else {
            r.push((i * base + cutoff, base));
        }
        i = i + 1;
    }
    r
}

/// Chunk `k` of the split of `before` for `threads` workers holds in `after` what `f`
/// returned for that chunk and its offset.
pub open spec fn chunk_done<T, F: Fn(Vec<T>, usize) -> Vec<T>>(
    before: Seq<T>,
    after: Seq<T>,
    threads: nat,
    f: F,
    k: nat,
) -> bool {
    let total = before.len();
    exists|c: Vec<T>, r: Vec<T>|
        c@ == before.subrange(chunk_start(total, threads, k) as int, chunk_end(total, threads, k))
            && r@ == after.subrange(chunk_start(total, threads, k) as int, chunk_end(total, threads, k))
            && #[trigger] f.ensures((c, chunk_start(total, threads, k) as usize), r)
}

/// `after` is `before` with every chunk of the split for `threads` workers replaced
/// by what `f` returned for that chunk and its offset.
pub open spec fn applied_per_chunk<T, F: Fn(Vec<T>, usize) -> Vec<T>>(
    before: Seq<T>,
    after: Seq<T>,
    threads: nat,
    f: F,
) -> bool {
    &&& after.len() == before.len()
    &&& forall|k: nat|
        k < chunk_count(before.len(), threads) ==> #[trigger] chunk_done(before, after, threads, f, k)
}

/// Relies on rayon's `into_par_iter`, `map` and `collect`: `f` runs once on each job,
/// on the pool's workers, and the results come back in the order of the jobs.
#[verifier::external_body]
pub(crate) fn map_on_workers<A: Send, B: Send, F: Fn(A) -> B + Sync>(jobs: Vec<A>, f: &F) -> (r: Vec<B>)
    requires
        forall|a: A| #[trigger] f.requires((a,)),
    ensures
        r.len() == jobs.len(),
        forall|k: int| 0 <= k < jobs.len() ==> #[trigger] f.ensures((jobs@[k],), r@[k]),
{
    jobs.into_par_iter().map(f).collect()
}

/// Runs `f` over each chunk of `v` for `threads` workers, handing it the chunk and its
/// offset in `v`, and puts back what it returns in the chunk's place.
pub fn parallelize_with<T: Copy + Send, F: Fn(Vec<T>, usize) -> Vec<T> + Sync>(v: &mut Vec<T>, threads: usize, f: F)
    requires
        threads >= 1,
        forall|c: Vec<T>, o: usize| #[trigger] f.requires((c, o)),
        forall|c: Vec<T>, o: usize, r: Vec<T>| #[trigger] f.ensures((c, o), r) ==> r.len() == c.len(),
    ensures
        applied_per_chunk(old(v)@, final(v)@, threads as nat, f),
{
    let ghost before = v@;
    let total = v.len();
    let ghost tn = threads as nat;
    let ranges = chunk_ranges(total, threads);
    let count = ranges.len();
    let mut jobs: Vec<(Vec<T>, usize)> = Vec::new();
    let mut k: usize = 0;
    while k < count
        invariant
            threads >= 1,
            tn == threads as nat,
            total == before.len(),
            v@ == before,
            k <= count,
            count == ranges.len(),
            ranges.len() == chunk_count(total as nat, tn),
            forall|i: int|
                0 <= i < ranges.len() ==> #[trigger] ranges@[i].0 == chunk_start(total as nat, tn, i as nat)
                    && ranges@[i].1 == chunk_len(total as nat, tn, i as nat),
            jobs.len() == k,
            forall|j: int|
                0 <= j < k ==> (#[trigger] jobs@[j]).0@ == before.subrange(
                    chunk_start(total as nat, tn, j as nat) as int,
                    chunk_end(total as nat, tn, j as nat),
                ) && jobs@[j].1 == chunk_start(total as nat, tn, j as nat),
        decreases count - k,
    {
        let start = ranges[k].0;
        let len = ranges[k].1;
        proof {
            lemma_chunks_partition(total as nat, tn);
            let kn = k as nat;
            let last = (chunk_count(total as nat, tn) - 1) as nat;
            if kn < last {
                lemma_chunk_order(total as nat, tn, kn, last);
            }
            assert(start + len <= total);
        }
        let mut chunk: Vec<T> = Vec::new();
        let mut i: usize = 0;
        assert(chunk@ =~= before.subrange(start as int, start as int));
        while i < len
            invariant
                i <= len,
                start + len <= total,
                v@ == before,
                total == before.len(),
                chunk@ == before.subrange(start as int, start + i),
            decreases len - i,
        {
            chunk.push(v[start + i]);
            i = i + 1;
            assert(chunk@ =~= before.subrange(start as int, start + i));
        }
        jobs.push((chunk, start));
        k = k + 1;
    }
    let ghost js = jobs@;
    let fr = &f;
    let run = |job: (Vec<T>, usize)| -> (r: Vec<T>)
        ensures
            (*fr).ensures((job.0, job.1), r),
        { fr(job.0, job.1) };
    let outs = map_on_workers(jobs, &run);
    let mut k: usize = 0;
    while k < count
        invariant
            threads >= 1,
            tn == threads as nat,
            total == before.len(),
            v.len() == total,
            k <= count,
            count == ranges.len(),
            ranges.len() == chunk_count(total as nat, tn),
            forall|i: int|
                0 <= i < ranges.len() ==> #[trigger] ranges@[i].0 == chunk_start(total as nat, tn, i as nat)
                    && ranges@[i].1 == chunk_len(total as nat, tn, i as nat),
            js.len() == count,
            outs.len() == count,
            forall|j: int|
                0 <= j < count ==> (#[trigger] js[j]).0@ == before.subrange(
                    chunk_start(total as nat, tn, j as nat) as int,
                    chunk_end(total as nat, tn, j as nat),
                ) && js[j].1 == chunk_start(total as nat, tn, j as nat),
            forall|j: int| 0 <= j < count ==> #[trigger] run.ensures((js[j],), outs@[j]),
            forall|job: (Vec<T>, usize), r: Vec<T>| #[trigger] run.ensures((job,), r) ==> (*fr).ensures((job.0, job.1), r),
            *fr == f,
            forall|c: Vec<T>, o: usize, r: Vec<T>| #[trigger] f.ensures((c, o), r) ==> r.len() == c.len(),
            forall|j: nat| j < k ==> #[trigger] chunk_done(before, v@, tn, f, j),
        decreases count - k,
    {
        let start = ranges[k].0;
        let len = ranges[k].1;
        proof {
            lemma_chunks_partition(total as nat, tn);
            let kn = k as nat;
            let last = (chunk_count(total as nat, tn) - 1) as nat;
            if kn < last {
                lemma_chunk_order(total as nat, tn, kn, last);
            }
            assert(start + len <= total);
            assert(run.ensures((js[k as int],), outs@[k as int]));
            assert((*fr).ensures((js[k as int].0, js[k as int].1), outs@[k as int]));
            assert(f.ensures((js[k as int].0, js[k as int].1), outs@[k as int]));
            assert(js[k as int].0@.len() == len);
        }
        let out = &outs[k];
        let ghost mid = v@;
        let mut i: usize = 0;
        while i < len
            invariant
                i <= len,
                start + len <= total,
                v.len() == total,
                out.len() == len,
                mid.len() == total,
                forall|t: int| 0 <= t < total && !(start <= t < start + len) ==> #[trigger] v@[t] == mid[t],
                v@.subrange(start as int, start + i) == out@.subrange(0, i as int),
            decreases len - i,
        {
            v.set(start + i, out[i]);
            proof {
                assert(v@.subrange(start as int, start + i + 1) =~= out@.subrange(0, i + 1));
            }
            i = i + 1;
        }
        proof {
            assert(out@.subrange(0, len as int) =~= out@);
            assert forall|j: nat| j < k + 1 implies #[trigger] chunk_done(before, v@, tn, f, j) by {
                let s = chunk_start(total as nat, tn, j) as int;
                let e = chunk_end(total as nat, tn, j);
                if j == k {
                    assert(v@.subrange(s, e) =~= out@);
                    assert(f.ensures((js[j as int].0, chunk_start(total as nat, tn, j) as usize), outs@[j as int]));
                } else {
                    assert(e <= start) by {
                        lemma_chunk_order(total as nat, tn, j, k as nat);
                    }
                    assert(chunk_done(before, mid, tn, f, j));
                    let (cj, rj) = choose|c: Vec<T>, r: Vec<T>|
                        c@ == before.subrange(s, e) && r@ == mid.subrange(s, e)
                            && #[trigger] f.ensures((c, chunk_start(total as nat, tn, j) as usize), r);
                    assert(v@.subrange(s, e) =~= mid.subrange(s, e));
                    assert(f.ensures((cj, chunk_start(total as nat, tn, j) as usize), rj));
                }
            }
        }
        k = k + 1;
    }
}

/// Chunks that come earlier end no later than later ones start.
pub proof fn lemma_chunk_order(total: nat, threads: nat, j: nat, k: nat)
    requires
        threads >= 1,
        j < k,
        k < chunk_count(total, threads),
    ensures
        chunk_start(total, threads, j) + chunk_len(total, threads, j) <= chunk_start(total, threads, k),
    decreases k - j,
{
    lemma_chunks_partition(total, threads);
    if j + 1 < k {
        lemma_chunk_order(total, threads, j + 1, k);
        assert(chunk_start(total, threads, j + 1) == chunk_start(total, threads, j) + chunk_len(total, threads, j));
    } else {
        assert(chunk_start(total, threads, j + 1) == chunk_start(total, threads, j) + chunk_len(total, threads, j));
    }
}

/// This utility function will parallelize an operation that is to be
/// performed over a mutable sequence: `f` gets each chunk with its offset.
pub fn parallelize<T: Copy + Send, F: Fn(Vec<T>, usize) -> Vec<T> + Sync>(v: &mut Vec<T>, f: F)
    requires
        forall|c: Vec<T>, o: usize| #[trigger] f.requires((c, o)),
        forall|c: Vec<T>, o: usize, r: Vec<T>| #[trigger] f.ensures((c, o), r) ==> r.len() == c.len(),
    ensures
        exists|t: nat| t >= 1 && #[trigger] applied_per_chunk(old(v)@, final(v)@, t, f),
{
    let threads = current_num_threads();
    parallelize_with(v, threads, f);
    assert(applied_per_chunk(old(v)@, v@, threads as nat, f));
}

/// The largest `p` with `2^p <= num`.
pub fn log2_floor(num: usize) -> (p: u32)
    requires
        num > 0,
    ensures
        p < 64,
        vstd::arithmetic::power2::pow2(p as nat) <= num,
        num < vstd::arithmetic::power2::pow2((p + 1) as nat),
{
    let mut pow: u32 = 0;
    let mut v: usize = num;
    proof {
        vstd::arithmetic::power2::lemma2_to64();
    }
    while v >= 2
        invariant
            1 <= v <= num,
            pow < 64,
            v * vstd::arithmetic::power2::pow2(pow as nat) <= num,
            num < (v + 1) * vstd::arithmetic::power2::pow2(pow as nat),
            num <= usize::MAX,
            vstd::arithmetic::power2::pow2(pow as nat) <= num,
        decreases v,
    {
        let ghost pw = vstd::arithmetic::power2::pow2(pow as nat);
        proof {
            vstd::arithmetic::power2::lemma_pow2_pos(pow as nat);
            vstd::arithmetic::power2::lemma_pow2_unfold((pow + 1) as nat);
            vstd::arithmetic::div_mod::lemma_fundamental_div_mod(v as int, 2);
            assert((v / 2) * (2 * pw) <= v * pw) by (nonlinear_arith)
                requires
                    v == 2 * (v / 2) + v % 2,
                    pw >= 1,
                    v % 2 >= 0,
            ;
            assert((v + 1) * pw <= (v / 2 + 1) * (2 * pw)) by (nonlinear_arith)
                requires
                    v == 2 * (v / 2) + v % 2,
                    v % 2 < 2,
                    pw >= 1,
            ;
            assert(2 * pw <= (v / 2) * (2 * pw)) by (nonlinear_arith)
                requires
                    v >= 2,
                    v / 2 >= 1,
                    pw >= 1,
            ;
            if pow + 1 >= 64 {
                vstd::arithmetic::power2::lemma2_to64();
                assert(2 * pw == 0x1_0000_0000_0000_0000int);
                assert(false);
            }
        }
        v = v / 2;
        pow = pow + 1;
    }
    proof {
        vstd::arithmetic::power2::lemma_pow2_unfold((pow + 1) as nat);
    }
    pow
}

} // verus!

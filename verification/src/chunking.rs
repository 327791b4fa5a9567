//! Partitioning: split the input into contiguous, offset-tagged chunks of
//! balanced size, one per worker, that tile the input with no gap and no
//! overlap.

use vstd::prelude::*;

use crate::model::{chunks_between, lemma_chunks_snoc};

verus! {

/// The size of chunk `i` in a balanced split into pieces of `base` items,
/// where the first `rem` pieces take one extra item.
pub open spec fn chunk_size(i: int, base: int, rem: int) -> int {
    base + if i < rem {
        1int
    } else {
        0int
    }
}

/// The number of items held by chunks `i..n_chunks` of the balanced split.
pub open spec fn sizes_sum(i: int, n_chunks: int, base: int, rem: int) -> int
    decreases n_chunks - i,
{
    if i >= n_chunks {
        0
    } else {
        chunk_size(i, base, rem) + sizes_sum(i + 1, n_chunks, base, rem)
    }
}

proof fn lemma_sizes_sum_nonneg(i: int, n_chunks: int, base: int, rem: int)
    requires
        0 <= base,
    ensures
        0 <= sizes_sum(i, n_chunks, base, rem),
    decreases n_chunks - i,
{
    if i < n_chunks {
        lemma_sizes_sum_nonneg(i + 1, n_chunks, base, rem);
    }
}

proof fn lemma_sizes_sum_closed(i: int, n_chunks: int, base: int, rem: int)
    requires
        0 <= i <= n_chunks,
        0 <= rem,
    ensures
        sizes_sum(i, n_chunks, base, rem) == (n_chunks - i) * base + if rem <= i {
            0int
        } else if rem >= n_chunks {
            n_chunks - i
        } else {
            rem - i
        },
    decreases n_chunks - i,
{
    if i < n_chunks {
        lemma_sizes_sum_closed(i + 1, n_chunks, base, rem);
        assert((n_chunks - i) * base == (n_chunks - i - 1) * base + base) by (nonlinear_arith);
    } else {
        assert((n_chunks - i) * base == 0) by (nonlinear_arith)
            requires
                n_chunks == i,
        ;
    }
}

/// A balanced split of `n` items into `n / k` plus-one-for-the-first-`n % k`
/// pieces accounts for every item exactly once.
proof fn lemma_sizes_sum_total(n: int, k: int)
    requires
        0 <= n,
        1 <= k,
    ensures
        sizes_sum(
            0,
            if n / k == 0 {
                n % k
            } else {
                k
            },
            n / k,
            n % k,
        ) == n,
{
    let base = n / k;
    let rem = n % k;
    let c = if n / k == 0 {
        n % k
    } else {
        k
    };
    assert(n == k * base + rem && 0 <= rem < k && 0 <= base) by (nonlinear_arith)
        requires
            0 <= n,
            1 <= k,
            base == n / k,
            rem == n % k,
    ;
    lemma_sizes_sum_closed(0, c, base, rem);
    assert((c - 0) * base == c * base);
    if base == 0 {
        assert(c == rem);
        assert(c * base == 0 && k * base == 0) by (nonlinear_arith)
            requires
                base == 0,
        ;
        if rem == 0 {
            assert(sizes_sum(0, c, base, rem) == 0);
            assert(n == 0);
        } else {
            assert(sizes_sum(0, c, base, rem) == c * base + c);
            assert(n == rem);
        }
    } else {
        assert(c == k);
        if rem == 0 {
            assert(sizes_sum(0, c, base, rem) == k * base);
        } else {
            assert(sizes_sum(0, c, base, rem) == k * base + rem);
        }
    }
}

/// Split `data` into at most `n_jobs` contiguous chunks, each tagged with
/// the index of its first element in `data`. The chunks tile the input in
/// order, none is empty, and their sizes differ by at most one: the first
/// `data.len() % n_jobs` chunks hold one item more than the rest.
pub fn partition<T>(data: Vec<T>, n_jobs: usize) -> (chunks: Vec<(usize, Vec<T>)>)
    requires
        1 <= n_jobs,
    ensures
        chunks_between(chunks@, 0, data@.len() as int, data@),
        chunks@.len() == if data@.len() < n_jobs {
            data@.len() as int
        } else {
            n_jobs as int
        },
        forall|i: int|
            0 <= i < chunks@.len() ==> (#[trigger] chunks@[i]).1@.len() == chunk_size(
                i,
                data@.len() as int / n_jobs as int,
                data@.len() as int % n_jobs as int,
            ),
{
    let ghost orig: Seq<T> = data@;
    let n = data.len();
    let base = n / n_jobs;
    let rem = n % n_jobs;
    let n_chunks = if base == 0 {
        rem
    } else {
        n_jobs
    };
    proof {
        lemma_sizes_sum_total(n as int, n_jobs as int);
        assert((n < n_jobs ==> (n as int / n_jobs as int == 0 && n as int % n_jobs as int == n))
            && (n >= n_jobs ==> n as int / n_jobs as int >= 1)) by (nonlinear_arith)
            requires
                1 <= n_jobs,
        ;
    }
    let mut rest = data;
    let mut chunks: Vec<(usize, Vec<T>)> = Vec::new();
    let mut off: usize = 0;
    let mut i: usize = 0;
    while i < n_chunks
        invariant
            1 <= n_jobs,
            n == orig.len(),
            base == n as int / n_jobs as int,
            rem == n as int % n_jobs as int,
            n_chunks == if base == 0 {
                rem as int
            } else {
                n_jobs as int
            },
            i <= n_chunks,
            chunks@.len() == i,
            off <= n,
            off as int + sizes_sum(i as int, n_chunks as int, base as int, rem as int) == n,
            chunks_between(chunks@, 0, off as int, orig),
            rest@ == orig.subrange(off as int, n as int),
            forall|j: int|
                0 <= j < i ==> (#[trigger] chunks@[j]).1@.len() == chunk_size(
                    j,
                    base as int,
                    rem as int,
                ),
        decreases n_chunks - i,
    {
        proof {
            lemma_sizes_sum_nonneg(i as int + 1, n_chunks as int, base as int, rem as int);
            assert(sizes_sum(i as int, n_chunks as int, base as int, rem as int) == chunk_size(
                i as int,
                base as int,
                rem as int,
            ) + sizes_sum(i as int + 1, n_chunks as int, base as int, rem as int));
            assert(chunk_size(i as int, base as int, rem as int) <= n - off);
        }
        let sz = if i < rem {
            base + 1
        } else {
            base
        };
        let tail = rest.split_off(sz);
        let chunk = rest;
        rest = tail;
        proof {
            assert(chunk@ =~= orig.subrange(off as int, off as int + sz as int));
            assert(rest@ =~= orig.subrange(off as int + sz as int, n as int));
            lemma_chunks_snoc(chunks@, 0, off as int, orig, (off, chunk));
        }
        chunks.push((off, chunk));
        off = off + sz;
        i = i + 1;
    }
    chunks
}

} // verus!

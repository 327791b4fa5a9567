//! The parallel mapper: choose between the sequential path and a
//! fan-out/fan-in over a worker pool, collecting partial results in
//! completion order and restoring input order by their offsets.

use vstd::prelude::*;

use crate::PARALLELISM_THRESHOLD;
use crate::SplitError;
use crate::chunking::partition;
use crate::merge::check_tiling;
use crate::merge::concat_parts;
use crate::merge::sort_partials;
use crate::model::chunks_between;
use crate::model::flatten_parts;
use crate::model::lemma_parts_flatten;
use crate::model::lemma_tiles_cover;
use crate::model::map_ensures;
use crate::model::part_ok;
use crate::pool::part_channel;
use crate::pool::pool_execute;
use crate::pool::pool_new;
use crate::seqmap::map_vec;

verus! {

/// Hardware parallelism used to size the worker fan-out.
///
/// Relies on num_cpus::get: the number of logical CPUs of the running
/// system, which is always at least 1.
#[verifier::external_body]
pub fn worker_count() -> (n: usize)
    ensures
        1 <= n,
{
    num_cpus::get()
}

/// Map `f` over `data`, returning the results in input order: on success
/// the output has one element per input element, and element `i` is an
/// `f`-image of `data[i]`, whatever the thread count and whichever worker
/// finished first.
///
/// Inputs no longer than [`PARALLELISM_THRESHOLD`] are mapped on the
/// calling thread. Longer inputs are split into one balanced chunk per
/// available CPU; each chunk is mapped by a pool worker, which sends its
/// outputs back tagged with the chunk's start offset, and the partial
/// results — consumed in whatever order the workers finish — are sorted by
/// offset, checked to tile the input exactly, and concatenated. The call
/// fails as a whole, returning no partial output, if the channel closes
/// before every partial result arrived (a worker died unsent) or if the
/// collected row does not tile the input (which no correct delivery
/// produces).
pub fn split<T, R, F>(data: Vec<T>, f: F) -> (res: Result<Vec<R>, SplitError>) where
    T: Send + 'static,
    R: Send + 'static,
    F: Fn(T) -> R + Copy + Send + 'static,

    requires
        forall|t: T| #[trigger] f.requires((t,)),
    ensures
        match res {
            Ok(out) => map_ensures(f, data@, out@),
            Err(e) => {
                &&& (e == SplitError::WorkerFailure || e == SplitError::ChannelFailure)
                &&& data@.len() > PARALLELISM_THRESHOLD
            },
        },
{
    let ghost orig: Seq<T> = data@;
    let n = data.len();
    if n <= PARALLELISM_THRESHOLD {
        return Ok(map_vec(data, f));
    }
    let n_jobs = worker_count();
    let pool = pool_new(n_jobs);
    let (tx, rx) = part_channel::<T, R, F>(Ghost((orig, f)));
    let chunks = partition(data, n_jobs);
    let n_chunks = chunks.len();
    let mut todo = chunks;
    let ghost mut dcum: int = 0;
    while todo.len() > 0
        invariant
            forall|t: T| #[trigger] f.requires((t,)),
            n == orig.len(),
            tx.data() == orig,
            tx.func() == f,
            chunks_between(todo@, dcum, n as int, orig),
        decreases todo@.len(),
    {
        let ghost old_todo = todo@;
        let pr = todo.remove(0);
        let off = pr.0;
        let items = pr.1;
        let ghost sz = items@.len() as int;
        proof {
            assert(todo@ =~= old_todo.drop_first());
            assert(off == dcum && 0 < sz && dcum + sz <= n && items@ == orig.subrange(
                dcum,
                dcum + sz,
            ));
            dcum = dcum + sz;
        }
        let tx2 = tx.dup();
        pool_execute(
            &pool,
            (move ||
                {
                    let ghost chunk: Seq<T> = items@;
                    let out = map_vec(items, f);
                    proof {
                        assert forall|j: int| 0 <= j < out@.len() implies f.ensures(
                            (tx2.data()[off + j],),
                            #[trigger] out@[j],
                        ) by {
                            assert(chunk[j] == tx2.data().subrange(
                                off as int,
                                off + chunk.len(),
                            )[j]);
                            assert(f.ensures((chunk[j],), out@[j]));
                        }
                        assert(part_ok(tx2.data(), tx2.func(), (off, out)));
                    }
                    tx2.send((off, out));
                }),
        );
    }
    tx.discard();
    let mut parts: Vec<(usize, Vec<R>)> = Vec::new();
    let mut got: usize = 0;
    while got < n_chunks
        invariant
            got <= n_chunks,
            parts@.len() == got,
            orig == data@,
            n == orig.len(),
            n > PARALLELISM_THRESHOLD,
            rx.data() == orig,
            rx.func() == f,
            forall|j: int| 0 <= j < parts@.len() ==> part_ok(orig, f, #[trigger] parts@[j]),
        decreases n_chunks - got,
    {
        match rx.recv() {
            Some(pair) => {
                parts.push(pair);
            },
            None => {
                // Only workers hold senders here: the channel closing before
                // every partial result arrived means a worker died unsent.
                return Err(SplitError::WorkerFailure);
            },
        }
        got = got + 1;
    }
    let ghost arrived = parts@;
    let sorted = sort_partials(parts);
    proof {
        broadcast use vstd::seq_lib::group_to_multiset_ensures;

        assert forall|j: int| 0 <= j < sorted@.len() implies part_ok(
            orig,
            f,
            #[trigger] sorted@[j],
        ) by {
            assert(sorted@.contains(sorted@[j]));
            assert(arrived.to_multiset().count(sorted@[j]) > 0);
            assert(arrived.contains(sorted@[j]));
            let i = choose|i: int| 0 <= i < arrived.len() && arrived[i] == sorted@[j];
            assert(part_ok(orig, f, arrived[i]));
        }
    }
    if !check_tiling(&sorted, n) {
        // A correct delivery hands back exactly the dispatched chunks, whose
        // offsets tile the input; anything else is a channel anomaly.
        return Err(SplitError::ChannelFailure);
    }
    let ghost row = sorted@;
    proof {
        lemma_tiles_cover(row, 0, n as int, orig, f);
        lemma_parts_flatten(row, 0, n as int, orig, f);
    }
    let out = concat_parts(sorted);
    proof {
        assert forall|i: int| 0 <= i < orig.len() implies f.ensures(
            (orig[i],),
            #[trigger] out@[i],
        ) by {
            assert(out@[i] == flatten_parts(row)[i]);
        }
    }
    Ok(out)
}

} // verus!

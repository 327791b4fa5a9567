//! Reassembly: collect partial results that may arrive in any order, sort
//! them by the start offset recorded with each, and concatenate them back
//! into one sequence in original input order.

use vstd::prelude::*;

use crate::model::{flatten_parts, sorted_by_offset, tiles};

verus! {

/// Order a row of partial results by ascending start offset. The result
/// holds exactly the given partial results, rearranged.
pub fn sort_partials<R>(parts: Vec<(usize, Vec<R>)>) -> (out: Vec<(usize, Vec<R>)>)
    ensures
        out@.to_multiset() == parts@.to_multiset(),
        sorted_by_offset(out@),
{
    broadcast use vstd::seq_lib::group_to_multiset_ensures;

    let ghost orig = parts@;
    let mut rest = parts;
    let mut out: Vec<(usize, Vec<R>)> = Vec::new();
    while rest.len() > 0
        invariant
            out@.to_multiset().add(rest@.to_multiset()) == orig.to_multiset(),
            sorted_by_offset(out@),
            forall|a: int, b: int|
                0 <= a < out@.len() && 0 <= b < rest@.len() ==> (#[trigger] out@[a]).0 <= (
                #[trigger] rest@[b]).0,
        decreases rest@.len(),
    {
        let mut m: usize = 0;
        let mut i: usize = 1;
        while i < rest.len()
            invariant
                0 < rest@.len(),
                m < i <= rest@.len(),
                forall|b: int| 0 <= b < i ==> (#[trigger] rest@[b]).0 >= rest@[m as int].0,
            decreases rest@.len() - i,
        {
            if rest[i].0 < rest[m].0 {
                m = i;
            }
            i = i + 1;
        }
        let ghost old_out = out@;
        let ghost old_rest = rest@;
        let p = rest.remove(m);
        proof {
            broadcast use vstd::seq_lib::group_to_multiset_ensures;

            assert(old_rest.contains(p));
            assert(old_rest.to_multiset().count(p) > 0);
            assert(rest@ == old_rest.remove(m as int));
            assert(old_rest.remove(m as int).to_multiset() =~= old_rest.to_multiset().remove(
                old_rest[m as int],
            ));
            assert(rest@.to_multiset() =~= old_rest.to_multiset().remove(p));
            assert(old_out.push(p).to_multiset() =~= old_out.to_multiset().insert(p));
            assert(old_out.push(p).to_multiset().add(rest@.to_multiset()) =~= orig.to_multiset());
        }
        out.push(p);
        proof {
            assert(forall|b: int| 0 <= b < rest@.len() ==> p.0 <= (#[trigger] rest@[b]).0);
        }
    }
    proof {
        broadcast use vstd::seq_lib::group_to_multiset_ensures;

        assert(out@.to_multiset() =~= orig.to_multiset());
    }
    out
}

/// Concatenate the outputs of a row of partial results, left to right.
pub fn concat_parts<R>(parts: Vec<(usize, Vec<R>)>) -> (out: Vec<R>)
    ensures
        out@ == flatten_parts(parts@),
{
    let ghost orig = parts@;
    let mut rest = parts;
    let mut out: Vec<R> = Vec::new();
    while rest.len() > 0
        invariant
            out@ + flatten_parts(rest@) == flatten_parts(orig),
        decreases rest@.len(),
    {
        let ghost old_rest = rest@;
        let pr = rest.remove(0);
        let mut items = pr.1;
        proof {
            assert(rest@ =~= old_rest.drop_first());
            assert(flatten_parts(old_rest) == old_rest[0].1@ + flatten_parts(rest@));
            assert((out@ + items@) + flatten_parts(rest@) =~= out@ + (items@ + flatten_parts(
                rest@,
            )));
        }
        out.append(&mut items);
    }
    proof {
        assert(flatten_parts(rest@) =~= Seq::<R>::empty());
        assert(out@ + flatten_parts(rest@) =~= out@);
    }
    out
}

/// Decide whether the row's offsets and lengths tile `[0, n)` exactly:
/// the first pair starts at offset 0, none is empty, each next pair starts
/// where the previous one ended, and the last ends at `n`. When this holds
/// of a sorted row of partial results, concatenating them yields one
/// output per input position, in input order — no position missing, none
/// covered twice.
pub fn check_tiling<R>(parts: &Vec<(usize, Vec<R>)>, n: usize) -> (ok: bool)
    ensures
        ok == tiles(parts@, 0, n as int),
{
    proof {
        assert(parts@.skip(0) =~= parts@);
    }
    let mut cur: usize = 0;
    let mut i: usize = 0;
    while i < parts.len()
        invariant
            i <= parts@.len(),
            cur <= n,
            tiles(parts@, 0, n as int) == tiles(parts@.skip(i as int), cur as int, n as int),
        decreases parts@.len() - i,
    {
        let len = parts[i].1.len();
        if parts[i].0 != cur || len == 0 || len > n - cur {
            proof {
                assert(parts@.skip(i as int)[0] == parts@[i as int]);
                assert(!tiles(parts@.skip(i as int), cur as int, n as int));
            }
            return false;
        }
        proof {
            assert(parts@.skip(i as int)[0] == parts@[i as int]);
            assert(parts@.skip(i as int).drop_first() =~= parts@.skip(i as int + 1));
        }
        cur = cur + len;
        i = i + 1;
    }
    proof {
        assert(parts@.skip(i as int) =~= Seq::<(usize, Vec<R>)>::empty());
    }
    cur == n
}

} // verus!

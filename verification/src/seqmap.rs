//! The sequential path: map a function over an owned vector in order.

use vstd::prelude::*;

use crate::model::map_ensures;

verus! {

/// Apply `f` to every element of `data`, in order, on the calling thread.
pub fn map_vec<T, R, F: Fn(T) -> R>(data: Vec<T>, f: F) -> (out: Vec<R>)
    requires
        forall|t: T| #[trigger] f.requires((t,)),
    ensures
        map_ensures(f, data@, out@),
{
    let ghost orig: Seq<T> = data@;
    let mut rest = data;
    let mut out: Vec<R> = Vec::new();
    while rest.len() > 0
        invariant
            forall|t: T| #[trigger] f.requires((t,)),
            out@.len() + rest@.len() == orig.len(),
            rest@ == orig.subrange(out@.len() as int, orig.len() as int),
            forall|i: int| 0 <= i < out@.len() ==> f.ensures((orig[i],), #[trigger] out@[i]),
        decreases rest@.len(),
    {
        let x = rest.remove(0);
        assert(x == orig[out@.len() as int]);
        let y = f(x);
        out.push(y);
        proof {
            assert(rest@ =~= orig.subrange(out@.len() as int, orig.len() as int));
        }
    }
    out
}

} // verus!

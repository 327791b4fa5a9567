//! The mathematical model: what a mapped sequence is, what a row of
//! offset-tagged chunks or partial results covers, and the lemmas that
//! make offset-based reassembly independent of arrival order.

use vstd::prelude::*;

verus! {

/// `out` is one possible result of mapping `f` over `input`, element by
/// element and in order.
pub open spec fn map_ensures<T, R, F: Fn(T) -> R>(f: F, input: Seq<T>, out: Seq<R>) -> bool {
    &&& out.len() == input.len()
    &&& forall|i: int| 0 <= i < input.len() ==> f.ensures((input[i],), #[trigger] out[i])
}

/// The call relation of `f` is a function: equal inputs give equal outputs.
pub open spec fn deterministic<T, R, F: Fn(T) -> R>(f: F) -> bool {
    forall|t: T, r1: R, r2: R|
        #[trigger] f.ensures((t,), r1) && #[trigger] f.ensures((t,), r2) ==> r1 == r2
}

/// `cs`, read left to right, tiles `data[st..en)`: each pair is a non-empty
/// chunk tagged with its start offset, the first starts at `st`, consecutive
/// chunks abut, and each chunk holds exactly the input items at its offsets.
pub open spec fn chunks_between<T>(
    cs: Seq<(usize, Vec<T>)>,
    st: int,
    en: int,
    data: Seq<T>,
) -> bool
    decreases cs.len(),
{
    if cs.len() == 0 {
        st == en
    } else {
        let sz = cs[0].1@.len() as int;
        &&& cs[0].0 == st
        &&& 0 < sz
        &&& st + sz <= en
        &&& en <= data.len()
        &&& cs[0].1@ == data.subrange(st, st + sz)
        &&& chunks_between(cs.drop_first(), st + sz, en, data)
    }
}

/// `ps`, read left to right, is a row of partial results covering
/// `data[st..en)`: each pair holds a start offset and one possible mapping
/// of the input chunk beginning there.
pub open spec fn parts_between<T, R, F: Fn(T) -> R>(
    ps: Seq<(usize, Vec<R>)>,
    st: int,
    en: int,
    data: Seq<T>,
    f: F,
) -> bool
    decreases ps.len(),
{
    if ps.len() == 0 {
        st == en
    } else {
        let sz = ps[0].1@.len() as int;
        &&& ps[0].0 == st
        &&& 0 < sz
        &&& st + sz <= en
        &&& en <= data.len()
        &&& (forall|j: int| 0 <= j < sz ==> f.ensures((data[st + j],), #[trigger] ps[0].1@[j]))
        &&& parts_between(ps.drop_first(), st + sz, en, data, f)
    }
}

/// The outputs of a row of partial results, concatenated left to right.
pub open spec fn flatten_parts<R>(ps: Seq<(usize, Vec<R>)>) -> Seq<R>
    decreases ps.len(),
{
    if ps.len() == 0 {
        Seq::empty()
    } else {
        ps[0].1@ + flatten_parts(ps.drop_first())
    }
}

/// A row of chunks that tiles `data[st..en)` can be extended on the right
/// by the chunk that starts exactly at `en`.
pub proof fn lemma_chunks_snoc<T>(
    cs: Seq<(usize, Vec<T>)>,
    st: int,
    en: int,
    data: Seq<T>,
    c: (usize, Vec<T>),
)
    requires
        chunks_between(cs, st, en, data),
        c.0 == en,
        0 < c.1@.len(),
        en + c.1@.len() <= data.len(),
        c.1@ == data.subrange(en, en + c.1@.len() as int),
    ensures
        chunks_between(cs.push(c), st, en + c.1@.len() as int, data),
    decreases cs.len(),
{
    let en2 = en + c.1@.len() as int;
    if cs.len() == 0 {
        assert(st == en);
        assert(cs.push(c)[0] == c);
        assert(cs.push(c).drop_first() =~= Seq::<(usize, Vec<T>)>::empty());
        assert(chunks_between(cs.push(c).drop_first(), en + c.1@.len() as int, en2, data));
    } else {
        lemma_chunks_snoc(cs.drop_first(), st + cs[0].1@.len() as int, en, data, c);
        assert(cs.push(c)[0] == cs[0]);
        assert(cs.push(c).drop_first() =~= cs.drop_first().push(c));
        assert(chunks_between(cs.push(c).drop_first(), st + cs[0].1@.len() as int, en2, data));
    }
}

/// A single partial result is believable for `data` and `f` on its own:
/// non-empty, its offsets lie inside `data`, and each of its outputs is an
/// `f`-image of the input item at the matching offset. This is the message
/// invariant of the result channel: every partial result a worker sends
/// satisfies it.
pub open spec fn part_ok<T, R, F: Fn(T) -> R>(data: Seq<T>, f: F, m: (usize, Vec<R>)) -> bool {
    &&& 0 < m.1@.len()
    &&& m.0 + m.1@.len() <= data.len()
    &&& forall|j: int| 0 <= j < m.1@.len() ==> f.ensures((data[m.0 + j],), #[trigger] m.1@[j])
}

/// The row's offsets and lengths alone tile `[st, en)`: the first pair
/// starts at `st`, each next pair starts where the previous one ended, no
/// pair is empty, and the last ends at `en`. Unlike [`parts_between`] this
/// says nothing about the outputs, so executable code can decide it.
pub open spec fn tiles<R>(ps: Seq<(usize, Vec<R>)>, st: int, en: int) -> bool
    decreases ps.len(),
{
    if ps.len() == 0 {
        st == en
    } else {
        &&& ps[0].0 == st
        &&& 0 < ps[0].1@.len()
        &&& st + ps[0].1@.len() <= en
        &&& tiles(ps.drop_first(), st + ps[0].1@.len() as int, en)
    }
}

/// A row whose offsets tile `[st, en)` and whose every pair is believable
/// for `data` and `f` covers `data[st..en)`.
pub proof fn lemma_tiles_cover<T, R, F: Fn(T) -> R>(
    ps: Seq<(usize, Vec<R>)>,
    st: int,
    en: int,
    data: Seq<T>,
    f: F,
)
    requires
        tiles(ps, st, en),
        en <= data.len(),
        forall|j: int| 0 <= j < ps.len() ==> part_ok(data, f, #[trigger] ps[j]),
    ensures
        parts_between(ps, st, en, data, f),
    decreases ps.len(),
{
    if ps.len() > 0 {
        let sz = ps[0].1@.len() as int;
        assert(part_ok(data, f, ps[0]));
        assert(forall|i: int|
            0 <= i < ps.drop_first().len() ==> (#[trigger] ps.drop_first()[i]) == ps[i + 1]);
        lemma_tiles_cover(ps.drop_first(), st + sz, en, data, f);
    }
}

/// What one worker hands back for the chunk that starts at `off` and holds
/// `items`: the same offset, paired with one possible mapping of the items.
pub open spec fn worker_ok<T, R, F: Fn(T) -> R>(
    off: usize,
    items: Seq<T>,
    ret: (usize, Vec<R>),
    f: F,
) -> bool {
    &&& ret.0 == off
    &&& map_ensures(f, items, ret.1@)
}

/// A row of correct worker outputs, one per chunk and in chunk order,
/// covers the same slice of the input that the chunks tile.
pub proof fn lemma_workers_cover<T, R, F: Fn(T) -> R>(
    cs: Seq<(usize, Vec<T>)>,
    rs: Seq<(usize, Vec<R>)>,
    st: int,
    en: int,
    data: Seq<T>,
    f: F,
)
    requires
        chunks_between(cs, st, en, data),
        rs.len() == cs.len(),
        forall|i: int| 0 <= i < cs.len() ==> worker_ok((#[trigger] cs[i]).0, cs[i].1@, rs[i], f),
    ensures
        parts_between(rs, st, en, data, f),
    decreases cs.len(),
{
    if cs.len() > 0 {
        let sz = cs[0].1@.len() as int;
        assert(forall|i: int|
            0 <= i < cs.drop_first().len() ==> (#[trigger] cs.drop_first()[i]) == cs[i + 1]);
        assert(forall|i: int|
            0 <= i < rs.drop_first().len() ==> (#[trigger] rs.drop_first()[i]) == rs[i + 1]);
        lemma_workers_cover(cs.drop_first(), rs.drop_first(), st + sz, en, data, f);
        assert(worker_ok(cs[0].0, cs[0].1@, rs[0], f));
        assert forall|j: int| 0 <= j < rs[0].1@.len() implies f.ensures(
            (data[st + j],),
            #[trigger] rs[0].1@[j],
        ) by {
            assert(cs[0].1@[j] == data.subrange(st, st + sz)[j]);
            assert(f.ensures((cs[0].1@[j],), rs[0].1@[j]));
        }
        assert(parts_between(rs.drop_first(), st + sz, en, data, f));
    }
}

/// Concatenating a row of partial results that covers `data[st..en)`, in
/// the order given, yields one possible mapping of `data[st..en)`.
pub proof fn lemma_parts_flatten<T, R, F: Fn(T) -> R>(
    ps: Seq<(usize, Vec<R>)>,
    st: int,
    en: int,
    data: Seq<T>,
    f: F,
)
    requires
        parts_between(ps, st, en, data, f),
        0 <= st <= en,
    ensures
        flatten_parts(ps).len() == en - st,
        forall|i: int|
            0 <= i < en - st ==> f.ensures((data[st + i],), #[trigger] flatten_parts(ps)[i]),
    decreases ps.len(),
{
    if ps.len() > 0 {
        let sz = ps[0].1@.len() as int;
        lemma_parts_flatten(ps.drop_first(), st + sz, en, data, f);
        let rest = flatten_parts(ps.drop_first());
        assert(flatten_parts(ps) == ps[0].1@ + rest);
        assert forall|i: int| 0 <= i < en - st implies f.ensures(
            (data[st + i],),
            #[trigger] flatten_parts(ps)[i],
        ) by {
            if i < sz {
                assert(flatten_parts(ps)[i] == ps[0].1@[i]);
            } else {
                assert(flatten_parts(ps)[i] == rest[i - sz]);
                assert(f.ensures((data[(st + sz) + (i - sz)],), rest[i - sz]));
            }
        }
    }
}

/// In a row of partial results that covers `data[st..en)` the offsets are
/// strictly ascending, and none lies below `st`.
pub proof fn lemma_parts_strictly_sorted<T, R, F: Fn(T) -> R>(
    ps: Seq<(usize, Vec<R>)>,
    st: int,
    en: int,
    data: Seq<T>,
    f: F,
)
    requires
        parts_between(ps, st, en, data, f),
    ensures
        strictly_sorted_by_offset(ps),
        forall|i: int| 0 <= i < ps.len() ==> st <= (#[trigger] ps[i]).0,
    decreases ps.len(),
{
    if ps.len() > 0 {
        let sz = ps[0].1@.len() as int;
        lemma_parts_strictly_sorted(ps.drop_first(), st + sz, en, data, f);
        assert(forall|i: int|
            0 <= i < ps.drop_first().len() ==> (#[trigger] ps.drop_first()[i]) == ps[i + 1]);
        assert forall|i: int, j: int| 0 <= i < j < ps.len() implies (#[trigger] ps[i]).0 < (
        #[trigger] ps[j]).0 by {
            if i > 0 {
                assert(ps.drop_first()[i - 1].0 < ps.drop_first()[j - 1].0);
            } else {
                assert(st + sz <= ps.drop_first()[j - 1].0);
            }
        }
    }
}

/// Reordering partial results does not matter: two rows with the same
/// multiset of tagged partial results, each laid out in ascending offset
/// order, are the same row whenever one of them repeats no offset. This is
/// why collecting results in completion order and sorting by offset yields
/// the same output as collecting them in dispatch order.
pub proof fn lemma_sorted_unique<R>(p: Seq<(usize, Vec<R>)>, q: Seq<(usize, Vec<R>)>)
    requires
        strictly_sorted_by_offset(p),
        sorted_by_offset(q),
        p.to_multiset() == q.to_multiset(),
    ensures
        p == q,
    decreases p.len(),
{
    broadcast use vstd::seq_lib::group_to_multiset_ensures;

    assert(p.len() == p.to_multiset().len());
    assert(q.len() == q.to_multiset().len());
    if p.len() == 0 {
        assert(p =~= q);
    } else {
        assert(p.contains(p[0]));
        assert(q.to_multiset().count(p[0]) > 0);
        assert(q.contains(p[0]));
        let j = choose|j: int| 0 <= j < q.len() && q[j] == p[0];
        assert(q.contains(q[0]));
        assert(p.to_multiset().count(q[0]) > 0);
        assert(p.contains(q[0]));
        let i = choose|i: int| 0 <= i < p.len() && p[i] == q[0];
        assert(q[0].0 <= q[j].0);
        assert(p[0].0 <= p[i].0);
        assert(p[0].0 == q[0].0);
        assert(i == 0) by {
            if i > 0 {
                assert(p[0].0 < p[i].0);
            }
        }
        assert(q[0] == p[0]);
        let pt = p.drop_first();
        let qt = q.drop_first();
        assert(pt =~= p.remove(0));
        assert(qt =~= q.remove(0));
        assert(pt.to_multiset() == p.to_multiset().remove(p[0]));
        assert(qt.to_multiset() == q.to_multiset().remove(q[0]));
        assert(forall|i: int| 0 <= i < pt.len() ==> (#[trigger] pt[i]) == p[i + 1]);
        assert(forall|i: int| 0 <= i < qt.len() ==> (#[trigger] qt[i]) == q[i + 1]);
        lemma_sorted_unique(pt, qt);
        assert forall|m: int| 0 <= m < p.len() implies p[m] == q[m] by {
            if m > 0 {
                assert(pt[m - 1] == qt[m - 1]);
            }
        }
        assert(p =~= q);
    }
}

/// If `f` is deterministic, a sequence has at most one image under `f`:
/// any two results of mapping `f` over the same input are equal. Mapping
/// with a fixed thread count or twice in a row therefore changes nothing,
/// and the small-input sequential path returns exactly what any parallel
/// schedule would.
pub proof fn lemma_map_unique<T, R, F: Fn(T) -> R>(f: F, input: Seq<T>, out1: Seq<R>, out2: Seq<R>)
    requires
        deterministic(f),
        map_ensures(f, input, out1),
        map_ensures(f, input, out2),
    ensures
        out1 == out2,
{
    assert forall|i: int| 0 <= i < input.len() implies out1[i] == out2[i] by {
        assert(f.ensures((input[i],), out1[i]));
        assert(f.ensures((input[i],), out2[i]));
    }
    assert(out1 =~= out2);
}

/// Order preservation, whatever the scheduling: take any row of chunks
/// that tiles `data`, any row of correct worker outputs for those chunks,
/// let the outputs arrive in an arbitrary order, and sort what arrived by
/// its recorded offset. The concatenation of the sorted row has `data`'s
/// length, and its element `i` is an image of `data[i]` under `f` — the
/// thread count and the completion order leave no trace in the result.
pub proof fn lemma_order_preserved<T, R, F: Fn(T) -> R>(
    cs: Seq<(usize, Vec<T>)>,
    rs: Seq<(usize, Vec<R>)>,
    arrived: Seq<(usize, Vec<R>)>,
    q: Seq<(usize, Vec<R>)>,
    data: Seq<T>,
    f: F,
)
    requires
        chunks_between(cs, 0, data.len() as int, data),
        rs.len() == cs.len(),
        forall|i: int| 0 <= i < cs.len() ==> worker_ok((#[trigger] cs[i]).0, cs[i].1@, rs[i], f),
        arrived.to_multiset() == rs.to_multiset(),
        sorted_by_offset(q),
        q.to_multiset() == arrived.to_multiset(),
    ensures
        q == rs,
        flatten_parts(q).len() == data.len(),
        forall|i: int|
            0 <= i < data.len() ==> f.ensures((data[i],), #[trigger] flatten_parts(q)[i]),
{
    lemma_workers_cover(cs, rs, 0, data.len() as int, data, f);
    lemma_parts_strictly_sorted(rs, 0, data.len() as int, data, f);
    lemma_sorted_unique(rs, q);
    lemma_parts_flatten(rs, 0, data.len() as int, data, f);
}

/// The offsets of the row appear in ascending order.
pub open spec fn sorted_by_offset<R>(ps: Seq<(usize, Vec<R>)>) -> bool {
    forall|i: int, j: int| 0 <= i < j < ps.len() ==> (#[trigger] ps[i]).0 <= (#[trigger] ps[j]).0
}

/// The offsets of the row appear in strictly ascending order.
pub open spec fn strictly_sorted_by_offset<R>(ps: Seq<(usize, Vec<R>)>) -> bool {
    forall|i: int, j: int| 0 <= i < j < ps.len() ==> (#[trigger] ps[i]).0 < (#[trigger] ps[j]).0
}

} // verus!

//! Reading trace maps, and comparing what they show with what was seen.
//!
//! A path lists the edges of a run, chunk by chunk: each edge by its place in
//! the chunk, with the bucket of its hit count.

use super::lookup::{buckets_are_ordered, edge_bucket, edge_lookup};
use crate::chunks::{is_chunked, is_order, is_table, order_meets_all, owner, owner_is, table_shape};
use vstd::prelude::*;

verus! {

/// The trace maps are read in words of eight bytes: what is behind the last
/// whole word is not looked at.
pub open spec fn whole_words(len: int) -> int {
    len / 8 * 8
}

/// The edges in `lo..hi` that were hit, counted from `base`.
pub open spec fn hits(trace: Seq<u8>, base: int, lo: int, hi: int) -> Seq<(usize, u8)>
    decreases hi - lo,
{
    if hi <= lo {
        Seq::empty()
    } else if trace[hi - 1] > 0 {
        hits(trace, base, lo, hi - 1).push(((hi - 1 - base) as usize, edge_bucket(trace[hi - 1])))
    } else {
        hits(trace, base, lo, hi - 1)
    }
}

/// The path through the chunk `lo..hi`.
pub open spec fn chunk_path(trace: Seq<u8>, lo: int, hi: int) -> Seq<(usize, u8)> {
    let end = if hi < whole_words(trace.len() as int) {
        hi
    } else {
        whole_words(trace.len() as int)
    };
    hits(trace, lo, lo, end)
}

/// The edges before `hi` that were hit, with their hit counts.
pub open spec fn raw_hits(trace: Seq<u8>, hi: int) -> Seq<(usize, u8)>
    decreases hi,
{
    if hi <= 0 {
        Seq::empty()
    } else if trace[hi - 1] > 0 {
        raw_hits(trace, hi - 1).push(((hi - 1) as usize, trace[hi - 1]))
    } else {
        raw_hits(trace, hi - 1)
    }
}

/// Edges of a chunk of `len` cells, in increasing order and each once, with
/// buckets.
pub open spec fn is_path(path: Seq<(usize, u8)>, len: int) -> bool {
    &&& forall|i: int| 0 <= i < path.len() ==> (#[trigger] path[i]).0 < len && path[i].1 != 0
    &&& forall|i: int, j: int| 0 <= i < j < path.len() ==> (#[trigger] path[i]).0 < (
        #[trigger] path[j]).0
}

/// A path for each chunk.
pub open spec fn are_paths(
    paths: Seq<Vec<(usize, u8)>>,
    start: Seq<usize>,
    end: Seq<usize>,
) -> bool {
    &&& paths.len() == start.len()
    &&& forall|c: int| 0 <= c < paths.len() ==> is_path(#[trigger] paths[c]@, end[c] - start[c])
}

proof fn lemma_hits(trace: Seq<u8>, base: int, lo: int, hi: int)
    requires
        0 <= base <= lo,
        hi <= usize::MAX,
    ensures
        is_path(hits(trace, base, lo, hi), hi - base),
        forall|i: int|
            0 <= i < hits(trace, base, lo, hi).len() ==> lo - base <= (#[trigger] hits(
                trace,
                base,
                lo,
                hi,
            )[i]).0 < hi - base,
    decreases hi - lo,
{
    if lo < hi {
        lemma_hits(trace, base, lo, hi - 1);
        buckets_are_ordered(trace[hi - 1], 0, 0, 0);
    }
}

/// What a trace map shows is a path, and a longer chunk only adds to it.
pub proof fn traces_show_paths(trace: Seq<u8>, lo: int, hi: int)
    requires
        0 <= lo <= hi <= usize::MAX,
    ensures
        is_path(chunk_path(trace, lo, hi), hi - lo),
{
    let end = if hi < whole_words(trace.len() as int) {
        hi
    } else {
        whole_words(trace.len() as int)
    };
    lemma_hits(trace, lo, lo, end);
}

fn read_hits(trace: &[u8], lo: usize, hi: usize) -> (r: Vec<(usize, u8)>)
    requires
        hi <= trace@.len(),
    ensures
        r@ == hits(trace@, lo as int, lo as int, hi as int),
{
    let mut r: Vec<(usize, u8)> = Vec::new();
    let mut idx: usize = lo;
    while idx < hi
        invariant
            lo <= idx,
            lo <= hi ==> idx <= hi,
            hi < lo ==> idx == lo,
            hi <= trace@.len(),
            r@ == hits(trace@, lo as int, lo as int, idx as int),
        decreases hi - idx,
    {
        let v: u8 = trace[idx];
        if v > 0 {
            r.push((idx - lo, edge_lookup(v)));
        }
        idx = idx + 1;
    }
    r
}

/// Reads a trace map into a path for each chunk.
pub fn get_path(trace: &[u8], start_pos: &Vec<usize>, end_pos: &Vec<usize>) -> (path: Vec<
    Vec<(usize, u8)>,
>)
    requires
        start_pos@.len() > 0,
        is_table(start_pos@, end_pos@, trace@.len(), start_pos@.len()),
    ensures
        path@.len() == start_pos@.len(),
        forall|c: int|
            0 <= c < path@.len() ==> (#[trigger] path@[c])@ == chunk_path(
                trace@,
                start_pos@[c] as int,
                end_pos@[c] as int,
            ),
        are_paths(path@, start_pos@, end_pos@),
{
    let limit: usize = trace.len() / 8 * 8;
    let mut path: Vec<Vec<(usize, u8)>> = Vec::new();
    let mut c: usize = 0;
    proof {
        table_shape(start_pos@, end_pos@, trace@.len(), start_pos@.len());
    }
    while c < start_pos.len()
        invariant
            c <= start_pos@.len(),
            start_pos@.len() == end_pos@.len(),
            limit == whole_words(trace@.len() as int),
            limit <= trace@.len(),
            forall|i: int|
                0 <= i < start_pos@.len() ==> #[trigger] start_pos@[i] <= end_pos@[i],
            forall|i: int| 0 <= i < start_pos@.len() ==> #[trigger] end_pos@[i] <= trace@.len(),
            path@.len() == c,
            forall|k: int|
                0 <= k < c ==> (#[trigger] path@[k])@ == chunk_path(
                    trace@,
                    start_pos@[k] as int,
                    end_pos@[k] as int,
                ),
            forall|k: int|
                0 <= k < c ==> is_path(#[trigger] path@[k]@, end_pos@[k] - start_pos@[k]),
        decreases start_pos@.len() - c,
    {
        let hi: usize = if end_pos[c] < limit {
            end_pos[c]
        } else {
            limit
        };
        let part: Vec<(usize, u8)> = read_hits(trace, start_pos[c], hi);
        proof {
            assert(start_pos@[c as int] <= end_pos@[c as int]);
            traces_show_paths(trace@, start_pos@[c as int] as int, end_pos@[c as int] as int);
        }
        path.push(part);
        c = c + 1;
    }
    path
}

/// Reads a trace map into one list of edges and hit counts.
pub fn get_raw_full_path(trace: &[u8]) -> (r: Vec<(usize, u8)>)
    ensures
        r@ == raw_hits(trace@, whole_words(trace@.len() as int)),
{
    let limit: usize = trace.len() / 8 * 8;
    let mut r: Vec<(usize, u8)> = Vec::new();
    let mut idx: usize = 0;
    while idx < limit
        invariant
            idx <= limit <= trace@.len(),
            r@ == raw_hits(trace@, idx as int),
        decreases limit - idx,
    {
        let v: u8 = trace[idx];
        if v > 0 {
            r.push((idx, v));
        }
        idx = idx + 1;
    }
    r
}

/// The number of edges on the first `n` of the paths.
pub open spec fn edge_count(paths: Seq<Vec<(usize, u8)>>, n: int) -> nat
    decreases n,
{
    if n <= 0 {
        0
    } else {
        edge_count(paths, n - 1) + paths[n - 1]@.len()
    }
}

// Comparison with the maps of what was seen.

/// The edges of a path whose bucket was not seen yet.
pub open spec fn unseen(path: Seq<(usize, u8)>, cells: Seq<u8>) -> Seq<(usize, u8)>
    decreases path.len(),
{
    if path.len() == 0 {
        path
    } else {
        let rest = unseen(path.drop_last(), cells);
        let e = path.last();
        if e.1 & cells[e.0 as int] > 0 {
            rest.push(e)
        } else {
            rest
        }
    }
}

/// All edges lie in the chunk.
pub open spec fn in_chunk(path: Seq<(usize, u8)>, len: int) -> bool {
    forall|i: int| 0 <= i < path.len() ==> (#[trigger] path[i]).0 < len
}

/// The unseen part of a path is a path.
pub proof fn unseen_is_path(path: Seq<(usize, u8)>, cells: Seq<u8>, len: int)
    requires
        is_path(path, len),
    ensures
        is_path(unseen(path, cells), len),
        path.len() > 0 && unseen(path, cells).len() > 0 ==> unseen(path, cells).last().0
            <= path.last().0,
        unseen(path, cells).len() <= path.len(),
    decreases path.len(),
{
    if path.len() > 0 {
        let p = path.drop_last();
        unseen_is_path(p, cells, len);
        if p.len() > 0 {
            assert(p.last() == path[path.len() - 2]);
        }
    }
}

/// Picks the edges of a path whose bucket was not seen yet.
pub fn unseen_edges(path: &Vec<(usize, u8)>, cells: &Vec<u8>) -> (r: Vec<(usize, u8)>)
    requires
        in_chunk(path@, cells@.len() as int),
    ensures
        r@ == unseen(path@, cells@),
{
    let mut r: Vec<(usize, u8)> = Vec::new();
    let mut i: usize = 0;
    assert(path@.take(0) =~= Seq::empty());
    while i < path.len()
        invariant
            i <= path@.len(),
            in_chunk(path@, cells@.len() as int),
            r@ == unseen(path@.take(i as int), cells@),
        decreases path@.len() - i,
    {
        let (edge, bucket) = path[i];
        assert(path@[i as int].0 < cells@.len());
        assert(path@.take(i + 1).drop_last() =~= path@.take(i as int));
        if bucket & cells[edge] > 0 {
            r.push((edge, bucket));
        }
        i = i + 1;
    }
    assert(path@.take(i as int) =~= path@);
    r
}

/// The cells after the buckets of `writes` were seen.
pub open spec fn seen(cells: Seq<u8>, writes: Seq<(usize, u8)>) -> Seq<u8>
    decreases writes.len(),
{
    if writes.len() == 0 {
        cells
    } else {
        let c = seen(cells, writes.drop_last());
        let w = writes.last();
        c.update(w.0 as int, c[w.0 as int] & !w.1)
    }
}

/// The edge `l` was never hit before and is hit now.
pub open spec fn is_first(cells: Seq<u8>, writes: Seq<(usize, u8)>, l: int) -> bool {
    &&& 0 <= l < cells.len()
    &&& cells[l] == 255
    &&& exists|i: int| 0 <= i < writes.len() && (#[trigger] writes[i]).0 == l && writes[i].1 != 0
}

/// Write `i` shows a bucket that was not seen.
pub open spec fn is_news(cells: Seq<u8>, writes: Seq<(usize, u8)>, i: int) -> bool {
    0 <= i < writes.len() && writes[i].1 & cells[writes[i].0 as int] > 0
}

/// Something of `writes` was not seen.
pub open spec fn has_news(cells: Seq<u8>, writes: Seq<(usize, u8)>) -> bool {
    exists|i: int| #[trigger] is_news(cells, writes, i)
}

proof fn lemma_mask(gb: u8, f: u8, bucket: u8)
    by (bit_vector)
    ensures
        f & f == f,
        gb & f == gb ==> (gb & !bucket) & f == gb & !bucket,
        bucket & gb == 0 ==> gb & !bucket == gb,
        gb & f == gb && bucket & gb > 0 ==> bucket & f > 0,
        gb == 255 && bucket != 0 ==> bucket & gb > 0 && gb & !bucket != 255,
        gb & !bucket == 255 ==> gb == 255 && bucket == 0,
        gb & f == gb && gb == 255 ==> f == 255,
        bucket & gb > 0 ==> bucket != 0,
{
}

/// An edge that is still unseen after the writes was unseen before, and no
/// write hit it.
pub proof fn unseen_was_not_hit(cells: Seq<u8>, writes: Seq<(usize, u8)>, l: int)
    requires
        in_chunk(writes, cells.len() as int),
        0 <= l < cells.len(),
        seen(cells, writes)[l] == 255,
    ensures
        cells[l] == 255,
        !is_first(cells, writes, l),
        seen(cells, writes).len() == cells.len(),
    decreases writes.len(),
{
    if writes.len() > 0 {
        let d = writes.drop_last();
        let w = writes.last();
        assert(writes[writes.len() - 1].0 < cells.len());
        assert forall|i: int| 0 <= i < d.len() implies (#[trigger] d[i]).0 < cells.len() by {
            assert(writes[i].0 < cells.len());
        }
        seen_keeps_len(cells, d);
        lemma_mask(seen(cells, d)[w.0 as int], 0, w.1);
        unseen_was_not_hit(cells, d, l);
        if is_first(cells, writes, l) {
            let i = choose|i: int|
                0 <= i < writes.len() && (#[trigger] writes[i]).0 == l && writes[i].1 != 0;
            if i < d.len() {
                assert(d[i].0 == l && d[i].1 != 0);
            }
        }
    }
}

/// Noting edges keeps the size of the map.
pub proof fn seen_keeps_len(cells: Seq<u8>, writes: Seq<(usize, u8)>)
    requires
        in_chunk(writes, cells.len() as int),
    ensures
        seen(cells, writes).len() == cells.len(),
    decreases writes.len(),
{
    if writes.len() > 0 {
        let d = writes.drop_last();
        assert(writes[writes.len() - 1].0 < cells.len());
        assert forall|i: int| 0 <= i < d.len() implies (#[trigger] d[i]).0 < cells.len() by {
            assert(writes[i].0 < cells.len());
        }
        seen_keeps_len(cells, d);
    }
}

/// What was seen stays seen: no bucket becomes unseen again.
pub proof fn seen_only_grows(cells: Seq<u8>, writes: Seq<(usize, u8)>, l: int)
    requires
        in_chunk(writes, cells.len() as int),
        0 <= l < cells.len(),
    ensures
        seen(cells, writes).len() == cells.len(),
        seen(cells, writes)[l] & cells[l] == seen(cells, writes)[l],
    decreases writes.len(),
{
    if writes.len() == 0 {
        lemma_mask(0, cells[l], 0);
    } else {
        let d = writes.drop_last();
        let w = writes.last();
        assert(writes[writes.len() - 1].0 < cells.len());
        assert forall|i: int| 0 <= i < d.len() implies (#[trigger] d[i]).0 < cells.len() by {
            assert(writes[i].0 < cells.len());
        }
        seen_only_grows(cells, d, l);
        lemma_mask(seen(cells, d)[l], cells[l], w.1);
    }
}

/// A bucket that was written is seen.
proof fn lemma_written_is_seen(cells: Seq<u8>, writes: Seq<(usize, u8)>, i: int)
    requires
        in_chunk(writes, cells.len() as int),
        0 <= i < writes.len(),
    ensures
        writes[i].1 & seen(cells, writes)[writes[i].0 as int] == 0,
    decreases writes.len(),
{
    let d = writes.drop_last();
    let w = writes.last();
    let l = writes[i].0 as int;
    assert(writes[writes.len() - 1].0 < cells.len());
    assert(writes[i].0 < cells.len());
    assert forall|k: int| 0 <= k < d.len() implies (#[trigger] d[k]).0 < cells.len() by {
        assert(writes[k].0 < cells.len());
    }
    seen_keeps_len(cells, d);
    let x = seen(cells, d)[w.0 as int];
    let b = writes[i].1;
    let v = w.1;
    assert(v & (x & !v) == 0 && (b & x == 0 ==> b & (x & !v) == 0)) by (bit_vector);
    if i < d.len() {
        lemma_written_is_seen(cells, d, i);
    }
}

proof fn lemma_unseen_entries(path: Seq<(usize, u8)>, cells: Seq<u8>, i: int)
    requires
        0 <= i < path.len(),
        path[i].1 & cells[path[i].0 as int] > 0,
    ensures
        unseen(path, cells).contains(path[i]),
    decreases path.len(),
{
    let r = unseen(path.drop_last(), cells);
    if i < path.len() - 1 {
        lemma_unseen_entries(path.drop_last(), cells, i);
        let j = choose|j: int| 0 <= j < r.len() && r[j] == path[i];
        assert(unseen(path, cells)[j] == path[i]);
    } else {
        assert(unseen(path, cells)[r.len() as int] == path[i]);
    }
}

proof fn lemma_none_unseen(path: Seq<(usize, u8)>, cells: Seq<u8>)
    requires
        forall|i: int|
            0 <= i < path.len() ==> (#[trigger] path[i]).1 & cells[path[i].0 as int] == 0,
    ensures
        unseen(path, cells).len() == 0,
    decreases path.len(),
{
    if path.len() > 0 {
        assert(path[path.len() - 1].1 & cells[path[path.len() - 1].0 as int] == 0);
        assert forall|i: int| 0 <= i < path.drop_last().len() implies (
        #[trigger] path.drop_last()[i]).1 & cells[path.drop_last()[i].0 as int] == 0 by {
            assert(path[i].1 & cells[path[i].0 as int] == 0);
        }
        lemma_none_unseen(path.drop_last(), cells);
    }
}

/// A run that was noted shows nothing new when it is repeated.
pub proof fn noted_runs_show_nothing_new(path: Seq<(usize, u8)>, cells: Seq<u8>)
    requires
        is_path(path, cells.len() as int),
    ensures
        unseen(path, seen(cells, unseen(path, cells))).len() == 0,
{
    let u = unseen(path, cells);
    let after = seen(cells, u);
    unseen_is_path(path, cells, cells.len() as int);
    assert forall|i: int| 0 <= i < path.len() implies (#[trigger] path[i]).1
        & after[path[i].0 as int] == 0 by {
        let b = path[i].1;
        let l = path[i].0 as int;
        if b & cells[l] > 0 {
            lemma_unseen_entries(path, cells, i);
            let j = choose|j: int| 0 <= j < u.len() && u[j] == path[i];
            lemma_written_is_seen(cells, u, j);
        } else {
            seen_only_grows(cells, u, l);
            let x = after[l];
            let y = cells[l];
            assert(x & y == x && b & y == 0 ==> b & x == 0) by (bit_vector);
        }
    }
    lemma_none_unseen(path, after);
}

/// Notes one chunk's buckets as seen. Returns the edges that were hit for the
/// first time, and whether anything was new.
fn note_chunk(cells: &mut Vec<u8>, writes: &Vec<(usize, u8)>) -> (r: (Vec<usize>, bool))
    requires
        in_chunk(writes@, old(cells)@.len() as int),
    ensures
        final(cells)@.len() == old(cells)@.len(),
        final(cells)@ == seen(old(cells)@, writes@),
        r.0@.no_duplicates(),
        forall|l: usize| #[trigger]
            r.0@.contains(l) <==> is_first(old(cells)@, writes@, l as int),
        r.1 == has_news(old(cells)@, writes@),
{
    let ghost first = cells@;
    let mut new_edges: Vec<usize> = Vec::new();
    let mut any = false;
    let mut i: usize = 0;
    assert(writes@.take(0) =~= Seq::empty());
    assert forall|l: int| 0 <= l < first.len() implies first[l] & first[l] == #[trigger] first[l] by {
        lemma_mask(0, first[l], 0);
    }
    while i < writes.len()
        invariant
            i <= writes@.len(),
            cells@.len() == first.len(),
            in_chunk(writes@, first.len() as int),
            cells@ == seen(first, writes@.take(i as int)),
            !any ==> cells@ == first,
            any == exists|k: int| k < i && #[trigger] is_news(first, writes@, k),
            forall|l: int| 0 <= l < first.len() ==> cells@[l] & first[l] == #[trigger] cells@[l],
            forall|l: int|
                0 <= l < first.len() ==> (#[trigger] cells@[l] == 255 <==> first[l] == 255 && !(
                exists|k: int|
                    0 <= k < i && (#[trigger] writes@[k]).0 == l && writes@[k].1 != 0)),
            new_edges@.no_duplicates(),
            forall|l: usize| #[trigger]
                new_edges@.contains(l) <==> l < first.len() && first[l as int] == 255 && cells@[l as int]
                    != 255,
        decreases writes@.len() - i,
    {
        let (edge, bucket) = writes[i];
        assert(writes@[i as int].0 < first.len());
        assert(writes@.take(i + 1).drop_last() =~= writes@.take(i as int));
        let gb_v: u8 = cells[edge];
        let ghost f = first[edge as int];
        let ghost before = cells@;
        let ghost edges_before = new_edges@;
        let ghost any_before = any;
        proof {
            assert(cells@[edge as int] & first[edge as int] == cells@[edge as int]);
            lemma_mask(gb_v, f, bucket);
            if gb_v == 255 {
                assert(!edges_before.contains(edge));
            }
        }
        if bucket & gb_v > 0 {
            if gb_v == 255 {
                new_edges.push(edge);
            }
            any = true;
            cells.set(edge, gb_v & !bucket);
        }
        proof {
            assert(cells@ =~= before.update(edge as int, gb_v & !bucket));
            assert(is_news(first, writes@, i as int) == (bucket & f > 0));
            assert(any == exists|k: int| k < i + 1 && #[trigger] is_news(first, writes@, k)) by {
                if any_before {
                    let k = choose|k: int| k < i && #[trigger] is_news(first, writes@, k);
                    assert(is_news(first, writes@, k));
                }
            }
            assert forall|l: int| 0 <= l < first.len() implies (#[trigger] cells@[l] == 255 <==> first[l]
                == 255 && !(exists|k: int|
                0 <= k < i + 1 && (#[trigger] writes@[k]).0 == l && writes@[k].1 != 0)) by {
                assert(before[l] == 255 <==> first[l] == 255 && !(exists|k: int|
                    0 <= k < i && (#[trigger] writes@[k]).0 == l && writes@[k].1 != 0));
                if l == edge {
                    assert(writes@[i as int].0 == l);
                }
            }
            assert forall|l: usize| #[trigger] new_edges@.contains(l) <==> l < first.len()
                && first[l as int] == 255 && cells@[l as int] != 255 by {
                assert(edges_before.contains(l) <==> l < first.len() && first[l as int] == 255
                    && before[l as int] != 255);
                if edges_before.contains(l) {
                    let k = choose|k: int| 0 <= k < edges_before.len() && edges_before[k] == l;
                    assert(new_edges@[k] == l);
                }
                if new_edges@.len() > edges_before.len() {
                    assert(new_edges@[edges_before.len() as int] == edge);
                }
            }
        }
        i = i + 1;
    }
    proof {
        assert(writes@.take(i as int) =~= writes@);
        assert forall|l: usize| #[trigger] new_edges@.contains(l) <==> is_first(
            first,
            writes@,
            l as int,
        ) by {
            if l < first.len() {
                assert(cells@[l as int] == 255 <==> first[l as int] == 255 && !(exists|k: int|
                    0 <= k < i && (#[trigger] writes@[k]).0 == l && writes@[k].1 != 0));
            }
        }
        if any {
            let k = choose|k: int| k < i && #[trigger] is_news(first, writes@, k);
            assert(is_news(first, writes@, k));
        }
    }
    (new_edges, any)
}

/// Appends `base + l` for each `l` of `locals`.
fn append_shifted(out: &mut Vec<usize>, locals: &Vec<usize>, base: usize)
    requires
        forall|i: int| 0 <= i < locals@.len() ==> base + #[trigger] locals@[i] <= usize::MAX,
    ensures
        final(out)@ == old(out)@ + Seq::new(
            locals@.len(),
            |i: int| (base + locals@[i]) as usize,
        ),
{
    let ghost before = out@;
    let ghost added = Seq::new(locals@.len(), |i: int| (base + locals@[i]) as usize);
    let mut i: usize = 0;
    while i < locals.len()
        invariant
            i <= locals@.len(),
            forall|k: int| 0 <= k < locals@.len() ==> base + #[trigger] locals@[k] <= usize::MAX,
            added == Seq::new(locals@.len(), |k: int| (base + locals@[k]) as usize),
            out@ =~= before + added.take(i as int),
        decreases locals@.len() - i,
    {
        assert(base + locals@[i as int] <= usize::MAX);
        out.push(base + locals[i]);
        i = i + 1;
    }
    assert(added.take(i as int) =~= added);
}

/// The edges of the map that were never hit before and are hit now.
pub open spec fn first_edges(
    map: Seq<Vec<u8>>,
    writes: Seq<Vec<(usize, u8)>>,
    start: Seq<usize>,
    end: Seq<usize>,
    total: int,
) -> Set<usize> {
    Set::new(
        |id: usize|
            id < total && is_first(
                map[owner(start, end, id as int)]@,
                writes[owner(start, end, id as int)]@,
                id - start[owner(start, end, id as int)],
            ),
    )
}

/// Something in chunk `c` was not seen.
pub open spec fn chunk_has_news(
    map: Seq<Vec<u8>>,
    writes: Seq<Vec<(usize, u8)>>,
    c: int,
) -> bool {
    0 <= c < map.len() && has_news(map[c]@, writes[c]@)
}

/// Something was not seen.
pub open spec fn map_has_news(map: Seq<Vec<u8>>, writes: Seq<Vec<(usize, u8)>>) -> bool {
    exists|c: int| #[trigger] chunk_has_news(map, writes, c)
}

/// All writes lie in their chunks.
pub open spec fn are_writes(
    writes: Seq<Vec<(usize, u8)>>,
    start: Seq<usize>,
    end: Seq<usize>,
) -> bool {
    &&& writes.len() == start.len()
    &&& forall|c: int|
        0 <= c < writes.len() ==> in_chunk((#[trigger] writes[c])@, end[c] - start[c])
}

/// Paths can be written.
pub proof fn paths_are_writes(
    paths: Seq<Vec<(usize, u8)>>,
    start: Seq<usize>,
    end: Seq<usize>,
)
    requires
        are_paths(paths, start, end),
    ensures
        are_writes(paths, start, end),
{
}

/// Notes the buckets of `writes` as seen. Returns the edges that were hit for
/// the first time, and whether anything was new. The chunks are visited in
/// the given order, which makes no difference to the outcome.
pub fn note_map(
    map: &mut Vec<Vec<u8>>,
    writes: &Vec<Vec<(usize, u8)>>,
    start: &Vec<usize>,
    end: &Vec<usize>,
    total: usize,
    order: &Vec<usize>,
) -> (r: (Vec<usize>, bool))
    requires
        0 < start@.len(),
        is_table(start@, end@, total as nat, start@.len()),
        is_chunked(old(map)@, start@, end@),
        are_writes(writes@, start@, end@),
        is_order(order@, start@.len() as int),
    ensures
        is_chunked(final(map)@, start@, end@),
        forall|c: int|
            0 <= c < start@.len() ==> (#[trigger] final(map)@[c])@ == seen(
                old(map)@[c]@,
                writes@[c]@,
            ),
        r.0@.no_duplicates(),
        forall|id: usize| #[trigger]
            r.0@.contains(id) <==> first_edges(
                old(map)@,
                writes@,
                start@,
                end@,
                total as int,
            ).contains(id),
        r.1 == map_has_news(old(map)@, writes@),
{
    let ghost first = map@;
    let ghost n = start@.len() as int;
    let ghost target = first_edges(first, writes@, start@, end@, total as int);
    let mut new_edges: Vec<usize> = Vec::new();
    let mut any = false;
    let mut k: usize = 0;
    proof {
        table_shape(start@, end@, total as nat, start@.len());
    }
    while k < order.len()
        invariant
            k <= order@.len() == n == start@.len(),
            0 < n,
            is_table(start@, end@, total as nat, start@.len()),
            is_chunked(first, start@, end@),
            is_chunked(map@, start@, end@),
            are_writes(writes@, start@, end@),
            is_order(order@, n),
            target == first_edges(first, writes@, start@, end@, total as int),
            forall|c: int|
                0 <= c < n ==> (#[trigger] map@[c])@ == if order@.take(k as int).contains(
                    c as usize,
                ) {
                    seen(first[c]@, writes@[c]@)
                } else {
                    first[c]@
                },
            new_edges@.no_duplicates(),
            forall|id: usize| #[trigger]
                new_edges@.contains(id) <==> target.contains(id) && order@.take(
                    k as int,
                ).contains(owner(start@, end@, id as int) as usize),
            any == exists|c: int| #[trigger]
                chunk_has_news(first, writes@, c) && order@.take(k as int).contains(c as usize),
        decreases order@.len() - k,
    {
        let ci: usize = order[k];
        let ghost c = ci as int;
        let ghost visited = order@.take(k as int);
        let ghost more = order@.take(k + 1);
        let ghost before = map@;
        let ghost edges_before = new_edges@;
        let ghost any_before = any;
        proof {
            assert(0 <= order@[k as int] < n);
            table_shape(start@, end@, total as nat, start@.len());
            assert(more =~= visited.push(ci));
            if visited.contains(ci) {
                let j = choose|j: int| 0 <= j < visited.len() && visited[j] == ci;
                assert(order@[j] == order@[k as int]);
            }
            assert(map@[c]@ == first[c]@);
            assert(first[c]@.len() == end@[c] - start@[c]);
            assert(in_chunk(writes@[c]@, end@[c] - start@[c]));
            assert forall|x: usize| #[trigger] more.contains(x) <==> visited.contains(x) || x
                == ci by {
                if visited.contains(x) {
                    let j = choose|j: int| 0 <= j < visited.len() && visited[j] == x;
                    assert(more[j] == x);
                }
                assert(more[k as int] == ci);
            }
        }
        let (locals, news) = note_chunk(&mut map[ci], &writes[ci]);
        proof {
            assert forall|i: int| 0 <= i < locals@.len() implies start@[c]
                + #[trigger] locals@[i] < end@[c] by {
                assert(locals@.contains(locals@[i]));
            }
        }
        append_shifted(&mut new_edges, &locals, start[ci]);
        if news {
            any = true;
        }
        proof {
            let added = Seq::new(locals@.len(), |i: int| (start@[c] + locals@[i]) as usize);
            assert(new_edges@ == edges_before + added);
            assert forall|id: usize| #[trigger] added.contains(id) <==> target.contains(id)
                && owner(start@, end@, id as int) == c by {
                if added.contains(id) {
                    let i = choose|i: int| 0 <= i < added.len() && added[i] == id;
                    assert(locals@.contains(locals@[i]));
                    owner_is(start@, end@, total as nat, start@.len(), c, id as int);
                    assert(end@[c] <= total);
                }
                if target.contains(id) && owner(start@, end@, id as int) == c {
                    let l = (id - start@[c]) as usize;
                    assert(locals@.contains(l));
                    let i = choose|i: int| 0 <= i < locals@.len() && locals@[i] == l;
                    assert(added[i] == id);
                }
            }
            assert forall|id: usize| target.contains(id) implies 0 <= owner(
                start@,
                end@,
                id as int,
            ) < n by {
                crate::chunks::owner_exists(
                    start@,
                    end@,
                    total as nat,
                    start@.len(),
                    id as int,
                );
            }
            assert forall|id: usize| #[trigger] new_edges@.contains(id) <==> target.contains(id)
                && more.contains(owner(start@, end@, id as int) as usize) by {
                assert(new_edges@.contains(id) <==> edges_before.contains(id) || added.contains(
                    id,
                )) by {
                    if edges_before.contains(id) {
                        let j = choose|j: int| 0 <= j < edges_before.len() && edges_before[j] == id;
                        assert(new_edges@[j] == id);
                    }
                    if added.contains(id) {
                        let j = choose|j: int| 0 <= j < added.len() && added[j] == id;
                        assert(new_edges@[edges_before.len() + j] == id);
                    }
                    if new_edges@.contains(id) {
                        let j = choose|j: int| 0 <= j < new_edges@.len() && new_edges@[j] == id;
                        if j < edges_before.len() {
                            assert(edges_before[j] == id);
                        } else {
                            assert(added[j - edges_before.len()] == id);
                        }
                    }
                }
                assert(edges_before.contains(id) <==> target.contains(id) && visited.contains(
                    owner(start@, end@, id as int) as usize,
                ));
            }
            assert(new_edges@.no_duplicates()) by {
                assert forall|i: int, j: int|
                    0 <= i < j < new_edges@.len() implies new_edges@[i] != new_edges@[j] by {
                    let a = edges_before.len();
                    if i >= a {
                        assert(locals@[i - a] != locals@[j - a]);
                        assert(locals@.contains(locals@[i - a]));
                        assert(locals@.contains(locals@[j - a]));
                    } else if j >= a {
                        assert(edges_before.contains(edges_before[i]));
                        assert(added.contains(added[j - a]));
                    }
                }
            }
            assert(any == exists|x: int| #[trigger]
                chunk_has_news(first, writes@, x) && more.contains(x as usize)) by {
                if any_before {
                    let x = choose|x: int| #[trigger]
                        chunk_has_news(first, writes@, x) && visited.contains(x as usize);
                    assert(chunk_has_news(first, writes@, x) && more.contains(x as usize));
                }
                if news {
                    assert(chunk_has_news(first, writes@, c) && more.contains(c as usize));
                }
            }
            assert forall|x: int| 0 <= x < n implies (#[trigger] map@[x])@ == if more.contains(
                x as usize,
            ) {
                seen(first[x]@, writes@[x]@)
            } else {
                first[x]@
            } by {
                if x != c {
                    assert(map@[x] == before[x]);
                }
            }
            assert forall|x: int| 0 <= x < map@.len() implies #[trigger] map@[x]@.len()
                == end@[x] - start@[x] by {
                if x != c {
                    assert(map@[x] == before[x]);
                }
            }
        }
        k = k + 1;
    }
    proof {
        let all = order@.take(k as int);
        assert(all =~= order@);
        assert forall|c: usize| c < n implies #[trigger] all.contains(c) by {
            order_meets_all(order@, n, c as int);
        }
        assert forall|id: usize| target.contains(id) implies 0 <= owner(
            start@,
            end@,
            id as int,
        ) < n by {
            crate::chunks::owner_exists(start@, end@, total as nat, start@.len(), id as int);
        }
        if map_has_news(first, writes@) {
            let c = choose|c: int| #[trigger] chunk_has_news(first, writes@, c);
            assert(chunk_has_news(first, writes@, c) && all.contains(c as usize));
        }
    }
    (new_edges, any)
}

/// There is an edge in one of the lists.
pub open spec fn any_edge(lists: Seq<Vec<(usize, u8)>>) -> bool {
    exists|c: int| 0 <= c < lists.len() && (#[trigger] lists[c])@.len() > 0
}

/// Picks the edges of every chunk's path whose bucket was not seen yet, and
/// tells whether there are any. The chunks are visited in the given order,
/// which makes no difference to the outcome.
pub fn unseen_in_map(
    map: &Vec<Vec<u8>>,
    path: &Vec<Vec<(usize, u8)>>,
    start: &Vec<usize>,
    end: &Vec<usize>,
    order: &Vec<usize>,
) -> (r: (bool, Vec<Vec<(usize, u8)>>))
    requires
        start@.len() == end@.len(),
        is_chunked(map@, start@, end@),
        are_paths(path@, start@, end@),
        is_order(order@, start@.len() as int),
    ensures
        r.1@.len() == start@.len(),
        forall|c: int|
            0 <= c < start@.len() ==> (#[trigger] r.1@[c])@ == unseen(path@[c]@, map@[c]@),
        are_paths(r.1@, start@, end@),
        r.0 == any_edge(r.1@),
{
    let ghost n = start@.len() as int;
    let mut to_write: Vec<Vec<(usize, u8)>> = Vec::new();
    while to_write.len() < start.len()
        invariant
            to_write@.len() <= start@.len(),
            forall|c: int|
                0 <= c < to_write@.len() ==> (#[trigger] to_write@[c])@ == Seq::<
                    (usize, u8),
                >::empty(),
        decreases start@.len() - to_write@.len(),
    {
        to_write.push(Vec::new());
    }
    let mut write_flag = false;
    let mut k: usize = 0;
    while k < order.len()
        invariant
            k <= order@.len() == n == start@.len() == end@.len(),
            is_chunked(map@, start@, end@),
            are_paths(path@, start@, end@),
            is_order(order@, n),
            to_write@.len() == n,
            forall|c: int|
                0 <= c < n ==> (#[trigger] to_write@[c])@ == if order@.take(k as int).contains(
                    c as usize,
                ) {
                    unseen(path@[c]@, map@[c]@)
                } else {
                    Seq::<(usize, u8)>::empty()
                },
            write_flag == exists|c: int| 0 <= c < n && (#[trigger] to_write@[c])@.len() > 0,
        decreases order@.len() - k,
    {
        let ci: usize = order[k];
        let ghost visited = order@.take(k as int);
        let ghost more = order@.take(k + 1);
        let ghost before = to_write@;
        let ghost flag_before = write_flag;
        proof {
            assert(0 <= order@[k as int] < n);
            assert(more =~= visited.push(ci));
            assert forall|x: usize| #[trigger] more.contains(x) <==> visited.contains(x) || x
                == ci by {
                if visited.contains(x) {
                    let j = choose|j: int| 0 <= j < visited.len() && visited[j] == x;
                    assert(more[j] == x);
                }
                assert(more[k as int] == ci);
            }
            if visited.contains(ci) {
                let j = choose|j: int| 0 <= j < visited.len() && visited[j] == ci;
                assert(order@[j] == order@[k as int]);
            }
            assert(is_path(path@[ci as int]@, end@[ci as int] - start@[ci as int]));
            assert(map@[ci as int]@.len() == end@[ci as int] - start@[ci as int]);
        }
        let part: Vec<(usize, u8)> = unseen_edges(&path[ci], &map[ci]);
        if part.len() > 0 {
            write_flag = true;
        }
        to_write.set(ci, part);
        proof {
            assert(write_flag == exists|c: int|
                0 <= c < n && (#[trigger] to_write@[c])@.len() > 0) by {
                if flag_before {
                    let c = choose|c: int| 0 <= c < n && (#[trigger] before[c])@.len() > 0;
                    assert(to_write@[c] == before[c]);
                }
                if part@.len() > 0 {
                    assert(to_write@[ci as int]@.len() > 0);
                }
                if exists|c: int| 0 <= c < n && (#[trigger] to_write@[c])@.len() > 0 {
                    let c = choose|c: int| 0 <= c < n && (#[trigger] to_write@[c])@.len() > 0;
                    if c != ci {
                        assert(before[c]@.len() > 0);
                    }
                }
            }
            assert forall|c: int| 0 <= c < n implies (#[trigger] to_write@[c])@
                == if more.contains(c as usize) {
                unseen(path@[c]@, map@[c]@)
            } else {
                Seq::<(usize, u8)>::empty()
            } by {
                if c != ci {
                    assert(to_write@[c] == before[c]);
                }
            }
        }
        k = k + 1;
    }
    proof {
        let all = order@.take(k as int);
        assert(all =~= order@);
        assert forall|c: int| 0 <= c < n implies (#[trigger] to_write@[c])@ == unseen(
            path@[c]@,
            map@[c]@,
        ) by {
            order_meets_all(order@, n, c);
        }
        assert(write_flag == any_edge(to_write@));
        assert forall|c: int| 0 <= c < n implies is_path(
            #[trigger] to_write@[c]@,
            end@[c] - start@[c],
        ) by {
            assert(is_path(path@[c]@, end@[c] - start@[c]));
            unseen_is_path(path@[c]@, map@[c]@, end@[c] - start@[c]);
        }
    }
    (write_flag, to_write)
}

/// How many edges are on the paths.
pub fn count_edges(path: &Vec<Vec<(usize, u8)>>) -> (n: usize)
    requires
        edge_count(path@, path@.len() as int) <= usize::MAX,
    ensures
        n == edge_count(path@, path@.len() as int),
{
    let mut n: usize = 0;
    let mut c: usize = 0;
    while c < path.len()
        invariant
            c <= path@.len(),
            n == edge_count(path@, c as int),
            edge_count(path@, path@.len() as int) <= usize::MAX,
        decreases path@.len() - c,
    {
        proof {
            lemma_count_grows(path@, c + 1, path@.len() as int);
        }
        n = n + path[c].len();
        c = c + 1;
    }
    n
}

proof fn lemma_count_grows(paths: Seq<Vec<(usize, u8)>>, i: int, j: int)
    requires
        i <= j,
    ensures
        edge_count(paths, i) <= edge_count(paths, j),
    decreases j - i,
{
    if i < j {
        lemma_count_grows(paths, i, j - 1);
    }
}

proof fn lemma_path_len(path: Seq<(usize, u8)>, len: int)
    requires
        is_path(path, len),
        len >= 0,
    ensures
        path.len() <= len,
        path.len() > 0 ==> path.len() <= path.last().0 + 1,
    decreases path.len(),
{
    if path.len() > 0 {
        lemma_path_len(path.drop_last(), len);
        assert(path[path.len() - 1].0 < len);
        if path.len() > 1 {
            assert(path[path.len() - 2].0 < path[path.len() - 1].0);
        }
    }
}

/// Paths have no more edges than the map has cells.
pub proof fn paths_fit(
    paths: Seq<Vec<(usize, u8)>>,
    start: Seq<usize>,
    end: Seq<usize>,
    total: nat,
    n: int,
)
    requires
        is_table(start, end, total, start.len()),
        are_paths(paths, start, end),
        0 < n <= start.len(),
    ensures
        edge_count(paths, n) <= end[n - 1] <= total,
    decreases n,
{
    table_shape(start, end, total, start.len());
    assert(is_path(paths[n - 1]@, end[n - 1] - start[n - 1]));
    lemma_path_len(paths[n - 1]@, end[n - 1] - start[n - 1]);
    assert(start[n - 1] <= end[n - 1]);
    assert(end[n - 1] <= total);
    assert(edge_count(paths, n) == edge_count(paths, n - 1) + paths[n - 1]@.len());
    if n > 1 {
        paths_fit(paths, start, end, total, n - 1);
        assert(end[n - 2] == start[n - 1]);
    } else {
        assert(edge_count(paths, 0) == 0);
    }
}

proof fn lemma_hits_are_hit(trace: Seq<u8>, base: int, lo: int, hi: int)
    requires
        0 <= base <= lo,
        hi <= usize::MAX,
    ensures
        forall|l: usize, b: u8| #[trigger]
            hits(trace, base, lo, hi).contains((l, b)) <==> lo <= base + l < hi && trace[base + l]
                > 0 && b == edge_bucket(trace[base + l]),
    decreases hi - lo,
{
    if lo < hi {
        lemma_hits_are_hit(trace, base, lo, hi - 1);
        let rest = hits(trace, base, lo, hi - 1);
        let all = hits(trace, base, lo, hi);
        let e = ((hi - 1 - base) as usize, edge_bucket(trace[hi - 1]));
        assert forall|l: usize, b: u8| #[trigger] all.contains((l, b)) <==> lo <= base + l < hi
            && trace[base + l] > 0 && b == edge_bucket(trace[base + l]) by {
            assert(rest.contains((l, b)) <==> lo <= base + l < hi - 1 && trace[base + l] > 0 && b
                == edge_bucket(trace[base + l]));
            if trace[hi - 1] > 0 {
                assert(all == rest.push(e));
                if rest.contains((l, b)) {
                    let i = choose|i: int| 0 <= i < rest.len() && rest[i] == (l, b);
                    assert(all[i] == (l, b));
                }
                assert(all[rest.len() as int] == e);
                if all.contains((l, b)) {
                    let i = choose|i: int| 0 <= i < all.len() && all[i] == (l, b);
                    if i < rest.len() {
                        assert(rest[i] == (l, b));
                    }
                }
            }
        }
    }
}

/// A path shows an edge of its chunk, with the bucket of its hit count, if and
/// only if the run hit it. Bytes behind the last eight of a map are not looked
/// at.
pub proof fn paths_show_what_was_hit(trace: Seq<u8>, lo: int, hi: int, l: usize, b: u8)
    requires
        0 <= lo <= hi <= usize::MAX,
    ensures
        chunk_path(trace, lo, hi).contains((l, b)) <==> lo + l < hi && lo + l < trace.len()
            - trace.len() % 8 && trace[lo + l] > 0 && b == edge_bucket(trace[lo + l]),
{
    let end = if hi < whole_words(trace.len() as int) {
        hi
    } else {
        whole_words(trace.len() as int)
    };
    lemma_hits_are_hit(trace, lo, lo, end);
    assert(whole_words(trace.len() as int) == trace.len() - trace.len() % 8);
    assert(hits(trace, lo, lo, end).contains((l, b)) <==> lo <= lo + l < end && trace[lo + l] > 0
        && b == edge_bucket(trace[lo + l]));
}

/// A list of hits has every edge that was hit, with its count, and no other;
/// the edges rise.
pub proof fn lists_show_what_was_hit(trace: Seq<u8>, hi: int, l: usize, n: u8)
    requires
        0 <= hi <= trace.len() <= usize::MAX,
    ensures
        raw_hits(trace, hi).contains((l, n)) <==> l < hi && n > 0 && trace[l as int] == n,
        forall|i: int, j: int|
            0 <= i < j < raw_hits(trace, hi).len() ==> (#[trigger] raw_hits(trace, hi)[i]).0 < (
            #[trigger] raw_hits(trace, hi)[j]).0,
        forall|i: int|
            0 <= i < raw_hits(trace, hi).len() ==> (#[trigger] raw_hits(trace, hi)[i]).0 < hi,
    decreases hi,
{
    if hi > 0 {
        lists_show_what_was_hit(trace, hi - 1, l, n);
        let rest = raw_hits(trace, hi - 1);
        let all = raw_hits(trace, hi);
        let e = ((hi - 1) as usize, trace[hi - 1]);
        if trace[hi - 1] > 0 {
            assert(all == rest.push(e));
            if rest.contains((l, n)) {
                let i = choose|i: int| 0 <= i < rest.len() && rest[i] == (l, n);
                assert(all[i] == (l, n));
            }
            assert(all[rest.len() as int] == e);
            if all.contains((l, n)) {
                let i = choose|i: int| 0 <= i < all.len() && all[i] == (l, n);
                if i < rest.len() {
                    assert(rest[i] == (l, n));
                }
            }
        }
    }
}

/// An edge of a path is new if and only if one of its bits is still set in the
/// map of what was not seen.
pub proof fn new_edges_have_bits_left(path: Seq<(usize, u8)>, cells: Seq<u8>, e: (usize, u8))
    ensures
        unseen(path, cells).contains(e) <==> path.contains(e) && e.1 & cells[e.0 as int] != 0,
    decreases path.len(),
{
    if path.len() > 0 {
        let p = path.drop_last();
        let w = path.last();
        new_edges_have_bits_left(p, cells, e);
        let rest = unseen(p, cells);
        let all = unseen(path, cells);
        assert(path.contains(e) <==> p.contains(e) || e == w) by {
            if p.contains(e) {
                let i = choose|i: int| 0 <= i < p.len() && p[i] == e;
                assert(path[i] == e);
            }
            assert(path[path.len() - 1] == w);
            if path.contains(e) {
                let i = choose|i: int| 0 <= i < path.len() && path[i] == e;
                if i < p.len() {
                    assert(p[i] == e);
                }
            }
        }
        if w.1 & cells[w.0 as int] > 0 {
            assert(all == rest.push(w));
            if rest.contains(e) {
                let i = choose|i: int| 0 <= i < rest.len() && rest[i] == e;
                assert(all[i] == e);
            }
            assert(all[rest.len() as int] == w);
            if all.contains(e) {
                let i = choose|i: int| 0 <= i < all.len() && all[i] == e;
                if i < rest.len() {
                    assert(rest[i] == e);
                }
            }
        }
    }
}

/// Noting a run takes the bits of its buckets out of the cells of its edges,
/// and no other bit out of any cell.
pub proof fn noting_takes_out_what_was_hit(
    cells: Seq<u8>,
    writes: Seq<(usize, u8)>,
    l: int,
    mask: u8,
)
    requires
        in_chunk(writes, cells.len() as int),
        0 <= l < cells.len(),
    ensures
        (forall|i: int|
            0 <= i < writes.len() && (#[trigger] writes[i]).0 == l ==> writes[i].1 & mask == 0)
            ==> seen(cells, writes)[l] & mask == cells[l] & mask,
        (exists|i: int|
            0 <= i < writes.len() && (#[trigger] writes[i]).0 == l && writes[i].1 & mask == mask)
            ==> seen(cells, writes)[l] & mask == 0,
    decreases writes.len(),
{
    if writes.len() > 0 {
        let d = writes.drop_last();
        let w = writes.last();
        assert(writes[writes.len() - 1] == w);
        assert forall|i: int| 0 <= i < d.len() implies (#[trigger] d[i]).0 < cells.len() by {
            assert(writes[i] == d[i]);
        }
        seen_keeps_len(cells, d);
        noting_takes_out_what_was_hit(cells, d, l, mask);
        let c = seen(cells, d)[l];
        let b = w.1;
        assert(b & mask == 0 ==> (c & !b) & mask == c & mask) by (bit_vector);
        assert(b & mask == mask ==> (c & !b) & mask == 0) by (bit_vector);
        assert(c & mask == 0 ==> (c & !b) & mask == 0) by (bit_vector);
        if forall|i: int|
            0 <= i < writes.len() && (#[trigger] writes[i]).0 == l ==> writes[i].1 & mask == 0 {
            assert forall|i: int| 0 <= i < d.len() && (#[trigger] d[i]).0 == l implies d[i].1 & mask
                == 0 by {
                assert(writes[i] == d[i]);
            }
        }
        if exists|i: int|
            0 <= i < writes.len() && (#[trigger] writes[i]).0 == l && writes[i].1 & mask == mask {
            let i = choose|i: int|
                0 <= i < writes.len() && (#[trigger] writes[i]).0 == l && writes[i].1 & mask
                    == mask;
            if i < d.len() {
                assert(d[i] == writes[i]);
            }
        }
    }
}

} // verus!

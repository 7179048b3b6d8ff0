//! Telling edges that a run shows only now and then.

use super::paths::{is_path, unseen};
use vstd::prelude::*;

verus! {

/// The bucket of edge `l` on a path; zero if the edge is not on it.
pub open spec fn bucket_at(path: Seq<(usize, u8)>, l: usize) -> u8
    decreases path.len(),
{
    if path.len() == 0 {
        0
    } else if path.last().0 == l {
        path.last().1
    } else {
        bucket_at(path.drop_last(), l)
    }
}

/// The two runs differ at edge `l`.
pub open spec fn varies(first: Seq<(usize, u8)>, second: Seq<(usize, u8)>, l: usize) -> bool {
    bucket_at(first, l) != bucket_at(second, l)
}

/// The bucket of edge `l` after two runs: all bits where they differ.
pub open spec fn merged(first: Seq<(usize, u8)>, second: Seq<(usize, u8)>, l: usize) -> u8 {
    if varies(first, second, l) {
        0xff
    } else {
        bucket_at(first, l)
    }
}

/// The bucket to note for edge `l` after two runs: all bits where they
/// differ, if the edge was to be noted or is new in the second run.
pub open spec fn merged_write(
    first: Seq<(usize, u8)>,
    second: Seq<(usize, u8)>,
    writes: Seq<(usize, u8)>,
    l: usize,
) -> u8 {
    if varies(first, second, l) && (bucket_at(writes, l) != 0 || bucket_at(first, l) == 0) {
        0xff
    } else {
        bucket_at(writes, l)
    }
}

/// Every edge of `part` is on `path`.
pub open spec fn lies_on(part: Seq<(usize, u8)>, path: Seq<(usize, u8)>) -> bool {
    forall|l: usize| #[trigger] bucket_at(part, l) != 0 ==> bucket_at(path, l) != 0
}

/// What was not seen yet of a run lies on its path.
pub proof fn unseen_lies_on_path(path: Seq<(usize, u8)>, cells: Seq<u8>, len: int)
    requires
        is_path(path, len),
    ensures
        lies_on(unseen(path, cells), path),
    decreases path.len(),
{
    if path.len() > 0 {
        let p = path.drop_last();
        let e = path.last();
        unseen_lies_on_path(p, cells, len);
        let rest = unseen(p, cells);
        assert forall|l: usize| #[trigger] bucket_at(unseen(path, cells), l) != 0 implies bucket_at(
            path,
            l,
        ) != 0 by {
            assert(rest.push(e).drop_last() =~= rest);
            if e.0 != l {
                assert(bucket_at(rest, l) != 0);
            }
        }
    }
}

pub(crate) proof fn lemma_at(path: Seq<(usize, u8)>, len: int, i: int)
    requires
        is_path(path, len),
        0 <= i < path.len(),
    ensures
        bucket_at(path, path[i].0) == path[i].1,
        path[i].1 != 0,
    decreases path.len(),
{
    if i < path.len() - 1 {
        assert(path[i].0 < path[path.len() - 1].0);
        lemma_at(path.drop_last(), len, i);
    }
}

proof fn lemma_absent(path: Seq<(usize, u8)>, l: usize)
    requires
        forall|i: int| 0 <= i < path.len() ==> (#[trigger] path[i]).0 != l,
    ensures
        bucket_at(path, l) == 0,
    decreases path.len(),
{
    if path.len() > 0 {
        lemma_absent(path.drop_last(), l);
    }
}

/// A path is known by its buckets: two paths with the same bucket at every
/// edge are one.
pub proof fn buckets_tell_paths(p: Seq<(usize, u8)>, q: Seq<(usize, u8)>, len: int)
    requires
        is_path(p, len),
        is_path(q, len),
        forall|l: usize| bucket_at(p, l) == bucket_at(q, l),
    ensures
        p == q,
    decreases p.len(),
{
    if p.len() == 0 {
        if q.len() > 0 {
            lemma_at(q, len, q.len() - 1);
            assert(bucket_at(p, q.last().0) == 0);
        }
        assert(p =~= q);
    } else {
        lemma_at(p, len, p.len() - 1);
        if q.len() == 0 {
            assert(bucket_at(q, p.last().0) == 0);
        } else {
            lemma_at(q, len, q.len() - 1);
            let a = p.last().0;
            let b = q.last().0;
            if a < b {
                assert(bucket_at(p, b) == 0) by {
                    assert forall|i: int| 0 <= i < p.len() implies (#[trigger] p[i]).0 != b by {
                        if i < p.len() - 1 {
                            assert(p[i].0 < p[p.len() - 1].0);
                        }
                    }
                    lemma_absent(p, b);
                }
            } else if b < a {
                assert(bucket_at(q, a) == 0) by {
                    assert forall|i: int| 0 <= i < q.len() implies (#[trigger] q[i]).0 != a by {
                        if i < q.len() - 1 {
                            assert(q[i].0 < q[q.len() - 1].0);
                        }
                    }
                    lemma_absent(q, a);
                }
            }
            assert(p.last() == q.last());
            let pd = p.drop_last();
            let qd = q.drop_last();
            assert forall|l: usize| bucket_at(pd, l) == bucket_at(qd, l) by {
                assert(bucket_at(p, l) == bucket_at(q, l));
                if l == a {
                    assert forall|i: int| 0 <= i < pd.len() implies (#[trigger] pd[i]).0 != a by {
                        assert(p[i].0 < p[p.len() - 1].0);
                    }
                    assert forall|i: int| 0 <= i < qd.len() implies (#[trigger] qd[i]).0 != a by {
                        assert(q[i].0 < q[q.len() - 1].0);
                    }
                    lemma_absent(pd, a);
                    lemma_absent(qd, a);
                }
            }
            buckets_tell_paths(pd, qd, len);
            assert(p =~= pd.push(p.last()));
            assert(q =~= qd.push(q.last()));
        }
    }
}

/// The entries of `path` before `i` lie below `bound`, the others do not.
pub open spec fn cut_at(path: Seq<(usize, u8)>, i: int, bound: int) -> bool {
    &&& 0 <= i <= path.len()
    &&& forall|k: int| 0 <= k < i ==> (#[trigger] path[k]).0 < bound
    &&& forall|k: int| i <= k < path.len() ==> (#[trigger] path[k]).0 >= bound
}

pub(crate) proof fn lemma_head(path: Seq<(usize, u8)>, len: int, i: int, bound: int, l: usize)
    requires
        is_path(path, len),
        cut_at(path, i, bound),
        bound <= l,
        i < path.len() ==> l <= path[i].0,
    ensures
        bucket_at(path, l) == if i < path.len() && path[i].0 == l {
            path[i].1
        } else {
            0
        },
        cut_at(
            path,
            if i < path.len() && path[i].0 == l {
                i + 1
            } else {
                i
            },
            l + 1,
        ),
        forall|x: usize| bound <= x < l ==> #[trigger] bucket_at(path, x) == 0,
{
    if i < path.len() && path[i].0 == l {
        lemma_at(path, len, i);
    } else {
        assert forall|k: int| 0 <= k < path.len() implies (#[trigger] path[k]).0 != l by {
            if k > i {
                assert(path[i].0 < path[k].0);
            }
        }
        lemma_absent(path, l);
    }
    assert forall|k: int| i < k < path.len() implies (#[trigger] path[k]).0 >= l + 1 by {
        assert(path[i].0 < path[k].0);
    }
    assert forall|x: usize| bound <= x < l implies #[trigger] bucket_at(path, x) == 0 by {
        assert forall|k: int| 0 <= k < path.len() implies (#[trigger] path[k]).0 != x by {
            if k > i {
                assert(path[i].0 < path[k].0);
            }
        }
        lemma_absent(path, x);
    }
}

/// Compares a second run of an input with the first, in one chunk.
pub(crate) fn calibrate_chunk(
    first: &Vec<(usize, u8)>,
    writes: &Vec<(usize, u8)>,
    second: &Vec<(usize, u8)>,
    Ghost(len): Ghost<int>,
) -> (r: (Vec<(usize, u8)>, Vec<(usize, u8)>, bool))
    requires
        is_path(first@, len),
        is_path(writes@, len),
        is_path(second@, len),
        lies_on(writes@, first@),
    ensures
        is_path(r.0@, len),
        is_path(r.1@, len),
        forall|l: usize| #[trigger] bucket_at(r.0@, l) == merged(first@, second@, l),
        forall|l: usize| #[trigger]
            bucket_at(r.1@, l) == merged_write(first@, second@, writes@, l),
        r.2 == exists|l: usize| #[trigger] varies(first@, second@, l),
{
    let mut path_out: Vec<(usize, u8)> = Vec::new();
    let mut write_out: Vec<(usize, u8)> = Vec::new();
    let mut is_variable = false;
    let mut i: usize = 0;
    let mut j: usize = 0;
    let mut k: usize = 0;
    let ghost mut bound: int = 0;
    while i < first.len() || j < second.len()
        invariant
            is_path(first@, len),
            is_path(writes@, len),
            is_path(second@, len),
            lies_on(writes@, first@),
            cut_at(first@, i as int, bound),
            cut_at(second@, j as int, bound),
            cut_at(writes@, k as int, bound),
            bound <= usize::MAX + 1,
            is_path(path_out@, len),
            is_path(write_out@, len),
            cut_at(path_out@, path_out@.len() as int, bound),
            cut_at(write_out@, write_out@.len() as int, bound),
            forall|l: usize| #[trigger]
                bucket_at(path_out@, l) == if l < bound {
                    merged(first@, second@, l)
                } else {
                    0
                },
            forall|l: usize| #[trigger]
                bucket_at(write_out@, l) == if l < bound {
                    merged_write(first@, second@, writes@, l)
                } else {
                    0
                },
            is_variable == exists|l: usize| l < bound && #[trigger] varies(first@, second@, l),
        decreases first@.len() - i + second@.len() - j,
    {
        let l: usize = if i >= first.len() {
            second[j].0
        } else if j >= second.len() {
            first[i].0
        } else if first[i].0 < second[j].0 {
            first[i].0
        } else {
            second[j].0
        };
        proof {
            lemma_head(first@, len, i as int, bound, l);
            lemma_head(second@, len, j as int, bound, l);
            if k < writes@.len() && writes@[k as int].0 < l {
                lemma_at(writes@, len, k as int);
                assert(bucket_at(first@, writes@[k as int].0) != 0);
            }
            lemma_head(writes@, len, k as int, bound, l);
            if i < first@.len() && first@[i as int].0 == l {
                assert(first@[i as int].0 < len);
            } else {
                assert(second@[j as int].0 < len);
            }
        }
        let mut b1: u8 = 0;
        if i < first.len() && first[i].0 == l {
            b1 = first[i].1;
            i = i + 1;
        }
        let mut b2: u8 = 0;
        if j < second.len() && second[j].0 == l {
            b2 = second[j].1;
            j = j + 1;
        }
        let mut b3: u8 = 0;
        if k < writes.len() && writes[k].0 == l {
            b3 = writes[k].1;
            k = k + 1;
        }
        let ghost p = path_out@;
        let ghost w = write_out@;
        let ghost v = is_variable;
        if b1 == b2 {
            path_out.push((l, b1));
            if b3 != 0 {
                write_out.push((l, b3));
            }
        } else {
            is_variable = true;
            path_out.push((l, 0xff));
            if b3 != 0 || b1 == 0 {
                write_out.push((l, 0xff));
            }
        }
        proof {
            assert(varies(first@, second@, l) == (b1 != b2));
            assert(path_out@.drop_last() =~= p);
            if write_out@.len() > w.len() {
                assert(write_out@.drop_last() =~= w);
            }
            assert forall|x: usize| #[trigger]
                bucket_at(path_out@, x) == if x < l + 1 {
                    merged(first@, second@, x)
                } else {
                    0
                } by {
                assert(bucket_at(p, x) == if x < bound {
                    merged(first@, second@, x)
                } else {
                    0
                });
                if bound <= x < l {
                    assert(bucket_at(first@, x) == 0);
                    assert(bucket_at(second@, x) == 0);
                }
            }
            assert forall|x: usize| #[trigger]
                bucket_at(write_out@, x) == if x < l + 1 {
                    merged_write(first@, second@, writes@, x)
                } else {
                    0
                } by {
                assert(bucket_at(w, x) == if x < bound {
                    merged_write(first@, second@, writes@, x)
                } else {
                    0
                });
                if bound <= x < l {
                    assert(bucket_at(first@, x) == 0);
                    assert(bucket_at(second@, x) == 0);
                    assert(bucket_at(writes@, x) == 0);
                }
            }
            assert(is_variable == exists|x: usize| x < l + 1 && #[trigger] varies(
                first@,
                second@,
                x,
            )) by {
                if v {
                    let x = choose|x: usize| x < bound && #[trigger] varies(first@, second@, x);
                    assert(x < l + 1 && varies(first@, second@, x));
                }
                if exists|x: usize| x < l + 1 && #[trigger] varies(first@, second@, x) {
                    let x = choose|x: usize| x < l + 1 && #[trigger] varies(first@, second@, x);
                    if x < bound {
                        assert(v);
                    } else if x < l {
                        assert(bucket_at(first@, x) == 0);
                        assert(bucket_at(second@, x) == 0);
                    }
                }
            }
            bound = l + 1;
        }
    }
    proof {
        assert forall|l: usize| l >= bound implies bucket_at(first@, l) == 0 && bucket_at(
            second@,
            l,
        ) == 0 && bucket_at(writes@, l) == 0 by {
            lemma_absent(first@, l);
            lemma_absent(second@, l);
            if bucket_at(writes@, l) != 0 {
                assert(bucket_at(first@, l) != 0);
            }
        }
        if exists|l: usize| #[trigger] varies(first@, second@, l) {
            let l = choose|l: usize| #[trigger] varies(first@, second@, l);
            assert(l < bound);
        }
        assert forall|l: usize| #[trigger] bucket_at(path_out@, l) == merged(
            first@,
            second@,
            l,
        ) by {
            if l >= bound {
                assert(bucket_at(first@, l) == 0 && bucket_at(second@, l) == 0);
            }
        }
        assert forall|l: usize| #[trigger] bucket_at(write_out@, l) == merged_write(
            first@,
            second@,
            writes@,
            l,
        ) by {
            if l >= bound {
                assert(bucket_at(first@, l) == 0 && bucket_at(second@, l) == 0);
            }
        }
    }
    (path_out, write_out, is_variable)
}

/// Edges that two runs show alike keep their bucket; edges that only one of
/// them shows, or that they show differently, are marked with all bits; and
/// there are no others. Of what is to be noted, the marked edges are those
/// that were to be noted before, or that the first run did not show.
pub proof fn varying_edges_are_marked(
    first: Seq<(usize, u8)>,
    second: Seq<(usize, u8)>,
    writes: Seq<(usize, u8)>,
    len: int,
    l: usize,
    b: u8,
    c: u8,
)
    requires
        is_path(first, len),
        is_path(second, len),
        is_path(writes, len),
    ensures
        first.contains((l, b)) && second.contains((l, b)) ==> merged(first, second, l) == b
            && merged_write(first, second, writes, l) == bucket_at(writes, l),
        first.contains((l, b)) && second.contains((l, c)) && b != c ==> merged(first, second, l)
            == 255,
        first.contains((l, b)) && is_missing(second, l) ==> merged(first, second, l) == 255,
        is_missing(first, l) && second.contains((l, c)) ==> merged(first, second, l) == 255
            && merged_write(first, second, writes, l) == 255,
        is_missing(first, l) && is_missing(second, l) ==> merged(first, second, l) == 0,
        first.contains((l, b)) && !second.contains((l, b)) && is_missing(writes, l)
            ==> merged_write(first, second, writes, l) == 0,
        first.contains((l, b)) && !second.contains((l, b)) && writes.contains((l, c))
            ==> merged_write(first, second, writes, l) == 255,
        writes.contains((l, c)) ==> bucket_at(writes, l) == c,
{
    lemma_bucket_is(first, len, l, b);
    lemma_bucket_is(second, len, l, b);
    lemma_bucket_is(second, len, l, c);
    lemma_bucket_is(writes, len, l, c);
    lemma_bucket_is(first, len, l, c);
}

/// The edge is not on the path.
pub open spec fn is_missing(path: Seq<(usize, u8)>, l: usize) -> bool {
    forall|i: int| 0 <= i < path.len() ==> (#[trigger] path[i]).0 != l
}

proof fn lemma_bucket_is(path: Seq<(usize, u8)>, len: int, l: usize, b: u8)
    requires
        is_path(path, len),
    ensures
        path.contains((l, b)) ==> bucket_at(path, l) == b && b != 0,
        !path.contains((l, b)) && b != 0 ==> bucket_at(path, l) != b,
        is_missing(path, l) ==> bucket_at(path, l) == 0,
    decreases path.len(),
{
    if path.contains((l, b)) {
        let i = choose|i: int| 0 <= i < path.len() && path[i] == (l, b);
        lemma_at(path, len, i);
    }
    if is_missing(path, l) {
        lemma_absent(path, l);
    }
    if bucket_at(path, l) == b && b != 0 {
        if path.last().0 == l {
            assert(path[path.len() - 1] == (l, b));
        } else {
            let rest = path.drop_last();
            assert(is_path(rest, len)) by {
                assert forall|i: int| 0 <= i < rest.len() implies (#[trigger] rest[i]).0 < len
                    && rest[i].1 != 0 by {
                    assert(path[i] == rest[i]);
                }
                assert forall|i: int, j: int| 0 <= i < j < rest.len() implies (
                #[trigger] rest[i]).0 < (#[trigger] rest[j]).0 by {
                    assert(path[i] == rest[i] && path[j] == rest[j]);
                }
            }
            lemma_bucket_is(rest, len, l, b);
            let i = choose|i: int| 0 <= i < rest.len() && rest[i] == (l, b);
            assert(path[i] == (l, b));
        }
    }
}

} // verus!

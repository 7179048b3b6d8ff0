//! Branches that are covered: all edges behind them were seen.

use super::global::{edges_of, is_covered};
use crate::chunks::{chunk_of, is_chunked, is_table, table_shape};
use crate::mutate_func::BranchMutateInfo;
use std::collections::HashMap;
use vstd::prelude::*;

verus! {

broadcast use vstd::std_specs::hash::group_hash_axioms;

proof fn lemma_set_bit(x: u8, i: u8, j: u8)
    by (bit_vector)
    requires
        i < 8,
        j < 8,
    ensures
        ((x | (1u8 << i)) >> j) & 1 == 1 <==> i == j || (x >> j) & 1 == 1,
        x & (1u8 << i) != 0 <==> (x >> i) & 1 == 1,
{
}

/// Sets the bits of the branches of `list`. Returns those whose bit was not
/// set before.
pub fn cover(map: &mut Vec<u8>, list: &Vec<usize>) -> (newly: Vec<usize>)
    requires
        forall|i: int| 0 <= i < list@.len() ==> (#[trigger] list@[i]) / 8 < old(map)@.len(),
    ensures
        final(map)@.len() == old(map)@.len(),
        forall|b: usize|
            b < 8 * old(map)@.len() ==> (#[trigger] is_covered(final(map)@, b as int)
                <==> is_covered(old(map)@, b as int) || list@.contains(b)),
        newly@.no_duplicates(),
        forall|b: usize| #[trigger]
            newly@.contains(b) <==> list@.contains(b) && !is_covered(old(map)@, b as int),
        newly@.len() <= list@.len(),
{
    let ghost first = map@;
    let mut newly: Vec<usize> = Vec::new();
    let mut i: usize = 0;
    assert(list@.take(0) =~= Seq::empty());
    while i < list.len()
        invariant
            i <= list@.len(),
            newly@.len() <= i,
            map@.len() == first.len(),
            forall|k: int| 0 <= k < list@.len() ==> (#[trigger] list@[k]) / 8 < first.len(),
            forall|b: usize|
                b < 8 * first.len() ==> (#[trigger] is_covered(map@, b as int) <==> is_covered(
                    first,
                    b as int,
                ) || list@.take(i as int).contains(b)),
            newly@.no_duplicates(),
            forall|b: usize| #[trigger]
                newly@.contains(b) <==> list@.take(i as int).contains(b) && !is_covered(
                    first,
                    b as int,
                ),
        decreases list@.len() - i,
    {
        let branch: usize = list[i];
        let ghost prefix = list@.take(i as int);
        let ghost more = list@.take(i + 1);
        let ghost map1 = map@;
        let ghost newly1 = newly@;
        proof {
            assert(list@[i as int] / 8 < first.len());
            assert(more =~= prefix.push(branch));
            assert forall|x: usize| #[trigger] more.contains(x) <==> prefix.contains(x) || x
                == branch by {
                if prefix.contains(x) {
                    let j = choose|j: int| 0 <= j < prefix.len() && prefix[j] == x;
                    assert(more[j] == x);
                }
                assert(more[i as int] == branch);
            }
            assert(is_covered(map@, branch as int) <==> is_covered(first, branch as int)
                || prefix.contains(branch));
        }
        let byte: u8 = map[branch / 8];
        let bit: u8 = (branch % 8) as u8;
        proof {
            lemma_set_bit(byte, bit, bit);
        }
        if byte & (1u8 << bit) == 0 {
            map.set(branch / 8, byte | (1u8 << bit));
            newly.push(branch);
        }
        proof {
            if newly@.len() > newly1.len() {
                assert(!newly1.contains(branch));
            }
            assert forall|b: usize| b < 8 * first.len() implies (#[trigger] is_covered(
                map@,
                b as int,
            ) <==> is_covered(first, b as int) || more.contains(b)) by {
                assert(is_covered(map1, b as int) <==> is_covered(first, b as int)
                    || prefix.contains(b));
                if b / 8 == branch / 8 {
                    lemma_set_bit(byte, bit, (b % 8) as u8);
                }
            }
            assert forall|b: usize| #[trigger] newly@.contains(b) <==> more.contains(b)
                && !is_covered(first, b as int) by {
                assert(newly1.contains(b) <==> prefix.contains(b) && !is_covered(first, b as int));
                if newly1.contains(b) {
                    let j = choose|j: int| 0 <= j < newly1.len() && newly1[j] == b;
                    assert(newly@[j] == b);
                }
                if newly@.len() > newly1.len() {
                    assert(newly@[newly1.len() as int] == branch);
                }
            }
        }
        i = i + 1;
    }
    assert(list@.take(i as int) =~= list@);
    newly
}

/// The edges of `s` that are not gone.
pub open spec fn rest(s: Seq<usize>, gone: Set<usize>) -> Seq<usize>
    decreases s.len(),
{
    if s.len() == 0 {
        s
    } else {
        let r = rest(s.drop_last(), gone);
        if gone.contains(s.last()) {
            r
        } else {
            r.push(s.last())
        }
    }
}

pub(crate) proof fn lemma_rest_contains(s: Seq<usize>, gone: Set<usize>)
    ensures
        forall|x: usize| #[trigger]
            rest(s, gone).contains(x) <==> s.contains(x) && !gone.contains(x),
        rest(s, gone).len() <= s.len(),
        s.no_duplicates() ==> rest(s, gone).no_duplicates(),
        s.no_duplicates() && (exists|x: usize| s.contains(x) && gone.contains(x)) ==> rest(
            s,
            gone,
        ).len() < s.len(),
    decreases s.len(),
{
    if s.len() > 0 {
        let d = s.drop_last();
        lemma_rest_contains(d, gone);
        let r = rest(d, gone);
        assert(d.push(s.last()) =~= s);
        assert forall|x: usize| #[trigger] s.contains(x) <==> d.contains(x) || x == s.last() by {
            if d.contains(x) {
                let i = choose|i: int| 0 <= i < d.len() && d[i] == x;
                assert(s[i] == x);
            }
            if s.contains(x) {
                let i = choose|i: int| 0 <= i < s.len() && s[i] == x;
                if i < d.len() {
                    assert(d[i] == x);
                }
            }
            assert(s[s.len() - 1] == s.last());
        }
        assert forall|x: usize| #[trigger] rest(s, gone).contains(x) <==> s.contains(x)
            && !gone.contains(x) by {
            assert(r.contains(x) <==> d.contains(x) && !gone.contains(x));
            if !gone.contains(s.last()) {
                let p = r.push(s.last());
                assert(p.contains(x) <==> r.contains(x) || x == s.last()) by {
                    if r.contains(x) {
                        let i = choose|i: int| 0 <= i < r.len() && r[i] == x;
                        assert(p[i] == x);
                    }
                    assert(p[r.len() as int] == s.last());
                }
            }
        }
        if s.no_duplicates() {
            if !gone.contains(s.last()) {
                if r.contains(s.last()) {
                    assert(d.contains(s.last()));
                    let i = choose|i: int| 0 <= i < d.len() && d[i] == s.last();
                    assert(s[i] == s[s.len() - 1]);
                }
            }
            if exists|x: usize| s.contains(x) && gone.contains(x) {
                let x = choose|x: usize| s.contains(x) && gone.contains(x);
                if !gone.contains(s.last()) {
                    assert(d.contains(x) && gone.contains(x));
                }
            }
        }
    }
}

proof fn lemma_rest_twice(s: Seq<usize>, gone: Set<usize>, e: usize)
    ensures
        rest(rest(s, gone), set![e]) == rest(s, gone.insert(e)),
    decreases s.len(),
{
    if s.len() > 0 {
        lemma_rest_twice(s.drop_last(), gone, e);
        let r = rest(s.drop_last(), gone);
        if !gone.contains(s.last()) {
            assert(r.push(s.last()).drop_last() =~= r);
        }
    }
}

proof fn lemma_rest_none(s: Seq<usize>, gone: Set<usize>)
    requires
        forall|i: int| 0 <= i < s.len() ==> !gone.contains(#[trigger] s[i]),
    ensures
        rest(s, gone) == s,
    decreases s.len(),
{
    if s.len() > 0 {
        lemma_rest_none(s.drop_last(), gone);
        assert(s.drop_last().push(s.last()) =~= s);
    }
}

/// Takes edge `e` out of a boundary.
fn retain_others(list: &Vec<usize>, e: usize) -> (r: Vec<usize>)
    ensures
        r@ == rest(list@, set![e]),
{
    let mut r: Vec<usize> = Vec::new();
    let mut i: usize = 0;
    assert(list@.take(0) =~= Seq::empty());
    while i < list.len()
        invariant
            i <= list@.len(),
            r@ == rest(list@.take(i as int), set![e]),
        decreases list@.len() - i,
    {
        assert(list@.take(i + 1).drop_last() =~= list@.take(i as int));
        if list[i] != e {
            r.push(list[i]);
        }
        i = i + 1;
    }
    assert(list@.take(i as int) =~= list@);
    r
}

/// The boundary of branch `b` once the edges of `gone` were seen.
pub open spec fn boundary_after(
    bb: Seq<Vec<usize>>,
    dict: Map<usize, usize>,
    gone: Set<usize>,
    b: int,
) -> Seq<usize> {
    if exists|e: usize| gone.contains(e) && edges_of(dict, b as usize).contains(e) {
        rest(bb[b]@, gone)
    } else {
        bb[b]@
    }
}

/// Branch `b` is covered by the edges of `gone`: one is behind it, and no
/// other is missing.
pub open spec fn is_cleared(
    bb: Seq<Vec<usize>>,
    dict: Map<usize, usize>,
    gone: Set<usize>,
    b: usize,
) -> bool {
    &&& b < bb.len()
    &&& exists|e: usize| gone.contains(e) && edges_of(dict, b).contains(e)
    &&& rest(bb[b as int]@, gone).len() == 0
}

/// A boundary that can lose edges: it has at most two, each once, and all of
/// them behind the branch if there are any.
pub open spec fn can_shrink(bb: Seq<Vec<usize>>, dict: Map<usize, usize>, b: int) -> bool {
    &&& bb[b]@.no_duplicates()
    &&& bb[b]@.len() <= 2
    &&& edges_of(dict, b as usize) == Set::<usize>::empty() || (forall|i: int|
        0 <= i < bb[b]@.len() ==> edges_of(dict, b as usize).contains(#[trigger] bb[b]@[i]))
}

proof fn lemma_rest_same(s: Seq<usize>, gone: Set<usize>, e: usize)
    requires
        forall|i: int| 0 <= i < s.len() ==> #[trigger] s[i] != e,
    ensures
        rest(s, gone.insert(e)) == rest(s, gone),
    decreases s.len(),
{
    if s.len() > 0 {
        assert(s[s.len() - 1] != e);
        assert forall|i: int| 0 <= i < s.drop_last().len() implies #[trigger] s.drop_last()[i]
            != e by {
            assert(s[i] != e);
        }
        lemma_rest_same(s.drop_last(), gone, e);
    }
}

/// An edge that is not behind branch `b` does not change its boundary.
proof fn lemma_other(
    bb: Seq<Vec<usize>>,
    dict: Map<usize, usize>,
    gone: Set<usize>,
    edge: usize,
    b: int,
)
    requires
        0 <= b < bb.len() <= usize::MAX,
        can_shrink(bb, dict, b),
        !edges_of(dict, b as usize).contains(edge),
    ensures
        boundary_after(bb, dict, gone.insert(edge), b) == boundary_after(bb, dict, gone, b),
        is_cleared(bb, dict, gone.insert(edge), b as usize) == is_cleared(
            bb,
            dict,
            gone,
            b as usize,
        ),
{
    let next = gone.insert(edge);
    if exists|e: usize| next.contains(e) && edges_of(dict, b as usize).contains(e) {
        let e = choose|e: usize| next.contains(e) && edges_of(dict, b as usize).contains(e);
        assert(gone.contains(e) && edges_of(dict, b as usize).contains(e));
    }
    if exists|e: usize| gone.contains(e) && edges_of(dict, b as usize).contains(e) {
        let e = choose|e: usize| gone.contains(e) && edges_of(dict, b as usize).contains(e);
        assert(next.contains(e) && edges_of(dict, b as usize).contains(e));
        assert forall|i: int| 0 <= i < bb[b]@.len() implies #[trigger] bb[b]@[i] != edge by {
            assert(edges_of(dict, b as usize).contains(bb[b]@[i]));
        }
        lemma_rest_same(bb[b]@, gone, edge);
    }
}

/// A branch that loses an edge was not covered before.
proof fn lemma_step(
    bb: Seq<Vec<usize>>,
    dict: Map<usize, usize>,
    gone: Set<usize>,
    edge: usize,
    b: usize,
)
    requires
        b < bb.len(),
        can_shrink(bb, dict, b as int),
        edges_of(dict, b).contains(edge),
        bb[b as int]@.contains(edge),
        !gone.contains(edge),
    ensures
        rest(boundary_after(bb, dict, gone, b as int), set![edge]) == boundary_after(
            bb,
            dict,
            gone.insert(edge),
            b as int,
        ),
        !is_cleared(bb, dict, gone, b),
        is_cleared(bb, dict, gone.insert(edge), b) <==> boundary_after(
            bb,
            dict,
            gone.insert(edge),
            b as int,
        ).len() == 0,
{
    let s = bb[b as int]@;
    let next = gone.insert(edge);
    lemma_rest_contains(s, gone);
    lemma_rest_twice(s, gone, edge);
    assert(next.contains(edge) && edges_of(dict, b).contains(edge));
    assert(rest(s, gone).contains(edge));
    if !(exists|e: usize| gone.contains(e) && edges_of(dict, b).contains(e)) {
        assert forall|i: int| 0 <= i < s.len() implies !gone.contains(#[trigger] s[i]) by {
            assert(edges_of(dict, b).contains(s[i]));
        }
        lemma_rest_none(s, gone);
    }
}

/// Takes edges that were seen for the first time out of the boundaries of
/// their branches. Returns the branches that are covered by this.
#[verifier::rlimit(40)]
pub fn reduce_boundaries(
    bb: &mut Vec<Vec<usize>>,
    dict: &HashMap<usize, usize>,
    new_edges: &Vec<usize>,
) -> (covered: Vec<usize>)
    requires
        new_edges@.no_duplicates(),
        forall|e: usize| #[trigger]
            dict@.contains_key(e) && new_edges@.contains(e) ==> dict@[e] < old(bb)@.len() && old(
                bb,
            )@[dict@[e] as int]@.contains(e),
        forall|b: int| 0 <= b < old(bb)@.len() ==> #[trigger] can_shrink(old(bb)@, dict@, b),
        old(bb)@.len() <= usize::MAX,
    ensures
        final(bb)@.len() == old(bb)@.len(),
        forall|b: int|
            0 <= b < old(bb)@.len() ==> (#[trigger] final(bb)@[b])@ == boundary_after(
                old(bb)@,
                dict@,
                new_edges@.to_set(),
                b,
            ),
        covered@.no_duplicates(),
        forall|b: usize| #[trigger]
            covered@.contains(b) <==> is_cleared(old(bb)@, dict@, new_edges@.to_set(), b),
        forall|i: int| 0 <= i < covered@.len() ==> #[trigger] covered@[i] < old(bb)@.len(),
{
    let ghost first = bb@;
    let mut covered: Vec<usize> = Vec::new();
    let mut i: usize = 0;
    let ghost mut gone: Set<usize> = Set::empty();
    while i < new_edges.len()
        invariant
            i <= new_edges@.len(),
            bb@.len() == first.len(),
            new_edges@.no_duplicates(),
            gone == new_edges@.take(i as int).to_set(),
            forall|e: usize| #[trigger]
                dict@.contains_key(e) && new_edges@.contains(e) ==> dict@[e] < first.len()
                    && first[dict@[e] as int]@.contains(e),
            forall|b: int| 0 <= b < first.len() ==> #[trigger] can_shrink(first, dict@, b),
            first.len() <= usize::MAX,
            forall|b: int|
                0 <= b < first.len() ==> (#[trigger] bb@[b])@ == boundary_after(
                    first,
                    dict@,
                    gone,
                    b,
                ),
            covered@.no_duplicates(),
            forall|b: usize| #[trigger]
                covered@.contains(b) <==> is_cleared(first, dict@, gone, b),
            forall|k: int| 0 <= k < covered@.len() ==> #[trigger] covered@[k] < first.len(),
        decreases new_edges@.len() - i,
    {
        let edge: usize = new_edges[i];
        let ghost next = gone.insert(edge);
        let ghost bb1 = bb@;
        let ghost covered1 = covered@;
        proof {
            assert(new_edges@.contains(new_edges@[i as int]));
            assert(next =~= new_edges@.take(i + 1).to_set()) by {
                let t = new_edges@.take(i + 1);
                assert forall|x: usize| next.contains(x) <==> t.to_set().contains(x) by {
                    if gone.contains(x) {
                        let p = new_edges@.take(i as int);
                        let j = choose|j: int| 0 <= j < p.len() && p[j] == x;
                        assert(t[j] == x);
                    }
                    assert(t[i as int] == edge);
                    if t.contains(x) {
                        let j = choose|j: int| 0 <= j < t.len() && t[j] == x;
                        if j < i {
                            assert(new_edges@.take(i as int)[j] == x);
                        }
                    }
                }
            }
            assert(!gone.contains(edge)) by {
                if gone.contains(edge) {
                    let p = new_edges@.take(i as int);
                    let j = choose|j: int| 0 <= j < p.len() && p[j] == edge;
                    assert(new_edges@[j] == new_edges@[i as int]);
                }
            }
        }
        let found = dict.get(&edge);
        if let Some(br) = found {
            let branch: usize = *br;
            let ghost b = branch as int;
            proof {
                assert(dict@.contains_key(edge) && new_edges@.contains(edge));
                assert(can_shrink(first, dict@, b));
                assert(edges_of(dict@, branch).contains(edge));
                lemma_step(first, dict@, gone, edge, branch);
            }
            let list = retain_others(&bb[branch], edge);
            let is_empty = list.len() == 0;
            bb.set(branch, list);
            if is_empty {
                covered.push(branch);
            }
            proof {
                assert(!covered1.contains(branch));
                assert(bb@[b]@ == rest(bb1[b]@, set![edge]));
                assert(bb@[b]@ == boundary_after(first, dict@, next, b));
                assert forall|x: int| 0 <= x < first.len() implies (#[trigger] bb@[x])@
                    == boundary_after(first, dict@, next, x) by {
                    if x != b {
                        assert(bb@[x] == bb1[x]);
                        assert(can_shrink(first, dict@, x));
                        lemma_other(first, dict@, gone, edge, x);
                    }
                }
                assert forall|x: usize| #[trigger] covered@.contains(x) <==> is_cleared(
                    first,
                    dict@,
                    next,
                    x,
                ) by {
                    assert(covered1.contains(x) <==> is_cleared(first, dict@, gone, x));
                    if covered1.contains(x) {
                        let j = choose|j: int| 0 <= j < covered1.len() && covered1[j] == x;
                        assert(covered@[j] == x);
                    }
                    if covered@.len() > covered1.len() {
                        assert(covered@[covered1.len() as int] == branch);
                    }
                    if x != branch && x < first.len() {
                        assert(can_shrink(first, dict@, x as int));
                        lemma_other(first, dict@, gone, edge, x as int);
                    }
                }
            }
        } else {
            proof {
                assert(!dict@.contains_key(edge));
                assert forall|x: int| 0 <= x < first.len() implies (#[trigger] bb@[x])@
                    == boundary_after(first, dict@, next, x) by {
                    assert(can_shrink(first, dict@, x));
                    lemma_other(first, dict@, gone, edge, x);
                }
                assert forall|x: usize| #[trigger] covered@.contains(x) <==> is_cleared(
                    first,
                    dict@,
                    next,
                    x,
                ) by {
                    if x < first.len() {
                        assert(can_shrink(first, dict@, x as int));
                        lemma_other(first, dict@, gone, edge, x as int);
                    }
                }
            }
        }
        proof {
            gone = next;
        }
        i = i + 1;
    }
    proof {
        assert(new_edges@.take(i as int) =~= new_edges@);
    }
    covered
}

/// Empties the boundaries of the branches of `list`, which hold a mark at
/// most.
pub fn clear_marks(bb: &mut Vec<Vec<usize>>, list: &Vec<usize>)
    requires
        forall|i: int|
            0 <= i < list@.len() ==> (#[trigger] list@[i]) < old(bb)@.len() && old(
                bb,
            )@[list@[i] as int]@.len() <= 1,
        old(bb)@.len() <= usize::MAX,
    ensures
        final(bb)@.len() == old(bb)@.len(),
        forall|b: int|
            0 <= b < old(bb)@.len() ==> (#[trigger] final(bb)@[b])@ == if list@.contains(
                b as usize,
            ) {
                Seq::<usize>::empty()
            } else {
                old(bb)@[b]@
            },
{
    let ghost first = bb@;
    let mut i: usize = 0;
    assert(list@.take(0) =~= Seq::empty());
    while i < list.len()
        invariant
            i <= list@.len(),
            bb@.len() == first.len() <= usize::MAX,
            forall|k: int|
                0 <= k < list@.len() ==> (#[trigger] list@[k]) < first.len()
                    && first[list@[k] as int]@.len() <= 1,
            forall|b: int|
                0 <= b < first.len() ==> (#[trigger] bb@[b])@ == if list@.take(
                    i as int,
                ).contains(b as usize) {
                    Seq::<usize>::empty()
                } else {
                    first[b]@
                },
        decreases list@.len() - i,
    {
        let b: usize = list[i];
        let ghost bb1 = bb@;
        let ghost prefix = list@.take(i as int);
        let ghost more = list@.take(i + 1);
        proof {
            assert(list@[i as int] < first.len());
            assert(more =~= prefix.push(b));
        }
        bb[b].pop();
        proof {
            assert(bb@[b as int]@ =~= Seq::<usize>::empty());
            assert forall|x: int| 0 <= x < first.len() implies (#[trigger] bb@[x])@
                == if more.contains(x as usize) {
                Seq::<usize>::empty()
            } else {
                first[x]@
            } by {
                assert(more.contains(x as usize) <==> prefix.contains(x as usize) || x == b) by {
                    if prefix.contains(x as usize) {
                        let j = choose|j: int| 0 <= j < prefix.len() && prefix[j] == x as usize;
                        assert(more[j] == x as usize);
                    }
                    assert(more[i as int] == b);
                }
                if x != b {
                    assert(bb@[x] == bb1[x]);
                }
            }
        }
        i = i + 1;
    }
    assert(list@.take(i as int) =~= list@);
}

/// Notes the branches of `list` as covered.
pub fn mark_covered(
    funcs: &mut Vec<Vec<BranchMutateInfo>>,
    list: &Vec<usize>,
    start: &Vec<usize>,
    end: &Vec<usize>,
    total: usize,
)
    requires
        0 < start@.len(),
        is_table(start@, end@, total as nat, start@.len()),
        is_chunked(old(funcs)@, start@, end@),
        forall|i: int| 0 <= i < list@.len() ==> (#[trigger] list@[i]) < total,
    ensures
        is_chunked(final(funcs)@, start@, end@),
        forall|c: int, l: int|
            0 <= c < start@.len() && 0 <= l < end@[c] - start@[c] ==> #[trigger]
                final(funcs)@[c]@[l] == if list@.contains((start@[c] + l) as usize) {
                    BranchMutateInfo { is_covered: true, ..old(funcs)@[c]@[l] }
                } else {
                    old(funcs)@[c]@[l]
                },
{
    let ghost first = funcs@;
    let ghost n = start@.len() as int;
    let mut i: usize = 0;
    proof {
        table_shape(start@, end@, total as nat, start@.len());
        assert forall|a: int, b: int| 0 <= a <= b < start@.len() implies start@[a] <= start@[b] by {
            if a < b {
                assert(start@[a] <= end@[a] <= start@[b]);
            }
        }
        assert(list@.take(0) =~= Seq::empty());
    }
    while i < list.len()
        invariant
            0 < n == start@.len(),
            i <= list@.len(),
            is_table(start@, end@, total as nat, start@.len()),
            is_chunked(first, start@, end@),
            is_chunked(funcs@, start@, end@),
            start@[0] == 0,
            forall|a: int, b: int| 0 <= a <= b < start@.len() ==> start@[a] <= start@[b],
            forall|k: int| 0 <= k < list@.len() ==> (#[trigger] list@[k]) < total,
            forall|c: int, l: int|
                0 <= c < n && 0 <= l < end@[c] - start@[c] ==> #[trigger] funcs@[c]@[l]
                    == if list@.take(i as int).contains((start@[c] + l) as usize) {
                    BranchMutateInfo { is_covered: true, ..first[c]@[l] }
                } else {
                    first[c]@[l]
                },
        decreases list@.len() - i,
    {
        let id: usize = list[i];
        let ghost funcs1 = funcs@;
        let ghost prefix = list@.take(i as int);
        let ghost more = list@.take(i + 1);
        let ci: usize = chunk_of(start, id);
        let ghost c0 = ci as int;
        proof {
            assert(list@[i as int] < total);
            assert(more =~= prefix.push(id));
            crate::chunks::lookups_agree(
                start@,
                end@,
                total as nat,
                start@.len(),
                id,
                c0,
            );
            assert(funcs@[c0]@.len() == end@[c0] - start@[c0]);
        }
        let l0: usize = id - start[ci];
        funcs[ci][l0].is_covered = true;
        proof {
            assert forall|x: usize| #[trigger] more.contains(x) <==> prefix.contains(x) || x
                == id by {
                if prefix.contains(x) {
                    let j = choose|j: int| 0 <= j < prefix.len() && prefix[j] == x;
                    assert(more[j] == x);
                }
                assert(more[i as int] == id);
            }
            assert forall|c: int, l: int|
                0 <= c < n && 0 <= l < end@[c] - start@[c] implies #[trigger] funcs@[c]@[l]
                == if more.contains((start@[c] + l) as usize) {
                BranchMutateInfo { is_covered: true, ..first[c]@[l] }
            } else {
                first[c]@[l]
            } by {
                assert(funcs1[c]@[l] == if prefix.contains((start@[c] + l) as usize) {
                    BranchMutateInfo { is_covered: true, ..first[c]@[l] }
                } else {
                    first[c]@[l]
                });
                crate::chunks::table_shape(start@, end@, total as nat, start@.len());
                assert(end@[c] <= total);
                if start@[c] + l == id {
                    assert(crate::chunks::holds_cell(start@, end@, n, c, id));
                    assert(c == c0);
                } else if c == c0 {
                    assert(l != l0);
                    assert(funcs@[c]@[l] == funcs1[c]@[l]);
                } else {
                    assert(funcs@[c] == funcs1[c]);
                }
            }
            assert forall|c: int| 0 <= c < funcs@.len() implies #[trigger] funcs@[c]@.len()
                == end@[c] - start@[c] by {
                if c != c0 {
                    assert(funcs@[c] == funcs1[c]);
                }
            }
        }
        i = i + 1;
    }
    assert(list@.take(i as int) =~= list@);
}

/// The edges behind a branch are left open until they are seen: of those that
/// were open, exactly the ones that were seen are open no more. A branch is
/// covered by a run if one of the edges behind it was seen and none is left
/// open.
pub proof fn seen_edges_leave_boundaries(
    bb: Seq<Vec<usize>>,
    dict: Map<usize, usize>,
    gone: Set<usize>,
    b: usize,
    e: usize,
)
    requires
        b < bb.len(),
        forall|i: int|
            0 <= i < bb[b as int]@.len() ==> dict.contains_key(#[trigger] bb[b as int]@[i])
                && dict[bb[b as int]@[i]] == b,
    ensures
        boundary_after(bb, dict, gone, b as int).contains(e) <==> bb[b as int]@.contains(e)
            && !gone.contains(e),
        is_cleared(bb, dict, gone, b) <==> (exists|x: usize|
            gone.contains(x) && dict.contains_key(x) && #[trigger] dict[x] == b) && (forall|i: int|
            0 <= i < bb[b as int]@.len() ==> gone.contains(#[trigger] bb[b as int]@[i])),
{
    let s = bb[b as int]@;
    lemma_rest_contains(s, gone);
    let hit = exists|x: usize| gone.contains(x) && edges_of(dict, b).contains(x);
    assert(hit == exists|x: usize|
        gone.contains(x) && dict.contains_key(x) && #[trigger] dict[x] == b) by {
        if hit {
            let x = choose|x: usize| gone.contains(x) && edges_of(dict, b).contains(x);
            assert(gone.contains(x) && dict.contains_key(x) && dict[x] == b);
        }
        if exists|x: usize| gone.contains(x) && dict.contains_key(x) && #[trigger] dict[x] == b {
            let x = choose|x: usize|
                gone.contains(x) && dict.contains_key(x) && #[trigger] dict[x] == b;
            assert(gone.contains(x) && edges_of(dict, b).contains(x));
        }
    }
    if !hit && s.contains(e) && gone.contains(e) {
        let i = choose|i: int| 0 <= i < s.len() && s[i] == e;
        assert(dict.contains_key(s[i]) && dict[s[i]] == b);
        assert(gone.contains(e) && edges_of(dict, b).contains(e));
    }
    if rest(s, gone).len() == 0 {
        assert forall|i: int| 0 <= i < s.len() implies gone.contains(#[trigger] s[i]) by {
            if !gone.contains(s[i]) {
                assert(s.contains(s[i]));
                assert(rest(s, gone).contains(s[i]));
            }
        }
    } else {
        let x = rest(s, gone)[0];
        assert(rest(s, gone).contains(x));
        let i = choose|i: int| 0 <= i < s.len() && s[i] == x;
        assert(!gone.contains(s[i]));
    }
}

} // verus!

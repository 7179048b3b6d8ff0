//! What is remembered of all runs, in chunks.

use super::branch_type::BranchType;
use crate::chunks::{chunk_of, create_chunks, filled, is_chunked, is_table, table_shape};
use crate::config::BRANCH_CONTEXT_CNT;
use crate::depot::SeedInfo;
use crate::mutate_func::BranchMutateInfo;
use std::collections::HashMap;
use vstd::arithmetic::power2::pow2;
use vstd::prelude::*;

verus! {

broadcast use vstd::std_specs::hash::group_hash_axioms;

/// The dimensions of a target's maps: what the target uses, and what is
/// allocated for it.
#[derive(Debug, Clone, Copy, PartialEq, Eq, Structural)]
pub struct MapSizeData {
    pub real_map_size: usize,
    pub used_map_size: usize,
    pub real_branch_map_size: usize,
    pub used_branch_map_size: usize,
}

impl MapSizeData {
    pub fn new(
        real_map_size: usize,
        used_map_size: usize,
        real_branch_map_size: usize,
        used_branch_map_size: usize,
    ) -> (r: Self)
        ensures
            r == (MapSizeData {
                real_map_size,
                used_map_size,
                real_branch_map_size,
                used_branch_map_size,
            }),
    {
        MapSizeData { real_map_size, used_map_size, real_branch_map_size, used_branch_map_size }
    }
}

/// The coverage state that all workers share.
///
/// The maps are cut into chunks, see [`crate::chunks`].
pub struct GlobalBranches {
    /// Hit count buckets that no normal run has shown yet, for each edge.
    pub virgin_branches: Vec<Vec<u8>>,
    /// The same for runs that timed out.
    pub tmouts_branches: Vec<Vec<u8>>,
    /// The same for runs that crashed.
    pub crashes_branches: Vec<Vec<u8>>,
    /// The same for the target with full instrumentation.
    pub full_virgin_branches: Vec<Vec<u8>>,
    /// The best seed for each edge and hit count bucket.
    pub edge_favor_map: Vec<Vec<[SeedInfo; BRANCH_CONTEXT_CNT]>>,
    /// One bit for each branch, set once it is covered.
    pub global_branch_cov_map: Vec<u8>,
    /// The seed that came closest to each branch, in each context.
    pub branch_favor_map: Vec<Vec<[SeedInfo; BRANCH_CONTEXT_CNT]>>,
    /// What is known of each branch's mutation function.
    pub branch_mutate_funcs: Vec<Vec<BranchMutateInfo>>,
    pub fast_map_size_data: MapSizeData,
    pub full_map_size_data: MapSizeData,
    pub trace_map_size_data: MapSizeData,
    pub cov_edges: usize,
    pub cov_branches: usize,
    pub reached_branches: usize,
    pub thread_num: usize,
    pub start_pos: Vec<usize>,
    pub end_pos: Vec<usize>,
    pub full_start_pos: Vec<usize>,
    pub full_end_pos: Vec<usize>,
    pub branch_start_pos: Vec<usize>,
    pub branch_end_pos: Vec<usize>,
    pub edge_to_pred_branch_dict: HashMap<usize, usize>,
    pub branch_type_dict: HashMap<usize, BranchType>,
    pub trace_branch_type_dict: HashMap<usize, BranchType>,
    /// The edges that have still to be seen before a branch is covered.
    pub branch_boundary: Vec<Vec<usize>>,
}

/// The edges behind branch `b`.
pub open spec fn edges_of(dict: Map<usize, usize>, b: usize) -> Set<usize> {
    Set::new(|e: usize| dict.contains_key(e) && dict[e] == b)
}

/// Branch `b` counts as covered once it reports the best match.
pub open spec fn is_non_term(types: Map<usize, BranchType>, b: usize) -> bool {
    types.contains_key(b) && types[b].spec_is_non_term()
}

/// The bit of branch `b` is set.
pub open spec fn is_covered(map: Seq<u8>, b: int) -> bool {
    (map[b / 8] >> ((b % 8) as u8)) & 1 == 1
}

/// What is required of the tables that a target sends, for the branches to be
/// tracked: each branch has one or two edges behind it, or none if it counts
/// as covered by itself, and no branch is a comparison of returned values.
pub open spec fn tables_fit(
    fast: MapSizeData,
    full: MapSizeData,
    dict: Map<usize, usize>,
    types: Map<usize, BranchType>,
    trace_types: Map<usize, BranchType>,
) -> bool {
    &&& edges_fit(dict, fast.used_branch_map_size)
    &&& types_fit(types, dict, fast.used_branch_map_size)
    &&& forall|b: usize| #[trigger]
        trace_types.contains_key(b) ==> trace_types[b] != BranchType::RtnFunction
    &&& forall|b: usize| 1 <= b < full.real_branch_map_size ==> #[trigger] has_boundary(
        fast,
        dict,
        types,
        b,
    )
}

/// Branch `b` is in the map and there is something to be seen of it.
pub open spec fn has_boundary(
    fast: MapSizeData,
    dict: Map<usize, usize>,
    types: Map<usize, BranchType>,
    b: usize,
) -> bool {
    b < fast.used_branch_map_size && (is_non_term(types, b) || edges_of(dict, b) != Set::<
        usize,
    >::empty())
}

impl GlobalBranches {
    /// The number of chunks, as a mathematical integer.
    pub open spec fn n(&self) -> nat {
        self.thread_num as nat
    }

    /// The maps have the dimensions that their tables say.
    pub open spec fn tables_wf(&self) -> bool {
        &&& 0 < self.thread_num
        &&& 2 * self.thread_num <= usize::MAX
        &&& is_table(
            self.start_pos@,
            self.end_pos@,
            self.fast_map_size_data.used_map_size as nat,
            self.n(),
        )
        &&& is_table(
            self.full_start_pos@,
            self.full_end_pos@,
            self.full_map_size_data.used_map_size as nat,
            self.n(),
        )
        &&& is_table(
            self.branch_start_pos@,
            self.branch_end_pos@,
            self.fast_map_size_data.used_branch_map_size as nat,
            self.n(),
        )
        &&& is_chunked(self.virgin_branches@, self.start_pos@, self.end_pos@)
        &&& is_chunked(self.tmouts_branches@, self.start_pos@, self.end_pos@)
        &&& is_chunked(self.crashes_branches@, self.start_pos@, self.end_pos@)
        &&& is_chunked(self.edge_favor_map@, self.start_pos@, self.end_pos@)
        &&& is_chunked(self.full_virgin_branches@, self.full_start_pos@, self.full_end_pos@)
        &&& is_chunked(self.branch_favor_map@, self.branch_start_pos@, self.branch_end_pos@)
        &&& is_chunked(self.branch_mutate_funcs@, self.branch_start_pos@, self.branch_end_pos@)
        &&& self.branch_boundary@.len() == self.fast_map_size_data.used_branch_map_size
        &&& self.global_branch_cov_map@.len() == self.fast_map_size_data.used_branch_map_size / 8
        &&& tables_fit(
            self.fast_map_size_data,
            self.full_map_size_data,
            self.edge_to_pred_branch_dict@,
            self.branch_type_dict@,
            self.trace_branch_type_dict@,
        )
    }

    /// The boundary of branch `b` is a part of the edges behind it or, for a
    /// branch that is covered by itself, one mark.
    pub open spec fn boundary_fits(&self, b: int) -> bool {
        let edges = self.branch_boundary@[b]@;
        &&& edges.no_duplicates()
        &&& edges.len() <= 2
        &&& is_non_term(self.branch_type_dict@, b as usize) ==> edges.len() <= 1
        &&& !is_non_term(self.branch_type_dict@, b as usize) ==> forall|i: int|
            0 <= i < edges.len() ==> edges_of(
                self.edge_to_pred_branch_dict@,
                b as usize,
            ).contains(#[trigger] edges[i])
    }

    /// An edge that was never seen is still in the boundary of its branch.
    pub open spec fn unseen_in_boundary(&self, c: int, l: int) -> bool {
        let e = (self.full_start_pos@[c] + l) as usize;
        self.full_virgin_branches@[c]@[l] == 255 && self.edge_to_pred_branch_dict@.contains_key(e)
            ==> self.branch_boundary@[self.edge_to_pred_branch_dict@[e] as int]@.contains(e)
    }

    pub open spec fn wf(&self) -> bool {
        &&& self.tables_wf()
        &&& forall|b: int| 0 <= b < self.branch_boundary@.len() ==> #[trigger] self.boundary_fits(b)
        &&& forall|c: int, l: int|
            0 <= c < self.n() && 0 <= l < self.full_virgin_branches@[c]@.len()
                ==> #[trigger] self.unseen_in_boundary(c, l)
    }

    /// Both track the same target in the same way; what was seen may differ.
    pub open spec fn same_setup(&self, other: &GlobalBranches) -> bool {
        &&& self.fast_map_size_data == other.fast_map_size_data
        &&& self.full_map_size_data == other.full_map_size_data
        &&& self.trace_map_size_data == other.trace_map_size_data
        &&& self.thread_num == other.thread_num
        &&& self.start_pos == other.start_pos
        &&& self.end_pos == other.end_pos
        &&& self.full_start_pos == other.full_start_pos
        &&& self.full_end_pos == other.full_end_pos
        &&& self.branch_start_pos == other.branch_start_pos
        &&& self.branch_end_pos == other.branch_end_pos
        &&& self.edge_to_pred_branch_dict == other.edge_to_pred_branch_dict
        &&& self.branch_type_dict == other.branch_type_dict
        &&& self.trace_branch_type_dict == other.trace_branch_type_dict
    }

    /// The same edges were seen.
    pub open spec fn same_edges(&self, other: &GlobalBranches) -> bool {
        &&& self.virgin_branches == other.virgin_branches
        &&& self.tmouts_branches == other.tmouts_branches
        &&& self.crashes_branches == other.crashes_branches
        &&& self.full_virgin_branches == other.full_virgin_branches
        &&& self.cov_edges == other.cov_edges
    }

    /// The same branches were reached and covered.
    pub open spec fn same_branches(&self, other: &GlobalBranches) -> bool {
        &&& self.branch_favor_map == other.branch_favor_map
        &&& self.branch_mutate_funcs == other.branch_mutate_funcs
        &&& self.reached_branches == other.reached_branches
        &&& self.global_branch_cov_map == other.global_branch_cov_map
        &&& self.cov_branches == other.cov_branches
        &&& self.branch_boundary == other.branch_boundary
    }

    /// Nothing was seen yet.
    pub open spec fn is_fresh(&self) -> bool {
        &&& forall|c: int, l: int|
            0 <= c < self.n() && 0 <= l < self.virgin_branches@[c]@.len() ==> #[trigger]
                self.virgin_branches@[c]@[l] == 255
        &&& forall|c: int, l: int|
            0 <= c < self.n() && 0 <= l < self.tmouts_branches@[c]@.len() ==> #[trigger]
                self.tmouts_branches@[c]@[l] == 255
        &&& forall|c: int, l: int|
            0 <= c < self.n() && 0 <= l < self.crashes_branches@[c]@.len() ==> #[trigger]
                self.crashes_branches@[c]@[l] == 255
        &&& forall|c: int, l: int|
            0 <= c < self.n() && 0 <= l < self.full_virgin_branches@[c]@.len() ==> #[trigger]
                self.full_virgin_branches@[c]@[l] == 255
        &&& forall|c: int, l: int, x: int|
            0 <= c < self.n() && 0 <= l < self.edge_favor_map@[c]@.len() && 0 <= x < 8
                ==> #[trigger] self.edge_favor_map@[c]@[l]@[x] == SeedInfo::spec_default()
        &&& forall|c: int, l: int, x: int|
            0 <= c < self.n() && 0 <= l < self.branch_favor_map@[c]@.len() && 0 <= x < 8
                ==> #[trigger] self.branch_favor_map@[c]@[l]@[x] == SeedInfo::spec_default()
        &&& forall|c: int, l: int|
            0 <= c < self.n() && 0 <= l < self.branch_mutate_funcs@[c]@.len() ==> #[trigger]
                self.branch_mutate_funcs@[c]@[l] == BranchMutateInfo::spec_default()
        &&& forall|i: int|
            0 <= i < self.global_branch_cov_map@.len() ==> self.global_branch_cov_map@[i] == 0
        &&& forall|b: int|
            0 <= b < self.branch_boundary@.len() ==> #[trigger] self.branch_boundary@[b]@.to_set()
                == if is_non_term(self.branch_type_dict@, b as usize) {
                set![0usize]
            } else {
                edges_of(self.edge_to_pred_branch_dict@, b as usize)
            }
        &&& self.cov_edges == 0
        &&& self.cov_branches == 0
        &&& self.reached_branches == 0
    }
}

/// Fewer elements than a set has, if one of the set is missing.
proof fn lemma_part_of_set(s: Seq<usize>, t: Set<usize>, x: usize)
    requires
        t.finite(),
        s.no_duplicates(),
        forall|i: int| 0 <= i < s.len() ==> t.contains(#[trigger] s[i]),
        t.contains(x),
        !s.contains(x),
    ensures
        s.len() < t.len(),
{
    let u = s.push(x);
    assert(u.no_duplicates());
    u.unique_seq_to_set();
    assert(u.to_set().subset_of(t)) by {
        assert forall|y: usize| u.to_set().contains(y) implies t.contains(y) by {
            let i = choose|i: int| 0 <= i < u.len() && u[i] == y;
            if i < s.len() {
                assert(s[i] == y);
            }
        }
    }
    vstd::set_lib::lemma_len_subset(u.to_set(), t);
}

/// The boundaries while edges are added: those of the first `k` of `keys`.
pub open spec fn boundary_of(
    bb: Seq<Vec<usize>>,
    dict: Map<usize, usize>,
    keys: Seq<usize>,
    b: int,
) -> bool {
    &&& bb[b]@.no_duplicates()
    &&& forall|e: usize| #[trigger]
        bb[b]@.contains(e) <==> keys.contains(e) && edges_of(dict, b as usize).contains(e)
}

/// Each edge is behind a branch of the map, and no branch has more than two.
pub open spec fn edges_fit(dict: Map<usize, usize>, size: usize) -> bool {
    forall|e: usize| #[trigger]
        dict.contains_key(e) ==> dict[e] < size && edges_of(dict, dict[e]).len() <= 2
}

/// The boundaries hold all edges behind each branch.
pub open spec fn is_edge_boundary(bb: Seq<Vec<usize>>, dict: Map<usize, usize>, b: int) -> bool {
    &&& bb[b]@.no_duplicates()
    &&& bb[b]@.len() <= 2
    &&& forall|e: usize| #[trigger]
        bb[b]@.contains(e) <==> edges_of(dict, b as usize).contains(e)
}

proof fn lemma_starts_sorted(start: Seq<usize>, end: Seq<usize>, total: nat, n: nat)
    requires
        is_table(start, end, total, n),
        0 < n,
    ensures
        start[0] == 0,
        forall|i: int, j: int| 0 <= i <= j < start.len() ==> start[i] <= start[j],
        forall|i: int, j: int|
            0 <= i < n && j == i + 1 && j < n ==> #[trigger] end[i] == #[trigger] start[j],
        end[n - 1] == total,
{
    table_shape(start, end, total, n);
    assert forall|i: int, j: int| 0 <= i <= j < start.len() implies start[i] <= start[j] by {
        if i < j {
            assert(start[i] <= end[i] <= start[j]);
        }
    }
}

/// Builds the boundary of each branch from the edges behind it. `None` if the
/// edges do not fit, see [`edges_fit`].
fn edge_boundary(dict: &HashMap<usize, usize>, size: usize) -> (r: Option<Vec<Vec<usize>>>)
    ensures
        match r {
            Some(bb) => {
                &&& edges_fit(dict@, size)
                &&& bb@.len() == size
                &&& forall|b: int| 0 <= b < size ==> #[trigger] is_edge_boundary(bb@, dict@, b)
            },
            None => !edges_fit(dict@, size),
        },
{
    let mut bb: Vec<Vec<usize>> = Vec::new();
    while bb.len() < size
        invariant
            bb@.len() <= size,
            forall|b: int| 0 <= b < bb@.len() ==> (#[trigger] bb@[b])@ == Seq::<usize>::empty(),
        decreases size - bb@.len(),
    {
        bb.push(Vec::new());
    }
    let ghost mut seen: Seq<usize> = Seq::empty();
    for e in it: dict.keys()
        invariant
            bb@.len() == size,
            it.seq().unref().to_set() == dict@.dom(),
            it.seq().unref().no_duplicates(),
            seen == it.seq().unref().take(it.index() as int),
            it.index() == it.seq().len() ==> seen.to_set() == dict@.dom(),
            forall|i: int| 0 <= i < seen.len() ==> dict@[#[trigger] seen[i]] < size,
            forall|b: int|
                0 <= b < size ==> #[trigger] boundary_of(bb@, dict@, seen, b) && bb@[b]@.len()
                    <= 2,
    {
        let ghost keys = it.seq().unref();
        let ghost k = it.index() as int;
        let ghost before = bb@;
        proof {
            assert(keys[k] == *e);
            assert(keys.to_set().contains(*e));
            assert(dict@.contains_key(*e));
        }
        if let Some(br) = dict.get(e) {
            let b: usize = *br;
            if b >= size {
                return None;
            }
            proof {
                assert(boundary_of(bb@, dict@, seen, b as int));
                assert(edges_of(dict@, b).subset_of(dict@.dom()));
                vstd::set_lib::lemma_len_subset(edges_of(dict@, b), dict@.dom());
                if bb@[b as int]@.contains(*e) {
                    assert(seen.contains(*e));
                    let i = choose|i: int| 0 <= i < seen.len() && seen[i] == *e;
                    assert(keys[i] == keys[k]);
                }
                assert forall|i: int| 0 <= i < bb@[b as int]@.len() implies edges_of(
                    dict@,
                    b,
                ).contains(#[trigger] bb@[b as int]@[i]) by {
                    assert(bb@[b as int]@.contains(bb@[b as int]@[i]));
                }
                lemma_part_of_set(bb@[b as int]@, edges_of(dict@, b), *e);
            }
            if bb[b].len() >= 2 {
                return None;
            }
            bb[b].push(*e);
        }
        proof {
            let more = seen.push(*e);
            assert(more =~= keys.take(k + 1));
            if k + 1 == keys.len() {
                assert(more =~= keys);
            }
            assert forall|b: int| 0 <= b < size implies #[trigger] boundary_of(bb@, dict@, more, b)
                && bb@[b]@.len() <= 2 by {
                assert(boundary_of(before, dict@, seen, b));
                assert forall|x: usize| #[trigger]
                    bb@[b]@.contains(x) <==> more.contains(x) && edges_of(
                        dict@,
                        b as usize,
                    ).contains(x) by {
                    assert(more.contains(x) <==> seen.contains(x) || x == *e) by {
                        if seen.contains(x) {
                            let i = choose|i: int| 0 <= i < seen.len() && seen[i] == x;
                            assert(more[i] == x);
                        }
                        assert(more[seen.len() as int] == *e);
                    }
                    if b == dict@[*e] {
                        assert(bb@[b]@ == before[b]@.push(*e));
                        if before[b]@.contains(x) {
                            let i = choose|i: int|
                                0 <= i < before[b]@.len() && before[b]@[i] == x;
                            assert(bb@[b]@[i] == x);
                        }
                        assert(bb@[b]@[before[b]@.len() as int] == *e);
                    }
                }
            }
            seen = more;
        }
    }
    proof {
        assert forall|b: int| 0 <= b < size implies #[trigger] is_edge_boundary(bb@, dict@, b) by {
            assert(boundary_of(bb@, dict@, seen, b));
            assert forall|e: usize| edges_of(dict@, b as usize).contains(e) implies seen.contains(
                e,
            ) by {
                assert(dict@.dom().contains(e));
                assert(seen.to_set().contains(e));
            }
        }
        assert forall|e: usize| #[trigger] dict@.contains_key(e) implies dict@[e] < size
            && edges_of(dict@, dict@[e]).len() <= 2 by {
            assert(seen.to_set().contains(e));
            let i = choose|i: int| 0 <= i < seen.len() && seen[i] == e;
            let b = dict@[e];
            assert(is_edge_boundary(bb@, dict@, b as int));
            bb@[b as int]@.unique_seq_to_set();
            assert(bb@[b as int]@.to_set() =~= edges_of(dict@, b));
        }
    }
    Some(bb)
}

/// Branches that are covered by themselves have no edges behind them, and no
/// branch is a comparison of returned values.
pub open spec fn types_fit(
    types: Map<usize, BranchType>,
    dict: Map<usize, usize>,
    size: usize,
) -> bool {
    &&& forall|b: usize| #[trigger]
        is_non_term(types, b) ==> b < size && edges_of(dict, b) == Set::<usize>::empty()
    &&& forall|b: usize| #[trigger] types.contains_key(b) ==> types[b] != BranchType::RtnFunction
}

/// A boundary with the marks of those of the branches `seen` that are covered
/// by themselves.
pub open spec fn is_marked(
    bb: Seq<Vec<usize>>,
    dict: Map<usize, usize>,
    types: Map<usize, BranchType>,
    seen: Seq<usize>,
    b: int,
) -> bool {
    if seen.contains(b as usize) && is_non_term(types, b as usize) {
        bb[b]@ == seq![0usize]
    } else {
        is_edge_boundary(bb, dict, b)
    }
}

/// Marks the branches that are covered by themselves. `None` if the types do
/// not fit, see [`types_fit`].
fn mark_non_term(
    edge_bb: Vec<Vec<usize>>,
    types: &HashMap<usize, BranchType>,
    Ghost(dict): Ghost<Map<usize, usize>>,
) -> (r: Option<Vec<Vec<usize>>>)
    requires
        forall|b: int| 0 <= b < edge_bb@.len() ==> #[trigger] is_edge_boundary(edge_bb@, dict, b),
        edge_bb@.len() <= usize::MAX,
    ensures
        match r {
            Some(bb) => {
                &&& types_fit(types@, dict, edge_bb@.len() as usize)
                &&& bb@.len() == edge_bb@.len()
                &&& forall|b: int|
                    0 <= b < bb@.len() ==> if is_non_term(types@, b as usize) {
                        (#[trigger] bb@[b])@ == seq![0usize]
                    } else {
                        is_edge_boundary(bb@, dict, b)
                    }
            },
            None => !types_fit(types@, dict, edge_bb@.len() as usize),
        },
{
    let size: usize = edge_bb.len();
    let mut bb: Vec<Vec<usize>> = edge_bb;
    let ghost mut seen: Seq<usize> = Seq::empty();
    proof {
        assert forall|b: int| 0 <= b < size implies #[trigger] is_marked(
            bb@,
            dict,
            types@,
            seen,
            b,
        ) by {
            assert(is_edge_boundary(bb@, dict, b));
        }
    }
    for key in it: types.keys()
        invariant
            bb@.len() == size,
            size == edge_bb@.len(),
            it.seq().unref().to_set() == types@.dom(),
            it.seq().unref().no_duplicates(),
            seen == it.seq().unref().take(it.index() as int),
            it.index() == it.seq().len() ==> seen.to_set() == types@.dom(),
            forall|i: int|
                0 <= i < seen.len() ==> types@[#[trigger] seen[i]] != BranchType::RtnFunction && (
                types@[seen[i]].spec_is_non_term() ==> seen[i] < size && edges_of(dict, seen[i])
                    == Set::<usize>::empty()),
            forall|b: int| 0 <= b < size ==> #[trigger] is_marked(bb@, dict, types@, seen, b),
    {
        let ghost keys = it.seq().unref();
        let ghost k = it.index() as int;
        let ghost before = bb@;
        let b: usize = *key;
        proof {
            assert(keys[k] == b);
            assert(keys.to_set().contains(b));
            assert(types@.contains_key(b));
            if seen.contains(b) {
                let i = choose|i: int| 0 <= i < seen.len() && seen[i] == b;
                assert(keys[i] == keys[k]);
            }
        }
        if let Some(branch_type) = types.get(key) {
            if branch_type.is_non_term() {
                assert(is_non_term(types@, b));
                if b >= size {
                    return None;
                }
                assert(is_marked(bb@, dict, types@, seen, b as int));
                if bb[b].len() > 0 {
                    proof {
                        assert(bb@[b as int]@.contains(bb@[b as int]@[0]));
                        assert(edges_of(dict, b).contains(bb@[b as int]@[0]));
                        assert(!(Set::<usize>::empty()).contains(bb@[b as int]@[0]));
                    }
                    return None;
                }
                proof {
                    assert(edges_of(dict, b) =~= Set::empty()) by {
                        assert forall|e: usize| !edges_of(dict, b).contains(e) by {
                            assert(bb@[b as int]@.contains(e) <==> edges_of(dict, b).contains(e));
                        }
                    }
                }
                bb[b].push(0);
                assert(bb@[b as int]@ =~= seq![0usize]);
            } else {
                match branch_type {
                    BranchType::RtnFunction => {
                        return None;
                    },
                    _ => {},
                }
            }
        }
        proof {
            let more = seen.push(b);
            assert(more =~= keys.take(k + 1));
            if k + 1 == keys.len() {
                assert(more =~= keys);
            }
            assert forall|x: int| 0 <= x < size implies #[trigger] is_marked(
                bb@,
                dict,
                types@,
                more,
                x,
            ) by {
                assert(is_marked(before, dict, types@, seen, x));
                assert(more.contains(x as usize) <==> seen.contains(x as usize) || x == b) by {
                    if seen.contains(x as usize) {
                        let i = choose|i: int| 0 <= i < seen.len() && seen[i] == x as usize;
                        assert(more[i] == x as usize);
                    }
                    assert(more[seen.len() as int] == b);
                }
                if x != b {
                    assert(bb@[x] == before[x]);
                }
            }
            seen = more;
        }
    }
    proof {
        assert forall|b: usize| #[trigger] types@.contains_key(b) implies seen.contains(b) by {
            assert(seen.to_set().contains(b));
        }
        assert forall|b: usize| #[trigger] is_non_term(types@, b) implies b < size && edges_of(
            dict,
            b,
        ) == Set::<usize>::empty() by {
            assert(types@.contains_key(b));
            let i = choose|i: int| 0 <= i < seen.len() && seen[i] == b;
            assert(seen[i] == b);
        }
        assert forall|b: usize| #[trigger] types@.contains_key(b) implies types@[b]
            != BranchType::RtnFunction by {
            let i = choose|i: int| 0 <= i < seen.len() && seen[i] == b;
            assert(seen[i] == b);
        }
        assert forall|b: int| 0 <= b < bb@.len() implies if is_non_term(types@, b as usize) {
            (#[trigger] bb@[b])@ == seq![0usize]
        } else {
            is_edge_boundary(bb@, dict, b)
        } by {
            assert(is_marked(bb@, dict, types@, seen, b));
            if is_non_term(types@, b as usize) {
                assert(types@.contains_key(b as usize));
            }
        }
    }
    Some(bb)
}

/// No branch is a comparison of returned values.
fn no_returned_values(types: &HashMap<usize, BranchType>) -> (r: bool)
    ensures
        r == (forall|b: usize| #[trigger]
            types@.contains_key(b) ==> types@[b] != BranchType::RtnFunction),
{
    let ghost mut seen: Seq<usize> = Seq::empty();
    for key in it: types.keys()
        invariant
            it.seq().unref().to_set() == types@.dom(),
            seen == it.seq().unref().take(it.index() as int),
            it.index() == it.seq().len() ==> seen.to_set() == types@.dom(),
            forall|i: int|
                0 <= i < seen.len() ==> types@[#[trigger] seen[i]] != BranchType::RtnFunction,
    {
        let ghost keys = it.seq().unref();
        let ghost k = it.index() as int;
        proof {
            assert(keys[k] == *key);
            assert(keys.to_set().contains(*key));
            assert(types@.contains_key(*key));
        }
        if let Some(branch_type) = types.get(key) {
            match branch_type {
                BranchType::RtnFunction => {
                    return false;
                },
                _ => {},
            }
        }
        proof {
            let more = seen.push(*key);
            assert(more =~= keys.take(k + 1));
            if k + 1 == keys.len() {
                assert(more =~= keys);
            }
            seen = more;
        }
    }
    proof {
        assert forall|b: usize| #[trigger] types@.contains_key(b) implies types@[b]
            != BranchType::RtnFunction by {
            assert(seen.to_set().contains(b));
            let i = choose|i: int| 0 <= i < seen.len() && seen[i] == b;
            assert(seen[i] == b);
        }
    }
    true
}

/// The boundary of a branch before anything was seen.
pub open spec fn is_full_boundary(
    bb: Seq<Vec<usize>>,
    dict: Map<usize, usize>,
    types: Map<usize, BranchType>,
    b: int,
) -> bool {
    if is_non_term(types, b as usize) {
        bb[b]@ == seq![0usize]
    } else {
        is_edge_boundary(bb, dict, b)
    }
}

/// Builds the boundary of every branch. `None` if the tables do not fit, see
/// [`tables_fit`].
fn boundaries(
    fast: &MapSizeData,
    full: &MapSizeData,
    dict: &HashMap<usize, usize>,
    types: &HashMap<usize, BranchType>,
    trace_types: &HashMap<usize, BranchType>,
) -> (r: Option<Vec<Vec<usize>>>)
    ensures
        match r {
            Some(bb) => {
                &&& tables_fit(*fast, *full, dict@, types@, trace_types@)
                &&& bb@.len() == fast.used_branch_map_size
                &&& forall|b: int|
                    0 <= b < bb@.len() ==> #[trigger] is_full_boundary(bb@, dict@, types@, b)
            },
            None => !tables_fit(*fast, *full, dict@, types@, trace_types@),
        },
{
    let edge_bb = match edge_boundary(dict, fast.used_branch_map_size) {
        Some(bb) => bb,
        None => {
            return None;
        },
    };
    let bb = match mark_non_term(edge_bb, types, Ghost(dict@)) {
        Some(bb) => bb,
        None => {
            return None;
        },
    };
    if !no_returned_values(trace_types) {
        return None;
    }
    proof {
        assert forall|b: int| 0 <= b < bb@.len() implies #[trigger] is_full_boundary(
            bb@,
            dict@,
            types@,
            b,
        ) by {
            assert(bb@[b]@.len() >= 0);
        }
    }
    let mut idx: usize = 1;
    while idx < full.real_branch_map_size
        invariant
            1 <= idx,
            full.real_branch_map_size >= 1 ==> idx <= full.real_branch_map_size,
            bb@.len() == fast.used_branch_map_size,
            forall|b: int|
                0 <= b < bb@.len() ==> #[trigger] is_full_boundary(bb@, dict@, types@, b),
            forall|b: usize| 1 <= b < idx ==> #[trigger] has_boundary(*fast, dict@, types@, b),
        decreases full.real_branch_map_size - idx,
    {
        if idx >= fast.used_branch_map_size {
            assert(!has_boundary(*fast, dict@, types@, idx));
            return None;
        }
        assert(is_full_boundary(bb@, dict@, types@, idx as int));
        if bb[idx].len() == 0 {
            proof {
                assert(edges_of(dict@, idx) =~= Set::empty()) by {
                    assert forall|e: usize| !edges_of(dict@, idx).contains(e) by {
                        assert(bb@[idx as int]@.contains(e) <==> edges_of(dict@, idx).contains(e));
                    }
                }
                assert(!has_boundary(*fast, dict@, types@, idx));
            }
            return None;
        }
        proof {
            if !is_non_term(types@, idx) {
                assert(bb@[idx as int]@.contains(bb@[idx as int]@[0]));
                assert(edges_of(dict@, idx).contains(bb@[idx as int]@[0]));
            }
        }
        idx = idx + 1;
    }
    Some(bb)
}

/// Tells whether the tables that a target sent can be used, see
/// [`tables_fit`].
pub fn check_tables(
    fast: &MapSizeData,
    full: &MapSizeData,
    dict: &HashMap<usize, usize>,
    types: &HashMap<usize, BranchType>,
    trace_types: &HashMap<usize, BranchType>,
) -> (r: bool)
    ensures
        r == tables_fit(*fast, *full, dict@, types@, trace_types@),
{
    boundaries(fast, full, dict, types, trace_types).is_some()
}

impl GlobalBranches {
    /// The state before anything was seen, with maps in `n` chunks.
    pub fn new(
        n: usize,
        fast_map_size_data: MapSizeData,
        full_map_size_data: MapSizeData,
        trace_map_size_data: MapSizeData,
        edge_to_pred_branch_dict: HashMap<usize, usize>,
        branch_type_dict: HashMap<usize, BranchType>,
        trace_branch_type_dict: HashMap<usize, BranchType>,
    ) -> (r: Self)
        requires
            0 < n,
            2 * n <= usize::MAX,
            tables_fit(
                fast_map_size_data,
                full_map_size_data,
                edge_to_pred_branch_dict@,
                branch_type_dict@,
                trace_branch_type_dict@,
            ),
        ensures
            r.wf(),
            r.is_fresh(),
            r.thread_num == n,
            r.fast_map_size_data == fast_map_size_data,
            r.full_map_size_data == full_map_size_data,
            r.trace_map_size_data == trace_map_size_data,
            r.edge_to_pred_branch_dict@ == edge_to_pred_branch_dict@,
            r.branch_type_dict@ == branch_type_dict@,
            r.trace_branch_type_dict@ == trace_branch_type_dict@,
    {
        let (virgin_branches, start_pos, end_pos) = create_chunks(
            255u8,
            fast_map_size_data.used_map_size,
            n,
        );
        let (tmouts_branches, tmouts_start, tmouts_end) = create_chunks(
            255u8,
            fast_map_size_data.used_map_size,
            n,
        );
        let (crashes_branches, crashes_start, crashes_end) = create_chunks(
            255u8,
            fast_map_size_data.used_map_size,
            n,
        );
        let no_seed = SeedInfo::default();
        let no_seeds: [SeedInfo; BRANCH_CONTEXT_CNT] = [no_seed;BRANCH_CONTEXT_CNT];
        let (edge_favor_map, favor_start, favor_end) = create_chunks(
            no_seeds,
            fast_map_size_data.used_map_size,
            n,
        );
        let (full_virgin_branches, full_start_pos, full_end_pos) = create_chunks(
            255u8,
            full_map_size_data.used_map_size,
            n,
        );
        let (branch_favor_map, branch_start_pos, branch_end_pos) = create_chunks(
            no_seeds,
            fast_map_size_data.used_branch_map_size,
            n,
        );
        let (branch_mutate_funcs, funcs_start, funcs_end) = create_chunks(
            BranchMutateInfo::default(),
            fast_map_size_data.used_branch_map_size,
            n,
        );
        proof {
            assert(tmouts_start@ =~= start_pos@ && tmouts_end@ =~= end_pos@);
            assert(crashes_start@ =~= start_pos@ && crashes_end@ =~= end_pos@);
            assert(favor_start@ =~= start_pos@ && favor_end@ =~= end_pos@);
            assert(funcs_start@ =~= branch_start_pos@ && funcs_end@ =~= branch_end_pos@);
        }
        let branch_boundary = match boundaries(
            &fast_map_size_data,
            &full_map_size_data,
            &edge_to_pred_branch_dict,
            &branch_type_dict,
            &trace_branch_type_dict,
        ) {
            Some(bb) => bb,
            None => Vec::new(),
        };
        let r = GlobalBranches {
            virgin_branches,
            tmouts_branches,
            crashes_branches,
            full_virgin_branches,
            edge_favor_map,
            global_branch_cov_map: filled(0u8, fast_map_size_data.used_branch_map_size / 8),
            branch_favor_map,
            branch_mutate_funcs,
            fast_map_size_data,
            full_map_size_data,
            trace_map_size_data,
            cov_edges: 0,
            cov_branches: 0,
            reached_branches: 0,
            thread_num: n,
            start_pos,
            end_pos,
            full_start_pos,
            full_end_pos,
            branch_start_pos,
            branch_end_pos,
            edge_to_pred_branch_dict,
            branch_type_dict,
            trace_branch_type_dict,
            branch_boundary,
        };
        proof {
            let bb = r.branch_boundary@;
            let dict = r.edge_to_pred_branch_dict@;
            let types = r.branch_type_dict@;
            assert forall|b: int| 0 <= b < bb.len() implies #[trigger] r.boundary_fits(b) by {
                assert(is_full_boundary(bb, dict, types, b));
                if !is_non_term(types, b as usize) {
                    assert forall|i: int| 0 <= i < bb[b]@.len() implies edges_of(
                        dict,
                        b as usize,
                    ).contains(#[trigger] bb[b]@[i]) by {
                        assert(bb[b]@.contains(bb[b]@[i]));
                    }
                }
            }
            assert forall|c: int, l: int|
                0 <= c < r.n() && 0 <= l < r.full_virgin_branches@[c]@.len() implies #[trigger]
                r.unseen_in_boundary(c, l) by {
                let e = (r.full_start_pos@[c] + l) as usize;
                if dict.contains_key(e) {
                    let b = dict[e];
                    assert(is_full_boundary(bb, dict, types, b as int));
                    assert(edges_of(dict, b).contains(e));
                    if is_non_term(types, b) {
                        assert(!(Set::<usize>::empty()).contains(e));
                    }
                    assert(bb[b as int]@.contains(e) <==> edges_of(dict, b).contains(e));
                }
            }
            assert forall|b: int| 0 <= b < bb.len() implies #[trigger] bb[b]@.to_set()
                == if is_non_term(types, b as usize) {
                set![0usize]
            } else {
                edges_of(dict, b as usize)
            } by {
                assert(is_full_boundary(bb, dict, types, b));
                if is_non_term(types, b as usize) {
                    assert(bb[b]@.to_set() =~= set![0usize]) by {
                        assert forall|x: usize| bb[b]@.to_set().contains(x) == (x == 0) by {
                            assert(bb[b]@[0] == 0);
                        }
                    }
                } else {
                    assert(bb[b]@.to_set() =~= edges_of(dict, b as usize)) by {
                        assert forall|x: usize|
                            bb[b]@.to_set().contains(x) == edges_of(dict, b as usize).contains(
                                x,
                            ) by {
                            assert(bb[b]@.contains(x) <==> edges_of(dict, b as usize).contains(x));
                        }
                    }
                }
            }
        }
        r
    }

    /// Edges seen, edges in all, and the share seen in hundredths of a
    /// percent, rounded down.
    pub fn get_edge_stats(&self) -> (r: (usize, usize, usize))
        requires
            self.fast_map_size_data.real_map_size > 0,
            self.cov_edges * 10000 <= usize::MAX,
        ensures
            r.0 == self.cov_edges,
            r.1 == self.fast_map_size_data.real_map_size,
            r.2 == self.cov_edges as int * 10000 / self.fast_map_size_data.real_map_size as int,
    {
        (
            self.cov_edges,
            self.fast_map_size_data.real_map_size,
            self.cov_edges * 10000 / self.fast_map_size_data.real_map_size,
        )
    }

    /// Branches covered, branches in all, and the share covered in hundredths
    /// of a percent, rounded down.
    pub fn get_branch_stats(&self) -> (r: (usize, usize, usize))
        requires
            self.fast_map_size_data.real_branch_map_size > 0,
            self.cov_branches * 10000 <= usize::MAX,
        ensures
            r.0 == self.cov_branches,
            r.1 == self.fast_map_size_data.real_branch_map_size,
            r.2 == self.cov_branches as int * 10000
                / self.fast_map_size_data.real_branch_map_size as int,
    {
        (
            self.cov_branches,
            self.fast_map_size_data.real_branch_map_size,
            self.cov_branches * 10000 / self.fast_map_size_data.real_branch_map_size,
        )
    }

    /// How many branches a seed came close to.
    pub fn get_reached_branches(&self) -> (r: usize)
        ensures
            r == self.reached_branches,
    {
        self.reached_branches
    }

    /// The chunk that owns branch `branch_id`.
    pub fn branch_chunk_of(&self, branch_id: usize) -> (c: usize)
        requires
            self.tables_wf(),
        ensures
            c < self.thread_num,
            self.branch_start_pos@[c as int] <= branch_id,
            c + 1 < self.thread_num ==> branch_id < self.branch_start_pos@[c + 1],
            branch_id < self.fast_map_size_data.used_branch_map_size ==> branch_id
                < self.branch_end_pos@[c as int],
    {
        proof {
            lemma_starts_sorted(
                self.branch_start_pos@,
                self.branch_end_pos@,
                self.fast_map_size_data.used_branch_map_size as nat,
                self.n(),
            );
        }
        let c: usize = chunk_of(&self.branch_start_pos, branch_id);
        c
    }
}

/// A branch has one bit in the map of those that are covered: eight of them
/// share a byte, the first the lowest bit.
pub proof fn branches_have_bits(map: Seq<u8>, b: int)
    requires
        0 <= b < 8 * map.len(),
    ensures
        is_covered(map, b) <==> (map[b / 8] as int / pow2((b % 8) as nat) as int) % 2 == 1,
{
    let x = map[b / 8];
    let k = (b % 8) as u8;
    vstd::bits::lemma_u8_shr_is_div(x, k);
    let y = x >> k;
    assert(y & 1 == y % 2) by (bit_vector);
}

} // verus!

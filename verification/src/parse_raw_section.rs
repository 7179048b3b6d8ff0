//! The tables that the targets send from their object file sections.
//!
//! A table is a list of records of two 64-bit numbers, lowest byte first.

use crate::branches::BranchType;
use crate::bytes::{le_u64, read_le_u64};
use crate::search::recorded::{eight_bytes, numbers_keep_their_bytes};
use std::collections::HashMap;
use vstd::prelude::*;

verus! {

broadcast use vstd::std_specs::hash::group_hash_axioms;

/// The first number of record `i`.
pub open spec fn record_key(raw: Seq<u8>, i: int) -> usize {
    le_u64(raw, 16 * i) as usize
}

/// The second number of record `i`.
pub open spec fn record_value(raw: Seq<u8>, i: int) -> u64 {
    le_u64(raw, 16 * i + 8)
}

/// The table holds whole records, and no two have one key.
pub open spec fn is_section(raw: Seq<u8>) -> bool {
    &&& raw.len() % 16 == 0
    &&& forall|i: int, j: int|
        0 <= i < j < raw.len() / 16 ==> #[trigger] record_key(raw, i) != #[trigger] record_key(
            raw,
            j,
        )
}

/// A table of branch types: all tags are known.
pub open spec fn is_type_section(raw: Seq<u8>) -> bool {
    &&& is_section(raw)
    &&& forall|i: int|
        0 <= i < raw.len() / 16 ==> BranchType::of_tag(#[trigger] record_value(raw, i)) is Some
}

/// The first `n` records as a map from edges to branches.
pub open spec fn edge_map(raw: Seq<u8>, n: int) -> Map<usize, usize>
    decreases n,
{
    if n <= 0 {
        Map::empty()
    } else {
        edge_map(raw, n - 1).insert(record_key(raw, n - 1), record_value(raw, n - 1) as usize)
    }
}

/// How many of the first `n` records lead to each branch.
pub open spec fn branch_counts(raw: Seq<u8>, n: int) -> Map<usize, usize>
    decreases n,
{
    if n <= 0 {
        Map::empty()
    } else {
        let rest = branch_counts(raw, n - 1);
        let b = record_value(raw, n - 1) as usize;
        rest.insert(
            b,
            if rest.contains_key(b) {
                (rest[b] + 1) as usize
            } else {
                1
            },
        )
    }
}

/// The first `n` records as a map from branches to their types.
pub open spec fn type_map(raw: Seq<u8>, n: int) -> Map<usize, BranchType>
    decreases n,
{
    if n <= 0 {
        Map::empty()
    } else {
        type_map(raw, n - 1).insert(
            record_key(raw, n - 1),
            BranchType::of_tag(record_value(raw, n - 1))->0,
        )
    }
}

/// Every record of a table can be looked up under its key.
pub proof fn records_are_found(raw: Seq<u8>, n: int, i: int)
    requires
        is_section(raw),
        0 <= i < n <= raw.len() / 16,
    ensures
        edge_map(raw, n).contains_key(record_key(raw, i)),
        edge_map(raw, n)[record_key(raw, i)] == record_value(raw, i) as usize,
        type_map(raw, n).contains_key(record_key(raw, i)),
        type_map(raw, n)[record_key(raw, i)] == BranchType::of_tag(record_value(raw, i))->0,
    decreases n,
{
    if i < n - 1 {
        records_are_found(raw, n - 1, i);
    }
}

fn read_record(raw: &Vec<u8>, at: usize) -> (r: (usize, u64))
    requires
        at % 16 == 0,
        at + 16 <= raw@.len(),
    ensures
        r.0 == record_key(raw@, at as int / 16),
        r.1 == record_value(raw@, at as int / 16),
{
    let key: u64 = read_le_u64(raw.as_slice(), at);
    let value: u64 = read_le_u64(raw.as_slice(), at + 8);
    (key as usize, value)
}

/// Tells whether a table is well formed, see [`is_section`].
pub fn check_section(raw: &Vec<u8>) -> (r: bool)
    ensures
        r == is_section(raw@),
{
    if raw.len() % 16 != 0 {
        return false;
    }
    let mut seen: HashMap<usize, usize> = HashMap::new();
    let mut at: usize = 0;
    while at < raw.len()
        invariant
            at % 16 == 0,
            at <= raw@.len(),
            raw@.len() % 16 == 0,
            forall|k: usize| #[trigger]
                seen@.contains_key(k) ==> 0 <= seen@[k] < at / 16 && record_key(
                    raw@,
                    seen@[k] as int,
                ) == k,
            forall|i: int|
                0 <= i < at / 16 ==> seen@.contains_key(#[trigger] record_key(raw@, i))
                    && seen@[record_key(raw@, i)] == i,
        decreases raw@.len() - at,
    {
        let (key, _value) = read_record(raw, at);
        if seen.contains_key(&key) {
            assert(record_key(raw@, seen@[key] as int) == record_key(raw@, at as int / 16));
            return false;
        }
        seen.insert(key, at / 16);
        at = at + 16;
    }
    assert forall|i: int, j: int| 0 <= i < j < raw@.len() / 16 implies #[trigger] record_key(raw@, i)
        != #[trigger] record_key(raw@, j) by {
        if record_key(raw@, i) == record_key(raw@, j) {
            assert(seen@[record_key(raw@, i)] == i);
            assert(seen@[record_key(raw@, j)] == j);
        }
    }
    true
}

/// Tells whether a table of branch types is well formed, see
/// [`is_type_section`].
pub fn check_type_section(raw: &Vec<u8>) -> (r: bool)
    ensures
        r == is_type_section(raw@),
{
    if !check_section(raw) {
        return false;
    }
    let mut at: usize = 0;
    while at < raw.len()
        invariant
            at % 16 == 0,
            at <= raw@.len(),
            raw@.len() % 16 == 0,
            forall|i: int|
                0 <= i < at / 16 ==> BranchType::of_tag(#[trigger] record_value(raw@, i)) is Some,
        decreases raw@.len() - at,
    {
        let (_key, value) = read_record(raw, at);
        if BranchType::from_tag(value).is_none() {
            assert(BranchType::of_tag(record_value(raw@, at as int / 16)) is None);
            return false;
        }
        at = at + 16;
    }
    true
}

/// Reads the table of edges and the branches before them. Also returns how
/// many edges each branch has.
pub fn parse_edge_to_pred_branch(edge_to_pred_branch_raw_data: Vec<u8>) -> (r: (
    HashMap<usize, usize>,
    HashMap<usize, usize>,
))
    requires
        is_section(edge_to_pred_branch_raw_data@),
    ensures
        r.0@ == edge_map(
            edge_to_pred_branch_raw_data@,
            edge_to_pred_branch_raw_data@.len() as int / 16,
        ),
        r.1@ == branch_counts(
            edge_to_pred_branch_raw_data@,
            edge_to_pred_branch_raw_data@.len() as int / 16,
        ),
{
    let raw = edge_to_pred_branch_raw_data;
    let mut edges: HashMap<usize, usize> = HashMap::new();
    let mut counts: HashMap<usize, usize> = HashMap::new();
    let mut at: usize = 0;
    assert(edges@ =~= edge_map(raw@, 0));
    assert(counts@ =~= branch_counts(raw@, 0));
    while at < raw.len()
        invariant
            at % 16 == 0,
            at <= raw@.len(),
            raw@.len() % 16 == 0,
            edges@ == edge_map(raw@, at as int / 16),
            counts@ == branch_counts(raw@, at as int / 16),
            forall|b: usize| #[trigger]
                counts@.contains_key(b) ==> counts@[b] <= at as int / 16,
        decreases raw@.len() - at,
    {
        let (edge_id, value) = read_record(&raw, at);
        let branch_id: usize = value as usize;
        let count: usize = match counts.get(&branch_id) {
            Some(n) => *n + 1,
            None => 1,
        };
        counts.insert(branch_id, count);
        edges.insert(edge_id, branch_id);
        at = at + 16;
    }
    (edges, counts)
}

/// Reads the table of branch types.
pub fn parse_branch_type(branch_type_raw_data: Vec<u8>) -> (r: HashMap<usize, BranchType>)
    requires
        is_type_section(branch_type_raw_data@),
    ensures
        r@ == type_map(branch_type_raw_data@, branch_type_raw_data@.len() as int / 16),
{
    let raw = branch_type_raw_data;
    let mut types: HashMap<usize, BranchType> = HashMap::new();
    let mut at: usize = 0;
    assert(types@ =~= type_map(raw@, 0));
    while at < raw.len()
        invariant
            at % 16 == 0,
            at <= raw@.len(),
            is_type_section(raw@),
            types@ == type_map(raw@, at as int / 16),
        decreases raw@.len() - at,
    {
        let (branch_id, tag) = read_record(&raw, at);
        if let Some(branch_type) = BranchType::from_tag(tag) {
            types.insert(branch_id, branch_type);
        } else {
            assert(BranchType::of_tag(record_value(raw@, at as int / 16)) is None);
        }
        at = at + 16;
    }
    types
}

/// A table is read record by record: the first eight bytes are a key and the
/// next eight what belongs to it, lowest byte first. What is in no record is
/// not in the map; and a branch counts as many edges as lead to it.
pub proof fn tables_hold_their_records(raw: Seq<u8>, n: int, i: int, key: usize)
    requires
        is_section(raw),
        0 <= i < n <= raw.len() / 16,
    ensures
        record_key(raw, i) == eight_bytes(raw, 16 * i) as u64 as usize,
        edge_map(raw, n)[eight_bytes(raw, 16 * i) as u64 as usize] == eight_bytes(raw, 16 * i + 8)
            as u64 as usize,
        edge_map(raw, n).contains_key(key) <==> exists|k: int|
            0 <= k < n && #[trigger] record_key(raw, k) == key,
        type_map(raw, n).contains_key(key) <==> exists|k: int|
            0 <= k < n && #[trigger] record_key(raw, k) == key,
{
    records_are_found(raw, n, i);
    numbers_keep_their_bytes(raw, 16 * i, 8);
    numbers_keep_their_bytes(raw, 16 * i + 8, 8);
    lemma_keys(raw, n, key);
}

proof fn lemma_keys(raw: Seq<u8>, n: int, key: usize)
    requires
        0 <= n,
    ensures
        edge_map(raw, n).contains_key(key) <==> exists|k: int|
            0 <= k < n && #[trigger] record_key(raw, k) == key,
        type_map(raw, n).contains_key(key) <==> exists|k: int|
            0 <= k < n && #[trigger] record_key(raw, k) == key,
    decreases n,
{
    if n > 0 {
        lemma_keys(raw, n - 1, key);
        if exists|k: int| 0 <= k < n && #[trigger] record_key(raw, k) == key {
            let k = choose|k: int| 0 <= k < n && #[trigger] record_key(raw, k) == key;
            if k < n - 1 {
                assert(exists|k: int| 0 <= k < n - 1 && #[trigger] record_key(raw, k) == key);
            }
        }
        if record_key(raw, n - 1) == key {
            assert(0 <= n - 1 < n && record_key(raw, n - 1) == key);
        }
        if exists|k: int| 0 <= k < n - 1 && #[trigger] record_key(raw, k) == key {
            let k = choose|k: int| 0 <= k < n - 1 && #[trigger] record_key(raw, k) == key;
            assert(0 <= k < n && record_key(raw, k) == key);
        }
    }
}

/// The records that lead to a branch.
pub open spec fn leading_to(raw: Seq<u8>, n: int, b: usize) -> Set<int> {
    Set::new(|i: int| 0 <= i < n && record_value(raw, i) as usize == b)
}

/// A branch counts as many edges as lead to it.
pub proof fn branches_count_their_edges(raw: Seq<u8>, n: int, b: usize)
    requires
        0 <= n <= usize::MAX,
    ensures
        leading_to(raw, n, b).finite(),
        leading_to(raw, n, b).len() <= n,
        branch_counts(raw, n).contains_key(b) <==> leading_to(raw, n, b).len() > 0,
        branch_counts(raw, n).contains_key(b) ==> branch_counts(raw, n)[b] == leading_to(
            raw,
            n,
            b,
        ).len(),
    decreases n,
{
    let all = leading_to(raw, n, b);
    if n == 0 {
        assert(all =~= Set::empty());
    } else {
        let rest = leading_to(raw, n - 1, b);
        branches_count_their_edges(raw, n - 1, b);
        if record_value(raw, n - 1) as usize == b {
            assert(all =~= rest.insert(n - 1));
            assert(!rest.contains(n - 1));
        } else {
            assert(all =~= rest);
        }
    }
}

/// The tags of the types of branches, from one to nine.
pub proof fn tags_name_types(tag: u64)
    ensures
        BranchType::of_tag(tag) is Some <==> 1 <= tag <= 9,
        BranchType::of_tag(1) == Some(BranchType::Cmp),
        BranchType::of_tag(2) == Some(BranchType::ConstCmp),
        BranchType::of_tag(3) == Some(BranchType::Switch),
        BranchType::of_tag(4) == Some(BranchType::FCmp),
        BranchType::of_tag(5) == Some(BranchType::Strcmp),
        BranchType::of_tag(6) == Some(BranchType::ConstStrcmp),
        BranchType::of_tag(7) == Some(BranchType::StrcmpNonTerm),
        BranchType::of_tag(8) == Some(BranchType::ConstStrcmpNonTerm),
        BranchType::of_tag(9) == Some(BranchType::RtnFunction),
{
}

} // verus!

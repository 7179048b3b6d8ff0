//! What the trace target records of a branch's operands.
//!
//! A record has a count and thirty-two units. A unit holds either two numbers
//! or two strings; which it is, the type of the branch tells.

use crate::bytes::{le_u16, le_u32, le_u64, read_le_u16, read_le_u32, read_le_u64};
use crate::config::UNIT_MAX_TRACE_CNT;
use vstd::prelude::*;

verus! {

/// The bytes of a unit.
pub const UNIT_SIZE: usize = 70;

/// The bytes of a record: the count, and the units.
pub const RECORD_SIZE: usize = 2242;

/// Two numbers that were compared.
#[derive(Debug, Clone, Copy)]
pub struct CmpTraceUnit {
    /// The length of the numbers, in bytes.
    pub len: u32,
    /// How well they matched; zero if nothing was recorded.
    pub match_num: u16,
    pub op1: u64,
    pub op2: u64,
    pub unused: [u8; 48],
}

/// The record of a branch that compares numbers.
#[derive(Debug, Clone, Copy)]
pub struct CmpTrace {
    pub size: u16,
    pub units: [CmpTraceUnit; UNIT_MAX_TRACE_CNT],
}

/// Two strings that were compared.
#[derive(Debug, Clone, Copy)]
pub struct StrcmpTraceUnit {
    /// The length of the first string.
    pub len1: u8,
    /// The length of the second string.
    pub len2: u8,
    /// How many bytes were to be compared.
    pub len3: u8,
    pub occu: u8,
    /// How well they matched; zero if nothing was recorded.
    pub match_num: u16,
    pub op1: [u8; 32],
    pub op2: [u8; 32],
}

/// The record of a branch that compares strings.
#[derive(Debug, Clone, Copy)]
pub struct StrcmpTrace {
    pub size: u16,
    pub units: [StrcmpTraceUnit; UNIT_MAX_TRACE_CNT],
}

impl Default for CmpTraceUnit {
    fn default() -> (r: Self)
        ensures
            r.len == 0 && r.match_num == 0 && r.op1 == 0 && r.op2 == 0,
            forall|i: int| 0 <= i < 48 ==> r.unused@[i] == 0,
    {
        CmpTraceUnit { len: 0, match_num: 0, op1: 0, op2: 0, unused: [0u8;48] }
    }
}

impl Default for CmpTrace {
    fn default() -> (r: Self)
        ensures
            r.size == 0,
            forall|i: int|
                0 <= i < 32 ==> (#[trigger] r.units@[i]).len == 0 && r.units@[i].match_num == 0
                    && r.units@[i].op1 == 0 && r.units@[i].op2 == 0,
    {
        CmpTrace { size: 0, units: [CmpTraceUnit::default();UNIT_MAX_TRACE_CNT] }
    }
}

impl Default for StrcmpTraceUnit {
    fn default() -> (r: Self)
        ensures
            r.len1 == 0 && r.len2 == 0 && r.len3 == 0 && r.occu == 0 && r.match_num == 0,
            forall|i: int| 0 <= i < 32 ==> r.op1@[i] == 0 && r.op2@[i] == 0,
    {
        StrcmpTraceUnit {
            len1: 0,
            len2: 0,
            len3: 0,
            occu: 0,
            match_num: 0,
            op1: [0u8;32],
            op2: [0u8;32],
        }
    }
}

impl Default for StrcmpTrace {
    fn default() -> (r: Self)
        ensures
            r.size == 0,
            forall|i: int|
                0 <= i < 32 ==> (#[trigger] r.units@[i]).len1 == 0 && r.units@[i].len2 == 0
                    && r.units@[i].len3 == 0 && r.units@[i].occu == 0 && r.units@[i].match_num
                    == 0,
    {
        StrcmpTrace { size: 0, units: [StrcmpTraceUnit::default();UNIT_MAX_TRACE_CNT] }
    }
}

/// Where unit `i` of the record of branch `id` begins.
pub open spec fn unit_offset(id: int, i: int) -> int {
    id * 2242 + 2 + i * 70
}

/// Something was recorded in the unit at `o`.
pub open spec fn match_at(raw: Seq<u8>, o: int) -> u16 {
    le_u16(raw, o + 4)
}

/// The length of the numbers in the unit at `o`.
pub open spec fn number_len(raw: Seq<u8>, o: int) -> u32 {
    le_u32(raw, o)
}

/// The first number of the unit at `o`.
pub open spec fn number_1(raw: Seq<u8>, o: int) -> u64 {
    le_u64(raw, o + 6)
}

/// The second number of the unit at `o`.
pub open spec fn number_2(raw: Seq<u8>, o: int) -> u64 {
    le_u64(raw, o + 14)
}

/// The smaller of two lengths.
pub open spec fn shorter(a: u8, b: u8) -> int {
    if a <= b {
        a as int
    } else {
        b as int
    }
}

/// The compared part of the first string of the unit at `o`.
pub open spec fn string_1(raw: Seq<u8>, o: int) -> Seq<u8> {
    raw.subrange(o + 6, o + 6 + shorter(raw[o], raw[o + 2]))
}

/// The compared part of the second string of the unit at `o`.
pub open spec fn string_2(raw: Seq<u8>, o: int) -> Seq<u8> {
    raw.subrange(o + 38, o + 38 + shorter(raw[o + 1], raw[o + 2]))
}

/// The first `len` bytes of a number, lowest first.
pub open spec fn low_bytes(x: u64, len: int) -> Seq<u8>
    decreases len,
{
    if len <= 0 {
        Seq::empty()
    } else {
        seq![(x % 256) as u8] + low_bytes(x / 256, len - 1)
    }
}

/// The unit at `o` holds numbers of a length that numbers can have.
pub open spec fn is_number_unit(raw: Seq<u8>, o: int) -> bool {
    let n = number_len(raw, o);
    n == 1 || n == 2 || n == 4 || n == 8
}

/// The unit at `o` holds strings that fit in it.
pub open spec fn is_string_unit(raw: Seq<u8>, o: int) -> bool {
    raw[o] <= 32 && raw[o + 1] <= 32 && raw[o + 2] <= 32 && raw[o + 3] == 0
}

/// Reads a unit with numbers.
pub fn read_numbers(raw: &[u8], o: usize) -> (r: CmpTraceUnit)
    requires
        o + UNIT_SIZE <= raw@.len(),
    ensures
        r.len == number_len(raw@, o as int),
        r.match_num == match_at(raw@, o as int),
        r.op1 == number_1(raw@, o as int),
        r.op2 == number_2(raw@, o as int),
{
    assert(raw.len() == raw@.len());
    CmpTraceUnit {
        len: read_le_u32(raw, o),
        match_num: read_le_u16(raw, o + 4),
        op1: read_le_u64(raw, o + 6),
        op2: read_le_u64(raw, o + 14),
        unused: [0u8;48],
    }
}

/// Copies `len` bytes from `at` on.
pub fn copy_bytes(raw: &[u8], at: usize, len: usize) -> (r: Vec<u8>)
    requires
        at + len <= raw@.len(),
    ensures
        r@ == raw@.subrange(at as int, at + len),
{
    let mut r: Vec<u8> = Vec::new();
    let mut k: usize = 0;
    assert(raw.len() == raw@.len());
    while k < len
        invariant
            k <= len,
            at + len <= raw@.len() <= usize::MAX,
            r@ == raw@.subrange(at as int, at + k),
        decreases len - k,
    {
        r.push(raw[at + k]);
        k = k + 1;
        assert(r@ =~= raw@.subrange(at as int, at + k));
    }
    r
}

/// Reads the compared parts of a unit with strings.
pub fn read_strings(raw: &[u8], o: usize) -> (r: (Vec<u8>, Vec<u8>))
    requires
        o + UNIT_SIZE <= raw@.len(),
        is_string_unit(raw@, o as int),
    ensures
        r.0@ == string_1(raw@, o as int),
        r.1@ == string_2(raw@, o as int),
{
    let len1: u8 = raw[o];
    let len2: u8 = raw[o + 1];
    let len3: u8 = raw[o + 2];
    let a: usize = if len1 <= len3 {
        len1 as usize
    } else {
        len3 as usize
    };
    let b: usize = if len2 <= len3 {
        len2 as usize
    } else {
        len3 as usize
    };
    (copy_bytes(raw, o + 6, a), copy_bytes(raw, o + 38, b))
}

/// The first `len` bytes of a number, lowest first.
pub fn number_bytes(x: u64, len: u32) -> (r: Vec<u8>)
    ensures
        r@ == low_bytes(x, len as int),
        r@.len() == len,
{
    let mut r: Vec<u8> = Vec::new();
    let mut y: u64 = x;
    let mut k: u32 = 0;
    while k < len
        invariant
            k <= len,
            r@.len() == k,
            r@ + low_bytes(y, len - k) =~= low_bytes(x, len as int),
        decreases len - k,
    {
        let ghost before = r@;
        let ghost tail = low_bytes(y / 256, len - k - 1);
        r.push((y % 256) as u8);
        assert(r@ + tail =~= before + (seq![(y % 256) as u8] + tail));
        y = y / 256;
        k = k + 1;
    }
    assert(low_bytes(y, 0) =~= Seq::empty());
    r
}

} // verus!

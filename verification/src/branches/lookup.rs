//! The buckets that hit counts fall in.

use vstd::prelude::*;

verus! {

/// The bucket of an edge's hit count: one bit for each of 1, 2, 3, 4-7, 8-15,
/// 16-31, 32-127 and 128-255.
pub open spec fn edge_bucket(v: u8) -> u8 {
    if v == 0 {
        0
    } else if v == 1 {
        1
    } else if v == 2 {
        2
    } else if v == 3 {
        4
    } else if v < 8 {
        8
    } else if v < 16 {
        16
    } else if v < 32 {
        32
    } else if v < 128 {
        64
    } else {
        128
    }
}

/// Looks up the bucket of a hit count.
pub fn edge_lookup(v: u8) -> (r: u8)
    ensures
        r == edge_bucket(v),
{
    if v <= 2 {
        v
    } else if v == 3 {
        4
    } else if v < 8 {
        8
    } else if v < 16 {
        16
    } else if v < 32 {
        32
    } else if v < 128 {
        64
    } else {
        128
    }
}

/// The context of a branch's hit count, from 1 to 8: 1, 2, 3, 4-6, 7-12,
/// 13-20, 21-35 and the rest.
pub open spec fn branch_bucket(v: u16) -> u16 {
    if v <= 3 {
        v
    } else if v <= 6 {
        4
    } else if v <= 12 {
        5
    } else if v <= 20 {
        6
    } else if v <= 35 {
        7
    } else {
        8
    }
}

/// Looks up the context of a hit count.
pub fn branch_lookup(v: u16) -> (r: u16)
    ensures
        r == branch_bucket(v),
{
    if v <= 3 {
        v
    } else if v <= 6 {
        4
    } else if v <= 12 {
        5
    } else if v <= 20 {
        6
    } else if v <= 35 {
        7
    } else {
        8
    }
}

/// The number of the lowest bit that is set; 8 if none is.
pub open spec fn lowest_bit(b: u8) -> int {
    if b & 1 != 0 {
        0
    } else if b & 2 != 0 {
        1
    } else if b & 4 != 0 {
        2
    } else if b & 8 != 0 {
        3
    } else if b & 16 != 0 {
        4
    } else if b & 32 != 0 {
        5
    } else if b & 64 != 0 {
        6
    } else if b & 128 != 0 {
        7
    } else {
        8
    }
}

/// A byte that is not zero has a lowest bit.
pub proof fn lowest_bit_found(b: u8)
    requires
        b != 0,
    ensures
        0 <= lowest_bit(b) < 8,
{
    assert(b != 0 ==> b & 1 != 0 || b & 2 != 0 || b & 4 != 0 || b & 8 != 0 || b & 16 != 0 || b & 32
        != 0 || b & 64 != 0 || b & 128 != 0) by (bit_vector);
}

/// The context of an edge's hit count bucket.
pub fn bucket_context(b: u8) -> (r: usize)
    ensures
        r == lowest_bit(b),
        b != 0 ==> r < 8,
{
    proof {
        if b != 0 {
            lowest_bit_found(b);
        }
    }
    if b & 1 != 0 {
        0
    } else if b & 2 != 0 {
        1
    } else if b & 4 != 0 {
        2
    } else if b & 8 != 0 {
        3
    } else if b & 16 != 0 {
        4
    } else if b & 32 != 0 {
        5
    } else if b & 64 != 0 {
        6
    } else if b & 128 != 0 {
        7
    } else {
        8
    }
}

/// Every hit count but zero has a bucket of one bit, and greater counts have
/// greater buckets; every context of a branch is one of eight.
pub proof fn buckets_are_ordered(v: u8, w: u8, x: u16, y: u16)
    ensures
        v == 0 <==> edge_bucket(v) == 0,
        v <= w ==> edge_bucket(v) <= edge_bucket(w),
        v != 0 ==> 0 <= lowest_bit(edge_bucket(v)) < 8,
        x == 0 <==> branch_bucket(x) == 0,
        x <= y ==> branch_bucket(x) <= branch_bucket(y),
        branch_bucket(x) <= 8,
{
    if v != 0 {
        lowest_bit_found(edge_bucket(v));
    }
}

/// One if the count has reached the bound.
pub open spec fn reached(v: int, bound: int) -> int {
    if v >= bound {
        1
    } else {
        0
    }
}

/// The buckets of an edge begin at the counts 1, 2, 3, 4, 8, 16, 32 and 128,
/// and each has the bit of its number; those of a branch begin at 1, 2, 3, 4,
/// 7, 13, 21 and 36.
pub proof fn buckets_begin_at_bounds(v: u8, x: u16)
    ensures
        v > 0 ==> lowest_bit(edge_bucket(v)) + 1 == reached(v as int, 1) + reached(v as int, 2)
            + reached(v as int, 3) + reached(v as int, 4) + reached(v as int, 8) + reached(
            v as int,
            16,
        ) + reached(v as int, 32) + reached(v as int, 128),
        v > 0 ==> {
            let b = edge_bucket(v);
            b == 1 || b == 2 || b == 4 || b == 8 || b == 16 || b == 32 || b == 64 || b == 128
        },
        branch_bucket(x) == reached(x as int, 1) + reached(x as int, 2) + reached(x as int, 3)
            + reached(x as int, 4) + reached(x as int, 7) + reached(x as int, 13) + reached(
            x as int,
            21,
        ) + reached(x as int, 36),
{
    single_bits_have_numbers(edge_bucket(v));
}

/// The lowest bit of a byte: the byte is a multiple of its value, and of
/// nothing twice as large.
pub proof fn lowest_bits_divide(b: u8)
    requires
        b != 0,
    ensures
        lowest_bit(b) == 0 <==> b % 2 == 1,
        lowest_bit(b) == 1 <==> b % 4 == 2,
        lowest_bit(b) == 2 <==> b % 8 == 4,
        lowest_bit(b) == 3 <==> b % 16 == 8,
        lowest_bit(b) == 4 <==> b % 32 == 16,
        lowest_bit(b) == 5 <==> b % 64 == 32,
        lowest_bit(b) == 6 <==> b % 128 == 64,
        lowest_bit(b) == 7 <==> b == 128,
{
    assert((b & 1 != 0) == (b % 2 == 1) && (b % 2 == 0 ==> (b & 2 != 0) == (b % 4 == 2)) && (b % 4
        == 0 ==> (b & 4 != 0) == (b % 8 == 4)) && (b % 8 == 0 ==> (b & 8 != 0) == (b % 16 == 8))
        && (b % 16 == 0 ==> (b & 16 != 0) == (b % 32 == 16)) && (b % 32 == 0 ==> (b & 32 != 0) == (b
        % 64 == 32)) && (b % 64 == 0 ==> (b & 64 != 0) == (b % 128 == 64)) && (b % 128 == 0 ==> (b
        & 128 != 0) == (b == 128))) by (bit_vector);
}

proof fn single_bits_have_numbers(b: u8)
    ensures
        b == 1 ==> lowest_bit(b) == 0,
        b == 2 ==> lowest_bit(b) == 1,
        b == 4 ==> lowest_bit(b) == 2,
        b == 8 ==> lowest_bit(b) == 3,
        b == 16 ==> lowest_bit(b) == 4,
        b == 32 ==> lowest_bit(b) == 5,
        b == 64 ==> lowest_bit(b) == 6,
        b == 128 ==> lowest_bit(b) == 7,
{
    if b != 0 {
        lowest_bits_divide(b);
    }
}

} // verus!

//! A single register: the largest update value seen so far in the high bits,
//! and in the low `d` bits which of the `d` values just below it were seen.

use vstd::prelude::*;

verus! {

/// The low `n` bits set.
pub open spec fn low_mask(n: u32) -> u64 {
    ((1u64 << n) - 1) as u64
}

/// `value >> delta`, or zero where `delta` is 64 or more.
pub open spec fn spec_shift_right(value: u64, delta: u64) -> u64 {
    if delta < 64 {
        value >> delta
    } else {
        0
    }
}

/// `value >> delta`, or zero where `delta` is 64 or more.
pub fn shift_right(value: u64, delta: u64) -> (r: u64)
    ensures
        r == spec_shift_right(value, delta),
{
    if delta < 64 {
        value >> delta
    } else {
        0
    }
}

/// The register `r` after an update value `k` was inserted.
pub open spec fn insert_register(r: u64, k: u64, d: u32) -> u64 {
    let u = r >> d;
    if k > u {
        let delta = (k - u) as u64;
        let base = k << d;
        if delta <= d {
            base | ((((1u64 << d) | (r & low_mask(d))) as u64) >> delta)
        } else {
            base
        }
    } else if k < u {
        let delta = (u - k) as u64;
        if delta <= d {
            r | (1u64 << ((d - delta) as u64))
        } else {
            r
        }
    } else {
        r
    }
}

/// The register that holds what either of two registers with the same `d` holds.
pub open spec fn spec_merge_register(r1: u64, r2: u64, d: u32) -> u64 {
    let u1 = r1 >> d;
    let u2 = r2 >> d;
    if u1 > u2 && u2 > 0 {
        r1 | spec_shift_right(((1u64 << d) | (r2 & low_mask(d))) as u64, (u1 - u2) as u64)
    } else if u2 > u1 && u1 > 0 {
        r2 | spec_shift_right(((1u64 << d) | (r1 & low_mask(d))) as u64, (u2 - u1) as u64)
    } else {
        r1 | r2
    }
}

/// `1 << d` is at least one.
pub proof fn lemma_one_shl(d: u32)
    by (bit_vector)
    requires
        d < 64,
    ensures
        1u64 << d >= 1,
{
}

/// Merges two registers with the same `d`.
pub fn merge_register(r1: u64, r2: u64, d: u32) -> (r: u64)
    requires
        d < 64,
    ensures
        r == spec_merge_register(r1, r2, d),
{
    let u1 = r1 >> d;
    let u2 = r2 >> d;
    if u1 > u2 && u2 > 0 {
        let x = 1u64 << d;
        proof {
            lemma_one_shl(d);
        }
        r1 | shift_right(x | (r2 & (x - 1)), u1 - u2)
    } else if u2 > u1 && u1 > 0 {
        let x = 1u64 << d;
        proof {
            lemma_one_shl(d);
        }
        r2 | shift_right(x | (r1 & (x - 1)), u2 - u1)
    } else {
        r1 | r2
    }
}

} // verus!

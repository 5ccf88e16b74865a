//! What a register means: the set of update values it holds, and how
//! inserting and merging act on that set.

use vstd::prelude::*;
use crate::bits::{bit_of, lemma_bits_ext, lemma_zero_bits};
use crate::register::{insert_register, low_mask, spec_merge_register, spec_shift_right};

verus! {

/// Register `r` holds update value `v`: either `v` is the largest value
/// `u = r >> d`, or `v` is one of the `d` values below `u` whose bit
/// (`v - u + d`) is set.
pub open spec fn holds(r: u64, d: u32, v: int) -> bool {
    let u = (r >> d) as int;
    v == u || (u - d <= v < u && bit_of(r, v - u + d))
}

/// `k` can be the largest value of a register with `d` history bits.
pub open spec fn fits_level(k: u64, d: u32) -> bool {
    d < 64 && (k << d) >> d == k
}

/// Facts about shifts and or-ing of 64-bit numbers, for the bit-vector solver.
proof fn lemma_or_shift_facts(r1: u64, r2: u64, k: u64, d: u32, s: u64, j: u64)
    by (bit_vector)
    requires
        d < 64,
    ensures
        d <= j < 64 ==> (r1 >> j) & 1 == ((r1 >> d) >> ((j - d) as u64)) & 1,
        (k << d) >> d == k && j < d ==> ((k << d) >> j) & 1 == 0,
        s < d && j < 64 ==> (r1 | (1u64 << s)) >> d == r1 >> d,
        s < d && j < 64 ==> (((r1 | (1u64 << s)) >> j) & 1 == 1) == ((r1 >> j) & 1 == 1 || j
            == s),
        (r1 | r2) >> d == (r1 >> d) | (r2 >> d),
        j < 64 ==> (((r1 | r2) >> j) & 1 == 1) == ((r1 >> j) & 1 == 1 || (r2 >> j) & 1 == 1),
        r1 | 0 == r1,
        0 | r2 == r2,
        r1 >> d == r2 >> d ==> (r1 >> d) | (r2 >> d) == r1 >> d,
        0u64 >> d == 0,
        0u64 | 0u64 == 0u64,
{
}

/// Facts that follow from the definitions of insertion and merging, for the
/// bit-vector solver.
proof fn lemma_register_def_facts(r: u64, r1: u64, r2: u64, k: u64, d: u32)
    by (bit_vector)
    requires
        d < 64,
    ensures
        (k << d) >> d == k && k > r >> d && k - (r >> d) > d ==> insert_register(r, k, d) == k
            << d,
        spec_merge_register(r1, r2, d) == spec_merge_register(r2, r1, d),
        spec_merge_register(r, 0, d) == r,
        spec_merge_register(0, r, d) == r,
        r1 >> d > r2 >> d && r2 >> d > 0 ==> spec_merge_register(r1, r2, d) >> d == r1 >> d,
{
}

/// Shifting zero by any amount below 64 gives zero.
pub proof fn lemma_zero_shift_any(a: u32)
    requires
        a < 64,
    ensures
        0u64 >> a == 0,
{
    lemma_or_shift_facts(0, 0, 0, a, 0, 0);
}

/// Shifting zero gives zero.
pub proof fn lemma_zero_shift(d: u32)
    requires
        d < 64,
    ensures
        0u64 >> d == 0,
{
    lemma_or_shift_facts(0, 0, 0, d, 0, 0);
}

proof fn lemma_high_bit(r: u64, d: u32, j: u64)
    requires
        d <= j < 64,
        d < 64,
    ensures
        (r >> j) & 1 == ((r >> d) >> ((j - d) as u64)) & 1,
{
    lemma_or_shift_facts(r, 0, 0, d, 0, j);
}

/// A register is determined by its largest value and the values it holds.
pub proof fn lemma_register_ext(r1: u64, r2: u64, d: u32)
    requires
        d < 64,
        r1 >> d == r2 >> d,
        forall|v: int| #[trigger] holds(r1, d, v) == holds(r2, d, v),
    ensures
        r1 == r2,
{
    let u = (r1 >> d) as int;
    assert forall|j: int| 0 <= j < 64 implies #[trigger] bit_of(r1, j) == bit_of(r2, j) by {
        if j < d {
            let v = u - d + j;
            assert(holds(r1, d, v) == holds(r2, d, v));
        } else {
            lemma_high_bit(r1, d, j as u64);
            lemma_high_bit(r2, d, j as u64);
        }
    }
    lemma_bits_ext(r1, r2);
}

proof fn lemma_insert_up_bits(r: u64, k: u64, d: u32, j: u64)
    by (bit_vector)
    requires
        d < 64,
        (k << d) >> d == k,
        k > r >> d,
        k - (r >> d) <= d,
        j < d,
    ensures
        insert_register(r, k, d) >> d == k,
        ((insert_register(r, k, d) >> j) & 1 == 1) == ((j + (k - (r >> d)) < d && (r >> ((j + (k
            - (r >> d))) as u64)) & 1 == 1) || j + (k - (r >> d)) == d),
{
}

proof fn lemma_insert_far_up(r: u64, k: u64, d: u32)
    requires
        d < 64,
        (k << d) >> d == k,
        k > r >> d,
        k - (r >> d) > d,
    ensures
        insert_register(r, k, d) == k << d,
{
    lemma_register_def_facts(r, 0, 0, k, d);
}

proof fn lemma_shl_low_bits(k: u64, d: u32, j: u64)
    requires
        d < 64,
        (k << d) >> d == k,
        j < d,
    ensures
        (k << d) >> d == k,
        ((k << d) >> j) & 1 == 0,
{
    lemma_or_shift_facts(0, 0, k, d, 0, j);
}

proof fn lemma_or_bit(r: u64, d: u32, s: u64, j: u64)
    requires
        s < d,
        d < 64,
        j < 64,
    ensures
        (r | (1u64 << s)) >> d == r >> d,
        (((r | (1u64 << s)) >> j) & 1 == 1) == ((r >> j) & 1 == 1 || j == s),
{
    lemma_or_shift_facts(r, 0, 0, d, s, j);
}

/// Inserting `k` keeps the values held and `k`, as far as they are within `d`
/// of the new largest value `max(u, k)`.
pub proof fn lemma_insert_holds(r: u64, k: u64, d: u32)
    requires
        fits_level(k, d),
    ensures
        insert_register(r, k, d) >> d == (if k > r >> d {
            k
        } else {
            r >> d
        }),
        forall|v: int| #[trigger]
            holds(insert_register(r, k, d), d, v) == ((holds(r, d, v) || v == k) && v >= (if k > r
                >> d {
                k
            } else {
                r >> d
            }) - d),
{
    let u = r >> d;
    let x = insert_register(r, k, d);
    if k > u {
        if k - u <= d {
            lemma_insert_up_bits(r, k, d, 0);
        } else {
            lemma_insert_far_up(r, k, d);
        }
    } else if k < u {
        if u - k <= d {
            lemma_or_bit(r, d, (d - (u - k)) as u64, 0);
        }
    }
    let m = if k > u {
        k
    } else {
        u
    };
    assert forall|v: int| #[trigger]
        holds(x, d, v) == ((holds(r, d, v) || v == k) && v >= m - d) by {
        if m - d <= v < m {
            let j = v - m + d;
            if k > u {
                if k - u <= d {
                    lemma_insert_up_bits(r, k, d, j as u64);
                } else {
                    lemma_insert_far_up(r, k, d);
                    lemma_shl_low_bits(k, d, j as u64);
                }
            } else if k < u {
                if u - k <= d {
                    lemma_or_bit(r, d, (d - (u - k)) as u64, j as u64);
                }
            }
        }
    }
}

/// A register as insertion and merging produce it from the empty register:
/// a zero register when its largest value is zero, and holding the value zero
/// (the empty register's own value) while that is within `d` of the largest.
pub open spec fn valid_register(r: u64, d: u32) -> bool {
    &&& (r >> d == 0 ==> r == 0)
    &&& (0 < r >> d <= d ==> holds(r, d, 0))
}

proof fn lemma_merge_apart_bits(r1: u64, r2: u64, d: u32, j: u64)
    by (bit_vector)
    requires
        d < 64,
        r1 >> d > r2 >> d,
        r2 >> d > 0,
        j < d,
    ensures
        ((spec_merge_register(r1, r2, d) >> j) & 1 == 1) == ((r1 >> j) & 1 == 1 || (j + ((r1
            >> d) - (r2 >> d)) <= d && (j + ((r1 >> d) - (r2 >> d)) == d || (r2 >> ((j + ((r1
            >> d) - (r2 >> d))) as u64)) & 1 == 1))),
{
}

proof fn lemma_merge_apart_high(r1: u64, r2: u64, d: u32)
    requires
        d < 64,
        r1 >> d > r2 >> d,
        r2 >> d > 0,
    ensures
        spec_merge_register(r1, r2, d) >> d == r1 >> d,
{
    lemma_register_def_facts(0, r1, r2, 0, d);
}

proof fn lemma_merge_symmetric_def(r1: u64, r2: u64, d: u32)
    requires
        d < 64,
    ensures
        spec_merge_register(r1, r2, d) == spec_merge_register(r2, r1, d),
{
    lemma_register_def_facts(0, r1, r2, 0, d);
}

proof fn lemma_or_bits(r1: u64, r2: u64, d: u32, j: u64)
    requires
        d < 64,
        j < 64,
    ensures
        (r1 | r2) >> d == (r1 >> d) | (r2 >> d),
        (((r1 | r2) >> j) & 1 == 1) == ((r1 >> j) & 1 == 1 || (r2 >> j) & 1 == 1),
        r1 | 0 == r1,
        0 | r2 == r2,
        r1 >> d == r2 >> d ==> (r1 >> d) | (r2 >> d) == r1 >> d,
        0u64 >> d == 0,
        0u64 | 0u64 == 0u64,
{
    lemma_or_shift_facts(r1, r2, 0, d, 0, j);
}

/// Merging two valid registers holds the values that either holds, as far as
/// they are within `d` of the larger of the two largest values.
proof fn lemma_merge_holds_ordered(r1: u64, r2: u64, d: u32)
    requires
        d < 64,
        valid_register(r1, d),
        valid_register(r2, d),
        r1 >> d >= r2 >> d,
    ensures
        spec_merge_register(r1, r2, d) >> d == r1 >> d,
        forall|v: int| #[trigger]
            holds(spec_merge_register(r1, r2, d), d, v) == ((holds(r1, d, v) || holds(r2, d, v))
                && v >= (r1 >> d) - d),
{
    let u1 = r1 >> d;
    let u2 = r2 >> d;
    let m = spec_merge_register(r1, r2, d);
    if u1 > u2 && u2 > 0 {
        lemma_merge_apart_high(r1, r2, d);
        assert forall|v: int| #[trigger]
            holds(m, d, v) == ((holds(r1, d, v) || holds(r2, d, v)) && v >= u1 - d) by {
            if u1 - d <= v < u1 {
                let j = v - u1 + d;
                lemma_merge_apart_bits(r1, r2, d, j as u64);
            }
        }
    } else if u1 == u2 {
        lemma_or_bits(r1, r2, d, 0);
        assert(m == r1 | r2);
        assert forall|v: int| #[trigger]
            holds(m, d, v) == ((holds(r1, d, v) || holds(r2, d, v)) && v >= u1 - d) by {
            if u1 - d <= v < u1 {
                let j = v - u1 + d;
                lemma_or_bits(r1, r2, d, j as u64);
            }
        }
    } else {
        assert(u2 == 0);
        assert(r2 == 0);
        lemma_or_bits(r1, r2, d, 0);
        assert(m == r1);
        assert forall|v: int| #[trigger]
            holds(m, d, v) == ((holds(r1, d, v) || holds(r2, d, v)) && v >= u1 - d) by {
            if holds(r2, d, v) {
                lemma_or_bits(0, 0, d, 0);
                assert(v == 0 || (-(d as int) <= v < 0 && bit_of(0, v + d)));
                if v != 0 {
                    lemma_zero_bits((v + d) as u64);
                }
            }
        }
    }
}

/// Merging two valid registers: the larger of the largest values, and the
/// values either holds within `d` of it.
pub proof fn lemma_merge_holds(r1: u64, r2: u64, d: u32)
    requires
        d < 64,
        valid_register(r1, d),
        valid_register(r2, d),
    ensures
        spec_merge_register(r1, r2, d) >> d == (if r1 >> d >= r2 >> d {
            r1 >> d
        } else {
            r2 >> d
        }),
        forall|v: int| #[trigger]
            holds(spec_merge_register(r1, r2, d), d, v) == ((holds(r1, d, v) || holds(r2, d, v))
                && v >= (if r1 >> d >= r2 >> d {
                r1 >> d
            } else {
                r2 >> d
            }) - d),
{
    if r1 >> d >= r2 >> d {
        lemma_merge_holds_ordered(r1, r2, d);
    } else {
        lemma_merge_symmetric_def(r1, r2, d);
        lemma_merge_holds_ordered(r2, r1, d);
    }
}

/// The order in which two update values are inserted does not matter.
pub proof fn lemma_insert_commutes(r: u64, a: u64, b: u64, d: u32)
    requires
        fits_level(a, d),
        fits_level(b, d),
    ensures
        insert_register(insert_register(r, a, d), b, d) == insert_register(
            insert_register(r, b, d),
            a,
            d,
        ),
{
    let ra = insert_register(r, a, d);
    let rb = insert_register(r, b, d);
    lemma_insert_holds(r, a, d);
    lemma_insert_holds(r, b, d);
    lemma_insert_holds(ra, b, d);
    lemma_insert_holds(rb, a, d);
    let x = insert_register(ra, b, d);
    let y = insert_register(rb, a, d);
    assert forall|v: int| #[trigger] holds(x, d, v) == holds(y, d, v) by {}
    lemma_register_ext(x, y, d);
}

/// Inserting an update value a second time changes nothing.
pub proof fn lemma_insert_idempotent(r: u64, k: u64, d: u32)
    requires
        fits_level(k, d),
    ensures
        insert_register(insert_register(r, k, d), k, d) == insert_register(r, k, d),
{
    let x = insert_register(r, k, d);
    lemma_insert_holds(r, k, d);
    lemma_insert_holds(x, k, d);
    let y = insert_register(x, k, d);
    assert forall|v: int| #[trigger] holds(y, d, v) == holds(x, d, v) by {}
    lemma_register_ext(x, y, d);
}

/// Inserting a positive update value keeps a register valid.
pub proof fn lemma_insert_valid(r: u64, k: u64, d: u32)
    requires
        valid_register(r, d),
        fits_level(k, d),
        k >= 1,
    ensures
        valid_register(insert_register(r, k, d), d),
{
    lemma_insert_holds(r, k, d);
    let x = insert_register(r, k, d);
    if r >> d == 0 {
        assert(holds(r, d, 0));
    }
    assert(holds(x, d, 0) == ((holds(r, d, 0) || 0 == k) && 0 >= (x >> d) - d));
}

/// Merging keeps registers valid.
pub proof fn lemma_merge_valid(r1: u64, r2: u64, d: u32)
    requires
        d < 64,
        valid_register(r1, d),
        valid_register(r2, d),
    ensures
        valid_register(spec_merge_register(r1, r2, d), d),
{
    lemma_merge_holds(r1, r2, d);
    let m = spec_merge_register(r1, r2, d);
    if m >> d == 0 {
        assert(r1 >> d == 0 && r2 >> d == 0);
        assert(r1 == 0 && r2 == 0);
        lemma_or_bits(0, 0, d, 0);
    }
    assert(holds(m, d, 0) == ((holds(r1, d, 0) || holds(r2, d, 0)) && 0 >= (m >> d) - d));
    if 0 < m >> d <= d {
        if r1 >> d >= r2 >> d {
            assert(holds(r1, d, 0));
        } else {
            assert(holds(r2, d, 0));
        }
    }
}

/// Merging with the empty register changes nothing.
pub proof fn lemma_merge_empty(r: u64, d: u32)
    requires
        d < 64,
    ensures
        spec_merge_register(r, 0, d) == r,
        spec_merge_register(0, r, d) == r,
{
    lemma_register_def_facts(r, 0, 0, 0, d);
}

/// Merging does not depend on the order of the two registers.
pub proof fn lemma_merge_commutes(r1: u64, r2: u64, d: u32)
    requires
        d < 64,
    ensures
        spec_merge_register(r1, r2, d) == spec_merge_register(r2, r1, d),
{
    lemma_merge_symmetric_def(r1, r2, d);
}

/// Inserting into one side of a merge is inserting into the merge.
pub proof fn lemma_merge_insert(r1: u64, r2: u64, k: u64, d: u32)
    requires
        valid_register(r1, d),
        valid_register(r2, d),
        fits_level(k, d),
        k >= 1,
    ensures
        spec_merge_register(r1, insert_register(r2, k, d), d) == insert_register(
            spec_merge_register(r1, r2, d),
            k,
            d,
        ),
{
    let r2k = insert_register(r2, k, d);
    let m = spec_merge_register(r1, r2, d);
    lemma_insert_holds(r2, k, d);
    lemma_insert_valid(r2, k, d);
    lemma_merge_holds(r1, r2k, d);
    lemma_merge_holds(r1, r2, d);
    lemma_insert_holds(m, k, d);
    let x = spec_merge_register(r1, r2k, d);
    let y = insert_register(m, k, d);
    assert forall|v: int| #[trigger] holds(x, d, v) == holds(y, d, v) by {}
    lemma_register_ext(x, y, d);
}

} // verus!

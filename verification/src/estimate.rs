//! The integer part of the cardinality estimate: what each register
//! contributes to the likelihood function of the distinct count.

use vstd::prelude::*;
use vstd::arithmetic::power2::pow2;
use crate::bits::bit_of;
use crate::downsize_laws::max_level;
use crate::params::valid_params;
use crate::sketch::ExaLogLog;
use crate::laws::levels_bounded;

verus! {

/// The number of ones in the binary representation of `x`.
pub open spec fn spec_count_ones(x: u64) -> nat
    decreases x,
{
    if x == 0 {
        0
    } else {
        (x % 2) as nat + spec_count_ones(x / 2)
    }
}

/// `u64::count_ones` returns the number of ones in the binary
/// representation of its argument, as std documents it.
pub assume_specification[ u64::count_ones ](x: u64) -> (r: u32)
    ensures
        r == spec_count_ones(x),
;

/// The number of set bits of `x` at positions `lo..hi` (positions outside
/// `0..64` count as clear).
pub open spec fn bit_count(x: u64, lo: int, hi: int) -> nat
    decreases hi - lo,
{
    if hi <= lo {
        0
    } else {
        bit_count(x, lo, hi - 1) + (if bit_of(x, hi - 1) {
            1nat
        } else {
            0nat
        })
    }
}

proof fn lemma_half_bits(x: u64, j: u64)
    by (bit_vector)
    ensures
        j < 63 ==> (x >> (j + 1)) & 1 == ((x / 2) >> j) & 1,
        ((x / 2) >> 63u64) & 1 == 0,
        (x >> 0u64) & 1 == x % 2,
{
}

/// Counting from `lo + 1` in `x` is counting from `lo` in `x / 2`.
proof fn lemma_bit_count_half(x: u64, lo: int, hi: int)
    requires
        0 <= lo,
        hi <= 64,
    ensures
        bit_count(x, lo + 1, hi + 1) == bit_count(x / 2, lo, hi),
    decreases hi - lo,
{
    if hi > lo {
        lemma_bit_count_half(x, lo, hi - 1);
        lemma_half_bits(x, (hi - 1) as u64);
        if hi - 1 == 63 {
            crate::bits::lemma_bit_01(x / 2, 63);
        }
    }
}

/// `bit_count` over `lo..hi` splits at any `mid` in between.
pub proof fn lemma_bit_count_split(x: u64, lo: int, mid: int, hi: int)
    requires
        lo <= mid <= hi,
    ensures
        bit_count(x, lo, hi) == bit_count(x, lo, mid) + bit_count(x, mid, hi),
    decreases hi - mid,
{
    if hi > mid {
        lemma_bit_count_split(x, lo, mid, hi - 1);
    }
}

/// The number of ones of `x` is the number of its set bits.
pub proof fn lemma_count_ones_bits(x: u64)
    ensures
        spec_count_ones(x) == bit_count(x, 0, 64),
    decreases x,
{
    if x == 0 {
        lemma_bit_count_zero(0, 64);
    } else {
        lemma_count_ones_bits(x / 2);
        lemma_bit_count_split(x, 0, 1, 65);
        lemma_bit_count_half(x, 0, 64);
        lemma_half_bits(x, 0);
        crate::bits::lemma_bit_01(x, 0);
        assert(bit_count(x, 0, 0) == 0);
        assert(bit_count(x, 0, 1) == (if bit_of(x, 0) { 1nat } else { 0nat }));
        assert(bit_count(x, 0, 65) == bit_count(x, 0, 64)) by {
            lemma_bit_count_split(x, 0, 64, 65);
        }
        assert(bit_count(x / 2, 0, 64) == bit_count(x / 2, 0, 63)) by {
            lemma_bit_count_split(x / 2, 0, 63, 64);
        }
    }
}

/// Zero has no set bits.
proof fn lemma_bit_count_zero(lo: int, hi: int)
    ensures
        bit_count(0, lo, hi) == 0,
    decreases hi - lo,
{
    if hi > lo {
        lemma_bit_count_zero(lo, hi - 1);
        if 0 <= hi - 1 < 64 {
            crate::bits::lemma_zero_bits((hi - 1) as u64);
        }
    }
}

/// The highest level of a sketch: `63 - t - p`.
pub open spec fn top_level(t: u32, p: u32) -> int {
    63 - t - p
}

/// The level of update value `k >= 1`: `(k - 1) / 2^t`, capped at the top level.
pub open spec fn level_of(k: int, t: u32, p: u32) -> int {
    let j = (k - 1) / (pow2(t as nat) as int);
    if j < top_level(t, p) {
        j
    } else {
        top_level(t, p)
    }
}

/// The weight of update value `k`: `2^(64 - p - phi(k))`, with
/// `phi(k) = t + 1 + level_of(k)`.
pub open spec fn value_weight(k: int, t: u32, p: u32) -> int {
    pow2((top_level(t, p) - level_of(k, t, p)) as nat) as int
}

/// The scaled probability that no update value above `u` occurs in a register
/// whose largest value is `u`.
pub open spec fn omega(u: int, t: u32, p: u32) -> int {
    if u == 0 {
        pow2((64 - p) as nat) as int
    } else {
        ((level_of(u, t, p) + 2) * pow2(t as nat) - u) * value_weight(u, t, p)
    }
}

/// Bit position in the register of update value `k`, below the largest `u`.
pub open spec fn value_pos(k: int, u: int, d: u32) -> int {
    k + d - u
}

/// The sum of the weights of the values `lo..hi` that register `r` does not hold.
pub open spec fn zero_weights(r: u64, u: int, d: u32, t: u32, p: u32, lo: int, hi: int) -> int
    decreases hi - lo,
{
    if hi <= lo {
        0
    } else {
        zero_weights(r, u, d, t, p, lo, hi - 1) + (if bit_of(r, value_pos(hi - 1, u, d)) {
            0
        } else {
            value_weight(hi - 1, t, p)
        })
    }
}

/// The number of values `lo..hi` at level `i` that register `r` holds.
pub open spec fn held_at_level(r: u64, u: int, d: u32, t: u32, p: u32, lo: int, hi: int, i: int) -> int
    decreases hi - lo,
{
    if hi <= lo {
        0
    } else {
        held_at_level(r, u, d, t, p, lo, hi - 1, i) + (if bit_of(r, value_pos(hi - 1, u, d))
            && level_of(hi - 1, t, p) == i {
            1int
        } else {
            0int
        })
    }
}

/// The smallest update value whose bit a register with largest value `u` keeps.
pub open spec fn window_low(u: int, d: u32) -> int {
    if u - d > 1 {
        u - d
    } else {
        1
    }
}

/// What register `r` adds to the first coefficient of the likelihood function:
/// the probability that no hash would change it, scaled by `2^64`.
pub open spec fn spec_contribute(r: u64, t: u32, d: u32, p: u32) -> int {
    let u = (r >> d) as int;
    omega(u, t, p) + zero_weights(r, u, d, t, p, window_low(u, d), u)
}

/// What register `r` adds to the count of values at level `i`: its largest
/// value and the values it holds below it.
pub open spec fn contribute_count(r: u64, t: u32, d: u32, p: u32, i: int) -> int {
    let u = (r >> d) as int;
    (if u >= 1 && level_of(u, t, p) == i {
        1int
    } else {
        0int
    }) + held_at_level(r, u, d, t, p, window_low(u, d), u, i)
}

/// Sums over `lo..hi` split at any `mid` in between.
pub proof fn lemma_sums_split(r: u64, u: int, d: u32, t: u32, p: u32, lo: int, mid: int, hi: int)
    requires
        lo <= mid <= hi,
    ensures
        zero_weights(r, u, d, t, p, lo, hi) == zero_weights(r, u, d, t, p, lo, mid) + zero_weights(
            r,
            u,
            d,
            t,
            p,
            mid,
            hi,
        ),
        forall|i: int|
            #[trigger] held_at_level(r, u, d, t, p, lo, hi, i) == held_at_level(
                r,
                u,
                d,
                t,
                p,
                lo,
                mid,
                i,
            ) + held_at_level(r, u, d, t, p, mid, hi, i),
    decreases hi - mid,
{
    if hi > mid {
        lemma_sums_split(r, u, d, t, p, lo, mid, hi - 1);
        assert forall|i: int|
            #[trigger] held_at_level(r, u, d, t, p, lo, hi, i) == held_at_level(r, u, d, t, p, lo, mid, i)
                + held_at_level(r, u, d, t, p, mid, hi, i) by {
            assert(held_at_level(r, u, d, t, p, lo, hi - 1, i) == held_at_level(r, u, d, t, p, lo, mid, i)
                + held_at_level(r, u, d, t, p, mid, hi - 1, i));
        }
    } else {
        assert forall|i: int|
            #[trigger] held_at_level(r, u, d, t, p, lo, hi, i) == held_at_level(r, u, d, t, p, lo, mid, i)
                + held_at_level(r, u, d, t, p, mid, hi, i) by {
            assert(held_at_level(r, u, d, t, p, mid, hi, i) == 0);
        }
    }
}

proof fn lemma_not_bit(r: u64, j: u64)
    by (bit_vector)
    requires
        j < 64,
    ensures
        ((!r >> j) & 1 == 1) == !((r >> j) & 1 == 1),
{
}

/// Over values of one level, the weights of the values not held add up to
/// the level's weight times the number of clear bits, and the values held are
/// the set bits.
pub proof fn lemma_sums_one_level(r: u64, u: int, d: u32, t: u32, p: u32, lo: int, hi: int, lev: int)
    requires
        lo <= hi,
        0 <= value_pos(lo, u, d),
        value_pos(hi, u, d) <= 64,
        forall|k: int| lo <= k < hi ==> #[trigger] level_of(k, t, p) == lev,
        0 <= lev <= top_level(t, p),
    ensures
        zero_weights(r, u, d, t, p, lo, hi) == pow2((top_level(t, p) - lev) as nat) * bit_count(
            !r,
            value_pos(lo, u, d),
            value_pos(hi, u, d),
        ),
        forall|i: int|
            #[trigger] held_at_level(r, u, d, t, p, lo, hi, i) == if i == lev {
                bit_count(r, value_pos(lo, u, d), value_pos(hi, u, d)) as int
            } else {
                0
            },
    decreases hi - lo,
{
    if hi > lo {
        lemma_sums_one_level(r, u, d, t, p, lo, hi - 1, lev);
        let j = value_pos(hi - 1, u, d);
        lemma_not_bit(r, j as u64);
        assert(level_of(hi - 1, t, p) == lev);
        let w = pow2((top_level(t, p) - lev) as nat) as int;
        let c = bit_count(!r, value_pos(lo, u, d), value_pos(hi - 1, u, d)) as int;
        assert(0 <= j < 64);
        assert(bit_of(!r, j) == !bit_of(r, j));
        assert(value_weight(hi - 1, t, p) == w);
        assert(value_pos(hi, u, d) == j + 1);
        assert(bit_count(!r, value_pos(lo, u, d), j + 1) == c + (if bit_of(!r, j) { 1int } else { 0int }));
        assert(zero_weights(r, u, d, t, p, lo, hi) == w * c + (if bit_of(!r, j) { w } else { 0 }));
        assert(w * c + (if bit_of(!r, j) { w } else { 0 }) == w * (c + (if bit_of(!r, j) { 1int } else { 0int }))) by (nonlinear_arith);
        assert(zero_weights(r, u, d, t, p, lo, hi) == w * bit_count(!r, value_pos(lo, u, d), value_pos(hi, u, d)));
        assert forall|i: int|
            #[trigger] held_at_level(r, u, d, t, p, lo, hi, i) == if i == lev {
                bit_count(r, value_pos(lo, u, d), value_pos(hi, u, d)) as int
            } else {
                0
            } by {
            assert(held_at_level(r, u, d, t, p, lo, hi - 1, i) == if i == lev {
                bit_count(r, value_pos(lo, u, d), value_pos(hi - 1, u, d)) as int
            } else {
                0
            });
        }
    } else {
        assert(bit_count(!r, value_pos(lo, u, d), value_pos(hi, u, d)) == 0);
        assert(pow2((top_level(t, p) - lev) as nat) * 0 == 0);
        assert forall|i: int|
            #[trigger] held_at_level(r, u, d, t, p, lo, hi, i) == if i == lev {
                bit_count(r, value_pos(lo, u, d), value_pos(hi, u, d)) as int
            } else {
                0
            } by {
            assert(held_at_level(r, u, d, t, p, lo, hi, i) == 0);
            assert(bit_count(r, value_pos(lo, u, d), value_pos(hi, u, d)) == 0);
        }
    }
}


/// Bit `j` of `m` is set exactly for the positions `lo <= j < hi`.
pub open spec fn bits_in(m: u64, lo: int, hi: int) -> bool {
    forall|j: int| 0 <= j < 64 ==> (#[trigger] bit_of(m, j) <==> lo <= j < hi)
}

/// `x`, or zero where `x` is negative.
pub open spec fn clamp0(x: int) -> int {
    if x > 0 {
        x
    } else {
        0
    }
}

/// Facts about single bits of masks, for the bit-vector solver.
proof fn lemma_mask_bit_facts(x: u64, m: u64, s: u64, w: u32, j: u64)
    by (bit_vector)
    requires
        j < 64,
    ensures
        (((x & m) >> j) & 1 == 1) == ((x >> j) & 1 == 1 && (m >> j) & 1 == 1),
        s < 64 ==> ((((0xffff_ffff_ffff_ffffu64 << s) >> j) & 1 == 1) == (j >= s)),
        s < 64 ==> (((((1u64 << s) - 1u64) as u64 >> j) & 1 == 1) == (j < s)),
        (((m ^ x) >> j) & 1 == 1) == (((m >> j) & 1 == 1) != ((x >> j) & 1 == 1)),
        w < 64 ==> ((((m >> w) >> j) & 1 == 1) == (j + w < 64 && (m >> ((j + w) as u64)) & 1
            == 1)),
        (((!m) >> j) & 1 == 1) == !((m >> j) & 1 == 1),
        s < 64 ==> (1u64 << s) >= 1,
        w < 64 ==> ((((((m as i64) >> w) as u64) >> j) & 1 == 1) == (if j + w < 64 {
            (m >> ((j + w) as u64)) & 1 == 1
        } else {
            (m >> 63u64) & 1 == 1
        })),
{
}

/// Shifts the 64 bits of `value` right by `shift`, copying the top bit into
/// the vacated positions.
pub fn arithmetic_shr_u64(value: u64, shift: u32) -> (r: u64)
    requires
        shift < 64,
    ensures
        forall|j: int|
            0 <= j < 64 ==> #[trigger] bit_of(r, j) == if j + shift < 64 {
                bit_of(value, j + shift)
            } else {
                bit_of(value, 63)
            },
{
    let r = ((value as i64) >> shift) as u64;
    proof {
        assert forall|j: int| 0 <= j < 64 implies #[trigger] bit_of(r, j) == if j + shift < 64 {
            bit_of(value, j + shift)
        } else {
            bit_of(value, 63)
        } by {
            lemma_mask_bit_facts(0, value, 0, shift, j as u64);
        }
    }
    r
}

/// The mask of all positions from `s` up.
proof fn lemma_high_mask(s: u64)
    requires
        s < 64,
    ensures
        bits_in(0xffff_ffff_ffff_ffffu64 << s, s as int, 64),
{
    assert forall|j: int| 0 <= j < 64 implies (#[trigger] bit_of(0xffff_ffff_ffff_ffffu64 << s, j)
        <==> s <= j < 64) by {
        lemma_mask_bit_facts(0, 0, s, 0, j as u64);
    }
}

/// The mask of all positions below `s`.
proof fn lemma_low_mask(s: u64)
    requires
        s < 64,
    ensures
        bits_in(((1u64 << s) - 1u64) as u64, 0, s as int),
{
    assert forall|j: int| 0 <= j < 64 implies (#[trigger] bit_of(((1u64 << s) - 1u64) as u64, j)
        <==> 0 <= j < s) by {
        lemma_mask_bit_facts(0, 0, s, 0, j as u64);
    }
}


/// The positions of a mask of positions `lo..hi`, intersected with `s..e`.
proof fn lemma_and_masks(m1: u64, m2: u64, lo: int, hi: int, s: int, e: int)
    requires
        bits_in(m1, lo, hi),
        bits_in(m2, s, e),
    ensures
        bits_in(m1 & m2, if lo > s { lo } else { s }, if hi < e { hi } else { e }),
{
    assert forall|j: int| 0 <= j < 64 implies (#[trigger] bit_of(m1 & m2, j) <==> (if lo > s {
        lo
    } else {
        s
    }) <= j < (if hi < e {
        hi
    } else {
        e
    })) by {
        lemma_mask_bit_facts(m1, m2, 0, 0, j as u64);
        assert(bit_of(m1, j) <==> lo <= j < hi);
        assert(bit_of(m2, j) <==> s <= j < e);
    }
}

/// The complement of a mask of the positions from `s` up.
proof fn lemma_not_high_mask(m: u64, s: int)
    requires
        bits_in(m, s, 64),
    ensures
        bits_in(!m, 0, s),
{
    assert forall|j: int| 0 <= j < 64 implies (#[trigger] bit_of(!m, j) <==> 0 <= j < s) by {
        lemma_mask_bit_facts(0, m, 0, 0, j as u64);
        assert(bit_of(m, j) <==> s <= j < 64);
    }
}

/// A mask of positions `lo..hi` shifted right by `w`.
proof fn lemma_shr_mask(m: u64, lo: int, hi: int, w: u32)
    requires
        bits_in(m, lo, hi),
        0 <= lo,
        hi <= 64,
        w < 64,
    ensures
        bits_in(m >> w, clamp0(lo - w), clamp0(hi - w)),
{
    assert forall|j: int| 0 <= j < 64 implies (#[trigger] bit_of(m >> w, j) <==> clamp0(lo - w)
        <= j < clamp0(hi - w)) by {
        lemma_mask_bit_facts(0, m, 0, w, j as u64);
        if j + w < 64 {
            assert(bit_of(m, j + w) <==> lo <= j + w < hi);
        }
    }
}

/// The mask of the positions from `s` up, with the positions `w` below it
/// cleared by xor with its sign-extending shift.
proof fn lemma_xor_shr_mask(m: u64, a: u64, s: int, w: u32)
    requires
        bits_in(m, s, 64),
        0 <= s < 64,
        w < 64,
        forall|j: int|
            0 <= j < 64 ==> #[trigger] bit_of(a, j) == if j + w < 64 {
                bit_of(m, j + w)
            } else {
                bit_of(m, 63)
            },
    ensures
        bits_in(m ^ a, clamp0(s - w), s),
{
    assert(bit_of(m, 63));
    assert forall|j: int| 0 <= j < 64 implies (#[trigger] bit_of(m ^ a, j) <==> clamp0(s - w) <= j
        < s) by {
        lemma_mask_bit_facts(a, m, 0, 0, j as u64);
        assert(bit_of(m, j) <==> s <= j < 64);
        assert(bit_of(a, j) == if j + w < 64 {
            bit_of(m, j + w)
        } else {
            bit_of(m, 63)
        });
        if j + w < 64 {
            assert(bit_of(m, j + w) <==> s <= j + w < 64);
        }
    }
}

/// A mask of positions `lo..hi` is nonzero exactly when the range is not empty.
proof fn lemma_mask_nonzero(m: u64, lo: int, hi: int)
    requires
        bits_in(m, lo, hi),
        0 <= lo,
        hi <= 64,
    ensures
        (m != 0) == (lo < hi),
{
    if lo < hi {
        assert(bit_of(m, lo));
        crate::bits::lemma_zero_bits(lo as u64);
    } else {
        assert forall|j: int| 0 <= j < 64 implies #[trigger] bit_of(m, j) == bit_of(0, j) by {
            crate::bits::lemma_zero_bits(j as u64);
        }
        crate::bits::lemma_bits_ext(m, 0);
    }
}

/// Counting the set bits of `x & m` below `h`, for a mask `m` of positions `lo..hi`.
proof fn lemma_bit_count_masked_prefix(x: u64, m: u64, lo: int, hi: int, h: int)
    requires
        bits_in(m, lo, hi),
        0 <= lo <= hi <= 64,
        0 <= h <= 64,
    ensures
        bit_count(x & m, 0, h) == bit_count(
            x,
            if lo < h { lo } else { h },
            if hi < h { hi } else { h },
        ),
    decreases h,
{
    if h > 0 {
        lemma_bit_count_masked_prefix(x, m, lo, hi, h - 1);
        lemma_mask_bit_facts(x, m, 0, 0, (h - 1) as u64);
        assert(bit_of(m, h - 1) <==> lo <= h - 1 < hi);
        if lo < h && h <= hi {
            lemma_bit_count_split(x, lo, h - 1, h);
        }
    }
}

/// The number of ones of `x & m`, for a mask `m` of positions `lo..hi`, is
/// the number of set bits of `x` in that range.
proof fn lemma_count_ones_masked(x: u64, m: u64, lo: int, hi: int)
    requires
        bits_in(m, lo, hi),
        0 <= lo <= hi <= 64,
    ensures
        spec_count_ones(x & m) == bit_count(x, lo, hi),
{
    lemma_count_ones_bits(x & m);
    lemma_bit_count_masked_prefix(x, m, lo, hi, 64);
}

/// At most `hi - lo` bits are set in `lo..hi`.
proof fn lemma_bit_count_le(x: u64, lo: int, hi: int)
    requires
        lo <= hi,
    ensures
        bit_count(x, lo, hi) <= hi - lo,
    decreases hi - lo,
{
    if hi > lo {
        lemma_bit_count_le(x, lo, hi - 1);
    }
}


/// Bit position of the first update value of level `lev` in a register whose
/// largest value is `u`.
pub open spec fn level_start_pos(lev: int, u: int, d: u32, t: u32) -> int {
    lev * pow2(t as nat) + 1 + d - u
}

/// The smallest update value at level `lev` or above that lies inside the
/// window of a register whose largest value is `u`.
pub open spec fn cover_start(lev: int, u: int, d: u32, t: u32) -> int {
    let k = lev * pow2(t as nat) + 1;
    if k > window_low(u, d) {
        k
    } else {
        window_low(u, d)
    }
}

/// The update values `lev * 2^t + 1 ..= (lev + 1) * 2^t` are at level `lev`;
/// at the top level, so is every larger value.
proof fn lemma_level_in(k: int, lev: int, t: u32, p: u32)
    requires
        0 <= lev <= top_level(t, p),
        lev * pow2(t as nat) + 1 <= k,
        lev < top_level(t, p) ==> k <= (lev + 1) * pow2(t as nat),
    ensures
        level_of(k, t, p) == lev,
{
    let w = pow2(t as nat) as int;
    vstd::arithmetic::power2::lemma_pow2_pos(t as nat);
    if lev < top_level(t, p) {
        assert((lev + 1) * w == lev * w + w) by (nonlinear_arith);
        vstd::arithmetic::div_mod::lemma_fundamental_div_mod_converse(k - 1, w, lev, k - 1 - lev * w);
    } else {
        vstd::arithmetic::div_mod::lemma_fundamental_div_mod_converse(lev * w, w, lev, 0);
        vstd::arithmetic::div_mod::lemma_div_is_ordered(lev * w, k - 1, w);
    }
}

/// Where the largest value `u` of a register lies relative to its level.
proof fn lemma_level_of_value(u: int, t: u32, p: u32)
    requires
        1 <= u <= crate::downsize_laws::max_level(t, p),
        t + p <= 26,
    ensures
        0 <= level_of(u, t, p) <= top_level(t, p),
        level_of(u, t, p) * pow2(t as nat) <= u - 1,
        u <= (level_of(u, t, p) + 2) * pow2(t as nat),
        level_of(u, t, p) < top_level(t, p) ==> u <= (level_of(u, t, p) + 1) * pow2(t as nat),
{
    let w = pow2(t as nat) as int;
    vstd::arithmetic::power2::lemma_pow2_pos(t as nat);
    vstd::arithmetic::div_mod::lemma_fundamental_div_mod(u - 1, w);
    let j = (u - 1) / w;
    vstd::arithmetic::div_mod::lemma_div_pos_is_pos(u - 1, w);
    if j >= top_level(t, p) {
        vstd::arithmetic::mul::lemma_mul_inequality(top_level(t, p), j, w);
        assert(w * j == j * w) by (nonlinear_arith);
    } else {
        assert(w * j == j * w) by (nonlinear_arith);
        assert((j + 1) * w == j * w + w) by (nonlinear_arith);
    }
    assert((level_of(u, t, p) + 2) * w == level_of(u, t, p) * w + 2 * w) by (nonlinear_arith);
}

/// The bit position of `cover_start(lev)` is the clamped start position of level `lev`.
proof fn lemma_cover_start_pos(u: int, d: u32, t: u32, lev: int)
    requires
        0 <= lev,
    ensures
        value_pos(cover_start(lev, u, d, t), u, d) == clamp0(level_start_pos(lev, u, d, t)),
        cover_start(lev, u, d, t) >= window_low(u, d),
{
    vstd::arithmetic::power2::lemma_pow2_pos(t as nat);
    assert(lev * pow2(t as nat) >= 0) by (nonlinear_arith)
        requires
            lev >= 0,
            pow2(t as nat) > 0,
    ;
}

/// Once the start of level `lev` lies at or below bit zero, or `lev` is the
/// lowest level, level `lev` and those above it cover the whole window.
proof fn lemma_cover_complete(u: int, d: u32, t: u32, lev: int)
    requires
        lev == 0 || level_start_pos(lev, u, d, t) <= 0,
    ensures
        cover_start(lev, u, d, t) == window_low(u, d),
{
}


/// The values of the window at the level of the largest value `u`: their
/// weights and counts are those of the set and clear bits from the start of
/// that level up to bit `d`.
proof fn lemma_level_first(r: u64, u: int, d: u32, t: u32, p: u32)
    requires
        1 <= u <= crate::downsize_laws::max_level(t, p),
        t + p <= 26,
        d < 64,
    ensures
        clamp0(level_start_pos(level_of(u, t, p), u, d, t)) <= d,
        zero_weights(r, u, d, t, p, cover_start(level_of(u, t, p), u, d, t), u) == pow2(
            (top_level(t, p) - level_of(u, t, p)) as nat,
        ) * bit_count(!r, clamp0(level_start_pos(level_of(u, t, p), u, d, t)), d as int),
        forall|k: int|
            #[trigger] held_at_level(r, u, d, t, p, cover_start(level_of(u, t, p), u, d, t), u, k)
                == if k == level_of(u, t, p) {
                bit_count(r, clamp0(level_start_pos(level_of(u, t, p), u, d, t)), d as int) as int
            } else {
                0
            },
        bit_count(!r, clamp0(level_start_pos(level_of(u, t, p), u, d, t)), d as int) <= u - 1
            - level_of(u, t, p) * pow2(t as nat),
{
    let lvl = level_of(u, t, p);
    let w = pow2(t as nat) as int;
    let cs = cover_start(lvl, u, d, t);
    let s = clamp0(level_start_pos(lvl, u, d, t));
    lemma_level_of_value(u, t, p);
    lemma_cover_start_pos(u, d, t, lvl);
    assert forall|k: int| cs <= k < u implies #[trigger] level_of(k, t, p) == lvl by {
        lemma_level_in(k, lvl, t, p);
    }
    lemma_sums_one_level(r, u, d, t, p, cs, u, lvl);
    lemma_bit_count_le(!r, s, d as int);
}

/// One level further down: the values of level `lev - 1` inside the window
/// are those at the bit positions from the clamped start of that level up to
/// the start of level `lev`.
proof fn lemma_level_step(r: u64, u: int, d: u32, t: u32, p: u32, lev: int)
    requires
        1 <= u <= crate::downsize_laws::max_level(t, p),
        t + p <= 26,
        d < 64,
        1 <= lev <= level_of(u, t, p),
        level_start_pos(lev, u, d, t) > 0,
    ensures
        cover_start(lev, u, d, t) == lev * pow2(t as nat) + 1,
        clamp0(level_start_pos(lev - 1, u, d, t)) == clamp0(
            level_start_pos(lev, u, d, t) - pow2(t as nat),
        ),
        level_start_pos(lev, u, d, t) <= d,
        zero_weights(r, u, d, t, p, cover_start(lev - 1, u, d, t), u) == zero_weights(
            r,
            u,
            d,
            t,
            p,
            cover_start(lev, u, d, t),
            u,
        ) + pow2((top_level(t, p) - (lev - 1)) as nat) * bit_count(
            !r,
            clamp0(level_start_pos(lev - 1, u, d, t)),
            level_start_pos(lev, u, d, t),
        ),
        forall|k: int|
            #[trigger] held_at_level(r, u, d, t, p, cover_start(lev - 1, u, d, t), u, k)
                == held_at_level(r, u, d, t, p, cover_start(lev, u, d, t), u, k) + if k == lev
                - 1 {
                bit_count(
                    r,
                    clamp0(level_start_pos(lev - 1, u, d, t)),
                    level_start_pos(lev, u, d, t),
                ) as int
            } else {
                0
            },
        bit_count(
            !r,
            clamp0(level_start_pos(lev - 1, u, d, t)),
            level_start_pos(lev, u, d, t),
        ) <= pow2(t as nat),
{
    let lvl = level_of(u, t, p);
    let w = pow2(t as nat) as int;
    vstd::arithmetic::power2::lemma_pow2_pos(t as nat);
    lemma_level_of_value(u, t, p);
    assert((lev - 1) * w == lev * w - w) by (nonlinear_arith);
    assert(lev * w >= 1 && lev * w <= lvl * w) by (nonlinear_arith)
        requires
            1 <= lev <= lvl,
            w >= 1,
    ;
    let mid = lev * w + 1;
    let lo = cover_start(lev - 1, u, d, t);
    lemma_cover_start_pos(u, d, t, lev - 1);
    lemma_sums_split(r, u, d, t, p, lo, mid, u);
    assert forall|k: int| lo <= k < mid implies #[trigger] level_of(k, t, p) == lev - 1 by {
        lemma_level_in(k, lev - 1, t, p);
    }
    lemma_sums_one_level(r, u, d, t, p, lo, mid, lev - 1);
    lemma_bit_count_le(!r, clamp0(level_start_pos(lev - 1, u, d, t)), level_start_pos(lev, u, d, t));
    assert forall|k: int|
        #[trigger] held_at_level(r, u, d, t, p, lo, u, k) == held_at_level(r, u, d, t, p, mid, u, k)
            + if k == lev - 1 {
            bit_count(r, clamp0(level_start_pos(lev - 1, u, d, t)), level_start_pos(lev, u, d, t)) as int
        } else {
            0
        } by {
        assert(held_at_level(r, u, d, t, p, lo, u, k) == held_at_level(r, u, d, t, p, lo, mid, k)
            + held_at_level(r, u, d, t, p, mid, u, k));
        assert(held_at_level(r, u, d, t, p, lo, mid, k) == if k == lev - 1 {
            bit_count(r, value_pos(lo, u, d), value_pos(mid, u, d)) as int
        } else {
            0
        });
    }
}


/// The number of held values is never negative.
proof fn lemma_held_nonneg(r: u64, u: int, d: u32, t: u32, p: u32, lo: int, hi: int, k: int)
    ensures
        held_at_level(r, u, d, t, p, lo, hi, k) >= 0,
    decreases hi - lo,
{
    if hi > lo {
        lemma_held_nonneg(r, u, d, t, p, lo, hi - 1, k);
    }
}

/// What the levels from `lev` up hold is part of what the whole window holds.
proof fn lemma_held_le_window(r: u64, u: int, d: u32, t: u32, p: u32, lev: int, k: int)
    requires
        0 <= lev,
    ensures
        held_at_level(r, u, d, t, p, cover_start(lev, u, d, t), u, k) <= held_at_level(
            r,
            u,
            d,
            t,
            p,
            window_low(u, d),
            u,
            k,
        ),
{
    let cs = cover_start(lev, u, d, t);
    lemma_cover_start_pos(u, d, t, lev);
    lemma_held_nonneg(r, u, d, t, p, cs, u, k);
    if cs <= u {
        lemma_sums_split(r, u, d, t, p, window_low(u, d), cs, u);
        lemma_held_nonneg(r, u, d, t, p, window_low(u, d), cs, k);
    } else {
        lemma_held_nonneg(r, u, d, t, p, window_low(u, d), u, k);
    }
}

/// The weights of the values at the level of the largest value stay below
/// `2^(t + 1 + e)`, `e` being the level's weight exponent.
proof fn lemma_weight_first(base: int, t: u32, e: nat)
    requires
        0 <= base < pow2((t + 1) as nat),
    ensures
        base * pow2(e) < pow2((t + 1 + e) as nat),
{
    vstd::arithmetic::power2::lemma_pow2_adds((t + 1) as nat, e);
    vstd::arithmetic::power2::lemma_pow2_pos(e);
    vstd::arithmetic::mul::lemma_mul_strict_inequality(base, pow2((t + 1) as nat) as int, pow2(e) as int);
}

/// Adding the weights of one lower level keeps the sum below `2^(t + 1 + e)`.
proof fn lemma_weight_step(a: int, c: int, t: u32, e: nat)
    requires
        0 <= a < pow2((t + e) as nat),
        0 <= c <= pow2(t as nat),
    ensures
        c * pow2(e) <= pow2((t + e) as nat),
        a + c * pow2(e) < pow2((t + 1 + e) as nat),
{
    vstd::arithmetic::power2::lemma_pow2_adds(t as nat, e);
    vstd::arithmetic::power2::lemma_pow2_unfold((t + 1 + e) as nat);
    vstd::arithmetic::mul::lemma_mul_inequality(c, pow2(t as nat) as int, pow2(e) as int);
}

/// The weights of the values from level `lev` up that register `r` does
/// not hold have been added to `a`, and `a` is below `2^(t + 1 + q - lev)`.
pub open spec fn levels_done(r: u64, t: u32, d: u32, p: u32, lev: int, a: int) -> bool {
    let u = (r >> d) as int;
    &&& a == omega(u, t, p) + zero_weights(r, u, d, t, p, cover_start(lev, u, d, t), u)
    &&& a < pow2((t + 1 + top_level(t, p) - lev) as nat)
}

/// The number of values at level `k` that register `r` holds below level `lev`.
pub open spec fn counts_left(r: u64, t: u32, d: u32, p: u32, lev: int, k: int) -> int {
    let u = (r >> d) as int;
    held_at_level(r, u, d, t, p, window_low(u, d), u, k) - held_at_level(
        r,
        u,
        d,
        t,
        p,
        cover_start(lev, u, d, t),
        u,
        k,
    )
}

/// What is left of the counts never exceeds what the window holds.
proof fn lemma_counts_left_bounds(r: u64, t: u32, d: u32, p: u32, lev: int, k: int)
    requires
        0 <= lev,
    ensures
        0 <= counts_left(r, t, d, p, lev, k) <= contribute_count(r, t, d, p, k),
{
    let u = (r >> d) as int;
    lemma_held_le_window(r, u, d, t, p, lev, k);
    lemma_held_nonneg(r, u, d, t, p, cover_start(lev, u, d, t), u, k);
}

/// One step down from level `lev`: adding the weights of the clear bits of
/// level `lev - 1` keeps the sum exact and within bounds, and what is left of
/// the counts loses the set bits of that level.
proof fn lemma_step_sums(r: u64, t: u32, d: u32, p: u32, lev: int, a: int, c: int)
    requires
        1 <= (r >> d) <= max_level(t, p),
        t + p <= 26,
        d < 64,
        1 <= lev <= level_of((r >> d) as int, t, p),
        level_start_pos(lev, (r >> d) as int, d, t) > 0,
        levels_done(r, t, d, p, lev, a),
        0 <= a,
        c == bit_count(
            !r,
            clamp0(level_start_pos(lev - 1, (r >> d) as int, d, t)),
            level_start_pos(lev, (r >> d) as int, d, t),
        ),
    ensures
        c * pow2((top_level(t, p) - (lev - 1)) as nat) <= pow2((t + top_level(t, p) - (lev - 1)) as nat),
        levels_done(r, t, d, p, lev - 1, a + c * pow2((top_level(t, p) - (lev - 1)) as nat)),
        forall|k: int|
            #[trigger] counts_left(r, t, d, p, lev - 1, k) == counts_left(r, t, d, p, lev, k) - if k
                == lev - 1 {
                bit_count(
                    r,
                    clamp0(level_start_pos(lev - 1, (r >> d) as int, d, t)),
                    level_start_pos(lev, (r >> d) as int, d, t),
                ) as int
            } else {
                0
            },
{
    let u = (r >> d) as int;
    let e = (top_level(t, p) - (lev - 1)) as nat;
    lemma_level_step(r, u, d, t, p, lev);
    lemma_level_of_value(u, t, p);
    assert((t + 1 + top_level(t, p) - lev) as nat == (t + e) as nat);
    assert((t + 1 + top_level(t, p) - (lev - 1)) as nat == (t + 1 + e) as nat);
    lemma_weight_step(a, c, t, e);
    vstd::arithmetic::mul::lemma_mul_is_commutative(c, pow2(e) as int);
}

#[verifier::spinoff_prover]
/// Processes the levels below `i` one by one, for `t <= 5`, where a level
/// spans at most 32 bit positions; `mask` holds the positions of level `i - 1`.
fn contribute_lower_levels(
    r: u64,
    b: &mut [i32; 64],
    t: u32,
    d: u32,
    p: u32,
    i: u64,
    mask: u64,
    a: u64,
) -> (a2: u64)
    requires
        valid_params(t, d, p),
        t <= 5,
        1 <= (r >> d) <= max_level(t, p),
        i <= level_of((r >> d) as int, t, p),
        clamp0(level_start_pos(i as int, (r >> d) as int, d, t)) <= d,
        bits_in(
            mask,
            clamp0(level_start_pos(i as int, (r >> d) as int, d, t) - pow2(t as nat)),
            clamp0(level_start_pos(i as int, (r >> d) as int, d, t)),
        ),
        levels_done(r, t, d, p, i as int, a as int),
        forall|k: int| 0 <= k < 64 ==> old(b)[k] + counts_left(r, t, d, p, i as int, k) <= i32::MAX,
    ensures
        a2 == spec_contribute(r, t, d, p),
        forall|k: int|
            0 <= k < 64 ==> final(b)[k] == old(b)[k] + counts_left(r, t, d, p, i as int, k),
{
    let ghost u = (r >> d) as int;
    let ghost w = pow2(t as nat) as int;
    let ghost i0 = i as int;
    let q: u64 = (63 - t - p) as u64;
    let r_inv: u64 = !r;
    let shift: u32 = 1u32 << t;
    proof {
        vstd::bits::lemma_u32_pow2_no_overflow(t as nat);
        vstd::bits::lemma_u32_shl_is_mul(1, t);
        crate::sketch::lemma_pow2_le(t as nat, 5);
        vstd::arithmetic::power2::lemma2_to64();
        vstd::arithmetic::power2::lemma_pow2_pos(t as nat);
    }
    let mut i = i;
    let mut mask = mask;
    let mut a = a;
    while i > 0 && mask != 0
        invariant
            valid_params(t, d, p),
            1 <= u <= max_level(t, p),
            u == r >> d,
            q == top_level(t, p),
            w == pow2(t as nat),
            shift == w,
            0 < w <= 32,
            r_inv == !r,
            i <= i0 <= level_of(u, t, p),
            clamp0(level_start_pos(i as int, u, d, t)) <= d,
            bits_in(mask, clamp0(level_start_pos(i as int, u, d, t) - w), clamp0(level_start_pos(i as int, u, d, t))),
            levels_done(r, t, d, p, i as int, a as int),
            forall|k: int| 0 <= k < 64 ==> b[k] == old(b)[k] + counts_left(r, t, d, p, i0, k) - counts_left(r, t, d, p, i as int, k),
            forall|k: int| 0 <= k < 64 ==> old(b)[k] + counts_left(r, t, d, p, i0, k) <= i32::MAX,
        decreases i,
    {
        let ghost lev = i as int;
        let ghost lo = clamp0(level_start_pos(lev - 1, u, d, t));
        let ghost hi = level_start_pos(lev, u, d, t);
        proof {
            lemma_mask_nonzero(mask, clamp0(hi - w), clamp0(hi));
            lemma_level_step(r, u, d, t, p, lev);
        }
        i = i - 1;
        let c: u64 = (r_inv & mask).count_ones() as u64;
        proof {
            lemma_count_ones_masked(r_inv, mask, lo, hi);
            lemma_count_ones_masked(r, mask, lo, hi);
            lemma_step_sums(r, t, d, p, lev, a as int, c as int);
            lemma_counts_left_bounds(r, t, d, p, i as int, i as int);
            lemma_counts_left_bounds(r, t, d, p, i0, i as int);
            lemma_bit_count_le(r, lo, hi);
            crate::sketch::lemma_pow2_le((t + 1 + q - i) as nat, 62);
            vstd::bits::lemma_u64_pow2_no_overflow(62);
            vstd::bits::lemma_u64_shl_is_mul(c, (q - i) as u64);
        }
        a = a + (c << (q - i));
        let iu = i as usize;
        b[iu] = b[iu] + (r & mask).count_ones() as i32;
        proof {
            lemma_shr_mask(mask, lo, hi, shift);
        }
        mask = mask >> shift;
    }
    proof {
        if i > 0 {
            lemma_mask_nonzero(mask, clamp0(level_start_pos(i as int, u, d, t) - w), clamp0(level_start_pos(i as int, u, d, t)));
        }
        lemma_cover_complete(u, d, t, i as int);
        assert(cover_start(i as int, u, d, t) == window_low(u, d));
        assert(a == omega(u, t, p) + zero_weights(r, u, d, t, p, window_low(u, d), u));
        assert(a == spec_contribute(r, t, d, p));
    }
    a
}

/// For `t > 5`, a level spans at least 64 bit positions: below level `lev`,
/// only level `lev - 1` reaches into the register, at the positions from bit
/// zero up to the start of level `lev`.
proof fn lemma_last_level(r: u64, u: int, d: u32, t: u32, p: u32, lev: int)
    requires
        1 <= u <= max_level(t, p),
        t + p <= 26,
        5 < t,
        d < 64,
        1 <= lev <= level_of(u, t, p),
        clamp0(level_start_pos(lev, u, d, t)) <= d,
    ensures
        zero_weights(r, u, d, t, p, window_low(u, d), u) == zero_weights(
            r,
            u,
            d,
            t,
            p,
            cover_start(lev, u, d, t),
            u,
        ) + pow2((top_level(t, p) - (lev - 1)) as nat) * bit_count(
            !r,
            0,
            clamp0(level_start_pos(lev, u, d, t)),
        ),
        forall|k: int|
            #[trigger] held_at_level(r, u, d, t, p, window_low(u, d), u, k) == held_at_level(
                r,
                u,
                d,
                t,
                p,
                cover_start(lev, u, d, t),
                u,
                k,
            ) + if k == lev - 1 {
                bit_count(r, 0, clamp0(level_start_pos(lev, u, d, t))) as int
            } else {
                0
            },
        bit_count(!r, 0, clamp0(level_start_pos(lev, u, d, t))) <= pow2(t as nat),
{
    let w = pow2(t as nat) as int;
    let s = clamp0(level_start_pos(lev, u, d, t));
    crate::sketch::lemma_pow2_le(6, t as nat);
    vstd::arithmetic::power2::lemma2_to64();
    assert((lev - 1) * w == lev * w - w) by (nonlinear_arith);
    lemma_bit_count_le(!r, 0, s);
    if level_start_pos(lev, u, d, t) > 0 {
        lemma_level_step(r, u, d, t, p, lev);
        assert(clamp0(level_start_pos(lev - 1, u, d, t)) == 0);
        lemma_cover_complete(u, d, t, lev - 1);
        assert(cover_start(lev - 1, u, d, t) == window_low(u, d));
        assert(s == level_start_pos(lev, u, d, t));
    } else {
        lemma_cover_complete(u, d, t, lev);
        assert(s == 0);
        assert(bit_count(!r, 0, 0) == 0);
        assert(pow2((top_level(t, p) - (lev - 1)) as nat) * 0 == 0);
        assert(bit_count(r, 0, 0) == 0);
        assert forall|k: int|
            #[trigger] held_at_level(r, u, d, t, p, window_low(u, d), u, k) == held_at_level(
                r,
                u,
                d,
                t,
                p,
                cover_start(lev, u, d, t),
                u,
                k,
            ) + if k == lev - 1 {
                bit_count(r, 0, s) as int
            } else {
                0
            } by {}
    }
}

#[verifier::spinoff_prover]
/// Processes the levels below `i`, for `t > 5`, where a level spans at least
/// 64 bit positions, so that only level `i - 1` can reach into the register;
/// `mask` holds the positions from the start of level `i` up.
fn contribute_next_level(
    r: u64,
    b: &mut [i32; 64],
    t: u32,
    d: u32,
    p: u32,
    i: u64,
    mask: u64,
    a: u64,
) -> (a2: u64)
    requires
        valid_params(t, d, p),
        t > 5,
        1 <= (r >> d) <= max_level(t, p),
        i <= level_of((r >> d) as int, t, p),
        clamp0(level_start_pos(i as int, (r >> d) as int, d, t)) <= d,
        bits_in(mask, clamp0(level_start_pos(i as int, (r >> d) as int, d, t)), 64),
        levels_done(r, t, d, p, i as int, a as int),
        forall|k: int| 0 <= k < 64 ==> old(b)[k] + counts_left(r, t, d, p, i as int, k) <= i32::MAX,
    ensures
        a2 == spec_contribute(r, t, d, p),
        forall|k: int|
            0 <= k < 64 ==> final(b)[k] == old(b)[k] + counts_left(r, t, d, p, i as int, k),
{
    let ghost u = (r >> d) as int;
    let ghost w = pow2(t as nat) as int;
    let ghost lev = i as int;
    let ghost s = clamp0(level_start_pos(lev, u, d, t));
    if i == 0 {
        proof {
            lemma_cover_complete(u, d, t, 0);
        }
        return a;
    }
    let q: u64 = (63 - t - p) as u64;
    let r_inv: u64 = !r;
    proof {
        vstd::arithmetic::power2::lemma_pow2_strictly_increases(5, t as nat);
        vstd::arithmetic::power2::lemma2_to64();
        lemma_not_high_mask(mask, s);
    }
    let mask = !mask;
    let i = i - 1;
    let c: u64 = (r_inv & mask).count_ones() as u64;
    let ghost e = (q - i) as nat;
    proof {
        lemma_count_ones_masked(r_inv, mask, 0, s);
        lemma_count_ones_masked(r, mask, 0, s);
        lemma_bit_count_le(r, 0, s);
        lemma_last_level(r, u, d, t, p, lev);
        lemma_weight_step(a as int, c as int, t, e);
        crate::sketch::lemma_pow2_le((t + 1 + q - i) as nat, 62);
        vstd::bits::lemma_u64_pow2_no_overflow(62);
        vstd::bits::lemma_u64_shl_is_mul(c, (q - i) as u64);
        vstd::arithmetic::mul::lemma_mul_is_commutative(c as int, pow2(e) as int);
    }
    let a = a + (c << (q - i));
    let iu = i as usize;
    b[iu] = b[iu] + (r & mask).count_ones() as i32;
    a
}


/// Adds to `b[i]`, for every level `i`, the number of values of level `i`
/// that register `r` holds, and returns what the register contributes to the
/// first coefficient of the likelihood function.
fn contribute_into(r: u64, b: &mut [i32; 64], t: u32, d: u32, p: u32) -> (a: u64)
    requires
        valid_params(t, d, p),
        (r >> d) <= max_level(t, p),
        forall|k: int| 0 <= k < 64 ==> old(b)[k] + contribute_count(r, t, d, p, k) <= i32::MAX,
    ensures
        a == spec_contribute(r, t, d, p),
        forall|k: int| 0 <= k < 64 ==> final(b)[k] == old(b)[k] + contribute_count(r, t, d, p, k),
{
    let u: u64 = r >> d;
    let ghost w = pow2(t as nat) as int;
    if u == 0 {
        let pp: u64 = 64 - p as u64;
        proof {
            vstd::bits::lemma_u64_pow2_no_overflow(pp as nat);
            vstd::bits::lemma_u64_shl_is_mul(1, pp);
            assert forall|k: int| 0 <= k < 64 implies final(b)[k] == old(b)[k] + contribute_count(r, t, d, p, k) by {
                assert(held_at_level(r, 0, d, t, p, window_low(0, d), 0, k) == 0);
            }
        }
        return 1u64 << pp;
    }
    let tt: u64 = t as u64;
    let q: u64 = (63 - t - p) as u64;
    let j: u64 = (u - 1) >> tt;
    let i: u64 = if q < j { q } else { j };
    let ghost lvl = i as int;
    proof {
        vstd::arithmetic::power2::lemma_pow2_pos(t as nat);
        vstd::bits::lemma_u64_shr_is_div((u - 1) as u64, tt);
        assert(lvl == level_of(u as int, t, p));
        lemma_level_of_value(u as int, t, p);
        lemma_level_first(r, u as int, d, t, p);
        vstd::bits::lemma_u64_shl_is_mul(i, tt);
    }
    let r_inv: u64 = !r;
    let num_bits: u64 = (u - 1) - (i << tt);
    let dd: u64 = d as u64;
    let s: u64 = if dd > num_bits {
        dd - num_bits
    } else {
        0
    };
    assert(s == clamp0(level_start_pos(lvl, u as int, d, t)));
    let mask: u64 = u64::MAX << s;
    proof {
        lemma_mask_bit_facts(0, 0, dd, 0, 0);
    }
    let low_mask: u64 = (1u64 << dd) - 1;
    let mask2: u64 = mask & low_mask;
    proof {
        lemma_high_mask(s);
        lemma_low_mask(dd);
        lemma_and_masks(mask, low_mask, s as int, 64, 0, dd as int);
        lemma_count_ones_masked(r_inv, mask2, s as int, dd as int);
        lemma_count_ones_masked(r, mask2, s as int, dd as int);
        crate::sketch::lemma_pow2_le(t as nat, 24);
        vstd::arithmetic::power2::lemma2_to64();
        assert((i + 2) * w <= 63 * 0x1000000) by (nonlinear_arith)
            requires
                i + 2 <= 63,
                0 < w <= 0x1000000,
        ;
        vstd::bits::lemma_u64_shl_is_mul((i + 2) as u64, tt);
    }
    let c0: u64 = (r_inv & mask2).count_ones() as u64;
    let base: u64 = ((i + 2) << tt) - u + c0;
    proof {
        vstd::arithmetic::power2::lemma_pow2_unfold((t + 1) as nat);
        assert((lvl + 2) * w == lvl * w + 2 * w) by (nonlinear_arith);
        assert(c0 == bit_count(!r, s as int, d as int));
        lemma_weight_first(base as int, t, (q - i) as nat);
        crate::sketch::lemma_pow2_le((t + 1 + q - i) as nat, 62);
        vstd::bits::lemma_u64_pow2_no_overflow(62);
        vstd::bits::lemma_u64_shl_is_mul(base, (q - i) as u64);
        assert(base * pow2((q - i) as nat) == ((lvl + 2) * w - u) * pow2((q - i) as nat) + pow2(
            (q - i) as nat,
        ) * c0) by (nonlinear_arith)
            requires
                base == (lvl + 2) * w - u + c0,
        ;
    }
    let a: u64 = base << (q - i);
    let iu = i as usize;
    proof {
        lemma_held_le_window(r, u as int, d, t, p, lvl, lvl);
        lemma_bit_count_le(r, s as int, d as int);
        assert(contribute_count(r, t, d, p, lvl) == 1 + held_at_level(r, u as int, d, t, p, window_low(u as int, d), u as int, lvl));
    }
    b[iu] = b[iu] + 1 + (r & mask2).count_ones() as i32;
    let ghost b1 = *b;
    proof {
        assert(levels_done(r, t, d, p, lvl, a as int));
        assert forall|k: int| 0 <= k < 64 implies b1[k] + counts_left(r, t, d, p, lvl, k) == old(b)[k] + contribute_count(r, t, d, p, k) by {
        }
    }
    if t <= 5 {
        let shift: u32 = 1u32 << t;
        proof {
            vstd::bits::lemma_u32_pow2_no_overflow(t as nat);
            vstd::bits::lemma_u32_shl_is_mul(1, t);
            crate::sketch::lemma_pow2_le(t as nat, 5);
        }
        let sh = arithmetic_shr_u64(mask, shift);
        proof {
            lemma_xor_shr_mask(mask, sh, s as int, shift);
        }
        contribute_lower_levels(r, b, t, d, p, i, mask ^ sh, a)
    } else {
        contribute_next_level(r, b, t, d, p, i, mask, a)
    }
}


/// The number of held values is at most the number of values counted.
proof fn lemma_held_le_len(r: u64, u: int, d: u32, t: u32, p: u32, lo: int, hi: int, k: int)
    requires
        lo <= hi,
    ensures
        held_at_level(r, u, d, t, p, lo, hi, k) <= hi - lo,
    decreases hi - lo,
{
    if hi > lo {
        lemma_held_le_len(r, u, d, t, p, lo, hi - 1, k);
    }
}

/// A register adds at most `d + 1` to the count of any level.
pub proof fn lemma_contribute_count_bound(r: u64, t: u32, d: u32, p: u32, k: int)
    ensures
        0 <= contribute_count(r, t, d, p, k) <= d + 1,
{
    let u = (r >> d) as int;
    lemma_held_nonneg(r, u, d, t, p, window_low(u, d), u, k);
    if window_low(u, d) <= u {
        lemma_held_le_len(r, u, d, t, p, window_low(u, d), u, k);
    }
}

/// The counts `counts` with what register `r` adds to each level.
pub open spec fn with_counts(counts: Seq<i32>, r: u64, t: u32, d: u32, p: u32) -> Seq<i32> {
    Seq::new(counts.len(), |k: int| (counts[k] + contribute_count(r, t, d, p, k)) as i32)
}

/// What register `r` contributes to the likelihood function of a sketch with
/// parameters `t`, `d` and `p`: the returned value is the probability, scaled
/// by `2^64`, that a hash would leave the register unchanged, and for every
/// level `i`, `b[i]` grows by the number of update values of level `i` that
/// the register records.
pub fn contribute(r: u64, b: Option<&mut [i32; 64]>, t: u32, d: u32, p: u32) -> (a: u64)
    requires
        valid_params(t, d, p),
        (r >> d) <= max_level(t, p),
        b matches Some(bb) ==> forall|k: int|
            0 <= k < 64 ==> bb[k] + contribute_count(r, t, d, p, k) <= i32::MAX,
    ensures
        a == spec_contribute(r, t, d, p),
        b matches Some(bb) ==> final(bb)@ == with_counts(bb@, r, t, d, p),
{
    match b {
        Some(bb) => {
            let ghost before = *bb;
            let a = contribute_into(r, bb, t, d, p);
            assert(bb@ =~= with_counts(before@, r, t, d, p));
            a
        },
        None => {
            let mut scratch = [0i32; 64];
            proof {
                assert forall|k: int| 0 <= k < 64 implies scratch[k] + contribute_count(r, t, d, p, k) <= i32::MAX by {
                    lemma_contribute_count_bound(r, t, d, p, k);
                }
            }
            contribute_into(r, &mut scratch, t, d, p)
        },
    }
}


/// One past the largest update value at level `k`.
pub open spec fn level_end(k: int, t: u32, p: u32) -> int {
    if k < top_level(t, p) {
        (k + 1) * pow2(t as nat) + 1
    } else {
        max_level(t, p) + 1
    }
}

/// An update value lies in the range of its level.
proof fn lemma_level_range(x: int, t: u32, p: u32)
    requires
        1 <= x <= max_level(t, p),
        t + p <= 26,
    ensures
        level_of(x, t, p) * pow2(t as nat) + 1 <= x < level_end(level_of(x, t, p), t, p),
        0 <= level_of(x, t, p) <= top_level(t, p),
{
    lemma_level_of_value(x, t, p);
    let w = pow2(t as nat) as int;
    if level_of(x, t, p) < top_level(t, p) {
        assert((level_of(x, t, p) + 1) * w == level_of(x, t, p) * w + w) by (nonlinear_arith);
    }
}

/// The values of `lo..hi` held at level `k` lie in the range of level `k`.
proof fn lemma_held_le_level_range(
    r: u64,
    u: int,
    d: u32,
    t: u32,
    p: u32,
    lo: int,
    hi: int,
    k: int,
)
    requires
        1 <= lo,
        hi <= max_level(t, p) + 1,
        t + p <= 26,
    ensures
        held_at_level(r, u, d, t, p, lo, hi, k) <= clamp0(
            (if hi < level_end(k, t, p) {
                hi
            } else {
                level_end(k, t, p)
            }) - (if lo > k * pow2(t as nat) + 1 {
                lo
            } else {
                k * pow2(t as nat) + 1
            }),
        ),
    decreases hi - lo,
{
    if hi > lo {
        lemma_held_le_level_range(r, u, d, t, p, lo, hi - 1, k);
        lemma_level_range(hi - 1, t, p);
    }
}

/// A register with its largest value at most the largest level adds at most
/// `2^(t + 1)` to the count of any level.
pub proof fn lemma_contribute_count_level_bound(r: u64, t: u32, d: u32, p: u32, k: int)
    requires
        (r >> d) <= max_level(t, p),
        t + p <= 26,
    ensures
        0 <= contribute_count(r, t, d, p, k) <= pow2((t + 1) as nat),
{
    let u = (r >> d) as int;
    let w = pow2(t as nat) as int;
    vstd::arithmetic::power2::lemma_pow2_unfold((t + 1) as nat);
    vstd::arithmetic::power2::lemma_pow2_pos(t as nat);
    lemma_held_nonneg(r, u, d, t, p, window_low(u, d), u, k);
    lemma_held_le_level_range(r, u, d, t, p, window_low(u, d), u, k);
    if u >= 1 {
        lemma_level_range(u, t, p);
    }
    if 0 <= k < top_level(t, p) {
        assert((k + 1) * w == k * w + w) by (nonlinear_arith);
    } else if k == top_level(t, p) {
        assert(max_level(t, p) == (k + 2) * w);
        assert((k + 2) * w == k * w + 2 * w) by (nonlinear_arith);
    } else if k > top_level(t, p) {
        assert(k * w >= (top_level(t, p) + 1) * w) by (nonlinear_arith)
            requires
                k >= top_level(t, p) + 1,
                w > 0,
        ;
        assert((top_level(t, p) + 2) * w == (top_level(t, p) + 1) * w + w) by (nonlinear_arith);
    } else {
        assert(k * w <= -w) by (nonlinear_arith)
            requires
                k <= -1,
                w > 0,
        ;
        assert((k + 1) * w == k * w + w) by (nonlinear_arith);
    }
    let lo_k = k * w + 1;
    let end_k = level_end(k, t, p);
    assert(end_k - lo_k <= 2 * w);
    let wl = window_low(u, d);
    let h = held_at_level(r, u, d, t, p, wl, u, k);
    if u >= 1 && level_of(u, t, p) == k {
        assert(h <= u - lo_k);
    } else {
        assert(h <= clamp0(end_k - lo_k));
    }
}


/// The sum of what the registers `regs` contribute to the first coefficient
/// of the likelihood function.
pub open spec fn contribution_sum(regs: Seq<u64>, t: u32, d: u32, p: u32) -> int
    decreases regs.len(),
{
    if regs.len() == 0 {
        0
    } else {
        contribution_sum(regs.drop_last(), t, d, p) + spec_contribute(regs.last(), t, d, p)
    }
}

/// The number of update values at level `k` that the registers `regs` record.
pub open spec fn count_sum(regs: Seq<u64>, t: u32, d: u32, p: u32, k: int) -> int
    decreases regs.len(),
{
    if regs.len() == 0 {
        0
    } else {
        count_sum(regs.drop_last(), t, d, p, k) + contribute_count(regs.last(), t, d, p, k)
    }
}

impl ExaLogLog {
    /// Whether the largest update value of every register is at most the
    /// largest level that a hash can give.
    pub fn registers_in_range(&self) -> (ok: bool)
        requires
            self.wf(),
        ensures
            ok == levels_bounded(self@),
    {
        let m = self.num_registers();
        let d = self.d();
        let limit: u64 = ((65 - self.t() - self.p()) as u64) << self.t();
        proof {
            let t = self@.t;
            vstd::arithmetic::power2::lemma2_to64();
            crate::sketch::lemma_pow2_le(t as nat, 24);
            assert((65 - t - self@.p) * pow2(t as nat) <= 63 * 0x1000000) by (nonlinear_arith)
                requires
                    65 - t - self@.p <= 63,
                    0 < pow2(t as nat) <= 0x1000000,
            ;
            vstd::bits::lemma_u64_shl_is_mul((65 - t - self@.p) as u64, t as u64);
        }
        let mut idx: usize = 0;
        while idx < m
            invariant
                self.wf(),
                m == self@.num_registers(),
                d == self@.d,
                limit == max_level(self@.t, self@.p),
                idx <= m,
                forall|i: int| 0 <= i < idx ==> #[trigger] (self@.register(i) >> d) <= limit,
            decreases m - idx,
        {
            let reg = self.get_register(idx);
            if (reg >> d) > limit {
                return false;
            }
            idx = idx + 1;
        }
        true
    }

    /// The integer inputs of the cardinality estimate: the sum, wrapping at
    /// `2^64`, of what the registers contribute to the first coefficient of
    /// the likelihood function, and for every level the number of update
    /// values that the registers record at it.
    pub fn likelihood_coefficients(&self) -> (r: (u64, [i32; 64]))
        requires
            self.wf(),
            levels_bounded(self@),
        ensures
            r.0 == contribution_sum(self@.registers(), self@.t, self@.d, self@.p)
                % 0x1_0000_0000_0000_0000,
            forall|k: int|
                0 <= k < 64 ==> r.1[k] == count_sum(self@.registers(), self@.t, self@.d, self@.p, k),
    {
        let t = self.t();
        let d = self.d();
        let p = self.p();
        let m = self.num_registers();
        let ghost regs = self@.registers();
        let ghost cap = pow2((t + 1) as nat) as int;
        let mut agg: u64 = 0;
        let mut b = [0i32; 64];
        proof {
            assert(regs.take(0) =~= Seq::<u64>::empty());
            vstd::arithmetic::power2::lemma_pow2_pos((t + 1) as nat);
        }
        let mut idx: usize = 0;
        while idx < m
            invariant
                self.wf(),
                levels_bounded(self@),
                t == self@.t,
                d == self@.d,
                p == self@.p,
                m == self@.num_registers(),
                regs == self@.registers(),
                cap == pow2((t + 1) as nat),
                cap > 0,
                idx <= m,
                agg == contribution_sum(regs.take(idx as int), t, d, p) % 0x1_0000_0000_0000_0000,
                forall|k: int| 0 <= k < 64 ==> b[k] == count_sum(regs.take(idx as int), t, d, p, k),
                forall|k: int|
                    0 <= k < 64 ==> 0 <= #[trigger] count_sum(regs.take(idx as int), t, d, p, k) <= idx * cap,
            decreases m - idx,
        {
            let reg = self.get_register(idx);
            proof {
                assert(reg == regs[idx as int]);
                assert(regs.take(idx + 1).drop_last() =~= regs.take(idx as int));
                assert(regs.take(idx + 1).last() == reg);
                assert(idx * cap + cap <= pow2(p as nat) * pow2((t + 1) as nat)) by (nonlinear_arith)
                    requires
                        idx + 1 <= pow2(p as nat),
                        cap == pow2((t + 1) as nat),
                        cap > 0,
                ;
                vstd::arithmetic::power2::lemma_pow2_adds(p as nat, (t + 1) as nat);
                crate::sketch::lemma_pow2_le((p + t + 1) as nat, 27);
                vstd::arithmetic::power2::lemma2_to64();
                assert forall|k: int| 0 <= k < 64 implies b[k] + contribute_count(reg, t, d, p, k)
                    <= i32::MAX by {
                    lemma_contribute_count_level_bound(reg, t, d, p, k);
                }
            }
            let ghost b_before = b;
            let b_ref = &mut b;
            let a = contribute(reg, Some(b_ref), t, d, p);
            agg = agg.wrapping_add(a);
            proof {
                assert forall|k: int| 0 <= k < 64 implies b[k] == count_sum(regs.take(idx + 1), t, d, p, k) by {
                    lemma_contribute_count_level_bound(reg, t, d, p, k);
                    assert(b_before[k] + contribute_count(reg, t, d, p, k) <= i32::MAX);
                    assert(b_before[k] >= 0);
                    assert(b@[k] == (b_before@[k] + contribute_count(reg, t, d, p, k)) as i32);
                    assert(count_sum(regs.take(idx + 1), t, d, p, k) == count_sum(regs.take(idx as int), t, d, p, k)
                        + contribute_count(reg, t, d, p, k));
                }
                vstd::arithmetic::div_mod::lemma_add_mod_noop(
                    contribution_sum(regs.take(idx as int), t, d, p),
                    a as int,
                    0x1_0000_0000_0000_0000,
                );
                assert forall|k: int| 0 <= k < 64 implies 0 <= #[trigger] count_sum(regs.take(idx + 1), t, d, p, k)
                    <= (idx + 1) * cap by {
                    lemma_contribute_count_level_bound(reg, t, d, p, k);
                    assert(count_sum(regs.take(idx + 1), t, d, p, k) == count_sum(regs.take(idx as int), t, d, p, k)
                        + contribute_count(reg, t, d, p, k));
                    assert((idx + 1) * cap == idx * cap + cap) by (nonlinear_arith);
                }
            }
            idx = idx + 1;
        }
        proof {
            assert(regs.take(m as int) =~= regs);
        }
        (agg, b)
    }
}


/// `n` empty registers contribute `n * 2^(64 - p)` and no counts.
proof fn lemma_zero_registers_sums(regs: Seq<u64>, t: u32, d: u32, p: u32, k: int)
    requires
        forall|i: int| 0 <= i < regs.len() ==> #[trigger] regs[i] == 0,
    ensures
        contribution_sum(regs, t, d, p) == regs.len() * pow2((64 - p) as nat),
        count_sum(regs, t, d, p, k) == 0,
    decreases regs.len(),
{
    if regs.len() > 0 {
        lemma_zero_registers_sums(regs.drop_last(), t, d, p, k);
        assert(regs.last() == 0);
        assert(0u64 >> d == 0) by (bit_vector);
        assert(spec_contribute(regs.last(), t, d, p) == pow2((64 - p) as nat));
        assert(contribute_count(regs.last(), t, d, p, k) == 0);
        assert(held_at_level(0, 0, d, t, p, window_low(0, d), 0, k) == 0);
        assert(zero_weights(0, 0, d, t, p, window_low(0, d), 0) == 0);
        assert((regs.len() - 1) * pow2((64 - p) as nat) + pow2((64 - p) as nat) == regs.len() * pow2(
            (64 - p) as nat,
        )) by (nonlinear_arith);
    }
}

/// The registers of an empty sketch contribute exactly `2^64` to the first
/// coefficient of the likelihood function, which wraps to zero, and nothing
/// to the count of any level: an empty sketch estimates no distinct values.
pub proof fn law_empty_coefficients(t: u32, d: u32, p: u32)
    requires
        valid_params(t, d, p),
        crate::sketch::state_fits(t, d, p),
    ensures
        contribution_sum(crate::sketch::empty_view(t, d, p).registers(), t, d, p)
            == 0x1_0000_0000_0000_0000,
        forall|k: int| #[trigger] count_sum(crate::sketch::empty_view(t, d, p).registers(), t, d, p, k) == 0,
{
    let e = crate::sketch::empty_view(t, d, p);
    crate::laws::lemma_empty_view(t, d, p);
    let regs = e.registers();
    assert forall|k: int| #[trigger] count_sum(regs, t, d, p, k) == 0 by {
        lemma_zero_registers_sums(regs, t, d, p, k);
    }
    lemma_zero_registers_sums(regs, t, d, p, 0);
    vstd::arithmetic::power2::lemma_pow2_adds(p as nat, (64 - p) as nat);
    vstd::arithmetic::power2::lemma2_to64_rest();
}


/// The exponent of the probability of update value `k`: `t` for zero, and
/// `t + 1 + (k - 1) / 2^t`, capped at `64 - p`, above.
pub open spec fn phi(k: int, t: u32, p: u32) -> int {
    if k == 0 {
        t as int
    } else {
        let x = t + 1 + (k - 1) / (pow2(t as nat) as int);
        if x < 64 - p {
            x
        } else {
            64 - p
        }
    }
}

/// The weight of the update values above `u`, written with `phi`.
pub open spec fn omega_by_phi(u: int, t: u32, p: u32) -> int {
    ((1 - t + phi(u, t, p)) * pow2(t as nat) - u) * pow2((64 - p - phi(u, t, p)) as nat)
}

/// The sum of `2^(64 - p - phi(k))` over the values `lo..hi` that register
/// `r` does not hold.
pub open spec fn missing_weights_by_phi(r: u64, u: int, d: u32, t: u32, p: u32, lo: int, hi: int) -> int
    decreases hi - lo,
{
    if hi <= lo {
        0
    } else {
        missing_weights_by_phi(r, u, d, t, p, lo, hi - 1) + (if bit_of(r, value_pos(hi - 1, u, d)) {
            0
        } else {
            pow2((64 - p - phi(hi - 1, t, p)) as nat) as int
        })
    }
}

/// The number of values `lo..hi` with `phi(k) - t - 1 == i` that register `r` holds.
pub open spec fn held_by_phi(r: u64, u: int, d: u32, t: u32, p: u32, lo: int, hi: int, i: int) -> int
    decreases hi - lo,
{
    if hi <= lo {
        0
    } else {
        held_by_phi(r, u, d, t, p, lo, hi - 1, i) + (if bit_of(r, value_pos(hi - 1, u, d)) && phi(
            hi - 1,
            t,
            p,
        ) - t - 1 == i {
            1int
        } else {
            0int
        })
    }
}

/// For a positive update value, `phi` is `t + 1` plus its level.
proof fn lemma_phi_level(k: int, t: u32, p: u32)
    requires
        k >= 1,
        t + p <= 26,
    ensures
        phi(k, t, p) == t + 1 + level_of(k, t, p),
        64 - p - phi(k, t, p) == top_level(t, p) - level_of(k, t, p),
{
}

/// The sums written with `phi` are the sums written with levels.
proof fn lemma_sums_by_phi(r: u64, u: int, d: u32, t: u32, p: u32, lo: int, hi: int, i: int)
    requires
        1 <= lo,
        t + p <= 26,
    ensures
        missing_weights_by_phi(r, u, d, t, p, lo, hi) == zero_weights(r, u, d, t, p, lo, hi),
        held_by_phi(r, u, d, t, p, lo, hi, i) == held_at_level(r, u, d, t, p, lo, hi, i),
    decreases hi - lo,
{
    if hi > lo {
        lemma_sums_by_phi(r, u, d, t, p, lo, hi - 1, i);
        lemma_phi_level(hi - 1, t, p);
    }
}

/// What a register contributes, written as the probability exponents `phi`:
/// the weight `((1 - t + phi(u)) * 2^t - u) * 2^(64 - p - phi(u))` of the
/// values above its largest value `u`, plus `2^(64 - p - phi(k))` for every
/// value `k` in its window that it does not hold; and it counts, at level
/// `phi(k) - t - 1`, its largest value and every value it holds.
pub proof fn law_contribute_by_phi(r: u64, t: u32, d: u32, p: u32, i: int)
    requires
        valid_params(t, d, p),
    ensures
        spec_contribute(r, t, d, p) == omega_by_phi((r >> d) as int, t, p) + missing_weights_by_phi(
            r,
            (r >> d) as int,
            d,
            t,
            p,
            window_low((r >> d) as int, d),
            (r >> d) as int,
        ),
        contribute_count(r, t, d, p, i) == (if (r >> d) >= 1 && phi((r >> d) as int, t, p) - t - 1
            == i {
            1int
        } else {
            0int
        }) + held_by_phi(r, (r >> d) as int, d, t, p, window_low((r >> d) as int, d), (r >> d) as int, i),
{
    let u = (r >> d) as int;
    lemma_sums_by_phi(r, u, d, t, p, window_low(u, d), u, i);
    if u == 0 {
        vstd::arithmetic::power2::lemma_pow2_adds(t as nat, (64 - p - t) as nat);
        assert((t as nat + (64 - p - t) as nat) as nat == (64 - p) as nat);
        assert(phi(0, t, p) == t);
        let w = pow2(t as nat) as int;
        let ph = phi(0, t, p);
        assert((1 - t + ph) * w - 0 == w) by (nonlinear_arith)
            requires
                ph == t,
        ;
        assert(omega_by_phi(0, t, p) == pow2(t as nat) * pow2((64 - p - t) as nat));
        assert(omega_by_phi(u, t, p) == omega(u, t, p));
    } else {
        lemma_phi_level(u, t, p);
        let lev = level_of(u, t, p);
        assert(1 - t + phi(u, t, p) == lev + 2);
        assert((64 - p - phi(u, t, p)) as nat == (top_level(t, p) - lev) as nat);
        assert(omega_by_phi(u, t, p) == omega(u, t, p));
    }
}

} // verus!

//! 32-bit tokens: the register-relevant part of a 64-bit hash.

use vstd::prelude::*;
use vstd::std_specs::bits::u64_leading_zeros;
use crate::params::{valid_params, V};
use crate::sketch::{hash_index, hash_level, hash_mask, SketchView};

verus! {

/// The low `v` bits set.
pub open spec fn token_mask(v: u32) -> u64 {
    u64::MAX >> ((64 - v) as u32)
}

/// The token of a hash: its low `v` bits, shifted up by six, and the number of
/// leading zeros of the hash with those bits set.
pub open spec fn spec_compute_token(hash_value: u64, v: u32) -> u32 {
    ((((hash_value & token_mask(v)) as u32) << 6u32) | (u64_leading_zeros(
        hash_value | token_mask(v),
    ) as u32)) as u32
}

/// A hash that has the token's low `v` bits and its number of leading zeros.
pub open spec fn spec_reconstruct_hash(token: u32, v: u32) -> u64 {
    (((u64::MAX >> v) >> (token & 0x3fu32)) << v) | ((token >> 6u32) as u64)
}

/// The token of a hash.
pub fn compute_token(hash_value: u64, v: u32) -> (r: u32)
    requires
        1 <= v <= 64,
    ensures
        r == spec_compute_token(hash_value, v),
{
    let mask = u64::MAX >> (64 - v);
    let idx = (hash_value & mask) as u32;
    let nlz = (hash_value | mask).leading_zeros();
    (idx << 6) | nlz
}

/// A hash with the register-relevant bits of a token.
pub fn reconstruct_hash(token: u32, v: u32) -> (r: u64)
    requires
        v < 64,
    ensures
        r == spec_reconstruct_hash(token, v),
{
    let idx = (token >> 6) as u64;
    let nlz = token & 0x3f;
    proof {
        lemma_token_facts(0, 0, 0, 0, 0, 0, 0, token);
    }
    ((u64::MAX >> v) >> nlz) << v | idx
}

/// Facts about the parts of a token, for the bit-vector solver.
proof fn lemma_token_facts(h: u64, a: u64, x: u64, y: u64, t: u32, p: u32, tp: u64, token: u32)
    by (bit_vector)
    ensures
        a <= 63 ==> (((((((h & 0x3ff_ffffu64) as u32) << 6u32) | (a as u32)) as u32) >> 6u32)
            as u64) == h & 0x3ff_ffffu64,
        a <= 63 ==> (((((h & 0x3ff_ffffu64) as u32) << 6u32) | (a as u32)) as u32) & 0x3fu32 == a
            as u32,
        t + p <= 26 && 2 <= t + p ==> (((1u64 << t) << p) - 1) as u64 == (((1u64 << ((t + p)
            as u64)) - 1) as u64),
        u64::MAX >> ((64 - 26u32) as u32) == 0x3ff_ffffu64,
        t <= tp && tp <= 26 && x & (((1u64 << tp) - 1) as u64) == y & (((1u64 << tp) - 1) as u64)
            ==> x & (((1u64 << t) - 1) as u64) == y & (((1u64 << t) - 1) as u64),
        token & 0x3fu32 < 64,
        ((h | 0x3ff_ffffu64) >> 25u64) & 1u64 == 1u64,
{
}

proof fn lemma_token_parts(h: u64, a: u64)
    requires
        a <= 63,
    ensures
        (((((((h & 0x3ff_ffffu64) as u32) << 6u32) | (a as u32)) as u32) >> 6u32) as u64) == h
            & 0x3ff_ffffu64,
        (((((h & 0x3ff_ffffu64) as u32) << 6u32) | (a as u32)) as u32) & 0x3fu32 == a as u32,
{
    lemma_token_facts(h, a, 0, 0, 0, 0, 0, 0);
}

/// Facts about the top set bit of a number, for the bit-vector solver.
proof fn lemma_top_bit_facts(x: u64, a: u64, b: u64)
    by (bit_vector)
    ensures
        a < 64 && b < 64 && x >> a == 1 && (x >> b) & 1 == 1 && x >> ((b + 1) as u64) == 0 ==> a
            == b,
        b < 64 && (x >> b) & 1 == 1 && x >> ((b + 1) as u64) == 0 ==> x >> b == 1,
        a < 64 && x >> a == 1 ==> x != 0,
        (x >> b) & 1 == 0 || (x >> b) & 1 == 1,
{
}

proof fn lemma_top_bit_unique(x: u64, a: u64, b: u64)
    requires
        a < 64,
        b < 64,
        x >> a == 1,
        (x >> b) & 1 == 1,
        x >> ((b + 1) as u64) == 0,
    ensures
        a == b,
{
    lemma_top_bit_facts(x, a, b);
}

proof fn lemma_top_bit(x: u64, b: u64)
    requires
        b < 64,
        (x >> b) & 1 == 1,
        x >> ((b + 1) as u64) == 0,
    ensures
        x >> b == 1,
{
    lemma_top_bit_facts(x, 0, b);
}

/// The leading zeros of a number whose top set bit is bit `63 - n`.
pub proof fn lemma_leading_zeros_of(x: u64, n: u64)
    requires
        n < 64,
        x >> ((63 - n) as u64) == 1,
    ensures
        u64_leading_zeros(x) == n,
{
    vstd::std_specs::bits::axiom_u64_leading_zeros(x);
    let z = u64_leading_zeros(x);
    lemma_top_bit_facts(x, (63 - n) as u64, 0);
    assert(z < 64);
    let b = (63 - z) as u64;
    assert((x >> b) & 1u64 != 0u64);
    assert(x >> ((b + 1) as u64) == 0);
    lemma_bit_01_here(x, b);
    lemma_top_bit_unique(x, (63 - n) as u64, b);
}

proof fn lemma_bit_01_here(x: u64, j: u64)
    ensures
        (x >> j) & 1 == 0 || (x >> j) & 1 == 1,
{
    lemma_top_bit_facts(x, 0, j);
}

/// The top set bit of a number with `n < 64` leading zeros is bit `63 - n`.
pub proof fn lemma_top_of_leading_zeros(x: u64)
    requires
        u64_leading_zeros(x) < 64,
    ensures
        x >> ((63 - u64_leading_zeros(x)) as u64) == 1,
{
    vstd::std_specs::bits::axiom_u64_leading_zeros(x);
    let z = u64_leading_zeros(x);
    let b = (63 - z) as u64;
    assert((x >> b) & 1u64 != 0u64);
    assert(x >> ((b + 1) as u64) == 0);
    lemma_bit_01_here(x, b);
    lemma_top_bit(x, b);
}

proof fn lemma_token_top(h: u64, a: u64, b: u64, tp: u64)
    by (bit_vector)
    requires
        2 <= tp <= 26,
        a <= 38,
        b <= 64 - tp,
        (h | 0x3ff_ffffu64) >> ((63 - a) as u64) == 1,
        (h | (((1u64 << tp) - 1) as u64)) >> ((63 - b) as u64) == 1,
    ensures
        ((((((u64::MAX >> 26u32) >> (a as u32)) << 26u32) | (h & 0x3ff_ffffu64)) | (((1u64
            << tp) - 1) as u64)) >> ((63 - b) as u64)) == 1,
        (((((u64::MAX >> 26u32) >> (a as u32)) << 26u32) | (h & 0x3ff_ffffu64)) & (((1u64 << tp)
            - 1) as u64)) == (h & (((1u64 << tp) - 1) as u64)),
{
}

proof fn lemma_masks(t: u32, p: u32)
    requires
        t + p <= 26,
        2 <= t + p,
    ensures
        (((1u64 << t) << p) - 1) as u64 == (((1u64 << ((t + p) as u64)) - 1) as u64),
        u64::MAX >> ((64 - 26u32) as u32) == 0x3ff_ffffu64,
{
    lemma_token_facts(0, 0, 0, 0, t, p, 0, 0);
}

proof fn lemma_low_part(x: u64, y: u64, t: u32, tp: u64)
    requires
        t <= tp <= 26,
        x & (((1u64 << tp) - 1) as u64) == y & (((1u64 << tp) - 1) as u64),
    ensures
        x & (((1u64 << t) - 1) as u64) == y & (((1u64 << t) - 1) as u64),
{
    lemma_token_facts(0, 0, x, y, t, 0, tp, 0);
}

/// A hash rebuilt from its token picks the same register and gives the same
/// update value as the hash itself, for every sketch with `t + p <= V`.
pub proof fn lemma_token_round_trip(h: u64, t: u32, p: u32)
    requires
        2 <= p,
        t + p <= V,
    ensures
        hash_index(spec_reconstruct_hash(spec_compute_token(h, V), V), t, p) == hash_index(h, t, p),
        hash_level(spec_reconstruct_hash(spec_compute_token(h, V), V), t, p) == hash_level(h, t, p),
{
    let tp = (t + p) as u64;
    lemma_masks(t, p);
    let m26 = token_mask(V);
    assert(m26 == 0x3ff_ffffu64);
    let a = u64_leading_zeros(h | m26);
    // the token keeps `a`: the low 26 bits are set, so at most 38 leading zeros
    vstd::std_specs::bits::axiom_u64_leading_zeros(h | m26);
    assert(a <= 38) by {
        if a > 38 {
            let j = 25u64;
            assert(64 - a <= j < 64);
            assert(((h | m26) >> j) & 1u64 == 0u64);
            lemma_token_facts(h, 0, 0, 0, 0, 0, 0, 0);
        }
    }
    lemma_token_parts(h, a as u64);
    let hr = spec_reconstruct_hash(spec_compute_token(h, V), V);
    assert(hr == ((((u64::MAX >> 26u32) >> (a as u32)) << 26u32) | (h & 0x3ff_ffffu64)));
    let m = hash_mask(t, p);
    crate::sketch::lemma_level_nlz(h, t, p);
    let b = u64_leading_zeros(h | m);
    lemma_top_of_leading_zeros(h | m26);
    lemma_top_of_leading_zeros(h | m);
    lemma_token_top(h, a as u64, b as u64, tp);
    lemma_leading_zeros_of(hr | m, b as u64);
    assert((hr & m) == (h & m));
    lemma_low_part(hr, h, t, tp);
}

/// Adding the hash rebuilt from a hash's token is adding the hash itself.
pub proof fn law_token_insert(v: SketchView, h: u64)
    requires
        valid_params(v.t, v.d, v.p),
    ensures
        v.insert_hash(spec_reconstruct_hash(spec_compute_token(h, V), V)) == v.insert_hash(h),
{
    lemma_token_round_trip(h, v.t, v.p);
}


proof fn lemma_field_facts(h: u64, token: u32)
    by (bit_vector)
    ensures
        h & 0x3ff_ffffu64 == h % 0x400_0000u64,
        token & 0x3fu32 <= 38 ==> ((((((u64::MAX >> 26u32) >> (token & 0x3fu32)) << 26u32) | ((
        token >> 6u32) as u64)) | 0x3ff_ffffu64) >> ((63 - (token & 0x3fu32)) as u64)) == 1,
        ((((u64::MAX >> 26u32) >> (token & 0x3fu32)) << 26u32) | ((token >> 6u32) as u64))
            % 0x400_0000u64 == (token >> 6u32) as u64,
        token & 0x3fu32 >= 38 ==> ((((u64::MAX >> 26u32) >> (token & 0x3fu32)) << 26u32) | ((
        token >> 6u32) as u64)) == (token >> 6u32) as u64,
{
}

/// The number of leading zeros of a hash with its low `V` bits set is at most `64 - V`.
proof fn lemma_token_nlz(h: u64)
    ensures
        u64_leading_zeros(h | 0x3ff_ffffu64) <= 38,
{
    let a = u64_leading_zeros(h | 0x3ff_ffffu64);
    vstd::std_specs::bits::axiom_u64_leading_zeros(h | 0x3ff_ffffu64);
    if a > 38 {
        let j = 25u64;
        assert(64 - a <= j < 64);
        assert(((h | 0x3ff_ffffu64) >> j) & 1u64 == 0u64);
        lemma_token_facts(h, 0, 0, 0, 0, 0, 0, 0);
    }
}

/// The token of a hash holds, in its low six bits, the number of leading
/// zeros of the hash with its low `V` bits set, and above them the low `V`
/// bits of the hash.
pub proof fn law_token_fields(h: u64)
    ensures
        spec_compute_token(h, V) & 0x3f == u64_leading_zeros(h | 0x3ff_ffff) as u32,
        (spec_compute_token(h, V) >> 6) as u64 == h % 0x400_0000,
{
    lemma_masks(2, 2);
    assert(token_mask(V) == 0x3ff_ffffu64);
    lemma_token_nlz(h);
    let a = u64_leading_zeros(h | 0x3ff_ffffu64);
    lemma_token_parts(h, a as u64);
    lemma_field_facts(h, 0);
}

/// The hash rebuilt from a token has the token's low `V` bits; where the
/// token's leading-zero field is at most `64 - V`, it has that many leading
/// zeros once its low `V` bits are set, and above that it is just the low bits.
pub proof fn law_reconstructed_fields(token: u32)
    ensures
        token & 0x3f <= 64 - V ==> u64_leading_zeros(spec_reconstruct_hash(token, V) | 0x3ff_ffff)
            == token & 0x3f,
        token & 0x3f >= 64 - V ==> spec_reconstruct_hash(token, V) == (token >> 6) as u64,
        spec_reconstruct_hash(token, V) % 0x400_0000 == (token >> 6) as u64,
{
    lemma_field_facts(0, token);
    if token & 0x3f <= 64 - V {
        lemma_leading_zeros_of(
            spec_reconstruct_hash(token, V) | 0x3ff_ffffu64,
            (token & 0x3fu32) as u64,
        );
    }
}

} // verus!

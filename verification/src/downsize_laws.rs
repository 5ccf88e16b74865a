//! What moving a register to a smaller sketch does to the update values it
//! holds, and why downsizing a sketch is inserting its hashes anew.

use vstd::prelude::*;
use crate::bits::bit_of;
use vstd::arithmetic::power2::pow2;
use vstd::std_specs::bits::{u32_leading_zeros, u64_leading_zeros};
use crate::params::valid_params;
use crate::sketch::{hash_index, hash_level, hash_mask};
use crate::downsize::{
    downsize_fits, downsize_params_ok, downsize_pre_add, downsize_shift, spec_downsize_register,
    DownsizeParams,
};
use crate::register::spec_shift_right;
use crate::register::insert_register;
use crate::register_laws::{fits_level, holds, lemma_insert_holds, valid_register};

verus! {

/// The update value that `x` becomes in the smaller sketch: the values at or
/// above the threshold grow by `sh`.
pub open spec fn down_level(x: int, thr: int, sh: int) -> int {
    if x >= thr {
        x + sh
    } else {
        x
    }
}

/// `v` is the image of a value that register `r` holds.
pub open spec fn downsize_image(r: u64, fd: u32, v: int, thr: int, sh: int) -> bool {
    (v >= thr + sh && holds(r, fd, v - sh)) || (v < thr && holds(r, fd, v))
}

proof fn lemma_shift_down_facts(r: u64, a: u32, fd: u32, td: u32)
    requires
        td <= fd < 64,
        a + td == fd,
    ensures
        (r >> a) >> td == r >> fd,
{
    vstd::bits::lemma_u64_shr_is_div(r, a as u64);
    vstd::bits::lemma_u64_shr_is_div(r >> a, td as u64);
    vstd::bits::lemma_u64_shr_is_div(r, fd as u64);
    vstd::arithmetic::power2::lemma_pow2_pos(a as nat);
    vstd::arithmetic::power2::lemma_pow2_pos(td as nat);
    vstd::arithmetic::power2::lemma_pow2_adds(a as nat, td as nat);
    vstd::arithmetic::div_mod::lemma_div_denominator(
        r as int,
        vstd::arithmetic::power2::pow2(a as nat) as int,
        vstd::arithmetic::power2::pow2(td as nat) as int,
    );
}

proof fn lemma_shift_down_bit(r: u64, a: u64, j: u64)
    by (bit_vector)
    requires
        j + a < 64,
    ensures
        ((r >> a) >> j) & 1 == (r >> (j + a)) & 1,
{
}

proof fn lemma_pre_add_facts(r1: u64, u: u64, n: u32, sh: u32, td: u32, j: u64)
    by (bit_vector)
    requires
        td < 64,
        0 < n <= td,
        r1 >> td == u,
        j < td,
    ensures
        ((((u64::MAX << n) & r1) | spec_shift_right(r1 & !(u64::MAX << n), sh as u64)) >> td) == u,
        (((((u64::MAX << n) & r1) | spec_shift_right(r1 & !(u64::MAX << n), sh as u64)) >> j) & 1
            == 1) == (if j >= n {
            (r1 >> j) & 1 == 1
        } else {
            j + sh < n && (r1 >> ((j + sh) as u64)) & 1 == 1
        }),
{
}

proof fn lemma_add_high_facts(pre: u64, u: u64, sh: u32, td: u32, j: u64)
    by (bit_vector)
    requires
        td < 64,
        pre >> td == u,
        u + sh < 0x1_0000_0000,
        (((u + sh) as u64) << td) >> td == (u + sh) as u64,
    ensures
        pre + ((sh as u64) << td) <= u64::MAX,
        ((pre + ((sh as u64) << td)) as u64) >> td == u + sh,
        j < td ==> (((pre + ((sh as u64) << td)) as u64) >> j) & 1 == (pre >> j) & 1,
{
}

/// The largest value of register `r`, raised by the shift, still fits a
/// register with `to_d` history bits.
pub open spec fn downsize_room(r: u64, s: u32, prm: DownsizeParams) -> bool {
    let x = ((r >> prm.from_d) + downsize_shift(s, prm)) as u64;
    &&& (r >> prm.from_d) + downsize_shift(s, prm) < 0x1_0000_0000
    &&& (x << prm.to_d) >> prm.to_d == x
}

/// The bits of the register before the update values at the threshold are raised.
proof fn lemma_pre_add_bits(r: u64, s: u32, prm: DownsizeParams)
    requires
        downsize_params_ok(prm),
        (r >> prm.from_d) >= prm.threshold_u,
        r >> prm.from_d < 0x1_0000_0000,
    ensures
        downsize_pre_add(r, s, prm) >> prm.to_d == r >> prm.from_d,
        forall|j: int|
            0 <= j < prm.to_d ==> #[trigger] bit_of(downsize_pre_add(r, s, prm), j) == {
                let n = prm.to_d + prm.threshold_u - (r >> prm.from_d);
                let sh = downsize_shift(s, prm) as int;
                if j >= n {
                    bit_of(r, j + prm.from_d - prm.to_d)
                } else {
                    j + sh < n && bit_of(r, j + sh + prm.from_d - prm.to_d)
                }
            },
{
    let fd = prm.from_d;
    let td = prm.to_d;
    let a = (fd - td) as u32;
    let u = r >> fd;
    let r1 = r >> a;
    let n = td + prm.threshold_u - u;
    let sh = downsize_shift(s, prm);
    lemma_shift_down_facts(r, a, fd, td);
    if n > 0 {
        assert forall|j: int| 0 <= j < td implies #[trigger] bit_of(downsize_pre_add(r, s, prm), j)
            == (if j >= n {
            bit_of(r, j + fd - td)
        } else {
            j + sh < n && bit_of(r, j + sh + fd - td)
        }) by {
            lemma_pre_add_facts(r1, u, n as u32, sh, td, j as u64);
            lemma_shift_down_bit(r, a as u64, j as u64);
            if j + sh < n {
                lemma_shift_down_bit(r, a as u64, (j + sh) as u64);
            }
        }
        lemma_pre_add_facts(r1, u, n as u32, sh, td, 0);
    } else {
        assert forall|j: int| 0 <= j < td implies #[trigger] bit_of(downsize_pre_add(r, s, prm), j)
            == (if j >= n {
            bit_of(r, j + fd - td)
        } else {
            j + sh < n && bit_of(r, j + sh + fd - td)
        }) by {
            lemma_shift_down_bit(r, a as u64, j as u64);
        }
    }
}

/// Moving register `r` down keeps the images of the values it holds, as far
/// as they are within `to_d` of the image of its largest value.
pub proof fn lemma_downsize_holds(r: u64, s: u32, prm: DownsizeParams)
    requires
        downsize_params_ok(prm),
        downsize_room(r, s, prm),
    ensures
        downsize_fits(r, s, prm),
        spec_downsize_register(r, s, prm) >> prm.to_d == down_level(
            (r >> prm.from_d) as int,
            prm.threshold_u as int,
            downsize_shift(s, prm) as int,
        ),
        forall|v: int| #[trigger]
            holds(spec_downsize_register(r, s, prm), prm.to_d, v) == (downsize_image(
                r,
                prm.from_d,
                v,
                prm.threshold_u as int,
                downsize_shift(s, prm) as int,
            ) && v >= down_level(
                (r >> prm.from_d) as int,
                prm.threshold_u as int,
                downsize_shift(s, prm) as int,
            ) - prm.to_d),
{
    let fd = prm.from_d;
    let td = prm.to_d;
    let a = (fd - td) as u32;
    let u = r >> fd;
    let thr = prm.threshold_u as int;
    let sh = downsize_shift(s, prm) as int;
    let big = down_level(u as int, thr, sh);
    let dr = spec_downsize_register(r, s, prm);
    lemma_shift_down_facts(r, a, fd, td);
    if u >= prm.threshold_u && sh > 0 {
        let pre = downsize_pre_add(r, s, prm);
        lemma_pre_add_bits(r, s, prm);
        lemma_add_high_facts(pre, u, sh as u32, td, 0);
        assert(dr == (pre + ((sh as u64) << td)) as u64);
        assert forall|v: int| #[trigger]
            holds(dr, td, v) == (downsize_image(r, fd, v, thr, sh) && v >= big - td) by {
            if big - td <= v < big {
                let j = v - big + td;
                lemma_add_high_facts(pre, u, sh as u32, td, j as u64);
                assert(bit_of(dr, j) == bit_of(pre, j));
            }
        }
    } else {
        assert(dr == r >> a);
        assert forall|v: int| #[trigger]
            holds(dr, td, v) == (downsize_image(r, fd, v, thr, sh) && v >= big - td) by {
            if big - td <= v < big {
                let j = v - big + td;
                lemma_shift_down_bit(r, a as u64, j as u64);
            }
        }
    }
}

/// Moving a register down commutes with inserting: the image of the inserted
/// value is what the moved register gets.
pub proof fn lemma_downsize_insert(r: u64, k: u64, s: u32, prm: DownsizeParams)
    requires
        downsize_params_ok(prm),
        fits_level(k, prm.from_d),
        downsize_room(r, s, prm),
        downsize_room(insert_register(r, k, prm.from_d), s, prm),
        fits_level(
            down_level(k as int, prm.threshold_u as int, downsize_shift(s, prm) as int) as u64,
            prm.to_d,
        ),
        0 <= down_level(k as int, prm.threshold_u as int, downsize_shift(s, prm) as int)
            <= u64::MAX,
    ensures
        spec_downsize_register(insert_register(r, k, prm.from_d), s, prm) == insert_register(
            spec_downsize_register(r, s, prm),
            down_level(k as int, prm.threshold_u as int, downsize_shift(s, prm) as int) as u64,
            prm.to_d,
        ),
{
    let fd = prm.from_d;
    let td = prm.to_d;
    let thr = prm.threshold_u as int;
    let sh = downsize_shift(s, prm) as int;
    let ri = insert_register(r, k, fd);
    let fk = down_level(k as int, thr, sh) as u64;
    let dr = spec_downsize_register(r, s, prm);
    lemma_insert_holds(r, k, fd);
    lemma_downsize_holds(r, s, prm);
    lemma_downsize_holds(ri, s, prm);
    lemma_insert_holds(dr, fk, td);
    let x = spec_downsize_register(ri, s, prm);
    let y = insert_register(dr, fk, td);
    assert forall|v: int| #[trigger] holds(x, td, v) == holds(y, td, v) by {}
    crate::register_laws::lemma_register_ext(x, y, td);
}

/// Moving a valid register down keeps it valid.
pub proof fn lemma_downsize_valid(r: u64, s: u32, prm: DownsizeParams)
    requires
        downsize_params_ok(prm),
        downsize_room(r, s, prm),
        valid_register(r, prm.from_d),
    ensures
        valid_register(spec_downsize_register(r, s, prm), prm.to_d),
{
    let fd = prm.from_d;
    let td = prm.to_d;
    lemma_downsize_holds(r, s, prm);
    let dr = spec_downsize_register(r, s, prm);
    let thr = prm.threshold_u as int;
    assert(thr >= 1) by {
        crate::downsize_laws::lemma_threshold_pos(prm.t, prm.from_p);
    }
    if r >> fd == 0 {
        assert(r == 0);
        lemma_shift_down_facts(r, (fd - td) as u32, fd, td);
        assert(dr == 0u64 >> ((fd - td) as u32));
        crate::register_laws::lemma_zero_shift_any((fd - td) as u32);
    }
    if 0 < dr >> td <= td {
        assert(holds(r, fd, 0));
    }
}

/// The threshold is at least one.
pub proof fn lemma_threshold_pos(t: u32, from_p: u32)
    requires
        t <= 24,
        t + from_p <= 64,
    ensures
        crate::downsize::spec_downsize_threshold_u(t, from_p) >= 1,
{
    let a = (64 - t - from_p) as u64;
    assert((a << t) | 1 >= 1) by (bit_vector);
}

/// The downsizing threshold lies just above the update values of hashes
/// with a set bit above the low `t + from_p` bits; this fails only for
/// `t == 0` with an odd `from_p`.
pub open spec fn threshold_exact(t: u32, from_p: u32) -> bool {
    t >= 1 || from_p % 2 == 0
}

/// Moving registers from precision `from_p` to `to_p` agrees with inserting
/// directly: the precision stays, or the threshold is exact.
pub open spec fn downsize_exact(t: u32, from_p: u32, to_p: u32) -> bool {
    threshold_exact(t, from_p) || from_p == to_p
}

/// The parameters that move registers of precision `fp` and `fd` history bits
/// to precision `tp` and `td` history bits.
pub open spec fn params_between(t: u32, fd: u32, fp: u32, td: u32, tp: u32) -> DownsizeParams {
    DownsizeParams {
        t,
        from_d: fd,
        to_d: td,
        from_p: fp,
        to_p: tp,
        threshold_u: crate::downsize::spec_downsize_threshold_u(t, fp),
    }
}

proof fn lemma_hash_split_facts(h: u64, t: u32, fp: u32, tp: u32)
    by (bit_vector)
    requires
        t <= 24,
        2 <= tp <= fp,
        t + fp <= 26,
    ensures
        ((h & hash_mask(t, fp)) >> t) == ((h & hash_mask(t, tp)) >> t) + ((((h & hash_mask(t, fp))
            >> t) >> (tp as u64)) << (tp as u64)),
        (((h & hash_mask(t, fp)) >> t) >> (tp as u64)) < (1u64 << ((fp - tp) as u64)),
        ((h & hash_mask(t, tp)) >> t) < (1u64 << (tp as u64)),
        h >> ((t + fp) as u64) == 0 ==> ((h & hash_mask(t, fp)) >> t) >> (tp as u64) == h >> ((t
            + tp) as u64),
        h & (((1u64 << t) - 1) as u64) < (1u64 << t),
        (h | hash_mask(t, fp)) >> ((t + fp - 1) as u64) == 1 ==> h >> ((t + fp) as u64) == 0,
{
}

proof fn lemma_top_above_facts(h: u64, n: u64, t: u32, fp: u32, tp: u32)
    by (bit_vector)
    requires
        t <= 24,
        2 <= tp <= fp,
        t + fp <= 26,
        n <= 63 - t - fp,
        (h | hash_mask(t, fp)) >> ((63 - n) as u64) == 1,
    ensures
        (h | hash_mask(t, tp)) >> ((63 - n) as u64) == 1,
{
}

proof fn lemma_top_below_facts(h: u64, w: u64, t: u32, fp: u32, tp: u32)
    by (bit_vector)
    requires
        t <= 24,
        2 <= tp <= fp,
        t + fp <= 26,
        w <= fp - tp,
        h >> ((t + fp) as u64) == 0,
        (h >> ((t + tp) as u64) == 0 && w == 0) || (w >= 1 && (h >> ((t + tp) as u64)) >> ((w
            - 1) as u64) == 1),
    ensures
        (h | hash_mask(t, fp)) >> ((t + fp - 1) as u64) == 1,
        (h | hash_mask(t, tp)) >> ((t + tp + w - 1) as u64) == 1,
{
}

proof fn lemma_sub_width_facts(s: u32, z: u32)
    by (bit_vector)
    requires
        z < 32,
        (s >> ((31 - z) as u32)) & 1 != 0,
        s >> ((32 - z) as u32) == 0,
    ensures
        (s as u64) >> ((31 - z) as u64) == 1,
{
}

proof fn lemma_level_shift_facts(n: u64, low: u64, t: u32, a: u64, c: u64)
    by (bit_vector)
    requires
        t <= 24,
        n <= 64,
        a <= 64,
        low < (1u64 << t),
        c <= 64,
    ensures
        (n << t) + low + 1 < 0x1_0000_0000,
        n + 1 <= c ==> (n << t) + low + 1 <= (c << t),
        n == c ==> (n << t) + low + 1 >= ((c << t) | 1),
        (t >= 1 || c % 2 == 0) ==> ((c << t) | 1) == (c << t) + 1,
        (((n + a) as u64) << t) == (n << t) + (a << t),
{
}

/// A hash picks register `i + s * 2^tp` of the larger sketch, where `i` is
/// the register it picks in the smaller one; its update value there is the
/// image of its update value in the larger one.
pub proof fn lemma_hash_down(h: u64, t: u32, fd: u32, fp: u32, td: u32, tp: u32)
    requires
        valid_params(t, fd, fp),
        valid_params(t, td, tp),
        tp <= fp,
        td <= fd,
        downsize_exact(t, fp, tp),
    ensures
        ({
            let j = hash_index(h, t, fp);
            let i = hash_index(h, t, tp);
            let s = j / (pow2(tp as nat) as int);
            let prm = params_between(t, fd, fp, td, tp);
            &&& 0 <= i < pow2(tp as nat)
            &&& 0 <= s < pow2((fp - tp) as nat)
            &&& j == i + s * pow2(tp as nat)
            &&& hash_level(h, t, tp) as int == down_level(
                hash_level(h, t, fp) as int,
                prm.threshold_u as int,
                downsize_shift(s as u32, prm) as int,
            )
        }),
{
    let j = hash_index(h, t, fp);
    let i = hash_index(h, t, tp);
    let prm = params_between(t, fd, fp, td, tp);
    if fp == tp {
        crate::sketch::lemma_hash_index_bound(h, t, fp);
        vstd::arithmetic::power2::lemma_pow2_pos(fp as nat);
        vstd::arithmetic::div_mod::lemma_basic_div(j, pow2(fp as nat) as int);
        vstd::std_specs::bits::axiom_u32_leading_zeros(0);
        assert(0u32 << t == 0u32) by (bit_vector);
        vstd::arithmetic::power2::lemma2_to64();
        assert(downsize_shift(0, prm) == 0);
        return;
    }
    let ju = (h & hash_mask(t, fp)) >> t;
    lemma_hash_split_facts(h, t, fp, tp);
    let su = ju >> (tp as u64);
    vstd::bits::lemma_u64_shr_is_div(ju, tp as u64);
    vstd::bits::lemma_u64_pow2_no_overflow(tp as nat);
    vstd::bits::lemma_u64_pow2_no_overflow((fp - tp) as nat);
    vstd::bits::lemma_u64_shl_is_mul(1, (fp - tp) as u64);
    vstd::bits::lemma_u64_shl_is_mul(1, tp as u64);
    assert(su * pow2(tp as nat) <= ju) by (nonlinear_arith)
        requires
            su == ju as int / pow2(tp as nat) as int,
            pow2(tp as nat) > 0,
    ;
    vstd::bits::lemma_u64_shl_is_mul(su, tp as u64);
    let s = j / (pow2(tp as nat) as int);
    assert(s == su);
    let low = h & crate::register::low_mask(t);
    let m_fp = h | hash_mask(t, fp);
    let m_tp = h | hash_mask(t, tp);
    crate::sketch::lemma_level_nlz(h, t, fp);
    crate::sketch::lemma_level_nlz(h, t, tp);
    let nfp = u64_leading_zeros(m_fp);
    crate::token::lemma_top_of_leading_zeros(m_fp);
    let c = (64 - t - fp) as u64;
    assert(prm.threshold_u == (((c << t) | 1) as u64));
    if nfp <= 63 - t - fp {
        lemma_top_above_facts(h, nfp as u64, t, fp, tp);
        crate::token::lemma_leading_zeros_of(m_tp, nfp as u64);
        lemma_level_shift_facts(nfp as u64, low, t, 0, c);
        assert(0 <= i < pow2(tp as nat));
        assert(0 <= s < pow2((fp - tp) as nat));
        assert(j == i + s * pow2(tp as nat));
        assert(hash_level(h, t, fp) < prm.threshold_u);
        assert(hash_level(h, t, tp) == hash_level(h, t, fp));
    } else {
        assert(nfp == 64 - t - fp);
        assert(h >> ((t + fp) as u64) == 0);
        let s32 = su as u32;
        vstd::arithmetic::power2::lemma2_to64();
        if fp - tp < 24 {
            vstd::arithmetic::power2::lemma_pow2_strictly_increases((fp - tp) as nat, 24);
        }
        assert(su < 0x100_0000);
        assert(s32 as u64 == su);
        vstd::std_specs::bits::axiom_u32_leading_zeros(s32);
        let z = u32_leading_zeros(s32);
        let w = crate::downsize::sub_index_width(s32);
        vstd::bits::lemma_u32_shr_is_div(s32, (fp - tp) as u32);
        vstd::arithmetic::div_mod::lemma_basic_div(s32 as int, pow2((fp - tp) as nat) as int);
        crate::downsize::lemma_sub_index_width(s32, (fp - tp) as u32);
        if s32 != 0 {
            assert(z < 32);
            lemma_sub_width_facts(s32, z);
            assert(w == 32 - z);
        } else {
            assert(z == 32);
        }
        lemma_top_below_facts(h, w as u64, t, fp, tp);
        crate::token::lemma_leading_zeros_of(m_tp, (64 - t - tp - w) as u64);
        let a = (fp - tp - w) as u64;
        lemma_level_shift_facts(nfp as u64, low, t, a, c);
        if t < 24 {
            vstd::arithmetic::power2::lemma_pow2_strictly_increases(t as nat, 24);
        }
        assert(pow2(t as nat) <= 0x100_0000);
        assert(a * pow2(t as nat) <= 24 * 0x100_0000) by (nonlinear_arith)
            requires
                a <= 24,
                pow2(t as nat) <= 0x100_0000,
        ;
        vstd::bits::lemma_u64_shl_is_mul(a, t as u64);
        vstd::bits::lemma_u32_shl_is_mul(a as u32, t);
        assert(hash_level(h, t, fp) >= prm.threshold_u);
        assert(downsize_shift(s as u32, prm) == (a as u32) << t);
        assert(hash_level(h, t, tp) == hash_level(h, t, fp) + (a << (t as u64)));
    }
}

/// The largest update value a hash can have in a sketch of precision `p`.
pub open spec fn max_level(t: u32, p: u32) -> int {
    (65 - t - p) * pow2(t as nat)
}

proof fn lemma_room_facts(x: u64, t: u32, td: u32)
    by (bit_vector)
    requires
        t <= 24,
        td + t <= 58,
        x < (1u64 << ((t + 6) as u64)),
    ensures
        (x << td) >> td == x,
{
}

/// `2^t` for `t <= 24`, and `2^(t + 6) = 64 * 2^t` as a shift.
proof fn lemma_pow2_t(t: u32)
    requires
        t <= 24,
    ensures
        0 < pow2(t as nat) <= 0x100_0000,
        (1u64 << ((t + 6) as u64)) == 64 * pow2(t as nat),
{
    vstd::arithmetic::power2::lemma2_to64();
    vstd::arithmetic::power2::lemma_pow2_pos(t as nat);
    if t < 24 {
        vstd::arithmetic::power2::lemma_pow2_strictly_increases(t as nat, 24);
    }
    vstd::arithmetic::power2::lemma_pow2_adds(t as nat, 6);
    vstd::bits::lemma_u64_pow2_no_overflow((t + 6) as nat);
    vstd::bits::lemma_u64_shl_is_mul(1, (t + 6) as u64);
}

/// The shift of a sub-register is at most `(from_p - to_p) * 2^t`.
proof fn lemma_shift_bound(s: u32, prm: DownsizeParams)
    requires
        downsize_params_ok(prm),
        prm.from_p <= 26,
        s >> ((prm.from_p - prm.to_p) as u32) == 0,
    ensures
        0 <= downsize_shift(s, prm) <= (prm.from_p - prm.to_p) * pow2(prm.t as nat),
{
    let w = crate::downsize::sub_index_width(s);
    crate::downsize::lemma_sub_index_width(s, (prm.from_p - prm.to_p) as u32);
    let a = (prm.from_p - prm.to_p - w) as u32;
    lemma_pow2_t(prm.t);
    assert(a * pow2(prm.t as nat) <= 26 * 0x100_0000) by (nonlinear_arith)
        requires
            a <= 26,
            pow2(prm.t as nat) <= 0x100_0000,
    ;
    vstd::bits::lemma_u32_shl_is_mul(a, prm.t);
    assert(a * pow2(prm.t as nat) <= (prm.from_p - prm.to_p) * pow2(prm.t as nat)) by (nonlinear_arith)
        requires
            a <= prm.from_p - prm.to_p,
            pow2(prm.t as nat) > 0,
    ;
}

/// A register whose largest value a hash can reach has room to move down,
/// and its image stays within the smaller sketch's largest level.
pub proof fn lemma_downsize_room(r: u64, s: u32, prm: DownsizeParams)
    requires
        downsize_params_ok(prm),
        2 <= prm.to_p,
        prm.t + prm.from_p <= 26,
        prm.to_d + prm.t <= 58,
        s >> ((prm.from_p - prm.to_p) as u32) == 0,
        r >> prm.from_d <= max_level(prm.t, prm.from_p),
    ensures
        downsize_room(r, s, prm),
        spec_downsize_register(r, s, prm) >> prm.to_d <= max_level(prm.t, prm.to_p),
{
    let u = r >> prm.from_d;
    let sh = downsize_shift(s, prm);
    let t = prm.t;
    lemma_shift_bound(s, prm);
    lemma_pow2_t(t);
    let q = pow2(t as nat);
    assert(u + sh <= (65 - t - prm.to_p) * q <= 63 * q) by (nonlinear_arith)
        requires
            u <= (65 - t - prm.from_p) * q,
            sh <= (prm.from_p - prm.to_p) * q,
            2 <= prm.to_p,
            q > 0,
            prm.to_p <= prm.from_p,
    ;
    assert(63 * q < 0x1_0000_0000) by (nonlinear_arith)
        requires
            q <= 0x100_0000,
    ;
    let x = (u + sh) as u64;
    lemma_room_facts(x, t, prm.to_d);
    lemma_downsize_holds(r, s, prm);
    assert(max_level(t, prm.from_p) <= max_level(t, prm.to_p)) by (nonlinear_arith)
        requires
            prm.to_p <= prm.from_p,
            q > 0,
            max_level(t, prm.from_p) == (65 - t - prm.from_p) * q,
            max_level(t, prm.to_p) == (65 - t - prm.to_p) * q,
    ;
}

/// The image of an update value that a hash can reach stays within the
/// smaller sketch's largest level and fits a register.
pub proof fn lemma_down_level_fits(k: u64, s: u32, prm: DownsizeParams)
    requires
        downsize_params_ok(prm),
        2 <= prm.to_p,
        prm.t + prm.from_p <= 26,
        prm.to_d + prm.t <= 58,
        s >> ((prm.from_p - prm.to_p) as u32) == 0,
        k <= max_level(prm.t, prm.from_p),
    ensures
        0 <= down_level(k as int, prm.threshold_u as int, downsize_shift(s, prm) as int)
            <= max_level(prm.t, prm.to_p),
        fits_level(
            down_level(k as int, prm.threshold_u as int, downsize_shift(s, prm) as int) as u64,
            prm.to_d,
        ),
{
    let sh = downsize_shift(s, prm);
    let t = prm.t;
    lemma_shift_bound(s, prm);
    lemma_pow2_t(t);
    let q = pow2(t as nat);
    assert(k + sh <= (65 - t - prm.to_p) * q <= 63 * q) by (nonlinear_arith)
        requires
            k <= (65 - t - prm.from_p) * q,
            sh <= (prm.from_p - prm.to_p) * q,
            2 <= prm.to_p,
            q > 0,
            prm.to_p <= prm.from_p,
    ;
    assert(63 * q < 64 * q) by (nonlinear_arith)
        requires
            q > 0,
    ;
    assert((65 - t - prm.from_p) * q <= (65 - t - prm.to_p) * q) by (nonlinear_arith)
        requires
            prm.to_p <= prm.from_p,
            q > 0,
    ;
    let x = down_level(k as int, prm.threshold_u as int, sh as int) as u64;
    lemma_room_facts(x, t, prm.to_d);
}

/// The empty register moves down to the empty register.
pub proof fn lemma_downsize_zero(s: u32, prm: DownsizeParams)
    requires
        downsize_params_ok(prm),
    ensures
        spec_downsize_register(0, s, prm) == 0,
{
    lemma_threshold_pos(prm.t, prm.from_p);
    crate::register_laws::lemma_zero_shift_any(prm.from_d);
    crate::register_laws::lemma_zero_shift_any((prm.from_d - prm.to_d) as u32);
}

/// The update value of a hash from its leading zeros and low bits.
pub proof fn lemma_level_facts(n: u64, low: u64, h: u64, t: u32)
    requires
        t <= 24,
        n <= 64,
        low == h & crate::register::low_mask(t),
    ensures
        (n << t) + low + 1 < 0x1_0000_0000,
        (n << t) == n * pow2(t as nat),
        low < pow2(t as nat),
{
    lemma_hash_split_facts(h, t, 2, 2);
    lemma_pow2_t(t);
    assert(n * pow2(t as nat) <= 64 * 0x100_0000) by (nonlinear_arith)
        requires
            n <= 64,
            pow2(t as nat) <= 0x100_0000,
    ;
    vstd::bits::lemma_u64_shl_is_mul(n, t as u64);
    vstd::bits::lemma_u64_pow2_no_overflow(t as nat);
    vstd::bits::lemma_u64_shl_is_mul(1, t as u64);
    lemma_level_shift_facts(n, low, t, 0, 0);
}

/// The largest level is positive.
pub proof fn lemma_max_level_pos(t: u32, p: u32)
    requires
        t + p <= 26,
    ensures
        max_level(t, p) > 0,
{
    vstd::arithmetic::power2::lemma_pow2_pos(t as nat);
    assert((65 - t - p) * pow2(t as nat) > 0) by (nonlinear_arith)
        requires
            t + p <= 26,
            pow2(t as nat) > 0,
    ;
}

/// A largest value within the largest level fits in `6 + t` bits.
pub proof fn lemma_max_level_width(t: u32, p: u32, x: u64)
    requires
        t <= 24,
        2 <= p,
        t + p <= 26,
        x <= max_level(t, p),
    ensures
        x >> ((t + 6) as u64) == 0,
{
    lemma_pow2_t(t);
    let q = pow2(t as nat);
    assert(x < 64 * q) by (nonlinear_arith)
        requires
            x <= (65 - t - p) * q,
            2 <= p,
            q > 0,
    ;
    vstd::bits::lemma_u64_shr_is_div(x, (t + 6) as u64);
    vstd::arithmetic::power2::lemma_pow2_adds(t as nat, 6);
    vstd::arithmetic::power2::lemma2_to64();
    vstd::arithmetic::div_mod::lemma_basic_div(x as int, (64 * q) as int);
}

} // verus!

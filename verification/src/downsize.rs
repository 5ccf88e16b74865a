//! Moving register contents to a sketch with a smaller precision or a
//! smaller `d`.

use vstd::prelude::*;
use vstd::std_specs::bits::u32_leading_zeros;
use crate::register::{shift_right, spec_shift_right};

verus! {

/// The parameters of one downsizing step.
#[derive(Clone, Copy)]
pub struct DownsizeParams {
    pub t: u32,
    pub from_d: u32,
    pub to_d: u32,
    pub from_p: u32,
    pub to_p: u32,
    pub threshold_u: u64,
}

/// The smallest update value whose leading-zero part is the largest a hash can
/// have at precision `from_p`.
pub open spec fn spec_downsize_threshold_u(t: u32, from_p: u32) -> u64 {
    (((64 - t - from_p) as u64) << t) | 1
}

/// The smallest update value whose leading-zero part is the largest a hash can
/// have at precision `from_p`.
pub fn compute_downsize_threshold_u(t: u32, from_p: u32) -> (r: u64)
    requires
        t + from_p <= 64,
        t < 64,
    ensures
        r == spec_downsize_threshold_u(t, from_p),
{
    ((64 - t - from_p) as u64) << t | 1
}

/// Parameters that a downsizing step can run with.
pub open spec fn downsize_params_ok(prm: DownsizeParams) -> bool {
    &&& prm.t <= 24
    &&& prm.to_d <= prm.from_d < 64
    &&& prm.to_p <= prm.from_p
    &&& prm.t + prm.from_p <= 64
    &&& prm.threshold_u == spec_downsize_threshold_u(prm.t, prm.from_p)
}

/// Parameters that one register can be moved with: the shifts by `t`,
/// `from_d` and `to_d` stay below the widths they act on.
pub open spec fn register_params_ok(prm: DownsizeParams) -> bool {
    &&& prm.t < 32
    &&& prm.to_d <= prm.from_d < 64
    &&& prm.to_p <= prm.from_p
    &&& prm.t + prm.from_p <= 64
    &&& prm.threshold_u == spec_downsize_threshold_u(prm.t, prm.from_p)
}

/// The number of bits of `sub_idx` (zero for zero).
pub open spec fn sub_index_width(sub_idx: u32) -> u32 {
    (32 - u32_leading_zeros(sub_idx)) as u32
}

/// How much the update values at the threshold grow for the sub-register `sub_idx`.
pub open spec fn downsize_shift(sub_idx: u32, prm: DownsizeParams) -> u32 {
    (((prm.from_p - prm.to_p) - sub_index_width(sub_idx)) as u32) << prm.t
}

/// The register with `to_d` history bits, before the update values at the
/// threshold are raised.
pub open spec fn downsize_pre_add(r: u64, sub_idx: u32, prm: DownsizeParams) -> u64 {
    let u = r >> prm.from_d;
    let r1 = r >> ((prm.from_d - prm.to_d) as u32);
    let nbs = prm.to_d + prm.threshold_u - u;
    if nbs > 0 {
        let mask = u64::MAX << (nbs as u32);
        (mask & r1) | spec_shift_right(r1 & !mask, downsize_shift(sub_idx, prm) as u64)
    } else {
        r1
    }
}

/// The register a smaller sketch gets from register `r` of sub-register `sub_idx`.
pub open spec fn spec_downsize_register(r: u64, sub_idx: u32, prm: DownsizeParams) -> u64 {
    let u = r >> prm.from_d;
    if u >= prm.threshold_u && downsize_shift(sub_idx, prm) > 0 {
        (downsize_pre_add(r, sub_idx, prm) + ((downsize_shift(sub_idx, prm) as u64) << prm.to_d)) as u64
    } else {
        r >> ((prm.from_d - prm.to_d) as u32)
    }
}

/// The downsized register fits in 64 bits.
pub open spec fn downsize_fits(r: u64, sub_idx: u32, prm: DownsizeParams) -> bool {
    (r >> prm.from_d) >= prm.threshold_u && downsize_shift(sub_idx, prm) > 0 ==> downsize_pre_add(
        r,
        sub_idx,
        prm,
    ) + ((downsize_shift(sub_idx, prm) as u64) << prm.to_d) <= u64::MAX
}

pub proof fn lemma_sub_index_width(sub_idx: u32, n: u32)
    requires
        n <= 32,
        n < 32 ==> sub_idx >> n == 0,
    ensures
        sub_index_width(sub_idx) <= n,
{
    vstd::std_specs::bits::axiom_u32_leading_zeros(sub_idx);
    let z = u32_leading_zeros(sub_idx);
    if 32 - z > n {
        let j = (31 - z) as u32;
        assert((sub_idx >> j) & 1u32 != 0u32);
        assert(n <= j < 32);
        lemma_u32_facts(sub_idx, n, j, 0, 0);
    }
}

/// Facts about 32-bit shifts and masks, for the bit-vector solver.
pub proof fn lemma_u32_facts(sub_idx: u32, n: u32, j: u32, nbs: i64, amount: u32)
    by (bit_vector)
    ensures
        sub_idx >> n == 0 && n <= j && j < 32 ==> (sub_idx >> j) & 1u32 == 0u32,
        0u32 >> n == 0,
        amount == (nbs as u32) & 63 && 0 < nbs && nbs <= 63 ==> amount == nbs as u32,
{
}

/// Register `r` of sub-register `sub_idx`, moved to the smaller sketch.
pub fn downsize_register(r: u64, sub_idx: u32, params: DownsizeParams) -> (res: u64)
    requires
        register_params_ok(params),
        params.from_p - params.to_p < 32,
        sub_idx >> ((params.from_p - params.to_p) as u32) == 0,
        (r >> params.from_d) >= params.threshold_u && downsize_shift(sub_idx, params) > 0 ==> (r
            >> params.from_d) < 0x8000_0000_0000_0000,
        downsize_fits(r, sub_idx, params),
    ensures
        res == spec_downsize_register(r, sub_idx, params),
        params.from_p == params.to_p ==> res == r >> ((params.from_d - params.to_d) as u32),
{
    proof {
        if params.from_p == params.to_p {
            assert(sub_idx == 0) by (bit_vector)
                requires
                    sub_idx >> 0u32 == 0,
            ;
            vstd::std_specs::bits::axiom_u32_leading_zeros(sub_idx);
            let tp = params.t;
            assert(0u32 << tp == 0u32) by (bit_vector);
        }
        let k = (64 - params.t - params.from_p) as u64;
        let tt = params.t;
        assert(((k << tt) | 1u64) <= 0x20_0000_0001u64) by (bit_vector)
            requires
                k <= 64,
                tt < 32,
        ;
    }
    let t = params.t;
    let from_d = params.from_d;
    let to_d = params.to_d;
    let from_p = params.from_p;
    let to_p = params.to_p;
    let threshold_u = params.threshold_u;
    let u = r >> from_d;
    let mut r = r >> (from_d - to_d);
    if u >= threshold_u {
        proof {
            lemma_sub_index_width(sub_idx, (from_p - to_p) as u32);
            vstd::std_specs::bits::axiom_u32_leading_zeros(sub_idx);
        }
        let sub_idx_width = u32::BITS - sub_idx.leading_zeros();
        proof {
            let a = (from_p - to_p - sub_idx_width) as u32;
            assert(a < 32);
        }
        let shift = ((from_p - to_p) - sub_idx_width) << t;
        if shift > 0 {
            let num_bits_to_shift = to_d as i64 + threshold_u as i64 - u as i64;
            if num_bits_to_shift > 0 {
                let amount = (num_bits_to_shift as u32) & 63;
                proof {
                    lemma_u32_facts(0, 0, 0, num_bits_to_shift, amount);
                }
                let mask = u64::MAX.wrapping_shl(amount);
                r = (mask & r) | shift_right(r & !mask, shift as u64);
            }
            r += (shift as u64) << to_d;
        }
    }
    r
}

} // verus!

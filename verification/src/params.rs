//! Parameters of a sketch and their validation.

use vstd::prelude::*;

verus! {

/// Number of hash bits that a 32-bit token keeps of the register index and
/// the extra bits.
pub const V: u32 = 26;

/// The smallest precision a sketch may have.
pub const MIN_P: u32 = 2;

/// The largest `t` a sketch may have.
pub const MAX_T: u32 = 24;

/// Errors reported when parameters or sketches do not fit together.
#[derive(Debug, Clone, Copy, PartialEq, Eq, Structural)]
pub enum ExaLogLogError {
    InvalidT,
    InvalidD,
    InvalidP,
    InvalidStateLength,
    IncompatibleT,
    OtherHasSmallerD,
    OtherHasSmallerPrecision,
}

impl ExaLogLogError {
    /// The human-readable description of the error.
    pub fn message(&self) -> (s: String)
        ensures
            s@ == self.spec_message(),
    {
        match self {
            ExaLogLogError::InvalidT => String::from_str("invalid t parameter"),
            ExaLogLogError::InvalidD => String::from_str("invalid d parameter"),
            ExaLogLogError::InvalidP => String::from_str("invalid precision parameter"),
            ExaLogLogError::InvalidStateLength => String::from_str("unexpected state length"),
            ExaLogLogError::IncompatibleT => String::from_str("t parameters differ"),
            ExaLogLogError::OtherHasSmallerD => String::from_str(
                "other sketch has smaller d parameter",
            ),
            ExaLogLogError::OtherHasSmallerPrecision => String::from_str(
                "other sketch has smaller precision",
            ),
        }
    }

    /// The description of each error, as a sequence of characters.
    pub open spec fn spec_message(&self) -> Seq<char> {
        match self {
            ExaLogLogError::InvalidT => "invalid t parameter"@,
            ExaLogLogError::InvalidD => "invalid d parameter"@,
            ExaLogLogError::InvalidP => "invalid precision parameter"@,
            ExaLogLogError::InvalidStateLength => "unexpected state length"@,
            ExaLogLogError::IncompatibleT => "t parameters differ"@,
            ExaLogLogError::OtherHasSmallerD => "other sketch has smaller d parameter"@,
            ExaLogLogError::OtherHasSmallerPrecision => "other sketch has smaller precision"@,
        }
    }
}

/// The largest precision allowed together with `t`.
pub open spec fn spec_max_p(t: u32) -> int {
    V - t
}

/// The largest `d` allowed together with `t`.
pub open spec fn spec_max_d(t: u32) -> int {
    64 - 6 - t
}

/// The number of bits of one register.
pub open spec fn spec_register_bit_size(t: u32, d: u32) -> int {
    6 + t + d
}

/// `t` is within its range.
pub open spec fn valid_t(t: u32) -> bool {
    t <= MAX_T
}

/// `d` is within the range that `t` allows.
pub open spec fn valid_d(d: u32, t: u32) -> bool {
    d <= spec_max_d(t)
}

/// `p` is within the range that `t` allows.
pub open spec fn valid_p(p: u32, t: u32) -> bool {
    MIN_P <= p && p <= spec_max_p(t)
}

/// All three parameters together are valid.
pub open spec fn valid_params(t: u32, d: u32, p: u32) -> bool {
    valid_t(t) && valid_d(d, t) && valid_p(p, t)
}

/// The largest precision allowed together with `t`.
pub fn max_p(t: u32) -> (r: u32)
    requires
        t <= V,
    ensures
        r == spec_max_p(t),
{
    V - t
}

/// The largest `d` allowed together with `t`.
pub fn max_d(t: u32) -> (r: u32)
    requires
        t <= 58,
    ensures
        r == spec_max_d(t),
{
    64 - 6 - t
}

/// The number of bits of one register, `6 + t + d`.
pub fn register_bit_size(t: u32, d: u32) -> (r: u32)
    requires
        t + d <= u32::MAX - 6,
    ensures
        r == spec_register_bit_size(t, d),
{
    6 + t + d
}

pub fn check_t(t: u32) -> (r: Result<(), ExaLogLogError>)
    ensures
        r is Ok <==> valid_t(t),
        r is Err ==> r == Err::<(), ExaLogLogError>(ExaLogLogError::InvalidT),
{
    if t <= MAX_T {
        Ok(())
    } else {
        Err(ExaLogLogError::InvalidT)
    }
}

pub fn check_d(d: u32, t: u32) -> (r: Result<(), ExaLogLogError>)
    requires
        t <= 58,
    ensures
        r is Ok <==> valid_d(d, t),
        r is Err ==> r == Err::<(), ExaLogLogError>(ExaLogLogError::InvalidD),
{
    if d <= max_d(t) {
        Ok(())
    } else {
        Err(ExaLogLogError::InvalidD)
    }
}

pub fn check_p(p: u32, t: u32) -> (r: Result<(), ExaLogLogError>)
    requires
        t <= V,
    ensures
        r is Ok <==> valid_p(p, t),
        r is Err ==> r == Err::<(), ExaLogLogError>(ExaLogLogError::InvalidP),
{
    if MIN_P <= p && p <= max_p(t) {
        Ok(())
    } else {
        Err(ExaLogLogError::InvalidP)
    }
}

/// The number of bytes that `2^p` registers of `6 + t + d` bits take.
pub open spec fn spec_state_len_bytes(t: u32, d: u32, p: u32) -> int {
    (spec_register_bit_size(t, d) * vstd::arithmetic::power2::pow2(p as nat) + 7) / 8
}

} // verus!

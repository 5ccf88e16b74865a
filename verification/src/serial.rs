//! Byte serialization of a sketch: a format version, the three parameters,
//! and the packed registers.

use vstd::prelude::*;
use vstd::arithmetic::power2::pow2;
use crate::params::{
    check_d, check_p, check_t, register_bit_size, spec_register_bit_size, spec_state_len_bytes,
    valid_d, valid_p, valid_params, valid_t, ExaLogLogError,
};
use crate::sketch::{state_fits, ExaLogLog, SketchView};

verus! {

/// The version of the byte format written by `to_bytes`.
pub const FORMAT_VERSION: u8 = 1;

/// The number of header bytes before the packed registers.
pub const HEADER_LEN: usize = 4;

/// The bytes of a sketch: the format version, `t`, `d` and `p` as one byte
/// each, then the state.
pub open spec fn spec_to_bytes(v: SketchView) -> Seq<u8> {
    seq![FORMAT_VERSION, v.t as u8, v.d as u8, v.p as u8] + v.state
}

/// The sketch that `bytes` describe, or the error that reading them gives.
pub open spec fn parse_bytes(bytes: Seq<u8>) -> Result<SketchView, ExaLogLogError> {
    if bytes.len() < HEADER_LEN || bytes[0] != FORMAT_VERSION {
        Err(ExaLogLogError::InvalidStateLength)
    } else {
        let t = bytes[1] as u32;
        let d = bytes[2] as u32;
        let p = bytes[3] as u32;
        if !valid_t(t) {
            Err(ExaLogLogError::InvalidT)
        } else if !valid_d(d, t) {
            Err(ExaLogLogError::InvalidD)
        } else if !valid_p(p, t) {
            Err(ExaLogLogError::InvalidP)
        } else if bytes.len() - HEADER_LEN != spec_state_len_bytes(t, d, p) {
            Err(ExaLogLogError::InvalidStateLength)
        } else {
            Ok(SketchView { t, d, p, state: bytes.subrange(HEADER_LEN as int, bytes.len() as int) })
        }
    }
}

/// Reading the bytes of a well-formed sketch gives the sketch back.
pub proof fn law_bytes_round_trip(v: SketchView)
    requires
        v.wf(),
    ensures
        parse_bytes(spec_to_bytes(v)) == Ok::<SketchView, ExaLogLogError>(v),
{
    let b = spec_to_bytes(v);
    assert(b.subrange(HEADER_LEN as int, b.len() as int) =~= v.state);
    assert(b[1] as u32 == v.t);
    assert(b[2] as u32 == v.d);
    assert(b[3] as u32 == v.p);
}

impl ExaLogLog {
    /// The sketch as bytes: the format version, `t`, `d`, `p`, then the state.
    pub fn to_bytes(&self) -> (r: Vec<u8>)
        requires
            self.wf(),
        ensures
            r@ == spec_to_bytes(self@),
    {
        let state = self.state();
        let mut out: Vec<u8> = Vec::new();
        out.push(FORMAT_VERSION);
        out.push(self.t() as u8);
        out.push(self.d() as u8);
        out.push(self.p() as u8);
        let n = state.len();
        let mut i: usize = 0;
        while i < n
            invariant
                n == state@.len(),
                state@ == self@.state,
                i <= n,
                out@ == seq![FORMAT_VERSION, self@.t as u8, self@.d as u8, self@.p as u8]
                    + state@.subrange(0, i as int),
            decreases n - i,
        {
            out.push(state[i]);
            proof {
                assert(state@.subrange(0, i + 1) =~= state@.subrange(0, i as int).push(state@[i as int]));
            }
            i = i + 1;
        }
        proof {
            assert(state@.subrange(0, n as int) =~= state@);
        }
        out
    }

    /// Reads a sketch from the bytes that `to_bytes` writes.
    pub fn from_bytes(bytes: &[u8]) -> (r: Result<Self, ExaLogLogError>)
        requires
            bytes@.len() * 8 + 7 <= usize::MAX,
        ensures
            r matches Ok(s) ==> s.wf() && parse_bytes(bytes@) == Ok::<SketchView, ExaLogLogError>(s@),
            r matches Err(e) ==> parse_bytes(bytes@) == Err::<SketchView, ExaLogLogError>(e),
    {
        if bytes.len() < HEADER_LEN || bytes[0] != FORMAT_VERSION {
            return Err(ExaLogLogError::InvalidStateLength);
        }
        let t = bytes[1] as u32;
        let d = bytes[2] as u32;
        let p = bytes[3] as u32;
        check_t(t)?;
        check_d(d, t)?;
        check_p(p, t)?;
        let width = register_bit_size(t, d) as u64;
        proof {
            vstd::arithmetic::power2::lemma2_to64();
            crate::sketch::lemma_pow2_le(p as nat, 26);
            assert(width * pow2(p as nat) <= 64 * 0x4000000) by (nonlinear_arith)
                requires
                    width <= 64,
                    pow2(p as nat) <= 0x4000000,
            ;
            vstd::bits::lemma_u64_shl_is_mul(width, p as u64);
        }
        let bits: u64 = (width << p) + 7;
        let expected: u64 = bits >> 3;
        proof {
            vstd::bits::lemma_u64_shr_is_div(bits, 3);
        }
        let n = bytes.len();
        if ((n - HEADER_LEN) as u64) != expected {
            return Err(ExaLogLogError::InvalidStateLength);
        }
        let mut state: Vec<u8> = Vec::new();
        let mut i: usize = HEADER_LEN;
        while i < n
            invariant
                n == bytes@.len(),
                HEADER_LEN <= i <= n,
                state@ == bytes@.subrange(HEADER_LEN as int, i as int),
            decreases n - i,
        {
            state.push(bytes[i]);
            proof {
                assert(bytes@.subrange(HEADER_LEN as int, i + 1) =~= bytes@.subrange(
                    HEADER_LEN as int,
                    i as int,
                ).push(bytes@[i as int]));
            }
            i = i + 1;
        }
        proof {
            let x = spec_register_bit_size(t, d) * pow2(p as nat);
            vstd::arithmetic::div_mod::lemma_fundamental_div_mod(x + 7, 8);
            assert(x + 7 <= 8 * ((x + 7) / 8) + 7);
            assert(state_fits(t, d, p));
        }
        let s = ExaLogLog::from_parts(t, d, p, state);
        Ok(s)
    }
}

} // verus!

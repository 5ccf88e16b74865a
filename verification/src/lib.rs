//! ExaLogLog: a space-efficient sketch for approximate distinct counting.
//!
//! The sketch keeps `2^p` registers of `6 + t + d` bits each, packed
//! little-endian into a byte vector. Every executable function of this
//! crate is verified against its contract, except the three calls into the
//! standard hashing traits and the call into xxhash-rust in `hashing`, whose
//! contracts are trusted, as is the stated bit count of `u64::count_ones`.

pub mod bits;
pub mod downsize;
pub mod downsize_laws;
pub mod estimate;
pub mod hashing;
pub mod laws;
pub mod packed;
pub mod params;
pub mod register;
pub mod register_laws;
pub mod serial;
pub mod sketch;
pub mod token;

pub use params::{max_d, max_p, register_bit_size, ExaLogLogError, MAX_T, MIN_P, V};

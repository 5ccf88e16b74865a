//! Adding raw values: hashing them first, with xxh3-64 by default, with a
//! caller's `BuildHasher`, or with a caller's hash function.

use vstd::prelude::*;
use std::hash::{BuildHasher, Hash, Hasher};
use crate::sketch::ExaLogLog;

verus! {

impl ExaLogLog {
    /// Hashes a raw value with the crate's default hash function, xxh3-64
    /// (`xxhash_rust::xxh3::Xxh3Builder::new().hash_one`). Nothing is stated
    /// of the result: it depends on the bytes that `T`'s `Hash` impl writes.
    #[verifier::external_body]
    pub fn hash_value<T: Hash>(value: T) -> u64 {
        xxhash_rust::xxh3::Xxh3Builder::new().hash_one(value)
    }

    /// Hashes a raw value with a caller-provided `BuildHasher`: a fresh hasher
    /// from it is fed the value and finished. Nothing is stated of the result:
    /// it depends on the caller's hasher, which may be seeded at random.
    pub fn hash_value_with_build_hasher<T: Hash, S: BuildHasher + ?Sized>(
        value: T,
        build_hasher: &S,
    ) -> u64 {
        let mut hasher = new_hasher(build_hasher);
        feed_value(&value, &mut hasher);
        finish_hasher(&hasher)
    }

    /// Adds a raw value after hashing it with xxh3-64: the hash inserted is
    /// one that `hash_value` returns for the value.
    pub fn add_raw<T: Hash>(&mut self, value: T) -> (r: &mut Self)
        requires
            old(self).wf(),
        ensures
            exists|h: u64|
                call_ensures(Self::hash_value::<T>, (value,), h) && r@ == old(self)@.insert_hash(h),
            r.wf(),
            *final(self) == *final(r),
    {
        let hash = Self::hash_value::<T>;
        let h = hash(value);
        self.add_hash(h)
    }

    /// Adds raw values, first to last, after hashing each with xxh3-64: the
    /// `i`-th hash inserted is one that `hash_value` returns for the `i`-th value.
    pub fn add_raw_values<T: Hash>(&mut self, values: &[T]) -> (r: &mut Self)
        requires
            old(self).wf(),
        ensures
            exists|hs: Seq<u64>|
                {
                    &&& hs.len() == values@.len()
                    &&& forall|i: int|
                        0 <= i < values@.len() ==> call_ensures(
                            Self::hash_value::<&T>,
                            (&values@[i],),
                            #[trigger] hs[i],
                        )
                    &&& r@ == old(self)@.insert_hashes(hs)
                },
            r.wf(),
            *final(self) == *final(r),
    {
        let hash = Self::hash_value::<&T>;
        let n = values.len();
        let mut i: usize = 0;
        let ghost mut hs: Seq<u64> = Seq::empty();
        while i < n
            invariant
                n == values@.len(),
                i <= n,
                self.wf(),
                hs.len() == i,
                forall|j: int|
                    0 <= j < i ==> call_ensures(Self::hash_value::<&T>, (&values@[j],), #[trigger] hs[j]),
                self@ == old(self)@.insert_hashes(hs),
            decreases n - i,
        {
            let h = hash(&values[i]);
            self.add_hash(h);
            proof {
                assert(hs.push(h).drop_last() =~= hs);
                hs = hs.push(h);
            }
            i = i + 1;
        }
        self
    }

    /// Adds a raw value after hashing it with a caller-provided `BuildHasher`:
    /// the hash inserted is one that `hash_value_with_build_hasher` returns for
    /// the value and the hasher.
    pub fn add_raw_with_build_hasher<T: Hash, S: BuildHasher + ?Sized>(
        &mut self,
        value: T,
        build_hasher: &S,
    ) -> (r: &mut Self)
        requires
            old(self).wf(),
        ensures
            exists|h: u64|
                call_ensures(Self::hash_value_with_build_hasher::<T, S>, (value, build_hasher), h)
                    && r@ == old(self)@.insert_hash(h),
            r.wf(),
            *final(self) == *final(r),
    {
        let hash = Self::hash_value_with_build_hasher::<T, S>;
        let h = hash(value, build_hasher);
        self.add_hash(h)
    }

    /// Adds raw values, first to last, after hashing each with a
    /// caller-provided `BuildHasher`.
    pub fn add_raw_values_with_build_hasher<T: Hash, S: BuildHasher + ?Sized>(
        &mut self,
        values: &[T],
        build_hasher: &S,
    ) -> (r: &mut Self)
        requires
            old(self).wf(),
        ensures
            exists|hs: Seq<u64>|
                {
                    &&& hs.len() == values@.len()
                    &&& forall|i: int|
                        0 <= i < values@.len() ==> call_ensures(
                            Self::hash_value_with_build_hasher::<&T, S>,
                            (&values@[i], build_hasher),
                            #[trigger] hs[i],
                        )
                    &&& r@ == old(self)@.insert_hashes(hs)
                },
            r.wf(),
            *final(self) == *final(r),
    {
        let hash = Self::hash_value_with_build_hasher::<&T, S>;
        let n = values.len();
        let mut i: usize = 0;
        let ghost mut hs: Seq<u64> = Seq::empty();
        while i < n
            invariant
                n == values@.len(),
                i <= n,
                self.wf(),
                hs.len() == i,
                forall|j: int|
                    0 <= j < i ==> call_ensures(
                        Self::hash_value_with_build_hasher::<&T, S>,
                        (&values@[j], build_hasher),
                        #[trigger] hs[j],
                    ),
                self@ == old(self)@.insert_hashes(hs),
            decreases n - i,
        {
            let h = hash(&values[i], build_hasher);
            self.add_hash(h);
            proof {
                assert(hs.push(h).drop_last() =~= hs);
                hs = hs.push(h);
            }
            i = i + 1;
        }
        self
    }

    /// Adds a raw value using a one-shot hash function, such as tabulation
    /// hashing over integer IDs or another domain-specific prehasher.
    pub fn add_raw_with_hash_fn<T, F: FnOnce(&T) -> u64>(&mut self, value: T, hash_fn: F) -> (r:
        &mut Self)
        requires
            old(self).wf(),
            call_requires(hash_fn, (&value,)),
        ensures
            exists|h: u64| call_ensures(hash_fn, (&value,), h) && r@ == old(self)@.insert_hash(h),
            r.wf(),
            *final(self) == *final(r),
    {
        let h = hash_fn(&value);
        self.add_hash(h)
    }

    /// Adds raw values, first to last, using a hash function.
    pub fn add_raw_values_with_hash_fn<T, F: Fn(&T) -> u64>(&mut self, values: &[T], hash_fn: F) -> (r:
        &mut Self)
        requires
            old(self).wf(),
            forall|i: int| 0 <= i < values@.len() ==> call_requires(hash_fn, (&values@[i],)),
        ensures
            exists|hs: Seq<u64>|
                {
                    &&& hs.len() == values@.len()
                    &&& forall|i: int|
                        0 <= i < values@.len() ==> call_ensures(
                            hash_fn,
                            (&values@[i],),
                            #[trigger] hs[i],
                        )
                    &&& r@ == old(self)@.insert_hashes(hs)
                },
            r.wf(),
            *final(self) == *final(r),
    {
        let n = values.len();
        let mut i: usize = 0;
        let ghost mut hs: Seq<u64> = Seq::empty();
        while i < n
            invariant
                n == values@.len(),
                i <= n,
                self.wf(),
                forall|j: int| 0 <= j < values@.len() ==> call_requires(hash_fn, (&values@[j],)),
                hs.len() == i,
                forall|j: int|
                    0 <= j < i ==> call_ensures(hash_fn, (&values@[j],), #[trigger] hs[j]),
                self@ == old(self)@.insert_hashes(hs),
            decreases n - i,
        {
            let h = hash_fn(&values[i]);
            self.add_hash(h);
            proof {
                assert(hs.push(h).drop_last() =~= hs);
                hs = hs.push(h);
            }
            i = i + 1;
        }
        self
    }
}

/// A fresh hasher from `build_hasher` (`BuildHasher::build_hasher`). Nothing
/// is stated of it: its state is the caller's hasher's own.
#[verifier::external_body]
fn new_hasher<S: BuildHasher + ?Sized>(build_hasher: &S) -> S::Hasher {
    build_hasher.build_hasher()
}

/// Feeds `value` to `state` (`Hash::hash`). Nothing is stated of the new
/// state: it depends on the bytes that `T`'s `Hash` impl writes.
#[verifier::external_body]
fn feed_value<T: Hash, H: Hasher>(value: &T, state: &mut H) {
    value.hash(state)
}

/// The hash of what `state` was fed (`Hasher::finish`). Nothing is stated of
/// it: it is the caller's hasher's own function of its state.
#[verifier::external_body]
fn finish_hasher<H: Hasher>(state: &H) -> u64 {
    state.finish()
}

/// The state after one step of the SplitMix64 generator.
pub open spec fn splitmix64_next(x: u64) -> u64 {
    vstd::wrapping::u64_specs::wrapping_add(x, 0x9e37_79b9_7f4a_7c15)
}

/// The output of the SplitMix64 generator for the state `z`.
pub open spec fn splitmix64_output(z: u64) -> u64 {
    let z1 = vstd::wrapping::u64_specs::wrapping_mul(z ^ (z >> 30u64), 0xbf58_476d_1ce4_e5b9);
    let z2 = vstd::wrapping::u64_specs::wrapping_mul(z1 ^ (z1 >> 27u64), 0x94d0_49bb_1331_11eb);
    z2 ^ (z2 >> 31u64)
}

/// The SplitMix64 generator: advances the state and returns the next number.
pub fn splitmix64(x: &mut u64) -> (r: u64)
    ensures
        *final(x) == splitmix64_next(*old(x)),
        r == splitmix64_output(splitmix64_next(*old(x))),
{
    *x = x.wrapping_add(0x9e37_79b9_7f4a_7c15);
    let mut z = *x;
    z = (z ^ (z >> 30)).wrapping_mul(0xbf58_476d_1ce4_e5b9);
    z = (z ^ (z >> 27)).wrapping_mul(0x94d0_49bb_1331_11eb);
    z ^ (z >> 31)
}

} // verus!

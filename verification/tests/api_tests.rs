use ahash::RandomState;
use exaloglog::hashing::splitmix64;
use exaloglog::register::merge_register;
use exaloglog::sketch::ExaLogLog;
use exaloglog::token::{compute_token, reconstruct_hash};
use exaloglog::{max_d, max_p, register_bit_size, ExaLogLogError, MAX_T, MIN_P, V};
use std::hash::{BuildHasher, Hash, Hasher};

fn hashes(seed: u64, n: usize) -> Vec<u64> {
    let mut s = seed;
    (0..n).map(|_| splitmix64(&mut s)).collect()
}

#[test]
fn parameter_limits() {
    assert_eq!(MAX_T, 24);
    assert_eq!(max_p(MAX_T), MIN_P);
    assert_eq!(max_d(MAX_T), 34);
    assert_eq!(register_bit_size(2, 24), 32);
    assert_eq!(register_bit_size(0, 0), 6);
    assert!(ExaLogLog::new(20, 10, max_p(20)).is_ok());
    assert_eq!(
        ExaLogLog::new(2, 24, max_p(2) + 1),
        Err(ExaLogLogError::InvalidP)
    );
    assert_eq!(
        ExaLogLog::new(2, max_d(2) + 1, 4),
        Err(ExaLogLogError::InvalidD)
    );
}

#[test]
fn new_sketch_is_zero_and_sized() {
    let sketch = ExaLogLog::new(2, 24, 8).unwrap();
    assert_eq!(sketch.t(), 2);
    assert_eq!(sketch.d(), 24);
    assert_eq!(sketch.p(), 8);
    assert_eq!(sketch.state().len(), 32 * 256 / 8);
    assert!(sketch.state().iter().all(|&b| b == 0));
    let odd = ExaLogLog::new(0, 1, 2).unwrap();
    assert_eq!(odd.state().len(), 4);
}

#[test]
fn splitmix64_first_values() {
    let mut seed = 0u64;
    assert_eq!(splitmix64(&mut seed), 0xe220_a839_7b1d_cdaf);
    assert_eq!(seed, 0x9e37_79b9_7f4a_7c15);
    assert_eq!(splitmix64(&mut seed), 0x6e78_9e6a_a1b9_65f4);
}

#[test]
fn insertion_order_does_not_matter() {
    let hs = hashes(1, 3000);
    let mut forward = ExaLogLog::new(2, 20, 6).unwrap();
    let mut backward = ExaLogLog::new(2, 20, 6).unwrap();
    for &h in &hs {
        forward.add(h);
    }
    for &h in hs.iter().rev() {
        backward.add(h);
    }
    assert_eq!(forward.state(), backward.state());
    assert!(forward == backward);
}

#[test]
fn adding_a_hash_twice_changes_nothing() {
    let hs = hashes(2, 500);
    let mut once = ExaLogLog::new(3, 16, 5).unwrap();
    once.add_hashes(&hs);
    let mut twice = once.clone();
    twice.add_hashes(&hs);
    assert_eq!(once.state(), twice.state());
}

#[test]
fn add_hash_sets_the_register_of_the_hash() {
    // t = 0, d = 0, p = 2: the register index is bits 0..2, the update value
    // is the number of leading zeros of the hash with those bits set, plus one.
    let mut sketch = ExaLogLog::new(0, 0, 2).unwrap();
    sketch.add(0x0000_ffff_0000_0002);
    // Register 2 holds 17 (16 leading zeros); 6-bit registers packed little-endian.
    assert_eq!(sketch.state(), &[0x00, 0x10, 0x01]);
}

#[test]
fn add_sketch_of_same_shape_is_inserting() {
    let a = hashes(3, 1000);
    let b = hashes(4, 1000);
    let mut x = ExaLogLog::new(2, 20, 6).unwrap();
    x.add_hashes(&a);
    let mut y = ExaLogLog::new(2, 20, 6).unwrap();
    y.add_hashes(&b);
    x.add_sketch(&y).unwrap();
    let mut direct = ExaLogLog::new(2, 20, 6).unwrap();
    direct.add_hashes(&a).add_hashes(&b);
    assert_eq!(x.state(), direct.state());
}

#[test]
fn add_sketch_errors() {
    let mut small = ExaLogLog::new(2, 20, 6).unwrap();
    let other_t = ExaLogLog::new(3, 20, 6).unwrap();
    let smaller_d = ExaLogLog::new(2, 19, 6).unwrap();
    let smaller_p = ExaLogLog::new(2, 20, 5).unwrap();
    assert_eq!(
        small.add_sketch(&other_t).err(),
        Some(ExaLogLogError::IncompatibleT)
    );
    assert_eq!(
        small.add_sketch(&smaller_d).err(),
        Some(ExaLogLogError::OtherHasSmallerD)
    );
    assert_eq!(
        small.add_sketch(&smaller_p).err(),
        Some(ExaLogLogError::OtherHasSmallerPrecision)
    );
}

#[test]
fn merge_errors_and_commutes() {
    let a = ExaLogLog::new(2, 20, 6).unwrap();
    let b = ExaLogLog::new(3, 20, 6).unwrap();
    assert_eq!(ExaLogLog::merge(&a, &b), Err(ExaLogLogError::IncompatibleT));

    let mut x = ExaLogLog::new(2, 20, 7).unwrap();
    let mut y = ExaLogLog::new(2, 16, 5).unwrap();
    x.add_hashes(&hashes(5, 800));
    y.add_hashes(&hashes(6, 800));
    let xy = ExaLogLog::merge(&x, &y).unwrap();
    let yx = ExaLogLog::merge(&y, &x).unwrap();
    assert_eq!(xy.d(), 16);
    assert_eq!(xy.p(), 5);
    assert_eq!(xy.state(), yx.state());
}

#[test]
fn downsize_errors_and_identity() {
    let mut x = ExaLogLog::new(2, 20, 6).unwrap();
    x.add_hashes(&hashes(7, 300));
    assert_eq!(x.downsize(max_d(2) + 1, 4), Err(ExaLogLogError::InvalidD));
    assert_eq!(x.downsize(20, 1), Err(ExaLogLogError::InvalidP));
    let same = x.downsize(20, 6).unwrap();
    assert_eq!(same, x);
    let larger = x.downsize(24, 8).unwrap();
    assert_eq!(larger, x);
}

#[test]
fn downsize_d_only_matches_direct_insert() {
    let hs = hashes(8, 2000);
    let mut wide = ExaLogLog::new(1, 30, 6).unwrap();
    wide.add_hashes(&hs);
    let mut direct = ExaLogLog::new(1, 10, 6).unwrap();
    direct.add_hashes(&hs);
    assert_eq!(wide.downsize(10, 6).unwrap().state(), direct.state());
}

#[test]
fn merge_register_laws() {
    let d = 8;
    let mut seed = 9u64;
    for _ in 0..1000 {
        let a = splitmix64(&mut seed) & ((1u64 << 14) - 1);
        let b = splitmix64(&mut seed) & ((1u64 << 14) - 1);
        assert_eq!(merge_register(a, b, d), merge_register(b, a, d));
        assert_eq!(merge_register(a, 0, d), a);
        assert_eq!(merge_register(a, a, d), a);
    }
    // Largest values 3 and 5 with d = 2: value 3 lands two positions below 5.
    assert_eq!(merge_register(3 << 2, 5 << 2, 2), (5 << 2) | 0b01);
}

#[test]
fn token_exact_values() {
    let h = 0x0123_4567_89ab_cdef;
    assert_eq!(compute_token(h, V), 0x6af3_7bc7);
    assert_eq!(ExaLogLog::compute_token(h), 0x6af3_7bc7);
    assert_eq!(reconstruct_hash(0x6af3_7bc7, V), 0x01ff_ffff_fdab_cdef);
}

#[test]
fn token_of_reconstructed_hash_is_the_token() {
    let mut seed = 10u64;
    for _ in 0..1000 {
        let h = splitmix64(&mut seed);
        let token = compute_token(h, V);
        assert_eq!(compute_token(reconstruct_hash(token, V), V), token);
    }
}

#[test]
fn add_token_matches_add_for_other_parameters() {
    let hs = hashes(11, 3000);
    for (t, p) in [(0u32, 2u32), (1, 12), (6, 20), (MAX_T, MIN_P)] {
        let mut by_hash = ExaLogLog::new(t, 8, p).unwrap();
        let mut by_token = ExaLogLog::new(t, 8, p).unwrap();
        for &h in &hs {
            by_hash.add(h);
            by_token.add_token(ExaLogLog::compute_token(h));
        }
        assert_eq!(by_hash.state(), by_token.state());
    }
}

#[test]
fn reset_clears_the_state() {
    let mut sketch = ExaLogLog::new(2, 20, 6).unwrap();
    sketch.add_hashes(&hashes(12, 100));
    assert!(sketch.state().iter().any(|&b| b != 0));
    sketch.reset();
    assert_eq!(sketch, ExaLogLog::new(2, 20, 6).unwrap());
}

#[test]
fn wrap_round_trip_and_errors() {
    let mut sketch = ExaLogLog::new(2, 20, 6).unwrap();
    sketch.add_hashes(&hashes(13, 400));
    let state = sketch.state().to_vec();
    let wrapped = ExaLogLog::wrap(2, 20, state.clone()).unwrap();
    assert_eq!(wrapped, sketch);
    assert_eq!(wrapped.p(), 6);
    assert_eq!(wrapped.into_state(), state);

    assert_eq!(
        ExaLogLog::wrap(2, 20, Vec::new()),
        Err(ExaLogLogError::InvalidStateLength)
    );
    assert_eq!(
        ExaLogLog::wrap(2, 20, vec![0u8; 3]),
        Err(ExaLogLogError::InvalidStateLength)
    );
    assert_eq!(
        ExaLogLog::wrap(2, 20, vec![0u8; 28 * 64 / 8 + 1]),
        Err(ExaLogLogError::InvalidStateLength)
    );
    assert_eq!(
        ExaLogLog::wrap(MAX_T + 1, 0, vec![0u8; 8]),
        Err(ExaLogLogError::InvalidT)
    );
    assert_eq!(
        ExaLogLog::wrap(2, max_d(2) + 1, vec![0u8; 8]),
        Err(ExaLogLogError::InvalidD)
    );
    // Two registers only: below the smallest precision.
    assert_eq!(
        ExaLogLog::wrap(2, 20, vec![0u8; 7]),
        Err(ExaLogLogError::InvalidStateLength)
    );
}

#[test]
fn error_messages() {
    assert_eq!(ExaLogLogError::InvalidT.message(), "invalid t parameter");
    assert_eq!(ExaLogLogError::InvalidD.message(), "invalid d parameter");
    assert_eq!(ExaLogLogError::InvalidP.message(), "invalid precision parameter");
    assert_eq!(
        ExaLogLogError::InvalidStateLength.message(),
        "unexpected state length"
    );
    assert_eq!(ExaLogLogError::IncompatibleT.message(), "t parameters differ");
    assert_eq!(
        ExaLogLogError::OtherHasSmallerD.message(),
        "other sketch has smaller d parameter"
    );
    assert_eq!(
        ExaLogLogError::OtherHasSmallerPrecision.message(),
        "other sketch has smaller precision"
    );
}

#[test]
fn default_hash_is_xxh3_of_the_hashed_bytes() {
    let h = ExaLogLog::hash_value(5u64);
    assert_eq!(h, xxhash_rust::xxh3::xxh3_64(&5u64.to_le_bytes()));
    assert_ne!(h, 5);
    let mut by_raw = ExaLogLog::new(2, 24, 8).unwrap();
    by_raw.add_raw("apple").add_raw("banana");
    let mut by_hash = ExaLogLog::new(2, 24, 8).unwrap();
    by_hash
        .add(ExaLogLog::hash_value("apple"))
        .add(ExaLogLog::hash_value("banana"));
    assert_eq!(by_raw.state(), by_hash.state());
}

#[test]
fn build_hasher_hash_is_hash_one() {
    let state = RandomState::with_seeds(1, 2, 3, 4);
    let h = ExaLogLog::hash_value_with_build_hasher("cherry", &state);
    assert_eq!(h, state.hash_one("cherry"));
    let mut by_raw = ExaLogLog::new(2, 24, 8).unwrap();
    by_raw.add_raw_with_build_hasher("cherry", &state);
    let mut by_hash = ExaLogLog::new(2, 24, 8).unwrap();
    by_hash.add(state.hash_one("cherry"));
    assert_eq!(by_raw.state(), by_hash.state());
}

#[test]
fn raw_values_are_added_one_by_one() {
    let values = ["a", "b", "c", "d"];
    let mut together = ExaLogLog::new(2, 24, 8).unwrap();
    together.add_raw_values(&values);
    let mut one_by_one = ExaLogLog::new(2, 24, 8).unwrap();
    for v in values {
        one_by_one.add_raw(v);
    }
    assert_eq!(together.state(), one_by_one.state());

    let state = RandomState::with_seeds(5, 6, 7, 8);
    let mut together = ExaLogLog::new(2, 24, 8).unwrap();
    together.add_raw_values_with_build_hasher(&values, &state);
    let mut one_by_one = ExaLogLog::new(2, 24, 8).unwrap();
    for v in values {
        one_by_one.add(state.hash_one(v));
    }
    assert_eq!(together.state(), one_by_one.state());
}

#[test]
fn hash_fn_values_are_added() {
    let ids = [3u64, 1, 4, 1, 5, 9];
    let mix = |x: &u64| x.wrapping_mul(0x9e37_79b9_7f4a_7c15) ^ 0x55;
    let mut together = ExaLogLog::new(2, 24, 8).unwrap();
    together.add_raw_values_with_hash_fn(&ids, mix);
    let mut single = ExaLogLog::new(2, 24, 8).unwrap();
    for id in ids {
        single.add_raw_with_hash_fn(id, mix);
    }
    let mut direct = ExaLogLog::new(2, 24, 8).unwrap();
    for id in ids {
        direct.add(mix(&id));
    }
    assert_eq!(together.state(), direct.state());
    assert_eq!(single.state(), direct.state());
}

#[test]
fn clone_and_equality() {
    let mut a = ExaLogLog::new(2, 24, 8).unwrap();
    a.add_hashes(&hashes(14, 50));
    let b = a.clone();
    assert_eq!(a, b);
    let mut c = b.clone();
    c.add(0xdead_beef);
    assert_ne!(a, c);
    assert_ne!(a, ExaLogLog::new(2, 23, 8).unwrap());
}

#[test]
fn serialization_round_trip() {
    let mut sketch = ExaLogLog::new(2, 24, 12).unwrap();
    sketch.add_raw_values(&["apple", "banana", "cherry"]);

    let bytes = sketch.to_bytes();
    let restored = ExaLogLog::from_bytes(&bytes).unwrap();

    assert_eq!(restored.t(), sketch.t());
    assert_eq!(restored.d(), sketch.d());
    assert_eq!(restored.p(), sketch.p());
    assert_eq!(restored.state(), sketch.state());
}

#[test]
fn serialization_layout_and_errors() {
    let mut sketch = ExaLogLog::new(0, 1, 2).unwrap();
    sketch.add(0x0000_ffff_0000_0002);
    let bytes = sketch.to_bytes();
    assert_eq!(&bytes[..4], &[1, 0, 1, 2]);
    assert_eq!(&bytes[4..], sketch.state());

    assert_eq!(
        ExaLogLog::from_bytes(&[1, 0, 1]),
        Err(ExaLogLogError::InvalidStateLength)
    );
    let mut wrong_version = bytes.clone();
    wrong_version[0] = 2;
    assert_eq!(
        ExaLogLog::from_bytes(&wrong_version),
        Err(ExaLogLogError::InvalidStateLength)
    );
    let mut bad_t = bytes.clone();
    bad_t[1] = 25;
    assert_eq!(ExaLogLog::from_bytes(&bad_t), Err(ExaLogLogError::InvalidT));
    let mut bad_d = bytes.clone();
    bad_d[2] = 59;
    assert_eq!(ExaLogLog::from_bytes(&bad_d), Err(ExaLogLogError::InvalidD));
    let mut bad_p = bytes.clone();
    bad_p[3] = 1;
    assert_eq!(ExaLogLog::from_bytes(&bad_p), Err(ExaLogLogError::InvalidP));
    let mut long = bytes.clone();
    long.push(0);
    assert_eq!(
        ExaLogLog::from_bytes(&long),
        Err(ExaLogLogError::InvalidStateLength)
    );
}

#[test]
fn t_zero_odd_precision_equal_precision_cases() {
    let a = hashes(21, 1500);
    let b = hashes(22, 1500);
    // Only d shrinks: downsizing equals inserting directly.
    let mut wide = ExaLogLog::new(0, 20, 5).unwrap();
    wide.add_hashes(&a);
    let mut direct = ExaLogLog::new(0, 8, 5).unwrap();
    direct.add_hashes(&a);
    assert_eq!(wide.downsize(8, 5).unwrap().state(), direct.state());

    // Equal odd precisions: merging equals inserting both sets directly.
    let mut x = ExaLogLog::new(0, 12, 5).unwrap();
    x.add_hashes(&a);
    let mut y = ExaLogLog::new(0, 8, 5).unwrap();
    y.add_hashes(&b);
    let mut total = ExaLogLog::new(0, 8, 5).unwrap();
    total.add_hashes(&a).add_hashes(&b);
    assert_eq!(ExaLogLog::merge(&x, &y).unwrap().state(), total.state());
    assert_eq!(ExaLogLog::merge(&y, &x).unwrap().state(), total.state());
}

#[test]
fn merge_commutes_with_odd_precision_at_t_zero() {
    let mut x = ExaLogLog::new(0, 10, 5).unwrap();
    let mut y = ExaLogLog::new(0, 14, 3).unwrap();
    x.add_hashes(&hashes(23, 700));
    y.add_hashes(&hashes(24, 700));
    assert_eq!(
        ExaLogLog::merge(&x, &y).unwrap(),
        ExaLogLog::merge(&y, &x).unwrap()
    );
}

#[test]
fn wrap_rejects_length_below_smallest_precision() {
    assert_eq!(
        ExaLogLog::wrap(2, 24, vec![0u8; 8]),
        Err(ExaLogLogError::InvalidStateLength)
    );
}

#[test]
fn adding_itself_or_an_empty_larger_sketch_changes_nothing() {
    let mut x = ExaLogLog::new(0, 10, 5).unwrap();
    x.add_hashes(&hashes(31, 600));
    let before = x.clone();
    let copy = x.clone();
    x.add_sketch(&copy).unwrap();
    assert_eq!(x, before);
    let empty = ExaLogLog::new(0, 20, 7).unwrap();
    x.add_sketch(&empty).unwrap();
    assert_eq!(x, before);
}

#[test]
fn build_hasher_hash_feeds_a_fresh_hasher() {
    let state = RandomState::with_seeds(9, 8, 7, 6);
    let mut hasher = state.build_hasher();
    "plum".hash(&mut hasher);
    assert_eq!(
        ExaLogLog::hash_value_with_build_hasher("plum", &state),
        hasher.finish()
    );
}

use exaloglog::hashing::splitmix64;
use exaloglog::packed::{packed_get, packed_set};
use exaloglog::sketch::ExaLogLog;
use exaloglog::{max_d, max_p, ExaLogLogError, MAX_T, MIN_P};

#[test]
fn validates_parameters() {
    assert_eq!(max_p(0), 26);
    assert_eq!(max_d(0), 58);
    assert!(ExaLogLog::new(0, 0, MIN_P).is_ok());
    assert!(ExaLogLog::new(MAX_T, max_d(MAX_T), MIN_P).is_ok());
    assert_eq!(
        ExaLogLog::new(MAX_T + 1, 0, MIN_P),
        Err(ExaLogLogError::InvalidT)
    );
    assert_eq!(
        ExaLogLog::new(0, max_d(0) + 1, MIN_P),
        Err(ExaLogLogError::InvalidD)
    );
    assert_eq!(
        ExaLogLog::new(0, 0, MIN_P - 1),
        Err(ExaLogLogError::InvalidP)
    );
}

#[test]
fn packed_registers_round_trip() {
    for width in 1u32..=64 {
        let len = (width * 129).div_ceil(8);
        let mut data = vec![0u8; len as usize];
        let mask = if width == 64 {
            u64::MAX
        } else {
            (1u64 << width) - 1
        };
        let mut seed = width as u64;
        for idx in 0..129 {
            let value = splitmix64(&mut seed);
            packed_set(&mut data, idx, width, value);
            assert_eq!(packed_get(&data, idx, width), value & mask);
        }
    }
}

#[test]
fn token_addition_matches_hash_addition() {
    let mut seed = 0x1234_5678_9abc_def0;
    for p in 2..=10 {
        let mut by_hash = ExaLogLog::new(2, 20, p).unwrap();
        let mut by_token = ExaLogLog::new(2, 20, p).unwrap();
        for _ in 0..10_000 {
            let hash = splitmix64(&mut seed);
            by_hash.add(hash);
            by_token.add_token(ExaLogLog::compute_token(hash));
        }
        assert_eq!(by_hash.state(), by_token.state());
    }
}

#[test]
fn merge_matches_direct_insert() {
    let mut seed = 0x11a7_3f21_bb8a_d8f6;
    for p1 in 2..=8 {
        for p2 in 2..=8 {
            let mut sketch1 = ExaLogLog::new(2, 20, p1).unwrap();
            let mut sketch2 = ExaLogLog::new(2, 20, p2).unwrap();
            let mut total = ExaLogLog::new(2, 20, p1.min(p2)).unwrap();

            for _ in 0..2048 {
                let hash = splitmix64(&mut seed);
                sketch1.add(hash);
                total.add(hash);
            }
            for _ in 0..3072 {
                let hash = splitmix64(&mut seed);
                sketch2.add(hash);
                total.add(hash);
            }

            let merged = ExaLogLog::merge(&sketch1, &sketch2).unwrap();
            assert_eq!(merged.state(), total.state());
        }
    }
}

#[test]
fn downsize_matches_direct_insert() {
    let mut seed = 0x2378_46c7_b27d_f6b4;
    for original_p in 2..=10 {
        for downsized_p in 2..=original_p {
            let mut original = ExaLogLog::new(2, 24, original_p).unwrap();
            let mut direct = ExaLogLog::new(2, 24, downsized_p).unwrap();
            for _ in 0..4096 {
                let hash = splitmix64(&mut seed);
                original.add(hash);
                direct.add(hash);
            }
            let downsized = original.downsize(24, downsized_p).unwrap();
            assert_eq!(downsized.state(), direct.state());
        }
    }
}

#[test]
fn hash_input_api_prehashed_u64_matches_add_alias() {
    let hashes = [
        0x0123_4567_89ab_cdef,
        0xfedc_ba98_7654_3210,
        0x9e37_79b9_7f4a_7c15,
        0xbf58_476d_1ce4_e5b9,
        0x94d0_49bb_1331_11eb,
    ];

    let mut via_add = ExaLogLog::new(2, 24, 8).unwrap();
    for hash in hashes {
        via_add.add(hash);
    }

    let mut via_hash_api = ExaLogLog::new(2, 24, 8).unwrap();
    via_hash_api.add_hashes(&hashes);

    assert_eq!(via_add.state(), via_hash_api.state());
}

use exaloglog::downsize::{compute_downsize_threshold_u, downsize_register, DownsizeParams};
use exaloglog::estimate::{arithmetic_shr_u64, contribute};
use exaloglog::hashing::splitmix64;
use exaloglog::sketch::ExaLogLog;
use exaloglog::{max_d, max_p, MIN_P};

fn phi(k: u64, p: u32, t: u32) -> u32 {
    if k == 0 {
        t
    } else {
        (t + 1 + (((k - 1) >> t) as u32)).min(64 - p)
    }
}

fn omega_scaled(u: u64, p: u32, t: u32) -> u64 {
    let phi_eval = phi(u, p, t);
    ((((1_i64 - t as i64 + phi_eval as i64) as u64) << t) - u) << (64 - p - phi_eval)
}

fn contribute_reference(r: u64, b: &mut [i32; 64], p: u32, t: u32, d: u32) -> u64 {
    let u = r >> d;
    let mut a_prime = omega_scaled(u, p, t);
    if u >= 1 {
        let mut j = phi(u, p, t);
        b[(j - t - 1) as usize] += 1;
        if u >= 2 {
            for k in 1.max(u.saturating_sub(d as u64))..u {
                j = phi(k, p, t);
                let bit = k + d as u64 - u;
                if (r & (1u64 << bit)) == 0 {
                    a_prime += 1u64 << (64 - p - j);
                } else {
                    b[(j - t - 1) as usize] += 1;
                }
            }
        }
    }
    a_prime
}

#[test]
fn contribute_matches_reference() {
    let mut seed = 0;
    for t in 0..=8 {
        for d in 0..=16.min(max_d(t)) {
            for p in MIN_P..=8.min(max_p(t)) {
                let max_u = ((65 - p - t) as u64) << t;
                for u in 0..=max_u.min(400) {
                    for _ in 0..3 {
                        let low = if d == 0 {
                            0
                        } else {
                            splitmix64(&mut seed) & ((1u64 << d) - 1)
                        };
                        let r = (u << d) | low;
                        let mut b = [0i32; 64];
                        let mut b_ref = [0i32; 64];
                        let a = contribute(r, Some(&mut b), t, d, p);
                        let a_ref = contribute_reference(r, &mut b_ref, p, t, d);
                        assert_eq!((a, b), (a_ref, b_ref), "t={t} d={d} p={p} r={r}");
                        assert_eq!(contribute(r, None, t, d, p), a_ref);
                    }
                }
            }
        }
    }
}

#[test]
fn contribute_of_empty_register_is_register_share() {
    let mut b = [0i32; 64];
    assert_eq!(contribute(0, Some(&mut b), 2, 20, 8), 1u64 << 56);
    assert_eq!(b, [0i32; 64]);
}

#[test]
fn contribute_exact_value() {
    // Largest value 5 at level 1, no smaller values recorded: the four values
    // of level 0 each weigh 2^53, the values above 5 give 7 * 2^52.
    let mut b = [0i32; 64];
    let a = contribute(5u64 << 20, Some(&mut b), 2, 20, 8);
    assert_eq!(a, 15u64 << 52);
    let mut expected = [0i32; 64];
    expected[1] = 1;
    assert_eq!(b, expected);

    // The same register with all four values of level 0 recorded.
    let mut b = [0i32; 64];
    let r = (5u64 << 20) | (0b1111 << 16);
    let a = contribute(r, Some(&mut b), 2, 20, 8);
    assert_eq!(a, 7u64 << 52);
    expected[0] = 4;
    assert_eq!(b, expected);
}

#[test]
fn contribute_adds_to_existing_counts() {
    let mut b = [3i32; 64];
    contribute(5u64 << 20, Some(&mut b), 2, 20, 8);
    assert_eq!(b[1], 4);
    assert_eq!(b[0], 3);
}

#[test]
fn contribute_large_t_reaches_one_level_down() {
    // t = 6: a level holds 64 values, so bits below the first value of the
    // largest value's level belong to the level right under it.
    for t in 6..=10 {
        let d = 20;
        let p = 4;
        let mut seed = 77 + t as u64;
        for u in [1u64, 2, 63, 64, 65, 100, 128, 129, 1000] {
            let low = splitmix64(&mut seed) & ((1u64 << d) - 1);
            let r = (u << d) | low;
            let mut b = [0i32; 64];
            let mut b_ref = [0i32; 64];
            let a = contribute(r, Some(&mut b), t, d, p);
            let a_ref = contribute_reference(r, &mut b_ref, p, t, d);
            assert_eq!((a, b), (a_ref, b_ref));
        }
    }
}

#[test]
fn arithmetic_shift_copies_the_top_bit() {
    assert_eq!(arithmetic_shr_u64(0x8000_0000_0000_0000, 4), 0xf800_0000_0000_0000);
    assert_eq!(arithmetic_shr_u64(0x7000_0000_0000_0000, 4), 0x0700_0000_0000_0000);
    assert_eq!(arithmetic_shr_u64(u64::MAX << 10, 4), u64::MAX << 6);
    assert_eq!(arithmetic_shr_u64(u64::MAX << 3, 8), u64::MAX);
}

#[test]
fn empty_sketch_coefficients_wrap_to_zero() {
    let sketch = ExaLogLog::new(2, 24, 8).unwrap();
    assert!(sketch.registers_in_range());
    let (agg, b) = sketch.likelihood_coefficients();
    assert_eq!(agg, 0);
    assert_eq!(b, [0i32; 64]);
}

#[test]
fn coefficients_sum_register_contributions() {
    let mut sketch = ExaLogLog::new(2, 24, 8).unwrap();
    let mut seed = 0xfeed_face_cafe_beef;
    for _ in 0..5_000 {
        sketch.add(splitmix64(&mut seed));
    }
    assert!(sketch.registers_in_range());
    let (agg, b) = sketch.likelihood_coefficients();
    let width = 6 + 2 + 24;
    let mut expected_agg = 0u64;
    let mut expected_b = [0i32; 64];
    for idx in 0..256usize {
        let mut r = 0u64;
        for bit in 0..width {
            let pos = idx * width + bit;
            if sketch.state()[pos / 8] >> (pos % 8) & 1 == 1 {
                r |= 1u64 << bit;
            }
        }
        expected_agg = expected_agg.wrapping_add(contribute_reference(r, &mut expected_b, 8, 2, 24));
    }
    assert_eq!(agg, expected_agg);
    assert_eq!(b, expected_b);
}

#[test]
fn one_hash_counts_once() {
    let mut sketch = ExaLogLog::new(2, 24, 8).unwrap();
    sketch.add(0x0123_4567_89ab_cdef);
    let (_, b) = sketch.likelihood_coefficients();
    assert_eq!(b.iter().sum::<i32>(), 1);
}

#[test]
fn out_of_range_registers_are_reported() {
    // t = 1, d = 0, p = 2: registers of 7 bits, the largest level is 124.
    let sketch = ExaLogLog::wrap(1, 0, vec![0xff, 0xff, 0xff, 0xff]).unwrap();
    assert!(!sketch.registers_in_range());
    let sketch = ExaLogLog::wrap(1, 0, vec![124, 0x00, 0x00, 0x00]).unwrap();
    assert!(sketch.registers_in_range());
    let sketch = ExaLogLog::wrap(1, 0, vec![125, 0x00, 0x00, 0x00]).unwrap();
    assert!(!sketch.registers_in_range());
}

#[test]
fn downsize_register_keeps_precision_drops_history() {
    let params = DownsizeParams {
        t: 2,
        from_d: 20,
        to_d: 8,
        from_p: 6,
        to_p: 6,
        threshold_u: compute_downsize_threshold_u(2, 6),
    };
    for r in [0u64, 1, 0x3ff_ffff_ffff, u64::MAX, (231u64 << 20) | 0xabcde] {
        assert_eq!(downsize_register(r, 0, params), r >> 12);
    }
}

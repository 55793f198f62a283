use bitpitch::config::{get_smallest_pow2, Config};

#[test]
fn config_derives_expected_constants() {
    let cfg = Config::new(50, 500, 44100).unwrap();
    assert_eq!(cfg.nbits, 32);
    assert_eq!(cfg.samples_per_second, 44100);
    assert_eq!(cfg.min_period, 88);
    assert_eq!(cfg.max_period, 882);
    assert_eq!(cfg.buff_size, 2048);
    assert_eq!(cfg.array_size, 64);
    assert_eq!(cfg.mid_array, 31);
    assert_eq!(cfg.mid_pos, 1024);
}

#[test]
fn config_derivation_is_idempotent() {
    let a = Config::new(50, 500, 44100).unwrap();
    let b = Config::new(50, 500, 44100).unwrap();
    assert_eq!(a.nbits, b.nbits);
    assert_eq!(a.samples_per_second, b.samples_per_second);
    assert_eq!(a.min_period, b.min_period);
    assert_eq!(a.max_period, b.max_period);
    assert_eq!(a.buff_size, b.buff_size);
    assert_eq!(a.array_size, b.array_size);
    assert_eq!(a.mid_array, b.mid_array);
    assert_eq!(a.mid_pos, b.mid_pos);
}

#[test]
fn config_rejects_unordered_frequencies() {
    assert!(Config::new(500, 50, 44100).is_none());
    assert!(Config::new(500, 500, 44100).is_none());
    assert!(Config::new(0, 500, 44100).is_none());
}

#[test]
fn config_rejects_low_sample_rate() {
    // The sample rate must exceed twice the highest frequency.
    assert!(Config::new(50, 500, 1000).is_none());
    assert!(Config::new(50, 500, 999).is_none());
}

#[test]
fn config_rejects_power_of_two_longest_period() {
    // 204800 / 50 = 4096 is a power of two: the lag search could never
    // reach the longest period, so the tunables are refused.
    assert!(Config::new(50, 500, 204800).is_none());
    // A nearby non-power-of-two longest period is accepted.
    let cfg = Config::new(50, 500, 210000).unwrap();
    assert_eq!(cfg.max_period, 4200);
    assert_eq!(cfg.mid_pos, 8192);
}

#[test]
fn smallest_pow2_examples() {
    assert_eq!(get_smallest_pow2(1), 1);
    assert_eq!(get_smallest_pow2(2), 2);
    assert_eq!(get_smallest_pow2(3), 4);
    assert_eq!(get_smallest_pow2(882), 1024);
    assert_eq!(get_smallest_pow2(1024), 1024);
    assert_eq!(get_smallest_pow2(1025), 2048);
}

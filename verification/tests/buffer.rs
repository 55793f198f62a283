use bitpitch::bitstream::Bitstream;
use bitpitch::config::Config;
use bitpitch::zero_cross::{ZeroCross, FALL_THRESHOLD, SAMPLE_SCALE};

#[test]
fn zero_cross_hysteresis() {
    let mut zc = ZeroCross::new();
    // Starts low and stays low on samples inside the band.
    assert!(!zc.run(0));
    assert!(!zc.run(FALL_THRESHOLD));
    // Any positive sample drives the level high.
    assert!(zc.run(1));
    // Inside the hysteresis band the level is kept.
    assert!(zc.run(0));
    assert!(zc.run(-SAMPLE_SCALE / 20));
    // Below the falling threshold the level drops.
    assert!(!zc.run(-SAMPLE_SCALE / 5));
    assert!(!zc.run(0));
}

#[test]
fn bit_buffer_set_then_get_round_trips() {
    let cfg = Config::new(50, 500, 44100).unwrap();
    let mut bs = Bitstream::new(&cfg);
    for i in 0..cfg.buff_size {
        assert!(!bs.get(i));
    }
    for i in 0..cfg.buff_size {
        bs.set(i, i % 7 == 3);
    }
    for i in 0..cfg.buff_size {
        assert_eq!(bs.get(i), i % 7 == 3);
    }
    // Clearing a set bit round-trips too.
    bs.set(3, false);
    assert!(!bs.get(3));
}

#[test]
fn bit_buffer_set_perturbs_no_other_index() {
    let cfg = Config::new(50, 500, 44100).unwrap();
    let mut bs = Bitstream::new(&cfg);
    for i in 0..cfg.buff_size {
        bs.set(i, i % 3 == 0);
    }
    let probe = 500;
    bs.set(probe, true);
    for i in 0..cfg.buff_size {
        if i != probe {
            assert_eq!(bs.get(i), i % 3 == 0);
        } else {
            assert!(bs.get(i));
        }
    }
}

#[test]
fn autocorrelate_finds_square_wave_period() {
    let cfg = Config::new(50, 500, 44100).unwrap();
    let mut bs = Bitstream::new(&cfg);
    // A perfect square wave of period 200 samples.
    for i in 0..cfg.buff_size {
        bs.set(i, (i / 100) % 2 == 0);
    }
    let (max_count, est_index, corr) = bs.autocorrelate(&cfg, cfg.min_period);
    assert_eq!(corr.len(), cfg.mid_pos);
    assert_eq!(est_index, 200);
    assert_eq!(corr[200], 0);
    assert_eq!(corr[400], 0);
    assert!(corr[100] > 0);
    assert!(max_count >= corr[100]);
}

#[test]
fn handle_harmonics_demotes_to_strong_sub_period() {
    let cfg = Config::new(50, 500, 44100).unwrap();
    let mut corr: Vec<u32> = vec![500; cfg.mid_pos];
    // The best lag 400 scores lowest; its half 200 is also strong.
    corr[400] = 5;
    corr[200] = 10;
    let est = Bitstream::handle_harmonics(&cfg, 500, 400, &corr);
    assert_eq!(est, 200);
}

#[test]
fn handle_harmonics_keeps_lag_when_no_divisor_qualifies() {
    let cfg = Config::new(50, 500, 44100).unwrap();
    let mut corr: Vec<u32> = vec![500; cfg.mid_pos];
    corr[400] = 5;
    // Every sub-period multiple scores far above 15% of the maximum.
    let est = Bitstream::handle_harmonics(&cfg, 500, 400, &corr);
    assert_eq!(est, 400);
}

#[test]
fn handle_harmonics_short_lag_has_no_candidates() {
    let cfg = Config::new(50, 500, 44100).unwrap();
    let corr: Vec<u32> = vec![0; cfg.mid_pos];
    // 100 / 88 == 1: only the trivial divisor exists, the lag is kept.
    let est = Bitstream::handle_harmonics(&cfg, 0, 100, &corr);
    assert_eq!(est, 100);
}

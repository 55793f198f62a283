use bitpitch::bitstream::Bitstream;
use bitpitch::config::Config;
use bitpitch::note::note_name;
use bitpitch::pitch::Frequency;
use bitpitch::zero_cross::SAMPLE_SCALE;

fn sine_window(cfg: &Config, parts: &[(f64, f64)]) -> Vec<i32> {
    let rate = cfg.samples_per_second as f64;
    (0..cfg.buff_size)
        .map(|i| {
            let t = i as f64 / rate;
            let s: f64 = parts
                .iter()
                .map(|&(f, a)| a * (2.0 * std::f64::consts::PI * f * t).sin())
                .sum();
            (s * SAMPLE_SCALE as f64) as i32
        })
        .collect()
}

fn hertz(f: &Frequency) -> f64 {
    f.num as f64 / f.den as f64
}

#[test]
fn silence_returns_absent() {
    let cfg = Config::new(50, 500, 44100).unwrap();
    let signal: Vec<i32> = vec![0; cfg.buff_size];
    assert_eq!(Bitstream::estimate_pitch(&cfg, &signal), None);
}

#[test]
fn negative_window_returns_absent() {
    let cfg = Config::new(50, 500, 44100).unwrap();
    let signal: Vec<i32> = vec![-SAMPLE_SCALE / 2; cfg.buff_size];
    assert_eq!(Bitstream::estimate_pitch(&cfg, &signal), None);
}

#[test]
fn dc_offset_gives_degenerate_estimate() {
    // A constant positive signal keeps the detector level high for every
    // sample; the bitstream is uniform, the best lag is the first one
    // scanned (min_period = 88), and the refiner degenerates to the exact
    // rational 44100 / 87.
    let cfg = Config::new(50, 500, 44100).unwrap();
    let signal: Vec<i32> = vec![SAMPLE_SCALE / 2; cfg.buff_size];
    let r = Bitstream::estimate_pitch(&cfg, &signal).unwrap();
    assert_eq!(r.num * 87, r.den * 44100);
}

#[test]
fn sine_round_trip_within_one_percent() {
    let cfg = Config::new(50, 500, 44100).unwrap();
    for f in [55.0f64, 110.0, 196.0, 330.0, 440.0] {
        let signal = sine_window(&cfg, &[(f, 1.0)]);
        let r = Bitstream::estimate_pitch(&cfg, &signal)
            .unwrap_or_else(|| panic!("no pitch at {f} Hz"));
        let got = hertz(&r);
        assert!(
            (got - f).abs() <= 0.01 * f,
            "estimated {got} Hz for a {f} Hz tone"
        );
    }
}

#[test]
fn estimate_is_deterministic() {
    let cfg = Config::new(50, 500, 44100).unwrap();
    let signal = sine_window(&cfg, &[(110.0, 1.0)]);
    let a = Bitstream::estimate_pitch(&cfg, &signal);
    let b = Bitstream::estimate_pitch(&cfg, &signal);
    assert_eq!(a, b);
}

#[test]
fn octave_error_is_corrected() {
    // A strong tone at 220 Hz with a weak component at 110 Hz: the exact
    // period of the compound is ~401 samples and the raw search locks onto
    // it, but the 200-sample sub-period is also strongly self-similar, so
    // the corrector demotes the lag and the reported pitch is the 220 Hz
    // of the dominant tone.
    let cfg = Config::new(50, 500, 44100).unwrap();
    let signal = sine_window(&cfg, &[(220.0, 1.0), (110.0, 0.2)]);

    let mut zc = bitpitch::zero_cross::ZeroCross::new();
    let mut bs = Bitstream::new(&cfg);
    for i in 0..cfg.buff_size {
        bs.set(i, zc.run(signal[i]));
    }
    let (max_count, raw_est, corr) = bs.autocorrelate(&cfg, cfg.min_period);
    assert!(
        (395..=407).contains(&raw_est),
        "raw lag {raw_est} not near the compound period"
    );
    let corrected = Bitstream::handle_harmonics(&cfg, max_count, raw_est, &corr);
    assert!(
        (198..=203).contains(&corrected),
        "corrected lag {corrected} not near the dominant period"
    );

    let r = Bitstream::estimate_pitch(&cfg, &signal).unwrap();
    let got = hertz(&r);
    assert!(
        (got - 220.0).abs() <= 0.02 * 220.0,
        "estimated {got} Hz for the 220 Hz dominant tone"
    );
}

#[test]
fn refiner_interpolates_exact_rational() {
    let cfg = Config::new(50, 500, 44100).unwrap();
    let mut signal: Vec<i32> = vec![0; cfg.buff_size];
    // First crossing between indices 0 and 1: dx1 = 100 / 200 = 0.5.
    signal[0] = -100;
    signal[1] = 100;
    // Second crossing between 99 and 100: dx2 = 300 / 400 = 0.75.
    signal[99] = -300;
    signal[100] = 100;
    // Period = (100 - 1) + 0.75 - 0.5 = 99.25 samples exactly.
    let r = Bitstream::estimate_pitch_with_index(&cfg, &signal, 100).unwrap();
    assert_eq!(r.num, 44100 * 200 * 400);
    assert_eq!(r.den, 99 * 200 * 400 - 100 * 400 + 300 * 200);
    assert!((hertz(&r) - 44100.0 / 99.25).abs() < 1e-9);
}

#[test]
fn refiner_rejects_out_of_range_lag() {
    let cfg = Config::new(50, 500, 44100).unwrap();
    let mut signal: Vec<i32> = vec![0; cfg.buff_size];
    signal[0] = 100;
    assert_eq!(
        Bitstream::estimate_pitch_with_index(&cfg, &signal, cfg.buff_size),
        None
    );
}

#[test]
fn refiner_needs_a_second_crossing() {
    let cfg = Config::new(50, 500, 44100).unwrap();
    let mut signal: Vec<i32> = vec![0; cfg.buff_size];
    // One positive sample near the start, nothing after the lag.
    signal[5] = 100;
    assert_eq!(
        Bitstream::estimate_pitch_with_index(&cfg, &signal, 500),
        None
    );
}

#[test]
fn note_names_cover_the_scale() {
    assert_eq!(note_name(0), "C");
    assert_eq!(note_name(9), "A");
    assert_eq!(note_name(10), "A#");
    assert_eq!(note_name(11), "B");
}

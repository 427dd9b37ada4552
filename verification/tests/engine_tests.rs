use compressor::compressor::{Algo, RawParameters};
use compressor::fixed::SCALE;

fn params(threshold: i64, ratio: i64, steepness: i64, attack: i64, release: i64, gain: i64) -> RawParameters {
    RawParameters { threshold, ratio, steepness, attack, release, gain }
}

/// Hard-knee settings with an attack so short that the envelope tracks the
/// input within a single sample.
fn snappy(threshold: i64, ratio: i64, gain: i64) -> RawParameters {
    params(threshold, ratio, 10_000 * SCALE, 1, 140_000, gain)
}

#[test]
fn fresh_engine_is_silent() {
    let a = Algo::new();
    assert_eq!(a.get_envelope(), 0);
}

#[test]
fn scenario_full_scale_over_threshold() {
    // threshold 0.5, ratio 2:1, immediate attack, very steep knee, input 1.0:
    // envelope reaches 1.0 at once, the ratio factor is 0.5, the wet
    // candidate is 0.75, the crossfade saturates to fully wet.
    let mut a = Algo::new();
    let mut s: i64 = SCALE;
    let p = snappy(SCALE / 2, 2 * SCALE, SCALE);
    a.process_samples(&mut s, p, None).unwrap();
    assert_eq!(a.get_envelope(), SCALE);
    assert_eq!(s, 750_000);
}

#[test]
fn scenario_constant_signal_below_threshold() {
    // Same settings, constant input 0.3: the envelope settles at 0.3, the
    // wet branch never engages, the crossfade saturates to fully dry, and
    // the output is exactly the input.
    let mut a = Algo::new();
    let p = snappy(SCALE / 2, 2 * SCALE, SCALE);
    for _ in 0..100 {
        let mut s: i64 = 300_000;
        a.process_samples(&mut s, p, None).unwrap();
        assert_eq!(a.get_envelope(), 300_000);
        assert_eq!(s, 300_000);
    }
}

#[test]
fn unit_ratio_is_identity_for_any_sequence() {
    // Ratio 1.0 must be numerically equivalent to no compression at every
    // sample, including samples far above the threshold, with only the gain
    // applied.
    let mut a = Algo::new();
    let p = params(SCALE / 4, SCALE, 8 * SCALE, 20_000, 140_000, 2 * SCALE);
    let inputs: [i64; 7] = [SCALE, -SCALE, 900_000, -123_456, 250_000, 0, 777_777];
    for &x in inputs.iter() {
        let mut s = x;
        a.process_samples(&mut s, p, None).unwrap();
        assert_eq!(s, 2 * x);
    }
}

#[test]
fn output_at_threshold_matches_passthrough() {
    // With the envelope already above the threshold, a sample sitting
    // exactly on the threshold is returned unchanged: the compressed branch
    // and the dry branch agree at the boundary, so there is no jump.
    let mut a = Algo::new();
    let p = snappy(SCALE / 2, 4 * SCALE, SCALE);
    let mut warmup: i64 = SCALE;
    a.process_samples(&mut warmup, p, None).unwrap();
    assert_eq!(a.get_envelope(), SCALE);
    let mut s: i64 = SCALE / 2;
    // A gentle release keeps the envelope above the threshold this sample.
    a.process_samples(&mut s, p, None).unwrap();
    assert!(a.get_envelope() > SCALE / 2);
    assert_eq!(s, SCALE / 2);
}

#[test]
fn envelope_never_overshoots() {
    let mut a = Algo::new();
    let p = params(SCALE / 2, 3 * SCALE, 8 * SCALE, 5_000, 60_000, SCALE);
    let inputs: [i64; 9] = [0, SCALE, 900_000, -SCALE, 100, -100, 650_000, 0, 42];
    for &x in inputs.iter() {
        let before = a.get_envelope();
        let mut s = x;
        a.process_samples(&mut s, p, None).unwrap();
        let after = a.get_envelope();
        let magnitude = x.abs();
        assert!(after >= before.min(magnitude));
        assert!(after <= before.max(magnitude));
    }
}

#[test]
fn attack_slew_is_linear_and_clamped() {
    // attack 20 ms at 48 kHz: slope = 1e12 / (48000 * 20000) = 1041 per
    // sample, rising linearly toward the input magnitude.
    let mut a = Algo::new();
    let p = params(900_000, 2 * SCALE, 8 * SCALE, 20_000, 140_000, SCALE);
    let mut s: i64 = SCALE;
    a.process_samples(&mut s, p, None).unwrap();
    assert_eq!(a.get_envelope(), 1041);
    let mut s2: i64 = SCALE;
    a.process_samples(&mut s2, p, None).unwrap();
    assert_eq!(a.get_envelope(), 2082);
}

#[test]
fn release_slew_is_linear_and_clamped() {
    // Drive the envelope to 1.0 instantly, then feed silence: release
    // 140 ms gives a slope of 1e12 / (48000 * 140000) = 148 per sample.
    let mut a = Algo::new();
    let p = snappy(SCALE / 2, 2 * SCALE, SCALE);
    let mut s: i64 = SCALE;
    a.process_samples(&mut s, p, None).unwrap();
    assert_eq!(a.get_envelope(), SCALE);
    let mut quiet: i64 = 0;
    a.process_samples(&mut quiet, p, None).unwrap();
    assert_eq!(a.get_envelope(), SCALE - 148);
}

#[test]
fn low_signal_converges_to_identity_after_release() {
    // Identity on low signal: after the envelope has released down to a
    // constant input below the threshold, the output equals input * gain.
    let mut a = Algo::new();
    let p = snappy(SCALE / 2, 2 * SCALE, 3 * SCALE / 2);
    let mut s: i64 = SCALE;
    a.process_samples(&mut s, p, None).unwrap();
    assert_eq!(a.get_envelope(), SCALE);
    let mut settled = false;
    for _ in 0..10_000 {
        let mut quiet: i64 = 300_000;
        a.process_samples(&mut quiet, p, None).unwrap();
        if a.get_envelope() == 300_000 {
            settled = true;
            assert_eq!(quiet, 450_000);
            break;
        }
    }
    assert!(settled);
}

#[test]
fn reset_is_idempotent() {
    let mut a = Algo::new();
    let p = snappy(SCALE / 2, 2 * SCALE, SCALE);
    let mut s: i64 = SCALE;
    a.process_samples(&mut s, p, None).unwrap();
    assert!(a.get_envelope() > 0);
    a.reset();
    assert_eq!(a.get_envelope(), 0);
    a.reset();
    assert_eq!(a.get_envelope(), 0);
    a.reset();
    assert_eq!(a.get_envelope(), 0);
}

#[test]
fn negative_excursions_mirror_positive_ones() {
    // The wet candidate is sign-symmetric: a full-scale negative input under
    // the scenario settings lands on -0.75.
    let mut a = Algo::new();
    let mut s: i64 = -SCALE;
    let p = snappy(SCALE / 2, 2 * SCALE, SCALE);
    a.process_samples(&mut s, p, None).unwrap();
    assert_eq!(a.get_envelope(), SCALE);
    assert_eq!(s, -750_000);
}

#[test]
fn gain_applies_after_compression() {
    let mut a = Algo::new();
    let mut s: i64 = SCALE;
    let p = snappy(SCALE / 2, 2 * SCALE, SCALE / 2);
    a.process_samples(&mut s, p, None).unwrap();
    assert_eq!(s, 375_000);
}

#[test]
fn extreme_input_is_tamed() {
    // The loudest level the engine accepts, 1000 times full scale: the
    // envelope climbs by at most one attack slope (1e12 / 48000) in the
    // first sample, and the output is the wet candidate for that envelope.
    let mut a = Algo::new();
    let mut s: i64 = 1_000 * SCALE;
    let p = snappy(SCALE / 2, 2 * SCALE, SCALE);
    a.process_samples(&mut s, p, None).unwrap();
    assert_eq!(a.get_envelope(), 20_833_333);
    assert_eq!(s, 24_488_000);
}

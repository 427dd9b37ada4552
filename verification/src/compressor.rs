//! The per-channel compression engine.
//!
//! Each audio channel owns one [`Algo`]: a peak-following envelope with
//! independent linear attack/release slew rates, and a knee mixer that blends
//! the untouched ("dry") sample against a ratio-reduced ("wet") candidate.
//! All levels are fixed-point `i64` values in units of `1 / SCALE` (see
//! [`crate::fixed`]): a sample of `SCALE` is full scale, a ratio of
//! `2 * SCALE` is 2:1, and `attack`/`release` are seconds times `SCALE`.

use vstd::prelude::*;

verus! {

use crate::fixed::{SCALE, tdiv, lemma_tdiv_exact, lemma_tdiv_bound, scale_mul};
use crate::logging::{SampleLogger, LogModel, write_state, check_result};
use vstd::math::{abs, min, max};
use vstd::arithmetic::div_mod::{lemma_div_is_ordered, lemma_div_is_ordered_by_denominator, lemma_div_multiples_vanish, lemma_div_pos_is_pos};

/// Sample rate an engine starts with and returns to on reset, in samples per
/// second.
pub const DEFAULT_SAMPLE_RATE: i64 = 48_000;

/// Largest magnitude the engine accepts for a sample, an envelope or a gain:
/// 1000 times full scale, far beyond any audio signal, but small enough that
/// every intermediate product is provably in range.
pub const MAX_LEVEL: i64 = 1_000 * SCALE;

/// Half-width of the knee crossfade in argument units: once
/// `steepness * (threshold - |sample|)` moves this far from zero the blend
/// saturates to fully dry (below threshold) or fully wet (above threshold),
/// mirroring how the logistic crossfade saturates in the limit.
pub const KNEE_WIDTH: i64 = 6 * SCALE;

/// Per-sample control values, supplied fresh on every sample by the caller
/// (an external smoothing stage); nothing here is stored by the engine.
#[derive(Debug, Clone, Copy)]
pub struct RawParameters {
    /// Level above which compression begins, in `(0, SCALE)`.
    pub threshold: i64,
    /// Compression ratio, at least `SCALE` (1:1).
    pub ratio: i64,
    /// Sharpness of the knee transition; larger approaches a hard knee.
    pub steepness: i64,
    /// Nominal attack time in seconds, fixed point, positive.
    pub attack: i64,
    /// Nominal release time in seconds, fixed point, positive.
    pub release: i64,
    /// Output gain multiplier, fixed point.
    pub gain: i64,
}

/// The bounds under which the engine's arithmetic is defined: threshold
/// strictly inside `(0, 1)`, ratio at least 1, positive steepness and time
/// constants, and a gain within the global level bound.
pub open spec fn valid_params(p: RawParameters) -> bool {
    &&& 0 < p.threshold < SCALE
    &&& p.ratio >= SCALE
    &&& p.steepness >= 1
    &&& p.attack >= 1
    &&& p.release >= 1
    &&& -MAX_LEVEL <= p.gain <= MAX_LEVEL
}

/// Mathematical state of one engine instance.
#[verifier::ext_equal]
pub struct AlgoModel {
    /// Tracked peak magnitude, non-negative.
    pub envelope: int,
    /// Samples per second.
    pub sample_rate: int,
}

/// One per-channel engine instance: the envelope it tracks and the sample
/// rate it was configured with.
pub struct Algo {
    envelope: i64,
    sample_rate: i64,
}

impl View for Algo {
    type V = AlgoModel;

    closed spec fn view(&self) -> AlgoModel {
        AlgoModel { envelope: self.envelope as int, sample_rate: self.sample_rate as int }
    }
}

/// Slew rate of the envelope per sample: the reciprocal of how many samples
/// the given time constant spans, as a fixed-point fraction of full scale.
pub open spec fn slew_slope(sample_rate: int, time: int) -> int
    recommends
        sample_rate > 0,
        time > 0,
{
    (SCALE as int * SCALE) / (sample_rate * time)
}

/// One envelope update: rise toward a louder instantaneous magnitude at most
/// `attack_slope` per sample, fall toward a quieter one at most
/// `release_slope` per sample, and never overshoot the magnitude itself.
pub open spec fn env_step(env: int, level: int, attack_slope: int, release_slope: int) -> int {
    if level > env {
        min(env + attack_slope, level)
    } else if level < env {
        max(env - release_slope, level)
    } else {
        env
    }
}

/// Normalizes the distance between the threshold and full scale to the unit
/// interval: `1 / (1 - threshold)` in fixed point.
pub open spec fn envelope_scaler(threshold: int) -> int
    recommends
        0 < threshold < SCALE,
{
    (SCALE as int * SCALE) / (SCALE - threshold)
}

/// Gain-reduction factor for the wet candidate:
/// `1 / ((envelope - threshold) / (1 - threshold) * (ratio - 1) + 1)` in fixed
/// point.  It descends from 1 at `envelope == threshold` to `1 / ratio` at a
/// full-scale envelope, so the effective ratio grows with how far the tracked
/// envelope sits above the threshold.
pub open spec fn ratio_factor(env: int, threshold: int, ratio: int) -> int
    recommends
        0 < threshold < SCALE,
        threshold <= env,
        ratio >= SCALE,
{
    let scaled = (env - threshold) * envelope_scaler(threshold) / (SCALE as int);
    let weight = scaled * (ratio - SCALE) / (SCALE as int);
    (SCALE as int * SCALE) / (weight + SCALE)
}

/// The compressed ("wet") candidate: when the envelope is above the threshold
/// and the instantaneous sample exceeds the threshold on the same sign, the
/// excursion beyond the threshold is shrunk by the ratio factor; otherwise the
/// sample is offered unchanged.
pub open spec fn wet_candidate(env: int, s: int, threshold: int, ratio: int) -> int
    recommends
        0 < threshold < SCALE,
        ratio >= SCALE,
{
    if env > threshold && s > threshold {
        threshold + tdiv((s - threshold) * ratio_factor(env, threshold, ratio), SCALE as int)
    } else if env > threshold && s < -threshold {
        -(threshold + tdiv((abs(s) - threshold) * ratio_factor(env, threshold, ratio), SCALE as int))
    } else {
        s
    }
}

/// The knee crossfade as a function of `arg = steepness * (threshold - |s|)`:
/// 0 (fully dry) once `arg` reaches `KNEE_WIDTH`, `SCALE` (fully wet) once it
/// reaches `-KNEE_WIDTH`, and in between a smoothstep that passes through
/// `SCALE / 2` at the threshold itself.
pub open spec fn knee_mix(arg: int) -> int {
    if arg >= KNEE_WIDTH {
        0
    } else if arg <= -KNEE_WIDTH {
        SCALE as int
    } else {
        let u = KNEE_WIDTH - arg;
        (SCALE as int) * u * u * (3 * KNEE_WIDTH - u) / (4 * (KNEE_WIDTH as int) * KNEE_WIDTH * KNEE_WIDTH)
    }
}

/// How much of the wet candidate reaches the output for the given steepness,
/// threshold and instantaneous input magnitude.
pub open spec fn mix_of(steepness: int, threshold: int, abs_sample: int) -> int
    recommends
        steepness > 0,
        0 < threshold < SCALE,
        abs_sample >= 0,
{
    knee_mix(tdiv(steepness * (threshold - abs_sample), SCALE as int))
}

/// Crossfade of the dry sample against the wet candidate by `mix`.
pub open spec fn knee_blend(dry: int, wet: int, mix: int) -> int
    recommends
        0 <= mix <= SCALE,
{
    tdiv(dry * (SCALE - mix) + wet * mix, SCALE as int)
}

/// The complete transfer function of one sample, given the envelope value
/// that the update step just produced: knee-blend of dry against wet, then
/// the output gain.
pub open spec fn processed_sample(env: int, s: int, p: RawParameters) -> int
    recommends
        valid_params(p),
{
    let wet = wet_candidate(env, s, p.threshold as int, p.ratio as int);
    let mix = mix_of(p.steepness as int, p.threshold as int, abs(s) as int);
    tdiv(knee_blend(s, wet, mix) * p.gain, SCALE as int)
}

impl Algo {
    /// The engine's invariant: a non-negative, bounded envelope and the fixed
    /// construction-time sample rate.
    pub open spec fn wf(self) -> bool {
        &&& 0 <= self@.envelope <= MAX_LEVEL
        &&& self@.sample_rate == DEFAULT_SAMPLE_RATE
    }

    /// A fresh engine: silent envelope at the default sample rate.
    pub fn new() -> (a: Algo)
        ensures
            a.wf(),
            a@.envelope == 0,
            a@.sample_rate == DEFAULT_SAMPLE_RATE,
    {
        Algo { envelope: 0, sample_rate: DEFAULT_SAMPLE_RATE }
    }

    /// Reinitializes the engine: envelope zeroed, sample rate restored to the
    /// default.  Calling it again changes nothing, whatever state the engine
    /// was in.
    pub fn reset(&mut self)
        ensures
            final(self).wf(),
            final(self)@.envelope == 0,
            final(self)@.sample_rate == DEFAULT_SAMPLE_RATE,
    {
        self.envelope = 0;
        self.sample_rate = DEFAULT_SAMPLE_RATE;
    }

    /// Read-only view of the tracked envelope, for visualization.
    pub fn get_envelope(&self) -> (e: i64)
        ensures
            e == self@.envelope,
    {
        self.envelope
    }

    /// One slew-limited envelope update toward the instantaneous magnitude.
    fn update_envelope(&mut self, abs_sample: i64, attack: i64, release: i64)
        requires
            old(self).wf(),
            0 <= abs_sample <= MAX_LEVEL,
            attack >= 1,
            release >= 1,
        ensures
            final(self).wf(),
            final(self)@.sample_rate == old(self)@.sample_rate,
            final(self)@.envelope == env_step(
                old(self)@.envelope,
                abs_sample as int,
                slew_slope(DEFAULT_SAMPLE_RATE as int, attack as int),
                slew_slope(DEFAULT_SAMPLE_RATE as int, release as int),
            ),
    {
        let attack_slope = slope(self.sample_rate, attack);
        let release_slope = slope(self.sample_rate, release);
        if abs_sample > self.envelope {
            let risen = self.envelope + attack_slope;
            self.envelope = if risen < abs_sample {
                risen
            } else {
                abs_sample
            };
        } else if abs_sample < self.envelope {
            let fallen = self.envelope - release_slope;
            self.envelope = if fallen > abs_sample {
                fallen
            } else {
                abs_sample
            };
        }
    }
}

/// Slew rate for one time constant at the engine's sample rate.
fn slope(sample_rate: i64, time: i64) -> (s: i64)
    requires
        sample_rate == DEFAULT_SAMPLE_RATE,
        time >= 1,
    ensures
        s == slew_slope(sample_rate as int, time as int),
        0 <= s <= SCALE as int * SCALE / (DEFAULT_SAMPLE_RATE as int),
{
    proof {
        assert((sample_rate as int) * (time as int) <= (DEFAULT_SAMPLE_RATE as int)
            * 0x8000_0000_0000_0000) by (nonlinear_arith)
            requires
                sample_rate as int == DEFAULT_SAMPLE_RATE as int,
                1 <= time as int <= 0x8000_0000_0000_0000,
        ;
    }
    let den: u128 = (sample_rate as u128) * (time as u128);
    proof {
        assert(DEFAULT_SAMPLE_RATE as int <= den as int) by (nonlinear_arith)
            requires
                den as int == (sample_rate as int) * (time as int),
                sample_rate as int == DEFAULT_SAMPLE_RATE as int,
                time as int >= 1,
        ;
    }
    let q: u128 = ((SCALE as u128) * (SCALE as u128)) / den;
    proof {
        lemma_div_is_ordered_by_denominator(
            SCALE as int * SCALE,
            DEFAULT_SAMPLE_RATE as int,
            den as int,
        );
        lemma_div_pos_is_pos(SCALE as int * SCALE, den as int);
    }
    q as i64
}

/// The gain-reduction factor, computed exactly as [`ratio_factor`] states it.
fn compute_ratio_factor(envelope: i64, threshold: i64, ratio: i64) -> (rf: i64)
    requires
        0 < threshold < SCALE,
        threshold <= envelope <= MAX_LEVEL,
        ratio >= SCALE,
    ensures
        rf == ratio_factor(envelope as int, threshold as int, ratio as int),
        0 <= rf <= SCALE,
{
    let scaler: u128 = ((SCALE as u128) * (SCALE as u128)) / ((SCALE - threshold) as u128);
    proof {
        lemma_div_is_ordered_by_denominator(SCALE as int * SCALE, 1, (SCALE - threshold) as int);
        lemma_div_pos_is_pos(SCALE as int * SCALE, (SCALE - threshold) as int);
        assert((envelope - threshold) as int * (scaler as int) <= (MAX_LEVEL as int) * (
        SCALE as int * SCALE)) by (nonlinear_arith)
            requires
                0 <= (envelope - threshold) as int <= MAX_LEVEL as int,
                0 <= scaler as int <= SCALE as int * SCALE,
        ;
    }
    let scaled: u128 = (((envelope - threshold) as u128) * scaler) / (SCALE as u128);
    proof {
        let wide = ((envelope - threshold) as u128 * scaler) as int;
        lemma_div_pos_is_pos(wide, SCALE as int);
        lemma_div_is_ordered(wide, (MAX_LEVEL as int) * (SCALE as int * SCALE), SCALE as int);
        assert((MAX_LEVEL as int) * (SCALE as int * SCALE) / (SCALE as int) == (MAX_LEVEL as int)
            * (SCALE as int)) by {
            assert((MAX_LEVEL as int) * (SCALE as int * SCALE) == (SCALE as int) * ((
            MAX_LEVEL as int) * (SCALE as int))) by (nonlinear_arith);
            lemma_div_multiples_vanish((MAX_LEVEL as int) * (SCALE as int), SCALE as int);
        }
        assert(scaled as int * ((ratio - SCALE) as int) <= ((MAX_LEVEL as int) * (SCALE as int))
            * (0x8000_0000_0000_0000 as int)) by (nonlinear_arith)
            requires
                0 <= scaled as int <= (MAX_LEVEL as int) * (SCALE as int),
                0 <= (ratio - SCALE) as int <= 0x8000_0000_0000_0000 as int,
        ;
    }
    let weight: u128 = (scaled * ((ratio - SCALE) as u128)) / (SCALE as u128);
    let rf128: u128 = ((SCALE as u128) * (SCALE as u128)) / (weight + (SCALE as u128));
    proof {
        lemma_div_pos_is_pos((scaled * ((ratio - SCALE) as u128)) as int, SCALE as int);
        lemma_div_is_ordered_by_denominator(
            SCALE as int * SCALE,
            SCALE as int,
            (weight + (SCALE as u128)) as int,
        );
        lemma_div_pos_is_pos(SCALE as int * SCALE, (weight + (SCALE as u128)) as int);
        assert(SCALE as int * SCALE / (SCALE as int) == SCALE) by {
            lemma_div_multiples_vanish(SCALE as int, SCALE as int);
        }
    }
    rf128 as i64
}

/// The knee crossfade, computed exactly as [`mix_of`] states it.
fn compute_mix(steepness: i64, threshold: i64, abs_sample: i64) -> (mix: i64)
    requires
        1 <= steepness,
        0 < threshold < SCALE,
        0 <= abs_sample <= MAX_LEVEL,
    ensures
        mix == mix_of(steepness as int, threshold as int, abs_sample as int),
        0 <= mix <= SCALE,
{
    let ghost arg: int = tdiv(steepness as int * (threshold - abs_sample), SCALE as int);
    let dist: i64 = threshold - abs_sample;
    let dmag: u128 = if dist >= 0 {
        dist as u128
    } else {
        (-dist) as u128
    };
    proof {
        assert(dmag == abs(dist as int));
        assert((steepness as int) * (dmag as int) <= 0x8000_0000_0000_0000 * (MAX_LEVEL as int))
            by (nonlinear_arith)
            requires
                1 <= steepness as int <= 0x8000_0000_0000_0000,
                0 <= dmag as int <= MAX_LEVEL as int,
        ;
    }
    let amag: u128 = ((steepness as u128) * dmag) / (SCALE as u128);
    proof {
        lemma_div_pos_is_pos((steepness as u128 * dmag) as int, SCALE as int);
        if dist >= 0 {
            assert(steepness as int * (dist as int) == steepness as int * (dmag as int));
            assert(arg == amag);
        } else {
            assert(steepness as int * (dist as int) == -(steepness as int * (dmag as int)))
                by (nonlinear_arith)
                requires
                    dmag as int == -(dist as int),
            ;
            assert(steepness as int * (dist as int) < 0) by (nonlinear_arith)
                requires
                    steepness as int >= 1,
                    (dist as int) < 0,
            ;
            assert(arg == -(amag as int));
        }
    }
    if dist >= 0 && amag >= (KNEE_WIDTH as u128) {
        proof {
            assert(knee_mix(arg) == 0);
        }
        0
    } else if dist < 0 && amag >= (KNEE_WIDTH as u128) {
        SCALE
    } else {
        let u: u128 = if dist >= 0 {
            (KNEE_WIDTH as u128) - amag
        } else {
            (KNEE_WIDTH as u128) + amag
        };
        proof {
            assert(u as int == KNEE_WIDTH - arg);
            assert(0 < (u as int) < 2 * KNEE_WIDTH);
            assert((SCALE as int) * (u as int) * (u as int) * (3 * KNEE_WIDTH - u as int) <= (
            SCALE as int) * (4 * (KNEE_WIDTH as int) * KNEE_WIDTH * KNEE_WIDTH))
                by (nonlinear_arith)
                requires
                    0 < (u as int) < 2 * (KNEE_WIDTH as int),
                    KNEE_WIDTH == 6_000_000,
                    SCALE == 1_000_000,
            ;
        }
        proof {
            assert((SCALE as int) * (u as int) < 13_000_000_000_000 && (SCALE as int) * (
            u as int) * (u as int) < 150_000_000_000_000_000_000 && (SCALE as int) * (u as int) * (
            u as int) * (3 * (KNEE_WIDTH as int) - u as int) < 2_700_000_000_000_000_000_000_000_000)
                by (nonlinear_arith)
                requires
                    0 < (u as int) < 12_000_000,
                    SCALE == 1_000_000,
                    KNEE_WIDTH == 6_000_000,
            ;
        }
        let num: u128 = (SCALE as u128) * u * u * (3 * (KNEE_WIDTH as u128) - u);
        let den: u128 = 4 * (KNEE_WIDTH as u128) * (KNEE_WIDTH as u128) * (KNEE_WIDTH as u128);
        let m: u128 = num / den;
        proof {
            lemma_div_pos_is_pos(num as int, den as int);
            lemma_div_is_ordered(num as int, (SCALE as int) * (den as int), den as int);
            assert((SCALE as int) * (den as int) == (den as int) * (SCALE as int))
                by (nonlinear_arith);
            lemma_div_multiples_vanish(SCALE as int, den as int);
        }
        m as i64
    }
}

impl Algo {
    /// The numeric work of one sample: envelope update, wet candidate, knee
    /// crossfade and output gain.  Returns the crossfade that was applied and
    /// leaves the processed sample behind the reference.
    fn advance(&mut self, sample: &mut i64, p: &RawParameters) -> (mix: i64)
        requires
            old(self).wf(),
            valid_params(*p),
            -MAX_LEVEL <= *old(sample) <= MAX_LEVEL,
        ensures
            final(self).wf(),
            final(self)@.sample_rate == old(self)@.sample_rate,
            final(self)@.envelope == env_step(
                old(self)@.envelope,
                abs(*old(sample) as int) as int,
                slew_slope(DEFAULT_SAMPLE_RATE as int, p.attack as int),
                slew_slope(DEFAULT_SAMPLE_RATE as int, p.release as int),
            ),
            mix == mix_of(p.steepness as int, p.threshold as int, abs(*old(sample) as int) as int),
            0 <= mix <= SCALE,
            *final(sample) == processed_sample(final(self)@.envelope, *old(sample) as int, *p),
            -2 * (MAX_LEVEL as int) * MAX_LEVEL / (SCALE as int) <= *final(sample) <= 2 * (
            MAX_LEVEL as int) * MAX_LEVEL / (SCALE as int),
    {
        let dry: i64 = *sample;
        let abs_sample: i64 = if dry >= 0 {
            dry
        } else {
            -dry
        };
        self.update_envelope(abs_sample, p.attack, p.release);
        let ghost env: int = self@.envelope;
        let wet: i64 = if self.envelope > p.threshold && dry > p.threshold {
            let rf = compute_ratio_factor(self.envelope, p.threshold, p.ratio);
            proof {
                assert(0 <= (dry - p.threshold) as int * (rf as int) <= ((dry - p.threshold) as int)
                    * (SCALE as int)) by (nonlinear_arith)
                    requires
                        0 <= (dry - p.threshold) as int,
                        0 <= rf as int <= SCALE as int,
                ;
                lemma_tdiv_bound(
                    (dry - p.threshold) as int * (rf as int),
                    SCALE as int,
                    (dry - p.threshold) as int,
                );
            }
            p.threshold + scale_mul(dry - p.threshold, rf)
        } else if self.envelope > p.threshold && dry < -p.threshold {
            let rf = compute_ratio_factor(self.envelope, p.threshold, p.ratio);
            proof {
                assert(0 <= (abs_sample - p.threshold) as int * (rf as int) <= ((abs_sample
                    - p.threshold) as int) * (SCALE as int)) by (nonlinear_arith)
                    requires
                        0 <= (abs_sample - p.threshold) as int,
                        0 <= rf as int <= SCALE as int,
                ;
                lemma_tdiv_bound(
                    (abs_sample - p.threshold) as int * (rf as int),
                    SCALE as int,
                    (abs_sample - p.threshold) as int,
                );
            }
            -(p.threshold + scale_mul(abs_sample - p.threshold, rf))
        } else {
            dry
        };
        proof {
            assert(wet == wet_candidate(env, dry as int, p.threshold as int, p.ratio as int));
            assert(-MAX_LEVEL <= wet <= MAX_LEVEL);
        }
        let mix: i64 = compute_mix(p.steepness, p.threshold, abs_sample);
        proof {
            assert((dry as int) * ((SCALE - mix) as int) <= (MAX_LEVEL as int) * (SCALE as int)
                && (dry as int) * ((SCALE - mix) as int) >= -(MAX_LEVEL as int) * (SCALE as int)
                && (wet as int) * (mix as int) <= (MAX_LEVEL as int) * (SCALE as int)
                && (wet as int) * (mix as int) >= -(MAX_LEVEL as int) * (SCALE as int))
                by (nonlinear_arith)
                requires
                    -MAX_LEVEL <= dry as int <= MAX_LEVEL,
                    -MAX_LEVEL <= wet as int <= MAX_LEVEL,
                    0 <= mix as int <= SCALE as int,
                    MAX_LEVEL > 0,
                    SCALE > 0,
            ;
        }
        let num: i128 = (dry as i128) * ((SCALE - mix) as i128) + (wet as i128) * (mix as i128);
        proof {
            lemma_tdiv_bound(num as int, SCALE as int, 2 * (MAX_LEVEL as int));
        }
        let blended: i64 = crate::fixed::scale_down(num);
        proof {
            assert(blended == knee_blend(dry as int, wet as int, mix as int));
            assert(-(0x7fff_ffff_ffff_ffff) * (SCALE as int) <= (blended as int) * (p.gain as int)
                <= 0x7fff_ffff_ffff_ffff * (SCALE as int)) by (nonlinear_arith)
                requires
                    -2 * (MAX_LEVEL as int) <= blended as int <= 2 * (MAX_LEVEL as int),
                    -MAX_LEVEL <= p.gain as int <= MAX_LEVEL,
                    MAX_LEVEL == 1_000_000_000,
                    SCALE == 1_000_000,
            ;
        }
        let out: i64 = scale_mul(blended, p.gain);
        proof {
            assert(2 * (MAX_LEVEL as int) * ((MAX_LEVEL as int)) >= abs((blended as int) * (
            p.gain as int))) by (nonlinear_arith)
                requires
                    -2 * (MAX_LEVEL as int) <= blended as int <= 2 * (MAX_LEVEL as int),
                    -MAX_LEVEL <= p.gain as int <= MAX_LEVEL,
                    MAX_LEVEL > 0,
            ;
            assert(2 * (MAX_LEVEL as int) * (MAX_LEVEL as int) == (2 * (MAX_LEVEL as int)
                * MAX_LEVEL / (SCALE as int)) * (SCALE as int)) by (nonlinear_arith)
                requires
                    MAX_LEVEL == 1_000_000_000,
                    SCALE == 1_000_000,
            ;
            lemma_tdiv_bound(
                (blended as int) * (p.gain as int),
                SCALE as int,
                2 * (MAX_LEVEL as int) * MAX_LEVEL / (SCALE as int),
            );
            assert(out == processed_sample(env, dry as int, *p));
        }
        *sample = out;
        mix
    }
}

/// Outcome of a burst of logger writes: the state reached and the message of
/// the first write that reported an error, if any.  Once an error appears the
/// burst stops, so later writes leave the outcome unchanged.
pub struct WriteOutcome {
    /// Logger state after the writes that happened.
    pub log: LogModel,
    /// Message of the first failing write, if one failed.
    pub err: Option<Seq<char>>,
}

/// A burst that has not written anything yet.
pub open spec fn log_start(m: LogModel) -> WriteOutcome {
    WriteOutcome { log: m, err: None }
}

/// One more write in a burst: a no-op after an earlier error, otherwise the
/// recorded state together with that write's own report.
pub open spec fn log_chain(o: WriteOutcome, k: Seq<char>, v: int) -> WriteOutcome {
    if o.err is Some {
        o
    } else {
        let next = write_state(o.log, k, v);
        WriteOutcome { log: next, err: check_result(next) }
    }
}

/// The values logged before a sample is processed: the sample, its magnitude,
/// the envelope still untouched by this sample, and the threshold pair.
pub open spec fn pre_log(m: LogModel, s: int, env: int, threshold: int) -> WriteOutcome {
    log_chain(
        log_chain(
            log_chain(
                log_chain(log_chain(log_start(m), "sample"@, s), "sample.abs()"@, abs(s) as int),
                "envelope"@,
                env,
            ),
            "threshold"@,
            threshold,
        ),
        "-threshold"@,
        -threshold,
    )
}

/// The values logged after a sample is processed: the crossfade that was
/// applied and the outgoing sample.
pub open spec fn post_log(m: LogModel, mix: int, out: int) -> WriteOutcome {
    log_chain(log_chain(log_start(m), "mix"@, mix), "after"@, out)
}

impl Algo {
    /// Processes one sample in place: the envelope follows the sample's
    /// magnitude, the knee mixer shapes the output, and an optional
    /// diagnostic logger receives the named per-sample values.  A logger
    /// error is passed through: before processing it leaves sample and
    /// engine untouched, after processing both already carry their new
    /// values.
    pub fn process_samples(
        &mut self,
        sample: &mut i64,
        p: RawParameters,
        logger: Option<&mut SampleLogger>,
    ) -> (r: Result<(), &'static str>)
        requires
            old(self).wf(),
            valid_params(p),
            -MAX_LEVEL <= *old(sample) <= MAX_LEVEL,
            match logger {
                Some(l) => l.wf() && l@.samples_seen + 7 < u64::MAX,
                None => true,
            },
        ensures
            match logger {
                None => {
                    &&& final(self).wf()
                    &&& final(self)@.sample_rate == old(self)@.sample_rate
                    &&& final(self)@.envelope == env_step(
                        old(self)@.envelope,
                        abs(*old(sample) as int) as int,
                        slew_slope(DEFAULT_SAMPLE_RATE as int, p.attack as int),
                        slew_slope(DEFAULT_SAMPLE_RATE as int, p.release as int),
                    )
                    &&& *final(sample) == processed_sample(
                        final(self)@.envelope,
                        *old(sample) as int,
                        p,
                    )
                    &&& r is Ok
                },
                Some(l) => {
                    let pre = pre_log(l@, *old(sample) as int, old(self)@.envelope, p.threshold as int);
                    &&& final(l).wf()
                    &&& if pre.err is Some {
                        &&& final(self)@ == old(self)@
                        &&& final(self).wf()
                        &&& *final(sample) == *old(sample)
                        &&& final(l)@ == pre.log
                        &&& r matches Err(e) && Some(e@) == pre.err
                    } else {
                        let newenv = env_step(
                            old(self)@.envelope,
                            abs(*old(sample) as int) as int,
                            slew_slope(DEFAULT_SAMPLE_RATE as int, p.attack as int),
                            slew_slope(DEFAULT_SAMPLE_RATE as int, p.release as int),
                        );
                        let out = processed_sample(newenv, *old(sample) as int, p);
                        let mix = mix_of(
                            p.steepness as int,
                            p.threshold as int,
                            abs(*old(sample) as int) as int,
                        );
                        let post = post_log(pre.log, mix, out);
                        &&& final(self).wf()
                        &&& final(self)@.sample_rate == old(self)@.sample_rate
                        &&& final(self)@.envelope == newenv
                        &&& *final(sample) == out
                        &&& final(l)@ == post.log
                        &&& match r {
                            Ok(_) => post.err is None,
                            Err(e) => post.err == Some(e@),
                        }
                    }
                },
            },
    {
        proof {
            reveal_strlit("sample");
            reveal_strlit("sample.abs()");
            reveal_strlit("envelope");
            reveal_strlit("threshold");
            reveal_strlit("-threshold");
            reveal_strlit("mix");
            reveal_strlit("after");
        }
        match logger {
            None => {
                self.advance(sample, &p);
                Ok(())
            },
            Some(l) => {
                let ghost m0: LogModel = l@;
                let ghost s0: int = *sample as int;
                let ghost env0: int = self@.envelope;
                let abs_sample: i64 = if *sample >= 0 {
                    *sample
                } else {
                    -*sample
                };
                match l.write("sample", *sample) {
                    Ok(_) => {},
                    Err(e) => {
                        return Err(e);
                    },
                }
                match l.write("sample.abs()", abs_sample) {
                    Ok(_) => {},
                    Err(e) => {
                        return Err(e);
                    },
                }
                match l.write("envelope", self.envelope) {
                    Ok(_) => {},
                    Err(e) => {
                        return Err(e);
                    },
                }
                match l.write("threshold", p.threshold) {
                    Ok(_) => {},
                    Err(e) => {
                        return Err(e);
                    },
                }
                match l.write("-threshold", -p.threshold) {
                    Ok(_) => {},
                    Err(e) => {
                        return Err(e);
                    },
                }
                proof {
                    assert(l@ == pre_log(m0, s0, env0, p.threshold as int).log);
                }
                let mix = self.advance(sample, &p);
                match l.write("mix", mix) {
                    Ok(_) => {},
                    Err(e) => {
                        return Err(e);
                    },
                }
                match l.write("after", *sample) {
                    Ok(_) => {},
                    Err(e) => {
                        return Err(e);
                    },
                }
                Ok(())
            },
        }
    }
}

/// Law: a compression ratio of exactly 1 gives a ratio factor of exactly 1
/// for every envelope value at or above the threshold: the wet candidate is
/// never reduced.
pub proof fn lemma_unit_ratio_factor(env: int, threshold: int)
    requires
        0 < threshold < SCALE,
        threshold <= env,
    ensures
        ratio_factor(env, threshold, SCALE as int) == SCALE,
{
    let scaled = (env - threshold) * envelope_scaler(threshold) / (SCALE as int);
    assert(scaled * 0 == 0) by (nonlinear_arith);
    lemma_div_multiples_vanish(SCALE as int, SCALE as int);
    vstd::arithmetic::div_mod::lemma_div_of0(SCALE as int);
}

/// Law: at ratio 1 the whole transfer function is the identity followed by
/// the output gain, whatever the envelope, threshold and steepness are.
pub proof fn lemma_unit_ratio_passthrough(env: int, s: int, p: RawParameters)
    requires
        valid_params(p),
        p.ratio == SCALE,
    ensures
        processed_sample(env, s, p) == tdiv(s * p.gain, SCALE as int),
{
    let thr = p.threshold as int;
    if env > thr && s > thr {
        lemma_unit_ratio_factor(env, thr);
        lemma_tdiv_exact(s - thr, SCALE as int);
    } else if env > thr && s < -thr {
        lemma_unit_ratio_factor(env, thr);
        lemma_tdiv_exact(abs(s) - thr, SCALE as int);
    }
    let wet = wet_candidate(env, s, thr, p.ratio as int);
    assert(wet == s);
    let mix = mix_of(p.steepness as int, thr, abs(s) as int);
    assert(s * (SCALE - mix) + s * mix == s * (SCALE as int)) by (nonlinear_arith);
    lemma_tdiv_exact(s, SCALE as int);
}

/// Law: the transfer function is continuous at the threshold: for a sample
/// whose magnitude sits exactly on the threshold, the compressed formula and
/// the untouched sample coincide, so the two branches of the wet candidate
/// have equal limits from both sides of the boundary.
pub proof fn lemma_wet_continuous_at_threshold(env: int, threshold: int, ratio: int, s: int)
    requires
        0 < threshold < SCALE,
        ratio >= SCALE,
        abs(s) == threshold,
    ensures
        wet_candidate(env, s, threshold, ratio) == s,
        threshold + tdiv(
            (abs(s) - threshold) * ratio_factor(env, threshold, ratio),
            SCALE as int,
        ) == abs(s),
{
    assert(0 * ratio_factor(env, threshold, ratio) == 0) by (nonlinear_arith);
    vstd::arithmetic::div_mod::lemma_div_of0(SCALE as int);
}

/// Law: at a sample whose magnitude sits exactly on the threshold the whole
/// transfer function collapses to the passthrough value times the gain: the
/// crossfade blends two equal candidates, so the output has equal limits
/// from both sides of the threshold, whatever the envelope and steepness.
pub proof fn lemma_output_continuous_at_threshold(env: int, s: int, p: RawParameters)
    requires
        valid_params(p),
        abs(s) == p.threshold,
    ensures
        processed_sample(env, s, p) == tdiv(s * p.gain, SCALE as int),
{
    lemma_wet_continuous_at_threshold(env, p.threshold as int, p.ratio as int, s);
    let mix = mix_of(p.steepness as int, p.threshold as int, abs(s) as int);
    assert(s * (SCALE - mix) + s * mix == s * (SCALE as int)) by (nonlinear_arith);
    lemma_tdiv_exact(s, SCALE as int);
}

/// Law: the envelope never overshoots: one update step always lands between
/// the previous envelope and the instantaneous magnitude, whatever the
/// slopes are.
pub proof fn lemma_envelope_non_overshoot(
    env: int,
    level: int,
    attack_slope: int,
    release_slope: int,
)
    requires
        attack_slope >= 0,
        release_slope >= 0,
    ensures
        min(env, level) <= env_step(env, level, attack_slope, release_slope),
        env_step(env, level, attack_slope, release_slope) <= max(env, level),
{
}

/// The envelope after `n` consecutive update steps on a constant magnitude.
pub open spec fn env_after(
    env: int,
    level: int,
    attack_slope: int,
    release_slope: int,
    n: nat,
) -> int
    decreases n,
{
    if n == 0 {
        env
    } else {
        env_after(
            env_step(env, level, attack_slope, release_slope),
            level,
            attack_slope,
            release_slope,
            (n - 1) as nat,
        )
    }
}

/// Law: release settling.  On a constant input magnitude no louder than the
/// current envelope, the envelope reaches the magnitude exactly after any
/// `n` samples with `n * release_slope >= envelope - magnitude`, and stays
/// there.
pub proof fn lemma_envelope_settles(
    env: int,
    level: int,
    attack_slope: int,
    release_slope: int,
    n: nat,
)
    requires
        release_slope >= 1,
        0 <= level <= env,
        env - n * release_slope <= level,
    ensures
        env_after(env, level, attack_slope, release_slope, n) == level,
    decreases n,
{
    if n == 0 {
        assert(n * release_slope == 0) by (nonlinear_arith)
            requires
                n == 0,
        ;
        assert(env == level);
    } else {
        let e1 = env_step(env, level, attack_slope, release_slope);
        assert(n * release_slope - release_slope == (n - 1) * release_slope) by (nonlinear_arith);
        lemma_envelope_settles(e1, level, attack_slope, release_slope, (n - 1) as nat);
    }
}

/// Law: attack settling, the mirror image.  On a constant input magnitude at
/// or above the current envelope, the envelope reaches the magnitude exactly
/// after any `n` samples with `n * attack_slope >= magnitude - envelope`: a
/// step input is tracked in `(magnitude - envelope) / attack_slope` samples,
/// in a single sample when the slope alone overshoots and the clamp engages.
pub proof fn lemma_envelope_attacks(
    env: int,
    level: int,
    attack_slope: int,
    release_slope: int,
    n: nat,
)
    requires
        attack_slope >= 1,
        0 <= env <= level,
        level - n * attack_slope <= env,
    ensures
        env_after(env, level, attack_slope, release_slope, n) == level,
    decreases n,
{
    if n == 0 {
        assert(n * attack_slope == 0) by (nonlinear_arith)
            requires
                n == 0,
        ;
        assert(env == level);
    } else {
        let e1 = env_step(env, level, attack_slope, release_slope);
        assert(n * attack_slope - attack_slope == (n - 1) * attack_slope) by (nonlinear_arith);
        lemma_envelope_attacks(e1, level, attack_slope, release_slope, (n - 1) as nat);
    }
}

/// Law: identity on low signal.  Once the envelope sits at or below the
/// threshold and the sample is deep enough below the knee that the crossfade
/// saturates to fully dry, the output is exactly the input times the gain.
pub proof fn lemma_identity_below_threshold(env: int, s: int, p: RawParameters)
    requires
        valid_params(p),
        env <= p.threshold,
        p.steepness * (p.threshold - abs(s)) >= (KNEE_WIDTH as int) * SCALE,
    ensures
        processed_sample(env, s, p) == tdiv(s * p.gain, SCALE as int),
{
    let thr = p.threshold as int;
    let d = p.steepness as int * (thr - abs(s) as int);
    assert(d >= (KNEE_WIDTH as int) * (SCALE as int));
    lemma_div_is_ordered((KNEE_WIDTH as int) * (SCALE as int), d, SCALE as int);
    assert((KNEE_WIDTH as int) * (SCALE as int) == (SCALE as int) * (KNEE_WIDTH as int))
        by (nonlinear_arith);
    lemma_div_multiples_vanish(KNEE_WIDTH as int, SCALE as int);
    assert(tdiv(d, SCALE as int) >= KNEE_WIDTH);
    let mix = mix_of(p.steepness as int, thr, abs(s) as int);
    assert(mix == 0);
    let wet = wet_candidate(env, s, thr, p.ratio as int);
    assert(wet == s);
    assert(s * (SCALE - 0) + s * 0 == s * (SCALE as int)) by (nonlinear_arith);
    lemma_tdiv_exact(s, SCALE as int);
}

} // verus!

//! Signal-processing core of a dynamic-range compressor.
//!
//! The engine attenuates signal peaks above a threshold while leaving signal
//! below the threshold unaffected, with a smooth transition region around the
//! threshold (a soft knee).  All levels, times and gains are exact fixed-point
//! values: the integer [`fixed::SCALE`] stands for 1.0, so the arithmetic is
//! reproducible sample-by-sample on every host and platform.
//!
//! [`Compressor`] drives one independent [`compressor::Algo`] per audio
//! channel over frame-major buffers; the per-channel engines never interact.

use vstd::prelude::*;

pub mod compressor;
pub mod fixed;
pub mod logging;

verus! {

use crate::compressor::{
    Algo, AlgoModel, RawParameters, DEFAULT_SAMPLE_RATE, MAX_LEVEL, valid_params, env_step,
    slew_slope, processed_sample,
};
use vstd::math::abs;

/// The state a fresh per-channel engine starts in.
pub open spec fn fresh_engine() -> AlgoModel {
    AlgoModel { envelope: 0, sample_rate: DEFAULT_SAMPLE_RATE as int }
}

/// The engine bank extended with fresh engines until it covers `n` channels;
/// engines that already exist keep their state.
pub open spec fn grown(engines: Seq<AlgoModel>, n: int) -> Seq<AlgoModel>
    decreases n - engines.len(),
{
    if engines.len() >= n {
        engines
    } else {
        grown(engines.push(fresh_engine()), n)
    }
}

/// One engine consuming one sample: the new engine state and the produced
/// output sample.
pub open spec fn sample_step(a: AlgoModel, s: i64, p: RawParameters) -> (AlgoModel, int) {
    let newenv = env_step(
        a.envelope,
        abs(s as int) as int,
        slew_slope(DEFAULT_SAMPLE_RATE as int, p.attack as int),
        slew_slope(DEFAULT_SAMPLE_RATE as int, p.release as int),
    );
    (AlgoModel { envelope: newenv, sample_rate: a.sample_rate }, processed_sample(newenv, s as int, p))
}

/// All engines after one frame: channel `c` consumes the frame's sample `c`,
/// engines beyond the frame's channel count are untouched.
pub open spec fn frame_engines(engines: Seq<AlgoModel>, frame: Seq<i64>, p: RawParameters) -> Seq<
    AlgoModel,
> {
    Seq::new(
        engines.len(),
        |c: int|
            if 0 <= c < frame.len() {
                sample_step(engines[c], frame[c], p).0
            } else {
                engines[c]
            },
    )
}

/// The frame-major contents of a buffer.
pub open spec fn frames_of(buffer: Seq<Vec<i64>>) -> Seq<Seq<i64>> {
    buffer.map_values(|v: Vec<i64>| v@)
}

/// The engine bank after the first `f` frames of a buffer: before each frame
/// the bank grows to the frame's channel count, then every channel advances
/// by one sample.
pub open spec fn engines_after(
    engines: Seq<AlgoModel>,
    frames: Seq<Seq<i64>>,
    params: Seq<RawParameters>,
    f: int,
) -> Seq<AlgoModel>
    decreases f,
{
    if f <= 0 {
        engines
    } else {
        let prev = engines_after(engines, frames, params, f - 1);
        frame_engines(grown(prev, frames[f - 1].len() as int), frames[f - 1], params[f - 1])
    }
}

/// The output sample of frame `f`, channel `c`: what channel `c`'s engine
/// produces once it has consumed everything up to and including that frame.
pub open spec fn buffer_output(
    engines: Seq<AlgoModel>,
    frames: Seq<Seq<i64>>,
    params: Seq<RawParameters>,
    f: int,
    c: int,
) -> int {
    let before = grown(engines_after(engines, frames, params, f), frames[f].len() as int);
    sample_step(before[c], frames[f][c], params[f]).1
}

/// A bank of per-channel engines, grown lazily as the channel count grows and
/// never shrunk.
pub struct Compressor {
    algos: Vec<Algo>,
}

impl View for Compressor {
    type V = Seq<AlgoModel>;

    closed spec fn view(&self) -> Seq<AlgoModel> {
        self.algos@.map_values(|a: Algo| a@)
    }
}

impl Default for Compressor {
    /// A compressor with no channel engines yet.
    fn default() -> (c: Compressor)
        ensures
            c.wf(),
            c@ == Seq::<AlgoModel>::empty(),
    {
        let c = Compressor { algos: Vec::new() };
        proof {
            assert(c@ =~= Seq::<AlgoModel>::empty());
        }
        c
    }
}

impl Compressor {
    /// Every engine in the bank is well formed.
    pub open spec fn wf(self) -> bool {
        forall|i: int|
            0 <= i < self@.len() ==> (0 <= (#[trigger] self@[i]).envelope <= MAX_LEVEL
                && self@[i].sample_rate == DEFAULT_SAMPLE_RATE)
    }

    /// Processes a frame-major buffer in place: one parameter set per frame,
    /// one engine per channel, each channel advancing independently by one
    /// sample per frame.  New engines are created the first time a frame
    /// needs their channel.
    #[verifier::loop_isolation(false)]
    pub fn process_buffer(
        &mut self,
        buffer: &mut Vec<Vec<i64>>,
        params: &Vec<RawParameters>,
    ) -> (r: Result<(), &'static str>)
        requires
            old(self).wf(),
            params@.len() == old(buffer)@.len(),
            forall|f: int| 0 <= f < params@.len() ==> valid_params(#[trigger] params@[f]),
            forall|f: int, c: int|
                0 <= f < old(buffer)@.len() && 0 <= c < old(buffer)@[f]@.len() ==> -MAX_LEVEL <= (
                #[trigger] old(buffer)@[f]@[c]) <= MAX_LEVEL,
        ensures
            final(self).wf(),
            r is Ok,
            final(self)@ == engines_after(
                old(self)@,
                frames_of(old(buffer)@),
                params@,
                params@.len() as int,
            ),
            final(buffer)@.len() == old(buffer)@.len(),
            forall|f: int|
                0 <= f < old(buffer)@.len() ==> (#[trigger] final(buffer)@[f])@.len() == old(
                buffer,
                )@[f]@.len(),
            forall|f: int, c: int|
                0 <= f < old(buffer)@.len() && 0 <= c < old(buffer)@[f]@.len() ==> (
                #[trigger] final(buffer)@[f]@[c]) as int == buffer_output(
                    old(self)@,
                    frames_of(old(buffer)@),
                    params@,
                    f,
                    c,
                ),
    {
        let ghost engines0: Seq<AlgoModel> = self@;
        let ghost frames: Seq<Seq<i64>> = frames_of(old(buffer)@);
        let mut f: usize = 0;
        while f < buffer.len()
            invariant
                f <= buffer@.len(),
                buffer@.len() == old(buffer)@.len(),
                self.wf(),
                self@ == engines_after(engines0, frames, params@, f as int),
                forall|g: int| f <= g < buffer@.len() ==> #[trigger] buffer@[g] == old(buffer)@[g],
                forall|g: int|
                    0 <= g < f ==> (#[trigger] buffer@[g])@.len() == old(buffer)@[g]@.len(),
                forall|g: int, c: int|
                    0 <= g < f && 0 <= c < old(buffer)@[g]@.len() ==> (#[trigger] buffer@[g]@[c])
                        as int == buffer_output(engines0, frames, params@, g, c),
            decreases buffer@.len() - f,
        {
            let ghost before_frame: Seq<AlgoModel> = self@;
            let channels = buffer[f].len();
            while self.algos.len() < channels
                invariant
                    self.wf(),
                    grown(self@, channels as int) == grown(before_frame, channels as int),
                decreases channels - self.algos.len(),
            {
                let ghost bank: Seq<AlgoModel> = self@;
                let fresh = Algo::new();
                proof {
                    assert(fresh@ =~= fresh_engine());
                }
                self.algos.push(fresh);
                proof {
                    assert(self@ =~= bank.push(fresh_engine()));
                }
            }
            proof {
                assert(self@ == grown(before_frame, channels as int));
            }
            let ghost grown_bank: Seq<AlgoModel> = self@;
            let p: RawParameters = params[f];
            let mut c: usize = 0;
            while c < channels
                invariant
                    c <= channels,
                    channels <= self.algos.len(),
                    self@.len() == grown_bank.len(),
                    self.wf(),
                    buffer@.len() == old(buffer)@.len(),
                    buffer@[f as int]@.len() == old(buffer)@[f as int]@.len(),
                    forall|d: int| c <= d < self@.len() ==> #[trigger] self@[d] == grown_bank[d],
                    forall|d: int|
                        0 <= d < c ==> #[trigger] self@[d] == sample_step(
                            grown_bank[d],
                            frames[f as int][d],
                            p,
                        ).0,
                    forall|g: int|
                        f < g < buffer@.len() ==> #[trigger] buffer@[g] == old(buffer)@[g],
                    forall|g: int|
                        0 <= g < f ==> (#[trigger] buffer@[g])@.len() == old(buffer)@[g]@.len(),
                    forall|g: int, d: int|
                        0 <= g < f && 0 <= d < old(buffer)@[g]@.len() ==> (
                        #[trigger] buffer@[g]@[d]) as int == buffer_output(
                            engines0,
                            frames,
                            params@,
                            g,
                            d,
                        ),
                    forall|d: int|
                        c <= d < buffer@[f as int]@.len() ==> #[trigger] buffer@[f as int]@[d]
                            == old(buffer)@[f as int]@[d],
                    forall|d: int|
                        0 <= d < c ==> (#[trigger] buffer@[f as int]@[d]) as int == sample_step(
                            grown_bank[d],
                            frames[f as int][d],
                            p,
                        ).1,
                decreases channels - c,
            {
                let ghost bank_before: Seq<AlgoModel> = self@;
                let mut s: i64 = buffer[f][c];
                let engine = &mut self.algos[c];
                proof {
                    assert((*engine)@ == bank_before[c as int]);
                    assert((*engine).wf());
                }
                let outcome = engine.process_samples(&mut s, p, None);
                match outcome {
                    Ok(_) => {},
                    Err(e) => {
                        proof {
                            assert(false);
                        }
                        return Err(e);
                    },
                }
                proof {
                    let stepped = sample_step(grown_bank[c as int], frames[f as int][c as int], p);
                    assert(self@[c as int] =~= stepped.0);
                    assert(self@ =~= bank_before.update(c as int, stepped.0));
                    assert(s as int == stepped.1);
                }
                buffer[f][c] = s;
                c += 1;
            }
            proof {
                assert(self@ =~= frame_engines(grown_bank, frames[f as int], p));
                assert(frames[f as int].len() == channels);
            }
            f += 1;
        }
        Ok(())
    }

    /// How many channel engines exist so far.
    pub fn channel_count(&self) -> (n: usize)
        ensures
            n == self@.len(),
    {
        self.algos.len()
    }

    /// Read-only view of channel `c`'s tracked envelope.
    pub fn envelope_of(&self, c: usize) -> (e: i64)
        requires
            c < self@.len(),
        ensures
            e == self@[c as int].envelope,
    {
        self.algos[c].get_envelope()
    }
}

} // verus!

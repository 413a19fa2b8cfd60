//! Tempo, timing and the mixing schedule.
//!
//! All durations are integer nanosecond counts, so the timing model is
//! exact. The caller resolves sample files to decodable audio sources and
//! applies the schedule computed here to its audio stack.

use vstd::prelude::*;

use crate::instrumentation::SampleFile;
use crate::pattern::{Amplitude, AMPLITUDE_SCALE};
use crate::steps::{Step, Steps};

verus! {

/// Nanoseconds in the 15 seconds that one step lasts at one beat per
/// minute: a beat is divided into four steps (16th notes in 4/4 time), so
/// one step lasts 60/(4*bpm) = 15/bpm seconds.
pub const STEP_NANOS_PER_MINUTE_BEAT: u64 = 15_000_000_000;

/// Represents the playback tempo (beats per minute), between 1 and 65535.
#[derive(Clone, Copy, Debug, PartialEq, Eq, Hash, Structural)]
pub struct Tempo {
    bpm: u16,
}

impl Tempo {
    /// The beats-per-minute value.
    pub closed spec fn spec_bpm(self) -> u16 {
        self.bpm
    }

    /// A valid tempo is at least one beat per minute.
    pub open spec fn wf(self) -> bool {
        self.spec_bpm() >= 1
    }

    /// Accepts a beats-per-minute value; zero is not a valid tempo.
    pub fn new(bpm: u16) -> (r: Option<Tempo>)
        ensures
            match r {
                Some(t) => bpm >= 1 && t.spec_bpm() == bpm && t.wf(),
                None => bpm == 0,
            },
    {
        if bpm >= 1 {
            Some(Tempo { bpm })
        } else {
            None
        }
    }

    /// The beats-per-minute value.
    pub fn bpm(&self) -> (r: u16)
        ensures
            r == self.spec_bpm(),
    {
        self.bpm
    }

    /// The duration of `beats` steps in nanoseconds: beats * 15/bpm
    /// seconds, truncated to whole nanoseconds.
    pub open spec fn spec_step_duration(self, beats: int) -> int {
        beats * STEP_NANOS_PER_MINUTE_BEAT / self.spec_bpm() as int
    }

    /// Computes the duration of the given number of steps, in nanoseconds.
    pub fn step_duration(&self, beats: usize) -> (r: u128)
        requires
            self.wf(),
        ensures
            r as int == self.spec_step_duration(beats as int),
    {
        proof {
            assert((beats as u128) * (STEP_NANOS_PER_MINUTE_BEAT as u128) <= 0xFFFF_FFFF_FFFF_FFFF
                * (STEP_NANOS_PER_MINUTE_BEAT as u128)) by (nonlinear_arith)
                requires
                    beats as u128 <= 0xFFFF_FFFF_FFFF_FFFF,
            ;
        }
        (beats as u128) * (STEP_NANOS_PER_MINUTE_BEAT as u128) / (self.bpm as u128)
    }

    /// The numerator, over 120, of the factor applied to one step's
    /// duration when padding a repeated mix: the factor is (240 - bpm)/120,
    /// so it is exactly 1 at 120 beats per minute and tapers linearly to 0
    /// at 240.
    pub fn delay_factor(&self) -> (r: i32)
        ensures
            r as int == 240 - self.spec_bpm() as int,
    {
        240i32 - (self.bpm as i32)
    }

    /// Computes the silence, in nanoseconds, to put before a mix played on
    /// repeat: one step's duration times the delay factor (240 - bpm)/120.
    /// This is necessary so that playback of the next iteration begins at
    /// the end of the current iteration's measure instead of right after
    /// its final non-silent step. The factor reaches zero at 240 beats per
    /// minute; beyond that no meaningful padding exists.
    pub fn delay_pad_duration(&self) -> (r: u128)
        requires
            self.wf(),
            self.spec_bpm() <= 240,
        ensures
            r as int == self.spec_step_duration(1) * (240 - self.spec_bpm() as int) / 120,
    {
        let one_step: u128 = self.step_duration(1);
        proof {
            assert(one_step <= STEP_NANOS_PER_MINUTE_BEAT) by (nonlinear_arith)
                requires
                    self.spec_bpm() >= 1,
                    one_step as int == (STEP_NANOS_PER_MINUTE_BEAT as int) / self.spec_bpm() as int,
            ;
            assert(one_step * ((240 - self.spec_bpm()) as u128) <= (STEP_NANOS_PER_MINUTE_BEAT
                as u128) * 240) by (nonlinear_arith)
                requires
                    one_step <= STEP_NANOS_PER_MINUTE_BEAT as u128,
                    0 <= (240 - self.spec_bpm()) as u128 <= 240,
            ;
        }
        one_step * ((240 - self.bpm) as u128) / 120
    }
}

/// The view of one bound-track entry: the sample file's name and the
/// track's steps and amplitude.
pub open spec fn tracks_entries_view(v: Seq<(SampleFile, (Steps, Amplitude))>) -> Seq<
    (Seq<u8>, (Seq<Step>, int)),
> {
    v.map_values(|e: (SampleFile, (Steps, Amplitude))| (e.0@, (e.1.0@, e.1.1@)))
}

/// The fully bound and reduced tracks of a pattern: for each sample file,
/// the combined step sequence and amplitude of the instruments that share
/// it, in the instrumentation's order.
pub struct Tracks(Vec<(SampleFile, (Steps, Amplitude))>);

impl View for Tracks {
    type V = Seq<(Seq<u8>, (Seq<Step>, int))>;

    closed spec fn view(&self) -> Seq<(Seq<u8>, (Seq<Step>, int))> {
        tracks_entries_view(self.0@)
    }
}

impl Tracks {
    /// Wraps bound track entries built elsewhere.
    pub fn from(entries: Vec<(SampleFile, (Steps, Amplitude))>) -> (r: Tracks)
        ensures
            r@ == tracks_entries_view(entries@),
    {
        Tracks(entries)
    }

    /// Read access to the bound tracks, in order.
    pub fn entries(&self) -> (r: &Vec<(SampleFile, (Steps, Amplitude))>)
        ensures
            tracks_entries_view(r@) == self@,
    {
        &self.0
    }

    /// Creates the sources the mixing engine consumes: entry `k` keeps the
    /// steps and amplitude of track `k`. The caller resolves each track's
    /// sample file (see `entries`) to a decodable audio source in the same
    /// order.
    pub fn sources(&self) -> (r: Sources)
        ensures
            r@.len() == self@.len(),
            forall|k: int| 0 <= k < self@.len() ==> r@[k] == self@[k].1,
    {
        let mut out: Vec<(Steps, Amplitude)> = Vec::new();
        let mut k: usize = 0;
        while k < self.0.len()
            invariant
                k <= self.0@.len(),
                out@.len() == k,
                forall|j: int|
                    0 <= j < k ==> #[trigger] sources_entries_view(out@)[j] == self@[j].1,
            decreases self.0@.len() - k,
        {
            let steps = self.0[k].1.0.clone();
            let amplitude = self.0[k].1.1;
            let ghost sv = steps@;
            let ghost av = amplitude@;
            let ghost pre = out@;
            out.push((steps, amplitude));
            proof {
                assert(out@ == pre.push((steps, amplitude)));
                assert(sources_entries_view(out@)[k as int] == (sv, av));
                assert(self@[k as int] == (
                    self.0@[k as int].0@,
                    (self.0@[k as int].1.0@, self.0@[k as int].1.1@),
                ));
                assert(forall|j: int|
                    0 <= j < k ==> #[trigger] sources_entries_view(out@)[j]
                        == sources_entries_view(pre)[j]);
            }
            k = k + 1;
        }
        Sources(out)
    }
}

/// The view of the mixing engine's input: each track's steps and amplitude.
pub open spec fn sources_entries_view(v: Seq<(Steps, Amplitude)>) -> Seq<(Seq<Step>, int)> {
    v.map_values(|e: (Steps, Amplitude)| (e.0@, e.1@))
}

/// The mixing engine's input: entry `k` holds the step sequence and
/// amplitude to apply to the caller's `k`th resolved sample source.
pub struct Sources(Vec<(Steps, Amplitude)>);

impl View for Sources {
    type V = Seq<(Seq<Step>, int)>;

    closed spec fn view(&self) -> Seq<(Seq<Step>, int)> {
        sources_entries_view(self.0@)
    }
}

/// One scheduled copy in a mix: the caller's source number `source`,
/// played after `delay_ns` nanoseconds, scaled by `amplitude`.
#[derive(Debug)]
pub struct ScheduledCopy {
    /// Which resolved sample source plays.
    pub source: usize,
    /// How long after the measure's start it plays, in nanoseconds.
    pub delay_ns: u128,
    /// The track amplitude it is scaled by.
    pub amplitude: Amplitude,
}

impl View for ScheduledCopy {
    type V = (int, int, int);

    open spec fn view(&self) -> (int, int, int) {
        (self.source as int, self.delay_ns as int, self.amplitude@)
    }
}

/// The copies one track contributes to a mix, in step order: every active
/// step at index `i` schedules the track's source after `i` single-step
/// durations, at the track's amplitude; inactive steps contribute nothing.
pub open spec fn spec_track_schedule(
    source: int,
    steps: Seq<Step>,
    amplitude: int,
    step_ns: int,
) -> Seq<(int, int, int)>
    decreases steps.len(),
{
    if steps.len() == 0 {
        Seq::empty()
    } else {
        spec_track_schedule(source, steps.drop_last(), amplitude, step_ns) + if steps.last()
            .spec_active() {
            seq![(source, (steps.len() - 1) * step_ns, amplitude)]
        } else {
            Seq::empty()
        }
    }
}

/// A full mix schedule: every track's contribution, in track order.
pub open spec fn spec_mix(tracks: Seq<(Seq<Step>, int)>, step_ns: int) -> Seq<(int, int, int)>
    decreases tracks.len(),
{
    if tracks.len() == 0 {
        Seq::empty()
    } else {
        spec_mix(tracks.drop_last(), step_ns) + spec_track_schedule(
            tracks.len() - 1,
            tracks.last().0,
            tracks.last().1,
            step_ns,
        )
    }
}

impl Sources {
    /// Mixes the sources into one schedule: for every track and every
    /// active step at index `i`, a copy of the track's source plays after
    /// `i` single-step durations, scaled by the track's amplitude. The
    /// caller feeds the schedule to its audio stack.
    pub fn mix(&self, tempo: &Tempo) -> (r: Vec<ScheduledCopy>)
        requires
            tempo.wf(),
        ensures
            r@.map_values(|c: ScheduledCopy| c@) == spec_mix(
                self@,
                tempo.spec_step_duration(1),
            ),
    {
        let step_ns: u128 = tempo.step_duration(1);
        proof {
            assert(step_ns <= STEP_NANOS_PER_MINUTE_BEAT) by (nonlinear_arith)
                requires
                    tempo.spec_bpm() >= 1,
                    step_ns as int == (STEP_NANOS_PER_MINUTE_BEAT as int) / tempo.spec_bpm() as int,
            ;
        }
        let mut out: Vec<ScheduledCopy> = Vec::new();
        let mut k: usize = 0;
        while k < self.0.len()
            invariant
                k <= self.0@.len(),
                tempo.wf(),
                step_ns as int == tempo.spec_step_duration(1),
                step_ns <= STEP_NANOS_PER_MINUTE_BEAT,
                out@.map_values(|c: ScheduledCopy| c@) == spec_mix(
                    self@.take(k as int),
                    step_ns as int,
                ),
            decreases self.0@.len() - k,
        {
            let track = &self.0[k];
            let amplitude = track.1;
            let n = track.0.len();
            let mut i: usize = 0;
            while i < n
                invariant
                    i <= n,
                    n == track.0@.len(),
                    k < self.0@.len(),
                    track == &self.0@[k as int],
                    step_ns <= STEP_NANOS_PER_MINUTE_BEAT,
                    amplitude == track.1,
                    out@.map_values(|c: ScheduledCopy| c@) == spec_mix(
                        self@.take(k as int),
                        step_ns as int,
                    ) + spec_track_schedule(
                        k as int,
                        track.0@.take(i as int),
                        amplitude@,
                        step_ns as int,
                    ),
                decreases n - i,
            {
                proof {
                    let t1 = track.0@.take((i + 1) as int);
                    assert(t1.drop_last() =~= track.0@.take(i as int));
                    assert(t1.last() == track.0@[i as int]);
                    assert((i as u128) * step_ns <= (i as u128) * (STEP_NANOS_PER_MINUTE_BEAT
                        as u128)) by (nonlinear_arith)
                        requires
                            step_ns <= STEP_NANOS_PER_MINUTE_BEAT as u128,
                    ;
                    assert((i as u128) * (STEP_NANOS_PER_MINUTE_BEAT as u128)
                        <= 0xFFFF_FFFF_FFFF_FFFF * (STEP_NANOS_PER_MINUTE_BEAT as u128))
                        by (nonlinear_arith)
                        requires
                            i as u128 <= 0xFFFF_FFFF_FFFF_FFFF,
                    ;
                }
                let step = track.0.get(i);
                let ghost t1 = track.0@.take((i + 1) as int);
                let ghost sched_i = spec_track_schedule(
                    k as int,
                    track.0@.take(i as int),
                    amplitude@,
                    step_ns as int,
                );
                let ghost sched_i1 = spec_track_schedule(k as int, t1, amplitude@, step_ns as int);
                let ghost pre_map = out@.map_values(|c: ScheduledCopy| c@);
                if step.active() {
                    let copy = ScheduledCopy {
                        source: k,
                        delay_ns: (i as u128) * step_ns,
                        amplitude,
                    };
                    let ghost cv = copy@;
                    out.push(copy);
                    proof {
                        assert(cv == (k as int, (i as int) * (step_ns as int), amplitude@));
                        assert(sched_i1 == sched_i + seq![cv]);
                        assert(out@.map_values(|c: ScheduledCopy| c@) =~= pre_map.push(cv));
                        assert(pre_map.push(cv) =~= spec_mix(self@.take(k as int), step_ns as int)
                            + sched_i1);
                    }
                } else {
                    proof {
                        assert(sched_i1 == sched_i + Seq::<(int, int, int)>::empty());
                        assert(sched_i + Seq::<(int, int, int)>::empty() =~= sched_i);
                    }
                }
                i = i + 1;
            }
            proof {
                let t2 = self@.take((k + 1) as int);
                assert(t2.drop_last() =~= self@.take(k as int));
                assert(t2.last() == self@[k as int]);
                assert(track.0@.take(i as int) =~= track.0@);
                assert(self@[k as int] == (track.0@, track.1@));
            }
            k = k + 1;
        }
        proof {
            assert(self@.take(self.0@.len() as int) =~= self@);
        }
        out
    }
}

} // verus!

//! Bookkeeping for one utterance: the transcript seen so far, the audio kept, and how long
//! (in audio time) the transcript has stayed the same.

use vstd::prelude::*;
use vstd::utf8::encode_utf8;

use crate::dispatch::{match_commands, strings_view, walk};
use crate::modes::{opt_str_view, opt_view, ModeTree};
use crate::text::{trim_str, trimmed};

verus! {

/// How long the transcript must stay unchanged, in nanoseconds of audio, before an
/// utterance counts as finished.
pub const SILENCE_NANOS: u128 = 100_000_000;

/// The state of a tracker as plain values.
pub struct TrackerSpec {
    pub sample_rate: nat,
    pub total_samples: nat,
    pub text: Seq<char>,
    pub samples_since_change: nat,
    pub audio: Seq<i16>,
}

/// Tracks the transcript of one utterance as audio is fed to a speech decoder.
pub struct TranscriptTracker {
    sample_rate: u32,
    total_samples: usize,
    current_text: String,
    samples_since_change: usize,
    raw_data: Vec<i16>,
}

impl View for TranscriptTracker {
    type V = TrackerSpec;

    closed spec fn view(&self) -> TrackerSpec {
        TrackerSpec {
            sample_rate: self.sample_rate as nat,
            total_samples: self.total_samples as nat,
            text: self.current_text@,
            samples_since_change: self.samples_since_change as nat,
            audio: self.raw_data@,
        }
    }
}

/// The state after `data` was fed and the decoder answered `next`: a new transcript is
/// taken and restarts the silence count, and its audio is kept; an unchanged one adds to
/// the silence count, and its audio is kept only once some speech has been heard.
pub open spec fn observe_spec(s: TrackerSpec, data: Seq<i16>, next: Seq<char>) -> TrackerSpec {
    if next != s.text {
        TrackerSpec {
            sample_rate: s.sample_rate,
            total_samples: s.total_samples + data.len(),
            text: next,
            samples_since_change: 0,
            audio: s.audio + data,
        }
    } else {
        TrackerSpec {
            sample_rate: s.sample_rate,
            total_samples: s.total_samples + data.len(),
            text: s.text,
            samples_since_change: s.samples_since_change + data.len(),
            audio: if next.len() != 0 {
                s.audio + data
            } else {
                s.audio
            },
        }
    }
}

/// The audio time, in whole nanoseconds, that `samples` samples last at `rate` per second.
pub open spec fn nanos_of(samples: nat, rate: nat) -> nat
    recommends
        rate > 0,
{
    (1_000_000_000 * samples / rate) as nat
}

impl TranscriptTracker {
    /// A tracker for audio sampled `sample_rate` times a second, with nothing heard yet.
    pub fn new(sample_rate: u32) -> (r: Self)
        ensures
            r@ == (TrackerSpec {
                sample_rate: sample_rate as nat,
                total_samples: 0,
                text: Seq::empty(),
                samples_since_change: 0,
                audio: Seq::empty(),
            }),
    {
        let r = Self {
            sample_rate,
            total_samples: 0,
            current_text: String::new(),
            samples_since_change: 0,
            raw_data: Vec::new(),
        };
        assert(r@.audio =~= Seq::<i16>::empty());
        r
    }

    /// Records that `data` was fed to the decoder and that it now reads `next_text`.
    /// Returns whether the transcript changed.
    pub fn observe(&mut self, data: &[i16], next_text: String) -> (r: bool)
        requires
            old(self)@.total_samples + data@.len() <= usize::MAX,
            old(self)@.samples_since_change + data@.len() <= usize::MAX,
        ensures
            r == (next_text@ != old(self)@.text),
            final(self)@ == observe_spec(old(self)@, data@, next_text@),
    {
        self.total_samples = self.total_samples + data.len();
        if next_text != self.current_text {
            self.current_text = next_text;
            self.samples_since_change = 0;
            self.keep_audio(data);
            true
        } else {
            if !next_text.as_str().is_empty() {
                self.keep_audio(data);
            }
            self.samples_since_change = self.samples_since_change + data.len();
            false
        }
    }

    fn keep_audio(&mut self, data: &[i16])
        ensures
            final(self)@ == (TrackerSpec { audio: old(self)@.audio + data@, ..old(self)@ }),
    {
        let ghost start = self.raw_data@;
        let n = data.len();
        for i in 0..n
            invariant
                n == data@.len(),
                self.raw_data@ == start + data@.take(i as int),
                self.sample_rate == old(self).sample_rate,
                self.total_samples == old(self).total_samples,
                self.current_text == old(self).current_text,
                self.samples_since_change == old(self).samples_since_change,
        {
            self.raw_data.push(data[i]);
            assert(self.raw_data@ =~= start + data@.take(i + 1));
        }
        assert(data@.take(n as int) =~= data@);
    }

    /// The transcript of the audio fed so far.
    pub fn current_text(&self) -> (r: &str)
        ensures
            r@ == self@.text,
    {
        self.current_text.as_str()
    }

    /// The number of samples fed so far.
    pub fn num_samples(&self) -> (r: usize)
        ensures
            r == self@.total_samples,
    {
        self.total_samples
    }

    /// The number of samples fed since the transcript last changed.
    pub fn samples_since_change(&self) -> (r: usize)
        ensures
            r == self@.samples_since_change,
    {
        self.samples_since_change
    }

    /// The audio time, in nanoseconds, since the transcript last changed.
    pub fn nanos_since_change(&self) -> (r: u128)
        requires
            self@.sample_rate > 0,
        ensures
            r == nanos_of(self@.samples_since_change, self@.sample_rate),
    {
        let samples = self.samples_since_change as u128;
        assert(1_000_000_000 * samples <= 1_000_000_000 * 0x1_0000_0000_0000_0000) by (
        nonlinear_arith)
            requires
                samples < 0x1_0000_0000_0000_0000,
        ;
        (1_000_000_000u128 * samples) / (self.sample_rate as u128)
    }

    /// Whether the utterance is over: some speech was heard and the transcript has not
    /// changed for more than `SILENCE_NANOS` of audio.
    pub fn has_finished(&self) -> (r: bool)
        requires
            self@.sample_rate > 0,
        ensures
            r == (self@.text.len() > 0 && nanos_of(self@.samples_since_change, self@.sample_rate)
                > SILENCE_NANOS),
    {
        let has_started = !self.current_text.as_str().is_empty();
        has_started && self.nanos_since_change() > SILENCE_NANOS
    }

    /// Ends the utterance, handing back its transcript and the audio kept.
    pub fn finish(self) -> (r: (String, Vec<i16>))
        ensures
            r.0@ == self@.text,
            r.1@ == self@.audio,
    {
        (self.current_text, self.raw_data)
    }
}

/// Dispatches a finished utterance: its transcript, without surrounding whitespace, is
/// walked through `conf` from `current_mode`. Returns the terminal commands to run and the
/// mode to listen in next, as `match_commands` does.
pub fn dispatch_utterance(conf: &ModeTree, current_mode: Option<&str>, transcript: &str) -> (r:
    Option<(Vec<String>, Option<String>)>)
    ensures
        match r {
            Some((acts, next)) => walk(
                conf@,
                opt_str_view(current_mode),
                Seq::empty(),
                encode_utf8(trimmed(transcript@)),
                Seq::empty(),
            ) == Some((strings_view(acts@), opt_view(next))),
            None => walk(
                conf@,
                opt_str_view(current_mode),
                Seq::empty(),
                encode_utf8(trimmed(transcript@)),
                Seq::empty(),
            ) is None,
        },
{
    let final_msg = trim_str(transcript);
    match_commands(conf, current_mode, final_msg)
}

} // verus!

//! The effect library: an immutable collection of fixed-rate mono clips,
//! indexed by position.
//!
//! Decoding the audio files is the caller's job; the library is built from
//! the decoded clips together with the channel count and sample rate each
//! decoder reported, and keeps exactly those clips that are mono and at the
//! required rate, in the order they were offered. A clip that fails the
//! check is skipped, not fatal to the load.

use vstd::prelude::*;
use crate::types::{Samp, SAMPLE_RATE};

verus! {

/// One decoded audio file, as the decoder delivered it: its channel count,
/// its sample rate, and the samples of its first channel.
pub struct DecodedClip {
    pub channels: u8,
    pub sample_rate: u32,
    pub samples: Vec<Samp>,
}

impl DecodedClip {
    /// Whether the clip may enter the library: mono, at the required rate.
    pub open spec fn valid(self) -> bool {
        self.channels == 1 && self.sample_rate == SAMPLE_RATE
    }
}

/// The clips of `clips` that pass the mono/rate check, in order, as sequences
/// of samples.
pub open spec fn accepted_clips(clips: Seq<DecodedClip>) -> Seq<Seq<Samp>> {
    clips.filter(|c: DecodedClip| c.valid()).map_values(|c: DecodedClip| c.samples@)
}

/// The preloaded effect clips, read-only once built.
pub struct SampleLibrary {
    samples: Vec<Vec<Samp>>,
}

impl View for SampleLibrary {
    type V = Seq<Seq<Samp>>;

    /// A library is, mathematically, the sequence of its clips' samples.
    closed spec fn view(&self) -> Seq<Seq<Samp>> {
        self.samples@.map_values(|v: Vec<Samp>| v@)
    }
}

impl SampleLibrary {
    /// Build the library from decoded files: every clip that is mono and at
    /// the required sample rate is kept, in order; the rest are skipped.
    pub fn new(clips: Vec<DecodedClip>) -> (lib: SampleLibrary)
        ensures
            lib@ == accepted_clips(clips@),
    {
        let mut samples: Vec<Vec<Samp>> = Vec::new();
        let mut clips = clips;
        let ghost all = clips@;
        while clips.len() > 0
            invariant
                all == all.take(all.len() - clips@.len()).add(clips@),
                samples@.map_values(|v: Vec<Samp>| v@) == accepted_clips(
                    all.take(all.len() - clips@.len()),
                ),
            decreases clips@.len(),
        {
            let ghost done = all.take(all.len() - clips@.len());
            let clip = clips.remove(0);
            proof {
                assert(all.take(all.len() - clips@.len()) =~= done.push(clip));
                lemma_accepted_push(done, clip);
            }
            if clip.channels == 1 && clip.sample_rate == SAMPLE_RATE {
                let ghost before = samples@;
                samples.push(clip.samples);
                proof {
                    assert(samples@.map_values(|v: Vec<Samp>| v@) =~= before.map_values(
                        |v: Vec<Samp>| v@,
                    ).push(clip.samples@));
                }
            }
        }
        proof {
            assert(all.take(all.len() as int) =~= all);
        }
        SampleLibrary { samples }
    }

    /// The clip at index `i`. An index at or past `len` is a programming
    /// error, excluded by contract: callers pick indices below `len`.
    pub fn get(&self, i: usize) -> (clip: &Vec<Samp>)
        requires
            i < self@.len(),
        ensures
            clip@ == self@[i as int],
    {
        &self.samples[i]
    }

    /// How many clips the library holds.
    pub fn len(&self) -> (n: usize)
        ensures
            n == self@.len(),
    {
        self.samples.len()
    }
}

/// Appending one clip extends the accepted clips by its samples exactly when
/// it passes the mono/rate check.
proof fn lemma_accepted_push(s: Seq<DecodedClip>, c: DecodedClip)
    ensures
        c.valid() ==> accepted_clips(s.push(c)) == accepted_clips(s).push(c.samples@),
        !c.valid() ==> accepted_clips(s.push(c)) == accepted_clips(s),
{
    reveal(Seq::filter);
    let pred = |x: DecodedClip| x.valid();
    assert(s.push(c).drop_last() =~= s);
    if c.valid() {
        assert(s.push(c).filter(pred) =~= s.filter(pred).push(c));
        assert(accepted_clips(s.push(c)) =~= accepted_clips(s).push(c.samples@));
    } else {
        assert(s.push(c).filter(pred) =~= s.filter(pred));
        assert(accepted_clips(s.push(c)) =~= accepted_clips(s));
    }
}

} // verus!

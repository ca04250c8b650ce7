//! The sample consumer's end-of-stream protocol: a short fill — a `next`
//! call returning fewer samples than requested — is a near-terminal signal,
//! and after three consecutive short fills the consumer finalizes the output
//! stream. The sequencer's `Finished` state reliably returns under-filled
//! buffers, so this heuristic converges.

use vstd::prelude::*;

verus! {

/// How many consecutive short fills end the stream.
pub const SHORT_FILL_LIMIT: u8 = 3;

/// Counts consecutive short fills for the encoder loop and says when to
/// finalize the stream.
pub struct ShortFillGate {
    strikes: u8,
}

impl ShortFillGate {
    /// How many consecutive short fills have been observed, capped at the
    /// limit.
    pub closed spec fn strikes_spec(self) -> u8 {
        self.strikes
    }

    /// A fresh gate: no short fill seen yet.
    pub fn new() -> (g: ShortFillGate)
        ensures
            g.strikes_spec() == 0,
    {
        ShortFillGate { strikes: 0 }
    }

    /// Record one pull: a short fill raises the count, a full one resets it.
    /// Returns whether the stream is over — exactly when the limit of
    /// consecutive short fills has been reached.
    pub fn record(&mut self, filled: usize, requested: usize) -> (stop: bool)
        ensures
            final(self).strikes_spec() == (if filled < requested {
                if old(self).strikes_spec() < SHORT_FILL_LIMIT {
                    (old(self).strikes_spec() + 1) as u8
                } else {
                    SHORT_FILL_LIMIT
                }
            } else {
                0u8
            }),
            stop == (final(self).strikes_spec() >= SHORT_FILL_LIMIT),
    {
        if filled < requested {
            if self.strikes < SHORT_FILL_LIMIT {
                self.strikes = self.strikes + 1;
            } else {
                self.strikes = SHORT_FILL_LIMIT;
            }
        } else {
            self.strikes = 0;
        }
        self.strikes >= SHORT_FILL_LIMIT
    }
}

} // verus!

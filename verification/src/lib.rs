//! A pull-driven audio sequencing engine: narration cues (speech, sound
//! effects, timed pauses) are multiplexed into one gapless fixed-rate mono
//! sample stream that an encoder drains in fixed-size blocks.

use vstd::prelude::*;

pub mod announce_channel;
pub mod events;
pub mod sample_library;
pub mod short_fill;
pub mod tts;
pub mod types;

verus! {

} // verus!

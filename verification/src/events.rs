//! Domain data carried by the game-event stream that feeds the narration
//! producer. Translating game events into narration cues happens outside the
//! core; these are the plain values that translation works with.

use vstd::prelude::*;

verus! {

/// One team, by its two display names.
#[derive(Debug)]
pub struct Team {
    pub full_name: String,
    pub short_name: String,
}

/// Which side a team plays on.
#[derive(Debug)]
pub enum Side {
    Home,
    Away,
}

/// One half-inning, as reported at its end.
#[derive(Debug)]
pub struct Inning {
    pub was_top: bool,
    pub number: i32,
}

} // verus!

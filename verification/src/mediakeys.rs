//! The desktop's media keys and what it shows of the track on air. Talking
//! to the desktop is the caller's; what travels is here.

use vstd::prelude::*;

verus! {

/// What a media key asks.
#[derive(Clone, Copy, PartialEq, Eq, Structural, Debug)]
pub enum Control {
    Next,
    Previous,
    PlayPause,
    Stop,
}

/// What the desktop shows of the track on air, and of the one it heads for.
pub struct Shown {
    pub title: String,
    pub artist: String,
    pub next: String,
    pub length_ms: u32,
    /// Some(true) plays, Some(false) is paused, None: nothing on air.
    pub playing: Option<bool>,
    /// Counts the tracks, so the desktop's track id changes with each one.
    pub serial: u64,
}

impl Shown {
    /// Nothing on air.
    pub fn nothing() -> (s: Shown)
        ensures
            s.title@.len() == 0 && s.artist@.len() == 0 && s.next@.len() == 0,
            s.length_ms == 0 && s.playing is None && s.serial == 0,
    {
        Shown { title: String::new(), artist: String::new(), next: String::new(), length_ms: 0, playing: None, serial: 0 }
    }
}

} // verus!

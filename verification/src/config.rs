//! The user's configuration: what is not a number of the engine. The file
//! is read by the caller; the defaults, and what a remembered comfort says,
//! are here.

use vstd::prelude::*;
use crate::text::{chars_of, trim, trim_exec, usize_of, parse_usize};

verus! {

pub struct Catalogue {
    /// The active catalog: a clone of the reference repository, or of its
    /// fork. Empty means the default place.
    pub path: String,
}

impl Default for Catalogue {
    fn default() -> (c: Self)
        ensures
            c.path@.len() == 0,
    {
        Catalogue { path: String::new() }
    }
}

pub struct Journey {
    /// Comfort zone: 5 = cocoon, 0 = exploration.
    pub comfort: u8,
}

/// The comfort a first journey opens with.
pub fn three() -> (r: u8)
    ensures
        r == 3,
{
    3
}

impl Default for Journey {
    fn default() -> (j: Self)
        ensures
            j.comfort == 3,
    {
        Journey { comfort: three() }
    }
}

pub struct Playback {
    /// Prefer studio versions over live ones when resolving a title.
    pub prefer_studio: bool,
}

/// Studio versions are preferred unless the file says otherwise.
pub fn yes() -> (r: bool)
    ensures
        r,
{
    true
}

impl Default for Playback {
    fn default() -> (p: Self)
        ensures
            p.prefer_studio,
    {
        Playback { prefer_studio: yes() }
    }
}

/// The comfort a remembered state gives: a number from 0 to 5, written
/// alone on its line; anything else leaves the configured default.
pub open spec fn remembered_comfort(text: Seq<char>, default: u8) -> u8 {
    match usize_of(trim(text)) {
        Some(v) => if v <= 5 { v as u8 } else { default },
        None => default,
    }
}

pub fn comfort_from(text: &str, default: u8) -> (r: u8)
    ensures
        r == remembered_comfort(text@, default),
{
    match parse_usize(&trim_exec(&chars_of(text))) {
        Some(v) => if v <= 5 { v as u8 } else { default },
        None => default,
    }
}

} // verus!

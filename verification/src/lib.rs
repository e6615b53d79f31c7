//! Resolves authored rhythm-game charts into fully laid-out scenes.
//!
//! An authored chart states when each note arrives, what kind it is, and how
//! notes are bonded — chains, reflections, slide attachments — but not where
//! notes spawn or which lane they land in. This crate decodes the two
//! authored forms (a packed little-endian file and its JSON equivalent) into
//! a normalized chart description, then resolves it: every note receives a
//! lane that avoids conflicts, a spawn point, a destination, a reflection
//! waypoint and a chord flag, and chain edges and slide paths are assembled
//! for rendering.
//!
//! All times are integers in milliseconds, all tempi integers in milli-bpm,
//! and all coordinates integers in board units, so every step of the
//! pipeline carries an exact contract.
use vstd::prelude::*;

pub mod consts;
pub mod coords;
pub mod objects;
pub mod chains;
pub mod slider;
pub mod fumen;
pub mod jsonparse;
pub mod parse;
pub mod utils;
pub mod generate;
pub mod ply;

verus! {

} // verus!

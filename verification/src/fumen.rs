//! The resolved chart: ordered notes, chain edges and slide paths, with the
//! cursors the playback loop advances.
use vstd::prelude::*;

use crate::chains::Chain;
use crate::objects::Object;
use crate::slider::Slider;

verus! {

/// Descriptive data shown in the HUD, not used by resolution.
#[derive(Clone, Debug)]
pub struct FumenMetadata {
    /// Song name.
    pub name: String,
    pub artist: String,
    pub charter: String,
    /// Tempo range, as text.
    pub bpm: String,
    pub difficulty: String,
    pub level: u32,
}

/// A fully resolved chart. All sequences are immutable after resolution;
/// consumers only advance the three cursors.
#[derive(Clone, Debug)]
pub struct Fumen {
    pub metadata: FumenMetadata,
    /// Resolved notes, ordered by arrival time.
    pub objects: Vec<Object>,
    /// Cursor into `objects`.
    pub current: usize,
    /// Chain edges, ordered by the head's arrival time.
    pub chains: Vec<Chain>,
    /// Cursor into `chains`.
    pub currentchain: usize,
    /// Slide paths, ordered by the anchor's spawn time.
    pub sliders: Vec<Slider>,
    /// Cursor into `sliders`.
    pub currentslider: usize,
    /// Arrival times, in milliseconds, at which no free lane was left and a
    /// note was placed on an occupied one.
    pub overlap_warnings: Vec<i64>,
    pub playing: bool,
    /// When playback started, in milliseconds.
    pub song_start_time: i64,
    /// Length of one measure (four beats), in milliseconds.
    pub ms_per_measure: i64,
    /// The authored delay, in milliseconds.
    pub delay: i64,
    /// Where in the song playback starts, in milliseconds; opaque to the
    /// resolver, carried for the audio player.
    pub song_offset: i64,
    /// The tempo, in milli-bpm.
    pub bpm: i64,
}

impl Fumen {
    /// The note under the cursor, if any.
    pub fn current_object(&self) -> (r: Option<&Object>)
        ensures
            match r {
                Option::Some(o) => self.current < self.objects@.len() && *o
                    == self.objects@[self.current as int],
                Option::None => self.current >= self.objects@.len(),
            },
    {
        self.objects.get(self.current)
    }

    /// The chain edge under the cursor, if any.
    pub fn current_chain(&self) -> (r: Option<&Chain>)
        ensures
            match r {
                Option::Some(c) => self.currentchain < self.chains@.len() && *c
                    == self.chains@[self.currentchain as int],
                Option::None => self.currentchain >= self.chains@.len(),
            },
    {
        self.chains.get(self.currentchain)
    }

    /// The slide path under the cursor, if any.
    pub fn current_slider(&self) -> (r: Option<&Slider>)
        ensures
            match r {
                Option::Some(s) => self.currentslider < self.sliders@.len() && *s
                    == self.sliders@[self.currentslider as int],
                Option::None => self.currentslider >= self.sliders@.len(),
            },
    {
        self.sliders.get(self.currentslider)
    }

    /// Advance the note cursor past the run of notes on board `side` that
    /// starts right after the current note.
    pub fn goto_next_object_with_same_side(&mut self, side: u32)
        requires
            old(self).current < old(self).objects@.len(),
        ensures
            final(self).objects == old(self).objects,
            final(self).chains == old(self).chains,
            final(self).sliders == old(self).sliders,
            final(self).currentchain == old(self).currentchain,
            final(self).currentslider == old(self).currentslider,
            final(self).metadata == old(self).metadata,
            final(self).overlap_warnings == old(self).overlap_warnings,
            final(self).playing == old(self).playing,
            final(self).song_start_time == old(self).song_start_time,
            final(self).ms_per_measure == old(self).ms_per_measure,
            final(self).delay == old(self).delay,
            final(self).song_offset == old(self).song_offset,
            final(self).bpm == old(self).bpm,
            old(self).current < final(self).current <= final(self).objects@.len(),
            forall|k: int|
                old(self).current + 1 <= k < final(self).current ==> final(self).objects@[k].side
                    == side,
            final(self).current < final(self).objects@.len()
                ==> final(self).objects@[final(self).current as int].side != side,
    {
        let n = self.objects.len();
        self.current = self.current + 1;
        loop
            invariant
                old(self).current < self.current <= self.objects@.len(),
                self.objects == old(self).objects,
                self.chains == old(self).chains,
                self.sliders == old(self).sliders,
                self.currentchain == old(self).currentchain,
                self.currentslider == old(self).currentslider,
                self.metadata == old(self).metadata,
                self.overlap_warnings == old(self).overlap_warnings,
                self.playing == old(self).playing,
                self.song_start_time == old(self).song_start_time,
                self.ms_per_measure == old(self).ms_per_measure,
                self.delay == old(self).delay,
                self.song_offset == old(self).song_offset,
                self.bpm == old(self).bpm,
                forall|k: int|
                    old(self).current + 1 <= k < self.current ==> self.objects@[k].side == side,
            ensures
                self.current < self.objects@.len() ==> self.objects@[self.current as int].side
                    != side,
            decreases self.objects@.len() - self.current,
        {
            match self.current_object() {
                Some(object) => {
                    if object.side == side {
                        let n = self.objects.len();
                        self.current = self.current + 1;
                    } else {
                        break ;
                    }
                },
                None => {
                    break ;
                },
            }
        }
    }

    /// The tempo in effect at `_time_ms`; tempo changes are not supported,
    /// so this is the chart's single tempo.
    pub fn current_bpm(&self, _time_ms: i64) -> (r: i64)
        ensures
            r == self.bpm,
    {
        self.bpm
    }
}

} // verus!

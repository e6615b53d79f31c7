//! Slide paths: an anchor note's geometry followed by its attached points.
use vstd::prelude::*;

use crate::consts::{BOARD_LIMIT, RESOLVED_TIME_LIMIT_MS};
use crate::coords::Coord2d;
use crate::objects::{lerp, lerp_spec};

verus! {

/// One vertex of a slide path, with its own flight times and geometry.
#[derive(Clone, Copy, Debug)]
pub struct SlidePoint {
    pub pos: u32,
    pub spawn_time: i64,
    pub arrive_time: i64,
    pub spawn: Coord2d,
    pub dest: Coord2d,
}

/// A slide vertex whose numbers are in range.
pub open spec fn slide_point_well_formed(p: SlidePoint) -> bool {
    &&& -RESOLVED_TIME_LIMIT_MS <= p.spawn_time <= p.arrive_time <= RESOLVED_TIME_LIMIT_MS
    &&& -BOARD_LIMIT <= p.spawn.x <= BOARD_LIMIT && -BOARD_LIMIT <= p.spawn.y <= BOARD_LIMIT
    &&& -BOARD_LIMIT <= p.dest.x <= BOARD_LIMIT && -BOARD_LIMIT <= p.dest.y <= BOARD_LIMIT
}

/// Where a slide vertex is at time `t`: linear from spawn to destination.
pub open spec fn slide_coord_spec(p: SlidePoint, t: int) -> Coord2d {
    if p.arrive_time == p.spawn_time {
        p.dest
    } else {
        lerp_spec(p.spawn, p.dest, t - p.spawn_time, p.arrive_time - p.spawn_time)
    }
}

impl SlidePoint {
    /// Where this vertex is at time `time`.
    pub fn current_coord(&self, time: i64) -> (c: Coord2d)
        requires
            slide_point_well_formed(*self),
            self.spawn_time <= time <= self.arrive_time,
        ensures
            c == slide_coord_spec(*self, time as int),
    {
        if self.arrive_time == self.spawn_time {
            self.dest
        } else {
            lerp(self.spawn, self.dest, time - self.spawn_time, self.arrive_time - self.spawn_time)
        }
    }
}

/// A slide path: the anchor note's geometry first, the attached points after,
/// in authored order.
#[derive(Clone, Debug)]
pub struct Slider {
    pub parts: Vec<SlidePoint>,
}

impl Slider {
    /// A slide path appears when its anchor does.
    pub fn spawn_time(&self) -> (t: i64)
        requires
            self.parts@.len() > 0,
        ensures
            t == self.parts@[0].spawn_time,
    {
        self.parts[0].spawn_time
    }
}

} // verus!

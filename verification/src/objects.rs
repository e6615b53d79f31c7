//! Resolved notes: kinds, destination geometry, reflection timing, and the
//! position of a note at any time of its flight.
use vstd::prelude::*;

use crate::consts::{
    BOARD_LIMIT, BOTTOM_SLOT_COUNT, BOTTOM_SLOT_OPPONENT_Y, BOTTOM_SLOT_SPACING,
    BOTTOM_SLOT_START_X, BOTTOM_SLOT_Y, RESOLVED_TIME_LIMIT_MS, TOP_SLOT_OPPONENT_Y, TOP_SLOT_SPACING,
    TOP_SLOT_START_X, TOP_SLOT_Y,
};
use crate::coords::{dist, sq_dist, Coord2d};

verus! {

/// The four kinds of notes.
#[derive(Clone, Copy, Debug, PartialEq, Eq, Structural)]
pub enum Objecttype {
    Normal,
    Vertical,
    Top,
    Slide,
}

/// A fully resolved note, ready for rendering and hit detection.
#[derive(Clone, Copy, Debug, PartialEq, Eq, Structural)]
pub struct Object {
    /// When the note first appears, in milliseconds.
    pub spawn_time: i64,
    /// When the note reaches its destination, in milliseconds.
    pub arrive_time: i64,
    /// When the note passes its reflection waypoint; `spawn_time` when the
    /// waypoint equals the spawn point.
    pub reflec_time: i64,
    pub spawn: Coord2d,
    pub dest: Coord2d,
    /// If present, the note travels spawn -> reflect -> dest. Notes that do
    /// not reflect carry their spawn point here for uniform handling.
    pub reflect: Option<Coord2d>,
    pub objtype: Objecttype,
    /// The landing lane.
    pub pos: u32,
    /// Present iff the note is a long variant; milliseconds from arrival
    /// to release.
    pub duration: Option<i64>,
    /// Whether another note on the same side arrives at the same instant.
    pub chord: bool,
    /// 0 for the player's board, 1 for the opponent's.
    pub side: u32,
}

/// Where a note of kind `objtype` in lane `pos` on board `side` arrives.
pub open spec fn destination_spec(objtype: Objecttype, pos: u32, side: u32) -> Coord2d {
    let x = if objtype is Top {
        TOP_SLOT_START_X + TOP_SLOT_SPACING * pos
    } else {
        BOTTOM_SLOT_START_X + BOTTOM_SLOT_SPACING * pos
    };
    let y = if objtype is Top {
        if side == 1 {
            TOP_SLOT_OPPONENT_Y
        } else {
            TOP_SLOT_Y
        }
    } else {
        if side == 1 {
            BOTTOM_SLOT_OPPONENT_Y
        } else {
            BOTTOM_SLOT_Y
        }
    };
    Coord2d { x: x as i64, y: y }
}

/// One component of the interpolation: `p` moved towards `q` by `num/den` of
/// the gap, the travelled share rounded towards `p`.
pub open spec fn lerp_component_spec(p: int, q: int, num: int, den: int) -> int {
    if q >= p {
        p + (q - p) * num / den
    } else {
        p - (p - q) * num / den
    }
}

/// `a` moved towards `b` by `num/den` of the way; callers keep `den > 0`.
pub open spec fn lerp_spec(a: Coord2d, b: Coord2d, num: int, den: int) -> Coord2d {
    Coord2d {
        x: lerp_component_spec(a.x as int, b.x as int, num, den) as i64,
        y: lerp_component_spec(a.y as int, b.y as int, num, den) as i64,
    }
}

/// When a note with the given endpoints passes its waypoint: the fraction of
/// the flight matching the waypoint's share of the two-segment path length.
pub open spec fn reflec_time_spec(
    spawn_time: int,
    arrive_time: int,
    spawn: Coord2d,
    dest: Coord2d,
    reflect: Option<Coord2d>,
) -> int {
    match reflect {
        Option::None => 0,
        Option::Some(r) => {
            let d1 = dist(r, spawn);
            let d2 = dist(r, dest);
            if d1 + d2 == 0 {
                spawn_time
            } else {
                spawn_time + d1 * (arrive_time - spawn_time) / (d1 + d2)
            }
        },
    }
}

/// A resolved note whose numbers are in range and whose waypoint time lies
/// within its flight.
pub open spec fn object_well_formed(o: Object) -> bool {
    &&& -RESOLVED_TIME_LIMIT_MS <= o.spawn_time <= o.arrive_time <= RESOLVED_TIME_LIMIT_MS
    &&& -BOARD_LIMIT <= o.spawn.x <= BOARD_LIMIT && -BOARD_LIMIT <= o.spawn.y <= BOARD_LIMIT
    &&& -BOARD_LIMIT <= o.dest.x <= BOARD_LIMIT && -BOARD_LIMIT <= o.dest.y <= BOARD_LIMIT
    &&& match o.reflect {
        Option::None => o.reflec_time == 0,
        Option::Some(r) => {
            &&& -BOARD_LIMIT <= r.x <= BOARD_LIMIT && -BOARD_LIMIT <= r.y <= BOARD_LIMIT
            &&& o.spawn_time <= o.reflec_time <= o.arrive_time
        },
    }
}

/// Where the note is at time `t`: on the segment to the waypoint before
/// `reflec_time`, on the segment to the destination after.
pub open spec fn current_coord_spec(o: Object, t: int) -> Coord2d {
    match o.reflect {
        Option::None => {
            if o.arrive_time == o.spawn_time {
                o.dest
            } else {
                lerp_spec(o.spawn, o.dest, t - o.spawn_time, o.arrive_time - o.spawn_time)
            }
        },
        Option::Some(r) => {
            if t < o.reflec_time {
                lerp_spec(o.spawn, r, t - o.spawn_time, o.reflec_time - o.spawn_time)
            } else if o.arrive_time == o.reflec_time {
                o.dest
            } else {
                lerp_spec(r, o.dest, t - o.reflec_time, o.arrive_time - o.reflec_time)
            }
        },
    }
}

impl Object {
    /// Where a note of kind `objtype` in lane `pos` on board `side` arrives.
    pub fn destination(objtype: Objecttype, pos: u32, side: u32) -> (c: Coord2d)
        requires
            pos < BOTTOM_SLOT_COUNT,
        ensures
            c == destination_spec(objtype, pos, side),
            -BOARD_LIMIT <= c.x <= BOARD_LIMIT && -BOARD_LIMIT <= c.y <= BOARD_LIMIT,
    {
        let x = match objtype {
            Objecttype::Top => TOP_SLOT_START_X + TOP_SLOT_SPACING * pos as i64,
            _ => BOTTOM_SLOT_START_X + BOTTOM_SLOT_SPACING * pos as i64,
        };
        let y = match objtype {
            Objecttype::Top => {
                if side == 1 {
                    TOP_SLOT_OPPONENT_Y
                } else {
                    TOP_SLOT_Y
                }
            },
            _ => {
                if side == 1 {
                    BOTTOM_SLOT_OPPONENT_Y
                } else {
                    BOTTOM_SLOT_Y
                }
            },
        };
        Coord2d { x, y }
    }

    /// When this note passes its reflection waypoint.
    pub fn reflec_time(&self) -> (t: i64)
        ensures
            t == self.reflec_time,
    {
        self.reflec_time
    }

    /// Which leg of the reflected trajectory the note is on at `time`:
    /// 0 before the waypoint, 1 after.
    pub fn reflect_stage(&self, time: i64) -> (s: Option<u32>)
        ensures
            s == (if time < self.reflec_time {
                Option::Some(0u32)
            } else {
                Option::Some(1u32)
            }),
    {
        if time < self.reflec_time {
            Some(0)
        } else {
            Some(1)
        }
    }

    /// Where this note is at time `time`.
    pub fn current_coord(&self, time: i64) -> (c: Coord2d)
        requires
            object_well_formed(*self),
            self.spawn_time <= time <= self.arrive_time,
        ensures
            c == current_coord_spec(*self, time as int),
    {
        match self.reflect {
            None => {
                if self.arrive_time == self.spawn_time {
                    self.dest
                } else {
                    lerp(
                        self.spawn,
                        self.dest,
                        time - self.spawn_time,
                        self.arrive_time - self.spawn_time,
                    )
                }
            },
            Some(r) => {
                if time < self.reflec_time {
                    lerp(self.spawn, r, time - self.spawn_time, self.reflec_time - self.spawn_time)
                } else if self.arrive_time == self.reflec_time {
                    self.dest
                } else {
                    lerp(r, self.dest, time - self.reflec_time, self.arrive_time - self.reflec_time)
                }
            },
        }
    }

    /// Build a resolved note; the waypoint time divides the flight in the
    /// ratio of the two path legs.
    pub fn new(
        spawn_time: i64,
        arrive_time: i64,
        side: u32,
        spawn_x: i64,
        spawn_y: i64,
        objtype: Objecttype,
        pos: u32,
        reflect: Option<(i64, i64)>,
        duration: Option<i64>,
        chord: bool,
    ) -> (o: Object)
        requires
            -RESOLVED_TIME_LIMIT_MS <= spawn_time <= arrive_time <= RESOLVED_TIME_LIMIT_MS,
            -BOARD_LIMIT <= spawn_x <= BOARD_LIMIT && -BOARD_LIMIT <= spawn_y <= BOARD_LIMIT,
            pos < BOTTOM_SLOT_COUNT,
            match reflect {
                Option::None => true,
                Option::Some((rx, ry)) => -BOARD_LIMIT <= rx <= BOARD_LIMIT && -BOARD_LIMIT <= ry
                    <= BOARD_LIMIT,
            },
        ensures
            o.spawn_time == spawn_time,
            o.arrive_time == arrive_time,
            o.side == side,
            o.spawn == (Coord2d { x: spawn_x, y: spawn_y }),
            o.dest == destination_spec(objtype, pos, side),
            o.objtype == objtype,
            o.pos == pos,
            o.duration == duration,
            o.chord == chord,
            o.reflect == (match reflect {
                Option::None => Option::<Coord2d>::None,
                Option::Some((rx, ry)) => Option::Some(Coord2d { x: rx, y: ry }),
            }),
            o.reflec_time == reflec_time_spec(
                spawn_time as int,
                arrive_time as int,
                o.spawn,
                o.dest,
                o.reflect,
            ),
            object_well_formed(o),
    {
        let spawn = Coord2d { x: spawn_x, y: spawn_y };
        let dest = Self::destination(objtype, pos, side);
        let reflect: Option<Coord2d> = match reflect {
            None => None,
            Some((rx, ry)) => Some(Coord2d { x: rx, y: ry }),
        };
        let reflec_time: i64 = match reflect {
            None => 0,
            Some(reflec) => {
                let d1 = reflec.distance(&spawn);
                let d2 = reflec.distance(&dest);
                proof {
                    lemma_board_dist_bound(reflec, spawn);
                    lemma_board_dist_bound(reflec, dest);
                }
                if d1 + d2 == 0 {
                    spawn_time
                } else {
                    proof {
                        lemma_frac_in_flight(
                            d1 as int,
                            d2 as int,
                            spawn_time as int,
                            arrive_time as int,
                        );
                        assert(d1 * (arrive_time - spawn_time) <= 300_000 * (2 * RESOLVED_TIME_LIMIT_MS))
                            by (nonlinear_arith)
                            requires
                                0 <= d1 <= 300_000,
                                0 <= arrive_time - spawn_time <= 2 * RESOLVED_TIME_LIMIT_MS,
                        ;
                    }
                    spawn_time + d1 * (arrive_time - spawn_time) / (d1 + d2)
                }
            },
        };
        Object {
            spawn_time,
            arrive_time,
            side,
            reflec_time,
            spawn,
            objtype,
            pos,
            dest,
            reflect,
            duration,
            chord,
        }
    }
}

/// The distance between two on-board points is below 300 000 units.
pub proof fn lemma_board_dist_bound(a: Coord2d, b: Coord2d)
    requires
        -BOARD_LIMIT <= a.x <= BOARD_LIMIT && -BOARD_LIMIT <= a.y <= BOARD_LIMIT,
        -BOARD_LIMIT <= b.x <= BOARD_LIMIT && -BOARD_LIMIT <= b.y <= BOARD_LIMIT,
    ensures
        0 <= dist(a, b) <= 300_000,
{
    assert(0 <= sq_dist(a, b) <= 80_000_000_000) by (nonlinear_arith)
        requires
            -2 * BOARD_LIMIT <= a.x - b.x <= 2 * BOARD_LIMIT,
            -2 * BOARD_LIMIT <= a.y - b.y <= 2 * BOARD_LIMIT,
            sq_dist(a, b) == (a.x - b.x) * (a.x - b.x) + (a.y - b.y) * (a.y - b.y),
    ;
    crate::coords::lemma_sqrt_floor_exists(sq_dist(a, b));
    let r = dist(a, b);
    assert(0 <= r <= 300_000) by (nonlinear_arith)
        requires
            0 <= r,
            r * r <= 80_000_000_000,
    ;
}

/// The waypoint share of the flight is between 0 and the whole flight.
proof fn lemma_frac_in_flight(d1: int, d2: int, ts: int, ta: int)
    requires
        d1 >= 0,
        d2 >= 0,
        d1 + d2 > 0,
        ts <= ta,
    ensures
        0 <= d1 * (ta - ts) / (d1 + d2) <= ta - ts,
{
    let dt = ta - ts;
    assert(0 <= d1 * dt && d1 * dt <= (d1 + d2) * dt) by (nonlinear_arith)
        requires
            d1 >= 0,
            d2 >= 0,
            dt >= 0,
    ;
    assert(d1 * dt / (d1 + d2) >= 0) by (nonlinear_arith)
        requires
            d1 * dt >= 0,
            d1 + d2 > 0,
    ;
    assert(d1 * dt / (d1 + d2) <= dt) by (nonlinear_arith)
        requires
            d1 * dt <= (d1 + d2) * dt,
            d1 + d2 > 0,
            dt >= 0,
    ;
}

/// One component of the interpolation, on machine integers.
fn lerp_component(p: i64, q: i64, num: i64, den: i64) -> (r: i64)
    requires
        -BOARD_LIMIT <= p <= BOARD_LIMIT,
        -BOARD_LIMIT <= q <= BOARD_LIMIT,
        0 <= num <= den,
        0 < den <= 2 * RESOLVED_TIME_LIMIT_MS,
    ensures
        r == lerp_component_spec(p as int, q as int, num as int, den as int),
        -BOARD_LIMIT <= r <= BOARD_LIMIT,
{
    if q >= p {
        let gap = q - p;
        proof {
            lemma_travel_bounds(gap as int, num as int, den as int);
        }
        p + gap * num / den
    } else {
        let gap = p - q;
        proof {
            lemma_travel_bounds(gap as int, num as int, den as int);
        }
        p - gap * num / den
    }
}

/// The travelled share of a gap is between zero and the whole gap.
proof fn lemma_travel_bounds(gap: int, num: int, den: int)
    requires
        0 <= gap <= 2 * BOARD_LIMIT,
        0 <= num <= den,
        0 < den <= 2 * RESOLVED_TIME_LIMIT_MS,
    ensures
        0 <= gap * num <= 2 * BOARD_LIMIT * (2 * RESOLVED_TIME_LIMIT_MS),
        0 <= gap * num / den <= gap,
{
    assert(0 <= gap * num <= gap * den) by (nonlinear_arith)
        requires
            gap >= 0,
            0 <= num <= den,
    ;
    assert(gap * den <= 2 * BOARD_LIMIT * (2 * RESOLVED_TIME_LIMIT_MS)) by (nonlinear_arith)
        requires
            0 <= gap <= 2 * BOARD_LIMIT,
            0 < den <= 2 * RESOLVED_TIME_LIMIT_MS,
    ;
    assert(0 <= gap * num / den <= gap) by (nonlinear_arith)
        requires
            0 <= gap * num <= gap * den,
            den > 0,
    ;
}

/// `a` moved towards `b` by `num/den` of the way.
pub(crate) fn lerp(a: Coord2d, b: Coord2d, num: i64, den: i64) -> (c: Coord2d)
    requires
        -BOARD_LIMIT <= a.x <= BOARD_LIMIT && -BOARD_LIMIT <= a.y <= BOARD_LIMIT,
        -BOARD_LIMIT <= b.x <= BOARD_LIMIT && -BOARD_LIMIT <= b.y <= BOARD_LIMIT,
        0 <= num <= den,
        0 < den <= 2 * RESOLVED_TIME_LIMIT_MS,
    ensures
        c == lerp_spec(a, b, num as int, den as int),
{
    Coord2d { x: lerp_component(a.x, b.x, num, den), y: lerp_component(a.y, b.y, num, den) }
}

/// At its spawn time a note is at its spawn point; at its waypoint time it is
/// at its waypoint; at its arrival time it is at its destination.
pub proof fn lemma_trajectory_endpoints(o: Object, r: Coord2d)
    requires
        object_well_formed(o),
        o.reflect == Option::Some(r),
        o.spawn_time < o.reflec_time < o.arrive_time,
    ensures
        current_coord_spec(o, o.spawn_time as int) == o.spawn,
        current_coord_spec(o, o.reflec_time as int) == r,
        current_coord_spec(o, o.arrive_time as int) == o.dest,
{
    let ts = o.spawn_time as int;
    let tr = o.reflec_time as int;
    let ta = o.arrive_time as int;
    lemma_zero_fraction(o.spawn.x as int, r.x as int, tr - ts);
    lemma_zero_fraction(o.spawn.y as int, r.y as int, tr - ts);
    assert(current_coord_spec(o, ts) == o.spawn);
    lemma_zero_fraction(r.x as int, o.dest.x as int, ta - tr);
    lemma_zero_fraction(r.y as int, o.dest.y as int, ta - tr);
    assert(current_coord_spec(o, tr) == r);
    lemma_whole_fraction(r.x as int, o.dest.x as int, ta - tr);
    lemma_whole_fraction(r.y as int, o.dest.y as int, ta - tr);
    assert(current_coord_spec(o, ta) == o.dest);
}

/// Interpolating none of the way stays at the near endpoint.
proof fn lemma_zero_fraction(p: int, q: int, den: int)
    requires
        den > 0,
    ensures
        lerp_component_spec(p, q, 0, den) == p,
{
    assert((q - p) * 0 == 0) by (nonlinear_arith);
    assert((p - q) * 0 == 0) by (nonlinear_arith);
    assert(0int / den == 0) by (nonlinear_arith)
        requires
            den > 0,
    ;
}

/// Interpolating the whole way lands exactly on the far endpoint.
proof fn lemma_whole_fraction(p: int, q: int, den: int)
    requires
        den > 0,
    ensures
        lerp_component_spec(p, q, den, den) == q,
{
    if q >= p {
        assert((q - p) * den / den == q - p) by (nonlinear_arith)
            requires
                den > 0,
        ;
    } else {
        assert((p - q) * den / den == p - q) by (nonlinear_arith)
            requires
                den > 0,
        ;
    }
}

/// At the waypoint time the distances from the note's position to spawn and
/// to destination equal those of the waypoint itself, so the position splits
/// the path from spawn to destination in the waypoint's own ratio:
/// `dist(c, spawn) / dist(c, dest) == dist(r, spawn) / dist(r, dest)`.
pub proof fn lemma_reflect_ratio(o: Object, r: Coord2d)
    requires
        object_well_formed(o),
        o.reflect == Option::Some(r),
        o.spawn_time < o.reflec_time < o.arrive_time,
    ensures
        dist(current_coord_spec(o, o.reflec_time as int), o.spawn) == dist(r, o.spawn),
        dist(current_coord_spec(o, o.reflec_time as int), o.dest) == dist(r, o.dest),
{
    lemma_trajectory_endpoints(o, r);
}

} // verus!

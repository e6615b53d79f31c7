//! The chart description: the normalized authored record the resolver reads,
//! and the neighbourhood queries the lane generator asks of it.
use vstd::prelude::*;

use crate::consts::{
    AVOID_WINDOW_MS_MILLIBPM, BOTTOM_SLOT_COUNT, BPM_LIMIT_MILLIBPM, TIME_LIMIT_MS, TOP_SLOT_COUNT,
};
use crate::jsonparse::SOPoint;
use crate::objects::Objecttype;

verus! {

/// One authored note after semantic decoding: times in milliseconds, kind
/// derived, bonds expressed as identifiers.
#[derive(Clone, Copy, Debug, PartialEq, Eq, Structural)]
pub struct ObjectDescription {
    /// The authored identifier; after normalization, bonds refer to indices
    /// of the sorted note list instead.
    pub id: u32,
    /// Spawn time in milliseconds (authored; the delay is added during
    /// resolution).
    pub starttime: i64,
    /// Milliseconds from spawn to arrival.
    pub flytime: i64,
    pub object_type: Objecttype,
    /// Present iff the note is a long variant, in milliseconds.
    pub duration: Option<i64>,
    /// The authored lane; required for Top, Vertical and Slide.
    pub pos: Option<u32>,
    /// The lane chosen during resolution.
    pub generated_pos: Option<u32>,
    /// The next note of this note's chain.
    pub chained: Option<u32>,
    /// The note this one is reflected off.
    pub source: Option<u32>,
    /// 0 or 1.
    pub side: u32,
}

/// When a note reaches its destination.
pub open spec fn arrive_of(d: ObjectDescription) -> int {
    d.starttime + d.flytime
}

/// The note's times are within the machine range the resolver asks for.
pub open spec fn desc_times_ok(d: ObjectDescription) -> bool {
    &&& -2 * TIME_LIMIT_MS <= d.starttime <= 2 * TIME_LIMIT_MS
    &&& 0 <= d.flytime <= TIME_LIMIT_MS
    &&& match d.duration {
        Option::Some(x) => 0 <= x <= TIME_LIMIT_MS,
        Option::None => true,
    }
}

/// Every note's times are within range.
pub open spec fn all_times_ok(s: Seq<ObjectDescription>) -> bool {
    forall|k: int| 0 <= k < s.len() ==> desc_times_ok(#[trigger] s[k])
}

/// Notes are ordered by arrival time.
pub open spec fn objects_sorted(s: Seq<ObjectDescription>) -> bool {
    forall|i: int, j: int| 0 <= i < j < s.len() ==> arrive_of(#[trigger] s[i]) <= arrive_of(
        #[trigger] s[j],
    )
}

/// Every authored lane is within its row: under 3 for Top notes, under 7 for
/// the others.
pub open spec fn positions_in_range(s: Seq<ObjectDescription>) -> bool {
    forall|k: int| 0 <= k < s.len() ==> match (#[trigger] s[k]).pos {
        Option::Some(p) => if s[k].object_type is Top {
            p < TOP_SLOT_COUNT
        } else {
            p < BOTTOM_SLOT_COUNT
        },
        Option::None => true,
    }
}

/// The lane `e` is the authored lane of a non-Top note of the arrival group
/// right after `arrive_time` on board `side`, that group within half a beat.
pub open spec fn leading_lane(
    objs: Seq<ObjectDescription>,
    side: u32,
    arrive_time: int,
    bpm0: int,
    e: Option<u32>,
) -> bool {
    exists|j: int|
        #[trigger] leads_next_group(objs, side, arrive_time, j) && !(objs[j].object_type
            is Top) && (arrive_of(objs[j]) - arrive_time) * bpm0 <= AVOID_WINDOW_MS_MILLIBPM
            && objs[j].pos == e
}

/// The lane `e` was already chosen for a non-Top note of `id`'s board that
/// arrives at the same instant as `id`; `generated` holds the lanes chosen
/// so far, in note order.
pub open spec fn peer_lane(
    objs: Seq<ObjectDescription>,
    generated: Seq<u32>,
    id: int,
    e: Option<u32>,
) -> bool {
    exists|j: int|
        0 <= j < objs.len() && j < generated.len() && (#[trigger] objs[j]).side == objs[id].side
            && !(objs[j].object_type is Top) && arrive_of(objs[j]) == arrive_of(objs[id]) && e
            == Option::Some(generated[j])
}

/// The lane `e` was already chosen for a non-Top note of the arrival group
/// right before `id`'s on `id`'s board, that group within half a beat.
pub open spec fn previous_lane(
    objs: Seq<ObjectDescription>,
    generated: Seq<u32>,
    id: int,
    bpm0: int,
    e: Option<u32>,
) -> bool {
    exists|j: int|
        #[trigger] leads_last_group(objs, id, j) && j < generated.len() && !(objs[j].object_type
            is Top) && (arrive_of(objs[id]) - arrive_of(objs[j])) * bpm0
            <= AVOID_WINDOW_MS_MILLIBPM && e == Option::Some(generated[j])
}

/// `j` belongs to the arrival group right after `arrive_time` on board
/// `side`: it arrives later than `arrive_time`, and no note of that board
/// arrives between `arrive_time` and it.
pub open spec fn leads_next_group(
    objs: Seq<ObjectDescription>,
    side: u32,
    arrive_time: int,
    j: int,
) -> bool {
    &&& 0 <= j < objs.len()
    &&& objs[j].side == side
    &&& arrive_of(objs[j]) > arrive_time
    &&& forall|j2: int|
        0 <= j2 < objs.len() && (#[trigger] objs[j2]).side == side && arrive_of(objs[j2])
            > arrive_time ==> arrive_of(objs[j]) <= arrive_of(objs[j2])
}

/// `j` belongs to the arrival group right before `id`'s on `id`'s board: it
/// arrives earlier than `id`, and no note of that board arrives between it
/// and `id`.
pub open spec fn leads_last_group(objs: Seq<ObjectDescription>, id: int, j: int) -> bool {
    &&& 0 <= j < objs.len()
    &&& objs[j].side == objs[id].side
    &&& arrive_of(objs[j]) < arrive_of(objs[id])
    &&& forall|j2: int|
        0 <= j2 < objs.len() && (#[trigger] objs[j2]).side == objs[id].side && arrive_of(objs[j2])
            < arrive_of(objs[id]) ==> arrive_of(objs[j2]) <= arrive_of(objs[j])
}

/// A chart description: the notes, the slide attachments, and the authored
/// metadata, as handed to the resolver.
#[derive(Clone, Debug)]
pub struct FumenDescription {
    /// Song name.
    pub name: String,
    pub artist: String,
    pub charter: String,
    pub level: u32,
    pub difficulty: String,
    /// Tempi in milli-bpm; only the first is acted on.
    pub bpm: Vec<i64>,
    /// Milliseconds added to every authored time during resolution.
    pub delay: i64,
    pub objects: Vec<ObjectDescription>,
    pub sopoints: Vec<SOPoint>,
}

/// The product of a bounded time difference and a bounded tempo fits `i64`.
pub proof fn lemma_window_product_bounds(delta: int, bpm: int)
    requires
        -8 * TIME_LIMIT_MS <= delta <= 8 * TIME_LIMIT_MS,
        0 < bpm <= BPM_LIMIT_MILLIBPM,
    ensures
        -6_000_000_000_000_000_000 <= delta * bpm <= 6_000_000_000_000_000_000,
{
    assert(-6_000_000_000_000_000_000 <= delta * bpm <= 6_000_000_000_000_000_000)
        by (nonlinear_arith)
        requires
            -8 * TIME_LIMIT_MS <= delta <= 8 * TIME_LIMIT_MS,
            0 < bpm <= BPM_LIMIT_MILLIBPM,
    ;
}

/// Adjacent order gives pairwise order.
proof fn lemma_sorted_pair(s: Seq<ObjectDescription>, i: int, j: int)
    requires
        forall|k: int| 0 <= k < s.len() - 1 ==> arrive_of(#[trigger] s[k]) <= arrive_of(s[k + 1]),
        0 <= i < j < s.len(),
    ensures
        arrive_of(s[i]) <= arrive_of(s[j]),
    decreases j - i,
{
    if j > i + 1 {
        lemma_sorted_pair(s, i, j - 1);
        assert(arrive_of(s[j - 1]) <= arrive_of(s[j - 1 + 1]));
    }
}

impl ObjectDescription {
    /// When this note reaches its destination.
    pub fn arrive_time(&self) -> (t: i64)
        requires
            desc_times_ok(*self),
        ensures
            t == arrive_of(*self),
    {
        self.starttime + self.flytime
    }
}

impl FumenDescription {
    /// Whether the notes are ordered by arrival time; the resolver refuses
    /// the chart otherwise.
    pub fn objects_valid(&self) -> (r: bool)
        requires
            all_times_ok(self.objects@),
        ensures
            r == objects_sorted(self.objects@),
    {
        let n = self.objects.len();
        let mut i: usize = 1;
        while i < n
            invariant
                n == self.objects@.len(),
                1 <= i <= n + 1,
                all_times_ok(self.objects@),
                forall|k: int| 0 <= k < i - 1 ==> arrive_of(#[trigger] self.objects@[k])
                    <= arrive_of(self.objects@[k + 1]),
            decreases n - i,
        {
            let a = self.objects[i - 1].arrive_time();
            let b = self.objects[i].arrive_time();
            if a > b {
                return false;
            }
            i = i + 1;
        }
        proof {
            assert forall|p: int, q: int| 0 <= p < q < self.objects@.len() implies arrive_of(
                self.objects@[p],
            ) <= arrive_of(self.objects@[q]) by {
                lemma_sorted_pair(self.objects@, p, q);
            }
        }
        true
    }

    /// The lanes of the next arrival group on `id`'s side, when that group
    /// falls within the avoidance window of half a beat; empty otherwise.
    /// Top lanes are left out: they share no row with generated notes.
    pub fn next_object_pos(&self, id: u32) -> (r: Vec<Option<u32>>)
        requires
            id < self.objects@.len(),
            all_times_ok(self.objects@),
            positions_in_range(self.objects@),
            objects_sorted(self.objects@),
            self.bpm@.len() > 0,
            0 < self.bpm@[0] <= BPM_LIMIT_MILLIBPM,
        ensures
            r@.len() <= self.objects@.len(),
            forall|k: int| 0 <= k < r@.len() ==> match #[trigger] r@[k] {
                Option::Some(p) => p < BOTTOM_SLOT_COUNT,
                Option::None => true,
            },
            forall|k: int| 0 <= k < r@.len() ==> leading_lane(
                self.objects@,
                self.objects@[id as int].side,
                arrive_of(self.objects@[id as int]),
                self.bpm@[0] as int,
                #[trigger] r@[k],
            ),
            forall|j: int|
                #[trigger] leads_next_group(
                    self.objects@,
                    self.objects@[id as int].side,
                    arrive_of(self.objects@[id as int]),
                    j,
                ) && !(self.objects@[j].object_type is Top) && (arrive_of(self.objects@[j])
                    - arrive_of(self.objects@[id as int])) * self.bpm@[0]
                    <= AVOID_WINDOW_MS_MILLIBPM ==> exists|k: int|
                    0 <= k < r@.len() && #[trigger] r@[k] == self.objects@[j].pos,
    {
        let objectnow = self.objects[id as usize];
        let arrive_time = objectnow.arrive_time();
        self.next_object_pos_raw(arrive_time, objectnow.side)
    }

    /// The lanes of the arrival group after `arrive_time` on board `side`,
    /// when that group falls within the avoidance window; empty otherwise.
    /// Every returned lane is the authored lane of a same-side non-Top note
    /// arriving after `arrive_time` but within half a beat of it, and every
    /// non-Top note of the group right after `arrive_time`, when that group
    /// is within the window, has its lane in the result.
    pub fn next_object_pos_raw(&self, arrive_time: i64, side: u32) -> (r: Vec<Option<u32>>)
        requires
            -4 * TIME_LIMIT_MS <= arrive_time <= 4 * TIME_LIMIT_MS,
            all_times_ok(self.objects@),
            positions_in_range(self.objects@),
            objects_sorted(self.objects@),
            self.bpm@.len() > 0,
            0 < self.bpm@[0] <= BPM_LIMIT_MILLIBPM,
        ensures
            r@.len() <= self.objects@.len(),
            forall|k: int| 0 <= k < r@.len() ==> match #[trigger] r@[k] {
                Option::Some(p) => p < BOTTOM_SLOT_COUNT,
                Option::None => true,
            },
            forall|k: int| 0 <= k < r@.len() ==> leading_lane(
                self.objects@,
                side,
                arrive_time as int,
                self.bpm@[0] as int,
                #[trigger] r@[k],
            ),
            forall|j: int|
                #[trigger] leads_next_group(self.objects@, side, arrive_time as int, j) && !(
                self.objects@[j].object_type is Top) && (arrive_of(self.objects@[j]) - arrive_time)
                    * self.bpm@[0] <= AVOID_WINDOW_MS_MILLIBPM ==> exists|k: int|
                    0 <= k < r@.len() && #[trigger] r@[k] == self.objects@[j].pos,
    {
        let n = self.objects.len();
        let mut next_arrive_time: Option<i64> = None;
        let ghost mut found: int = 0;
        let mut i: usize = 0;
        while i < n
            invariant_except_break
                next_arrive_time is None,
                forall|j: int|
                    0 <= j < i ==> !((#[trigger] self.objects@[j]).side == side && arrive_of(
                        self.objects@[j],
                    ) > arrive_time),
            invariant
                n == self.objects@.len(),
                i <= n,
                all_times_ok(self.objects@),
            ensures
                n == self.objects@.len(),
                match next_arrive_time {
                    Option::Some(t) => {
                        &&& -3 * TIME_LIMIT_MS <= t <= 3 * TIME_LIMIT_MS && t > arrive_time
                        &&& 0 <= found < n && self.objects@[found].side == side && arrive_of(
                            self.objects@[found],
                        ) == t
                        &&& forall|j: int|
                            0 <= j < found ==> !((#[trigger] self.objects@[j]).side == side
                                && arrive_of(self.objects@[j]) > arrive_time)
                    },
                    Option::None => forall|j: int|
                        0 <= j < n ==> !((#[trigger] self.objects@[j]).side == side && arrive_of(
                            self.objects@[j],
                        ) > arrive_time),
                },
            decreases n - i,
        {
            let object = self.objects[i];
            if side == object.side && object.arrive_time() > arrive_time {
                proof {
                    found = i as int;
                }
                next_arrive_time = Some(object.arrive_time());
                break ;
            }
            i = i + 1;
        }
        let mut next_pos: Vec<Option<u32>> = Vec::new();
        let next = match next_arrive_time {
            Some(t) => t,
            None => {
                proof {
                    assert forall|j: int|
                        #[trigger] leads_next_group(
                            self.objects@,
                            side,
                            arrive_time as int,
                            j,
                        ) implies false by {
                        assert(self.objects@[j].side == side && arrive_of(self.objects@[j])
                            > arrive_time);
                    }
                }
                return next_pos;
            },
        };
        proof {
            // the found note's arrival is the least same-side arrival after
            // `arrive_time`: earlier indices do not qualify, later ones
            // arrive no earlier by the sort order
            assert forall|j2: int|
                0 <= j2 < n && (#[trigger] self.objects@[j2]).side == side && arrive_of(
                    self.objects@[j2],
                ) > arrive_time implies next <= arrive_of(self.objects@[j2]) by {
                if j2 < found {
                    assert(false);
                } else if j2 > found {
                    assert(arrive_of(self.objects@[found]) <= arrive_of(self.objects@[j2]));
                }
            }
        }
        // Half a beat, compared without division: delta * millibpm against
        // the window constant scaled the same way.
        proof {
            lemma_window_product_bounds(next - arrive_time, self.bpm@[0] as int);
        }
        if (next - arrive_time) * self.bpm[0] > AVOID_WINDOW_MS_MILLIBPM {
            proof {
                assert forall|j: int|
                    #[trigger] leads_next_group(self.objects@, side, arrive_time as int, j) && !(
                    self.objects@[j].object_type is Top) implies (arrive_of(self.objects@[j])
                    - arrive_time) * self.bpm@[0] > AVOID_WINDOW_MS_MILLIBPM by {
                    assert(arrive_of(self.objects@[j]) <= arrive_of(self.objects@[found]));
                    assert(next <= arrive_of(self.objects@[j]));
                    assert(arrive_of(self.objects@[j]) == next);
                }
            }
            return next_pos;
        }
        let mut i: usize = 0;
        while i < n
            invariant
                n == self.objects@.len(),
                i <= n,
                all_times_ok(self.objects@),
                positions_in_range(self.objects@),
                self.bpm@.len() > 0,
                0 < self.bpm@[0] <= BPM_LIMIT_MILLIBPM,
                next > arrive_time,
                (next - arrive_time) * self.bpm@[0] <= AVOID_WINDOW_MS_MILLIBPM,
                next_pos@.len() <= i,
                forall|k: int| 0 <= k < next_pos@.len() ==> match #[trigger] next_pos@[k] {
                    Option::Some(p) => p < BOTTOM_SLOT_COUNT,
                    Option::None => true,
                },
                forall|j2: int|
                    0 <= j2 < n && (#[trigger] self.objects@[j2]).side == side && arrive_of(
                        self.objects@[j2],
                    ) > arrive_time ==> next <= arrive_of(self.objects@[j2]),
                forall|k: int| 0 <= k < next_pos@.len() ==> leading_lane(
                    self.objects@,
                    side,
                    arrive_time as int,
                    self.bpm@[0] as int,
                    #[trigger] next_pos@[k],
                ),
                forall|j: int|
                    0 <= j < i && (#[trigger] self.objects@[j]).side == side && !(
                    self.objects@[j].object_type is Top) && arrive_of(self.objects@[j])
                        == next ==> exists|k: int|
                        0 <= k < next_pos@.len() && #[trigger] next_pos@[k]
                            == self.objects@[j].pos,
            decreases n - i,
        {
            let object = self.objects[i];
            let ghost before = next_pos@;
            if side == object.side && object.arrive_time() == next && !matches!(
                object.object_type,
                Objecttype::Top,
            ) {
                proof {
                    let j = i as int;
                    assert(leads_next_group(self.objects@, side, arrive_time as int, j));
                    assert(!(self.objects@[j].object_type is Top) && (arrive_of(self.objects@[j])
                        - arrive_time) * self.bpm@[0] <= AVOID_WINDOW_MS_MILLIBPM
                        && self.objects@[j].pos == object.pos);
                    assert(leading_lane(
                        self.objects@,
                        side,
                        arrive_time as int,
                        self.bpm@[0] as int,
                        object.pos,
                    ));
                }
                next_pos.push(object.pos);
                proof {
                    assert forall|j: int|
                        0 <= j < i + 1 && (#[trigger] self.objects@[j]).side == side && !(
                        self.objects@[j].object_type is Top) && arrive_of(self.objects@[j])
                            == next implies exists|k: int|
                        0 <= k < next_pos@.len() && #[trigger] next_pos@[k]
                            == self.objects@[j].pos by {
                        if j < i {
                            let k0 = choose|k0: int|
                                0 <= k0 < before.len() && before[k0] == self.objects@[j].pos;
                            assert(next_pos@[k0] == self.objects@[j].pos);
                        } else {
                            assert(next_pos@[next_pos@.len() - 1] == self.objects@[j].pos);
                        }
                    }
                }
            }
            i = i + 1;
        }
        proof {
            assert forall|j: int|
                #[trigger] leads_next_group(self.objects@, side, arrive_time as int, j) && !(
                self.objects@[j].object_type is Top) && (arrive_of(self.objects@[j]) - arrive_time)
                    * self.bpm@[0] <= AVOID_WINDOW_MS_MILLIBPM implies exists|k: int|
                0 <= k < next_pos@.len() && #[trigger] next_pos@[k] == self.objects@[j].pos by {
                assert(arrive_of(self.objects@[j]) <= arrive_of(self.objects@[found]));
                assert(next <= arrive_of(self.objects@[j]));
                assert(arrive_of(self.objects@[j]) == next);
            }
        }
        next_pos
    }

    /// The lanes already chosen for `id`'s chorded peers, and those of the
    /// previous arrival group on `id`'s side when it falls within the
    /// avoidance window. `generated_pos` holds the lanes chosen so far, in
    /// note order; every returned lane is one of them, belonging to a
    /// same-side non-Top note arriving with `id` or within half a beat
    /// before it.
    pub fn last_object_pos(&self, id: u32, generated_pos: &Vec<u32>) -> (r: Vec<Option<u32>>)
        requires
            id < self.objects@.len(),
            all_times_ok(self.objects@),
            objects_sorted(self.objects@),
            forall|k: int| 0 <= k < generated_pos@.len() ==> #[trigger] generated_pos@[k]
                < BOTTOM_SLOT_COUNT,
            self.bpm@.len() > 0,
            0 < self.bpm@[0] <= BPM_LIMIT_MILLIBPM,
        ensures
            r@.len() <= 2 * self.objects@.len(),
            forall|k: int| 0 <= k < r@.len() ==> match #[trigger] r@[k] {
                Option::Some(p) => p < BOTTOM_SLOT_COUNT,
                Option::None => true,
            },
            forall|k: int|
                0 <= k < r@.len() ==> peer_lane(self.objects@, generated_pos@, id as int, #[trigger] r@[k])
                    || previous_lane(
                    self.objects@,
                    generated_pos@,
                    id as int,
                    self.bpm@[0] as int,
                    r@[k],
                ),
            forall|j: int|
                0 <= j < self.objects@.len() && j < generated_pos@.len() && (
                #[trigger] self.objects@[j]).side == self.objects@[id as int].side && !(
                self.objects@[j].object_type is Top) && arrive_of(self.objects@[j]) == arrive_of(
                    self.objects@[id as int],
                ) ==> exists|k: int|
                    0 <= k < r@.len() && #[trigger] r@[k] == Option::Some(generated_pos@[j]),
            forall|j: int|
                #[trigger] leads_last_group(self.objects@, id as int, j) && j
                    < generated_pos@.len() && !(self.objects@[j].object_type is Top) && (arrive_of(
                    self.objects@[id as int],
                ) - arrive_of(self.objects@[j])) * self.bpm@[0] <= AVOID_WINDOW_MS_MILLIBPM
                    ==> exists|k: int|
                    0 <= k < r@.len() && #[trigger] r@[k] == Option::Some(generated_pos@[j]),
    {
        let objectnow = self.objects[id as usize];
        let arrive_time = objectnow.arrive_time();
        let n = self.objects.len();
        let mut last_arrive_time: Option<i64> = None;
        let ghost mut found: int = 0;
        let mut i: usize = 0;
        while i < n
            invariant
                n == self.objects@.len(),
                i <= n,
                id < n,
                all_times_ok(self.objects@),
                objectnow == self.objects@[id as int],
                arrive_time == arrive_of(self.objects@[id as int]),
                match last_arrive_time {
                    Option::Some(t) => {
                        &&& -3 * TIME_LIMIT_MS <= t <= 3 * TIME_LIMIT_MS && t < arrive_time
                        &&& 0 <= found < n && self.objects@[found].side == objectnow.side
                            && arrive_of(self.objects@[found]) == t
                        &&& forall|j: int|
                            found < j < i ==> !((#[trigger] self.objects@[j]).side
                                == objectnow.side && arrive_of(self.objects@[j]) < arrive_time)
                    },
                    Option::None => forall|j: int|
                        0 <= j < i ==> !((#[trigger] self.objects@[j]).side == objectnow.side
                            && arrive_of(self.objects@[j]) < arrive_time),
                },
            decreases n - i,
        {
            let object = self.objects[i];
            if objectnow.side == object.side && object.arrive_time() < arrive_time {
                proof {
                    found = i as int;
                }
                last_arrive_time = Some(object.arrive_time());
            }
            i = i + 1;
        }
        let mut last_pos: Vec<Option<u32>> = Vec::new();
        // Chorded peers: same side, same arrival, lane already chosen.
        let mut i: usize = 0;
        while i < n
            invariant
                n == self.objects@.len(),
                i <= n,
                all_times_ok(self.objects@),
                self.bpm@.len() > 0,
                0 < self.bpm@[0] <= BPM_LIMIT_MILLIBPM,
                id < n,
                objectnow == self.objects@[id as int],
                arrive_time == arrive_of(self.objects@[id as int]),
                last_pos@.len() <= i,
                forall|k: int| 0 <= k < generated_pos@.len() ==> #[trigger] generated_pos@[k]
                    < BOTTOM_SLOT_COUNT,
                forall|k: int| 0 <= k < last_pos@.len() ==> match #[trigger] last_pos@[k] {
                    Option::Some(p) => p < BOTTOM_SLOT_COUNT,
                    Option::None => true,
                },
                forall|k: int|
                    0 <= k < last_pos@.len() ==> peer_lane(
                        self.objects@,
                        generated_pos@,
                        id as int,
                        #[trigger] last_pos@[k],
                    ) || previous_lane(
                        self.objects@,
                        generated_pos@,
                        id as int,
                        self.bpm@[0] as int,
                        last_pos@[k],
                    ),
                forall|j: int|
                    0 <= j < i && j < generated_pos@.len() && (#[trigger] self.objects@[j]).side
                        == self.objects@[id as int].side && !(self.objects@[j].object_type
                        is Top) && arrive_of(self.objects@[j]) == arrive_of(
                        self.objects@[id as int],
                    ) ==> exists|k: int|
                        0 <= k < last_pos@.len() && #[trigger] last_pos@[k] == Option::Some(
                            generated_pos@[j],
                        ),
            decreases n - i,
        {
            let object = self.objects[i];
            let ghost before = last_pos@;
            if objectnow.side == object.side && object.arrive_time() == arrive_time && !matches!(
                object.object_type,
                Objecttype::Top,
            ) && i < generated_pos.len() {
                proof {
                    let j = i as int;
                    assert(0 <= j < n && j < generated_pos@.len() && self.objects@[j].side
                        == self.objects@[id as int].side && !(self.objects@[j].object_type
                        is Top) && arrive_of(self.objects@[j]) == arrive_of(
                        self.objects@[id as int],
                    ));
                    assert(peer_lane(
                        self.objects@,
                        generated_pos@,
                        id as int,
                        Option::Some(generated_pos@[i as int]),
                    ));
                }
                last_pos.push(Some(generated_pos[i]));
                proof {
                    assert forall|j: int|
                        0 <= j < i + 1 && j < generated_pos@.len() && (
                        #[trigger] self.objects@[j]).side == self.objects@[id as int].side && !(
                        self.objects@[j].object_type is Top) && arrive_of(self.objects@[j])
                            == arrive_of(self.objects@[id as int]) implies exists|k: int|
                        0 <= k < last_pos@.len() && #[trigger] last_pos@[k] == Option::Some(
                            generated_pos@[j],
                        ) by {
                        if j < i {
                            let k0 = choose|k0: int|
                                0 <= k0 < before.len() && #[trigger] before[k0] == Option::Some(
                                    generated_pos@[j],
                                );
                            assert(last_pos@[k0] == Option::Some(generated_pos@[j]));
                        } else {
                            assert(last_pos@[last_pos@.len() - 1] == Option::Some(
                                generated_pos@[j],
                            ));
                        }
                    }
                }
            }
            i = i + 1;
        }
        let last = match last_arrive_time {
            Some(t) => t,
            None => {
                proof {
                    assert forall|j: int|
                        #[trigger] leads_last_group(self.objects@, id as int, j) implies false by {
                        assert(self.objects@[j].side == self.objects@[id as int].side && arrive_of(
                            self.objects@[j],
                        ) < arrive_of(self.objects@[id as int]));
                    }
                }
                return last_pos;
            },
        };
        proof {
            // the found note's arrival is the greatest same-side arrival
            // before `id`'s: later indices do not qualify, earlier ones
            // arrive no later by the sort order
            assert forall|j2: int|
                0 <= j2 < n && (#[trigger] self.objects@[j2]).side == self.objects@[id as int].side
                    && arrive_of(self.objects@[j2]) < arrive_time implies arrive_of(
                self.objects@[j2],
            ) <= last by {
                if j2 > found {
                    assert(false);
                } else if j2 < found {
                    assert(arrive_of(self.objects@[j2]) <= arrive_of(self.objects@[found]));
                }
            }
            lemma_window_product_bounds(arrive_time - last, self.bpm@[0] as int);
        }
        if (arrive_time - last) * self.bpm[0] > AVOID_WINDOW_MS_MILLIBPM {
            proof {
                assert forall|j: int|
                    #[trigger] leads_last_group(self.objects@, id as int, j) && !(
                    self.objects@[j].object_type is Top) implies (arrive_of(
                    self.objects@[id as int],
                ) - arrive_of(self.objects@[j])) * self.bpm@[0] > AVOID_WINDOW_MS_MILLIBPM by {
                    assert(arrive_of(self.objects@[found]) <= arrive_of(self.objects@[j]));
                    assert(arrive_of(self.objects@[j]) <= last);
                    assert(arrive_of(self.objects@[j]) == last);
                }
            }
            return last_pos;
        }
        let mut i: usize = 0;
        while i < n
            invariant
                n == self.objects@.len(),
                i <= n,
                all_times_ok(self.objects@),
                self.bpm@.len() > 0,
                0 < self.bpm@[0] <= BPM_LIMIT_MILLIBPM,
                id < n,
                objectnow == self.objects@[id as int],
                arrive_time == arrive_of(self.objects@[id as int]),
                last < arrive_time,
                (arrive_time - last) * self.bpm@[0] <= AVOID_WINDOW_MS_MILLIBPM,
                last_pos@.len() <= n + i,
                forall|k: int| 0 <= k < generated_pos@.len() ==> #[trigger] generated_pos@[k]
                    < BOTTOM_SLOT_COUNT,
                forall|k: int| 0 <= k < last_pos@.len() ==> match #[trigger] last_pos@[k] {
                    Option::Some(p) => p < BOTTOM_SLOT_COUNT,
                    Option::None => true,
                },
                forall|j2: int|
                    0 <= j2 < n && (#[trigger] self.objects@[j2]).side
                        == self.objects@[id as int].side && arrive_of(self.objects@[j2])
                        < arrive_time ==> arrive_of(self.objects@[j2]) <= last,
                forall|k: int|
                    0 <= k < last_pos@.len() ==> peer_lane(
                        self.objects@,
                        generated_pos@,
                        id as int,
                        #[trigger] last_pos@[k],
                    ) || previous_lane(
                        self.objects@,
                        generated_pos@,
                        id as int,
                        self.bpm@[0] as int,
                        last_pos@[k],
                    ),
                forall|j: int|
                    0 <= j < n && j < generated_pos@.len() && (#[trigger] self.objects@[j]).side
                        == self.objects@[id as int].side && !(self.objects@[j].object_type
                        is Top) && arrive_of(self.objects@[j]) == arrive_of(
                        self.objects@[id as int],
                    ) ==> exists|k: int|
                        0 <= k < last_pos@.len() && #[trigger] last_pos@[k] == Option::Some(
                            generated_pos@[j],
                        ),
                forall|j: int|
                    0 <= j < i && j < generated_pos@.len() && (#[trigger] self.objects@[j]).side
                        == self.objects@[id as int].side && !(self.objects@[j].object_type
                        is Top) && arrive_of(self.objects@[j]) == last ==> exists|k: int|
                        0 <= k < last_pos@.len() && #[trigger] last_pos@[k] == Option::Some(
                            generated_pos@[j],
                        ),
            decreases n - i,
        {
            let object = self.objects[i];
            let ghost before = last_pos@;
            if objectnow.side == object.side && object.arrive_time() == last && !matches!(
                object.object_type,
                Objecttype::Top,
            ) && i < generated_pos.len() {
                proof {
                    let j = i as int;
                    assert(leads_last_group(self.objects@, id as int, j));
                    assert(j < generated_pos@.len() && !(self.objects@[j].object_type is Top) && (
                    arrive_of(self.objects@[id as int]) - arrive_of(self.objects@[j]))
                        * self.bpm@[0] <= AVOID_WINDOW_MS_MILLIBPM);
                    assert(previous_lane(
                        self.objects@,
                        generated_pos@,
                        id as int,
                        self.bpm@[0] as int,
                        Option::Some(generated_pos@[i as int]),
                    ));
                }
                last_pos.push(Some(generated_pos[i]));
                proof {
                    assert forall|j: int|
                        0 <= j < n && j < generated_pos@.len() && (
                        #[trigger] self.objects@[j]).side == self.objects@[id as int].side && !(
                        self.objects@[j].object_type is Top) && (arrive_of(self.objects@[j])
                            == arrive_of(self.objects@[id as int]) || (j < i + 1 && arrive_of(
                            self.objects@[j],
                        ) == last)) implies exists|k: int|
                        0 <= k < last_pos@.len() && #[trigger] last_pos@[k] == Option::Some(
                            generated_pos@[j],
                        ) by {
                        if j == i && arrive_of(self.objects@[j]) == last {
                            assert(last_pos@[last_pos@.len() - 1] == Option::Some(
                                generated_pos@[j],
                            ));
                        } else {
                            let k0 = choose|k0: int|
                                0 <= k0 < before.len() && #[trigger] before[k0] == Option::Some(
                                    generated_pos@[j],
                                );
                            assert(last_pos@[k0] == Option::Some(generated_pos@[j]));
                        }
                    }
                }
            }
            i = i + 1;
        }
        proof {
            assert forall|j: int|
                #[trigger] leads_last_group(self.objects@, id as int, j) && j
                    < generated_pos@.len() && !(self.objects@[j].object_type is Top) && (arrive_of(
                    self.objects@[id as int],
                ) - arrive_of(self.objects@[j])) * self.bpm@[0]
                    <= AVOID_WINDOW_MS_MILLIBPM implies exists|k: int|
                0 <= k < last_pos@.len() && #[trigger] last_pos@[k] == Option::Some(
                    generated_pos@[j],
                ) by {
                assert(arrive_of(self.objects@[found]) <= arrive_of(self.objects@[j]));
                assert(arrive_of(self.objects@[j]) <= last);
                assert(arrive_of(self.objects@[j]) == last);
            }
        }
        last_pos
    }

    /// The greatest index below `id` whose note shares `id`'s side.
    pub fn last_object_id(&self, id: u32) -> (r: Option<u32>)
        requires
            id < self.objects@.len(),
        ensures
            match r {
                Option::Some(j) => j < id && self.objects@[j as int].side
                    == self.objects@[id as int].side && forall|k: int|
                    j < k < id ==> (#[trigger] self.objects@[k]).side != self.objects@[id as int].side,
                Option::None => forall|k: int|
                    0 <= k < id ==> (#[trigger] self.objects@[k]).side != self.objects@[id as int].side,
            },
    {
        let side = self.objects[id as usize].side;
        let mut i: u32 = id;
        while i > 0
            invariant
                i <= id < self.objects@.len(),
                side == self.objects@[id as int].side,
                forall|k: int| i <= k < id ==> (#[trigger] self.objects@[k]).side != side,
            decreases i,
        {
            i = i - 1;
            if self.objects[i as usize].side == side {
                return Some(i);
            }
        }
        None
    }

    /// The least index above `id` whose note shares `id`'s side.
    pub fn next_object_id(&self, id: u32) -> (r: Option<u32>)
        requires
            id < self.objects@.len(),
            self.objects@.len() <= u32::MAX,
        ensures
            match r {
                Option::Some(j) => id < j < self.objects@.len() && self.objects@[j as int].side
                    == self.objects@[id as int].side && forall|k: int|
                    id < k < j ==> (#[trigger] self.objects@[k]).side != self.objects@[id as int].side,
                Option::None => forall|k: int|
                    id < k < self.objects@.len() ==> (#[trigger] self.objects@[k]).side
                        != self.objects@[id as int].side,
            },
    {
        let side = self.objects[id as usize].side;
        let n = self.objects.len();
        let mut i: usize = id as usize + 1;
        while i < n
            invariant
                id < i <= n,
                n == self.objects@.len(),
                n <= u32::MAX,
                side == self.objects@[id as int].side,
                forall|k: int| id < k < i ==> (#[trigger] self.objects@[k]).side != side,
            decreases n - i,
        {
            if self.objects[i].side == side {
                return Some(i as u32);
            }
            i = i + 1;
        }
        None
    }
}

} // verus!

//! The resolver: turns a chart description into a resolved chart, choosing
//! lanes that avoid conflicts, spawn points, reflection waypoints, chain
//! geometry and slide paths.
use vstd::prelude::*;

use crate::chains::Chain;
use crate::consts::{
    AVOID_WINDOW_MS_MILLIBPM, BOARD_LIMIT, BOTTOM_SLOT_COUNT, BOTTOM_SLOT_SPACING,
    BOTTOM_SLOT_START_X, BPM_LIMIT_MILLIBPM, MS_PER_MEASURE_DIVIDEND, REFLECT_X_LEFT,
    REFLECT_X_RIGHT, REFLECT_Y_MAX, REFLECT_Y_MIN, SPAWN_X_MAX, SPAWN_X_MIN, SPAWN_Y_POSITION,
    TIME_LIMIT_MS, TOP_SLOT_COUNT, TOP_SPAWN_X_SPACING, TOP_SPAWN_X_START,
};
use crate::coords::{dist, Coord2d};
use crate::fumen::{Fumen, FumenMetadata};
use crate::jsonparse::SOPoint;
use crate::objects::{destination_spec, object_well_formed, Object, Objecttype};
use crate::parse::{
    all_times_ok, arrive_of, leading_lane, leads_last_group, leads_next_group, objects_sorted,
    peer_lane, previous_lane, FumenDescription, ObjectDescription,
};
use crate::slider::{slide_point_well_formed, SlidePoint, Slider};
use crate::utils::range_rng;

verus! {

/// Why a chart description could not be resolved.
#[derive(Clone, Copy, Debug, PartialEq, Eq, Structural)]
pub enum GenerateError {
    /// The notes are not ordered by arrival time.
    UnorderedInput,
    /// A note breaks the board's structure: a lane out of its row, a bond
    /// out of range, a side that exists on no board, a number out of the
    /// machine range, or an unusable tempo.
    InvariantViolation,
}

/// Some other note on the same board arrives at the same instant.
pub open spec fn is_chord(s: Seq<ObjectDescription>, k: int) -> bool {
    exists|j: int|
        0 <= j < s.len() && j != k && (#[trigger] s[j]).side == s[k].side && arrive_of(s[j])
            == arrive_of(s[k])
}

/// Every chain target is a plain note: no authored lane and no reflection
/// source, so nothing overrides the lane and spawn point it inherits.
pub open spec fn chain_targets_plain(s: Seq<ObjectDescription>) -> bool {
    forall|k: int| 0 <= k < s.len() ==> match (#[trigger] s[k]).chained {
        Option::Some(t) => s[t as int].pos is None && s[t as int].source is None,
        Option::None => true,
    }
}

/// One note satisfies the board's structural rules; `n` is the note count.
pub open spec fn note_struct_ok(d: ObjectDescription, k: int, n: int) -> bool {
    &&& -TIME_LIMIT_MS <= d.starttime <= TIME_LIMIT_MS
    &&& 0 <= d.flytime <= TIME_LIMIT_MS
    &&& match d.duration {
        Option::Some(x) => 0 <= x <= TIME_LIMIT_MS,
        Option::None => true,
    }
    &&& match d.pos {
        Option::Some(p) => if d.object_type is Top {
            p < TOP_SLOT_COUNT
        } else {
            p < BOTTOM_SLOT_COUNT
        },
        Option::None => true,
    }
    &&& (d.object_type is Top || d.object_type is Vertical || d.object_type is Slide)
        ==> d.pos is Some
    &&& d.side < 2
    &&& match d.chained {
        Option::Some(t) => k < t < n,
        Option::None => true,
    }
    &&& match d.source {
        Option::Some(src) => src < k,
        Option::None => true,
    }
}

/// One slide attachment satisfies the board's structural rules: it hangs off
/// an existing note with an authored lane, in a bottom lane, at a time in
/// range.
pub open spec fn sopoint_struct_ok(p: SOPoint, objects: Seq<ObjectDescription>) -> bool {
    &&& p.noteid < objects.len()
    &&& objects[p.noteid as int].pos is Some
    &&& p.pos < BOTTOM_SLOT_COUNT
    &&& -TIME_LIMIT_MS <= p.starttime <= TIME_LIMIT_MS
    &&& 0 <= p.flytime <= TIME_LIMIT_MS
}

/// The whole description satisfies the structural rules the resolver needs:
/// everything it rejects with `InvariantViolation` when absent.
pub open spec fn structure_ok(
    objects: Seq<ObjectDescription>,
    sopoints: Seq<SOPoint>,
    bpm: Seq<i64>,
    delay: i64,
) -> bool {
    &&& objects.len() <= 0xffff_ffff
    &&& -TIME_LIMIT_MS <= delay <= TIME_LIMIT_MS
    &&& bpm.len() > 0 && 0 < bpm[0] <= BPM_LIMIT_MILLIBPM
    &&& forall|k: int| 0 <= k < objects.len() ==> note_struct_ok(
        #[trigger] objects[k],
        k,
        objects.len() as int,
    )
    &&& forall|q: int| 0 <= q < sopoints.len() ==> sopoint_struct_ok(
        #[trigger] sopoints[q],
        objects,
    )
}

/// The shape facts about a description that survive shifting its times: the
/// lanes fit their rows, the kinds that need a lane have one, the sides name
/// a board, every chain points forward and every source points backward.
pub open spec fn desc_shape_ok(s: Seq<ObjectDescription>) -> bool {
    forall|k: int|
        0 <= k < s.len() ==> {
            let d = #[trigger] s[k];
            &&& match d.pos {
                Option::Some(p) => if d.object_type is Top {
                    p < TOP_SLOT_COUNT
                } else {
                    p < BOTTOM_SLOT_COUNT
                },
                Option::None => true,
            }
            &&& (d.object_type is Top || d.object_type is Vertical || d.object_type is Slide)
                ==> d.pos is Some
            &&& d.side < 2
            &&& match d.chained {
                Option::Some(t) => k < t < s.len(),
                Option::None => true,
            }
            &&& match d.source {
                Option::Some(src) => src < k,
                Option::None => true,
            }
        }
}

/// The shape facts about slide attachments that survive shifting: each
/// hangs off a note with an authored lane, in a bottom lane, with its times
/// in the shifted range.
pub open spec fn sop_shape_ok(sop: Seq<SOPoint>, objects: Seq<ObjectDescription>) -> bool {
    forall|q: int|
        0 <= q < sop.len() ==> {
            let p = #[trigger] sop[q];
            &&& p.noteid < objects.len()
            &&& objects[p.noteid as int].pos is Some
            &&& p.pos < BOTTOM_SLOT_COUNT
            &&& -2 * TIME_LIMIT_MS <= p.starttime <= 2 * TIME_LIMIT_MS
            &&& 0 <= p.flytime <= TIME_LIMIT_MS
        }
}

/// `f` is `o` with `delay` added to every note's spawn time.
pub open spec fn delay_folded(
    o: Seq<ObjectDescription>,
    f: Seq<ObjectDescription>,
    delay: int,
) -> bool {
    &&& f.len() == o.len()
    &&& forall|k: int|
        0 <= k < o.len() ==> #[trigger] f[k] == (ObjectDescription {
            starttime: (o[k].starttime + delay) as i64,
            ..o[k]
        })
}

/// `f` is `o` with `delay` added to every attachment's spawn time.
pub open spec fn sopoints_folded(o: Seq<SOPoint>, f: Seq<SOPoint>, delay: int) -> bool {
    &&& f.len() == o.len()
    &&& forall|q: int|
        0 <= q < o.len() ==> #[trigger] f[q] == (SOPoint {
            starttime: (o[q].starttime + delay) as i64,
            ..o[q]
        })
}

/// Some note bonds `t` as its chain target.
pub open spec fn is_chain_target(d: Seq<ObjectDescription>, t: int) -> bool {
    exists|h: int| 0 <= h < d.len() && (#[trigger] d[h]).chained == Option::Some(t as u32)
}

/// `h` is the last note bonding `t` as its chain target: the one whose lane
/// and spawn point `t` inherits.
pub open spec fn chain_head_of(d: Seq<ObjectDescription>, t: int, h: int) -> bool {
    &&& 0 <= h < d.len() && d[h].chained == Option::Some(t as u32)
    &&& forall|h2: int| h < h2 < d.len() ==> (#[trigger] d[h2]).chained != Option::Some(t as u32)
}

/// `k0` is the first non-Top note reflected off `s`: the one whose
/// destination fixed the source's shared waypoint.
pub open spec fn first_reflectee(d: Seq<ObjectDescription>, s: int, k0: int) -> bool {
    &&& 0 <= k0 < d.len() && d[k0].source == Option::Some(s as u32) && !(d[k0].object_type is Top)
    &&& forall|k2: int|
        0 <= k2 < k0 ==> !((#[trigger] d[k2]).source == Option::Some(s as u32) && !(
        d[k2].object_type is Top))
}

/// `w` is one of the two board-edge points at its height, the height within
/// the drawing range, and the edge chosen to minimize the two-segment path
/// from `spawn` over the waypoint to `dest`.
pub open spec fn waypoint_choice_ok(w: Coord2d, spawn: Coord2d, dest: Coord2d) -> bool {
    &&& REFLECT_Y_MIN <= w.y <= REFLECT_Y_MAX
    &&& {
        let p1 = Coord2d { x: REFLECT_X_LEFT, y: w.y };
        let p2 = Coord2d { x: REFLECT_X_RIGHT, y: w.y };
        let d1 = dist(p1, spawn) + dist(p1, dest);
        let d2 = dist(p2, spawn) + dist(p2, dest);
        if d1 < d2 {
            w.x == REFLECT_X_LEFT
        } else {
            w.x == REFLECT_X_RIGHT
        }
    }
}

/// How many of the first `upto` notes belong to the player's board and are
/// chain targets: exactly one chain edge is rendered for each.
pub open spec fn count_chain_edges(d: Seq<ObjectDescription>, upto: int) -> int
    decreases upto,
{
    if upto <= 0 {
        0
    } else {
        count_chain_edges(d, upto - 1) + (if d[upto - 1].side == 0 && is_chain_target(
            d,
            upto - 1,
        ) {
            1int
        } else {
            0int
        })
    }
}

/// The greatest index below `from` whose note bonds `t` as its chain
/// target, or -1 when none does: the head a rendered edge for `t` joins.
#[verifier::opaque]
pub open spec fn last_writer(d: Seq<ObjectDescription>, t: int, from: int) -> int
    decreases from,
{
    if from <= 0 {
        -1
    } else if d[from - 1].chained == Option::Some(t as u32) {
        from - 1
    } else {
        last_writer(d, t, from - 1)
    }
}

/// What `last_writer` returns: the greatest bonding index below `from`, or
/// -1 exactly when no index below `from` bonds `t`.
proof fn lemma_last_writer_props(d: Seq<ObjectDescription>, t: int, from: int)
    requires
        0 <= from <= d.len(),
    ensures
        last_writer(d, t, from) >= 0 ==> last_writer(d, t, from) < from && d[last_writer(
            d,
            t,
            from,
        )].chained == Option::Some(t as u32) && (forall|h2: int|
            last_writer(d, t, from) < h2 < from ==> (#[trigger] d[h2]).chained != Option::Some(
                t as u32,
            )),
        last_writer(d, t, from) < 0 ==> forall|h2: int|
            0 <= h2 < from ==> (#[trigger] d[h2]).chained != Option::Some(t as u32),
    decreases from,
{
    reveal_with_fuel(last_writer, 2);
    if from > 0 {
        lemma_last_writer_props(d, t, from - 1);
    }
}

/// The chain edges of the first `upto` notes: one per chain target of the
/// player's board, its head the last note that bonded it.
#[verifier::opaque]
pub open spec fn expected_edges(
    d: Seq<ObjectDescription>,
    objs: Seq<Object>,
    upto: int,
) -> Seq<Chain>
    decreases upto,
{
    if upto <= 0 {
        Seq::<Chain>::empty()
    } else {
        let prefix = expected_edges(d, objs, upto - 1);
        if objs[upto - 1].side == 0 && last_writer(d, upto - 1, upto - 1) >= 0 {
            prefix.push(
                Chain { head: objs[last_writer(d, upto - 1, upto - 1)], tail: objs[upto - 1] },
            )
        } else {
            prefix
        }
    }
}

/// Adding a resolved note to the end disturbs no earlier edge.
proof fn lemma_expected_edges_push(
    d: Seq<ObjectDescription>,
    objs: Seq<Object>,
    o: Object,
    upto: int,
)
    requires
        0 <= upto <= objs.len(),
        upto <= d.len(),
    ensures
        expected_edges(d, objs.push(o), upto) == expected_edges(d, objs, upto),
    decreases upto,
{
    reveal_with_fuel(expected_edges, 2);
    if upto > 0 {
        lemma_expected_edges_push(d, objs, o, upto - 1);
        lemma_last_writer_props(d, upto - 1, upto - 1);
        assert(objs.push(o)[upto - 1] == objs[upto - 1]);
        if last_writer(d, upto - 1, upto - 1) >= 0 {
            assert(objs.push(o)[last_writer(d, upto - 1, upto - 1)] == objs[last_writer(
                d,
                upto - 1,
                upto - 1,
            )]);
        }
        assert(expected_edges(d, objs.push(o), upto) =~= expected_edges(d, objs, upto));
    } else {
        assert(expected_edges(d, objs.push(o), 0) =~= expected_edges(d, objs, 0));
    }
}

/// One authored slide attachment rendered as a path vertex: it spawns above
/// the window at its lane's column and lands at its lane's slot on the
/// player's board.
pub open spec fn slide_point_of(p: SOPoint) -> SlidePoint {
    SlidePoint {
        pos: p.pos,
        spawn_time: p.starttime,
        arrive_time: (p.starttime + p.flytime) as i64,
        spawn: Coord2d {
            x: (BOTTOM_SLOT_START_X + BOTTOM_SLOT_SPACING * p.pos) as i64,
            y: SPAWN_Y_POSITION,
        },
        dest: destination_spec(Objecttype::Slide, p.pos, 0),
    }
}

/// The slide path of one anchor: the anchor's own resolved geometry first,
/// then its attachments in authored order.
pub open spec fn parts_of(anchor: Object, anchor_pos: u32, pts: Seq<SOPoint>) -> Seq<SlidePoint> {
    seq![
        SlidePoint {
            pos: anchor_pos,
            spawn_time: anchor.spawn_time,
            arrive_time: anchor.arrive_time,
            spawn: anchor.spawn,
            dest: anchor.dest,
        },
    ] + pts.map_values(|p: SOPoint| slide_point_of(p))
}

/// The slide attachments anchored at note `id`, in authored order.
pub open spec fn attached_points(sop: Seq<SOPoint>, id: int) -> Seq<SOPoint>
    decreases sop.len(),
{
    if sop.len() == 0 {
        Seq::<SOPoint>::empty()
    } else {
        let rest = attached_points(sop.drop_first(), id);
        if sop[0].noteid == id {
            seq![sop[0]] + rest
        } else {
            rest
        }
    }
}

/// The authored lane of note `id`, or lane 0 where none is authored.
pub open spec fn apos_of(d: Seq<ObjectDescription>, id: int) -> u32 {
    match d[id].pos {
        Option::Some(p) => p,
        Option::None => 0u32,
    }
}

/// The slide paths of the first `upto` notes: one per anchor of the
/// player's board with at least one attachment, in note order.
pub open spec fn expected_parts_list(
    d: Seq<ObjectDescription>,
    objs: Seq<Object>,
    sop: Seq<SOPoint>,
    upto: int,
) -> Seq<Seq<SlidePoint>>
    decreases upto,
{
    if upto <= 0 {
        Seq::<Seq<SlidePoint>>::empty()
    } else {
        let prefix = expected_parts_list(d, objs, sop, upto - 1);
        if objs[upto - 1].side == 0 && attached_points(sop, upto - 1).len() > 0 {
            prefix.push(parts_of(objs[upto - 1], apos_of(d, upto - 1), attached_points(sop, upto - 1)))
        } else {
            prefix
        }
    }
}

/// Appending an attachment extends its own anchor's list and no other's.
proof fn lemma_attached_push(sop: Seq<SOPoint>, x: SOPoint, id: int)
    ensures
        attached_points(sop.push(x), id) == attached_points(sop, id) + (if x.noteid == id {
            seq![x]
        } else {
            Seq::<SOPoint>::empty()
        }),
    decreases sop.len(),
{
    if sop.len() == 0 {
        assert(sop.push(x).drop_first() =~= Seq::<SOPoint>::empty());
        assert(sop.push(x)[0] == x);
        assert(attached_points(Seq::<SOPoint>::empty(), id) == Seq::<SOPoint>::empty());
        assert(attached_points(sop.push(x), id) =~= attached_points(sop, id) + (if x.noteid == id {
            seq![x]
        } else {
            Seq::<SOPoint>::empty()
        }));
    } else {
        assert(sop.push(x)[0] == sop[0]);
        assert(sop.push(x).drop_first() =~= sop.drop_first().push(x));
        lemma_attached_push(sop.drop_first(), x, id);
        assert(attached_points(sop.push(x), id) =~= attached_points(sop, id) + (if x.noteid == id {
            seq![x]
        } else {
            Seq::<SOPoint>::empty()
        }));
    }
}

/// Two lists holding the same slide paths hold the same part sequences.
proof fn lemma_parts_multiset(s1: Seq<Slider>, s2: Seq<Slider>)
    requires
        s1.to_multiset() == s2.to_multiset(),
    ensures
        s1.map_values(|s: Slider| s.parts@).to_multiset() == s2.map_values(
            |s: Slider| s.parts@,
        ).to_multiset(),
    decreases s1.len(),
{
    broadcast use vstd::seq_lib::group_to_multiset_ensures;

    let f = |s: Slider| s.parts@;
    if s1.len() == 0 {
        assert(s2.to_multiset().len() == 0);
        assert(s1.map_values(f) =~= s2.map_values(f));
    } else {
        let e = s1[0];
        assert(s1.contains(e));
        assert(s2.to_multiset().count(e) > 0);
        assert(s2.contains(e));
        let i = choose|i: int| 0 <= i < s2.len() && s2[i] == e;
        let s1r = s1.remove(0);
        let s2r = s2.remove(i);
        assert(s1r.to_multiset() == s1.to_multiset().remove(e));
        assert(s2r.to_multiset() == s2.to_multiset().remove(e));
        lemma_parts_multiset(s1r, s2r);
        assert(s1.remove(0).map_values(f) =~= s1.map_values(f).remove(0));
        assert(s2.remove(i).map_values(f) =~= s2.map_values(f).remove(i));
        let m1 = s1.map_values(f).to_multiset();
        let m2 = s2.map_values(f).to_multiset();
        assert(s1.map_values(f).remove(0).to_multiset() == m1.remove(s1.map_values(f)[0]));
        assert(s2.map_values(f).remove(i).to_multiset() == m2.remove(s2.map_values(f)[i]));
        assert(s1.map_values(f)[0] == f(e));
        assert(s2.map_values(f)[i] == f(e));
        assert(s1.map_values(f).contains(f(e)));
        assert(s2.map_values(f).contains(f(e)));
        assert(m1.count(f(e)) > 0);
        assert(m2.count(f(e)) > 0);
        assert(m1.remove(f(e)) == m2.remove(f(e)));
        assert(m1 =~= m2) by {
            assert forall|x: Seq<SlidePoint>| true implies m1.count(x) == m2.count(x) by {
                if x == f(e) {
                    assert(m1.count(x) == m1.remove(f(e)).count(x) + 1);
                    assert(m2.count(x) == m2.remove(f(e)).count(x) + 1);
                } else {
                    assert(m1.count(x) == m1.remove(f(e)).count(x));
                    assert(m2.count(x) == m2.remove(f(e)).count(x));
                }
            }
        }
    }
}

/// `w` is the arrival time of some note of the chart.
pub open spec fn warning_named(d: Seq<ObjectDescription>, w: i64) -> bool {
    exists|k2: int| 0 <= k2 < d.len() && w == arrive_of(#[trigger] d[k2])
}

/// What resolution promises of the note at `k`, given the (delay-folded)
/// description `d`: its times and kind are the description's, its lane obeys
/// its row and the authored lane when there is one, its destination is the
/// lane's, its chord flag says whether another note of its board arrives
/// with it, a reflected note starts at its source's destination, a chain
/// target inherits its last head's lane and spawn point, and every other
/// note spawns above the window at its kind's column.
pub open spec fn note_resolved_ok(d: Seq<ObjectDescription>, objs: Seq<Object>, k: int) -> bool {
    let o = objs[k];
    let dk = d[k];
    &&& o.spawn_time == dk.starttime
    &&& o.arrive_time == arrive_of(dk)
    &&& o.objtype == dk.object_type
    &&& o.side == dk.side
    &&& o.duration == dk.duration
    &&& o.dest == destination_spec(dk.object_type, o.pos, dk.side)
    &&& o.pos < BOTTOM_SLOT_COUNT
    &&& (dk.object_type is Top ==> o.pos < TOP_SLOT_COUNT)
    &&& match dk.pos {
        Option::Some(p) => o.pos == p,
        Option::None => true,
    }
    &&& o.reflect is Some
    &&& object_well_formed(o)
    &&& o.chord == is_chord(d, k)
    &&& match dk.source {
        Option::Some(s) => o.spawn == objs[s as int].dest,
        Option::None => if is_chain_target(d, k) {
            exists|h: int| #[trigger] chain_head_of(d, k, h) && o.spawn == objs[h].spawn
        } else {
            match dk.object_type {
                Objecttype::Top => o.spawn == (Coord2d {
                    x: (TOP_SPAWN_X_START + TOP_SPAWN_X_SPACING * o.pos) as i64,
                    y: SPAWN_Y_POSITION,
                }),
                Objecttype::Vertical => o.spawn == (Coord2d {
                    x: (BOTTOM_SLOT_START_X + BOTTOM_SLOT_SPACING * o.pos) as i64,
                    y: SPAWN_Y_POSITION,
                }),
                Objecttype::Slide => o.spawn == (Coord2d {
                    x: (BOTTOM_SLOT_START_X + BOTTOM_SLOT_SPACING * o.pos) as i64,
                    y: SPAWN_Y_POSITION,
                }),
                Objecttype::Normal => o.spawn.y == SPAWN_Y_POSITION && SPAWN_X_MIN <= o.spawn.x
                    <= SPAWN_X_MAX,
            }
        },
    }
    &&& (dk.pos is None && is_chain_target(d, k)) ==> exists|h: int|
        #[trigger] chain_head_of(d, k, h) && o.pos == objs[h].pos
}

/// Reflected notes of one source share one waypoint: any two non-Top notes
/// naming the same source carry equal reflect coordinates.
pub open spec fn reflect_shared_ok(d: Seq<ObjectDescription>, objs: Seq<Object>) -> bool {
    forall|k1: int, k2: int|
        0 <= k1 < d.len() && 0 <= k2 < d.len() && (#[trigger] d[k1]).source is Some && (
        #[trigger] d[k2]).source is Some && d[k1].source == d[k2].source && !(objs[k1].objtype
            is Top) && !(objs[k2].objtype is Top) ==> objs[k1].reflect == objs[k2].reflect
}

/// A rendered chain edge joins a note to the chain target it bonded: when
/// the target's lane and spawn were not overridden by an authored lane or a
/// reflection source, it inherited both from its head.
pub open spec fn chain_edge_ok(c: Chain, objs: Seq<Object>, d: Seq<ObjectDescription>) -> bool {
    exists|h: int, t: int|
        #![trigger objs[h], objs[t]]
        0 <= h < t < objs.len() && t < d.len() && c.head == objs[h] && c.tail == objs[t]
            && d[h].chained == Option::Some(t as u32) && ((d[t].pos is None && d[t].source
            is None) ==> (objs[t].pos == objs[h].pos && objs[t].spawn == objs[h].spawn))
}

/// A slide path starts at a resolved anchor of the player's board and
/// continues with attached points in bottom lanes, each spawning above the
/// window and landing at its lane's slot.
pub open spec fn slider_parts_ok(s: Slider, objs: Seq<Object>) -> bool {
    &&& s.parts@.len() >= 1
    &&& exists|a: int|
        0 <= a < objs.len() && (#[trigger] objs[a]).side == 0 && s.parts@[0].spawn_time == objs[a].spawn_time
            && s.parts@[0].arrive_time == objs[a].arrive_time && s.parts@[0].spawn == objs[a].spawn
            && s.parts@[0].dest == objs[a].dest
    &&& forall|pi: int|
        1 <= pi < s.parts@.len() ==> {
            let p = #[trigger] s.parts@[pi];
            &&& p.pos < BOTTOM_SLOT_COUNT
            &&& p.spawn.x == BOTTOM_SLOT_START_X + BOTTOM_SLOT_SPACING * p.pos
            &&& p.spawn.y == SPAWN_Y_POSITION
            &&& p.dest == destination_spec(Objecttype::Slide, p.pos, 0)
        }
    &&& forall|pi: int| 0 <= pi < s.parts@.len() ==> slide_point_well_formed(
        #[trigger] s.parts@[pi],
    )
}

/// Everything resolution promises of its output, given the delay-folded
/// description: see the parts' own descriptions.
pub open spec fn resolved_ok(
    d: Seq<ObjectDescription>,
    sop: Seq<SOPoint>,
    f: Fumen,
    bpm0: int,
    delay: int,
    song_offset: int,
) -> bool {
    &&& f.objects@.len() == d.len()
    &&& forall|k: int| 0 <= k < d.len() ==> #[trigger] note_resolved_ok(d, f.objects@, k)
    &&& forall|i: int, j: int|
        0 <= i < j < d.len() ==> (#[trigger] f.objects@[i]).arrive_time <= (
        #[trigger] f.objects@[j]).arrive_time
    &&& reflect_shared_ok(d, f.objects@)
    &&& forall|ci: int|
        0 <= ci < f.chains@.len() ==> chain_edge_ok(#[trigger] f.chains@[ci], f.objects@, d) && f.chains@[ci].tail.side
            == 0
    &&& f.chains@.len() == count_chain_edges(d, d.len() as int)
    &&& f.chains@.to_multiset() == expected_edges(d, f.objects@, d.len() as int).to_multiset()
    &&& forall|p: int, q: int|
        0 <= p < q < f.chains@.len() ==> (#[trigger] f.chains@[p]).head.arrive_time <= (
        #[trigger] f.chains@[q]).head.arrive_time
    &&& forall|k: int|
        0 <= k < d.len() && (#[trigger] d[k]).source is Some && !(f.objects@[k].objtype
            is Top) ==> {
            let src = d[k].source->Some_0;
            exists|k0: int|
                #[trigger] first_reflectee(d, src as int, k0) && match f.objects@[k].reflect {
                    Option::Some(w) => waypoint_choice_ok(
                        w,
                        f.objects@[src as int].dest,
                        f.objects@[k0].dest,
                    ),
                    Option::None => false,
                }
        }
    &&& forall|wi: int| 0 <= wi < f.overlap_warnings@.len() ==> warning_named(
        d,
        #[trigger] f.overlap_warnings@[wi],
    )
    &&& forall|si: int| 0 <= si < f.sliders@.len() ==> slider_parts_ok(
        #[trigger] f.sliders@[si],
        f.objects@,
    )
    &&& f.sliders@.map_values(|s: Slider| s.parts@).to_multiset() == expected_parts_list(
        d,
        f.objects@,
        sop,
        d.len() as int,
    ).to_multiset()
    &&& forall|p: int, q: int|
        0 <= p < q < f.sliders@.len() ==> (#[trigger] f.sliders@[p]).parts@[0].spawn_time <= (
        #[trigger] f.sliders@[q]).parts@[0].spawn_time
    &&& f.current == 0 && f.currentchain == 0 && f.currentslider == 0
    &&& f.playing == false && f.song_start_time == 0
    &&& f.delay == delay && f.song_offset == song_offset && f.bpm == bpm0
    &&& f.ms_per_measure == MS_PER_MEASURE_DIVIDEND as int / bpm0
}

/// When every chain target of a chart is a plain note — no authored lane, no
/// reflection source — every rendered chain edge shares its lane and its
/// spawn point between head and tail.
#[verifier::rlimit(50)]
pub proof fn lemma_chain_edges_share_geometry(d: Seq<ObjectDescription>, objs: Seq<Object>, c: Chain)
    requires
        d.len() <= 0xffff_ffff,
        chain_targets_plain(d),
        chain_edge_ok(c, objs, d),
    ensures
        c.head.pos == c.tail.pos,
        c.head.spawn == c.tail.spawn,
{
    let (h, t) = choose|h: int, t: int|
        #![trigger objs[h], objs[t]]
        0 <= h < t < objs.len() && t < d.len() && c.head == objs[h] && c.tail == objs[t]
            && d[h].chained == Option::Some(t as u32) && ((d[t].pos is None && d[t].source
            is None) ==> (objs[t].pos == objs[h].pos && objs[t].spawn == objs[h].spawn));
    assert(d[h].chained == Option::Some(t as u32));
    assert((t as u32) as int == t);
    assert(d[t as int].pos is None && d[t as int].source is None);
}

/// The length of one measure (four beats), in milliseconds.
pub fn ms_per_measure(millibpm: i64) -> (r: i64)
    requires
        0 < millibpm,
    ensures
        r == MS_PER_MEASURE_DIVIDEND / millibpm,
{
    MS_PER_MEASURE_DIVIDEND / millibpm
}

/// How long, in milliseconds, a released lane stays counted as occupied:
/// half a beat.
pub fn occupy_guard_ms(millibpm: i64) -> (r: i64)
    requires
        0 < millibpm,
    ensures
        r == AVOID_WINDOW_MS_MILLIBPM / millibpm,
        0 <= r <= AVOID_WINDOW_MS_MILLIBPM,
{
    AVOID_WINDOW_MS_MILLIBPM / millibpm
}

/// Relies on the `format` macro of std: renders "low-high" for the HUD's
/// tempo-range text.
#[verifier::external_body]
fn bpm_range_text(minbpm: i64, maxbpm: i64) -> String {
    format!("{}-{}", minbpm, maxbpm)
}

/// A scheduled release of a lane: after `time`, the count of `pos` on board
/// `side` moves by `delta`.
#[derive(Clone, Copy, Debug)]
pub struct OccupyEvent {
    pub time: i64,
    pub side: u32,
    pub pos: u32,
    pub delta: i64,
}

/// How many pending events of `evs` release lane `lane` of board `side`.
pub open spec fn count_events(evs: Seq<OccupyEvent>, side: u32, lane: u32) -> int
    decreases evs.len(),
{
    if evs.len() == 0 {
        0
    } else {
        (if evs[0].side == side && evs[0].pos == lane {
            1int
        } else {
            0int
        }) + count_events(evs.drop_first(), side, lane)
    }
}

/// Appending an event adds its own contribution to the count.
proof fn lemma_count_push(evs: Seq<OccupyEvent>, e: OccupyEvent, side: u32, lane: u32)
    ensures
        count_events(evs.push(e), side, lane) == count_events(evs, side, lane) + (
        if e.side == side && e.pos == lane {
            1int
        } else {
            0int
        }),
    decreases evs.len(),
{
    if evs.len() == 0 {
        assert(evs.push(e)[0] == e);
        assert(evs.push(e).drop_first() =~= Seq::<OccupyEvent>::empty());
        assert(count_events(Seq::<OccupyEvent>::empty(), side, lane) == 0);
        assert(count_events(evs, side, lane) == 0);
    } else {
        assert(evs.push(e)[0] == evs[0]);
        assert(evs.push(e).drop_first() =~= evs.drop_first().push(e));
        lemma_count_push(evs.drop_first(), e, side, lane);
    }
}

/// A count of events is between zero and the number of events.
proof fn lemma_count_bounds(evs: Seq<OccupyEvent>, side: u32, lane: u32)
    ensures
        0 <= count_events(evs, side, lane) <= evs.len(),
    decreases evs.len(),
{
    if evs.len() > 0 {
        lemma_count_bounds(evs.drop_first(), side, lane);
    }
}

/// Every event is a single release of a lane of one of the two boards.
pub open spec fn events_shaped(evs: Seq<OccupyEvent>) -> bool {
    forall|k: int| 0 <= k < evs.len() ==> (#[trigger] evs[k]).side < 2 && evs[k].pos
        < BOTTOM_SLOT_COUNT && evs[k].delta == -1
}

/// The occupation counts mirror the pending events exactly: lane `l` of
/// board `s` is counted occupied once per pending release.
pub open spec fn occupied_matches(occ: Seq<i64>, evs: Seq<OccupyEvent>) -> bool {
    &&& occ.len() == 2 * BOTTOM_SLOT_COUNT
    &&& forall|s: u32, l: u32| s < 2 && l < BOTTOM_SLOT_COUNT ==> #[trigger] occ[s * BOTTOM_SLOT_COUNT + l]
        == count_events(evs, s, l)
}

/// Apply every expired release on board `side`: each event there with a time
/// before `now` leaves the queue and frees its lane.
fn drain_events(events: &mut Vec<OccupyEvent>, occupied: &mut Vec<i64>, side: u32, now: i64)
    requires
        side < 2,
        events_shaped(old(events)@),
        occupied_matches(old(occupied)@, old(events)@),
    ensures
        events_shaped(final(events)@),
        occupied_matches(final(occupied)@, final(events)@),
        final(events)@.len() <= old(events)@.len(),
{
    let n = events.len();
    let mut kept: Vec<OccupyEvent> = Vec::new();
    proof {
        assert(Seq::<OccupyEvent>::empty() + events@.subrange(0, n as int) =~= events@);
    }
    let mut i: usize = 0;
    while i < n
        invariant
            side < 2,
            n == events@.len(),
            i <= n,
            events_shaped(events@),
            events_shaped(kept@),
            kept@.len() <= i,
            occupied_matches(
                occupied@,
                kept@ + events@.subrange(i as int, n as int),
            ),
        decreases n - i,
    {
        let e = events[i];
        let ghost pending = kept@ + events@.subrange(i as int, n as int);
        let ghost pending_next = kept@ + events@.subrange(i + 1, n as int);
        proof {
            assert(events@.subrange(i as int, n as int)[0] == e);
            assert(events@.subrange(i as int, n as int).drop_first() =~= events@.subrange(
                i + 1,
                n as int,
            ));
        }
        if e.side == side && e.time < now {
            let idx = (e.side * BOTTOM_SLOT_COUNT + e.pos) as usize;
            proof {
                lemma_count_bounds(kept@, e.side, e.pos);
                lemma_count_bounds(events@.subrange(i + 1, n as int), e.side, e.pos);
                assert forall|s: u32, l: u32| s < 2 && l < BOTTOM_SLOT_COUNT implies count_events(
                    pending,
                    s,
                    l,
                ) == count_events(pending_next, s, l) + (if e.side == s && e.pos == l {
                    1int
                } else {
                    0int
                }) by {
                    lemma_count_concat(kept@, events@.subrange(i as int, n as int), s, l);
                    lemma_count_concat(kept@, events@.subrange(i + 1, n as int), s, l);
                }
            }
            proof {
                assert(e.delta == -1);
                lemma_count_bounds(pending_next, e.side, e.pos);
                lemma_count_bounds(pending, e.side, e.pos);
                assert(count_events(pending, e.side, e.pos) >= 1);
            }
            let v = occupied[idx];
            occupied.set(idx, v + e.delta);
        } else {
            proof {
                assert forall|s: u32, l: u32| s < 2 && l < BOTTOM_SLOT_COUNT implies count_events(
                    pending,
                    s,
                    l,
                ) == count_events(kept@.push(e) + events@.subrange(i + 1, n as int), s, l) by {
                    lemma_count_concat(kept@, events@.subrange(i as int, n as int), s, l);
                    lemma_count_concat(kept@.push(e), events@.subrange(i + 1, n as int), s, l);
                    lemma_count_push(kept@, e, s, l);
                }
            }
            kept.push(e);
        }
        i = i + 1;
    }
    proof {
        assert(kept@ + events@.subrange(n as int, n as int) =~= kept@);
    }
    *events = kept;
}

/// One Vertical note's arrival, kept aside so generated notes can avoid the
/// lane it will need.
#[derive(Clone, Copy, Debug)]
pub struct VoTime {
    pub side: u32,
    pub time: i64,
    pub pos: u32,
}

/// Whether one note satisfies the structural rules; see [`note_struct_ok`].
fn note_struct_check(d: &ObjectDescription, k: usize, n: usize) -> (r: bool)
    ensures
        r == note_struct_ok(*d, k as int, n as int),
{
    if !(-TIME_LIMIT_MS <= d.starttime && d.starttime <= TIME_LIMIT_MS) {
        return false;
    }
    if !(0 <= d.flytime && d.flytime <= TIME_LIMIT_MS) {
        return false;
    }
    match d.duration {
        Some(x) => {
            if !(0 <= x && x <= TIME_LIMIT_MS) {
                return false;
            }
        },
        None => {},
    }
    match d.pos {
        Some(p) => {
            let limit = if matches!(d.object_type, Objecttype::Top) {
                TOP_SLOT_COUNT
            } else {
                BOTTOM_SLOT_COUNT
            };
            if p >= limit {
                return false;
            }
        },
        None => {
            if !matches!(d.object_type, Objecttype::Normal) {
                return false;
            }
        },
    }
    if d.side >= 2 {
        return false;
    }
    match d.chained {
        Some(t) => {
            if !(k < t as usize && (t as usize) < n) {
                return false;
            }
        },
        None => {},
    }
    match d.source {
        Some(src) => {
            if src as usize >= k {
                return false;
            }
        },
        None => {},
    }
    true
}

impl FumenDescription {
    /// Whether the description satisfies every structural rule the resolver
    /// needs; resolution refuses the chart otherwise.
    pub fn structure_valid(&self) -> (r: bool)
        ensures
            r == structure_ok(self.objects@, self.sopoints@, self.bpm@, self.delay),
    {
        let n = self.objects.len();
        if n as u64 > 0xffff_ffffu64 {
            return false;
        }
        if !(-TIME_LIMIT_MS <= self.delay && self.delay <= TIME_LIMIT_MS) {
            return false;
        }
        if self.bpm.len() == 0 {
            return false;
        }
        let b0 = self.bpm[0];
        if !(0 < b0 && b0 <= BPM_LIMIT_MILLIBPM) {
            return false;
        }
        let mut k: usize = 0;
        while k < n
            invariant
                n == self.objects@.len(),
                k <= n,
                forall|p: int| 0 <= p < k ==> note_struct_ok(
                    #[trigger] self.objects@[p],
                    p,
                    n as int,
                ),
            decreases n - k,
        {
            if !note_struct_check(&self.objects[k], k, n) {
                return false;
            }
            k = k + 1;
        }
        let nso = self.sopoints.len();
        let mut q: usize = 0;
        while q < nso
            invariant
                n == self.objects@.len(),
                nso == self.sopoints@.len(),
                q <= nso,
                forall|p: int| 0 <= p < q ==> sopoint_struct_ok(
                    #[trigger] self.sopoints@[p],
                    self.objects@,
                ),
            decreases nso - q,
        {
            let p = self.sopoints[q];
            if p.noteid as usize >= n {
                return false;
            }
            if matches!(self.objects[p.noteid as usize].pos, None) {
                return false;
            }
            if p.pos >= BOTTOM_SLOT_COUNT {
                return false;
            }
            if !(-TIME_LIMIT_MS <= p.starttime && p.starttime <= TIME_LIMIT_MS) {
                return false;
            }
            if !(0 <= p.flytime && p.flytime <= TIME_LIMIT_MS) {
                return false;
            }
            q = q + 1;
        }
        true
    }
}

/// Some entry of the mask list names lane `l`.
pub open spec fn mask_lists_lane(poslist: Seq<Option<u32>>, l: u32) -> bool {
    exists|q: int| 0 <= q < poslist.len() && #[trigger] poslist[q] == Option::Some(l)
}

/// Count one avoidance vote for each lane named in `poslist`: a lane's
/// count stays zero exactly when it was zero and the list does not name it.
fn apply_mask(adj: &mut Vec<i64>, poslist: &Vec<Option<u32>>)
    requires
        old(adj)@.len() == BOTTOM_SLOT_COUNT,
        forall|l: int| 0 <= l < BOTTOM_SLOT_COUNT ==> 0 <= #[trigger] old(adj)@[l]
            <= 0x1000_0000_0000,
        forall|k: int| 0 <= k < poslist@.len() ==> match #[trigger] poslist@[k] {
            Option::Some(p) => p < BOTTOM_SLOT_COUNT,
            Option::None => true,
        },
        poslist@.len() <= 0x2_0000_0000,
    ensures
        final(adj)@.len() == BOTTOM_SLOT_COUNT,
        forall|l: int| 0 <= l < BOTTOM_SLOT_COUNT ==> old(adj)@[l] <= #[trigger] final(adj)@[l]
            <= old(adj)@[l] + poslist@.len(),
        forall|l: u32|
            l < BOTTOM_SLOT_COUNT ==> ((#[trigger] final(adj)@[l as int]) == 0 <==> (old(
                adj,
            )@[l as int] == 0 && !mask_lists_lane(poslist@, l))),
{
    let m = poslist.len();
    let mut k: usize = 0;
    while k < m
        invariant
            m == poslist@.len(),
            m <= 0x2_0000_0000,
            k <= m,
            adj@.len() == BOTTOM_SLOT_COUNT,
            forall|l: int| 0 <= l < BOTTOM_SLOT_COUNT ==> 0 <= #[trigger] old(adj)@[l]
                <= 0x1000_0000_0000,
            forall|q: int| 0 <= q < poslist@.len() ==> match #[trigger] poslist@[q] {
                Option::Some(p) => p < BOTTOM_SLOT_COUNT,
                Option::None => true,
            },
            forall|l: int| 0 <= l < BOTTOM_SLOT_COUNT ==> old(adj)@[l] <= #[trigger] adj@[l]
                <= old(adj)@[l] + k,
            forall|l: u32|
                l < BOTTOM_SLOT_COUNT ==> ((#[trigger] adj@[l as int]) == 0 <==> (old(
                    adj,
                )@[l as int] == 0 && !mask_lists_lane(poslist@.take(k as int), l))),
        decreases m - k,
    {
        let ghost before = adj@;
        match poslist[k] {
            Some(p) => {
                let v = adj[p as usize];
                adj.set(p as usize, v + 1);
            },
            None => {},
        }
        proof {
            assert(poslist@.take(k + 1) =~= poslist@.take(k as int).push(poslist@[k as int]));
            assert forall|l: u32|
                l < BOTTOM_SLOT_COUNT implies ((#[trigger] adj@[l as int]) == 0 <==> (old(
                adj,
            )@[l as int] == 0 && !mask_lists_lane(poslist@.take(k + 1), l))) by {
                if mask_lists_lane(poslist@.take(k + 1), l) {
                    let q = choose|q: int|
                        0 <= q < poslist@.take(k + 1).len() && #[trigger] poslist@.take(k + 1)[q]
                            == Option::Some(l);
                    if q < k {
                        assert(poslist@.take(k as int)[q] == Option::Some(l));
                        assert(mask_lists_lane(poslist@.take(k as int), l));
                    } else {
                        assert(poslist@[k as int] == Option::Some(l));
                    }
                } else {
                    assert(!mask_lists_lane(poslist@.take(k as int), l)) by {
                        if mask_lists_lane(poslist@.take(k as int), l) {
                            let q = choose|q: int|
                                0 <= q < poslist@.take(k as int).len() && #[trigger] poslist@.take(
                                    k as int,
                                )[q] == Option::Some(l);
                            assert(poslist@.take(k + 1)[q] == Option::Some(l));
                            assert(mask_lists_lane(poslist@.take(k + 1), l));
                        }
                    }
                    assert(poslist@[k as int] != Option::Some(l)) by {
                        if poslist@[k as int] == Option::Some(l) {
                            assert(poslist@.take(k + 1)[k as int] == Option::Some(l));
                            assert(mask_lists_lane(poslist@.take(k + 1), l));
                        }
                    }
                    assert(adj@[l as int] == before[l as int]);
                }
            }
        }
        k = k + 1;
    }
    proof {
        assert(poslist@.take(m as int) =~= poslist@);
    }
}

/// Count one avoidance vote for each Vertical note of board `side` arriving
/// in the window `[from, to]`.
fn apply_vo_mask(adj: &mut Vec<i64>, vos: &Vec<VoTime>, side: u32, from: i64, to: i64)
    requires
        old(adj)@.len() == BOTTOM_SLOT_COUNT,
        forall|l: int| 0 <= l < BOTTOM_SLOT_COUNT ==> 0 <= #[trigger] old(adj)@[l]
            <= 0x1000_0000_0000,
        forall|k: int| 0 <= k < vos@.len() ==> (#[trigger] vos@[k]).pos < BOTTOM_SLOT_COUNT,
        vos@.len() <= 0x2_0000_0000,
    ensures
        final(adj)@.len() == BOTTOM_SLOT_COUNT,
        forall|l: int| 0 <= l < BOTTOM_SLOT_COUNT ==> old(adj)@[l] <= #[trigger] final(adj)@[l]
            <= old(adj)@[l] + vos@.len(),
{
    let m = vos.len();
    let mut k: usize = 0;
    while k < m
        invariant
            m == vos@.len(),
            m <= 0x2_0000_0000,
            k <= m,
            adj@.len() == BOTTOM_SLOT_COUNT,
            forall|l: int| 0 <= l < BOTTOM_SLOT_COUNT ==> 0 <= #[trigger] old(adj)@[l]
                <= 0x1000_0000_0000,
            forall|q: int| 0 <= q < vos@.len() ==> (#[trigger] vos@[q]).pos < BOTTOM_SLOT_COUNT,
            forall|l: int| 0 <= l < BOTTOM_SLOT_COUNT ==> old(adj)@[l] <= #[trigger] adj@[l]
                <= old(adj)@[l] + k,
        decreases m - k,
    {
        let vo = vos[k];
        if vo.side == side && from <= vo.time && vo.time <= to {
            let v = adj[vo.pos as usize];
            adj.set(vo.pos as usize, v + 1);
        }
        k = k + 1;
    }
}

/// Some lane of the board starting at `base` is free of occupations and
/// avoidance votes.
pub open spec fn lane_free_exists(occ: Seq<i64>, base: int, adj: Seq<i64>) -> bool {
    exists|l: int| 0 <= l < BOTTOM_SLOT_COUNT && #[trigger] occ[base + l] + adj[l] == 0
}

/// Choose a free lane, scanning from `start` and wrapping around, so the
/// search is bounded by the lane count. When no lane is free the draw
/// stands, and the second component reports the exhaustion.
fn pick_free_lane(occupied: &Vec<i64>, base: usize, adj: &Vec<i64>, start: u32) -> (res: (
    u32,
    bool,
))
    requires
        occupied@.len() == 2 * BOTTOM_SLOT_COUNT,
        base == 0 || base == BOTTOM_SLOT_COUNT,
        adj@.len() == BOTTOM_SLOT_COUNT,
        start < BOTTOM_SLOT_COUNT,
        forall|l: int| 0 <= l < 2 * BOTTOM_SLOT_COUNT ==> 0 <= #[trigger] occupied@[l]
            <= 0x2000_0000_0000,
        forall|l: int| 0 <= l < BOTTOM_SLOT_COUNT ==> 0 <= #[trigger] adj@[l] <= 0x2000_0000_0000,
    ensures
        res.0 < BOTTOM_SLOT_COUNT,
        lane_free_exists(occupied@, base as int, adj@) ==> !res.1 && occupied@[base + res.0]
            + adj@[res.0 as int] == 0,
        !lane_free_exists(occupied@, base as int, adj@) ==> res.1 && res.0 == start,
{
    let mut l: usize = start as usize;
    while l < BOTTOM_SLOT_COUNT as usize
        invariant
            occupied@.len() == 2 * BOTTOM_SLOT_COUNT,
            base == 0 || base == BOTTOM_SLOT_COUNT,
            adj@.len() == BOTTOM_SLOT_COUNT,
            start as usize <= l,
            forall|w: int| 0 <= w < 2 * BOTTOM_SLOT_COUNT ==> 0 <= #[trigger] occupied@[w]
                <= 0x2000_0000_0000,
            forall|w: int| 0 <= w < BOTTOM_SLOT_COUNT ==> 0 <= #[trigger] adj@[w]
                <= 0x2000_0000_0000,
            forall|w: int| start <= w < l ==> #[trigger] occupied@[base + w] + adj@[w] != 0,
        decreases BOTTOM_SLOT_COUNT as usize - l,
    {
        if occupied[base + l] + adj[l] == 0 {
            return (l as u32, false);
        }
        l = l + 1;
    }
    let mut l: usize = 0;
    while l < start as usize
        invariant
            occupied@.len() == 2 * BOTTOM_SLOT_COUNT,
            base == 0 || base == BOTTOM_SLOT_COUNT,
            adj@.len() == BOTTOM_SLOT_COUNT,
            start < BOTTOM_SLOT_COUNT,
            l <= start as usize,
            forall|w: int| 0 <= w < 2 * BOTTOM_SLOT_COUNT ==> 0 <= #[trigger] occupied@[w]
                <= 0x2000_0000_0000,
            forall|w: int| 0 <= w < BOTTOM_SLOT_COUNT ==> 0 <= #[trigger] adj@[w]
                <= 0x2000_0000_0000,
            forall|w: int| start <= w < BOTTOM_SLOT_COUNT ==> #[trigger] occupied@[base + w]
                + adj@[w] != 0,
            forall|w: int| 0 <= w < l ==> #[trigger] occupied@[base + w] + adj@[w] != 0,
        decreases start as usize - l,
    {
        if occupied[base + l] + adj[l] == 0 {
            return (l as u32, false);
        }
        l = l + 1;
    }
    (start, true)
}

/// Choose the reflection waypoint for a source: of the two board-edge points
/// at height `ry`, the one whose two-segment path from spawn to destination
/// is the shorter.
fn choose_reflect(spawn: Coord2d, dest: Coord2d, ry: i64) -> (w: (i64, i64))
    requires
        -BOARD_LIMIT <= spawn.x <= BOARD_LIMIT && -BOARD_LIMIT <= spawn.y <= BOARD_LIMIT,
        -BOARD_LIMIT <= dest.x <= BOARD_LIMIT && -BOARD_LIMIT <= dest.y <= BOARD_LIMIT,
        REFLECT_Y_MIN <= ry <= REFLECT_Y_MAX,
    ensures
        w.1 == ry,
        -BOARD_LIMIT <= w.0 <= BOARD_LIMIT,
        waypoint_choice_ok(Coord2d { x: w.0, y: w.1 }, spawn, dest),
{
    let p1 = Coord2d { x: REFLECT_X_LEFT, y: ry };
    let p2 = Coord2d { x: REFLECT_X_RIGHT, y: ry };
    let d1 = p1.distance(&spawn) + p1.distance(&dest);
    let d2 = p2.distance(&spawn) + p2.distance(&dest);
    if d1 < d2 {
        (REFLECT_X_LEFT, ry)
    } else {
        (REFLECT_X_RIGHT, ry)
    }
}

/// A table of `n` empty lane slots.
fn none_table_u32(n: usize) -> (r: Vec<Option<u32>>)
    ensures
        r@.len() == n,
        forall|k: int| 0 <= k < n ==> (#[trigger] r@[k]) is None,
{
    let mut v: Vec<Option<u32>> = Vec::new();
    let mut i: usize = 0;
    while i < n
        invariant
            i <= n,
            v@.len() == i,
            forall|k: int| 0 <= k < i ==> (#[trigger] v@[k]) is None,
        decreases n - i,
    {
        v.push(None);
        i = i + 1;
    }
    v
}

/// A table of `n` empty coordinate slots.
fn none_table_pair(n: usize) -> (r: Vec<Option<(i64, i64)>>)
    ensures
        r@.len() == n,
        forall|k: int| 0 <= k < n ==> (#[trigger] r@[k]) is None,
{
    let mut v: Vec<Option<(i64, i64)>> = Vec::new();
    let mut i: usize = 0;
    while i < n
        invariant
            i <= n,
            v@.len() == i,
            forall|k: int| 0 <= k < i ==> (#[trigger] v@[k]) is None,
        decreases n - i,
    {
        v.push(None);
        i = i + 1;
    }
    v
}

/// A row of `n` zero counts.
fn zero_row(n: usize) -> (r: Vec<i64>)
    ensures
        r@.len() == n,
        forall|k: int| 0 <= k < n ==> (#[trigger] r@[k]) == 0,
{
    let mut v: Vec<i64> = Vec::new();
    let mut i: usize = 0;
    while i < n
        invariant
            i <= n,
            v@.len() == i,
            forall|k: int| 0 <= k < i ==> (#[trigger] v@[k]) == 0,
        decreases n - i,
    {
        v.push(0);
        i = i + 1;
    }
    v
}

/// Add the authored delay to every note's spawn time, in place.
fn fold_delay(objects: &mut Vec<ObjectDescription>, delay: i64)
    requires
        -TIME_LIMIT_MS <= delay <= TIME_LIMIT_MS,
        forall|k: int| 0 <= k < old(objects)@.len() ==> -TIME_LIMIT_MS <= (#[trigger] old(
            objects,
        )@[k]).starttime <= TIME_LIMIT_MS,
    ensures
        delay_folded(old(objects)@, final(objects)@, delay as int),
{
    let n = objects.len();
    let mut k: usize = 0;
    while k < n
        invariant
            n == objects@.len() == old(objects)@.len(),
            k <= n,
            -TIME_LIMIT_MS <= delay <= TIME_LIMIT_MS,
            forall|p: int| 0 <= p < n ==> -TIME_LIMIT_MS <= (#[trigger] old(objects)@[p]).starttime
                <= TIME_LIMIT_MS,
            forall|p: int| k <= p < n ==> #[trigger] objects@[p] == old(objects)@[p],
            forall|p: int| 0 <= p < k ==> #[trigger] objects@[p] == (ObjectDescription {
                starttime: (old(objects)@[p].starttime + delay) as i64,
                ..old(objects)@[p]
            }),
        decreases n - k,
    {
        let mut o = objects[k];
        o.starttime = o.starttime + delay;
        objects.set(k, o);
        k = k + 1;
    }
}

/// Add the authored delay to every slide attachment's spawn time, in place.
fn fold_sop_delay(sopoints: &mut Vec<SOPoint>, delay: i64)
    requires
        -TIME_LIMIT_MS <= delay <= TIME_LIMIT_MS,
        forall|q: int| 0 <= q < old(sopoints)@.len() ==> -TIME_LIMIT_MS <= (#[trigger] old(
            sopoints,
        )@[q]).starttime <= TIME_LIMIT_MS,
    ensures
        sopoints_folded(old(sopoints)@, final(sopoints)@, delay as int),
{
    let n = sopoints.len();
    let mut q: usize = 0;
    while q < n
        invariant
            n == sopoints@.len() == old(sopoints)@.len(),
            q <= n,
            -TIME_LIMIT_MS <= delay <= TIME_LIMIT_MS,
            forall|p: int| 0 <= p < n ==> -TIME_LIMIT_MS <= (#[trigger] old(sopoints)@[p]).starttime
                <= TIME_LIMIT_MS,
            forall|p: int| q <= p < n ==> #[trigger] sopoints@[p] == old(sopoints)@[p],
            forall|p: int| 0 <= p < q ==> #[trigger] sopoints@[p] == (SOPoint {
                starttime: (old(sopoints)@[p].starttime + delay) as i64,
                ..old(sopoints)@[p]
            }),
        decreases n - q,
    {
        let mut p = sopoints[q];
        p.starttime = p.starttime + delay;
        sopoints.set(q, p);
        q = q + 1;
    }
}

/// The chord flag computed from the nearest same-side neighbours equals the
/// existence of any same-side note arriving at the same instant, because the
/// notes are sorted by arrival.
proof fn lemma_chord_decision(
    d: Seq<ObjectDescription>,
    k: int,
    last: Option<u32>,
    next: Option<u32>,
    lastchord: bool,
    nextchord: bool,
)
    requires
        objects_sorted(d),
        0 <= k < d.len(),
        match last {
            Option::Some(l) => l < k && d[l as int].side == d[k].side && (forall|w: int|
                l < w < k ==> (#[trigger] d[w]).side != d[k].side) && (lastchord == (arrive_of(
                d[l as int],
            ) == arrive_of(d[k]))),
            Option::None => (forall|w: int| 0 <= w < k ==> (#[trigger] d[w]).side != d[k].side)
                && !lastchord,
        },
        match next {
            Option::Some(j) => k < j < d.len() && d[j as int].side == d[k].side && (forall|w: int|
                k < w < j ==> (#[trigger] d[w]).side != d[k].side) && (nextchord == (arrive_of(
                d[j as int],
            ) == arrive_of(d[k]))),
            Option::None => (forall|w: int| k < w < d.len() ==> (#[trigger] d[w]).side != d[k].side)
                && !nextchord,
        },
    ensures
        (lastchord || nextchord) == is_chord(d, k),
{
    if lastchord {
        let l = last->Some_0;
        assert(d[l as int].side == d[k].side && arrive_of(d[l as int]) == arrive_of(d[k]));
        assert(is_chord(d, k));
    } else if nextchord {
        let j = next->Some_0;
        assert(d[j as int].side == d[k].side && arrive_of(d[j as int]) == arrive_of(d[k]));
        assert(is_chord(d, k));
    } else {
        assert forall|j: int|
            0 <= j < d.len() && j != k && (#[trigger] d[j]).side == d[k].side implies arrive_of(
            d[j],
        ) != arrive_of(d[k]) by {
            if j < k {
                match last {
                    Option::Some(l) => {
                        assert(j <= l);
                        assert(arrive_of(d[j]) <= arrive_of(d[l as int]));
                        assert(arrive_of(d[l as int]) <= arrive_of(d[k]));
                    },
                    Option::None => {},
                }
            } else {
                match next {
                    Option::Some(nx) => {
                        assert(nx <= j);
                        assert(arrive_of(d[k]) <= arrive_of(d[nx as int]));
                        assert(arrive_of(d[nx as int]) <= arrive_of(d[j]));
                    },
                    Option::None => {},
                }
            }
        }
    }
}

/// Exchange two adjacent chain edges.
fn chain_swap(v: &mut Vec<Chain>, j: usize)
    requires
        0 < j < old(v)@.len(),
    ensures
        final(v)@.len() == old(v)@.len(),
        final(v)@ == old(v)@.update(j - 1, old(v)@[j as int]).update(j as int, old(v)@[j - 1]),
        final(v)@.to_multiset() == old(v)@.to_multiset(),
{
    let a = v[j - 1];
    let b = v[j];
    v.set(j - 1, b);
    v.set(j, a);
    proof {
        broadcast use vstd::seq_lib::group_to_multiset_ensures;
        broadcast use vstd::seq_lib::to_multiset_update;

        assert(v@.to_multiset() =~= old(v)@.to_multiset());
    }
}

/// Sort the chain edges by the head's arrival time; stable.
fn sort_chains(chains: Vec<Chain>) -> (r: Vec<Chain>)
    ensures
        r@.len() == chains@.len(),
        r@.to_multiset() == chains@.to_multiset(),
        forall|p: int, q: int| 0 <= p < q < r@.len() ==> (#[trigger] r@[p]).head.arrive_time <= (
        #[trigger] r@[q]).head.arrive_time,
{
    let mut v = chains;
    let ghost orig = v@;
    let n = v.len();
    let mut i: usize = 1;
    while i < n
        invariant
            n == v@.len(),
            1 <= i <= n + 1,
            v@.to_multiset() == orig.to_multiset(),
            forall|p: int, q: int| 0 <= p < q < i ==> (#[trigger] v@[p]).head.arrive_time <= (
            #[trigger] v@[q]).head.arrive_time,
        decreases n - i,
    {
        let mut j: usize = i;
        loop
            invariant
                n == v@.len(),
                0 <= j <= i < n,
                v@.to_multiset() == orig.to_multiset(),
                forall|p: int, q: int| 0 <= p < q <= i && q != j ==> (#[trigger] v@[p]).head.arrive_time
                    <= (#[trigger] v@[q]).head.arrive_time,
            ensures
                n == v@.len(),
                0 <= j <= i < n,
                v@.to_multiset() == orig.to_multiset(),
                forall|p: int, q: int| 0 <= p < q <= i && q != j ==> (#[trigger] v@[p]).head.arrive_time
                    <= (#[trigger] v@[q]).head.arrive_time,
                j == 0 || v@[j - 1].head.arrive_time <= v@[j as int].head.arrive_time,
            decreases j,
        {
            if j == 0 {
                break ;
            }
            if v[j - 1].head.arrive_time <= v[j].head.arrive_time {
                break ;
            }
            chain_swap(&mut v, j);
            j = j - 1;
        }
        i = i + 1;
    }
    v
}

/// Exchange two adjacent slide paths.
fn slider_swap(v: &mut Vec<Slider>, j: usize)
    requires
        0 < j < old(v)@.len(),
    ensures
        final(v)@.len() == old(v)@.len(),
        final(v)@ == old(v)@.update(j - 1, old(v)@[j as int]).update(j as int, old(v)@[j - 1]),
        final(v)@.to_multiset() == old(v)@.to_multiset(),
{
    let a = v.remove(j - 1);
    v.insert(j, a);
    proof {
        broadcast use vstd::seq_lib::group_to_multiset_ensures;
        broadcast use vstd::seq_lib::to_multiset_update;

        assert(v@ =~= old(v)@.update(j - 1, old(v)@[j as int]).update(j as int, old(v)@[j - 1]));
        assert(v@.to_multiset() =~= old(v)@.to_multiset());
    }
}

/// Sort the slide paths by the anchor's spawn time; stable. Every path must
/// have its anchor vertex in place.
fn sort_sliders(sliders: Vec<Slider>) -> (r: Vec<Slider>)
    requires
        forall|k: int| 0 <= k < sliders@.len() ==> (#[trigger] sliders@[k]).parts@.len() >= 1,
    ensures
        r@.len() == sliders@.len(),
        r@.to_multiset() == sliders@.to_multiset(),
        forall|k: int| 0 <= k < r@.len() ==> (#[trigger] r@[k]).parts@.len() >= 1,
        forall|p: int, q: int| 0 <= p < q < r@.len() ==> (#[trigger] r@[p]).parts@[0].spawn_time
            <= (#[trigger] r@[q]).parts@[0].spawn_time,
{
    let mut v = sliders;
    let ghost orig = v@;
    let n = v.len();
    let mut i: usize = 1;
    while i < n
        invariant
            n == v@.len(),
            1 <= i <= n + 1,
            v@.to_multiset() == orig.to_multiset(),
            forall|k: int| 0 <= k < v@.len() ==> (#[trigger] v@[k]).parts@.len() >= 1,
            forall|p: int, q: int| 0 <= p < q < i ==> (#[trigger] v@[p]).parts@[0].spawn_time <= (
            #[trigger] v@[q]).parts@[0].spawn_time,
        decreases n - i,
    {
        let mut j: usize = i;
        loop
            invariant
                n == v@.len(),
                0 <= j <= i < n,
                v@.to_multiset() == orig.to_multiset(),
                forall|k: int| 0 <= k < v@.len() ==> (#[trigger] v@[k]).parts@.len() >= 1,
                forall|p: int, q: int| 0 <= p < q <= i && q != j ==> (#[trigger] v@[p]).parts@[0].spawn_time
                    <= (#[trigger] v@[q]).parts@[0].spawn_time,
            ensures
                n == v@.len(),
                0 <= j <= i < n,
                v@.to_multiset() == orig.to_multiset(),
                forall|k: int| 0 <= k < v@.len() ==> (#[trigger] v@[k]).parts@.len() >= 1,
                forall|p: int, q: int| 0 <= p < q <= i && q != j ==> (#[trigger] v@[p]).parts@[0].spawn_time
                    <= (#[trigger] v@[q]).parts@[0].spawn_time,
                j == 0 || v@[j - 1].parts@[0].spawn_time <= v@[j as int].parts@[0].spawn_time,
            decreases j,
        {
            if j == 0 {
                break ;
            }
            let a = v[j - 1].spawn_time();
            let b = v[j].spawn_time();
            if a <= b {
                break ;
            }
            slider_swap(&mut v, j);
            j = j - 1;
        }
        i = i + 1;
    }
    v
}

/// Lane counts that mirror a queue are non-negative and at most its length.
proof fn lemma_occ_bounds(occ: Seq<i64>, evs: Seq<OccupyEvent>)
    requires
        occupied_matches(occ, evs),
    ensures
        forall|w: int| 0 <= w < 2 * BOTTOM_SLOT_COUNT ==> 0 <= #[trigger] occ[w] <= evs.len(),
{
    assert forall|w: int| 0 <= w < 2 * BOTTOM_SLOT_COUNT implies 0 <= #[trigger] occ[w]
        <= evs.len() by {
        let s = (w / (BOTTOM_SLOT_COUNT as int)) as u32;
        let l = (w % (BOTTOM_SLOT_COUNT as int)) as u32;
        assert(s < 2 && l < BOTTOM_SLOT_COUNT);
        assert(s * BOTTOM_SLOT_COUNT + l == w);
        assert(occ[s * BOTTOM_SLOT_COUNT + l] == count_events(evs, s, l));
        lemma_count_bounds(evs, s, l);
    }
}

/// A note nobody bonded before it is nobody's chain target at all: chains
/// only point forward.
proof fn lemma_no_writer_not_target(d: Seq<ObjectDescription>, t: int)
    requires
        desc_shape_ok(d),
        d.len() <= 0xffff_ffff,
        0 <= t < d.len(),
        forall|h2: int| 0 <= h2 < t ==> (#[trigger] d[h2]).chained != Option::Some(t as u32),
    ensures
        !is_chain_target(d, t),
{
    assert forall|h: int| 0 <= h < d.len() implies (#[trigger] d[h]).chained != Option::Some(
        t as u32,
    ) by {
        if h >= t {
            match d[h].chained {
                Option::Some(t2) => {
                    assert(h < t2);
                },
                Option::None => {},
            }
        }
    }
}

/// The last note bonding `t` before `t` itself is the last overall: chains
/// only point forward.
proof fn lemma_last_writer_is_head(d: Seq<ObjectDescription>, t: int, h: int)
    requires
        desc_shape_ok(d),
        d.len() <= 0xffff_ffff,
        0 <= h < t < d.len(),
        d[h].chained == Option::Some(t as u32),
        forall|h2: int| h < h2 < t ==> (#[trigger] d[h2]).chained != Option::Some(t as u32),
    ensures
        chain_head_of(d, t, h),
{
    assert forall|h2: int| h < h2 < d.len() implies (#[trigger] d[h2]).chained != Option::Some(
        t as u32,
    ) by {
        if h2 >= t {
            match d[h2].chained {
                Option::Some(t2) => {
                    assert(h2 < t2);
                },
                Option::None => {},
            }
        }
    }
}

/// Adding a resolved note to the end disturbs no earlier note's promises.
proof fn lemma_nro_prefix_push(d: Seq<ObjectDescription>, objs: Seq<Object>, o: Object)
    requires
        desc_shape_ok(d),
        d.len() <= 0xffff_ffff,
        objs.len() <= d.len(),
        forall|k2: int| 0 <= k2 < objs.len() ==> #[trigger] note_resolved_ok(d, objs, k2),
    ensures
        forall|k2: int| 0 <= k2 < objs.len() ==> #[trigger] note_resolved_ok(d, objs.push(o), k2),
{
    assert forall|k2: int| 0 <= k2 < objs.len() implies #[trigger] note_resolved_ok(
        d,
        objs.push(o),
        k2,
    ) by {
        assert(note_resolved_ok(d, objs, k2));
        assert(objs.push(o)[k2] == objs[k2]);
        match d[k2].source {
            Option::Some(src) => {
                assert(src < k2);
                assert(objs.push(o)[src as int] == objs[src as int]);
            },
            Option::None => {
                if is_chain_target(d, k2) {
                    let h = choose|h: int|
                        #[trigger] chain_head_of(d, k2, h) && objs[k2].spawn == objs[h].spawn;
                    assert(d[h].chained == Option::Some(k2 as u32));
                    assert(h < k2);
                    assert(objs.push(o)[h] == objs[h]);
                    assert(chain_head_of(d, k2, h) && objs.push(o)[k2].spawn == objs.push(
                        o,
                    )[h].spawn);
                }
            },
        }
        if d[k2].pos is None && is_chain_target(d, k2) {
            let h = choose|h: int|
                #[trigger] chain_head_of(d, k2, h) && objs[k2].pos == objs[h].pos;
            assert(d[h].chained == Option::Some(k2 as u32));
            assert(h < k2);
            assert(objs.push(o)[h] == objs[h]);
            assert(chain_head_of(d, k2, h) && objs.push(o)[k2].pos == objs.push(o)[h].pos);
        }
    }
}

/// Adding a resolved note to the end disturbs no emitted chain edge.
proof fn lemma_edges_push(d: Seq<ObjectDescription>, objs: Seq<Object>, o: Object, chains: Seq<Chain>)
    requires
        forall|ci: int| 0 <= ci < chains.len() ==> chain_edge_ok(#[trigger] chains[ci], objs, d),
    ensures
        forall|ci: int| 0 <= ci < chains.len() ==> chain_edge_ok(
            #[trigger] chains[ci],
            objs.push(o),
            d,
        ),
{
    assert forall|ci: int| 0 <= ci < chains.len() implies chain_edge_ok(
        #[trigger] chains[ci],
        objs.push(o),
        d,
    ) by {
        let c = chains[ci];
        assert(chain_edge_ok(c, objs, d));
        let (h, t) = choose|h: int, t: int|
            #![trigger objs[h], objs[t]]
            0 <= h < t < objs.len() && t < d.len() && c.head == objs[h] && c.tail == objs[t]
                && d[h].chained == Option::Some(t as u32) && ((d[t].pos is None && d[t].source
                is None) ==> (objs[t].pos == objs[h].pos && objs[t].spawn == objs[h].spawn));
        assert(objs.push(o)[h] == objs[h] && objs.push(o)[t] == objs[t]);
        assert(chain_edge_ok(c, objs.push(o), d));
    }
}

/// Count a new occupation of lane `pos` on board `side`, releasing after
/// `time`: the count rises by one and a release event joins the queue.
fn register_occupation(
    occupied: &mut Vec<i64>,
    events: &mut Vec<OccupyEvent>,
    side: u32,
    pos: u32,
    time: i64,
)
    requires
        side < 2,
        pos < BOTTOM_SLOT_COUNT,
        events_shaped(old(events)@),
        occupied_matches(old(occupied)@, old(events)@),
        old(events)@.len() <= 0x2_0000_0000,
    ensures
        events_shaped(final(events)@),
        occupied_matches(final(occupied)@, final(events)@),
        final(events)@.len() == old(events)@.len() + 1,
{
    let idx = (side * BOTTOM_SLOT_COUNT + pos) as usize;
    let e = OccupyEvent { time, side, pos, delta: -1 };
    proof {
        lemma_occ_bounds(occupied@, events@);
        assert forall|s2: u32, l2: u32| s2 < 2 && l2 < BOTTOM_SLOT_COUNT implies count_events(
            events@.push(e),
            s2,
            l2,
        ) == count_events(events@, s2, l2) + (if e.side == s2 && e.pos == l2 {
            1int
        } else {
            0int
        }) by {
            lemma_count_push(events@, e, s2, l2);
        }
    }
    let v = occupied[idx];
    occupied.set(idx, v + 1);
    events.push(e);
}

/// The chain side tables agree with the notes resolved so far: an entry at
/// `t` names the last head before `upto` that bonded `t`, with that head's
/// lane and spawn point, and is empty exactly when no head before `upto`
/// bonded `t`.
pub open spec fn chain_tables_ok(
    d: Seq<ObjectDescription>,
    objs: Seq<Object>,
    cpos: Seq<Option<u32>>,
    cprev: Seq<Option<u32>>,
    cspawn: Seq<Option<(i64, i64)>>,
    upto: int,
) -> bool {
    &&& cpos.len() == d.len() && cprev.len() == d.len() && cspawn.len() == d.len()
    &&& forall|t: int|
        0 <= t < d.len() ==> ((cprev[t] is Some <==> cpos[t] is Some) && (cprev[t] is Some
            <==> cspawn[t] is Some))
    &&& forall|t: int|
        0 <= t < d.len() ==> match #[trigger] cprev[t] {
            Option::Some(h) => h < upto && h < objs.len() && d[h as int].chained == Option::Some(
                t as u32,
            ) && cpos[t] == Option::Some(objs[h as int].pos) && cspawn[t] == Option::Some(
                (objs[h as int].spawn.x, objs[h as int].spawn.y),
            ) && (forall|h2: int|
                h < h2 < upto ==> (#[trigger] d[h2]).chained != Option::Some(t as u32)),
            Option::None => forall|h2: int|
                0 <= h2 < upto ==> (#[trigger] d[h2]).chained != Option::Some(t as u32),
        }
}

/// Resolving one more note that bonds `next` updates the chain tables to
/// name it as `next`'s head; every other entry only sees its writer range
/// grow past a note that bonded nothing else.
proof fn lemma_chain_tables_register(
    d: Seq<ObjectDescription>,
    objs_start: Seq<Object>,
    result: Object,
    cpos0: Seq<Option<u32>>,
    cprev0: Seq<Option<u32>>,
    cspawn0: Seq<Option<(i64, i64)>>,
    cpos1: Seq<Option<u32>>,
    cprev1: Seq<Option<u32>>,
    cspawn1: Seq<Option<(i64, i64)>>,
    k: int,
    next: int,
)
    requires
        d.len() <= 0xffff_ffff,
        0 <= k < next < d.len(),
        objs_start.len() == k,
        d[k].chained == Option::Some(next as u32),
        chain_tables_ok(d, objs_start, cpos0, cprev0, cspawn0, k),
        cpos1 == cpos0.update(next, Option::Some(result.pos)),
        cprev1 == cprev0.update(next, Option::Some(k as u32)),
        cspawn1 == cspawn0.update(next, Option::Some((result.spawn.x, result.spawn.y))),
    ensures
        chain_tables_ok(d, objs_start.push(result), cpos1, cprev1, cspawn1, k + 1),
{
    let objs = objs_start.push(result);
    assert forall|t: int|
        0 <= t < d.len() implies match #[trigger] cprev1[t] {
        Option::Some(h) => h < k + 1 && h < objs.len() && d[h as int].chained == Option::Some(
            t as u32,
        ) && cpos1[t] == Option::Some(objs[h as int].pos) && cspawn1[t] == Option::Some(
            (objs[h as int].spawn.x, objs[h as int].spawn.y),
        ) && (forall|h2: int|
            h < h2 < k + 1 ==> (#[trigger] d[h2]).chained != Option::Some(t as u32)),
        Option::None => forall|h2: int|
            0 <= h2 < k + 1 ==> (#[trigger] d[h2]).chained != Option::Some(t as u32),
    } by {
        assert((t as u32) as int == t);
        assert((next as u32) as int == next);
        if t == next {
            assert(cprev1[t] == Option::Some(k as u32));
            assert(objs[k] == result);
        } else {
            assert(next as u32 != t as u32);
            assert(cprev1[t] == cprev0[t]);
            assert(cpos1[t] == cpos0[t]);
            assert(cspawn1[t] == cspawn0[t]);
            match cprev0[t] {
                Option::Some(h) => {
                    assert(objs[h as int] == objs_start[h as int]);
                    assert(d[k].chained != Option::Some(t as u32));
                },
                Option::None => {
                    assert(d[k].chained != Option::Some(t as u32));
                },
            }
        }
    }
}

/// Resolving one more note that bonds nothing leaves the chain tables
/// naming the same heads, with the writer range grown past it.
proof fn lemma_chain_tables_nowrite(
    d: Seq<ObjectDescription>,
    objs_start: Seq<Object>,
    result: Object,
    cpos0: Seq<Option<u32>>,
    cprev0: Seq<Option<u32>>,
    cspawn0: Seq<Option<(i64, i64)>>,
    k: int,
)
    requires
        d.len() <= 0xffff_ffff,
        0 <= k < d.len(),
        objs_start.len() == k,
        d[k].chained is None,
        chain_tables_ok(d, objs_start, cpos0, cprev0, cspawn0, k),
    ensures
        chain_tables_ok(d, objs_start.push(result), cpos0, cprev0, cspawn0, k + 1),
{
    let objs = objs_start.push(result);
    assert forall|t: int|
        0 <= t < d.len() implies match #[trigger] cprev0[t] {
        Option::Some(h) => h < k + 1 && h < objs.len() && d[h as int].chained == Option::Some(
            t as u32,
        ) && cpos0[t] == Option::Some(objs[h as int].pos) && cspawn0[t] == Option::Some(
            (objs[h as int].spawn.x, objs[h as int].spawn.y),
        ) && (forall|h2: int|
            h < h2 < k + 1 ==> (#[trigger] d[h2]).chained != Option::Some(t as u32)),
        Option::None => forall|h2: int|
            0 <= h2 < k + 1 ==> (#[trigger] d[h2]).chained != Option::Some(t as u32),
    } by {
        match cprev0[t] {
            Option::Some(h) => {
                assert(objs[h as int] == objs_start[h as int]);
                assert(d[k].chained != Option::Some(t as u32));
            },
            Option::None => {
                assert(d[k].chained != Option::Some(t as u32));
            },
        }
    }
}

/// Record that no free lane was left at this note's arrival; every entry of
/// the warning list stays the arrival time of some note.
fn push_warning(
    warnings: &mut Vec<i64>,
    t: i64,
    Ghost(d): Ghost<Seq<ObjectDescription>>,
    Ghost(k): Ghost<int>,
)
    requires
        0 <= k < d.len(),
        t == arrive_of(d[k]),
        forall|wi: int| 0 <= wi < old(warnings)@.len() ==> warning_named(
            d,
            #[trigger] old(warnings)@[wi],
        ),
    ensures
        final(warnings)@.len() == old(warnings)@.len() + 1,
        final(warnings)@ == old(warnings)@.push(t),
        forall|wi: int| 0 <= wi < final(warnings)@.len() ==> warning_named(
            d,
            #[trigger] final(warnings)@[wi],
        ),
{
    warnings.push(t);
    proof {
        assert forall|wi: int|
            0 <= wi < warnings@.len() implies warning_named(d, #[trigger] warnings@[wi]) by {
            if wi < old(warnings)@.len() {
                assert(warnings@[wi] == old(warnings)@[wi]);
                assert(warning_named(d, old(warnings)@[wi]));
            } else {
                assert(warnings@[wi] == arrive_of(d[k]));
                assert(warning_named(d, warnings@[wi]));
            }
        }
    }
}

/// The reflection memo still names each source's first non-Top reflectee
/// and its chosen waypoint after one note is resolved: the new note may have
/// added one entry, and the resolved notes only grew.
proof fn lemma_memo_step(
    d: Seq<ObjectDescription>,
    objs_start: Seq<Object>,
    result: Object,
    refl_start: Seq<Option<(i64, i64)>>,
    refl_now: Seq<Option<(i64, i64)>>,
    k: int,
    memo_written: bool,
    memo_src: int,
)
    requires
        0 <= k < d.len(),
        objs_start.len() == k,
        refl_start.len() == d.len() && refl_now.len() == d.len(),
        forall|t: int|
            0 <= t < d.len() ==> match #[trigger] refl_start[t] {
                Option::Some(w) => -BOARD_LIMIT <= w.0 <= BOARD_LIMIT && -BOARD_LIMIT <= w.1
                    <= BOARD_LIMIT && t < k && (exists|k0: int|
                    #[trigger] first_reflectee(d, t, k0) && k0 < k && waypoint_choice_ok(
                        Coord2d { x: w.0, y: w.1 },
                        objs_start[t].dest,
                        objs_start[k0].dest,
                    )),
                Option::None => true,
            },
        if memo_written {
            &&& 0 <= memo_src < d.len()
            &&& refl_start[memo_src] is None
            &&& refl_now == refl_start.update(memo_src, refl_now[memo_src])
            &&& match refl_now[memo_src] {
                Option::Some(w) => -BOARD_LIMIT <= w.0 <= BOARD_LIMIT && -BOARD_LIMIT <= w.1
                    <= BOARD_LIMIT && memo_src < k && first_reflectee(d, memo_src, k)
                    && waypoint_choice_ok(
                    Coord2d { x: w.0, y: w.1 },
                    objs_start[memo_src].dest,
                    result.dest,
                ),
                Option::None => false,
            }
        } else {
            refl_now == refl_start
        },
    ensures
        forall|t: int|
            0 <= t < d.len() ==> match #[trigger] refl_now[t] {
                Option::Some(w) => -BOARD_LIMIT <= w.0 <= BOARD_LIMIT && -BOARD_LIMIT <= w.1
                    <= BOARD_LIMIT && t < k + 1 && (exists|k0: int|
                    #[trigger] first_reflectee(d, t, k0) && k0 < k + 1 && waypoint_choice_ok(
                        Coord2d { x: w.0, y: w.1 },
                        objs_start.push(result)[t].dest,
                        objs_start.push(result)[k0].dest,
                    )),
                Option::None => true,
            },
{
    let objs_now = objs_start.push(result);
    assert forall|t: int|
        0 <= t < d.len() implies match #[trigger] refl_now[t] {
        Option::Some(w) => -BOARD_LIMIT <= w.0 <= BOARD_LIMIT && -BOARD_LIMIT <= w.1
            <= BOARD_LIMIT && t < k + 1 && (exists|k0: int|
            #[trigger] first_reflectee(d, t, k0) && k0 < k + 1 && waypoint_choice_ok(
                Coord2d { x: w.0, y: w.1 },
                objs_now[t].dest,
                objs_now[k0].dest,
            )),
        Option::None => true,
    } by {
        if refl_now[t] is Some {
            let w = refl_now[t]->Some_0;
            if memo_written && t == memo_src {
                assert(objs_now[t] == objs_start[t]);
                assert(objs_now[k] == result);
                assert(first_reflectee(d, t, k) && k < k + 1 && waypoint_choice_ok(
                    Coord2d { x: w.0, y: w.1 },
                    objs_now[t].dest,
                    objs_now[k].dest,
                ));
            } else {
                assert(refl_now[t] == refl_start[t]);
                let k0 = choose|k0: int|
                    #[trigger] first_reflectee(d, t, k0) && k0 < k && waypoint_choice_ok(
                        Coord2d { x: w.0, y: w.1 },
                        objs_start[t].dest,
                        objs_start[k0].dest,
                    );
                assert(objs_now[t] == objs_start[t]);
                assert(objs_now[k0] == objs_start[k0]);
                assert(first_reflectee(d, t, k0) && k0 < k + 1 && waypoint_choice_ok(
                    Coord2d { x: w.0, y: w.1 },
                    objs_now[t].dest,
                    objs_now[k0].dest,
                ));
            }
        }
    }
}

/// Lane `l` is avoided when generating a lane for note `k`: it is the
/// authored lane of the arrival group right after `k` within half a beat,
/// the chosen lane of a chorded peer, or the chosen lane of the arrival
/// group right before `k` within half a beat — the combined mask of
/// neighbouring groups.
pub open spec fn gen_lane_masked(
    d: Seq<ObjectDescription>,
    gen: Seq<u32>,
    bpm0: int,
    k: int,
    l: u32,
) -> bool {
    ||| leading_lane(d, d[k].side, arrive_of(d[k]), bpm0, Option::Some(l))
    ||| peer_lane(d, gen, k, Option::Some(l))
    ||| previous_lane(d, gen, k, bpm0, Option::Some(l))
}

/// Some lane of `k`'s board is both unoccupied and outside the combined
/// avoidance mask.
pub open spec fn free_gen_lane_exists(
    d: Seq<ObjectDescription>,
    gen: Seq<u32>,
    occ: Seq<i64>,
    bpm0: int,
    k: int,
) -> bool {
    exists|l: u32|
        l < BOTTOM_SLOT_COUNT && occ[d[k].side * BOTTOM_SLOT_COUNT + l] == 0 && !(
        #[trigger] gen_lane_masked(d, gen, bpm0, k, l))
}

/// The tentative lane and spawn column of one note, by its kind: Top,
/// Vertical and Slide notes take their authored lane and its column, and a
/// Normal note draws a spawn column at random and, when no lane is
/// authored, a lane avoiding the occupations and the neighbouring groups'
/// lanes; when every lane is taken the draw stands and a warning is
/// recorded.
fn initial_lane_and_spawn(
    desc: &FumenDescription,
    k: usize,
    occupied: &Vec<i64>,
    generated_pos: &Vec<u32>,
    warnings: &mut Vec<i64>,
) -> (r: (u32, i64))
    requires
        k < desc.objects@.len(),
        desc.objects@.len() <= 0xffff_ffff,
        all_times_ok(desc.objects@),
        crate::parse::positions_in_range(desc.objects@),
        objects_sorted(desc.objects@),
        desc_shape_ok(desc.objects@),
        desc.bpm@.len() > 0 && 0 < desc.bpm@[0] <= BPM_LIMIT_MILLIBPM,
        occupied@.len() == 2 * BOTTOM_SLOT_COUNT,
        forall|l: int| 0 <= l < 2 * BOTTOM_SLOT_COUNT ==> 0 <= #[trigger] occupied@[l]
            <= 0x2000_0000_0000,
        forall|l: int| 0 <= l < generated_pos@.len() ==> #[trigger] generated_pos@[l]
            < BOTTOM_SLOT_COUNT,
        forall|wi: int| 0 <= wi < old(warnings)@.len() ==> warning_named(
            desc.objects@,
            #[trigger] old(warnings)@[wi],
        ),
    ensures
        r.0 < BOTTOM_SLOT_COUNT,
        desc.objects@[k as int].object_type is Top ==> r.0 < TOP_SLOT_COUNT,
        match desc.objects@[k as int].pos {
            Option::Some(p) => r.0 == p,
            Option::None => true,
        },
        match desc.objects@[k as int].object_type {
            Objecttype::Top => r.1 == TOP_SPAWN_X_START + TOP_SPAWN_X_SPACING * r.0,
            Objecttype::Vertical => r.1 == BOTTOM_SLOT_START_X + BOTTOM_SLOT_SPACING * r.0,
            Objecttype::Slide => r.1 == BOTTOM_SLOT_START_X + BOTTOM_SLOT_SPACING * r.0,
            Objecttype::Normal => SPAWN_X_MIN <= r.1 <= SPAWN_X_MAX,
        },
        forall|wi: int| 0 <= wi < final(warnings)@.len() ==> warning_named(
            desc.objects@,
            #[trigger] final(warnings)@[wi],
        ),
        // a lane is only generated for an unauthored Normal note; then the
        // chosen lane is unoccupied and unmasked whenever some lane is, and
        // a warning is recorded exactly when none is
        (desc.objects@[k as int].pos is Some || !(desc.objects@[k as int].object_type
            is Normal)) ==> final(warnings)@ == old(warnings)@,
        (desc.objects@[k as int].pos is None && desc.objects@[k as int].object_type is Normal
            && free_gen_lane_exists(
            desc.objects@,
            generated_pos@,
            occupied@,
            desc.bpm@[0] as int,
            k as int,
        )) ==> (occupied@[desc.objects@[k as int].side * BOTTOM_SLOT_COUNT + r.0] == 0
            && !gen_lane_masked(
            desc.objects@,
            generated_pos@,
            desc.bpm@[0] as int,
            k as int,
            r.0,
        ) && final(warnings)@ == old(warnings)@),
        (desc.objects@[k as int].pos is None && desc.objects@[k as int].object_type is Normal
            && !free_gen_lane_exists(
            desc.objects@,
            generated_pos@,
            occupied@,
            desc.bpm@[0] as int,
            k as int,
        )) ==> (final(warnings)@.len() == old(warnings)@.len() + 1 && (forall|wi: int|
            0 <= wi < old(warnings)@.len() ==> #[trigger] final(warnings)@[wi] == old(
                warnings,
            )@[wi]) && final(warnings)@[old(warnings)@.len() as int] as int == arrive_of(
            desc.objects@[k as int],
        )),
{
    let dk = desc.objects[k];
    proof {
        assert(dk == desc.objects@[k as int]);
        assert(crate::parse::desc_times_ok(desc.objects@[k as int]));
    }
    let arrive_time = dk.arrive_time();
    let base = (dk.side * BOTTOM_SLOT_COUNT) as usize;
    let mut pos: u32 = 0;
    let mut spawn_x: i64 = 0;
    match dk.object_type {
        Objecttype::Normal => {
            match dk.pos {
                Some(p) => {
                    pos = p;
                },
                None => {
                    let mut adj = zero_row(BOTTOM_SLOT_COUNT as usize);
                    let nextmask = desc.next_object_pos(k as u32);
                    apply_mask(&mut adj, &nextmask);
                    let lastmask = desc.last_object_pos(k as u32, generated_pos);
                    apply_mask(&mut adj, &lastmask);
                    proof {
                        let dd = desc.objects@;
                        let gen = generated_pos@;
                        let bpm0 = desc.bpm@[0] as int;
                        let at = arrive_of(dd[k as int]);
                        let sd = dd[k as int].side;
                        // the combined mask counts exactly the avoided lanes
                        assert forall|l: u32|
                            l < BOTTOM_SLOT_COUNT implies ((adj@[l as int] == 0)
                            <==> !gen_lane_masked(dd, gen, bpm0, k as int, l)) by {
                            if mask_lists_lane(nextmask@, l) {
                                let q = choose|q: int|
                                    0 <= q < nextmask@.len() && #[trigger] nextmask@[q]
                                        == Option::Some(l);
                                assert(leading_lane(dd, sd, at, bpm0, nextmask@[q]));
                            }
                            if leading_lane(dd, sd, at, bpm0, Option::Some(l)) {
                                let j = choose|j: int|
                                    #[trigger] leads_next_group(dd, sd, at, j) && !(
                                    dd[j].object_type is Top) && (arrive_of(dd[j]) - at) * bpm0
                                        <= AVOID_WINDOW_MS_MILLIBPM && dd[j].pos == Option::Some(
                                        l,
                                    );
                                let kk = choose|kk: int|
                                    0 <= kk < nextmask@.len() && #[trigger] nextmask@[kk]
                                        == dd[j].pos;
                                assert(mask_lists_lane(nextmask@, l));
                            }
                            if mask_lists_lane(lastmask@, l) {
                                let q = choose|q: int|
                                    0 <= q < lastmask@.len() && #[trigger] lastmask@[q]
                                        == Option::Some(l);
                                assert(peer_lane(dd, gen, k as int, lastmask@[q]) || previous_lane(
                                    dd,
                                    gen,
                                    k as int,
                                    bpm0,
                                    lastmask@[q],
                                ));
                            }
                            if peer_lane(dd, gen, k as int, Option::Some(l)) {
                                let j = choose|j: int|
                                    0 <= j < dd.len() && j < gen.len() && (#[trigger] dd[j]).side
                                        == dd[k as int].side && !(dd[j].object_type is Top)
                                        && arrive_of(dd[j]) == arrive_of(dd[k as int])
                                        && Option::Some(l) == Option::Some(gen[j]);
                                let kk = choose|kk: int|
                                    0 <= kk < lastmask@.len() && #[trigger] lastmask@[kk]
                                        == Option::Some(gen[j]);
                                assert(mask_lists_lane(lastmask@, l));
                            }
                            if previous_lane(dd, gen, k as int, bpm0, Option::Some(l)) {
                                let j = choose|j: int|
                                    #[trigger] leads_last_group(dd, k as int, j) && j < gen.len()
                                        && !(dd[j].object_type is Top) && (arrive_of(
                                        dd[k as int],
                                    ) - arrive_of(dd[j])) * bpm0 <= AVOID_WINDOW_MS_MILLIBPM
                                        && Option::Some(l) == Option::Some(gen[j]);
                                let kk = choose|kk: int|
                                    0 <= kk < lastmask@.len() && #[trigger] lastmask@[kk]
                                        == Option::Some(gen[j]);
                                assert(mask_lists_lane(lastmask@, l));
                            }
                        }
                        // a free-and-unmasked lane exists exactly when the
                        // picker sees a free one
                        if free_gen_lane_exists(dd, gen, occupied@, bpm0, k as int) {
                            let l = choose|l: u32|
                                l < BOTTOM_SLOT_COUNT && occupied@[dd[k as int].side
                                    * BOTTOM_SLOT_COUNT + l] == 0 && !(
                                #[trigger] gen_lane_masked(dd, gen, bpm0, k as int, l));
                            assert(occupied@[base + l] + adj@[l as int] == 0);
                            assert(lane_free_exists(occupied@, base as int, adj@));
                        }
                        if lane_free_exists(occupied@, base as int, adj@) {
                            let l = choose|l: int|
                                0 <= l < BOTTOM_SLOT_COUNT && #[trigger] occupied@[base as int + l]
                                    + adj@[l] == 0;
                            assert(occupied@[dd[k as int].side * BOTTOM_SLOT_COUNT + (
                            l as u32)] == 0 && !gen_lane_masked(dd, gen, bpm0, k as int, l as u32));
                            assert(free_gen_lane_exists(dd, gen, occupied@, bpm0, k as int));
                        }
                    }
                    let draw = range_rng(0, (BOTTOM_SLOT_COUNT - 1) as i64) as u32;
                    let (p2, exhausted) = pick_free_lane(occupied, base, &adj, draw);
                    pos = p2;
                    if exhausted {
                        push_warning(
                            warnings,
                            arrive_time,
                            Ghost(desc.objects@),
                            Ghost(k as int),
                        );
                    }
                },
            }
            spawn_x = range_rng(SPAWN_X_MIN, SPAWN_X_MAX);
        },
        Objecttype::Top => {
            pos = match dk.pos {
                Some(p) => p,
                None => 0,
            };
            spawn_x = TOP_SPAWN_X_START + TOP_SPAWN_X_SPACING * pos as i64;
        },
        Objecttype::Vertical => {
            pos = match dk.pos {
                Some(p) => p,
                None => 0,
            };
            spawn_x = BOTTOM_SLOT_START_X + BOTTOM_SLOT_SPACING * pos as i64;
        },
        Objecttype::Slide => {
            pos = match dk.pos {
                Some(p) => p,
                None => 0,
            };
            spawn_x = BOTTOM_SLOT_START_X + BOTTOM_SLOT_SPACING * pos as i64;
        },
    }
    (pos, spawn_x)
}

/// The lane after the span extensions: a Normal chain head re-draws a lane
/// that clears the Vertical notes and the groups arriving during its chain,
/// and a Normal long note does the same over its held window; when every
/// lane is taken the current lane stands and a warning is recorded.
fn extended_lane(
    desc: &FumenDescription,
    k: usize,
    pos_in: u32,
    head_not_set: bool,
    occupied: &Vec<i64>,
    vo_times: &Vec<VoTime>,
    warnings: &mut Vec<i64>,
) -> (r: u32)
    requires
        k < desc.objects@.len(),
        desc.objects@.len() <= 0xffff_ffff,
        pos_in < BOTTOM_SLOT_COUNT,
        all_times_ok(desc.objects@),
        crate::parse::positions_in_range(desc.objects@),
        objects_sorted(desc.objects@),
        desc_shape_ok(desc.objects@),
        desc.bpm@.len() > 0 && 0 < desc.bpm@[0] <= BPM_LIMIT_MILLIBPM,
        occupied@.len() == 2 * BOTTOM_SLOT_COUNT,
        forall|l: int| 0 <= l < 2 * BOTTOM_SLOT_COUNT ==> 0 <= #[trigger] occupied@[l]
            <= 0x2000_0000_0000,
        forall|w: int| 0 <= w < vo_times@.len() ==> (#[trigger] vo_times@[w]).pos
            < BOTTOM_SLOT_COUNT,
        vo_times@.len() <= desc.objects@.len(),
        forall|wi: int| 0 <= wi < old(warnings)@.len() ==> warning_named(
            desc.objects@,
            #[trigger] old(warnings)@[wi],
        ),
    ensures
        r < BOTTOM_SLOT_COUNT,
        forall|wi: int| 0 <= wi < final(warnings)@.len() ==> warning_named(
            desc.objects@,
            #[trigger] final(warnings)@[wi],
        ),
{
    let ghost d = desc.objects@;
    let n = desc.objects.len();
    let dk = desc.objects[k];
    proof {
        assert(dk == d[k as int]);
        assert(crate::parse::desc_times_ok(d[k as int]));
    }
    let arrive_time = dk.arrive_time();
    let side = dk.side;
    let base = (side * BOTTOM_SLOT_COUNT) as usize;
    let mut pos = pos_in;
    // ----- chain-head extension -----
    match dk.chained {
        Some(next0) => {
            if matches!(dk.object_type, Objecttype::Normal) && head_not_set {
                let mut terminal: usize = next0 as usize;
                loop
                    invariant
                        n == desc.objects@.len() == d.len(),
                        d == desc.objects@,
                        all_times_ok(d),
                        desc_shape_ok(d),
                        k < terminal < n,
                    ensures
                        k < terminal < n,
                        n == desc.objects@.len(),
                        d == desc.objects@,
                    decreases n - terminal,
                {
                    match desc.objects[terminal].chained {
                        Some(nn) => {
                            terminal = nn as usize;
                        },
                        None => {
                            break ;
                        },
                    }
                }
                let end_time = desc.objects[terminal].arrive_time();
                let mut vo_adj = zero_row(BOTTOM_SLOT_COUNT as usize);
                apply_vo_mask(&mut vo_adj, vo_times, side, arrive_time, end_time);
                let chainmask = desc.next_object_pos(terminal as u32);
                apply_mask(&mut vo_adj, &chainmask);
                let (p2, exhausted) = pick_free_lane(occupied, base, &vo_adj, pos);
                pos = p2;
                if exhausted {
                    push_warning(warnings, arrive_time, Ghost(d), Ghost(k as int));
                }
            }
        },
        None => {},
    }
    // ----- long-note extension -----
    match dk.duration {
        Some(dur) => {
            if matches!(dk.object_type, Objecttype::Normal) {
                let end_time = arrive_time + dur;
                let mut vo_adj = zero_row(BOTTOM_SLOT_COUNT as usize);
                apply_vo_mask(&mut vo_adj, vo_times, side, arrive_time, end_time);
                let lomask = desc.next_object_pos_raw(end_time, side);
                apply_mask(&mut vo_adj, &lomask);
                let (p2, exhausted) = pick_free_lane(occupied, base, &vo_adj, pos);
                pos = p2;
                if exhausted {
                    push_warning(warnings, arrive_time, Ghost(d), Ghost(k as int));
                }
            }
        },
        None => {},
    }
    pos
}

/// Whether another note of this note's board arrives at the same instant,
/// decided from the nearest same-side neighbours.
fn chord_flag(desc: &FumenDescription, k: usize) -> (r: bool)
    requires
        k < desc.objects@.len(),
        desc.objects@.len() <= 0xffff_ffff,
        all_times_ok(desc.objects@),
        objects_sorted(desc.objects@),
    ensures
        r == is_chord(desc.objects@, k as int),
{
    let ghost d = desc.objects@;
    let dk = desc.objects[k];
    proof {
        assert(dk == d[k as int]);
        assert(crate::parse::desc_times_ok(d[k as int]));
    }
    let arrive_time = dk.arrive_time();
    let lastid = desc.last_object_id(k as u32);
    let nextid = desc.next_object_id(k as u32);
    let lastchord = match lastid {
        Some(l) => desc.objects[l as usize].arrive_time() == arrive_time,
        None => false,
    };
    let nextchord = match nextid {
        Some(j) => desc.objects[j as usize].arrive_time() == arrive_time,
        None => false,
    };
    let chord = lastchord || nextchord;
    proof {
        lemma_chord_decision(d, k as int, lastid, nextid, lastchord, nextchord);
    }
    chord
}

impl FumenDescription {
    /// Resolve the chart. The description must already be ordered by
    /// arrival time and structurally sound; the authored delay is folded
    /// into every spawn time, then every note receives its lane, spawn
    /// point, destination, reflection waypoint and chord flag, chain edges
    /// and slide paths are assembled, and the outputs are ordered. Lane
    /// conflicts are avoided whenever a free lane exists; when none does,
    /// the arrival time is recorded as a warning and the draw stands.
    #[verifier::rlimit(100)]
    pub fn into_fumen(&mut self, song_offset: i64) -> (r: Result<Fumen, GenerateError>)
        ensures
            !structure_ok(old(self).objects@, old(self).sopoints@, old(self).bpm@, old(self).delay)
                ==> r == Result::<Fumen, GenerateError>::Err(GenerateError::InvariantViolation)
                && *final(self) == *old(self),
            structure_ok(old(self).objects@, old(self).sopoints@, old(self).bpm@, old(self).delay)
                && !objects_sorted(old(self).objects@) ==> r == Result::<
                Fumen,
                GenerateError,
            >::Err(GenerateError::UnorderedInput) && *final(self) == *old(self),
            structure_ok(old(self).objects@, old(self).sopoints@, old(self).bpm@, old(self).delay)
                && objects_sorted(old(self).objects@) ==> {
                &&& r is Ok
                &&& delay_folded(
                    old(self).objects@,
                    final(self).objects@,
                    old(self).delay as int,
                )
                &&& sopoints_folded(
                    old(self).sopoints@,
                    final(self).sopoints@,
                    old(self).delay as int,
                )
                &&& final(self).bpm == old(self).bpm
                &&& final(self).delay == old(self).delay
            },
            match r {
                Result::Ok(f) => resolved_ok(
                    final(self).objects@,
                    final(self).sopoints@,
                    f,
                    old(self).bpm@[0] as int,
                    old(self).delay as int,
                    song_offset as int,
                ) && f.metadata.name@ == old(self).name@ && f.metadata.artist@ == old(self).artist@
                    && f.metadata.charter@ == old(self).charter@ && f.metadata.level == old(
                    self,
                ).level && f.metadata.difficulty@ == old(self).difficulty@,
                Result::Err(e) => e == GenerateError::UnorderedInput || e
                    == GenerateError::InvariantViolation,
            },
    {
        if !self.structure_valid() {
            return Err(GenerateError::InvariantViolation);
        }
        proof {
            assert forall|k: int| 0 <= k < self.objects@.len() implies crate::parse::desc_times_ok(
                #[trigger] self.objects@[k],
            ) by {
                assert(note_struct_ok(self.objects@[k], k, self.objects@.len() as int));
            }
        }
        if !self.objects_valid() {
            return Err(GenerateError::UnorderedInput);
        }
        let delay = self.delay;
        let bpm0 = self.bpm[0];
        proof {
            assert forall|k: int| 0 <= k < self.objects@.len() implies -TIME_LIMIT_MS <= (
            #[trigger] self.objects@[k]).starttime <= TIME_LIMIT_MS by {
                assert(note_struct_ok(self.objects@[k], k, self.objects@.len() as int));
            }
            assert forall|q: int| 0 <= q < self.sopoints@.len() implies -TIME_LIMIT_MS <= (
            #[trigger] self.sopoints@[q]).starttime <= TIME_LIMIT_MS by {
                assert(sopoint_struct_ok(self.sopoints@[q], self.objects@));
            }
        }
        let ghost unshifted = self.objects@;
        let ghost unshifted_sop = self.sopoints@;
        fold_delay(&mut self.objects, delay);
        fold_sop_delay(&mut self.sopoints, delay);
        let ghost d = self.objects@;
        let ghost sop = self.sopoints@;
        let n = self.objects.len();
        proof {
            assert forall|k: int| 0 <= k < n implies arrive_of(#[trigger] d[k]) == arrive_of(
                unshifted[k],
            ) + delay by {}
            assert(objects_sorted(d));
            assert forall|k: int| 0 <= k < n implies crate::parse::desc_times_ok(
                #[trigger] d[k],
            ) by {
                assert(note_struct_ok(unshifted[k], k, n as int));
            }
            assert(all_times_ok(d));
            assert forall|k: int|
                0 <= k < n implies {
                    let dd = #[trigger] d[k];
                    &&& match dd.pos {
                        Option::Some(p) => if dd.object_type is Top {
                            p < TOP_SLOT_COUNT
                        } else {
                            p < BOTTOM_SLOT_COUNT
                        },
                        Option::None => true,
                    }
                    &&& (dd.object_type is Top || dd.object_type is Vertical || dd.object_type
                        is Slide) ==> dd.pos is Some
                    &&& dd.side < 2
                    &&& match dd.chained {
                        Option::Some(t) => k < t < n,
                        Option::None => true,
                    }
                    &&& match dd.source {
                        Option::Some(src) => src < k,
                        Option::None => true,
                    }
                } by {
                assert(note_struct_ok(unshifted[k], k, n as int));
            }
            assert(desc_shape_ok(d));
            assert(crate::parse::positions_in_range(d));
            assert forall|q: int|
                0 <= q < sop.len() implies {
                    let p = #[trigger] sop[q];
                    &&& p.noteid < n
                    &&& d[p.noteid as int].pos is Some
                    &&& p.pos < BOTTOM_SLOT_COUNT
                    &&& -2 * TIME_LIMIT_MS <= p.starttime <= 2 * TIME_LIMIT_MS
                    &&& 0 <= p.flytime <= TIME_LIMIT_MS
                } by {
                assert(sopoint_struct_ok(unshifted_sop[q], unshifted));
            }
            assert(sop_shape_ok(sop, d));
        }
        // Tempo range for the HUD text.
        let mut minbpm = bpm0;
        let mut maxbpm = bpm0;
        let nbpm = self.bpm.len();
        let mut bi: usize = 0;
        while bi < nbpm
            invariant
                nbpm == self.bpm@.len(),
                bi <= nbpm,
            decreases nbpm - bi,
        {
            let b = self.bpm[bi];
            if b < minbpm {
                minbpm = b;
            }
            if b > maxbpm {
                maxbpm = b;
            }
            bi = bi + 1;
        }
        let metadata = FumenMetadata {
            name: self.name.clone(),
            artist: self.artist.clone(),
            charter: self.charter.clone(),
            bpm: bpm_range_text(minbpm / 1000, maxbpm / 1000),
            difficulty: self.difficulty.clone(),
            level: self.level,
        };
        // Arrivals of Vertical notes, so generated lanes can avoid them.
        let mut vo_times: Vec<VoTime> = Vec::new();
        let mut vk: usize = 0;
        while vk < n
            invariant
                n == self.objects@.len(),
                d == self.objects@,
                all_times_ok(d),
                desc_shape_ok(d),
                vk <= n,
                forall|w: int| 0 <= w < vo_times@.len() ==> (#[trigger] vo_times@[w]).pos
                    < BOTTOM_SLOT_COUNT,
                vo_times@.len() <= vk,
            decreases n - vk,
        {
            let o = self.objects[vk];
            if matches!(o.object_type, Objecttype::Vertical) {
                let p = match o.pos {
                    Some(p) => p,
                    None => 0,
                };
                vo_times.push(VoTime { side: o.side, time: o.arrive_time(), pos: p });
            }
            vk = vk + 1;
        }
        let occupy_duration = occupy_guard_ms(bpm0);
        let mut objects_out: Vec<Object> = Vec::new();
        let mut chains: Vec<Chain> = Vec::new();
        let mut chain_pos = none_table_u32(n);
        let mut chain_prev = none_table_u32(n);
        let mut chain_spawn = none_table_pair(n);
        let mut reflect_pos = none_table_pair(n);
        let mut generated_pos: Vec<u32> = Vec::new();
        let mut occupied = zero_row(2 * BOTTOM_SLOT_COUNT as usize);
        let mut occupy_events: Vec<OccupyEvent> = Vec::new();
        let mut overlap_warnings: Vec<i64> = Vec::new();
        proof {
            reveal_with_fuel(expected_edges, 1);
            assert(Seq::<Chain>::empty() =~= expected_edges(d, objects_out@, 0));
        }
        let mut k: usize = 0;
        while k < n
            invariant
                n == self.objects@.len() == d.len(),
                n <= 0xffff_ffff,
                d == self.objects@,
                sop == self.sopoints@,
                self.bpm@.len() > 0 && self.bpm@[0] == bpm0 && 0 < bpm0 <= BPM_LIMIT_MILLIBPM,
                objects_sorted(d),
                all_times_ok(d),
                desc_shape_ok(d),
                crate::parse::positions_in_range(d),
                k <= n,
                objects_out@.len() == k,
                generated_pos@.len() == k,
                reflect_pos@.len() == n,
                forall|l: int| 0 <= l < generated_pos@.len() ==> #[trigger] generated_pos@[l]
                    < BOTTOM_SLOT_COUNT,
                forall|w: int| 0 <= w < vo_times@.len() ==> (#[trigger] vo_times@[w]).pos
                    < BOTTOM_SLOT_COUNT,
                vo_times@.len() <= n,
                0 <= occupy_duration <= AVOID_WINDOW_MS_MILLIBPM,
                events_shaped(occupy_events@),
                occupied_matches(occupied@, occupy_events@),
                occupy_events@.len() <= 2 * k,
                // every resolved note satisfies its promises
                forall|k2: int| 0 <= k2 < k ==> #[trigger] note_resolved_ok(d, objects_out@, k2),
                // chain tables always point at the last resolved head
                chain_tables_ok(d, objects_out@, chain_pos@, chain_prev@, chain_spawn@, k as int),
                // the reflection memo holds board points, once per source
                forall|t: int|
                    0 <= t < n ==> match #[trigger] reflect_pos@[t] {
                        Option::Some(w) => -BOARD_LIMIT <= w.0 <= BOARD_LIMIT && -BOARD_LIMIT
                            <= w.1 <= BOARD_LIMIT && t < k && (exists|k0: int|
                            #[trigger] first_reflectee(d, t, k0) && k0 < k && waypoint_choice_ok(
                                Coord2d { x: w.0, y: w.1 },
                                objects_out@[t].dest,
                                objects_out@[k0].dest,
                            )),
                        Option::None => true,
                    },
                forall|k2: int|
                    0 <= k2 < k && (#[trigger] d[k2]).source is Some && !(objects_out@[k2].objtype
                        is Top) ==> {
                        let s = d[k2].source->Some_0;
                        &&& reflect_pos@[s as int] is Some
                        &&& objects_out@[k2].reflect == Option::Some(
                            Coord2d {
                                x: reflect_pos@[s as int]->Some_0.0,
                                y: reflect_pos@[s as int]->Some_0.1,
                            },
                        )
                    },
                // chain edges emitted so far: sound, and one per bonded
                // pair of the player's board
                forall|ci: int|
                    0 <= ci < chains@.len() ==> chain_edge_ok(
                        #[trigger] chains@[ci],
                        objects_out@,
                        d,
                    ) && chains@[ci].tail.side == 0,
                chains@.len() == count_chain_edges(d, k as int),
                chains@ == expected_edges(d, objects_out@, k as int),
                // every recorded warning names a note's arrival
                forall|wi: int| 0 <= wi < overlap_warnings@.len() ==> warning_named(
                    d,
                    #[trigger] overlap_warnings@[wi],
                ),
            decreases n - k,
        {
            let ghost objs_start = objects_out@;
            let ghost chains_start = chains@;
            let ghost refl_start = reflect_pos@;
            let ghost mut memo_written: bool = false;
            let ghost mut memo_src: int = 0;
            let dk = self.objects[k];
            proof {
                assert(d[k as int] == dk);
                assert(crate::parse::desc_times_ok(d[k as int]));
            }
            let arrive_time = dk.arrive_time();
            let spawn_time = dk.starttime;
            let side = dk.side;
            let objtype = dk.object_type;
            let duration = dk.duration;
            let base = (side * BOTTOM_SLOT_COUNT) as usize;
            drain_events(&mut occupy_events, &mut occupied, side, arrive_time);
            proof {
                lemma_occ_bounds(occupied@, occupy_events@);
            }
            // ----- lane choice by kind -----
            let (pos0, spawn_x0) = initial_lane_and_spawn(
                &*self,
                k,
                &occupied,
                &generated_pos,
                &mut overlap_warnings,
            );
            let mut pos: u32 = pos0;
            let mut spawn_x: i64 = spawn_x0;
            let mut spawn_y: i64 = SPAWN_Y_POSITION;
            // ----- span extensions for chain heads and long notes -----
            let head_not_set = matches!(chain_pos[k], None);
            pos = extended_lane(
                &*self,
                k,
                pos,
                head_not_set,
                &occupied,
                &vo_times,
                &mut overlap_warnings,
            );
            // whether this note is a chain target, and which head it
            // inherits from, is settled by the tables
            proof {
                assert(chain_tables_ok(
                    d,
                    objects_out@,
                    chain_pos@,
                    chain_prev@,
                    chain_spawn@,
                    k as int,
                ));
                match chain_prev@[k as int] {
                    Option::Some(h) => {
                        lemma_last_writer_is_head(d, k as int, h as int);
                        assert(is_chain_target(d, k as int));
                        assert(chain_pos@[k as int] == Option::Some(
                            objects_out@[h as int].pos,
                        ));
                        assert(chain_spawn@[k as int] == Option::Some(
                            (objects_out@[h as int].spawn.x, objects_out@[h as int].spawn.y),
                        ));
                        assert(note_resolved_ok(d, objects_out@, h as int));
                        assert(object_well_formed(objects_out@[h as int]));
                    },
                    Option::None => {
                        lemma_no_writer_not_target(d, k as int);
                        assert(chain_pos@[k as int] is None);
                        assert(chain_spawn@[k as int] is None);
                    },
                }
            }
            // ----- chain-follower override, then the authored lane wins -----
            match chain_pos[k] {
                Some(cp) => {
                    proof {
                        assert(chain_prev@[k as int] is Some);
                        let h = chain_prev@[k as int]->Some_0;
                        assert(note_resolved_ok(d, objects_out@, h as int));
                    }
                    pos = cp;
                    proof {
                        assert(pos < BOTTOM_SLOT_COUNT);
                    }
                },
                None => {},
            }
            match dk.pos {
                Some(p) => {
                    pos = p;
                    proof {
                        assert(pos < BOTTOM_SLOT_COUNT);
                    }
                },
                None => {},
            }
            generated_pos.push(pos);
            // ----- spawn point and reflection -----
            let mut reflect: Option<(i64, i64)> = None;
            match dk.source {
                Some(src) => {
                    proof {
                        assert(note_resolved_ok(d, objects_out@, src as int));
                        assert(object_well_formed(objects_out@[src as int]));
                    }
                    let srcobj = objects_out[src as usize];
                    spawn_x = srcobj.dest.x;
                    spawn_y = srcobj.dest.y;
                    if !matches!(objtype, Objecttype::Top) {
                        match reflect_pos[src as usize] {
                            Some(w) => {
                                reflect = Some(w);
                            },
                            None => {
                                proof {
                                    // no earlier non-Top note reflects off
                                    // this source, else the memo would
                                    // already hold its waypoint
                                    assert forall|k2: int| 0 <= k2 < k implies !((
                                    #[trigger] d[k2]).source == Option::Some(src) && !(
                                    d[k2].object_type is Top)) by {
                                        if d[k2].source == Option::Some(src) && !(
                                        d[k2].object_type is Top) {
                                            assert(note_resolved_ok(d, objects_out@, k2));
                                            assert(objects_out@[k2].objtype == d[k2].object_type);
                                        }
                                    }
                                    assert(first_reflectee(d, src as int, k as int));
                                    memo_written = true;
                                    memo_src = src as int;
                                }
                                let reflec_y = range_rng(REFLECT_Y_MIN, REFLECT_Y_MAX);
                                let dest = Object::destination(objtype, pos, side);
                                let w = choose_reflect(
                                    Coord2d { x: spawn_x, y: spawn_y },
                                    dest,
                                    reflec_y,
                                );
                                reflect = Some(w);
                                reflect_pos.set(src as usize, Some(w));
                            },
                        }
                    }
                },
                None => {
                    match chain_spawn[k] {
                        Some(cs) => {
                            proof {
                                assert(chain_prev@[k as int] is Some);
                                let h = chain_prev@[k as int]->Some_0;
                                assert(note_resolved_ok(d, objects_out@, h as int));
                                assert(object_well_formed(objects_out@[h as int]));
                            }
                            spawn_x = cs.0;
                            spawn_y = cs.1;
                        },
                        None => {},
                    }
                },
            }
            // ----- chord flag -----
            let chord = chord_flag(&*self, k);
            // A note that does not reflect keeps its spawn point as waypoint.
            if matches!(reflect, None) {
                reflect = Some((spawn_x, spawn_y));
            }
            let result = Object::new(
                spawn_time,
                arrive_time,
                side,
                spawn_x,
                spawn_y,
                objtype,
                pos,
                reflect,
                duration,
                chord,
            );
            objects_out.push(result);
            // ----- chain edge for rendering; the opponent board has none -----
            if side == 0 {
                match chain_prev[k] {
                    Some(prev) => {
                        let edge = Chain { head: objects_out[prev as usize], tail: result };
                        proof {
                            let h = prev as int;
                            let t = k as int;
                            assert(objects_out@[h] == edge.head && objects_out@[t] == edge.tail);
                            assert(d[h].chained == Option::Some(k as u32));
                            assert(chain_edge_ok(edge, objects_out@, d));
                        }
                        chains.push(edge);
                    },
                    None => {},
                }
            }
            // ----- register chain inheritance and occupations -----
            let ghost cpos_start = chain_pos@;
            let ghost cprev_start = chain_prev@;
            let ghost cspawn_start = chain_spawn@;
            match dk.chained {
                Some(next) => {
                    chain_pos.set(next as usize, Some(pos));
                    chain_prev.set(next as usize, Some(k as u32));
                    chain_spawn.set(next as usize, Some((spawn_x, spawn_y)));
                    proof {
                        lemma_chain_tables_register(
                            d,
                            objs_start,
                            result,
                            cpos_start,
                            cprev_start,
                            cspawn_start,
                            chain_pos@,
                            chain_prev@,
                            chain_spawn@,
                            k as int,
                            next as int,
                        );
                    }
                    if !matches!(objtype, Objecttype::Top) {
                        let ntime = self.objects[next as usize].arrive_time();
                        register_occupation(&mut occupied, &mut occupy_events, side, pos, ntime);
                    }
                },
                None => {
                    proof {
                        lemma_chain_tables_nowrite(
                            d,
                            objs_start,
                            result,
                            cpos_start,
                            cprev_start,
                            cspawn_start,
                            k as int,
                        );
                    }
                },
            }
            if matches!(objtype, Objecttype::Normal) || matches!(objtype, Objecttype::Vertical) {
                match duration {
                    Some(dur) => {
                        proof {
                            assert(-2 * TIME_LIMIT_MS <= arrive_time + dur <= 4 * TIME_LIMIT_MS);
                        }
                        let release = arrive_time + dur + occupy_duration;
                        register_occupation(&mut occupied, &mut occupy_events, side, pos, release);
                    },
                    None => {},
                }
            }
            proof {
                assert(objects_out@ == objs_start.push(result));
                lemma_nro_prefix_push(d, objs_start, result);
                assert(note_resolved_ok(d, objects_out@, k as int));
                lemma_edges_push(d, objs_start, result, chains_start);
                assert forall|ci: int|
                    0 <= ci < chains@.len() implies chain_edge_ok(
                    #[trigger] chains@[ci],
                    objects_out@,
                    d,
                ) && chains@[ci].tail.side == 0 by {
                    if ci < chains_start.len() {
                        assert(chains@[ci] == chains_start[ci]);
                        assert(chain_edge_ok(chains_start[ci], objects_out@, d));
                    }
                }
                // one edge was pushed exactly when this note is a chain
                // target of the player's board
                assert(count_chain_edges(d, k + 1) == count_chain_edges(d, k as int) + (if d[
                    k as int
                ].side == 0 && is_chain_target(d, k as int) {
                    1int
                } else {
                    0int
                }));
                assert(chains@.len() == count_chain_edges(d, k + 1));
                // and that edge, when pushed, is the one the edge list spec
                // names: last bonding head joined to this target
                reveal_with_fuel(expected_edges, 2);
                lemma_expected_edges_push(d, objs_start, result, k as int);
                lemma_last_writer_props(d, k as int, k as int);
                assert(chain_prev@[k as int] == cprev_start[k as int]);
                match cprev_start[k as int] {
                    Option::Some(h) => {
                        let lw = last_writer(d, k as int, k as int);
                        assert(d[h as int].chained == Option::Some(k as u32));
                        assert(h <= lw);
                        assert(lw <= h);
                        assert(objects_out@[h as int] == objs_start[h as int]);
                        assert(chains@ =~= expected_edges(d, objects_out@, k + 1));
                    },
                    Option::None => {
                        assert(last_writer(d, k as int, k as int) < 0);
                        assert(chains@ =~= expected_edges(d, objects_out@, k + 1));
                    },
                }
                lemma_memo_step(
                    d,
                    objs_start,
                    result,
                    refl_start,
                    reflect_pos@,
                    k as int,
                    memo_written,
                    memo_src,
                );
            }
            k = k + 1;
        }
        let ghost chains0 = chains@;
        let chains = sort_chains(chains);
        proof {
            broadcast use vstd::seq_lib::group_to_multiset_ensures;

            assert(chains0 == expected_edges(d, objects_out@, n as int));
            assert(chains@.to_multiset() == expected_edges(d, objects_out@, n as int).to_multiset());

            assert forall|ci: int|
                0 <= ci < chains@.len() implies chain_edge_ok(
                #[trigger] chains@[ci],
                objects_out@,
                d,
            ) && chains@[ci].tail.side == 0 by {
                let c = chains@[ci];
                assert(chains@.contains(c));
                assert(chains@.to_multiset().count(c) > 0);
                assert(chains0.to_multiset().count(c) > 0);
                assert(chains0.contains(c));
                let ci0 = choose|ci0: int| 0 <= ci0 < chains0.len() && chains0[ci0] == c;
                assert(chain_edge_ok(chains0[ci0], objects_out@, d));
            }
        }
        // ----- slide paths: anchor geometry plus attached points -----
        let nso = self.sopoints.len();
        let mut sliders: Vec<Slider> = Vec::new();
        let mut id: usize = 0;
        while id < n
            invariant
                n == self.objects@.len() == d.len(),
                d == self.objects@,
                sop == self.sopoints@,
                nso == sop.len(),
                all_times_ok(d),
                desc_shape_ok(d),
                sop_shape_ok(sop, d),
                objects_out@.len() == n,
                forall|k2: int| 0 <= k2 < n ==> #[trigger] note_resolved_ok(d, objects_out@, k2),
                id <= n,
                forall|si: int| 0 <= si < sliders@.len() ==> slider_parts_ok(
                    #[trigger] sliders@[si],
                    objects_out@,
                ),
                sliders@.map_values(|s: Slider| s.parts@) == expected_parts_list(
                    d,
                    objects_out@,
                    sop,
                    id as int,
                ),
            decreases n - id,
        {
            if self.objects.len() > 0 && objects_out[id].side == 0 {
                let anchor = objects_out[id];
                let mut parts: Vec<SlidePoint> = Vec::new();
                let mut q: usize = 0;
                while q < nso
                    invariant
                        n == self.objects@.len() == d.len(),
                        d == self.objects@,
                        sop == self.sopoints@,
                        nso == sop.len(),
                        sop_shape_ok(sop, d),
                        id < n,
                        q <= nso,
                        anchor == objects_out@[id as int],
                        objects_out@.len() == n,
                        forall|k2: int| 0 <= k2 < n ==> #[trigger] note_resolved_ok(
                            d,
                            objects_out@,
                            k2,
                        ),
                        anchor.side == 0,
                        parts@.len() == 0 || (parts@[0].spawn_time == anchor.spawn_time
                            && parts@[0].arrive_time == anchor.arrive_time && parts@[0].spawn
                            == anchor.spawn && parts@[0].dest == anchor.dest),
                        forall|pi: int|
                            1 <= pi < parts@.len() ==> {
                                let p = #[trigger] parts@[pi];
                                &&& p.pos < BOTTOM_SLOT_COUNT
                                &&& p.spawn.x == BOTTOM_SLOT_START_X + BOTTOM_SLOT_SPACING * p.pos
                                &&& p.spawn.y == SPAWN_Y_POSITION
                                &&& p.dest == destination_spec(Objecttype::Slide, p.pos, 0)
                            },
                        forall|pi: int| 0 <= pi < parts@.len() ==> slide_point_well_formed(
                            #[trigger] parts@[pi],
                        ),
                        parts@ == (if attached_points(sop.take(q as int), id as int).len() == 0 {
                            Seq::<SlidePoint>::empty()
                        } else {
                            parts_of(
                                anchor,
                                apos_of(d, id as int),
                                attached_points(sop.take(q as int), id as int),
                            )
                        }),
                    decreases nso - q,
                {
                    let p = self.sopoints[q];
                    let ghost att_q = attached_points(sop.take(q as int), id as int);
                    proof {
                        assert(sop.take(q + 1) =~= sop.take(q as int).push(sop[q as int]));
                        lemma_attached_push(sop.take(q as int), sop[q as int], id as int);
                    }
                    if p.noteid as usize == id {
                        if parts.len() == 0 {
                            let anchor_pos = match self.objects[id].pos {
                                Some(ap) => ap,
                                None => 0,
                            };
                            proof {
                                assert(note_resolved_ok(d, objects_out@, id as int));
                                assert(object_well_formed(objects_out@[id as int]));
                                assert(anchor_pos == apos_of(d, id as int));
                            }
                            parts.push(
                                SlidePoint {
                                    pos: anchor_pos,
                                    spawn_time: anchor.spawn_time,
                                    arrive_time: anchor.arrive_time,
                                    spawn: anchor.spawn,
                                    dest: anchor.dest,
                                },
                            );
                        }
                        let dest = Object::destination(Objecttype::Slide, p.pos, anchor.side);
                        parts.push(
                            SlidePoint {
                                pos: p.pos,
                                spawn_time: p.starttime,
                                arrive_time: p.starttime + p.flytime,
                                spawn: Coord2d {
                                    x: BOTTOM_SLOT_START_X + BOTTOM_SLOT_SPACING * p.pos as i64,
                                    y: SPAWN_Y_POSITION,
                                },
                                dest,
                            },
                        );
                        proof {
                            assert(attached_points(sop.take(q + 1), id as int) =~= att_q.push(
                                sop[q as int],
                            ));
                            assert(parts@ =~= parts_of(
                                anchor,
                                apos_of(d, id as int),
                                attached_points(sop.take(q + 1), id as int),
                            ));
                        }
                    } else {
                        proof {
                            assert(attached_points(sop.take(q + 1), id as int) =~= att_q);
                        }
                    }
                    q = q + 1;
                }
                proof {
                    assert(sop.take(nso as int) =~= sop);
                }
                if parts.len() > 0 {
                    let s = Slider { parts };
                    proof {
                        assert(objects_out@[id as int].side == 0);
                        assert(slider_parts_ok(s, objects_out@));
                        assert(attached_points(sop, id as int).len() > 0);
                    }
                    sliders.push(s);
                    proof {
                        assert(sliders@.map_values(|s2: Slider| s2.parts@) =~= expected_parts_list(
                            d,
                            objects_out@,
                            sop,
                            id + 1,
                        ));
                    }
                } else {
                    proof {
                        assert(attached_points(sop, id as int).len() == 0);
                        assert(sliders@.map_values(|s2: Slider| s2.parts@) =~= expected_parts_list(
                            d,
                            objects_out@,
                            sop,
                            id + 1,
                        ));
                    }
                }
            } else {
                proof {
                    assert(objects_out@[id as int].side != 0);
                    assert(sliders@.map_values(|s2: Slider| s2.parts@) =~= expected_parts_list(
                        d,
                        objects_out@,
                        sop,
                        id + 1,
                    ));
                }
            }
            id = id + 1;
        }
        let ghost sliders0 = sliders@;
        proof {
            assert forall|si: int| 0 <= si < sliders0.len() implies (
            #[trigger] sliders0[si]).parts@.len() >= 1 by {
                assert(slider_parts_ok(sliders0[si], objects_out@));
            }
        }
        let sliders = sort_sliders(sliders);
        proof {
            broadcast use vstd::seq_lib::group_to_multiset_ensures;

            lemma_parts_multiset(sliders@, sliders0);
            assert(sliders0.map_values(|s2: Slider| s2.parts@) == expected_parts_list(
                d,
                objects_out@,
                sop,
                n as int,
            ));
            assert forall|si: int| 0 <= si < sliders@.len() implies slider_parts_ok(
                #[trigger] sliders@[si],
                objects_out@,
            ) by {
                let s = sliders@[si];
                assert(sliders@.contains(s));
                assert(sliders@.to_multiset().count(s) > 0);
                assert(sliders0.to_multiset().count(s) > 0);
                assert(sliders0.contains(s));
                let si0 = choose|si0: int| 0 <= si0 < sliders0.len() && sliders0[si0] == s;
                assert(slider_parts_ok(sliders0[si0], objects_out@));
            }
        }
        proof {
            assert forall|i: int, j: int|
                0 <= i < j < d.len() implies (#[trigger] objects_out@[i]).arrive_time <= (
            #[trigger] objects_out@[j]).arrive_time by {
                assert(note_resolved_ok(d, objects_out@, i));
                assert(note_resolved_ok(d, objects_out@, j));
            }
            assert forall|k1: int, k2: int|
                0 <= k1 < d.len() && 0 <= k2 < d.len() && (#[trigger] d[k1]).source is Some && (
                #[trigger] d[k2]).source is Some && d[k1].source == d[k2].source && !(
                objects_out@[k1].objtype is Top) && !(objects_out@[k2].objtype
                    is Top) implies objects_out@[k1].reflect == objects_out@[k2].reflect by {
                let s = d[k1].source->Some_0;
                assert(reflect_pos@[s as int] is Some);
            }
            assert(reflect_shared_ok(d, objects_out@));
            // each reflected note's waypoint is the board-edge point chosen
            // against its source's first non-Top reflectee
            assert forall|k2: int|
                0 <= k2 < d.len() && (#[trigger] d[k2]).source is Some && !(
                objects_out@[k2].objtype is Top) implies ({
                let src = d[k2].source->Some_0;
                exists|k0: int|
                    #[trigger] first_reflectee(d, src as int, k0) && match objects_out@[k2].reflect {
                        Option::Some(w) => waypoint_choice_ok(
                            w,
                            objects_out@[src as int].dest,
                            objects_out@[k0].dest,
                        ),
                        Option::None => false,
                    }
            }) by {
                let src = d[k2].source->Some_0;
                assert(reflect_pos@[src as int] is Some);
                let wp = reflect_pos@[src as int]->Some_0;
                assert(objects_out@[k2].reflect == Option::Some(Coord2d { x: wp.0, y: wp.1 }));
                let k0 = choose|k0: int|
                    #[trigger] first_reflectee(d, src as int, k0) && k0 < k
                        && waypoint_choice_ok(
                        Coord2d { x: wp.0, y: wp.1 },
                        objects_out@[src as int].dest,
                        objects_out@[k0].dest,
                    );
                assert(first_reflectee(d, src as int, k0) && (match objects_out@[k2].reflect {
                    Option::Some(w) => waypoint_choice_ok(
                        w,
                        objects_out@[src as int].dest,
                        objects_out@[k0].dest,
                    ),
                    Option::None => false,
                }));
            }
        }
        let fumen = Fumen {
            metadata,
            objects: objects_out,
            current: 0,
            chains,
            currentchain: 0,
            sliders,
            currentslider: 0,
            overlap_warnings,
            playing: false,
            song_start_time: 0,
            ms_per_measure: ms_per_measure(bpm0),
            delay,
            song_offset,
            bpm: bpm0,
        };
        Ok(fumen)
    }
}

/// The count of a concatenation is the sum of the two counts.
proof fn lemma_count_concat(a: Seq<OccupyEvent>, b: Seq<OccupyEvent>, side: u32, lane: u32)
    ensures
        count_events(a + b, side, lane) == count_events(a, side, lane) + count_events(
            b,
            side,
            lane,
        ),
    decreases a.len(),
{
    if a.len() == 0 {
        assert(a + b =~= b);
    } else {
        assert((a + b).drop_first() =~= a.drop_first() + b);
        lemma_count_concat(a.drop_first(), b, side, lane);
    }
}

} // verus!

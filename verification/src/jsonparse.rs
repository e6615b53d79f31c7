//! The authored record: raw integer fields as both front ends deliver them,
//! and the semantic decoding into a chart description.
//!
//! A raw note holds every field of the authored formats as a plain `i64`.
//! The JSON front end fills it from a `serde_json::Value`; the binary front
//! end fills it from the packed bytes. Everything after that — kind
//! derivation, the Top-lane flip, bond extraction, ordering, identifier
//! normalization — is decoded here and fully specified.
use vstd::prelude::*;

use crate::objects::Objecttype;
use crate::parse::{
    all_times_ok, arrive_of, desc_times_ok, objects_sorted, FumenDescription, ObjectDescription,
};

verus! {

/// Why a chart could not be parsed.
#[derive(Clone, Copy, Debug, PartialEq, Eq, Structural)]
pub enum ParseError {
    /// File input failed.
    ReadError,
    /// The JSON record is malformed: a slide point misses a field, or a bond
    /// names a note that does not exist.
    InvalidJson,
    /// The packed record is malformed: it ends before its counts are served,
    /// or its tempo bits name no usable number.
    InvalidBinary,
}

/// Stands in for a field an authored record should have carried but did not;
/// decoding proceeds with it, and validation rejects what it reaches.
pub const NOT_FOUND_VAL: i64 = -114514;

/// One authored note, fields as written, before semantic decoding.
#[derive(Clone, Copy, Debug, PartialEq, Eq, Structural)]
pub struct RawNote {
    pub starttime: i64,
    pub flytime: i64,
    pub id: i64,
    pub source: i64,
    /// How many reflected notes the authored record lists; the list itself
    /// is not consumed by resolution and is skipped by both front ends.
    pub numreflectnotes: i64,
    pub numalsoreflectednotes: i64,
    pub side: i64,
    pub istop: i64,
    /// 0 plain, 1 long, 2 slide.
    pub notetype: i64,
    pub lolength: i64,
    pub position: i64,
    pub isset: i64,
    pub magicnumber: i64,
    pub chainlastid: i64,
    pub chainnextid: i64,
    pub chainid: i64,
    pub chaindeltatime: i64,
}

/// One authored tempo change, fields as written.
#[derive(Clone, Copy, Debug, PartialEq, Eq, Structural)]
pub struct RawBpmChange {
    pub id: i64,
    pub time: i64,
    /// The new tempo, in milli-bpm.
    pub event_millibpm: i64,
}

/// One authored slide attachment, fields as written.
#[derive(Clone, Copy, Debug, PartialEq, Eq, Structural)]
pub struct RawSoPoint {
    pub noteid: i64,
    pub id: i64,
    pub position: i64,
    pub starttime: i64,
    pub flytime: i64,
}

/// A whole authored chart, fields as written: both front ends produce this
/// record, and the semantic decoder consumes it.
#[derive(Clone, Debug, PartialEq)]
pub struct JsonFumen {
    pub header: i64,
    pub filetype: i64,
    /// The starting tempo, in milli-bpm.
    pub startbpm_millibpm: i64,
    pub length: i64,
    pub numnotes: i64,
    pub numbpmchanges: i64,
    pub numgeneratednotes: i64,
    pub numsopoints: i64,
    pub notes: Vec<RawNote>,
    pub bpmchanges: Vec<RawBpmChange>,
    pub sopoints: Vec<RawSoPoint>,
}

/// A slide attachment after decoding: `noteid` names the anchor note, by
/// authored identifier at first, by sorted index after normalization.
#[derive(Clone, Copy, Debug, PartialEq, Eq, Structural)]
pub struct SOPoint {
    /// The note this point is attached to.
    pub noteid: u32,
    /// The identifier of this point within its slide.
    pub id: u32,
    pub pos: u32,
    /// Spawn time in milliseconds.
    pub starttime: i64,
    /// Milliseconds from spawn to arrival.
    pub flytime: i64,
}

#[verifier::external_type_specification]
#[verifier::external_body]
pub struct ExValue(serde_json::Value);

/// Relies on serde_json::Value::get and serde_json::Value::as_i64: the named
/// field of a JSON object, when it is present and holds an integer that fits
/// an i64; nothing is assumed of the result.
#[verifier::external_body]
fn value_i64(object: &serde_json::Value, name: &str) -> Option<i64> {
    object.get(name).and_then(|v| v.as_i64())
}

/// The named field of a JSON note object, or the sentinel when it is absent
/// or not an integer.
fn get_val(object: &serde_json::Value, name: &str) -> i64 {
    match value_i64(object, name) {
        Some(val) => val,
        None => NOT_FOUND_VAL,
    }
}

impl RawNote {
    /// Read every authored note field out of a JSON object; absent fields
    /// become the sentinel.
    pub fn from_json(object: &serde_json::Value) -> RawNote {
        RawNote {
            starttime: get_val(object, "starttime"),
            flytime: get_val(object, "flytime"),
            id: get_val(object, "id"),
            source: get_val(object, "source"),
            numreflectnotes: get_val(object, "numreflectnotes"),
            numalsoreflectednotes: get_val(object, "numalsoreflectednotes"),
            side: get_val(object, "side"),
            istop: get_val(object, "istop"),
            notetype: get_val(object, "type"),
            lolength: get_val(object, "lolength"),
            position: get_val(object, "position"),
            isset: get_val(object, "isset"),
            magicnumber: get_val(object, "magicnumber"),
            chainlastid: get_val(object, "chainlastid"),
            chainnextid: get_val(object, "chainnextid"),
            chainid: get_val(object, "chainid"),
            chaindeltatime: get_val(object, "chaindeltatime"),
        }
    }
}

impl RawSoPoint {
    /// Read a slide attachment out of a JSON object; a missing or
    /// non-integral field makes the whole record invalid.
    pub fn from_json(object: &serde_json::Value) -> Result<RawSoPoint, ParseError> {
        let noteid = match value_i64(object, "noteid") {
            Some(v) => v,
            None => {
                return Err(ParseError::InvalidJson);
            },
        };
        let id = match value_i64(object, "id") {
            Some(v) => v,
            None => {
                return Err(ParseError::InvalidJson);
            },
        };
        let position = match value_i64(object, "position") {
            Some(v) => v,
            None => {
                return Err(ParseError::InvalidJson);
            },
        };
        let starttime = match value_i64(object, "starttime") {
            Some(v) => v,
            None => {
                return Err(ParseError::InvalidJson);
            },
        };
        let flytime = match value_i64(object, "flytime") {
            Some(v) => v,
            None => {
                return Err(ParseError::InvalidJson);
            },
        };
        Ok(RawSoPoint { noteid, id, position, starttime, flytime })
    }
}

/// Which kind a note is: slides are their own authored type; of the rest,
/// the top flag wins, then an unset note with an authored lane is Vertical,
/// and everything else is Normal.
pub open spec fn parse_objtype_spec(objtype: u32, istop: u32, isset: u32, position: i32) -> Objecttype {
    if objtype == 0 || objtype == 1 {
        if istop == 1 {
            Objecttype::Top
        } else {
            if isset == 0 && position != -1 {
                Objecttype::Vertical
            } else {
                Objecttype::Normal
            }
        }
    } else {
        Objecttype::Slide
    }
}

/// Which kind a note is; see [`parse_objtype_spec`].
pub fn parse_objtype(objtype: u32, istop: u32, isset: u32, position: i32) -> (r: Objecttype)
    ensures
        r == parse_objtype_spec(objtype, istop, isset, position),
{
    if objtype == 0 || objtype == 1 {
        if istop == 1 {
            Objecttype::Top
        } else {
            if isset == 0 && position != -1 {
                Objecttype::Vertical
            } else {
                Objecttype::Normal
            }
        }
    } else {
        Objecttype::Slide
    }
}

/// The authored Top lane mirrored across the row; lanes outside the row pass
/// through unflipped, for validation to reject.
pub open spec fn flip_top_lane_spec(position: i32) -> u32 {
    if 0 <= position <= 2 {
        (2 - position) as u32
    } else {
        position as u32
    }
}

/// One raw note decoded into a chart-description note: fields narrowed as
/// the formats define them, times kept in milliseconds, the kind derived,
/// the Top lane flipped, bonds kept as authored identifiers.
pub open spec fn describe_note_spec(r: RawNote) -> ObjectDescription {
    let starttime = r.starttime as i32;
    let flytime = r.flytime as u32;
    let source = r.source as i32;
    let side = r.side as u32;
    let istop = r.istop as u32;
    let objtype = r.notetype as u32;
    let lolength = r.lolength as u32;
    let position = r.position as i32;
    let isset = r.isset as u32;
    let magic = r.magicnumber as u32;
    let chainnext = r.chainnextid as i32;
    let object_type = parse_objtype_spec(objtype, istop, isset, position);
    ObjectDescription {
        id: r.id as u32,
        starttime: starttime as i64,
        flytime: flytime as i64,
        object_type,
        duration: if objtype == 1 {
            Option::Some(lolength as i64)
        } else {
            Option::None
        },
        pos: if position == -1 {
            Option::None
        } else {
            if object_type is Top {
                Option::Some(flip_top_lane_spec(position))
            } else {
                Option::Some(position as u32)
            }
        },
        generated_pos: Option::None,
        chained: if magic & 8 != 0 && chainnext != -1 {
            Option::Some(chainnext as u32)
        } else {
            Option::None
        },
        source: if source == -1 {
            Option::None
        } else {
            Option::Some(source as u32)
        },
        side,
    }
}

/// One raw note decoded into a chart-description note; see
/// [`describe_note_spec`].
pub fn describe_note(r: &RawNote) -> (d: ObjectDescription)
    ensures
        d == describe_note_spec(*r),
        desc_times_ok(d),
{
    let starttime = #[verifier::truncate] (r.starttime as i32);
    let flytime = #[verifier::truncate] (r.flytime as u32);
    let source = #[verifier::truncate] (r.source as i32);
    let side = #[verifier::truncate] (r.side as u32);
    let istop = #[verifier::truncate] (r.istop as u32);
    let objtype = #[verifier::truncate] (r.notetype as u32);
    let lolength = #[verifier::truncate] (r.lolength as u32);
    let position = #[verifier::truncate] (r.position as i32);
    let isset = #[verifier::truncate] (r.isset as u32);
    let magic = #[verifier::truncate] (r.magicnumber as u32);
    let chainnext = #[verifier::truncate] (r.chainnextid as i32);
    let object_type = parse_objtype(objtype, istop, isset, position);
    let islong = objtype == 1;
    let duration = if islong {
        Some(lolength as i64)
    } else {
        None
    };
    let pos = if position == -1 {
        None
    } else {
        if matches!(object_type, Objecttype::Top) {
            // The authored lane of a Top note is mirrored across its row.
            if 0 <= position && position <= 2 {
                Some((2 - position) as u32)
            } else {
                Some(#[verifier::truncate] (position as u32))
            }
        } else {
            Some(#[verifier::truncate] (position as u32))
        }
    };
    let chained = if magic & 8 != 0 {
        if chainnext != -1 {
            Some(#[verifier::truncate] (chainnext as u32))
        } else {
            None
        }
    } else {
        None
    };
    let source = if source == -1 {
        None
    } else {
        Some(#[verifier::truncate] (source as u32))
    };
    ObjectDescription {
        id: #[verifier::truncate] (r.id as u32),
        starttime: starttime as i64,
        flytime: flytime as i64,
        object_type,
        duration,
        pos,
        generated_pos: None,
        chained,
        source,
        side,
    }
}

/// A description note that the authored formats can carry exactly: times
/// within the packed field widths, lanes and bonds within the signed range,
/// a lane wherever the kind demands one, and no generated state.
pub open spec fn desc_canonical(d: ObjectDescription) -> bool {
    &&& -0x8000_0000 <= d.starttime < 0x8000_0000
    &&& 0 <= d.flytime < 0x1_0000_0000
    &&& match d.duration {
        Option::Some(x) => 0 <= x < 0x1_0000_0000,
        Option::None => true,
    }
    &&& (d.object_type is Slide ==> d.duration is None)
    &&& (d.object_type is Top ==> match d.pos {
        Option::Some(p) => p <= 2,
        Option::None => false,
    })
    &&& (d.object_type is Vertical ==> d.pos is Some)
    &&& match d.pos {
        Option::Some(p) => p < 0x8000_0000,
        Option::None => true,
    }
    &&& match d.chained {
        Option::Some(c) => c < 0x8000_0000,
        Option::None => true,
    }
    &&& match d.source {
        Option::Some(s) => s < 0x8000_0000,
        Option::None => true,
    }
    &&& d.generated_pos is None
}

/// A description note written back to the raw authored fields: the inverse
/// of [`describe_note_spec`] on canonical notes, with the Top lane flipped
/// back to its authored value.
pub open spec fn encode_note_spec(d: ObjectDescription) -> RawNote {
    RawNote {
        starttime: d.starttime,
        flytime: d.flytime,
        id: d.id as i64,
        source: match d.source {
            Option::Some(s) => s as i64,
            Option::None => -1i64,
        },
        numreflectnotes: 0,
        numalsoreflectednotes: 0,
        side: d.side as i64,
        istop: if d.object_type is Top {
            1
        } else {
            0
        },
        notetype: if d.object_type is Slide {
            2
        } else if d.duration is Some {
            1
        } else {
            0
        },
        lolength: match d.duration {
            Option::Some(x) => x,
            Option::None => 0,
        },
        position: match d.pos {
            Option::Some(p) => if d.object_type is Top {
                (2 - p) as i64
            } else {
                p as i64
            },
            Option::None => -1i64,
        },
        isset: if d.object_type is Normal && d.pos is Some {
            1
        } else {
            0
        },
        magicnumber: if d.chained is Some {
            8
        } else {
            0
        },
        chainlastid: 0,
        chainnextid: match d.chained {
            Option::Some(c) => c as i64,
            Option::None => -1i64,
        },
        chainid: 0,
        chaindeltatime: 0,
    }
}

/// A description note written back to the raw authored fields; see
/// [`encode_note_spec`].
pub fn encode_note(d: &ObjectDescription) -> (r: RawNote)
    ensures
        r == encode_note_spec(*d),
{
    RawNote {
        starttime: d.starttime,
        flytime: d.flytime,
        id: d.id as i64,
        source: match d.source {
            Some(s) => s as i64,
            None => -1,
        },
        numreflectnotes: 0,
        numalsoreflectednotes: 0,
        side: d.side as i64,
        istop: if matches!(d.object_type, Objecttype::Top) {
            1
        } else {
            0
        },
        notetype: if matches!(d.object_type, Objecttype::Slide) {
            2
        } else if matches!(d.duration, Some(_)) {
            1
        } else {
            0
        },
        lolength: match d.duration {
            Some(x) => x,
            None => 0,
        },
        position: match d.pos {
            Some(p) => if matches!(d.object_type, Objecttype::Top) {
                2i64 - p as i64
            } else {
                p as i64
            },
            None => -1,
        },
        isset: if matches!(d.object_type, Objecttype::Normal) && matches!(d.pos, Some(_)) {
            1
        } else {
            0
        },
        magicnumber: if matches!(d.chained, Some(_)) {
            8
        } else {
            0
        },
        chainlastid: 0,
        chainnextid: match d.chained {
            Some(c) => c as i64,
            None => -1,
        },
        chainid: 0,
        chaindeltatime: 0,
    }
}

/// Writing a canonical description note back to the authored fields and
/// decoding it again returns the note unchanged: the decoding loses nothing
/// but generated state, and the Top-lane flip undoes itself.
pub proof fn lemma_note_round_trip(d: ObjectDescription)
    requires
        desc_canonical(d),
    ensures
        describe_note_spec(encode_note_spec(d)) == d,
{
    let r = encode_note_spec(d);
    let d2 = describe_note_spec(r);
    assert(d2.id == d.id);
    assert(d2.starttime == d.starttime);
    assert(d2.flytime == d.flytime);
    assert(d2.object_type == d.object_type);
    assert(d2.duration == d.duration);
    assert(d2.pos == d.pos);
    assert(8u32 & 8u32 == 8u32) by (bit_vector);
    assert(0u32 & 8u32 == 0u32) by (bit_vector);
    assert(d2.chained == d.chained);
    assert(d2.source == d.source);
    assert(d2.side == d.side);
    assert(d2.generated_pos == d.generated_pos);
}

/// The note with its bonds removed: what decoding alone determines, before
/// identifier normalization rewrites the bonds.
pub open spec fn unlinked(d: ObjectDescription) -> ObjectDescription {
    ObjectDescription { chained: Option::None, source: Option::None, ..d }
}

/// `j` is the greatest index whose note carries the authored identifier
/// `ext`: the index every bond naming `ext` is rewritten to.
pub open spec fn is_last_id_index(s: Seq<ObjectDescription>, ext: u32, j: int) -> bool {
    &&& 0 <= j < s.len() && s[j].id == ext
    &&& forall|j2: int| j < j2 < s.len() ==> (#[trigger] s[j2]).id != ext
}

/// `out` is `src` with its bonds rewritten from authored identifiers to
/// indices of `s`: a bond naming `ext` now names the greatest index whose
/// note carries `ext`, and a missing bond stays missing.
pub open spec fn bonds_remapped(
    src: ObjectDescription,
    out: ObjectDescription,
    s: Seq<ObjectDescription>,
) -> bool {
    &&& unlinked(out) == unlinked(src)
    &&& match src.chained {
        Option::Some(ext) => exists|j: int|
            #[trigger] is_last_id_index(s, ext, j) && out.chained == Option::Some(j as u32),
        Option::None => out.chained is None,
    }
    &&& match src.source {
        Option::Some(ext) => exists|j: int|
            #[trigger] is_last_id_index(s, ext, j) && out.source == Option::Some(j as u32),
        Option::None => out.source is None,
    }
}

/// The note with its bonds written back from indices to authored
/// identifiers: the inverse step of identifier normalization.
pub open spec fn relink(o: ObjectDescription, s: Seq<ObjectDescription>) -> ObjectDescription {
    ObjectDescription {
        chained: match o.chained {
            Option::Some(j) => Option::Some(s[j as int].id),
            Option::None => Option::None,
        },
        source: match o.source {
            Option::Some(j) => Option::Some(s[j as int].id),
            Option::None => Option::None,
        },
        ..o
    }
}

/// The chart-level round trip of normalization: writing a normalized note's
/// bonds back from indices to the identifiers those indices carry recovers
/// the decoded authored note, note for note through the sort permutation.
/// Composed with the per-note raw round trip this carries the decoded
/// fields back to the authored records.
pub proof fn lemma_chart_bonds_invert(
    decoded: Seq<ObjectDescription>,
    out: Seq<ObjectDescription>,
    perm: Seq<int>,
    k: int,
)
    requires
        perm.len() == out.len(),
        out.len() <= 0xffff_ffff,
        0 <= k < perm.len(),
        0 <= perm[k] < decoded.len(),
        bonds_remapped(decoded[perm[k]], out[k], out),
    ensures
        relink(out[k], out) == decoded[perm[k]],
{
    let src = decoded[perm[k]];
    let o = out[k];
    assert(unlinked(o) == unlinked(src));
    match src.chained {
        Option::Some(ext) => {
            let j = choose|j: int|
                #[trigger] is_last_id_index(out, ext, j) && o.chained == Option::Some(j as u32);
            assert(out[j].id == ext);
            assert((j as u32) as int == j);
            assert(relink(o, out).chained == Option::Some(ext));
        },
        Option::None => {
            assert(relink(o, out).chained is None);
        },
    }
    match src.source {
        Option::Some(ext) => {
            let j = choose|j: int|
                #[trigger] is_last_id_index(out, ext, j) && o.source == Option::Some(j as u32);
            assert(out[j].id == ext);
            assert((j as u32) as int == j);
            assert(relink(o, out).source == Option::Some(ext));
        },
        Option::None => {
            assert(relink(o, out).source is None);
        },
    }
    assert(relink(o, out) == src);
}

/// The notes of a raw chart, each semantically decoded, in authored order.
pub open spec fn decoded_notes(content: JsonFumen) -> Seq<ObjectDescription> {
    content.notes@.map_values(|r: RawNote| describe_note_spec(r))
}

/// Some note of `s` carries the authored identifier `ext`.
pub open spec fn has_note_id(s: Seq<ObjectDescription>, ext: u32) -> bool {
    exists|j: int| 0 <= j < s.len() && (#[trigger] s[j]).id == ext
}

/// Every bond of the raw chart names a note that exists: each chain target,
/// each reflection source, and each slide attachment's anchor.
pub open spec fn json_links_ok(content: JsonFumen) -> bool {
    let s = decoded_notes(content);
    &&& forall|k: int| 0 <= k < s.len() ==> match (#[trigger] s[k]).chained {
        Option::Some(ext) => has_note_id(s, ext),
        Option::None => true,
    }
    &&& forall|k: int| 0 <= k < s.len() ==> match (#[trigger] s[k]).source {
        Option::Some(ext) => has_note_id(s, ext),
        Option::None => true,
    }
    &&& forall|k: int| 0 <= k < content.sopoints@.len() ==> has_note_id(
        s,
        (#[trigger] content.sopoints@[k]).noteid as u32,
    )
}

/// The two front ends share one semantic decoder: charts whose raw notes,
/// slide attachments and starting tempo agree — whether they were read from
/// the packed bytes or from JSON — decode to the same notes and succeed or
/// fail together.
pub proof fn lemma_front_ends_share_decoding(c1: JsonFumen, c2: JsonFumen)
    requires
        c1.notes@ == c2.notes@,
        c1.sopoints@ == c2.sopoints@,
        c1.startbpm_millibpm == c2.startbpm_millibpm,
    ensures
        decoded_notes(c1) == decoded_notes(c2),
        json_links_ok(c1) == json_links_ok(c2),
{
    assert(decoded_notes(c1) =~= decoded_notes(c2));
}

/// Whether some note carries an identifier is a question of the notes alone,
/// not of their order.
proof fn lemma_has_id_of_multiset(s1: Seq<ObjectDescription>, s2: Seq<ObjectDescription>, ext: u32)
    requires
        s1.to_multiset() == s2.to_multiset(),
    ensures
        has_note_id(s1, ext) <==> has_note_id(s2, ext),
{
    broadcast use vstd::seq_lib::group_to_multiset_ensures;

    if has_note_id(s1, ext) {
        let j = choose|j: int| 0 <= j < s1.len() && (#[trigger] s1[j]).id == ext;
        let e = s1[j];
        assert(s1.contains(e));
        assert(s2.to_multiset().count(e) > 0);
        assert(s2.contains(e));
        let i = choose|i: int| 0 <= i < s2.len() && s2[i] == e;
        assert(has_note_id(s2, ext));
    }
    if has_note_id(s2, ext) {
        let j = choose|j: int| 0 <= j < s2.len() && (#[trigger] s2[j]).id == ext;
        let e = s2[j];
        assert(s2.contains(e));
        assert(s1.to_multiset().count(e) > 0);
        assert(s1.contains(e));
        let i = choose|i: int| 0 <= i < s1.len() && s1[i] == e;
        assert(has_note_id(s1, ext));
    }
}

/// Exchange two notes of the list.
fn vec_swap(v: &mut Vec<ObjectDescription>, i: usize, j: usize)
    requires
        i < j < old(v)@.len(),
    ensures
        final(v)@.len() == old(v)@.len(),
        final(v)@ == old(v)@.update(i as int, old(v)@[j as int]).update(
            j as int,
            old(v)@[i as int],
        ),
        final(v)@.to_multiset() == old(v)@.to_multiset(),
{
    let a = v[i];
    let b = v[j];
    v.set(i, b);
    v.set(j, a);
    proof {
        broadcast use vstd::seq_lib::group_to_multiset_ensures;
        broadcast use vstd::seq_lib::to_multiset_update;

        assert(v@.to_multiset() =~= old(v)@.to_multiset());
    }
}

/// The entries of `perm` name, for each sorted position, the position the
/// note held before sorting: a bijection on the indices.
pub open spec fn is_permutation_of(perm: Seq<int>, v: Seq<ObjectDescription>, orig: Seq<ObjectDescription>) -> bool {
    &&& perm.len() == v.len() == orig.len()
    &&& forall|k: int| 0 <= k < perm.len() ==> 0 <= #[trigger] perm[k] < orig.len()
    &&& forall|k1: int, k2: int|
        0 <= k1 < k2 < perm.len() ==> #[trigger] perm[k1] != #[trigger] perm[k2]
    &&& forall|k: int| 0 <= k < perm.len() ==> #[trigger] v[k] == orig[perm[k]]
}

/// Sort the notes by arrival time; a stable exchange sort, so notes arriving
/// together keep their authored order. The ghost result names, for each
/// sorted position, the authored position its note came from.
fn sort_by_arrive(objects: Vec<ObjectDescription>) -> (r: (Vec<ObjectDescription>, Ghost<Seq<int>>))
    requires
        all_times_ok(objects@),
    ensures
        r.0@.len() == objects@.len(),
        r.0@.to_multiset() == objects@.to_multiset(),
        objects_sorted(r.0@),
        all_times_ok(r.0@),
        is_permutation_of(r.1@, r.0@, objects@),
        forall|k1: int, k2: int|
            0 <= k1 < k2 < r.0@.len() && arrive_of(r.0@[k1]) == arrive_of(r.0@[k2])
                ==> #[trigger] r.1@[k1] < #[trigger] r.1@[k2],
{
    let mut v = objects;
    let ghost orig = v@;
    let ghost mut perm: Seq<int> = Seq::new(v@.len(), |k: int| k);
    let n = v.len();
    let mut i: usize = 1;
    while i < n
        invariant
            n == v@.len(),
            1 <= i <= n + 1,
            v@.to_multiset() == orig.to_multiset(),
            all_times_ok(v@),
            is_permutation_of(perm, v@, orig),
            forall|k1: int, k2: int|
                0 <= k1 < k2 < v@.len() && arrive_of(v@[k1]) == arrive_of(v@[k2])
                    ==> #[trigger] perm[k1] < #[trigger] perm[k2],
            forall|p: int, q: int| 0 <= p < q < i ==> arrive_of(#[trigger] v@[p]) <= arrive_of(
                #[trigger] v@[q],
            ),
        decreases n - i,
    {
        let mut j: usize = i;
        loop
            invariant
                n == v@.len(),
                0 <= j <= i < n,
                v@.to_multiset() == orig.to_multiset(),
                all_times_ok(v@),
                is_permutation_of(perm, v@, orig),
                forall|k1: int, k2: int|
                    0 <= k1 < k2 < v@.len() && arrive_of(v@[k1]) == arrive_of(v@[k2])
                        ==> #[trigger] perm[k1] < #[trigger] perm[k2],
                forall|p: int, q: int| 0 <= p < q <= i && q != j ==> arrive_of(#[trigger] v@[p])
                    <= arrive_of(#[trigger] v@[q]),
            ensures
                n == v@.len(),
                0 <= j <= i < n,
                v@.to_multiset() == orig.to_multiset(),
                all_times_ok(v@),
                is_permutation_of(perm, v@, orig),
                forall|k1: int, k2: int|
                    0 <= k1 < k2 < v@.len() && arrive_of(v@[k1]) == arrive_of(v@[k2])
                        ==> #[trigger] perm[k1] < #[trigger] perm[k2],
                forall|p: int, q: int| 0 <= p < q <= i && q != j ==> arrive_of(#[trigger] v@[p])
                    <= arrive_of(#[trigger] v@[q]),
                j == 0 || arrive_of(v@[j - 1]) <= arrive_of(v@[j as int]),
            decreases j,
        {
            if j == 0 {
                break ;
            }
            let a = v[j - 1].arrive_time();
            let b = v[j].arrive_time();
            if a <= b {
                break ;
            }
            let ghost v_before = v@;
            let ghost perm_before = perm;
            vec_swap(&mut v, j - 1, j);
            proof {
                perm = perm.update(j - 1, perm[j as int]).update(j as int, perm[j - 1]);
                // the swapped pair arrives strictly apart, so notes arriving
                // together keep their authored order
                assert forall|k1: int, k2: int|
                    0 <= k1 < k2 < v@.len() && arrive_of(v@[k1]) == arrive_of(
                        v@[k2],
                    ) implies #[trigger] perm[k1] < #[trigger] perm[k2] by {
                    if k1 == j - 1 && k2 == j {
                        assert(arrive_of(v_before[j - 1]) > arrive_of(v_before[j as int]));
                    } else if k2 == j - 1 {
                        assert(v@[k1] == v_before[k1] && v@[k2] == v_before[j as int]);
                        assert(perm_before[k1] < perm_before[j as int]);
                    } else if k1 == j - 1 {
                        assert(v@[k1] == v_before[j as int] && v@[k2] == v_before[k2]);
                        assert(perm_before[j as int] < perm_before[k2]);
                    } else if k2 == j {
                        assert(v@[k1] == v_before[k1] && v@[k2] == v_before[j - 1]);
                        assert(perm_before[k1] < perm_before[j - 1]);
                    } else if k1 == j {
                        assert(v@[k1] == v_before[j - 1] && v@[k2] == v_before[k2]);
                        assert(perm_before[j - 1] < perm_before[k2]);
                    } else {
                        assert(perm_before[k1] < perm_before[k2]);
                    }
                }
            }
            j = j - 1;
        }
        i = i + 1;
    }
    (v, Ghost(perm))
}

/// Removing the front of a list commutes with decoding each note's bonds
/// away; stated for any position.
proof fn lemma_unlink_remove(s: Seq<ObjectDescription>, i: int)
    requires
        0 <= i < s.len(),
    ensures
        s.remove(i).map_values(|o: ObjectDescription| unlinked(o)) == s.map_values(
            |o: ObjectDescription| unlinked(o),
        ).remove(i),
{
    assert(s.remove(i).map_values(|o: ObjectDescription| unlinked(o)) =~= s.map_values(
        |o: ObjectDescription| unlinked(o),
    ).remove(i));
}

/// Two lists holding the same notes hold the same notes-without-bonds.
proof fn lemma_unlinked_multiset(s1: Seq<ObjectDescription>, s2: Seq<ObjectDescription>)
    requires
        s1.to_multiset() == s2.to_multiset(),
    ensures
        s1.map_values(|o: ObjectDescription| unlinked(o)).to_multiset() == s2.map_values(
            |o: ObjectDescription| unlinked(o),
        ).to_multiset(),
    decreases s1.len(),
{
    broadcast use vstd::seq_lib::group_to_multiset_ensures;

    let f = |o: ObjectDescription| unlinked(o);
    if s1.len() == 0 {
        assert(s2.to_multiset().len() == 0);
        assert(s1.map_values(f) =~= s2.map_values(f));
    } else {
        let e = s1[0];
        assert(s1.contains(e));
        assert(s2.to_multiset().count(e) > 0);
        assert(s2.contains(e));
        let i = choose|i: int| 0 <= i < s2.len() && s2[i] == e;
        let s1r = s1.remove(0);
        let s2r = s2.remove(i);
        assert(s1r.to_multiset() == s1.to_multiset().remove(e));
        assert(s2r.to_multiset() == s2.to_multiset().remove(e));
        lemma_unlinked_multiset(s1r, s2r);
        lemma_unlink_remove(s1, 0);
        lemma_unlink_remove(s2, i);
        let m1 = s1.map_values(f).to_multiset();
        let m2 = s2.map_values(f).to_multiset();
        assert(s1.map_values(f).remove(0).to_multiset() == m1.remove(s1.map_values(f)[0]));
        assert(s2.map_values(f).remove(i).to_multiset() == m2.remove(s2.map_values(f)[i]));
        assert(s1.map_values(f)[0] == f(e));
        assert(s2.map_values(f)[i] == f(e));
        assert(s1.map_values(f).contains(f(e)));
        assert(s2.map_values(f).contains(f(e)));
        assert(m1.count(f(e)) > 0);
        assert(m2.count(f(e)) > 0);
        assert(m1.remove(f(e)) == m2.remove(f(e)));
        assert(m1 =~= m2) by {
            assert forall|x: ObjectDescription| true implies m1.count(x) == m2.count(x) by {
                if x == f(e) {
                    assert(m1.count(x) == m1.remove(f(e)).count(x) + 1);
                    assert(m2.count(x) == m2.remove(f(e)).count(x) + 1);
                } else {
                    assert(m1.count(x) == m1.remove(f(e)).count(x));
                    assert(m2.count(x) == m2.remove(f(e)).count(x));
                }
            }
        }
    }
}

/// The greatest index whose note carries the authored identifier `ext`.
fn find_last_id(objects: &Vec<ObjectDescription>, ext: u32) -> (r: Option<usize>)
    ensures
        match r {
            Option::Some(j) => j < objects@.len() && objects@[j as int].id == ext && forall|k: int|
                j < k < objects@.len() ==> (#[trigger] objects@[k]).id != ext,
            Option::None => !has_note_id(objects@, ext),
        },
{
    let mut i = objects.len();
    while i > 0
        invariant
            i <= objects@.len(),
            forall|k: int| i <= k < objects@.len() ==> (#[trigger] objects@[k]).id != ext,
        decreases i,
    {
        i = i - 1;
        if objects[i].id == ext {
            return Some(i);
        }
    }
    None
}

impl FumenDescription {
    /// Decode a raw chart into a chart description: decode every note, order
    /// them by arrival, and rewrite every bond — chain target, reflection
    /// source, slide anchor — from authored identifier to sorted index,
    /// where a duplicated identifier means its last occurrence. The call
    /// fails with `InvalidJson` exactly when some bond names an identifier
    /// no note carries, or the chart has more notes than identifiers exist.
    pub fn from_json(name: &str, artist: &str, charter: &str, delay: i32, content: JsonFumen) -> (r:
        Result<FumenDescription, ParseError>)
        ensures
            r is Ok <==> (json_links_ok(content) && content.notes@.len() <= u32::MAX),
            match r {
                Result::Ok(d) => {
                    &&& d.name@ == name@ && d.artist@ == artist@ && d.charter@ == charter@
                    &&& d.level == 1 && d.difficulty@ == "Normal"@
                    &&& d.bpm@.len() == 1 && d.bpm@[0] == content.startbpm_millibpm
                    &&& d.delay == delay as i64
                    &&& d.objects@.len() == content.notes@.len()
                    &&& objects_sorted(d.objects@)
                    &&& all_times_ok(d.objects@)
                    &&& d.objects@.map_values(|o: ObjectDescription| unlinked(o)).to_multiset()
                        == decoded_notes(content).map_values(
                        |o: ObjectDescription| unlinked(o),
                    ).to_multiset()
                    &&& forall|k: int| 0 <= k < d.objects@.len() ==> match (#[trigger] d.objects@[k]).chained {
                        Option::Some(j) => j < d.objects@.len(),
                        Option::None => true,
                    }
                    &&& forall|k: int| 0 <= k < d.objects@.len() ==> match (#[trigger] d.objects@[k]).source {
                        Option::Some(j) => j < d.objects@.len(),
                        Option::None => true,
                    }
                    &&& exists|perm: Seq<int>|
                        #![trigger perm.len()]
                        {
                            &&& perm.len() == d.objects@.len()
                            &&& forall|k: int|
                                0 <= k < perm.len() ==> 0 <= #[trigger] perm[k] < decoded_notes(
                                    content,
                                ).len()
                            &&& forall|k1: int, k2: int|
                                0 <= k1 < k2 < perm.len() ==> #[trigger] perm[k1]
                                    != #[trigger] perm[k2]
                            &&& forall|k1: int, k2: int|
                                0 <= k1 < k2 < perm.len() && arrive_of(d.objects@[k1])
                                    == arrive_of(d.objects@[k2]) ==> #[trigger] perm[k1]
                                    < #[trigger] perm[k2]
                            &&& forall|k: int|
                                0 <= k < perm.len() ==> bonds_remapped(
                                    decoded_notes(content)[#[trigger] perm[k]],
                                    d.objects@[k],
                                    d.objects@,
                                )
                        }
                    &&& d.sopoints@.len() == content.sopoints@.len()
                    &&& forall|k: int| 0 <= k < d.sopoints@.len() ==> {
                        let p = #[trigger] d.sopoints@[k];
                        let raw = content.sopoints@[k];
                        &&& p.noteid < d.objects@.len()
                        &&& is_last_id_index(d.objects@, raw.noteid as u32, p.noteid as int)
                        &&& p.id == raw.id as u32
                        &&& p.pos == raw.position as u32
                        &&& p.starttime == (raw.starttime as i32) as i64
                        &&& p.flytime == (raw.flytime as i32) as i64
                    }
                },
                Result::Err(e) => e == ParseError::InvalidJson,
            },
    {
        let nnotes = content.notes.len();
        if nnotes > u32::MAX as usize {
            return Err(ParseError::InvalidJson);
        }
        let mut objects: Vec<ObjectDescription> = Vec::new();
        let mut i: usize = 0;
        while i < nnotes
            invariant
                nnotes == content.notes@.len(),
                i <= nnotes,
                objects@.len() == i,
                forall|k: int| 0 <= k < i ==> #[trigger] objects@[k] == describe_note_spec(
                    content.notes@[k],
                ),
                forall|k: int| 0 <= k < i ==> desc_times_ok(#[trigger] objects@[k]),
            decreases nnotes - i,
        {
            objects.push(describe_note(&content.notes[i]));
            i = i + 1;
        }
        proof {
            assert(objects@ =~= decoded_notes(content));
        }
        let (mut objects, perm_g) = sort_by_arrive(objects);
        let ghost perm = perm_g@;
        let ghost sorted = objects@;
        let ghost decoded = decoded_notes(content);
        let n = objects.len();
        let mut k: usize = 0;
        while k < n
            invariant
                n == objects@.len() == sorted.len(),
                n <= u32::MAX,
                k <= n,
                sorted.to_multiset() == decoded.to_multiset(),
                decoded == decoded_notes(content),
                forall|p: int| k <= p < n ==> #[trigger] objects@[p] == sorted[p],
                forall|p: int| 0 <= p < n ==> unlinked(#[trigger] objects@[p]) == unlinked(
                    sorted[p],
                ),
                forall|p: int| 0 <= p < n ==> (#[trigger] objects@[p]).id == sorted[p].id,
                forall|p: int| 0 <= p < k ==> match (#[trigger] objects@[p]).chained {
                    Option::Some(j) => j < n,
                    Option::None => true,
                },
                forall|p: int| 0 <= p < k ==> match (#[trigger] objects@[p]).source {
                    Option::Some(j) => j < n,
                    Option::None => true,
                },
                forall|p: int| 0 <= p < k ==> match (#[trigger] sorted[p]).chained {
                    Option::Some(e) => has_note_id(sorted, e),
                    Option::None => true,
                },
                forall|p: int| 0 <= p < k ==> match (#[trigger] sorted[p]).source {
                    Option::Some(e) => has_note_id(sorted, e),
                    Option::None => true,
                },
                forall|p: int| 0 <= p < k ==> match (#[trigger] sorted[p]).chained {
                    Option::Some(ext) => exists|j: int|
                        #[trigger] is_last_id_index(sorted, ext, j) && objects@[p].chained
                            == Option::Some(j as u32),
                    Option::None => objects@[p].chained is None,
                },
                forall|p: int| 0 <= p < k ==> match (#[trigger] sorted[p]).source {
                    Option::Some(ext) => exists|j: int|
                        #[trigger] is_last_id_index(sorted, ext, j) && objects@[p].source
                            == Option::Some(j as u32),
                    Option::None => objects@[p].source is None,
                },
            decreases n - k,
        {
            let mut o = objects[k];
            match o.chained {
                Some(ext) => {
                    match find_last_id(&objects, ext) {
                        Some(j) => {
                            proof {
                                assert(sorted[j as int].id == ext);
                                assert(has_note_id(sorted, ext));
                                assert forall|j2: int|
                                    j < j2 < n implies (#[trigger] sorted[j2]).id != ext by {
                                    assert(objects@[j2].id != ext);
                                }
                                assert(is_last_id_index(sorted, ext, j as int));
                            }
                            o.chained = Some(j as u32);
                        },
                        None => {
                            proof {
                                lemma_bond_dangles(sorted, decoded, objects@, k as int, ext, true);
                            }
                            return Err(ParseError::InvalidJson);
                        },
                    }
                },
                None => {},
            }
            match o.source {
                Some(ext) => {
                    match find_last_id(&objects, ext) {
                        Some(j) => {
                            proof {
                                assert(sorted[j as int].id == ext);
                                assert(has_note_id(sorted, ext));
                                assert forall|j2: int|
                                    j < j2 < n implies (#[trigger] sorted[j2]).id != ext by {
                                    assert(objects@[j2].id != ext);
                                }
                                assert(is_last_id_index(sorted, ext, j as int));
                            }
                            o.source = Some(j as u32);
                        },
                        None => {
                            proof {
                                lemma_bond_dangles(sorted, decoded, objects@, k as int, ext, false);
                            }
                            return Err(ParseError::InvalidJson);
                        },
                    }
                },
                None => {},
            }
            objects.set(k, o);
            k = k + 1;
        }
        let nso = content.sopoints.len();
        let mut sopoints: Vec<SOPoint> = Vec::new();
        let mut q: usize = 0;
        while q < nso
            invariant
                nso == content.sopoints@.len(),
                q <= nso,
                n == objects@.len() == sorted.len(),
                n <= u32::MAX,
                sorted.to_multiset() == decoded.to_multiset(),
                decoded == decoded_notes(content),
                forall|p: int| 0 <= p < n ==> (#[trigger] objects@[p]).id == sorted[p].id,
                sopoints@.len() == q,
                forall|w: int| 0 <= w < q ==> {
                    let p = #[trigger] sopoints@[w];
                    let raw = content.sopoints@[w];
                    &&& p.noteid < n
                    &&& is_last_id_index(objects@, raw.noteid as u32, p.noteid as int)
                    &&& p.id == raw.id as u32
                    &&& p.pos == raw.position as u32
                    &&& p.starttime == (raw.starttime as i32) as i64
                    &&& p.flytime == (raw.flytime as i32) as i64
                },
                forall|w: int| 0 <= w < q ==> has_note_id(
                    sorted,
                    (#[trigger] content.sopoints@[w]).noteid as u32,
                ),
            decreases nso - q,
        {
            let raw = content.sopoints[q];
            let ext = #[verifier::truncate] (raw.noteid as u32);
            match find_last_id(&objects, ext) {
                Some(j) => {
                    proof {
                        assert(has_note_id(sorted, ext));
                        assert(is_last_id_index(objects@, ext, j as int));
                    }
                    sopoints.push(
                        SOPoint {
                            noteid: j as u32,
                            id: #[verifier::truncate] (raw.id as u32),
                            pos: #[verifier::truncate] (raw.position as u32),
                            starttime: (#[verifier::truncate] (raw.starttime as i32)) as i64,
                            flytime: (#[verifier::truncate] (raw.flytime as i32)) as i64,
                        },
                    );
                },
                None => {
                    proof {
                        lemma_has_id_pointwise(objects@, sorted, ext);
                        lemma_has_id_of_multiset(sorted, decoded, ext);
                    }
                    return Err(ParseError::InvalidJson);
                },
            }
            q = q + 1;
        }
        proof {
            assert(objects@.map_values(|o: ObjectDescription| unlinked(o)) =~= sorted.map_values(
                |o: ObjectDescription| unlinked(o),
            ));
            lemma_unlinked_multiset(sorted, decoded);
            lemma_links_transfer(sorted, decoded);
            assert forall|w: int| 0 <= w < content.sopoints@.len() implies has_note_id(
                decoded,
                (#[trigger] content.sopoints@[w]).noteid as u32,
            ) by {
                lemma_has_id_of_multiset(sorted, decoded, content.sopoints@[w].noteid as u32);
            }
            assert(json_links_ok(content));
            // the sorted list is the decoded list through the recorded
            // permutation, and every bond now names a last-occurrence index
            assert(is_permutation_of(perm, sorted, decoded));
            assert forall|k2: int|
                0 <= k2 < n implies bonds_remapped(
                decoded[perm[k2]],
                objects@[k2],
                objects@,
            ) by {
                assert(sorted[k2] == decoded[perm[k2]]);
                assert(unlinked(objects@[k2]) == unlinked(sorted[k2]));
                match sorted[k2].chained {
                    Option::Some(ext) => {
                        let j = choose|j: int|
                            #[trigger] is_last_id_index(sorted, ext, j) && objects@[k2].chained
                                == Option::Some(j as u32);
                        lemma_last_id_same_ids(sorted, objects@, ext, j);
                        assert(is_last_id_index(objects@, ext, j) && objects@[k2].chained
                            == Option::Some(j as u32));
                    },
                    Option::None => {},
                }
                match sorted[k2].source {
                    Option::Some(ext) => {
                        let j = choose|j: int|
                            #[trigger] is_last_id_index(sorted, ext, j) && objects@[k2].source
                                == Option::Some(j as u32);
                        lemma_last_id_same_ids(sorted, objects@, ext, j);
                        assert(is_last_id_index(objects@, ext, j) && objects@[k2].source
                            == Option::Some(j as u32));
                    },
                    Option::None => {},
                }
            }
            assert(perm.len() == objects@.len());
        }
        let mut bpm: Vec<i64> = Vec::new();
        bpm.push(content.startbpm_millibpm);
        Ok(
            FumenDescription {
                name: name.to_string(),
                artist: artist.to_string(),
                charter: charter.to_string(),
                level: 1,
                difficulty: "Normal".to_string(),
                bpm,
                delay: delay as i64,
                objects,
                sopoints,
            },
        )
    }
}

/// Carrying an identifier only depends on each note's `id` field.
proof fn lemma_has_id_pointwise(a: Seq<ObjectDescription>, b: Seq<ObjectDescription>, ext: u32)
    requires
        a.len() == b.len(),
        forall|p: int| 0 <= p < a.len() ==> (#[trigger] a[p]).id == b[p].id,
    ensures
        has_note_id(a, ext) <==> has_note_id(b, ext),
{
    if has_note_id(a, ext) {
        let j = choose|j: int| 0 <= j < a.len() && (#[trigger] a[j]).id == ext;
        assert(b[j].id == ext);
    }
    if has_note_id(b, ext) {
        let j = choose|j: int| 0 <= j < b.len() && (#[trigger] b[j]).id == ext;
        assert(a[j].id == ext);
    }
}

/// The greatest index carrying an identifier only depends on each note's
/// `id` field.
proof fn lemma_last_id_same_ids(a: Seq<ObjectDescription>, b: Seq<ObjectDescription>, ext: u32, j: int)
    requires
        a.len() == b.len(),
        forall|p: int| 0 <= p < a.len() ==> (#[trigger] a[p]).id == b[p].id,
        is_last_id_index(a, ext, j),
    ensures
        is_last_id_index(b, ext, j),
{
    assert(b[j].id == a[j].id);
    assert forall|j2: int| j < j2 < b.len() implies (#[trigger] b[j2]).id != ext by {
        assert(a[j2].id != ext);
    }
}

/// A bond read off a sorted note that no note's identifier answers was
/// authored on some decoded note, so the raw chart's bonds are not all good.
proof fn lemma_bond_dangles(
    sorted: Seq<ObjectDescription>,
    decoded: Seq<ObjectDescription>,
    current: Seq<ObjectDescription>,
    k: int,
    ext: u32,
    chain: bool,
)
    requires
        sorted.to_multiset() == decoded.to_multiset(),
        current.len() == sorted.len(),
        forall|p: int| 0 <= p < current.len() ==> (#[trigger] current[p]).id == sorted[p].id,
        0 <= k < sorted.len(),
        if chain {
            sorted[k].chained == Option::Some(ext)
        } else {
            sorted[k].source == Option::Some(ext)
        },
        !has_note_id(current, ext),
    ensures
        !(forall|k2: int| 0 <= k2 < decoded.len() ==> match (#[trigger] decoded[k2]).chained {
            Option::Some(e) => has_note_id(decoded, e),
            Option::None => true,
        }) || !(forall|k2: int| 0 <= k2 < decoded.len() ==> match (#[trigger] decoded[k2]).source {
            Option::Some(e) => has_note_id(decoded, e),
            Option::None => true,
        }),
{
    broadcast use vstd::seq_lib::group_to_multiset_ensures;

    lemma_has_id_pointwise(current, sorted, ext);
    lemma_has_id_of_multiset(sorted, decoded, ext);
    let e = sorted[k];
    assert(sorted.contains(e));
    assert(decoded.to_multiset().count(e) > 0);
    assert(decoded.contains(e));
    let m = choose|m: int| 0 <= m < decoded.len() && decoded[m] == e;
    assert(decoded[m] == e);
}

/// Every bond of the sorted notes resolving means every bond of the decoded
/// notes resolves: the two lists hold the same notes.
proof fn lemma_links_transfer(sorted: Seq<ObjectDescription>, decoded: Seq<ObjectDescription>)
    requires
        sorted.to_multiset() == decoded.to_multiset(),
        forall|p: int| 0 <= p < sorted.len() ==> match (#[trigger] sorted[p]).chained {
            Option::Some(e) => has_note_id(sorted, e),
            Option::None => true,
        },
        forall|p: int| 0 <= p < sorted.len() ==> match (#[trigger] sorted[p]).source {
            Option::Some(e) => has_note_id(sorted, e),
            Option::None => true,
        },
    ensures
        forall|m: int| 0 <= m < decoded.len() ==> match (#[trigger] decoded[m]).chained {
            Option::Some(e) => has_note_id(decoded, e),
            Option::None => true,
        },
        forall|m: int| 0 <= m < decoded.len() ==> match (#[trigger] decoded[m]).source {
            Option::Some(e) => has_note_id(decoded, e),
            Option::None => true,
        },
{
    broadcast use vstd::seq_lib::group_to_multiset_ensures;

    assert forall|m: int| 0 <= m < decoded.len() implies match (#[trigger] decoded[m]).chained {
        Option::Some(e) => has_note_id(decoded, e),
        Option::None => true,
    } by {
        let o = decoded[m];
        assert(decoded.contains(o));
        assert(sorted.to_multiset().count(o) > 0);
        assert(sorted.contains(o));
        let p = choose|p: int| 0 <= p < sorted.len() && sorted[p] == o;
        match o.chained {
            Option::Some(e) => {
                assert(has_note_id(sorted, e));
                lemma_has_id_of_multiset(sorted, decoded, e);
            },
            Option::None => {},
        }
    }
    assert forall|m: int| 0 <= m < decoded.len() implies match (#[trigger] decoded[m]).source {
        Option::Some(e) => has_note_id(decoded, e),
        Option::None => true,
    } by {
        let o = decoded[m];
        assert(decoded.contains(o));
        assert(sorted.to_multiset().count(o) > 0);
        assert(sorted.contains(o));
        let p = choose|p: int| 0 <= p < sorted.len() && sorted[p] == o;
        match o.source {
            Option::Some(e) => {
                assert(has_note_id(sorted, e));
                lemma_has_id_of_multiset(sorted, decoded, e);
            },
            Option::None => {},
        }
    }
}

} // verus!

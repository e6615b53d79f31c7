//! Tests for both front ends: JSON field extraction, semantic decoding with
//! the Top-lane flip, identifier normalization, the packed binary layout,
//! and the round trip back to the authored fields.
use fumengen::jsonparse::{
    describe_note, encode_note, JsonFumen, ParseError, RawNote, RawSoPoint, SOPoint, NOT_FOUND_VAL,
};
use fumengen::objects::Objecttype;
use fumengen::parse::FumenDescription;

fn raw_note() -> RawNote {
    RawNote {
        starttime: 1000,
        flytime: 800,
        id: 0,
        source: -1,
        numreflectnotes: 0,
        numalsoreflectednotes: 0,
        side: 0,
        istop: 0,
        notetype: 0,
        lolength: 0,
        position: -1,
        isset: 0,
        magicnumber: 0,
        chainlastid: 0,
        chainnextid: -1,
        chainid: 0,
        chaindeltatime: 0,
    }
}

fn chart(notes: Vec<RawNote>, sopoints: Vec<RawSoPoint>) -> JsonFumen {
    JsonFumen {
        header: 0,
        filetype: 0,
        startbpm_millibpm: 120_000,
        length: 0,
        numnotes: notes.len() as i64,
        numbpmchanges: 0,
        numgeneratednotes: 0,
        numsopoints: sopoints.len() as i64,
        notes,
        bpmchanges: vec![],
        sopoints,
    }
}

#[test]
fn kind_derivation() {
    let mut r = raw_note();
    assert_eq!(describe_note(&r).object_type, Objecttype::Normal);
    r.istop = 1;
    assert_eq!(describe_note(&r).object_type, Objecttype::Top);
    r.istop = 0;
    r.position = 3;
    assert_eq!(describe_note(&r).object_type, Objecttype::Vertical);
    r.isset = 1;
    assert_eq!(describe_note(&r).object_type, Objecttype::Normal);
    r.notetype = 2;
    assert_eq!(describe_note(&r).object_type, Objecttype::Slide);
}

#[test]
fn top_lane_is_flipped() {
    let mut r = raw_note();
    r.istop = 1;
    r.position = 0;
    assert_eq!(describe_note(&r).pos, Some(2));
    r.position = 2;
    assert_eq!(describe_note(&r).pos, Some(0));
    r.position = 1;
    assert_eq!(describe_note(&r).pos, Some(1));
}

#[test]
fn long_note_duration_in_milliseconds() {
    let mut r = raw_note();
    r.notetype = 1;
    r.lolength = 350;
    let d = describe_note(&r);
    assert_eq!(d.duration, Some(350));
    r.notetype = 0;
    assert_eq!(describe_note(&r).duration, None);
}

#[test]
fn chain_bond_needs_magic_bit() {
    let mut r = raw_note();
    r.chainnextid = 5;
    assert_eq!(describe_note(&r).chained, None);
    r.magicnumber = 8;
    assert_eq!(describe_note(&r).chained, Some(5));
    r.chainnextid = -1;
    assert_eq!(describe_note(&r).chained, None);
}

#[test]
fn source_sentinel_is_none() {
    let mut r = raw_note();
    assert_eq!(describe_note(&r).source, None);
    r.source = 7;
    assert_eq!(describe_note(&r).source, Some(7));
}

#[test]
fn note_round_trip_through_raw_fields() {
    let cases = vec![
        {
            let mut r = raw_note();
            r.id = 3;
            r.position = 4;
            r.isset = 1;
            r
        },
        {
            let mut r = raw_note();
            r.istop = 1;
            r.position = 2;
            r
        },
        {
            let mut r = raw_note();
            r.notetype = 1;
            r.lolength = 500;
            r.magicnumber = 8;
            r.chainnextid = 9;
            r
        },
        {
            let mut r = raw_note();
            r.notetype = 2;
            r.position = 5;
            r.source = 1;
            r
        },
    ];
    for r in cases {
        let d = describe_note(&r);
        let r2 = encode_note(&d);
        let d2 = describe_note(&r2);
        assert_eq!(d, d2);
    }
}

#[test]
fn json_fields_read_through_serde() {
    let text = "{\"starttime\": 1500, \"flytime\": 700, \"id\": 4, \"source\": -1, \
                \"numreflectnotes\": 0, \"numalsoreflectednotes\": 0, \"side\": 1, \
                \"istop\": 0, \"type\": 0, \"lolength\": 0, \"position\": -1, \
                \"isset\": 0, \"magicnumber\": 0, \"chainlastid\": -1, \
                \"chainnextid\": -1, \"chainid\": -1, \"chaindeltatime\": 0}";
    let v: serde_json::Value = serde_json::from_str(text).unwrap();
    let r = RawNote::from_json(&v);
    assert_eq!(r.starttime, 1500);
    assert_eq!(r.flytime, 700);
    assert_eq!(r.id, 4);
    assert_eq!(r.side, 1);
    assert_eq!(r.position, -1);
}

#[test]
fn missing_json_field_becomes_sentinel() {
    let v: serde_json::Value = serde_json::from_str("{\"starttime\": 10}").unwrap();
    let r = RawNote::from_json(&v);
    assert_eq!(r.starttime, 10);
    assert_eq!(r.flytime, NOT_FOUND_VAL);
    assert_eq!(r.id, NOT_FOUND_VAL);
}

#[test]
fn sopoint_missing_field_is_invalid() {
    let v: serde_json::Value = serde_json::from_str("{\"noteid\": 1, \"id\": 0}").unwrap();
    assert_eq!(RawSoPoint::from_json(&v), Err(ParseError::InvalidJson));
    let ok = "{\"noteid\": 1, \"id\": 0, \"position\": 3, \"starttime\": 100, \"flytime\": 50}";
    let v: serde_json::Value = serde_json::from_str(ok).unwrap();
    let p = RawSoPoint::from_json(&v).unwrap();
    assert_eq!(p.noteid, 1);
    assert_eq!(p.position, 3);
}

#[test]
fn from_json_sorts_by_arrival_and_remaps_bonds() {
    let mut late = raw_note();
    late.id = 10;
    late.starttime = 5000;
    let mut early = raw_note();
    early.id = 20;
    early.starttime = 100;
    early.magicnumber = 8;
    early.chainnextid = 10;
    let content = chart(vec![late, early], vec![]);
    let d = FumenDescription::from_json("n", "a", "c", 0, content).unwrap();
    assert_eq!(d.objects.len(), 2);
    assert_eq!(d.objects[0].id, 20);
    assert_eq!(d.objects[1].id, 10);
    // the chain bond now names the sorted index of the note with id 10
    assert_eq!(d.objects[0].chained, Some(1));
    assert_eq!(d.bpm, vec![120_000]);
    assert_eq!(d.level, 1);
    assert_eq!(d.difficulty, "Normal");
}

#[test]
fn from_json_rejects_dangling_bond() {
    let mut a = raw_note();
    a.magicnumber = 8;
    a.chainnextid = 99;
    let content = chart(vec![a], vec![]);
    assert!(matches!(
        FumenDescription::from_json("n", "a", "c", 0, content),
        Err(ParseError::InvalidJson)
    ));
}

#[test]
fn from_json_remaps_slide_anchor() {
    let mut a = raw_note();
    a.id = 7;
    a.position = 4;
    a.isset = 1;
    let p = RawSoPoint { noteid: 7, id: 0, position: 2, starttime: 1100, flytime: 600 };
    let content = chart(vec![a], vec![p]);
    let d = FumenDescription::from_json("n", "a", "c", 0, content).unwrap();
    assert_eq!(d.sopoints.len(), 1);
    let sp: SOPoint = d.sopoints[0];
    assert_eq!(sp.noteid, 0);
    assert_eq!(sp.pos, 2);
    assert_eq!(sp.starttime, 1100);
    assert_eq!(sp.flytime, 600);
}

#[test]
fn from_json_rejects_dangling_slide_anchor() {
    let p = RawSoPoint { noteid: 9, id: 0, position: 2, starttime: 1100, flytime: 600 };
    let content = chart(vec![raw_note()], vec![p]);
    assert!(matches!(
        FumenDescription::from_json("n", "a", "c", 0, content),
        Err(ParseError::InvalidJson)
    ));
}

#[test]
fn duplicate_identifier_takes_last_occurrence() {
    let mut a = raw_note();
    a.id = 5;
    a.starttime = 100;
    let mut b = raw_note();
    b.id = 5;
    b.starttime = 200;
    let mut c = raw_note();
    c.id = 1;
    c.starttime = 300;
    c.source = 5;
    let content = chart(vec![a, b, c], vec![]);
    let d = FumenDescription::from_json("n", "a", "c", 0, content).unwrap();
    assert_eq!(d.objects[2].source, Some(1));
}

fn push_i16(v: &mut Vec<u8>, x: i16) {
    v.extend_from_slice(&x.to_le_bytes());
}

fn push_i32(v: &mut Vec<u8>, x: i32) {
    v.extend_from_slice(&x.to_le_bytes());
}

/// A packed chart of one plain note at the given times, tempo 120.
fn ply_bytes(starttime: i32, flytime: i32) -> Vec<u8> {
    let mut v: Vec<u8> = Vec::new();
    push_i32(&mut v, 1);  // header
    v.push(2);  // type
    v.extend_from_slice(&[0u8; 11]);
    v.extend_from_slice(&120.0f32.to_le_bytes());  // startbpm
    push_i32(&mut v, 0);  // length
    v.extend_from_slice(&[0u8; 4]);
    push_i16(&mut v, 1);  // numnotes
    push_i16(&mut v, 0);  // numbpmchanges
    push_i16(&mut v, 0);  // numgeneratednotes
    v.extend_from_slice(&[0u8; 2]);
    push_i16(&mut v, 0);  // numsopoints
    v.extend_from_slice(&[0u8; 6]);
    assert_eq!(v.len(), 44);
    // one note, base block only
    push_i32(&mut v, starttime);
    push_i32(&mut v, flytime);
    push_i16(&mut v, 0);  // id
    push_i16(&mut v, -1);  // source
    push_i16(&mut v, 0);  // numreflectnotes
    v.push(0);  // numalsoreflectednotes
    v.push(0);  // side
    v.push(0);  // istop
    v.push(0);  // type
    push_i16(&mut v, 0);  // lolength
    push_i16(&mut v, -1);  // position
    v.push(0);  // isset
    v.extend_from_slice(&[0u8; 3]);
    v.push(0);  // magicnumber
    v.extend_from_slice(&[0u8; 11]);
    v
}

#[test]
fn binary_decodes_the_packed_layout() {
    let bytes = ply_bytes(1000, 800);
    let c = JsonFumen::from_bytes(&bytes).unwrap();
    assert_eq!(c.header, 1);
    assert_eq!(c.filetype, 2);
    assert_eq!(c.startbpm_millibpm, 120_000);
    assert_eq!(c.numnotes, 1);
    assert_eq!(c.notes.len(), 1);
    let n = &c.notes[0];
    assert_eq!(n.starttime, 1000);
    assert_eq!(n.flytime, 800);
    assert_eq!(n.source, -1);
    assert_eq!(n.position, -1);
}

#[test]
fn binary_with_chain_block() {
    let mut bytes = ply_bytes(1000, 800);
    // set the magic byte (offset 44 + 14 + 12) and append the chain block
    bytes[44 + 14 + 12] = 8;
    push_i16(&mut bytes, -1);  // chainlastid
    push_i16(&mut bytes, 3);  // chainnextid
    push_i16(&mut bytes, 0);  // chainid
    push_i16(&mut bytes, 250);  // chaindeltatime
    bytes.extend_from_slice(&[0u8; 4]);
    let c = JsonFumen::from_bytes(&bytes).unwrap();
    assert_eq!(c.notes[0].magicnumber, 8);
    assert_eq!(c.notes[0].chainnextid, 3);
    assert_eq!(c.notes[0].chaindeltatime, 250);
}

#[test]
fn truncated_binary_is_invalid() {
    let bytes = ply_bytes(1000, 800);
    let cut = &bytes[..bytes.len() - 1];
    assert!(matches!(JsonFumen::from_bytes(cut), Err(ParseError::InvalidBinary)));
    assert!(matches!(JsonFumen::from_bytes(&bytes[..10]), Err(ParseError::InvalidBinary)));
}

#[test]
fn negative_tempo_bits_are_invalid() {
    let mut bytes = ply_bytes(1000, 800);
    let neg = (-120.0f32).to_le_bytes();
    bytes[16..20].copy_from_slice(&neg);
    assert!(matches!(JsonFumen::from_bytes(&bytes), Err(ParseError::InvalidBinary)));
}

#[test]
fn fractional_tempo_rounds_down_to_millibpm() {
    let mut bytes = ply_bytes(1000, 800);
    let bpm = 127.5f32.to_le_bytes();
    bytes[16..20].copy_from_slice(&bpm);
    let c = JsonFumen::from_bytes(&bytes).unwrap();
    assert_eq!(c.startbpm_millibpm, 127_500);
}

#[test]
fn binary_and_json_paths_agree() {
    let bytes = ply_bytes(1000, 800);
    let from_binary = JsonFumen::from_bytes(&bytes).unwrap();
    let by_hand = chart(
        vec![{
            let mut r = raw_note();
            r.chainnextid = 0;
            r
        }],
        vec![],
    );
    assert_eq!(from_binary.notes, by_hand.notes);
    let d1 = FumenDescription::from_json("n", "a", "c", 0, from_binary).unwrap();
    let d2 = FumenDescription::from_json("n", "a", "c", 0, by_hand).unwrap();
    assert_eq!(d1.objects, d2.objects);
    assert_eq!(d1.sopoints, d2.sopoints);
    assert_eq!(d1.bpm, d2.bpm);
}

//! Scenario tests for the resolver: concrete charts and the properties the
//! resolved output must show.
use fumengen::consts::{
    BOTTOM_SLOT_SPACING, BOTTOM_SLOT_START_X, SPAWN_Y_POSITION, TOP_SLOT_Y, TOP_SPAWN_X_SPACING,
    TOP_SPAWN_X_START,
};
use fumengen::generate::GenerateError;
use fumengen::jsonparse::SOPoint;
use fumengen::objects::Objecttype;
use fumengen::parse::{FumenDescription, ObjectDescription};

fn note(
    id: u32,
    starttime: i64,
    flytime: i64,
    object_type: Objecttype,
    pos: Option<u32>,
    side: u32,
) -> ObjectDescription {
    ObjectDescription {
        id,
        starttime,
        flytime,
        object_type,
        duration: None,
        pos,
        generated_pos: None,
        chained: None,
        source: None,
        side,
    }
}

fn desc(objects: Vec<ObjectDescription>, sopoints: Vec<SOPoint>) -> FumenDescription {
    FumenDescription {
        name: "song".to_string(),
        artist: "artist".to_string(),
        charter: "charter".to_string(),
        level: 1,
        difficulty: "Normal".to_string(),
        bpm: vec![120_000],
        delay: 0,
        objects,
        sopoints,
    }
}

#[test]
fn empty_chart() {
    let mut d = desc(vec![], vec![]);
    let f = d.into_fumen(0).unwrap();
    assert_eq!(f.objects.len(), 0);
    assert_eq!(f.chains.len(), 0);
    assert_eq!(f.sliders.len(), 0);
    assert_eq!(f.ms_per_measure, 2000);
    assert_eq!(f.bpm, 120_000);
}

#[test]
fn single_top() {
    let mut d = desc(vec![note(0, 1000, 800, Objecttype::Top, Some(1), 0)], vec![]);
    let f = d.into_fumen(0).unwrap();
    assert_eq!(f.objects.len(), 1);
    let o = &f.objects[0];
    assert_eq!(o.dest.x, 0);
    assert_eq!(o.dest.y, TOP_SLOT_Y);
    assert_eq!(o.spawn.x, TOP_SPAWN_X_START + TOP_SPAWN_X_SPACING);
    assert_eq!(o.spawn.y, SPAWN_Y_POSITION);
    assert_eq!(o.pos, 1);
    assert_eq!(o.arrive_time, 1800);
    assert_eq!(o.spawn_time, 1000);
    assert!(!o.chord);
    assert_eq!(f.chains.len(), 0);
    assert_eq!(f.sliders.len(), 0);
}

#[test]
fn two_chorded_normals() {
    let mut d = desc(
        vec![
            note(0, 1000, 1000, Objecttype::Normal, None, 0),
            note(1, 1200, 800, Objecttype::Normal, None, 0),
        ],
        vec![],
    );
    let f = d.into_fumen(0).unwrap();
    assert_eq!(f.objects.len(), 2);
    assert!(f.objects[0].chord);
    assert!(f.objects[1].chord);
    assert_ne!(f.objects[0].pos, f.objects[1].pos);
}

#[test]
fn chord_flag_needs_same_side() {
    let mut d = desc(
        vec![
            note(0, 1000, 1000, Objecttype::Normal, None, 0),
            note(1, 1200, 800, Objecttype::Normal, None, 1),
        ],
        vec![],
    );
    let f = d.into_fumen(0).unwrap();
    assert!(!f.objects[0].chord);
    assert!(!f.objects[1].chord);
}

#[test]
fn chain_of_three_normals() {
    let mut a = note(0, 500, 500, Objecttype::Normal, None, 0);
    a.chained = Some(1);
    let mut b = note(1, 750, 500, Objecttype::Normal, None, 0);
    b.chained = Some(2);
    let c = note(2, 1000, 500, Objecttype::Normal, None, 0);
    let mut d = desc(vec![a, b, c], vec![]);
    let f = d.into_fumen(0).unwrap();
    assert_eq!(f.objects.len(), 3);
    assert_eq!(f.objects[0].pos, f.objects[1].pos);
    assert_eq!(f.objects[1].pos, f.objects[2].pos);
    assert_eq!(f.objects[0].spawn, f.objects[1].spawn);
    assert_eq!(f.objects[1].spawn, f.objects[2].spawn);
    assert_eq!(f.chains.len(), 2);
    // exactly the two bonded pairs, sorted by the head's arrival
    assert_eq!(f.chains[0].head, f.objects[0]);
    assert_eq!(f.chains[0].tail, f.objects[1]);
    assert_eq!(f.chains[1].head, f.objects[1]);
    assert_eq!(f.chains[1].tail, f.objects[2]);
    for edge in &f.chains {
        assert_eq!(edge.head.pos, edge.tail.pos);
        assert_eq!(edge.head.spawn, edge.tail.spawn);
    }
}

#[test]
fn reflected_pair_shares_source() {
    let s = note(0, 200, 800, Objecttype::Normal, Some(3), 0);
    let mut r1 = note(1, 1100, 400, Objecttype::Normal, Some(1), 0);
    r1.source = Some(0);
    let mut r2 = note(2, 1200, 400, Objecttype::Normal, Some(5), 0);
    r2.source = Some(0);
    let mut d = desc(vec![s, r1, r2], vec![]);
    let f = d.into_fumen(0).unwrap();
    let source_dest = f.objects[0].dest;
    assert_eq!(source_dest.x, BOTTOM_SLOT_START_X + 3 * BOTTOM_SLOT_SPACING);
    assert_eq!(f.objects[1].spawn, source_dest);
    assert_eq!(f.objects[2].spawn, source_dest);
    assert_eq!(f.objects[1].reflect, f.objects[2].reflect);
    assert!(f.objects[1].reflect.is_some());
}

#[test]
fn slide_with_two_points() {
    let anchor = note(0, 1000, 700, Objecttype::Normal, Some(4), 0);
    let p1 = SOPoint { noteid: 0, id: 0, pos: 0, starttime: 1050, flytime: 800 };
    let p2 = SOPoint { noteid: 0, id: 1, pos: 2, starttime: 1200, flytime: 800 };
    let mut d = desc(vec![anchor], vec![p1, p2]);
    let f = d.into_fumen(0).unwrap();
    assert_eq!(f.sliders.len(), 1);
    let parts = &f.sliders[0].parts;
    assert_eq!(parts.len(), 3);
    assert_eq!(parts[0].spawn_time, f.objects[0].spawn_time);
    assert_eq!(parts[0].arrive_time, f.objects[0].arrive_time);
    assert_eq!(parts[1].pos, 0);
    assert_eq!(parts[1].spawn.x, BOTTOM_SLOT_START_X);
    assert_eq!(parts[1].spawn.y, SPAWN_Y_POSITION);
    assert_eq!(parts[1].arrive_time, 1850);
    assert_eq!(parts[2].pos, 2);
    assert_eq!(parts[2].spawn.x, BOTTOM_SLOT_START_X + 2 * BOTTOM_SLOT_SPACING);
}

#[test]
fn opponent_side_slide_anchor_emits_no_slider() {
    let anchor = note(0, 1000, 700, Objecttype::Normal, Some(4), 1);
    let p1 = SOPoint { noteid: 0, id: 0, pos: 0, starttime: 1050, flytime: 800 };
    let mut d = desc(vec![anchor], vec![p1]);
    let f = d.into_fumen(0).unwrap();
    assert_eq!(f.sliders.len(), 0);
}

#[test]
fn unordered_input_is_refused() {
    let mut d = desc(
        vec![
            note(0, 2000, 1000, Objecttype::Normal, None, 0),
            note(1, 500, 500, Objecttype::Normal, None, 0),
        ],
        vec![],
    );
    assert!(matches!(d.into_fumen(0), Err(GenerateError::UnorderedInput)));
}

#[test]
fn top_lane_out_of_range_is_refused() {
    let mut d = desc(vec![note(0, 1000, 800, Objecttype::Top, Some(5), 0)], vec![]);
    assert!(matches!(d.into_fumen(0), Err(GenerateError::InvariantViolation)));
}

#[test]
fn vertical_lane_out_of_range_is_refused() {
    let mut d = desc(vec![note(0, 1000, 800, Objecttype::Vertical, Some(9), 0)], vec![]);
    assert!(matches!(d.into_fumen(0), Err(GenerateError::InvariantViolation)));
}

#[test]
fn missing_tempo_is_refused() {
    let mut d = desc(vec![], vec![]);
    d.bpm = vec![];
    assert!(matches!(d.into_fumen(0), Err(GenerateError::InvariantViolation)));
}

#[test]
fn delay_shifts_every_time() {
    let mut d = desc(vec![note(0, 1000, 800, Objecttype::Top, Some(0), 0)], vec![]);
    d.delay = 250;
    let f = d.into_fumen(0).unwrap();
    assert_eq!(f.objects[0].spawn_time, 1250);
    assert_eq!(f.objects[0].arrive_time, 2050);
    assert_eq!(f.delay, 250);
}

#[test]
fn arrivals_stay_ordered() {
    let mut d = desc(
        vec![
            note(0, 0, 500, Objecttype::Normal, None, 0),
            note(1, 100, 500, Objecttype::Normal, None, 1),
            note(2, 200, 500, Objecttype::Normal, None, 0),
            note(3, 300, 500, Objecttype::Normal, None, 1),
        ],
        vec![],
    );
    let f = d.into_fumen(0).unwrap();
    for w in f.objects.windows(2) {
        assert!(w[0].arrive_time <= w[1].arrive_time);
    }
}

#[test]
fn generated_lane_avoids_a_near_vertical() {
    // at 120 bpm the avoidance window is half a beat: 250 ms; the Vertical
    // arrives 100 ms after the Normal, well inside it
    let mut d = desc(
        vec![
            note(0, 1000, 900, Objecttype::Normal, None, 0),
            note(1, 1000, 1000, Objecttype::Vertical, Some(3), 0),
        ],
        vec![],
    );
    let f = d.into_fumen(0).unwrap();
    assert_ne!(f.objects[0].pos, 3);
}

#[test]
fn lane_exhaustion_warns_and_proceeds() {
    // eight chorded notes on one board: only seven lanes exist
    let notes: Vec<ObjectDescription> = (0..8)
        .map(|i| note(i, 1000, 1000, Objecttype::Normal, None, 0))
        .collect();
    let mut d = desc(notes, vec![]);
    let f = d.into_fumen(0).unwrap();
    assert_eq!(f.objects.len(), 8);
    assert!(!f.overlap_warnings.is_empty());
    // every warning names the chord's arrival instant
    for w in &f.overlap_warnings {
        assert_eq!(*w, 2000);
    }
    // the first seven still found distinct lanes
    let mut lanes: Vec<u32> = f.objects[..7].iter().map(|o| o.pos).collect();
    lanes.sort();
    lanes.dedup();
    assert_eq!(lanes.len(), 7);
}

#[test]
fn song_offset_is_carried() {
    let mut d = desc(vec![], vec![]);
    let f = d.into_fumen(1500).unwrap();
    assert_eq!(f.song_offset, 1500);
    assert_eq!(f.metadata.name, "song");
    assert_eq!(f.metadata.bpm, "120-120");
}

//! Tests for the board geometry: distances, destinations, trajectories and
//! the playback cursors, plus the bounded random draw.
use fumengen::chains::Chain;
use fumengen::consts::{
    BOTTOM_SLOT_OPPONENT_Y, BOTTOM_SLOT_SPACING, BOTTOM_SLOT_START_X, BOTTOM_SLOT_Y, TOP_SLOT_SPACING,
    TOP_SLOT_START_X, TOP_SLOT_Y,
};
use fumengen::coords::Coord2d;
use fumengen::fumen::{Fumen, FumenMetadata};
use fumengen::objects::{Object, Objecttype};
use fumengen::slider::{SlidePoint, Slider};
use fumengen::utils::range_rng;

#[test]
fn distance_is_the_floor_of_the_euclidean_one() {
    let a = Coord2d::new(0, 0);
    let b = Coord2d::new(300, 400);
    assert_eq!(a.distance(&b), 500);
    let c = Coord2d::new(1, 1);
    // sqrt(2) is between 1 and 2
    assert_eq!(a.distance(&c), 1);
    assert_eq!(a.distance(&a), 0);
    assert_eq!(a.x(), 0);
    assert_eq!(b.y(), 400);
}

#[test]
fn destination_by_kind_and_side() {
    let top = Object::destination(Objecttype::Top, 2, 0);
    assert_eq!(top.x, TOP_SLOT_START_X + 2 * TOP_SLOT_SPACING);
    assert_eq!(top.y, TOP_SLOT_Y);
    let bottom = Object::destination(Objecttype::Normal, 6, 0);
    assert_eq!(bottom.x, BOTTOM_SLOT_START_X + 6 * BOTTOM_SLOT_SPACING);
    assert_eq!(bottom.y, BOTTOM_SLOT_Y);
    let opponent = Object::destination(Objecttype::Vertical, 0, 1);
    assert_eq!(opponent.x, BOTTOM_SLOT_START_X);
    assert_eq!(opponent.y, BOTTOM_SLOT_OPPONENT_Y);
}

#[test]
fn trajectory_hits_spawn_waypoint_and_destination() {
    let o = Object::new(1000, 2000, 0, -2000, 3000, Objecttype::Normal, 3, Some((2240, 0)), None, false);
    assert_eq!(o.current_coord(1000), o.spawn);
    let rt = o.reflec_time();
    assert!(1000 <= rt && rt <= 2000);
    if 1000 < rt && rt < 2000 {
        assert_eq!(o.current_coord(rt), Coord2d::new(2240, 0));
    }
    assert_eq!(o.current_coord(2000), o.dest);
}

#[test]
fn straight_note_keeps_spawn_as_waypoint() {
    let o = Object::new(0, 1000, 0, -100, 3850, Objecttype::Normal, 0, Some((-100, 3850)), None, false);
    // the waypoint equals the spawn point, so the first leg has length zero
    assert_eq!(o.reflec_time, 0 + o.spawn_time);
    assert_eq!(o.current_coord(0), o.spawn);
    assert_eq!(o.current_coord(1000), o.dest);
    assert_eq!(o.reflect_stage(o.reflec_time - 1), Some(0));
    assert_eq!(o.reflect_stage(o.reflec_time), Some(1));
}

#[test]
fn slide_point_moves_linearly() {
    let p = SlidePoint {
        pos: 0,
        spawn_time: 0,
        arrive_time: 1000,
        spawn: Coord2d::new(0, 1000),
        dest: Coord2d::new(0, 0),
    };
    assert_eq!(p.current_coord(0), p.spawn);
    assert_eq!(p.current_coord(500), Coord2d::new(0, 500));
    assert_eq!(p.current_coord(1000), p.dest);
}

fn dummy_object(spawn_time: i64, side: u32) -> Object {
    Object::new(spawn_time, spawn_time + 1000, side, 0, 3850, Objecttype::Normal, 0, None, None, false)
}

#[test]
fn fumen_cursors_walk_the_streams() {
    let a = dummy_object(0, 0);
    let b = dummy_object(100, 0);
    let c = dummy_object(200, 1);
    let d = dummy_object(300, 0);
    let slider = Slider {
        parts: vec![SlidePoint {
            pos: 0,
            spawn_time: 0,
            arrive_time: 100,
            spawn: Coord2d::new(0, 0),
            dest: Coord2d::new(0, 0),
        }],
    };
    let mut f = Fumen {
        metadata: FumenMetadata {
            name: "n".to_string(),
            artist: "a".to_string(),
            charter: "c".to_string(),
            bpm: "120-120".to_string(),
            difficulty: "Normal".to_string(),
            level: 1,
        },
        objects: vec![a, b, c, d],
        current: 0,
        chains: vec![Chain { head: a, tail: b }],
        currentchain: 0,
        sliders: vec![slider],
        currentslider: 0,
        overlap_warnings: vec![],
        playing: false,
        song_start_time: 0,
        ms_per_measure: 2000,
        delay: 0,
        song_offset: 0,
        bpm: 120_000,
    };
    assert_eq!(f.current_object().unwrap().spawn_time, 0);
    assert_eq!(f.current_chain().unwrap().spawn_time(), 0);
    assert_eq!(f.sliders[f.currentslider].spawn_time(), 0);
    assert_eq!(f.current_bpm(12345), 120_000);
    // skip the run of side-0 notes that starts after the current note
    f.goto_next_object_with_same_side(0);
    assert_eq!(f.current, 2);
    assert_eq!(f.current_object().unwrap().side, 1);
    f.current = f.objects.len();
    assert!(f.current_object().is_none());
}

#[test]
fn bounded_draw_stays_in_range() {
    for _ in 0..50 {
        let r = range_rng(0, 6);
        assert!((0..=6).contains(&r));
    }
    assert_eq!(range_rng(5, 5), 5);
    let r = range_rng(-10, -3);
    assert!((-10..=-3).contains(&r));
}

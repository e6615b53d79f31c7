//! Fixed board layout and timing constants.
//!
//! All coordinates are integers in board units; the bottom lane spacing is
//! exact in these units, so lane geometry needs no rounding. All times are
//! integers in milliseconds; all tempo values are integers in thousandths of
//! a beat per minute (milli-bpm).
use vstd::prelude::*;

verus! {

/// Number of landing columns on the bottom row.
pub const BOTTOM_SLOT_COUNT: u32 = 7;
/// Number of landing columns on the top row.
pub const TOP_SLOT_COUNT: u32 = 3;

/// Left edge of the playfield.
pub const INNER_WINDOW_X_MIN: i64 = -2240;
/// Right edge of the playfield.
pub const INNER_WINDOW_X_MAX: i64 = 2240;
/// Bottom edge of the playfield.
pub const INNER_WINDOW_Y_MIN: i64 = -3500;
/// Top edge of the playfield.
pub const INNER_WINDOW_Y_MAX: i64 = 3500;

/// Y of the judge line on the player's side; bottom notes arrive here.
pub const JUDGE_LINE_POSITION: i64 = -2800;

/// X of the leftmost bottom slot.
pub const BOTTOM_SLOT_START_X: i64 = -2065;
/// Distance between adjacent bottom slots; exact: 7 slots span the window.
pub const BOTTOM_SLOT_SPACING: i64 = 640;
/// Y where bottom notes arrive on the player's side.
pub const BOTTOM_SLOT_Y: i64 = -2800;
/// Y where bottom notes arrive on the opponent's side (mirrored).
pub const BOTTOM_SLOT_OPPONENT_Y: i64 = 2800;

/// X of the leftmost top slot.
pub const TOP_SLOT_START_X: i64 = -1505;
/// Distance between adjacent top slots.
pub const TOP_SLOT_SPACING: i64 = 1505;
/// Y where top notes arrive on the player's side.
pub const TOP_SLOT_Y: i64 = -1400;
/// Y where top notes arrive on the opponent's side (mirrored).
pub const TOP_SLOT_OPPONENT_Y: i64 = 1400;

/// Y at which every note first appears, above the visible window.
pub const SPAWN_Y_POSITION: i64 = 3850;

/// X of the leftmost top spawn column.
pub const TOP_SPAWN_X_START: i64 = -840;
/// Distance between adjacent top spawn columns.
pub const TOP_SPAWN_X_SPACING: i64 = 840;

/// Smallest X a generated bottom note may spawn at.
pub const SPAWN_X_MIN: i64 = -2240;
/// Largest X a generated bottom note may spawn at.
pub const SPAWN_X_MAX: i64 = 2240;

/// X of the left reflection edge.
pub const REFLECT_X_LEFT: i64 = -2240;
/// X of the right reflection edge.
pub const REFLECT_X_RIGHT: i64 = 2240;
/// Smallest Y a reflection waypoint may take.
pub const REFLECT_Y_MIN: i64 = -2800;
/// Largest Y a reflection waypoint may take.
pub const REFLECT_Y_MAX: i64 = 3500;

/// The authored Top lane is mirrored: lane = TOP_LANE_FLIP - authored value.
pub const TOP_LANE_FLIP: i64 = 2;

/// One measure is four beats: 60_000 ms per minute * 4 beats, scaled by the
/// milli-bpm factor of 1000. ms_per_measure = MS_PER_MEASURE_DIVIDEND / millibpm.
pub const MS_PER_MEASURE_DIVIDEND: i64 = 240_000_000;

/// Half a beat in milli-beats; notes this close avoid each other's lane.
pub const AVOID_WINDOW_MILLIBEATS: i64 = 500;

/// `delta_ms * millibpm` compared against this decides whether two notes are
/// within the avoidance window of half a beat (30_000 ms-bpm, scaled by 1000
/// twice for milliseconds and milli-bpm).
pub const AVOID_WINDOW_MS_MILLIBPM: i64 = 120_000_000;

/// Largest time, in milliseconds, a chart may mention; keeps every sum of
/// times and every time-tempo product inside `i64`.
pub const TIME_LIMIT_MS: i64 = 0x20_0000_0000;

/// Largest time a resolved note may carry: authored time plus delay plus
/// duration and guard windows all stay within four times the authored limit.
pub const RESOLVED_TIME_LIMIT_MS: i64 = 4 * TIME_LIMIT_MS;

/// Largest tempo a chart may state, in milli-bpm.
pub const BPM_LIMIT_MILLIBPM: i64 = 4_000_000;

/// Every coordinate a resolved note carries stays within this bound; it keeps
/// the product of a distance and a time difference inside `i64`.
pub const BOARD_LIMIT: i64 = 100_000;

} // verus!

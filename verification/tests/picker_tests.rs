use kilter_core::data::{Hole, KilterData, Placement};
use kilter_core::picker::{click_accepted, KilterSettings, DRAG_CANCEL_SQ, PICK_THRESHOLD_SQ};

fn board_hole(id: u32, x: i32, y: i32) -> Hole {
    Hole {
        id,
        product_id: 1,
        name: String::new(),
        x,
        y,
        mirrored_hole_id: 0,
        mirror_group: 0,
    }
}

fn board_placement(id: u32, layout_id: u32, hole_id: u32) -> Placement {
    Placement {
        id,
        layout_id,
        hole_id,
        set_id: 1,
        default_placement_role_id: None,
    }
}

/// Board-local positions (0,0) and (1,1) in micro-units via a unit
/// scale on raw coordinates (0,0) and (1,1).
fn board() -> (KilterData, KilterSettings) {
    let mut kd = KilterData::new();
    kd.put_hole(board_hole(1, 0, 0));
    kd.put_hole(board_hole(2, 1, 1));
    kd.put_placement(board_placement(10, 1, 1));
    kd.put_placement(board_placement(20, 1, 2));
    let s = KilterSettings {
        offset_x: 0,
        offset_y: 0,
        scale: 1_000_000,
    };
    (kd, s)
}

#[test]
fn pick_resolves_nearest_within_threshold() {
    let (kd, s) = board();
    // (0.05, 0.0): distance^2 to (0,0) is 0.0025 < 0.01.
    let r = kd.pick_placement(s, 50_000, 0, PICK_THRESHOLD_SQ);
    assert_eq!(r, Some(10));
}

#[test]
fn pick_rejects_beyond_threshold() {
    let (kd, s) = board();
    // (0.5, 0.5): distance^2 to either hole is 0.5 > 0.01.
    let r = kd.pick_placement(s, 500_000, 500_000, PICK_THRESHOLD_SQ);
    assert_eq!(r, None);
}

#[test]
fn pick_nearer_of_two() {
    let (kd, s) = board();
    // (0.95, 1.0) is near (1,1).
    let r = kd.pick_placement(s, 950_000, 1_000_000, PICK_THRESHOLD_SQ);
    assert_eq!(r, Some(20));
}

#[test]
fn pick_ignores_other_layouts() {
    let mut kd = KilterData::new();
    kd.put_hole(board_hole(1, 0, 0));
    kd.put_placement(board_placement(10, 8, 1));
    let s = KilterSettings {
        offset_x: 0,
        offset_y: 0,
        scale: 1_000_000,
    };
    assert_eq!(kd.pick_placement(s, 0, 0, PICK_THRESHOLD_SQ), None);
}

#[test]
fn pick_skips_placement_with_missing_hole() {
    let mut kd = KilterData::new();
    kd.put_hole(board_hole(1, 0, 0));
    kd.put_placement(board_placement(10, 1, 99));
    kd.put_placement(board_placement(20, 1, 1));
    let s = KilterSettings {
        offset_x: 0,
        offset_y: 0,
        scale: 1_000_000,
    };
    assert_eq!(kd.pick_placement(s, 0, 0, PICK_THRESHOLD_SQ), Some(20));
}

#[test]
fn pick_tie_goes_to_earlier_table_entry() {
    let mut kd = KilterData::new();
    kd.put_hole(board_hole(1, 0, 0));
    kd.put_hole(board_hole(2, 0, 0));
    kd.put_placement(board_placement(30, 1, 1));
    kd.put_placement(board_placement(40, 1, 2));
    let s = KilterSettings {
        offset_x: 0,
        offset_y: 0,
        scale: 1_000_000,
    };
    assert_eq!(kd.pick_placement(s, 1000, 1000, PICK_THRESHOLD_SQ), Some(30));
}

#[test]
fn pick_applies_scale_and_offset() {
    let mut kd = KilterData::new();
    kd.put_hole(board_hole(1, 100, 200));
    kd.put_placement(board_placement(10, 1, 1));
    // Position: (100, 200) * 0.0251 + (-1.81, -1.96) = (0.7, 3.06).
    let s = KilterSettings::default();
    assert_eq!(kd.pick_placement(s, 700_000, 3_060_000, PICK_THRESHOLD_SQ), Some(10));
    assert_eq!(kd.pick_placement(s, 0, 0, PICK_THRESHOLD_SQ), None);
}

#[test]
fn click_gate_drops_drags_and_pinches() {
    assert!(click_accepted(0, false));
    assert!(click_accepted(DRAG_CANCEL_SQ, false));
    assert!(!click_accepted(DRAG_CANCEL_SQ + 1, false));
    assert!(!click_accepted(0, true));
}

use kilter_core::authoring::{IndicatorSet, PlacementIndicator};
use kilter_core::codec::ParseError;
use kilter_core::data::{Climb, Hole, KilterData, Placement, PlacementRole, SelectedClimb};
use kilter_core::paste::{import_line, paste_import};
use kilter_core::picker::KilterSettings;
use kilter_core::session::{
    climb_url, generate_prompt, GeneratedClimb, LookupMiss,
};

fn kd_with_reference() -> KilterData {
    let mut kd = KilterData::new();
    kd.put_hole(Hole {
        id: 1,
        product_id: 1,
        name: "h1".to_string(),
        x: 10,
        y: 20,
        mirrored_hole_id: 0,
        mirror_group: 0,
    });
    kd.put_placement(Placement {
        id: 100,
        layout_id: 1,
        hole_id: 1,
        set_id: 1,
        default_placement_role_id: Some(13),
    });
    kd.put_role(PlacementRole {
        id: 13,
        product_id: 1,
        position: 1,
        name: "any".to_string(),
        full_name: "any hold".to_string(),
        led_color: "00FF00".to_string(),
        screen_color: "00CC00".to_string(),
    });
    kd
}

#[test]
fn import_line_with_name_and_frames() {
    let mut kd = KilterData::new();
    let r = import_line(&mut kd, "My Route,p1r13p2r14", "test-id".to_string());
    assert_eq!(r, Ok(()));
    assert_eq!(kd.climbs.len(), 1);
    let c = &kd.climbs[0];
    assert_eq!(c.name, "My Route");
    assert_eq!(c.frames, "p1r13p2r14");
    assert_eq!(c.uuid, "test-id");
    assert_eq!(c.setter_username, "User");
}

#[test]
fn import_line_without_comma_gets_default_name() {
    let mut kd = KilterData::new();
    let r = import_line(&mut kd, "p1r13", "test-id".to_string());
    assert_eq!(r, Ok(()));
    assert_eq!(kd.climbs[0].name, "Pasted Climb");
    assert_eq!(kd.climbs[0].frames, "p1r13");
}

#[test]
fn import_line_splits_at_rightmost_comma() {
    let mut kd = KilterData::new();
    let r = import_line(&mut kd, "One, Two, Three,p9r12", "test-id".to_string());
    assert_eq!(r, Ok(()));
    assert_eq!(kd.climbs[0].name, "One, Two, Three");
    assert_eq!(kd.climbs[0].frames, "p9r12");
}

#[test]
fn import_line_rejects_blank_frames() {
    let mut kd = KilterData::new();
    let r = import_line(&mut kd, "Named But Empty,", "test-id".to_string());
    assert_eq!(r, Err(ParseError::Malformed { offset: 0 }));
    assert!(kd.climbs.is_empty());
}

#[test]
fn import_line_rejects_malformed_frames_whole() {
    let mut kd = KilterData::new();
    let r = import_line(&mut kd, "Bad,p12r13x", "test-id".to_string());
    assert_eq!(r, Err(ParseError::Malformed { offset: 6 }));
    assert!(kd.climbs.is_empty());
}

#[test]
fn paste_import_applies_good_lines_and_warns_on_bad() {
    let mut kd = KilterData::new();
    let mut sel = SelectedClimb(0);
    let text = "My Route,p1r13\n\n  junk here  \np2r14";
    let (added, warnings) = paste_import(&mut kd, &mut sel, text);
    assert_eq!(added, 2);
    assert_eq!(kd.climbs.len(), 2);
    assert_eq!(kd.climbs[0].name, "My Route");
    assert_eq!(kd.climbs[0].frames, "p1r13");
    assert_eq!(kd.climbs[1].name, "Pasted Climb");
    assert_eq!(kd.climbs[1].frames, "p2r14");
    // Line 2 (zero-based) is non-blank and malformed at its first byte.
    assert_eq!(warnings, vec![(2, ParseError::Malformed { offset: 0 })]);
    // The selection moves to the first climb of the batch.
    assert_eq!(sel.0, 0);
    // Each pasted climb got a fresh 32-character identifier.
    assert_eq!(kd.climbs[0].uuid.len(), 32);
    assert_eq!(kd.climbs[1].uuid.len(), 32);
    assert_ne!(kd.climbs[0].uuid, kd.climbs[1].uuid);
}

#[test]
fn paste_import_trims_surrounding_whitespace() {
    let mut kd = KilterData::new();
    let mut sel = SelectedClimb(0);
    let (added, warnings) = paste_import(&mut kd, &mut sel, "  Route A,p1r13 \r\n");
    assert_eq!(added, 1);
    assert!(warnings.is_empty());
    assert_eq!(kd.climbs[0].name, "Route A");
    assert_eq!(kd.climbs[0].frames, "p1r13");
}

#[test]
fn paste_import_with_no_valid_lines_keeps_selection() {
    let mut kd = KilterData::new();
    kd.put_climb(Climb::default());
    let mut sel = SelectedClimb(7);
    let (added, warnings) = paste_import(&mut kd, &mut sel, "nope\n\n");
    assert_eq!(added, 0);
    assert_eq!(warnings.len(), 1);
    assert_eq!(sel.0, 7);
    assert_eq!(kd.climbs.len(), 1);
}

#[test]
fn import_generated_records_api_climbs_and_selects_first() {
    let mut kd = KilterData::new();
    let mut before = Climb::default();
    before.uuid = "existing".to_string();
    kd.put_climb(before);
    let mut sel = SelectedClimb(0);
    let list = vec![
        GeneratedClimb {
            uuid: "g1".to_string(),
            angle: Some(40),
            description: "steep".to_string(),
            difficulty: "V5".to_string(),
            frames: "p1r13".to_string(),
            name: "Gen One".to_string(),
        },
        GeneratedClimb {
            uuid: "g2".to_string(),
            angle: None,
            description: String::new(),
            difficulty: String::new(),
            frames: "p2r14".to_string(),
            name: "Gen Two".to_string(),
        },
    ];
    kd.import_generated(&mut sel, &list);
    assert_eq!(kd.climbs.len(), 3);
    assert_eq!(kd.climbs[1].name, "Gen One");
    assert_eq!(kd.climbs[1].setter_username, "API");
    assert_eq!(kd.climbs[1].angle, Some(40));
    assert_eq!(kd.climbs[2].frames, "p2r14");
    assert_eq!(sel.0, 1);
}

#[test]
fn new_climb_creates_named_blank_and_selects_it() {
    let mut kd = KilterData::new();
    let mut sel = SelectedClimb(0);
    kd.new_climb(&mut sel);
    assert_eq!(kd.climbs.len(), 1);
    let c = &kd.climbs[0];
    assert_eq!(c.name, "New Climb");
    assert_eq!(c.setter_username, "User");
    assert_eq!(c.uuid.len(), 36);
    assert!(c.frames.is_empty());
    assert_eq!(sel.0, 0);
}

#[test]
fn publish_payload_replaces_frames_only() {
    let mut kd = KilterData::new();
    let mut c = Climb::default();
    c.uuid = "u".to_string();
    c.name = "Route".to_string();
    c.frames = "p1r13".to_string();
    c.angle = Some(30);
    kd.put_climb(c);
    let mut set = IndicatorSet::new();
    set.upsert(5, 14);
    let payload = kd.publish_payload(&SelectedClimb(0), &set).unwrap();
    assert_eq!(payload.frames, "p5r14");
    assert_eq!(payload.name, "Route");
    assert_eq!(payload.uuid, "u");
    assert_eq!(payload.angle, Some(30));
    assert!(kd.publish_payload(&SelectedClimb(1), &set).is_none());
}

#[test]
fn generate_prompt_encodes_angle_and_frames() {
    assert_eq!(generate_prompt(40, "p1r13"), "a40d20p1r13");
    assert_eq!(generate_prompt(0, ""), "a0d20");
}

#[test]
fn climb_url_appends_uuid() {
    let mut c = Climb::default();
    c.uuid = "abc123".to_string();
    assert_eq!(climb_url(&c), "https://kilterboardapp.com/climbs/abc123");
}

#[test]
fn resolve_indicator_returns_position_and_color() {
    let kd = kd_with_reference();
    let s = KilterSettings {
        offset_x: 5,
        offset_y: -5,
        scale: 1_000,
    };
    let ind = PlacementIndicator { placement_id: 100, role_id: 13 };
    let v = kd.resolve_indicator(s, &ind).unwrap();
    assert_eq!(v.x, 10_005);
    assert_eq!(v.y, 19_995);
    assert_eq!(v.led_color, "00FF00");
}

#[test]
fn resolve_indicator_reports_first_missing_table() {
    let kd = kd_with_reference();
    let s = KilterSettings::default();
    let miss = kd
        .resolve_indicator(s, &PlacementIndicator { placement_id: 999, role_id: 13 })
        .unwrap_err();
    assert_eq!(miss, LookupMiss::Placement(999));
    let miss = kd
        .resolve_indicator(s, &PlacementIndicator { placement_id: 100, role_id: 77 })
        .unwrap_err();
    assert_eq!(miss, LookupMiss::Role(77));
    let mut kd2 = kd_with_reference();
    kd2.put_placement(Placement {
        id: 200,
        layout_id: 1,
        hole_id: 42,
        set_id: 1,
        default_placement_role_id: None,
    });
    let miss = kd2
        .resolve_indicator(s, &PlacementIndicator { placement_id: 200, role_id: 13 })
        .unwrap_err();
    assert_eq!(miss, LookupMiss::Hole(42));
}

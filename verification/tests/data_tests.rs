use kilter_core::data::{
    apply_change, ChangeClimbEvent, Climb, Hole, KilterData, Placement, SelectedClimb,
};

fn sample_hole(id: u32, x: i32, y: i32) -> Hole {
    Hole {
        id,
        product_id: 1,
        name: format!("hole {}", id),
        x,
        y,
        mirrored_hole_id: 0,
        mirror_group: 0,
    }
}

fn climb(uuid: &str, name: &str) -> Climb {
    let mut c = Climb::default();
    c.uuid = uuid.to_string();
    c.name = name.to_string();
    c.layout_id = 1;
    c
}

#[test]
fn put_hole_inserts_and_replaces_in_place() {
    let mut kd = KilterData::new();
    kd.put_hole(sample_hole(1, 0, 0));
    kd.put_hole(sample_hole(2, 5, 5));
    kd.put_hole(sample_hole(1, 9, 9));
    assert_eq!(kd.holes.len(), 2);
    assert_eq!(kd.holes[0].x, 9);
    assert_eq!(kd.holes[1].id, 2);
}

#[test]
fn hole_lookup_finds_by_id() {
    let mut kd = KilterData::new();
    kd.put_hole(sample_hole(7, 3, 4));
    assert_eq!(kd.hole_by_id(7).map(|h| (h.x, h.y)), Some((3, 4)));
    assert!(kd.hole_by_id(8).is_none());
}

#[test]
fn put_climb_keys_by_uuid() {
    let mut kd = KilterData::new();
    kd.put_climb(climb("a", "first"));
    kd.put_climb(climb("b", "second"));
    kd.put_climb(climb("a", "renamed"));
    assert_eq!(kd.climbs.len(), 2);
    assert_eq!(kd.climbs[0].name, "renamed");
    assert_eq!(kd.climbs[1].uuid, "b");
}

#[test]
fn ingest_climb_skips_other_layouts() {
    let mut kd = KilterData::new();
    let mut other = climb("x", "off-board");
    other.layout_id = 8;
    kd.ingest_climb(other);
    assert!(kd.climbs.is_empty());
    kd.ingest_climb(climb("y", "on-board"));
    assert_eq!(kd.climbs.len(), 1);
}

#[test]
fn placement_lookup_finds_by_id() {
    let mut kd = KilterData::new();
    kd.put_placement(Placement {
        id: 11,
        layout_id: 1,
        hole_id: 7,
        set_id: 1,
        default_placement_role_id: Some(14),
    });
    let p = kd.placement_by_id(11).copied();
    assert_eq!(p.map(|p| p.hole_id), Some(7));
    assert_eq!(p.and_then(|p| p.default_placement_role_id), Some(14));
    assert!(kd.placement_by_id(12).is_none());
}

#[test]
fn change_events_wrap_around() {
    let mut sel = SelectedClimb(0);
    apply_change(&mut sel, &ChangeClimbEvent::Prev, 3);
    assert_eq!(sel.0, 2);
    apply_change(&mut sel, &ChangeClimbEvent::Next, 3);
    assert_eq!(sel.0, 0);
    apply_change(&mut sel, &ChangeClimbEvent::Next, 3);
    assert_eq!(sel.0, 1);
    apply_change(&mut sel, &ChangeClimbEvent::Prev, 3);
    assert_eq!(sel.0, 0);
    apply_change(&mut sel, &ChangeClimbEvent::SelectByIndex(2), 3);
    assert_eq!(sel.0, 2);
}

#[test]
fn change_events_with_no_climbs_leave_selection() {
    let mut sel = SelectedClimb(5);
    apply_change(&mut sel, &ChangeClimbEvent::Next, 0);
    assert_eq!(sel.0, 5);
}

#[test]
fn selected_climb_falls_back_to_first() {
    let mut kd = KilterData::new();
    assert!(kd.selected_climb(&SelectedClimb(0)).is_none());
    kd.put_climb(climb("a", "first"));
    kd.put_climb(climb("b", "second"));
    assert_eq!(kd.selected_climb(&SelectedClimb(1)).map(|c| c.name.as_str()), Some("second"));
    assert_eq!(kd.selected_climb(&SelectedClimb(9)).map(|c| c.name.as_str()), Some("first"));
}

#[test]
fn search_matches_name_substring() {
    let mut kd = KilterData::new();
    kd.put_climb(climb("a", "Moon Walk"));
    kd.put_climb(climb("b", "Sunshine"));
    kd.put_climb(climb("c", "Half Moon"));
    let r = kd.search_by_name("Moon");
    let found: Vec<(usize, String)> = r.into_iter().map(|(i, c)| (i, c.name)).collect();
    assert_eq!(
        found,
        vec![(0, "Moon Walk".to_string()), (2, "Half Moon".to_string())]
    );
}

#[test]
fn search_matches_position_digits() {
    let mut kd = KilterData::new();
    for i in 0..12 {
        kd.put_climb(climb(&format!("u{}", i), "route"));
    }
    // "11" occurs in the digits of position 11 alone.
    let r = kd.search_by_name("11");
    assert_eq!(r.len(), 1);
    assert_eq!(r[0].0, 11);
}

#[test]
fn search_with_empty_query_matches_all() {
    let mut kd = KilterData::new();
    kd.put_climb(climb("a", "one"));
    kd.put_climb(climb("b", "two"));
    assert_eq!(kd.search_by_name("").len(), 2);
}

#[test]
fn search_misses_return_empty() {
    let mut kd = KilterData::new();
    kd.put_climb(climb("a", "one"));
    assert!(kd.search_by_name("zzz").is_empty());
}

use kilter_core::authoring::{
    default_first_cycle_order, fixed_cycle_order, IndicatorChange, IndicatorSet,
    PlacementIndicator, ROLE_ANY, ROLE_FINISH, ROLE_FOOT_ONLY, ROLE_START,
};
use kilter_core::data::Climb;
use kilter_core::session::show_climb;

#[test]
fn fixed_cycle_runs_any_foot_finish_removal() {
    let mut set = IndicatorSet::new();
    assert_eq!(set.select_fixed(7), IndicatorChange::Added(ROLE_ANY));
    assert_eq!(
        set.items().as_slice(),
        &[PlacementIndicator { placement_id: 7, role_id: ROLE_ANY }]
    );
    assert_eq!(set.select_fixed(7), IndicatorChange::Changed(ROLE_FOOT_ONLY));
    assert_eq!(set.select_fixed(7), IndicatorChange::Changed(ROLE_FINISH));
    assert_eq!(set.select_fixed(7), IndicatorChange::Removed);
    assert!(set.items().is_empty());
}

#[test]
fn default_first_cycle_swaps_default_to_front() {
    let order = default_first_cycle_order(Some(ROLE_FINISH));
    assert_eq!(
        order,
        vec![
            Some(ROLE_FINISH),
            Some(ROLE_FOOT_ONLY),
            Some(ROLE_START),
            Some(ROLE_ANY),
            None
        ]
    );
}

#[test]
fn default_first_cycle_starts_with_default_role() {
    let mut set = IndicatorSet::new();
    assert_eq!(
        set.select_default_first(3, Some(ROLE_FINISH)),
        IndicatorChange::Added(ROLE_FINISH)
    );
    assert_eq!(
        set.items().as_slice(),
        &[PlacementIndicator { placement_id: 3, role_id: ROLE_FINISH }]
    );
}

#[test]
fn default_first_cycle_without_default_starts_at_any() {
    let order = default_first_cycle_order(None);
    assert_eq!(
        order,
        vec![
            Some(ROLE_ANY),
            Some(ROLE_FOOT_ONLY),
            Some(ROLE_START),
            Some(ROLE_FINISH),
            None
        ]
    );
    let mut set = IndicatorSet::new();
    assert_eq!(set.select_default_first(3, None), IndicatorChange::Added(ROLE_ANY));
}

#[test]
fn default_first_cycle_unknown_default_starts_at_any() {
    let mut set = IndicatorSet::new();
    assert_eq!(set.select_default_first(3, Some(99)), IndicatorChange::Added(ROLE_ANY));
}

#[test]
fn default_first_cycle_wraps_to_removal() {
    let mut set = IndicatorSet::new();
    set.select_default_first(5, Some(ROLE_FINISH));
    assert_eq!(
        set.select_default_first(5, Some(ROLE_FINISH)),
        IndicatorChange::Changed(ROLE_FOOT_ONLY)
    );
    assert_eq!(
        set.select_default_first(5, Some(ROLE_FINISH)),
        IndicatorChange::Changed(ROLE_START)
    );
    assert_eq!(
        set.select_default_first(5, Some(ROLE_FINISH)),
        IndicatorChange::Changed(ROLE_ANY)
    );
    assert_eq!(set.select_default_first(5, Some(ROLE_FINISH)), IndicatorChange::Removed);
    assert!(set.items().is_empty());
}

#[test]
fn cycling_a_role_outside_the_order_is_a_no_op() {
    let mut set = IndicatorSet::new();
    set.upsert(5, 99);
    assert_eq!(set.select_default_first(5, None), IndicatorChange::NoOp);
    assert_eq!(
        set.items().as_slice(),
        &[PlacementIndicator { placement_id: 5, role_id: 99 }]
    );
}

#[test]
fn selecting_another_placement_keeps_existing_indicators() {
    let mut set = IndicatorSet::new();
    set.select_fixed(1);
    set.select_fixed(2);
    assert_eq!(
        set.items().as_slice(),
        &[
            PlacementIndicator { placement_id: 1, role_id: ROLE_ANY },
            PlacementIndicator { placement_id: 2, role_id: ROLE_ANY },
        ]
    );
}

#[test]
fn upsert_replaces_role_in_place() {
    let mut set = IndicatorSet::new();
    set.upsert(1, ROLE_ANY);
    set.upsert(2, ROLE_ANY);
    set.upsert(1, ROLE_FINISH);
    assert_eq!(
        set.items().as_slice(),
        &[
            PlacementIndicator { placement_id: 1, role_id: ROLE_FINISH },
            PlacementIndicator { placement_id: 2, role_id: ROLE_ANY },
        ]
    );
}

#[test]
fn frames_serializes_indicators_in_order() {
    let mut set = IndicatorSet::new();
    set.upsert(1, 13);
    set.upsert(2, 14);
    assert_eq!(set.frames(), "p1r13p2r14");
}

#[test]
fn show_climb_rebuilds_from_notation() {
    let mut c = Climb::default();
    c.frames = "p1r13p2r14".to_string();
    let mut set = IndicatorSet::new();
    set.upsert(9, 13);
    show_climb(&mut set, &c);
    assert_eq!(
        set.items().as_slice(),
        &[
            PlacementIndicator { placement_id: 1, role_id: 13 },
            PlacementIndicator { placement_id: 2, role_id: 14 },
        ]
    );
}

#[test]
fn show_climb_keeps_last_role_of_duplicate_placement() {
    let mut c = Climb::default();
    c.frames = "p1r13p1r14".to_string();
    let mut set = IndicatorSet::new();
    show_climb(&mut set, &c);
    assert_eq!(
        set.items().as_slice(),
        &[PlacementIndicator { placement_id: 1, role_id: 14 }]
    );
}

#[test]
fn show_climb_reads_leniently() {
    let mut c = Climb::default();
    c.frames = "p1r13garbage".to_string();
    let mut set = IndicatorSet::new();
    show_climb(&mut set, &c);
    assert_eq!(
        set.items().as_slice(),
        &[PlacementIndicator { placement_id: 1, role_id: 13 }]
    );
}

#[test]
fn fixed_cycle_order_shape() {
    assert_eq!(
        fixed_cycle_order(),
        vec![Some(ROLE_ANY), Some(ROLE_FOOT_ONLY), Some(ROLE_FINISH), None]
    );
}

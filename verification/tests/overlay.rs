use map_edits::control::{Phase, StopSignControl, TrafficSignalControl, TurnPriority};
use map_edits::edits::MapEdits;
use map_edits::lane_edit::{can_change_lane_type, effective_lane_type, next_valid_type, toggle_lane_type};
use map_edits::lanes::{next_type, LaneType};
use map_edits::map::{BaseMap, Intersection, IntersectionControl, Lane, Road};
use map_edits::stop_signs::{could_be_priority_turn, cycle_turn_priority, effective_stop_sign};
use map_edits::control::next_priority;
use map_edits::apply::apply;

fn lane(lane_type: LaneType, parent: usize, fwd: bool, idx: usize) -> Lane {
    Lane { lane_type, parent, fwd, idx }
}

/// One road, forward side [Driving, Parking, Sidewalk], no back side.
fn small_map() -> BaseMap {
    BaseMap {
        lanes: vec![
            lane(LaneType::Driving, 0, true, 0),
            lane(LaneType::Parking, 0, true, 1),
            lane(LaneType::Sidewalk, 0, true, 2),
        ],
        roads: vec![Road { fwd_lanes: vec![0, 1, 2], back_lanes: vec![] }],
        intersections: vec![],
    }
}

#[test]
fn type_cycle_order() {
    assert_eq!(next_type(LaneType::Driving), LaneType::Parking);
    assert_eq!(next_type(LaneType::Parking), LaneType::Biking);
    assert_eq!(next_type(LaneType::Biking), LaneType::Bus);
    assert_eq!(next_type(LaneType::Bus), LaneType::Driving);
}

#[test]
fn next_valid_skips_existing_parking() {
    let map = small_map();
    let edits = MapEdits::new();
    // Driving -> Parking is blocked (lane 1 already parks), so Biking.
    assert_eq!(next_valid_type(&map, &edits, 0), Some(LaneType::Biking));
}

#[test]
fn next_valid_after_toggle_is_bus() {
    let map = small_map();
    let edits = MapEdits::new();
    let edits = toggle_lane_type(&map, &edits, 0).expect("legal move");
    assert_eq!(effective_lane_type(&map, &edits, 0), LaneType::Biking);
    // Now-Biking lane with no adjacent bike lane: next legal type is Bus.
    assert_eq!(next_valid_type(&map, &edits, 0), Some(LaneType::Bus));
}

#[test]
fn sidewalks_are_never_toggled() {
    let map = small_map();
    let edits = MapEdits::new();
    assert!(toggle_lane_type(&map, &edits, 2).is_none());
    assert_eq!(effective_lane_type(&map, &edits, 2), LaneType::Sidewalk);
}

#[test]
fn parking_uniqueness_is_enforced() {
    let map = small_map();
    let edits = MapEdits::new();
    assert!(!can_change_lane_type(&map, &edits, 0, LaneType::Parking));
    assert!(can_change_lane_type(&map, &edits, 0, LaneType::Biking));
}

#[test]
fn adjacent_biking_is_rejected() {
    // Forward side [Driving, Driving]; making both Biking must fail at
    // the second lane.
    let map = BaseMap {
        lanes: vec![
            lane(LaneType::Driving, 0, true, 0),
            lane(LaneType::Driving, 0, true, 1),
        ],
        roads: vec![Road { fwd_lanes: vec![0, 1], back_lanes: vec![] }],
        intersections: vec![],
    };
    let edits = MapEdits::new().with_lane_override(0, LaneType::Biking);
    assert!(!can_change_lane_type(&map, &edits, 1, LaneType::Biking));
    assert!(can_change_lane_type(&map, &edits, 1, LaneType::Parking));
}

#[test]
fn overrides_replace_and_reset() {
    let edits = MapEdits::new();
    let sign = StopSignControl { turns: vec![(3, TurnPriority::Yield)] };
    let with_sign = edits.with_stop_sign(7, sign);
    assert!(with_sign.stop_sign_override(7).is_some());
    let reset = with_sign.without_stop_sign(7);
    assert!(reset.stop_sign_override(7).is_none());
    assert_eq!(reset.edits_name, "no_edits");
}

#[test]
fn traffic_signal_override_is_kept() {
    let edits = MapEdits::new();
    let control = TrafficSignalControl {
        phases: vec![Phase { protected: vec![0, 2] }, Phase { protected: vec![1] }],
    };
    let e2 = edits.with_traffic_signal(4, control);
    let got = e2.traffic_signal_override(4).expect("present");
    assert_eq!(got.phases.len(), 2);
    assert_eq!(got.phases[0].protected, vec![0, 2]);
    assert_eq!(got.phases[1].protected, vec![1]);
}

/// An intersection whose turn 1 already has Priority and crosses turn 0.
fn crossing_map() -> BaseMap {
    BaseMap {
        lanes: vec![],
        roads: vec![],
        intersections: vec![Intersection {
            turns: vec![0, 1],
            conflicts: vec![(0, 1)],
            control: IntersectionControl::StopSign(StopSignControl {
                turns: vec![(0, TurnPriority::Stop), (1, TurnPriority::Priority)],
            }),
        }],
    }
}

#[test]
fn infeasible_priority_is_skipped() {
    let map = crossing_map();
    let edits = MapEdits::new();
    let sign = effective_stop_sign(&map, &edits, 0).expect("stop sign");
    assert!(!could_be_priority_turn(&map, &sign, 0, 0));
    // Stop -> Yield
    let edits = cycle_turn_priority(&map, &edits, 0, 0).expect("stop sign");
    let sign = effective_stop_sign(&map, &edits, 0).expect("stop sign");
    assert_eq!(sign.get_priority(0), TurnPriority::Yield);
    // Yield -> Banned, skipping Priority: turn 1 crosses and keeps Priority.
    let edits = cycle_turn_priority(&map, &edits, 0, 0).expect("stop sign");
    let sign = effective_stop_sign(&map, &edits, 0).expect("stop sign");
    assert_eq!(sign.get_priority(0), TurnPriority::Banned);
}

#[test]
fn feasible_priority_is_reached() {
    assert_eq!(next_priority(TurnPriority::Banned, true), TurnPriority::Stop);
    assert_eq!(next_priority(TurnPriority::Stop, true), TurnPriority::Yield);
    assert_eq!(next_priority(TurnPriority::Yield, true), TurnPriority::Priority);
    assert_eq!(next_priority(TurnPriority::Priority, true), TurnPriority::Banned);
    // Within four steps every start state has passed through Banned.
    for start in [
        TurnPriority::Banned,
        TurnPriority::Stop,
        TurnPriority::Yield,
        TurnPriority::Priority,
    ] {
        let mut p = start;
        let mut hit_banned = false;
        for _ in 0..4 {
            p = next_priority(p, false);
            if p == TurnPriority::Banned {
                hit_banned = true;
            }
        }
        assert!(hit_banned);
    }
}

#[test]
fn describe_names_the_overlay_and_counts() {
    let edits = MapEdits::new();
    assert_eq!(
        edits.describe(),
        "no_edits (0 lane overrides, 0 stop signs, 0 traffic signals)"
    );
    let edits = edits.with_lane_override(0, LaneType::Biking).with_lane_override(17, LaneType::Bus);
    assert_eq!(
        edits.describe(),
        "no_edits (2 lane overrides, 0 stop signs, 0 traffic signals)"
    );
}

#[test]
fn applying_the_empty_overlay_gives_base_defaults() {
    let map = crossing_map();
    let effective = apply(&map, &MapEdits::new());
    assert_eq!(effective.lane_types.len(), 0);
    assert_eq!(effective.controls.len(), 1);
    match &effective.controls[0] {
        IntersectionControl::StopSign(s) => {
            assert_eq!(s.turns, vec![(0, TurnPriority::Stop), (1, TurnPriority::Priority)]);
        }
        IntersectionControl::TrafficSignal(_) => panic!("expected the default stop sign"),
    }
    let map2 = small_map();
    let effective2 = apply(&map2, &MapEdits::new());
    assert_eq!(
        effective2.lane_types,
        vec![LaneType::Driving, LaneType::Parking, LaneType::Sidewalk]
    );
}

#[test]
fn applying_an_overlay_overrides_pointwise() {
    let map = small_map();
    let edits = MapEdits::new().with_lane_override(0, LaneType::Bus);
    let effective = apply(&map, &edits);
    assert_eq!(
        effective.lane_types,
        vec![LaneType::Bus, LaneType::Parking, LaneType::Sidewalk]
    );
}

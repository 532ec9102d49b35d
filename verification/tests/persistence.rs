use map_edits::control::{Phase, StopSignControl, TrafficSignalControl, TurnPriority};
use map_edits::edits::MapEdits;
use map_edits::lanes::LaneType;
use map_edits::session::{event, EditEvent, EditSession, EventOutcome};
use map_edits::map::BaseMap;
use map_edits::store::{LoadError, SavedOverlays};

fn sample_edits(name: &str) -> MapEdits {
    let mut e = MapEdits::new();
    e.edits_name = String::from(name);
    let e = e.with_lane_override(2, LaneType::Biking);
    let e = e.with_lane_override(0, LaneType::Bus);
    let e = e.with_stop_sign(
        5,
        StopSignControl { turns: vec![(1, TurnPriority::Priority), (9, TurnPriority::Banned)] },
    );
    e.with_traffic_signal(
        6,
        TrafficSignalControl {
            phases: vec![Phase { protected: vec![1, 3] }, Phase { protected: vec![] }],
        },
    )
}

#[test]
fn save_then_load_round_trips() {
    let mut store = SavedOverlays::new(String::from("downtown"));
    let edits = sample_edits("trial");
    store.save_record(&edits);
    let back = match store.load_record(&String::from("trial")) {
        Ok(e) => e,
        Err(_) => panic!("saved record must load"),
    };
    assert_eq!(back.edits_name, edits.edits_name);
    assert_eq!(back.lane_overrides, edits.lane_overrides);
    assert_eq!(back.stop_sign_overrides.len(), 1);
    assert_eq!(back.stop_sign_overrides[0].0, 5);
    assert_eq!(back.stop_sign_overrides[0].1.turns, edits.stop_sign_overrides[0].1.turns);
    assert_eq!(back.traffic_signal_overrides.len(), 1);
    assert_eq!(back.traffic_signal_overrides[0].0, 6);
    assert_eq!(back.traffic_signal_overrides[0].1.phases[0].protected, vec![1, 3]);
    assert_eq!(back.traffic_signal_overrides[0].1.phases[1].protected, vec![]);
}

#[test]
fn saved_bytes_are_reproduced_byte_for_byte() {
    let mut store = SavedOverlays::new(String::from("downtown"));
    let edits = sample_edits("trial");
    store.save_record(&edits);
    let first = store.entries[0].1.clone();
    let back = match store.load_record(&String::from("trial")) {
        Ok(e) => e,
        Err(_) => panic!("saved record must load"),
    };
    store.save_record(&back);
    assert_eq!(store.entries.len(), 1);
    assert_eq!(store.entries[0].1, first);
}

#[test]
fn load_of_unknown_name_is_not_found() {
    let store = SavedOverlays::new(String::from("downtown"));
    assert!(matches!(store.load_record(&String::from("missing")), Err(LoadError::NotFound)));
}

#[test]
fn load_of_garbage_is_corrupt() {
    let store = SavedOverlays {
        map_name: String::from("downtown"),
        entries: vec![(String::from("bad"), vec![1, 2, 3])],
    };
    assert!(matches!(store.load_record(&String::from("bad")), Err(LoadError::Corrupt)));
}

#[test]
fn load_of_unsorted_record_is_corrupt() {
    // A record whose lane keys are out of canonical order decodes but is
    // rejected as corrupt.
    let mut store = SavedOverlays::new(String::from("downtown"));
    let edits = sample_edits("tidy");
    store.save_record(&edits);
    let mut bytes = store.entries[0].1.clone();
    // Swap the two lane entries' keys (tokens 1 and 3, bytes 8.. and 24..).
    bytes.swap(8, 24);
    store.entries[0].1 = bytes;
    assert!(matches!(store.load_record(&String::from("tidy")), Err(LoadError::Corrupt)));
}

#[test]
fn saving_no_edits_requires_a_name() {
    let map = BaseMap { lanes: vec![], roads: vec![], intersections: vec![] };
    let mut store = SavedOverlays::new(String::from("downtown"));
    let mut session = EditSession::new();
    assert!(matches!(
        event(&mut session, &map, &mut store, EditEvent::StartSave),
        EventOutcome::Nothing
    ));
    // Confirming without a name writes nothing.
    assert!(matches!(
        event(&mut session, &map, &mut store, EditEvent::ConfirmSave),
        EventOutcome::NeedName
    ));
    assert_eq!(store.entries.len(), 0);
    // Supplying a name and confirming persists under that name.
    assert!(matches!(
        event(&mut session, &map, &mut store, EditEvent::ProvideName(String::from("rush hour"))),
        EventOutcome::Nothing
    ));
    assert!(matches!(
        event(&mut session, &map, &mut store, EditEvent::ConfirmSave),
        EventOutcome::Saved
    ));
    assert_eq!(store.entries.len(), 1);
    assert_eq!(store.entries[0].0, "rush hour");
    assert_eq!(session.edits.edits_name, "rush hour");
}

#[test]
fn aborting_a_dialog_commits_nothing() {
    let map = BaseMap { lanes: vec![], roads: vec![], intersections: vec![] };
    let mut store = SavedOverlays::new(String::from("downtown"));
    let mut session = EditSession::new();
    event(&mut session, &map, &mut store, EditEvent::StartSave);
    assert!(matches!(
        event(&mut session, &map, &mut store, EditEvent::Abort),
        EventOutcome::Nothing
    ));
    assert_eq!(store.entries.len(), 0);
    assert_eq!(session.edits.edits_name, "no_edits");
}

#[test]
fn loading_a_missing_overlay_reports_and_keeps_state() {
    let map = BaseMap { lanes: vec![], roads: vec![], intersections: vec![] };
    let mut store = SavedOverlays::new(String::from("downtown"));
    let mut session = EditSession::new();
    let out = event(&mut session, &map, &mut store, EditEvent::LoadNamed(String::from("ghost")));
    assert!(matches!(out, EventOutcome::LoadFailed(LoadError::NotFound)));
    assert_eq!(session.edits.edits_name, "no_edits");
}

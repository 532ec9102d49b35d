//! The edit session: one state machine that takes user intents and
//! drives the overlay engine. The host owns the loop, renders, and
//! collects input; every decision — which edits are legal, what gets
//! committed, when a save may write — is made here. An `Applied`
//! outcome tells the host that derived state must be recomputed before
//! the next event is handled.

use vstd::prelude::*;
use vstd::string::StringExecFns;

use crate::control::TrafficSignalControl;
use crate::edits::default_edits_name;
use crate::edits::MapEdits;
use crate::lane_edit::spec_next_valid;
use crate::lane_edit::toggle_lane_type;
use crate::map::BaseMap;
use crate::stop_signs::cycle_turn_priority;
use crate::stop_signs::is_stop_sign;
use crate::stop_signs::reset_stop_sign;
use crate::store::entry_for;
use crate::store::prepare_save;
use crate::store::LoadError;
use crate::store::PrepareSave;
use crate::store::SavedOverlays;

verus! {

/// What part of the editor the user is in.
pub enum EditMode {
    /// Browsing the map with the overlay's diffs highlighted.
    ViewingDiffs,
    /// The save dialog is open; a name may have been supplied.
    Saving { pending_name: Option<String> },
    /// The load dialog is open.
    Loading,
    /// The stop-sign editor is open for one intersection.
    EditingStopSign(usize),
    /// The signal sub-editor is open for one intersection.
    EditingTrafficSignal(usize),
}

/// The live editing session: the mode and the current overlay.
pub struct EditSession {
    pub mode: EditMode,
    pub edits: MapEdits,
}

/// One user intent, already stripped of all input plumbing.
pub enum EditEvent {
    /// Toggle the hovered lane to its next legal type.
    ToggleLaneType(usize),
    /// Open the stop-sign editor for an intersection.
    OpenStopSignEditor(usize),
    /// Advance one turn's priority inside the stop-sign editor.
    CycleTurn(usize, usize),
    /// Drop an intersection's stop-sign override.
    ResetStopSign(usize),
    /// Open the signal sub-editor for an intersection.
    OpenTrafficSignalEditor(usize),
    /// The signal sub-editor finished with a new schedule.
    CommitTrafficSignal(usize, TrafficSignalControl),
    /// Open the save dialog.
    StartSave,
    /// A name typed into the save dialog.
    ProvideName(String),
    /// Confirm the save dialog.
    ConfirmSave,
    /// Open the load dialog.
    StartLoad,
    /// A name chosen in the load dialog.
    LoadNamed(String),
    /// Close any open dialog or sub-editor without committing.
    Abort,
}

/// What the host must do after an event.
pub enum EventOutcome {
    /// No overlay change; keep rendering.
    Nothing,
    /// The overlay changed: derived state is invalid and must be
    /// recomputed before the next event.
    Applied,
    /// The overlay was persisted.
    Saved,
    /// Saving needs a name first; the dialog stays open.
    NeedName,
    /// Loading failed; the overlay in memory is unchanged.
    LoadFailed(LoadError),
}

impl EditSession {
    /// A fresh session over an untouched overlay.
    pub fn new() -> (r: EditSession)
        ensures
            r.edits.wf(),
            r.mode is ViewingDiffs,
            r.edits.edits_name@ == default_edits_name(),
            r.edits.lane_overrides@.len() == 0,
            r.edits.stop_sign_overrides@.len() == 0,
            r.edits.traffic_signal_overrides@.len() == 0,
    {
        EditSession { mode: EditMode::ViewingDiffs, edits: MapEdits::new() }
    }
}

/// Handle one user intent: validate it, commit the resulting overlay,
/// and say what the host must do. The overlay store is written only by
/// a confirmed save of a named record; an aborted dialog never commits
/// anything.
pub fn event(
    session: &mut EditSession,
    map: &BaseMap,
    store: &mut SavedOverlays,
    ev: EditEvent,
) -> (out: EventOutcome)
    requires
        map.wf(),
        old(session).edits.wf(),
        old(store).wf(),
    ensures
        final(session).edits.wf(),
        final(store).wf(),
        final(store).map_name@ == old(store).map_name@,
        !(ev is ConfirmSave) ==> *final(store) == *old(store),
        !(ev is ConfirmSave) && !(ev is LoadNamed) ==> final(session).edits.edits_name@
            == old(session).edits.edits_name@,
        ev matches EditEvent::ToggleLaneType(l) ==> {
            &&& (map.valid_lane(l) ==> (spec_next_valid(*map, old(session).edits.lanes_map(), l)
                matches Some(t) ==> out is Applied && final(session).edits.lanes_map() == old(
                session,
            ).edits.lanes_map().insert(l, t)))
            &&& (!(map.valid_lane(l) && spec_next_valid(
                *map,
                old(session).edits.lanes_map(),
                l,
            ) is Some) ==> out is Nothing && final(session).edits == old(session).edits)
        },
        ev matches EditEvent::CycleTurn(i, t) ==> ((out is Applied) == (map.valid_intersection(i)
            && is_stop_sign(*map, i))),
        ev matches EditEvent::ResetStopSign(i) ==> out is Applied && final(session).edits
            .signs_view() == old(session).edits.signs_view().remove(i),
        ev matches EditEvent::CommitTrafficSignal(i, c) ==> (c.wf() ==> out is Applied
            && final(session).edits.signals_view() == old(session).edits.signals_view().insert(
            i,
            c@,
        )),
        ev is ConfirmSave ==> match out {
            EventOutcome::Saved => final(session).edits.edits_name@ != default_edits_name()
                && entry_for(final(store).entries@, final(session).edits.edits_name@) is Some,
            EventOutcome::NeedName => old(session).edits.edits_name@ == default_edits_name()
                && *final(store) == *old(store) && final(session).edits == old(session).edits,
            _ => false,
        },
        ev is Abort ==> final(session).edits == old(session).edits
            && final(session).mode is ViewingDiffs && out is Nothing,
        (ev is OpenStopSignEditor || ev is OpenTrafficSignalEditor || ev is StartSave
            || ev is ProvideName || ev is StartLoad) ==> final(session).edits
            == old(session).edits && out is Nothing,
        ev matches EditEvent::CommitTrafficSignal(i, c) ==> (!c.wf() ==> out is Nothing
            && final(session).edits == old(session).edits),
{
    match ev {
        EditEvent::ToggleLaneType(l) => {
            if l < map.lanes.len() {
                match toggle_lane_type(map, &session.edits, l) {
                    Some(e2) => {
                        session.edits = e2;
                        EventOutcome::Applied
                    },
                    None => EventOutcome::Nothing,
                }
            } else {
                EventOutcome::Nothing
            }
        },
        EditEvent::OpenStopSignEditor(i) => {
            if i < map.intersections.len() {
                session.mode = EditMode::EditingStopSign(i);
            }
            EventOutcome::Nothing
        },
        EditEvent::CycleTurn(i, t) => {
            if i < map.intersections.len() {
                match cycle_turn_priority(map, &session.edits, i, t) {
                    Some(e2) => {
                        session.edits = e2;
                        EventOutcome::Applied
                    },
                    None => EventOutcome::Nothing,
                }
            } else {
                EventOutcome::Nothing
            }
        },
        EditEvent::ResetStopSign(i) => {
            session.edits = reset_stop_sign(&session.edits, i);
            EventOutcome::Applied
        },
        EditEvent::OpenTrafficSignalEditor(i) => {
            if i < map.intersections.len() {
                session.mode = EditMode::EditingTrafficSignal(i);
            }
            EventOutcome::Nothing
        },
        EditEvent::CommitTrafficSignal(i, c) => {
            if signal_schedule_wf(&c) {
                session.edits = session.edits.with_traffic_signal(i, c);
                EventOutcome::Applied
            } else {
                EventOutcome::Nothing
            }
        },
        EditEvent::StartSave => {
            session.mode = EditMode::Saving { pending_name: None };
            EventOutcome::Nothing
        },
        EditEvent::ProvideName(n) => {
            session.mode = EditMode::Saving { pending_name: Some(n) };
            EventOutcome::Nothing
        },
        EditEvent::ConfirmSave => {
            let fresh = String::from_str("no_edits");
            let pending = match &session.mode {
                EditMode::Saving { pending_name: Some(n) } => if n.eq(&fresh) {
                    None
                } else {
                    Some(crate::edits::clone_string(n))
                },
                _ => None,
            };
            match prepare_save(&session.edits, pending) {
                PrepareSave::NeedsName => EventOutcome::NeedName,
                PrepareSave::Ready(e) => {
                    store.save_record(&e);
                    session.edits = e;
                    session.mode = EditMode::ViewingDiffs;
                    EventOutcome::Saved
                },
            }
        },
        EditEvent::StartLoad => {
            session.mode = EditMode::Loading;
            EventOutcome::Nothing
        },
        EditEvent::LoadNamed(n) => {
            match store.load_record(&n) {
                Ok(e) => {
                    session.edits = e;
                    session.mode = EditMode::ViewingDiffs;
                    EventOutcome::Applied
                },
                Err(err) => EventOutcome::LoadFailed(err),
            }
        },
        EditEvent::Abort => {
            session.mode = EditMode::ViewingDiffs;
            EventOutcome::Nothing
        },
    }
}

/// Decide a signal schedule's invariant: every phase's turn list is in
/// canonical order.
fn signal_schedule_wf(c: &TrafficSignalControl) -> (r: bool)
    ensures
        r == c.wf(),
{
    let n = c.phases.len();
    let mut i: usize = 0;
    while i < n
        invariant
            n == c.phases@.len(),
            0 <= i <= n,
            forall|q: int| 0 <= q < i ==> (#[trigger] c.phases@[q]).wf(),
        decreases n - i,
    {
        if !crate::alist::ids_sorted(&c.phases[i].protected) {
            return false;
        }
        i = i + 1;
    }
    true
}

} // verus!

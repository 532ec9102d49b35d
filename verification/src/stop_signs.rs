//! The stop-sign side of the intersection control editor: the
//! feasibility query for granting a turn unconditional right-of-way, and
//! the commit of one step of the manual priority cycle. Each commit
//! replaces the intersection's whole per-turn record in the overlay.

use vstd::prelude::*;

use crate::alist::alist_map;
use crate::alist::alist_wf;
use crate::alist::lemma_alist_index;
use crate::control::next_priority;
use crate::control::spec_next_priority;
use crate::control::StopSignControl;
use crate::control::TurnPriority;
use crate::edits::clone_stop_sign;
use crate::edits::MapEdits;
use crate::map::BaseMap;
use crate::map::IntersectionControl;

verus! {

/// Whether the base map runs intersection `i` with a stop sign; the kind
/// is fixed by topology and not editable.
pub open spec fn is_stop_sign(map: BaseMap, i: usize) -> bool {
    map.intersections@[i as int].control is StopSign
}

/// The default per-turn table the base map computed for a stop-sign
/// intersection.
pub open spec fn default_sign_table(map: BaseMap, i: usize) -> Seq<(usize, TurnPriority)> {
    match map.intersections@[i as int].control {
        IntersectionControl::StopSign(c) => c.turns@,
        IntersectionControl::TrafficSignal(_) => Seq::empty(),
    }
}

/// The per-turn table in force at `i`: the overlay's full replacement if
/// present, else the base default.
pub open spec fn eff_sign_table(map: BaseMap, edits: MapEdits, i: usize) -> Seq<
    (usize, TurnPriority),
> {
    if edits.signs_view().dom().contains(i) {
        edits.signs_view()[i]
    } else {
        default_sign_table(map, i)
    }
}

/// Priority of a turn under a per-turn mapping; absent turns stop.
pub open spec fn priority_of(m: Map<usize, TurnPriority>, t: usize) -> TurnPriority {
    if m.dom().contains(t) {
        m[t]
    } else {
        TurnPriority::Stop
    }
}

/// Granting `t` unconditional right-of-way is feasible when no other
/// turn that already has Priority crosses it.
pub open spec fn spec_could_be_priority(
    map: BaseMap,
    i: usize,
    m: Map<usize, TurnPriority>,
    t: usize,
) -> bool {
    forall|t2: usize|
        #[trigger] m.dom().contains(t2) && t2 != t && m[t2] == TurnPriority::Priority
            ==> !map.spec_conflicts(i, t, t2)
}

/// Decide the feasibility query against a concrete sign record.
pub fn could_be_priority_turn(map: &BaseMap, sign: &StopSignControl, i: usize, t: usize) -> (r:
    bool)
    requires
        sign.wf(),
        map.valid_intersection(i),
    ensures
        r == spec_could_be_priority(*map, i, sign.view_map(), t),
{
    let ghost m = sign.view_map();
    let n = sign.turns.len();
    let mut j: usize = 0;
    while j < n
        invariant
            n == sign.turns@.len(),
            0 <= j <= n,
            sign.wf(),
            map.valid_intersection(i),
            m == sign.view_map(),
            forall|q: int|
                0 <= q < j ==> !((#[trigger] sign.turns@[q]).0 != t && sign.turns@[q].1
                    == TurnPriority::Priority && map.spec_conflicts(i, t, sign.turns@[q].0)),
        decreases n - j,
    {
        let (t2, p) = sign.turns[j];
        if t2 != t && p == TurnPriority::Priority && map.conflicts(i, t, t2) {
            proof {
                lemma_alist_index(sign.turns@, j as int);
                assert(m.dom().contains(t2) && m[t2] == TurnPriority::Priority);
                assert(!spec_could_be_priority(*map, i, m, t));
            }
            return false;
        }
        j = j + 1;
    }
    proof {
        assert forall|t2: usize|
            #[trigger] m.dom().contains(t2) && t2 != t && m[t2]
                == TurnPriority::Priority implies !map.spec_conflicts(i, t, t2) by {
            let q = choose|q: int| 0 <= q < sign.turns@.len() && sign.turns@[q].0 == t2;
            lemma_alist_index(sign.turns@, q);
        }
    }
    true
}

/// The sign record in force at `i`, as a fresh value.
pub fn effective_stop_sign(map: &BaseMap, edits: &MapEdits, i: usize) -> (r: Option<
    StopSignControl,
>)
    requires
        map.wf(),
        edits.wf(),
        map.valid_intersection(i),
    ensures
        match r {
            Some(c) => is_stop_sign(*map, i) && c.wf() && c.turns@ == eff_sign_table(
                *map,
                *edits,
                i,
            ),
            None => !is_stop_sign(*map, i),
        },
{
    if let Some(c) = edits.stop_sign_override(i) {
        if matches!(map.intersections[i].control, IntersectionControl::StopSign(_)) {
            return Some(clone_stop_sign(c));
        }
        return None;
    }
    match &map.intersections[i].control {
        IntersectionControl::StopSign(c) => Some(clone_stop_sign(c)),
        IntersectionControl::TrafficSignal(_) => None,
    }
}

/// One step of the manual cycle for turn `t` at intersection `i`,
/// committed as a full replacement record in the overlay. `None` when
/// the base map does not run `i` with a stop sign; the overlay is then
/// left untouched. Priority is granted only when the feasibility query
/// holds at the moment of the transition.
pub fn cycle_turn_priority(map: &BaseMap, edits: &MapEdits, i: usize, t: usize) -> (r: Option<
    MapEdits,
>)
    requires
        map.wf(),
        edits.wf(),
        map.valid_intersection(i),
    ensures
        match r {
            Some(e2) => {
                let m = alist_map(eff_sign_table(*map, *edits, i));
                let feasible = spec_could_be_priority(*map, i, m, t);
                let next = spec_next_priority(priority_of(m, t), feasible);
                &&& is_stop_sign(*map, i)
                &&& e2.wf()
                &&& e2.edits_name@ == edits.edits_name@
                &&& e2.lane_overrides@ == edits.lane_overrides@
                &&& crate::edits::signal_entries(e2.traffic_signal_overrides@)
                    == crate::edits::signal_entries(edits.traffic_signal_overrides@)
                &&& e2.signs_view().dom().contains(i)
                &&& e2.signs_view() == edits.signs_view().insert(i, e2.signs_view()[i])
                &&& alist_wf(e2.signs_view()[i])
                &&& alist_map(e2.signs_view()[i]) == m.insert(t, next)
                &&& next == TurnPriority::Priority ==> feasible
            },
            None => !is_stop_sign(*map, i),
        },
{
    let sign = match effective_stop_sign(map, edits, i) {
        Some(c) => c,
        None => {
            return None;
        },
    };
    let cur = sign.get_priority(t);
    let feasible = could_be_priority_turn(map, &sign, i, t);
    let next = next_priority(cur, feasible);
    let sign2 = sign.with_priority(t, next);
    let e2 = edits.with_stop_sign(i, sign2);
    proof {
        assert(sign.view_map() == alist_map(eff_sign_table(*map, *edits, i)));
        assert(e2.signs_view()[i] == sign2.turns@);
    }
    Some(e2)
}

/// Revert intersection `i` to the base map's default stop-sign record by
/// dropping its overlay entry.
pub fn reset_stop_sign(edits: &MapEdits, i: usize) -> (r: MapEdits)
    requires
        edits.wf(),
    ensures
        r.wf(),
        r.edits_name@ == edits.edits_name@,
        r.lane_overrides@ == edits.lane_overrides@,
        r.signs_view() == edits.signs_view().remove(i),
        crate::edits::signal_entries(r.traffic_signal_overrides@) == crate::edits::signal_entries(
            edits.traffic_signal_overrides@,
        ),
{
    edits.without_stop_sign(i)
}

/// Commit a completed signal edit: the sub-editor's result replaces the
/// intersection's schedule in full.
pub fn commit_traffic_signal(edits: &MapEdits, i: usize, control: crate::control::TrafficSignalControl) -> (r:
    MapEdits)
    requires
        edits.wf(),
        control.wf(),
    ensures
        r.wf(),
        r.edits_name@ == edits.edits_name@,
        r.lane_overrides@ == edits.lane_overrides@,
        crate::edits::sign_entries(r.stop_sign_overrides@) == crate::edits::sign_entries(
            edits.stop_sign_overrides@,
        ),
        r.signals_view() == edits.signals_view().insert(i, control@),
{
    edits.with_traffic_signal(i, control)
}

} // verus!

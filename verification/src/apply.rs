//! The apply engine: recompute the full effective state from the base
//! map's defaults overridden by the overlay. Recomputation is one
//! deterministic pass returning a fresh value, so a caller never sees a
//! partially applied overlay; the caller treats the returned value as
//! the signal that derived caches must be rebuilt.

use vstd::prelude::*;

use crate::control::TrafficSignalControl;
use crate::edits::clone_traffic_signal;
use crate::edits::MapEdits;
use crate::lane_edit::eff_lane_type_m;
use crate::lane_edit::effective_lane_type;
use crate::lanes::LaneType;
use crate::map::BaseMap;
use crate::map::IntersectionControl;
use crate::stop_signs::eff_sign_table;
use crate::stop_signs::effective_stop_sign;
use crate::stop_signs::is_stop_sign;

verus! {

/// The phase schedule in force at `i`: the overlay's full replacement if
/// present, else the base default.
pub open spec fn eff_signal_view(map: BaseMap, edits: MapEdits, i: usize) -> Seq<Seq<usize>> {
    if edits.signals_view().dom().contains(i) {
        edits.signals_view()[i]
    } else {
        match map.intersections@[i as int].control {
            IntersectionControl::TrafficSignal(ts) => ts@,
            IntersectionControl::StopSign(_) => Seq::empty(),
        }
    }
}

/// The recomputed per-entity effective state of a map under an overlay.
pub struct EffectiveState {
    /// Effective type of every lane, by lane id.
    pub lane_types: Vec<LaneType>,
    /// Effective control of every intersection, by intersection id.
    pub controls: Vec<IntersectionControl>,
}

impl EffectiveState {
    /// The state is the base map's defaults overridden pointwise by the
    /// overlay.
    pub open spec fn matches(self, map: BaseMap, edits: MapEdits) -> bool {
        &&& self.lane_types@.len() == map.lanes@.len()
        &&& forall|l: int|
            0 <= l < map.lanes@.len() ==> (#[trigger] self.lane_types@[l]) == eff_lane_type_m(
                map,
                edits.lanes_map(),
                l as usize,
            )
        &&& self.controls@.len() == map.intersections@.len()
        &&& forall|i: int|
            0 <= i < map.intersections@.len() ==> {
                let c = #[trigger] self.controls@[i];
                if is_stop_sign(map, i as usize) {
                    c matches IntersectionControl::StopSign(s) && s.turns@ == eff_sign_table(
                        map,
                        edits,
                        i as usize,
                    )
                } else {
                    c matches IntersectionControl::TrafficSignal(ts) && ts@ == eff_signal_view(
                        map,
                        edits,
                        i as usize,
                    )
                }
            }
    }
}

/// The signal schedule in force at `i`, as a fresh value.
fn effective_traffic_signal(map: &BaseMap, edits: &MapEdits, i: usize) -> (r: Option<
    TrafficSignalControl,
>)
    requires
        map.wf(),
        edits.wf(),
        map.valid_intersection(i),
    ensures
        match r {
            Some(ts) => !is_stop_sign(*map, i) && ts@ == eff_signal_view(*map, *edits, i),
            None => is_stop_sign(*map, i),
        },
{
    if matches!(map.intersections[i].control, IntersectionControl::StopSign(_)) {
        return None;
    }
    if let Some(ts) = edits.traffic_signal_override(i) {
        return Some(clone_traffic_signal(ts));
    }
    match &map.intersections[i].control {
        IntersectionControl::TrafficSignal(ts) => Some(clone_traffic_signal(ts)),
        IntersectionControl::StopSign(_) => None,
    }
}

/// Install an overlay: recompute every lane's effective type and every
/// intersection's effective control, base defaults overridden by the
/// overlay's entries, in one pass.
pub fn apply(map: &BaseMap, edits: &MapEdits) -> (r: EffectiveState)
    requires
        map.wf(),
        edits.wf(),
    ensures
        r.matches(*map, *edits),
{
    let nl = map.lanes.len();
    let mut lane_types: Vec<LaneType> = Vec::new();
    let mut l: usize = 0;
    while l < nl
        invariant
            map.wf(),
            edits.wf(),
            nl == map.lanes@.len(),
            0 <= l <= nl,
            lane_types@.len() == l,
            forall|q: int|
                0 <= q < l ==> (#[trigger] lane_types@[q]) == eff_lane_type_m(
                    *map,
                    edits.lanes_map(),
                    q as usize,
                ),
        decreases nl - l,
    {
        lane_types.push(effective_lane_type(map, edits, l));
        l = l + 1;
    }

    let ni = map.intersections.len();
    let mut controls: Vec<IntersectionControl> = Vec::new();
    let mut i: usize = 0;
    while i < ni
        invariant
            map.wf(),
            edits.wf(),
            ni == map.intersections@.len(),
            0 <= i <= ni,
            controls@.len() == i,
            forall|q: int|
                0 <= q < i ==> {
                    let c = #[trigger] controls@[q];
                    if is_stop_sign(*map, q as usize) {
                        c matches IntersectionControl::StopSign(s) && s.turns@ == eff_sign_table(
                            *map,
                            *edits,
                            q as usize,
                        )
                    } else {
                        c matches IntersectionControl::TrafficSignal(ts) && ts@ == eff_signal_view(
                            *map,
                            *edits,
                            q as usize,
                        )
                    }
                },
        decreases ni - i,
    {
        match effective_stop_sign(map, edits, i) {
            Some(s) => controls.push(IntersectionControl::StopSign(s)),
            None => {
                match effective_traffic_signal(map, edits, i) {
                    Some(ts) => controls.push(IntersectionControl::TrafficSignal(ts)),
                    None => {
                        proof {
                            assert(false);
                        }
                    },
                }
            },
        }
        i = i + 1;
    }

    EffectiveState { lane_types, controls }
}

/// Applying the empty overlay yields exactly the base map's defaults for
/// every lane and every intersection.
pub proof fn lemma_apply_empty_is_default(map: BaseMap, edits: MapEdits)
    requires
        edits.lanes_map().dom() =~= Set::<usize>::empty(),
        edits.signs_view().dom() =~= Set::<usize>::empty(),
        edits.signals_view().dom() =~= Set::<usize>::empty(),
    ensures
        forall|l: usize|
            map.valid_lane(l) ==> #[trigger] eff_lane_type_m(map, edits.lanes_map(), l)
                == map.lanes@[l as int].lane_type,
        forall|i: usize|
            map.valid_intersection(i) ==> #[trigger] eff_sign_table(map, edits, i)
                == crate::stop_signs::default_sign_table(map, i),
        forall|i: usize|
            map.valid_intersection(i) && !is_stop_sign(map, i) ==> #[trigger] eff_signal_view(
                map,
                edits,
                i,
            ) == map.intersections@[i as int].control->TrafficSignal_0@,
{
    assert forall|i: usize|
        map.valid_intersection(i) && !is_stop_sign(map, i) implies #[trigger] eff_signal_view(
        map,
        edits,
        i,
    ) == map.intersections@[i as int].control->TrafficSignal_0@ by {
        assert(!edits.signals_view().dom().contains(i));
    }
}

} // verus!

//! The lane edit validator: which lane-type changes are legal, and the
//! next legal type along the editor's fixed cycle. The rules here are
//! what keeps every sequence of validated edits inside the road
//! constraints: one parking lane per side, no adjacent bike lanes, and
//! sidewalks never retyped.

use vstd::prelude::*;

use crate::edits::MapEdits;
use crate::lanes::next_type;
use crate::lanes::spec_next_type;
use crate::lanes::LaneType;
use crate::map::BaseMap;

verus! {

/// The type a lane shows once the overlay is applied: its override if
/// present, else the base map's default.
pub open spec fn eff_lane_type_m(map: BaseMap, lm: Map<usize, LaneType>, l: usize) -> LaneType {
    if lm.dom().contains(l) {
        lm[l]
    } else {
        map.lanes@[l as int].lane_type
    }
}

/// Effective types of one side of a road, in cross-section order.
#[verifier::opaque]
pub open spec fn eff_side_types(map: BaseMap, lm: Map<usize, LaneType>, r: int, f: bool) -> Seq<
    LaneType,
> {
    map.roads@[r].spec_side(f).map_values(|id: usize| eff_lane_type_m(map, lm, id))
}

/// At most one parking lane on a side.
pub open spec fn parking_ok(s: Seq<LaneType>) -> bool {
    forall|i: int, j: int|
        0 <= i < j < s.len() ==> !(s[i] == LaneType::Parking && s[j] == LaneType::Parking)
}

/// No two adjacent bike lanes on a side.
pub open spec fn biking_ok(s: Seq<LaneType>) -> bool {
    forall|i: int|
        #![trigger s[i], s[i + 1]]
        0 <= i && i + 1 < s.len() ==> !(s[i] == LaneType::Biking && s[i + 1] == LaneType::Biking)
}

/// Both side constraints, on every side of every road.
pub open spec fn lane_rules_ok(map: BaseMap, lm: Map<usize, LaneType>) -> bool {
    forall|r: int, f: bool|
        0 <= r < map.roads@.len() ==> parking_ok(#[trigger] eff_side_types(map, lm, r, f))
            && biking_ok(eff_side_types(map, lm, r, f))
}

/// Sidewalk lanes show their base type under the overlay.
pub open spec fn sidewalks_fixed(map: BaseMap, lm: Map<usize, LaneType>) -> bool {
    forall|l: usize|
        map.valid_lane(l) && (#[trigger] map.lanes@[l as int].lane_type) == LaneType::Sidewalk
            ==> eff_lane_type_m(map, lm, l) == LaneType::Sidewalk
}

/// No position on the side other than `idx` holds a parking lane.
pub open spec fn no_other_parking(s: Seq<LaneType>, idx: int) -> bool {
    forall|j: int| 0 <= j < s.len() && j != idx ==> (#[trigger] s[j]) != LaneType::Parking
}

/// Neither neighbour of position `idx` is a bike lane.
pub open spec fn no_adjacent_biking(s: Seq<LaneType>, idx: int) -> bool {
    &&& idx > 0 ==> s[idx - 1] != LaneType::Biking
    &&& idx + 1 < s.len() ==> s[idx + 1] != LaneType::Biking
}

/// Effective types of the side lane `l` sits on.
pub open spec fn side_of_lane(map: BaseMap, lm: Map<usize, LaneType>, l: usize) -> Seq<LaneType> {
    eff_side_types(map, lm, map.lanes@[l as int].parent as int, map.lanes@[l as int].fwd)
}

/// Whether retyping lane `l` to `lt` respects the side constraints,
/// judged against the effective state: at most one parking lane per side
/// (other positions than `l`'s own), and no bike lane next to a bike
/// lane.
pub open spec fn spec_can_change(map: BaseMap, lm: Map<usize, LaneType>, l: usize, lt: LaneType) -> bool {
    &&& (lt == LaneType::Parking ==> no_other_parking(
        side_of_lane(map, lm, l),
        map.lanes@[l as int].idx as int,
    ))
    &&& (lt == LaneType::Biking ==> no_adjacent_biking(
        side_of_lane(map, lm, l),
        map.lanes@[l as int].idx as int,
    ))
}

/// The lane's effective type under the overlay.
pub fn effective_lane_type(map: &BaseMap, edits: &MapEdits, l: usize) -> (r: LaneType)
    requires
        edits.wf(),
        map.valid_lane(l),
    ensures
        r == eff_lane_type_m(*map, edits.lanes_map(), l),
{
    match edits.lane_override(l) {
        Some(t) => t,
        None => map.lanes[l].lane_type,
    }
}

/// Decide whether lane `l` may be retyped to `lt`.
pub fn can_change_lane_type(map: &BaseMap, edits: &MapEdits, l: usize, lt: LaneType) -> (r: bool)
    requires
        map.wf(),
        edits.wf(),
        map.valid_lane(l),
    ensures
        r == spec_can_change(*map, edits.lanes_map(), l, lt),
{
    let ghost lm = edits.lanes_map();
    let lane_parent = map.lanes[l].parent;
    let lane_fwd = map.lanes[l].fwd;
    let idx = map.lanes[l].idx;
    let road = &map.roads[lane_parent];
    let side = if lane_fwd {
        &road.fwd_lanes
    } else {
        &road.back_lanes
    };
    let ghost s = eff_side_types(*map, lm, lane_parent as int, lane_fwd);
    proof {
        reveal(eff_side_types);
        assert(s.len() == side@.len());
    }
    let n = side.len();

    if lt == LaneType::Parking {
        let mut j: usize = 0;
        while j < n
            invariant
                map.wf(),
                edits.wf(),
                lm == edits.lanes_map(),
                map.valid_lane(l),
                lane_parent == map.lanes@[l as int].parent,
                lane_fwd == map.lanes@[l as int].fwd,
                idx == map.lanes@[l as int].idx,
                side@ == map.roads@[lane_parent as int].spec_side(lane_fwd),
                s == eff_side_types(*map, lm, lane_parent as int, lane_fwd),
                s.len() == side@.len(),
                n == side@.len(),
                0 <= j <= n,
                lt == LaneType::Parking,
                forall|q: int| 0 <= q < j && q != idx ==> #[trigger] s[q] != LaneType::Parking,
            decreases n - j,
        {
            if j != idx {
                let id = side[j];
                proof {
                    reveal(eff_side_types);
                    assert(map.valid_lane(id) && s[j as int] == eff_lane_type_m(*map, lm, id));
                }
                if effective_lane_type(map, edits, id) == LaneType::Parking {
                    proof {
                        assert(s == side_of_lane(*map, lm, l));
                        assert(!no_other_parking(s, idx as int));
                    }
                    return false;
                }
            }
            j = j + 1;
        }
    }

    if lt == LaneType::Biking {
        if idx > 0 {
            let id = side[idx - 1];
            proof {
                reveal(eff_side_types);
                assert(map.valid_lane(id) && s[idx - 1] == eff_lane_type_m(*map, lm, id));
            }
            if effective_lane_type(map, edits, id) == LaneType::Biking {
                proof {
                    assert(s == side_of_lane(*map, lm, l));
                    assert(!no_adjacent_biking(s, idx as int));
                }
                return false;
            }
        }
        if idx + 1 < n {
            let id = side[idx + 1];
            proof {
                reveal(eff_side_types);
                assert(map.valid_lane(id) && s[idx + 1 as int] == eff_lane_type_m(*map, lm, id));
            }
            if effective_lane_type(map, edits, id) == LaneType::Biking {
                proof {
                    assert(s == side_of_lane(*map, lm, l));
                    assert(!no_adjacent_biking(s, idx as int));
                }
                return false;
            }
        }
    }

    proof {
        if lt == LaneType::Parking {
            assert(s == side_of_lane(*map, lm, l));
            assert(no_other_parking(s, idx as int));
        }
        if lt == LaneType::Biking {
            assert(s == side_of_lane(*map, lm, l));
            assert(no_adjacent_biking(s, idx as int));
        }
    }
    true
}

/// The first legal type along the fixed cycle after the lane's current
/// effective type, if the cycle offers one before coming back around.
pub open spec fn spec_next_valid(map: BaseMap, lm: Map<usize, LaneType>, l: usize) -> Option<
    LaneType,
> {
    let cur = eff_lane_type_m(map, lm, l);
    let c1 = spec_next_type(cur);
    let c2 = spec_next_type(c1);
    let c3 = spec_next_type(c2);
    if c1 != cur && spec_can_change(map, lm, l, c1) {
        Some(c1)
    } else if c2 != cur && spec_can_change(map, lm, l, c2) {
        Some(c2)
    } else if c3 != cur && spec_can_change(map, lm, l, c3) {
        Some(c3)
    } else {
        None
    }
}

/// Walk the cycle from the lane's current type and return the first
/// candidate that passes validation; `None` means no legal move, which
/// is a no-op for the editor, not an error.
pub fn next_valid_type(map: &BaseMap, edits: &MapEdits, l: usize) -> (r: Option<LaneType>)
    requires
        map.wf(),
        edits.wf(),
        map.valid_lane(l),
        eff_lane_type_m(*map, edits.lanes_map(), l) != LaneType::Sidewalk,
    ensures
        r == spec_next_valid(*map, edits.lanes_map(), l),
        r matches Some(t) ==> t != LaneType::Sidewalk && t != eff_lane_type_m(
            *map,
            edits.lanes_map(),
            l,
        ) && spec_can_change(*map, edits.lanes_map(), l, t),
{
    let cur = effective_lane_type(map, edits, l);
    let mut cand = next_type(cur);
    if cand != cur && can_change_lane_type(map, edits, l, cand) {
        return Some(cand);
    }
    cand = next_type(cand);
    if cand != cur && can_change_lane_type(map, edits, l, cand) {
        return Some(cand);
    }
    cand = next_type(cand);
    if cand != cur && can_change_lane_type(map, edits, l, cand) {
        return Some(cand);
    }
    None
}

/// One validated lane edit: propose the next legal type for the lane and
/// commit it as an override. `None` when the lane is a sidewalk or the
/// cycle offers no legal move; the overlay is then left untouched.
pub fn toggle_lane_type(map: &BaseMap, edits: &MapEdits, l: usize) -> (r: Option<MapEdits>)
    requires
        map.wf(),
        edits.wf(),
        map.valid_lane(l),
    ensures
        match r {
            Some(e2) => {
                &&& e2.wf()
                &&& eff_lane_type_m(*map, edits.lanes_map(), l) != LaneType::Sidewalk
                &&& spec_next_valid(*map, edits.lanes_map(), l) matches Some(t)
                    && e2.lanes_map() == edits.lanes_map().insert(l, t)
                &&& e2.edits_name@ == edits.edits_name@
                &&& crate::edits::sign_entries(e2.stop_sign_overrides@) == crate::edits::sign_entries(
                    edits.stop_sign_overrides@,
                )
                &&& crate::edits::signal_entries(e2.traffic_signal_overrides@)
                    == crate::edits::signal_entries(edits.traffic_signal_overrides@)
            },
            None => eff_lane_type_m(*map, edits.lanes_map(), l) == LaneType::Sidewalk
                || spec_next_valid(*map, edits.lanes_map(), l) is None,
        },
{
    let cur = effective_lane_type(map, edits, l);
    if cur == LaneType::Sidewalk {
        return None;
    }
    match next_valid_type(map, edits, l) {
        Some(t) => Some(edits.with_lane_override(l, t)),
        None => None,
    }
}

/// A validated toggle is a validated step of the lane overlay.
pub open spec fn validated_lane_step(
    map: BaseMap,
    lm: Map<usize, LaneType>,
    lm2: Map<usize, LaneType>,
) -> bool {
    lm2 == lm || exists|l: usize, t: LaneType|
        map.valid_lane(l) && eff_lane_type_m(map, lm, l) != LaneType::Sidewalk && spec_can_change(
            map,
            lm,
            l,
            t,
        ) && lm2 == #[trigger] lm.insert(l, t)
}

/// Lane overlays reached by validated steps, in order.
pub open spec fn validated_lane_chain(map: BaseMap, ms: Seq<Map<usize, LaneType>>) -> bool {
    forall|i: int| 0 <= i < ms.len() - 1 ==> validated_lane_step(map, ms[i], #[trigger] ms[i + 1])
}

/// A successful toggle takes a validated step.
pub proof fn lemma_toggle_is_validated_step(
    map: BaseMap,
    lm: Map<usize, LaneType>,
    l: usize,
    t: LaneType,
)
    requires
        map.valid_lane(l),
        eff_lane_type_m(map, lm, l) != LaneType::Sidewalk,
        spec_next_valid(map, lm, l) == Some(t),
    ensures
        validated_lane_step(map, lm, lm.insert(l, t)),
{
    assert(spec_can_change(map, lm, l, t));
}

/// Replacing one entry keeps the parking constraint when no other
/// position on the side holds a parking lane.
proof fn lemma_parking_update(s_old: Seq<LaneType>, idx: int, t: LaneType)
    requires
        parking_ok(s_old),
        0 <= idx < s_old.len(),
        t == LaneType::Parking ==> no_other_parking(s_old, idx),
    ensures
        parking_ok(s_old.update(idx, t)),
{
    let s_new = s_old.update(idx, t);
    assert forall|i: int, j: int| 0 <= i < j < s_new.len() implies !(s_new[i]
        == LaneType::Parking && s_new[j] == LaneType::Parking) by {
        if s_new[i] == LaneType::Parking && s_new[j] == LaneType::Parking {
            if t == LaneType::Parking {
                if i != idx {
                    assert(s_old[i] == LaneType::Parking);
                }
                if j != idx {
                    assert(s_old[j] == LaneType::Parking);
                }
            } else {
                assert(i != idx && j != idx);
                assert(s_old[i] == LaneType::Parking && s_old[j] == LaneType::Parking);
            }
        }
    }
}

/// Replacing one entry keeps the bike-adjacency constraint when the new
/// type's neighbours are not bike lanes.
proof fn lemma_biking_update(s_old: Seq<LaneType>, idx: int, t: LaneType)
    requires
        biking_ok(s_old),
        0 <= idx < s_old.len(),
        t == LaneType::Biking ==> no_adjacent_biking(s_old, idx),
    ensures
        biking_ok(s_old.update(idx, t)),
{
    let s_new = s_old.update(idx, t);
    assert forall|i: int|
        #![trigger s_new[i], s_new[i + 1]]
        0 <= i && i + 1 < s_new.len() implies !(s_new[i] == LaneType::Biking && s_new[i + 1]
        == LaneType::Biking) by {
        if s_new[i] == LaneType::Biking && s_new[i + 1] == LaneType::Biking {
            if i == idx {
                assert(t == LaneType::Biking && s_old[idx + 1] == LaneType::Biking);
            } else if i + 1 == idx {
                assert(t == LaneType::Biking && s_old[idx - 1] == LaneType::Biking);
            } else {
                assert(s_old[i] == LaneType::Biking && s_old[i + 1] == LaneType::Biking);
            }
        }
    }
}

/// One validated lane edit changes its own side at its own position and
/// leaves every other side of every road unchanged.
proof fn lemma_edit_side_shape(
    map: BaseMap,
    lm: Map<usize, LaneType>,
    l: usize,
    t: LaneType,
    r: int,
    f: bool,
)
    requires
        map.wf(),
        map.valid_lane(l),
        0 <= r < map.roads@.len(),
    ensures
        (r != map.lanes@[l as int].parent as int || f != map.lanes@[l as int].fwd)
            ==> eff_side_types(map, lm.insert(l, t), r, f) == eff_side_types(map, lm, r, f),
        (r == map.lanes@[l as int].parent as int && f == map.lanes@[l as int].fwd)
            ==> eff_side_types(map, lm.insert(l, t), r, f) == eff_side_types(map, lm, r, f).update(
            map.lanes@[l as int].idx as int,
            t,
        ),
{
    reveal(eff_side_types);
    let lm2 = lm.insert(l, t);
    let lane = map.lanes@[l as int];
    let idx = lane.idx as int;
    let s_old = eff_side_types(map, lm, r, f);
    let s_new = eff_side_types(map, lm2, r, f);
    let side = map.roads@[r].spec_side(f);
    assert(s_old.len() == side.len() && s_new.len() == side.len());
    if r != lane.parent as int || f != lane.fwd {
        assert(s_new =~= s_old) by {
            assert forall|k: int| 0 <= k < side.len() implies s_new[k] == s_old[k] by {
                let id = side[k];
                assert(map.lanes@[id as int].parent == r && map.lanes@[id as int].fwd == f);
                assert(id != l);
            }
        }
    } else {
        assert(s_new =~= s_old.update(idx, t)) by {
            assert(side[idx] == l);
            assert forall|k: int| 0 <= k < side.len() implies s_new[k] == s_old.update(
                idx,
                t,
            )[k] by {
                let id = side[k];
                assert(map.lanes@[id as int].idx == k);
                if k == idx {
                    assert(id == l);
                    assert(s_new[k] == t);
                } else {
                    assert(id != l);
                }
            }
        }
    }
}

/// One validated lane edit keeps both constraints on one side.
proof fn lemma_one_side_kept(
    map: BaseMap,
    lm: Map<usize, LaneType>,
    l: usize,
    t: LaneType,
    r: int,
    f: bool,
)
    requires
        map.wf(),
        map.valid_lane(l),
        0 <= r < map.roads@.len(),
        parking_ok(eff_side_types(map, lm, r, f)),
        biking_ok(eff_side_types(map, lm, r, f)),
        spec_can_change(map, lm, l, t),
    ensures
        parking_ok(eff_side_types(map, lm.insert(l, t), r, f)),
        biking_ok(eff_side_types(map, lm.insert(l, t), r, f)),
{
    lemma_edit_side_shape(map, lm, l, t, r, f);
    let lane = map.lanes@[l as int];
    let idx = lane.idx as int;
    let s_old = eff_side_types(map, lm, r, f);
    if r == lane.parent as int && f == lane.fwd {
        assert(0 <= idx < s_old.len()) by {
            reveal(eff_side_types);
            assert(map.roads@[r].spec_side(f)[idx] == l);
        }
        assert(s_old == side_of_lane(map, lm, l));
        lemma_parking_update(s_old, idx, t);
        lemma_biking_update(s_old, idx, t);
    }
}

/// One validated lane edit keeps both side constraints, on every side
/// of every road.
pub proof fn lemma_validated_edit_keeps_lane_rules(
    map: BaseMap,
    lm: Map<usize, LaneType>,
    l: usize,
    t: LaneType,
)
    requires
        map.wf(),
        map.valid_lane(l),
        lane_rules_ok(map, lm),
        spec_can_change(map, lm, l, t),
    ensures
        lane_rules_ok(map, lm.insert(l, t)),
{
    let lm2 = lm.insert(l, t);
    assert forall|r: int, f: bool| 0 <= r < map.roads@.len() implies parking_ok(
        #[trigger] eff_side_types(map, lm2, r, f),
    ) && biking_ok(eff_side_types(map, lm2, r, f)) by {
        assert(parking_ok(eff_side_types(map, lm, r, f)));
        lemma_one_side_kept(map, lm, l, t, r, f);
    }
}

/// No validated lane edit touches a sidewalk lane.
pub proof fn lemma_validated_edit_keeps_sidewalks(
    map: BaseMap,
    lm: Map<usize, LaneType>,
    l: usize,
    t: LaneType,
)
    requires
        map.valid_lane(l),
        sidewalks_fixed(map, lm),
        eff_lane_type_m(map, lm, l) != LaneType::Sidewalk,
    ensures
        sidewalks_fixed(map, lm.insert(l, t)),
{
    let lm2 = lm.insert(l, t);
    assert forall|l2: usize|
        map.valid_lane(l2) && (#[trigger] map.lanes@[l2 as int].lane_type)
            == LaneType::Sidewalk implies eff_lane_type_m(map, lm2, l2) == LaneType::Sidewalk by {
        assert(eff_lane_type_m(map, lm, l2) == LaneType::Sidewalk);
        assert(l2 != l);
    }
}

/// Along any sequence of validated lane edits the side constraints hold
/// throughout and sidewalk lanes never change type.
pub proof fn lemma_lane_rules_hold_along_chain(map: BaseMap, ms: Seq<Map<usize, LaneType>>)
    requires
        map.wf(),
        ms.len() > 0,
        validated_lane_chain(map, ms),
        lane_rules_ok(map, ms[0]),
        sidewalks_fixed(map, ms[0]),
    ensures
        lane_rules_ok(map, ms.last()),
        sidewalks_fixed(map, ms.last()),
    decreases ms.len(),
{
    if ms.len() > 1 {
        let prefix = ms.drop_last();
        assert(validated_lane_chain(map, prefix)) by {
            assert forall|i: int| 0 <= i < prefix.len() - 1 implies validated_lane_step(
                map,
                prefix[i],
                #[trigger] prefix[i + 1],
            ) by {
                assert(validated_lane_step(map, ms[i], ms[i + 1]));
            }
        }
        lemma_lane_rules_hold_along_chain(map, prefix);
        let a = ms[ms.len() - 2];
        let b = ms.last();
        assert(a == prefix.last());
        assert(b == ms[ms.len() - 2 + 1]);
        assert(validated_lane_step(map, a, b));
        if b != a {
            let (l, t) = choose|l: usize, t: LaneType|
                map.valid_lane(l) && eff_lane_type_m(map, a, l) != LaneType::Sidewalk
                    && spec_can_change(map, a, l, t) && b == #[trigger] a.insert(l, t);
            lemma_validated_edit_keeps_lane_rules(map, a, l, t);
            lemma_validated_edit_keeps_sidewalks(map, a, l, t);
        }
    }
}


} // verus!

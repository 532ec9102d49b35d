//! The immutable base road network the overlay engine edits on top of:
//! roads with directional lane lists, lanes with a fixed position, and
//! intersections with their default control scheme.

use vstd::prelude::*;

use crate::control::StopSignControl;
use crate::control::TrafficSignalControl;
use crate::lanes::LaneType;

verus! {

/// One lane of the base map. Its identity is its index in
/// `BaseMap::lanes`; its place inside its road never changes, only its
/// type can be overridden.
pub struct Lane {
    /// Default type from the base map.
    pub lane_type: LaneType,
    /// Index of the owning road in `BaseMap::roads`.
    pub parent: usize,
    /// Whether the lane runs on the road's forward side.
    pub fwd: bool,
    /// Position inside the owning road's directional lane list.
    pub idx: usize,
}

/// One road: the lane ids of each side, in cross-section order. The lane
/// sequence is fixed at map construction and never reordered.
pub struct Road {
    pub fwd_lanes: Vec<usize>,
    pub back_lanes: Vec<usize>,
}

/// The control scheme an intersection runs; which kind it is comes from
/// the base map's topology and is not editable.
pub enum IntersectionControl {
    StopSign(StopSignControl),
    TrafficSignal(TrafficSignalControl),
}

/// One intersection: its incoming turns, which pairs of turns cross each
/// other, and the default control computed for the base map.
pub struct Intersection {
    /// Ids of the turns through this intersection.
    pub turns: Vec<usize>,
    /// Unordered pairs of turn ids whose paths cross; granting both
    /// unconditional right-of-way would conflict.
    pub conflicts: Vec<(usize, usize)>,
    /// Default control scheme.
    pub control: IntersectionControl,
}

/// A base-map control record is itself well-formed: stop-sign tables
/// keyed canonically, signal phases listed canonically.
pub open spec fn control_wf(c: IntersectionControl) -> bool {
    match c {
        IntersectionControl::StopSign(s) => s.wf(),
        IntersectionControl::TrafficSignal(ts) => ts.wf(),
    }
}

/// The base map: an immutable graph that overlays are applied to.
pub struct BaseMap {
    pub lanes: Vec<Lane>,
    pub roads: Vec<Road>,
    pub intersections: Vec<Intersection>,
}

impl Road {
    /// The lane ids of one side.
    pub open spec fn spec_side(self, fwd: bool) -> Seq<usize> {
        if fwd {
            self.fwd_lanes@
        } else {
            self.back_lanes@
        }
    }
}

impl BaseMap {
    pub open spec fn valid_lane(self, l: usize) -> bool {
        l < self.lanes@.len()
    }

    pub open spec fn valid_road(self, r: usize) -> bool {
        r < self.roads@.len()
    }

    pub open spec fn valid_intersection(self, i: usize) -> bool {
        i < self.intersections@.len()
    }

    /// The road/position bookkeeping is consistent in both directions:
    /// each lane knows its road, side and offset, and each road's side
    /// lists exactly the lanes that claim that place.
    pub open spec fn wf(self) -> bool {
        &&& forall|l: int|
            0 <= l < self.lanes@.len() ==> {
                let lane = #[trigger] self.lanes@[l];
                &&& lane.parent < self.roads@.len()
                &&& lane.idx < self.roads@[lane.parent as int].spec_side(lane.fwd).len()
                &&& self.roads@[lane.parent as int].spec_side(lane.fwd)[lane.idx as int] == l
            }
        &&& forall|r: int, f: bool, k: int|
            0 <= r < self.roads@.len() && 0 <= k < self.roads@[r].spec_side(f).len() ==> {
                let l = #[trigger] self.roads@[r].spec_side(f)[k];
                &&& l < self.lanes@.len()
                &&& self.lanes@[l as int].parent == r
                &&& self.lanes@[l as int].fwd == f
                &&& self.lanes@[l as int].idx == k
            }
        &&& forall|i: int|
            0 <= i < self.intersections@.len() ==> control_wf(
                (#[trigger] self.intersections@[i]).control,
            )
    }

    /// Whether two turns of an intersection cross; the stored pairs are
    /// unordered.
    pub open spec fn spec_conflicts(self, i: usize, a: usize, b: usize) -> bool {
        exists|p: int|
            0 <= p < self.intersections@[i as int].conflicts@.len() && {
                let pair = #[trigger] self.intersections@[i as int].conflicts@[p];
                (pair.0 == a && pair.1 == b) || (pair.0 == b && pair.1 == a)
            }
    }

    /// Decide whether two turns of an intersection cross.
    pub fn conflicts(&self, i: usize, a: usize, b: usize) -> (r: bool)
        requires
            self.valid_intersection(i),
        ensures
            r == self.spec_conflicts(i, a, b),
    {
        let pairs = &self.intersections[i].conflicts;
        let n = pairs.len();
        let mut p: usize = 0;
        while p < n
            invariant
                n == pairs@.len(),
                0 <= p <= n,
                pairs@ == self.intersections@[i as int].conflicts@,
                forall|q: int|
                    0 <= q < p ==> {
                        let pair = #[trigger] pairs@[q];
                        !((pair.0 == a && pair.1 == b) || (pair.0 == b && pair.1 == a))
                    },
            decreases n - p,
        {
            let pair = pairs[p];
            if (pair.0 == a && pair.1 == b) || (pair.0 == b && pair.1 == a) {
                return true;
            }
            p = p + 1;
        }
        false
    }
}

} // verus!

//! Lane classifications and the fixed cycle the lane editor walks when it
//! looks for the next legal type.

use vstd::prelude::*;

verus! {

/// Functional classification of a lane. Sidewalk lanes are immutable: the
/// editor never offers to retype them.
#[derive(Clone, Copy, Debug, PartialEq, Eq, Structural)]
pub enum LaneType {
    Driving,
    Parking,
    Biking,
    Bus,
    Sidewalk,
}

/// The fixed cyclic order the editor walks when proposing a new type:
/// Driving -> Parking -> Biking -> Bus -> Driving. Sidewalk is outside the
/// cycle.
pub open spec fn spec_next_type(lt: LaneType) -> LaneType {
    match lt {
        LaneType::Driving => LaneType::Parking,
        LaneType::Parking => LaneType::Biking,
        LaneType::Biking => LaneType::Bus,
        LaneType::Bus => LaneType::Driving,
        LaneType::Sidewalk => LaneType::Sidewalk,
    }
}

/// Successor of a lane type in the editor's fixed cycle.
pub fn next_type(lt: LaneType) -> (r: LaneType)
    requires
        lt != LaneType::Sidewalk,
    ensures
        r == spec_next_type(lt),
        r != LaneType::Sidewalk,
{
    match lt {
        LaneType::Driving => LaneType::Parking,
        LaneType::Parking => LaneType::Biking,
        LaneType::Biking => LaneType::Bus,
        LaneType::Bus => LaneType::Driving,
        LaneType::Sidewalk => LaneType::Driving,
    }
}

} // verus!

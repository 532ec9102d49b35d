//! Intersection control records: stop-sign turn priorities and
//! traffic-signal phases, plus the manual priority cycle.

use vstd::prelude::*;

use crate::alist::alist_map;
use crate::alist::alist_wf;
use crate::alist::strictly_increasing;

verus! {

/// Right-of-way classification of a turn at a stop-sign intersection.
#[derive(Clone, Copy, Debug, PartialEq, Eq, Structural)]
pub enum TurnPriority {
    Banned,
    Stop,
    Yield,
    Priority,
}

/// One step of the manual priority cycle. `feasible` is the feasibility
/// query for granting this turn unconditional right-of-way: Priority is
/// offered only when it holds, otherwise Yield falls through to Banned.
pub open spec fn spec_next_priority(p: TurnPriority, feasible: bool) -> TurnPriority {
    match p {
        TurnPriority::Banned => TurnPriority::Stop,
        TurnPriority::Stop => TurnPriority::Yield,
        TurnPriority::Yield => if feasible {
            TurnPriority::Priority
        } else {
            TurnPriority::Banned
        },
        TurnPriority::Priority => TurnPriority::Banned,
    }
}

/// Advance a turn's priority one step along the manual cycle.
pub fn next_priority(p: TurnPriority, feasible: bool) -> (r: TurnPriority)
    ensures
        r == spec_next_priority(p, feasible),
        r == TurnPriority::Priority ==> feasible && p == TurnPriority::Yield,
{
    match p {
        TurnPriority::Banned => TurnPriority::Stop,
        TurnPriority::Stop => TurnPriority::Yield,
        TurnPriority::Yield => if feasible {
            TurnPriority::Priority
        } else {
            TurnPriority::Banned
        },
        TurnPriority::Priority => TurnPriority::Banned,
    }
}

/// The priority a turn reaches after stepping the cycle once per entry of
/// `feasible`, starting from `p`.
pub open spec fn run_priority_cycle(p: TurnPriority, feasible: Seq<bool>) -> TurnPriority
    decreases feasible.len(),
{
    if feasible.len() == 0 {
        p
    } else {
        run_priority_cycle(spec_next_priority(p, feasible[0]), feasible.skip(1))
    }
}

/// The cycle is total and safe: from any state, under any feasibility
/// answers, stepping at most four times passes through Banned; and
/// Priority is only ever produced by a step whose feasibility answer was
/// true (that is stated by `next_priority` itself).
pub proof fn lemma_priority_cycle_returns_to_banned(p: TurnPriority, feasible: Seq<bool>)
    requires
        feasible.len() >= 4,
    ensures
        exists|k: int|
            1 <= k <= 4 && #[trigger] run_priority_cycle(p, feasible.take(k))
                == TurnPriority::Banned,
{
    reveal_with_fuel(run_priority_cycle, 5);
    let f0 = feasible[0];
    let f1 = feasible[1];
    let f2 = feasible[2];
    let f3 = feasible[3];
    assert(run_priority_cycle(p, feasible.take(1)) == spec_next_priority(p, f0));
    assert(run_priority_cycle(p, feasible.take(2)) == spec_next_priority(
        spec_next_priority(p, f0),
        f1,
    )) by {
        assert(feasible.take(2).skip(1) =~= seq![f1]);
    }
    assert(run_priority_cycle(p, feasible.take(3)) == spec_next_priority(
        spec_next_priority(spec_next_priority(p, f0), f1),
        f2,
    )) by {
        assert(feasible.take(3).skip(1) =~= seq![f1, f2]);
        assert(feasible.take(3).skip(1).skip(1) =~= seq![f2]);
    }
    assert(run_priority_cycle(p, feasible.take(4)) == spec_next_priority(
        spec_next_priority(spec_next_priority(spec_next_priority(p, f0), f1), f2),
        f3,
    )) by {
        assert(feasible.take(4).skip(1) =~= seq![f1, f2, f3]);
        assert(feasible.take(4).skip(1).skip(1) =~= seq![f2, f3]);
        assert(feasible.take(4).skip(1).skip(1).skip(1) =~= seq![f3]);
    }
    match p {
        TurnPriority::Priority => {
            assert(run_priority_cycle(p, feasible.take(1)) == TurnPriority::Banned);
        },
        TurnPriority::Yield => {
            if f0 {
                assert(run_priority_cycle(p, feasible.take(2)) == TurnPriority::Banned);
            } else {
                assert(run_priority_cycle(p, feasible.take(1)) == TurnPriority::Banned);
            }
        },
        TurnPriority::Stop => {
            if f1 {
                assert(run_priority_cycle(p, feasible.take(3)) == TurnPriority::Banned);
            } else {
                assert(run_priority_cycle(p, feasible.take(2)) == TurnPriority::Banned);
            }
        },
        TurnPriority::Banned => {
            if f2 {
                assert(run_priority_cycle(p, feasible.take(4)) == TurnPriority::Banned);
            } else {
                assert(run_priority_cycle(p, feasible.take(3)) == TurnPriority::Banned);
            }
        },
    }
}

/// Full per-turn priority record of one stop-sign intersection: an
/// association list from turn id to priority, keys strictly increasing.
pub struct StopSignControl {
    pub turns: Vec<(usize, TurnPriority)>,
}

/// One traffic-signal phase: the turn ids granted right-of-way while the
/// phase is active, listed in strictly increasing order.
pub struct Phase {
    pub protected: Vec<usize>,
}

/// Full phase schedule of one traffic-signal intersection; the order of
/// the phases is the order in which they fire.
pub struct TrafficSignalControl {
    pub phases: Vec<Phase>,
}

impl View for StopSignControl {
    type V = Seq<(usize, TurnPriority)>;

    open spec fn view(&self) -> Seq<(usize, TurnPriority)> {
        self.turns@
    }
}

impl View for Phase {
    type V = Seq<usize>;

    open spec fn view(&self) -> Seq<usize> {
        self.protected@
    }
}

impl View for TrafficSignalControl {
    type V = Seq<Seq<usize>>;

    open spec fn view(&self) -> Seq<Seq<usize>> {
        self.phases@.map_values(|p: Phase| p.protected@)
    }
}

impl StopSignControl {
    /// Well-formed: turn keys strictly increasing (hence unique).
    pub open spec fn wf(self) -> bool {
        alist_wf(self.turns@)
    }

    /// The per-turn priority mapping this record stands for.
    pub open spec fn view_map(self) -> Map<usize, TurnPriority> {
        alist_map(self.turns@)
    }

    /// Priority of a turn under this record; turns absent from the record
    /// are Stop, the default posture at a stop-sign intersection.
    pub open spec fn spec_get_priority(self, turn: usize) -> TurnPriority {
        if self.view_map().dom().contains(turn) {
            self.view_map()[turn]
        } else {
            TurnPriority::Stop
        }
    }

    /// Current priority of a turn.
    pub fn get_priority(&self, turn: usize) -> (r: TurnPriority)
        requires
            self.wf(),
        ensures
            r == self.spec_get_priority(turn),
    {
        match crate::alist::alist_get(&self.turns, turn) {
            Some(p) => *p,
            None => TurnPriority::Stop,
        }
    }

    /// The record with one turn's priority replaced; the rest is kept.
    pub fn with_priority(&self, turn: usize, p: TurnPriority) -> (r: StopSignControl)
        requires
            self.wf(),
        ensures
            r.wf(),
            r.view_map() == self.view_map().insert(turn, p),
            r.spec_get_priority(turn) == p,
    {
        let mut turns = crate::alist::alist_copy(&self.turns);
        crate::alist::alist_set(&mut turns, turn, p);
        StopSignControl { turns }
    }
}

impl Phase {
    pub open spec fn wf(self) -> bool {
        strictly_increasing(self.protected@)
    }
}

impl TrafficSignalControl {
    pub open spec fn wf(self) -> bool {
        forall|i: int| 0 <= i < self.phases@.len() ==> (#[trigger] self.phases@[i]).wf()
    }
}

} // verus!

//! The overlay store: a named record of differences from the base map's
//! defaults. Absence of a key means "use the base default"; a present
//! entry always replaces the whole per-entity record. Mutators are pure:
//! they build a new record and leave the input untouched.

use vstd::prelude::*;
use vstd::string::StringExecFns;

use crate::alist::alist_copy;
use crate::alist::alist_get;
use crate::alist::alist_keys;
use crate::alist::alist_map;
use crate::alist::alist_remove;
use crate::alist::alist_set;
use crate::alist::alist_wf;
use crate::alist::entry_view;
use crate::alist::lemma_alist_index;
use crate::control::Phase;
use crate::control::StopSignControl;
use crate::control::TrafficSignalControl;
use crate::control::TurnPriority;
use crate::lanes::LaneType;

verus! {

/// The name a fresh overlay carries until the user names it; records are
/// never persisted under this name.
pub open spec fn default_edits_name() -> Seq<char> {
    "no_edits"@
}

/// A stop-sign override table, seen as plain data.
pub open spec fn sign_entries(s: Seq<(usize, StopSignControl)>) -> Seq<
    (usize, Seq<(usize, TurnPriority)>),
> {
    entry_view(s, |c: StopSignControl| c@)
}

/// A traffic-signal override table, seen as plain data.
pub open spec fn signal_entries(s: Seq<(usize, TrafficSignalControl)>) -> Seq<
    (usize, Seq<Seq<usize>>),
> {
    entry_view(s, |c: TrafficSignalControl| c@)
}

/// A named set of edits on top of one base map.
pub struct MapEdits {
    pub edits_name: String,
    /// Lane id to replacement type, only where it differs from the base.
    pub lane_overrides: Vec<(usize, LaneType)>,
    /// Intersection id to full replacement stop-sign record.
    pub stop_sign_overrides: Vec<(usize, StopSignControl)>,
    /// Intersection id to full replacement signal schedule.
    pub traffic_signal_overrides: Vec<(usize, TrafficSignalControl)>,
}

impl MapEdits {
    /// Every override table keyed canonically and every stored control
    /// record itself well-formed.
    pub open spec fn wf(self) -> bool {
        &&& alist_wf(self.lane_overrides@)
        &&& alist_wf(self.stop_sign_overrides@)
        &&& alist_wf(self.traffic_signal_overrides@)
        &&& forall|i: int|
            0 <= i < self.stop_sign_overrides@.len() ==> (#[trigger] self.stop_sign_overrides@[i]).1.wf()
        &&& forall|i: int|
            0 <= i < self.traffic_signal_overrides@.len()
                ==> (#[trigger] self.traffic_signal_overrides@[i]).1.wf()
    }

    /// The lane override mapping.
    pub open spec fn lanes_map(self) -> Map<usize, LaneType> {
        alist_map(self.lane_overrides@)
    }

    /// The stop-sign override mapping, values as plain turn tables.
    pub open spec fn signs_view(self) -> Map<usize, Seq<(usize, TurnPriority)>> {
        alist_map(sign_entries(self.stop_sign_overrides@))
    }

    /// The traffic-signal override mapping, values as plain phase lists.
    pub open spec fn signals_view(self) -> Map<usize, Seq<Seq<usize>>> {
        alist_map(signal_entries(self.traffic_signal_overrides@))
    }

    /// Everything but the name, as one piece of plain data; two records
    /// agreeing here hold the same edits.
    pub open spec fn contents(self) -> (
        Seq<(usize, LaneType)>,
        Seq<(usize, Seq<(usize, TurnPriority)>)>,
        Seq<(usize, Seq<Seq<usize>>)>,
    ) {
        (
            self.lane_overrides@,
            sign_entries(self.stop_sign_overrides@),
            signal_entries(self.traffic_signal_overrides@),
        )
    }

    /// A record with no overrides, named `no_edits`.
    pub fn new() -> (r: MapEdits)
        ensures
            r.wf(),
            r.edits_name@ == default_edits_name(),
            r.lane_overrides@.len() == 0,
            r.stop_sign_overrides@.len() == 0,
            r.traffic_signal_overrides@.len() == 0,
    {
        MapEdits {
            edits_name: String::from_str("no_edits"),
            lane_overrides: Vec::new(),
            stop_sign_overrides: Vec::new(),
            traffic_signal_overrides: Vec::new(),
        }
    }

    /// The current record, unchanged; edits go through the pure mutators.
    pub fn current(&self) -> (r: &MapEdits)
        ensures
            r == self,
    {
        self
    }

    /// The record with one lane's type overridden; all else is kept.
    pub fn with_lane_override(&self, lane: usize, lt: LaneType) -> (r: MapEdits)
        requires
            self.wf(),
        ensures
            r.wf(),
            r.edits_name@ == self.edits_name@,
            r.lanes_map() == self.lanes_map().insert(lane, lt),
            sign_entries(r.stop_sign_overrides@) == sign_entries(self.stop_sign_overrides@),
            signal_entries(r.traffic_signal_overrides@) == signal_entries(
                self.traffic_signal_overrides@,
            ),
    {
        let mut lanes = alist_copy(&self.lane_overrides);
        alist_set(&mut lanes, lane, lt);
        let r = MapEdits {
            edits_name: clone_string(&self.edits_name),
            lane_overrides: lanes,
            stop_sign_overrides: clone_sign_overrides(&self.stop_sign_overrides),
            traffic_signal_overrides: clone_signal_overrides(&self.traffic_signal_overrides),
        };
        proof {
            lemma_entries_wf_transfer(r.stop_sign_overrides@, self.stop_sign_overrides@);
            lemma_signal_entries_wf_transfer(
                r.traffic_signal_overrides@,
                self.traffic_signal_overrides@,
            );
        }
        r
    }

    /// The record with one intersection's stop-sign record replaced in
    /// full; all else is kept.
    pub fn with_stop_sign(&self, i: usize, control: StopSignControl) -> (r: MapEdits)
        requires
            self.wf(),
            control.wf(),
        ensures
            r.wf(),
            r.edits_name@ == self.edits_name@,
            r.lane_overrides@ == self.lane_overrides@,
            r.signs_view() == self.signs_view().insert(i, control@),
            signal_entries(r.traffic_signal_overrides@) == signal_entries(
                self.traffic_signal_overrides@,
            ),
    {
        let mut signs = clone_sign_overrides(&self.stop_sign_overrides);
        let ghost c = signs@;
        alist_set(&mut signs, i, control);
        proof {
            lemma_sign_set_view(self.stop_sign_overrides@, c, signs@, i, control);
            lemma_sign_set_entries_wf(self.stop_sign_overrides@, c, signs@, i, control);
        }
        let r = MapEdits {
            edits_name: clone_string(&self.edits_name),
            lane_overrides: alist_copy(&self.lane_overrides),
            stop_sign_overrides: signs,
            traffic_signal_overrides: clone_signal_overrides(&self.traffic_signal_overrides),
        };
        proof {
            lemma_signal_entries_wf_transfer(
                r.traffic_signal_overrides@,
                self.traffic_signal_overrides@,
            );
        }
        r
    }

    /// The record with one intersection's signal schedule replaced in
    /// full; all else is kept.
    pub fn with_traffic_signal(&self, i: usize, control: TrafficSignalControl) -> (r: MapEdits)
        requires
            self.wf(),
            control.wf(),
        ensures
            r.wf(),
            r.edits_name@ == self.edits_name@,
            r.lane_overrides@ == self.lane_overrides@,
            sign_entries(r.stop_sign_overrides@) == sign_entries(self.stop_sign_overrides@),
            r.signals_view() == self.signals_view().insert(i, control@),
    {
        let mut signals = clone_signal_overrides(&self.traffic_signal_overrides);
        let ghost c = signals@;
        alist_set(&mut signals, i, control);
        proof {
            lemma_signal_set_view(self.traffic_signal_overrides@, c, signals@, i, control);
            lemma_signal_set_entries_wf(self.traffic_signal_overrides@, c, signals@, i, control);
        }
        let r = MapEdits {
            edits_name: clone_string(&self.edits_name),
            lane_overrides: alist_copy(&self.lane_overrides),
            stop_sign_overrides: clone_sign_overrides(&self.stop_sign_overrides),
            traffic_signal_overrides: signals,
        };
        proof {
            lemma_entries_wf_transfer(r.stop_sign_overrides@, self.stop_sign_overrides@);
        }
        r
    }

    /// The record with an intersection's stop-sign override dropped:
    /// reset to the base map's default assignment.
    pub fn without_stop_sign(&self, i: usize) -> (r: MapEdits)
        requires
            self.wf(),
        ensures
            r.wf(),
            r.edits_name@ == self.edits_name@,
            r.lane_overrides@ == self.lane_overrides@,
            r.signs_view() == self.signs_view().remove(i),
            signal_entries(r.traffic_signal_overrides@) == signal_entries(
                self.traffic_signal_overrides@,
            ),
    {
        let mut signs = clone_sign_overrides(&self.stop_sign_overrides);
        let ghost c = signs@;
        alist_remove(&mut signs, i);
        proof {
            lemma_sign_remove_view(self.stop_sign_overrides@, c, signs@, i);
            lemma_sign_remove_entries_wf(self.stop_sign_overrides@, c, signs@, i);
        }
        let r = MapEdits {
            edits_name: clone_string(&self.edits_name),
            lane_overrides: alist_copy(&self.lane_overrides),
            stop_sign_overrides: signs,
            traffic_signal_overrides: clone_signal_overrides(&self.traffic_signal_overrides),
        };
        proof {
            lemma_signal_entries_wf_transfer(
                r.traffic_signal_overrides@,
                self.traffic_signal_overrides@,
            );
        }
        r
    }

    /// The record under a new name, contents unchanged.
    pub fn renamed(&self, name: String) -> (r: MapEdits)
        requires
            self.wf(),
        ensures
            r.wf(),
            r.edits_name@ == name@,
            r.lane_overrides@ == self.lane_overrides@,
            sign_entries(r.stop_sign_overrides@) == sign_entries(self.stop_sign_overrides@),
            signal_entries(r.traffic_signal_overrides@) == signal_entries(
                self.traffic_signal_overrides@,
            ),
    {
        let r = MapEdits {
            edits_name: name,
            lane_overrides: alist_copy(&self.lane_overrides),
            stop_sign_overrides: clone_sign_overrides(&self.stop_sign_overrides),
            traffic_signal_overrides: clone_signal_overrides(&self.traffic_signal_overrides),
        };
        proof {
            lemma_entries_wf_transfer(r.stop_sign_overrides@, self.stop_sign_overrides@);
            lemma_signal_entries_wf_transfer(
                r.traffic_signal_overrides@,
                self.traffic_signal_overrides@,
            );
        }
        r
    }

    /// The summary the status line shows: the overlay's name and how
    /// many overrides of each kind it holds.
    pub open spec fn describe_spec(self) -> Seq<char> {
        self.edits_name@ + " ("@ + dec_str(self.lane_overrides@.len() as int)
            + " lane overrides, "@ + dec_str(self.stop_sign_overrides@.len() as int)
            + " stop signs, "@ + dec_str(self.traffic_signal_overrides@.len() as int)
            + " traffic signals)"@
    }

    /// A short human-readable summary of the overlay, for status display.
    pub fn describe(&self) -> (r: String)
        ensures
            r@ == self.describe_spec(),
    {
        let mut s = clone_string(&self.edits_name);
        s.append(" (");
        s.append(usize_to_string(self.lane_overrides.len()).as_str());
        s.append(" lane overrides, ");
        s.append(usize_to_string(self.stop_sign_overrides.len()).as_str());
        s.append(" stop signs, ");
        s.append(usize_to_string(self.traffic_signal_overrides.len()).as_str());
        s.append(" traffic signals)");
        s
    }

    /// Look up a lane override.
    pub fn lane_override(&self, lane: usize) -> (r: Option<LaneType>)
        requires
            self.wf(),
        ensures
            match r {
                Some(lt) => self.lanes_map().dom().contains(lane) && lt == self.lanes_map()[lane],
                None => !self.lanes_map().dom().contains(lane),
            },
    {
        match alist_get(&self.lane_overrides, lane) {
            Some(lt) => Some(*lt),
            None => None,
        }
    }

    /// Look up a stop-sign override.
    pub fn stop_sign_override(&self, i: usize) -> (r: Option<&StopSignControl>)
        requires
            self.wf(),
        ensures
            match r {
                Some(c) => self.signs_view().dom().contains(i) && c@ == self.signs_view()[i]
                    && c.wf(),
                None => !self.signs_view().dom().contains(i),
            },
    {
        proof {
            lemma_sign_entries_view(self.stop_sign_overrides@);
        }
        alist_get(&self.stop_sign_overrides, i)
    }

    /// Look up a traffic-signal override.
    pub fn traffic_signal_override(&self, i: usize) -> (r: Option<&TrafficSignalControl>)
        requires
            self.wf(),
        ensures
            match r {
                Some(c) => self.signals_view().dom().contains(i) && c@ == self.signals_view()[i]
                    && c.wf(),
                None => !self.signals_view().dom().contains(i),
            },
    {
        proof {
            lemma_signal_entries_view(self.traffic_signal_overrides@);
        }
        alist_get(&self.traffic_signal_overrides, i)
    }
}

/// Stop-sign entries with equal plain views are well-formed together.
proof fn lemma_entries_wf_transfer(a: Seq<(usize, StopSignControl)>, b: Seq<(usize, StopSignControl)>)
    requires
        sign_entries(a) == sign_entries(b),
        forall|i: int| 0 <= i < b.len() ==> (#[trigger] b[i]).1.wf(),
    ensures
        forall|i: int| 0 <= i < a.len() ==> (#[trigger] a[i]).1.wf(),
        alist_wf(b) ==> alist_wf(a),
{
    assert(a.len() == b.len()) by {
        assert(sign_entries(a).len() == a.len());
        assert(sign_entries(b).len() == b.len());
    }
    assert forall|i: int| 0 <= i < a.len() implies (#[trigger] a[i]).1.wf() by {
        assert(sign_entries(a)[i] == (a[i].0, a[i].1@));
        assert(sign_entries(b)[i] == (b[i].0, b[i].1@));
        assert(a[i].1@ == b[i].1@);
    }
    if alist_wf(b) {
        assert forall|i: int, j: int| 0 <= i < j < a.len() implies alist_keys(a)[i]
            < alist_keys(a)[j] by {
            assert(sign_entries(a)[i] == (a[i].0, a[i].1@));
            assert(sign_entries(a)[j] == (a[j].0, a[j].1@));
            assert(sign_entries(b)[i] == (b[i].0, b[i].1@));
            assert(sign_entries(b)[j] == (b[j].0, b[j].1@));
            assert(alist_keys(b)[i] < alist_keys(b)[j]);
        }
    }
}

/// Signal entries with equal plain views are well-formed together.
proof fn lemma_signal_entries_wf_transfer(
    a: Seq<(usize, TrafficSignalControl)>,
    b: Seq<(usize, TrafficSignalControl)>,
)
    requires
        signal_entries(a) == signal_entries(b),
        forall|i: int| 0 <= i < b.len() ==> (#[trigger] b[i]).1.wf(),
    ensures
        forall|i: int| 0 <= i < a.len() ==> (#[trigger] a[i]).1.wf(),
        alist_wf(b) ==> alist_wf(a),
{
    assert(a.len() == b.len()) by {
        assert(signal_entries(a).len() == a.len());
        assert(signal_entries(b).len() == b.len());
    }
    assert forall|i: int| 0 <= i < a.len() implies (#[trigger] a[i]).1.wf() by {
        assert(signal_entries(a)[i] == (a[i].0, a[i].1@));
        assert(signal_entries(b)[i] == (b[i].0, b[i].1@));
        assert(a[i].1@ == b[i].1@);
        lemma_signal_wf_from_view(a[i].1, b[i].1);
    }
    if alist_wf(b) {
        assert forall|i: int, j: int| 0 <= i < j < a.len() implies alist_keys(a)[i]
            < alist_keys(a)[j] by {
            assert(signal_entries(a)[i] == (a[i].0, a[i].1@));
            assert(signal_entries(a)[j] == (a[j].0, a[j].1@));
            assert(signal_entries(b)[i] == (b[i].0, b[i].1@));
            assert(signal_entries(b)[j] == (b[j].0, b[j].1@));
            assert(alist_keys(b)[i] < alist_keys(b)[j]);
        }
    }
}

/// A signal schedule's invariant is a property of its plain view.
proof fn lemma_signal_wf_from_view(a: TrafficSignalControl, b: TrafficSignalControl)
    requires
        a@ == b@,
        b.wf(),
    ensures
        a.wf(),
{
    assert(a.phases@.len() == a@.len());
    assert(b.phases@.len() == b@.len());
    assert forall|i: int| 0 <= i < a.phases@.len() implies (#[trigger] a.phases@[i]).wf() by {
        assert(a@[i] == a.phases@[i].protected@);
        assert(b@[i] == b.phases@[i].protected@);
        assert(b.phases@[i].wf());
    }
}

/// After replacing one stop-sign entry, every stored record is still
/// well-formed.
proof fn lemma_sign_set_entries_wf(
    c0: Seq<(usize, StopSignControl)>,
    c: Seq<(usize, StopSignControl)>,
    s2: Seq<(usize, StopSignControl)>,
    i: usize,
    control: StopSignControl,
)
    requires
        alist_wf(c0),
        alist_wf(c),
        alist_wf(s2),
        sign_entries(c) == sign_entries(c0),
        alist_map(s2) == alist_map(c).insert(i, control),
        forall|j: int| 0 <= j < c0.len() ==> (#[trigger] c0[j]).1.wf(),
        control.wf(),
    ensures
        forall|j: int| 0 <= j < s2.len() ==> (#[trigger] s2[j]).1.wf(),
{
    lemma_entries_wf_transfer(c, c0);
    assert forall|k: usize| #[trigger] alist_map(s2).dom().contains(k) implies alist_map(
        s2,
    )[k].wf() by {
        if k != i {
            assert(alist_map(s2)[k] == alist_map(c)[k]);
            assert(alist_map(c).dom().contains(k));
            let j = choose|j: int| 0 <= j < c.len() && c[j].0 == k;
            lemma_alist_index(c, j);
        }
    }
    assert forall|j: int| 0 <= j < s2.len() implies (#[trigger] s2[j]).1.wf() by {
        lemma_alist_index(s2, j);
        assert(alist_map(s2).dom().contains(s2[j].0));
    }
}

/// After replacing one signal entry, every stored schedule is still
/// well-formed.
proof fn lemma_signal_set_entries_wf(
    c0: Seq<(usize, TrafficSignalControl)>,
    c: Seq<(usize, TrafficSignalControl)>,
    s2: Seq<(usize, TrafficSignalControl)>,
    i: usize,
    control: TrafficSignalControl,
)
    requires
        alist_wf(c0),
        alist_wf(c),
        alist_wf(s2),
        signal_entries(c) == signal_entries(c0),
        alist_map(s2) == alist_map(c).insert(i, control),
        forall|j: int| 0 <= j < c0.len() ==> (#[trigger] c0[j]).1.wf(),
        control.wf(),
    ensures
        forall|j: int| 0 <= j < s2.len() ==> (#[trigger] s2[j]).1.wf(),
{
    lemma_signal_entries_wf_transfer(c, c0);
    assert forall|k: usize| #[trigger] alist_map(s2).dom().contains(k) implies alist_map(
        s2,
    )[k].wf() by {
        if k != i {
            assert(alist_map(s2)[k] == alist_map(c)[k]);
            assert(alist_map(c).dom().contains(k));
            let j = choose|j: int| 0 <= j < c.len() && c[j].0 == k;
            lemma_alist_index(c, j);
        }
    }
    assert forall|j: int| 0 <= j < s2.len() implies (#[trigger] s2[j]).1.wf() by {
        lemma_alist_index(s2, j);
        assert(alist_map(s2).dom().contains(s2[j].0));
    }
}

/// After dropping one stop-sign entry, every stored record is still
/// well-formed.
proof fn lemma_sign_remove_entries_wf(
    c0: Seq<(usize, StopSignControl)>,
    c: Seq<(usize, StopSignControl)>,
    s2: Seq<(usize, StopSignControl)>,
    i: usize,
)
    requires
        alist_wf(c0),
        alist_wf(c),
        alist_wf(s2),
        sign_entries(c) == sign_entries(c0),
        alist_map(s2) == alist_map(c).remove(i),
        forall|j: int| 0 <= j < c0.len() ==> (#[trigger] c0[j]).1.wf(),
    ensures
        forall|j: int| 0 <= j < s2.len() ==> (#[trigger] s2[j]).1.wf(),
{
    lemma_entries_wf_transfer(c, c0);
    assert forall|k: usize| #[trigger] alist_map(s2).dom().contains(k) implies alist_map(
        s2,
    )[k].wf() by {
        assert(alist_map(s2)[k] == alist_map(c)[k]);
        assert(alist_map(c).dom().contains(k));
        let j = choose|j: int| 0 <= j < c.len() && c[j].0 == k;
        lemma_alist_index(c, j);
    }
    assert forall|j: int| 0 <= j < s2.len() implies (#[trigger] s2[j]).1.wf() by {
        lemma_alist_index(s2, j);
        assert(alist_map(s2).dom().contains(s2[j].0));
    }
}

/// Reading a stop-sign table as plain data commutes with reading it as
/// a mapping.
pub proof fn lemma_sign_entries_view(s: Seq<(usize, StopSignControl)>)
    requires
        alist_wf(s),
    ensures
        alist_wf(sign_entries(s)),
        alist_map(sign_entries(s)).dom() == alist_map(s).dom(),
        forall|k: usize|
            #[trigger] alist_map(s).dom().contains(k) ==> alist_map(sign_entries(s))[k]
                == alist_map(s)[k]@,
        forall|k: usize|
            (forall|j: int| 0 <= j < s.len() ==> (#[trigger] s[j]).1.wf()) && #[trigger] alist_map(
                s,
            ).dom().contains(k) ==> alist_map(s)[k].wf(),
{
    let t = sign_entries(s);
    assert(forall|j: int| 0 <= j < s.len() ==> #[trigger] t[j] == (s[j].0, s[j].1@));
    assert(alist_keys(t) =~= alist_keys(s));
    assert(alist_map(t).dom() =~= alist_map(s).dom());
    assert forall|k: usize| #[trigger] alist_map(s).dom().contains(k) implies alist_map(t)[k]
        == alist_map(s)[k]@ by {
        let j = choose|j: int| 0 <= j < s.len() && s[j].0 == k;
        lemma_alist_index(s, j);
        lemma_alist_index(t, j);
    }
    assert forall|k: usize|
        (forall|j: int| 0 <= j < s.len() ==> (#[trigger] s[j]).1.wf()) && #[trigger] alist_map(
            s,
        ).dom().contains(k) implies alist_map(s)[k].wf() by {
        let j = choose|j: int| 0 <= j < s.len() && s[j].0 == k;
        lemma_alist_index(s, j);
    }
}

/// Reading a signal table as plain data commutes with reading it as a
/// mapping.
pub proof fn lemma_signal_entries_view(s: Seq<(usize, TrafficSignalControl)>)
    requires
        alist_wf(s),
    ensures
        alist_wf(signal_entries(s)),
        alist_map(signal_entries(s)).dom() == alist_map(s).dom(),
        forall|k: usize|
            #[trigger] alist_map(s).dom().contains(k) ==> alist_map(signal_entries(s))[k]
                == alist_map(s)[k]@,
        forall|k: usize|
            (forall|j: int| 0 <= j < s.len() ==> (#[trigger] s[j]).1.wf()) && #[trigger] alist_map(
                s,
            ).dom().contains(k) ==> alist_map(s)[k].wf(),
{
    let t = signal_entries(s);
    assert(forall|j: int| 0 <= j < s.len() ==> #[trigger] t[j] == (s[j].0, s[j].1@));
    assert(alist_keys(t) =~= alist_keys(s));
    assert(alist_map(t).dom() =~= alist_map(s).dom());
    assert forall|k: usize| #[trigger] alist_map(s).dom().contains(k) implies alist_map(t)[k]
        == alist_map(s)[k]@ by {
        let j = choose|j: int| 0 <= j < s.len() && s[j].0 == k;
        lemma_alist_index(s, j);
        lemma_alist_index(t, j);
    }
    assert forall|k: usize|
        (forall|j: int| 0 <= j < s.len() ==> (#[trigger] s[j]).1.wf()) && #[trigger] alist_map(
            s,
        ).dom().contains(k) implies alist_map(s)[k].wf() by {
        let j = choose|j: int| 0 <= j < s.len() && s[j].0 == k;
        lemma_alist_index(s, j);
    }
}

/// Replacing one stop-sign entry, seen as plain data.
proof fn lemma_sign_set_view(
    c0: Seq<(usize, StopSignControl)>,
    c: Seq<(usize, StopSignControl)>,
    s2: Seq<(usize, StopSignControl)>,
    i: usize,
    control: StopSignControl,
)
    requires
        alist_wf(c0),
        alist_wf(c),
        alist_wf(s2),
        sign_entries(c) == sign_entries(c0),
        alist_map(s2) == alist_map(c).insert(i, control),
    ensures
        alist_map(sign_entries(s2)) == alist_map(sign_entries(c0)).insert(i, control@),
{
    lemma_sign_entries_view(s2);
    lemma_sign_entries_view(c);
    assert(alist_map(sign_entries(s2)) =~= alist_map(sign_entries(c0)).insert(i, control@)) by {
        assert(alist_map(sign_entries(c0)) == alist_map(sign_entries(c)));
        assert(alist_map(sign_entries(s2)).dom() =~= alist_map(sign_entries(c0)).insert(
            i,
            control@,
        ).dom());
        assert forall|k: usize| alist_map(sign_entries(s2)).dom().contains(k) implies alist_map(
            sign_entries(s2),
        )[k] == alist_map(sign_entries(c0)).insert(i, control@)[k] by {
            assert(alist_map(s2).dom().contains(k));
            assert(alist_map(sign_entries(s2))[k] == alist_map(s2)[k]@);
            if k != i {
                assert(alist_map(s2)[k] == alist_map(c)[k]);
                assert(alist_map(c).dom().contains(k));
                assert(alist_map(sign_entries(c))[k] == alist_map(c)[k]@);
            }
        }
    }
}

/// Replacing one signal entry, seen as plain data.
proof fn lemma_signal_set_view(
    c0: Seq<(usize, TrafficSignalControl)>,
    c: Seq<(usize, TrafficSignalControl)>,
    s2: Seq<(usize, TrafficSignalControl)>,
    i: usize,
    control: TrafficSignalControl,
)
    requires
        alist_wf(c0),
        alist_wf(c),
        alist_wf(s2),
        signal_entries(c) == signal_entries(c0),
        alist_map(s2) == alist_map(c).insert(i, control),
    ensures
        alist_map(signal_entries(s2)) == alist_map(signal_entries(c0)).insert(i, control@),
{
    lemma_signal_entries_view(s2);
    lemma_signal_entries_view(c);
    assert(alist_map(signal_entries(s2)) =~= alist_map(signal_entries(c0)).insert(
        i,
        control@,
    )) by {
        assert(alist_map(signal_entries(c0)) == alist_map(signal_entries(c)));
        assert(alist_map(signal_entries(s2)).dom() =~= alist_map(signal_entries(c0)).insert(
            i,
            control@,
        ).dom());
        assert forall|k: usize| alist_map(signal_entries(s2)).dom().contains(k) implies alist_map(
            signal_entries(s2),
        )[k] == alist_map(signal_entries(c0)).insert(i, control@)[k] by {
            assert(alist_map(s2).dom().contains(k));
            assert(alist_map(signal_entries(s2))[k] == alist_map(s2)[k]@);
            if k != i {
                assert(alist_map(s2)[k] == alist_map(c)[k]);
                assert(alist_map(c).dom().contains(k));
                assert(alist_map(signal_entries(c))[k] == alist_map(c)[k]@);
            }
        }
    }
}

/// Dropping one stop-sign entry, seen as plain data.
proof fn lemma_sign_remove_view(
    c0: Seq<(usize, StopSignControl)>,
    c: Seq<(usize, StopSignControl)>,
    s2: Seq<(usize, StopSignControl)>,
    i: usize,
)
    requires
        alist_wf(c0),
        alist_wf(c),
        alist_wf(s2),
        sign_entries(c) == sign_entries(c0),
        alist_map(s2) == alist_map(c).remove(i),
    ensures
        alist_map(sign_entries(s2)) == alist_map(sign_entries(c0)).remove(i),
{
    lemma_sign_entries_view(s2);
    lemma_sign_entries_view(c);
    assert(alist_map(sign_entries(s2)) =~= alist_map(sign_entries(c0)).remove(i)) by {
        assert(alist_map(sign_entries(c0)) == alist_map(sign_entries(c)));
        assert(alist_map(sign_entries(s2)).dom() =~= alist_map(sign_entries(c0)).remove(i).dom());
        assert forall|k: usize| alist_map(sign_entries(s2)).dom().contains(k) implies alist_map(
            sign_entries(s2),
        )[k] == alist_map(sign_entries(c0)).remove(i)[k] by {
            assert(alist_map(s2).dom().contains(k));
            assert(alist_map(sign_entries(s2))[k] == alist_map(s2)[k]@);
            assert(k != i);
            assert(alist_map(s2)[k] == alist_map(c)[k]);
            assert(alist_map(c).dom().contains(k));
            assert(alist_map(sign_entries(c))[k] == alist_map(c)[k]@);
        }
    }
}

/// Copy a string; the copy has the same characters.
pub fn clone_string(s: &String) -> (r: String)
    ensures
        r@ == s@,
{
    s.clone()
}

/// Deep-copy a stop-sign record; the copy carries the same turn table.
pub fn clone_stop_sign(c: &StopSignControl) -> (r: StopSignControl)
    ensures
        r@ == c@,
{
    StopSignControl { turns: alist_copy(&c.turns) }
}

/// Deep-copy a signal schedule; the copy carries the same phases.
pub fn clone_traffic_signal(c: &TrafficSignalControl) -> (r: TrafficSignalControl)
    ensures
        r@ == c@,
{
    let n = c.phases.len();
    let mut phases: Vec<Phase> = Vec::new();
    let mut i: usize = 0;
    while i < n
        invariant
            n == c.phases@.len(),
            0 <= i <= n,
            phases@.len() == i,
            forall|j: int| 0 <= j < i ==> (#[trigger] phases@[j]).protected@
                == c.phases@[j].protected@,
        decreases n - i,
    {
        let src = &c.phases[i];
        let m = src.protected.len();
        let mut ids: Vec<usize> = Vec::new();
        let mut k: usize = 0;
        while k < m
            invariant
                m == src.protected@.len(),
                0 <= k <= m,
                ids@ =~= src.protected@.take(k as int),
            decreases m - k,
        {
            ids.push(src.protected[k]);
            k = k + 1;
        }
        proof {
            assert(ids@ =~= src.protected@);
        }
        phases.push(Phase { protected: ids });
        i = i + 1;
    }
    let r = TrafficSignalControl { phases };
    proof {
        assert(r@ =~= c@);
    }
    r
}

/// Deep-copy the stop-sign override table.
pub fn clone_sign_overrides(v: &Vec<(usize, StopSignControl)>) -> (r: Vec<
    (usize, StopSignControl),
>)
    requires
        alist_wf(v@),
    ensures
        alist_wf(r@),
        sign_entries(r@) == sign_entries(v@),
{
    let n = v.len();
    let mut r: Vec<(usize, StopSignControl)> = Vec::new();
    let mut i: usize = 0;
    while i < n
        invariant
            n == v@.len(),
            0 <= i <= n,
            r@.len() == i,
            forall|j: int| 0 <= j < i ==> (#[trigger] r@[j]).0 == v@[j].0 && r@[j].1@ == v@[j].1@,
        decreases n - i,
    {
        let key = v[i].0;
        let c = clone_stop_sign(&v[i].1);
        r.push((key, c));
        i = i + 1;
    }
    proof {
        assert(sign_entries(r@) =~= sign_entries(v@)) by {
            assert forall|j: int| 0 <= j < n implies sign_entries(r@)[j] == sign_entries(
                v@,
            )[j] by {
                assert(sign_entries(r@)[j] == (r@[j].0, r@[j].1@));
                assert(sign_entries(v@)[j] == (v@[j].0, v@[j].1@));
            }
        }
        assert forall|a: int, b: int| 0 <= a < b < n implies alist_keys(r@)[a]
            < alist_keys(r@)[b] by {
            assert(alist_keys(r@)[a] == r@[a].0);
            assert(alist_keys(r@)[b] == r@[b].0);
            assert(alist_keys(v@)[a] < alist_keys(v@)[b]);
        }
    }
    r
}

/// Deep-copy the signal override table.
pub fn clone_signal_overrides(v: &Vec<(usize, TrafficSignalControl)>) -> (r: Vec<
    (usize, TrafficSignalControl),
>)
    requires
        alist_wf(v@),
    ensures
        alist_wf(r@),
        signal_entries(r@) == signal_entries(v@),
{
    let n = v.len();
    let mut r: Vec<(usize, TrafficSignalControl)> = Vec::new();
    let mut i: usize = 0;
    while i < n
        invariant
            n == v@.len(),
            0 <= i <= n,
            r@.len() == i,
            forall|j: int| 0 <= j < i ==> (#[trigger] r@[j]).0 == v@[j].0 && r@[j].1@ == v@[j].1@,
        decreases n - i,
    {
        let key = v[i].0;
        let c = clone_traffic_signal(&v[i].1);
        r.push((key, c));
        i = i + 1;
    }
    proof {
        assert(signal_entries(r@) =~= signal_entries(v@)) by {
            assert forall|j: int| 0 <= j < n implies signal_entries(r@)[j] == signal_entries(
                v@,
            )[j] by {
                assert(signal_entries(r@)[j] == (r@[j].0, r@[j].1@));
                assert(signal_entries(v@)[j] == (v@[j].0, v@[j].1@));
            }
        }
        assert forall|a: int, b: int| 0 <= a < b < n implies alist_keys(r@)[a]
            < alist_keys(r@)[b] by {
            assert(alist_keys(r@)[a] == r@[a].0);
            assert(alist_keys(r@)[b] == r@[b].0);
            assert(alist_keys(v@)[a] < alist_keys(v@)[b]);
        }
    }
    r
}


/// The decimal digit characters.
pub open spec fn dec_digit(d: int) -> char {
    if d == 0 {
        '0'
    } else if d == 1 {
        '1'
    } else if d == 2 {
        '2'
    } else if d == 3 {
        '3'
    } else if d == 4 {
        '4'
    } else if d == 5 {
        '5'
    } else if d == 6 {
        '6'
    } else if d == 7 {
        '7'
    } else if d == 8 {
        '8'
    } else {
        '9'
    }
}

/// A number written in decimal, most significant digit first.
pub open spec fn dec_str(n: int) -> Seq<char>
    recommends
        n >= 0,
    decreases n,
{
    if n < 10 {
        seq![dec_digit(n)]
    } else {
        dec_str(n / 10).push(dec_digit(n % 10))
    }
}

/// One decimal digit as a string.
fn digit_str(d: usize) -> (r: String)
    requires
        d < 10,
    ensures
        r@ == seq![dec_digit(d as int)],
{
    let r = match d {
        0 => String::from_str("0"),
        1 => String::from_str("1"),
        2 => String::from_str("2"),
        3 => String::from_str("3"),
        4 => String::from_str("4"),
        5 => String::from_str("5"),
        6 => String::from_str("6"),
        7 => String::from_str("7"),
        8 => String::from_str("8"),
        _ => String::from_str("9"),
    };
    proof {
        reveal_strlit("0");
        reveal_strlit("1");
        reveal_strlit("2");
        reveal_strlit("3");
        reveal_strlit("4");
        reveal_strlit("5");
        reveal_strlit("6");
        reveal_strlit("7");
        reveal_strlit("8");
        reveal_strlit("9");
        assert(r@ =~= seq![dec_digit(d as int)]);
    }
    r
}

/// Render a count in decimal.
pub fn usize_to_string(n: usize) -> (r: String)
    ensures
        r@ == dec_str(n as int),
    decreases n,
{
    if n < 10 {
        digit_str(n)
    } else {
        let mut s = usize_to_string(n / 10);
        let d = digit_str(n % 10);
        s.append(d.as_str());
        proof {
            assert(s@ =~= dec_str(n as int / 10).push(dec_digit(n as int % 10)));
        }
        s
    }
}

} // verus!

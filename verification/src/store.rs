//! Persistence of named overlay records for one map: a store keyed by
//! overlay name, each record held as its canonical bytes, and the save
//! flow that insists on a real name before anything is written.

use vstd::prelude::*;
use vstd::string::StringExecFns;

use crate::alist::alist_keys;
use crate::alist::alist_keys_sorted;
use crate::alist::alist_wf;
use crate::alist::ids_sorted;
use crate::alist::strictly_increasing;
use crate::codec::bytes_to_words;
use crate::codec::bytes_to_words_spec;
use crate::codec::dec_record;
use crate::codec::decode_record_exec;
use crate::codec::enc_record;
use crate::codec::encode_edits;
use crate::codec::lemma_record_round_trip;
use crate::codec::lemma_words_bytes_round_trip;
use crate::codec::words_to_bytes;
use crate::codec::words_to_bytes_spec;
use crate::control::TurnPriority;
use crate::edits::clone_string;
use crate::edits::default_edits_name;
use crate::edits::sign_entries;
use crate::edits::signal_entries;
use crate::edits::MapEdits;
use crate::lanes::LaneType;

verus! {

/// Why a load failed: the name is not in the store, or the stored bytes
/// do not decode into the expected schema.
#[derive(Clone, Copy, Debug, PartialEq, Eq, Structural)]
pub enum LoadError {
    NotFound,
    Corrupt,
}

/// The bytes a record is persisted as.
pub open spec fn record_bytes(
    l: Seq<(usize, LaneType)>,
    g: Seq<(usize, Seq<(usize, TurnPriority)>)>,
    t: Seq<(usize, Seq<Seq<usize>>)>,
) -> Seq<u8> {
    words_to_bytes_spec(enc_record(l, g, t))
}

/// What stored bytes decode to, if anything.
pub open spec fn parse_bytes(b: Seq<u8>) -> Option<
    (
        Seq<(usize, LaneType)>,
        Seq<(usize, Seq<(usize, TurnPriority)>)>,
        Seq<(usize, Seq<Seq<usize>>)>,
    ),
> {
    if b.len() % 8 == 0 {
        dec_record(bytes_to_words_spec(b))
    } else {
        None
    }
}

/// The schema's well-formedness, over plain decoded data.
pub open spec fn views_wf(
    l: Seq<(usize, LaneType)>,
    g: Seq<(usize, Seq<(usize, TurnPriority)>)>,
    t: Seq<(usize, Seq<Seq<usize>>)>,
) -> bool {
    &&& alist_wf(l)
    &&& alist_wf(g)
    &&& forall|i: int| 0 <= i < g.len() ==> alist_wf((#[trigger] g[i]).1)
    &&& alist_wf(t)
    &&& forall|i: int, j: int|
        0 <= i < t.len() && 0 <= j < t[i].1.len() ==> strictly_increasing(#[trigger] t[i].1[j])
}

/// Writing a record and reading it back yields the same record: the
/// store's round-trip law.
pub proof fn lemma_record_bytes_round_trip(
    l: Seq<(usize, LaneType)>,
    g: Seq<(usize, Seq<(usize, TurnPriority)>)>,
    t: Seq<(usize, Seq<Seq<usize>>)>,
)
    requires
        l.len() <= usize::MAX,
        g.len() <= usize::MAX,
        t.len() <= usize::MAX,
        forall|i: int| 0 <= i < g.len() ==> (#[trigger] g[i]).1.len() <= usize::MAX,
        forall|i: int| 0 <= i < t.len() ==> (#[trigger] t[i]).1.len() <= usize::MAX,
        forall|i: int, j: int|
            0 <= i < t.len() && 0 <= j < t[i].1.len() ==> (#[trigger] t[i].1[j]).len()
                <= usize::MAX,
    ensures
        parse_bytes(record_bytes(l, g, t)) == Some((l, g, t)),
{
    lemma_words_bytes_round_trip(enc_record(l, g, t));
    lemma_record_round_trip(l, g, t);
}

/// The named overlay records saved for one map.
pub struct SavedOverlays {
    /// The map the records belong to.
    pub map_name: String,
    /// Overlay name to the record's bytes; names are distinct.
    pub entries: Vec<(String, Vec<u8>)>,
}

/// The bytes stored under a name, if any.
pub open spec fn entry_for(s: Seq<(String, Vec<u8>)>, name: Seq<char>) -> Option<Seq<u8>> {
    if exists|i: int| 0 <= i < s.len() && (#[trigger] s[i]).0@ == name {
        Some(s[choose|i: int| 0 <= i < s.len() && (#[trigger] s[i]).0@ == name].1@)
    } else {
        None
    }
}

impl SavedOverlays {
    /// Names are distinct, so each addresses one record.
    pub open spec fn wf(self) -> bool {
        forall|i: int, j: int|
            0 <= i < j < self.entries@.len() ==> (#[trigger] self.entries@[i]).0@ != (
            #[trigger] self.entries@[j]).0@
    }

    /// An empty store for one map.
    pub fn new(map_name: String) -> (r: SavedOverlays)
        ensures
            r.wf(),
            r.map_name@ == map_name@,
            r.entries@.len() == 0,
    {
        SavedOverlays { map_name, entries: Vec::new() }
    }

    /// Persist a named record: its canonical bytes are stored under its
    /// name, replacing any previous record of that name. Records still
    /// carrying the fresh-overlay name are never accepted here; the save
    /// flow renames first.
    pub fn save_record(&mut self, edits: &MapEdits)
        requires
            old(self).wf(),
            edits.wf(),
            edits.edits_name@ != default_edits_name(),
        ensures
            final(self).wf(),
            final(self).map_name@ == old(self).map_name@,
            entry_for(final(self).entries@, edits.edits_name@) == Some(
                record_bytes(
                    edits.lane_overrides@,
                    sign_entries(edits.stop_sign_overrides@),
                    signal_entries(edits.traffic_signal_overrides@),
                ),
            ),
            forall|n: Seq<char>|
                n != edits.edits_name@ ==> #[trigger] entry_for(final(self).entries@, n)
                    == entry_for(old(self).entries@, n),
    {
        let toks = encode_edits(edits);
        let bytes = words_to_bytes(&toks);
        let name = clone_string(&edits.edits_name);
        let n = self.entries.len();
        let mut i: usize = 0;
        while i < n
            invariant
                n == self.entries@.len(),
                0 <= i <= n,
                self == old(self),
                old(self).wf(),
                name@ == edits.edits_name@,
                bytes@ == record_bytes(
                    edits.lane_overrides@,
                    sign_entries(edits.stop_sign_overrides@),
                    signal_entries(edits.traffic_signal_overrides@),
                ),
                forall|q: int| 0 <= q < i ==> (#[trigger] self.entries@[q]).0@ != edits.edits_name@,
            decreases n - i,
        {
            if string_eq(&self.entries[i].0, &edits.edits_name) {
                let ghost s0 = self.entries@;
                let _ = self.entries.remove(i);
                self.entries.insert(i, (name, bytes));
                proof {
                    let s2 = self.entries@;
                    assert(s2 =~= s0.update(i as int, (s2[i as int].0, s2[i as int].1)));
                    assert(s2[i as int].0@ == edits.edits_name@);
                    assert(s2[i as int].1@ == record_bytes(
                        edits.lane_overrides@,
                        sign_entries(edits.stop_sign_overrides@),
                        signal_entries(edits.traffic_signal_overrides@),
                    ));
                    lemma_entry_update(s0, s2, i as int, edits.edits_name@);
                }
                return ;
            }
            i = i + 1;
        }
        let ghost s0 = self.entries@;
        self.entries.push((name, bytes));
        proof {
            let s2 = self.entries@;
            assert(s2 =~= s0.push((s2.last().0, s2.last().1)));
            assert(s2.last().0@ == edits.edits_name@);
            lemma_entry_push(s0, s2, edits.edits_name@);
        }
    }

    /// Fetch and decode the record saved under `name`. `NotFound` when
    /// the store holds no such name; `Corrupt` when the bytes do not
    /// decode into a well-formed record. The overlay in memory is never
    /// touched by a failed load.
    pub fn load_record(&self, name: &String) -> (r: Result<MapEdits, LoadError>)
        requires
            self.wf(),
        ensures
            match r {
                Ok(e) => {
                    &&& e.wf()
                    &&& e.edits_name@ == name@
                    &&& entry_for(self.entries@, name@) matches Some(b) && parse_bytes(b) == Some(
                        (
                            e.lane_overrides@,
                            sign_entries(e.stop_sign_overrides@),
                            signal_entries(e.traffic_signal_overrides@),
                        ),
                    )
                },
                Err(LoadError::NotFound) => entry_for(self.entries@, name@) is None,
                Err(LoadError::Corrupt) => entry_for(self.entries@, name@) matches Some(b) && (
                parse_bytes(b) is None || (parse_bytes(b) matches Some((l, g, t)) && !views_wf(
                    l,
                    g,
                    t,
                ))),
            },
    {
        let n = self.entries.len();
        let mut i: usize = 0;
        while i < n
            invariant
                n == self.entries@.len(),
                0 <= i <= n,
                self.wf(),
                forall|q: int| 0 <= q < i ==> (#[trigger] self.entries@[q]).0@ != name@,
            decreases n - i,
        {
            if string_eq(&self.entries[i].0, name) {
                proof {
                    lemma_entry_found(self.entries@, i as int, name@);
                }
                let bytes = &self.entries[i].1;
                let toks = match bytes_to_words(bytes) {
                    Some(t) => t,
                    None => {
                        return Err(LoadError::Corrupt);
                    },
                };
                let (lanes, signs, signals) = match decode_record_exec(&toks) {
                    Some(x) => x,
                    None => {
                        return Err(LoadError::Corrupt);
                    },
                };
                if !check_decoded_wf(&lanes, &signs, &signals) {
                    return Err(LoadError::Corrupt);
                }
                let e = MapEdits {
                    edits_name: clone_string(name),
                    lane_overrides: lanes,
                    stop_sign_overrides: signs,
                    traffic_signal_overrides: signals,
                };
                return Ok(e);
            }
            i = i + 1;
        }
        proof {
            if entry_for(self.entries@, name@) is Some {
                let j = choose|j: int|
                    0 <= j < self.entries@.len() && (#[trigger] self.entries@[j]).0@ == name@;
                assert(false);
            }
        }
        Err(LoadError::NotFound)
    }
}

/// Decide the schema's well-formedness of freshly decoded tables, and
/// tie it to the assembled record's invariant.
fn check_decoded_wf(
    lanes: &Vec<(usize, LaneType)>,
    signs: &Vec<(usize, crate::control::StopSignControl)>,
    signals: &Vec<(usize, crate::control::TrafficSignalControl)>,
) -> (r: bool)
    ensures
        r == views_wf(lanes@, sign_entries(signs@), signal_entries(signals@)),
        r ==> alist_wf(lanes@) && alist_wf(signs@) && alist_wf(signals@) && (forall|i: int|
            0 <= i < signs@.len() ==> (#[trigger] signs@[i]).1.wf()) && (forall|i: int|
            0 <= i < signals@.len() ==> (#[trigger] signals@[i]).1.wf()),
{
    proof {
        lemma_keys_through_views(signs@, signals@);
    }
    if !alist_keys_sorted(lanes) {
        return false;
    }
    if !alist_keys_sorted(signs) {
        return false;
    }
    if !alist_keys_sorted(signals) {
        return false;
    }
    let n = signs.len();
    let mut i: usize = 0;
    while i < n
        invariant
            n == signs@.len(),
            0 <= i <= n,
            forall|q: int| 0 <= q < i ==> alist_wf((#[trigger] sign_entries(signs@)[q]).1),
        decreases n - i,
    {
        if !alist_keys_sorted(&signs[i].1.turns) {
            proof {
                assert(sign_entries(signs@)[i as int].1 == signs@[i as int].1@);
            }
            return false;
        }
        proof {
            assert(sign_entries(signs@)[i as int].1 == signs@[i as int].1@);
        }
        i = i + 1;
    }
    let m = signals.len();
    let mut i: usize = 0;
    while i < m
        invariant
            m == signals@.len(),
            0 <= i <= m,
            forall|q: int, j: int|
                0 <= q < i && 0 <= j < signal_entries(signals@)[q].1.len() ==> strictly_increasing(
                    #[trigger] signal_entries(signals@)[q].1[j],
                ),
        decreases m - i,
    {
        let phases = &signals[i].1.phases;
        let pn = phases.len();
        let mut j: usize = 0;
        while j < pn
            invariant
                pn == phases@.len(),
                phases@ == signals@[i as int].1.phases@,
                i < signals@.len(),
                0 <= j <= pn,
                forall|q: int|
                    0 <= q < j ==> strictly_increasing(#[trigger] phases@[q].protected@),
            decreases pn - j,
        {
            if !ids_sorted(&phases[j].protected) {
                proof {
                    assert(signal_entries(signals@)[i as int].1 == signals@[i as int].1@);
                    assert(signals@[i as int].1@[j as int] == phases@[j as int].protected@);
                }
                return false;
            }
            j = j + 1;
        }
        proof {
            assert(signal_entries(signals@)[i as int].1 == signals@[i as int].1@);
            assert forall|jj: int| 0 <= jj < signal_entries(signals@)[i as int].1.len()
                implies strictly_increasing(
                #[trigger] signal_entries(signals@)[i as int].1[jj],
            ) by {
                assert(signals@[i as int].1@[jj] == phases@[jj].protected@);
            }
        }
        i = i + 1;
    }
    proof {
        assert forall|q: int| 0 <= q < signs@.len() implies (#[trigger] signs@[q]).1.wf() by {
            assert(sign_entries(signs@)[q].1 == signs@[q].1@);
        }
        assert forall|q: int| 0 <= q < signals@.len() implies (#[trigger] signals@[q]).1.wf() by {
            assert(signal_entries(signals@)[q].1 == signals@[q].1@);
            let c = signals@[q].1;
            assert forall|j: int| 0 <= j < c.phases@.len() implies (#[trigger] c.phases@[j]).wf() by {
                assert(c@[j] == c.phases@[j].protected@);
                assert(strictly_increasing(signal_entries(signals@)[q].1[j]));
            }
        }
    }
    true
}

/// Keys are unchanged by reading tables as plain data.
proof fn lemma_keys_through_views(
    g: Seq<(usize, crate::control::StopSignControl)>,
    t: Seq<(usize, crate::control::TrafficSignalControl)>,
)
    ensures
        alist_keys(sign_entries(g)) =~= alist_keys(g),
        alist_keys(signal_entries(t)) =~= alist_keys(t),
        alist_wf(sign_entries(g)) == alist_wf(g),
        alist_wf(signal_entries(t)) == alist_wf(t),
{
    assert forall|i: int| 0 <= i < g.len() implies #[trigger] alist_keys(sign_entries(g))[i]
        == alist_keys(g)[i] by {
        assert(sign_entries(g)[i] == (g[i].0, g[i].1@));
        assert(alist_keys(g)[i] == g[i].0);
    }
    assert forall|i: int| 0 <= i < t.len() implies #[trigger] alist_keys(signal_entries(t))[i]
        == alist_keys(t)[i] by {
        assert(signal_entries(t)[i] == (t[i].0, t[i].1@));
        assert(alist_keys(t)[i] == t[i].0);
    }
    assert(alist_keys(sign_entries(g)) =~= alist_keys(g));
    assert(alist_keys(signal_entries(t)) =~= alist_keys(t));
}

/// Replacing the entry at the index carrying `name` leaves every other
/// name's record alone.
proof fn lemma_entry_update(
    s0: Seq<(String, Vec<u8>)>,
    s2: Seq<(String, Vec<u8>)>,
    i: int,
    name: Seq<char>,
)
    requires
        forall|a: int, b: int| 0 <= a < b < s0.len() ==> (#[trigger] s0[a]).0@ != (
        #[trigger] s0[b]).0@,
        0 <= i < s0.len(),
        s0[i].0@ == name,
        s2.len() == s0.len(),
        s2[i].0@ == name,
        forall|q: int| 0 <= q < s0.len() && q != i ==> #[trigger] s2[q] == s0[q],
    ensures
        forall|a: int, b: int| 0 <= a < b < s2.len() ==> (#[trigger] s2[a]).0@ != (
        #[trigger] s2[b]).0@,
        entry_for(s2, name) == Some(s2[i].1@),
        forall|n: Seq<char>| n != name ==> #[trigger] entry_for(s2, n) == entry_for(s0, n),
{
    assert forall|a: int, b: int| 0 <= a < b < s2.len() implies (#[trigger] s2[a]).0@ != (
    #[trigger] s2[b]).0@ by {
        assert(s0[a].0@ != s0[b].0@);
        if a != i {
            assert(s2[a] == s0[a]);
        }
        if b != i {
            assert(s2[b] == s0[b]);
        }
    }
    assert(entry_for(s2, name) == Some(s2[i].1@)) by {
        assert(0 <= i < s2.len() && s2[i].0@ == name);
        let j = choose|j: int| 0 <= j < s2.len() && (#[trigger] s2[j]).0@ == name;
        if j != i {
            assert(s2[j].0@ != s2[i].0@ || s2[i].0@ != s2[j].0@) by {
                if j < i {
                    assert(s2[j].0@ != s2[i].0@);
                } else {
                    assert(s2[i].0@ != s2[j].0@);
                }
            }
        }
    }
    assert forall|n: Seq<char>| n != name implies #[trigger] entry_for(s2, n) == entry_for(
        s0,
        n,
    ) by {
        if exists|q: int| 0 <= q < s2.len() && (#[trigger] s2[q]).0@ == n {
            let q = choose|q: int| 0 <= q < s2.len() && (#[trigger] s2[q]).0@ == n;
            assert(q != i);
            assert(s2[q] == s0[q]);
            let q0 = choose|q0: int| 0 <= q0 < s0.len() && (#[trigger] s0[q0]).0@ == n;
            if q0 != q {
                if q0 < q {
                    assert(s0[q0].0@ != s0[q].0@);
                } else {
                    assert(s0[q].0@ != s0[q0].0@);
                }
            }
            assert(q0 != i);
            assert(s2[q0] == s0[q0]);
        } else {
            if exists|q: int| 0 <= q < s0.len() && (#[trigger] s0[q]).0@ == n {
                let q = choose|q: int| 0 <= q < s0.len() && (#[trigger] s0[q]).0@ == n;
                assert(q != i);
                assert(s2[q] == s0[q]);
            }
        }
    }
}

/// Appending a fresh name adds its record and leaves the others alone.
proof fn lemma_entry_push(s0: Seq<(String, Vec<u8>)>, s2: Seq<(String, Vec<u8>)>, name: Seq<char>)
    requires
        forall|a: int, b: int| 0 <= a < b < s0.len() ==> (#[trigger] s0[a]).0@ != (
        #[trigger] s0[b]).0@,
        forall|q: int| 0 <= q < s0.len() ==> (#[trigger] s0[q]).0@ != name,
        s2.len() == s0.len() + 1,
        s2.last().0@ == name,
        forall|q: int| 0 <= q < s0.len() ==> #[trigger] s2[q] == s0[q],
    ensures
        forall|a: int, b: int| 0 <= a < b < s2.len() ==> (#[trigger] s2[a]).0@ != (
        #[trigger] s2[b]).0@,
        entry_for(s2, name) == Some(s2.last().1@),
        forall|n: Seq<char>| n != name ==> #[trigger] entry_for(s2, n) == entry_for(s0, n),
{
    let last = s2.len() - 1;
    assert forall|a: int, b: int| 0 <= a < b < s2.len() implies (#[trigger] s2[a]).0@ != (
    #[trigger] s2[b]).0@ by {
        if b < last {
            assert(s2[a] == s0[a] && s2[b] == s0[b]);
            assert(s0[a].0@ != s0[b].0@);
        } else {
            assert(s2[a] == s0[a]);
            assert(s0[a].0@ != name);
        }
    }
    assert(entry_for(s2, name) == Some(s2.last().1@)) by {
        assert(0 <= last < s2.len() && s2[last].0@ == name);
        let j = choose|j: int| 0 <= j < s2.len() && (#[trigger] s2[j]).0@ == name;
        if j != last {
            assert(s2[j] == s0[j]);
            assert(s0[j].0@ != name);
        }
    }
    assert forall|n: Seq<char>| n != name implies #[trigger] entry_for(s2, n) == entry_for(
        s0,
        n,
    ) by {
        if exists|q: int| 0 <= q < s2.len() && (#[trigger] s2[q]).0@ == n {
            let q = choose|q: int| 0 <= q < s2.len() && (#[trigger] s2[q]).0@ == n;
            assert(q != last);
            assert(s2[q] == s0[q]);
            let q0 = choose|q0: int| 0 <= q0 < s0.len() && (#[trigger] s0[q0]).0@ == n;
            if q0 != q {
                if q0 < q {
                    assert(s0[q0].0@ != s0[q].0@);
                } else {
                    assert(s0[q].0@ != s0[q0].0@);
                }
            }
            assert(s2[q0] == s0[q0]);
        } else {
            if exists|q: int| 0 <= q < s0.len() && (#[trigger] s0[q]).0@ == n {
                let q = choose|q: int| 0 <= q < s0.len() && (#[trigger] s0[q]).0@ == n;
                assert(s2[q] == s0[q]);
            }
        }
    }
}

/// The entry found by scanning is the entry the store addresses.
proof fn lemma_entry_found(s: Seq<(String, Vec<u8>)>, i: int, name: Seq<char>)
    requires
        forall|a: int, b: int| 0 <= a < b < s.len() ==> (#[trigger] s[a]).0@ != (
        #[trigger] s[b]).0@,
        0 <= i < s.len(),
        s[i].0@ == name,
    ensures
        entry_for(s, name) == Some(s[i].1@),
{
    assert(0 <= i < s.len() && s[i].0@ == name);
    let j = choose|j: int| 0 <= j < s.len() && (#[trigger] s[j]).0@ == name;
    if j != i {
        if j < i {
            assert(s[j].0@ != s[i].0@);
        } else {
            assert(s[i].0@ != s[j].0@);
        }
    }
}

/// Compare two names.
fn string_eq(a: &String, b: &String) -> (r: bool)
    ensures
        r == (a@ == b@),
{
    a.eq(b)
}

/// The save flow's first step: a record still carrying the fresh
/// overlay name must be renamed before it can be persisted; with no
/// name supplied nothing may be written.
pub enum PrepareSave {
    /// The caller must supply a name first; nothing was changed.
    NeedsName,
    /// This record may be handed to `save_record`.
    Ready(MapEdits),
}

/// Decide what saving `edits` requires. A record named `no_edits` is
/// renamed to the supplied name first; if none is supplied the flow
/// stops and nothing is written. Any other record is ready as it is.
pub fn prepare_save(edits: &MapEdits, new_name: Option<String>) -> (r: PrepareSave)
    requires
        edits.wf(),
        new_name matches Some(n) ==> n@ != default_edits_name(),
    ensures
        match r {
            PrepareSave::NeedsName => edits.edits_name@ == default_edits_name()
                && new_name is None,
            PrepareSave::Ready(e) => {
                &&& e.wf()
                &&& e.edits_name@ != default_edits_name()
                &&& e.lane_overrides@ == edits.lane_overrides@
                &&& sign_entries(e.stop_sign_overrides@) == sign_entries(
                    edits.stop_sign_overrides@,
                )
                &&& signal_entries(e.traffic_signal_overrides@) == signal_entries(
                    edits.traffic_signal_overrides@,
                )
                &&& (edits.edits_name@ == default_edits_name() ==> (new_name matches Some(n)
                    && e.edits_name@ == n@))
                &&& (edits.edits_name@ != default_edits_name() ==> e.edits_name@
                    == edits.edits_name@)
            },
        },
{
    let fresh = String::from_str("no_edits");
    if string_eq(&edits.edits_name, &fresh) {
        match new_name {
            Some(n) => PrepareSave::Ready(edits.renamed(n)),
            None => PrepareSave::NeedsName,
        }
    } else {
        PrepareSave::Ready(edits.renamed(clone_string(&edits.edits_name)))
    }
}

} // verus!

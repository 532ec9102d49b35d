//! Serialisation of an overlay record: a flat token stream of 64-bit
//! words, laid out canonically, then little-endian bytes. The parser is
//! the exact inverse of the writer, which is what makes stored records
//! round-trip byte for byte.

use vstd::bytes::lemma_auto_spec_u64_to_from_le_bytes;
use vstd::bytes::spec_u64_from_le_bytes;
use vstd::bytes::spec_u64_to_le_bytes;
use vstd::bytes::u64_from_le_bytes;
use vstd::bytes::u64_to_le_bytes;
use vstd::prelude::*;
use vstd::slice::slice_subrange;

use crate::control::Phase;
use crate::control::StopSignControl;
use crate::control::TrafficSignalControl;
use crate::control::TurnPriority;
use crate::edits::sign_entries;
use crate::edits::signal_entries;
use crate::edits::MapEdits;
use crate::lanes::LaneType;

verus! {

/// Wire tag of a lane type.
pub open spec fn lane_tag(t: LaneType) -> u64 {
    match t {
        LaneType::Driving => 0,
        LaneType::Parking => 1,
        LaneType::Biking => 2,
        LaneType::Bus => 3,
        LaneType::Sidewalk => 4,
    }
}

/// The lane type a wire tag stands for.
pub open spec fn lane_untag(x: u64) -> Option<LaneType> {
    if x == 0 {
        Some(LaneType::Driving)
    } else if x == 1 {
        Some(LaneType::Parking)
    } else if x == 2 {
        Some(LaneType::Biking)
    } else if x == 3 {
        Some(LaneType::Bus)
    } else if x == 4 {
        Some(LaneType::Sidewalk)
    } else {
        None
    }
}

/// Wire tag of a turn priority.
pub open spec fn priority_tag(p: TurnPriority) -> u64 {
    match p {
        TurnPriority::Banned => 0,
        TurnPriority::Stop => 1,
        TurnPriority::Yield => 2,
        TurnPriority::Priority => 3,
    }
}

/// The priority a wire tag stands for.
pub open spec fn priority_untag(x: u64) -> Option<TurnPriority> {
    if x == 0 {
        Some(TurnPriority::Banned)
    } else if x == 1 {
        Some(TurnPriority::Stop)
    } else if x == 2 {
        Some(TurnPriority::Yield)
    } else if x == 3 {
        Some(TurnPriority::Priority)
    } else {
        None
    }
}

fn lane_type_tag(t: LaneType) -> (r: u64)
    ensures
        r == lane_tag(t),
{
    match t {
        LaneType::Driving => 0,
        LaneType::Parking => 1,
        LaneType::Biking => 2,
        LaneType::Bus => 3,
        LaneType::Sidewalk => 4,
    }
}

fn lane_type_untag(x: u64) -> (r: Option<LaneType>)
    ensures
        r == lane_untag(x),
{
    if x == 0 {
        Some(LaneType::Driving)
    } else if x == 1 {
        Some(LaneType::Parking)
    } else if x == 2 {
        Some(LaneType::Biking)
    } else if x == 3 {
        Some(LaneType::Bus)
    } else if x == 4 {
        Some(LaneType::Sidewalk)
    } else {
        None
    }
}

fn turn_priority_tag(p: TurnPriority) -> (r: u64)
    ensures
        r == priority_tag(p),
{
    match p {
        TurnPriority::Banned => 0,
        TurnPriority::Stop => 1,
        TurnPriority::Yield => 2,
        TurnPriority::Priority => 3,
    }
}

fn turn_priority_untag(x: u64) -> (r: Option<TurnPriority>)
    ensures
        r == priority_untag(x),
{
    if x == 0 {
        Some(TurnPriority::Banned)
    } else if x == 1 {
        Some(TurnPriority::Stop)
    } else if x == 2 {
        Some(TurnPriority::Yield)
    } else if x == 3 {
        Some(TurnPriority::Priority)
    } else {
        None
    }
}

/// Tokens of a lane override table: key then tag, per entry.
pub open spec fn enc_lane_entries(s: Seq<(usize, LaneType)>) -> Seq<u64>
    decreases s.len(),
{
    if s.len() == 0 {
        Seq::empty()
    } else {
        seq![s[0].0 as u64, lane_tag(s[0].1)] + enc_lane_entries(s.skip(1))
    }
}

/// Tokens of a per-turn table: key then tag, per entry.
pub open spec fn enc_turn_entries(s: Seq<(usize, TurnPriority)>) -> Seq<u64>
    decreases s.len(),
{
    if s.len() == 0 {
        Seq::empty()
    } else {
        seq![s[0].0 as u64, priority_tag(s[0].1)] + enc_turn_entries(s.skip(1))
    }
}

/// Tokens of an id list: one token per id.
pub open spec fn enc_ids(s: Seq<usize>) -> Seq<u64>
    decreases s.len(),
{
    if s.len() == 0 {
        Seq::empty()
    } else {
        seq![s[0] as u64] + enc_ids(s.skip(1))
    }
}

/// Tokens of a phase list: per phase, its id count then its ids.
pub open spec fn enc_phases(s: Seq<Seq<usize>>) -> Seq<u64>
    decreases s.len(),
{
    if s.len() == 0 {
        Seq::empty()
    } else {
        seq![s[0].len() as u64] + enc_ids(s[0]) + enc_phases(s.skip(1))
    }
}

/// Tokens of a stop-sign override table: per entry, the intersection
/// key, the turn count, then the turn entries.
pub open spec fn enc_sign_entries(s: Seq<(usize, Seq<(usize, TurnPriority)>)>) -> Seq<u64>
    decreases s.len(),
{
    if s.len() == 0 {
        Seq::empty()
    } else {
        seq![s[0].0 as u64, s[0].1.len() as u64] + enc_turn_entries(s[0].1) + enc_sign_entries(
            s.skip(1),
        )
    }
}

/// Tokens of a signal override table: per entry, the intersection key,
/// the phase count, then the phases.
pub open spec fn enc_signal_entries(s: Seq<(usize, Seq<Seq<usize>>)>) -> Seq<u64>
    decreases s.len(),
{
    if s.len() == 0 {
        Seq::empty()
    } else {
        seq![s[0].0 as u64, s[0].1.len() as u64] + enc_phases(s[0].1) + enc_signal_entries(
            s.skip(1),
        )
    }
}

/// The whole record: each table's entry count, then its entries.
pub open spec fn enc_record(
    lanes: Seq<(usize, LaneType)>,
    signs: Seq<(usize, Seq<(usize, TurnPriority)>)>,
    signals: Seq<(usize, Seq<Seq<usize>>)>,
) -> Seq<u64> {
    seq![lanes.len() as u64] + enc_lane_entries(lanes) + seq![signs.len() as u64]
        + enc_sign_entries(signs) + seq![signals.len() as u64] + enc_signal_entries(signals)
}

/// Parse `k` lane entries from `pos`.
pub open spec fn dec_lane_entries(toks: Seq<u64>, pos: int, k: nat) -> Option<
    (Seq<(usize, LaneType)>, int),
>
    decreases k,
{
    if k == 0 {
        Some((Seq::empty(), pos))
    } else if 0 <= pos && pos + 2 <= toks.len() && toks[pos] == (toks[pos] as usize) as u64 {
        match lane_untag(toks[pos + 1]) {
            Some(lt) => match dec_lane_entries(toks, pos + 2, (k - 1) as nat) {
                Some((rest, p)) => Some((seq![(toks[pos] as usize, lt)] + rest, p)),
                None => None,
            },
            None => None,
        }
    } else {
        None
    }
}

/// Parse `k` turn entries from `pos`.
pub open spec fn dec_turn_entries(toks: Seq<u64>, pos: int, k: nat) -> Option<
    (Seq<(usize, TurnPriority)>, int),
>
    decreases k,
{
    if k == 0 {
        Some((Seq::empty(), pos))
    } else if 0 <= pos && pos + 2 <= toks.len() && toks[pos] == (toks[pos] as usize) as u64 {
        match priority_untag(toks[pos + 1]) {
            Some(p2) => match dec_turn_entries(toks, pos + 2, (k - 1) as nat) {
                Some((rest, p)) => Some((seq![(toks[pos] as usize, p2)] + rest, p)),
                None => None,
            },
            None => None,
        }
    } else {
        None
    }
}

/// Parse `k` ids from `pos`.
pub open spec fn dec_ids(toks: Seq<u64>, pos: int, k: nat) -> Option<(Seq<usize>, int)>
    decreases k,
{
    if k == 0 {
        Some((Seq::empty(), pos))
    } else if 0 <= pos && pos + 1 <= toks.len() && toks[pos] == (toks[pos] as usize) as u64 {
        match dec_ids(toks, pos + 1, (k - 1) as nat) {
            Some((rest, p)) => Some((seq![toks[pos] as usize] + rest, p)),
            None => None,
        }
    } else {
        None
    }
}

/// Parse `k` phases from `pos`.
pub open spec fn dec_phases(toks: Seq<u64>, pos: int, k: nat) -> Option<(Seq<Seq<usize>>, int)>
    decreases k,
{
    if k == 0 {
        Some((Seq::empty(), pos))
    } else if 0 <= pos && pos + 1 <= toks.len() && toks[pos] == (toks[pos] as usize) as u64 {
        match dec_ids(toks, pos + 1, (toks[pos] as usize) as nat) {
            Some((ids, p1)) => match dec_phases(toks, p1, (k - 1) as nat) {
                Some((rest, p)) => Some((seq![ids] + rest, p)),
                None => None,
            },
            None => None,
        }
    } else {
        None
    }
}

/// Parse `k` stop-sign entries from `pos`.
pub open spec fn dec_sign_entries(toks: Seq<u64>, pos: int, k: nat) -> Option<
    (Seq<(usize, Seq<(usize, TurnPriority)>)>, int),
>
    decreases k,
{
    if k == 0 {
        Some((Seq::empty(), pos))
    } else if 0 <= pos && pos + 2 <= toks.len() && toks[pos] == (toks[pos] as usize) as u64
        && toks[pos + 1] == (toks[pos + 1] as usize) as u64 {
        match dec_turn_entries(toks, pos + 2, (toks[pos + 1] as usize) as nat) {
            Some((turns, p1)) => match dec_sign_entries(toks, p1, (k - 1) as nat) {
                Some((rest, p)) => Some((seq![(toks[pos] as usize, turns)] + rest, p)),
                None => None,
            },
            None => None,
        }
    } else {
        None
    }
}

/// Parse `k` signal entries from `pos`.
pub open spec fn dec_signal_entries(toks: Seq<u64>, pos: int, k: nat) -> Option<
    (Seq<(usize, Seq<Seq<usize>>)>, int),
>
    decreases k,
{
    if k == 0 {
        Some((Seq::empty(), pos))
    } else if 0 <= pos && pos + 2 <= toks.len() && toks[pos] == (toks[pos] as usize) as u64
        && toks[pos + 1] == (toks[pos + 1] as usize) as u64 {
        match dec_phases(toks, pos + 2, (toks[pos + 1] as usize) as nat) {
            Some((phases, p1)) => match dec_signal_entries(toks, p1, (k - 1) as nat) {
                Some((rest, p)) => Some((seq![(toks[pos] as usize, phases)] + rest, p)),
                None => None,
            },
            None => None,
        }
    } else {
        None
    }
}

/// Parse a whole record; the stream must hold exactly one record.
pub open spec fn dec_record(toks: Seq<u64>) -> Option<
    (
        Seq<(usize, LaneType)>,
        Seq<(usize, Seq<(usize, TurnPriority)>)>,
        Seq<(usize, Seq<Seq<usize>>)>,
    ),
> {
    if toks.len() >= 1 && toks[0] == (toks[0] as usize) as u64 {
        match dec_lane_entries(toks, 1, (toks[0] as usize) as nat) {
            Some((lanes, p1)) => if p1 + 1 <= toks.len() && toks[p1] == (toks[p1] as usize) as u64 {
                match dec_sign_entries(toks, p1 + 1, (toks[p1] as usize) as nat) {
                    Some((signs, p2)) => if p2 + 1 <= toks.len() && toks[p2] == (toks[p2] as usize)
                        as u64 {
                        match dec_signal_entries(toks, p2 + 1, (toks[p2] as usize) as nat) {
                            Some((signals, p3)) => if p3 == toks.len() {
                                Some((lanes, signs, signals))
                            } else {
                                None
                            },
                            None => None,
                        }
                    } else {
                        None
                    },
                    None => None,
                }
            } else {
                None
            },
            None => None,
        }
    } else {
        None
    }
}

/// Parsing lane entries undoes writing them, wherever they sit in the
/// stream.
proof fn lemma_dec_lane_entries(s: Seq<(usize, LaneType)>, toks: Seq<u64>, pos: int)
    requires
        0 <= pos,
        pos + enc_lane_entries(s).len() <= toks.len(),
        toks.subrange(pos, pos + enc_lane_entries(s).len()) == enc_lane_entries(s),
    ensures
        enc_lane_entries(s).len() == 2 * s.len(),
        dec_lane_entries(toks, pos, s.len() as nat) == Some((s, pos + 2 * s.len())),
    decreases s.len(),
{
    if s.len() == 0 {
        assert(dec_lane_entries(toks, pos, 0) == Some((Seq::<(usize, LaneType)>::empty(), pos)));
        assert(s =~= Seq::<(usize, LaneType)>::empty());
    } else {
        let e = enc_lane_entries(s);
        let tail = enc_lane_entries(s.skip(1));
        assert(e.len() == 2 + tail.len());
        assert(toks[pos] == e[0] && toks[pos + 1] == e[1]) by {
            assert(toks.subrange(pos, pos + e.len())[0] == toks[pos]);
            assert(toks.subrange(pos, pos + e.len())[1] == toks[pos + 1]);
        }
        assert(toks[pos] == s[0].0 as u64);
        assert(toks[pos + 1] == lane_tag(s[0].1));
        assert((toks[pos] as usize) as u64 == toks[pos]);
        assert(lane_untag(lane_tag(s[0].1)) == Some(s[0].1));
        assert(toks.subrange(pos + 2, pos + 2 + tail.len()) == tail) by {
            assert(toks.subrange(pos + 2, pos + 2 + tail.len()) =~= toks.subrange(
                pos,
                pos + e.len(),
            ).subrange(2, e.len() as int));
            assert(e.subrange(2, e.len() as int) =~= tail);
        }
        lemma_dec_lane_entries(s.skip(1), toks, pos + 2);
        assert(seq![(toks[pos] as usize, s[0].1)] + s.skip(1) =~= s);
    }
}

/// Parsing turn entries undoes writing them.
proof fn lemma_dec_turn_entries(s: Seq<(usize, TurnPriority)>, toks: Seq<u64>, pos: int)
    requires
        0 <= pos,
        pos + enc_turn_entries(s).len() <= toks.len(),
        toks.subrange(pos, pos + enc_turn_entries(s).len()) == enc_turn_entries(s),
    ensures
        enc_turn_entries(s).len() == 2 * s.len(),
        dec_turn_entries(toks, pos, s.len() as nat) == Some((s, pos + 2 * s.len())),
    decreases s.len(),
{
    if s.len() == 0 {
        assert(s =~= Seq::<(usize, TurnPriority)>::empty());
    } else {
        let e = enc_turn_entries(s);
        let tail = enc_turn_entries(s.skip(1));
        assert(e.len() == 2 + tail.len());
        assert(toks[pos] == e[0] && toks[pos + 1] == e[1]) by {
            assert(toks.subrange(pos, pos + e.len())[0] == toks[pos]);
            assert(toks.subrange(pos, pos + e.len())[1] == toks[pos + 1]);
        }
        assert((toks[pos] as usize) as u64 == toks[pos]);
        assert(priority_untag(priority_tag(s[0].1)) == Some(s[0].1));
        assert(toks.subrange(pos + 2, pos + 2 + tail.len()) == tail) by {
            assert(toks.subrange(pos + 2, pos + 2 + tail.len()) =~= toks.subrange(
                pos,
                pos + e.len(),
            ).subrange(2, e.len() as int));
            assert(e.subrange(2, e.len() as int) =~= tail);
        }
        lemma_dec_turn_entries(s.skip(1), toks, pos + 2);
        assert(seq![(toks[pos] as usize, s[0].1)] + s.skip(1) =~= s);
    }
}

/// Parsing an id list undoes writing it.
proof fn lemma_dec_ids(s: Seq<usize>, toks: Seq<u64>, pos: int)
    requires
        0 <= pos,
        pos + enc_ids(s).len() <= toks.len(),
        toks.subrange(pos, pos + enc_ids(s).len()) == enc_ids(s),
    ensures
        enc_ids(s).len() == s.len(),
        dec_ids(toks, pos, s.len() as nat) == Some((s, pos + s.len())),
    decreases s.len(),
{
    if s.len() == 0 {
        assert(s =~= Seq::<usize>::empty());
    } else {
        let e = enc_ids(s);
        let tail = enc_ids(s.skip(1));
        assert(e.len() == 1 + tail.len());
        assert(toks[pos] == e[0]) by {
            assert(toks.subrange(pos, pos + e.len())[0] == toks[pos]);
        }
        assert((toks[pos] as usize) as u64 == toks[pos]);
        assert(toks.subrange(pos + 1, pos + 1 + tail.len()) == tail) by {
            assert(toks.subrange(pos + 1, pos + 1 + tail.len()) =~= toks.subrange(
                pos,
                pos + e.len(),
            ).subrange(1, e.len() as int));
            assert(e.subrange(1, e.len() as int) =~= tail);
        }
        lemma_dec_ids(s.skip(1), toks, pos + 1);
        assert(seq![toks[pos] as usize] + s.skip(1) =~= s);
    }
}

/// Parsing a phase list undoes writing it.
proof fn lemma_dec_phases(s: Seq<Seq<usize>>, toks: Seq<u64>, pos: int)
    requires
        forall|i: int| 0 <= i < s.len() ==> (#[trigger] s[i]).len() <= usize::MAX,
        0 <= pos,
        pos + enc_phases(s).len() <= toks.len(),
        toks.subrange(pos, pos + enc_phases(s).len()) == enc_phases(s),
    ensures
        dec_phases(toks, pos, s.len() as nat) == Some((s, pos + enc_phases(s).len())),
    decreases s.len(),
{
    if s.len() == 0 {
        assert(s =~= Seq::<Seq<usize>>::empty());
    } else {
        let e = enc_phases(s);
        let ids = enc_ids(s[0]);
        let tail = enc_phases(s.skip(1));
        assert(e =~= seq![s[0].len() as u64] + ids + tail);
        assert(toks[pos] == e[0]) by {
            assert(toks.subrange(pos, pos + e.len())[0] == toks[pos]);
        }
        assert(toks[pos] == s[0].len() as u64);
        assert((toks[pos] as usize) as u64 == toks[pos]);
        assert(toks.subrange(pos + 1, pos + 1 + ids.len()) == ids) by {
            assert(toks.subrange(pos + 1, pos + 1 + ids.len()) =~= toks.subrange(
                pos,
                pos + e.len(),
            ).subrange(1, 1 + ids.len() as int));
            assert(e.subrange(1, 1 + ids.len() as int) =~= ids);
        }
        lemma_dec_ids(s[0], toks, pos + 1);
        let p1 = pos + 1 + s[0].len();
        assert(toks.subrange(p1, p1 + tail.len()) == tail) by {
            assert(ids.len() == s[0].len());
            assert(toks.subrange(p1, p1 + tail.len()) =~= toks.subrange(pos, pos + e.len())
                .subrange(1 + ids.len() as int, e.len() as int));
            assert(e.subrange(1 + ids.len() as int, e.len() as int) =~= tail);
        }
        lemma_dec_phases(s.skip(1), toks, p1);
        assert(seq![s[0]] + s.skip(1) =~= s);
    }
}

/// Parsing stop-sign entries undoes writing them.
proof fn lemma_dec_sign_entries(
    s: Seq<(usize, Seq<(usize, TurnPriority)>)>,
    toks: Seq<u64>,
    pos: int,
)
    requires
        forall|i: int| 0 <= i < s.len() ==> (#[trigger] s[i]).1.len() <= usize::MAX,
        0 <= pos,
        pos + enc_sign_entries(s).len() <= toks.len(),
        toks.subrange(pos, pos + enc_sign_entries(s).len()) == enc_sign_entries(s),
    ensures
        dec_sign_entries(toks, pos, s.len() as nat) == Some((s, pos + enc_sign_entries(s).len())),
    decreases s.len(),
{
    if s.len() == 0 {
        assert(s =~= Seq::<(usize, Seq<(usize, TurnPriority)>)>::empty());
    } else {
        let e = enc_sign_entries(s);
        let turns = enc_turn_entries(s[0].1);
        let tail = enc_sign_entries(s.skip(1));
        assert(e =~= seq![s[0].0 as u64, s[0].1.len() as u64] + turns + tail);
        assert(toks[pos] == e[0] && toks[pos + 1] == e[1]) by {
            assert(toks.subrange(pos, pos + e.len())[0] == toks[pos]);
            assert(toks.subrange(pos, pos + e.len())[1] == toks[pos + 1]);
        }
        assert((toks[pos] as usize) as u64 == toks[pos]);
        assert((toks[pos + 1] as usize) as u64 == toks[pos + 1]);
        assert(toks.subrange(pos + 2, pos + 2 + turns.len()) == turns) by {
            assert(toks.subrange(pos + 2, pos + 2 + turns.len()) =~= toks.subrange(
                pos,
                pos + e.len(),
            ).subrange(2, 2 + turns.len() as int));
            assert(e.subrange(2, 2 + turns.len() as int) =~= turns);
        }
        lemma_dec_turn_entries(s[0].1, toks, pos + 2);
        let p1 = pos + 2 + 2 * s[0].1.len();
        assert(toks.subrange(p1, p1 + tail.len()) == tail) by {
            assert(turns.len() == 2 * s[0].1.len());
            assert(toks.subrange(p1, p1 + tail.len()) =~= toks.subrange(pos, pos + e.len())
                .subrange(2 + turns.len() as int, e.len() as int));
            assert(e.subrange(2 + turns.len() as int, e.len() as int) =~= tail);
        }
        lemma_dec_sign_entries(s.skip(1), toks, p1);
        assert(seq![(toks[pos] as usize, s[0].1)] + s.skip(1) =~= s);
    }
}

/// Parsing signal entries undoes writing them.
proof fn lemma_dec_signal_entries(s: Seq<(usize, Seq<Seq<usize>>)>, toks: Seq<u64>, pos: int)
    requires
        forall|i: int| 0 <= i < s.len() ==> (#[trigger] s[i]).1.len() <= usize::MAX,
        forall|i: int, j: int|
            0 <= i < s.len() && 0 <= j < s[i].1.len() ==> (#[trigger] s[i].1[j]).len()
                <= usize::MAX,
        0 <= pos,
        pos + enc_signal_entries(s).len() <= toks.len(),
        toks.subrange(pos, pos + enc_signal_entries(s).len()) == enc_signal_entries(s),
    ensures
        dec_signal_entries(toks, pos, s.len() as nat) == Some(
            (s, pos + enc_signal_entries(s).len()),
        ),
    decreases s.len(),
{
    if s.len() == 0 {
        assert(s =~= Seq::<(usize, Seq<Seq<usize>>)>::empty());
    } else {
        let e = enc_signal_entries(s);
        let ph = enc_phases(s[0].1);
        let tail = enc_signal_entries(s.skip(1));
        assert(e =~= seq![s[0].0 as u64, s[0].1.len() as u64] + ph + tail);
        assert(toks[pos] == e[0] && toks[pos + 1] == e[1]) by {
            assert(toks.subrange(pos, pos + e.len())[0] == toks[pos]);
            assert(toks.subrange(pos, pos + e.len())[1] == toks[pos + 1]);
        }
        assert((toks[pos] as usize) as u64 == toks[pos]);
        assert((toks[pos + 1] as usize) as u64 == toks[pos + 1]);
        assert(toks.subrange(pos + 2, pos + 2 + ph.len()) == ph) by {
            assert(toks.subrange(pos + 2, pos + 2 + ph.len()) =~= toks.subrange(pos, pos + e.len())
                .subrange(2, 2 + ph.len() as int));
            assert(e.subrange(2, 2 + ph.len() as int) =~= ph);
        }
        lemma_dec_phases(s[0].1, toks, pos + 2);
        let p1 = pos + 2 + ph.len();
        assert(toks.subrange(p1, p1 + tail.len()) == tail) by {
            assert(toks.subrange(p1, p1 + tail.len()) =~= toks.subrange(pos, pos + e.len())
                .subrange(2 + ph.len() as int, e.len() as int));
            assert(e.subrange(2 + ph.len() as int, e.len() as int) =~= tail);
        }
        lemma_dec_signal_entries(s.skip(1), toks, p1);
        assert(seq![(toks[pos] as usize, s[0].1)] + s.skip(1) =~= s);
    }
}

/// Parsing a whole record undoes writing it: the round-trip law of the
/// wire format.
pub proof fn lemma_record_round_trip(
    lanes: Seq<(usize, LaneType)>,
    signs: Seq<(usize, Seq<(usize, TurnPriority)>)>,
    signals: Seq<(usize, Seq<Seq<usize>>)>,
)
    requires
        lanes.len() <= usize::MAX,
        signs.len() <= usize::MAX,
        signals.len() <= usize::MAX,
        forall|i: int| 0 <= i < signs.len() ==> (#[trigger] signs[i]).1.len() <= usize::MAX,
        forall|i: int| 0 <= i < signals.len() ==> (#[trigger] signals[i]).1.len() <= usize::MAX,
        forall|i: int, j: int|
            0 <= i < signals.len() && 0 <= j < signals[i].1.len() ==> (
            #[trigger] signals[i].1[j]).len() <= usize::MAX,
    ensures
        dec_record(enc_record(lanes, signs, signals)) == Some((lanes, signs, signals)),
{
    let toks = enc_record(lanes, signs, signals);
    let el = enc_lane_entries(lanes);
    let eg = enc_sign_entries(signs);
    let et = enc_signal_entries(signals);
    assert(toks =~= seq![lanes.len() as u64] + el + seq![signs.len() as u64] + eg + seq![
        signals.len() as u64,
    ] + et);
    assert(toks[0] == lanes.len() as u64);
    assert(toks.subrange(1, 1 + el.len() as int) == el) by {
        assert(toks.subrange(1, 1 + el.len() as int) =~= el);
    }
    lemma_dec_lane_entries(lanes, toks, 1);
    let p1: int = 1 + 2 * lanes.len() as int;
    assert(toks[p1] == signs.len() as u64);
    assert(toks.subrange(p1 + 1, p1 + 1 + eg.len() as int) == eg) by {
        assert(el.len() == 2 * lanes.len());
        assert(toks.subrange(p1 + 1, p1 + 1 + eg.len() as int) =~= eg);
    }
    lemma_dec_sign_entries(signs, toks, p1 + 1);
    let p2: int = p1 + 1 + eg.len() as int;
    assert(toks[p2] == signals.len() as u64);
    assert(toks.subrange(p2 + 1, p2 + 1 + et.len() as int) == et) by {
        assert(toks.subrange(p2 + 1, p2 + 1 + et.len() as int) =~= et);
    }
    lemma_dec_signal_entries(signals, toks, p2 + 1);
    assert(p2 + 1 + et.len() == toks.len());
}

/// Bytes of a token stream: eight little-endian bytes per token.
pub open spec fn words_to_bytes_spec(s: Seq<u64>) -> Seq<u8>
    decreases s.len(),
{
    if s.len() == 0 {
        Seq::empty()
    } else {
        spec_u64_to_le_bytes(s[0]) + words_to_bytes_spec(s.skip(1))
    }
}

/// Token stream of a byte string whose length is a multiple of eight.
pub open spec fn bytes_to_words_spec(b: Seq<u8>) -> Seq<u64>
    decreases b.len(),
{
    if b.len() < 8 {
        Seq::empty()
    } else {
        seq![spec_u64_from_le_bytes(b.take(8))] + bytes_to_words_spec(b.skip(8))
    }
}

/// Reading bytes back as tokens undoes writing tokens as bytes.
pub proof fn lemma_words_bytes_round_trip(s: Seq<u64>)
    ensures
        words_to_bytes_spec(s).len() == 8 * s.len(),
        bytes_to_words_spec(words_to_bytes_spec(s)) == s,
    decreases s.len(),
{
    lemma_auto_spec_u64_to_from_le_bytes();
    if s.len() == 0 {
        assert(bytes_to_words_spec(words_to_bytes_spec(s)) =~= s);
    } else {
        lemma_words_bytes_round_trip(s.skip(1));
        let b = words_to_bytes_spec(s);
        assert(b =~= spec_u64_to_le_bytes(s[0]) + words_to_bytes_spec(s.skip(1)));
        assert(b.take(8) =~= spec_u64_to_le_bytes(s[0]));
        assert(b.skip(8) =~= words_to_bytes_spec(s.skip(1)));
        assert(spec_u64_from_le_bytes(b.take(8)) == s[0]);
        assert(seq![s[0]] + s.skip(1) =~= s);
    }
}

/// Write a token stream as bytes.
pub fn words_to_bytes(v: &Vec<u64>) -> (r: Vec<u8>)
    ensures
        r@ == words_to_bytes_spec(v@),
{
    let n = v.len();
    let mut r: Vec<u8> = Vec::new();
    let mut i: usize = 0;
    while i < n
        invariant
            n == v@.len(),
            0 <= i <= n,
            r@ == words_to_bytes_spec(v@.take(i as int)),
        decreases n - i,
    {
        let mut w = u64_to_le_bytes(v[i]);
        r.append(&mut w);
        proof {
            lemma_words_to_bytes_push(v@.take(i as int), v@[i as int]);
            assert(v@.take(i + 1) =~= v@.take(i as int).push(v@[i as int]));
        }
        i = i + 1;
    }
    proof {
        assert(v@.take(n as int) =~= v@);
    }
    r
}

/// Writing one more token appends its eight bytes.
proof fn lemma_words_to_bytes_push(s: Seq<u64>, x: u64)
    ensures
        words_to_bytes_spec(s.push(x)) == words_to_bytes_spec(s) + spec_u64_to_le_bytes(x),
    decreases s.len(),
{
    reveal_with_fuel(words_to_bytes_spec, 3);
    if s.len() == 0 {
        assert(s.push(x)[0] == x);
        assert(s.push(x).skip(1) =~= Seq::<u64>::empty());
        assert(words_to_bytes_spec(s.push(x)) == spec_u64_to_le_bytes(x)
            + words_to_bytes_spec(Seq::<u64>::empty()));
        assert(words_to_bytes_spec(s.push(x)) =~= words_to_bytes_spec(s) + spec_u64_to_le_bytes(
            x,
        ));
    } else {
        lemma_words_to_bytes_push(s.skip(1), x);
        assert(s.push(x).skip(1) =~= s.skip(1).push(x));
        assert(s.push(x)[0] == s[0]);
        assert(words_to_bytes_spec(s.push(x)) == spec_u64_to_le_bytes(s[0])
            + words_to_bytes_spec(s.skip(1).push(x)));
        assert(words_to_bytes_spec(s) == spec_u64_to_le_bytes(s[0]) + words_to_bytes_spec(
            s.skip(1),
        ));
        assert(words_to_bytes_spec(s.push(x)) =~= words_to_bytes_spec(s) + spec_u64_to_le_bytes(
            x,
        ));
    }
}

/// Read bytes back as a token stream; `None` when the length is not a
/// multiple of eight.
pub fn bytes_to_words(b: &Vec<u8>) -> (r: Option<Vec<u64>>)
    ensures
        match r {
            Some(w) => b@.len() % 8 == 0 && w@ == bytes_to_words_spec(b@),
            None => b@.len() % 8 != 0,
        },
{
    let n = b.len();
    if n % 8 != 0 {
        return None;
    }
    let mut r: Vec<u64> = Vec::new();
    let mut i: usize = 0;
    proof {
        reveal_with_fuel(bytes_to_words_spec, 2);
        assert(b@.take(0) =~= Seq::<u8>::empty());
        assert(b@.skip(0) =~= b@);
        assert(bytes_to_words_spec(b@.take(0)) =~= Seq::<u64>::empty());
        assert(bytes_to_words_spec(b@) =~= bytes_to_words_spec(b@.take(0)) + bytes_to_words_spec(
            b@.skip(0),
        ));
    }
    while n - i >= 8
        invariant
            n == b@.len(),
            n % 8 == 0,
            0 <= i <= n,
            i % 8 == 0,
            r@ == bytes_to_words_spec(b@.take(i as int)),
            bytes_to_words_spec(b@) == bytes_to_words_spec(b@.take(i as int))
                + bytes_to_words_spec(b@.skip(i as int)),
        decreases n - i,
    {
        let chunk = slice_subrange(b.as_slice(), i, i + 8);
        let w = u64_from_le_bytes(chunk);
        r.push(w);
        proof {
            reveal_with_fuel(bytes_to_words_spec, 2);
            let pre = b@.take(i as int);
            let rest = b@.skip(i as int);
            assert(rest.len() >= 8);
            assert(rest.take(8) =~= b@.subrange(i as int, i + 8));
            assert(w == spec_u64_from_le_bytes(rest.take(8)));
            assert(bytes_to_words_spec(rest) == seq![spec_u64_from_le_bytes(rest.take(8))]
                + bytes_to_words_spec(rest.skip(8)));
            assert(b@.take(i + 8) =~= pre + rest.take(8));
            lemma_bytes_to_words_concat(pre, rest.take(8));
            assert(bytes_to_words_spec(rest.take(8)) =~= seq![
                spec_u64_from_le_bytes(rest.take(8)),
            ]) by {
                assert(rest.take(8).len() == 8);
                assert(rest.take(8).take(8) =~= rest.take(8));
                assert(rest.take(8).skip(8) =~= Seq::<u8>::empty());
                assert(bytes_to_words_spec(rest.take(8)) == seq![
                    spec_u64_from_le_bytes(rest.take(8).take(8)),
                ] + bytes_to_words_spec(rest.take(8).skip(8)));
            }
            assert(b@.skip(i + 8) =~= rest.skip(8));
            assert(r@ =~= bytes_to_words_spec(b@.take(i + 8)));
            assert(bytes_to_words_spec(b@) =~= bytes_to_words_spec(b@.take(i + 8))
                + bytes_to_words_spec(b@.skip(i + 8))) by {
                assert(bytes_to_words_spec(rest) =~= bytes_to_words_spec(rest.take(8))
                    + bytes_to_words_spec(rest.skip(8)));
            }
        }
        i = i + 8;
    }
    proof {
        reveal_with_fuel(bytes_to_words_spec, 2);
        assert(i == n);
        assert(b@.take(n as int) =~= b@);
        assert(b@.skip(n as int).len() == 0);
        assert(bytes_to_words_spec(b@.skip(n as int)) =~= Seq::<u64>::empty());
        assert(r@ =~= bytes_to_words_spec(b@));
    }
    Some(r)
}

/// Token streams concatenate/// Token streams concatenate when the first part's length is a multiple
/// of eight.
proof fn lemma_bytes_to_words_concat(a: Seq<u8>, b: Seq<u8>)
    requires
        a.len() % 8 == 0,
    ensures
        bytes_to_words_spec(a + b) == bytes_to_words_spec(a) + bytes_to_words_spec(b),
    decreases a.len(),
{
    if a.len() == 0 {
        assert(a + b =~= b);
        assert(bytes_to_words_spec(a) =~= Seq::<u64>::empty());
        assert(bytes_to_words_spec(a + b) =~= bytes_to_words_spec(a) + bytes_to_words_spec(b));
    } else {
        assert(a.len() >= 8);
        lemma_bytes_to_words_concat(a.skip(8), b);
        assert((a + b).take(8) =~= a.take(8));
        assert((a + b).skip(8) =~= a.skip(8) + b);
        assert((a + b).len() >= 8);
        assert(bytes_to_words_spec(a + b) =~= bytes_to_words_spec(a) + bytes_to_words_spec(b));
    }
}


/// Writing one more lane entry appends its two tokens.
proof fn lemma_enc_lane_push(s: Seq<(usize, LaneType)>, e: (usize, LaneType))
    ensures
        enc_lane_entries(s.push(e)) == enc_lane_entries(s) + seq![e.0 as u64, lane_tag(e.1)],
    decreases s.len(),
{
    reveal_with_fuel(enc_lane_entries, 3);
    if s.len() == 0 {
        assert(s.push(e)[0] == e);
        assert(s.push(e).skip(1) =~= Seq::<(usize, LaneType)>::empty());
        assert(enc_lane_entries(s.push(e)) =~= enc_lane_entries(s) + seq![
            e.0 as u64,
            lane_tag(e.1),
        ]);
    } else {
        lemma_enc_lane_push(s.skip(1), e);
        assert(s.push(e).skip(1) =~= s.skip(1).push(e));
        assert(s.push(e)[0] == s[0]);
        assert(enc_lane_entries(s.push(e)) =~= enc_lane_entries(s) + seq![
            e.0 as u64,
            lane_tag(e.1),
        ]);
    }
}

/// Writing one more turn entry appends its two tokens.
proof fn lemma_enc_turn_push(s: Seq<(usize, TurnPriority)>, e: (usize, TurnPriority))
    ensures
        enc_turn_entries(s.push(e)) == enc_turn_entries(s) + seq![e.0 as u64, priority_tag(e.1)],
    decreases s.len(),
{
    reveal_with_fuel(enc_turn_entries, 3);
    if s.len() == 0 {
        assert(s.push(e)[0] == e);
        assert(s.push(e).skip(1) =~= Seq::<(usize, TurnPriority)>::empty());
        assert(enc_turn_entries(s.push(e)) =~= enc_turn_entries(s) + seq![
            e.0 as u64,
            priority_tag(e.1),
        ]);
    } else {
        lemma_enc_turn_push(s.skip(1), e);
        assert(s.push(e).skip(1) =~= s.skip(1).push(e));
        assert(s.push(e)[0] == s[0]);
        assert(enc_turn_entries(s.push(e)) =~= enc_turn_entries(s) + seq![
            e.0 as u64,
            priority_tag(e.1),
        ]);
    }
}

/// Writing one more id appends its token.
proof fn lemma_enc_ids_push(s: Seq<usize>, e: usize)
    ensures
        enc_ids(s.push(e)) == enc_ids(s) + seq![e as u64],
    decreases s.len(),
{
    reveal_with_fuel(enc_ids, 3);
    if s.len() == 0 {
        assert(s.push(e)[0] == e);
        assert(s.push(e).skip(1) =~= Seq::<usize>::empty());
        assert(enc_ids(s.push(e)) =~= enc_ids(s) + seq![e as u64]);
    } else {
        lemma_enc_ids_push(s.skip(1), e);
        assert(s.push(e).skip(1) =~= s.skip(1).push(e));
        assert(s.push(e)[0] == s[0]);
        assert(enc_ids(s.push(e)) =~= enc_ids(s) + seq![e as u64]);
    }
}

/// Writing one more phase appends its count and ids.
proof fn lemma_enc_phases_push(s: Seq<Seq<usize>>, p: Seq<usize>)
    ensures
        enc_phases(s.push(p)) == enc_phases(s) + seq![p.len() as u64] + enc_ids(p),
    decreases s.len(),
{
    reveal_with_fuel(enc_phases, 3);
    if s.len() == 0 {
        assert(s.push(p)[0] == p);
        assert(s.push(p).skip(1) =~= Seq::<Seq<usize>>::empty());
        assert(enc_phases(s.push(p)) =~= enc_phases(s) + seq![p.len() as u64] + enc_ids(p));
    } else {
        lemma_enc_phases_push(s.skip(1), p);
        assert(s.push(p).skip(1) =~= s.skip(1).push(p));
        assert(s.push(p)[0] == s[0]);
        assert(enc_phases(s.push(p)) =~= enc_phases(s) + seq![p.len() as u64] + enc_ids(p));
    }
}

/// Writing one more stop-sign entry appends its header and turn tokens.
proof fn lemma_enc_sign_push(
    s: Seq<(usize, Seq<(usize, TurnPriority)>)>,
    e: (usize, Seq<(usize, TurnPriority)>),
)
    ensures
        enc_sign_entries(s.push(e)) == enc_sign_entries(s) + seq![e.0 as u64, e.1.len() as u64]
            + enc_turn_entries(e.1),
    decreases s.len(),
{
    reveal_with_fuel(enc_sign_entries, 3);
    if s.len() == 0 {
        assert(s.push(e)[0] == e);
        assert(s.push(e).skip(1) =~= Seq::<(usize, Seq<(usize, TurnPriority)>)>::empty());
        assert(enc_sign_entries(s.push(e)) =~= enc_sign_entries(s) + seq![
            e.0 as u64,
            e.1.len() as u64,
        ] + enc_turn_entries(e.1));
    } else {
        lemma_enc_sign_push(s.skip(1), e);
        assert(s.push(e).skip(1) =~= s.skip(1).push(e));
        assert(s.push(e)[0] == s[0]);
        assert(enc_sign_entries(s.push(e)) =~= enc_sign_entries(s) + seq![
            e.0 as u64,
            e.1.len() as u64,
        ] + enc_turn_entries(e.1));
    }
}

/// Writing one more signal entry appends its header and phase tokens.
proof fn lemma_enc_signal_push(s: Seq<(usize, Seq<Seq<usize>>)>, e: (usize, Seq<Seq<usize>>))
    ensures
        enc_signal_entries(s.push(e)) == enc_signal_entries(s) + seq![e.0 as u64, e.1.len() as u64]
            + enc_phases(e.1),
    decreases s.len(),
{
    reveal_with_fuel(enc_signal_entries, 3);
    if s.len() == 0 {
        assert(s.push(e)[0] == e);
        assert(s.push(e).skip(1) =~= Seq::<(usize, Seq<Seq<usize>>)>::empty());
        assert(enc_signal_entries(s.push(e)) =~= enc_signal_entries(s) + seq![
            e.0 as u64,
            e.1.len() as u64,
        ] + enc_phases(e.1));
    } else {
        lemma_enc_signal_push(s.skip(1), e);
        assert(s.push(e).skip(1) =~= s.skip(1).push(e));
        assert(s.push(e)[0] == s[0]);
        assert(enc_signal_entries(s.push(e)) =~= enc_signal_entries(s) + seq![
            e.0 as u64,
            e.1.len() as u64,
        ] + enc_phases(e.1));
    }
}


/// Write an overlay record's tables as one token stream.
pub fn encode_edits(edits: &MapEdits) -> (r: Vec<u64>)
    ensures
        r@ == enc_record(
            edits.lane_overrides@,
            sign_entries(edits.stop_sign_overrides@),
            signal_entries(edits.traffic_signal_overrides@),
        ),
{
    let lanes = &edits.lane_overrides;
    let signs = &edits.stop_sign_overrides;
    let signals = &edits.traffic_signal_overrides;
    let ghost lv = lanes@;
    let ghost gv = sign_entries(signs@);
    let ghost tv = signal_entries(signals@);
    let mut toks: Vec<u64> = Vec::new();

    toks.push(lanes.len() as u64);
    let ghost base1 = seq![lv.len() as u64];
    let mut i: usize = 0;
    while i < lanes.len()
        invariant
            lv == lanes@,
            base1 == seq![lv.len() as u64],
            0 <= i <= lv.len(),
            toks@ == base1 + enc_lane_entries(lv.take(i as int)),
        decreases lanes@.len() - i,
    {
        let (key, lt) = lanes[i];
        toks.push(key as u64);
        toks.push(lane_type_tag(lt));
        proof {
            lemma_enc_lane_push(lv.take(i as int), lv[i as int]);
            assert(lv.take(i + 1) =~= lv.take(i as int).push(lv[i as int]));
            assert(toks@ =~= base1 + enc_lane_entries(lv.take(i + 1)));
        }
        i = i + 1;
    }
    proof {
        assert(lv.take(lv.len() as int) =~= lv);
    }

    toks.push(signs.len() as u64);
    let ghost base2 = base1 + enc_lane_entries(lv) + seq![gv.len() as u64];
    proof {
        assert(toks@ =~= base2);
    }
    let mut i: usize = 0;
    while i < signs.len()
        invariant
            lv == lanes@,
            gv == sign_entries(signs@),
            0 <= i <= signs@.len(),
            gv.len() == signs@.len(),
            toks@ == base2 + enc_sign_entries(gv.take(i as int)),
        decreases signs@.len() - i,
    {
        let key = signs[i].0;
        let turns = &signs[i].1.turns;
        toks.push(key as u64);
        toks.push(turns.len() as u64);
        let ghost inner_base = toks@;
        let ghost tvv = turns@;
        let mut j: usize = 0;
        while j < turns.len()
            invariant
                tvv == turns@,
                0 <= j <= tvv.len(),
                toks@ == inner_base + enc_turn_entries(tvv.take(j as int)),
            decreases turns@.len() - j,
        {
            let (tk, p) = turns[j];
            toks.push(tk as u64);
            toks.push(turn_priority_tag(p));
            proof {
                lemma_enc_turn_push(tvv.take(j as int), tvv[j as int]);
                assert(tvv.take(j + 1) =~= tvv.take(j as int).push(tvv[j as int]));
                assert(toks@ =~= inner_base + enc_turn_entries(tvv.take(j + 1)));
            }
            j = j + 1;
        }
        proof {
            assert(tvv.take(tvv.len() as int) =~= tvv);
            lemma_enc_sign_push(gv.take(i as int), gv[i as int]);
            assert(gv[i as int] == (signs@[i as int].0, signs@[i as int].1@));
            assert(gv.take(i + 1) =~= gv.take(i as int).push(gv[i as int]));
            assert(toks@ =~= base2 + enc_sign_entries(gv.take(i + 1)));
        }
        i = i + 1;
    }
    proof {
        assert(gv.take(gv.len() as int) =~= gv);
    }

    toks.push(signals.len() as u64);
    let ghost base3 = base2 + enc_sign_entries(gv) + seq![tv.len() as u64];
    proof {
        assert(toks@ =~= base3);
    }
    let mut i: usize = 0;
    while i < signals.len()
        invariant
            tv == signal_entries(signals@),
            0 <= i <= signals@.len(),
            tv.len() == signals@.len(),
            toks@ == base3 + enc_signal_entries(tv.take(i as int)),
        decreases signals@.len() - i,
    {
        let key = signals[i].0;
        let phases = &signals[i].1.phases;
        toks.push(key as u64);
        toks.push(phases.len() as u64);
        let ghost inner_base = toks@;
        let ghost pv = signals@[i as int].1@;
        proof {
            assert(pv.len() == phases@.len());
        }
        let mut j: usize = 0;
        while j < phases.len()
            invariant
                pv == signals@[i as int].1@,
                phases@ == signals@[i as int].1.phases@,
                pv.len() == phases@.len(),
                0 <= j <= pv.len(),
                toks@ == inner_base + enc_phases(pv.take(j as int)),
            decreases phases@.len() - j,
        {
            let ids = &phases[j].protected;
            toks.push(ids.len() as u64);
            let ghost ids_base = toks@;
            let ghost iv = ids@;
            proof {
                assert(pv[j as int] == phases@[j as int].protected@);
            }
            let mut q: usize = 0;
            while q < ids.len()
                invariant
                    iv == ids@,
                    0 <= q <= iv.len(),
                    toks@ == ids_base + enc_ids(iv.take(q as int)),
                decreases ids@.len() - q,
            {
                toks.push(ids[q] as u64);
                proof {
                    lemma_enc_ids_push(iv.take(q as int), iv[q as int]);
                    assert(iv.take(q + 1) =~= iv.take(q as int).push(iv[q as int]));
                    assert(toks@ =~= ids_base + enc_ids(iv.take(q + 1)));
                }
                q = q + 1;
            }
            proof {
                assert(iv.take(iv.len() as int) =~= iv);
                lemma_enc_phases_push(pv.take(j as int), pv[j as int]);
                assert(pv.take(j + 1) =~= pv.take(j as int).push(pv[j as int]));
                assert(pv[j as int] == iv);
                assert(toks@ =~= inner_base + enc_phases(pv.take(j + 1)));
            }
            j = j + 1;
        }
        proof {
            assert(pv.take(pv.len() as int) =~= pv);
            lemma_enc_signal_push(tv.take(i as int), tv[i as int]);
            assert(tv[i as int] == (signals@[i as int].0, signals@[i as int].1@));
            assert(tv.take(i + 1) =~= tv.take(i as int).push(tv[i as int]));
            assert(toks@ =~= base3 + enc_signal_entries(tv.take(i + 1)));
        }
        i = i + 1;
    }
    proof {
        assert(tv.take(tv.len() as int) =~= tv);
        assert(toks@ =~= enc_record(lv, gv, tv));
    }
    toks
}

/// Parse `k` lane entries, as the grammar reads them.
fn dec_lane_entries_exec(toks: &Vec<u64>, pos: usize, k: usize) -> (r: Option<
    (Vec<(usize, LaneType)>, usize),
>)
    requires
        pos <= toks@.len(),
    ensures
        match r {
            Some((w, p)) => p <= toks@.len() && dec_lane_entries(toks@, pos as int, k as nat)
                == Some((w@, p as int)),
            None => dec_lane_entries(toks@, pos as int, k as nat) is None,
        },
    decreases k,
{
    if k == 0 {
        return Some((Vec::new(), pos));
    }
    if toks.len() - pos < 2 {
        return None;
    }
    let key = toks[pos];
    if (key as usize) as u64 != key {
        return None;
    }
    match lane_type_untag(toks[pos + 1]) {
        None => None,
        Some(lt) => {
            match dec_lane_entries_exec(toks, pos + 2, k - 1) {
                None => None,
                Some((mut w, p)) => {
                    w.insert(0, (key as usize, lt));
                    proof {
                        assert(w@ =~= seq![(key as usize, lt)] + w@.skip(1));
                    }
                    Some((w, p))
                },
            }
        },
    }
}

/// Parse `k` turn entries, as the grammar reads them.
fn dec_turn_entries_exec(toks: &Vec<u64>, pos: usize, k: usize) -> (r: Option<
    (Vec<(usize, TurnPriority)>, usize),
>)
    requires
        pos <= toks@.len(),
    ensures
        match r {
            Some((w, p)) => p <= toks@.len() && dec_turn_entries(toks@, pos as int, k as nat)
                == Some((w@, p as int)),
            None => dec_turn_entries(toks@, pos as int, k as nat) is None,
        },
    decreases k,
{
    if k == 0 {
        return Some((Vec::new(), pos));
    }
    if toks.len() - pos < 2 {
        return None;
    }
    let key = toks[pos];
    if (key as usize) as u64 != key {
        return None;
    }
    match turn_priority_untag(toks[pos + 1]) {
        None => None,
        Some(p2) => {
            match dec_turn_entries_exec(toks, pos + 2, k - 1) {
                None => None,
                Some((mut w, p)) => {
                    w.insert(0, (key as usize, p2));
                    proof {
                        assert(w@ =~= seq![(key as usize, p2)] + w@.skip(1));
                    }
                    Some((w, p))
                },
            }
        },
    }
}

/// Parse `k` ids, as the grammar reads them.
fn dec_ids_exec(toks: &Vec<u64>, pos: usize, k: usize) -> (r: Option<(Vec<usize>, usize)>)
    requires
        pos <= toks@.len(),
    ensures
        match r {
            Some((w, p)) => p <= toks@.len() && dec_ids(toks@, pos as int, k as nat) == Some(
                (w@, p as int),
            ),
            None => dec_ids(toks@, pos as int, k as nat) is None,
        },
    decreases k,
{
    if k == 0 {
        return Some((Vec::new(), pos));
    }
    if toks.len() - pos < 1 {
        return None;
    }
    let key = toks[pos];
    if (key as usize) as u64 != key {
        return None;
    }
    match dec_ids_exec(toks, pos + 1, k - 1) {
        None => None,
        Some((mut w, p)) => {
            w.insert(0, key as usize);
            proof {
                assert(w@ =~= seq![key as usize] + w@.skip(1));
            }
            Some((w, p))
        },
    }
}

/// Parse `k` phases, as the grammar reads them.
fn dec_phases_exec(toks: &Vec<u64>, pos: usize, k: usize) -> (r: Option<(Vec<Phase>, usize)>)
    requires
        pos <= toks@.len(),
    ensures
        match r {
            Some((w, p)) => p <= toks@.len() && dec_phases(toks@, pos as int, k as nat) == Some(
                (w@.map_values(|ph: Phase| ph.protected@), p as int),
            ),
            None => dec_phases(toks@, pos as int, k as nat) is None,
        },
    decreases k,
{
    if k == 0 {
        let w: Vec<Phase> = Vec::new();
        proof {
            assert(w@.map_values(|ph: Phase| ph.protected@) =~= Seq::<Seq<usize>>::empty());
        }
        return Some((w, pos));
    }
    if toks.len() - pos < 1 {
        return None;
    }
    let cnt = toks[pos];
    if (cnt as usize) as u64 != cnt {
        return None;
    }
    match dec_ids_exec(toks, pos + 1, cnt as usize) {
        None => None,
        Some((ids, p1)) => {
            match dec_phases_exec(toks, p1, k - 1) {
                None => None,
                Some((mut w, p)) => {
                    w.insert(0, Phase { protected: ids });
                    proof {
                        assert(w@.map_values(|ph: Phase| ph.protected@) =~= seq![ids@]
                            + w@.skip(1).map_values(|ph: Phase| ph.protected@));
                    }
                    Some((w, p))
                },
            }
        },
    }
}

/// Parse `k` stop-sign entries, as the grammar reads them.
fn dec_sign_entries_exec(toks: &Vec<u64>, pos: usize, k: usize) -> (r: Option<
    (Vec<(usize, StopSignControl)>, usize),
>)
    requires
        pos <= toks@.len(),
    ensures
        match r {
            Some((w, p)) => p <= toks@.len() && dec_sign_entries(toks@, pos as int, k as nat)
                == Some((sign_entries(w@), p as int)),
            None => dec_sign_entries(toks@, pos as int, k as nat) is None,
        },
    decreases k,
{
    if k == 0 {
        let w: Vec<(usize, StopSignControl)> = Vec::new();
        proof {
            assert(sign_entries(w@) =~= Seq::<(usize, Seq<(usize, TurnPriority)>)>::empty());
        }
        return Some((w, pos));
    }
    if toks.len() - pos < 2 {
        return None;
    }
    let key = toks[pos];
    let cnt = toks[pos + 1];
    if (key as usize) as u64 != key || (cnt as usize) as u64 != cnt {
        return None;
    }
    match dec_turn_entries_exec(toks, pos + 2, cnt as usize) {
        None => None,
        Some((turns, p1)) => {
            match dec_sign_entries_exec(toks, p1, k - 1) {
                None => None,
                Some((mut w, p)) => {
                    w.insert(0, (key as usize, StopSignControl { turns }));
                    proof {
                        assert(sign_entries(w@) =~= seq![(key as usize, turns@)] + sign_entries(
                            w@.skip(1),
                        ));
                    }
                    Some((w, p))
                },
            }
        },
    }
}

/// Parse `k` signal entries, as the grammar reads them.
fn dec_signal_entries_exec(toks: &Vec<u64>, pos: usize, k: usize) -> (r: Option<
    (Vec<(usize, TrafficSignalControl)>, usize),
>)
    requires
        pos <= toks@.len(),
    ensures
        match r {
            Some((w, p)) => p <= toks@.len() && dec_signal_entries(toks@, pos as int, k as nat)
                == Some((signal_entries(w@), p as int)),
            None => dec_signal_entries(toks@, pos as int, k as nat) is None,
        },
    decreases k,
{
    if k == 0 {
        let w: Vec<(usize, TrafficSignalControl)> = Vec::new();
        proof {
            assert(signal_entries(w@) =~= Seq::<(usize, Seq<Seq<usize>>)>::empty());
        }
        return Some((w, pos));
    }
    if toks.len() - pos < 2 {
        return None;
    }
    let key = toks[pos];
    let cnt = toks[pos + 1];
    if (key as usize) as u64 != key || (cnt as usize) as u64 != cnt {
        return None;
    }
    match dec_phases_exec(toks, pos + 2, cnt as usize) {
        None => None,
        Some((phases, p1)) => {
            let ctrl = TrafficSignalControl { phases };
            match dec_signal_entries_exec(toks, p1, k - 1) {
                None => None,
                Some((mut w, p)) => {
                    proof {
                        assert(ctrl@ == ctrl.phases@.map_values(|ph: Phase| ph.protected@));
                    }
                    w.insert(0, (key as usize, ctrl));
                    proof {
                        assert(signal_entries(w@) =~= seq![(key as usize, w@[0].1@)]
                            + signal_entries(w@.skip(1)));
                    }
                    Some((w, p))
                },
            }
        },
    }
}

/// Parse a whole record from a token stream; `None` when the stream is
/// not exactly one well-shaped record.
pub fn decode_record_exec(toks: &Vec<u64>) -> (r: Option<
    (Vec<(usize, LaneType)>, Vec<(usize, StopSignControl)>, Vec<(usize, TrafficSignalControl)>),
>)
    ensures
        match r {
            Some((l, g, s)) => dec_record(toks@) == Some(
                (l@, sign_entries(g@), signal_entries(s@)),
            ),
            None => dec_record(toks@) is None,
        },
{
    if toks.len() < 1 {
        return None;
    }
    let c0 = toks[0];
    if (c0 as usize) as u64 != c0 {
        return None;
    }
    let (lanes, p1) = match dec_lane_entries_exec(toks, 1, c0 as usize) {
        Some(x) => x,
        None => {
            return None;
        },
    };
    if toks.len() - p1 < 1 {
        return None;
    }
    let c1 = toks[p1];
    if (c1 as usize) as u64 != c1 {
        return None;
    }
    let (signs, p2) = match dec_sign_entries_exec(toks, p1 + 1, c1 as usize) {
        Some(x) => x,
        None => {
            return None;
        },
    };
    if toks.len() - p2 < 1 {
        return None;
    }
    let c2 = toks[p2];
    if (c2 as usize) as u64 != c2 {
        return None;
    }
    let (signals, p3) = match dec_signal_entries_exec(toks, p2 + 1, c2 as usize) {
        Some(x) => x,
        None => {
            return None;
        },
    };
    if p3 != toks.len() {
        return None;
    }
    Some((lanes, signs, signals))
}

} // verus!

//! Association lists with strictly increasing keys: the concrete carrier
//! for every mapping the overlay stores. Sorted keys make the layout
//! canonical, so records with equal contents are laid out identically.

use vstd::prelude::*;

verus! {

/// Strictly increasing sequence of ids: sortedness plus uniqueness.
pub open spec fn strictly_increasing(s: Seq<usize>) -> bool {
    forall|i: int, j: int| 0 <= i < j < s.len() ==> s[i] < s[j]
}

/// Keys of an association list, in storage order.
pub open spec fn alist_keys<V>(s: Seq<(usize, V)>) -> Seq<usize> {
    s.map_values(|e: (usize, V)| e.0)
}

/// The mapping an association list stands for.
pub open spec fn alist_map<V>(s: Seq<(usize, V)>) -> Map<usize, V> {
    Map::new(
        |k: usize| alist_keys(s).contains(k),
        |k: usize| s[choose|i: int| 0 <= i < s.len() && s[i].0 == k].1,
    )
}

/// A well-formed association list: keys strictly increasing.
pub open spec fn alist_wf<V>(s: Seq<(usize, V)>) -> bool {
    strictly_increasing(alist_keys(s))
}

/// Each stored entry is what the mapping returns for its key.
pub proof fn lemma_alist_index<V>(s: Seq<(usize, V)>, i: int)
    requires
        alist_wf(s),
        0 <= i < s.len(),
    ensures
        alist_map(s).dom().contains(s[i].0),
        alist_map(s)[s[i].0] == s[i].1,
{
    assert(alist_keys(s)[i] == s[i].0);
    assert(alist_keys(s).contains(s[i].0));
    let j = choose|j: int| 0 <= j < s.len() && s[j].0 == s[i].0;
    assert(alist_keys(s)[j] == s[j].0);
    if i < j {
        assert(alist_keys(s)[i] < alist_keys(s)[j]);
    } else if j < i {
        assert(alist_keys(s)[j] < alist_keys(s)[i]);
    }
    assert(j == i);
}

/// A key no entry carries is outside the mapping's domain.
pub proof fn lemma_alist_absent<V>(s: Seq<(usize, V)>, k: usize)
    requires
        forall|i: int| 0 <= i < s.len() ==> (#[trigger] s[i]).0 != k,
    ensures
        !alist_map(s).dom().contains(k),
{
    if alist_keys(s).contains(k) {
        let i = choose|i: int| 0 <= i < alist_keys(s).len() && alist_keys(s)[i] == k;
        assert(s[i].0 == k);
    }
}

/// Look a key up; `None` exactly when the key has no entry.
pub fn alist_get<'a, V>(v: &'a Vec<(usize, V)>, key: usize) -> (r: Option<&'a V>)
    requires
        alist_wf(v@),
    ensures
        match r {
            Some(val) => alist_map(v@).dom().contains(key) && *val == alist_map(v@)[key],
            None => !alist_map(v@).dom().contains(key),
        },
{
    let n = v.len();
    let mut i: usize = 0;
    while i < n
        invariant
            n == v@.len(),
            0 <= i <= n,
            alist_wf(v@),
            forall|j: int| 0 <= j < i ==> (#[trigger] v@[j]).0 != key,
        decreases n - i,
    {
        if v[i].0 == key {
            proof {
                lemma_alist_index(v@, i as int);
            }
            return Some(&v[i].1);
        }
        i = i + 1;
    }
    proof {
        lemma_alist_absent(v@, key);
    }
    None
}

/// Insert or replace the entry for a key, keeping keys strictly
/// increasing; the mapping gains exactly that binding.
pub fn alist_set<V>(v: &mut Vec<(usize, V)>, key: usize, val: V)
    requires
        alist_wf(old(v)@),
    ensures
        alist_wf(final(v)@),
        alist_map(final(v)@) == alist_map(old(v)@).insert(key, val),
        final(v)@.len() <= old(v)@.len() + 1,
{
    let n = v.len();
    let mut i: usize = 0;
    while i < n && v[i].0 < key
        invariant
            n == v@.len(),
            0 <= i <= n,
            alist_wf(v@),
            v@ == old(v)@,
            forall|j: int| 0 <= j < i ==> (#[trigger] v@[j]).0 < key,
        decreases n - i,
    {
        i = i + 1;
    }
    let ghost s = old(v)@;
    if i < n && v[i].0 == key {
        v.remove(i);
        v.insert(i, (key, val));
        proof {
            assert(v@ =~= s.update(i as int, (key, val)));
            lemma_alist_update_at(s, i as int, key, val);
        }
    } else {
        v.insert(i, (key, val));
        proof {
            lemma_alist_insert_at(s, i as int, key, val);
        }
    }
}

/// Replacing the entry at the index that already carries `key` updates
/// the mapping's binding for `key` and nothing else.
proof fn lemma_alist_update_at<V>(s: Seq<(usize, V)>, i: int, key: usize, val: V)
    requires
        alist_wf(s),
        0 <= i < s.len(),
        s[i].0 == key,
    ensures
        alist_wf(s.update(i, (key, val))),
        alist_map(s.update(i, (key, val))) == alist_map(s).insert(key, val),
{
    let t = s.update(i, (key, val));
    assert(alist_keys(t) =~= alist_keys(s));
    assert(alist_map(t) =~= alist_map(s).insert(key, val)) by {
        assert forall|k: usize| alist_map(t).dom().contains(k) implies alist_map(s).insert(
            key,
            val,
        ).dom().contains(k) by {
            let j = choose|j: int| 0 <= j < t.len() && t[j].0 == k;
            if j != i {
                lemma_alist_index(s, j);
            }
        }
        assert forall|k: usize| alist_map(s).insert(key, val).dom().contains(k) implies alist_map(
            t,
        ).dom().contains(k) by {
            if k == key {
                assert(alist_keys(t)[i] == t[i].0);
                assert(alist_keys(t).contains(key));
            } else {
                assert(alist_keys(s).contains(k));
                let j = choose|j: int| 0 <= j < alist_keys(s).len() && alist_keys(s)[j] == k;
                assert(alist_keys(t)[j] == t[j].0);
                assert(alist_keys(t).contains(k));
            }
        }
        assert forall|k: usize| alist_map(t).dom().contains(k) implies alist_map(t)[k]
            == alist_map(s).insert(key, val)[k] by {
            let j = choose|j: int| 0 <= j < t.len() && t[j].0 == k;
            lemma_alist_index(t, j);
            if k == key {
                lemma_alist_index(t, i);
            } else {
                assert(j != i);
                assert(t[j] == s[j]);
                lemma_alist_index(s, j);
            }
        }
    }
}

/// Inserting a fresh entry where the scan stopped keeps keys sorted and
/// adds exactly one binding to the mapping.
proof fn lemma_alist_insert_at<V>(s: Seq<(usize, V)>, i: int, key: usize, val: V)
    requires
        alist_wf(s),
        0 <= i <= s.len(),
        forall|j: int| 0 <= j < i ==> (#[trigger] s[j]).0 < key,
        i < s.len() ==> s[i].0 > key,
    ensures
        alist_wf(s.insert(i, (key, val))),
        alist_map(s.insert(i, (key, val))) == alist_map(s).insert(key, val),
{
    let t = s.insert(i, (key, val));
    assert(t.len() == s.len() + 1);
    assert(forall|j: int| 0 <= j < i ==> t[j] == s[j]);
    assert(t[i] == (key, val));
    assert(forall|j: int| i < j < t.len() ==> t[j] == s[j - 1]);
    assert(alist_wf(t)) by {
        assert forall|a: int, b: int| 0 <= a < b < t.len() implies alist_keys(t)[a]
            < alist_keys(t)[b] by {
            assert(alist_keys(t)[a] == t[a].0);
            assert(alist_keys(t)[b] == t[b].0);
            if a < i && b == i {
            } else if a == i && b > i {
                assert(t[b].0 == s[b - 1].0);
                if b - 1 > i {
                    assert(alist_keys(s)[i] < alist_keys(s)[b - 1]);
                } else {
                    assert(b - 1 == i);
                }
            } else if a < i && b > i {
                if b - 1 > a {
                    assert(alist_keys(s)[a] < alist_keys(s)[b - 1]);
                } else {
                    assert(b - 1 == a);
                    assert(s[a].0 < key);
                    assert(i < s.len());
                }
            } else if a > i && b > i {
                assert(alist_keys(s)[a - 1] < alist_keys(s)[b - 1]);
            } else if a < i && b < i {
                assert(alist_keys(s)[a] < alist_keys(s)[b]);
            } else {
                // a == i is covered; a < b rules out the rest
                assert(alist_keys(s)[a] < alist_keys(s)[b]);
            }
        }
    }
    assert forall|j: int| 0 <= j < s.len() implies (#[trigger] s[j]).0 != key by {
        if j >= i {
            assert(alist_keys(s)[j] == s[j].0);
            if j > i {
                assert(alist_keys(s)[i] < alist_keys(s)[j]);
            }
        }
    }
    assert(alist_map(t) =~= alist_map(s).insert(key, val)) by {
        assert forall|k: usize| alist_map(t).dom().contains(k) implies alist_map(s).insert(
            key,
            val,
        ).dom().contains(k) by {
            let j = choose|j: int| 0 <= j < t.len() && t[j].0 == k;
            if j < i {
                lemma_alist_index(s, j);
            } else if j > i {
                lemma_alist_index(s, j - 1);
            }
        }
        assert forall|k: usize| alist_map(s).insert(key, val).dom().contains(k) implies alist_map(
            t,
        ).dom().contains(k) by {
            if k == key {
                assert(alist_keys(t)[i] == key);
                assert(alist_keys(t).contains(k));
            } else {
                let j = choose|j: int| 0 <= j < s.len() && s[j].0 == k;
                if j < i {
                    assert(alist_keys(t)[j] == k);
                } else {
                    assert(alist_keys(t)[j + 1] == k);
                }
                assert(alist_keys(t).contains(k));
            }
        }
        assert forall|k: usize| alist_map(t).dom().contains(k) implies alist_map(t)[k]
            == alist_map(s).insert(key, val)[k] by {
            let j = choose|j: int| 0 <= j < t.len() && t[j].0 == k;
            lemma_alist_index(t, j);
            if k == key {
                lemma_alist_index(t, i);
            } else {
                assert(j != i);
                if j < i {
                    lemma_alist_index(s, j);
                } else {
                    assert(t[j] == s[j - 1]);
                    lemma_alist_index(s, j - 1);
                }
            }
        }
    }
}

/// Drop the entry for a key, if any; the mapping loses that binding.
pub fn alist_remove<V>(v: &mut Vec<(usize, V)>, key: usize)
    requires
        alist_wf(old(v)@),
    ensures
        alist_wf(final(v)@),
        alist_map(final(v)@) == alist_map(old(v)@).remove(key),
        final(v)@.len() <= old(v)@.len(),
{
    let n = v.len();
    let mut i: usize = 0;
    while i < n && v[i].0 < key
        invariant
            n == v@.len(),
            0 <= i <= n,
            alist_wf(v@),
            v@ == old(v)@,
            forall|j: int| 0 <= j < i ==> (#[trigger] v@[j]).0 < key,
        decreases n - i,
    {
        i = i + 1;
    }
    let ghost s = old(v)@;
    if i < n && v[i].0 == key {
        v.remove(i);
        proof {
            lemma_alist_remove_at(s, i as int, key);
        }
    } else {
        proof {
            assert forall|j: int| 0 <= j < s.len() implies (#[trigger] s[j]).0 != key by {
                if j >= i {
                    if j > i {
                        assert(alist_keys(s)[i as int] < alist_keys(s)[j]);
                    }
                }
            }
            lemma_alist_absent(s, key);
            assert(alist_map(s) =~= alist_map(s).remove(key));
        }
    }
}

/// Removing the entry that carries `key` removes exactly that binding.
proof fn lemma_alist_remove_at<V>(s: Seq<(usize, V)>, i: int, key: usize)
    requires
        alist_wf(s),
        0 <= i < s.len(),
        s[i].0 == key,
    ensures
        alist_wf(s.remove(i)),
        alist_map(s.remove(i)) == alist_map(s).remove(key),
{
    let t = s.remove(i);
    assert(forall|j: int| 0 <= j < i ==> t[j] == s[j]);
    assert(forall|j: int| i <= j < t.len() ==> t[j] == s[j + 1]);
    assert(alist_wf(t)) by {
        assert forall|a: int, b: int| 0 <= a < b < t.len() implies alist_keys(t)[a]
            < alist_keys(t)[b] by {
            let a2: int = if a < i { a } else { a + 1 };
            let b2: int = if b < i { b } else { b + 1 };
            assert(t[a] == s[a2]);
            assert(t[b] == s[b2]);
            assert(alist_keys(s)[a2] < alist_keys(s)[b2]);
        }
    }
    assert(alist_map(t) =~= alist_map(s).remove(key)) by {
        assert forall|k: usize| alist_map(t).dom().contains(k) implies alist_map(s).remove(
            key,
        ).dom().contains(k) by {
            let j = choose|j: int| 0 <= j < t.len() && t[j].0 == k;
            let j2: int = if j < i { j } else { j + 1 };
            lemma_alist_index(s, j2);
            if k == key {
                assert(alist_keys(s)[j2] == key);
                assert(alist_keys(s)[i] == key);
                if j2 != i {
                    if j2 < i {
                        assert(alist_keys(s)[j2] < alist_keys(s)[i]);
                    } else {
                        assert(alist_keys(s)[i] < alist_keys(s)[j2]);
                    }
                }
            }
        }
        assert forall|k: usize| alist_map(s).remove(key).dom().contains(k) implies alist_map(
            t,
        ).dom().contains(k) by {
            let j = choose|j: int| 0 <= j < s.len() && s[j].0 == k;
            assert(j != i);
            if j < i {
                assert(alist_keys(t)[j] == k);
            } else {
                assert(alist_keys(t)[j - 1] == k);
            }
            assert(alist_keys(t).contains(k));
        }
        assert forall|k: usize| alist_map(t).dom().contains(k) implies alist_map(t)[k]
            == alist_map(s).remove(key)[k] by {
            let j = choose|j: int| 0 <= j < t.len() && t[j].0 == k;
            lemma_alist_index(t, j);
            let j2: int = if j < i { j } else { j + 1 };
            assert(t[j] == s[j2]);
            lemma_alist_index(s, j2);
        }
    }
}

/// The same association list with every value projected through `f`;
/// keys and order are kept.
pub open spec fn entry_view<V, W>(s: Seq<(usize, V)>, f: spec_fn(V) -> W) -> Seq<(usize, W)> {
    s.map_values(|e: (usize, V)| (e.0, f(e.1)))
}

/// Copy an association list of plain values entry by entry.
pub fn alist_copy<V: Copy>(v: &Vec<(usize, V)>) -> (r: Vec<(usize, V)>)
    ensures
        r@ == v@,
{
    let n = v.len();
    let mut r: Vec<(usize, V)> = Vec::new();
    let mut i: usize = 0;
    while i < n
        invariant
            n == v@.len(),
            0 <= i <= n,
            r@ =~= v@.take(i as int),
        decreases n - i,
    {
        r.push(v[i]);
        i = i + 1;
    }
    proof {
        assert(r@ =~= v@);
    }
    r
}


/// Strict order follows from each neighbour pair being ordered.
pub proof fn lemma_adjacent_increasing(s: Seq<usize>)
    requires
        forall|i: int|
            #![trigger s[i], s[i + 1]]
            0 <= i && i + 1 < s.len() ==> s[i] < s[i + 1],
    ensures
        strictly_increasing(s),
{
    assert forall|i: int, j: int| 0 <= i < j < s.len() implies s[i] < s[j] by {
        lemma_increasing_chain(s, i, j);
    }
}

/// Neighbour order chains across any gap.
proof fn lemma_increasing_chain(s: Seq<usize>, i: int, j: int)
    requires
        forall|q: int|
            #![trigger s[q], s[q + 1]]
            0 <= q && q + 1 < s.len() ==> s[q] < s[q + 1],
        0 <= i < j < s.len(),
    ensures
        s[i] < s[j],
    decreases j - i,
{
    if j == i + 1 {
        assert(s[i] < s[i + 1]);
    } else {
        lemma_increasing_chain(s, i, j - 1);
        assert(s[j - 1] < s[j - 1 + 1]);
    }
}

/// Decide whether an association list's keys are strictly increasing.
pub fn alist_keys_sorted<V>(v: &Vec<(usize, V)>) -> (r: bool)
    ensures
        r == alist_wf(v@),
{
    let n = v.len();
    if n == 0 {
        return true;
    }
    let mut i: usize = 0;
    while i + 1 < n
        invariant
            n == v@.len(),
            0 <= i < n,
            forall|q: int|
                #![trigger v@[q]]
                0 <= q && q + 1 <= i ==> v@[q].0 < v@[q + 1].0,
        decreases n - i,
    {
        if v[i].0 >= v[i + 1].0 {
            proof {
                assert(alist_keys(v@)[i as int] == v@[i as int].0);
                assert(alist_keys(v@)[i + 1] == v@[i + 1].0);
                assert(!strictly_increasing(alist_keys(v@)));
            }
            return false;
        }
        i = i + 1;
    }
    proof {
        assert forall|q: int|
            #![trigger alist_keys(v@)[q], alist_keys(v@)[q + 1]]
            0 <= q && q + 1 < alist_keys(v@).len() implies alist_keys(v@)[q] < alist_keys(
            v@,
        )[q + 1] by {
            assert(alist_keys(v@)[q] == v@[q].0);
            assert(alist_keys(v@)[q + 1] == v@[q + 1].0);
        }
        lemma_adjacent_increasing(alist_keys(v@));
    }
    true
}

/// Decide whether an id list is strictly increasing.
pub fn ids_sorted(v: &Vec<usize>) -> (r: bool)
    ensures
        r == strictly_increasing(v@),
{
    let n = v.len();
    if n == 0 {
        return true;
    }
    let mut i: usize = 0;
    while i + 1 < n
        invariant
            n == v@.len(),
            0 <= i < n,
            forall|q: int|
                #![trigger v@[q], v@[q + 1]]
                0 <= q && q + 1 <= i ==> v@[q] < v@[q + 1],
        decreases n - i,
    {
        if v[i] >= v[i + 1] {
            return false;
        }
        i = i + 1;
    }
    proof {
        lemma_adjacent_increasing(v@);
    }
    true
}

} // verus!

//! A sparse association list from cell index to a value, viewed as a
//! mathematical `Map`.  The universe stores its cell states in one of these;
//! keeping the entries in a vector gives every operation a deterministic
//! order, which the rendering contract relies on.

use vstd::prelude::*;

verus! {

/// The mathematical map held by an entry list: later entries win, so the view
/// is built by inserting the entries front to back.
pub open spec fn entries_map<V>(s: Seq<(u64, V)>) -> Map<u64, V>
    decreases s.len(),
{
    if s.len() == 0 {
        Map::empty()
    } else {
        entries_map(s.drop_last()).insert(s.last().0, s.last().1)
    }
}

/// The keys of an entry list, in entry order.
pub open spec fn keys_of<V>(s: Seq<(u64, V)>) -> Seq<u64> {
    s.map_values(|e: (u64, V)| e.0)
}

/// A well-formed entry list mentions each key at most once.
pub open spec fn wf_entries<V>(s: Seq<(u64, V)>) -> bool {
    keys_of(s).no_duplicates()
}

/// The domain of the map view is exactly the set of listed keys.
pub proof fn lemma_entries_map_dom<V>(s: Seq<(u64, V)>)
    ensures
        entries_map(s).dom() == keys_of(s).to_set(),
    decreases s.len(),
{
    broadcast use vstd::seq_lib::group_seq_properties;

    if s.len() == 0 {
        assert(entries_map(s).dom() =~= keys_of(s).to_set());
    } else {
        lemma_entries_map_dom(s.drop_last());
        assert(keys_of(s).drop_last() =~= keys_of(s.drop_last()));
        assert(keys_of(s) =~= keys_of(s).drop_last().push(s.last().0));
        assert(entries_map(s).dom() =~= keys_of(s).to_set());
    }
}

/// In a well-formed entry list, each entry gives the value that the map view
/// associates with its key.
pub proof fn lemma_entries_map_index<V>(s: Seq<(u64, V)>, i: int)
    requires
        wf_entries(s),
        0 <= i < s.len(),
    ensures
        entries_map(s).contains_key(s[i].0),
        entries_map(s)[s[i].0] == s[i].1,
    decreases s.len(),
{
    if i == s.len() - 1 {
    } else {
        assert(keys_of(s).drop_last() =~= keys_of(s.drop_last()));
        assert(wf_entries(s.drop_last()));
        lemma_entries_map_index(s.drop_last(), i);
        assert(keys_of(s)[i] != keys_of(s)[s.len() - 1]);
        assert(s[i].0 != s.last().0);
    }
}

/// Looking a key up in the map view ignores a suffix of entries whose keys
/// all differ from it.
pub proof fn lemma_entries_map_take<V>(s: Seq<(u64, V)>, i: int, k: u64)
    requires
        0 <= i <= s.len(),
        forall|j: int| i <= j < s.len() ==> (#[trigger] s[j]).0 != k,
    ensures
        entries_map(s).contains_key(k) == entries_map(s.take(i)).contains_key(k),
        entries_map(s).contains_key(k) ==> entries_map(s)[k] == entries_map(s.take(i))[k],
    decreases s.len() - i,
{
    if i == s.len() {
        assert(s.take(i) =~= s);
    } else {
        lemma_entries_map_take(s, i + 1, k);
        assert(s.take(i + 1).drop_last() =~= s.take(i));
        assert(s.take(i + 1).last() == s[i]);
    }
}

/// Replacing the value of the entry at index `i` inserts over its key in the
/// map view and leaves the key sequence unchanged.
pub proof fn lemma_entries_map_update<V>(s: Seq<(u64, V)>, i: int, v: V)
    requires
        wf_entries(s),
        0 <= i < s.len(),
    ensures
        keys_of(s.update(i, (s[i].0, v))) == keys_of(s),
        entries_map(s.update(i, (s[i].0, v))) == entries_map(s).insert(s[i].0, v),
    decreases s.len(),
{
    let t = s.update(i, (s[i].0, v));
    assert(keys_of(t) =~= keys_of(s));
    if i == s.len() - 1 {
        assert(t.drop_last() =~= s.drop_last());
        assert(entries_map(t) =~= entries_map(s).insert(s[i].0, v));
    } else {
        assert(keys_of(s).drop_last() =~= keys_of(s.drop_last()));
        assert(wf_entries(s.drop_last()));
        assert(t.drop_last() =~= s.drop_last().update(i, (s[i].0, v)));
        lemma_entries_map_update(s.drop_last(), i, v);
        assert(keys_of(s)[i] != keys_of(s)[s.len() - 1]);
        assert(s[i].0 != s.last().0);
        assert(entries_map(t) =~= entries_map(s).insert(s[i].0, v));
    }
}

/// Looks a key up by scanning the entries back to front, so that the first
/// hit is the entry the map view retains.
pub fn map_get<V: Copy>(entries: &Vec<(u64, V)>, key: u64) -> (r: Option<V>)
    ensures
        r == (if entries_map(entries@).contains_key(key) {
            Some(entries_map(entries@)[key])
        } else {
            None::<V>
        }),
{
    let ghost s = entries@;
    let mut i: usize = entries.len();
    while i > 0
        invariant
            i <= entries.len(),
            s == entries@,
            forall|j: int| i <= j < s.len() ==> (#[trigger] s[j]).0 != key,
        decreases i,
    {
        i = i - 1;
        let e = entries[i];
        if e.0 == key {
            proof {
                lemma_entries_map_take(s, i as int + 1, key);
                assert(s.take(i as int + 1).drop_last() =~= s.take(i as int));
                assert(s.take(i as int + 1).last() == s[i as int]);
            }
            return Some(e.1);
        }
    }
    proof {
        lemma_entries_map_take(s, 0, key);
        assert(s.take(0) =~= Seq::<(u64, V)>::empty());
    }
    None
}

/// Binds `key` to `value`, overwriting the existing entry if there is one and
/// appending a fresh entry otherwise.
pub fn map_set<V: Copy>(entries: &mut Vec<(u64, V)>, key: u64, value: V)
    requires
        wf_entries(old(entries)@),
    ensures
        wf_entries(final(entries)@),
        entries_map(final(entries)@) == entries_map(old(entries)@).insert(key, value),
        keys_of(final(entries)@).to_set() == keys_of(old(entries)@).to_set().insert(key),
        old(entries)@.len() <= final(entries)@.len() <= old(entries)@.len() + 1,
        final(entries)@.len() >= 1,
        entries_map(old(entries)@).contains_key(key) ==> final(entries)@.len() == old(entries)@.len(),
{
    broadcast use vstd::seq_lib::group_seq_properties;

    let ghost s = old(entries)@;
    let n = entries.len();
    let mut i: usize = 0;
    while i < n
        invariant
            n == entries.len(),
            i <= n,
            s == entries@,
            s == old(entries)@,
            wf_entries(s),
            forall|j: int| 0 <= j < i ==> (#[trigger] s[j]).0 != key,
        decreases n - i,
    {
        if entries[i].0 == key {
            let ghost idx = i as int;
            entries.set(i, (key, value));
            proof {
                lemma_entries_map_index(s, idx);
                lemma_entries_map_update(s, idx, value);
                lemma_entries_map_dom(s);
                lemma_entries_map_dom(entries@);
                assert(keys_of(entries@).to_set() =~= keys_of(s).to_set().insert(key));
            }
            return ;
        }
        i = i + 1;
    }
    entries.push((key, value));
    proof {
        assert(entries@.drop_last() =~= s);
        assert(keys_of(entries@) =~= keys_of(s).push(key));
        lemma_entries_map_dom(s);
        assert(!keys_of(s).contains(key)) by {
            if keys_of(s).contains(key) {
                let j = choose|j: int| 0 <= j < keys_of(s).len() && keys_of(s)[j] == key;
                assert(s[j].0 == key);
            }
        }
        assert(keys_of(entries@).to_set() =~= keys_of(s).to_set().insert(key));
    }
}

/// Filtering the entries of a well-formed list keeps it well formed and
/// restricts the map view to the keys whose entry satisfies the predicate.
pub proof fn lemma_entries_map_filter<V>(s: Seq<(u64, V)>, p: spec_fn((u64, V)) -> bool)
    requires
        wf_entries(s),
    ensures
        wf_entries(s.filter(p)),
        forall|k: u64|
            #[trigger] entries_map(s.filter(p)).contains_key(k) <==> (entries_map(s).contains_key(
                k,
            ) && p((k, entries_map(s)[k]))),
        forall|k: u64|
            #[trigger] entries_map(s.filter(p)).contains_key(k) ==> entries_map(s.filter(p))[k]
                == entries_map(s)[k],
    decreases s.len(),
{
    reveal(Seq::filter);
    if s.len() == 0 {
    } else {
        let d = s.drop_last();
        let last = s.last();
        assert(keys_of(s).drop_last() =~= keys_of(d));
        assert(wf_entries(d));
        lemma_entries_map_filter(d, p);
        lemma_entries_map_dom(s);
        lemma_entries_map_dom(d);
        assert(!keys_of(d).contains(last.0)) by {
            if keys_of(d).contains(last.0) {
                let j = choose|j: int| 0 <= j < keys_of(d).len() && keys_of(d)[j] == last.0;
                assert(keys_of(s)[j] == keys_of(s)[s.len() - 1]);
            }
        }
        assert(!entries_map(d).contains_key(last.0));
        assert(!entries_map(d.filter(p)).contains_key(last.0));
        if p(last) {
            assert(s.filter(p) == d.filter(p).push(last));
            assert(d.filter(p).push(last).drop_last() =~= d.filter(p));
            assert(entries_map(s.filter(p)) == entries_map(d.filter(p)).insert(last.0, last.1));
            assert(keys_of(s.filter(p)) =~= keys_of(d.filter(p)).push(last.0));
            assert(forall|k: u64|
                #[trigger] keys_of(d.filter(p)).contains(k) ==> entries_map(d.filter(p)).contains_key(k)) by {
                lemma_entries_map_dom(d.filter(p));
            }
            assert(!keys_of(d.filter(p)).contains(last.0)) by {
                lemma_entries_map_dom(d.filter(p));
            }
            assert(wf_entries(s.filter(p)));
        } else {
            assert(s.filter(p) == d.filter(p));
        }
    }
}

} // verus!

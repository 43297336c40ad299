//! Sorting map entries by the paths of their keys.
use vstd::prelude::*;
use crate::keys::{TrieKey, KeyOrder, path_lt, lemma_path_lt_total, lemma_path_lt_transitive};
use crate::path_map::{
    distinct_paths, entries_map, has_path_at, lemma_entries_map_eq, lemma_entries_map_lookup,
    lemma_entries_map_skip, lemma_entries_map_empty,
};

verus! {

/// The entries come in strictly increasing order of their key paths.
pub open spec fn sorted_by_path<K: TrieKey, V>(s: Seq<(K, V)>) -> bool {
    forall|i: int, j: int|
        #![trigger s[i], s[j]]
        0 <= i < j < s.len() ==> path_lt(s[i].0.path(), s[j].0.path())
}

/// Putting an entry for a new path anywhere among the entries adds it to the map.
pub proof fn lemma_entries_map_insert_at<K: TrieKey, V>(s: Seq<(K, V)>, p: int, e: (K, V))
    requires
        distinct_paths(s),
        0 <= p <= s.len(),
        !entries_map(s).contains_key(e.0.path()),
    ensures
        distinct_paths(s.insert(p, e)),
        entries_map(s.insert(p, e)) == entries_map(s).insert(e.0.path(), e.1),
{
    let t = s.insert(p, e);
    assert forall|a: int| 0 <= a < t.len() implies #[trigger] t[a] == (if a < p { s[a] } else if a == p { e } else { s[a - 1] }) by {}
    assert forall|i: int| 0 <= i < s.len() implies s[i].0.path() != e.0.path() by {
        lemma_entries_map_lookup(s, i);
    }
    assert(distinct_paths(t)) by {
        assert forall|a: int, b: int| 0 <= a < t.len() && 0 <= b < t.len() && a != b implies t[a].0.path() != t[b].0.path() by {
            assert(t[a] == (if a < p { s[a] } else if a == p { e } else { s[a - 1] }));
            assert(t[b] == (if b < p { s[b] } else if b == p { e } else { s[b - 1] }));
        }
    }
    let m = entries_map(s).insert(e.0.path(), e.1);
    assert forall|a: int| 0 <= a < t.len() implies #[trigger] m.contains_key(t[a].0.path()) && m[t[a].0.path()] == t[a].1 by {
        assert(t[a] == (if a < p { s[a] } else if a == p { e } else { s[a - 1] }));
        if a < p {
            lemma_entries_map_lookup(s, a);
        } else if a > p {
            lemma_entries_map_lookup(s, a - 1);
        }
    }
    assert forall|q: Seq<u8>| #[trigger] m.contains_key(q) implies exists|a: int| #[trigger] has_path_at(t, a, q) by {
        if q == e.0.path() {
            assert(has_path_at(t, p, q));
        } else {
            let i = choose|i: int| #[trigger] has_path_at(s, i, q);
            if i < p {
                assert(has_path_at(t, i, q));
            } else {
                assert(t[i + 1] == s[i]);
                assert(has_path_at(t, i + 1, q));
            }
        }
    }
    lemma_entries_map_eq(t, m);
}

/// Sorts entries whose keys have distinct paths into increasing order of those paths; the
/// entries stay the same.
pub fn sort_entries<K: TrieKey, V>(entries: Vec<(K, V)>) -> (r: Vec<(K, V)>)
    requires
        distinct_paths(entries@),
    ensures
        r@.len() == entries@.len(),
        distinct_paths(r@),
        sorted_by_path(r@),
        entries_map(r@) == entries_map(entries@),
{
    let mut rest = entries;
    let ghost orig = rest@;
    let mut sorted: Vec<(K, V)> = Vec::new();
    proof {
        lemma_entries_map_empty(sorted@);
        assert(orig.skip(orig.len() as int) =~= Seq::<(K, V)>::empty());
    }
    while rest.len() > 0
        invariant
            distinct_paths(orig),
            rest.len() <= orig.len(),
            rest@ == orig.take(rest.len() as int),
            sorted@.len() + rest@.len() == orig.len(),
            distinct_paths(sorted@),
            sorted_by_path(sorted@),
            entries_map(sorted@) == entries_map(orig.skip(rest.len() as int)),
        decreases rest.len(),
    {
        let ghost n = rest.len() as int;
        let e = rest.pop().unwrap();
        proof {
            assert(e == orig[n - 1]);
            assert(rest@ =~= orig.take(n - 1));
            lemma_entries_map_skip(orig, n);
        }
        let mut p: usize = 0;
        while p < sorted.len() && sorted[p].0.order(&e.0) == KeyOrder::Less
            invariant
                p <= sorted@.len(),
                forall|j: int| 0 <= j < p ==> path_lt(#[trigger] sorted@[j].0.path(), e.0.path()),
            decreases sorted@.len() - p,
        {
            p = p + 1;
        }
        proof {
            let s = sorted@;
            let t = s.insert(p as int, e);
            assert forall|a: int| 0 <= a < t.len() implies #[trigger] t[a] == (if a < p { s[a] } else if a == p { e } else { s[a - 1] }) by {}
            assert forall|j: int| 0 <= j < s.len() implies s[j].0.path() != e.0.path() by {
                lemma_entries_map_lookup(s, j);
            }
            if p < s.len() {
                lemma_path_lt_total(s[p as int].0.path(), e.0.path());
            }
            assert forall|j: int| p <= j < s.len() implies path_lt(e.0.path(), #[trigger] s[j].0.path()) by {
                if j > p {
                    lemma_path_lt_transitive(e.0.path(), s[p as int].0.path(), s[j].0.path());
                }
            }
            assert(sorted_by_path(t)) by {
                assert forall|a: int, b: int| 0 <= a < b < t.len() implies path_lt(t[a].0.path(), t[b].0.path()) by {
                    assert(t[a] == (if a < p { s[a] } else if a == p { e } else { s[a - 1] }));
                    assert(t[b] == (if b < p { s[b] } else if b == p { e } else { s[b - 1] }));
                    if a < p && b > p {
                        lemma_path_lt_transitive(s[a].0.path(), e.0.path(), s[b - 1].0.path());
                    }
                }
            }
            lemma_entries_map_insert_at(s, p as int, e);
        }
        sorted.insert(p, e);
    }
    proof {
        assert(orig.skip(0) =~= orig);
    }
    sorted
}

/// The keys come in strictly increasing order of their paths.
pub open spec fn sorted_keys<K: TrieKey>(s: Seq<K>) -> bool {
    forall|i: int, j: int|
        #![trigger s[i], s[j]]
        0 <= i < j < s.len() ==> path_lt(s[i].path(), s[j].path())
}

/// The values that a map of references points at.
pub open spec fn deref_map<'a, V>(m: Map<Seq<u8>, &'a V>) -> Map<Seq<u8>, V> {
    Map::new(|p: Seq<u8>| m.contains_key(p), |p: Seq<u8>| *m[p])
}

/// Entries of references that point at the entries of `s`, one for one, list what `s` lists.
pub proof fn lemma_ref_entries<'a, K: TrieKey, V>(r: Seq<(&'a K, &'a V)>, s: Seq<(K, V)>)
    requires
        distinct_paths(s),
        r.len() == s.len(),
        forall|i: int| 0 <= i < r.len() ==> *(#[trigger] r[i]).0 == s[i].0 && *r[i].1 == s[i].1,
    ensures
        distinct_paths(r),
        deref_map(entries_map(r)) == entries_map(s),
{
    assert(distinct_paths(r)) by {
        assert forall|i: int, j: int| 0 <= i < r.len() && 0 <= j < r.len() && i != j implies r[i].0.path() != r[j].0.path() by {
            assert(*r[i].0 == s[i].0 && *r[j].0 == s[j].0);
        }
    }
    assert forall|p: Seq<u8>| #[trigger] deref_map(entries_map(r)).contains_key(p) <==> entries_map(s).contains_key(p) by {
        if entries_map(r).contains_key(p) {
            let i = choose|i: int| #[trigger] has_path_at(r, i, p);
            assert(*r[i].0 == s[i].0);
            assert(has_path_at(s, i, p));
        }
        if entries_map(s).contains_key(p) {
            let i = choose|i: int| #[trigger] has_path_at(s, i, p);
            assert(*r[i].0 == s[i].0);
            assert(has_path_at(r, i, p));
        }
    }
    assert forall|p: Seq<u8>| #[trigger] deref_map(entries_map(r)).contains_key(p) implies deref_map(entries_map(r))[p] == entries_map(s)[p] by {
        let i = choose|i: int| #[trigger] has_path_at(r, i, p);
        assert(*r[i].0 == s[i].0 && *r[i].1 == s[i].1);
        lemma_entries_map_lookup(r, i);
        lemma_entries_map_lookup(s, i);
    }
    assert(deref_map(entries_map(r)) =~= entries_map(s));
}

/// References to the entries, sorted by the paths of their keys.
pub fn sort_entry_refs<'a, K: TrieKey, V>(entries: &'a Vec<(K, V)>) -> (r: Vec<(&'a K, &'a V)>)
    requires
        distinct_paths(entries@),
    ensures
        distinct_paths(r@),
        sorted_by_path(r@),
        deref_map(entries_map(r@)) == entries_map(entries@),
{
    let mut refs: Vec<(&'a K, &'a V)> = Vec::new();
    let mut i: usize = 0;
    while i < entries.len()
        invariant
            i <= entries@.len(),
            refs@.len() == i,
            forall|j: int| 0 <= j < i ==> *(#[trigger] refs@[j]).0 == entries@[j].0 && *refs@[j].1 == entries@[j].1,
        decreases entries@.len() - i,
    {
        let e = &entries[i];
        refs.push((&e.0, &e.1));
        i = i + 1;
    }
    proof {
        lemma_ref_entries(refs@, entries@);
    }
    let sorted = sort_entries(refs);
    sorted
}

/// References to the keys of a set's entries, sorted by their paths.
pub fn sort_key_refs<'a, K: TrieKey>(members: &'a Vec<(K, ())>) -> (r: Vec<&'a K>)
    requires
        distinct_paths(members@),
    ensures
        sorted_keys(r@),
        crate::path_map::distinct_keys(r@),
        crate::path_map::keys_set(r@) == entries_map(members@).dom(),
{
    let sorted = sort_entry_refs(members);
    let mut r: Vec<&'a K> = Vec::new();
    let mut i: usize = 0;
    while i < sorted.len()
        invariant
            i <= sorted@.len(),
            r@.len() == i,
            forall|j: int| 0 <= j < i ==> #[trigger] r@[j] == sorted@[j].0,
        decreases sorted@.len() - i,
    {
        r.push(sorted[i].0);
        i = i + 1;
    }
    proof {
        assert(sorted_keys(r@)) by {
            assert forall|a: int, b: int| 0 <= a < b < r@.len() implies path_lt(r@[a].path(), r@[b].path()) by {
                assert(r@[a] == sorted@[a].0 && r@[b] == sorted@[b].0);
            }
        }
        assert(crate::path_map::distinct_keys(r@)) by {
            assert forall|a: int, b: int| 0 <= a < r@.len() && 0 <= b < r@.len() && a != b implies r@[a].path() != r@[b].path() by {
                assert(r@[a] == sorted@[a].0 && r@[b] == sorted@[b].0);
            }
        }
        assert forall|p: Seq<u8>| crate::path_map::keys_set(r@).contains(p) <==> entries_map(members@).dom().contains(p) by {
            if crate::path_map::keys_set(r@).contains(p) {
                let a = choose|a: int| 0 <= a < r@.len() && #[trigger] r@[a].path() == p;
                assert(r@[a] == sorted@[a].0);
                assert(has_path_at(sorted@, a, p));
                assert(deref_map(entries_map(sorted@)).contains_key(p));
            }
            if entries_map(members@).dom().contains(p) {
                assert(deref_map(entries_map(sorted@)).contains_key(p));
                let a = choose|a: int| #[trigger] has_path_at(sorted@, a, p);
                assert(r@[a] == sorted@[a].0);
            }
        }
        assert(crate::path_map::keys_set(r@) =~= entries_map(members@).dom());
    }
    r
}

} // verus!

//! Maps and sets keyed by trie keys, held as vectors whose keys stand for distinct paths.
use vstd::prelude::*;
use crate::keys::TrieKey;
use vstd::std_specs::cmp::PartialEqSpecImpl;

verus! {

/// Entry `i` of `s` has the key path `p`.
pub open spec fn has_path_at<K: TrieKey, V>(s: Seq<(K, V)>, i: int, p: Seq<u8>) -> bool {
    0 <= i < s.len() && s[i].0.path() == p
}

/// No two entries of `s` have keys with the same path.
pub open spec fn distinct_paths<K: TrieKey, V>(s: Seq<(K, V)>) -> bool {
    forall|i: int, j: int|
        #![trigger s[i], s[j]]
        0 <= i < s.len() && 0 <= j < s.len() && i != j ==> s[i].0.path() != s[j].0.path()
}

/// The map from key paths to values that the entries `s` list.
pub open spec fn entries_map<K: TrieKey, V>(s: Seq<(K, V)>) -> Map<Seq<u8>, V> {
    Map::new(
        |p: Seq<u8>| exists|i: int| #[trigger] has_path_at(s, i, p),
        |p: Seq<u8>| s[choose|i: int| #[trigger] has_path_at(s, i, p)].1,
    )
}

/// The value of an entry is what the map it lists gives for its path.
pub proof fn lemma_entries_map_lookup<K: TrieKey, V>(s: Seq<(K, V)>, i: int)
    requires
        distinct_paths(s),
        0 <= i < s.len(),
    ensures
        entries_map(s).contains_key(s[i].0.path()),
        entries_map(s)[s[i].0.path()] == s[i].1,
{
    let p = s[i].0.path();
    assert(has_path_at(s, i, p));
    let j = choose|j: int| #[trigger] has_path_at(s, j, p);
    assert(s[j].0.path() == s[i].0.path());
}

/// A map is what the entries list when each entry agrees with it and each of its keys has an
/// entry.
pub proof fn lemma_entries_map_eq<K: TrieKey, V>(s: Seq<(K, V)>, m: Map<Seq<u8>, V>)
    requires
        distinct_paths(s),
        forall|i: int| 0 <= i < s.len() ==> #[trigger] m.contains_key(s[i].0.path()) && m[s[i].0.path()] == s[i].1,
        forall|p: Seq<u8>| #[trigger] m.contains_key(p) ==> exists|i: int| #[trigger] has_path_at(s, i, p),
    ensures
        entries_map(s) == m,
{
    assert forall|p: Seq<u8>| #[trigger] entries_map(s).contains_key(p) <==> m.contains_key(p) by {
        if entries_map(s).contains_key(p) {
            let i = choose|i: int| #[trigger] has_path_at(s, i, p);
            assert(m.contains_key(s[i].0.path()));
        }
    }
    assert forall|p: Seq<u8>| #[trigger] entries_map(s).contains_key(p) implies entries_map(s)[p] == m[p] by {
        let i = choose|i: int| #[trigger] has_path_at(s, i, p);
        lemma_entries_map_lookup(s, i);
        assert(m.contains_key(s[i].0.path()));
    }
    assert(entries_map(s) =~= m);
}

/// No entries list the empty map.
pub proof fn lemma_entries_map_empty<K: TrieKey, V>(s: Seq<(K, V)>)
    requires
        s.len() == 0,
    ensures
        entries_map(s) == Map::<Seq<u8>, V>::empty(),
        distinct_paths(s),
{
    assert(entries_map(s) =~= Map::<Seq<u8>, V>::empty());
}

/// Appending an entry for a new path adds it to the map.
pub proof fn lemma_entries_map_push<K: TrieKey, V>(s: Seq<(K, V)>, e: (K, V))
    requires
        distinct_paths(s),
        !entries_map(s).contains_key(e.0.path()),
    ensures
        distinct_paths(s.push(e)),
        entries_map(s.push(e)) == entries_map(s).insert(e.0.path(), e.1),
{
    let t = s.push(e);
    assert forall|i: int| 0 <= i < s.len() implies s[i].0.path() != e.0.path() by {
        lemma_entries_map_lookup(s, i);
    }
    assert(distinct_paths(t));
    let m = entries_map(s).insert(e.0.path(), e.1);
    assert forall|i: int| 0 <= i < t.len() implies #[trigger] m.contains_key(t[i].0.path()) && m[t[i].0.path()] == t[i].1 by {
        if i < s.len() {
            lemma_entries_map_lookup(s, i);
        }
    }
    assert forall|p: Seq<u8>| #[trigger] m.contains_key(p) implies exists|i: int| #[trigger] has_path_at(t, i, p) by {
        if p == e.0.path() {
            assert(has_path_at(t, s.len() as int, p));
        } else {
            let i = choose|i: int| #[trigger] has_path_at(s, i, p);
            assert(has_path_at(t, i, p));
        }
    }
    lemma_entries_map_eq(t, m);
}

/// Taking one more entry off the front of the suffix adds that entry to the map of the suffix.
pub proof fn lemma_entries_map_skip<K: TrieKey, V>(s: Seq<(K, V)>, n: int)
    requires
        distinct_paths(s),
        0 < n <= s.len(),
    ensures
        distinct_paths(s.skip(n - 1)),
        distinct_paths(s.skip(n)),
        !entries_map(s.skip(n)).contains_key(s[n - 1].0.path()),
        entries_map(s.skip(n - 1)) == entries_map(s.skip(n)).insert(s[n - 1].0.path(), s[n - 1].1),
{
    let a = s.skip(n - 1);
    let b = s.skip(n);
    assert(distinct_paths(a)) by {
        assert forall|i: int, j: int| 0 <= i < a.len() && 0 <= j < a.len() && i != j implies a[i].0.path() != a[j].0.path() by {
            assert(a[i] == s[i + n - 1] && a[j] == s[j + n - 1]);
        }
    }
    assert(distinct_paths(b)) by {
        assert forall|i: int, j: int| 0 <= i < b.len() && 0 <= j < b.len() && i != j implies b[i].0.path() != b[j].0.path() by {
            assert(b[i] == s[i + n] && b[j] == s[j + n]);
        }
    }
    if entries_map(b).contains_key(s[n - 1].0.path()) {
        let i = choose|i: int| #[trigger] has_path_at(b, i, s[n - 1].0.path());
        assert(b[i] == s[i + n]);
        assert(false);
    }
    assert(b =~= a.drop_first());
    let m = entries_map(b).insert(s[n - 1].0.path(), s[n - 1].1);
    assert forall|i: int| 0 <= i < a.len() implies #[trigger] m.contains_key(a[i].0.path()) && m[a[i].0.path()] == a[i].1 by {
        if i > 0 {
            assert(a[i] == b[i - 1]);
            lemma_entries_map_lookup(b, i - 1);
        }
    }
    assert forall|p: Seq<u8>| #[trigger] m.contains_key(p) implies exists|i: int| #[trigger] has_path_at(a, i, p) by {
        if p == s[n - 1].0.path() {
            assert(has_path_at(a, 0, p));
        } else {
            let i = choose|i: int| #[trigger] has_path_at(b, i, p);
            assert(a[i + 1] == b[i]);
            assert(has_path_at(a, i + 1, p));
        }
    }
    lemma_entries_map_eq(a, m);
}

/// One more entry of the prefix adds that entry to the map of the prefix.
pub proof fn lemma_entries_map_take<K: TrieKey, V>(s: Seq<(K, V)>, i: int)
    requires
        distinct_paths(s),
        0 <= i < s.len(),
    ensures
        distinct_paths(s.take(i)),
        distinct_paths(s.take(i + 1)),
        !entries_map(s.take(i)).contains_key(s[i].0.path()),
        entries_map(s.take(i + 1)) == entries_map(s.take(i)).insert(s[i].0.path(), s[i].1),
{
    let a = s.take(i);
    assert(distinct_paths(a)) by {
        assert forall|x: int, y: int| 0 <= x < a.len() && 0 <= y < a.len() && x != y implies a[x].0.path() != a[y].0.path() by {
            assert(a[x] == s[x] && a[y] == s[y]);
        }
    }
    if entries_map(a).contains_key(s[i].0.path()) {
        let x = choose|x: int| #[trigger] has_path_at(a, x, s[i].0.path());
        assert(a[x] == s[x]);
        assert(false);
    }
    assert(s.take(i + 1) =~= a.push(s[i]));
    lemma_entries_map_push(a, s[i]);
}

/// Dropping entry `i` drops its path from the map.
pub proof fn lemma_entries_map_remove<K: TrieKey, V>(s: Seq<(K, V)>, i: int)
    requires
        distinct_paths(s),
        0 <= i < s.len(),
    ensures
        distinct_paths(s.remove(i)),
        entries_map(s.remove(i)) == entries_map(s).remove(s[i].0.path()),
{
    let t = s.remove(i);
    assert forall|a: int| 0 <= a < t.len() implies #[trigger] t[a] == (if a < i { s[a] } else { s[a + 1] }) by {}
    assert(distinct_paths(t)) by {
        assert forall|a: int, b: int| 0 <= a < t.len() && 0 <= b < t.len() && a != b implies t[a].0.path() != t[b].0.path() by {
            let a1 = if a < i { a } else { a + 1 };
            let b1 = if b < i { b } else { b + 1 };
            assert(t[a] == s[a1] && t[b] == s[b1]);
        }
    }
    let m = entries_map(s).remove(s[i].0.path());
    assert forall|a: int| 0 <= a < t.len() implies #[trigger] m.contains_key(t[a].0.path()) && m[t[a].0.path()] == t[a].1 by {
        let a1 = if a < i { a } else { a + 1 };
        assert(t[a] == s[a1]);
        assert(s[a1].0.path() != s[i].0.path());
        lemma_entries_map_lookup(s, a1);
    }
    assert forall|p: Seq<u8>| #[trigger] m.contains_key(p) implies exists|a: int| #[trigger] has_path_at(t, a, p) by {
        let j = choose|j: int| #[trigger] has_path_at(s, j, p);
        assert(t[j - 1] == s[j] || j < i);
        if j < i {
            assert(has_path_at(t, j, p));
        } else {
            assert(j != i);
            assert(has_path_at(t, j - 1, p));
        }
    }
    lemma_entries_map_eq(t, m);
}

/// The map that entries list has finitely many keys.
pub proof fn lemma_entries_map_finite<K: TrieKey, V>(s: Seq<(K, V)>)
    ensures
        entries_map(s).dom().finite(),
        entries_map(s).dom() == s.map_values(|e: (K, V)| e.0.path()).to_set(),
{
    let ps = s.map_values(|e: (K, V)| e.0.path());
    assert(entries_map(s).dom() =~= ps.to_set()) by {
        assert forall|p: Seq<u8>| entries_map(s).dom().contains(p) implies ps.to_set().contains(p) by {
            let i = choose|i: int| #[trigger] has_path_at(s, i, p);
            assert(ps[i] == p);
        }
        assert forall|p: Seq<u8>| ps.to_set().contains(p) implies entries_map(s).dom().contains(p) by {
            let i = choose|i: int| 0 <= i < ps.len() && ps[i] == p;
            assert(has_path_at(s, i, p));
        }
    }
    vstd::seq_lib::seq_to_set_is_finite(ps);
}

/// The map that entries with distinct paths list has as many keys as there are entries.
pub proof fn lemma_entries_map_len<K: TrieKey, V>(s: Seq<(K, V)>)
    requires
        distinct_paths(s),
    ensures
        entries_map(s).dom().finite(),
        entries_map(s).len() == s.len(),
{
    let ps = s.map_values(|e: (K, V)| e.0.path());
    assert(ps.no_duplicates()) by {
        assert forall|i: int, j: int| 0 <= i < ps.len() && 0 <= j < ps.len() && i != j implies ps[i] != ps[j] by {
            assert(ps[i] == s[i].0.path() && ps[j] == s[j].0.path());
        }
    }
    lemma_entries_map_finite(s);
    ps.unique_seq_to_set();
}

/// A map from trie keys to values. Keys are told apart by their paths: two keys with the same
/// path stand for the same entry.
#[derive(Debug)]
pub struct PathMap<K: TrieKey, V> {
    entries: Vec<(K, V)>,
}

impl<K: TrieKey, V> View for PathMap<K, V> {
    type V = Map<Seq<u8>, V>;

    closed spec fn view(&self) -> Map<Seq<u8>, V> {
        entries_map(self.entries@)
    }
}

impl<K: TrieKey, V> PathMap<K, V> {
    #[verifier::type_invariant]
    spec fn keys_distinct(self) -> bool {
        distinct_paths(self.entries@)
    }

    /// The map holds finitely many keys.
    pub proof fn lemma_finite(&self)
        ensures
            self@.dom().finite(),
    {
        lemma_entries_map_finite(self.entries@);
    }

    /// An empty map.
    pub fn new() -> (r: Self)
        ensures
            r@ == Map::<Seq<u8>, V>::empty(),
    {
        let r = PathMap { entries: Vec::new() };
        proof {
            lemma_entries_map_empty(r.entries@);
        }
        r
    }

    /// The number of keys in the map.
    pub fn len(&self) -> (r: usize)
        ensures
            self@.dom().finite(),
            r == self@.len(),
    {
        proof {
            use_type_invariant(self);
            lemma_entries_map_len(self.entries@);
        }
        self.entries.len()
    }

    /// Whether the map holds no key.
    pub fn is_empty(&self) -> (r: bool)
        ensures
            r == (self@ == Map::<Seq<u8>, V>::empty()),
    {
        proof {
            use_type_invariant(self);
            lemma_entries_map_len(self.entries@);
            if self.entries@.len() == 0 {
                lemma_entries_map_empty(self.entries@);
            } else {
                lemma_entries_map_lookup(self.entries@, 0);
                assert(!Map::<Seq<u8>, V>::empty().contains_key(self.entries@[0].0.path()));
            }
        }
        self.entries.len() == 0
    }

    /// The entries of the map, each key once, in no particular order.
    pub fn entries(&self) -> (r: &Vec<(K, V)>)
        ensures
            distinct_paths(r@),
            entries_map(r@) == self@,
    {
        proof {
            use_type_invariant(self);
        }
        &self.entries
    }

    /// Gives up the map for its entries, each key once, in no particular order.
    pub fn into_entries(self) -> (r: Vec<(K, V)>)
        ensures
            distinct_paths(r@),
            entries_map(r@) == self@,
    {
        proof {
            use_type_invariant(&self);
        }
        self.entries
    }

    /// Moves the entries out, leaving the map empty.
    fn take_entries(&mut self) -> (r: Vec<(K, V)>)
        ensures
            r@ == old(self).entries@,
            final(self).entries@ == Seq::<(K, V)>::empty(),
    {
        let mut r: Vec<(K, V)> = Vec::new();
        std::mem::swap(&mut r, &mut self.entries);
        r
    }

    /// The index of the entry whose key has the path of `key`.
    fn position(&self, key: &K) -> (r: Option<usize>)
        ensures
            match r {
                Some(i) => i < self.entries@.len() && self.entries@[i as int].0.path() == key.path(),
                None => !self@.contains_key(key.path()),
            },
    {
        let mut i: usize = 0;
        while i < self.entries.len()
            invariant
                i <= self.entries@.len(),
                forall|j: int| 0 <= j < i ==> self.entries@[j].0.path() != key.path(),
            decreases self.entries@.len() - i,
        {
            if self.entries[i].0.same_path(key) {
                return Some(i);
            }
            i = i + 1;
        }
        proof {
            if self@.contains_key(key.path()) {
                let j = choose|j: int| #[trigger] has_path_at(self.entries@, j, key.path());
                assert(self.entries@[j].0.path() != key.path());
            }
        }
        None
    }

    /// Whether the map holds the path of `key`.
    pub fn contains_key(&self, key: &K) -> (r: bool)
        ensures
            r == self@.contains_key(key.path()),
    {
        proof {
            use_type_invariant(self);
        }
        match self.position(key) {
            Some(i) => {
                proof {
                    lemma_entries_map_lookup(self.entries@, i as int);
                }
                true
            },
            None => false,
        }
    }

    /// The value that the map holds for the path of `key`.
    pub fn get(&self, key: &K) -> (r: Option<&V>)
        ensures
            match r {
                Some(v) => self@.contains_key(key.path()) && *v == self@[key.path()],
                None => !self@.contains_key(key.path()),
            },
    {
        proof {
            use_type_invariant(self);
        }
        match self.position(key) {
            Some(i) => {
                proof {
                    lemma_entries_map_lookup(self.entries@, i as int);
                }
                Some(&self.entries[i].1)
            },
            None => None,
        }
    }

    /// Removes the path of `key`, giving back the value it had.
    pub fn remove(&mut self, key: &K) -> (r: Option<V>)
        ensures
            final(self)@ == old(self)@.remove(key.path()),
            match r {
                Some(v) => old(self)@.contains_key(key.path()) && v == old(self)@[key.path()],
                None => !old(self)@.contains_key(key.path()),
            },
    {
        proof {
            use_type_invariant(&*self);
        }
        match self.position(key) {
            Some(i) => {
                proof {
                    lemma_entries_map_lookup(self.entries@, i as int);
                    lemma_entries_map_remove(self.entries@, i as int);
                }
                let mut entries = self.take_entries();
                let (_, v) = entries.remove(i);
                self.entries = entries;
                Some(v)
            },
            None => {
                proof {
                    assert(self@.remove(key.path()) =~= self@);
                }
                None
            },
        }
    }

    /// Maps the path of `key` to `value`, giving back the value it had.
    pub fn insert(&mut self, key: K, value: V) -> (r: Option<V>)
        ensures
            final(self)@ == old(self)@.insert(key.path(), value),
            match r {
                Some(v) => old(self)@.contains_key(key.path()) && v == old(self)@[key.path()],
                None => !old(self)@.contains_key(key.path()),
            },
    {
        let previous = self.remove(&key);
        proof {
            use_type_invariant(&*self);
            lemma_entries_map_push(self.entries@, (key, value));
            assert(old(self)@.remove(key.path()).insert(key.path(), value) =~= old(self)@.insert(key.path(), value));
        }
        let mut entries = self.take_entries();
        entries.push((key, value));
        self.entries = entries;
        previous
    }

    /// Removes every key.
    pub fn clear(&mut self)
        ensures
            final(self)@ == Map::<Seq<u8>, V>::empty(),
    {
        self.entries = Vec::new();
        proof {
            lemma_entries_map_empty(self.entries@);
        }
    }

    /// Removes every key whose path is in `removed`.
    pub fn remove_all_in(&mut self, removed: &PathSet<K>)
        ensures
            final(self)@ == old(self)@.remove_keys(removed@),
    {
        proof {
            use_type_invariant(&*self);
        }
        let mut rest = self.take_entries();
        let ghost orig = rest@;
        let mut kept: Vec<(K, V)> = Vec::new();
        proof {
            lemma_entries_map_empty(kept@);
            assert(orig.skip(orig.len() as int) =~= Seq::<(K, V)>::empty());
            lemma_entries_map_empty(orig.skip(orig.len() as int));
            assert(entries_map(kept@) =~= entries_map(orig.skip(orig.len() as int)).remove_keys(removed@));
        }
        while rest.len() > 0
            invariant
                distinct_paths(orig),
                rest.len() <= orig.len(),
                rest@ == orig.take(rest.len() as int),
                distinct_paths(kept@),
                entries_map(kept@) == entries_map(orig.skip(rest.len() as int)).remove_keys(removed@),
            decreases rest.len(),
        {
            let ghost n = rest.len() as int;
            let e = rest.pop().unwrap();
            proof {
                assert(e == orig[n - 1]);
                assert(rest@ =~= orig.take(n - 1));
                lemma_entries_map_skip(orig, n);
            }
            if !removed.contains(&e.0) {
                proof {
                    lemma_entries_map_push(kept@, e);
                    assert(entries_map(kept@).insert(e.0.path(), e.1) =~= entries_map(orig.skip(n - 1)).remove_keys(removed@));
                }
                kept.push(e);
            } else {
                proof {
                    assert(entries_map(kept@) =~= entries_map(orig.skip(n - 1)).remove_keys(removed@));
                }
            }
        }
        proof {
            assert(orig.skip(0) =~= orig);
        }
        self.entries = kept;
    }
}

impl<K: TrieKey, V> PathMap<K, V> {
    /// Maps the path of each key of `entries` to its value, overwriting what the map held.
    pub fn insert_all(&mut self, entries: Vec<(K, V)>)
        requires
            distinct_paths(entries@),
        ensures
            final(self)@ == old(self)@.union_prefer_right(entries_map(entries@)),
    {
        let mut rest = entries;
        let ghost orig = rest@;
        proof {
            lemma_entries_map_empty(orig.skip(orig.len() as int));
            assert(self@ =~= old(self)@.union_prefer_right(entries_map(orig.skip(orig.len() as int))));
        }
        while rest.len() > 0
            invariant
                distinct_paths(orig),
                rest.len() <= orig.len(),
                rest@ == orig.take(rest.len() as int),
                self@ == old(self)@.union_prefer_right(entries_map(orig.skip(rest.len() as int))),
            decreases rest.len(),
        {
            let ghost n = rest.len() as int;
            let e = rest.pop().unwrap();
            proof {
                assert(e == orig[n - 1]);
                assert(rest@ =~= orig.take(n - 1));
                lemma_entries_map_skip(orig, n);
            }
            let _ = self.insert(e.0, e.1);
            proof {
                assert(self@ =~= old(self)@.union_prefer_right(entries_map(orig.skip(n - 1))));
            }
        }
        proof {
            assert(orig.skip(0) =~= orig);
        }
    }
}

impl<K: TrieKey, V> PathMap<K, V> {
    /// Moves every entry out, each key once, in no particular order; the map is left empty and
    /// keeps its allocation.
    pub fn drain(&mut self) -> (r: Vec<(K, V)>)
        ensures
            distinct_paths(r@),
            entries_map(r@) == old(self)@,
            final(self)@ == Map::<Seq<u8>, V>::empty(),
    {
        proof {
            use_type_invariant(&*self);
        }
        let mut rest = self.take_entries();
        let ghost orig = rest@;
        let mut out: Vec<(K, V)> = Vec::new();
        proof {
            lemma_entries_map_empty(out@);
            lemma_entries_map_empty(orig.skip(orig.len() as int));
        }
        while rest.len() > 0
            invariant
                distinct_paths(orig),
                rest.len() <= orig.len(),
                rest@ == orig.take(rest.len() as int),
                distinct_paths(out@),
                entries_map(out@) == entries_map(orig.skip(rest.len() as int)),
            decreases rest.len(),
        {
            let ghost n = rest.len() as int;
            let e = rest.pop().unwrap();
            proof {
                assert(e == orig[n - 1]);
                assert(rest@ =~= orig.take(n - 1));
                lemma_entries_map_skip(orig, n);
                lemma_entries_map_push(out@, e);
            }
            out.push(e);
        }
        proof {
            assert(orig.skip(0) =~= orig);
            lemma_entries_map_empty(rest@);
        }
        self.entries = rest;
        out
    }
}

impl<K: TrieKey, V: Clone> Clone for PathMap<K, V> {
    /// A copy of the map: the same keys, each value a clone of the value it had.
    fn clone(&self) -> (r: Self)
        ensures
            r@.dom() == self@.dom(),
            forall|p: Seq<u8>| #[trigger] r@.contains_key(p) ==> cloned::<V>(self@[p], r@[p]),
    {
        proof {
            use_type_invariant(self);
        }
        let mut copies: Vec<(K, V)> = Vec::new();
        let mut i: usize = 0;
        while i < self.entries.len()
            invariant
                i <= self.entries@.len(),
                copies@.len() == i,
                forall|j: int| 0 <= j < i ==> (#[trigger] copies@[j]).0 == self.entries@[j].0
                    && cloned::<V>(self.entries@[j].1, copies@[j].1),
            decreases self.entries@.len() - i,
        {
            let e = &self.entries[i];
            copies.push((e.0, e.1.clone()));
            i = i + 1;
        }
        proof {
            assert(distinct_paths(copies@)) by {
                assert forall|a: int, b: int| 0 <= a < copies@.len() && 0 <= b < copies@.len() && a != b implies copies@[a].0.path() != copies@[b].0.path() by {
                    assert(copies@[a].0 == self.entries@[a].0 && copies@[b].0 == self.entries@[b].0);
                }
            }
            assert forall|p: Seq<u8>| entries_map(copies@).contains_key(p) <==> self@.contains_key(p) by {
                if entries_map(copies@).contains_key(p) {
                    let a = choose|a: int| #[trigger] has_path_at(copies@, a, p);
                    assert(copies@[a].0 == self.entries@[a].0);
                    assert(has_path_at(self.entries@, a, p));
                }
                if self@.contains_key(p) {
                    let a = choose|a: int| #[trigger] has_path_at(self.entries@, a, p);
                    assert(copies@[a].0 == self.entries@[a].0);
                    assert(has_path_at(copies@, a, p));
                }
            }
            assert(entries_map(copies@).dom() =~= self@.dom());
            assert forall|p: Seq<u8>| #[trigger] entries_map(copies@).contains_key(p) implies cloned::<V>(self@[p], entries_map(copies@)[p]) by {
                let a = choose|a: int| #[trigger] has_path_at(copies@, a, p);
                assert(copies@[a].0 == self.entries@[a].0);
                lemma_entries_map_lookup(copies@, a);
                lemma_entries_map_lookup(self.entries@, a);
            }
        }
        PathMap { entries: copies }
    }
}

impl<K: TrieKey, V> Default for PathMap<K, V> {
    fn default() -> (r: Self)
        ensures
            r@ == Map::<Seq<u8>, V>::empty(),
    {
        PathMap::new()
    }
}

/// A set of trie keys, told apart by their paths.
#[derive(Debug)]
pub struct PathSet<K: TrieKey> {
    members: PathMap<K, ()>,
}

impl<K: TrieKey> View for PathSet<K> {
    type V = Set<Seq<u8>>;

    closed spec fn view(&self) -> Set<Seq<u8>> {
        self.members@.dom()
    }
}

/// The set of the paths of the keys in `s`.
pub open spec fn keys_set<K: TrieKey>(s: Seq<K>) -> Set<Seq<u8>> {
    Set::new(|p: Seq<u8>| exists|i: int| 0 <= i < s.len() && #[trigger] s[i].path() == p)
}

/// No two keys of `s` have the same path.
pub open spec fn distinct_keys<K: TrieKey>(s: Seq<K>) -> bool {
    forall|i: int, j: int|
        #![trigger s[i], s[j]]
        0 <= i < s.len() && 0 <= j < s.len() && i != j ==> s[i].path() != s[j].path()
}

impl<K: TrieKey> PathSet<K> {
    /// The set holds finitely many paths.
    pub proof fn lemma_finite(&self)
        ensures
            self@.finite(),
    {
        self.members.lemma_finite();
    }

    /// An empty set.
    pub fn new() -> (r: Self)
        ensures
            r@ == Set::<Seq<u8>>::empty(),
    {
        let r = PathSet { members: PathMap::new() };
        proof {
            assert(r@ =~= Set::<Seq<u8>>::empty());
        }
        r
    }

    /// The number of paths in the set.
    pub fn len(&self) -> (r: usize)
        ensures
            self@.finite(),
            r == self@.len(),
    {
        self.members.len()
    }

    /// Whether the set holds no path.
    pub fn is_empty(&self) -> (r: bool)
        ensures
            r == (self@ == Set::<Seq<u8>>::empty()),
    {
        let r = self.members.is_empty();
        proof {
            if r {
                assert(self@ =~= Set::<Seq<u8>>::empty());
            } else {
                assert(self.members@ != Map::<Seq<u8>, ()>::empty());
                if self@ == Set::<Seq<u8>>::empty() {
                    assert(self.members@ =~= Map::<Seq<u8>, ()>::empty());
                }
            }
        }
        r
    }

    /// Whether the set holds the path of `key`.
    pub fn contains(&self, key: &K) -> (r: bool)
        ensures
            r == self@.contains(key.path()),
    {
        self.members.contains_key(key)
    }

    /// Adds the path of `key`; true when it was not there before.
    pub fn insert(&mut self, key: K) -> (r: bool)
        ensures
            final(self)@ == old(self)@.insert(key.path()),
            r == !old(self)@.contains(key.path()),
    {
        let previous = self.members.insert(key, ());
        proof {
            assert(self@ =~= old(self)@.insert(key.path()));
        }
        previous.is_none()
    }

    /// Removes the path of `key`; true when it was there.
    pub fn remove(&mut self, key: &K) -> (r: bool)
        ensures
            final(self)@ == old(self)@.remove(key.path()),
            r == old(self)@.contains(key.path()),
    {
        let previous = self.members.remove(key);
        proof {
            assert(self@ =~= old(self)@.remove(key.path()));
        }
        previous.is_some()
    }

    /// Removes every path.
    pub fn clear(&mut self)
        ensures
            final(self)@ == Set::<Seq<u8>>::empty(),
    {
        self.members.clear();
        proof {
            assert(self@ =~= Set::<Seq<u8>>::empty());
        }
    }

    /// The keys of the set, each path once, in no particular order.
    pub fn to_vec(&self) -> (r: Vec<K>)
        ensures
            distinct_keys(r@),
            keys_set(r@) == self@,
    {
        let entries = self.members.entries();
        let mut r: Vec<K> = Vec::new();
        let mut i: usize = 0;
        while i < entries.len()
            invariant
                i <= entries@.len(),
                r@.len() == i,
                forall|j: int| 0 <= j < i ==> #[trigger] r@[j] == entries@[j].0,
            decreases entries@.len() - i,
        {
            r.push(entries[i].0);
            i = i + 1;
        }
        proof {
            assert(distinct_keys(r@)) by {
                assert forall|a: int, b: int| 0 <= a < r@.len() && 0 <= b < r@.len() && a != b implies r@[a].path() != r@[b].path() by {
                    assert(r@[a] == entries@[a].0 && r@[b] == entries@[b].0);
                }
            }
            assert forall|p: Seq<u8>| keys_set(r@).contains(p) <==> self@.contains(p) by {
                if keys_set(r@).contains(p) {
                    let a = choose|a: int| 0 <= a < r@.len() && #[trigger] r@[a].path() == p;
                    assert(r@[a] == entries@[a].0);
                    lemma_entries_map_lookup(entries@, a);
                }
                if self@.contains(p) {
                    let a = choose|a: int| #[trigger] has_path_at(entries@, a, p);
                    assert(r@[a] == entries@[a].0);
                }
            }
            assert(keys_set(r@) =~= self@);
        }
        r
    }

    /// The set of keys with distinct paths.
    pub fn from_keys(keys: Vec<K>) -> (r: Self)
        ensures
            r@ == keys_set(keys@),
    {
        let mut r = PathSet::new();
        r.insert_all(keys);
        proof {
            assert(r@ =~= keys_set(keys@));
        }
        r
    }
}

impl<K: TrieKey> PathSet<K> {
    /// Adds the path of each of `keys`.
    pub fn insert_all(&mut self, keys: Vec<K>)
        ensures
            final(self)@ == old(self)@.union(keys_set(keys@)),
    {
        let mut i: usize = 0;
        proof {
            assert(keys_set(keys@.take(0)) =~= Set::<Seq<u8>>::empty());
            assert(self@ =~= old(self)@.union(keys_set(keys@.take(0))));
        }
        while i < keys.len()
            invariant
                i <= keys@.len(),
                self@ == old(self)@.union(keys_set(keys@.take(i as int))),
            decreases keys@.len() - i,
        {
            let _ = self.insert(keys[i]);
            proof {
                lemma_keys_set_take_next(keys@, i as int);
                assert(self@ =~= old(self)@.union(keys_set(keys@.take(i + 1))));
            }
            i = i + 1;
        }
        proof {
            assert(keys@.take(keys@.len() as int) =~= keys@);
        }
    }

    /// Moves the set's paths out into a new set; this set is left empty and keeps its
    /// allocation.
    pub fn drain(&mut self) -> (r: Self)
        ensures
            r@ == old(self)@,
            final(self)@ == Set::<Seq<u8>>::empty(),
    {
        let entries = self.members.drain();
        let mut members: PathMap<K, ()> = PathMap::new();
        members.insert_all(entries);
        let r = PathSet { members };
        proof {
            assert(members@ =~= old(self).members@);
            assert(self@ =~= Set::<Seq<u8>>::empty());
        }
        r
    }

    /// The entries behind the set: each key once, with nothing beside it, in no particular order.
    pub fn members(&self) -> (r: &Vec<(K, ())>)
        ensures
            distinct_paths(r@),
            entries_map(r@).dom() == self@,
    {
        self.members.entries()
    }
}

/// One more key of the sequence adds its path to the set of paths.
pub proof fn lemma_keys_set_take_next<K: TrieKey>(keys: Seq<K>, i: int)
    requires
        0 <= i < keys.len(),
    ensures
        keys_set(keys.take(i + 1)) == keys_set(keys.take(i)).insert(keys[i].path()),
{
    assert forall|p: Seq<u8>| keys_set(keys.take(i + 1)).contains(p) <==> keys_set(keys.take(i)).insert(keys[i].path()).contains(p) by {
        if keys_set(keys.take(i + 1)).contains(p) {
            let a = choose|a: int| 0 <= a < i + 1 && #[trigger] keys.take(i + 1)[a].path() == p;
            if a < i {
                assert(keys.take(i)[a] == keys.take(i + 1)[a]);
            }
        }
        if keys_set(keys.take(i)).contains(p) {
            let a = choose|a: int| 0 <= a < i && #[trigger] keys.take(i)[a].path() == p;
            assert(keys.take(i)[a] == keys.take(i + 1)[a]);
        }
        if p == keys[i].path() {
            assert(keys.take(i + 1)[i] == keys[i]);
        }
    }
    assert(keys_set(keys.take(i + 1)) =~= keys_set(keys.take(i)).insert(keys[i].path()));
}

impl<K: TrieKey> Clone for PathSet<K> {
    /// A copy of the set.
    fn clone(&self) -> (r: Self)
        ensures
            r@ == self@,
    {
        PathSet { members: self.members.clone() }
    }
}

impl<K: TrieKey> PathSet<K> {
    /// Whether every path of this set is in `other`.
    fn is_subset_of(&self, other: &Self) -> (r: bool)
        ensures
            r == self@.subset_of(other@),
    {
        let members = self.members.entries();
        let mut i: usize = 0;
        while i < members.len()
            invariant
                i <= members@.len(),
                entries_map(members@).dom() == self@,
                forall|j: int| 0 <= j < i ==> other@.contains(#[trigger] members@[j].0.path()),
            decreases members@.len() - i,
        {
            if !other.contains(&members[i].0) {
                proof {
                    assert(has_path_at(members@, i as int, members@[i as int].0.path()));
                }
                return false;
            }
            i = i + 1;
        }
        proof {
            assert forall|p: Seq<u8>| self@.contains(p) implies other@.contains(p) by {
                let j = choose|j: int| #[trigger] has_path_at(members@, j, p);
                assert(other@.contains(members@[j].0.path()));
            }
        }
        true
    }
}

impl<K: TrieKey> PartialEq for PathSet<K> {
    fn eq(&self, other: &Self) -> (r: bool) {
        let r = self.is_subset_of(other) && other.is_subset_of(self);
        proof {
            if r {
                assert(self@ =~= other@);
            }
        }
        r
    }
}

impl<K: TrieKey> PartialEqSpecImpl for PathSet<K> {
    open spec fn obeys_eq_spec() -> bool {
        true
    }

    open spec fn eq_spec(&self, other: &Self) -> bool {
        self@ == other@
    }
}

impl<K: TrieKey> Default for PathSet<K> {
    fn default() -> (r: Self)
        ensures
            r@ == Set::<Seq<u8>>::empty(),
    {
        PathSet::new()
    }
}

} // verus!

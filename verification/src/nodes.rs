//! Branch nodes, the maps and sets of nibble paths that hold them, and the filter that keeps the
//! empty path (the root) out of them.
use vstd::prelude::*;
use alloy_primitives::B256;
use alloy_trie::{BranchNodeCompact, HashBuilder};
use nybbles::Nibbles;
use crate::keys::{nibbles_path, TrieKey};
use vstd::std_specs::cmp::PartialEqSpecImpl;
use crate::path_map::{
    distinct_paths, entries_map, keys_set, lemma_entries_map_empty, lemma_entries_map_lookup,
    lemma_entries_map_push, PathMap, PathSet,
};

verus! {

#[verifier::external_type_specification]
#[verifier::external_body]
pub struct ExBranchNodeCompact(alloy_trie::BranchNodeCompact);

#[verifier::external_type_specification]
#[verifier::external_body]
#[verifier::reject_recursive_types(K)]
pub struct ExHashBuilder<K>(alloy_trie::HashBuilder<K>);

#[verifier::external_type_specification]
#[verifier::external_body]
pub struct ExAddedRemovedKeys(alloy_trie::proof::AddedRemovedKeys);

/// Branch nodes by nibble path.
pub type NodeMap = PathMap<Nibbles, BranchNodeCompact>;

/// A set of nibble paths.
pub type NibblesSet = PathSet<Nibbles>;

/// Values by 32-byte hash.
pub type B256Map<V> = PathMap<B256, V>;

/// A set of 32-byte hashes.
pub type B256Set = PathSet<B256>;

/// `Clone::clone` on `BranchNodeCompact` (derived, field by field; the hashes sit behind an
/// `Arc` that the copy shares): the copy is the same node.
pub assume_specification[<alloy_trie::BranchNodeCompact as Clone>::clone](node: &BranchNodeCompact) -> (r: BranchNodeCompact)
    ensures
        r == *node,
;

/// The branch nodes, by path, that a hash builder holds as updated (what `HashBuilder::split`
/// hands out, as a map).
pub uninterp spec fn hash_builder_updates(hash_builder: HashBuilder) -> Map<Seq<u8>, BranchNodeCompact>;

/// `HashBuilder::split`: the branch nodes that the hash builder recorded as updated, each path
/// once (they come out of a hash map keyed by `Nibbles`, whose equality is equality of the
/// nibbles). The map they list depends on the hash builder alone; only the order in which they
/// come out varies.
#[verifier::external_body]
pub(crate) fn split_updates(hash_builder: HashBuilder) -> (r: Vec<(Nibbles, BranchNodeCompact)>)
    ensures
        distinct_paths(r@),
        entries_map(r@) == hash_builder_updates(hash_builder),
{
    let (_, updates) = hash_builder.split();
    updates.into_iter().collect()
}

/// `==` on `BranchNodeCompact` (derived, field by field): true exactly when they are the same
/// node.
#[verifier::external_body]
fn nodes_equal(a: &BranchNodeCompact, b: &BranchNodeCompact) -> (r: bool)
    ensures
        r == (*a == *b),
{
    *a == *b
}

/// Two entry lists hold, position by position, keys with the same path and the same value.
pub open spec fn same_entries<K: TrieKey, V>(a: Seq<(K, V)>, b: Seq<(K, V)>) -> bool {
    &&& a.len() == b.len()
    &&& forall|i: int| #![trigger a[i]] 0 <= i < a.len() ==> a[i].0.path() == b[i].0.path() && a[i].1 == b[i].1
}

/// Two key lists hold, position by position, keys with the same path.
pub open spec fn same_keys<K: TrieKey>(a: Seq<K>, b: Seq<K>) -> bool {
    &&& a.len() == b.len()
    &&& forall|i: int| #![trigger a[i]] 0 <= i < a.len() ==> a[i].path() == b[i].path()
}

/// Whether two lists of nodes hold the same paths and nodes at each position.
pub(crate) fn node_lists_equal(a: &Vec<(Nibbles, BranchNodeCompact)>, b: &Vec<(Nibbles, BranchNodeCompact)>) -> (r: bool)
    ensures
        r == same_entries(a@, b@),
{
    if a.len() != b.len() {
        return false;
    }
    let mut i: usize = 0;
    while i < a.len()
        invariant
            i <= a@.len(),
            a@.len() == b@.len(),
            forall|j: int| #![trigger a@[j]] 0 <= j < i ==> a@[j].0.path() == b@[j].0.path() && a@[j].1 == b@[j].1,
        decreases a@.len() - i,
    {
        if !a[i].0.same_path(&b[i].0) || !nodes_equal(&a[i].1, &b[i].1) {
            return false;
        }
        i = i + 1;
    }
    true
}

/// Whether two lists of node references hold the same paths and nodes at each position.
pub(crate) fn node_ref_lists_equal<'a>(
    a: &Vec<(&'a Nibbles, &'a BranchNodeCompact)>,
    b: &Vec<(&'a Nibbles, &'a BranchNodeCompact)>,
) -> (r: bool)
    ensures
        r == same_entries(a@, b@),
{
    if a.len() != b.len() {
        return false;
    }
    let mut i: usize = 0;
    while i < a.len()
        invariant
            i <= a@.len(),
            a@.len() == b@.len(),
            forall|j: int| #![trigger a@[j]] 0 <= j < i ==> a@[j].0.path() == b@[j].0.path() && a@[j].1 == b@[j].1,
        decreases a@.len() - i,
    {
        if !a[i].0.same_path(&b[i].0) || !nodes_equal(a[i].1, b[i].1) {
            return false;
        }
        i = i + 1;
    }
    true
}

/// Whether two lists of path references hold the same paths at each position.
pub(crate) fn key_ref_lists_equal<'a>(a: &Vec<&'a Nibbles>, b: &Vec<&'a Nibbles>) -> (r: bool)
    ensures
        r == same_keys(a@, b@),
{
    if a.len() != b.len() {
        return false;
    }
    let mut i: usize = 0;
    while i < a.len()
        invariant
            i <= a@.len(),
            a@.len() == b@.len(),
            forall|j: int| #![trigger a@[j]] 0 <= j < i ==> a@[j].path() == b@[j].path(),
        decreases a@.len() - i,
    {
        if !a[i].same_path(&b[i]) {
            return false;
        }
        i = i + 1;
    }
    true
}

/// Whether every path of `a` is in `b` with the same node.
fn node_map_within(a: &NodeMap, b: &NodeMap) -> (r: bool)
    ensures
        r == (forall|p: Seq<u8>| #[trigger] a@.contains_key(p) ==> b@.contains_key(p) && b@[p] == a@[p]),
{
    let entries = a.entries();
    let mut i: usize = 0;
    while i < entries.len()
        invariant
            i <= entries@.len(),
            distinct_paths(entries@),
            entries_map(entries@) == a@,
            forall|j: int| 0 <= j < i ==> #[trigger] b@.contains_key(entries@[j].0.path())
                && b@[entries@[j].0.path()] == entries@[j].1,
        decreases entries@.len() - i,
    {
        let e = &entries[i];
        proof {
            lemma_entries_map_lookup(entries@, i as int);
        }
        match b.get(&e.0) {
            Some(node) => {
                if !nodes_equal(&e.1, node) {
                    return false;
                }
            },
            None => {
                return false;
            },
        }
        i = i + 1;
    }
    proof {
        assert forall|p: Seq<u8>| #[trigger] a@.contains_key(p) implies b@.contains_key(p) && b@[p] == a@[p] by {
            let j = choose|j: int| #[trigger] crate::path_map::has_path_at(entries@, j, p);
            lemma_entries_map_lookup(entries@, j);
            assert(b@.contains_key(entries@[j].0.path()));
        }
    }
    true
}

impl PartialEq for PathMap<Nibbles, BranchNodeCompact> {
    fn eq(&self, other: &Self) -> (r: bool) {
        let r = node_map_within(self, other) && node_map_within(other, self);
        proof {
            if r {
                assert(self@ =~= other@);
            } else if self@ == other@ {
                assert(forall|p: Seq<u8>| #[trigger] self@.contains_key(p) ==> other@.contains_key(p) && other@[p] == self@[p]);
            }
        }
        r
    }
}

impl PartialEqSpecImpl for PathMap<Nibbles, BranchNodeCompact> {
    open spec fn obeys_eq_spec() -> bool {
        true
    }

    open spec fn eq_spec(&self, other: &Self) -> bool {
        self@ == other@
    }
}

/// The filter that keeps keys with a nonempty path.
pub open spec fn nonempty_key() -> spec_fn(Nibbles) -> bool {
    |n: Nibbles| nibbles_path(n).len() > 0
}

/// The filter that keeps entries whose key has a nonempty path.
pub open spec fn nonempty_entry<V>() -> spec_fn((Nibbles, V)) -> bool {
    |e: (Nibbles, V)| nibbles_path(e.0).len() > 0
}

/// The nonempty paths of a set.
pub open spec fn nonempty_paths(s: Set<Seq<u8>>) -> Set<Seq<u8>> {
    s.filter(|p: Seq<u8>| p.len() > 0)
}

/// The part of a map at nonempty paths.
pub open spec fn nonempty_nodes<V>(m: Map<Seq<u8>, V>) -> Map<Seq<u8>, V> {
    Map::new(|p: Seq<u8>| m.contains_key(p) && p.len() > 0, |p: Seq<u8>| m[p])
}

/// Keeps the entries with distinct paths whose path is nonempty: what they list is the nonempty
/// part of what the entries listed.
pub proof fn lemma_filter_entries<V>(s: Seq<(Nibbles, V)>)
    requires
        distinct_paths(s),
    ensures
        distinct_paths(s.filter(nonempty_entry::<V>())),
        entries_map(s.filter(nonempty_entry::<V>())) == nonempty_nodes(entries_map(s)),
    decreases s.len(),
{
    let f = s.filter(nonempty_entry::<V>());
    if s.len() == 0 {
        reveal(Seq::filter);
        lemma_entries_map_empty(s);
        lemma_entries_map_empty(f);
        assert(nonempty_nodes(entries_map(s)) =~= Map::<Seq<u8>, V>::empty());
    } else {
        let t = s.drop_last();
        let x = s.last();
        assert(s =~= t.push(x));
        assert(distinct_paths(t)) by {
            assert forall|i: int, j: int| 0 <= i < t.len() && 0 <= j < t.len() && i != j implies t[i].0.path() != t[j].0.path() by {
                assert(t[i] == s[i] && t[j] == s[j]);
            }
        }
        lemma_filter_entries(t);
        t.lemma_filter_push(x, nonempty_entry::<V>());
        if entries_map(t).contains_key(x.0.path()) {
            let i = choose|i: int| #[trigger] crate::path_map::has_path_at(t, i, x.0.path());
            assert(s[i] == t[i]);
            assert(s[s.len() - 1] == x);
            assert(false);
        }
        lemma_entries_map_push(t, x);
        let ft = t.filter(nonempty_entry::<V>());
        if nibbles_path(x.0).len() > 0 {
            assert(!entries_map(ft).contains_key(x.0.path()));
            lemma_entries_map_push(ft, x);
            assert(nonempty_nodes(entries_map(s)) =~= nonempty_nodes(entries_map(t)).insert(x.0.path(), x.1));
        } else {
            assert(nonempty_nodes(entries_map(s)) =~= nonempty_nodes(entries_map(t)));
        }
    }
}

/// Keeps the keys whose path is nonempty: their paths are the nonempty paths of all the keys.
pub proof fn lemma_filter_keys(s: Seq<Nibbles>)
    ensures
        keys_set(s.filter(nonempty_key())) == nonempty_paths(keys_set(s)),
{
    let f = s.filter(nonempty_key());
    assert forall|p: Seq<u8>| keys_set(f).contains(p) <==> nonempty_paths(keys_set(s)).contains(p) by {
        if keys_set(f).contains(p) {
            let a = choose|a: int| 0 <= a < f.len() && #[trigger] f[a].path() == p;
            assert(f.contains(f[a]));
            s.lemma_filter_contains_rev(nonempty_key(), f[a]);
            s.lemma_filter_pred(nonempty_key(), a);
            let b = choose|b: int| 0 <= b < s.len() && s[b] == f[a];
            assert(s[b].path() == p);
        }
        if nonempty_paths(keys_set(s)).contains(p) {
            let b = choose|b: int| 0 <= b < s.len() && #[trigger] s[b].path() == p;
            s.lemma_filter_contains(nonempty_key(), b);
            let a = choose|a: int| 0 <= a < f.len() && f[a] == s[b];
            assert(f[a].path() == p);
        }
    }
    assert(keys_set(f) =~= nonempty_paths(keys_set(s)));
}

/// Keeps the nibble paths that are not empty.
pub fn exclude_empty(keys: Vec<Nibbles>) -> (r: Vec<Nibbles>)
    ensures
        r@ == keys@.filter(nonempty_key()),
{
    let mut r: Vec<Nibbles> = Vec::new();
    let mut i: usize = 0;
    proof {
        reveal(Seq::filter);
        assert(keys@.take(0).filter(nonempty_key()) =~= Seq::<Nibbles>::empty());
    }
    while i < keys.len()
        invariant
            i <= keys@.len(),
            r@ == keys@.take(i as int).filter(nonempty_key()),
        decreases keys@.len() - i,
    {
        let n = keys[i];
        proof {
            assert(keys@.take(i + 1) =~= keys@.take(i as int).push(n));
            keys@.take(i as int).lemma_filter_push(n, nonempty_key());
        }
        if !crate::keys::path_is_empty(&n) {
            r.push(n);
        }
        i = i + 1;
    }
    proof {
        assert(keys@.take(keys@.len() as int) =~= keys@);
    }
    r
}

/// Keeps the entries whose nibble path is not empty, in their order.
pub fn exclude_empty_from_pair<V>(pairs: Vec<(Nibbles, V)>) -> (r: Vec<(Nibbles, V)>)
    ensures
        r@ == pairs@.filter(nonempty_entry::<V>()),
{
    let mut rest = pairs;
    let ghost orig = rest@;
    let mut r: Vec<(Nibbles, V)> = Vec::new();
    proof {
        reveal(Seq::filter);
        assert(orig.take(0).filter(nonempty_entry::<V>()) =~= Seq::<(Nibbles, V)>::empty());
        assert(orig.skip(0) =~= orig);
    }
    while rest.len() > 0
        invariant
            rest.len() <= orig.len(),
            rest@ == orig.skip(orig.len() - rest.len()),
            r@ == orig.take(orig.len() - rest.len()).filter(nonempty_entry::<V>()),
        decreases rest.len(),
    {
        let ghost done = orig.len() - rest.len();
        let e = rest.remove(0);
        proof {
            assert(e == orig[done]);
            assert(rest@ =~= orig.skip(done + 1));
            assert(orig.take(done + 1) =~= orig.take(done).push(e));
            orig.take(done).lemma_filter_push(e, nonempty_entry::<V>());
        }
        if !crate::keys::path_is_empty(&e.0) {
            r.push(e);
        }
    }
    proof {
        assert(orig.take(orig.len() as int) =~= orig);
    }
    r
}

} // verus!

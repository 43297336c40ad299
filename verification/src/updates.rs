//! The aggregation of trie updates: the account trie and the storage tries of all accounts.
use vstd::prelude::*;
use alloy_primitives::B256;
use alloy_trie::{BranchNodeCompact, HashBuilder};
use nybbles::Nibbles;
use crate::keys::TrieKey;
use vstd::std_specs::cmp::PartialEqSpecImpl;
use crate::nodes::{
    key_ref_lists_equal, node_lists_equal, node_ref_lists_equal, same_entries, same_keys,
    exclude_empty, exclude_empty_from_pair, lemma_filter_entries, lemma_filter_keys,
    hash_builder_updates, nonempty_nodes, nonempty_paths, split_updates, B256Map, B256Set, NibblesSet, NodeMap,
};
use crate::path_map::{
    distinct_keys, distinct_paths, entries_map, keys_set, lemma_entries_map_empty,
    lemma_entries_map_lookup, lemma_entries_map_skip, lemma_entries_map_take,
    lemma_keys_set_take_next, has_path_at, PathMap, PathSet,
};
use crate::sort::{deref_map, sort_entries, sort_entry_refs, sort_key_refs, sorted_by_path, sorted_keys};
use crate::storage::{
    empty_storage, merge_storage, same_sorted_storage, same_sorted_storage_ref, sorts_storage, sorts_storage_ref, storage_is_empty,
    StorageTrieUpdates, StorageTrieUpdatesSorted, StorageTrieUpdatesSortedRef, StorageView,
};

verus! {

/// What trie updates hold: the updated account nodes by path, the removed account paths, and the
/// updates of each storage trie by hashed address.
pub ghost struct TrieView {
    pub account_nodes: Map<Seq<u8>, BranchNodeCompact>,
    pub removed_nodes: Set<Seq<u8>>,
    pub storage_tries: Map<Seq<u8>, StorageView>,
}

/// No update at all.
pub open spec fn empty_trie() -> TrieView {
    TrieView { account_nodes: Map::empty(), removed_nodes: Set::empty(), storage_tries: Map::empty() }
}

/// Updates that record nothing.
pub open spec fn trie_is_empty(v: TrieView) -> bool {
    &&& v.account_nodes == Map::<Seq<u8>, BranchNodeCompact>::empty()
    &&& v.removed_nodes == Set::<Seq<u8>>::empty()
    &&& v.storage_tries == Map::<Seq<u8>, StorageView>::empty()
}

/// What storage trie updates the map holds, by hashed address.
pub open spec fn storage_views(m: Map<Seq<u8>, StorageTrieUpdates>) -> Map<Seq<u8>, StorageView> {
    Map::new(|k: Seq<u8>| m.contains_key(k), |k: Seq<u8>| m[k]@)
}

/// The updates of the storage trie at `k`, or none.
pub open spec fn storage_or_empty(m: Map<Seq<u8>, StorageView>, k: Seq<u8>) -> StorageView {
    if m.contains_key(k) { m[k] } else { empty_storage() }
}

/// The storage tries of `a` followed by those of `b`: each storage trie of `b` is laid over the
/// same storage trie of `a` (or over none); the others of `a` stay.
pub open spec fn merge_storage_tries(
    a: Map<Seq<u8>, StorageView>,
    b: Map<Seq<u8>, StorageView>,
) -> Map<Seq<u8>, StorageView> {
    Map::new(
        |k: Seq<u8>| a.contains_key(k) || b.contains_key(k),
        |k: Seq<u8>| if b.contains_key(k) { merge_storage(storage_or_empty(a, k), b[k]) } else { a[k] },
    )
}

/// The updates `a` followed by the updates `b`: account nodes at paths that `b` removed go, `b`'s
/// nodes and removed paths at nonempty paths are added, and the storage tries are merged.
pub open spec fn merge_tries(a: TrieView, b: TrieView) -> TrieView {
    TrieView {
        account_nodes: a.account_nodes.remove_keys(b.removed_nodes).union_prefer_right(nonempty_nodes(b.account_nodes)),
        removed_nodes: a.removed_nodes.union(nonempty_paths(b.removed_nodes)),
        storage_tries: merge_storage_tries(a.storage_tries, b.storage_tries),
    }
}

/// The storage tries with those of the `destroyed` accounts marked as wiped (one that held no
/// updates gets a wiped one); the nodes they held stay.
pub open spec fn mark_destroyed(m: Map<Seq<u8>, StorageView>, destroyed: Set<Seq<u8>>) -> Map<Seq<u8>, StorageView> {
    Map::new(
        |k: Seq<u8>| m.contains_key(k) || destroyed.contains(k),
        |k: Seq<u8>| if destroyed.contains(k) { StorageView { is_deleted: true, ..storage_or_empty(m, k) } } else { m[k] },
    )
}

/// `a` finalized: the nodes a hash builder produced and the removed paths are recorded at
/// nonempty paths, and the storage tries of destroyed accounts are marked as wiped.
pub open spec fn finalize_trie(
    a: TrieView,
    updated: Map<Seq<u8>, BranchNodeCompact>,
    removed_keys: Set<Seq<u8>>,
    destroyed: Set<Seq<u8>>,
) -> TrieView {
    TrieView {
        account_nodes: a.account_nodes.union_prefer_right(nonempty_nodes(updated)),
        removed_nodes: a.removed_nodes.union(nonempty_paths(removed_keys)),
        storage_tries: mark_destroyed(a.storage_tries, destroyed),
    }
}

/// The sorted form of trie updates lists the same updates.
pub open spec fn sorts_trie(s: TrieUpdatesSorted, v: TrieView) -> bool {
    &&& distinct_paths(s.account_nodes@)
    &&& sorted_by_path(s.account_nodes@)
    &&& entries_map(s.account_nodes@) == v.account_nodes
    &&& s.removed_nodes@ == v.removed_nodes
    &&& sorts_storage_tries(s.storage_tries@, v.storage_tries)
}

/// Each storage trie is held in sorted form.
pub open spec fn sorts_storage_tries(
    s: Map<Seq<u8>, StorageTrieUpdatesSorted>,
    v: Map<Seq<u8>, StorageView>,
) -> bool {
    &&& s.dom() == v.dom()
    &&& forall|k: Seq<u8>| #[trigger] s.contains_key(k) ==> sorts_storage(s[k], v[k])
}

/// The sorted view by reference lists the same updates.
pub open spec fn sorts_trie_ref(s: TrieUpdatesSortedRef, v: TrieView) -> bool {
    &&& distinct_paths(s.account_nodes@)
    &&& sorted_by_path(s.account_nodes@)
    &&& deref_map(entries_map(s.account_nodes@)) == v.account_nodes
    &&& distinct_keys(s.removed_nodes@)
    &&& sorted_keys(s.removed_nodes@)
    &&& keys_set(s.removed_nodes@) == v.removed_nodes
    &&& distinct_paths(s.storage_tries@)
    &&& sorted_by_path(s.storage_tries@)
    &&& entries_map(s.storage_tries@).dom() == v.storage_tries.dom()
    &&& forall|k: Seq<u8>| #[trigger] entries_map(s.storage_tries@).contains_key(k)
        ==> sorts_storage_ref(entries_map(s.storage_tries@)[k], v.storage_tries[k])
}

/// The aggregation of trie updates.
#[derive(Debug)]
pub struct TrieUpdates {
    /// Collection of updated intermediate account nodes indexed by full path.
    pub account_nodes: NodeMap,
    /// Collection of removed intermediate account nodes indexed by full path.
    pub removed_nodes: NibblesSet,
    /// Collection of updated storage tries indexed by the hashed address.
    pub storage_tries: B256Map<StorageTrieUpdates>,
}

impl View for TrieUpdates {
    type V = TrieView;

    open spec fn view(&self) -> TrieView {
        TrieView {
            account_nodes: self.account_nodes@,
            removed_nodes: self.removed_nodes@,
            storage_tries: storage_views(self.storage_tries@),
        }
    }
}

impl Clone for TrieUpdates {
    /// A copy of the updates.
    fn clone(&self) -> (r: Self)
        ensures
            r@ == self@,
    {
        let account_nodes = self.account_nodes.clone();
        let storage_tries = self.storage_tries.clone();
        proof {
            assert(account_nodes@ =~= self.account_nodes@);
            assert(storage_views(storage_tries@) =~= storage_views(self.storage_tries@));
        }
        TrieUpdates { account_nodes, removed_nodes: self.removed_nodes.clone(), storage_tries }
    }
}

/// Whether every address of `a` is in `b` with the same storage trie updates.
fn storage_tries_within(a: &B256Map<StorageTrieUpdates>, b: &B256Map<StorageTrieUpdates>) -> (r: bool)
    ensures
        r == (forall|p: Seq<u8>| #[trigger] a@.contains_key(p) ==> b@.contains_key(p) && b@[p]@ == a@[p]@),
{
    let entries = a.entries();
    let mut i: usize = 0;
    while i < entries.len()
        invariant
            i <= entries@.len(),
            distinct_paths(entries@),
            entries_map(entries@) == a@,
            forall|j: int| 0 <= j < i ==> #[trigger] b@.contains_key(entries@[j].0.path())
                && b@[entries@[j].0.path()]@ == entries@[j].1@,
        decreases entries@.len() - i,
    {
        let e = &entries[i];
        proof {
            lemma_entries_map_lookup(entries@, i as int);
        }
        match b.get(&e.0) {
            Some(storage) => {
                if !(e.1 == *storage) {
                    return false;
                }
            },
            None => {
                return false;
            },
        }
        i = i + 1;
    }
    proof {
        assert forall|p: Seq<u8>| #[trigger] a@.contains_key(p) implies b@.contains_key(p) && b@[p]@ == a@[p]@ by {
            let j = choose|j: int| #[trigger] has_path_at(entries@, j, p);
            lemma_entries_map_lookup(entries@, j);
            assert(b@.contains_key(entries@[j].0.path()));
        }
    }
    true
}

impl PartialEq for PathMap<B256, StorageTrieUpdates> {
    fn eq(&self, other: &Self) -> (r: bool) {
        let r = storage_tries_within(self, other) && storage_tries_within(other, self);
        proof {
            if r {
                assert(storage_views(self@) =~= storage_views(other@));
            } else if storage_views(self@) == storage_views(other@) {
                assert forall|p: Seq<u8>| #[trigger] self@.contains_key(p) implies other@.contains_key(p) && other@[p]@ == self@[p]@ by {
                    assert(storage_views(self@).contains_key(p));
                    assert(storage_views(other@).contains_key(p));
                    assert(storage_views(other@)[p] == other@[p]@);
                    assert(storage_views(self@)[p] == self@[p]@);
                }
                assert forall|p: Seq<u8>| #[trigger] other@.contains_key(p) implies self@.contains_key(p) && self@[p]@ == other@[p]@ by {
                    assert(storage_views(other@).contains_key(p));
                    assert(storage_views(self@).contains_key(p));
                    assert(storage_views(other@)[p] == other@[p]@);
                    assert(storage_views(self@)[p] == self@[p]@);
                }
            }
        }
        r
    }
}

impl PartialEqSpecImpl for PathMap<B256, StorageTrieUpdates> {
    open spec fn obeys_eq_spec() -> bool {
        true
    }

    open spec fn eq_spec(&self, other: &Self) -> bool {
        storage_views(self@) == storage_views(other@)
    }
}

impl PartialEq for TrieUpdates {
    fn eq(&self, other: &Self) -> (r: bool) {
        self.account_nodes == other.account_nodes && self.removed_nodes == other.removed_nodes
            && self.storage_tries == other.storage_tries
    }
}

impl PartialEqSpecImpl for TrieUpdates {
    open spec fn obeys_eq_spec() -> bool {
        true
    }

    open spec fn eq_spec(&self, other: &Self) -> bool {
        self@ == other@
    }
}

impl Default for TrieUpdates {
    fn default() -> (r: Self)
        ensures
            r@ == empty_trie(),
    {
        let r = TrieUpdates { account_nodes: PathMap::new(), removed_nodes: PathSet::new(), storage_tries: PathMap::new() };
        proof {
            assert(storage_views(r.storage_tries@) =~= Map::<Seq<u8>, StorageView>::empty());
        }
        r
    }
}

impl TrieUpdates {
    /// Returns `true` if the updates are empty.
    pub fn is_empty(&self) -> (r: bool)
        ensures
            r == trie_is_empty(self@),
    {
        let a = self.account_nodes.is_empty();
        let b = self.removed_nodes.is_empty();
        let c = self.storage_tries.is_empty();
        proof {
            if c {
                assert(storage_views(self.storage_tries@) =~= Map::<Seq<u8>, StorageView>::empty());
            } else {
                assert(self.storage_tries@ != Map::<Seq<u8>, StorageTrieUpdates>::empty());
                if storage_views(self.storage_tries@) == Map::<Seq<u8>, StorageView>::empty() {
                    assert forall|k: Seq<u8>| !self.storage_tries@.contains_key(k) by {
                        assert(!storage_views(self.storage_tries@).contains_key(k));
                    }
                    assert(self.storage_tries@ =~= Map::<Seq<u8>, StorageTrieUpdates>::empty());
                }
            }
        }
        a && b && c
    }

    /// Returns reference to updated account nodes.
    pub fn account_nodes_ref(&self) -> (r: &NodeMap)
        ensures
            r@ == self@.account_nodes,
    {
        &self.account_nodes
    }

    /// Returns a reference to removed account nodes.
    pub fn removed_nodes_ref(&self) -> (r: &NibblesSet)
        ensures
            r@ == self@.removed_nodes,
    {
        &self.removed_nodes
    }

    /// Returns a reference to updated storage tries.
    pub fn storage_tries_ref(&self) -> (r: &B256Map<StorageTrieUpdates>)
        ensures
            storage_views(r@) == self@.storage_tries,
    {
        &self.storage_tries
    }

    /// Lays `other` over the storage trie at `address` (or over none).
    fn merge_storage_trie(&mut self, address: B256, other: StorageTrieUpdates)
        ensures
            final(self)@ == (TrieView {
                storage_tries: old(self)@.storage_tries.insert(
                    address.path(),
                    merge_storage(storage_or_empty(old(self)@.storage_tries, address.path()), other@),
                ),
                ..old(self)@
            }),
    {
        let mut current = match self.storage_tries.remove(&address) {
            Some(current) => current,
            None => StorageTrieUpdates::default(),
        };
        current.extend(other);
        let _ = self.storage_tries.insert(address, current);
        proof {
            assert(storage_views(self.storage_tries@) =~= old(self)@.storage_tries.insert(
                address.path(),
                merge_storage(storage_or_empty(old(self)@.storage_tries, address.path()), other@),
            ));
        }
    }

    /// Lays a borrowed `other` over the storage trie at `address` (or over none).
    fn merge_storage_trie_ref(&mut self, address: B256, other: &StorageTrieUpdates)
        ensures
            final(self)@ == (TrieView {
                storage_tries: old(self)@.storage_tries.insert(
                    address.path(),
                    merge_storage(storage_or_empty(old(self)@.storage_tries, address.path()), other@),
                ),
                ..old(self)@
            }),
    {
        let mut current = match self.storage_tries.remove(&address) {
            Some(current) => current,
            None => StorageTrieUpdates::default(),
        };
        current.extend_ref(other);
        let _ = self.storage_tries.insert(address, current);
        proof {
            assert(storage_views(self.storage_tries@) =~= old(self)@.storage_tries.insert(
                address.path(),
                merge_storage(storage_or_empty(old(self)@.storage_tries, address.path()), other@),
            ));
        }
    }

    /// Adds account nodes at nonempty paths and nonempty removed paths.
    fn add_nonempty(&mut self, nodes: Vec<(Nibbles, BranchNodeCompact)>, removed: Vec<Nibbles>)
        requires
            distinct_paths(nodes@),
        ensures
            final(self)@ == (TrieView {
                account_nodes: old(self)@.account_nodes.union_prefer_right(nonempty_nodes(entries_map(nodes@))),
                removed_nodes: old(self)@.removed_nodes.union(nonempty_paths(keys_set(removed@))),
                ..old(self)@
            }),
    {
        proof {
            lemma_filter_entries(nodes@);
            lemma_filter_keys(removed@);
        }
        self.account_nodes.insert_all(exclude_empty_from_pair(nodes));
        self.removed_nodes.insert_all(exclude_empty(removed));
    }

    /// Extends the trie updates: the result is these updates followed by `other`.
    pub fn extend(&mut self, other: Self)
        ensures
            final(self)@ == merge_tries(old(self)@, other@),
    {
        self.extend_common(&other);
        let ghost other_view = other@;
        let removed = other.removed_nodes.to_vec();
        self.add_nonempty(other.account_nodes.into_entries(), removed);
        let ghost before = self@;
        let mut rest = other.storage_tries.into_entries();
        let ghost orig = rest@;
        proof {
            lemma_entries_map_empty(orig.skip(orig.len() as int));
            assert(self@.storage_tries =~= merge_storage_tries(before.storage_tries, storage_views(entries_map(orig.skip(orig.len() as int)))));
        }
        while rest.len() > 0
            invariant
                distinct_paths(orig),
                rest.len() <= orig.len(),
                rest@ == orig.take(rest.len() as int),
                self@ == (TrieView {
                    storage_tries: merge_storage_tries(before.storage_tries, storage_views(entries_map(orig.skip(rest.len() as int)))),
                    ..before
                }),
            decreases rest.len(),
        {
            let ghost n = rest.len() as int;
            let e = rest.pop().unwrap();
            proof {
                assert(e == orig[n - 1]);
                assert(rest@ =~= orig.take(n - 1));
                lemma_entries_map_skip(orig, n);
            }
            let ghost cur = self@.storage_tries;
            self.merge_storage_trie(e.0, e.1);
            proof {
                let p = storage_views(entries_map(orig.skip(n)));
                let q = storage_views(entries_map(orig.skip(n - 1)));
                assert(q =~= p.insert(e.0.path(), e.1@));
                assert(storage_or_empty(cur, e.0.path()) == storage_or_empty(before.storage_tries, e.0.path()));
                assert(self@.storage_tries =~= merge_storage_tries(before.storage_tries, q));
            }
        }
        proof {
            assert(orig.skip(0) =~= orig);
            assert(storage_views(entries_map(orig)) == other_view.storage_tries);
        }
    }

    /// Extends the trie updates by a borrowed `other`, with the same result as `extend`.
    pub fn extend_ref(&mut self, other: &Self)
        ensures
            final(self)@ == merge_tries(old(self)@, other@),
    {
        self.extend_common(other);
        let copy = other.account_nodes.clone();
        proof {
            assert(copy@ =~= other.account_nodes@);
        }
        let copies = copy.into_entries();
        self.add_nonempty(copies, other.removed_nodes.to_vec());
        let ghost before = self@;
        let tries = other.storage_tries.entries();
        let mut i: usize = 0;
        proof {
            lemma_entries_map_empty(tries@.take(0));
            assert(self@.storage_tries =~= merge_storage_tries(before.storage_tries, storage_views(entries_map(tries@.take(0)))));
        }
        while i < tries.len()
            invariant
                distinct_paths(tries@),
                i <= tries@.len(),
                self@ == (TrieView {
                    storage_tries: merge_storage_tries(before.storage_tries, storage_views(entries_map(tries@.take(i as int)))),
                    ..before
                }),
            decreases tries@.len() - i,
        {
            let e = &tries[i];
            proof {
                lemma_entries_map_take(tries@, i as int);
            }
            let ghost cur = self@.storage_tries;
            self.merge_storage_trie_ref(e.0, &e.1);
            proof {
                let p = storage_views(entries_map(tries@.take(i as int)));
                let q = storage_views(entries_map(tries@.take(i + 1)));
                assert(q =~= p.insert(e.0.path(), e.1@));
                assert(storage_or_empty(cur, e.0.path()) == storage_or_empty(before.storage_tries, e.0.path()));
                assert(self@.storage_tries =~= merge_storage_tries(before.storage_tries, q));
            }
            i = i + 1;
        }
        proof {
            assert(tries@.take(tries@.len() as int) =~= tries@);
        }
    }

    /// What both ways of extending share: account nodes at paths that `other` removed go.
    fn extend_common(&mut self, other: &Self)
        ensures
            final(self)@ == (TrieView {
                account_nodes: old(self)@.account_nodes.remove_keys(other@.removed_nodes),
                ..old(self)@
            }),
    {
        self.account_nodes.remove_all_in(&other.removed_nodes);
    }

    /// Insert storage updates for a given hashed address; updates that record nothing are left
    /// out. An address is given nonempty updates at most once; a second insertion for it is a
    /// caller error.
    pub fn insert_storage_updates(&mut self, hashed_address: B256, storage_updates: StorageTrieUpdates)
        requires
            storage_is_empty(storage_updates@) || !old(self)@.storage_tries.contains_key(hashed_address.path()),
        ensures
            final(self)@ == (if storage_is_empty(storage_updates@) {
                old(self)@
            } else {
                TrieView {
                    storage_tries: old(self)@.storage_tries.insert(hashed_address.path(), storage_updates@),
                    ..old(self)@
                }
            }),
    {
        if storage_updates.is_empty() {
            return;
        }
        let ghost updates = storage_updates@;
        let _existing = self.storage_tries.insert(hashed_address, storage_updates);
        proof {
            assert(storage_views(self.storage_tries@) =~= old(self)@.storage_tries.insert(hashed_address.path(), updates));
        }
    }

    /// Records the account nodes and removed paths of a finished trie walk (at nonempty paths)
    /// and marks the storage tries of the destroyed accounts as wiped.
    pub fn finalize_with_updates(
        &mut self,
        updated_nodes: NodeMap,
        removed_keys: NibblesSet,
        destroyed_accounts: B256Set,
    )
        ensures
            final(self)@ == finalize_trie(old(self)@, updated_nodes@, removed_keys@, destroyed_accounts@),
    {
        let removed = removed_keys.to_vec();
        self.add_nonempty(updated_nodes.into_entries(), removed);
        let ghost before = self@;
        let destroyed = destroyed_accounts.to_vec();
        let mut i: usize = 0;
        proof {
            assert(keys_set(destroyed@.take(0)) =~= Set::<Seq<u8>>::empty());
            assert(self@.storage_tries =~= mark_destroyed(before.storage_tries, keys_set(destroyed@.take(0))));
        }
        while i < destroyed.len()
            invariant
                i <= destroyed@.len(),
                self@ == (TrieView {
                    storage_tries: mark_destroyed(before.storage_tries, keys_set(destroyed@.take(i as int))),
                    ..before
                }),
            decreases destroyed@.len() - i,
        {
            let address = destroyed[i];
            let ghost cur = self@.storage_tries;
            let mut current = match self.storage_tries.remove(&address) {
                Some(current) => current,
                None => StorageTrieUpdates::default(),
            };
            current.set_deleted(true);
            let _ = self.storage_tries.insert(address, current);
            proof {
                lemma_keys_set_take_next(destroyed@, i as int);
                let d = keys_set(destroyed@.take(i + 1));
                assert(storage_views(self.storage_tries@) =~= cur.insert(
                    address.path(),
                    StorageView { is_deleted: true, ..storage_or_empty(cur, address.path()) },
                ));
                assert(storage_views(self.storage_tries@) =~= mark_destroyed(before.storage_tries, d));
            }
            i = i + 1;
        }
        proof {
            assert(destroyed@.take(destroyed@.len() as int) =~= destroyed@);
        }
    }

    /// Finalize state trie updates: records the account nodes that the hash builder holds as
    /// updated and the removed paths (at nonempty paths), and marks the storage tries of the
    /// destroyed accounts as wiped.
    pub fn finalize(&mut self, hash_builder: HashBuilder, removed_keys: NibblesSet, destroyed_accounts: B256Set)
        ensures
            final(self)@ == finalize_trie(old(self)@, hash_builder_updates(hash_builder), removed_keys@, destroyed_accounts@),
    {
        let ghost builder = hash_builder;
        let split = split_updates(hash_builder);
        let mut updated_nodes: NodeMap = PathMap::new();
        updated_nodes.insert_all(split);
        proof {
            assert(updated_nodes@ =~= hash_builder_updates(builder));
        }
        self.finalize_with_updates(updated_nodes, removed_keys, destroyed_accounts);
    }

    /// Sorts each storage trie of the map.
    fn sort_storage_tries(tries: B256Map<StorageTrieUpdates>) -> (r: B256Map<StorageTrieUpdatesSorted>)
        ensures
            sorts_storage_tries(r@, storage_views(tries@)),
    {
        let mut rest = tries.into_entries();
        let ghost orig = rest@;
        let mut sorted: B256Map<StorageTrieUpdatesSorted> = PathMap::new();
        proof {
            lemma_entries_map_empty(orig.skip(orig.len() as int));
            assert(sorted@.dom() =~= storage_views(entries_map(orig.skip(orig.len() as int))).dom());
        }
        while rest.len() > 0
            invariant
                distinct_paths(orig),
                rest.len() <= orig.len(),
                rest@ == orig.take(rest.len() as int),
                sorts_storage_tries(sorted@, storage_views(entries_map(orig.skip(rest.len() as int)))),
            decreases rest.len(),
        {
            let ghost n = rest.len() as int;
            let e = rest.pop().unwrap();
            proof {
                assert(e == orig[n - 1]);
                assert(rest@ =~= orig.take(n - 1));
                lemma_entries_map_skip(orig, n);
            }
            let ghost v = e.1@;
            let s = e.1.into_sorted();
            let _ = sorted.insert(e.0, s);
            proof {
                let q = storage_views(entries_map(orig.skip(n - 1)));
                assert(sorted@.dom() =~= q.dom());
            }
        }
        proof {
            assert(orig.skip(0) =~= orig);
        }
        sorted
    }

    /// Converts trie updates into [`TrieUpdatesSorted`]: the account nodes sorted by path, and
    /// each storage trie sorted.
    pub fn into_sorted(self) -> (r: TrieUpdatesSorted)
        ensures
            sorts_trie(r, self@),
    {
        let account_nodes = sort_entries(self.account_nodes.into_entries());
        let storage_tries = Self::sort_storage_tries(self.storage_tries);
        TrieUpdatesSorted { removed_nodes: self.removed_nodes, account_nodes, storage_tries }
    }

    /// Converts trie updates into [`TrieUpdatesSorted`] by draining: everything these updates
    /// held moves into the result, and all their fields are left empty, keeping their
    /// allocations.
    pub fn drain_into_sorted(&mut self) -> (r: TrieUpdatesSorted)
        ensures
            sorts_trie(r, old(self)@),
            final(self)@ == empty_trie(),
    {
        let account_nodes = sort_entries(self.account_nodes.drain());
        let ghost old_tries = old(self).storage_tries@;
        let drained = self.storage_tries.drain();
        let mut tries: B256Map<StorageTrieUpdates> = PathMap::new();
        tries.insert_all(drained);
        proof {
            assert(tries@ =~= old_tries);
        }
        let storage_tries = Self::sort_storage_tries(tries);
        let removed_nodes = self.removed_nodes.drain();
        proof {
            assert(storage_views(self.storage_tries@) =~= Map::<Seq<u8>, StorageView>::empty());
        }
        TrieUpdatesSorted { removed_nodes, account_nodes, storage_tries }
    }

    /// Converts trie updates into [`TrieUpdatesSortedRef`]: references to the account nodes and
    /// removed paths sorted by path, and each storage trie by reference, sorted by address.
    pub fn into_sorted_ref(&self) -> (r: TrieUpdatesSortedRef<'_>)
        ensures
            sorts_trie_ref(r, self@),
    {
        let account_nodes = sort_entry_refs(self.account_nodes.entries());
        let removed_nodes = sort_key_refs(self.removed_nodes.members());
        let tries = self.storage_tries.entries();
        let mut refs: Vec<(B256, StorageTrieUpdatesSortedRef<'_>)> = Vec::new();
        let mut i: usize = 0;
        while i < tries.len()
            invariant
                i <= tries@.len(),
                refs@.len() == i,
                forall|j: int| 0 <= j < i ==> (#[trigger] refs@[j]).0 == tries@[j].0 && sorts_storage_ref(refs@[j].1, tries@[j].1@),
            decreases tries@.len() - i,
        {
            let e = &tries[i];
            refs.push((e.0, e.1.into_sorted_ref()));
            i = i + 1;
        }
        proof {
            assert(distinct_paths(refs@)) by {
                assert forall|a: int, b: int| 0 <= a < refs@.len() && 0 <= b < refs@.len() && a != b implies refs@[a].0.path() != refs@[b].0.path() by {
                    assert(refs@[a].0 == tries@[a].0 && refs@[b].0 == tries@[b].0);
                }
            }
            assert forall|k: Seq<u8>| entries_map(refs@).contains_key(k) <==> entries_map(tries@).contains_key(k) by {
                if entries_map(refs@).contains_key(k) {
                    let a = choose|a: int| #[trigger] has_path_at(refs@, a, k);
                    assert(refs@[a].0 == tries@[a].0);
                    assert(has_path_at(tries@, a, k));
                }
                if entries_map(tries@).contains_key(k) {
                    let a = choose|a: int| #[trigger] has_path_at(tries@, a, k);
                    assert(refs@[a].0 == tries@[a].0);
                    assert(has_path_at(refs@, a, k));
                }
            }
            assert forall|k: Seq<u8>| #[trigger] entries_map(refs@).contains_key(k) implies sorts_storage_ref(entries_map(refs@)[k], storage_views(self.storage_tries@)[k]) by {
                let a = choose|a: int| #[trigger] has_path_at(refs@, a, k);
                assert(refs@[a].0 == tries@[a].0);
                lemma_entries_map_lookup(refs@, a);
                lemma_entries_map_lookup(tries@, a);
            }
        }
        let storage_tries = sort_entries(refs);
        proof {
            assert(entries_map(storage_tries@).dom() =~= storage_views(self.storage_tries@).dom());
        }
        TrieUpdatesSortedRef { account_nodes, removed_nodes, storage_tries }
    }

    /// Clears the nodes and storage trie maps in this `TrieUpdates`.
    pub fn clear(&mut self)
        ensures
            final(self)@ == empty_trie(),
    {
        self.account_nodes.clear();
        self.removed_nodes.clear();
        self.storage_tries.clear();
        proof {
            assert(storage_views(self.storage_tries@) =~= Map::<Seq<u8>, StorageView>::empty());
        }
    }
}

/// Sorted trie updates reference used for serializing trie to file.
#[derive(Debug, Clone)]
pub struct TrieUpdatesSortedRef<'a> {
    /// Sorted collection of updated state nodes with corresponding paths.
    pub account_nodes: Vec<(&'a Nibbles, &'a BranchNodeCompact)>,
    /// The set of removed state node keys, sorted.
    pub removed_nodes: Vec<&'a Nibbles>,
    /// Storage tries stored by hashed address of the account the trie belongs to, sorted by
    /// address.
    pub storage_tries: Vec<(B256, StorageTrieUpdatesSortedRef<'a>)>,
}

/// Sorted trie updates used for lookups and insertions.
#[derive(Debug, Clone)]
pub struct TrieUpdatesSorted {
    /// Sorted collection of updated state nodes with corresponding paths.
    pub account_nodes: Vec<(Nibbles, BranchNodeCompact)>,
    /// The set of removed state node keys.
    pub removed_nodes: NibblesSet,
    /// Storage tries stored by hashed address of the account the trie belongs to.
    pub storage_tries: B256Map<StorageTrieUpdatesSorted>,
}

/// Two maps of sorted storage trie updates hold the same addresses, with the same sorted updates.
pub open spec fn same_sorted_storage_tries(
    a: Map<Seq<u8>, StorageTrieUpdatesSorted>,
    b: Map<Seq<u8>, StorageTrieUpdatesSorted>,
) -> bool {
    &&& a.dom() == b.dom()
    &&& forall|k: Seq<u8>| #[trigger] a.contains_key(k) ==> same_sorted_storage(a[k], b[k])
}

/// Whether every address of `a` is in `b` with the same sorted updates.
fn sorted_tries_within(a: &B256Map<StorageTrieUpdatesSorted>, b: &B256Map<StorageTrieUpdatesSorted>) -> (r: bool)
    ensures
        r == (forall|p: Seq<u8>| #[trigger] a@.contains_key(p) ==> b@.contains_key(p) && same_sorted_storage(a@[p], b@[p])),
{
    let entries = a.entries();
    let mut i: usize = 0;
    while i < entries.len()
        invariant
            i <= entries@.len(),
            distinct_paths(entries@),
            entries_map(entries@) == a@,
            forall|j: int| 0 <= j < i ==> #[trigger] b@.contains_key(entries@[j].0.path())
                && same_sorted_storage(entries@[j].1, b@[entries@[j].0.path()]),
        decreases entries@.len() - i,
    {
        let e = &entries[i];
        proof {
            lemma_entries_map_lookup(entries@, i as int);
        }
        match b.get(&e.0) {
            Some(storage) => {
                if !(e.1 == *storage) {
                    return false;
                }
            },
            None => {
                return false;
            },
        }
        i = i + 1;
    }
    proof {
        assert forall|p: Seq<u8>| #[trigger] a@.contains_key(p) implies b@.contains_key(p) && same_sorted_storage(a@[p], b@[p]) by {
            let j = choose|j: int| #[trigger] has_path_at(entries@, j, p);
            lemma_entries_map_lookup(entries@, j);
            assert(b@.contains_key(entries@[j].0.path()));
        }
    }
    true
}

impl PartialEq for PathMap<B256, StorageTrieUpdatesSorted> {
    fn eq(&self, other: &Self) -> (r: bool) {
        let within = sorted_tries_within(self, other);
        let r = within && self.len() == other.len();
        proof {
            self.lemma_finite();
            other.lemma_finite();
            if r {
                assert(self@.dom().subset_of(other@.dom()));
                vstd::set_lib::lemma_subset_equality(self@.dom(), other@.dom());
                assert(self@.dom() =~= other@.dom());
            }
        }
        r
    }
}

impl PartialEqSpecImpl for PathMap<B256, StorageTrieUpdatesSorted> {
    open spec fn obeys_eq_spec() -> bool {
        true
    }

    open spec fn eq_spec(&self, other: &Self) -> bool {
        same_sorted_storage_tries(self@, other@)
    }
}

/// Two sorted trie updates are the same: the account nodes at each position, the removed paths
/// and the sorted storage tries agree.
pub open spec fn same_sorted_trie(a: TrieUpdatesSorted, b: TrieUpdatesSorted) -> bool {
    &&& same_entries(a.account_nodes@, b.account_nodes@)
    &&& a.removed_nodes@ == b.removed_nodes@
    &&& same_sorted_storage_tries(a.storage_tries@, b.storage_tries@)
}

impl PartialEq for TrieUpdatesSorted {
    fn eq(&self, other: &Self) -> (r: bool) {
        node_lists_equal(&self.account_nodes, &other.account_nodes) && self.removed_nodes == other.removed_nodes
            && self.storage_tries == other.storage_tries
    }
}

impl PartialEqSpecImpl for TrieUpdatesSorted {
    open spec fn obeys_eq_spec() -> bool {
        true
    }

    open spec fn eq_spec(&self, other: &Self) -> bool {
        same_sorted_trie(*self, *other)
    }
}

/// Two sorted views by reference are the same: account nodes, removed paths and storage tries
/// agree at each position.
pub open spec fn same_sorted_trie_ref(a: TrieUpdatesSortedRef, b: TrieUpdatesSortedRef) -> bool {
    &&& same_entries(a.account_nodes@, b.account_nodes@)
    &&& same_keys(a.removed_nodes@, b.removed_nodes@)
    &&& a.storage_tries@.len() == b.storage_tries@.len()
    &&& forall|i: int| #![trigger a.storage_tries@[i]] 0 <= i < a.storage_tries@.len()
        ==> a.storage_tries@[i].0.path() == b.storage_tries@[i].0.path()
            && same_sorted_storage_ref(a.storage_tries@[i].1, b.storage_tries@[i].1)
}

impl<'a> PartialEq for TrieUpdatesSortedRef<'a> {
    fn eq(&self, other: &Self) -> (r: bool) {
        if !node_ref_lists_equal(&self.account_nodes, &other.account_nodes)
            || !key_ref_lists_equal(&self.removed_nodes, &other.removed_nodes)
            || self.storage_tries.len() != other.storage_tries.len() {
            return false;
        }
        let mut i: usize = 0;
        while i < self.storage_tries.len()
            invariant
                i <= self.storage_tries@.len(),
                self.storage_tries@.len() == other.storage_tries@.len(),
                forall|j: int| #![trigger self.storage_tries@[j]] 0 <= j < i
                    ==> self.storage_tries@[j].0.path() == other.storage_tries@[j].0.path()
                        && same_sorted_storage_ref(self.storage_tries@[j].1, other.storage_tries@[j].1),
            decreases self.storage_tries@.len() - i,
        {
            if !self.storage_tries[i].0.same_path(&other.storage_tries[i].0)
                || !(self.storage_tries[i].1 == other.storage_tries[i].1) {
                return false;
            }
            i = i + 1;
        }
        true
    }
}

impl<'a> PartialEqSpecImpl for TrieUpdatesSortedRef<'a> {
    open spec fn obeys_eq_spec() -> bool {
        true
    }

    open spec fn eq_spec(&self, other: &Self) -> bool {
        same_sorted_trie_ref(*self, *other)
    }
}

impl Eq for TrieUpdates {}

impl Eq for TrieUpdatesSorted {}

impl<'a> Eq for TrieUpdatesSortedRef<'a> {}

impl Default for TrieUpdatesSorted {
    fn default() -> (r: Self)
        ensures
            sorts_trie(r, empty_trie()),
    {
        let r = TrieUpdatesSorted { account_nodes: Vec::new(), removed_nodes: PathSet::new(), storage_tries: PathMap::new() };
        proof {
            lemma_entries_map_empty(r.account_nodes@);
            assert(r.storage_tries@.dom() =~= Set::<Seq<u8>>::empty());
        }
        r
    }
}

impl<'a> Default for TrieUpdatesSortedRef<'a> {
    fn default() -> (r: Self)
        ensures
            sorts_trie_ref(r, empty_trie()),
    {
        let r = TrieUpdatesSortedRef { account_nodes: Vec::new(), removed_nodes: Vec::new(), storage_tries: Vec::new() };
        proof {
            lemma_entries_map_empty(r.account_nodes@);
            lemma_entries_map_empty(r.storage_tries@);
            assert(deref_map(entries_map(r.account_nodes@)) =~= Map::<Seq<u8>, BranchNodeCompact>::empty());
            assert(keys_set(r.removed_nodes@) =~= Set::<Seq<u8>>::empty());
            assert(entries_map(r.storage_tries@).dom() =~= Set::<Seq<u8>>::empty());
        }
        r
    }
}

impl TrieUpdatesSorted {
    /// Returns reference to updated account nodes.
    pub fn account_nodes_ref(&self) -> (r: &[(Nibbles, BranchNodeCompact)])
        ensures
            r@ == self.account_nodes@,
    {
        self.account_nodes.as_slice()
    }

    /// Returns reference to removed account nodes.
    pub fn removed_nodes_ref(&self) -> (r: &NibblesSet)
        ensures
            r@ == self.removed_nodes@,
    {
        &self.removed_nodes
    }

    /// Returns reference to updated storage tries.
    pub fn storage_tries_ref(&self) -> (r: &B256Map<StorageTrieUpdatesSorted>)
        ensures
            r@ == self.storage_tries@,
    {
        &self.storage_tries
    }
}

} // verus!

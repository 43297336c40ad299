//! Trie updates for the storage trie of a single account.
use vstd::prelude::*;
use alloy_trie::{BranchNodeCompact, HashBuilder};
use nybbles::Nibbles;
use crate::keys::TrieKey;
use vstd::std_specs::cmp::PartialEqSpecImpl;
use crate::nodes::{
    key_ref_lists_equal, node_lists_equal, node_ref_lists_equal, same_entries, same_keys,
    exclude_empty, exclude_empty_from_pair, lemma_filter_entries, lemma_filter_keys,
    hash_builder_updates, nonempty_entry, nonempty_nodes, nonempty_paths, split_updates, NibblesSet,
    NodeMap,
};
use crate::path_map::{
    distinct_keys, distinct_paths, entries_map, keys_set, PathMap,
    PathSet,
};
use crate::sort::{deref_map, sort_entries, sort_entry_refs, sort_key_refs, sorted_by_path, sorted_keys};

verus! {

/// What storage trie updates hold: whether the trie was wiped, the updated nodes by path, and the
/// removed paths.
pub ghost struct StorageView {
    pub is_deleted: bool,
    pub nodes: Map<Seq<u8>, BranchNodeCompact>,
    pub removed: Set<Seq<u8>>,
}

/// No update at all.
pub open spec fn empty_storage() -> StorageView {
    StorageView { is_deleted: false, nodes: Map::empty(), removed: Set::empty() }
}

/// Updates that record nothing: the trie is not wiped and no node changed or went away.
pub open spec fn storage_is_empty(v: StorageView) -> bool {
    !v.is_deleted && v.nodes == Map::<Seq<u8>, BranchNodeCompact>::empty() && v.removed == Set::<Seq<u8>>::empty()
}

/// What `a` keeps of itself when `b` is laid over it: if `b` wiped the trie, nothing; then the
/// nodes at paths that `b` removed go.
pub open spec fn storage_base(a: StorageView, b: StorageView) -> StorageView {
    StorageView {
        is_deleted: a.is_deleted || b.is_deleted,
        nodes: (if b.is_deleted { Map::empty() } else { a.nodes }).remove_keys(b.removed),
        removed: if b.is_deleted { Set::empty() } else { a.removed },
    }
}

/// The updates `a` followed by the updates `b`: `b`'s nodes at nonempty paths are added over
/// what is left of `a`, and `b`'s nonempty removed paths join `a`'s.
pub open spec fn merge_storage(a: StorageView, b: StorageView) -> StorageView {
    let base = storage_base(a, b);
    StorageView {
        is_deleted: base.is_deleted,
        nodes: base.nodes.union_prefer_right(nonempty_nodes(b.nodes)),
        removed: base.removed.union(nonempty_paths(b.removed)),
    }
}

/// `a` with the nodes a hash builder produced and the paths found removed recorded, empty paths
/// left out.
pub open spec fn finalize_storage(
    a: StorageView,
    updated: Map<Seq<u8>, BranchNodeCompact>,
    removed_keys: Set<Seq<u8>>,
) -> StorageView {
    StorageView {
        is_deleted: a.is_deleted,
        nodes: a.nodes.union_prefer_right(nonempty_nodes(updated)),
        removed: a.removed.union(nonempty_paths(removed_keys)),
    }
}

/// Trie updates for the storage trie of a single account.
#[derive(Debug)]
pub struct StorageTrieUpdates {
    /// Flag indicating whether the trie was deleted.
    pub is_deleted: bool,
    /// Collection of updated storage trie nodes.
    pub storage_nodes: NodeMap,
    /// Collection of removed storage trie nodes.
    pub removed_nodes: NibblesSet,
}

impl View for StorageTrieUpdates {
    type V = StorageView;

    open spec fn view(&self) -> StorageView {
        StorageView { is_deleted: self.is_deleted, nodes: self.storage_nodes@, removed: self.removed_nodes@ }
    }
}

impl Clone for StorageTrieUpdates {
    /// A copy of the updates.
    fn clone(&self) -> (r: Self)
        ensures
            r@ == self@,
    {
        let storage_nodes = self.storage_nodes.clone();
        proof {
            assert(storage_nodes@ =~= self.storage_nodes@);
        }
        StorageTrieUpdates { is_deleted: self.is_deleted, storage_nodes, removed_nodes: self.removed_nodes.clone() }
    }
}

impl PartialEq for StorageTrieUpdates {
    fn eq(&self, other: &Self) -> (r: bool) {
        self.is_deleted == other.is_deleted && self.storage_nodes == other.storage_nodes
            && self.removed_nodes == other.removed_nodes
    }
}

impl PartialEqSpecImpl for StorageTrieUpdates {
    open spec fn obeys_eq_spec() -> bool {
        true
    }

    open spec fn eq_spec(&self, other: &Self) -> bool {
        self@ == other@
    }
}

impl Default for StorageTrieUpdates {
    fn default() -> (r: Self)
        ensures
            r@ == empty_storage(),
    {
        StorageTrieUpdates { is_deleted: false, storage_nodes: PathMap::new(), removed_nodes: PathSet::new() }
    }
}

/// The sorted form of storage trie updates lists the same updates.
pub open spec fn sorts_storage(s: StorageTrieUpdatesSorted, v: StorageView) -> bool {
    &&& s.is_deleted == v.is_deleted
    &&& s.removed_nodes@ == v.removed
    &&& distinct_paths(s.storage_nodes@)
    &&& sorted_by_path(s.storage_nodes@)
    &&& entries_map(s.storage_nodes@) == v.nodes
}

/// The sorted view by reference lists the same updates.
pub open spec fn sorts_storage_ref(s: StorageTrieUpdatesSortedRef, v: StorageView) -> bool {
    &&& s.is_deleted == v.is_deleted
    &&& distinct_paths(s.storage_nodes@)
    &&& sorted_by_path(s.storage_nodes@)
    &&& deref_map(entries_map(s.storage_nodes@)) == v.nodes
    &&& distinct_keys(s.removed_nodes@)
    &&& sorted_keys(s.removed_nodes@)
    &&& keys_set(s.removed_nodes@) == v.removed
}

/// The map that pairs list when a later pair for a path replaces an earlier one.
pub open spec fn pairs_map(s: Seq<(Nibbles, BranchNodeCompact)>) -> Map<Seq<u8>, BranchNodeCompact>
    decreases s.len(),
{
    if s.len() == 0 {
        Map::empty()
    } else {
        pairs_map(s.drop_last()).insert(s.last().0.path(), s.last().1)
    }
}

impl StorageTrieUpdates {
    /// Creates storage trie updates that are not marked as deleted, holding the given nodes at
    /// nonempty paths (a later node for a path replaces an earlier one).
    pub fn new(updates: Vec<(Nibbles, BranchNodeCompact)>) -> (r: Self)
        ensures
            r@ == (StorageView {
                is_deleted: false,
                nodes: pairs_map(updates@.filter(nonempty_entry::<BranchNodeCompact>())),
                removed: Set::empty(),
            }),
    {
        let mut rest = exclude_empty_from_pair(updates);
        let ghost kept = rest@;
        let mut nodes: NodeMap = PathMap::new();
        proof {
            assert(kept.take(0).len() == 0);
            assert(kept.skip(0) =~= kept);
        }
        while rest.len() > 0
            invariant
                rest.len() <= kept.len(),
                rest@ == kept.skip(kept.len() - rest.len()),
                nodes@ == pairs_map(kept.take(kept.len() - rest.len())),
            decreases rest.len(),
        {
            let ghost done = kept.len() - rest.len();
            let e = rest.remove(0);
            proof {
                assert(e == kept[done]);
                assert(rest@ =~= kept.skip(done + 1));
                assert(kept.take(done + 1).drop_last() =~= kept.take(done));
            }
            let _ = nodes.insert(e.0, e.1);
        }
        proof {
            assert(kept.take(kept.len() as int) =~= kept);
        }
        StorageTrieUpdates { is_deleted: false, storage_nodes: nodes, removed_nodes: PathSet::new() }
    }

    /// Returns empty storage trie updates with `deleted` set to `true`.
    pub fn deleted() -> (r: Self)
        ensures
            r@ == (StorageView { is_deleted: true, nodes: Map::empty(), removed: Set::empty() }),
    {
        StorageTrieUpdates { is_deleted: true, storage_nodes: PathMap::new(), removed_nodes: PathSet::new() }
    }

    /// Returns the length of updated nodes: one for the deletion flag when set, plus the updated
    /// and the removed nodes.
    pub fn len(&self) -> (r: usize)
        requires
            (if self.is_deleted { 1int } else { 0int }) + self.storage_nodes@.len() + self.removed_nodes@.len() <= usize::MAX,
        ensures
            self@.nodes.dom().finite(),
            self@.removed.finite(),
            r == (if self.is_deleted { 1int } else { 0int }) + self@.nodes.len() + self@.removed.len(),
    {
        let flag: usize = if self.is_deleted { 1 } else { 0 };
        let nodes = self.storage_nodes.len();
        let removed = self.removed_nodes.len();
        flag + nodes + removed
    }

    /// Returns `true` if the trie was deleted.
    pub fn is_deleted(&self) -> (r: bool)
        ensures
            r == self.is_deleted,
    {
        self.is_deleted
    }

    /// Returns reference to updated storage nodes.
    pub fn storage_nodes_ref(&self) -> (r: &NodeMap)
        ensures
            r@ == self@.nodes,
    {
        &self.storage_nodes
    }

    /// Returns reference to removed storage nodes.
    pub fn removed_nodes_ref(&self) -> (r: &NibblesSet)
        ensures
            r@ == self@.removed,
    {
        &self.removed_nodes
    }

    /// Returns `true` if storage updates are empty.
    pub fn is_empty(&self) -> (r: bool)
        ensures
            r == storage_is_empty(self@),
            self@.nodes.dom().finite() && self@.removed.finite(),
            r == ((if self.is_deleted { 1int } else { 0int }) + self@.nodes.len() + self@.removed.len() == 0),
    {
        proof {
            self.storage_nodes.lemma_finite();
            self.removed_nodes.lemma_finite();
            crate::laws::storage_empty_iff_len_zero(self@);
        }
        !self.is_deleted && self.storage_nodes.is_empty() && self.removed_nodes.is_empty()
    }

    /// Sets `deleted` flag on the storage trie.
    pub fn set_deleted(&mut self, deleted: bool)
        ensures
            final(self)@ == (StorageView { is_deleted: deleted, ..old(self)@ }),
    {
        self.is_deleted = deleted;
    }

    /// What both ways of extending share: a wipe in `other` clears these updates, the flag is
    /// carried over, and the nodes at paths that `other` removed go.
    fn extend_common(&mut self, other: &Self)
        ensures
            final(self)@ == storage_base(old(self)@, other@),
    {
        if other.is_deleted {
            self.storage_nodes.clear();
            self.removed_nodes.clear();
        }
        self.is_deleted = self.is_deleted || other.is_deleted;
        self.storage_nodes.remove_all_in(&other.removed_nodes);
    }

    /// Adds the nodes at nonempty paths and the nonempty removed paths.
    fn add_nonempty(&mut self, nodes: Vec<(Nibbles, BranchNodeCompact)>, removed: Vec<Nibbles>)
        requires
            distinct_paths(nodes@),
        ensures
            final(self)@ == (StorageView {
                is_deleted: old(self)@.is_deleted,
                nodes: old(self)@.nodes.union_prefer_right(nonempty_nodes(entries_map(nodes@))),
                removed: old(self)@.removed.union(nonempty_paths(keys_set(removed@))),
            }),
    {
        proof {
            lemma_filter_entries(nodes@);
            lemma_filter_keys(removed@);
        }
        self.storage_nodes.insert_all(exclude_empty_from_pair(nodes));
        self.removed_nodes.insert_all(exclude_empty(removed));
    }

    /// Extends storage trie updates: the result is these updates followed by `other`.
    pub fn extend(&mut self, other: Self)
        ensures
            final(self)@ == merge_storage(old(self)@, other@),
    {
        self.extend_common(&other);
        let removed = other.removed_nodes.to_vec();
        self.add_nonempty(other.storage_nodes.into_entries(), removed);
    }

    /// Extends storage trie updates by a borrowed `other`, with the same result as `extend`.
    pub fn extend_ref(&mut self, other: &Self)
        ensures
            final(self)@ == merge_storage(old(self)@, other@),
    {
        self.extend_common(other);
        let copy = other.storage_nodes.clone();
        proof {
            assert(copy@ =~= other.storage_nodes@);
        }
        let copies = copy.into_entries();
        self.add_nonempty(copies, other.removed_nodes.to_vec());
    }

    /// Records the updated nodes and removed paths of a finished trie walk: what `updated_nodes`
    /// holds at nonempty paths, and the nonempty paths of `removed_keys`.
    pub fn finalize_with_updates(&mut self, updated_nodes: NodeMap, removed_keys: NibblesSet)
        ensures
            final(self)@ == finalize_storage(old(self)@, updated_nodes@, removed_keys@),
    {
        let removed = removed_keys.to_vec();
        self.add_nonempty(updated_nodes.into_entries(), removed);
    }

    /// Finalizes storage trie updates with what the trie walk produced: records
    /// the nodes that the hash builder holds as updated, at nonempty paths, and the nonempty paths
    /// of `removed_keys`.
    pub fn finalize(&mut self, hash_builder: HashBuilder, removed_keys: NibblesSet)
        ensures
            final(self)@ == finalize_storage(old(self)@, hash_builder_updates(hash_builder), removed_keys@),
    {
        let ghost builder = hash_builder;
        let split = split_updates(hash_builder);
        let mut updated_nodes: NodeMap = PathMap::new();
        updated_nodes.insert_all(split);
        proof {
            assert(updated_nodes@ =~= hash_builder_updates(builder));
        }
        self.finalize_with_updates(updated_nodes, removed_keys);
    }

    /// Convert storage trie updates into [`StorageTrieUpdatesSorted`]: the updated nodes sorted
    /// by path.
    pub fn into_sorted(self) -> (r: StorageTrieUpdatesSorted)
        ensures
            sorts_storage(r, self@),
    {
        let storage_nodes = sort_entries(self.storage_nodes.into_entries());
        StorageTrieUpdatesSorted { is_deleted: self.is_deleted, storage_nodes, removed_nodes: self.removed_nodes }
    }

    /// Convert storage trie updates into [`StorageTrieUpdatesSortedRef`]: references to the
    /// updated nodes and to the removed paths, sorted by path.
    pub fn into_sorted_ref(&self) -> (r: StorageTrieUpdatesSortedRef<'_>)
        ensures
            sorts_storage_ref(r, self@),
    {
        let storage_nodes = sort_entry_refs(self.storage_nodes.entries());
        let removed_nodes = sort_key_refs(self.removed_nodes.members());
        StorageTrieUpdatesSortedRef { is_deleted: self.is_deleted, storage_nodes, removed_nodes }
    }
}

/// Sorted storage trie updates reference used for serializing to file.
#[derive(Debug, Clone)]
pub struct StorageTrieUpdatesSortedRef<'a> {
    /// Flag indicating whether the trie has been deleted/wiped.
    pub is_deleted: bool,
    /// Sorted collection of updated storage nodes with corresponding paths.
    pub storage_nodes: Vec<(&'a Nibbles, &'a BranchNodeCompact)>,
    /// The set of removed storage node keys, sorted.
    pub removed_nodes: Vec<&'a Nibbles>,
}

/// Sorted trie updates used for lookups and insertions.
#[derive(Debug, Clone)]
pub struct StorageTrieUpdatesSorted {
    /// Flag indicating whether the trie has been deleted/wiped.
    pub is_deleted: bool,
    /// Sorted collection of updated storage nodes with corresponding paths.
    pub storage_nodes: Vec<(Nibbles, BranchNodeCompact)>,
    /// The set of removed storage node keys.
    pub removed_nodes: NibblesSet,
}

/// Two sorted storage trie updates are the same: the flag, the nodes at each position and the
/// removed paths agree.
pub open spec fn same_sorted_storage(a: StorageTrieUpdatesSorted, b: StorageTrieUpdatesSorted) -> bool {
    &&& a.is_deleted == b.is_deleted
    &&& same_entries(a.storage_nodes@, b.storage_nodes@)
    &&& a.removed_nodes@ == b.removed_nodes@
}

/// Two sorted views by reference are the same: the flag, the nodes and the removed paths at each
/// position agree.
pub open spec fn same_sorted_storage_ref(a: StorageTrieUpdatesSortedRef, b: StorageTrieUpdatesSortedRef) -> bool {
    &&& a.is_deleted == b.is_deleted
    &&& same_entries(a.storage_nodes@, b.storage_nodes@)
    &&& same_keys(a.removed_nodes@, b.removed_nodes@)
}

impl PartialEq for StorageTrieUpdatesSorted {
    fn eq(&self, other: &Self) -> (r: bool) {
        self.is_deleted == other.is_deleted && node_lists_equal(&self.storage_nodes, &other.storage_nodes)
            && self.removed_nodes == other.removed_nodes
    }
}

impl PartialEqSpecImpl for StorageTrieUpdatesSorted {
    open spec fn obeys_eq_spec() -> bool {
        true
    }

    open spec fn eq_spec(&self, other: &Self) -> bool {
        same_sorted_storage(*self, *other)
    }
}

impl<'a> PartialEq for StorageTrieUpdatesSortedRef<'a> {
    fn eq(&self, other: &Self) -> (r: bool) {
        self.is_deleted == other.is_deleted && node_ref_lists_equal(&self.storage_nodes, &other.storage_nodes)
            && key_ref_lists_equal(&self.removed_nodes, &other.removed_nodes)
    }
}

impl<'a> PartialEqSpecImpl for StorageTrieUpdatesSortedRef<'a> {
    open spec fn obeys_eq_spec() -> bool {
        true
    }

    open spec fn eq_spec(&self, other: &Self) -> bool {
        same_sorted_storage_ref(*self, *other)
    }
}

impl Eq for StorageTrieUpdates {}

impl Eq for StorageTrieUpdatesSorted {}

impl<'a> Eq for StorageTrieUpdatesSortedRef<'a> {}

impl Default for StorageTrieUpdatesSorted {
    fn default() -> (r: Self)
        ensures
            sorts_storage(r, empty_storage()),
    {
        let r = StorageTrieUpdatesSorted { is_deleted: false, storage_nodes: Vec::new(), removed_nodes: PathSet::new() };
        proof {
            crate::path_map::lemma_entries_map_empty(r.storage_nodes@);
        }
        r
    }
}

impl<'a> Default for StorageTrieUpdatesSortedRef<'a> {
    fn default() -> (r: Self)
        ensures
            sorts_storage_ref(r, empty_storage()),
    {
        let r = StorageTrieUpdatesSortedRef { is_deleted: false, storage_nodes: Vec::new(), removed_nodes: Vec::new() };
        proof {
            crate::path_map::lemma_entries_map_empty(r.storage_nodes@);
            assert(deref_map(entries_map(r.storage_nodes@)) =~= Map::<Seq<u8>, BranchNodeCompact>::empty());
            assert(keys_set(r.removed_nodes@) =~= Set::<Seq<u8>>::empty());
        }
        r
    }
}

impl StorageTrieUpdatesSorted {
    /// Returns `true` if the trie was deleted.
    pub fn is_deleted(&self) -> (r: bool)
        ensures
            r == self.is_deleted,
    {
        self.is_deleted
    }

    /// Returns reference to updated storage nodes.
    pub fn storage_nodes_ref(&self) -> (r: &[(Nibbles, BranchNodeCompact)])
        ensures
            r@ == self.storage_nodes@,
    {
        self.storage_nodes.as_slice()
    }

    /// Returns reference to removed storage nodes.
    pub fn removed_nodes_ref(&self) -> (r: &NibblesSet)
        ensures
            r@ == self.removed_nodes@,
    {
        &self.removed_nodes
    }
}

} // verus!

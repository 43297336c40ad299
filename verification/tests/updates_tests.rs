use alloy_primitives::B256;
use alloy_trie::{BranchNodeCompact, HashBuilder};
use nybbles::Nibbles;
use trie_updates::nodes::{exclude_empty, exclude_empty_from_pair, B256Set, NibblesSet, NodeMap};
use trie_updates::storage::StorageTrieUpdates;
use trie_updates::updates::TrieUpdates;

fn path(nibbles: &[u8]) -> Nibbles {
    Nibbles::from_nibbles_unchecked(nibbles)
}

fn node(state_mask: u16) -> BranchNodeCompact {
    BranchNodeCompact::new(state_mask, 0u16, 0u16, vec![], None)
}

fn addr(byte: u8) -> B256 {
    B256::repeat_byte(byte)
}

fn nodes_of(updates: &StorageTrieUpdates) -> Vec<(Vec<u8>, BranchNodeCompact)> {
    updates
        .storage_nodes
        .entries()
        .iter()
        .map(|(k, v)| (k.to_vec(), v.clone()))
        .collect::<std::collections::BTreeMap<_, _>>()
        .into_iter()
        .collect()
}

fn removed_of(set: &NibblesSet) -> Vec<Vec<u8>> {
    let mut v: Vec<Vec<u8>> = set.to_vec().iter().map(|k| k.to_vec()).collect();
    v.sort();
    v
}

#[test]
fn storage_default_is_empty_and_deleted_is_not() {
    let empty = StorageTrieUpdates::default();
    assert!(empty.is_empty());
    assert_eq!(empty.len(), 0);
    let deleted = StorageTrieUpdates::deleted();
    assert!(!deleted.is_empty());
    assert!(deleted.is_deleted());
    assert_eq!(deleted.len(), 1);
}

#[test]
fn storage_len_counts_flag_nodes_and_removed() {
    let mut updates = StorageTrieUpdates::new(vec![(path(&[1]), node(1)), (path(&[2]), node(2))]);
    updates.removed_nodes.insert(path(&[3]));
    assert_eq!(updates.len(), 3);
    updates.set_deleted(true);
    assert_eq!(updates.len(), 4);
    updates.set_deleted(false);
    assert!(!updates.is_deleted());
}

#[test]
fn storage_new_skips_empty_path_and_keeps_last_duplicate() {
    let updates = StorageTrieUpdates::new(vec![
        (path(&[]), node(1)),
        (path(&[5]), node(2)),
        (path(&[5]), node(3)),
    ]);
    assert!(!updates.is_deleted());
    assert_eq!(nodes_of(&updates), vec![(vec![5], node(3))]);
}

#[test]
fn storage_extend_removes_then_adds() {
    let mut a = StorageTrieUpdates::new(vec![(path(&[1]), node(1)), (path(&[2]), node(2))]);
    a.removed_nodes.insert(path(&[9]));
    let mut b = StorageTrieUpdates::new(vec![(path(&[3]), node(3))]);
    b.removed_nodes.insert(path(&[1]));
    b.removed_nodes.insert(path(&[]));
    a.extend(b);
    assert_eq!(nodes_of(&a), vec![(vec![2], node(2)), (vec![3], node(3))]);
    assert_eq!(removed_of(&a.removed_nodes), vec![vec![1], vec![9]]);
    assert!(!a.is_deleted());
}

#[test]
fn storage_extend_by_deleted_wipes_earlier_updates() {
    let mut a = StorageTrieUpdates::new(vec![(path(&[1]), node(1))]);
    a.removed_nodes.insert(path(&[7]));
    let mut b = StorageTrieUpdates::deleted();
    b.storage_nodes.insert(path(&[4]), node(4));
    a.extend(b);
    assert!(a.is_deleted());
    assert_eq!(nodes_of(&a), vec![(vec![4], node(4))]);
    assert!(a.removed_nodes.is_empty());
}

#[test]
fn storage_extend_ref_matches_extend() {
    let make = || {
        let mut a = StorageTrieUpdates::new(vec![(path(&[1]), node(1)), (path(&[2, 3]), node(2))]);
        a.removed_nodes.insert(path(&[8]));
        a
    };
    let mut b = StorageTrieUpdates::new(vec![(path(&[2, 3]), node(5)), (path(&[4]), node(4))]);
    b.removed_nodes.insert(path(&[1]));
    let mut by_ref = make();
    by_ref.extend_ref(&b);
    let mut by_value = make();
    by_value.extend(b);
    assert_eq!(by_ref, by_value);
    assert_eq!(nodes_of(&by_ref), nodes_of(&by_value));
    assert_eq!(removed_of(&by_ref.removed_nodes), removed_of(&by_value.removed_nodes));
    assert_eq!(nodes_of(&by_value), vec![(vec![2, 3], node(5)), (vec![4], node(4))]);
}

#[test]
fn storage_into_sorted_orders_by_path() {
    let updates = StorageTrieUpdates::new(vec![
        (path(&[2]), node(2)),
        (path(&[1, 5]), node(3)),
        (path(&[1]), node(1)),
    ]);
    let sorted = updates.into_sorted();
    let keys: Vec<Vec<u8>> = sorted.storage_nodes_ref().iter().map(|(k, _)| k.to_vec()).collect();
    assert_eq!(keys, vec![vec![1], vec![1, 5], vec![2]]);
    assert!(!sorted.is_deleted());
    assert!(sorted.removed_nodes_ref().is_empty());
}

#[test]
fn storage_into_sorted_ref_orders_nodes_and_removed() {
    let mut updates = StorageTrieUpdates::new(vec![(path(&[0xa]), node(1)), (path(&[0x3]), node(2))]);
    updates.removed_nodes.insert(path(&[7, 7]));
    updates.removed_nodes.insert(path(&[7]));
    let sorted = updates.into_sorted_ref();
    let keys: Vec<Vec<u8>> = sorted.storage_nodes.iter().map(|(k, _)| k.to_vec()).collect();
    assert_eq!(keys, vec![vec![3], vec![0xa]]);
    let removed: Vec<Vec<u8>> = sorted.removed_nodes.iter().map(|k| k.to_vec()).collect();
    assert_eq!(removed, vec![vec![7], vec![7, 7]]);
}

#[test]
fn trie_default_and_clear_are_empty() {
    let mut updates = TrieUpdates::default();
    assert!(updates.is_empty());
    updates.account_nodes.insert(path(&[1]), node(1));
    updates.insert_storage_updates(addr(1), StorageTrieUpdates::deleted());
    assert!(!updates.is_empty());
    updates.clear();
    assert!(updates.is_empty());
}

#[test]
fn trie_insert_storage_updates_skips_empty() {
    let mut updates = TrieUpdates::default();
    updates.insert_storage_updates(addr(1), StorageTrieUpdates::default());
    assert!(updates.is_empty());
    updates.insert_storage_updates(addr(2), StorageTrieUpdates::deleted());
    assert_eq!(updates.storage_tries_ref().len(), 1);
    assert!(updates.storage_tries.get(&addr(2)).unwrap().is_deleted());
}

#[test]
fn trie_extend_merges_accounts_and_storage() {
    let mut a = TrieUpdates::default();
    a.account_nodes.insert(path(&[1]), node(1));
    a.account_nodes.insert(path(&[2]), node(2));
    a.insert_storage_updates(addr(1), StorageTrieUpdates::new(vec![(path(&[1]), node(1))]));
    a.insert_storage_updates(addr(2), StorageTrieUpdates::new(vec![(path(&[2]), node(2))]));

    let mut b = TrieUpdates::default();
    b.removed_nodes.insert(path(&[1]));
    b.removed_nodes.insert(path(&[]));
    b.account_nodes.insert(path(&[]), node(9));
    b.account_nodes.insert(path(&[3]), node(3));
    b.insert_storage_updates(addr(1), StorageTrieUpdates::new(vec![(path(&[5]), node(5))]));
    b.insert_storage_updates(addr(3), StorageTrieUpdates::deleted());

    a.extend(b);
    let mut accounts: Vec<Vec<u8>> = a.account_nodes_ref().entries().iter().map(|(k, _)| k.to_vec()).collect();
    accounts.sort();
    assert_eq!(accounts, vec![vec![2], vec![3]]);
    assert_eq!(removed_of(a.removed_nodes_ref()), vec![vec![1]]);
    assert_eq!(a.storage_tries.len(), 3);
    let first = a.storage_tries.get(&addr(1)).unwrap();
    assert_eq!(nodes_of(first), vec![(vec![1], node(1)), (vec![5], node(5))]);
    assert_eq!(nodes_of(a.storage_tries.get(&addr(2)).unwrap()), vec![(vec![2], node(2))]);
    assert!(a.storage_tries.get(&addr(3)).unwrap().is_deleted());
}

#[test]
fn trie_extend_ref_matches_extend() {
    let make = || {
        let mut a = TrieUpdates::default();
        a.account_nodes.insert(path(&[4]), node(4));
        a.insert_storage_updates(addr(7), StorageTrieUpdates::new(vec![(path(&[1]), node(1))]));
        a
    };
    let mut b = TrieUpdates::default();
    b.account_nodes.insert(path(&[4]), node(6));
    b.removed_nodes.insert(path(&[5]));
    b.insert_storage_updates(addr(7), StorageTrieUpdates::deleted());
    let mut by_ref = make();
    by_ref.extend_ref(&b);
    let mut by_value = make();
    by_value.extend(b);
    assert_eq!(by_ref, by_value);
    let left = by_ref.into_sorted();
    let right = by_value.into_sorted();
    assert_eq!(left.account_nodes_ref(), right.account_nodes_ref());
    assert_eq!(left.account_nodes_ref(), &[(path(&[4]), node(6))][..]);
    assert_eq!(removed_of(left.removed_nodes_ref()), removed_of(right.removed_nodes_ref()));
    let l7 = left.storage_tries_ref().get(&addr(7)).unwrap();
    let r7 = right.storage_tries_ref().get(&addr(7)).unwrap();
    assert!(l7.is_deleted() && r7.is_deleted());
    assert!(l7.storage_nodes_ref().is_empty() && r7.storage_nodes_ref().is_empty());
}

#[test]
fn trie_extend_with_default_changes_nothing() {
    let mut a = TrieUpdates::default();
    a.account_nodes.insert(path(&[1, 2]), node(1));
    a.removed_nodes.insert(path(&[3]));
    a.insert_storage_updates(addr(1), StorageTrieUpdates::deleted());
    a.extend(TrieUpdates::default());
    assert_eq!(a.account_nodes.len(), 1);
    assert_eq!(removed_of(&a.removed_nodes), vec![vec![3]]);
    assert!(a.storage_tries.get(&addr(1)).unwrap().is_deleted());
}

#[test]
fn trie_extend_is_associative_on_an_example() {
    let a = || {
        let mut a = TrieUpdates::default();
        a.account_nodes.insert(path(&[1]), node(1));
        a.account_nodes.insert(path(&[2]), node(2));
        a
    };
    let b = || {
        let mut b = TrieUpdates::default();
        b.removed_nodes.insert(path(&[1]));
        b.account_nodes.insert(path(&[3]), node(3));
        b
    };
    let c = || {
        let mut c = TrieUpdates::default();
        c.removed_nodes.insert(path(&[3]));
        c.account_nodes.insert(path(&[1]), node(4));
        c
    };
    let mut left = a();
    left.extend(b());
    left.extend(c());
    let mut bc = b();
    bc.extend(c());
    let mut right = a();
    right.extend(bc);
    assert_eq!(left, right);
    assert_eq!(left.into_sorted().account_nodes, right.into_sorted().account_nodes);
}

#[test]
fn trie_into_sorted_and_drain_into_sorted() {
    let mut updates = TrieUpdates::default();
    updates.account_nodes.insert(path(&[0xf]), node(1));
    updates.account_nodes.insert(path(&[0x0, 0x1]), node(2));
    updates.account_nodes.insert(path(&[0x0]), node(3));
    updates.removed_nodes.insert(path(&[0xe]));
    updates.insert_storage_updates(
        addr(5),
        StorageTrieUpdates::new(vec![(path(&[9]), node(9)), (path(&[8]), node(8))]),
    );
    let drained = updates.drain_into_sorted();
    let keys: Vec<Vec<u8>> = drained.account_nodes_ref().iter().map(|(k, _)| k.to_vec()).collect();
    assert_eq!(keys, vec![vec![0x0], vec![0x0, 0x1], vec![0xf]]);
    let storage = drained.storage_tries_ref().get(&addr(5)).unwrap();
    let storage_keys: Vec<Vec<u8>> = storage.storage_nodes_ref().iter().map(|(k, _)| k.to_vec()).collect();
    assert_eq!(storage_keys, vec![vec![8], vec![9]]);
    assert_eq!(removed_of(drained.removed_nodes_ref()), vec![vec![0xe]]);
    // every field was drained
    assert!(updates.account_nodes.is_empty());
    assert!(updates.storage_tries.is_empty());
    assert!(updates.removed_nodes.is_empty());
    assert!(updates.is_empty());
}

#[test]
fn trie_into_sorted_ref_orders_everything() {
    let mut updates = TrieUpdates::default();
    updates.account_nodes.insert(path(&[2]), node(2));
    updates.account_nodes.insert(path(&[1]), node(1));
    updates.removed_nodes.insert(path(&[6]));
    updates.removed_nodes.insert(path(&[5]));
    updates.insert_storage_updates(addr(9), StorageTrieUpdates::deleted());
    updates.insert_storage_updates(addr(3), StorageTrieUpdates::deleted());
    let sorted = updates.into_sorted_ref();
    let accounts: Vec<Vec<u8>> = sorted.account_nodes.iter().map(|(k, _)| k.to_vec()).collect();
    assert_eq!(accounts, vec![vec![1], vec![2]]);
    let removed: Vec<Vec<u8>> = sorted.removed_nodes.iter().map(|k| k.to_vec()).collect();
    assert_eq!(removed, vec![vec![5], vec![6]]);
    let addresses: Vec<B256> = sorted.storage_tries.iter().map(|(a, _)| *a).collect();
    assert_eq!(addresses, vec![addr(3), addr(9)]);
    assert!(sorted.storage_tries[0].1.is_deleted);
}

#[test]
fn trie_finalize_records_nodes_removed_keys_and_destroyed_accounts() {
    let mut builder = HashBuilder::default().with_updates(true).with_all_branch_nodes(true);
    let mut keys = vec![[0x10u8; 32], [0x11u8; 32], [0x20u8; 32]];
    keys.sort();
    for key in &keys {
        builder.add_leaf(Nibbles::unpack(key), &[0x01; 32]);
    }
    builder.root();
    let (_, expected) = builder.clone().split();
    assert!(expected.contains_key(&path(&[])));

    let mut updates = TrieUpdates::default();
    updates.insert_storage_updates(addr(1), StorageTrieUpdates::new(vec![(path(&[4]), node(4))]));
    let mut removed_keys = NibblesSet::new();
    removed_keys.insert(path(&[]));
    removed_keys.insert(path(&[0xc]));
    let mut destroyed = B256Set::new();
    destroyed.insert(addr(1));
    destroyed.insert(addr(2));
    updates.finalize(builder, removed_keys, destroyed);

    // the branch node at the root (the empty path) is left out
    assert!(!updates.account_nodes.is_empty());
    for (key, _) in updates.account_nodes.entries() {
        assert!(!key.is_empty());
    }
    assert!(updates.account_nodes.contains_key(&path(&[1])));
    // exactly the hash builder's nodes, but the one at the root
    assert_eq!(updates.account_nodes.len(), expected.len() - 1);
    for (key, node) in &expected {
        if !key.is_empty() {
            assert_eq!(updates.account_nodes.get(key), Some(node));
        }
    }
    assert_eq!(removed_of(&updates.removed_nodes), vec![vec![0xc]]);
    let first = updates.storage_tries.get(&addr(1)).unwrap();
    assert!(first.is_deleted());
    assert_eq!(nodes_of(first), vec![(vec![4], node(4))]);
    assert!(updates.storage_tries.get(&addr(2)).unwrap().is_deleted());
}

#[test]
fn trie_finalize_with_updates_is_exact() {
    let mut updated = NodeMap::new();
    updated.insert(path(&[]), node(1));
    updated.insert(path(&[7]), node(7));
    let mut updates = TrieUpdates::default();
    updates.finalize_with_updates(updated, NibblesSet::new(), B256Set::new());
    let keys: Vec<Vec<u8>> = updates.account_nodes.entries().iter().map(|(k, _)| k.to_vec()).collect();
    assert_eq!(keys, vec![vec![7]]);
    assert!(updates.storage_tries.is_empty());
}

#[test]
fn storage_finalize_records_nonempty_paths() {
    let mut builder = HashBuilder::default().with_updates(true).with_all_branch_nodes(true);
    builder.add_leaf(Nibbles::unpack([0x10u8; 32]), &[0x01; 32]);
    builder.add_leaf(Nibbles::unpack([0x11u8; 32]), &[0x01; 32]);
    builder.root();
    let mut updates = StorageTrieUpdates::default();
    let mut removed = NibblesSet::new();
    removed.insert(path(&[3, 3]));
    updates.finalize(builder, removed);
    assert!(updates.storage_nodes.contains_key(&path(&[1])));
    assert!(!updates.storage_nodes.contains_key(&path(&[])));
    assert_eq!(removed_of(&updates.removed_nodes), vec![vec![3, 3]]);
}

#[test]
fn exclude_empty_filters_root_path() {
    let kept = exclude_empty(vec![path(&[1]), path(&[]), path(&[2, 3])]);
    let kept: Vec<Vec<u8>> = kept.iter().map(|k| k.to_vec()).collect();
    assert_eq!(kept, vec![vec![1], vec![2, 3]]);
    let pairs = exclude_empty_from_pair(vec![(path(&[]), 1u8), (path(&[4]), 2u8), (path(&[]), 3u8)]);
    assert_eq!(pairs.len(), 1);
    assert_eq!(pairs[0].0.to_vec(), vec![4]);
    assert_eq!(pairs[0].1, 2);
}

#[test]
fn path_map_insert_get_remove() {
    let mut map = NodeMap::new();
    assert!(map.insert(path(&[1]), node(1)).is_none());
    assert_eq!(map.insert(path(&[1]), node(2)), Some(node(1)));
    assert_eq!(map.len(), 1);
    assert_eq!(map.get(&path(&[1])), Some(&node(2)));
    assert_eq!(map.remove(&path(&[1])), Some(node(2)));
    assert!(map.is_empty());
    let mut set = NibblesSet::new();
    assert!(set.insert(path(&[1])));
    assert!(!set.insert(path(&[1])));
    assert!(set.contains(&path(&[1])));
    assert!(set.remove(&path(&[1])));
    assert!(set.is_empty());
}

#[test]
fn storage_extend_with_default_changes_nothing() {
    let mut a = StorageTrieUpdates::new(vec![(path(&[1]), node(1))]);
    a.removed_nodes.insert(path(&[2]));
    a.extend(StorageTrieUpdates::default());
    assert_eq!(nodes_of(&a), vec![(vec![1], node(1))]);
    assert_eq!(removed_of(&a.removed_nodes), vec![vec![2]]);
    assert!(!a.is_deleted());
}

#[test]
fn extending_nothing_gives_the_other_updates() {
    let mut b = StorageTrieUpdates::deleted();
    b.storage_nodes.insert(path(&[6]), node(6));
    b.removed_nodes.insert(path(&[7]));
    let mut a = StorageTrieUpdates::default();
    a.extend_ref(&b);
    assert!(a.is_deleted());
    assert_eq!(nodes_of(&a), nodes_of(&b));
    assert_eq!(removed_of(&a.removed_nodes), removed_of(&b.removed_nodes));
}

#[test]
fn into_sorted_and_drain_into_sorted_agree() {
    let make = || {
        let mut u = TrieUpdates::default();
        u.account_nodes.insert(path(&[3, 1]), node(1));
        u.account_nodes.insert(path(&[0xa]), node(2));
        u.account_nodes.insert(path(&[3]), node(3));
        u.removed_nodes.insert(path(&[4]));
        u
    };
    let sorted = make().into_sorted();
    let mut u = make();
    let drained = u.drain_into_sorted();
    assert_eq!(sorted.account_nodes_ref(), drained.account_nodes_ref());
    assert_eq!(removed_of(sorted.removed_nodes_ref()), removed_of(drained.removed_nodes_ref()));
}

#[test]
fn clone_keeps_everything() {
    let mut u = TrieUpdates::default();
    u.account_nodes.insert(path(&[1]), node(1));
    u.removed_nodes.insert(path(&[2]));
    u.insert_storage_updates(addr(4), StorageTrieUpdates::new(vec![(path(&[5]), node(5))]));
    let c = u.clone();
    assert_eq!(c, u);
    assert_eq!(c.into_sorted().account_nodes, u.clone().into_sorted().account_nodes);
    assert_eq!(removed_of(&u.clone().removed_nodes), vec![vec![2]]);
    assert_eq!(nodes_of(u.clone().storage_tries.get(&addr(4)).unwrap()), vec![(vec![5], node(5))]);
}

#[test]
fn equality_compares_nodes_and_storage() {
    let mut a = TrieUpdates::default();
    a.account_nodes.insert(path(&[1]), node(1));
    let mut b = TrieUpdates::default();
    b.account_nodes.insert(path(&[1]), node(2));
    assert_ne!(a, b);
    b.account_nodes.insert(path(&[1]), node(1));
    assert_eq!(a, b);
    a.insert_storage_updates(addr(1), StorageTrieUpdates::deleted());
    b.insert_storage_updates(addr(1), StorageTrieUpdates::new(vec![(path(&[2]), node(2))]));
    assert_ne!(a, b);
    assert_ne!(StorageTrieUpdates::deleted(), StorageTrieUpdates::default());
    assert_eq!(StorageTrieUpdates::default(), StorageTrieUpdates::new(vec![]));
}

#[test]
fn sorted_forms_compare_by_content() {
    let make = |order: bool| {
        let mut u = TrieUpdates::default();
        if order {
            u.account_nodes.insert(path(&[1]), node(1));
            u.account_nodes.insert(path(&[2]), node(2));
        } else {
            u.account_nodes.insert(path(&[2]), node(2));
            u.account_nodes.insert(path(&[1]), node(1));
        }
        u.removed_nodes.insert(path(&[3]));
        u.insert_storage_updates(addr(1), StorageTrieUpdates::new(vec![(path(&[4]), node(4))]));
        u
    };
    let a = make(true);
    let b = make(false);
    assert_eq!(a.into_sorted_ref(), b.into_sorted_ref());
    assert_eq!(a.clone().into_sorted(), b.clone().into_sorted());
    let mut c = make(true);
    c.account_nodes.insert(path(&[2]), node(5));
    assert_ne!(a.into_sorted_ref(), c.into_sorted_ref());
    assert_ne!(a.clone().into_sorted(), c.clone().into_sorted());
    let s1 = StorageTrieUpdates::deleted().into_sorted();
    let s2 = StorageTrieUpdates::default().into_sorted();
    assert_ne!(s1, s2);
    assert_eq!(s2, trie_updates::storage::StorageTrieUpdatesSorted::default());
}

use alloy_primitives::B256;
use alloy_trie::BranchNodeCompact;
use nybbles::Nibbles;
use trie_updates::hex_keys::{
    scan_keys, KeyScan,
    decode_nibbles_key, encode_nibbles_key, node_map_from_hex, node_map_to_hex,
    nibbles_set_from_hex, nibbles_set_to_hex, NibblesKeyError,
};
use trie_updates::nodes::{NibblesSet, NodeMap};
use trie_updates::storage::StorageTrieUpdates;
use trie_updates::updates::TrieUpdates;

fn path(nibbles: &[u8]) -> Nibbles {
    Nibbles::from_nibbles_unchecked(nibbles)
}

fn sorted_paths(set: &NibblesSet) -> Vec<Vec<u8>> {
    let mut v: Vec<Vec<u8>> = set.to_vec().iter().map(|k| k.to_vec()).collect();
    v.sort();
    v
}

fn sorted_nodes(map: &NodeMap) -> Vec<(Vec<u8>, BranchNodeCompact)> {
    let mut v: Vec<(Vec<u8>, BranchNodeCompact)> =
        map.entries().iter().map(|(k, n)| (k.to_vec(), n.clone())).collect();
    v.sort();
    v
}

/// Writes the nibble keys of a set as JSON text and reads them back.
fn set_round_trip(set: &NibblesSet) -> NibblesSet {
    let json = serde_json::to_string(&nibbles_set_to_hex(set)).unwrap();
    let texts: Vec<String> = serde_json::from_str(&json).unwrap();
    nibbles_set_from_hex(texts).unwrap()
}

/// Writes the nibble keys of a node map as JSON text and reads them back.
fn map_round_trip(map: &NodeMap) -> NodeMap {
    let entries = node_map_to_hex(map);
    let keys: Vec<String> = entries.iter().map(|(k, _)| k.clone()).collect();
    let json = serde_json::to_string(&keys).unwrap();
    let texts: Vec<String> = serde_json::from_str(&json).unwrap();
    let pairs: Vec<(String, BranchNodeCompact)> =
        texts.into_iter().zip(entries.iter().map(|(_, v)| (*v).clone())).collect();
    node_map_from_hex(pairs).unwrap()
}

/// Writes the keys of trie updates as JSON text and reads the updates back.
fn trie_round_trip(updates: &TrieUpdates) -> TrieUpdates {
    let mut storage_tries = trie_updates::path_map::PathMap::new();
    for (address, storage) in updates.storage_tries.entries() {
        storage_tries.insert(*address, storage_round_trip(storage));
    }
    TrieUpdates {
        account_nodes: map_round_trip(&updates.account_nodes),
        removed_nodes: set_round_trip(&updates.removed_nodes),
        storage_tries,
    }
}

/// Writes the keys of storage trie updates as JSON text and reads the updates back.
fn storage_round_trip(updates: &StorageTrieUpdates) -> StorageTrieUpdates {
    let flag = serde_json::to_string(&updates.is_deleted).unwrap();
    StorageTrieUpdates {
        is_deleted: serde_json::from_str(&flag).unwrap(),
        storage_nodes: map_round_trip(&updates.storage_nodes),
        removed_nodes: set_round_trip(&updates.removed_nodes),
    }
}

#[test]
fn trie_updates_key_text_roundtrip() {
    let mut default_updates = TrieUpdates::default();
    let updates_deserialized = trie_round_trip(&default_updates);
    assert_eq!(updates_deserialized, default_updates);

    default_updates.removed_nodes.insert(Nibbles::from_nibbles_unchecked([0x0b, 0x0e, 0x0e, 0x0f]));
    let updates_deserialized = trie_round_trip(&default_updates);
    assert_eq!(updates_deserialized, default_updates);

    default_updates.account_nodes.insert(
        Nibbles::from_nibbles_unchecked([0x0d, 0x0e, 0x0a, 0x0d]),
        BranchNodeCompact::default(),
    );
    let updates_deserialized = trie_round_trip(&default_updates);
    assert_eq!(updates_deserialized, default_updates);

    default_updates.storage_tries.insert(B256::default(), StorageTrieUpdates::default());
    let updates_deserialized = trie_round_trip(&default_updates);
    assert_eq!(updates_deserialized, default_updates);
}

#[test]
fn storage_trie_updates_key_text_roundtrip() {
    let mut default_updates = StorageTrieUpdates::default();
    let updates_deserialized = storage_round_trip(&default_updates);
    assert_eq!(updates_deserialized, default_updates);

    default_updates.removed_nodes.insert(Nibbles::from_nibbles_unchecked([0x0b, 0x0e, 0x0e, 0x0f]));
    let updates_deserialized = storage_round_trip(&default_updates);
    assert_eq!(updates_deserialized, default_updates);

    default_updates.storage_nodes.insert(
        Nibbles::from_nibbles_unchecked([0x0d, 0x0e, 0x0a, 0x0d]),
        BranchNodeCompact::default(),
    );
    let updates_deserialized = storage_round_trip(&default_updates);
    assert_eq!(updates_deserialized, default_updates);
}

#[test]
fn equality_ignores_insertion_order() {
    let mut a = TrieUpdates::default();
    a.account_nodes.insert(path(&[1]), BranchNodeCompact::default());
    a.account_nodes.insert(path(&[2]), BranchNodeCompact::default());
    let mut b = TrieUpdates::default();
    b.account_nodes.insert(path(&[2]), BranchNodeCompact::default());
    b.account_nodes.insert(path(&[1]), BranchNodeCompact::default());
    assert_eq!(a, b);
    b.removed_nodes.insert(path(&[3]));
    assert_ne!(a, b);
}

#[test]
fn encode_key_packs_and_writes_lowercase_hex() {
    assert_eq!(encode_nibbles_key(&path(&[0xb, 0xe, 0xe, 0xf])), "beef");
    assert_eq!(encode_nibbles_key(&path(&[0xa, 0xb, 0xc])), "abc0");
    assert_eq!(encode_nibbles_key(&path(&[])), "");
    assert_eq!(encode_nibbles_key(&path(&[0x0, 0x1])), "01");
}

#[test]
fn decode_key_reads_both_cases_and_prefix() {
    assert_eq!(decode_nibbles_key("beef").unwrap().to_vec(), vec![0xb, 0xe, 0xe, 0xf]);
    assert_eq!(decode_nibbles_key("0xBEEF").unwrap().to_vec(), vec![0xb, 0xe, 0xe, 0xf]);
    assert_eq!(decode_nibbles_key("").unwrap().to_vec(), Vec::<u8>::new());
    // an odd path comes back with a zero nibble after it
    assert_eq!(decode_nibbles_key("abc0").unwrap().to_vec(), vec![0xa, 0xb, 0xc, 0x0]);
}

#[test]
fn decode_key_rejects_bad_text() {
    assert_eq!(
        decode_nibbles_key("abc").unwrap_err(),
        NibblesKeyError::InvalidHex(alloy_primitives::hex::FromHexError::OddLength)
    );
    assert_eq!(
        decode_nibbles_key("zz").unwrap_err(),
        NibblesKeyError::InvalidHex(alloy_primitives::hex::FromHexError::InvalidHexCharacter { c: 'z', index: 0 })
    );
    assert!(matches!(decode_nibbles_key("0x1"), Err(NibblesKeyError::InvalidHex(_))));
}

#[test]
fn even_key_round_trips() {
    let key = path(&[0x1, 0x2, 0xf, 0x0, 0x9, 0xa]);
    let text = encode_nibbles_key(&key);
    assert_eq!(decode_nibbles_key(&text).unwrap(), key);
}

#[test]
fn set_to_hex_is_sorted() {
    let mut set = NibblesSet::new();
    set.insert(path(&[0xf]));
    set.insert(path(&[0x1, 0x2]));
    set.insert(path(&[0x1]));
    assert_eq!(nibbles_set_to_hex(&set), vec!["10".to_string(), "12".to_string(), "f0".to_string()]);
}

#[test]
fn set_from_hex_stops_at_bad_key() {
    let result = nibbles_set_from_hex(vec!["aa".to_string(), "nothex".to_string()]);
    assert!(matches!(result, Err(NibblesKeyError::InvalidHex(_))));
    let set = nibbles_set_from_hex(vec!["aa".to_string(), "aa".to_string(), "0b".to_string()]).unwrap();
    assert_eq!(sorted_paths(&set), vec![vec![0x0, 0xb], vec![0xa, 0xa]]);
}

#[test]
fn map_from_hex_keeps_last_duplicate() {
    let a = BranchNodeCompact::new(1u16, 0u16, 0u16, vec![], None);
    let b = BranchNodeCompact::new(2u16, 0u16, 0u16, vec![], None);
    let map = node_map_from_hex(vec![("12".to_string(), a), ("12".to_string(), b.clone())]).unwrap();
    assert_eq!(sorted_nodes(&map), vec![(vec![0x1, 0x2], b)]);
    let bad = node_map_from_hex(vec![("1".to_string(), BranchNodeCompact::default())]);
    assert_eq!(bad.err(), Some(NibblesKeyError::InvalidHex(alloy_primitives::hex::FromHexError::OddLength)));
}

#[test]
fn map_to_hex_is_sorted_by_path() {
    let mut map = NodeMap::new();
    map.insert(path(&[0x3]), BranchNodeCompact::new(3u16, 0u16, 0u16, vec![], None));
    map.insert(path(&[0x0, 0x4]), BranchNodeCompact::new(4u16, 0u16, 0u16, vec![], None));
    let entries = node_map_to_hex(&map);
    let keys: Vec<&str> = entries.iter().map(|(k, _)| k.as_str()).collect();
    assert_eq!(keys, vec!["04", "30"]);
    assert_eq!(*entries[0].1, BranchNodeCompact::new(4u16, 0u16, 0u16, vec![], None));
}

#[test]
fn scan_keys_finds_what_a_reader_meets_first() {
    let long = "ab".repeat(33);
    assert_eq!(scan_keys(&vec!["aa".to_string(), "0b".to_string()]), KeyScan::Readable);
    assert_eq!(scan_keys(&vec!["aa".to_string(), long.clone()]), KeyScan::TooLong { index: 1 });
    // a long key after one that is not hex is never read
    assert_eq!(scan_keys(&vec!["zz".to_string(), long.clone()]), KeyScan::NotHex { index: 0 });
    assert_eq!(scan_keys(&vec!["ab".repeat(32)]), KeyScan::Readable);
    assert_eq!(scan_keys(&vec![]), KeyScan::Readable);
}

#[test]
fn readers_stop_at_the_first_bad_key_before_a_long_one() {
    let long = "ab".repeat(33);
    let result = nibbles_set_from_hex(vec!["aa".to_string(), "z".to_string(), long]);
    assert_eq!(result.err(), Some(NibblesKeyError::InvalidHex(alloy_primitives::hex::FromHexError::OddLength)));
}

# trie_updates

Aggregated Merkle-Patricia trie updates, verified with Verus: which branch nodes of the account
trie and of each account's storage trie changed or were removed, how two batches of updates
merge, how the updates are handed out sorted by path, and the hex text form of nibble paths used
when they are serialized.

Layout:

- `src/keys.rs` – nibble paths (`nybbles::Nibbles`) and 32-byte hashes (`B256`) as keys, and the
  lexicographic order on their paths.
- `src/path_map.rs` – maps and sets keyed by those paths, with each path held once.
- `src/sort.rs` – sorting entries by path.
- `src/nodes.rs` – branch nodes, the map and set types built on them, and the filter that keeps
  the root (empty) path out.
- `src/storage.rs`, `src/updates.rs` – storage trie updates and the aggregate trie updates, with
  their sorted forms.
- `src/hex_keys.rs` – the hex text form of nibble paths, for serialization.
- `src/payload.rs` – the decisions of the payload test helper.
- `src/laws.rs` – properties of merging, finalizing, sorting and the text form.
- `app/lib.rs` – serde support: copies of the types with serde derives, the hex-keyed map and
  set encodings, and bincode-compatible forms.

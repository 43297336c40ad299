//! Aggregated trie updates: which trie nodes changed or were removed, per account trie and per
//! storage trie, how updates merge, and how they are handed out in sorted order.
pub mod keys;
pub mod path_map;
pub mod sort;
pub mod nodes;
pub mod storage;
pub mod updates;
pub mod laws;
pub mod hex_keys;
pub mod payload;

//! Properties of merging, finalizing and sorting trie updates that hold for all inputs.
use vstd::prelude::*;
use alloy_trie::BranchNodeCompact;
use crate::keys::{TrieKey, lemma_path_lt_total};
use crate::path_map::{distinct_paths, entries_map, has_path_at, lemma_entries_map_len, lemma_entries_map_lookup, lemma_entries_map_remove};
use crate::sort::sorted_by_path;
use crate::hex_keys::{all_nibbles, hex_decode, hex_digit, hex_lower, hex_value, is_hex_char, key_hex, packed, strip_hex_prefix, unpacked};
use crate::storage::{
    empty_storage, finalize_storage, merge_storage, same_sorted_storage, sorts_storage, storage_is_empty,
    StorageTrieUpdatesSorted, StorageView,
};
use crate::updates::{
    empty_trie, finalize_trie, merge_tries, same_sorted_storage_tries, same_sorted_trie, sorts_storage_tries,
    sorts_trie, storage_or_empty, trie_is_empty, TrieUpdatesSorted, TrieView,
};
use crate::nodes::same_entries;

verus! {

/// No node and no removed path of the storage updates sits at the empty path (the root).
pub open spec fn storage_paths_nonempty(v: StorageView) -> bool {
    &&& forall|p: Seq<u8>| #[trigger] v.nodes.contains_key(p) ==> p.len() > 0
    &&& forall|p: Seq<u8>| #[trigger] v.removed.contains(p) ==> p.len() > 0
}

/// No account node and no removed account path sits at the empty path, and likewise in every
/// storage trie.
pub open spec fn trie_paths_nonempty(v: TrieView) -> bool {
    &&& forall|p: Seq<u8>| #[trigger] v.account_nodes.contains_key(p) ==> p.len() > 0
    &&& forall|p: Seq<u8>| #[trigger] v.removed_nodes.contains(p) ==> p.len() > 0
    &&& forall|k: Seq<u8>| #[trigger] v.storage_tries.contains_key(k) ==> storage_paths_nonempty(v.storage_tries[k])
}

/// Extending storage updates by updates that record nothing leaves them as they were.
pub proof fn merge_storage_with_nothing(a: StorageView)
    ensures
        merge_storage(a, empty_storage()) == a,
{
    assert(merge_storage(a, empty_storage()).nodes =~= a.nodes);
    assert(merge_storage(a, empty_storage()).removed =~= a.removed);
}

/// Extending trie updates by updates that record nothing leaves them as they were.
pub proof fn merge_tries_with_nothing(a: TrieView)
    ensures
        merge_tries(a, empty_trie()) == a,
{
    assert(merge_tries(a, empty_trie()).account_nodes =~= a.account_nodes);
    assert(merge_tries(a, empty_trie()).removed_nodes =~= a.removed_nodes);
    assert(merge_tries(a, empty_trie()).storage_tries =~= a.storage_tries);
}

/// Extending empty storage updates by `b` gives `b`, when `b` holds nothing at the empty path.
pub proof fn merge_storage_onto_nothing(b: StorageView)
    requires
        storage_paths_nonempty(b),
    ensures
        merge_storage(empty_storage(), b) == b,
{
    assert(merge_storage(empty_storage(), b).nodes =~= b.nodes);
    assert(merge_storage(empty_storage(), b).removed =~= b.removed);
}

/// Extending empty trie updates by `b` gives `b`, when `b` holds nothing at the empty path.
pub proof fn merge_tries_onto_nothing(b: TrieView)
    requires
        trie_paths_nonempty(b),
    ensures
        merge_tries(empty_trie(), b) == b,
{
    let m = merge_tries(empty_trie(), b);
    assert(m.account_nodes =~= b.account_nodes);
    assert(m.removed_nodes =~= b.removed_nodes);
    assert forall|k: Seq<u8>| #[trigger] m.storage_tries.contains_key(k) implies m.storage_tries[k] == b.storage_tries[k] by {
        merge_storage_onto_nothing(b.storage_tries[k]);
    }
    assert(m.storage_tries =~= b.storage_tries);
}

/// Extending keeps the empty path out of storage updates that held nothing there.
pub proof fn merge_storage_keeps_paths_nonempty(a: StorageView, b: StorageView)
    requires
        storage_paths_nonempty(a),
    ensures
        storage_paths_nonempty(merge_storage(a, b)),
{
}

/// Extending keeps the empty path out of trie updates that held nothing there.
pub proof fn merge_tries_keeps_paths_nonempty(a: TrieView, b: TrieView)
    requires
        trie_paths_nonempty(a),
    ensures
        trie_paths_nonempty(merge_tries(a, b)),
{
    let m = merge_tries(a, b);
    assert forall|k: Seq<u8>| #[trigger] m.storage_tries.contains_key(k) implies storage_paths_nonempty(m.storage_tries[k]) by {
        if b.storage_tries.contains_key(k) {
            merge_storage_keeps_paths_nonempty(storage_or_empty(a.storage_tries, k), b.storage_tries[k]);
        }
    }
}

/// Finalizing keeps the empty path out of updates that held nothing there.
pub proof fn finalize_keeps_paths_nonempty(
    a: TrieView,
    updated: Map<Seq<u8>, BranchNodeCompact>,
    removed_keys: Set<Seq<u8>>,
    destroyed: Set<Seq<u8>>,
)
    requires
        trie_paths_nonempty(a),
    ensures
        trie_paths_nonempty(finalize_trie(a, updated, removed_keys, destroyed)),
{
    let f = finalize_trie(a, updated, removed_keys, destroyed);
    assert forall|k: Seq<u8>| #[trigger] f.storage_tries.contains_key(k) implies storage_paths_nonempty(f.storage_tries[k]) by {
        assert(storage_paths_nonempty(storage_or_empty(a.storage_tries, k)));
    }
}

/// Finalizing storage updates keeps the empty path out of updates that held nothing there.
pub proof fn finalize_storage_keeps_paths_nonempty(
    a: StorageView,
    updated: Map<Seq<u8>, BranchNodeCompact>,
    removed_keys: Set<Seq<u8>>,
)
    requires
        storage_paths_nonempty(a),
    ensures
        storage_paths_nonempty(finalize_storage(a, updated, removed_keys)),
{
}

/// The later updates win: a node that `b` holds at a nonempty path is the node afterwards; a
/// path that `b` removed and does not hold a node for has no node afterwards; a wipe in `b`
/// leaves nothing of `a` but the wipe itself.
pub proof fn merge_storage_later_wins(a: StorageView, b: StorageView, p: Seq<u8>)
    ensures
        b.nodes.contains_key(p) && p.len() > 0 ==> merge_storage(a, b).nodes.contains_key(p)
            && merge_storage(a, b).nodes[p] == b.nodes[p],
        b.removed.contains(p) && !(b.nodes.contains_key(p) && p.len() > 0) ==> !merge_storage(a, b).nodes.contains_key(p),
        b.is_deleted && merge_storage(a, b).nodes.contains_key(p) ==> b.nodes.contains_key(p),
        b.is_deleted && merge_storage(a, b).removed.contains(p) ==> b.removed.contains(p),
        merge_storage(a, b).is_deleted == (a.is_deleted || b.is_deleted),
{
}

/// The later updates win on the account trie: a node that `b` holds at a nonempty path is the
/// node afterwards, and a path that `b` removed and does not hold a node for has no node
/// afterwards.
pub proof fn merge_tries_later_wins(a: TrieView, b: TrieView, p: Seq<u8>)
    ensures
        b.account_nodes.contains_key(p) && p.len() > 0 ==> merge_tries(a, b).account_nodes.contains_key(p)
            && merge_tries(a, b).account_nodes[p] == b.account_nodes[p],
        b.removed_nodes.contains(p) && !(b.account_nodes.contains_key(p) && p.len() > 0)
            ==> !merge_tries(a, b).account_nodes.contains_key(p),
        !b.storage_tries.contains_key(p) ==> merge_tries(a, b).storage_tries.contains_key(p) == a.storage_tries.contains_key(p),
        !b.storage_tries.contains_key(p) && a.storage_tries.contains_key(p) ==> merge_tries(a, b).storage_tries[p] == a.storage_tries[p],
{
}

/// No node of the storage updates sits at the empty path.
pub open spec fn storage_nodes_nonempty(v: StorageView) -> bool {
    forall|p: Seq<u8>| #[trigger] v.nodes.contains_key(p) ==> p.len() > 0
}

/// No account node sits at the empty path, and no node of any storage trie.
pub open spec fn trie_nodes_nonempty(v: TrieView) -> bool {
    &&& forall|p: Seq<u8>| #[trigger] v.account_nodes.contains_key(p) ==> p.len() > 0
    &&& forall|k: Seq<u8>| #[trigger] v.storage_tries.contains_key(k) ==> storage_nodes_nonempty(v.storage_tries[k])
}

/// Extending by `b` and then by `c` is extending by `b` extended by `c`, when `a` holds no node
/// at the empty path.
pub proof fn merge_storage_associative(a: StorageView, b: StorageView, c: StorageView)
    requires
        storage_nodes_nonempty(a),
    ensures
        merge_storage(merge_storage(a, b), c) == merge_storage(a, merge_storage(b, c)),
{
    let l = merge_storage(merge_storage(a, b), c);
    let r = merge_storage(a, merge_storage(b, c));
    assert(l.nodes =~= r.nodes);
    assert(l.removed =~= r.removed);
}

/// Extending trie updates by `b` and then by `c` is extending them by `b` extended by `c`, when
/// `a` holds no node at the empty path.
pub proof fn merge_tries_associative(a: TrieView, b: TrieView, c: TrieView)
    requires
        trie_nodes_nonempty(a),
    ensures
        merge_tries(merge_tries(a, b), c) == merge_tries(a, merge_tries(b, c)),
{
    let l = merge_tries(merge_tries(a, b), c);
    let r = merge_tries(a, merge_tries(b, c));
    assert(l.account_nodes =~= r.account_nodes);
    assert(l.removed_nodes =~= r.removed_nodes);
    assert forall|k: Seq<u8>| #[trigger] l.storage_tries.contains_key(k) implies l.storage_tries[k] == r.storage_tries[k] by {
        let sa = storage_or_empty(a.storage_tries, k);
        assert(storage_nodes_nonempty(sa));
        if b.storage_tries.contains_key(k) && c.storage_tries.contains_key(k) {
            merge_storage_associative(sa, b.storage_tries[k], c.storage_tries[k]);
        } else if c.storage_tries.contains_key(k) {
            merge_storage_associative(sa, empty_storage(), c.storage_tries[k]);
            merge_storage_with_nothing(sa);
        }
    }
    assert(l.storage_tries =~= r.storage_tries);
}

/// Updates that record nothing are empty; a wiped storage trie is not.
pub proof fn empty_updates_are_empty()
    ensures
        storage_is_empty(empty_storage()),
        trie_is_empty(empty_trie()),
        !storage_is_empty(StorageView { is_deleted: true, nodes: Map::empty(), removed: Set::empty() }),
{
}

/// Storage updates are empty exactly when their length (the deletion flag counted as one, plus
/// the updated and the removed nodes) is zero.
pub proof fn storage_empty_iff_len_zero(v: StorageView)
    requires
        v.nodes.dom().finite(),
        v.removed.finite(),
    ensures
        storage_is_empty(v) <==> (if v.is_deleted { 1int } else { 0int }) + v.nodes.len() + v.removed.len() == 0,
{
    if v.nodes.len() == 0 {
        v.nodes.dom().lemma_len0_is_empty();
        assert(v.nodes =~= Map::<Seq<u8>, BranchNodeCompact>::empty());
    }
    if v.removed.len() == 0 {
        v.removed.lemma_len0_is_empty();
    }
}

/// Entries sorted by path with distinct paths are determined by the map they list: two such
/// sequences for one map agree, entry by entry, in path and value.
pub proof fn sorted_entries_unique<K: TrieKey, V>(s1: Seq<(K, V)>, s2: Seq<(K, V)>)
    requires
        distinct_paths(s1),
        distinct_paths(s2),
        sorted_by_path(s1),
        sorted_by_path(s2),
        entries_map(s1) == entries_map(s2),
    ensures
        s1.len() == s2.len(),
        forall|i: int| 0 <= i < s1.len() ==> #[trigger] s1[i].0.path() == s2[i].0.path() && s1[i].1 == s2[i].1,
    decreases s1.len(),
{
    lemma_entries_map_len(s1);
    lemma_entries_map_len(s2);
    if s1.len() > 0 {
        lemma_entries_map_lookup(s1, 0);
        lemma_entries_map_lookup(s2, 0);
        let p1 = s1[0].0.path();
        let p2 = s2[0].0.path();
        if p1 != p2 {
            let j = choose|j: int| #[trigger] has_path_at(s2, j, p1);
            let k = choose|k: int| #[trigger] has_path_at(s1, k, p2);
            assert(j != 0 && k != 0);
            assert(crate::keys::path_lt(s2[0].0.path(), s2[j].0.path()));
            assert(crate::keys::path_lt(s1[0].0.path(), s1[k].0.path()));
            lemma_path_lt_total(p1, p2);
        }
        lemma_entries_map_remove(s1, 0);
        lemma_entries_map_remove(s2, 0);
        let t1 = s1.remove(0);
        let t2 = s2.remove(0);
        assert(sorted_by_path(t1)) by {
            assert forall|i: int, j: int| 0 <= i < j < t1.len() implies crate::keys::path_lt(t1[i].0.path(), t1[j].0.path()) by {
                assert(t1[i] == s1[i + 1] && t1[j] == s1[j + 1]);
            }
        }
        assert(sorted_by_path(t2)) by {
            assert forall|i: int, j: int| 0 <= i < j < t2.len() implies crate::keys::path_lt(t2[i].0.path(), t2[j].0.path()) by {
                assert(t2[i] == s2[i + 1] && t2[j] == s2[j + 1]);
            }
        }
        sorted_entries_unique(t1, t2);
        assert forall|i: int| 0 <= i < s1.len() implies #[trigger] s1[i].0.path() == s2[i].0.path() && s1[i].1 == s2[i].1 by {
            if i > 0 {
                assert(t1[i - 1] == s1[i] && t2[i - 1] == s2[i]);
            }
        }
    }
}

/// A hex digit reads back as its value.
proof fn hex_digit_reads_back(d: int)
    requires
        0 <= d < 16,
    ensures
        is_hex_char(hex_digit(d)),
        hex_value(hex_digit(d)) == d,
        hex_digit(d) != 'x' && hex_digit(d) != 'X',
{
}

/// Bytes written as hex read back as the same bytes.
pub proof fn hex_round_trip(b: Seq<u8>)
    ensures
        hex_decode(hex_lower(b)) == Some(b),
{
    let s = hex_lower(b);
    assert forall|i: int| 0 <= i < s.len() implies #[trigger] is_hex_char(s[i]) && hex_value(s[i]) == (if i % 2 == 0 { b[i / 2] as int / 16 } else { b[i / 2] as int % 16 }) by {
        hex_digit_reads_back(if i % 2 == 0 { b[i / 2] as int / 16 } else { b[i / 2] as int % 16 });
    }
    if s.len() >= 2 {
        hex_digit_reads_back(b[0] as int % 16);
    }
    assert(strip_hex_prefix(s) == s);
    let d = Seq::new(s.len() / 2, |i: int| (hex_value(s[2 * i]) * 16 + hex_value(s[2 * i + 1])) as u8);
    assert forall|i: int| 0 <= i < b.len() implies d[i] == b[i] by {
        assert(s[2 * i] == hex_digit(b[i] as int / 16));
        assert(s[2 * i + 1] == hex_digit(b[i] as int % 16));
        hex_digit_reads_back(b[i] as int / 16);
        hex_digit_reads_back(b[i] as int % 16);
    }
    assert(d =~= b);
}

/// Packing nibbles and splitting the bytes again gives the nibbles back, with a zero nibble
/// after an odd path.
pub proof fn pack_round_trip(p: Seq<u8>)
    requires
        all_nibbles(p),
    ensures
        unpacked(packed(p)) == (if p.len() % 2 == 0 { p } else { p.push(0) }),
{
    let q = if p.len() % 2 == 0 { p } else { p.push(0) };
    let u = unpacked(packed(p));
    assert forall|i: int| 0 <= i < u.len() implies u[i] == q[i] by {
        let j = i / 2;
        let hi = p[2 * j] as int;
        let lo = if 2 * j + 1 < p.len() { p[2 * j + 1] as int } else { 0int };
        assert(packed(p)[j] as int == hi * 16 + lo);
        assert((hi * 16 + lo) / 16 == hi && (hi * 16 + lo) % 16 == lo) by (nonlinear_arith)
            requires
                0 <= hi < 16,
                0 <= lo < 16,
        ;
    }
    assert(u =~= q);
}

/// The text form of an even nibble path reads back as that path; an odd one reads back with a
/// zero nibble after it.
pub proof fn key_round_trip(p: Seq<u8>)
    requires
        all_nibbles(p),
    ensures
        hex_decode(key_hex(p)) == Some(packed(p)),
        unpacked(packed(p)) == (if p.len() % 2 == 0 { p } else { p.push(0) }),
{
    hex_round_trip(packed(p));
    pack_round_trip(p);
}

/// Finalizing the account trie records the hash builder's nodes over what was there: a node it
/// gives at a nonempty path is the node at that path afterwards; at any other path the node (or
/// its absence) stays as it was.
pub proof fn finalize_trie_records_updated_nodes(
    a: TrieView,
    updated: Map<Seq<u8>, BranchNodeCompact>,
    removed_keys: Set<Seq<u8>>,
    destroyed: Set<Seq<u8>>,
    p: Seq<u8>,
)
    ensures
        p.len() > 0 && updated.contains_key(p) ==> finalize_trie(a, updated, removed_keys, destroyed).account_nodes.contains_key(p)
            && finalize_trie(a, updated, removed_keys, destroyed).account_nodes[p] == updated[p],
        !(p.len() > 0 && updated.contains_key(p)) ==> (finalize_trie(a, updated, removed_keys, destroyed).account_nodes.contains_key(p)
            == a.account_nodes.contains_key(p)),
        !(p.len() > 0 && updated.contains_key(p)) && a.account_nodes.contains_key(p)
            ==> finalize_trie(a, updated, removed_keys, destroyed).account_nodes[p] == a.account_nodes[p],
{
}

/// Finalizing the account trie adds the nonempty removed keys to the removed paths and keeps every
/// path removed before: a path is removed afterwards exactly when it was removed before or is a
/// nonempty removed key.
pub proof fn finalize_trie_records_removed_keys(
    a: TrieView,
    updated: Map<Seq<u8>, BranchNodeCompact>,
    removed_keys: Set<Seq<u8>>,
    destroyed: Set<Seq<u8>>,
    p: Seq<u8>,
)
    ensures
        finalize_trie(a, updated, removed_keys, destroyed).removed_nodes.contains(p)
            <==> (a.removed_nodes.contains(p) || (removed_keys.contains(p) && p.len() > 0)),
        a.removed_nodes.subset_of(finalize_trie(a, updated, removed_keys, destroyed).removed_nodes),
{
}

/// Finalizing marks the storage trie of each destroyed account as wiped and keeps the nodes and
/// removed paths it held; the storage tries of other accounts stay as they were.
pub proof fn finalize_trie_marks_destroyed(
    a: TrieView,
    updated: Map<Seq<u8>, BranchNodeCompact>,
    removed_keys: Set<Seq<u8>>,
    destroyed: Set<Seq<u8>>,
    k: Seq<u8>,
)
    ensures
        finalize_trie(a, updated, removed_keys, destroyed).storage_tries.contains_key(k)
            <==> (a.storage_tries.contains_key(k) || destroyed.contains(k)),
        destroyed.contains(k) ==> finalize_trie(a, updated, removed_keys, destroyed).storage_tries[k].is_deleted
            && finalize_trie(a, updated, removed_keys, destroyed).storage_tries[k].nodes == storage_or_empty(a.storage_tries, k).nodes
            && finalize_trie(a, updated, removed_keys, destroyed).storage_tries[k].removed == storage_or_empty(a.storage_tries, k).removed,
        !destroyed.contains(k) && a.storage_tries.contains_key(k)
            ==> finalize_trie(a, updated, removed_keys, destroyed).storage_tries[k] == a.storage_tries[k],
{
}

/// Finalizing storage updates keeps the wipe flag as it was, records the hash builder's nodes
/// over what was there (a node it gives at a nonempty path is the node afterwards; elsewhere the
/// nodes stay), and adds the nonempty removed keys to the removed paths, keeping the earlier ones.
pub proof fn finalize_storage_records(
    a: StorageView,
    updated: Map<Seq<u8>, BranchNodeCompact>,
    removed_keys: Set<Seq<u8>>,
    p: Seq<u8>,
)
    ensures
        finalize_storage(a, updated, removed_keys).is_deleted == a.is_deleted,
        p.len() > 0 && updated.contains_key(p) ==> finalize_storage(a, updated, removed_keys).nodes.contains_key(p)
            && finalize_storage(a, updated, removed_keys).nodes[p] == updated[p],
        !(p.len() > 0 && updated.contains_key(p)) ==> (finalize_storage(a, updated, removed_keys).nodes.contains_key(p)
            == a.nodes.contains_key(p)),
        !(p.len() > 0 && updated.contains_key(p)) && a.nodes.contains_key(p)
            ==> finalize_storage(a, updated, removed_keys).nodes[p] == a.nodes[p],
        finalize_storage(a, updated, removed_keys).removed.contains(p)
            <==> (a.removed.contains(p) || (removed_keys.contains(p) && p.len() > 0)),
{
}

/// Entry lists that agree position by position list the same map.
proof fn same_entries_same_map<K: TrieKey, V>(s1: Seq<(K, V)>, s2: Seq<(K, V)>)
    requires
        distinct_paths(s1),
        same_entries(s1, s2),
    ensures
        distinct_paths(s2),
        entries_map(s1) == entries_map(s2),
{
    assert(distinct_paths(s2)) by {
        assert forall|i: int, j: int| 0 <= i < s2.len() && 0 <= j < s2.len() && i != j implies s2[i].0.path() != s2[j].0.path() by {
            assert(s1[i].0.path() == s2[i].0.path() && s1[j].0.path() == s2[j].0.path());
        }
    }
    let m = entries_map(s1);
    assert forall|i: int| 0 <= i < s2.len() implies #[trigger] m.contains_key(s2[i].0.path()) && m[s2[i].0.path()] == s2[i].1 by {
        assert(s1[i].0.path() == s2[i].0.path() && s1[i].1 == s2[i].1);
        lemma_entries_map_lookup(s1, i);
    }
    assert forall|p: Seq<u8>| #[trigger] m.contains_key(p) implies exists|i: int| #[trigger] has_path_at(s2, i, p) by {
        let i = choose|i: int| #[trigger] has_path_at(s1, i, p);
        assert(s1[i].0.path() == s2[i].0.path());
        assert(has_path_at(s2, i, p));
    }
    crate::path_map::lemma_entries_map_eq(s2, m);
}

/// Two sorted storage updates compare equal exactly when they list the same updates.
pub proof fn sorted_storage_equal_iff_same_updates(
    a: StorageTrieUpdatesSorted,
    b: StorageTrieUpdatesSorted,
    v: StorageView,
    w: StorageView,
)
    requires
        sorts_storage(a, v),
        sorts_storage(b, w),
    ensures
        same_sorted_storage(a, b) <==> v == w,
{
    if same_sorted_storage(a, b) {
        same_entries_same_map(a.storage_nodes@, b.storage_nodes@);
    }
    if v == w {
        sorted_entries_unique(a.storage_nodes@, b.storage_nodes@);
    }
}

/// Two sorted trie updates compare equal exactly when they list the same updates: the same account
/// nodes, the same removed paths and the same storage tries.
pub proof fn sorted_trie_equal_iff_same_updates(a: TrieUpdatesSorted, b: TrieUpdatesSorted, v: TrieView, w: TrieView)
    requires
        sorts_trie(a, v),
        sorts_trie(b, w),
    ensures
        same_sorted_trie(a, b) <==> v == w,
        same_sorted_trie(a, b) ==> a.removed_nodes@ == b.removed_nodes@,
{
    let sa = a.storage_tries@;
    let sb = b.storage_tries@;
    assert(sorts_storage_tries(sa, v.storage_tries) && sorts_storage_tries(sb, w.storage_tries));
    if same_sorted_trie(a, b) {
        same_entries_same_map(a.account_nodes@, b.account_nodes@);
        assert forall|k: Seq<u8>| #[trigger] v.storage_tries.contains_key(k) implies v.storage_tries[k] == w.storage_tries[k] by {
            assert(sa.contains_key(k));
            sorted_storage_equal_iff_same_updates(sa[k], sb[k], v.storage_tries[k], w.storage_tries[k]);
        }
        assert(v.storage_tries =~= w.storage_tries);
        assert(v == w);
    }
    if v == w {
        sorted_entries_unique(a.account_nodes@, b.account_nodes@);
        assert forall|k: Seq<u8>| #[trigger] sa.contains_key(k) implies same_sorted_storage(sa[k], sb[k]) by {
            assert(sb.contains_key(k));
            sorted_storage_equal_iff_same_updates(sa[k], sb[k], v.storage_tries[k], w.storage_tries[k]);
        }
        assert(sa.dom() == sb.dom());
        assert(same_sorted_storage_tries(sa, sb));
    }
}

} // verus!

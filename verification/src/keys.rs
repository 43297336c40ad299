//! Trie keys: nibble paths and 32-byte hashes, and the order in which they are sorted.
use vstd::prelude::*;
use alloy_primitives::B256;
use nybbles::Nibbles;

verus! {

#[verifier::external_type_specification]
#[verifier::external_body]
pub struct ExNibbles(nybbles::Nibbles);

#[verifier::external_type_specification]
#[verifier::external_body]
pub struct ExFixedBytes<const N: usize>(alloy_primitives::FixedBytes<N>);

/// The nibbles that a `Nibbles` value holds, most significant first.
pub uninterp spec fn nibbles_path(n: Nibbles) -> Seq<u8>;

/// The 32 bytes that a `B256` value holds.
pub uninterp spec fn b256_bytes(b: B256) -> Seq<u8>;

/// The outcome of comparing two keys.
#[derive(Debug, Clone, Copy, PartialEq, Eq, Structural)]
pub enum KeyOrder {
    Less,
    Equal,
    Greater,
}

/// `a` sorts before `b`, and the first place where they part is `k`: either `a` ends there while
/// `b` goes on, or both go on and `a` holds the smaller element there.
pub open spec fn parts_below_at(a: Seq<u8>, b: Seq<u8>, k: int) -> bool {
    &&& 0 <= k <= a.len()
    &&& k <= b.len()
    &&& forall|j: int| 0 <= j < k ==> a[j] == b[j]
    &&& (k == a.len() && k < b.len()) || (k < a.len() && k < b.len() && a[k] < b[k])
}

/// Lexicographic order on byte sequences: a proper prefix sorts first.
pub open spec fn path_lt(a: Seq<u8>, b: Seq<u8>) -> bool {
    exists|k: int| parts_below_at(a, b, k)
}

/// What comparing the key paths `a` and `b` gives.
pub open spec fn order_of(a: Seq<u8>, b: Seq<u8>) -> KeyOrder {
    if a == b {
        KeyOrder::Equal
    } else if path_lt(a, b) {
        KeyOrder::Less
    } else {
        KeyOrder::Greater
    }
}

/// Two distinct sequences are ordered one way or the other, and never both ways.
pub proof fn lemma_path_lt_total(a: Seq<u8>, b: Seq<u8>)
    ensures
        a != b ==> (path_lt(a, b) || path_lt(b, a)),
        !(path_lt(a, b) && path_lt(b, a)),
        !path_lt(a, a),
{
    if a != b {
        // the first index where they part
        let m = if a.len() < b.len() { a.len() as int } else { b.len() as int };
        if forall|j: int| 0 <= j < m ==> a[j] == b[j] {
            if a.len() == b.len() {
                assert(a =~= b);
            } else if a.len() < b.len() {
                assert(parts_below_at(a, b, m));
            } else {
                assert(parts_below_at(b, a, m));
            }
        } else {
            lemma_first_difference(a, b, m);
            let k = choose|k: int| 0 <= k < m && a[k] != b[k] && forall|j: int| 0 <= j < k ==> a[j] == b[j];
            if a[k] < b[k] {
                assert(parts_below_at(a, b, k));
            } else {
                assert(parts_below_at(b, a, k));
            }
        }
    }
    if path_lt(a, b) && path_lt(b, a) {
        let k1 = choose|k: int| parts_below_at(a, b, k);
        let k2 = choose|k: int| parts_below_at(b, a, k);
        if k1 < k2 {
            assert(a[k1] == b[k1]);
        } else if k2 < k1 {
            assert(a[k2] == b[k2]);
        }
    }
}

/// The first index where two distinct sequences part exists.
proof fn lemma_first_difference(a: Seq<u8>, b: Seq<u8>, m: int)
    requires
        0 <= m <= a.len(),
        m <= b.len(),
        exists|i: int| 0 <= i < m && a[i] != b[i],
    ensures
        exists|k: int| 0 <= k < m && a[k] != b[k] && forall|j: int| 0 <= j < k ==> a[j] == b[j],
    decreases m,
{
    if a[m - 1] != b[m - 1] && forall|j: int| 0 <= j < m - 1 ==> a[j] == b[j] {
        assert(0 <= m - 1 < m && a[m - 1] != b[m - 1]);
    } else if exists|i: int| 0 <= i < m - 1 && a[i] != b[i] {
        lemma_first_difference(a, b, m - 1);
    }
}

/// The order is transitive.
pub proof fn lemma_path_lt_transitive(a: Seq<u8>, b: Seq<u8>, c: Seq<u8>)
    requires
        path_lt(a, b),
        path_lt(b, c),
    ensures
        path_lt(a, c),
{
    let k1 = choose|k: int| parts_below_at(a, b, k);
    let k2 = choose|k: int| parts_below_at(b, c, k);
    if k1 < k2 {
        assert(parts_below_at(a, c, k1));
    } else if k2 < k1 {
        assert(parts_below_at(a, c, k2));
    } else {
        assert(parts_below_at(a, c, k1));
    }
}

/// Keys of the maps and sets of trie updates: values that stand for a byte path, can be copied,
/// and are compared by their paths.
pub trait TrieKey: Copy {
    /// The path that the key stands for.
    spec fn path(&self) -> Seq<u8>;

    /// Whether the two keys stand for the same path.
    fn same_path(&self, other: &Self) -> (r: bool)
        ensures
            r == (self.path() == other.path()),
    ;

    /// Compares the paths of the two keys.
    fn order(&self, other: &Self) -> (r: KeyOrder)
        ensures
            r == order_of(self.path(), other.path()),
    ;
}

impl<'a, K: TrieKey> TrieKey for &'a K {
    open spec fn path(&self) -> Seq<u8> {
        (**self).path()
    }

    fn same_path(&self, other: &Self) -> (r: bool) {
        (**self).same_path(*other)
    }

    fn order(&self, other: &Self) -> (r: KeyOrder) {
        (**self).order(*other)
    }
}

impl TrieKey for Nibbles {
    open spec fn path(&self) -> Seq<u8> {
        nibbles_path(*self)
    }

    fn same_path(&self, other: &Self) -> (r: bool) {
        nibbles_eq(self, other)
    }

    fn order(&self, other: &Self) -> (r: KeyOrder) {
        nibbles_order(self, other)
    }
}

impl TrieKey for B256 {
    open spec fn path(&self) -> Seq<u8> {
        b256_bytes(*self)
    }

    fn same_path(&self, other: &Self) -> (r: bool) {
        b256_eq(self, other)
    }

    fn order(&self, other: &Self) -> (r: KeyOrder) {
        b256_order(self, other)
    }
}

/// Whether a nibble path is empty (`Nibbles::is_empty`).
pub fn path_is_empty(n: &Nibbles) -> (r: bool)
    ensures
        r == (nibbles_path(*n).len() == 0),
{
    nibbles_is_empty(n)
}

/// `Nibbles::is_empty`: true exactly when the value holds no nibble.
#[verifier::external_body]
fn nibbles_is_empty(n: &Nibbles) -> (r: bool)
    ensures
        r == (nibbles_path(*n).len() == 0),
{
    n.is_empty()
}

/// `==` on `Nibbles`: two values are equal exactly when they hold the same nibbles (the type
/// keeps its nibbles zero-padded, so equal nibbles give equal representations).
#[verifier::external_body]
fn nibbles_eq(a: &Nibbles, b: &Nibbles) -> (r: bool)
    ensures
        r == (nibbles_path(*a) == nibbles_path(*b)),
{
    *a == *b
}

/// `Ord::cmp` on `Nibbles`: lexicographic on the nibbles, a proper prefix sorting first (the
/// order the crate documents beside its `Ord` impl).
#[verifier::external_body]
fn nibbles_order(a: &Nibbles, b: &Nibbles) -> (r: KeyOrder)
    ensures
        r == order_of(nibbles_path(*a), nibbles_path(*b)),
{
    match a.cmp(b) {
        core::cmp::Ordering::Less => KeyOrder::Less,
        core::cmp::Ordering::Equal => KeyOrder::Equal,
        core::cmp::Ordering::Greater => KeyOrder::Greater,
    }
}

/// `==` on `B256` (derived on its byte array): equal exactly when the bytes are equal.
#[verifier::external_body]
fn b256_eq(a: &B256, b: &B256) -> (r: bool)
    ensures
        r == (b256_bytes(*a) == b256_bytes(*b)),
{
    *a == *b
}

/// `Ord::cmp` on `B256`: byte-lexicographic, as the crate documents on its `Ord` impl.
#[verifier::external_body]
fn b256_order(a: &B256, b: &B256) -> (r: KeyOrder)
    ensures
        r == order_of(b256_bytes(*a), b256_bytes(*b)),
{
    match a.cmp(b) {
        core::cmp::Ordering::Less => KeyOrder::Less,
        core::cmp::Ordering::Equal => KeyOrder::Equal,
        core::cmp::Ordering::Greater => KeyOrder::Greater,
    }
}

} // verus!

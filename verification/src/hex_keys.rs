//! The text form of nibble paths in serialized trie updates: the packed path (two nibbles to a
//! byte, an odd path padded with a zero nibble) as lowercase hex, and the sorted lists and maps
//! built from it.
use vstd::prelude::*;
use alloy_primitives::hex::FromHexError;
use alloy_trie::BranchNodeCompact;
use nybbles::Nibbles;
use crate::keys::{nibbles_path, path_lt, TrieKey};
use crate::nodes::{NibblesSet, NodeMap};
use crate::path_map::{entries_map, has_path_at, keys_set, PathMap, PathSet};
use crate::sort::{deref_map, sort_entry_refs, sort_key_refs};

verus! {

#[verifier::external_type_specification]
#[verifier::external_body]
pub struct ExFromHexError(alloy_primitives::hex::FromHexError);

/// The lowercase hex digit for a value below 16.
pub open spec fn hex_digit(d: int) -> char {
    if d < 10 {
        (48 + d) as char
    } else {
        (87 + d) as char
    }
}

/// Bytes as lowercase hex, two digits per byte, high digit first.
pub open spec fn hex_lower(b: Seq<u8>) -> Seq<char> {
    Seq::new(2 * b.len(), |i: int| hex_digit(if i % 2 == 0 { b[i / 2] as int / 16 } else { b[i / 2] as int % 16 }))
}

/// A hex digit, either case.
pub open spec fn is_hex_char(c: char) -> bool {
    ('0' <= c && c <= '9') || ('a' <= c && c <= 'f') || ('A' <= c && c <= 'F')
}

/// The value of a hex digit.
pub open spec fn hex_value(c: char) -> int {
    if '0' <= c && c <= '9' {
        c as int - 48
    } else if 'a' <= c && c <= 'f' {
        c as int - 87
    } else {
        c as int - 55
    }
}

/// The text without a leading `0x` or `0X`.
pub open spec fn strip_hex_prefix(s: Seq<char>) -> Seq<char> {
    if s.len() >= 2 && s[0] == '0' && (s[1] == 'x' || s[1] == 'X') {
        s.skip(2)
    } else {
        s
    }
}

/// The bytes that hex text stands for: after an optional `0x`/`0X`, an even number of hex digits
/// of either case, two per byte; any other text stands for none.
pub open spec fn hex_decode(s: Seq<char>) -> Option<Seq<u8>> {
    let t = strip_hex_prefix(s);
    if t.len() % 2 == 0 && forall|i: int| 0 <= i < t.len() ==> #[trigger] is_hex_char(t[i]) {
        Some(Seq::new(t.len() / 2, |i: int| (hex_value(t[2 * i]) * 16 + hex_value(t[2 * i + 1])) as u8))
    } else {
        None
    }
}

/// Nibbles packed two to a byte, the first one high; an odd last nibble is padded with zero.
pub open spec fn packed(p: Seq<u8>) -> Seq<u8> {
    Seq::new(
        ((p.len() + 1) / 2) as nat,
        |i: int| (p[2 * i] * 16 + (if 2 * i + 1 < p.len() { p[2 * i + 1] as int } else { 0int })) as u8,
    )
}

/// Bytes split into nibbles, high nibble first.
pub open spec fn unpacked(b: Seq<u8>) -> Seq<u8> {
    Seq::new(2 * b.len(), |i: int| if i % 2 == 0 { (b[i / 2] / 16) as u8 } else { (b[i / 2] % 16) as u8 })
}

/// The text form of a nibble path.
pub open spec fn key_hex(p: Seq<u8>) -> Seq<char> {
    hex_lower(packed(p))
}

/// Every element is a nibble.
pub open spec fn all_nibbles(p: Seq<u8>) -> bool {
    forall|i: int| 0 <= i < p.len() ==> #[trigger] p[i] < 16
}

/// The paths come in strictly increasing order.
pub open spec fn sorted_paths(ps: Seq<Seq<u8>>) -> bool {
    forall|i: int, j: int| #![trigger ps[i], ps[j]] 0 <= i < j < ps.len() ==> path_lt(ps[i], ps[j])
}

/// A hex key that could not be read.
#[derive(Debug, Clone, Copy, PartialEq, Eq)]
pub enum NibblesKeyError {
    /// The key is not hex text: an odd number of digits, or a character that is not a hex digit.
    /// The decoder's own error is kept.
    InvalidHex(FromHexError),
}

/// `Nibbles::pack`: the nibbles packed two to a byte, an odd last one padded with zero.
#[verifier::external_body]
fn pack_path(n: &Nibbles) -> (r: Vec<u8>)
    ensures
        r@ == packed(nibbles_path(*n)),
{
    n.pack().to_vec()
}

/// `Nibbles::unpack`: the nibbles of at most 32 bytes, high nibble first (it panics on more).
#[verifier::external_body]
fn unpack_path(bytes: &[u8]) -> (r: Nibbles)
    requires
        bytes@.len() <= 32,
    ensures
        nibbles_path(r) == unpacked(bytes@),
{
    Nibbles::unpack(bytes)
}

/// `hex::encode`: the bytes as lowercase hex, two digits per byte.
#[verifier::external_body]
fn hex_encode(bytes: &[u8]) -> (r: String)
    ensures
        r@ == hex_lower(bytes@),
{
    alloy_primitives::hex::encode(bytes)
}

/// `hex::decode`: the bytes that the text stands for, after an optional `0x`/`0X` prefix; an
/// error when the text has an odd length or a character that is not a hex digit.
#[verifier::external_body]
fn hex_decode_text(text: &str) -> (r: Result<Vec<u8>, FromHexError>)
    ensures
        match hex_decode(text@) {
            Some(b) => r is Ok && r->Ok_0@ == b,
            None => r is Err,
        },
{
    alloy_primitives::hex::decode(text)
}

/// `Nibbles::to_vec`: the nibbles, first to last; there are at most 64, each below 16.
#[verifier::external_body]
fn nibbles_to_vec(n: &Nibbles) -> (r: Vec<u8>)
    ensures
        r@ == nibbles_path(*n),
        r@.len() <= 64,
        all_nibbles(r@),
{
    n.to_vec()
}

/// The text form of a nibble path: its packed bytes as lowercase hex. That text reads back as
/// the packed bytes, at most 32 of them, whose nibbles are the path, with a zero nibble after an
/// odd one.
pub fn encode_nibbles_key(key: &Nibbles) -> (r: String)
    ensures
        r@ == key_hex(nibbles_path(*key)),
        all_nibbles(nibbles_path(*key)),
        nibbles_path(*key).len() <= 64,
        packed(nibbles_path(*key)).len() <= 32,
        hex_decode(r@) == Some(packed(nibbles_path(*key))),
        unpacked(packed(nibbles_path(*key))) == (if nibbles_path(*key).len() % 2 == 0 {
            nibbles_path(*key)
        } else {
            nibbles_path(*key).push(0)
        }),
{
    let nibbles = nibbles_to_vec(key);
    proof {
        crate::laws::key_round_trip(nibbles@);
    }
    let packed = pack_path(key);
    hex_encode(packed.as_slice())
}

/// Reads the text form of a nibble path: the nibbles of the bytes the hex text stands for.
pub fn decode_nibbles_key(text: &str) -> (r: Result<Nibbles, NibblesKeyError>)
    requires
        match hex_decode(text@) {
            Some(b) => b.len() <= 32,
            None => true,
        },
    ensures
        match hex_decode(text@) {
            Some(b) => r is Ok && nibbles_path(r->Ok_0) == unpacked(b),
            None => r matches Err(NibblesKeyError::InvalidHex(_)),
        },
{
    match hex_decode_text(text) {
        Ok(bytes) => Ok(unpack_path(bytes.as_slice())),
        Err(e) => Err(NibblesKeyError::InvalidHex(e)),
    }
}

/// The set's paths in text form, in increasing order of the paths.
pub fn nibbles_set_to_hex(set: &NibblesSet) -> (r: Vec<String>)
    ensures
        exists|ps: Seq<Seq<u8>>|
            #![trigger ps.to_set()]
            sorted_paths(ps) && ps.to_set() == set@ && r@.len() == ps.len()
                && forall|i: int| 0 <= i < ps.len() ==> #[trigger] r@[i]@ == key_hex(ps[i]),
{
    let keys = sort_key_refs(set.members());
    let mut r: Vec<String> = Vec::new();
    let mut i: usize = 0;
    while i < keys.len()
        invariant
            i <= keys@.len(),
            r@.len() == i,
            forall|j: int| 0 <= j < i ==> #[trigger] r@[j]@ == key_hex(keys@[j].path()),
        decreases keys@.len() - i,
    {
        r.push(encode_nibbles_key(keys[i]));
        i = i + 1;
    }
    proof {
        let ps = Seq::new(keys@.len(), |a: int| <&Nibbles as TrieKey>::path(&keys@[a]));
        assert(sorted_paths(ps));
        assert(ps.to_set() =~= set@) by {
            assert forall|p: Seq<u8>| ps.to_set().contains(p) <==> keys_set(keys@).contains(p) by {
                if ps.to_set().contains(p) {
                    assert(ps.contains(p));
                    let a = choose|a: int| 0 <= a < ps.len() && ps[a] == p;
                    assert(<&Nibbles as TrieKey>::path(&keys@[a]) == p);
                }
                if keys_set(keys@).contains(p) {
                    let a = choose|a: int| 0 <= a < keys@.len() && #[trigger] <&Nibbles as TrieKey>::path(&keys@[a]) == p;
                    assert(ps[a] == p);
                    assert(ps.contains(p));
                }
            }
        }
        assert(forall|j: int| 0 <= j < ps.len() ==> #[trigger] r@[j]@ == key_hex(ps[j]));
    }
    r
}

/// The map's entries with their paths in text form, in increasing order of the paths.
pub fn node_map_to_hex<'a>(map: &'a NodeMap) -> (r: Vec<(String, &'a BranchNodeCompact)>)
    ensures
        exists|ps: Seq<Seq<u8>>|
            #![trigger ps.to_set()]
            sorted_paths(ps) && ps.to_set() == map@.dom() && r@.len() == ps.len()
                && forall|i: int| 0 <= i < ps.len() ==> #[trigger] r@[i].0@ == key_hex(ps[i])
                    && *r@[i].1 == map@[ps[i]],
{
    let entries = sort_entry_refs(map.entries());
    let mut r: Vec<(String, &'a BranchNodeCompact)> = Vec::new();
    let mut i: usize = 0;
    while i < entries.len()
        invariant
            i <= entries@.len(),
            r@.len() == i,
            forall|j: int| 0 <= j < i ==> #[trigger] r@[j].0@ == key_hex(entries@[j].0.path()) && r@[j].1 == entries@[j].1,
        decreases entries@.len() - i,
    {
        let e = entries[i];
        r.push((encode_nibbles_key(e.0), e.1));
        i = i + 1;
    }
    proof {
        let ps = Seq::new(entries@.len(), |a: int| entries@[a].0.path());
        assert(sorted_paths(ps));
        assert(ps.to_set() =~= map@.dom()) by {
            assert forall|p: Seq<u8>| ps.to_set().contains(p) <==> deref_map(entries_map(entries@)).contains_key(p) by {
                if ps.to_set().contains(p) {
                    let a = choose|a: int| 0 <= a < ps.len() && ps[a] == p;
                    assert(has_path_at(entries@, a, p));
                }
                if entries_map(entries@).contains_key(p) {
                    let a = choose|a: int| #[trigger] has_path_at(entries@, a, p);
                    assert(ps[a] == p);
                }
            }
        }
        assert forall|j: int| 0 <= j < ps.len() implies #[trigger] r@[j].0@ == key_hex(ps[j]) && *r@[j].1 == map@[ps[j]] by {
            crate::path_map::lemma_entries_map_lookup(entries@, j);
        }
    }
    r
}

/// The key text stands for at most 32 bytes, or is not hex text at all.
pub open spec fn key_fits(t: Seq<char>) -> bool {
    match hex_decode(t) {
        Some(b) => b.len() <= 32,
        None => true,
    }
}

/// Every key text up to the first one that is not hex text stands for at most 32 bytes (the
/// keys after it are never read).
pub open spec fn keys_fit_until_bad(ts: Seq<Seq<char>>) -> bool {
    forall|i: int|
        0 <= i < ts.len() && (forall|j: int| 0 <= j < i ==> (#[trigger] hex_decode(ts[j])) is Some)
            ==> key_fits(#[trigger] ts[i])
}

/// The texts of a list of keys.
pub open spec fn texts_of_keys(s: Seq<String>) -> Seq<Seq<char>> {
    s.map_values(|t: String| t@)
}

/// The texts of the keys of a list of entries.
pub open spec fn key_texts_of<V>(s: Seq<(String, V)>) -> Seq<Seq<char>> {
    s.map_values(|e: (String, V)| e.0@)
}

/// What reading a list of key texts would meet first.
#[derive(Debug, Clone, Copy, PartialEq, Eq, Structural)]
pub enum KeyScan {
    /// Every key is hex text of at most 32 bytes.
    Readable,
    /// The key at `index` is hex text of more than 32 bytes, and every key before it is readable.
    TooLong { index: usize },
    /// The key at `index` is not hex text, and every key before it is readable.
    NotHex { index: usize },
}

/// Looks at the key texts in order, as the readers do, and says what they meet first: a key that
/// is not hex text (the readers stop there with an error), or one too long to read.
pub fn scan_keys(texts: &Vec<String>) -> (r: KeyScan)
    ensures
        match r {
            KeyScan::Readable => forall|i: int| 0 <= i < texts@.len()
                ==> (#[trigger] hex_decode(texts@[i]@)) is Some && key_fits(texts@[i]@),
            KeyScan::TooLong { index } => index < texts@.len()
                && (forall|j: int| 0 <= j < index ==> (#[trigger] hex_decode(texts@[j]@)) is Some && key_fits(texts@[j]@))
                && hex_decode(texts@[index as int]@) is Some && !key_fits(texts@[index as int]@),
            KeyScan::NotHex { index } => index < texts@.len()
                && (forall|j: int| 0 <= j < index ==> (#[trigger] hex_decode(texts@[j]@)) is Some && key_fits(texts@[j]@))
                && hex_decode(texts@[index as int]@) is None,
        },
        !(r is TooLong) <==> keys_fit_until_bad(texts_of_keys(texts@)),
{
    let ghost ts = texts_of_keys(texts@);
    let mut i: usize = 0;
    while i < texts.len()
        invariant
            i <= texts@.len(),
            ts == texts_of_keys(texts@),
            forall|j: int| 0 <= j < i ==> (#[trigger] hex_decode(texts@[j]@)) is Some && key_fits(texts@[j]@),
        decreases texts@.len() - i,
    {
        match hex_decode_text(texts[i].as_str()) {
            Ok(bytes) => {
                if bytes.len() > 32 {
                    proof {
                        assert(ts[i as int] == texts@[i as int]@);
                        assert forall|j: int| 0 <= j < i implies (#[trigger] hex_decode(ts[j])) is Some by {
                            assert(ts[j] == texts@[j]@);
                        }
                        assert(!key_fits(ts[i as int]));
                    }
                    return KeyScan::TooLong { index: i };
                }
            },
            Err(_) => {
                proof {
                    assert forall|k: int| 0 <= k < ts.len() && (forall|j: int| 0 <= j < k ==> (#[trigger] hex_decode(ts[j])) is Some)
                        implies key_fits(#[trigger] ts[k]) by {
                        assert(ts[k] == texts@[k]@);
                        if k > i {
                            assert(ts[i as int] == texts@[i as int]@);
                            assert(hex_decode(ts[i as int]) is Some);
                        }
                    }
                }
                return KeyScan::NotHex { index: i };
            },
        }
        i = i + 1;
    }
    proof {
        assert forall|k: int| 0 <= k < ts.len() && (forall|j: int| 0 <= j < k ==> (#[trigger] hex_decode(ts[j])) is Some)
            implies key_fits(#[trigger] ts[k]) by {
            assert(ts[k] == texts@[k]@);
        }
    }
    KeyScan::Readable
}

/// Reads a list of keys in text form into a set; the first key that is not hex text is an
/// error.
pub fn nibbles_set_from_hex(texts: Vec<String>) -> (r: Result<NibblesSet, NibblesKeyError>)
    requires
        keys_fit_until_bad(texts_of_keys(texts@)),
    ensures
        match r {
            Ok(set) => (forall|i: int| 0 <= i < texts@.len() ==> (#[trigger] hex_decode(texts@[i]@)) is Some)
                && set@ == Set::new(|p: Seq<u8>| exists|i: int| 0 <= i < texts@.len()
                    && p == unpacked(#[trigger] hex_decode(texts@[i]@)->Some_0)),
            Err(e) => exists|i: int| 0 <= i < texts@.len() && (#[trigger] hex_decode(texts@[i]@)) is None
                && forall|j: int| 0 <= j < i ==> (#[trigger] hex_decode(texts@[j]@)) is Some,
        },
{
    let mut set: NibblesSet = PathSet::new();
    let mut i: usize = 0;
    proof {
        assert(set@ =~= Set::new(|p: Seq<u8>| exists|j: int| 0 <= j < 0 && p == unpacked(#[trigger] hex_decode(texts@[j]@)->Some_0)));
    }
    while i < texts.len()
        invariant
            i <= texts@.len(),
            keys_fit_until_bad(texts_of_keys(texts@)),
            forall|j: int| 0 <= j < i ==> (#[trigger] hex_decode(texts@[j]@)) is Some,
            set@ == Set::new(|p: Seq<u8>| exists|j: int| 0 <= j < i && p == unpacked(#[trigger] hex_decode(texts@[j]@)->Some_0)),
        decreases texts@.len() - i,
    {
        proof {
            let ts = texts_of_keys(texts@);
            assert forall|j: int| 0 <= j < i implies (#[trigger] hex_decode(ts[j])) is Some by {
                assert(ts[j] == texts@[j]@);
            }
            assert(ts[i as int] == texts@[i as int]@);
            assert(key_fits(ts[i as int]));
        }
        match decode_nibbles_key(texts[i].as_str()) {
            Ok(key) => {
                let _ = set.insert(key);
                proof {
                    assert(set@ =~= Set::new(|p: Seq<u8>| exists|j: int| 0 <= j < i + 1 && p == unpacked(#[trigger] hex_decode(texts@[j]@)->Some_0)));
                }
            },
            Err(e) => {
                return Err(e);
            },
        }
        i = i + 1;
    }
    Ok(set)
}

/// The map that pairs of decoded keys and values list when a later pair for a path replaces an
/// earlier one.
pub open spec fn decoded_map<V>(s: Seq<(Seq<char>, V)>) -> Map<Seq<u8>, V>
    decreases s.len(),
{
    if s.len() == 0 {
        Map::empty()
    } else {
        decoded_map(s.drop_last()).insert(unpacked(hex_decode(s.last().0)->Some_0), s.last().1)
    }
}

/// The text of each key beside its value.
pub open spec fn texts_of<V>(s: Seq<(String, V)>) -> Seq<(Seq<char>, V)> {
    s.map_values(|e: (String, V)| (e.0@, e.1))
}

/// Reads entries with keys in text form into a map, a later entry for a path replacing an
/// earlier one; the first key that is not hex text is an error.
pub fn node_map_from_hex<V>(entries: Vec<(String, V)>) -> (r: Result<PathMap<Nibbles, V>, NibblesKeyError>)
    requires
        keys_fit_until_bad(key_texts_of(entries@)),
    ensures
        match r {
            Ok(map) => (forall|i: int| 0 <= i < entries@.len() ==> (#[trigger] hex_decode(entries@[i].0@)) is Some)
                && map@ == decoded_map(texts_of(entries@)),
            Err(e) => exists|i: int| 0 <= i < entries@.len() && (#[trigger] hex_decode(entries@[i].0@)) is None
                && forall|j: int| 0 <= j < i ==> (#[trigger] hex_decode(entries@[j].0@)) is Some,
        },
{
    let mut rest = entries;
    let ghost orig = rest@;
    let mut map: PathMap<Nibbles, V> = PathMap::new();
    proof {
        assert(texts_of(orig.take(0)) =~= Seq::<(Seq<char>, V)>::empty());
        assert(orig.skip(0) =~= orig);
    }
    while rest.len() > 0
        invariant
            orig == entries@,
            rest.len() <= orig.len(),
            rest@ == orig.skip(orig.len() - rest.len()),
            keys_fit_until_bad(key_texts_of(orig)),
            forall|j: int| 0 <= j < orig.len() - rest.len() ==> (#[trigger] hex_decode(orig[j].0@)) is Some,
            map@ == decoded_map(texts_of(orig.take(orig.len() - rest.len()))),
        decreases rest.len(),
    {
        let ghost done = orig.len() - rest.len();
        let e = rest.remove(0);
        proof {
            assert(e == orig[done]);
            assert(rest@ =~= orig.skip(done + 1));
            assert(texts_of(orig.take(done + 1)).drop_last() =~= texts_of(orig.take(done)));
            assert(texts_of(orig.take(done + 1)).last() == (orig[done].0@, orig[done].1));
            let ts = key_texts_of(orig);
            assert forall|j: int| 0 <= j < done implies (#[trigger] hex_decode(ts[j])) is Some by {
                assert(ts[j] == orig[j].0@);
            }
            assert(ts[done] == orig[done].0@);
            assert(key_fits(ts[done]));
        }
        match decode_nibbles_key(e.0.as_str()) {
            Ok(key) => {
                let _ = map.insert(key, e.1);
            },
            Err(err) => {
                proof {
                    assert(hex_decode(orig[done].0@) is None);
                }
                return Err(err);
            },
        }
    }
    proof {
        assert(orig.take(orig.len() as int) =~= orig);
    }
    Ok(map)
}

} // verus!

//! Ordered sets of a fiction's chapters: entries kept in increasing order
//! of their keys, no key twice.

use vstd::prelude::*;
use vstd::utf8::encode_utf8;

use crate::royalroad::{FicChapter, RichSpineChapter, SpineChapter};
use crate::zip::order::{
    bytes_eq, bytes_lt, lemma_lex_antisymmetric, lemma_lex_order_chain, lemma_lex_total, lex_le, lex_lt,
};

verus! {

/// Something kept in an ordered set: it has a key, and keys are strictly
/// and totally ordered.
pub trait SetEntry: Sized {
    /// What entries are ordered and told apart by.
    type Key;

    /// This entry's key.
    spec fn key(&self) -> Self::Key;

    /// Whether key `a` comes before key `b`.
    spec fn key_lt(a: Self::Key, b: Self::Key) -> bool;

    /// The order of keys is a strict total order.
    proof fn lemma_key_order(a: Self::Key, b: Self::Key, c: Self::Key)
        ensures
            !Self::key_lt(a, a),
            Self::key_lt(a, b) || Self::key_lt(b, a) || a == b,
            Self::key_lt(a, b) && Self::key_lt(b, c) ==> Self::key_lt(a, c),
    ;

    /// Whether this entry comes before `other`.
    fn comes_before(&self, other: &Self) -> (result: bool)
        ensures
            result == Self::key_lt(self.key(), other.key()),
    ;

    /// Whether this entry and `other` have the same key.
    fn same_key(&self, other: &Self) -> (result: bool)
        ensures
            result == (self.key() == other.key()),
    ;
}

/// The keys of `entries`.
pub open spec fn keys_of<T: SetEntry>(entries: Seq<T>) -> Seq<T::Key> {
    entries.map_values(|e: T| e.key())
}

/// Whether `keys` increase strictly, so that no key occurs twice.
pub open spec fn increasing<T: SetEntry>(keys: Seq<T::Key>) -> bool {
    forall|i: int, j: int| 0 <= i < j < keys.len() ==> T::key_lt(#[trigger] keys[i], #[trigger] keys[j])
}

/// Adds `entry` to the ordered set `entries` unless an entry with its key is
/// there already, and tells whether it did: the position is the one that
/// keeps the keys increasing.
pub fn insert_entry<T: SetEntry>(entries: &mut Vec<T>, entry: T) -> (inserted: bool)
    requires
        increasing::<T>(keys_of(old(entries)@)),
    ensures
        increasing::<T>(keys_of(final(entries)@)),
        keys_of(final(entries)@).to_set() == keys_of(old(entries)@).to_set().insert(entry.key()),
        inserted == !keys_of(old(entries)@).contains(entry.key()),
        inserted ==> exists|k: int|
            0 <= k <= old(entries)@.len() && final(entries)@ == old(entries)@.insert(k, entry),
        !inserted ==> final(entries)@ == old(entries)@,
{
    let ghost before = keys_of(entries@);
    let ghost key = entry.key();
    let mut k: usize = 0;
    while k < entries.len() && entries[k].comes_before(&entry)
        invariant
            k <= entries@.len(),
            before == keys_of(entries@),
            key == entry.key(),
            increasing::<T>(before),
            forall|j: int| 0 <= j < k ==> T::key_lt(#[trigger] before[j], key),
        decreases entries@.len() - k,
    {
        assert(before[k as int] == entries@[k as int].key());
        k = k + 1;
    }
    if k < entries.len() && entries[k].same_key(&entry) {
        proof {
            assert(before[k as int] == key);
            assert(before.to_set().insert(key) =~= before.to_set()) by {
                assert(before.contains(before[k as int]));
            }
        }
        return false;
    }
    proof {
        if k < before.len() {
            assert(before[k as int] == entries@[k as int].key());
            T::lemma_key_order(before[k as int], key, key);
            assert forall|j: int| k <= j < before.len() implies T::key_lt(key, #[trigger] before[j]) by {
                if j > k {
                    T::lemma_key_order(key, before[k as int], before[j]);
                }
            }
        }
        assert(!before.contains(key)) by {
            if before.contains(key) {
                let j = choose|j: int| 0 <= j < before.len() && before[j] == key;
                T::lemma_key_order(key, key, key);
            }
        }
    }
    let ghost old_entries = entries@;
    entries.insert(k, entry);
    proof {
        let after = keys_of(entries@);
        assert(after =~= before.insert(k as int, key));
        assert forall|i: int, j: int| 0 <= i < j < after.len() implies T::key_lt(
            #[trigger] after[i],
            #[trigger] after[j],
        ) by {
            if j < k {
            } else if i < k && j == k {
            } else if i < k {
                assert(T::key_lt(before[i], key));
                T::lemma_key_order(before[i], key, before[j - 1]);
            } else if i == k {
            } else {
                assert(T::key_lt(before[i - 1], before[j - 1]));
            }
        }
        assert forall|x: T::Key| after.to_set().contains(x) <==> before.to_set().insert(key).contains(x) by {
            if after.contains(x) {
                let i = choose|i: int| 0 <= i < after.len() && after[i] == x;
                if i < k {
                    assert(before[i] == x);
                } else if i > k {
                    assert(before[i - 1] == x);
                }
            }
            if before.contains(x) {
                let i = choose|i: int| 0 <= i < before.len() && before[i] == x;
                if i < k {
                    assert(after[i] == x);
                } else {
                    assert(after[i + 1] == x);
                }
            }
            if x == key {
                assert(after[k as int] == x);
            }
        }
        assert(after.to_set() =~= before.to_set().insert(key));
        assert(entries@ == old_entries.insert(k as int, entry));
    }
    true
}

fn name_bytes(s: &String) -> (bytes: &[u8])
    ensures
        bytes@ == encode_utf8(s@),
{
    s.as_str().as_bytes()
}

/// The UTF-8 bytes of `s`.
pub open spec fn utf8(s: String) -> Seq<u8> {
    encode_utf8(s@)
}

/// Byte strings are strictly and totally ordered.
proof fn lemma_bytes_order(a: Seq<u8>, b: Seq<u8>, c: Seq<u8>)
    ensures
        !lex_lt(a, a),
        lex_lt(a, b) || lex_lt(b, a) || a == b,
        lex_lt(a, b) && lex_lt(b, c) ==> lex_lt(a, c),
{
    lemma_lex_total(a, b);
    if lex_le(a, b) && lex_le(b, a) {
        lemma_lex_antisymmetric(a, b);
    }
    if lex_lt(a, b) && lex_lt(b, c) {
        lemma_lex_order_chain(a, b, c);
    }
}

impl SetEntry for SpineChapter {
    /// The chapter number, the cache name, the time, and the title.
    type Key = (int, Seq<u8>, int, Seq<u8>);

    open spec fn key(&self) -> Self::Key {
        (self.id as int, utf8(self.id10), self.timestamp as int, utf8(self.title))
    }

    open spec fn key_lt(a: Self::Key, b: Self::Key) -> bool {
        ||| a.0 < b.0
        ||| a.0 == b.0 && lex_lt(a.1, b.1)
        ||| a.0 == b.0 && a.1 == b.1 && a.2 < b.2
        ||| a.0 == b.0 && a.1 == b.1 && a.2 == b.2 && lex_lt(a.3, b.3)
    }

    proof fn lemma_key_order(a: Self::Key, b: Self::Key, c: Self::Key) {
        lemma_bytes_order(a.1, b.1, c.1);
        lemma_bytes_order(a.3, b.3, c.3);
    }

    fn comes_before(&self, other: &Self) -> (result: bool) {
        if self.id != other.id {
            return self.id < other.id;
        }
        let (a, b) = (name_bytes(&self.id10), name_bytes(&other.id10));
        if !bytes_eq(a, b) {
            return bytes_lt(a, b);
        }
        if self.timestamp != other.timestamp {
            return self.timestamp < other.timestamp;
        }
        bytes_lt(name_bytes(&self.title), name_bytes(&other.title))
    }

    fn same_key(&self, other: &Self) -> (result: bool) {
        self.id == other.id && bytes_eq(name_bytes(&self.id10), name_bytes(&other.id10)) && self.timestamp
            == other.timestamp && bytes_eq(name_bytes(&self.title), name_bytes(&other.title))
    }
}

impl SetEntry for FicChapter {
    /// The chapter number, the cache name, the time, the title, and the HTML.
    type Key = (int, Seq<u8>, int, Seq<u8>, Seq<u8>);

    open spec fn key(&self) -> Self::Key {
        (self.id as int, utf8(self.id10), self.timestamp as int, utf8(self.title), utf8(self.html))
    }

    open spec fn key_lt(a: Self::Key, b: Self::Key) -> bool {
        ||| a.0 < b.0
        ||| a.0 == b.0 && lex_lt(a.1, b.1)
        ||| a.0 == b.0 && a.1 == b.1 && a.2 < b.2
        ||| a.0 == b.0 && a.1 == b.1 && a.2 == b.2 && lex_lt(a.3, b.3)
        ||| a.0 == b.0 && a.1 == b.1 && a.2 == b.2 && a.3 == b.3 && lex_lt(a.4, b.4)
    }

    proof fn lemma_key_order(a: Self::Key, b: Self::Key, c: Self::Key) {
        lemma_bytes_order(a.1, b.1, c.1);
        lemma_bytes_order(a.3, b.3, c.3);
        lemma_bytes_order(a.4, b.4, c.4);
    }

    fn comes_before(&self, other: &Self) -> (result: bool) {
        if self.id != other.id {
            return self.id < other.id;
        }
        let (a, b) = (name_bytes(&self.id10), name_bytes(&other.id10));
        if !bytes_eq(a, b) {
            return bytes_lt(a, b);
        }
        if self.timestamp != other.timestamp {
            return self.timestamp < other.timestamp;
        }
        let (a, b) = (name_bytes(&self.title), name_bytes(&other.title));
        if !bytes_eq(a, b) {
            return bytes_lt(a, b);
        }
        bytes_lt(name_bytes(&self.html), name_bytes(&other.html))
    }

    fn same_key(&self, other: &Self) -> (result: bool) {
        self.id == other.id && bytes_eq(name_bytes(&self.id10), name_bytes(&other.id10)) && self.timestamp
            == other.timestamp && bytes_eq(name_bytes(&self.title), name_bytes(&other.title)) && bytes_eq(
            name_bytes(&self.html),
            name_bytes(&other.html),
        )
    }
}

impl SetEntry for RichSpineChapter {
    /// The cache name, the time, the title, the length, and the start.
    type Key = (Seq<u8>, int, Seq<u8>, int, Seq<u8>);

    open spec fn key(&self) -> Self::Key {
        (utf8(self.id10), self.timestamp as int, utf8(self.title), self.length as int, utf8(self.starts_with))
    }

    open spec fn key_lt(a: Self::Key, b: Self::Key) -> bool {
        ||| lex_lt(a.0, b.0)
        ||| a.0 == b.0 && a.1 < b.1
        ||| a.0 == b.0 && a.1 == b.1 && lex_lt(a.2, b.2)
        ||| a.0 == b.0 && a.1 == b.1 && a.2 == b.2 && a.3 < b.3
        ||| a.0 == b.0 && a.1 == b.1 && a.2 == b.2 && a.3 == b.3 && lex_lt(a.4, b.4)
    }

    proof fn lemma_key_order(a: Self::Key, b: Self::Key, c: Self::Key) {
        lemma_bytes_order(a.0, b.0, c.0);
        lemma_bytes_order(a.2, b.2, c.2);
        lemma_bytes_order(a.4, b.4, c.4);
    }

    fn comes_before(&self, other: &Self) -> (result: bool) {
        let (a, b) = (name_bytes(&self.id10), name_bytes(&other.id10));
        if !bytes_eq(a, b) {
            return bytes_lt(a, b);
        }
        if self.timestamp != other.timestamp {
            return self.timestamp < other.timestamp;
        }
        let (a, b) = (name_bytes(&self.title), name_bytes(&other.title));
        if !bytes_eq(a, b) {
            return bytes_lt(a, b);
        }
        if self.length != other.length {
            return self.length < other.length;
        }
        bytes_lt(name_bytes(&self.starts_with), name_bytes(&other.starts_with))
    }

    fn same_key(&self, other: &Self) -> (result: bool) {
        bytes_eq(name_bytes(&self.id10), name_bytes(&other.id10)) && self.timestamp == other.timestamp
            && bytes_eq(name_bytes(&self.title), name_bytes(&other.title)) && self.length == other.length
            && bytes_eq(name_bytes(&self.starts_with), name_bytes(&other.starts_with))
    }
}

} // verus!

use vanity_nbt::snbt::Value as SnbtValue;
use vanity_nbt::snbt::Value::{
    Byte, Bytearray, Compound, Double, Float, Int, IntArray, List, Long, LongArray, Short,
    String as Text,
};
use vanity_nbt::indexmap::IndexMap;
use vstd::prelude::*;

verus! {

/// An SNBT value, as the datapack writes it into the log.
///
/// Floating-point values are held as their IEEE-754 bit patterns
/// (`f32::to_bits` and `f64::to_bits`), so that a value read from the log is
/// carried through unchanged, bit for bit.
#[derive(Debug, PartialEq)]
pub enum Nbt {
    Byte(i8),
    Short(i16),
    Int(i32),
    Long(i64),
    /// An `f32`, by its bit pattern.
    Float(u32),
    /// An `f64`, by its bit pattern.
    Double(u64),
    String(String),
    List(Vec<Nbt>),
    Compound(NbtCompound),
    Bytearray(Vec<i8>),
    IntArray(Vec<i32>),
    LongArray(Vec<i64>),
}

/// An SNBT compound: an `IndexMap` from keys to values, in insertion order
/// with each key once, as `vanity_nbt` holds a compound. The map is not read
/// here: `compound_entries` names what it holds.
#[verifier::external_body]
#[derive(Debug, PartialEq)]
pub struct NbtCompound {
    map: IndexMap<String, Nbt>,
}

/// The entries a compound's map holds, in its order.
pub uninterp spec fn compound_entries(c: NbtCompound) -> Seq<(String, Nbt)>;

/// No two entries share a key.
pub open spec fn keys_distinct(e: Seq<(String, Nbt)>) -> bool {
    forall|i: int, j: int|
        0 <= i < e.len() && 0 <= j < e.len() && i != j ==> #[trigger] e[i].0@ != #[trigger] e[j].0@
}

/// `i` is the first entry whose key is `key`.
pub open spec fn is_first_key_index(e: Seq<(String, Nbt)>, key: Seq<char>, i: int) -> bool {
    &&& 0 <= i < e.len()
    &&& e[i].0@ == key
    &&& forall|j: int| 0 <= j < i ==> #[trigger] e[j].0@ != key
}

/// The position of `key` among the entries, or -1 when it is absent.
pub open spec fn key_index(e: Seq<(String, Nbt)>, key: Seq<char>) -> int {
    if exists|i: int| is_first_key_index(e, key, i) {
        choose|i: int| is_first_key_index(e, key, i)
    } else {
        -1
    }
}

/// The entries hold `key`.
pub open spec fn has_key(e: Seq<(String, Nbt)>, key: Seq<char>) -> bool {
    exists|i: int| 0 <= i < e.len() && #[trigger] e[i].0@ == key
}

/// What removing `key` gives: its value, if present, and the entries left,
/// where the last entry takes the place of the removed one.
pub open spec fn spec_swap_remove(e: Seq<(String, Nbt)>, key: Seq<char>) -> (Option<Nbt>, Seq<(String, Nbt)>) {
    let i = key_index(e, key);
    if i < 0 {
        (None, e)
    } else {
        (Some(e[i].1), e.update(i, e.last()).drop_last())
    }
}

/// What inserting `key` with `value` leaves: an entry with that key keeps its
/// place and takes the new value; a new key goes last.
pub open spec fn spec_insert(e: Seq<(String, Nbt)>, key: String, value: Nbt) -> Seq<(String, Nbt)> {
    let i = key_index(e, key@);
    if i < 0 {
        e.push((key, value))
    } else {
        e.update(i, (e[i].0, value))
    }
}

/// The entries that inserting each of `e` in turn into an empty compound
/// leaves.
pub open spec fn spec_insert_all(e: Seq<(String, Nbt)>) -> Seq<(String, Nbt)>
    decreases e.len(),
{
    if e.len() == 0 {
        Seq::empty()
    } else {
        spec_insert(spec_insert_all(e.drop_last()), e.last().0, e.last().1)
    }
}

/// The value stored under `key`, if any.
pub open spec fn spec_get(e: Seq<(String, Nbt)>, key: Seq<char>) -> Option<Nbt> {
    let i = key_index(e, key);
    if i < 0 {
        None
    } else {
        Some(e[i].1)
    }
}

/// A key is absent exactly when no first index for it exists.
pub proof fn lemma_key_index_absent(e: Seq<(String, Nbt)>, key: Seq<char>)
    ensures
        key_index(e, key) < 0 <==> !has_key(e, key),
        key_index(e, key) >= 0 ==> is_first_key_index(e, key, key_index(e, key)),
{
    if has_key(e, key) {
        let k = choose|k: int| 0 <= k < e.len() && #[trigger] e[k].0@ == key;
        lemma_first_index_exists(e, key, k);
    }
}

proof fn lemma_first_index_exists(e: Seq<(String, Nbt)>, key: Seq<char>, k: int)
    requires
        0 <= k < e.len(),
        e[k].0@ == key,
    ensures
        exists|i: int| is_first_key_index(e, key, i),
    decreases k,
{
    if exists|j: int| 0 <= j < k && #[trigger] e[j].0@ == key {
        let j = choose|j: int| 0 <= j < k && #[trigger] e[j].0@ == key;
        lemma_first_index_exists(e, key, j);
    } else {
        assert(is_first_key_index(e, key, k));
    }
}

/// The first index is unique, so it is what `key_index` picks.
proof fn lemma_first_index_unique(e: Seq<(String, Nbt)>, key: Seq<char>, i: int)
    requires
        is_first_key_index(e, key, i),
    ensures
        key_index(e, key) == i,
{
    let c = choose|c: int| is_first_key_index(e, key, c);
    assert(is_first_key_index(e, key, c));
    if c < i {
        assert(e[c].0@ != key);
    } else if i < c {
        assert(e[i].0@ != key);
    }
}

/// With distinct keys, an entry with key `key` is where `key_index` points.
pub proof fn lemma_key_index_distinct(e: Seq<(String, Nbt)>, key: Seq<char>, p: int)
    requires
        keys_distinct(e),
        0 <= p < e.len(),
        e[p].0@ == key,
    ensures
        key_index(e, key) == p,
{
    assert forall|j: int| 0 <= j < p implies #[trigger] e[j].0@ != key by {
        assert(e[j].0@ != e[p].0@);
    }
    lemma_first_index_unique(e, key, p);
}

/// Removing a key keeps the other keys distinct.
pub proof fn law_swap_remove_keeps_keys_distinct(e: Seq<(String, Nbt)>, key: Seq<char>)
    requires
        keys_distinct(e),
    ensures
        keys_distinct(spec_swap_remove(e, key).1),
{
    lemma_key_index_absent(e, key);
    let i = key_index(e, key);
    if i >= 0 {
        let e2 = e.update(i, e.last()).drop_last();
        assert forall|a: int, b: int|
            0 <= a < e2.len() && 0 <= b < e2.len() && a != b implies #[trigger] e2[a].0@
            != #[trigger] e2[b].0@ by {
            let ia = if a == i { e.len() - 1 } else { a };
            let ib = if b == i { e.len() - 1 } else { b };
            assert(e2[a] == e[ia]);
            assert(e2[b] == e[ib]);
        }
    }
}

/// Removing a key gives back what `get` gives for it, and leaves it absent.
pub proof fn law_swap_remove_takes_the_key(e: Seq<(String, Nbt)>, key: Seq<char>)
    requires
        keys_distinct(e),
    ensures
        spec_swap_remove(e, key).0 == spec_get(e, key),
        spec_get(spec_swap_remove(e, key).1, key) is None,
        spec_swap_remove(e, key).1.len() == if has_key(e, key) { e.len() - 1 } else { e.len() as int },
{
    lemma_key_index_absent(e, key);
    let e2 = spec_swap_remove(e, key).1;
    let i = key_index(e, key);
    if i >= 0 {
        assert(!has_key(e2, key)) by {
            if has_key(e2, key) {
                let q = choose|q: int| 0 <= q < e2.len() && #[trigger] e2[q].0@ == key;
                let iq = if q == i { e.len() - 1 } else { q };
                assert(e2[q] == e[iq]);
                assert(e[iq].0@ != e[i].0@);
            }
        }
    }
    lemma_key_index_absent(e2, key);
}

/// Removing one key leaves what every other key holds.
pub proof fn law_swap_remove_keeps_other_keys(e: Seq<(String, Nbt)>, key: Seq<char>, other: Seq<char>)
    requires
        keys_distinct(e),
        key != other,
    ensures
        spec_get(spec_swap_remove(e, key).1, other) == spec_get(e, other),
{
    lemma_key_index_absent(e, key);
    lemma_key_index_absent(e, other);
    law_swap_remove_keeps_keys_distinct(e, key);
    let e2 = spec_swap_remove(e, key).1;
    let i = key_index(e, key);
    if i >= 0 {
        let j = key_index(e, other);
        if j >= 0 {
            assert(j != i);
            let p = if j == e.len() - 1 { i } else { j };
            assert(e2[p] == e[j]);
            lemma_key_index_distinct(e2, other, p);
        } else {
            assert(!has_key(e2, other)) by {
                if has_key(e2, other) {
                    let q = choose|q: int| 0 <= q < e2.len() && #[trigger] e2[q].0@ == other;
                    let iq = if q == i { e.len() - 1 } else { q };
                    assert(e2[q] == e[iq]);
                }
            }
            lemma_key_index_absent(e2, other);
        }
    }
}

/// After an insert the key holds the new value, every other key holds what
/// it held, and the keys stay distinct.
pub proof fn law_insert_then_get(e: Seq<(String, Nbt)>, key: String, value: Nbt, other: Seq<char>)
    requires
        keys_distinct(e),
    ensures
        keys_distinct(spec_insert(e, key, value)),
        spec_get(spec_insert(e, key, value), key@) == Some(value),
        other != key@ ==> spec_get(spec_insert(e, key, value), other) == spec_get(e, other),
{
    lemma_key_index_absent(e, key@);
    lemma_key_index_absent(e, other);
    let e2 = spec_insert(e, key, value);
    let i = key_index(e, key@);
    if i >= 0 {
        assert forall|a: int, b: int|
            0 <= a < e2.len() && 0 <= b < e2.len() && a != b implies #[trigger] e2[a].0@
            != #[trigger] e2[b].0@ by {
            assert(e2[a].0 == e[a].0);
            assert(e2[b].0 == e[b].0);
        }
        lemma_key_index_distinct(e2, key@, i);
        if other != key@ {
            let j = key_index(e, other);
            if j >= 0 {
                lemma_key_index_distinct(e2, other, j);
            } else {
                assert(!has_key(e2, other)) by {
                    if has_key(e2, other) {
                        let q = choose|q: int| 0 <= q < e2.len() && #[trigger] e2[q].0@ == other;
                        assert(e2[q].0 == e[q].0);
                    }
                }
                lemma_key_index_absent(e2, other);
            }
        }
    } else {
        assert forall|a: int, b: int|
            0 <= a < e2.len() && 0 <= b < e2.len() && a != b implies #[trigger] e2[a].0@
            != #[trigger] e2[b].0@ by {
            if a == e.len() {
                assert(e[b] == e2[b]);
            } else if b == e.len() {
                assert(e[a] == e2[a]);
            }
        }
        lemma_key_index_distinct(e2, key@, e.len() as int);
        if other != key@ {
            let j = key_index(e, other);
            if j >= 0 {
                assert(e2[j] == e[j]);
                lemma_key_index_distinct(e2, other, j);
            } else {
                assert(!has_key(e2, other)) by {
                    if has_key(e2, other) {
                        let q = choose|q: int| 0 <= q < e2.len() && #[trigger] e2[q].0@ == other;
                        if q < e.len() {
                            assert(e2[q] == e[q]);
                        }
                    }
                }
                lemma_key_index_absent(e2, other);
            }
        }
    }
}

impl View for NbtCompound {
    type V = Seq<(String, Nbt)>;

    open spec fn view(&self) -> Seq<(String, Nbt)> {
        compound_entries(*self)
    }
}

impl NbtCompound {
    /// An empty compound (`IndexMap::new`).
    #[verifier::external_body]
    pub fn new() -> (c: Self)
        ensures
            compound_entries(c) == Seq::<(String, Nbt)>::empty(),
    {
        NbtCompound { map: IndexMap::new() }
    }

    /// The number of entries (`IndexMap::len`).
    #[verifier::external_body]
    pub fn len(&self) -> (n: usize)
        ensures
            n == compound_entries(*self).len(),
    {
        self.map.len()
    }

    /// Whether the compound has no entries.
    pub fn is_empty(&self) -> (b: bool)
        ensures
            b == (self@.len() == 0),
    {
        self.len() == 0
    }

    /// The value under `key`, if any (`IndexMap::get`).
    #[verifier::external_body]
    pub fn get(&self, key: &str) -> (r: Option<&Nbt>)
        ensures
            match r {
                Some(v) => spec_get(compound_entries(*self), key@) == Some(*v),
                None => spec_get(compound_entries(*self), key@) is None,
            },
    {
        self.map.get(key)
    }

    /// Removes `key` and gives back its value (`IndexMap::swap_remove`): the
    /// last entry takes the removed entry's place, and an absent key leaves
    /// the compound unchanged. Keys stay distinct.
    #[verifier::external_body]
    pub fn swap_remove(&mut self, key: &str) -> (r: Option<Nbt>)
        ensures
            (r, compound_entries(*final(self))) == spec_swap_remove(compound_entries(*old(self)), key@),
            keys_distinct(compound_entries(*final(self))),
    {
        self.map.swap_remove(key)
    }

    /// Stores `value` under `key` and gives back the value it replaced
    /// (`IndexMap::insert`): an existing key keeps its place, a new key goes
    /// last. Keys stay distinct.
    #[verifier::external_body]
    pub fn insert(&mut self, key: String, value: Nbt) -> (r: Option<Nbt>)
        ensures
            r == spec_get(compound_entries(*old(self)), key@),
            compound_entries(*final(self)) == spec_insert(compound_entries(*old(self)), key, value),
            keys_distinct(compound_entries(*final(self))),
    {
        self.map.insert(key, value)
    }

    /// The compound that inserting the entries one after the other gives:
    /// a repeated key keeps its first place and takes its last value.
    pub fn from_entries(entries: Vec<(String, Nbt)>) -> (c: Self)
        ensures
            c@ == spec_insert_all(entries@),
            keys_distinct(c@),
    {
        let mut c = NbtCompound::new();
        let mut entries = entries;
        let ghost all = entries@;
        let n = entries.len();
        let mut i: usize = 0;
        while i < n
            invariant
                n == all.len(),
                i <= n,
                entries@ == all.skip(i as int),
                c@ == spec_insert_all(all.take(i as int)),
                keys_distinct(c@),
            decreases n - i,
        {
            let (k, v) = entries.remove(0);
            assert(all.take(i + 1).drop_last() =~= all.take(i as int));
            assert(all.skip(i + 1) =~= all.skip(i as int).drop_first());
            c.insert(k, v);
            i += 1;
        }
        assert(all.take(n as int) =~= all);
        c
    }

    /// The entries, in order, moved out of the map (`IndexMap::into_iter`).
    #[verifier::external_body]
    pub fn into_entries(self) -> (r: Vec<(String, Nbt)>)
        ensures
            r@ == compound_entries(self),
            keys_distinct(r@),
    {
        self.map.into_iter().collect()
    }

    /// The keys, in order (`IndexMap::keys`, each cloned).
    #[verifier::external_body]
    pub fn keys(&self) -> (r: Vec<String>)
        ensures
            r@.len() == compound_entries(*self).len(),
            forall|i: int| 0 <= i < r@.len() ==> #[trigger] r@[i]@ == compound_entries(*self)[i].0@,
    {
        self.map.keys().cloned().collect()
    }
}

/// A value of `vanity_nbt`'s own SNBT type: converted here, not read.
#[verifier::external_type_specification]
#[verifier::external_body]
pub struct ExSnbtValue(SnbtValue);

/// Converts a `vanity_nbt` value into this library's model, variant for
/// variant: floats keep their bits, and a compound's entries are moved, in
/// their order, into a map of converted values.
#[verifier::external_body]
pub(crate) fn value_from_snbt(v: SnbtValue) -> Nbt {
    match v {
        Byte(x) => Nbt::Byte(x),
        Short(x) => Nbt::Short(x),
        Int(x) => Nbt::Int(x),
        Long(x) => Nbt::Long(x),
        Float(x) => Nbt::Float(x.to_bits()),
        Double(x) => Nbt::Double(x.to_bits()),
        Text(x) => Nbt::String(x),
        List(x) => Nbt::List(x.into_iter().map(value_from_snbt).collect()),
        Compound(x) => Nbt::Compound(NbtCompound { map: x.into_iter().map(|(k, v)| (k, value_from_snbt(v))).collect() }),
        Bytearray(x) => Nbt::Bytearray(x),
        IntArray(x) => Nbt::IntArray(x),
        LongArray(x) => Nbt::LongArray(x)
    }
}

} // verus!

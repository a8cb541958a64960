//! An insertion-ordered table from text to values: what objects and scopes keep their entries in.
//!
//! The order and the key lookup are `indexmap`'s: an [`IndexMap`] from each key to its position,
//! beside the values in that order.

use vstd::prelude::*;
use std::sync::Arc;
use indexmap::IndexMap;

verus! {

/// `indexmap::IndexMap`: a hash map that keeps its insertion order.
#[verifier::external_type_specification]
#[verifier::external_body]
#[verifier::reject_recursive_types(K)]
#[verifier::reject_recursive_types(V)]
#[verifier::reject_recursive_types(S)]
pub struct ExIndexMap<K, V, S>(IndexMap<K, V, S>);

/// The entries of an index, in their order.
pub uninterp spec fn index_entries(index: IndexMap<Arc<str>, usize>) -> Seq<(Seq<char>, usize)>;

/// Whether some entry has the key `key`.
pub open spec fn has_key<V>(entries: Seq<(Seq<char>, V)>, key: Seq<char>) -> bool {
    exists|i: int| 0 <= i < entries.len() && (#[trigger] entries[i]).0 == key
}

/// An entry with the key `key`.
pub open spec fn at<V>(entries: Seq<(Seq<char>, V)>, key: Seq<char>) -> int {
    choose|i: int| 0 <= i < entries.len() && (#[trigger] entries[i]).0 == key
}

/// The value under `key`.
pub open spec fn value_of<V>(entries: Seq<(Seq<char>, V)>, key: Seq<char>) -> Option<V> {
    if has_key(entries, key) {
        Some(entries[at(entries, key)].1)
    } else {
        None
    }
}

/// The entries with `value` under `key`: in place when the key is there, else behind the rest.
pub open spec fn put<V>(entries: Seq<(Seq<char>, V)>, key: Seq<char>, value: V) -> Seq<(Seq<char>, V)> {
    if has_key(entries, key) {
        entries.update(at(entries, key), (key, value))
    } else {
        entries.push((key, value))
    }
}

/// No key occurs twice.
pub open spec fn distinct<V>(entries: Seq<(Seq<char>, V)>) -> bool {
    forall|i: int, j: int|
        0 <= i < entries.len() && 0 <= j < entries.len() && i != j ==> (#[trigger] entries[i]).0 != (
        #[trigger] entries[j]).0
}

/// `IndexMap::new`: an index with no entries.
#[verifier::external_body]
fn new_index() -> (r: IndexMap<Arc<str>, usize>)
    ensures
        index_entries(r) == Seq::<(Seq<char>, usize)>::empty(),
{
    IndexMap::new()
}

/// `IndexMap::get`: the value stored under `key`, if the key is there.
#[verifier::external_body]
fn index_get(index: &IndexMap<Arc<str>, usize>, key: &str) -> (r: Option<usize>)
    ensures
        r == value_of(index_entries(*index), key@),
{
    index.get(key).copied()
}

/// `IndexMap::insert`: a key that is there keeps its place and takes the new value; another key
/// goes behind the rest. The value it had is returned.
#[verifier::external_body]
fn index_insert(index: &mut IndexMap<Arc<str>, usize>, key: Arc<str>, value: usize) -> (r: Option<usize>)
    ensures
        index_entries(*final(index)) == put(index_entries(*old(index)), (*key)@, value),
        r == value_of(index_entries(*old(index)), (*key)@),
{
    index.insert(key, value)
}

/// `IndexMap::get_index`: the key of the entry at `place`, if there is one.
#[verifier::external_body]
fn index_key(index: &IndexMap<Arc<str>, usize>, place: usize) -> (r: Option<&Arc<str>>)
    ensures
        match r {
            Some(key) => place < index_entries(*index).len() && (**key)@ == index_entries(*index)[place as int].0,
            None => place >= index_entries(*index).len(),
        },
{
    index.get_index(place).map(|entry| entry.0)
}

/// `Arc::<str>::from`: shared text with the same characters.
#[verifier::external_body]
pub(crate) fn share(text: &str) -> (r: Arc<str>)
    ensures
        (*r)@ == text@,
{
    Arc::from(text)
}

/// An insertion-ordered table from text to `V`.
pub struct Table<V> {
    keys: IndexMap<Arc<str>, usize>,
    values: Vec<V>,
}

impl<V> View for Table<V> {
    type V = Seq<(Seq<char>, V)>;

    closed spec fn view(&self) -> Seq<(Seq<char>, V)> {
        Seq::new(self.values@.len(), |i: int| (index_entries(self.keys)[i].0, self.values@[i]))
    }
}

impl<V> Table<V> {
    #[verifier::type_invariant]
    spec fn inv(self) -> bool {
        &&& index_entries(self.keys).len() == self.values@.len()
        &&& forall|i: int| 0 <= i < self.values@.len() ==> (#[trigger] index_entries(self.keys)[i]).1 == i
        &&& distinct(index_entries(self.keys))
    }

    /// A table with no entries.
    pub fn new() -> (r: Self)
        ensures
            r@ == Seq::<(Seq<char>, V)>::empty(),
    {
        let r = Table { keys: new_index(), values: Vec::new() };
        assert(r@ =~= Seq::<(Seq<char>, V)>::empty());
        r
    }

    /// How many entries there are.
    pub fn len(&self) -> (r: usize)
        ensures
            r == self@.len(),
            distinct(self@),
    {
        proof {
            use_type_invariant(self);
        }
        self.values.len()
    }

    /// Where the key `key` is.
    pub fn find(&self, key: &str) -> (r: Option<usize>)
        ensures
            match r {
                Some(i) => i < self@.len() && self@[i as int].0 == key@ && has_key(self@, key@) && at(self@, key@) == i,
                None => !has_key(self@, key@),
            },
            distinct(self@),
    {
        proof {
            use_type_invariant(self);
        }
        let r = index_get(&self.keys, key);
        proof {
            let entries = index_entries(self.keys);
            assert(forall|i: int| 0 <= i < self@.len() ==> (#[trigger] self@[i]).0 == entries[i].0);
            if r is Some {
                let i = at(entries, key@);
                assert(entries[i].1 == i);
                assert(self@[i].0 == key@);
                let j = at(self@, key@);
                assert(entries[j].0 == key@);
            } else if has_key(self@, key@) {
                let j = at(self@, key@);
                assert(entries[j].0 == key@);
            }
        }
        r
    }

    /// The value under `key`.
    pub fn get(&self, key: &str) -> (r: Option<&V>)
        ensures
            match r {
                Some(v) => value_of(self@, key@) == Some(*v),
                None => value_of(self@, key@) is None,
            },
    {
        match self.find(key) {
            Some(i) => Some(self.value_at(i)),
            None => None,
        }
    }

    /// The key of the entry at `place`.
    pub fn key_at(&self, place: usize) -> (r: &Arc<str>)
        requires
            place < self@.len(),
        ensures
            (**r)@ == self@[place as int].0,
            distinct(self@),
    {
        proof {
            use_type_invariant(self);
        }
        index_key(&self.keys, place).unwrap()
    }

    /// The value of the entry at `place`.
    pub fn value_at(&self, place: usize) -> (r: &V)
        requires
            place < self@.len(),
        ensures
            *r == self@[place as int].1,
    {
        &self.values[place]
    }

    /// Put `value` under `key`: in place when the key is there, else behind the rest.
    pub fn insert(&mut self, key: Arc<str>, value: V)
        ensures
            final(self)@ == put(old(self)@, (*key)@, value),
    {
        proof {
            use_type_invariant(&*self);
        }
        let found = self.find(&key);
        let mut whole: Table<V> = Table::new();
        core::mem::swap(self, &mut whole);
        let ghost before = whole@;
        let ghost entries = index_entries(whole.keys);
        proof {
            use_type_invariant(&whole);
            assert(before.len() == entries.len());
            assert(forall|i: int| 0 <= i < before.len() ==> (#[trigger] before[i]).0 == entries[i].0);
        }
        let Table { mut keys, mut values } = whole;
        match found {
            Some(i) => {
                values[i] = value;
                let ghost after = Table { keys, values };
                proof {
                    assert(after@ =~= put(before, (*key)@, value));
                }
            },
            None => {
                let place: usize = values.len();
                proof {
                    if has_key(entries, (*key)@) {
                        let j = at(entries, (*key)@);
                        assert(before[j].0 == (*key)@);
                    }
                }
                let ghost name = (*key)@;
                index_insert(&mut keys, key, place);
                values.push(value);
                let ghost after = Table { keys, values };
                proof {
                    assert(index_entries(keys) == entries.push((name, place)));
                    assert(after@ =~= put(before, name, value));
                }
            },
        }
        *self = Table { keys, values };
    }
}

/// A table is larger than the values in it.
pub broadcast proof fn lemma_table_decreases<V>(table: Table<V>, i: int)
    requires
        0 <= i < table@.len(),
    ensures
        #[trigger] (decreases_to!(table => table@[i].1)),
{
    assert(table@[i].1 == table.values@[i]);
    assert(decreases_to!(table => table.values));
    assert(decreases_to!(table.values => table.values@));
    assert(decreases_to!(table.values@ => table.values@[i]));
}

/// Putting a key keeps keys distinct.
pub proof fn lemma_put_distinct<V>(entries: Seq<(Seq<char>, V)>, key: Seq<char>, value: V)
    requires
        distinct(entries),
    ensures
        distinct(put(entries, key, value)),
{
}

/// What was put is what is found: under its key the new value, under every other key what was
/// there before.
pub proof fn law_put_get<V>(entries: Seq<(Seq<char>, V)>, key: Seq<char>, value: V, other: Seq<char>)
    requires
        distinct(entries),
    ensures
        value_of(put(entries, key, value), key) == Some(value),
        other != key ==> value_of(put(entries, key, value), other) == value_of(entries, other),
{
    let after = put(entries, key, value);
    lemma_put_distinct(entries, key, value);
    if has_key(entries, key) {
        assert(after[at(entries, key)].0 == key);
    } else {
        assert(after[entries.len() as int].0 == key);
    }
    assert(has_key(after, key));
    let i = at(after, key);
    if other != key {
        if has_key(entries, other) {
            let j = at(entries, other);
            assert(after[j].0 == other);
            assert(has_key(after, other));
            let l = at(after, other);
            assert(after[l].0 == other && after[j].0 == other);
        } else if has_key(after, other) {
            let l = at(after, other);
            assert(after[l].0 == other);
            if l < entries.len() {
                assert(entries[l].0 == other);
            }
        }
    }
}

/// Putting a key adds that key.
pub proof fn lemma_put_keys<V>(entries: Seq<(Seq<char>, V)>, key: Seq<char>, value: V)
    ensures
        forall|name: Seq<char>| #[trigger] has_key(put(entries, key, value), name) <==> has_key(entries, name) || name == key,
{
    let after = put(entries, key, value);
    assert forall|name: Seq<char>| #[trigger] has_key(after, name) <==> has_key(entries, name) || name == key by {
        if has_key(entries, name) {
            let i = choose|i: int| 0 <= i < entries.len() && (#[trigger] entries[i]).0 == name;
            assert(after[i].0 == name);
        }
        if name == key {
            if has_key(entries, key) {
                let i = at(entries, key);
                assert(after[i].0 == key);
            } else {
                assert(after[entries.len() as int].0 == key);
            }
        }
        if has_key(after, name) && name != key {
            let i = choose|i: int| 0 <= i < after.len() && (#[trigger] after[i]).0 == name;
            assert(i < entries.len());
            assert(entries[i].0 == name);
        }
    }
}

/// Putting something in keeps the order: under a key that was there the value changes in its place, and a new key comes
/// behind all others.
pub proof fn law_put_order<V>(entries: Seq<(Seq<char>, V)>, key: Seq<char>, value: V, i: int)
    requires
        0 <= i < entries.len(),
    ensures
        put(entries, key, value)[i].0 == entries[i].0,
        entries[i].0 != key ==> put(entries, key, value)[i] == entries[i],
        has_key(entries, key) ==> put(entries, key, value).len() == entries.len(),
        !has_key(entries, key) ==> put(entries, key, value) == entries.push((key, value)),
{
}

} // verus!

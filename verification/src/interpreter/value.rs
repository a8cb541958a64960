//! Script results: values detached from the execution that made them.
//!
//! A [`Value`] is owned and immutable, refers to no execution, and has no identity: collections
//! that an execution reached twice share their storage, which nobody can tell.

use vstd::prelude::*;
use std::sync::Arc;
use crate::number::Number;
use crate::number::is_zero_bits;
use crate::table::Table;
use crate::table::at;
use crate::table::distinct;
use crate::table::has_key;
use crate::table::lemma_put_distinct;
use crate::table::lemma_table_decreases;
use crate::table::put;
use crate::table::value_of;

verus! {

/// One detached value. There is no function among them: a function cannot leave its execution.
#[non_exhaustive]
pub enum Value {
    Null,
    Bool(bool),
    /// Always finite.
    Number(Number),
    String(Arc<str>),
    Array(Array),
    Object(Object),
}

/// A detached, immutable array.
pub struct Array {
    items: Arc<Vec<Value>>,
}

/// A detached, immutable, insertion-ordered object.
pub struct Object {
    entries: Arc<Table<Value>>,
}

/// What a [`Value`] is: a tree.
#[verifier::ext_equal]
pub ghost enum ValueView {
    Null,
    Bool(bool),
    Number(u64),
    String(Seq<char>),
    Array(Seq<ValueView>),
    Object(Seq<(Seq<char>, ValueView)>),
}

spec fn tree(value: Value) -> ValueView
    decreases value,
{
    match value {
        Value::Null => ValueView::Null,
        Value::Bool(b) => ValueView::Bool(b),
        Value::Number(n) => ValueView::Number(n.bits()),
        Value::String(s) => ValueView::String((*s)@),
        Value::Array(a) => ValueView::Array(
            Seq::new(
                a.items@.len(),
                |i: int|
                    if 0 <= i < a.items@.len() {
                        tree(a.items@[i])
                    } else {
                        ValueView::Null
                    },
            ),
        ),
        Value::Object(o) => {
            let table: Table<Value> = *o.entries;
            ValueView::Object(
                Seq::new(
                    table@.len(),
                    |i: int|
                        if 0 <= i < table@.len() {
                            proof {
                                lemma_table_decreases(table, i);
                            }
                            (table@[i].0, tree(table@[i].1))
                        } else {
                            (Seq::empty(), ValueView::Null)
                        },
                ),
            )
        },
    }
}

proof fn lemma_tree(value: Value)
    ensures
        tree(value) == value@,
{
    match value {
        Value::Array(a) => {
            assert(tree(value)->Array_0 =~= a@);
        },
        Value::Object(o) => {
            assert(tree(value)->Object_0 =~= o@);
        },
        _ => {},
    }
}

impl View for Value {
    type V = ValueView;

    open spec fn view(&self) -> ValueView {
        match *self {
            Value::Null => ValueView::Null,
            Value::Bool(b) => ValueView::Bool(b),
            Value::Number(n) => ValueView::Number(n.bits()),
            Value::String(s) => ValueView::String((*s)@),
            Value::Array(a) => ValueView::Array(a@),
            Value::Object(o) => ValueView::Object(o@),
        }
    }
}

impl View for Array {
    type V = Seq<ValueView>;

    closed spec fn view(&self) -> Seq<ValueView> {
        Seq::new(self.items@.len(), |i: int| tree(self.items@[i]))
    }
}

impl View for Object {
    type V = Seq<(Seq<char>, ValueView)>;

    closed spec fn view(&self) -> Seq<(Seq<char>, ValueView)> {
        Seq::new((*self.entries)@.len(), |i: int| ((*self.entries)@[i].0, tree((*self.entries)@[i].1)))
    }
}

/// The type name that diagnostics print.
pub open spec fn value_type_name(value: ValueView) -> Seq<char> {
    match value {
        ValueView::Null => "null"@,
        ValueView::Bool(_) => "bool"@,
        ValueView::Number(_) => "number"@,
        ValueView::String(_) => "string"@,
        ValueView::Array(_) => "array"@,
        ValueView::Object(_) => "object"@,
    }
}

/// Truthiness: `null`, `false`, zero, the empty text and empty collections are falsy.
pub open spec fn value_truthy(value: ValueView) -> bool {
    match value {
        ValueView::Null => false,
        ValueView::Bool(b) => b,
        ValueView::Number(n) => !is_zero_bits(n),
        ValueView::String(s) => s.len() > 0,
        ValueView::Array(items) => items.len() > 0,
        ValueView::Object(entries) => entries.len() > 0,
    }
}

impl Clone for Value {
    fn clone(&self) -> (r: Self)
        ensures
            r == *self,
    {
        match self {
            Value::Null => Value::Null,
            Value::Bool(b) => Value::Bool(*b),
            Value::Number(n) => Value::Number(*n),
            Value::String(s) => Value::String(s.clone()),
            Value::Array(a) => Value::Array(a.clone()),
            Value::Object(o) => Value::Object(o.clone()),
        }
    }
}

impl Clone for Array {
    fn clone(&self) -> (r: Self)
        ensures
            r == *self,
    {
        Array { items: self.items.clone() }
    }
}

impl Clone for Object {
    fn clone(&self) -> (r: Self)
        ensures
            r == *self,
    {
        Object { entries: self.entries.clone() }
    }
}

impl Value {
    /// The type name that diagnostics print.
    pub fn kind_name(&self) -> (r: &'static str)
        ensures
            r@ == value_type_name(self@),
    {
        match self {
            Value::Null => "null",
            Value::Bool(_) => "bool",
            Value::Number(_) => "number",
            Value::String(_) => "string",
            Value::Array(_) => "array",
            Value::Object(_) => "object",
        }
    }

    /// Truthiness: `null`, `false`, zero, the empty text and empty collections are falsy.
    pub fn is_truthy(&self) -> (r: bool)
        ensures
            r == value_truthy(self@),
    {
        match self {
            Value::Null => false,
            Value::Bool(b) => *b,
            Value::Number(n) => !n.is_zero(),
            Value::String(s) => !s.is_empty(),
            Value::Array(a) => !a.is_empty(),
            Value::Object(o) => !o.is_empty(),
        }
    }

    /// Whether this is `null`.
    pub fn is_null(&self) -> (r: bool)
        ensures
            r == (self@ is Null),
    {
        matches!(self, Value::Null)
    }

    /// The truth value, of a truth value.
    pub fn as_bool(&self) -> (r: Option<bool>)
        ensures
            r == (match self@ {
                ValueView::Bool(b) => Some(b),
                _ => None,
            }),
    {
        match self {
            Value::Bool(b) => Some(*b),
            _ => None,
        }
    }

    /// The number, of a number.
    pub fn as_number(&self) -> (r: Option<Number>)
        ensures
            match (r, self@) {
                (Some(n), ValueView::Number(bits)) => n.bits() == bits,
                (None, ValueView::Number(_)) => false,
                (Some(_), _) => false,
                (None, _) => true,
            },
    {
        match self {
            Value::Number(n) => Some(*n),
            _ => None,
        }
    }

    /// The text, of a string.
    pub fn as_str(&self) -> (r: Option<&str>)
        ensures
            match (r, self@) {
                (Some(s), ValueView::String(text)) => s@ == text,
                (None, ValueView::String(_)) => false,
                (Some(_), _) => false,
                (None, _) => true,
            },
    {
        match self {
            Value::String(s) => Some(s),
            _ => None,
        }
    }

    /// The array, of an array.
    pub fn as_array(&self) -> (r: Option<&Array>)
        ensures
            match (r, self@) {
                (Some(a), ValueView::Array(items)) => a@ == items,
                (None, ValueView::Array(_)) => false,
                (Some(_), _) => false,
                (None, _) => true,
            },
    {
        match self {
            Value::Array(a) => Some(a),
            _ => None,
        }
    }

    /// The object, of an object.
    pub fn as_object(&self) -> (r: Option<&Object>)
        ensures
            match (r, self@) {
                (Some(o), ValueView::Object(entries)) => o@ == entries,
                (None, ValueView::Object(_)) => false,
                (Some(_), _) => false,
                (None, _) => true,
            },
    {
        match self {
            Value::Object(o) => Some(o),
            _ => None,
        }
    }
}

/// The trees of a list of values.
pub open spec fn trees(values: Seq<Value>) -> Seq<ValueView> {
    Seq::new(values.len(), |i: int| values[i]@)
}

impl Array {
    /// An array of these elements, in order.
    pub fn from_values(items: Vec<Value>) -> (r: Self)
        ensures
            r@ == trees(items@),
    {
        proof {
            assert forall|i: int| 0 <= i < items@.len() implies tree(#[trigger] items@[i]) == items@[i]@ by {
                lemma_tree(items@[i]);
            }
        }
        let r = Array { items: Arc::new(items) };
        assert(r@ =~= trees(items@));
        r
    }

    /// How many elements there are.
    pub fn len(&self) -> (r: usize)
        ensures
            r == self@.len(),
    {
        self.items.len()
    }

    /// Whether there is no element.
    pub fn is_empty(&self) -> (r: bool)
        ensures
            r == (self@.len() == 0),
    {
        self.items.len() == 0
    }

    /// The element at `index`.
    pub fn get(&self, index: usize) -> (r: Option<&Value>)
        ensures
            match r {
                Some(v) => index < self@.len() && v@ == self@[index as int],
                None => index >= self@.len(),
            },
    {
        if index < self.items.len() {
            proof {
                lemma_tree(self.items@[index as int]);
            }
            Some(&self.items[index])
        } else {
            None
        }
    }

    /// References to the elements, in order.
    pub fn iter(&self) -> (r: Vec<&Value>)
        ensures
            r@.len() == self@.len(),
            forall|i: int| 0 <= i < r@.len() ==> (#[trigger] r@[i])@ == self@[i],
    {
        let mut out: Vec<&Value> = Vec::new();
        let mut i: usize = 0;
        while i < self.items.len()
            invariant
                i <= self.items@.len(),
                out@.len() == i,
                forall|k: int| 0 <= k < i ==> (#[trigger] out@[k])@ == self@[k],
            decreases self.items.len() - i,
        {
            proof {
                lemma_tree(self.items@[i as int]);
            }
            out.push(&self.items[i]);
            i = i + 1;
        }
        out
    }

    /// The elements, in order.
    pub fn to_vec(&self) -> (r: Vec<Value>)
        ensures
            trees(r@) == self@,
    {
        let mut out: Vec<Value> = Vec::new();
        let mut i: usize = 0;
        while i < self.items.len()
            invariant
                i <= self.items@.len(),
                out@ == self.items@.take(i as int),
            decreases self.items.len() - i,
        {
            out.push(self.items[i].clone());
            i = i + 1;
            proof {
                assert(out@ =~= self.items@.take(i as int));
            }
        }
        proof {
            assert(out@ =~= self.items@);
            assert forall|i: int| 0 <= i < out@.len() implies tree(#[trigger] out@[i]) == out@[i]@ by {
                lemma_tree(out@[i]);
            }
            assert(trees(out@) =~= self@);
        }
        out
    }
}

/// The trees of a list of entries.
pub open spec fn entry_trees(entries: Seq<(Seq<char>, Value)>) -> Seq<(Seq<char>, ValueView)> {
    Seq::new(entries.len(), |i: int| (entries[i].0, entries[i].1@))
}

/// The entries of a list of pairs, a repeated key keeping its first place and its last value.
pub open spec fn gathered(pairs: Seq<(Seq<char>, ValueView)>) -> Seq<(Seq<char>, ValueView)>
    decreases pairs.len(),
{
    if pairs.len() == 0 {
        Seq::empty()
    } else {
        put(gathered(pairs.drop_last()), pairs.last().0, pairs.last().1)
    }
}

/// The pairs of a list, by what they are.
pub open spec fn pair_trees(pairs: Seq<(Arc<str>, Value)>) -> Seq<(Seq<char>, ValueView)> {
    Seq::new(pairs.len(), |i: int| ((*pairs[i].0)@, pairs[i].1@))
}

proof fn lemma_put_trees(entries: Seq<(Seq<char>, Value)>, key: Seq<char>, value: Value)
    requires
        distinct(entries),
    ensures
        entry_trees(put(entries, key, value)) == put(entry_trees(entries), key, value@),
{
    let mapped = entry_trees(entries);
    if has_key(entries, key) {
        let i = at(entries, key);
        assert(mapped[i].0 == key);
        let j = at(mapped, key);
        assert(mapped[j].0 == key);
        assert(entries[j].0 == key);
        assert(i == j);
    } else if has_key(mapped, key) {
        let j = at(mapped, key);
        assert(mapped[j].0 == key);
        assert(entries[j].0 == key);
    }
    assert(entry_trees(put(entries, key, value)) =~= put(mapped, key, value@));
}

/// Distinct pairs are gathered as they are.
pub proof fn lemma_gathered_distinct(pairs: Seq<(Seq<char>, ValueView)>)
    requires
        distinct(pairs),
    ensures
        gathered(pairs) == pairs,
    decreases pairs.len(),
{
    if pairs.len() > 0 {
        let rest = pairs.drop_last();
        assert(distinct(rest));
        lemma_gathered_distinct(rest);
        let key = pairs.last().0;
        if has_key(rest, key) {
            let i = at(rest, key);
            assert(pairs[i].0 == pairs[pairs.len() - 1].0);
        }
        assert(put(rest, key, pairs.last().1) =~= pairs);
    } else {
        assert(gathered(pairs) =~= pairs);
    }
}

impl Object {
    /// An object of a table.
    pub(crate) fn from_table(table: Table<Value>) -> (r: Self)
        ensures
            r@ == entry_trees(table@),
    {
        proof {
            assert forall|i: int| 0 <= i < table@.len() implies tree((#[trigger] table@[i]).1) == table@[i].1@ by {
                lemma_tree(table@[i].1);
            }
        }
        let r = Object { entries: Arc::new(table) };
        assert(r@ =~= entry_trees(table@));
        r
    }

    /// An object of these entries, in order. A key given twice keeps its first place and takes
    /// the last value.
    pub fn from_entries(pairs: Vec<(Arc<str>, Value)>) -> (r: Self)
        ensures
            r@ == gathered(pair_trees(pairs@)),
    {
        let mut table: Table<Value> = Table::new();
        let mut i: usize = 0;
        proof {
            assert(entry_trees(table@) =~= gathered(pair_trees(pairs@).take(0)));
        }
        while i < pairs.len()
            invariant
                i <= pairs@.len(),
                distinct(table@),
                entry_trees(table@) == gathered(pair_trees(pairs@).take(i as int)),
            decreases pairs.len() - i,
        {
            let key = pairs[i].0.clone();
            let value = pairs[i].1.clone();
            proof {
                lemma_put_trees(table@, (*key)@, value);
                lemma_put_distinct(table@, (*key)@, value);
                let next = pair_trees(pairs@).take(i + 1);
                assert(next.drop_last() =~= pair_trees(pairs@).take(i as int));
            }
            table.insert(key, value);
            i = i + 1;
        }
        proof {
            assert(pair_trees(pairs@).take(i as int) =~= pair_trees(pairs@));
        }
        Object::from_table(table)
    }

    /// How many entries there are.
    pub fn len(&self) -> (r: usize)
        ensures
            r == self@.len(),
            distinct(self@),
    {
        let r = self.entries.len();
        proof {
            assert forall|i: int, j: int| 0 <= i < self@.len() && 0 <= j < self@.len() && i != j implies (
            #[trigger] self@[i]).0 != (#[trigger] self@[j]).0 by {
                assert((*self.entries)@[i].0 != (*self.entries)@[j].0);
            }
        }
        r
    }

    /// Whether there is no entry.
    pub fn is_empty(&self) -> (r: bool)
        ensures
            r == (self@.len() == 0),
    {
        self.entries.len() == 0
    }

    /// References to the keys and the values, in order.
    pub fn iter(&self) -> (r: Vec<(&str, &Value)>)
        ensures
            r@.len() == self@.len(),
            forall|i: int| 0 <= i < r@.len() ==> (#[trigger] r@[i]).0@ == self@[i].0 && r@[i].1@ == self@[i].1,
    {
        let mut out: Vec<(&str, &Value)> = Vec::new();
        let mut i: usize = 0;
        while i < self.entries.len()
            invariant
                i <= self@.len(),
                self@.len() == (*self.entries)@.len(),
                out@.len() == i,
                forall|k: int| 0 <= k < i ==> (#[trigger] out@[k]).0@ == self@[k].0 && out@[k].1@ == self@[k].1,
            decreases self@.len() - i,
        {
            proof {
                lemma_tree((*self.entries)@[i as int].1);
            }
            let key: &str = self.entries.key_at(i);
            out.push((key, self.entries.value_at(i)));
            i = i + 1;
        }
        out
    }

    /// The value under `key`.
    pub fn get(&self, key: &str) -> (r: Option<&Value>)
        ensures
            match r {
                Some(v) => value_of(self@, key@) == Some(v@),
                None => value_of(self@, key@) is None,
            },
    {
        let n = self.len();
        match self.entries.find(key) {
            Some(i) => {
                proof {
                    lemma_tree((*self.entries)@[i as int].1);
                    assert(self@[i as int].0 == key@);
                    let j = at(self@, key@);
                    assert(self@[j].0 == key@);
                    assert(i == j);
                }
                Some(self.entries.value_at(i))
            },
            None => {
                proof {
                    if has_key(self@, key@) {
                        let j = at(self@, key@);
                        assert(self@[j].0 == key@);
                        assert((*self.entries)@[j].0 == key@);
                    }
                }
                None
            },
        }
    }

    /// The key of the entry at `place`.
    pub fn key_at(&self, place: usize) -> (r: &Arc<str>)
        requires
            place < self@.len(),
        ensures
            (**r)@ == self@[place as int].0,
    {
        self.entries.key_at(place)
    }

    /// The value of the entry at `place`.
    pub fn value_at(&self, place: usize) -> (r: &Value)
        requires
            place < self@.len(),
        ensures
            r@ == self@[place as int].1,
    {
        proof {
            lemma_tree((*self.entries)@[place as int].1);
        }
        self.entries.value_at(place)
    }

    /// The entries, in order.
    pub fn entries(&self) -> (r: Vec<(Arc<str>, Value)>)
        ensures
            pair_trees(r@) == self@,
    {
        let mut out: Vec<(Arc<str>, Value)> = Vec::new();
        let mut i: usize = 0;
        while i < self.len()
            invariant
                i <= self@.len(),
                pair_trees(out@) == self@.take(i as int),
            decreases self@.len() - i,
        {
            out.push((self.key_at(i).clone(), self.value_at(i).clone()));
            i = i + 1;
            proof {
                assert(pair_trees(out@) =~= self@.take(i as int)) by {
                    let before = out@.drop_last();
                    assert(pair_trees(before) =~= self@.take(i - 1));
                    assert(forall|j: int| 0 <= j < i - 1 ==> pair_trees(out@)[j] == pair_trees(before)[j]);
                    assert(forall|j: int| 0 <= j < i - 1 ==> self@.take(i - 1)[j] == self@[j]);
                }
            }
        }
        proof {
            assert(self@.take(i as int) =~= self@);
        }
        out
    }
}

} // verus!

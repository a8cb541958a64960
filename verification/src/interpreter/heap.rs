//! The per-execution heap: every collection, scope and function that an execution creates lives in
//! one arena, and runtime values are handles into it.
//!
//! Nothing in the arena is reference counted, so a cycle costs nothing extra: the whole arena goes
//! when the execution ends. The one thing given back earlier is a scope that no function captured.
//! Strings hold no other value, so only they are counted by their holders: a copy of a string is the
//! same string, wherever it is.

use vstd::prelude::*;
use vstd::multiset::Multiset;
use vstd::multiset::group_multiset_axioms;
use vstd::utf8::encode_utf8;
use std::sync::Arc;
use crate::number::Number;
use crate::interpreter::texts::Texts;
use crate::interpreter::texts::held_by;
use crate::interpreter::texts::holds_text;
use crate::interpreter::texts::lemma_held_grows;
use crate::interpreter::texts::lemma_held_prefix;
use crate::interpreter::texts::lemma_held_update;
use crate::interpreter::texts::weight;
use crate::interpreter::texts::with_text;
use crate::interpreter::texts::without_text;
use crate::number::is_zero_bits;
use crate::table::Table;
use crate::table::at;
use crate::table::distinct;
use crate::table::has_key;
use crate::table::put;
use crate::table::share;
use crate::table::value_of;

verus! {

/// A handle to one slot of the heap that issued it.
#[derive(Debug, Clone, Copy, PartialEq, Eq, Hash, Structural)]
pub struct SlotId(pub usize);

/// A runtime value. Collections and functions are handles: copying one aliases it.
pub enum RtValue {
    Null,
    Bool(bool),
    /// Always finite.
    Number(Number),
    /// Its text, and its number, which its copies share.
    String(Arc<str>, u64),
    Array(SlotId),
    Object(SlotId),
    Function(SlotId),
}

/// What a [`RtValue`] is.
#[verifier::ext_equal]
pub ghost enum RtView {
    Null,
    Bool(bool),
    Number(u64),
    String(Seq<char>, u64),
    Array(SlotId),
    Object(SlotId),
    Function(SlotId),
}

impl View for RtValue {
    type V = RtView;

    open spec fn view(&self) -> RtView {
        match *self {
            RtValue::Null => RtView::Null,
            RtValue::Bool(b) => RtView::Bool(b),
            RtValue::Number(n) => RtView::Number(n.bits()),
            RtValue::String(s, number) => RtView::String((*s)@, number),
            RtValue::Array(id) => RtView::Array(id),
            RtValue::Object(id) => RtView::Object(id),
            RtValue::Function(id) => RtView::Function(id),
        }
    }
}

impl Clone for RtValue {
    fn clone(&self) -> (r: Self)
        ensures
            r == *self,
    {
        match self {
            RtValue::Null => RtValue::Null,
            RtValue::Bool(b) => RtValue::Bool(*b),
            RtValue::Number(n) => RtValue::Number(*n),
            RtValue::String(s, number) => RtValue::String(s.clone(), *number),
            RtValue::Array(id) => RtValue::Array(*id),
            RtValue::Object(id) => RtValue::Object(*id),
            RtValue::Function(id) => RtValue::Function(*id),
        }
    }
}

/// The type name that diagnostics print.
pub open spec fn kind_of(value: RtView) -> Seq<char> {
    match value {
        RtView::Null => "null"@,
        RtView::Bool(_) => "bool"@,
        RtView::Number(_) => "number"@,
        RtView::String(_, _) => "string"@,
        RtView::Array(_) => "array"@,
        RtView::Object(_) => "object"@,
        RtView::Function(_) => "function"@,
    }
}

impl RtValue {
    /// The type name that diagnostics print.
    pub fn kind_name(&self) -> (r: &'static str)
        ensures
            r@ == kind_of(self@),
    {
        match self {
            RtValue::Null => "null",
            RtValue::Bool(_) => "bool",
            RtValue::Number(_) => "number",
            RtValue::String(_, _) => "string",
            RtValue::Array(_) => "array",
            RtValue::Object(_) => "object",
            RtValue::Function(_) => "function",
        }
    }

    /// Whether this is `null`.
    pub fn is_null(&self) -> (r: bool)
        ensures
            r == (self@ is Null),
    {
        matches!(self, RtValue::Null)
    }
}

/// What a list of values is.
pub open spec fn views(values: Seq<RtValue>) -> Seq<RtView> {
    Seq::new(values.len(), |i: int| values[i]@)
}

/// What a list of entries is.
pub open spec fn entry_views(entries: Seq<(Seq<char>, RtValue)>) -> Seq<(Seq<char>, RtView)> {
    Seq::new(entries.len(), |i: int| (entries[i].0, entries[i].1@))
}

pub broadcast proof fn lemma_views_push(values: Seq<RtValue>, value: RtValue)
    ensures
        #[trigger] views(values.push(value)) == views(values).push(value@),
{
    assert(views(values.push(value)) =~= views(values).push(value@));
}

pub broadcast proof fn lemma_views_subrange(values: Seq<RtValue>, from: int, to: int)
    requires
        0 <= from <= to <= values.len(),
    ensures
        #[trigger] views(values.subrange(from, to)) == views(values).subrange(from, to),
{
    assert(views(values.subrange(from, to)) =~= views(values).subrange(from, to));
}

pub broadcast proof fn lemma_views_drop_last(values: Seq<RtValue>)
    requires
        values.len() > 0,
    ensures
        #[trigger] views(values.drop_last()) == views(values).drop_last(),
{
    assert(views(values.drop_last()) =~= views(values).drop_last());
}

pub broadcast proof fn lemma_views_update(values: Seq<RtValue>, i: int, value: RtValue)
    requires
        0 <= i < values.len(),
    ensures
        #[trigger] views(values.update(i, value)) == views(values).update(i, value@),
{
    assert(views(values.update(i, value)) =~= views(values).update(i, value@));
}

pub broadcast group group_views {
    lemma_views_push,
    lemma_views_subrange,
    lemma_views_drop_last,
    lemma_views_update,
}

/// Keys are found alike in a list of entries and in what it is.
pub proof fn lemma_entry_views(entries: Seq<(Seq<char>, RtValue)>, key: Seq<char>)
    requires
        distinct(entries),
    ensures
        distinct(entry_views(entries)),
        has_key(entry_views(entries), key) == has_key(entries, key),
        has_key(entries, key) ==> at(entry_views(entries), key) == at(entries, key),
        value_of(entry_views(entries), key) == (match value_of(entries, key) {
            Some(v) => Some(v@),
            None => None,
        }),
{
    let mapped = entry_views(entries);
    assert(forall|i: int| 0 <= i < entries.len() ==> (#[trigger] mapped[i]).0 == entries[i].0);
    if has_key(entries, key) {
        let i = at(entries, key);
        assert(mapped[i].0 == key);
        let j = at(mapped, key);
        assert(mapped[j].0 == key);
        assert(entries[j].0 == key);
    } else if has_key(mapped, key) {
        let j = at(mapped, key);
        assert(entries[j].0 == key);
    }
}

/// Putting a value and looking at what the entries are commute.
pub proof fn lemma_put_views(entries: Seq<(Seq<char>, RtValue)>, key: Seq<char>, value: RtValue)
    requires
        distinct(entries),
    ensures
        entry_views(put(entries, key, value)) == put(entry_views(entries), key, value@),
{
    lemma_entry_views(entries, key);
    assert(entry_views(put(entries, key, value)) =~= put(entry_views(entries), key, value@));
}

/// One lexical scope: its bindings, the scope around it, and whether a function captured it.
pub struct ScopeRecord {
    pub bindings: Table<RtValue>,
    pub parent: Option<SlotId>,
    pub captured: bool,
}

/// One slot of the arena.
pub enum Slot {
    /// Reclaimed; its id is on the free list.
    Free,
    /// `version` counts the mutations of this collection itself.
    Array { items: Vec<RtValue>, version: u64 },
    Object { entries: Table<RtValue>, version: u64 },
    Scope(ScopeRecord),
    /// Which function of the Program this is, and the scope that it closes over.
    Function { definition: usize, scope: SlotId },
}

/// What a [`Slot`] holds.
#[verifier::ext_equal]
pub ghost enum SlotView {
    Free,
    Array { items: Seq<RtView>, version: u64 },
    Object { entries: Seq<(Seq<char>, RtView)>, version: u64 },
    Scope { bindings: Seq<(Seq<char>, RtView)>, parent: Option<SlotId>, captured: bool },
    Function { definition: usize, scope: SlotId },
}

impl View for Slot {
    type V = SlotView;

    open spec fn view(&self) -> SlotView {
        match *self {
            Slot::Free => SlotView::Free,
            Slot::Array { items, version } => SlotView::Array { items: views(items@), version },
            Slot::Object { entries, version } => SlotView::Object { entries: entry_views(entries@), version },
            Slot::Scope(record) => SlotView::Scope {
                bindings: entry_views(record.bindings@),
                parent: record.parent,
                captured: record.captured,
            },
            Slot::Function { definition, scope } => SlotView::Function { definition, scope },
        }
    }
}

/// What a list of slots holds.
pub open spec fn slot_views(slots: Seq<Slot>) -> Seq<SlotView> {
    Seq::new(slots.len(), |i: int| slots[i]@)
}

/// The arena and its free list.
#[verifier::ext_equal]
pub ghost struct HeapView {
    pub slots: Seq<SlotView>,
    pub free: Seq<SlotId>,
    /// The number of the next string that is made.
    pub issued: u64,
}

/// What an element, or the value of an entry or a binding, counts besides the string it holds.
pub const VALUE_BYTES: u64 = 16;

/// What a string counts besides its bytes.
pub const TEXT_OVERHEAD: usize = 32;

/// What an entry or a binding counts besides its key and its value.
pub const ENTRY_BYTES: u64 = 32;

/// What a slot in use counts besides its contents.
pub const SLOT_BYTES: u64 = 64;

/// What the first `n` entries count besides the strings that they hold.
pub open spec fn entries_bytes(entries: Seq<(Seq<char>, RtView)>, n: int) -> int
    decreases n,
{
    if n <= 0 {
        0
    } else {
        entries_bytes(entries, n - 1) + ENTRY_BYTES + encode_utf8(entries[n - 1].0).len() + VALUE_BYTES
    }
}

/// What a slot counts besides the strings that it holds.
pub open spec fn slot_bytes(slot: SlotView) -> int {
    match slot {
        SlotView::Free => 0,
        SlotView::Array { items, .. } => SLOT_BYTES + VALUE_BYTES * items.len(),
        SlotView::Object { entries, .. } => SLOT_BYTES + entries_bytes(entries, entries.len() as int),
        SlotView::Scope { bindings, .. } => SLOT_BYTES + entries_bytes(bindings, bindings.len() as int),
        SlotView::Function { .. } => SLOT_BYTES as int,
    }
}

/// The values of a list of entries.
pub open spec fn entry_values(entries: Seq<(Seq<char>, RtView)>) -> Seq<RtView> {
    Seq::new(entries.len(), |i: int| entries[i].1)
}

/// The values that a slot holds.
pub open spec fn slot_values(slot: SlotView) -> Seq<RtView> {
    match slot {
        SlotView::Array { items, .. } => items,
        SlotView::Object { entries, .. } => entry_values(entries),
        SlotView::Scope { bindings, .. } => entry_values(bindings),
        _ => Seq::empty(),
    }
}

/// The strings that a slot holds, each as often as it holds it.
pub open spec fn slot_texts(slot: SlotView) -> Multiset<(Seq<char>, u64)> {
    held_by(slot_values(slot), slot_values(slot).len() as int)
}

/// The strings that the first `n` slots hold.
pub open spec fn slots_texts(slots: Seq<SlotView>, n: int) -> Multiset<(Seq<char>, u64)>
    decreases n,
{
    if n <= 0 {
        Multiset::empty()
    } else {
        slots_texts(slots, n - 1).add(slot_texts(slots[n - 1]))
    }
}

/// What the first `n` slots count.
pub open spec fn slots_bytes(slots: Seq<SlotView>, n: int) -> int
    decreases n,
{
    if n <= 0 {
        0
    } else {
        slots_bytes(slots, n - 1) + slot_bytes(slots[n - 1])
    }
}

impl HeapView {
    /// What the whole arena counts besides the strings that it holds.
    pub open spec fn bytes(self) -> int {
        slots_bytes(self.slots, self.slots.len() as int)
    }

    /// The strings that the arena holds, each as often as it holds it.
    pub open spec fn texts(self) -> Multiset<(Seq<char>, u64)> {
        slots_texts(self.slots, self.slots.len() as int)
    }

    /// The slots on the free list are exactly the reclaimed ones, each once.
    pub open spec fn wf(self) -> bool {
        &&& forall|i: int|
            0 <= i < self.free.len() ==> (#[trigger] self.free[i]).0 < self.slots.len()
                && self.slots[self.free[i].0 as int] is Free
        &&& forall|i: int, j: int|
            0 <= i < self.free.len() && 0 <= j < self.free.len() && i != j ==> (#[trigger] self.free[i]) != (
            #[trigger] self.free[j])
        &&& forall|s: int|
            0 <= s < self.slots.len() && (#[trigger] self.slots[s]) is Free ==> exists|i: int|
                0 <= i < self.free.len() && (#[trigger] self.free[i]).0 == s
    }

    /// What a handle points at; nothing, for a handle past the arena.
    pub open spec fn slot(self, id: SlotId) -> SlotView {
        if id.0 < self.slots.len() {
            self.slots[id.0 as int]
        } else {
            SlotView::Free
        }
    }

    /// The heap with another slot at `id`.
    pub open spec fn with(self, id: SlotId, slot: SlotView) -> HeapView {
        HeapView { slots: self.slots.update(id.0 as int, slot), ..self }
    }

    /// The heap once a string has been made, which has the number that was next. The numbers wrap.
    pub open spec fn issue(self) -> HeapView {
        HeapView { issued: bumped(self.issued), ..self }
    }

    /// The slot that the next allocation takes.
    pub open spec fn next(self) -> SlotId {
        if self.free.len() > 0 {
            self.free.last()
        } else {
            SlotId(self.slots.len() as usize)
        }
    }

    /// The heap after an allocation: the slot reclaimed last, or a new one.
    pub open spec fn allocated(self, slot: SlotView) -> HeapView {
        if self.free.len() > 0 {
            HeapView {
                slots: self.slots.update(self.free.last().0 as int, slot),
                free: self.free.drop_last(),
                ..self
            }
        } else {
            HeapView { slots: self.slots.push(slot), ..self }
        }
    }

    /// The heap after `id` is given back.
    pub open spec fn release(self, id: SlotId) -> HeapView {
        if self.slot(id) is Free {
            self
        } else {
            HeapView { slots: self.slots.update(id.0 as int, SlotView::Free), free: self.free.push(id), ..self }
        }
    }

    /// The elements of an array; none, of anything else.
    pub open spec fn elements(self, id: SlotId) -> Seq<RtView> {
        match self.slot(id) {
            SlotView::Array { items, .. } => items,
            _ => Seq::empty(),
        }
    }

    /// The entries of an object; none, of anything else.
    pub open spec fn entries(self, id: SlotId) -> Seq<(Seq<char>, RtView)> {
        match self.slot(id) {
            SlotView::Object { entries, .. } => entries,
            _ => Seq::empty(),
        }
    }

    /// How often a collection was mutated.
    pub open spec fn version(self, id: SlotId) -> u64 {
        match self.slot(id) {
            SlotView::Array { version, .. } => version,
            SlotView::Object { version, .. } => version,
            _ => 0,
        }
    }

    pub open spec fn array_get(self, id: SlotId, index: int) -> Option<RtView> {
        if 0 <= index < self.elements(id).len() {
            Some(self.elements(id)[index])
        } else {
            None
        }
    }

    /// The heap after a write at `index`: at an element, or at the length, which appends.
    pub open spec fn array_store(self, id: SlotId, index: int, value: RtView) -> Option<HeapView> {
        match self.slot(id) {
            SlotView::Array { items, version } => if index < items.len() {
                Some(self.with(id, SlotView::Array { items: items.update(index, value), version: bumped(version) }))
            } else if index == items.len() {
                Some(self.with(id, SlotView::Array { items: items.push(value), version: bumped(version) }))
            } else {
                None
            },
            _ => None,
        }
    }

    pub open spec fn object_get(self, id: SlotId, key: Seq<char>) -> Option<RtView> {
        value_of(self.entries(id), key)
    }

    /// The heap after a write under `key`: in place, or behind the rest.
    pub open spec fn object_store(self, id: SlotId, key: Seq<char>, value: RtView) -> HeapView {
        match self.slot(id) {
            SlotView::Object { entries, version } => self.with(
                id,
                SlotView::Object { entries: put(entries, key, value), version: bumped(version) },
            ),
            _ => self,
        }
    }

    /// Truthiness: `null`, `false`, zero, the empty text and empty collections are falsy.
    pub open spec fn truthy(self, value: RtView) -> bool {
        match value {
            RtView::Null => false,
            RtView::Bool(b) => b,
            RtView::Number(n) => !is_zero_bits(n),
            RtView::String(s, _) => s.len() > 0,
            RtView::Array(id) => self.elements(id).len() > 0,
            RtView::Object(id) => self.entries(id).len() > 0,
            RtView::Function(_) => true,
        }
    }
}

/// One more mutation.
pub open spec fn bumped(version: u64) -> u64 {
    if version == u64::MAX {
        0
    } else {
        (version + 1) as u64
    }
}


/// Whether `count` is `total`, up to a wrap at two to the 64th.
pub open spec fn counts(count: u64, total: int) -> bool {
    count == total % 0x1_0000_0000_0000_0000
}

pub(crate) fn sum(a: u64, b: u64, Ghost(x): Ghost<int>, Ghost(y): Ghost<int>) -> (r: u64)
    requires
        counts(a, x),
        counts(b, y),
    ensures
        counts(r, x + y),
{
    a.wrapping_add(b)
}

pub(crate) fn difference(a: u64, b: u64, Ghost(x): Ghost<int>, Ghost(y): Ghost<int>) -> (r: u64)
    requires
        counts(a, x),
        counts(b, y),
    ensures
        counts(r, x - y),
{
    a.wrapping_sub(b)
}

/// What a text counts in bytes.
pub(crate) fn text_bytes(text: &str) -> (r: u64)
    ensures
        counts(r, encode_utf8(text@).len() as int),
        r == encode_utf8(text@).len(),
{
    text.as_bytes().len() as u64
}

fn count_entry(key: &str) -> (r: u64)
    ensures
        counts(r, ENTRY_BYTES + encode_utf8(key@).len() + VALUE_BYTES),
{
    let named = sum(ENTRY_BYTES, text_bytes(key), Ghost(ENTRY_BYTES as int), Ghost(encode_utf8(key@).len() as int));
    sum(named, VALUE_BYTES, Ghost(ENTRY_BYTES + encode_utf8(key@).len()), Ghost(VALUE_BYTES as int))
}

fn count_entries(entries: &Table<RtValue>) -> (r: u64)
    ensures
        counts(r, entries_bytes(entry_views(entries@), entries@.len() as int)),
{
    let mut total: u64 = 0;
    let mut i: usize = 0;
    while i < entries.len()
        invariant
            i <= entries@.len(),
            counts(total, entries_bytes(entry_views(entries@), i as int)),
        decreases entries@.len() - i,
    {
        let ghost e = entry_views(entries@)[i as int];
        total =
        sum(
            total,
            count_entry(entries.key_at(i)),
            Ghost(entries_bytes(entry_views(entries@), i as int)),
            Ghost(ENTRY_BYTES + encode_utf8(e.0).len() + VALUE_BYTES),
        );
        i = i + 1;
    }
    total
}

fn count_slot(slot: &Slot) -> (r: u64)
    ensures
        counts(r, slot_bytes(slot@)),
{
    match slot {
        Slot::Free => 0,
        Slot::Array { items, .. } => sum(
            SLOT_BYTES,
            VALUE_BYTES.wrapping_mul(items.len() as u64),
            Ghost(SLOT_BYTES as int),
            Ghost(VALUE_BYTES * items@.len()),
        ),
        Slot::Object { entries, .. } => sum(
            SLOT_BYTES,
            count_entries(entries),
            Ghost(SLOT_BYTES as int),
            Ghost(entries_bytes(entry_views(entries@), entries@.len() as int)),
        ),
        Slot::Scope(record) => sum(
            SLOT_BYTES,
            count_entries(&record.bindings),
            Ghost(SLOT_BYTES as int),
            Ghost(entries_bytes(entry_views(record.bindings@), record.bindings@.len() as int)),
        ),
        Slot::Function { .. } => SLOT_BYTES,
    }
}

proof fn lemma_slots_bytes_update(slots: Seq<SlotView>, i: int, slot: SlotView, n: int)
    requires
        0 <= i < slots.len(),
        n <= slots.len(),
    ensures
        slots_bytes(slots.update(i, slot), n) == slots_bytes(slots, n) + (if i < n {
            slot_bytes(slot) - slot_bytes(slots[i])
        } else {
            0
        }),
    decreases n,
{
    if n > 0 {
        lemma_slots_bytes_update(slots, i, slot, n - 1);
    }
}

proof fn lemma_slots_bytes_push(slots: Seq<SlotView>, slot: SlotView, n: int)
    requires
        n <= slots.len(),
    ensures
        slots_bytes(slots.push(slot), n) == slots_bytes(slots, n),
    decreases n,
{
    if n > 0 {
        lemma_slots_bytes_push(slots, slot, n - 1);
    }
}

proof fn lemma_slots_texts_update(slots: Seq<SlotView>, i: int, slot: SlotView, n: int)
    requires
        0 <= i < slots.len(),
        n <= slots.len(),
    ensures
        i < n ==> forall|text: (Seq<char>, u64)| #[trigger]
            slots_texts(slots.update(i, slot), n).count(text) == slots_texts(slots, n).count(text) - slot_texts(
                slots[i],
            ).count(text) + slot_texts(slot).count(text),
        i < n ==> slot_texts(slots[i]).subset_of(slots_texts(slots, n)),
        i >= n ==> slots_texts(slots.update(i, slot), n) == slots_texts(slots, n),
    decreases n,
{
    broadcast use group_multiset_axioms;

    if n > 0 {
        lemma_slots_texts_update(slots, i, slot, n - 1);
        let after = slots.update(i, slot);
        assert(after[n - 1] == (if i == n - 1 { slot } else { slots[n - 1] }));
        assert forall|text: (Seq<char>, u64)| i < n implies #[trigger] slots_texts(after, n).count(text) == slots_texts(
            slots,
            n,
        ).count(text) - slot_texts(slots[i]).count(text) + slot_texts(slot).count(text) by {
            assert(slots_texts(after, n).count(text) == slots_texts(after, n - 1).count(text) + slot_texts(
                after[n - 1],
            ).count(text));
            assert(slots_texts(slots, n).count(text) == slots_texts(slots, n - 1).count(text) + slot_texts(
                slots[n - 1],
            ).count(text));
        }
    }
}

proof fn lemma_slots_texts_push(slots: Seq<SlotView>, slot: SlotView, n: int)
    requires
        n <= slots.len(),
    ensures
        slots_texts(slots.push(slot), n) == slots_texts(slots, n),
    decreases n,
{
    if n > 0 {
        lemma_slots_texts_push(slots, slot, n - 1);
    }
}

/// Another slot in place of one: the arena lets go of the one's strings and holds the other's.
proof fn lemma_texts_replaced(heap: HeapView, id: SlotId, slot: SlotView)
    requires
        id.0 < heap.slots.len(),
    ensures
        forall|text: (Seq<char>, u64)| #[trigger]
            heap.with(id, slot).texts().count(text) == heap.texts().count(text) - slot_texts(
                heap.slots[id.0 as int],
            ).count(text) + slot_texts(slot).count(text),
        slot_texts(heap.slots[id.0 as int]).subset_of(heap.texts()),
{
    lemma_slots_texts_update(heap.slots, id.0 as int, slot, heap.slots.len() as int);
}

/// A put holds the new value and lets the one under the key go.
proof fn lemma_put_texts(entries: Seq<(Seq<char>, RtView)>, key: Seq<char>, value: RtView)
    ensures
        held_by(entry_values(put(entries, key, value)), put(entries, key, value).len() as int) == (match value_of(
            entries,
            key,
        ) {
            Some(gone) => with_text(without_text(held_by(entry_values(entries), entries.len() as int), gone), value),
            None => with_text(held_by(entry_values(entries), entries.len() as int), value),
        }),
        value_of(entries, key) matches Some(gone) ==> holds_text(
            held_by(entry_values(entries), entries.len() as int),
            gone,
        ),
{
    let values = entry_values(entries);
    let after = put(entries, key, value);
    if has_key(entries, key) {
        let i = at(entries, key);
        assert(entry_values(after) =~= values.update(i, value));
        lemma_held_update(values, i, value, values.len() as int);
    } else {
        assert(entry_values(after) =~= values.push(value));
        lemma_held_prefix(values, values.push(value), values.len() as int);
    }
}

/// Put `value` under `key`: the table holds it, and lets the value that was there go.
fn put_entry(texts: &mut Texts, entries: &mut Table<RtValue>, key: &str, value: RtValue)
    requires
        old(texts).wf(),
        value_of(entry_views(old(entries)@), key@) matches Some(gone) ==> holds_text(old(texts)@, gone),
    ensures
        final(texts).wf(),
        final(texts)@ == (match value_of(entry_views(old(entries)@), key@) {
            Some(gone) => without_text(with_text(old(texts)@, value@), gone),
            None => with_text(old(texts)@, value@),
        }),
        entry_views(final(entries)@) == put(entry_views(old(entries)@), key@, value@),
{
    broadcast use group_multiset_axioms;

    let n = entries.len();
    proof {
        lemma_entry_views(entries@, key@);
    }
    let gone = match entries.get(key) {
        Some(gone) => Some(gone.clone()),
        None => None,
    };
    texts.hold(&value);
    proof {
        lemma_put_views(entries@, key@, value);
    }
    entries.insert(share(key), value);
    if let Some(gone) = &gone {
        texts.let_go(gone);
    }
}

/// Hold the values of a table.
fn hold_entries(texts: &mut Texts, entries: &Table<RtValue>)
    requires
        old(texts).wf(),
    ensures
        final(texts).wf(),
        final(texts)@ == old(texts)@.add(held_by(entry_values(entry_views(entries@)), entries@.len() as int)),
{
    broadcast use group_multiset_axioms;

    let ghost before = texts@;
    let ghost all = entry_values(entry_views(entries@));
    let mut i: usize = 0;
    proof {
        assert(texts@ =~= before.add(held_by(all, 0)));
    }
    while i < entries.len()
        invariant
            i <= entries@.len(),
            texts.wf(),
            all == entry_values(entry_views(entries@)),
            texts@ == before.add(held_by(all, i as int)),
        decreases entries@.len() - i,
    {
        texts.hold(entries.value_at(i));
        i = i + 1;
        proof {
            assert(texts@ =~= before.add(held_by(all, i as int)));
        }
    }
}

/// Hold the values of a slot.
fn hold_slot(texts: &mut Texts, slot: &Slot)
    requires
        old(texts).wf(),
    ensures
        final(texts).wf(),
        final(texts)@ == old(texts)@.add(slot_texts(slot@)),
{
    broadcast use group_multiset_axioms;

    let ghost before = texts@;
    match slot {
        Slot::Array { items, .. } => {
            let ghost all = views(items@);
            let mut i: usize = 0;
            proof {
                assert(texts@ =~= before.add(held_by(all, 0)));
            }
            while i < items.len()
                invariant
                    i <= items@.len(),
                    texts.wf(),
                    all == views(items@),
                    texts@ == before.add(held_by(all, i as int)),
                decreases items.len() - i,
            {
                texts.hold(&items[i]);
                i = i + 1;
                proof {
                    assert(texts@ =~= before.add(held_by(all, i as int)));
                }
            }
        },
        Slot::Object { entries, .. } => {
            hold_entries(texts, entries);
        },
        Slot::Scope(record) => {
            hold_entries(texts, &record.bindings);
        },
        _ => {
            proof {
                assert(texts@ =~= before.add(slot_texts(slot@)));
            }
        },
    }
}

/// Let the values of a slot go.
fn drop_slot(texts: &mut Texts, slot: &Slot)
    requires
        old(texts).wf(),
        slot_texts(slot@).subset_of(old(texts)@),
    ensures
        final(texts).wf(),
        forall|text: (Seq<char>, u64)| #[trigger]
            final(texts)@.count(text) == old(texts)@.count(text) - slot_texts(slot@).count(text),
{
    broadcast use group_multiset_axioms;

    let ghost before = texts@;
    let ghost all = slot_values(slot@);
    match slot {
        Slot::Array { items, .. } => {
            let mut i: usize = items.len();
            while i > 0
                invariant
                    i <= items@.len(),
                    all == views(items@),
                    texts.wf(),
                    held_by(all, all.len() as int).subset_of(before),
                    forall|text: (Seq<char>, u64)| #[trigger]
                        texts@.count(text) == before.count(text) - held_by(all, all.len() as int).count(text) + held_by(
                            all,
                            i as int,
                        ).count(text),
                decreases i,
            {
                proof {
                    lemma_let_go(texts@, before, all, i as int);
                }
                i = i - 1;
                texts.let_go(&items[i]);
            }
        },
        Slot::Object { entries, .. } => {
            drop_entries(texts, entries);
        },
        Slot::Scope(record) => {
            drop_entries(texts, &record.bindings);
        },
        _ => {},
    }
}

/// Let the values of a table go.
fn drop_entries(texts: &mut Texts, entries: &Table<RtValue>)
    requires
        old(texts).wf(),
        held_by(entry_values(entry_views(entries@)), entries@.len() as int).subset_of(old(texts)@),
    ensures
        final(texts).wf(),
        forall|text: (Seq<char>, u64)| #[trigger]
            final(texts)@.count(text) == old(texts)@.count(text) - held_by(
                entry_values(entry_views(entries@)),
                entries@.len() as int,
            ).count(text),
{
    broadcast use group_multiset_axioms;

    let ghost before = texts@;
    let ghost all = entry_values(entry_views(entries@));
    let mut i: usize = entries.len();
    while i > 0
        invariant
            i <= entries@.len(),
            all == entry_values(entry_views(entries@)),
            texts.wf(),
            held_by(all, all.len() as int).subset_of(before),
            forall|text: (Seq<char>, u64)| #[trigger]
                        texts@.count(text) == before.count(text) - held_by(all, all.len() as int).count(text) + held_by(
                            all,
                            i as int,
                        ).count(text),
        decreases i,
    {
        proof {
            lemma_let_go(texts@, before, all, i as int);
        }
        i = i - 1;
        texts.let_go(entries.value_at(i));
    }
}

/// While the last of `values` are let go one by one, the next one is still held.
proof fn lemma_let_go(texts: Multiset<(Seq<char>, u64)>, before: Multiset<(Seq<char>, u64)>, values: Seq<RtView>, i: int)
    requires
        0 < i <= values.len(),
        held_by(values, values.len() as int).subset_of(before),
        forall|text: (Seq<char>, u64)| #[trigger]
            texts.count(text) == before.count(text) - held_by(values, values.len() as int).count(text) + held_by(
                values,
                i,
            ).count(text),
    ensures
        holds_text(texts, values[i - 1]),
{
    broadcast use group_multiset_axioms;

    lemma_held_grows(values, i, values.len() as int);
    if let RtView::String(text, number) = values[i - 1] {
        assert(held_by(values, i).count((text, number)) > 0);
    }
}

/// One arena of slots and what they count, and the strings that its values and others hold.
pub struct Heap {
    slots: Vec<Slot>,
    free: Vec<SlotId>,
    used: u64,
    issued: u64,
    texts: Texts,
    outside: Ghost<Multiset<(Seq<char>, u64)>>,
}

impl View for Heap {
    type V = HeapView;

    closed spec fn view(&self) -> HeapView {
        HeapView { slots: slot_views(self.slots@), free: self.free@, issued: self.issued }
    }
}

impl Heap {
    /// The free list is right, the count is what the slots hold, and the strings are those that the
    /// slots and the values outside hold.
    pub closed spec fn wf(self) -> bool {
        &&& self@.wf()
        &&& counts(self.used, self@.bytes())
        &&& self.texts.wf()
        &&& self.texts@ == self@.texts().add(self.outside@)
    }

    /// The strings that values outside the arena hold, each as often as values hold it.
    pub closed spec fn outside(self) -> Multiset<(Seq<char>, u64)> {
        self.outside@
    }

    /// An empty heap.
    pub fn new() -> (r: Self)
        ensures
            r.wf(),
            r.outside() == Multiset::<(Seq<char>, u64)>::empty(),
            r@ == (HeapView { slots: Seq::empty(), free: Seq::empty(), issued: 0 }),
    {
        broadcast use group_multiset_axioms;

        let r = Heap {
            slots: Vec::new(),
            free: Vec::new(),
            used: 0,
            issued: 0,
            texts: Texts::new(),
            outside: Ghost(Multiset::empty()),
        };
        proof {
            assert(r@.slots =~= Seq::<SlotView>::empty());
            assert(r.texts@ =~= r@.texts().add(r.outside@));
        }
        r
    }

    /// What counts towards the memory ceiling: the arena, and every string that a value holds, in the
    /// arena or outside it, once however many do.
    pub fn used(&self) -> (r: u64)
        requires
            self.wf(),
        ensures
            counts(r, self@.bytes() + weight(self@.texts().add(self.outside()).dom())),
    {
        sum(self.used, self.texts.bytes(), Ghost(self@.bytes()), Ghost(weight(self.texts@.dom())))
    }

    /// Hold a value outside the arena.
    pub fn hold(&mut self, value: &RtValue)
        requires
            old(self).wf(),
        ensures
            final(self).wf(),
            final(self)@ == old(self)@,
            final(self).outside() == with_text(old(self).outside(), value@),
    {
        broadcast use group_multiset_axioms;

        let ghost before = *self;
        self.texts.hold(value);
        proof {
            self.outside@ = with_text(before.outside@, value@);
            assert(self.texts@ =~= self@.texts().add(self.outside@));
        }
    }

    /// Let a value go that is held outside the arena.
    pub fn let_go(&mut self, value: &RtValue)
        requires
            old(self).wf(),
            holds_text(old(self).outside(), value@),
        ensures
            final(self).wf(),
            final(self)@ == old(self)@,
            final(self).outside() == without_text(old(self).outside(), value@),
    {
        broadcast use group_multiset_axioms;

        let ghost before = *self;
        self.texts.let_go(value);
        proof {
            self.outside@ = without_text(before.outside@, value@);
            assert(self.texts@ =~= self@.texts().add(self.outside@));
        }
    }

    /// Make a string. Nothing holds it yet.
    pub fn make_text(&mut self, text: Arc<str>) -> (r: RtValue)
        requires
            old(self).wf(),
        ensures
            final(self).wf(),
            final(self).outside() == old(self).outside(),
            final(self)@ == old(self)@.issue(),
            r@ == RtView::String((*text)@, old(self)@.issued),
    {
        let number: u64 = self.issued;
        self.issued = number.wrapping_add(1);
        RtValue::String(text, number)
    }

    /// Make a string and hold it outside the arena.
    pub fn text(&mut self, text: &str) -> (r: RtValue)
        requires
            old(self).wf(),
        ensures
            final(self).wf(),
            final(self)@ == old(self)@.issue(),
            final(self).outside() == old(self).outside().insert((text@, old(self)@.issued)),
            r@ == RtView::String(text@, old(self)@.issued),
    {
        let made = self.make_text(share(text));
        self.hold(&made);
        made
    }

    /// Put `slot` in the slot reclaimed last, or in a new one.
    pub fn allocate(&mut self, slot: Slot) -> (r: SlotId)
        requires
            old(self).wf(),
            !(slot is Free),
        ensures
            final(self).wf(),
            final(self).outside() == old(self).outside(),
            r == old(self)@.next(),
            final(self)@ == old(self)@.allocated(slot@),
    {
        broadcast use group_multiset_axioms;

        let ghost before = self@;
        hold_slot(&mut self.texts, &slot);
        let added = count_slot(&slot);
        let ghost bytes = slot_bytes(slot@);
        proof {
            if before.free.len() > 0 {
                assert(before.free[before.free.len() - 1] == before.free.last());
                lemma_slots_bytes_update(before.slots, before.free.last().0 as int, slot@, before.slots.len() as int);
                lemma_slots_texts_update(before.slots, before.free.last().0 as int, slot@, before.slots.len() as int);
            } else {
                lemma_slots_bytes_push(before.slots, slot@, before.slots.len() as int);
                lemma_slots_texts_push(before.slots, slot@, before.slots.len() as int);
            }
        }
        self.used = sum(self.used, added, Ghost(before.bytes()), Ghost(bytes));
        match self.free.pop() {
            Some(id) => {
                proof {
                    assert(before.free.last() == id);
                    assert(before.free[before.free.len() - 1] == id);
                }
                let ghost view = slot@;
                self.slots.set(id.0, slot);
                proof {
                    assert(self@.slots =~= before.slots.update(id.0 as int, view));
                    assert(self.texts@ =~= self@.texts().add(self.outside@));
                    let after = before.allocated(view);
                    assert forall|s: int|
                        0 <= s < after.slots.len() && (#[trigger] after.slots[s]) is Free implies exists|i: int|
                        0 <= i < after.free.len() && (#[trigger] after.free[i]).0 == s by {
                        assert(before.slots[s] is Free);
                        let i = choose|i: int| 0 <= i < before.free.len() && (#[trigger] before.free[i]).0 == s;
                        assert(i < before.free.len() - 1);
                        assert(after.free[i].0 == s);
                    }
                }
                id
            },
            None => {
                let id = SlotId(self.slots.len());
                let ghost view = slot@;
                self.slots.push(slot);
                proof {
                    assert(self@.slots =~= before.slots.push(view));
                    assert(self.texts@ =~= self@.texts().add(self.outside@));
                    let after = before.allocated(view);
                    assert forall|s: int|
                        0 <= s < after.slots.len() && (#[trigger] after.slots[s]) is Free implies exists|i: int|
                        0 <= i < after.free.len() && (#[trigger] after.free[i]).0 == s by {
                        assert(before.slots[s] is Free);
                    }
                }
                id
            },
        }
    }

    /// Give a slot back, and its contents with it.
    pub fn release(&mut self, id: SlotId)
        requires
            old(self).wf(),
        ensures
            final(self).wf(),
            final(self).outside() == old(self).outside(),
            final(self)@ == old(self)@.release(id),
    {
        broadcast use group_multiset_axioms;

        let ghost before = self@;
        if id.0 >= self.slots.len() || matches!(self.slots[id.0], Slot::Free) {
            return;
        }
        let removed = count_slot(&self.slots[id.0]);
        proof {
            lemma_slots_bytes_update(before.slots, id.0 as int, SlotView::Free, before.slots.len() as int);
            lemma_slots_texts_update(before.slots, id.0 as int, SlotView::Free, before.slots.len() as int);
        }
        drop_slot(&mut self.texts, &self.slots[id.0]);
        self.used = difference(self.used, removed, Ghost(before.bytes()), Ghost(slot_bytes(before.slots[id.0 as int])));
        self.slots.set(id.0, Slot::Free);
        self.free.push(id);
        proof {
            assert(self@.slots =~= before.slots.update(id.0 as int, SlotView::Free));
            assert(self.texts@ =~= self@.texts().add(self.outside@));
            let after = before.release(id);
            assert forall|s: int|
                0 <= s < after.slots.len() && (#[trigger] after.slots[s]) is Free implies exists|i: int|
                0 <= i < after.free.len() && (#[trigger] after.free[i]).0 == s by {
                if s == id.0 {
                    assert(after.free[after.free.len() - 1].0 == s);
                } else {
                    assert(before.slots[s] is Free);
                    let i = choose|i: int| 0 <= i < before.free.len() && (#[trigger] before.free[i]).0 == s;
                    assert(after.free[i].0 == s);
                }
            }
        }
    }

    /// What a handle points at.
    pub fn slot(&self, id: SlotId) -> (r: Option<&Slot>)
        ensures
            match r {
                Some(slot) => id.0 < self@.slots.len() && slot@ == self@.slots[id.0 as int],
                None => id.0 >= self@.slots.len(),
            },
    {
        if id.0 < self.slots.len() {
            Some(&self.slots[id.0])
        } else {
            None
        }
    }

    /// The elements of an array; none, of anything else.
    fn elements(&self, id: SlotId) -> (r: &[RtValue])
        ensures
            views(r@) == self@.elements(id),
    {
        match self.slot(id) {
            Some(Slot::Array { items, .. }) => items.as_slice(),
            _ => {
                let none: &[RtValue] = &[];
                assert(views(none@) =~= Seq::<RtView>::empty());
                none
            },
        }
    }

    /// How many elements an array has.
    pub fn array_len(&self, id: SlotId) -> (r: usize)
        ensures
            r == self@.elements(id).len(),
    {
        self.elements(id).len()
    }

    /// The element of an array at `index`.
    pub fn array_get(&self, id: SlotId, index: u64) -> (r: Option<RtValue>)
        ensures
            match (r, self@.array_get(id, index as int)) {
                (Some(a), Some(b)) => a@ == b && index < usize::MAX,
                (None, None) => true,
                _ => false,
            },
    {
        let items = self.elements(id);
        if index < items.len() as u64 {
            Some(items[index as usize].clone())
        } else {
            None
        }
    }

    /// Write at an element, or at the length, which appends. `false` for any other index.
    pub fn array_store(&mut self, id: SlotId, index: u64, value: RtValue) -> (r: bool)
        requires
            old(self).wf(),
        ensures
            final(self).wf(),
            final(self).outside() == old(self).outside(),
            match old(self)@.array_store(id, index as int, value@) {
                Some(heap) => r && final(self)@ == heap,
                None => !r && final(self)@ == old(self)@,
            },
    {
        broadcast use group_views;
        broadcast use group_multiset_axioms;

        let ghost before = self@;
        let ghost view = value@;
        if id.0 >= self.slots.len() {
            return false;
        }
        match &mut self.slots[id.0] {
            Slot::Array { items, version } => {
                let ghost held = views(items@);
                let n = items.len();
                if index < n as u64 {
                    self.texts.hold(&value);
                    let gone = items[index as usize].clone();
                    items.set(index as usize, value);
                    *version = version.wrapping_add(1);
                    proof {
                        let after = before.array_store(id, index as int, view)->0;
                        lemma_held_update(held, index as int, view, held.len() as int);
                        lemma_texts_replaced(before, id, after.slots[id.0 as int]);
                    }
                    self.texts.let_go(&gone);
                } else if index == n as u64 {
                    self.texts.hold(&value);
                    items.push(value);
                    *version = version.wrapping_add(1);
                    self.used = sum(self.used, VALUE_BYTES, Ghost(before.bytes()), Ghost(VALUE_BYTES as int));
                    proof {
                        let after = before.array_store(id, index as int, view)->0;
                        lemma_held_prefix(held, held.push(view), held.len() as int);
                        lemma_texts_replaced(before, id, after.slots[id.0 as int]);
                    }
                } else {
                    proof {
                        assert(self@.slots =~= before.slots);
                    }
                    return false;
                }
            },
            _ => {
                proof {
                    assert(self@.slots =~= before.slots);
                }
                return false;
            },
        }
        proof {
            let after = before.array_store(id, index as int, view)->0;
            lemma_slots_bytes_update(before.slots, id.0 as int, after.slots[id.0 as int], before.slots.len() as int);
            assert(self@.slots =~= after.slots);
            assert(self.texts@ =~= self@.texts().add(self.outside@));
            lemma_with_wf(before, id, after.slots[id.0 as int]);
        }
        true
    }

    /// How often the collection at `id` was mutated; 0 for anything else.
    pub fn version(&self, id: SlotId) -> (r: u64)
        ensures
            r == self@.version(id),
    {
        match self.slot(id) {
            Some(Slot::Array { version, .. }) => *version,
            Some(Slot::Object { version, .. }) => *version,
            _ => 0,
        }
    }

    /// How many entries an object has.
    pub fn object_len(&self, id: SlotId) -> (r: usize)
        ensures
            r == self@.entries(id).len(),
    {
        match self.slot(id) {
            Some(Slot::Object { entries, .. }) => entries.len(),
            _ => 0,
        }
    }

    /// The key of an object's entry at `place`: the sequence that `for (key in object)` walks.
    pub fn object_key(&self, id: SlotId, place: usize) -> (r: Option<Arc<str>>)
        ensures
            match r {
                Some(key) => place < self@.entries(id).len() && place < usize::MAX && (*key)@ == self@.entries(
                    id,
                )[place as int].0,
                None => place >= self@.entries(id).len(),
            },
    {
        match self.slot(id) {
            Some(Slot::Object { entries, .. }) => if place < entries.len() {
                Some(entries.key_at(place).clone())
            } else {
                None
            },
            _ => None,
        }
    }

    /// The value of an object under `key`.
    pub fn object_get(&self, id: SlotId, key: &str) -> (r: Option<RtValue>)
        ensures
            match (r, self@.object_get(id, key@)) {
                (Some(a), Some(b)) => a@ == b,
                (None, None) => true,
                _ => false,
            },
    {
        match self.slot(id) {
            Some(Slot::Object { entries, .. }) => {
                let n = entries.len();
                proof {
                    lemma_entry_views(entries@, key@);
                }
                match entries.get(key) {
                    Some(value) => Some(value.clone()),
                    None => None,
                }
            },
            _ => None,
        }
    }

    /// Whether an object has an entry under `key`.
    pub fn has_entry(&self, id: SlotId, key: &str) -> (r: bool)
        ensures
            r == has_key(self@.entries(id), key@),
    {
        match self.slot(id) {
            Some(Slot::Object { entries, .. }) => {
                let n = entries.len();
                proof {
                    lemma_entry_views(entries@, key@);
                }
                entries.find(key).is_some()
            },
            _ => false,
        }
    }

    /// Replace the value under `key`, or put the key behind the rest.
    pub fn object_store(&mut self, id: SlotId, key: &str, value: RtValue)
        requires
            old(self).wf(),
        ensures
            final(self).wf(),
            final(self).outside() == old(self).outside(),
            final(self)@ == old(self)@.object_store(id, key@, value@),
    {
        broadcast use group_multiset_axioms;

        let ghost before = self@;
        let ghost view = value@;
        if id.0 >= self.slots.len() {
            return;
        }
        match &mut self.slots[id.0] {
            Slot::Object { entries, version } => {
                let ghost held = entry_views(entries@);
                let change = entry_change(entries, key);
                proof {
                    let after = before.object_store(id, key@, view);
                    lemma_put_bytes(held, key@, view);
                    lemma_texts_replaced(before, id, after.slots[id.0 as int]);
                    lemma_put_texts(held, key@, view);
                }
                put_entry(&mut self.texts, entries, key, value);
                *version = version.wrapping_add(1);
                self.used = sum(self.used, change, Ghost(before.bytes()), Ghost(change_of(held, key@)));
            },
            _ => {
                proof {
                    assert(self@.slots =~= before.slots);
                }
                return;
            },
        }
        proof {
            let after = before.object_store(id, key@, view);
            lemma_slots_bytes_update(before.slots, id.0 as int, after.slots[id.0 as int], before.slots.len() as int);
            assert(self@.slots =~= after.slots);
            assert(self.texts@ =~= self@.texts().add(self.outside@));
            lemma_with_wf(before, id, after.slots[id.0 as int]);
        }
    }

    /// Bind `name` in `scope`.
    pub fn declare(&mut self, scope: SlotId, name: &str, value: RtValue)
        requires
            old(self).wf(),
        ensures
            final(self).wf(),
            final(self).outside() == old(self).outside(),
            final(self)@ == old(self)@.declared(scope, name@, value@),
    {
        broadcast use group_multiset_axioms;

        let ghost before = self@;
        let ghost view = value@;
        if scope.0 >= self.slots.len() {
            return;
        }
        match &mut self.slots[scope.0] {
            Slot::Scope(record) => {
                let ghost held = entry_views(record.bindings@);
                let change = entry_change(&record.bindings, name);
                proof {
                    let after = before.declared(scope, name@, view);
                    lemma_put_bytes(held, name@, view);
                    lemma_texts_replaced(before, scope, after.slots[scope.0 as int]);
                    lemma_put_texts(held, name@, view);
                }
                put_entry(&mut self.texts, &mut record.bindings, name, value);
                self.used = sum(self.used, change, Ghost(before.bytes()), Ghost(change_of(held, name@)));
            },
            _ => {
                proof {
                    assert(self@.slots =~= before.slots);
                }
                return;
            },
        }
        proof {
            let after = before.declared(scope, name@, view);
            lemma_slots_bytes_update(
                before.slots,
                scope.0 as int,
                after.slots[scope.0 as int],
                before.slots.len() as int,
            );
            assert(self@.slots =~= after.slots);
            assert(self.texts@ =~= self@.texts().add(self.outside@));
            lemma_with_wf(before, scope, after.slots[scope.0 as int]);
        }
    }

    /// Mark the scope at `id` captured.
    pub(crate) fn set_captured(&mut self, id: SlotId)
        requires
            old(self).wf(),
            old(self)@.slot(id) is Scope,
        ensures
            final(self).wf(),
            final(self).outside() == old(self).outside(),
            final(self)@ == old(self)@.with(
                id,
                SlotView::Scope {
                    bindings: old(self)@.slot(id)->Scope_bindings,
                    parent: old(self)@.slot(id)->Scope_parent,
                    captured: true,
                },
            ),
    {
        broadcast use group_multiset_axioms;

        let ghost before = self@;
        if let Slot::Scope(record) = &mut self.slots[id.0] {
            record.captured = true;
        }
        proof {
            let slot = SlotView::Scope {
                bindings: before.slot(id)->Scope_bindings,
                parent: before.slot(id)->Scope_parent,
                captured: true,
            };
            lemma_slots_bytes_update(before.slots, id.0 as int, slot, before.slots.len() as int);
            assert(self@.slots =~= before.with(id, slot).slots);
            lemma_texts_replaced(before, id, slot);
            assert(self.texts@ =~= self@.texts().add(self.outside@));
            lemma_with_wf(before, id, slot);
        }
    }

    /// Whether a value is truthy.
    pub fn is_truthy(&self, value: &RtValue) -> (r: bool)
        ensures
            r == self@.truthy(value@),
    {
        match value {
            RtValue::Null => false,
            RtValue::Bool(b) => *b,
            RtValue::Number(n) => !n.is_zero(),
            RtValue::String(s, _) => !s.is_empty(),
            RtValue::Array(id) => self.array_len(*id) > 0,
            RtValue::Object(id) => self.object_len(*id) > 0,
            RtValue::Function(_) => true,
        }
    }

    /// A new array.
    pub fn new_array(&mut self, items: Vec<RtValue>) -> (r: RtValue)
        requires
            old(self).wf(),
        ensures
            final(self).wf(),
            final(self).outside() == old(self).outside(),
            r@ == RtView::Array(old(self)@.next()),
            final(self)@ == old(self)@.allocated(SlotView::Array { items: views(items@), version: 0 }),
    {
        RtValue::Array(self.allocate(Slot::Array { items, version: 0 }))
    }

    /// A new object.
    pub fn new_object(&mut self, entries: Table<RtValue>) -> (r: RtValue)
        requires
            old(self).wf(),
        ensures
            final(self).wf(),
            final(self).outside() == old(self).outside(),
            r@ == RtView::Object(old(self)@.next()),
            final(self)@ == old(self)@.allocated(SlotView::Object { entries: entry_views(entries@), version: 0 }),
    {
        RtValue::Object(self.allocate(Slot::Object { entries, version: 0 }))
    }

    /// A new function value that closes over `scope`.
    pub fn new_function(&mut self, definition: usize, scope: SlotId) -> (r: RtValue)
        requires
            old(self).wf(),
        ensures
            final(self).wf(),
            final(self).outside() == old(self).outside(),
            r@ == RtView::Function(old(self)@.next()),
            final(self)@ == old(self)@.allocated(SlotView::Function { definition, scope }),
    {
        RtValue::Function(self.allocate(Slot::Function { definition, scope }))
    }

    /// The definition and the captured scope of a function.
    pub fn function(&self, id: SlotId) -> (r: Option<(usize, SlotId)>)
        ensures
            r == (match self@.slot(id) {
                SlotView::Function { definition, scope } => Some((definition, scope)),
                _ => None,
            }),
    {
        match self.slot(id) {
            Some(Slot::Function { definition, scope }) => Some((*definition, *scope)),
            _ => None,
        }
    }

    /// How many slots there are, in use or free.
    pub fn capacity(&self) -> (r: usize)
        ensures
            r == self@.slots.len(),
    {
        self.slots.len()
    }

    /// How many slots are in use.
    pub fn live(&self) -> (r: usize)
        ensures
            r == live_slots(self@.slots, self@.slots.len() as int),
    {
        let mut n: usize = 0;
        let mut i: usize = 0;
        while i < self.slots.len()
            invariant
                i <= self.slots@.len(),
                n <= i,
                n == live_slots(self@.slots, i as int),
            decreases self.slots.len() - i,
        {
            if !matches!(self.slots[i], Slot::Free) {
                n = n + 1;
            }
            i = i + 1;
        }
        n
    }

    /// Every string that a collection holds directly, in the order of the slots.
    pub fn strings(&self) -> (r: Vec<Arc<str>>)
        ensures
            texts(r@) == held_texts(self@.slots, self@.slots.len() as int),
    {
        let mut found: Vec<Arc<str>> = Vec::new();
        let mut i: usize = 0;
        proof {
            assert(texts(found@) =~= held_texts(self@.slots, 0));
        }
        while i < self.slots.len()
            invariant
                i <= self.slots@.len(),
                texts(found@) == held_texts(self@.slots, i as int),
            decreases self.slots.len() - i,
        {
            let ghost earlier = texts(found@);
            match &self.slots[i] {
                Slot::Array { items, .. } => {
                    let mut k: usize = 0;
                    proof {
                        assert(earlier =~= earlier + texts_of(views(items@), 0));
                    }
                    while k < items.len()
                        invariant
                            k <= items@.len(),
                            texts(found@) == earlier + texts_of(views(items@), k as int),
                        decreases items.len() - k,
                    {
                        push_text(&mut found, &items[k]);
                        k = k + 1;
                        proof {
                            assert(texts(found@) =~= earlier + texts_of(views(items@), k as int));
                        }
                    }
                },
                Slot::Object { entries, .. } => {
                    let mut k: usize = 0;
                    let ghost values = entry_values(entry_views(entries@));
                    proof {
                        assert(earlier =~= earlier + texts_of(values, 0));
                    }
                    while k < entries.len()
                        invariant
                            k <= entries@.len(),
                            values == entry_values(entry_views(entries@)),
                            texts(found@) == earlier + texts_of(values, k as int),
                        decreases entries@.len() - k,
                    {
                        push_text(&mut found, entries.value_at(k));
                        k = k + 1;
                        proof {
                            assert(texts(found@) =~= earlier + texts_of(values, k as int));
                        }
                    }
                },
                _ => {
                    proof {
                        assert(earlier =~= earlier + Seq::<Seq<char>>::empty());
                    }
                },
            }
            i = i + 1;
        }
        found
    }

    /// Whether some array holds itself directly.
    pub fn has_self_containing_array(&self) -> (r: bool)
        ensures
            r == exists|s: int, k: int|
                0 <= s < self@.slots.len() && 0 <= k < self@.elements(SlotId(s as usize)).len()
                    && #[trigger] self@.elements(SlotId(s as usize))[k] == RtView::Array(SlotId(s as usize)),
    {
        let mut i: usize = 0;
        while i < self.slots.len()
            invariant
                i <= self.slots@.len(),
                forall|s: int, k: int|
                    0 <= s < i && 0 <= k < self@.elements(SlotId(s as usize)).len() ==> #[trigger] self@.elements(
                        SlotId(s as usize),
                    )[k] != RtView::Array(SlotId(s as usize)),
            decreases self.slots.len() - i,
        {
            let id = SlotId(i);
            let items = self.elements(id);
            let mut k: usize = 0;
            while k < items.len()
                invariant
                    i < self.slots@.len(),
                    id.0 == i,
                    k <= items@.len(),
                    views(items@) == self@.elements(id),
                    forall|j: int| 0 <= j < k ==> #[trigger] self@.elements(id)[j] != RtView::Array(id),
                decreases items.len() - k,
            {
                if let RtValue::Array(other) = &items[k] {
                    if *other == id {
                        proof {
                            assert(views(items@)[k as int] == RtView::Array(id));
                            assert(self@.elements(SlotId(i as int as usize))[k as int] == RtView::Array(id));
                        }
                        return true;
                    }
                }
                proof {
                    assert(views(items@)[k as int] == items@[k as int]@);
                }
                k = k + 1;
            }
            i = i + 1;
        }
        false
    }
}

impl Default for Heap {
    fn default() -> (r: Self)
        ensures
            r.wf(),
            r.outside() == Multiset::<(Seq<char>, u64)>::empty(),
            r@ == (HeapView { slots: Seq::empty(), free: Seq::empty(), issued: 0 }),
    {
        Heap::new()
    }
}

/// What a list of shared texts says.
pub open spec fn texts(list: Seq<Arc<str>>) -> Seq<Seq<char>> {
    Seq::new(list.len(), |i: int| (*list[i])@)
}

/// The strings among the first `n` values.
pub open spec fn texts_of(values: Seq<RtView>, n: int) -> Seq<Seq<char>>
    decreases n,
{
    if n <= 0 {
        Seq::empty()
    } else {
        match values[n - 1] {
            RtView::String(text, _) => texts_of(values, n - 1).push(text),
            _ => texts_of(values, n - 1),
        }
    }
}

/// The strings that the collections among the first `n` slots hold directly.
pub open spec fn held_texts(slots: Seq<SlotView>, n: int) -> Seq<Seq<char>>
    decreases n,
{
    if n <= 0 {
        Seq::empty()
    } else {
        held_texts(slots, n - 1) + (match slots[n - 1] {
            SlotView::Array { items, .. } => texts_of(items, items.len() as int),
            SlotView::Object { entries, .. } => texts_of(entry_values(entries), entries.len() as int),
            _ => Seq::empty(),
        })
    }
}

fn push_text(found: &mut Vec<Arc<str>>, value: &RtValue)
    ensures
        texts(final(found)@) == (match value@ {
            RtView::String(text, _) => texts(old(found)@).push(text),
            _ => texts(old(found)@),
        }),
{
    if let RtValue::String(text, _) = value {
        found.push(text.clone());
        proof {
            assert(texts(found@) =~= texts(old(found)@).push((**text)@));
        }
    }
}

/// How many of the first `n` slots are in use.
pub open spec fn live_slots(slots: Seq<SlotView>, n: int) -> int
    decreases n,
{
    if n <= 0 {
        0
    } else if slots[n - 1] is Free {
        live_slots(slots, n - 1)
    } else {
        live_slots(slots, n - 1) + 1
    }
}

/// What putting a value under a key adds to a table's count: the whole entry for a new key.
pub open spec fn change_of(entries: Seq<(Seq<char>, RtView)>, key: Seq<char>) -> int {
    if has_key(entries, key) {
        0
    } else {
        ENTRY_BYTES + encode_utf8(key).len() + VALUE_BYTES
    }
}

/// What putting a value under `key` adds to a table's count.
fn entry_change(entries: &Table<RtValue>, key: &str) -> (r: u64)
    ensures
        counts(r, change_of(entry_views(entries@), key@)),
        distinct(entries@),
{
    let n = entries.len();
    proof {
        lemma_entry_views(entries@, key@);
    }
    match entries.find(key) {
        Some(_) => 0,
        None => count_entry(key),
    }
}

proof fn lemma_entries_update(entries: Seq<(Seq<char>, RtView)>, i: int, value: RtView, n: int)
    requires
        0 <= i < entries.len(),
        n <= entries.len(),
    ensures
        entries_bytes(entries.update(i, (entries[i].0, value)), n) == entries_bytes(entries, n),
    decreases n,
{
    if n > 0 {
        lemma_entries_update(entries, i, value, n - 1);
    }
}

proof fn lemma_entries_push(entries: Seq<(Seq<char>, RtView)>, entry: (Seq<char>, RtView), n: int)
    requires
        n <= entries.len(),
    ensures
        entries_bytes(entries.push(entry), n) == entries_bytes(entries, n),
    decreases n,
{
    if n > 0 {
        lemma_entries_push(entries, entry, n - 1);
    }
}

/// What a put adds to a table's count.
pub proof fn lemma_put_bytes(entries: Seq<(Seq<char>, RtView)>, key: Seq<char>, value: RtView)
    ensures
        entries_bytes(put(entries, key, value), put(entries, key, value).len() as int) == entries_bytes(
            entries,
            entries.len() as int,
        ) + change_of(entries, key),
{
    if has_key(entries, key) {
        lemma_entries_update(entries, at(entries, key), value, entries.len() as int);
    } else {
        lemma_entries_push(entries, (key, value), entries.len() as int);
    }
}

proof fn lemma_with_wf(heap: HeapView, id: SlotId, slot: SlotView)
    requires
        heap.wf(),
        id.0 < heap.slots.len(),
        !(heap.slots[id.0 as int] is Free),
        !(slot is Free),
    ensures
        heap.with(id, slot).wf(),
{
    let after = heap.with(id, slot);
    assert forall|s: int| 0 <= s < after.slots.len() && (#[trigger] after.slots[s]) is Free implies exists|i: int|
        0 <= i < after.free.len() && (#[trigger] after.free[i]).0 == s by {
        assert(heap.slots[s] is Free);
        let i = choose|i: int| 0 <= i < heap.free.len() && (#[trigger] heap.free[i]).0 == s;
        assert(after.free[i].0 == s);
    }
}

} // verus!

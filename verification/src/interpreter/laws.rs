//! What holds of values and scopes whatever a Script does.

use vstd::prelude::*;
use crate::interpreter::machine::variables_bound;
use crate::interpreter::attach::attach_entries;
use crate::interpreter::attach::attach_items;
use crate::interpreter::attach::attach_value;
use crate::interpreter::attach::entry_nodes;
use crate::interpreter::attach::item_nodes;
use crate::interpreter::attach::keyed;
use crate::interpreter::attach::nodes;
use crate::interpreter::detach::DetachFailure;
use crate::interpreter::detach::built;
use crate::interpreter::detach::detach_list;
use crate::interpreter::detach::detach_value;
use crate::interpreter::detach::kids;
use crate::interpreter::heap::HeapView;
use crate::interpreter::heap::RtView;
use crate::interpreter::heap::SlotId;
use crate::interpreter::heap::SlotView;
use crate::interpreter::value::ValueView;
use crate::table::at;
use crate::table::distinct;
use crate::table::has_key;
use crate::table::law_put_get;
use crate::table::put;
use crate::table::value_of;

verus! {

/// Whether a slot is in use.
spec fn live(heap: HeapView, s: int) -> bool {
    0 <= s < heap.slots.len() && !(heap.slots[s] is Free)
}

/// Whether everything in use in one heap is as it was in another.
spec fn keeps(before: HeapView, after: HeapView) -> bool {
    before.slots.len() <= after.slots.len() && forall|s: int|
        live(before, s) ==> (#[trigger] after.slots[s]) == before.slots[s]
}

proof fn lemma_allocated(heap: HeapView, slot: SlotView)
    requires
        heap.wf(),
        !(slot is Free),
        heap.slots.len() < usize::MAX,
    ensures
        heap.allocated(slot).wf(),
        keeps(heap, heap.allocated(slot)),
        heap.allocated(slot).slots.len() <= heap.slots.len() + 1,
        heap.allocated(slot).slot(heap.next()) == slot,
        !live(heap, heap.next().0 as int),
        live(heap.allocated(slot), heap.next().0 as int),
{
    let after = heap.allocated(slot);
    if heap.free.len() > 0 {
        let last = heap.free.last();
        assert(heap.free[heap.free.len() - 1] == last);
        assert forall|i: int| 0 <= i < after.free.len() implies (#[trigger] after.free[i]).0 < after.slots.len()
            && after.slots[after.free[i].0 as int] is Free by {
            assert(heap.free[i] == after.free[i]);
            assert(heap.free[i] != heap.free[heap.free.len() - 1]);
        }
        assert forall|i: int, j: int| 0 <= i < after.free.len() && 0 <= j < after.free.len() && i != j implies (
        #[trigger] after.free[i]) != (#[trigger] after.free[j]) by {
            assert(heap.free[i] != heap.free[j]);
        }
        assert forall|s: int| 0 <= s < after.slots.len() && (#[trigger] after.slots[s]) is Free implies exists|i: int|
            0 <= i < after.free.len() && (#[trigger] after.free[i]).0 == s by {
            assert(heap.slots[s] is Free);
            let i = choose|i: int| 0 <= i < heap.free.len() && (#[trigger] heap.free[i]).0 == s;
            assert(i != heap.free.len() - 1);
            assert(after.free[i].0 == s);
        }
    } else {
        assert forall|s: int| 0 <= s < after.slots.len() && (#[trigger] after.slots[s]) is Free implies exists|i: int|
            0 <= i < after.free.len() && (#[trigger] after.free[i]).0 == s by {
            assert(s < heap.slots.len());
            assert(heap.slots[s] is Free);
        }
    }
}

proof fn lemma_grows(heap: HeapView, value: ValueView)
    requires
        heap.wf(),
        heap.slots.len() + nodes(value) <= usize::MAX,
    ensures
        attach_value(heap, value).0.wf(),
        keeps(heap, attach_value(heap, value).0),
        attach_value(heap, value).0.slots.len() <= heap.slots.len() + nodes(value),
    decreases value, 0int,
{
    match value {
        ValueView::Array(items) => {
            lemma_items_grow(heap, items, 0);
            let (after, parts) = attach_items(heap, items, 0);
            lemma_allocated(after, SlotView::Array { items: parts, version: 0 });
        },
        ValueView::Object(entries) => {
            lemma_entries_grow(heap, entries, 0);
            let (after, parts) = attach_entries(heap, entries, 0);
            lemma_allocated(after, SlotView::Object { entries: keyed(entries, parts), version: 0 });
        },
        _ => {},
    }
}

proof fn lemma_items_grow(heap: HeapView, items: Seq<ValueView>, k: int)
    requires
        heap.wf(),
        0 <= k <= items.len(),
        heap.slots.len() + item_nodes(items, items.len() as int) - item_nodes(items, k) <= usize::MAX,
    ensures
        attach_items(heap, items, k).0.wf(),
        keeps(heap, attach_items(heap, items, k).0),
        attach_items(heap, items, k).0.slots.len() <= heap.slots.len() + item_nodes(items, items.len() as int)
            - item_nodes(items, k),
        attach_items(heap, items, k).1.len() == items.len() - k,
    decreases items, items.len() - k,
{
    if k < items.len() {
        lemma_item_nodes(items, k + 1, items.len() as int);
        lemma_grows(heap, items[k]);
        let (one, _) = attach_value(heap, items[k]);
        lemma_items_grow(one, items, k + 1);
    }
}

proof fn lemma_item_nodes(items: Seq<ValueView>, k: int, n: int)
    requires
        0 <= k <= n <= items.len(),
    ensures
        item_nodes(items, k) <= item_nodes(items, n),
    decreases n,
{
    if k < n {
        lemma_item_nodes(items, k, n - 1);
    }
}

proof fn lemma_entries_grow(heap: HeapView, entries: Seq<(Seq<char>, ValueView)>, k: int)
    requires
        heap.wf(),
        0 <= k <= entries.len(),
        heap.slots.len() + entry_nodes(entries, entries.len() as int) - entry_nodes(entries, k) <= usize::MAX,
    ensures
        attach_entries(heap, entries, k).0.wf(),
        keeps(heap, attach_entries(heap, entries, k).0),
        attach_entries(heap, entries, k).0.slots.len() <= heap.slots.len() + entry_nodes(entries, entries.len() as int)
            - entry_nodes(entries, k),
        attach_entries(heap, entries, k).1.len() == entries.len() - k,
    decreases entries, entries.len() - k,
{
    if k < entries.len() {
        lemma_entry_nodes(entries, k + 1, entries.len() as int);
        lemma_grows(heap, entries[k].1);
        let (one, _) = attach_value(heap, entries[k].1);
        lemma_entries_grow(one, entries, k + 1);
    }
}

proof fn lemma_entry_nodes(entries: Seq<(Seq<char>, ValueView)>, k: int, n: int)
    requires
        0 <= k <= n <= entries.len(),
    ensures
        entry_nodes(entries, k) <= entry_nodes(entries, n),
    decreases n,
{
    if k < n {
        lemma_entry_nodes(entries, k, n - 1);
    }
}

/// Whether nothing on a path came into use between two heaps.
spec fn apart(path: Set<int>, before: HeapView, after: HeapView) -> bool {
    forall|s: int| #[trigger] path.contains(s) ==> !(live(after, s) && !live(before, s))
}

proof fn lemma_detaches(heap: HeapView, value: ValueView, later: HeapView, path: Set<int>)
    requires
        heap.wf(),
        heap.slots.len() + nodes(value) <= usize::MAX,
        keeps(attach_value(heap, value).0, later),
        apart(path, heap, attach_value(heap, value).0),
    ensures
        detach_value(later, attach_value(heap, value).1, path) == Ok::<ValueView, DetachFailure>(value),
    decreases value, 0int,
{
    let (whole, handle) = attach_value(heap, value);
    lemma_grows(heap, value);
    match value {
        ValueView::Array(items) => {
            lemma_items_grow(heap, items, 0);
            let (after, parts) = attach_items(heap, items, 0);
            let slot = SlotView::Array { items: parts, version: 0 };
            lemma_allocated(after, slot);
            let id = after.next();
            assert(later.slot(id) == slot);
            assert(apart(path.insert(id.0 as int), heap, after)) by {
                assert forall|s: int| #[trigger] path.insert(id.0 as int).contains(s) implies !(live(after, s)
                    && !live(heap, s)) by {
                    if s != id.0 as int {
                        assert(path.contains(s));
                        assert(live(after, s) ==> live(whole, s));
                    }
                }
            }
            assert(keeps(after, later));
            assert(parts.skip(0) =~= parts);
            lemma_items_detach(heap, items, 0, parts, later, path.insert(id.0 as int));
            assert(items.skip(0) =~= items);
            assert(kids(later, id) == parts);
        },
        ValueView::Object(entries) => {
            lemma_entries_grow(heap, entries, 0);
            let (after, parts) = attach_entries(heap, entries, 0);
            let slot = SlotView::Object { entries: keyed(entries, parts), version: 0 };
            lemma_allocated(after, slot);
            let id = after.next();
            assert(later.slot(id) == slot);
            assert(apart(path.insert(id.0 as int), heap, after)) by {
                assert forall|s: int| #[trigger] path.insert(id.0 as int).contains(s) implies !(live(after, s)
                    && !live(heap, s)) by {
                    if s != id.0 as int {
                        assert(path.contains(s));
                        assert(live(after, s) ==> live(whole, s));
                    }
                }
            }
            assert(keeps(after, later));
            assert(parts.skip(0) =~= parts);
            lemma_entries_detach(heap, entries, 0, parts, later, path.insert(id.0 as int));
            assert(kids(later, id) =~= parts);
            let values = Seq::new(entries.len(), |i: int| entries[i].1);
            assert(values.skip(0) =~= values);
            assert(built(later, id, values)->Object_0 =~= entries);
        },
        _ => {},
    }
}

proof fn lemma_items_detach(
    heap: HeapView,
    items: Seq<ValueView>,
    k: int,
    parts: Seq<RtView>,
    later: HeapView,
    path: Set<int>,
)
    requires
        heap.wf(),
        0 <= k <= items.len(),
        parts.len() == items.len(),
        heap.slots.len() + item_nodes(items, items.len() as int) - item_nodes(items, k) <= usize::MAX,
        parts.skip(k) == attach_items(heap, items, k).1,
        keeps(attach_items(heap, items, k).0, later),
        apart(path, heap, attach_items(heap, items, k).0),
    ensures
        detach_list(later, parts, k, path) == Ok::<Seq<ValueView>, DetachFailure>(items.skip(k)),
    decreases items, items.len() - k,
{
    if k < items.len() {
        lemma_item_nodes(items, k + 1, items.len() as int);
        lemma_items_grow(heap, items, k);
        lemma_grows(heap, items[k]);
        let (one, first) = attach_value(heap, items[k]);
        lemma_items_grow(one, items, k + 1);
        let (all, rest) = attach_items(one, items, k + 1);
        assert(parts.skip(k)[0] == first);
        assert(parts[k] == first);
        assert(parts.skip(k + 1) =~= rest) by {
            assert(parts.skip(k).skip(1) =~= parts.skip(k + 1));
            assert((seq![first] + rest).skip(1) =~= rest);
        }
        assert forall|s: int| live(one, s) implies (#[trigger] later.slots[s]) == one.slots[s] by {
            assert(all.slots[s] == one.slots[s]);
        }
        assert forall|s: int| #[trigger] path.contains(s) implies !(live(one, s) && !live(heap, s)) by {
            if live(one, s) {
                assert(all.slots[s] == one.slots[s]);
            }
        }
        lemma_detaches(heap, items[k], later, path);
        assert forall|s: int| #[trigger] path.contains(s) implies !(live(all, s) && !live(one, s)) by {
            if live(heap, s) {
                assert(one.slots[s] == heap.slots[s]);
            }
        }
        lemma_items_detach(one, items, k + 1, parts, later, path);
        assert(items.skip(k) =~= seq![items[k]] + items.skip(k + 1));
    } else {
        assert(items.skip(k) =~= Seq::empty());
    }
}

proof fn lemma_entries_detach(
    heap: HeapView,
    entries: Seq<(Seq<char>, ValueView)>,
    k: int,
    parts: Seq<RtView>,
    later: HeapView,
    path: Set<int>,
)
    requires
        heap.wf(),
        0 <= k <= entries.len(),
        parts.len() == entries.len(),
        heap.slots.len() + entry_nodes(entries, entries.len() as int) - entry_nodes(entries, k) <= usize::MAX,
        parts.skip(k) == attach_entries(heap, entries, k).1,
        keeps(attach_entries(heap, entries, k).0, later),
        apart(path, heap, attach_entries(heap, entries, k).0),
    ensures
        detach_list(later, parts, k, path) == Ok::<Seq<ValueView>, DetachFailure>(
            Seq::new(entries.len(), |i: int| entries[i].1).skip(k),
        ),
    decreases entries, entries.len() - k,
{
    let values = Seq::new(entries.len(), |i: int| entries[i].1);
    if k < entries.len() {
        lemma_entry_nodes(entries, k + 1, entries.len() as int);
        lemma_entries_grow(heap, entries, k);
        lemma_grows(heap, entries[k].1);
        let (one, first) = attach_value(heap, entries[k].1);
        lemma_entries_grow(one, entries, k + 1);
        let (all, rest) = attach_entries(one, entries, k + 1);
        assert(parts.skip(k)[0] == first);
        assert(parts[k] == first);
        assert(parts.skip(k + 1) =~= rest) by {
            assert(parts.skip(k).skip(1) =~= parts.skip(k + 1));
            assert((seq![first] + rest).skip(1) =~= rest);
        }
        assert forall|s: int| live(one, s) implies (#[trigger] later.slots[s]) == one.slots[s] by {
            assert(all.slots[s] == one.slots[s]);
        }
        assert forall|s: int| #[trigger] path.contains(s) implies !(live(one, s) && !live(heap, s)) by {
            if live(one, s) {
                assert(all.slots[s] == one.slots[s]);
            }
        }
        lemma_detaches(heap, entries[k].1, later, path);
        assert forall|s: int| #[trigger] path.contains(s) implies !(live(all, s) && !live(one, s)) by {
            if live(heap, s) {
                assert(one.slots[s] == heap.slots[s]);
            }
        }
        lemma_entries_detach(one, entries, k + 1, parts, later, path);
        assert(values.skip(k) =~= seq![values[k]] + values.skip(k + 1));
    } else {
        assert(values.skip(k) =~= Seq::empty());
    }
}

/// A value that is copied into a heap and out again is the value.
pub proof fn law_attach_detach(heap: HeapView, value: ValueView)
    requires
        heap.wf(),
        heap.slots.len() + nodes(value) <= usize::MAX,
    ensures
        detach_value(attach_value(heap, value).0, attach_value(heap, value).1, Set::empty()) == Ok::<
            ValueView,
            DetachFailure,
        >(value),
{
    lemma_grows(heap, value);
    lemma_detaches(heap, value, attach_value(heap, value).0, Set::empty());
}

/// A name that was declared in a scope reads back from it, and every other name of the scope is as it
/// was.
pub proof fn law_declared_is_found(heap: HeapView, scope: SlotId, name: Seq<char>, value: RtView, other: Seq<char>)
    requires
        heap.slot(scope) is Scope,
        distinct(heap.bindings(scope)),
    ensures
        heap.declared(scope, name, value).lookup(scope, name) == Some(value),
        other != name ==> value_of(heap.declared(scope, name, value).bindings(scope), other) == value_of(
            heap.bindings(scope),
            other,
        ),
{
    let after = heap.declared(scope, name, value);
    let bindings = heap.bindings(scope);
    law_put_get(bindings, name, value, name);
    law_put_get(bindings, name, value, other);
    assert(after.bindings(scope) == put(bindings, name, value));
    assert(has_key(after.bindings(scope), name));
    assert(after.slots.len() == heap.slots.len());
}

/// An assignment changes the innermost binding of the name, and the name then reads as the value.
pub proof fn law_assigned_is_found(heap: HeapView, scope: SlotId, name: Seq<char>, value: RtView)
    requires
        heap.assigned(scope, name, value) is Some,
        heap.resolve(scope, name) matches Some(owner) ==> distinct(heap.bindings(owner)),
    ensures
        heap.lookup(scope, name) is Some,
        heap.assigned(scope, name, value)->0.resolve(scope, name) == heap.resolve(scope, name),
        heap.assigned(scope, name, value)->0.lookup(scope, name) == Some(value),
{
    let owner = heap.resolve(scope, name)->0;
    let after = heap.declared(owner, name, value);
    lemma_owner(heap, scope, name, heap.slots.len());
    law_put_get(heap.bindings(owner), name, value, name);
    lemma_same_owner(heap, owner, scope, name, value, heap.slots.len());
}

proof fn lemma_owner(heap: HeapView, scope: SlotId, name: Seq<char>, fuel: nat)
    requires
        heap.resolve_within(scope, name, fuel) is Some,
    ensures
        heap.slot(heap.resolve_within(scope, name, fuel)->0) is Scope,
        has_key(heap.bindings(heap.resolve_within(scope, name, fuel)->0), name),
    decreases fuel,
{
    if let SlotView::Scope { bindings, parent, .. } = heap.slot(scope) {
        if !has_key(bindings, name) {
            lemma_owner(heap, parent->0, name, (fuel - 1) as nat);
        }
    }
}

proof fn lemma_same_owner(heap: HeapView, owner: SlotId, scope: SlotId, name: Seq<char>, value: RtView, fuel: nat)
    requires
        heap.slot(owner) is Scope,
        has_key(heap.bindings(owner), name),
    ensures
        heap.declared(owner, name, value).resolve_within(scope, name, fuel) == heap.resolve_within(scope, name, fuel),
    decreases fuel,
{
    let after = heap.declared(owner, name, value);
    if fuel > 0 {
        crate::table::lemma_put_keys(heap.bindings(owner), name, value);
        assert(has_key(put(heap.bindings(owner), name, value), name)) by {
            let bindings = heap.bindings(owner);
            let i = at(bindings, name);
            assert(bindings[i].0 == name);
            assert(put(bindings, name, value)[i].0 == name);
        }
        if let SlotView::Scope { bindings, parent, .. } = heap.slot(scope) {
            if let Some(outer) = parent {
                lemma_same_owner(heap, owner, outer, name, value, (fuel - 1) as nat);
            }
        }
    }
}

/// A scope that a function captured outlives its block, with its bindings; one that no function
/// captured is given back.
pub proof fn law_captured_scopes_survive(heap: HeapView, scope: SlotId)
    requires
        heap.slot(scope) is Scope,
    ensures
        heap.captured(scope) ==> heap.scope_released(scope) == heap,
        !heap.captured(scope) ==> heap.scope_released(scope).slot(scope) is Free && heap.scope_released(scope).free
            == heap.free.push(scope),
{
}

/// Creating a function captures the scope that it is created in, and changes no binding.
pub proof fn law_functions_capture(heap: HeapView, scope: SlotId)
    requires
        heap.slot(scope) is Scope,
    ensures
        heap.marked(scope).captured(scope),
        forall|id: SlotId| #[trigger] heap.marked(scope).bindings(id) == heap.bindings(id),
{
    lemma_marks(heap, scope, heap.slots.len());
}

proof fn lemma_marks(heap: HeapView, scope: SlotId, fuel: nat)
    ensures
        heap.slot(scope) is Scope && fuel > 0 ==> heap.mark_within(scope, fuel).captured(scope),
        forall|id: SlotId| #[trigger] heap.mark_within(scope, fuel).bindings(id) == heap.bindings(id),
        forall|id: SlotId| heap.captured(id) ==> #[trigger] heap.mark_within(scope, fuel).captured(id),
    decreases fuel,
{
    if fuel > 0 {
        if let SlotView::Scope { bindings, parent, captured } = heap.slot(scope) {
            if !captured {
                let marked = heap.with(scope, SlotView::Scope { bindings, parent, captured: true });
                assert(marked.captured(scope));
                assert forall|id: SlotId| #[trigger] marked.bindings(id) == heap.bindings(id) by {}
                assert forall|id: SlotId| heap.captured(id) implies #[trigger] marked.captured(id) by {}
                let last = heap.mark_within(scope, fuel);
                match parent {
                    Some(outer) => {
                        lemma_marks(marked, outer, (fuel - 1) as nat);
                        assert(last == marked.mark_within(outer, (fuel - 1) as nat));
                    },
                    None => {
                        assert(last == marked);
                    },
                }
                assert(last.captured(scope));
                assert forall|id: SlotId| #[trigger] last.bindings(id) == heap.bindings(id) by {
                    assert(marked.bindings(id) == heap.bindings(id));
                }
                assert forall|id: SlotId| heap.captured(id) implies #[trigger] last.captured(id) by {
                    assert(marked.captured(id));
                }
            }
        }
    }
}

/// How many collections the first `n` variables are made of.
pub open spec fn variable_nodes(variables: Seq<(Seq<char>, ValueView)>, n: int) -> nat
    decreases n,
{
    if n <= 0 {
        0
    } else {
        variable_nodes(variables, n - 1) + nodes(variables[n - 1].1)
    }
}

proof fn lemma_variables_kept(heap: HeapView, scope: SlotId, variables: Seq<(Seq<char>, ValueView)>, n: int, i: int)
    requires
        heap.wf(),
        heap.slot(scope) is Scope,
        distinct(heap.bindings(scope)),
        0 <= n <= variables.len(),
        heap.slots.len() + variable_nodes(variables, n) <= usize::MAX,
        forall|a: int, b: int| 0 <= a < b < variables.len() ==> (#[trigger] variables[a]).0 != (#[trigger] variables[b]).0,
    ensures
        variables_bound(heap, scope, variables, n).wf(),
        variables_bound(heap, scope, variables, n).slot(scope) is Scope,
        distinct(variables_bound(heap, scope, variables, n).bindings(scope)),
        variables_bound(heap, scope, variables, n).slots.len() <= heap.slots.len() + variable_nodes(variables, n),
        0 <= i < n ==> value_of(variables_bound(heap, scope, variables, n).bindings(scope), variables[i].0) == Some(
            attach_value(variables_bound(heap, scope, variables, i), variables[i].1).1,
        ),
    decreases n,
{
    if n > 0 {
        lemma_variables_kept(heap, scope, variables, n - 1, i);
        let before = variables_bound(heap, scope, variables, n - 1);
        lemma_grows(before, variables[n - 1].1);
        let (after, value) = attach_value(before, variables[n - 1].1);
        assert(live(before, scope.0 as int));
        assert(after.slots[scope.0 as int] == before.slots[scope.0 as int]);
        assert(after.slot(scope) == before.slot(scope));
        let name = variables[n - 1].0;
        if let SlotView::Scope { bindings, parent, captured } = after.slot(scope) {
            crate::table::lemma_put_distinct(bindings, name, value);
            if 0 <= i < n {
                law_put_get(bindings, name, value, variables[i].0);
            }
            crate::check::running::lemma_replaced_wf(
                after,
                scope,
                SlotView::Scope { bindings: put(bindings, name, value), parent, captured },
            );
        }
    }
}

/// A Script starts with each of its starting variables bound to a copy of its value.
pub proof fn law_starting_variables(heap: HeapView, scope: SlotId, variables: Seq<(Seq<char>, ValueView)>, i: int)
    requires
        heap.wf(),
        heap.slot(scope) is Scope,
        distinct(heap.bindings(scope)),
        0 <= i < variables.len(),
        heap.slots.len() + variable_nodes(variables, variables.len() as int) <= usize::MAX,
        forall|a: int, b: int| 0 <= a < b < variables.len() ==> (#[trigger] variables[a]).0 != (#[trigger] variables[b]).0,
    ensures
        variables_bound(heap, scope, variables, variables.len() as int).lookup(scope, variables[i].0) matches Some(value) && (
        match variables[i].1 {
            ValueView::Null => value == RtView::Null,
            ValueView::Bool(b) => value == RtView::Bool(b),
            ValueView::Number(n) => value == RtView::Number(n),
            ValueView::String(s) => value matches RtView::String(text, _) && text == s,
            ValueView::Array(_) => value is Array,
            ValueView::Object(_) => value is Object,
        }) && exists|then: HeapView|
            #[trigger] detach_value(then, value, Set::empty()) == Ok::<ValueView, DetachFailure>(variables[i].1),
{
    let n = variables.len() as int;
    lemma_variables_kept(heap, scope, variables, n, i);
    lemma_variable_nodes(variables, i, n);
    lemma_variable_nodes(variables, i + 1, n);
    lemma_variables_kept(heap, scope, variables, i, i);
    let before = variables_bound(heap, scope, variables, i);
    law_attach_detach(before, variables[i].1);
    let whole = variables_bound(heap, scope, variables, n);
    assert(has_key(whole.bindings(scope), variables[i].0));
    assert(whole.slots.len() > 0);
}

proof fn lemma_variable_nodes(variables: Seq<(Seq<char>, ValueView)>, k: int, n: int)
    requires
        0 <= k <= n <= variables.len(),
    ensures
        variable_nodes(variables, k) <= variable_nodes(variables, n),
    decreases n,
{
    if k < n {
        lemma_variable_nodes(variables, k, n - 1);
    }
}

} // verus!

//! That every number of an execution is finite, and so is every number that it hands out.

use vstd::prelude::*;
use crate::ast::AccessKind;
use crate::ast::BlockId;
use crate::ast::ExprId;
use crate::ast::ExpressionKind;
use crate::ast::Function;
use crate::ast::Literal;
use crate::ast::Program;
use crate::ast::StatementKind;
use crate::interpreter::attach::attach_entries;
use crate::interpreter::attach::attach_items;
use crate::interpreter::attach::attach_value;
use crate::interpreter::attach::keyed;
use crate::interpreter::detach::built;
use crate::interpreter::detach::detach_list;
use crate::interpreter::detach::detach_slot;
use crate::interpreter::detach::detach_value;
use crate::interpreter::detach::kids;
use crate::interpreter::detach::lemma_unvisited;
use crate::interpreter::detach::unvisited;
use crate::interpreter::heap::HeapView;
use crate::interpreter::heap::RtView;
use crate::interpreter::heap::SlotId;
use crate::interpreter::heap::SlotView;
use crate::interpreter::heap::bumped;
use crate::interpreter::heap::entry_values;
use crate::interpreter::heap::slot_values;
use crate::interpreter::machine::resumed;
use crate::interpreter::machine::started;
use crate::interpreter::machine::variables_bound;
use crate::interpreter::semantics::ArgumentView;
use crate::interpreter::semantics::Chain;
use crate::interpreter::semantics::FnAt;
use crate::interpreter::semantics::Frame;
use crate::interpreter::semantics::LoopFrame;
use crate::interpreter::semantics::LoopKind;
use crate::interpreter::semantics::MachineView;
use crate::interpreter::semantics::Made;
use crate::interpreter::semantics::Meter;
use crate::interpreter::semantics::Site;
use crate::interpreter::semantics::StmtAt;
use crate::interpreter::semantics::StopView;
use crate::interpreter::semantics::Turn;
use crate::interpreter::semantics::added;
use crate::interpreter::semantics::binary;
use crate::interpreter::semantics::bound;
use crate::interpreter::semantics::chain_base;
use crate::interpreter::semantics::chain_links;
use crate::interpreter::semantics::definition_of;
use crate::interpreter::semantics::detached_arguments;
use crate::interpreter::semantics::element;
use crate::interpreter::semantics::iterated;
use crate::interpreter::semantics::literal_entries;
use crate::interpreter::semantics::loop_body;
use crate::interpreter::semantics::negated_bits;
use crate::interpreter::semantics::plain_number;
use crate::interpreter::semantics::statement_at;
use crate::interpreter::semantics::unary;
use crate::interpreter::value::ValueView;
use crate::number::ONE;
use crate::number::is_finite_bits;
use crate::number::magnitude;
use crate::number::position_of;
use crate::table::at;
use crate::table::distinct;
use crate::table::has_key;
use crate::table::lemma_put_distinct;
use crate::table::put;
use crate::table::value_of;

verus! {

/// Whether a value is one that an execution makes: its numbers are finite, and no object has a key
/// twice.
pub open spec fn regular(value: ValueView) -> bool
    decreases value,
{
    match value {
        ValueView::Number(bits) => is_finite_bits(bits),
        ValueView::Array(items) => forall|i: int| 0 <= i < items.len() ==> regular(#[trigger] items[i]),
        ValueView::Object(entries) => distinct(entries) && forall|i: int|
            0 <= i < entries.len() ==> regular((#[trigger] entries[i]).1),
        _ => true,
    }
}

/// Whether every number that a Program is written with is finite.
pub open spec fn finite_literals(p: Program) -> bool {
    forall|id: ExprId|
        (#[trigger] p.expr(id)).kind matches ExpressionKind::Literal(Literal::Number(n)) ==> is_finite_bits(n.bits())
}

/// Whether a value's number, if it is one, is finite.
pub open spec fn finite(value: RtView) -> bool {
    value matches RtView::Number(bits) ==> is_finite_bits(bits)
}

pub open spec fn all_finite(values: Seq<RtView>) -> bool {
    forall|i: int| 0 <= i < values.len() ==> finite(#[trigger] values[i])
}

/// Whether the numbers that a slot holds are finite, and no key of it stands twice.
pub open spec fn fine_slot(slot: SlotView) -> bool {
    all_finite(slot_values(slot)) && (slot matches SlotView::Object { entries, .. } ==> distinct(entries))
}

/// Whether every number in a heap is finite, and no object has a key twice.
pub open spec fn sound(heap: HeapView) -> bool {
    &&& forall|i: int| 0 <= i < heap.free.len() ==> (#[trigger] heap.free[i]).0 < heap.slots.len()
    &&& forall|id: SlotId| fine_slot(#[trigger] heap.slot(id))
}

/// Whether every number of a machine is finite, in its heap and on its stack, and no object has a key
/// twice.
pub open spec fn orderly(m: MachineView) -> bool {
    sound(m.heap) && all_finite(m.values)
}

/// Whether what an execution hands out is regular.
pub open spec fn hands_out(stop: StopView) -> bool {
    match stop {
        StopView::Finished(value) => regular(value),
        StopView::HostCall { arguments, .. } => forall|i: int|
            0 <= i < arguments.len() ==> regular((#[trigger] arguments[i]).value),
        _ => true,
    }
}

/// Whether a turn leads to an orderly machine, and hands out regular values only.
pub open spec fn leads(turn: Turn) -> bool {
    match turn {
        Turn::Go(after) => orderly(after),
        Turn::Halt(after, stop) => orderly(after) && hands_out(stop),
        Turn::Fail(_) => true,
    }
}

proof fn lemma_put(entries: Seq<(Seq<char>, RtView)>, key: Seq<char>, value: RtView)
    requires
        all_finite(entry_values(entries)),
        finite(value),
    ensures
        all_finite(entry_values(put(entries, key, value))),
        distinct(entries) ==> distinct(put(entries, key, value)),
{
    if distinct(entries) {
        lemma_put_distinct(entries, key, value);
    }
    let after = put(entries, key, value);
    assert forall|i: int| 0 <= i < entry_values(after).len() implies finite(#[trigger] entry_values(after)[i]) by {
        if i < entries.len() {
            assert(finite(entry_values(entries)[i]));
        }
    }
}

proof fn lemma_found(entries: Seq<(Seq<char>, RtView)>, key: Seq<char>)
    requires
        all_finite(entry_values(entries)),
    ensures
        value_of(entries, key) matches Some(value) ==> finite(value),
{
    if has_key(entries, key) {
        assert(finite(entry_values(entries)[at(entries, key)]));
    }
}

/// A slot that is replaced by a fine one.
proof fn lemma_replaced(heap: HeapView, place: SlotId, slot: SlotView)
    requires
        sound(heap),
        place.0 < heap.slots.len(),
        fine_slot(slot),
    ensures
        sound(heap.with(place, slot)),
{
    let after = heap.with(place, slot);
    assert forall|id: SlotId| fine_slot(#[trigger] after.slot(id)) by {
        assert(fine_slot(heap.slot(id)));
        assert(after.slot(id) == heap.slot(id) || after.slot(id) == slot);
    }
}

proof fn lemma_declared(heap: HeapView, scope: SlotId, name: Seq<char>, value: RtView)
    requires
        sound(heap),
        finite(value),
    ensures
        sound(heap.declared(scope, name, value)),
{
    if let SlotView::Scope { bindings, parent, captured } = heap.slot(scope) {
        assert(fine_slot(heap.slot(scope)));
        lemma_put(bindings, name, value);
        lemma_replaced(heap, scope, SlotView::Scope { bindings: put(bindings, name, value), parent, captured });
    }
}

proof fn lemma_allocated(heap: HeapView, slot: SlotView)
    requires
        sound(heap),
        fine_slot(slot),
    ensures
        sound(heap.allocated(slot)),
{
    let after = heap.allocated(slot);
    if heap.free.len() > 0 {
        assert(heap.free[heap.free.len() - 1].0 < heap.slots.len());
        assert forall|i: int| 0 <= i < after.free.len() implies (#[trigger] after.free[i]).0 < after.slots.len() by {
            assert(after.free[i] == heap.free[i]);
        }
    }
    assert forall|id: SlotId| fine_slot(#[trigger] after.slot(id)) by {
        assert(fine_slot(heap.slot(id)));
        assert(after.slot(id) == heap.slot(id) || after.slot(id) == slot);
    }
}

proof fn lemma_marked(heap: HeapView, scope: SlotId, fuel: nat)
    requires
        sound(heap),
    ensures
        sound(heap.mark_within(scope, fuel)),
    decreases fuel,
{
    if fuel > 0 {
        if let SlotView::Scope { bindings, parent, captured } = heap.slot(scope) {
            if !captured {
                let slot = SlotView::Scope { bindings, parent, captured: true };
                assert(fine_slot(heap.slot(scope)));
                lemma_replaced(heap, scope, slot);
                if let Some(outer) = parent {
                    lemma_marked(heap.with(scope, slot), outer, (fuel - 1) as nat);
                }
            }
        }
    }
}

proof fn lemma_released(heap: HeapView, scope: SlotId)
    requires
        sound(heap),
    ensures
        sound(heap.scope_released(scope)),
{
    if !heap.captured(scope) && !(heap.slot(scope) is Free) {
        let after = heap.release(scope);
        lemma_replaced(heap, scope, SlotView::Free);
        assert forall|i: int| 0 <= i < after.free.len() implies (#[trigger] after.free[i]).0 < after.slots.len() by {
            if i < heap.free.len() {
                assert(after.free[i] == heap.free[i]);
            }
        }
        assert forall|id: SlotId| fine_slot(#[trigger] after.slot(id)) by {
            let freed = heap.with(scope, SlotView::Free);
            assert(after.slot(id) == freed.slot(id));
            assert(fine_slot(freed.slot(id)));
        }
    }
}

proof fn lemma_issued(heap: HeapView)
    requires
        sound(heap),
    ensures
        sound(heap.issue()),
{
    let after = heap.issue();
    assert forall|id: SlotId| fine_slot(#[trigger] after.slot(id)) by {
        assert(after.slot(id) == heap.slot(id));
        assert(fine_slot(heap.slot(id)));
    }
}

proof fn lemma_text_made(m: MachineView)
    requires
        orderly(m),
    ensures
        orderly(m.text_made()),
{
    lemma_issued(m.heap);
}

proof fn lemma_give(m: MachineView, value: RtView)
    requires
        orderly(m),
        finite(value),
    ensures
        orderly(m.give(value)),
{
    assert forall|i: int| 0 <= i < m.give(value).values.len() implies finite(#[trigger] m.give(value).values[i]) by {
        if i < m.values.len() {
            assert(m.give(value).values[i] == m.values[i]);
        }
    }
}

proof fn lemma_pop(m: MachineView)
    requires
        orderly(m),
    ensures
        orderly(m.pop()),
        finite(m.top()),
{
    if m.values.len() > 0 {
        assert(finite(m.values[m.values.len() - 1]));
        assert forall|i: int| 0 <= i < m.pop().values.len() implies finite(#[trigger] m.pop().values[i]) by {
            assert(m.pop().values[i] == m.values[i]);
        }
    }
}

proof fn lemma_pops(m: MachineView, n: int)
    requires
        orderly(m),
        0 <= n,
    ensures
        orderly(m.pops(n)),
        all_finite(m.tops(n)),
{
    assert forall|i: int| 0 <= i < m.pops(n).values.len() implies finite(#[trigger] m.pops(n).values[i]) by {
        assert(m.pops(n).values[i] == m.values[i]);
    }
    assert forall|i: int| 0 <= i < m.tops(n).len() implies finite(#[trigger] m.tops(n)[i]) by {
        assert(m.tops(n)[i] == m.values[m.below(n) + i]);
    }
}

proof fn lemma_cut(m: MachineView, n: int)
    requires
        orderly(m),
        0 <= n,
    ensures
        orderly(m.cut(n)),
{
    if n <= m.values.len() {
        assert forall|i: int| 0 <= i < m.cut(n).values.len() implies finite(#[trigger] m.cut(n).values[i]) by {
            assert(m.cut(n).values[i] == m.values[i]);
        }
    }
}

proof fn lemma_function_made(m: MachineView, at: FnAt)
    requires
        orderly(m),
    ensures
        orderly(m.function_made(at)),
{
    let definition = definition_of(m.functions, at, 0);
    lemma_marked(m.heap, m.scope, m.heap.slots.len());
    lemma_allocated(
        m.heap.marked(m.scope),
        SlotView::Function { definition: definition as usize, scope: m.scope },
    );
}

proof fn lemma_hoisted(p: Program, m: MachineView, block: Option<BlockId>, k: int)
    requires
        orderly(m),
        0 <= k,
    ensures
        orderly(m.hoisted(p, block, k)),
    decreases p.statements_of(block).len() - k,
{
    if k < p.statements_of(block).len() {
        match p.statements_of(block)[k].kind {
            StatementKind::Function { name, .. } => {
                let at = FnAt::Declared(StmtAt { block, index: k as usize });
                lemma_function_made(m, at);
                let made = m.function_made(at);
                lemma_declared(made.heap, m.scope, name.name@, m.function_value());
                let next = MachineView {
                    heap: made.heap.declared(m.scope, name.name@, m.function_value()),
                    ..made
                };
                lemma_hoisted(p, next, block, k + 1);
            },
            _ => {
                lemma_hoisted(p, m, block, k + 1);
            },
        }
    }
}

proof fn lemma_opened(p: Program, m: MachineView, block: Option<BlockId>)
    requires
        orderly(m),
    ensures
        orderly(m.opened(p, block)),
{
    lemma_hoisted(p, m, block, 0);
}

proof fn lemma_scoped(m: MachineView, parent: SlotId)
    requires
        orderly(m),
    ensures
        orderly(m.scoped(parent)),
{
    lemma_allocated(m.heap, SlotView::Scope { bindings: Seq::empty(), parent: Some(parent), captured: false });
}

proof fn lemma_entered(p: Program, m: MachineView, block: BlockId)
    requires
        orderly(m),
    ensures
        orderly(m.entered(p, block)),
{
    lemma_scoped(m, m.scope);
    lemma_opened(p, m.scoped(m.scope).push(Frame::ExitScope(m.scope)), Some(block));
}

proof fn lemma_branched(p: Program, m: MachineView, at: StmtAt, index: int)
    requires
        orderly(m),
    ensures
        orderly(m.branched(p, at, index)),
{
    if let StatementKind::If { branches, else_branch } = statement_at(p, at).kind {
        if index >= branches@.len() {
            if let Some(otherwise) = else_branch {
                lemma_entered(p, m, otherwise.body);
            }
        }
    }
}

proof fn lemma_unwound(m: MachineView, consume: bool)
    requires
        orderly(m),
    ensures
        orderly(m.unwound(consume)),
    decreases m.frames.len(),
{
    if m.frames.len() > 0 {
        let rest = MachineView { frames: m.frames.drop_last(), ..m };
        match m.frames.last() {
            Frame::ExitScope(outer) => {
                lemma_released(m.heap, m.scope);
                lemma_unwound(rest.exited(outer), consume);
            },
            Frame::Loop(state) => {
                lemma_cut(rest, state.values as int);
            },
            Frame::CallEnd { .. } => {},
            _ => {
                lemma_unwound(rest, consume);
            },
        }
    }
}

proof fn lemma_call_ended(
    m: MachineView,
    outer_scope: SlotId,
    values: usize,
    chain: Chain,
    index: usize,
    in_target: bool,
    value: RtView,
)
    requires
        orderly(m),
        finite(value),
    ensures
        orderly(m.call_ended(outer_scope, values, chain, index, in_target, value)),
{
    lemma_cut(m, values as int);
    lemma_released(m.heap, m.scope);
    lemma_give(m.cut(values as int).exited(outer_scope), value);
}

proof fn lemma_returned(m: MachineView, value: RtView)
    requires
        orderly(m),
        finite(value),
    ensures
        orderly(m.returned(value)),
    decreases m.frames.len(),
{
    if m.frames.len() > 0 {
        let rest = MachineView { frames: m.frames.drop_last(), ..m };
        match m.frames.last() {
            Frame::ExitScope(outer) => {
                lemma_released(m.heap, m.scope);
                lemma_returned(rest.exited(outer), value);
            },
            Frame::CallEnd { outer_scope, values, chain, index, in_target } => {
                lemma_call_ended(rest, outer_scope, values, chain, index, in_target, value);
            },
            _ => {
                lemma_returned(rest, value);
            },
        }
    }
}

proof fn lemma_statement(p: Program, m: MachineView, at: StmtAt)
    requires
        orderly(m),
    ensures
        leads(m.statement(p, at)),
{
    match statement_at(p, at).kind {
        StatementKind::Return { value: None, .. } => {
            lemma_returned(m, RtView::Null);
        },
        StatementKind::Block(id) => {
            lemma_entered(p, m, id);
        },
        StatementKind::If { .. } => {
            lemma_branched(p, m, at, 0);
        },
        StatementKind::Break { .. } => {
            lemma_unwound(m, true);
        },
        StatementKind::Continue { .. } => {
            lemma_unwound(m, false);
        },
        _ => {},
    }
}

proof fn lemma_looked_up(heap: HeapView, scope: SlotId, name: Seq<char>)
    requires
        sound(heap),
    ensures
        heap.lookup(scope, name) matches Some(value) ==> finite(value),
{
    if let Some(owner) = heap.resolve(scope, name) {
        assert(fine_slot(heap.slot(owner)));
        if heap.slot(owner) is Scope {
            lemma_found(heap.bindings(owner), name);
        }
    }
}

proof fn lemma_entry(heap: HeapView, id: SlotId, key: Seq<char>)
    requires
        sound(heap),
    ensures
        heap.object_get(id, key) matches Some(value) ==> finite(value),
{
    assert(fine_slot(heap.slot(id)));
    if heap.slot(id) is Object {
        lemma_found(heap.entries(id), key);
    }
}

proof fn lemma_item(heap: HeapView, id: SlotId, index: int)
    requires
        sound(heap),
    ensures
        heap.array_get(id, index) matches Some(value) ==> finite(value),
{
    assert(fine_slot(heap.slot(id)));
    if 0 <= index < heap.elements(id).len() {
        assert(finite(slot_values(heap.slot(id))[index]));
    }
}

proof fn lemma_expression(p: Program, m: MachineView, id: ExprId)
    requires
        orderly(m),
        finite_literals(p),
    ensures
        leads(m.expression(p, id)),
{
    match p.expr(id).kind {
        ExpressionKind::Literal(literal) => {
            lemma_text_made(m);
            match literal {
                Literal::Null => lemma_give(m, RtView::Null),
                Literal::Bool(b) => lemma_give(m, RtView::Bool(b)),
                Literal::Number(n) => lemma_give(m, RtView::Number(n.bits())),
                Literal::String(s) => lemma_give(m.text_made(), RtView::String(s@, m.heap.issued)),
            }
        },
        ExpressionKind::Identifier(name) => {
            lemma_looked_up(m.heap, m.scope, name.name@);
            if let Some(value) = m.heap.lookup(m.scope, name.name@) {
                lemma_give(m, value);
            }
        },
        ExpressionKind::Function(_) => {
            lemma_function_made(m, FnAt::Literal(id));
            lemma_give(m.function_made(FnAt::Literal(id)), m.function_value());
        },
        _ => {},
    }
}

proof fn lemma_parameters(heap: HeapView, scope: SlotId, function: Function, values: Seq<RtView>, n: int)
    requires
        sound(heap),
        all_finite(values),
        n <= values.len(),
    ensures
        sound(bound(heap, scope, function, values, n)),
    decreases n,
{
    if n > 0 {
        lemma_parameters(heap, scope, function, values, n - 1);
        lemma_declared(
            bound(heap, scope, function, values, n - 1),
            scope,
            function.parameters@[n - 1].name@,
            values[n - 1],
        );
    }
}

proof fn lemma_invoked(p: Program, m: MachineView, chain: Chain, index: usize, in_target: bool, arguments: usize)
    requires
        orderly(m),
    ensures
        leads(m.invoked(p, chain, index, in_target, arguments)),
{
    lemma_pops(m, arguments as int);
    lemma_pop(m.pops(arguments as int));
    if index < chain_links(p, chain).len() {
        let rest = m.pops(arguments as int).pop();
        let values = m.tops(arguments as int);
        if let RtView::Function(slot) = m.pops(arguments as int).top() {
            if let SlotView::Function { definition, scope } = m.heap.slot(slot) {
                if let Some(function) = m.defined(p, definition) {
                    let n = function.parameters@.len() as int;
                    if values.len() == n {
                        let inner = rest.scoped(scope);
                        lemma_scoped(rest, scope);
                        let framed = MachineView { depth: m.depth + 1, ..inner }.push(
                            Frame::CallEnd {
                                outer_scope: m.scope,
                                values: rest.values.len() as usize,
                                chain,
                                index,
                                in_target,
                            },
                        );
                        lemma_parameters(framed.heap, framed.scope, function, values, n);
                        let named = MachineView {
                            heap: bound(framed.heap, framed.scope, function, values, n),
                            ..framed
                        };
                        lemma_opened(p, named, Some(function.body));
                    }
                }
            }
        }
    }
}

proof fn lemma_advanced(p: Program, m: MachineView, state: LoopFrame)
    requires
        orderly(m),
    ensures
        leads(m.advanced(p, state)),
{
    if let LoopKind::For { keyword, at, body, collection, version, index, over_keys } = state.kind {
        if let Some(item) = iterated(m.heap, collection, index, over_keys) {
            let next = LoopFrame {
                kind: LoopKind::For {
                    keyword,
                    at,
                    body,
                    collection,
                    version,
                    index: (index + 1) as usize,
                    over_keys,
                },
                ..state
            };
            let made = if over_keys { m.text_made() } else { m };
            lemma_text_made(m);
            lemma_item(m.heap, collection, index as int);
            lemma_scoped(made, state.outer_scope);
            let inner = made.scoped(state.outer_scope);
            assert(finite(item));
            let named = match statement_at(p, at).kind {
                StatementKind::For { binding, .. } => MachineView {
                    heap: inner.heap.declared(inner.scope, binding.name@, item),
                    ..inner
                },
                _ => inner,
            };
            if let StatementKind::For { binding, .. } = statement_at(p, at).kind {
                lemma_declared(inner.heap, inner.scope, binding.name@, item);
            }
            lemma_opened(p, named.push(Frame::Loop(next)).push(Frame::ExitScope(m.scope)), Some(body));
        }
    }
}

proof fn lemma_object_store(heap: HeapView, id: SlotId, key: Seq<char>, value: RtView)
    requires
        sound(heap),
        finite(value),
    ensures
        sound(heap.object_store(id, key, value)),
{
    if let SlotView::Object { entries, version } = heap.slot(id) {
        assert(fine_slot(heap.slot(id)));
        lemma_put(entries, key, value);
        lemma_replaced(
            heap,
            id,
            SlotView::Object { entries: put(entries, key, value), version: bumped(version) },
        );
    }
}

proof fn lemma_array_store(heap: HeapView, id: SlotId, index: int, value: RtView)
    requires
        sound(heap),
        finite(value),
        0 <= index,
    ensures
        heap.array_store(id, index, value) matches Some(after) ==> sound(after),
{
    if let SlotView::Array { items, version } = heap.slot(id) {
        let version = bumped(version);
        assert(fine_slot(heap.slot(id)));
        assert(all_finite(items));
        if index < items.len() {
            assert(all_finite(items.update(index, value)));
            lemma_replaced(heap, id, SlotView::Array { items: items.update(index, value), version });
        } else {
            assert(all_finite(items.push(value)));
            lemma_replaced(heap, id, SlotView::Array { items: items.push(value), version });
        }
    }
}

proof fn lemma_member_assigned(p: Program, m: MachineView, target: ExprId)
    requires
        orderly(m),
    ensures
        leads(m.member_assigned(p, target)),
{
    let value = m.top();
    let rest = m.pop();
    lemma_pop(m);
    lemma_pop(rest);
    lemma_pop(rest.pop());
    if let ExpressionKind::Access { links, .. } = p.expr(target).kind {
        if links@.len() > 0 {
            match links@.last().kind {
                AccessKind::Property(property) => {
                    if let RtView::Object(object) = rest.top() {
                        lemma_object_store(m.heap, object, property.name@, value);
                    }
                },
                AccessKind::Index { .. } => {
                    match (rest.pop().top(), rest.top()) {
                        (RtView::Array(array), RtView::Number(n)) => {
                            if let Some(i) = position_of(n) {
                                lemma_array_store(m.heap, array, i, value);
                            }
                        },
                        (RtView::Object(object), RtView::String(k, _)) => {
                            lemma_object_store(m.heap, object, k, value);
                        },
                        _ => {},
                    }
                },
                AccessKind::Call { .. } => {},
            }
        }
    }
}

/// An operator's outcome.
proof fn lemma_concluded(m: MachineView, made: Made, asking: MachineView)
    requires
        orderly(m),
        orderly(asking),
        asking.heap == m.heap,
        made matches Made::Value(value) ==> finite(value),
    ensures
        leads(m.concluded(made, asking)),
{
    lemma_text_made(m);
    match made {
        Made::Value(value) => lemma_give(m, value),
        Made::Text(text) => lemma_give(m.text_made(), RtView::String(text, m.heap.issued)),
        _ => {},
    }
}

#[verifier::spinoff_prover]
proof fn lemma_unary(p: Program, m: MachineView, frame: Frame)
    requires
        orderly(m),
        frame is Unary,
    ensures
        leads(m.step(p, frame)),
{
    if let Frame::Unary { operator, operand } = frame {
        let value = m.top();
        let rest = if m.answered is None { m.pop().read_text(value) } else { m.pop() };
        let made = unary(p, m.heap, operator, operand, value, m.answered);
        lemma_pop(m);
        lemma_plain();
        if let Some(n) = plain_number(value) {
            lemma_negated(n);
        } else if let Some(answer) = m.answered {
            if is_finite_bits(answer.left) {
                lemma_negated(answer.left);
            }
        }
        lemma_give(rest, value);
        lemma_concluded(rest, made, rest.give(value).push(frame));
    }
}

#[verifier::spinoff_prover]
proof fn lemma_binary(p: Program, m: MachineView, frame: Frame)
    requires
        orderly(m),
        frame is Binary,
    ensures
        leads(m.step(p, frame)),
{
    if let Frame::Binary { left, operator, right } = frame {
        let r = m.top();
        let l = m.pop().top();
        let popped = m.pop().pop();
        let rest = if m.answered is None { popped.read_text(l).read_text(r) } else { popped };
        let made = binary(p, left, operator, right, l, r, m.answered);
        lemma_pop(m);
        lemma_pop(m.pop());
        lemma_give(rest, l);
        lemma_give(rest.give(l), r);
        lemma_concluded(rest, made, rest.give(l).give(r).push(frame));
    }
}

#[verifier::spinoff_prover]
proof fn lemma_read(p: Program, m: MachineView, frame: Frame)
    requires
        orderly(m),
        frame is Link || frame is IndexRead,
    ensures
        leads(m.step(p, frame)),
{
    lemma_pop(m);
    lemma_pop(m.pop());
    match frame {
        Frame::Link { chain, index, in_target } => {
            let links = chain_links(p, chain);
            if index < links.len() {
                if let AccessKind::Property(name) = links[index as int].kind {
                    if let RtView::Object(object) = m.top() {
                        lemma_entry(m.heap, object, name.name@);
                        let value = match m.heap.object_get(object, name.name@) {
                            Some(value) => value,
                            None => RtView::Null,
                        };
                        lemma_give(m.pop(), value);
                    }
                }
            }
            assert(leads(m.link(p, chain, index, in_target)));
        },
        Frame::IndexRead { chain, index, in_target } => {
            let links = chain_links(p, chain);
            let key = m.top();
            let receiver = m.pop().top();
            let rest = m.pop().pop().read_text(key);
            if index < links.len() {
                if let AccessKind::Index { expression, .. } = links[index as int].kind {
                    match (receiver, key) {
                        (RtView::Array(array), RtView::Number(n)) => {
                            if let Some(i) = position_of(n) {
                                lemma_item(m.heap, array, i);
                            }
                        },
                        (RtView::Object(object), RtView::String(k, _)) => {
                            lemma_entry(m.heap, object, k);
                        },
                        _ => {},
                    }
                    if let Ok(value) = element(m.heap, p, receiver, key, links[index as int], expression) {
                        lemma_give(rest, value);
                    }
                }
            }
            assert(leads(m.index_read(p, chain, index, in_target)));
        },
        _ => {},
    }
}

/// A value of an orderly heap comes out regular.
proof fn lemma_detached(heap: HeapView, value: RtView, path: Set<int>)
    requires
        sound(heap),
        finite(value),
    ensures
        detach_value(heap, value, path) matches Ok(tree) ==> regular(tree),
    decreases unvisited(path, heap.slots.len() as int), 1int,
{
    match value {
        RtView::Array(id) => lemma_slot_detached(heap, id, path),
        RtView::Object(id) => lemma_slot_detached(heap, id, path),
        _ => {},
    }
}

proof fn lemma_slot_detached(heap: HeapView, id: SlotId, path: Set<int>)
    requires
        sound(heap),
    ensures
        detach_slot(heap, id, path) matches Ok(tree) ==> regular(tree),
    decreases unvisited(path, heap.slots.len() as int), 0int,
{
    if !path.contains(id.0 as int) && (heap.slot(id) is Array || heap.slot(id) is Object) {
        let n = heap.slots.len() as int;
        lemma_unvisited(path, id.0 as int, n);
        assert(fine_slot(heap.slot(id)));
        lemma_list_detached(heap, kids(heap, id), 0, path.insert(id.0 as int));
        if let Ok(parts) = detach_list(heap, kids(heap, id), 0, path.insert(id.0 as int)) {
            if let SlotView::Object { entries, .. } = heap.slot(id) {
                if let ValueView::Object(all) = built(heap, id, parts) {
                    assert(distinct(all)) by {
                        assert forall|i: int, j: int| 0 <= i < all.len() && 0 <= j < all.len() && i != j implies (
                        #[trigger] all[i]).0 != (#[trigger] all[j]).0 by {
                            assert(entries[i].0 != entries[j].0);
                        }
                    }
                    assert forall|i: int| 0 <= i < all.len() implies regular((#[trigger] all[i]).1) by {
                        assert(all[i].1 == parts[i]);
                    }
                }
            }
        }
    }
}

proof fn lemma_list_detached(heap: HeapView, values: Seq<RtView>, k: int, path: Set<int>)
    requires
        sound(heap),
        all_finite(values),
        0 <= k,
    ensures
        match detach_list(heap, values, k, path) {
            Ok(parts) => forall|i: int| 0 <= i < parts.len() ==> regular(#[trigger] parts[i]),
            Err(_) => true,
        },
    decreases unvisited(path, heap.slots.len() as int), values.len() - k + 2,
{
    if k < values.len() {
        assert(finite(values[k]));
        lemma_detached(heap, values[k], path);
        lemma_list_detached(heap, values, k + 1, path);
        if let (Ok(first), Ok(rest)) = (detach_value(heap, values[k], path), detach_list(heap, values, k + 1, path)) {
            let parts = seq![first] + rest;
            assert forall|i: int| 0 <= i < parts.len() implies regular(#[trigger] parts[i]) by {
                if i > 0 {
                    assert(parts[i] == rest[i - 1]);
                }
            }
        }
    }
}

proof fn lemma_arguments(heap: HeapView, p: Program, name: Seq<char>, values: Seq<RtView>, ids: Seq<ExprId>, k: int)
    requires
        sound(heap),
        all_finite(values),
        0 <= k,
    ensures
        match detached_arguments(heap, p, name, values, ids, k) {
            Ok(list) => forall|i: int| 0 <= i < list.len() ==> regular((#[trigger] list[i]).value),
            Err(_) => true,
        },
    decreases values.len() - k,
{
    if k < values.len() && k < ids.len() {
        assert(finite(values[k]));
        lemma_detached(heap, values[k], Set::empty());
        lemma_arguments(heap, p, name, values, ids, k + 1);
        if let (Ok(value), Ok(rest)) = (
            detach_value(heap, values[k], Set::empty()),
            detached_arguments(heap, p, name, values, ids, k + 1),
        ) {
            let list = seq![ArgumentView { value, span: p.expr(ids[k]).span }] + rest;
            assert forall|i: int| 0 <= i < list.len() implies regular((#[trigger] list[i]).value) by {
                if i > 0 {
                    assert(list[i] == rest[i - 1]);
                }
            }
        }
    }
}

/// The other sign is as finite.
proof fn lemma_negated(bits: u64)
    requires
        is_finite_bits(bits),
    ensures
        is_finite_bits(negated_bits(bits)),
{
    assert(magnitude(negated_bits(bits)) == magnitude(bits));
}

proof fn lemma_plain()
    ensures
        is_finite_bits(0),
        is_finite_bits(ONE),
{
    assert(0int / 0x10_0000_0000_0000int == 0) by (nonlinear_arith);
    assert(0x3ff0_0000_0000_0000int / 0x10_0000_0000_0000int == 0x3ff) by (nonlinear_arith);
}

/// The frames that change no value.
#[verifier::spinoff_prover]
proof fn lemma_quiet(p: Program, m: MachineView, frame: Frame)
    requires
        orderly(m),
        frame is Discard || frame is BinaryRight || frame is ForStart || frame is HostCall,
    ensures
        leads(m.step(p, frame)),
{
    lemma_pop(m);
    match frame {
        Frame::ForStart(at) => {
            assert(leads(m.for_started(p, at)));
        },
        Frame::HostCall { chain, in_target } => {
            let links = chain_links(p, chain);
            if links.len() > 0 {
                if let AccessKind::Call { arguments, .. } = links[0].kind {
                    lemma_pops(m, arguments@.len() as int);
                    if let ExpressionKind::Identifier(name) = p.expr(chain_base(p, chain)).kind {
                        lemma_arguments(m.heap, p, name.name@, m.tops(arguments@.len() as int), arguments@, 0);
                    }
                }
            }
            assert(leads(m.host_called(p, chain, in_target)));
        },
        _ => {},
    }
}

proof fn lemma_literal_entries(p: Program, id: ExprId, values: Seq<RtView>, n: int)
    requires
        all_finite(values),
        n <= values.len(),
    ensures
        all_finite(entry_values(literal_entries(p, id, values, n))),
        distinct(literal_entries(p, id, values, n)),
    decreases n,
{
    if let ExpressionKind::Object { entries, .. } = p.expr(id).kind {
        if n > 0 {
            lemma_literal_entries(p, id, values, n - 1);
            lemma_put(literal_entries(p, id, values, n - 1), entries@[n - 1].key.name@, values[n - 1]);
        }
    }
}

#[verifier::spinoff_prover]
proof fn lemma_built(p: Program, m: MachineView, frame: Frame)
    requires
        orderly(m),
        frame is BuildArray || frame is BuildObject,
    ensures
        leads(m.step(p, frame)),
{
    match frame {
        Frame::BuildArray { count, .. } => {
            lemma_pops(m, count as int);
            let slot = SlotView::Array { items: m.tops(count as int), version: 0 };
            lemma_allocated(m.heap, slot);
            let rest = MachineView { heap: m.heap.allocated(slot), ..m.pops(count as int) };
            lemma_give(rest, RtView::Array(m.heap.next()));
        },
        Frame::BuildObject(id) => {
            if let ExpressionKind::Object { entries, .. } = p.expr(id).kind {
                let n = entries@.len() as int;
                lemma_pops(m, n);
                let values = m.tops(n);
                lemma_literal_entries(p, id, values, values.len() as int);
                let slot = SlotView::Object {
                    entries: literal_entries(p, id, values, values.len() as int),
                    version: 0,
                };
                lemma_allocated(m.heap, slot);
                let rest = MachineView { heap: m.heap.allocated(slot), ..m.pops(n) };
                lemma_give(rest, RtView::Object(m.heap.next()));
            }
        },
        _ => {},
    }
}

#[verifier::spinoff_prover]
proof fn lemma_named(p: Program, m: MachineView, frame: Frame)
    requires
        orderly(m),
        frame is Declare || frame is AssignName,
    ensures
        leads(m.step(p, frame)),
{
    lemma_pop(m);
    match frame {
        Frame::Declare(at) => {
            if let StatementKind::Let { name, .. } = statement_at(p, at).kind {
                lemma_declared(m.heap, m.scope, name.name@, m.top());
            }
        },
        Frame::AssignName(target) => {
            if let ExpressionKind::Identifier(name) = p.expr(target).kind {
                if let Some(owner) = m.heap.resolve(m.scope, name.name@) {
                    lemma_declared(m.heap, owner, name.name@, m.top());
                }
            }
        },
        _ => {},
    }
}

#[verifier::spinoff_prover]
proof fn lemma_tested(p: Program, m: MachineView, frame: Frame)
    requires
        orderly(m),
        frame is Branch || frame is LoopTest,
    ensures
        leads(m.step(p, frame)),
{
    lemma_pop(m);
    match frame {
        Frame::Branch { at, index } => {
            if let StatementKind::If { branches, .. } = statement_at(p, at).kind {
                if index < branches@.len() {
                    lemma_entered(p, m.pop(), branches@[index as int].body);
                }
            }
            lemma_branched(p, m.pop(), at, index + 1);
        },
        Frame::LoopTest(state) => {
            lemma_entered(p, m.pop().push(Frame::Loop(state)), loop_body(state.kind));
        },
        _ => {},
    }
}

/// A step keeps every number finite, on the stack and in the heap, and what it hands out, as a result or
/// to the host, has finite numbers only. Nothing is asked of the answers to questions: what is not finite in
/// them ends the execution.
#[verifier::spinoff_prover]
pub proof fn law_step_keeps_order(p: Program, m: MachineView, frame: Frame)
    requires
        orderly(m),
        finite_literals(p),
    ensures
        leads(m.step(p, frame)),
{
    match frame {
        Frame::Statement(at) => {
            lemma_statement(p, m, at);
        },
        Frame::ExitScope(_) => {
            lemma_released(m.heap, m.scope);
        },
        Frame::Eval(id) => {
            lemma_expression(p, m, id);
        },
        Frame::Return(_) => {
            lemma_pop(m);
            lemma_returned(m.pop(), m.top());
            lemma_detached(m.heap, m.top(), Set::empty());
        },
        Frame::Unary { .. } => {
            lemma_unary(p, m, frame);
        },
        Frame::Binary { .. } => {
            lemma_binary(p, m, frame);
        },
        Frame::BuildArray { .. } => {
            lemma_built(p, m, frame);
        },
        Frame::BuildObject(_) => {
            lemma_built(p, m, frame);
        },
        Frame::Link { .. } => {
            lemma_read(p, m, frame);
        },
        Frame::IndexRead { .. } => {
            lemma_read(p, m, frame);
        },
        Frame::Declare(_) => {
            lemma_named(p, m, frame);
        },
        Frame::AssignName(_) => {
            lemma_named(p, m, frame);
        },
        Frame::AssignMember(target) => {
            lemma_member_assigned(p, m, target);
        },
        Frame::Branch { .. } => {
            lemma_tested(p, m, frame);
        },
        Frame::LoopTest(_) => {
            lemma_tested(p, m, frame);
        },
        Frame::Loop(state) => {
            lemma_advanced(p, m, state);
        },
        Frame::Invoke { chain, index, in_target, arguments } => {
            lemma_invoked(p, m, chain, index, in_target, arguments);
        },
        Frame::CallEnd { outer_scope, values, chain, index, in_target } => {
            lemma_call_ended(m, outer_scope, values, chain, index, in_target, RtView::Null);
        },
        _ => {
            lemma_quiet(p, m, frame);
        },
    }
}

/// However long a Script runs, its numbers stay finite, and so are those of its result.
pub proof fn law_run_keeps_order(p: Program, m: MachineView, fuel: nat)
    requires
        orderly(m),
        finite_literals(p),
    ensures
        leads(m.run(p, fuel)),
    decreases fuel,
{
    if m.frames.len() > 0 && fuel > 0 {
        let taken = m.taken();
        law_step_keeps_order(p, taken, m.frames.last());
        if let Turn::Go(after) = taken.step(p, m.frames.last()) {
            let worked = MachineView { work: added(after.work, 1), ..after };
            law_run_keeps_order(p, worked, (fuel - 1) as nat);
        }
    }
}

proof fn lemma_attached(heap: HeapView, value: ValueView)
    requires
        sound(heap),
        regular(value),
    ensures
        sound(attach_value(heap, value).0),
        finite(attach_value(heap, value).1),
    decreases value, 0int,
{
    match value {
        ValueView::Array(items) => {
            lemma_items_attached(heap, items, 0);
            let (after, parts) = attach_items(heap, items, 0);
            lemma_allocated(after, SlotView::Array { items: parts, version: 0 });
        },
        ValueView::Object(entries) => {
            lemma_entries_attached(heap, entries, 0);
            let (after, parts) = attach_entries(heap, entries, 0);
            let slot = SlotView::Object { entries: keyed(entries, parts), version: 0 };
            assert forall|i: int| 0 <= i < slot_values(slot).len() implies finite(#[trigger] slot_values(slot)[i]) by {
                assert(slot_values(slot)[i] == parts[i]);
            }
            assert(distinct(keyed(entries, parts))) by {
                let all = keyed(entries, parts);
                assert forall|i: int, j: int| 0 <= i < all.len() && 0 <= j < all.len() && i != j implies (#[trigger] all[i]).0
                    != (#[trigger] all[j]).0 by {
                    assert(entries[i].0 != entries[j].0);
                }
            }
            lemma_allocated(after, slot);
        },
        ValueView::String(_) => {
            lemma_issued(heap);
        },
        _ => {},
    }
}

proof fn lemma_items_attached(heap: HeapView, items: Seq<ValueView>, k: int)
    requires
        sound(heap),
        forall|i: int| 0 <= i < items.len() ==> regular(#[trigger] items[i]),
        0 <= k <= items.len(),
    ensures
        sound(attach_items(heap, items, k).0),
        all_finite(attach_items(heap, items, k).1),
    decreases items, items.len() - k,
{
    if k < items.len() {
        let (one, first) = attach_value(heap, items[k]);
        lemma_attached(heap, items[k]);
        lemma_items_attached(one, items, k + 1);
        let (all, rest) = attach_items(one, items, k + 1);
        lemma_joined(first, rest);
    }
}

proof fn lemma_entries_attached(heap: HeapView, entries: Seq<(Seq<char>, ValueView)>, k: int)
    requires
        sound(heap),
        forall|i: int| 0 <= i < entries.len() ==> regular((#[trigger] entries[i]).1),
        0 <= k <= entries.len(),
    ensures
        sound(attach_entries(heap, entries, k).0),
        all_finite(attach_entries(heap, entries, k).1),
    decreases entries, entries.len() - k,
{
    if k < entries.len() {
        let (one, first) = attach_value(heap, entries[k].1);
        lemma_attached(heap, entries[k].1);
        lemma_entries_attached(one, entries, k + 1);
        let (all, rest) = attach_entries(one, entries, k + 1);
        lemma_joined(first, rest);
    }
}

proof fn lemma_joined(first: RtView, rest: Seq<RtView>)
    requires
        finite(first),
        all_finite(rest),
    ensures
        all_finite(seq![first] + rest),
{
    let all = seq![first] + rest;
    assert forall|i: int| 0 <= i < all.len() implies finite(#[trigger] all[i]) by {
        if i > 0 {
            assert(all[i] == rest[i - 1]);
        }
    }
}

proof fn lemma_variables(heap: HeapView, scope: SlotId, variables: Seq<(Seq<char>, ValueView)>, n: int)
    requires
        sound(heap),
        forall|i: int| 0 <= i < variables.len() ==> regular((#[trigger] variables[i]).1),
        n <= variables.len(),
    ensures
        sound(variables_bound(heap, scope, variables, n)),
    decreases n,
{
    if n > 0 {
        lemma_variables(heap, scope, variables, n - 1);
        let earlier = variables_bound(heap, scope, variables, n - 1);
        lemma_attached(earlier, variables[n - 1].1);
        let (after, value) = attach_value(earlier, variables[n - 1].1);
        lemma_declared(after, scope, variables[n - 1].0, value);
    }
}

/// Before its first step an execution's numbers are those of its starting variables, and finite where those
/// are.
pub proof fn law_start_is_orderly(p: Program, variables: Seq<(Seq<char>, ValueView)>)
    requires
        forall|i: int| 0 <= i < variables.len() ==> regular((#[trigger] variables[i]).1),
    ensures
        orderly(started(p, variables)),
{
    let none = HeapView { slots: Seq::empty(), free: Seq::empty(), issued: 0 };
    let root = none.next();
    assert(sound(none));
    lemma_allocated(none, SlotView::Scope { bindings: Seq::empty(), parent: None, captured: false });
    lemma_variables(none.scope_pushed(None), root, variables, variables.len() as int);
    let bare = MachineView {
        frames: Seq::empty(),
        values: Seq::empty(),
        heap: variables_bound(none.scope_pushed(None), root, variables, variables.len() as int),
        scope: root,
        root,
        functions: Seq::empty(),
        depth: 0,
        suspended: None,
        meter: Meter { slice: None, memory_ceiling: None, allocation_ceiling: None },
        work: 0,
        site: Site::Unknown,
        allocations: 0,
        answered: None,
    };
    lemma_opened(p, bare, None);
}

/// Answering a host call with a regular value keeps every number finite.
pub proof fn law_resume_keeps_order(m: MachineView, value: ValueView)
    requires
        orderly(m),
        regular(value),
    ensures
        orderly(resumed(m, value)),
{
    if let Some((chain, in_target)) = m.suspended {
        lemma_attached(m.heap, value);
        let (heap, handle) = attach_value(m.heap, value);
        lemma_give(MachineView { suspended: None, heap, ..m }, handle);
    }
}

} // verus!

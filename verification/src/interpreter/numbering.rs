//! How the numbers of strings tell them apart: no value holds a string with the number that is next, so
//! a string that is made is never one that a value holds already.

use vstd::prelude::*;
use vstd::multiset::group_multiset_axioms;
use crate::ast::AccessKind;
use crate::ast::BlockId;
use crate::ast::ExprId;
use crate::ast::ExpressionKind;
use crate::ast::Function;
use crate::ast::Literal;
use crate::ast::Program;
use crate::ast::StatementKind;
use crate::interpreter::attach::attach_entries;
use crate::interpreter::attach::attach_items;
use crate::interpreter::attach::attach_value;
use crate::interpreter::attach::keyed;
use crate::interpreter::heap::HeapView;
use crate::interpreter::heap::RtView;
use crate::interpreter::heap::SlotId;
use crate::interpreter::heap::SlotView;
use crate::interpreter::heap::bumped;
use crate::interpreter::heap::entry_values;
use crate::interpreter::heap::slot_values;
use crate::interpreter::heap::slots_texts;
use crate::interpreter::machine::resumed;
use crate::interpreter::machine::started;
use crate::interpreter::machine::variables_bound;
use crate::interpreter::semantics::Chain;
use crate::interpreter::semantics::FnAt;
use crate::interpreter::semantics::Frame;
use crate::interpreter::semantics::LoopFrame;
use crate::interpreter::semantics::LoopKind;
use crate::interpreter::semantics::MachineView;
use crate::interpreter::semantics::Made;
use crate::interpreter::semantics::Meter;
use crate::interpreter::semantics::Site;
use crate::interpreter::semantics::StmtAt;
use crate::interpreter::semantics::Turn;
use crate::interpreter::semantics::added;
use crate::interpreter::semantics::binary;
use crate::interpreter::semantics::bound;
use crate::interpreter::semantics::chain_links;
use crate::interpreter::semantics::definition_of;
use crate::interpreter::semantics::element;
use crate::interpreter::semantics::iterated;
use crate::interpreter::semantics::literal_entries;
use crate::interpreter::semantics::loop_body;
use crate::interpreter::semantics::statement_at;
use crate::interpreter::semantics::unary;
use crate::interpreter::texts::held_by;
use crate::interpreter::texts::lemma_held_prefix;
use crate::interpreter::texts::lemma_weight_insert;
use crate::interpreter::texts::text_weight;
use crate::interpreter::texts::weight;
use crate::interpreter::value::ValueView;
use crate::number::position_of;
use crate::table::at;
use crate::table::has_key;
use crate::table::put;
use crate::table::value_of;

verus! {

/// Whether a value's string, if it has one, has a number below `n`.
pub open spec fn value_below(value: RtView, n: u64) -> bool {
    value matches RtView::String(_, number) ==> number < n
}

/// Whether the strings of all values have numbers below `n`.
pub open spec fn all_below(values: Seq<RtView>, n: u64) -> bool {
    forall|i: int| 0 <= i < values.len() ==> value_below(#[trigger] values[i], n)
}

/// Whether every string in a heap has a number that the heap gave out before.
pub open spec fn sound(heap: HeapView) -> bool {
    &&& forall|i: int| 0 <= i < heap.free.len() ==> (#[trigger] heap.free[i]).0 < heap.slots.len()
    &&& forall|id: SlotId| all_below(slot_values(#[trigger] heap.slot(id)), heap.issued)
}

/// Whether every string that a value of a machine holds has a number that was given out before.
pub open spec fn numbered(m: MachineView) -> bool {
    sound(m.heap) && all_below(m.values, m.heap.issued)
}

/// Whether a turn leads to a machine whose strings are numbered, and gives out at most one number.
pub open spec fn leads_numbered(m: MachineView, turn: Turn) -> bool {
    match turn {
        Turn::Go(after) => numbered(after) && m.heap.issued <= after.heap.issued <= m.heap.issued + 1,
        Turn::Halt(after, _) => numbered(after) && m.heap.issued <= after.heap.issued <= m.heap.issued + 1,
        Turn::Fail(_) => true,
    }
}

proof fn lemma_put_below(entries: Seq<(Seq<char>, RtView)>, key: Seq<char>, value: RtView, n: u64)
    requires
        all_below(entry_values(entries), n),
        value_below(value, n),
    ensures
        all_below(entry_values(put(entries, key, value)), n),
{
    let after = put(entries, key, value);
    assert forall|i: int| 0 <= i < entry_values(after).len() implies value_below(
        #[trigger] entry_values(after)[i],
        n,
    ) by {
        if i < entries.len() {
            assert(value_below(entry_values(entries)[i], n));
        }
    }
}

proof fn lemma_found_below(entries: Seq<(Seq<char>, RtView)>, key: Seq<char>, n: u64)
    requires
        all_below(entry_values(entries), n),
    ensures
        value_of(entries, key) matches Some(value) ==> value_below(value, n),
{
    if has_key(entries, key) {
        assert(value_below(entry_values(entries)[at(entries, key)], n));
    }
}

/// A slot that is replaced by one with numbered strings.
proof fn lemma_replaced(heap: HeapView, place: SlotId, slot: SlotView)
    requires
        sound(heap),
        place.0 < heap.slots.len(),
        all_below(slot_values(slot), heap.issued),
    ensures
        sound(heap.with(place, slot)),
{
    let after = heap.with(place, slot);
    assert forall|id: SlotId| all_below(slot_values(#[trigger] after.slot(id)), after.issued) by {
        assert(all_below(slot_values(heap.slot(id)), heap.issued));
        assert(after.slot(id) == heap.slot(id) || after.slot(id) == slot);
    }
}

proof fn lemma_declared(heap: HeapView, scope: SlotId, name: Seq<char>, value: RtView)
    requires
        sound(heap),
        value_below(value, heap.issued),
    ensures
        sound(heap.declared(scope, name, value)),
        heap.declared(scope, name, value).issued == heap.issued,
{
    if let SlotView::Scope { bindings, parent, captured } = heap.slot(scope) {
        assert(all_below(slot_values(heap.slot(scope)), heap.issued));
        lemma_put_below(bindings, name, value, heap.issued);
        lemma_replaced(heap, scope, SlotView::Scope { bindings: put(bindings, name, value), parent, captured });
    }
}

proof fn lemma_allocated(heap: HeapView, slot: SlotView)
    requires
        sound(heap),
        all_below(slot_values(slot), heap.issued),
    ensures
        sound(heap.allocated(slot)),
        heap.allocated(slot).issued == heap.issued,
{
    let after = heap.allocated(slot);
    if heap.free.len() > 0 {
        assert(heap.free[heap.free.len() - 1].0 < heap.slots.len());
        assert forall|i: int| 0 <= i < after.free.len() implies (#[trigger] after.free[i]).0 < after.slots.len() by {
            assert(after.free[i] == heap.free[i]);
        }
    }
    assert forall|id: SlotId| all_below(slot_values(#[trigger] after.slot(id)), after.issued) by {
        assert(all_below(slot_values(heap.slot(id)), heap.issued));
        assert(after.slot(id) == heap.slot(id) || after.slot(id) == slot);
    }
}

proof fn lemma_marked(heap: HeapView, scope: SlotId, fuel: nat)
    requires
        sound(heap),
    ensures
        sound(heap.mark_within(scope, fuel)),
        heap.mark_within(scope, fuel).issued == heap.issued,
    decreases fuel,
{
    if fuel > 0 {
        if let SlotView::Scope { bindings, parent, captured } = heap.slot(scope) {
            if !captured {
                let slot = SlotView::Scope { bindings, parent, captured: true };
                assert(all_below(slot_values(heap.slot(scope)), heap.issued));
                lemma_replaced(heap, scope, slot);
                if let Some(outer) = parent {
                    lemma_marked(heap.with(scope, slot), outer, (fuel - 1) as nat);
                }
            }
        }
    }
}

proof fn lemma_released(heap: HeapView, scope: SlotId)
    requires
        sound(heap),
    ensures
        sound(heap.scope_released(scope)),
        heap.scope_released(scope).issued == heap.issued,
{
    if !heap.captured(scope) && !(heap.slot(scope) is Free) {
        let after = heap.release(scope);
        lemma_replaced(heap, scope, SlotView::Free);
        assert forall|i: int| 0 <= i < after.free.len() implies (#[trigger] after.free[i]).0 < after.slots.len() by {
            if i < heap.free.len() {
                assert(after.free[i] == heap.free[i]);
            }
        }
        assert forall|id: SlotId| all_below(slot_values(#[trigger] after.slot(id)), after.issued) by {
            let freed = heap.with(scope, SlotView::Free);
            assert(after.slot(id) == freed.slot(id));
            assert(all_below(slot_values(freed.slot(id)), heap.issued));
        }
    }
}

/// Values below a number are below every higher one.
proof fn lemma_higher(values: Seq<RtView>, n: u64, higher: u64)
    requires
        all_below(values, n),
        n <= higher,
    ensures
        all_below(values, higher),
{
    assert forall|i: int| 0 <= i < values.len() implies value_below(#[trigger] values[i], higher) by {
        assert(value_below(values[i], n));
    }
}

proof fn lemma_issued(heap: HeapView)
    requires
        sound(heap),
        heap.issued < u64::MAX,
    ensures
        sound(heap.issue()),
        heap.issue().issued == heap.issued + 1,
{
    let after = heap.issue();
    assert forall|id: SlotId| all_below(slot_values(#[trigger] after.slot(id)), after.issued) by {
        assert(after.slot(id) == heap.slot(id));
        assert(all_below(slot_values(heap.slot(id)), heap.issued));
        lemma_higher(slot_values(heap.slot(id)), heap.issued, after.issued);
    }
}

proof fn lemma_text_made(m: MachineView)
    requires
        numbered(m),
        m.heap.issued < u64::MAX,
    ensures
        numbered(m.text_made()),
        m.text_made().heap.issued == m.heap.issued + 1,
{
    lemma_issued(m.heap);
    lemma_higher(m.values, m.heap.issued, m.text_made().heap.issued);
}

proof fn lemma_give(m: MachineView, value: RtView)
    requires
        numbered(m),
        value_below(value, m.heap.issued),
    ensures
        numbered(m.give(value)),
{
    assert forall|i: int| 0 <= i < m.give(value).values.len() implies value_below(
        #[trigger] m.give(value).values[i],
        m.heap.issued,
    ) by {
        if i < m.values.len() {
            assert(m.give(value).values[i] == m.values[i]);
        }
    }
}

proof fn lemma_pop(m: MachineView)
    requires
        numbered(m),
    ensures
        numbered(m.pop()),
        value_below(m.top(), m.heap.issued),
{
    if m.values.len() > 0 {
        assert(value_below(m.values[m.values.len() - 1], m.heap.issued));
        assert forall|i: int| 0 <= i < m.pop().values.len() implies value_below(
            #[trigger] m.pop().values[i],
            m.heap.issued,
        ) by {
            assert(m.pop().values[i] == m.values[i]);
        }
    }
}

proof fn lemma_pops(m: MachineView, n: int)
    requires
        numbered(m),
        0 <= n,
    ensures
        numbered(m.pops(n)),
        all_below(m.tops(n), m.heap.issued),
{
    assert forall|i: int| 0 <= i < m.pops(n).values.len() implies value_below(
        #[trigger] m.pops(n).values[i],
        m.heap.issued,
    ) by {
        assert(m.pops(n).values[i] == m.values[i]);
    }
    assert forall|i: int| 0 <= i < m.tops(n).len() implies value_below(#[trigger] m.tops(n)[i], m.heap.issued) by {
        assert(m.tops(n)[i] == m.values[m.below(n) + i]);
    }
}

proof fn lemma_cut(m: MachineView, n: int)
    requires
        numbered(m),
        0 <= n,
    ensures
        numbered(m.cut(n)),
{
    if n <= m.values.len() {
        assert forall|i: int| 0 <= i < m.cut(n).values.len() implies value_below(
            #[trigger] m.cut(n).values[i],
            m.heap.issued,
        ) by {
            assert(m.cut(n).values[i] == m.values[i]);
        }
    }
}

proof fn lemma_function_made(m: MachineView, at: FnAt)
    requires
        numbered(m),
    ensures
        numbered(m.function_made(at)),
        m.function_made(at).heap.issued == m.heap.issued,
{
    let definition = definition_of(m.functions, at, 0);
    lemma_marked(m.heap, m.scope, m.heap.slots.len());
    lemma_allocated(
        m.heap.marked(m.scope),
        SlotView::Function { definition: definition as usize, scope: m.scope },
    );
}

proof fn lemma_hoisted(p: Program, m: MachineView, block: Option<BlockId>, k: int)
    requires
        numbered(m),
        0 <= k,
    ensures
        numbered(m.hoisted(p, block, k)),
        m.hoisted(p, block, k).heap.issued == m.heap.issued,
    decreases p.statements_of(block).len() - k,
{
    if k < p.statements_of(block).len() {
        match p.statements_of(block)[k].kind {
            StatementKind::Function { name, .. } => {
                let at = FnAt::Declared(StmtAt { block, index: k as usize });
                lemma_function_made(m, at);
                let made = m.function_made(at);
                lemma_declared(made.heap, m.scope, name.name@, m.function_value());
                let next = MachineView {
                    heap: made.heap.declared(m.scope, name.name@, m.function_value()),
                    ..made
                };
                lemma_hoisted(p, next, block, k + 1);
            },
            _ => {
                lemma_hoisted(p, m, block, k + 1);
            },
        }
    }
}

proof fn lemma_opened(p: Program, m: MachineView, block: Option<BlockId>)
    requires
        numbered(m),
    ensures
        numbered(m.opened(p, block)),
        m.opened(p, block).heap.issued == m.heap.issued,
{
    lemma_hoisted(p, m, block, 0);
}

proof fn lemma_scoped(m: MachineView, parent: SlotId)
    requires
        numbered(m),
    ensures
        numbered(m.scoped(parent)),
        m.scoped(parent).heap.issued == m.heap.issued,
{
    lemma_allocated(m.heap, SlotView::Scope { bindings: Seq::empty(), parent: Some(parent), captured: false });
}

proof fn lemma_entered(p: Program, m: MachineView, block: BlockId)
    requires
        numbered(m),
    ensures
        numbered(m.entered(p, block)),
        m.entered(p, block).heap.issued == m.heap.issued,
{
    lemma_scoped(m, m.scope);
    lemma_opened(p, m.scoped(m.scope).push(Frame::ExitScope(m.scope)), Some(block));
}

proof fn lemma_branched(p: Program, m: MachineView, at: StmtAt, index: int)
    requires
        numbered(m),
    ensures
        numbered(m.branched(p, at, index)),
        m.branched(p, at, index).heap.issued == m.heap.issued,
{
    if let StatementKind::If { branches, else_branch } = statement_at(p, at).kind {
        if index >= branches@.len() {
            if let Some(otherwise) = else_branch {
                lemma_entered(p, m, otherwise.body);
            }
        }
    }
}

proof fn lemma_unwound(m: MachineView, consume: bool)
    requires
        numbered(m),
    ensures
        numbered(m.unwound(consume)),
        m.unwound(consume).heap.issued == m.heap.issued,
    decreases m.frames.len(),
{
    if m.frames.len() > 0 {
        let rest = MachineView { frames: m.frames.drop_last(), ..m };
        match m.frames.last() {
            Frame::ExitScope(outer) => {
                lemma_released(m.heap, m.scope);
                lemma_unwound(rest.exited(outer), consume);
            },
            Frame::Loop(state) => {
                lemma_cut(rest, state.values as int);
            },
            Frame::CallEnd { .. } => {},
            _ => {
                lemma_unwound(rest, consume);
            },
        }
    }
}

proof fn lemma_call_ended(
    m: MachineView,
    outer_scope: SlotId,
    values: usize,
    chain: Chain,
    index: usize,
    in_target: bool,
    value: RtView,
)
    requires
        numbered(m),
        value_below(value, m.heap.issued),
    ensures
        numbered(m.call_ended(outer_scope, values, chain, index, in_target, value)),
        m.call_ended(outer_scope, values, chain, index, in_target, value).heap.issued == m.heap.issued,
{
    lemma_cut(m, values as int);
    lemma_released(m.heap, m.scope);
    lemma_give(m.cut(values as int).exited(outer_scope), value);
}

proof fn lemma_returned(m: MachineView, value: RtView)
    requires
        numbered(m),
        value_below(value, m.heap.issued),
    ensures
        numbered(m.returned(value)),
        m.returned(value).heap.issued == m.heap.issued,
    decreases m.frames.len(),
{
    if m.frames.len() > 0 {
        let rest = MachineView { frames: m.frames.drop_last(), ..m };
        match m.frames.last() {
            Frame::ExitScope(outer) => {
                lemma_released(m.heap, m.scope);
                lemma_returned(rest.exited(outer), value);
            },
            Frame::CallEnd { outer_scope, values, chain, index, in_target } => {
                lemma_call_ended(rest, outer_scope, values, chain, index, in_target, value);
            },
            _ => {
                lemma_returned(rest, value);
            },
        }
    }
}

proof fn lemma_statement(p: Program, m: MachineView, at: StmtAt)
    requires
        numbered(m),
    ensures
        leads_numbered(m, m.statement(p, at)),
{
    match statement_at(p, at).kind {
        StatementKind::Return { value: None, .. } => {
            lemma_returned(m, RtView::Null);
        },
        StatementKind::Block(id) => {
            lemma_entered(p, m, id);
        },
        StatementKind::If { .. } => {
            lemma_branched(p, m, at, 0);
        },
        StatementKind::Break { .. } => {
            lemma_unwound(m, true);
        },
        StatementKind::Continue { .. } => {
            lemma_unwound(m, false);
        },
        _ => {},
    }
}

proof fn lemma_looked_up(heap: HeapView, scope: SlotId, name: Seq<char>)
    requires
        sound(heap),
    ensures
        heap.lookup(scope, name) matches Some(value) ==> value_below(value, heap.issued),
{
    if let Some(owner) = heap.resolve(scope, name) {
        assert(all_below(slot_values(heap.slot(owner)), heap.issued));
        if heap.slot(owner) is Scope {
            lemma_found_below(heap.bindings(owner), name, heap.issued);
        }
    }
}

proof fn lemma_entry(heap: HeapView, id: SlotId, key: Seq<char>)
    requires
        sound(heap),
    ensures
        heap.object_get(id, key) matches Some(value) ==> value_below(value, heap.issued),
{
    assert(all_below(slot_values(heap.slot(id)), heap.issued));
    if heap.slot(id) is Object {
        lemma_found_below(heap.entries(id), key, heap.issued);
    }
}

proof fn lemma_item(heap: HeapView, id: SlotId, index: int)
    requires
        sound(heap),
    ensures
        heap.array_get(id, index) matches Some(value) ==> value_below(value, heap.issued),
{
    assert(all_below(slot_values(heap.slot(id)), heap.issued));
    if 0 <= index < heap.elements(id).len() {
        assert(value_below(slot_values(heap.slot(id))[index], heap.issued));
    }
}

proof fn lemma_expression(p: Program, m: MachineView, id: ExprId)
    requires
        numbered(m),
        m.heap.issued < u64::MAX,
    ensures
        leads_numbered(m, m.expression(p, id)),
{
    match p.expr(id).kind {
        ExpressionKind::Literal(literal) => {
            lemma_text_made(m);
            match literal {
                Literal::Null => lemma_give(m, RtView::Null),
                Literal::Bool(b) => lemma_give(m, RtView::Bool(b)),
                Literal::Number(n) => lemma_give(m, RtView::Number(n.bits())),
                Literal::String(s) => lemma_give(m.text_made(), RtView::String(s@, m.heap.issued)),
            }
        },
        ExpressionKind::Identifier(name) => {
            lemma_looked_up(m.heap, m.scope, name.name@);
            if let Some(value) = m.heap.lookup(m.scope, name.name@) {
                lemma_give(m, value);
            }
        },
        ExpressionKind::Function(_) => {
            lemma_function_made(m, FnAt::Literal(id));
            lemma_give(m.function_made(FnAt::Literal(id)), m.function_value());
        },
        _ => {},
    }
}

proof fn lemma_parameters(heap: HeapView, scope: SlotId, function: Function, values: Seq<RtView>, n: int)
    requires
        sound(heap),
        all_below(values, heap.issued),
        n <= values.len(),
    ensures
        sound(bound(heap, scope, function, values, n)),
        bound(heap, scope, function, values, n).issued == heap.issued,
    decreases n,
{
    if n > 0 {
        lemma_parameters(heap, scope, function, values, n - 1);
        lemma_declared(
            bound(heap, scope, function, values, n - 1),
            scope,
            function.parameters@[n - 1].name@,
            values[n - 1],
        );
    }
}

proof fn lemma_invoked(p: Program, m: MachineView, chain: Chain, index: usize, in_target: bool, arguments: usize)
    requires
        numbered(m),
    ensures
        leads_numbered(m, m.invoked(p, chain, index, in_target, arguments)),
{
    lemma_pops(m, arguments as int);
    lemma_pop(m.pops(arguments as int));
    if index < chain_links(p, chain).len() {
        let rest = m.pops(arguments as int).pop();
        let values = m.tops(arguments as int);
        if let RtView::Function(slot) = m.pops(arguments as int).top() {
            if let SlotView::Function { definition, scope } = m.heap.slot(slot) {
                if let Some(function) = m.defined(p, definition) {
                    let n = function.parameters@.len() as int;
                    if values.len() == n {
                        let inner = rest.scoped(scope);
                        lemma_scoped(rest, scope);
                        let framed = MachineView { depth: m.depth + 1, ..inner }.push(
                            Frame::CallEnd {
                                outer_scope: m.scope,
                                values: rest.values.len() as usize,
                                chain,
                                index,
                                in_target,
                            },
                        );
                        lemma_parameters(framed.heap, framed.scope, function, values, n);
                        let named = MachineView {
                            heap: bound(framed.heap, framed.scope, function, values, n),
                            ..framed
                        };
                        lemma_opened(p, named, Some(function.body));
                    }
                }
            }
        }
    }
}

proof fn lemma_advanced(p: Program, m: MachineView, state: LoopFrame)
    requires
        numbered(m),
        m.heap.issued < u64::MAX,
    ensures
        leads_numbered(m, m.advanced(p, state)),
{
    if let LoopKind::For { keyword, at, body, collection, version, index, over_keys } = state.kind {
        if let Some(item) = iterated(m.heap, collection, index, over_keys) {
            let next = LoopFrame {
                kind: LoopKind::For {
                    keyword,
                    at,
                    body,
                    collection,
                    version,
                    index: (index + 1) as usize,
                    over_keys,
                },
                ..state
            };
            let made = if over_keys { m.text_made() } else { m };
            lemma_text_made(m);
            lemma_item(m.heap, collection, index as int);
            lemma_scoped(made, state.outer_scope);
            let inner = made.scoped(state.outer_scope);
            assert(value_below(item, inner.heap.issued));
            let named = match statement_at(p, at).kind {
                StatementKind::For { binding, .. } => MachineView {
                    heap: inner.heap.declared(inner.scope, binding.name@, item),
                    ..inner
                },
                _ => inner,
            };
            if let StatementKind::For { binding, .. } = statement_at(p, at).kind {
                lemma_declared(inner.heap, inner.scope, binding.name@, item);
            }
            lemma_opened(p, named.push(Frame::Loop(next)).push(Frame::ExitScope(m.scope)), Some(body));
        }
    }
}

proof fn lemma_object_store(heap: HeapView, id: SlotId, key: Seq<char>, value: RtView)
    requires
        sound(heap),
        value_below(value, heap.issued),
    ensures
        sound(heap.object_store(id, key, value)),
        heap.object_store(id, key, value).issued == heap.issued,
{
    if let SlotView::Object { entries, version } = heap.slot(id) {
        assert(all_below(slot_values(heap.slot(id)), heap.issued));
        lemma_put_below(entries, key, value, heap.issued);
        lemma_replaced(
            heap,
            id,
            SlotView::Object { entries: put(entries, key, value), version: bumped(version) },
        );
    }
}

proof fn lemma_array_store(heap: HeapView, id: SlotId, index: int, value: RtView)
    requires
        sound(heap),
        value_below(value, heap.issued),
        0 <= index,
    ensures
        heap.array_store(id, index, value) matches Some(after) ==> sound(after) && after.issued == heap.issued,
{
    if let SlotView::Array { items, version } = heap.slot(id) {
        let version = bumped(version);
        assert(all_below(slot_values(heap.slot(id)), heap.issued));
        assert(all_below(items, heap.issued));
        if index < items.len() {
            assert(all_below(items.update(index, value), heap.issued));
            lemma_replaced(heap, id, SlotView::Array { items: items.update(index, value), version });
        } else {
            assert(all_below(items.push(value), heap.issued));
            lemma_replaced(heap, id, SlotView::Array { items: items.push(value), version });
        }
    }
}

proof fn lemma_member_assigned(p: Program, m: MachineView, target: ExprId)
    requires
        numbered(m),
    ensures
        leads_numbered(m, m.member_assigned(p, target)),
{
    let value = m.top();
    let rest = m.pop();
    lemma_pop(m);
    lemma_pop(rest);
    lemma_pop(rest.pop());
    if let ExpressionKind::Access { links, .. } = p.expr(target).kind {
        if links@.len() > 0 {
            match links@.last().kind {
                AccessKind::Property(property) => {
                    if let RtView::Object(object) = rest.top() {
                        lemma_object_store(m.heap, object, property.name@, value);
                    }
                },
                AccessKind::Index { .. } => {
                    match (rest.pop().top(), rest.top()) {
                        (RtView::Array(array), RtView::Number(n)) => {
                            if let Some(i) = position_of(n) {
                                lemma_array_store(m.heap, array, i, value);
                            }
                        },
                        (RtView::Object(object), RtView::String(k, _)) => {
                            lemma_object_store(m.heap, object, k, value);
                        },
                        _ => {},
                    }
                },
                AccessKind::Call { .. } => {},
            }
        }
    }
}

/// An operator's outcome.
proof fn lemma_concluded(m: MachineView, made: Made, asking: MachineView)
    requires
        numbered(m),
        numbered(asking),
        asking.heap == m.heap,
        m.heap.issued < u64::MAX,
        made matches Made::Value(value) ==> value_below(value, m.heap.issued),
    ensures
        leads_numbered(m, m.concluded(made, asking)),
{
    lemma_text_made(m);
    match made {
        Made::Value(value) => lemma_give(m, value),
        Made::Text(text) => lemma_give(m.text_made(), RtView::String(text, m.heap.issued)),
        _ => {},
    }
}

#[verifier::spinoff_prover]
proof fn lemma_unary(p: Program, m: MachineView, frame: Frame)
    requires
        numbered(m),
        m.heap.issued < u64::MAX,
        frame is Unary,
    ensures
        leads_numbered(m, m.step(p, frame)),
{
    if let Frame::Unary { operator, operand } = frame {
        let value = m.top();
        let rest = if m.answered is None { m.pop().read_text(value) } else { m.pop() };
        let made = unary(p, m.heap, operator, operand, value, m.answered);
        lemma_pop(m);
        lemma_give(rest, value);
        lemma_concluded(rest, made, rest.give(value).push(frame));
    }
}

#[verifier::spinoff_prover]
proof fn lemma_binary(p: Program, m: MachineView, frame: Frame)
    requires
        numbered(m),
        m.heap.issued < u64::MAX,
        frame is Binary,
    ensures
        leads_numbered(m, m.step(p, frame)),
{
    if let Frame::Binary { left, operator, right } = frame {
        let r = m.top();
        let l = m.pop().top();
        let popped = m.pop().pop();
        let rest = if m.answered is None { popped.read_text(l).read_text(r) } else { popped };
        let made = binary(p, left, operator, right, l, r, m.answered);
        lemma_pop(m);
        lemma_pop(m.pop());
        lemma_give(rest, l);
        lemma_give(rest.give(l), r);
        lemma_concluded(rest, made, rest.give(l).give(r).push(frame));
    }
}

#[verifier::spinoff_prover]
proof fn lemma_read(p: Program, m: MachineView, frame: Frame)
    requires
        numbered(m),
        frame is Link || frame is IndexRead,
    ensures
        leads_numbered(m, m.step(p, frame)),
{
    lemma_pop(m);
    lemma_pop(m.pop());
    match frame {
        Frame::Link { chain, index, in_target } => {
            let links = chain_links(p, chain);
            if index < links.len() {
                if let AccessKind::Property(name) = links[index as int].kind {
                    if let RtView::Object(object) = m.top() {
                        lemma_entry(m.heap, object, name.name@);
                        let value = match m.heap.object_get(object, name.name@) {
                            Some(value) => value,
                            None => RtView::Null,
                        };
                        lemma_give(m.pop(), value);
                    }
                }
            }
            assert(leads_numbered(m, m.link(p, chain, index, in_target)));
        },
        Frame::IndexRead { chain, index, in_target } => {
            let links = chain_links(p, chain);
            let key = m.top();
            let receiver = m.pop().top();
            let rest = m.pop().pop().read_text(key);
            if index < links.len() {
                if let AccessKind::Index { expression, .. } = links[index as int].kind {
                    match (receiver, key) {
                        (RtView::Array(array), RtView::Number(n)) => {
                            if let Some(i) = position_of(n) {
                                lemma_item(m.heap, array, i);
                            }
                        },
                        (RtView::Object(object), RtView::String(k, _)) => {
                            lemma_entry(m.heap, object, k);
                        },
                        _ => {},
                    }
                    if let Ok(value) = element(m.heap, p, receiver, key, links[index as int], expression) {
                        lemma_give(rest, value);
                    }
                }
            }
            assert(leads_numbered(m, m.index_read(p, chain, index, in_target)));
        },
        _ => {},
    }
}

/// The frames that change no value.
#[verifier::spinoff_prover]
proof fn lemma_quiet(p: Program, m: MachineView, frame: Frame)
    requires
        numbered(m),
        frame is Discard || frame is BinaryRight || frame is ForStart || frame is HostCall,
    ensures
        leads_numbered(m, m.step(p, frame)),
{
    lemma_pop(m);
    match frame {
        Frame::ForStart(at) => {
            assert(leads_numbered(m, m.for_started(p, at)));
        },
        Frame::HostCall { chain, in_target } => {
            let links = chain_links(p, chain);
            if links.len() > 0 {
                if let AccessKind::Call { arguments, .. } = links[0].kind {
                    lemma_pops(m, arguments@.len() as int);
                }
            }
            assert(leads_numbered(m, m.host_called(p, chain, in_target)));
        },
        _ => {},
    }
}

proof fn lemma_literal_entries(p: Program, id: ExprId, values: Seq<RtView>, n: int, limit: u64)
    requires
        all_below(values, limit),
        n <= values.len(),
    ensures
        all_below(entry_values(literal_entries(p, id, values, n)), limit),
    decreases n,
{
    if let ExpressionKind::Object { entries, .. } = p.expr(id).kind {
        if n > 0 {
            lemma_literal_entries(p, id, values, n - 1, limit);
            lemma_put_below(literal_entries(p, id, values, n - 1), entries@[n - 1].key.name@, values[n - 1], limit);
        }
    }
}

#[verifier::spinoff_prover]
proof fn lemma_built(p: Program, m: MachineView, frame: Frame)
    requires
        numbered(m),
        frame is BuildArray || frame is BuildObject,
    ensures
        leads_numbered(m, m.step(p, frame)),
{
    match frame {
        Frame::BuildArray { count, .. } => {
            lemma_pops(m, count as int);
            let slot = SlotView::Array { items: m.tops(count as int), version: 0 };
            lemma_allocated(m.heap, slot);
            let rest = MachineView { heap: m.heap.allocated(slot), ..m.pops(count as int) };
            lemma_give(rest, RtView::Array(m.heap.next()));
        },
        Frame::BuildObject(id) => {
            if let ExpressionKind::Object { entries, .. } = p.expr(id).kind {
                let n = entries@.len() as int;
                lemma_pops(m, n);
                let values = m.tops(n);
                lemma_literal_entries(p, id, values, values.len() as int, m.heap.issued);
                let slot = SlotView::Object {
                    entries: literal_entries(p, id, values, values.len() as int),
                    version: 0,
                };
                lemma_allocated(m.heap, slot);
                let rest = MachineView { heap: m.heap.allocated(slot), ..m.pops(n) };
                lemma_give(rest, RtView::Object(m.heap.next()));
            }
        },
        _ => {},
    }
}

#[verifier::spinoff_prover]
proof fn lemma_named(p: Program, m: MachineView, frame: Frame)
    requires
        numbered(m),
        frame is Declare || frame is AssignName,
    ensures
        leads_numbered(m, m.step(p, frame)),
{
    lemma_pop(m);
    match frame {
        Frame::Declare(at) => {
            if let StatementKind::Let { name, .. } = statement_at(p, at).kind {
                lemma_declared(m.heap, m.scope, name.name@, m.top());
            }
        },
        Frame::AssignName(target) => {
            if let ExpressionKind::Identifier(name) = p.expr(target).kind {
                if let Some(owner) = m.heap.resolve(m.scope, name.name@) {
                    lemma_declared(m.heap, owner, name.name@, m.top());
                }
            }
        },
        _ => {},
    }
}

#[verifier::spinoff_prover]
proof fn lemma_tested(p: Program, m: MachineView, frame: Frame)
    requires
        numbered(m),
        frame is Branch || frame is LoopTest,
    ensures
        leads_numbered(m, m.step(p, frame)),
{
    lemma_pop(m);
    match frame {
        Frame::Branch { at, index } => {
            if let StatementKind::If { branches, .. } = statement_at(p, at).kind {
                if index < branches@.len() {
                    lemma_entered(p, m.pop(), branches@[index as int].body);
                }
            }
            lemma_branched(p, m.pop(), at, index + 1);
        },
        Frame::LoopTest(state) => {
            lemma_entered(p, m.pop().push(Frame::Loop(state)), loop_body(state.kind));
        },
        _ => {},
    }
}

/// A step of a machine whose strings are numbered, before the numbers run out, leads to one whose strings
/// are numbered, and gives out at most one number.
#[verifier::spinoff_prover]
pub proof fn law_step_numbers_strings(p: Program, m: MachineView, frame: Frame)
    requires
        numbered(m),
        m.heap.issued < u64::MAX,
    ensures
        leads_numbered(m, m.step(p, frame)),
{
    match frame {
        Frame::Statement(at) => {
            lemma_statement(p, m, at);
        },
        Frame::ExitScope(_) => {
            lemma_released(m.heap, m.scope);
        },
        Frame::Eval(id) => {
            lemma_expression(p, m, id);
        },
        Frame::Return(_) => {
            lemma_pop(m);
            lemma_returned(m.pop(), m.top());
        },
        Frame::Unary { .. } => {
            lemma_unary(p, m, frame);
        },
        Frame::Binary { .. } => {
            lemma_binary(p, m, frame);
        },
        Frame::BuildArray { .. } => {
            lemma_built(p, m, frame);
        },
        Frame::BuildObject(_) => {
            lemma_built(p, m, frame);
        },
        Frame::Link { .. } => {
            lemma_read(p, m, frame);
        },
        Frame::IndexRead { .. } => {
            lemma_read(p, m, frame);
        },
        Frame::Declare(_) => {
            lemma_named(p, m, frame);
        },
        Frame::AssignName(_) => {
            lemma_named(p, m, frame);
        },
        Frame::AssignMember(target) => {
            lemma_member_assigned(p, m, target);
        },
        Frame::Branch { .. } => {
            lemma_tested(p, m, frame);
        },
        Frame::LoopTest(_) => {
            lemma_tested(p, m, frame);
        },
        Frame::Loop(state) => {
            lemma_advanced(p, m, state);
        },
        Frame::Invoke { chain, index, in_target, arguments } => {
            lemma_invoked(p, m, chain, index, in_target, arguments);
        },
        Frame::CallEnd { outer_scope, values, chain, index, in_target } => {
            lemma_call_ended(m, outer_scope, values, chain, index, in_target, RtView::Null);
        },
        _ => {
            lemma_quiet(p, m, frame);
        },
    }
}

/// However long a Script runs, until the numbers run out its strings stay numbered.
pub proof fn law_run_numbers_strings(p: Program, m: MachineView, fuel: nat)
    requires
        numbered(m),
        m.heap.issued + fuel <= u64::MAX,
    ensures
        match m.run(p, fuel) {
            Turn::Go(after) => numbered(after),
            Turn::Halt(after, _) => numbered(after),
            Turn::Fail(_) => true,
        },
    decreases fuel,
{
    if m.frames.len() > 0 && fuel > 0 {
        let taken = m.taken();
        law_step_numbers_strings(p, taken, m.frames.last());
        if let Turn::Go(after) = taken.step(p, m.frames.last()) {
            let worked = MachineView { work: added(after.work, 1), ..after };
            law_run_numbers_strings(p, worked, (fuel - 1) as nat);
        }
    }
}

/// How many strings a value holds, those of its parts counted in.
pub open spec fn strings_in(value: ValueView) -> nat
    decreases value, 0int,
{
    match value {
        ValueView::String(_) => 1,
        ValueView::Array(items) => strings_in_items(items, 0),
        ValueView::Object(entries) => strings_in_entries(entries, 0),
        _ => 0,
    }
}

/// How many strings the items from `k` on hold.
pub open spec fn strings_in_items(items: Seq<ValueView>, k: int) -> nat
    decreases items, items.len() - k,
{
    if k < 0 || k >= items.len() {
        0
    } else {
        strings_in(items[k]) + strings_in_items(items, k + 1)
    }
}

/// How many strings the values of the entries from `k` on hold.
pub open spec fn strings_in_entries(entries: Seq<(Seq<char>, ValueView)>, k: int) -> nat
    decreases entries, entries.len() - k,
{
    if k < 0 || k >= entries.len() {
        0
    } else {
        strings_in(entries[k].1) + strings_in_entries(entries, k + 1)
    }
}

/// How many strings the first `n` variables hold.
pub open spec fn strings_in_variables(variables: Seq<(Seq<char>, ValueView)>, n: int) -> nat
    decreases n,
{
    if n <= 0 {
        0
    } else {
        strings_in_variables(variables, n - 1) + strings_in(variables[n - 1].1)
    }
}

proof fn lemma_attached(heap: HeapView, value: ValueView)
    requires
        sound(heap),
        heap.issued + strings_in(value) <= u64::MAX,
    ensures
        sound(attach_value(heap, value).0),
        attach_value(heap, value).0.issued == heap.issued + strings_in(value),
        value_below(attach_value(heap, value).1, attach_value(heap, value).0.issued),
    decreases value, 0int,
{
    match value {
        ValueView::Array(items) => {
            lemma_items_attached(heap, items, 0);
            let (after, parts) = attach_items(heap, items, 0);
            lemma_allocated(after, SlotView::Array { items: parts, version: 0 });
        },
        ValueView::Object(entries) => {
            lemma_entries_attached(heap, entries, 0);
            let (after, parts) = attach_entries(heap, entries, 0);
            let slot = SlotView::Object { entries: keyed(entries, parts), version: 0 };
            assert forall|i: int| 0 <= i < slot_values(slot).len() implies value_below(
                #[trigger] slot_values(slot)[i],
                after.issued,
            ) by {
                assert(slot_values(slot)[i] == parts[i]);
            }
            lemma_allocated(after, slot);
        },
        ValueView::String(_) => {
            lemma_issued(heap);
        },
        _ => {},
    }
}

proof fn lemma_items_attached(heap: HeapView, items: Seq<ValueView>, k: int)
    requires
        sound(heap),
        heap.issued + strings_in_items(items, k) <= u64::MAX,
        0 <= k <= items.len(),
    ensures
        sound(attach_items(heap, items, k).0),
        attach_items(heap, items, k).0.issued == heap.issued + strings_in_items(items, k),
        all_below(attach_items(heap, items, k).1, attach_items(heap, items, k).0.issued),
    decreases items, items.len() - k,
{
    if k < items.len() {
        let (one, first) = attach_value(heap, items[k]);
        lemma_attached(heap, items[k]);
        lemma_items_attached(one, items, k + 1);
        let (all, rest) = attach_items(one, items, k + 1);
        lemma_joined(first, one.issued, rest, all.issued);
    }
}

proof fn lemma_entries_attached(heap: HeapView, entries: Seq<(Seq<char>, ValueView)>, k: int)
    requires
        sound(heap),
        heap.issued + strings_in_entries(entries, k) <= u64::MAX,
        0 <= k <= entries.len(),
    ensures
        sound(attach_entries(heap, entries, k).0),
        attach_entries(heap, entries, k).0.issued == heap.issued + strings_in_entries(entries, k),
        all_below(attach_entries(heap, entries, k).1, attach_entries(heap, entries, k).0.issued),
    decreases entries, entries.len() - k,
{
    if k < entries.len() {
        let (one, first) = attach_value(heap, entries[k].1);
        lemma_attached(heap, entries[k].1);
        lemma_entries_attached(one, entries, k + 1);
        let (all, rest) = attach_entries(one, entries, k + 1);
        lemma_joined(first, one.issued, rest, all.issued);
    }
}

proof fn lemma_joined(first: RtView, n: u64, rest: Seq<RtView>, higher: u64)
    requires
        value_below(first, n),
        n <= higher,
        all_below(rest, higher),
    ensures
        all_below(seq![first] + rest, higher),
{
    let all = seq![first] + rest;
    assert forall|i: int| 0 <= i < all.len() implies value_below(#[trigger] all[i], higher) by {
        if i > 0 {
            assert(all[i] == rest[i - 1]);
        }
    }
}

proof fn lemma_variables(heap: HeapView, scope: SlotId, variables: Seq<(Seq<char>, ValueView)>, n: int)
    requires
        sound(heap),
        heap.issued + strings_in_variables(variables, n) <= u64::MAX,
        n <= variables.len(),
    ensures
        sound(variables_bound(heap, scope, variables, n)),
        n >= 0 ==> variables_bound(heap, scope, variables, n).issued == heap.issued + strings_in_variables(variables, n),
    decreases n,
{
    if n > 0 {
        lemma_variables(heap, scope, variables, n - 1);
        let earlier = variables_bound(heap, scope, variables, n - 1);
        lemma_attached(earlier, variables[n - 1].1);
        let (after, value) = attach_value(earlier, variables[n - 1].1);
        lemma_declared(after, scope, variables[n - 1].0, value);
    }
}

/// Before its first step a Script's strings are those of its starting variables, and they are numbered.
pub proof fn law_start_numbers_strings(p: Program, variables: Seq<(Seq<char>, ValueView)>)
    requires
        strings_in_variables(variables, variables.len() as int) <= u64::MAX,
    ensures
        numbered(started(p, variables)),
        started(p, variables).heap.issued == strings_in_variables(variables, variables.len() as int),
{
    let none = HeapView { slots: Seq::empty(), free: Seq::empty(), issued: 0 };
    let root = none.next();
    assert(sound(none));
    lemma_allocated(none, SlotView::Scope { bindings: Seq::empty(), parent: None, captured: false });
    lemma_variables(none.scope_pushed(None), root, variables, variables.len() as int);
    let bare = MachineView {
        frames: Seq::empty(),
        values: Seq::empty(),
        heap: variables_bound(none.scope_pushed(None), root, variables, variables.len() as int),
        scope: root,
        root,
        functions: Seq::empty(),
        depth: 0,
        suspended: None,
        meter: Meter { slice: None, memory_ceiling: None, allocation_ceiling: None },
        work: 0,
        site: Site::Unknown,
        allocations: 0,
        answered: None,
    };
    lemma_opened(p, bare, None);
}

/// Answering a host call numbers the strings of the value.
pub proof fn law_resume_numbers_strings(m: MachineView, value: ValueView)
    requires
        numbered(m),
        m.heap.issued + strings_in(value) <= u64::MAX,
    ensures
        numbered(resumed(m, value)),
{
    if let Some((chain, in_target)) = m.suspended {
        lemma_attached(m.heap, value);
        let (heap, handle) = attach_value(m.heap, value);
        lemma_higher(m.values, m.heap.issued, heap.issued);
        lemma_give(MachineView { suspended: None, heap, ..m }, handle);
    }
}

proof fn lemma_unheld(values: Seq<RtView>, n: int, text: Seq<char>, number: u64)
    requires
        all_below(values, number),
        n <= values.len(),
    ensures
        held_by(values, n).count((text, number)) == 0,
    decreases n,
{
    broadcast use group_multiset_axioms;

    if n > 0 {
        lemma_unheld(values, n - 1, text, number);
        assert(value_below(values[n - 1], number));
    }
}

proof fn lemma_unheld_slots(heap: HeapView, n: int, text: Seq<char>)
    requires
        sound(heap),
        n <= heap.slots.len() <= usize::MAX,
    ensures
        slots_texts(heap.slots, n).count((text, heap.issued)) == 0,
    decreases n,
{
    broadcast use group_multiset_axioms;

    if n > 0 {
        lemma_unheld_slots(heap, n - 1, text);
        let slot = heap.slot(SlotId((n - 1) as usize));
        assert(slot == heap.slots[n - 1]);
        lemma_unheld(slot_values(slot), slot_values(slot).len() as int, text, heap.issued);
    }
}

/// A string that is made counts in full, also where an equal one is held already: no value holds a
/// string with the number that it gets.
pub proof fn law_made_strings_count_in_full(m: MachineView, text: Seq<char>)
    requires
        numbered(m),
        m.heap.slots.len() <= usize::MAX,
    ensures
        m.texts().count((text, m.heap.issued)) == 0,
        m.give_text(text).heap.bytes() == m.heap.bytes(),
        weight(m.give_text(text).texts().dom()) == weight(m.texts().dom()) + text_weight(text),
{
    broadcast use group_multiset_axioms;

    let one = (text, m.heap.issued);
    let after = m.give_text(text);
    lemma_unheld_slots(m.heap, m.heap.slots.len() as int, text);
    lemma_unheld(m.values, m.values.len() as int, text, m.heap.issued);
    lemma_held_prefix(m.values, after.values, m.values.len() as int);
    assert(after.texts() =~= m.texts().insert(one));
    assert(after.texts().dom() =~= m.texts().dom().insert(one));
    lemma_weight_insert(m.texts().dom(), one);
}

} // verus!

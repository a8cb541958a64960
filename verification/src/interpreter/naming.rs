//! Which names an execution can ever bind: its starting variables and the names that its Program
//! declares.

use vstd::prelude::*;
use crate::ast::AccessKind;
use crate::ast::BlockId;
use crate::ast::ExprId;
use crate::ast::ExpressionKind;
use crate::ast::Function;
use crate::ast::Program;
use crate::ast::Statement;
use crate::ast::StatementKind;
use crate::interpreter::attach::attach_entries;
use crate::interpreter::attach::attach_items;
use crate::interpreter::attach::attach_value;
use crate::interpreter::attach::keyed;
use crate::interpreter::heap::HeapView;
use crate::interpreter::heap::RtView;
use crate::interpreter::heap::SlotId;
use crate::interpreter::heap::SlotView;
use crate::interpreter::keeping::law_step_keeps_fit;
use crate::interpreter::keeping::lemma_small;
use crate::interpreter::keeping::lemma_taken;
use crate::interpreter::machine::fits;
use crate::interpreter::machine::fn_ok;
use crate::interpreter::machine::lemma_function_body;
use crate::interpreter::machine::lemma_statement_ok;
use crate::interpreter::machine::resumed;
use crate::interpreter::machine::started;
use crate::interpreter::machine::stmt_ok;
use crate::interpreter::machine::taken_fits;
use crate::interpreter::machine::variables_bound;
use crate::interpreter::semantics::Chain;
use crate::interpreter::semantics::FnAt;
use crate::interpreter::semantics::Frame;
use crate::interpreter::semantics::LoopFrame;
use crate::interpreter::semantics::LoopKind;
use crate::interpreter::semantics::MachineView;
use crate::interpreter::semantics::Made;
use crate::interpreter::semantics::StmtAt;
use crate::interpreter::semantics::Turn;
use crate::interpreter::semantics::added;
use crate::interpreter::semantics::binary;
use crate::interpreter::semantics::bound;
use crate::interpreter::semantics::chain_links;
use crate::interpreter::semantics::evals;
use crate::interpreter::semantics::function_at;
use crate::interpreter::semantics::host_callee;
use crate::interpreter::semantics::iterated;
use crate::interpreter::semantics::loop_body;
use crate::interpreter::semantics::statement_at;
use crate::interpreter::semantics::unary;
use crate::interpreter::semantics::undeclared;
use crate::interpreter::semantics::undeclared_assignment;
use crate::interpreter::value::ValueView;
use crate::table::has_key;
use crate::table::lemma_put_keys;

verus! {

/// Whether a function has a parameter with this name.
pub open spec fn takes(function: Function, name: Seq<char>) -> bool {
    exists|i: int| 0 <= i < function.parameters@.len() && (#[trigger] function.parameters@[i]).name@ == name
}

/// Whether a statement binds a name: by `let`, as a named function or one of its parameters, or as
/// the item of a `for`.
pub open spec fn binds(statement: Statement, name: Seq<char>) -> bool {
    match statement.kind {
        StatementKind::Let { name: bound, .. } => bound.name@ == name,
        StatementKind::Function { name: bound, function } => bound.name@ == name || takes(function, name),
        StatementKind::For { binding, .. } => binding.name@ == name,
        _ => false,
    }
}

/// Whether a Program declares a name anywhere.
pub open spec fn declares(p: Program, name: Seq<char>) -> bool {
    ||| exists|at: StmtAt| #[trigger] stmt_ok(p, at) && binds(statement_at(p, at), name)
    ||| exists|id: ExprId| #[trigger] p.has_expr(id) && (p.expr(id).kind matches ExpressionKind::Function(function)
        && takes(function, name))
}

/// Whether no scope of a heap binds a name.
pub open spec fn absent(heap: HeapView, name: Seq<char>) -> bool {
    &&& forall|i: int| 0 <= i < heap.free.len() ==> (#[trigger] heap.free[i]).0 < heap.slots.len()
    &&& forall|id: SlotId| !has_key(#[trigger] heap.bindings(id), name)
}

/// Whether a turn leads to a machine whose heap binds a name nowhere.
pub open spec fn leads_without(turn: Turn, name: Seq<char>) -> bool {
    match turn {
        Turn::Go(m) => absent(m.heap, name),
        Turn::Halt(m, _) => absent(m.heap, name),
        Turn::Fail(_) => true,
    }
}

proof fn lemma_declared(heap: HeapView, scope: SlotId, other: Seq<char>, value: RtView, name: Seq<char>)
    requires
        absent(heap, name),
        other != name,
    ensures
        absent(heap.declared(scope, other, value), name),
{
    let after = heap.declared(scope, other, value);
    lemma_put_keys(heap.bindings(scope), other, value);
    assert forall|id: SlotId| !has_key(#[trigger] after.bindings(id), name) by {
        assert(!has_key(heap.bindings(id), name));
        assert(!has_key(heap.bindings(scope), name));
        if id != scope {
            assert(after.slot(id) == heap.slot(id));
        }
    }
}

/// Whether a slot binds nothing.
spec fn bare(slot: SlotView) -> bool {
    slot matches SlotView::Scope { bindings, .. } ==> bindings.len() == 0
}

proof fn lemma_allocated(heap: HeapView, slot: SlotView, name: Seq<char>)
    requires
        absent(heap, name),
        bare(slot),
    ensures
        absent(heap.allocated(slot), name),
{
    let after = heap.allocated(slot);
    if heap.free.len() > 0 {
        assert(heap.free[heap.free.len() - 1].0 < heap.slots.len());
        assert forall|i: int| 0 <= i < after.free.len() implies (#[trigger] after.free[i]).0 < after.slots.len() by {
            assert(after.free[i] == heap.free[i]);
        }
    }
    assert forall|id: SlotId| !has_key(#[trigger] after.bindings(id), name) by {
        assert(!has_key(heap.bindings(id), name));
        assert(after.slot(id) == heap.slot(id) || after.slot(id) == slot);
    }
}

/// A slot that is replaced by one with the same bindings.
proof fn lemma_replaced(heap: HeapView, at: SlotId, slot: SlotView, name: Seq<char>)
    requires
        absent(heap, name),
        at.0 < heap.slots.len(),
        slot matches SlotView::Scope { bindings, .. } ==> bindings == heap.bindings(at),
    ensures
        absent(heap.with(at, slot), name),
{
    let after = heap.with(at, slot);
    assert forall|id: SlotId| !has_key(#[trigger] after.bindings(id), name) by {
        assert(!has_key(heap.bindings(id), name));
        assert(!has_key(heap.bindings(at), name));
        if id != at {
            assert(after.slot(id) == heap.slot(id));
        }
    }
}

proof fn lemma_marked(heap: HeapView, scope: SlotId, fuel: nat, name: Seq<char>)
    requires
        absent(heap, name),
    ensures
        absent(heap.mark_within(scope, fuel), name),
    decreases fuel,
{
    if fuel > 0 {
        if let SlotView::Scope { bindings, parent, captured } = heap.slot(scope) {
            if !captured {
                let slot = SlotView::Scope { bindings, parent, captured: true };
                lemma_replaced(heap, scope, slot, name);
                if let Some(outer) = parent {
                    lemma_marked(heap.with(scope, slot), outer, (fuel - 1) as nat, name);
                }
            }
        }
    }
}

proof fn lemma_released(heap: HeapView, scope: SlotId, name: Seq<char>)
    requires
        absent(heap, name),
    ensures
        absent(heap.scope_released(scope), name),
{
    if !heap.captured(scope) && !(heap.slot(scope) is Free) {
        let after = heap.release(scope);
        lemma_replaced(heap, scope, SlotView::Free, name);
        assert forall|i: int| 0 <= i < after.free.len() implies (#[trigger] after.free[i]).0 < after.slots.len() by {
            if i < heap.free.len() {
                assert(after.free[i] == heap.free[i]);
            }
        }
        assert forall|id: SlotId| !has_key(#[trigger] after.bindings(id), name) by {
            assert(after.slot(id) == heap.with(scope, SlotView::Free).slot(id));
            assert(!has_key(heap.with(scope, SlotView::Free).bindings(id), name));
        }
    }
}

/// Making a string binds nothing.
proof fn lemma_issued(heap: HeapView, name: Seq<char>)
    requires
        absent(heap, name),
    ensures
        absent(heap.issue(), name),
{
    assert forall|id: SlotId| !has_key(#[trigger] heap.issue().bindings(id), name) by {
        assert(heap.issue().slot(id) == heap.slot(id));
        assert(!has_key(heap.bindings(id), name));
    }
}

proof fn lemma_attached(heap: HeapView, value: ValueView, name: Seq<char>)
    requires
        absent(heap, name),
    ensures
        absent(attach_value(heap, value).0, name),
    decreases value, 0int,
{
    match value {
        ValueView::Array(items) => {
            lemma_items_attached(heap, items, 0, name);
            let (after, parts) = attach_items(heap, items, 0);
            lemma_allocated(after, SlotView::Array { items: parts, version: 0 }, name);
        },
        ValueView::Object(entries) => {
            lemma_entries_attached(heap, entries, 0, name);
            let (after, parts) = attach_entries(heap, entries, 0);
            lemma_allocated(after, SlotView::Object { entries: keyed(entries, parts), version: 0 }, name);
        },
        ValueView::String(_) => {
            lemma_issued(heap, name);
        },
        _ => {},
    }
}

proof fn lemma_items_attached(heap: HeapView, items: Seq<ValueView>, k: int, name: Seq<char>)
    requires
        absent(heap, name),
        0 <= k <= items.len(),
    ensures
        absent(attach_items(heap, items, k).0, name),
    decreases items, items.len() - k,
{
    if k < items.len() {
        lemma_attached(heap, items[k], name);
        lemma_items_attached(attach_value(heap, items[k]).0, items, k + 1, name);
    }
}

proof fn lemma_entries_attached(heap: HeapView, entries: Seq<(Seq<char>, ValueView)>, k: int, name: Seq<char>)
    requires
        absent(heap, name),
        0 <= k <= entries.len(),
    ensures
        absent(attach_entries(heap, entries, k).0, name),
    decreases entries, entries.len() - k,
{
    if k < entries.len() {
        lemma_attached(heap, entries[k].1, name);
        lemma_entries_attached(attach_value(heap, entries[k].1).0, entries, k + 1, name);
    }
}

proof fn lemma_function_made(m: MachineView, at: FnAt, name: Seq<char>)
    requires
        absent(m.heap, name),
    ensures
        absent(m.function_made(at).heap, name),
{
    let definition = crate::interpreter::semantics::definition_of(m.functions, at, 0);
    lemma_marked(m.heap, m.scope, m.heap.slots.len(), name);
    lemma_allocated(
        m.heap.marked(m.scope),
        SlotView::Function { definition: definition as usize, scope: m.scope },
        name,
    );
}

proof fn lemma_hoisted(p: Program, m: MachineView, block: Option<BlockId>, k: int, name: Seq<char>)
    requires
        p.has_body(block),
        !declares(p, name),
        absent(m.heap, name),
        0 <= k,
    ensures
        absent(m.hoisted(p, block, k).heap, name),
    decreases p.statements_of(block).len() - k,
{
    if k < p.statements_of(block).len() {
        lemma_small(p, block);
        match p.statements_of(block)[k].kind {
            StatementKind::Function { name: bound, .. } => {
                let place = StmtAt { block, index: k as usize };
                assert(stmt_ok(p, place));
                assert(!binds(statement_at(p, place), name));
                let at = FnAt::Declared(place);
                lemma_function_made(m, at, name);
                let made = m.function_made(at);
                lemma_declared(made.heap, m.scope, bound.name@, m.function_value(), name);
                let next = MachineView {
                    heap: made.heap.declared(m.scope, bound.name@, m.function_value()),
                    ..made
                };
                lemma_hoisted(p, next, block, k + 1, name);
            },
            _ => {
                lemma_hoisted(p, m, block, k + 1, name);
            },
        }
    }
}

proof fn lemma_opened(p: Program, m: MachineView, block: Option<BlockId>, name: Seq<char>)
    requires
        p.has_body(block),
        !declares(p, name),
        absent(m.heap, name),
    ensures
        absent(m.opened(p, block).heap, name),
{
    lemma_hoisted(p, m, block, 0, name);
}

proof fn lemma_scoped(heap: HeapView, parent: SlotId, name: Seq<char>)
    requires
        absent(heap, name),
    ensures
        absent(heap.scope_pushed(Some(parent)), name),
{
    lemma_allocated(
        heap,
        SlotView::Scope { bindings: Seq::empty(), parent: Some(parent), captured: false },
        name,
    );
}

proof fn lemma_entered(p: Program, m: MachineView, block: BlockId, name: Seq<char>)
    requires
        p.has_block(block),
        !declares(p, name),
        absent(m.heap, name),
    ensures
        absent(m.entered(p, block).heap, name),
{
    lemma_scoped(m.heap, m.scope, name);
    lemma_opened(p, m.scoped(m.scope).push(Frame::ExitScope(m.scope)), Some(block), name);
}

proof fn lemma_branched(p: Program, m: MachineView, at: StmtAt, index: int, name: Seq<char>)
    requires
        p.wf(),
        stmt_ok(p, at),
        !declares(p, name),
        absent(m.heap, name),
    ensures
        absent(m.branched(p, at, index).heap, name),
{
    lemma_statement_ok(p, at);
    if let StatementKind::If { branches, else_branch } = statement_at(p, at).kind {
        if index >= branches@.len() {
            if let Some(otherwise) = else_branch {
                lemma_entered(p, m, otherwise.body, name);
            }
        }
    }
}

proof fn lemma_unwound(m: MachineView, consume: bool, name: Seq<char>)
    requires
        absent(m.heap, name),
    ensures
        absent(m.unwound(consume).heap, name),
    decreases m.frames.len(),
{
    if m.frames.len() > 0 {
        let rest = MachineView { frames: m.frames.drop_last(), ..m };
        match m.frames.last() {
            Frame::ExitScope(outer) => {
                lemma_released(m.heap, m.scope, name);
                lemma_unwound(rest.exited(outer), consume, name);
            },
            Frame::Loop(_) => {},
            Frame::CallEnd { .. } => {},
            _ => {
                lemma_unwound(rest, consume, name);
            },
        }
    }
}

proof fn lemma_returned(m: MachineView, value: RtView, name: Seq<char>)
    requires
        absent(m.heap, name),
    ensures
        absent(m.returned(value).heap, name),
    decreases m.frames.len(),
{
    if m.frames.len() > 0 {
        let rest = MachineView { frames: m.frames.drop_last(), ..m };
        match m.frames.last() {
            Frame::ExitScope(outer) => {
                lemma_released(m.heap, m.scope, name);
                lemma_returned(rest.exited(outer), value, name);
            },
            Frame::CallEnd { values, .. } => {
                lemma_released(m.heap, m.scope, name);
            },
            _ => {
                lemma_returned(rest, value, name);
            },
        }
    }
}

proof fn lemma_statement(p: Program, m: MachineView, at: StmtAt, name: Seq<char>)
    requires
        p.wf(),
        stmt_ok(p, at),
        !declares(p, name),
        absent(m.heap, name),
    ensures
        leads_without(m.statement(p, at), name),
{
    lemma_statement_ok(p, at);
    match statement_at(p, at).kind {
        StatementKind::Return { value: None, .. } => {
            lemma_returned(m, RtView::Null, name);
        },
        StatementKind::Block(id) => {
            lemma_entered(p, m, id, name);
        },
        StatementKind::If { .. } => {
            lemma_branched(p, m, at, 0, name);
        },
        StatementKind::Break { .. } => {
            lemma_unwound(m, true, name);
        },
        StatementKind::Continue { .. } => {
            lemma_unwound(m, false, name);
        },
        _ => {},
    }
}

proof fn lemma_parameters(
    heap: HeapView,
    scope: SlotId,
    function: Function,
    values: Seq<RtView>,
    n: int,
    name: Seq<char>,
)
    requires
        absent(heap, name),
        !takes(function, name),
        n <= function.parameters@.len(),
    ensures
        absent(bound(heap, scope, function, values, n), name),
    decreases n,
{
    if n > 0 {
        lemma_parameters(heap, scope, function, values, n - 1, name);
        assert(function.parameters@[n - 1].name@ != name);
        lemma_declared(
            bound(heap, scope, function, values, n - 1),
            scope,
            function.parameters@[n - 1].name@,
            values[n - 1],
            name,
        );
    }
}

/// A function of the Program takes no name that the Program does not declare.
proof fn lemma_function_names(p: Program, at: FnAt, name: Seq<char>)
    requires
        fn_ok(p, at),
        function_at(p, at) is Some,
        !declares(p, name),
    ensures
        !takes(function_at(p, at)->0, name),
{
    match at {
        FnAt::Declared(place) => {
            assert(stmt_ok(p, place));
            assert(!binds(statement_at(p, place), name));
        },
        FnAt::Literal(id) => {
            assert(p.has_expr(id));
        },
    }
}

proof fn lemma_invoked(
    p: Program,
    m: MachineView,
    chain: Chain,
    index: usize,
    in_target: bool,
    arguments: usize,
    name: Seq<char>,
)
    requires
        p.wf(),
        forall|i: int| 0 <= i < m.functions.len() ==> fn_ok(p, #[trigger] m.functions[i]),
        !declares(p, name),
        absent(m.heap, name),
    ensures
        leads_without(m.invoked(p, chain, index, in_target, arguments), name),
{
    let links = chain_links(p, chain);
    if index < links.len() {
        let rest = m.pops(arguments as int).pop();
        let values = m.tops(arguments as int);
        if let RtView::Function(slot) = m.pops(arguments as int).top() {
            if let SlotView::Function { definition, scope } = m.heap.slot(slot) {
                if m.defined(p, definition) is Some {
                    let at = m.functions[definition as int];
                    assert(fn_ok(p, at));
                    let function = m.defined(p, definition)->0;
                    lemma_function_body(p, at);
                    lemma_function_names(p, at, name);
                    let inner = rest.scoped(scope);
                    lemma_scoped(m.heap, scope, name);
                    let framed = MachineView { depth: m.depth + 1, ..inner }.push(
                        Frame::CallEnd {
                            outer_scope: m.scope,
                            values: rest.values.len() as usize,
                            chain,
                            index,
                            in_target,
                        },
                    );
                    lemma_parameters(
                        framed.heap,
                        framed.scope,
                        function,
                        values,
                        function.parameters@.len() as int,
                        name,
                    );
                    let named = MachineView {
                        heap: bound(framed.heap, framed.scope, function, values, function.parameters@.len() as int),
                        ..framed
                    };
                    lemma_opened(p, named, Some(function.body), name);
                }
            }
        }
    }
}

proof fn lemma_advanced(p: Program, m: MachineView, state: LoopFrame, name: Seq<char>)
    requires
        p.wf(),
        crate::interpreter::machine::loop_ok(p, state),
        !declares(p, name),
        absent(m.heap, name),
    ensures
        leads_without(m.advanced(p, state), name),
{
    if let LoopKind::For { keyword, at, body, collection, version, index, over_keys } = state.kind {
        if let Some(item) = iterated(m.heap, collection, index, over_keys) {
            let next = LoopFrame {
                kind: LoopKind::For {
                    keyword,
                    at,
                    body,
                    collection,
                    version,
                    index: (index + 1) as usize,
                    over_keys,
                },
                ..state
            };
            let made = if over_keys { m.text_made() } else { m };
            let inner = made.scoped(state.outer_scope);
            lemma_issued(m.heap, name);
            lemma_scoped(made.heap, state.outer_scope, name);
            let named = match statement_at(p, at).kind {
                StatementKind::For { binding, .. } => MachineView {
                    heap: inner.heap.declared(inner.scope, binding.name@, item),
                    ..inner
                },
                _ => inner,
            };
            if let StatementKind::For { binding, .. } = statement_at(p, at).kind {
                assert(stmt_ok(p, at));
                assert(!binds(statement_at(p, at), name));
                lemma_declared(inner.heap, inner.scope, binding.name@, item, name);
            }
            lemma_opened(p, named.push(Frame::Loop(next)).push(Frame::ExitScope(m.scope)), Some(body), name);
        }
    }
}

proof fn lemma_object_store(heap: HeapView, id: SlotId, key: Seq<char>, value: RtView, name: Seq<char>)
    requires
        absent(heap, name),
    ensures
        absent(heap.object_store(id, key, value), name),
{
    if let SlotView::Object { entries, version } = heap.slot(id) {
        lemma_replaced(
            heap,
            id,
            SlotView::Object {
                entries: crate::table::put(entries, key, value),
                version: crate::interpreter::heap::bumped(version),
            },
            name,
        );
    }
}

proof fn lemma_array_store(heap: HeapView, id: SlotId, index: int, value: RtView, name: Seq<char>)
    requires
        absent(heap, name),
    ensures
        heap.array_store(id, index, value) matches Some(after) ==> absent(after, name),
{
    if let SlotView::Array { items, version } = heap.slot(id) {
        let version = crate::interpreter::heap::bumped(version);
        lemma_replaced(heap, id, SlotView::Array { items: items.update(index, value), version }, name);
        lemma_replaced(heap, id, SlotView::Array { items: items.push(value), version }, name);
    }
}

proof fn lemma_member_assigned(p: Program, m: MachineView, target: ExprId, name: Seq<char>)
    requires
        absent(m.heap, name),
    ensures
        leads_without(m.member_assigned(p, target), name),
{
    let value = m.top();
    let rest = m.pop();
    if let ExpressionKind::Access { links, .. } = p.expr(target).kind {
        if links@.len() > 0 {
            match links@.last().kind {
                AccessKind::Property(property) => {
                    if let RtView::Object(object) = rest.top() {
                        lemma_object_store(m.heap, object, property.name@, value, name);
                    }
                },
                AccessKind::Index { .. } => {
                    match (rest.pop().top(), rest.top()) {
                        (RtView::Array(array), RtView::Number(n)) => {
                            if let Some(i) = crate::number::position_of(n) {
                                lemma_array_store(m.heap, array, i, value, name);
                            }
                        },
                        (RtView::Object(object), RtView::String(k, _)) => {
                            lemma_object_store(m.heap, object, k, value, name);
                        },
                        _ => {},
                    }
                },
                AccessKind::Call { .. } => {},
            }
        }
    }
}

proof fn lemma_unresolved(heap: HeapView, scope: SlotId, name: Seq<char>, fuel: nat)
    requires
        absent(heap, name),
    ensures
        heap.resolve_within(scope, name, fuel) is None,
    decreases fuel,
{
    if fuel > 0 {
        if let SlotView::Scope { bindings, parent, .. } = heap.slot(scope) {
            assert(heap.bindings(scope) == bindings);
            if let Some(outer) = parent {
                lemma_unresolved(heap, outer, name, (fuel - 1) as nat);
            }
        }
    }
}

proof fn lemma_expression(p: Program, m: MachineView, id: ExprId, name: Seq<char>)
    requires
        absent(m.heap, name),
    ensures
        leads_without(m.expression(p, id), name),
{
    lemma_issued(m.heap, name);
    if let ExpressionKind::Function(_) = p.expr(id).kind {
        lemma_function_made(m, FnAt::Literal(id), name);
    }
}

/// An operator's outcome, of which only a string touches the heap.
proof fn lemma_concluded(m: MachineView, made: Made, asking: MachineView, name: Seq<char>)
    requires
        absent(m.heap, name),
        absent(asking.heap, name),
    ensures
        leads_without(m.concluded(made, asking), name),
{
    lemma_issued(m.heap, name);
}

/// The operators.
#[verifier::spinoff_prover]
proof fn lemma_operated(p: Program, m: MachineView, frame: Frame, name: Seq<char>)
    requires
        absent(m.heap, name),
        frame is Unary || frame is Binary,
    ensures
        leads_without(m.step(p, frame), name),
{
    match frame {
        Frame::Unary { operator, operand } => {
            let value = m.top();
            let rest = if m.answered is None { m.pop().read_text(value) } else { m.pop() };
            let made = unary(p, m.heap, operator, operand, value, m.answered);
            lemma_concluded(rest, made, rest.give(value).push(frame), name);
        },
        Frame::Binary { left, operator, right } => {
            let r = m.top();
            let l = m.pop().top();
            let popped = m.pop().pop();
            let rest = if m.answered is None { popped.read_text(l).read_text(r) } else { popped };
            let made = binary(p, left, operator, right, l, r, m.answered);
            lemma_concluded(rest, made, rest.give(l).give(r).push(frame), name);
        },
        _ => {},
    }
}

/// The frames that leave the heap as it is.
proof fn lemma_quiet(p: Program, m: MachineView, frame: Frame, name: Seq<char>)
    requires
        absent(m.heap, name),
        frame is Discard || frame is BinaryRight || frame is Link || frame is IndexRead || frame is ForStart
            || frame is HostCall,
    ensures
        leads_without(m.step(p, frame), name),
{
    match frame {
        Frame::Link { chain, index, in_target } => {
            assert(leads_without(m.link(p, chain, index, in_target), name));
        },
        Frame::IndexRead { chain, index, in_target } => {
            assert(leads_without(m.index_read(p, chain, index, in_target), name));
        },
        Frame::ForStart(at) => {
            assert(leads_without(m.for_started(p, at), name));
        },
        Frame::HostCall { chain, in_target } => {
            assert(leads_without(m.host_called(p, chain, in_target), name));
        },
        _ => {},
    }
}

proof fn lemma_built(p: Program, m: MachineView, frame: Frame, name: Seq<char>)
    requires
        absent(m.heap, name),
        frame is BuildArray || frame is BuildObject,
    ensures
        leads_without(m.step(p, frame), name),
{
    match frame {
        Frame::BuildArray { count, .. } => {
            lemma_allocated(m.heap, SlotView::Array { items: m.tops(count as int), version: 0 }, name);
        },
        Frame::BuildObject(id) => {
            if let ExpressionKind::Object { entries, .. } = p.expr(id).kind {
                let values = m.tops(entries@.len() as int);
                lemma_allocated(
                    m.heap,
                    SlotView::Object {
                        entries: crate::interpreter::semantics::literal_entries(p, id, values, values.len() as int),
                        version: 0,
                    },
                    name,
                );
            }
        },
        _ => {},
    }
}

proof fn lemma_named(p: Program, m: MachineView, frame: Frame, name: Seq<char>)
    requires
        !declares(p, name),
        absent(m.heap, name),
        frame is Declare || frame is AssignName,
        frame matches Frame::Declare(at) ==> stmt_ok(p, at),
    ensures
        leads_without(m.step(p, frame), name),
{
    match frame {
        Frame::Declare(at) => {
            if let StatementKind::Let { name: bound, .. } = statement_at(p, at).kind {
                assert(!binds(statement_at(p, at), name));
                lemma_declared(m.heap, m.scope, bound.name@, m.top(), name);
            }
        },
        Frame::AssignName(target) => {
            if let ExpressionKind::Identifier(other) = p.expr(target).kind {
                lemma_unresolved(m.heap, m.scope, name, m.heap.slots.len());
                if let Some(owner) = m.heap.resolve(m.scope, other.name@) {
                    lemma_declared(m.heap, owner, other.name@, m.top(), name);
                }
            }
        },
        _ => {},
    }
}

proof fn lemma_branch(p: Program, m: MachineView, at: StmtAt, index: usize, name: Seq<char>)
    requires
        p.wf(),
        stmt_ok(p, at),
        !declares(p, name),
        absent(m.heap, name),
    ensures
        leads_without(m.step(p, Frame::Branch { at, index }), name),
{
    lemma_statement_ok(p, at);
    if let StatementKind::If { branches, .. } = statement_at(p, at).kind {
        if index < branches@.len() {
            assert(p.has_block(branches@[index as int].body));
            lemma_entered(p, m.pop(), branches@[index as int].body, name);
        }
    }
    lemma_branched(p, m.pop(), at, index + 1, name);
}

/// A step binds no name that the Program does not declare.
#[verifier::spinoff_prover]
pub proof fn law_step_binds_declared_names(p: Program, m: MachineView, frame: Frame, name: Seq<char>)
    requires
        p.wf(),
        taken_fits(p, m, frame),
        !declares(p, name),
        absent(m.heap, name),
    ensures
        leads_without(m.step(p, frame), name),
{
    match frame {
        Frame::Statement(at) => {
            lemma_statement(p, m, at, name);
        },
        Frame::ExitScope(_) => {
            lemma_released(m.heap, m.scope, name);
        },
        Frame::Eval(id) => {
            lemma_expression(p, m, id, name);
        },
        Frame::Return(_) => {
            lemma_returned(m.pop(), m.top(), name);
        },
        Frame::BuildArray { .. } => {
            lemma_built(p, m, frame, name);
        },
        Frame::BuildObject(_) => {
            lemma_built(p, m, frame, name);
        },
        Frame::Declare(_) => {
            lemma_named(p, m, frame, name);
        },
        Frame::AssignName(_) => {
            lemma_named(p, m, frame, name);
        },
        Frame::AssignMember(target) => {
            lemma_member_assigned(p, m, target, name);
        },
        Frame::Branch { at, index } => {
            lemma_branch(p, m, at, index, name);
        },
        Frame::Loop(state) => {
            lemma_advanced(p, m, state, name);
        },
        Frame::LoopTest(state) => {
            lemma_entered(p, m.pop().push(Frame::Loop(state)), loop_body(state.kind), name);
        },
        Frame::Invoke { chain, index, in_target, arguments } => {
            lemma_invoked(p, m, chain, index, in_target, arguments, name);
        },
        Frame::CallEnd { .. } => {
            lemma_released(m.heap, m.scope, name);
        },
        Frame::Unary { .. } => {
            lemma_operated(p, m, frame, name);
        },
        Frame::Binary { .. } => {
            lemma_operated(p, m, frame, name);
        },
        _ => {
            lemma_quiet(p, m, frame, name);
        },
    }
}

/// However long a Script runs, it binds no name that its Program does not declare.
pub proof fn law_run_binds_declared_names(p: Program, m: MachineView, fuel: nat, name: Seq<char>)
    requires
        p.wf(),
        fits(p, m),
        !declares(p, name),
        absent(m.heap, name),
    ensures
        leads_without(m.run(p, fuel), name),
    decreases fuel,
{
    if m.frames.len() > 0 && fuel > 0 {
        let taken = m.taken();
        lemma_taken(p, m);
        law_step_keeps_fit(p, taken, m.frames.last());
        law_step_binds_declared_names(p, taken, m.frames.last(), name);
        if let Turn::Go(after) = taken.step(p, m.frames.last()) {
            let worked = MachineView { work: added(after.work, 1), ..after };
            assert(fits(p, worked));
            law_run_binds_declared_names(p, worked, (fuel - 1) as nat, name);
        }
    }
}

/// Before its first step a Script binds its starting variables and its named functions, no other name.
pub proof fn law_start_binds_declared_names(p: Program, variables: Seq<(Seq<char>, ValueView)>, name: Seq<char>)
    requires
        !declares(p, name),
        !has_key(variables, name),
    ensures
        absent(started(p, variables).heap, name),
{
    let none = HeapView { slots: Seq::empty(), free: Seq::empty(), issued: 0 };
    let root = none.next();
    assert(absent(none, name));
    lemma_allocated(none, SlotView::Scope { bindings: Seq::empty(), parent: None, captured: false }, name);
    lemma_variables(none.scope_pushed(None), root, variables, variables.len() as int, name);
    lemma_opened(
        p,
        MachineView {
            frames: Seq::empty(),
            values: Seq::empty(),
            heap: variables_bound(none.scope_pushed(None), root, variables, variables.len() as int),
            scope: root,
            root,
            functions: Seq::empty(),
            depth: 0,
            suspended: None,
            meter: crate::interpreter::semantics::Meter { slice: None, memory_ceiling: None, allocation_ceiling: None },
            work: 0,
            site: crate::interpreter::semantics::Site::Unknown,
            allocations: 0,
            answered: None,
        },
        None,
        name,
    );
}

proof fn lemma_variables(
    heap: HeapView,
    scope: SlotId,
    variables: Seq<(Seq<char>, ValueView)>,
    n: int,
    name: Seq<char>,
)
    requires
        absent(heap, name),
        !has_key(variables, name),
        n <= variables.len(),
    ensures
        absent(variables_bound(heap, scope, variables, n), name),
    decreases n,
{
    if n > 0 {
        lemma_variables(heap, scope, variables, n - 1, name);
        let earlier = variables_bound(heap, scope, variables, n - 1);
        lemma_attached(earlier, variables[n - 1].1, name);
        let (after, value) = attach_value(earlier, variables[n - 1].1);
        assert(variables[n - 1].0 != name);
        lemma_declared(after, scope, variables[n - 1].0, value, name);
    }
}

/// Answering a host call binds no name.
pub proof fn law_resume_binds_nothing(m: MachineView, value: ValueView, name: Seq<char>)
    requires
        absent(m.heap, name),
    ensures
        absent(resumed(m, value).heap, name),
{
    if let Some((chain, in_target)) = m.suspended {
        lemma_attached(m.heap, value, name);
    }
}

/// A name that nothing binds cannot be read, cannot be assigned, and is the host's when it is called.
pub proof fn law_absent_names_fail(p: Program, m: MachineView, id: ExprId, name: Seq<char>)
    requires
        absent(m.heap, name),
        p.expr(id).kind matches ExpressionKind::Identifier(node) && node.name@ == name,
    ensures
        p.expr(id).kind matches ExpressionKind::Identifier(node) ==> {
            &&& m.step(p, Frame::Eval(id)) == Turn::Fail(undeclared(name, node.span))
            &&& m.step(p, Frame::AssignName(id)) == Turn::Fail(undeclared_assignment(name, node.span))
        },
        forall|access: ExprId, end: int, in_target: bool|
            (p.expr(access).kind matches ExpressionKind::Access { base, links } && host_callee(p, base, links@, end) == Some(
                name,
            )) ==> #[trigger] m.chain_opened(p, access, end, in_target) == Turn::Go(
                m.push(Frame::HostCall { chain: Chain { access, end: end as usize }, in_target }).push_all(
                    evals(p.expr(access).kind->Access_links@[0].kind->Call_arguments@),
                ),
            ),
{
    lemma_unresolved(m.heap, m.scope, name, m.heap.slots.len());
}

} // verus!

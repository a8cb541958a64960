//! What a call of a Script's own function does.

use vstd::prelude::*;
use crate::interpreter::semantics::FnAt;
use crate::ast::BlockId;
use crate::ast::Function;
use crate::ast::Program;
use crate::ast::StatementKind;
use crate::check::entering::lemma_hoisted_grows;
use crate::check::entering::lemma_roomy;
use crate::check::looping::lemma_hoisted_binding;
use crate::interpreter::doing::lemma_bound_parameters;
use crate::interpreter::doing::lemma_hoisted_stacks;
use crate::interpreter::heap::HeapView;
use crate::interpreter::heap::RtView;
use crate::interpreter::heap::SlotId;
use crate::interpreter::heap::SlotView;
use crate::interpreter::lasting::lemma_allocated;
use crate::interpreter::scopes::around;
use crate::interpreter::semantics::Chain;
use crate::interpreter::semantics::Frame;
use crate::interpreter::semantics::MachineView;
use crate::interpreter::semantics::StmtAt;
use crate::interpreter::semantics::Turn;
use crate::interpreter::semantics::bound;
use crate::interpreter::semantics::chain_links;
use crate::table::distinct;
use crate::table::has_key;
use crate::table::value_of;

verus! {

proof fn lemma_bound_elsewhere(heap: HeapView, scope: SlotId, function: Function, values: Seq<RtView>, n: int)
    requires
        heap.wf(),
        heap.slot(scope) is Scope,
    ensures
        bound(heap, scope, function, values, n).wf(),
        bound(heap, scope, function, values, n).slot(scope) is Scope,
        bound(heap, scope, function, values, n).slots.len() == heap.slots.len(),
        bound(heap, scope, function, values, n).free == heap.free,
        around(bound(heap, scope, function, values, n), scope) == around(heap, scope),
    decreases n,
{
    if n > 0 {
        lemma_bound_elsewhere(heap, scope, function, values, n - 1);
        let before = bound(heap, scope, function, values, n - 1);
        if let SlotView::Scope { bindings, parent, captured } = before.slot(scope) {
            crate::check::running::lemma_replaced_wf(
                before,
                scope,
                SlotView::Scope {
                    bindings: crate::table::put(bindings, function.parameters@[n - 1].name@, values[n - 1]),
                    parent,
                    captured,
                },
            );
        }
    }
}

/// A call runs the function's body, from its first statement on, in a new scope inside the one that the
/// function was made in, where parameter `i` is bound to argument `i`. A call with another number of arguments,
/// one too deep, and one of anything but a function fail at the call.
#[verifier::spinoff_prover]
pub proof fn law_call_binds_parameters(
    p: Program,
    m: MachineView,
    chain: Chain,
    index: usize,
    in_target: bool,
    arguments: usize,
    slot: SlotId,
    made_in: SlotId,
    function: Function,
    i: int,
)
    requires
        index < chain_links(p, chain).len(),
        arguments < m.values.len(),
        m.values.len() <= usize::MAX,
        m.values[m.values.len() - arguments - 1] == RtView::Function(slot),
        m.heap.slot(slot) matches SlotView::Function { definition, scope } && scope == made_in && m.defined(p, definition)
            == Some(function),
        m.heap.wf(),
        p.statements_of(Some(function.body)).len() <= usize::MAX,
        0 <= i < function.parameters@.len(),
        forall|a: int, b: int|
            0 <= a < b < function.parameters@.len() ==> (#[trigger] function.parameters@[a]).name@ != (
            #[trigger] function.parameters@[b]).name@,
        forall|j: int|
            0 <= j < p.statements_of(Some(function.body)).len() ==> ((#[trigger] p.statements_of(Some(function.body))[j]).kind
                matches StatementKind::Function { name: other, .. } ==> other.name@ != function.parameters@[i].name@),
    ensures
        arguments != function.parameters@.len() ==> (m.step(p, Frame::Invoke { chain, index, in_target, arguments })
            matches Turn::Fail(d) && d.code == "arity.argument_count"@ && d.span == chain_links(p, chain)[index as int].span),
        arguments == function.parameters@.len() && m.depth >= 1024 ==> (m.step(
            p,
            Frame::Invoke { chain, index, in_target, arguments },
        ) matches Turn::Fail(d) && d.code == "depth.call_depth_exceeded"@ && d.span == chain_links(p, chain)[index as int].span),
        arguments == function.parameters@.len() && m.depth < 1024 ==> (m.step(
            p,
            Frame::Invoke { chain, index, in_target, arguments },
        ) matches Turn::Go(after) && after.depth == m.depth + 1 && after.values == m.values.take(m.values.len() - arguments - 1)
            && after.frames.len() == m.frames.len() + 1 + p.statements_of(Some(function.body)).len() && after.frames.take(
            m.frames.len() as int,
        ) == m.frames && after.frames[m.frames.len() as int] == (Frame::CallEnd {
            outer_scope: m.scope,
            values: (m.values.len() - arguments - 1) as usize,
            chain,
            index,
            in_target,
        }) && (forall|k: int|
            0 <= k < p.statements_of(Some(function.body)).len() ==> (#[trigger] after.frames[after.frames.len() - 1 - k])
                == Frame::Statement(StmtAt { block: Some(function.body), index: k as usize })) && (after.heap.slots.len()
            <= usize::MAX ==> after.heap.lookup(after.scope, function.parameters@[i].name@) == Some(
            m.values[m.values.len() - arguments + i],
        ))),
{
    let values = m.tops(arguments as int);
    let rest = m.pops(arguments as int).pop();
    assert(m.pops(arguments as int).values =~= m.values.take(m.values.len() - arguments));
    assert(m.pops(arguments as int).top() == RtView::Function(slot));
    assert(rest.values =~= m.values.take(m.values.len() - arguments - 1));
    if arguments == function.parameters@.len() && m.depth < 1024 {
        let inner = rest.scoped(made_in);
        let framed = MachineView { depth: m.depth + 1, ..inner }.push(
            Frame::CallEnd { outer_scope: m.scope, values: rest.values.len() as usize, chain, index, in_target },
        );
        let n = function.parameters@.len() as int;
        let ready = MachineView { heap: bound(framed.heap, framed.scope, function, values, n), ..framed };
        let after = ready.opened(p, Some(function.body));
        assert(m.step(p, Frame::Invoke { chain, index, in_target, arguments }) == Turn::Go(after));
        lemma_hoisted_stacks(p, ready, Some(function.body), 0);
        assert(after.frames.take(m.frames.len() as int) =~= m.frames);
        let new = SlotView::Scope { bindings: Seq::empty(), parent: Some(made_in), captured: false };
        if after.heap.slots.len() <= usize::MAX {
            lemma_roomy(m.heap, new);
            lemma_bound_room(framed.heap, framed.scope, function, values, n);
            lemma_hoisted_grows(p, ready, Some(function.body), 0);
            lemma_allocated(m.heap, new);
            lemma_bound_elsewhere(framed.heap, framed.scope, function, values, n);
            lemma_bound_parameters(framed.heap, framed.scope, function, values, n, i);
            lemma_hoisted_binding(p, ready, Some(function.body), function.parameters@[i].name@, 0);
            assert(value_of(after.heap.bindings(after.scope), function.parameters@[i].name@) == Some(values[i]));
            assert(has_key(after.heap.bindings(after.scope), function.parameters@[i].name@));
            assert(values[i] == m.values[m.values.len() - arguments + i]);
        }
    }
}

proof fn lemma_bound_room(heap: HeapView, scope: SlotId, function: Function, values: Seq<RtView>, n: int)
    ensures
        bound(heap, scope, function, values, n).slots.len() == heap.slots.len(),
        bound(heap, scope, function, values, n).free == heap.free,
    decreases n,
{
    if n > 0 {
        lemma_bound_room(heap, scope, function, values, n - 1);
    }
}

/// Only functions can be called.
pub proof fn law_only_functions_are_called(p: Program, m: MachineView, chain: Chain, index: usize, in_target: bool, arguments: usize)
    requires
        index < chain_links(p, chain).len(),
        arguments < m.values.len(),
        !(m.values[m.values.len() - arguments - 1] is Function),
    ensures
        m.step(p, Frame::Invoke { chain, index, in_target, arguments }) matches Turn::Fail(d) && d.code == "type.not_callable"@
            && d.span == chain_links(p, chain)[index as int].span,
{
    assert(m.pops(arguments as int).values =~= m.values.take(m.values.len() - arguments));
}

/// The functions that a block declares can be called from its first statement on: when the block is entered, each of
/// their names is bound to a function made in the block's scope, the last one with the name if there are more.
#[verifier::spinoff_prover]
pub proof fn law_functions_are_hoisted(p: Program, m: MachineView, block: Option<BlockId>, i: int, k: int)
    requires
        0 <= i <= k < p.statements_of(block).len(),
        p.statements_of(block).len() <= usize::MAX,
        p.statements_of(block)[k].kind is Function,
        forall|j: int|
            k < j < p.statements_of(block).len() ==> ((#[trigger] p.statements_of(block)[j]).kind matches StatementKind::Function {
                name: other,
                ..
            } ==> other.name@ != p.statements_of(block)[k].kind->Function_name.name@),
        m.heap.wf(),
        m.heap.slot(m.scope) is Scope,
        distinct(m.heap.bindings(m.scope)),
        m.hoisted(p, block, i).heap.slots.len() <= usize::MAX,
        m.hoisted(p, block, i).functions.len() <= usize::MAX,
    ensures
        m.hoisted(p, block, i).scope == m.scope,
        value_of(m.hoisted(p, block, i).heap.bindings(m.scope), p.statements_of(block)[k].kind->Function_name.name@)
            matches Some(RtView::Function(_)),
    decreases k - i,
{
    match p.statements_of(block)[i].kind {
        StatementKind::Function { name, .. } => {
            let at = FnAt::Declared(StmtAt { block, index: i as usize });
            let made = m.function_made(at);
            let next = MachineView { heap: made.heap.declared(m.scope, name.name@, m.function_value()), ..made };
            let marked = m.heap.marked(m.scope);
            crate::check::looping::lemma_marked_bindings(m.heap, m.scope, m.heap.slots.len());
            crate::check::running::lemma_marked_still(m.heap, m.scope, m.heap.slots.len(), name.name@);
            let definition = crate::interpreter::semantics::definition_of(m.functions, at, 0);
            let slot = SlotView::Function { definition: definition as usize, scope: m.scope };
            lemma_roomy(marked, slot);
            assert(made.heap == marked.allocated(slot));
            lemma_hoisted_grows(p, next, block, i + 1);
            lemma_allocated(marked, slot);
            assert(marked.slot(m.scope) is Scope);
            assert(made.heap.slot(m.scope) == marked.slot(m.scope));
            assert(marked.bindings(m.scope) == m.heap.bindings(m.scope));
            if let SlotView::Scope { bindings, parent, captured } = made.heap.slot(m.scope) {
                crate::table::lemma_put_distinct(bindings, name.name@, m.function_value());
                crate::table::law_put_get(bindings, name.name@, m.function_value(), name.name@);
                crate::check::running::lemma_replaced_wf(
                    made.heap,
                    m.scope,
                    SlotView::Scope {
                        bindings: crate::table::put(bindings, name.name@, m.function_value()),
                        parent,
                        captured,
                    },
                );
            }
            if i == k {
                lemma_hoisted_binding(p, next, block, name.name@, i + 1);
            } else {
                law_functions_are_hoisted(p, next, block, i + 1, k);
            }
        },
        _ => {
            law_functions_are_hoisted(p, m, block, i + 1, k);
        },
    }
}

} // verus!

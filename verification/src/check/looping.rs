//! What the loops of a run do: a `for` takes each element, or each key, once and in order.

use vstd::prelude::*;
use crate::ast::AccessKind;
use crate::ast::BlockId;
use crate::ast::ExprId;
use crate::ast::ExpressionKind;
use crate::ast::Program;
use crate::ast::StatementKind;
use crate::check::entering::lemma_hoisted_grows;
use crate::check::entering::lemma_roomy;
use crate::check::reaching::follows;
use crate::check::reaching::lemma_hoisted_frames;
use crate::check::reaching::nothing;
use crate::check::reaching::walks;
use crate::check::running::lemma_marked_still;
use crate::check::running::lemma_replaced_wf;
use crate::check::running::sized;
use crate::check::stacking::lemma_trace_lasts;
use crate::interpreter::heap::HeapView;
use crate::interpreter::heap::RtView;
use crate::interpreter::heap::SlotId;
use crate::interpreter::heap::SlotView;
use crate::interpreter::lasting::good;
use crate::interpreter::lasting::law_step_lasts;
use crate::interpreter::lasting::lemma_allocated;
use crate::interpreter::machine::resumed;
use crate::interpreter::semantics::Chain;
use crate::interpreter::semantics::FnAt;
use crate::interpreter::semantics::Frame;
use crate::interpreter::semantics::LoopFrame;
use crate::interpreter::semantics::LoopKind;
use crate::interpreter::semantics::MachineView;
use crate::interpreter::semantics::StmtAt;
use crate::interpreter::semantics::Turn;
use crate::interpreter::semantics::definition_of;
use crate::interpreter::semantics::statement_at;
use crate::interpreter::value::ValueView;
use crate::table::distinct;
use crate::table::has_key;
use crate::table::law_put_get;
use crate::table::lemma_put_distinct;
use crate::table::value_of;

verus! {

/// Whether the lowest `n` frames are the same, if there still are as many.
pub open spec fn undisturbed(a: Seq<Frame>, b: Seq<Frame>, n: int) -> bool {
    b.len() >= n ==> forall|j: int| 0 <= j < n ==> #[trigger] b[j] == a[j]
}

/// Whether a turn leaves the lowest `n` frames as they are.
spec fn leaves(a: Seq<Frame>, turn: Turn, n: int) -> bool {
    match turn {
        Turn::Go(after) => undisturbed(a, after.frames, n),
        Turn::Halt(after, _) => undisturbed(a, after.frames, n),
        Turn::Fail(_) => true,
    }
}

/// Whether a turn only adds to some frames.
spec fn adds(a: Seq<Frame>, turn: Turn) -> bool {
    match turn {
        Turn::Go(after) => a.len() <= after.frames.len() && forall|j: int|
            0 <= j < a.len() ==> #[trigger] after.frames[j] == a[j],
        Turn::Halt(after, _) => a.len() <= after.frames.len() && forall|j: int|
            0 <= j < a.len() ==> #[trigger] after.frames[j] == a[j],
        Turn::Fail(_) => true,
    }
}

proof fn lemma_adds(a: Seq<Frame>, b: Seq<Frame>, turn: Turn, n: int)
    requires
        adds(b, turn),
        n <= a.len() <= b.len(),
        forall|j: int| 0 <= j < a.len() ==> #[trigger] b[j] == a[j],
    ensures
        leaves(a, turn, n),
{
    match turn {
        Turn::Go(after) => {
            assert forall|j: int| 0 <= j < n implies #[trigger] after.frames[j] == a[j] by {
                assert(after.frames[j] == b[j]);
            }
        },
        Turn::Halt(after, _) => {
            assert forall|j: int| 0 <= j < n implies #[trigger] after.frames[j] == a[j] by {
                assert(after.frames[j] == b[j]);
            }
        },
        Turn::Fail(_) => {},
    }
}

proof fn lemma_opened_frames(p: Program, m: MachineView, block: Option<BlockId>)
    ensures
        m.opened(p, block).frames.len() >= m.frames.len(),
        forall|j: int| 0 <= j < m.frames.len() ==> #[trigger] m.opened(p, block).frames[j] == m.frames[j],
{
    lemma_hoisted_frames(p, m, block, 0);
}

proof fn lemma_entered_frames(p: Program, m: MachineView, block: BlockId)
    ensures
        m.entered(p, block).frames.len() >= m.frames.len(),
        forall|j: int| 0 <= j < m.frames.len() ==> #[trigger] m.entered(p, block).frames[j] == m.frames[j],
{
    let inner = m.scoped(m.scope).push(Frame::ExitScope(m.scope));
    lemma_opened_frames(p, inner, Some(block));
    assert forall|j: int| 0 <= j < m.frames.len() implies #[trigger] m.entered(p, block).frames[j] == m.frames[j] by {
        assert(m.entered(p, block).frames[j] == inner.frames[j]);
    }
}

proof fn lemma_unwound_frames(m: MachineView, consume: bool)
    ensures
        m.unwound(consume).frames.len() <= m.frames.len(),
        forall|j: int| 0 <= j < m.unwound(consume).frames.len() ==> #[trigger] m.unwound(consume).frames[j] == m.frames[j],
    decreases m.frames.len(),
{
    if m.frames.len() > 0 {
        let rest = MachineView { frames: m.frames.drop_last(), ..m };
        match m.frames.last() {
            Frame::ExitScope(outer) => {
                lemma_unwound_frames(rest.exited(outer), consume);
            },
            Frame::Loop(_) => {},
            Frame::CallEnd { .. } => {},
            _ => {
                lemma_unwound_frames(rest, consume);
            },
        }
    }
}

proof fn lemma_returned_frames(m: MachineView, value: RtView, n: int)
    requires
        0 < n,
        n <= m.frames.len() ==> !(m.frames[n - 1] is CallEnd),
    ensures
        m.returned(value).frames.len() <= m.frames.len(),
        undisturbed(m.frames, m.returned(value).frames, n),
    decreases m.frames.len(),
{
    if m.frames.len() > 0 {
        let rest = MachineView { frames: m.frames.drop_last(), ..m };
        match m.frames.last() {
            Frame::ExitScope(outer) => {
                lemma_returned_frames(rest.exited(outer), value, n);
            },
            Frame::CallEnd { .. } => {},
            _ => {
                lemma_returned_frames(rest, value, n);
            },
        }
    }
}

proof fn lemma_chain_frames(p: Program, m: MachineView, access: ExprId, end: int, in_target: bool)
    ensures
        adds(m.frames, m.chain_opened(p, access, end, in_target)),
{
}

proof fn lemma_branched_frames(p: Program, m: MachineView, at: StmtAt, index: int)
    ensures
        adds(m.frames, Turn::Go(m.branched(p, at, index))),
{
    if let StatementKind::If { branches, else_branch } = statement_at(p, at).kind {
        if index >= branches@.len() {
            if let Some(otherwise) = else_branch {
                lemma_entered_frames(p, m, otherwise.body);
            }
        }
    }
}

#[verifier::spinoff_prover]
proof fn lemma_statement_frames(p: Program, m: MachineView, at: StmtAt, n: int)
    requires
        0 < n <= m.frames.len(),
        !(m.frames[n - 1] is CallEnd),
    ensures
        leaves(m.frames, m.statement(p, at), n),
{
    match statement_at(p, at).kind {
        StatementKind::Return { value, .. } => {
            if value is None {
                lemma_returned_frames(m, RtView::Null, n);
            }
        },
        StatementKind::Block(id) => {
            lemma_entered_frames(p, m, id);
        },
        StatementKind::Assignment { target, value, .. } => {
            let scheduled = m.push(Frame::AssignMember(target)).push(Frame::Eval(value));
            if let ExpressionKind::Access { links, .. } = p.expr(target).kind {
                if links@.len() > 0 {
                    lemma_chain_frames(p, scheduled, target, links@.len() - 1, true);
                    lemma_adds(m.frames, scheduled.frames, scheduled.chain_opened(p, target, links@.len() - 1, true), n);
                    if let AccessKind::Index { expression, .. } = links@.last().kind {
                        let keyed = scheduled.push(Frame::Eval(expression));
                        lemma_chain_frames(p, keyed, target, links@.len() - 1, true);
                        lemma_adds(m.frames, keyed.frames, keyed.chain_opened(p, target, links@.len() - 1, true), n);
                    }
                }
            }
        },
        StatementKind::If { .. } => {
            lemma_branched_frames(p, m, at, 0);
            lemma_adds(m.frames, m.frames, m.statement(p, at), n);
        },
        StatementKind::Break { .. } => {
            lemma_unwound_frames(m, true);
        },
        StatementKind::Continue { .. } => {
            lemma_unwound_frames(m, false);
        },
        _ => {},
    }
}

#[verifier::spinoff_prover]
proof fn lemma_advanced_frames(p: Program, m: MachineView, state: LoopFrame, n: int)
    requires
        0 < n <= m.frames.len(),
    ensures
        leaves(m.frames, m.advanced(p, state), n),
{
    if let Turn::Go(after) = m.advanced(p, state) {
        if let LoopKind::For { keyword, at, body, collection, version, index, over_keys } = state.kind {
            if let Some(item) = crate::interpreter::semantics::iterated(m.heap, collection, index, over_keys) {
                let made = if over_keys { m.text_made() } else { m };
                let inner = made.scoped(state.outer_scope);
                let named = match statement_at(p, at).kind {
                    StatementKind::For { binding, .. } => MachineView {
                        heap: inner.heap.declared(inner.scope, binding.name@, item),
                        ..inner
                    },
                    _ => inner,
                };
                let next = LoopFrame {
                    kind: LoopKind::For {
                        keyword,
                        at,
                        body,
                        collection,
                        version,
                        index: (index + 1) as usize,
                        over_keys,
                    },
                    ..state
                };
                let ready = named.push(Frame::Loop(next)).push(Frame::ExitScope(m.scope));
                lemma_opened_frames(p, ready, Some(body));
                assert(after == ready.opened(p, Some(body)));
                assert forall|j: int| 0 <= j < n implies #[trigger] after.frames[j] == m.frames[j] by {
                    assert(after.frames[j] == ready.frames[j]);
                }
            }
        }
    }
}

#[verifier::spinoff_prover]
proof fn lemma_invoked_frames(p: Program, m: MachineView, chain: Chain, index: usize, in_target: bool, arguments: usize, n: int)
    requires
        0 < n <= m.frames.len(),
    ensures
        leaves(m.frames, m.invoked(p, chain, index, in_target, arguments), n),
{
    let rest = m.pops(arguments as int).pop();
    if let Turn::Go(after) = m.invoked(p, chain, index, in_target, arguments) {
        if let RtView::Function(slot) = m.pops(arguments as int).top() {
            if let SlotView::Function { definition, scope } = m.heap.slot(slot) {
                if let Some(function) = m.defined(p, definition) {
                    let inner = rest.scoped(scope);
                    let framed = MachineView { depth: m.depth + 1, ..inner }.push(
                        Frame::CallEnd {
                            outer_scope: m.scope,
                            values: rest.values.len() as usize,
                            chain,
                            index,
                            in_target,
                        },
                    );
                    let ready = MachineView {
                        heap: crate::interpreter::semantics::bound(
                            framed.heap,
                            framed.scope,
                            function,
                            m.tops(arguments as int),
                            function.parameters@.len() as int,
                        ),
                        ..framed
                    };
                    lemma_opened_frames(p, ready, Some(function.body));
                    assert(after == ready.opened(p, Some(function.body)));
                    assert forall|j: int| 0 <= j < n implies #[trigger] after.frames[j] == m.frames[j] by {
                        assert(after.frames[j] == ready.frames[j]);
                    }
                }
            }
        }
    }
}

#[verifier::spinoff_prover]
proof fn lemma_expression_frames(p: Program, m: MachineView, id: ExprId)
    ensures
        adds(m.frames, m.expression(p, id)),
{
    if let ExpressionKind::Access { links, .. } = p.expr(id).kind {
        lemma_chain_frames(p, m, id, links@.len() as int, false);
    }
}

#[verifier::spinoff_prover]
proof fn lemma_link_frames(p: Program, m: MachineView, chain: Chain, index: usize, in_target: bool)
    ensures
        adds(m.frames, m.link(p, chain, index, in_target)),
        adds(m.frames, m.index_read(p, chain, index, in_target)),
{
}

#[verifier::spinoff_prover]
proof fn lemma_member_frames(p: Program, m: MachineView, target: ExprId)
    ensures
        adds(m.frames, m.member_assigned(p, target)),
{
}

#[verifier::spinoff_prover]
proof fn lemma_called_frames(p: Program, m: MachineView, chain: Chain, in_target: bool)
    ensures
        adds(m.frames, m.host_called(p, chain, in_target)),
{
}

#[verifier::spinoff_prover]
proof fn lemma_made_frames(p: Program, m: MachineView, frame: Frame)
    requires
        frame is Unary || frame is Binary,
    ensures
        adds(m.frames, m.step(p, frame)),
{
}

/// The frames that neither open a block nor unwind.
#[verifier::spinoff_prover]
proof fn lemma_other_frames(p: Program, m: MachineView, frame: Frame)
    requires
        !(frame is Statement || frame is Return || frame is Branch || frame is Loop || frame is LoopTest || frame is Invoke),
    ensures
        adds(m.frames, m.step(p, frame)),
{
    match frame {
        Frame::Eval(id) => {
            lemma_expression_frames(p, m, id);
        },
        Frame::Link { chain, index, in_target } => {
            lemma_link_frames(p, m, chain, index, in_target);
        },
        Frame::IndexRead { chain, index, in_target } => {
            lemma_link_frames(p, m, chain, index, in_target);
        },
        Frame::AssignMember(target) => {
            lemma_member_frames(p, m, target);
        },
        Frame::HostCall { chain, in_target } => {
            lemma_called_frames(p, m, chain, in_target);
        },
        Frame::Unary { .. } => {
            lemma_made_frames(p, m, frame);
        },
        Frame::Binary { .. } => {
            lemma_made_frames(p, m, frame);
        },
        _ => {},
    }
}

/// A step does not touch the frames below the ones that it takes off.
#[verifier::spinoff_prover]
proof fn lemma_step_frames(p: Program, m: MachineView, frame: Frame, n: int)
    requires
        0 < n <= m.frames.len(),
        !(m.frames[n - 1] is CallEnd),
    ensures
        leaves(m.frames, m.step(p, frame), n),
{
    match frame {
        Frame::Statement(at) => {
            lemma_statement_frames(p, m, at, n);
        },
        Frame::Return(_) => {
            lemma_returned_frames(m.pop(), m.top(), n);
        },
        Frame::Branch { at, index } => {
            lemma_branched_frames(p, m.pop(), at, index + 1);
            lemma_adds(m.frames, m.frames, Turn::Go(m.pop().branched(p, at, index + 1)), n);
            if let StatementKind::If { branches, .. } = statement_at(p, at).kind {
                if index < branches@.len() {
                    lemma_entered_frames(p, m.pop(), branches@[index as int].body);
                }
            }
        },
        Frame::Loop(state) => {
            lemma_advanced_frames(p, m, state, n);
        },
        Frame::LoopTest(state) => {
            let next = m.pop().push(Frame::Loop(state));
            let body = crate::interpreter::semantics::loop_body(state.kind);
            lemma_entered_frames(p, next, body);
            assert forall|j: int| 0 <= j < n implies #[trigger] next.entered(p, body).frames[j] == m.frames[j] by {
                assert(next.entered(p, body).frames[j] == next.frames[j]);
            }
        },
        Frame::Invoke { chain, index, in_target, arguments } => {
            lemma_invoked_frames(p, m, chain, index, in_target, arguments, n);
        },
        _ => {
            lemma_other_frames(p, m, frame);
            lemma_adds(m.frames, m.frames, m.step(p, frame), n);
        },
    }
}

/// Whether a run begins an iteration of the loop that lies on `d` frames with its next step.
pub open spec fn begins(trace: Seq<MachineView>, d: nat, i: int) -> bool {
    &&& 0 <= i < trace.len() - 1
    &&& trace[i].frames.len() == d + 1
    &&& trace[i].suspended is None
    &&& trace[i + 1].frames.len() > d + 1
}

/// How many iterations a run began in its first `i` steps.
pub open spec fn iterations(trace: Seq<MachineView>, d: nat, i: int) -> nat
    decreases i,
{
    if i <= 0 {
        0
    } else if begins(trace, d, i - 1) {
        iterations(trace, d, i - 1) + 1
    } else {
        iterations(trace, d, i - 1)
    }
}

/// Whether a run begins iteration `k` of the loop with its step `i`.
pub open spec fn begins_iteration(trace: Seq<MachineView>, d: nat, i: int, k: nat) -> bool {
    begins(trace, d, i) && iterations(trace, d, i) == k
}

/// Whether a run begins iteration `k` of the loop at all.
pub open spec fn runs_iteration(trace: Seq<MachineView>, d: nat, k: nat) -> bool {
    exists|i: int| #[trigger] begins_iteration(trace, d, i, k)
}

/// Whether step `i` of a run is one.
pub open spec fn goes(p: Program, trace: Seq<MachineView>, i: int) -> bool {
    sized(trace[i]) && sized(trace[i + 1]) && follows(p, trace[i], trace[i + 1])
}

/// Whether a run is that of one loop, from where it was opened on `d` frames to where it ended of itself.
pub open spec fn whole_loop(p: Program, trace: Seq<MachineView>, d: nat) -> bool {
    &&& trace.len() >= 2
    &&& forall|i: int| 0 <= i < trace.len() - 1 ==> #[trigger] goes(p, trace, i)
    &&& forall|i: int| 0 <= i < trace.len() - 1 ==> (#[trigger] trace[i]).frames.len() > d
    &&& trace[trace.len() - 2].frames.len() == d + 1
    &&& trace[trace.len() - 2].suspended is None
    &&& trace.last().frames.len() == d
}

proof fn lemma_walks(p: Program, trace: Seq<MachineView>, d: nat)
    requires
        whole_loop(p, trace, d),
    ensures
        walks(p, trace[0], trace, trace.last()),
{
    assert forall|i: int| 0 <= i < trace.len() implies sized(#[trigger] trace[i]) by {
        if i == trace.len() - 1 {
            assert(goes(p, trace, i - 1));
        } else {
            assert(goes(p, trace, i));
        }
    }
    assert forall|i: int| 0 < i < trace.len() implies follows(p, trace[i - 1], #[trigger] trace[i]) by {
        assert(goes(p, trace, i - 1));
    }
}

/// How much there is to take.
spec fn extent(heap: HeapView, id: SlotId, over_keys: bool) -> nat {
    if over_keys {
        heap.entries(id).len()
    } else {
        heap.elements(id).len()
    }
}

/// The loop in a machine after `k` iterations.
spec fn looping(m: MachineView, d: nat, state: LoopFrame, k: nat) -> bool {
    &&& m.frames.len() > d
    &&& (m.frames[d as int] matches Frame::Loop(now) && now.outer_scope == state.outer_scope && now.values == state.values && (
    now.kind matches LoopKind::For { keyword, at, body, collection, version, index, over_keys } && state.kind
        == (LoopKind::For { keyword, at, body, collection, version, index: 0, over_keys }) && index == k))
}

/// What an iteration that begins leaves on the frames.
#[verifier::spinoff_prover]
proof fn lemma_next_iteration(p: Program, m: MachineView, state: LoopFrame, d: nat, first: LoopFrame, k: nat)
    requires
        m.frames.len() == d,
        looping(m.push(Frame::Loop(state)), d, first, k),
        first.kind matches LoopKind::For { collection, over_keys, .. } && extent(m.heap, collection, over_keys) <= usize::MAX,
    ensures
        first.kind matches LoopKind::For { collection, over_keys, .. } && (m.advanced(p, state) matches Turn::Go(after)
            ==> if k < extent(m.heap, collection, over_keys) {
            after.frames.len() > d + 1 && looping(after, d, first, k + 1)
        } else {
            after.frames.len() == d
        }),
        !(m.advanced(p, state) is Halt),
{
    assert(m.push(Frame::Loop(state)).frames[d as int] == Frame::Loop(state));
    if let Turn::Go(after) = m.advanced(p, state) {
        if let LoopKind::For { keyword, at, body, collection, version, index, over_keys } = state.kind {
            if let Some(item) = crate::interpreter::semantics::iterated(m.heap, collection, index, over_keys) {
                let made = if over_keys { m.text_made() } else { m };
                let inner = made.scoped(state.outer_scope);
                let named = match statement_at(p, at).kind {
                    StatementKind::For { binding, .. } => MachineView {
                        heap: inner.heap.declared(inner.scope, binding.name@, item),
                        ..inner
                    },
                    _ => inner,
                };
                let next = LoopFrame {
                    kind: LoopKind::For {
                        keyword,
                        at,
                        body,
                        collection,
                        version,
                        index: (index + 1) as usize,
                        over_keys,
                    },
                    ..state
                };
                let ready = named.push(Frame::Loop(next)).push(Frame::ExitScope(m.scope));
                lemma_opened_frames(p, ready, Some(body));
                assert(after == ready.opened(p, Some(body)));
                assert(after.frames[d as int] == ready.frames[d as int]);
            }
        }
    }
}

proof fn lemma_loop_follows(p: Program, a: MachineView, b: MachineView, d: nat, first: LoopFrame, k: nat)
    requires
        follows(p, a, b),
        looping(a, d, first, k),
        first.kind matches LoopKind::For { collection, over_keys, .. } && extent(a.heap, collection, over_keys) <= usize::MAX,
    ensures
        a.frames.len() == d + 1 && a.suspended is None && b.frames.len() > d + 1 ==> looping(b, d, first, k + 1) && (
        first.kind matches LoopKind::For { collection, over_keys, .. } && k < extent(a.heap, collection, over_keys)),
        !(a.frames.len() == d + 1 && a.suspended is None && b.frames.len() > d + 1) && b.frames.len() > d ==> looping(
            b,
            d,
            first,
            k,
        ),
        a.frames.len() == d + 1 && a.suspended is None && b.frames.len() == d ==> (first.kind matches LoopKind::For {
            collection,
            over_keys,
            ..
        } && k >= extent(a.heap, collection, over_keys)),
{
    if b == (MachineView { answered: b.answered, work: b.work, meter: b.meter, ..a }) {
    } else if a.suspended is Some {
        let value = choose|value: ValueView| b == #[trigger] resumed(a, value);
        assert(b.frames[d as int] == a.frames[d as int]);
    } else {
        let taken = a.taken();
        let frame = a.frames.last();
        if a.frames.len() == d + 1 {
            if let Frame::Loop(state) = frame {
                assert(taken.push(frame).frames =~= a.frames);
                lemma_next_iteration(p, taken, state, d, first, k);
            }
        } else {
            assert(taken.frames[d as int] == a.frames[d as int]);
            lemma_step_frames(p, taken, frame, d as int + 1);
            if b.frames.len() > d {
                assert(b.frames[d as int] == taken.frames[d as int]);
            }
        }
    }
}

proof fn lemma_loop_trace(p: Program, trace: Seq<MachineView>, d: nat, first: LoopFrame, size: nat, i: int)
    requires
        whole_loop(p, trace, d),
        looping(trace[0], d, first, 0),
        size <= usize::MAX,
        first.kind matches LoopKind::For { collection, over_keys, .. } && forall|j: int|
            0 <= j < trace.len() ==> extent((#[trigger] trace[j]).heap, collection, over_keys) == size,
        0 <= i < trace.len() - 1,
    ensures
        looping(trace[i], d, first, iterations(trace, d, i)),
        iterations(trace, d, i) <= size,
        begins(trace, d, i) ==> iterations(trace, d, i) < size,
        i == trace.len() - 2 ==> iterations(trace, d, i) == size && !begins(trace, d, i),
    decreases i,
{
    if i > 0 {
        lemma_loop_trace(p, trace, d, first, size, i - 1);
        assert(goes(p, trace, i - 1));
        lemma_loop_follows(p, trace[i - 1], trace[i], d, first, iterations(trace, d, i - 1));
    }
    assert(goes(p, trace, i));
    lemma_loop_follows(p, trace[i], trace[i + 1], d, first, iterations(trace, d, i));
}

/// Each of the iterations that a run counts is begun somewhere.
proof fn lemma_begun(trace: Seq<MachineView>, d: nat, i: int, k: nat) -> (at: int)
    requires
        k < iterations(trace, d, i),
    ensures
        0 <= at < i,
        begins_iteration(trace, d, at, k),
    decreases i,
{
    if begins(trace, d, i - 1) && iterations(trace, d, i - 1) == k {
        i - 1
    } else {
        lemma_begun(trace, d, i - 1, k)
    }
}

pub proof fn lemma_marked_bindings(heap: HeapView, scope: SlotId, fuel: nat)
    ensures
        forall|x: SlotId| #[trigger] heap.mark_within(scope, fuel).bindings(x) == heap.bindings(x),
        forall|x: SlotId| (#[trigger] heap.mark_within(scope, fuel).slot(x)) is Scope == heap.slot(x) is Scope,
    decreases fuel,
{
    if fuel > 0 {
        if let SlotView::Scope { bindings, parent, captured } = heap.slot(scope) {
            if !captured {
                let marked = heap.with(scope, SlotView::Scope { bindings, parent, captured: true });
                assert forall|x: SlotId| #[trigger] marked.bindings(x) == heap.bindings(x) && marked.slot(x) is Scope
                    == heap.slot(x) is Scope by {}
                if let Some(outer) = parent {
                    lemma_marked_bindings(marked, outer, (fuel - 1) as nat);
                    let after = marked.mark_within(outer, (fuel - 1) as nat);
                    assert forall|x: SlotId| #[trigger] after.bindings(x) == heap.bindings(x) by {
                        assert(after.bindings(x) == marked.bindings(x));
                    }
                    assert forall|x: SlotId| (#[trigger] after.slot(x)) is Scope == heap.slot(x) is Scope by {
                        assert(after.slot(x) is Scope == marked.slot(x) is Scope);
                        assert(marked.bindings(x) == heap.bindings(x));
                    }
                }
            }
        }
    }
}

/// Binding the functions of a block leaves the other names of the scope as they are.
#[verifier::spinoff_prover]
pub proof fn lemma_hoisted_binding(p: Program, m: MachineView, block: Option<BlockId>, name: Seq<char>, k: int)
    requires
        0 <= k,
        m.heap.wf(),
        m.heap.slot(m.scope) is Scope,
        distinct(m.heap.bindings(m.scope)),
        m.hoisted(p, block, k).heap.slots.len() <= usize::MAX,
        forall|j: int|
            k <= j < p.statements_of(block).len() ==> ((#[trigger] p.statements_of(block)[j]).kind
                matches StatementKind::Function { name: other, .. } ==> other.name@ != name),
    ensures
        value_of(m.hoisted(p, block, k).heap.bindings(m.scope), name) == value_of(m.heap.bindings(m.scope), name),
        m.hoisted(p, block, k).heap.slot(m.scope) is Scope,
        m.hoisted(p, block, k).scope == m.scope,
        m.heap.slots.len() <= m.hoisted(p, block, k).heap.slots.len(),
    decreases p.statements_of(block).len() - k,
{
    if k < p.statements_of(block).len() {
        match p.statements_of(block)[k].kind {
            StatementKind::Function { name: other, .. } => {
                let at = FnAt::Declared(StmtAt { block, index: k as usize });
                let made = m.function_made(at);
                let next = MachineView { heap: made.heap.declared(m.scope, other.name@, m.function_value()), ..made };
                let marked = m.heap.marked(m.scope);
                lemma_marked_bindings(m.heap, m.scope, m.heap.slots.len());
                lemma_marked_still(m.heap, m.scope, m.heap.slots.len(), name);
                let definition = definition_of(m.functions, at, 0);
                let slot = SlotView::Function { definition: definition as usize, scope: m.scope };
                lemma_roomy(marked, slot);
                assert(made.heap == marked.allocated(slot));
                assert(made.heap.slots.len() == next.heap.slots.len());
                lemma_hoisted_grows(p, next, block, k + 1);
                lemma_allocated(marked, slot);
                assert(marked.slot(m.scope) is Scope);
                assert(made.heap.slot(m.scope) == marked.slot(m.scope));
                assert(marked.bindings(m.scope) == m.heap.bindings(m.scope));
                if let SlotView::Scope { bindings, parent, captured } = made.heap.slot(m.scope) {
                    lemma_put_distinct(bindings, other.name@, m.function_value());
                    law_put_get(bindings, other.name@, m.function_value(), name);
                    lemma_replaced_wf(
                        made.heap,
                        m.scope,
                        SlotView::Scope { bindings: crate::table::put(bindings, other.name@, m.function_value()), parent, captured },
                    );
                }
                lemma_hoisted_binding(p, next, block, name, k + 1);
            },
            _ => {
                lemma_hoisted_binding(p, m, block, name, k + 1);
            },
        }
    }
}

/// What an iteration binds its name to.
#[verifier::spinoff_prover]
proof fn lemma_iteration_binds(p: Program, m: MachineView, state: LoopFrame, after: MachineView, name: Seq<char>)
    requires
        m.advanced(p, state) == Turn::Go(after),
        after.frames.len() > m.frames.len(),
        m.heap.wf(),
        after.heap.slots.len() <= usize::MAX,
        state.kind matches LoopKind::For { at, body, collection, index, over_keys, .. } && index < extent(
            m.heap,
            collection,
            over_keys,
        ) && (statement_at(p, at).kind matches StatementKind::For { binding, .. } && binding.name@ == name) && forall|j: int|
            0 <= j < p.statements_of(Some(body)).len() ==> ((#[trigger] p.statements_of(Some(body))[j]).kind
                matches StatementKind::Function { name: other, .. } ==> other.name@ != name),
    ensures
        state.kind matches LoopKind::For { collection, index, over_keys, .. } && (after.heap.lookup(after.scope, name)
            matches Some(value) && if over_keys {
            value matches RtView::String(text, _) && text == m.heap.entries(collection)[index as int].0
        } else {
            value == m.heap.elements(collection)[index as int]
        }),
{
    if let LoopKind::For { keyword, at, body, collection, version, index, over_keys } = state.kind {
        let item = crate::interpreter::semantics::iterated(m.heap, collection, index, over_keys)->0;
        let made = if over_keys { m.text_made() } else { m };
        let inner = made.scoped(state.outer_scope);
        let named = MachineView { heap: inner.heap.declared(inner.scope, name, item), ..inner };
        let next = LoopFrame {
            kind: LoopKind::For { keyword, at, body, collection, version, index: (index + 1) as usize, over_keys },
            ..state
        };
        let ready = named.push(Frame::Loop(next)).push(Frame::ExitScope(m.scope));
        assert(after == ready.opened(p, Some(body)));
        let hoisted = ready.hoisted(p, Some(body), 0);
        assert(after.heap == hoisted.heap);
        let slot = SlotView::Scope { bindings: Seq::empty(), parent: Some(state.outer_scope), captured: false };
        assert(made.heap.wf());
        assert(inner.heap == made.heap.allocated(slot));
        if made.heap.allocated(slot).slots.len() <= usize::MAX {
            lemma_allocated(made.heap, slot);
            let bindings: Seq<(Seq<char>, RtView)> = Seq::empty();
            lemma_put_distinct(bindings, name, item);
            law_put_get(bindings, name, item, name);
            lemma_replaced_wf(
                inner.heap,
                inner.scope,
                SlotView::Scope {
                    bindings: crate::table::put(bindings, name, item),
                    parent: Some(state.outer_scope),
                    captured: false,
                },
            );
            lemma_hoisted_binding(p, ready, Some(body), name, 0);
            assert(value_of(after.heap.bindings(after.scope), name) == Some(item));
            assert(has_key(after.heap.bindings(after.scope), name));
            assert(after.heap.slots.len() > 0);
        } else {
            lemma_roomy(made.heap, slot);
            lemma_hoisted_grows(p, ready, Some(body), 0);
        }
    }
}

/// A loop whose next step adds frames goes on with an iteration.
#[verifier::spinoff_prover]
proof fn lemma_loop_step(p: Program, a: MachineView, b: MachineView, state: LoopFrame) -> (after: MachineView)
    requires
        follows(p, a, b),
        a.frames.len() > 0,
        a.frames.last() == Frame::Loop(state),
        state.kind is For,
        a.suspended is None,
        b.frames.len() > a.frames.len(),
    ensures
        a.taken().advanced(p, state) == Turn::Go(after),
        after.frames == b.frames,
        after.heap == b.heap,
        after.scope == b.scope,
{
    let turn = a.taken().step(p, a.frames.last());
    assert(turn == a.taken().advanced(p, state));
    turn->Go_0
}

proof fn lemma_begin(p: Program, trace: Seq<MachineView>, d: nat, i: int) -> (r: (LoopFrame, MachineView))
    requires
        good(nothing(), trace[0]),
        whole_loop(p, trace, d),
        begins(trace, d, i),
        trace[i].frames.last() matches Frame::Loop(state) && state.kind is For,
    ensures
        trace[i].frames.last() == Frame::Loop(r.0),
        trace[i].taken().advanced(p, r.0) == Turn::Go(r.1),
        r.1.frames == trace[i + 1].frames,
        r.1.heap == trace[i + 1].heap,
        r.1.scope == trace[i + 1].scope,
        trace[i].heap.wf(),
        trace[i + 1].heap.slots.len() <= usize::MAX,
{
    lemma_walks(p, trace, d);
    lemma_trace_lasts(p, nothing(), trace[0], trace, trace.last(), i);
    assert(goes(p, trace, i));
    let state = trace[i].frames.last()->Loop_0;
    let after = lemma_loop_step(p, trace[i], trace[i + 1], state);
    (state, after)
}

#[verifier::spinoff_prover]
proof fn lemma_loop_binds(p: Program, m: MachineView, trace: Seq<MachineView>, first: LoopFrame, size: nat, name: Seq<char>, i: int)
    requires
        good(nothing(), trace[0]),
        whole_loop(p, trace, m.frames.len()),
        looping(trace[0], m.frames.len(), first, 0),
        size <= usize::MAX,
        first.kind matches LoopKind::For { collection, over_keys, .. } && forall|j: int|
            0 <= j < trace.len() ==> extent((#[trigger] trace[j]).heap, collection, over_keys) == size,
        first.kind matches LoopKind::For { at, body, .. } && (statement_at(p, at).kind matches StatementKind::For {
            binding,
            ..
        } && binding.name@ == name) && forall|j: int|
            0 <= j < p.statements_of(Some(body)).len() ==> ((#[trigger] p.statements_of(Some(body))[j]).kind
                matches StatementKind::Function { name: other, .. } ==> other.name@ != name),
        begins(trace, m.frames.len(), i),
    ensures
        iterations(trace, m.frames.len(), i) < size,
        first.kind matches LoopKind::For { collection, over_keys, .. } && (trace[i + 1].heap.lookup(trace[i + 1].scope, name)
            matches Some(value) && if over_keys {
            value matches RtView::String(text, _) && text == trace[i].heap.entries(collection)[iterations(
                trace,
                m.frames.len(),
                i,
            ) as int].0
        } else {
            value == trace[i].heap.elements(collection)[iterations(trace, m.frames.len(), i) as int]
        }),
{
    let d = m.frames.len();
    let k = iterations(trace, d, i);
    lemma_loop_trace(p, trace, d, first, size, i);
    let (state, after) = lemma_begin(p, trace, d, i);
    assert(trace[i].frames[d as int] == trace[i].frames.last());
    assert(trace[i].taken().heap == trace[i].heap);
    lemma_iteration_binds(p, trace[i].taken(), state, after, name);
}

/// A `for` over an array takes its elements in order, each once: when the loop leaves the array alone and
/// ends of itself, it has run one iteration for each element, and iteration `k` began with the loop's name
/// bound to element `k`. A function of the body that has the loop's name is bound over it, and is left out.
pub proof fn law_for_takes_each_element(
    p: Program,
    m: MachineView,
    at: StmtAt,
    name: Seq<char>,
    body: BlockId,
    array: SlotId,
    items: Seq<RtView>,
    trace: Seq<MachineView>,
)
    requires
        good(nothing(), m.push(Frame::ForStart(at))),
        statement_at(p, at).kind matches StatementKind::For { binding, body: b, .. } && binding.name@ == name && b == body,
        m.values.len() > 0 && m.values.last() == RtView::Array(array),
        m.values.len() <= usize::MAX,
        items.len() <= usize::MAX,
        trace.len() > 0 && m.step(p, Frame::ForStart(at)) == Turn::Go(trace[0]),
        whole_loop(p, trace, m.frames.len()),
        forall|i: int| 0 <= i < trace.len() ==> (#[trigger] trace[i]).heap.elements(array) == items,
        forall|j: int|
            0 <= j < p.statements_of(Some(body)).len() ==> ((#[trigger] p.statements_of(Some(body))[j]).kind
                matches StatementKind::Function { name: other, .. } ==> other.name@ != name),
    ensures
        iterations(trace, m.frames.len(), trace.len() - 1) == items.len(),
        forall|k: nat| k < items.len() ==> #[trigger] runs_iteration(trace, m.frames.len(), k),
        forall|i: int, k: nat| #[trigger]
            begins_iteration(trace, m.frames.len(), i, k) ==> k < items.len() && trace[i + 1].heap.lookup(
                trace[i + 1].scope,
                name,
            ) == Some(items[k as int]),
{
    let d = m.frames.len();
    law_step_lasts(nothing(), p, m, Frame::ForStart(at));
    if let StatementKind::For { keyword, .. } = statement_at(p, at).kind {
        let first = LoopFrame {
            outer_scope: m.scope,
            values: (m.values.len() - 1) as usize,
            kind: LoopKind::For {
                keyword,
                at,
                body,
                collection: array,
                version: m.heap.version(array),
                index: 0,
                over_keys: false,
            },
        };
        assert(trace[0].frames[d as int] == Frame::Loop(first));
        let last = trace.len() - 2;
        lemma_loop_trace(p, trace, d, first, items.len(), last);
        assert(iterations(trace, d, last + 1) == items.len());
        assert forall|k: nat| k < items.len() implies #[trigger] runs_iteration(trace, d, k) by {
            let i = lemma_begun(trace, d, last + 1, k);
        }
        assert forall|i: int, k: nat| #[trigger] begins_iteration(trace, d, i, k) implies k < items.len() && trace[i
            + 1].heap.lookup(trace[i + 1].scope, name) == Some(items[k as int]) by {
            lemma_loop_binds(p, m, trace, first, items.len(), name, i);
        }
    }
}

/// A `for` over an object takes its keys in order, each once: when the loop leaves the object alone and ends
/// of itself, it has run one iteration for each key, and iteration `k` began with the loop's name bound to the
/// text of key `k`. A function of the body that has the loop's name is bound over it, and is left out.
pub proof fn law_for_takes_each_key(
    p: Program,
    m: MachineView,
    at: StmtAt,
    name: Seq<char>,
    body: BlockId,
    object: SlotId,
    entries: Seq<(Seq<char>, RtView)>,
    trace: Seq<MachineView>,
)
    requires
        good(nothing(), m.push(Frame::ForStart(at))),
        statement_at(p, at).kind matches StatementKind::For { binding, body: b, .. } && binding.name@ == name && b == body,
        m.values.len() > 0 && m.values.last() == RtView::Object(object),
        m.values.len() <= usize::MAX,
        entries.len() <= usize::MAX,
        trace.len() > 0 && m.step(p, Frame::ForStart(at)) == Turn::Go(trace[0]),
        whole_loop(p, trace, m.frames.len()),
        forall|i: int| 0 <= i < trace.len() ==> (#[trigger] trace[i]).heap.entries(object) == entries,
        forall|j: int|
            0 <= j < p.statements_of(Some(body)).len() ==> ((#[trigger] p.statements_of(Some(body))[j]).kind
                matches StatementKind::Function { name: other, .. } ==> other.name@ != name),
    ensures
        iterations(trace, m.frames.len(), trace.len() - 1) == entries.len(),
        forall|k: nat| k < entries.len() ==> #[trigger] runs_iteration(trace, m.frames.len(), k),
        forall|i: int, k: nat| #[trigger]
            begins_iteration(trace, m.frames.len(), i, k) ==> k < entries.len() && (trace[i + 1].heap.lookup(
                trace[i + 1].scope,
                name,
            ) matches Some(value) && (value matches RtView::String(text, _) && text == entries[k as int].0)),
{
    let d = m.frames.len();
    law_step_lasts(nothing(), p, m, Frame::ForStart(at));
    if let StatementKind::For { keyword, .. } = statement_at(p, at).kind {
        let first = LoopFrame {
            outer_scope: m.scope,
            values: (m.values.len() - 1) as usize,
            kind: LoopKind::For {
                keyword,
                at,
                body,
                collection: object,
                version: m.heap.version(object),
                index: 0,
                over_keys: true,
            },
        };
        assert(trace[0].frames[d as int] == Frame::Loop(first));
        let last = trace.len() - 2;
        lemma_loop_trace(p, trace, d, first, entries.len(), last);
        assert(iterations(trace, d, last + 1) == entries.len());
        assert forall|k: nat| k < entries.len() implies #[trigger] runs_iteration(trace, d, k) by {
            let i = lemma_begun(trace, d, last + 1, k);
        }
        assert forall|i: int, k: nat| #[trigger] begins_iteration(trace, d, i, k) implies k < entries.len() && (trace[i
            + 1].heap.lookup(trace[i + 1].scope, name) matches Some(value) && (value matches RtView::String(text, _) && text
            == entries[k as int].0)) by {
            lemma_loop_binds(p, m, trace, first, entries.len(), name, i);
        }
    }
}

} // verus!

//! What holds of every machine that an execution can get to.

use vstd::prelude::*;
use crate::ast::AccessKind;
use crate::ast::BlockId;
use crate::ast::ExprId;
use crate::ast::ExpressionKind;
use crate::ast::Function;
use crate::ast::Program;
use crate::ast::StatementKind;
use crate::check::entering::inside_block;
use crate::check::entering::lemma_block;
use crate::check::entering::lemma_roomy;
use crate::check::entering::relabelled;
use crate::check::entering::roomy;
use crate::check::operands::inside;
use crate::check::operands::unwrapped;
use crate::check::running::calm;
use crate::check::running::lemma_allocated_still;
use crate::check::running::lemma_definition;
use crate::check::running::lemma_marked_still;
use crate::check::running::lemma_same_frames;
use crate::check::running::lemma_same_slots_still;
use crate::check::running::lemma_still_chain;
use crate::check::running::sized;
use crate::check::running::still;
use crate::check::sight::Labels;
use crate::check::sight::Sight;
use crate::check::sight::abides;
use crate::check::sight::arity_of;
use crate::check::sight::carried;
use crate::check::sight::consistent;
use crate::check::sight::fine;
use crate::check::sight::housed_at;
use crate::check::sight::lemma_fine_carried;
use crate::check::sight::lemma_settled_push;
use crate::check::sight::lets;
use crate::check::sight::only;
use crate::check::sight::runs;
use crate::check::sight::seeded;
use crate::check::sight::suits;
use crate::check::sight::sure;
use crate::check::sight::worth;
use crate::check::stepping::abides_on;
use crate::check::stepping::lemma_step_abides;
use crate::check::stepping::poised;
use crate::check::walk::JobView;
use crate::diagnostics::Span;
use crate::interpreter::attach::attach_entries;
use crate::interpreter::attach::attach_items;
use crate::interpreter::attach::attach_value;
use crate::interpreter::attach::keyed;
use crate::interpreter::heap::HeapView;
use crate::interpreter::heap::RtView;
use crate::interpreter::heap::SlotId;
use crate::interpreter::heap::SlotView;
use crate::interpreter::keeping::law_step_keeps_fit;
use crate::interpreter::keeping::lemma_taken;
use crate::interpreter::lasting::good;
use crate::interpreter::lasting::law_resume_lasts;
use crate::interpreter::lasting::law_step_lasts;
use crate::interpreter::lasting::lemma_allocated;
use crate::interpreter::machine::fits;
use crate::interpreter::machine::resumed;
use crate::interpreter::machine::started;
use crate::interpreter::machine::variables_bound;
use crate::interpreter::scopes::around;
use crate::interpreter::semantics::Chain;
use crate::interpreter::semantics::FnAt;
use crate::interpreter::semantics::Frame;
use crate::interpreter::semantics::LoopFrame;
use crate::interpreter::semantics::LoopKind;
use crate::interpreter::semantics::MachineView;
use crate::interpreter::semantics::Meter;
use crate::interpreter::semantics::Site;
use crate::interpreter::semantics::StmtAt;
use crate::interpreter::semantics::Turn;
use crate::interpreter::semantics::bound;
use crate::interpreter::semantics::chain_links;
use crate::interpreter::semantics::definition_of;
use crate::interpreter::semantics::evals;
use crate::interpreter::semantics::function_at;
use crate::interpreter::semantics::iterated;
use crate::interpreter::semantics::statement_at;
use crate::interpreter::value::ValueView;
use crate::table::has_key;
use crate::table::lemma_put_keys;

verus! {

/// Whether a machine is one that a run can go on to from another: by a step that does not end it, by the
/// answer to a host call or to a question, or by another meter.
pub open spec fn follows(p: Program, a: MachineView, b: MachineView) -> bool {
    ||| a.frames.len() > 0 && a.suspended is None && match a.taken().step(p, a.frames.last()) {
        Turn::Go(after) => b == MachineView { work: b.work, meter: b.meter, ..after },
        Turn::Halt(after, stop) => (stop is Ask || stop is HostCall) && b == MachineView {
            work: b.work,
            meter: b.meter,
            ..after
        },
        Turn::Fail(_) => false,
    }
    ||| a.suspended is Some && exists|value: ValueView| b == #[trigger] resumed(a, value)
    ||| b == MachineView { answered: b.answered, work: b.work, meter: b.meter, ..a }
}

/// Whether a run from one machine goes through others, all of a size that a machine can have.
pub open spec fn walks(p: Program, first: MachineView, trace: Seq<MachineView>, last: MachineView) -> bool {
    &&& trace.len() > 0
    &&& trace[0] == first
    &&& trace.last() == last
    &&& forall|i: int| 0 <= i < trace.len() ==> sized(#[trigger] trace[i])
    &&& forall|i: int| 0 < i < trace.len() ==> follows(p, trace[i - 1], #[trigger] trace[i])
}

/// Whether an execution of a Program with some starting variables can get to a machine.
pub open spec fn reached(p: Program, variables: Seq<(Seq<char>, ValueView)>, m: MachineView) -> bool {
    exists|trace: Seq<MachineView>| #[trigger] walks(p, started(p, variables), trace, m)
}

/// The heap before anything is in it.
pub open spec fn nothing() -> HeapView {
    HeapView { slots: Seq::empty(), free: Seq::empty(), issued: 0 }
}

/// Whether a frame is about to bind the name to a function that is written out.
pub open spec fn binds_function(p: Program, s: Sight, frame: Frame) -> bool {
    frame matches Frame::Declare(at) && lets(statement_at(p, at), s.name) && arity_of(p, statement_at(p, at)) is Some
}

pub open spec fn none_binds(p: Program, s: Sight, frames: Seq<Frame>) -> bool {
    forall|j: int| 0 <= j < frames.len() ==> !binds_function(p, s, #[trigger] frames[j])
}

/// Whether an expression is, but for groups around it, the function that a `let` is written with.
pub open spec fn wraps(p: Program, at: StmtAt, id: ExprId) -> bool {
    statement_at(p, at).kind matches StatementKind::Let { initializer, .. } && exists|fuel: nat|
        #[trigger] unwrapped(p, id, fuel) == inside(p, initializer)
}

/// Whether a frame that binds the name to a function has it on top, or under the frame that makes it.
pub open spec fn primed(p: Program, s: Sight, m: MachineView) -> bool {
    let n = m.frames.len() as int;
    &&& none_binds(p, s, m.frames) || (n > 0 && m.suspended is None && binds_function(p, s, m.frames[n - 1]) && none_binds(
        p,
        s,
        m.frames.drop_last(),
    ) && (m.frames[n - 1] matches Frame::Declare(at) && poised(p, s, m, at))) || (n > 1 && m.suspended is None
        && none_binds(p, s, m.frames.drop_last().drop_last()) && (m.frames[n - 2] matches Frame::Declare(at)
        && m.frames[n - 1] matches Frame::Eval(id) && binds_function(p, s, m.frames[n - 2]) && wraps(p, at, id)))
}

proof fn lemma_none_push(p: Program, s: Sight, frames: Seq<Frame>, frame: Frame)
    requires
        none_binds(p, s, frames),
        !binds_function(p, s, frame),
    ensures
        none_binds(p, s, frames.push(frame)),
{
}

proof fn lemma_none_all(p: Program, s: Sight, frames: Seq<Frame>, more: Seq<Frame>)
    requires
        none_binds(p, s, frames),
        forall|j: int| 0 <= j < more.len() ==> !((#[trigger] more[j]) is Declare),
    ensures
        none_binds(p, s, frames + more),
{
    let all = frames + more;
    assert forall|j: int| 0 <= j < all.len() implies !binds_function(p, s, #[trigger] all[j]) by {
        if j < frames.len() {
            assert(all[j] == frames[j]);
        } else {
            assert(all[j] == more[j - frames.len()]);
        }
    }
}

proof fn lemma_none_evals(p: Program, s: Sight, frames: Seq<Frame>, ids: Seq<ExprId>)
    requires
        none_binds(p, s, frames),
    ensures
        none_binds(p, s, frames + evals(ids)),
{
    lemma_none_all(p, s, frames, evals(ids));
}

pub proof fn lemma_hoisted_frames(p: Program, m: MachineView, block: Option<BlockId>, k: int)
    requires
        0 <= k,
    ensures
        m.hoisted(p, block, k).frames == m.frames,
    decreases p.statements_of(block).len() - k,
{
    if k < p.statements_of(block).len() {
        match p.statements_of(block)[k].kind {
            StatementKind::Function { name, .. } => {
                let made = m.function_made(FnAt::Declared(StmtAt { block, index: k as usize }));
                let next = MachineView {
                    heap: made.heap.declared(m.scope, name.name@, m.function_value()),
                    ..made
                };
                lemma_hoisted_frames(p, next, block, k + 1);
            },
            _ => {
                lemma_hoisted_frames(p, m, block, k + 1);
            },
        }
    }
}

proof fn lemma_none_opened(p: Program, s: Sight, m: MachineView, block: Option<BlockId>)
    requires
        none_binds(p, s, m.frames),
    ensures
        none_binds(p, s, m.opened(p, block).frames),
{
    lemma_hoisted_frames(p, m, block, 0);
    lemma_none_all(p, s, m.frames, crate::interpreter::semantics::scheduled(block, p.statements_of(block).len()));
}

proof fn lemma_none_entered(p: Program, s: Sight, m: MachineView, block: BlockId)
    requires
        none_binds(p, s, m.frames),
    ensures
        none_binds(p, s, m.entered(p, block).frames),
{
    lemma_none_opened(p, s, m.scoped(m.scope).push(Frame::ExitScope(m.scope)), Some(block));
}

proof fn lemma_none_branched(p: Program, s: Sight, m: MachineView, at: StmtAt, index: int)
    requires
        none_binds(p, s, m.frames),
    ensures
        none_binds(p, s, m.branched(p, at, index).frames),
{
    if let StatementKind::If { branches, else_branch } = statement_at(p, at).kind {
        if index >= branches@.len() {
            if let Some(otherwise) = else_branch {
                lemma_none_entered(p, s, m, otherwise.body);
            }
        }
    }
}

proof fn lemma_none_dropped(p: Program, s: Sight, frames: Seq<Frame>)
    requires
        none_binds(p, s, frames),
        frames.len() > 0,
    ensures
        none_binds(p, s, frames.drop_last()),
{
    assert forall|j: int| 0 <= j < frames.drop_last().len() implies !binds_function(p, s, #[trigger] frames.drop_last()[j]) by {
        assert(frames[j] == frames.drop_last()[j]);
    }
}

proof fn lemma_none_returned(p: Program, s: Sight, m: MachineView, value: RtView)
    requires
        none_binds(p, s, m.frames),
    ensures
        none_binds(p, s, m.returned(value).frames),
    decreases m.frames.len(),
{
    if m.frames.len() > 0 {
        lemma_none_dropped(p, s, m.frames);
        let rest = MachineView { frames: m.frames.drop_last(), ..m };
        match m.frames.last() {
            Frame::ExitScope(outer) => {
                lemma_none_returned(p, s, rest.exited(outer), value);
            },
            Frame::CallEnd { .. } => {},
            _ => {
                lemma_none_returned(p, s, rest, value);
            },
        }
    }
}

proof fn lemma_none_unwound(p: Program, s: Sight, m: MachineView, consume: bool)
    requires
        none_binds(p, s, m.frames),
    ensures
        none_binds(p, s, m.unwound(consume).frames),
    decreases m.frames.len(),
{
    if m.frames.len() > 0 {
        lemma_none_dropped(p, s, m.frames);
        let rest = MachineView { frames: m.frames.drop_last(), ..m };
        match m.frames.last() {
            Frame::ExitScope(outer) => {
                lemma_none_unwound(p, s, rest.exited(outer), consume);
            },
            Frame::Loop(_) => {},
            Frame::CallEnd { .. } => {},
            _ => {
                lemma_none_unwound(p, s, rest, consume);
            },
        }
    }
}

proof fn lemma_none_chain(p: Program, s: Sight, m: MachineView, access: ExprId, end: int, in_target: bool)
    requires
        none_binds(p, s, m.frames),
    ensures
        m.chain_opened(p, access, end, in_target) matches Turn::Go(after) ==> none_binds(p, s, after.frames),
{
    if let ExpressionKind::Access { links, .. } = p.expr(access).kind {
        let chain = Chain { access, end: end as usize };
        lemma_none_push(p, s, m.frames, Frame::HostCall { chain, in_target });
        if links@.len() > 0 {
            if let AccessKind::Call { arguments, .. } = links@[0].kind {
                lemma_none_evals(p, s, m.frames.push(Frame::HostCall { chain, in_target }), arguments@);
            }
        }
    }
}

/// Whether a turn leaves no frame that binds the name to a function.
spec fn leaves_none(p: Program, s: Sight, turn: Turn) -> bool {
    match turn {
        Turn::Go(m) => none_binds(p, s, m.frames),
        Turn::Halt(m, _) => none_binds(p, s, m.frames),
        Turn::Fail(_) => true,
    }
}

#[verifier::spinoff_prover]
proof fn lemma_none_statement(p: Program, s: Sight, m: MachineView, at: StmtAt)
    requires
        none_binds(p, s, m.frames),
        !(statement_at(p, at).kind is Let),
    ensures
        leaves_none(p, s, m.statement(p, at)),
{
    match statement_at(p, at).kind {
        StatementKind::Return { value: None, .. } => {
            lemma_none_returned(p, s, m, RtView::Null);
        },
        StatementKind::Block(id) => {
            lemma_none_entered(p, s, m, id);
        },
        StatementKind::Assignment { target, value, .. } => {
            if let ExpressionKind::Access { links, .. } = p.expr(target).kind {
                let scheduled = m.push(Frame::AssignMember(target)).push(Frame::Eval(value));
                lemma_none_push(p, s, m.frames, Frame::AssignMember(target));
                lemma_none_push(p, s, m.push(Frame::AssignMember(target)).frames, Frame::Eval(value));
                lemma_none_chain(p, s, scheduled, target, links@.len() - 1, true);
                if links@.len() > 0 {
                    if let AccessKind::Index { expression, .. } = links@.last().kind {
                        lemma_none_push(p, s, scheduled.frames, Frame::Eval(expression));
                        lemma_none_chain(p, s, scheduled.push(Frame::Eval(expression)), target, links@.len() - 1, true);
                    }
                }
            }
            assert(leaves_none(p, s, m.assignment(p, target, value)));
        },
        StatementKind::If { .. } => {
            lemma_none_branched(p, s, m, at, 0);
        },
        StatementKind::Break { .. } => {
            lemma_none_unwound(p, s, m, true);
        },
        StatementKind::Continue { .. } => {
            lemma_none_unwound(p, s, m, false);
        },
        _ => {},
    }
}

#[verifier::spinoff_prover]
proof fn lemma_none_expression(p: Program, s: Sight, m: MachineView, id: ExprId)
    requires
        none_binds(p, s, m.frames),
    ensures
        leaves_none(p, s, m.expression(p, id)),
{
    match p.expr(id).kind {
        ExpressionKind::Array { elements, .. } => {
            let frame = Frame::BuildArray { array: id, count: elements@.len() as usize };
            lemma_none_push(p, s, m.frames, frame);
            lemma_none_evals(p, s, m.frames.push(frame), elements@);
        },
        ExpressionKind::Object { entries, .. } => {
            lemma_none_push(p, s, m.frames, Frame::BuildObject(id));
            lemma_none_evals(
                p,
                s,
                m.frames.push(Frame::BuildObject(id)),
                Seq::new(entries@.len(), |i: int| entries@[i].value),
            );
        },
        ExpressionKind::Access { links, .. } => {
            lemma_none_chain(p, s, m, id, links@.len() as int, false);
        },
        _ => {},
    }
}

#[verifier::spinoff_prover]
proof fn lemma_none_called(p: Program, s: Sight, m: MachineView, frame: Frame)
    requires
        none_binds(p, s, m.frames),
        frame is Link || frame is IndexRead || frame is Invoke || frame is HostCall || frame is ForStart || frame is CallEnd,
    ensures
        leaves_none(p, s, m.step(p, frame)),
{
    match frame {
        Frame::Link { chain, index, in_target } => {
            let links = chain_links(p, chain);
            if index < links.len() {
                if let AccessKind::Call { arguments, .. } = links[index as int].kind {
                    let invoke = Frame::Invoke { chain, index, in_target, arguments: arguments@.len() as usize };
                    lemma_none_push(p, s, m.frames, invoke);
                    lemma_none_evals(p, s, m.frames.push(invoke), arguments@);
                }
            }
            assert(leaves_none(p, s, m.link(p, chain, index, in_target)));
        },
        Frame::IndexRead { chain, index, in_target } => {
            assert(leaves_none(p, s, m.index_read(p, chain, index, in_target)));
        },
        Frame::Invoke { chain, index, in_target, arguments } => {
            let rest = m.pops(arguments as int).pop();
            let values = m.tops(arguments as int);
            if let Turn::Go(after) = m.invoked(p, chain, index, in_target, arguments) {
                if let RtView::Function(slot) = m.pops(arguments as int).top() {
                    if let SlotView::Function { definition, scope } = m.heap.slot(slot) {
                        if let Some(function) = m.defined(p, definition) {
                            let inner = rest.scoped(scope);
                            let framed = MachineView { depth: m.depth + 1, ..inner }.push(
                                Frame::CallEnd {
                                    outer_scope: m.scope,
                                    values: rest.values.len() as usize,
                                    chain,
                                    index,
                                    in_target,
                                },
                            );
                            let named = MachineView {
                                heap: bound(
                                    framed.heap,
                                    framed.scope,
                                    function,
                                    values,
                                    function.parameters@.len() as int,
                                ),
                                ..framed
                            };
                            lemma_none_opened(p, s, named, Some(function.body));
                        }
                    }
                }
            }
        },
        Frame::HostCall { chain, in_target } => {
            assert(leaves_none(p, s, m.host_called(p, chain, in_target)));
        },
        Frame::ForStart(at) => {
            assert(leaves_none(p, s, m.for_started(p, at)));
        },
        _ => {},
    }
}

#[verifier::spinoff_prover]
proof fn lemma_none_advanced(p: Program, s: Sight, m: MachineView, state: LoopFrame)
    requires
        none_binds(p, s, m.frames),
    ensures
        leaves_none(p, s, m.advanced(p, state)),
{
    if let LoopKind::For { keyword, at, body, collection, version, index, over_keys } = state.kind {
        if let Some(item) = iterated(m.heap, collection, index, over_keys) {
            let made = if over_keys { m.text_made() } else { m };
            let inner = made.scoped(state.outer_scope);
            let named = match statement_at(p, at).kind {
                StatementKind::For { binding, .. } => MachineView {
                    heap: inner.heap.declared(inner.scope, binding.name@, item),
                    ..inner
                },
                _ => inner,
            };
            let next = LoopFrame {
                kind: LoopKind::For {
                    keyword,
                    at,
                    body,
                    collection,
                    version,
                    index: (index + 1) as usize,
                    over_keys,
                },
                ..state
            };
            lemma_none_push(p, s, m.frames, Frame::Loop(next));
            lemma_none_push(p, s, m.frames.push(Frame::Loop(next)), Frame::ExitScope(m.scope));
            lemma_none_opened(p, s, named.push(Frame::Loop(next)).push(Frame::ExitScope(m.scope)), Some(body));
        }
    }
}

/// A step from frames none of which binds the name to a function leaves none, unless it is a `let`.
#[verifier::spinoff_prover]
proof fn lemma_none_step(p: Program, s: Sight, m: MachineView, frame: Frame)
    requires
        none_binds(p, s, m.frames),
        frame matches Frame::Statement(at) ==> !(statement_at(p, at).kind is Let),
    ensures
        leaves_none(p, s, m.step(p, frame)),
{
    match frame {
        Frame::Statement(at) => {
            lemma_none_statement(p, s, m, at);
        },
        Frame::Eval(id) => {
            lemma_none_expression(p, s, m, id);
        },
        Frame::Return(_) => {
            lemma_none_returned(p, s, m.pop(), m.top());
        },
        Frame::Branch { at, index } => {
            if let StatementKind::If { branches, .. } = statement_at(p, at).kind {
                if index < branches@.len() {
                    lemma_none_entered(p, s, m.pop(), branches@[index as int].body);
                }
            }
            lemma_none_branched(p, s, m.pop(), at, index + 1);
        },
        Frame::Loop(state) => {
            lemma_none_advanced(p, s, m, state);
        },
        Frame::LoopTest(state) => {
            lemma_none_push(p, s, m.pop().frames, Frame::Loop(state));
            lemma_none_entered(p, s, m.pop().push(Frame::Loop(state)), crate::interpreter::semantics::loop_body(state.kind));
        },
        Frame::AssignMember(target) => {
            assert(leaves_none(p, s, m.member_assigned(p, target)));
        },
        Frame::Link { .. } => {
            lemma_none_called(p, s, m, frame);
        },
        Frame::IndexRead { .. } => {
            lemma_none_called(p, s, m, frame);
        },
        Frame::Invoke { .. } => {
            lemma_none_called(p, s, m, frame);
        },
        Frame::HostCall { .. } => {
            lemma_none_called(p, s, m, frame);
        },
        Frame::ForStart(_) => {
            lemma_none_called(p, s, m, frame);
        },
        Frame::CallEnd { .. } => {
            lemma_none_called(p, s, m, frame);
        },
        _ => {},
    }
}

/// What holds of a machine that an execution can get to.
pub open spec fn sane(p: Program, s: Sight, m: MachineView) -> bool {
    &&& exists|l: Labels| abides(p, s, l, m)
    &&& good(nothing(), m)
    &&& fits(p, m)
    &&& primed(p, s, m)
    &&& sized(m)
}

/// Making a function, with its definition in its slot.
proof fn lemma_made_worth(p: Program, m: MachineView, at: FnAt, function: Function)
    requires
        m.heap.wf(),
        sized(m.function_made(at)),
        function_at(p, at) == Some(function),
    ensures
        worth(p, m.function_made(at).heap, m.function_made(at).functions, m.function_value(), function.parameters.len()),
{
    let after = m.function_made(at);
    let definition = definition_of(m.functions, at, 0);
    lemma_definition(m.functions, at, 0);
    lemma_marked_still(m.heap, m.scope, m.heap.slots.len(), Seq::empty());
    lemma_allocated(
        m.heap.marked(m.scope),
        SlotView::Function { definition: definition as usize, scope: m.scope },
    );
    assert(after.functions[definition] == at);
}

#[verifier::spinoff_prover]
proof fn lemma_primed(p: Program, s: Sight, m: MachineView, frame: Frame, after: MachineView)
    requires
        primed(p, s, m.push(frame)),
        m.suspended is None,
        m.heap.wf(),
        m.step(p, frame) == Turn::Go(after) || (m.step(p, frame) matches Turn::Halt(x, _) && x == after),
        sized(after),
    ensures
        primed(p, s, after),
        frame matches Frame::Declare(at) ==> poised(p, s, m, at),
{
    let all = m.push(frame);
    let n = all.frames.len() as int;
    assert(all.frames.drop_last() =~= m.frames);
    assert(all.frames[n - 1] == frame);
    if none_binds(p, s, m.frames) {
        match frame {
            Frame::Statement(at) => {
                if let StatementKind::Let { initializer, .. } = statement_at(p, at).kind {
                    let declare = Frame::Declare(at);
                    let eval = Frame::Eval(initializer);
                    assert(after.frames =~= m.frames.push(declare).push(eval));
                    if binds_function(p, s, declare) {
                        assert(after.frames.drop_last().drop_last() =~= m.frames);
                        assert(unwrapped(p, initializer, (p.expressions@.len() + 1) as nat) == inside(p, initializer));
                        assert(wraps(p, at, initializer));
                    } else {
                        lemma_none_push(p, s, m.frames, declare);
                        lemma_none_push(p, s, m.frames.push(declare), eval);
                    }
                } else {
                    lemma_none_step(p, s, m, frame);
                }
            },
            Frame::Declare(at) => {
                lemma_none_step(p, s, m, frame);
                assert(poised(p, s, m, at)) by {
                    if binds_function(p, s, frame) {
                        assert(!none_binds(p, s, all.frames));
                        assert(poised(p, s, all, at));
                    }
                }
            },
            _ => {
                lemma_none_step(p, s, m, frame);
            },
        }
    } else {
        assert(!none_binds(p, s, all.frames)) by {
            let j = choose|j: int| 0 <= j < m.frames.len() && binds_function(p, s, #[trigger] m.frames[j]);
            assert(all.frames[j] == m.frames[j]);
        }
        assert(all.frames.drop_last().drop_last() =~= m.frames.drop_last());
        assert(all.frames[n - 2] == m.frames[n - 2]);
        assert(m.frames.len() == n - 1);
        if let Frame::Declare(at) = m.frames[n - 2] {
            if let Frame::Eval(id) = frame {
                if let StatementKind::Let { initializer, .. } = statement_at(p, at).kind {
                    let fuel = choose|fuel: nat| #[trigger] unwrapped(p, id, fuel) == inside(p, initializer);
                    match p.expr(id).kind {
                        ExpressionKind::Group { expression, .. } => {
                            assert(unwrapped(p, expression, (fuel - 1) as nat) == inside(p, initializer));
                            assert(wraps(p, at, expression));
                            assert(after.frames =~= m.frames.push(Frame::Eval(expression)));
                            assert(after.frames.drop_last().drop_last() =~= m.frames.drop_last());
                        },
                        ExpressionKind::Function(function) => {
                            lemma_made_worth(p, m, FnAt::Literal(id), function);
                            assert(after.top() == m.function_value());
                            assert(poised(p, s, after, at));
                        },
                        _ => {},
                    }
                }
            }
        }
    }
}

proof fn lemma_attach_grows(heap: HeapView, value: ValueView)
    requires
        roomy(heap),
    ensures
        roomy(attach_value(heap, value).0),
        heap.slots.len() <= attach_value(heap, value).0.slots.len(),
    decreases value, 0int,
{
    match value {
        ValueView::Array(items) => {
            lemma_items_grow(heap, items, 0);
            let (after, parts) = attach_items(heap, items, 0);
            lemma_roomy(after, SlotView::Array { items: parts, version: 0 });
        },
        ValueView::Object(entries) => {
            lemma_entries_grow(heap, entries, 0);
            let (after, parts) = attach_entries(heap, entries, 0);
            lemma_roomy(after, SlotView::Object { entries: keyed(entries, parts), version: 0 });
        },
        _ => {},
    }
}

proof fn lemma_items_grow(heap: HeapView, items: Seq<ValueView>, k: int)
    requires
        roomy(heap),
        0 <= k <= items.len(),
    ensures
        roomy(attach_items(heap, items, k).0),
        heap.slots.len() <= attach_items(heap, items, k).0.slots.len(),
    decreases items, items.len() - k,
{
    if k < items.len() {
        lemma_attach_grows(heap, items[k]);
        lemma_items_grow(attach_value(heap, items[k]).0, items, k + 1);
    }
}

proof fn lemma_entries_grow(heap: HeapView, entries: Seq<(Seq<char>, ValueView)>, k: int)
    requires
        roomy(heap),
        0 <= k <= entries.len(),
    ensures
        roomy(attach_entries(heap, entries, k).0),
        heap.slots.len() <= attach_entries(heap, entries, k).0.slots.len(),
    decreases entries, entries.len() - k,
{
    if k < entries.len() {
        lemma_attach_grows(heap, entries[k].1);
        lemma_entries_grow(attach_value(heap, entries[k].1).0, entries, k + 1);
    }
}

/// Copying a value in changes nothing that is known.
proof fn lemma_attach_still(heap: HeapView, value: ValueView, name: Seq<char>)
    requires
        heap.wf(),
        attach_value(heap, value).0.slots.len() <= usize::MAX,
    ensures
        still(heap, attach_value(heap, value).0, name),
        attach_value(heap, value).0.wf(),
    decreases value, 0int,
{
    lemma_same_slots_still(heap, heap, name);
    match value {
        ValueView::String(_) => {
            lemma_same_slots_still(heap, heap.issue(), name);
        },
        ValueView::Array(items) => {
            let (after, parts) = attach_items(heap, items, 0);
            lemma_items_grow(heap, items, 0);
            lemma_roomy(after, SlotView::Array { items: parts, version: 0 });
            lemma_items_still(heap, items, 0, name);
            lemma_allocated_still(after, SlotView::Array { items: parts, version: 0 }, name);
            lemma_still_chain(heap, after, attach_value(heap, value).0, name);
        },
        ValueView::Object(entries) => {
            let (after, parts) = attach_entries(heap, entries, 0);
            let slot = SlotView::Object { entries: keyed(entries, parts), version: 0 };
            lemma_entries_grow(heap, entries, 0);
            lemma_roomy(after, slot);
            lemma_entries_still(heap, entries, 0, name);
            lemma_allocated_still(after, slot, name);
            lemma_still_chain(heap, after, attach_value(heap, value).0, name);
        },
        _ => {},
    }
}

proof fn lemma_items_still(heap: HeapView, items: Seq<ValueView>, k: int, name: Seq<char>)
    requires
        heap.wf(),
        0 <= k <= items.len(),
        attach_items(heap, items, k).0.slots.len() <= usize::MAX,
    ensures
        still(heap, attach_items(heap, items, k).0, name),
        attach_items(heap, items, k).0.wf(),
    decreases items, items.len() - k,
{
    lemma_same_slots_still(heap, heap, name);
    if k < items.len() {
        let one = attach_value(heap, items[k]).0;
        lemma_attach_grows(heap, items[k]);
        lemma_items_grow(one, items, k + 1);
        lemma_attach_still(heap, items[k], name);
        lemma_items_still(one, items, k + 1, name);
        lemma_still_chain(heap, one, attach_items(heap, items, k).0, name);
    }
}

proof fn lemma_entries_still(heap: HeapView, entries: Seq<(Seq<char>, ValueView)>, k: int, name: Seq<char>)
    requires
        heap.wf(),
        0 <= k <= entries.len(),
        attach_entries(heap, entries, k).0.slots.len() <= usize::MAX,
    ensures
        still(heap, attach_entries(heap, entries, k).0, name),
        attach_entries(heap, entries, k).0.wf(),
    decreases entries, entries.len() - k,
{
    lemma_same_slots_still(heap, heap, name);
    if k < entries.len() {
        let one = attach_value(heap, entries[k].1).0;
        lemma_attach_grows(heap, entries[k].1);
        lemma_entries_grow(one, entries, k + 1);
        lemma_attach_still(heap, entries[k].1, name);
        lemma_entries_still(one, entries, k + 1, name);
        lemma_still_chain(heap, one, attach_entries(heap, entries, k).0, name);
    }
}

/// Going on with the answer to a host call.
proof fn lemma_resumed(p: Program, s: Sight, m: MachineView, value: ValueView)
    requires
        sane(p, s, m),
        m.suspended is Some,
        sized(resumed(m, value)),
    ensures
        sane(p, s, resumed(m, value)),
{
    let l = choose|l: Labels| abides(p, s, l, m);
    let after = resumed(m, value);
    law_resume_lasts(nothing(), m, value);
    if let Some((chain, in_target)) = m.suspended {
        let (heap, handle) = attach_value(m.heap, value);
        lemma_attach_still(m.heap, value, s.name);
        lemma_same_frames(p, s, l, m.heap, heap, m.functions, m.functions, m.frames, m.scope, false);
        let given = MachineView { suspended: None, heap, ..m }.give(handle);
        let frame = Frame::Link { chain, index: 1, in_target };
        let asked = Frame::Link { chain, index: 1, in_target: false };
        assert(carried(s, l, m.heap, l, heap, m.scope));
        lemma_fine_carried(p, s, l, m.heap, l, heap, asked, m.scope);
        assert(fine(p, s, l, heap, frame, m.scope)) by {
            assert forall|job: JobView| #[trigger] runs(p, frame, job) implies s.lives(job) && suits(
                s,
                l,
                heap,
                job,
                m.scope,
            ) by {
                assert(runs(p, asked, job));
            }
        }
        lemma_settled_push(p, s, l, heap, m.frames, m.scope, frame);
        assert(abides(p, s, l, after));
        assert(fits(p, given));
        crate::interpreter::keeping::lemma_push(p, given, frame);
        lemma_none_push(p, s, m.frames, frame);
    }
}

/// What a run goes on to is as sane.
proof fn lemma_follows(p: Program, s: Sight, a: MachineView, b: MachineView)
    requires
        consistent(p, s),
        p.wf(),
        sane(p, s, a),
        follows(p, a, b),
        sized(b),
    ensures
        sane(p, s, b),
{
    let l = choose|l: Labels| abides(p, s, l, a);
    if a.frames.len() > 0 && a.suspended is None && match a.taken().step(p, a.frames.last()) {
        Turn::Go(after) => b == MachineView { work: b.work, meter: b.meter, ..after },
        Turn::Halt(after, stop) => (stop is Ask || stop is HostCall) && b == MachineView {
            work: b.work,
            meter: b.meter,
            ..after
        },
        Turn::Fail(_) => false,
    } {
        let frame = a.frames.last();
        let taken = a.taken();
        let after = match taken.step(p, frame) {
            Turn::Go(x) => x,
            Turn::Halt(x, _) => x,
            Turn::Fail(_) => a,
        };
        assert(taken.push(frame).frames =~= a.frames);
        lemma_taken(p, a);
        assert(abides(p, s, l, taken.push(frame)));
        assert(good(nothing(), taken.push(frame)));
        law_step_lasts(nothing(), p, taken, frame);
        law_step_keeps_fit(p, taken, frame);
        assert(primed(p, s, taken.push(frame))) by {
            let n = a.frames.len() as int;
            if let Frame::Declare(at) = a.frames[n - 1] {
                if poised(p, s, a, at) {
                    assert(poised(p, s, taken.push(frame), at));
                }
            }
        }
        lemma_primed(p, s, taken, frame, after);
        lemma_step_abides(p, s, l, nothing(), taken, frame);
        assert(abides_on(p, s, after));
        let labels = choose|x: Labels| abides(p, s, x, after);
        assert(abides(p, s, labels, b));
        assert(primed(p, s, b)) by {
            let n = b.frames.len() as int;
            if n > 0 {
                if let Frame::Declare(at) = b.frames[n - 1] {
                    if poised(p, s, after, at) {
                        assert(poised(p, s, b, at));
                    }
                }
            }
        }
    } else if a.suspended is Some && exists|value: ValueView| b == #[trigger] resumed(a, value) {
        let value = choose|value: ValueView| b == #[trigger] resumed(a, value);
        lemma_resumed(p, s, a, value);
    } else {
        assert(abides(p, s, l, b));
        assert(primed(p, s, b)) by {
            let n = b.frames.len() as int;
            if n > 0 {
                if let Frame::Declare(at) = b.frames[n - 1] {
                    if poised(p, s, a, at) {
                        assert(poised(p, s, b, at));
                    }
                }
            }
        }
    }
}

/// A heap with one scope, in which only starting variables are bound.
spec fn rooted(heap: HeapView, seed: Seq<(Seq<char>, Span)>, name: Seq<char>) -> bool {
    &&& heap.slots.len() > 0
    &&& heap.free.len() == 0
    &&& heap.slots[0] is Scope
    &&& around(heap, SlotId(0)) is None
    &&& forall|i: int| 0 < i < heap.slots.len() ==> (#[trigger] heap.slots[i]) is Array || heap.slots[i] is Object
    &&& has_key(heap.bindings(SlotId(0)), name) ==> seeded(seed, name)
}

proof fn lemma_rooted_allocated(heap: HeapView, slot: SlotView, seed: Seq<(Seq<char>, Span)>, name: Seq<char>)
    requires
        rooted(heap, seed, name),
        slot is Array || slot is Object,
    ensures
        rooted(heap.allocated(slot), seed, name),
{
    assert(heap.allocated(slot).slot(SlotId(0)) == heap.slot(SlotId(0)));
}

proof fn lemma_rooted_attached(heap: HeapView, value: ValueView, seed: Seq<(Seq<char>, Span)>, name: Seq<char>)
    requires
        rooted(heap, seed, name),
    ensures
        rooted(attach_value(heap, value).0, seed, name),
    decreases value, 0int,
{
    match value {
        ValueView::String(_) => {
            assert(heap.issue().slot(SlotId(0)) == heap.slot(SlotId(0)));
        },
        ValueView::Array(items) => {
            lemma_rooted_items(heap, items, 0, seed, name);
            let (after, parts) = attach_items(heap, items, 0);
            lemma_rooted_allocated(after, SlotView::Array { items: parts, version: 0 }, seed, name);
        },
        ValueView::Object(entries) => {
            lemma_rooted_entries(heap, entries, 0, seed, name);
            let (after, parts) = attach_entries(heap, entries, 0);
            lemma_rooted_allocated(after, SlotView::Object { entries: keyed(entries, parts), version: 0 }, seed, name);
        },
        _ => {},
    }
}

proof fn lemma_rooted_items(heap: HeapView, items: Seq<ValueView>, k: int, seed: Seq<(Seq<char>, Span)>, name: Seq<char>)
    requires
        rooted(heap, seed, name),
        0 <= k <= items.len(),
    ensures
        rooted(attach_items(heap, items, k).0, seed, name),
    decreases items, items.len() - k,
{
    if k < items.len() {
        lemma_rooted_attached(heap, items[k], seed, name);
        lemma_rooted_items(attach_value(heap, items[k]).0, items, k + 1, seed, name);
    }
}

proof fn lemma_rooted_entries(
    heap: HeapView,
    entries: Seq<(Seq<char>, ValueView)>,
    k: int,
    seed: Seq<(Seq<char>, Span)>,
    name: Seq<char>,
)
    requires
        rooted(heap, seed, name),
        0 <= k <= entries.len(),
    ensures
        rooted(attach_entries(heap, entries, k).0, seed, name),
    decreases entries, entries.len() - k,
{
    if k < entries.len() {
        lemma_rooted_attached(heap, entries[k].1, seed, name);
        lemma_rooted_entries(attach_value(heap, entries[k].1).0, entries, k + 1, seed, name);
    }
}

/// Whether the starting variables have names that a seed has.
pub open spec fn foreseen(variables: Seq<(Seq<char>, ValueView)>, seed: Seq<(Seq<char>, Span)>) -> bool {
    forall|i: int| 0 <= i < variables.len() ==> seeded(seed, (#[trigger] variables[i]).0)
}

proof fn lemma_rooted_variables(
    heap: HeapView,
    variables: Seq<(Seq<char>, ValueView)>,
    n: int,
    seed: Seq<(Seq<char>, Span)>,
    name: Seq<char>,
)
    requires
        rooted(heap, seed, name),
        foreseen(variables, seed),
        n <= variables.len(),
    ensures
        rooted(variables_bound(heap, SlotId(0), variables, n), seed, name),
    decreases n,
{
    if n > 0 {
        lemma_rooted_variables(heap, variables, n - 1, seed, name);
        let earlier = variables_bound(heap, SlotId(0), variables, n - 1);
        lemma_rooted_attached(earlier, variables[n - 1].1, seed, name);
        let (after, value) = attach_value(earlier, variables[n - 1].1);
        assert(seeded(seed, variables[n - 1].0));
        lemma_put_keys(after.bindings(SlotId(0)), variables[n - 1].0, value);
    }
}

/// An execution starts sane.
proof fn lemma_started(p: Program, s: Sight, variables: Seq<(Seq<char>, ValueView)>, seed: Seq<(Seq<char>, Span)>)
    requires
        consistent(p, s),
        p.wf(),
        s.lives(JobView::Open { statements: p.statements@, seed, body: false }),
        foreseen(variables, seed),
        sized(started(p, variables)),
    ensures
        sane(p, s, started(p, variables)),
{
    let none = nothing();
    let root = none.next();
    assert(root == SlotId(0));
    let heap = variables_bound(none.scope_pushed(None), root, variables, variables.len() as int);
    let m = MachineView {
        frames: Seq::empty(),
        values: Seq::empty(),
        heap,
        scope: root,
        root,
        functions: Seq::empty(),
        depth: 0,
        suspended: None,
        meter: Meter { slice: None, memory_ceiling: None, allocation_ceiling: None },
        work: 0,
        site: Site::Unknown,
        allocations: 0,
        answered: None,
    };
    assert(rooted(none.scope_pushed(None), seed, s.name));
    lemma_rooted_variables(none.scope_pushed(None), variables, variables.len() as int, seed, s.name);
    let blank = Labels {
        age: |x: SlotId| 0,
        soil: |x: SlotId| false,
        arity: |x: SlotId, a: usize| false,
        next: 0,
    };
    let statements = p.statements@;
    let l = relabelled(p, s, blank, root, statements, seed);
    assert(calm(p, s, l, heap, m.functions)) by {
        assert forall|id: SlotId| (#[trigger] heap.slot(id)) is Scope implies id == root by {
            if 0 < id.0 < heap.slots.len() {
                assert(heap.slots[id.0 as int] is Array || heap.slots[id.0 as int] is Object);
            }
        }
        assert forall|id: SlotId| (#[trigger] heap.slot(id)) is Function implies housed_at(
            p,
            s,
            l,
            heap,
            m.functions,
            id,
        ) by {
            if 0 < id.0 < heap.slots.len() {
                assert(heap.slots[id.0 as int] is Array || heap.slots[id.0 as int] is Object);
            }
        }
        assert forall|id: SlotId, n: usize| heap.slot(id) is Scope && #[trigger] l.sures(id, n) implies only(
            p,
            heap,
            m.functions,
            heap.bindings(id),
            s.name,
            n,
        ) by {
            assert(id == root);
            assert(sure(p, statements, seed, s.name, n));
            assert(!has_key(heap.bindings(root), s.name));
        }
    }
    assert(p.statements_of(None) == statements);
    assert(inside_block(p, s, l, m, statements, seed, false));
    crate::interpreter::lasting::law_start_is_sound(p, variables);
    lemma_start_good(p, variables, m);
    lemma_block(p, s, l, nothing(), m, None, seed, false);
    assert(fits(p, m));
    crate::interpreter::keeping::lemma_opened(p, m, None);
    lemma_none_opened(p, s, m, None);
}

proof fn lemma_start_good(p: Program, variables: Seq<(Seq<char>, ValueView)>, m: MachineView)
    requires
        m.frames.len() == 0,
        m.scope == nothing().next(),
        m.heap == variables_bound(nothing().scope_pushed(None), nothing().next(), variables, variables.len() as int),
    ensures
        good(nothing(), m),
{
    let none = nothing();
    let root = none.next();
    let heap = none.scope_pushed(None);
    let open = seq![root];
    assert(crate::interpreter::lasting::grew(none, heap, open)) by {
        assert(root == SlotId(0));
        assert(heap.slots.len() == 1);
        assert(heap.wf());
        assert forall|id: SlotId| #![trigger around(heap, id)] crate::interpreter::scopes::linked(heap, id) by {}
        assert forall|id: SlotId| #[trigger] heap.slot(id) is Scope && !heap.captured(id) implies open.contains(id) by {
            assert(open[0] == id);
        }
    }
    crate::interpreter::lasting::lemma_variables(none, heap, open, root, variables, variables.len() as int);
}

/// Every machine that an execution can get to is sane.
pub proof fn lemma_reached(
    p: Program,
    s: Sight,
    variables: Seq<(Seq<char>, ValueView)>,
    seed: Seq<(Seq<char>, Span)>,
    m: MachineView,
)
    requires
        consistent(p, s),
        p.wf(),
        s.lives(JobView::Open { statements: p.statements@, seed, body: false }),
        foreseen(variables, seed),
        reached(p, variables, m),
    ensures
        sane(p, s, m),
{
    let trace = choose|trace: Seq<MachineView>| #[trigger] walks(p, started(p, variables), trace, m);
    assert(sized(trace[0]));
    lemma_started(p, s, variables, seed);
    lemma_trace(p, s, started(p, variables), trace, m, trace.len() - 1);
}

proof fn lemma_trace(p: Program, s: Sight, first: MachineView, trace: Seq<MachineView>, last: MachineView, i: int)
    requires
        consistent(p, s),
        p.wf(),
        walks(p, first, trace, last),
        sane(p, s, first),
        0 <= i < trace.len(),
    ensures
        sane(p, s, trace[i]),
    decreases i,
{
    if i > 0 {
        lemma_trace(p, s, first, trace, last, i - 1);
        assert(sized(trace[i]));
        assert(follows(p, trace[i - 1], trace[i]));
        lemma_follows(p, s, trace[i - 1], trace[i]);
    }
}

} // verus!

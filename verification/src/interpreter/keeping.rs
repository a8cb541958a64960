//! What every step keeps: each frame and place stays the Program's, and the depth stays the number
//! of calls on the stack, within its limit.

use vstd::prelude::*;
use crate::ast::AccessKind;
use crate::ast::BlockId;
use crate::ast::ExprId;
use crate::ast::ExpressionKind;
use crate::ast::Program;
use crate::ast::StatementKind;
use crate::interpreter::heap::RtView;
use crate::interpreter::heap::SlotView;
use crate::interpreter::machine::calls;
use crate::interpreter::machine::fits;
use crate::interpreter::machine::fn_ok;
use crate::interpreter::machine::frame_ok;
use crate::interpreter::machine::lemma_calls_positive;
use crate::interpreter::machine::lemma_function_body;
use crate::interpreter::machine::lemma_statement_ok;
use crate::interpreter::machine::loop_ok;
use crate::interpreter::machine::stmt_ok;
use crate::interpreter::machine::taken_fits;
use crate::interpreter::semantics::CALL_DEPTH_LIMIT;
use crate::interpreter::semantics::Chain;
use crate::interpreter::semantics::FnAt;
use crate::interpreter::semantics::Frame;
use crate::interpreter::semantics::LoopFrame;
use crate::interpreter::semantics::LoopKind;
use crate::interpreter::semantics::MachineView;
use crate::interpreter::semantics::StmtAt;
use crate::interpreter::semantics::Turn;
use crate::interpreter::semantics::chain_links;
use crate::interpreter::semantics::evals;
use crate::interpreter::semantics::scheduled;
use crate::interpreter::semantics::statement_at;

verus! {

/// Whether the state that a turn leads to fits.
pub open spec fn leads(p: Program, turn: Turn) -> bool {
    match turn {
        Turn::Go(m) => fits(p, m),
        Turn::Halt(m, _) => fits(p, m),
        Turn::Fail(_) => true,
    }
}

pub proof fn lemma_push(p: Program, m: MachineView, frame: Frame)
    requires
        fits(p, m),
        frame_ok(p, frame),
        !(frame is CallEnd),
    ensures
        fits(p, m.push(frame)),
{
    let after = m.push(frame);
    assert(after.frames.drop_last() =~= m.frames);
    assert forall|i: int| 0 <= i < after.frames.len() implies frame_ok(p, #[trigger] after.frames[i]) by {
        if i < m.frames.len() {
            assert(after.frames[i] == m.frames[i]);
        }
    }
}

proof fn lemma_calls_add(frames: Seq<Frame>, more: Seq<Frame>)
    requires
        forall|i: int| 0 <= i < more.len() ==> !(#[trigger] more[i] is CallEnd),
    ensures
        calls(frames + more) == calls(frames),
    decreases more.len(),
{
    if more.len() == 0 {
        assert(frames + more =~= frames);
    } else {
        lemma_calls_add(frames, more.drop_last());
        assert((frames + more).drop_last() =~= frames + more.drop_last());
        assert(!(more[more.len() - 1] is CallEnd));
    }
}

proof fn lemma_push_all(p: Program, m: MachineView, more: Seq<Frame>)
    requires
        fits(p, m),
        forall|i: int| 0 <= i < more.len() ==> frame_ok(p, #[trigger] more[i]) && !(more[i] is CallEnd),
    ensures
        fits(p, m.push_all(more)),
{
    lemma_calls_add(m.frames, more);
    let after = m.push_all(more);
    assert forall|i: int| 0 <= i < after.frames.len() implies frame_ok(p, #[trigger] after.frames[i]) by {
        if i < m.frames.len() {
            assert(after.frames[i] == m.frames[i]);
        } else {
            assert(after.frames[i] == more[i - m.frames.len()]);
        }
    }
}

proof fn lemma_push_evals(p: Program, m: MachineView, ids: Seq<ExprId>)
    requires
        fits(p, m),
        p.has_exprs(ids),
    ensures
        fits(p, m.push_all(evals(ids))),
{
    assert forall|i: int| 0 <= i < evals(ids).len() implies frame_ok(p, #[trigger] evals(ids)[i]) && !(evals(
        ids,
    )[i] is CallEnd) by {
        assert(p.has_expr(ids[ids.len() - 1 - i]));
    }
    lemma_push_all(p, m, evals(ids));
}

proof fn lemma_function_made(p: Program, m: MachineView, at: FnAt)
    requires
        fits(p, m),
        fn_ok(p, at),
    ensures
        fits(p, m.function_made(at)),
{
}

pub proof fn lemma_small(p: Program, block: Option<BlockId>)
    requires
        p.has_body(block),
    ensures
        p.statements_of(block).len() <= usize::MAX,
{
    match block {
        None => {
            assert(p.statements.len() == p.statements@.len());
        },
        Some(id) => {
            assert(p.blocks@[id.0 as int].statements.len() == p.blocks@[id.0 as int].statements@.len());
        },
    }
}

proof fn lemma_hoisted(p: Program, m: MachineView, block: Option<BlockId>, k: int)
    requires
        fits(p, m),
        p.has_body(block),
        0 <= k,
    ensures
        fits(p, m.hoisted(p, block, k)),
    decreases p.statements_of(block).len() - k,
{
    if k < p.statements_of(block).len() {
        lemma_small(p, block);
        match p.statements_of(block)[k].kind {
            StatementKind::Function { name, .. } => {
                let at = FnAt::Declared(StmtAt { block, index: k as usize });
                lemma_function_made(p, m, at);
                let made = m.function_made(at);
                let next = MachineView {
                    heap: made.heap.declared(m.scope, name.name@, m.function_value()),
                    ..made
                };
                lemma_hoisted(p, next, block, k + 1);
            },
            _ => {
                lemma_hoisted(p, m, block, k + 1);
            },
        }
    }
}

pub proof fn lemma_opened(p: Program, m: MachineView, block: Option<BlockId>)
    requires
        fits(p, m),
        p.has_body(block),
    ensures
        fits(p, m.opened(p, block)),
{
    lemma_hoisted(p, m, block, 0);
    lemma_small(p, block);
    lemma_push_all(p, m.hoisted(p, block, 0), scheduled(block, p.statements_of(block).len()));
}

proof fn lemma_entered(p: Program, m: MachineView, block: BlockId)
    requires
        fits(p, m),
        p.has_block(block),
    ensures
        fits(p, m.entered(p, block)),
{
    let inner = m.scoped(m.scope);
    lemma_push(p, inner, Frame::ExitScope(m.scope));
    lemma_opened(p, inner.push(Frame::ExitScope(m.scope)), Some(block));
}

proof fn lemma_branched(p: Program, m: MachineView, at: StmtAt, index: int)
    requires
        p.wf(),
        fits(p, m),
        stmt_ok(p, at),
        0 <= index,
    ensures
        fits(p, m.branched(p, at, index)),
{
    lemma_statement_ok(p, at);
    match statement_at(p, at).kind {
        StatementKind::If { branches, else_branch } => {
            if index < branches@.len() {
                assert(branches.len() == branches@.len());
                let frame = Frame::Branch { at, index: index as usize };
                lemma_push(p, m, frame);
                assert(p.has_expr(branches@[index].condition.expression));
                lemma_push(p, m.push(frame), Frame::Eval(branches@[index].condition.expression));
            } else if let Some(otherwise) = else_branch {
                lemma_entered(p, m, otherwise.body);
            }
        },
        _ => {},
    }
}

/// Taking off a frame that is no call.
proof fn lemma_dropped(p: Program, m: MachineView)
    requires
        fits(p, m),
        m.frames.len() > 0,
        !(m.frames.last() is CallEnd),
    ensures
        fits(p, MachineView { frames: m.frames.drop_last(), ..m }),
        frame_ok(p, m.frames.last()),
{
    assert(frame_ok(p, m.frames[m.frames.len() - 1]));
    assert forall|i: int| 0 <= i < m.frames.drop_last().len() implies frame_ok(
        p,
        #[trigger] m.frames.drop_last()[i],
    ) by {
        assert(frame_ok(p, m.frames[i]));
    }
}

proof fn lemma_unwound(p: Program, m: MachineView, consume: bool)
    requires
        fits(p, m),
    ensures
        fits(p, m.unwound(consume)),
    decreases m.frames.len(),
{
    if m.frames.len() > 0 && !(m.frames.last() is CallEnd) {
        lemma_dropped(p, m);
        let frame = m.frames.last();
        let rest = MachineView { frames: m.frames.drop_last(), ..m };
        match frame {
            Frame::ExitScope(outer) => {
                lemma_unwound(p, rest.exited(outer), consume);
            },
            Frame::Loop(state) => {
                let cut = MachineView { scope: state.outer_scope, ..rest.cut(state.values as int) };
                assert(fits(p, cut));
                if !consume {
                    lemma_push(p, cut, frame);
                }
            },
            _ => {
                lemma_unwound(p, rest, consume);
            },
        }
    }
}

/// A call's boundary undone.
proof fn lemma_call_ended(
    p: Program,
    m: MachineView,
    frame: Frame,
    value: RtView,
)
    requires
        taken_fits(p, m, frame),
        frame is CallEnd,
    ensures
        frame matches Frame::CallEnd { outer_scope, values, chain, index, in_target } ==> fits(
            p,
            m.call_ended(outer_scope, values, chain, index, in_target, value),
        ),
{
    if let Frame::CallEnd { outer_scope, values, chain, index, in_target } = frame {
        let out = m.cut(values as int).exited(outer_scope);
        let less = MachineView { depth: out.depth - 1, ..out };
        lemma_calls_positive(m.frames);
        assert(fits(p, less.give(value)));
        lemma_push(p, less.give(value), Frame::Link { chain, index: (index + 1) as usize, in_target });
    }
}

proof fn lemma_returned(p: Program, m: MachineView, value: RtView)
    requires
        fits(p, m),
    ensures
        fits(p, m.returned(value)),
    decreases m.frames.len(),
{
    if m.frames.len() > 0 {
        let frame = m.frames.last();
        let rest = MachineView { frames: m.frames.drop_last(), ..m };
        assert(frame_ok(p, m.frames[m.frames.len() - 1]));
        assert forall|i: int| 0 <= i < rest.frames.len() implies frame_ok(p, #[trigger] rest.frames[i]) by {
            assert(frame_ok(p, m.frames[i]));
        }
        match frame {
            Frame::ExitScope(outer) => {
                lemma_returned(p, rest.exited(outer), value);
            },
            Frame::CallEnd { .. } => {
                lemma_call_ended(p, rest, frame, value);
            },
            _ => {
                lemma_returned(p, rest, value);
            },
        }
    }
}

proof fn lemma_chain_opened(p: Program, m: MachineView, access: ExprId, end: int, in_target: bool)
    requires
        p.wf(),
        fits(p, m),
        p.has_expr(access),
    ensures
        leads(p, m.chain_opened(p, access, end, in_target)),
{
    assert(p.expression_ok(p.expressions@[access.0 as int]));
    if let ExpressionKind::Access { base, links } = p.expr(access).kind {
        let chain = Chain { access, end: end as usize };
        let host = Frame::HostCall { chain, in_target };
        let plain = Frame::Link { chain, index: 0, in_target };
        lemma_push(p, m, host);
        lemma_push(p, m, plain);
        lemma_push(p, m.push(plain), Frame::Eval(base));
        if links@.len() > 0 && links@[0].kind is Call {
            assert(p.link_ok(links@[0]));
            lemma_push_evals(p, m.push(host), links@[0].kind->Call_arguments@);
        }
    }
}

proof fn lemma_assignment(p: Program, m: MachineView, target: ExprId, value: ExprId)
    requires
        p.wf(),
        fits(p, m),
        p.has_expr(target),
        p.has_expr(value),
    ensures
        leads(p, m.assignment(p, target, value)),
{
    assert(p.expression_ok(p.expressions@[target.0 as int]));
    lemma_push(p, m, Frame::AssignName(target));
    lemma_push(p, m.push(Frame::AssignName(target)), Frame::Eval(value));
    lemma_push(p, m, Frame::AssignMember(target));
    let both = m.push(Frame::AssignMember(target)).push(Frame::Eval(value));
    lemma_push(p, m.push(Frame::AssignMember(target)), Frame::Eval(value));
    if let ExpressionKind::Access { links, .. } = p.expr(target).kind {
        if links@.len() > 0 {
            assert(p.link_ok(links@[links@.len() - 1]));
            match links@.last().kind {
                AccessKind::Property(_) => {
                    lemma_chain_opened(p, both, target, links@.len() - 1, true);
                },
                AccessKind::Index { expression, .. } => {
                    lemma_push(p, both, Frame::Eval(expression));
                    lemma_chain_opened(p, both.push(Frame::Eval(expression)), target, links@.len() - 1, true);
                },
                AccessKind::Call { .. } => {},
            }
        }
    }
}

proof fn lemma_statement(p: Program, m: MachineView, at: StmtAt)
    requires
        p.wf(),
        fits(p, m),
        stmt_ok(p, at),
    ensures
        leads(p, m.statement(p, at)),
{
    lemma_statement_ok(p, at);
    match statement_at(p, at).kind {
        StatementKind::Let { initializer, .. } => {
            lemma_push(p, m, Frame::Declare(at));
            lemma_push(p, m.push(Frame::Declare(at)), Frame::Eval(initializer));
        },
        StatementKind::Expression(id) => {
            lemma_push(p, m, Frame::Discard);
            lemma_push(p, m.push(Frame::Discard), Frame::Eval(id));
        },
        StatementKind::Return { value, .. } => match value {
            Some(id) => {
                lemma_push(p, m, Frame::Return(id));
                lemma_push(p, m.push(Frame::Return(id)), Frame::Eval(id));
            },
            None => {
                lemma_returned(p, m, RtView::Null);
            },
        },
        StatementKind::Block(id) => {
            lemma_entered(p, m, id);
        },
        StatementKind::Assignment { target, value, .. } => {
            lemma_assignment(p, m, target, value);
        },
        StatementKind::Function { .. } => {},
        StatementKind::If { .. } => {
            lemma_branched(p, m, at, 0);
        },
        StatementKind::While { keyword, condition, body } => {
            lemma_push(
                p,
                m,
                Frame::Loop(
                    LoopFrame {
                        outer_scope: m.scope,
                        values: m.values.len() as usize,
                        kind: LoopKind::While { keyword, condition: condition.expression, body },
                    },
                ),
            );
        },
        StatementKind::For { iterable, .. } => {
            lemma_push(p, m, Frame::ForStart(at));
            lemma_push(p, m.push(Frame::ForStart(at)), Frame::Eval(iterable));
        },
        StatementKind::Break { .. } => {
            lemma_unwound(p, m, true);
        },
        StatementKind::Continue { .. } => {
            lemma_unwound(p, m, false);
        },
    }
}

proof fn lemma_expression(p: Program, m: MachineView, id: ExprId)
    requires
        p.wf(),
        fits(p, m),
        p.has_expr(id),
    ensures
        leads(p, m.expression(p, id)),
{
    assert(p.expression_ok(p.expressions@[id.0 as int]));
    match p.expr(id).kind {
        ExpressionKind::Literal(_) => {},
        ExpressionKind::Identifier(_) => {},
        ExpressionKind::Group { expression, .. } => {
            lemma_push(p, m, Frame::Eval(expression));
        },
        ExpressionKind::Unary { operator, operand } => {
            lemma_push(p, m, Frame::Unary { operator, operand });
            lemma_push(p, m.push(Frame::Unary { operator, operand }), Frame::Eval(operand));
        },
        ExpressionKind::Binary { left, operator, right } => {
            lemma_push(p, m, Frame::BinaryRight { left, operator, right });
            lemma_push(p, m.push(Frame::BinaryRight { left, operator, right }), Frame::Eval(left));
        },
        ExpressionKind::Array { elements, .. } => {
            let frame = Frame::BuildArray { array: id, count: elements@.len() as usize };
            lemma_push(p, m, frame);
            lemma_push_evals(p, m.push(frame), elements@);
        },
        ExpressionKind::Object { entries, .. } => {
            let ids = Seq::new(entries@.len(), |i: int| entries@[i].value);
            lemma_push(p, m, Frame::BuildObject(id));
            assert forall|i: int| 0 <= i < ids.len() implies p.has_expr(#[trigger] ids[i]) by {
                assert(p.has_expr(entries@[i].value));
            }
            lemma_push_evals(p, m.push(Frame::BuildObject(id)), ids);
        },
        ExpressionKind::Access { links, .. } => {
            lemma_chain_opened(p, m, id, links@.len() as int, false);
        },
        ExpressionKind::Function(_) => {
            lemma_function_made(p, m, FnAt::Literal(id));
        },
    }
}

proof fn lemma_links_ok(p: Program, chain: Chain, i: int)
    requires
        p.wf(),
        p.has_expr(chain.access),
        0 <= i < chain_links(p, chain).len(),
    ensures
        p.link_ok(chain_links(p, chain)[i]),
        i < usize::MAX,
{
    assert(p.expression_ok(p.expressions@[chain.access.0 as int]));
    if let ExpressionKind::Access { links, .. } = p.expr(chain.access).kind {
        assert(p.link_ok(links@[i]));
        assert(links.len() == links@.len());
    }
}

proof fn lemma_link(p: Program, m: MachineView, chain: Chain, index: usize, in_target: bool)
    requires
        p.wf(),
        fits(p, m),
        p.has_expr(chain.access),
    ensures
        leads(p, m.link(p, chain, index, in_target)),
{
    let links = chain_links(p, chain);
    if index < links.len() {
        lemma_links_ok(p, chain, index as int);
        match links[index as int].kind {
            AccessKind::Call { arguments, .. } => {
                let frame = Frame::Invoke { chain, index, in_target, arguments: arguments@.len() as usize };
                lemma_push(p, m, frame);
                lemma_push_evals(p, m.push(frame), arguments@);
            },
            AccessKind::Property(name) => {
                if let RtView::Object(object) = m.top() {
                    let value = match m.heap.object_get(object, name.name@) {
                        Some(value) => value,
                        None => RtView::Null,
                    };
                    lemma_push(
                        p,
                        m.pop().give(value),
                        Frame::Link { chain, index: (index + 1) as usize, in_target },
                    );
                }
            },
            AccessKind::Index { expression, .. } => {
                let frame = Frame::IndexRead { chain, index, in_target };
                lemma_push(p, m, frame);
                lemma_push(p, m.push(frame), Frame::Eval(expression));
            },
        }
    }
}

proof fn lemma_invoked(p: Program, m: MachineView, chain: Chain, index: usize, in_target: bool, arguments: usize)
    requires
        p.wf(),
        fits(p, m),
        p.has_expr(chain.access),
    ensures
        leads(p, m.invoked(p, chain, index, in_target, arguments)),
{
    let links = chain_links(p, chain);
    if index < links.len() {
        lemma_links_ok(p, chain, index as int);
        let rest = m.pops(arguments as int).pop();
        let values = m.tops(arguments as int);
        if let RtView::Function(slot) = m.pops(arguments as int).top() {
            if let SlotView::Function { definition, scope } = m.heap.slot(slot) {
                if m.defined(p, definition) is Some && m.depth < CALL_DEPTH_LIMIT {
                    let at = m.functions[definition as int];
                    assert(fn_ok(p, at));
                    lemma_function_body(p, at);
                    let function = m.defined(p, definition)->0;
                    let inner = rest.scoped(scope);
                    let frame = Frame::CallEnd {
                        outer_scope: m.scope,
                        values: rest.values.len() as usize,
                        chain,
                        index,
                        in_target,
                    };
                    let framed = MachineView { depth: m.depth + 1, ..inner }.push(frame);
                    assert(framed.frames.drop_last() =~= m.frames);
                    assert forall|i: int| 0 <= i < framed.frames.len() implies frame_ok(
                        p,
                        #[trigger] framed.frames[i],
                    ) by {
                        if i < m.frames.len() {
                            assert(framed.frames[i] == m.frames[i]);
                        }
                    }
                    assert(fits(p, framed));
                    let named = MachineView {
                        heap: crate::interpreter::semantics::bound(
                            framed.heap,
                            framed.scope,
                            function,
                            values,
                            function.parameters@.len() as int,
                        ),
                        ..framed
                    };
                    lemma_opened(p, named, Some(function.body));
                }
            }
        }
    }
}

proof fn lemma_advanced(p: Program, m: MachineView, state: LoopFrame)
    requires
        p.wf(),
        fits(p, m),
        loop_ok(p, state),
    ensures
        leads(p, m.advanced(p, state)),
{
    match state.kind {
        LoopKind::While { condition, .. } => {
            lemma_push(p, m, Frame::LoopTest(state));
            lemma_push(p, m.push(Frame::LoopTest(state)), Frame::Eval(condition));
        },
        LoopKind::For { keyword, at, body, collection, version, index, over_keys } => {
            if let Some(item) = crate::interpreter::semantics::iterated(m.heap, collection, index, over_keys) {
                let made = if over_keys { m.text_made() } else { m };
                let inner = made.scoped(state.outer_scope);
                let named = match statement_at(p, at).kind {
                    StatementKind::For { binding, .. } => MachineView {
                        heap: inner.heap.declared(inner.scope, binding.name@, item),
                        ..inner
                    },
                    _ => inner,
                };
                let next = LoopFrame {
                    kind: LoopKind::For {
                        keyword,
                        at,
                        body,
                        collection,
                        version,
                        index: (index + 1) as usize,
                        over_keys,
                    },
                    ..state
                };
                assert(fits(p, named));
                lemma_push(p, named, Frame::Loop(next));
                lemma_push(p, named.push(Frame::Loop(next)), Frame::ExitScope(m.scope));
                lemma_opened(p, named.push(Frame::Loop(next)).push(Frame::ExitScope(m.scope)), Some(body));
            }
        },
    }
}

/// Every step of a fitting state leads to a fitting state: frames and places stay the Program's, and
/// the depth stays the number of calls on the stack, at most the limit.
pub proof fn law_step_keeps_fit(p: Program, m: MachineView, frame: Frame)
    requires
        p.wf(),
        taken_fits(p, m, frame),
    ensures
        leads(p, m.step(p, frame)),
{
    if !(frame is CallEnd) {
        assert(fits(p, m));
    }
    match frame {
        Frame::Statement(at) => {
            lemma_statement(p, m, at);
        },
        Frame::Eval(id) => {
            lemma_expression(p, m, id);
        },
        Frame::Return(_) => {
            lemma_returned(p, m.pop(), m.top());
        },
        Frame::Unary { operator, operand } => {
            let value = m.top();
            let rest = if m.answered is None { m.pop().read_text(value) } else { m.pop() };
            assert(fits(p, rest.give(value)));
            lemma_push(p, rest.give(value), frame);
        },
        Frame::BinaryRight { left, operator, right } => {
            lemma_push(p, m.pop(), Frame::Eval(right));
            let both = Frame::Binary { left, operator, right };
            lemma_push(p, m, both);
            lemma_push(p, m.push(both), Frame::Eval(right));
        },
        Frame::Binary { left, operator, right } => {
            let r = m.top();
            let l = m.pop().top();
            let popped = m.pop().pop();
            let rest = if m.answered is None { popped.read_text(l).read_text(r) } else { popped };
            assert(fits(p, rest));
            assert(fits(p, rest.give(l).give(r)));
            lemma_push(p, rest.give(l).give(r), frame);
        },
        Frame::Link { chain, index, in_target } => {
            lemma_link(p, m, chain, index, in_target);
        },
        Frame::IndexRead { chain, index, in_target } => {
            let links = chain_links(p, chain);
            if index < links.len() {
                lemma_links_ok(p, chain, index as int);
                let key = m.top();
                let receiver = m.pop().top();
                let rest = m.pop().pop().read_text(key);
                if let AccessKind::Index { expression, .. } = links[index as int].kind {
                    if let Ok(value) = crate::interpreter::semantics::element(
                        m.heap,
                        p,
                        receiver,
                        key,
                        links[index as int],
                        expression,
                    ) {
                        assert(fits(p, rest.give(value)));
                        lemma_push(p, rest.give(value), Frame::Link { chain, index: (index + 1) as usize, in_target });
                    }
                }
            }
        },
        Frame::AssignMember(target) => {
            lemma_push(p, m, Frame::AssignMember(target));
            assert(m == MachineView { answered: m.answered, ..m });
        },
        Frame::Branch { at, index } => {
            lemma_statement_ok(p, at);
            if let StatementKind::If { branches, .. } = statement_at(p, at).kind {
                if index < branches@.len() {
                    assert(p.has_block(branches@[index as int].body));
                    lemma_entered(p, m.pop(), branches@[index as int].body);
                }
            }
            lemma_branched(p, m.pop(), at, index + 1);
        },
        Frame::Loop(state) => {
            lemma_advanced(p, m, state);
        },
        Frame::LoopTest(state) => {
            lemma_push(p, m.pop(), Frame::Loop(state));
            lemma_entered(p, m.pop().push(Frame::Loop(state)), crate::interpreter::semantics::loop_body(state.kind));
        },
        Frame::ForStart(at) => {
            lemma_statement_ok(p, at);
            if let StatementKind::For { keyword, iterable, body, .. } = statement_at(p, at).kind {
                let rest = m.pop();
                match m.top() {
                    RtView::Array(id) => {
                        lemma_loop_pushed(p, rest, keyword, at, body, id, false);
                    },
                    RtView::Object(id) => {
                        let worked = MachineView {
                            work: crate::interpreter::semantics::added(m.work, m.heap.entries(id).len() as int),
                            ..rest
                        };
                        assert(fits(p, worked));
                        lemma_loop_pushed(p, worked, keyword, at, body, id, true);
                    },
                    _ => {},
                }
            }
        },
        Frame::Invoke { chain, index, in_target, arguments } => {
            lemma_invoked(p, m, chain, index, in_target, arguments);
        },
        Frame::CallEnd { .. } => {
            lemma_call_ended(p, m, frame, RtView::Null);
        },
        _ => {},
    }
}

proof fn lemma_loop_pushed(
    p: Program,
    m: MachineView,
    keyword: crate::diagnostics::Span,
    at: StmtAt,
    body: BlockId,
    collection: crate::interpreter::heap::SlotId,
    over_keys: bool,
)
    requires
        fits(p, m),
        stmt_ok(p, at),
        p.has_block(body),
    ensures
        fits(p, m.loop_pushed(keyword, at, body, collection, over_keys)),
{
    lemma_push(
        p,
        m,
        Frame::Loop(
            LoopFrame {
                outer_scope: m.scope,
                values: m.values.len() as usize,
                kind: LoopKind::For {
                    keyword,
                    at,
                    body,
                    collection,
                    version: m.heap.version(collection),
                    index: 0,
                    over_keys,
                },
            },
        ),
    );
}

/// Taking the top frame off a fitting state leaves one that fits the frame taken.
pub proof fn lemma_taken(p: Program, m: MachineView)
    requires
        fits(p, m),
        m.frames.len() > 0,
    ensures
        taken_fits(p, m.taken(), m.frames.last()),
{
    let frame = m.frames.last();
    assert(frame_ok(p, m.frames[m.frames.len() - 1]));
    assert forall|i: int| 0 <= i < m.taken().frames.len() implies frame_ok(p, #[trigger] m.taken().frames[i]) by {
        assert(frame_ok(p, m.frames[i]));
    }
}

/// However long a fitting state runs, where it stops is a fitting state: the depth is the number of
/// calls on the stack, and never exceeds the limit.
pub proof fn law_run_keeps_fit(p: Program, m: MachineView, fuel: nat)
    requires
        p.wf(),
        fits(p, m),
    ensures
        leads(p, m.run(p, fuel)),
    decreases fuel,
{
    if m.frames.len() > 0 && fuel > 0 {
        lemma_taken(p, m);
        law_step_keeps_fit(p, m.taken(), m.frames.last());
        if let Turn::Go(after) = m.taken().step(p, m.frames.last()) {
            let worked = MachineView { work: crate::interpreter::semantics::added(after.work, 1), ..after };
            assert(fits(p, worked));
            law_run_keeps_fit(p, worked, (fuel - 1) as nat);
        }
    }
}

/// What a frame that fails leaves of the machine fits the Program.
#[verifier::spinoff_prover]
pub proof fn law_failure_keeps_fit(p: Program, m: MachineView, frame: Frame)
    requires
        taken_fits(p, m, frame),
        m.step(p, frame) is Fail,
    ensures
        fits(p, m.failed(p, frame)),
{
    law_failure_leaves_the_rest(p, m, frame);
}

/// A frame that fails takes operands off the value stack and counts work, and changes nothing else:
/// the heap, the scopes and the functions are as they were.
pub proof fn law_failure_leaves_the_rest(p: Program, m: MachineView, frame: Frame)
    ensures
        ({
            let left = m.failed(p, frame);
            left == MachineView { values: left.values, work: left.work, ..m }
        }),
        m.failed(p, frame).values == m.values.take(m.failed(p, frame).values.len() as int),
        m.failed(p, frame).values.len() <= m.values.len(),
{
}

} // verus!

//! That the work of a call's arguments leaves the stack below it as it was.

use vstd::prelude::*;
use crate::ast::AccessKind;
use crate::ast::BlockId;
use crate::ast::ExprId;
use crate::ast::ExpressionKind;
use crate::ast::Function;
use crate::ast::Program;
use crate::ast::Statement;
use crate::ast::StatementKind;
use crate::check::reaching::follows;
use crate::check::reaching::nothing;
use crate::check::reaching::walks;
use crate::check::running::extends;
use crate::check::running::lasting;
use crate::check::running::sized;
use crate::interpreter::attach::attach_value;
use crate::interpreter::heap::HeapView;
use crate::interpreter::heap::RtView;
use crate::interpreter::heap::SlotId;
use crate::interpreter::heap::SlotView;
use crate::interpreter::lasting::good;
use crate::interpreter::lasting::law_resume_lasts;
use crate::interpreter::lasting::law_step_lasts;
use crate::interpreter::lasting::slot_lasts;
use crate::interpreter::machine::resumed;
use crate::interpreter::semantics::Chain;
use crate::interpreter::semantics::FnAt;
use crate::interpreter::semantics::Frame;
use crate::interpreter::semantics::LoopFrame;
use crate::interpreter::semantics::LoopKind;
use crate::interpreter::semantics::MachineView;
use crate::interpreter::semantics::Made;
use crate::interpreter::semantics::StmtAt;
use crate::interpreter::semantics::Turn;
use crate::interpreter::semantics::binary;
use crate::interpreter::semantics::bound;
use crate::interpreter::semantics::chain_links;
use crate::interpreter::semantics::element;
use crate::interpreter::semantics::evals;
use crate::interpreter::semantics::host_callee;
use crate::interpreter::semantics::iterated;
use crate::interpreter::semantics::loop_body;
use crate::interpreter::semantics::scheduled;
use crate::interpreter::semantics::statement_at;
use crate::interpreter::semantics::unary;
use crate::interpreter::value::ValueView;

verus! {

/// How many values a frame takes from the stack.
pub open spec fn takes(p: Program, frame: Frame) -> int {
    match frame {
        Frame::Statement(_) => 0,
        Frame::ExitScope(_) => 0,
        Frame::Eval(_) => 0,
        Frame::Loop(_) => 0,
        Frame::CallEnd { .. } => 0,
        Frame::Binary { .. } => 2,
        Frame::IndexRead { .. } => 2,
        Frame::BuildArray { count, .. } => count as int,
        Frame::BuildObject(id) => match p.expr(id).kind {
            ExpressionKind::Object { entries, .. } => entries@.len() as int,
            _ => 0,
        },
        Frame::AssignMember(target) => match p.expr(target).kind {
            ExpressionKind::Access { links, .. } => if links@.len() > 0 && links@.last().kind is Index {
                3
            } else {
                2
            },
            _ => 2,
        },
        Frame::Invoke { arguments, .. } => arguments + 1,
        Frame::HostCall { chain, .. } => host_arguments(p, chain),
        _ => 1,
    }
}

/// How many arguments the host call of a chain passes.
pub open spec fn host_arguments(p: Program, chain: Chain) -> int {
    let links = chain_links(p, chain);
    if links.len() == 0 {
        0
    } else {
        match links[0].kind {
            AccessKind::Call { arguments, .. } => arguments@.len() as int,
            _ => 0,
        }
    }
}

/// How many values a frame, with all that it schedules, leaves on the stack.
pub open spec fn yields(frame: Frame) -> int {
    match frame {
        Frame::Eval(_) => 1,
        Frame::Unary { .. } => 1,
        Frame::BinaryRight { .. } => 1,
        Frame::Binary { .. } => 1,
        Frame::BuildArray { .. } => 1,
        Frame::BuildObject(_) => 1,
        Frame::Link { .. } => 1,
        Frame::IndexRead { .. } => 1,
        Frame::Invoke { .. } => 1,
        Frame::CallEnd { .. } => 1,
        Frame::HostCall { .. } => 1,
        _ => 0,
    }
}

/// Whether a frame belongs to a statement.
pub open spec fn plain_frame(frame: Frame) -> bool {
    yields(frame) == 0
}

/// Whether a frame of a statement can lie on a frame.
pub open spec fn seats(frame: Frame) -> bool {
    frame is Statement || frame is ExitScope || frame is Loop || frame is CallEnd
}

/// Whether a depth of the stack that a frame remembers is the one that it has.
pub open spec fn recorded(frame: Frame, height: int) -> bool {
    match frame {
        Frame::CallEnd { values, .. } => values == height,
        Frame::Loop(state) => state.values == height,
        Frame::LoopTest(state) => state.values == height - 1,
        _ => true,
    }
}

/// Whether frames with so many values on the stack leave just `goal` of them, and take none below `floor`.
pub open spec fn stacked(p: Program, frames: Seq<Frame>, height: int, floor: int, goal: int) -> bool
    decreases frames.len(),
{
    if frames.len() == 0 {
        height == goal
    } else {
        let frame = frames.last();
        let rest = frames.drop_last();
        &&& height - takes(p, frame) >= floor
        &&& recorded(frame, height)
        &&& plain_frame(frame) ==> rest.len() > 0 && seats(rest.last())
        &&& stacked(p, rest, height - takes(p, frame) + yields(frame), floor, goal)
    }
}

/// What stays below the frames of some work: the frames, and the values.
pub ghost struct Ground {
    pub frames: Seq<Frame>,
    pub values: Seq<RtView>,
    pub goal: int,
}

/// Whether the work above some ground has kept to it, with `more` values still to come.
pub open spec fn grounded_on(p: Program, g: Ground, m: MachineView, more: int) -> bool {
    &&& g.frames.len() <= m.frames.len()
    &&& m.frames.take(g.frames.len() as int) == g.frames
    &&& g.values.len() <= m.values.len()
    &&& m.values.take(g.values.len() as int) == g.values
    &&& stacked(p, m.frames.skip(g.frames.len() as int), m.values.len() + more, g.values.len() as int, g.goal)
}

/// Whether a machine has kept to the ground of some work.
pub open spec fn keeps_to(p: Program, g: Ground, m: MachineView) -> bool {
    match m.suspended {
        Some((chain, in_target)) => grounded_on(p, g, m, 1),
        None => grounded_on(p, g, m, 0),
    }
}

/// Whether a turn keeps to the ground of some work, and forgets no function.
spec fn turns(p: Program, g: Ground, list: Seq<FnAt>, turn: Turn) -> bool {
    match turn {
        Turn::Go(after) => keeps_to(p, g, after) && extends(list, after.functions),
        Turn::Halt(after, stop) => stop is Ask || stop is HostCall ==> keeps_to(p, g, after) && extends(list, after.functions),
        Turn::Fail(_) => true,
    }
}

/// Whether a machine is the same but for its heap, its scope and what it counts.
spec fn same_stacks(a: MachineView, b: MachineView) -> bool {
    a.frames == b.frames && a.values == b.values && a.suspended == b.suspended && extends(a.functions, b.functions)
}

proof fn lemma_push(p: Program, g: Ground, m: MachineView, frame: Frame, more: int)
    requires
        grounded_on(p, g, m, more - takes(p, frame) + yields(frame)),
        m.values.len() + more - takes(p, frame) >= g.values.len(),
        recorded(frame, m.values.len() + more),
        plain_frame(frame) ==> m.frames.len() > g.frames.len() && seats(m.frames.last()),
    ensures
        grounded_on(p, g, m.push(frame), more),
{
    let n = g.frames.len() as int;
    let after = m.push(frame);
    let part = after.frames.skip(n);
    assert(part.drop_last() =~= m.frames.skip(n));
    assert(part.last() == frame);
    assert(after.frames.take(n) =~= m.frames.take(n));
    if m.frames.len() > n {
        assert(m.frames.skip(n).last() == m.frames.last());
    }
}

/// What lies below the next frame.
proof fn lemma_taken(p: Program, g: Ground, m: MachineView)
    requires
        grounded_on(p, g, m, 0),
        m.frames.len() > g.frames.len(),
    ensures
        grounded_on(p, g, m.taken(), yields(m.frames.last()) - takes(p, m.frames.last())),
        m.values.len() - takes(p, m.frames.last()) >= g.values.len(),
        recorded(m.frames.last(), m.values.len() as int),
        plain_frame(m.frames.last()) ==> m.taken().frames.len() > g.frames.len() && seats(m.taken().frames.last()),
{
    let n = g.frames.len() as int;
    let part = m.frames.skip(n);
    let rest = m.taken();
    assert(part.drop_last() =~= rest.frames.skip(n));
    assert(part.last() == m.frames.last());
    assert(rest.frames.take(n) =~= m.frames.take(n));
    if rest.frames.len() > n {
        assert(rest.frames.skip(n).last() == rest.frames.last());
    }
}

/// Values that come and go above the ground.
proof fn lemma_values(p: Program, g: Ground, a: MachineView, b: MachineView, more: int, left: int)
    requires
        grounded_on(p, g, a, more),
        b.frames == a.frames,
        g.values.len() <= b.values.len(),
        forall|i: int| 0 <= i < g.values.len() ==> #[trigger] b.values[i] == a.values[i],
        b.values.len() + left == a.values.len() + more,
    ensures
        grounded_on(p, g, b, left),
{
    let n = g.values.len() as int;
    assert(b.values.take(n) =~= a.values.take(n));
}

proof fn lemma_evals(p: Program, g: Ground, m: MachineView, ids: Seq<ExprId>, k: int, more: int)
    requires
        grounded_on(p, g, m, more + k),
        0 <= k <= ids.len(),
        m.values.len() + more >= g.values.len(),
    ensures
        grounded_on(p, g, m.push_all(evals(ids).take(k)), more),
    decreases k,
{
    if k > 0 {
        lemma_evals(p, g, m, ids, k - 1, more + 1);
        let earlier = m.push_all(evals(ids).take(k - 1));
        lemma_push(p, g, earlier, evals(ids)[k - 1], more);
        assert(earlier.push(evals(ids)[k - 1]).frames =~= m.push_all(evals(ids).take(k)).frames);
    } else {
        assert(m.push_all(evals(ids).take(0)).frames =~= m.frames);
    }
}

proof fn lemma_all_evals(p: Program, g: Ground, m: MachineView, ids: Seq<ExprId>, more: int)
    requires
        grounded_on(p, g, m, more + ids.len()),
        m.values.len() + more >= g.values.len(),
    ensures
        grounded_on(p, g, m.push_all(evals(ids)), more),
{
    lemma_evals(p, g, m, ids, ids.len() as int, more);
    assert(evals(ids).take(ids.len() as int) =~= evals(ids));
}

proof fn lemma_scheduled(p: Program, g: Ground, m: MachineView, block: Option<BlockId>, count: nat, k: int)
    requires
        grounded_on(p, g, m, 0),
        m.frames.len() > g.frames.len(),
        seats(m.frames.last()),
        0 <= k <= count,
    ensures
        grounded_on(p, g, m.push_all(scheduled(block, count).take(k)), 0),
        m.push_all(scheduled(block, count).take(k)).frames.len() > g.frames.len(),
        seats(m.push_all(scheduled(block, count).take(k)).frames.last()),
    decreases k,
{
    if k > 0 {
        lemma_scheduled(p, g, m, block, count, k - 1);
        let earlier = m.push_all(scheduled(block, count).take(k - 1));
        let frame = scheduled(block, count)[k - 1];
        lemma_push(p, g, earlier, frame, 0);
        assert(earlier.push(frame).frames =~= m.push_all(scheduled(block, count).take(k)).frames);
    } else {
        assert(m.push_all(scheduled(block, count).take(0)).frames =~= m.frames);
    }
}

proof fn lemma_hoisted(p: Program, m: MachineView, block: Option<BlockId>, k: int)
    ensures
        same_stacks(m, m.hoisted(p, block, k)),
    decreases p.statements_of(block).len() - k,
{
    if 0 <= k < p.statements_of(block).len() {
        match p.statements_of(block)[k].kind {
            StatementKind::Function { name, .. } => {
                let made = m.function_made(FnAt::Declared(StmtAt { block, index: k as usize }));
                let next = MachineView { heap: made.heap.declared(m.scope, name.name@, m.function_value()), ..made };
                lemma_hoisted(p, next, block, k + 1);
            },
            _ => {
                lemma_hoisted(p, m, block, k + 1);
            },
        }
    }
}

proof fn lemma_opened(p: Program, g: Ground, m: MachineView, block: Option<BlockId>)
    requires
        grounded_on(p, g, m, 0),
        m.frames.len() > g.frames.len(),
        seats(m.frames.last()),
    ensures
        grounded_on(p, g, m.opened(p, block), 0),
        m.opened(p, block).suspended == m.suspended,
        extends(m.functions, m.opened(p, block).functions),
{
    let count = p.statements_of(block).len();
    lemma_hoisted(p, m, block, 0);
    let ready = m.hoisted(p, block, 0);
    lemma_scheduled(p, g, ready, block, count, count as int);
    assert(scheduled(block, count).take(count as int) =~= scheduled(block, count));
}

proof fn lemma_entered(p: Program, g: Ground, m: MachineView, block: BlockId)
    requires
        grounded_on(p, g, m, 0),
        m.frames.len() > g.frames.len(),
        seats(m.frames.last()),
    ensures
        grounded_on(p, g, m.entered(p, block), 0),
        m.entered(p, block).suspended == m.suspended,
        extends(m.functions, m.entered(p, block).functions),
{
    let inner = m.scoped(m.scope);
    assert(grounded_on(p, g, inner, 0));
    lemma_push(p, g, inner, Frame::ExitScope(m.scope), 0);
    lemma_opened(p, g, inner.push(Frame::ExitScope(m.scope)), Some(block));
}

proof fn lemma_branched(p: Program, g: Ground, m: MachineView, at: StmtAt, index: int)
    requires
        grounded_on(p, g, m, 0),
        m.frames.len() > g.frames.len(),
        seats(m.frames.last()),
    ensures
        grounded_on(p, g, m.branched(p, at, index), 0),
        m.branched(p, at, index).suspended == m.suspended,
        extends(m.functions, m.branched(p, at, index).functions),
{
    if let StatementKind::If { branches, else_branch } = statement_at(p, at).kind {
        if index < branches@.len() {
            let frame = Frame::Branch { at, index: index as usize };
            lemma_push(p, g, m, frame, 1);
            lemma_push(p, g, m.push(frame), Frame::Eval(branches@[index].condition.expression), 0);
        } else if let Some(otherwise) = else_branch {
            lemma_entered(p, g, m, otherwise.body);
        }
    }
}

/// A frame that frames of statements can lie on leaves them in place down to a call or a loop.
proof fn lemma_dropped(p: Program, g: Ground, m: MachineView)
    requires
        grounded_on(p, g, m, 0),
        m.frames.len() > g.frames.len(),
        seats(m.frames.last()),
        !(m.frames.last() is CallEnd),
    ensures
        grounded_on(p, g, MachineView { frames: m.frames.drop_last(), ..m }, 0),
        m.frames.drop_last().len() > g.frames.len(),
        seats(m.frames.drop_last().last()),
{
    lemma_taken(p, g, m);
    let rest = MachineView { frames: m.frames.drop_last(), ..m };
    assert(grounded_on(p, g, rest, 0));
}

proof fn lemma_unwound(p: Program, g: Ground, m: MachineView, consume: bool)
    requires
        grounded_on(p, g, m, 0),
        m.frames.len() > g.frames.len(),
        seats(m.frames.last()),
    ensures
        grounded_on(p, g, m.unwound(consume), 0),
        m.unwound(consume).suspended == m.suspended,
        m.unwound(consume).functions == m.functions,
    decreases m.frames.len(),
{
    let frame = m.frames.last();
    let rest = MachineView { frames: m.frames.drop_last(), ..m };
    lemma_taken(p, g, m);
    match frame {
        Frame::ExitScope(outer) => {
            lemma_dropped(p, g, m);
            assert(grounded_on(p, g, rest.exited(outer), 0));
            lemma_unwound(p, g, rest.exited(outer), consume);
        },
        Frame::Loop(state) => {
            lemma_dropped(p, g, m);
            let cut = MachineView { scope: state.outer_scope, ..rest.cut(state.values as int) };
            assert(cut.values =~= m.values);
            assert(grounded_on(p, g, cut, 0));
            lemma_push(p, g, cut, frame, 0);
        },
        Frame::CallEnd { .. } => {},
        _ => {
            lemma_dropped(p, g, m);
            lemma_unwound(p, g, rest, consume);
        },
    }
}

proof fn lemma_call_ended(p: Program, g: Ground, m: MachineView, value: RtView)
    requires
        grounded_on(p, g, m, 0),
        m.frames.len() > g.frames.len(),
        m.frames.last() is CallEnd,
    ensures
        m.frames.last() matches Frame::CallEnd { outer_scope, values, chain, index, in_target } && grounded_on(
            p,
            g,
            (MachineView { frames: m.frames.drop_last(), ..m }).call_ended(outer_scope, values, chain, index, in_target, value),
            0,
        ),
{
    if let Frame::CallEnd { outer_scope, values, chain, index, in_target } = m.frames.last() {
        lemma_taken(p, g, m);
        let rest = MachineView { frames: m.frames.drop_last(), ..m };
        assert(grounded_on(p, g, rest, 1));
        let cut = rest.cut(values as int);
        assert(cut.values =~= m.values);
        let out = cut.exited(outer_scope);
        let given = MachineView { depth: out.depth - 1, ..out }.give(value);
        lemma_values(p, g, rest, given, 1, 0);
        lemma_push(p, g, given, Frame::Link { chain, index: (index + 1) as usize, in_target }, 0);
    }
}

proof fn lemma_returned(p: Program, g: Ground, m: MachineView, value: RtView)
    requires
        grounded_on(p, g, m, 0),
        m.frames.len() > g.frames.len(),
        seats(m.frames.last()),
    ensures
        grounded_on(p, g, m.returned(value), 0),
        m.returned(value).suspended == m.suspended,
        m.returned(value).functions == m.functions,
    decreases m.frames.len(),
{
    let rest = MachineView { frames: m.frames.drop_last(), ..m };
    match m.frames.last() {
        Frame::ExitScope(outer) => {
            lemma_dropped(p, g, m);
            assert(grounded_on(p, g, rest.exited(outer), 0));
            lemma_returned(p, g, rest.exited(outer), value);
        },
        Frame::CallEnd { .. } => {
            lemma_call_ended(p, g, m, value);
        },
        _ => {
            lemma_dropped(p, g, m);
            lemma_returned(p, g, rest, value);
        },
    }
}

proof fn lemma_chain_opened(p: Program, g: Ground, m: MachineView, access: ExprId, end: int, in_target: bool, list: Seq<FnAt>)
    requires
        grounded_on(p, g, m, 1),
        m.suspended is None,
        0 <= end <= usize::MAX,
        extends(list, m.functions),
    ensures
        turns(p, g, list, m.chain_opened(p, access, end, in_target)),
{
    if let ExpressionKind::Access { base, links } = p.expr(access).kind {
        let chain = Chain { access, end: end as usize };
        let link = Frame::Link { chain, index: 0, in_target };
        lemma_push(p, g, m, link, 1);
        lemma_push(p, g, m.push(link), Frame::Eval(base), 0);
        if host_callee(p, base, links@, end) is Some {
            let frame = Frame::HostCall { chain, in_target };
            assert(chain_links(p, chain)[0] == links@[0]);
            let ids = links@[0].kind->Call_arguments@;
            lemma_push(p, g, m, frame, ids.len() as int);
            lemma_all_evals(p, g, m.push(frame), ids, 0);
        }
    }
}

#[verifier::spinoff_prover]
proof fn lemma_statement(p: Program, g: Ground, m: MachineView, at: StmtAt)
    requires
        grounded_on(p, g, m, 0),
        m.frames.len() > g.frames.len(),
        seats(m.frames.last()),
        m.suspended is None,
        m.values.len() <= usize::MAX,
    ensures
        turns(p, g, m.functions, m.statement(p, at)),
{
    match statement_at(p, at).kind {
        StatementKind::Let { initializer, .. } => {
            lemma_push(p, g, m, Frame::Declare(at), 1);
            lemma_push(p, g, m.push(Frame::Declare(at)), Frame::Eval(initializer), 0);
        },
        StatementKind::Expression(id) => {
            lemma_push(p, g, m, Frame::Discard, 1);
            lemma_push(p, g, m.push(Frame::Discard), Frame::Eval(id), 0);
        },
        StatementKind::Return { value, .. } => {
            if let Some(id) = value {
                lemma_push(p, g, m, Frame::Return(id), 1);
                lemma_push(p, g, m.push(Frame::Return(id)), Frame::Eval(id), 0);
            } else {
                lemma_returned(p, g, m, RtView::Null);
            }
        },
        StatementKind::Block(id) => {
            lemma_entered(p, g, m, id);
        },
        StatementKind::Assignment { target, value, .. } => {
            lemma_assignment(p, g, m, target, value);
        },
        StatementKind::If { .. } => {
            lemma_branched(p, g, m, at, 0);
        },
        StatementKind::While { keyword, condition, body } => {
            let after = m.statement(p, at)->Go_0;
            lemma_push(p, g, m, after.frames.last(), 0);
        },
        StatementKind::For { iterable, .. } => {
            lemma_push(p, g, m, Frame::ForStart(at), 1);
            lemma_push(p, g, m.push(Frame::ForStart(at)), Frame::Eval(iterable), 0);
        },
        StatementKind::Break { .. } => {
            lemma_unwound(p, g, m, true);
        },
        StatementKind::Continue { .. } => {
            lemma_unwound(p, g, m, false);
        },
        StatementKind::Function { .. } => {},
    }
}

proof fn lemma_assignment(p: Program, g: Ground, m: MachineView, target: ExprId, value: ExprId)
    requires
        grounded_on(p, g, m, 0),
        m.frames.len() > g.frames.len(),
        seats(m.frames.last()),
        m.suspended is None,
    ensures
        turns(p, g, m.functions, m.assignment(p, target, value)),
{
    match p.expr(target).kind {
        ExpressionKind::Identifier(_) => {
            lemma_push(p, g, m, Frame::AssignName(target), 1);
            lemma_push(p, g, m.push(Frame::AssignName(target)), Frame::Eval(value), 0);
        },
        ExpressionKind::Access { links, .. } => {
            if links@.len() > 0 {
                let frame = Frame::AssignMember(target);
                let count = links.len();
                match links@.last().kind {
                    AccessKind::Property(_) => {
                        lemma_push(p, g, m, frame, 2);
                        lemma_push(p, g, m.push(frame), Frame::Eval(value), 1);
                        lemma_chain_opened(p, g, m.push(frame).push(Frame::Eval(value)), target, links@.len() - 1, true, m.functions);
                    },
                    AccessKind::Index { expression, .. } => {
                        lemma_push(p, g, m, frame, 3);
                        lemma_push(p, g, m.push(frame), Frame::Eval(value), 2);
                        let two = m.push(frame).push(Frame::Eval(value));
                        lemma_push(p, g, two, Frame::Eval(expression), 1);
                        lemma_chain_opened(p, g, two.push(Frame::Eval(expression)), target, links@.len() - 1, true, m.functions);
                    },
                    AccessKind::Call { .. } => {},
                }
            }
        },
        _ => {},
    }
}

#[verifier::spinoff_prover]
proof fn lemma_expression(p: Program, g: Ground, m: MachineView, id: ExprId)
    requires
        grounded_on(p, g, m, 1),
        m.suspended is None,
    ensures
        turns(p, g, m.functions, m.expression(p, id)),
{
    match p.expr(id).kind {
        ExpressionKind::Group { expression, .. } => {
            lemma_push(p, g, m, Frame::Eval(expression), 0);
        },
        ExpressionKind::Unary { operator, operand } => {
            let frame = Frame::Unary { operator, operand };
            lemma_push(p, g, m, frame, 1);
            lemma_push(p, g, m.push(frame), Frame::Eval(operand), 0);
        },
        ExpressionKind::Binary { left, operator, right } => {
            let frame = Frame::BinaryRight { left, operator, right };
            lemma_push(p, g, m, frame, 1);
            lemma_push(p, g, m.push(frame), Frame::Eval(left), 0);
        },
        ExpressionKind::Array { elements, .. } => {
            let count = elements.len();
            let frame = Frame::BuildArray { array: id, count: elements@.len() as usize };
            lemma_push(p, g, m, frame, count as int);
            lemma_all_evals(p, g, m.push(frame), elements@, 0);
        },
        ExpressionKind::Object { entries, .. } => {
            let ids = Seq::new(entries@.len(), |i: int| entries@[i].value);
            lemma_push(p, g, m, Frame::BuildObject(id), entries@.len() as int);
            lemma_all_evals(p, g, m.push(Frame::BuildObject(id)), ids, 0);
        },
        ExpressionKind::Access { links, .. } => {
            let count = links.len();
            lemma_chain_opened(p, g, m, id, links@.len() as int, false, m.functions);
        },
        _ => {
            if let Turn::Go(after) = m.expression(p, id) {
                lemma_values(p, g, m, after, 1, 0);
            }
        },
    }
}

#[verifier::spinoff_prover]
proof fn lemma_linked(p: Program, g: Ground, m: MachineView, frame: Frame)
    requires
        grounded_on(p, g, m, yields(frame) - takes(p, frame)),
        m.values.len() - takes(p, frame) >= g.values.len(),
        m.suspended is None,
        frame is Link || frame is IndexRead,
    ensures
        turns(p, g, m.functions, m.step(p, frame)),
{
    match frame {
        Frame::Link { chain, index, in_target } => {
            let links = chain_links(p, chain);
            if index < links.len() {
                let next = Frame::Link { chain, index: (index + 1) as usize, in_target };
                match links[index as int].kind {
                    AccessKind::Call { arguments, .. } => {
                        let count = arguments.len();
                        let invoke = Frame::Invoke { chain, index, in_target, arguments: arguments@.len() as usize };
                        lemma_push(p, g, m, invoke, count as int);
                        lemma_all_evals(p, g, m.push(invoke), arguments@, 0);
                    },
                    AccessKind::Property(name) => {
                        if let RtView::Object(object) = m.top() {
                            let value = match m.heap.object_get(object, name.name@) {
                                Some(value) => value,
                                None => RtView::Null,
                            };
                            lemma_values(p, g, m, m.pop().give(value), 0, 0);
                            lemma_push(p, g, m.pop().give(value), next, 0);
                        }
                    },
                    AccessKind::Index { expression, .. } => {
                        let read = Frame::IndexRead { chain, index, in_target };
                        lemma_push(p, g, m, read, 1);
                        lemma_push(p, g, m.push(read), Frame::Eval(expression), 0);
                    },
                }
            }
            assert(turns(p, g, m.functions, m.link(p, chain, index, in_target)));
        },
        Frame::IndexRead { chain, index, in_target } => {
            let links = chain_links(p, chain);
            let key = m.top();
            let rest = m.pop().pop().read_text(key);
            let next = Frame::Link { chain, index: (index + 1) as usize, in_target };
            if index < links.len() {
                if let AccessKind::Index { expression, .. } = links[index as int].kind {
                    if let Ok(value) = element(m.heap, p, m.pop().top(), key, links[index as int], expression) {
                        lemma_values(p, g, m, rest.give(value), -1, 0);
                        lemma_push(p, g, rest.give(value), next, 0);
                    }
                }
            }
            assert(turns(p, g, m.functions, m.index_read(p, chain, index, in_target)));
        },
        _ => {},
    }
}

#[verifier::spinoff_prover]
proof fn lemma_invoked(p: Program, g: Ground, m: MachineView, frame: Frame)
    requires
        grounded_on(p, g, m, yields(frame) - takes(p, frame)),
        m.values.len() - takes(p, frame) >= g.values.len(),
        m.suspended is None,
        m.values.len() <= usize::MAX,
        frame is Invoke,
    ensures
        turns(p, g, m.functions, m.step(p, frame)),
{
    if let Frame::Invoke { chain, index, in_target, arguments } = frame {
        let count = arguments as int;
        let rest = m.pops(count).pop();
        let values = m.tops(count);
        if index < chain_links(p, chain).len() {
            if let RtView::Function(slot) = m.pops(count).top() {
                if let SlotView::Function { definition, scope } = m.heap.slot(slot) {
                    if let Some(function) = m.defined(p, definition) {
                        if values.len() == function.parameters@.len() {
                            let inner = MachineView { depth: m.depth + 1, ..rest.scoped(scope) };
                            lemma_values(p, g, m, inner, -count, 1);
                            let end = Frame::CallEnd {
                                outer_scope: m.scope,
                                values: rest.values.len() as usize,
                                chain,
                                index,
                                in_target,
                            };
                            lemma_push(p, g, inner, end, 0);
                            let framed = inner.push(end);
                            let named = MachineView {
                                heap: bound(framed.heap, framed.scope, function, values, function.parameters@.len() as int),
                                ..framed
                            };
                            assert(grounded_on(p, g, named, 0));
                            lemma_opened(p, g, named, Some(function.body));
                        }
                    }
                }
            }
        }
        assert(turns(p, g, m.functions, m.invoked(p, chain, index, in_target, arguments)));
    }
}

#[verifier::spinoff_prover]
proof fn lemma_advanced(p: Program, g: Ground, m: MachineView, state: LoopFrame)
    requires
        grounded_on(p, g, m, 0),
        recorded(Frame::Loop(state), m.values.len() as int),
        m.frames.len() > g.frames.len(),
        seats(m.frames.last()),
        m.suspended is None,
    ensures
        turns(p, g, m.functions, m.advanced(p, state)),
{
    match state.kind {
        LoopKind::While { condition, .. } => {
            lemma_push(p, g, m, Frame::LoopTest(state), 1);
            lemma_push(p, g, m.push(Frame::LoopTest(state)), Frame::Eval(condition), 0);
        },
        LoopKind::For { keyword, at, body, collection, version, index, over_keys } => {
            if let Some(item) = iterated(m.heap, collection, index, over_keys) {
                let next = LoopFrame {
                    kind: LoopKind::For {
                        keyword,
                        at,
                        body,
                        collection,
                        version,
                        index: (index + 1) as usize,
                        over_keys,
                    },
                    ..state
                };
                let made = if over_keys { m.text_made() } else { m };
                let inner = made.scoped(state.outer_scope);
                let named = match statement_at(p, at).kind {
                    StatementKind::For { binding, .. } => MachineView {
                        heap: inner.heap.declared(inner.scope, binding.name@, item),
                        ..inner
                    },
                    _ => inner,
                };
                assert(grounded_on(p, g, named, 0));
                lemma_push(p, g, named, Frame::Loop(next), 0);
                lemma_push(p, g, named.push(Frame::Loop(next)), Frame::ExitScope(m.scope), 0);
                lemma_opened(p, g, named.push(Frame::Loop(next)).push(Frame::ExitScope(m.scope)), Some(body));
            }
        },
    }
}

#[verifier::spinoff_prover]
proof fn lemma_for_started(p: Program, g: Ground, m: MachineView, at: StmtAt)
    requires
        grounded_on(p, g, m.pop(), 0),
        m.frames.len() > g.frames.len(),
        seats(m.frames.last()),
        m.suspended is None,
        m.values.len() <= usize::MAX,
    ensures
        turns(p, g, m.functions, m.for_started(p, at)),
{
    if let Turn::Go(after) = m.for_started(p, at) {
        let rest = MachineView { frames: m.frames, ..after };
        assert(after.frames.last() is Loop);
        assert(rest.frames == m.pop().frames && rest.values == m.pop().values);
        assert(grounded_on(p, g, rest, 0));
        lemma_push(p, g, rest, after.frames.last(), 0);
        assert(after.frames =~= rest.push(after.frames.last()).frames);
    }
}

#[verifier::spinoff_prover]
proof fn lemma_looped(p: Program, g: Ground, m: MachineView, frame: Frame)
    requires
        grounded_on(p, g, m, yields(frame) - takes(p, frame)),
        m.values.len() - takes(p, frame) >= g.values.len(),
        recorded(frame, m.values.len() as int),
        m.frames.len() > g.frames.len(),
        seats(m.frames.last()),
        m.suspended is None,
        m.values.len() <= usize::MAX,
        frame is Loop || frame is LoopTest || frame is ForStart || frame is Branch,
    ensures
        turns(p, g, m.functions, m.step(p, frame)),
{
    if !(frame is Loop) {
        lemma_values(p, g, m, m.pop(), -1, 0);
    }
    match frame {
        Frame::Loop(state) => {
            lemma_advanced(p, g, m, state);
        },
        Frame::LoopTest(state) => {
            lemma_push(p, g, m.pop(), Frame::Loop(state), 0);
            lemma_entered(p, g, m.pop().push(Frame::Loop(state)), loop_body(state.kind));
        },
        Frame::ForStart(at) => {
            lemma_for_started(p, g, m, at);
        },
        Frame::Branch { at, index } => {
            lemma_branched(p, g, m.pop(), at, index + 1);
            if let StatementKind::If { branches, .. } = statement_at(p, at).kind {
                if index < branches@.len() {
                    lemma_entered(p, g, m.pop(), branches@[index as int].body);
                }
            }
        },
        _ => {},
    }
}

/// The operators and what builds a collection.
#[verifier::spinoff_prover]
proof fn lemma_made(p: Program, g: Ground, m: MachineView, frame: Frame)
    requires
        grounded_on(p, g, m, yields(frame) - takes(p, frame)),
        m.values.len() - takes(p, frame) >= g.values.len(),
        m.suspended is None,
        frame is Unary || frame is Binary || frame is BinaryRight || frame is BuildArray || frame is BuildObject,
    ensures
        turns(p, g, m.functions, m.step(p, frame)),
{
    match frame {
        Frame::BinaryRight { left, operator, right } => {
            let next = Frame::Binary { left, operator, right };
            lemma_values(p, g, m, m.pop(), 0, 1);
            lemma_push(p, g, m.pop(), Frame::Eval(right), 0);
            lemma_push(p, g, m, next, 1);
            lemma_push(p, g, m.push(next), Frame::Eval(right), 0);
        },
        Frame::Unary { operator, operand } => {
            let value = m.top();
            let rest = if m.answered is None { m.pop().read_text(value) } else { m.pop() };
            lemma_values(p, g, m, rest.give(value), 0, 0);
            lemma_push(p, g, rest.give(value), frame, 0);
            let made = unary(p, m.heap, operator, operand, value, m.answered);
            lemma_concluded(p, g, m, rest, made, rest.give(value).push(frame), 0);
        },
        Frame::Binary { left, operator, right } => {
            let r = m.top();
            let l = m.pop().top();
            let popped = m.pop().pop();
            let rest = if m.answered is None { popped.read_text(l).read_text(r) } else { popped };
            let back = rest.give(l).give(r);
            lemma_values(p, g, m, back, -1, -1);
            lemma_push(p, g, back, frame, 0);
            let made = binary(p, left, operator, right, l, r, m.answered);
            lemma_concluded(p, g, m, rest, made, back.push(frame), -1);
        },
        _ => {
            if let Turn::Go(after) = m.step(p, frame) {
                lemma_values(p, g, m, after, yields(frame) - takes(p, frame), 0);
            }
        },
    }
}

proof fn lemma_concluded(p: Program, g: Ground, m: MachineView, rest: MachineView, made: Made, asking: MachineView, more: int)
    requires
        grounded_on(p, g, m, more),
        grounded_on(p, g, asking, 0),
        asking.suspended is None,
        rest.suspended is None,
        asking.functions == m.functions,
        rest.functions == m.functions,
        rest.frames == m.frames,
        g.values.len() <= rest.values.len(),
        rest.values.len() + 1 == m.values.len() + more,
        forall|i: int| 0 <= i < g.values.len() ==> #[trigger] rest.values[i] == m.values[i],
    ensures
        turns(p, g, m.functions, rest.concluded(made, asking)),
{
    match made {
        Made::Value(value) => {
            lemma_values(p, g, m, MachineView { answered: None, ..rest.give(value) }, more, 0);
        },
        Made::Text(text) => {
            lemma_values(p, g, m, MachineView { answered: None, ..rest.give_text(text) }, more, 0);
        },
        _ => {},
    }
}

#[verifier::spinoff_prover]
proof fn lemma_stored(p: Program, g: Ground, m: MachineView, frame: Frame)
    requires
        grounded_on(p, g, m, yields(frame) - takes(p, frame)),
        m.values.len() - takes(p, frame) >= g.values.len(),
        m.frames.len() > g.frames.len(),
        seats(m.frames.last()),
        m.suspended is None,
        frame is Discard || frame is Declare || frame is AssignName || frame is AssignMember || frame is Return,
    ensures
        turns(p, g, m.functions, m.step(p, frame)),
{
    match frame {
        Frame::Return(_) => {
            lemma_values(p, g, m, m.pop(), -1, 0);
            lemma_returned(p, g, m.pop(), m.top());
        },
        Frame::AssignMember(target) => {
            match m.member_assigned(p, target) {
                Turn::Go(after) => {
                    lemma_values(p, g, m, after, -takes(p, frame), 0);
                },
                Turn::Halt(after, _) => {
                    let bare = MachineView { answered: None, ..m };
                    assert(grounded_on(p, g, bare, -takes(p, frame)));
                    lemma_push(p, g, bare, frame, 0);
                },
                Turn::Fail(_) => {},
            }
            assert(turns(p, g, m.functions, m.member_assigned(p, target)));
        },
        _ => {
            if let Turn::Go(after) = m.step(p, frame) {
                lemma_values(p, g, m, after, -1, 0);
            }
        },
    }
}

/// A step above some ground keeps to it, and forgets no function.
#[verifier::spinoff_prover]
proof fn lemma_step_keeps_to(p: Program, g: Ground, m: MachineView)
    requires
        keeps_to(p, g, m),
        m.suspended is None,
        m.frames.len() > g.frames.len(),
        m.values.len() <= usize::MAX,
    ensures
        turns(p, g, m.functions, m.taken().step(p, m.frames.last())),
{
    let frame = m.frames.last();
    let rest = m.taken();
    lemma_taken(p, g, m);
    match frame {
        Frame::Statement(at) => {
            lemma_statement(p, g, rest, at);
        },
        Frame::ExitScope(outer) => {
            assert(grounded_on(p, g, rest.exited(outer), 0));
        },
        Frame::Eval(id) => {
            lemma_expression(p, g, rest, id);
        },
        Frame::Link { .. } => {
            lemma_linked(p, g, rest, frame);
        },
        Frame::IndexRead { .. } => {
            lemma_linked(p, g, rest, frame);
        },
        Frame::Invoke { .. } => {
            lemma_invoked(p, g, rest, frame);
        },
        Frame::CallEnd { .. } => {
            let whole = MachineView { site: rest.site, ..m };
            assert(grounded_on(p, g, whole, 0));
            lemma_call_ended(p, g, whole, RtView::Null);
            assert(MachineView { frames: whole.frames.drop_last(), ..whole } == rest);
        },
        Frame::HostCall { chain, in_target } => {
            if let Turn::Halt(after, _) = rest.host_called(p, chain, in_target) {
                lemma_values(p, g, rest, after, 1 - takes(p, frame), 1);
            }
            assert(turns(p, g, rest.functions, rest.host_called(p, chain, in_target)));
        },
        Frame::Loop(_) => {
            lemma_looped(p, g, rest, frame);
        },
        Frame::LoopTest(_) => {
            lemma_looped(p, g, rest, frame);
        },
        Frame::ForStart(_) => {
            lemma_looped(p, g, rest, frame);
        },
        Frame::Branch { .. } => {
            lemma_looped(p, g, rest, frame);
        },
        Frame::Discard => {
            lemma_stored(p, g, rest, frame);
        },
        Frame::Declare(_) => {
            lemma_stored(p, g, rest, frame);
        },
        Frame::AssignName(_) => {
            lemma_stored(p, g, rest, frame);
        },
        Frame::AssignMember(_) => {
            lemma_stored(p, g, rest, frame);
        },
        Frame::Return(_) => {
            lemma_stored(p, g, rest, frame);
        },
        _ => {
            lemma_made(p, g, rest, frame);
        },
    }
}

/// Whether a run goes through machines above some frames, or waiting for the host, until the last.
pub open spec fn works_above(trace: Seq<MachineView>, frames: nat) -> bool {
    &&& forall|i: int| 0 <= i < trace.len() ==> (#[trigger] trace[i]).values.len() <= usize::MAX
    &&& forall|i: int|
        0 <= i < trace.len() - 1 ==> (#[trigger] trace[i]).frames.len() > frames || trace[i].suspended is Some
}

proof fn lemma_follows_above(p: Program, g: Ground, a: MachineView, b: MachineView)
    requires
        keeps_to(p, g, a),
        follows(p, a, b),
        a.frames.len() > g.frames.len() || a.suspended is Some,
        a.values.len() <= usize::MAX,
    ensures
        keeps_to(p, g, b),
        extends(a.functions, b.functions),
{
    if b == (MachineView { answered: b.answered, work: b.work, meter: b.meter, ..a }) {
    } else if a.suspended is Some {
        let value = choose|value: ValueView| b == #[trigger] resumed(a, value);
        if let Some((chain, in_target)) = a.suspended {
            let (heap, handle) = attach_value(a.heap, value);
            let given = MachineView { suspended: None, heap, ..a }.give(handle);
            lemma_values(p, g, a, given, 1, 0);
            lemma_push(p, g, given, Frame::Link { chain, index: 1, in_target }, 0);
        }
    } else {
        lemma_step_keeps_to(p, g, a);
    }
}

proof fn lemma_trace_above(p: Program, g: Ground, first: MachineView, trace: Seq<MachineView>, last: MachineView, i: int)
    requires
        walks(p, first, trace, last),
        works_above(trace, g.frames.len()),
        keeps_to(p, g, first),
        0 <= i < trace.len(),
    ensures
        keeps_to(p, g, trace[i]),
        extends(first.functions, trace[i].functions),
    decreases i,
{
    if i > 0 {
        lemma_trace_above(p, g, first, trace, last, i - 1);
        assert(follows(p, trace[i - 1], trace[i]));
        lemma_follows_above(p, g, trace[i - 1], trace[i]);
    }
}

/// When the arguments of a call have been evaluated, their values lie on the stack as it was before, and no
/// function has been forgotten.
pub proof fn law_arguments_leave_the_callee(
    p: Program,
    before: MachineView,
    ids: Seq<ExprId>,
    trace: Seq<MachineView>,
    last: MachineView,
)
    requires
        walks(p, before.push_all(evals(ids)), trace, last),
        works_above(trace, before.frames.len()),
        before.suspended is None,
        last.suspended is None,
        last.frames.len() == before.frames.len(),
    ensures
        last.frames == before.frames,
        last.values.len() == before.values.len() + ids.len(),
        last.values.take(before.values.len() as int) == before.values,
        extends(before.functions, last.functions),
{
    let g = Ground { frames: before.frames, values: before.values, goal: before.values.len() as int + ids.len() };
    let n = before.frames.len() as int;
    assert(before.frames.take(n) =~= before.frames);
    assert(before.values.take(before.values.len() as int) =~= before.values);
    assert(grounded_on(p, g, before, ids.len() as int));
    lemma_all_evals(p, g, before, ids, 0);
    lemma_trace_above(p, g, before.push_all(evals(ids)), trace, last, trace.len() - 1);
    assert(last.frames.take(n) =~= last.frames);
}

pub proof fn lemma_trace_lasts(p: Program, before: HeapView, first: MachineView, trace: Seq<MachineView>, last: MachineView, i: int)
    requires
        walks(p, first, trace, last),
        good(before, first),
        0 <= i < trace.len(),
    ensures
        good(before, trace[i]),
    decreases i,
{
    if i > 0 {
        lemma_trace_lasts(p, before, first, trace, last, i - 1);
        let a = trace[i - 1];
        let b = trace[i];
        assert(follows(p, a, b));
        if b == (MachineView { answered: b.answered, work: b.work, meter: b.meter, ..a }) {
        } else if a.suspended is Some {
            let value = choose|value: ValueView| b == #[trigger] resumed(a, value);
            law_resume_lasts(before, a, value);
        } else {
            let taken = a.taken();
            let frame = a.frames.last();
            assert(taken.push(frame).frames =~= a.frames);
            assert(good(before, taken.push(frame)));
            law_step_lasts(before, p, taken, frame);
        }
    }
}

/// A function that is in the heap stays there as long as a run goes on.
pub proof fn law_functions_last(p: Program, first: MachineView, trace: Seq<MachineView>, last: MachineView)
    requires
        walks(p, first, trace, last),
        good(nothing(), first),
    ensures
        lasting(first.heap, last.heap),
{
    assert(sized(trace[0]));
    assert(sized(trace[trace.len() - 1]));
    assert(good(first.heap, first));
    lemma_trace_lasts(p, first.heap, first, trace, last, trace.len() - 1);
    assert forall|id: SlotId| (#[trigger] first.heap.slot(id)) is Function implies last.heap.slot(id) == first.heap.slot(id) by {
        assert(slot_lasts(first.heap.slot(id), last.heap.slot(id)));
    }
}

} // verus!

//! Pausing changes nothing: however an execution is cut into slices, it does what it does in one
//! piece.

use vstd::prelude::*;
use crate::ast::BlockId;
use crate::ast::ExprId;
use crate::ast::Program;
use crate::ast::StatementKind;
use crate::interpreter::heap::RtView;
use crate::interpreter::heap::SlotView;
use crate::interpreter::semantics::Chain;
use crate::interpreter::semantics::FnAt;
use crate::interpreter::semantics::Frame;
use crate::interpreter::semantics::LoopFrame;
use crate::interpreter::semantics::LoopKind;
use crate::interpreter::semantics::Made;
use crate::interpreter::semantics::MachineView;
use crate::interpreter::semantics::Meter;
use crate::interpreter::semantics::StmtAt;
use crate::interpreter::semantics::StopView;
use crate::interpreter::semantics::Turn;
use crate::interpreter::semantics::added;
use crate::interpreter::semantics::site_span;
use crate::interpreter::value::ValueView;

verus! {

impl MachineView {
    /// The machine without slices.
    pub open spec fn unsliced(self) -> MachineView {
        MachineView { work: 0, meter: Meter { slice: None, ..self.meter }, ..self }
    }

    /// Whether two machines differ in nothing but how they are cut into slices.
    pub open spec fn like(self, other: MachineView) -> bool {
        self.unsliced() == other.unsliced()
    }
}

impl Turn {
    /// Whether two turns differ in nothing but how their machines are cut into slices.
    pub open spec fn alike(self, other: Turn) -> bool {
        match (self, other) {
            (Turn::Go(a), Turn::Go(b)) => a.like(b),
            (Turn::Halt(a, s), Turn::Halt(b, t)) => a.like(b) && s == t,
            (Turn::Fail(a), Turn::Fail(b)) => a == b,
            _ => false,
        }
    }
}

/// The slices of two machines.
ghost struct Cut {
    first: Option<u64>,
    second: Option<u64>,
}

impl MachineView {
    /// Whether two machines with these slices differ in nothing else.
    spec fn twin(self, cut: Cut, other: MachineView) -> bool {
        self.like(other) && self.meter.slice == cut.first && other.meter.slice == cut.second
    }
}

impl Turn {
    spec fn twins(self, cut: Cut, other: Turn) -> bool {
        match (self, other) {
            (Turn::Go(a), Turn::Go(b)) => a.twin(cut, b),
            (Turn::Halt(a, s), Turn::Halt(b, t)) => a.twin(cut, b) && s == t,
            (Turn::Fail(a), Turn::Fail(b)) => a == b,
            _ => false,
        }
    }
}

proof fn lemma_fields(cut: Cut, a: MachineView, b: MachineView)
    requires
        a.twin(cut, b),
    ensures
        a.frames == b.frames,
        a.values == b.values,
        a.heap == b.heap,
        a.scope == b.scope,
        a.root == b.root,
        a.functions == b.functions,
        a.depth == b.depth,
        a.suspended == b.suspended,
        a.meter.memory_ceiling == b.meter.memory_ceiling,
        a.meter.allocation_ceiling == b.meter.allocation_ceiling,
        a.allocations == b.allocations,
        a.site == b.site,
        a.answered == b.answered,
        a.meter.slice == cut.first,
        b.meter.slice == cut.second,
{
    let (u, v) = (a.unsliced(), b.unsliced());
    assert(u.frames == v.frames && u.values == v.values && u.heap == v.heap && u.scope == v.scope);
    assert(u.meter == v.meter);
}

proof fn lemma_hoisted(cut: Cut, p: Program, a: MachineView, b: MachineView, block: Option<BlockId>, k: int)
    requires
        a.twin(cut, b),
    ensures
        a.hoisted(p, block, k).twin(cut, b.hoisted(p, block, k)),
    decreases p.statements_of(block).len() - k,
{
    lemma_fields(cut, a, b);
    if 0 <= k < p.statements_of(block).len() {
        match p.statements_of(block)[k].kind {
            StatementKind::Function { name, .. } => {
                let at = FnAt::Declared(StmtAt { block, index: k as usize });
                let (x, y) = (a.function_made(at), b.function_made(at));
                assert(x.twin(cut, y));
                lemma_hoisted(cut, p,
                    MachineView { heap: x.heap.declared(a.scope, name.name@, a.function_value()), ..x },
                    MachineView { heap: y.heap.declared(b.scope, name.name@, b.function_value()), ..y },
                    block,
                    k + 1,
                );
            },
            _ => lemma_hoisted(cut, p, a, b, block, k + 1),
        }
    }
}

proof fn lemma_opened(cut: Cut, p: Program, a: MachineView, b: MachineView, block: Option<BlockId>)
    requires
        a.twin(cut, b),
    ensures
        a.opened(p, block).twin(cut, b.opened(p, block)),
{
    lemma_hoisted(cut, p, a, b, block, 0);
    lemma_fields(cut, a.hoisted(p, block, 0), b.hoisted(p, block, 0));
}

proof fn lemma_entered(cut: Cut, p: Program, a: MachineView, b: MachineView, block: BlockId)
    requires
        a.twin(cut, b),
    ensures
        a.entered(p, block).twin(cut, b.entered(p, block)),
{
    lemma_fields(cut, a, b);
    let x = a.scoped(a.scope).push(Frame::ExitScope(a.scope));
    let y = b.scoped(b.scope).push(Frame::ExitScope(b.scope));
    assert(x.twin(cut, y));
    lemma_opened(cut, p, x, y, Some(block));
}

proof fn lemma_branched(cut: Cut, p: Program, a: MachineView, b: MachineView, at: StmtAt, index: int)
    requires
        a.twin(cut, b),
    ensures
        a.branched(p, at, index).twin(cut, b.branched(p, at, index)),
{
    lemma_fields(cut, a, b);
    if let StatementKind::If { branches, else_branch } = crate::interpreter::semantics::statement_at(p, at).kind {
        if index >= branches@.len() {
            if let Some(otherwise) = else_branch {
                lemma_entered(cut, p, a, b, otherwise.body);
            }
        }
    }
}

proof fn lemma_unwound(cut: Cut, a: MachineView, b: MachineView, consume: bool)
    requires
        a.twin(cut, b),
    ensures
        a.unwound(consume).twin(cut, b.unwound(consume)),
    decreases a.frames.len(),
{
    lemma_fields(cut, a, b);
    if a.frames.len() > 0 {
        let x = MachineView { frames: a.frames.drop_last(), ..a };
        let y = MachineView { frames: b.frames.drop_last(), ..b };
        assert(x.twin(cut, y));
        match a.frames.last() {
            Frame::ExitScope(outer) => {
                assert(x.exited(outer).twin(cut, y.exited(outer)));
                lemma_unwound(cut, x.exited(outer), y.exited(outer), consume);
            },
            Frame::Loop(_) => {},
            Frame::CallEnd { .. } => {},
            _ => lemma_unwound(cut, x, y, consume),
        }
    }
}

proof fn lemma_returned(cut: Cut, a: MachineView, b: MachineView, value: RtView)
    requires
        a.twin(cut, b),
    ensures
        a.returned(value).twin(cut, b.returned(value)),
    decreases a.frames.len(),
{
    lemma_fields(cut, a, b);
    if a.frames.len() > 0 {
        let x = MachineView { frames: a.frames.drop_last(), ..a };
        let y = MachineView { frames: b.frames.drop_last(), ..b };
        assert(x.twin(cut, y));
        match a.frames.last() {
            Frame::ExitScope(outer) => {
                assert(x.exited(outer).twin(cut, y.exited(outer)));
                lemma_returned(cut, x.exited(outer), y.exited(outer), value);
            },
            Frame::CallEnd { .. } => {},
            _ => lemma_returned(cut, x, y, value),
        }
    }
}

proof fn lemma_statement(cut: Cut, p: Program, a: MachineView, b: MachineView, at: StmtAt)
    requires
        a.twin(cut, b),
    ensures
        a.statement(p, at).twins(cut, b.statement(p, at)),
{
    lemma_fields(cut, a, b);
    match crate::interpreter::semantics::statement_at(p, at).kind {
        StatementKind::Return { value, .. } => {
            lemma_returned(cut, a, b, RtView::Null);
        },
        StatementKind::Block(id) => lemma_entered(cut, p, a, b, id),
        StatementKind::Assignment { target, value, .. } => {
            let x = a.push(Frame::AssignMember(target)).push(Frame::Eval(value));
            let y = b.push(Frame::AssignMember(target)).push(Frame::Eval(value));
            assert(x.twin(cut, y));
        },
        StatementKind::If { .. } => lemma_branched(cut, p, a, b, at, 0),
        StatementKind::Break { .. } => lemma_unwound(cut, a, b, true),
        StatementKind::Continue { .. } => lemma_unwound(cut, a, b, false),
        _ => {},
    }
}

proof fn lemma_invoked(cut: Cut, p: Program,
    a: MachineView,
    b: MachineView,
    chain: Chain,
    index: usize,
    in_target: bool,
    arguments: usize,
)
    requires
        a.twin(cut, b),
    ensures
        a.invoked(p, chain, index, in_target, arguments).twins(cut, b.invoked(p, chain, index, in_target, arguments)),
{
    lemma_fields(cut, a, b);
    let n = arguments as int;
    let (x, y) = (a.pops(n).pop(), b.pops(n).pop());
    assert(x.twin(cut, y));
    lemma_fields(cut, x, y);
    if let RtView::Function(slot) = a.pops(n).top() {
        if let SlotView::Function { definition, scope } = a.heap.slot(slot) {
            if let Some(function) = a.defined(p, definition) {
                let end = Frame::CallEnd { outer_scope: a.scope, values: x.values.len() as usize, chain, index, in_target };
                let c = MachineView { depth: a.depth + 1, ..x.scoped(scope) }.push(end);
                let d = MachineView { depth: b.depth + 1, ..y.scoped(scope) }.push(end);
                assert(c.twin(cut, d));
                lemma_fields(cut, c, d);
                let values = a.tops(n);
                let k = function.parameters@.len() as int;
                let e = MachineView {
                    heap: crate::interpreter::semantics::bound(c.heap, c.scope, function, values, k),
                    ..c
                };
                let f = MachineView {
                    heap: crate::interpreter::semantics::bound(d.heap, d.scope, function, values, k),
                    ..d
                };
                assert(e.twin(cut, f));
                lemma_opened(cut, p, e, f, Some(function.body));
            }
        }
    }
}

proof fn lemma_advanced(cut: Cut, p: Program, a: MachineView, b: MachineView, state: LoopFrame)
    requires
        a.twin(cut, b),
    ensures
        a.advanced(p, state).twins(cut, b.advanced(p, state)),
{
    lemma_fields(cut, a, b);
    if let LoopKind::For { keyword, at, body, collection, version, index, over_keys } = state.kind {
        if let Some(item) = crate::interpreter::semantics::iterated(a.heap, collection, index, over_keys) {
            let (v, w) = if over_keys { (a.text_made(), b.text_made()) } else { (a, b) };
            let (x, y) = (v.scoped(state.outer_scope), w.scoped(state.outer_scope));
            assert(x.twin(cut, y));
            lemma_fields(cut, x, y);
            let next = Frame::Loop(
                LoopFrame {
                    kind: LoopKind::For {
                        keyword,
                        at,
                        body,
                        collection,
                        version,
                        index: (index + 1) as usize,
                        over_keys,
                    },
                    ..state
                },
            );
            let (c, d) = match crate::interpreter::semantics::statement_at(p, at).kind {
                StatementKind::For { binding, .. } => (
                    MachineView { heap: x.heap.declared(x.scope, binding.name@, item), ..x },
                    MachineView { heap: y.heap.declared(y.scope, binding.name@, item), ..y },
                ),
                _ => (x, y),
            };
            assert(c.twin(cut, d));
            lemma_fields(cut, c, d);
            let exit = Frame::ExitScope(a.scope);
            assert(c.push(next).push(exit).twin(cut, d.push(next).push(exit)));
            lemma_opened(cut, p, c.push(next).push(exit), d.push(next).push(exit), Some(body));
        }
    }
}

proof fn lemma_read_text(cut: Cut, a: MachineView, b: MachineView, value: RtView)
    requires
        a.twin(cut, b),
    ensures
        a.read_text(value).twin(cut, b.read_text(value)),
        a.twin(cut, b.read_text(value)),
        a.read_text(value).twin(cut, b),
{
    lemma_fields(cut, a, b);
}

proof fn lemma_popped(cut: Cut, a: MachineView, b: MachineView)
    requires
        a.twin(cut, b),
    ensures
        a.pop().twin(cut, b.pop()),
        a.top() == b.top(),
{
    lemma_fields(cut, a, b);
}

proof fn lemma_concluded(cut: Cut, a: MachineView, b: MachineView, made: Made, x: MachineView, y: MachineView)
    requires
        a.twin(cut, b),
        x.twin(cut, y),
    ensures
        a.concluded(made, x).twins(cut, b.concluded(made, y)),
{
    lemma_fields(cut, a, b);
}

proof fn lemma_operator(cut: Cut, p: Program, a: MachineView, b: MachineView, frame: Frame)
    requires
        a.twin(cut, b),
        frame is Unary || frame is Binary,
    ensures
        a.step(p, frame).twins(cut, b.step(p, frame)),
{
    lemma_fields(cut, a, b);
    lemma_popped(cut, a, b);
    match frame {
        Frame::Unary { operator, operand } => {
            let value = a.top();
            lemma_read_text(cut, a.pop(), b.pop(), value);
            let x = if a.answered is None { a.pop().read_text(value) } else { a.pop() };
            let y = if b.answered is None { b.pop().read_text(value) } else { b.pop() };
            assert(x.twin(cut, y));
            lemma_fields(cut, x, y);
            let (c, d) = (x.give(value).push(frame), y.give(value).push(frame));
            assert(c.twin(cut, d));
            let made = crate::interpreter::semantics::unary(p, a.heap, operator, operand, value, a.answered);
            lemma_concluded(cut, x, y, made, c, d);
        },
        Frame::Binary { left, operator, right } => {
            let r = a.top();
            lemma_popped(cut, a.pop(), b.pop());
            let l = a.pop().top();
            let (c, d) = (a.pop().pop(), b.pop().pop());
            lemma_read_text(cut, c, d, l);
            lemma_read_text(cut, c.read_text(l), d.read_text(l), r);
            let x = if a.answered is None { c.read_text(l).read_text(r) } else { c };
            let y = if b.answered is None { d.read_text(l).read_text(r) } else { d };
            assert(x.twin(cut, y));
            lemma_fields(cut, x, y);
            let (e, f) = (x.give(l).give(r).push(frame), y.give(l).give(r).push(frame));
            assert(e.twin(cut, f));
            let made = crate::interpreter::semantics::binary(p, left, operator, right, l, r, a.answered);
            lemma_concluded(cut, x, y, made, e, f);
        },
        _ => {},
    }
}

proof fn lemma_member_assigned(cut: Cut, p: Program, a: MachineView, b: MachineView, target: ExprId)
    requires
        a.twin(cut, b),
    ensures
        a.member_assigned(p, target).twins(cut, b.member_assigned(p, target)),
{
    lemma_fields(cut, a, b);
    lemma_popped(cut, a, b);
    lemma_popped(cut, a.pop(), b.pop());
    lemma_popped(cut, a.pop().pop(), b.pop().pop());
    let key = a.pop().top();
    let (x, y) = (a.pop().pop().pop(), b.pop().pop().pop());
    lemma_read_text(cut, x, y, key);
    lemma_fields(cut, x.read_text(key), y.read_text(key));
    lemma_fields(cut, a.pop().pop(), b.pop().pop());
}

proof fn lemma_index_read(cut: Cut, p: Program, a: MachineView, b: MachineView, chain: Chain, index: usize, in_target: bool)
    requires
        a.twin(cut, b),
    ensures
        a.index_read(p, chain, index, in_target).twins(cut, b.index_read(p, chain, index, in_target)),
{
    lemma_fields(cut, a, b);
    lemma_popped(cut, a, b);
    lemma_popped(cut, a.pop(), b.pop());
    let key = a.top();
    lemma_read_text(cut, a.pop().pop(), b.pop().pop(), key);
    lemma_fields(cut, a.pop().pop().read_text(key), b.pop().pop().read_text(key));
}

proof fn lemma_rest(cut: Cut, p: Program, a: MachineView, b: MachineView, frame: Frame)
    requires
        a.twin(cut, b),
        frame is Return || frame is Branch || frame is LoopTest || frame is ForStart,
    ensures
        a.step(p, frame).twins(cut, b.step(p, frame)),
{
    lemma_fields(cut, a, b);
    lemma_popped(cut, a, b);
    let (x, y) = (a.pop(), b.pop());
    lemma_fields(cut, x, y);
    match frame {
        Frame::Return(_) => {
            lemma_returned(cut, x, y, a.top());
        },
        Frame::Branch { at, index } => {
            if let StatementKind::If { branches, .. } = crate::interpreter::semantics::statement_at(p, at).kind {
                if index < branches@.len() {
                    lemma_entered(cut, p, x, y, branches@[index as int].body);
                }
            }
            lemma_branched(cut, p, x, y, at, index + 1);
        },
        Frame::LoopTest(state) => {
            let next = Frame::Loop(state);
            assert(x.push(next).twin(cut, y.push(next)));
            lemma_entered(cut, p, x.push(next), y.push(next), crate::interpreter::semantics::loop_body(state.kind));
        },
        _ => {},
    }
}

proof fn lemma_expression(cut: Cut, p: Program, a: MachineView, b: MachineView, id: ExprId)
    requires
        a.twin(cut, b),
    ensures
        a.expression(p, id).twins(cut, b.expression(p, id)),
{
    lemma_fields(cut, a, b);
}

proof fn lemma_link(cut: Cut, p: Program, a: MachineView, b: MachineView, chain: Chain, index: usize, in_target: bool)
    requires
        a.twin(cut, b),
    ensures
        a.link(p, chain, index, in_target).twins(cut, b.link(p, chain, index, in_target)),
{
    lemma_fields(cut, a, b);
    lemma_popped(cut, a, b);
    lemma_fields(cut, a.pop(), b.pop());
}

proof fn lemma_host_called(cut: Cut, p: Program, a: MachineView, b: MachineView, chain: Chain, in_target: bool)
    requires
        a.twin(cut, b),
    ensures
        a.host_called(p, chain, in_target).twins(cut, b.host_called(p, chain, in_target)),
{
    lemma_fields(cut, a, b);
}

proof fn lemma_build(cut: Cut, p: Program, a: MachineView, b: MachineView, frame: Frame)
    requires
        a.twin(cut, b),
        frame is BuildArray || frame is BuildObject || frame is AssignName || frame is Declare,
    ensures
        a.step(p, frame).twins(cut, b.step(p, frame)),
{
    lemma_fields(cut, a, b);
    lemma_popped(cut, a, b);
    lemma_fields(cut, a.pop(), b.pop());
}

/// One step of two machines that differ in their slices alone leads to two that differ in their
/// slices alone.
proof fn lemma_step(cut: Cut, p: Program, a: MachineView, b: MachineView, frame: Frame)
    requires
        a.twin(cut, b),
    ensures
        a.step(p, frame).twins(cut, b.step(p, frame)),
{
    lemma_fields(cut, a, b);
    match frame {
        Frame::Statement(at) => lemma_statement(cut, p, a, b, at),
        Frame::Unary { .. } => lemma_operator(cut, p, a, b, frame),
        Frame::Binary { .. } => lemma_operator(cut, p, a, b, frame),
        Frame::IndexRead { chain, index, in_target } => lemma_index_read(cut, p, a, b, chain, index, in_target),
        Frame::AssignMember(target) => lemma_member_assigned(cut, p, a, b, target),
        Frame::Loop(state) => lemma_advanced(cut, p, a, b, state),
        Frame::Invoke { chain, index, in_target, arguments } => lemma_invoked(cut, p,
            a,
            b,
            chain,
            index,
            in_target,
            arguments,
        ),
        Frame::Return(_) => lemma_rest(cut, p, a, b, frame),
        Frame::Branch { .. } => lemma_rest(cut, p, a, b, frame),
        Frame::LoopTest(_) => lemma_rest(cut, p, a, b, frame),
        Frame::ForStart(_) => lemma_rest(cut, p, a, b, frame),
        Frame::Eval(id) => lemma_expression(cut, p, a, b, id),
        Frame::Link { chain, index, in_target } => lemma_link(cut, p, a, b, chain, index, in_target),
        Frame::HostCall { chain, in_target } => lemma_host_called(cut, p, a, b, chain, in_target),
        Frame::BuildArray { .. } => lemma_build(cut, p, a, b, frame),
        Frame::BuildObject(_) => lemma_build(cut, p, a, b, frame),
        Frame::AssignName(_) => lemma_build(cut, p, a, b, frame),
        Frame::Declare(_) => lemma_build(cut, p, a, b, frame),
        Frame::ExitScope(_) => {},
        Frame::Discard => lemma_popped(cut, a, b),
        Frame::BinaryRight { .. } => lemma_popped(cut, a, b),
        Frame::CallEnd { .. } => {},
    }
}

/// What the top frame leads to.
#[verifier::opaque]
spec fn next(p: Program, m: MachineView) -> Turn {
    m.taken().step(p, m.frames.last())
}

/// A run of at most `fuel` frames.
#[verifier::opaque]
spec fn ran(p: Program, m: MachineView, fuel: nat) -> Turn {
    m.run(p, fuel)
}

/// The machine after one more unit of work.
spec fn worked(m: MachineView) -> MachineView {
    MachineView { work: added(m.work, 1), ..m }
}

spec fn slice_done(m: MachineView) -> bool {
    (m.meter.slice matches Some(slice) && m.work >= slice) && m.frames.len() > 0
}

#[verifier::spinoff_prover]
proof fn lemma_ran(p: Program, m: MachineView, fuel: nat)
    ensures
        m.frames.len() == 0 ==> ran(p, m, fuel) == Turn::Halt(m, StopView::Finished(ValueView::Null)),
        m.frames.len() > 0 && fuel == 0 ==> ran(p, m, fuel) == Turn::Halt(
            MachineView { work: 0, ..m },
            StopView::Paused(site_span(p, m.site)),
        ),
        m.frames.len() > 0 && fuel > 0 ==> ran(p, m, fuel) == (match next(p, m) {
            Turn::Fail(failure) => Turn::Fail(failure),
            Turn::Halt(after, stop) => match after.exceeded(site_span(p, m.taken().site)) {
                Some(crossed) => Turn::Halt(after, crossed),
                None => Turn::Halt(after, stop),
            },
            Turn::Go(after) => match after.exceeded(site_span(p, m.taken().site)) {
                Some(crossed) => Turn::Halt(after, crossed),
                None => if slice_done(worked(after)) {
                    Turn::Halt(
                        MachineView { work: 0, ..worked(after) },
                        StopView::Paused(site_span(p, m.taken().site)),
                    )
                } else {
                    ran(p, worked(after), (fuel - 1) as nat)
                },
            },
        }),
{
    reveal(next);
    reveal(ran);
}

proof fn lemma_next(cut: Cut, p: Program, a: MachineView, b: MachineView)
    requires
        a.twin(cut, b),
        a.frames.len() > 0,
    ensures
        next(p, a).twins(cut, next(p, b)),
        a.taken().site == b.taken().site,
{
    reveal(next);
    lemma_fields(cut, a, b);
    assert(a.taken().twin(cut, b.taken()));
    lemma_step(cut, p, a.taken(), b.taken(), a.frames.last());
}

/// No step pauses.
#[verifier::spinoff_prover]
proof fn lemma_no_pause(p: Program, m: MachineView)
    ensures
        !(next(p, m) matches Turn::Halt(_, StopView::Paused(_))),
{
    reveal(next);
}

/// Two machines without slices that are alike run alike.
proof fn lemma_run(cut: Cut, p: Program, a: MachineView, b: MachineView, fuel: nat)
    requires
        a.twin(cut, b),
        cut.first is None,
        cut.second is None,
    ensures
        ran(p, a, fuel).alike(ran(p, b, fuel)),
    decreases fuel,
{
    lemma_fields(cut, a, b);
    lemma_ran(p, a, fuel);
    lemma_ran(p, b, fuel);
    if a.frames.len() > 0 && fuel > 0 {
        lemma_next(cut, p, a, b);
        match (next(p, a), next(p, b)) {
            (Turn::Go(c), Turn::Go(d)) => {
                lemma_fields(cut, c, d);
                assert(worked(c).twin(cut, worked(d)));
                lemma_run(cut, p, worked(c), worked(d), (fuel - 1) as nat);
            },
            (Turn::Halt(c, s), Turn::Halt(d, t)) => {
                lemma_fields(cut, c, d);
            },
            _ => {},
        }
    }
}

spec fn passed(p: Program, m: MachineView, after: MachineView, k: nat) -> bool {
    forall|n: nat| k <= n ==> (#[trigger] ran(p, m.unsliced(), n)).alike(ran(p, after.unsliced(), (n - k) as nat))
}

proof fn lemma_alike(a: Turn, b: Turn, c: Turn)
    requires
        a.alike(b),
        b.alike(c),
    ensures
        a.alike(c),
{
}

proof fn lemma_pausing(p: Program, m: MachineView, fuel: nat)
    ensures
        match ran(p, m, fuel) {
            Turn::Halt(after, StopView::Paused(_)) => exists|k: nat| k <= fuel && #[trigger] passed(p, m, after, k),
            turn => ran(p, m.unsliced(), fuel).alike(turn),
        },
    decreases fuel, 1int,
{
    let u = m.unsliced();
    let cut = Cut { first: m.meter.slice, second: None };
    let plain = Cut { first: None, second: None };
    lemma_ran(p, m, fuel);
    lemma_ran(p, u, fuel);
    if m.frames.len() == 0 {
    } else if fuel == 0 {
        let after = MachineView { work: 0, ..m };
        assert(after.unsliced() == u);
        assert forall|n: nat| 0 <= n implies (#[trigger] ran(p, u, n)).alike(
            ran(p, after.unsliced(), (n - 0) as nat),
        ) by {
            lemma_run(plain, p, u, u, n);
        }
        assert(passed(p, m, after, 0));
    } else {
        assert(m.twin(cut, u));
        lemma_next(cut, p, m, u);
        match next(p, m) {
            Turn::Go(c) => {
                let d = next(p, u)->Go_0;
                lemma_fields(cut, c, d);
                if c.exceeded(site_span(p, m.taken().site)) is None {
                    lemma_went_on(p, m, c, d, fuel);
                }
            },
            Turn::Halt(c, stop) => {
                let d = next(p, u)->Halt_0;
                lemma_fields(cut, c, d);
                lemma_no_pause(p, m);
            },
            Turn::Fail(_) => {},
        }
    }
}

/// The case of a step that goes on.
proof fn lemma_went_on(p: Program, m: MachineView, c: MachineView, d: MachineView, fuel: nat)
    requires
        fuel > 0,
        m.frames.len() > 0,
        next(p, m) == Turn::Go(c),
        next(p, m.unsliced()) == Turn::Go(d),
        c.twin(Cut { first: m.meter.slice, second: None }, d),
        c.exceeded(site_span(p, m.taken().site)) is None,
    ensures
        match ran(p, m, fuel) {
            Turn::Halt(after, StopView::Paused(_)) => exists|k: nat| k <= fuel && #[trigger] passed(p, m, after, k),
            turn => ran(p, m.unsliced(), fuel).alike(turn),
        },
    decreases fuel, 0int,
{
    let u = m.unsliced();
    let cut = Cut { first: m.meter.slice, second: None };
    let plain = Cut { first: None, second: None };
    lemma_fields(cut, c, d);
    lemma_ran(p, m, fuel);
    let (busy, free) = (worked(c), worked(d));
    assert(free.unsliced() == busy.unsliced());
    assert(!slice_done(free));
    assert forall|n: nat| 1 <= n implies #[trigger] ran(p, u, n) == ran(p, free, (n - 1) as nat) by {
        lemma_ran(p, u, n);
    }
    if slice_done(busy) {
        let after = MachineView { work: 0, ..busy };
        assert(after.unsliced() == busy.unsliced());
        assert forall|n: nat| 1 <= n implies (#[trigger] ran(p, u, n)).alike(
            ran(p, after.unsliced(), (n - 1) as nat),
        ) by {
            assert(free.twin(plain, after.unsliced()));
            lemma_run(plain, p, free, after.unsliced(), (n - 1) as nat);
        }
        assert(passed(p, m, after, 1));
    } else {
        lemma_pausing(p, busy, (fuel - 1) as nat);
        assert(free.twin(plain, busy.unsliced()));
        match ran(p, busy, (fuel - 1) as nat) {
            Turn::Halt(after, StopView::Paused(_)) => {
                let k = choose|k: nat| k <= fuel - 1 && #[trigger] passed(p, busy, after, k);
                assert forall|n: nat| k + 1 <= n implies (#[trigger] ran(p, u, n)).alike(
                    ran(p, after.unsliced(), (n - (k + 1)) as nat),
                ) by {
                    let j = (n - 1) as nat;
                    lemma_run(plain, p, free, busy.unsliced(), j);
                    assert(ran(p, busy.unsliced(), j).alike(ran(p, after.unsliced(), (j - k) as nat)));
                    lemma_alike(
                        ran(p, free, j),
                        ran(p, busy.unsliced(), j),
                        ran(p, after.unsliced(), (j - k) as nat),
                    );
                }
                assert(passed(p, m, after, k + 1));
            },
            turn => {
                let j = (fuel - 1) as nat;
                lemma_run(plain, p, free, busy.unsliced(), j);
                lemma_alike(ran(p, free, j), ran(p, busy.unsliced(), j), turn);
            },
        }
    }
}

/// Where an execution without slices is when one with slices pauses.
pub open spec fn passes(p: Program, m: MachineView, after: MachineView, k: nat) -> bool {
    forall|n: nat| k <= n ==> (#[trigger] m.unsliced().run(p, n)).alike(after.unsliced().run(p, (n - k) as nat))
}

/// A pause changes nothing. When an execution pauses, the same execution without slices passes through
/// the very state in which it paused, and goes on from there as the paused one does. When it ends,
/// fails, asks, calls the host or runs out of memory, so does the one without slices, in the same
/// state.
#[verifier::spinoff_prover]
pub proof fn law_pausing_changes_nothing(p: Program, m: MachineView, fuel: nat)
    ensures
        match m.run(p, fuel) {
            Turn::Halt(after, StopView::Paused(_)) => exists|k: nat| k <= fuel && #[trigger] passes(p, m, after, k),
            turn => m.unsliced().run(p, fuel).alike(turn),
        },
{
    reveal(ran);
    lemma_pausing(p, m, fuel);
    if let Turn::Halt(after, StopView::Paused(_)) = m.run(p, fuel) {
        let k = choose|k: nat| k <= fuel && #[trigger] passed(p, m, after, k);
        lemma_passes(p, m, after, k);
    }
}

#[verifier::spinoff_prover]
proof fn lemma_passes(p: Program, m: MachineView, after: MachineView, k: nat)
    requires
        passed(p, m, after, k),
    ensures
        passes(p, m, after, k),
{
    assert forall|n: nat| k <= n implies (#[trigger] m.unsliced().run(p, n)).alike(
        after.unsliced().run(p, (n - k) as nat),
    ) by {
        assert(ran(p, m.unsliced(), n).alike(ran(p, after.unsliced(), (n - k) as nat)));
        reveal(ran);
    }
}

} // verus!

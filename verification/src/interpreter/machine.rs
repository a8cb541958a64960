//! The evaluator: one loop over an explicit stack of frames and a value stack. Nothing here recurses
//! on the nesting of the input, and every frame boundary is a point where the evaluation can stop and
//! later go on.

use vstd::prelude::*;
use vstd::multiset::group_multiset_axioms;
use vstd::slice::slice_subrange;
use std::sync::Arc;
use crate::ast::AccessKind;
use crate::ast::AccessLink;
use crate::ast::BinaryAt;
use crate::ast::BinaryOperator;
use crate::ast::BlockId;
use crate::ast::ExprId;
use crate::ast::ExpressionKind;
use crate::ast::Function;
use crate::ast::Literal;
use crate::ast::Program;
use crate::ast::Statement;
use crate::ast::StatementKind;
use crate::diagnostics::Category;
use crate::diagnostics::Code;
use crate::diagnostics::Diagnostic;
use crate::diagnostics::Span;
use crate::diagnostics::through;
use crate::interpreter::attach::attach_value;
use crate::interpreter::detach::DetachFailure;
use crate::interpreter::heap::Heap;
use crate::interpreter::heap::HeapView;
use crate::interpreter::heap::RtValue;
use crate::interpreter::heap::RtView;
use crate::interpreter::heap::SlotId;
use crate::interpreter::heap::entry_views;
use crate::interpreter::heap::group_views;
use crate::interpreter::heap::lemma_put_views;
use crate::interpreter::heap::views;
use crate::interpreter::operators;
use crate::interpreter::operators::Answer;
use crate::interpreter::operators::Outcome;
use crate::interpreter::operators::Question;
use crate::interpreter::operators::answer_view;
use crate::interpreter::semantics;
use crate::interpreter::semantics::ArgumentView;
use crate::interpreter::semantics::BYTES_PER_UNIT;
use crate::interpreter::semantics::CALL_DEPTH_LIMIT;
use crate::interpreter::semantics::Chain;
use crate::interpreter::semantics::FnAt;
use crate::interpreter::semantics::Frame;
use crate::interpreter::semantics::LoopFrame;
use crate::interpreter::semantics::LoopKind;
use crate::interpreter::semantics::MachineView;
use crate::interpreter::semantics::Meter;
use crate::interpreter::semantics::Operation;
use crate::interpreter::semantics::Site;
use crate::interpreter::semantics::StmtAt;
use crate::interpreter::semantics::StopView;
use crate::interpreter::semantics::Turn;
use crate::interpreter::semantics::chain_base;
use crate::interpreter::semantics::definition_of;
use crate::interpreter::semantics::evals;
use crate::interpreter::semantics::function_at;
use crate::interpreter::semantics::scheduled;
use crate::interpreter::semantics::site_of;
use crate::interpreter::semantics::statement_at;
use crate::interpreter::texts::held_by;
use crate::interpreter::texts::lemma_held_prefix;
use crate::interpreter::value::Value;
use crate::interpreter::value::ValueView;
use crate::number::array_slot;
use crate::table::Table;
use crate::table::distinct;
use crate::table::share;

verus! {

/// One argument of a host call, and the span of the expression that made it.
pub struct Argument {
    pub value: Value,
    pub span: Span,
}

impl View for Argument {
    type V = ArgumentView;

    open spec fn view(&self) -> ArgumentView {
        ArgumentView { value: self.value@, span: self.span }
    }
}

/// What a list of arguments is.
pub open spec fn argument_views(arguments: Seq<Argument>) -> Seq<ArgumentView> {
    Seq::new(arguments.len(), |i: int| arguments[i]@)
}

/// A host call that a machine is suspended on.
pub struct PendingCall {
    pub name: String,
    pub arguments: Vec<Argument>,
    /// From the callee's name through the closing parenthesis.
    pub span: Span,
}

/// Why a machine stopped.
pub enum Stop {
    /// The Script ended with this result.
    Finished(Value),
    /// The Script called a host function and waits for its value.
    HostCall(PendingCall),
    /// The slice that the meter allows is done.
    Paused(Span),
    /// The values hold, or a join would make them hold, more than the memory ceiling.
    OutOfMemory(Span),
    /// More allocations were made than the ceiling allows.
    AllocationsExceeded(Span),
    /// An operator needs arithmetic from outside, and waits for the answer.
    Ask(Question),
}

impl View for Stop {
    type V = StopView;

    open spec fn view(&self) -> StopView {
        match *self {
            Stop::Finished(value) => StopView::Finished(value@),
            Stop::HostCall(call) => StopView::HostCall {
                name: call.name@,
                arguments: argument_views(call.arguments@),
                span: call.span,
            },
            Stop::Paused(span) => StopView::Paused(span),
            Stop::OutOfMemory(span) => StopView::OutOfMemory(span),
            Stop::AllocationsExceeded(span) => StopView::AllocationsExceeded(span),
            Stop::Ask(question) => StopView::Ask(question@),
        }
    }
}

/// The state of an execution.
pub struct State {
    frames: Vec<Frame>,
    values: Vec<RtValue>,
    heap: Heap,
    scope: SlotId,
    root: SlotId,
    functions: Vec<FnAt>,
    depth: usize,
    suspended: Option<(Chain, bool)>,
    meter: Meter,
    work: u64,
    site: Site,
    allocations: u64,
    answered: Option<Answer>,
}

impl View for State {
    type V = MachineView;

    closed spec fn view(&self) -> MachineView {
        MachineView {
            frames: self.frames@,
            values: views(self.values@),
            heap: self.heap@,
            scope: self.scope,
            root: self.root,
            functions: self.functions@,
            depth: self.depth as int,
            suspended: self.suspended,
            meter: self.meter,
            work: self.work,
            site: self.site,
            allocations: self.allocations,
            answered: answer_view(self.answered),
        }
    }
}

/// Whether a call's outcome and the state behind it are what a turn says, `left` where it fails.
pub open spec fn agrees(r: Result<Option<Stop>, Diagnostic>, after: State, left: MachineView, turn: Turn) -> bool {
    match turn {
        Turn::Go(m) => r matches Ok(None) && after@ == m && after.wf(),
        Turn::Halt(m, stop) => (r matches Ok(Some(s)) && s@ == stop) && after@ == m && after.wf(),
        Turn::Fail(failure) => (r matches Err(d) && d@ == failure) && after@ == left && after.wf(),
    }
}

/// Whether a place is one of the Program's statements.
pub open spec fn stmt_ok(p: Program, at: StmtAt) -> bool {
    p.has_body(at.block) && at.index < p.statements_of(at.block).len()
}

/// Whether a place is one of the Program's functions.
pub open spec fn fn_ok(p: Program, at: FnAt) -> bool {
    match at {
        FnAt::Declared(at) => stmt_ok(p, at),
        FnAt::Literal(id) => p.has_expr(id),
    }
}

pub open spec fn loop_ok(p: Program, state: LoopFrame) -> bool {
    match state.kind {
        LoopKind::While { condition, body, .. } => p.has_expr(condition) && p.has_block(body),
        LoopKind::For { at, body, .. } => stmt_ok(p, at) && p.has_block(body),
    }
}

/// Whether a frame's places are the Program's.
pub open spec fn frame_ok(p: Program, frame: Frame) -> bool {
    match frame {
        Frame::Statement(at) => stmt_ok(p, at),
        Frame::ExitScope(_) => true,
        Frame::Eval(id) => p.has_expr(id),
        Frame::Discard => true,
        Frame::Declare(at) => stmt_ok(p, at),
        Frame::Return(id) => p.has_expr(id),
        Frame::Unary { operand, .. } => p.has_expr(operand),
        Frame::BinaryRight { left, right, .. } => p.has_expr(left) && p.has_expr(right),
        Frame::Binary { left, right, .. } => p.has_expr(left) && p.has_expr(right),
        Frame::BuildArray { array, .. } => p.has_expr(array),
        Frame::BuildObject(id) => p.has_expr(id),
        Frame::Link { chain, .. } => p.has_expr(chain.access),
        Frame::IndexRead { chain, .. } => p.has_expr(chain.access),
        Frame::AssignName(id) => p.has_expr(id),
        Frame::AssignMember(id) => p.has_expr(id),
        Frame::Branch { at, index } => stmt_ok(p, at) && index < usize::MAX,
        Frame::Loop(state) => loop_ok(p, state),
        Frame::LoopTest(state) => loop_ok(p, state),
        Frame::ForStart(at) => stmt_ok(p, at),
        Frame::Invoke { chain, .. } => p.has_expr(chain.access),
        Frame::CallEnd { chain, index, .. } => p.has_expr(chain.access) && index < usize::MAX,
        Frame::HostCall { chain, .. } => p.has_expr(chain.access),
    }
}

pub open spec fn site_ok(p: Program, site: Site) -> bool {
    match site {
        Site::Statement(at) => stmt_ok(p, at),
        Site::Expression(id) => p.has_expr(id),
        Site::Link(chain, _) => p.has_expr(chain.access),
        _ => true,
    }
}

/// How many calls are among the frames.
pub open spec fn calls(frames: Seq<Frame>) -> int
    decreases frames.len(),
{
    if frames.len() == 0 {
        0
    } else {
        calls(frames.drop_last()) + (if frames.last() is CallEnd { 1int } else { 0int })
    }
}

/// Whether a state fits a Program: every frame and place is the Program's, and the depth counts the
/// calls, never past the limit.
pub open spec fn fits(p: Program, m: MachineView) -> bool {
    &&& forall|i: int| 0 <= i < m.frames.len() ==> frame_ok(p, #[trigger] m.frames[i])
    &&& forall|i: int| 0 <= i < m.functions.len() ==> fn_ok(p, #[trigger] m.functions[i])
    &&& m.depth == calls(m.frames)
    &&& m.depth <= CALL_DEPTH_LIMIT
    &&& site_ok(p, m.site)
    &&& m.suspended matches Some((chain, _)) ==> p.has_expr(chain.access)
}

fn statement_ref(tree: &Program, at: StmtAt) -> (r: &Statement)
    requires
        stmt_ok(*tree, at),
    ensures
        *r == statement_at(*tree, at),
{
    &tree.statements(at.block)[at.index]
}

fn function_ref(tree: &Program, at: FnAt) -> (r: Option<&Function>)
    requires
        fn_ok(*tree, at),
    ensures
        match (r, function_at(*tree, at)) {
            (Some(a), Some(b)) => *a == b,
            (None, None) => true,
            _ => false,
        },
{
    match at {
        FnAt::Declared(at) => match &statement_ref(tree, at).kind {
            StatementKind::Function { function, .. } => Some(function),
            _ => None,
        },
        FnAt::Literal(id) => match &tree.expression(id).kind {
            ExpressionKind::Function(function) => Some(function),
            _ => None,
        },
    }
}

/// The base of a chain, and its links.
fn chain_links(tree: &Program, chain: Chain) -> (r: (ExprId, &[AccessLink]))
    requires
        tree.wf(),
        tree.has_expr(chain.access),
    ensures
        r.0 == chain_base(*tree, chain),
        r.1@ == semantics::chain_links(*tree, chain),
        tree.has_expr(r.0),
        forall|i: int| 0 <= i < r.1@.len() ==> tree.link_ok(#[trigger] r.1@[i]),
{
    proof {
        assert(tree.expression_ok(tree.expressions@[chain.access.0 as int]));
    }
    match &tree.expression(chain.access).kind {
        ExpressionKind::Access { base, links } => {
            if chain.end <= links.len() {
                let part = slice_subrange(links.as_slice(), 0, chain.end);
                proof {
                    assert(part@ =~= links@.take(chain.end as int));
                }
                (*base, part)
            } else {
                (*base, links.as_slice())
            }
        },
        _ => {
            let none: &[AccessLink] = &[];
            proof {
                assert(none@ =~= Seq::<AccessLink>::empty());
            }
            (chain.access, none)
        },
    }
}

/// The span of a site.
fn site_span(tree: &Program, site: Site) -> (r: Span)
    requires
        tree.wf(),
        site_ok(*tree, site),
    ensures
        r == semantics::site_span(*tree, site),
{
    match site {
        Site::Statement(at) => statement_ref(tree, at).span,
        Site::Expression(id) => tree.expression(id).span,
        Site::Span(span) => span,
        Site::Link(chain, index) => {
            let (_, links) = chain_links(tree, chain);
            if index < links.len() {
                links[index].span
            } else {
                tree.expression(chain.access).span
            }
        },
        Site::Unknown => tree.span,
    }
}

fn loop_keyword(kind: LoopKind) -> (r: Span)
    ensures
        r == semantics::loop_keyword(kind),
{
    match kind {
        LoopKind::While { keyword, .. } => keyword,
        LoopKind::For { keyword, .. } => keyword,
    }
}

fn loop_body(kind: LoopKind) -> (r: BlockId)
    ensures
        r == semantics::loop_body(kind),
{
    match kind {
        LoopKind::While { body, .. } => body,
        LoopKind::For { body, .. } => body,
    }
}

/// Where a frame is.
fn frame_site(frame: Frame) -> (r: Site)
    ensures
        r == site_of(frame),
{
    match frame {
        Frame::Statement(at) => Site::Statement(at),
        Frame::Declare(at) => Site::Statement(at),
        Frame::Branch { at, .. } => Site::Statement(at),
        Frame::ForStart(at) => Site::Statement(at),
        Frame::Eval(id) => Site::Expression(id),
        Frame::Return(id) => Site::Expression(id),
        Frame::BuildArray { array, .. } => Site::Expression(array),
        Frame::BuildObject(id) => Site::Expression(id),
        Frame::AssignName(id) => Site::Expression(id),
        Frame::AssignMember(id) => Site::Expression(id),
        Frame::Unary { operator, .. } => Site::Span(operator.span),
        Frame::BinaryRight { operator, .. } => Site::Span(operator.span),
        Frame::Binary { operator, .. } => Site::Span(operator.span),
        Frame::Link { chain, index, .. } => Site::Link(chain, index),
        Frame::IndexRead { chain, index, .. } => Site::Link(chain, index),
        Frame::Invoke { chain, index, .. } => Site::Link(chain, index),
        Frame::CallEnd { chain, index, .. } => Site::Link(chain, index),
        Frame::HostCall { chain, .. } => Site::Link(chain, 0),
        Frame::Loop(state) => Site::Span(loop_keyword(state.kind)),
        Frame::LoopTest(state) => Site::Span(loop_keyword(state.kind)),
        Frame::ExitScope(_) => Site::Unknown,
        Frame::Discard => Site::Unknown,
    }
}

impl State {
    /// The heap is sound, and knows the strings that the value stack holds.
    pub closed spec fn wf(self) -> bool {
        &&& self.heap.wf()
        &&& self.heap.outside() == held_by(views(self.values@), self.values@.len() as int)
    }

    fn give(&mut self, value: RtValue)
        requires
            old(self).wf(),
        ensures
            final(self).wf(),
            final(self)@ == old(self)@.give(value@),
    {
        broadcast use group_views;

        let ghost before = views(self.values@);
        self.heap.hold(&value);
        self.values.push(value);
        proof {
            lemma_held_prefix(before, views(self.values@), before.len() as int);
        }
    }

    fn pop(&mut self) -> (r: RtValue)
        requires
            old(self).wf(),
        ensures
            final(self).wf(),
            final(self)@ == old(self)@.pop(),
            r@ == old(self)@.top(),
    {
        broadcast use group_views;
        broadcast use group_multiset_axioms;

        let ghost before = self.values@;
        match self.values.pop() {
            Some(value) => {
                proof {
                    assert(views(before).last() == before.last()@);
                    lemma_held_prefix(views(before), views(self.values@), self.values@.len() as int);
                }
                self.heap.let_go(&value);
                proof {
                    assert(self.heap.outside() =~= held_by(views(self.values@), self.values@.len() as int));
                }
                value
            },
            None => RtValue::Null,
        }
    }

    fn pop_many(&mut self, count: usize) -> (r: Vec<RtValue>)
        requires
            old(self).wf(),
        ensures
            final(self).wf(),
            final(self)@ == old(self)@.pops(count as int),
            views(r@) == old(self)@.tops(count as int),
    {
        broadcast use group_views;
        broadcast use group_multiset_axioms;

        let ghost before = self.values@;
        let at: usize = if self.values.len() >= count { self.values.len() - count } else { 0 };
        let gone = self.values.split_off(at);
        let ghost popped = old(self)@.pops(count as int);
        let mut k: usize = gone.len();
        while k > 0
            invariant
                k <= gone@.len(),
                at + gone@.len() == before.len(),
                gone@ == before.subrange(at as int, before.len() as int),
                self.heap.wf(),
                self@ == popped,
                self.heap.outside() == held_by(views(before), at + k),
            decreases k,
        {
            proof {
                assert(views(before)[at + k - 1] == gone@[k - 1]@);
            }
            k = k - 1;
            self.heap.let_go(&gone[k]);
            proof {
                assert(self.heap.outside() =~= held_by(views(before), at + k));
            }
        }
        proof {
            assert(self@.values == views(before).subrange(0, at as int));
            lemma_held_prefix(views(before), self@.values, at as int);
        }
        gone
    }

    fn cut(&mut self, count: usize)
        requires
            old(self).wf(),
        ensures
            final(self).wf(),
            final(self)@ == old(self)@.cut(count as int),
    {
        let n: usize = self.values.len();
        if count <= n {
            self.pop_many(n - count);
        }
    }

    /// Count one allocation.
    fn build(&mut self)
        requires
            old(self).wf(),
        ensures
            final(self).wf(),
            final(self)@ == old(self)@.built(),
    {
        self.allocations = self.allocations.saturating_add(1);
    }

    /// Make a string: one allocation, and one number.
    fn make_text(&mut self, text: Arc<str>) -> (r: RtValue)
        requires
            old(self).wf(),
        ensures
            final(self).wf(),
            final(self)@ == old(self)@.text_made(),
            r@ == RtView::String((*text)@, old(self)@.heap.issued),
    {
        self.build();
        self.heap.make_text(text)
    }

    /// Make a string and push it.
    fn give_text(&mut self, text: Arc<str>)
        requires
            old(self).wf(),
        ensures
            final(self).wf(),
            final(self)@ == old(self)@.give_text((*text)@),
    {
        let made = self.make_text(text);
        self.give(made);
    }

    /// Count one allocation when `grows`.
    fn grow(&mut self, grows: bool)
        requires
            old(self).wf(),
        ensures
            final(self).wf(),
            final(self)@ == old(self)@.grown(grows),
    {
        if grows {
            self.build();
        }
    }

    fn push(&mut self, frame: Frame)
        requires
            old(self).wf(),
        ensures
            final(self).wf(),
            final(self)@ == old(self)@.push(frame),
    {
        self.frames.push(frame);
    }

    fn push_evals(&mut self, ids: &Vec<ExprId>)
        requires
            old(self).wf(),
        ensures
            final(self).wf(),
            final(self)@ == old(self)@.push_all(evals(ids@)),
    {
        let ghost before = self@;
        let mut k: usize = ids.len();
        proof {
            assert(self@.frames =~= before.frames + evals(ids@).take(0));
        }
        while k > 0
            invariant
                k <= ids@.len(),
                self.wf(),
                self@ == before.push_all(evals(ids@).take(ids@.len() - k)),
            decreases k,
        {
            k = k - 1;
            self.frames.push(Frame::Eval(ids[k]));
            proof {
                assert(self@.frames =~= before.frames + evals(ids@).take(ids@.len() - k));
            }
        }
        proof {
            assert(evals(ids@).take(ids@.len() as int) =~= evals(ids@));
        }
    }

    /// Count the work of reading a text.
    fn read_text(&mut self, value: &RtValue)
        requires
            old(self).wf(),
        ensures
            final(self).wf(),
            final(self)@ == old(self)@.read_text(value@),
    {
        if let RtValue::String(text, _) = value {
            let units: usize = text.as_bytes().len() / BYTES_PER_UNIT;
            self.work = self.work.saturating_add(units as u64);
        }
    }

    /// A function value that captures the current scope.
    fn make_function(&mut self, at: FnAt) -> (r: RtValue)
        requires
            old(self).wf(),
        ensures
            final(self).wf(),
            final(self)@ == old(self)@.function_made(at),
            r@ == old(self)@.function_value(),
    {
        let mut k: usize = 0;
        while k < self.functions.len() && self.functions[k] != at
            invariant
                k <= self.functions@.len(),
                definition_of(self.functions@, at, 0) == definition_of(self.functions@, at, k as int),
            decreases self.functions.len() - k,
        {
            k = k + 1;
        }
        if k == self.functions.len() {
            self.functions.push(at);
        }
        self.heap.mark_captured(self.scope);
        self.heap.new_function(k, self.scope)
    }

    /// Schedule a block's statements in the current scope, its named functions bound first.
    fn open(&mut self, tree: &Program, block: Option<BlockId>)
        requires
            old(self).wf(),
            tree.has_body(block),
        ensures
            final(self).wf(),
            final(self)@ == old(self)@.opened(*tree, block),
    {
        let ghost before = self@;
        let statements = tree.statements(block);
        let n: usize = statements.len();
        let mut k: usize = 0;
        while k < n
            invariant
                self.wf(),
                statements@ == tree.statements_of(block),
                k <= n == statements@.len(),
                before.hoisted(*tree, block, 0) == self@.hoisted(*tree, block, k as int),
            decreases n - k,
        {
            if let StatementKind::Function { name, .. } = &statements[k].kind {
                let value = self.make_function(FnAt::Declared(StmtAt { block, index: k }));
                self.heap.declare(self.scope, name.name.as_str(), value);
            }
            k = k + 1;
        }
        let ghost hoisted = self@;
        proof {
            assert(self@.frames =~= hoisted.frames + scheduled(block, n as nat).take(0));
        }
        let mut i: usize = n;
        while i > 0
            invariant
                self.wf(),
                i <= n,
                self@ == hoisted.push_all(scheduled(block, n as nat).take(n - i)),
            decreases i,
        {
            i = i - 1;
            self.frames.push(Frame::Statement(StmtAt { block, index: i }));
            proof {
                assert(self@.frames =~= hoisted.frames + scheduled(block, n as nat).take(n - i));
            }
        }
        proof {
            assert(scheduled(block, n as nat).take(n as int) =~= scheduled(block, n as nat));
        }
    }

    /// Enter a new scope inside `parent`; returns the one that was current.
    fn push_scope(&mut self, parent: SlotId) -> (outer: SlotId)
        requires
            old(self).wf(),
        ensures
            final(self).wf(),
            final(self)@ == old(self)@.scoped(parent),
            outer == old(self)@.scope,
    {
        let outer = self.scope;
        self.scope = self.heap.push_scope(Some(parent));
        outer
    }

    /// Enter a block in a new scope, given back when its statements are done.
    fn enter(&mut self, tree: &Program, block: BlockId)
        requires
            old(self).wf(),
            tree.has_block(block),
        ensures
            final(self).wf(),
            final(self)@ == old(self)@.entered(*tree, block),
    {
        let outer = self.push_scope(self.scope);
        self.push(Frame::ExitScope(outer));
        self.open(tree, Some(block));
    }

    /// Give the current scope back, unless a function captured it, and restore `outer`.
    fn exit(&mut self, outer: SlotId)
        requires
            old(self).wf(),
        ensures
            final(self).wf(),
            final(self)@ == old(self)@.exited(outer),
    {
        self.heap.release_scope(self.scope);
        self.scope = outer;
    }

    /// Test a branch of an `if`, or take its `else`.
    fn next_branch(&mut self, tree: &Program, at: StmtAt, index: usize)
        requires
            old(self).wf(),
            tree.wf(),
            stmt_ok(*tree, at),
        ensures
            final(self).wf(),
            final(self)@ == old(self)@.branched(*tree, at, index as int),
    {
        let statement = statement_ref(tree, at);
        proof {
            lemma_statement_ok(*tree, at);
        }
        if let StatementKind::If { branches, else_branch } = &statement.kind {
            if index < branches.len() {
                self.push(Frame::Branch { at, index });
                self.push(Frame::Eval(branches[index].condition.expression));
            } else if let Some(otherwise) = else_branch {
                self.enter(tree, otherwise.body);
            }
        }
    }

    /// Unwind to the innermost loop: `break` consumes it, `continue` keeps it.
    fn unwind_to_loop(&mut self, consume: bool)
        requires
            old(self).wf(),
        ensures
            final(self).wf(),
            final(self)@ == old(self)@.unwound(consume),
    {
        let ghost before = self@;
        while self.frames.len() > 0
            invariant
                self.wf(),
                before == old(self)@,
                before.unwound(consume) == self@.unwound(consume),
            decreases self.frames@.len(),
        {
            let ghost here = self@;
            let frame = self.frames[self.frames.len() - 1];
            if let Frame::CallEnd { .. } = frame {
                return;
            }
            self.frames.pop();
            match frame {
                Frame::ExitScope(outer) => {
                    self.exit(outer);
                },
                Frame::Loop(state) => {
                    self.cut(state.values);
                    self.scope = state.outer_scope;
                    if !consume {
                        self.push(frame);
                    }
                    return;
                },
                _ => {},
            }
        }
    }

    /// Undo a call's boundary and go on behind the call with `value`.
    fn end_call(
        &mut self,
        outer_scope: SlotId,
        values: usize,
        chain: Chain,
        index: usize,
        in_target: bool,
        value: RtValue,
    )
        requires
            old(self).wf(),
            old(self)@.depth > 0,
            index < usize::MAX,
        ensures
            final(self).wf(),
            final(self)@ == old(self)@.call_ended(outer_scope, values, chain, index, in_target, value@),
    {
        self.cut(values);
        self.exit(outer_scope);
        self.depth = self.depth - 1;
        self.give(value);
        self.push(Frame::Link { chain, index: index + 1, in_target });
    }

    /// Return `value` from the innermost call.
    fn return_from_call(&mut self, tree: Ghost<Program>, value: RtValue)
        requires
            old(self).wf(),
            old(self)@.depth == calls(old(self)@.frames),
            forall|i: int| 0 <= i < old(self)@.frames.len() ==> frame_ok(tree@, #[trigger] old(self)@.frames[i]),
        ensures
            final(self).wf(),
            final(self)@ == old(self)@.returned(value@),
    {
        let ghost before = self@;
        while self.frames.len() > 0
            invariant
                self.wf(),
                before == old(self)@,
                before.returned(value@) == self@.returned(value@),
                self@.depth == calls(self@.frames),
                forall|i: int| 0 <= i < self@.frames.len() ==> frame_ok(tree@, #[trigger] self@.frames[i]),
            decreases self.frames@.len(),
        {
            let frame = self.frames[self.frames.len() - 1];
            proof {
                assert(frame_ok(tree@, self@.frames[self@.frames.len() - 1]));
                lemma_calls_positive(self@.frames.drop_last());
            }
            self.frames.pop();
            match frame {
                Frame::ExitScope(outer) => {
                    self.exit(outer);
                },
                Frame::CallEnd { outer_scope, values, chain, index, in_target } => {
                    self.end_call(outer_scope, values, chain, index, in_target, value);
                    return;
                },
                _ => {},
            }
        }
    }
}

/// Whether a state fits a Program once its top frame `frame` is taken off.
pub open spec fn taken_fits(p: Program, m: MachineView, frame: Frame) -> bool {
    &&& frame_ok(p, frame)
    &&& forall|i: int| 0 <= i < m.frames.len() ==> frame_ok(p, #[trigger] m.frames[i])
    &&& forall|i: int| 0 <= i < m.functions.len() ==> fn_ok(p, #[trigger] m.functions[i])
    &&& m.depth == calls(m.frames) + (if frame is CallEnd { 1int } else { 0int })
    &&& m.depth <= CALL_DEPTH_LIMIT
    &&& site_ok(p, m.site)
    &&& m.suspended matches Some((chain, _)) ==> p.has_expr(chain.access)
}

impl State {
    fn statement(&mut self, tree: &Program, at: StmtAt) -> (r: Result<Option<Stop>, Diagnostic>)
        requires
            old(self).wf(),
            tree.wf(),
            taken_fits(*tree, old(self)@, Frame::Statement(at)),
        ensures
            agrees(r, *final(self), old(self)@, old(self)@.statement(*tree, at)),
    {
        let statement = statement_ref(tree, at);
        proof {
            lemma_statement_ok(*tree, at);
        }
        match &statement.kind {
            StatementKind::Let { initializer, .. } => {
                self.push(Frame::Declare(at));
                self.push(Frame::Eval(*initializer));
            },
            StatementKind::Expression(id) => {
                self.push(Frame::Discard);
                self.push(Frame::Eval(*id));
            },
            StatementKind::Return { value, .. } => match value {
                Some(id) => {
                    self.push(Frame::Return(*id));
                    self.push(Frame::Eval(*id));
                },
                None => {
                    if self.depth > 0 {
                        self.return_from_call(Ghost(*tree), RtValue::Null);
                    } else {
                        return Ok(Some(Stop::Finished(Value::Null)));
                    }
                },
            },
            StatementKind::Block(id) => {
                self.enter(tree, *id);
            },
            StatementKind::Assignment { target, value, .. } => {
                return self.assignment(tree, *target, *value);
            },
            StatementKind::Function { .. } => {},
            StatementKind::If { .. } => {
                self.next_branch(tree, at, 0);
            },
            StatementKind::While { keyword, condition, body } => {
                let state = LoopFrame {
                    outer_scope: self.scope,
                    values: self.values.len(),
                    kind: LoopKind::While { keyword: *keyword, condition: condition.expression, body: *body },
                };
                self.push(Frame::Loop(state));
            },
            StatementKind::For { iterable, .. } => {
                self.push(Frame::ForStart(at));
                self.push(Frame::Eval(*iterable));
            },
            StatementKind::Break { .. } => {
                self.unwind_to_loop(true);
            },
            StatementKind::Continue { .. } => {
                self.unwind_to_loop(false);
            },
        }
        Ok(None)
    }

    fn assignment(&mut self, tree: &Program, target: ExprId, value: ExprId) -> (r: Result<Option<Stop>, Diagnostic>)
        requires
            old(self).wf(),
            tree.wf(),
            tree.has_expr(target),
        ensures
            agrees(r, *final(self), old(self)@, old(self)@.assignment(*tree, target, value)),
    {
        let expression = tree.expression(target);
        proof {
            assert(tree.expression_ok(tree.expressions@[target.0 as int]));
        }
        match &expression.kind {
            ExpressionKind::Identifier(_) => {
                self.push(Frame::AssignName(target));
                self.push(Frame::Eval(value));
                Ok(None)
            },
            ExpressionKind::Access { links, .. } => {
                if links.len() == 0 || any_optional(links) {
                    return Err(operators::invalid_target(expression.span));
                }
                let last: usize = links.len() - 1;
                if let AccessKind::Call { .. } = &links[last].kind {
                    return Err(operators::invalid_target(expression.span));
                }
                self.push(Frame::AssignMember(target));
                self.push(Frame::Eval(value));
                if let AccessKind::Index { expression, .. } = &links[last].kind {
                    self.push(Frame::Eval(*expression));
                }
                self.open_chain(tree, target, last, true)
            },
            _ => Err(operators::invalid_target(expression.span)),
        }
    }

    fn expression(&mut self, tree: &Program, id: ExprId) -> (r: Result<Option<Stop>, Diagnostic>)
        requires
            old(self).wf(),
            tree.wf(),
            tree.has_expr(id),
        ensures
            agrees(r, *final(self), old(self)@, old(self)@.expression(*tree, id)),
    {
        let expression = tree.expression(id);
        proof {
            assert(tree.expression_ok(tree.expressions@[id.0 as int]));
        }
        match &expression.kind {
            ExpressionKind::Literal(literal) => {
                match literal {
                    Literal::Null => self.give(RtValue::Null),
                    Literal::Bool(b) => self.give(RtValue::Bool(*b)),
                    Literal::Number(n) => self.give(RtValue::Number(*n)),
                    Literal::String(s) => self.give_text(share(s.as_str())),
                }
            },
            ExpressionKind::Identifier(name) => {
                match self.heap.lookup(self.scope, name.name.as_str()) {
                    Some(value) => {
                        self.give(value);
                    },
                    None => {
                        return Err(operators::undeclared(name.name.as_str(), name.span));
                    },
                }
            },
            ExpressionKind::Group { expression, .. } => {
                self.push(Frame::Eval(*expression));
            },
            ExpressionKind::Unary { operator, operand } => {
                self.push(Frame::Unary { operator: *operator, operand: *operand });
                self.push(Frame::Eval(*operand));
            },
            ExpressionKind::Binary { left, operator, right } => {
                self.push(Frame::BinaryRight { left: *left, operator: *operator, right: *right });
                self.push(Frame::Eval(*left));
            },
            ExpressionKind::Array { elements, .. } => {
                self.push(Frame::BuildArray { array: id, count: elements.len() });
                self.push_evals(elements);
            },
            ExpressionKind::Object { entries, .. } => {
                self.push(Frame::BuildObject(id));
                let mut ids: Vec<ExprId> = Vec::new();
                let mut k: usize = 0;
                while k < entries.len()
                    invariant
                        k <= entries@.len(),
                        ids@ == Seq::new(k as nat, |i: int| entries@[i].value),
                    decreases entries.len() - k,
                {
                    ids.push(entries[k].value);
                    k = k + 1;
                    proof {
                        assert(ids@ =~= Seq::new(k as nat, |i: int| entries@[i].value));
                    }
                }
                self.push_evals(&ids);
            },
            ExpressionKind::Access { links, .. } => {
                return self.open_chain(tree, id, links.len(), false);
            },
            ExpressionKind::Function(_) => {
                let value = self.make_function(FnAt::Literal(id));
                self.give(value);
            },
        }
        Ok(None)
    }

    /// Schedule the first `end` links of an access, starting with its base, or a host call.
    fn open_chain(&mut self, tree: &Program, access: ExprId, end: usize, in_target: bool) -> (r: Result<
        Option<Stop>,
        Diagnostic,
    >)
        requires
            old(self).wf(),
            tree.wf(),
            tree.has_expr(access),
        ensures
            agrees(r, *final(self), old(self)@, old(self)@.chain_opened(*tree, access, end as int, in_target)),
    {
        let expression = tree.expression(access);
        proof {
            assert(tree.expression_ok(tree.expressions@[access.0 as int]));
        }
        match &expression.kind {
            ExpressionKind::Access { base, links } => {
                let chain = Chain { access, end };
                if end >= 1 && end <= links.len() {
                    if let AccessKind::Call { arguments, .. } = &links[0].kind {
                        if let ExpressionKind::Identifier(name) = &tree.expression(*base).kind {
                            if self.heap.lookup(self.scope, name.name.as_str()).is_none() {
                                self.push(Frame::HostCall { chain, in_target });
                                self.push_evals(arguments);
                                return Ok(None);
                            }
                        }
                    }
                }
                self.push(Frame::Link { chain, index: 0, in_target });
                self.push(Frame::Eval(*base));
                Ok(None)
            },
            _ => Err(operators::malformed(expression.span)),
        }
    }

    /// Apply link `index` of a chain to the receiver on top.
    fn link(&mut self, tree: &Program, chain: Chain, index: usize, in_target: bool) -> (r: Result<
        Option<Stop>,
        Diagnostic,
    >)
        requires
            old(self).wf(),
            tree.wf(),
            tree.has_expr(chain.access),
        ensures
            agrees(r, *final(self), old(self)@.unlinked(), old(self)@.link(*tree, chain, index, in_target)),
    {
        let (base, links) = chain_links(tree, chain);
        if index >= links.len() {
            return Ok(None);
        }
        let link = &links[index];
        let null = self.values.len() == 0 || self.values[self.values.len() - 1].is_null();
        proof {
            if self.values@.len() > 0 {
                assert(views(self.values@).last() == self.values@.last()@);
            }
        }
        if null && link.optional {
            return Ok(None);
        }
        if let AccessKind::Call { arguments, .. } = &link.kind {
            self.push(Frame::Invoke { chain, index, in_target, arguments: arguments.len() });
            self.push_evals(arguments);
            return Ok(None);
        }
        if null {
            let before = slice_subrange(links, 0, index);
            proof {
                assert(before@ =~= semantics::chain_links(*tree, chain).take(index as int));
            }
            return Err(operators::null_access(tree, base, before, link, "read", !in_target));
        }
        match &link.kind {
            AccessKind::Property(name) => {
                let receiver = self.pop();
                match &receiver {
                    RtValue::Object(object) => {
                        let value = match self.heap.object_get(*object, name.name.as_str()) {
                            Some(value) => value,
                            None => RtValue::Null,
                        };
                        self.give(value);
                        self.push(Frame::Link { chain, index: index + 1, in_target });
                    },
                    other => {
                        return Err(operators::no_properties(other, name.name.as_str(), link.span));
                    },
                }
            },
            AccessKind::Index { expression, .. } => {
                self.push(Frame::IndexRead { chain, index, in_target });
                self.push(Frame::Eval(*expression));
            },
            AccessKind::Call { .. } => {},
        }
        Ok(None)
    }

    fn read_index(
        &self,
        tree: &Program,
        receiver: &RtValue,
        key: &RtValue,
        link: &AccessLink,
        key_expression: ExprId,
    ) -> (r: Result<RtValue, Diagnostic>)
        requires
            tree.has_expr(key_expression),
        ensures
            match (r, semantics::element(self@.heap, *tree, receiver@, key@, *link, key_expression)) {
                (Ok(a), Ok(b)) => a@ == b,
                (Err(a), Err(b)) => a@ == b,
                _ => false,
            },
    {
        let span = tree.expression(key_expression).span;
        match (receiver, key) {
            (RtValue::Array(array), RtValue::Number(n)) => match array_slot(*n) {
                Some(i) => match self.heap.array_get(*array, i) {
                    Some(value) => Ok(value),
                    None => Ok(RtValue::Null),
                },
                None => Ok(RtValue::Null),
            },
            (RtValue::Object(object), RtValue::String(k, _)) => match self.heap.object_get(*object, k) {
                Some(value) => Ok(value),
                None => Ok(RtValue::Null),
            },
            (RtValue::Array(_), _) => Err(operators::wrong_key(receiver, key, span)),
            (RtValue::Object(_), _) => Err(operators::wrong_key(receiver, key, span)),
            _ => Err(operators::not_indexable(receiver, link.span)),
        }
    }

    fn index_read(&mut self, tree: &Program, chain: Chain, index: usize, in_target: bool) -> (r: Result<
        Option<Stop>,
        Diagnostic,
    >)
        requires
            old(self).wf(),
            tree.wf(),
            tree.has_expr(chain.access),
        ensures
            agrees(r, *final(self), old(self)@.pop().pop().read_text(old(self)@.top()), old(self)@.index_read(*tree, chain, index, in_target)),
    {
        let key = self.pop();
        let receiver = self.pop();
        self.read_text(&key);
        let (_, links) = chain_links(tree, chain);
        if index >= links.len() {
            return Err(operators::malformed(tree.expression(chain.access).span));
        }
        let link = &links[index];
        match &link.kind {
            AccessKind::Index { expression, .. } => {
                proof {
                    assert(tree.link_ok(links@[index as int]));
                }
                let element = self.read_index(tree, &receiver, &key, link, *expression)?;
                self.give(element);
                self.push(Frame::Link { chain, index: index + 1, in_target });
                Ok(None)
            },
            _ => Err(operators::malformed(link.span)),
        }
    }
}

impl State {
    /// Store the assigned value through the last link of an access.
    fn assign_member(&mut self, tree: &Program, target: ExprId) -> (r: Result<Option<Stop>, Diagnostic>)
        requires
            old(self).wf(),
            tree.wf(),
            tree.has_expr(target),
        ensures
            agrees(r, *final(self), old(self)@.unassigned(*tree, target), old(self)@.member_assigned(*tree, target)),
    {
        let ghost before = self@;
        let value = self.pop();
        let expression = tree.expression(target);
        proof {
            assert(tree.expression_ok(tree.expressions@[target.0 as int]));
        }
        match &expression.kind {
            ExpressionKind::Access { base, links } => {
                if links.len() == 0 {
                    return Err(operators::malformed(expression.span));
                }
                let last: usize = links.len() - 1;
                let link = &links[last];
                let prefix = slice_subrange(links.as_slice(), 0, last);
                proof {
                    assert(prefix@ =~= links@.drop_last());
                    assert(tree.link_ok(links@[last as int]));
                }
                match &link.kind {
                    AccessKind::Property(name) => {
                        let receiver = self.pop();
                        match &receiver {
                            RtValue::Object(object) => {
                                self.grow(!self.heap.has_entry(*object, name.name.as_str()));
                                self.heap.object_store(*object, name.name.as_str(), value);
                                Ok(None)
                            },
                            RtValue::Null => Err(operators::null_access(tree, *base, prefix, link, "assign", false)),
                            other => Err(operators::no_properties(other, name.name.as_str(), link.span)),
                        }
                    },
                    AccessKind::Index { expression, .. } => {
                        let key = self.pop();
                        let receiver = self.pop();
                        self.read_text(&key);
                        let span = tree.expression(*expression).span;
                        match (&receiver, &key) {
                            (RtValue::Null, _) => Err(
                                operators::null_access(tree, *base, prefix, link, "assign", false),
                            ),
                            (RtValue::Array(array), RtValue::Number(n)) => {
                                if let Some(i) = array_slot(*n) {
                                    let grows = i == self.heap.array_len(*array) as u64;
                                    if self.heap.array_store(*array, i, value.clone()) {
                                        self.grow(grows);
                                        return Ok(None);
                                    }
                                }
                                match &self.answered {
                                    None => {
                                        self.restore(&receiver, &key, value, Ghost(before));
                                        self.push(Frame::AssignMember(target));
                                        Ok(Some(Stop::Ask(operators::question(Operation::Spell, &key, &RtValue::Null))))
                                    },
                                    Some(answer) => {
                                        let mut message = "cannot assign at index ".to_owned();
                                        message.append(&answer.left_text);
                                        message.append(" of an array of length ");
                                        crate::text::push_decimal(&mut message, self.heap.array_len(*array) as u64);
                                        message.append(
                                            ": only an existing index or the length (to append) can be written",
                                        );
                                        Err(
                                            Diagnostic::error(
                                                Category::Reference,
                                                Code::INDEX_OUT_OF_RANGE,
                                                message,
                                                span,
                                            ),
                                        )
                                    },
                                }
                            },
                            (RtValue::Object(object), RtValue::String(k, _)) => {
                                self.grow(!self.heap.has_entry(*object, k));
                                self.heap.object_store(*object, k, value);
                                Ok(None)
                            },
                            (RtValue::Array(_), _) => Err(operators::wrong_key(&receiver, &key, span)),
                            (RtValue::Object(_), _) => Err(operators::wrong_key(&receiver, &key, span)),
                            _ => Err(operators::not_indexable(&receiver, link.span)),
                        }
                    },
                    AccessKind::Call { .. } => Err(operators::malformed(link.span)),
                }
            },
            _ => Err(operators::malformed(expression.span)),
        }
    }

    /// Put back the receiver, the key and the value that were popped from `before`.
    fn restore(&mut self, receiver: &RtValue, key: &RtValue, value: RtValue, Ghost(before): Ghost<MachineView>)
        requires
            old(self).wf(),
            old(self)@ == before.pop().pop().pop(),
            value@ == before.top(),
            key@ == before.pop().top(),
            receiver@ == before.pop().pop().top(),
            !(receiver@ is Null),
        ensures
            final(self).wf(),
            final(self)@ == before,
    {
        self.give(receiver.clone());
        self.give(key.clone());
        self.give(value);
        proof {
            assert(before.pop().pop().values.len() > 0);
            assert(before.values.len() >= 3);
            assert(self@.values =~= before.values);
        }
    }

    /// Call the function below its arguments.
    fn invoke(&mut self, tree: &Program, chain: Chain, index: usize, in_target: bool, arguments: usize) -> (r: Result<
        Option<Stop>,
        Diagnostic,
    >)
        requires
            old(self).wf(),
            tree.wf(),
            tree.has_expr(chain.access),
            forall|i: int| 0 <= i < old(self)@.functions.len() ==> fn_ok(*tree, #[trigger] old(self)@.functions[i]),
        ensures
            agrees(r, *final(self), old(self)@.uncalled(*tree, chain, index, arguments), old(self)@.invoked(*tree, chain, index, in_target, arguments)),
    {
        let (_, links) = chain_links(tree, chain);
        if index >= links.len() {
            return Err(operators::malformed(tree.expression(chain.access).span));
        }
        let span = links[index].span;
        let values = self.pop_many(arguments);
        let callee = self.pop();
        let slot = match &callee {
            RtValue::Function(slot) => *slot,
            other => {
                let mut message = "cannot call ".to_owned();
                message.append(operators::article(other));
                message.append(": only functions can be called");
                return Err(Diagnostic::error(Category::Type, Code::NOT_CALLABLE, message, span));
            },
        };
        let (definition, captured) = match self.heap.function(slot) {
            Some(found) => found,
            None => {
                return Err(operators::malformed(span));
            },
        };
        if definition >= self.functions.len() {
            return Err(operators::malformed(span));
        }
        let at = self.functions[definition];
        proof {
            assert(fn_ok(*tree, self@.functions[definition as int]));
        }
        let function = match function_ref(tree, at) {
            Some(function) => function,
            None => {
                return Err(operators::malformed(span));
            },
        };
        let n: usize = function.parameters.len();
        proof {
            assert(views(values@).len() == values@.len());
        }
        if values.len() != n {
            return Err(
                Diagnostic::error(
                    Category::Arity,
                    Code::ARGUMENT_COUNT,
                    operators::arity_message(values.len(), n),
                    span,
                ),
            );
        }
        if self.depth >= CALL_DEPTH_LIMIT {
            return Err(
                Diagnostic::error(
                    Category::Depth,
                    Code::CALL_DEPTH_EXCEEDED,
                    "too many nested calls: the limit is 1024".to_owned(),
                    span,
                ),
            );
        }
        self.depth = self.depth + 1;
        let outer = self.push_scope(captured);
        let frame = Frame::CallEnd { outer_scope: outer, values: self.values.len(), chain, index, in_target };
        self.push(frame);
        let ghost framed = self@;
        let mut k: usize = 0;
        while k < n
            invariant
                self.wf(),
                k <= n,
                n == function.parameters@.len(),
                n == values@.len(),
                self@ == (MachineView {
                    heap: semantics::bound(framed.heap, framed.scope, *function, views(values@), k as int),
                    ..framed
                }),
            decreases n - k,
        {
            self.heap.declare(self.scope, function.parameters[k].name.as_str(), values[k].clone());
            k = k + 1;
        }
        proof {
            lemma_function_body(*tree, at);
        }
        self.open(tree, Some(function.body));
        Ok(None)
    }

    /// Open a `for` over the value on top.
    fn for_start(&mut self, tree: &Program, at: StmtAt) -> (r: Result<Option<Stop>, Diagnostic>)
        requires
            old(self).wf(),
            tree.wf(),
            stmt_ok(*tree, at),
        ensures
            agrees(r, *final(self), old(self)@.pop(), old(self)@.for_started(*tree, at)),
    {
        let value = self.pop();
        let statement = statement_ref(tree, at);
        proof {
            lemma_statement_ok(*tree, at);
        }
        match &statement.kind {
            StatementKind::For { keyword, iterable, body, .. } => {
                let (collection, over_keys) = match &value {
                    RtValue::Array(id) => (*id, false),
                    RtValue::Object(id) => {
                        let n: usize = self.heap.object_len(*id);
                        self.work = self.work.saturating_add(n as u64);
                        (*id, true)
                    },
                    other => {
                        let mut message = "cannot iterate ".to_owned();
                        message.append(operators::article(other));
                        message.append(": `for … in` needs an array or an object");
                        return Err(
                            Diagnostic::error(
                                Category::Type,
                                Code::OPERAND_MISMATCH,
                                message,
                                tree.expression(*iterable).span,
                            ),
                        );
                    },
                };
                let state = LoopFrame {
                    outer_scope: self.scope,
                    values: self.values.len(),
                    kind: LoopKind::For {
                        keyword: *keyword,
                        at,
                        body: *body,
                        collection,
                        version: self.heap.version(collection),
                        index: 0,
                        over_keys,
                    },
                };
                self.push(Frame::Loop(state));
                Ok(None)
            },
            _ => Err(operators::malformed(statement.span)),
        }
    }

    /// Advance a loop by one iteration, or let it end.
    fn advance(&mut self, tree: &Program, state: LoopFrame) -> (r: Result<Option<Stop>, Diagnostic>)
        requires
            old(self).wf(),
            tree.wf(),
            loop_ok(*tree, state),
        ensures
            agrees(r, *final(self), old(self)@, old(self)@.advanced(*tree, state)),
    {
        match state.kind {
            LoopKind::While { condition, .. } => {
                self.push(Frame::LoopTest(state));
                self.push(Frame::Eval(condition));
                Ok(None)
            },
            LoopKind::For { keyword, at, body, collection, version, index, over_keys } => {
                if self.heap.version(collection) != version {
                    return Err(
                        Diagnostic::error(
                            Category::Reference,
                            Code::COLLECTION_MUTATED,
                            "the collection this `for` loop is iterating was modified while it ran".to_owned(),
                            keyword,
                        ),
                    );
                }
                let item = if over_keys {
                    match self.heap.object_key(collection, index) {
                        Some(key) => self.make_text(key),
                        None => {
                            return Ok(None);
                        },
                    }
                } else {
                    match self.heap.array_get(collection, index as u64) {
                        Some(value) => value,
                        None => {
                            return Ok(None);
                        },
                    }
                };
                let next = LoopFrame {
                    outer_scope: state.outer_scope,
                    values: state.values,
                    kind: LoopKind::For { keyword, at, body, collection, version, index: index + 1, over_keys },
                };
                let outer = self.push_scope(state.outer_scope);
                if let StatementKind::For { binding, .. } = &statement_ref(tree, at).kind {
                    self.heap.declare(self.scope, binding.name.as_str(), item);
                }
                self.push(Frame::Loop(next));
                self.push(Frame::ExitScope(outer));
                self.open(tree, Some(body));
                Ok(None)
            },
        }
    }

    fn binary_right(&mut self, left: ExprId, operator: BinaryAt, right: ExprId)
        requires
            old(self).wf(),
        ensures
            final(self).wf(),
            final(self)@ == old(self)@.right_scheduled(left, operator, right),
    {
        if operator.kind == BinaryOperator::Or || operator.kind == BinaryOperator::And {
            let n: usize = self.values.len();
            let truthy = n > 0 && self.heap.is_truthy(&self.values[n - 1]);
            proof {
                if n > 0 {
                    assert(views(self.values@).last() == self.values@[n - 1]@);
                }
            }
            if truthy == (operator.kind == BinaryOperator::Or) {
                return;
            }
            self.pop();
            self.push(Frame::Eval(right));
        } else {
            self.push(Frame::Binary { left, operator, right });
            self.push(Frame::Eval(right));
        }
    }

    /// Detach the top-level `return`'s value.
    fn script_result(&self, tree: &Program, value: &RtValue, expression: ExprId) -> (r: Result<Option<Stop>, Diagnostic>)
        requires
            self.wf(),
            tree.has_expr(expression),
        ensures
            agrees(r, *self, self@, self@.script_result(*tree, value@, expression)),
    {
        let span = tree.expression(expression).span;
        match self.heap.detach(value) {
            Ok(result) => Ok(Some(Stop::Finished(result))),
            Err(DetachFailure::Cycle) => {
                let mut message = "cannot return this ".to_owned();
                message.append(value.kind_name());
                message.append(
                    ": it contains a value that refers back to itself, and a Script result must be a finite tree of values",
                );
                Err(Diagnostic::error(Category::Type, Code::CYCLIC_RESULT, message, span))
            },
            Err(DetachFailure::Function) => {
                let message = if matches!(value, RtValue::Function(_)) {
                    "cannot return a function: a Script result must be data the Backend can receive".to_owned()
                } else {
                    let mut message = "cannot return this ".to_owned();
                    message.append(value.kind_name());
                    message.append(
                        ": it contains a function, and a Script result must be data the Backend can receive",
                    );
                    message
                };
                Err(Diagnostic::error(Category::Type, Code::FUNCTION_RESULT, message, span))
            },
        }
    }

    /// The arguments of a host call, detached.
    fn detach_arguments(&self, tree: &Program, name: &str, values: &Vec<RtValue>, ids: &Vec<ExprId>) -> (r: Result<
        Vec<Argument>,
        Diagnostic,
    >)
        requires
            tree.has_exprs(ids@),
        ensures
            match (r, semantics::detached_arguments(self@.heap, *tree, name@, views(values@), ids@, 0)) {
                (Ok(a), Ok(b)) => argument_views(a@) == b,
                (Err(a), Err(b)) => a@ == b,
                _ => false,
            },
    {
        let mut out: Vec<Argument> = Vec::new();
        let mut k: usize = 0;
        let ghost all = semantics::detached_arguments(self@.heap, *tree, name@, views(values@), ids@, 0);
        proof {
            assert(argument_views(out@) =~= Seq::<ArgumentView>::empty());
            lemma_prefixed(all);
        }
        while k < values.len() && k < ids.len()
            invariant
                tree.has_exprs(ids@),
                k <= values@.len(),
                k <= ids@.len(),
                all == semantics::detached_arguments(self@.heap, *tree, name@, views(values@), ids@, 0),
                all == prefixed(
                    argument_views(out@),
                    semantics::detached_arguments(self@.heap, *tree, name@, views(values@), ids@, k as int),
                ),
            decreases values.len() - k,
        {
            let value = &values[k];
            proof {
                assert(views(values@)[k as int] == value@);
                assert(tree.has_expr(ids@[k as int]));
            }
            let span = tree.expression(ids[k]).span;
            let (code, reason) = match self.heap.detach(value) {
                Ok(value) => {
                    let ghost had = argument_views(out@);
                    let ghost one = ArgumentView { value: value@, span };
                    out.push(Argument { value, span });
                    proof {
                        assert(argument_views(out@) =~= had.push(one));
                        lemma_prefixed_push(
                            had,
                            one,
                            semantics::detached_arguments(self@.heap, *tree, name@, views(values@), ids@, k + 1),
                        );
                    }
                    k = k + 1;
                    continue;
                },
                Err(DetachFailure::Cycle) => (
                    Code::CYCLIC_ARGUMENT,
                    "it contains a value that refers back to itself",
                ),
                Err(DetachFailure::Function) => (
                    Code::FUNCTION_ARGUMENT,
                    if matches!(value, RtValue::Function(_)) {
                        "a function has no wire representation"
                    } else {
                        "it contains a function, which has no wire representation"
                    },
                ),
            };
            let mut message = "cannot pass this ".to_owned();
            message.append(value.kind_name());
            message.append(" to `");
            message.append(name);
            message.append("`: ");
            message.append(reason);
            message.append(", and a host call's arguments must be data the Backend can receive");
            return Err(Diagnostic::error(Category::Type, code, message, span));
        }
        proof {
            assert(argument_views(out@) + Seq::<ArgumentView>::empty() =~= argument_views(out@));
        }
        Ok(out)
    }

    /// Suspend on the host call whose arguments are on the value stack.
    fn host_call(&mut self, tree: &Program, chain: Chain, in_target: bool) -> (r: Result<Option<Stop>, Diagnostic>)
        requires
            old(self).wf(),
            tree.wf(),
            tree.has_expr(chain.access),
        ensures
            agrees(r, *final(self), old(self)@.unsent(*tree, chain), old(self)@.host_called(*tree, chain, in_target)),
    {
        let (base, links) = chain_links(tree, chain);
        let base = tree.expression(base);
        match &base.kind {
            ExpressionKind::Identifier(name) => {
                if links.len() == 0 {
                    return Err(operators::malformed(base.span));
                }
                let link = &links[0];
                match &link.kind {
                    AccessKind::Call { arguments, .. } => {
                        proof {
                            assert(tree.link_ok(links@[0]));
                        }
                        let values = self.pop_many(arguments.len());
                        let detached = self.detach_arguments(tree, name.name.as_str(), &values, arguments)?;
                        self.suspended = Some((chain, in_target));
                        let span = through(name.span, link.span);
                        self.site = Site::Span(span);
                        Ok(
                            Some(
                                Stop::HostCall(PendingCall { name: name.name.clone(), arguments: detached, span }),
                            ),
                        )
                    },
                    _ => Err(operators::malformed(link.span)),
                }
            },
            _ => Err(operators::malformed(base.span)),
        }
    }
}

impl State {
    /// The table of an object literal with these values.
    fn literal_table(tree: &Program, id: ExprId, values: &Vec<RtValue>) -> (r: Table<RtValue>)
        requires
            tree.has_expr(id),
            tree.expr(id).kind matches ExpressionKind::Object { entries, .. } && values@.len() <= entries@.len(),
        ensures
            entry_views(r@) == semantics::literal_entries(*tree, id, views(values@), values@.len() as int),
    {
        let mut table: Table<RtValue> = Table::new();
        proof {
            assert(entry_views(table@) =~= Seq::empty());
        }
        if let ExpressionKind::Object { entries, .. } = &tree.expression(id).kind {
            let mut k: usize = 0;
            while k < values.len()
                invariant
                    k <= values@.len() <= entries@.len(),
                    tree.has_expr(id),
                    tree.expr(id).kind matches ExpressionKind::Object { entries: list, .. } && list == entries,
                    distinct(table@),
                    entry_views(table@) == semantics::literal_entries(*tree, id, views(values@), k as int),
                decreases values.len() - k,
            {
                let key = share(entries[k].key.name.as_str());
                let value = values[k].clone();
                proof {
                    lemma_put_views(table@, (*key)@, value);
                    crate::table::lemma_put_distinct(table@, (*key)@, value);
                }
                table.insert(key, value);
                k = k + 1;
            }
        }
        table
    }

    /// Push what an operator made, or stop with its question to come back to `frame`.
    fn conclude(&mut self, made: Outcome) -> (r: Option<Question>)
        requires
            old(self).wf(),
        ensures
            final(self).wf(),
            match made {
                Outcome::Value(value) => r is None && final(self)@ == (MachineView {
                    answered: None,
                    ..old(self)@.give(value@)
                }),
                Outcome::Text(text) => r is None && final(self)@ == (MachineView {
                    answered: None,
                    ..old(self)@.give_text((*text)@)
                }),
                Outcome::Ask(question) => r == Some(question) && final(self)@ == old(self)@,
            },
    {
        match made {
            Outcome::Value(value) => {
                self.answered = None;
                self.give(value);
                None
            },
            Outcome::Text(text) => {
                self.answered = None;
                self.give_text(text);
                None
            },
            Outcome::Ask(question) => Some(question),
        }
    }

    /// Execute one frame. `Some` means that the machine stops.
    fn step(&mut self, tree: &Program, frame: Frame) -> (r: Result<Option<Stop>, Diagnostic>)
        requires
            old(self).wf(),
            tree.wf(),
            taken_fits(*tree, old(self)@, frame),
        ensures
            agrees(r, *final(self), old(self)@.failed(*tree, frame), old(self)@.step(*tree, frame)),
    {
        match frame {
            Frame::Statement(at) => {
                return self.statement(tree, at);
            },
            Frame::ExitScope(outer) => {
                self.exit(outer);
            },
            Frame::Eval(id) => {
                return self.expression(tree, id);
            },
            Frame::Discard => {
                self.pop();
            },
            Frame::Declare(at) => {
                let value = self.pop();
                if let StatementKind::Let { name, .. } = &statement_ref(tree, at).kind {
                    self.heap.declare(self.scope, name.name.as_str(), value);
                }
            },
            Frame::Return(expression) => {
                let value = self.pop();
                if self.depth > 0 {
                    self.return_from_call(Ghost(*tree), value);
                } else {
                    return self.script_result(tree, &value, expression);
                }
            },
            Frame::Unary { operator, operand } => {
                let value = self.pop();
                if self.answered.is_none() {
                    self.read_text(&value);
                }
                let made = operators::unary(tree, &self.heap, operator, operand, &value, &self.answered)?;
                if let Some(question) = self.conclude(made) {
                    self.give(value);
                    self.push(frame);
                    return Ok(Some(Stop::Ask(question)));
                }
            },
            Frame::BinaryRight { left, operator, right } => {
                self.binary_right(left, operator, right);
            },
            Frame::Binary { left, operator, right } => {
                return self.binary(tree, left, operator, right);
            },
            Frame::BuildArray { count, .. } => {
                let items = self.pop_many(count);
                let array = self.heap.new_array(items);
                self.give(array);
                self.build();
            },
            Frame::BuildObject(id) => {
                let expression = tree.expression(id);
                match &expression.kind {
                    ExpressionKind::Object { entries, .. } => {
                        let values = self.pop_many(entries.len());
                        proof {
                            assert(views(values@).len() == values@.len());
                        }
                        let table = State::literal_table(tree, id, &values);
                        let object = self.heap.new_object(table);
                        self.give(object);
                        self.build();
                    },
                    _ => {
                        return Err(operators::malformed(expression.span));
                    },
                }
            },
            Frame::Link { chain, index, in_target } => {
                return self.link(tree, chain, index, in_target);
            },
            Frame::IndexRead { chain, index, in_target } => {
                return self.index_read(tree, chain, index, in_target);
            },
            Frame::AssignName(target) => {
                let value = self.pop();
                let expression = tree.expression(target);
                match &expression.kind {
                    ExpressionKind::Identifier(name) => {
                        if !self.heap.assign(self.scope, name.name.as_str(), value) {
                            return Err(operators::undeclared_assignment(name.name.as_str(), name.span));
                        }
                    },
                    _ => {
                        return Err(operators::malformed(expression.span));
                    },
                }
            },
            Frame::AssignMember(target) => {
                return self.assign_member(tree, target);
            },
            Frame::Branch { at, index } => {
                let taken = self.pop();
                if self.heap.is_truthy(&taken) {
                    proof {
                        lemma_statement_ok(*tree, at);
                    }
                    if let StatementKind::If { branches, .. } = &statement_ref(tree, at).kind {
                        if index < branches.len() {
                            self.enter(tree, branches[index].body);
                        }
                    }
                } else {
                    self.next_branch(tree, at, index + 1);
                }
            },
            Frame::Loop(state) => {
                return self.advance(tree, state);
            },
            Frame::LoopTest(state) => {
                let condition = self.pop();
                if self.heap.is_truthy(&condition) {
                    self.push(Frame::Loop(state));
                    self.enter(tree, loop_body(state.kind));
                }
            },
            Frame::ForStart(at) => {
                return self.for_start(tree, at);
            },
            Frame::Invoke { chain, index, in_target, arguments } => {
                return self.invoke(tree, chain, index, in_target, arguments);
            },
            Frame::CallEnd { outer_scope, values, chain, index, in_target } => {
                proof {
                    lemma_calls_positive(self@.frames);
                }
                self.end_call(outer_scope, values, chain, index, in_target, RtValue::Null);
            },
            Frame::HostCall { chain, in_target } => {
                return self.host_call(tree, chain, in_target);
            },
        }
        Ok(None)
    }

    /// Apply a binary operator to the two values on top.
    fn binary(&mut self, tree: &Program, left: ExprId, operator: BinaryAt, right: ExprId) -> (r: Result<
        Option<Stop>,
        Diagnostic,
    >)
        requires
            old(self).wf(),
            tree.has_expr(left),
            tree.has_expr(right),
        ensures
            agrees(
                r,
                *final(self),
                old(self)@.failed(*tree, Frame::Binary { left, operator, right }),
                old(self)@.step(*tree, Frame::Binary { left, operator, right }),
            ),
    {
        let crosses = operator.kind == BinaryOperator::Add && self.join_crosses();
        let r = self.pop();
        let l = self.pop();
        if self.answered.is_none() {
            self.read_text(&l);
            self.read_text(&r);
        }
        if crosses {
            return Ok(Some(Stop::OutOfMemory(operator.span)));
        }
        let made = operators::binary(tree, left, operator, right, &l, &r, &self.answered)?;
        if let Some(question) = self.conclude(made) {
            self.give(l);
            self.give(r);
            self.push(Frame::Binary { left, operator, right });
            return Ok(Some(Stop::Ask(question)));
        }
        Ok(None)
    }

    /// Whether joining the two values on top would take the values past the memory ceiling.
    fn join_crosses(&self) -> (r: bool)
        requires
            self.wf(),
        ensures
            r == (semantics::joined_bytes(self@.pop().top(), self@.top()) matches Some(extra) && self@.would_cross(
                extra,
            )),
    {
        let n: usize = self.values.len();
        let null = RtValue::Null;
        let r = if n > 0 { &self.values[n - 1] } else { &null };
        let l = if n > 1 { &self.values[n - 2] } else { &null };
        proof {
            assert(r@ == self@.top());
            assert(l@ == self@.pop().top());
        }
        match operators::joined_bytes(l, r) {
            Some(extra) => self.would_cross_ceiling(extra),
            None => false,
        }
    }

    /// Whether the values hold more than the memory ceiling.
    fn over_ceiling(&self) -> (r: bool)
        requires
            self.wf(),
        ensures
            r == self@.over_ceiling(),
    {
        match self.meter.memory_ceiling {
            Some(ceiling) => self.heap.used() > ceiling,
            None => false,
        }
    }

    /// Whether `extra` more bytes would take the values past the memory ceiling.
    fn would_cross_ceiling(&self, extra: u64) -> (r: bool)
        requires
            self.wf(),
        ensures
            r == self@.would_cross(extra),
    {
        match self.meter.memory_ceiling {
            Some(ceiling) => self.heap.used().saturating_add(extra) > ceiling,
            None => false,
        }
    }

    /// The stop for a ceiling that is crossed, if one is.
    fn exceeded(&self, span: Span) -> (r: Option<Stop>)
        requires
            self.wf(),
        ensures
            match (r, self@.exceeded(span)) {
                (Some(a), Some(b)) => a@ == b && !(a is Ask),
                (None, None) => true,
                _ => false,
            },
    {
        if self.over_ceiling() {
            return Some(Stop::OutOfMemory(span));
        }
        if let Some(ceiling) = self.meter.allocation_ceiling {
            if self.allocations > ceiling {
                return Some(Stop::AllocationsExceeded(span));
            }
        }
        None
    }
}

/// The state of a Script before its first step: its starting variables bound in the root scope, then
/// its top level opened, whose named functions win.
pub open spec fn started(p: Program, variables: Seq<(Seq<char>, ValueView)>) -> MachineView {
    let heap = HeapView { slots: Seq::empty(), free: Seq::empty(), issued: 0 };
    let scope = heap.next();
    MachineView {
        frames: Seq::empty(),
        values: Seq::empty(),
        heap: variables_bound(heap.scope_pushed(None), scope, variables, variables.len() as int),
        scope,
        root: scope,
        functions: Seq::empty(),
        depth: 0,
        suspended: None,
        meter: Meter { slice: None, memory_ceiling: None, allocation_ceiling: None },
        work: 0,
        site: Site::Unknown,
        allocations: 0,
        answered: None,
    }.opened(p, None)
}

/// The heap with the first `n` variables copied in and bound, in order.
pub open spec fn variables_bound(heap: HeapView, scope: SlotId, variables: Seq<(Seq<char>, ValueView)>, n: int) -> HeapView
    decreases n,
{
    if n <= 0 {
        heap
    } else {
        let (after, value) = attach_value(
            variables_bound(heap, scope, variables, n - 1),
            variables[n - 1].1,
        );
        after.declared(scope, variables[n - 1].0, value)
    }
}

/// The machine with the host call it is suspended on answered: the value is copied in and the chain
/// goes on behind the call, as if a call had returned it.
pub open spec fn resumed(m: MachineView, value: ValueView) -> MachineView {
    match m.suspended {
        Some((chain, in_target)) => {
            let (heap, handle) = attach_value(m.heap, value);
            MachineView { suspended: None, heap, ..m }.give(handle).push(Frame::Link { chain, index: 1, in_target })
        },
        None => m,
    }
}

spec fn held(program: Arc<Program>) -> Program {
    *program
}

/// An execution of a Program.
pub struct Machine {
    program: Arc<Program>,
    state: State,
    /// Whether the last stop was a question.
    asked: bool,
}

impl View for Machine {
    type V = MachineView;

    closed spec fn view(&self) -> MachineView {
        self.state@
    }
}

impl Machine {
    /// The Program that runs.
    pub closed spec fn program(self) -> Program {
        *self.program
    }

    /// Whether the machine waits for an answer.
    pub closed spec fn asks(self) -> bool {
        self.asked
    }

    /// The state fits the Program, and its heap is sound.
    pub closed spec fn inv(self) -> bool {
        &&& self.program.wf()
        &&& self.state.wf()
        &&& fits(*self.program, self.state@)
    }

    /// A machine with no starting variables.
    pub fn new(program: Arc<Program>) -> (r: Self)
        requires
            program.wf(),
        ensures
            r.inv(),
            r.program() == *program,
            !r.asks(),
            r@ == started(*program, Seq::empty()),
    {
        let none: Vec<(Arc<str>, Value)> = Vec::new();
        proof {
            assert(crate::interpreter::value::pair_trees(none@) =~= Seq::empty());
        }
        Machine::with_variables(program, &none)
    }

    /// A machine whose root scope binds `variables`, each copied into the fresh heap.
    pub fn with_variables(program: Arc<Program>, variables: &Vec<(Arc<str>, Value)>) -> (r: Self)
        requires
            program.wf(),
        ensures
            r.inv(),
            r.program() == *program,
            !r.asks(),
            r@ == started(*program, crate::interpreter::value::pair_trees(variables@)),
    {
        let mut heap = Heap::new();
        let ghost empty_texts = heap.outside();
        let scope = heap.push_scope(None);
        let ghost base = heap@;
        let ghost list = crate::interpreter::value::pair_trees(variables@);
        let mut k: usize = 0;
        while k < variables.len()
            invariant
                heap.wf(),
                heap.outside() == empty_texts,
                k <= variables@.len(),
                list == crate::interpreter::value::pair_trees(variables@),
                heap@ == variables_bound(base, scope, list, k as int),
            decreases variables.len() - k,
        {
            let value = heap.attach(&variables[k].1);
            heap.declare(scope, &variables[k].0, value);
            k = k + 1;
        }
        let mut state = State {
            frames: Vec::new(),
            values: Vec::new(),
            heap,
            scope,
            root: scope,
            functions: Vec::new(),
            depth: 0,
            suspended: None,
            meter: Meter { slice: None, memory_ceiling: None, allocation_ceiling: None },
            work: 0,
            site: Site::Unknown,
            allocations: 0,
            answered: None,
        };
        let ghost before = state@;
        let ghost tree: Program = held(program);
        proof {
            assert(views(state.values@) =~= Seq::empty());
            assert(fits(tree, before));
            crate::interpreter::keeping::lemma_opened(tree, before, None);
        }
        state.open(&program, None);
        Machine { program, state, asked: false }
    }

    /// Meter the rest of the run.
    pub fn set_meter(&mut self, meter: Meter)
        requires
            old(self).inv(),
        ensures
            final(self).inv(),
            final(self).program() == old(self).program(),
            final(self).asks() == old(self).asks(),
            final(self)@ == (MachineView { meter, ..old(self)@ }),
    {
        self.state.meter = meter;
    }

    /// What the execution's values count towards the memory ceiling.
    pub fn memory_used(&self) -> (r: u64)
        requires
            self.inv(),
        ensures
            r == self@.used(),
    {
        self.state.heap.used()
    }

    /// The names that the root scope binds, ascending.
    pub fn root_names(&self) -> (r: Vec<String>)
        ensures
            crate::text::ascending(r@),
            forall|name: Seq<char>|
                crate::text::holds(r@, name) <==> crate::table::has_key(self@.heap.bindings(self@.root), name),
    {
        self.state.heap.names(self.state.root)
    }

    /// The heap.
    pub fn heap(&self) -> (r: &Heap)
        ensures
            r@ == self@.heap,
    {
        &self.state.heap
    }

    /// Run until the Script ends, calls the host, asks, or the meter stops it. One call runs at most
    /// `u64::MAX` frames, and then pauses. An error leaves the machine as it was before the frame that
    /// failed, without that frame and the operands it took; there is no going on from it.
    pub fn execute(&mut self) -> (r: Result<Stop, Diagnostic>)
        requires
            old(self).inv(),
        ensures
            final(self).program() == old(self).program(),
            match old(self)@.execute(old(self).program()) {
                Turn::Go(_) => false,
                Turn::Halt(m, stop) => (r matches Ok(s) && s@ == stop) && final(self)@ == m && final(self).inv()
                    && final(self).asks() == (stop is Ask),
                Turn::Fail(failure) => (r matches Err(d) && d@ == failure) && final(self).inv() && !final(self).asks()
                    && final(self)@ == old(self)@.failing(old(self).program(), u64::MAX as nat),
            },
    {
        let program = self.program.clone();
        let tree: &Program = &program;
        let ghost before = self@;
        self.asked = false;
        if let Some(crossed) = self.state.exceeded(site_span(tree, self.state.site)) {
            return Ok(crossed);
        }
        let mut fuel: u64 = u64::MAX;
        while self.state.frames.len() > 0
            invariant
                program == old(self).program,
                *tree == *program,
                self.program == program,
                !self.asked,
                tree.wf(),
                self.state.wf(),
                fits(*tree, self.state@),
                before == old(self)@,
                before.execute(*tree) == self.state@.run(*tree, fuel as nat),
                before.failing(*tree, u64::MAX as nat) == self.state@.failing(*tree, fuel as nat),
            decreases fuel,
        {
            if fuel == 0 {
                self.state.work = 0;
                return Ok(Stop::Paused(site_span(tree, self.state.site)));
            }
            let ghost here = self.state@;
            let frame = self.state.frames[self.state.frames.len() - 1];
            self.state.frames.pop();
            let site = frame_site(frame);
            if !matches!(site, Site::Unknown) {
                self.state.site = site;
            }
            let site = self.state.site;
            proof {
                crate::interpreter::keeping::lemma_taken(*tree, here);
                crate::interpreter::keeping::law_step_keeps_fit(*tree, here.taken(), frame);
                if here.taken().step(*tree, frame) is Fail {
                    crate::interpreter::keeping::law_failure_keeps_fit(*tree, here.taken(), frame);
                }
                assert(self.state@ == here.taken());
            }
            let stop = match self.state.step(tree, frame) {
                Ok(stop) => stop,
                Err(failure) => {
                    return Err(failure);
                },
            };
            if let Some(crossed) = self.state.exceeded(site_span(tree, site)) {
                return Ok(crossed);
            }
            if let Some(stop) = stop {
                self.asked = matches!(stop, Stop::Ask(_));
                return Ok(stop);
            }
            self.state.work = self.state.work.saturating_add(1);
            if let Some(slice) = self.state.meter.slice {
                if self.state.work >= slice && self.state.frames.len() > 0 {
                    self.state.work = 0;
                    return Ok(Stop::Paused(site_span(tree, site)));
                }
            }
            fuel = fuel - 1;
        }
        Ok(Stop::Finished(Value::Null))
    }

    /// Answer the host call that the machine stopped on. Without one, does nothing.
    pub fn resume(&mut self, value: &Value)
        requires
            old(self).inv(),
        ensures
            final(self).inv(),
            final(self).program() == old(self).program(),
            final(self).asks() == old(self).asks(),
            final(self)@ == resumed(old(self)@, value@),
    {
        let ghost tree: Program = held(self.program);
        if let Some((chain, in_target)) = self.state.suspended {
            self.state.suspended = None;
            let value = self.state.heap.attach(value);
            self.state.give(value);
            let frame = Frame::Link { chain, index: 1, in_target };
            proof {
                assert(fits(tree, self.state@));
                crate::interpreter::keeping::lemma_push(tree, self.state@, frame);
            }
            self.state.push(frame);
        }
    }

    /// Answer the question that the machine stopped on. Without one, does nothing.
    pub fn answer(&mut self, answer: Answer)
        requires
            old(self).inv(),
        ensures
            final(self).inv(),
            final(self).program() == old(self).program(),
            !final(self).asks(),
            final(self)@ == (if old(self).asks() {
                MachineView { answered: Some(answer@), ..old(self)@ }
            } else {
                old(self)@
            }),
    {
        if self.asked {
            self.state.answered = Some(answer);
            self.asked = false;
        }
    }
}

/// A list of arguments before what follows it.
spec fn prefixed(first: Seq<ArgumentView>, rest: Result<Seq<ArgumentView>, crate::diagnostics::DiagnosticView>) -> Result<
    Seq<ArgumentView>,
    crate::diagnostics::DiagnosticView,
> {
    match rest {
        Ok(rest) => Ok(first + rest),
        Err(failure) => Err(failure),
    }
}

proof fn lemma_prefixed(rest: Result<Seq<ArgumentView>, crate::diagnostics::DiagnosticView>)
    ensures
        prefixed(Seq::empty(), rest) == rest,
{
    if let Ok(list) = rest {
        assert(Seq::<ArgumentView>::empty() + list =~= list);
    }
}

proof fn lemma_prefixed_push(
    first: Seq<ArgumentView>,
    one: ArgumentView,
    rest: Result<Seq<ArgumentView>, crate::diagnostics::DiagnosticView>,
)
    ensures
        prefixed(first.push(one), rest) == (match rest {
            Ok(rest) => Ok(first + (seq![one] + rest)),
            Err(failure) => Err(failure),
        }),
{
    if let Ok(list) = rest {
        assert(first.push(one) + list =~= first + (seq![one] + list));
    }
}

pub proof fn lemma_function_body(p: Program, at: FnAt)
    requires
        p.wf(),
        fn_ok(p, at),
        function_at(p, at) is Some,
    ensures
        p.has_block(function_at(p, at)->0.body),
{
    match at {
        FnAt::Declared(at) => {
            lemma_statement_ok(p, at);
        },
        FnAt::Literal(id) => {
            assert(p.expression_ok(p.expressions@[id.0 as int]));
        },
    }
}

fn any_optional(links: &Vec<AccessLink>) -> (r: bool)
    ensures
        r == (exists|i: int| 0 <= i < links@.len() && (#[trigger] links@[i]).optional),
{
    let mut i: usize = 0;
    while i < links.len()
        invariant
            i <= links@.len(),
            forall|j: int| 0 <= j < i ==> !(#[trigger] links@[j]).optional,
        decreases links.len() - i,
    {
        if links[i].optional {
            return true;
        }
        i = i + 1;
    }
    false
}

pub proof fn lemma_calls_positive(frames: Seq<Frame>)
    ensures
        calls(frames) >= 0,
    decreases frames.len(),
{
    if frames.len() > 0 {
        lemma_calls_positive(frames.drop_last());
    }
}

pub proof fn lemma_statement_ok(p: Program, at: StmtAt)
    requires
        p.wf(),
        stmt_ok(p, at),
    ensures
        p.statement_ok(statement_at(p, at)),
{
    match at.block {
        None => {
            assert(p.statement_ok(p.statements@[at.index as int]));
        },
        Some(id) => {
            assert(p.statements_ok(p.blocks@[id.0 as int].statements@));
            assert(p.statement_ok(p.blocks@[id.0 as int].statements@[at.index as int]));
        },
    }
}

} // verus!

//! Where a name can be seen, in a tree and in a heap: for each piece of code in how many of the scopes
//! around it the name is hidden, and for each scope of a run how that bears on it.

use vstd::prelude::*;
use crate::ast::AccessKind;
use crate::ast::AccessLink;
use crate::ast::ExprId;
use crate::ast::ExpressionKind;
use crate::ast::Function;
use crate::ast::Program;
use crate::ast::Statement;
use crate::ast::StatementKind;
use crate::check::walk::JobView;
use crate::check::walk::block_job;
use crate::check::walk::body_job;
use crate::check::walk::first_terminator;
use crate::check::walk::function_arity;
use crate::check::walk::reassigned;
use crate::check::walk::terminator;
use crate::diagnostics::Span;
use crate::interpreter::heap::HeapView;
use crate::interpreter::heap::RtView;
use crate::interpreter::heap::SlotId;
use crate::interpreter::heap::SlotView;
use crate::interpreter::scopes::around;
use crate::interpreter::scopes::chained;
use crate::interpreter::scopes::linked;
use crate::interpreter::semantics::Chain;
use crate::interpreter::semantics::FnAt;
use crate::interpreter::semantics::Frame;
use crate::interpreter::semantics::LoopKind;
use crate::interpreter::semantics::MachineView;
use crate::interpreter::semantics::StmtAt;
use crate::interpreter::semantics::chain_links;
use crate::interpreter::semantics::function_at;
use crate::interpreter::semantics::statement_at;
use crate::table::has_key;

verus! {

/// What is known of one name at the pieces of a tree.
pub ghost struct Sight {
    pub name: Seq<char>,
    /// The pieces that a run can get to.
    pub live: spec_fn(JobView) -> bool,
    /// Whether the name is unbound, whenever the piece runs, in so many of the innermost scopes.
    pub hidden: spec_fn(JobView, nat) -> bool,
    /// Whether the name is never bound in so many of the innermost scopes.
    pub barred: spec_fn(JobView, nat) -> bool,
    /// Whether the scope so many scopes out binds the name, if at all, to functions with so many
    /// parameters.
    pub known: spec_fn(JobView, nat, usize) -> bool,
    /// Whether the name is unbound in so many of the innermost scopes whenever this target is assigned.
    pub target: spec_fn(ExprId, nat) -> bool,
}

impl Sight {
    pub open spec fn lives(self, job: JobView) -> bool {
        (self.live)(job)
    }

    pub open spec fn hides(self, job: JobView, k: nat) -> bool {
        (self.hidden)(job, k)
    }

    pub open spec fn bars(self, job: JobView, k: nat) -> bool {
        (self.barred)(job, k)
    }

    pub open spec fn knows(self, job: JobView, k: nat, a: usize) -> bool {
        (self.known)(job, k, a)
    }

    pub open spec fn aims(self, id: ExprId, k: nat) -> bool {
        (self.target)(id, k)
    }
}

/// Whether some links hold an expression, as an argument or as an index.
pub open spec fn linked_to(links: Seq<AccessLink>, id: ExprId) -> bool {
    exists|i: int| 0 <= i < links.len() && holds_expr(#[trigger] links[i], id)
}

pub open spec fn holds_expr(link: AccessLink, id: ExprId) -> bool {
    match link.kind {
        AccessKind::Call { arguments, .. } => exists|j: int| 0 <= j < arguments@.len() && #[trigger] arguments@[j] == id,
        AccessKind::Index { expression, .. } => expression == id,
        AccessKind::Property(_) => false,
    }
}

/// Whether a piece is run in the same scope as a piece that it is part of, or opens a scope in it.
pub open spec fn part(p: Program, whole: JobView, piece: JobView) -> bool {
    match whole {
        JobView::Expression(id) => match p.expr(id).kind {
            ExpressionKind::Literal(_) => false,
            ExpressionKind::Identifier(_) => false,
            ExpressionKind::Function(_) => false,
            ExpressionKind::Group { expression, .. } => piece == JobView::Expression(expression),
            ExpressionKind::Unary { operand, .. } => piece == JobView::Expression(operand),
            ExpressionKind::Binary { left, right, .. } => piece == JobView::Expression(left) || piece
                == JobView::Expression(right),
            ExpressionKind::Array { elements, .. } => exists|i: int|
                0 <= i < elements@.len() && piece == JobView::Expression(#[trigger] elements@[i]),
            ExpressionKind::Object { entries, .. } => exists|i: int|
                0 <= i < entries@.len() && piece == JobView::Expression((#[trigger] entries@[i]).value),
            ExpressionKind::Access { base, links } => piece == JobView::Expression(base) || (
            piece matches JobView::Expression(x) && linked_to(links@, x)),
        },
        JobView::Statement(statement) => match statement.kind {
            StatementKind::Let { initializer, .. } => piece == JobView::Expression(initializer),
            StatementKind::Function { .. } => false,
            StatementKind::Assignment { target, value, .. } => piece == JobView::Expression(value) || (!(p.expr(
                target,
            ).kind is Identifier) && piece == JobView::Expression(target)),
            StatementKind::Return { value, .. } => value matches Some(id) && piece == JobView::Expression(id),
            StatementKind::Block(body) => piece == block_job(p, body, Seq::empty()),
            StatementKind::If { branches, else_branch } => {
                ||| exists|i: int|
                    0 <= i < branches@.len() && (piece == JobView::Expression(
                        (#[trigger] branches@[i]).condition.expression,
                    ) || piece == block_job(p, branches@[i].body, Seq::empty()))
                ||| else_branch matches Some(branch) && piece == block_job(p, branch.body, Seq::empty())
            },
            StatementKind::While { condition, body, .. } => piece == JobView::Expression(condition.expression) || piece
                == block_job(p, body, Seq::empty()),
            StatementKind::For { binding, iterable, body, .. } => piece == JobView::Expression(iterable) || piece
                == block_job(p, body, seq![(binding.name@, binding.span)]),
            StatementKind::Break { .. } => false,
            StatementKind::Continue { .. } => false,
            StatementKind::Expression(id) => piece == JobView::Expression(id),
        },
        _ => false,
    }
}

/// Whether a seed has a name.
pub open spec fn seeded(seed: Seq<(Seq<char>, Span)>, name: Seq<char>) -> bool {
    exists|i: int| 0 <= i < seed.len() && (#[trigger] seed[i]).0 == name
}

/// Whether a statement is a `let` of a name.
pub open spec fn lets(statement: Statement, name: Seq<char>) -> bool {
    statement.kind matches StatementKind::Let { name: bound, .. } && bound.name@ == name
}

/// Whether a statement declares a function with a name.
pub open spec fn functions(statement: Statement, name: Seq<char>) -> bool {
    statement.kind matches StatementKind::Function { name: bound, .. } && bound.name@ == name
}

/// Whether one of some statements declares a function with a name.
pub open spec fn hoists(statements: Seq<Statement>, name: Seq<char>) -> bool {
    exists|k: int| 0 <= k < statements.len() && functions(#[trigger] statements[k], name)
}

/// Whether a statement that can run is a `let` of a name.
pub open spec fn lets_at(statements: Seq<Statement>, k: int, name: Seq<char>) -> bool {
    0 <= k < statements.len() && k <= first_terminator(statements, 0) && lets(statements[k], name)
}

/// Whether a block ever binds a name.
pub open spec fn soiled(statements: Seq<Statement>, seed: Seq<(Seq<char>, Span)>, name: Seq<char>) -> bool {
    seeded(seed, name) || hoists(statements, name) || exists|k: int| #[trigger] lets_at(statements, k, name)
}

/// The parameter count of the function that a declaration surely binds.
pub open spec fn arity_of(p: Program, statement: Statement) -> Option<usize> {
    match statement.kind {
        StatementKind::Let { initializer, .. } => function_arity(p, initializer),
        StatementKind::Function { function, .. } => Some(function.parameters.len()),
        _ => None,
    }
}

/// Whether a block binds a name to functions with `a` parameters only.
pub open spec fn sure(p: Program, statements: Seq<Statement>, seed: Seq<(Seq<char>, Span)>, name: Seq<char>, a: usize) -> bool {
    &&& !reassigned(p, name)
    &&& !seeded(seed, name)
    &&& forall|k: int| #[trigger] lets_at(statements, k, name) ==> arity_of(p, statements[k]) == Some(a)
    &&& forall|k: int|
        0 <= k < statements.len() && functions(#[trigger] statements[k], name) ==> arity_of(p, statements[k]) == Some(a)
}

/// Whether what is known of a piece follows from what is known of the piece around it.
pub open spec fn over(s: Sight, whole: JobView, piece: JobView) -> bool {
    &&& s.lives(piece)
    &&& forall|k: nat| #[trigger] s.hides(piece, k) ==> s.hides(whole, k)
    &&& forall|k: nat| #[trigger] s.bars(piece, k) ==> s.bars(whole, k)
    &&& forall|k: nat, a: usize| #[trigger] s.knows(piece, k, a) ==> s.knows(whole, k, a)
}

/// Whether what is known of a function's body follows from what is known where it is written.
pub open spec fn over_body(s: Sight, whole: JobView, body: JobView) -> bool {
    &&& s.lives(body)
    &&& forall|k: nat| #[trigger] s.hides(body, k) ==> s.bars(whole, k)
    &&& forall|k: nat| #[trigger] s.bars(body, k) ==> s.bars(whole, k)
    &&& forall|k: nat, a: usize| #[trigger] s.knows(body, k, a) ==> s.knows(whole, k, a)
}

/// Whether what is known of a statement follows from what is known of its block.
pub open spec fn over_statement(
    p: Program,
    s: Sight,
    statements: Seq<Statement>,
    seed: Seq<(Seq<char>, Span)>,
    body: bool,
    i: int,
) -> bool {
    let whole = JobView::Open { statements, seed, body };
    let piece = JobView::Statement(statements[i]);
    &&& s.lives(piece)
    &&& forall|k: nat| #[trigger] s.hides(piece, k) && k > 0 ==> s.hides(whole, (k - 1) as nat) && !seeded(seed, s.name)
        && !hoists(statements, s.name) && forall|j: int| 0 <= j < i ==> !lets(#[trigger] statements[j], s.name)
    &&& forall|k: nat| #[trigger] s.bars(piece, k) && k > 0 ==> s.bars(whole, (k - 1) as nat) && !soiled(
        statements,
        seed,
        s.name,
    )
    &&& forall|k: nat, a: usize| #[trigger] s.knows(piece, k, a) ==> if k > 0 {
        s.knows(whole, (k - 1) as nat, a)
    } else {
        sure(p, statements, seed, s.name, a)
    }
}

/// Whether what is known of the body of a function that a block declares follows from what is known of
/// the block.
pub open spec fn over_named(
    p: Program,
    s: Sight,
    statements: Seq<Statement>,
    seed: Seq<(Seq<char>, Span)>,
    body: bool,
    function: Function,
) -> bool {
    let whole = JobView::Open { statements, seed, body };
    let piece = body_job(p, function);
    &&& s.lives(piece)
    &&& forall|k: nat| (#[trigger] s.hides(piece, k) || s.bars(piece, k)) && k > 0 ==> s.bars(whole, (k - 1) as nat)
        && !soiled(statements, seed, s.name)
    &&& forall|k: nat| (#[trigger] s.bars(piece, k)) && k > 0 ==> s.bars(whole, (k - 1) as nat)
        && !soiled(statements, seed, s.name)
    &&& forall|k: nat, a: usize| #[trigger] s.knows(piece, k, a) ==> if k > 0 {
        s.knows(whole, (k - 1) as nat, a)
    } else {
        sure(p, statements, seed, s.name, a)
    }
}

/// Whether what is known of the statements of a block, and of the functions it declares, follows from
/// what is known of the block.
pub open spec fn over_block(p: Program, s: Sight, statements: Seq<Statement>, seed: Seq<(Seq<char>, Span)>, body: bool) -> bool {
    &&& forall|i: int|
        0 <= i < statements.len() && i <= first_terminator(statements, 0) ==> #[trigger] over_statement(
            p,
            s,
            statements,
            seed,
            body,
            i,
        )
    &&& forall|i: int|
        0 <= i < statements.len() ==> ((#[trigger] statements[i]).kind matches StatementKind::Function { function, .. }
            ==> over_named(p, s, statements, seed, body, function))
}

/// Whether what is known of a name holds together over a tree.
pub open spec fn consistent(p: Program, s: Sight) -> bool {
    &&& forall|whole: JobView, piece: JobView| s.lives(whole) && #[trigger] part(p, whole, piece) ==> over(s, whole, piece)
    &&& forall|id: ExprId|
        #[trigger] s.lives(JobView::Expression(id)) ==> (p.expr(id).kind matches ExpressionKind::Function(function)
            ==> over_body(s, JobView::Expression(id), body_job(p, function)))
    &&& forall|statement: Statement|
        #[trigger] s.lives(JobView::Statement(statement)) ==> (statement.kind matches StatementKind::Assignment {
            target,
            ..
        } ==> forall|k: nat| #[trigger] s.aims(target, k) ==> s.hides(JobView::Statement(statement), k))
    &&& forall|statements: Seq<Statement>, seed: Seq<(Seq<char>, Span)>, body: bool|
        #[trigger] s.lives(JobView::Open { statements, seed, body }) ==> over_block(p, s, statements, seed, body)
}

/// What a run knows of its scopes, as far as one name goes.
pub ghost struct Labels {
    /// Later scopes have higher numbers.
    pub age: spec_fn(SlotId) -> nat,
    /// The scopes that may ever bind the name.
    pub soil: spec_fn(SlotId) -> bool,
    /// The scopes that bind the name to functions with so many parameters only.
    pub arity: spec_fn(SlotId, usize) -> bool,
    pub next: nat,
}

impl Labels {
    pub open spec fn ages(self, id: SlotId) -> nat {
        (self.age)(id)
    }

    pub open spec fn soils(self, id: SlotId) -> bool {
        (self.soil)(id)
    }

    pub open spec fn sures(self, id: SlotId, a: usize) -> bool {
        (self.arity)(id, a)
    }

    /// With a new scope.
    pub open spec fn with(self, id: SlotId, soiled: bool, sure: spec_fn(usize) -> bool) -> Labels {
        Labels {
            age: |x: SlotId| if x == id { self.next } else { self.ages(x) },
            soil: |x: SlotId| if x == id { soiled } else { self.soils(x) },
            arity: |x: SlotId, a: usize| if x == id { sure(a) } else { self.sures(x, a) },
            next: self.next + 1,
        }
    }
}

/// Whether the first `k` scopes, from a scope outwards, do not bind a name.
pub open spec fn clear(heap: HeapView, name: Seq<char>, id: SlotId, k: nat) -> bool
    decreases k,
{
    k == 0 || (!has_key(heap.bindings(id), name) && (around(heap, id) matches Some(outer) ==> clear(
        heap,
        name,
        outer,
        (k - 1) as nat,
    )))
}

/// Whether the first `k` scopes, from a scope outwards, never bind the name.
pub open spec fn never(l: Labels, heap: HeapView, id: SlotId, k: nat) -> bool
    decreases k,
{
    k == 0 || (!l.soils(id) && (around(heap, id) matches Some(outer) ==> never(l, heap, outer, (k - 1) as nat)))
}

/// Whether the scope `k` scopes out binds the name to functions with `a` parameters only.
pub open spec fn assured(l: Labels, heap: HeapView, id: SlotId, k: nat, a: usize) -> bool
    decreases k,
{
    if k == 0 {
        l.sures(id, a)
    } else {
        around(heap, id) matches Some(outer) ==> assured(l, heap, outer, (k - 1) as nat, a)
    }
}

/// Whether what is known of a piece of code holds of the scope that it runs in.
pub open spec fn suits(s: Sight, l: Labels, heap: HeapView, job: JobView, id: SlotId) -> bool {
    &&& forall|k: nat| #[trigger] s.hides(job, k) ==> clear(heap, s.name, id, k)
    &&& forall|k: nat| #[trigger] s.bars(job, k) ==> never(l, heap, id, k)
    &&& forall|k: nat, a: usize| #[trigger] s.knows(job, k, a) ==> assured(l, heap, id, k, a)
}

/// Whether what is known of a function's body holds of the scope that the function captured.
pub open spec fn suits_body(s: Sight, l: Labels, heap: HeapView, job: JobView, id: SlotId) -> bool {
    &&& forall|k: nat| #[trigger] s.hides(job, k) ==> never(l, heap, id, k)
    &&& forall|k: nat| #[trigger] s.bars(job, k) ==> never(l, heap, id, k)
    &&& forall|k: nat, a: usize| #[trigger] s.knows(job, k, a) ==> assured(l, heap, id, k, a)
}

/// Whether a value is a function with `a` parameters.
pub open spec fn worth(p: Program, heap: HeapView, functions: Seq<FnAt>, value: RtView, a: usize) -> bool {
    match value {
        RtView::Function(slot) => match heap.slot(slot) {
            SlotView::Function { definition, .. } => if definition < functions.len() {
                match function_at(p, functions[definition as int]) {
                    Some(function) => function.parameters@.len() == a,
                    None => false,
                }
            } else {
                false
            },
            _ => false,
        },
        _ => false,
    }
}

/// Whether the labels fit the scopes of a heap.
pub open spec fn labelled(p: Program, s: Sight, l: Labels, heap: HeapView) -> bool {
    &&& forall|id: SlotId|
        (#[trigger] heap.slot(id)) is Scope ==> l.ages(id) < l.next && (has_key(heap.bindings(id), s.name) ==> l.soils(id))
            && (around(heap, id) matches Some(outer) ==> l.ages(outer) < l.ages(id))
    &&& forall|id: SlotId, a: usize| #[trigger] l.sures(id, a) ==> !reassigned(p, s.name)
}

/// Whether some entries have only functions with `a` parameters under a name.
pub open spec fn only(
    p: Program,
    heap: HeapView,
    functions: Seq<FnAt>,
    entries: Seq<(Seq<char>, RtView)>,
    name: Seq<char>,
    a: usize,
) -> bool {
    forall|i: int| 0 <= i < entries.len() && (#[trigger] entries[i]).0 == name ==> worth(p, heap, functions, entries[i].1, a)
}

/// Whether every scope that is to bind the name to functions only does so.
pub open spec fn worthy(p: Program, s: Sight, l: Labels, heap: HeapView, functions: Seq<FnAt>) -> bool {
    forall|id: SlotId, a: usize|
        heap.slot(id) is Scope && #[trigger] l.sures(id, a) ==> only(p, heap, functions, heap.bindings(id), s.name, a)
}

/// Whether a function in the heap runs in a scope that suits its body.
pub open spec fn housed(p: Program, s: Sight, l: Labels, heap: HeapView, functions: Seq<FnAt>, definition: usize, scope: SlotId) -> bool {
    &&& definition < functions.len()
    &&& function_at(p, functions[definition as int]) matches Some(function) ==> s.lives(body_job(p, function))
        && suits_body(s, l, heap, body_job(p, function), scope)
}

pub open spec fn closures(p: Program, s: Sight, l: Labels, heap: HeapView, functions: Seq<FnAt>) -> bool {
    forall|id: SlotId| (#[trigger] heap.slot(id)) is Function ==> housed_at(p, s, l, heap, functions, id)
}

pub open spec fn housed_at(p: Program, s: Sight, l: Labels, heap: HeapView, functions: Seq<FnAt>, id: SlotId) -> bool {
    heap.slot(id) matches SlotView::Function { definition, scope } ==> housed(
        p,
        s,
        l,
        heap,
        functions,
        definition,
        scope,
    )
}

/// What a loop still runs.
pub open spec fn loops_over(p: Program, kind: LoopKind, job: JobView) -> bool {
    match kind {
        LoopKind::While { condition, body, .. } => job == JobView::Expression(condition) || job == block_job(
            p,
            body,
            Seq::empty(),
        ),
        LoopKind::For { at, body, .. } => job == block_job(p, body, loop_seed(p, at)),
    }
}

/// The name that a `for` binds.
pub open spec fn loop_seed(p: Program, at: StmtAt) -> Seq<(Seq<char>, Span)> {
    match statement_at(p, at).kind {
        StatementKind::For { binding, .. } => seq![(binding.name@, binding.span)],
        _ => Seq::empty(),
    }
}

/// Whether a frame may run a piece of code.
pub open spec fn runs(p: Program, frame: Frame, job: JobView) -> bool {
    match frame {
        Frame::Statement(at) => job == JobView::Statement(statement_at(p, at)),
        Frame::Branch { at, .. } => job == JobView::Statement(statement_at(p, at)),
        Frame::ForStart(at) => job == JobView::Statement(statement_at(p, at)),
        Frame::Eval(id) => job == JobView::Expression(id),
        Frame::BinaryRight { right, .. } => job == JobView::Expression(right),
        Frame::Link { chain, .. } => continues(p, chain, job),
        Frame::IndexRead { chain, .. } => continues(p, chain, job),
        Frame::Invoke { chain, .. } => continues(p, chain, job),
        Frame::CallEnd { chain, .. } => continues(p, chain, job),
        Frame::HostCall { chain, .. } => continues(p, chain, job),
        Frame::Loop(state) => loops_over(p, state.kind, job),
        Frame::LoopTest(state) => loops_over(p, state.kind, job),
        _ => false,
    }
}

/// Whether an expression is the base of a chain, or stands in one of its links.
pub open spec fn continues(p: Program, chain: Chain, job: JobView) -> bool {
    job matches JobView::Expression(id) && (linked_to(chain_links(p, chain), id) || based_on(p, chain.access, id))
}

/// Whether an access has a base.
pub open spec fn based_on(p: Program, access: ExprId, id: ExprId) -> bool {
    p.expr(access).kind matches ExpressionKind::Access { base, .. } && base == id
}

/// Whether what a frame may run suits a scope.
pub open spec fn fine(p: Program, s: Sight, l: Labels, heap: HeapView, frame: Frame, id: SlotId) -> bool {
    &&& forall|job: JobView| #[trigger] runs(p, frame, job) ==> s.lives(job) && suits(s, l, heap, job, id)
    &&& frame matches Frame::AssignName(target) ==> forall|k: nat| #[trigger] s.aims(target, k) ==> clear(heap, s.name, id, k)
    &&& frame matches Frame::AssignName(target) ==> (p.expr(target).kind matches ExpressionKind::Identifier(node)
        && node.name@ == s.name ==> reassigned(p, s.name))
}

/// The `let` of the name that a frame is about to do.
pub open spec fn binder(p: Program, s: Sight, frame: Frame) -> Option<Statement> {
    match frame {
        Frame::Statement(at) => if lets(statement_at(p, at), s.name) {
            Some(statement_at(p, at))
        } else {
            None
        },
        Frame::Declare(at) => if lets(statement_at(p, at), s.name) {
            Some(statement_at(p, at))
        } else {
            None
        },
        _ => None,
    }
}

/// Whether the statements below a frame can no longer run.
pub open spec fn deadens(p: Program, frame: Frame, dead: bool) -> bool {
    match frame {
        Frame::Return(_) => true,
        Frame::Statement(at) => dead || terminator(statement_at(p, at).kind) is Some,
        _ => false,
    }
}

pub open spec fn skipped(frame: Frame, dead: bool) -> bool {
    dead && frame is Statement
}

/// The scope below a frame.
pub open spec fn below(frame: Frame, scope: SlotId) -> SlotId {
    match frame {
        Frame::ExitScope(outer) => outer,
        Frame::CallEnd { outer_scope, .. } => outer_scope,
        _ => scope,
    }
}

pub open spec fn leaves(frame: Frame) -> bool {
    frame is ExitScope || frame is CallEnd
}

/// Whether nothing that the frames of the current scope still run needs the name hidden in it.
pub open spec fn blank(p: Program, s: Sight, frames: Seq<Frame>, dead: bool) -> bool
    decreases frames.len(),
{
    if frames.len() == 0 || leaves(frames.last()) {
        true
    } else {
        let frame = frames.last();
        &&& skipped(frame, dead) || (forall|job: JobView, k: nat|
            #![trigger runs(p, frame, job), s.hides(job, k)]
            runs(p, frame, job) && k > 0 ==> !s.hides(job, k))
        &&& frame matches Frame::AssignName(target) ==> forall|k: nat| k > 0 ==> !#[trigger] s.aims(target, k)
        &&& blank(p, s, frames.drop_last(), deadens(p, frame, dead))
    }
}

pub open spec fn starts_loop(frame: Frame, scope: SlotId) -> bool {
    match frame {
        Frame::Loop(state) => state.outer_scope == scope,
        Frame::LoopTest(state) => state.outer_scope == scope && state.kind is While,
        _ => true,
    }
}

/// Whether a frame that is about to bind the name may.
pub open spec fn may_bind(p: Program, s: Sight, l: Labels, frame: Frame, id: SlotId, rest: Seq<Frame>, dead: bool) -> bool {
    binder(p, s, frame) matches Some(statement) ==> l.soils(id) && blank(p, s, rest, deadens(p, frame, dead)) && forall|a: usize|
        #[trigger] l.sures(id, a) ==> arity_of(p, statement) == Some(a)
}

/// Whether what all frames may run suits the scopes that they run it in.
pub open spec fn settled(p: Program, s: Sight, l: Labels, heap: HeapView, frames: Seq<Frame>, scope: SlotId, dead: bool) -> bool
    decreases frames.len(),
{
    if frames.len() == 0 {
        true
    } else {
        let frame = frames.last();
        let rest = frames.drop_last();
        let id = below(frame, scope);
        &&& heap.slot(id) is Scope
        &&& leaves(frame) ==> l.ages(id) < l.ages(scope)
        &&& starts_loop(frame, scope)
        &&& skipped(frame, dead) || (fine(p, s, l, heap, frame, id) && may_bind(p, s, l, frame, id, rest, dead))
        &&& settled(p, s, l, heap, rest, id, deadens(p, frame, dead))
    }
}

/// Whether a run has kept to what is known of a name.
pub open spec fn abides(p: Program, s: Sight, l: Labels, m: MachineView) -> bool {
    &&& labelled(p, s, l, m.heap)
    &&& worthy(p, s, l, m.heap, m.functions)
    &&& closures(p, s, l, m.heap, m.functions)
    &&& settled(p, s, l, m.heap, m.frames, m.scope, false)
    &&& m.heap.slot(m.scope) is Scope
    &&& m.suspended matches Some((chain, _)) ==> fine(
        p,
        s,
        l,
        m.heap,
        Frame::Link { chain, index: 1, in_target: false },
        m.scope,
    )
}

/// What a heap says of a scope, as far as the name goes.
pub open spec fn shape(heap: HeapView, name: Seq<char>, id: SlotId) -> (bool, Option<SlotId>, bool) {
    (heap.slot(id) is Scope, around(heap, id), has_key(heap.bindings(id), name))
}

pub open spec fn alike(a: HeapView, b: HeapView, name: Seq<char>) -> bool {
    forall|id: SlotId| #[trigger] shape(b, name, id) == shape(a, name, id)
}

pub open spec fn alike_but(a: HeapView, b: HeapView, name: Seq<char>, but: SlotId) -> bool {
    forall|id: SlotId| id != but ==> #[trigger] shape(b, name, id) == shape(a, name, id)
}

/// Whether what holds of a scope under some labels in a heap holds under others in another.
pub open spec fn carried(s: Sight, l: Labels, a: HeapView, m: Labels, b: HeapView, id: SlotId) -> bool {
    &&& b.slot(id) is Scope
    &&& m.ages(id) == l.ages(id)
    &&& m.soils(id) == l.soils(id)
    &&& forall|n: usize| #[trigger] m.sures(id, n) == l.sures(id, n)
    &&& forall|k: nat| #[trigger] clear(a, s.name, id, k) ==> clear(b, s.name, id, k)
    &&& forall|k: nat| #[trigger] never(l, a, id, k) ==> never(m, b, id, k)
    &&& forall|k: nat, n: usize| #[trigger] assured(l, a, id, k, n) ==> assured(m, b, id, k, n)
}

proof fn lemma_alike_one(s: Sight, l: Labels, a: HeapView, b: HeapView, id: SlotId, k: nat, n: usize)
    requires
        alike(a, b, s.name),
    ensures
        clear(b, s.name, id, k) == clear(a, s.name, id, k),
        never(l, b, id, k) == never(l, a, id, k),
        assured(l, b, id, k, n) == assured(l, a, id, k, n),
    decreases k,
{
    assert(shape(b, s.name, id) == shape(a, s.name, id));
    if k > 0 {
        if let Some(outer) = around(a, id) {
            lemma_alike_one(s, l, a, b, outer, (k - 1) as nat, n);
        }
    }
}

/// In a heap whose scopes say the same, the same holds of every scope.
pub proof fn lemma_alike(s: Sight, l: Labels, a: HeapView, b: HeapView)
    requires
        alike(a, b, s.name),
    ensures
        forall|id: SlotId| a.slot(id) is Scope ==> #[trigger] carried(s, l, a, l, b, id),
{
    assert forall|id: SlotId| a.slot(id) is Scope implies #[trigger] carried(s, l, a, l, b, id) by {
        assert(shape(b, s.name, id) == shape(a, s.name, id));
        assert forall|k: nat| #[trigger] clear(a, s.name, id, k) implies clear(b, s.name, id, k) by {
            lemma_alike_one(s, l, a, b, id, k, 0);
        }
        assert forall|k: nat| #[trigger] never(l, a, id, k) implies never(l, b, id, k) by {
            lemma_alike_one(s, l, a, b, id, k, 0);
        }
        assert forall|k: nat, n: usize| #[trigger] assured(l, a, id, k, n) implies assured(l, b, id, k, n) by {
            lemma_alike_one(s, l, a, b, id, k, n);
        }
    }
}

/// Whether labels agree on all scopes but one.
pub open spec fn agree_but(l: Labels, m: Labels, but: SlotId) -> bool {
    &&& forall|id: SlotId| id != but ==> #[trigger] m.ages(id) == l.ages(id)
    &&& forall|id: SlotId| id != but ==> #[trigger] m.soils(id) == l.soils(id)
    &&& forall|id: SlotId, n: usize| id != but ==> #[trigger] m.sures(id, n) == l.sures(id, n)
}

proof fn lemma_fresh_one(s: Sight, l: Labels, a: HeapView, m: Labels, b: HeapView, new: SlotId, id: SlotId, k: nat, n: usize)
    requires
        alike_but(a, b, s.name, new),
        agree_but(l, m, new),
        chained(a),
        !(a.slot(new) is Scope),
        a.slot(id) is Scope,
    ensures
        clear(b, s.name, id, k) == clear(a, s.name, id, k),
        never(m, b, id, k) == never(l, a, id, k),
        assured(m, b, id, k, n) == assured(l, a, id, k, n),
    decreases k,
{
    assert(shape(b, s.name, id) == shape(a, s.name, id));
    assert(m.soils(id) == l.soils(id));
    assert(m.sures(id, n) == l.sures(id, n));
    assert(linked(a, id)) by {
        assert(around(a, id) == around(a, id));
    }
    if k > 0 {
        if let Some(outer) = around(a, id) {
            lemma_fresh_one(s, l, a, m, b, new, outer, (k - 1) as nat, n);
        }
    }
}

/// A new scope is around none of those that were there.
pub proof fn lemma_fresh(s: Sight, l: Labels, a: HeapView, m: Labels, b: HeapView, new: SlotId)
    requires
        alike_but(a, b, s.name, new),
        agree_but(l, m, new),
        chained(a),
        !(a.slot(new) is Scope),
    ensures
        forall|id: SlotId| a.slot(id) is Scope ==> #[trigger] carried(s, l, a, m, b, id),
{
    assert forall|id: SlotId| a.slot(id) is Scope implies #[trigger] carried(s, l, a, m, b, id) by {
        assert(shape(b, s.name, id) == shape(a, s.name, id));
        assert(m.ages(id) == l.ages(id));
        assert(m.soils(id) == l.soils(id));
        assert forall|k: nat| #[trigger] clear(a, s.name, id, k) implies clear(b, s.name, id, k) by {
            lemma_fresh_one(s, l, a, m, b, new, id, k, 0);
        }
        assert forall|k: nat| #[trigger] never(l, a, id, k) implies never(m, b, id, k) by {
            lemma_fresh_one(s, l, a, m, b, new, id, k, 0);
        }
        assert forall|k: nat, n: usize| #[trigger] assured(l, a, id, k, n) implies assured(m, b, id, k, n) by {
            lemma_fresh_one(s, l, a, m, b, new, id, k, n);
        }
    }
}

proof fn lemma_older_one(p: Program, s: Sight, l: Labels, a: HeapView, b: HeapView, young: SlotId, id: SlotId, k: nat, n: usize)
    requires
        labelled(p, s, l, a),
        alike_but(a, b, s.name, young),
        chained(a),
        a.slot(id) is Scope,
        l.ages(id) < l.ages(young),
    ensures
        clear(b, s.name, id, k) == clear(a, s.name, id, k),
        never(l, b, id, k) == never(l, a, id, k),
        assured(l, b, id, k, n) == assured(l, a, id, k, n),
    decreases k,
{
    assert(shape(b, s.name, id) == shape(a, s.name, id));
    assert(linked(a, id)) by {
        assert(around(a, id) == around(a, id));
    }
    if k > 0 {
        if let Some(outer) = around(a, id) {
            lemma_older_one(p, s, l, a, b, young, outer, (k - 1) as nat, n);
        }
    }
}

/// A scope is around none that is older.
pub proof fn lemma_older(p: Program, s: Sight, l: Labels, a: HeapView, b: HeapView, young: SlotId)
    requires
        labelled(p, s, l, a),
        alike_but(a, b, s.name, young),
        chained(a),
    ensures
        forall|id: SlotId| a.slot(id) is Scope && l.ages(id) < l.ages(young) ==> #[trigger] carried(s, l, a, l, b, id),
{
    assert forall|id: SlotId| a.slot(id) is Scope && l.ages(id) < l.ages(young) implies #[trigger] carried(
        s,
        l,
        a,
        l,
        b,
        id,
    ) by {
        assert(shape(b, s.name, id) == shape(a, s.name, id));
        assert forall|k: nat| #[trigger] clear(a, s.name, id, k) implies clear(b, s.name, id, k) by {
            lemma_older_one(p, s, l, a, b, young, id, k, 0);
        }
        assert forall|k: nat| #[trigger] never(l, a, id, k) implies never(l, b, id, k) by {
            lemma_older_one(p, s, l, a, b, young, id, k, 0);
        }
        assert forall|k: nat, n: usize| #[trigger] assured(l, a, id, k, n) implies assured(l, b, id, k, n) by {
            lemma_older_one(p, s, l, a, b, young, id, k, n);
        }
    }
}

proof fn lemma_captured_one(s: Sight, l: Labels, a: HeapView, b: HeapView, gone: SlotId, id: SlotId, k: nat, n: usize)
    requires
        alike_but(a, b, s.name, gone),
        chained(a),
        a.captured(id),
        !a.captured(gone),
    ensures
        never(l, b, id, k) == never(l, a, id, k),
        assured(l, b, id, k, n) == assured(l, a, id, k, n),
    decreases k,
{
    assert(shape(b, s.name, id) == shape(a, s.name, id));
    assert(linked(a, id)) by {
        assert(around(a, id) == around(a, id));
    }
    if k > 0 {
        if let Some(outer) = around(a, id) {
            lemma_captured_one(s, l, a, b, gone, outer, (k - 1) as nat, n);
        }
    }
}

/// A scope that is not captured is around none that is.
pub proof fn lemma_captured(s: Sight, l: Labels, a: HeapView, b: HeapView, gone: SlotId)
    requires
        alike_but(a, b, s.name, gone),
        chained(a),
        !a.captured(gone),
    ensures
        forall|id: SlotId, k: nat| a.captured(id) ==> #[trigger] never(l, b, id, k) == never(l, a, id, k),
        forall|id: SlotId, k: nat, n: usize| a.captured(id) ==> #[trigger] assured(l, b, id, k, n) == assured(l, a, id, k, n),
{
    assert forall|id: SlotId, k: nat| a.captured(id) implies #[trigger] never(l, b, id, k) == never(l, a, id, k) by {
        lemma_captured_one(s, l, a, b, gone, id, k, 0);
    }
    assert forall|id: SlotId, k: nat, n: usize| a.captured(id) implies #[trigger] assured(l, b, id, k, n) == assured(
        l,
        a,
        id,
        k,
        n,
    ) by {
        lemma_captured_one(s, l, a, b, gone, id, k, n);
    }
}

proof fn lemma_around_one(l: Labels, a: HeapView, b: HeapView, id: SlotId, k: nat, n: usize)
    requires
        forall|x: SlotId| #[trigger] around(b, x) == around(a, x),
    ensures
        never(l, b, id, k) == never(l, a, id, k),
        assured(l, b, id, k, n) == assured(l, a, id, k, n),
    decreases k,
{
    assert(around(b, id) == around(a, id));
    if k > 0 {
        if let Some(outer) = around(a, id) {
            lemma_around_one(l, a, b, outer, (k - 1) as nat, n);
        }
    }
}

/// What never changes does not depend on what the scopes bind.
pub proof fn lemma_around(l: Labels, a: HeapView, b: HeapView)
    requires
        forall|x: SlotId| #[trigger] around(b, x) == around(a, x),
    ensures
        forall|id: SlotId, k: nat| #[trigger] never(l, b, id, k) == never(l, a, id, k),
        forall|id: SlotId, k: nat, n: usize| #[trigger] assured(l, b, id, k, n) == assured(l, a, id, k, n),
{
    assert forall|id: SlotId, k: nat| #[trigger] never(l, b, id, k) == never(l, a, id, k) by {
        lemma_around_one(l, a, b, id, k, 0);
    }
    assert forall|id: SlotId, k: nat, n: usize| #[trigger] assured(l, b, id, k, n) == assured(l, a, id, k, n) by {
        lemma_around_one(l, a, b, id, k, n);
    }
}

/// What never binds the name does not bind it now.
pub proof fn lemma_never_clear(p: Program, s: Sight, l: Labels, heap: HeapView, id: SlotId, k: nat)
    requires
        labelled(p, s, l, heap),
        never(l, heap, id, k),
    ensures
        clear(heap, s.name, id, k),
    decreases k,
{
    if k > 0 {
        assert(!has_key(heap.bindings(id), s.name)) by {
            if heap.slot(id) is Scope {
            }
        }
        if let Some(outer) = around(heap, id) {
            lemma_never_clear(p, s, l, heap, outer, (k - 1) as nat);
        }
    }
}

/// In scopes that do not bind a name it is not found.
pub proof fn lemma_clear_unresolved(heap: HeapView, name: Seq<char>, id: SlotId, k: nat)
    requires
        clear(heap, name, id, k),
    ensures
        heap.resolve_within(id, name, k) is None,
    decreases k,
{
    if k > 0 {
        if let SlotView::Scope { bindings, parent, .. } = heap.slot(id) {
            assert(heap.bindings(id) == bindings);
            if let Some(outer) = parent {
                assert(around(heap, id) == Some(outer));
                lemma_clear_unresolved(heap, name, outer, (k - 1) as nat);
            }
        }
    }
}

pub proof fn lemma_fine_carried(p: Program, s: Sight, l: Labels, a: HeapView, m: Labels, b: HeapView, frame: Frame, id: SlotId)
    requires
        carried(s, l, a, m, b, id),
        fine(p, s, l, a, frame, id),
    ensures
        fine(p, s, m, b, frame, id),
{
    assert forall|job: JobView| #[trigger] runs(p, frame, job) implies s.lives(job) && suits(s, m, b, job, id) by {
        assert(suits(s, l, a, job, id));
        assert forall|k: nat| #[trigger] s.hides(job, k) implies clear(b, s.name, id, k) by {
            assert(clear(a, s.name, id, k));
        }
        assert forall|k: nat| #[trigger] s.bars(job, k) implies never(m, b, id, k) by {
            assert(never(l, a, id, k));
        }
        assert forall|k: nat, n: usize| #[trigger] s.knows(job, k, n) implies assured(m, b, id, k, n) by {
            assert(assured(l, a, id, k, n));
        }
    }
    if let Frame::AssignName(target) = frame {
        assert forall|k: nat| #[trigger] s.aims(target, k) implies clear(b, s.name, id, k) by {
            assert(clear(a, s.name, id, k));
        }
    }
}

/// Frames stay settled when what holds of their scopes is carried over.
pub proof fn lemma_resettled(
    p: Program,
    s: Sight,
    l: Labels,
    a: HeapView,
    m: Labels,
    b: HeapView,
    frames: Seq<Frame>,
    scope: SlotId,
    dead: bool,
    limit: nat,
)
    requires
        settled(p, s, l, a, frames, scope, dead),
        forall|id: SlotId| a.slot(id) is Scope && l.ages(id) < limit ==> #[trigger] carried(s, l, a, m, b, id),
        a.slot(scope) is Scope,
        l.ages(scope) < limit,
    ensures
        settled(p, s, m, b, frames, scope, dead),
    decreases frames.len(),
{
    if frames.len() > 0 {
        let frame = frames.last();
        let rest = frames.drop_last();
        let id = below(frame, scope);
        assert(carried(s, l, a, m, b, scope));
        assert(carried(s, l, a, m, b, id));
        if !skipped(frame, dead) {
            lemma_fine_carried(p, s, l, a, m, b, frame, id);
            assert(may_bind(p, s, m, frame, id, rest, dead)) by {
                if let Some(statement) = binder(p, s, frame) {
                    assert forall|n: usize| #[trigger] m.sures(id, n) implies arity_of(p, statement) == Some(n) by {
                        assert(m.sures(id, n) == l.sures(id, n));
                    }
                }
            }
        }
        lemma_resettled(p, s, l, a, m, b, rest, id, deadens(p, frame, dead), limit);
    }
}

/// One more frame that leaves no scope.
pub proof fn lemma_settled_push(p: Program, s: Sight, l: Labels, heap: HeapView, frames: Seq<Frame>, scope: SlotId, frame: Frame)
    requires
        settled(p, s, l, heap, frames, scope, deadens(p, frame, false)),
        !leaves(frame),
        heap.slot(scope) is Scope,
        starts_loop(frame, scope),
        fine(p, s, l, heap, frame, scope),
        may_bind(p, s, l, frame, scope, frames, false),
    ensures
        settled(p, s, l, heap, frames.push(frame), scope, false),
{
    assert(frames.push(frame).drop_last() =~= frames);
}

/// What is known of a piece holds of its scope where what is known of the piece around it does.
pub proof fn lemma_piece(p: Program, s: Sight, l: Labels, heap: HeapView, whole: JobView, piece: JobView, id: SlotId)
    requires
        consistent(p, s),
        s.lives(whole),
        suits(s, l, heap, whole, id),
        part(p, whole, piece),
    ensures
        s.lives(piece),
        suits(s, l, heap, piece, id),
{
    assert(over(s, whole, piece));
    assert forall|k: nat| #[trigger] s.hides(piece, k) implies clear(heap, s.name, id, k) by {
        assert(s.hides(whole, k));
    }
    assert forall|k: nat| #[trigger] s.bars(piece, k) implies never(l, heap, id, k) by {
        assert(s.bars(whole, k));
    }
    assert forall|k: nat, a: usize| #[trigger] s.knows(piece, k, a) implies assured(l, heap, id, k, a) by {
        assert(s.knows(whole, k, a));
    }
}

/// The links of an access suit the scope that it does.
pub proof fn lemma_chain_fine(p: Program, s: Sight, l: Labels, heap: HeapView, chain: Chain, frame: Frame, id: SlotId)
    requires
        consistent(p, s),
        s.lives(JobView::Expression(chain.access)),
        suits(s, l, heap, JobView::Expression(chain.access), id),
        forall|job: JobView| #[trigger] runs(p, frame, job) ==> continues(p, chain, job),
        !(frame is AssignName),
    ensures
        fine(p, s, l, heap, frame, id),
{
    assert forall|job: JobView| #[trigger] runs(p, frame, job) implies s.lives(job) && suits(s, l, heap, job, id) by {
        assert(continues(p, chain, job));
        if let JobView::Expression(x) = job {
            let links = chain_links(p, chain);
            if linked_to(links, x) {
                let i = choose|i: int| 0 <= i < links.len() && holds_expr(#[trigger] links[i], x);
                if let ExpressionKind::Access { base, links: all } = p.expr(chain.access).kind {
                    assert(all@[i] == links[i]);
                    assert(linked_to(all@, x));
                }
            }
            assert(part(p, JobView::Expression(chain.access), job));
            lemma_piece(p, s, l, heap, JobView::Expression(chain.access), job, id);
        }
    }
}

} // verus!

//! What the walk over a tree finds, as steps on a stack of jobs.
//!
//! A function body does not run where it is written: closures capture by reference, so a body may
//! read what its block declares later. Every body therefore waits until the block that defines it
//! has been walked, when that block's scope holds everything it will ever hold. A block further out may
//! still be under way then: a name that it declares further on may be bound by the time the body runs, so
//! nothing is said of it in the body.

use vstd::prelude::*;
use crate::ast::AccessKind;
use crate::ast::AccessLink;
use crate::ast::BlockId;
use crate::ast::ConditionalBranch;
use crate::ast::ExprId;
use crate::ast::ExpressionKind;
use crate::ast::Function;
use crate::ast::Identifier;
use crate::ast::ObjectEntry;
use crate::ast::Program;
use crate::ast::Statement;
use crate::ast::StatementKind;
use crate::check::Policy;
use crate::check::operands::binary_finding;
use crate::check::operands::inside;
use crate::check::operands::unary_finding;
use crate::diagnostics::Category;
use crate::diagnostics::Code;
use crate::diagnostics::DiagnosticView;
use crate::diagnostics::Severity;
use crate::diagnostics::Span;
use crate::diagnostics::error_of;
use crate::diagnostics::through_spec;
use crate::diagnostics::warning_of;
use crate::interpreter::semantics::arity_message;
use crate::interpreter::semantics::undeclared;
use crate::interpreter::semantics::undeclared_assignment;
use crate::table::has_key;
use crate::table::put;
use crate::table::value_of;
use crate::text::holds;

verus! {

/// One name bound in one scope.
#[derive(Debug, Clone, Copy, PartialEq, Eq, Structural)]
pub struct Binding {
    /// Where the name is declared.
    pub span: Span,
    /// The parameter count, when the name certainly holds a function that the Script declares.
    pub arity: Option<usize>,
    /// Whether a name that is never read is worth reporting.
    pub report_unused: bool,
    pub read: bool,
}

/// The names of one scope in declaration order, and the functions whose bodies wait for its end.
#[verifier::ext_equal]
pub ghost struct ScopeView {
    pub bindings: Seq<(Seq<char>, Binding)>,
    pub deferred: Seq<Function>,
    /// The names that the `let`s of the block declare, each with whether a body read it ahead of that.
    pub lets: Seq<(Seq<char>, bool)>,
    /// Whether the scope is that of a function's body.
    pub body: bool,
    /// The statements that it was opened for.
    pub statements: Seq<Statement>,
    /// The names that it was opened with.
    pub seed: Seq<(Seq<char>, Span)>,
}

/// One thing left to walk.
#[verifier::ext_equal]
pub ghost enum JobView {
    /// Open a scope with the seed's names, hoist the named functions, and walk the statements.
    Open { statements: Seq<Statement>, seed: Seq<(Seq<char>, Span)>, body: bool },
    Statement(Statement),
    Expression(ExprId),
    /// Bind the name of a `let`, once its initializer has been walked.
    Declare { name: Identifier, arity: Option<usize> },
    /// Walk one body that waits in the innermost scope, and come back.
    Deferred,
    /// Report what the innermost scope never read, and drop the scope.
    Close,
}

/// The walk between two jobs. The next job is the last one.
#[verifier::ext_equal]
pub ghost struct WalkView {
    pub jobs: Seq<JobView>,
    pub scopes: Seq<ScopeView>,
    pub findings: Seq<DiagnosticView>,
}

/// Whether a statement assigns to the bare name `name`.
pub open spec fn assigns(p: Program, statement: Statement, name: Seq<char>) -> bool {
    statement.kind matches StatementKind::Assignment { target, .. } && p.expr(target).kind
        matches ExpressionKind::Identifier(identifier) && identifier.name@ == name
}

/// Whether one of some statements assigns to `name`.
pub open spec fn assigned_in(p: Program, statements: Seq<Statement>, name: Seq<char>) -> bool {
    exists|i: int| 0 <= i < statements.len() && assigns(p, #[trigger] statements[i], name)
}

/// Whether `name` is assigned to anywhere in the Script.
pub open spec fn reassigned(p: Program, name: Seq<char>) -> bool {
    assigned_in(p, p.statements@, name) || exists|b: int|
        0 <= b < p.blocks@.len() && assigned_in(p, (#[trigger] p.blocks@[b]).statements@, name)
}

/// The parameter count of an initializer that is written as a function literal.
pub open spec fn function_arity(p: Program, initializer: ExprId) -> Option<usize> {
    match inside(p, initializer) {
        Some(ExpressionKind::Function(function)) => Some(function.parameters.len()),
        _ => None,
    }
}

/// A use of a construct that the policy switches off.
pub open spec fn disabled(construct: Seq<char>, toggle: Seq<char>, span: Span) -> DiagnosticView {
    error_of(
        Category::Policy,
        Code::CONSTRUCT_DISABLED,
        "`"@ + construct + "` is disabled by the `"@ + toggle + "` policy toggle"@,
        span,
    )
}

pub open spec fn duplicate(name: Seq<char>, span: Span) -> DiagnosticView {
    error_of(
        Category::Syntax,
        Code::DUPLICATE_DECLARATION,
        "expected a new binding name; `"@ + name + "` is already declared in this scope"@,
        span,
    )
}

pub open spec fn unused(name: Seq<char>, span: Span) -> DiagnosticView {
    warning_of(Category::Reference, Code::UNUSED_VARIABLE, "`"@ + name + "` is declared but never read"@, span)
}

pub open spec fn never_runs(keyword: Seq<char>, span: Span) -> DiagnosticView {
    warning_of(
        Category::Syntax,
        Code::UNREACHABLE_CODE,
        "this code can never run: the block always `"@ + keyword + "`s before it"@,
        span,
    )
}

pub open spec fn unknown_function(name: Seq<char>, span: Span) -> DiagnosticView {
    error_of(
        Category::Capability,
        Code::UNKNOWN_FUNCTION,
        "`"@ + name + "` is neither declared in this script nor a function this caller says is callable"@,
        span,
    )
}

/// The keyword of a statement that ends its block.
pub open spec fn terminator(kind: StatementKind) -> Option<Seq<char>> {
    match kind {
        StatementKind::Return { .. } => Some("return"@),
        StatementKind::Break { .. } => Some("break"@),
        StatementKind::Continue { .. } => Some("continue"@),
        _ => None,
    }
}

/// The first statement from `k` on that ends the block, or the number of statements.
pub open spec fn first_terminator(statements: Seq<Statement>, k: int) -> int
    decreases statements.len() - k,
{
    if k < 0 || k >= statements.len() || terminator(statements[k].kind) is Some {
        k
    } else {
        first_terminator(statements, k + 1)
    }
}

/// The first statement from `k` on that declares no function, or the number of statements.
pub open spec fn first_plain(statements: Seq<Statement>, k: int) -> int
    decreases statements.len() - k,
{
    if k < 0 || k >= statements.len() || !(statements[k].kind is Function) {
        k
    } else {
        first_plain(statements, k + 1)
    }
}

/// The warning on the first statement that can never run. A named function is hoisted, so its
/// declaration always takes effect.
pub open spec fn dead_code(statements: Seq<Statement>) -> Option<DiagnosticView> {
    let at = first_terminator(statements, 0);
    let first = first_plain(statements, at + 1);
    if at < statements.len() && first < statements.len() {
        Some(never_runs(terminator(statements[at].kind)->0, statements[first].span))
    } else {
        None
    }
}

/// Whether statement `k` of a block is walked: up to the one that ends the block, and every named
/// function.
pub open spec fn walked(statements: Seq<Statement>, k: int) -> bool {
    k <= first_terminator(statements, 0) || statements[k].kind is Function
}

/// The jobs of the statements from `k` on that are walked, the first one last.
pub open spec fn statement_jobs(statements: Seq<Statement>, k: int) -> Seq<JobView>
    decreases statements.len() - k,
{
    if k < 0 || k >= statements.len() {
        Seq::empty()
    } else if walked(statements, k) {
        statement_jobs(statements, k + 1).push(JobView::Statement(statements[k]))
    } else {
        statement_jobs(statements, k + 1)
    }
}

/// The jobs of the expressions from `k` on, the first one last.
pub open spec fn expression_jobs(ids: Seq<ExprId>, k: int) -> Seq<JobView>
    decreases ids.len() - k,
{
    if k < 0 || k >= ids.len() {
        Seq::empty()
    } else {
        expression_jobs(ids, k + 1).push(JobView::Expression(ids[k]))
    }
}

/// The jobs of the entries from `k` on, the first one last.
pub open spec fn entry_jobs(entries: Seq<ObjectEntry>, k: int) -> Seq<JobView>
    decreases entries.len() - k,
{
    if k < 0 || k >= entries.len() {
        Seq::empty()
    } else {
        entry_jobs(entries, k + 1).push(JobView::Expression(entries[k].value))
    }
}

/// The jobs of one link.
pub open spec fn link_jobs(link: AccessLink) -> Seq<JobView> {
    match link.kind {
        AccessKind::Call { arguments, .. } => expression_jobs(arguments@, 0),
        AccessKind::Index { expression, .. } => seq![JobView::Expression(expression)],
        AccessKind::Property(_) => Seq::empty(),
    }
}

/// The jobs of the links from `k` on, the first one last.
pub open spec fn links_jobs(links: Seq<AccessLink>, k: int) -> Seq<JobView>
    decreases links.len() - k,
{
    if k < 0 || k >= links.len() {
        Seq::empty()
    } else {
        links_jobs(links, k + 1) + link_jobs(links[k])
    }
}

/// The names that the `let`s among the first `n` statements declare, as far as the statements are walked.
pub open spec fn lets_of(statements: Seq<Statement>, n: int) -> Seq<(Seq<char>, bool)>
    decreases n,
{
    if n <= 0 {
        Seq::empty()
    } else {
        match statements[n - 1].kind {
            StatementKind::Let { name, .. } => if n - 1 <= first_terminator(statements, 0) {
                put(lets_of(statements, n - 1), name.name@, false)
            } else {
                lets_of(statements, n - 1)
            },
            _ => lets_of(statements, n - 1),
        }
    }
}

/// The job of a block's statements.
pub open spec fn block_job(p: Program, body: BlockId, seed: Seq<(Seq<char>, Span)>) -> JobView {
    JobView::Open { statements: p.statements_of(Some(body)), seed, body: false }
}

/// The job of a function's body.
pub open spec fn body_job(p: Program, function: Function) -> JobView {
    JobView::Open { statements: p.statements_of(Some(function.body)), seed: seed_of(function.parameters@), body: true }
}

/// The jobs of the branches from `k` on, the first one last.
pub open spec fn branch_jobs(p: Program, branches: Seq<ConditionalBranch>, k: int) -> Seq<JobView>
    decreases branches.len() - k,
{
    if k < 0 || k >= branches.len() {
        Seq::empty()
    } else {
        branch_jobs(p, branches, k + 1).push(block_job(p, branches[k].body, Seq::empty())).push(
            JobView::Expression(branches[k].condition.expression),
        )
    }
}

/// The names and places of some parameters.
pub open spec fn seed_of(parameters: Seq<Identifier>) -> Seq<(Seq<char>, Span)> {
    Seq::new(parameters.len(), |i: int| (parameters[i].name@, parameters[i].span))
}

/// The innermost of the first `k` scopes that binds `name`.
pub open spec fn resolved(scopes: Seq<ScopeView>, name: Seq<char>, k: int) -> Option<int>
    decreases k,
{
    if k <= 0 {
        None
    } else if has_key(scopes[k - 1].bindings, name) {
        Some(k - 1)
    } else {
        resolved(scopes, name, k - 1)
    }
}

/// The innermost of the first `k` scopes, inside the one that binds `name`, whose block declares `name`
/// further on than a body that waits; `crossed` says whether such a body begins further in.
pub open spec fn awaiting(scopes: Seq<ScopeView>, name: Seq<char>, k: int, crossed: bool) -> Option<int>
    decreases k,
{
    if k <= 0 || has_key(scopes[k - 1].bindings, name) {
        None
    } else if crossed && has_key(scopes[k - 1].lets, name) {
        Some(k - 1)
    } else {
        awaiting(scopes, name, k - 1, crossed || scopes[k - 1].body)
    }
}

/// The warnings on the names from `k` on that were never read, in declaration order.
pub open spec fn unread(bindings: Seq<(Seq<char>, Binding)>, k: int) -> Seq<DiagnosticView>
    decreases k,
{
    if k <= 0 {
        Seq::empty()
    } else if bindings[k - 1].1.report_unused && !bindings[k - 1].1.read {
        unread(bindings, k - 1).push(unused(bindings[k - 1].0, bindings[k - 1].1.span))
    } else {
        unread(bindings, k - 1)
    }
}

impl WalkView {
    pub open spec fn job(self, job: JobView) -> WalkView {
        WalkView { jobs: self.jobs.push(job), ..self }
    }

    pub open spec fn schedule(self, jobs: Seq<JobView>) -> WalkView {
        WalkView { jobs: self.jobs + jobs, ..self }
    }

    pub open spec fn report(self, finding: DiagnosticView) -> WalkView {
        WalkView { findings: self.findings.push(finding), ..self }
    }

    /// Report `finding` if there is one.
    pub open spec fn noted(self, finding: Option<DiagnosticView>) -> WalkView {
        match finding {
            Some(finding) => self.report(finding),
            None => self,
        }
    }

    /// Report a construct unless the policy allows it.
    pub open spec fn allowed(self, allowed: bool, construct: Seq<char>, toggle: Seq<char>, span: Span) -> WalkView {
        if allowed {
            self
        } else {
            self.report(disabled(construct, toggle, span))
        }
    }

    /// Replace the innermost scope.
    pub open spec fn innermost(self, scope: ScopeView) -> WalkView {
        WalkView { scopes: self.scopes.update(self.scopes.len() - 1, scope), ..self }
    }

    /// Whether the innermost scope binds `name`.
    pub open spec fn binds(self, name: Seq<char>) -> bool {
        has_key(self.scopes.last().bindings, name)
    }

    /// Bind `name` in the innermost scope.
    pub open spec fn bind(self, name: Seq<char>, binding: Binding) -> WalkView {
        self.innermost(ScopeView { bindings: put(self.scopes.last().bindings, name, binding), ..self.scopes.last() })
    }

    /// Bind the first `n` names of a seed. A repeated name binds once.
    pub open spec fn seeded(self, seed: Seq<(Seq<char>, Span)>, n: int) -> WalkView
        decreases n,
    {
        if n <= 0 {
            self
        } else {
            let before = self.seeded(seed, n - 1);
            if before.binds(seed[n - 1].0) {
                before
            } else {
                before.bind(seed[n - 1].0, Binding { span: seed[n - 1].1, arity: None, report_unused: false, read: false })
            }
        }
    }

    /// Declare a name of the Script: a name that the scope binds already is reported instead.
    pub open spec fn declared(self, p: Program, name: Identifier, arity: Option<usize>) -> WalkView {
        if self.scopes.len() == 0 {
            self
        } else if self.binds(name.name@) {
            self.report(duplicate(name.name@, name.span))
        } else {
            self.bind(
                name.name@,
                Binding {
                    span: name.span,
                    arity: if reassigned(p, name.name@) {
                        None
                    } else {
                        arity
                    },
                    report_unused: true,
                    read: value_of(self.scopes.last().lets, name.name@) == Some(true),
                },
            )
        }
    }

    /// Declare the named functions among the first `n` statements.
    pub open spec fn hoisted(self, p: Program, statements: Seq<Statement>, n: int) -> WalkView
        decreases n,
    {
        if n <= 0 {
            self
        } else {
            let before = self.hoisted(p, statements, n - 1);
            match statements[n - 1].kind {
                StatementKind::Function { name, function } => before.declared(
                    p,
                    name,
                    Some(function.parameters.len()),
                ),
                _ => before,
            }
        }
    }

    /// A new scope for some statements.
    pub open spec fn entered(self, statements: Seq<Statement>, seed: Seq<(Seq<char>, Span)>, body: bool) -> WalkView {
        WalkView {
            scopes: self.scopes.push(
                ScopeView {
                    bindings: Seq::empty(),
                    deferred: Seq::empty(),
                    lets: lets_of(statements, statements.len() as int),
                    body,
                    statements,
                    seed,
                },
            ),
            ..self
        }
    }

    /// Open a scope and schedule its statements.
    pub open spec fn opened(
        self,
        p: Program,
        statements: Seq<Statement>,
        seed: Seq<(Seq<char>, Span)>,
        body: bool,
    ) -> WalkView {
        self.entered(statements, seed, body).seeded(seed, seed.len() as int).hoisted(p, statements, statements.len() as int).noted(
            dead_code(statements),
        ).job(JobView::Close).job(JobView::Deferred).schedule(statement_jobs(statements, 0))
    }

    /// Take up the last body that waits in the innermost scope.
    pub open spec fn resumed(self, p: Program) -> WalkView {
        if self.scopes.len() == 0 || self.scopes.last().deferred.len() == 0 {
            self
        } else {
            let function = self.scopes.last().deferred.last();
            self.innermost(
                ScopeView { deferred: self.scopes.last().deferred.drop_last(), ..self.scopes.last() },
            ).job(JobView::Deferred).job(body_job(p, function))
        }
    }

    /// Drop the innermost scope.
    pub open spec fn closed(self) -> WalkView {
        if self.scopes.len() == 0 {
            self
        } else {
            let bindings = self.scopes.last().bindings;
            WalkView {
                scopes: self.scopes.drop_last(),
                findings: self.findings + unread(bindings, bindings.len() as int),
                ..self
            }
        }
    }

    /// Where `name` is bound.
    pub open spec fn resolve(self, name: Seq<char>) -> Option<int> {
        resolved(self.scopes, name, self.scopes.len() as int)
    }

    /// The binding that a read of `name` reaches.
    pub open spec fn reached(self, name: Seq<char>) -> Option<Binding> {
        match self.resolve(name) {
            Some(at) => value_of(self.scopes[at].bindings, name),
            None => None,
        }
    }

    /// The block that may have declared `name`, further in than where it is bound, by the time it is
    /// read.
    pub open spec fn awaits(self, name: Seq<char>) -> Option<int> {
        awaiting(self.scopes, name, self.scopes.len() as int, false)
    }

    /// Mark a declaration further on as read.
    pub open spec fn foreseen(self, name: Seq<char>) -> WalkView {
        match self.awaits(name) {
            Some(at) => WalkView {
                scopes: self.scopes.update(
                    at,
                    ScopeView { lets: put(self.scopes[at].lets, name, true), ..self.scopes[at] },
                ),
                ..self
            },
            None => self,
        }
    }

    /// Mark the binding that a read of `name` reaches, and the declaration further on that it may reach.
    pub open spec fn read(self, name: Seq<char>) -> WalkView {
        let ahead = self.foreseen(name);
        match (self.resolve(name), self.reached(name)) {
            (Some(at), Some(binding)) => WalkView {
                scopes: ahead.scopes.update(
                    at,
                    ScopeView {
                        bindings: put(ahead.scopes[at].bindings, name, Binding { read: true, ..binding }),
                        ..ahead.scopes[at]
                    },
                ),
                ..ahead
            },
            _ => ahead,
        }
    }

    /// Let a function's body wait for the end of the innermost scope.
    pub open spec fn defer(self, policy: Policy, function: Function) -> WalkView {
        let noted = self.allowed(policy.callbacks, "function definition"@, "callbacks"@, function.keyword);
        if self.scopes.len() == 0 {
            noted
        } else {
            noted.innermost(
                ScopeView { deferred: self.scopes.last().deferred.push(function), ..self.scopes.last() },
            )
        }
    }

    /// An assignment's target: writing to a bare name does not read it.
    pub open spec fn target(self, p: Program, target: ExprId) -> WalkView {
        match p.expr(target).kind {
            ExpressionKind::Identifier(name) => if self.resolve(name.name@) is None && self.awaits(name.name@) is None {
                self.report(undeclared_assignment(name.name@, name.span))
            } else {
                self
            },
            _ => self.job(JobView::Expression(target)),
        }
    }

    pub open spec fn statement(self, p: Program, policy: Policy, statement: Statement) -> WalkView {
        match statement.kind {
            StatementKind::Let { name, initializer, .. } => self.job(
                JobView::Declare { name, arity: function_arity(p, initializer) },
            ).job(JobView::Expression(initializer)),
            StatementKind::Function { function, .. } => self.defer(policy, function),
            StatementKind::Assignment { target, value, .. } => self.job(JobView::Expression(value)).target(p, target),
            StatementKind::Return { value, .. } => match value {
                Some(value) => self.job(JobView::Expression(value)),
                None => self,
            },
            StatementKind::Block(body) => self.job(block_job(p, body, Seq::empty())),
            StatementKind::If { branches, else_branch } => {
                let span = if branches@.len() == 0 {
                    statement.span
                } else {
                    branches@[0].keyword
                };
                let noted = self.allowed(policy.conditionals, "if"@, "conditionals"@, span);
                let elsewhere = match else_branch {
                    Some(branch) => noted.job(block_job(p, branch.body, Seq::empty())),
                    None => noted,
                };
                elsewhere.schedule(branch_jobs(p, branches@, 0))
            },
            StatementKind::While { keyword, condition, body } => self.allowed(
                policy.loops,
                "while"@,
                "loops"@,
                keyword,
            ).job(block_job(p, body, Seq::empty())).job(JobView::Expression(condition.expression)),
            StatementKind::For { keyword, binding, iterable, body } => self.allowed(
                policy.loops,
                "for"@,
                "loops"@,
                keyword,
            ).job(block_job(p, body, seq![(binding.name@, binding.span)])).job(JobView::Expression(iterable)),
            StatementKind::Break { .. } => self,
            StatementKind::Continue { .. } => self,
            StatementKind::Expression(id) => self.job(JobView::Expression(id)),
        }
    }

    /// A call of a bare name: the Script's own function, or the host's.
    pub open spec fn call(
        self,
        policy: Policy,
        callables: Option<Seq<String>>,
        name: Identifier,
        link: AccessLink,
        passed: nat,
    ) -> WalkView {
        match self.reached(name.name@) {
            Some(binding) => match binding.arity {
                Some(arity) => if passed == arity || self.awaits(name.name@) is Some {
                    self.read(name.name@)
                } else {
                    self.read(name.name@).report(
                        error_of(Category::Arity, Code::ARGUMENT_COUNT, arity_message(passed, arity as nat), link.span),
                    )
                },
                None => self.read(name.name@),
            },
            None => if self.awaits(name.name@) is Some {
                self.read(name.name@)
            } else if !policy.rpc_calls {
                self.report(disabled("call to a Registered Function"@, "rpc_calls"@, name.span))
            } else {
                match callables {
                    Some(list) => if holds(list, name.name@) {
                        self
                    } else {
                        self.report(unknown_function(name.name@, through_spec(name.span, link.span)))
                    },
                    None => self,
                }
            },
        }
    }

    /// An access chain. Only a chain that starts by calling a bare name has a callee to judge.
    pub open spec fn access(
        self,
        p: Program,
        policy: Policy,
        callables: Option<Seq<String>>,
        base: ExprId,
        links: Seq<AccessLink>,
    ) -> WalkView {
        let based = match p.expr(base).kind {
            ExpressionKind::Identifier(name) => if links.len() == 0 {
                self.job(JobView::Expression(base))
            } else {
                match links[0].kind {
                    AccessKind::Call { arguments, .. } => self.call(policy, callables, name, links[0], arguments@.len()),
                    _ => self.job(JobView::Expression(base)),
                }
            },
            _ => self.job(JobView::Expression(base)),
        };
        based.schedule(links_jobs(links, 0))
    }

    pub open spec fn expression(self, p: Program, policy: Policy, callables: Option<Seq<String>>, id: ExprId) -> WalkView {
        match p.expr(id).kind {
            ExpressionKind::Literal(_) => self,
            ExpressionKind::Identifier(name) => if self.reached(name.name@) is None && self.awaits(name.name@) is None {
                self.report(undeclared(name.name@, name.span))
            } else {
                self.read(name.name@)
            },
            ExpressionKind::Group { expression, .. } => self.job(JobView::Expression(expression)),
            ExpressionKind::Unary { operator, operand } => self.noted(unary_finding(p, operator.kind, operand)).job(
                JobView::Expression(operand),
            ),
            ExpressionKind::Binary { left, operator, right } => self.noted(
                binary_finding(p, left, operator.kind, right),
            ).job(JobView::Expression(right)).job(JobView::Expression(left)),
            ExpressionKind::Array { elements, .. } => self.allowed(
                policy.array_literals,
                "array literal"@,
                "array_literals"@,
                p.expr(id).span,
            ).schedule(expression_jobs(elements@, 0)),
            ExpressionKind::Object { entries, .. } => self.allowed(
                policy.object_literals,
                "object literal"@,
                "object_literals"@,
                p.expr(id).span,
            ).schedule(entry_jobs(entries@, 0)),
            ExpressionKind::Access { base, links } => self.access(p, policy, callables, base, links@),
            ExpressionKind::Function(function) => self.defer(policy, function),
        }
    }

    /// Do the next job.
    pub open spec fn step(self, p: Program, policy: Policy, callables: Option<Seq<String>>) -> WalkView {
        if self.jobs.len() == 0 {
            self
        } else {
            let rest = WalkView { jobs: self.jobs.drop_last(), ..self };
            match self.jobs.last() {
                JobView::Open { statements, seed, body } => rest.opened(p, statements, seed, body),
                JobView::Statement(statement) => rest.statement(p, policy, statement),
                JobView::Expression(id) => rest.expression(p, policy, callables, id),
                JobView::Declare { name, arity } => rest.declared(p, name, arity),
                JobView::Deferred => rest.resumed(p),
                JobView::Close => rest.closed(),
            }
        }
    }

    /// Do the next `n` jobs.
    pub open spec fn steps(self, p: Program, policy: Policy, callables: Option<Seq<String>>, n: nat) -> WalkView
        decreases n,
    {
        if n == 0 {
            self
        } else {
            self.steps(p, policy, callables, (n - 1) as nat).step(p, policy, callables)
        }
    }
}

/// The walk before its first job: the starting variables are the names of the outermost scope.
pub open spec fn begun(p: Program, variables: Seq<String>) -> WalkView {
    WalkView {
        jobs: seq![
            JobView::Open {
                statements: p.statements@,
                seed: Seq::new(variables.len(), |i: int| (variables[i]@, p.span)),
                body: false,
            },
        ],
        scopes: Seq::empty(),
        findings: Seq::empty(),
    }
}

/// Where a finding goes among findings in source order: before the first that does not start
/// earlier.
pub open spec fn place(sorted: Seq<DiagnosticView>, offset: usize, k: int) -> int
    decreases sorted.len() - k,
{
    if k < 0 || k >= sorted.len() || sorted[k].span.offset >= offset {
        k
    } else {
        place(sorted, offset, k + 1)
    }
}

/// Findings in source order; of two at one place, the earlier found comes first.
pub open spec fn in_source_order(findings: Seq<DiagnosticView>) -> Seq<DiagnosticView>
    decreases findings.len(),
{
    if findings.len() == 0 {
        findings
    } else {
        let rest = in_source_order(findings.drop_first());
        rest.insert(place(rest, findings[0].span.offset, 0), findings[0])
    }
}

/// Whether `findings` is what the walk of a Script leaves behind when every job is done.
pub open spec fn found(
    p: Program,
    variables: Seq<String>,
    policy: Policy,
    callables: Option<Seq<String>>,
    findings: Seq<DiagnosticView>,
) -> bool {
    exists|n: nat|
        (#[trigger] begun(p, variables).steps(p, policy, callables, n)).jobs.len() == 0 && begun(p, variables).steps(
            p,
            policy,
            callables,
            n,
        ).findings == findings
}

/// What the walk of a Script finds, in the order found.
pub open spec fn walk_findings(
    p: Program,
    variables: Seq<String>,
    policy: Policy,
    callables: Option<Seq<String>>,
) -> Seq<DiagnosticView> {
    choose|findings: Seq<DiagnosticView>| found(p, variables, policy, callables, findings)
}

/// A walk with no job left stays as it is.
proof fn lemma_rests(v: WalkView, p: Program, policy: Policy, callables: Option<Seq<String>>, n: nat, more: nat)
    requires
        v.steps(p, policy, callables, n).jobs.len() == 0,
    ensures
        v.steps(p, policy, callables, n + more) == v.steps(p, policy, callables, n),
    decreases more,
{
    if more > 0 {
        lemma_rests(v, p, policy, callables, n, (more - 1) as nat);
    }
}

/// A walk finds one thing only: the same Script in the same environment always has the same
/// findings.
pub proof fn law_found_once(
    p: Program,
    variables: Seq<String>,
    policy: Policy,
    callables: Option<Seq<String>>,
    a: Seq<DiagnosticView>,
    b: Seq<DiagnosticView>,
)
    requires
        found(p, variables, policy, callables, a),
        found(p, variables, policy, callables, b),
    ensures
        a == b,
{
    let start = begun(p, variables);
    let n = choose|n: nat|
        (#[trigger] start.steps(p, policy, callables, n)).jobs.len() == 0 && start.steps(p, policy, callables, n).findings
            == a;
    let m = choose|m: nat|
        (#[trigger] start.steps(p, policy, callables, m)).jobs.len() == 0 && start.steps(p, policy, callables, m).findings
            == b;
    if n <= m {
        lemma_rests(start, p, policy, callables, n, (m - n) as nat);
    } else {
        lemma_rests(start, p, policy, callables, m, (n - m) as nat);
    }
}

/// Whether findings stand in source order.
pub open spec fn sorted(findings: Seq<DiagnosticView>) -> bool {
    forall|i: int, j: int|
        0 <= i <= j < findings.len() ==> (#[trigger] findings[i]).span.offset <= (#[trigger] findings[j]).span.offset
}

/// The findings at one place.
pub open spec fn starting_at(findings: Seq<DiagnosticView>, offset: usize) -> Seq<DiagnosticView> {
    findings.filter(|d: DiagnosticView| d.span.offset == offset)
}

pub proof fn lemma_place(sorted: Seq<DiagnosticView>, offset: usize, k: int)
    requires
        0 <= k <= sorted.len(),
    ensures
        k <= place(sorted, offset, k) <= sorted.len(),
        forall|i: int| k <= i < place(sorted, offset, k) ==> (#[trigger] sorted[i]).span.offset < offset,
        place(sorted, offset, k) < sorted.len() ==> sorted[place(sorted, offset, k)].span.offset >= offset,
    decreases sorted.len() - k,
{
    if k < sorted.len() && sorted[k].span.offset < offset {
        lemma_place(sorted, offset, k + 1);
    }
}

/// Nothing is left when nothing is wanted.
proof fn lemma_filtered_out(findings: Seq<DiagnosticView>, wanted: spec_fn(DiagnosticView) -> bool)
    requires
        forall|i: int| 0 <= i < findings.len() ==> !wanted(#[trigger] findings[i]),
    ensures
        findings.filter(wanted) == Seq::<DiagnosticView>::empty(),
    decreases findings.len(),
{
    reveal(Seq::filter);
    if findings.len() > 0 {
        assert(!wanted(findings[findings.len() - 1]));
        lemma_filtered_out(findings.drop_last(), wanted);
    }
}

/// Putting findings in source order sorts them, and keeps the findings at each place, and only
/// those, in the order in which they were found.
pub proof fn law_in_source_order(findings: Seq<DiagnosticView>, offset: usize)
    ensures
        sorted(in_source_order(findings)),
        starting_at(in_source_order(findings), offset) == starting_at(findings, offset),
        in_source_order(findings).len() == findings.len(),
    decreases findings.len(),
{
    if findings.len() > 0 {
        let first = findings[0];
        let tail = findings.drop_first();
        law_in_source_order(tail, offset);
        let rest = in_source_order(tail);
        let at = place(rest, first.span.offset, 0);
        lemma_place(rest, first.span.offset, 0);
        let all = rest.insert(at, first);
        assert(sorted(all)) by {
            assert forall|i: int, j: int| 0 <= i <= j < all.len() implies (#[trigger] all[i]).span.offset
                <= (#[trigger] all[j]).span.offset by {
                let a = if i < at { i } else { i - 1 };
                let b = if j < at { j } else { j - 1 };
                if i != at && j != at {
                    assert(rest[a].span.offset <= rest[b].span.offset);
                } else if i == at && j > at {
                    assert(rest[at].span.offset <= rest[j - 1].span.offset);
                }
            }
        }
        let here = |d: DiagnosticView| d.span.offset == offset;
        let before = rest.take(at);
        let after = rest.skip(at);
        assert(rest =~= before + after);
        assert(all =~= (before + seq![first]) + after);
        assert(findings =~= seq![first] + tail);
        Seq::filter_distributes_over_add(before, after, here);
        Seq::filter_distributes_over_add(before + seq![first], after, here);
        Seq::filter_distributes_over_add(before, seq![first], here);
        Seq::filter_distributes_over_add(seq![first], tail, here);
        if first.span.offset == offset {
            lemma_filtered_out(before, here);
            assert(all.filter(here) =~= findings.filter(here));
        } else {
            lemma_filtered_out(seq![first], here);
            assert(all.filter(here) =~= findings.filter(here));
        }
    }
}

/// What the settings leave room for: a policy finding takes a construct that is switched off, and an
/// unknown function takes a list of callable names. Only warnings on dead code and unused names do
/// not reject a Script.
pub open spec fn explained(policy: Policy, callables: Option<Seq<String>>, finding: DiagnosticView) -> bool {
    &&& finding.category == Category::Policy ==> !policy.all_on()
    &&& finding.category == Category::Capability ==> callables is Some && policy.rpc_calls
    &&& finding.code == Code::UNKNOWN_FUNCTION@ ==> callables is Some && policy.rpc_calls
    &&& finding.severity == Severity::Warning ==> finding.code == Code::UNREACHABLE_CODE@ || finding.code
        == Code::UNUSED_VARIABLE@
}

/// No other finding has the code of an unknown function.
proof fn lemma_codes_differ()
    ensures
        Code::CONSTRUCT_DISABLED@ != Code::UNKNOWN_FUNCTION@,
        Code::DUPLICATE_DECLARATION@ != Code::UNKNOWN_FUNCTION@,
        Code::UNUSED_VARIABLE@ != Code::UNKNOWN_FUNCTION@,
        Code::UNREACHABLE_CODE@ != Code::UNKNOWN_FUNCTION@,
        Code::ARGUMENT_COUNT@ != Code::UNKNOWN_FUNCTION@,
        Code::UNDECLARED_IDENTIFIER@ != Code::UNKNOWN_FUNCTION@,
        Code::UNDECLARED_ASSIGNMENT@ != Code::UNKNOWN_FUNCTION@,
        Code::OPERAND_MISMATCH@ != Code::UNKNOWN_FUNCTION@,
        Code::DIVISION_BY_ZERO@ != Code::UNKNOWN_FUNCTION@,
{
    reveal_strlit("capability.unknown_function");
    reveal_strlit("policy.construct_disabled");
    reveal_strlit("syntax.duplicate_declaration");
    reveal_strlit("reference.unused_variable");
    reveal_strlit("syntax.unreachable_code");
    reveal_strlit("arity.argument_count");
    reveal_strlit("reference.undeclared_identifier");
    reveal_strlit("reference.undeclared_assignment");
    reveal_strlit("type.operand_mismatch");
    reveal_strlit("arithmetic.division_by_zero");
    assert(Code::UNKNOWN_FUNCTION@[0] == 'c');
    assert(Code::CONSTRUCT_DISABLED@[0] == 'p');
    assert(Code::DUPLICATE_DECLARATION@[0] == 's');
    assert(Code::UNUSED_VARIABLE@[0] == 'r');
    assert(Code::UNREACHABLE_CODE@[0] == 's');
    assert(Code::ARGUMENT_COUNT@[0] == 'a');
    assert(Code::UNDECLARED_IDENTIFIER@[0] == 'r');
    assert(Code::UNDECLARED_ASSIGNMENT@[0] == 'r');
    assert(Code::OPERAND_MISMATCH@[0] == 't');
    assert(Code::DIVISION_BY_ZERO@[0] == 'a');
}

spec fn all_explained(v: WalkView, policy: Policy, callables: Option<Seq<String>>) -> bool {
    forall|i: int| 0 <= i < v.findings.len() ==> explained(policy, callables, #[trigger] v.findings[i])
}

proof fn lemma_seeded_explained(v: WalkView, seed: Seq<(Seq<char>, Span)>, n: int)
    ensures
        v.seeded(seed, n).findings == v.findings,
    decreases n,
{
    if n > 0 {
        lemma_seeded_explained(v, seed, n - 1);
    }
}

proof fn lemma_hoisted_explained(
    v: WalkView,
    p: Program,
    statements: Seq<Statement>,
    n: int,
    policy: Policy,
    callables: Option<Seq<String>>,
)
    requires
        all_explained(v, policy, callables),
    ensures
        all_explained(v.hoisted(p, statements, n), policy, callables),
    decreases n,
{
    lemma_codes_differ();
    if n > 0 {
        lemma_hoisted_explained(v, p, statements, n - 1, policy, callables);
    }
}

proof fn lemma_unread_explained(
    bindings: Seq<(Seq<char>, Binding)>,
    k: int,
    policy: Policy,
    callables: Option<Seq<String>>,
)
    ensures
        forall|i: int| 0 <= i < unread(bindings, k).len() ==> explained(policy, callables, #[trigger] unread(bindings, k)[i]),
    decreases k,
{
    lemma_codes_differ();
    if k > 0 {
        lemma_unread_explained(bindings, k - 1, policy, callables);
        let before = unread(bindings, k - 1);
        let all = unread(bindings, k);
        assert forall|i: int| 0 <= i < all.len() implies explained(policy, callables, #[trigger] all[i]) by {
            if i < before.len() {
                assert(all[i] == before[i]);
            }
        }
    }
}

proof fn lemma_step_explained(v: WalkView, p: Program, policy: Policy, callables: Option<Seq<String>>)
    requires
        all_explained(v, policy, callables),
    ensures
        all_explained(v.step(p, policy, callables), policy, callables),
{
    lemma_codes_differ();
    if v.jobs.len() > 0 {
        let rest = WalkView { jobs: v.jobs.drop_last(), ..v };
        match v.jobs.last() {
            JobView::Open { statements, seed, body } => {
                let pushed = rest.entered(statements, seed, body);
                lemma_seeded_explained(pushed, seed, seed.len() as int);
                lemma_hoisted_explained(
                    pushed.seeded(seed, seed.len() as int),
                    p,
                    statements,
                    statements.len() as int,
                    policy,
                    callables,
                );
            },
            JobView::Close => {
                if rest.scopes.len() > 0 {
                    let bindings = rest.scopes.last().bindings;
                    lemma_unread_explained(bindings, bindings.len() as int, policy, callables);
                }
            },
            _ => {},
        }
    }
}

proof fn lemma_steps_explained(v: WalkView, p: Program, policy: Policy, callables: Option<Seq<String>>, n: nat)
    requires
        all_explained(v, policy, callables),
    ensures
        all_explained(v.steps(p, policy, callables, n), policy, callables),
    decreases n,
{
    if n > 0 {
        lemma_steps_explained(v, p, policy, callables, (n - 1) as nat);
        lemma_step_explained(v.steps(p, policy, callables, (n - 1) as nat), p, policy, callables);
    }
}

/// Every finding is explained: with every construct on there is no policy finding, without a list
/// of callable names no finding has the code of an unknown function, and nothing but dead code and unused names is a mere
/// warning.
pub proof fn law_findings_explained(
    p: Program,
    variables: Seq<String>,
    policy: Policy,
    callables: Option<Seq<String>>,
    findings: Seq<DiagnosticView>,
)
    requires
        found(p, variables, policy, callables, findings),
    ensures
        forall|i: int| 0 <= i < findings.len() ==> explained(policy, callables, #[trigger] findings[i]),
{
    let start = begun(p, variables);
    let n = choose|n: nat|
        (#[trigger] start.steps(p, policy, callables, n)).jobs.len() == 0 && start.steps(p, policy, callables, n).findings
            == findings;
    lemma_steps_explained(start, p, policy, callables, n);
}

/// The `loops` toggle decides the finding on a loop and nothing else: with loops off, a `while` or a
/// `for` is one error on its keyword; with loops on, it is none. What is walked next is the same.
pub proof fn law_loop_toggle(v: WalkView, p: Program, policy: Policy, other: Policy, statement: Statement)
    requires
        statement.kind is While || statement.kind is For,
    ensures
        policy.loops ==> v.statement(p, policy, statement).findings == v.findings,
        !policy.loops ==> v.statement(p, policy, statement).findings == v.findings.push(
            DiagnosticView {
                severity: Severity::Error,
                category: Category::Policy,
                code: Code::CONSTRUCT_DISABLED@,
                message: match statement.kind {
                    StatementKind::While { .. } => "`while` is disabled by the `loops` policy toggle"@,
                    _ => "`for` is disabled by the `loops` policy toggle"@,
                },
                span: match statement.kind {
                    StatementKind::While { keyword, .. } => keyword,
                    StatementKind::For { keyword, .. } => keyword,
                    _ => statement.span,
                },
            },
        ),
        v.statement(p, policy, statement).jobs == v.statement(p, other, statement).jobs,
        v.statement(p, policy, statement).scopes == v.scopes,
{
    reveal_strlit("`");
    reveal_strlit("while");
    reveal_strlit("for");
    reveal_strlit("loops");
    reveal_strlit("` is disabled by the `");
    reveal_strlit("` policy toggle");
    reveal_strlit("`while` is disabled by the `loops` policy toggle");
    reveal_strlit("`for` is disabled by the `loops` policy toggle");
    assert("`"@ + "while"@ + "` is disabled by the `"@ + "loops"@ + "` policy toggle"@
        =~= "`while` is disabled by the `loops` policy toggle"@);
    assert("`"@ + "for"@ + "` is disabled by the `"@ + "loops"@ + "` policy toggle"@
        =~= "`for` is disabled by the `loops` policy toggle"@);
}

} // verus!

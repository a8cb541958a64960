//! Why the walk ends: what is left to walk gets lighter with every job.

use vstd::prelude::*;
use crate::ast::AccessLink;
use crate::ast::BlockId;
use crate::ast::ConditionalBranch;
use crate::ast::ExprId;
use crate::ast::ExpressionKind;
use crate::ast::Function;
use crate::ast::Identifier;
use crate::ast::ObjectEntry;
use crate::ast::Program;
use crate::ast::Statement;
use crate::ast::StatementKind;
use crate::ast::Weights;
use crate::check::Policy;
use crate::check::walk::JobView;
use crate::check::walk::ScopeView;
use crate::check::walk::WalkView;
use crate::check::walk::awaiting;
use crate::check::walk::block_job;
use crate::check::walk::body_job;
use crate::check::walk::branch_jobs;
use crate::check::walk::entry_jobs;
use crate::check::walk::expression_jobs;
use crate::check::walk::link_jobs;
use crate::check::walk::links_jobs;
use crate::check::walk::resolved;
use crate::check::walk::seed_of;
use crate::check::walk::statement_jobs;
use crate::check::walk::dead_code;
use crate::diagnostics::Span;
use crate::table::has_key;

verus! {

/// What a job weighs.
pub open spec fn job_weight(w: Weights, job: JobView) -> nat {
    match job {
        JobView::Open { statements, .. } => 3 + w.statements(statements, 0),
        JobView::Statement(statement) => w.statement(statement),
        JobView::Expression(id) => w.expr(id),
        JobView::Declare { .. } | JobView::Deferred | JobView::Close => 1,
    }
}

/// What some jobs weigh.
pub open spec fn jobs_weight(w: Weights, jobs: Seq<JobView>) -> nat
    decreases jobs.len(),
{
    if jobs.len() == 0 {
        0
    } else {
        jobs_weight(w, jobs.drop_last()) + job_weight(w, jobs.last())
    }
}

/// What some waiting bodies weigh.
pub open spec fn waiting_weight(w: Weights, functions: Seq<Function>) -> nat
    decreases functions.len(),
{
    if functions.len() == 0 {
        0
    } else {
        waiting_weight(w, functions.drop_last()) + 1 + w.block(functions.last().body)
    }
}

/// What the bodies that wait in some scopes weigh.
pub open spec fn scopes_weight(w: Weights, scopes: Seq<ScopeView>) -> nat
    decreases scopes.len(),
{
    if scopes.len() == 0 {
        0
    } else {
        scopes_weight(w, scopes.drop_last()) + waiting_weight(w, scopes.last().deferred)
    }
}

/// What is left to walk.
pub open spec fn walk_weight(w: Weights, v: WalkView) -> nat {
    jobs_weight(w, v.jobs) + scopes_weight(w, v.scopes)
}

/// Whether the same bodies wait.
pub open spec fn same_waiting(a: Seq<ScopeView>, b: Seq<ScopeView>) -> bool {
    &&& a.len() == b.len()
    &&& forall|i: int| 0 <= i < a.len() ==> (#[trigger] a[i]).deferred == b[i].deferred
}

pub open spec fn jobs_fit(p: Program, jobs: Seq<JobView>) -> bool {
    forall|i: int| 0 <= i < jobs.len() ==> (#[trigger] jobs[i]).fits(p)
}

proof fn lemma_joined(w: Weights, a: Seq<JobView>, b: Seq<JobView>)
    ensures
        jobs_weight(w, a + b) == jobs_weight(w, a) + jobs_weight(w, b),
    decreases b.len(),
{
    if b.len() == 0 {
        assert(a + b =~= a);
    } else {
        assert((a + b).drop_last() =~= a + b.drop_last());
        lemma_joined(w, a, b.drop_last());
    }
}

proof fn lemma_pushed(w: Weights, jobs: Seq<JobView>, job: JobView)
    ensures
        jobs_weight(w, jobs.push(job)) == jobs_weight(w, jobs) + job_weight(w, job),
{
    assert(jobs.push(job).drop_last() =~= jobs);
}

proof fn lemma_same_waiting(w: Weights, a: Seq<ScopeView>, b: Seq<ScopeView>)
    requires
        same_waiting(a, b),
    ensures
        scopes_weight(w, a) == scopes_weight(w, b),
    decreases a.len(),
{
    if a.len() > 0 {
        assert(a[a.len() - 1].deferred == b[b.len() - 1].deferred);
        assert forall|i: int| 0 <= i < a.drop_last().len() implies (#[trigger] a.drop_last()[i]).deferred
            == b.drop_last()[i].deferred by {
            assert(a[i].deferred == b[i].deferred);
        }
        lemma_same_waiting(w, a.drop_last(), b.drop_last());
    }
}

proof fn lemma_innermost(w: Weights, scopes: Seq<ScopeView>, scope: ScopeView)
    requires
        scopes.len() > 0,
    ensures
        scopes_weight(w, scopes.update(scopes.len() - 1, scope)) + waiting_weight(w, scopes.last().deferred)
            == scopes_weight(w, scopes) + waiting_weight(w, scope.deferred),
{
    let after = scopes.update(scopes.len() - 1, scope);
    assert(after.drop_last() =~= scopes.drop_last());
}

proof fn lemma_statement_jobs(p: Program, w: Weights, statements: Seq<Statement>, k: int)
    requires
        0 <= k,
        p.statements_ok(statements),
    ensures
        jobs_weight(w, statement_jobs(statements, k)) <= w.statements(statements, k),
        jobs_fit(p, statement_jobs(statements, k)),
    decreases statements.len() - k,
{
    if k < statements.len() {
        lemma_statement_jobs(p, w, statements, k + 1);
        lemma_pushed(w, statement_jobs(statements, k + 1), JobView::Statement(statements[k]));
        assert(p.statement_ok(statements[k]));
    }
}

proof fn lemma_expression_jobs(p: Program, w: Weights, ids: Seq<ExprId>, k: int)
    requires
        0 <= k,
        p.has_exprs(ids),
    ensures
        jobs_weight(w, expression_jobs(ids, k)) == w.exprs(ids, k),
        jobs_fit(p, expression_jobs(ids, k)),
    decreases ids.len() - k,
{
    if k < ids.len() {
        lemma_expression_jobs(p, w, ids, k + 1);
        lemma_pushed(w, expression_jobs(ids, k + 1), JobView::Expression(ids[k]));
        assert(p.has_expr(ids[k]));
    }
}

proof fn lemma_entry_jobs(p: Program, w: Weights, entries: Seq<ObjectEntry>, k: int)
    requires
        0 <= k,
        forall|i: int| 0 <= i < entries.len() ==> p.has_expr((#[trigger] entries[i]).value),
    ensures
        jobs_weight(w, entry_jobs(entries, k)) == w.entries(entries, k),
        jobs_fit(p, entry_jobs(entries, k)),
    decreases entries.len() - k,
{
    if k < entries.len() {
        lemma_entry_jobs(p, w, entries, k + 1);
        lemma_pushed(w, entry_jobs(entries, k + 1), JobView::Expression(entries[k].value));
    }
}

proof fn lemma_links_jobs(p: Program, w: Weights, links: Seq<AccessLink>, k: int)
    requires
        0 <= k,
        forall|i: int| 0 <= i < links.len() ==> p.link_ok(#[trigger] links[i]),
    ensures
        jobs_weight(w, links_jobs(links, k)) == w.links(links, k),
        jobs_fit(p, links_jobs(links, k)),
    decreases links.len() - k,
{
    if k < links.len() {
        lemma_links_jobs(p, w, links, k + 1);
        lemma_joined(w, links_jobs(links, k + 1), link_jobs(links[k]));
        assert(p.link_ok(links[k]));
        match links[k].kind {
            crate::ast::AccessKind::Call { arguments, .. } => {
                lemma_expression_jobs(p, w, arguments@, 0);
            },
            crate::ast::AccessKind::Index { expression, .. } => {
                lemma_pushed(w, Seq::empty(), JobView::Expression(expression));
                assert(link_jobs(links[k]) =~= Seq::<JobView>::empty().push(JobView::Expression(expression)));
            },
            crate::ast::AccessKind::Property(_) => {},
        }
    }
}

proof fn lemma_block_job(p: Program, w: Weights, body: BlockId, seed: Seq<(Seq<char>, Span)>)
    requires
        p.wf(),
        p.weighs(w),
        p.has_block(body),
    ensures
        job_weight(w, block_job(p, body, seed)) <= w.block(body),
        block_job(p, body, seed).fits(p),
{
    assert(w.blocks[body.0 as int] >= 3 + w.statements(p.blocks@[body.0 as int].statements@, 0));
}

proof fn lemma_branch_jobs(p: Program, w: Weights, branches: Seq<ConditionalBranch>, k: int)
    requires
        0 <= k,
        p.wf(),
        p.weighs(w),
        forall|i: int|
            0 <= i < branches.len() ==> p.has_expr((#[trigger] branches[i]).condition.expression) && p.has_block(
                branches[i].body,
            ),
    ensures
        jobs_weight(w, branch_jobs(p, branches, k)) <= w.branches(branches, k),
        jobs_fit(p, branch_jobs(p, branches, k)),
    decreases branches.len() - k,
{
    if k < branches.len() {
        lemma_branch_jobs(p, w, branches, k + 1);
        let later = branch_jobs(p, branches, k + 1);
        let body = block_job(p, branches[k].body, Seq::empty());
        lemma_block_job(p, w, branches[k].body, Seq::empty());
        lemma_pushed(w, later, body);
        lemma_pushed(w, later.push(body), JobView::Expression(branches[k].condition.expression));
    }
}

proof fn lemma_seeded(v: WalkView, seed: Seq<(Seq<char>, Span)>, n: int)
    requires
        v.scopes.len() > 0,
    ensures
        same_waiting(v.seeded(seed, n).scopes, v.scopes),
        v.seeded(seed, n).jobs == v.jobs,
    decreases n,
{
    if n > 0 {
        lemma_seeded(v, seed, n - 1);
    }
}

proof fn lemma_declared(p: Program, v: WalkView, name: Identifier, arity: Option<usize>)
    ensures
        same_waiting(v.declared(p, name, arity).scopes, v.scopes),
        v.declared(p, name, arity).jobs == v.jobs,
{
}

proof fn lemma_hoisted(p: Program, v: WalkView, statements: Seq<Statement>, n: int)
    ensures
        same_waiting(v.hoisted(p, statements, n).scopes, v.scopes),
        v.hoisted(p, statements, n).jobs == v.jobs,
    decreases n,
{
    if n > 0 {
        let before = v.hoisted(p, statements, n - 1);
        lemma_hoisted(p, v, statements, n - 1);
        if let StatementKind::Function { name, function } = statements[n - 1].kind {
            lemma_declared(p, before, name, Some(function.parameters.len()));
        }
    }
}

proof fn lemma_resolved(scopes: Seq<ScopeView>, name: Seq<char>, k: int)
    requires
        k <= scopes.len(),
    ensures
        resolved(scopes, name, k) matches Some(at) ==> 0 <= at < k && has_key(scopes[at].bindings, name),
    decreases k,
{
    if k > 0 {
        lemma_resolved(scopes, name, k - 1);
    }
}

proof fn lemma_awaiting(scopes: Seq<ScopeView>, name: Seq<char>, k: int, crossed: bool)
    requires
        k <= scopes.len(),
    ensures
        awaiting(scopes, name, k, crossed) matches Some(at) ==> 0 <= at < k,
    decreases k,
{
    if k > 0 {
        lemma_awaiting(scopes, name, k - 1, crossed || scopes[k - 1].body);
    }
}

proof fn lemma_read(v: WalkView, name: Seq<char>)
    ensures
        same_waiting(v.read(name).scopes, v.scopes),
        v.read(name).jobs == v.jobs,
{
    lemma_resolved(v.scopes, name, v.scopes.len() as int);
    lemma_awaiting(v.scopes, name, v.scopes.len() as int, false);
}

/// Some scopes fit when others with the same waiting bodies do.
proof fn lemma_waiting_fits(p: Program, a: Seq<ScopeView>, b: Seq<ScopeView>)
    requires
        same_waiting(a, b),
        forall|i: int| 0 <= i < b.len() ==> (#[trigger] b[i]).fits(p),
    ensures
        forall|i: int| 0 <= i < a.len() ==> (#[trigger] a[i]).fits(p),
{
    assert forall|i: int| 0 <= i < a.len() implies (#[trigger] a[i]).fits(p) by {
        assert(b[i].fits(p));
        assert(a[i].deferred == b[i].deferred);
    }
}

proof fn lemma_open(
    p: Program,
    w: Weights,
    v: WalkView,
    statements: Seq<Statement>,
    seed: Seq<(Seq<char>, Span)>,
    body: bool,
)
    requires
        p.wf(),
        v.fits(p),
        p.statements_ok(statements),
    ensures
        walk_weight(w, v.opened(p, statements, seed, body)) < walk_weight(w, v) + 3 + w.statements(statements, 0),
        v.opened(p, statements, seed, body).fits(p),
{
    let pushed = v.entered(statements, seed, body);
    let seeded = pushed.seeded(seed, seed.len() as int);
    let hoisted = seeded.hoisted(p, statements, statements.len() as int);
    let noted = hoisted.noted(dead_code(statements));
    lemma_seeded(pushed, seed, seed.len() as int);
    lemma_hoisted(p, seeded, statements, statements.len() as int);
    assert(same_waiting(hoisted.scopes, pushed.scopes)) by {
        assert forall|i: int| 0 <= i < hoisted.scopes.len() implies (#[trigger] hoisted.scopes[i]).deferred
            == pushed.scopes[i].deferred by {
            assert(hoisted.scopes[i].deferred == seeded.scopes[i].deferred);
        }
    }
    lemma_same_waiting(w, hoisted.scopes, pushed.scopes);
    assert(pushed.scopes.drop_last() =~= v.scopes);
    assert(forall|i: int| 0 <= i < pushed.scopes.len() ==> (#[trigger] pushed.scopes[i]).fits(p));
    lemma_waiting_fits(p, hoisted.scopes, pushed.scopes);
    lemma_pushed(w, v.jobs, JobView::Close);
    lemma_pushed(w, v.jobs.push(JobView::Close), JobView::Deferred);
    lemma_statement_jobs(p, w, statements, 0);
    lemma_joined(w, v.jobs.push(JobView::Close).push(JobView::Deferred), statement_jobs(statements, 0));
    assert(noted.jobs == v.jobs);
}

proof fn lemma_defer(p: Program, w: Weights, policy: Policy, v: WalkView, function: Function)
    requires
        v.fits(p),
        p.has_block(function.body),
    ensures
        walk_weight(w, v.defer(policy, function)) <= walk_weight(w, v) + 1 + w.block(function.body),
        v.defer(policy, function).fits(p),
{
    if v.scopes.len() > 0 {
        let before = v.scopes.last();
        let scope = ScopeView { deferred: before.deferred.push(function), ..before };
        lemma_innermost(w, v.scopes, scope);
        assert(before.deferred.push(function).drop_last() =~= before.deferred);
        assert(v.scopes[v.scopes.len() - 1].fits(p));
    }
}

proof fn lemma_job(p: Program, w: Weights, v: WalkView, job: JobView)
    requires
        v.fits(p),
        job.fits(p),
    ensures
        walk_weight(w, v.job(job)) == walk_weight(w, v) + job_weight(w, job),
        v.job(job).fits(p),
{
    lemma_pushed(w, v.jobs, job);
}

proof fn lemma_schedule(p: Program, w: Weights, v: WalkView, jobs: Seq<JobView>)
    requires
        v.fits(p),
        jobs_fit(p, jobs),
    ensures
        walk_weight(w, v.schedule(jobs)) == walk_weight(w, v) + jobs_weight(w, jobs),
        v.schedule(jobs).fits(p),
{
    lemma_joined(w, v.jobs, jobs);
}

proof fn lemma_statement(p: Program, w: Weights, policy: Policy, v: WalkView, statement: Statement)
    requires
        p.wf(),
        p.weighs(w),
        v.fits(p),
        p.statement_ok(statement),
    ensures
        walk_weight(w, v.statement(p, policy, statement)) < walk_weight(w, v) + w.statement(statement),
        v.statement(p, policy, statement).fits(p),
{
    match statement.kind {
        StatementKind::Let { name, initializer, .. } => {
            let declare = JobView::Declare { name, arity: crate::check::walk::function_arity(p, initializer) };
            lemma_job(p, w, v, declare);
            lemma_job(p, w, v.job(declare), JobView::Expression(initializer));
        },
        StatementKind::Function { function, .. } => {
            lemma_defer(p, w, policy, v, function);
        },
        StatementKind::Assignment { target, value, .. } => {
            let valued = v.job(JobView::Expression(value));
            lemma_job(p, w, v, JobView::Expression(value));
            lemma_job(p, w, valued, JobView::Expression(target));
        },
        StatementKind::Return { value, .. } => {
            if let Some(value) = value {
                lemma_job(p, w, v, JobView::Expression(value));
            }
        },
        StatementKind::Block(body) => {
            lemma_block_job(p, w, body, Seq::empty());
            lemma_job(p, w, v, block_job(p, body, Seq::empty()));
        },
        StatementKind::If { branches, else_branch } => {
            let span = if branches@.len() == 0 {
                statement.span
            } else {
                branches@[0].keyword
            };
            let noted = v.allowed(policy.conditionals, "if"@, "conditionals"@, span);
            lemma_branch_jobs(p, w, branches@, 0);
            match else_branch {
                Some(branch) => {
                    let job = block_job(p, branch.body, Seq::empty());
                    lemma_block_job(p, w, branch.body, Seq::empty());
                    lemma_job(p, w, noted, job);
                    lemma_schedule(p, w, noted.job(job), branch_jobs(p, branches@, 0));
                },
                None => {
                    lemma_schedule(p, w, noted, branch_jobs(p, branches@, 0));
                },
            }
        },
        StatementKind::While { keyword, condition, body } => {
            let noted = v.allowed(policy.loops, "while"@, "loops"@, keyword);
            let job = block_job(p, body, Seq::empty());
            lemma_block_job(p, w, body, Seq::empty());
            lemma_job(p, w, noted, job);
            lemma_job(p, w, noted.job(job), JobView::Expression(condition.expression));
        },
        StatementKind::For { keyword, binding, iterable, body } => {
            let noted = v.allowed(policy.loops, "for"@, "loops"@, keyword);
            let seed = seq![(binding.name@, binding.span)];
            let job = block_job(p, body, seed);
            lemma_block_job(p, w, body, seed);
            lemma_job(p, w, noted, job);
            lemma_job(p, w, noted.job(job), JobView::Expression(iterable));
        },
        StatementKind::Break { .. } => {},
        StatementKind::Continue { .. } => {},
        StatementKind::Expression(id) => {
            lemma_job(p, w, v, JobView::Expression(id));
        },
    }
}

proof fn lemma_read_keeps(p: Program, w: Weights, v: WalkView, name: Seq<char>)
    requires
        v.fits(p),
    ensures
        walk_weight(w, v.read(name)) == walk_weight(w, v),
        v.read(name).fits(p),
{
    lemma_read(v, name);
    lemma_same_waiting(w, v.read(name).scopes, v.scopes);
    lemma_waiting_fits(p, v.read(name).scopes, v.scopes);
}

proof fn lemma_access(
    p: Program,
    w: Weights,
    policy: Policy,
    callables: Option<Seq<String>>,
    v: WalkView,
    base: ExprId,
    links: Seq<AccessLink>,
)
    requires
        v.fits(p),
        p.has_expr(base),
        forall|i: int| 0 <= i < links.len() ==> p.link_ok(#[trigger] links[i]),
    ensures
        walk_weight(w, v.access(p, policy, callables, base, links)) <= walk_weight(w, v) + w.expr(base) + w.links(links, 0),
        v.access(p, policy, callables, base, links).fits(p),
{
    lemma_links_jobs(p, w, links, 0);
    let walked = v.job(JobView::Expression(base));
    lemma_job(p, w, v, JobView::Expression(base));
    lemma_schedule(p, w, walked, links_jobs(links, 0));
    if let ExpressionKind::Identifier(name) = p.expr(base).kind {
        if links.len() > 0 {
            if let crate::ast::AccessKind::Call { arguments, .. } = links[0].kind {
                lemma_read_keeps(p, w, v, name.name@);
                let called = v.call(policy, callables, name, links[0], arguments@.len());
                assert(called.jobs == v.jobs);
                assert(called.scopes == v.scopes || called.scopes == v.read(name.name@).scopes);
                lemma_schedule(p, w, called, links_jobs(links, 0));
            }
        }
    }
}

proof fn lemma_expression(p: Program, w: Weights, policy: Policy, callables: Option<Seq<String>>, v: WalkView, id: ExprId)
    requires
        p.wf(),
        p.weighs(w),
        v.fits(p),
        p.has_expr(id),
    ensures
        walk_weight(w, v.expression(p, policy, callables, id)) < walk_weight(w, v) + w.expr(id),
        v.expression(p, policy, callables, id).fits(p),
{
    assert(p.expression_ok(p.expr(id)));
    assert(w.expressions[id.0 as int] >= 2 + w.held_by(p.expressions@[id.0 as int].kind));
    match p.expr(id).kind {
        ExpressionKind::Literal(_) => {},
        ExpressionKind::Identifier(name) => {
            lemma_read_keeps(p, w, v, name.name@);
        },
        ExpressionKind::Group { expression, .. } => {
            lemma_job(p, w, v, JobView::Expression(expression));
        },
        ExpressionKind::Unary { operator, operand } => {
            let noted = v.noted(crate::check::operands::unary_finding(p, operator.kind, operand));
            lemma_job(p, w, noted, JobView::Expression(operand));
        },
        ExpressionKind::Binary { left, operator, right } => {
            let noted = v.noted(crate::check::operands::binary_finding(p, left, operator.kind, right));
            lemma_job(p, w, noted, JobView::Expression(right));
            lemma_job(p, w, noted.job(JobView::Expression(right)), JobView::Expression(left));
        },
        ExpressionKind::Array { elements, .. } => {
            let noted = v.allowed(policy.array_literals, "array literal"@, "array_literals"@, p.expr(id).span);
            lemma_expression_jobs(p, w, elements@, 0);
            lemma_schedule(p, w, noted, expression_jobs(elements@, 0));
        },
        ExpressionKind::Object { entries, .. } => {
            let noted = v.allowed(policy.object_literals, "object literal"@, "object_literals"@, p.expr(id).span);
            lemma_entry_jobs(p, w, entries@, 0);
            lemma_schedule(p, w, noted, entry_jobs(entries@, 0));
        },
        ExpressionKind::Access { base, links } => {
            lemma_access(p, w, policy, callables, v, base, links@);
        },
        ExpressionKind::Function(function) => {
            lemma_defer(p, w, policy, v, function);
        },
    }
}

/// Every job leaves a lighter walk of the same tree.
pub proof fn lemma_step(p: Program, w: Weights, policy: Policy, callables: Option<Seq<String>>, v: WalkView)
    requires
        p.wf(),
        p.weighs(w),
        v.fits(p),
        v.jobs.len() > 0,
    ensures
        walk_weight(w, v.step(p, policy, callables)) < walk_weight(w, v),
        v.step(p, policy, callables).fits(p),
{
    let rest = WalkView { jobs: v.jobs.drop_last(), ..v };
    let last = v.jobs.last();
    assert(v.jobs[v.jobs.len() - 1].fits(p));
    assert(rest.fits(p)) by {
        assert forall|i: int| 0 <= i < rest.jobs.len() implies (#[trigger] rest.jobs[i]).fits(p) by {
            assert(v.jobs[i].fits(p));
        }
    }
    match last {
        JobView::Open { statements, seed, body } => {
            lemma_open(p, w, rest, statements, seed, body);
        },
        JobView::Statement(statement) => {
            lemma_statement(p, w, policy, rest, statement);
        },
        JobView::Expression(id) => {
            lemma_expression(p, w, policy, callables, rest, id);
        },
        JobView::Declare { name, arity } => {
            let after = rest.declared(p, name, arity);
            lemma_declared(p, rest, name, arity);
            lemma_same_waiting(w, after.scopes, rest.scopes);
            lemma_waiting_fits(p, after.scopes, rest.scopes);
        },
        JobView::Deferred => {
            if rest.scopes.len() > 0 && rest.scopes.last().deferred.len() > 0 {
                let before = rest.scopes.last();
                let function = before.deferred.last();
                let scope = ScopeView { deferred: before.deferred.drop_last(), ..before };
                let inner = rest.innermost(scope);
                assert(rest.scopes[rest.scopes.len() - 1].fits(p));
                assert(p.has_block(before.deferred[before.deferred.len() - 1].body));
                lemma_innermost(w, rest.scopes, scope);
                assert(scope.fits(p)) by {
                    assert forall|i: int| 0 <= i < scope.deferred.len() implies p.has_block(
                        (#[trigger] scope.deferred[i]).body,
                    ) by {
                        assert(p.has_block(before.deferred[i].body));
                    }
                }
                lemma_job(p, w, inner, JobView::Deferred);
                let job = body_job(p, function);
                lemma_block_job(p, w, function.body, seed_of(function.parameters@));
                lemma_job(p, w, inner.job(JobView::Deferred), job);
            }
        },
        JobView::Close => {
            if rest.scopes.len() > 0 {
                let after = rest.closed();
                assert forall|i: int| 0 <= i < after.scopes.len() implies (#[trigger] after.scopes[i]).fits(p) by {
                    assert(rest.scopes[i].fits(p));
                }
            }
        },
    }
}

} // verus!

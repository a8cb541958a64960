//! What the check notices wherever it can run: constructs that are switched off, names that nothing declares,
//! calls that nothing answers, and operands that never fit.

use vstd::prelude::*;
use crate::ast::AccessKind;
use crate::ast::AccessLink;
use crate::ast::BlockId;
use crate::ast::ExprId;
use crate::ast::ExpressionKind;
use crate::ast::Function;
use crate::ast::Program;
use crate::ast::Statement;
use crate::ast::StatementKind;
use crate::check::Policy;
use crate::check::operands::binary_finding;
use crate::check::operands::unary_finding;
use crate::check::seeing::lemma_entered;
use crate::check::seeing::lemma_place_of;
use crate::check::seeing::lemma_statement_met;
use crate::check::seeing::place_of;
use crate::check::seeing::scope_of;
use crate::check::seeing::visits;
use crate::check::telling::ends;
use crate::check::telling::law_everything_is_looked_at;
use crate::check::telling::lemma_before_the_end;
use crate::check::telling::lemma_told;
use crate::check::telling::lemma_tour;
use crate::check::telling::told;
use crate::check::telling::tour_of;
use crate::check::telling::way;
use crate::check::touring::lemma_come_to;
use crate::check::touring::lemma_done;
use crate::check::touring::lemma_popped;
use crate::check::touring::lemma_steady;
use crate::check::visits::Tour;
use crate::check::visits::calls_name;
use crate::check::visits::closes;
use crate::check::visits::grown;
use crate::check::visits::lemma_grown_self;
use crate::check::walk::Binding;
use crate::check::walk::JobView;
use crate::check::walk::ScopeView;
use crate::check::walk::WalkView;
use crate::check::walk::awaiting;
use crate::check::walk::begun;
use crate::check::walk::branch_jobs;
use crate::check::walk::entry_jobs;
use crate::check::walk::expression_jobs;
use crate::check::walk::first_terminator;
use crate::check::walk::found;
use crate::check::walk::in_source_order;
use crate::check::walk::lets_of;
use crate::check::walk::links_jobs;
use crate::check::walk::resolved;
use crate::check::walk::statement_jobs;
use crate::check::walk::unread;
use crate::check::walk::unused;
use crate::diagnostics::Category;
use crate::diagnostics::DiagnosticView;
use crate::diagnostics::Severity;
use crate::diagnostics::Span;
use crate::diagnostics::through_spec;
use crate::table::has_key;
use crate::table::put;

verus! {

/// An error of a kind, at a place.
pub open spec fn an_error(category: Category, code: Seq<char>, message: Seq<char>, span: Span) -> DiagnosticView {
    DiagnosticView { severity: Severity::Error, category, code, message, span }
}

/// What the step that looks at a piece finds is told.
proof fn lemma_found_at(
    p: Program,
    names: Seq<String>,
    policy: Policy,
    callables: Option<Seq<String>>,
    findings: Seq<DiagnosticView>,
    path: Seq<JobView>,
) -> (n: nat)
    requires
        found(p, names, policy, callables, findings),
        way(p, names, path),
        path.last() matches JobView::Expression(id) ==> forall|other: ExprId| !#[trigger] calls_name(p, other, id),
    ensures
        tour_of(p, names, policy, callables).after(n).jobs.len() > 0,
        tour_of(p, names, policy, callables).after(n).jobs.last() == path.last(),
        forall|i: int|
            0 <= i < tour_of(p, names, policy, callables).after(n).step(p, policy, callables).findings.len() ==> told(
                in_source_order(findings),
                #[trigger] tour_of(p, names, policy, callables).after(n).step(p, policy, callables).findings[i],
            ),
{
    let t = tour_of(p, names, policy, callables);
    let end = lemma_tour(p, names, policy, callables, findings);
    law_everything_is_looked_at(t, end, path);
    let n = choose|n: nat| #[trigger] visits(t, n, path.last());
    let after = t.after(n).step(p, policy, callables);
    assert(after == t.stepped(t.after(n)));
    assert forall|i: int| 0 <= i < after.findings.len() implies told(in_source_order(findings), #[trigger] after.findings[i]) by {
        lemma_told(t, end, n, i);
    }
    n
}

/// A statement that can run and is switched off is told, at its keyword: `while` and `for` by the toggle for loops,
/// and `if` by the one for conditionals.
pub proof fn law_disabled_statements_are_told(
    p: Program,
    names: Seq<String>,
    policy: Policy,
    callables: Option<Seq<String>>,
    findings: Seq<DiagnosticView>,
    path: Seq<JobView>,
    statement: Statement,
)
    requires
        found(p, names, policy, callables, findings),
        way(p, names, path),
        path.last() == JobView::Statement(statement),
    ensures
        !policy.loops ==> (statement.kind matches StatementKind::While { keyword, .. } ==> told(
            in_source_order(findings),
            an_error(
                Category::Policy,
                "policy.construct_disabled"@,
                "`"@ + "while"@ + "` is disabled by the `"@ + "loops"@ + "` policy toggle"@,
                keyword,
            ),
        )),
        !policy.loops ==> (statement.kind matches StatementKind::For { keyword, .. } ==> told(
            in_source_order(findings),
            an_error(
                Category::Policy,
                "policy.construct_disabled"@,
                "`"@ + "for"@ + "` is disabled by the `"@ + "loops"@ + "` policy toggle"@,
                keyword,
            ),
        )),
        !policy.conditionals ==> (statement.kind matches StatementKind::If { branches, .. } ==> branches@.len() > 0 ==> told(
            in_source_order(findings),
            an_error(
                Category::Policy,
                "policy.construct_disabled"@,
                "`"@ + "if"@ + "` is disabled by the `"@ + "conditionals"@ + "` policy toggle"@,
                branches@[0].keyword,
            ),
        )),
{
    let t = tour_of(p, names, policy, callables);
    let n = lemma_found_at(p, names, policy, callables, findings, path);
    let v = t.after(n);
    let rest = WalkView { jobs: v.jobs.drop_last(), ..v };
    let after = v.step(p, policy, callables);
    assert(after == rest.statement(p, policy, statement));
    if (!policy.loops && (statement.kind is While || statement.kind is For)) || (!policy.conditionals && statement.kind is If) {
        assert(after.findings.len() == v.findings.len() + 1);
        assert(told(in_source_order(findings), after.findings[v.findings.len() as int]));
    }
}

/// An expression that can run and is switched off is told: array literals, object literals, and functions.
pub proof fn law_disabled_expressions_are_told(
    p: Program,
    names: Seq<String>,
    policy: Policy,
    callables: Option<Seq<String>>,
    findings: Seq<DiagnosticView>,
    path: Seq<JobView>,
    id: ExprId,
)
    requires
        found(p, names, policy, callables, findings),
        way(p, names, path),
        path.last() == JobView::Expression(id),
    ensures
        !policy.array_literals && p.expr(id).kind is Array ==> told(
            in_source_order(findings),
            an_error(
                Category::Policy,
                "policy.construct_disabled"@,
                "`"@ + "array literal"@ + "` is disabled by the `"@ + "array_literals"@ + "` policy toggle"@,
                p.expr(id).span,
            ),
        ),
        !policy.object_literals && p.expr(id).kind is Object ==> told(
            in_source_order(findings),
            an_error(
                Category::Policy,
                "policy.construct_disabled"@,
                "`"@ + "object literal"@ + "` is disabled by the `"@ + "object_literals"@ + "` policy toggle"@,
                p.expr(id).span,
            ),
        ),
        !policy.callbacks ==> (p.expr(id).kind matches ExpressionKind::Function(function) ==> told(
            in_source_order(findings),
            an_error(
                Category::Policy,
                "policy.construct_disabled"@,
                "`"@ + "function definition"@ + "` is disabled by the `"@ + "callbacks"@ + "` policy toggle"@,
                function.keyword,
            ),
        )),
{
    if p.expr(id).kind is Array || p.expr(id).kind is Object || p.expr(id).kind is Function {
        let t = tour_of(p, names, policy, callables);
        let n = lemma_found_at(p, names, policy, callables, findings, path);
        let v = t.after(n);
        let rest = WalkView { jobs: v.jobs.drop_last(), ..v };
        let after = v.step(p, policy, callables);
        assert(after == rest.expression(p, policy, callables, id));
        if after.findings.len() == v.findings.len() + 1 {
            assert(told(in_source_order(findings), after.findings[v.findings.len() as int]));
        }
    }
}

/// Literal operands that an operator never takes are told wherever the operator can run.
pub proof fn law_misfit_operands_are_told(
    p: Program,
    names: Seq<String>,
    policy: Policy,
    callables: Option<Seq<String>>,
    findings: Seq<DiagnosticView>,
    path: Seq<JobView>,
    id: ExprId,
)
    requires
        found(p, names, policy, callables, findings),
        way(p, names, path),
        path.last() == JobView::Expression(id),
    ensures
        p.expr(id).kind matches ExpressionKind::Binary { left, operator, right } ==> (binary_finding(p, left, operator.kind, right)
            matches Some(finding) ==> told(in_source_order(findings), finding)),
        p.expr(id).kind matches ExpressionKind::Unary { operator, operand } ==> (unary_finding(p, operator.kind, operand)
            matches Some(finding) ==> told(in_source_order(findings), finding)),
{
    if p.expr(id).kind is Binary || p.expr(id).kind is Unary {
        let t = tour_of(p, names, policy, callables);
        let n = lemma_found_at(p, names, policy, callables, findings, path);
        let v = t.after(n);
        let rest = WalkView { jobs: v.jobs.drop_last(), ..v };
        let after = v.step(p, policy, callables);
        assert(after == rest.expression(p, policy, callables, id));
        if after.findings.len() == v.findings.len() + 1 {
            assert(told(in_source_order(findings), after.findings[v.findings.len() as int]));
        }
    }
}

/// Whether a function has no parameter with a name.
pub open spec fn takes_no(function: Function, name: Seq<char>) -> bool {
    forall|i: int| 0 <= i < function.parameters@.len() ==> (#[trigger] function.parameters@[i]).name@ != name
}

/// Whether a statement declares nothing with a name.
pub open spec fn declares_no(statement: Statement, name: Seq<char>) -> bool {
    match statement.kind {
        StatementKind::Let { name: bound, .. } => bound.name@ != name,
        StatementKind::Function { name: bound, function } => bound.name@ != name && takes_no(function, name),
        StatementKind::For { binding, .. } => binding.name@ != name,
        _ => true,
    }
}

/// Whether nothing in a Script, and no starting variable, has a name.
pub open spec fn nowhere_declared(p: Program, names: Seq<String>, name: Seq<char>) -> bool {
    &&& forall|i: int| 0 <= i < names.len() ==> (#[trigger] names[i])@ != name
    &&& forall|block: Option<BlockId>, k: int|
        0 <= k < p.statements_of(block).len() ==> declares_no(#[trigger] p.statements_of(block)[k], name)
    &&& forall|id: ExprId| (#[trigger] p.expr(id)).kind matches ExpressionKind::Function(function) ==> takes_no(function, name)
}

/// Whether a statement declares nothing with a name but at one place, if there is one.
pub open spec fn declares_only(statement: Statement, name: Seq<char>, sp: Option<Span>) -> bool {
    match statement.kind {
        StatementKind::Let { name: bound, .. } => bound.name@ == name ==> sp == Some(bound.span),
        StatementKind::Function { name: bound, function } => (bound.name@ == name ==> sp == Some(bound.span)) && takes_no(
            function,
            name,
        ),
        StatementKind::For { binding, .. } => binding.name@ != name,
        _ => true,
    }
}

/// Whether a name is declared at one place only, and then nowhere read; or nowhere declared.
pub open spec fn declared_only(p: Program, names: Seq<String>, name: Seq<char>, sp: Option<Span>) -> bool {
    &&& forall|i: int| 0 <= i < names.len() ==> (#[trigger] names[i])@ != name
    &&& forall|block: Option<BlockId>, k: int|
        0 <= k < p.statements_of(block).len() ==> declares_only(#[trigger] p.statements_of(block)[k], name, sp)
    &&& forall|id: ExprId| (#[trigger] p.expr(id)).kind matches ExpressionKind::Function(function) ==> takes_no(function, name)
    &&& sp is Some ==> forall|id: ExprId| (#[trigger] p.expr(id)).kind matches ExpressionKind::Identifier(node) ==> node.name@
        != name
}

proof fn lemma_nowhere(p: Program, names: Seq<String>, name: Seq<char>)
    requires
        nowhere_declared(p, names, name),
    ensures
        declared_only(p, names, name, None),
{
    assert forall|block: Option<BlockId>, k: int| 0 <= k < p.statements_of(block).len() implies declares_only(
        #[trigger] p.statements_of(block)[k],
        name,
        None,
    ) by {
        assert(declares_no(p.statements_of(block)[k], name));
    }
}

spec fn clean_seed(seed: Seq<(Seq<char>, Span)>, name: Seq<char>) -> bool {
    forall|i: int| 0 <= i < seed.len() ==> (#[trigger] seed[i]).0 != name
}

spec fn clean_block(statements: Seq<Statement>, name: Seq<char>, sp: Option<Span>) -> bool {
    forall|k: int| 0 <= k < statements.len() ==> declares_only(#[trigger] statements[k], name, sp)
}

spec fn clean_job(job: JobView, name: Seq<char>, sp: Option<Span>) -> bool {
    match job {
        JobView::Open { statements, seed, .. } => clean_block(statements, name, sp) && clean_seed(seed, name),
        JobView::Statement(statement) => declares_only(statement, name, sp),
        JobView::Declare { name: bound, .. } => bound.name@ == name ==> sp == Some(bound.span),
        _ => true,
    }
}

spec fn clean_jobs(jobs: Seq<JobView>, name: Seq<char>, sp: Option<Span>) -> bool {
    forall|i: int| 0 <= i < jobs.len() ==> clean_job(#[trigger] jobs[i], name, sp)
}

spec fn clean_scope(scope: ScopeView, name: Seq<char>, sp: Option<Span>) -> bool {
    &&& forall|i: int|
        0 <= i < scope.bindings.len() && (#[trigger] scope.bindings[i]).0 == name ==> sp == Some(scope.bindings[i].1.span)
            && scope.bindings[i].1.report_unused && !scope.bindings[i].1.read
    &&& forall|i: int| 0 <= i < scope.lets.len() && (#[trigger] scope.lets[i]).0 == name ==> sp is Some && !scope.lets[i].1
    &&& forall|i: int| 0 <= i < scope.deferred.len() ==> takes_no(#[trigger] scope.deferred[i], name)
}

spec fn clean(v: WalkView, name: Seq<char>, sp: Option<Span>) -> bool {
    clean_jobs(v.jobs, name, sp) && forall|i: int| 0 <= i < v.scopes.len() ==> clean_scope(#[trigger] v.scopes[i], name, sp)
}

/// An entry of a list with something put in is one of the list, or what was put in.
proof fn lemma_put_entries<V>(entries: Seq<(Seq<char>, V)>, key: Seq<char>, value: V)
    ensures
        forall|i: int|
            0 <= i < put(entries, key, value).len() ==> (#[trigger] put(entries, key, value)[i]) == (key, value) || (0 <= i
                < entries.len() && put(entries, key, value)[i] == entries[i]),
{
}

proof fn lemma_clean_resolved(v: WalkView, name: Seq<char>, k: int, crossed: bool, sp: Option<Span>)
    requires
        clean(v, name, sp),
        sp is None,
        k <= v.scopes.len(),
    ensures
        resolved(v.scopes, name, k) is None,
        awaiting(v.scopes, name, k, crossed) is None,
    decreases k,
{
    if k > 0 {
        assert(clean_scope(v.scopes[k - 1], name, sp));
        lemma_clean_resolved(v, name, k - 1, crossed || v.scopes[k - 1].body, sp);
        lemma_clean_resolved(v, name, k - 1, crossed, sp);
    }
}

proof fn lemma_clean_expressions(ids: Seq<ExprId>, k: int, name: Seq<char>, sp: Option<Span>)
    ensures
        clean_jobs(expression_jobs(ids, k), name, sp),
    decreases ids.len() - k,
{
    if 0 <= k < ids.len() {
        lemma_clean_expressions(ids, k + 1, name, sp);
    }
}

proof fn lemma_clean_entries(entries: Seq<crate::ast::ObjectEntry>, k: int, name: Seq<char>, sp: Option<Span>)
    ensures
        clean_jobs(entry_jobs(entries, k), name, sp),
    decreases entries.len() - k,
{
    if 0 <= k < entries.len() {
        lemma_clean_entries(entries, k + 1, name, sp);
    }
}

proof fn lemma_clean_links(links: Seq<AccessLink>, k: int, name: Seq<char>, sp: Option<Span>)
    ensures
        clean_jobs(links_jobs(links, k), name, sp),
    decreases links.len() - k,
{
    if 0 <= k < links.len() {
        lemma_clean_links(links, k + 1, name, sp);
        if let AccessKind::Call { arguments, .. } = links[k].kind {
            lemma_clean_expressions(arguments@, 0, name, sp);
        }
    }
}

proof fn lemma_clean_statements(statements: Seq<Statement>, k: int, name: Seq<char>, sp: Option<Span>)
    requires
        clean_block(statements, name, sp),
    ensures
        clean_jobs(statement_jobs(statements, k), name, sp),
    decreases statements.len() - k,
{
    if 0 <= k < statements.len() {
        lemma_clean_statements(statements, k + 1, name, sp);
    }
}

proof fn lemma_clean_body(p: Program, names: Seq<String>, body: BlockId, name: Seq<char>, sp: Option<Span>)
    requires
        declared_only(p, names, name, sp),
    ensures
        clean_block(p.statements_of(Some(body)), name, sp),
{
}

proof fn lemma_clean_branches(p: Program, names: Seq<String>, branches: Seq<crate::ast::ConditionalBranch>, k: int, name: Seq<char>, sp: Option<Span>)
    requires
        declared_only(p, names, name, sp),
    ensures
        clean_jobs(branch_jobs(p, branches, k), name, sp),
    decreases branches.len() - k,
{
    if 0 <= k < branches.len() {
        lemma_clean_branches(p, names, branches, k + 1, name, sp);
        lemma_clean_body(p, names, branches[k].body, name, sp);
    }
}

proof fn lemma_clean_lets(statements: Seq<Statement>, n: int, name: Seq<char>, sp: Option<Span>)
    requires
        clean_block(statements, name, sp),
        n <= statements.len(),
    ensures
        forall|i: int|
            0 <= i < lets_of(statements, n).len() && (#[trigger] lets_of(statements, n)[i]).0 == name ==> sp is Some
                && !lets_of(statements, n)[i].1,
    decreases n,
{
    if n > 0 {
        lemma_clean_lets(statements, n - 1, name, sp);
        assert(declares_only(statements[n - 1], name, sp));
        if let StatementKind::Let { name: bound, .. } = statements[n - 1].kind {
            lemma_put_entries(lets_of(statements, n - 1), bound.name@, false);
        }
        let before = lets_of(statements, n - 1);
        let all = lets_of(statements, n);
        assert forall|i: int| 0 <= i < all.len() && (#[trigger] all[i]).0 == name implies sp is Some && !all[i].1 by {
            if let StatementKind::Let { name: bound, .. } = statements[n - 1].kind {
                if all[i] != (bound.name@, false) {
                    assert(all[i] == before[i]);
                }
            } else {
                assert(all[i] == before[i]);
            }
        }
    }
}

proof fn lemma_clean_bind(v: WalkView, bound: Seq<char>, binding: Binding, name: Seq<char>, sp: Option<Span>)
    requires
        clean(v, name, sp),
        v.scopes.len() > 0,
        bound == name ==> sp == Some(binding.span) && binding.report_unused && !binding.read,
    ensures
        clean(v.bind(bound, binding), name, sp),
        v.bind(bound, binding).scopes.len() == v.scopes.len(),
{
    lemma_put_entries(v.scopes.last().bindings, bound, binding);
    let after = v.bind(bound, binding);
    assert(clean_scope(v.scopes[v.scopes.len() - 1], name, sp));
    assert forall|i: int| 0 <= i < after.scopes.len() implies clean_scope(#[trigger] after.scopes[i], name, sp) by {
        assert(clean_scope(v.scopes[i], name, sp));
    }
}

proof fn lemma_clean_declared(v: WalkView, p: Program, bound: crate::ast::Identifier, arity: Option<usize>, name: Seq<char>, sp: Option<Span>)
    requires
        clean(v, name, sp),
        bound.name@ == name ==> sp == Some(bound.span),
    ensures
        clean(v.declared(p, bound, arity), name, sp),
        v.declared(p, bound, arity).scopes.len() == v.scopes.len(),
{
    if v.scopes.len() > 0 && !v.binds(bound.name@) {
        let lets = v.scopes.last().lets;
        assert(clean_scope(v.scopes[v.scopes.len() - 1], name, sp));
        if bound.name@ == name && has_key(lets, name) {
            assert(lets[crate::table::at(lets, name)].0 == name);
        }
        lemma_clean_bind(
            v,
            bound.name@,
            Binding {
                span: bound.span,
                arity: if crate::check::walk::reassigned(p, bound.name@) { None } else { arity },
                report_unused: true,
                read: crate::table::value_of(v.scopes.last().lets, bound.name@) == Some(true),
            },
            name, sp
        );
    }
}

proof fn lemma_clean_seeded(v: WalkView, seed: Seq<(Seq<char>, Span)>, n: int, name: Seq<char>, sp: Option<Span>)
    requires
        clean(v, name, sp),
        clean_seed(seed, name),
        n <= seed.len(),
        v.scopes.len() > 0,
    ensures
        clean(v.seeded(seed, n), name, sp),
        v.seeded(seed, n).scopes.len() == v.scopes.len(),
    decreases n,
{
    if n > 0 {
        lemma_clean_seeded(v, seed, n - 1, name, sp);
        let before = v.seeded(seed, n - 1);
        assert(seed[n - 1].0 != name);
        if !before.binds(seed[n - 1].0) {
            lemma_clean_bind(
                before,
                seed[n - 1].0,
                Binding { span: seed[n - 1].1, arity: None, report_unused: false, read: false },
                name, sp
            );
        }
    }
}

proof fn lemma_clean_hoisted(v: WalkView, p: Program, statements: Seq<Statement>, n: int, name: Seq<char>, sp: Option<Span>)
    requires
        clean(v, name, sp),
        clean_block(statements, name, sp),
        n <= statements.len(),
    ensures
        clean(v.hoisted(p, statements, n), name, sp),
        v.hoisted(p, statements, n).scopes.len() == v.scopes.len(),
    decreases n,
{
    if n > 0 {
        lemma_clean_hoisted(v, p, statements, n - 1, name, sp);
        assert(declares_only(statements[n - 1], name, sp));
        if let StatementKind::Function { name: bound, function } = statements[n - 1].kind {
            lemma_clean_declared(v.hoisted(p, statements, n - 1), p, bound, Some(function.parameters.len()), name, sp);
        }
    }
}

proof fn lemma_clean_read(v: WalkView, other: Seq<char>, name: Seq<char>, sp: Option<Span>)
    requires
        clean(v, name, sp),
        other != name,
    ensures
        clean(v.read(other), name, sp),
{
    let ahead = v.foreseen(other);
    if let Some(at) = v.awaits(other) {
        crate::check::visits::lemma_awaiting(v.scopes, other, v.scopes.len() as int, false);
        lemma_put_entries(v.scopes[at].lets, other, true);
        assert(clean_scope(v.scopes[at], name, sp));
    }
    assert forall|i: int| 0 <= i < ahead.scopes.len() implies clean_scope(#[trigger] ahead.scopes[i], name, sp) by {
        assert(clean_scope(v.scopes[i], name, sp));
    }
    crate::check::visits::lemma_resolved(v.scopes, other, v.scopes.len() as int);
    let after = v.read(other);
    if let (Some(at), Some(binding)) = (v.resolve(other), v.reached(other)) {
        lemma_put_entries(ahead.scopes[at].bindings, other, Binding { read: true, ..binding });
        assert(clean_scope(ahead.scopes[at], name, sp));
        assert forall|i: int| 0 <= i < after.scopes.len() implies clean_scope(#[trigger] after.scopes[i], name, sp) by {
            assert(clean_scope(ahead.scopes[i], name, sp));
        }
    }
}

proof fn lemma_clean_schedule(v: WalkView, jobs: Seq<JobView>, name: Seq<char>, sp: Option<Span>)
    requires
        clean(v, name, sp),
        clean_jobs(jobs, name, sp),
    ensures
        clean(v.schedule(jobs), name, sp),
{
    let all = v.jobs + jobs;
    assert forall|i: int| 0 <= i < all.len() implies clean_job(#[trigger] all[i], name, sp) by {
        if i < v.jobs.len() {
            assert(all[i] == v.jobs[i]);
        } else {
            assert(all[i] == jobs[i - v.jobs.len()]);
        }
    }
}

proof fn lemma_clean_defer(v: WalkView, policy: Policy, function: Function, name: Seq<char>, sp: Option<Span>)
    requires
        clean(v, name, sp),
        takes_no(function, name),
    ensures
        clean(v.defer(policy, function), name, sp),
{
    let after = v.defer(policy, function);
    if v.scopes.len() > 0 {
        assert(clean_scope(v.scopes[v.scopes.len() - 1], name, sp));
        assert forall|i: int| 0 <= i < after.scopes.len() implies clean_scope(#[trigger] after.scopes[i], name, sp) by {
            assert(clean_scope(v.scopes[i], name, sp));
        }
    }
}

#[verifier::spinoff_prover]
proof fn lemma_clean_statement(v: WalkView, p: Program, names: Seq<String>, policy: Policy, statement: Statement, name: Seq<char>, sp: Option<Span>)
    requires
        clean(v, name, sp),
        declared_only(p, names, name, sp),
        declares_only(statement, name, sp),
    ensures
        clean(v.statement(p, policy, statement), name, sp),
{
    match statement.kind {
        StatementKind::Function { function, .. } => {
            lemma_clean_defer(v, policy, function, name, sp);
        },
        StatementKind::Block(body) => {
            lemma_clean_body(p, names, body, name, sp);
        },
        StatementKind::If { branches, else_branch } => {
            let span = if branches@.len() == 0 {
                statement.span
            } else {
                branches@[0].keyword
            };
            let noted = v.allowed(policy.conditionals, "if"@, "conditionals"@, span);
            lemma_clean_branches(p, names, branches@, 0, name, sp);
            let elsewhere = match else_branch {
                Some(branch) => {
                    lemma_clean_body(p, names, branch.body, name, sp);
                    noted.job(crate::check::walk::block_job(p, branch.body, Seq::empty()))
                },
                None => noted,
            };
            lemma_clean_schedule(elsewhere, branch_jobs(p, branches@, 0), name, sp);
        },
        StatementKind::While { body, .. } => {
            lemma_clean_body(p, names, body, name, sp);
        },
        StatementKind::For { body, .. } => {
            lemma_clean_body(p, names, body, name, sp);
        },
        _ => {},
    }
}

#[verifier::spinoff_prover]
proof fn lemma_clean_expression(
    v: WalkView,
    p: Program,
    names: Seq<String>,
    policy: Policy,
    callables: Option<Seq<String>>,
    id: ExprId,
    name: Seq<char>, sp: Option<Span>,
)
    requires
        clean(v, name, sp),
        declared_only(p, names, name, sp),
    ensures
        clean(v.expression(p, policy, callables, id), name, sp),
{
    match p.expr(id).kind {
        ExpressionKind::Identifier(node) => {
            if node.name@ == name {
                lemma_clean_resolved(v, name, v.scopes.len() as int, false, sp);
            } else {
                lemma_clean_read(v, node.name@, name, sp);
            }
        },
        ExpressionKind::Array { elements, .. } => {
            let noted = v.allowed(policy.array_literals, "array literal"@, "array_literals"@, p.expr(id).span);
            lemma_clean_expressions(elements@, 0, name, sp);
            lemma_clean_schedule(noted, expression_jobs(elements@, 0), name, sp);
        },
        ExpressionKind::Object { entries, .. } => {
            let noted = v.allowed(policy.object_literals, "object literal"@, "object_literals"@, p.expr(id).span);
            lemma_clean_entries(entries@, 0, name, sp);
            lemma_clean_schedule(noted, entry_jobs(entries@, 0), name, sp);
        },
        ExpressionKind::Access { base, links } => {
            lemma_clean_links(links@, 0, name, sp);
            let based = match p.expr(base).kind {
                ExpressionKind::Identifier(node) => {
                    if node.name@ == name {
                        lemma_clean_resolved(v, name, v.scopes.len() as int, false, sp);
                    } else {
                        lemma_clean_read(v, node.name@, name, sp);
                    }
                    if links@.len() == 0 {
                        v.job(JobView::Expression(base))
                    } else {
                        match links@[0].kind {
                            AccessKind::Call { arguments, .. } => v.call(policy, callables, node, links@[0], arguments@.len()),
                            _ => v.job(JobView::Expression(base)),
                        }
                    }
                },
                _ => v.job(JobView::Expression(base)),
            };
            assert(clean(based, name, sp));
            lemma_clean_schedule(based, links_jobs(links@, 0), name, sp);
        },
        ExpressionKind::Function(function) => {
            lemma_clean_defer(v, policy, function, name, sp);
        },
        _ => {},
    }
}

#[verifier::spinoff_prover]
proof fn lemma_clean_step(
    v: WalkView,
    p: Program,
    names: Seq<String>,
    policy: Policy,
    callables: Option<Seq<String>>,
    name: Seq<char>, sp: Option<Span>,
)
    requires
        clean(v, name, sp),
        declared_only(p, names, name, sp),
    ensures
        clean(v.step(p, policy, callables), name, sp),
{
    if v.jobs.len() > 0 {
        let rest = WalkView { jobs: v.jobs.drop_last(), ..v };
        assert(clean(rest, name, sp)) by {
            assert forall|i: int| 0 <= i < rest.jobs.len() implies clean_job(#[trigger] rest.jobs[i], name, sp) by {
                assert(clean_job(v.jobs[i], name, sp));
            }
        }
        assert(clean_job(v.jobs[v.jobs.len() - 1], name, sp));
        match v.jobs.last() {
            JobView::Open { statements, seed, body } => {
                let entered = rest.entered(statements, seed, body);
                lemma_clean_lets(statements, statements.len() as int, name, sp);
                assert(clean(entered, name, sp)) by {
                    assert forall|i: int| 0 <= i < entered.scopes.len() implies clean_scope(#[trigger] entered.scopes[i], name, sp) by {
                        if i < rest.scopes.len() {
                            assert(clean_scope(rest.scopes[i], name, sp));
                        }
                    }
                }
                lemma_clean_seeded(entered, seed, seed.len() as int, name, sp);
                let seeded = entered.seeded(seed, seed.len() as int);
                lemma_clean_hoisted(seeded, p, statements, statements.len() as int, name, sp);
                let hoisted = seeded.hoisted(p, statements, statements.len() as int);
                let ready = hoisted.noted(crate::check::walk::dead_code(statements)).job(JobView::Close).job(JobView::Deferred);
                assert(clean(ready, name, sp));
                lemma_clean_statements(statements, 0, name, sp);
                lemma_clean_schedule(ready, statement_jobs(statements, 0), name, sp);
            },
            JobView::Statement(statement) => {
                lemma_clean_statement(rest, p, names, policy, statement, name, sp);
            },
            JobView::Expression(id) => {
                lemma_clean_expression(rest, p, names, policy, callables, id, name, sp);
            },
            JobView::Declare { name: bound, arity } => {
                lemma_clean_declared(rest, p, bound, arity, name, sp);
            },
            JobView::Deferred => {
                if rest.scopes.len() > 0 && rest.scopes.last().deferred.len() > 0 {
                    let function = rest.scopes.last().deferred.last();
                    assert(clean_scope(rest.scopes[rest.scopes.len() - 1], name, sp));
                    assert(takes_no(rest.scopes.last().deferred[rest.scopes.last().deferred.len() - 1], name));
                    lemma_clean_body(p, names, function.body, name, sp);
                    let after = rest.resumed(p);
                    assert forall|i: int| 0 <= i < after.scopes.len() implies clean_scope(#[trigger] after.scopes[i], name, sp) by {
                        assert(clean_scope(rest.scopes[i], name, sp));
                    }
                }
            },
            JobView::Close => {
                let after = rest.closed();
                assert forall|i: int| 0 <= i < after.scopes.len() implies clean_scope(#[trigger] after.scopes[i], name, sp) by {
                    assert(clean_scope(rest.scopes[i], name, sp));
                }
            },
        }
    }
}

proof fn lemma_clean_tour(t: Tour, n: nat, name: Seq<char>, sp: Option<Span>)
    requires
        declared_only(t.p, t.names, name, sp),
    ensures
        clean(t.after(n), name, sp),
    decreases n,
{
    if n == 0 {
        let start = begun(t.p, t.names);
        assert(t.p.statements_of(None) == t.p.statements@);
        assert(clean_block(t.p.statements@, name, sp)) by {
            assert forall|k: int| 0 <= k < t.p.statements@.len() implies declares_only(#[trigger] t.p.statements@[k], name, sp) by {
                assert(declares_only(t.p.statements_of(None)[k], name, sp));
            }
        }
        assert(clean(start, name, sp));
    } else {
        lemma_clean_tour(t, (n - 1) as nat, name, sp);
        lemma_steady(t, (n - 1) as nat);
        lemma_clean_step(t.after((n - 1) as nat), t.p, t.names, t.policy, t.callables, name, sp);
    }
}

/// A name that nothing in the Script declares is told wherever it can be read, at the name.
pub proof fn law_undeclared_names_are_told(
    p: Program,
    names: Seq<String>,
    policy: Policy,
    callables: Option<Seq<String>>,
    findings: Seq<DiagnosticView>,
    path: Seq<JobView>,
    id: ExprId,
    node: crate::ast::Identifier,
)
    requires
        found(p, names, policy, callables, findings),
        way(p, names, path),
        path.last() == JobView::Expression(id),
        p.expr(id).kind == ExpressionKind::Identifier(node),
        nowhere_declared(p, names, node.name@),
        forall|other: ExprId| !#[trigger] calls_name(p, other, id),
    ensures
        told(
            in_source_order(findings),
            an_error(
                Category::Reference,
                "reference.undeclared_identifier"@,
                "`"@ + node.name@ + "` is not declared"@,
                node.span,
            ),
        ),
{
    let t = tour_of(p, names, policy, callables);
    let n = lemma_found_at(p, names, policy, callables, findings, path);
    let v = t.after(n);
    let rest = WalkView { jobs: v.jobs.drop_last(), ..v };
    lemma_nowhere(p, names, node.name@);
    lemma_clean_tour(t, n, node.name@, None);
    lemma_clean_resolved(v, node.name@, v.scopes.len() as int, false, None);
    let after = v.step(p, policy, callables);
    assert(after == rest.expression(p, policy, callables, id));
    assert(rest.reached(node.name@) is None && rest.awaits(node.name@) is None);
    assert(told(in_source_order(findings), after.findings[v.findings.len() as int]));
}

/// An assignment to a name that nothing in the Script declares is told wherever it can run, at the name.
pub proof fn law_undeclared_targets_are_told(
    p: Program,
    names: Seq<String>,
    policy: Policy,
    callables: Option<Seq<String>>,
    findings: Seq<DiagnosticView>,
    path: Seq<JobView>,
    statement: Statement,
    node: crate::ast::Identifier,
)
    requires
        found(p, names, policy, callables, findings),
        way(p, names, path),
        path.last() == JobView::Statement(statement),
        statement.kind matches StatementKind::Assignment { target, .. } && p.expr(target).kind == ExpressionKind::Identifier(node),
        nowhere_declared(p, names, node.name@),
    ensures
        told(
            in_source_order(findings),
            an_error(
                Category::Reference,
                "reference.undeclared_assignment"@,
                "cannot assign to `"@ + node.name@ + "`: it is not declared; declare it first with `let "@ + node.name@ + " = …`"@,
                node.span,
            ),
        ),
{
    let t = tour_of(p, names, policy, callables);
    let n = lemma_found_at(p, names, policy, callables, findings, path);
    let v = t.after(n);
    let rest = WalkView { jobs: v.jobs.drop_last(), ..v };
    lemma_nowhere(p, names, node.name@);
    lemma_clean_tour(t, n, node.name@, None);
    lemma_clean_resolved(v, node.name@, v.scopes.len() as int, false, None);
    let after = v.step(p, policy, callables);
    assert(after == rest.statement(p, policy, statement));
    assert(told(in_source_order(findings), after.findings[v.findings.len() as int]));
}

/// A call of a name that nothing in the Script declares is one of the host: with such calls switched off it is told
/// at the name, and with a list of the functions there are it is told when the list does not have it.
pub proof fn law_unknown_functions_are_told(
    p: Program,
    names: Seq<String>,
    policy: Policy,
    callables: Option<Seq<String>>,
    findings: Seq<DiagnosticView>,
    path: Seq<JobView>,
    id: ExprId,
    node: crate::ast::Identifier,
    link: AccessLink,
)
    requires
        found(p, names, policy, callables, findings),
        way(p, names, path),
        path.last() == JobView::Expression(id),
        p.expr(id).kind matches ExpressionKind::Access { base, links } && p.expr(base).kind == ExpressionKind::Identifier(node)
            && links@.len() > 0 && links@[0] == link && link.kind is Call,
        nowhere_declared(p, names, node.name@),
    ensures
        !policy.rpc_calls ==> told(
            in_source_order(findings),
            an_error(
                Category::Policy,
                "policy.construct_disabled"@,
                "`"@ + "call to a Registered Function"@ + "` is disabled by the `"@ + "rpc_calls"@ + "` policy toggle"@,
                node.span,
            ),
        ),
        policy.rpc_calls ==> (callables matches Some(list) ==> (forall|i: int|
            0 <= i < list.len() ==> (#[trigger] list[i])@ != node.name@) ==> told(
            in_source_order(findings),
            an_error(
                Category::Capability,
                "capability.unknown_function"@,
                "`"@ + node.name@ + "` is neither declared in this script nor a function this caller says is callable"@,
                through_spec(node.span, link.span),
            ),
        )),
{
    let t = tour_of(p, names, policy, callables);
    let n = lemma_found_at(p, names, policy, callables, findings, path);
    let v = t.after(n);
    let rest = WalkView { jobs: v.jobs.drop_last(), ..v };
    lemma_nowhere(p, names, node.name@);
    lemma_clean_tour(t, n, node.name@, None);
    lemma_clean_resolved(v, node.name@, v.scopes.len() as int, false, None);
    let after = v.step(p, policy, callables);
    assert(after == rest.expression(p, policy, callables, id));
    assert(rest.reached(node.name@) is None && rest.awaits(node.name@) is None);
    if after.findings.len() == v.findings.len() + 1 {
        assert(told(in_source_order(findings), after.findings[v.findings.len() as int]));
    }
}

/// The end of a block is come to once the bodies that wait in it have been walked.
proof fn lemma_close_met(t: Tour, end: nat, y: nat, c: int) -> (z: nat)
    requires
        t.done(end),
        t.after(y).jobs.len() == c + 2,
        t.after(y).jobs.last() is Deferred,
        c >= 0,
    ensures
        t.after(z).jobs.len() == c + 1,
        t.after(z).jobs.last() is Close,
        t.after(z).scopes.len() == t.after(y).scopes.len(),
        forall|name: Seq<char>|
            #[trigger] has_key(t.after(y).scopes.last().bindings, name) ==> has_key(t.after(z).scopes.last().bindings, name),
        t.after(y).scopes.len() > 0,
    decreases end - y,
{
    let v = t.after(y);
    if y >= end {
        lemma_done(t, end, y);
    }
    lemma_steady(t, y);
    assert(v.jobs[c + 1] is Deferred);
    assert(v.jobs[c] is Close);
    lemma_popped(v.jobs);
    assert(v.jobs.drop_last().last() is Close);
    lemma_popped(v.jobs.drop_last());
    let rest = WalkView { jobs: v.jobs.drop_last(), ..v };
    let w = t.after(y + 1);
    assert(w == rest.resumed(t.p));
    lemma_grown_self(v.scopes);
    if v.scopes.last().deferred.len() == 0 {
        assert(w.jobs =~= v.jobs.drop_last());
        y + 1
    } else {
        assert(w.jobs.len() == c + 3);
        assert(w.jobs[c + 1] is Deferred);
        let x = lemma_come_to(t, end, y + 1, c + 1);
        let below = w.jobs.take(c + 2);
        assert(below =~= v.jobs.drop_last().push(JobView::Deferred));
        lemma_popped(below);
        assert(below.drop_last() =~= v.jobs.drop_last());
        assert(t.after(x).scopes.len() == v.scopes.len());
        assert(t.after(x).jobs[c + 1] == w.jobs[c + 1]);
        let z = lemma_close_met(t, end, x, c);
        let n = v.scopes.len() as int - 1;
        assert(grown(w.scopes[n], t.after(x).scopes[n]));
        assert(w.scopes[n].bindings == v.scopes[n].bindings);
        assert forall|name: Seq<char>| #[trigger] has_key(v.scopes.last().bindings, name) implies has_key(
            t.after(z).scopes.last().bindings,
            name,
        ) by {
            assert(has_key(w.scopes[n].bindings, name));
            assert(has_key(t.after(x).scopes.last().bindings, name));
        }
        z
    }
}

proof fn lemma_unread_has(bindings: Seq<(Seq<char>, Binding)>, k: int, i: int)
    requires
        0 <= i < k <= bindings.len(),
        bindings[i].1.report_unused,
        !bindings[i].1.read,
    ensures
        exists|x: int|
            0 <= x < unread(bindings, k).len() && #[trigger] unread(bindings, k)[x] == unused(
                bindings[i].0,
                bindings[i].1.span,
            ),
    decreases k,
{
    let all = unread(bindings, k);
    if i == k - 1 {
        assert(all[all.len() - 1] == unused(bindings[i].0, bindings[i].1.span));
    } else {
        lemma_unread_has(bindings, k - 1, i);
        let before = unread(bindings, k - 1);
        let x = choose|x: int| 0 <= x < before.len() && #[trigger] before[x] == unused(bindings[i].0, bindings[i].1.span);
        assert(all[x] == before[x]);
    }
}

/// A name that its block has bound and nothing reads is told when the block ends.
proof fn lemma_unused_told(t: Tour, end: nat, q: nat, c: int, name: Seq<char>, span: Span)
    requires
        t.done(end),
        declared_only(t.p, t.names, name, Some(span)),
        0 <= c < t.after(q).jobs.len() - 1,
        t.after(q).jobs[c] is Close,
        t.after(q).jobs[c + 1] is Deferred,
        closes(t.after(q).jobs.take(c + 2)) == t.after(q).scopes.len(),
        has_key(t.after(q).scopes.last().bindings, name),
    ensures
        told(in_source_order(t.after(end).findings), unused(name, span)),
{
    let y = lemma_come_to(t, end, q, c + 1);
    let last = t.after(q).scopes.len() as int - 1;
    lemma_steady(t, q);
    assert(t.after(y).jobs[c + 1] == t.after(q).jobs[c + 1]);
    let some = t.after(q).jobs.take(c + 2);
    lemma_popped(some);
    assert(some.drop_last().last() == t.after(q).jobs[c]);
    lemma_popped(some.drop_last());
    assert(grown(t.after(q).scopes[last], t.after(y).scopes[last]));
    assert(has_key(t.after(y).scopes.last().bindings, name));
    let z = lemma_close_met(t, end, y, c);
    lemma_clean_tour(t, z, name, Some(span));
    let v = t.after(z);
    let rest = WalkView { jobs: v.jobs.drop_last(), ..v };
    let bindings = v.scopes.last().bindings;
    assert(has_key(bindings, name));
    let i = choose|i: int| 0 <= i < bindings.len() && (#[trigger] bindings[i]).0 == name;
    assert(clean_scope(v.scopes[v.scopes.len() - 1], name, Some(span)));
    assert(v.scopes[v.scopes.len() - 1].bindings[i].0 == name);
    lemma_unread_has(bindings, bindings.len() as int, i);
    let added = unread(bindings, bindings.len() as int);
    let x = choose|x: int| 0 <= x < added.len() && #[trigger] added[x] == unused(name, span);
    let after = t.stepped(v);
    assert(after == rest.closed());
    assert(after.findings[v.findings.len() + x] == added[x]);
    lemma_told(t, end, z, v.findings.len() + x);
}

/// Where the end of a block lies once the block has been opened.
proof fn lemma_block_end(t: Tour, n: nat, q: nat, statements: Seq<Statement>, seed: Seq<(Seq<char>, Span)>, body: bool, d: int)
    requires
        t.after(n).jobs.len() > 0,
        t.after(n).jobs.last() == (JobView::Open { statements, seed, body }),
        t.after(n).jobs.len() < d <= t.after(q).jobs.len(),
        d <= t.after(n + 1).jobs.len(),
        forall|x: int| 0 <= x < d ==> #[trigger] t.after(q).jobs[x] == t.after(n + 1).jobs[x],
    ensures
        t.after(q).jobs[t.after(n).jobs.len() - 1] is Close,
        t.after(q).jobs[t.after(n).jobs.len() as int] is Deferred,
        closes(t.after(q).jobs.take(t.after(n).jobs.len() as int + 1)) == t.after(n).scopes.len() + 1,
{
    lemma_entered(t, n, statements, seed, body);
    let c = t.after(n).jobs.len() as int - 1;
    let first = t.after(n + 1).jobs;
    assert(t.after(q).jobs[c] == first[c]);
    assert(t.after(q).jobs[c + 1] == first[c + 1]);
    let below = t.after(n).jobs.drop_last();
    let some = t.after(q).jobs.take(c + 2);
    assert(some =~= below.push(JobView::Close).push(JobView::Deferred));
    lemma_popped(some);
    assert(some.drop_last() =~= below.push(JobView::Close));
    lemma_popped(below.push(JobView::Close));
    assert(below.push(JobView::Close).drop_last() =~= below);
}

/// A `let` of a block that can run has bound its name, or found it bound, when it is done: this is where.
proof fn lemma_let_met(
    t: Tour,
    end: nat,
    n: nat,
    statements: Seq<Statement>,
    seed: Seq<(Seq<char>, Span)>,
    body: bool,
    k: int,
) -> (x: nat)
    requires
        t.done(end),
        t.after(n).jobs.len() > 0,
        t.after(n).jobs.last() == (JobView::Open { statements, seed, body }),
        0 <= k < statements.len(),
        k <= first_terminator(statements, 0),
        statements[k].kind is Let,
    ensures
        t.after(x).jobs.len() == place_of(t, n, statements, k) + 1,
        t.after(n).jobs.len() < place_of(t, n, statements, k) < t.after(n + 1).jobs.len(),
        t.after(x).jobs.last() matches JobView::Declare { name, .. } && name == statements[k].kind->Let_name,
        t.after(x).scopes.len() == t.after(n).scopes.len() + 1,
        scope_of(t.after(x).scopes.last(), statements, seed, body),
        forall|j: int|
            0 <= j < k ==> ((#[trigger] statements[j]).kind matches StatementKind::Let { name, .. } ==> has_key(
                t.after(x).scopes.last().bindings,
                name.name@,
            )),
        forall|i: int|
            0 <= i < place_of(t, n, statements, k) ==> #[trigger] t.after(x).jobs[i] == t.after(n + 1).jobs[i],
{
    let d = place_of(t, n, statements, k);
    lemma_place_of(t, n, statements, seed, body, k);
    let m = lemma_statement_met(t, end, n, statements, seed, body, k);
    let v = t.after(m);
    lemma_steady(t, m);
    lemma_popped(v.jobs);
    let rest = WalkView { jobs: v.jobs.drop_last(), ..v };
    let w = t.after(m + 1);
    assert(w == rest.statement(t.p, t.policy, statements[k]));
    assert(w.jobs.len() == d + 2);
    assert(w.jobs[d] is Declare);
    let x = lemma_come_to(t, end, m + 1, d);
    let below = w.jobs.take(d + 1);
    lemma_popped(below);
    assert(below.drop_last() =~= v.jobs.drop_last());
    let at = t.after(n).scopes.len() as int;
    assert(t.after(x).jobs[d] == w.jobs[d]);
    assert(grown(w.scopes[at], t.after(x).scopes[at]));
    assert(t.after(x).scopes.last() == t.after(x).scopes[at]);
    let before = w.scopes[at];
    let after = t.after(x).scopes[at];
    assert(before == v.scopes[at]);
    assert(scope_of(before, statements, seed, body));
    assert forall|name: Seq<char>| #[trigger] has_key(after.lets, name) == has_key(
        lets_of(statements, statements.len() as int),
        name,
    ) by {
        assert(has_key(before.lets, name) == has_key(lets_of(statements, statements.len() as int), name));
    }
    assert forall|i: int| 0 <= i < seed.len() implies has_key(after.bindings, (#[trigger] seed[i]).0) by {
        assert(has_key(before.bindings, seed[i].0));
    }
    assert forall|i: int| 0 <= i < statements.len() implies ((#[trigger] statements[i]).kind matches StatementKind::Function {
        name,
        ..
    } ==> has_key(after.bindings, name.name@)) by {
        if let StatementKind::Function { name, .. } = statements[i].kind {
            assert(has_key(before.bindings, name.name@));
        }
    }
    assert forall|j: int| 0 <= j < k implies ((#[trigger] statements[j]).kind matches StatementKind::Let { name, .. }
        ==> has_key(after.bindings, name.name@)) by {
        if let StatementKind::Let { name, .. } = statements[j].kind {
            assert(has_key(before.bindings, name.name@));
        }
    }
    assert forall|i: int| 0 <= i < d implies #[trigger] t.after(x).jobs[i] == t.after(n + 1).jobs[i] by {
        assert(t.after(x).jobs[i] == w.jobs[i]);
        assert(w.jobs[i] == v.jobs[i]);
        assert(v.jobs[i] == t.after(n + 1).jobs[i]);
    }
    x
}

/// A `let` of a name that its block has already, as a `let` further up, as a function, or as a parameter or loop name,
/// is told wherever it can run, at its name.
pub proof fn law_duplicates_are_told(
    p: Program,
    names: Seq<String>,
    policy: Policy,
    callables: Option<Seq<String>>,
    findings: Seq<DiagnosticView>,
    path: Seq<JobView>,
    k: int,
    bound: crate::ast::Identifier,
)
    requires
        found(p, names, policy, callables, findings),
        way(p, names, path),
        path.last() is Open,
        0 <= k < path.last()->Open_statements.len(),
        forall|i: int| 0 <= i < k ==> !ends(#[trigger] path.last()->Open_statements[i]),
        path.last()->Open_statements[k].kind matches StatementKind::Let { name, .. } && name == bound,
        (exists|j: int|
            0 <= j < k && ((#[trigger] path.last()->Open_statements[j]).kind matches StatementKind::Let { name, .. } && name.name@
                == bound.name@)) || (exists|j: int|
            0 <= j < path.last()->Open_statements.len() && ((#[trigger] path.last()->Open_statements[j]).kind
                matches StatementKind::Function { name, .. } && name.name@ == bound.name@)) || (exists|j: int|
            0 <= j < path.last()->Open_seed.len() && (#[trigger] path.last()->Open_seed[j]).0 == bound.name@),
    ensures
        told(
            in_source_order(findings),
            an_error(
                Category::Syntax,
                "syntax.duplicate_declaration"@,
                "expected a new binding name; `"@ + bound.name@ + "` is already declared in this scope"@,
                bound.span,
            ),
        ),
{
    let t = tour_of(p, names, policy, callables);
    let end = lemma_tour(p, names, policy, callables, findings);
    law_everything_is_looked_at(t, end, path);
    let n = choose|n: nat| #[trigger] visits(t, n, path.last());
    if let JobView::Open { statements, seed, body } = path.last() {
        lemma_before_the_end(statements, k, 0);
        let x = lemma_let_met(t, end, n, statements, seed, body, k);
        let v = t.after(x);
        let rest = WalkView { jobs: v.jobs.drop_last(), ..v };
        if exists|j: int|
            0 <= j < k && ((#[trigger] statements[j]).kind matches StatementKind::Let { name, .. } && name.name@ == bound.name@) {
            let j = choose|j: int|
                0 <= j < k && ((#[trigger] statements[j]).kind matches StatementKind::Let { name, .. } && name.name@
                    == bound.name@);
            assert(has_key(v.scopes.last().bindings, statements[j].kind->Let_name.name@));
        } else if exists|j: int|
            0 <= j < statements.len() && ((#[trigger] statements[j]).kind matches StatementKind::Function { name, .. }
                && name.name@ == bound.name@) {
            let j = choose|j: int|
                0 <= j < statements.len() && ((#[trigger] statements[j]).kind matches StatementKind::Function { name, .. }
                    && name.name@ == bound.name@);
            assert(has_key(v.scopes.last().bindings, statements[j].kind->Function_name.name@));
        } else {
            let j = choose|j: int| 0 <= j < seed.len() && (#[trigger] seed[j]).0 == bound.name@;
            assert(has_key(v.scopes.last().bindings, seed[j].0));
        }
        assert(rest.binds(bound.name@));
        let after = t.stepped(v);
        assert(after.findings.len() == v.findings.len() + 1);
        lemma_told(t, end, x, v.findings.len() as int);
    }
}

/// A name that is declared at one place and read nowhere is told, at its declaration, wherever that can run.
pub proof fn law_unused_names_are_told(
    p: Program,
    names: Seq<String>,
    policy: Policy,
    callables: Option<Seq<String>>,
    findings: Seq<DiagnosticView>,
    path: Seq<JobView>,
    k: int,
    bound: crate::ast::Identifier,
)
    requires
        found(p, names, policy, callables, findings),
        way(p, names, path),
        path.last() is Open,
        0 <= k < path.last()->Open_statements.len(),
        match path.last()->Open_statements[k].kind {
            StatementKind::Let { name, .. } => name == bound && forall|i: int|
                0 <= i < k ==> !ends(#[trigger] path.last()->Open_statements[i]),
            StatementKind::Function { name, .. } => name == bound,
            _ => false,
        },
        declared_only(p, names, bound.name@, Some(bound.span)),
    ensures
        told(
            in_source_order(findings),
            (DiagnosticView {
                severity: Severity::Warning,
                category: Category::Reference,
                code: "reference.unused_variable"@,
                message: "`"@ + bound.name@ + "` is declared but never read"@,
                span: bound.span,
            }),
        ),
{
    let t = tour_of(p, names, policy, callables);
    let end = lemma_tour(p, names, policy, callables, findings);
    law_everything_is_looked_at(t, end, path);
    let n = choose|n: nat| #[trigger] visits(t, n, path.last());
    if let JobView::Open { statements, seed, body } = path.last() {
        let c = t.after(n).jobs.len() as int - 1;
        if statements[k].kind is Let {
            lemma_before_the_end(statements, k, 0);
            let x = lemma_let_met(t, end, n, statements, seed, body, k);
            let v = t.after(x);
            let d = place_of(t, n, statements, k);
            lemma_steady(t, x);
            let rest = WalkView { jobs: v.jobs.drop_last(), ..v };
            if let JobView::Declare { name, arity } = v.jobs.last() {
                crate::check::visits::lemma_declared_scopes(rest, p, name, arity);
                let w = t.after(x + 1);
                assert(w == rest.declared(p, name, arity));
                lemma_declared_binds(rest, p, name, arity);
                assert forall|i: int| 0 <= i < d implies #[trigger] w.jobs[i] == t.after(n + 1).jobs[i] by {
                    assert(w.jobs[i] == v.jobs[i]);
                }
                lemma_block_end(t, n, x + 1, statements, seed, body, d);
                lemma_unused_told(t, end, x + 1, c, bound.name@, bound.span);
            }
        } else {
            lemma_entered(t, n, statements, seed, body);
            let w = t.after(n + 1);
            assert(scope_of(w.scopes.last(), statements, seed, body));
            assert(has_key(w.scopes.last().bindings, statements[k].kind->Function_name.name@));
            lemma_block_end(t, n, n + 1, statements, seed, body, w.jobs.len() as int);
            lemma_unused_told(t, end, n + 1, c, bound.name@, bound.span);
        }
    }
}

proof fn lemma_declared_binds(v: WalkView, p: Program, name: crate::ast::Identifier, arity: Option<usize>)
    requires
        v.scopes.len() > 0,
    ensures
        has_key(v.declared(p, name, arity).scopes.last().bindings, name.name@),
        v.declared(p, name, arity).scopes.len() == v.scopes.len(),
        v.declared(p, name, arity).jobs == v.jobs,
{
    if !v.binds(name.name@) {
        crate::table::lemma_put_keys(
            v.scopes.last().bindings,
            name.name@,
            Binding {
                span: name.span,
                arity: if crate::check::walk::reassigned(p, name.name@) { None } else { arity },
                report_unused: true,
                read: crate::table::value_of(v.scopes.last().lets, name.name@) == Some(true),
            },
        );
    }
}

/// A name is found in the innermost scope that binds it.
pub proof fn law_innermost_binding(scopes: Seq<ScopeView>, name: Seq<char>, k: int, at: int)
    requires
        0 <= k <= scopes.len(),
    ensures
        resolved(scopes, name, k) == Some(at) <==> 0 <= at < k && has_key(scopes[at].bindings, name) && forall|i: int|
            at < i < k ==> !has_key((#[trigger] scopes[i]).bindings, name),
    decreases k,
{
    if k > 0 {
        law_innermost_binding(scopes, name, k - 1, at);
        if has_key(scopes[k - 1].bindings, name) {
            if at < k - 1 && forall|i: int| at < i < k ==> !has_key((#[trigger] scopes[i]).bindings, name) {
                assert(!has_key(scopes[k - 1].bindings, name));
            }
        } else if resolved(scopes, name, k) == Some(at) {
            assert forall|i: int| at < i < k implies !has_key((#[trigger] scopes[i]).bindings, name) by {}
        }
    }
}

/// A call of a function that the Script declares is told when it passes another number of arguments, and only then;
/// it reads the name in any case.
pub proof fn law_calls_are_judged(
    v: WalkView,
    policy: Policy,
    callables: Option<Seq<String>>,
    name: crate::ast::Identifier,
    link: AccessLink,
    passed: nat,
    binding: Binding,
)
    requires
        v.reached(name.name@) == Some(binding),
        v.awaits(name.name@) is None,
    ensures
        binding.arity matches Some(taken) ==> passed != taken ==> v.call(policy, callables, name, link, passed).findings
            == v.findings.push(
            an_error(
                Category::Arity,
                "arity.argument_count"@,
                "this call passes "@ + crate::text::decimal(passed) + " argument"@ + (if passed == 1 { ""@ } else { "s"@ })
                    + ", but the function takes "@ + crate::text::decimal(taken as nat),
                link.span,
            ),
        ),
        binding.arity matches Some(taken) ==> passed == taken ==> v.call(policy, callables, name, link, passed).findings
            == v.findings,
        binding.arity is None ==> v.call(policy, callables, name, link, passed).findings == v.findings,
        v.call(policy, callables, name, link, passed).scopes == v.read(name.name@).scopes,
{
}

/// Reading a name marks the binding that it reaches as read, and changes no other name in that scope.
pub proof fn law_reading_marks(v: WalkView, name: Seq<char>, at: int, binding: Binding, other: Seq<char>)
    requires
        v.resolve(name) == Some(at),
        0 <= at < v.scopes.len(),
        v.awaits(name) is None,
        v.reached(name) == Some(binding),
        crate::table::distinct(v.scopes[at].bindings),
    ensures
        crate::table::value_of(v.read(name).scopes[at].bindings, name) == Some(Binding { read: true, ..binding }),
        other != name ==> crate::table::value_of(v.read(name).scopes[at].bindings, other) == crate::table::value_of(
            v.scopes[at].bindings,
            other,
        ),
        v.read(name).findings == v.findings,
        forall|i: int| 0 <= i < v.scopes.len() && i != at ==> #[trigger] v.read(name).scopes[i] == v.scopes[i],
{
    crate::table::law_put_get(v.scopes[at].bindings, name, Binding { read: true, ..binding }, other);
}

} // verus!

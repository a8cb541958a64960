//! That the parameter counts of the walk are those of the functions that a block declares.

use vstd::prelude::*;
use crate::ast::AccessKind;
use crate::ast::BlockId;
use crate::ast::ExprId;
use crate::ast::ExpressionKind;
use crate::ast::Function;
use crate::ast::Identifier;
use crate::ast::Program;
use crate::ast::Statement;
use crate::ast::StatementKind;
use crate::check::Policy;
use crate::check::sight::arity_of;
use crate::check::sight::functions;
use crate::check::sight::lets;
use crate::check::sight::lets_at;
use crate::check::sight::seeded;
use crate::check::sight::sure;
use crate::check::touring::lemma_first_close;
use crate::check::touring::lemma_popped;
use crate::check::touring::lemma_steady;
use crate::check::touring::lemma_step_spares;
use crate::check::touring::lemma_step_steady;
use crate::check::touring::spares;
use crate::check::touring::steady;
use crate::check::visits::Tour;
use crate::check::visits::closes;
use crate::check::visits::grown;
use crate::check::visits::lemma_awaiting;
use crate::check::visits::lemma_closes_add;
use crate::check::visits::lemma_closes_none;
use crate::check::visits::lemma_declared_scopes;
use crate::check::visits::lemma_expression_spreads;
use crate::check::visits::lemma_opened;
use crate::check::visits::lemma_read_grown;
use crate::check::visits::lemma_resolved;
use crate::check::visits::lemma_seeded_scopes;
use crate::check::visits::lemma_simple_statements;
use crate::check::visits::lemma_statement_spreads;
use crate::check::visits::quiet;
use crate::check::visits::stands;
use crate::check::walk::Binding;
use crate::check::walk::JobView;
use crate::check::walk::ScopeView;
use crate::check::walk::WalkView;
use crate::check::walk::begun;
use crate::check::walk::body_job;
use crate::check::walk::function_arity;
use crate::check::walk::reassigned;
use crate::check::walk::statement_jobs;
use crate::check::walk::walked;
use crate::diagnostics::Span;
use crate::table::distinct;
use crate::table::has_key;
use crate::table::law_put_get;
use crate::table::lemma_put_distinct;
use crate::table::lemma_put_keys;
use crate::table::put;
use crate::table::value_of;

verus! {

/// The parameter count that a scope of the walk has for a name.
pub open spec fn arity_in(scope: ScopeView, name: Seq<char>) -> Option<usize> {
    match value_of(scope.bindings, name) {
        Some(binding) => binding.arity,
        None => None,
    }
}

/// Whether a statement that can run, or a function among the statements, declares a name with a parameter
/// count.
pub open spec fn declares_with(p: Program, statements: Seq<Statement>, k: int, name: Seq<char>, a: usize) -> bool {
    &&& lets_at(statements, k, name) || (0 <= k < statements.len() && functions(statements[k], name))
    &&& arity_of(p, statements[k]) == Some(a)
}

/// Whether every parameter count that a scope has comes from a declaration in its block.
pub open spec fn grounded(p: Program, scope: ScopeView) -> bool {
    &&& stands(p, scope.statements)
    &&& distinct(scope.bindings)
    &&& forall|name: Seq<char>| #[trigger] seeded(scope.seed, name) ==> has_key(scope.bindings, name) && arity_in(scope, name) is None
    &&& forall|name: Seq<char>, a: usize|
        arity_in(scope, name) == Some(a) ==> !reassigned(p, name) && exists|k: int|
            #[trigger] declares_with(p, scope.statements, k, name, a)
}

/// The scope that a job belongs to.
pub open spec fn home(v: WalkView, d: int) -> int {
    closes(v.jobs.take(d)) - 1
}

/// Whether a job comes from the block that its scope was opened for.
pub open spec fn homed(p: Program, v: WalkView, d: int) -> bool {
    match v.jobs[d] {
        JobView::Open { statements, .. } => stands(p, statements),
        JobView::Statement(statement) => 0 <= home(v, d) < v.scopes.len() && exists|k: int|
            #[trigger] is_at(v.scopes[home(v, d)].statements, k, statement),
        JobView::Declare { name, arity } => 0 <= home(v, d) < v.scopes.len() && lets_somewhere(
            p,
            v.scopes[home(v, d)].statements,
            name.name@,
            arity,
        ),
        _ => true,
    }
}

pub open spec fn is_at(statements: Seq<Statement>, k: int, statement: Statement) -> bool {
    0 <= k < statements.len() && walked(statements, k) && statements[k] == statement
}

pub open spec fn lets_with(p: Program, statements: Seq<Statement>, k: int, name: Seq<char>, arity: Option<usize>) -> bool {
    lets_at(statements, k, name) && arity_of(p, statements[k]) == arity
}

pub open spec fn lets_somewhere(p: Program, statements: Seq<Statement>, name: Seq<char>, arity: Option<usize>) -> bool {
    exists|k: int| #[trigger] lets_with(p, statements, k, name, arity)
}

/// Whether all that a walk has of a tree comes from where it should.
pub open spec fn settled_walk(p: Program, v: WalkView) -> bool {
    &&& steady(v)
    &&& forall|i: int| 0 <= i < v.scopes.len() ==> grounded(p, #[trigger] v.scopes[i])
    &&& forall|d: int| 0 <= d < v.jobs.len() ==> #[trigger] homed(p, v, d)
}

/// Whether two scopes have the same parameter counts.
spec fn counts_alike(a: ScopeView, b: ScopeView) -> bool {
    &&& b.statements == a.statements
    &&& b.seed == a.seed
    &&& distinct(b.bindings)
    &&& forall|name: Seq<char>| #[trigger] has_key(a.bindings, name) ==> has_key(b.bindings, name)
    &&& forall|name: Seq<char>| #[trigger] arity_in(b, name) == arity_in(a, name)
}

proof fn lemma_alike_grounded(p: Program, a: ScopeView, b: ScopeView)
    requires
        counts_alike(a, b),
        grounded(p, a),
    ensures
        grounded(p, b),
{
    assert forall|name: Seq<char>| #[trigger] seeded(b.seed, name) implies has_key(b.bindings, name) && arity_in(b, name) is None by {
        assert(seeded(a.seed, name));
        assert(has_key(a.bindings, name));
        assert(arity_in(b, name) == arity_in(a, name));
    }
    assert forall|name: Seq<char>, a1: usize| arity_in(b, name) == Some(a1) implies !reassigned(p, name) && exists|k: int|
        #[trigger] declares_with(p, b.statements, k, name, a1) by {
        assert(arity_in(b, name) == arity_in(a, name));
        assert(arity_in(a, name) == Some(a1));
        let k = choose|k: int| #[trigger] declares_with(p, a.statements, k, name, a1);
        assert(declares_with(p, b.statements, k, name, a1));
    }
}

spec fn all_distinct(scopes: Seq<ScopeView>) -> bool {
    forall|i: int| 0 <= i < scopes.len() ==> distinct((#[trigger] scopes[i]).bindings)
}

spec fn all_alike(a: Seq<ScopeView>, b: Seq<ScopeView>) -> bool {
    a.len() == b.len() && forall|i: int| 0 <= i < a.len() ==> counts_alike(a[i], #[trigger] b[i])
}

proof fn lemma_read_alike(v: WalkView, name: Seq<char>)
    requires
        all_distinct(v.scopes),
    ensures
        all_alike(v.scopes, v.read(name).scopes),
{
    lemma_read_grown(v, name);
    lemma_resolved(v.scopes, name, v.scopes.len() as int);
    lemma_awaiting(v.scopes, name, v.scopes.len() as int, false);
    let after = v.read(name);
    let ahead = v.foreseen(name);
    assert forall|i: int| 0 <= i < v.scopes.len() implies counts_alike(v.scopes[i], #[trigger] after.scopes[i]) by {
        let a = v.scopes[i];
        let b = after.scopes[i];
        assert(grown(a, b));
        assert(ahead.scopes[i].bindings == a.bindings);
        assert(distinct(a.bindings));
        if let (Some(at), Some(binding)) = (v.resolve(name), v.reached(name)) {
            if at == i {
                lemma_put_distinct(a.bindings, name, Binding { read: true, ..binding });
            }
        }
        assert forall|x: Seq<char>| #[trigger] arity_in(b, x) == arity_in(a, x) by {
            if let (Some(at), Some(binding)) = (v.resolve(name), v.reached(name)) {
                if at == i {
                    law_put_get(a.bindings, name, Binding { read: true, ..binding }, x);
                }
            }
        }
    }
}

proof fn lemma_defer_alike(v: WalkView, policy: Policy, function: Function)
    requires
        all_distinct(v.scopes),
        v.scopes.len() > 0,
    ensures
        all_alike(v.scopes, v.defer(policy, function).scopes),
{
    let after = v.defer(policy, function);
    assert forall|i: int| 0 <= i < v.scopes.len() implies counts_alike(v.scopes[i], #[trigger] after.scopes[i]) by {
        assert(after.scopes[i].bindings == v.scopes[i].bindings);
        assert(distinct(v.scopes[i].bindings));
    }
}

proof fn lemma_same_alike(a: Seq<ScopeView>)
    requires
        all_distinct(a),
    ensures
        all_alike(a, a),
{
}

proof fn lemma_expression_alike(v: WalkView, p: Program, policy: Policy, callables: Option<Seq<String>>, id: ExprId)
    requires
        all_distinct(v.scopes),
        v.scopes.len() > 0,
    ensures
        all_alike(v.scopes, v.expression(p, policy, callables, id).scopes),
{
    lemma_same_alike(v.scopes);
    match p.expr(id).kind {
        ExpressionKind::Identifier(name) => {
            lemma_read_alike(v, name.name@);
        },
        ExpressionKind::Function(function) => {
            lemma_defer_alike(v, policy, function);
        },
        ExpressionKind::Access { base, links } => {
            if let ExpressionKind::Identifier(name) = p.expr(base).kind {
                lemma_read_alike(v, name.name@);
                if links@.len() > 0 {
                    if let AccessKind::Call { arguments, .. } = links@[0].kind {
                        let based = v.call(policy, callables, name, links@[0], arguments@.len());
                        assert(based.scopes == v.scopes || based.scopes == v.read(name.name@).scopes);
                    }
                }
            }
        },
        _ => {},
    }
}

/// Seeding a scope that has no names binds them without parameter counts.
proof fn lemma_seeded_counts(v: WalkView, seed: Seq<(Seq<char>, Span)>, n: int)
    requires
        v.scopes.len() > 0,
        0 <= n <= seed.len(),
        distinct(v.scopes.last().bindings),
        forall|name: Seq<char>| #[trigger] arity_in(v.scopes.last(), name) is None,
    ensures
        distinct(v.seeded(seed, n).scopes.last().bindings),
        v.seeded(seed, n).scopes.len() == v.scopes.len(),
        v.seeded(seed, n).scopes.last().statements == v.scopes.last().statements,
        v.seeded(seed, n).scopes.last().seed == v.scopes.last().seed,
        forall|name: Seq<char>| #[trigger] arity_in(v.seeded(seed, n).scopes.last(), name) is None,
    decreases n,
{
    if n > 0 {
        lemma_seeded_counts(v, seed, n - 1);
        let before = v.seeded(seed, n - 1);
        let after = v.seeded(seed, n);
        let binding = Binding { span: seed[n - 1].1, arity: None, report_unused: false, read: false };
        lemma_put_distinct(before.scopes.last().bindings, seed[n - 1].0, binding);
        assert forall|name: Seq<char>| #[trigger] arity_in(after.scopes.last(), name) is None by {
            assert(arity_in(before.scopes.last(), name) is None);
            law_put_get(before.scopes.last().bindings, seed[n - 1].0, binding, name);
        }
    }
}

spec fn declares_somewhere(p: Program, statements: Seq<Statement>, name: Seq<char>, a: usize) -> bool {
    exists|k: int| #[trigger] declares_with(p, statements, k, name, a)
}

/// Whether a parameter count, if there is one, is that of a declaration.
spec fn sourced(p: Program, statements: Seq<Statement>, name: Seq<char>, arity: Option<usize>) -> bool {
    match arity {
        Some(a) => declares_somewhere(p, statements, name, a),
        None => true,
    }
}

/// Declaring a name keeps a scope grounded.
proof fn lemma_declared_grounded(v: WalkView, p: Program, name: Identifier, arity: Option<usize>)
    requires
        v.scopes.len() > 0,
        grounded(p, v.scopes.last()),
        sourced(p, v.scopes.last().statements, name.name@, arity),
    ensures
        grounded(p, v.declared(p, name, arity).scopes.last()),
{
    lemma_declared_scopes(v, p, name, arity);
    let before = v.scopes.last();
    let after = v.declared(p, name, arity).scopes.last();
    if !v.binds(name.name@) {
        let binding = Binding {
            span: name.span,
            arity: if reassigned(p, name.name@) { None } else { arity },
            report_unused: true,
            read: value_of(before.lets, name.name@) == Some(true),
        };
        assert(after.bindings == put(before.bindings, name.name@, binding));
        lemma_put_keys(before.bindings, name.name@, binding);
        lemma_put_distinct(before.bindings, name.name@, binding);
        assert forall|x: Seq<char>| #[trigger] seeded(after.seed, x) implies has_key(after.bindings, x) && arity_in(after, x) is None by {
            assert(seeded(before.seed, x));
            assert(has_key(before.bindings, x));
            law_put_get(before.bindings, name.name@, binding, x);
        }
        assert forall|x: Seq<char>, a: usize| arity_in(after, x) == Some(a) implies !reassigned(p, x) && exists|k: int|
            #[trigger] declares_with(p, after.statements, k, x, a) by {
            law_put_get(before.bindings, name.name@, binding, x);
            if x != name.name@ {
                assert(arity_in(before, x) == Some(a));
            }
        }
    }
}

proof fn lemma_hoisted_grounded(v: WalkView, p: Program, statements: Seq<Statement>, n: int)
    requires
        v.scopes.len() > 0,
        0 <= n <= statements.len(),
        grounded(p, v.scopes.last()),
        v.scopes.last().statements == statements,
    ensures
        grounded(p, v.hoisted(p, statements, n).scopes.last()),
        v.hoisted(p, statements, n).scopes.len() == v.scopes.len(),
        v.hoisted(p, statements, n).scopes.last().statements == statements,
    decreases n,
{
    if n > 0 {
        lemma_hoisted_grounded(v, p, statements, n - 1);
        let before = v.hoisted(p, statements, n - 1);
        if let StatementKind::Function { name, function } = statements[n - 1].kind {
            assert(declares_with(p, statements, n - 1, name.name@, function.parameters.len()));
            let a = function.parameters.len();
            assert(declares_with(p, before.scopes.last().statements, n - 1, name.name@, a));
            lemma_declared_grounded(before, p, name, Some(a));
            lemma_declared_scopes(before, p, name, Some(function.parameters.len()));
            let last = before.scopes.len() - 1;
            assert(grown(before.scopes[last], v.hoisted(p, statements, n).scopes[last]));
        }
    }
}

proof fn lemma_opened_grounded(v: WalkView, p: Program, statements: Seq<Statement>, seed: Seq<(Seq<char>, Span)>, body: bool)
    requires
        stands(p, statements),
    ensures
        grounded(p, v.opened(p, statements, seed, body).scopes.last()),
{
    let entered = v.entered(statements, seed, body);
    let n = seed.len() as int;
    assert forall|name: Seq<char>| #[trigger] arity_in(entered.scopes.last(), name) is None by {
        assert(!has_key(entered.scopes.last().bindings, name));
    }
    lemma_seeded_counts(entered, seed, n);
    lemma_seeded_scopes(entered, seed, n);
    let started = entered.seeded(seed, n);
    assert(grounded(p, started.scopes.last())) by {
        assert forall|name: Seq<char>| #[trigger] seeded(started.scopes.last().seed, name) implies has_key(
            started.scopes.last().bindings,
            name,
        ) && arity_in(started.scopes.last(), name) is None by {
            let i = choose|i: int| 0 <= i < seed.len() && (#[trigger] seed[i]).0 == name;
            assert(has_key(started.scopes.last().bindings, seed[i].0));
        }
        assert forall|name: Seq<char>, a: usize| arity_in(started.scopes.last(), name) == Some(a) implies !reassigned(p, name)
            && exists|k: int| #[trigger] declares_with(p, started.scopes.last().statements, k, name, a) by {
            assert(arity_in(started.scopes.last(), name) is None);
        }
    }
    lemma_hoisted_grounded(started, p, statements, statements.len() as int);
}

proof fn lemma_statement_homes(statements: Seq<Statement>, k: int, i: int)
    requires
        0 <= k,
        0 <= i < statement_jobs(statements, k).len(),
    ensures
        statement_jobs(statements, k)[i] matches JobView::Statement(statement) && exists|j: int|
            #[trigger] is_at(statements, j, statement),
    decreases statements.len() - k,
{
    if k < statements.len() {
        let rest = statement_jobs(statements, k + 1);
        if i < rest.len() {
            lemma_statement_homes(statements, k + 1, i);
        } else {
            assert(is_at(statements, k, statements[k]));
        }
    }
}

/// Jobs that a job leaves alone stay at home.
proof fn lemma_still_homed(p: Program, v: WalkView, after: WalkView, d: int)
    requires
        homed(p, v, d),
        0 <= d < v.jobs.len(),
        !(v.jobs[d] is Close),
        spares(v, after, d),
    ensures
        homed(p, after, d),
{
    assert(after.jobs[d] == v.jobs[d]);
    assert(after.jobs.take(d) =~= v.jobs.take(d));
    let below = v.jobs.take(d + 1);
    assert(below.drop_last() =~= v.jobs.take(d));
    assert(below.last() == v.jobs[d]);
    lemma_popped(below);
    let h = home(v, d);
    if 0 <= h < v.scopes.len() && h < closes(v.jobs.take(d + 1)) {
        assert(grown(v.scopes[h], after.scopes[h]));
    }
}

proof fn lemma_new_homed(p: Program, v: WalkView, after: WalkView, n: int)
    requires
        0 <= n <= after.jobs.len(),
        quiet(p, after.jobs.skip(n)),
    ensures
        forall|d: int| n <= d < after.jobs.len() ==> #[trigger] homed(p, after, d),
{
    assert forall|d: int| n <= d < after.jobs.len() implies #[trigger] homed(p, after, d) by {
        assert(after.jobs.skip(n)[d - n] == after.jobs[d]);
    }
}

#[verifier::spinoff_prover]
proof fn lemma_open_homed(p: Program, v: WalkView, statements: Seq<Statement>, seed: Seq<(Seq<char>, Span)>, body: bool, d: int)
    requires
        steady(v),
        v.jobs.len() > 0,
        v.jobs.last() is Open,
        v.jobs.len() - 1 <= d < (WalkView { jobs: v.jobs.drop_last(), ..v }).opened(p, statements, seed, body).jobs.len(),
    ensures
        homed(p, (WalkView { jobs: v.jobs.drop_last(), ..v }).opened(p, statements, seed, body), d),
{
    let rest = WalkView { jobs: v.jobs.drop_last(), ..v };
    let after = rest.opened(p, statements, seed, body);
    lemma_opened(rest, p, statements, seed, body);
    lemma_popped(v.jobs);
    let n = rest.jobs.len() as int;
    if d > n + 1 {
        let all = statement_jobs(statements, 0);
        let i = d - n - 2;
        assert(after.jobs[d] == all[i]);
        lemma_statement_homes(statements, 0, i);
        lemma_simple_statements(statements, 0);
        let some = all.take(i);
        assert forall|x: int| 0 <= x < some.len() implies !((#[trigger] some[x]) is Close) by {
            assert(some[x] == all[x]);
        }
        lemma_closes_none(some);
        let closed = rest.jobs.push(JobView::Close);
        let base = closed.push(JobView::Deferred);
        lemma_closes_add(base, some);
        assert(after.jobs.take(d) =~= base + some);
        lemma_popped(base);
        assert(base.drop_last() =~= closed);
        lemma_popped(closed);
        assert(closed.drop_last() =~= rest.jobs);
        assert(home(after, d) == v.scopes.len());
    }
}

#[verifier::spinoff_prover]
proof fn lemma_let_homed(p: Program, v: WalkView, policy: Policy, statement: Statement, d: int)
    requires
        homed(p, v, v.jobs.len() - 1),
        v.jobs.len() > 1,
        v.jobs.last() == JobView::Statement(statement),
        statement.kind is Let,
        v.jobs.len() - 1 <= d < (WalkView { jobs: v.jobs.drop_last(), ..v }).statement(p, policy, statement).jobs.len(),
    ensures
        homed(p, (WalkView { jobs: v.jobs.drop_last(), ..v }).statement(p, policy, statement), d),
{
    let rest = WalkView { jobs: v.jobs.drop_last(), ..v };
    let after = rest.statement(p, policy, statement);
    let q = v.jobs.len() - 1;
    assert(v.jobs.take(q) =~= rest.jobs);
    let statements = v.scopes[home(v, q)].statements;
    let k = choose|k: int| #[trigger] is_at(statements, k, statement);
    if let StatementKind::Let { name, initializer, .. } = statement.kind {
        if d == q {
            assert(after.jobs[d] == (JobView::Declare { name, arity: function_arity(p, initializer) }));
            assert(after.jobs.take(d) =~= rest.jobs);
            assert(home(after, d) == home(v, q));
            assert(after.scopes == v.scopes);
            assert(lets_with(p, after.scopes[home(after, d)].statements, k, name.name@, function_arity(p, initializer)));
        } else {
            assert(after.jobs[d] == JobView::Expression(initializer));
        }
    }
}

/// One job keeps a walk settled.
#[verifier::spinoff_prover]
proof fn lemma_step_settled(v: WalkView, p: Program, policy: Policy, callables: Option<Seq<String>>)
    requires
        settled_walk(p, v),
    ensures
        settled_walk(p, v.step(p, policy, callables)),
{
    lemma_step_steady(v, p, policy, callables);
    if v.jobs.len() > 0 {
        let rest = WalkView { jobs: v.jobs.drop_last(), ..v };
        let after = v.step(p, policy, callables);
        let q = v.jobs.len() - 1;
        if v.jobs[0] is Close {
            lemma_first_close(v.jobs);
        }
        lemma_popped(v.jobs);
        assert(homed(p, v, q));
        assert(all_distinct(v.scopes)) by {
            assert forall|i: int| 0 <= i < v.scopes.len() implies distinct((#[trigger] v.scopes[i]).bindings) by {
                assert(grounded(p, v.scopes[i]));
            }
        }
        assert forall|d: int| 0 <= d < q && d < after.jobs.len() implies #[trigger] homed(p, after, d) by {
            assert(homed(p, v, d));
            if !(v.jobs[d] is Close) {
                lemma_step_spares(v, p, policy, callables, d);
                lemma_still_homed(p, v, after, d);
            } else {
                lemma_bottom_kept(v, p, policy, callables, d);
            }
        }
        match v.jobs.last() {
            JobView::Open { statements, seed, body } => {
                lemma_opened(rest, p, statements, seed, body);
                lemma_opened_grounded(rest, p, statements, seed, body);
                assert forall|d: int| q <= d < after.jobs.len() implies #[trigger] homed(p, after, d) by {
                    lemma_open_homed(p, v, statements, seed, body, d);
                }
                assert forall|i: int| 0 <= i < after.scopes.len() implies grounded(p, #[trigger] after.scopes[i]) by {
                    if i < v.scopes.len() {
                        assert(after.scopes[i] == v.scopes[i]);
                    }
                }
            },
            JobView::Statement(statement) => {
                lemma_statement_spreads(rest, p, policy, statement);
                assert(all_alike(v.scopes, after.scopes)) by {
                    lemma_same_alike(v.scopes);
                    if let StatementKind::Function { function, .. } = statement.kind {
                        lemma_defer_alike(rest, policy, function);
                    }
                }
                lemma_all_grounded(p, v, after);
                if statement.kind is Let {
                    assert forall|d: int| q <= d < after.jobs.len() implies #[trigger] homed(p, after, d) by {
                        lemma_let_homed(p, v, policy, statement, d);
                    }
                } else {
                    lemma_new_homed(p, v, after, q);
                }
            },
            JobView::Expression(id) => {
                lemma_expression_spreads(rest, p, policy, callables, id);
                lemma_expression_alike(rest, p, policy, callables, id);
                lemma_all_grounded(p, v, after);
                lemma_new_homed(p, v, after, q);
            },
            JobView::Declare { name, arity } => {
                lemma_declared_scopes(rest, p, name, arity);
                assert(v.jobs.take(q) =~= rest.jobs);
                let statements = v.scopes.last().statements;
                assert(home(v, q) == v.scopes.len() - 1);
                let k = choose|k: int| #[trigger] lets_with(p, statements, k, name.name@, arity);
                if let Some(a) = arity {
                    assert(declares_with(p, statements, k, name.name@, a));
                }
                lemma_declared_grounded(rest, p, name, arity);
                assert forall|i: int| 0 <= i < after.scopes.len() implies grounded(p, #[trigger] after.scopes[i]) by {
                    if i < v.scopes.len() - 1 {
                        assert(after.scopes[i] == v.scopes[i]);
                    }
                }
            },
            JobView::Deferred => {
                assert forall|i: int| 0 <= i < after.scopes.len() implies grounded(p, #[trigger] after.scopes[i]) by {
                    assert(counts_alike(v.scopes[i], after.scopes[i])) by {
                        assert(after.scopes[i].bindings == v.scopes[i].bindings);
                        assert(distinct(v.scopes[i].bindings));
                    }
                    lemma_alike_grounded(p, v.scopes[i], after.scopes[i]);
                }
                if v.scopes.len() > 0 && v.scopes.last().deferred.len() > 0 {
                    let function = v.scopes.last().deferred.last();
                    assert(stands(p, p.statements_of(Some(function.body))));
                    assert(after.jobs == rest.jobs.push(JobView::Deferred).push(body_job(p, function)));
                }
            },
            JobView::Close => {
                assert forall|i: int| 0 <= i < after.scopes.len() implies grounded(p, #[trigger] after.scopes[i]) by {
                    assert(after.scopes[i] == v.scopes[i]);
                }
            },
        }
    }
}

proof fn lemma_all_grounded(p: Program, v: WalkView, after: WalkView)
    requires
        forall|i: int| 0 <= i < v.scopes.len() ==> grounded(p, #[trigger] v.scopes[i]),
        all_alike(v.scopes, after.scopes),
    ensures
        forall|i: int| 0 <= i < after.scopes.len() ==> grounded(p, #[trigger] after.scopes[i]),
{
    assert forall|i: int| 0 <= i < after.scopes.len() implies grounded(p, #[trigger] after.scopes[i]) by {
        lemma_alike_grounded(p, v.scopes[i], after.scopes[i]);
    }
}

/// The jobs below the next one stay.
proof fn lemma_bottom_kept(v: WalkView, p: Program, policy: Policy, callables: Option<Seq<String>>, d: int)
    requires
        steady(v),
        0 <= d < v.jobs.len() - 1,
    ensures
        d < v.step(p, policy, callables).jobs.len() ==> v.step(p, policy, callables).jobs[d] == v.jobs[d],
{
    let rest = WalkView { jobs: v.jobs.drop_last(), ..v };
    lemma_first_close(v.jobs);
    match v.jobs.last() {
        JobView::Open { statements, seed, body } => {
            lemma_opened(rest, p, statements, seed, body);
        },
        JobView::Statement(statement) => {
            lemma_statement_spreads(rest, p, policy, statement);
            assert(v.step(p, policy, callables).jobs[d] == rest.jobs[d]);
        },
        JobView::Expression(id) => {
            lemma_expression_spreads(rest, p, policy, callables, id);
            assert(v.step(p, policy, callables).jobs[d] == rest.jobs[d]);
        },
        JobView::Declare { name, arity } => {
            lemma_declared_scopes(rest, p, name, arity);
        },
        _ => {},
    }
}

/// Everything that a walk has comes from where it should.
pub proof fn lemma_settled_walk(t: Tour, n: nat)
    ensures
        settled_walk(t.p, t.after(n)),
    decreases n,
{
    if n > 0 {
        lemma_settled_walk(t, (n - 1) as nat);
        lemma_step_settled(t.after((n - 1) as nat), t.p, t.policy, t.callables);
    } else {
        lemma_steady(t, 0);
        assert(t.after(0) == begun(t.p, t.names));
        assert(homed(t.p, t.after(0), 0));
    }
}

/// Whether a statement declares a name.
pub open spec fn names_it(statement: Statement, name: Seq<char>) -> bool {
    lets(statement, name) || functions(statement, name)
}

/// Whether some statements declare a name at most once.
pub open spec fn at_most_once(statements: Seq<Statement>, name: Seq<char>) -> bool {
    forall|i: int, j: int|
        0 <= i < statements.len() && 0 <= j < statements.len() && names_it(#[trigger] statements[i], name) && names_it(
            #[trigger] statements[j],
            name,
        ) ==> i == j
}

/// Whether no block of a Program declares a name twice.
pub open spec fn declared_once(p: Program, name: Seq<char>) -> bool {
    &&& at_most_once(p.statements@, name)
    &&& forall|b: BlockId| at_most_once(#[trigger] p.statements_of(Some(b)), name)
}

/// A parameter count of the walk is that of every function that the name is bound to in the block.
pub proof fn lemma_sure(p: Program, scope: ScopeView, name: Seq<char>, a: usize)
    requires
        grounded(p, scope),
        arity_in(scope, name) == Some(a),
        declared_once(p, name),
    ensures
        sure(p, scope.statements, scope.seed, name, a),
{
    let statements = scope.statements;
    let k = choose|k: int| #[trigger] declares_with(p, statements, k, name, a);
    assert(names_it(statements[k], name));
    assert(at_most_once(statements, name));
    if seeded(scope.seed, name) {
        assert(arity_in(scope, name) is None);
    }
    assert forall|j: int| #[trigger] lets_at(statements, j, name) implies arity_of(p, statements[j]) == Some(a) by {
        assert(names_it(statements[j], name));
    }
    assert forall|j: int| 0 <= j < statements.len() && functions(#[trigger] statements[j], name) implies arity_of(
        p,
        statements[j],
    ) == Some(a) by {
        assert(names_it(statements[j], name));
    }
}

} // verus!

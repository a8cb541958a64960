//! What the walk knows of a name at each piece that it comes to.

use vstd::prelude::*;
use crate::ast::ExprId;
use crate::ast::ExpressionKind;
use crate::ast::Function;
use crate::ast::Program;
use crate::ast::Statement;
use crate::ast::StatementKind;
use crate::check::sight::Sight;
use crate::check::sight::consistent;
use crate::check::sight::functions;
use crate::check::sight::hoists;
use crate::check::sight::lets;
use crate::check::sight::lets_at;
use crate::check::sight::over;
use crate::check::sight::over_block;
use crate::check::sight::over_body;
use crate::check::sight::over_named;
use crate::check::sight::over_statement;
use crate::check::sight::part;
use crate::check::sight::seeded;
use crate::check::sight::soiled;
use crate::check::sight::sure;
use crate::check::touring::all_kept;
use crate::check::touring::kept;
use crate::check::touring::lemma_come_to;
use crate::check::touring::lemma_first_close;
use crate::check::touring::lemma_grown_kept;
use crate::check::touring::lemma_kept_chain;
use crate::check::touring::lemma_part_met;
use crate::check::touring::lemma_popped;
use crate::check::touring::lemma_steady;
use crate::check::touring::lemma_waiting_met;
use crate::check::touring::met;
use crate::check::visits::Tour;
use crate::check::visits::calls_name;
use crate::check::visits::closes;
use crate::check::visits::lemma_closes_add;
use crate::check::visits::lemma_closes_none;
use crate::check::visits::lemma_declared_scopes;
use crate::check::visits::lemma_opened;
use crate::check::visits::lemma_simple_statements;
use crate::check::visits::lemma_statement_spreads;
use crate::check::walk::JobView;
use crate::check::walk::ScopeView;
use crate::check::walk::WalkView;
use crate::check::walk::body_job;
use crate::check::walk::first_terminator;
use crate::check::walk::function_arity;
use crate::check::walk::lets_of;
use crate::check::walk::statement_jobs;
use crate::check::walk::walked;
use crate::diagnostics::Span;
use crate::table::has_key;
use crate::table::lemma_put_keys;

verus! {

/// Whether a function's body begins further in than a scope.
pub open spec fn crossed(scopes: Seq<ScopeView>, i: int) -> bool {
    exists|j: int| i < j < scopes.len() && (#[trigger] scopes[j]).body
}

/// Whether none of the `k` innermost scopes binds a name, nor will by the time that a body which waits runs.
pub open spec fn out_of_sight(scopes: Seq<ScopeView>, name: Seq<char>, k: nat) -> bool {
    forall|i: int|
        0 <= i < scopes.len() && scopes.len() - k <= i ==> !has_key((#[trigger] scopes[i]).bindings, name) && (crossed(scopes, i)
            ==> !has_key(scopes[i].lets, name))
}

/// Whether none of the `k` innermost scopes binds a name, nor ever will.
pub open spec fn out_of_reach(scopes: Seq<ScopeView>, name: Seq<char>, k: nat) -> bool {
    forall|i: int|
        0 <= i < scopes.len() && scopes.len() - k <= i ==> !has_key((#[trigger] scopes[i]).bindings, name) && !has_key(
            scopes[i].lets,
            name,
        )
}

/// Whether the scope `k` scopes out binds a name to functions with `a` parameters only.
pub open spec fn in_sight(p: Program, scopes: Seq<ScopeView>, name: Seq<char>, k: nat, a: usize) -> bool {
    k < scopes.len() && sure(p, scopes[scopes.len() - 1 - k].statements, scopes[scopes.len() - 1 - k].seed, name, a)
}

/// Whether a job opens a function's body.
pub open spec fn opens_body(job: JobView) -> bool {
    job matches JobView::Open { body, .. } && body
}

/// Whether a walk comes to a piece with its next job. A name that is called is looked at with the call.
pub open spec fn visits(t: Tour, n: nat, job: JobView) -> bool {
    t.after(n).jobs.len() > 0 && (t.after(n).jobs.last() == job || match (t.after(n).jobs.last(), job) {
        (JobView::Expression(id), JobView::Expression(base)) => calls_name(t.p, id, base),
        _ => false,
    })
}

pub open spec fn visited(t: Tour, job: JobView) -> bool {
    exists|n: nat| #[trigger] visits(t, n, job)
}

pub open spec fn seen_hidden(t: Tour, name: Seq<char>, job: JobView, k: nat) -> bool {
    visited(t, job) && forall|n: nat| #[trigger] visits(t, n, job) ==> if opens_body(job) {
        out_of_reach(t.after(n).scopes, name, k)
    } else {
        out_of_sight(t.after(n).scopes, name, k)
    }
}

pub open spec fn seen_barred(t: Tour, name: Seq<char>, job: JobView, k: nat) -> bool {
    visited(t, job) && forall|n: nat| #[trigger] visits(t, n, job) ==> out_of_reach(t.after(n).scopes, name, k)
}

pub open spec fn seen_known(t: Tour, name: Seq<char>, job: JobView, k: nat, a: usize) -> bool {
    visited(t, job) && forall|n: nat| #[trigger] visits(t, n, job) ==> in_sight(t.p, t.after(n).scopes, name, k, a)
}

/// Whether a statement assigns to a target.
pub open spec fn assigns_to(job: JobView, id: ExprId) -> bool {
    job matches JobView::Statement(statement) && (statement.kind matches StatementKind::Assignment { target, .. } && target
        == id)
}

pub open spec fn seen_target(t: Tour, name: Seq<char>, id: ExprId, k: nat) -> bool {
    forall|n: nat, job: JobView| #[trigger] visits(t, n, job) && assigns_to(job, id) ==> out_of_sight(t.after(n).scopes, name, k)
}

/// What a walk knows of a name.
pub open spec fn sight(t: Tour, name: Seq<char>) -> Sight {
    Sight {
        name,
        live: |job: JobView| visited(t, job),
        hidden: |job: JobView, k: nat| seen_hidden(t, name, job, k),
        barred: |job: JobView, k: nat| seen_barred(t, name, job, k),
        known: |job: JobView, k: nat, a: usize| seen_known(t, name, job, k, a),
        target: |id: ExprId, k: nat| seen_target(t, name, id, k),
    }
}

/// Whether a piece is come to in the scopes of another.
spec fn echoed(t: Tour, n: nat, piece: JobView) -> bool {
    exists|m: nat| #[trigger] echoes(t, n, m, piece)
}

spec fn echoes(t: Tour, n: nat, m: nat, piece: JobView) -> bool {
    &&& visits(t, m, piece)
    &&& t.after(m).scopes.len() == t.after(n).scopes.len()
    &&& all_kept(t.after(n).scopes, t.after(m).scopes, t.after(n).scopes.len())
}

proof fn lemma_crossed(a: Seq<ScopeView>, b: Seq<ScopeView>, c: nat, i: int)
    requires
        all_kept(a, b, c),
        a.len() == c,
        crossed(a, i),
        i >= 0,
    ensures
        crossed(b, i),
{
    let j = choose|j: int| i < j < a.len() && (#[trigger] a[j]).body;
    assert(kept(a[j], b[j]));
    assert(b[j].body);
}

/// What scopes have gained only hides less.
proof fn lemma_kept_sight(p: Program, a: Seq<ScopeView>, b: Seq<ScopeView>, name: Seq<char>, k: nat, n: usize)
    requires
        a.len() == b.len(),
        all_kept(a, b, a.len()),
    ensures
        out_of_sight(b, name, k) ==> out_of_sight(a, name, k),
        out_of_reach(b, name, k) ==> out_of_reach(a, name, k),
        out_of_reach(b, name, k) ==> out_of_sight(a, name, k),
        in_sight(p, b, name, k, n) ==> in_sight(p, a, name, k, n),
{
    assert forall|i: int| 0 <= i < a.len() && a.len() - k <= i && out_of_sight(b, name, k) implies !has_key(
        (#[trigger] a[i]).bindings,
        name,
    ) && (crossed(a, i) ==> !has_key(a[i].lets, name)) by {
        assert(kept(a[i], b[i]));
        assert(has_key(b[i].lets, name) == has_key(a[i].lets, name));
        if crossed(a, i) {
            lemma_crossed(a, b, a.len(), i);
        }
    }
    assert forall|i: int| 0 <= i < a.len() && a.len() - k <= i && out_of_reach(b, name, k) implies !has_key(
        (#[trigger] a[i]).bindings,
        name,
    ) && !has_key(a[i].lets, name) by {
        assert(kept(a[i], b[i]));
        assert(has_key(b[i].lets, name) == has_key(a[i].lets, name));
    }
    if k < a.len() {
        assert(kept(a[a.len() - 1 - k], b[a.len() - 1 - k]));
    }
}

proof fn lemma_over(t: Tour, name: Seq<char>, whole: JobView, piece: JobView)
    requires
        visited(t, whole),
        forall|n: nat| #[trigger] visits(t, n, whole) ==> echoed(t, n, piece),
        !opens_body(whole),
    ensures
        !opens_body(piece) ==> over(sight(t, name), whole, piece),
        opens_body(piece) ==> over_body(sight(t, name), whole, piece),
{
    let s = sight(t, name);
    let first = choose|n: nat| #[trigger] visits(t, n, whole);
    assert(echoed(t, first, piece));
    let m = choose|m: nat| #[trigger] echoes(t, first, m, piece);
    assert(visits(t, m, piece));
    assert forall|k: nat| #[trigger] s.hides(piece, k) && !opens_body(piece) implies s.hides(whole, k) by {
        assert forall|n: nat| #[trigger] visits(t, n, whole) implies out_of_sight(t.after(n).scopes, name, k) by {
            let x = choose|x: nat| #[trigger] echoes(t, n, x, piece);
            lemma_kept_sight(t.p, t.after(n).scopes, t.after(x).scopes, name, k, 0);
        }
    }
    assert forall|k: nat| #[trigger] s.bars(piece, k) implies s.bars(whole, k) by {
        assert forall|n: nat| #[trigger] visits(t, n, whole) implies out_of_reach(t.after(n).scopes, name, k) by {
            let x = choose|x: nat| #[trigger] echoes(t, n, x, piece);
            lemma_kept_sight(t.p, t.after(n).scopes, t.after(x).scopes, name, k, 0);
        }
    }
    assert forall|k: nat| #[trigger] s.hides(piece, k) && opens_body(piece) implies s.bars(whole, k) by {
        assert forall|n: nat| #[trigger] visits(t, n, whole) implies out_of_reach(t.after(n).scopes, name, k) by {
            let x = choose|x: nat| #[trigger] echoes(t, n, x, piece);
            lemma_kept_sight(t.p, t.after(n).scopes, t.after(x).scopes, name, k, 0);
        }
    }
    assert forall|k: nat, a: usize| #[trigger] s.knows(piece, k, a) implies s.knows(whole, k, a) by {
        assert forall|n: nat| #[trigger] visits(t, n, whole) implies in_sight(t.p, t.after(n).scopes, name, k, a) by {
            let x = choose|x: nat| #[trigger] echoes(t, n, x, piece);
            lemma_kept_sight(t.p, t.after(n).scopes, t.after(x).scopes, name, k, a);
        }
    }
}

proof fn lemma_part_over(t: Tour, end: nat, name: Seq<char>, whole: JobView, piece: JobView)
    requires
        t.done(end),
        visited(t, whole),
        part(t.p, whole, piece),
    ensures
        over(sight(t, name), whole, piece),
{
    assert forall|n: nat| #[trigger] visits(t, n, whole) implies echoed(t, n, piece) by {
        assert(t.after(n).jobs.last() == whole);
        lemma_part_met(t, end, n, piece);
        if exists|m: nat| #[trigger] met(t, m, piece, t.after(n).scopes) {
            let m = choose|m: nat| #[trigger] met(t, m, piece, t.after(n).scopes);
            assert(echoes(t, n, m, piece));
        } else {
            assert(echoes(t, n, n, piece));
        }
    }
    lemma_over(t, name, whole, piece);
}

proof fn lemma_literal_over(t: Tour, end: nat, name: Seq<char>, id: ExprId, function: Function)
    requires
        t.done(end),
        visited(t, JobView::Expression(id)),
        t.p.expr(id).kind == ExpressionKind::Function(function),
    ensures
        over_body(sight(t, name), JobView::Expression(id), body_job(t.p, function)),
{
    let whole = JobView::Expression(id);
    let piece = body_job(t.p, function);
    assert forall|n: nat| #[trigger] visits(t, n, whole) implies echoed(t, n, piece) by {
        lemma_waiting_met(t, end, n, function);
        let m = choose|m: nat| #[trigger] met(t, m, piece, t.after(n).scopes);
        assert(echoes(t, n, m, piece));
    }
    lemma_over(t, name, whole, piece);
}

/// Whether a scope of the walk is that of a block.
pub open spec fn scope_of(
    scope: ScopeView,
    statements: Seq<Statement>,
    seed: Seq<(Seq<char>, Span)>,
    body: bool,
) -> bool {
    &&& scope.body == body
    &&& scope.statements == statements
    &&& scope.seed == seed
    &&& forall|name: Seq<char>|
        #[trigger] has_key(scope.lets, name) == has_key(lets_of(statements, statements.len() as int), name)
    &&& forall|i: int| 0 <= i < seed.len() ==> has_key(scope.bindings, (#[trigger] seed[i]).0)
    &&& forall|i: int|
        0 <= i < statements.len() ==> ((#[trigger] statements[i]).kind matches StatementKind::Function { name, .. } ==> has_key(
            scope.bindings,
            name.name@,
        ))
}

proof fn lemma_scope_kept(a: ScopeView, b: ScopeView, statements: Seq<Statement>, seed: Seq<(Seq<char>, Span)>, body: bool)
    requires
        scope_of(a, statements, seed, body),
        kept(a, b),
    ensures
        scope_of(b, statements, seed, body),
{
    assert forall|name: Seq<char>| #[trigger] has_key(b.lets, name) == has_key(
        lets_of(statements, statements.len() as int),
        name,
    ) by {
        assert(has_key(a.lets, name) == has_key(lets_of(statements, statements.len() as int), name));
    }
    assert forall|i: int| 0 <= i < seed.len() implies has_key(b.bindings, (#[trigger] seed[i]).0) by {
        assert(has_key(a.bindings, seed[i].0));
    }
    assert forall|i: int| 0 <= i < statements.len() implies ((#[trigger] statements[i]).kind matches StatementKind::Function {
        name,
        ..
    } ==> has_key(b.bindings, name.name@)) by {
        if let StatementKind::Function { name, .. } = statements[i].kind {
            assert(has_key(a.bindings, name.name@));
        }
    }
}

proof fn lemma_let_keys(statements: Seq<Statement>, n: int, name: Seq<char>, k: int)
    requires
        0 <= k < n <= statements.len(),
        lets_at(statements, k, name),
    ensures
        has_key(lets_of(statements, n), name),
    decreases n,
{
    if k < n - 1 {
        lemma_let_keys(statements, n - 1, name, k);
    }
    if let StatementKind::Let { name: bound, .. } = statements[n - 1].kind {
        if n - 1 <= first_terminator(statements, 0) {
            lemma_put_keys(lets_of(statements, n - 1), bound.name@, false);
        }
    }
}

/// A block whose scope does not have a name, nor a `let` of it, never binds it.
proof fn lemma_unsoiled(scope: ScopeView, statements: Seq<Statement>, seed: Seq<(Seq<char>, Span)>, body: bool, name: Seq<char>)
    requires
        scope_of(scope, statements, seed, body),
        !has_key(scope.bindings, name),
    ensures
        !seeded(seed, name),
        !hoists(statements, name),
        !has_key(scope.lets, name) ==> !soiled(statements, seed, name),
{
    if hoists(statements, name) {
        let k = choose|k: int| 0 <= k < statements.len() && functions(#[trigger] statements[k], name);
        assert(has_key(scope.bindings, name));
    }
    if !has_key(scope.lets, name) && exists|k: int| #[trigger] lets_at(statements, k, name) {
        let k = choose|k: int| #[trigger] lets_at(statements, k, name);
        lemma_let_keys(statements, statements.len() as int, name, k);
        assert(has_key(scope.lets, name) == has_key(lets_of(statements, statements.len() as int), name));
    }
}

/// Whether a time is inside a block that is opened at another time.
pub open spec fn within(t: Tour, n: nat, m: nat, statements: Seq<Statement>, seed: Seq<(Seq<char>, Span)>, body: bool) -> bool {
    let outer = t.after(n).scopes;
    let inner = t.after(m).scopes;
    &&& inner.len() == outer.len() + 1
    &&& all_kept(outer, inner, outer.len())
    &&& scope_of(inner[outer.len() as int], statements, seed, body)
}

proof fn lemma_within_kept(
    t: Tour,
    n: nat,
    m: nat,
    x: nat,
    statements: Seq<Statement>,
    seed: Seq<(Seq<char>, Span)>,
    body: bool,
)
    requires
        within(t, n, m, statements, seed, body),
        t.after(x).scopes.len() == t.after(m).scopes.len(),
        all_kept(t.after(m).scopes, t.after(x).scopes, t.after(m).scopes.len()),
    ensures
        within(t, n, x, statements, seed, body),
{
    let outer = t.after(n).scopes;
    let middle = t.after(m).scopes;
    let inner = t.after(x).scopes;
    assert(all_kept(middle, inner, outer.len())) by {
        assert forall|i: int| 0 <= i < outer.len() implies kept(middle[i], #[trigger] inner[i]) by {}
    }
    lemma_kept_chain(outer, middle, inner, outer.len());
    assert(kept(middle[outer.len() as int], inner[outer.len() as int]));
    lemma_scope_kept(middle[outer.len() as int], inner[outer.len() as int], statements, seed, body);
}

/// Where the walk has got to when a block has been opened.
pub proof fn lemma_entered(t: Tour, n: nat, statements: Seq<Statement>, seed: Seq<(Seq<char>, Span)>, body: bool)
    requires
        t.after(n).jobs.len() > 0,
        t.after(n).jobs.last() == (JobView::Open { statements, seed, body }),
    ensures
        within(t, n, n + 1, statements, seed, body),
        t.after(n + 1).jobs == t.after(n).jobs.drop_last().push(JobView::Close).push(JobView::Deferred) + statement_jobs(
            statements,
            0,
        ),
        closes(t.after(n).jobs.drop_last()) == t.after(n).scopes.len(),
{
    lemma_steady(t, n);
    let v = t.after(n);
    let rest = WalkView { jobs: v.jobs.drop_last(), ..v };
    lemma_opened(rest, t.p, statements, seed, body);
    lemma_popped(v.jobs);
    let w = t.after(n + 1);
    assert(all_kept(v.scopes, w.scopes, v.scopes.len())) by {
        assert forall|i: int| 0 <= i < v.scopes.len() implies kept(v.scopes[i], #[trigger] w.scopes[i]) by {
            assert(w.scopes[i] == v.scopes[i]);
        }
    }
}

proof fn lemma_job_prefix(statements: Seq<Statement>, k: int)
    requires
        0 <= k <= statements.len(),
    ensures
        statement_jobs(statements, k).len() <= statement_jobs(statements, 0).len(),
        forall|i: int|
            0 <= i < statement_jobs(statements, k).len() ==> #[trigger] statement_jobs(statements, 0)[i] == statement_jobs(
                statements,
                k,
            )[i],
    decreases k,
{
    if k > 0 {
        lemma_job_prefix(statements, k - 1);
        let inner = statement_jobs(statements, k);
        let outer = statement_jobs(statements, k - 1);
        assert forall|i: int| 0 <= i < inner.len() implies #[trigger] statement_jobs(statements, 0)[i] == inner[i] by {
            assert(outer[i] == inner[i]);
        }
    }
}

/// Where the job of a statement lies when its block has been opened.
pub open spec fn place_of(t: Tour, n: nat, statements: Seq<Statement>, i: int) -> int {
    t.after(n).jobs.len() as int + 1 + statement_jobs(statements, i + 1).len()
}

pub proof fn lemma_place_of(t: Tour, n: nat, statements: Seq<Statement>, seed: Seq<(Seq<char>, Span)>, body: bool, i: int)
    requires
        t.after(n).jobs.len() > 0,
        t.after(n).jobs.last() == (JobView::Open { statements, seed, body }),
        0 <= i < statements.len(),
        walked(statements, i),
    ensures
        0 <= place_of(t, n, statements, i) < t.after(n + 1).jobs.len(),
        t.after(n + 1).jobs[place_of(t, n, statements, i)] == JobView::Statement(statements[i]),
        closes(t.after(n + 1).jobs.take(place_of(t, n, statements, i) + 1)) == t.after(n).scopes.len() + 1,
{
    lemma_entered(t, n, statements, seed, body);
    lemma_job_prefix(statements, i);
    let all = statement_jobs(statements, 0);
    let own = statement_jobs(statements, i);
    let at = statement_jobs(statements, i + 1).len() as int;
    assert(own[at] == JobView::Statement(statements[i]));
    assert(all[at] == own[at]);
    let jobs = t.after(n + 1).jobs;
    let rest = t.after(n).jobs.drop_last();
    let closed = rest.push(JobView::Close);
    let base = closed.push(JobView::Deferred);
    let d = place_of(t, n, statements, i);
    assert(base.len() + at == d);
    assert(jobs[d] == all[at]);
    let some = all.take(at + 1);
    lemma_simple_statements(statements, 0);
    assert forall|x: int| 0 <= x < some.len() implies !((#[trigger] some[x]) is Close) by {
        assert(some[x] == all[x]);
    }
    lemma_closes_none(some);
    lemma_closes_add(base, some);
    assert(jobs.take(d + 1) =~= base + some);
    lemma_popped(base);
    assert(base.drop_last() =~= closed);
    lemma_popped(closed);
    assert(closed.drop_last() =~= rest);
}

/// Every statement that is walked is come to inside its block.
proof fn lemma_walked_met(t: Tour, end: nat, n: nat, statements: Seq<Statement>, seed: Seq<(Seq<char>, Span)>, body: bool, i: int) -> (m: nat)
    requires
        t.done(end),
        t.after(n).jobs.len() > 0,
        t.after(n).jobs.last() == (JobView::Open { statements, seed, body }),
        0 <= i < statements.len(),
        walked(statements, i),
    ensures
        within(t, n, m, statements, seed, body),
        t.after(m).jobs.len() > 0,
        t.after(m).jobs.last() == JobView::Statement(statements[i]),
        t.after(m).jobs.len() == place_of(t, n, statements, i) + 1,
        forall|x: int| 0 <= x < t.after(m).jobs.len() ==> #[trigger] t.after(m).jobs[x] == t.after(n + 1).jobs[x],
{
    lemma_entered(t, n, statements, seed, body);
    lemma_place_of(t, n, statements, seed, body, i);
    let d = place_of(t, n, statements, i);
    let m = lemma_come_to(t, end, n + 1, d);
    assert(t.after(m).jobs[d] == t.after(n + 1).jobs[d]);
    lemma_grown_kept(t.after(n + 1).scopes, t.after(m).scopes, t.after(m).scopes.len());
    lemma_within_kept(t, n, n + 1, m, statements, seed, body);
    m
}

/// The names that the statements before one have declared by the time that it is come to.
pub open spec fn has_let(t: Tour, n: nat, m: nat, statements: Seq<Statement>, i: int) -> bool {
    forall|j: int|
        0 <= j < i ==> ((#[trigger] statements[j]).kind matches StatementKind::Let { name, .. } ==> has_key(
            t.after(m).scopes[t.after(n).scopes.len() as int].bindings,
            name.name@,
        ))
}

proof fn lemma_has_let_kept(t: Tour, n: nat, m: nat, x: nat, statements: Seq<Statement>, i: int)
    requires
        has_let(t, n, m, statements, i),
        t.after(m).scopes.len() == t.after(n).scopes.len() + 1,
        t.after(x).scopes.len() == t.after(m).scopes.len(),
        all_kept(t.after(m).scopes, t.after(x).scopes, t.after(m).scopes.len()),
    ensures
        has_let(t, n, x, statements, i),
{
    let at = t.after(n).scopes.len() as int;
    assert(kept(t.after(m).scopes[at], t.after(x).scopes[at]));
    assert forall|j: int| 0 <= j < i implies ((#[trigger] statements[j]).kind matches StatementKind::Let { name, .. }
        ==> has_key(t.after(x).scopes[at].bindings, name.name@)) by {
        if let StatementKind::Let { name, .. } = statements[j].kind {
            assert(has_key(t.after(m).scopes[at].bindings, name.name@));
        }
    }
}

/// Where the walk has got to when one statement of a block is come to: at its job, with the names of the
/// `let`s before it.
pub open spec fn arrived(
    t: Tour,
    n: nat,
    m: nat,
    statements: Seq<Statement>,
    seed: Seq<(Seq<char>, Span)>,
    body: bool,
    i: int,
    d: int,
) -> bool {
    &&& within(t, n, m, statements, seed, body)
    &&& t.after(m).jobs.len() > d
    &&& forall|x: int| 0 <= x <= d ==> #[trigger] t.after(m).jobs[x] == t.after(n + 1).jobs[x]
    &&& has_let(t, n, m, statements, i)
}

/// What a statement leaves for the next one.
proof fn lemma_statement_left(
    t: Tour,
    n: nat,
    k: nat,
    statements: Seq<Statement>,
    seed: Seq<(Seq<char>, Span)>,
    body: bool,
    i: int,
    d: int,
)
    requires
        0 < i < statements.len(),
        arrived(t, n, k, statements, seed, body, i - 1, d + 1),
        d >= 0,
        t.after(k).jobs.len() == d + 2,
        t.after(k).jobs.last() == JobView::Statement(statements[i - 1]),
    ensures
        arrived(t, n, k + 1, statements, seed, body, i - 1, d),
        statements[i - 1].kind matches StatementKind::Let { name, initializer, .. } ==> t.after(k + 1).jobs.len() > d + 1
            && t.after(k + 1).jobs[d + 1] == (JobView::Declare { name, arity: function_arity(t.p, initializer) }),
{
    let v = t.after(k);
    let w = t.after(k + 1);
    let first = t.after(n + 1);
    lemma_steady(t, k);
    lemma_first_close(v.jobs);
    lemma_popped(v.jobs);
    let rest = WalkView { jobs: v.jobs.drop_last(), ..v };
    lemma_statement_spreads(rest, t.p, t.policy, statements[i - 1]);
    lemma_grown_kept(v.scopes, w.scopes, v.scopes.len());
    lemma_within_kept(t, n, k, k + 1, statements, seed, body);
    lemma_has_let_kept(t, n, k, k + 1, statements, i - 1);
    assert forall|x: int| 0 <= x <= d implies #[trigger] w.jobs[x] == first.jobs[x] by {
        assert(w.jobs[x] == rest.jobs[x]);
        assert(rest.jobs[x] == v.jobs[x]);
    }
}

/// A `let` has bound its name when the next statement is come to.
proof fn lemma_let_left(
    t: Tour,
    end: nat,
    n: nat,
    k: nat,
    statements: Seq<Statement>,
    seed: Seq<(Seq<char>, Span)>,
    body: bool,
    i: int,
    d: int,
) -> (m: nat)
    requires
        t.done(end),
        0 < i < statements.len(),
        arrived(t, n, k, statements, seed, body, i - 1, d),
        d >= 0,
        closes(t.after(n + 1).jobs.take(d + 1)) == t.after(n).scopes.len() + 1,
        t.after(n + 1).jobs.len() > d,
        statements[i - 1].kind matches StatementKind::Let { name, initializer, .. } && t.after(k).jobs.len() > d + 1
            && t.after(k).jobs[d + 1] == (JobView::Declare { name, arity: function_arity(t.p, initializer) }),
    ensures
        arrived(t, n, m, statements, seed, body, i, d),
        t.after(m).jobs.len() == d + 1,
{
    let w = t.after(k);
    let first = t.after(n + 1);
    let x = lemma_come_to(t, end, k, d + 1);
    let below = w.jobs.take(d + 2);
    assert(below.drop_last() =~= w.jobs.take(d + 1));
    assert(w.jobs.take(d + 1) =~= first.jobs.take(d + 1));
    lemma_popped(below);
    let y = t.after(x);
    lemma_steady(t, x);
    lemma_grown_kept(w.scopes, y.scopes, y.scopes.len());
    lemma_within_kept(t, n, k, x, statements, seed, body);
    lemma_has_let_kept(t, n, k, x, statements, i - 1);
    if let StatementKind::Let { name, initializer, .. } = statements[i - 1].kind {
        assert(y.jobs[d + 1] == w.jobs[d + 1]);
        let others = WalkView { jobs: y.jobs.drop_last(), ..y };
        let z = t.after(x + 1);
        lemma_declared_scopes(others, t.p, name, function_arity(t.p, initializer));
        lemma_grown_kept(y.scopes, z.scopes, y.scopes.len());
        lemma_within_kept(t, n, x, x + 1, statements, seed, body);
        lemma_has_let_kept(t, n, x, x + 1, statements, i - 1);
        assert forall|x: int| 0 <= x <= d implies #[trigger] z.jobs[x] == first.jobs[x] by {
            assert(z.jobs[x] == y.jobs[x]);
            assert(y.jobs[x] == w.jobs[x]);
        }
    }
    x + 1
}

/// A statement that can run is come to with the names of the `let`s before it.
pub proof fn lemma_statement_met(
    t: Tour,
    end: nat,
    n: nat,
    statements: Seq<Statement>,
    seed: Seq<(Seq<char>, Span)>,
    body: bool,
    i: int,
) -> (m: nat)
    requires
        t.done(end),
        t.after(n).jobs.len() > 0,
        t.after(n).jobs.last() == (JobView::Open { statements, seed, body }),
        0 <= i < statements.len(),
        i <= first_terminator(statements, 0),
    ensures
        arrived(t, n, m, statements, seed, body, i, place_of(t, n, statements, i)),
        t.after(m).jobs.len() == place_of(t, n, statements, i) + 1,
        t.after(m).jobs.last() == JobView::Statement(statements[i]),
    decreases i,
{
    let d = place_of(t, n, statements, i);
    lemma_place_of(t, n, statements, seed, body, i);
    if i == 0 {
        lemma_walked_met(t, end, n, statements, seed, body, 0)
    } else {
        assert(walked(statements, i));
        assert(place_of(t, n, statements, i - 1) == d + 1);
        let k = lemma_statement_met(t, end, n, statements, seed, body, i - 1);
        lemma_statement_left(t, n, k, statements, seed, body, i, d);
        let w = t.after(k + 1);
        let first = t.after(n + 1);
        assert(w.jobs.take(d + 1) =~= first.jobs.take(d + 1));
        if statements[i - 1].kind is Let {
            let m = lemma_let_left(t, end, n, k + 1, statements, seed, body, i, d);
            assert(t.after(m).jobs[d] == first.jobs[d]);
            m
        } else {
            let m = lemma_come_to(t, end, k + 1, d);
            lemma_grown_kept(w.scopes, t.after(m).scopes, t.after(m).scopes.len());
            lemma_within_kept(t, n, k + 1, m, statements, seed, body);
            lemma_has_let_kept(t, n, k + 1, m, statements, i - 1);
            assert forall|x: int| 0 <= x <= d implies #[trigger] t.after(m).jobs[x] == first.jobs[x] by {
                assert(t.after(m).jobs[x] == w.jobs[x]);
                assert(w.jobs[x] == first.jobs[x]);
            }
            assert(has_let(t, n, m, statements, i));
            m
        }
    }
}

/// What is seen in a block is seen around it.
proof fn lemma_outer_sight(t: Tour, name: Seq<char>, n: nat, m: nat, statements: Seq<Statement>, seed: Seq<(Seq<char>, Span)>, body: bool, k: nat, a: usize)
    requires
        within(t, n, m, statements, seed, body),
    ensures
        k > 0 && out_of_sight(t.after(m).scopes, name, k) ==> !seeded(seed, name) && !hoists(statements, name) && !has_key(
            t.after(m).scopes[t.after(n).scopes.len() as int].bindings,
            name,
        ) && if body {
            out_of_reach(t.after(n).scopes, name, (k - 1) as nat)
        } else {
            out_of_sight(t.after(n).scopes, name, (k - 1) as nat)
        },
        k > 0 && out_of_reach(t.after(m).scopes, name, k) ==> !soiled(statements, seed, name) && out_of_reach(
            t.after(n).scopes,
            name,
            (k - 1) as nat,
        ),
        in_sight(t.p, t.after(m).scopes, name, k, a) ==> if k > 0 {
            in_sight(t.p, t.after(n).scopes, name, (k - 1) as nat, a)
        } else {
            sure(t.p, statements, seed, name, a)
        },
{
    let outer = t.after(n).scopes;
    let inner = t.after(m).scopes;
    let at = outer.len() as int;
    if k > 0 && out_of_sight(inner, name, k) {
        assert(!has_key(inner[at].bindings, name));
        lemma_unsoiled(inner[at], statements, seed, body, name);
        assert forall|i: int| 0 <= i < outer.len() && outer.len() - (k - 1) <= i implies !has_key(
            (#[trigger] outer[i]).bindings,
            name,
        ) && (body || crossed(outer, i) ==> !has_key(outer[i].lets, name)) by {
            assert(kept(outer[i], inner[i]));
            assert(has_key(inner[i].lets, name) == has_key(outer[i].lets, name));
            if body {
                assert(inner[at].body);
                assert(crossed(inner, i));
            } else if crossed(outer, i) {
                lemma_crossed(outer, inner, outer.len(), i);
            }
        }
    }
    if k > 0 && out_of_reach(inner, name, k) {
        assert(!has_key(inner[at].bindings, name));
        lemma_unsoiled(inner[at], statements, seed, body, name);
        assert forall|i: int| 0 <= i < outer.len() && outer.len() - (k - 1) <= i implies !has_key(
            (#[trigger] outer[i]).bindings,
            name,
        ) && !has_key(outer[i].lets, name) by {
            assert(kept(outer[i], inner[i]));
            assert(has_key(inner[i].lets, name) == has_key(outer[i].lets, name));
        }
    }
    if in_sight(t.p, inner, name, k, a) && k > 0 {
        assert(kept(outer[at - k], inner[at - k]));
    }
}

#[verifier::spinoff_prover]
proof fn lemma_over_statement(t: Tour, end: nat, name: Seq<char>, statements: Seq<Statement>, seed: Seq<(Seq<char>, Span)>, body: bool, i: int)
    requires
        t.done(end),
        visited(t, JobView::Open { statements, seed, body }),
        0 <= i < statements.len(),
        i <= first_terminator(statements, 0),
    ensures
        over_statement(t.p, sight(t, name), statements, seed, body, i),
{
    let s = sight(t, name);
    let whole = JobView::Open { statements, seed, body };
    let piece = JobView::Statement(statements[i]);
    let first = choose|n: nat| #[trigger] visits(t, n, whole);
    let there = lemma_statement_met(t, end, first, statements, seed, body, i);
    assert(visits(t, there, piece));
    assert forall|k: nat| #[trigger] s.hides(piece, k) && k > 0 implies s.hides(whole, (k - 1) as nat) && !seeded(seed, s.name)
        && !hoists(statements, s.name) && forall|j: int| 0 <= j < i ==> !lets(#[trigger] statements[j], s.name) by {
        lemma_outer_sight(t, name, first, there, statements, seed, body, k, 0);
        assert forall|j: int| 0 <= j < i implies !lets(#[trigger] statements[j], s.name) by {
            if lets(statements[j], s.name) {
                assert(has_key(t.after(there).scopes[t.after(first).scopes.len() as int].bindings, name));
            }
        }
        assert forall|n: nat| #[trigger] visits(t, n, whole) implies if opens_body(whole) {
            out_of_reach(t.after(n).scopes, name, (k - 1) as nat)
        } else {
            out_of_sight(t.after(n).scopes, name, (k - 1) as nat)
        } by {
            let m = lemma_statement_met(t, end, n, statements, seed, body, i);
            assert(visits(t, m, piece));
            lemma_outer_sight(t, name, n, m, statements, seed, body, k, 0);
        }
        assert(seen_hidden(t, name, whole, (k - 1) as nat));
    }
    assert forall|k: nat| #[trigger] s.bars(piece, k) && k > 0 implies s.bars(whole, (k - 1) as nat) && !soiled(
        statements,
        seed,
        s.name,
    ) by {
        lemma_outer_sight(t, name, first, there, statements, seed, body, k, 0);
        assert forall|n: nat| #[trigger] visits(t, n, whole) implies out_of_reach(t.after(n).scopes, name, (k - 1) as nat) by {
            let m = lemma_statement_met(t, end, n, statements, seed, body, i);
            assert(visits(t, m, piece));
            lemma_outer_sight(t, name, n, m, statements, seed, body, k, 0);
        }
        assert(seen_barred(t, name, whole, (k - 1) as nat));
    }
    assert forall|k: nat, a: usize| #[trigger] s.knows(piece, k, a) implies if k > 0 {
        s.knows(whole, (k - 1) as nat, a)
    } else {
        sure(t.p, statements, seed, s.name, a)
    } by {
        lemma_outer_sight(t, name, first, there, statements, seed, body, k, a);
        if k > 0 {
            assert forall|n: nat| #[trigger] visits(t, n, whole) implies in_sight(t.p, t.after(n).scopes, name, (k - 1) as nat, a) by {
                let m = lemma_statement_met(t, end, n, statements, seed, body, i);
                assert(visits(t, m, piece));
                lemma_outer_sight(t, name, n, m, statements, seed, body, k, a);
            }
            assert(seen_known(t, name, whole, (k - 1) as nat, a));
        }
    }
}

/// The body of a function that a block declares is come to inside the block.
proof fn lemma_named_met(t: Tour, end: nat, n: nat, statements: Seq<Statement>, seed: Seq<(Seq<char>, Span)>, body: bool, i: int, function: Function) -> (m: nat)
    requires
        t.done(end),
        t.after(n).jobs.len() > 0,
        t.after(n).jobs.last() == (JobView::Open { statements, seed, body }),
        0 <= i < statements.len(),
        statements[i].kind matches StatementKind::Function { function: f, .. } && f == function,
    ensures
        within(t, n, m, statements, seed, body),
        visits(t, m, body_job(t.p, function)),
{
    let k = lemma_walked_met(t, end, n, statements, seed, body, i);
    lemma_waiting_met(t, end, k, function);
    let m = choose|m: nat| #[trigger] met(t, m, body_job(t.p, function), t.after(k).scopes);
    lemma_within_kept(t, n, k, m, statements, seed, body);
    m
}

#[verifier::spinoff_prover]
proof fn lemma_over_named(t: Tour, end: nat, name: Seq<char>, statements: Seq<Statement>, seed: Seq<(Seq<char>, Span)>, body: bool, i: int, function: Function)
    requires
        t.done(end),
        visited(t, JobView::Open { statements, seed, body }),
        0 <= i < statements.len(),
        statements[i].kind matches StatementKind::Function { function: f, .. } && f == function,
    ensures
        over_named(t.p, sight(t, name), statements, seed, body, function),
{
    let s = sight(t, name);
    let whole = JobView::Open { statements, seed, body };
    let piece = body_job(t.p, function);
    let first = choose|n: nat| #[trigger] visits(t, n, whole);
    let there = lemma_named_met(t, end, first, statements, seed, body, i, function);
    assert forall|k: nat| (s.hides(piece, k) || s.bars(piece, k)) && k > 0 implies #[trigger] s.bars(whole, (k - 1) as nat)
        && !soiled(statements, seed, s.name) by {
        lemma_outer_sight(t, name, first, there, statements, seed, body, k, 0);
        assert forall|n: nat| #[trigger] visits(t, n, whole) implies out_of_reach(t.after(n).scopes, name, (k - 1) as nat) by {
            let m = lemma_named_met(t, end, n, statements, seed, body, i, function);
            lemma_outer_sight(t, name, n, m, statements, seed, body, k, 0);
        }
        assert(seen_barred(t, name, whole, (k - 1) as nat));
    }
    assert forall|k: nat| (#[trigger] s.hides(piece, k) || s.bars(piece, k)) && k > 0 implies s.bars(whole, (k - 1) as nat)
        && !soiled(statements, seed, s.name) by {
        assert(s.bars(whole, (k - 1) as nat));
    }
    assert forall|k: nat| (#[trigger] s.bars(piece, k)) && k > 0 implies s.bars(whole, (k - 1) as nat) && !soiled(
        statements,
        seed,
        s.name,
    ) by {
        assert(s.bars(whole, (k - 1) as nat));
    }
    assert forall|k: nat, a: usize| #[trigger] s.knows(piece, k, a) implies if k > 0 {
        s.knows(whole, (k - 1) as nat, a)
    } else {
        sure(t.p, statements, seed, s.name, a)
    } by {
        lemma_outer_sight(t, name, first, there, statements, seed, body, k, a);
        if k > 0 {
            assert forall|n: nat| #[trigger] visits(t, n, whole) implies in_sight(t.p, t.after(n).scopes, name, (k - 1) as nat, a) by {
                let m = lemma_named_met(t, end, n, statements, seed, body, i, function);
                lemma_outer_sight(t, name, n, m, statements, seed, body, k, a);
            }
            assert(seen_known(t, name, whole, (k - 1) as nat, a));
        }
    }
}

/// What a walk knows of a name holds together over the tree.
pub proof fn lemma_sight(t: Tour, end: nat, name: Seq<char>)
    requires
        t.done(end),
    ensures
        consistent(t.p, sight(t, name)),
        sight(t, name).lives(JobView::Open { statements: t.p.statements@, seed: t.seed(), body: false }),
{
    let s = sight(t, name);
    let root = JobView::Open { statements: t.p.statements@, seed: t.seed(), body: false };
    assert(t.after(0).jobs.last() == root);
    assert(visits(t, 0, root));
    assert forall|whole: JobView, piece: JobView| s.lives(whole) && #[trigger] part(t.p, whole, piece) implies over(
        s,
        whole,
        piece,
    ) by {
        lemma_part_over(t, end, name, whole, piece);
    }
    assert forall|id: ExprId| #[trigger] s.lives(JobView::Expression(id)) implies (t.p.expr(id).kind
        matches ExpressionKind::Function(function) ==> over_body(s, JobView::Expression(id), body_job(t.p, function))) by {
        if let ExpressionKind::Function(function) = t.p.expr(id).kind {
            lemma_literal_over(t, end, name, id, function);
        }
    }
    assert forall|statement: Statement| #[trigger] s.lives(JobView::Statement(statement)) implies (statement.kind
        matches StatementKind::Assignment { target, .. } ==> forall|k: nat| #[trigger] s.aims(target, k) ==> s.hides(
        JobView::Statement(statement),
        k,
    )) by {
        if let StatementKind::Assignment { target, .. } = statement.kind {
            assert forall|k: nat| #[trigger] s.aims(target, k) implies s.hides(JobView::Statement(statement), k) by {
                assert(assigns_to(JobView::Statement(statement), target));
            }
        }
    }
    assert forall|statements: Seq<Statement>, seed: Seq<(Seq<char>, Span)>, body: bool|
        #[trigger] s.lives(JobView::Open { statements, seed, body }) implies over_block(t.p, s, statements, seed, body) by {
        assert forall|i: int|
            0 <= i < statements.len() && i <= first_terminator(statements, 0) implies #[trigger] over_statement(
            t.p,
            s,
            statements,
            seed,
            body,
            i,
        ) by {
            lemma_over_statement(t, end, name, statements, seed, body, i);
        }
        assert forall|i: int| 0 <= i < statements.len() implies ((#[trigger] statements[i]).kind
            matches StatementKind::Function { function, .. } ==> over_named(t.p, s, statements, seed, body, function)) by {
            if let StatementKind::Function { function, .. } = statements[i].kind {
                lemma_over_named(t, end, name, statements, seed, body, i, function);
            }
        }
    }
}

} // verus!

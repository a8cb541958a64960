//! That the walk comes to every piece of what it walks, in the scopes that were there.

use vstd::prelude::*;
use crate::ast::ExpressionKind;
use crate::ast::Function;
use crate::ast::Program;
use crate::ast::Statement;
use crate::ast::StatementKind;
use crate::check::Policy;
use crate::check::sight::part;
use crate::check::visits::Tour;
use crate::check::visits::all_grown;
use crate::check::visits::calls_name;
use crate::check::visits::closes;
use crate::check::visits::grown;
use crate::check::visits::left;
use crate::check::visits::lemma_closes_add;
use crate::check::visits::lemma_closes_none;
use crate::check::visits::lemma_closes_take;
use crate::check::visits::lemma_declared_scopes;
use crate::check::visits::lemma_defer;
use crate::check::visits::lemma_expression_spreads;
use crate::check::visits::lemma_grown_chain;
use crate::check::visits::lemma_grown_self;
use crate::check::visits::lemma_opened;
use crate::check::visits::lemma_simple_statements;
use crate::check::visits::lemma_statement_spreads;
use crate::check::visits::nested;
use crate::check::visits::spreads;
use crate::check::walk::JobView;
use crate::check::walk::ScopeView;
use crate::check::walk::WalkView;
use crate::check::walk::begun;
use crate::check::walk::body_job;
use crate::check::walk::statement_jobs;
use crate::diagnostics::Span;
use crate::table::has_key;

verus! {

pub proof fn lemma_first_close(jobs: Seq<JobView>)
    requires
        jobs.len() > 0,
        jobs[0] is Close,
    ensures
        closes(jobs) > 0,
{
    lemma_closes_take(jobs, 1);
    let one = jobs.take(1);
    assert(one.last() == jobs[0]);
    assert(closes(one) == closes(one.drop_last()) + 1);
}

/// Whether a walk is well nested, with a scope open for everything but its very first job.
pub open spec fn steady(v: WalkView) -> bool {
    &&& nested(v)
    &&& v.jobs.len() > 0 ==> v.jobs[0] is Close || (v.jobs.len() == 1 && v.jobs[0] is Open)
}

pub proof fn lemma_popped(jobs: Seq<JobView>)
    requires
        jobs.len() > 0,
    ensures
        closes(jobs) == closes(jobs.drop_last()) + if jobs.last() is Close { 1nat } else { 0 },
{
}

/// What a job above position `d` leaves of the jobs up to there and of the scopes around them.
pub open spec fn spares(v: WalkView, after: WalkView, d: int) -> bool {
    &&& after.jobs.len() > d
    &&& forall|i: int| 0 <= i <= d ==> #[trigger] after.jobs[i] == v.jobs[i]
    &&& all_grown(v.scopes, after.scopes, closes(v.jobs.take(d + 1)))
}

/// What a job that only spreads leaves.
proof fn lemma_spread_steady(v: WalkView, after: WalkView)
    requires
        steady(v),
        v.jobs.len() > 1,
        !(v.jobs.last() is Close),
        !(v.jobs.last() is Deferred),
        spreads(WalkView { jobs: v.jobs.drop_last(), ..v }, after),
    ensures
        steady(after),
{
    let rest = v.jobs.drop_last();
    let n = rest.len() as int;
    let more = after.jobs.skip(n);
    assert(after.jobs =~= rest + more);
    lemma_closes_add(rest, more);
    lemma_closes_none(more);
    lemma_popped(v.jobs);
    assert forall|i: int| 0 <= i < after.jobs.len() - 1 && (#[trigger] after.jobs[i]) is Close implies after.jobs[i + 1] is Deferred by {
        if i < n {
            assert(after.jobs[i] == v.jobs[i]);
            assert(v.jobs[i + 1] is Deferred);
            assert(i + 1 < n);
            assert(after.jobs[i + 1] == v.jobs[i + 1]);
        } else {
            assert(after.jobs[i] == more[i - n]);
        }
    }
    assert forall|i: int| 0 <= i < after.jobs.len() && (#[trigger] after.jobs[i]) is Deferred implies i > 0 && after.jobs[i - 1] is Close by {
        if i < n {
            assert(after.jobs[i] == v.jobs[i]);
            assert(v.jobs[i - 1] is Close);
        } else {
            assert(after.jobs[i] == more[i - n]);
        }
    }
    assert(after.jobs[0] == v.jobs[0]);
}

#[verifier::spinoff_prover]
proof fn lemma_open_steady(v: WalkView, p: Program, statements: Seq<Statement>, seed: Seq<(Seq<char>, Span)>, body: bool)
    requires
        steady(v),
        v.jobs.len() > 0,
        v.jobs.last() is Open,
    ensures
        steady((WalkView { jobs: v.jobs.drop_last(), ..v }).opened(p, statements, seed, body)),
{
    let rest = WalkView { jobs: v.jobs.drop_last(), ..v };
    let after = rest.opened(p, statements, seed, body);
    lemma_opened(rest, p, statements, seed, body);
    let n = rest.jobs.len() as int;
    let more = statement_jobs(statements, 0);
    lemma_simple_statements(statements, 0);
    let base = rest.jobs.push(JobView::Close).push(JobView::Deferred);
    assert(after.jobs == base + more);
    lemma_closes_add(base, more);
    lemma_closes_none(more);
    lemma_popped(v.jobs);
    lemma_popped(base);
    assert(base.drop_last() =~= rest.jobs.push(JobView::Close));
    lemma_popped(rest.jobs.push(JobView::Close));
    assert(rest.jobs.push(JobView::Close).drop_last() =~= rest.jobs);
    assert forall|i: int| 0 <= i < after.jobs.len() - 1 && (#[trigger] after.jobs[i]) is Close implies after.jobs[i + 1] is Deferred by {
        if i < n {
            assert(after.jobs[i] == v.jobs[i]);
            assert(v.jobs[i + 1] is Deferred);
        } else if i > n + 1 {
            assert(after.jobs[i] == more[i - n - 2]);
        }
    }
    assert forall|i: int| 0 <= i < after.jobs.len() && (#[trigger] after.jobs[i]) is Deferred implies i > 0 && after.jobs[i - 1] is Close by {
        if i < n {
            assert(after.jobs[i] == v.jobs[i]);
            assert(v.jobs[i - 1] is Close);
        } else if i > n + 1 {
            assert(after.jobs[i] == more[i - n - 2]);
        }
    }
    if n > 0 {
        assert(after.jobs[0] == v.jobs[0]);
    }
}

/// A prefix of the jobs is as steady as all of them.
proof fn lemma_shorter_steady(v: WalkView, after: WalkView)
    requires
        steady(v),
        v.jobs.len() > 0,
        after.jobs == v.jobs.drop_last(),
        after.scopes.len() == closes(after.jobs),
    ensures
        steady(after),
{
    assert forall|i: int| 0 <= i < after.jobs.len() - 1 && (#[trigger] after.jobs[i]) is Close implies after.jobs[i + 1] is Deferred by {
        assert(after.jobs[i] == v.jobs[i]);
        assert(v.jobs[i + 1] is Deferred);
    }
    assert forall|i: int| 0 <= i < after.jobs.len() && (#[trigger] after.jobs[i]) is Deferred implies i > 0 && after.jobs[i - 1] is Close by {
        assert(after.jobs[i] == v.jobs[i]);
        assert(v.jobs[i - 1] is Close);
    }
    if after.jobs.len() > 0 {
        assert(after.jobs[0] == v.jobs[0]);
    }
}

#[verifier::spinoff_prover]
proof fn lemma_resumed_steady(v: WalkView, p: Program)
    requires
        steady(v),
        v.jobs.len() > 0,
        v.jobs.last() is Deferred,
    ensures
        steady((WalkView { jobs: v.jobs.drop_last(), ..v }).resumed(p)),
{
    let rest = WalkView { jobs: v.jobs.drop_last(), ..v };
    let after = rest.resumed(p);
    lemma_popped(v.jobs);
    if v.scopes.len() == 0 || v.scopes.last().deferred.len() == 0 {
        lemma_shorter_steady(v, after);
    } else {
        let open = body_job(p, v.scopes.last().deferred.last());
        assert(after.jobs == rest.jobs.push(JobView::Deferred).push(open));
        lemma_popped(after.jobs);
        assert(after.jobs.drop_last() =~= v.jobs);
        assert forall|i: int| 0 <= i < after.jobs.len() - 1 && (#[trigger] after.jobs[i]) is Close implies after.jobs[i + 1] is Deferred by {
            assert(after.jobs[i] == v.jobs[i]);
            assert(i < v.jobs.len() - 1);
            assert(after.jobs[i + 1] == v.jobs[i + 1]);
        }
        assert forall|i: int| 0 <= i < after.jobs.len() && (#[trigger] after.jobs[i]) is Deferred implies i > 0 && after.jobs[i - 1] is Close by {
            assert(after.jobs[i] == v.jobs[i]);
            assert(v.jobs[i - 1] is Close);
            assert(after.jobs[i - 1] == v.jobs[i - 1]);
        }
        assert(after.jobs[0] == v.jobs[0]);
    }
}

/// One job keeps a walk steady.
pub proof fn lemma_step_steady(v: WalkView, p: Program, policy: Policy, callables: Option<Seq<String>>)
    requires
        steady(v),
    ensures
        steady(v.step(p, policy, callables)),
{
    if v.jobs.len() > 0 {
        let rest = WalkView { jobs: v.jobs.drop_last(), ..v };
        let after = v.step(p, policy, callables);
        lemma_popped(v.jobs);
        if v.jobs[0] is Close {
            lemma_first_close(v.jobs);
        }
        match v.jobs.last() {
            JobView::Open { statements, seed, body } => {
                lemma_open_steady(v, p, statements, seed, body);
            },
            JobView::Statement(statement) => {
                lemma_statement_spreads(rest, p, policy, statement);
                lemma_spread_steady(v, after);
            },
            JobView::Expression(id) => {
                lemma_expression_spreads(rest, p, policy, callables, id);
                lemma_spread_steady(v, after);
            },
            JobView::Declare { name, arity } => {
                lemma_declared_scopes(rest, p, name, arity);
                lemma_shorter_steady(v, after);
            },
            JobView::Deferred => {
                lemma_resumed_steady(v, p);
            },
            JobView::Close => {
                lemma_shorter_steady(v, after);
            },
        }
    }
}

/// One job spares what lies below it.
#[verifier::spinoff_prover]
pub proof fn lemma_step_spares(v: WalkView, p: Program, policy: Policy, callables: Option<Seq<String>>, d: int)
    requires
        steady(v),
        0 <= d < v.jobs.len() - 1,
        !(v.jobs[d] is Close),
    ensures
        spares(v, v.step(p, policy, callables), d),
{
    let rest = WalkView { jobs: v.jobs.drop_last(), ..v };
    let after = v.step(p, policy, callables);
    let c = closes(v.jobs.take(d + 1));
    lemma_popped(v.jobs);
    lemma_first_close(v.jobs);
    lemma_closes_take(v.jobs, d + 1);
    lemma_closes_take(rest.jobs, d + 1);
    assert(rest.jobs.take(d + 1) =~= v.jobs.take(d + 1));
    lemma_grown_self(v.scopes);
    let q = v.jobs.len() - 1;
    match v.jobs.last() {
        JobView::Open { statements, seed, body } => {
            lemma_opened(rest, p, statements, seed, body);
        },
        JobView::Statement(statement) => {
            lemma_statement_spreads(rest, p, policy, statement);
            assert forall|i: int| 0 <= i <= d implies #[trigger] after.jobs[i] == v.jobs[i] by {
                assert(after.jobs[i] == rest.jobs[i]);
            }
        },
        JobView::Expression(id) => {
            lemma_expression_spreads(rest, p, policy, callables, id);
            assert forall|i: int| 0 <= i <= d implies #[trigger] after.jobs[i] == v.jobs[i] by {
                assert(after.jobs[i] == rest.jobs[i]);
            }
        },
        JobView::Declare { name, arity } => {
            lemma_declared_scopes(rest, p, name, arity);
        },
        JobView::Deferred => {
            assert(v.jobs[q] is Deferred);
            assert(v.jobs[q - 1] is Close);
            assert(d < q - 1);
            let tail = rest.jobs.skip(d + 1);
            assert(tail.last() == v.jobs[q - 1]);
            lemma_popped(tail);
            assert(c < v.scopes.len());
        },
        JobView::Close => {
            assert(c < v.scopes.len());
        },
    }
}

impl Tour {
    /// What a job of the tour does next.
    pub open spec fn stepped(self, v: WalkView) -> WalkView {
        v.step(self.p, self.policy, self.callables)
    }
}

pub proof fn lemma_steady(t: Tour, n: nat)
    ensures
        steady(t.after(n)),
        t.after(n + 1) == t.stepped(t.after(n)),
    decreases n,
{
    if n > 0 {
        lemma_steady(t, (n - 1) as nat);
        lemma_step_steady(t.after((n - 1) as nat), t.p, t.policy, t.callables);
    } else {
        let start = begun(t.p, t.names);
        assert(t.after(0) == start);
        lemma_popped(start.jobs);
        assert(start.jobs.drop_last() =~= Seq::empty());
    }
}

pub proof fn lemma_done(t: Tour, end: nat, n: nat)
    requires
        t.done(end),
        end <= n,
    ensures
        t.done(n),
        t.after(n) == t.after(end),
    decreases n,
{
    if end < n {
        lemma_done(t, end, (n - 1) as nat);
    }
}

/// Every job is come to: at some later time it is the next one, with the jobs below it as they were
/// and the scopes around it grown.
pub proof fn lemma_come_to(t: Tour, end: nat, n: nat, d: int) -> (m: nat)
    requires
        t.done(end),
        0 <= d < t.after(n).jobs.len(),
        !(t.after(n).jobs[d] is Close),
    ensures
        n <= m < end,
        t.after(m).jobs.len() == d + 1,
        forall|i: int| 0 <= i <= d ==> #[trigger] t.after(m).jobs[i] == t.after(n).jobs[i],
        t.after(m).scopes.len() == closes(t.after(n).jobs.take(d + 1)),
        all_grown(t.after(n).scopes, t.after(m).scopes, t.after(m).scopes.len()),
    decreases end - n,
{
    if end <= n {
        lemma_done(t, end, n);
    }
    lemma_steady(t, n);
    let v = t.after(n);
    if v.jobs.len() == d + 1 {
        assert(v.jobs.take(d + 1) =~= v.jobs);
        lemma_grown_self(v.scopes);
        n
    } else {
        lemma_step_spares(v, t.p, t.policy, t.callables, d);
        let w = t.after(n + 1);
        let m = lemma_come_to(t, end, n + 1, d);
        assert(w.jobs.take(d + 1) =~= v.jobs.take(d + 1));
        lemma_grown_chain(v.scopes, w.scopes, t.after(m).scopes, t.after(m).scopes.len());
        assert forall|i: int| 0 <= i <= d implies #[trigger] t.after(m).jobs[i] == v.jobs[i] by {
            assert(t.after(m).jobs[i] == w.jobs[i]);
            assert(w.jobs[i] == v.jobs[i]);
        }
        m
    }
}

/// Whether a scope of the walk still has its names.
pub open spec fn kept(a: ScopeView, b: ScopeView) -> bool {
    &&& forall|name: Seq<char>| #[trigger] has_key(a.bindings, name) ==> has_key(b.bindings, name)
    &&& forall|name: Seq<char>| #[trigger] has_key(b.lets, name) == has_key(a.lets, name)
    &&& b.body == a.body
    &&& b.statements == a.statements
    &&& b.seed == a.seed
}

pub open spec fn all_kept(a: Seq<ScopeView>, b: Seq<ScopeView>, c: nat) -> bool {
    &&& c <= a.len()
    &&& c <= b.len()
    &&& forall|i: int| 0 <= i < c ==> kept(a[i], #[trigger] b[i])
}

pub proof fn lemma_grown_kept(a: Seq<ScopeView>, b: Seq<ScopeView>, c: nat)
    requires
        all_grown(a, b, c),
    ensures
        all_kept(a, b, c),
{
    assert forall|i: int| 0 <= i < c implies kept(a[i], #[trigger] b[i]) by {
        assert(grown(a[i], b[i]));
    }
}

pub proof fn lemma_kept_chain(x: Seq<ScopeView>, y: Seq<ScopeView>, z: Seq<ScopeView>, c: nat)
    requires
        all_kept(x, y, c),
        all_kept(y, z, c),
    ensures
        all_kept(x, z, c),
{
    assert forall|i: int| 0 <= i < c implies kept(x[i], #[trigger] z[i]) by {
        assert(kept(x[i], y[i]));
        assert(kept(y[i], z[i]));
        assert forall|name: Seq<char>| #[trigger] has_key(x[i].bindings, name) implies has_key(z[i].bindings, name) by {
            assert(has_key(y[i].bindings, name));
        }
        assert forall|name: Seq<char>| #[trigger] has_key(z[i].lets, name) == has_key(x[i].lets, name) by {
            assert(has_key(y[i].lets, name) == has_key(x[i].lets, name));
        }
    }
}

/// Whether a function's body is come to inside some scopes.
pub open spec fn body_met(t: Tour, function: Function, scopes: Seq<ScopeView>) -> bool {
    exists|m: nat| #[trigger] met(t, m, body_job(t.p, function), scopes)
}

/// Whether a job is the next one at some time, inside some scopes.
pub open spec fn met(t: Tour, m: nat, job: JobView, scopes: Seq<ScopeView>) -> bool {
    &&& t.after(m).jobs.len() > 0
    &&& t.after(m).jobs.last() == job
    &&& t.after(m).scopes.len() == scopes.len()
    &&& all_kept(scopes, t.after(m).scopes, scopes.len())
}

/// Every body that waits is come to.
proof fn lemma_taken_up(t: Tour, end: nat, n: nat, d: int, j: int, function: Function)
    requires
        t.done(end),
        0 <= d < t.after(n).jobs.len(),
        t.after(n).jobs[d] is Deferred,
        0 < closes(t.after(n).jobs.take(d + 1)) <= t.after(n).scopes.len(),
        0 <= j < t.after(n).scopes[closes(t.after(n).jobs.take(d + 1)) - 1].deferred.len(),
        t.after(n).scopes[closes(t.after(n).jobs.take(d + 1)) - 1].deferred[j] == function,
    ensures
        body_met(t, function, t.after(n).scopes.take(closes(t.after(n).jobs.take(d + 1)) as int)),
    decreases end - n,
{
    let v = t.after(n);
    let c = closes(v.jobs.take(d + 1));
    let m = lemma_come_to(t, end, n, d);
    let w = t.after(m);
    lemma_steady(t, m);
    let x = t.after(m + 1);
    assert(w.jobs.last() == v.jobs[d]);
    assert(grown(v.scopes[c - 1], w.scopes[c - 1]));
    assert(w.scopes[c - 1].deferred[j] == function);
    let waiting = w.scopes.last().deferred;
    let outer = v.scopes.take(c as int);
    assert(x.scopes.len() == c);
    assert(all_kept(w.scopes, x.scopes, c)) by {
        assert forall|i: int| 0 <= i < c implies kept(w.scopes[i], #[trigger] x.scopes[i]) by {}
    }
    lemma_grown_kept(v.scopes, w.scopes, c);
    lemma_kept_chain(v.scopes, w.scopes, x.scopes, c);
    assert(all_kept(outer, x.scopes, c)) by {
        assert forall|i: int| 0 <= i < c implies kept(outer[i], #[trigger] x.scopes[i]) by {
            assert(kept(v.scopes[i], x.scopes[i]));
        }
    }
    assert(x.jobs == w.jobs.drop_last().push(JobView::Deferred).push(body_job(t.p, waiting.last())));
    if j == waiting.len() - 1 {
        assert(met(t, m + 1, body_job(t.p, function), outer));
    } else {
        assert(x.jobs.take(d + 1) =~= w.jobs);
        assert(w.jobs =~= v.jobs.take(d + 1));
        assert(x.scopes[c - 1].deferred == waiting.drop_last());
        lemma_taken_up(t, end, m + 1, d, j, function);
        let inner = x.scopes.take(c as int);
        let k = choose|k: nat| #[trigger] met(t, k, body_job(t.p, function), inner);
        assert(inner =~= x.scopes);
        lemma_kept_chain(outer, inner, t.after(k).scopes, c);
        assert(met(t, k, body_job(t.p, function), outer));
    }
}

/// Where the innermost scope is closed.
proof fn lemma_innermost(jobs: Seq<JobView>) -> (q: int)
    requires
        closes(jobs) > 0,
    ensures
        0 <= q < jobs.len(),
        jobs[q] is Close,
        closes(jobs.take(q + 1)) == closes(jobs),
        forall|i: int| q < i < jobs.len() ==> !((#[trigger] jobs[i]) is Close),
    decreases jobs.len(),
{
    if jobs.last() is Close {
        assert(jobs.take(jobs.len() as int) =~= jobs);
        jobs.len() - 1
    } else {
        let q = lemma_innermost(jobs.drop_last());
        assert(jobs.drop_last().take(q + 1) =~= jobs.take(q + 1));
        assert forall|i: int| q < i < jobs.len() implies !((#[trigger] jobs[i]) is Close) by {
            if i < jobs.len() - 1 {
                assert(jobs.drop_last()[i] == jobs[i]);
            }
        }
        q
    }
}

/// A function whose body was made to wait by the last job is come to.
pub proof fn lemma_waiting_met(t: Tour, end: nat, n: nat, function: Function)
    requires
        t.done(end),
        t.after(n).jobs.len() > 0,
        match t.after(n).jobs.last() {
            JobView::Expression(id) => t.p.expr(id).kind == ExpressionKind::Function(function),
            JobView::Statement(statement) => statement.kind matches StatementKind::Function { function: f, .. } && f
                == function,
            _ => false,
        },
    ensures
        body_met(t, function, t.after(n).scopes),
{
    let v = t.after(n);
    lemma_steady(t, n);
    lemma_first_close(v.jobs);
    lemma_popped(v.jobs);
    let rest = WalkView { jobs: v.jobs.drop_last(), ..v };
    let w = t.after(n + 1);
    assert(w == rest.defer(t.policy, function));
    lemma_defer(rest, t.policy, function);
    assert(w.jobs == rest.jobs);
    let q = lemma_innermost(rest.jobs);
    assert(v.jobs[q] is Close);
    assert(v.jobs[q + 1] is Deferred);
    assert(q + 1 < rest.jobs.len());
    assert(rest.jobs[q + 1] is Deferred);
    let below = rest.jobs.take(q + 2);
    assert(below.drop_last() =~= rest.jobs.take(q + 1));
    lemma_popped(below);
    let c = v.scopes.len();
    lemma_taken_up(t, end, n + 1, q + 1, w.scopes.last().deferred.len() - 1, function);
    let inner = w.scopes.take(c as int);
    let k = choose|k: nat| #[trigger] met(t, k, body_job(t.p, function), inner);
    lemma_grown_kept(v.scopes, w.scopes, c);
    assert(inner =~= w.scopes);
    lemma_kept_chain(v.scopes, inner, t.after(k).scopes, c);
    assert(met(t, k, body_job(t.p, function), v.scopes));
}

/// A piece of what was walked last is come to.
pub proof fn lemma_part_met(t: Tour, end: nat, n: nat, piece: JobView)
    requires
        t.done(end),
        t.after(n).jobs.len() > 0,
        part(t.p, t.after(n).jobs.last(), piece),
    ensures
        (exists|m: nat| #[trigger] met(t, m, piece, t.after(n).scopes)) || match (t.after(n).jobs.last(), piece) {
            (JobView::Expression(id), JobView::Expression(base)) => calls_name(t.p, id, base),
            _ => false,
        },
{
    let v = t.after(n);
    lemma_steady(t, n);
    lemma_first_close(v.jobs);
    lemma_popped(v.jobs);
    let rest = WalkView { jobs: v.jobs.drop_last(), ..v };
    let w = t.after(n + 1);
    match v.jobs.last() {
        JobView::Statement(statement) => {
            lemma_statement_spreads(rest, t.p, t.policy, statement);
        },
        JobView::Expression(id) => {
            lemma_expression_spreads(rest, t.p, t.policy, t.callables, id);
        },
        _ => {},
    }
    if left(rest, w, piece) {
        let d = choose|d: int| rest.jobs.len() <= d < w.jobs.len() && #[trigger] w.jobs[d] == piece;
        let more = w.jobs.skip(rest.jobs.len() as int);
        assert(w.jobs[d] == more[d - rest.jobs.len()]);
        let m = lemma_come_to(t, end, n + 1, d);
        let own = w.jobs.take(d + 1).skip(rest.jobs.len() as int);
        assert forall|i: int| 0 <= i < own.len() implies !((#[trigger] own[i]) is Close) by {
            assert(own[i] == more[i]);
        }
        lemma_closes_none(own);
        assert(w.jobs.take(d + 1) =~= rest.jobs + own);
        lemma_closes_add(rest.jobs, own);
        lemma_grown_kept(v.scopes, w.scopes, v.scopes.len());
        lemma_grown_kept(w.scopes, t.after(m).scopes, v.scopes.len());
        lemma_kept_chain(v.scopes, w.scopes, t.after(m).scopes, v.scopes.len());
        assert(t.after(m).jobs.last() == piece) by {
            assert(t.after(m).jobs[d] == w.jobs[d]);
        }
        assert(met(t, m, piece, v.scopes));
    }
}

} // verus!

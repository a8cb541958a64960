//! What one job of the walk leaves to be walked, and what it leaves of the scopes.

use vstd::prelude::*;
use crate::ast::AccessKind;
use crate::ast::AccessLink;
use crate::ast::BlockId;
use crate::ast::ConditionalBranch;
use crate::ast::ExprId;
use crate::ast::ExpressionKind;
use crate::ast::Function;
use crate::ast::Identifier;
use crate::ast::ObjectEntry;
use crate::ast::Program;
use crate::ast::Statement;
use crate::ast::StatementKind;
use crate::check::Policy;
use crate::check::sight::holds_expr;
use crate::check::sight::part;
use crate::check::walk::Binding;
use crate::check::walk::JobView;
use crate::check::walk::ScopeView;
use crate::check::walk::WalkView;
use crate::check::walk::awaiting;
use crate::check::walk::begun;
use crate::check::walk::block_job;
use crate::check::walk::branch_jobs;
use crate::check::walk::entry_jobs;
use crate::check::walk::expression_jobs;
use crate::check::walk::function_arity;
use crate::check::walk::lets_of;
use crate::check::walk::link_jobs;
use crate::check::walk::links_jobs;
use crate::check::walk::resolved;
use crate::check::walk::statement_jobs;
use crate::diagnostics::Span;
use crate::table::has_key;
use crate::table::lemma_put_keys;
use crate::table::put;
use crate::table::value_of;

verus! {

/// A walk over a tree: what it is given.
pub ghost struct Tour {
    pub p: Program,
    pub names: Seq<String>,
    pub policy: Policy,
    pub callables: Option<Seq<String>>,
}

impl Tour {
    /// The walk after `n` jobs.
    pub open spec fn after(self, n: nat) -> WalkView {
        begun(self.p, self.names).steps(self.p, self.policy, self.callables, n)
    }

    /// The names that the outermost scope starts with.
    pub open spec fn seed(self) -> Seq<(Seq<char>, Span)> {
        Seq::new(self.names.len(), |i: int| (self.names[i]@, self.p.span))
    }

    /// Whether the walk is over after `n` jobs.
    pub open spec fn done(self, n: nat) -> bool {
        self.after(n).jobs.len() == 0
    }
}

/// How many scopes some jobs close.
pub open spec fn closes(jobs: Seq<JobView>) -> nat
    decreases jobs.len(),
{
    if jobs.len() == 0 {
        0
    } else {
        closes(jobs.drop_last()) + if jobs.last() is Close { 1nat } else { 0 }
    }
}

/// Whether every scope is closed by one job, above which the bodies that wait in it are taken up.
pub open spec fn nested(v: WalkView) -> bool {
    &&& v.scopes.len() == closes(v.jobs)
    &&& forall|i: int| 0 <= i < v.jobs.len() - 1 && (#[trigger] v.jobs[i]) is Close ==> v.jobs[i + 1] is Deferred
    &&& forall|i: int| 0 <= i < v.jobs.len() && (#[trigger] v.jobs[i]) is Deferred ==> i > 0 && v.jobs[i - 1] is Close
}

pub proof fn lemma_closes_add(a: Seq<JobView>, b: Seq<JobView>)
    ensures
        closes(a + b) == closes(a) + closes(b),
    decreases b.len(),
{
    if b.len() > 0 {
        lemma_closes_add(a, b.drop_last());
        assert((a + b).drop_last() =~= a + b.drop_last());
    } else {
        assert(a + b =~= a);
    }
}

pub proof fn lemma_closes_none(jobs: Seq<JobView>)
    requires
        forall|i: int| 0 <= i < jobs.len() ==> !((#[trigger] jobs[i]) is Close),
    ensures
        closes(jobs) == 0,
    decreases jobs.len(),
{
    if jobs.len() > 0 {
        lemma_closes_none(jobs.drop_last());
    }
}

pub proof fn lemma_closes_take(jobs: Seq<JobView>, d: int)
    requires
        0 <= d <= jobs.len(),
    ensures
        closes(jobs.take(d)) <= closes(jobs),
        closes(jobs) == closes(jobs.take(d)) + closes(jobs.skip(d)),
{
    lemma_closes_add(jobs.take(d), jobs.skip(d));
    assert(jobs.take(d) + jobs.skip(d) =~= jobs);
}

/// Whether some jobs neither close a scope nor take up bodies.
pub open spec fn simple(jobs: Seq<JobView>) -> bool {
    forall|i: int| 0 <= i < jobs.len() ==> !((#[trigger] jobs[i]) is Close) && !(jobs[i] is Deferred)
}

/// Whether statements are a Program's own, or those of one of its blocks.
pub open spec fn stands(p: Program, statements: Seq<Statement>) -> bool {
    statements == p.statements@ || exists|b: BlockId| statements == #[trigger] p.statements_of(Some(b))
}

/// Whether some jobs walk expressions and open blocks of a Program only.
pub open spec fn quiet(p: Program, jobs: Seq<JobView>) -> bool {
    forall|i: int|
        0 <= i < jobs.len() ==> ((#[trigger] jobs[i]) is Expression || (jobs[i] matches JobView::Open { statements, .. }
            && stands(p, statements)))
}

proof fn lemma_block_job(p: Program, body: BlockId, seed: Seq<(Seq<char>, Span)>)
    ensures
        block_job(p, body, seed) matches JobView::Open { statements, .. } && stands(p, statements),
{
    assert(p.statements_of(Some(body)) == p.statements_of(Some(body)));
}

proof fn lemma_simple_expressions(p: Program, ids: Seq<ExprId>, k: int)
    requires
        0 <= k,
    ensures
        quiet(p, expression_jobs(ids, k)),
        forall|i: int| k <= i < ids.len() ==> expression_jobs(ids, k).contains(JobView::Expression(#[trigger] ids[i])),
    decreases ids.len() - k,
{
    if k < ids.len() {
        lemma_simple_expressions(p, ids, k + 1);
        let rest = expression_jobs(ids, k + 1);
        let all = expression_jobs(ids, k);
        assert forall|i: int| k <= i < ids.len() implies all.contains(JobView::Expression(#[trigger] ids[i])) by {
            if i == k {
                assert(all[rest.len() as int] == JobView::Expression(ids[i]));
            } else {
                let at = choose|at: int| 0 <= at < rest.len() && rest[at] == JobView::Expression(ids[i]);
                assert(rest.contains(JobView::Expression(ids[i])));
                assert(all[at] == rest[at]);
            }
        }
    }
}

proof fn lemma_simple_entries(p: Program, entries: Seq<ObjectEntry>, k: int)
    requires
        0 <= k,
    ensures
        quiet(p, entry_jobs(entries, k)),
        forall|i: int| k <= i < entries.len() ==> entry_jobs(entries, k).contains(
            JobView::Expression((#[trigger] entries[i]).value),
        ),
    decreases entries.len() - k,
{
    if k < entries.len() {
        lemma_simple_entries(p, entries, k + 1);
        let rest = entry_jobs(entries, k + 1);
        let all = entry_jobs(entries, k);
        assert forall|i: int| k <= i < entries.len() implies all.contains(
            JobView::Expression((#[trigger] entries[i]).value),
        ) by {
            if i == k {
                assert(all[rest.len() as int] == JobView::Expression(entries[i].value));
            } else {
                assert(rest.contains(JobView::Expression(entries[i].value)));
                let at = choose|at: int| 0 <= at < rest.len() && rest[at] == JobView::Expression(entries[i].value);
                assert(all[at] == rest[at]);
            }
        }
    }
}

proof fn lemma_simple_links(p: Program, links: Seq<AccessLink>, k: int)
    requires
        0 <= k,
    ensures
        quiet(p, links_jobs(links, k)),
        forall|i: int, id: ExprId|
            k <= i < links.len() && #[trigger] holds_expr(links[i], id) ==> links_jobs(links, k).contains(
                JobView::Expression(id),
            ),
    decreases links.len() - k,
{
    if k < links.len() {
        lemma_simple_links(p, links, k + 1);
        let rest = links_jobs(links, k + 1);
        let own = link_jobs(links[k]);
        let all = links_jobs(links, k);
        if let AccessKind::Call { arguments, .. } = links[k].kind {
            lemma_simple_expressions(p, arguments@, 0);
        }
        assert(quiet(p, own));
        assert(quiet(p, all)) by {
            assert forall|i: int| 0 <= i < all.len() implies ((#[trigger] all[i]) is Expression || (all[i] matches JobView::Open {
                statements,
                ..
            } && stands(p, statements))) by {
                if i < rest.len() {
                    assert(all[i] == rest[i]);
                } else {
                    assert(all[i] == own[i - rest.len()]);
                }
            }
        }
        assert forall|i: int, id: ExprId|
            k <= i < links.len() && #[trigger] holds_expr(links[i], id) implies all.contains(JobView::Expression(id)) by {
            if i == k {
                assert(own.contains(JobView::Expression(id))) by {
                    match links[k].kind {
                        AccessKind::Call { arguments, .. } => {
                            let j = choose|j: int| 0 <= j < arguments@.len() && #[trigger] arguments@[j] == id;
                            assert(own.contains(JobView::Expression(arguments@[j])));
                        },
                        AccessKind::Index { expression, .. } => {
                            assert(own[0] == JobView::Expression(id));
                        },
                        AccessKind::Property(_) => {},
                    }
                }
                let at = choose|at: int| 0 <= at < own.len() && own[at] == JobView::Expression(id);
                assert(all[rest.len() + at] == own[at]);
            } else {
                assert(rest.contains(JobView::Expression(id)));
                let at = choose|at: int| 0 <= at < rest.len() && rest[at] == JobView::Expression(id);
                assert(all[at] == rest[at]);
            }
        }
    }
}

proof fn lemma_simple_branches(p: Program, branches: Seq<ConditionalBranch>, k: int)
    requires
        0 <= k,
    ensures
        quiet(p, branch_jobs(p, branches, k)),
        forall|i: int|
            k <= i < branches.len() ==> branch_jobs(p, branches, k).contains(
                JobView::Expression((#[trigger] branches[i]).condition.expression),
            ) && branch_jobs(p, branches, k).contains(block_job(p, branches[i].body, Seq::empty())),
    decreases branches.len() - k,
{
    if k < branches.len() {
        lemma_simple_branches(p, branches, k + 1);
        lemma_block_job(p, branches[k].body, Seq::empty());
        let rest = branch_jobs(p, branches, k + 1);
        let all = branch_jobs(p, branches, k);
        assert forall|i: int| k <= i < branches.len() implies all.contains(
            JobView::Expression((#[trigger] branches[i]).condition.expression),
        ) && all.contains(block_job(p, branches[i].body, Seq::empty())) by {
            let a = JobView::Expression(branches[i].condition.expression);
            let b = block_job(p, branches[i].body, Seq::empty());
            if i == k {
                assert(all[rest.len() as int] == b);
                assert(all[rest.len() as int + 1] == a);
            } else {
                assert(rest.contains(a) && rest.contains(b));
                let x = choose|x: int| 0 <= x < rest.len() && rest[x] == a;
                let y = choose|y: int| 0 <= y < rest.len() && rest[y] == b;
                assert(all[x] == a);
                assert(all[y] == b);
            }
        }
    }
}

pub proof fn lemma_simple_statements(statements: Seq<Statement>, k: int)
    requires
        0 <= k,
    ensures
        simple(statement_jobs(statements, k)),
    decreases statements.len() - k,
{
    if k < statements.len() {
        lemma_simple_statements(statements, k + 1);
    }
}

/// Whether a scope of the walk has only gained by another job.
pub open spec fn grown(a: ScopeView, b: ScopeView) -> bool {
    &&& forall|name: Seq<char>| #[trigger] has_key(a.bindings, name) ==> has_key(b.bindings, name)
    &&& forall|name: Seq<char>| #[trigger] has_key(b.lets, name) == has_key(a.lets, name)
    &&& b.body == a.body
    &&& b.statements == a.statements
    &&& b.seed == a.seed
    &&& a.deferred.len() <= b.deferred.len()
    &&& forall|i: int| 0 <= i < a.deferred.len() ==> #[trigger] b.deferred[i] == a.deferred[i]
}

pub open spec fn all_grown(a: Seq<ScopeView>, b: Seq<ScopeView>, c: nat) -> bool {
    &&& c <= a.len()
    &&& c <= b.len()
    &&& forall|i: int| 0 <= i < c ==> grown(a[i], #[trigger] b[i])
}

pub proof fn lemma_grown_chain(x: Seq<ScopeView>, y: Seq<ScopeView>, z: Seq<ScopeView>, c: nat)
    requires
        all_grown(x, y, c),
        all_grown(y, z, c),
    ensures
        all_grown(x, z, c),
{
    assert forall|i: int| 0 <= i < c implies grown(x[i], #[trigger] z[i]) by {
        assert(grown(x[i], y[i]));
        assert(grown(y[i], z[i]));
        assert forall|name: Seq<char>| #[trigger] has_key(x[i].bindings, name) implies has_key(z[i].bindings, name) by {
            assert(has_key(y[i].bindings, name));
        }
        assert forall|name: Seq<char>| #[trigger] has_key(z[i].lets, name) == has_key(x[i].lets, name) by {
            assert(has_key(y[i].lets, name) == has_key(x[i].lets, name));
        }
        assert forall|j: int| 0 <= j < x[i].deferred.len() implies #[trigger] z[i].deferred[j] == x[i].deferred[j] by {
            assert(y[i].deferred[j] == x[i].deferred[j]);
        }
    }
}

pub proof fn lemma_grown_self(a: Seq<ScopeView>)
    ensures
        all_grown(a, a, a.len()),
{
}

pub proof fn lemma_awaiting(scopes: Seq<ScopeView>, name: Seq<char>, k: int, crossed: bool)
    requires
        k <= scopes.len(),
    ensures
        awaiting(scopes, name, k, crossed) matches Some(at) ==> 0 <= at < k && has_key(scopes[at].lets, name),
    decreases k,
{
    if k > 0 {
        lemma_awaiting(scopes, name, k - 1, crossed || scopes[k - 1].body);
    }
}

pub proof fn lemma_resolved(scopes: Seq<ScopeView>, name: Seq<char>, k: int)
    requires
        k <= scopes.len(),
    ensures
        resolved(scopes, name, k) matches Some(at) ==> 0 <= at < k && has_key(scopes[at].bindings, name),
    decreases k,
{
    if k > 0 {
        lemma_resolved(scopes, name, k - 1);
    }
}

/// Reading a name binds nothing.
pub proof fn lemma_read_grown(v: WalkView, name: Seq<char>)
    ensures
        all_grown(v.scopes, v.read(name).scopes, v.scopes.len()),
        v.read(name).scopes.len() == v.scopes.len(),
        v.read(name).jobs == v.jobs,
{
    lemma_awaiting(v.scopes, name, v.scopes.len() as int, false);
    lemma_resolved(v.scopes, name, v.scopes.len() as int);
    let ahead = v.foreseen(name);
    assert(all_grown(v.scopes, ahead.scopes, v.scopes.len())) by {
        if let Some(at) = v.awaits(name) {
            lemma_put_keys(v.scopes[at].lets, name, true);
            assert(ahead.scopes =~= v.scopes.update(at, ahead.scopes[at]));
        }
    }
    let after = v.read(name);
    assert(all_grown(ahead.scopes, after.scopes, v.scopes.len())) by {
        if let (Some(at), Some(binding)) = (v.resolve(name), v.reached(name)) {
            lemma_put_keys(ahead.scopes[at].bindings, name, Binding { read: true, ..binding });
            assert(after.scopes =~= ahead.scopes.update(at, after.scopes[at]));
        }
    }
    lemma_grown_chain(v.scopes, ahead.scopes, after.scopes, v.scopes.len());
}

pub proof fn lemma_seeded_scopes(v: WalkView, seed: Seq<(Seq<char>, Span)>, n: int)
    requires
        v.scopes.len() > 0,
        0 <= n <= seed.len(),
    ensures
        v.seeded(seed, n).jobs == v.jobs,
        v.seeded(seed, n).scopes.len() == v.scopes.len(),
        all_grown(v.scopes, v.seeded(seed, n).scopes, v.scopes.len()),
        forall|i: int| 0 <= i < v.scopes.len() - 1 ==> #[trigger] v.seeded(seed, n).scopes[i] == v.scopes[i],
        forall|i: int| 0 <= i < n ==> has_key(v.seeded(seed, n).scopes.last().bindings, (#[trigger] seed[i]).0),
    decreases n,
{
    if n > 0 {
        lemma_seeded_scopes(v, seed, n - 1);
        let before = v.seeded(seed, n - 1);
        let after = v.seeded(seed, n);
        let binding = Binding { span: seed[n - 1].1, arity: None, report_unused: false, read: false };
        lemma_put_keys(before.scopes.last().bindings, seed[n - 1].0, binding);
        assert(all_grown(before.scopes, after.scopes, v.scopes.len()));
        lemma_grown_chain(v.scopes, before.scopes, after.scopes, v.scopes.len());
        assert forall|i: int| 0 <= i < n implies has_key(after.scopes.last().bindings, (#[trigger] seed[i]).0) by {
            if i < n - 1 {
                assert(has_key(before.scopes.last().bindings, seed[i].0));
            }
        }
    }
}

pub proof fn lemma_declared_scopes(v: WalkView, p: Program, name: Identifier, arity: Option<usize>)
    requires
        v.scopes.len() > 0,
    ensures
        v.declared(p, name, arity).jobs == v.jobs,
        v.declared(p, name, arity).scopes.len() == v.scopes.len(),
        all_grown(v.scopes, v.declared(p, name, arity).scopes, v.scopes.len()),
        forall|i: int| 0 <= i < v.scopes.len() - 1 ==> #[trigger] v.declared(p, name, arity).scopes[i] == v.scopes[i],
        has_key(v.declared(p, name, arity).scopes.last().bindings, name.name@),
{
    let after = v.declared(p, name, arity);
    if !v.binds(name.name@) {
        let binding = value_of(after.scopes.last().bindings, name.name@)->0;
        assert forall|b: Binding| #![trigger put(v.scopes.last().bindings, name.name@, b)] forall|x: Seq<char>|
            #[trigger] has_key(put(v.scopes.last().bindings, name.name@, b), x) <==> has_key(v.scopes.last().bindings, x) || x
                == name.name@ by {
            lemma_put_keys(v.scopes.last().bindings, name.name@, b);
        }
    }
}

proof fn lemma_hoisted_scopes(v: WalkView, p: Program, statements: Seq<Statement>, n: int)
    requires
        v.scopes.len() > 0,
        0 <= n <= statements.len(),
    ensures
        v.hoisted(p, statements, n).jobs == v.jobs,
        v.hoisted(p, statements, n).scopes.len() == v.scopes.len(),
        all_grown(v.scopes, v.hoisted(p, statements, n).scopes, v.scopes.len()),
        forall|i: int| 0 <= i < v.scopes.len() - 1 ==> #[trigger] v.hoisted(p, statements, n).scopes[i] == v.scopes[i],
        forall|i: int|
            0 <= i < n ==> ((#[trigger] statements[i]).kind matches StatementKind::Function { name, .. } ==> has_key(
                v.hoisted(p, statements, n).scopes.last().bindings,
                name.name@,
            )),
    decreases n,
{
    if n > 0 {
        lemma_hoisted_scopes(v, p, statements, n - 1);
        let before = v.hoisted(p, statements, n - 1);
        let after = v.hoisted(p, statements, n);
        if let StatementKind::Function { name, function } = statements[n - 1].kind {
            lemma_declared_scopes(before, p, name, Some(function.parameters.len()));
            lemma_grown_chain(v.scopes, before.scopes, after.scopes, v.scopes.len());
        }
        assert forall|i: int| 0 <= i < n implies ((#[trigger] statements[i]).kind matches StatementKind::Function { name, .. }
            ==> has_key(after.scopes.last().bindings, name.name@)) by {
            if i < n - 1 {
                if let StatementKind::Function { name, .. } = statements[i].kind {
                    assert(has_key(before.scopes.last().bindings, name.name@));
                }
            }
        }
    }
}

/// What opening a block leaves.
pub proof fn lemma_opened(v: WalkView, p: Program, statements: Seq<Statement>, seed: Seq<(Seq<char>, Span)>, body: bool)
    ensures
        ({
            let after = v.opened(p, statements, seed, body);
            let n = v.scopes.len() as int;
            &&& after.jobs == v.jobs.push(JobView::Close).push(JobView::Deferred) + statement_jobs(statements, 0)
            &&& after.scopes.len() == n + 1
            &&& forall|i: int| 0 <= i < n ==> #[trigger] after.scopes[i] == v.scopes[i]
            &&& after.scopes[n].body == body
            &&& after.scopes[n].statements == statements
            &&& after.scopes[n].seed == seed
            &&& forall|name: Seq<char>|
                #[trigger] has_key(after.scopes[n].lets, name) == has_key(lets_of(statements, statements.len() as int), name)
            &&& forall|i: int| 0 <= i < seed.len() ==> has_key(after.scopes[n].bindings, (#[trigger] seed[i]).0)
            &&& forall|i: int|
                0 <= i < statements.len() ==> ((#[trigger] statements[i]).kind matches StatementKind::Function { name, .. }
                    ==> has_key(after.scopes[n].bindings, name.name@))
        }),
{
    let entered = v.entered(statements, seed, body);
    let seeded = entered.seeded(seed, seed.len() as int);
    lemma_seeded_scopes(entered, seed, seed.len() as int);
    lemma_hoisted_scopes(seeded, p, statements, statements.len() as int);
    let hoisted = seeded.hoisted(p, statements, statements.len() as int);
    let after = v.opened(p, statements, seed, body);
    let n = v.scopes.len() as int;
    assert(after.scopes == hoisted.scopes);
    assert(grown(entered.scopes[n], seeded.scopes[n]));
    assert(grown(seeded.scopes[n], hoisted.scopes[n]));
    assert forall|i: int| 0 <= i < n implies #[trigger] after.scopes[i] == v.scopes[i] by {
        assert(hoisted.scopes[i] == seeded.scopes[i]);
        assert(seeded.scopes[i] == entered.scopes[i]);
    }
    assert forall|i: int| 0 <= i < seed.len() implies has_key(after.scopes[n].bindings, (#[trigger] seed[i]).0) by {
        assert(has_key(seeded.scopes.last().bindings, seed[i].0));
    }
    assert forall|name: Seq<char>|
        #[trigger] has_key(after.scopes[n].lets, name) == has_key(lets_of(statements, statements.len() as int), name) by {
        assert(has_key(seeded.scopes[n].lets, name) == has_key(entered.scopes[n].lets, name));
    }
}

/// What a statement or an expression leaves: what is walked next, and scopes that have only gained.
pub open spec fn spreads(v: WalkView, after: WalkView) -> bool {
    &&& v.jobs.len() <= after.jobs.len()
    &&& forall|i: int| 0 <= i < v.jobs.len() ==> #[trigger] after.jobs[i] == v.jobs[i]
    &&& simple(after.jobs.skip(v.jobs.len() as int))
    &&& after.scopes.len() == v.scopes.len()
    &&& all_grown(v.scopes, after.scopes, v.scopes.len())
}

/// Whether a job is among those that a job leaves.
pub open spec fn left(v: WalkView, after: WalkView, job: JobView) -> bool {
    exists|d: int| v.jobs.len() <= d < after.jobs.len() && #[trigger] after.jobs[d] == job
}

proof fn lemma_spread_more(v: WalkView, after: WalkView, more: Seq<JobView>)
    requires
        simple(more),
        after.jobs == v.jobs + more,
        after.scopes.len() == v.scopes.len(),
        all_grown(v.scopes, after.scopes, v.scopes.len()),
    ensures
        spreads(v, after),
        after.jobs.skip(v.jobs.len() as int) == more,
        forall|job: JobView| more.contains(job) ==> #[trigger] left(v, after, job),
{
    assert(after.jobs.skip(v.jobs.len() as int) =~= more);
    assert forall|job: JobView| more.contains(job) implies #[trigger] left(v, after, job) by {
        let i = choose|i: int| 0 <= i < more.len() && more[i] == job;
        assert(after.jobs[v.jobs.len() + i] == job);
    }
}

pub proof fn lemma_defer(v: WalkView, policy: Policy, function: Function)
    requires
        v.scopes.len() > 0,
    ensures
        spreads(v, v.defer(policy, function)),
        v.defer(policy, function).jobs.skip(v.jobs.len() as int) == Seq::<JobView>::empty(),
        v.defer(policy, function).scopes.last().deferred.len() > 0,
        v.defer(policy, function).scopes.last().deferred.last() == function,
{
    let after = v.defer(policy, function);
    assert(after.jobs == v.jobs);
    lemma_grown_self(v.scopes);
    lemma_spread_more(v, after, Seq::empty());
}

#[verifier::spinoff_prover]
pub proof fn lemma_statement_spreads(v: WalkView, p: Program, policy: Policy, statement: Statement)
    requires
        v.scopes.len() > 0,
    ensures
        spreads(v, v.statement(p, policy, statement)),
        !(statement.kind is Let) ==> quiet(p, v.statement(p, policy, statement).jobs.skip(v.jobs.len() as int)),
        forall|piece: JobView|
            #[trigger] part(p, JobView::Statement(statement), piece) ==> left(
                v,
                v.statement(p, policy, statement),
                piece,
            ),
{
    let after = v.statement(p, policy, statement);
    let whole = JobView::Statement(statement);
    lemma_grown_self(v.scopes);
    let more = after.jobs.skip(v.jobs.len() as int);
    match statement.kind {
        StatementKind::Function { function, .. } => {
            lemma_defer(v, policy, function);
        },
        StatementKind::If { branches, else_branch } => {
            let list = branch_jobs(p, branches@, 0);
            lemma_simple_branches(p, branches@, 0);
            match else_branch {
                Some(branch) => {
                    let other = block_job(p, branch.body, Seq::empty());
                    let added = seq![other] + list;
                    lemma_block_job(p, branch.body, Seq::empty());
                    assert(quiet(p, added)) by {
                        assert forall|i: int| 0 <= i < added.len() implies ((#[trigger] added[i]) is Expression || (added[i]
                            matches JobView::Open { statements, .. } && stands(p, statements))) by {
                            if i > 0 {
                                assert(added[i] == list[i - 1]);
                            }
                        }
                    }
                    assert(after.jobs =~= v.jobs + added);
                    lemma_spread_more(v, after, added);
                    assert(added[0] == other);
                    assert forall|piece: JobView| #[trigger] part(p, whole, piece) implies left(v, after, piece) by {
                        if list.contains(piece) {
                            let i = choose|i: int| 0 <= i < list.len() && list[i] == piece;
                            assert(added[i + 1] == piece);
                        }
                        assert(added.contains(piece));
                    }
                },
                None => {
                    assert(after.jobs =~= v.jobs + list);
                    lemma_spread_more(v, after, list);
                },
            }
        },
        StatementKind::Assignment { target, value, .. } => {
            if p.expr(target).kind is Identifier {
                let added = seq![JobView::Expression(value)];
                assert(after.jobs =~= v.jobs + added);
                lemma_spread_more(v, after, added);
                assert(added[0] == JobView::Expression(value));
                assert(added.contains(JobView::Expression(value)));
            } else {
                let added = seq![JobView::Expression(value), JobView::Expression(target)];
                assert(after.jobs =~= v.jobs + added);
                lemma_spread_more(v, after, added);
                assert(added[0] == JobView::Expression(value));
                assert(added[1] == JobView::Expression(target));
                assert(added.contains(JobView::Expression(value)));
                assert(added.contains(JobView::Expression(target)));
            }
        },
        StatementKind::Let { name, initializer, .. } => {
            let added = seq![
                JobView::Declare { name, arity: function_arity(p, initializer) },
                JobView::Expression(initializer),
            ];
            assert(after.jobs =~= v.jobs + added);
            lemma_spread_more(v, after, added);
            assert(added[1] == JobView::Expression(initializer));
            assert(added.contains(JobView::Expression(initializer)));
        },
        StatementKind::Return { value: Some(id), .. } => {
            lemma_one_left(v, after, JobView::Expression(id));
        },
        StatementKind::Return { value: None, .. } => {
            lemma_spread_more(v, after, Seq::empty());
        },
        StatementKind::Block(body) => {
            lemma_block_job(p, body, Seq::empty());
            lemma_one_left(v, after, block_job(p, body, Seq::empty()));
        },
        StatementKind::While { condition, body, .. } => {
            lemma_block_job(p, body, Seq::empty());
            lemma_two_left(v, after, block_job(p, body, Seq::empty()), JobView::Expression(condition.expression));
        },
        StatementKind::For { binding, iterable, body, .. } => {
            lemma_block_job(p, body, seq![(binding.name@, binding.span)]);
            lemma_two_left(
                v,
                after,
                block_job(p, body, seq![(binding.name@, binding.span)]),
                JobView::Expression(iterable),
            );
        },
        StatementKind::Expression(id) => {
            lemma_one_left(v, after, JobView::Expression(id));
        },
        _ => {
            lemma_spread_more(v, after, Seq::empty());
        },
    }
}

proof fn lemma_one_left(v: WalkView, after: WalkView, job: JobView)
    requires
        after.jobs == v.jobs.push(job),
        !(job is Close),
        !(job is Deferred),
        after.scopes.len() == v.scopes.len(),
        all_grown(v.scopes, after.scopes, v.scopes.len()),
    ensures
        spreads(v, after),
        after.jobs.skip(v.jobs.len() as int) == seq![job],
        left(v, after, job),
{
    let added = seq![job];
    assert(after.jobs =~= v.jobs + added);
    lemma_spread_more(v, after, added);
    assert(added[0] == job);
    assert(added.contains(job));
}

proof fn lemma_two_left(v: WalkView, after: WalkView, a: JobView, b: JobView)
    requires
        after.jobs == v.jobs.push(a).push(b),
        !(a is Close) && !(a is Deferred),
        !(b is Close) && !(b is Deferred),
        after.scopes.len() == v.scopes.len(),
        all_grown(v.scopes, after.scopes, v.scopes.len()),
    ensures
        spreads(v, after),
        after.jobs.skip(v.jobs.len() as int) == seq![a, b],
        left(v, after, a),
        left(v, after, b),
{
    let added = seq![a, b];
    assert(after.jobs =~= v.jobs + added);
    lemma_spread_more(v, after, added);
    assert(added[0] == a);
    assert(added[1] == b);
    assert(added.contains(a));
    assert(added.contains(b));
}

/// Whether an access starts by calling a bare name.
pub open spec fn calls_name(p: Program, id: ExprId, base: ExprId) -> bool {
    p.expr(id).kind matches ExpressionKind::Access { base: b, links } && b == base && p.expr(base).kind is Identifier
        && links@.len() > 0 && links@[0].kind is Call
}

#[verifier::spinoff_prover]
proof fn lemma_access_spreads(
    v: WalkView,
    p: Program,
    policy: Policy,
    callables: Option<Seq<String>>,
    id: ExprId,
    base: ExprId,
    links: Seq<AccessLink>,
)
    requires
        v.scopes.len() > 0,
        p.expr(id).kind matches ExpressionKind::Access { base: b, links: list } && b == base && list@ == links,
    ensures
        spreads(v, v.access(p, policy, callables, base, links)),
        quiet(p, v.access(p, policy, callables, base, links).jobs.skip(v.jobs.len() as int)),
        forall|piece: JobView|
            #[trigger] part(p, JobView::Expression(id), piece) && !(piece == JobView::Expression(base) && calls_name(
                p,
                id,
                base,
            )) ==> left(v, v.access(p, policy, callables, base, links), piece),
{
    let after = v.access(p, policy, callables, base, links);
    let list = links_jobs(links, 0);
    lemma_simple_links(p, links, 0);
    lemma_grown_self(v.scopes);
    let whole = JobView::Expression(id);
    if calls_name(p, id, base) {
        if let ExpressionKind::Identifier(name) = p.expr(base).kind {
            lemma_read_grown(v, name.name@);
            if let AccessKind::Call { arguments, .. } = links[0].kind {
                let based = v.call(policy, callables, name, links[0], arguments@.len());
                assert(based.jobs == v.jobs);
                assert(based.scopes == v.scopes || based.scopes == v.read(name.name@).scopes);
                assert(after.jobs == v.jobs + list);
                lemma_spread_more(v, after, list);
            }
        }
        assert forall|piece: JobView| #[trigger] part(p, whole, piece) && piece != JobView::Expression(base) implies left(
            v,
            after,
            piece,
        ) by {
            if let JobView::Expression(x) = piece {
                let i = choose|i: int| 0 <= i < links.len() && holds_expr(#[trigger] links[i], x);
                assert(holds_expr(links[i], x));
                assert(list.contains(piece));
            }
        }
    } else {
        let added = seq![JobView::Expression(base)] + list;
        assert(quiet(p, added)) by {
            assert forall|i: int| 0 <= i < added.len() implies ((#[trigger] added[i]) is Expression || (added[i]
                matches JobView::Open { statements, .. } && stands(p, statements))) by {
                if i > 0 {
                    assert(added[i] == list[i - 1]);
                }
            }
        }
        assert(after.jobs =~= v.jobs + added);
        lemma_spread_more(v, after, added);
        assert(added[0] == JobView::Expression(base));
        assert forall|piece: JobView| #[trigger] part(p, whole, piece) implies left(v, after, piece) by {
            if piece != JobView::Expression(base) {
                if let JobView::Expression(x) = piece {
                    let i = choose|i: int| 0 <= i < links.len() && holds_expr(#[trigger] links[i], x);
                    assert(holds_expr(links[i], x));
                    assert(list.contains(piece));
                    let j = choose|j: int| 0 <= j < list.len() && list[j] == piece;
                    assert(added[j + 1] == piece);
                }
            }
            assert(added.contains(piece));
        }
    }
}

#[verifier::spinoff_prover]
pub proof fn lemma_expression_spreads(v: WalkView, p: Program, policy: Policy, callables: Option<Seq<String>>, id: ExprId)
    requires
        v.scopes.len() > 0,
    ensures
        spreads(v, v.expression(p, policy, callables, id)),
        quiet(p, v.expression(p, policy, callables, id).jobs.skip(v.jobs.len() as int)),
        forall|piece: JobView|
            #[trigger] part(p, JobView::Expression(id), piece) ==> left(
                v,
                v.expression(p, policy, callables, id),
                piece,
            ) || (piece matches JobView::Expression(base) && calls_name(p, id, base)),
{
    let after = v.expression(p, policy, callables, id);
    lemma_grown_self(v.scopes);
    match p.expr(id).kind {
        ExpressionKind::Literal(_) => {
            lemma_spread_more(v, after, Seq::empty());
        },
        ExpressionKind::Identifier(name) => {
            lemma_read_grown(v, name.name@);
            assert(after.jobs =~= v.jobs + Seq::<JobView>::empty());
            lemma_spread_more(v, after, Seq::empty());
        },
        ExpressionKind::Function(function) => {
            lemma_defer(v, policy, function);
        },
        ExpressionKind::Group { expression, .. } => {
            lemma_one_left(v, after, JobView::Expression(expression));
        },
        ExpressionKind::Unary { operand, .. } => {
            lemma_one_left(v, after, JobView::Expression(operand));
        },
        ExpressionKind::Binary { left: l, right: r, .. } => {
            lemma_two_left(v, after, JobView::Expression(r), JobView::Expression(l));
        },
        ExpressionKind::Array { elements, .. } => {
            lemma_simple_expressions(p, elements@, 0);
            lemma_spread_more(v, after, expression_jobs(elements@, 0));
        },
        ExpressionKind::Object { entries, .. } => {
            lemma_simple_entries(p, entries@, 0);
            lemma_spread_more(v, after, entry_jobs(entries@, 0));
        },
        ExpressionKind::Access { base, links } => {
            lemma_access_spreads(v, p, policy, callables, id, base, links@);
        },
    }
}

} // verus!

//! That what the walk reports fails when a run gets to it.

use vstd::prelude::*;
use crate::ast::AccessKind;
use crate::ast::AccessLink;
use crate::ast::ExprId;
use crate::ast::ExpressionKind;
use crate::ast::Program;
use crate::ast::Statement;
use crate::ast::StatementKind;
use crate::ast::Weights;
use crate::check::Policy;
use crate::check::reaching::foreseen;
use crate::check::reaching::lemma_reached;
use crate::check::reaching::reached;
use crate::check::reported::assigns_undeclared;
use crate::check::reported::reads_undeclared;
use crate::check::seeing::assigns_to;
use crate::check::seeing::crossed;
use crate::check::seeing::lemma_sight;
use crate::check::seeing::out_of_sight;
use crate::check::seeing::sight;
use crate::check::seeing::visits;
use crate::check::sight::Labels;
use crate::check::sight::abides;
use crate::check::sight::clear;
use crate::check::sight::fine;
use crate::check::sight::lemma_clear_unresolved;
use crate::check::sight::runs;
use crate::check::sight::seeded;
use crate::check::touring::lemma_steady;
use crate::check::visits::Tour;
use crate::check::visits::lemma_resolved;
use crate::check::walk::Binding;
use crate::check::walk::JobView;
use crate::check::walk::ScopeView;
use crate::check::walk::WalkView;
use crate::check::walk::awaiting;
use crate::check::walk::begun;
use crate::check::walk::dead_code;
use crate::check::walk::found;
use crate::check::walk::resolved;
use crate::check::walk::unread;
use crate::check::weighing::lemma_step;
use crate::diagnostics::Category;
use crate::diagnostics::Code;
use crate::diagnostics::DiagnosticView;
use crate::diagnostics::Span;
use crate::diagnostics::error_of;
use crate::interpreter::semantics::Frame;
use crate::interpreter::semantics::MachineView;
use crate::interpreter::semantics::Turn;
use crate::interpreter::semantics::arity_message;
use crate::interpreter::semantics::undeclared;
use crate::interpreter::semantics::undeclared_assignment;
use crate::interpreter::value::ValueView;
use crate::table::has_key;
use crate::text::holds;

verus! {

/// What has been walked when something is reported.
pub open spec fn blamed(p: Program, v: WalkView, finding: DiagnosticView) -> bool {
    &&& v.jobs.len() > 0
    &&& finding.code == Code::UNDECLARED_IDENTIFIER@ ==> (v.jobs.last() matches JobView::Expression(id) && blames_read(
        p,
        v,
        id,
        finding,
    ))
    &&& finding.code == Code::UNDECLARED_ASSIGNMENT@ ==> (v.jobs.last() matches JobView::Statement(statement) && (
    statement.kind matches StatementKind::Assignment { target, .. } && blames_target(p, v, target, finding)))
    &&& finding.code == Code::ARGUMENT_COUNT@ ==> (v.jobs.last() matches JobView::Expression(id) && blames_call(
        p,
        v,
        id,
        finding,
    ))
}

/// Whether a walk reports a name that is read.
pub open spec fn blames_read(p: Program, v: WalkView, id: ExprId, finding: DiagnosticView) -> bool {
    p.expr(id).kind matches ExpressionKind::Identifier(node) && finding == undeclared(node.name@, node.span) && v.resolve(
        node.name@,
    ) is None && v.awaits(node.name@) is None
}

/// Whether a walk reports a name that is assigned.
pub open spec fn blames_target(p: Program, v: WalkView, id: ExprId, finding: DiagnosticView) -> bool {
    p.expr(id).kind matches ExpressionKind::Identifier(node) && finding == undeclared_assignment(node.name@, node.span)
        && v.resolve(node.name@) is None && v.awaits(node.name@) is None
}

/// The report on a call that passes `passed` arguments to a function with `taken` parameters.
pub open spec fn miscounted(passed: nat, taken: nat, span: Span) -> DiagnosticView {
    error_of(Category::Arity, Code::ARGUMENT_COUNT, arity_message(passed, taken), span)
}

/// Whether an access starts by calling a name, of which this is the report that the function which the
/// name stands for takes `taken` parameters.
pub open spec fn miscalls(p: Program, id: ExprId, name: Seq<char>, taken: nat, finding: DiagnosticView) -> bool {
    p.expr(id).kind matches ExpressionKind::Access { base, links } && (p.expr(base).kind matches ExpressionKind::Identifier(
        node,
    ) && node.name@ == name && links@.len() > 0 && (links@[0].kind matches AccessKind::Call { arguments, .. }
        && arguments@.len() != taken && finding == miscounted(arguments@.len(), taken, links@[0].span)))
}

/// Whether a walk reports the number of arguments of a call.
pub open spec fn blames_call(p: Program, v: WalkView, id: ExprId, finding: DiagnosticView) -> bool {
    exists|name: Seq<char>, binding: Binding, taken: usize|
        #![trigger miscalls(p, id, name, taken as nat, finding), binding.arity]
        miscalls(p, id, name, taken as nat, finding) && v.reached(name) == Some(binding) && binding.arity == Some(taken)
            && v.awaits(name) is None
}

/// The codes that are told apart.
proof fn lemma_codes()
    ensures
        Code::UNDECLARED_IDENTIFIER@ != Code::UNDECLARED_ASSIGNMENT@,
        Code::UNDECLARED_IDENTIFIER@.len() == 31,
        Code::UNDECLARED_ASSIGNMENT@.len() == 31,
        Code::ARGUMENT_COUNT@.len() == 20,
        Code::UNREACHABLE_CODE@.len() == 23,
        Code::UNUSED_VARIABLE@.len() == 25,
        Code::UNKNOWN_FUNCTION@.len() == 27,
        Code::CONSTRUCT_DISABLED@.len() == 25,
        Code::DUPLICATE_DECLARATION@.len() == 28,
        Code::OPERAND_MISMATCH@.len() == 21,
{
    reveal_strlit("reference.undeclared_identifier");
    reveal_strlit("reference.undeclared_assignment");
    reveal_strlit("syntax.unreachable_code");
    reveal_strlit("reference.unused_variable");
    reveal_strlit("capability.unknown_function");
    reveal_strlit("policy.construct_disabled");
    reveal_strlit("syntax.duplicate_declaration");
    reveal_strlit("arity.argument_count");
    reveal_strlit("type.operand_mismatch");
    assert(Code::UNDECLARED_IDENTIFIER@[21] != Code::UNDECLARED_ASSIGNMENT@[21]);
}

/// Whether a job adds only reports that are accounted for.
spec fn accounted(p: Program, v: WalkView, after: WalkView) -> bool {
    &&& v.findings.len() <= after.findings.len()
    &&& forall|i: int| 0 <= i < v.findings.len() ==> #[trigger] after.findings[i] == v.findings[i]
    &&& forall|i: int| v.findings.len() <= i < after.findings.len() ==> blamed(p, v, #[trigger] after.findings[i])
}

/// Whether a report is about something else than a name or a call.
spec fn other(finding: DiagnosticView) -> bool {
    &&& finding.code != Code::UNDECLARED_IDENTIFIER@
    &&& finding.code != Code::UNDECLARED_ASSIGNMENT@
    &&& finding.code != Code::ARGUMENT_COUNT@
}

proof fn lemma_seeded_findings(v: WalkView, seed: Seq<(Seq<char>, Span)>, n: int)
    ensures
        v.seeded(seed, n).findings == v.findings,
    decreases n,
{
    if n > 0 {
        lemma_seeded_findings(v, seed, n - 1);
    }
}

proof fn lemma_hoisted_findings(v: WalkView, p: Program, statements: Seq<Statement>, n: int)
    ensures
        v.findings.len() <= v.hoisted(p, statements, n).findings.len(),
        forall|i: int| 0 <= i < v.findings.len() ==> #[trigger] v.hoisted(p, statements, n).findings[i] == v.findings[i],
        forall|i: int|
            v.findings.len() <= i < v.hoisted(p, statements, n).findings.len() ==> other(
                #[trigger] v.hoisted(p, statements, n).findings[i],
            ),
    decreases n,
{
    lemma_codes();
    if n > 0 {
        lemma_hoisted_findings(v, p, statements, n - 1);
        let before = v.hoisted(p, statements, n - 1);
        let after = v.hoisted(p, statements, n);
        assert forall|i: int| 0 <= i < v.findings.len() implies #[trigger] after.findings[i] == v.findings[i] by {
            assert(before.findings[i] == v.findings[i]);
        }
        assert forall|i: int| v.findings.len() <= i < after.findings.len() implies other(#[trigger] after.findings[i]) by {
            if i < before.findings.len() {
                assert(other(before.findings[i]));
            }
        }
    }
}

proof fn lemma_unread_other(bindings: Seq<(Seq<char>, Binding)>, k: int)
    ensures
        forall|i: int| 0 <= i < unread(bindings, k).len() ==> other(#[trigger] unread(bindings, k)[i]),
    decreases k,
{
    lemma_codes();
    if k > 0 {
        lemma_unread_other(bindings, k - 1);
        let before = unread(bindings, k - 1);
        let all = unread(bindings, k);
        assert forall|i: int| 0 <= i < all.len() implies other(#[trigger] all[i]) by {
            if i < before.len() {
                assert(all[i] == before[i]);
            }
        }
    }
}

#[verifier::spinoff_prover]
proof fn lemma_open_accounted(v: WalkView, p: Program, statements: Seq<Statement>, seed: Seq<(Seq<char>, Span)>, body: bool)
    requires
        v.jobs.len() > 0,
        v.jobs.last() == (JobView::Open { statements, seed, body }),
    ensures
        accounted(p, v, (WalkView { jobs: v.jobs.drop_last(), ..v }).opened(p, statements, seed, body)),
{
    lemma_codes();
    let rest = WalkView { jobs: v.jobs.drop_last(), ..v };
    let entered = rest.entered(statements, seed, body);
    let seeded = entered.seeded(seed, seed.len() as int);
    lemma_seeded_findings(entered, seed, seed.len() as int);
    lemma_hoisted_findings(seeded, p, statements, statements.len() as int);
    let hoisted = seeded.hoisted(p, statements, statements.len() as int);
    let after = rest.opened(p, statements, seed, body);
    assert(after.findings == hoisted.noted(dead_code(statements)).findings);
    assert forall|i: int| 0 <= i < v.findings.len() implies #[trigger] after.findings[i] == v.findings[i] by {
        assert(hoisted.findings[i] == seeded.findings[i]);
    }
    assert forall|i: int| v.findings.len() <= i < after.findings.len() implies blamed(p, v, #[trigger] after.findings[i]) by {
        if i < hoisted.findings.len() {
            assert(other(hoisted.findings[i]));
        }
        assert(other(after.findings[i]));
    }
}

#[verifier::spinoff_prover]
proof fn lemma_access_accounted(
    v: WalkView,
    p: Program,
    policy: Policy,
    callables: Option<Seq<String>>,
    id: ExprId,
    base: ExprId,
    links: Vec<AccessLink>,
)
    requires
        v.jobs.len() > 0,
        v.jobs.last() == JobView::Expression(id),
        p.expr(id).kind == (ExpressionKind::Access { base, links }),
    ensures
        accounted(p, v, (WalkView { jobs: v.jobs.drop_last(), ..v }).access(p, policy, callables, base, links@)),
{
    lemma_codes();
    let rest = WalkView { jobs: v.jobs.drop_last(), ..v };
    let after = rest.access(p, policy, callables, base, links@);
    if let ExpressionKind::Identifier(node) = p.expr(base).kind {
        let name = node.name@;
        assert(rest.reached(name) == v.reached(name));
        assert(rest.awaits(name) == v.awaits(name));
        if links@.len() > 0 {
            if let AccessKind::Call { arguments, .. } = links@[0].kind {
                if let Some(binding) = v.reached(name) {
                    if let Some(taken) = binding.arity {
                        if arguments@.len() != taken && v.awaits(name) is None {
                            let finding = miscounted(arguments@.len(), taken as nat, links@[0].span);
                            assert(miscalls(p, id, name, taken as nat, finding));
                            assert(blames_call(p, v, id, finding));
                            assert(after.findings == v.findings.push(finding));
                        }
                    }
                }
            }
        }
    }
}

#[verifier::spinoff_prover]
proof fn lemma_step_accounted(v: WalkView, p: Program, policy: Policy, callables: Option<Seq<String>>)
    ensures
        accounted(p, v, v.step(p, policy, callables)),
{
    lemma_codes();
    if v.jobs.len() > 0 {
        let rest = WalkView { jobs: v.jobs.drop_last(), ..v };
        let after = v.step(p, policy, callables);
        match v.jobs.last() {
            JobView::Open { statements, seed, body } => {
                lemma_open_accounted(v, p, statements, seed, body);
            },
            JobView::Statement(statement) => {
                if let StatementKind::Assignment { target, value, .. } = statement.kind {
                    if let ExpressionKind::Identifier(node) = p.expr(target).kind {
                        let more = rest.job(JobView::Expression(value));
                        assert(more.resolve(node.name@) == v.resolve(node.name@));
                        assert(more.awaits(node.name@) == v.awaits(node.name@));
                        let finding = undeclared_assignment(node.name@, node.span);
                        if v.resolve(node.name@) is None && v.awaits(node.name@) is None {
                            assert(blames_target(p, v, target, finding));
                        }
                    }
                }
            },
            JobView::Expression(id) => {
                match p.expr(id).kind {
                    ExpressionKind::Access { base, links } => {
                        lemma_access_accounted(v, p, policy, callables, id, base, links);
                    },
                    ExpressionKind::Identifier(node) => {
                        let finding = undeclared(node.name@, node.span);
                        lemma_resolved(v.scopes, node.name@, v.scopes.len() as int);
                        assert(rest.reached(node.name@) == v.reached(node.name@));
                        assert(rest.awaits(node.name@) == v.awaits(node.name@));
                        if v.reached(node.name@) is None && v.awaits(node.name@) is None {
                            assert(blames_read(p, v, id, finding));
                        }
                    },
                    _ => {},
                }
            },
            JobView::Close => {
                if rest.scopes.len() > 0 {
                    let bindings = rest.scopes.last().bindings;
                    lemma_unread_other(bindings, bindings.len() as int);
                    let added = unread(bindings, bindings.len() as int);
                    assert forall|i: int| v.findings.len() <= i < after.findings.len() implies blamed(
                        p,
                        v,
                        #[trigger] after.findings[i],
                    ) by {
                        assert(after.findings[i] == added[i - v.findings.len()]);
                    }
                }
            },
            _ => {},
        }
    }
}

/// Every report is made at some time of the walk.
pub proof fn lemma_reported(t: Tour, end: nat, i: int) -> (n: nat)
    requires
        0 <= i < t.after(end).findings.len(),
    ensures
        n < end,
        blamed(t.p, t.after(n), t.after(end).findings[i]),
    decreases end,
{
    if end == 0 {
        0
    } else {
        let before = (end - 1) as nat;
        lemma_steady(t, before);
        lemma_step_accounted(t.after(before), t.p, t.policy, t.callables);
        if i < t.after(before).findings.len() {
            lemma_reported(t, before, i)
        } else {
            before
        }
    }
}

proof fn lemma_unresolved(scopes: Seq<ScopeView>, name: Seq<char>, k: int, i: int)
    requires
        k <= scopes.len(),
        match resolved(scopes, name, k) {
            Some(at) => at < i < k,
            None => 0 <= i < k,
        },
    ensures
        !has_key(scopes[i].bindings, name),
    decreases k,
{
    if i < k - 1 {
        lemma_unresolved(scopes, name, k - 1, i);
    }
}

proof fn lemma_unawaited(scopes: Seq<ScopeView>, name: Seq<char>, k: int, inner: bool, i: int)
    requires
        k <= scopes.len(),
        awaiting(scopes, name, k, inner) is None,
        match resolved(scopes, name, k) {
            Some(at) => at < i < k,
            None => 0 <= i < k,
        },
        inner || exists|j: int| i < j < k && (#[trigger] scopes[j]).body,
    ensures
        !has_key(scopes[i].lets, name),
    decreases k,
{
    if i < k - 1 {
        lemma_unresolved(scopes, name, k, k - 1);
        if !(inner || scopes[k - 1].body) {
            let j = choose|j: int| i < j < k && (#[trigger] scopes[j]).body;
            assert(i < j < k - 1);
        }
        lemma_unawaited(scopes, name, k - 1, inner || scopes[k - 1].body, i);
    } else {
        lemma_unresolved(scopes, name, k, k - 1);
    }
}

/// What is neither found nor waited for is out of sight, up to where it is found.
pub proof fn lemma_unseen(v: WalkView, name: Seq<char>, k: nat)
    requires
        v.awaits(name) is None,
        v.resolve(name) matches Some(at) ==> k <= v.scopes.len() - 1 - at,
    ensures
        out_of_sight(v.scopes, name, k),
{
    let n = v.scopes.len() as int;
    lemma_resolved(v.scopes, name, n);
    assert forall|i: int| 0 <= i < n && n - k <= i implies !has_key((#[trigger] v.scopes[i]).bindings, name) && (crossed(
        v.scopes,
        i,
    ) ==> !has_key(v.scopes[i].lets, name)) by {
        lemma_unresolved(v.scopes, name, n, i);
        if crossed(v.scopes, i) {
            let j = choose|j: int| i < j < n && (#[trigger] v.scopes[j]).body;
            lemma_unawaited(v.scopes, name, n, false, i);
        }
    }
}

/// Whether starting values are the environment's: each has one of its names.
pub open spec fn environment(names: Seq<String>, values: Seq<(Seq<char>, ValueView)>) -> bool {
    forall|i: int| 0 <= i < values.len() ==> holds(names, (#[trigger] values[i]).0)
}

pub proof fn lemma_environment(t: Tour, values: Seq<(Seq<char>, ValueView)>)
    requires
        environment(t.names, values),
    ensures
        foreseen(values, t.seed()),
{
    assert forall|i: int| 0 <= i < values.len() implies seeded(t.seed(), (#[trigger] values[i]).0) by {
        assert(holds(t.names, values[i].0));
        let j = choose|j: int| 0 <= j < t.names.len() && (#[trigger] t.names[j])@ == values[i].0;
        assert(t.seed()[j].0 == values[i].0);
    }
}

/// Whether the walk over a tree comes to a piece of it once.
pub open spec fn met_once(t: Tour, job: JobView) -> bool {
    forall|n: nat, m: nat| #[trigger] visits(t, n, job) && #[trigger] visits(t, m, job) ==> n == m
}

/// Whether the walk over a tree comes once to a statement that assigns to a target.
pub open spec fn assigned_once(t: Tour, id: ExprId) -> bool {
    forall|n: nat, a: JobView, m: nat, b: JobView|
        #[trigger] visits(t, n, a) && assigns_to(a, id) && #[trigger] visits(t, m, b) && assigns_to(b, id) ==> n == m
}

/// A name that is reported as undeclared fails with that report wherever a run of the Script gets to it,
/// if every starting variable of the run is one that the walk was told of.
///
/// Left out are trees that no text has: where another name has the same text and place, since the report
/// does not tell the two apart, and where one node stands in two places, since the name may be bound in one
/// of them.
pub proof fn law_reported_read_fails(
    p: Program,
    names: Seq<String>,
    values: Seq<(Seq<char>, ValueView)>,
    policy: Policy,
    callables: Option<Seq<String>>,
    findings: Seq<DiagnosticView>,
    i: int,
    id: ExprId,
    m: MachineView,
)
    requires
        p.wf(),
        p.acyclic(),
        found(p, names, policy, callables, findings),
        0 <= i < findings.len(),
        reads_undeclared(p, id, findings[i]),
        environment(names, values),
        reached(p, values, m),
        m.frames.len() > 0,
        m.frames.last() == Frame::Eval(id),
        forall|other: ExprId| #[trigger] reads_undeclared(p, other, findings[i]) ==> other == id,
        met_once(Tour { p, names, policy, callables }, JobView::Expression(id)),
    ensures
        m.taken().step(p, Frame::Eval(id)) == Turn::Fail(findings[i]),
{
    let t = Tour { p, names, policy, callables };
    let end = choose|n: nat|
        (#[trigger] begun(p, names).steps(p, policy, callables, n)).jobs.len() == 0 && begun(p, names).steps(
            p,
            policy,
            callables,
            n,
        ).findings == findings;
    assert(t.after(end) == begun(p, names).steps(p, policy, callables, end));
    assert(t.done(end));
    if let ExpressionKind::Identifier(node) = p.expr(id).kind {
        let name = node.name@;
        let s = sight(t, name);
        let job = JobView::Expression(id);
        let n = lemma_reported(t, end, i);
        let v = t.after(n);
        if let JobView::Expression(x) = v.jobs.last() {
            lemma_fitting(t, n);
            assert(v.jobs[v.jobs.len() - 1].fits(p));
            assert(reads_undeclared(p, x, findings[i]));
        }
        assert(visits(t, n, job));
        lemma_sight(t, end, name);
        lemma_environment(t, values);
        lemma_reached(p, s, values, t.seed(), m);
        let l = choose|l: Labels| abides(p, s, l, m);
        let k = m.heap.slots.len();
        assert(s.hides(job, k)) by {
            lemma_unseen(v, name, k);
        }
        assert(fine(p, s, l, m.heap, Frame::Eval(id), m.scope));
        assert(runs(p, Frame::Eval(id), job));
        assert(clear(m.heap, name, m.scope, k));
        lemma_clear_unresolved(m.heap, name, m.scope, k);
    }
}

/// An assignment to a name that is reported as undeclared fails with that report wherever a run of the
/// Script gets to it, if every starting variable of the run is one that the walk was told of.
///
/// Left out are the same trees as for a name that is read.
pub proof fn law_reported_assignment_fails(
    p: Program,
    names: Seq<String>,
    values: Seq<(Seq<char>, ValueView)>,
    policy: Policy,
    callables: Option<Seq<String>>,
    findings: Seq<DiagnosticView>,
    i: int,
    id: ExprId,
    m: MachineView,
)
    requires
        p.wf(),
        p.acyclic(),
        found(p, names, policy, callables, findings),
        0 <= i < findings.len(),
        assigns_undeclared(p, id, findings[i]),
        environment(names, values),
        reached(p, values, m),
        m.frames.len() > 0,
        m.frames.last() == Frame::AssignName(id),
        forall|other: ExprId| #[trigger] assigns_undeclared(p, other, findings[i]) ==> other == id,
        assigned_once(Tour { p, names, policy, callables }, id),
    ensures
        m.taken().step(p, Frame::AssignName(id)) == Turn::Fail(findings[i]),
{
    let t = Tour { p, names, policy, callables };
    let end = choose|n: nat|
        (#[trigger] begun(p, names).steps(p, policy, callables, n)).jobs.len() == 0 && begun(p, names).steps(
            p,
            policy,
            callables,
            n,
        ).findings == findings;
    assert(t.after(end) == begun(p, names).steps(p, policy, callables, end));
    assert(t.done(end));
    lemma_codes();
    if let ExpressionKind::Identifier(node) = p.expr(id).kind {
        let name = node.name@;
        let s = sight(t, name);
        let n = lemma_reported(t, end, i);
        let v = t.after(n);
        let last = v.jobs.last();
        if let JobView::Statement(statement) = last {
            if let StatementKind::Assignment { target, .. } = statement.kind {
                lemma_fitting(t, n);
                assert(v.jobs[v.jobs.len() - 1].fits(p));
                assert(assigns_undeclared(p, target, findings[i]));
            }
        }
        assert(assigns_to(last, id));
        assert(visits(t, n, last));
        lemma_sight(t, end, name);
        lemma_environment(t, values);
        lemma_reached(p, s, values, t.seed(), m);
        let l = choose|l: Labels| abides(p, s, l, m);
        let k = m.heap.slots.len();
        assert(s.aims(id, k)) by {
            lemma_unseen(v, name, k);
        }
        assert(fine(p, s, l, m.heap, Frame::AssignName(id), m.scope));
        assert(clear(m.heap, name, m.scope, k));
        lemma_clear_unresolved(m.heap, name, m.scope, k);
    }
}

/// Everything that is still to be walked is the tree's.
proof fn lemma_fitting(t: Tour, n: nat)
    requires
        t.p.wf(),
        t.p.acyclic(),
    ensures
        t.after(n).fits(t.p),
    decreases n,
{
    if n > 0 {
        lemma_fitting(t, (n - 1) as nat);
        let before = t.after((n - 1) as nat);
        if before.jobs.len() > 0 {
            let w = choose|w: Weights| t.p.weighs(w);
            lemma_step(t.p, w, t.policy, t.callables, before);
        }
    } else {
        assert(t.after(0) == begun(t.p, t.names));
    }
}

} // verus!

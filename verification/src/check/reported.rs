//! What a reported name comes to when the Script runs.

use vstd::prelude::*;
use crate::ast::ExprId;
use crate::ast::ExpressionKind;
use crate::ast::Program;
use crate::ast::Statement;
use crate::check::Policy;
use crate::check::walk::Binding;
use crate::check::walk::JobView;
use crate::check::walk::WalkView;
use crate::check::walk::begun;
use crate::check::walk::found;
use crate::check::walk::unread;
use crate::check::weighing::lemma_step;
use crate::diagnostics::Code;
use crate::diagnostics::DiagnosticView;
use crate::diagnostics::Span;
use crate::interpreter::machine::fits;
use crate::interpreter::naming::absent;
use crate::interpreter::naming::declares;
use crate::interpreter::naming::law_absent_names_fail;
use crate::interpreter::naming::law_run_binds_declared_names;
use crate::interpreter::semantics::Frame;
use crate::interpreter::semantics::MachineView;
use crate::interpreter::semantics::Turn;
use crate::interpreter::semantics::undeclared;
use crate::interpreter::semantics::undeclared_assignment;

verus! {

/// Whether an expression is a name of which this is the report that it is not declared.
pub open spec fn reads_undeclared(p: Program, id: ExprId, finding: DiagnosticView) -> bool {
    p.has_expr(id) && (p.expr(id).kind matches ExpressionKind::Identifier(node) && finding == undeclared(
        node.name@,
        node.span,
    ))
}

/// Whether an expression is a name of which this is the report that it cannot be assigned.
pub open spec fn assigns_undeclared(p: Program, id: ExprId, finding: DiagnosticView) -> bool {
    p.has_expr(id) && (p.expr(id).kind matches ExpressionKind::Identifier(node) && finding == undeclared_assignment(
        node.name@,
        node.span,
    ))
}

/// Whether a report of an undeclared name is about a name in the tree.
pub open spec fn rooted(p: Program, finding: DiagnosticView) -> bool {
    &&& finding.code == Code::UNDECLARED_IDENTIFIER@ ==> exists|id: ExprId| #[trigger] reads_undeclared(p, id, finding)
    &&& finding.code == Code::UNDECLARED_ASSIGNMENT@ ==> exists|id: ExprId| #[trigger] assigns_undeclared(p, id, finding)
}

spec fn all_rooted(p: Program, findings: Seq<DiagnosticView>) -> bool {
    forall|i: int| 0 <= i < findings.len() ==> rooted(p, #[trigger] findings[i])
}

/// The codes that are about undeclared names, and those that are not.
proof fn lemma_codes()
    ensures
        Code::UNDECLARED_IDENTIFIER@ != Code::UNDECLARED_ASSIGNMENT@,
        Code::UNDECLARED_IDENTIFIER@.len() == 31,
        Code::UNDECLARED_ASSIGNMENT@.len() == 31,
        Code::UNREACHABLE_CODE@.len() != 31,
        Code::UNUSED_VARIABLE@.len() != 31,
        Code::UNKNOWN_FUNCTION@.len() != 31,
        Code::CONSTRUCT_DISABLED@.len() != 31,
        Code::DUPLICATE_DECLARATION@.len() != 31,
        Code::ARGUMENT_COUNT@.len() != 31,
        Code::OPERAND_MISMATCH@.len() != 31,
{
    reveal_strlit("reference.undeclared_identifier");
    reveal_strlit("reference.undeclared_assignment");
    reveal_strlit("syntax.unreachable_code");
    reveal_strlit("reference.unused_variable");
    reveal_strlit("capability.unknown_function");
    reveal_strlit("policy.construct_disabled");
    reveal_strlit("syntax.duplicate_declaration");
    reveal_strlit("arity.argument_count");
    reveal_strlit("type.operand_mismatch");
    assert(Code::UNDECLARED_IDENTIFIER@[21] != Code::UNDECLARED_ASSIGNMENT@[21]);
}

proof fn lemma_one_more(p: Program, findings: Seq<DiagnosticView>, finding: DiagnosticView)
    requires
        all_rooted(p, findings),
        rooted(p, finding),
    ensures
        all_rooted(p, findings.push(finding)),
{
    let all = findings.push(finding);
    assert forall|i: int| 0 <= i < all.len() implies rooted(p, #[trigger] all[i]) by {
        if i < findings.len() {
            assert(all[i] == findings[i]);
        }
    }
}

proof fn lemma_seeded(v: WalkView, seed: Seq<(Seq<char>, Span)>, n: int)
    ensures
        v.seeded(seed, n).findings == v.findings,
    decreases n,
{
    if n > 0 {
        lemma_seeded(v, seed, n - 1);
    }
}

proof fn lemma_hoisted(v: WalkView, p: Program, statements: Seq<Statement>, n: int)
    requires
        all_rooted(p, v.findings),
    ensures
        all_rooted(p, v.hoisted(p, statements, n).findings),
    decreases n,
{
    lemma_codes();
    if n > 0 {
        lemma_hoisted(v, p, statements, n - 1);
    }
}

proof fn lemma_unread(p: Program, bindings: Seq<(Seq<char>, Binding)>, k: int)
    ensures
        all_rooted(p, unread(bindings, k)),
    decreases k,
{
    lemma_codes();
    if k > 0 {
        lemma_unread(p, bindings, k - 1);
        let before = unread(bindings, k - 1);
        let all = unread(bindings, k);
        assert forall|i: int| 0 <= i < all.len() implies rooted(p, #[trigger] all[i]) by {
            if i < before.len() {
                assert(all[i] == before[i]);
            }
        }
    }
}

proof fn lemma_expression_rooted(v: WalkView, p: Program, policy: Policy, callables: Option<Seq<String>>, id: ExprId)
    requires
        all_rooted(p, v.findings),
        p.has_expr(id),
    ensures
        all_rooted(p, v.expression(p, policy, callables, id).findings),
{
    lemma_codes();
    if let ExpressionKind::Identifier(node) = p.expr(id).kind {
        assert(reads_undeclared(p, id, undeclared(node.name@, node.span)));
        lemma_one_more(p, v.findings, undeclared(node.name@, node.span));
    }
}

proof fn lemma_statement_rooted(v: WalkView, p: Program, policy: Policy, statement: Statement)
    requires
        p.wf(),
        all_rooted(p, v.findings),
        p.statement_ok(statement),
    ensures
        all_rooted(p, v.statement(p, policy, statement).findings),
{
    lemma_codes();
    if let crate::ast::StatementKind::Assignment { target, value, .. } = statement.kind {
        if let ExpressionKind::Identifier(node) = p.expr(target).kind {
            assert(assigns_undeclared(p, target, undeclared_assignment(node.name@, node.span)));
            lemma_one_more(p, v.findings, undeclared_assignment(node.name@, node.span));
        }
    }
}

proof fn lemma_step_rooted(v: WalkView, p: Program, policy: Policy, callables: Option<Seq<String>>)
    requires
        p.wf(),
        v.fits(p),
        all_rooted(p, v.findings),
    ensures
        all_rooted(p, v.step(p, policy, callables).findings),
{
    lemma_codes();
    if v.jobs.len() > 0 {
        let rest = WalkView { jobs: v.jobs.drop_last(), ..v };
        assert(v.jobs[v.jobs.len() - 1].fits(p));
        match v.jobs.last() {
            JobView::Open { statements, seed, body } => {
                let pushed = rest.entered(statements, seed, body);
                lemma_seeded(pushed, seed, seed.len() as int);
                lemma_hoisted(pushed.seeded(seed, seed.len() as int), p, statements, statements.len() as int);
            },
            JobView::Statement(statement) => {
                lemma_statement_rooted(rest, p, policy, statement);
            },
            JobView::Expression(id) => {
                lemma_expression_rooted(rest, p, policy, callables, id);
            },
            JobView::Close => {
                if rest.scopes.len() > 0 {
                    let bindings = rest.scopes.last().bindings;
                    lemma_unread(p, bindings, bindings.len() as int);
                }
            },
            _ => {},
        }
    }
}

proof fn lemma_steps_rooted(v: WalkView, p: Program, policy: Policy, callables: Option<Seq<String>>, n: nat)
    requires
        p.wf(),
        p.acyclic(),
        v.fits(p),
        all_rooted(p, v.findings),
    ensures
        v.steps(p, policy, callables, n).fits(p),
        all_rooted(p, v.steps(p, policy, callables, n).findings),
    decreases n,
{
    if n > 0 {
        lemma_steps_rooted(v, p, policy, callables, (n - 1) as nat);
        let before = v.steps(p, policy, callables, (n - 1) as nat);
        lemma_step_rooted(before, p, policy, callables);
        if before.jobs.len() > 0 {
            let w = choose|w: crate::ast::Weights| p.weighs(w);
            lemma_step(p, w, policy, callables, before);
        }
    }
}

/// Every report of an undeclared name is about a name that stands in the tree.
pub proof fn law_reported_names_stand_in_the_tree(
    p: Program,
    variables: Seq<String>,
    policy: Policy,
    callables: Option<Seq<String>>,
    findings: Seq<DiagnosticView>,
    i: int,
)
    requires
        p.wf(),
        p.acyclic(),
        found(p, variables, policy, callables, findings),
        0 <= i < findings.len(),
    ensures
        rooted(p, findings[i]),
{
    let start = begun(p, variables);
    let n = choose|n: nat|
        (#[trigger] start.steps(p, policy, callables, n)).jobs.len() == 0 && start.steps(p, policy, callables, n).findings
            == findings;
    assert(start.fits(p));
    lemma_steps_rooted(start, p, policy, callables, n);
}

/// A name that is reported as undeclared, and that the Script declares nowhere, fails with just that
/// report wherever a run gets to it.
pub proof fn law_reported_name_fails(
    p: Program,
    finding: DiagnosticView,
    id: ExprId,
    name: Seq<char>,
    m: MachineView,
    fuel: nat,
)
    requires
        p.wf(),
        fits(p, m),
        p.expr(id).kind matches ExpressionKind::Identifier(node) && node.name@ == name,
        !declares(p, name),
        absent(m.heap, name),
    ensures
        reads_undeclared(p, id, finding) ==> match m.run(p, fuel) {
            Turn::Go(after) => after.step(p, Frame::Eval(id)) == Turn::Fail(finding),
            Turn::Halt(after, _) => after.step(p, Frame::Eval(id)) == Turn::Fail(finding),
            Turn::Fail(_) => true,
        },
        assigns_undeclared(p, id, finding) ==> match m.run(p, fuel) {
            Turn::Go(after) => after.step(p, Frame::AssignName(id)) == Turn::Fail(finding),
            Turn::Halt(after, _) => after.step(p, Frame::AssignName(id)) == Turn::Fail(finding),
            Turn::Fail(_) => true,
        },
{
    law_run_binds_declared_names(p, m, fuel, name);
    match m.run(p, fuel) {
        Turn::Go(after) => {
            law_absent_names_fail(p, after, id, name);
        },
        Turn::Halt(after, _) => {
            law_absent_names_fail(p, after, id, name);
        },
        Turn::Fail(_) => {},
    }
}

} // verus!

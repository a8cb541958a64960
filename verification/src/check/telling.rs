//! What the report on a Script tells: everything that can run is looked at, and what is wrong with it is
//! told.

use vstd::prelude::*;
use crate::ast::AccessKind;
use crate::ast::BlockId;
use crate::ast::ExpressionKind;
use crate::ast::Function;
use crate::ast::Program;
use crate::ast::Statement;
use crate::ast::StatementKind;
use crate::check::Policy;
use crate::check::seeing::lemma_sight;
use crate::check::seeing::sight;
use crate::check::seeing::visited;
use crate::check::seeing::visits;
use crate::check::sight::holds_expr;
use crate::check::sight::linked_to;
use crate::check::sight::over_statement;
use crate::check::sight::part;
use crate::check::touring::lemma_done;
use crate::check::touring::lemma_steady;
use crate::check::visits::Tour;
use crate::check::walk::JobView;
use crate::check::walk::WalkView;
use crate::check::walk::begun;
use crate::check::walk::dead_code;
use crate::check::walk::first_plain;
use crate::check::walk::first_terminator;
use crate::check::walk::found;
use crate::check::walk::in_source_order;
use crate::check::walk::place;
use crate::check::walk::seed_of;
use crate::diagnostics::Category;
use crate::diagnostics::Code;
use crate::diagnostics::DiagnosticView;
use crate::diagnostics::Severity;
use crate::diagnostics::Span;

verus! {

/// Whether a statement ends its block.
pub open spec fn ends(statement: Statement) -> bool {
    statement.kind is Return || statement.kind is Break || statement.kind is Continue
}

/// A block of a tree, run with some names.
pub open spec fn inside_block(p: Program, body: BlockId, names: Seq<(Seq<char>, Span)>) -> JobView {
    JobView::Open { statements: p.statements_of(Some(body)), seed: names, body: false }
}

/// Whether a piece of a Script can run once the piece around it does.
pub open spec fn leads(p: Program, whole: JobView, piece: JobView) -> bool {
    match whole {
        JobView::Open { statements, .. } => leads_into_block(p, statements, piece),
        JobView::Statement(statement) => match statement.kind {
            StatementKind::Let { initializer, .. } => piece == JobView::Expression(initializer),
            StatementKind::Assignment { value, .. } => piece == JobView::Expression(value),
            StatementKind::Return { value: Some(value), .. } => piece == JobView::Expression(value),
            StatementKind::Block(body) => piece == inside_block(p, body, Seq::empty()),
            StatementKind::If { branches, else_branch } => {
                ||| exists|i: int|
                    0 <= i < branches@.len() && (piece == JobView::Expression((#[trigger] branches@[i]).condition.expression)
                        || piece == inside_block(p, branches@[i].body, Seq::empty()))
                ||| else_branch matches Some(branch) && piece == inside_block(p, branch.body, Seq::empty())
            },
            StatementKind::While { condition, body, .. } => piece == JobView::Expression(condition.expression) || piece
                == inside_block(p, body, Seq::empty()),
            StatementKind::For { binding, iterable, body, .. } => piece == JobView::Expression(iterable) || piece
                == inside_block(p, body, seq![(binding.name@, binding.span)]),
            StatementKind::Expression(id) => piece == JobView::Expression(id),
            _ => false,
        },
        JobView::Expression(id) => match p.expr(id).kind {
            ExpressionKind::Group { expression, .. } => piece == JobView::Expression(expression),
            ExpressionKind::Unary { operand, .. } => piece == JobView::Expression(operand),
            ExpressionKind::Binary { left, right, .. } => piece == JobView::Expression(left) || piece
                == JobView::Expression(right),
            ExpressionKind::Array { elements, .. } => exists|i: int|
                0 <= i < elements@.len() && piece == JobView::Expression(#[trigger] elements@[i]),
            ExpressionKind::Object { entries, .. } => exists|i: int|
                0 <= i < entries@.len() && piece == JobView::Expression((#[trigger] entries@[i]).value),
            ExpressionKind::Access { base, links } => {
                ||| piece == JobView::Expression(base)
                ||| exists|i: int|
                    0 <= i < links@.len() && ((#[trigger] links@[i]).kind matches AccessKind::Index { expression, .. } && piece
                        == JobView::Expression(expression))
                ||| exists|i: int, j: int|
                    0 <= i < links@.len() && #[trigger] argument_at(links@[i].kind, j, piece)
            },
            ExpressionKind::Function(function) => leads_into_body(p, function, piece),
            _ => false,
        },
        _ => false,
    }
}

/// Whether a piece is argument `j` of a call.
pub open spec fn argument_at(kind: AccessKind, j: int, piece: JobView) -> bool {
    kind matches AccessKind::Call { arguments, .. } && 0 <= j < arguments@.len() && piece == JobView::Expression(arguments@[j])
}

/// Whether a piece is a statement of a block that no earlier one keeps from running, or the body of a function
/// that the block declares.
pub open spec fn leads_into_block(p: Program, statements: Seq<Statement>, piece: JobView) -> bool {
    ||| exists|k: int|
        0 <= k < statements.len() && piece == JobView::Statement(#[trigger] statements[k]) && forall|i: int|
            0 <= i < k ==> !ends(#[trigger] statements[i])
    ||| exists|k: int|
        0 <= k < statements.len() && ((#[trigger] statements[k]).kind matches StatementKind::Function { function, .. }
            && leads_into_body(p, function, piece))
}

/// Whether a piece is the body of a function, run with its parameters.
pub open spec fn leads_into_body(p: Program, function: Function, piece: JobView) -> bool {
    piece == (JobView::Open {
        statements: p.statements_of(Some(function.body)),
        seed: Seq::new(
            function.parameters@.len(),
            |i: int| (function.parameters@[i].name@, function.parameters@[i].span),
        ),
        body: true,
    })
}

/// Whether a way through a Script goes from the whole to a piece of it that can run.
pub open spec fn way(p: Program, names: Seq<String>, path: Seq<JobView>) -> bool {
    &&& path.len() > 0
    &&& path[0] == (JobView::Open {
        statements: p.statements@,
        seed: Seq::new(names.len(), |i: int| (names[i]@, p.span)),
        body: false,
    })
    &&& forall|i: int| 0 < i < path.len() ==> leads(p, path[i - 1], #[trigger] path[i])
}

/// Whether a report holds a finding.
pub open spec fn told(report: Seq<DiagnosticView>, finding: DiagnosticView) -> bool {
    exists|i: int| 0 <= i < report.len() && #[trigger] report[i] == finding
}

proof fn lemma_not_before(statements: Seq<Statement>, from: int)
    ensures
        from <= first_terminator(statements, from),
    decreases statements.len() - from,
{
    if 0 <= from < statements.len() {
        lemma_not_before(statements, from + 1);
    }
}

pub proof fn lemma_before_the_end(statements: Seq<Statement>, k: int, from: int)
    requires
        0 <= from <= k < statements.len(),
        forall|i: int| 0 <= i < k ==> !ends(#[trigger] statements[i]),
    ensures
        k <= first_terminator(statements, from),
    decreases k - from,
{
    if from < k {
        assert(!ends(statements[from]));
        lemma_before_the_end(statements, k, from + 1);
    } else {
        lemma_not_before(statements, from);
    }
}

proof fn lemma_the_end(statements: Seq<Statement>, k: int, from: int)
    requires
        0 <= from <= k < statements.len(),
        ends(statements[k]),
        forall|i: int| 0 <= i < k ==> !ends(#[trigger] statements[i]),
    ensures
        first_terminator(statements, from) == k,
    decreases k - from,
{
    if from < k {
        assert(!ends(statements[from]));
        lemma_the_end(statements, k, from + 1);
    }
}

proof fn lemma_the_plain_one(statements: Seq<Statement>, k: int, from: int)
    requires
        0 <= from <= k < statements.len(),
        !(statements[k].kind is Function),
        forall|i: int| from <= i < k ==> (#[trigger] statements[i]).kind is Function,
    ensures
        first_plain(statements, from) == k,
    decreases k - from,
{
    if from < k {
        assert(statements[from].kind is Function);
        lemma_the_plain_one(statements, k, from + 1);
    }
}

#[verifier::spinoff_prover]
proof fn lemma_led(t: Tour, end: nat, whole: JobView, piece: JobView)
    requires
        t.done(end),
        visited(t, whole),
        leads(t.p, whole, piece),
    ensures
        visited(t, piece),
{
    let s = sight(t, Seq::empty());
    lemma_sight(t, end, Seq::empty());
    assert(s.lives(whole));
    match whole {
        JobView::Open { statements, seed, body } => {
            assert(s.lives(JobView::Open { statements, seed, body }));
            if exists|k: int|
                0 <= k < statements.len() && piece == JobView::Statement(#[trigger] statements[k]) && forall|i: int|
                    0 <= i < k ==> !ends(#[trigger] statements[i]) {
                let k = choose|k: int|
                    0 <= k < statements.len() && piece == JobView::Statement(#[trigger] statements[k]) && forall|i: int|
                        0 <= i < k ==> !ends(#[trigger] statements[i]);
                lemma_before_the_end(statements, k, 0);
                assert(over_statement(t.p, s, statements, seed, body, k));
                assert(s.lives(piece));
            } else {
                let k = choose|k: int|
                    0 <= k < statements.len() && ((#[trigger] statements[k]).kind matches StatementKind::Function {
                        function,
                        ..
                    } && leads_into_body(t.p, function, piece));
                if let StatementKind::Function { function, .. } = statements[k].kind {
                    assert(piece->Open_seed =~= seed_of(function.parameters@));
                    assert(piece == crate::check::walk::body_job(t.p, function));
                    assert(s.lives(piece));
                }
            }
        },
        JobView::Statement(statement) => {
            assert(part(t.p, whole, piece));
            assert(s.lives(piece));
        },
        JobView::Expression(id) => {
            match t.p.expr(id).kind {
                ExpressionKind::Function(function) => {
                    assert(piece->Open_seed =~= seed_of(function.parameters@));
                    assert(piece == crate::check::walk::body_job(t.p, function));
                    assert(s.lives(JobView::Expression(id)));
                    assert(s.lives(piece));
                },
                ExpressionKind::Access { base, links } => {
                    if piece != JobView::Expression(base) {
                        let x = piece->Expression_0;
                        if exists|i: int|
                            0 <= i < links@.len() && ((#[trigger] links@[i]).kind matches AccessKind::Index { expression, .. }
                                && piece == JobView::Expression(expression)) {
                            let i = choose|i: int|
                                0 <= i < links@.len() && ((#[trigger] links@[i]).kind matches AccessKind::Index {
                                    expression,
                                    ..
                                } && piece == JobView::Expression(expression));
                            assert(holds_expr(links@[i], x));
                        } else {
                            let (i, j) = choose|i: int, j: int|
                                0 <= i < links@.len() && #[trigger] argument_at(links@[i].kind, j, piece);
                            if let AccessKind::Call { arguments, .. } = links@[i].kind {
                                assert(arguments@[j] == x);
                            }
                            assert(holds_expr(links@[i], x));
                        }
                        assert(linked_to(links@, x));
                    }
                    assert(part(t.p, whole, piece));
                    assert(s.lives(piece));
                },
                _ => {
                    assert(part(t.p, whole, piece));
                    assert(s.lives(piece));
                },
            }
        },
        _ => {},
    }
}

/// Everything that can run is looked at: the branches of an `if`, the bodies of loops and functions, and
/// every expression in them.
pub proof fn law_everything_is_looked_at(t: Tour, end: nat, path: Seq<JobView>)
    requires
        t.done(end),
        way(t.p, t.names, path),
    ensures
        visited(t, path.last()),
    decreases path.len(),
{
    if path.len() == 1 {
        assert(t.after(0) == begun(t.p, t.names));
        assert(visits(t, 0, path[0]));
    } else {
        law_everything_is_looked_at(t, end, path.drop_last());
        assert(path.drop_last().last() == path[path.len() - 2]);
        assert(leads(t.p, path[path.len() - 2], path[path.len() - 1]));
        lemma_led(t, end, path[path.len() - 2], path[path.len() - 1]);
    }
}

proof fn lemma_seeded_kept(v: WalkView, seed: Seq<(Seq<char>, Span)>, n: int)
    ensures
        v.seeded(seed, n).findings == v.findings,
    decreases n,
{
    if n > 0 {
        lemma_seeded_kept(v, seed, n - 1);
    }
}

/// Whether findings only grow.
pub open spec fn more(before: Seq<DiagnosticView>, after: Seq<DiagnosticView>) -> bool {
    before.len() <= after.len() && forall|i: int| 0 <= i < before.len() ==> #[trigger] after[i] == before[i]
}

proof fn lemma_hoisted_kept(v: WalkView, p: Program, statements: Seq<Statement>, n: int)
    ensures
        more(v.findings, v.hoisted(p, statements, n).findings),
    decreases n,
{
    if n > 0 {
        lemma_hoisted_kept(v, p, statements, n - 1);
    }
}

proof fn lemma_step_kept(v: WalkView, p: Program, policy: Policy, callables: Option<Seq<String>>)
    ensures
        more(v.findings, v.step(p, policy, callables).findings),
{
    if v.jobs.len() > 0 {
        let rest = WalkView { jobs: v.jobs.drop_last(), ..v };
        if let JobView::Open { statements, seed, body } = v.jobs.last() {
            let entered = rest.entered(statements, seed, body);
            lemma_seeded_kept(entered, seed, seed.len() as int);
            lemma_hoisted_kept(entered.seeded(seed, seed.len() as int), p, statements, statements.len() as int);
        }
    }
}

/// What was found stays.
pub proof fn lemma_kept(t: Tour, n: nat, end: nat)
    requires
        n <= end,
    ensures
        more(t.after(n).findings, t.after(end).findings),
    decreases end - n,
{
    if n < end {
        lemma_kept(t, n, (end - 1) as nat);
        lemma_steady(t, (end - 1) as nat);
        lemma_step_kept(t.after((end - 1) as nat), t.p, t.policy, t.callables);
    }
}

proof fn lemma_told_in_order(findings: Seq<DiagnosticView>, i: int)
    requires
        0 <= i < findings.len(),
    ensures
        told(in_source_order(findings), findings[i]),
    decreases findings.len(),
{
    let rest = in_source_order(findings.drop_first());
    crate::check::walk::lemma_place(rest, findings[0].span.offset, 0);
    let at = place(rest, findings[0].span.offset, 0);
    let all = in_source_order(findings);
    assert(all == rest.insert(at, findings[0]));
    if i == 0 {
        assert(all[at] == findings[0]);
    } else {
        lemma_told_in_order(findings.drop_first(), i - 1);
        let k = choose|k: int| 0 <= k < rest.len() && #[trigger] rest[k] == findings.drop_first()[i - 1];
        let there = if k < at { k } else { k + 1 };
        assert(all[there] == findings[i]);
    }
}

/// What a job finds is told in the end.
pub proof fn lemma_told(t: Tour, end: nat, n: nat, i: int)
    requires
        t.done(end),
        t.after(n).jobs.len() > 0,
        0 <= i < t.stepped(t.after(n)).findings.len(),
    ensures
        told(in_source_order(t.after(end).findings), t.stepped(t.after(n)).findings[i]),
{
    if n >= end {
        lemma_done(t, end, n);
    }
    lemma_steady(t, n);
    lemma_kept(t, n + 1, end);
    assert(t.after(end).findings[i] == t.after(n + 1).findings[i]);
    lemma_told_in_order(t.after(end).findings, i);
}

/// The tour that a check makes.
pub open spec fn tour_of(p: Program, names: Seq<String>, policy: Policy, callables: Option<Seq<String>>) -> Tour {
    Tour { p, names, policy, callables }
}

/// A found walk is a finished tour.
pub proof fn lemma_tour(p: Program, names: Seq<String>, policy: Policy, callables: Option<Seq<String>>, findings: Seq<
    DiagnosticView,
>) -> (end: nat)
    requires
        found(p, names, policy, callables, findings),
    ensures
        tour_of(p, names, policy, callables).done(end),
        tour_of(p, names, policy, callables).after(end).findings == findings,
{
    choose|n: nat|
        (#[trigger] begun(p, names).steps(p, policy, callables, n)).jobs.len() == 0 && begun(p, names).steps(
            p,
            policy,
            callables,
            n,
        ).findings == findings
}

/// Code that can never run is told: in every block that can run, the first statement behind a `return`,
/// `break` or `continue` that declares no function is warned of, at its own place.
pub proof fn law_dead_code_is_told(
    p: Program,
    names: Seq<String>,
    policy: Policy,
    callables: Option<Seq<String>>,
    findings: Seq<DiagnosticView>,
    path: Seq<JobView>,
    i: int,
    j: int,
)
    requires
        found(p, names, policy, callables, findings),
        way(p, names, path),
        path.last() is Open,
        0 <= i < j < path.last()->Open_statements.len(),
        ends(path.last()->Open_statements[i]),
        forall|k: int| 0 <= k < i ==> !ends(#[trigger] path.last()->Open_statements[k]),
        !(path.last()->Open_statements[j].kind is Function),
        forall|k: int| i < k < j ==> (#[trigger] path.last()->Open_statements[k]).kind is Function,
    ensures
        told(
            in_source_order(findings),
            (DiagnosticView {
                severity: Severity::Warning,
                category: Category::Syntax,
                code: "syntax.unreachable_code"@,
                message: match path.last()->Open_statements[i].kind {
                    StatementKind::Return { .. } => "this code can never run: the block always `return`s before it"@,
                    StatementKind::Break { .. } => "this code can never run: the block always `break`s before it"@,
                    _ => "this code can never run: the block always `continue`s before it"@,
                },
                span: path.last()->Open_statements[j].span,
            }),
        ),
{
    let t = tour_of(p, names, policy, callables);
    let end = lemma_tour(p, names, policy, callables, findings);
    law_everything_is_looked_at(t, end, path);
    let n = choose|n: nat| #[trigger] visits(t, n, path.last());
    let v = t.after(n);
    if let JobView::Open { statements, seed, body } = path.last() {
        let rest = WalkView { jobs: v.jobs.drop_last(), ..v };
        lemma_the_end(statements, i, 0);
        lemma_the_plain_one(statements, j, i + 1);
        let after = t.stepped(v);
        assert(after == rest.opened(p, statements, seed, body));
        assert(dead_code(statements) is Some);
        let warning = dead_code(statements)->0;
        assert(after.findings.last() == warning);
        lemma_told(t, end, n, after.findings.len() - 1);
        reveal_strlit("this code can never run: the block always `");
        reveal_strlit("`s before it");
        reveal_strlit("return");
        reveal_strlit("break");
        reveal_strlit("continue");
        reveal_strlit("this code can never run: the block always `return`s before it");
        reveal_strlit("this code can never run: the block always `break`s before it");
        reveal_strlit("this code can never run: the block always `continue`s before it");
        match statements[i].kind {
            StatementKind::Return { .. } => {
                assert(warning.message =~= "this code can never run: the block always `return`s before it"@);
            },
            StatementKind::Break { .. } => {
                assert(warning.message =~= "this code can never run: the block always `break`s before it"@);
            },
            _ => {
                assert(warning.message =~= "this code can never run: the block always `continue`s before it"@);
            },
        }
    }
}

} // verus!

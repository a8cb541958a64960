//! Whether a tree is a tree: no expression and no block holds itself.
//!
//! An expression or a block is marked once everything that it holds is marked. When no more can be
//! marked, those that are left hold each other in a circle.

use vstd::prelude::*;
use crate::ast::AccessKind;
use crate::ast::AccessLink;
use crate::ast::BlockId;
use crate::ast::ConditionalBranch;
use crate::ast::ExprId;
use crate::ast::ExpressionKind;
use crate::ast::ObjectEntry;
use crate::ast::Program;
use crate::ast::Statement;
use crate::ast::StatementKind;
use crate::ast::Weights;

verus! {

/// Which expressions and blocks are marked.
struct Marks {
    expressions: Vec<bool>,
    blocks: Vec<bool>,
}

impl Marks {
    spec fn fits(self, p: Program) -> bool {
        self.expressions@.len() == p.expressions@.len() && self.blocks@.len() == p.blocks@.len()
    }

    spec fn expr(self, id: ExprId) -> bool {
        self.expressions@[id.0 as int]
    }

    spec fn block(self, id: BlockId) -> bool {
        self.blocks@[id.0 as int]
    }

    spec fn exprs(self, ids: Seq<ExprId>) -> bool {
        forall|i: int| 0 <= i < ids.len() ==> self.expr(#[trigger] ids[i])
    }

    spec fn entries(self, entries: Seq<ObjectEntry>) -> bool {
        forall|i: int| 0 <= i < entries.len() ==> self.expr((#[trigger] entries[i]).value)
    }

    spec fn link(self, link: AccessLink) -> bool {
        match link.kind {
            AccessKind::Property(_) => true,
            AccessKind::Index { expression, .. } => self.expr(expression),
            AccessKind::Call { arguments, .. } => self.exprs(arguments@),
        }
    }

    spec fn links(self, links: Seq<AccessLink>) -> bool {
        forall|i: int| 0 <= i < links.len() ==> self.link(#[trigger] links[i])
    }

    spec fn branches(self, branches: Seq<ConditionalBranch>) -> bool {
        forall|i: int|
            0 <= i < branches.len() ==> self.expr((#[trigger] branches[i]).condition.expression) && self.block(
                branches[i].body,
            )
    }

    /// Whether everything that an expression holds is marked.
    spec fn kind(self, kind: ExpressionKind) -> bool {
        match kind {
            ExpressionKind::Literal(_) => true,
            ExpressionKind::Identifier(_) => true,
            ExpressionKind::Group { expression, .. } => self.expr(expression),
            ExpressionKind::Unary { operand, .. } => self.expr(operand),
            ExpressionKind::Binary { left, right, .. } => self.expr(left) && self.expr(right),
            ExpressionKind::Array { elements, .. } => self.exprs(elements@),
            ExpressionKind::Object { entries, .. } => self.entries(entries@),
            ExpressionKind::Access { base, links } => self.expr(base) && self.links(links@),
            ExpressionKind::Function(function) => self.block(function.body),
        }
    }

    /// Whether everything that a statement holds is marked.
    spec fn statement(self, statement: Statement) -> bool {
        match statement.kind {
            StatementKind::Let { initializer, .. } => self.expr(initializer),
            StatementKind::Function { function, .. } => self.block(function.body),
            StatementKind::Assignment { target, value, .. } => self.expr(target) && self.expr(value),
            StatementKind::Return { value, .. } => value matches Some(id) ==> self.expr(id),
            StatementKind::Block(id) => self.block(id),
            StatementKind::If { branches, else_branch } => self.branches(branches@) && (else_branch matches Some(
                branch,
            ) ==> self.block(branch.body)),
            StatementKind::While { condition, body, .. } => self.expr(condition.expression) && self.block(body),
            StatementKind::For { iterable, body, .. } => self.expr(iterable) && self.block(body),
            StatementKind::Break { .. } => true,
            StatementKind::Continue { .. } => true,
            StatementKind::Expression(id) => self.expr(id),
        }
    }

    spec fn statements(self, statements: Seq<Statement>) -> bool {
        forall|i: int| 0 <= i < statements.len() ==> self.statement(#[trigger] statements[i])
    }

    /// Whether every mark is right: what holds something heavier than itself is not marked.
    spec fn sound(self, p: Program, w: Weights) -> bool {
        &&& self.fits(p)
        &&& w.expressions.len() == p.expressions@.len()
        &&& w.blocks.len() == p.blocks@.len()
        &&& forall|e: int|
            0 <= e < p.expressions@.len() && #[trigger] self.expressions@[e] ==> self.kind(p.expressions@[e].kind)
                && w.expressions[e] >= 2 + w.held_by(p.expressions@[e].kind)
        &&& forall|b: int|
            0 <= b < p.blocks@.len() && #[trigger] self.blocks@[b] ==> self.statements(p.blocks@[b].statements@)
                && w.blocks[b] >= 3 + w.statements(p.blocks@[b].statements@, 0)
    }

    /// Whether two sets of weights agree on everything that is marked.
    spec fn same(self, v: Weights, w: Weights) -> bool {
        &&& forall|e: int| 0 <= e < self.expressions@.len() && #[trigger] self.expressions@[e] ==> v.expressions[e]
            == w.expressions[e]
        &&& forall|b: int| 0 <= b < self.blocks@.len() && #[trigger] self.blocks@[b] ==> v.blocks[b] == w.blocks[b]
    }
}

proof fn lemma_same_exprs(p: Program, m: Marks, v: Weights, w: Weights, ids: Seq<ExprId>, k: int)
    requires
        m.fits(p),
        m.same(v, w),
        p.has_exprs(ids),
        m.exprs(ids),
        0 <= k <= ids.len(),
    ensures
        v.exprs(ids, k) == w.exprs(ids, k),
    decreases ids.len() - k,
{
    if k < ids.len() {
        assert(p.has_expr(ids[k]));
        assert(m.expr(ids[k]));
        lemma_same_exprs(p, m, v, w, ids, k + 1);
    }
}

proof fn lemma_same_entries(p: Program, m: Marks, v: Weights, w: Weights, entries: Seq<ObjectEntry>, k: int)
    requires
        m.fits(p),
        m.same(v, w),
        forall|i: int| 0 <= i < entries.len() ==> p.has_expr((#[trigger] entries[i]).value),
        m.entries(entries),
        0 <= k <= entries.len(),
    ensures
        v.entries(entries, k) == w.entries(entries, k),
    decreases entries.len() - k,
{
    if k < entries.len() {
        assert(p.has_expr(entries[k].value));
        assert(m.expr(entries[k].value));
        lemma_same_entries(p, m, v, w, entries, k + 1);
    }
}

proof fn lemma_same_links(p: Program, m: Marks, v: Weights, w: Weights, links: Seq<AccessLink>, k: int)
    requires
        m.fits(p),
        m.same(v, w),
        forall|i: int| 0 <= i < links.len() ==> p.link_ok(#[trigger] links[i]),
        m.links(links),
        0 <= k <= links.len(),
    ensures
        v.links(links, k) == w.links(links, k),
    decreases links.len() - k,
{
    if k < links.len() {
        assert(p.link_ok(links[k]));
        assert(m.link(links[k]));
        if let AccessKind::Call { arguments, .. } = links[k].kind {
            lemma_same_exprs(p, m, v, w, arguments@, 0);
        }
        lemma_same_links(p, m, v, w, links, k + 1);
    }
}

proof fn lemma_same_branches(p: Program, m: Marks, v: Weights, w: Weights, branches: Seq<ConditionalBranch>, k: int)
    requires
        m.fits(p),
        m.same(v, w),
        forall|i: int|
            0 <= i < branches.len() ==> p.has_expr((#[trigger] branches[i]).condition.expression) && p.has_block(
                branches[i].body,
            ),
        m.branches(branches),
        0 <= k <= branches.len(),
    ensures
        v.branches(branches, k) == w.branches(branches, k),
    decreases branches.len() - k,
{
    if k < branches.len() {
        assert(p.has_expr(branches[k].condition.expression));
        assert(m.expr(branches[k].condition.expression));
        lemma_same_branches(p, m, v, w, branches, k + 1);
    }
}

proof fn lemma_same_statements(p: Program, m: Marks, v: Weights, w: Weights, statements: Seq<Statement>, k: int)
    requires
        m.fits(p),
        m.same(v, w),
        p.statements_ok(statements),
        m.statements(statements),
        0 <= k <= statements.len(),
    ensures
        v.statements(statements, k) == w.statements(statements, k),
    decreases statements.len() - k,
{
    if k < statements.len() {
        assert(p.statement_ok(statements[k]));
        assert(m.statement(statements[k]));
        if let StatementKind::If { branches, .. } = statements[k].kind {
            lemma_same_branches(p, m, v, w, branches@, 0);
        }
        lemma_same_statements(p, m, v, w, statements, k + 1);
    }
}

proof fn lemma_same_kind(p: Program, m: Marks, v: Weights, w: Weights, e: int)
    requires
        p.wf(),
        m.fits(p),
        m.same(v, w),
        0 <= e < p.expressions@.len(),
        m.kind(p.expressions@[e].kind),
    ensures
        v.held_by(p.expressions@[e].kind) == w.held_by(p.expressions@[e].kind),
{
    assert(p.expression_ok(p.expressions@[e]));
    match p.expressions@[e].kind {
        ExpressionKind::Array { elements, .. } => lemma_same_exprs(p, m, v, w, elements@, 0),
        ExpressionKind::Object { entries, .. } => lemma_same_entries(p, m, v, w, entries@, 0),
        ExpressionKind::Access { links, .. } => lemma_same_links(p, m, v, w, links@, 0),
        _ => {},
    }
}

/// Marking one more thing, with a weight above what it holds, keeps the marks right.
proof fn lemma_marked(p: Program, m: Marks, n: Marks, v: Weights, w: Weights)
    requires
        p.wf(),
        m.sound(p, v),
        n.fits(p),
        w.expressions.len() == v.expressions.len(),
        w.blocks.len() == v.blocks.len(),
        m.same(v, w),
        forall|e: int| 0 <= e < p.expressions@.len() && m.expressions@[e] ==> #[trigger] n.expressions@[e],
        forall|b: int| 0 <= b < p.blocks@.len() && m.blocks@[b] ==> #[trigger] n.blocks@[b],
        forall|e: int|
            0 <= e < p.expressions@.len() && #[trigger] n.expressions@[e] && !m.expressions@[e] ==> m.kind(
                p.expressions@[e].kind,
            ) && w.expressions[e] >= 2 + v.held_by(p.expressions@[e].kind),
        forall|b: int|
            0 <= b < p.blocks@.len() && #[trigger] n.blocks@[b] && !m.blocks@[b] ==> m.statements(
                p.blocks@[b].statements@,
            ) && w.blocks[b] >= 3 + v.statements(p.blocks@[b].statements@, 0),
    ensures
        n.sound(p, w),
{
    assert forall|e: int| 0 <= e < p.expressions@.len() && #[trigger] n.expressions@[e] implies n.kind(
        p.expressions@[e].kind,
    ) && w.expressions[e] >= 2 + w.held_by(p.expressions@[e].kind) by {
        assert(m.expressions@[e] ==> m.kind(p.expressions@[e].kind));
        lemma_same_kind(p, m, v, w, e);
        lemma_more_kind(p, m, n, e);
    }
    assert forall|b: int| 0 <= b < p.blocks@.len() && #[trigger] n.blocks@[b] implies n.statements(
        p.blocks@[b].statements@,
    ) && w.blocks[b] >= 3 + w.statements(p.blocks@[b].statements@, 0) by {
        assert(m.blocks@[b] ==> m.statements(p.blocks@[b].statements@));
        let statements = p.blocks@[b].statements@;
        assert(p.statements_ok(statements));
        lemma_same_statements(p, m, v, w, statements, 0);
        lemma_more_statements(p, m, n, statements);
    }
}

proof fn lemma_more_kind(p: Program, m: Marks, n: Marks, e: int)
    requires
        p.wf(),
        m.fits(p),
        n.fits(p),
        0 <= e < p.expressions@.len(),
        forall|e: int| 0 <= e < p.expressions@.len() && m.expressions@[e] ==> #[trigger] n.expressions@[e],
        forall|b: int| 0 <= b < p.blocks@.len() && m.blocks@[b] ==> #[trigger] n.blocks@[b],
        m.kind(p.expressions@[e].kind),
    ensures
        n.kind(p.expressions@[e].kind),
{
    assert(p.expression_ok(p.expressions@[e]));
    match p.expressions@[e].kind {
        ExpressionKind::Array { elements, .. } => {
            assert forall|i: int| 0 <= i < elements@.len() implies n.expr(#[trigger] elements@[i]) by {
                assert(p.has_expr(elements@[i]));
                assert(m.expr(elements@[i]));
            }
        },
        ExpressionKind::Object { entries, .. } => {
            assert forall|i: int| 0 <= i < entries@.len() implies n.expr((#[trigger] entries@[i]).value) by {
                assert(p.has_expr(entries@[i].value));
                assert(m.expr(entries@[i].value));
            }
        },
        ExpressionKind::Access { links, .. } => {
            assert forall|i: int| 0 <= i < links@.len() implies n.link(#[trigger] links@[i]) by {
                assert(p.link_ok(links@[i]));
                assert(m.link(links@[i]));
                if let AccessKind::Call { arguments, .. } = links@[i].kind {
                    assert forall|j: int| 0 <= j < arguments@.len() implies n.expr(#[trigger] arguments@[j]) by {
                        assert(p.has_expr(arguments@[j]));
                        assert(m.expr(arguments@[j]));
                    }
                }
            }
        },
        _ => {},
    }
}

proof fn lemma_more_statements(p: Program, m: Marks, n: Marks, statements: Seq<Statement>)
    requires
        m.fits(p),
        n.fits(p),
        p.statements_ok(statements),
        forall|e: int| 0 <= e < p.expressions@.len() && m.expressions@[e] ==> #[trigger] n.expressions@[e],
        forall|b: int| 0 <= b < p.blocks@.len() && m.blocks@[b] ==> #[trigger] n.blocks@[b],
        m.statements(statements),
    ensures
        n.statements(statements),
{
    assert forall|i: int| 0 <= i < statements.len() implies n.statement(#[trigger] statements[i]) by {
        assert(p.statement_ok(statements[i]));
        assert(m.statement(statements[i]));
        if let StatementKind::If { branches, .. } = statements[i].kind {
            assert forall|j: int| 0 <= j < branches@.len() implies n.expr(
                (#[trigger] branches@[j]).condition.expression,
            ) && n.block(branches@[j].body) by {
                assert(p.has_expr(branches@[j].condition.expression));
                assert(m.expr(branches@[j].condition.expression));
            }
        }
    }
}

/// An expression or a block.
ghost enum Node {
    Expr(int),
    Block(int),
}

spec fn weight(w: Weights, node: Node) -> nat {
    match node {
        Node::Expr(e) => w.expressions[e],
        Node::Block(b) => w.blocks[b],
    }
}

spec fn marked(m: Marks, node: Node) -> bool {
    match node {
        Node::Expr(e) => m.expressions@[e],
        Node::Block(b) => m.blocks@[b],
    }
}

spec fn in_range(p: Program, node: Node) -> bool {
    match node {
        Node::Expr(e) => 0 <= e < p.expressions@.len(),
        Node::Block(b) => 0 <= b < p.blocks@.len(),
    }
}

/// A node that is not marked, at most as heavy as `bound`.
spec fn open_node(p: Program, m: Marks, w: Weights, bound: nat, node: Node) -> bool {
    in_range(p, node) && !marked(m, node) && weight(w, node) <= bound
}

proof fn lemma_open_exprs(p: Program, m: Marks, w: Weights, ids: Seq<ExprId>, i: int, k: int) -> (node: Node)
    requires
        m.fits(p),
        p.has_exprs(ids),
        0 <= k <= i < ids.len(),
        !m.expr(ids[i]),
    ensures
        open_node(p, m, w, w.exprs(ids, k), node),
    decreases i - k,
{
    assert(p.has_expr(ids[i]));
    if k == i {
        Node::Expr(ids[i].0 as int)
    } else {
        lemma_open_exprs(p, m, w, ids, i, k + 1)
    }
}

proof fn lemma_open_entries(p: Program, m: Marks, w: Weights, entries: Seq<ObjectEntry>, i: int, k: int) -> (node: Node)
    requires
        m.fits(p),
        forall|i: int| 0 <= i < entries.len() ==> p.has_expr((#[trigger] entries[i]).value),
        0 <= k <= i < entries.len(),
        !m.expr(entries[i].value),
    ensures
        open_node(p, m, w, w.entries(entries, k), node),
    decreases i - k,
{
    assert(p.has_expr(entries[i].value));
    if k == i {
        Node::Expr(entries[i].value.0 as int)
    } else {
        lemma_open_entries(p, m, w, entries, i, k + 1)
    }
}

proof fn lemma_open_links(p: Program, m: Marks, w: Weights, links: Seq<AccessLink>, i: int, k: int) -> (node: Node)
    requires
        m.fits(p),
        forall|i: int| 0 <= i < links.len() ==> p.link_ok(#[trigger] links[i]),
        0 <= k <= i < links.len(),
        !m.link(links[i]),
    ensures
        open_node(p, m, w, w.links(links, k), node),
    decreases i - k,
{
    assert(p.link_ok(links[i]));
    if k == i {
        match links[i].kind {
            AccessKind::Property(_) => Node::Expr(0),
            AccessKind::Index { expression, .. } => Node::Expr(expression.0 as int),
            AccessKind::Call { arguments, .. } => {
                let j = choose|j: int| 0 <= j < arguments@.len() && !m.expr(#[trigger] arguments@[j]);
                lemma_open_exprs(p, m, w, arguments@, j, 0)
            },
        }
    } else {
        lemma_open_links(p, m, w, links, i, k + 1)
    }
}

proof fn lemma_open_branches(
    p: Program,
    m: Marks,
    w: Weights,
    branches: Seq<ConditionalBranch>,
    i: int,
    k: int,
) -> (node: Node)
    requires
        m.fits(p),
        forall|i: int|
            0 <= i < branches.len() ==> p.has_expr((#[trigger] branches[i]).condition.expression) && p.has_block(
                branches[i].body,
            ),
        0 <= k <= i < branches.len(),
        !m.expr(branches[i].condition.expression) || !m.block(branches[i].body),
    ensures
        open_node(p, m, w, w.branches(branches, k), node),
    decreases i - k,
{
    assert(p.has_expr(branches[i].condition.expression));
    if k == i {
        if !m.expr(branches[i].condition.expression) {
            Node::Expr(branches[i].condition.expression.0 as int)
        } else {
            Node::Block(branches[i].body.0 as int)
        }
    } else {
        lemma_open_branches(p, m, w, branches, i, k + 1)
    }
}

proof fn lemma_open_kind(p: Program, m: Marks, w: Weights, e: int) -> (node: Node)
    requires
        p.wf(),
        m.fits(p),
        0 <= e < p.expressions@.len(),
        !m.kind(p.expressions@[e].kind),
    ensures
        open_node(p, m, w, w.held_by(p.expressions@[e].kind), node),
{
    assert(p.expression_ok(p.expressions@[e]));
    match p.expressions@[e].kind {
        ExpressionKind::Literal(_) => Node::Expr(0),
        ExpressionKind::Identifier(_) => Node::Expr(0),
        ExpressionKind::Group { expression, .. } => Node::Expr(expression.0 as int),
        ExpressionKind::Unary { operand, .. } => Node::Expr(operand.0 as int),
        ExpressionKind::Binary { left, right, .. } => if !m.expr(left) {
            Node::Expr(left.0 as int)
        } else {
            Node::Expr(right.0 as int)
        },
        ExpressionKind::Array { elements, .. } => {
            let j = choose|j: int| 0 <= j < elements@.len() && !m.expr(#[trigger] elements@[j]);
            lemma_open_exprs(p, m, w, elements@, j, 0)
        },
        ExpressionKind::Object { entries, .. } => {
            let j = choose|j: int| 0 <= j < entries@.len() && !m.expr((#[trigger] entries@[j]).value);
            lemma_open_entries(p, m, w, entries@, j, 0)
        },
        ExpressionKind::Access { base, links } => if !m.expr(base) {
            Node::Expr(base.0 as int)
        } else {
            let j = choose|j: int| 0 <= j < links@.len() && !m.link(#[trigger] links@[j]);
            lemma_open_links(p, m, w, links@, j, 0)
        },
        ExpressionKind::Function(function) => Node::Block(function.body.0 as int),
    }
}

proof fn lemma_open_statement(p: Program, m: Marks, w: Weights, statement: Statement) -> (node: Node)
    requires
        m.fits(p),
        p.statement_ok(statement),
        !m.statement(statement),
    ensures
        open_node(p, m, w, w.statement(statement), node),
{
    match statement.kind {
        StatementKind::Let { initializer, .. } => Node::Expr(initializer.0 as int),
        StatementKind::Function { function, .. } => Node::Block(function.body.0 as int),
        StatementKind::Assignment { target, value, .. } => if !m.expr(target) {
            Node::Expr(target.0 as int)
        } else {
            Node::Expr(value.0 as int)
        },
        StatementKind::Return { value, .. } => Node::Expr((value->0).0 as int),
        StatementKind::Block(id) => Node::Block(id.0 as int),
        StatementKind::If { branches, else_branch } => if !m.branches(branches@) {
            let j = choose|j: int|
                0 <= j < branches@.len() && (!m.expr((#[trigger] branches@[j]).condition.expression) || !m.block(
                    branches@[j].body,
                ));
            lemma_open_branches(p, m, w, branches@, j, 0)
        } else {
            Node::Block((else_branch->0).body.0 as int)
        },
        StatementKind::While { condition, body, .. } => if !m.expr(condition.expression) {
            Node::Expr(condition.expression.0 as int)
        } else {
            Node::Block(body.0 as int)
        },
        StatementKind::For { iterable, body, .. } => if !m.expr(iterable) {
            Node::Expr(iterable.0 as int)
        } else {
            Node::Block(body.0 as int)
        },
        StatementKind::Break { .. } => Node::Expr(0),
        StatementKind::Continue { .. } => Node::Expr(0),
        StatementKind::Expression(id) => Node::Expr(id.0 as int),
    }
}

proof fn lemma_open_statements(p: Program, m: Marks, w: Weights, statements: Seq<Statement>, i: int, k: int) -> (node:
    Node)
    requires
        m.fits(p),
        p.statements_ok(statements),
        0 <= k <= i < statements.len(),
        !m.statement(statements[i]),
    ensures
        open_node(p, m, w, w.statements(statements, k), node),
    decreases i - k,
{
    assert(p.statement_ok(statements[i]));
    if k == i {
        lemma_open_statement(p, m, w, statements[i])
    } else {
        lemma_open_statements(p, m, w, statements, i, k + 1)
    }
}

/// Whether nothing more can be marked.
spec fn stuck(p: Program, m: Marks) -> bool {
    &&& forall|e: int|
        0 <= e < p.expressions@.len() && !#[trigger] m.expressions@[e] ==> !m.kind(p.expressions@[e].kind)
    &&& forall|b: int|
        0 <= b < p.blocks@.len() && !#[trigger] m.blocks@[b] ==> !m.statements(p.blocks@[b].statements@)
}

/// In a tree, when nothing more can be marked, everything is.
proof fn lemma_all_marked(p: Program, m: Marks, w: Weights, node: Node)
    requires
        p.wf(),
        p.weighs(w),
        m.fits(p),
        stuck(p, m),
        in_range(p, node),
    ensures
        marked(m, node),
    decreases weight(w, node),
{
    if !marked(m, node) {
        match node {
            Node::Expr(e) => {
                assert(w.expressions[e] >= 2 + w.held_by(p.expressions@[e].kind));
                assert(!m.kind(p.expressions@[e].kind));
                let inner = lemma_open_kind(p, m, w, e);
                lemma_all_marked(p, m, w, inner);
            },
            Node::Block(b) => {
                assert(w.blocks[b] >= 3 + w.statements(p.blocks@[b].statements@, 0));
                let statements = p.blocks@[b].statements@;
                assert(!m.statements(statements));
                assert(p.statements_ok(statements));
                let i = choose|i: int| 0 <= i < statements.len() && !m.statement(#[trigger] statements[i]);
                let inner = lemma_open_statements(p, m, w, statements, i, 0);
                lemma_all_marked(p, m, w, inner);
            },
        }
    }
}

impl Marks {
    fn all_exprs(&self, p: &Program, ids: &Vec<ExprId>) -> (r: bool)
        requires
            self.fits(*p),
            p.has_exprs(ids@),
        ensures
            r == self.exprs(ids@),
    {
        let mut i: usize = 0;
        while i < ids.len()
            invariant
                i <= ids@.len(),
                self.fits(*p),
                p.has_exprs(ids@),
                forall|j: int| 0 <= j < i ==> self.expr(#[trigger] ids@[j]),
            decreases ids.len() - i,
        {
            proof {
                assert(p.has_expr(ids@[i as int]));
            }
            if !self.expressions[ids[i].0] {
                proof {
                    assert(!self.expr(ids@[i as int]));
                }
                return false;
            }
            i = i + 1;
        }
        true
    }

    fn all_entries(&self, p: &Program, entries: &Vec<ObjectEntry>) -> (r: bool)
        requires
            self.fits(*p),
            forall|i: int| 0 <= i < entries@.len() ==> p.has_expr((#[trigger] entries@[i]).value),
        ensures
            r == self.entries(entries@),
    {
        let mut i: usize = 0;
        while i < entries.len()
            invariant
                i <= entries@.len(),
                self.fits(*p),
                forall|i: int| 0 <= i < entries@.len() ==> p.has_expr((#[trigger] entries@[i]).value),
                forall|j: int| 0 <= j < i ==> self.expr((#[trigger] entries@[j]).value),
            decreases entries.len() - i,
        {
            proof {
                assert(p.has_expr(entries@[i as int].value));
            }
            if !self.expressions[entries[i].value.0] {
                proof {
                    assert(!self.expr(entries@[i as int].value));
                }
                return false;
            }
            i = i + 1;
        }
        true
    }

    fn all_links(&self, p: &Program, links: &Vec<AccessLink>) -> (r: bool)
        requires
            self.fits(*p),
            forall|i: int| 0 <= i < links@.len() ==> p.link_ok(#[trigger] links@[i]),
        ensures
            r == self.links(links@),
    {
        let mut i: usize = 0;
        while i < links.len()
            invariant
                i <= links@.len(),
                self.fits(*p),
                forall|i: int| 0 <= i < links@.len() ==> p.link_ok(#[trigger] links@[i]),
                forall|j: int| 0 <= j < i ==> self.link(#[trigger] links@[j]),
            decreases links.len() - i,
        {
            proof {
                assert(p.link_ok(links@[i as int]));
            }
            let ready = match &links[i].kind {
                AccessKind::Property(_) => true,
                AccessKind::Index { expression, .. } => self.expressions[expression.0],
                AccessKind::Call { arguments, .. } => self.all_exprs(p, arguments),
            };
            if !ready {
                proof {
                    assert(!self.link(links@[i as int]));
                }
                return false;
            }
            i = i + 1;
        }
        true
    }

    fn all_branches(&self, p: &Program, branches: &Vec<ConditionalBranch>) -> (r: bool)
        requires
            self.fits(*p),
            forall|i: int|
                0 <= i < branches@.len() ==> p.has_expr((#[trigger] branches@[i]).condition.expression)
                    && p.has_block(branches@[i].body),
        ensures
            r == self.branches(branches@),
    {
        let mut i: usize = 0;
        while i < branches.len()
            invariant
                i <= branches@.len(),
                self.fits(*p),
                forall|i: int|
                    0 <= i < branches@.len() ==> p.has_expr((#[trigger] branches@[i]).condition.expression)
                        && p.has_block(branches@[i].body),
                forall|j: int|
                    0 <= j < i ==> self.expr((#[trigger] branches@[j]).condition.expression) && self.block(
                        branches@[j].body,
                    ),
            decreases branches.len() - i,
        {
            proof {
                assert(p.has_expr(branches@[i as int].condition.expression));
            }
            if !self.expressions[branches[i].condition.expression.0] || !self.blocks[branches[i].body.0] {
                proof {
                    assert(!self.expr(branches@[i as int].condition.expression) || !self.block(
                        branches@[i as int].body,
                    ));
                }
                return false;
            }
            i = i + 1;
        }
        true
    }

    fn kind_ready(&self, p: &Program, e: usize) -> (r: bool)
        requires
            p.wf(),
            self.fits(*p),
            e < p.expressions@.len(),
        ensures
            r == self.kind(p.expressions@[e as int].kind),
    {
        proof {
            assert(p.expression_ok(p.expressions@[e as int]));
        }
        match &p.expressions[e].kind {
            ExpressionKind::Literal(_) => true,
            ExpressionKind::Identifier(_) => true,
            ExpressionKind::Group { expression, .. } => self.expressions[expression.0],
            ExpressionKind::Unary { operand, .. } => self.expressions[operand.0],
            ExpressionKind::Binary { left, right, .. } => self.expressions[left.0] && self.expressions[right.0],
            ExpressionKind::Array { elements, .. } => self.all_exprs(p, elements),
            ExpressionKind::Object { entries, .. } => self.all_entries(p, entries),
            ExpressionKind::Access { base, links } => self.expressions[base.0] && self.all_links(p, links),
            ExpressionKind::Function(function) => self.blocks[function.body.0],
        }
    }

    fn statement_ready(&self, p: &Program, statement: &Statement) -> (r: bool)
        requires
            self.fits(*p),
            p.statement_ok(*statement),
        ensures
            r == self.statement(*statement),
    {
        match &statement.kind {
            StatementKind::Let { initializer, .. } => self.expressions[initializer.0],
            StatementKind::Function { function, .. } => self.blocks[function.body.0],
            StatementKind::Assignment { target, value, .. } => self.expressions[target.0] && self.expressions[value.0],
            StatementKind::Return { value, .. } => match value {
                Some(id) => self.expressions[id.0],
                None => true,
            },
            StatementKind::Block(id) => self.blocks[id.0],
            StatementKind::If { branches, else_branch } => self.all_branches(p, branches) && match else_branch {
                Some(branch) => self.blocks[branch.body.0],
                None => true,
            },
            StatementKind::While { condition, body, .. } => self.expressions[condition.expression.0]
                && self.blocks[body.0],
            StatementKind::For { iterable, body, .. } => self.expressions[iterable.0] && self.blocks[body.0],
            StatementKind::Break { .. } => true,
            StatementKind::Continue { .. } => true,
            StatementKind::Expression(id) => self.expressions[id.0],
        }
    }

    fn statements_ready(&self, p: &Program, statements: &Vec<Statement>) -> (r: bool)
        requires
            self.fits(*p),
            p.statements_ok(statements@),
        ensures
            r == self.statements(statements@),
    {
        let mut i: usize = 0;
        while i < statements.len()
            invariant
                i <= statements@.len(),
                self.fits(*p),
                p.statements_ok(statements@),
                forall|j: int| 0 <= j < i ==> self.statement(#[trigger] statements@[j]),
            decreases statements.len() - i,
        {
            proof {
                assert(p.statement_ok(statements@[i as int]));
            }
            if !self.statement_ready(p, &statements[i]) {
                proof {
                    assert(!self.statement(statements@[i as int]));
                }
                return false;
            }
            i = i + 1;
        }
        true
    }
}

fn unmarked(n: usize) -> (r: Vec<bool>)
    ensures
        r@.len() == n,
        forall|i: int| 0 <= i < n ==> !(#[trigger] r@[i]),
{
    let mut out: Vec<bool> = Vec::new();
    while out.len() < n
        invariant
            out@.len() <= n,
            forall|i: int| 0 <= i < out@.len() ==> !(#[trigger] out@[i]),
        decreases n - out.len(),
    {
        out.push(false);
    }
    out
}

/// How many of the first `n` flags are not set.
spec fn open_flags(flags: Seq<bool>, n: int) -> nat
    decreases n,
{
    if n <= 0 {
        0
    } else if flags[n - 1] {
        open_flags(flags, n - 1)
    } else {
        open_flags(flags, n - 1) + 1
    }
}

proof fn lemma_set_flag(flags: Seq<bool>, i: int, n: int)
    requires
        0 <= i < flags.len(),
        0 <= n <= flags.len(),
        !flags[i],
    ensures
        open_flags(flags.update(i, true), n) == (if i < n {
            open_flags(flags, n) - 1
        } else {
            open_flags(flags, n) as int
        }),
        i < n ==> open_flags(flags, n) > 0,
    decreases n,
{
    if n > 0 {
        lemma_set_flag(flags, i, n - 1);
    }
}

spec fn open_marks(m: Marks) -> nat {
    open_flags(m.expressions@, m.expressions@.len() as int) + open_flags(m.blocks@, m.blocks@.len() as int)
}

impl Program {
    /// Whether no expression and no block holds itself. A caller that built a tree by hand asks this
    /// before it checks it.
    pub fn is_acyclic(&self) -> (r: bool)
        requires
            self.wf(),
        ensures
            r == self.acyclic(),
    {
        let mut marks = Marks {
            expressions: unmarked(self.expressions.len()),
            blocks: unmarked(self.blocks.len()),
        };
        let ghost mut w = Weights {
            expressions: Seq::new(self.expressions@.len(), |i: int| 0nat),
            blocks: Seq::new(self.blocks@.len(), |i: int| 0nat),
        };
        let mut progress = true;
        while progress
            invariant
                self.wf(),
                marks.sound(*self, w),
                !progress ==> stuck(*self, marks),
            decreases open_marks(marks), (if progress { 1int } else { 0int }),
        {
            progress = false;
            let ghost start = marks;
            let mut e: usize = 0;
            while e < self.expressions.len()
                invariant
                    self.wf(),
                    e <= self.expressions@.len(),
                    marks.sound(*self, w),
                    open_marks(marks) <= open_marks(start),
                    progress ==> open_marks(marks) < open_marks(start),
                    !progress ==> marks == start && forall|j: int|
                        0 <= j < e && !#[trigger] marks.expressions@[j] ==> !marks.kind(self.expressions@[j].kind),
                decreases self.expressions.len() - e,
            {
                if !marks.expressions[e] && marks.kind_ready(self, e) {
                    let ghost before = marks;
                    let ghost v = w;
                    marks.expressions.set(e, true);
                    progress = true;
                    proof {
                        w = Weights {
                            expressions: v.expressions.update(e as int, 2 + v.held_by(self.expressions@[e as int].kind)),
                            ..v
                        };
                        lemma_set_flag(before.expressions@, e as int, before.expressions@.len() as int);
                        lemma_marked(*self, before, marks, v, w);
                    }
                }
                e = e + 1;
            }
            let mut b: usize = 0;
            while b < self.blocks.len()
                invariant
                    self.wf(),
                    b <= self.blocks@.len(),
                    marks.sound(*self, w),
                    open_marks(marks) <= open_marks(start),
                    progress ==> open_marks(marks) < open_marks(start),
                    !progress ==> marks == start && (forall|j: int|
                        0 <= j < self.expressions@.len() && !#[trigger] marks.expressions@[j] ==> !marks.kind(
                            self.expressions@[j].kind,
                        )) && forall|j: int|
                        0 <= j < b && !#[trigger] marks.blocks@[j] ==> !marks.statements(self.blocks@[j].statements@),
                decreases self.blocks.len() - b,
            {
                proof {
                    assert(self.statements_ok(self.blocks@[b as int].statements@));
                }
                if !marks.blocks[b] && marks.statements_ready(self, &self.blocks[b].statements) {
                    let ghost before = marks;
                    let ghost v = w;
                    marks.blocks.set(b, true);
                    progress = true;
                    proof {
                        w = Weights {
                            blocks: v.blocks.update(
                                b as int,
                                3 + v.statements(self.blocks@[b as int].statements@, 0),
                            ),
                            ..v
                        };
                        lemma_set_flag(before.blocks@, b as int, before.blocks@.len() as int);
                        lemma_marked(*self, before, marks, v, w);
                    }
                }
                b = b + 1;
            }
        }
        let mut all = true;
        let mut e: usize = 0;
        while e < self.expressions.len()
            invariant
                e <= self.expressions@.len(),
                marks.fits(*self),
                all == forall|j: int| 0 <= j < e ==> #[trigger] marks.expressions@[j],
            decreases self.expressions.len() - e,
        {
            if !marks.expressions[e] {
                all = false;
            }
            e = e + 1;
        }
        let mut b: usize = 0;
        while b < self.blocks.len()
            invariant
                b <= self.blocks@.len(),
                marks.fits(*self),
                all == ((forall|j: int| 0 <= j < self.expressions@.len() ==> #[trigger] marks.expressions@[j]) && forall|
                    j: int,
                |
                    0 <= j < b ==> #[trigger] marks.blocks@[j]),
            decreases self.blocks.len() - b,
        {
            if !marks.blocks[b] {
                all = false;
            }
            b = b + 1;
        }
        proof {
            if all {
                assert forall|e: int| 0 <= e < self.expressions@.len() implies #[trigger] w.expressions[e] >= 2
                    + w.held_by(self.expressions@[e].kind) by {
                    assert(marks.expressions@[e]);
                }
                assert forall|b: int| 0 <= b < self.blocks@.len() implies #[trigger] w.blocks[b] >= 3 + w.statements(
                    self.blocks@[b].statements@,
                    0,
                ) by {
                    assert(marks.blocks@[b]);
                }
                assert(self.weighs(w));
            } else if self.acyclic() {
                let weights = choose|weights: Weights| self.weighs(weights);
                assert forall|j: int| 0 <= j < self.expressions@.len() implies #[trigger] marks.expressions@[j] by {
                    lemma_all_marked(*self, marks, weights, Node::Expr(j));
                }
                assert forall|j: int| 0 <= j < self.blocks@.len() implies #[trigger] marks.blocks@[j] by {
                    lemma_all_marked(*self, marks, weights, Node::Block(j));
                }
            }
        }
        all
    }
}

} // verus!

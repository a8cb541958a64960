//! The syntax tree: a Program whose expressions and blocks live in arenas and refer to each other
//! by index.

pub mod acyclic;

use vstd::prelude::*;
use crate::diagnostics::Span;
use crate::number::Number;

verus! {

/// An expression, by its place in [`Program::expressions`].
#[derive(Debug, Clone, Copy, PartialEq, Eq, Hash, Structural)]
pub struct ExprId(pub usize);

/// A block, by its place in [`Program::blocks`].
#[derive(Debug, Clone, Copy, PartialEq, Eq, Hash, Structural)]
pub struct BlockId(pub usize);

/// A name with its place.
#[derive(Debug, Clone)]
pub struct Identifier {
    pub name: String,
    pub span: Span,
}

/// A literal.
#[derive(Debug, Clone)]
pub enum Literal {
    Null,
    Bool(bool),
    Number(Number),
    String(String),
}

/// The prefix operators.
#[derive(Debug, Clone, Copy, PartialEq, Eq, Hash, Structural)]
pub enum UnaryOperator {
    Not,
    Negate,
}

/// The infix operators.
#[derive(Debug, Clone, Copy, PartialEq, Eq, Hash, Structural)]
pub enum BinaryOperator {
    Multiply,
    Divide,
    Remainder,
    Add,
    Subtract,
    Less,
    LessEqual,
    Greater,
    GreaterEqual,
    Equal,
    NotEqual,
    And,
    Or,
}

/// A prefix operator with its place.
#[derive(Debug, Clone, Copy, PartialEq, Eq, Hash, Structural)]
pub struct UnaryAt {
    pub kind: UnaryOperator,
    pub span: Span,
}

/// An infix operator with its place.
#[derive(Debug, Clone, Copy, PartialEq, Eq, Hash, Structural)]
pub struct BinaryAt {
    pub kind: BinaryOperator,
    pub span: Span,
}

/// A whole Script.
#[derive(Debug, Clone)]
pub struct Program {
    pub span: Span,
    pub statements: Vec<Statement>,
    pub blocks: Vec<Block>,
    pub expressions: Vec<Expression>,
}

/// Statements between braces.
#[derive(Debug, Clone)]
pub struct Block {
    pub span: Span,
    pub open: Span,
    pub close: Span,
    pub statements: Vec<Statement>,
}

#[derive(Debug, Clone)]
pub struct Statement {
    pub span: Span,
    pub terminator: Option<Span>,
    pub kind: StatementKind,
}

/// A parenthesised condition.
#[derive(Debug, Clone)]
pub struct Condition {
    pub open: Span,
    pub expression: ExprId,
    pub close: Span,
}

/// `if` or `else if`, its condition and its body.
#[derive(Debug, Clone)]
pub struct ConditionalBranch {
    pub else_keyword: Option<Span>,
    pub keyword: Span,
    pub condition: Condition,
    pub body: BlockId,
}

/// `else` and its body.
#[derive(Debug, Clone)]
pub struct ElseBranch {
    pub keyword: Span,
    pub body: BlockId,
}

/// The parameters and the body of a function.
#[derive(Debug, Clone)]
pub struct Function {
    pub keyword: Span,
    pub open: Span,
    pub parameters: Vec<Identifier>,
    pub close: Span,
    pub body: BlockId,
}

#[derive(Debug, Clone)]
pub enum StatementKind {
    Let { keyword: Span, name: Identifier, equals: Span, initializer: ExprId },
    Function { name: Identifier, function: Function },
    Assignment { target: ExprId, equals: Span, value: ExprId },
    Return { keyword: Span, value: Option<ExprId> },
    Block(BlockId),
    If { branches: Vec<ConditionalBranch>, else_branch: Option<ElseBranch> },
    While { keyword: Span, condition: Condition, body: BlockId },
    For { keyword: Span, binding: Identifier, iterable: ExprId, body: BlockId },
    Break { keyword: Span },
    Continue { keyword: Span },
    Expression(ExprId),
}

#[derive(Debug, Clone)]
pub struct Expression {
    pub span: Span,
    pub kind: ExpressionKind,
}

/// One `key: value` of an object literal.
#[derive(Debug, Clone)]
pub struct ObjectEntry {
    pub key: Identifier,
    pub value: ExprId,
}

#[derive(Debug, Clone)]
pub enum ExpressionKind {
    Literal(Literal),
    Identifier(Identifier),
    Group { open: Span, expression: ExprId, close: Span },
    Unary { operator: UnaryAt, operand: ExprId },
    Binary { left: ExprId, operator: BinaryAt, right: ExprId },
    Array { open: Span, elements: Vec<ExprId>, close: Span },
    Object { open: Span, entries: Vec<ObjectEntry>, close: Span },
    Access { base: ExprId, links: Vec<AccessLink> },
    Function(Function),
}

/// One step of an access chain.
#[derive(Debug, Clone)]
pub struct AccessLink {
    pub span: Span,
    pub operator: Span,
    /// Written with `?.`.
    pub optional: bool,
    pub kind: AccessKind,
}

#[derive(Debug, Clone)]
pub enum AccessKind {
    Property(Identifier),
    Index { open: Span, expression: ExprId, close: Span },
    Call { open: Span, arguments: Vec<ExprId>, close: Span },
}

impl Program {
    /// Whether an expression index is one of this Program's.
    pub open spec fn has_expr(self, id: ExprId) -> bool {
        id.0 < self.expressions@.len()
    }

    /// Whether a block index is one of this Program's.
    pub open spec fn has_block(self, id: BlockId) -> bool {
        id.0 < self.blocks@.len()
    }

    pub open spec fn has_exprs(self, ids: Seq<ExprId>) -> bool {
        forall|i: int| 0 <= i < ids.len() ==> self.has_expr(#[trigger] ids[i])
    }

    pub open spec fn link_ok(self, link: AccessLink) -> bool {
        match link.kind {
            AccessKind::Property(_) => true,
            AccessKind::Index { expression, .. } => self.has_expr(expression),
            AccessKind::Call { arguments, .. } => self.has_exprs(arguments@),
        }
    }

    pub open spec fn expression_ok(self, expression: Expression) -> bool {
        match expression.kind {
            ExpressionKind::Literal(_) => true,
            ExpressionKind::Identifier(_) => true,
            ExpressionKind::Group { expression, .. } => self.has_expr(expression),
            ExpressionKind::Unary { operand, .. } => self.has_expr(operand),
            ExpressionKind::Binary { left, right, .. } => self.has_expr(left) && self.has_expr(right),
            ExpressionKind::Array { elements, .. } => self.has_exprs(elements@),
            ExpressionKind::Object { entries, .. } => forall|i: int|
                0 <= i < entries@.len() ==> self.has_expr((#[trigger] entries@[i]).value),
            ExpressionKind::Access { base, links } => self.has_expr(base) && forall|i: int|
                0 <= i < links@.len() ==> self.link_ok(#[trigger] links@[i]),
            ExpressionKind::Function(function) => self.has_block(function.body),
        }
    }

    pub open spec fn statement_ok(self, statement: Statement) -> bool {
        match statement.kind {
            StatementKind::Let { initializer, .. } => self.has_expr(initializer),
            StatementKind::Function { function, .. } => self.has_block(function.body),
            StatementKind::Assignment { target, value, .. } => self.has_expr(target) && self.has_expr(value),
            StatementKind::Return { value, .. } => value matches Some(id) ==> self.has_expr(id),
            StatementKind::Block(id) => self.has_block(id),
            StatementKind::If { branches, else_branch } => {
                &&& forall|i: int|
                    0 <= i < branches@.len() ==> self.has_expr((#[trigger] branches@[i]).condition.expression)
                        && self.has_block(branches@[i].body)
                &&& else_branch matches Some(branch) ==> self.has_block(branch.body)
            },
            StatementKind::While { condition, body, .. } => self.has_expr(condition.expression) && self.has_block(
                body,
            ),
            StatementKind::For { iterable, body, .. } => self.has_expr(iterable) && self.has_block(body),
            StatementKind::Break { .. } => true,
            StatementKind::Continue { .. } => true,
            StatementKind::Expression(id) => self.has_expr(id),
        }
    }

    pub open spec fn statements_ok(self, statements: Seq<Statement>) -> bool {
        forall|i: int| 0 <= i < statements.len() ==> self.statement_ok(#[trigger] statements[i])
    }

    /// Every index in the tree is one of its own arenas'.
    pub open spec fn wf(self) -> bool {
        &&& self.statements_ok(self.statements@)
        &&& forall|b: int| 0 <= b < self.blocks@.len() ==> self.statements_ok((#[trigger] self.blocks@[b]).statements@)
        &&& forall|e: int| 0 <= e < self.expressions@.len() ==> self.expression_ok(#[trigger] self.expressions@[e])
    }

    /// The expression `id`.
    pub open spec fn expr(self, id: ExprId) -> Expression {
        self.expressions@[id.0 as int]
    }

    /// The expression `id`.
    pub fn expression(&self, id: ExprId) -> (r: &Expression)
        requires
            self.has_expr(id),
        ensures
            *r == self.expr(id),
    {
        &self.expressions[id.0]
    }

    /// The block `id`.
    pub fn block(&self, id: BlockId) -> (r: &Block)
        requires
            self.has_block(id),
        ensures
            *r == self.blocks@[id.0 as int],
    {
        &self.blocks[id.0]
    }

    /// The statements of a block, or of the top level for `None`.
    pub open spec fn statements_of(self, block: Option<BlockId>) -> Seq<Statement> {
        match block {
            None => self.statements@,
            Some(id) => self.blocks@[id.0 as int].statements@,
        }
    }

    /// Whether a block, or the top level for `None`, is this Program's.
    pub open spec fn has_body(self, block: Option<BlockId>) -> bool {
        block matches Some(id) ==> self.has_block(id)
    }

    /// The statements of a block, or of the top level for `None`.
    pub fn statements(&self, block: Option<BlockId>) -> (r: &Vec<Statement>)
        requires
            self.has_body(block),
        ensures
            r@ == self.statements_of(block),
    {
        match block {
            None => &self.statements,
            Some(id) => &self.blocks[id.0].statements,
        }
    }
}

impl Program {
    fn exprs_fit(&self, ids: &Vec<ExprId>) -> (r: bool)
        ensures
            r == self.has_exprs(ids@),
    {
        let mut i: usize = 0;
        while i < ids.len()
            invariant
                i <= ids@.len(),
                forall|j: int| 0 <= j < i ==> self.has_expr(#[trigger] ids@[j]),
            decreases ids.len() - i,
        {
            if ids[i].0 >= self.expressions.len() {
                proof {
                    assert(!self.has_expr(ids@[i as int]));
                }
                return false;
            }
            i = i + 1;
        }
        true
    }

    fn expr_fits(&self, id: ExprId) -> (r: bool)
        ensures
            r == self.has_expr(id),
    {
        id.0 < self.expressions.len()
    }

    fn block_fits(&self, id: BlockId) -> (r: bool)
        ensures
            r == self.has_block(id),
    {
        id.0 < self.blocks.len()
    }

    fn link_fits(&self, link: &AccessLink) -> (r: bool)
        ensures
            r == self.link_ok(*link),
    {
        match &link.kind {
            AccessKind::Property(_) => true,
            AccessKind::Index { expression, .. } => self.expr_fits(*expression),
            AccessKind::Call { arguments, .. } => self.exprs_fit(arguments),
        }
    }

    #[verifier::loop_isolation(false)]
    fn expression_fits(&self, expression: &Expression) -> (r: bool)
        ensures
            r == self.expression_ok(*expression),
    {
        match &expression.kind {
            ExpressionKind::Literal(_) => true,
            ExpressionKind::Identifier(_) => true,
            ExpressionKind::Group { expression, .. } => self.expr_fits(*expression),
            ExpressionKind::Unary { operand, .. } => self.expr_fits(*operand),
            ExpressionKind::Binary { left, right, .. } => self.expr_fits(*left) && self.expr_fits(*right),
            ExpressionKind::Array { elements, .. } => self.exprs_fit(elements),
            ExpressionKind::Object { entries, .. } => {
                let mut i: usize = 0;
                while i < entries.len()
                    invariant
                        i <= entries@.len(),
                        forall|j: int| 0 <= j < i ==> self.has_expr((#[trigger] entries@[j]).value),
                    decreases entries.len() - i,
                {
                    if !self.expr_fits(entries[i].value) {
                        return false;
                    }
                    i = i + 1;
                }
                true
            },
            ExpressionKind::Access { base, links } => {
                if !self.expr_fits(*base) {
                    return false;
                }
                let mut i: usize = 0;
                while i < links.len()
                    invariant
                        i <= links@.len(),
                        forall|j: int| 0 <= j < i ==> self.link_ok(#[trigger] links@[j]),
                    decreases links.len() - i,
                {
                    if !self.link_fits(&links[i]) {
                        return false;
                    }
                    i = i + 1;
                }
                true
            },
            ExpressionKind::Function(function) => self.block_fits(function.body),
        }
    }

    #[verifier::loop_isolation(false)]
    fn statement_fits(&self, statement: &Statement) -> (r: bool)
        ensures
            r == self.statement_ok(*statement),
    {
        match &statement.kind {
            StatementKind::Let { initializer, .. } => self.expr_fits(*initializer),
            StatementKind::Function { function, .. } => self.block_fits(function.body),
            StatementKind::Assignment { target, value, .. } => self.expr_fits(*target) && self.expr_fits(*value),
            StatementKind::Return { value, .. } => match value {
                Some(id) => self.expr_fits(*id),
                None => true,
            },
            StatementKind::Block(id) => self.block_fits(*id),
            StatementKind::If { branches, else_branch } => {
                let mut i: usize = 0;
                while i < branches.len()
                    invariant
                        i <= branches@.len(),
                        forall|j: int|
                            0 <= j < i ==> self.has_expr((#[trigger] branches@[j]).condition.expression)
                                && self.has_block(branches@[j].body),
                    decreases branches.len() - i,
                {
                    if !self.expr_fits(branches[i].condition.expression) || !self.block_fits(branches[i].body) {
                        return false;
                    }
                    i = i + 1;
                }
                match else_branch {
                    Some(branch) => self.block_fits(branch.body),
                    None => true,
                }
            },
            StatementKind::While { condition, body, .. } => self.expr_fits(condition.expression) && self.block_fits(
                *body,
            ),
            StatementKind::For { iterable, body, .. } => self.expr_fits(*iterable) && self.block_fits(*body),
            StatementKind::Break { .. } => true,
            StatementKind::Continue { .. } => true,
            StatementKind::Expression(id) => self.expr_fits(*id),
        }
    }

    fn statements_fit(&self, statements: &Vec<Statement>) -> (r: bool)
        ensures
            r == self.statements_ok(statements@),
    {
        let mut i: usize = 0;
        while i < statements.len()
            invariant
                i <= statements@.len(),
                forall|j: int| 0 <= j < i ==> self.statement_ok(#[trigger] statements@[j]),
            decreases statements.len() - i,
        {
            if !self.statement_fits(&statements[i]) {
                return false;
            }
            i = i + 1;
        }
        true
    }

    /// Whether every index in the tree is one of its own arenas'. A caller that built a tree by
    /// hand asks this before it runs or checks it.
    pub fn is_well_formed(&self) -> (r: bool)
        ensures
            r == self.wf(),
    {
        if !self.statements_fit(&self.statements) {
            return false;
        }
        let mut b: usize = 0;
        while b < self.blocks.len()
            invariant
                b <= self.blocks@.len(),
                forall|j: int| 0 <= j < b ==> self.statements_ok((#[trigger] self.blocks@[j]).statements@),
            decreases self.blocks.len() - b,
        {
            if !self.statements_fit(&self.blocks[b].statements) {
                return false;
            }
            b = b + 1;
        }
        let mut e: usize = 0;
        while e < self.expressions.len()
            invariant
                e <= self.expressions@.len(),
                forall|j: int| 0 <= j < e ==> self.expression_ok(#[trigger] self.expressions@[j]),
            decreases self.expressions.len() - e,
        {
            if !self.expression_fits(&self.expressions[e]) {
                return false;
            }
            e = e + 1;
        }
        true
    }
}

/// A weight for every expression and every block.
pub ghost struct Weights {
    pub expressions: Seq<nat>,
    pub blocks: Seq<nat>,
}

impl Weights {
    pub open spec fn expr(self, id: ExprId) -> nat {
        self.expressions[id.0 as int]
    }

    pub open spec fn block(self, id: BlockId) -> nat {
        self.blocks[id.0 as int]
    }

    /// What the expressions from `k` on weigh.
    pub open spec fn exprs(self, ids: Seq<ExprId>, k: int) -> nat
        decreases ids.len() - k,
    {
        if k < 0 || k >= ids.len() {
            0
        } else {
            self.expr(ids[k]) + self.exprs(ids, k + 1)
        }
    }

    /// What the values of the entries from `k` on weigh.
    pub open spec fn entries(self, entries: Seq<ObjectEntry>, k: int) -> nat
        decreases entries.len() - k,
    {
        if k < 0 || k >= entries.len() {
            0
        } else {
            self.expr(entries[k].value) + self.entries(entries, k + 1)
        }
    }

    pub open spec fn link(self, link: AccessLink) -> nat {
        match link.kind {
            AccessKind::Property(_) => 0,
            AccessKind::Index { expression, .. } => self.expr(expression),
            AccessKind::Call { arguments, .. } => self.exprs(arguments@, 0),
        }
    }

    /// What the links from `k` on weigh.
    pub open spec fn links(self, links: Seq<AccessLink>, k: int) -> nat
        decreases links.len() - k,
    {
        if k < 0 || k >= links.len() {
            0
        } else {
            self.link(links[k]) + self.links(links, k + 1)
        }
    }

    /// What the conditions and bodies of the branches from `k` on weigh.
    pub open spec fn branches(self, branches: Seq<ConditionalBranch>, k: int) -> nat
        decreases branches.len() - k,
    {
        if k < 0 || k >= branches.len() {
            0
        } else {
            self.expr(branches[k].condition.expression) + self.block(branches[k].body) + self.branches(branches, k + 1)
        }
    }

    /// What an expression holds.
    pub open spec fn held_by(self, kind: ExpressionKind) -> nat {
        match kind {
            ExpressionKind::Literal(_) => 0,
            ExpressionKind::Identifier(_) => 0,
            ExpressionKind::Group { expression, .. } => self.expr(expression),
            ExpressionKind::Unary { operand, .. } => self.expr(operand),
            ExpressionKind::Binary { left, right, .. } => self.expr(left) + self.expr(right),
            ExpressionKind::Array { elements, .. } => self.exprs(elements@, 0),
            ExpressionKind::Object { entries, .. } => self.entries(entries@, 0),
            ExpressionKind::Access { base, links } => self.expr(base) + self.links(links@, 0),
            ExpressionKind::Function(function) => self.block(function.body),
        }
    }

    /// What a statement weighs: two more than what it holds.
    pub open spec fn statement(self, statement: Statement) -> nat {
        2 + match statement.kind {
            StatementKind::Let { initializer, .. } => self.expr(initializer),
            StatementKind::Function { function, .. } => self.block(function.body),
            StatementKind::Assignment { target, value, .. } => self.expr(target) + self.expr(value),
            StatementKind::Return { value, .. } => match value {
                Some(id) => self.expr(id),
                None => 0,
            },
            StatementKind::Block(id) => self.block(id),
            StatementKind::If { branches, else_branch } => self.branches(branches@, 0) + match else_branch {
                Some(branch) => self.block(branch.body),
                None => 0,
            },
            StatementKind::While { condition, body, .. } => self.expr(condition.expression) + self.block(body),
            StatementKind::For { iterable, body, .. } => self.expr(iterable) + self.block(body),
            StatementKind::Break { .. } => 0,
            StatementKind::Continue { .. } => 0,
            StatementKind::Expression(id) => self.expr(id),
        }
    }

    /// What the statements from `k` on weigh.
    pub open spec fn statements(self, statements: Seq<Statement>, k: int) -> nat
        decreases statements.len() - k,
    {
        if k < 0 || k >= statements.len() {
            0
        } else {
            self.statement(statements[k]) + self.statements(statements, k + 1)
        }
    }
}

impl Program {
    /// Whether every expression and every block outweighs what it holds.
    pub open spec fn weighs(self, w: Weights) -> bool {
        &&& w.expressions.len() == self.expressions@.len()
        &&& w.blocks.len() == self.blocks@.len()
        &&& forall|e: int|
            0 <= e < self.expressions@.len() ==> #[trigger] w.expressions[e] >= 2 + w.held_by(self.expressions@[e].kind)
        &&& forall|b: int|
            0 <= b < self.blocks@.len() ==> #[trigger] w.blocks[b] >= 3 + w.statements(self.blocks@[b].statements@, 0)
    }

    /// Whether no expression and no block holds itself: each can be given a weight greater than
    /// what it holds weighs together.
    pub open spec fn acyclic(self) -> bool {
        exists|w: Weights| self.weighs(w)
    }
}

/// The spelling of an infix operator.
pub open spec fn symbol_of(operator: BinaryOperator) -> Seq<char> {
    match operator {
        BinaryOperator::Multiply => "*"@,
        BinaryOperator::Divide => "/"@,
        BinaryOperator::Remainder => "%"@,
        BinaryOperator::Add => "+"@,
        BinaryOperator::Subtract => "-"@,
        BinaryOperator::Less => "<"@,
        BinaryOperator::LessEqual => "<="@,
        BinaryOperator::Greater => ">"@,
        BinaryOperator::GreaterEqual => ">="@,
        BinaryOperator::Equal => "=="@,
        BinaryOperator::NotEqual => "!="@,
        BinaryOperator::And => "&&"@,
        BinaryOperator::Or => "||"@,
    }
}

/// The spelling of an infix operator.
pub fn binary_symbol(operator: BinaryOperator) -> (r: &'static str)
    ensures
        r@ == symbol_of(operator),
{
    match operator {
        BinaryOperator::Multiply => "*",
        BinaryOperator::Divide => "/",
        BinaryOperator::Remainder => "%",
        BinaryOperator::Add => "+",
        BinaryOperator::Subtract => "-",
        BinaryOperator::Less => "<",
        BinaryOperator::LessEqual => "<=",
        BinaryOperator::Greater => ">",
        BinaryOperator::GreaterEqual => ">=",
        BinaryOperator::Equal => "==",
        BinaryOperator::NotEqual => "!=",
        BinaryOperator::And => "&&",
        BinaryOperator::Or => "||",
    }
}

} // verus!

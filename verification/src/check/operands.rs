//! The conversion rules of the operators, decided over literal operands only.
//!
//! Both operands must be literals before anything is reported, so that a finding carries the message
//! that evaluating the same source fails with, word for word.

use vstd::prelude::*;
use crate::ast::BinaryAt;
use crate::ast::BinaryOperator;
use crate::ast::ExprId;
use crate::ast::ExpressionKind;
use crate::ast::Literal;
use crate::ast::Program;
use crate::ast::UnaryAt;
use crate::ast::UnaryOperator;
use crate::ast::binary_symbol;
use crate::ast::symbol_of;
use crate::diagnostics::Category;
use crate::diagnostics::Code;
use crate::diagnostics::Diagnostic;
use crate::diagnostics::DiagnosticView;
use crate::diagnostics::Span;
use crate::diagnostics::error_of;
use crate::interpreter::heap::HeapView;
use crate::interpreter::heap::RtView;
use crate::interpreter::semantics;
use crate::interpreter::semantics::AnswerView;
use crate::interpreter::semantics::Made;
use crate::numeral::converts;
use crate::numeral::parses_as_number;

verus! {

/// As much of a literal's value as the rules read: its type, and the text of a string.
pub enum Lit<'p> {
    Null,
    Bool,
    Number,
    String(&'p str),
    Array,
    Object,
    Function,
}

/// What a [`Lit`] says.
#[verifier::ext_equal]
pub ghost enum LitView {
    Null,
    Bool,
    Number,
    String(Seq<char>),
    Array,
    Object,
    Function,
}

impl<'p> View for Lit<'p> {
    type V = LitView;

    open spec fn view(&self) -> LitView {
        match *self {
            Lit::Null => LitView::Null,
            Lit::Bool => LitView::Bool,
            Lit::Number => LitView::Number,
            Lit::String(text) => LitView::String(text@),
            Lit::Array => LitView::Array,
            Lit::Object => LitView::Object,
            Lit::Function => LitView::Function,
        }
    }
}

impl LitView {
    /// The name of the literal's type.
    pub open spec fn kind(self) -> Seq<char> {
        match self {
            LitView::Null => "null"@,
            LitView::Bool => "bool"@,
            LitView::Number => "number"@,
            LitView::String(_) => "string"@,
            LitView::Array => "array"@,
            LitView::Object => "object"@,
            LitView::Function => "function"@,
        }
    }

    /// The name of the literal's type behind its article.
    pub open spec fn article(self) -> Seq<char> {
        match self {
            LitView::Null => "null"@,
            LitView::Bool => "a bool"@,
            LitView::Number => "a number"@,
            LitView::String(_) => "a string"@,
            LitView::Array => "an array"@,
            LitView::Object => "an object"@,
            LitView::Function => "a function"@,
        }
    }

    /// Whether the literal converts to a number.
    pub open spec fn numeric(self) -> bool {
        match self {
            LitView::Null | LitView::Bool | LitView::Number => true,
            LitView::String(text) => converts(text),
            LitView::Array | LitView::Object | LitView::Function => false,
        }
    }

    /// Whether the literal converts to text.
    pub open spec fn textual(self) -> bool {
        self is Null || self is Bool || self is Number || self is String
    }

    /// Why the literal does not convert to a number.
    pub open spec fn not_a_number(self) -> Seq<char> {
        match self {
            LitView::String(_) => "the string does not look like a number"@,
            LitView::Array => "an array cannot be converted to a number"@,
            LitView::Object => "an object cannot be converted to a number"@,
            _ => "the value cannot be converted to a number"@,
        }
    }
}

/// What a group, or a group in a group, wraps: at most `fuel` layers are taken off.
pub open spec fn unwrapped(p: Program, id: ExprId, fuel: nat) -> Option<ExpressionKind>
    decreases fuel,
{
    if fuel == 0 {
        None
    } else {
        match p.expr(id).kind {
            ExpressionKind::Group { expression, .. } => unwrapped(p, expression, (fuel - 1) as nat),
            kind => Some(kind),
        }
    }
}

/// What an expression is without the groups around it. More layers than there are expressions
/// would be a group that holds itself.
pub open spec fn inside(p: Program, id: ExprId) -> Option<ExpressionKind> {
    unwrapped(p, id, (p.expressions@.len() + 1) as nat)
}

/// The literal that an expression is, if it is one.
pub open spec fn literal_of(p: Program, id: ExprId) -> Option<LitView> {
    match inside(p, id) {
        Some(ExpressionKind::Literal(Literal::Null)) => Some(LitView::Null),
        Some(ExpressionKind::Literal(Literal::Bool(_))) => Some(LitView::Bool),
        Some(ExpressionKind::Literal(Literal::Number(_))) => Some(LitView::Number),
        Some(ExpressionKind::Literal(Literal::String(text))) => Some(LitView::String(text@)),
        Some(ExpressionKind::Array { .. }) => Some(LitView::Array),
        Some(ExpressionKind::Object { .. }) => Some(LitView::Object),
        Some(ExpressionKind::Function(_)) => Some(LitView::Function),
        _ => None,
    }
}

/// An operator that does not accept its operands' types.
pub open spec fn mismatch(operator: BinaryOperator, l: LitView, r: LitView, reason: Seq<char>, span: Span) -> DiagnosticView {
    error_of(
        Category::Type,
        Code::OPERAND_MISMATCH,
        "cannot apply `"@ + symbol_of(operator) + "` to "@ + l.kind() + " and "@ + r.kind() + ": "@ + reason,
        span,
    )
}

/// What an operator that converts both operands to numbers finds, the left one first.
pub open spec fn not_numbers(operator: BinaryOperator, l: LitView, r: LitView, left: Span, right: Span) -> Option<DiagnosticView> {
    if !l.numeric() {
        Some(mismatch(operator, l, r, l.not_a_number(), left))
    } else if !r.numeric() {
        Some(mismatch(operator, l, r, r.not_a_number(), right))
    } else {
        None
    }
}

/// What `+` with a string on one side finds, the left operand first.
pub open spec fn not_texts(operator: BinaryOperator, l: LitView, r: LitView, left: Span, right: Span) -> Option<DiagnosticView> {
    if !l.textual() {
        Some(mismatch(operator, l, r, l.article() + " cannot be converted to a string"@, left))
    } else if !r.textual() {
        Some(mismatch(operator, l, r, r.article() + " cannot be converted to a string"@, right))
    } else {
        None
    }
}

/// The finding of an infix operator over two literal operands.
pub open spec fn binary_finding(p: Program, left: ExprId, operator: BinaryOperator, right: ExprId) -> Option<DiagnosticView> {
    match (literal_of(p, left), literal_of(p, right)) {
        (Some(l), Some(r)) => {
            let (at_left, at_right) = (p.expr(left).span, p.expr(right).span);
            match operator {
                BinaryOperator::Add => if l is String || r is String {
                    not_texts(operator, l, r, at_left, at_right)
                } else {
                    not_numbers(operator, l, r, at_left, at_right)
                },
                BinaryOperator::Subtract
                | BinaryOperator::Multiply
                | BinaryOperator::Divide
                | BinaryOperator::Remainder => not_numbers(operator, l, r, at_left, at_right),
                BinaryOperator::Less
                | BinaryOperator::LessEqual
                | BinaryOperator::Greater
                | BinaryOperator::GreaterEqual => if l is String && r is String {
                    None
                } else {
                    not_numbers(operator, l, r, at_left, at_right)
                },
                BinaryOperator::Equal | BinaryOperator::NotEqual | BinaryOperator::And | BinaryOperator::Or => None,
            }
        },
        _ => None,
    }
}

/// The finding of a prefix operator over a literal operand: only negation can fail.
pub open spec fn unary_finding(p: Program, operator: UnaryOperator, operand: ExprId) -> Option<DiagnosticView> {
    match literal_of(p, operand) {
        Some(value) => if operator == UnaryOperator::Negate && !value.numeric() {
            Some(
                error_of(
                    Category::Type,
                    Code::OPERAND_MISMATCH,
                    "cannot apply unary `-` to "@ + value.article() + ": "@ + value.not_a_number(),
                    p.expr(operand).span,
                ),
            )
        } else {
            None
        },
        None => None,
    }
}

/// What a finding that may be there says.
pub open spec fn finding_view(finding: Option<Diagnostic>) -> Option<DiagnosticView> {
    match finding {
        Some(d) => Some(d@),
        None => None,
    }
}

impl<'p> Lit<'p> {
    fn kind_name(&self) -> (r: &'static str)
        ensures
            r@ == self@.kind(),
    {
        match self {
            Lit::Null => "null",
            Lit::Bool => "bool",
            Lit::Number => "number",
            Lit::String(_) => "string",
            Lit::Array => "array",
            Lit::Object => "object",
            Lit::Function => "function",
        }
    }

    fn article(&self) -> (r: &'static str)
        ensures
            r@ == self@.article(),
    {
        match self {
            Lit::Null => "null",
            Lit::Bool => "a bool",
            Lit::Number => "a number",
            Lit::String(_) => "a string",
            Lit::Array => "an array",
            Lit::Object => "an object",
            Lit::Function => "a function",
        }
    }

    fn converts_to_number(&self) -> (r: bool)
        ensures
            r == self@.numeric(),
    {
        match self {
            Lit::Null | Lit::Bool | Lit::Number => true,
            Lit::String(text) => parses_as_number(text),
            Lit::Array | Lit::Object | Lit::Function => false,
        }
    }

    fn converts_to_string(&self) -> (r: bool)
        ensures
            r == self@.textual(),
    {
        match self {
            Lit::Null | Lit::Bool | Lit::Number | Lit::String(_) => true,
            Lit::Array | Lit::Object | Lit::Function => false,
        }
    }

    fn not_a_number_reason(&self) -> (r: &'static str)
        ensures
            r@ == self@.not_a_number(),
    {
        match self {
            Lit::String(_) => "the string does not look like a number",
            Lit::Array => "an array cannot be converted to a number",
            Lit::Object => "an object cannot be converted to a number",
            _ => "the value cannot be converted to a number",
        }
    }

    fn is_string(&self) -> (r: bool)
        ensures
            r == self@ is String,
    {
        match self {
            Lit::String(_) => true,
            _ => false,
        }
    }
}

/// An expression without the groups around it.
pub(crate) fn unwrap<'p>(program: &'p Program, id: ExprId) -> (r: Option<&'p ExpressionKind>)
    requires
        program.wf(),
        program.has_expr(id),
    ensures
        match (r, inside(*program, id)) {
            (Some(kind), Some(wanted)) => *kind == wanted,
            (None, None) => true,
            _ => false,
        },
{
    let mut at: ExprId = id;
    let mut left: u128 = program.expressions.len() as u128 + 1;
    while left > 0
        invariant
            program.wf(),
            program.has_expr(at),
            inside(*program, id) == unwrapped(*program, at, left as nat),
        decreases left,
    {
        let expression = program.expression(at);
        proof {
            assert(program.expression_ok(program.expr(at)));
        }
        match &expression.kind {
            ExpressionKind::Group { expression, .. } => {
                at = *expression;
                left = left - 1;
            },
            kind => {
                return Some(kind);
            },
        }
    }
    None
}

/// The literal that an expression is, if it is one. Groups are transparent.
fn literal<'p>(program: &'p Program, id: ExprId) -> (r: Option<Lit<'p>>)
    requires
        program.wf(),
        program.has_expr(id),
    ensures
        match (r, literal_of(*program, id)) {
            (Some(literal), Some(wanted)) => literal@ == wanted,
            (None, None) => true,
            _ => false,
        },
{
    match unwrap(program, id) {
        Some(ExpressionKind::Literal(Literal::Null)) => Some(Lit::Null),
        Some(ExpressionKind::Literal(Literal::Bool(_))) => Some(Lit::Bool),
        Some(ExpressionKind::Literal(Literal::Number(_))) => Some(Lit::Number),
        Some(ExpressionKind::Literal(Literal::String(text))) => Some(Lit::String(text.as_str())),
        Some(ExpressionKind::Array { .. }) => Some(Lit::Array),
        Some(ExpressionKind::Object { .. }) => Some(Lit::Object),
        Some(ExpressionKind::Function(_)) => Some(Lit::Function),
        _ => None,
    }
}

fn mismatched(operator: BinaryOperator, l: &Lit<'_>, r: &Lit<'_>, reason: &str, span: Span) -> (d: Diagnostic)
    ensures
        d@ == mismatch(operator, l@, r@, reason@, span),
{
    let mut message = "cannot apply `".to_owned();
    message.append(binary_symbol(operator));
    message.append("` to ");
    message.append(l.kind_name());
    message.append(" and ");
    message.append(r.kind_name());
    message.append(": ");
    message.append(reason);
    Diagnostic::error(Category::Type, Code::OPERAND_MISMATCH, message, span)
}

fn numbers(operator: BinaryOperator, l: &Lit<'_>, r: &Lit<'_>, left: Span, right: Span) -> (d: Option<Diagnostic>)
    ensures
        finding_view(d) == not_numbers(operator, l@, r@, left, right),
{
    if !l.converts_to_number() {
        Some(mismatched(operator, l, r, l.not_a_number_reason(), left))
    } else if !r.converts_to_number() {
        Some(mismatched(operator, l, r, r.not_a_number_reason(), right))
    } else {
        None
    }
}

fn texts(operator: BinaryOperator, l: &Lit<'_>, r: &Lit<'_>, left: Span, right: Span) -> (d: Option<Diagnostic>)
    ensures
        finding_view(d) == not_texts(operator, l@, r@, left, right),
{
    if !l.converts_to_string() {
        let mut reason = l.article().to_owned();
        reason.append(" cannot be converted to a string");
        Some(mismatched(operator, l, r, reason.as_str(), left))
    } else if !r.converts_to_string() {
        let mut reason = r.article().to_owned();
        reason.append(" cannot be converted to a string");
        Some(mismatched(operator, l, r, reason.as_str(), right))
    } else {
        None
    }
}

/// The finding that an infix operator over two literal operands raises at run time, if any.
pub fn binary(program: &Program, left: ExprId, operator: BinaryOperator, right: ExprId) -> (r: Option<Diagnostic>)
    requires
        program.wf(),
        program.has_expr(left),
        program.has_expr(right),
    ensures
        finding_view(r) == binary_finding(*program, left, operator, right),
{
    let l = match literal(program, left) {
        Some(l) => l,
        None => {
            return None;
        },
    };
    let r = match literal(program, right) {
        Some(r) => r,
        None => {
            return None;
        },
    };
    let at_left = program.expression(left).span;
    let at_right = program.expression(right).span;
    match operator {
        BinaryOperator::Add => if l.is_string() || r.is_string() {
            texts(operator, &l, &r, at_left, at_right)
        } else {
            numbers(operator, &l, &r, at_left, at_right)
        },
        BinaryOperator::Subtract
        | BinaryOperator::Multiply
        | BinaryOperator::Divide
        | BinaryOperator::Remainder => numbers(operator, &l, &r, at_left, at_right),
        BinaryOperator::Less
        | BinaryOperator::LessEqual
        | BinaryOperator::Greater
        | BinaryOperator::GreaterEqual => if l.is_string() && r.is_string() {
            None
        } else {
            numbers(operator, &l, &r, at_left, at_right)
        },
        BinaryOperator::Equal | BinaryOperator::NotEqual | BinaryOperator::And | BinaryOperator::Or => None,
    }
}

/// The finding that a prefix operator over a literal operand raises at run time, if any.
pub fn unary(program: &Program, operator: UnaryOperator, operand: ExprId) -> (r: Option<Diagnostic>)
    requires
        program.wf(),
        program.has_expr(operand),
    ensures
        finding_view(r) == unary_finding(*program, operator, operand),
{
    if operator != UnaryOperator::Negate {
        return None;
    }
    let value = match literal(program, operand) {
        Some(value) => value,
        None => {
            return None;
        },
    };
    if value.converts_to_number() {
        return None;
    }
    let mut message = "cannot apply unary `-` to ".to_owned();
    message.append(value.article());
    message.append(": ");
    message.append(value.not_a_number_reason());
    Some(
        Diagnostic::error(Category::Type, Code::OPERAND_MISMATCH, message, program.expression(operand).span),
    )
}

/// The runtime value that a literal stands for, as far as the rules read it.
pub open spec fn stands_for(literal: LitView, value: RtView) -> bool {
    match literal {
        LitView::Null => value is Null,
        LitView::Bool => value is Bool,
        LitView::Number => value is Number,
        LitView::String(text) => value matches RtView::String(said, _) && said == text,
        LitView::Array => value is Array,
        LitView::Object => value is Object,
        LitView::Function => value is Function,
    }
}

/// An infix operator over literals has a finding exactly when it refuses their values at run time
/// for their types, and the finding is that failure.
pub proof fn law_binary_finding(
    p: Program,
    left: ExprId,
    operator: BinaryAt,
    right: ExprId,
    l: RtView,
    r: RtView,
    answer: Option<AnswerView>,
)
    requires
        literal_of(p, left) matches Some(literal) && stands_for(literal, l),
        literal_of(p, right) matches Some(literal) && stands_for(literal, r),
    ensures
        binary_finding(p, left, operator.kind, right) matches Some(finding) ==> semantics::binary(
            p,
            left,
            operator,
            right,
            l,
            r,
            answer,
        ) == Made::Fail(finding),
        binary_finding(p, left, operator.kind, right) is None ==> (semantics::binary(
            p,
            left,
            operator,
            right,
            l,
            r,
            answer,
        ) matches Made::Fail(failure) ==> failure.category != Category::Type),
{
}

/// A prefix operator over a literal has a finding exactly when it refuses the value at run time for
/// its type, and the finding is that failure.
pub proof fn law_unary_finding(p: Program, heap: HeapView, operator: UnaryAt, operand: ExprId, value: RtView, answer: Option<AnswerView>)
    requires
        literal_of(p, operand) matches Some(literal) && stands_for(literal, value),
    ensures
        unary_finding(p, operator.kind, operand) matches Some(finding) ==> semantics::unary(
            p,
            heap,
            operator,
            operand,
            value,
            answer,
        ) == Made::Fail(finding),
        unary_finding(p, operator.kind, operand) is None ==> (semantics::unary(
            p,
            heap,
            operator,
            operand,
            value,
            answer,
        ) matches Made::Fail(failure) ==> failure.category != Category::Type),
{
}

} // verus!

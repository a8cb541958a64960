//! The operators on runtime values, and the diagnostics of a failing step.

use vstd::prelude::*;
use std::sync::Arc;
use crate::ast::AccessKind;
use crate::ast::AccessLink;
use crate::ast::BinaryAt;
use crate::ast::BinaryOperator;
use crate::ast::ExprId;
use crate::ast::ExpressionKind;
use crate::ast::Literal;
use crate::ast::Program;
use crate::ast::UnaryAt;
use crate::ast::UnaryOperator;
use crate::ast::binary_symbol;
use crate::diagnostics::Category;
use crate::diagnostics::Code;
use crate::diagnostics::Diagnostic;
use crate::diagnostics::Span;
use crate::interpreter::heap::Heap;
use crate::interpreter::heap::RtValue;
use crate::interpreter::heap::RtView;
use crate::interpreter::heap::TEXT_OVERHEAD;
use crate::interpreter::semantics;
use crate::interpreter::semantics::AnswerView;
use crate::interpreter::semantics::Made;
use crate::interpreter::semantics::Operation;
use crate::interpreter::semantics::OperandView;
use crate::interpreter::semantics::QuestionView;
use crate::number::Number;
use crate::number::ONE;
use crate::numeral::parses_as_number;
use crate::table::share;
use crate::text::comes_before;
use crate::text::push_decimal;
use crate::text::same;

verus! {

/// An operand that somebody else converts: a number that is to be spelled or reckoned with, or the text of one.
pub enum Operand {
    Number(Number),
    Text(Arc<str>),
}

impl View for Operand {
    type V = OperandView;

    open spec fn view(&self) -> OperandView {
        match *self {
            Operand::Number(n) => OperandView::Number(n.bits()),
            Operand::Text(text) => OperandView::Text((*text)@),
        }
    }
}

/// What a machine asks of the outside: the result of an operation, or both operands converted.
pub struct Question {
    pub operation: Operation,
    pub left: Operand,
    pub right: Operand,
}

impl View for Question {
    type V = QuestionView;

    open spec fn view(&self) -> QuestionView {
        QuestionView { operation: self.operation, left: self.left@, right: self.right@ }
    }
}

/// The answer to a [`Question`]: both operands as numbers, the operation's result, and both operands
/// as text. What the question does not ask for is not read.
pub struct Answer {
    pub left: Number,
    pub right: Number,
    pub result: Number,
    pub left_text: Arc<str>,
    pub right_text: Arc<str>,
}

impl View for Answer {
    type V = AnswerView;

    open spec fn view(&self) -> AnswerView {
        AnswerView {
            left: self.left.bits(),
            right: self.right.bits(),
            result: self.result.bits(),
            left_text: (*self.left_text)@,
            right_text: (*self.right_text)@,
        }
    }
}

/// What an optional answer says.
pub open spec fn answer_view(answer: Option<Answer>) -> Option<AnswerView> {
    match answer {
        Some(answer) => Some(answer@),
        None => None,
    }
}

/// What an operator made: a value, a new string, or a question whose answer decides it.
pub enum Outcome {
    Value(RtValue),
    /// A new string.
    Text(Arc<str>),
    Ask(Question),
}

/// Whether an operator did what it should.
pub open spec fn makes(r: Result<Outcome, Diagnostic>, made: Made) -> bool {
    match made {
        Made::Value(value) => r matches Ok(Outcome::Value(v)) && v@ == value,
        Made::Text(text) => r matches Ok(Outcome::Text(t)) && (*t)@ == text,
        Made::Ask(question) => r matches Ok(Outcome::Ask(q)) && q@ == question,
        Made::Fail(failure) => r matches Err(d) && d@ == failure,
    }
}

/// The type name behind its article.
pub fn article(value: &RtValue) -> (r: &'static str)
    ensures
        r@ == semantics::article(value@),
{
    match value {
        RtValue::Null => "null",
        RtValue::Bool(_) => "a bool",
        RtValue::Number(_) => "a number",
        RtValue::String(_, _) => "a string",
        RtValue::Array(_) => "an array",
        RtValue::Object(_) => "an object",
        RtValue::Function(_) => "a function",
    }
}

fn not_a_number(value: &RtValue) -> (r: &'static str)
    ensures
        r@ == semantics::not_a_number(value@),
{
    match value {
        RtValue::String(_, _) => "the string does not look like a number",
        RtValue::Array(_) => "an array cannot be converted to a number",
        RtValue::Object(_) => "an object cannot be converted to a number",
        _ => "the value cannot be converted to a number",
    }
}

fn numeric(value: &RtValue) -> (r: bool)
    ensures
        r == semantics::numeric(value@),
{
    match value {
        RtValue::Null => true,
        RtValue::Bool(_) => true,
        RtValue::Number(_) => true,
        RtValue::String(text, _) => parses_as_number(text),
        _ => false,
    }
}

fn textual(value: &RtValue) -> (r: bool)
    ensures
        r == semantics::textual(value@),
{
    match value {
        RtValue::Null => true,
        RtValue::Bool(_) => true,
        RtValue::Number(_) => true,
        RtValue::String(_, _) => true,
        _ => false,
    }
}

/// The number that a value stands for, where nobody needs to be asked.
fn plain_number(value: &RtValue) -> (r: Option<Number>)
    ensures
        match semantics::plain_number(value@) {
            Some(bits) => r matches Some(n) && n.bits() == bits,
            None => r is None,
        },
{
    match value {
        RtValue::Null => Some(Number::from_bits(0)),
        RtValue::Bool(b) => Some(Number::from_bits(if *b { ONE } else { 0 })),
        RtValue::Number(n) => Some(*n),
        _ => None,
    }
}

/// The text that a value stands for, where nobody needs to be asked.
fn plain_text(value: &RtValue) -> (r: Option<Arc<str>>)
    ensures
        match semantics::plain_text(value@) {
            Some(text) => r matches Some(t) && (*t)@ == text,
            None => r is None,
        },
{
    match value {
        RtValue::Null => Some(share("null")),
        RtValue::Bool(b) => Some(share(if *b { "true" } else { "false" })),
        RtValue::String(text, _) => Some(text.clone()),
        _ => None,
    }
}

fn number_operand(value: &RtValue) -> (r: Operand)
    ensures
        r@ == semantics::number_operand(value@),
{
    match value {
        RtValue::String(text, _) => Operand::Text(text.clone()),
        _ => Operand::Number(number_in(value, Number::from_bits(0))),
    }
}

fn text_operand(value: &RtValue) -> (r: Operand)
    ensures
        r@ == semantics::text_operand(value@),
{
    match value {
        RtValue::Number(n) => Operand::Number(*n),
        _ => {
            let none = share("");
            proof {
                reveal_strlit("");
                assert((*none)@ =~= Seq::empty());
            }
            Operand::Text(text_in(value, &none))
        },
    }
}

/// The question for an operation on two values.
pub fn question(operation: Operation, left: &RtValue, right: &RtValue) -> (r: Question)
    ensures
        r@ == semantics::question(operation, left@, right@),
{
    if operation == Operation::Spell {
        Question { operation, left: text_operand(left), right: text_operand(right) }
    } else {
        Question { operation, left: number_operand(left), right: number_operand(right) }
    }
}

fn number_in(value: &RtValue, answer: Number) -> (r: Number)
    ensures
        r.bits() == semantics::number_in(value@, answer.bits()),
{
    match plain_number(value) {
        Some(n) => n,
        None => answer,
    }
}

fn text_in(value: &RtValue, answer: &Arc<str>) -> (r: Arc<str>)
    ensures
        (*r)@ == semantics::text_in(value@, (**answer)@),
{
    match plain_text(value) {
        Some(text) => text,
        None => answer.clone(),
    }
}

fn mismatch(operator: BinaryAt, l: &RtValue, r: &RtValue, reason: &str, span: Span) -> (d: Diagnostic)
    ensures
        Made::Fail(d@) == semantics::mismatch(operator, l@, r@, reason@, span),
{
    let mut message = "cannot apply `".to_owned();
    message.append(binary_symbol(operator.kind));
    message.append("` to ");
    message.append(l.kind_name());
    message.append(" and ");
    message.append(r.kind_name());
    message.append(": ");
    message.append(reason);
    Diagnostic::error(Category::Type, Code::OPERAND_MISMATCH, message, span)
}

fn operation_of(operator: BinaryOperator) -> (r: Operation)
    ensures
        r == semantics::operation_of(operator),
{
    match operator {
        BinaryOperator::Add => Operation::Add,
        BinaryOperator::Subtract => Operation::Subtract,
        BinaryOperator::Multiply => Operation::Multiply,
        BinaryOperator::Divide => Operation::Divide,
        BinaryOperator::Remainder => Operation::Remainder,
        _ => Operation::Convert,
    }
}

fn arithmetic(
    tree: &Program,
    left: ExprId,
    operator: BinaryAt,
    right: ExprId,
    l: &RtValue,
    r: &RtValue,
    answer: &Option<Answer>,
) -> (made: Result<Outcome, Diagnostic>)
    requires
        tree.has_expr(left),
        tree.has_expr(right),
    ensures
        makes(made, semantics::arithmetic(*tree, left, operator, right, l@, r@, answer_view(*answer))),
{
    if !numeric(l) {
        return Err(mismatch(operator, l, r, not_a_number(l), tree.expression(left).span));
    }
    if !numeric(r) {
        return Err(mismatch(operator, l, r, not_a_number(r), tree.expression(right).span));
    }
    match answer {
        None => Ok(Outcome::Ask(question(operation_of(operator.kind), l, r))),
        Some(answer) => {
            let divides = operator.kind == BinaryOperator::Divide || operator.kind == BinaryOperator::Remainder;
            if divides && number_in(r, answer.right).is_zero() {
                let mut message = "`".to_owned();
                message.append(binary_symbol(operator.kind));
                message.append("` by zero");
                return Err(
                    Diagnostic::error(
                        Category::Arithmetic,
                        Code::DIVISION_BY_ZERO,
                        message,
                        tree.expression(right).span,
                    ),
                );
            }
            if answer.result.is_finite() {
                Ok(Outcome::Value(RtValue::Number(answer.result)))
            } else {
                let mut message = "the result of `".to_owned();
                message.append(binary_symbol(operator.kind));
                message.append("` is not a finite number");
                Err(Diagnostic::error(Category::Arithmetic, Code::NON_FINITE, message, operator.span))
            }
        },
    }
}

fn ordered_numbers(operator: BinaryOperator, a: Number, b: Number) -> (r: bool)
    ensures
        r == semantics::ordered_numbers(operator, a.bits(), b.bits()),
{
    match operator {
        BinaryOperator::Less => a.less(b),
        BinaryOperator::LessEqual => a.less(b) || a.equals(b),
        BinaryOperator::Greater => b.less(a),
        _ => b.less(a) || a.equals(b),
    }
}

fn ordered_texts(operator: BinaryOperator, a: &str, b: &str) -> (r: bool)
    ensures
        r == semantics::ordered_texts(operator, a@, b@),
{
    match operator {
        BinaryOperator::Less => comes_before(a, b),
        BinaryOperator::LessEqual => !comes_before(b, a),
        BinaryOperator::Greater => comes_before(b, a),
        _ => !comes_before(a, b),
    }
}

fn ordering(
    tree: &Program,
    left: ExprId,
    operator: BinaryAt,
    right: ExprId,
    l: &RtValue,
    r: &RtValue,
    answer: &Option<Answer>,
) -> (made: Result<Outcome, Diagnostic>)
    requires
        tree.has_expr(left),
        tree.has_expr(right),
    ensures
        makes(made, semantics::ordering(*tree, left, operator, right, l@, r@, answer_view(*answer))),
{
    if let (RtValue::String(a, _), RtValue::String(b, _)) = (l, r) {
        return Ok(Outcome::Value(RtValue::Bool(ordered_texts(operator.kind, a, b))));
    }
    if !numeric(l) {
        return Err(mismatch(operator, l, r, not_a_number(l), tree.expression(left).span));
    }
    if !numeric(r) {
        return Err(mismatch(operator, l, r, not_a_number(r), tree.expression(right).span));
    }
    if let (Some(a), Some(b)) = (plain_number(l), plain_number(r)) {
        return Ok(Outcome::Value(RtValue::Bool(ordered_numbers(operator.kind, a, b))));
    }
    match answer {
        None => Ok(Outcome::Ask(question(Operation::Convert, l, r))),
        Some(answer) => Ok(
            Outcome::Value(
                RtValue::Bool(
                    ordered_numbers(operator.kind, number_in(l, answer.left), number_in(r, answer.right)),
                ),
            ),
        ),
    }
}

fn truth(b: bool) -> (r: Result<Outcome, Diagnostic>)
    ensures
        makes(r, Made::Value(RtView::Bool(b))),
{
    Ok(Outcome::Value(RtValue::Bool(b)))
}

fn as_numbers(l: &RtValue, r: &RtValue, text: &str, answer: &Option<Answer>, negate: bool) -> (made: Result<
    Outcome,
    Diagnostic,
>)
    ensures
        makes(made, semantics::as_numbers(l@, r@, text@, answer_view(*answer), negate)),
{
    if !parses_as_number(text) {
        return truth(negate);
    }
    match answer {
        None => Ok(Outcome::Ask(question(Operation::Convert, l, r))),
        Some(answer) => truth(number_in(l, answer.left).equals(number_in(r, answer.right)) != negate),
    }
}

fn equality(l: &RtValue, r: &RtValue, answer: &Option<Answer>, negate: bool) -> (made: Result<Outcome, Diagnostic>)
    ensures
        makes(made, semantics::equality(l@, r@, answer_view(*answer), negate)),
{
    match (l, r) {
        (RtValue::Null, RtValue::Null) => truth(!negate),
        (RtValue::Bool(a), RtValue::Bool(b)) => truth((*a == *b) != negate),
        (RtValue::Number(a), RtValue::Number(b)) => truth(a.equals(*b) != negate),
        (RtValue::String(a, _), RtValue::String(b, _)) => truth(same(a, b) != negate),
        (RtValue::Array(a), RtValue::Array(b)) => truth((*a == *b) != negate),
        (RtValue::Object(a), RtValue::Object(b)) => truth((*a == *b) != negate),
        (RtValue::Function(a), RtValue::Function(b)) => truth((*a == *b) != negate),
        (RtValue::Number(_), RtValue::String(text, _)) => as_numbers(l, r, text, answer, negate),
        (RtValue::String(text, _), RtValue::Number(_)) => as_numbers(l, r, text, answer, negate),
        _ => truth(negate),
    }
}

fn join(a: &str, b: &str) -> (r: Arc<str>)
    ensures
        (*r)@ == a@ + b@,
{
    let mut joined = a.to_owned();
    joined.append(b);
    share(joined.as_str())
}

fn joining(
    tree: &Program,
    left: ExprId,
    operator: BinaryAt,
    right: ExprId,
    l: &RtValue,
    r: &RtValue,
    answer: &Option<Answer>,
) -> (made: Result<Outcome, Diagnostic>)
    requires
        tree.has_expr(left),
        tree.has_expr(right),
    ensures
        makes(made, semantics::joining(*tree, left, operator, right, l@, r@, answer_view(*answer))),
{
    if !textual(l) {
        let mut reason = article(l).to_owned();
        reason.append(" cannot be converted to a string");
        return Err(mismatch(operator, l, r, reason.as_str(), tree.expression(left).span));
    }
    if !textual(r) {
        let mut reason = article(r).to_owned();
        reason.append(" cannot be converted to a string");
        return Err(mismatch(operator, l, r, reason.as_str(), tree.expression(right).span));
    }
    if let (Some(a), Some(b)) = (plain_text(l), plain_text(r)) {
        return Ok(Outcome::Text(join(&a, &b)));
    }
    match answer {
        None => Ok(Outcome::Ask(question(Operation::Spell, l, r))),
        Some(answer) => {
            let a = text_in(l, &answer.left_text);
            let b = text_in(r, &answer.right_text);
            Ok(Outcome::Text(join(&a, &b)))
        },
    }
}

/// What a binary operator makes of its operands. `+` joins when either side is text.
pub fn binary(
    tree: &Program,
    left: ExprId,
    operator: BinaryAt,
    right: ExprId,
    l: &RtValue,
    r: &RtValue,
    answer: &Option<Answer>,
) -> (made: Result<Outcome, Diagnostic>)
    requires
        tree.has_expr(left),
        tree.has_expr(right),
    ensures
        makes(made, semantics::binary(*tree, left, operator, right, l@, r@, answer_view(*answer))),
{
    match operator.kind {
        BinaryOperator::Add => {
            if matches!(l, RtValue::String(_, _)) || matches!(r, RtValue::String(_, _)) {
                joining(tree, left, operator, right, l, r, answer)
            } else {
                arithmetic(tree, left, operator, right, l, r, answer)
            }
        },
        BinaryOperator::Subtract => arithmetic(tree, left, operator, right, l, r, answer),
        BinaryOperator::Multiply => arithmetic(tree, left, operator, right, l, r, answer),
        BinaryOperator::Divide => arithmetic(tree, left, operator, right, l, r, answer),
        BinaryOperator::Remainder => arithmetic(tree, left, operator, right, l, r, answer),
        BinaryOperator::Less => ordering(tree, left, operator, right, l, r, answer),
        BinaryOperator::LessEqual => ordering(tree, left, operator, right, l, r, answer),
        BinaryOperator::Greater => ordering(tree, left, operator, right, l, r, answer),
        BinaryOperator::GreaterEqual => ordering(tree, left, operator, right, l, r, answer),
        BinaryOperator::Equal => equality(l, r, answer, false),
        BinaryOperator::NotEqual => equality(l, r, answer, true),
        BinaryOperator::And => Ok(Outcome::Value(r.clone())),
        BinaryOperator::Or => Ok(Outcome::Value(r.clone())),
    }
}

/// What a unary operator makes of its operand.
pub fn unary(
    tree: &Program,
    heap: &Heap,
    operator: UnaryAt,
    operand: ExprId,
    value: &RtValue,
    answer: &Option<Answer>,
) -> (made: Result<Outcome, Diagnostic>)
    requires
        tree.has_expr(operand),
    ensures
        makes(made, semantics::unary(*tree, heap@, operator, operand, value@, answer_view(*answer))),
{
    match operator.kind {
        UnaryOperator::Not => truth(!heap.is_truthy(value)),
        UnaryOperator::Negate => {
            if !numeric(value) {
                let mut message = "cannot apply unary `-` to ".to_owned();
                message.append(article(value));
                message.append(": ");
                message.append(not_a_number(value));
                return Err(
                    Diagnostic::error(
                        Category::Type,
                        Code::OPERAND_MISMATCH,
                        message,
                        tree.expression(operand).span,
                    ),
                );
            }
            match (plain_number(value), answer) {
                (Some(n), _) => Ok(Outcome::Value(RtValue::Number(n.negated()))),
                (None, None) => Ok(Outcome::Ask(question(Operation::Convert, value, &RtValue::Null))),
                (None, Some(answer)) => {
                    if answer.left.is_finite() {
                        Ok(Outcome::Value(RtValue::Number(answer.left.negated())))
                    } else {
                        Err(
                            Diagnostic::error(
                                Category::Arithmetic,
                                Code::NON_FINITE,
                                "the result of `-` is not a finite number".to_owned(),
                                operator.span,
                            ),
                        )
                    }
                },
            }
        },
    }
}

fn spelled_bytes(value: &RtValue) -> (r: Option<u64>)
    ensures
        r == semantics::spelled_bytes(value@),
{
    match value {
        RtValue::String(text, _) => Some(text.as_bytes().len() as u64),
        RtValue::Null => Some(32),
        RtValue::Bool(_) => Some(32),
        RtValue::Number(_) => Some(32),
        _ => None,
    }
}

/// What `left + right` would add to the heap when it joins text and both sides convert.
pub fn joined_bytes(l: &RtValue, r: &RtValue) -> (bytes: Option<u64>)
    ensures
        bytes == semantics::joined_bytes(l@, r@),
{
    if !matches!(l, RtValue::String(_, _)) && !matches!(r, RtValue::String(_, _)) {
        return None;
    }
    match (spelled_bytes(l), spelled_bytes(r)) {
        (Some(a), Some(b)) => Some(a.saturating_add(b).saturating_add(TEXT_OVERHEAD as u64)),
        _ => None,
    }
}

/// A tree that the parser never makes.
pub fn malformed(span: Span) -> (r: Diagnostic)
    ensures
        r@ == semantics::malformed(span),
{
    Diagnostic::error(Category::Syntax, Code::EXPECTED_SYNTAX, "malformed syntax tree".to_owned(), span)
}

pub fn invalid_target(span: Span) -> (r: Diagnostic)
    ensures
        r@ == semantics::invalid_target(span),
{
    Diagnostic::error(
        Category::Syntax,
        Code::INVALID_ASSIGNMENT_TARGET,
        "expected a name or ordinary property/index assignment target".to_owned(),
        span,
    )
}

pub fn no_properties(receiver: &RtValue, name: &str, span: Span) -> (r: Diagnostic)
    ensures
        r@ == semantics::no_properties(receiver@, name@, span),
{
    let mut message = "cannot access property `".to_owned();
    message.append(name);
    message.append("` on ");
    message.append(article(receiver));
    message.append(": only objects have properties");
    Diagnostic::error(Category::Type, Code::INVALID_PROPERTY_ACCESS, message, span)
}

pub fn wrong_key(receiver: &RtValue, key: &RtValue, span: Span) -> (r: Diagnostic)
    ensures
        r@ == semantics::wrong_key(receiver@, key@, span),
{
    let mut message = "cannot index ".to_owned();
    message.append(article(receiver));
    message.append(" with ");
    message.append(article(key));
    message.append(": ");
    message.append(receiver.kind_name());
    message.append(" indices must be ");
    message.append(if matches!(receiver, RtValue::Array(_)) { "number" } else { "string" });
    message.append("s");
    Diagnostic::error(Category::Type, Code::INVALID_INDEX, message, span)
}

pub fn not_indexable(receiver: &RtValue, span: Span) -> (r: Diagnostic)
    ensures
        r@ == semantics::not_indexable(receiver@, span),
{
    let mut message = "cannot index ".to_owned();
    message.append(article(receiver));
    message.append(": only arrays and objects can be indexed");
    Diagnostic::error(Category::Type, Code::INVALID_INDEX, message, span)
}

pub fn undeclared_assignment(name: &str, span: Span) -> (r: Diagnostic)
    ensures
        r@ == semantics::undeclared_assignment(name@, span),
{
    let mut message = "cannot assign to `".to_owned();
    message.append(name);
    message.append("`: it is not declared; declare it first with `let ");
    message.append(name);
    message.append(" = …`");
    Diagnostic::error(Category::Reference, Code::UNDECLARED_ASSIGNMENT, message, span)
}

pub fn undeclared(name: &str, span: Span) -> (r: Diagnostic)
    ensures
        r@ == semantics::undeclared(name@, span),
{
    let mut message = "`".to_owned();
    message.append(name);
    message.append("` is not declared");
    Diagnostic::error(Category::Reference, Code::UNDECLARED_IDENTIFIER, message, span)
}

/// The message of a call with the wrong number of arguments.
pub fn arity_message(passed: usize, taken: usize) -> (r: String)
    ensures
        r@ == semantics::arity_message(passed as nat, taken as nat),
{
    let mut message = "this call passes ".to_owned();
    push_decimal(&mut message, passed as u64);
    message.append(" argument");
    message.append(if passed == 1 { "" } else { "s" });
    message.append(", but the function takes ");
    push_decimal(&mut message, taken as u64);
    message
}

fn ticked(name: &str) -> (r: String)
    ensures
        r@ == "`"@ + name@ + "`"@,
{
    let mut out = "`".to_owned();
    out.append(name);
    out.append("`");
    out
}

/// The link `link` applied to `null`, naming what produced the null.
pub fn null_access(
    tree: &Program,
    base: ExprId,
    before: &[AccessLink],
    link: &AccessLink,
    verb: &str,
    suggest: bool,
) -> (r: Diagnostic)
    requires
        tree.has_expr(base),
    ensures
        r@ == semantics::null_access(*tree, base, before@, *link, verb@, suggest),
{
    let subject = if before.len() == 0 {
        match &tree.expression(base).kind {
            ExpressionKind::Identifier(name) => ticked(name.name.as_str()),
            ExpressionKind::Literal(Literal::Null) => "`null`".to_owned(),
            _ => "the value".to_owned(),
        }
    } else {
        match &before[before.len() - 1].kind {
            AccessKind::Property(name) => ticked(name.name.as_str()),
            AccessKind::Index { .. } => "the indexed element".to_owned(),
            AccessKind::Call { .. } => "the call result".to_owned(),
        }
    };
    let what = match &link.kind {
        AccessKind::Property(name) => {
            let mut out = "property `".to_owned();
            out.append(name.name.as_str());
            out.append("`");
            out
        },
        _ => "an index".to_owned(),
    };
    let mut message = "cannot ".to_owned();
    message.append(verb);
    message.append(" ");
    message.append(what.as_str());
    message.append(": ");
    message.append(subject.as_str());
    message.append(" is null");
    message.append(if suggest { "; use `?.` to read it as null instead" } else { "" });
    Diagnostic::error(Category::Reference, Code::NULL_ACCESS, message, link.span)
}

} // verus!

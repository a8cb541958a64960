//! What each step of an execution does: the machine's state, and the state after each frame.
//!
//! A frame is a pending unit of work. Frames that consume values say which they expect on the value
//! stack, the top last.

use vstd::prelude::*;
use vstd::multiset::Multiset;
use vstd::utf8::encode_utf8;
use crate::ast::AccessKind;
use crate::ast::AccessLink;
use crate::ast::BinaryAt;
use crate::ast::BinaryOperator;
use crate::ast::BlockId;
use crate::ast::ExprId;
use crate::ast::ExpressionKind;
use crate::ast::Function;
use crate::ast::Literal;
use crate::ast::Program;
use crate::ast::Statement;
use crate::ast::StatementKind;
use crate::ast::UnaryAt;
use crate::ast::UnaryOperator;
use crate::ast::symbol_of;
use crate::diagnostics::Category;
use crate::diagnostics::Code;
use crate::diagnostics::DiagnosticView;
use crate::diagnostics::Span;
use crate::diagnostics::error_of;
use crate::diagnostics::through_spec;
use crate::interpreter::detach::DetachFailure;
use crate::interpreter::detach::detach_value;
use crate::interpreter::heap::HeapView;
use crate::interpreter::heap::RtView;
use crate::interpreter::heap::SlotId;
use crate::interpreter::heap::SlotView;
use crate::interpreter::heap::TEXT_OVERHEAD;
use crate::interpreter::heap::kind_of;
use crate::interpreter::texts::held_by;
use crate::interpreter::texts::weight;
use crate::interpreter::value::ValueView;
use crate::number::ONE;
use crate::number::SIGN;
use crate::number::equal_bits;
use crate::number::is_finite_bits;
use crate::number::is_zero_bits;
use crate::number::less_bits;
use crate::number::position_of;
use crate::numeral::converts;
use crate::table::has_key;
use crate::table::put;
use crate::text::decimal;
use crate::text::precedes;

verus! {

/// How many calls may be active at once.
pub const CALL_DEPTH_LIMIT: usize = 1024;

/// How many bytes a string operation reads or writes per unit of work.
pub const BYTES_PER_UNIT: usize = 256;

/// Where a statement is: in a block, or at the top level for `None`, by position.
#[derive(Debug, Clone, Copy, PartialEq, Eq, Structural)]
pub struct StmtAt {
    pub block: Option<BlockId>,
    pub index: usize,
}

/// Where a function is: a named declaration, or a function literal.
#[derive(Debug, Clone, Copy, PartialEq, Eq, Structural)]
pub enum FnAt {
    Declared(StmtAt),
    Literal(ExprId),
}

/// The first `end` links of the access expression `access`.
#[derive(Debug, Clone, Copy, PartialEq, Eq, Structural)]
pub struct Chain {
    pub access: ExprId,
    pub end: usize,
}

/// What a loop needs to run and to be unwound to.
#[derive(Debug, Clone, Copy, PartialEq, Eq, Structural)]
pub struct LoopFrame {
    /// The scope outside the loop.
    pub outer_scope: SlotId,
    /// The depth of the value stack outside the loop.
    pub values: usize,
    pub kind: LoopKind,
}

#[derive(Debug, Clone, Copy, PartialEq, Eq, Structural)]
pub enum LoopKind {
    While { keyword: Span, condition: ExprId, body: BlockId },
    /// `version` is the collection's mutation count at the start; each iteration holds it against
    /// the current one, so the keys that an iteration reads are those of the start. `over_keys`
    /// tells an object from an array.
    For {
        keyword: Span,
        at: StmtAt,
        body: BlockId,
        collection: SlotId,
        version: u64,
        index: usize,
        over_keys: bool,
    },
}

/// A pending unit of work.
#[derive(Debug, Clone, Copy, PartialEq, Eq, Structural)]
pub enum Frame {
    Statement(StmtAt),
    /// Give the block's scope back and restore the one around it.
    ExitScope(SlotId),
    /// Evaluate an expression and push its value.
    Eval(ExprId),
    /// `[value]` to `[]`.
    Discard,
    /// `[value]` to `[]`, binding the name of the `let` at this place.
    Declare(StmtAt),
    /// `[value]` to the result of the call or the Script.
    Return(ExprId),
    /// `[operand]` to `[result]`.
    Unary { operator: UnaryAt, operand: ExprId },
    /// `[left]`: decides a short circuit, then schedules the right operand.
    BinaryRight { left: ExprId, operator: BinaryAt, right: ExprId },
    /// `[left, right]` to `[result]`.
    Binary { left: ExprId, operator: BinaryAt, right: ExprId },
    /// `[e0 .. eN-1]` to `[array]`.
    BuildArray { array: ExprId, count: usize },
    /// `[v0 .. vN-1]` to `[object]`.
    BuildObject(ExprId),
    /// `[receiver]`: applies the chain's link `index`, and what follows it.
    Link { chain: Chain, index: usize, in_target: bool },
    /// `[receiver, key]` to `[element]`, then the link behind it.
    IndexRead { chain: Chain, index: usize, in_target: bool },
    /// `[value]` to `[]`, assigning the name expression.
    AssignName(ExprId),
    /// `[receiver, value]` or `[receiver, key, value]` to `[]`.
    AssignMember(ExprId),
    /// `[condition]`: runs the branch's body, or tests the next branch.
    Branch { at: StmtAt, index: usize },
    /// A loop's boundary, below its running body; popping it advances the loop.
    Loop(LoopFrame),
    /// `[condition]`: runs one iteration of a `while`, or ends it.
    LoopTest(LoopFrame),
    /// `[iterable]`: opens the `for` at this place.
    ForStart(StmtAt),
    /// `[callee, a0 .. aN-1]`: binds a call scope and runs the body.
    Invoke { chain: Chain, index: usize, in_target: bool, arguments: usize },
    /// A call's boundary; popping it is a body that ran off its end.
    CallEnd { outer_scope: SlotId, values: usize, chain: Chain, index: usize, in_target: bool },
    /// `[a0 .. aN-1]`: stops with a host call.
    HostCall { chain: Chain, in_target: bool },
}

/// What is running, resolved to a span when a stop needs one.
#[derive(Debug, Clone, Copy, PartialEq, Eq, Structural)]
pub enum Site {
    Statement(StmtAt),
    Expression(ExprId),
    Span(Span),
    Link(Chain, usize),
    Unknown,
}

/// How an execution is metered.
#[derive(Debug, Clone, Copy, PartialEq, Eq, Structural)]
pub struct Meter {
    /// Pause once this many units of work are done. `None` never pauses.
    pub slice: Option<u64>,
    /// Stop once the execution's values hold more than this many bytes. `None` never stops.
    pub memory_ceiling: Option<u64>,
    /// Stop once the execution has made more than this many allocations. `None` never stops.
    pub allocation_ceiling: Option<u64>,
}

/// What is asked of the outside, where floating point is.
#[derive(Debug, Clone, Copy, PartialEq, Eq, Structural)]
pub enum Operation {
    /// The sum of both operands, converted to numbers.
    Add,
    /// The difference.
    Subtract,
    /// The product.
    Multiply,
    /// The quotient.
    Divide,
    /// The remainder.
    Remainder,
    /// Both operands as numbers.
    Convert,
    /// Both operands as text.
    Spell,
}

/// An operand that converts to a number or to text.
#[verifier::ext_equal]
pub ghost enum OperandView {
    Number(u64),
    Text(Seq<char>),
}

/// What is asked: an operation on two operands.
#[verifier::ext_equal]
pub ghost struct QuestionView {
    pub operation: Operation,
    pub left: OperandView,
    pub right: OperandView,
}

/// What came back: both operands as numbers, the operation's result, and both operands as text.
#[verifier::ext_equal]
pub ghost struct AnswerView {
    pub left: u64,
    pub right: u64,
    pub result: u64,
    pub left_text: Seq<char>,
    pub right_text: Seq<char>,
}

/// One argument of a host call, and the span of its expression.
#[verifier::ext_equal]
pub ghost struct ArgumentView {
    pub value: ValueView,
    pub span: Span,
}

/// Why a machine stopped.
#[verifier::ext_equal]
pub ghost enum StopView {
    Finished(ValueView),
    HostCall { name: Seq<char>, arguments: Seq<ArgumentView>, span: Span },
    Paused(Span),
    OutOfMemory(Span),
    AllocationsExceeded(Span),
    Ask(QuestionView),
}

/// The state of an execution.
#[verifier::ext_equal]
pub ghost struct MachineView {
    pub frames: Seq<Frame>,
    pub values: Seq<RtView>,
    pub heap: HeapView,
    pub scope: SlotId,
    pub root: SlotId,
    /// Every function that a function value points at.
    pub functions: Seq<FnAt>,
    /// How many calls are on the frame stack.
    pub depth: int,
    /// The chain that a host call suspended.
    pub suspended: Option<(Chain, bool)>,
    pub meter: Meter,
    /// Work done in the current slice.
    pub work: u64,
    pub site: Site,
    /// How many strings, arrays and objects steps made, and how often they grew one.
    pub allocations: u64,
    /// The answer to the question that the machine stopped on.
    pub answered: Option<AnswerView>,
}

/// Where a step leads: on, to a stop, or to a failure.
#[verifier::ext_equal]
pub ghost enum Turn {
    Go(MachineView),
    Halt(MachineView, StopView),
    Fail(DiagnosticView),
}

/// `a + b`, or the largest count when the sum is past it.
pub open spec fn added(a: u64, b: int) -> u64 {
    if a + b > u64::MAX {
        u64::MAX
    } else {
        (a + b) as u64
    }
}

/// The type name behind its article.
pub open spec fn article(value: RtView) -> Seq<char> {
    match value {
        RtView::Null => "null"@,
        RtView::Bool(_) => "a bool"@,
        RtView::Number(_) => "a number"@,
        RtView::String(_, _) => "a string"@,
        RtView::Array(_) => "an array"@,
        RtView::Object(_) => "an object"@,
        RtView::Function(_) => "a function"@,
    }
}

/// Why a value does not convert to a number.
pub open spec fn not_a_number(value: RtView) -> Seq<char> {
    match value {
        RtView::String(_, _) => "the string does not look like a number"@,
        RtView::Array(_) => "an array cannot be converted to a number"@,
        RtView::Object(_) => "an object cannot be converted to a number"@,
        _ => "the value cannot be converted to a number"@,
    }
}

/// Whether a value converts to a number.
pub open spec fn numeric(value: RtView) -> bool {
    match value {
        RtView::Null => true,
        RtView::Bool(_) => true,
        RtView::Number(_) => true,
        RtView::String(text, _) => converts(text),
        _ => false,
    }
}

/// Whether a value converts to text.
pub open spec fn textual(value: RtView) -> bool {
    value is Null || value is Bool || value is Number || value is String
}

/// The number that a value stands for, where nobody needs to be asked: `null` is zero, and the booleans
/// are zero and one.
pub open spec fn plain_number(value: RtView) -> Option<u64> {
    match value {
        RtView::Null => Some(0),
        RtView::Bool(b) => Some(if b { ONE } else { 0 }),
        RtView::Number(n) => Some(n),
        _ => None,
    }
}

/// The text that a value stands for, where nobody needs to be asked.
pub open spec fn plain_text(value: RtView) -> Option<Seq<char>> {
    match value {
        RtView::Null => Some("null"@),
        RtView::Bool(b) => Some(if b { "true"@ } else { "false"@ }),
        RtView::String(text, _) => Some(text),
        _ => None,
    }
}

/// A value as a number: its own, or the answer's.
pub open spec fn number_in(value: RtView, answer: u64) -> u64 {
    match plain_number(value) {
        Some(n) => n,
        None => answer,
    }
}

/// A value as text: its own, or the answer's.
pub open spec fn text_in(value: RtView, answer: Seq<char>) -> Seq<char> {
    match plain_text(value) {
        Some(text) => text,
        None => answer,
    }
}

/// An operand that is asked about as a number: a number, or the text of one.
pub open spec fn number_operand(value: RtView) -> OperandView {
    match value {
        RtView::String(text, _) => OperandView::Text(text),
        _ => OperandView::Number(number_in(value, 0)),
    }
}

/// An operand that is asked about as text: a number that is to be spelled, or a text.
pub open spec fn text_operand(value: RtView) -> OperandView {
    match value {
        RtView::Number(n) => OperandView::Number(n),
        _ => OperandView::Text(text_in(value, Seq::empty())),
    }
}

pub open spec fn question(operation: Operation, left: RtView, right: RtView) -> QuestionView {
    if operation == Operation::Spell {
        QuestionView { operation, left: text_operand(left), right: text_operand(right) }
    } else {
        QuestionView { operation, left: number_operand(left), right: number_operand(right) }
    }
}

/// What an operator makes of its operands: a value, or a question whose answer decides it.
#[verifier::ext_equal]
pub ghost enum Made {
    Value(RtView),
    /// A new string.
    Text(Seq<char>),
    Ask(QuestionView),
    Fail(DiagnosticView),
}

pub open spec fn mismatch(operator: BinaryAt, l: RtView, r: RtView, reason: Seq<char>, span: Span) -> Made {
    Made::Fail(
        error_of(
            Category::Type,
            Code::OPERAND_MISMATCH,
            "cannot apply `"@ + symbol_of(operator.kind) + "` to "@ + kind_of(l) + " and "@ + kind_of(r) + ": "@
                + reason,
            span,
        ),
    )
}

pub open spec fn operation_of(operator: BinaryOperator) -> Operation {
    match operator {
        BinaryOperator::Add => Operation::Add,
        BinaryOperator::Subtract => Operation::Subtract,
        BinaryOperator::Multiply => Operation::Multiply,
        BinaryOperator::Divide => Operation::Divide,
        BinaryOperator::Remainder => Operation::Remainder,
        _ => Operation::Convert,
    }
}

/// An arithmetic operator on two values.
pub open spec fn arithmetic(
    p: Program,
    left: ExprId,
    operator: BinaryAt,
    right: ExprId,
    l: RtView,
    r: RtView,
    answer: Option<AnswerView>,
) -> Made {
    if !numeric(l) {
        mismatch(operator, l, r, not_a_number(l), p.expr(left).span)
    } else if !numeric(r) {
        mismatch(operator, l, r, not_a_number(r), p.expr(right).span)
    } else {
        match answer {
            None => Made::Ask(question(operation_of(operator.kind), l, r)),
            Some(answer) => if (operator.kind == BinaryOperator::Divide || operator.kind == BinaryOperator::Remainder)
                && is_zero_bits(number_in(r, answer.right)) {
                Made::Fail(
                    error_of(
                        Category::Arithmetic,
                        Code::DIVISION_BY_ZERO,
                        "`"@ + symbol_of(operator.kind) + "` by zero"@,
                        p.expr(right).span,
                    ),
                )
            } else if is_finite_bits(answer.result) {
                Made::Value(RtView::Number(answer.result))
            } else {
                Made::Fail(
                    error_of(
                        Category::Arithmetic,
                        Code::NON_FINITE,
                        "the result of `"@ + symbol_of(operator.kind) + "` is not a finite number"@,
                        operator.span,
                    ),
                )
            },
        }
    }
}

/// Whether an ordering operator holds of two numbers.
pub open spec fn ordered_numbers(operator: BinaryOperator, a: u64, b: u64) -> bool {
    match operator {
        BinaryOperator::Less => less_bits(a, b),
        BinaryOperator::LessEqual => less_bits(a, b) || equal_bits(a, b),
        BinaryOperator::Greater => less_bits(b, a),
        _ => less_bits(b, a) || equal_bits(a, b),
    }
}

/// Whether an ordering operator holds of two texts.
pub open spec fn ordered_texts(operator: BinaryOperator, a: Seq<char>, b: Seq<char>) -> bool {
    match operator {
        BinaryOperator::Less => precedes(a, b),
        BinaryOperator::LessEqual => !precedes(b, a),
        BinaryOperator::Greater => precedes(b, a),
        _ => !precedes(a, b),
    }
}

/// An ordering operator on two values: texts by code points, anything else as numbers.
pub open spec fn ordering(
    p: Program,
    left: ExprId,
    operator: BinaryAt,
    right: ExprId,
    l: RtView,
    r: RtView,
    answer: Option<AnswerView>,
) -> Made {
    match (l, r) {
        (RtView::String(a, _), RtView::String(b, _)) => Made::Value(RtView::Bool(ordered_texts(operator.kind, a, b))),
        _ => if !numeric(l) {
            mismatch(operator, l, r, not_a_number(l), p.expr(left).span)
        } else if !numeric(r) {
            mismatch(operator, l, r, not_a_number(r), p.expr(right).span)
        } else {
            match (plain_number(l), plain_number(r)) {
                (Some(a), Some(b)) => Made::Value(RtView::Bool(ordered_numbers(operator.kind, a, b))),
                _ => match answer {
                    None => Made::Ask(question(Operation::Convert, l, r)),
                    Some(answer) => Made::Value(
                        RtView::Bool(
                            ordered_numbers(operator.kind, number_in(l, answer.left), number_in(r, answer.right)),
                        ),
                    ),
                },
            }
        },
    }
}

/// Language equality, where it needs no conversion: the same kind compares directly, collections and
/// functions by identity; a number and a text compare as numbers, and other kinds are unequal.
pub open spec fn equality(l: RtView, r: RtView, answer: Option<AnswerView>, negate: bool) -> Made {
    match (l, r) {
        (RtView::Null, RtView::Null) => Made::Value(RtView::Bool(!negate)),
        (RtView::Bool(a), RtView::Bool(b)) => Made::Value(RtView::Bool((a == b) != negate)),
        (RtView::Number(a), RtView::Number(b)) => Made::Value(RtView::Bool(equal_bits(a, b) != negate)),
        (RtView::String(a, _), RtView::String(b, _)) => Made::Value(RtView::Bool((a == b) != negate)),
        (RtView::Array(a), RtView::Array(b)) => Made::Value(RtView::Bool((a == b) != negate)),
        (RtView::Object(a), RtView::Object(b)) => Made::Value(RtView::Bool((a == b) != negate)),
        (RtView::Function(a), RtView::Function(b)) => Made::Value(RtView::Bool((a == b) != negate)),
        (RtView::Number(_), RtView::String(text, _)) => as_numbers(l, r, text, answer, negate),
        (RtView::String(text, _), RtView::Number(_)) => as_numbers(l, r, text, answer, negate),
        _ => Made::Value(RtView::Bool(negate)),
    }
}

/// A number and a text compared: a text that is no number is simply unequal.
pub open spec fn as_numbers(l: RtView, r: RtView, text: Seq<char>, answer: Option<AnswerView>, negate: bool) -> Made {
    if !converts(text) {
        Made::Value(RtView::Bool(negate))
    } else {
        match answer {
            None => Made::Ask(question(Operation::Convert, l, r)),
            Some(answer) => Made::Value(
                RtView::Bool(equal_bits(number_in(l, answer.left), number_in(r, answer.right)) != negate),
            ),
        }
    }
}

/// Two values joined as text.
pub open spec fn joining(
    p: Program,
    left: ExprId,
    operator: BinaryAt,
    right: ExprId,
    l: RtView,
    r: RtView,
    answer: Option<AnswerView>,
) -> Made {
    if !textual(l) {
        mismatch(operator, l, r, article(l) + " cannot be converted to a string"@, p.expr(left).span)
    } else if !textual(r) {
        mismatch(operator, l, r, article(r) + " cannot be converted to a string"@, p.expr(right).span)
    } else {
        match (plain_text(l), plain_text(r)) {
            (Some(a), Some(b)) => Made::Text(a + b),
            _ => match answer {
                None => Made::Ask(question(Operation::Spell, l, r)),
                Some(answer) => Made::Text(text_in(l, answer.left_text) + text_in(r, answer.right_text)),
            },
        }
    }
}

/// What a binary operator makes of its operands. `+` joins when either side is text.
pub open spec fn binary(
    p: Program,
    left: ExprId,
    operator: BinaryAt,
    right: ExprId,
    l: RtView,
    r: RtView,
    answer: Option<AnswerView>,
) -> Made {
    match operator.kind {
        BinaryOperator::Add => if l is String || r is String {
            joining(p, left, operator, right, l, r, answer)
        } else {
            arithmetic(p, left, operator, right, l, r, answer)
        },
        BinaryOperator::Subtract => arithmetic(p, left, operator, right, l, r, answer),
        BinaryOperator::Multiply => arithmetic(p, left, operator, right, l, r, answer),
        BinaryOperator::Divide => arithmetic(p, left, operator, right, l, r, answer),
        BinaryOperator::Remainder => arithmetic(p, left, operator, right, l, r, answer),
        BinaryOperator::Less => ordering(p, left, operator, right, l, r, answer),
        BinaryOperator::LessEqual => ordering(p, left, operator, right, l, r, answer),
        BinaryOperator::Greater => ordering(p, left, operator, right, l, r, answer),
        BinaryOperator::GreaterEqual => ordering(p, left, operator, right, l, r, answer),
        BinaryOperator::Equal => equality(l, r, answer, false),
        BinaryOperator::NotEqual => equality(l, r, answer, true),
        BinaryOperator::And => Made::Value(r),
        BinaryOperator::Or => Made::Value(r),
    }
}

/// What a unary operator makes of its operand.
pub open spec fn unary(
    p: Program,
    heap: HeapView,
    operator: UnaryAt,
    operand: ExprId,
    value: RtView,
    answer: Option<AnswerView>,
) -> Made {
    match operator.kind {
        UnaryOperator::Not => Made::Value(RtView::Bool(!heap.truthy(value))),
        UnaryOperator::Negate => if !numeric(value) {
            Made::Fail(
                error_of(
                    Category::Type,
                    Code::OPERAND_MISMATCH,
                    "cannot apply unary `-` to "@ + article(value) + ": "@ + not_a_number(value),
                    p.expr(operand).span,
                ),
            )
        } else {
            match (plain_number(value), answer) {
                (Some(n), _) => Made::Value(RtView::Number(negated_bits(n))),
                (None, None) => Made::Ask(question(Operation::Convert, value, RtView::Null)),
                (None, Some(answer)) => if is_finite_bits(answer.left) {
                    Made::Value(RtView::Number(negated_bits(answer.left)))
                } else {
                    Made::Fail(
                        error_of(
                            Category::Arithmetic,
                            Code::NON_FINITE,
                            "the result of `-` is not a finite number"@,
                            operator.span,
                        ),
                    )
                },
            }
        },
    }
}

/// The bits with the other sign.
pub open spec fn negated_bits(bits: u64) -> u64 {
    (if bits >= SIGN { bits - SIGN } else { bits + SIGN }) as u64
}

/// What `left + right` would add to the heap when it joins text and both sides convert: an upper
/// bound, since a number spells in at most 32 bytes.
pub open spec fn joined_bytes(l: RtView, r: RtView) -> Option<u64> {
    if !(l is String) && !(r is String) {
        None
    } else {
        match (spelled_bytes(l), spelled_bytes(r)) {
            (Some(a), Some(b)) => Some(added(added(a, b as int), TEXT_OVERHEAD as int)),
            _ => None,
        }
    }
}

pub open spec fn spelled_bytes(value: RtView) -> Option<u64> {
    match value {
        RtView::String(text, _) => Some(encode_utf8(text).len() as u64),
        RtView::Null => Some(32),
        RtView::Bool(_) => Some(32),
        RtView::Number(_) => Some(32),
        _ => None,
    }
}

/// A tree that the parser never makes.
pub open spec fn malformed(span: Span) -> DiagnosticView {
    error_of(Category::Syntax, Code::EXPECTED_SYNTAX, "malformed syntax tree"@, span)
}

pub open spec fn invalid_target(span: Span) -> DiagnosticView {
    error_of(
        Category::Syntax,
        Code::INVALID_ASSIGNMENT_TARGET,
        "expected a name or ordinary property/index assignment target"@,
        span,
    )
}

pub open spec fn no_properties(receiver: RtView, name: Seq<char>, span: Span) -> DiagnosticView {
    error_of(
        Category::Type,
        Code::INVALID_PROPERTY_ACCESS,
        "cannot access property `"@ + name + "` on "@ + article(receiver) + ": only objects have properties"@,
        span,
    )
}

pub open spec fn wrong_key(receiver: RtView, key: RtView, span: Span) -> DiagnosticView {
    error_of(
        Category::Type,
        Code::INVALID_INDEX,
        "cannot index "@ + article(receiver) + " with "@ + article(key) + ": "@ + kind_of(receiver)
            + " indices must be "@ + (if receiver is Array { "number"@ } else { "string"@ }) + "s"@,
        span,
    )
}

pub open spec fn not_indexable(receiver: RtView, span: Span) -> DiagnosticView {
    error_of(
        Category::Type,
        Code::INVALID_INDEX,
        "cannot index "@ + article(receiver) + ": only arrays and objects can be indexed"@,
        span,
    )
}

pub open spec fn undeclared_assignment(name: Seq<char>, span: Span) -> DiagnosticView {
    error_of(
        Category::Reference,
        Code::UNDECLARED_ASSIGNMENT,
        "cannot assign to `"@ + name + "`: it is not declared; declare it first with `let "@ + name + " = …`"@,
        span,
    )
}

pub open spec fn undeclared(name: Seq<char>, span: Span) -> DiagnosticView {
    error_of(Category::Reference, Code::UNDECLARED_IDENTIFIER, "`"@ + name + "` is not declared"@, span)
}

/// The link `link` applied to `null`, naming what produced the null: the last of the `before`
/// links, or the chain's base.
pub open spec fn null_access(
    p: Program,
    base: ExprId,
    before: Seq<AccessLink>,
    link: AccessLink,
    verb: Seq<char>,
    suggest: bool,
) -> DiagnosticView {
    let subject = if before.len() == 0 {
        match p.expr(base).kind {
            ExpressionKind::Identifier(name) => "`"@ + name.name@ + "`"@,
            ExpressionKind::Literal(Literal::Null) => "`null`"@,
            _ => "the value"@,
        }
    } else {
        match before.last().kind {
            AccessKind::Property(name) => "`"@ + name.name@ + "`"@,
            AccessKind::Index { .. } => "the indexed element"@,
            AccessKind::Call { .. } => "the call result"@,
        }
    };
    let what = match link.kind {
        AccessKind::Property(name) => "property `"@ + name.name@ + "`"@,
        _ => "an index"@,
    };
    let hint = if suggest {
        "; use `?.` to read it as null instead"@
    } else {
        ""@
    };
    error_of(
        Category::Reference,
        Code::NULL_ACCESS,
        "cannot "@ + verb + " "@ + what + ": "@ + subject + " is null"@ + hint,
        link.span,
    )
}

/// The base of a chain and its links. A chain of anything but an access has no links.
pub open spec fn chain_base(p: Program, chain: Chain) -> ExprId {
    match p.expr(chain.access).kind {
        ExpressionKind::Access { base, .. } => base,
        _ => chain.access,
    }
}

pub open spec fn chain_links(p: Program, chain: Chain) -> Seq<AccessLink> {
    match p.expr(chain.access).kind {
        ExpressionKind::Access { links, .. } => if chain.end <= links@.len() {
            links@.take(chain.end as int)
        } else {
            links@
        },
        _ => Seq::empty(),
    }
}

/// The statement at a place.
pub open spec fn statement_at(p: Program, at: StmtAt) -> Statement {
    p.statements_of(at.block)[at.index as int]
}

/// The function at a place.
pub open spec fn function_at(p: Program, at: FnAt) -> Option<Function> {
    match at {
        FnAt::Declared(at) => match statement_at(p, at).kind {
            StatementKind::Function { function, .. } => Some(function),
            _ => None,
        },
        FnAt::Literal(id) => match p.expr(id).kind {
            ExpressionKind::Function(function) => Some(function),
            _ => None,
        },
    }
}

/// The span of a site.
pub open spec fn site_span(p: Program, site: Site) -> Span {
    match site {
        Site::Statement(at) => statement_at(p, at).span,
        Site::Expression(id) => p.expr(id).span,
        Site::Span(span) => span,
        Site::Link(chain, index) => if index < chain_links(p, chain).len() {
            chain_links(p, chain)[index as int].span
        } else {
            p.expr(chain.access).span
        },
        Site::Unknown => p.span,
    }
}

/// Where a frame is.
pub open spec fn site_of(frame: Frame) -> Site {
    match frame {
        Frame::Statement(at) => Site::Statement(at),
        Frame::Declare(at) => Site::Statement(at),
        Frame::Branch { at, .. } => Site::Statement(at),
        Frame::ForStart(at) => Site::Statement(at),
        Frame::Eval(id) => Site::Expression(id),
        Frame::Return(id) => Site::Expression(id),
        Frame::BuildArray { array, .. } => Site::Expression(array),
        Frame::BuildObject(id) => Site::Expression(id),
        Frame::AssignName(id) => Site::Expression(id),
        Frame::AssignMember(id) => Site::Expression(id),
        Frame::Unary { operator, .. } => Site::Span(operator.span),
        Frame::BinaryRight { operator, .. } => Site::Span(operator.span),
        Frame::Binary { operator, .. } => Site::Span(operator.span),
        Frame::Link { chain, index, .. } => Site::Link(chain, index),
        Frame::IndexRead { chain, index, .. } => Site::Link(chain, index),
        Frame::Invoke { chain, index, .. } => Site::Link(chain, index),
        Frame::CallEnd { chain, index, .. } => Site::Link(chain, index),
        Frame::HostCall { chain, .. } => Site::Link(chain, 0),
        Frame::Loop(state) => Site::Span(loop_keyword(state.kind)),
        Frame::LoopTest(state) => Site::Span(loop_keyword(state.kind)),
        Frame::ExitScope(_) => Site::Unknown,
        Frame::Discard => Site::Unknown,
    }
}

pub open spec fn loop_keyword(kind: LoopKind) -> Span {
    match kind {
        LoopKind::While { keyword, .. } => keyword,
        LoopKind::For { keyword, .. } => keyword,
    }
}

pub open spec fn loop_body(kind: LoopKind) -> BlockId {
    match kind {
        LoopKind::While { body, .. } => body,
        LoopKind::For { body, .. } => body,
    }
}

/// The frames that evaluate `ids`, the first on top.
pub open spec fn evals(ids: Seq<ExprId>) -> Seq<Frame> {
    Seq::new(ids.len(), |i: int| Frame::Eval(ids[ids.len() - 1 - i]))
}

/// The frames that run the first `n` statements of a block, the first on top.
pub open spec fn scheduled(block: Option<BlockId>, n: nat) -> Seq<Frame> {
    Seq::new(n, |i: int| Frame::Statement(StmtAt { block, index: (n - 1 - i) as usize }))
}

/// The first place of `at` in `functions`, from `k` on; the length when it is not there.
pub open spec fn definition_of(functions: Seq<FnAt>, at: FnAt, k: int) -> int
    decreases functions.len() - k,
{
    if k < 0 || k >= functions.len() || functions[k] == at {
        k
    } else {
        definition_of(functions, at, k + 1)
    }
}

/// The entries of an object literal with these values.
pub open spec fn literal_entries(p: Program, id: ExprId, values: Seq<RtView>, n: int) -> Seq<(Seq<char>, RtView)>
    decreases n,
{
    match p.expr(id).kind {
        ExpressionKind::Object { entries, .. } => if n <= 0 {
            Seq::empty()
        } else {
            put(literal_entries(p, id, values, n - 1), entries@[n - 1].key.name@, values[n - 1])
        },
        _ => Seq::empty(),
    }
}

impl MachineView {
    pub open spec fn push(self, frame: Frame) -> MachineView {
        MachineView { frames: self.frames.push(frame), ..self }
    }

    pub open spec fn push_all(self, frames: Seq<Frame>) -> MachineView {
        MachineView { frames: self.frames + frames, ..self }
    }

    pub open spec fn give(self, value: RtView) -> MachineView {
        MachineView { values: self.values.push(value), ..self }
    }

    /// The value on top; `null` for an empty stack.
    pub open spec fn top(self) -> RtView {
        if self.values.len() > 0 {
            self.values.last()
        } else {
            RtView::Null
        }
    }

    /// The machine without the value on top.
    pub open spec fn pop(self) -> MachineView {
        if self.values.len() > 0 {
            MachineView { values: self.values.drop_last(), ..self }
        } else {
            self
        }
    }

    /// Where the last `n` values start.
    pub open spec fn below(self, n: int) -> int {
        if self.values.len() >= n {
            self.values.len() - n
        } else {
            0
        }
    }

    pub open spec fn tops(self, n: int) -> Seq<RtView> {
        self.values.subrange(self.below(n), self.values.len() as int)
    }

    pub open spec fn pops(self, n: int) -> MachineView {
        MachineView { values: self.values.subrange(0, self.below(n)), ..self }
    }

    /// The machine with the value stack cut to at most `n`.
    pub open spec fn cut(self, n: int) -> MachineView {
        if n <= self.values.len() {
            MachineView { values: self.values.subrange(0, n), ..self }
        } else {
            self
        }
    }

    /// Count one allocation.
    pub open spec fn built(self) -> MachineView {
        MachineView { allocations: added(self.allocations, 1), ..self }
    }

    /// Make a string: one allocation, and one number.
    pub open spec fn text_made(self) -> MachineView {
        MachineView { heap: self.heap.issue(), ..self.built() }
    }

    /// Make a string and push it.
    pub open spec fn give_text(self, text: Seq<char>) -> MachineView {
        self.text_made().give(RtView::String(text, self.heap.issued))
    }

    /// Count one allocation when `grows`.
    pub open spec fn grown(self, grows: bool) -> MachineView {
        if grows {
            self.built()
        } else {
            self
        }
    }

    /// Count the work of reading a text.
    pub open spec fn read_text(self, value: RtView) -> MachineView {
        match value {
            RtView::String(text, _) => MachineView {
                work: added(self.work, encode_utf8(text).len() as int / BYTES_PER_UNIT as int),
                ..self
            },
            _ => self,
        }
    }

    /// A function value of the function at `at`, which captures the current scope.
    pub open spec fn function_made(self, at: FnAt) -> MachineView {
        let definition = definition_of(self.functions, at, 0);
        let marked = self.heap.marked(self.scope);
        MachineView {
            functions: if definition < self.functions.len() {
                self.functions
            } else {
                self.functions.push(at)
            },
            heap: marked.allocated(SlotView::Function { definition: definition as usize, scope: self.scope }),
            ..self
        }
    }

    /// The handle of the function value that [`function_made`](Self::function_made) makes.
    pub open spec fn function_value(self) -> RtView {
        RtView::Function(self.heap.marked(self.scope).next())
    }

    /// The machine with the named functions of a block bound, from statement `k` on.
    pub open spec fn hoisted(self, p: Program, block: Option<BlockId>, k: int) -> MachineView
        decreases p.statements_of(block).len() - k,
    {
        if k < 0 || k >= p.statements_of(block).len() {
            self
        } else {
            match p.statements_of(block)[k].kind {
                StatementKind::Function { name, .. } => {
                    let made = self.function_made(FnAt::Declared(StmtAt { block, index: k as usize }));
                    MachineView {
                        heap: made.heap.declared(self.scope, name.name@, self.function_value()),
                        ..made
                    }.hoisted(p, block, k + 1)
                },
                _ => self.hoisted(p, block, k + 1),
            }
        }
    }

    /// The machine with a block's statements scheduled, its named functions bound first.
    pub open spec fn opened(self, p: Program, block: Option<BlockId>) -> MachineView {
        self.hoisted(p, block, 0).push_all(scheduled(block, p.statements_of(block).len()))
    }

    /// The machine inside a new scope whose parent is `parent`.
    pub open spec fn scoped(self, parent: SlotId) -> MachineView {
        MachineView { heap: self.heap.scope_pushed(Some(parent)), scope: self.heap.next(), ..self }
    }

    /// The machine inside a block: a new scope, given back when the statements are done.
    pub open spec fn entered(self, p: Program, block: BlockId) -> MachineView {
        self.scoped(self.scope).push(Frame::ExitScope(self.scope)).opened(p, Some(block))
    }

    /// The machine outside the current scope, which is given back unless it is captured.
    pub open spec fn exited(self, outer: SlotId) -> MachineView {
        MachineView { heap: self.heap.scope_released(self.scope), scope: outer, ..self }
    }

    /// Test a branch of an `if`, or take its `else`.
    pub open spec fn branched(self, p: Program, at: StmtAt, index: int) -> MachineView {
        match statement_at(p, at).kind {
            StatementKind::If { branches, else_branch } => if index < branches@.len() {
                self.push(Frame::Branch { at, index: index as usize }).push(
                    Frame::Eval(branches@[index].condition.expression),
                )
            } else {
                match else_branch {
                    Some(otherwise) => self.entered(p, otherwise.body),
                    None => self,
                }
            },
            _ => self,
        }
    }

    /// Unwind to the innermost loop: `break` consumes it, `continue` keeps it. A call is never
    /// unwound.
    pub open spec fn unwound(self, consume: bool) -> MachineView
        decreases self.frames.len(),
    {
        if self.frames.len() == 0 {
            self
        } else {
            let frame = self.frames.last();
            let rest = MachineView { frames: self.frames.drop_last(), ..self };
            match frame {
                Frame::ExitScope(outer) => rest.exited(outer).unwound(consume),
                Frame::Loop(state) => {
                    let cut = MachineView { scope: state.outer_scope, ..rest.cut(state.values as int) };
                    if consume {
                        cut
                    } else {
                        cut.push(frame)
                    }
                },
                Frame::CallEnd { .. } => self,
                _ => rest.unwound(consume),
            }
        }
    }

    /// The machine behind a call that yielded `value`: the call's boundary is undone and the chain
    /// goes on behind the call.
    pub open spec fn call_ended(
        self,
        outer_scope: SlotId,
        values: usize,
        chain: Chain,
        index: usize,
        in_target: bool,
        value: RtView,
    ) -> MachineView {
        let out = self.cut(values as int).exited(outer_scope);
        MachineView { depth: out.depth - 1, ..out }.give(value).push(
            Frame::Link { chain, index: (index + 1) as usize, in_target },
        )
    }

    /// Return `value` from the innermost call.
    pub open spec fn returned(self, value: RtView) -> MachineView
        decreases self.frames.len(),
    {
        if self.frames.len() == 0 {
            self
        } else {
            let rest = MachineView { frames: self.frames.drop_last(), ..self };
            match self.frames.last() {
                Frame::ExitScope(outer) => rest.exited(outer).returned(value),
                Frame::CallEnd { outer_scope, values, chain, index, in_target } => rest.call_ended(
                    outer_scope,
                    values,
                    chain,
                    index,
                    in_target,
                    value,
                ),
                _ => rest.returned(value),
            }
        }
    }

    /// Run a statement.
    pub open spec fn statement(self, p: Program, at: StmtAt) -> Turn {
        match statement_at(p, at).kind {
            StatementKind::Let { initializer, .. } => Turn::Go(
                self.push(Frame::Declare(at)).push(Frame::Eval(initializer)),
            ),
            StatementKind::Expression(id) => Turn::Go(self.push(Frame::Discard).push(Frame::Eval(id))),
            StatementKind::Return { value, .. } => match value {
                Some(id) => Turn::Go(self.push(Frame::Return(id)).push(Frame::Eval(id))),
                None => if self.depth > 0 {
                    Turn::Go(self.returned(RtView::Null))
                } else {
                    Turn::Halt(self, StopView::Finished(ValueView::Null))
                },
            },
            StatementKind::Block(id) => Turn::Go(self.entered(p, id)),
            StatementKind::Assignment { target, value, .. } => self.assignment(p, target, value),
            StatementKind::Function { .. } => Turn::Go(self),
            StatementKind::If { .. } => Turn::Go(self.branched(p, at, 0)),
            StatementKind::While { keyword, condition, body } => Turn::Go(
                self.push(
                    Frame::Loop(
                        LoopFrame {
                            outer_scope: self.scope,
                            values: self.values.len() as usize,
                            kind: LoopKind::While { keyword, condition: condition.expression, body },
                        },
                    ),
                ),
            ),
            StatementKind::For { iterable, .. } => Turn::Go(
                self.push(Frame::ForStart(at)).push(Frame::Eval(iterable)),
            ),
            StatementKind::Break { .. } => Turn::Go(self.unwound(true)),
            StatementKind::Continue { .. } => Turn::Go(self.unwound(false)),
        }
    }

    /// Schedule an assignment: the receiver, then the key, then the value.
    pub open spec fn assignment(self, p: Program, target: ExprId, value: ExprId) -> Turn {
        match p.expr(target).kind {
            ExpressionKind::Identifier(_) => Turn::Go(self.push(Frame::AssignName(target)).push(Frame::Eval(value))),
            ExpressionKind::Access { links, .. } => if links@.len() == 0 || (exists|i: int|
                0 <= i < links@.len() && (#[trigger] links@[i]).optional) {
                Turn::Fail(invalid_target(p.expr(target).span))
            } else {
                let scheduled = self.push(Frame::AssignMember(target)).push(Frame::Eval(value));
                match links@.last().kind {
                    AccessKind::Property(_) => scheduled.chain_opened(p, target, links@.len() - 1, true),
                    AccessKind::Index { expression, .. } => scheduled.push(Frame::Eval(expression)).chain_opened(
                        p,
                        target,
                        links@.len() - 1,
                        true,
                    ),
                    AccessKind::Call { .. } => Turn::Fail(invalid_target(p.expr(target).span)),
                }
            },
            _ => Turn::Fail(invalid_target(p.expr(target).span)),
        }
    }

    /// Evaluate an expression.
    pub open spec fn expression(self, p: Program, id: ExprId) -> Turn {
        match p.expr(id).kind {
            ExpressionKind::Literal(literal) => Turn::Go(
                match literal {
                    Literal::Null => self.give(RtView::Null),
                    Literal::Bool(b) => self.give(RtView::Bool(b)),
                    Literal::Number(n) => self.give(RtView::Number(n.bits())),
                    Literal::String(s) => self.give_text(s@),
                },
            ),
            ExpressionKind::Identifier(name) => match self.heap.lookup(self.scope, name.name@) {
                Some(value) => Turn::Go(self.give(value)),
                None => Turn::Fail(undeclared(name.name@, name.span)),
            },
            ExpressionKind::Group { expression, .. } => Turn::Go(self.push(Frame::Eval(expression))),
            ExpressionKind::Unary { operator, operand } => Turn::Go(
                self.push(Frame::Unary { operator, operand }).push(Frame::Eval(operand)),
            ),
            ExpressionKind::Binary { left, operator, right } => Turn::Go(
                self.push(Frame::BinaryRight { left, operator, right }).push(Frame::Eval(left)),
            ),
            ExpressionKind::Array { elements, .. } => Turn::Go(
                self.push(Frame::BuildArray { array: id, count: elements@.len() as usize }).push_all(
                    evals(elements@),
                ),
            ),
            ExpressionKind::Object { entries, .. } => Turn::Go(
                self.push(Frame::BuildObject(id)).push_all(
                    evals(Seq::new(entries@.len(), |i: int| entries@[i].value)),
                ),
            ),
            ExpressionKind::Access { links, .. } => self.chain_opened(p, id, links@.len() as int, false),
            ExpressionKind::Function(_) => Turn::Go(
                self.function_made(FnAt::Literal(id)).give(self.function_value()),
            ),
        }
    }

    /// Schedule the first `end` links of an access, starting with its base. A bare name that no scope
    /// declares, called by the first link, is a host call.
    pub open spec fn chain_opened(self, p: Program, access: ExprId, end: int, in_target: bool) -> Turn {
        match p.expr(access).kind {
            ExpressionKind::Access { base, links } => {
                let chain = Chain { access, end: end as usize };
                match host_callee(p, base, links@, end) {
                    Some(name) => if self.heap.lookup(self.scope, name) is None {
                        Turn::Go(
                            self.push(Frame::HostCall { chain, in_target }).push_all(
                                evals(links@[0].kind->Call_arguments@),
                            ),
                        )
                    } else {
                        Turn::Go(self.push(Frame::Link { chain, index: 0, in_target }).push(Frame::Eval(base)))
                    },
                    None => Turn::Go(self.push(Frame::Link { chain, index: 0, in_target }).push(Frame::Eval(base))),
                }
            },
            _ => Turn::Fail(malformed(p.expr(access).span)),
        }
    }

    /// Apply link `index` of a chain to the receiver on top.
    pub open spec fn link(self, p: Program, chain: Chain, index: usize, in_target: bool) -> Turn {
        let links = chain_links(p, chain);
        if index >= links.len() {
            Turn::Go(self)
        } else {
            let link = links[index as int];
            let null = self.top() is Null;
            if null && link.optional {
                Turn::Go(self)
            } else {
                match link.kind {
                    AccessKind::Call { arguments, .. } => Turn::Go(
                        self.push(
                            Frame::Invoke { chain, index, in_target, arguments: arguments@.len() as usize },
                        ).push_all(evals(arguments@)),
                    ),
                    AccessKind::Property(name) => if null {
                        Turn::Fail(
                            null_access(p, chain_base(p, chain), links.take(index as int), link, "read"@, !in_target),
                        )
                    } else {
                        match self.top() {
                            RtView::Object(object) => Turn::Go(
                                self.pop().give(
                                    match self.heap.object_get(object, name.name@) {
                                        Some(value) => value,
                                        None => RtView::Null,
                                    },
                                ).push(Frame::Link { chain, index: (index + 1) as usize, in_target }),
                            ),
                            other => Turn::Fail(no_properties(other, name.name@, link.span)),
                        }
                    },
                    AccessKind::Index { expression, .. } => if null {
                        Turn::Fail(
                            null_access(p, chain_base(p, chain), links.take(index as int), link, "read"@, !in_target),
                        )
                    } else {
                        Turn::Go(
                            self.push(Frame::IndexRead { chain, index, in_target }).push(Frame::Eval(expression)),
                        )
                    },
                }
            }
        }
    }

    /// Read an element: what is not there reads as `null`.
    pub open spec fn index_read(self, p: Program, chain: Chain, index: usize, in_target: bool) -> Turn {
        let key = self.top();
        let receiver = self.pop().top();
        let rest = self.pop().pop().read_text(key);
        let links = chain_links(p, chain);
        if index >= links.len() {
            Turn::Fail(malformed(p.expr(chain.access).span))
        } else {
            let link = links[index as int];
            match link.kind {
                AccessKind::Index { expression, .. } => match element(self.heap, p, receiver, key, link, expression) {
                    Ok(value) => Turn::Go(
                        rest.give(value).push(Frame::Link { chain, index: (index + 1) as usize, in_target }),
                    ),
                    Err(failure) => Turn::Fail(failure),
                },
                _ => Turn::Fail(malformed(link.span)),
            }
        }
    }

    /// Store a value through the last link of an access.
    pub open spec fn member_assigned(self, p: Program, target: ExprId) -> Turn {
        let value = self.top();
        let rest = self.pop();
        match p.expr(target).kind {
            ExpressionKind::Access { base, links } => if links@.len() == 0 {
                Turn::Fail(malformed(p.expr(target).span))
            } else {
                let link = links@.last();
                let before = links@.drop_last();
                match link.kind {
                    AccessKind::Property(name) => match rest.top() {
                        RtView::Object(object) => Turn::Go(
                            MachineView {
                                heap: self.heap.object_store(object, name.name@, value),
                                ..rest.pop().grown(!has_key(self.heap.entries(object), name.name@))
                            },
                        ),
                        RtView::Null => Turn::Fail(null_access(p, base, before, link, "assign"@, false)),
                        other => Turn::Fail(no_properties(other, name.name@, link.span)),
                    },
                    AccessKind::Index { expression, .. } => {
                        let key = rest.top();
                        let receiver = rest.pop().top();
                        let done = rest.pop().pop().read_text(key);
                        match (receiver, key) {
                            (RtView::Null, _) => Turn::Fail(null_access(p, base, before, link, "assign"@, false)),
                            (RtView::Array(array), RtView::Number(n)) => match stored(self.heap, array, n, value) {
                                Some(heap) => Turn::Go(
                                    MachineView {
                                        heap,
                                        ..done.grown(position_of(n) == Some(self.heap.elements(array).len() as int))
                                    },
                                ),
                                None => match self.answered {
                                    None => Turn::Halt(
                                        MachineView { answered: None, ..self }.push(Frame::AssignMember(target)),
                                        StopView::Ask(question(Operation::Spell, key, RtView::Null)),
                                    ),
                                    Some(answer) => Turn::Fail(
                                        error_of(
                                            Category::Reference,
                                            Code::INDEX_OUT_OF_RANGE,
                                            "cannot assign at index "@ + answer.left_text + " of an array of length "@
                                                + decimal(self.heap.elements(array).len())
                                                + ": only an existing index or the length (to append) can be written"@,
                                            p.expr(expression).span,
                                        ),
                                    ),
                                },
                            },
                            (RtView::Object(object), RtView::String(k, _)) => Turn::Go(
                                MachineView {
                                    heap: self.heap.object_store(object, k, value),
                                    ..done.grown(!has_key(self.heap.entries(object), k))
                                },
                            ),
                            (RtView::Array(_), _) => Turn::Fail(wrong_key(receiver, key, p.expr(expression).span)),
                            (RtView::Object(_), _) => Turn::Fail(wrong_key(receiver, key, p.expr(expression).span)),
                            _ => Turn::Fail(not_indexable(receiver, link.span)),
                        }
                    },
                    AccessKind::Call { .. } => Turn::Fail(malformed(link.span)),
                }
            },
            _ => Turn::Fail(malformed(p.expr(target).span)),
        }
    }

    /// Call the function below its arguments.
    pub open spec fn invoked(self, p: Program, chain: Chain, index: usize, in_target: bool, arguments: usize) -> Turn {
        let links = chain_links(p, chain);
        if index >= links.len() {
            Turn::Fail(malformed(p.expr(chain.access).span))
        } else {
            let span = links[index as int].span;
            let values = self.tops(arguments as int);
            let callee = self.pops(arguments as int).top();
            let rest = self.pops(arguments as int).pop();
            match callee {
                RtView::Function(slot) => match self.heap.slot(slot) {
                    SlotView::Function { definition, scope } => match self.defined(p, definition) {
                        Some(function) => if values.len() != function.parameters@.len() {
                            Turn::Fail(
                                error_of(
                                    Category::Arity,
                                    Code::ARGUMENT_COUNT,
                                    arity_message(values.len(), function.parameters@.len()),
                                    span,
                                ),
                            )
                        } else if self.depth >= CALL_DEPTH_LIMIT {
                            Turn::Fail(
                                error_of(
                                    Category::Depth,
                                    Code::CALL_DEPTH_EXCEEDED,
                                    "too many nested calls: the limit is 1024"@,
                                    span,
                                ),
                            )
                        } else {
                            let inner = rest.scoped(scope);
                            let framed = MachineView { depth: self.depth + 1, ..inner }.push(
                                Frame::CallEnd {
                                    outer_scope: self.scope,
                                    values: rest.values.len() as usize,
                                    chain,
                                    index,
                                    in_target,
                                },
                            );
                            Turn::Go(
                                MachineView {
                                    heap: bound(framed.heap, framed.scope, function, values, function.parameters@.len() as int),
                                    ..framed
                                }.opened(p, Some(function.body)),
                            )
                        },
                        None => Turn::Fail(malformed(span)),
                    },
                    _ => Turn::Fail(malformed(span)),
                },
                other => Turn::Fail(
                    error_of(
                        Category::Type,
                        Code::NOT_CALLABLE,
                        "cannot call "@ + article(other) + ": only functions can be called"@,
                        span,
                    ),
                ),
            }
        }
    }

    /// The function that a definition index names.
    pub open spec fn defined(self, p: Program, definition: usize) -> Option<Function> {
        if definition < self.functions.len() {
            function_at(p, self.functions[definition as int])
        } else {
            None
        }
    }

    /// Open a `for` over the value on top.
    pub open spec fn for_started(self, p: Program, at: StmtAt) -> Turn {
        let value = self.top();
        let rest = self.pop();
        match statement_at(p, at).kind {
            StatementKind::For { keyword, iterable, body, .. } => match value {
                RtView::Array(id) => Turn::Go(rest.loop_pushed(keyword, at, body, id, false)),
                RtView::Object(id) => Turn::Go(
                    MachineView { work: added(self.work, self.heap.entries(id).len() as int), ..rest }.loop_pushed(
                        keyword,
                        at,
                        body,
                        id,
                        true,
                    ),
                ),
                other => Turn::Fail(
                    error_of(
                        Category::Type,
                        Code::OPERAND_MISMATCH,
                        "cannot iterate "@ + article(other) + ": `for … in` needs an array or an object"@,
                        p.expr(iterable).span,
                    ),
                ),
            },
            _ => Turn::Fail(malformed(statement_at(p, at).span)),
        }
    }

    pub open spec fn loop_pushed(self, keyword: Span, at: StmtAt, body: BlockId, collection: SlotId, over_keys: bool) -> MachineView {
        self.push(
            Frame::Loop(
                LoopFrame {
                    outer_scope: self.scope,
                    values: self.values.len() as usize,
                    kind: LoopKind::For {
                        keyword,
                        at,
                        body,
                        collection,
                        version: self.heap.version(collection),
                        index: 0,
                        over_keys,
                    },
                },
            ),
        )
    }

    /// Advance a loop by one iteration, or let it end.
    pub open spec fn advanced(self, p: Program, state: LoopFrame) -> Turn {
        match state.kind {
            LoopKind::While { condition, .. } => Turn::Go(self.push(Frame::LoopTest(state)).push(Frame::Eval(condition))),
            LoopKind::For { keyword, at, body, collection, version, index, over_keys } => if self.heap.version(
                collection,
            ) != version {
                Turn::Fail(
                    error_of(
                        Category::Reference,
                        Code::COLLECTION_MUTATED,
                        "the collection this `for` loop is iterating was modified while it ran"@,
                        keyword,
                    ),
                )
            } else {
                match iterated(self.heap, collection, index, over_keys) {
                    None => Turn::Go(self),
                    Some(item) => {
                        let made = if over_keys { self.text_made() } else { self };
                        let inner = made.scoped(state.outer_scope);
                        let named = match statement_at(p, at).kind {
                            StatementKind::For { binding, .. } => MachineView {
                                heap: inner.heap.declared(inner.scope, binding.name@, item),
                                ..inner
                            },
                            _ => inner,
                        };
                        let next = LoopFrame {
                            kind: LoopKind::For {
                                keyword,
                                at,
                                body,
                                collection,
                                version,
                                index: (index + 1) as usize,
                                over_keys,
                            },
                            ..state
                        };
                        Turn::Go(
                            named.push(Frame::Loop(next)).push(Frame::ExitScope(self.scope)).opened(p, Some(body)),
                        )
                    },
                }
            },
        }
    }

    /// Decide a short circuit, or schedule the right operand.
    pub open spec fn right_scheduled(self, left: ExprId, operator: BinaryAt, right: ExprId) -> MachineView {
        if operator.kind == BinaryOperator::Or || operator.kind == BinaryOperator::And {
            let truthy = self.values.len() > 0 && self.heap.truthy(self.values.last());
            if truthy == (operator.kind == BinaryOperator::Or) {
                self
            } else {
                self.pop().push(Frame::Eval(right))
            }
        } else {
            self.push(Frame::Binary { left, operator, right }).push(Frame::Eval(right))
        }
    }

    /// The Script's result.
    pub open spec fn script_result(self, p: Program, value: RtView, expression: ExprId) -> Turn {
        let span = p.expr(expression).span;
        match detach_value(self.heap, value, Set::empty()) {
            Ok(result) => Turn::Halt(self, StopView::Finished(result)),
            Err(DetachFailure::Cycle) => Turn::Fail(
                error_of(
                    Category::Type,
                    Code::CYCLIC_RESULT,
                    "cannot return this "@ + kind_of(value)
                        + ": it contains a value that refers back to itself, and a Script result must be a finite tree of values"@,
                    span,
                ),
            ),
            Err(DetachFailure::Function) => Turn::Fail(
                error_of(
                    Category::Type,
                    Code::FUNCTION_RESULT,
                    if value is Function {
                        "cannot return a function: a Script result must be data the Backend can receive"@
                    } else {
                        "cannot return this "@ + kind_of(value)
                            + ": it contains a function, and a Script result must be data the Backend can receive"@
                    },
                    span,
                ),
            ),
        }
    }

    /// Stop with a host call.
    pub open spec fn host_called(self, p: Program, chain: Chain, in_target: bool) -> Turn {
        let links = chain_links(p, chain);
        let base = p.expr(chain_base(p, chain));
        match base.kind {
            ExpressionKind::Identifier(name) => if links.len() == 0 {
                Turn::Fail(malformed(base.span))
            } else {
                let link = links[0];
                match link.kind {
                    AccessKind::Call { arguments, .. } => {
                        let values = self.tops(arguments@.len() as int);
                        let span = through_spec(name.span, link.span);
                        match detached_arguments(self.heap, p, name.name@, values, arguments@, 0) {
                            Ok(list) => Turn::Halt(
                                MachineView {
                                    suspended: Some((chain, in_target)),
                                    site: Site::Span(span),
                                    ..self.pops(arguments@.len() as int)
                                },
                                StopView::HostCall { name: name.name@, arguments: list, span },
                            ),
                            Err(failure) => Turn::Fail(failure),
                        }
                    },
                    _ => Turn::Fail(malformed(link.span)),
                }
            },
            _ => Turn::Fail(malformed(base.span)),
        }
    }

    /// Apply an operator's outcome: push the value, or stop with the question and everything as it
    /// was, to come back to the same frame with the answer.
    pub open spec fn concluded(self, made: Made, asking: MachineView) -> Turn {
        match made {
            Made::Value(value) => Turn::Go(MachineView { answered: None, ..self.give(value) }),
            Made::Text(text) => Turn::Go(MachineView { answered: None, ..self.give_text(text) }),
            Made::Ask(question) => Turn::Halt(asking, StopView::Ask(question)),
            Made::Fail(failure) => Turn::Fail(failure),
        }
    }

    /// The strings that values hold, in the heap and on the value stack, each as often as values hold
    /// it.
    pub open spec fn texts(self) -> Multiset<(Seq<char>, u64)> {
        self.heap.texts().add(held_by(self.values, self.values.len() as int))
    }

    /// What counts towards the memory ceiling, up to a wrap: the heap, and every string that a value
    /// holds, once however many hold it.
    pub open spec fn used(self) -> u64 {
        ((self.heap.bytes() + weight(self.texts().dom())) % 0x1_0000_0000_0000_0000) as u64
    }

    /// Whether the values hold more than the memory ceiling.
    pub open spec fn over_ceiling(self) -> bool {
        self.meter.memory_ceiling matches Some(ceiling) && self.used() > ceiling
    }

    /// Whether `extra` more bytes would take the values past the ceiling.
    pub open spec fn would_cross(self, extra: u64) -> bool {
        self.meter.memory_ceiling matches Some(ceiling) && added(self.used(), extra as int) > ceiling
    }

    /// Whether more allocations were made than the ceiling allows.
    pub open spec fn over_allocated(self) -> bool {
        self.meter.allocation_ceiling matches Some(ceiling) && self.allocations > ceiling
    }

    /// The ceiling that is crossed, if one is: memory comes first.
    pub open spec fn exceeded(self, span: Span) -> Option<StopView> {
        if self.over_ceiling() {
            Some(StopView::OutOfMemory(span))
        } else if self.over_allocated() {
            Some(StopView::AllocationsExceeded(span))
        } else {
            None
        }
    }

    /// Execute one frame.
    pub open spec fn step(self, p: Program, frame: Frame) -> Turn {
        match frame {
            Frame::Statement(at) => self.statement(p, at),
            Frame::ExitScope(outer) => Turn::Go(self.exited(outer)),
            Frame::Eval(id) => self.expression(p, id),
            Frame::Discard => Turn::Go(self.pop()),
            Frame::Declare(at) => match statement_at(p, at).kind {
                StatementKind::Let { name, .. } => Turn::Go(
                    MachineView {
                        heap: self.heap.declared(self.scope, name.name@, self.top()),
                        ..self.pop()
                    },
                ),
                _ => Turn::Go(self.pop()),
            },
            Frame::Return(expression) => if self.depth > 0 {
                Turn::Go(self.pop().returned(self.top()))
            } else {
                self.pop().script_result(p, self.top(), expression)
            },
            Frame::Unary { operator, operand } => {
                let value = self.top();
                let rest = if self.answered is None { self.pop().read_text(value) } else { self.pop() };
                rest.concluded(
                    unary(p, self.heap, operator, operand, value, self.answered),
                    rest.give(value).push(frame),
                )
            },
            Frame::BinaryRight { left, operator, right } => Turn::Go(self.right_scheduled(left, operator, right)),
            Frame::Binary { left, operator, right } => {
                let r = self.top();
                let l = self.pop().top();
                let popped = self.pop().pop();
                let rest = if self.answered is None {
                    popped.read_text(l).read_text(r)
                } else {
                    popped
                };
                if operator.kind == BinaryOperator::Add && (joined_bytes(l, r) matches Some(extra)
                    && self.would_cross(extra)) {
                    Turn::Halt(rest, StopView::OutOfMemory(operator.span))
                } else {
                    let made = binary(p, left, operator, right, l, r, self.answered);
                    rest.concluded(made, rest.give(l).give(r).push(frame))
                }
            },
            Frame::BuildArray { count, .. } => Turn::Go(
                MachineView {
                    heap: self.heap.allocated(SlotView::Array { items: self.tops(count as int), version: 0 }),
                    ..self.pops(count as int)
                }.give(RtView::Array(self.heap.next())).built(),
            ),
            Frame::BuildObject(id) => match p.expr(id).kind {
                ExpressionKind::Object { entries, .. } => {
                    let values = self.tops(entries@.len() as int);
                    Turn::Go(
                        MachineView {
                            heap: self.heap.allocated(
                                SlotView::Object {
                                    entries: literal_entries(p, id, values, values.len() as int),
                                    version: 0,
                                },
                            ),
                            ..self.pops(entries@.len() as int)
                        }.give(RtView::Object(self.heap.next())).built(),
                    )
                },
                _ => Turn::Fail(malformed(p.expr(id).span)),
            },
            Frame::Link { chain, index, in_target } => self.link(p, chain, index, in_target),
            Frame::IndexRead { chain, index, in_target } => self.index_read(p, chain, index, in_target),
            Frame::AssignName(target) => match p.expr(target).kind {
                ExpressionKind::Identifier(name) => match self.heap.assigned(self.scope, name.name@, self.top()) {
                    Some(heap) => Turn::Go(MachineView { heap, ..self.pop() }),
                    None => Turn::Fail(undeclared_assignment(name.name@, name.span)),
                },
                _ => Turn::Fail(malformed(p.expr(target).span)),
            },
            Frame::AssignMember(target) => self.member_assigned(p, target),
            Frame::Branch { at, index } => if self.heap.truthy(self.top()) {
                match statement_at(p, at).kind {
                    StatementKind::If { branches, .. } => if index < branches@.len() {
                        Turn::Go(self.pop().entered(p, branches@[index as int].body))
                    } else {
                        Turn::Go(self.pop())
                    },
                    _ => Turn::Go(self.pop()),
                }
            } else {
                Turn::Go(self.pop().branched(p, at, index + 1))
            },
            Frame::Loop(state) => self.advanced(p, state),
            Frame::LoopTest(state) => if self.heap.truthy(self.top()) {
                Turn::Go(self.pop().push(Frame::Loop(state)).entered(p, loop_body(state.kind)))
            } else {
                Turn::Go(self.pop())
            },
            Frame::ForStart(at) => self.for_started(p, at),
            Frame::Invoke { chain, index, in_target, arguments } => self.invoked(p, chain, index, in_target, arguments),
            Frame::CallEnd { outer_scope, values, chain, index, in_target } => Turn::Go(
                self.call_ended(outer_scope, values, chain, index, in_target, RtView::Null),
            ),
            Frame::HostCall { chain, in_target } => self.host_called(p, chain, in_target),
        }
    }

    /// The machine with its top frame taken off and noted as what is running.
    pub open spec fn taken(self) -> MachineView {
        let frame = self.frames.last();
        MachineView {
            frames: self.frames.drop_last(),
            site: if site_of(frame) is Unknown { self.site } else { site_of(frame) },
            ..self
        }
    }

    /// What a frame that fails leaves of the machine: the operands that it took are gone and the text
    /// that it read is counted, and the rest is as it was, the heap among it.
    pub open spec fn failed(self, p: Program, frame: Frame) -> MachineView {
        match frame {
            Frame::Return(_) => self.pop(),
            Frame::Unary { .. } => if self.answered is None {
                self.pop().read_text(self.top())
            } else {
                self.pop()
            },
            Frame::Binary { .. } => if self.answered is None {
                self.pop().pop().read_text(self.pop().top()).read_text(self.top())
            } else {
                self.pop().pop()
            },
            Frame::Link { .. } => self.unlinked(),
            Frame::IndexRead { .. } => self.pop().pop().read_text(self.top()),
            Frame::AssignName(_) => self.pop(),
            Frame::AssignMember(target) => self.unassigned(p, target),
            Frame::ForStart(_) => self.pop(),
            Frame::Invoke { chain, index, arguments, .. } => self.uncalled(p, chain, index, arguments),
            Frame::HostCall { chain, .. } => self.unsent(p, chain),
            _ => self,
        }
    }

    /// What a link that cannot be applied leaves: a receiver that is `null` stays, any other is gone.
    pub open spec fn unlinked(self) -> MachineView {
        if self.top() is Null {
            self
        } else {
            self.pop()
        }
    }

    /// What a store that fails leaves: the value, the key where there is one, and the receiver are
    /// gone.
    pub open spec fn unassigned(self, p: Program, target: ExprId) -> MachineView {
        match p.expr(target).kind {
            ExpressionKind::Access { links, .. } => if links@.len() == 0 {
                self.pop()
            } else {
                match links@.last().kind {
                    AccessKind::Property(_) => self.pop().pop(),
                    AccessKind::Index { .. } => self.pop().pop().pop().read_text(self.pop().top()),
                    AccessKind::Call { .. } => self.pop(),
                }
            },
            _ => self.pop(),
        }
    }

    /// What a call that fails leaves: the function and its arguments are gone.
    pub open spec fn uncalled(self, p: Program, chain: Chain, index: usize, arguments: usize) -> MachineView {
        if index >= chain_links(p, chain).len() {
            self
        } else {
            self.pops(arguments as int).pop()
        }
    }

    /// What a host call that fails leaves: its arguments are gone.
    pub open spec fn unsent(self, p: Program, chain: Chain) -> MachineView {
        let links = chain_links(p, chain);
        match p.expr(chain_base(p, chain)).kind {
            ExpressionKind::Identifier(_) => if links.len() == 0 {
                self
            } else {
                match links[0].kind {
                    AccessKind::Call { arguments, .. } => self.pops(arguments@.len() as int),
                    _ => self,
                }
            },
            _ => self,
        }
    }

    /// Run at most `fuel` frames: until the Script ends, calls the host, asks, or the meter stops it.
    pub open spec fn run(self, p: Program, fuel: nat) -> Turn
        decreases fuel,
    {
        if self.frames.len() == 0 {
            Turn::Halt(self, StopView::Finished(ValueView::Null))
        } else if fuel == 0 {
            Turn::Halt(MachineView { work: 0, ..self }, StopView::Paused(site_span(p, self.site)))
        } else {
            let taken = self.taken();
            let span = site_span(p, taken.site);
            match taken.step(p, self.frames.last()) {
                Turn::Fail(failure) => Turn::Fail(failure),
                Turn::Halt(after, stop) => match after.exceeded(span) {
                    Some(crossed) => Turn::Halt(after, crossed),
                    None => Turn::Halt(after, stop),
                },
                Turn::Go(after) => match after.exceeded(span) {
                    Some(crossed) => Turn::Halt(after, crossed),
                    None => {
                        let worked = MachineView { work: added(after.work, 1), ..after };
                        if (worked.meter.slice matches Some(slice) && worked.work >= slice) && worked.frames.len() > 0 {
                            Turn::Halt(MachineView { work: 0, ..worked }, StopView::Paused(span))
                        } else {
                            worked.run(p, (fuel - 1) as nat)
                        }
                    },
                },
            }
        }
    }

    /// What a run of at most `fuel` frames leaves of the machine when one of them fails.
    pub open spec fn failing(self, p: Program, fuel: nat) -> MachineView
        decreases fuel,
    {
        if self.frames.len() == 0 || fuel == 0 {
            self
        } else {
            match self.taken().step(p, self.frames.last()) {
                Turn::Fail(_) => self.taken().failed(p, self.frames.last()),
                Turn::Halt(after, _) => after,
                Turn::Go(after) => MachineView { work: added(after.work, 1), ..after }.failing(p, (fuel - 1) as nat),
            }
        }
    }

    /// Run on from a stop. A ceiling that is already crossed stops the machine before a step.
    pub open spec fn execute(self, p: Program) -> Turn {
        match self.exceeded(site_span(p, self.site)) {
            Some(crossed) => Turn::Halt(self, crossed),
            None => self.run(p, u64::MAX as nat),
        }
    }
}

/// The name that the first link of a chain calls, when its base is a bare name.
pub open spec fn host_callee(p: Program, base: ExprId, links: Seq<AccessLink>, end: int) -> Option<Seq<char>> {
    if 1 <= end <= links.len() && links[0].kind is Call {
        match p.expr(base).kind {
            ExpressionKind::Identifier(name) => Some(name.name@),
            _ => None,
        }
    } else {
        None
    }
}

/// The element of a collection under a key.
pub open spec fn element(
    heap: HeapView,
    p: Program,
    receiver: RtView,
    key: RtView,
    link: AccessLink,
    key_expression: ExprId,
) -> Result<RtView, DiagnosticView> {
    match (receiver, key) {
        (RtView::Array(array), RtView::Number(n)) => Ok(
            match position_of(n) {
                Some(i) => match heap.array_get(array, i) {
                    Some(value) => value,
                    None => RtView::Null,
                },
                None => RtView::Null,
            },
        ),
        (RtView::Object(object), RtView::String(k, _)) => Ok(
            match heap.object_get(object, k) {
                Some(value) => value,
                None => RtView::Null,
            },
        ),
        (RtView::Array(_), _) => Err(wrong_key(receiver, key, p.expr(key_expression).span)),
        (RtView::Object(_), _) => Err(wrong_key(receiver, key, p.expr(key_expression).span)),
        _ => Err(not_indexable(receiver, link.span)),
    }
}

/// The heap with a value stored at a number's position.
pub open spec fn stored(heap: HeapView, array: SlotId, n: u64, value: RtView) -> Option<HeapView> {
    match position_of(n) {
        Some(i) => heap.array_store(array, i, value),
        None => None,
    }
}

pub open spec fn arity_message(passed: nat, taken: nat) -> Seq<char> {
    "this call passes "@ + decimal(passed) + " argument"@ + (if passed == 1 { ""@ } else { "s"@ })
        + ", but the function takes "@ + decimal(taken)
}

/// The heap with the first `n` parameters of a function bound to their arguments.
pub open spec fn bound(heap: HeapView, scope: SlotId, function: Function, values: Seq<RtView>, n: int) -> HeapView
    decreases n,
{
    if n <= 0 {
        heap
    } else {
        bound(heap, scope, function, values, n - 1).declared(scope, function.parameters@[n - 1].name@, values[n - 1])
    }
}

/// The next item of a `for`: a key of an object as a new string, or an element of an array.
pub open spec fn iterated(heap: HeapView, collection: SlotId, index: usize, over_keys: bool) -> Option<RtView> {
    if over_keys {
        if index < heap.entries(collection).len() {
            Some(RtView::String(heap.entries(collection)[index as int].0, heap.issued))
        } else {
            None
        }
    } else {
        heap.array_get(collection, index as int)
    }
}

/// The arguments of a host call from `k` on, detached, or the failure of the first that has no form
/// outside.
pub open spec fn detached_arguments(
    heap: HeapView,
    p: Program,
    name: Seq<char>,
    values: Seq<RtView>,
    ids: Seq<ExprId>,
    k: int,
) -> Result<Seq<ArgumentView>, DiagnosticView>
    decreases values.len() - k,
{
    if k < 0 || k >= values.len() || k >= ids.len() {
        Ok(Seq::empty())
    } else {
        let span = p.expr(ids[k]).span;
        match detach_value(heap, values[k], Set::empty()) {
            Ok(value) => match detached_arguments(heap, p, name, values, ids, k + 1) {
                Ok(rest) => Ok(seq![ArgumentView { value, span }] + rest),
                Err(failure) => Err(failure),
            },
            Err(DetachFailure::Cycle) => Err(
                bad_argument(Code::CYCLIC_ARGUMENT, values[k], name, "it contains a value that refers back to itself"@, span),
            ),
            Err(DetachFailure::Function) => Err(
                bad_argument(
                    Code::FUNCTION_ARGUMENT,
                    values[k],
                    name,
                    if values[k] is Function {
                        "a function has no wire representation"@
                    } else {
                        "it contains a function, which has no wire representation"@
                    },
                    span,
                ),
            ),
        }
    }
}

pub open spec fn bad_argument(code: &'static str, value: RtView, name: Seq<char>, reason: Seq<char>, span: Span) -> DiagnosticView {
    error_of(
        Category::Type,
        code,
        "cannot pass this "@ + kind_of(value) + " to `"@ + name + "`: "@ + reason
            + ", and a host call's arguments must be data the Backend can receive"@,
        span,
    )
}

} // verus!

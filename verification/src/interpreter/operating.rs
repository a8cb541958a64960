//! What the operators say of the values that they are given.

use vstd::prelude::*;
use vstd::arithmetic::power2::lemma_pow2_adds;
use vstd::arithmetic::power2::lemma_pow2_pos;
use vstd::arithmetic::power2::lemma2_to64;
use vstd::arithmetic::power2::lemma2_to64_rest;
use vstd::arithmetic::power2::pow2;
use crate::ast::BinaryAt;
use crate::ast::BinaryOperator;
use crate::ast::ExprId;
use crate::ast::Program;
use crate::ast::UnaryAt;
use crate::ast::UnaryOperator;
use crate::diagnostics::Category;
use crate::diagnostics::Code;
use crate::diagnostics::Severity;
use crate::interpreter::heap::HeapView;
use crate::interpreter::heap::RtView;
use crate::interpreter::semantics::AnswerView;
use crate::interpreter::semantics::Made;
use crate::interpreter::semantics::OperandView;
use crate::interpreter::semantics::Operation;
use crate::interpreter::semantics::QuestionView;
use crate::interpreter::semantics::binary;
use crate::interpreter::semantics::unary;
use crate::number::EXACT_INTEGER;
use crate::number::HIDDEN;
use crate::number::SIGN;
use crate::number::exact_integer;
use crate::number::exponent;
use crate::number::fraction;
use crate::number::integer_bits;
use crate::number::is_finite_bits;
use crate::number::law_integer_bits;
use crate::number::lemma_scaled;
use crate::number::magnitude;
use crate::number::whole_magnitude;
use crate::numeral::converts;
use crate::text::precedes;

verus! {

/// The value of a finite number without its sign, in units of two to the power of minus 1074: below the
/// smallest exponent the fraction alone, and above it the hidden bit and the fraction, shifted by the exponent.
pub open spec fn units(bits: u64) -> int {
    if exponent(bits) == 0 {
        fraction(bits)
    } else {
        (HIDDEN + fraction(bits)) * pow2((exponent(bits) - 1) as nat)
    }
}

/// The value of a finite number, in units of two to the power of minus 1074.
pub open spec fn value(bits: u64) -> int {
    if bits >= SIGN {
        -units(bits)
    } else {
        units(bits)
    }
}

proof fn lemma_pow2_less(a: nat, b: nat)
    requires
        a < b,
    ensures
        2 * pow2(a) <= pow2(b),
        pow2(a) > 0,
{
    lemma2_to64();
    lemma_pow2_pos(a);
    let more = (b - a - 1) as nat;
    lemma_pow2_adds(a, 1);
    lemma_pow2_adds(a + 1, more);
    lemma_pow2_pos(more);
    assert(pow2(a + 1) * pow2(more) >= pow2(a + 1)) by (nonlinear_arith)
        requires
            pow2(more) >= 1,
            pow2(a + 1) >= 0,
    ;
}

/// Of two numbers without their signs, the one with the lower bits has the lower value.
proof fn lemma_units_grow(a: u64, b: u64)
    requires
        magnitude(a) < magnitude(b),
    ensures
        0 <= units(a) < units(b),
{
    let h = HIDDEN as int;
    let (x, y) = (magnitude(a) as int, magnitude(b) as int);
    let (e, f) = (exponent(a), fraction(a));
    let (d, g) = (exponent(b), fraction(b));
    vstd::arithmetic::div_mod::lemma_fundamental_div_mod(x, h);
    vstd::arithmetic::div_mod::lemma_fundamental_div_mod(y, h);
    assert(0 <= f < h && 0 <= g < h && 0 <= e && 0 <= d);
    assert(e <= d) by (nonlinear_arith)
        requires
            x == h * e + f,
            y == h * d + g,
            x < y,
            0 <= f < h,
            0 <= g < h,
    ;
    if e == d {
        assert(f < g) by (nonlinear_arith)
            requires
                x == h * e + f,
                y == h * d + g,
                x < y,
                e == d,
        ;
        if e > 0 {
            let unit = pow2((e - 1) as nat);
            lemma_pow2_pos((e - 1) as nat);
            assert(0 <= (h + f) * unit < (h + g) * unit) by (nonlinear_arith)
                requires
                    0 <= f < g,
                    unit > 0,
                    h > 0,
            ;
        }
    } else {
        let unit = pow2((d - 1) as nat);
        lemma_pow2_pos((d - 1) as nat);
        assert((h + g) * unit >= h * unit && h * unit >= h) by (nonlinear_arith)
            requires
                g >= 0,
                unit >= 1,
                h > 0,
        ;
        if e > 0 {
            let small = pow2((e - 1) as nat);
            lemma_pow2_less((e - 1) as nat, (d - 1) as nat);
            assert(0 <= (h + f) * small < h * unit) by (nonlinear_arith)
                requires
                    0 <= f < h,
                    2 * small <= unit,
                    small > 0,
            ;
        }
    }
}

/// A number without its sign has no value below zero, and the value zero only where it is zero.
proof fn lemma_units_zero(a: u64)
    ensures
        units(a) >= 0,
        units(a) == 0 <==> magnitude(a) == 0,
{
    if magnitude(a) > 0 {
        lemma_units_grow(0, a);
    } else {
        assert(0int / HIDDEN as int == 0) by (nonlinear_arith)
            requires
                HIDDEN == 0x10_0000_0000_0000u64,
        ;
    }
}

/// Numbers compare as their values do.
proof fn lemma_values(a: u64, b: u64)
    ensures
        value(a) < value(b) <==> crate::number::rank(a) < crate::number::rank(b),
        value(a) == value(b) <==> crate::number::rank(a) == crate::number::rank(b),
{
    lemma_units_zero(a);
    lemma_units_zero(b);
    if magnitude(a) < magnitude(b) {
        lemma_units_grow(a, b);
    } else if magnitude(b) < magnitude(a) {
        lemma_units_grow(b, a);
    } else {
        assert(units(a) == units(b));
    }
}

/// A whole number has the value that it is.
pub proof fn law_value_of_an_integer(bits: u64, n: int)
    requires
        exact_integer(bits) == Some(n),
    ensures
        value(bits) == n * pow2(1074),
{
    lemma_units_zero(bits);
    let m = whole_magnitude(bits)->0;
    if magnitude(bits) != 0 {
        lemma_scaled(bits, m);
        let e = exponent(bits);
        let significant = HIDDEN + fraction(bits);
        lemma2_to64();
        if e == 1076 {
            lemma_pow2_adds(1, 1074);
            assert(significant * pow2(1075) == m * pow2(1074)) by (nonlinear_arith)
                requires
                    significant == HIDDEN,
                    m == EXACT_INTEGER,
                    EXACT_INTEGER == 2 * HIDDEN,
                    pow2(1075) == 2 * pow2(1074),
            ;
        } else {
            lemma_pow2_adds((1075 - e) as nat, (e - 1) as nat);
            assert(significant * pow2((e - 1) as nat) == m * pow2(1074)) by (nonlinear_arith)
                requires
                    significant == m * pow2((1075 - e) as nat),
                    pow2(1074) == pow2((1075 - e) as nat) * pow2((e - 1) as nat),
            ;
        }
        assert((-(m as int)) * pow2(1074) == -(m * pow2(1074))) by (nonlinear_arith);
    } else {
        assert(0 * pow2(1074) == 0) by (nonlinear_arith);
    }
}

/// What an operator makes of two numbers.
pub open spec fn of_numbers(kind: BinaryOperator, at: BinaryAt, p: Program, left: ExprId, right: ExprId, a: u64, b: u64) -> Made {
    binary(p, left, BinaryAt { kind, ..at }, right, RtView::Number(a), RtView::Number(b), None)
}

/// Finite numbers compare as their values do: `<`, `<=`, `>`, `>=`, `==` and `!=` each say what the sign says
/// of the two values.
pub proof fn law_numbers_compare_by_value(p: Program, left: ExprId, right: ExprId, at: BinaryAt, a: u64, b: u64)
    requires
        is_finite_bits(a),
        is_finite_bits(b),
    ensures
        of_numbers(BinaryOperator::Less, at, p, left, right, a, b) == Made::Value(RtView::Bool(value(a) < value(b))),
        of_numbers(BinaryOperator::LessEqual, at, p, left, right, a, b) == Made::Value(RtView::Bool(value(a) <= value(b))),
        of_numbers(BinaryOperator::Greater, at, p, left, right, a, b) == Made::Value(RtView::Bool(value(a) > value(b))),
        of_numbers(BinaryOperator::GreaterEqual, at, p, left, right, a, b) == Made::Value(RtView::Bool(value(a) >= value(b))),
        of_numbers(BinaryOperator::Equal, at, p, left, right, a, b) == Made::Value(RtView::Bool(value(a) == value(b))),
        of_numbers(BinaryOperator::NotEqual, at, p, left, right, a, b) == Made::Value(RtView::Bool(value(a) != value(b))),
{
    lemma_values(a, b);
}

/// Of two finite numbers exactly one is less, or they are equal; and each comparison is the other one the
/// other way round.
pub proof fn law_numbers_are_in_order(p: Program, left: ExprId, right: ExprId, at: BinaryAt, a: u64, b: u64)
    requires
        is_finite_bits(a),
        is_finite_bits(b),
    ensures
        ({
            let less = of_numbers(BinaryOperator::Less, at, p, left, right, a, b) == Made::Value(RtView::Bool(true));
            let equal = of_numbers(BinaryOperator::Equal, at, p, left, right, a, b) == Made::Value(RtView::Bool(true));
            let greater = of_numbers(BinaryOperator::Greater, at, p, left, right, a, b) == Made::Value(RtView::Bool(true));
            &&& less || equal || greater
            &&& !(less && equal) && !(less && greater) && !(equal && greater)
            &&& greater <==> of_numbers(BinaryOperator::Less, at, p, left, right, b, a) == Made::Value(RtView::Bool(true))
            &&& of_numbers(BinaryOperator::LessEqual, at, p, left, right, a, b) == Made::Value(RtView::Bool(less || equal))
            &&& of_numbers(BinaryOperator::GreaterEqual, at, p, left, right, a, b) == Made::Value(RtView::Bool(greater || equal))
            &&& of_numbers(BinaryOperator::NotEqual, at, p, left, right, a, b) == Made::Value(RtView::Bool(!equal))
        }),
{
    law_numbers_compare_by_value(p, left, right, at, a, b);
    law_numbers_compare_by_value(p, left, right, at, b, a);
}

/// Whole numbers compare as integers do.
pub proof fn law_integers_compare(p: Program, left: ExprId, right: ExprId, at: BinaryAt, x: int, y: int)
    requires
        -EXACT_INTEGER <= x <= EXACT_INTEGER,
        -EXACT_INTEGER <= y <= EXACT_INTEGER,
    ensures
        of_numbers(BinaryOperator::Less, at, p, left, right, integer_bits(x), integer_bits(y)) == Made::Value(
            RtView::Bool(x < y),
        ),
        of_numbers(BinaryOperator::LessEqual, at, p, left, right, integer_bits(x), integer_bits(y)) == Made::Value(
            RtView::Bool(x <= y),
        ),
        of_numbers(BinaryOperator::Greater, at, p, left, right, integer_bits(x), integer_bits(y)) == Made::Value(
            RtView::Bool(x > y),
        ),
        of_numbers(BinaryOperator::GreaterEqual, at, p, left, right, integer_bits(x), integer_bits(y)) == Made::Value(
            RtView::Bool(x >= y),
        ),
        of_numbers(BinaryOperator::Equal, at, p, left, right, integer_bits(x), integer_bits(y)) == Made::Value(
            RtView::Bool(x == y),
        ),
{
    law_integer_bits(x);
    law_integer_bits(y);
    law_value_of_an_integer(integer_bits(x), x);
    law_value_of_an_integer(integer_bits(y), y);
    law_numbers_compare_by_value(p, left, right, at, integer_bits(x), integer_bits(y));
    let unit = pow2(1074);
    lemma_pow2_pos(1074);
    assert((x < y <==> x * unit < y * unit) && (x == y <==> x * unit == y * unit)) by (nonlinear_arith)
        requires
            unit > 0,
    ;
}

/// What an operator makes of two values, with what was answered.
pub open spec fn made(
    kind: BinaryOperator,
    at: BinaryAt,
    p: Program,
    left: ExprId,
    right: ExprId,
    l: RtView,
    r: RtView,
    answer: Option<AnswerView>,
) -> Made {
    binary(p, left, BinaryAt { kind, ..at }, right, l, r, answer)
}

proof fn lemma_first_difference(a: Seq<char>, b: Seq<char>, k: int)
    requires
        0 <= k <= a.len(),
        k <= b.len(),
        forall|i: int| 0 <= i < k ==> a[i] == b[i],
        k == a.len() || k == b.len() || a[k] != b[k],
    ensures
        precedes(a, b) == (k < b.len() && (k == a.len() || (a[k] as u32) < (b[k] as u32))),
    decreases k,
{
    if k > 0 {
        let (x, y) = (a.drop_first(), b.drop_first());
        assert forall|i: int| 0 <= i < k - 1 implies x[i] == y[i] by {
            assert(a[i + 1] == b[i + 1]);
        }
        if k < a.len() && k < b.len() {
            assert(x[k - 1] == a[k] && y[k - 1] == b[k]);
        }
        lemma_first_difference(x, y, k - 1);
        assert(a[0] == b[0]);
    }
}

/// Texts compare by their first difference: the one that ends there, or has the lower code point there, is
/// less.
pub proof fn law_texts_compare(
    p: Program,
    left: ExprId,
    right: ExprId,
    at: BinaryAt,
    a: Seq<char>,
    x: u64,
    b: Seq<char>,
    y: u64,
    k: int,
    answer: Option<AnswerView>,
)
    requires
        0 <= k <= a.len(),
        k <= b.len(),
        forall|i: int| 0 <= i < k ==> a[i] == b[i],
        k == a.len() || k == b.len() || a[k] != b[k],
    ensures
        ({
            let less = k < b.len() && (k == a.len() || (a[k] as u32) < (b[k] as u32));
            let greater = k < a.len() && (k == b.len() || (b[k] as u32) < (a[k] as u32));
            let (l, r) = (RtView::String(a, x), RtView::String(b, y));
            &&& made(BinaryOperator::Less, at, p, left, right, l, r, answer) == Made::Value(RtView::Bool(less))
            &&& made(BinaryOperator::LessEqual, at, p, left, right, l, r, answer) == Made::Value(RtView::Bool(!greater))
            &&& made(BinaryOperator::Greater, at, p, left, right, l, r, answer) == Made::Value(RtView::Bool(greater))
            &&& made(BinaryOperator::GreaterEqual, at, p, left, right, l, r, answer) == Made::Value(RtView::Bool(!less))
            &&& made(BinaryOperator::Equal, at, p, left, right, l, r, answer) == Made::Value(
                RtView::Bool(k == a.len() && k == b.len()),
            )
            &&& made(BinaryOperator::NotEqual, at, p, left, right, l, r, answer) == Made::Value(
                RtView::Bool(!(k == a.len() && k == b.len())),
            )
        }),
{
    lemma_first_difference(a, b, k);
    lemma_first_difference(b, a, k);
    if k == a.len() && k == b.len() {
        assert(a =~= b);
    }
}

/// Values of one kind are equal when they are the same: `null`, booleans, and collections and functions by
/// where they are. Values of two kinds are not, but for a number and the text of one. `!=` says the opposite.
pub proof fn law_equality_of_kinds(
    p: Program,
    left: ExprId,
    right: ExprId,
    at: BinaryAt,
    l: RtView,
    r: RtView,
    answer: Option<AnswerView>,
)
    ensures
        l is Null && r is Null ==> made(BinaryOperator::Equal, at, p, left, right, l, r, answer) == Made::Value(
            RtView::Bool(true),
        ),
        l is Bool && r is Bool || l is Array && r is Array || l is Object && r is Object || l is Function && r is Function
            ==> made(BinaryOperator::Equal, at, p, left, right, l, r, answer) == Made::Value(RtView::Bool(l == r)),
        l is Null != r is Null || l is Bool != r is Bool || l is Array != r is Array || l is Object != r is Object || l is Function
            != r is Function ==> made(BinaryOperator::Equal, at, p, left, right, l, r, answer) == Made::Value(
            RtView::Bool(false),
        ),
        match made(BinaryOperator::Equal, at, p, left, right, l, r, answer) {
            Made::Value(RtView::Bool(same)) => made(BinaryOperator::NotEqual, at, p, left, right, l, r, answer)
                == Made::Value(RtView::Bool(!same)),
            other => made(BinaryOperator::NotEqual, at, p, left, right, l, r, answer) == other,
        },
{
}

/// Arithmetic on two numbers is asked for by its own name, with the operands in their order; what comes back is
/// the result if it is finite. Only `/` and `%` by zero, of either sign, fail before that.
pub proof fn law_arithmetic(
    p: Program,
    left: ExprId,
    right: ExprId,
    at: BinaryAt,
    a: u64,
    b: u64,
    answer: AnswerView,
    kind: BinaryOperator,
    operation: Operation,
)
    requires
        (kind == BinaryOperator::Add && operation == Operation::Add) || (kind == BinaryOperator::Subtract && operation
            == Operation::Subtract) || (kind == BinaryOperator::Multiply && operation == Operation::Multiply) || (kind
            == BinaryOperator::Divide && operation == Operation::Divide) || (kind == BinaryOperator::Remainder && operation
            == Operation::Remainder),
    ensures
        made(kind, at, p, left, right, RtView::Number(a), RtView::Number(b), None) == Made::Ask(
            QuestionView { operation, left: OperandView::Number(a), right: OperandView::Number(b) },
        ),
        ({
            let done = made(kind, at, p, left, right, RtView::Number(a), RtView::Number(b), Some(answer));
            let by_zero = (kind == BinaryOperator::Divide || kind == BinaryOperator::Remainder) && value(b) == 0;
            &&& by_zero ==> (done matches Made::Fail(d) && d.code == Code::DIVISION_BY_ZERO@ && d.severity == Severity::Error
                && d.category == Category::Arithmetic && d.span == p.expr(right).span)
            &&& !by_zero && is_finite_bits(answer.result) ==> done == Made::Value(RtView::Number(answer.result))
            &&& !by_zero && !is_finite_bits(answer.result) ==> (done matches Made::Fail(d) && d.code == Code::NON_FINITE@
                && d.severity == Severity::Error && d.category == Category::Arithmetic && d.span == at.span)
        }),
{
    lemma_units_zero(b);
}

/// `null` counts as zero and `false` and `true` as zero and one, on either side of an operator that takes
/// numbers, whatever number is on the other side.
pub proof fn law_null_and_booleans_count_as_numbers(
    p: Program,
    left: ExprId,
    right: ExprId,
    at: BinaryAt,
    kind: BinaryOperator,
    plain: RtView,
    n: int,
    b: u64,
    answer: Option<AnswerView>,
)
    requires
        plain == RtView::Null && n == 0 || plain == RtView::Bool(false) && n == 0 || plain == RtView::Bool(true) && n == 1,
        kind != BinaryOperator::Equal,
        kind != BinaryOperator::NotEqual,
        kind != BinaryOperator::And,
        kind != BinaryOperator::Or,
    ensures
        made(kind, at, p, left, right, plain, RtView::Number(b), answer) == made(
            kind,
            at,
            p,
            left,
            right,
            RtView::Number(integer_bits(n)),
            RtView::Number(b),
            answer,
        ),
        made(kind, at, p, left, right, RtView::Number(b), plain, answer) == made(
            kind,
            at,
            p,
            left,
            right,
            RtView::Number(b),
            RtView::Number(integer_bits(n)),
            answer,
        ),
{
    assert(integer_bits(0) == 0);
    assert(integer_bits(1) == crate::number::ONE) by {
        lemma_one();
        crate::number::law_exact_integer_bits(crate::number::ONE);
    }
}

/// The bits of one are those of the whole number one.
proof fn lemma_one()
    ensures
        exact_integer(crate::number::ONE) == Some(1int),
{
    lemma2_to64();
    lemma2_to64_rest();
    let bits = crate::number::ONE;
    assert(magnitude(bits) == bits);
    assert(0x3ff0_0000_0000_0000int / 0x10_0000_0000_0000int == 0x3ff && 0x3ff0_0000_0000_0000int % 0x10_0000_0000_0000int == 0)
        by (nonlinear_arith);
    assert(exponent(bits) == 1023 && fraction(bits) == 0);
    assert(pow2(52) == HIDDEN);
    assert(HIDDEN as int % HIDDEN as int == 0 && HIDDEN as int / HIDDEN as int == 1) by (nonlinear_arith)
        requires
            HIDDEN > 0,
    ;
}

/// `+` with a text on either side joins: what is on the left, as text, before what is on the right. `null` and
/// the booleans are spelled as they are written; a number is asked for.
pub proof fn law_joining(
    p: Program,
    left: ExprId,
    right: ExprId,
    at: BinaryAt,
    a: Seq<char>,
    x: u64,
    b: Seq<char>,
    y: u64,
    n: u64,
    answer: AnswerView,
)
    ensures
        ({
            let (l, r) = (RtView::String(a, x), RtView::String(b, y));
            let none = None::<AnswerView>;
            &&& made(BinaryOperator::Add, at, p, left, right, l, r, none) == Made::Text(a + b)
            &&& made(BinaryOperator::Add, at, p, left, right, l, RtView::Null, none) == Made::Text(a + "null"@)
            &&& made(BinaryOperator::Add, at, p, left, right, RtView::Null, r, none) == Made::Text("null"@ + b)
            &&& made(BinaryOperator::Add, at, p, left, right, l, RtView::Bool(true), none) == Made::Text(a + "true"@)
            &&& made(BinaryOperator::Add, at, p, left, right, RtView::Bool(true), r, none) == Made::Text("true"@ + b)
            &&& made(BinaryOperator::Add, at, p, left, right, l, RtView::Bool(false), none) == Made::Text(a + "false"@)
            &&& made(BinaryOperator::Add, at, p, left, right, RtView::Bool(false), r, none) == Made::Text("false"@ + b)
            &&& made(BinaryOperator::Add, at, p, left, right, l, RtView::Number(n), none) == Made::Ask(
                QuestionView { operation: Operation::Spell, left: OperandView::Text(a), right: OperandView::Number(n) },
            )
            &&& made(BinaryOperator::Add, at, p, left, right, RtView::Number(n), r, none) == Made::Ask(
                QuestionView { operation: Operation::Spell, left: OperandView::Number(n), right: OperandView::Text(b) },
            )
            &&& made(BinaryOperator::Add, at, p, left, right, l, RtView::Number(n), Some(answer)) == Made::Text(
                a + answer.right_text,
            )
            &&& made(BinaryOperator::Add, at, p, left, right, RtView::Number(n), r, Some(answer)) == Made::Text(
                answer.left_text + b,
            )
        }),
{
}

/// A collection or a function is no operand of arithmetic, ordering or joining: the operator fails on the first
/// side that does not fit, at that side.
pub proof fn law_collections_are_no_operands(
    p: Program,
    left: ExprId,
    right: ExprId,
    at: BinaryAt,
    kind: BinaryOperator,
    l: RtView,
    r: RtView,
    answer: Option<AnswerView>,
)
    requires
        kind != BinaryOperator::Equal,
        kind != BinaryOperator::NotEqual,
        kind != BinaryOperator::And,
        kind != BinaryOperator::Or,
    ensures
        l is Array || l is Object || l is Function ==> (made(kind, at, p, left, right, l, r, answer) matches Made::Fail(d)
            && d.code == Code::OPERAND_MISMATCH@ && d.category == Category::Type && d.severity == Severity::Error && d.span
            == p.expr(left).span),
        (l is Null || l is Bool || l is Number) && (r is Array || r is Object || r is Function) ==> (made(
            kind,
            at,
            p,
            left,
            right,
            l,
            r,
            answer,
        ) matches Made::Fail(d) && d.code == Code::OPERAND_MISMATCH@ && d.category == Category::Type && d.severity
            == Severity::Error && d.span == p.expr(right).span),
{
}

/// `!` says whether a value is falsy: `null`, `false`, zero of either sign, the empty text, and a collection
/// with nothing in it are; every other value is not.
pub proof fn law_not(p: Program, heap: HeapView, at: UnaryAt, operand: ExprId, v: RtView, answer: Option<AnswerView>)
    requires
        at.kind == UnaryOperator::Not,
    ensures
        unary(p, heap, at, operand, v, answer) == Made::Value(
            RtView::Bool(
                match v {
                    RtView::Null => true,
                    RtView::Bool(b) => !b,
                    RtView::Number(n) => value(n) == 0,
                    RtView::String(text, _) => text.len() == 0,
                    RtView::Array(id) => heap.elements(id).len() == 0,
                    RtView::Object(id) => heap.entries(id).len() == 0,
                    RtView::Function(_) => false,
                },
            ),
        ),
        heap.truthy(v) == match v {
            RtView::Null => false,
            RtView::Bool(b) => b,
            RtView::Number(n) => value(n) != 0,
            RtView::String(text, _) => text.len() > 0,
            RtView::Array(id) => heap.elements(id).len() > 0,
            RtView::Object(id) => heap.entries(id).len() > 0,
            RtView::Function(_) => true,
        },
{
    if let RtView::Number(n) = v {
        lemma_units_zero(n);
    }
}

/// `-` of a number has the opposite value.
pub proof fn law_negation(p: Program, heap: HeapView, at: UnaryAt, operand: ExprId, n: u64, answer: Option<AnswerView>)
    requires
        at.kind == UnaryOperator::Negate,
    ensures
        unary(p, heap, at, operand, RtView::Number(n), answer) matches Made::Value(RtView::Number(m)) && value(m)
            == -value(n) && m != n,
{
    let m = if n >= SIGN { (n - SIGN) as u64 } else { (n + SIGN) as u64 };
    assert(magnitude(m) == magnitude(n));
    assert(exponent(m) == exponent(n) && fraction(m) == fraction(n));
    assert(units(m) == units(n));
}

/// A number and a text are compared as numbers where the text is one: both are asked for in their order, and
/// the text's number is what was answered for its side. A text that is none equals no number.
pub proof fn law_numbers_and_texts_compare(
    p: Program,
    left: ExprId,
    right: ExprId,
    at: BinaryAt,
    n: u64,
    text: Seq<char>,
    x: u64,
    answer: AnswerView,
)
    requires
        is_finite_bits(n),
    ensures
        !converts(text) ==> made(BinaryOperator::Equal, at, p, left, right, RtView::Number(n), RtView::String(text, x), None)
            == Made::Value(RtView::Bool(false)),
        converts(text) ==> {
            let (number, string) = (RtView::Number(n), RtView::String(text, x));
            &&& made(BinaryOperator::Equal, at, p, left, right, number, string, None) == Made::Ask(
                QuestionView { operation: Operation::Convert, left: OperandView::Number(n), right: OperandView::Text(text) },
            )
            &&& made(BinaryOperator::Less, at, p, left, right, string, number, None) == Made::Ask(
                QuestionView { operation: Operation::Convert, left: OperandView::Text(text), right: OperandView::Number(n) },
            )
            &&& is_finite_bits(answer.right) ==> {
                &&& made(BinaryOperator::Equal, at, p, left, right, number, string, Some(answer)) == Made::Value(
                    RtView::Bool(value(n) == value(answer.right)),
                )
                &&& made(BinaryOperator::Less, at, p, left, right, number, string, Some(answer)) == Made::Value(
                    RtView::Bool(value(n) < value(answer.right)),
                )
                &&& made(BinaryOperator::Greater, at, p, left, right, number, string, Some(answer)) == Made::Value(
                    RtView::Bool(value(n) > value(answer.right)),
                )
            }
            &&& is_finite_bits(answer.left) ==> {
                &&& made(BinaryOperator::Equal, at, p, left, right, string, number, Some(answer)) == Made::Value(
                    RtView::Bool(value(answer.left) == value(n)),
                )
                &&& made(BinaryOperator::Less, at, p, left, right, string, number, Some(answer)) == Made::Value(
                    RtView::Bool(value(answer.left) < value(n)),
                )
                &&& made(BinaryOperator::LessEqual, at, p, left, right, string, number, Some(answer)) == Made::Value(
                    RtView::Bool(value(answer.left) <= value(n)),
                )
                &&& made(BinaryOperator::GreaterEqual, at, p, left, right, string, number, Some(answer)) == Made::Value(
                    RtView::Bool(value(answer.left) >= value(n)),
                )
            }
        },
{
    lemma_values(n, answer.right);
    lemma_values(answer.left, n);
}

} // verus!

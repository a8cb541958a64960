//! Number literals in text: the grammar, and which of them are finite.
//!
//! A text converts to a number when, between optional white space and behind one optional sign, it
//! is a number literal whose value rounds to a finite double.

use vstd::prelude::*;
use crate::text::chars_of;
use crate::text::text_of;

verus! {

/// The digits of the smallest value that rounds to infinity: half a unit past the largest finite
/// double. It has 309 digits before the point.
pub const OVERFLOW: &'static str =
    "179769313486231580793728971405303415079934132710037826936173778980444968292764750946649017977587207096330286416692887910946555547851940402630657488671505820681908902000708383676273854845817711531764475730270069855571366959622842914819860834936475292719074168444365510704342711559699508093042880177904174497792";

/// Characters with the White_Space property.
pub open spec fn is_space(c: char) -> bool {
    let n = c as u32;
    (9 <= n <= 13) || n == 0x20 || n == 0x85 || n == 0xa0 || n == 0x1680 || (0x2000 <= n <= 0x200a) || n == 0x2028
        || n == 0x2029 || n == 0x202f || n == 0x205f || n == 0x3000
}

fn space(c: char) -> (r: bool)
    ensures
        r == is_space(c),
{
    let n = c as u32;
    (9 <= n && n <= 13) || n == 0x20 || n == 0x85 || n == 0xa0 || n == 0x1680 || (0x2000 <= n && n <= 0x200a) || n
        == 0x2028 || n == 0x2029 || n == 0x202f || n == 0x205f || n == 0x3000
}

pub open spec fn is_digit(c: char) -> bool {
    '0' as u32 <= c as u32 <= '9' as u32
}

fn digit(c: char) -> (r: bool)
    ensures
        r == is_digit(c),
{
    let n = c as u32;
    48 <= n && n <= 57
}

/// The first character from `i` on that is no white space.
pub open spec fn trim_from(s: Seq<char>, i: int) -> int
    decreases s.len() - i,
{
    if i >= s.len() || !is_space(s[i]) {
        i
    } else {
        trim_from(s, i + 1)
    }
}

/// One past the last character before `i` that is no white space, but not before `start`.
pub open spec fn trim_to(s: Seq<char>, i: int, start: int) -> int
    decreases i,
{
    if i <= start || i <= 0 || !is_space(s[i - 1]) {
        i
    } else {
        trim_to(s, i - 1, start)
    }
}

/// The end of the run of digits that starts at `i`, within the first `end` characters.
pub open spec fn run_end(s: Seq<char>, i: int, end: int) -> int
    decreases end - i,
{
    if i >= end || !is_digit(s[i]) {
        i
    } else {
        run_end(s, i + 1, end)
    }
}

/// Where the parts of a number literal end: its whole digits, its fraction, and its exponent's
/// sign.
pub ghost struct Shape {
    pub whole: int,
    pub fraction: int,
    pub sign: int,
    pub end: int,
}

/// The shape of the characters `start..end` as a number literal, if they are one: digits, then an
/// optional point and digits, then an optional `e` or `E`, sign and digits.
pub open spec fn shape_of(s: Seq<char>, start: int, end: int) -> Option<Shape> {
    let whole = run_end(s, start, end);
    if whole == start {
        None
    } else {
        let dotted = whole < end && s[whole] == '.';
        let fraction = if dotted { run_end(s, whole + 1, end) } else { whole };
        if dotted && fraction == whole + 1 {
            None
        } else if fraction < end && (s[fraction] == 'e' || s[fraction] == 'E') {
            let signed = fraction + 1 < end && (s[fraction + 1] == '+' || s[fraction + 1] == '-');
            let sign = if signed { fraction + 2 } else { fraction + 1 };
            let last = run_end(s, sign, end);
            if last == sign || last != end {
                None
            } else {
                Some(Shape { whole, fraction, sign, end: last })
            }
        } else if fraction == end {
            Some(Shape { whole, fraction, sign: end, end })
        } else {
            None
        }
    }
}

/// The value of the digits `from..to`.
pub open spec fn digits_value(s: Seq<char>, from: int, to: int) -> int
    decreases to - from,
{
    if to <= from {
        0
    } else {
        digits_value(s, from, to - 1) * 10 + (s[to - 1] as u32 - '0' as u32)
    }
}

/// The exponent of a literal.
pub open spec fn exponent_of(s: Seq<char>, shape: Shape) -> int {
    let size = digits_value(s, shape.sign, shape.end);
    if shape.sign > shape.fraction + 1 && s[shape.sign - 1] == '-' {
        -size
    } else {
        size
    }
}

/// Digit `k` of a literal, the point left out, counted from its first: zero past its last.
pub open spec fn digit_at(s: Seq<char>, start: int, shape: Shape, k: int) -> char {
    if k < shape.whole - start {
        s[start + k]
    } else if start + k + 1 < shape.fraction {
        s[start + k + 1]
    } else {
        '0'
    }
}

/// How many digits a literal has before its exponent.
pub open spec fn digit_count(start: int, shape: Shape) -> int {
    if shape.fraction > shape.whole {
        shape.fraction - start - 1
    } else {
        shape.fraction - start
    }
}

/// The first digit from `k` on that is not zero.
pub open spec fn first_significant(s: Seq<char>, start: int, shape: Shape, k: int) -> int
    decreases digit_count(start, shape) - k,
{
    if k >= digit_count(start, shape) || digit_at(s, start, shape, k) != '0' {
        k
    } else {
        first_significant(s, start, shape, k + 1)
    }
}

/// Whether the digits from `z + k` on are at least the bound's from `k` on.
pub open spec fn reaches(s: Seq<char>, start: int, shape: Shape, z: int, bound: Seq<char>, k: int) -> bool
    decreases bound.len() - k,
{
    if k >= bound.len() {
        true
    } else if digit_at(s, start, shape, z + k) != bound[k] {
        (digit_at(s, start, shape, z + k) as u32) > (bound[k] as u32)
    } else {
        reaches(s, start, shape, z, bound, k + 1)
    }
}

/// Whether a literal's value rounds to a finite double. With its first significant digit taken as
/// the first behind a point, the value is that fraction times ten to the `point`; the bound's is
/// its own fraction times ten to the 309th.
pub open spec fn is_finite_literal(s: Seq<char>, start: int, shape: Shape) -> bool {
    let z = first_significant(s, start, shape, 0);
    let point = shape.whole - start - z + exponent_of(s, shape);
    z >= digit_count(start, shape) || point < 309 || (point == 309 && !reaches(s, start, shape, z, OVERFLOW@, 0))
}

/// Whether a text converts to a number.
pub open spec fn converts(s: Seq<char>) -> bool {
    let from = trim_from(s, 0);
    let to = trim_to(s, s.len() as int, from);
    let start = if from < to && (s[from] == '-' || s[from] == '+') { from + 1 } else { from };
    match shape_of(s, start, to) {
        Some(shape) => is_finite_literal(s, start, shape),
        None => false,
    }
}

proof fn lemma_run_end(s: Seq<char>, i: int, end: int)
    requires
        i <= end,
    ensures
        i <= run_end(s, i, end) <= end,
    decreases end - i,
{
    if i < end && is_digit(s[i]) {
        lemma_run_end(s, i + 1, end);
    }
}

fn find_run_end(s: &Vec<char>, i: usize, end: usize) -> (r: usize)
    requires
        i <= end <= s@.len(),
    ensures
        r == run_end(s@, i as int, end as int),
        i <= r <= end,
        forall|k: int| i <= k < r ==> is_digit(#[trigger] s@[k]),
{
    let mut k: usize = i;
    while k < end && digit(s[k])
        invariant
            i <= k <= end <= s@.len(),
            run_end(s@, i as int, end as int) == run_end(s@, k as int, end as int),
            forall|j: int| i <= j < k ==> is_digit(#[trigger] s@[j]),
        decreases end - k,
    {
        k = k + 1;
    }
    k
}

/// Where a literal's parts end.
struct Parts {
    whole: usize,
    fraction: usize,
    sign: usize,
    end: usize,
}

impl Parts {
    spec fn shape(self) -> Shape {
        Shape {
            whole: self.whole as int,
            fraction: self.fraction as int,
            sign: self.sign as int,
            end: self.end as int,
        }
    }
}

fn find_shape(s: &Vec<char>, start: usize, end: usize) -> (r: Option<Parts>)
    requires
        start <= end <= s@.len(),
    ensures
        match (r, shape_of(s@, start as int, end as int)) {
            (Some(parts), Some(shape)) => parts.shape() == shape && start < parts.whole <= parts.fraction <= end
                && parts.sign <= parts.end <= end && forall|k: int|
                parts.sign <= k < parts.end ==> is_digit(#[trigger] s@[k]),
            (None, None) => true,
            _ => false,
        },
{
    let whole = find_run_end(s, start, end);
    if whole == start {
        return None;
    }
    let dotted = whole < end && s[whole] == '.';
    let fraction: usize = if dotted {
        find_run_end(s, whole + 1, end)
    } else {
        whole
    };
    if dotted && fraction == whole + 1 {
        return None;
    }
    if fraction < end && (s[fraction] == 'e' || s[fraction] == 'E') {
        let signed = fraction + 1 < end && (s[fraction + 1] == '+' || s[fraction + 1] == '-');
        let sign: usize = if signed { fraction + 2 } else { fraction + 1 };
        let last = find_run_end(s, sign, end);
        if last == sign || last != end {
            return None;
        }
        Some(Parts { whole, fraction, sign, end: last })
    } else if fraction == end {
        Some(Parts { whole, fraction, sign: end, end })
    } else {
        None
    }
}

/// Where exponents stop being told apart.
const CAP: i128 = 1_000_000_000_000_000_000_000_000_000_000;

proof fn lemma_value_positive(s: Seq<char>, from: int, to: int)
    requires
        forall|k: int| from <= k < to ==> is_digit(#[trigger] s[k]),
    ensures
        digits_value(s, from, to) >= 0,
    decreases to - from,
{
    if from < to {
        lemma_value_positive(s, from, to - 1);
        assert(is_digit(s[to - 1]));
    }
}

fn capped_value(s: &Vec<char>, from: usize, to: usize) -> (r: i128)
    requires
        from <= to <= s@.len(),
        forall|k: int| from <= k < to ==> is_digit(#[trigger] s@[k]),
    ensures
        r == (if digits_value(s@, from as int, to as int) > CAP {
            CAP as int
        } else {
            digits_value(s@, from as int, to as int)
        }),
        0 <= r <= CAP,
{
    let mut value: i128 = 0;
    let mut k: usize = from;
    while k < to
        invariant
            from <= k <= to <= s@.len(),
            forall|k: int| from <= k < to ==> is_digit(#[trigger] s@[k]),
            0 <= value <= CAP,
            value == (if digits_value(s@, from as int, k as int) > CAP {
                CAP as int
            } else {
                digits_value(s@, from as int, k as int)
            }),
        decreases to - k,
    {
        proof {
            assert(is_digit(s@[k as int]));
            lemma_value_positive(s@, from as int, k as int);
        }
        let one: i128 = (s[k] as u32 - 48) as i128;
        let next: i128 = value * 10 + one;
        value = if next > CAP { CAP } else { next };
        k = k + 1;
    }
    value
}

fn find_digit(s: &Vec<char>, start: usize, parts: &Parts, k: usize) -> (r: char)
    requires
        start < parts.whole <= parts.fraction <= s@.len(),
    ensures
        r == digit_at(s@, start as int, parts.shape(), k as int),
{
    if k < parts.whole - start {
        s[start + k]
    } else if k < parts.fraction - start && k + 1 < parts.fraction - start {
        s[start + k + 1]
    } else {
        '0'
    }
}

fn find_finite(s: &Vec<char>, start: usize, parts: &Parts) -> (r: bool)
    requires
        start < parts.whole <= parts.fraction <= s@.len(),
        parts.sign <= parts.end <= s@.len(),
        parts.sign == parts.end || parts.fraction < parts.sign,
        forall|k: int| parts.sign <= k < parts.end ==> is_digit(#[trigger] s@[k]),
    ensures
        r == is_finite_literal(s@, start as int, parts.shape()),
{
    let ghost shape = parts.shape();
    let count: usize = if parts.fraction > parts.whole {
        parts.fraction - start - 1
    } else {
        parts.fraction - start
    };
    let mut z: usize = 0;
    while z < count && find_digit(s, start, parts, z) == '0'
        invariant
            shape == parts.shape(),
            start < parts.whole <= parts.fraction <= s@.len(),
            count == digit_count(start as int, shape),
            z <= count,
            first_significant(s@, start as int, shape, 0) == first_significant(s@, start as int, shape, z as int),
        decreases count - z,
    {
        z = z + 1;
    }
    if z >= count {
        return true;
    }
    let size = capped_value(s, parts.sign, parts.end);
    let negative = parts.sign >= 2 && parts.sign - 1 > parts.fraction && s[parts.sign - 1] == '-';
    let exponent: i128 = if negative { -size } else { size };
    let point: i128 = (parts.whole - start) as i128 - z as i128 + exponent;
    proof {
        lemma_value_positive(s@, parts.sign as int, parts.end as int);
    }
    if point < 309 {
        return true;
    }
    if point > 309 {
        return false;
    }
    !find_reaches(s, start, parts, z)
}

fn find_reaches(s: &Vec<char>, start: usize, parts: &Parts, z: usize) -> (r: bool)
    requires
        start < parts.whole <= parts.fraction <= s@.len(),
    ensures
        r == reaches(s@, start as int, parts.shape(), z as int, OVERFLOW@, 0),
{
    let ghost shape = parts.shape();
    let bound = chars_of(OVERFLOW);
    let mut k: usize = 0;
    while k < bound.len()
        invariant
            shape == parts.shape(),
            start < parts.whole <= parts.fraction <= s@.len(),
            k <= bound@.len(),
            bound@ == OVERFLOW@,
            reaches(s@, start as int, shape, z as int, OVERFLOW@, 0) == reaches(
                s@,
                start as int,
                shape,
                z as int,
                OVERFLOW@,
                k as int,
            ),
        decreases bound.len() - k,
    {
        let c = if k <= usize::MAX - z {
            find_digit(s, start, parts, z + k)
        } else {
            '0'
        };
        if c != bound[k] {
            return (c as u32) > (bound[k] as u32);
        }
        k = k + 1;
    }
    true
}

/// Whether a text converts to a number: optional white space, one optional sign, then a number
/// literal with a finite value.
pub fn parses_as_number(text: &str) -> (r: bool)
    ensures
        r == converts(text@),
{
    let s = chars_of(text);
    let mut from: usize = 0;
    while from < s.len() && space(s[from])
        invariant
            from <= s@.len(),
            trim_from(s@, 0) == trim_from(s@, from as int),
        decreases s.len() - from,
    {
        from = from + 1;
    }
    let mut to: usize = s.len();
    while to > from && space(s[to - 1])
        invariant
            from <= to <= s@.len(),
            trim_to(s@, s@.len() as int, from as int) == trim_to(s@, to as int, from as int),
        decreases to,
    {
        to = to - 1;
    }
    let start: usize = if from < to && (s[from] == '-' || s[from] == '+') { from + 1 } else { from };
    match find_shape(&s, start, to) {
        Some(parts) => find_finite(&s, start, &parts),
        None => false,
    }
}

/// A text without the white space at its end.
pub fn trim_end(text: &str) -> (r: String)
    ensures
        r@ == text@.take(trim_to(text@, text@.len() as int, 0)),
{
    let s = chars_of(text);
    let mut to: usize = s.len();
    while 0 < to && space(s[to - 1])
        invariant
            to <= s@.len(),
            s@ == text@,
            trim_to(text@, text@.len() as int, 0) == trim_to(text@, to as int, 0),
        decreases to,
    {
        to = to - 1;
    }
    let r = text_of(&s, 0, to);
    proof {
        assert(text@.subrange(0, to as int) =~= text@.take(to as int));
    }
    r
}

/// Whether a text is white space and nothing else.
pub open spec fn blank(text: Seq<char>) -> bool {
    forall|i: int| 0 <= i < text.len() ==> is_space(#[trigger] text[i])
}

/// Whether a text is white space and nothing else.
pub fn is_blank(text: &str) -> (r: bool)
    ensures
        r == blank(text@),
{
    let s = chars_of(text);
    let mut i: usize = 0;
    while i < s.len()
        invariant
            i <= s@.len(),
            s@ == text@,
            forall|j: int| 0 <= j < i ==> is_space(#[trigger] text@[j]),
        decreases s.len() - i,
    {
        if !space(s[i]) {
            proof {
                assert(!is_space(text@[i as int]));
            }
            return false;
        }
        i = i + 1;
    }
    true
}

proof fn lemma_run_all(s: Seq<char>, i: int, end: int)
    requires
        0 <= i <= end <= s.len(),
        forall|j: int| i <= j < end ==> is_digit(#[trigger] s[j]),
    ensures
        run_end(s, i, end) == end,
    decreases end - i,
{
    if i < end {
        assert(is_digit(s[i]));
        lemma_run_all(s, i + 1, end);
    }
}

proof fn lemma_run_digits(s: Seq<char>, i: int, end: int)
    requires
        0 <= i <= end <= s.len(),
    ensures
        i <= run_end(s, i, end) <= end,
        forall|j: int| i <= j < run_end(s, i, end) ==> is_digit(#[trigger] s[j]),
    decreases end - i,
{
    if i < end && is_digit(s[i]) {
        lemma_run_digits(s, i + 1, end);
    }
}

proof fn lemma_trimmed(s: Seq<char>)
    ensures
        0 <= trim_from(s, 0) <= s.len(),
        forall|j: int| 0 <= j < trim_from(s, 0) ==> is_space(#[trigger] s[j]),
        trim_from(s, 0) < s.len() ==> !is_space(s[trim_from(s, 0)]),
        trim_from(s, 0) <= trim_to(s, s.len() as int, trim_from(s, 0)) <= s.len(),
        forall|j: int| trim_to(s, s.len() as int, trim_from(s, 0)) <= j < s.len() ==> is_space(#[trigger] s[j]),
{
    lemma_trimmed_from(s, 0);
    lemma_trimmed_to(s, s.len() as int, trim_from(s, 0));
}

proof fn lemma_trimmed_from(s: Seq<char>, i: int)
    requires
        0 <= i <= s.len(),
    ensures
        i <= trim_from(s, i) <= s.len(),
        forall|j: int| i <= j < trim_from(s, i) ==> is_space(#[trigger] s[j]),
        trim_from(s, i) < s.len() ==> !is_space(s[trim_from(s, i)]),
    decreases s.len() - i,
{
    if i < s.len() && is_space(s[i]) {
        lemma_trimmed_from(s, i + 1);
    }
}

proof fn lemma_trimmed_to(s: Seq<char>, i: int, start: int)
    requires
        0 <= start <= i <= s.len(),
    ensures
        start <= trim_to(s, i, start) <= i,
        forall|j: int| trim_to(s, i, start) <= j < i ==> is_space(#[trigger] s[j]),
    decreases i,
{
    if i > start && is_space(s[i - 1]) {
        lemma_trimmed_to(s, i - 1, start);
    }
}

/// Whether a character can stand in the text of a number.
pub open spec fn numeric_character(c: char) -> bool {
    is_space(c) || '0' <= c <= '9' || c == '.' || c == 'e' || c == 'E' || c == '+' || c == '-'
}

proof fn lemma_digit_is_numeric(c: char)
    requires
        is_digit(c),
    ensures
        numeric_character(c),
{
}

/// A text that converts to a number has a digit in it, and nothing but digits, a point, an exponent, signs and white
/// space around it.
pub proof fn law_text_of_a_number(s: Seq<char>)
    requires
        converts(s),
    ensures
        exists|i: int| 0 <= i < s.len() && '0' <= #[trigger] s[i] <= '9',
        forall|i: int| 0 <= i < s.len() ==> numeric_character(#[trigger] s[i]),
{
    lemma_trimmed(s);
    let from = trim_from(s, 0);
    let to = trim_to(s, s.len() as int, from);
    let start = if from < to && (s[from] == '-' || s[from] == '+') { from + 1 } else { from };
    lemma_run_digits(s, start, to);
    let whole = run_end(s, start, to);
    assert(is_digit(s[start]));
    assert('0' <= s[start] <= '9');
    let dotted = whole < to && s[whole] == '.';
    if dotted {
        lemma_run_digits(s, whole + 1, to);
    }
    let fraction = if dotted { run_end(s, whole + 1, to) } else { whole };
    let shape = shape_of(s, start, to)->0;
    assert(shape.fraction == fraction);
    if fraction < to {
        assert(s[fraction] == 'e' || s[fraction] == 'E');
        assert(shape.sign <= to);
        lemma_run_digits(s, shape.sign, to);
        assert(run_end(s, shape.sign, to) == to);
    }
    assert forall|i: int| 0 <= i < s.len() implies numeric_character(#[trigger] s[i]) by {
        if i < from || i >= to {
            assert(is_space(s[i]));
        } else if i < start {
            assert(s[i] == '-' || s[i] == '+');
        } else if i < whole {
            assert(is_digit(s[i]));
            lemma_digit_is_numeric(s[i]);
        } else if i == whole && dotted {
            assert(s[i] == '.');
        } else if i < fraction {
            assert(is_digit(s[i]));
            lemma_digit_is_numeric(s[i]);
        } else if i == fraction {
            assert(s[i] == 'e' || s[i] == 'E');
        } else if i < shape.sign {
            assert(s[i] == '-' || s[i] == '+');
        } else {
            assert(is_digit(s[i]));
            lemma_digit_is_numeric(s[i]);
        }
    }
}

/// Up to 308 digits, with or without a minus in front, always convert to a number.
pub proof fn law_digits_convert(s: Seq<char>, signed: bool)
    requires
        0 < s.len() - (if signed { 1int } else { 0 }) <= 308,
        signed ==> s[0] == '-' || s[0] == '+',
        forall|i: int| (if signed { 1int } else { 0 }) <= i < s.len() ==> '0' <= #[trigger] s[i] <= '9',
    ensures
        converts(s),
{
    let n = s.len() as int;
    let start: int = if signed { 1 } else { 0 };
    assert('0' <= s[start] <= '9');
    assert('0' <= s[n - 1] <= '9');
    assert(trim_from(s, 0) == 0);
    assert(trim_to(s, n, 0) == n);
    assert forall|j: int| start <= j < n implies is_digit(#[trigger] s[j]) by {
        assert('0' <= s[j] <= '9');
    }
    lemma_run_all(s, start, n);
    let shape = shape_of(s, start, n)->0;
    assert(shape == (Shape { whole: n, fraction: n, sign: n, end: n }));
    lemma_significant(s, start, shape, 0);
    assert(exponent_of(s, shape) == 0);
}

proof fn lemma_significant(s: Seq<char>, start: int, shape: Shape, k: int)
    requires
        0 <= k,
    ensures
        first_significant(s, start, shape, k) >= k,
    decreases digit_count(start, shape) - k,
{
    if k < digit_count(start, shape) && digit_at(s, start, shape, k) == '0' {
        lemma_significant(s, start, shape, k + 1);
    }
}

/// The shape of a number: digits, then perhaps a point and digits, then perhaps `e` or `E`, a sign and digits, and
/// nothing else.
pub proof fn law_shape_of_a_number(s: Seq<char>, start: int, end: int, shape: Shape)
    requires
        0 <= start <= end <= s.len(),
        shape_of(s, start, end) == Some(shape),
    ensures
        start < shape.whole <= end,
        forall|i: int| start <= i < shape.whole ==> is_digit(#[trigger] s[i]),
        shape.fraction == shape.whole || (s[shape.whole] == '.' && shape.whole + 1 < shape.fraction && forall|i: int|
            shape.whole < i < shape.fraction ==> is_digit(#[trigger] s[i])),
        shape.end == end,
        shape.fraction == end || ((s[shape.fraction] == 'e' || s[shape.fraction] == 'E') && shape.sign < end && (shape.sign
            == shape.fraction + 1 || (shape.sign == shape.fraction + 2 && (s[shape.fraction + 1] == '+' || s[shape.fraction
            + 1] == '-'))) && forall|i: int| shape.sign <= i < end ==> is_digit(#[trigger] s[i])),
{
    lemma_run_digits(s, start, end);
    let whole = run_end(s, start, end);
    if whole < end && s[whole] == '.' {
        lemma_run_digits(s, whole + 1, end);
    }
    let fraction = shape.fraction;
    if fraction < end {
        lemma_run_digits(s, shape.sign, end);
    }
}

/// Digits, a point and digits have that shape, and so do digits alone.
pub proof fn law_decimals_have_the_shape(s: Seq<char>, point: int)
    requires
        0 < point,
        point == s.len() || (point + 1 < s.len() && s[point] == '.'),
        forall|i: int| 0 <= i < s.len() && i != point ==> is_digit(#[trigger] s[i]),
    ensures
        shape_of(s, 0, s.len() as int) matches Some(shape) && shape.whole == point && shape.fraction == s.len(),
{
    let n = s.len() as int;
    lemma_run_to(s, 0, point, n);
    if point < n {
        lemma_run_all(s, point + 1, n);
    }
}

proof fn lemma_run_to(s: Seq<char>, i: int, stop: int, end: int)
    requires
        0 <= i <= stop <= end <= s.len(),
        forall|j: int| i <= j < stop ==> is_digit(#[trigger] s[j]),
        stop < end ==> !is_digit(s[stop]),
    ensures
        run_end(s, i, end) == stop,
    decreases stop - i,
{
    if i < stop {
        assert(is_digit(s[i]));
        lemma_run_to(s, i + 1, stop, end);
    }
}

} // verus!

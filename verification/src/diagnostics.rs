//! Categories, codes, spans and the one diagnostic shape, with its rendering for a terminal.
//!
//! Rendering is a function of the diagnostic, the source and the options alone. It never looks for
//! the place itself: a [`Span`] carries a line and a column beside its byte range.

use vstd::prelude::*;
use crate::text::decimal;
use crate::text::push_decimal;
use crate::text::text_of;
use crate::text::chars_of;

pub mod marking;

verus! {

/// A half-open region of source text. `offset` and `len` are bytes; `line` and `column` are
/// 1-based, the column in Unicode scalar values.
#[derive(Debug, Clone, Copy, PartialEq, Eq, Hash, Structural)]
pub struct Span {
    /// Byte offset of the first byte.
    pub offset: usize,
    /// Length in bytes.
    pub len: usize,
    /// Line of the first character, from 1.
    pub line: usize,
    /// Column of the first character, from 1.
    pub column: usize,
}

impl Span {
    /// A span from its four numbers.
    pub fn new(offset: usize, len: usize, line: usize, column: usize) -> (r: Self)
        ensures
            r == (Span { offset, len, line, column }),
    {
        Span { offset, len, line, column }
    }

    /// The byte offset one past the end.
    pub fn end(&self) -> (r: usize)
        requires
            self.offset + self.len <= usize::MAX,
        ensures
            r == self.offset + self.len,
    {
        self.offset + self.len
    }

    /// The span as a byte range.
    pub fn range(&self) -> (r: core::ops::Range<usize>)
        requires
            self.offset + self.len <= usize::MAX,
        ensures
            r.start == self.offset,
            r.end == self.offset + self.len,
    {
        self.offset..self.end()
    }

    /// The spelling `line:column`.
    pub open spec fn spelling(self) -> Seq<char> {
        decimal(self.line as nat) + ":"@ + decimal(self.column as nat)
    }

    /// `line:column`.
    pub fn to_text(&self) -> (r: String)
        ensures
            r@ == self.spelling(),
    {
        let mut out = crate::text::decimal_text(self.line as u64);
        out.append(":");
        push_decimal(&mut out, self.column as u64);
        out
    }
}

/// The end of a span, or the largest offset when the sum is past it.
pub open spec fn span_end(span: Span) -> int {
    if span.offset + span.len > usize::MAX {
        usize::MAX as int
    } else {
        span.offset + span.len
    }
}

/// The span from the start of `first` through the end of `last`.
pub open spec fn through_spec(first: Span, last: Span) -> Span {
    Span {
        offset: first.offset,
        len: (if span_end(last) >= first.offset { span_end(last) - first.offset } else { 0 }) as usize,
        line: first.line,
        column: first.column,
    }
}

/// The span from the start of `first` through the end of `last`.
pub fn through(first: Span, last: Span) -> (r: Span)
    ensures
        r == through_spec(first, last),
{
    let end: usize = last.offset.saturating_add(last.len);
    let len: usize = if end >= first.offset { end - first.offset } else { 0 };
    Span::new(first.offset, len, first.line, first.column)
}

/// What kind of failure a diagnostic reports. Each carries exactly one.
#[derive(Debug, Clone, Copy, PartialEq, Eq, Hash, Structural)]
pub enum Category {
    /// Unterminated string, unknown character.
    Lexical,
    /// Malformed construct, duplicate declaration.
    Syntax,
    /// A conversion that the language does not perform, or a value of the wrong kind.
    Type,
    /// Undeclared name, access on `null`, an array write out of range.
    Reference,
    /// Wrong argument count.
    Arity,
    /// Division by zero, non-finite result.
    Arithmetic,
    /// A nesting limit exceeded.
    Depth,
    /// A call of a function that is not registered or not granted.
    Capability,
    /// A host call that failed on the Backend.
    Host,
    /// A Resource Budget dimension exceeded.
    Budget,
    /// A disabled construct.
    Policy,
}

impl Category {
    /// The lowercase wire spelling.
    pub open spec fn spelling(self) -> Seq<char> {
        match self {
            Category::Lexical => "lexical"@,
            Category::Syntax => "syntax"@,
            Category::Type => "type"@,
            Category::Reference => "reference"@,
            Category::Arity => "arity"@,
            Category::Arithmetic => "arithmetic"@,
            Category::Depth => "depth"@,
            Category::Capability => "capability"@,
            Category::Host => "host"@,
            Category::Budget => "budget"@,
            Category::Policy => "policy"@,
        }
    }

    /// The lowercase wire spelling.
    pub fn as_str(self) -> (r: &'static str)
        ensures
            r@ == self.spelling(),
    {
        match self {
            Category::Lexical => "lexical",
            Category::Syntax => "syntax",
            Category::Type => "type",
            Category::Reference => "reference",
            Category::Arity => "arity",
            Category::Arithmetic => "arithmetic",
            Category::Depth => "depth",
            Category::Capability => "capability",
            Category::Host => "host",
            Category::Budget => "budget",
            Category::Policy => "policy",
        }
    }
}

/// A stable identifier for one specific failure. The text of a code never changes.
#[derive(Debug, Clone, Copy, PartialEq, Eq, Hash)]
pub struct Code {
    code: &'static str,
}

impl View for Code {
    type V = Seq<char>;

    closed spec fn view(&self) -> Seq<char> {
        self.code@
    }
}

impl Code {
    /// The code spelled `code`.
    pub fn new(code: &'static str) -> (r: Self)
        ensures
            r@ == code@,
    {
        Code { code }
    }

    /// The code's text.
    pub fn as_str(self) -> (r: &'static str)
        ensures
            r@ == self@,
    {
        self.code
    }

    /// A token or the end of input does not match the grammar.
    pub const EXPECTED_SYNTAX: &'static str = "syntax.expected_syntax";

    /// An assignment needs a name or an ordinary property or index target.
    pub const INVALID_ASSIGNMENT_TARGET: &'static str = "syntax.invalid_assignment_target";

    /// A name is declared twice in one scope.
    pub const DUPLICATE_DECLARATION: &'static str = "syntax.duplicate_declaration";

    /// Loop control outside an enclosing loop.
    pub const LOOP_CONTROL_OUTSIDE_LOOP: &'static str = "syntax.loop_control_outside_loop";

    /// Two entries of an object literal have one key.
    pub const DUPLICATE_OBJECT_KEY: &'static str = "syntax.duplicate_object_key";

    /// A string literal without its closing quote.
    pub const UNTERMINATED_STRING: &'static str = "lex.unterminated_string";

    /// A block comment without its end.
    pub const UNTERMINATED_COMMENT: &'static str = "lex.unterminated_comment";

    /// A character that begins no token.
    pub const UNKNOWN_CHARACTER: &'static str = "lex.unknown_character";

    /// A non-ASCII letter or digit in an identifier.
    pub const NON_ASCII_IDENTIFIER: &'static str = "lex.non_ascii_identifier";

    /// An escape that the language does not define.
    pub const INVALID_ESCAPE: &'static str = "lex.invalid_escape";

    /// A malformed `\\u{...}` escape.
    pub const INVALID_UNICODE_ESCAPE: &'static str = "lex.invalid_unicode_escape";

    /// A numeric literal that is not a finite number.
    pub const INVALID_NUMBER: &'static str = "lex.invalid_number";

    /// An operand that no conversion makes fit its operator, or an iterable that is none.
    pub const OPERAND_MISMATCH: &'static str = "type.operand_mismatch";

    /// An index of the wrong type for its receiver.
    pub const INVALID_INDEX: &'static str = "type.invalid_index";

    /// A property of a value that is not an object.
    pub const INVALID_PROPERTY_ACCESS: &'static str = "type.invalid_property_access";

    /// A Script result that refers back to itself.
    pub const CYCLIC_RESULT: &'static str = "type.cyclic_result";

    /// A read of a name that no scope declares.
    pub const UNDECLARED_IDENTIFIER: &'static str = "reference.undeclared_identifier";

    /// An assignment to a name that no scope declares.
    pub const UNDECLARED_ASSIGNMENT: &'static str = "reference.undeclared_assignment";

    /// A property or index of `null` without `?.`.
    pub const NULL_ACCESS: &'static str = "reference.null_access";

    /// An array write that is neither at an element nor at the length.
    pub const INDEX_OUT_OF_RANGE: &'static str = "reference.index_out_of_range";

    /// `/` or `%` by zero.
    pub const DIVISION_BY_ZERO: &'static str = "arithmetic.division_by_zero";

    /// An operation whose result is infinite or not a number.
    pub const NON_FINITE: &'static str = "arithmetic.non_finite";

    /// A call of a value that is not a function.
    pub const NOT_CALLABLE: &'static str = "type.not_callable";

    /// A Script result that is, or contains, a function.
    pub const FUNCTION_RESULT: &'static str = "type.function_result";

    /// A call with more or fewer arguments than parameters.
    pub const ARGUMENT_COUNT: &'static str = "arity.argument_count";

    /// Nested calls past the call-depth limit.
    pub const CALL_DEPTH_EXCEEDED: &'static str = "depth.call_depth_exceeded";

    /// The collection that a `for` loop walks was modified by its body.
    pub const COLLECTION_MUTATED: &'static str = "reference.collection_mutated";

    /// A host call argument that is, or contains, a function.
    pub const FUNCTION_ARGUMENT: &'static str = "type.function_argument";

    /// A host call argument that refers back to itself.
    pub const CYCLIC_ARGUMENT: &'static str = "type.cyclic_argument";

    /// A host call argument nested past the argument depth.
    pub const ARGUMENT_TOO_DEEP: &'static str = "depth.argument_too_deep";

    /// The Backend failed a host call, or the call could not be sent.
    pub const FUNCTION_FAILED: &'static str = "host.function_failed";

    /// The connection ended before the Backend answered a host call.
    pub const NO_REPLY: &'static str = "host.no_reply";

    /// The execution ran for longer than its CPU time.
    pub const CPU_TIME_EXCEEDED: &'static str = "budget.cpu_time_exceeded";

    /// The execution held more memory than its budget.
    pub const MEMORY_EXCEEDED: &'static str = "budget.memory_exceeded";

    /// Code that can never run. A warning.
    pub const UNREACHABLE_CODE: &'static str = "syntax.unreachable_code";

    /// A local that nothing reads. A warning.
    pub const UNUSED_VARIABLE: &'static str = "reference.unused_variable";

    /// A call of a name that is neither declared nor callable.
    pub const UNKNOWN_FUNCTION: &'static str = "capability.unknown_function";

    /// A construct that the policy switches off.
    pub const CONSTRUCT_DISABLED: &'static str = "policy.construct_disabled";
}

/// Whether a diagnostic stops the work or only reports.
#[derive(Debug, Clone, Copy, PartialEq, Eq, Hash, Structural)]
pub enum Severity {
    /// The work stopped here.
    Error,
    /// Worth telling, and stops nothing.
    Warning,
}

impl Default for Severity {
    fn default() -> (r: Self)
        ensures
            r == Severity::Error,
    {
        Severity::Error
    }
}

impl Severity {
    /// The wire spelling.
    pub open spec fn spelling(self) -> Seq<char> {
        match self {
            Severity::Error => "error"@,
            Severity::Warning => "warning"@,
        }
    }

    /// The wire spelling.
    pub fn as_str(self) -> (r: &'static str)
        ensures
            r@ == self.spelling(),
    {
        match self {
            Severity::Error => "error",
            Severity::Warning => "warning",
        }
    }
}

/// One failure or finding: what kind, which one, what to tell a human, and where.
#[derive(Debug, Clone)]
pub struct Diagnostic {
    /// Whether it stops the work.
    pub severity: Severity,
    /// What kind of failure.
    pub category: Category,
    /// Which failure.
    pub code: Code,
    /// For a human.
    pub message: String,
    /// Where in the source.
    pub span: Span,
}

/// What a [`Diagnostic`] says.
#[verifier::ext_equal]
pub ghost struct DiagnosticView {
    pub severity: Severity,
    pub category: Category,
    pub code: Seq<char>,
    pub message: Seq<char>,
    pub span: Span,
}

impl View for Diagnostic {
    type V = DiagnosticView;

    open spec fn view(&self) -> DiagnosticView {
        DiagnosticView {
            severity: self.severity,
            category: self.category,
            code: self.code@,
            message: self.message@,
            span: self.span,
        }
    }
}

/// An error diagnostic.
pub open spec fn error_of(category: Category, code: &'static str, message: Seq<char>, span: Span) -> DiagnosticView {
    DiagnosticView { severity: Severity::Error, category, code: code@, message, span }
}

/// A warning diagnostic.
pub open spec fn warning_of(category: Category, code: &'static str, message: Seq<char>, span: Span) -> DiagnosticView {
    DiagnosticView { severity: Severity::Warning, category, code: code@, message, span }
}

impl Diagnostic {
    /// An error.
    pub fn new(category: Category, code: Code, message: String, span: Span) -> (r: Self)
        ensures
            r@ == (DiagnosticView { severity: Severity::Error, category, code: code@, message: message@, span }),
    {
        Diagnostic { severity: Severity::Error, category, code, message, span }
    }

    /// A lexical error.
    pub fn lexical(code: Code, message: String, span: Span) -> (r: Self)
        ensures
            r@ == (DiagnosticView {
                severity: Severity::Error,
                category: Category::Lexical,
                code: code@,
                message: message@,
                span,
            }),
    {
        Diagnostic::new(Category::Lexical, code, message, span)
    }

    /// A warning.
    pub fn warning(category: Category, code: Code, message: String, span: Span) -> (r: Self)
        ensures
            r@ == (DiagnosticView { severity: Severity::Warning, category, code: code@, message: message@, span }),
    {
        Diagnostic { severity: Severity::Warning, category, code, message, span }
    }

    /// An error under one of the codes of [`Code`].
    pub fn error(category: Category, code: &'static str, message: String, span: Span) -> (r: Self)
        ensures
            r@ == error_of(category, code, message@, span),
    {
        Diagnostic::new(category, Code::new(code), message, span)
    }

    /// The one-line spelling: category, severity, code, place and message.
    pub open spec fn spelling(self) -> Seq<char> {
        self.category.spelling() + " "@ + self.severity.spelling() + " ["@ + self.code@ + "] at "@
            + self.span.spelling() + ": "@ + self.message@
    }

    /// The one-line spelling: category, severity, code, place and message.
    pub fn to_text(&self) -> (r: String)
        ensures
            r@ == self.spelling(),
    {
        let mut out = self.category.as_str().to_owned();
        out.append(" ");
        out.append(self.severity.as_str());
        out.append(" [");
        out.append(self.code.as_str());
        out.append("] at ");
        out.append(self.span.to_text().as_str());
        out.append(": ");
        out.append(self.message.as_str());
        out
    }

    /// A copy with the same contents.
    pub fn copied(&self) -> (r: Self)
        ensures
            r@ == self@,
    {
        Diagnostic {
            severity: self.severity,
            category: self.category,
            code: self.code,
            message: self.message.clone(),
            span: self.span,
        }
    }
}

/// What to add to a rendered diagnostic.
#[derive(Debug, Clone, Copy, PartialEq, Eq, Hash)]
pub struct RenderOptions<'a> {
    /// A file or Script name for the location line.
    pub origin: Option<&'a str>,
}

impl<'a> RenderOptions<'a> {
    /// No origin.
    pub fn new() -> (r: Self)
        ensures
            r.origin is None,
    {
        RenderOptions { origin: None }
    }

    /// Label the location line with `origin`.
    pub fn with_origin(self, origin: &'a str) -> (r: Self)
        ensures
            r.origin == Some(origin),
    {
        RenderOptions { origin: Some(origin) }
    }
}

/// The bytes that a character takes in UTF-8.
pub open spec fn width(c: char) -> nat {
    if (c as u32) < 0x80 {
        1
    } else if (c as u32) < 0x800 {
        2
    } else if (c as u32) < 0x10000 {
        3
    } else {
        4
    }
}

fn char_width(c: char) -> (r: usize)
    ensures
        r == width(c),
{
    let code = c as u32;
    if code < 0x80 {
        1
    } else if code < 0x800 {
        2
    } else if code < 0x10000 {
        3
    } else {
        4
    }
}

/// The byte offset of character `k` of `s`.
pub open spec fn byte_offset(s: Seq<char>, k: int) -> nat
    decreases k,
{
    if k <= 0 {
        0
    } else {
        byte_offset(s, k - 1) + width(s[k - 1])
    }
}

/// The first character whose byte offset is at least `offset`, counted from `from`; the length
/// when there is none.
pub open spec fn ceiling(s: Seq<char>, offset: int, from: int) -> int
    decreases s.len() - from,
{
    if from >= s.len() || byte_offset(s, from) >= offset {
        from
    } else {
        ceiling(s, offset, from + 1)
    }
}

/// Whether a span describes a region of this source: it starts on a character and does not run
/// past the end.
pub open spec fn fits_spec(s: Seq<char>, span: Span) -> bool {
    span.offset + span.len <= usize::MAX && span.offset + span.len <= byte_offset(s, s.len() as int)
        && byte_offset(s, ceiling(s, span.offset as int, 0)) == span.offset
}

pub proof fn lemma_offset_mono(s: Seq<char>, a: int, b: int)
    requires
        0 <= a <= b,
    ensures
        byte_offset(s, a) <= byte_offset(s, b),
        a < b ==> byte_offset(s, a) < byte_offset(s, b),
    decreases b,
{
    if a < b {
        lemma_offset_mono(s, a, b - 1);
    }
}

pub proof fn lemma_ceiling(s: Seq<char>, offset: int, from: int)
    requires
        0 <= from <= s.len(),
    ensures
        from <= ceiling(s, offset, from) <= s.len(),
        ceiling(s, offset, from) < s.len() ==> byte_offset(s, ceiling(s, offset, from)) >= offset,
        forall|k: int| from <= k < ceiling(s, offset, from) ==> byte_offset(s, k) < offset,
    decreases s.len() - from,
{
    if from < s.len() && byte_offset(s, from) < offset {
        lemma_ceiling(s, offset, from + 1);
    }
}

/// A character that ends a line: a newline, or a carriage return that no newline follows.
pub open spec fn ends_line_spec(s: Seq<char>, k: int) -> bool {
    s[k] == '\n' || (s[k] == '\r' && !(k + 1 < s.len() && s[k + 1] == '\n'))
}

/// Line and column behind the characters `from..to`, starting at `line:column`.
pub open spec fn walk_to(s: Seq<char>, from: int, to: int, line: int, column: int) -> (int, int)
    decreases to - from,
{
    if from >= to {
        (line, column)
    } else if ends_line_spec(s, from) {
        walk_to(s, from + 1, to, if line >= usize::MAX { usize::MAX as int } else { line + 1 }, 1)
    } else {
        walk_to(s, from + 1, to, line, if column >= usize::MAX { usize::MAX as int } else { column + 1 })
    }
}

/// Line and column one past the last character of a span that fits.
pub open spec fn end_location_spec(s: Seq<char>, span: Span) -> Option<(int, int)> {
    if fits_spec(s, span) {
        let from = ceiling(s, span.offset as int, 0);
        let to = ceiling(s, span.offset + span.len, 0);
        Some(walk_to(s, from, to, span.line as int, span.column as int))
    } else {
        None
    }
}

pub open spec fn is_break(c: char) -> bool {
    c == '\n' || c == '\r'
}

/// Where the line that holds character `at` starts: behind the last line break before it.
pub open spec fn line_start(s: Seq<char>, at: int) -> int
    decreases at,
{
    if at <= 0 || is_break(s[at - 1]) {
        at
    } else {
        line_start(s, at - 1)
    }
}

/// Where the line that starts at `at` ends: at its line break, or at the end.
pub open spec fn line_end(s: Seq<char>, at: int) -> int
    decreases s.len() - at,
{
    if at >= s.len() || is_break(s[at]) {
        at
    } else {
        line_end(s, at + 1)
    }
}

/// Whether a span is the end of input on the empty line behind a trailing line break.
pub open spec fn at_end_of_input(s: Seq<char>, span: Span, start: int, end: int) -> bool {
    start == end && start > 0 && span.len == 0 && span.offset == byte_offset(s, s.len() as int)
}

/// The last character of the line before the one that starts at `start`, exclusive: its terminator
/// is a newline, a carriage return, or both in that order.
pub open spec fn previous_line_end(s: Seq<char>, start: int) -> int {
    if start >= 2 && s[start - 1] == '\n' && s[start - 2] == '\r' {
        start - 2
    } else {
        start - 1
    }
}

pub open spec fn strip_mark(line: Seq<char>) -> Seq<char> {
    if line.len() > 0 && line[0] == '\u{feff}' {
        line.subrange(1, line.len() as int)
    } else {
        line
    }
}

/// The indentation under `line` up to `column`: tabs stay tabs.
pub open spec fn indent_spec(line: Seq<char>, column: int) -> Seq<char> {
    Seq::new(
        (if column > 0 { column - 1 } else { 0 }) as nat,
        |i: int| if i < line.len() && line[i] == '\t' { '\t' } else { ' ' },
    )
}

/// The carets under `marked`: tabs stay tabs, and there is always one caret.
pub open spec fn carets_spec(marked: Seq<char>) -> Seq<char> {
    if marked.len() == 0 {
        seq!['^']
    } else {
        Seq::new(marked.len(), |i: int| if marked[i] == '\t' { '\t' } else { '^' })
    }
}

/// The source line that a span opens on, and the marker under it.
pub open spec fn snippet_spec(s: Seq<char>, span: Span) -> Option<(Seq<char>, Seq<char>)> {
    if !fits_spec(s, span) {
        None
    } else {
        let at = ceiling(s, span.offset as int, 0);
        let start = line_start(s, at);
        let end = line_end(s, start);
        let fallback = at_end_of_input(s, span, start, end);
        let start2 = if fallback { line_start(s, previous_line_end(s, start)) } else { start };
        let end2 = if fallback { line_end(s, start2) } else { end };
        let whole = s.subrange(start2, end2);
        let line = if start2 == 0 { strip_mark(whole) } else { whole };
        let column = if fallback { line.len() as int + 1 } else { span.column as int };
        let to = ceiling(s, span.offset + span.len, 0);
        let stop = if to < end2 { to } else { end2 };
        let marked = if stop > at { s.subrange(at, stop) } else { Seq::empty() };
        Some((line, indent_spec(line, column) + carets_spec(marked)))
    }
}

/// `line:column`, with the end behind it when the span crosses lines.
pub open spec fn location_spec(s: Seq<char>, span: Span) -> Seq<char> {
    match end_location_spec(s, span) {
        Some((line, column)) if line != span.line =>
            span.spelling() + "-"@ + decimal(line as nat) + ":"@ + decimal(column as nat),
        _ => span.spelling(),
    }
}

/// A diagnostic for a terminal.
pub open spec fn render_spec(d: DiagnosticView, s: Seq<char>, origin: Option<Seq<char>>) -> Seq<char> {
    let prefix = match origin {
        Some(origin) => origin + ":"@,
        None => Seq::empty(),
    };
    let head = prefix + location_spec(s, d.span) + ": "@ + d.severity.spelling() + " "@ + d.category.spelling()
        + "["@ + d.code + "]: "@ + d.message;
    match snippet_spec(s, d.span) {
        Some((line, marker)) => head + "\n    "@ + line + "\n    "@ + marker,
        None => head,
    }
}

/// The character at byte `offset`, searched upward; the length when the source is shorter. With it,
/// that character's own offset.
pub(crate) fn seek(chars: &Vec<char>, offset: usize) -> (r: (usize, u128))
    ensures
        r.0 == ceiling(chars@, offset as int, 0),
        r.0 <= chars@.len(),
        r.1 == byte_offset(chars@, r.0 as int),
{
    let mut k: usize = 0;
    let mut bytes: u128 = 0;
    proof {
        lemma_ceiling(chars@, offset as int, 0);
    }
    while k < chars.len() && bytes < offset as u128
        invariant
            k <= chars@.len(),
            bytes == byte_offset(chars@, k as int),
            bytes <= 4 * k,
            ceiling(chars@, offset as int, 0) == ceiling(chars@, offset as int, k as int),
        decreases chars.len() - k,
    {
        bytes = bytes + char_width(chars[k]) as u128;
        k = k + 1;
    }
    (k, bytes)
}

fn total_bytes(chars: &Vec<char>) -> (r: u128)
    ensures
        r == byte_offset(chars@, chars@.len() as int),
{
    let mut k: usize = 0;
    let mut bytes: u128 = 0;
    while k < chars.len()
        invariant
            k <= chars@.len(),
            bytes == byte_offset(chars@, k as int),
            bytes <= 4 * k,
        decreases chars.len() - k,
    {
        bytes = bytes + char_width(chars[k]) as u128;
        k = k + 1;
    }
    bytes
}

fn fits(chars: &Vec<char>, span: Span) -> (r: bool)
    ensures
        r == fits_spec(chars@, span),
{
    let (_, at) = seek(chars, span.offset);
    let end: u128 = span.offset as u128 + span.len as u128;
    end <= usize::MAX as u128 && end <= total_bytes(chars) && at == span.offset as u128
}

fn ends_line(chars: &Vec<char>, k: usize) -> (r: bool)
    requires
        k < chars@.len(),
    ensures
        r == ends_line_spec(chars@, k as int),
{
    let c = chars[k];
    let n: usize = chars.len();
    if c == '\n' {
        return true;
    }
    c == '\r' && !(k + 1 < n && chars[k + 1] == '\n')
}

fn end_location(chars: &Vec<char>, span: Span) -> (r: Option<(usize, usize)>)
    ensures
        match (r, end_location_spec(chars@, span)) {
            (Some(a), Some(b)) => a.0 == b.0 && a.1 == b.1,
            (None, None) => true,
            _ => false,
        },
{
    if !fits(chars, span) {
        return None;
    }
    let (from, _) = seek(chars, span.offset);
    let (to, _) = seek(chars, span.offset.saturating_add(span.len));
    let mut line: usize = span.line;
    let mut column: usize = span.column;
    let mut k: usize = from;
    while k < to
        invariant
            from <= k,
            to <= chars@.len(),
            walk_to(chars@, from as int, to as int, span.line as int, span.column as int) == walk_to(
                chars@,
                k as int,
                to as int,
                line as int,
                column as int,
            ),
        decreases to - k,
    {
        if ends_line(chars, k) {
            line = line.saturating_add(1);
            column = 1;
        } else {
            column = column.saturating_add(1);
        }
        k = k + 1;
    }
    Some((line, column))
}


fn find_line_start(chars: &Vec<char>, at: usize) -> (r: usize)
    requires
        at <= chars@.len(),
    ensures
        r == line_start(chars@, at as int),
        r <= at,
{
    let mut k: usize = at;
    while k > 0 && !(chars[k - 1] == '\n' || chars[k - 1] == '\r')
        invariant
            k <= at <= chars@.len(),
            line_start(chars@, at as int) == line_start(chars@, k as int),
        decreases k,
    {
        k = k - 1;
    }
    k
}

fn find_line_end(chars: &Vec<char>, at: usize) -> (r: usize)
    requires
        at <= chars@.len(),
    ensures
        r == line_end(chars@, at as int),
        at <= r <= chars@.len(),
{
    let mut k: usize = at;
    while k < chars.len() && !(chars[k] == '\n' || chars[k] == '\r')
        invariant
            at <= k <= chars@.len(),
            line_end(chars@, at as int) == line_end(chars@, k as int),
        decreases chars.len() - k,
    {
        k = k + 1;
    }
    k
}

fn push_indent(out: &mut String, line: &Vec<char>, count: usize)
    ensures
        final(out)@ == old(out)@ + indent_spec(line@, count + 1),
{
    let mut i: usize = 0;
    proof {
        assert(old(out)@ =~= old(out)@ + indent_spec(line@, 1));
    }
    while i < count
        invariant
            i <= count,
            out@ == old(out)@ + indent_spec(line@, i + 1),
        decreases count - i,
    {
        out.push(if i < line.len() && line[i] == '\t' { '\t' } else { ' ' });
        i = i + 1;
        proof {
            assert(out@ =~= old(out)@ + indent_spec(line@, i + 1));
        }
    }
}

fn push_carets(out: &mut String, marked: &Vec<char>, from: usize, to: usize)
    requires
        from <= to <= marked@.len(),
    ensures
        final(out)@ == old(out)@ + carets_spec(marked@.subrange(from as int, to as int)),
{
    let ghost all = marked@.subrange(from as int, to as int);
    if from == to {
        out.push('^');
        proof {
            assert(out@ =~= old(out)@ + carets_spec(all));
        }
        return;
    }
    let mut k: usize = from;
    proof {
        assert(old(out)@ =~= old(out)@ + carets_spec(all).take(0));
    }
    while k < to
        invariant
            from <= k <= to <= marked@.len(),
            from < to,
            all == marked@.subrange(from as int, to as int),
            out@ == old(out)@ + carets_spec(all).take(k - from),
        decreases to - k,
    {
        out.push(if marked[k] == '\t' { '\t' } else { '^' });
        k = k + 1;
        proof {
            assert(out@ =~= old(out)@ + carets_spec(all).take(k - from));
        }
    }
    proof {
        assert(carets_spec(all).take(to - from) =~= carets_spec(all));
    }
}

fn snippet(chars: &Vec<char>, span: Span) -> (r: Option<(String, String)>)
    ensures
        match (r, snippet_spec(chars@, span)) {
            (Some(a), Some(b)) => a.0@ == b.0 && a.1@ == b.1,
            (None, None) => true,
            _ => false,
        },
{
    if !fits(chars, span) {
        return None;
    }
    let (at, _) = seek(chars, span.offset);
    let mut start = find_line_start(chars, at);
    let mut end = find_line_end(chars, start);
    let mut fallback = false;
    if start == end && start > 0 && span.len == 0 && span.offset as u128 == total_bytes(chars) {
        let mut text_end: usize = start - 1;
        if text_end > 0 && chars[text_end] == '\n' && chars[text_end - 1] == '\r' {
            text_end = text_end - 1;
        }
        start = find_line_start(chars, text_end);
        end = find_line_end(chars, start);
        fallback = true;
    }
    let first: usize = if start == 0 && start < end && chars[start] == '\u{feff}' { start + 1 } else { start };
    let line_text = text_of(chars, first, end);
    proof {
        let whole = chars@.subrange(start as int, end as int);
        if start == 0 {
            assert(strip_mark(whole) =~= chars@.subrange(first as int, end as int));
        } else {
            assert(whole =~= chars@.subrange(first as int, end as int));
        }
    }
    let line = chars_of(line_text.as_str());
    let mut marker = String::new();
    let count: usize = if fallback {
        line.len()
    } else if span.column > 0 {
        span.column - 1
    } else {
        0
    };
    push_indent(&mut marker, &line, count);
    proof {
        assert(marker@ =~= indent_spec(line@, count + 1));
        assert(indent_spec(line@, 0) =~= indent_spec(line@, 1));
    }
    let (to, _) = seek(chars, span.offset.saturating_add(span.len));
    let stop: usize = if to < end { to } else { end };
    if stop > at {
        push_carets(&mut marker, chars, at, stop);
    } else {
        push_carets(&mut marker, chars, at, at);
        proof {
            assert(chars@.subrange(at as int, at as int) =~= Seq::<char>::empty());
        }
    }
    Some((line_text, marker))
}

/// Render a diagnostic for a terminal against its source: the location, the severity, the
/// category, the code and the message, then the source line and a marker under the span.
///
/// Total: a span that does not fit the source renders as the location line alone.
pub fn render_diagnostic(diagnostic: &Diagnostic, source: &str, options: RenderOptions<'_>) -> (r: String)
    ensures
        r@ == render_spec(
            diagnostic@,
            source@,
            match options.origin {
                Some(origin) => Some(origin@),
                None => None,
            },
        ),
{
    let chars = chars_of(source);
    let span = diagnostic.span;
    let mut out = String::new();
    if let Some(origin) = options.origin {
        out = origin.to_owned();
        out.append(":");
    }
    let mut location = span.to_text();
    if let Some((line, column)) = end_location(&chars, span) {
        if line != span.line {
            location.append("-");
            push_decimal(&mut location, line as u64);
            location.append(":");
            push_decimal(&mut location, column as u64);
        }
    }
    out.append(location.as_str());
    out.append(": ");
    out.append(diagnostic.severity.as_str());
    out.append(" ");
    out.append(diagnostic.category.as_str());
    out.append("[");
    out.append(diagnostic.code.as_str());
    out.append("]: ");
    out.append(diagnostic.message.as_str());
    if let Some((line, marker)) = snippet(&chars, span) {
        out.append("\n    ");
        out.append(line.as_str());
        out.append("\n    ");
        out.append(marker.as_str());
    }
    out
}

/// A span that does not fit its source renders as the location line alone, whatever the source.
pub proof fn law_misfit_is_one_line(d: DiagnosticView, s: Seq<char>, origin: Option<Seq<char>>)
    requires
        !fits_spec(s, d.span),
    ensures
        render_spec(d, s, origin) == (match origin {
            Some(origin) => origin + ":"@,
            None => Seq::empty(),
        }) + d.span.spelling() + ": "@ + d.severity.spelling() + " "@ + d.category.spelling() + "["@ + d.code
            + "]: "@ + d.message,
{
}

} // verus!

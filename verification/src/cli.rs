//! The command line: the starting variables of an evaluation or of a check, and what is written at its end.
//!
//! Parsing, evaluating and reading files are done outside; here each argument is read, each failure
//! is worded, and each end is given its stream and its exit code.

pub mod laws;
pub mod print;

use vstd::prelude::*;
use crate::ast::Program;
use crate::ast::StatementKind;
use crate::check::Findings;
use crate::check::pass::diagnostic_views;
use crate::diagnostics::Diagnostic;
use crate::diagnostics::DiagnosticView;
use crate::diagnostics::RenderOptions;
use crate::diagnostics::Severity;
use crate::diagnostics::render_diagnostic;
use crate::diagnostics::render_spec;
use crate::numeral::blank;
use crate::numeral::is_blank;
use crate::script::identifier;
use crate::script::is_identifier;
use crate::text::chars_of;
use crate::text::decimal;
use crate::text::holds;
use crate::text::list_holds;
use crate::text::push_decimal;
use crate::text::text_of;

verus! {

/// The exit code of a wrong invocation.
pub const USAGE: u8 = 2;

/// The exit code of a script that is wrong or cannot be read.
pub const FAILURE: u8 = 1;

/// The place of the first `=` of a text, from `k` on; the length when there is none.
pub open spec fn equals_sign(text: Seq<char>, k: int) -> int
    decreases text.len() - k,
{
    if k >= text.len() || text[k] == '=' {
        k
    } else {
        equals_sign(text, k + 1)
    }
}

/// What one `--var` argument says: a name and an expression, or what is wrong with it.
pub open spec fn variable_of(argument: Seq<char>, bound: Seq<String>, reserved: Seq<String>) -> Result<
    (Seq<char>, Seq<char>),
    Seq<char>,
> {
    let k = equals_sign(argument, 0);
    if k >= argument.len() {
        Err(
            "hexput: --var `"@ + argument
                + "` is not `name=<expression>`: the variable name and its Hexput expression are separated by `=`"@,
        )
    } else {
        let name = argument.subrange(0, k);
        if !identifier(name, reserved) {
            Err(
                "hexput: --var `"@ + argument + "`: `"@ + name
                    + "` is not a variable name — a name is ASCII letters, digits and `_`, does not begin with a digit, and is not a reserved word"@,
            )
        } else if holds(bound, name) {
            Err(
                "hexput: --var `"@ + name
                    + "` was supplied more than once; give each starting variable exactly once"@,
            )
        } else {
            Ok((name, argument.subrange(k + 1, argument.len() as int)))
        }
    }
}

proof fn lemma_equals_sign(text: Seq<char>, k: int)
    requires
        0 <= k <= text.len(),
    ensures
        k <= equals_sign(text, k) <= text.len(),
    decreases text.len() - k,
{
    if k < text.len() && text[k] != '=' {
        lemma_equals_sign(text, k + 1);
    }
}

/// Read one `--var` argument: the variable's name and its expression. A name that is in `bound` was
/// there before.
pub fn starting_variable(argument: &str, bound: &Vec<String>, reserved: &Vec<String>) -> (r: Result<
    (String, String),
    String,
>)
    ensures
        match (r, variable_of(argument@, bound@, reserved@)) {
            (Ok(variable), Ok(wanted)) => variable.0@ == wanted.0 && variable.1@ == wanted.1,
            (Err(report), Err(wanted)) => report@ == wanted,
            _ => false,
        },
{
    let chars = chars_of(argument);
    let mut k: usize = 0;
    proof {
        lemma_equals_sign(argument@, 0);
    }
    while k < chars.len() && chars[k] != '='
        invariant
            k <= chars@.len(),
            chars@ == argument@,
            equals_sign(argument@, 0) == equals_sign(argument@, k as int),
        decreases chars.len() - k,
    {
        k = k + 1;
    }
    if k == chars.len() {
        let mut report = "hexput: --var `".to_owned();
        report.append(argument);
        report.append("` is not `name=<expression>`: the variable name and its Hexput expression are separated by `=`");
        return Err(report);
    }
    let name = text_of(&chars, 0, k);
    if !is_identifier(name.as_str(), reserved) {
        let mut report = "hexput: --var `".to_owned();
        report.append(argument);
        report.append("`: `");
        report.append(name.as_str());
        report.append(
            "` is not a variable name — a name is ASCII letters, digits and `_`, does not begin with a digit, and is not a reserved word",
        );
        return Err(report);
    }
    if list_holds(bound, name.as_str()) {
        let mut report = "hexput: --var `".to_owned();
        report.append(name.as_str());
        report.append("` was supplied more than once; give each starting variable exactly once");
        return Err(report);
    }
    let expression = text_of(&chars, k + 1, chars.len());
    Ok((name, expression))
}

/// What one `--var` argument of a check says: a name, or what is wrong with it.
pub open spec fn declared_of(argument: Seq<char>, bound: Seq<String>, reserved: Seq<String>) -> Result<
    Seq<char>,
    Seq<char>,
> {
    if !identifier(argument, reserved) {
        Err(
            "hexput: --var `"@ + argument
                + "` is not a variable name — a name is ASCII letters, digits and `_`, does not begin with a digit, and is not a reserved word"@,
        )
    } else if holds(bound, argument) {
        Err(
            "hexput: --var `"@ + argument
                + "` was supplied more than once; give each starting variable exactly once"@,
        )
    } else {
        Ok(argument)
    }
}

/// Read one `--var` argument of a check: the variable's name. A name that is in `bound` was there before.
pub fn declared_variable(argument: &str, bound: &Vec<String>, reserved: &Vec<String>) -> (r: Result<String, String>)
    ensures
        match (r, declared_of(argument@, bound@, reserved@)) {
            (Ok(name), Ok(wanted)) => name@ == wanted,
            (Err(report), Err(wanted)) => report@ == wanted,
            _ => false,
        },
{
    let mut report = "hexput: --var `".to_owned();
    report.append(argument);
    if !is_identifier(argument, reserved) {
        report.append(
            "` is not a variable name — a name is ASCII letters, digits and `_`, does not begin with a digit, and is not a reserved word",
        );
        return Err(report);
    }
    if list_holds(bound, argument) {
        report.append("` was supplied more than once; give each starting variable exactly once");
        return Err(report);
    }
    Ok(argument.to_owned())
}

/// The source that an expression is evaluated as.
pub fn expression_source(expression: &str) -> (r: String)
    ensures
        r@ == "return "@ + expression@ + ";"@,
{
    let mut source = "return ".to_owned();
    source.append(expression);
    source.append(";");
    source
}

/// Whether a program is one `return` that carries a value.
pub open spec fn returns_one_value(program: Program) -> bool {
    program.statements@.len() == 1 && (program.statements@[0].kind matches StatementKind::Return { value: Some(_), .. })
}

/// What is wrong with a program that should be one expression.
pub open spec fn expression_problem(program: Program, expression: Seq<char>) -> Option<Seq<char>> {
    if returns_one_value(program) {
        None
    } else if blank(expression) {
        Some("its value is empty; supply a Hexput expression, such as `5`, `\"hi\"`, `[1, 2]` or `{ a: 1 }`"@)
    } else {
        Some("its value must be exactly one Hexput expression, not a statement or a list of them"@)
    }
}

/// Check that the program of an expression is exactly one expression.
pub fn one_expression(program: &Program, expression: &str) -> (r: Result<(), String>)
    ensures
        match (r, expression_problem(*program, expression@)) {
            (Ok(_), None) => true,
            (Err(report), Some(wanted)) => report@ == wanted,
            _ => false,
        },
{
    if program.statements.len() == 1 {
        if let StatementKind::Return { value: Some(_), .. } = &program.statements[0].kind {
            return Ok(());
        }
    }
    if is_blank(expression) {
        Err("its value is empty; supply a Hexput expression, such as `5`, `\"hi\"`, `[1, 2]` or `{ a: 1 }`".to_owned())
    } else {
        Err("its value must be exactly one Hexput expression, not a statement or a list of them".to_owned())
    }
}

/// What is reported of an expression that does not evaluate.
pub open spec fn not_evaluated(d: DiagnosticView, source: Seq<char>) -> Seq<char> {
    "its value is not a Hexput expression that evaluates\n"@ + render_spec(d, source, Some("--var"@))
}

/// The report of an expression that does not evaluate.
pub fn report_expression(diagnostic: &Diagnostic, source: &str) -> (r: String)
    ensures
        r@ == not_evaluated(diagnostic@, source@),
{
    let mut report = "its value is not a Hexput expression that evaluates\n".to_owned();
    report.append(render_diagnostic(diagnostic, source, RenderOptions::new().with_origin("--var")).as_str());
    report
}

/// The report of a starting variable whose expression was refused.
pub fn report_variable(name: &str, report: &str) -> (r: String)
    ensures
        r@ == "hexput: --var `"@ + name@ + "`: "@ + report@,
{
    let mut text = "hexput: --var `".to_owned();
    text.append(name);
    text.append("`: ");
    text.append(report);
    text
}

/// The report of a script file that could not be read.
pub fn report_unreadable(path: &str, error: &str) -> (r: String)
    ensures
        r@ == "hexput: cannot read `"@ + path@ + "`: "@ + error@,
{
    let mut text = "hexput: cannot read `".to_owned();
    text.append(path);
    text.append("`: ");
    text.append(error);
    text
}

/// The report of a script file that is not UTF-8 from byte `valid` on.
pub fn report_not_text(path: &str, valid: usize) -> (r: String)
    ensures
        r@ == "hexput: cannot read `"@ + path@ + "`: the file is not valid UTF-8 (byte "@ + decimal(valid as nat)
            + " begins an invalid sequence)"@,
{
    let mut text = "hexput: cannot read `".to_owned();
    text.append(path);
    text.append("`: the file is not valid UTF-8 (byte ");
    push_decimal(&mut text, valid as u64);
    text.append(" begins an invalid sequence)");
    text
}

/// How an evaluation ended.
pub enum End {
    /// A starting variable was refused: the report.
    Variables(String),
    /// The script could not be read: the report.
    Unreadable(String),
    /// The script was rejected, or failed.
    Failed(Diagnostic),
    /// The script's result, in literal form.
    Printed(String),
}

/// What is written at the end, and where.
#[derive(Debug)]
pub struct Output {
    /// The line on standard output.
    pub out: Option<String>,
    /// The line on standard error.
    pub err: Option<String>,
    /// The exit code.
    pub code: u8,
}

/// Whether what is written is an error with a text and a code.
pub open spec fn complains(output: Output, text: Seq<char>, code: u8) -> bool {
    output.out is None && (output.err matches Some(line) && line@ == text) && output.code == code
}

/// What is written at the end of an evaluation of the script at `path`. A result goes to standard
/// output; every failure goes to standard error.
pub fn conclude(end: End, source: &str, path: &str) -> (r: Output)
    ensures
        match end {
            End::Variables(report) => complains(r, report@, USAGE),
            End::Unreadable(report) => complains(r, report@, FAILURE),
            End::Failed(d) => complains(r, render_spec(d@, source@, Some(path@)), FAILURE),
            End::Printed(text) => r.err is None && (r.out matches Some(line) && line@ == text@) && r.code == 0,
        },
{
    match end {
        End::Variables(report) => Output { out: None, err: Some(report), code: USAGE },
        End::Unreadable(report) => Output { out: None, err: Some(report), code: FAILURE },
        End::Failed(d) => {
            let text = render_diagnostic(&d, source, RenderOptions::new().with_origin(path));
            Output { out: None, err: Some(text), code: FAILURE }
        },
        End::Printed(text) => Output { out: Some(text), err: None, code: 0 },
    }
}

/// The first `n` findings of a check as they are written, one below the other.
pub open spec fn reports(findings: Seq<DiagnosticView>, source: Seq<char>, path: Seq<char>, n: int) -> Seq<char>
    decreases n,
{
    if n <= 0 {
        Seq::empty()
    } else if n == 1 {
        render_spec(findings[0], source, Some(path))
    } else {
        reports(findings, source, path, n - 1) + "\n"@ + render_spec(findings[n - 1], source, Some(path))
    }
}

/// What is written at the end of a check of the script at `path`: every finding, to standard error. Only an
/// error makes the check fail.
pub fn conclude_check(findings: &Findings, source: &str, path: &str) -> (r: Output)
    ensures
        r.out is None,
        findings@.len() == 0 ==> r.err is None,
        findings@.len() > 0 ==> (r.err matches Some(text) && text@ == reports(
            findings@,
            source@,
            path@,
            findings@.len() as int,
        )),
        r.code == (if exists|i: int| 0 <= i < findings@.len() && (#[trigger] findings@[i]).severity == Severity::Error {
            FAILURE
        } else {
            0
        }),
{
    let list = findings.diagnostics();
    let code: u8 = if findings.has_errors() {
        FAILURE
    } else {
        0
    };
    if list.len() == 0 {
        return Output { out: None, err: None, code };
    }
    let mut text = String::new();
    let mut i: usize = 0;
    while i < list.len()
        invariant
            i <= list@.len(),
            diagnostic_views(list@) == findings@,
            text@ == reports(findings@, source@, path@, i as int),
        decreases list.len() - i,
    {
        proof {
            assert(findings@[i as int] == list@[i as int]@);
        }
        let one = render_diagnostic(&list[i], source, RenderOptions::new().with_origin(path));
        if i > 0 {
            text.append("\n");
        }
        text.append(one.as_str());
        proof {
            if i == 0 {
                assert(text@ =~= one@);
            }
        }
        i = i + 1;
    }
    Output { out: None, err: Some(text), code }
}

/// An argument that is accepted is its name, an equals sign and its expression; the name is an
/// identifier without an equals sign, and new.
pub proof fn law_accepted_variable(argument: Seq<char>, bound: Seq<String>, reserved: Seq<String>)
    requires
        variable_of(argument, bound, reserved) is Ok,
    ensures
        argument == variable_of(argument, bound, reserved)->Ok_0.0 + seq!['='] + variable_of(
            argument,
            bound,
            reserved,
        )->Ok_0.1,
        identifier(variable_of(argument, bound, reserved)->Ok_0.0, reserved),
        !holds(bound, variable_of(argument, bound, reserved)->Ok_0.0),
{
    lemma_equals_sign(argument, 0);
    lemma_found(argument, 0);
    let (name, expression) = variable_of(argument, bound, reserved)->Ok_0;
    assert(argument =~= name + seq!['='] + expression);
}

proof fn lemma_found(text: Seq<char>, k: int)
    requires
        0 <= k <= text.len(),
        equals_sign(text, k) < text.len(),
    ensures
        text[equals_sign(text, k)] == '=',
    decreases text.len() - k,
{
    if k < text.len() && text[k] != '=' {
        lemma_found(text, k + 1);
    }
}

/// A `--var` argument is a name, `=` and an expression: the name is what stands before the first `=`, and the
/// expression is all that stands behind it.
pub proof fn law_variable_argument(name: Seq<char>, expression: Seq<char>, bound: Seq<String>, reserved: Seq<String>)
    requires
        identifier(name, reserved),
        !holds(bound, name),
    ensures
        variable_of(name + "="@ + expression, bound, reserved) == Ok::<(Seq<char>, Seq<char>), Seq<char>>((name, expression)),
{
    let argument = name + "="@ + expression;
    reveal_strlit("=");
    let n = name.len() as int;
    assert(argument[n] == '=');
    lemma_first_sign(argument, n, 0);
    assert(argument.subrange(0, n) =~= name);
    assert(argument.subrange(n + 1, argument.len() as int) =~= expression);
}

proof fn lemma_first_sign(text: Seq<char>, n: int, k: int)
    requires
        0 <= k <= n < text.len(),
        text[n] == '=',
        forall|i: int| 0 <= i < n ==> #[trigger] text[i] != '=',
    ensures
        equals_sign(text, k) == n,
    decreases n - k,
{
    if k < n {
        lemma_first_sign(text, n, k + 1);
    }
}

/// The findings of a check are written one below the other, in their order.
pub proof fn law_reports(findings: Seq<DiagnosticView>, source: Seq<char>, path: Seq<char>, n: int)
    requires
        0 <= n < findings.len(),
    ensures
        reports(findings, source, path, 0) == Seq::<char>::empty(),
        reports(findings, source, path, 1) == render_spec(findings[0], source, Some(path)),
        n > 0 ==> reports(findings, source, path, n + 1) == reports(findings, source, path, n) + "\n"@ + render_spec(
            findings[n],
            source,
            Some(path),
        ),
{
}

/// A result goes to standard output with the exit code zero. Anything else goes to standard error, with the code two
/// where the command line is to blame, and one elsewhere.
pub proof fn law_endings(end: End, source: &str, path: &str, output: Output)
    requires
        call_ensures(conclude, (end, source, path), output),
    ensures
        output.out is Some <==> end is Printed,
        output.err is None <==> end is Printed,
        output.code == (match end {
            End::Printed(_) => 0int,
            End::Variables(_) => 2,
            _ => 1,
        }),
        end matches End::Printed(text) ==> (output.out->0)@ == text@,
        end matches End::Variables(report) ==> (output.err->0)@ == report@,
        end matches End::Unreadable(report) ==> (output.err->0)@ == report@,
{
}

/// A check writes nothing to standard output, and fails exactly where it found an error.
pub proof fn law_checks_end(findings: Findings, source: &str, path: &str, output: Output, i: int)
    requires
        call_ensures(conclude_check, (&findings, source, path), output),
    ensures
        output.out is None,
        output.err is Some <==> findings@.len() > 0,
        0 <= i < findings@.len() && findings@[i].severity == Severity::Error ==> output.code == 1,
        (forall|j: int| 0 <= j < findings@.len() ==> (#[trigger] findings@[j]).severity != Severity::Error) ==> output.code
            == 0,
{
}

} // verus!

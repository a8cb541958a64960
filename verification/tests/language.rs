//! The static check, the command line, and the small parts.

use std::sync::Arc;

use hexput::ast::AccessKind;
use hexput::ast::AccessLink;
use hexput::ast::BinaryAt;
use hexput::ast::BinaryOperator;
use hexput::ast::Block;
use hexput::ast::BlockId;
use hexput::ast::Condition;
use hexput::ast::ExprId;
use hexput::ast::Expression;
use hexput::ast::ExpressionKind;
use hexput::ast::Identifier;
use hexput::ast::Literal;
use hexput::ast::Program;
use hexput::ast::Statement;
use hexput::ast::StatementKind;
use hexput::check::Environment;
use hexput::check::Outcome;
use hexput::check::Policy;
use hexput::check::check;
use hexput::cli::End;
use hexput::cli::conclude;
use hexput::cli::expression_source;
use hexput::cli::one_expression;
use hexput::cli::print::Piece;
use hexput::cli::print::literal;
use hexput::cli::report_expression;
use hexput::cli::report_not_text;
use hexput::cli::report_unreadable;
use hexput::cli::report_variable;
use hexput::cli::starting_variable;
use hexput::diagnostics::Category;
use hexput::diagnostics::Code;
use hexput::diagnostics::Diagnostic;
use hexput::diagnostics::Span;
use hexput::interpreter::execution::evaluate;
use hexput::interpreter::value::Array;
use hexput::interpreter::value::Object;
use hexput::interpreter::value::Value;
use hexput::number::Number;
use hexput::number::array_slot;
use hexput::number::widen;
use hexput::numeral::parses_as_number;
use hexput::table::Table;
use hexput::text::bounded_to;
use hexput::text::comes_before;
use hexput::text::decimal_text;
use hexput::text::same;
use hexput::text::signed_decimal_text;

fn at(offset: usize) -> Span {
    Span::new(offset, 1, 1, offset + 1)
}

fn statement(kind: StatementKind) -> Statement {
    Statement { span: at(0), terminator: None, kind }
}

fn program(statements: Vec<Statement>, expressions: Vec<(usize, ExpressionKind)>) -> Program {
    let expressions = expressions.into_iter().map(|(offset, kind)| Expression { span: at(offset), kind }).collect();
    let program = Program { span: at(0), statements, blocks: Vec::new(), expressions };
    assert!(program.is_well_formed() && program.is_acyclic());
    program
}

fn name(text: &str, offset: usize) -> Identifier {
    Identifier { name: text.to_owned(), span: at(offset) }
}

fn codes(program: &Program, environment: &Environment, policy: &Policy) -> Vec<&'static str> {
    check(program, environment, policy).diagnostics().iter().map(|d| d.code.as_str()).collect()
}

#[test]
fn undeclared_names_and_unused_variables_are_found_in_order() {
    let statements = vec![
        statement(StatementKind::Expression(ExprId(0))),
        statement(StatementKind::Let { keyword: at(5), name: name("x", 6), equals: at(7), initializer: ExprId(1) }),
    ];
    let tree = program(
        statements,
        vec![
            (1, ExpressionKind::Identifier(name("nope", 1))),
            (8, ExpressionKind::Literal(Literal::Null)),
        ],
    );
    let found = check(&tree, &Environment::new(), &Policy::new());
    let codes: Vec<&str> = found.diagnostics().iter().map(|d| d.code.as_str()).collect();
    assert_eq!(codes, vec![Code::UNDECLARED_IDENTIFIER, Code::UNUSED_VARIABLE]);
    assert_eq!(found.outcome(), Outcome::Errors);
    assert_eq!(found.error_count(), 1);
    let known = Environment::new().with_variables(vec!["nope".to_owned()]);
    assert_eq!(check(&tree, &known, &Policy::new()).outcome(), Outcome::Warnings);
}

#[test]
fn a_name_that_is_declared_nowhere_fails_as_reported() {
    let tree = program(
        vec![statement(StatementKind::Expression(ExprId(0)))],
        vec![(1, ExpressionKind::Identifier(name("nope", 1)))],
    );
    let found = check(&tree, &Environment::new(), &Policy::new());
    let reported = &found.diagnostics()[0];
    let failed = match evaluate(Arc::new(tree)) {
        Err(diagnostic) => diagnostic,
        Ok(_) => panic!("the name is bound nowhere"),
    };
    assert_eq!(failed.code.as_str(), reported.code.as_str());
    assert_eq!(failed.message, reported.message);
    assert_eq!(failed.span.offset, reported.span.offset);
}

#[test]
fn operands_that_can_never_fit_are_found() {
    let tree = program(
        vec![statement(StatementKind::Expression(ExprId(2)))],
        vec![
            (1, ExpressionKind::Literal(Literal::String("x".to_owned()))),
            (5, ExpressionKind::Literal(Literal::Number(Number::from_integer(1)))),
            (
                1,
                ExpressionKind::Binary {
                    left: ExprId(0),
                    operator: BinaryAt { kind: BinaryOperator::Subtract, span: at(3) },
                    right: ExprId(1),
                },
            ),
        ],
    );
    assert_eq!(codes(&tree, &Environment::new(), &Policy::new()), vec![Code::OPERAND_MISMATCH]);
}

#[test]
fn calls_are_reported_only_with_a_list_of_callables() {
    let call = AccessLink {
        span: at(2),
        operator: at(2),
        optional: false,
        kind: AccessKind::Call { open: at(2), arguments: Vec::new(), close: at(3) },
    };
    let tree = program(
        vec![statement(StatementKind::Expression(ExprId(1)))],
        vec![
            (1, ExpressionKind::Identifier(name("f", 1))),
            (1, ExpressionKind::Access { base: ExprId(0), links: vec![call] }),
        ],
    );
    assert!(check(&tree, &Environment::new(), &Policy::new()).is_empty());
    let none = Environment::new().with_callables(Vec::new());
    assert_eq!(codes(&tree, &none, &Policy::new()), vec![Code::UNKNOWN_FUNCTION]);
    let some = Environment::new().with_callables(vec!["f".to_owned()]);
    assert!(codes(&tree, &some, &Policy::new()).is_empty());
    let off = Policy { rpc_calls: false, ..Policy::new() };
    assert_eq!(codes(&tree, &some, &off), vec![Code::CONSTRUCT_DISABLED]);
}

#[test]
fn disabled_constructs_are_found() {
    let tree = program(
        vec![statement(StatementKind::Expression(ExprId(0)))],
        vec![(1, ExpressionKind::Array { open: at(1), elements: Vec::new(), close: at(2) })],
    );
    assert_eq!(check(&tree, &Environment::new(), &Policy::new()).outcome(), Outcome::Clean);
    let off = Policy { array_literals: false, ..Policy::default() };
    assert_eq!(codes(&tree, &Environment::default(), &off), vec![Code::CONSTRUCT_DISABLED]);
}

fn printed(value: &Value) -> String {
    let words = vec!["return".to_owned()];
    let mut out = String::new();
    for piece in literal(value, &words) {
        match piece {
            Piece::Text(text) => out.push_str(&text),
            Piece::Number(n) => out.push_str(&format!("{}", f64::from_bits(n.to_bits()))),
        }
    }
    out
}

#[test]
fn results_print_in_literal_form() {
    let text = Value::String(Arc::from("a\"b\\c\n\t\u{1}é"));
    assert_eq!(printed(&text), "\"a\\\"b\\\\c\\n\\t\\u{1}é\"");
    assert_eq!(printed(&Value::String(Arc::from("\u{9f}\r"))), "\"\\u{9f}\\r\"");
    assert_eq!(printed(&Value::Array(Array::from_values(Vec::new()))), "[]");
    assert_eq!(printed(&Value::Object(Object::from_entries(Vec::new()))), "{}");
    let inner = Value::Array(Array::from_values(vec![Value::Null, Value::Bool(false)]));
    let value = Value::Object(Object::from_entries(vec![
        (Arc::from("a"), Value::Number(Number::from_integer(5))),
        (Arc::from("return"), inner),
        (Arc::from("b c"), Value::Bool(true)),
    ]));
    assert_eq!(printed(&value), "{ a: 5, \"return\": [null, false], \"b c\": true }");
}

#[test]
fn different_values_print_differently_and_on_one_line() {
    let text = |text: &str| Value::String(Arc::from(text));
    let list = |items: Vec<Value>| Value::Array(Array::from_values(items));
    let object = |key: &str, value: Value| Value::Object(Object::from_entries(vec![(Arc::from(key), value)]));
    let values = vec![
        Value::Null,
        text("null"),
        Value::Bool(true),
        text("true"),
        text(""),
        text("\n"),
        text("\\n"),
        text("\u{1}0"),
        text("\u{10}"),
        list(Vec::new()),
        list(vec![list(Vec::new())]),
        list(vec![text("a, b")]),
        list(vec![text("a"), text("b")]),
        object("a", Value::Null),
        object("a b", Value::Null),
        object("\"a\"", Value::Null),
        Value::Object(Object::from_entries(Vec::new())),
    ];
    let lines: Vec<String> = values.iter().map(printed).collect();
    for (i, line) in lines.iter().enumerate() {
        assert!(!line.chars().any(char::is_control), "{line}");
        assert!(lines[..i].iter().all(|earlier| earlier != line), "{line}");
    }
}

#[test]
fn starting_variables_of_the_command_line() {
    let words = vec!["let".to_owned()];
    let bound = vec!["a".to_owned()];
    assert_eq!(starting_variable("n=1=2", &bound, &words), Ok(("n".to_owned(), "1=2".to_owned())));
    assert_eq!(
        starting_variable("n", &bound, &words).unwrap_err(),
        "hexput: --var `n` is not `name=<expression>`: the variable name and its Hexput expression are separated by `=`"
    );
    assert_eq!(
        starting_variable("let=1", &bound, &words).unwrap_err(),
        "hexput: --var `let=1`: `let` is not a variable name — a name is ASCII letters, digits and `_`, does not begin with a digit, and is not a reserved word"
    );
    assert_eq!(
        starting_variable("a=1", &bound, &words).unwrap_err(),
        "hexput: --var `a` was supplied more than once; give each starting variable exactly once"
    );
    assert_eq!(expression_source("5"), "return 5;");
    let empty = program(vec![statement(StatementKind::Return { keyword: at(0), value: None })], Vec::new());
    assert_eq!(
        one_expression(&empty, " ").unwrap_err(),
        "its value is empty; supply a Hexput expression, such as `5`, `\"hi\"`, `[1, 2]` or `{ a: 1 }`"
    );
    assert_eq!(
        one_expression(&empty, "1; 2").unwrap_err(),
        "its value must be exactly one Hexput expression, not a statement or a list of them"
    );
    let one = program(
        vec![statement(StatementKind::Return { keyword: at(0), value: Some(ExprId(0)) })],
        vec![(0, ExpressionKind::Literal(Literal::Null))],
    );
    assert!(one_expression(&one, "null").is_ok());
    assert_eq!(report_variable("n", "no"), "hexput: --var `n`: no");
}

fn diagnostic() -> Diagnostic {
    Diagnostic::new(Category::Syntax, Code::new(Code::EXPECTED_SYNTAX), "odd".to_owned(), Span::new(0, 1, 1, 1))
}

#[test]
fn every_end_has_its_stream_and_its_code() {
    let usage = conclude(End::Variables("bad".to_owned()), "", "s.hx");
    assert_eq!((usage.out, usage.err, usage.code), (None, Some("bad".to_owned()), 2));
    let unread = conclude(End::Unreadable(report_unreadable("s.hx", "gone")), "", "s.hx");
    assert_eq!(unread.err, Some("hexput: cannot read `s.hx`: gone".to_owned()));
    assert_eq!(unread.code, 1);
    let failed = conclude(End::Failed(diagnostic()), "x;", "s.hx");
    assert_eq!(failed.code, 1);
    assert!(failed.err.unwrap().contains("s.hx:1:1"));
    let done = conclude(End::Printed("5".to_owned()), "", "s.hx");
    assert_eq!((done.out, done.err, done.code), (Some("5".to_owned()), None, 0));
    assert_eq!(
        report_not_text("s.hx", 3),
        "hexput: cannot read `s.hx`: the file is not valid UTF-8 (byte 3 begins an invalid sequence)"
    );
    assert!(report_expression(&diagnostic(), "return x;")
        .starts_with("its value is not a Hexput expression that evaluates\n"));
}

#[test]
fn numbers_by_their_bits() {
    let number = |n: f64| Number::from_bits(n.to_bits());
    for n in [0_i64, 1, -1, 7, 1 << 53, -(1 << 53), 123_456_789] {
        assert_eq!(Number::from_integer(n).to_bits(), (n as f64).to_bits());
        assert_eq!(number(n as f64).exact_integer(), Some(n));
    }
    assert_eq!(number(0.5).exact_integer(), None);
    assert_eq!(number(1e300).exact_integer(), None);
    assert_eq!(number(-0.0).exact_integer(), Some(0));
    assert!(number(-0.0).equals(number(0.0)));
    assert!(!number(f64::NAN).equals(number(f64::NAN)));
    assert!(number(-2.0).less(number(-1.0)) && number(-1.0).less(number(0.5)));
    assert!(!number(f64::INFINITY).is_finite());
    assert_eq!(array_slot(number(3.0)), Some(3));
    assert_eq!(array_slot(number(-1.0)), None);
    assert_eq!(array_slot(number(1.5)), None);
    for n in [0.0_f32, 1.0, -1.5, f32::MIN_POSITIVE, 1e-45, f32::MAX, f32::INFINITY] {
        assert_eq!(widen(n.to_bits()).to_bits(), f64::from(n).to_bits());
    }
}

#[test]
fn texts_that_are_numbers() {
    for text in ["0", " 12 ", "-3", "+1.5", "2e10", "1.5E-3"] {
        assert!(parses_as_number(text), "{text}");
    }
    for text in ["", "abc", "1 2", "1.", ".5", "1e", "--1", "1e400"] {
        assert!(!parses_as_number(text), "{text}");
    }
    let overflow = "9".repeat(400);
    assert!(!parses_as_number(&overflow));
    let small = format!("0.{}1", "0".repeat(400));
    assert!(parses_as_number(&small));
}

#[test]
fn small_text_helpers() {
    assert!(same("é", "é") && !same("é", "e"));
    assert_eq!(decimal_text(0), "0");
    assert_eq!(decimal_text(u64::MAX), format!("{}", u64::MAX));
    assert_eq!(signed_decimal_text(i64::MIN), format!("{}", i64::MIN));
    assert_eq!(bounded_to("héllo", 2), "hé…");
    assert_eq!(bounded_to("hé", 2), "hé");
    assert!(comes_before("a", "ab") && comes_before("Z", "a") && !comes_before("b", "a"));
}

#[test]
fn tables_keep_their_order() {
    let mut table: Table<u8> = Table::new();
    for (key, value) in [("b", 1), ("a", 2), ("b", 3), ("c", 4)] {
        table.insert(Arc::from(key), value);
    }
    assert_eq!(table.len(), 3);
    let entries: Vec<(&str, u8)> = (0..3).map(|i| (&**table.key_at(i), *table.value_at(i))).collect();
    assert_eq!(entries, vec![("b", 3), ("a", 2), ("c", 4)]);
    assert_eq!(table.get("a"), Some(&2));
    assert_eq!(table.get("z"), None);
    assert_eq!(table.find("c"), Some(2));
}

#[test]
fn a_loop_is_one_finding_when_loops_are_off() {
    let mut tree = program(Vec::new(), vec![(6, ExpressionKind::Literal(Literal::Bool(false)))]);
    tree.blocks = vec![Block { span: at(7), open: at(7), close: at(8), statements: Vec::new() }];
    tree.statements = vec![statement(StatementKind::While {
        keyword: at(4),
        condition: Condition { open: at(5), expression: ExprId(0), close: at(6) },
        body: BlockId(0),
    })];
    assert!(check(&tree, &Environment::new(), &Policy::new()).is_empty());
    let off = Policy { loops: false, ..Policy::new() };
    let found = check(&tree, &Environment::new(), &off);
    assert_eq!(found.diagnostics().len(), 1);
    let finding = &found.diagnostics()[0];
    assert_eq!(finding.code.as_str(), Code::CONSTRUCT_DISABLED);
    assert_eq!(finding.category.as_str(), "policy");
    assert_eq!(finding.message, "`while` is disabled by the `loops` policy toggle");
    assert_eq!(finding.span.offset, 4);
}

//! What the static check says of a Script, held against what a run of it does.

use std::sync::Arc;

use hexput::ast::AccessKind;
use hexput::ast::AccessLink;
use hexput::ast::BinaryAt;
use hexput::ast::BinaryOperator;
use hexput::ast::Block;
use hexput::ast::BlockId;
use hexput::ast::ExprId;
use hexput::ast::Expression;
use hexput::ast::ExpressionKind;
use hexput::ast::Function;
use hexput::ast::Identifier;
use hexput::ast::Literal;
use hexput::ast::Program;
use hexput::ast::Statement;
use hexput::ast::StatementKind;
use hexput::ast::UnaryAt;
use hexput::ast::UnaryOperator;
use hexput::check::Environment;
use hexput::check::Findings;
use hexput::check::Policy;
use hexput::check::check;
use hexput::cli::conclude_check;
use hexput::cli::declared_variable;
use hexput::diagnostics::Code;
use hexput::diagnostics::Diagnostic;
use hexput::diagnostics::Span;
use hexput::interpreter::execution::Progress;
use hexput::interpreter::execution::evaluate_with_variables;
use hexput::interpreter::execution::proceed;
use hexput::interpreter::operators::Answer;
use hexput::interpreter::operators::Operand;
use hexput::interpreter::operators::Question;
use hexput::interpreter::semantics::Operation;
use hexput::interpreter::value::Value;
use hexput::number::Number;

/// A tree in which every node has a place of its own.
struct Tree {
    program: Program,
    next: usize,
}

impl Tree {
    fn new() -> Self {
        let program = Program {
            span: Span::new(0, 1, 1, 1),
            statements: Vec::new(),
            blocks: Vec::new(),
            expressions: Vec::new(),
        };
        Tree { program, next: 0 }
    }

    fn span(&mut self) -> Span {
        self.next += 1;
        Span::new(self.next, 1, 1, self.next + 1)
    }

    fn identifier(&mut self, name: &str) -> Identifier {
        Identifier { name: name.to_owned(), span: self.span() }
    }

    fn expression(&mut self, kind: ExpressionKind) -> ExprId {
        let span = self.span();
        self.program.expressions.push(Expression { span, kind });
        ExprId(self.program.expressions.len() - 1)
    }

    fn literal(&mut self, literal: Literal) -> ExprId {
        self.expression(ExpressionKind::Literal(literal))
    }

    fn number(&mut self, n: i64) -> ExprId {
        self.literal(Literal::Number(Number::from_integer(n)))
    }

    fn name(&mut self, name: &str) -> ExprId {
        let node = self.identifier(name);
        self.expression(ExpressionKind::Identifier(node))
    }

    fn call(&mut self, name: &str, arguments: Vec<ExprId>) -> ExprId {
        let base = self.name(name);
        let link = AccessLink {
            span: self.span(),
            operator: self.span(),
            optional: false,
            kind: AccessKind::Call { open: self.span(), arguments, close: self.span() },
        };
        self.expression(ExpressionKind::Access { base, links: vec![link] })
    }

    fn negate(&mut self, operand: ExprId) -> ExprId {
        let operator = UnaryAt { kind: UnaryOperator::Negate, span: self.span() };
        self.expression(ExpressionKind::Unary { operator, operand })
    }

    fn binary(&mut self, left: ExprId, kind: BinaryOperator, right: ExprId) -> ExprId {
        let operator = BinaryAt { kind, span: self.span() };
        self.expression(ExpressionKind::Binary { left, operator, right })
    }

    fn statement(&mut self, kind: StatementKind) -> Statement {
        Statement { span: self.span(), terminator: None, kind }
    }

    fn run(&mut self, id: ExprId) -> Statement {
        self.statement(StatementKind::Expression(id))
    }

    fn declare(&mut self, name: &str, initializer: ExprId) -> Statement {
        let kind = StatementKind::Let {
            keyword: self.span(),
            name: self.identifier(name),
            equals: self.span(),
            initializer,
        };
        self.statement(kind)
    }

    fn assign(&mut self, name: &str, value: ExprId) -> Statement {
        let kind = StatementKind::Assignment { target: self.name(name), equals: self.span(), value };
        self.statement(kind)
    }

    fn ret(&mut self, value: ExprId) -> Statement {
        let kind = StatementKind::Return { keyword: self.span(), value: Some(value) };
        self.statement(kind)
    }

    fn body(&mut self, statements: Vec<Statement>) -> BlockId {
        let block = Block { span: self.span(), open: self.span(), close: self.span(), statements };
        self.program.blocks.push(block);
        BlockId(self.program.blocks.len() - 1)
    }

    fn block(&mut self, statements: Vec<Statement>) -> Statement {
        let body = self.body(statements);
        self.statement(StatementKind::Block(body))
    }

    fn function(&mut self, parameters: &[&str], statements: Vec<Statement>) -> Function {
        let body = self.body(statements);
        Function {
            keyword: self.span(),
            open: self.span(),
            parameters: parameters.iter().map(|name| self.identifier(name)).collect(),
            close: self.span(),
            body,
        }
    }

    fn lambda(&mut self, parameters: &[&str], statements: Vec<Statement>) -> ExprId {
        let function = self.function(parameters, statements);
        self.expression(ExpressionKind::Function(function))
    }

    fn done(mut self, statements: Vec<Statement>) -> Program {
        self.program.statements = statements;
        assert!(self.program.is_well_formed() && self.program.is_acyclic());
        self.program
    }
}

fn findings(program: &Program, variables: &[&str]) -> Findings {
    let names = variables.iter().map(|name| (*name).to_owned()).collect();
    check(program, &Environment::new().with_variables(names), &Policy::new())
}

fn codes(program: &Program, variables: &[&str]) -> Vec<&'static str> {
    findings(program, variables).diagnostics().iter().map(|d| d.code.as_str()).collect()
}

/// Run a program with `null` in every variable, with an answer to every question.
fn outcome(program: Program, variables: &[&str], answer: fn(&Question) -> Answer) -> Result<Value, Diagnostic> {
    let bound = variables.iter().map(|name| (Arc::from(*name), Value::Null)).collect();
    let mut progress = evaluate_with_variables(Arc::new(program), bound)?;
    loop {
        progress = match progress {
            Progress::Done(value) => return Ok(value),
            Progress::Ask(asked) => {
                let reply = answer(asked.question());
                proceed(asked.answer(reply))?
            }
            Progress::Again(execution) => proceed(execution)?,
        };
    }
}

fn unasked(_question: &Question) -> Answer {
    panic!("nothing is to be asked")
}

/// The first error of the check is the failure of the run.
fn fails_as_reported(program: Program, variables: &[&str]) {
    let found = findings(&program, variables);
    let reported = found.diagnostics().iter().find(|d| d.code.as_str() != Code::UNUSED_VARIABLE).unwrap().clone();
    let failed = outcome(program, variables, unasked).err().unwrap();
    assert_eq!(failed.code.as_str(), reported.code.as_str());
    assert_eq!(failed.message, reported.message);
    assert_eq!(failed.span, reported.span);
}

/// `{ f = fn() { <statement> }; } let y = fn() { return 1; }; return f();`
fn body_before_its_name(inner: fn(&mut Tree) -> Statement) -> Program {
    let mut tree = Tree::new();
    let statement = inner(&mut tree);
    let f = tree.lambda(&[], vec![statement]);
    let assigned = tree.assign("f", f);
    let first = tree.block(vec![assigned]);
    let one = tree.number(1);
    let returned = tree.ret(one);
    let y = tree.lambda(&[], vec![returned]);
    let second = tree.declare("y", y);
    let call = tree.call("f", Vec::new());
    let third = tree.ret(call);
    tree.done(vec![first, second, third])
}

#[test]
fn a_body_may_use_what_a_block_around_it_declares_later() {
    // { f = fn() { return y; }; } let y = 1; return f();
    let mut tree = Tree::new();
    let y = tree.name("y");
    let returned = tree.ret(y);
    let f = tree.lambda(&[], vec![returned]);
    let assigned = tree.assign("f", f);
    let first = tree.block(vec![assigned]);
    let one = tree.number(1);
    let second = tree.declare("y", one);
    let call = tree.call("f", Vec::new());
    let third = tree.ret(call);
    let program = tree.done(vec![first, second, third]);
    assert!(codes(&program, &["f"]).is_empty());
    let result = outcome(program, &["f"], unasked).unwrap();
    assert_eq!(result.as_number(), Some(Number::from_integer(1)));
}

#[test]
fn a_body_may_call_and_assign_what_is_declared_later() {
    let calls = body_before_its_name(|tree| {
        let call = tree.call("y", Vec::new());
        tree.ret(call)
    });
    assert!(codes(&calls, &["f"]).is_empty());
    let result = outcome(calls, &["f"], unasked).unwrap();
    assert_eq!(result.as_number(), Some(Number::from_integer(1)));
    let assigns = body_before_its_name(|tree| {
        let two = tree.number(2);
        tree.assign("y", two)
    });
    assert_eq!(codes(&assigns, &["f"]), vec![Code::UNUSED_VARIABLE]);
    assert!(outcome(assigns, &["f"], unasked).is_ok());
}

#[test]
fn a_call_past_a_later_declaration_is_not_judged() {
    // fn g() {} { { f = fn() { return g(1); }; } let g = fn(a) { return a; }; return f(); }
    let mut tree = Tree::new();
    let none = tree.function(&[], Vec::new());
    let name = tree.identifier("g");
    let outer = tree.statement(StatementKind::Function { name, function: none });
    let one = tree.number(1);
    let call = tree.call("g", vec![one]);
    let returned = tree.ret(call);
    let f = tree.lambda(&[], vec![returned]);
    let assigned = tree.assign("f", f);
    let inner = tree.block(vec![assigned]);
    let a = tree.name("a");
    let back = tree.ret(a);
    let g = tree.lambda(&["a"], vec![back]);
    let declared = tree.declare("g", g);
    let f_called = tree.call("f", Vec::new());
    let end = tree.ret(f_called);
    let middle = tree.block(vec![inner, declared, end]);
    let program = tree.done(vec![outer, middle]);
    assert!(!codes(&program, &["f"]).contains(&Code::ARGUMENT_COUNT));
    let result = outcome(program, &["f"], unasked).unwrap();
    assert_eq!(result.as_number(), Some(Number::from_integer(1)));
}

#[test]
fn a_name_read_before_it_is_declared_fails_as_reported() {
    // x; let x = 1;
    let mut tree = Tree::new();
    let x = tree.name("x");
    let first = tree.run(x);
    let one = tree.number(1);
    let second = tree.declare("x", one);
    fails_as_reported(tree.done(vec![first, second]), &[]);
}

#[test]
fn a_name_read_outside_its_block_fails_as_reported() {
    // { let x = 1; } x;
    let mut tree = Tree::new();
    let one = tree.number(1);
    let declared = tree.declare("x", one);
    let first = tree.block(vec![declared]);
    let x = tree.name("x");
    let second = tree.run(x);
    fails_as_reported(tree.done(vec![first, second]), &[]);
}

#[test]
fn a_name_read_in_a_body_outside_its_block_fails_as_reported() {
    // { let x = 1; } let f = fn() { return x; }; f();
    let mut tree = Tree::new();
    let one = tree.number(1);
    let declared = tree.declare("x", one);
    let first = tree.block(vec![declared]);
    let x = tree.name("x");
    let returned = tree.ret(x);
    let f = tree.lambda(&[], vec![returned]);
    let second = tree.declare("f", f);
    let call = tree.call("f", Vec::new());
    let third = tree.run(call);
    fails_as_reported(tree.done(vec![first, second, third]), &[]);
}

#[test]
fn a_name_assigned_before_it_is_declared_fails_as_reported() {
    // x = 1; let x = 2;
    let mut tree = Tree::new();
    let one = tree.number(1);
    let first = tree.assign("x", one);
    let two = tree.number(2);
    let second = tree.declare("x", two);
    fails_as_reported(tree.done(vec![first, second]), &[]);
}

#[test]
fn a_call_with_too_few_arguments_fails_as_reported() {
    // f(); fn f(a) {}
    let mut tree = Tree::new();
    let call = tree.call("f", Vec::new());
    let first = tree.run(call);
    let function = tree.function(&["a"], Vec::new());
    let name = tree.identifier("f");
    let second = tree.statement(StatementKind::Function { name, function });
    fails_as_reported(tree.done(vec![first, second]), &[]);
}

#[test]
fn a_call_fails_as_reported_after_its_arguments() {
    // fn f(a) {} fn g() { return 1; } { f(g(), g()); }
    let mut tree = Tree::new();
    let function = tree.function(&["a"], Vec::new());
    let name = tree.identifier("f");
    let first = tree.statement(StatementKind::Function { name, function });
    let one = tree.number(1);
    let returned = tree.ret(one);
    let function = tree.function(&[], vec![returned]);
    let name = tree.identifier("g");
    let second = tree.statement(StatementKind::Function { name, function });
    let left = tree.call("g", Vec::new());
    let right = tree.call("g", Vec::new());
    let call = tree.call("f", vec![left, right]);
    let inner = tree.run(call);
    let third = tree.block(vec![inner]);
    fails_as_reported(tree.done(vec![first, second, third]), &[]);
}

#[test]
fn null_and_booleans_convert_without_a_question() {
    let mut tree = Tree::new();
    let null = tree.literal(Literal::Null);
    let minus = tree.negate(null);
    let end = tree.ret(minus);
    let result = outcome(tree.done(vec![end]), &[], unasked).unwrap();
    assert_eq!(result.as_number().map(Number::to_bits), Some((-0.0f64).to_bits()));

    let mut tree = Tree::new();
    let yes = tree.literal(Literal::Bool(true));
    let minus = tree.negate(yes);
    let end = tree.ret(minus);
    let result = outcome(tree.done(vec![end]), &[], unasked).unwrap();
    assert_eq!(result.as_number(), Some(Number::from_integer(-1)));

    let mut tree = Tree::new();
    let null = tree.literal(Literal::Null);
    let yes = tree.literal(Literal::Bool(true));
    let less = tree.binary(null, BinaryOperator::Less, yes);
    let end = tree.ret(less);
    assert!(matches!(outcome(tree.done(vec![end]), &[], unasked), Ok(Value::Bool(true))));

    let mut tree = Tree::new();
    let text = tree.literal(Literal::String("is ".to_owned()));
    let no = tree.literal(Literal::Bool(false));
    let first = tree.binary(text, BinaryOperator::Add, no);
    let null = tree.literal(Literal::Null);
    let second = tree.binary(first, BinaryOperator::Add, null);
    let end = tree.ret(second);
    match outcome(tree.done(vec![end]), &[], unasked) {
        Ok(Value::String(joined)) => assert_eq!(&*joined, "is falsenull"),
        _ => panic!("texts join"),
    }
}

fn reply(left: f64, right: f64, result: f64) -> Answer {
    Answer {
        left: Number::from_bits(left.to_bits()),
        right: Number::from_bits(right.to_bits()),
        result: Number::from_bits(result.to_bits()),
        left_text: Arc::from(""),
        right_text: Arc::from(""),
    }
}

fn sum_of_null_and_true(question: &Question) -> Answer {
    assert_eq!(question.operation, Operation::Add);
    assert!(matches!(question.left, Operand::Number(n) if n == Number::from_integer(0)));
    assert!(matches!(question.right, Operand::Number(n) if n == Number::from_integer(1)));
    reply(0.0, 1.0, 1.0)
}

fn infinite(_question: &Question) -> Answer {
    reply(f64::INFINITY, 0.0, f64::INFINITY)
}

#[test]
fn questions_are_about_numbers_and_their_texts() {
    let mut tree = Tree::new();
    let null = tree.literal(Literal::Null);
    let yes = tree.literal(Literal::Bool(true));
    let sum = tree.binary(null, BinaryOperator::Add, yes);
    let end = tree.ret(sum);
    let result = outcome(tree.done(vec![end]), &[], sum_of_null_and_true).unwrap();
    assert_eq!(result.as_number(), Some(Number::from_integer(1)));
}

#[test]
fn an_answer_that_is_not_finite_ends_the_execution() {
    let mut tree = Tree::new();
    let text = tree.literal(Literal::String("5".to_owned()));
    let minus = tree.negate(text);
    let end = tree.ret(minus);
    let failed = outcome(tree.done(vec![end]), &[], infinite).err().unwrap();
    assert_eq!(failed.code.as_str(), Code::NON_FINITE);
    assert_eq!(failed.message, "the result of `-` is not a finite number");

    let mut tree = Tree::new();
    let one = tree.number(1);
    let two = tree.number(2);
    let sum = tree.binary(one, BinaryOperator::Add, two);
    let end = tree.ret(sum);
    let failed = outcome(tree.done(vec![end]), &[], infinite).err().unwrap();
    assert_eq!(failed.code.as_str(), Code::NON_FINITE);
}

#[test]
fn a_check_takes_names_once() {
    let words = vec!["let".to_owned()];
    let bound = vec!["a".to_owned()];
    assert_eq!(declared_variable("n", &bound, &words), Ok("n".to_owned()));
    assert_eq!(
        declared_variable("n=1", &bound, &words).unwrap_err(),
        "hexput: --var `n=1` is not a variable name — a name is ASCII letters, digits and `_`, does not begin with a digit, and is not a reserved word"
    );
    assert_eq!(
        declared_variable("a", &bound, &words).unwrap_err(),
        "hexput: --var `a` was supplied more than once; give each starting variable exactly once"
    );
}

#[test]
fn a_check_fails_on_errors_only() {
    let mut tree = Tree::new();
    let one = tree.number(1);
    let first = tree.declare("x", one);
    let program = tree.done(vec![first]);
    let found = findings(&program, &[]);
    let warned = conclude_check(&found, "let x = 1;", "s.hx");
    assert_eq!((warned.out, warned.code), (None, 0));
    assert!(warned.err.unwrap().contains("`x` is declared but never read"));

    let mut tree = Tree::new();
    let a = tree.name("a");
    let first = tree.run(a);
    let b = tree.name("b");
    let second = tree.run(b);
    let program = tree.done(vec![first, second]);
    let failed = conclude_check(&findings(&program, &[]), "a; b;", "s.hx");
    assert_eq!(failed.code, 1);
    let text = failed.err.unwrap();
    assert!(text.contains("`a`") && text.contains("`b`"));
    let clean = conclude_check(&findings(&program, &["a", "b"]), "a; b;", "s.hx");
    assert_eq!((clean.out, clean.err, clean.code), (None, None, 0));
}

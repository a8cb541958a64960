//! The evaluator, on trees built by hand.

use std::sync::Arc;

use hexput::ast::AccessKind;
use hexput::ast::AccessLink;
use hexput::ast::BinaryAt;
use hexput::ast::BinaryOperator;
use hexput::ast::Block;
use hexput::ast::BlockId;
use hexput::ast::Condition;
use hexput::ast::ConditionalBranch;
use hexput::ast::ExprId;
use hexput::ast::Expression;
use hexput::ast::ExpressionKind;
use hexput::ast::Function;
use hexput::ast::Identifier;
use hexput::ast::Literal;
use hexput::ast::ObjectEntry;
use hexput::ast::Program;
use hexput::ast::Statement;
use hexput::ast::StatementKind;
use hexput::diagnostics::Code;
use hexput::diagnostics::Diagnostic;
use hexput::diagnostics::Span;
use hexput::interpreter::execution::Execution;
use hexput::interpreter::execution::Outcome;
use hexput::interpreter::execution::Progress;
use hexput::interpreter::execution::evaluate;
use hexput::interpreter::execution::evaluate_with_variables;
use hexput::interpreter::execution::proceed;
use hexput::interpreter::heap::Heap;
use hexput::interpreter::heap::RtValue;
use hexput::interpreter::machine::Machine;
use hexput::interpreter::machine::Stop;
use hexput::interpreter::operators::Answer;
use hexput::interpreter::operators::Operand;
use hexput::interpreter::operators::Question;
use hexput::interpreter::semantics::Meter;
use hexput::interpreter::semantics::Operation;
use hexput::interpreter::value::Array;
use hexput::interpreter::value::Object;
use hexput::interpreter::value::Value;
use hexput::number::Number;

fn span() -> Span {
    Span::new(0, 0, 1, 1)
}

fn number(n: f64) -> Number {
    Number::from_bits(n.to_bits())
}

fn float(n: Number) -> f64 {
    f64::from_bits(n.to_bits())
}

fn identifier(name: &str) -> Identifier {
    Identifier { name: name.to_owned(), span: span() }
}

fn statement(kind: StatementKind) -> Statement {
    Statement { span: span(), terminator: None, kind }
}

struct Build(Program);

impl Build {
    fn new() -> Self {
        Build(Program { span: span(), statements: Vec::new(), blocks: Vec::new(), expressions: Vec::new() })
    }

    fn expression(&mut self, kind: ExpressionKind) -> ExprId {
        self.0.expressions.push(Expression { span: span(), kind });
        ExprId(self.0.expressions.len() - 1)
    }

    fn literal(&mut self, literal: Literal) -> ExprId {
        self.expression(ExpressionKind::Literal(literal))
    }

    fn number(&mut self, n: f64) -> ExprId {
        self.literal(Literal::Number(number(n)))
    }

    fn string(&mut self, text: &str) -> ExprId {
        self.literal(Literal::String(text.to_owned()))
    }

    fn name(&mut self, name: &str) -> ExprId {
        self.expression(ExpressionKind::Identifier(identifier(name)))
    }

    fn array(&mut self, elements: Vec<ExprId>) -> ExprId {
        self.expression(ExpressionKind::Array { open: span(), elements, close: span() })
    }

    fn binary(&mut self, left: ExprId, kind: BinaryOperator, right: ExprId) -> ExprId {
        self.expression(ExpressionKind::Binary { left, operator: BinaryAt { kind, span: span() }, right })
    }

    fn index(&mut self, base: ExprId, expression: ExprId) -> ExprId {
        let kind = AccessKind::Index { open: span(), expression, close: span() };
        self.expression(ExpressionKind::Access {
            base,
            links: vec![AccessLink { span: span(), operator: span(), optional: false, kind }],
        })
    }

    fn call(&mut self, base: ExprId, arguments: Vec<ExprId>) -> ExprId {
        let kind = AccessKind::Call { open: span(), arguments, close: span() };
        self.expression(ExpressionKind::Access {
            base,
            links: vec![AccessLink { span: span(), operator: span(), optional: false, kind }],
        })
    }

    fn body(&mut self, statements: Vec<Statement>) -> BlockId {
        self.0.blocks.push(Block { span: span(), open: span(), close: span(), statements });
        BlockId(self.0.blocks.len() - 1)
    }

    fn block(&mut self, statements: Vec<Statement>) -> Statement {
        let body = self.body(statements);
        statement(StatementKind::Block(body))
    }

    fn function(&mut self, parameters: &[&str], statements: Vec<Statement>) -> Function {
        let body = self.body(statements);
        Function {
            keyword: span(),
            open: span(),
            parameters: parameters.iter().map(|name| identifier(name)).collect(),
            close: span(),
            body,
        }
    }

    fn declare(&mut self, name: &str, initializer: ExprId) -> Statement {
        statement(StatementKind::Let { keyword: span(), name: identifier(name), equals: span(), initializer })
    }

    fn assign(&mut self, target: ExprId, value: ExprId) -> Statement {
        statement(StatementKind::Assignment { target, equals: span(), value })
    }

    fn ret(&mut self, value: Option<ExprId>) -> Statement {
        statement(StatementKind::Return { keyword: span(), value })
    }

    /// `let a = ["marker"]; a[1] = a;`: an array that contains itself and a string.
    fn cycle(&mut self) -> Vec<Statement> {
        let marker = self.string("marker");
        let array = self.array(vec![marker]);
        let declare = self.declare("a", array);
        let receiver = self.name("a");
        let one = self.number(1.0);
        let target = self.index(receiver, one);
        let value = self.name("a");
        vec![declare, self.assign(target, value)]
    }

    fn done(self) -> Arc<Program> {
        assert!(self.0.is_well_formed());
        Arc::new(self.0)
    }
}

fn to_float(operand: &Operand) -> f64 {
    match operand {
        Operand::Number(n) => float(*n),
        Operand::Text(text) => text.trim().parse().unwrap_or(f64::NAN),
    }
}

fn to_text(operand: &Operand) -> Arc<str> {
    match operand {
        Operand::Number(n) => Arc::from(format!("{}", float(*n))),
        Operand::Text(text) => text.clone(),
    }
}

fn answer(question: &Question) -> Answer {
    let (left, right) = (to_float(&question.left), to_float(&question.right));
    let result = match question.operation {
        Operation::Add => left + right,
        Operation::Subtract => left - right,
        Operation::Multiply => left * right,
        Operation::Divide => left / right,
        Operation::Remainder => left % right,
        _ => 0.0,
    };
    Answer {
        left: number(left),
        right: number(right),
        result: number(result),
        left_text: to_text(&question.left),
        right_text: to_text(&question.right),
    }
}

/// Run `machine` to its result; these trees make no host call.
fn finish(machine: &mut Machine) -> Result<Value, Diagnostic> {
    loop {
        match machine.execute()? {
            Stop::Finished(value) => return Ok(value),
            Stop::Ask(question) => machine.answer(answer(&question)),
            Stop::HostCall(call) => panic!("unexpected host call to `{}`", call.name),
            Stop::Paused(_) | Stop::OutOfMemory(_) | Stop::AllocationsExceeded(_) => panic!("these machines are unmetered"),
        }
    }
}

fn marker(machine: &Machine) -> Arc<str> {
    let strings = machine.heap().strings();
    let found = strings.iter().find(|s| s.as_ref() == "marker");
    Arc::clone(found.expect("the marker string is in the heap"))
}

fn as_float(value: &Value) -> Option<f64> {
    value.as_number().map(float)
}

#[test]
fn machine_is_send() {
    fn assert_send<T: Send>() {}
    fn assert_static<T: 'static>() {}
    assert_send::<Machine>();
    assert_static::<Machine>();
}

#[test]
fn a_cycle_is_freed_when_the_execution_returns() {
    let mut build = Build::new();
    let mut statements = build.cycle();
    let one = build.number(1.0);
    statements.push(build.ret(Some(one)));
    build.0.statements = statements;
    let program = build.done();

    let mut machine = Machine::new(program);
    let result = finish(&mut machine).expect("evaluates");
    assert_eq!(as_float(&result), Some(1.0));
    assert!(machine.heap().has_self_containing_array());
    let marker = marker(&machine);
    assert!(Arc::strong_count(&marker) > 1);
    drop(machine);
    assert_eq!(Arc::strong_count(&marker), 1, "the heap released the cycle");
}

#[test]
fn a_cycle_is_freed_when_the_execution_fails() {
    let mut build = Build::new();
    let mut statements = build.cycle();
    let nope = build.name("nope");
    statements.push(statement(StatementKind::Expression(nope)));
    build.0.statements = statements;
    let program = build.done();

    let mut machine = Machine::new(program);
    let error = finish(&mut machine).map(|_| ()).expect_err("fails");
    assert_eq!(error.code.as_str(), Code::UNDECLARED_IDENTIFIER);
    assert!(machine.heap().has_self_containing_array());
    let marker = marker(&machine);
    drop(machine);
    assert_eq!(Arc::strong_count(&marker), 1, "the heap released the cycle");
}

#[test]
fn only_the_detached_result_outlives_the_execution() {
    let mut build = Build::new();
    let mut statements = build.cycle();
    let receiver = build.name("a");
    let zero = build.number(0.0);
    let element = build.index(receiver, zero);
    let returned = build.array(vec![element]);
    statements.push(build.ret(Some(returned)));
    build.0.statements = statements;
    let program = build.done();

    let mut machine = Machine::new(program);
    let result = finish(&mut machine).expect("evaluates");
    let marker = marker(&machine);
    drop(machine);
    assert_eq!(Arc::strong_count(&marker), 2, "held by the result alone");
    drop(result);
    assert_eq!(Arc::strong_count(&marker), 1);
}

#[test]
fn a_captured_scope_survives_its_block_and_keeps_its_bindings() {
    let mut build = Build::new();
    let null = build.literal(Literal::Null);
    let declare_f = build.declare("f", null);
    let seven = build.number(7.0);
    let declare_hidden = build.declare("hidden", seven);
    let read_hidden = build.name("hidden");
    let inner_return = build.ret(Some(read_hidden));
    let closure = build.function(&[], vec![inner_return]);
    let closure_expression = build.expression(ExpressionKind::Function(closure));
    let target = build.name("f");
    let assign = build.assign(target, closure_expression);
    let block = build.block(vec![declare_hidden, assign]);
    let callee = build.name("f");
    let call = build.call(callee, Vec::new());
    let result = build.ret(Some(call));
    build.0.statements = vec![declare_f, block, result];
    let program = build.done();

    let mut machine = Machine::new(program);
    let value = finish(&mut machine).expect("evaluates");
    assert_eq!(as_float(&value), Some(7.0), "the capture is intact");
    // The root scope, the captured block scope, and the function value.
    assert_eq!(machine.heap().live(), 3);
}

#[test]
fn a_block_that_creates_no_function_is_still_reclaimed() {
    let mut build = Build::new();
    let seven = build.number(7.0);
    let declare_hidden = build.declare("hidden", seven);
    let block = build.block(vec![declare_hidden]);
    build.0.statements = vec![block];
    let program = build.done();

    let mut machine = Machine::new(program);
    finish(&mut machine).expect("evaluates");
    assert_eq!(machine.heap().live(), 1, "only the root scope is live");
}

#[test]
fn call_scopes_that_capture_nothing_are_reclaimed() {
    let n = 5_000;
    let mut build = Build::new();
    let a = build.name("a");
    let body_return = build.ret(Some(a));
    let identity = build.function(&["a"], vec![body_return]);
    let declaration = statement(StatementKind::Function { name: identifier("id"), function: identity });
    let mut statements = vec![declaration];
    for _ in 0..n {
        let callee = build.name("id");
        let one = build.number(1.0);
        let call = build.call(callee, vec![one]);
        statements.push(statement(StatementKind::Expression(call)));
    }
    build.0.statements = statements;
    let program = build.done();

    let mut machine = Machine::new(program);
    finish(&mut machine).expect("evaluates");
    // The root scope and the one function value; the call scope is on the free list.
    assert_eq!(machine.heap().live(), 2);
    assert_eq!(machine.heap().capacity(), 3, "every call reused the same reclaimed scope slot");
}

#[test]
fn recursion_unwinds_its_call_scopes() {
    // `fn down(n) { if (n == 0) { return 0; }; return down(n - 1); }; return down(500);`
    let depth = 500.0;
    let mut build = Build::new();
    let zero_literal = build.number(0.0);
    let base_return = build.ret(Some(zero_literal));
    let base_body = build.body(vec![base_return]);
    let n_read = build.name("n");
    let zero = build.number(0.0);
    let test = build.binary(n_read, BinaryOperator::Equal, zero);
    let guard = statement(StatementKind::If {
        branches: vec![ConditionalBranch {
            else_keyword: None,
            keyword: span(),
            condition: Condition { open: span(), expression: test, close: span() },
            body: base_body,
        }],
        else_branch: None,
    });
    let n_again = build.name("n");
    let one = build.number(1.0);
    let next = build.binary(n_again, BinaryOperator::Subtract, one);
    let callee = build.name("down");
    let recurse = build.call(callee, vec![next]);
    let tail = build.ret(Some(recurse));
    let function = build.function(&["n"], vec![guard, tail]);
    let declaration = statement(StatementKind::Function { name: identifier("down"), function });
    let entry = build.name("down");
    let argument = build.number(depth);
    let call = build.call(entry, vec![argument]);
    let result = build.ret(Some(call));
    build.0.statements = vec![declaration, result];
    let program = build.done();

    let mut machine = Machine::new(program);
    let value = finish(&mut machine).expect("evaluates");
    assert_eq!(as_float(&value), Some(0.0));
    assert_eq!(machine.heap().live(), 2, "every call scope was reclaimed");
}

#[test]
fn exited_block_scopes_are_reclaimed() {
    let n = 12_000;
    let mut build = Build::new();
    let mut statements = Vec::new();
    for _ in 0..n {
        let one = build.number(1.0);
        let declare = build.declare("y", one);
        statements.push(build.block(vec![declare]));
    }
    let one = build.number(1.0);
    let mut nested = build.declare("y", one);
    for _ in 0..n {
        nested = build.block(vec![nested]);
    }
    statements.push(nested);
    for _ in 0..n {
        let one = build.number(1.0);
        let declare = build.declare("y", one);
        statements.push(build.block(vec![declare]));
    }
    build.0.statements = statements;
    let program = build.done();

    let mut machine = Machine::new(program);
    finish(&mut machine).expect("evaluates");
    assert_eq!(machine.heap().live(), 1, "only the root scope is live");
    assert_eq!(machine.heap().capacity(), n + 1, "the nested run peaks at n + 1 scopes; siblings add none");
    let empty = Build::new().done();
    assert_eq!(machine.memory_used(), Machine::new(empty).memory_used());
}

fn result_of(program: Arc<Program>) -> Result<Value, Diagnostic> {
    let mut progress = evaluate(program)?;
    loop {
        progress = match progress {
            Progress::Done(value) => return Ok(value),
            Progress::Again(execution) => proceed(execution)?,
            Progress::Ask(asked) => {
                let reply = answer(asked.question());
                proceed(asked.answer(reply))?
            }
        };
    }
}

/// `return <left> <operator> <right>;`
fn operate(left: Literal, operator: BinaryOperator, right: Literal) -> Result<Value, Diagnostic> {
    let mut build = Build::new();
    let l = build.literal(left);
    let r = build.literal(right);
    let expression = build.binary(l, operator, r);
    let returned = build.ret(Some(expression));
    build.0.statements = vec![returned];
    result_of(build.done())
}

fn num(n: f64) -> Literal {
    Literal::Number(number(n))
}

fn text(s: &str) -> Literal {
    Literal::String(s.to_owned())
}

#[test]
fn arithmetic_and_comparison() {
    assert_eq!(as_float(&operate(num(2.0), BinaryOperator::Add, num(3.0)).unwrap()), Some(5.0));
    assert_eq!(as_float(&operate(num(7.0), BinaryOperator::Remainder, num(4.0)).unwrap()), Some(3.0));
    assert_eq!(operate(num(1.0), BinaryOperator::Less, num(2.0)).unwrap().as_bool(), Some(true));
    assert_eq!(operate(text("a"), BinaryOperator::Less, text("b")).unwrap().as_bool(), Some(true));
    assert_eq!(operate(num(0.0), BinaryOperator::Equal, num(-0.0)).unwrap().as_bool(), Some(true));
    assert_eq!(operate(text("ab"), BinaryOperator::Add, text("cd")).unwrap().as_str(), Some("abcd"));
    assert_eq!(operate(text("n"), BinaryOperator::Add, num(3.0)).unwrap().as_str(), Some("n3"));
}

#[test]
fn operators_that_fail() {
    let error = operate(num(1.0), BinaryOperator::Divide, num(0.0)).map(|_| ()).unwrap_err();
    assert_eq!(error.code.as_str(), Code::DIVISION_BY_ZERO);
    let error = operate(num(f64::MAX), BinaryOperator::Multiply, num(10.0)).map(|_| ()).unwrap_err();
    assert_eq!(error.code.as_str(), Code::NON_FINITE);
    let error = operate(text("x"), BinaryOperator::Subtract, num(1.0)).map(|_| ()).unwrap_err();
    assert_eq!(error.code.as_str(), Code::OPERAND_MISMATCH);
}

#[test]
fn short_circuits_do_not_run_the_right_operand() {
    let mut build = Build::new();
    let left = build.literal(Literal::Bool(false));
    let right = build.name("missing");
    let both = build.binary(left, BinaryOperator::And, right);
    let returned = build.ret(Some(both));
    build.0.statements = vec![returned];
    assert_eq!(result_of(build.done()).unwrap().as_bool(), Some(false));
}

#[test]
fn a_function_or_a_cycle_is_no_result() {
    let mut build = Build::new();
    let function = build.function(&[], Vec::new());
    let expression = build.expression(ExpressionKind::Function(function));
    let returned = build.ret(Some(expression));
    build.0.statements = vec![returned];
    let error = result_of(build.done()).map(|_| ()).unwrap_err();
    assert_eq!(error.code.as_str(), Code::FUNCTION_RESULT);
    assert_eq!(error.message, "cannot return a function: a Script result must be data the Backend can receive");

    let mut build = Build::new();
    let mut statements = build.cycle();
    let a = build.name("a");
    statements.push(build.ret(Some(a)));
    build.0.statements = statements;
    let error = result_of(build.done()).map(|_| ()).unwrap_err();
    assert_eq!(error.code.as_str(), Code::CYCLIC_RESULT);
}

/// `fn again() { return again(); }; return again();`
fn endless() -> Arc<Program> {
    let mut build = Build::new();
    let callee = build.name("again");
    let inner = build.call(callee, Vec::new());
    let tail = build.ret(Some(inner));
    let function = build.function(&[], vec![tail]);
    let declaration = statement(StatementKind::Function { name: identifier("again"), function });
    let entry = build.name("again");
    let call = build.call(entry, Vec::new());
    let returned = build.ret(Some(call));
    build.0.statements = vec![declaration, returned];
    build.done()
}

#[test]
fn recursion_stops_at_its_limit() {
    let error = result_of(endless()).map(|_| ()).unwrap_err();
    assert_eq!(error.code.as_str(), Code::CALL_DEPTH_EXCEEDED);
    assert_eq!(error.message, "too many nested calls: the limit is 1024");
}

#[test]
fn wrong_argument_count() {
    let mut build = Build::new();
    let function = build.function(&["a", "b"], Vec::new());
    let declaration = statement(StatementKind::Function { name: identifier("f"), function });
    let callee = build.name("f");
    let one = build.number(1.0);
    let call = build.call(callee, vec![one]);
    build.0.statements = vec![declaration, statement(StatementKind::Expression(call))];
    let error = result_of(build.done()).map(|_| ()).unwrap_err();
    assert_eq!(error.code.as_str(), Code::ARGUMENT_COUNT);
}

#[test]
fn starting_variables_are_bound_and_may_not_be_declared_again() {
    let mut build = Build::new();
    let x = build.name("x");
    let returned = build.ret(Some(x));
    build.0.statements = vec![returned];
    let program = build.done();
    let list = Value::Array(Array::from_values(vec![Value::Bool(true), Value::Null]));
    let progress = evaluate_with_variables(program, vec![(Arc::from("x"), list)]).map_err(|d| d.message).unwrap();
    match progress {
        Progress::Done(value) => {
            let items = value.as_array().unwrap();
            assert_eq!(items.len(), 2);
            assert_eq!(items.get(0).unwrap().as_bool(), Some(true));
            assert!(items.get(1).unwrap().is_null());
        }
        _ => panic!("a read asks nothing"),
    }

    let mut build = Build::new();
    let one = build.number(1.0);
    let declare = build.declare("x", one);
    build.0.statements = vec![declare];
    let error = evaluate_with_variables(build.done(), vec![(Arc::from("x"), Value::Null)]).map(|_| ()).unwrap_err();
    assert_eq!(error.code.as_str(), Code::DUPLICATE_DECLARATION);
}

#[test]
fn a_host_call_stops_and_goes_on_with_its_value() {
    // `return fetch(3);`
    let mut build = Build::new();
    let callee = build.name("fetch");
    let three = build.number(3.0);
    let call = build.call(callee, vec![three]);
    let returned = build.ret(Some(call));
    build.0.statements = vec![returned];
    let program = build.done();

    let error = result_of(program.clone()).map(|_| ()).unwrap_err();
    assert_eq!(error.code.as_str(), Code::UNKNOWN_FUNCTION);

    let execution = Execution::with_variables(program, Vec::new()).map_err(|d| d.message).unwrap();
    let call = match execution.run().map_err(|d| d.message).unwrap() {
        Outcome::HostCall(call) => call,
        _ => panic!("a host call"),
    };
    assert_eq!(call.name(), "fetch");
    assert_eq!(call.arguments().len(), 1);
    assert_eq!(as_float(&call.arguments()[0].value), Some(3.0));
    let reply = Value::Object(Object::from_entries(vec![(Arc::from("k"), Value::String(Arc::from("v")))]));
    match call.resume(&reply).run().map_err(|d| d.message).unwrap() {
        Outcome::Finished(value) => {
            let object = value.as_object().unwrap();
            assert_eq!(object.len(), 1);
            assert_eq!(object.get("k").unwrap().as_str(), Some("v"));
        }
        _ => panic!("the Script ends"),
    }
}

/// Run to the end, counting pauses.
fn run_metered(program: Arc<Program>, meter: Meter) -> (Result<Value, Diagnostic>, usize) {
    let mut execution = match Execution::with_variables(program, Vec::new()) {
        Ok(execution) => execution.metered(meter),
        Err(error) => return (Err(error), 0),
    };
    let mut pauses = 0;
    loop {
        execution = match execution.run() {
            Err(error) => return (Err(error), pauses),
            Ok(Outcome::Finished(value)) => return (Ok(value), pauses),
            Ok(Outcome::Paused(paused)) => {
                pauses += 1;
                paused.resume()
            }
            Ok(Outcome::Asked(asked)) => {
                let reply = answer(asked.question());
                asked.answer(reply)
            }
            Ok(Outcome::HostCall(_)) => panic!("no host"),
            Ok(Outcome::OutOfMemory(out)) => panic!("{} bytes", out.used()),
            Ok(Outcome::AllocationsExceeded(out)) => panic!("{}", out.span().offset),
        };
    }
}

#[test]
fn pausing_changes_nothing() {
    let plain = run_metered(endless(), Meter { slice: None, memory_ceiling: None, allocation_ceiling: None });
    let sliced = run_metered(endless(), Meter { slice: Some(7), memory_ceiling: None, allocation_ceiling: None });
    assert_eq!(plain.1, 0);
    assert!(sliced.1 > 100);
    assert_eq!(plain.0.map(|_| ()).unwrap_err().message, sliced.0.map(|_| ()).unwrap_err().message);
}

#[test]
fn the_memory_ceiling_stops_an_execution() {
    let mut build = Build::new();
    let long = build.string(&"x".repeat(4_096));
    let list = build.array(vec![long]);
    let declare = build.declare("a", list);
    build.0.statements = vec![declare];
    let execution = Execution::with_variables(build.done(), Vec::new()).map_err(|d| d.message).unwrap();
    let meter = Meter { slice: None, memory_ceiling: Some(1_000), allocation_ceiling: None };
    match execution.metered(meter).run().map_err(|d| d.message).unwrap() {
        Outcome::OutOfMemory(out) => assert!(out.used() > 1_000),
        _ => panic!("the ceiling is crossed"),
    }
}

#[test]
fn strings_meter_themselves_once_and_give_their_bytes_back() {
    let mut heap = Heap::default();
    let before = heap.used();
    let text = heap.text(&"y".repeat(10_000));
    let held = heap.used() - before;
    assert!(held >= 10_000, "{held}");
    let copies: Vec<RtValue> = (0..100).map(|_| text.clone()).collect();
    for copy in &copies {
        heap.hold(copy);
    }
    assert_eq!(heap.used() - before, held, "a copy is the same string");
    for copy in &copies {
        heap.let_go(copy);
    }
    drop(copies);
    assert_eq!(heap.used() - before, held, "one holder is left");
    heap.let_go(&text);
    drop(text);
    assert_eq!(heap.used(), before);
}

#[test]
fn a_string_in_many_places_counts_once() {
    let size = 10_000;
    let run = |copies: usize| {
        let mut build = Build::new();
        let long = build.string(&"z".repeat(size));
        let first = build.declare("s", long);
        let names: Vec<ExprId> = (0..copies).map(|_| build.name("s")).collect();
        let list = build.array(names);
        let second = build.declare("a", list);
        build.0.statements = vec![first, second];
        let mut machine = Machine::new(build.done());
        match machine.execute().map_err(|d| d.message).unwrap() {
            Stop::Finished(_) => machine.memory_used(),
            _ => panic!("the Script ends"),
        }
    };
    let one = run(1);
    assert!(one >= size as u64);
    let many = run(101);
    assert!(many > one);
    assert!(many - one < size as u64, "a hundred more copies hold no more text: {}", many - one);
}

#[test]
fn equal_strings_made_apart_count_each_in_full() {
    let mut heap = Heap::default();
    let before = heap.used();
    let first = heap.text("same");
    assert_eq!(heap.used() - before, 32 + 4);
    let second = heap.text("same");
    assert_eq!(heap.used() - before, 2 * (32 + 4));
    heap.let_go(&first);
    assert_eq!(heap.used() - before, 32 + 4);
    heap.let_go(&second);
    assert_eq!(heap.used(), before);
}

#[test]
fn a_literal_that_runs_twice_makes_two_strings() {
    let size = 10_000;
    let run = |again: bool| {
        let mut build = Build::new();
        let long = build.string(&"z".repeat(size));
        let first = build.declare("a", long);
        let other = if again { build.string(&"z".repeat(size)) } else { build.name("a") };
        let second = build.declare("b", other);
        build.0.statements = vec![first, second];
        let mut machine = Machine::new(build.done());
        assert!(finish(&mut machine).is_ok());
        machine.memory_used()
    };
    assert_eq!(run(true) - run(false), 32 + size as u64);
}

/// `let kept = null; for k in { key: null } { kept = k; }`, or with an empty body.
fn over_keys(key: &str, keeps: bool) -> Arc<Program> {
    let mut build = Build::new();
    let null = build.literal(Literal::Null);
    let first = build.declare("kept", null);
    let null = build.literal(Literal::Null);
    let entries = vec![ObjectEntry { key: identifier(key), value: null }];
    let iterable = build.expression(ExpressionKind::Object { open: span(), entries, close: span() });
    let mut inside = Vec::new();
    if keeps {
        let target = build.name("kept");
        let value = build.name("k");
        inside.push(build.assign(target, value));
    }
    let body = build.body(inside);
    let second = statement(StatementKind::For { keyword: span(), binding: identifier("k"), iterable, body });
    build.0.statements = vec![first, second];
    build.done()
}

#[test]
fn a_key_that_a_loop_hands_out_counts_in_full() {
    let key = "k".repeat(10_000);
    let used = |keeps: bool| {
        let mut machine = Machine::new(over_keys(&key, keeps));
        assert!(finish(&mut machine).is_ok());
        machine.memory_used()
    };
    assert_eq!(used(true) - used(false), 32 + 10_000, "the object's own key is not the loop's string");
}

#[test]
fn a_failed_run_leaves_what_it_had() {
    let mut build = Build::new();
    let long = build.string(&"z".repeat(1_000));
    let first = build.declare("a", long);
    let name = build.name("a");
    let long = build.string(&"y".repeat(2_000));
    let minus = build.binary(name, BinaryOperator::Subtract, long);
    let second = statement(StatementKind::Expression(minus));
    build.0.statements = vec![first.clone()];
    let mut whole = Machine::new(build.0.clone().into());
    assert!(finish(&mut whole).is_ok());
    build.0.statements = vec![first, second];
    let mut failed = Machine::new(build.done());
    let error = finish(&mut failed).map(|_| ()).expect_err("strings do not subtract");
    assert_eq!(error.code.as_str(), Code::OPERAND_MISMATCH);
    assert_eq!(failed.root_names(), vec!["a".to_owned()]);
    assert_eq!(failed.heap().live(), 1);
    assert_eq!(failed.memory_used(), whole.memory_used(), "the operands are gone");
}

#[test]
fn a_string_on_the_value_stack_counts() {
    let mut build = Build::new();
    let long = build.string(&"z".repeat(5_000));
    let discarded = statement(StatementKind::Expression(long));
    build.0.statements = vec![discarded];
    let program = build.done();
    let ceiling = |bytes: u64| {
        let execution = Execution::with_variables(program.clone(), Vec::new()).map_err(|d| d.message).unwrap();
        let meter = Meter { slice: None, memory_ceiling: Some(bytes), allocation_ceiling: None };
        execution.metered(meter).run().map_err(|d| d.message).unwrap()
    };
    match ceiling(5_000) {
        Outcome::OutOfMemory(out) => {
            assert!(out.used() > 5_000);
            assert!(out.used() <= 5_000 + 5_032, "one step past the ceiling: {}", out.used());
        }
        _ => panic!("the ceiling is crossed"),
    }
    assert!(matches!(ceiling(6_000), Outcome::Finished(_)));
}

/// `let a = ["t"]; a[1] = null;`: a string, an array, and one more element.
fn allocating() -> Arc<Program> {
    let mut build = Build::new();
    let text = build.string("t");
    let list = build.array(vec![text]);
    let first = build.declare("a", list);
    let receiver = build.name("a");
    let one = build.number(1.0);
    let target = build.index(receiver, one);
    let null = build.literal(Literal::Null);
    let second = build.assign(target, null);
    build.0.statements = vec![first, second];
    build.done()
}

#[test]
fn the_allocation_ceiling_stops_an_execution() {
    let ceiling = |made: u64| {
        let execution = Execution::with_variables(allocating(), Vec::new()).map_err(|d| d.message).unwrap();
        let meter = Meter { slice: None, memory_ceiling: None, allocation_ceiling: Some(made) };
        execution.metered(meter).run().map_err(|d| d.message).unwrap()
    };
    for made in 0..3 {
        assert!(matches!(ceiling(made), Outcome::AllocationsExceeded(_)), "a string, an array and its growth: {made}");
    }
    assert!(matches!(ceiling(3), Outcome::Finished(_)));
}

#[test]
fn root_names_are_sorted() {
    let mut build = Build::new();
    let function = build.function(&[], Vec::new());
    build.0.statements = vec![statement(StatementKind::Function { name: identifier("beta"), function })];
    let variables = vec![(Arc::from("gamma"), Value::Null), (Arc::from("alpha"), Value::Null)];
    let execution = Execution::with_variables(build.done(), variables).map_err(|d| d.message).unwrap();
    assert_eq!(execution.root_names(), vec!["alpha", "beta", "gamma"]);
}

#[test]
fn a_tree_that_holds_itself_is_no_tree() {
    let mut build = Build::new();
    let inner = build.number(1.0);
    let outer = build.array(vec![inner]);
    let returned = build.ret(Some(outer));
    build.0.statements = vec![returned];
    assert!(build.0.is_well_formed());
    assert!(build.0.is_acyclic());
    build.0.expressions[0].kind = ExpressionKind::Array { open: span(), elements: vec![outer], close: span() };
    assert!(build.0.is_well_formed());
    assert!(!build.0.is_acyclic());
    build.0.expressions[0].kind = ExpressionKind::Array { open: span(), elements: vec![ExprId(9)], close: span() };
    assert!(!build.0.is_well_formed());
}

#[test]
fn machines_run_on_after_a_pause() {
    let mut build = Build::new();
    let one = build.number(1.0);
    let returned = build.ret(Some(one));
    build.0.statements = vec![returned];
    let mut machine = Machine::new(build.done());
    machine.set_meter(Meter { slice: Some(1), memory_ceiling: None, allocation_ceiling: None });
    let mut pauses = 0;
    let value = loop {
        match machine.execute().map_err(|d| d.message).unwrap() {
            Stop::Finished(value) => break value,
            Stop::Paused(_) => pauses += 1,
            _ => panic!("only pauses"),
        }
    };
    assert_eq!(pauses, 2);
    assert_eq!(as_float(&value), Some(1.0));
}

//! Sessions, executions, connections and the System Config.

use std::sync::Arc;

use hexput::ast::AccessKind;
use hexput::ast::AccessLink;
use hexput::ast::ExprId;
use hexput::ast::Expression;
use hexput::ast::ExpressionKind;
use hexput::ast::Identifier;
use hexput::ast::Literal;
use hexput::ast::Program;
use hexput::ast::Statement;
use hexput::ast::StatementKind;
use hexput::budget::Dimension;
use hexput::budget::Settings;
use hexput::config::ConfigError;
use hexput::config::ConfigSource;
use hexput::config::LogLevel;
use hexput::config::Placed;
use hexput::config::Problem;
use hexput::config::RawBind;
use hexput::config::RawFile;
use hexput::config::RawTcp;
use hexput::config::RawTransports;
use hexput::config::RawUds;
use hexput::config::RawWebSocket;
use hexput::config::Validator;
use hexput::config::choose_path;
use hexput::config::locate;
use hexput::config::reject;
use hexput::config::resolve;
use hexput::connection::Action;
use hexput::connection::After;
use hexput::connection::Connection;
use hexput::connection::Event;
use hexput::connection::Sent;
use hexput::connection::delivered;
use hexput::connection::executed;
use hexput::diagnostics::Code;
use hexput::diagnostics::Span;
use hexput::enforce::Capabilities;
use hexput::enforce::Decision;
use hexput::enforce::HandlerAnswer;
use hexput::enforce::Reason;
use hexput::envelope::CorrelationId;
use hexput::envelope::Envelope;
use hexput::envelope::MessageType;
use hexput::exec::budget::Budget;
use hexput::exec::executor::Charged;
use hexput::exec::executor::Halt;
use hexput::exec::executor::Host;
use hexput::exec::executor::Limits;
use hexput::exec::executor::Segment;
use hexput::exec::executor::Step;
use hexput::exec::executor::handler_answer;
use hexput::exec::executor::resume;
use hexput::exec::executor::segment;
use hexput::exec::executor::settle;
use hexput::exec::wire::Path;
use hexput::exec::wire::Unsendable;
use hexput::exec::wire::check_result;
use hexput::exec::wire::measure;
use hexput::exec::wire::payload_size;
use hexput::exec::wire::to_hexput;
use hexput::exec::wire::to_wire;
use hexput::ids::ClientId;
use hexput::interpreter::execution::Execution;
use hexput::interpreter::value::Array;
use hexput::interpreter::value::Object;
use hexput::interpreter::value::Value;
use hexput::message_pack::pack;
use hexput::number::Number;
use hexput::port::codec::ProtocolFailure;
use hexput::port::codec::decode as decode_frame;
use hexput::port::codec::encode;
use hexput::port::error::ProtocolCode;
use hexput::port::error::ProtocolError;
use hexput::rpc::Call;
use hexput::rpc::CallFailure;
use hexput::rpc::Calls;
use hexput::rpc::Request;
use hexput::script::decode;
use hexput::script::finish;
use hexput::script::prepare;
use hexput::script::reply;
use hexput::session::init::InitRequest;
use hexput::session::registry::Sessions;
use hexput::wire::Wire;

fn map(pairs: Vec<(&str, Wire)>) -> Wire {
    Wire::Pairs(pairs.into_iter().map(|(key, value)| (Wire::text(key), value)).collect())
}

fn shape(value: &Wire) -> String {
    format!("{value:?}")
}

fn num(n: f64) -> Value {
    Value::Number(Number::from_bits(n.to_bits()))
}

fn words() -> Vec<String> {
    vec!["let".to_owned(), "return".to_owned()]
}

fn init_payload(names: Vec<(&str, bool)>) -> Wire {
    let list = names
        .into_iter()
        .map(|(name, blanket)| map(vec![("name", Wire::text(name)), ("blanket", Wire::Boolean(blanket))]))
        .collect();
    map(vec![("config", map(Vec::new())), ("registrations", Wire::Array(list))])
}

fn init_error(payload: &Wire) -> String {
    InitRequest::from_value(payload).map(|_| ()).unwrap_err().message().to_owned()
}

#[test]
fn an_init_payload_is_decoded() {
    let request = InitRequest::from_value(&init_payload(vec![("a", true), ("b", false)])).map_err(|_| ()).unwrap();
    let list: Vec<(&str, bool)> = request.registrations().iter().map(|r| (r.name(), r.blanket())).collect();
    assert_eq!(list, vec![("a", true), ("b", false)]);
}

#[test]
fn wrong_init_payloads() {
    assert_eq!(init_error(&Wire::Unsigned(1)), "the `Init` payload must be a map with `config` and `registrations`");
    assert_eq!(init_error(&Wire::Nil), "the `Init` payload is missing `config` and `registrations`");
    assert_eq!(init_error(&map(vec![("nope", Wire::Nil)])), "the `Init` payload has an unknown key `nope`");
    let odd = Wire::Pairs(vec![(Wire::Unsigned(5), Wire::Nil)]);
    assert_eq!(init_error(&odd), "the `Init` payload has an unknown key 5 (not a string)");
    assert_eq!(
        init_error(&init_payload(vec![("a", true), ("a", true)])),
        "`a` is registered twice, at `registrations[0]` and `registrations[1]`"
    );
    let config = map(vec![("w", Wire::Nil), ("x", Wire::Nil), ("y", Wire::Nil), ("z", Wire::Nil)]);
    assert_eq!(
        init_error(&map(vec![("config", config), ("registrations", Wire::Array(Vec::new()))])),
        "`config` accepts no keys yet; found `w`, `x`, `y` and 1 more"
    );
}

fn request(names: Vec<(&str, bool)>) -> InitRequest {
    InitRequest::from_value(&init_payload(names)).map_err(|e| e.message().to_owned()).unwrap()
}

#[test]
fn a_session_lives_as_long_as_a_connection_is_attached() {
    let mut sessions = Sessions::new();
    assert!(sessions.is_empty());
    let first = sessions.connect();
    let id = match sessions.create(request(vec![("f", true)]), first) {
        Ok(id) => id,
        Err(_) => panic!("an id is issued"),
    };
    assert_eq!(sessions.len(), 1);
    assert!(sessions.contains(&id));
    assert_eq!(sessions.attached(&id), Some(1));
    assert_eq!(sessions.registration_names(&id), Some(vec!["f".to_owned()]));
    assert_eq!(sessions.registrations(&id), Some(vec![("f".to_owned(), true)]));
    let second = sessions.attach(&id).unwrap();
    assert_ne!(first.get(), second.get());
    assert_eq!(sessions.attached(&id), Some(2));
    sessions.detach(&id, first);
    sessions.detach(&id, first);
    assert_eq!(sessions.attached(&id), Some(1));
    sessions.detach(&id, second);
    assert!(!sessions.contains(&id));
    assert!(sessions.is_empty());
    assert!(sessions.attach(&id).is_none());
    assert_eq!(sessions.attached(&id), None);
}

#[test]
fn every_session_has_its_own_id() {
    let mut sessions = Sessions::new();
    let connection = sessions.connect();
    let mut ids = Vec::new();
    for _ in 0..8 {
        match sessions.create(request(Vec::new()), connection) {
            Ok(id) => ids.push(id.to_text()),
            Err(_) => panic!("an id is issued"),
        }
    }
    ids.sort();
    ids.dedup();
    assert_eq!(ids.len(), 8);
    assert_eq!(sessions.len(), 8);
}

#[test]
fn a_live_session_is_never_overwritten() {
    let mut sessions = Sessions::default();
    let connection = sessions.connect();
    let id = ClientId::from_bytes([7; 16]);
    assert!(sessions.create_as(request(vec![("f", true)]), connection, &id).is_ok());
    assert!(sessions.create_as(request(vec![("g", true)]), connection, &id).is_err());
    assert_eq!(sessions.registration_names(&id), Some(vec!["f".to_owned()]));
    let other = ClientId::from_bytes([8; 16]);
    assert!(sessions.create_as(request(vec![("g", true)]), connection, &other).is_ok());
    assert_eq!(sessions.len(), 2);
}

fn start_error(payload: &Wire) -> String {
    decode(payload, &words()).map(|_| ()).unwrap_err()
}

#[test]
fn an_execution_start_is_decoded() {
    let variables = map(vec![("n", Wire::Unsigned(3)), ("list", Wire::Array(vec![Wire::Nil]))]);
    let payload = map(vec![("source", Wire::text("return n;")), ("variables", variables)]);
    let (source, bound) = decode(&payload, &words()).unwrap();
    assert_eq!(source, "return n;");
    assert_eq!(bound.len(), 2);
    assert_eq!(&*bound[0].0, "n");
    assert_eq!(bound[0].1.as_number().map(|n| f64::from_bits(n.to_bits())), Some(3.0));
    assert_eq!(bound[1].1.as_array().map(Array::len), Some(1));
}

#[test]
fn wrong_execution_starts() {
    assert_eq!(
        start_error(&Wire::Boolean(true)),
        "the `ExecutionStart` payload must be a map with `source` and `variables`"
    );
    assert_eq!(start_error(&Wire::Nil), "the `ExecutionStart` payload is missing `source` and `variables`");
    assert_eq!(
        start_error(&map(vec![("source", Wire::text(""))])),
        "the `ExecutionStart` payload is missing `variables`"
    );
    assert_eq!(
        start_error(&map(vec![("source", Wire::text("")), ("source", Wire::text(""))])),
        "the `ExecutionStart` payload repeats the key `source`"
    );
    assert_eq!(
        start_error(&map(vec![("source", Wire::Nil), ("variables", map(Vec::new()))])),
        "the `ExecutionStart` payload is missing `source`"
    );
    let with = |variables: Wire| map(vec![("source", Wire::text("")), ("variables", variables)]);
    assert_eq!(start_error(&with(Wire::text(""))), "`variables` is not a map");
    assert_eq!(
        start_error(&with(map(vec![("let", Wire::Nil)]))),
        "the starting variable \"let\" is not a Hexput identifier (ASCII letters, digits and `_`, not starting with a digit, not a reserved word)"
    );
    assert_eq!(
        start_error(&with(map(vec![("a", Wire::Nil), ("a", Wire::Nil)]))),
        "`variables` names the starting variable `a` twice"
    );
    let deep = map(vec![("x", map(vec![("k y", Wire::Array(vec![Wire::Nil, Wire::Binary(vec![1])]))]))]);
    assert_eq!(
        start_error(&with(deep)),
        "`variables.x[\"k y\"][1]` is binary data (or a string that is not valid UTF-8); Hexput has no binary type"
    );
    let body = prepare(&Wire::Nil, &words()).map(|_| ()).unwrap_err();
    assert_eq!(body.code, "protocol.invalid_payload");
}

#[test]
fn values_cross_the_wire_exactly_or_not_at_all() {
    let value = Value::Object(Object::from_entries(vec![
        (Arc::from("n"), num(3.0)),
        (Arc::from("f"), num(0.5)),
        (Arc::from("zero"), num(-0.0)),
        (Arc::from("s"), Value::String(Arc::from("x"))),
        (Arc::from("l"), Value::Array(Array::from_values(vec![Value::Null, Value::Bool(true)]))),
    ]));
    let wire = to_wire(&value);
    assert_eq!(
        shape(&wire),
        shape(&map(vec![
            ("n", Wire::Unsigned(3)),
            ("f", Wire::F64(0.5_f64.to_bits())),
            ("zero", Wire::Unsigned(0)),
            ("s", Wire::text("x")),
            ("l", Wire::Array(vec![Wire::Nil, Wire::Boolean(true)])),
        ]))
    );
    let back = to_hexput(&wire, &mut Path::reply()).unwrap();
    assert_eq!(shape(&to_wire(&back)), shape(&wire));
    let refused = |value: &Wire| to_hexput(value, &mut Path::variable("x")).map(|_| ()).unwrap_err();
    assert_eq!(
        refused(&Wire::Unsigned((1 << 53) + 1)),
        "`variables.x` is the integer 9007199254740993, outside ±2^53, which a Hexput number cannot hold exactly"
    );
    assert_eq!(
        refused(&Wire::F64(f64::NEG_INFINITY.to_bits())),
        "`variables.x` is -inf; a Hexput number is always finite"
    );
    assert_eq!(refused(&Wire::F32(f32::NAN.to_bits())), "`variables.x` is NaN; a Hexput number is always finite");
    assert_eq!(
        refused(&Wire::Ext(-3, Vec::new())),
        "`variables.x` is a MessagePack extension (type -3); Hexput has no such type"
    );
    let single = to_hexput(&Wire::F32(1.5_f32.to_bits()), &mut Path::reply()).unwrap();
    assert_eq!(single.as_number().map(|n| f64::from_bits(n.to_bits())), Some(1.5));
}

fn nested(levels: usize) -> Value {
    let mut value = Value::Null;
    for _ in 0..levels {
        value = Value::Array(Array::from_values(vec![value]));
    }
    value
}

#[test]
fn what_is_accepted_comes_back() {
    let mut value = Value::Array(Array::from_values(vec![num(-0.0), num(0.25), num(-7.0), Value::Null]));
    for key in ["a", "b"] {
        value = Value::Object(Object::from_entries(vec![(Arc::from(key), value), (Arc::from("z"), num(1e300))]));
    }
    assert!(check_result(&value).is_ok());
    let wire = to_wire(&value);
    let back = to_hexput(&wire, &mut Path::variable("v")).unwrap();
    let inner = back.as_object().unwrap().get("b").unwrap().as_object().unwrap();
    assert_eq!(inner.get("z").unwrap().as_number().map(|n| f64::from_bits(n.to_bits())), Some(1e300));
    let list = inner.get("a").unwrap().as_array().unwrap();
    let bits: Vec<Option<u64>> = list.iter().into_iter().map(|item| item.as_number().map(|n| n.to_bits())).collect();
    assert_eq!(bits, vec![Some(0), Some(0.25_f64.to_bits()), Some((-7.0_f64).to_bits()), None]);
    assert_eq!(back.as_object().unwrap().iter().into_iter().map(|entry| entry.0).collect::<Vec<_>>(), vec!["b", "z"]);
}

#[test]
fn a_refused_value_leaves_what_was_left() {
    let list = Value::Array(Array::from_values(vec![
        Value::String(Arc::from("a string that is too long")),
        Value::String(Arc::from("fits")),
    ]));
    let mut budget = 20;
    assert!(matches!(measure(&list, 4, &mut budget), Err(Unsendable::TooLarge)));
    assert_eq!(budget, 20 - 1 - 5, "the list and its last string were counted");
    let mut budget = 20;
    assert!(matches!(measure(&list, 0, &mut budget), Err(Unsendable::TooDeep)));
    assert_eq!(budget, 20);
    let mut budget = 40;
    assert!(measure(&list, 1, &mut budget).is_ok());
    assert_eq!(budget, 40 - 1 - 5 - 26);
}

#[test]
fn results_that_cannot_be_sent() {
    assert!(check_result(&nested(126)).is_ok());
    assert!(matches!(check_result(&nested(127)), Err(Unsendable::TooDeep)));
    let body = reply(&nested(127)).map(|_| ()).unwrap_err();
    assert_eq!(body.code, "protocol.result_too_deep");
    assert_eq!(
        body.message,
        "the Script's result nests more than 126 arrays or objects deep, past what a frame may carry"
    );
    let huge = Value::String(Arc::from("x".repeat(16_777_216)));
    let body = reply(&huge).map(|_| ()).unwrap_err();
    assert_eq!(body.code, "protocol.response_too_large");
    assert_eq!(
        body.message,
        "the Script's result encodes to more than the maximum frame of 16777216 bytes"
    );
    let payload = finish(&Ok(num(4.0))).map_err(|b| b.message).unwrap();
    assert_eq!(shape(&payload), shape(&map(vec![("value", Wire::Unsigned(4))])));
}

#[test]
fn the_deepest_result_travels() {
    let payload = reply(&nested(126)).map_err(|body| body.message).unwrap();
    let envelope = Envelope::new(CorrelationId(1), MessageType::Result, payload);
    let bytes = encode(&envelope).map_err(|error| error.to_text()).unwrap();
    let read = decode_frame(&bytes).map_err(|failure| failure.to_text()).unwrap();
    assert_eq!(shape(&read.payload), shape(&envelope.payload));
}

#[test]
fn the_size_of_a_payload_is_its_encoded_size() {
    for value in [num(1.0), num(-200.0), num(0.25), nested(3), Value::String(Arc::from("héllo"))] {
        let payload = map(vec![("value", to_wire(&value))]);
        assert_eq!(payload_size(&value, 1_000_000), pack(&payload).unwrap().len());
    }
}

fn span() -> Span {
    Span::new(0, 0, 1, 1)
}

/// `return f(<argument>);`
fn calling(argument: Literal) -> Arc<Program> {
    let expressions = vec![
        Expression {
            span: span(),
            kind: ExpressionKind::Identifier(Identifier { name: "f".to_owned(), span: span() }),
        },
        Expression { span: span(), kind: ExpressionKind::Literal(argument) },
        Expression {
            span: span(),
            kind: ExpressionKind::Access {
                base: ExprId(0),
                links: vec![AccessLink {
                    span: span(),
                    operator: span(),
                    optional: false,
                    kind: AccessKind::Call { open: span(), arguments: vec![ExprId(1)], close: span() },
                }],
            },
        },
    ];
    let returned = Statement {
        span: span(),
        terminator: None,
        kind: StatementKind::Return { keyword: span(), value: Some(ExprId(2)) },
    };
    Arc::new(Program { span: span(), statements: vec![returned], blocks: Vec::new(), expressions })
}

fn limits() -> Limits {
    Limits::from_settings(&Settings::new())
}

/// Run up to the host call, with this much time charged.
fn up_to_call(host: &Host, budget: &mut Budget, nanos: u64) -> Result<Charged, Halt> {
    let execution = Execution::with_variables(calling(Literal::Bool(true)), Vec::new()).map_err(|d| d.message).unwrap();
    let metered = execution.metered(budget.limits().meter());
    match segment(metered, budget, span()).map_err(|d| d.message).unwrap() {
        Segment::Charge(at, pending) => settle(pending, at, nanos, host, budget),
        _ => panic!("the call ends the segment"),
    }
}

#[test]
fn a_granted_call_goes_ahead_and_resumes_the_script() {
    let host = Host::new(&vec![("f".to_owned(), true)]);
    let mut budget = Budget::with_limits(limits());
    let (call, arguments) = match up_to_call(&host, &mut budget, 5) {
        Ok(Charged::Step(Step::Call(call, arguments, None))) => (call, arguments),
        _ => panic!("a blanket grant asks nobody"),
    };
    assert_eq!(shape(&Wire::Array(arguments)), shape(&Wire::Array(vec![Wire::Boolean(true)])));
    let execution = resume(call, &Ok(Wire::Unsigned(8))).map_err(|d| d.message).unwrap();
    let finished = match segment(execution, &budget, span()).map_err(|d| d.message).unwrap() {
        Segment::Charge(at, pending) => settle(pending, at, 5, &host, &mut budget),
        _ => panic!("the Script ends"),
    };
    match finished {
        Ok(Charged::Finished(value)) => {
            assert_eq!(value.as_number().map(|n| f64::from_bits(n.to_bits())), Some(8.0));
        }
        _ => panic!("the Script ends"),
    }
}

#[test]
fn a_call_without_a_blanket_grant_is_asked_about() {
    let host = Host::new(&vec![("f".to_owned(), false)]);
    let ask = || {
        let mut budget = Budget::with_limits(limits());
        match up_to_call(&host, &mut budget, 0) {
            Ok(Charged::Step(Step::Call(_, _, Some(question)))) => question,
            _ => panic!("the handler is asked"),
        }
    };
    assert_eq!(ask().name(), "f");
    assert!(ask().decide(handler_answer(Some(Ok(Wire::Boolean(true))))).is_ok());
    for (answer, reason) in [
        (Some(Ok(Wire::Boolean(false))), Reason::Refused),
        (Some(Ok(Wire::Nil)), Reason::HandlerInvalid),
        (Some(Err(CallFailure::Malformed(String::new()))), Reason::HandlerInvalid),
        (Some(Err(CallFailure::Failed(None))), Reason::HandlerFailed),
        (Some(Err(CallFailure::NoReply)), Reason::HandlerNoReply),
        (None, Reason::HandlerTimeout),
    ] {
        let refusal = ask().decide(handler_answer(answer)).unwrap_err();
        assert_eq!(refusal.reason(), reason);
        assert_eq!(
            refusal.into_diagnostic().message,
            "`f` is not declared, and it is not a function this Script may call"
        );
    }
}

#[test]
fn an_unregistered_call_is_refused_and_still_counts() {
    let mut budget = Budget::with_limits(Limits { rpc_calls: 1, ..limits() });
    match up_to_call(&Host::none(), &mut budget, 0) {
        Ok(Charged::Step(Step::Refused(refusal))) => assert_eq!(refusal.reason(), Reason::Unregistered),
        _ => panic!("refused"),
    }
    match up_to_call(&Host::none(), &mut budget, 0) {
        Err(Halt::Exceeded(exceeded)) => assert_eq!(exceeded.dimension(), Dimension::RpcCalls),
        _ => panic!("one call only"),
    }
}

#[test]
fn memory_and_allocations_end_an_execution_by_their_names() {
    for (limits, dimension, code) in [
        (Limits { allocations: 0, ..limits() }, Dimension::Allocations, "budget.allocations_exceeded"),
        (Limits { memory_bytes: 0, ..limits() }, Dimension::Memory, Code::MEMORY_EXCEEDED),
    ] {
        let budget = Budget::with_limits(limits);
        let program = calling(Literal::String("text".to_owned()));
        let execution = Execution::with_variables(program, Vec::new()).map_err(|d| d.message).unwrap();
        let metered = execution.metered(budget.limits().meter());
        match segment(metered, &budget, span()).map_err(|d| d.message).unwrap() {
            Segment::Exceeded(exceeded) => {
                assert_eq!(exceeded.dimension(), dimension);
                assert_eq!(exceeded.into_diagnostic().code.as_str(), code);
            }
            _ => panic!("the limit is crossed"),
        }
    }
}

#[test]
fn every_limit_ends_an_execution_by_its_name() {
    let host = Host::none();
    let mut budget = Budget::with_limits(Limits { cpu_time_ms: 1, ..limits() });
    assert!(up_to_call(&host, &mut budget, 600_000).is_ok());
    let halt = up_to_call(&host, &mut budget, 600_000).map(|_| ()).unwrap_err();
    let error = halt.into_diagnostic();
    assert_eq!(error.code.as_str(), Code::CPU_TIME_EXCEEDED);
    assert_eq!(error.category.as_str(), "budget");
    assert_eq!(error.message, "the execution exceeded its `cpu_time` budget");
    let mut budget = Budget::with_limits(Limits { side_effects: 0, ..limits() });
    let halt = up_to_call(&host, &mut budget, 0).map(|_| ()).unwrap_err();
    assert_eq!(halt.into_diagnostic().code.as_str(), "budget.side_effects_exceeded");
    let budget = Budget::with_limits(Limits { output_size: 10, ..limits() });
    assert!(budget.charge_output(10, span()).is_ok());
    assert_eq!(budget.charge_output(11, span()).unwrap_err().dimension(), Dimension::OutputSize);
    assert_eq!(budget.memory_exceeded(span()).into_diagnostic().code.as_str(), Code::MEMORY_EXCEEDED);
}

#[test]
fn failed_host_calls_word_their_errors() {
    let host = Host::new(&vec![("f".to_owned(), true)]);
    let fail = |failure: CallFailure| {
        let mut budget = Budget::with_limits(limits());
        match up_to_call(&host, &mut budget, 0) {
            Ok(Charged::Step(Step::Call(call, _, None))) => resume(call, &Err(failure)).map(|_| ()).unwrap_err(),
            _ => panic!("a call"),
        }
    };
    let error = fail(CallFailure::Failed(Some("boom".to_owned())));
    assert_eq!((error.code.as_str(), error.message.as_str()), (Code::FUNCTION_FAILED, "`f` failed on the Backend: boom"));
    assert_eq!(fail(CallFailure::Failed(None)).message, "`f` failed on the Backend");
    assert_eq!(
        fail(CallFailure::Malformed("odd".to_owned())).message,
        "the Backend's reply to `f` is malformed: odd"
    );
    assert_eq!(
        fail(CallFailure::Unsendable("big".to_owned())).message,
        "the call to `f` could not be sent: big"
    );
    let error = fail(CallFailure::NoReply);
    assert_eq!(error.code.as_str(), Code::NO_REPLY);
    assert_eq!(error.message, "the connection ended before the Backend answered the call to `f`");
}

#[test]
fn capabilities_decide() {
    let some = Capabilities::registered(vec!["a".to_owned()]);
    assert!(some.check_call("a", span()).is_ok());
    let error = some.check_call("b", span()).unwrap_err();
    assert_eq!(error.code.as_str(), Code::UNKNOWN_FUNCTION);
    let pairs = Capabilities::granted(&vec![("a".to_owned(), true), ("b".to_owned(), false)]);
    assert!(matches!(pairs.decide("a", span()), Ok(Decision::Allowed)));
    assert!(matches!(pairs.decide("b", span()), Ok(Decision::AskHandler(_))));
    assert!(Capabilities::none().decide("a", span()).is_err());
    assert_eq!(HandlerAnswer::TimedOut, handler_answer(None));
}

fn call(waiter: u64) -> Call {
    Call { request: Request::Call, name: "f".to_owned(), arguments: vec![Wire::Nil], waiter }
}

#[test]
fn host_calls_are_answered_once() {
    let mut calls = Calls::new();
    let first = calls.issue(call(10), true).unwrap();
    let second = calls.issue(call(20), true).unwrap();
    assert_ne!(first.id, second.id);
    assert_eq!(first.message_type, MessageType::Call);
    assert!(calls.issue(call(30), false).is_none());
    assert_eq!(calls.pending(), 2);
    let answer = |id| Envelope { id, message_type: MessageType::Result, payload: map(vec![("value", Wire::Unsigned(1))]) };
    let (waiter, value) = calls.complete(answer(second.id)).map_err(|_| ()).unwrap();
    assert_eq!(waiter, 20);
    assert_eq!(shape(&value.map_err(|_| ()).unwrap()), shape(&Wire::Unsigned(1)));
    assert_eq!(calls.pending(), 1);
    assert!(calls.complete(answer(second.id)).is_err());
    assert_eq!(calls.pending(), 1);
    let wrong = Envelope { id: first.id, message_type: MessageType::Result, payload: map(vec![("values", Wire::Nil)]) };
    let (_, value) = calls.complete(wrong).map_err(|_| ()).unwrap();
    match value {
        Err(CallFailure::Malformed(reason)) => assert_eq!(reason, "the reply has an unknown key \"values\""),
        _ => panic!("malformed"),
    }
    let third = calls.issue(call(40), true).unwrap();
    match calls.unsendable(third.id.unwrap(), "too large".to_owned()) {
        Some((40, CallFailure::Unsendable(reason))) => assert_eq!(reason, "too large"),
        _ => panic!("unsendable"),
    }
    calls.issue(call(50), true).unwrap();
    calls.close();
    assert_eq!(calls.pending(), 0);
}

fn message(id: u64, message_type: MessageType, payload: Wire) -> Event {
    Event::Message(Envelope { id: Some(CorrelationId(id)), message_type, payload })
}

fn refusal_code(action: Action) -> (Option<CorrelationId>, String) {
    match action {
        Action::Reply(reply) => {
            let code = match &reply.payload {
                Wire::Pairs(fields) => fields[2].1.as_str().unwrap_or_default().to_owned(),
                _ => String::new(),
            };
            (reply.id, code)
        }
        _ => panic!("a reply"),
    }
}

#[test]
fn a_connection_from_init_to_its_end() {
    let mut sessions = Sessions::new();
    let mut connection = Connection::open(&mut sessions);
    let start = || map(vec![("source", Wire::text("")), ("variables", map(Vec::new()))]);

    let gated = connection.exchange(message(1, MessageType::ExecutionStart, start()), &mut sessions);
    assert_eq!(refusal_code(gated), (Some(CorrelationId(1)), "protocol.init_not_completed".to_owned()));
    let invalid = connection.exchange(message(2, MessageType::Init, Wire::Nil), &mut sessions);
    assert_eq!(refusal_code(invalid), (Some(CorrelationId(2)), "protocol.invalid_payload".to_owned()));
    assert!(sessions.is_empty());

    let done = connection.exchange(message(3, MessageType::Init, init_payload(vec![("f", true)])), &mut sessions);
    let client = connection.client().unwrap();
    match done {
        Action::Reply(reply) => {
            assert_eq!(reply.id, Some(CorrelationId(3)));
            assert_eq!(reply.message_type, MessageType::Result);
            assert_eq!(shape(&reply.payload), shape(&map(vec![("client_id", Wire::text(&client.to_text()))])));
        }
        _ => panic!("a reply"),
    }
    assert_eq!(sessions.attached(&client), Some(1));

    let again = connection.exchange(message(4, MessageType::Init, init_payload(Vec::new())), &mut sessions);
    assert_eq!(refusal_code(again), (Some(CorrelationId(4)), "protocol.already_initialized".to_owned()));
    let stray = connection.exchange(message(5, MessageType::Result, Wire::Nil), &mut sessions);
    assert_eq!(refusal_code(stray), (None, "protocol.unexpected_message".to_owned()));
    let odd = connection.exchange(message(6, MessageType::Call, Wire::Nil), &mut sessions);
    assert_eq!(refusal_code(odd), (Some(CorrelationId(6)), "protocol.unexpected_message".to_owned()));

    match connection.exchange(message(7, MessageType::ExecutionStart, start()), &mut sessions) {
        Action::Execute(id, _, registrations) => {
            assert_eq!(id, Some(CorrelationId(7)));
            assert_eq!(registrations, vec![("f".to_owned(), true)]);
        }
        _ => panic!("a Direct Execution"),
    }
    let issued = match connection.exchange(Event::Call(call(77), true), &mut sessions) {
        Action::Call(issued) => issued,
        _ => panic!("the call is written"),
    };
    let answer = Event::Message(Envelope {
        id: issued.id,
        message_type: MessageType::Error,
        payload: map(vec![("message", Wire::text("no"))]),
    });
    match connection.exchange(answer, &mut sessions) {
        Action::Wake(77, Err(CallFailure::Failed(Some(reason)))) => assert_eq!(reason, "no"),
        _ => panic!("the execution is woken"),
    }

    assert!(!connection.ended(0));
    assert!(matches!(connection.exchange(Event::Closed, &mut sessions), Action::Nothing));
    assert!(!connection.reading());
    assert!(!connection.ended(1));
    match connection.exchange(Event::Call(call(78), true), &mut sessions) {
        Action::Wake(78, Err(CallFailure::NoReply)) => {}
        _ => panic!("nobody answers"),
    }
    let reply = executed(Some(CorrelationId(7)), Ok(Wire::Nil));
    assert!(matches!(connection.exchange(Event::Finished(reply), &mut sessions), Action::Reply(_)));
    assert!(connection.ended(0));
    connection.leave(&mut sessions);
    assert!(sessions.is_empty());
}

#[test]
fn every_request_gets_one_reply_with_its_id() {
    let mut sessions = Sessions::new();
    let mut connection = Connection::open(&mut sessions);
    let start = || map(vec![("source", Wire::text("")), ("variables", map(Vec::new()))]);
    let mut replied: Vec<Option<CorrelationId>> = Vec::new();
    let mut running: Vec<Option<CorrelationId>> = Vec::new();
    let requests = vec![
        message(1, MessageType::ExecutionStart, start()),
        message(2, MessageType::Init, init_payload(Vec::new())),
        message(3, MessageType::ExecutionStart, start()),
        message(4, MessageType::Init, init_payload(Vec::new())),
        message(5, MessageType::ExecutionStart, start()),
    ];
    for request in requests {
        match connection.exchange(request, &mut sessions) {
            Action::Reply(reply) => replied.push(reply.id),
            Action::Execute(id, _, _) => running.push(id),
            _ => panic!("a reply or an execution"),
        }
    }
    assert!(matches!(connection.exchange(Event::Closed, &mut sessions), Action::Nothing));
    while let Some(id) = running.pop() {
        assert!(!connection.ended(running.len() + 1), "an execution is in flight");
        let reply = executed(id, Ok(Wire::Nil));
        match connection.exchange(Event::Finished(reply), &mut sessions) {
            Action::Reply(reply) => replied.push(reply.id),
            _ => panic!("a reply"),
        }
    }
    assert!(connection.ended(0));
    let mut ids: Vec<u64> = replied.into_iter().map(|id| id.unwrap().0).collect();
    ids.sort_unstable();
    assert_eq!(ids, vec![1, 2, 3, 4, 5]);
}

#[test]
fn a_fatal_frame_stops_the_reading() {
    let mut sessions = Sessions::new();
    let mut connection = Connection::open(&mut sessions);
    let harmless = ProtocolFailure {
        id: Some(CorrelationId(1)),
        error: ProtocolError::new(ProtocolCode::MalformedFrame, "odd".to_owned()),
    };
    let action = connection.exchange(Event::Malformed(harmless), &mut sessions);
    assert_eq!(refusal_code(action), (Some(CorrelationId(1)), "protocol.malformed_frame".to_owned()));
    assert!(connection.reading());
    let fatal = ProtocolFailure { id: None, error: ProtocolError::new(ProtocolCode::FrameTooLarge, "big".to_owned()) };
    let action = connection.exchange(Event::Malformed(fatal), &mut sessions);
    assert_eq!(refusal_code(action), (None, "protocol.frame_too_large".to_owned()));
    assert!(!connection.reading());
    let ignored = connection.exchange(message(2, MessageType::Init, init_payload(Vec::new())), &mut sessions);
    assert!(matches!(ignored, Action::Nothing));
    assert!(sessions.is_empty());
    assert!(matches!(connection.exchange(Event::Lost, &mut sessions), Action::End));
}

#[test]
fn writes_that_fail() {
    assert!(matches!(delivered(None, false, Sent::Written), After::Usable));
    assert!(matches!(delivered(None, false, Sent::Broken), After::Unusable));
    assert!(matches!(delivered(None, true, Sent::TooLarge(String::new())), After::Usable));
    match delivered(Some(CorrelationId(3)), false, Sent::TooLarge("17 bytes".to_owned())) {
        After::Replace(reply) => {
            assert_eq!(reply.id, Some(CorrelationId(3)));
            assert!(shape(&reply.payload).contains("the response could not be sent: 17 bytes"));
        }
        _ => panic!("a refusal in its place"),
    }
    let mut sessions = Sessions::new();
    let mut connection = Connection::open(&mut sessions);
    let issued = match connection.exchange(Event::Call(call(5), true), &mut sessions) {
        Action::Call(issued) => issued.id.unwrap(),
        _ => panic!("the call is written"),
    };
    match connection.call_sent(issued, Sent::TooLarge("17 bytes".to_owned())) {
        After::Wake(5, CallFailure::Unsendable(reason)) => {
            assert_eq!(reason, "its frame would be too large: 17 bytes");
        }
        _ => panic!("the call fails alone"),
    }
    assert!(matches!(connection.call_sent(issued, Sent::Broken), After::Unusable));
}

fn placed<T>(value: T, offset: usize) -> Placed<T> {
    Placed { value, offset }
}

fn uds(path: &str) -> RawTransports {
    RawTransports { uds: Some(RawUds { path: placed(path.to_owned(), 0) }), tcp: None, websocket: None }
}

const TEXT: &str = "a\nbé\nc";

fn problem(raw: RawFile) -> String {
    let problem = Validator { text: TEXT }.system_config(&raw).map(|_| ()).unwrap_err();
    config_error_text(problem)
}

fn config_error_text(problem: Problem) -> String {
    let error: ConfigError = resolve("/x.toml".to_owned(), ConfigSource::Flag, Err(problem)).map(|_| ()).unwrap_err();
    error.to_text()
}

#[test]
fn a_system_config_has_its_defaults() {
    let raw = RawFile { log_level: None, session_ttl_secs: None, transport: Some(uds("/run/s")) };
    let config = Validator { text: TEXT }.system_config(&raw).map_err(|_| ()).unwrap();
    assert_eq!(config.log_level, LogLevel::Info);
    assert_eq!(config.session_ttl, 300);
    assert_eq!(config.transports.uds.as_ref().map(|u| u.path.as_str()), Some("/run/s"));
    let loaded = resolve("/x.toml".to_owned(), ConfigSource::Env, Ok(config)).map_err(|e| e.to_text()).unwrap();
    assert_eq!(loaded.source.as_str(), "env");
}

#[test]
fn wrong_system_configs() {
    let none = RawFile { log_level: None, session_ttl_secs: None, transport: None };
    assert_eq!(
        problem(none),
        "/x.toml: no transport configured; at least one of [transport.uds], [transport.tcp] or [transport.websocket] is required"
    );
    let loud = RawFile { log_level: Some(placed("loud".to_owned(), 4)), session_ttl_secs: None, transport: Some(uds("/s")) };
    assert_eq!(
        problem(loud),
        "/x.toml:2:3: invalid value for `log_level`: expected one of error, warn, info, debug, trace, got \"loud\""
    );
    let zero = RawFile { log_level: None, session_ttl_secs: Some(placed(-1, 6)), transport: Some(uds("/s")) };
    assert_eq!(
        problem(zero),
        "/x.toml:3:1: invalid value for `session_ttl_secs`: expected a whole number of seconds, at least 1, got -1"
    );
    let empty = RawFile { log_level: None, session_ttl_secs: None, transport: Some(uds("")) };
    assert_eq!(problem(empty), "/x.toml:1:1: invalid value for `transport.uds.path`: expected a file path, got \"\"");
    let bind = RawBind { text: placed("nowhere".to_owned(), 2), readable: false };
    let tcp = RawTcp { bind, tls_cert: placed("c".to_owned(), 0), tls_key: placed("k".to_owned(), 0) };
    let transport = RawTransports { uds: None, tcp: Some(tcp), websocket: None };
    assert_eq!(
        problem(RawFile { log_level: None, session_ttl_secs: None, transport: Some(transport) }),
        "/x.toml:2:1: invalid value for `transport.tcp.bind`: expected an IP address and port such as \"127.0.0.1:7400\" or \"[::1]:7400\", got \"nowhere\""
    );
    let bind = RawBind { text: placed("127.0.0.1:1".to_owned(), 0), readable: true };
    let websocket = RawWebSocket { bind, tls_cert: Some(placed("c".to_owned(), 0)), tls_key: None };
    let transport = RawTransports { uds: None, tcp: None, websocket: Some(placed(websocket, 2)) };
    assert_eq!(
        problem(RawFile { log_level: None, session_ttl_secs: None, transport: Some(transport) }),
        "/x.toml:2:1: invalid value for `transport.websocket`: tls_cert and tls_key must be given together or not at all; `tls_cert` is set but `tls_key` is missing"
    );
    assert_eq!(config_error_text(reject(TEXT, Some(1), "odd \n")), "/x.toml:1:2: odd");
    assert_eq!(config_error_text(reject(TEXT, None, "odd")), "/x.toml: odd");
    assert_eq!(
        config_error_text(Problem::NotFound),
        "/x.toml: System Config file not found (named by the --config flag)"
    );
    let missing = resolve("/x.toml".to_owned(), ConfigSource::Default, Err(Problem::NotFound)).map(|_| ()).unwrap_err();
    assert_eq!(
        missing.to_text(),
        "/x.toml: no System Config file at the default path; pass --config <path> or set HEXPUT_CONFIG to use another file"
    );
    assert_eq!(
        config_error_text(Problem::Unreadable("no".to_owned())),
        "/x.toml: cannot read System Config file (named by the --config flag): no"
    );
}

#[test]
fn every_log_level_is_accepted_by_its_text() {
    for level in LogLevel::all() {
        let text = Some(placed(level.as_str().to_owned(), 0));
        assert_eq!(Validator { text: TEXT }.log_level(&text).map_err(|_| ()), Ok(level));
    }
    assert_eq!(Validator { text: TEXT }.session_ttl(&Some(placed(1, 0))).map_err(|_| ()), Ok(1));
}

#[test]
fn the_first_source_there_is_the_only_one() {
    assert_eq!(choose_path(Some("f"), Some("e"), false, "d"), ("f", ConfigSource::Flag));
    assert_eq!(choose_path(Some(""), Some("e"), false, "d"), ("", ConfigSource::Flag));
    assert_eq!(choose_path(None, Some("e"), false, "d"), ("e", ConfigSource::Env));
    assert_eq!(choose_path(None, Some(""), true, "d"), ("d", ConfigSource::Default));
    assert_eq!(choose_path(None, None, false, "d"), ("d", ConfigSource::Default));
}

#[test]
fn positions_count_characters() {
    assert_eq!((locate(TEXT, 0).line, locate(TEXT, 0).column), (1, 1));
    assert_eq!((locate(TEXT, 5).line, locate(TEXT, 5).column), (2, 3));
    assert_eq!((locate(TEXT, 99).line, locate(TEXT, 99).column), (3, 2));
}

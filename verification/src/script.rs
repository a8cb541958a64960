//! Direct Execution: what an `ExecutionStart` payload says, and what is answered for a Script's
//! result.
//!
//! A Backend is owed the exact key, name or path that was wrong.

use vstd::prelude::*;
use std::sync::Arc;
use crate::ast::Program;
use crate::diagnostics::Category;
use crate::diagnostics::Code;
use crate::diagnostics::Diagnostic;
use crate::diagnostics::DiagnosticView;
use crate::diagnostics::Severity;
use crate::diagnostics::Span;
use crate::exec::wire::Converted;
use crate::exec::wire::MAX_RESULT_DEPTH;
use crate::exec::wire::Measured;
use crate::exec::wire::Path;
use crate::exec::wire::SEGMENT_LIMIT;
use crate::exec::wire::SegmentView;
use crate::exec::wire::Unsendable;
use crate::exec::wire::bounded;
use crate::exec::wire::check_result;
use crate::exec::wire::converted;
use crate::exec::wire::is_plain_key;
use crate::exec::wire::measured;
use crate::exec::wire::plain_key;
use crate::exec::wire::rendered;
use crate::exec::wire::result_payload;
use crate::exec::wire::to_hexput;
use crate::exec::wire::to_wire;
use crate::fields::Pair;
use crate::fields::PairView;
use crate::fields::present;
use crate::fields::read_two;
use crate::fields::there;
use crate::fields::two_fields;
use crate::interpreter::value::Value;
use crate::interpreter::value::ValueView;
use crate::interpreter::value::pair_trees;
use crate::port::error::ErrorBody;
use crate::port::error::ErrorBodyView;
use crate::port::error::ProtocolCode;
use crate::port::error::ProtocolError;
use crate::port::error::ProtocolErrorView;
use crate::port::error::diagnostic_body;
use crate::port::error::protocol_body;
use crate::port::frame::MAX_FRAME_LEN;
use crate::session::init::payload_fields;
use crate::table::Table;
use crate::table::distinct;
use crate::table::has_key;
use crate::table::share;
use crate::text::bounded_to_spec;
use crate::text::decimal;
use crate::text::holds;
use crate::text::list_holds;
use crate::text::push_decimal;
use crate::text::quote;
use crate::text::quoted;
use crate::wire::Wire;
use crate::wire::WireView;
use crate::wire::lemma_wire_items;
use crate::wire::pairs_view;

pub mod starting;

verus! {

/// Whether a text is an identifier of the language: ASCII letters, digits and `_`, not starting with
/// a digit, and none of the reserved words.
pub open spec fn identifier(text: Seq<char>, reserved: Seq<String>) -> bool {
    plain_key(text) && !holds(reserved, text)
}

/// Whether a text is an identifier of a language with these reserved words.
pub fn is_identifier(text: &str, reserved: &Vec<String>) -> (r: bool)
    ensures
        r == identifier(text@, reserved@),
{
    is_plain_key(text) && !list_holds(reserved, text)
}

/// What an `ExecutionStart` payload says.
#[verifier::ext_equal]
pub ghost struct StartView {
    pub source: Seq<char>,
    pub variables: Seq<(Seq<char>, ValueView)>,
}

/// What one starting variable is, or what is wrong with it.
pub open spec fn decoded_variable(
    pair: (WireView, WireView),
    reserved: Seq<String>,
    bound: Seq<(Seq<char>, ValueView)>,
) -> Result<(Seq<char>, ValueView), Seq<char>> {
    match pair.0 {
        WireView::String(name) => if !identifier(name, reserved) {
            Err(
                "the starting variable "@ + quoted(bounded_to_spec(name, SEGMENT_LIMIT as int))
                    + " is not a Hexput identifier (ASCII letters, digits and `_`, not starting with a digit, not a reserved word)"@,
            )
        } else if has_key(bound, name) {
            Err(
                "`variables` names the starting variable `"@ + bounded_to_spec(name, SEGMENT_LIMIT as int)
                    + "` twice"@,
            )
        } else {
            match converted(pair.1, seq![SegmentView::Key(name)]) {
                Converted::Value(value) => Ok((name, value)),
                Converted::Refused { at, reason } => Err(rendered("variables"@, at) + " "@ + reason),
            }
        },
        _ => Err("`variables` has a key that is not a string"@),
    }
}

/// What the first `n` starting variables are, or the first thing that is wrong with them.
pub open spec fn decoded_variables(
    pairs: Seq<(WireView, WireView)>,
    reserved: Seq<String>,
    n: int,
) -> Result<Seq<(Seq<char>, ValueView)>, Seq<char>>
    decreases n,
{
    if n <= 0 {
        Ok(Seq::empty())
    } else {
        match decoded_variables(pairs, reserved, n - 1) {
            Err(message) => Err(message),
            Ok(bound) => match decoded_variable(pairs[n - 1], reserved, bound) {
                Err(message) => Err(message),
                Ok(variable) => Ok(bound.push(variable)),
            },
        }
    }
}

/// What an `ExecutionStart` payload says, or the first thing that is wrong with it.
pub open spec fn decoded_start(payload: WireView, reserved: Seq<String>) -> Result<StartView, Seq<char>> {
    match payload_fields(payload) {
        None => Err("the `ExecutionStart` payload must be a map with `source` and `variables`"@),
        Some(fields) => match two_fields(fields, "source"@, "variables"@, fields.len() as int) {
            PairView::Unknown(i) => match fields[i].0 {
                WireView::String(key) => Err(
                    "the `ExecutionStart` payload has an unknown key `"@ + bounded_to_spec(key, SEGMENT_LIMIT as int)
                        + "`"@,
                ),
                _ => Err("the `ExecutionStart` payload has a key that is not a string"@),
            },
            PairView::Repeated(i) => Err(
                "the `ExecutionStart` payload repeats the key `"@ + fields[i].0->String_0 + "`"@,
            ),
            PairView::Fields(source, variables) => match (there(source), there(variables)) {
                (None, Some(_)) => Err("the `ExecutionStart` payload is missing `source`"@),
                (Some(_), None) => Err("the `ExecutionStart` payload is missing `variables`"@),
                (None, None) => Err("the `ExecutionStart` payload is missing `source` and `variables`"@),
                (Some(source), Some(variables)) => match source {
                    WireView::String(source) => match variables {
                        WireView::Pairs(pairs) => match decoded_variables(pairs, reserved, pairs.len() as int) {
                            Ok(variables) => Ok(StartView { source, variables }),
                            Err(message) => Err(message),
                        },
                        _ => Err("`variables` is not a map"@),
                    },
                    _ => Err("`source` is not a string"@),
                },
            },
        },
    }
}

proof fn lemma_stays_wrong(pairs: Seq<(WireView, WireView)>, reserved: Seq<String>, k: int, n: int)
    requires
        0 <= k <= n,
    ensures
        decoded_variables(pairs, reserved, k) is Err ==> decoded_variables(pairs, reserved, n) == decoded_variables(
            pairs,
            reserved,
            k,
        ),
    decreases n - k,
{
    if k < n {
        lemma_stays_wrong(pairs, reserved, k, n - 1);
    }
}

fn not_an_identifier(name: &str) -> (r: String)
    ensures
        r@ == "the starting variable "@ + quoted(bounded_to_spec(name@, SEGMENT_LIMIT as int))
            + " is not a Hexput identifier (ASCII letters, digits and `_`, not starting with a digit, not a reserved word)"@,
{
    let mut message = "the starting variable ".to_owned();
    message.append(quote(bounded(name).as_str()).as_str());
    message.append(
        " is not a Hexput identifier (ASCII letters, digits and `_`, not starting with a digit, not a reserved word)",
    );
    message
}

fn named_twice(name: &str) -> (r: String)
    ensures
        r@ == "`variables` names the starting variable `"@ + bounded_to_spec(name@, SEGMENT_LIMIT as int) + "` twice"@,
{
    let mut message = "`variables` names the starting variable `".to_owned();
    message.append(bounded(name).as_str());
    message.append("` twice");
    message
}

/// Whether a table knows exactly the names that are bound.
spec fn knows(seen: Seq<(Seq<char>, ())>, bound: Seq<(Seq<char>, ValueView)>) -> bool {
    seen.len() == bound.len() && forall|k: int| 0 <= k < seen.len() ==> (#[trigger] seen[k]).0 == bound[k].0
}

proof fn lemma_knows(seen: Seq<(Seq<char>, ())>, bound: Seq<(Seq<char>, ValueView)>, name: Seq<char>)
    requires
        knows(seen, bound),
    ensures
        has_key(seen, name) == has_key(bound, name),
{
    if has_key(seen, name) {
        let k = crate::table::at(seen, name);
        assert(seen[k].0 == name);
        assert(bound[k].0 == name);
    }
    if has_key(bound, name) {
        let k = crate::table::at(bound, name);
        assert(bound[k].0 == name);
        assert(seen[k].0 == name);
    }
}

fn decode_variables(pairs: &Vec<(Wire, Wire)>, reserved: &Vec<String>) -> (r: Result<Vec<(Arc<str>, Value)>, String>)
    ensures
        match (r, decoded_variables(pairs_view(pairs@), reserved@, pairs@.len() as int)) {
            (Ok(bound), Ok(wanted)) => pair_trees(bound@) == wanted,
            (Err(message), Err(wanted)) => message@ == wanted,
            _ => false,
        },
{
    let ghost views = pairs_view(pairs@);
    let mut seen: Table<()> = Table::new();
    let mut bound: Vec<(Arc<str>, Value)> = Vec::new();
    let mut i: usize = 0;
    proof {
        assert(pair_trees(bound@) =~= Seq::empty());
    }
    while i < pairs.len()
        invariant
            i <= pairs@.len(),
            bound@.len() == i,
            views == pairs_view(pairs@),
            decoded_variables(views, reserved@, i as int) == Ok::<Seq<(Seq<char>, ValueView)>, Seq<char>>(
                pair_trees(bound@),
            ),
            distinct(seen@),
            knows(seen@, pair_trees(bound@)),
        decreases pairs.len() - i,
    {
        let ghost so_far = pair_trees(bound@);
        proof {
            assert(views[i as int].0 == pairs@[i as int].0@);
            assert(views[i as int].1 == pairs@[i as int].1@);
            lemma_stays_wrong(views, reserved@, i + 1, views.len() as int);
        }
        let name = match pairs[i].0.as_str() {
            Some(name) => name,
            None => {
                return Err("`variables` has a key that is not a string".to_owned());
            },
        };
        proof {
            lemma_knows(seen@, so_far, name@);
        }
        if !is_identifier(name, reserved) {
            return Err(not_an_identifier(name));
        }
        if seen.get(name).is_some() {
            return Err(named_twice(name));
        }
        let mut path = Path::variable(name);
        let value = match to_hexput(&pairs[i].1, &mut path) {
            Ok(value) => value,
            Err(message) => {
                return Err(message);
            },
        };
        let ghost known = seen@;
        seen.insert(share(name), ());
        bound.push((share(name), value));
        proof {
            crate::table::lemma_put_distinct(known, name@, ());
            assert(seen@ == known.push((name@, ())));
            assert(pair_trees(bound@) =~= so_far.push((name@, value@)));
        }
        i = i + 1;
    }
    Ok(bound)
}

fn unknown_key(key: &Wire) -> (r: String)
    ensures
        r@ == match key@ {
            WireView::String(key) => "the `ExecutionStart` payload has an unknown key `"@ + bounded_to_spec(
                key,
                SEGMENT_LIMIT as int,
            ) + "`"@,
            _ => "the `ExecutionStart` payload has a key that is not a string"@,
        },
{
    match key.as_str() {
        Some(key) => {
            let mut message = "the `ExecutionStart` payload has an unknown key `".to_owned();
            message.append(bounded(key).as_str());
            message.append("`");
            message
        },
        None => "the `ExecutionStart` payload has a key that is not a string".to_owned(),
    }
}

/// Decode an `ExecutionStart` payload: a map with exactly the keys `source` and `variables`. A key
/// that is absent or nil is missing, and both missing keys are named together.
pub fn decode<'a>(payload: &'a Wire, reserved: &Vec<String>) -> (r: Result<(&'a str, Vec<(Arc<str>, Value)>), String>)
    ensures
        match (r, decoded_start(payload@, reserved@)) {
            (Ok(start), Ok(wanted)) => start.0@ == wanted.source && pair_trees(start.1@) == wanted.variables,
            (Err(message), Err(wanted)) => message@ == wanted,
            _ => false,
        },
{
    broadcast use lemma_wire_items;

    let fields = match payload {
        Wire::Nil => {
            proof {
                assert(payload_fields(payload@) == Some(Seq::<(WireView, WireView)>::empty()));
            }
            return Err("the `ExecutionStart` payload is missing `source` and `variables`".to_owned());
        },
        Wire::Pairs(fields) => fields,
        _ => {
            return Err("the `ExecutionStart` payload must be a map with `source` and `variables`".to_owned());
        },
    };
    let ghost views = pairs_view(fields@);
    proof {
        assert(payload_fields(payload@) == Some(views));
    }
    let (source, variables) = match read_two(fields, "source", "variables") {
        Pair::Unknown(i) => {
            proof {
                assert(views[i as int].0 == fields@[i as int].0@);
            }
            return Err(unknown_key(&fields[i].0));
        },
        Pair::Repeated(i) => {
            proof {
                assert(views[i as int].0 == fields@[i as int].0@);
            }
            let mut message = "the `ExecutionStart` payload repeats the key `".to_owned();
            if let Some(key) = fields[i].0.as_str() {
                message.append(key);
            }
            message.append("`");
            return Err(message);
        },
        Pair::Fields(source, variables) => (source, variables),
    };
    match (present(source), present(variables)) {
        (Some(source), Some(variables)) => match source.as_str() {
            Some(source) => match variables {
                Wire::Pairs(pairs) => match decode_variables(pairs, reserved) {
                    Ok(bound) => Ok((source, bound)),
                    Err(message) => Err(message),
                },
                _ => Err("`variables` is not a map".to_owned()),
            },
            None => Err("`source` is not a string".to_owned()),
        },
        (None, Some(_)) => Err("the `ExecutionStart` payload is missing `source`".to_owned()),
        (Some(_), None) => Err("the `ExecutionStart` payload is missing `variables`".to_owned()),
        (None, None) => Err("the `ExecutionStart` payload is missing `source` and `variables`".to_owned()),
    }
}

/// The error body of a protocol refusal.
pub open spec fn refused(code: ProtocolCode, message: Seq<char>) -> ErrorBodyView {
    protocol_body(ProtocolErrorView { code, message })
}

fn refuse(code: ProtocolCode, message: String) -> (r: ErrorBody)
    ensures
        r@ == refused(code, message@),
{
    ErrorBody::of_protocol(&ProtocolError::new(code, message))
}

/// Decode an `ExecutionStart` payload into the source to parse and the starting variables.
pub fn prepare<'a>(payload: &'a Wire, reserved: &Vec<String>) -> (r: Result<
    (&'a str, Vec<(Arc<str>, Value)>),
    ErrorBody,
>)
    ensures
        match (r, decoded_start(payload@, reserved@)) {
            (Ok(start), Ok(wanted)) => start.0@ == wanted.source && pair_trees(start.1@) == wanted.variables,
            (Err(body), Err(wanted)) => body@ == refused(ProtocolCode::InvalidPayload, wanted),
            _ => false,
        },
{
    match decode(payload, reserved) {
        Ok(start) => Ok(start),
        Err(message) => Err(refuse(ProtocolCode::InvalidPayload, message)),
    }
}

/// The program of a Script that was parsed, or the body of the parser's diagnostic.
pub fn parsed(program: Result<Program, Diagnostic>) -> (r: Result<Arc<Program>, ErrorBody>)
    ensures
        match program {
            Ok(program) => r matches Ok(shared) && *shared == program,
            Err(d) => r matches Err(body) && body@ == diagnostic_body(d@),
        },
{
    match program {
        Ok(program) => Ok(Arc::new(program)),
        Err(d) => Err(ErrorBody::of_diagnostic(&d)),
    }
}

/// The diagnostic of a result that holds a function.
pub open spec fn unrepresentable() -> DiagnosticView {
    DiagnosticView {
        category: Category::Type,
        code: Code::FUNCTION_RESULT@,
        message: "the Script's result holds a value with no wire representation"@,
        severity: Severity::Error,
        span: Span { offset: 0, len: 0, line: 1, column: 1 },
    }
}

/// What is answered for a Script's result: the payload that carries it, or why it cannot be sent.
#[verifier::ext_equal]
pub ghost enum Replied {
    Payload(WireView),
    Failure(ErrorBodyView),
}

/// What is answered for a Script's result.
pub open spec fn replied(result: ValueView) -> Replied {
    match measured(result, 0, MAX_RESULT_DEPTH as int, MAX_FRAME_LEN as int) {
        Measured::Left(_) => Replied::Payload(result_payload(result)),
        Measured::Refused(Unsendable::TooDeep, _) => Replied::Failure(
            refused(
                ProtocolCode::ResultTooDeep,
                "the Script's result nests more than "@ + decimal(MAX_RESULT_DEPTH as nat)
                    + " arrays or objects deep, past what a frame may carry"@,
            ),
        ),
        Measured::Refused(Unsendable::TooLarge, _) => Replied::Failure(
            refused(
                ProtocolCode::ResponseTooLarge,
                "the Script's result encodes to more than the maximum frame of "@ + decimal(MAX_FRAME_LEN as nat)
                    + " bytes"@,
            ),
        ),
        Measured::Refused(Unsendable::Unrepresentable, _) => Replied::Failure(diagnostic_body(unrepresentable())),
    }
}

/// What a reply is.
pub open spec fn reply_view(reply: Result<Wire, ErrorBody>) -> Replied {
    match reply {
        Ok(payload) => Replied::Payload(payload@),
        Err(body) => Replied::Failure(body@),
    }
}

/// The payload for a Script's result, or why it cannot be sent.
pub fn reply(result: &Value) -> (r: Result<Wire, ErrorBody>)
    ensures
        reply_view(r) == replied(result@),
{
    broadcast use lemma_wire_items;

    match check_result(result) {
        Ok(()) => {
            let mut fields: Vec<(Wire, Wire)> = Vec::new();
            fields.push((Wire::text("value"), to_wire(result)));
            proof {
                assert(pairs_view(fields@) =~= result_payload(result@)->Pairs_0);
            }
            let payload = Wire::Pairs(fields);
            assert(payload@ == result_payload(result@));
            Ok(payload)
        },
        Err(Unsendable::TooDeep) => {
            let mut message = "the Script's result nests more than ".to_owned();
            push_decimal(&mut message, MAX_RESULT_DEPTH as u64);
            message.append(" arrays or objects deep, past what a frame may carry");
            Err(refuse(ProtocolCode::ResultTooDeep, message))
        },
        Err(Unsendable::TooLarge) => {
            let mut message = "the Script's result encodes to more than the maximum frame of ".to_owned();
            push_decimal(&mut message, MAX_FRAME_LEN as u64);
            message.append(" bytes");
            Err(refuse(ProtocolCode::ResponseTooLarge, message))
        },
        Err(Unsendable::Unrepresentable) => {
            let d = Diagnostic::new(
                Category::Type,
                Code::new(Code::FUNCTION_RESULT),
                "the Script's result holds a value with no wire representation".to_owned(),
                Span { offset: 0, len: 0, line: 1, column: 1 },
            );
            Err(ErrorBody::of_diagnostic(&d))
        },
    }
}

/// What is answered for an execution that came to its end: its result, or its diagnostic.
pub fn finish(outcome: &Result<Value, Diagnostic>) -> (r: Result<Wire, ErrorBody>)
    ensures
        reply_view(r) == match *outcome {
            Ok(result) => replied(result@),
            Err(d) => Replied::Failure(diagnostic_body(d@)),
        },
{
    match outcome {
        Ok(result) => reply(result),
        Err(d) => Err(ErrorBody::of_diagnostic(d)),
    }
}

/// The starting variables of an accepted payload are identifiers, there once each.
pub proof fn law_variables_distinct(pairs: Seq<(WireView, WireView)>, reserved: Seq<String>, n: int)
    requires
        0 <= n <= pairs.len(),
        decoded_variables(pairs, reserved, n) is Ok,
    ensures
        decoded_variables(pairs, reserved, n)->Ok_0.len() == n,
        distinct(decoded_variables(pairs, reserved, n)->Ok_0),
        forall|i: int|
            0 <= i < n ==> identifier((#[trigger] decoded_variables(pairs, reserved, n)->Ok_0[i]).0, reserved),
    decreases n,
{
    if n > 0 {
        law_variables_distinct(pairs, reserved, n - 1);
        let before = decoded_variables(pairs, reserved, n - 1)->Ok_0;
        let all = decoded_variables(pairs, reserved, n)->Ok_0;
        assert forall|i: int| 0 <= i < n implies identifier((#[trigger] all[i]).0, reserved) by {
            if i < n - 1 {
                assert(all[i] == before[i]);
            }
        }
        assert forall|i: int, j: int| 0 <= i < n && 0 <= j < n && i != j implies (#[trigger] all[i]).0 != (
        #[trigger] all[j]).0 by {
            if i < n - 1 && j < n - 1 {
                assert(before[i].0 != before[j].0);
            } else if i < n - 1 {
                assert(before[i].0 == all[i].0);
            } else {
                assert(before[j].0 == all[j].0);
            }
        }
    }
}

} // verus!

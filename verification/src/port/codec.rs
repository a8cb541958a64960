//! One frame's bytes to an envelope and back.
//!
//! Reading goes in two steps: the bytes become one untyped value, and the value is validated, so
//! that every failure has its exact code and the correlation id is recovered whenever it is
//! readable.

use vstd::prelude::*;
use vstd::utf8::is_ascii_chars;
use vstd::utf8::is_ascii_chars_encode_utf8;
use crate::envelope::CorrelationId;
use crate::envelope::Envelope;
use crate::envelope::EnvelopeView;
use crate::envelope::MessageType;
use crate::message_pack::Unpacked;
use crate::message_pack::Unreadable;
use crate::message_pack::countable;
use crate::message_pack::pack;
use crate::message_pack::packed;
use crate::message_pack::read_view;
use crate::message_pack::unpack;
use crate::message_pack::unpacked;
use crate::port::error::ErrorBody;
use crate::port::error::ProtocolCode;
use crate::port::error::ProtocolError;
use crate::port::error::ProtocolErrorView;
use crate::port::error::error_message;
use crate::port::error::error_response;
use crate::port::error::protocol_body;
use crate::port::frame::MAX_FRAME_LEN;
use crate::text::decimal;
use crate::text::push_decimal;
use crate::text::quote;
use crate::text::quoted;
use crate::text::same;
use crate::wire::Wire;
use crate::wire::WireView;
use crate::wire::lemma_pairs_nesting;
use crate::wire::lemma_wire_items;
use crate::wire::nesting;
use crate::wire::pairs_nesting;
use crate::wire::pairs_view;

verus! {

/// The deepest container nesting that a frame may have, the envelope itself counted as one level.
pub const MAX_NESTING_DEPTH: usize = 128;

/// A frame that was rejected: the error, and the request's id if the bytes let it be read.
#[derive(Debug, Clone)]
pub struct ProtocolFailure {
    pub id: Option<CorrelationId>,
    pub error: ProtocolError,
}

/// What a [`ProtocolFailure`] says.
#[verifier::ext_equal]
pub ghost struct ProtocolFailureView {
    pub id: Option<CorrelationId>,
    pub error: ProtocolErrorView,
}

impl View for ProtocolFailure {
    type V = ProtocolFailureView;

    open spec fn view(&self) -> ProtocolFailureView {
        ProtocolFailureView { id: self.id, error: self.error@ }
    }
}

impl ProtocolFailureView {
    /// The failure as text.
    pub open spec fn spelling(self) -> Seq<char> {
        let error = self.error.code.spelling() + ": "@ + self.error.message;
        match self.id {
            Some(id) => "request "@ + decimal(id.0 as nat) + ": "@ + error,
            None => error,
        }
    }
}

impl ProtocolFailure {
    /// The error response to send back.
    pub fn to_response(&self) -> (r: Envelope<Wire>)
        ensures
            r@ == error_message(self@.id, protocol_body(self@.error)),
    {
        error_response(self.id, &ErrorBody::of_protocol(&self.error))
    }

    /// The failure as text.
    pub fn to_text(&self) -> (r: String)
        ensures
            r@ == self@.spelling(),
    {
        match self.id {
            Some(id) => {
                let mut text = "request ".to_owned();
                push_decimal(&mut text, id.0);
                text.append(": ");
                text.append(self.error.to_text().as_str());
                text
            },
            None => self.error.to_text(),
        }
    }
}

/// An envelope that could not be encoded.
#[derive(Debug, Clone)]
#[non_exhaustive]
pub enum EncodeError {
    /// The body is longer than the largest frame.
    FrameTooLarge { len: usize },
    /// The serializer refused the value.
    Serialize(String),
}

impl EncodeError {
    /// The error as text.
    pub open spec fn spelling(self) -> Seq<char> {
        match self {
            EncodeError::FrameTooLarge { len } => "frame length "@ + decimal(len as nat) + " exceeds the maximum of "@
                + decimal(MAX_FRAME_LEN as nat) + " bytes"@,
            EncodeError::Serialize(message) => "could not encode envelope: "@ + message@,
        }
    }

    /// The error as text.
    pub fn to_text(&self) -> (r: String)
        ensures
            r@ == self.spelling(),
    {
        match self {
            EncodeError::FrameTooLarge { len } => {
                let mut text = "frame length ".to_owned();
                push_decimal(&mut text, *len as u64);
                text.append(" exceeds the maximum of ");
                push_decimal(&mut text, MAX_FRAME_LEN as u64);
                text.append(" bytes");
                text
            },
            EncodeError::Serialize(message) => {
                let mut text = "could not encode envelope: ".to_owned();
                text.append(message.as_str());
                text
            },
        }
    }
}

/// A value that nests less deep than the envelope around it may.
proof fn lemma_body_nesting(envelope: EnvelopeView)
    ensures
        nesting(envelope.body()) == 1 + nesting(envelope.payload),
{
    let pairs = envelope.body()->Pairs_0;
    reveal_with_fuel(pairs_nesting, 4);
    assert(nesting(pairs[0].0) == 0 && nesting(pairs[0].1) == 0);
    assert(nesting(pairs[1].0) == 0 && nesting(pairs[1].1) == 0);
    assert(nesting(pairs[2].0) == 0 && pairs[2].1 == envelope.payload);
    assert(pairs.len() == 3);
    assert(pairs_nesting(pairs, 1) == 0);
    assert(pairs_nesting(pairs, 2) == 0);
    assert(pairs_nesting(pairs, 3) == nesting(envelope.payload));
}

/// The envelope around a value has short texts and few pairs.
proof fn lemma_body_countable(envelope: EnvelopeView)
    requires
        countable(envelope.payload),
    ensures
        countable(envelope.body()),
{
    let pairs = envelope.body()->Pairs_0;
    reveal_strlit("id");
    reveal_strlit("type");
    reveal_strlit("payload");
    is_ascii_chars_encode_utf8("id"@);
    is_ascii_chars_encode_utf8("type"@);
    is_ascii_chars_encode_utf8("payload"@);
    lemma_spelling_countable(envelope.message_type);
    assert(pairs.len() == 3);
    assert forall|i: int| 0 <= i < pairs.len() implies countable((#[trigger] pairs[i]).0) && countable(pairs[i].1) by {
        assert(i == 0 || i == 1 || i == 2);
    }
}

proof fn lemma_spelling_countable(kind: MessageType)
    ensures
        countable(WireView::String(kind.spelling())),
{
    reveal_strlit("Init");
    reveal_strlit("ExecutionStart");
    reveal_strlit("ConfigUpdate");
    reveal_strlit("Result");
    reveal_strlit("Call");
    reveal_strlit("Authorize");
    reveal_strlit("Error");
    assert(is_ascii_chars(kind.spelling()));
    is_ascii_chars_encode_utf8(kind.spelling());
}

/// Encode an envelope as one map of `id`, `type` and `payload`: the body of a frame. What it holds
/// decodes as the same envelope.
pub fn encode(envelope: &Envelope<Wire>) -> (r: Result<Vec<u8>, EncodeError>)
    requires
        nesting(envelope@.payload) < 1024,
    ensures
        match r {
            Ok(bytes) => {
                &&& bytes@ == packed(envelope@.body())
                &&& countable(envelope@.payload) && nesting(envelope@.payload) < MAX_NESTING_DEPTH ==> decoded(bytes@)
                    == validated(envelope@.body())
                &&& countable(envelope@.payload) && nesting(envelope@.payload) < MAX_NESTING_DEPTH && (envelope@.id is Some
                    || envelope@.message_type == MessageType::Error) ==> decoded(bytes@) == Decoded::Message(envelope@)
            },
            Err(error) => error is Serialize,
        },
{
    broadcast use lemma_wire_items;

    let id = match envelope.id {
        Some(id) => Wire::Unsigned(id.0),
        None => Wire::Nil,
    };
    let mut pairs: Vec<(Wire, Wire)> = Vec::new();
    pairs.push((Wire::text("id"), id));
    pairs.push((Wire::text("type"), Wire::text(envelope.message_type.as_str())));
    pairs.push((Wire::text("payload"), envelope.payload.copied()));
    let body = Wire::Pairs(pairs);
    proof {
        assert(pairs_view(pairs@) =~= envelope@.body()->Pairs_0);
        assert(body@ == envelope@.body());
        lemma_body_nesting(envelope@);
    }
    match pack(&body) {
        Ok(bytes) => {
            proof {
                if countable(envelope@.payload) && nesting(envelope@.payload) < MAX_NESTING_DEPTH {
                    lemma_body_countable(envelope@);
                    if envelope@.id is Some || envelope@.message_type == MessageType::Error {
                        law_envelope_round_trip(envelope@);
                    }
                    assert(unpacked(bytes@, 129) == (Unpacked::Value { value: envelope@.body(), left: 0 }));
                }
            }
            Ok(bytes)
        },
        Err(message) => Err(EncodeError::Serialize(message)),
    }
}

/// What a frame says.
#[verifier::ext_equal]
pub ghost enum Decoded {
    Message(EnvelopeView),
    Failure(ProtocolFailureView),
}

pub open spec fn broken(code: ProtocolCode, message: Seq<char>) -> Decoded {
    Decoded::Failure(ProtocolFailureView { id: None, error: ProtocolErrorView { code, message } })
}

pub open spec fn rejected(id: Option<CorrelationId>, message: Seq<char>) -> Decoded {
    Decoded::Failure(
        ProtocolFailureView { id, error: ProtocolErrorView { code: ProtocolCode::InvalidEnvelope, message } },
    )
}

/// Whether pair `i` has the key `name`.
pub open spec fn keyed(pairs: Seq<(WireView, WireView)>, i: int, name: Seq<char>) -> bool {
    pairs[i].0 == WireView::String(name)
}

/// The first of the first `n` pairs with the key `name`.
pub open spec fn field(pairs: Seq<(WireView, WireView)>, name: Seq<char>, n: int) -> Option<WireView>
    decreases n,
{
    if n <= 0 {
        None
    } else if field(pairs, name, n - 1) is Some {
        field(pairs, name, n - 1)
    } else if keyed(pairs, n - 1, name) {
        Some(pairs[n - 1].1)
    } else {
        None
    }
}

/// What is wrong with the key of pair `i`, given the pairs before it.
pub open spec fn key_problem(pairs: Seq<(WireView, WireView)>, i: int) -> Option<Seq<char>> {
    match pairs[i].0 {
        WireView::String(name) => if name != "id"@ && name != "type"@ && name != "payload"@ {
            Some("unknown envelope field "@ + quoted(name))
        } else if field(pairs, name, i) is Some {
            Some("envelope field "@ + quoted(name) + " appears twice"@)
        } else {
            None
        },
        _ => Some("envelope keys must be strings"@),
    }
}

/// The first thing wrong with the keys of the first `n` pairs.
pub open spec fn problem(pairs: Seq<(WireView, WireView)>, n: int) -> Option<Seq<char>>
    decreases n,
{
    if n <= 0 {
        None
    } else if problem(pairs, n - 1) is Some {
        problem(pairs, n - 1)
    } else {
        key_problem(pairs, n - 1)
    }
}

/// Whether `id` appears again among the first `n` pairs.
pub open spec fn id_repeated(pairs: Seq<(WireView, WireView)>, n: int) -> bool
    decreases n,
{
    n > 0 && (id_repeated(pairs, n - 1) || (keyed(pairs, n - 1, "id"@) && field(pairs, "id"@, n - 1) is Some))
}

/// The id that an envelope lets be read: present once, and an unsigned 64-bit integer.
pub open spec fn readable_id(pairs: Seq<(WireView, WireView)>) -> Option<CorrelationId> {
    if id_repeated(pairs, pairs.len() as int) {
        None
    } else {
        match field(pairs, "id"@, pairs.len() as int) {
            Some(WireView::Integer(n)) => if 0 <= n <= u64::MAX {
                Some(CorrelationId(n as u64))
            } else {
                None
            },
            _ => None,
        }
    }
}

/// The message type with a spelling.
pub open spec fn type_named(name: Seq<char>) -> MessageType {
    choose|t: MessageType| #[trigger] t.spelling() == name
}

/// What a value says as an envelope.
pub open spec fn validated(value: WireView) -> Decoded {
    match value {
        WireView::Pairs(pairs) => {
            let n = pairs.len() as int;
            let id = readable_id(pairs);
            if let Some(message) = problem(pairs, n) {
                rejected(id, message)
            } else {
                match field(pairs, "id"@, n) {
                    None => rejected(None, "envelope is missing \"id\""@),
                    Some(found) => if found != WireView::Nil && id is None {
                        rejected(None, "\"id\" must be an unsigned 64-bit integer"@)
                    } else {
                        match field(pairs, "type"@, n) {
                            None => rejected(id, "envelope is missing \"type\""@),
                            Some(WireView::String(name)) => if !MessageType::named(name) {
                                Decoded::Failure(
                                    ProtocolFailureView {
                                        id,
                                        error: ProtocolErrorView {
                                            code: ProtocolCode::UnknownMessageType,
                                            message: "unknown message type "@ + quoted(name),
                                        },
                                    },
                                )
                            } else if found == WireView::Nil && type_named(name) != MessageType::Error {
                                rejected(None, "\"id\" may be nil only on an Error response"@)
                            } else {
                                Decoded::Message(
                                    EnvelopeView {
                                        id,
                                        message_type: type_named(name),
                                        payload: match field(pairs, "payload"@, n) {
                                            Some(payload) => payload,
                                            None => WireView::Nil,
                                        },
                                    },
                                )
                            },
                            Some(_) => rejected(id, "\"type\" must be a string"@),
                        }
                    },
                }
            }
        },
        _ => rejected(None, "an envelope must be a map"@),
    }
}

/// What a frame says that reads as this.
pub open spec fn said(read: Unpacked) -> Decoded {
    match read {
        Unpacked::Truncated => broken(
            ProtocolCode::TruncatedFrame,
            "the MessagePack value ends before its headers say it does"@,
        ),
        Unpacked::TooDeep => broken(
            ProtocolCode::MalformedFrame,
            "nesting exceeds the limit of "@ + decimal(MAX_NESTING_DEPTH as nat) + " levels"@,
        ),
        Unpacked::Other(message) => broken(ProtocolCode::MalformedFrame, "not a MessagePack value: "@ + message),
        Unpacked::Value { value, left } => if left != 0 {
            broken(ProtocolCode::MalformedFrame, decimal(left) + " trailing byte(s) after the MessagePack value"@)
        } else {
            validated(value)
        },
    }
}

/// What a frame's bytes say.
pub open spec fn decoded(bytes: Seq<u8>) -> Decoded {
    if bytes.len() == 0 {
        broken(ProtocolCode::MalformedFrame, "empty frame: expected one MessagePack value"@)
    } else {
        said(unpacked(bytes, (MAX_NESTING_DEPTH + 1) as nat))
    }
}

/// Whether a result is what a frame says.
pub open spec fn decodes(r: Result<Envelope<Wire>, ProtocolFailure>, decoded: Decoded) -> bool {
    match decoded {
        Decoded::Message(message) => r matches Ok(envelope) && envelope@ == message,
        Decoded::Failure(wanted) => r matches Err(failure) && failure@ == wanted,
    }
}

fn invalid(id: Option<CorrelationId>, message: String) -> (r: ProtocolFailure)
    ensures
        Decoded::Failure(r@) == rejected(id, message@),
{
    ProtocolFailure { id, error: ProtocolError::new(ProtocolCode::InvalidEnvelope, message) }
}

fn malformed(code: ProtocolCode, message: String) -> (r: ProtocolFailure)
    ensures
        Decoded::Failure(r@) == broken(code, message@),
{
    ProtocolFailure { id: None, error: ProtocolError::new(code, message) }
}

/// The value that a frame read as, or why it is none: it must be the whole frame.
pub fn classify(read: Result<(Wire, usize), Unreadable>) -> (r: Result<Wire, ProtocolFailure>)
    ensures
        match read {
            Ok((value, 0)) => r == Ok::<Wire, ProtocolFailure>(value),
            _ => r matches Err(failure) && Decoded::Failure(failure@) == said(read_view(read)),
        },
{
    match read {
        Ok((value, left)) => {
            if left != 0 {
                let mut message = crate::text::decimal_text(left as u64);
                message.append(" trailing byte(s) after the MessagePack value");
                return Err(malformed(ProtocolCode::MalformedFrame, message));
            }
            Ok(value)
        },
        Err(Unreadable::Truncated) => Err(
            malformed(
                ProtocolCode::TruncatedFrame,
                "the MessagePack value ends before its headers say it does".to_owned(),
            ),
        ),
        Err(Unreadable::TooDeep) => {
            let mut message = "nesting exceeds the limit of ".to_owned();
            push_decimal(&mut message, MAX_NESTING_DEPTH as u64);
            message.append(" levels");
            Err(malformed(ProtocolCode::MalformedFrame, message))
        },
        Err(Unreadable::Other(reason)) => {
            let mut message = "not a MessagePack value: ".to_owned();
            message.append(reason.as_str());
            Err(malformed(ProtocolCode::MalformedFrame, message))
        },
    }
}

/// Read a frame's bytes as one value.
fn parse_value(bytes: &Vec<u8>) -> (r: Result<Wire, ProtocolFailure>)
    ensures
        match r {
            Ok(value) => decoded(bytes@) == validated(value@) && nesting(value@) <= MAX_NESTING_DEPTH,
            Err(failure) => decoded(bytes@) == Decoded::Failure(failure@),
        },
{
    if bytes.len() == 0 {
        return Err(
            malformed(
                ProtocolCode::MalformedFrame,
                "empty frame: expected one MessagePack value".to_owned(),
            ),
        );
    }
    classify(unpack(bytes, MAX_NESTING_DEPTH + 1))
}

/// Where the fields of an envelope are, and the first thing wrong with its keys.
struct Fields {
    id: Option<usize>,
    message_type: Option<usize>,
    payload: Option<usize>,
    problem: Option<String>,
    id_repeated: bool,
}

/// Whether a place is where a field was found first.
spec fn found_at(pairs: Seq<(WireView, WireView)>, name: Seq<char>, n: int, place: Option<usize>) -> bool {
    match (place, field(pairs, name, n)) {
        (Some(i), Some(value)) => i < n && pairs[i as int].1 == value,
        (None, None) => true,
        _ => false,
    }
}

spec fn fields_found(fields: Fields, pairs: Seq<(WireView, WireView)>, n: int) -> bool {
    &&& found_at(pairs, "id"@, n, fields.id)
    &&& found_at(pairs, "type"@, n, fields.message_type)
    &&& found_at(pairs, "payload"@, n, fields.payload)
    &&& match (fields.problem, problem(pairs, n)) {
        (Some(message), Some(wanted)) => message@ == wanted,
        (None, None) => true,
        _ => false,
    }
    &&& fields.id_repeated == id_repeated(pairs, n)
}

proof fn lemma_names_differ()
    ensures
        "id"@ != "type"@,
        "id"@ != "payload"@,
        "type"@ != "payload"@,
{
    reveal_strlit("id");
    reveal_strlit("type");
    reveal_strlit("payload");
    assert("id"@.len() == 2 && "type"@.len() == 4 && "payload"@.len() == 7);
}

fn find_fields(pairs: &Vec<(Wire, Wire)>) -> (r: Fields)
    ensures
        fields_found(r, pairs_view(pairs@), pairs@.len() as int),
{
    let ghost views = pairs_view(pairs@);
    let mut fields = Fields { id: None, message_type: None, payload: None, problem: None, id_repeated: false };
    let mut i: usize = 0;
    while i < pairs.len()
        invariant
            i <= pairs@.len(),
            views == pairs_view(pairs@),
            fields_found(fields, views, i as int),
        decreases pairs.len() - i,
    {
        proof {
            lemma_names_differ();
            assert(views[i as int].0 == pairs@[i as int].0@);
        }
        let mut trouble: Option<String> = None;
        match pairs[i].0.as_str() {
            Some(name) => {
                let mut known = true;
                let mut again = false;
                if same(name, "id") {
                    again = fields.id.is_some();
                    if again {
                        fields.id_repeated = true;
                    } else {
                        fields.id = Some(i);
                    }
                } else if same(name, "type") {
                    again = fields.message_type.is_some();
                    if !again {
                        fields.message_type = Some(i);
                    }
                } else if same(name, "payload") {
                    again = fields.payload.is_some();
                    if !again {
                        fields.payload = Some(i);
                    }
                } else {
                    known = false;
                }
                if !known {
                    let mut message = "unknown envelope field ".to_owned();
                    message.append(quote(name).as_str());
                    trouble = Some(message);
                } else if again {
                    let mut message = "envelope field ".to_owned();
                    message.append(quote(name).as_str());
                    message.append(" appears twice");
                    trouble = Some(message);
                }
            },
            None => {
                trouble = Some("envelope keys must be strings".to_owned());
            },
        }
        if fields.problem.is_none() {
            fields.problem = trouble;
        }
        i = i + 1;
    }
    fields
}

fn id_of(fields: &Fields, pairs: &Vec<(Wire, Wire)>) -> (r: Option<CorrelationId>)
    requires
        fields_found(*fields, pairs_view(pairs@), pairs@.len() as int),
    ensures
        r == readable_id(pairs_view(pairs@)),
{
    if fields.id_repeated {
        return None;
    }
    match fields.id {
        Some(i) => match pairs[i].1.as_u64() {
            Some(n) => Some(CorrelationId(n)),
            None => {
                proof {
                    crate::wire::lemma_integer_range(pairs@[i as int].1);
                }
                None
            },
        },
        None => None,
    }
}

/// Validate a value as an envelope.
pub fn validate_envelope(value: Wire) -> (r: Result<Envelope<Wire>, ProtocolFailure>)
    ensures
        decodes(r, validated(value@)),
        r matches Ok(envelope) ==> nesting(envelope@.payload) < nesting(value@) || nesting(envelope@.payload) == 0,
{
    broadcast use lemma_wire_items;

    let pairs = match value {
        Wire::Pairs(pairs) => pairs,
        _ => {
            return Err(invalid(None, "an envelope must be a map".to_owned()));
        },
    };
    let ghost views = pairs_view(pairs@);
    let ghost n = pairs@.len() as int;
    let fields = find_fields(&pairs);
    let id = id_of(&fields, &pairs);
    let Fields { id: id_at, message_type: type_at, payload: payload_at, problem, .. } = fields;
    if let Some(message) = problem {
        return Err(invalid(id, message));
    }
    let id_is_nil = match id_at {
        None => {
            return Err(invalid(None, "envelope is missing \"id\"".to_owned()));
        },
        Some(i) => match pairs[i].1 {
            Wire::Nil => true,
            _ => {
                if id.is_none() {
                    return Err(invalid(None, "\"id\" must be an unsigned 64-bit integer".to_owned()));
                }
                false
            },
        },
    };
    let message_type = match type_at {
        None => {
            return Err(invalid(id, "envelope is missing \"type\"".to_owned()));
        },
        Some(i) => match pairs[i].1.as_str() {
            Some(name) => match MessageType::parse(name) {
                Ok(t) => {
                    proof {
                        crate::envelope::law_message_type_text(t, type_named(name@));
                    }
                    t
                },
                Err(unknown) => {
                    return Err(
                        ProtocolFailure {
                            id,
                            error: ProtocolError::new(ProtocolCode::UnknownMessageType, unknown.to_text()),
                        },
                    );
                },
            },
            None => {
                return Err(invalid(id, "\"type\" must be a string".to_owned()));
            },
        },
    };
    if id_is_nil && message_type != MessageType::Error {
        return Err(invalid(None, "\"id\" may be nil only on an Error response".to_owned()));
    }
    let payload = match payload_at {
        Some(i) => {
            proof {
                lemma_pairs_nesting(views, n, i as int);
            }
            pairs[i].1.copied()
        },
        None => Wire::Nil,
    };
    Ok(Envelope { id, message_type, payload })
}

/// Decode one frame's bytes into an envelope.
pub fn decode(bytes: &Vec<u8>) -> (r: Result<Envelope<Wire>, ProtocolFailure>)
    ensures
        decodes(r, decoded(bytes@)),
        r matches Ok(envelope) ==> nesting(envelope@.payload) < MAX_NESTING_DEPTH,
{
    match parse_value(bytes) {
        Ok(value) => validate_envelope(value),
        Err(failure) => Err(failure),
    }
}

/// The map that an envelope travels in says that envelope, when it has an id or is an error.
pub proof fn law_envelope_round_trip(envelope: EnvelopeView)
    requires
        envelope.id is Some || envelope.message_type == MessageType::Error,
    ensures
        validated(envelope.body()) == Decoded::Message(envelope),
{
    lemma_names_differ();
    let pairs = envelope.body()->Pairs_0;
    reveal_with_fuel(field, 4);
    reveal_with_fuel(problem, 4);
    reveal_with_fuel(id_repeated, 4);
    assert(pairs.len() == 3);
    assert(field(pairs, "id"@, 0) is None && field(pairs, "type"@, 1) is None && field(pairs, "payload"@, 2) is None);
    assert(field(pairs, "id"@, 3) == Some(pairs[0].1));
    assert(field(pairs, "type"@, 3) == Some(pairs[1].1));
    assert(field(pairs, "payload"@, 3) == Some(pairs[2].1));
    assert(key_problem(pairs, 0) is None && key_problem(pairs, 1) is None && key_problem(pairs, 2) is None);
    assert(problem(pairs, 3) is None);
    assert(!id_repeated(pairs, 3));
    assert(MessageType::named(envelope.message_type.spelling()));
    crate::envelope::law_message_type_text(envelope.message_type, type_named(envelope.message_type.spelling()));
}

/// Whatever a frame holds, the id that comes back with a refusal is the one that the frame lets be
/// read, or none.
pub proof fn law_failure_echoes_id(pairs: Seq<(WireView, WireView)>)
    ensures
        validated(WireView::Pairs(pairs)) matches Decoded::Failure(failure) ==> failure.id is None || failure.id
            == readable_id(pairs),
        validated(WireView::Pairs(pairs)) matches Decoded::Message(message) ==> message.id == readable_id(pairs) && (
        message.id is Some || message.message_type == MessageType::Error),
{
}

} // verus!

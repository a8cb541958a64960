//! What travels between a Backend and the Daemon, byte by byte and field by field.

use vstd::prelude::*;
use crate::message_pack::Unpacked;
use crate::port::codec::said;
use crate::port::codec::decoded;
use crate::bytes::bytes_of;
use crate::bytes::number_of;
use crate::bytes::reach;
use crate::diagnostics::Category;
use crate::diagnostics::DiagnosticView;
use crate::diagnostics::Severity;
use crate::envelope::CorrelationId;
use crate::envelope::EnvelopeView;
use crate::envelope::MessageType;
use crate::envelope::law_message_type_text;
use crate::port::codec::Decoded;
use crate::port::codec::field;
use crate::port::codec::id_repeated;
use crate::port::codec::problem;
use crate::port::codec::type_named;
use crate::port::codec::validated;
use crate::port::error::ProtocolCode;
use crate::port::error::ProtocolErrorView;
use crate::port::error::diagnostic_body;
use crate::port::error::error_message;
use crate::port::error::protocol_body;
use crate::port::frame::DecoderView;
use crate::port::frame::Yield;
use crate::port::frame::framed;
use crate::wire::WireView;

verus! {

/// The number that four bytes write, the most significant first.
pub open spec fn big_endian(bytes: Seq<u8>) -> int {
    bytes[0] * 0x100_0000 + bytes[1] * 0x1_0000 + bytes[2] * 0x100 + bytes[3]
}

proof fn lemma_big_endian(bytes: Seq<u8>)
    requires
        bytes.len() == 4,
    ensures
        number_of(bytes) == big_endian(bytes),
{
    reveal_with_fuel(number_of, 5);
    let three = bytes.drop_last();
    let two = three.drop_last();
    let one = two.drop_last();
    assert(one.drop_last() =~= Seq::empty());
    assert(number_of(one) == bytes[0]);
    assert(number_of(two) == bytes[0] * 256 + bytes[1]);
    assert(number_of(three) == (bytes[0] * 256 + bytes[1]) * 256 + bytes[2]);
}

/// A frame is the length of its body in four bytes, the most significant first, and the body.
pub proof fn law_frame_layout(body: Seq<u8>)
    requires
        body.len() <= 16_777_216,
    ensures
        framed(body).len() == 4 + body.len(),
        framed(body)[0] * 0x100_0000 + framed(body)[1] * 0x1_0000 + framed(body)[2] * 0x100 + framed(body)[3] == body.len(),
        framed(body).skip(4) == body,
{
    let prefix = bytes_of(body.len(), 4);
    reveal_with_fuel(reach, 5);
    crate::bytes::law_number_bytes(body.len(), 4, prefix);
    lemma_big_endian(prefix);
    assert(framed(body).skip(4) =~= body);
}

/// A stream yields a body once all of it is there, waits until then, and is broken by a length of more than 16
/// MiB; a body that was yielded is gone from it, and nothing else is.
pub proof fn law_stream_yields(d: DecoderView)
    requires
        d.poisoned is None,
    ensures
        d.pending.len() < 4 ==> d.next() is Wait,
        d.pending.len() >= 4 ==> match d.next() {
            Yield::Wait => big_endian(d.pending) <= 16_777_216 && d.pending.len() < 4 + big_endian(d.pending) && d.after() == d,
            Yield::Frame(body) => body.len() == big_endian(d.pending) <= 16_777_216 && d.pending == d.pending.take(4) + body
                + d.after().pending && d.after().poisoned is None,
            Yield::Oversized(len) => len == big_endian(d.pending) && len > 16_777_216 && d.after().poisoned == Some(len),
        },
{
    if d.pending.len() >= 4 {
        lemma_big_endian(d.pending.take(4));
        if let Yield::Frame(body) = d.next() {
            assert(d.pending =~= d.pending.take(4) + body + d.after().pending);
        }
    }
}

/// A message is one map with its id, its type and its payload, in that order.
pub proof fn law_message_fields(e: EnvelopeView)
    ensures
        e.body() matches WireView::Pairs(pairs) && pairs.len() == 3 && pairs[0].0 == WireView::String("id"@) && pairs[0].1 == (
        match e.id {
            Some(id) => WireView::Integer(id.0 as int),
            None => WireView::Nil,
        }) && pairs[1].0 == WireView::String("type"@) && pairs[1].1 == WireView::String(
            match e.message_type {
                MessageType::Init => "Init"@,
                MessageType::ExecutionStart => "ExecutionStart"@,
                MessageType::ConfigUpdate => "ConfigUpdate"@,
                MessageType::Result => "Result"@,
                MessageType::Call => "Call"@,
                MessageType::Authorize => "Authorize"@,
                MessageType::Error => "Error"@,
            },
        ) && pairs[2] == (WireView::String("payload"@), e.payload),
{
}

/// The pair with a key among some pairs.
pub open spec fn holds(pairs: Seq<(WireView, WireView)>, name: Seq<char>, value: WireView) -> bool {
    exists|i: int| 0 <= i < pairs.len() && #[trigger] pairs[i] == (WireView::String(name), value)
}

/// Whether pairs have only these three keys, each at most once.
pub open spec fn tidy(pairs: Seq<(WireView, WireView)>) -> bool {
    &&& forall|i: int|
        0 <= i < pairs.len() ==> (#[trigger] pairs[i]).0 == WireView::String("id"@) || pairs[i].0 == WireView::String("type"@)
            || pairs[i].0 == WireView::String("payload"@)
    &&& forall|i: int, j: int| 0 <= i < j < pairs.len() ==> (#[trigger] pairs[i]).0 != (#[trigger] pairs[j]).0
}

proof fn lemma_field(pairs: Seq<(WireView, WireView)>, name: Seq<char>, n: int)
    requires
        0 <= n <= pairs.len(),
    ensures
        match field(pairs, name, n) {
            Some(value) => exists|i: int| 0 <= i < n && #[trigger] pairs[i] == (WireView::String(name), value),
            None => forall|i: int| 0 <= i < n ==> (#[trigger] pairs[i]).0 != WireView::String(name),
        },
    decreases n,
{
    if n > 0 {
        lemma_field(pairs, name, n - 1);
        if field(pairs, name, n - 1) is Some {
            let i = choose|i: int|
                0 <= i < n - 1 && #[trigger] pairs[i] == (WireView::String(name), field(pairs, name, n - 1)->0);
            assert(pairs[i] == (WireView::String(name), field(pairs, name, n)->0));
        } else if field(pairs, name, n) is Some {
            assert(pairs[n - 1] == (WireView::String(name), field(pairs, name, n)->0));
        }
    }
}

proof fn lemma_tidy(pairs: Seq<(WireView, WireView)>, n: int)
    requires
        0 <= n <= pairs.len(),
    ensures
        problem(pairs, n) is None <==> tidy(pairs.take(n)),
    decreases n,
{
    if n > 0 {
        lemma_tidy(pairs, n - 1);
        let shorter = pairs.take(n - 1);
        let longer = pairs.take(n);
        assert forall|i: int| 0 <= i < n - 1 implies #[trigger] longer[i] == shorter[i] by {}
        if let WireView::String(name) = pairs[n - 1].0 {
            lemma_field(pairs, name, n - 1);
            if field(pairs, name, n - 1) is Some {
                let i = choose|i: int|
                    0 <= i < n - 1 && #[trigger] pairs[i] == (WireView::String(name), field(pairs, name, n - 1)->0);
                assert(longer[i].0 == longer[n - 1].0);
            }
        }
        if tidy(longer) {
            assert(tidy(shorter)) by {
                assert forall|i: int| 0 <= i < shorter.len() implies (#[trigger] shorter[i]).0 == WireView::String("id"@)
                    || shorter[i].0 == WireView::String("type"@) || shorter[i].0 == WireView::String("payload"@) by {
                    assert(longer[i] == shorter[i]);
                }
                assert forall|i: int, j: int| 0 <= i < j < shorter.len() implies (#[trigger] shorter[i]).0 != (
                #[trigger] shorter[j]).0 by {
                    assert(longer[i].0 != longer[j].0);
                }
            }
            assert(longer[n - 1] == pairs[n - 1]);
        } else if problem(pairs, n) is None {
            assert(longer[n - 1] == pairs[n - 1]);
            if let WireView::String(name) = pairs[n - 1].0 {
                assert forall|i: int| 0 <= i < longer.len() implies (#[trigger] longer[i]).0 == WireView::String("id"@)
                    || longer[i].0 == WireView::String("type"@) || longer[i].0 == WireView::String("payload"@) by {
                    if i < n - 1 {
                        assert(longer[i] == shorter[i]);
                    }
                }
                assert forall|i: int, j: int| 0 <= i < j < longer.len() implies (#[trigger] longer[i]).0 != (
                #[trigger] longer[j]).0 by {
                    assert(longer[i] == shorter[i]);
                    if j < n - 1 {
                        assert(longer[j] == shorter[j]);
                    } else {
                        assert(pairs[i].0 != WireView::String(name));
                    }
                }
            }
        }
    }
}

proof fn lemma_not_repeated(pairs: Seq<(WireView, WireView)>, n: int)
    requires
        tidy(pairs),
        0 <= n <= pairs.len(),
    ensures
        !id_repeated(pairs, n),
    decreases n,
{
    if n > 0 {
        lemma_not_repeated(pairs, n - 1);
        lemma_field(pairs, "id"@, n - 1);
        if field(pairs, "id"@, n - 1) is Some && pairs[n - 1].0 == WireView::String("id"@) {
            let i = choose|i: int|
                0 <= i < n - 1 && #[trigger] pairs[i] == (WireView::String("id"@), field(pairs, "id"@, n - 1)->0);
            assert(pairs[i].0 == pairs[n - 1].0);
        }
    }
}

/// A frame's value is accepted as a message exactly when it is a map with an `id`, a `type` and perhaps a
/// `payload`, each once and nothing else; the id is an unsigned 64-bit integer, or nil on an `Error`; and the type
/// is the spelling of one. The message then is what the map says, with nil for a payload that is not there.
pub proof fn law_accepted_messages(value: WireView, m: EnvelopeView)
    ensures
        validated(value) == Decoded::Message(m) <==> (value matches WireView::Pairs(pairs) && tidy(pairs) && (match m.id {
            Some(id) => holds(pairs, "id"@, WireView::Integer(id.0 as int)),
            None => holds(pairs, "id"@, WireView::Nil) && m.message_type == MessageType::Error,
        }) && holds(pairs, "type"@, WireView::String(m.message_type.spelling())) && (holds(pairs, "payload"@, m.payload) || (
        m.payload == WireView::Nil && forall|i: int|
            0 <= i < pairs.len() ==> (#[trigger] pairs[i]).0 != WireView::String("payload"@)))),
{
    if let WireView::Pairs(pairs) = value {
        let n = pairs.len() as int;
        lemma_tidy(pairs, n);
        assert(pairs.take(n) =~= pairs);
        lemma_field(pairs, "id"@, n);
        lemma_field(pairs, "type"@, n);
        lemma_field(pairs, "payload"@, n);
        if tidy(pairs) {
            lemma_not_repeated(pairs, n);
            lemma_one(pairs, "id"@);
            lemma_one(pairs, "type"@);
            lemma_one(pairs, "payload"@);
            law_message_type_text(m.message_type, m.message_type);
            if let Some(WireView::String(name)) = field(pairs, "type"@, n) {
                if MessageType::named(name) {
                    let t = type_named(name);
                    assert(t.spelling() == name);
                    law_message_type_text(t, m.message_type);
                }
                if name == m.message_type.spelling() {
                    assert(MessageType::named(name));
                }
            }
        }
    }
}

/// What a tidy map holds under a key is one value.
proof fn lemma_one(pairs: Seq<(WireView, WireView)>, name: Seq<char>)
    requires
        tidy(pairs),
    ensures
        forall|value: WireView|
            #[trigger] holds(pairs, name, value) <==> field(pairs, name, pairs.len() as int) == Some(value),
{
    lemma_field(pairs, name, pairs.len() as int);
    assert forall|value: WireView|
        #[trigger] holds(pairs, name, value) <==> field(pairs, name, pairs.len() as int) == Some(value) by {
        if holds(pairs, name, value) {
            let i = choose|i: int| 0 <= i < pairs.len() && #[trigger] pairs[i] == (WireView::String(name), value);
            assert(pairs[i].0 == WireView::String(name));
            let found = field(pairs, name, pairs.len() as int)->0;
            let j = choose|j: int| 0 <= j < pairs.len() && #[trigger] pairs[j] == (WireView::String(name), found);
            if i < j {
                assert(pairs[i].0 != pairs[j].0);
            } else if j < i {
                assert(pairs[j].0 != pairs[i].0);
            }
        }
    }
}

/// An error on the wire says how severe it is, of which kind, its code, its message, and where in the Script it
/// is.
pub proof fn law_diagnostic_on_the_wire(id: Option<CorrelationId>, d: DiagnosticView)
    ensures
        error_message(id, diagnostic_body(d)).id == id,
        error_message(id, diagnostic_body(d)).message_type == MessageType::Error,
        error_message(id, diagnostic_body(d)).payload matches WireView::Pairs(fields) && fields.len() == 5 && fields[0] == (
            WireView::String("severity"@),
            WireView::String(if d.severity == Severity::Error { "error"@ } else { "warning"@ }),
        ) && fields[1] == (WireView::String("category"@), WireView::String(d.category.spelling())) && fields[2] == (
            WireView::String("code"@),
            WireView::String(d.code),
        ) && fields[3] == (WireView::String("message"@), WireView::String(d.message)) && fields[4].0 == WireView::String(
            "span"@,
        ) && (fields[4].1 matches WireView::Pairs(place) && place.len() == 4 && place[0] == (
            WireView::String("offset"@),
            WireView::Integer(d.span.offset as int),
        ) && place[1] == (WireView::String("len"@), WireView::Integer(d.span.len as int)) && place[2] == (
            WireView::String("line"@),
            WireView::Integer(d.span.line as int),
        ) && place[3] == (WireView::String("column"@), WireView::Integer(d.span.column as int))),
{
}

/// An error of the protocol says its code and its message, and no place.
pub proof fn law_protocol_error_on_the_wire(id: Option<CorrelationId>, e: ProtocolErrorView)
    ensures
        error_message(id, protocol_body(e)).id == id,
        error_message(id, protocol_body(e)).message_type == MessageType::Error,
        error_message(id, protocol_body(e)).payload matches WireView::Pairs(fields) && fields.len() == 5 && fields[0] == (
            WireView::String("severity"@),
            WireView::String("error"@),
        ) && fields[1] == (WireView::String("category"@), WireView::String("protocol"@)) && fields[2] == (
            WireView::String("code"@),
            WireView::String(e.code.spelling()),
        ) && fields[3] == (WireView::String("message"@), WireView::String(e.message)) && fields[4] == (
            WireView::String("span"@),
            WireView::Nil,
        ),
{
}

/// The codes of the protocol and the categories of the language, as they are spelled.
pub proof fn law_spelled(code: ProtocolCode, category: Category)
    ensures
        code.spelling() == (match code {
            ProtocolCode::MalformedFrame => "protocol.malformed_frame"@,
            ProtocolCode::TruncatedFrame => "protocol.truncated_frame"@,
            ProtocolCode::InvalidEnvelope => "protocol.invalid_envelope"@,
            ProtocolCode::UnknownMessageType => "protocol.unknown_message_type"@,
            ProtocolCode::FrameTooLarge => "protocol.frame_too_large"@,
            ProtocolCode::InitNotCompleted => "protocol.init_not_completed"@,
            ProtocolCode::UnexpectedMessage => "protocol.unexpected_message"@,
            ProtocolCode::NotImplemented => "protocol.not_implemented"@,
            ProtocolCode::InvalidPayload => "protocol.invalid_payload"@,
            ProtocolCode::AlreadyInitialized => "protocol.already_initialized"@,
            ProtocolCode::ResponseTooLarge => "protocol.response_too_large"@,
            ProtocolCode::ResultTooDeep => "protocol.result_too_deep"@,
        }),
        category.spelling() == (match category {
            Category::Lexical => "lexical"@,
            Category::Syntax => "syntax"@,
            Category::Type => "type"@,
            Category::Reference => "reference"@,
            Category::Arity => "arity"@,
            Category::Arithmetic => "arithmetic"@,
            Category::Depth => "depth"@,
            Category::Capability => "capability"@,
            Category::Host => "host"@,
            Category::Budget => "budget"@,
            Category::Policy => "policy"@,
        }),
{
}

/// What a frame that is not one whole value within the depth that is allowed is refused as.
pub proof fn law_unreadable_frames(bytes: Seq<u8>, read: Unpacked)
    ensures
        bytes.len() == 0 ==> (decoded(bytes) matches Decoded::Failure(f) && f.id is None && f.error.code
            == ProtocolCode::MalformedFrame),
        read is Truncated ==> (said(read) matches Decoded::Failure(f) && f.id is None && f.error.code
            == ProtocolCode::TruncatedFrame),
        read is TooDeep || read is Other ==> (said(read) matches Decoded::Failure(f) && f.id is None && f.error.code
            == ProtocolCode::MalformedFrame),
        read matches Unpacked::Value { value, left } ==> if left == 0 {
            said(read) == validated(value)
        } else {
            said(read) matches Decoded::Failure(f) && f.id is None && f.error.code == ProtocolCode::MalformedFrame
        },
{
}

/// A value that is no message is refused under the id that it lets be read, as one with a type that there is not when
/// only its type is wrong, and else as no envelope.
pub proof fn law_refused_messages(value: WireView)
    ensures
        validated(value) matches Decoded::Failure(f) ==> (f.error.code == ProtocolCode::InvalidEnvelope || f.error.code
            == ProtocolCode::UnknownMessageType) && (f.id matches Some(id) ==> (value matches WireView::Pairs(pairs) && holds(
            pairs,
            "id"@,
            WireView::Integer(id.0 as int),
        ))) && (f.error.code == ProtocolCode::UnknownMessageType ==> (value matches WireView::Pairs(pairs) && tidy(pairs)
            && exists|name: Seq<char>|
            #[trigger] holds(pairs, "type"@, WireView::String(name)) && !MessageType::named(name))),
{
    if let WireView::Pairs(pairs) = value {
        let n = pairs.len() as int;
        lemma_tidy(pairs, n);
        assert(pairs.take(n) =~= pairs);
        lemma_field(pairs, "id"@, n);
        lemma_field(pairs, "type"@, n);
        if let Some(found) = field(pairs, "id"@, n) {
            assert(holds(pairs, "id"@, found));
        }
        if let Some(WireView::String(name)) = field(pairs, "type"@, n) {
            assert(holds(pairs, "type"@, WireView::String(name)));
        }
    }
}

} // verus!

//! The one error shape on the wire, and the failures of the protocol itself.

use vstd::prelude::*;
use crate::diagnostics::Diagnostic;
use crate::diagnostics::DiagnosticView;
use crate::diagnostics::Severity;
use crate::diagnostics::Span;
use crate::envelope::CorrelationId;
use crate::envelope::Envelope;
use crate::envelope::EnvelopeView;
use crate::envelope::MessageType;
use crate::wire::Wire;
use crate::wire::WireView;
use crate::wire::lemma_wire_items;
use crate::wire::pairs_view;

verus! {

/// Which way a frame was broken, or why a message was refused.
#[derive(Debug, Clone, Copy, PartialEq, Eq, Hash, Structural)]
#[non_exhaustive]
pub enum ProtocolCode {
    /// Not one MessagePack value, or one that nests too deep.
    MalformedFrame,
    /// The value ends before its own headers say it does.
    TruncatedFrame,
    /// A value that is not a valid envelope.
    InvalidEnvelope,
    /// An envelope whose `type` names no message type.
    UnknownMessageType,
    /// A length prefix above the largest frame.
    FrameTooLarge,
    /// A request that needs a Session arrived before the connection completed init.
    InitNotCompleted,
    /// A message that the Daemon never accepts from a Backend on its own initiative.
    UnexpectedMessage,
    /// A message type that the Daemon knows but does not serve.
    NotImplemented,
    /// A payload that is not valid for its message type.
    InvalidPayload,
    /// An init on a connection that is already attached to a Session.
    AlreadyInitialized,
    /// A response that does not fit one frame.
    ResponseTooLarge,
    /// A Script result that nests too deep to be read back.
    ResultTooDeep,
}

impl ProtocolCode {
    /// The category that every protocol code belongs to.
    pub const CATEGORY: &'static str = "protocol";

    /// The code's stable form.
    pub open spec fn spelling(self) -> Seq<char> {
        match self {
            ProtocolCode::MalformedFrame => "protocol.malformed_frame"@,
            ProtocolCode::TruncatedFrame => "protocol.truncated_frame"@,
            ProtocolCode::InvalidEnvelope => "protocol.invalid_envelope"@,
            ProtocolCode::UnknownMessageType => "protocol.unknown_message_type"@,
            ProtocolCode::FrameTooLarge => "protocol.frame_too_large"@,
            ProtocolCode::InitNotCompleted => "protocol.init_not_completed"@,
            ProtocolCode::UnexpectedMessage => "protocol.unexpected_message"@,
            ProtocolCode::NotImplemented => "protocol.not_implemented"@,
            ProtocolCode::InvalidPayload => "protocol.invalid_payload"@,
            ProtocolCode::AlreadyInitialized => "protocol.already_initialized"@,
            ProtocolCode::ResponseTooLarge => "protocol.response_too_large"@,
            ProtocolCode::ResultTooDeep => "protocol.result_too_deep"@,
        }
    }

    /// The code's stable form.
    pub fn as_str(self) -> (r: &'static str)
        ensures
            r@ == self.spelling(),
    {
        match self {
            ProtocolCode::MalformedFrame => "protocol.malformed_frame",
            ProtocolCode::TruncatedFrame => "protocol.truncated_frame",
            ProtocolCode::InvalidEnvelope => "protocol.invalid_envelope",
            ProtocolCode::UnknownMessageType => "protocol.unknown_message_type",
            ProtocolCode::FrameTooLarge => "protocol.frame_too_large",
            ProtocolCode::InitNotCompleted => "protocol.init_not_completed",
            ProtocolCode::UnexpectedMessage => "protocol.unexpected_message",
            ProtocolCode::NotImplemented => "protocol.not_implemented",
            ProtocolCode::InvalidPayload => "protocol.invalid_payload",
            ProtocolCode::AlreadyInitialized => "protocol.already_initialized",
            ProtocolCode::ResponseTooLarge => "protocol.response_too_large",
            ProtocolCode::ResultTooDeep => "protocol.result_too_deep",
        }
    }
}

/// A failure of the protocol: its code, and a message for a human.
#[derive(Debug, Clone)]
pub struct ProtocolError {
    pub code: ProtocolCode,
    pub message: String,
}

/// What a [`ProtocolError`] says.
#[verifier::ext_equal]
pub ghost struct ProtocolErrorView {
    pub code: ProtocolCode,
    pub message: Seq<char>,
}

impl View for ProtocolError {
    type V = ProtocolErrorView;

    open spec fn view(&self) -> ProtocolErrorView {
        ProtocolErrorView { code: self.code, message: self.message@ }
    }
}

impl ProtocolError {
    pub fn new(code: ProtocolCode, message: String) -> (r: Self)
        ensures
            r@ == (ProtocolErrorView { code, message: message@ }),
    {
        ProtocolError { code, message }
    }

    /// Whether the stream is unusable after this error: only an oversized frame leaves no way to
    /// find the next one.
    pub fn is_fatal(&self) -> (r: bool)
        ensures
            r == (self@.code == ProtocolCode::FrameTooLarge),
    {
        match self.code {
            ProtocolCode::FrameTooLarge => true,
            _ => false,
        }
    }

    /// The code and the message.
    pub fn to_text(&self) -> (r: String)
        ensures
            r@ == self@.code.spelling() + ": "@ + self@.message,
    {
        let mut text = self.code.as_str().to_owned();
        text.append(": ");
        text.append(self.message.as_str());
        text
    }
}

/// A [`Span`] on the wire.
#[derive(Debug, Clone, Copy, PartialEq, Eq, Hash, Structural)]
pub struct WireSpan {
    /// 0-based byte offset.
    pub offset: u64,
    /// Length in bytes.
    pub len: u64,
    /// 1-based line.
    pub line: u64,
    /// 1-based column, in Unicode scalar values.
    pub column: u64,
}

impl WireSpan {
    /// A span on the wire.
    pub fn of(span: Span) -> (r: Self)
        ensures
            r.offset == span.offset,
            r.len == span.len,
            r.line == span.line,
            r.column == span.column,
    {
        WireSpan {
            offset: span.offset as u64,
            len: span.len as u64,
            line: span.line as u64,
            column: span.column as u64,
        }
    }
}

/// The single error payload on the wire.
#[derive(Debug, Clone)]
pub struct ErrorBody {
    /// `error` or `warning`.
    pub severity: String,
    /// A language category, or `protocol`.
    pub category: String,
    /// The stable code.
    pub code: String,
    /// A message for a human.
    pub message: String,
    /// Where in the Script the failure is; absent for a protocol failure.
    pub span: Option<WireSpan>,
}

/// What an [`ErrorBody`] says.
#[verifier::ext_equal]
pub ghost struct ErrorBodyView {
    pub severity: Seq<char>,
    pub category: Seq<char>,
    pub code: Seq<char>,
    pub message: Seq<char>,
    pub span: Option<WireSpan>,
}

impl View for ErrorBody {
    type V = ErrorBodyView;

    open spec fn view(&self) -> ErrorBodyView {
        ErrorBodyView {
            severity: self.severity@,
            category: self.category@,
            code: self.code@,
            message: self.message@,
            span: self.span,
        }
    }
}

/// The body that reports a diagnostic.
pub open spec fn diagnostic_body(diagnostic: DiagnosticView) -> ErrorBodyView {
    ErrorBodyView {
        severity: diagnostic.severity.spelling(),
        category: diagnostic.category.spelling(),
        code: diagnostic.code,
        message: diagnostic.message,
        span: Some(
            WireSpan {
                offset: diagnostic.span.offset as u64,
                len: diagnostic.span.len as u64,
                line: diagnostic.span.line as u64,
                column: diagnostic.span.column as u64,
            },
        ),
    }
}

/// The body that reports a protocol error.
pub open spec fn protocol_body(error: ProtocolErrorView) -> ErrorBodyView {
    ErrorBodyView {
        severity: "error"@,
        category: "protocol"@,
        code: error.code.spelling(),
        message: error.message,
        span: None,
    }
}

/// A place in the Script as a value.
pub open spec fn span_value(span: Option<WireSpan>) -> WireView {
    match span {
        None => WireView::Nil,
        Some(span) => WireView::Pairs(
            seq![
                (WireView::String("offset"@), WireView::Integer(span.offset as int)),
                (WireView::String("len"@), WireView::Integer(span.len as int)),
                (WireView::String("line"@), WireView::Integer(span.line as int)),
                (WireView::String("column"@), WireView::Integer(span.column as int)),
            ],
        ),
    }
}

/// An error body as a value. The span is always there, nil when it is absent.
pub open spec fn body_value(body: ErrorBodyView) -> WireView {
    WireView::Pairs(
        seq![
            (WireView::String("severity"@), WireView::String(body.severity)),
            (WireView::String("category"@), WireView::String(body.category)),
            (WireView::String("code"@), WireView::String(body.code)),
            (WireView::String("message"@), WireView::String(body.message)),
            (WireView::String("span"@), span_value(body.span)),
        ],
    )
}

fn span_wire(span: WireSpan) -> (r: Wire)
    ensures
        r@ == span_value(Some(span)),
{
    broadcast use lemma_wire_items;

    let mut pairs: Vec<(Wire, Wire)> = Vec::new();
    pairs.push((Wire::text("offset"), Wire::Unsigned(span.offset)));
    pairs.push((Wire::text("len"), Wire::Unsigned(span.len)));
    pairs.push((Wire::text("line"), Wire::Unsigned(span.line)));
    pairs.push((Wire::text("column"), Wire::Unsigned(span.column)));
    proof {
        assert(pairs_view(pairs@) =~= span_value(Some(span))->Pairs_0);
    }
    let r = Wire::Pairs(pairs);
    assert(r@ == span_value(Some(span)));
    r
}

impl ErrorBody {
    /// The body of a diagnostic.
    pub fn of_diagnostic(diagnostic: &Diagnostic) -> (r: Self)
        ensures
            r@ == diagnostic_body(diagnostic@),
    {
        ErrorBody {
            severity: diagnostic.severity.as_str().to_owned(),
            category: diagnostic.category.as_str().to_owned(),
            code: diagnostic.code.as_str().to_owned(),
            message: diagnostic.message.as_str().to_owned(),
            span: Some(WireSpan::of(diagnostic.span)),
        }
    }

    /// The body of a protocol error.
    pub fn of_protocol(error: &ProtocolError) -> (r: Self)
        ensures
            r@ == protocol_body(error@),
    {
        ErrorBody {
            severity: Severity::Error.as_str().to_owned(),
            category: ProtocolCode::CATEGORY.to_owned(),
            code: error.code.as_str().to_owned(),
            message: error.message.as_str().to_owned(),
            span: None,
        }
    }

    /// The body as a payload.
    pub fn to_value(&self) -> (r: Wire)
        ensures
            r@ == body_value(self@),
    {
        broadcast use lemma_wire_items;

        let span = match self.span {
            Some(span) => span_wire(span),
            None => Wire::Nil,
        };
        let mut pairs: Vec<(Wire, Wire)> = Vec::new();
        pairs.push((Wire::text("severity"), Wire::text(self.severity.as_str())));
        pairs.push((Wire::text("category"), Wire::text(self.category.as_str())));
        pairs.push((Wire::text("code"), Wire::text(self.code.as_str())));
        pairs.push((Wire::text("message"), Wire::text(self.message.as_str())));
        pairs.push((Wire::text("span"), span));
        proof {
            assert(pairs_view(pairs@) =~= body_value(self@)->Pairs_0);
        }
        let r = Wire::Pairs(pairs);
        assert(r@ == body_value(self@));
        r
    }
}

/// The error response that carries a body.
pub open spec fn error_message(id: Option<CorrelationId>, body: ErrorBodyView) -> EnvelopeView {
    EnvelopeView { id, message_type: MessageType::Error, payload: body_value(body) }
}

/// An error response, addressed to `id`.
pub fn error_response(id: Option<CorrelationId>, body: &ErrorBody) -> (r: Envelope<Wire>)
    ensures
        r@ == error_message(id, body@),
{
    Envelope { id, message_type: MessageType::Error, payload: body.to_value() }
}

} // verus!

//! The one envelope that every message travels in.

use vstd::prelude::*;
use crate::text::decimal;
use crate::text::decimal_text;
use crate::text::quote;
use crate::text::quoted;
use crate::text::same;
use crate::wire::Wire;
use crate::wire::WireView;

verus! {

/// A request's correlation id, chosen by its sender and echoed verbatim on its response.
#[derive(Debug, Clone, Copy, PartialEq, Eq, Hash, PartialOrd, Ord, Structural)]
pub struct CorrelationId(pub u64);

impl CorrelationId {
    /// The id's integer value.
    pub fn get(self) -> (r: u64)
        ensures
            r == self.0,
    {
        self.0
    }

    /// The id in decimal.
    pub fn to_text(self) -> (r: String)
        ensures
            r@ == decimal(self.0 as nat),
    {
        decimal_text(self.0)
    }
}

/// What an envelope is: which request, or which kind of response.
#[derive(Debug, Clone, Copy, PartialEq, Eq, Hash, Structural)]
#[non_exhaustive]
pub enum MessageType {
    /// Request: the init handshake.
    Init,
    /// Request: run a Script.
    ExecutionStart,
    /// Request: replace the Session's Config.
    ConfigUpdate,
    /// Response: a request succeeded.
    Result,
    /// Request to the Backend: a Script called a Registered Function.
    Call,
    /// Request to the Backend: may a Script make this call?
    Authorize,
    /// Response: a request failed.
    Error,
}

/// Every message type, in declaration order.
pub open spec fn message_types() -> Seq<MessageType> {
    seq![
        MessageType::Init,
        MessageType::ExecutionStart,
        MessageType::ConfigUpdate,
        MessageType::Result,
        MessageType::Call,
        MessageType::Authorize,
        MessageType::Error,
    ]
}

/// A `type` that names no [`MessageType`].
#[derive(Debug, Clone)]
pub struct UnknownMessageType(pub String);

impl UnknownMessageType {
    /// The error as text. The name is quoted and escaped.
    pub fn to_text(&self) -> (r: String)
        ensures
            r@ == "unknown message type "@ + quoted(self.0@),
    {
        let mut text = "unknown message type ".to_owned();
        text.append(quote(self.0.as_str()).as_str());
        text
    }
}

impl MessageType {
    /// Every message type, in declaration order.
    pub fn all() -> (r: Vec<MessageType>)
        ensures
            r@ == message_types(),
    {
        let r = vec![
            MessageType::Init,
            MessageType::ExecutionStart,
            MessageType::ConfigUpdate,
            MessageType::Result,
            MessageType::Call,
            MessageType::Authorize,
            MessageType::Error,
        ];
        r
    }

    /// The type's wire spelling.
    pub open spec fn spelling(self) -> Seq<char> {
        match self {
            MessageType::Init => "Init"@,
            MessageType::ExecutionStart => "ExecutionStart"@,
            MessageType::ConfigUpdate => "ConfigUpdate"@,
            MessageType::Result => "Result"@,
            MessageType::Call => "Call"@,
            MessageType::Authorize => "Authorize"@,
            MessageType::Error => "Error"@,
        }
    }

    /// The type's wire spelling.
    pub fn as_str(self) -> (r: &'static str)
        ensures
            r@ == self.spelling(),
    {
        match self {
            MessageType::Init => "Init",
            MessageType::ExecutionStart => "ExecutionStart",
            MessageType::ConfigUpdate => "ConfigUpdate",
            MessageType::Result => "Result",
            MessageType::Call => "Call",
            MessageType::Authorize => "Authorize",
            MessageType::Error => "Error",
        }
    }

    /// Whether a text names a message type.
    pub open spec fn named(text: Seq<char>) -> bool {
        exists|t: MessageType| #[trigger] t.spelling() == text
    }

    /// Read a message type: an exact match on the wire spelling.
    pub fn parse(text: &str) -> (r: Result<MessageType, UnknownMessageType>)
        ensures
            match r {
                Ok(t) => t.spelling() == text@,
                Err(unknown) => !MessageType::named(text@) && unknown.0@ == text@,
            },
    {
        let all = MessageType::all();
        let mut i: usize = 0;
        while i < all.len()
            invariant
                i <= all@.len(),
                all@ == message_types(),
                forall|j: int| 0 <= j < i ==> (#[trigger] all@[j]).spelling() != text@,
            decreases all.len() - i,
        {
            if same(all[i].as_str(), text) {
                return Ok(all[i]);
            }
            i = i + 1;
        }
        proof {
            assert forall|t: MessageType| #[trigger] t.spelling() != text@ by {
                lemma_listed(t);
                let k = choose|k: int| 0 <= k < 7 && message_types()[k] == t;
                assert(all@[k].spelling() != text@);
            }
        }
        Err(UnknownMessageType(text.to_owned()))
    }
}

proof fn lemma_listed(t: MessageType)
    ensures
        exists|k: int| 0 <= k < 7 && message_types()[k] == t,
{
    let types = message_types();
    match t {
        MessageType::Init => assert(types[0] == t),
        MessageType::ExecutionStart => assert(types[1] == t),
        MessageType::ConfigUpdate => assert(types[2] == t),
        MessageType::Result => assert(types[3] == t),
        MessageType::Call => assert(types[4] == t),
        MessageType::Authorize => assert(types[5] == t),
        MessageType::Error => assert(types[6] == t),
    }
}

/// No two message types are spelled alike, so a spelling reads back as its type.
pub proof fn law_message_type_text(a: MessageType, b: MessageType)
    ensures
        a.spelling() == b.spelling() ==> a == b,
        MessageType::named(a.spelling()),
{
    reveal_strlit("Init");
    reveal_strlit("ExecutionStart");
    reveal_strlit("ConfigUpdate");
    reveal_strlit("Result");
    reveal_strlit("Call");
    reveal_strlit("Authorize");
    reveal_strlit("Error");
    let (s, t) = (a.spelling(), b.spelling());
    assert(s.len() == t.len() && s[0] == t[0] ==> a == b);
}

/// One message on the wire.
#[derive(Debug)]
pub struct Envelope<P> {
    /// The request's correlation id; `None` only on an error whose request's id was unreadable.
    pub id: Option<CorrelationId>,
    /// What this message is.
    pub message_type: MessageType,
    /// The message body.
    pub payload: P,
}

impl<P> Envelope<P> {
    /// An envelope addressed by `id`.
    pub fn new(id: CorrelationId, message_type: MessageType, payload: P) -> (r: Self)
        ensures
            r == (Envelope { id: Some(id), message_type, payload }),
    {
        Envelope { id: Some(id), message_type, payload }
    }
}

/// What a message says.
#[verifier::ext_equal]
pub ghost struct EnvelopeView {
    pub id: Option<CorrelationId>,
    pub message_type: MessageType,
    pub payload: WireView,
}

impl View for Envelope<Wire> {
    type V = EnvelopeView;

    open spec fn view(&self) -> EnvelopeView {
        EnvelopeView { id: self.id, message_type: self.message_type, payload: self.payload@ }
    }
}

impl EnvelopeView {
    /// The message as the one map that travels.
    pub open spec fn body(self) -> WireView {
        WireView::Pairs(
            seq![
                (
                    WireView::String("id"@),
                    match self.id {
                        Some(id) => WireView::Integer(id.0 as int),
                        None => WireView::Nil,
                    },
                ),
                (WireView::String("type"@), WireView::String(self.message_type.spelling())),
                (WireView::String("payload"@), self.payload),
            ],
        )
    }
}

} // verus!

//! One connection to a Backend: what each thing that happens on it makes it do.
//!
//! A connection starts unattached. Every well-formed request gets one reply, addressed to its id:
//! an `Init` creates a Session with the connection attached, an `ExecutionStart` runs a Script once
//! there is a Session, and anything else is refused. A Backend's `Result` or `Error` goes to the
//! execution whose call it answers. When the peer stops sending, nothing more is read, every pending
//! call gets no reply, and the executions in flight are waited for.
//!
//! Reading, writing and running are done outside, one event in and one action out at a time.

use vstd::prelude::*;
use crate::envelope::CorrelationId;
use crate::envelope::Envelope;
use crate::envelope::EnvelopeView;
use crate::envelope::MessageType;
use crate::ids::ClientId;
use crate::ids::hex_text;
use crate::port::codec::ProtocolFailure;
use crate::port::error::ErrorBody;
use crate::port::error::ProtocolCode;
use crate::port::error::ProtocolError;
use crate::port::error::error_message;
use crate::port::error::error_response;
use crate::port::error::protocol_body;
use crate::rpc::Call;
use crate::rpc::CallFailure;
use crate::rpc::CallFailureView;
use crate::rpc::Calls;
use crate::rpc::CallsView;
use crate::rpc::answered;
use crate::rpc::answers;
use crate::rpc::call_message;
use crate::rpc::following;
use crate::script::Replied;
use crate::script::refused;
use crate::session::init::InitRequest;
use crate::session::init::decoded_init;
use crate::session::registry::ConnectionId;
use crate::session::registry::CreateFailure;
use crate::session::registry::SessionView;
use crate::session::registry::Sessions;
use crate::session::registry::SessionsView;
use crate::session::registry::detached;
use crate::session::registry::grants_view;
use crate::session::registry::key_of;
use crate::wire::Wire;
use crate::wire::WireView;
use crate::wire::lemma_wire_items;
use crate::wire::nesting;
use crate::wire::pairs_view;

pub mod answering;
pub mod run;

verus! {

/// A refusal of a request.
pub open spec fn refusal(id: Option<CorrelationId>, code: ProtocolCode, message: Seq<char>) -> EnvelopeView {
    error_message(id, refused(code, message))
}

fn refuse(id: Option<CorrelationId>, code: ProtocolCode, message: String) -> (r: Envelope<Wire>)
    ensures
        r@ == refusal(id, code, message@),
{
    error_response(id, &ErrorBody::of_protocol(&ProtocolError::new(code, message)))
}

/// The reply to a message that needs no Session, or that is refused for want of one or for what its
/// payload says. `None` for an `Init` that creates a Session and for an `ExecutionStart` that runs.
///
/// The id of a stray `Result` or `Error` names a call of the Daemon's, not a request of the
/// Backend's: it is not echoed.
pub open spec fn immediate(request: EnvelopeView, attached: bool) -> Option<EnvelopeView> {
    match request.message_type {
        MessageType::Init => if attached {
            Some(
                refusal(
                    request.id,
                    ProtocolCode::AlreadyInitialized,
                    "this connection already completed init; its Session is unchanged"@,
                ),
            )
        } else {
            match decoded_init(request.payload) {
                Ok(_) => None,
                Err(message) => Some(refusal(request.id, ProtocolCode::InvalidPayload, message)),
            }
        },
        MessageType::ExecutionStart => if attached {
            None
        } else {
            Some(
                refusal(
                    request.id,
                    ProtocolCode::InitNotCompleted,
                    "`"@ + request.message_type.spelling() + "` needs a completed init; send `Init` first"@,
                ),
            )
        },
        other => Some(
            refusal(
                if other == MessageType::Result || other == MessageType::Error {
                    None
                } else {
                    request.id
                },
                ProtocolCode::UnexpectedMessage,
                "a Backend does not send `"@ + other.spelling() + "` unless the Daemon asked for it"@,
            ),
        ),
    }
}

/// The reply to an `Init` that created a Session.
pub open spec fn welcome(id: Option<CorrelationId>, client: Seq<u8>) -> EnvelopeView {
    EnvelopeView {
        id,
        message_type: MessageType::Result,
        payload: WireView::Pairs(seq![(WireView::String("client_id"@), WireView::String(hex_text(client)))]),
    }
}

/// The registry with a Session more.
pub open spec fn created(
    sessions: SessionsView,
    client: Seq<u8>,
    registrations: Seq<(Seq<char>, bool)>,
    connection: u64,
) -> SessionsView {
    SessionsView {
        live: sessions.live.insert(
            key_of(client),
            SessionView { registrations, connections: Set::empty().insert(connection) },
        ),
        ..sessions
    }
}

/// How one well-formed message is answered.
pub enum Answer {
    /// At once, with this reply.
    Reply(Envelope<Wire>),
    /// At once, with this reply: a Session with this Client ID has the connection attached.
    Initialized(ClientId, Envelope<Wire>),
    /// By a Direct Execution of this payload, replying to this id.
    Execute(Option<CorrelationId>, Wire),
}

/// Whether an answer to a message is the one that it is owed.
pub open spec fn answer_owed(
    r: Result<Answer, CreateFailure>,
    request: Envelope<Wire>,
    attached: bool,
    connection: u64,
    before: SessionsView,
    after: SessionsView,
) -> bool {
    match immediate(request@, attached) {
        Some(reply) => after == before && (r matches Ok(Answer::Reply(message)) && message@ == reply),
        None => if request.message_type == MessageType::ExecutionStart {
            after == before && r == Ok::<Answer, CreateFailure>(Answer::Execute(request.id, request.payload))
        } else {
            match r {
                Ok(Answer::Initialized(client, reply)) => {
                    &&& !before.live.dom().contains(key_of(client@))
                    &&& after == created(before, client@, decoded_init(request.payload@)->Ok_0, connection)
                    &&& reply@ == welcome(request.id, client@)
                },
                Ok(_) => false,
                Err(_) => after == before,
            }
        },
    }
}

fn unexpected(request: &Envelope<Wire>) -> (r: Envelope<Wire>)
    requires
        request.message_type != MessageType::Init,
        request.message_type != MessageType::ExecutionStart,
    ensures
        immediate(request@, true) == Some(r@),
        immediate(request@, false) == Some(r@),
{
    let id = match request.message_type {
        MessageType::Result => None,
        MessageType::Error => None,
        _ => request.id,
    };
    let mut message = "a Backend does not send `".to_owned();
    message.append(request.message_type.as_str());
    message.append("` unless the Daemon asked for it");
    refuse(id, ProtocolCode::UnexpectedMessage, message)
}

/// Serve an `Init`: decode the payload, create the Session with the connection attached, and answer
/// its Client ID.
pub fn init(
    request: &Envelope<Wire>,
    attached: bool,
    connection: ConnectionId,
    sessions: &mut Sessions,
) -> (r: Result<Answer, CreateFailure>)
    requires
        request.message_type == MessageType::Init,
        nesting(request.payload@) <= 1024,
    ensures
        answer_owed(r, *request, attached, connection.0, old(sessions)@, final(sessions)@),
{
    broadcast use lemma_wire_items;

    if attached {
        return Ok(
            Answer::Reply(
                refuse(
                    request.id,
                    ProtocolCode::AlreadyInitialized,
                    "this connection already completed init; its Session is unchanged".to_owned(),
                ),
            ),
        );
    }
    let init = match InitRequest::from_value(&request.payload) {
        Ok(init) => init,
        Err(error) => {
            return Ok(Answer::Reply(refuse(request.id, ProtocolCode::InvalidPayload, error.message().to_owned())));
        },
    };
    let client = match sessions.create(init, connection) {
        Ok(client) => client,
        Err(failure) => {
            return Err(failure);
        },
    };
    let mut fields: Vec<(Wire, Wire)> = Vec::new();
    fields.push((Wire::text("client_id"), Wire::String(client.to_text())));
    proof {
        assert(pairs_view(fields@) =~= welcome(request.id, client@).payload->Pairs_0);
    }
    let payload = Wire::Pairs(fields);
    assert(payload@ == welcome(request.id, client@).payload);
    Ok(Answer::Initialized(client, Envelope { id: request.id, message_type: MessageType::Result, payload }))
}

/// Answer one well-formed message.
pub fn answer(
    request: Envelope<Wire>,
    attached: bool,
    connection: ConnectionId,
    sessions: &mut Sessions,
) -> (r: Result<Answer, CreateFailure>)
    requires
        request.message_type == MessageType::Init ==> nesting(request.payload@) <= 1024,
    ensures
        answer_owed(r, request, attached, connection.0, old(sessions)@, final(sessions)@),
{
    match request.message_type {
        MessageType::Init => init(&request, attached, connection, sessions),
        MessageType::ExecutionStart => {
            if !attached {
                let mut message = "`".to_owned();
                message.append(request.message_type.as_str());
                message.append("` needs a completed init; send `Init` first");
                return Ok(Answer::Reply(refuse(request.id, ProtocolCode::InitNotCompleted, message)));
            }
            Ok(Answer::Execute(request.id, request.payload))
        },
        _ => Ok(Answer::Reply(unexpected(&request))),
    }
}

/// The reply to a request whose Direct Execution came to its end.
pub open spec fn executed_reply(id: Option<CorrelationId>, outcome: Replied) -> EnvelopeView {
    match outcome {
        Replied::Payload(payload) => EnvelopeView { id, message_type: MessageType::Result, payload },
        Replied::Failure(body) => error_message(id, body),
    }
}

/// The reply to a request whose Direct Execution came to its end.
pub fn executed(id: Option<CorrelationId>, outcome: Result<Wire, ErrorBody>) -> (r: Envelope<Wire>)
    ensures
        r@ == executed_reply(id, crate::script::reply_view(outcome)),
{
    match outcome {
        Ok(payload) => Envelope { id, message_type: MessageType::Result, payload },
        Err(body) => error_response(id, &body),
    }
}

/// What happened.
pub enum Event {
    /// The peer sent a well-formed message.
    Message(Envelope<Wire>),
    /// The peer sent a frame that was rejected.
    Malformed(ProtocolFailure),
    /// The peer stopped sending.
    Closed,
    /// Reading failed.
    Lost,
    /// An execution came to its reply.
    Finished(Envelope<Wire>),
    /// An execution ended without a reply.
    Abandoned,
    /// An execution made a call; whether it still waits for the answer.
    Call(Call, bool),
}

/// What to do.
pub enum Action {
    /// Write this reply.
    Reply(Envelope<Wire>),
    /// Write this call.
    Call(Envelope<Wire>),
    /// Hand this to whoever waits under this number.
    Wake(u64, Result<Wire, CallFailure>),
    /// Run a Direct Execution of this payload, replying to this id, with these functions to call.
    Execute(Option<CorrelationId>, Wire, Vec<(String, bool)>),
    /// Nothing.
    Nothing,
    /// End the connection, with everything that is in flight.
    End,
    /// No Client ID can be issued.
    NoClientId(CreateFailure),
}

/// What a connection is.
#[verifier::ext_equal]
pub ghost struct ConnectionView {
    pub id: u64,
    pub attached: Option<Seq<u8>>,
    pub reading: bool,
    pub calls: CallsView,
}

/// One connection, as its loop sees it.
pub struct Connection {
    id: ConnectionId,
    attached: Option<ClientId>,
    reading: bool,
    calls: Calls,
}

impl View for Connection {
    type V = ConnectionView;

    closed spec fn view(&self) -> ConnectionView {
        ConnectionView {
            id: self.id.0,
            attached: match self.attached {
                Some(client) => Some(client@),
                None => None,
            },
            reading: self.reading,
            calls: self.calls@,
        }
    }
}

impl ConnectionView {
    /// The connection once the peer can send no more: nothing is read, and no call is pending.
    pub open spec fn stopped(self) -> ConnectionView {
        ConnectionView {
            reading: false,
            calls: CallsView { pending: Map::empty(), ..self.calls },
            ..self
        }
    }
}

/// The functions that a connection's Scripts may call: those of the Session that it is attached to.
pub open spec fn callable(connection: ConnectionView, sessions: SessionsView) -> Seq<(Seq<char>, bool)> {
    match connection.attached {
        Some(client) => if sessions.live.dom().contains(key_of(client)) {
            sessions.live[key_of(client)].registrations
        } else {
            Seq::empty()
        },
        None => Seq::empty(),
    }
}

/// Whether a message that answers no call was met with the action that it is owed.
pub open spec fn request_met(
    request: Envelope<Wire>,
    r: Action,
    before: ConnectionView,
    after: ConnectionView,
    sessions: SessionsView,
    sessions_after: SessionsView,
) -> bool {
    match immediate(request@, before.attached is Some) {
        Some(reply) => after == before && sessions_after == sessions && (r matches Action::Reply(message) && message@
            == reply),
        None => if request.message_type == MessageType::ExecutionStart {
            &&& after == before
            &&& sessions_after == sessions
            &&& r matches Action::Execute(id, payload, registrations)
            &&& id == request.id
            &&& payload == request.payload
            &&& grants_view(registrations@) == callable(before, sessions)
        } else {
            match r {
                Action::Reply(reply) => {
                    &&& after.attached is Some
                    &&& !sessions.live.dom().contains(key_of(after.attached->0))
                    &&& after == (ConnectionView { attached: after.attached, ..before })
                    &&& sessions_after == created(
                        sessions,
                        after.attached->0,
                        decoded_init(request.payload@)->Ok_0,
                        before.id,
                    )
                    &&& reply@ == welcome(request.id, after.attached->0)
                },
                Action::NoClientId(_) => after == before && sessions_after == sessions,
                _ => false,
            }
        },
    }
}

/// Whether an event was met with the action that it is owed.
pub open spec fn met(
    event: Event,
    r: Action,
    before: ConnectionView,
    after: ConnectionView,
    sessions: SessionsView,
    sessions_after: SessionsView,
) -> bool {
    match event {
        Event::Message(message) => if !before.reading {
            after == before && sessions_after == sessions && r == Action::Nothing
        } else if answers(before.calls, message@) {
            let id = (message@.id->0).0;
            &&& sessions_after == sessions
            &&& after == (ConnectionView {
                calls: CallsView { pending: before.calls.pending.remove(id), ..before.calls },
                ..before
            })
            &&& r matches Action::Wake(waiter, outcome)
            &&& waiter == before.calls.pending[id]
            &&& crate::rpc::reply_view(outcome) == answered(message@)
        } else {
            request_met(message, r, before, after, sessions, sessions_after)
        },
        Event::Malformed(failure) => if !before.reading {
            after == before && sessions_after == sessions && r == Action::Nothing
        } else {
            &&& sessions_after == sessions
            &&& after == (if failure@.error.code == ProtocolCode::FrameTooLarge {
                before.stopped()
            } else {
                before
            })
            &&& r matches Action::Reply(reply)
            &&& reply@ == error_message(failure@.id, protocol_body(failure@.error))
        },
        Event::Closed => {
            &&& sessions_after == sessions
            &&& after == before.stopped()
            &&& r == Action::Nothing
        },
        Event::Lost => {
            &&& sessions_after == sessions
            &&& after == before.stopped()
            &&& r == Action::End
        },
        Event::Finished(reply) => {
            &&& sessions_after == sessions
            &&& after == before
            &&& r == Action::Reply(reply)
        },
        Event::Abandoned => {
            &&& sessions_after == sessions
            &&& after == before
            &&& r == Action::Nothing
        },
        Event::Call(call, waited_for) => if !waited_for {
            after == before && sessions_after == sessions && r == Action::Nothing
        } else if !before.reading {
            &&& sessions_after == sessions
            &&& after == before
            &&& r matches Action::Wake(waiter, outcome)
            &&& waiter == call.waiter
            &&& crate::rpc::reply_view(outcome) == crate::rpc::Reply::Failure(CallFailureView::NoReply)
        } else {
            &&& sessions_after == sessions
            &&& after == (ConnectionView {
                calls: CallsView {
                    pending: before.calls.pending.insert(before.calls.next, call.waiter),
                    next: following(before.calls.next),
                },
                ..before
            })
            &&& r matches Action::Call(message)
            &&& message@ == call_message(before.calls.next, call)
        },
    }
}

/// What writing a message came to.
pub enum Sent {
    /// It was written.
    Written,
    /// It could not be framed, for this reason, and nothing was written.
    TooLarge(String),
    /// The connection is unusable.
    Broken,
}

/// What to do after a write.
pub enum After {
    /// Go on.
    Usable,
    /// Write this in its place.
    Replace(Envelope<Wire>),
    /// Hand this to whoever waits under this number, and go on.
    Wake(u64, CallFailure),
    /// End the connection.
    Unusable,
}

/// What to do after writing a reply to `id`. A reply that could not be framed is replaced by a
/// refusal with the same id; a refusal that could not be framed either is given up.
pub fn delivered(id: Option<CorrelationId>, replacing: bool, sent: Sent) -> (r: After)
    ensures
        match sent {
            Sent::Written => r == After::Usable,
            Sent::TooLarge(error) => if replacing {
                r == After::Usable
            } else {
                r matches After::Replace(message) && message@ == refusal(
                    id,
                    ProtocolCode::ResponseTooLarge,
                    "the response could not be sent: "@ + error@,
                )
            },
            Sent::Broken => r == After::Unusable,
        },
{
    match sent {
        Sent::Written => After::Usable,
        Sent::TooLarge(error) => {
            if replacing {
                return After::Usable;
            }
            let mut message = "the response could not be sent: ".to_owned();
            message.append(error.as_str());
            After::Replace(refuse(id, ProtocolCode::ResponseTooLarge, message))
        },
        Sent::Broken => After::Unusable,
    }
}

impl Connection {
    /// A connection that opened.
    pub fn open(sessions: &mut Sessions) -> (r: Self)
        ensures
            r@ == (ConnectionView {
                id: old(sessions)@.next,
                attached: None,
                reading: true,
                calls: CallsView { pending: Map::empty(), next: 0 },
            }),
            final(sessions)@ == (SessionsView { next: following(old(sessions)@.next), ..old(sessions)@ }),
    {
        Connection { id: sessions.connect(), attached: None, reading: true, calls: Calls::new() }
    }

    /// The connection's id.
    pub fn id(&self) -> (r: ConnectionId)
        ensures
            r.0 == self@.id,
    {
        self.id
    }

    /// The Client ID of the Session that the connection is attached to.
    pub fn client(&self) -> (r: Option<ClientId>)
        ensures
            match (r, self@.attached) {
                (Some(client), Some(wanted)) => client@ == wanted,
                (None, None) => true,
                _ => false,
            },
    {
        self.attached
    }

    /// Whether the peer may still send.
    pub fn reading(&self) -> (r: bool)
        ensures
            r == self@.reading,
    {
        self.reading
    }

    /// Whether the connection has come to its end: nothing is read, and nothing is in flight.
    pub fn ended(&self, in_flight: usize) -> (r: bool)
        ensures
            r == (!self@.reading && in_flight == 0),
    {
        !self.reading && in_flight == 0
    }

    fn stop(&mut self)
        ensures
            final(self)@ == old(self)@.stopped(),
    {
        self.reading = false;
        self.calls.close();
    }

    fn message(&mut self, message: Envelope<Wire>, sessions: &mut Sessions) -> (r: Action)
        requires
            message.message_type == MessageType::Init ==> nesting(message.payload@) <= 1024,
        ensures
            met(Event::Message(message), r, old(self)@, final(self)@, old(sessions)@, final(sessions)@),
    {
        if !self.reading {
            return Action::Nothing;
        }
        let request = match self.calls.complete(message) {
            Ok(done) => {
                return Action::Wake(done.0, done.1);
            },
            Err(request) => request,
        };
        match answer(request, self.attached.is_some(), self.id, sessions) {
            Ok(Answer::Reply(reply)) => Action::Reply(reply),
            Ok(Answer::Initialized(client, reply)) => {
                self.attached = Some(client);
                Action::Reply(reply)
            },
            Ok(Answer::Execute(id, payload)) => {
                let registrations = match &self.attached {
                    Some(client) => match sessions.registrations(client) {
                        Some(list) => list,
                        None => Vec::new(),
                    },
                    None => Vec::new(),
                };
                proof {
                    assert(registrations@.len() == 0 ==> grants_view(registrations@) =~= Seq::empty());
                    assert(grants_view(registrations@) =~= callable(self@, sessions@));
                }
                Action::Execute(id, payload, registrations)
            },
            Err(failure) => Action::NoClientId(failure),
        }
    }

    /// Meet one event.
    pub fn exchange(&mut self, event: Event, sessions: &mut Sessions) -> (r: Action)
        requires
            event matches Event::Message(message) ==> message.message_type == MessageType::Init ==> nesting(
                message.payload@,
            ) <= 1024,
        ensures
            met(event, r, old(self)@, final(self)@, old(sessions)@, final(sessions)@),
    {
        match event {
            Event::Message(message) => self.message(message, sessions),
            Event::Malformed(failure) => {
                if !self.reading {
                    return Action::Nothing;
                }
                if failure.error.is_fatal() {
                    self.stop();
                }
                Action::Reply(failure.to_response())
            },
            Event::Closed => {
                self.stop();
                Action::Nothing
            },
            Event::Lost => {
                self.stop();
                Action::End
            },
            Event::Finished(reply) => Action::Reply(reply),
            Event::Abandoned => Action::Nothing,
            Event::Call(call, waited_for) => {
                if !waited_for {
                    return Action::Nothing;
                }
                if !self.reading {
                    return Action::Wake(call.waiter, Err(CallFailure::NoReply));
                }
                match self.calls.issue(call, true) {
                    Some(message) => Action::Call(message),
                    None => Action::Nothing,
                }
            },
        }
    }

    /// What to do after writing the call under `id`. One that could not be framed fails alone.
    pub fn call_sent(&mut self, id: CorrelationId, sent: Sent) -> (r: After)
        ensures
            match sent {
                Sent::Written => r == After::Usable && final(self)@ == old(self)@,
                Sent::Broken => r == After::Unusable && final(self)@ == old(self)@,
                Sent::TooLarge(error) => if old(self)@.calls.pending.dom().contains(id.0) {
                    &&& final(self)@ == (ConnectionView {
                        calls: CallsView { pending: old(self)@.calls.pending.remove(id.0), ..old(self)@.calls },
                        ..old(self)@
                    })
                    &&& r matches After::Wake(waiter, failure)
                    &&& waiter == old(self)@.calls.pending[id.0]
                    &&& failure@ == CallFailureView::Unsendable("its frame would be too large: "@ + error@)
                } else {
                    r == After::Usable && final(self)@ == old(self)@
                },
            },
    {
        match sent {
            Sent::Written => After::Usable,
            Sent::TooLarge(error) => {
                let mut reason = "its frame would be too large: ".to_owned();
                reason.append(error.as_str());
                match self.calls.unsendable(id, reason) {
                    Some((waiter, failure)) => After::Wake(waiter, failure),
                    None => After::Usable,
                }
            },
            Sent::Broken => After::Unusable,
        }
    }

    /// Leave: detach the connection from its Session, if it completed init.
    pub fn leave(self, sessions: &mut Sessions)
        ensures
            final(sessions)@ == match self@.attached {
                Some(client) => detached(old(sessions)@, key_of(client), self@.id),
                None => old(sessions)@,
            },
    {
        if let Some(client) = self.attached {
            sessions.detach(&client, self.id);
        }
    }
}

/// Every well-formed request gets a reply that carries its id, be it at once or by an execution; only
/// a stray `Result` or `Error` is answered with none.
pub proof fn law_replies_carry_the_id(request: Envelope<Wire>, attached: bool, connection: u64, r: Result<
    Answer,
    CreateFailure,
>, before: SessionsView, after: SessionsView)
    requires
        answer_owed(r, request, attached, connection, before, after),
    ensures
        match r {
            Ok(Answer::Reply(reply)) => reply@.id == (if request.message_type == MessageType::Result
                || request.message_type == MessageType::Error {
                None
            } else {
                request.id
            }),
            Ok(Answer::Initialized(_, reply)) => reply@.id == request.id,
            Ok(Answer::Execute(id, _)) => id == request.id,
            Err(_) => request.message_type == MessageType::Init,
        },
        forall|outcome: Replied| (#[trigger] executed_reply(request.id, outcome)).id == request.id,
{
}

/// Nothing runs before init: on a connection that is not attached, every message is answered without
/// an execution, and an `ExecutionStart` is refused.
pub proof fn law_init_gate(request: Envelope<Wire>, connection: u64, r: Result<Answer, CreateFailure>, before:
    SessionsView, after: SessionsView)
    requires
        answer_owed(r, request, false, connection, before, after),
    ensures
        !(r matches Ok(Answer::Execute(_, _))),
        request.message_type == MessageType::ExecutionStart ==> after == before && (r matches Ok(Answer::Reply(reply))
            && reply@ == refusal(
            request.id,
            ProtocolCode::InitNotCompleted,
            "`"@ + "ExecutionStart"@ + "` needs a completed init; send `Init` first"@,
        )),
{
}

/// A connection that stopped reading stays stopped: whatever happens then, no call becomes pending,
/// and a call made then gets no reply.
pub proof fn law_stopped_stays(event: Event, r: Action, before: ConnectionView, after: ConnectionView, sessions:
    SessionsView, sessions_after: SessionsView)
    requires
        met(event, r, before, after, sessions, sessions_after),
        !before.reading,
        before.calls.pending == Map::<u64, u64>::empty(),
    ensures
        !after.reading,
        after.calls.pending == Map::<u64, u64>::empty(),
        after.attached == before.attached,
        sessions_after == sessions,
        !(r is Call),
        !(r is Execute),
{
}

/// A connection's Session is there for as long as the connection is: leaving after init gives the
/// registry back as it was before.
pub proof fn law_leaving_undoes_init(
    sessions: SessionsView,
    client: Seq<u8>,
    registrations: Seq<(Seq<char>, bool)>,
    connection: u64,
)
    requires
        !sessions.live.dom().contains(key_of(client)),
    ensures
        created(sessions, client, registrations, connection).live.dom().contains(key_of(client)),
        detached(created(sessions, client, registrations, connection), key_of(client), connection) == sessions,
{
    let after = created(sessions, client, registrations, connection);
    assert(after.live[key_of(client)].connections.remove(connection) =~= Set::<u64>::empty());
    assert(detached(after, key_of(client), connection).live =~= sessions.live);
}

} // verus!

//! What each message of a Backend is answered.

use vstd::prelude::*;
use crate::rpc::Reply;
use crate::rpc::CallFailureView;
use crate::port::error::ProtocolCode;
use crate::connection::Action;
use crate::connection::ConnectionView;
use crate::connection::Event;
use crate::connection::executed_reply;
use crate::connection::immediate;
use crate::connection::met;
use crate::envelope::CorrelationId;
use crate::envelope::Envelope;
use crate::envelope::EnvelopeView;
use crate::envelope::MessageType;
use crate::ids::hex_text;
use crate::port::error::ErrorBodyView;
use crate::port::error::body_value;
use crate::rpc::Call;
use crate::rpc::answers;
use crate::rpc::reply_view;
use crate::script::Replied;
use crate::session::init::decoded_init;
use crate::session::registry::SessionsView;
use crate::session::registry::key_of;
use crate::wire::Wire;
use crate::wire::WireView;

verus! {

/// Whether a message is an error response to an id, with a code of the protocol.
pub open spec fn refuses(reply: EnvelopeView, id: Option<CorrelationId>, code: Seq<char>) -> bool {
    &&& reply.id == id
    &&& reply.message_type == MessageType::Error
    &&& reply.payload matches WireView::Pairs(fields) && fields.len() == 5 && fields[1] == (
        WireView::String("category"@),
        WireView::String("protocol"@),
    ) && fields[2] == (WireView::String("code"@), WireView::String(code))
}

/// A message that answers no call is answered at once with an error: a second `Init`, an `Init` with a payload
/// that is not accepted, an `ExecutionStart` before the `Init`, and everything that a Backend does not send of
/// itself. Only an `Init` that is accepted, and an `ExecutionStart` behind it, are not.
pub proof fn law_what_a_message_gets(request: EnvelopeView, attached: bool)
    ensures
        request.message_type == MessageType::Init && attached ==> (immediate(request, attached) matches Some(reply) && refuses(
            reply,
            request.id,
            "protocol.already_initialized"@,
        )),
        request.message_type == MessageType::Init && !attached && decoded_init(request.payload) is Err ==> (immediate(
            request,
            attached,
        ) matches Some(reply) && refuses(reply, request.id, "protocol.invalid_payload"@)),
        request.message_type == MessageType::ExecutionStart && !attached ==> (immediate(request, attached) matches Some(reply)
            && refuses(reply, request.id, "protocol.init_not_completed"@)),
        request.message_type == MessageType::ConfigUpdate || request.message_type == MessageType::Call
            || request.message_type == MessageType::Authorize ==> (immediate(request, attached) matches Some(reply) && refuses(
            reply,
            request.id,
            "protocol.unexpected_message"@,
        )),
        request.message_type == MessageType::Result || request.message_type == MessageType::Error ==> (immediate(
            request,
            attached,
        ) matches Some(reply) && refuses(reply, None, "protocol.unexpected_message"@)),
        immediate(request, attached) is None <==> (request.message_type == MessageType::Init && !attached && decoded_init(
            request.payload,
        ) is Ok) || (request.message_type == MessageType::ExecutionStart && attached),
{
}

/// An `Init` that is accepted attaches the connection to a Session that was not there before: it holds the
/// registrations of the payload and that one connection, every other Session stays as it is, and the reply says
/// its Client ID.
pub proof fn law_init_creates_a_session(
    request: Envelope<Wire>,
    r: Action,
    before: ConnectionView,
    after: ConnectionView,
    sessions: SessionsView,
    sessions_after: SessionsView,
    other: u128,
)
    requires
        met(Event::Message(request), r, before, after, sessions, sessions_after),
        before.reading,
        !answers(before.calls, request@),
        request.message_type == MessageType::Init,
        before.attached is None,
        decoded_init(request.payload@) is Ok,
    ensures
        match r {
            Action::Reply(reply) => {
                &&& after.attached matches Some(client) && !sessions.live.dom().contains(key_of(client))
                    && sessions_after.live.dom().contains(key_of(client)) && sessions_after.live[key_of(client)].registrations
                    == decoded_init(request.payload@)->Ok_0 && (forall|c: u64|
                    sessions_after.live[key_of(client)].connections.contains(c) <==> c == before.id) && (other != key_of(client)
                    ==> sessions_after.live.dom().contains(other) == sessions.live.dom().contains(other)
                    && sessions_after.live[other] == sessions.live[other])
                &&& reply@.id == request.id
                &&& reply@.message_type == MessageType::Result
                &&& reply@.payload matches WireView::Pairs(fields) && fields.len() == 1 && fields[0] == (
                    WireView::String("client_id"@),
                    WireView::String(hex_text(after.attached->0)),
                )
            },
            Action::NoClientId(_) => after.attached is None && sessions_after == sessions,
            _ => false,
        },
{
}

/// An `ExecutionStart` on an attached connection runs its payload, to be answered under its id, with the functions
/// of the connection's Session to call, in their order.
pub proof fn law_execution_start_runs(
    request: Envelope<Wire>,
    r: Action,
    before: ConnectionView,
    after: ConnectionView,
    sessions: SessionsView,
    sessions_after: SessionsView,
    client: Seq<u8>,
)
    requires
        met(Event::Message(request), r, before, after, sessions, sessions_after),
        before.reading,
        !answers(before.calls, request@),
        request.message_type == MessageType::ExecutionStart,
        before.attached == Some(client),
        sessions.live.dom().contains(key_of(client)),
    ensures
        after == before,
        sessions_after == sessions,
        r matches Action::Execute(id, payload, registrations) && id == request.id && payload == request.payload
            && registrations@.len() == sessions.live[key_of(client)].registrations.len() && forall|i: int|
            0 <= i < registrations@.len() ==> ((#[trigger] registrations@[i]).0@, registrations@[i].1)
                == sessions.live[key_of(client)].registrations[i],
{
    if let Action::Execute(id, payload, registrations) = r {
        let grants = crate::session::registry::grants_view(registrations@);
        assert(grants.len() == registrations@.len());
        assert forall|i: int| 0 <= i < registrations@.len() implies ((#[trigger] registrations@[i]).0@, registrations@[i].1)
            == sessions.live[key_of(client)].registrations[i] by {
            assert(grants[i] == (registrations@[i].0@, registrations@[i].1));
        }
    }
}

/// A call goes out under a number that is then pending for its caller, and the answer under that number wakes that
/// caller, once: then the number is pending no more, and no other number is touched.
pub proof fn law_calls_and_their_answers(
    event: Event,
    r: Action,
    before: ConnectionView,
    after: ConnectionView,
    sessions: SessionsView,
    sessions_after: SessionsView,
    other: u64,
)
    requires
        met(event, r, before, after, sessions, sessions_after),
        before.reading,
    ensures
        event matches Event::Call(call, true) ==> after.calls.pending.dom().contains(before.calls.next)
            && after.calls.pending[before.calls.next] == call.waiter && (other != before.calls.next
            ==> after.calls.pending.dom().contains(other) == before.calls.pending.dom().contains(other)
            && after.calls.pending[other] == before.calls.pending[other]) && (r matches Action::Call(message) && message@.id
            == Some(CorrelationId(before.calls.next))),
        event matches Event::Message(message) ==> (answers(before.calls, message@) ==> (r matches Action::Wake(waiter, _)
            && message@.id is Some && waiter == before.calls.pending[(message@.id->0).0] && !after.calls.pending.dom().contains(
            (message@.id->0).0,
        ) && (other != (message@.id->0).0 ==> after.calls.pending.dom().contains(other)
            == before.calls.pending.dom().contains(other) && after.calls.pending[other] == before.calls.pending[other]))),
        event matches Event::Message(message) ==> (answers(before.calls, message@) <==> (message@.message_type
            == MessageType::Result || message@.message_type == MessageType::Error) && (message@.id matches Some(id)
            && before.calls.pending.dom().contains(id.0))),
{
}

/// What an execution came to is answered under the id of its request: a result as a `Result`, a failure as an
/// `Error`.
pub proof fn law_executions_are_answered(id: Option<CorrelationId>, payload: WireView, body: ErrorBodyView)
    ensures
        executed_reply(id, Replied::Payload(payload)).id == id,
        executed_reply(id, Replied::Payload(payload)).message_type == MessageType::Result,
        executed_reply(id, Replied::Payload(payload)).payload == payload,
        executed_reply(id, Replied::Failure(body)).id == id,
        executed_reply(id, Replied::Failure(body)).message_type == MessageType::Error,
        executed_reply(id, Replied::Failure(body)).payload == body_value(body),
{
}

/// What else happens on a connection: a frame that is rejected is answered with its error, under the id that it lets be
/// read, and ends the reading only when it leaves no way to find the next one; a peer that stops sending is read no more,
/// and one that is lost ends the connection; and the reply of an execution is written as it is.
pub proof fn law_other_events(
    event: Event,
    r: Action,
    before: ConnectionView,
    after: ConnectionView,
    sessions: SessionsView,
    sessions_after: SessionsView,
)
    requires
        met(event, r, before, after, sessions, sessions_after),
    ensures
        event matches Event::Malformed(failure) ==> before.reading ==> (r matches Action::Reply(reply) && refuses(
            reply@,
            failure@.id,
            failure@.error.code.spelling(),
        )) && after.reading == (failure@.error.code != ProtocolCode::FrameTooLarge) && after.attached == before.attached,
        event is Closed ==> r == Action::Nothing && !after.reading && after.calls.pending == Map::<u64, u64>::empty()
            && after.attached == before.attached,
        event is Lost ==> r == Action::End && !after.reading,
        event matches Event::Finished(reply) ==> r == Action::Reply(reply) && after == before,
        event is Abandoned ==> r == Action::Nothing && after == before,
        event matches Event::Call(call, false) ==> r == Action::Nothing && after == before,
        event matches Event::Call(call, true) ==> !before.reading ==> (r matches Action::Wake(waiter, outcome) && waiter
            == call.waiter && reply_view(outcome) == Reply::Failure(CallFailureView::NoReply)),
        !(event is Message) ==> sessions_after == sessions,
{
}

} // verus!

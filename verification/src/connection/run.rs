//! What holds of a whole connection, from its opening to its end.

use vstd::prelude::*;
use vstd::multiset::Multiset;
use vstd::multiset::group_multiset_axioms;
use crate::connection::Action;
use crate::connection::ConnectionView;
use crate::connection::Event;
use crate::connection::met;
use crate::connection::refusal;
use crate::envelope::CorrelationId;
use crate::envelope::EnvelopeView;
use crate::envelope::MessageType;
use crate::port::error::ProtocolCode;
use crate::rpc::answers;
use crate::session::registry::SessionsView;

verus! {

/// One event and the action that met it, with the connection and the registry before and after.
pub ghost struct Exchange {
    pub event: Event,
    pub action: Action,
    pub before: ConnectionView,
    pub after: ConnectionView,
    pub sessions: SessionsView,
    pub sessions_after: SessionsView,
}

/// The id that the reply to a message carries: the message's own, but none for a stray `Result` or
/// `Error`, whose id names a call of the Daemon's.
pub open spec fn reply_id(message: EnvelopeView) -> Option<CorrelationId> {
    if message.message_type == MessageType::Result || message.message_type == MessageType::Error {
        None
    } else {
        message.id
    }
}

impl Exchange {
    /// Whether the event was met with the action that it is owed.
    pub open spec fn owed_action(self) -> bool {
        met(self.event, self.action, self.before, self.after, self.sessions, self.sessions_after)
    }

    /// The reply that the event makes the Daemon owe, by its id: one for every request that is read,
    /// and for every frame that is rejected. A Backend's answer to a call of the Daemon's is owed none.
    pub open spec fn owes(self) -> Multiset<Option<CorrelationId>> {
        match self.event {
            Event::Message(message) => if self.before.reading && !answers(self.before.calls, message@) {
                Multiset::singleton(reply_id(message@))
            } else {
                Multiset::empty()
            },
            Event::Malformed(failure) => if self.before.reading {
                Multiset::singleton(failure@.id)
            } else {
                Multiset::empty()
            },
            _ => Multiset::empty(),
        }
    }

    /// The reply that is written, by its id. A call of the Daemon's is no reply.
    pub open spec fn replies(self) -> Multiset<Option<CorrelationId>> {
        match self.action {
            Action::Reply(reply) => Multiset::singleton(reply@.id),
            _ => Multiset::empty(),
        }
    }

    /// The execution that is started, by the id that it replies to.
    pub open spec fn starts(self) -> Multiset<Option<CorrelationId>> {
        match self.action {
            Action::Execute(id, _, _) => Multiset::singleton(id),
            _ => Multiset::empty(),
        }
    }

    /// The execution that came to its reply.
    pub open spec fn finishes(self) -> Multiset<Option<CorrelationId>> {
        match self.event {
            Event::Finished(reply) => Multiset::singleton(reply@.id),
            _ => Multiset::empty(),
        }
    }
}

/// The replies that a run makes the Daemon owe.
pub open spec fn owed(run: Seq<Exchange>) -> Multiset<Option<CorrelationId>>
    decreases run.len(),
{
    if run.len() == 0 {
        Multiset::empty()
    } else {
        owed(run.drop_last()).add(run.last().owes())
    }
}

/// The replies that a run writes.
pub open spec fn replied(run: Seq<Exchange>) -> Multiset<Option<CorrelationId>>
    decreases run.len(),
{
    if run.len() == 0 {
        Multiset::empty()
    } else {
        replied(run.drop_last()).add(run.last().replies())
    }
}

/// The executions that are in flight at the end of a run.
pub open spec fn in_flight(run: Seq<Exchange>) -> Multiset<Option<CorrelationId>>
    decreases run.len(),
{
    if run.len() == 0 {
        Multiset::empty()
    } else {
        in_flight(run.drop_last()).add(run.last().starts()).sub(run.last().finishes())
    }
}

/// Whether a run is one of a connection on which nothing failed outside: every event was met with its
/// action and follows on from the one before, only an execution in flight comes to its reply, none
/// ends without one, and there is always a Client ID to issue.
pub open spec fn unfailing(run: Seq<Exchange>) -> bool
    decreases run.len(),
{
    run.len() == 0 || {
        let last = run.last();
        let before = run.drop_last();
        &&& unfailing(before)
        &&& last.owed_action()
        &&& before.len() > 0 ==> last.before == before.last().after
        &&& last.event matches Event::Finished(reply) ==> in_flight(before).count(reply@.id) > 0
        &&& !(last.event is Abandoned)
        &&& !(last.action is NoClientId)
    }
}

/// What one exchange adds to the replies owed and to the executions finished, it adds to the replies
/// written and to the executions started.
proof fn lemma_balanced(x: Exchange)
    requires
        x.owed_action(),
        !(x.action is NoClientId),
    ensures
        x.owes().add(x.finishes()) == x.replies().add(x.starts()),
{
    broadcast use group_multiset_axioms;

    assert(x.owes().add(x.finishes()) =~= x.replies().add(x.starts()));
}

/// Every request gets exactly one reply, which carries its id. At any time the replies written and the
/// executions in flight are together the replies owed; so when nothing is in flight every request has
/// been answered, each once, and nothing else has been.
pub proof fn law_every_request_gets_one_reply(run: Seq<Exchange>)
    requires
        unfailing(run),
    ensures
        owed(run) == replied(run).add(in_flight(run)),
        owed(run).len() == replied(run).len() + in_flight(run).len(),
        in_flight(run).len() == 0 ==> replied(run) == owed(run),
    decreases run.len(),
{
    broadcast use group_multiset_axioms;

    if run.len() > 0 {
        let before = run.drop_last();
        let x = run.last();
        law_every_request_gets_one_reply(before);
        lemma_balanced(x);
        assert forall|id: Option<CorrelationId>|
            owed(run).count(id) == #[trigger] replied(run).count(id) + in_flight(run).count(id) by {
            assert(owed(before).count(id) == replied(before).add(in_flight(before)).count(id));
            assert(x.owes().add(x.finishes()).count(id) == x.replies().add(x.starts()).count(id));
        }
    }
    assert(owed(run) =~= replied(run).add(in_flight(run)));
    if in_flight(run).len() == 0 {
        assert forall|id: Option<CorrelationId>| in_flight(run).count(id) == 0 by {}
        assert(replied(run).add(in_flight(run)) =~= replied(run));
    }
}

/// A connection ends after its last reply: once the peer can send no more and nothing is in flight,
/// which is when the connection has ended, every reply that it owed is written, and whatever follows
/// makes it owe none.
pub proof fn law_the_end_comes_after_the_last_reply(run: Seq<Exchange>, next: Exchange)
    requires
        run.len() > 0,
        unfailing(run),
        !run.last().after.reading,
        in_flight(run).len() == 0,
        next.before == run.last().after,
    ensures
        replied(run) == owed(run),
        next.owes() == Multiset::<Option<CorrelationId>>::empty(),
{
    law_every_request_gets_one_reply(run);
}

/// Nothing runs before init: an `ExecutionStart` that is read on a connection without a Session is
/// answered with a refusal that carries its id, and no execution is started.
pub proof fn law_nothing_runs_before_init(x: Exchange)
    requires
        x.owed_action(),
        x.before.reading,
        x.before.attached is None,
        x.event matches Event::Message(message) && message.message_type == MessageType::ExecutionStart,
    ensures
        x.starts() == Multiset::<Option<CorrelationId>>::empty(),
        x.after == x.before,
        x.sessions_after == x.sessions,
        x.action matches Action::Reply(reply) && reply@ == refusal(
            x.event->Message_0@.id,
            ProtocolCode::InitNotCompleted,
            "`"@ + "ExecutionStart"@ + "` needs a completed init; send `Init` first"@,
        ),
{
}

} // verus!

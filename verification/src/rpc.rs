//! Host-call correlation: the calls that a connection has written to its Backend and that wait for an
//! answer.
//!
//! A call is a request of the Daemon's own, under an id from a counter of the connection's. The ids
//! of a Backend's requests never meet these: a Backend's `Result` or `Error` always answers a call.
//! Who waits for a call is an integer that the connection chose; what travels between the two is
//! the connection's.

use vstd::prelude::*;
use std::collections::HashMap;
use crate::envelope::CorrelationId;
use crate::envelope::Envelope;
use crate::envelope::EnvelopeView;
use crate::envelope::MessageType;
use crate::port::codec::field;
use crate::text::bounded_to;
use crate::text::bounded_to_spec;
use crate::text::quote;
use crate::text::quoted;
use crate::text::same;
use crate::wire::Wire;
use crate::wire::WireView;
use crate::wire::items_view;
use crate::wire::lemma_wire_items;
use crate::wire::pairs_view;

verus! {

/// The most characters of a Backend's text that a Script error carries.
pub const TEXT_LIMIT: usize = 512;

/// Why a host call produced no value.
#[derive(Debug)]
pub enum CallFailure {
    /// The Backend answered with an error; its message, when it carried a string one.
    Failed(Option<String>),
    /// The Backend answered with a result that is not a valid one: what was wrong.
    Malformed(String),
    /// The connection ended before the Backend answered.
    NoReply,
    /// The call could not be written: why.
    Unsendable(String),
}

/// What a [`CallFailure`] says.
#[verifier::ext_equal]
pub ghost enum CallFailureView {
    Failed(Option<Seq<char>>),
    Malformed(Seq<char>),
    NoReply,
    Unsendable(Seq<char>),
}

impl View for CallFailure {
    type V = CallFailureView;

    open spec fn view(&self) -> CallFailureView {
        match *self {
            CallFailure::Failed(None) => CallFailureView::Failed(None),
            CallFailure::Failed(Some(message)) => CallFailureView::Failed(Some(message@)),
            CallFailure::Malformed(message) => CallFailureView::Malformed(message@),
            CallFailure::NoReply => CallFailureView::NoReply,
            CallFailure::Unsendable(message) => CallFailureView::Unsendable(message@),
        }
    }
}

/// What a call came to.
#[verifier::ext_equal]
pub ghost enum Reply {
    Value(WireView),
    Failure(CallFailureView),
}

/// What a call came to.
pub open spec fn reply_view(reply: Result<Wire, CallFailure>) -> Reply {
    match reply {
        Ok(value) => Reply::Value(value@),
        Err(failure) => Reply::Failure(failure@),
    }
}

/// What an execution asks the Backend.
#[derive(Debug, Clone, Copy, PartialEq, Eq, Structural)]
pub enum Request {
    /// Run the Registered Function.
    Call,
    /// May this call go ahead?
    Authorize,
}

impl Request {
    pub open spec fn kind(self) -> MessageType {
        match self {
            Request::Call => MessageType::Call,
            Request::Authorize => MessageType::Authorize,
        }
    }
}

/// One call, or one question about a call, on its way to the Backend.
#[derive(Debug)]
pub struct Call {
    pub request: Request,
    pub name: String,
    pub arguments: Vec<Wire>,
    /// Who waits for the answer.
    pub waiter: u64,
}

/// The calls written and not yet answered, each with who waits for it, and the next id.
#[verifier::ext_equal]
pub ghost struct CallsView {
    pub pending: Map<u64, u64>,
    pub next: u64,
}

/// One connection's host calls.
#[derive(Debug)]
pub struct Calls {
    pending: HashMap<u64, u64>,
    next: u64,
}

impl View for Calls {
    type V = CallsView;

    closed spec fn view(&self) -> CallsView {
        CallsView { pending: self.pending@, next: self.next }
    }
}

/// The message that carries a call.
pub open spec fn call_message(id: u64, call: Call) -> EnvelopeView {
    EnvelopeView {
        id: Some(CorrelationId(id)),
        message_type: call.request.kind(),
        payload: WireView::Pairs(
            seq![
                (WireView::String("name"@), WireView::String(call.name@)),
                (WireView::String("arguments"@), WireView::Array(items_view(call.arguments@))),
            ],
        ),
    }
}

/// The id behind `id`. After the largest comes zero.
pub open spec fn following(id: u64) -> u64 {
    if id == u64::MAX {
        0
    } else {
        (id + 1) as u64
    }
}

/// What is wrong with the first `n` fields of a result.
pub open spec fn reply_problem(fields: Seq<(WireView, WireView)>, n: int) -> Option<Seq<char>>
    decreases n,
{
    if n <= 0 {
        None
    } else if reply_problem(fields, n - 1) is Some {
        reply_problem(fields, n - 1)
    } else {
        match fields[n - 1].0 {
            WireView::String(key) => if key != "value"@ {
                Some("the reply has an unknown key "@ + quoted(bounded_to_spec(key, TEXT_LIMIT as int)))
            } else if field(fields, "value"@, n - 1) is Some {
                Some("the reply repeats the key `value`"@)
            } else {
                None
            },
            _ => Some("the reply has a key that is not a string"@),
        }
    }
}

/// What a result says: its payload is a map with exactly the key `value`.
pub open spec fn result_value(payload: WireView) -> Reply {
    match payload {
        WireView::Pairs(fields) => {
            let n = fields.len() as int;
            match reply_problem(fields, n) {
                Some(message) => Reply::Failure(CallFailureView::Malformed(message)),
                None => match field(fields, "value"@, n) {
                    Some(value) => Reply::Value(value),
                    None => Reply::Failure(CallFailureView::Malformed("the reply has no `value`"@)),
                },
            }
        },
        _ => Reply::Failure(CallFailureView::Malformed("the reply is not a map with `value`"@)),
    }
}

/// What an error says: its message, when it carries a string one, cut short.
pub open spec fn error_message(payload: WireView) -> Option<Seq<char>> {
    match payload {
        WireView::Pairs(fields) => match field(fields, "message"@, fields.len() as int) {
            Some(WireView::String(message)) => Some(bounded_to_spec(message, TEXT_LIMIT as int)),
            _ => None,
        },
        _ => None,
    }
}

/// What a message that answers a call says.
pub open spec fn answered(message: EnvelopeView) -> Reply {
    if message.message_type == MessageType::Result {
        result_value(message.payload)
    } else {
        Reply::Failure(CallFailureView::Failed(error_message(message.payload)))
    }
}

/// Whether a message answers a call that is pending.
pub open spec fn answers(calls: CallsView, message: EnvelopeView) -> bool {
    (message.message_type == MessageType::Result || message.message_type == MessageType::Error) && (message.id
        matches Some(id) && calls.pending.dom().contains(id.0))
}

fn bounded(text: &str) -> (r: String)
    ensures
        r@ == bounded_to_spec(text@, TEXT_LIMIT as int),
{
    bounded_to(text, TEXT_LIMIT)
}

/// Where the first field with a key is.
fn find_field(fields: &Vec<(Wire, Wire)>, name: &str) -> (r: Option<usize>)
    ensures
        match (r, field(pairs_view(fields@), name@, fields@.len() as int)) {
            (Some(i), Some(value)) => i < fields@.len() && fields@[i as int].1@ == value,
            (None, None) => true,
            _ => false,
        },
{
    let ghost views = pairs_view(fields@);
    let mut found: Option<usize> = None;
    let mut i: usize = 0;
    while i < fields.len()
        invariant
            i <= fields@.len(),
            views == pairs_view(fields@),
            match (found, field(views, name@, i as int)) {
                (Some(k), Some(value)) => k < i && fields@[k as int].1@ == value,
                (None, None) => true,
                _ => false,
            },
        decreases fields.len() - i,
    {
        proof {
            assert(views[i as int].0 == fields@[i as int].0@);
            assert(views[i as int].1 == fields@[i as int].1@);
        }
        if found.is_none() {
            if let Some(key) = fields[i].0.as_str() {
                if same(key, name) {
                    found = Some(i);
                }
            }
        }
        i = i + 1;
    }
    found
}

proof fn lemma_stays_wrong(fields: Seq<(WireView, WireView)>, k: int, n: int)
    requires
        0 <= k <= n,
    ensures
        reply_problem(fields, k) is Some ==> reply_problem(fields, n) == reply_problem(fields, k),
    decreases n - k,
{
    if k < n {
        lemma_stays_wrong(fields, k, n - 1);
    }
}

/// The value of a result.
pub fn value_of(payload: &Wire) -> (r: Result<Wire, CallFailure>)
    ensures
        reply_view(r) == result_value(payload@),
{
    broadcast use lemma_wire_items;

    let fields = match payload {
        Wire::Pairs(fields) => fields,
        _ => {
            return Err(CallFailure::Malformed("the reply is not a map with `value`".to_owned()));
        },
    };
    let ghost views = pairs_view(fields@);
    let mut value: Option<usize> = None;
    let mut i: usize = 0;
    while i < fields.len()
        invariant
            i <= fields@.len(),
            views == pairs_view(fields@),
            payload@ == WireView::Pairs(views),
            reply_problem(views, i as int) is None,
            match (value, field(views, "value"@, i as int)) {
                (Some(k), Some(found)) => k < i && fields@[k as int].1@ == found,
                (None, None) => true,
                _ => false,
            },
        decreases fields.len() - i,
    {
        proof {
            assert(views[i as int].0 == fields@[i as int].0@);
            assert(views[i as int].1 == fields@[i as int].1@);
            lemma_stays_wrong(views, i + 1, views.len() as int);
        }
        match fields[i].0.as_str() {
            Some(key) => {
                if !same(key, "value") {
                    let mut message = "the reply has an unknown key ".to_owned();
                    message.append(quote(bounded(key).as_str()).as_str());
                    return Err(CallFailure::Malformed(message));
                }
                if value.is_some() {
                    return Err(CallFailure::Malformed("the reply repeats the key `value`".to_owned()));
                }
                value = Some(i);
            },
            None => {
                return Err(CallFailure::Malformed("the reply has a key that is not a string".to_owned()));
            },
        }
        i = i + 1;
    }
    match value {
        Some(k) => Ok(fields[k].1.copied()),
        None => Err(CallFailure::Malformed("the reply has no `value`".to_owned())),
    }
}

/// The message of an error, when it carries a string one.
pub fn message_of(payload: &Wire) -> (r: Option<String>)
    ensures
        match (r, error_message(payload@)) {
            (Some(message), Some(wanted)) => message@ == wanted,
            (None, None) => true,
            _ => false,
        },
{
    broadcast use lemma_wire_items;

    match payload {
        Wire::Pairs(fields) => match find_field(fields, "message") {
            Some(i) => match fields[i].1.as_str() {
                Some(message) => Some(bounded(message)),
                None => None,
            },
            None => None,
        },
        _ => None,
    }
}

impl Calls {
    /// No call is pending.
    pub fn new() -> (r: Self)
        ensures
            r@ == (CallsView { pending: Map::empty(), next: 0 }),
    {
        Calls { pending: HashMap::new(), next: 0 }
    }

    /// Give a call the next id, record it as pending, and return the message to write. `None`, and
    /// nothing recorded, when nobody waits for it any more.
    pub fn issue(&mut self, call: Call, waited_for: bool) -> (r: Option<Envelope<Wire>>)
        ensures
            !waited_for ==> r is None && final(self)@ == old(self)@,
            waited_for ==> (r matches Some(message) && message@ == call_message(old(self)@.next, call)) && final(self)@
                == (CallsView {
                pending: old(self)@.pending.insert(old(self)@.next, call.waiter),
                next: following(old(self)@.next),
            }),
            waited_for && !old(self)@.pending.dom().contains(old(self)@.next) ==> final(self)@.pending.len()
                == old(self)@.pending.len() + 1,
            final(self)@.pending.dom().finite(),
    {
        broadcast use {vstd::std_specs::hash::group_hash_axioms, lemma_wire_items};

        if !waited_for {
            return None;
        }
        let id: u64 = self.next;
        self.next = if id == u64::MAX {
            0
        } else {
            id + 1
        };
        self.pending.insert(id, call.waiter);
        let message_type = match call.request {
            Request::Call => MessageType::Call,
            Request::Authorize => MessageType::Authorize,
        };
        let ghost wanted = call_message(id, call);
        let mut fields: Vec<(Wire, Wire)> = Vec::new();
        fields.push((Wire::text("name"), Wire::String(call.name)));
        fields.push((Wire::text("arguments"), Wire::Array(call.arguments)));
        proof {
            assert(pairs_view(fields@) =~= wanted.payload->Pairs_0);
        }
        let payload = Wire::Pairs(fields);
        proof {
            assert(payload@ == wanted.payload);
        }
        Some(Envelope { id: Some(CorrelationId(id)), message_type, payload })
    }

    /// Route a Backend message to the call that it answers: who waits for it, and what it came to.
    /// A message that answers no pending call is handed back.
    pub fn complete(&mut self, message: Envelope<Wire>) -> (r: Result<(u64, Result<Wire, CallFailure>), Envelope<Wire>>)
        ensures
            answers(old(self)@, message@) ==> (r matches Ok(done) && done.0 == old(self)@.pending[(message@.id->0).0]
                && reply_view(done.1) == answered(message@)) && final(self)@ == (CallsView {
                pending: old(self)@.pending.remove((message@.id->0).0),
                ..old(self)@
            }),
            !answers(old(self)@, message@) ==> (r matches Err(back) && back == message) && final(self)@ == old(self)@,
            r is Ok ==> final(self)@.pending.len() == old(self)@.pending.len() - 1,
            final(self)@.pending.dom().finite(),
    {
        broadcast use vstd::std_specs::hash::group_hash_axioms;

        let is_reply = match message.message_type {
            MessageType::Result => true,
            MessageType::Error => true,
            _ => false,
        };
        if !is_reply {
            return Err(message);
        }
        let id = match message.id {
            Some(id) => id,
            None => {
                return Err(message);
            },
        };
        let waiter = match self.pending.remove(&id.0) {
            Some(waiter) => waiter,
            None => {
                proof {
                    assert(self@.pending =~= old(self)@.pending);
                }
                return Err(message);
            },
        };
        let outcome = match message.message_type {
            MessageType::Result => value_of(&message.payload),
            _ => Err(CallFailure::Failed(message_of(&message.payload))),
        };
        Ok((waiter, outcome))
    }

    /// Fail the call written as `id`: its message could not be framed. Who waits for it, if it is
    /// pending.
    pub fn unsendable(&mut self, id: CorrelationId, reason: String) -> (r: Option<(u64, CallFailure)>)
        ensures
            old(self)@.pending.dom().contains(id.0) ==> (r matches Some(failed) && failed.0 == old(self)@.pending[id.0]
                && failed.1@ == CallFailureView::Unsendable(reason@)) && final(self)@ == (CallsView {
                pending: old(self)@.pending.remove(id.0),
                ..old(self)@
            }),
            !old(self)@.pending.dom().contains(id.0) ==> r is None && final(self)@ == old(self)@,
            r is Some ==> final(self)@.pending.len() == old(self)@.pending.len() - 1,
            final(self)@.pending.dom().finite(),
    {
        broadcast use vstd::std_specs::hash::group_hash_axioms;

        match self.pending.remove(&id.0) {
            Some(waiter) => Some((waiter, CallFailure::Unsendable(reason))),
            None => {
                proof {
                    assert(self@.pending =~= old(self)@.pending);
                }
                None
            },
        }
    }

    /// No reply can arrive any more: nothing is pending, and everyone who waits gets no reply.
    pub fn close(&mut self)
        ensures
            final(self)@ == (CallsView { pending: Map::empty(), ..old(self)@ }),
    {
        broadcast use vstd::std_specs::hash::group_hash_axioms;

        self.pending.clear();
    }

    /// How many calls and questions wait for the Backend.
    pub fn pending(&self) -> (r: usize)
        ensures
            r == self@.pending.len(),
            self@.pending.dom().finite(),
    {
        broadcast use vstd::std_specs::hash::group_hash_axioms;

        self.pending.len()
    }
}

/// The id that a call gets `n` calls from now.
pub open spec fn id_after(first: u64, n: nat) -> u64
    decreases n,
{
    if n == 0 {
        first
    } else {
        following(id_after(first, (n - 1) as nat))
    }
}

proof fn lemma_id_after(first: u64, n: nat)
    ensures
        id_after(first, n) == (first + n) % 0x1_0000_0000_0000_0000,
    decreases n,
{
    if n > 0 {
        lemma_id_after(first, (n - 1) as nat);
    }
}

/// No two calls of one connection have the same id, as long as fewer than 2 to the 64th lie between
/// them.
pub proof fn law_ids_differ(first: u64, n: nat, m: nat)
    requires
        n < m,
        m - n < 0x1_0000_0000_0000_0000,
    ensures
        id_after(first, n) != id_after(first, m),
{
    lemma_id_after(first, n);
    lemma_id_after(first, m);
}

/// The first reply to a call is routed, so that one call fewer is pending, and a second one is handed
/// back.
pub proof fn law_answered_once(calls: CallsView, message: EnvelopeView, again: EnvelopeView)
    requires
        answers(calls, message),
        again.id == message.id,
    ensures
        !answers((CallsView { pending: calls.pending.remove((message.id->0).0), ..calls }), again),
        calls.pending.dom().finite() ==> calls.pending.remove((message.id->0).0).len() == calls.pending.len() - 1,
{
}

/// The ids of calls count up by one, and after the largest comes zero.
pub proof fn law_ids_count_up(id: u64)
    ensures
        following(id) == (id + 1) % 0x1_0000_0000_0000_0000,
{
}

proof fn lemma_sound_reply(fields: Seq<(WireView, WireView)>, n: int)
    requires
        0 <= n <= fields.len(),
        reply_problem(fields, n) is None,
    ensures
        n <= 1,
        n == 1 ==> fields[0].0 == WireView::String("value"@) && field(fields, "value"@, 1) == Some(fields[0].1),
    decreases n,
{
    if n > 0 {
        lemma_sound_reply(fields, n - 1);
        assert(field(fields, "value"@, 0) is None);
    }
}

/// A result is a map with the one key `value`, and its value is what the call came to; any other result is malformed.
pub proof fn law_results_have_one_value(payload: WireView, value: WireView)
    ensures
        result_value(payload) == Reply::Value(value) <==> payload is Pairs && payload->Pairs_0 == seq![
            (WireView::String("value"@), value),
        ],
        result_value(payload) is Failure ==> result_value(payload)->Failure_0 is Malformed,
{
    if payload is Pairs {
        let fields = payload->Pairs_0;
        if reply_problem(fields, fields.len() as int) is None {
            lemma_sound_reply(fields, fields.len() as int);
            if fields.len() == 1 {
                assert(fields =~= seq![(WireView::String("value"@), fields[0].1)]);
            }
        }
        if fields == seq![(WireView::String("value"@), value)] {
            assert(reply_problem(fields, 0) is None);
            assert(field(fields, "value"@, 0) is None);
            assert(reply_problem(fields, 1) is None);
        }
    }
}

/// An error fails the call with the message that it carries, if it carries one that is text.
pub proof fn law_errors_carry_their_message(message: EnvelopeView, text: Seq<char>)
    requires
        message.message_type == MessageType::Error,
    ensures
        message.payload is Pairs && message.payload->Pairs_0.len() > 0 && message.payload->Pairs_0[0] == (
            WireView::String("message"@),
            WireView::String(text),
        ) && text.len() <= 512 ==> answered(message) == Reply::Failure(CallFailureView::Failed(Some(text))),
        !(message.payload is Pairs) ==> answered(message) == Reply::Failure(CallFailureView::Failed(None)),
{
    if message.payload is Pairs && message.payload->Pairs_0.len() > 0 && message.payload->Pairs_0[0] == (
        WireView::String("message"@),
        WireView::String(text),
    ) {
        lemma_first_field(message.payload->Pairs_0, "message"@, message.payload->Pairs_0.len() as int);
    }
}

proof fn lemma_first_field(fields: Seq<(WireView, WireView)>, name: Seq<char>, n: int)
    requires
        0 < n <= fields.len(),
        fields[0].0 == WireView::String(name),
    ensures
        field(fields, name, n) == Some(fields[0].1),
    decreases n,
{
    if n > 1 {
        lemma_first_field(fields, name, n - 1);
    } else {
        assert(field(fields, name, 0) is None);
    }
}

} // verus!

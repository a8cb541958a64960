//! Which host functions an execution may call.
//!
//! A name that is not registered, a name that is registered without a blanket grant and refused by
//! the Backend's per-call handler, and every other way of not being allowed raise one and the same
//! error: a Script can never tell them apart.

use vstd::prelude::*;
use crate::table::lemma_put_distinct;
use crate::table::law_put_get;
use crate::table::distinct;
use crate::diagnostics::Category;
use crate::diagnostics::Code;
use crate::diagnostics::Diagnostic;
use crate::diagnostics::DiagnosticView;
use crate::diagnostics::Span;
use crate::diagnostics::error_of;
use crate::table::Table;
use crate::table::has_key;
use crate::table::lemma_put_keys;
use crate::table::put;
use crate::table::share;
use crate::table::value_of;
use crate::text::holds;

verus! {

/// The one error of a call that is not allowed.
pub open spec fn not_callable(name: Seq<char>, span: Span) -> DiagnosticView {
    error_of(
        Category::Capability,
        Code::UNKNOWN_FUNCTION,
        "`"@ + name + "` is not declared, and it is not a function this Script may call"@,
        span,
    )
}

fn refused_call(name: &str, span: Span) -> (r: Diagnostic)
    ensures
        r@ == not_callable(name@, span),
{
    let mut message = "`".to_owned();
    message.append(name);
    message.append("` is not declared, and it is not a function this Script may call");
    Diagnostic::error(Category::Capability, Code::UNKNOWN_FUNCTION, message, span)
}

/// The host functions that one execution may call, each with whether it holds a blanket grant.
pub struct Capabilities {
    registered: Table<bool>,
}

impl View for Capabilities {
    type V = Seq<(Seq<char>, bool)>;

    closed spec fn view(&self) -> Seq<(Seq<char>, bool)> {
        self.registered@
    }
}

/// Registrations one behind the other: of two with one name, the later counts.
pub open spec fn registrations_of(list: Seq<(String, bool)>, n: int) -> Seq<(Seq<char>, bool)>
    decreases n,
{
    if n <= 0 {
        Seq::empty()
    } else {
        put(registrations_of(list, n - 1), list[n - 1].0@, list[n - 1].1)
    }
}

/// Why a call is not allowed. Only for the Daemon's log.
#[derive(Debug, Clone, Copy, PartialEq, Eq, Hash, Structural)]
pub enum Reason {
    Unregistered,
    Refused,
    HandlerInvalid,
    HandlerFailed,
    HandlerTimeout,
    HandlerNoReply,
}

impl Reason {
    pub open spec fn spelling(self) -> Seq<char> {
        match self {
            Reason::Unregistered => "unregistered"@,
            Reason::Refused => "refused"@,
            Reason::HandlerInvalid => "handler_invalid"@,
            Reason::HandlerFailed => "handler_failed"@,
            Reason::HandlerTimeout => "handler_timeout"@,
            Reason::HandlerNoReply => "handler_no_reply"@,
        }
    }

    /// The reason as a log field.
    pub fn as_str(self) -> (r: &'static str)
        ensures
            r@ == self.spelling(),
    {
        match self {
            Reason::Unregistered => "unregistered",
            Reason::Refused => "refused",
            Reason::HandlerInvalid => "handler_invalid",
            Reason::HandlerFailed => "handler_failed",
            Reason::HandlerTimeout => "handler_timeout",
            Reason::HandlerNoReply => "handler_no_reply",
        }
    }
}

/// A call that is not allowed.
#[derive(Debug)]
pub struct Refusal {
    name: String,
    span: Span,
    reason: Reason,
}

/// A call that the Backend's per-call handler decides.
#[derive(Debug)]
pub struct Question {
    name: String,
    span: Span,
}

/// What a call that is not refused needs.
#[derive(Debug)]
pub enum Decision {
    /// It may go ahead.
    Allowed,
    /// The Backend's per-call handler is asked first.
    AskHandler(Question),
}

/// What came back from the Backend's per-call handler.
#[derive(Debug, Clone, Copy, PartialEq, Eq, Structural)]
pub enum HandlerAnswer {
    Boolean(bool),
    NotBoolean,
    Failed,
    TimedOut,
    NoReply,
}

impl Refusal {
    pub closed spec fn called(self) -> (Seq<char>, Span) {
        (self.name@, self.span)
    }

    pub closed spec fn because(self) -> Reason {
        self.reason
    }

    /// Why, for the log.
    pub fn reason(&self) -> (r: Reason)
        ensures
            r == self.because(),
    {
        self.reason
    }

    /// The Script's error: the same for every reason.
    pub fn into_diagnostic(self) -> (r: Diagnostic)
        ensures
            r@ == not_callable(self.called().0, self.called().1),
    {
        refused_call(self.name.as_str(), self.span)
    }
}

impl Question {
    pub closed spec fn asked(self) -> (Seq<char>, Span) {
        (self.name@, self.span)
    }

    /// The function that the question is about.
    pub fn name(&self) -> (r: &str)
        ensures
            r@ == self.asked().0,
    {
        self.name.as_str()
    }

    /// Turn the handler's answer into the decision: only an explicit `true` lets the call proceed.
    pub fn decide(self, answer: HandlerAnswer) -> (r: Result<(), Refusal>)
        ensures
            match answer {
                HandlerAnswer::Boolean(true) => r is Ok,
                HandlerAnswer::Boolean(false) => r matches Err(e) && e.called() == self.asked() && e.because()
                    == Reason::Refused,
                HandlerAnswer::NotBoolean => r matches Err(e) && e.called() == self.asked() && e.because()
                    == Reason::HandlerInvalid,
                HandlerAnswer::Failed => r matches Err(e) && e.called() == self.asked() && e.because()
                    == Reason::HandlerFailed,
                HandlerAnswer::TimedOut => r matches Err(e) && e.called() == self.asked() && e.because()
                    == Reason::HandlerTimeout,
                HandlerAnswer::NoReply => r matches Err(e) && e.called() == self.asked() && e.because()
                    == Reason::HandlerNoReply,
            },
    {
        let reason = match answer {
            HandlerAnswer::Boolean(allowed) => {
                if allowed {
                    return Ok(());
                }
                Reason::Refused
            },
            HandlerAnswer::NotBoolean => Reason::HandlerInvalid,
            HandlerAnswer::Failed => Reason::HandlerFailed,
            HandlerAnswer::TimedOut => Reason::HandlerTimeout,
            HandlerAnswer::NoReply => Reason::HandlerNoReply,
        };
        Err(Refusal { name: self.name, span: self.span, reason })
    }
}

impl Capabilities {
    /// Nothing is callable.
    pub fn none() -> (r: Self)
        ensures
            r@ == Seq::<(Seq<char>, bool)>::empty(),
    {
        Capabilities { registered: Table::new() }
    }

    /// The Registered Functions of a Session, by name, each callable at once.
    pub fn registered(names: Vec<String>) -> (r: Self)
        ensures
            forall|name: Seq<char>| #[trigger] has_key(r@, name) <==> holds(names@, name),
            forall|name: Seq<char>| holds(names@, name) ==> #[trigger] value_of(r@, name) == Some(true),
    {
        let mut registered: Table<bool> = Table::new();
        let mut i: usize = 0;
        while i < names.len()
            invariant
                i <= names@.len(),
                forall|name: Seq<char>| #[trigger] has_key(registered@, name) <==> holds(names@.take(i as int), name),
                forall|k: int| 0 <= k < registered@.len() ==> (#[trigger] registered@[k]).1,
            decreases names.len() - i,
        {
            let ghost before = registered@;
            registered.insert(share(names[i].as_str()), true);
            proof {
                lemma_put_keys(before, names@[i as int]@, true);
                let next = names@.take(i + 1);
                assert forall|name: Seq<char>| #[trigger] has_key(registered@, name) <==> holds(next, name) by {
                    assert(has_key(before, name) <==> holds(names@.take(i as int), name));
                    if holds(names@.take(i as int), name) {
                        let k = choose|k: int| 0 <= k < i && #[trigger] names@.take(i as int)[k]@ == name;
                        assert(next[k]@ == name);
                    }
                    if holds(next, name) {
                        let k = choose|k: int| 0 <= k < i + 1 && #[trigger] next[k]@ == name;
                        if k < i {
                            assert(names@.take(i as int)[k]@ == name);
                        }
                    }
                    if name == names@[i as int]@ {
                        assert(next[i as int]@ == name);
                    }
                }
            }
            i = i + 1;
        }
        proof {
            assert(names@.take(names@.len() as int) =~= names@);
            assert forall|name: Seq<char>| holds(names@, name) implies #[trigger] value_of(registered@, name) == Some(
                true,
            ) by {
                assert(has_key(registered@, name));
                let k = crate::table::at(registered@, name);
                assert(registered@[k].1);
            }
        }
        Capabilities { registered }
    }

    /// The Registered Functions of a Session, each with whether it holds a blanket grant.
    pub fn granted(registrations: &Vec<(String, bool)>) -> (r: Self)
        ensures
            r@ == registrations_of(registrations@, registrations@.len() as int),
    {
        let mut registered: Table<bool> = Table::new();
        let mut i: usize = 0;
        while i < registrations.len()
            invariant
                i <= registrations@.len(),
                registered@ == registrations_of(registrations@, i as int),
            decreases registrations.len() - i,
        {
            registered.insert(share(registrations[i].0.as_str()), registrations[i].1);
            i = i + 1;
        }
        Capabilities { registered }
    }

    /// Whether the host function `name` is registered; `span` is the call's.
    pub fn check_call(&self, name: &str, span: Span) -> (r: Result<(), Diagnostic>)
        ensures
            has_key(self@, name@) ==> r is Ok,
            !has_key(self@, name@) ==> (r matches Err(d) && d@ == not_callable(name@, span)),
    {
        if self.registered.find(name).is_some() {
            return Ok(());
        }
        Err(refused_call(name, span))
    }

    /// Decide whether the Script may call the host function `name`; `span` is the call's. A blanket
    /// grant lets the call proceed at once; a registration without one asks the Backend's handler.
    pub fn decide(&self, name: &str, span: Span) -> (r: Result<Decision, Refusal>)
        ensures
            match value_of(self@, name@) {
                Some(true) => r matches Ok(Decision::Allowed),
                Some(false) => r matches Ok(Decision::AskHandler(question)) && question.asked() == (name@, span),
                None => r matches Err(refusal) && refusal.called() == (name@, span) && refusal.because()
                    == Reason::Unregistered,
            },
    {
        match self.registered.get(name) {
            Some(blanket) => if *blanket {
                Ok(Decision::Allowed)
            } else {
                Ok(Decision::AskHandler(Question { name: name.to_owned(), span }))
            },
            None => Err(Refusal { name: name.to_owned(), span, reason: Reason::Unregistered }),
        }
    }
}

proof fn lemma_registered(list: Seq<(String, bool)>, n: int, name: Seq<char>)
    requires
        0 <= n <= list.len(),
    ensures
        distinct(registrations_of(list, n)),
        (forall|j: int| 0 <= j < n ==> (#[trigger] list[j]).0@ != name) ==> value_of(registrations_of(list, n), name) is None,
    decreases n,
{
    if n > 0 {
        lemma_registered(list, n - 1, name);
        lemma_put_distinct(registrations_of(list, n - 1), list[n - 1].0@, list[n - 1].1);
        law_put_get(registrations_of(list, n - 1), list[n - 1].0@, list[n - 1].1, name);
        if forall|j: int| 0 <= j < n ==> (#[trigger] list[j]).0@ != name {
            assert(list[n - 1].0@ != name);
        }
    }
}

proof fn lemma_granted(list: Seq<(String, bool)>, n: int, i: int)
    requires
        0 <= i < n <= list.len(),
        forall|j: int| i < j < n ==> (#[trigger] list[j]).0@ != list[i].0@,
    ensures
        value_of(registrations_of(list, n), list[i].0@) == Some(list[i].1),
    decreases n,
{
    lemma_registered(list, n - 1, list[i].0@);
    law_put_get(registrations_of(list, n - 1), list[n - 1].0@, list[n - 1].1, list[i].0@);
    if i < n - 1 {
        assert(list[n - 1].0@ != list[i].0@);
        lemma_granted(list, n - 1, i);
    }
}

/// What is registered may be called, under the grant that its last registration gives, and nothing else may be.
pub proof fn law_last_registration_counts(registrations: Vec<(String, bool)>, capabilities: Capabilities, name: Seq<char>, i: int)
    requires
        call_ensures(Capabilities::granted, (&registrations,), capabilities),
    ensures
        0 <= i < registrations@.len() && (forall|j: int|
            i < j < registrations@.len() ==> (#[trigger] registrations@[j]).0@ != registrations@[i].0@) ==> value_of(
            capabilities@,
            registrations@[i].0@,
        ) == Some(registrations@[i].1),
        (forall|j: int| 0 <= j < registrations@.len() ==> (#[trigger] registrations@[j]).0@ != name) ==> value_of(
            capabilities@,
            name,
        ) is None,
{
    let n = registrations@.len() as int;
    lemma_registered(registrations@, n, name);
    if 0 <= i < n && forall|j: int| i < j < n ==> (#[trigger] registrations@[j]).0@ != registrations@[i].0@ {
        lemma_granted(registrations@, n, i);
    }
}

/// A registered function with a blanket grant goes ahead, one without it is put to the Backend, and anything else is
/// refused.
pub proof fn law_grants_decide(capabilities: Capabilities, name: &str, span: Span, decision: Result<Decision, Refusal>)
    requires
        call_ensures(Capabilities::decide, (&capabilities, name, span), decision),
    ensures
        (decision matches Ok(Decision::Allowed)) <==> value_of(capabilities@, name@) == Some(true),
        (decision matches Ok(Decision::AskHandler(_))) <==> value_of(capabilities@, name@) == Some(false),
        decision is Err <==> value_of(capabilities@, name@) is None,
{
}

/// Only an explicit `true` lets a call go ahead, whatever else comes back.
pub proof fn law_only_true_allows(question: Question, answer: HandlerAnswer, decision: Result<(), Refusal>)
    requires
        call_ensures(Question::decide, (question, answer), decision),
    ensures
        decision is Ok <==> answer == HandlerAnswer::Boolean(true),
        decision matches Err(refusal) ==> refusal.called() == question.asked(),
{
}

/// A Script cannot tell one refusal from another: the error says the name and stands at the call, and nothing more.
pub proof fn law_refusals_look_alike(one: Refusal, other: Refusal, told: Diagnostic, also: Diagnostic)
    requires
        call_ensures(Refusal::into_diagnostic, (one,), told),
        call_ensures(Refusal::into_diagnostic, (other,), also),
        one.called() == other.called(),
    ensures
        told@ == also@,
        told@.code == "capability.unknown_function"@,
        told@.span == one.called().1,
        told@.message == "`"@ + one.called().0 + "` is not declared, and it is not a function this Script may call"@,
{
}

} // verus!

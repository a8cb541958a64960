//! What the Executor does between a Script's slices and its host calls.
//!
//! The Script runs in slices. Each is charged to the Resource Budget when it pauses, when it stops at
//! a host call, before anything about the call is sent, and when it finishes the Script. A host
//! call's arguments are measured, the call is charged, and only then is it decided whether it may go
//! ahead. Whoever drives the execution keeps the clock, carries the calls, and comes back with the
//! outcome.

use vstd::prelude::*;
use crate::budget::Dimension;
use crate::budget::Setting;
use crate::budget::Settings;
use crate::diagnostics::Category;
use crate::diagnostics::Code;
use crate::diagnostics::Diagnostic;
use crate::diagnostics::DiagnosticView;
use crate::diagnostics::Span;
use crate::diagnostics::error_of;
use crate::enforce::Capabilities;
use crate::enforce::Decision;
use crate::enforce::HandlerAnswer;
use crate::enforce::Question;
use crate::enforce::Reason;
use crate::enforce::Refusal;
use crate::exec::budget::Budget;
use crate::exec::budget::BudgetView;
use crate::exec::budget::Exceeded;
use crate::exec::budget::exceeded_error;
use crate::exec::wire;
use crate::exec::wire::Converted;
use crate::exec::wire::Measured;
use crate::exec::wire::Path;
use crate::exec::wire::Unsendable;
use crate::exec::wire::converted;
use crate::exec::wire::measured;
use crate::exec::wire::rendered;
use crate::exec::wire::wire_size;
use crate::exec::wire::wired;
use crate::interpreter::execution::Asked;
use crate::interpreter::execution::Execution;
use crate::interpreter::execution::HostCall;
use crate::interpreter::execution::Outcome;
use crate::interpreter::execution::Paused;
use crate::interpreter::machine::Argument;
use crate::interpreter::machine::argument_views;
use crate::interpreter::machine::resumed;
use crate::interpreter::semantics::ArgumentView;
use crate::interpreter::semantics::MachineView;
use crate::interpreter::semantics::Meter;
use crate::interpreter::semantics::StopView;
use crate::interpreter::semantics::Turn;
use crate::interpreter::value::Value;
use crate::interpreter::value::ValueView;
use crate::interpreter::value::value_type_name;
use crate::port::frame::MAX_FRAME_LEN;
use crate::rpc::CallFailure;
use crate::rpc::CallFailureView;
use crate::rpc::Reply;
use crate::rpc::reply_view;
use crate::table::value_of;
use crate::text::decimal;
use crate::text::push_decimal;
use crate::wire::Wire;
use crate::wire::WireView;
use crate::wire::items_view;

verus! {

/// How much work a Script does between two charges of CPU time.
pub const SLICE: u64 = 10_000;

/// How deep a host call's argument may nest by default.
pub const ARGUMENT_DEPTH_LIMIT: usize = 12;

/// How long the per-call handler has to answer by default, in milliseconds.
pub const AUTHORIZATION_TIMEOUT_MS: u64 = 5_000;

/// The limits that an execution runs under.
#[derive(Debug, Clone, Copy, PartialEq, Eq, Structural)]
pub struct Limits {
    pub cpu_time_ms: u64,
    pub memory_bytes: u64,
    pub allocations: u64,
    pub rpc_calls: u64,
    pub output_size: usize,
    pub side_effects: u64,
    pub argument_depth: usize,
    pub authorization_timeout_ms: u64,
}

impl Limits {
    /// The limits that settings put in force.
    pub fn from_settings(settings: &Settings) -> (r: Self)
        ensures
            r.cpu_time_ms == settings.in_force(Setting::CpuTimeMs),
            r.memory_bytes == settings.in_force(Setting::MemoryBytes),
            r.allocations == settings.in_force(Setting::Allocations),
            r.rpc_calls == settings.in_force(Setting::RpcCalls),
            r.output_size == settings.in_force(Setting::OutputSizeBytes),
            r.side_effects == settings.in_force(Setting::SideEffects),
            r.argument_depth == settings.in_force(Setting::ArgumentDepth),
            r.authorization_timeout_ms == settings.in_force(Setting::AuthorizationTimeoutMs),
    {
        Limits {
            cpu_time_ms: settings.effective(Setting::CpuTimeMs),
            memory_bytes: settings.effective(Setting::MemoryBytes),
            allocations: settings.effective(Setting::Allocations),
            rpc_calls: settings.effective(Setting::RpcCalls),
            output_size: settings.effective(Setting::OutputSizeBytes) as usize,
            side_effects: settings.effective(Setting::SideEffects),
            argument_depth: settings.effective(Setting::ArgumentDepth) as usize,
            authorization_timeout_ms: settings.effective(Setting::AuthorizationTimeoutMs),
        }
    }

    /// The meter that an execution under these limits runs with.
    pub fn meter(&self) -> (r: Meter)
        ensures
            r == (Meter {
                slice: Some(SLICE),
                memory_ceiling: Some(self.memory_bytes),
                allocation_ceiling: Some(self.allocations),
            }),
    {
        Meter {
            slice: Some(SLICE),
            memory_ceiling: Some(self.memory_bytes),
            allocation_ceiling: Some(self.allocations),
        }
    }
}

/// What an execution may reach outside itself.
pub struct Host {
    capabilities: Capabilities,
}

impl Host {
    pub closed spec fn callable(self) -> Seq<(Seq<char>, bool)> {
        self.capabilities@
    }

    /// No host at all: every host call is refused.
    pub fn none() -> (r: Self)
        ensures
            r.callable() == Seq::<(Seq<char>, bool)>::empty(),
    {
        Host { capabilities: Capabilities::none() }
    }

    /// A Session's host: its Registered Functions, each with whether it holds a blanket grant.
    pub fn new(registrations: &Vec<(String, bool)>) -> (r: Self)
        ensures
            r.callable() == crate::enforce::registrations_of(registrations@, registrations@.len() as int),
    {
        Host { capabilities: Capabilities::granted(registrations) }
    }
}

/// What waits for a slice to be charged.
pub enum Pending {
    /// The Script runs on.
    Paused(Paused),
    /// The Script's result.
    Finished(Value),
    /// A host call.
    Call(HostCall),
}

/// Where one slice left an execution.
pub enum Segment {
    /// The slice is charged to this place, and then this comes next.
    Charge(Span, Pending),
    /// The memory or the allocations exceeded their limit.
    Exceeded(Exceeded),
    /// An operator waits for arithmetic from outside.
    Asked(Asked),
}

/// Whether a slice did what it should.
pub open spec fn segmented(r: Segment, p: crate::ast::Program, whole: Span, m: MachineView, stop: StopView) -> bool {
    match stop {
        StopView::Paused(span) => r matches Segment::Charge(at, Pending::Paused(paused)) && at == span
            && paused.state() == m && paused.tree() == p,
        StopView::OutOfMemory(span) => r matches Segment::Exceeded(exceeded) && exceeded == (Exceeded {
            dimension: Dimension::Memory,
            span,
        }),
        StopView::AllocationsExceeded(span) => r matches Segment::Exceeded(exceeded) && exceeded == (Exceeded {
            dimension: Dimension::Allocations,
            span,
        }),
        StopView::Finished(value) => r matches Segment::Charge(at, Pending::Finished(result)) && at == whole
            && result@ == value,
        StopView::HostCall { name, arguments, span } => r matches Segment::Charge(at, Pending::Call(call)) && at == span
            && call.called() == name && call.passed() == arguments && call.place() == span && call.state() == m
            && call.tree() == p,
        StopView::Ask(question) => r matches Segment::Asked(asked) && asked.asked() == question && asked.state() == m
            && asked.tree() == p,
    }
}

/// Run one slice. The finishing slice is charged to the whole Script, any other to what was running.
pub fn segment(execution: Execution, budget: &Budget, whole: Span) -> (r: Result<Segment, Diagnostic>)
    ensures
        match execution@.execute(execution.program()) {
            Turn::Go(_) => false,
            Turn::Halt(m, stop) => r matches Ok(segment) && segmented(segment, execution.program(), whole, m, stop),
            Turn::Fail(failure) => r matches Err(d) && d@ == failure,
        },
{
    match execution.run()? {
        Outcome::Paused(paused) => Ok(Segment::Charge(paused.span(), Pending::Paused(paused))),
        Outcome::OutOfMemory(out) => Ok(Segment::Exceeded(budget.memory_exceeded(out.span()))),
        Outcome::AllocationsExceeded(out) => Ok(Segment::Exceeded(budget.allocations_exceeded(out.span()))),
        Outcome::Finished(result) => Ok(Segment::Charge(whole, Pending::Finished(result))),
        Outcome::HostCall(call) => Ok(Segment::Charge(call.span(), Pending::Call(call))),
        Outcome::Asked(asked) => Ok(Segment::Asked(asked)),
    }
}

/// Why an execution ended without a result.
pub enum Halt {
    /// The Script failed.
    Failed(Diagnostic),
    /// The Script exceeded a dimension of its Resource Budget.
    Exceeded(Exceeded),
}

impl Halt {
    /// What the Script's error says.
    pub open spec fn says(self) -> DiagnosticView {
        match self {
            Halt::Failed(d) => d@,
            Halt::Exceeded(exceeded) => exceeded_error(exceeded),
        }
    }

    /// The Script's error.
    pub fn into_diagnostic(self) -> (r: Diagnostic)
        ensures
            r@ == self.says(),
    {
        match self {
            Halt::Failed(d) => d,
            Halt::Exceeded(exceeded) => exceeded.into_diagnostic(),
        }
    }
}

/// What comes after a slice has been charged.
pub enum Charged {
    /// The Script runs on.
    Run(Execution),
    /// The Script ended with this result.
    Finished(Value),
    /// The Script made a host call.
    Step(Step),
}

/// How much of a frame is left for the arguments from the `n`-th on, or the first that cannot be sent.
#[verifier::ext_equal]
pub ghost enum Sending {
    Left(int),
    Refused(int, Unsendable),
}

/// Measuring the first `n` arguments, which share one frame.
pub open spec fn sending(arguments: Seq<ArgumentView>, n: int, depth: int) -> Sending
    decreases n,
{
    if n <= 0 {
        Sending::Left(MAX_FRAME_LEN as int)
    } else {
        match sending(arguments, n - 1, depth) {
            Sending::Left(budget) => match measured(arguments[n - 1].value, 0, depth, budget) {
                Measured::Left(left) => Sending::Left(left),
                Measured::Refused(reason, _) => Sending::Refused(n - 1, reason),
            },
            refused => refused,
        }
    }
}

/// The error of arguments that cannot be sent.
pub open spec fn argument_error(
    name: Seq<char>,
    span: Span,
    argument: ArgumentView,
    depth: nat,
    reason: Unsendable,
) -> DiagnosticView {
    match reason {
        Unsendable::TooDeep => error_of(
            Category::Depth,
            Code::ARGUMENT_TOO_DEEP,
            "cannot pass this "@ + value_type_name(argument.value) + " to `"@ + name + "`: it nests more than "@
                + decimal(depth) + " arrays or objects deep"@,
            argument.span,
        ),
        Unsendable::Unrepresentable => error_of(
            Category::Host,
            Code::FUNCTION_FAILED,
            "the call to `"@ + name
                + "` could not be sent: an argument holds a value with no wire representation"@,
            span,
        ),
        Unsendable::TooLarge => error_of(
            Category::Host,
            Code::FUNCTION_FAILED,
            "the call to `"@ + name + "` could not be sent: its arguments encode to more than the maximum frame of "@
                + decimal(MAX_FRAME_LEN as nat) + " bytes"@,
            span,
        ),
    }
}

/// Some arguments on the wire.
pub open spec fn wired_arguments(arguments: Seq<ArgumentView>) -> Seq<WireView> {
    Seq::new(arguments.len(), |i: int| wired(arguments[i].value))
}

proof fn lemma_stays_unsendable(arguments: Seq<ArgumentView>, k: int, n: int, depth: int)
    requires
        0 <= k <= n,
    ensures
        sending(arguments, k, depth) is Refused ==> sending(arguments, n, depth) == sending(arguments, k, depth),
    decreases n - k,
{
    if k < n {
        lemma_stays_unsendable(arguments, k, n - 1, depth);
    }
}

/// A host call's arguments on the wire, each measured first.
pub fn arguments(call: &HostCall, depth: usize) -> (r: Result<Vec<Wire>, Diagnostic>)
    ensures
        match sending(call.passed(), call.passed().len() as int, depth as int) {
            Sending::Left(_) => r matches Ok(values) && items_view(values@) == wired_arguments(call.passed()),
            Sending::Refused(i, reason) => 0 <= i < call.passed().len() && (r matches Err(d) && d@ == argument_error(
                call.called(),
                call.place(),
                call.passed()[i],
                depth as nat,
                reason,
            )),
        },
{
    let list: &Vec<Argument> = call.arguments();
    let ghost passed = argument_views(list@);
    let mut budget: usize = MAX_FRAME_LEN;
    let mut values: Vec<Wire> = Vec::new();
    let mut i: usize = 0;
    while i < list.len()
        invariant
            i <= list@.len(),
            passed == argument_views(list@),
            passed == call.passed(),
            sending(passed, i as int, depth as int) == Sending::Left(budget as int),
        decreases list.len() - i,
    {
        proof {
            assert(passed[i as int].value == list@[i as int].value@);
            lemma_stays_unsendable(passed, i + 1, passed.len() as int, depth as int);
        }
        match wire::measure(&list[i].value, depth, &mut budget) {
            Ok(()) => {},
            Err(Unsendable::TooDeep) => {
                let mut message = "cannot pass this ".to_owned();
                message.append(list[i].value.kind_name());
                message.append(" to `");
                message.append(call.name());
                message.append("`: it nests more than ");
                push_decimal(&mut message, depth as u64);
                message.append(" arrays or objects deep");
                return Err(
                    Diagnostic::error(Category::Depth, Code::ARGUMENT_TOO_DEEP, message, list[i].span),
                );
            },
            Err(Unsendable::Unrepresentable) => {
                let mut message = "the call to `".to_owned();
                message.append(call.name());
                message.append("` could not be sent: an argument holds a value with no wire representation");
                return Err(Diagnostic::error(Category::Host, Code::FUNCTION_FAILED, message, call.span()));
            },
            Err(Unsendable::TooLarge) => {
                let mut message = "the call to `".to_owned();
                message.append(call.name());
                message.append("` could not be sent: its arguments encode to more than the maximum frame of ");
                push_decimal(&mut message, MAX_FRAME_LEN as u64);
                message.append(" bytes");
                return Err(Diagnostic::error(Category::Host, Code::FUNCTION_FAILED, message, call.span()));
            },
        }
        i = i + 1;
    }
    let mut k: usize = 0;
    while k < list.len()
        invariant
            k <= list@.len(),
            values@.len() == k,
            passed == argument_views(list@),
            forall|j: int| 0 <= j < k ==> (#[trigger] values@[j])@ == wired(passed[j].value),
        decreases list.len() - k,
    {
        proof {
            assert(passed[k as int].value == list@[k as int].value@);
        }
        values.push(wire::to_wire(&list[k].value));
        k = k + 1;
    }
    proof {
        assert(items_view(values@) =~= wired_arguments(passed));
    }
    Ok(values)
}

/// Where a charged host call leaves the execution.
pub enum Step {
    /// The call may go ahead with these arguments; when there is a question, the Backend's handler
    /// decides it first.
    Call(HostCall, Vec<Wire>, Option<Question>),
    /// The call is refused.
    Refused(Refusal),
}

/// Decide a host call that has been charged.
pub fn advance(call: HostCall, arguments: Vec<Wire>, host: &Host) -> (r: Step)
    ensures
        match value_of(host.callable(), call.called()) {
            Some(true) => r matches Step::Call(same, values, None) && same == call && values == arguments,
            Some(false) => r matches Step::Call(same, values, Some(question)) && same == call && values == arguments
                && question.asked() == (call.called(), call.place()),
            None => r matches Step::Refused(refusal) && refusal.called() == (call.called(), call.place())
                && refusal.because() == Reason::Unregistered,
        },
{
    match host.capabilities.decide(call.name(), call.span()) {
        Ok(Decision::Allowed) => Step::Call(call, arguments, None),
        Ok(Decision::AskHandler(question)) => Step::Call(call, arguments, Some(question)),
        Err(refusal) => Step::Refused(refusal),
    }
}

/// Whether a host call that has been charged was decided as its host says.
pub open spec fn decided(r: Step, call: HostCall, host: Host) -> bool {
    match value_of(host.callable(), call.called()) {
        Some(blanket) => {
            &&& r matches Step::Call(same, values, question)
            &&& same == call
            &&& items_view(values@) == wired_arguments(call.passed())
            &&& question is None <==> blanket
            &&& question matches Some(question) ==> question.asked() == (call.called(), call.place())
        },
        None => r matches Step::Refused(refusal) && refusal.called() == (call.called(), call.place())
            && refusal.because() == Reason::Unregistered,
    }
}

/// Whether what comes after a slice is what should, once its time is charged and within the limit.
pub open spec fn settles(
    r: Result<Charged, Halt>,
    pending: Pending,
    span: Span,
    host: Host,
    before: BudgetView,
    after: BudgetView,
) -> bool {
    match pending {
        Pending::Paused(paused) => after == before && (r matches Ok(Charged::Run(execution)) && execution@
            == paused.state() && execution.program() == paused.tree()),
        Pending::Finished(result) => after == before && (if 7 + wire_size(result@) > before.limits.output_size {
            before.limits.output_size < usize::MAX ==> r == Err::<Charged, Halt>(
                Halt::Exceeded(Exceeded { dimension: Dimension::OutputSize, span }),
            )
        } else {
            r matches Ok(Charged::Finished(value)) && value@ == result@
        }),
        Pending::Call(call) => match sending(
            call.passed(),
            call.passed().len() as int,
            before.limits.argument_depth as int,
        ) {
            Sending::Refused(i, reason) => after == before && (r matches Err(halt) && halt is Failed && halt.says()
                == argument_error(
                call.called(),
                call.place(),
                call.passed()[i],
                before.limits.argument_depth as nat,
                reason,
            )),
            Sending::Left(_) => match before.call_crosses() {
                Some(dimension) => after == before && r == Err::<Charged, Halt>(
                    Halt::Exceeded(Exceeded { dimension, span: call.place() }),
                ),
                None => after == before.called() && (r matches Ok(Charged::Step(step)) && decided(step, call, host)),
            },
        },
    }
}

/// Charge the slice that ended at `span` with its time, and go on: the Script runs on, its result is
/// charged, or its host call is. A call is charged once its arguments can be sent, and decided once it
/// is charged; one whose arguments cannot be sent is not counted.
pub fn settle(pending: Pending, span: Span, nanos: u64, host: &Host, budget: &mut Budget) -> (r: Result<Charged, Halt>)
    ensures
        old(budget)@.worked(nanos).overworked() ==> final(budget)@ == old(budget)@.worked(nanos) && r == Err::<
            Charged,
            Halt,
        >(Halt::Exceeded(Exceeded { dimension: Dimension::CpuTime, span })),
        !old(budget)@.worked(nanos).overworked() ==> settles(
            r,
            pending,
            span,
            *host,
            old(budget)@.worked(nanos),
            final(budget)@,
        ),
{
    if let Err(exceeded) = budget.charge_cpu(nanos, span) {
        return Err(Halt::Exceeded(exceeded));
    }
    match pending {
        Pending::Paused(paused) => Ok(Charged::Run(paused.resume())),
        Pending::Finished(result) => {
            let size = wire::payload_size(&result, budget.limits().output_size);
            match budget.charge_output(size, span) {
                Ok(()) => Ok(Charged::Finished(result)),
                Err(exceeded) => Err(Halt::Exceeded(exceeded)),
            }
        },
        Pending::Call(call) => {
            let values = match arguments(&call, budget.limits().argument_depth) {
                Ok(values) => values,
                Err(d) => {
                    return Err(Halt::Failed(d));
                },
            };
            match budget.charge_rpc_call(call.span()) {
                Ok(()) => Ok(Charged::Step(advance(call, values, host))),
                Err(exceeded) => Err(Halt::Exceeded(exceeded)),
            }
        },
    }
}

/// What the per-call handler's reply, or `None` when none came in time, says.
pub open spec fn handler_says(reply: Option<Reply>) -> HandlerAnswer {
    match reply {
        None => HandlerAnswer::TimedOut,
        Some(Reply::Value(WireView::Boolean(allowed))) => HandlerAnswer::Boolean(allowed),
        Some(Reply::Value(_)) => HandlerAnswer::NotBoolean,
        Some(Reply::Failure(CallFailureView::Malformed(_))) => HandlerAnswer::NotBoolean,
        Some(Reply::Failure(CallFailureView::Failed(_))) => HandlerAnswer::Failed,
        Some(Reply::Failure(CallFailureView::Unsendable(_))) => HandlerAnswer::Failed,
        Some(Reply::Failure(CallFailureView::NoReply)) => HandlerAnswer::NoReply,
    }
}

/// What an optional reply says.
pub open spec fn optional_reply(reply: Option<Result<Wire, CallFailure>>) -> Option<Reply> {
    match reply {
        Some(reply) => Some(reply_view(reply)),
        None => None,
    }
}

/// Read the per-call handler's reply, `None` when none came in time.
pub fn handler_answer(reply: Option<Result<Wire, CallFailure>>) -> (r: HandlerAnswer)
    ensures
        r == handler_says(optional_reply(reply)),
{
    match reply {
        None => HandlerAnswer::TimedOut,
        Some(Ok(Wire::Boolean(allowed))) => HandlerAnswer::Boolean(allowed),
        Some(Ok(_)) => HandlerAnswer::NotBoolean,
        Some(Err(CallFailure::Malformed(_))) => HandlerAnswer::NotBoolean,
        Some(Err(CallFailure::Failed(_))) => HandlerAnswer::Failed,
        Some(Err(CallFailure::Unsendable(_))) => HandlerAnswer::Failed,
        Some(Err(CallFailure::NoReply)) => HandlerAnswer::NoReply,
    }
}

/// What a host call resumes the Script with, or the error that ends it.
#[verifier::ext_equal]
pub ghost enum Received {
    Value(ValueView),
    Failed(DiagnosticView),
}

pub open spec fn failed(code: &'static str, message: Seq<char>, span: Span) -> Received {
    Received::Failed(error_of(Category::Host, code, message, span))
}

/// What a reply to a host call comes to.
pub open spec fn received_reply(name: Seq<char>, span: Span, reply: Reply) -> Received {
    match reply {
        Reply::Value(value) => match converted(value, Seq::empty()) {
            Converted::Value(value) => Received::Value(value),
            Converted::Refused { at, reason } => failed(
                Code::FUNCTION_FAILED,
                "the Backend's reply to `"@ + name + "` is malformed: "@ + (rendered("value"@, at) + " "@ + reason),
                span,
            ),
        },
        Reply::Failure(CallFailureView::Failed(Some(message))) => failed(
            Code::FUNCTION_FAILED,
            "`"@ + name + "` failed on the Backend: "@ + message,
            span,
        ),
        Reply::Failure(CallFailureView::Failed(None)) => failed(
            Code::FUNCTION_FAILED,
            "`"@ + name + "` failed on the Backend"@,
            span,
        ),
        Reply::Failure(CallFailureView::Malformed(reason)) => failed(
            Code::FUNCTION_FAILED,
            "the Backend's reply to `"@ + name + "` is malformed: "@ + reason,
            span,
        ),
        Reply::Failure(CallFailureView::Unsendable(reason)) => failed(
            Code::FUNCTION_FAILED,
            "the call to `"@ + name + "` could not be sent: "@ + reason,
            span,
        ),
        Reply::Failure(CallFailureView::NoReply) => failed(
            Code::NO_REPLY,
            "the connection ended before the Backend answered the call to `"@ + name + "`"@,
            span,
        ),
    }
}

fn host_error(code: &'static str, message: String, call: &HostCall) -> (r: Diagnostic)
    ensures
        r@ == error_of(Category::Host, code, message@, call.place()),
{
    Diagnostic::error(Category::Host, code, message, call.span())
}

/// The value that a host call resumes the Script with, or the error that ends it.
pub fn received(call: &HostCall, reply: &Result<Wire, CallFailure>) -> (r: Result<Value, Diagnostic>)
    ensures
        match received_reply(call.called(), call.place(), reply_view(*reply)) {
            Received::Value(value) => r matches Ok(v) && v@ == value,
            Received::Failed(failure) => r matches Err(d) && d@ == failure,
        },
{
    match reply {
        Ok(value) => {
            let mut path = Path::reply();
            match wire::to_hexput(value, &mut path) {
                Ok(value) => Ok(value),
                Err(reason) => {
                    let mut message = "the Backend's reply to `".to_owned();
                    message.append(call.name());
                    message.append("` is malformed: ");
                    message.append(reason.as_str());
                    Err(host_error(Code::FUNCTION_FAILED, message, call))
                },
            }
        },
        Err(CallFailure::Failed(Some(reason))) => {
            let mut message = "`".to_owned();
            message.append(call.name());
            message.append("` failed on the Backend: ");
            message.append(reason.as_str());
            Err(host_error(Code::FUNCTION_FAILED, message, call))
        },
        Err(CallFailure::Failed(None)) => {
            let mut message = "`".to_owned();
            message.append(call.name());
            message.append("` failed on the Backend");
            Err(host_error(Code::FUNCTION_FAILED, message, call))
        },
        Err(CallFailure::Malformed(reason)) => {
            let mut message = "the Backend's reply to `".to_owned();
            message.append(call.name());
            message.append("` is malformed: ");
            message.append(reason.as_str());
            Err(host_error(Code::FUNCTION_FAILED, message, call))
        },
        Err(CallFailure::Unsendable(reason)) => {
            let mut message = "the call to `".to_owned();
            message.append(call.name());
            message.append("` could not be sent: ");
            message.append(reason.as_str());
            Err(host_error(Code::FUNCTION_FAILED, message, call))
        },
        Err(CallFailure::NoReply) => {
            let mut message = "the connection ended before the Backend answered the call to `".to_owned();
            message.append(call.name());
            message.append("`");
            Err(host_error(Code::NO_REPLY, message, call))
        },
    }
}

/// Resume a Script with the reply to its host call.
pub fn resume(call: HostCall, reply: &Result<Wire, CallFailure>) -> (r: Result<Execution, Diagnostic>)
    ensures
        match received_reply(call.called(), call.place(), reply_view(*reply)) {
            Received::Value(value) => r matches Ok(execution) && execution@ == resumed(call.state(), value)
                && execution.program() == call.tree(),
            Received::Failed(failure) => r matches Err(d) && d@ == failure,
        },
{
    let value = received(&call, reply)?;
    Ok(call.resume(&value))
}

} // verus!

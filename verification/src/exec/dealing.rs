//! What passes between an execution and its Backend: the values on the wire, the calls, what is decided of
//! them, and the replies.

use vstd::prelude::*;
use crate::exec::laws::law_measured;
use crate::exec::executor::sending;
use crate::text::quoted;
use crate::text::decimal;
use crate::interpreter::semantics::StopView;
use crate::interpreter::semantics::MachineView;
use crate::exec::wire::segments_text;
use crate::exec::wire::segment_text;
use crate::exec::wire::plain_key;
use crate::exec::executor::segmented;
use crate::exec::executor::Segment;
use crate::ast::Program;
use crate::exec::budget::exceeded_error;
use crate::exec::budget::Exceeded;
use crate::enforce::not_callable;
use crate::budget::Dimension;
use crate::diagnostics::Category;
use crate::diagnostics::Code;
use crate::diagnostics::Severity;
use crate::diagnostics::Span;
use crate::enforce::HandlerAnswer;
use crate::enforce::registrations_of;
use crate::envelope::CorrelationId;
use crate::envelope::MessageType;
use crate::exec::budget::BudgetView;
use crate::exec::executor::Charged;
use crate::exec::executor::Halt;
use crate::exec::executor::Host;
use crate::exec::executor::Pending;
use crate::exec::executor::Received;
use crate::exec::executor::Step;
use crate::exec::executor::decided;
use crate::exec::executor::handler_says;
use crate::exec::executor::received_reply;
use crate::exec::executor::settles;
use crate::exec::executor::wired_arguments;
use crate::exec::laws::levels;
use crate::exec::laws::law_wire_round_trip;
use crate::exec::laws::same_but_zero;
use crate::exec::wire::Converted;
use crate::exec::wire::SegmentView;
use crate::exec::wire::converted;
use crate::exec::wire::converted_items;
use crate::exec::wire::converted_pairs;
use crate::exec::wire::wired;
use crate::interpreter::execution::HostCall;
use crate::interpreter::finite::regular;
use crate::interpreter::semantics::ArgumentView;
use crate::interpreter::value::Value;
use crate::interpreter::value::ValueView;
use crate::number::EXACT_INTEGER;
use crate::number::exact_integer;
use crate::number::is_finite_bits;
use crate::port::codec::MAX_NESTING_DEPTH;
use crate::rpc::Call;
use crate::rpc::CallFailureView;
use crate::rpc::Reply;
use crate::rpc::Request;
use crate::rpc::call_message;
use crate::rpc::result_value;
use crate::table::law_put_get;
use crate::table::lemma_put_distinct;
use crate::table::value_of;
use crate::wire::WireView;
use crate::wire::items_view;

verus! {

/// What a value is on the wire: `null`, a boolean and a text as themselves; a whole number that is exact as
/// that integer and any other as its own bits; an array as the array of its items, and an object as the map of
/// its entries, each in its place and under its key.
pub proof fn law_wire_form(v: ValueView)
    ensures
        v is Null ==> wired(v) == WireView::Nil,
        v matches ValueView::Bool(b) ==> wired(v) == WireView::Boolean(b),
        v matches ValueView::String(text) ==> wired(v) == WireView::String(text),
        v matches ValueView::Number(bits) ==> match exact_integer(bits) {
            Some(n) => wired(v) == WireView::Integer(n),
            None => wired(v) == WireView::F64(bits),
        },
        v matches ValueView::Array(items) ==> (wired(v) matches WireView::Array(list) && list.len() == items.len()
            && forall|i: int| 0 <= i < items.len() ==> #[trigger] list[i] == wired(items[i])),
        v matches ValueView::Object(entries) ==> (wired(v) matches WireView::Pairs(list) && list.len() == entries.len()
            && forall|i: int|
            0 <= i < entries.len() ==> (#[trigger] list[i]).0 == WireView::String(entries[i].0) && list[i].1 == wired(
                entries[i].1,
            )),
{
}

proof fn lemma_items_form(items: Seq<WireView>, at: Seq<SegmentView>, n: int)
    requires
        0 <= n <= items.len(),
    ensures
        converted_items(items, at, n) matches Err(e) ==> e is Refused,
        converted_items(items, at, n) matches Ok(values) ==> values.len() == n && forall|i: int|
            0 <= i < n ==> converted(items[i], at.push(SegmentView::Index(i as nat))) == Converted::Value(
                #[trigger] values[i],
            ),
    decreases n,
{
    if n > 0 {
        lemma_items_form(items, at, n - 1);
    }
}

proof fn lemma_pairs_form(pairs: Seq<(WireView, WireView)>, at: Seq<SegmentView>, n: int)
    requires
        0 <= n <= pairs.len(),
    ensures
        converted_pairs(pairs, at, n) matches Err(e) ==> e is Refused,
        converted_pairs(pairs, at, n) matches Ok(entries) ==> entries.len() == n && forall|i: int|
            0 <= i < n ==> pairs[i].0 == WireView::String((#[trigger] entries[i]).0) && converted(
                pairs[i].1,
                at.push(SegmentView::Key(entries[i].0)),
            ) == Converted::Value(entries[i].1),
    decreases n,
{
    if n > 0 {
        lemma_pairs_form(pairs, at, n - 1);
    }
}

/// What a value on the wire is to a Script: the same `null`, boolean or text; a number with the value that it
/// had; an array of its items and an object of its entries, each in its place and under its key. Binary data,
/// extensions, integers that are not exact and floats that are not finite are refused.
pub proof fn law_received_form(w: WireView, at: Seq<SegmentView>)
    requires
        at.len() <= MAX_NESTING_DEPTH,
    ensures
        w is Nil ==> converted(w, at) == Converted::Value(ValueView::Null),
        w matches WireView::Boolean(b) ==> converted(w, at) == Converted::Value(ValueView::Bool(b)),
        w matches WireView::String(text) ==> converted(w, at) == Converted::Value(ValueView::String(text)),
        w matches WireView::Integer(n) ==> if -EXACT_INTEGER <= n <= EXACT_INTEGER {
            converted(w, at) matches Converted::Value(ValueView::Number(bits)) && exact_integer(bits) == Some(n)
        } else {
            converted(w, at) is Refused
        },
        w matches WireView::F64(bits) ==> if is_finite_bits(bits) {
            converted(w, at) == Converted::Value(ValueView::Number(bits))
        } else {
            converted(w, at) is Refused
        },
        w is Binary || w is Ext ==> converted(w, at) is Refused,
        w is Array && converted(w, at) is Value ==> match converted(w, at) {
            Converted::Value(ValueView::Array(values)) => values.len() == w->Array_0.len() && forall|i: int|
                0 <= i < values.len() ==> converted(w->Array_0[i], at.push(SegmentView::Index(i as nat)))
                    == Converted::Value(#[trigger] values[i]),
            _ => false,
        },
        w is Pairs && converted(w, at) is Value ==> match converted(w, at) {
            Converted::Value(ValueView::Object(entries)) => entries.len() == w->Pairs_0.len() && forall|i: int|
                0 <= i < entries.len() ==> w->Pairs_0[i].0 == WireView::String((#[trigger] entries[i]).0) && converted(
                    w->Pairs_0[i].1,
                    at.push(SegmentView::Key(entries[i].0)),
                ) == Converted::Value(entries[i].1),
            _ => false,
        },
{
    match w {
        WireView::Integer(n) => {
            if -EXACT_INTEGER <= n <= EXACT_INTEGER {
                crate::number::law_integer_bits(n);
            }
        },
        WireView::Array(items) => {
            lemma_items_form(items, at, items.len() as int);
        },
        WireView::Pairs(pairs) => {
            lemma_pairs_form(pairs, at, pairs.len() as int);
        },
        _ => {},
    }
}

/// The arguments of a host call are sent in the order in which they were passed, as many of them, each as its
/// own wire form, which converts back to it.
pub proof fn law_arguments_are_sent_in_order(passed: Seq<ArgumentView>, sent: Seq<WireView>)
    requires
        sent == wired_arguments(passed),
    ensures
        sent.len() == passed.len(),
        forall|i: int| 0 <= i < passed.len() ==> #[trigger] sent[i] == wired(passed[i].value),
        forall|i: int|
            0 <= i < passed.len() && regular(passed[i].value) && levels(passed[i].value) <= MAX_NESTING_DEPTH ==> match converted(
                #[trigger] sent[i],
                Seq::empty(),
            ) {
                Converted::Value(back) => same_but_zero(passed[i].value, back),
                _ => false,
            },
{
    assert forall|i: int|
        0 <= i < passed.len() && regular(passed[i].value) && levels(passed[i].value) <= MAX_NESTING_DEPTH implies match converted(
        #[trigger] sent[i],
        Seq::empty(),
    ) {
        Converted::Value(back) => same_but_zero(passed[i].value, back),
        _ => false,
    } by {
        law_wire_round_trip(passed[i].value, Seq::empty());
    }
}

/// The message of a call has the call's id, says whether the function is to run or only to be decided on, and
/// carries its name and its arguments, in order, and nothing else.
pub proof fn law_call_message(id: u64, call: Call)
    ensures
        call_message(id, call).id == Some(CorrelationId(id)),
        call.request == Request::Call <==> call_message(id, call).message_type == MessageType::Call,
        call.request == Request::Authorize <==> call_message(id, call).message_type == MessageType::Authorize,
        call_message(id, call).payload matches WireView::Pairs(fields) && fields.len() == 2 && fields[0] == (
            WireView::String("name"@),
            WireView::String(call.name@),
        ) && fields[1].0 == WireView::String("arguments"@) && (fields[1].1 matches WireView::Array(list) && list.len()
            == call.arguments@.len() && forall|i: int| 0 <= i < list.len() ==> #[trigger] list[i] == call.arguments@[i]@),
{
}

proof fn lemma_registered(list: Seq<(String, bool)>, n: int, name: Seq<char>)
    requires
        0 <= n <= list.len(),
    ensures
        crate::table::distinct(registrations_of(list, n)),
        match value_of(registrations_of(list, n), name) {
            Some(blanket) => exists|i: int|
                0 <= i < n && (#[trigger] list[i]).0@ == name && list[i].1 == blanket && forall|j: int|
                    i < j < n ==> (#[trigger] list[j]).0@ != name,
            None => forall|i: int| 0 <= i < n ==> (#[trigger] list[i]).0@ != name,
        },
    decreases n,
{
    if n > 0 {
        lemma_registered(list, n - 1, name);
        let before = registrations_of(list, n - 1);
        lemma_put_distinct(before, list[n - 1].0@, list[n - 1].1);
        law_put_get(before, list[n - 1].0@, list[n - 1].1, name);
        if list[n - 1].0@ == name {
            assert(value_of(registrations_of(list, n), name) == Some(list[n - 1].1));
        } else if value_of(before, name) is Some {
            let i = choose|i: int|
                0 <= i < n - 1 && (#[trigger] list[i]).0@ == name && Some(list[i].1) == value_of(before, name) && forall|j: int|
                    i < j < n - 1 ==> (#[trigger] list[j]).0@ != name;
            assert(list[i].0@ == name);
        }
    }
}

/// A call is let through when, and only when, its function is registered; its Backend's handler is asked first
/// when, and only when, the last registration of that name has no blanket grant. What is let through is the
/// call that was made, with its arguments in order; what is not is refused.
pub proof fn law_registered_functions_are_called(step: Step, call: HostCall, host: Host, list: Seq<(String, bool)>)
    requires
        host.callable() == registrations_of(list, list.len() as int),
        decided(step, call, host),
    ensures
        step is Call <==> exists|i: int| 0 <= i < list.len() && (#[trigger] list[i]).0@ == call.called(),
        step matches Step::Call(made, values, question) ==> {
            &&& made == call
            &&& values@.len() == call.passed().len()
            &&& forall|i: int| 0 <= i < values@.len() ==> (#[trigger] values@[i])@ == wired(call.passed()[i].value)
            &&& exists|i: int|
                0 <= i < list.len() && (#[trigger] list[i]).0@ == call.called() && question is None == list[i].1 && forall|j: int|
                    i < j < list.len() ==> (#[trigger] list[j]).0@ != call.called()
            &&& question matches Some(asked) ==> asked.asked() == (call.called(), call.place())
        },
{
    lemma_registered(list, list.len() as int, call.called());
    if let Step::Call(made, values, question) = step {
        assert(items_view(values@).len() == values@.len());
        assert(items_view(values@) == wired_arguments(call.passed()));
        assert forall|i: int| 0 <= i < values@.len() implies (#[trigger] values@[i])@ == wired(call.passed()[i].value) by {
            assert(items_view(values@)[i] == values@[i]@);
        }
    }
}

/// Only an explicit `true` of the handler lets a call proceed; what it says is taken as it is, and no reply, a
/// failure or another value is never a yes.
pub proof fn law_only_true_is_a_yes(reply: Option<Reply>)
    ensures
        handler_says(reply) == HandlerAnswer::Boolean(true) <==> reply == Some(Reply::Value(WireView::Boolean(true))),
        handler_says(reply) == HandlerAnswer::Boolean(false) <==> reply == Some(Reply::Value(WireView::Boolean(false))),
        handler_says(reply) == HandlerAnswer::TimedOut <==> reply is None,
        handler_says(reply) == HandlerAnswer::NoReply <==> reply == Some(Reply::Failure(CallFailureView::NoReply)),
{
}

/// A reply says a value when, and only when, it is a result whose payload is a map with the one key `value`,
/// and then it says what is under it.
pub proof fn law_result_message(payload: WireView, said: WireView)
    ensures
        payload == WireView::Pairs(seq![(WireView::String("value"@), said)]) ==> result_value(payload) == Reply::Value(said),
        result_value(payload) == Reply::Value(said) ==> (payload matches WireView::Pairs(fields) && fields.len() == 1
            && fields[0] == (WireView::String("value"@), said)),
{
    if let WireView::Pairs(fields) = payload {
        if crate::rpc::reply_problem(fields, fields.len() as int) is None {
            lemma_result_fields(fields, fields.len() as int);
        }
        reveal_with_fuel(crate::rpc::reply_problem, 2);
        reveal_with_fuel(crate::port::codec::field, 2);
        if fields.len() >= 1 {
            assert(fields =~= seq![fields[0]] + fields.skip(1));
        }
    }
}

proof fn lemma_result_fields(fields: Seq<(WireView, WireView)>, n: int)
    requires
        0 <= n <= fields.len(),
        crate::rpc::reply_problem(fields, n) is None,
    ensures
        n <= 1,
        n == 1 ==> fields[0].0 == WireView::String("value"@),
    decreases n,
{
    if n > 0 {
        lemma_result_fields(fields, n - 1);
        if n == 2 {
            reveal_with_fuel(crate::port::codec::field, 2);
        }
    }
}

/// What a reply resumes the Script with is the value that it says, converted; a failure, or a value that cannot
/// be converted, ends it with an error of the host at the call, and only a lost connection is one without reply.
pub proof fn law_reply_resumes_or_fails(name: Seq<char>, span: Span, reply: Reply)
    ensures
        received_reply(name, span, reply) matches Received::Value(v) ==> (reply matches Reply::Value(w) && converted(
            w,
            Seq::empty(),
        ) == Converted::Value(v)),
        reply matches Reply::Value(w) ==> (converted(w, Seq::empty()) matches Converted::Value(v) ==> received_reply(
            name,
            span,
            reply,
        ) == Received::Value(v)),
        received_reply(name, span, reply) matches Received::Failed(d) ==> d.severity == Severity::Error && d.category
            == Category::Host && d.span == span && (d.code == Code::NO_REPLY@ || d.code == Code::FUNCTION_FAILED@),
        reply == Reply::Failure(CallFailureView::NoReply) ==> (received_reply(name, span, reply) matches Received::Failed(d)
            && d.code == Code::NO_REPLY@),
        reply is Failure && reply != Reply::Failure(CallFailureView::NoReply) ==> (received_reply(name, span, reply)
            matches Received::Failed(d) && d.code == Code::FUNCTION_FAILED@),
{
}

/// A host call that goes ahead has used up one call and one side effect, and nothing else; it goes ahead only
/// while fewer were used than the limits say.
pub proof fn law_calls_are_counted(
    r: Result<Charged, Halt>,
    call: HostCall,
    span: Span,
    host: Host,
    before: BudgetView,
    after: BudgetView,
)
    requires
        settles(r, Pending::Call(call), span, host, before, after),
    ensures
        r is Ok ==> before.rpc_calls < before.limits.rpc_calls && before.side_effects < before.limits.side_effects
            && after.rpc_calls == before.rpc_calls + 1 && after.side_effects == before.side_effects + 1 && after.spent
            == before.spent && after.limits == before.limits,
        r is Err ==> after == before,
        before.rpc_calls >= before.limits.rpc_calls || before.side_effects >= before.limits.side_effects ==> r is Err,
        r matches Ok(Charged::Step(Step::Call(made, values, question))) ==> made == call && values@.len()
            == call.passed().len() && forall|i: int|
            0 <= i < values@.len() ==> (#[trigger] values@[i])@ == wired(call.passed()[i].value),
        r matches Ok(done) ==> done is Step,
{
    if let Ok(Charged::Step(Step::Call(made, values, question))) = r {
        assert(items_view(values@).len() == values@.len());
        assert(items_view(values@) == wired_arguments(call.passed()));
        assert forall|i: int| 0 <= i < values@.len() implies (#[trigger] values@[i])@ == wired(call.passed()[i].value) by {
            assert(items_view(values@)[i] == values@[i]@);
        }
    }
}

/// A result that is handed on is the Script's own, and none of the budget is used for it.
pub proof fn law_results_are_handed_on(
    r: Result<Charged, Halt>,
    result: Value,
    span: Span,
    host: Host,
    before: BudgetView,
    after: BudgetView,
)
    requires
        settles(r, Pending::Finished(result), span, host, before, after),
    ensures
        after == before,
        before.limits.output_size < usize::MAX && r is Ok ==> (r matches Ok(Charged::Finished(v)) && v@ == result@),
        before.limits.output_size < usize::MAX && r is Err ==> (r matches Err(Halt::Exceeded(e)) && e.dimension
            == crate::budget::Dimension::OutputSize && e.span == span),
        before.limits.output_size < usize::MAX ==> (r is Ok <==> 7 + crate::exec::wire::wire_size(result@)
            <= before.limits.output_size),
{
}

/// The work of slices adds up to the limit: one millisecond is a million nanoseconds, and an execution is
/// stopped once it has worked for more than its milliseconds.
pub proof fn law_cpu_time(budget: BudgetView, nanos: u64)
    requires
        budget.spent + nanos <= u64::MAX,
    ensures
        budget.worked(nanos).spent == budget.spent + nanos,
        budget.worked(nanos).rpc_calls == budget.rpc_calls,
        budget.worked(nanos).side_effects == budget.side_effects,
        budget.worked(nanos).limits == budget.limits,
        budget.worked(nanos).overworked() <==> budget.spent + nanos > budget.limits.cpu_time_ms * 1_000_000,
{
}

/// What an execution that used up one of its limits is told.
pub proof fn law_exceeded(e: Exceeded)
    ensures
        exceeded_error(e).severity == Severity::Error,
        exceeded_error(e).category == Category::Budget,
        exceeded_error(e).span == e.span,
        exceeded_error(e).code == (match e.dimension {
            Dimension::CpuTime => "budget.cpu_time_exceeded"@,
            Dimension::Memory => "budget.memory_exceeded"@,
            Dimension::Allocations => "budget.allocations_exceeded"@,
            Dimension::RpcCalls => "budget.rpc_calls_exceeded"@,
            Dimension::OutputSize => "budget.output_size_exceeded"@,
            Dimension::SideEffects => "budget.side_effects_exceeded"@,
        }),
        e.dimension.spelling() == (match e.dimension {
            Dimension::CpuTime => "cpu_time"@,
            Dimension::Memory => "memory"@,
            Dimension::Allocations => "allocations"@,
            Dimension::RpcCalls => "rpc_calls"@,
            Dimension::OutputSize => "output_size"@,
            Dimension::SideEffects => "side_effects"@,
        }),
{
}

/// What a Script is told of a call that it may not make: the same for every reason.
pub proof fn law_refused_call(name: Seq<char>, span: Span)
    ensures
        not_callable(name, span).severity == Severity::Error,
        not_callable(name, span).category == Category::Capability,
        not_callable(name, span).code == "capability.unknown_function"@,
        not_callable(name, span).message == "`"@ + name + "` is not declared, and it is not a function this Script may call"@,
        not_callable(name, span).span == span,
{
}

/// How the place of a value in a payload is written: a plain key behind a dot, any other in brackets and quotes, and an
/// index in brackets.
pub proof fn law_places(segment: SegmentView, root: Seq<char>, segments: Seq<SegmentView>, n: int)
    requires
        0 <= n < segments.len(),
    ensures
        segment matches SegmentView::Index(i) ==> segment_text(segment) == "["@ + decimal(i) + "]"@,
        segment matches SegmentView::Key(key) ==> key.len() <= 64 ==> segment_text(segment) == if plain_key(key) {
            "."@ + key
        } else {
            "["@ + quoted(key) + "]"@
        },
        segments_text(segments, n + 1) == segments_text(segments, n) + segment_text(segments[n]),
        segments_text(segments, 0) == Seq::<char>::empty(),
{
}

/// What a slice of an execution left is what comes next: more of the Script, its result, its host call with the
/// arguments that it passes, or a limit that it crossed.
pub proof fn law_segments(r: Segment, p: Program, whole: Span, m: MachineView, stop: StopView)
    requires
        segmented(r, p, whole, m, stop),
    ensures
        match r {
            Segment::Charge(at, Pending::Paused(paused)) => stop == StopView::Paused(at) && paused.state() == m,
            Segment::Charge(at, Pending::Finished(result)) => stop == StopView::Finished(result@) && at == whole,
            Segment::Charge(at, Pending::Call(call)) => (stop matches StopView::HostCall { name, arguments, span } && name
                == call.called() && arguments == call.passed() && span == at && call.state() == m),
            Segment::Exceeded(e) => (e.dimension == Dimension::Memory && stop == StopView::OutOfMemory(e.span)) || (e.dimension
                == Dimension::Allocations && stop == StopView::AllocationsExceeded(e.span)),
            Segment::Asked(asked) => stop == StopView::Ask(asked.asked()) && asked.state() == m,
        },
{
}

/// The bounds that everything keeps to.
pub proof fn law_bounds()
    ensures
        EXACT_INTEGER == 9_007_199_254_740_992,
        MAX_NESTING_DEPTH == 128,
        crate::exec::wire::MAX_RESULT_DEPTH == 126,
        crate::port::frame::MAX_FRAME_LEN == 16_777_216,
        crate::exec::executor::SLICE == 10_000,
        crate::exec::executor::ARGUMENT_DEPTH_LIMIT == 12,
        crate::exec::executor::AUTHORIZATION_TIMEOUT_MS == 5_000,
        crate::interpreter::semantics::CALL_DEPTH_LIMIT == 1_024,
{
}

proof fn lemma_all_sendable(arguments: Seq<ArgumentView>, n: int, depth: int, i: int)
    requires
        0 <= i < n <= arguments.len(),
        0 <= depth,
        sending(arguments, n, depth) is Left,
    ensures
        levels(arguments[i].value) <= depth,
        sending(arguments, n, depth)->Left_0 <= 16_777_216,
    decreases n,
{
    let before = sending(arguments, n - 1, depth)->Left_0;
    if n > 1 && i < n - 1 {
        lemma_all_sendable(arguments, n - 1, depth, i);
    } else if n > 1 {
        lemma_all_sendable(arguments, n - 1, depth, 0);
    }
    lemma_left(arguments, n - 1, depth);
    law_measured(arguments[n - 1].value, 0, depth, before);
}

proof fn lemma_left(arguments: Seq<ArgumentView>, n: int, depth: int)
    requires
        0 <= n <= arguments.len(),
        0 <= depth,
        sending(arguments, n, depth) is Left,
    ensures
        0 <= sending(arguments, n, depth)->Left_0 <= 16_777_216,
    decreases n,
{
    if n > 0 {
        lemma_left(arguments, n - 1, depth);
        law_measured(arguments[n - 1].value, 0, depth, sending(arguments, n - 1, depth)->Left_0);
    }
}

/// A call whose arguments nest deeper than the limit is never made: the Script fails, and nothing is counted.
pub proof fn law_deep_arguments_are_refused(
    r: Result<Charged, Halt>,
    call: HostCall,
    span: Span,
    host: Host,
    before: BudgetView,
    after: BudgetView,
    i: int,
)
    requires
        settles(r, Pending::Call(call), span, host, before, after),
        0 <= i < call.passed().len(),
        levels(call.passed()[i].value) > before.limits.argument_depth,
    ensures
        r is Err,
        after == before,
{
    if sending(call.passed(), call.passed().len() as int, before.limits.argument_depth as int) is Left {
        lemma_all_sendable(call.passed(), call.passed().len() as int, before.limits.argument_depth as int, i);
    }
}

} // verus!

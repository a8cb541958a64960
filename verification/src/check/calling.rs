//! That a call which the walk reports for its number of arguments fails when a run gets to it.

use vstd::prelude::*;
use crate::ast::ExprId;
use crate::ast::ExpressionKind;
use crate::ast::Program;
use crate::ast::Statement;
use crate::check::Policy;
use crate::check::arities::arity_in;
use crate::check::arities::declared_once;
use crate::check::arities::grounded;
use crate::check::arities::lemma_settled_walk;
use crate::check::arities::lemma_sure;
use crate::check::failing::blames_call;
use crate::check::failing::environment;
use crate::check::failing::lemma_environment;
use crate::check::failing::lemma_reported;
use crate::check::failing::lemma_unseen;
use crate::check::failing::met_once;
use crate::check::failing::miscalls;
use crate::check::reaching::lemma_reached;
use crate::check::reaching::nothing;
use crate::check::reaching::reached;
use crate::check::reaching::walks;
use crate::check::running::lemma_worth;
use crate::check::seeing::in_sight;
use crate::check::seeing::lemma_sight;
use crate::check::seeing::sight;
use crate::check::seeing::visits;
use crate::check::sight::Labels;
use crate::check::sight::Sight;
use crate::check::sight::abides;
use crate::check::sight::assured;
use crate::check::sight::clear;
use crate::check::sight::fine;
use crate::check::sight::labelled;
use crate::check::sight::leaves;
use crate::check::sight::only;
use crate::check::sight::runs;
use crate::check::sight::worth;
use crate::check::stacking::law_arguments_leave_the_callee;
use crate::check::stacking::law_functions_last;
use crate::check::stacking::works_above;
use crate::check::visits::Tour;
use crate::check::visits::calls_name;
use crate::check::visits::lemma_resolved;
use crate::check::walk::Binding;
use crate::check::walk::JobView;
use crate::check::walk::begun;
use crate::check::walk::found;
use crate::diagnostics::Code;
use crate::diagnostics::DiagnosticView;
use crate::interpreter::heap::HeapView;
use crate::interpreter::heap::SlotId;
use crate::interpreter::lasting::good;
use crate::interpreter::lasting::law_step_lasts;
use crate::interpreter::scopes::around;
use crate::interpreter::scopes::chained;
use crate::interpreter::scopes::linked;
use crate::interpreter::scopes::outward;
use crate::interpreter::semantics::Chain;
use crate::interpreter::semantics::Frame;
use crate::interpreter::semantics::MachineView;
use crate::interpreter::semantics::Turn;
use crate::interpreter::semantics::chain_links;
use crate::interpreter::semantics::evals;
use crate::interpreter::value::ValueView;
use crate::table::at;
use crate::table::has_key;
use vstd::set_lib::lemma_int_range;
use vstd::set_lib::lemma_len_subset;
use vstd::set_lib::set_int_range;

verus! {

/// Whether a finding is about the number of arguments of the call that an access starts with.
pub open spec fn reports_call(p: Program, id: ExprId, finding: DiagnosticView) -> bool {
    exists|name: Seq<char>, taken: nat| #[trigger] miscalls(p, id, name, taken, finding)
}

/// Whether the walk finds the name that an access calls bound `k` scopes out.
pub open spec fn found_out(t: Tour, id: ExprId, name: Seq<char>, k: nat) -> bool {
    exists|n: nat|
        #[trigger] visits(t, n, JobView::Expression(id)) && t.after(n).jobs.last() == JobView::Expression(id)
            && t.after(n).resolve(name) == Some(t.after(n).scopes.len() - 1 - k)
}

/// Whether the scope `k` scopes out of a scope binds a name.
pub open spec fn bound_out(heap: HeapView, scope: SlotId, name: Seq<char>, k: nat) -> bool {
    outward(heap, scope, k) matches Some(owner) && has_key(heap.bindings(owner), name)
}

/// A chain of scopes has no more of them than the heap has slots.
proof fn lemma_depth(p: Program, s: Sight, l: Labels, heap: HeapView, id: SlotId, k: nat, seen: Set<int>)
    requires
        labelled(p, s, l, heap),
        chained(heap),
        heap.slot(id) is Scope,
        outward(heap, id, k) is Some,
        seen.finite(),
        forall|x: int| #[trigger] seen.contains(x) ==> 0 <= x < heap.slots.len() && l.ages(id) < l.ages(SlotId(x as usize)) && x
            <= usize::MAX,
    ensures
        k + seen.len() < heap.slots.len(),
    decreases k,
{
    let here = id.0 as int;
    assert(SlotId(here as usize) == id);
    assert(0 <= here < heap.slots.len());
    if seen.contains(here) {
        assert(l.ages(id) < l.ages(SlotId(here as usize)));
    }
    let now = seen.insert(here);
    assert(now.len() == seen.len() + 1);
    let all = set_int_range(0, heap.slots.len() as int);
    lemma_int_range(0, heap.slots.len() as int);
    assert(now.subset_of(all));
    lemma_len_subset(now, all);
    if k > 0 {
        if let Some(outer) = around(heap, id) {
            assert(linked(heap, id));
            assert forall|x: int| #[trigger] now.contains(x) implies 0 <= x < heap.slots.len() && l.ages(outer) < l.ages(
                SlotId(x as usize),
            ) && x <= usize::MAX by {
                if x != here {
                    assert(seen.contains(x));
                    assert(l.ages(id) < l.ages(SlotId(x as usize)));
                }
            }
            lemma_depth(p, s, l, heap, outer, (k - 1) as nat, now);
        }
    }
}

/// A name is found in the first scope that binds it.
proof fn lemma_found_out(heap: HeapView, name: Seq<char>, id: SlotId, k: nat, fuel: nat)
    requires
        chained(heap),
        heap.slot(id) is Scope,
        clear(heap, name, id, k),
        bound_out(heap, id, name, k),
        k < fuel,
    ensures
        heap.resolve_within(id, name, fuel) == outward(heap, id, k),
    decreases k,
{
    if k > 0 {
        if let Some(outer) = around(heap, id) {
            assert(linked(heap, id));
            lemma_found_out(heap, name, outer, (k - 1) as nat, (fuel - 1) as nat);
        }
    }
}

/// The scope `k` scopes out is one that binds the name to functions with `a` parameters only.
proof fn lemma_assured_out(l: Labels, heap: HeapView, id: SlotId, k: nat, a: usize)
    requires
        chained(heap),
        heap.slot(id) is Scope,
        assured(l, heap, id, k, a),
    ensures
        outward(heap, id, k) matches Some(owner) ==> heap.slot(owner) is Scope && l.sures(owner, a),
    decreases k,
{
    if k > 0 {
        if let Some(outer) = around(heap, id) {
            assert(linked(heap, id));
            lemma_assured_out(l, heap, outer, (k - 1) as nat, a);
        }
    }
}

/// The name that a reported call is about stands for a function with another number of parameters, wherever
/// a run has the base of the call still to do, or what is behind it, and the scope that the walk found the
/// name in binds it.
proof fn lemma_called(
    t: Tour,
    end: nat,
    values: Seq<(Seq<char>, ValueView)>,
    i: int,
    id: ExprId,
    base: ExprId,
    name: Seq<char>,
    k: nat,
    m: MachineView,
) -> (taken: usize)
    requires
        t.p.wf(),
        t.p.acyclic(),
        t.done(end),
        0 <= i < t.after(end).findings.len(),
        reports_call(t.p, id, t.after(end).findings[i]),
        forall|other: ExprId| #[trigger] reports_call(t.p, other, t.after(end).findings[i]) ==> other == id,
        calls_name(t.p, id, base),
        t.p.expr(base).kind matches ExpressionKind::Identifier(node) && node.name@ == name,
        environment(t.names, values),
        reached(t.p, values, m),
        met_once(t, JobView::Expression(base)),
        declared_once(t.p, name),
        found_out(t, id, name, k),
        bound_out(m.heap, m.scope, name, k),
        m.frames.len() > 0,
        runs(t.p, m.frames.last(), JobView::Expression(base)),
        !(m.frames.last() is Statement),
        !leaves(m.frames.last()),
    ensures
        miscalls(t.p, id, name, taken as nat, t.after(end).findings[i]),
        m.heap.lookup(m.scope, name) matches Some(value) && worth(t.p, m.heap, m.functions, value, taken),
{
    let p = t.p;
    let finding = t.after(end).findings[i];
    let job = JobView::Expression(base);
    let n = lemma_reported(t, end, i);
    let v = t.after(n);
    let (_, _) = choose|called: Seq<char>, taken: nat| #[trigger] miscalls(p, id, called, taken, finding);
    assert(finding.code == Code::ARGUMENT_COUNT@);
    let x = v.jobs.last()->Expression_0;
    assert(blames_call(p, v, x, finding));
    let (called, binding, taken) = choose|called: Seq<char>, binding: Binding, taken: usize|
        #![trigger miscalls(p, x, called, taken as nat, finding), binding.arity]
        miscalls(p, x, called, taken as nat, finding) && v.reached(called) == Some(binding) && binding.arity == Some(taken)
            && v.awaits(called) is None;
    assert(reports_call(p, x, finding));
    assert(x == id);
    assert(miscalls(p, id, called, taken as nat, finding));
    assert(called == name);
    assert(visits(t, n, job));
    let w = choose|w: nat|
        #[trigger] visits(t, w, JobView::Expression(id)) && t.after(w).jobs.last() == JobView::Expression(id) && t.after(
            w,
        ).resolve(name) == Some(t.after(w).scopes.len() - 1 - k);
    assert(visits(t, w, job));
    assert(w == n);
    let owned = v.scopes.len() - 1 - k;
    lemma_resolved(v.scopes, name, v.scopes.len() as int);
    let s = sight(t, name);
    lemma_sight(t, end, name);
    lemma_environment(t, values);
    lemma_reached(p, s, values, t.seed(), m);
    let l = choose|l: Labels| abides(p, s, l, m);
    assert(s.hides(job, k)) by {
        lemma_unseen(v, name, k);
    }
    assert(s.knows(job, k, taken)) by {
        lemma_settled_walk(t, n);
        assert(grounded(p, v.scopes[owned]));
        assert(arity_in(v.scopes[owned], name) == Some(taken));
        lemma_sure(p, v.scopes[owned], name, taken);
        assert(in_sight(p, v.scopes, name, k, taken));
    }
    assert(fine(p, s, l, m.heap, m.frames.last(), m.scope));
    assert(clear(m.heap, name, m.scope, k));
    assert(assured(l, m.heap, m.scope, k, taken));
    lemma_assured_out(l, m.heap, m.scope, k, taken);
    lemma_depth(p, s, l, m.heap, m.scope, k, Set::empty());
    lemma_found_out(m.heap, name, m.scope, k, m.heap.slots.len());
    if let Some(owner) = outward(m.heap, m.scope, k) {
        let entries = m.heap.bindings(owner);
        assert(only(p, m.heap, m.functions, entries, name, taken));
        assert(entries[at(entries, name)].0 == name);
    }
    taken
}

/// The call of a name that is reported for its number of arguments finds, wherever a run of the Script gets
/// to it and the scope that the walk found the name in binds it, a function with just the other number of
/// parameters that the report gives.
///
/// Every starting variable of the run is one that the walk was told of. Left out are trees that no text has,
/// as for a name that is read, and a block that declares the name twice, which is reported as well: the later
/// declaration may be a function that takes the arguments.
pub proof fn law_reported_call_finds_its_function(
    p: Program,
    names: Seq<String>,
    values: Seq<(Seq<char>, ValueView)>,
    policy: Policy,
    callables: Option<Seq<String>>,
    findings: Seq<DiagnosticView>,
    i: int,
    id: ExprId,
    base: ExprId,
    name: Seq<char>,
    k: nat,
    m: MachineView,
)
    requires
        p.wf(),
        p.acyclic(),
        found(p, names, policy, callables, findings),
        0 <= i < findings.len(),
        reports_call(p, id, findings[i]),
        calls_name(p, id, base),
        p.expr(base).kind matches ExpressionKind::Identifier(node) && node.name@ == name,
        environment(names, values),
        reached(p, values, m),
        m.frames.len() > 0,
        m.frames.last() == Frame::Eval(base),
        found_out(Tour { p, names, policy, callables }, id, name, k),
        bound_out(m.heap, m.scope, name, k),
        forall|other: ExprId| #[trigger] reports_call(p, other, findings[i]) ==> other == id,
        met_once(Tour { p, names, policy, callables }, JobView::Expression(base)),
        declared_once(p, name),
    ensures
        m.taken().step(p, Frame::Eval(base)) matches Turn::Go(after) && exists|taken: usize|
            #[trigger] worth(p, after.heap, after.functions, after.top(), taken) && miscalls(
                p,
                id,
                name,
                taken as nat,
                findings[i],
            ),
{
    let t = Tour { p, names, policy, callables };
    let end = choose|n: nat|
        (#[trigger] begun(p, names).steps(p, policy, callables, n)).jobs.len() == 0 && begun(p, names).steps(
            p,
            policy,
            callables,
            n,
        ).findings == findings;
    assert(t.after(end) == begun(p, names).steps(p, policy, callables, end));
    assert(t.done(end));
    assert(runs(p, Frame::Eval(base), JobView::Expression(base)));
    let taken = lemma_called(t, end, values, i, id, base, name, k, m);
    if let Turn::Go(after) = m.taken().step(p, Frame::Eval(base)) {
        assert(worth(p, after.heap, after.functions, after.top(), taken));
    }
}

/// What two steps make of a machine.
pub open spec fn two_steps(p: Program, m: MachineView) -> Option<MachineView> {
    match m.taken().step(p, m.frames.last()) {
        Turn::Go(one) => match one.taken().step(p, one.frames.last()) {
            Turn::Go(two) => Some(two),
            _ => None,
        },
        _ => None,
    }
}

/// A call of a name that is reported for its number of arguments fails with that report: wherever a run of the
/// Script gets to the name, and the scope that the walk found the name in binds it, the run goes on to the
/// arguments, and when they have been evaluated the call fails.
///
/// Left out is what is left out for the function that the call finds.
pub proof fn law_reported_call_fails(
    p: Program,
    names: Seq<String>,
    values: Seq<(Seq<char>, ValueView)>,
    policy: Policy,
    callables: Option<Seq<String>>,
    findings: Seq<DiagnosticView>,
    i: int,
    id: ExprId,
    base: ExprId,
    name: Seq<char>,
    k: nat,
    m: MachineView,
    end: usize,
    in_target: bool,
    trace: Seq<MachineView>,
    last: MachineView,
)
    requires
        p.wf(),
        p.acyclic(),
        found(p, names, policy, callables, findings),
        0 <= i < findings.len(),
        reports_call(p, id, findings[i]),
        calls_name(p, id, base),
        p.expr(base).kind matches ExpressionKind::Identifier(node) && node.name@ == name,
        environment(names, values),
        reached(p, values, m),
        m.suspended is None,
        m.frames.len() > 1,
        m.frames.last() == Frame::Eval(base),
        m.frames[m.frames.len() - 2] == (Frame::Link { chain: Chain { access: id, end }, index: 0, in_target }),
        end > 0,
        found_out(Tour { p, names, policy, callables }, id, name, k),
        bound_out(m.heap, m.scope, name, k),
        forall|other: ExprId| #[trigger] reports_call(p, other, findings[i]) ==> other == id,
        met_once(Tour { p, names, policy, callables }, JobView::Expression(base)),
        declared_once(p, name),
    ensures
        two_steps(p, m) matches Some(first) && (walks(p, first, trace, last) && works_above(trace, (m.frames.len() - 1) as nat)
            && last.suspended is None && last.frames.len() == m.frames.len() - 1 ==> last.taken().step(p, last.frames.last())
            == Turn::Fail(findings[i])),
{
    let t = Tour { p, names, policy, callables };
    let over = choose|n: nat|
        (#[trigger] begun(p, names).steps(p, policy, callables, n)).jobs.len() == 0 && begun(p, names).steps(
            p,
            policy,
            callables,
            n,
        ).findings == findings;
    assert(t.after(over) == begun(p, names).steps(p, policy, callables, over));
    assert(t.done(over));
    let chain = Chain { access: id, end };
    let link = Frame::Link { chain, index: 0, in_target };
    assert(runs(p, m.frames.last(), JobView::Expression(base)));
    let taken = lemma_called(t, over, values, i, id, base, name, k, m);
    let value = m.heap.lookup(m.scope, name)->0;
    let one = m.taken().give(value);
    assert(m.taken().step(p, m.frames.last()) == Turn::Go(one));
    assert(one.frames.last() == link);
    let links = p.expr(id).kind->Access_links;
    assert(chain_links(p, chain)[0] == links@[0]);
    let arguments = links@[0].kind->Call_arguments;
    let count = arguments.len();
    let invoke = Frame::Invoke { chain, index: 0, in_target, arguments: arguments@.len() as usize };
    let before = one.taken().push(invoke);
    assert(one.top() == value);
    let first = before.push_all(evals(arguments@));
    assert(one.taken().step(p, link) == Turn::Go(first));
    if walks(p, first, trace, last) && works_above(trace, (m.frames.len() - 1) as nat) && last.suspended is None
        && last.frames.len() == m.frames.len() - 1 {
        law_arguments_leave_the_callee(p, before, arguments@, trace, last);
        lemma_two_steps_last(p, t, over, values, name, m, first);
        law_functions_last(p, first, trace, last);
        lemma_worth(p, m.heap, last.heap, m.functions, last.functions, value, taken);
        let rest = last.taken();
        let n = before.values.len() as int;
        assert(before.values[n - 1] == value);
        assert(last.values.take(n)[n - 1] == last.values[n - 1]);
        assert(rest.pops(count as int).top() == value);
        assert(rest.tops(count as int).len() == count);
        assert(last.frames.last() == invoke);
    }
}

/// The machine that has the arguments of a call to do is as sound as the one before.
proof fn lemma_two_steps_last(
    p: Program,
    t: Tour,
    end: nat,
    values: Seq<(Seq<char>, ValueView)>,
    name: Seq<char>,
    m: MachineView,
    first: MachineView,
)
    requires
        t.p == p,
        t.done(end),
        p.wf(),
        environment(t.names, values),
        reached(p, values, m),
        m.frames.len() > 1,
        two_steps(p, m) == Some(first),
        m.taken().step(p, m.frames.last()) matches Turn::Go(one) && one.frames.len() > 0,
    ensures
        good(nothing(), first),
{
    let s = sight(t, name);
    lemma_sight(t, end, name);
    lemma_environment(t, values);
    lemma_reached(p, s, values, t.seed(), m);
    let one = m.taken().step(p, m.frames.last())->Go_0;
    assert(m.taken().push(m.frames.last()).frames =~= m.frames);
    assert(good(nothing(), m.taken().push(m.frames.last())));
    law_step_lasts(nothing(), p, m.taken(), m.frames.last());
    if one.frames.len() > 0 {
        assert(one.taken().push(one.frames.last()).frames =~= one.frames);
        assert(good(nothing(), one.taken().push(one.frames.last())));
        law_step_lasts(nothing(), p, one.taken(), one.frames.last());
    }
}

} // verus!

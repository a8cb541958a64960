//! That a run keeps to what is known of a name when it enters a block: what the block never binds stays
//! unbound, and what its statements need hidden is hidden until they run.

use vstd::prelude::*;
use crate::ast::BlockId;
use crate::ast::Function;
use crate::ast::Program;
use crate::ast::Statement;
use crate::ast::StatementKind;
use crate::check::running::among;
use crate::check::running::calm;
use crate::check::running::lasting;
use crate::check::running::lemma_declared_still;
use crate::check::running::lemma_housed;
use crate::check::running::lemma_made;
use crate::check::running::lemma_only_among;
use crate::check::running::lemma_same_frames;
use crate::check::running::lemma_suits;
use crate::check::running::lemma_worth;
use crate::check::running::sized;
use crate::check::sight::Labels;
use crate::check::sight::Sight;
use crate::check::sight::abides;
use crate::check::sight::agree_but;
use crate::check::sight::alike_but;
use crate::check::sight::arity_of;
use crate::check::sight::assured;
use crate::check::sight::below;
use crate::check::sight::blank;
use crate::check::sight::carried;
use crate::check::sight::clear;
use crate::check::sight::consistent;
use crate::check::sight::deadens;
use crate::check::sight::fine;
use crate::check::sight::functions;
use crate::check::sight::hoists;
use crate::check::sight::housed;
use crate::check::sight::housed_at;
use crate::check::sight::leaves;
use crate::check::sight::lemma_around;
use crate::check::sight::lemma_fine_carried;
use crate::check::sight::lemma_fresh;
use crate::check::sight::lemma_older;
use crate::check::sight::lemma_resettled;
use crate::check::sight::lets;
use crate::check::sight::lets_at;
use crate::check::sight::may_bind;
use crate::check::sight::never;
use crate::check::sight::only;
use crate::check::sight::over_block;
use crate::check::sight::over_named;
use crate::check::sight::over_statement;
use crate::check::sight::runs;
use crate::check::sight::seeded;
use crate::check::sight::settled;
use crate::check::sight::shape;
use crate::check::sight::skipped;
use crate::check::sight::soiled;
use crate::check::sight::suits;
use crate::check::sight::suits_body;
use crate::check::sight::sure;
use crate::check::sight::worth;
use crate::check::walk::JobView;
use crate::check::walk::body_job;
use crate::check::walk::first_terminator;
use crate::check::walk::reassigned;
use crate::check::walk::terminator;
use crate::diagnostics::Span;
use crate::interpreter::heap::HeapView;
use crate::interpreter::heap::RtView;
use crate::interpreter::heap::SlotId;
use crate::interpreter::heap::SlotView;
use crate::interpreter::keeping::lemma_small;
use crate::interpreter::lasting::good;
use crate::interpreter::lasting::homed;
use crate::interpreter::lasting::lemma_bound_name;
use crate::interpreter::lasting::lemma_function_made;
use crate::interpreter::scopes::around;
use crate::interpreter::scopes::chained;
use crate::interpreter::semantics::FnAt;
use crate::interpreter::semantics::Frame;
use crate::interpreter::semantics::MachineView;
use crate::interpreter::semantics::StmtAt;
use crate::interpreter::semantics::definition_of;
use crate::interpreter::semantics::function_at;
use crate::interpreter::semantics::scheduled;
use crate::interpreter::semantics::statement_at;
use crate::table::has_key;
use crate::table::lemma_put_keys;

verus! {

/// A heap with another scope, in which only what a block starts with is bound.
pub open spec fn unfolds(a: HeapView, b: HeapView, new: SlotId, parent: Option<SlotId>, seed: Seq<(Seq<char>, Span)>, name: Seq<char>) -> bool {
    &&& !(a.slot(new) is Scope)
    &&& !(a.slot(new) is Function)
    &&& forall|id: SlotId| id != new ==> #[trigger] b.slot(id) == a.slot(id)
    &&& b.slot(new) is Scope
    &&& around(b, new) == parent
    &&& parent matches Some(outer) ==> a.slot(outer) is Scope
    &&& has_key(b.bindings(new), name) ==> seeded(seed, name)
}

/// The labels with those of a new scope.
pub open spec fn relabelled(p: Program, s: Sight, l: Labels, new: SlotId, statements: Seq<Statement>, seed: Seq<(Seq<char>, Span)>) -> Labels {
    l.with(new, soiled(statements, seed, s.name), |a: usize| sure(p, statements, seed, s.name, a))
}

/// What is known of a heap stays known with another scope.
pub proof fn lemma_unfold(
    p: Program,
    s: Sight,
    l: Labels,
    a: HeapView,
    b: HeapView,
    list: Seq<FnAt>,
    new: SlotId,
    parent: Option<SlotId>,
    statements: Seq<Statement>,
    seed: Seq<(Seq<char>, Span)>,
)
    requires
        calm(p, s, l, a, list),
        chained(a),
        homed(a),
        unfolds(a, b, new, parent, seed, s.name),
    ensures
        calm(p, s, relabelled(p, s, l, new, statements, seed), b, list),
        forall|id: SlotId| a.slot(id) is Scope ==> #[trigger] carried(
            s,
            l,
            a,
            relabelled(p, s, l, new, statements, seed),
            b,
            id,
        ),
{
    let m = relabelled(p, s, l, new, statements, seed);
    assert(agree_but(l, m, new));
    assert(alike_but(a, b, s.name, new)) by {
        assert forall|id: SlotId| id != new implies #[trigger] shape(b, s.name, id) == shape(a, s.name, id) by {
            assert(b.slot(id) == a.slot(id));
        }
    }
    lemma_fresh(s, l, a, m, b, new);
    assert forall|id: SlotId| (#[trigger] b.slot(id)) is Scope implies m.ages(id) < m.next && (has_key(
        b.bindings(id),
        s.name,
    ) ==> m.soils(id)) && (around(b, id) matches Some(outer) ==> m.ages(outer) < m.ages(id)) by {
        if id != new {
            assert(b.slot(id) == a.slot(id));
            assert(a.slot(id) is Scope);
            if let Some(outer) = around(a, id) {
                assert(crate::interpreter::scopes::linked(a, id)) by {
                    assert(around(a, id) == around(a, id));
                }
                assert(outer != new);
                assert(l.ages(outer) < l.ages(id));
            }
        } else if let Some(outer) = parent {
            assert(a.slot(outer) is Scope);
            assert(outer != new);
            assert(l.ages(outer) < l.next);
        }
    }
    assert forall|id: SlotId, n: usize| #[trigger] m.sures(id, n) implies !reassigned(p, s.name) by {
        if id != new {
            assert(l.sures(id, n));
        }
    }
    assert(lasting(a, b)) by {
        assert forall|id: SlotId| (#[trigger] a.slot(id)) is Function implies b.slot(id) == a.slot(id) by {}
    }
    assert forall|id: SlotId, n: usize| b.slot(id) is Scope && #[trigger] m.sures(id, n) implies only(
        p,
        b,
        list,
        b.bindings(id),
        s.name,
        n,
    ) by {
        let entries = b.bindings(id);
        if id != new {
            assert(b.slot(id) == a.slot(id));
            assert(l.sures(id, n));
            assert(only(p, a, list, entries, s.name, n));
            assert(among(entries, entries, s.name)) by {
                assert forall|i: int| 0 <= i < entries.len() && (#[trigger] entries[i]).0 == s.name implies exists|j: int|
                    0 <= j < entries.len() && #[trigger] entries[j] == entries[i] by {}
            }
            lemma_only_among(p, a, b, list, list, entries, entries, s.name, n);
        } else {
            assert(!seeded(seed, s.name));
            assert(!has_key(entries, s.name));
        }
    }
    assert forall|id: SlotId| (#[trigger] b.slot(id)) is Function implies housed_at(p, s, m, b, list, id) by {
        assert(id != new);
        assert(b.slot(id) == a.slot(id));
        if let SlotView::Function { definition, scope } = a.slot(id) {
            assert(a.captured(scope));
            lemma_housed(p, s, l, a, m, b, list, list, definition, scope);
        }
    }
}

/// The frames of the scope in which the name is bound, and those below.
proof fn lemma_bound_frames(
    p: Program,
    s: Sight,
    l: Labels,
    a: HeapView,
    b: HeapView,
    frames: Seq<Frame>,
    scope: SlotId,
    dead: bool,
)
    requires
        settled(p, s, l, a, frames, scope, dead),
        blank(p, s, frames, dead),
        forall|id: SlotId| a.slot(id) is Scope && l.ages(id) < l.ages(scope) ==> #[trigger] carried(s, l, a, l, b, id),
        forall|id: SlotId, k: nat| #[trigger] never(l, b, id, k) == never(l, a, id, k),
        forall|id: SlotId, k: nat, n: usize| #[trigger] assured(l, b, id, k, n) == assured(l, a, id, k, n),
        a.slot(scope) is Scope,
        b.slot(scope) is Scope,
    ensures
        settled(p, s, l, b, frames, scope, dead),
    decreases frames.len(),
{
    if frames.len() > 0 {
        let frame = frames.last();
        let rest = frames.drop_last();
        let id = below(frame, scope);
        if leaves(frame) {
            assert(carried(s, l, a, l, b, id));
            lemma_fine_carried(p, s, l, a, l, b, frame, id);
            lemma_resettled(p, s, l, a, l, b, rest, id, deadens(p, frame, dead), l.ages(scope));
        } else {
            if !skipped(frame, dead) {
                assert(fine(p, s, l, b, frame, id)) by {
                    assert forall|job: JobView| #[trigger] runs(p, frame, job) implies s.lives(job) && suits(s, l, b, job, id) by {
                        assert(suits(s, l, a, job, id));
                        assert forall|k: nat| #[trigger] s.hides(job, k) implies clear(b, s.name, id, k) by {
                            assert(k == 0);
                        }
                        assert forall|k: nat| #[trigger] s.bars(job, k) implies never(l, b, id, k) by {
                            assert(never(l, a, id, k));
                        }
                        assert forall|k: nat, n: usize| #[trigger] s.knows(job, k, n) implies assured(l, b, id, k, n) by {
                            assert(assured(l, a, id, k, n));
                        }
                    }
                    if let Frame::AssignName(target) = frame {
                        assert forall|k: nat| #[trigger] s.aims(target, k) implies clear(b, s.name, id, k) by {
                            assert(k == 0);
                        }
                    }
                }
            }
            lemma_bound_frames(p, s, l, a, b, rest, id, deadens(p, frame, dead));
        }
    }
}

/// Binding the name in the current scope.
pub proof fn lemma_bound_top(
    p: Program,
    s: Sight,
    l: Labels,
    heap: HeapView,
    list: Seq<FnAt>,
    frames: Seq<Frame>,
    scope: SlotId,
    value: RtView,
)
    requires
        calm(p, s, l, heap, list),
        chained(heap),
        homed(heap),
        heap.slot(scope) is Scope,
        l.soils(scope),
        forall|n: usize| #[trigger] l.sures(scope, n) ==> worth(p, heap, list, value, n),
        settled(p, s, l, heap, frames, scope, false),
        blank(p, s, frames, false),
    ensures
        calm(p, s, l, heap.declared(scope, s.name, value), list),
        settled(p, s, l, heap.declared(scope, s.name, value), frames, scope, false),
        heap.declared(scope, s.name, value).slot(scope) is Scope,
        forall|id: SlotId| #[trigger] around(heap.declared(scope, s.name, value), id) == around(heap, id),
        forall|id: SlotId| heap.slot(id) is Scope && l.ages(id) < l.ages(scope) ==> #[trigger] carried(
            s,
            l,
            heap,
            l,
            heap.declared(scope, s.name, value),
            id,
        ),
{
    let after = heap.declared(scope, s.name, value);
    if let SlotView::Scope { bindings, parent, captured } = heap.slot(scope) {
        lemma_put_keys(bindings, s.name, value);
        assert forall|id: SlotId| id != scope implies #[trigger] after.slot(id) == heap.slot(id) by {}
        assert forall|id: SlotId| #[trigger] around(after, id) == around(heap, id) by {
            if id != scope {
                assert(after.slot(id) == heap.slot(id));
            }
        }
        assert(alike_but(heap, after, s.name, scope)) by {
            assert forall|id: SlotId| id != scope implies #[trigger] shape(after, s.name, id) == shape(heap, s.name, id) by {
                assert(after.slot(id) == heap.slot(id));
            }
        }
        lemma_around(l, heap, after);
        lemma_older(p, s, l, heap, after, scope);
        lemma_bound_frames(p, s, l, heap, after, frames, scope, false);
        assert forall|id: SlotId| (#[trigger] after.slot(id)) is Scope implies l.ages(id) < l.next && (has_key(
            after.bindings(id),
            s.name,
        ) ==> l.soils(id)) && (around(after, id) matches Some(outer) ==> l.ages(outer) < l.ages(id)) by {
            assert(around(after, id) == around(heap, id));
            if id != scope {
                assert(after.slot(id) == heap.slot(id));
            }
            assert(heap.slot(id) is Scope);
        }
        assert(lasting(heap, after)) by {
            assert forall|id: SlotId| (#[trigger] heap.slot(id)) is Function implies after.slot(id) == heap.slot(id) by {}
        }
        assert forall|id: SlotId, n: usize| after.slot(id) is Scope && #[trigger] l.sures(id, n) implies only(
            p,
            after,
            list,
            after.bindings(id),
            s.name,
            n,
        ) by {
            if id != scope {
                assert(after.slot(id) == heap.slot(id));
            }
            let entries = heap.bindings(id);
            assert(only(p, heap, list, entries, s.name, n));
            let now = after.bindings(id);
            assert forall|i: int| 0 <= i < now.len() && (#[trigger] now[i]).0 == s.name implies worth(p, after, list, now[i].1, n) by {
                if i < entries.len() && now[i] == entries[i] {
                    assert(worth(p, heap, list, entries[i].1, n));
                    lemma_worth(p, heap, after, list, list, now[i].1, n);
                } else {
                    assert(now[i].1 == value);
                    lemma_worth(p, heap, after, list, list, value, n);
                }
            }
        }
        assert forall|id: SlotId| (#[trigger] after.slot(id)) is Function implies housed_at(p, s, l, after, list, id) by {
            assert(id != scope);
            assert(after.slot(id) == heap.slot(id));
            if let SlotView::Function { definition, scope: home } = heap.slot(id) {
                assert(housed(p, s, l, heap, list, definition, home));
                if let Some(function) = function_at(p, list[definition as int]) {
                    let job = body_job(p, function);
                    assert(suits_body(s, l, heap, job, home));
                    assert forall|k: nat| #[trigger] s.hides(job, k) implies never(l, after, home, k) by {
                        assert(never(l, heap, home, k));
                    }
                    assert forall|k: nat| #[trigger] s.bars(job, k) implies never(l, after, home, k) by {
                        assert(never(l, heap, home, k));
                    }
                    assert forall|k: nat, n: usize| #[trigger] s.knows(job, k, n) implies assured(l, after, home, k, n) by {
                        assert(assured(l, heap, home, k, n));
                    }
                }
            }
        }
    }
}

/// Whether the slots that are free are among those of the heap.
pub open spec fn roomy(heap: HeapView) -> bool {
    forall|i: int| 0 <= i < heap.free.len() ==> (#[trigger] heap.free[i]).0 < heap.slots.len()
}

/// An allocation takes a slot that is free, or a new one.
pub proof fn lemma_roomy(heap: HeapView, slot: SlotView)
    requires
        roomy(heap),
    ensures
        roomy(heap.allocated(slot)),
        heap.slots.len() <= heap.allocated(slot).slots.len(),
{
    let after = heap.allocated(slot);
    if heap.free.len() > 0 {
        assert(heap.free[heap.free.len() - 1].0 < heap.slots.len());
        assert forall|i: int| 0 <= i < after.free.len() implies (#[trigger] after.free[i]).0 < after.slots.len() by {
            assert(after.free[i] == heap.free[i]);
        }
    }
}

proof fn lemma_mark_len(heap: HeapView, scope: SlotId, fuel: nat)
    ensures
        heap.mark_within(scope, fuel).slots.len() == heap.slots.len(),
        heap.mark_within(scope, fuel).free == heap.free,
    decreases fuel,
{
    if fuel > 0 {
        if let SlotView::Scope { bindings, parent, captured } = heap.slot(scope) {
            if !captured {
                if let Some(outer) = parent {
                    lemma_mark_len(
                        heap.with(scope, SlotView::Scope { bindings, parent, captured: true }),
                        outer,
                        (fuel - 1) as nat,
                    );
                }
            }
        }
    }
}

/// Making functions takes slots and gives none back.
pub proof fn lemma_hoisted_grows(p: Program, m: MachineView, block: Option<BlockId>, k: int)
    requires
        0 <= k,
        roomy(m.heap),
    ensures
        m.heap.slots.len() <= m.hoisted(p, block, k).heap.slots.len(),
        m.functions.len() <= m.hoisted(p, block, k).functions.len(),
        m.hoisted(p, block, k).frames == m.frames,
        m.hoisted(p, block, k).scope == m.scope,
        m.hoisted(p, block, k).suspended == m.suspended,
    decreases p.statements_of(block).len() - k,
{
    if k < p.statements_of(block).len() {
        match p.statements_of(block)[k].kind {
            StatementKind::Function { name, .. } => {
                let at = FnAt::Declared(StmtAt { block, index: k as usize });
                let made = m.function_made(at);
                lemma_mark_len(m.heap, m.scope, m.heap.slots.len());
                let marked = m.heap.marked(m.scope);
                let definition = definition_of(m.functions, at, 0);
                lemma_roomy(marked, SlotView::Function { definition: definition as usize, scope: m.scope });
                let next = MachineView {
                    heap: made.heap.declared(m.scope, name.name@, m.function_value()),
                    ..made
                };
                lemma_hoisted_grows(p, next, block, k + 1);
            },
            _ => {
                lemma_hoisted_grows(p, m, block, k + 1);
            },
        }
    }
}

/// What holds of a machine that has entered a block, while it makes the block's functions.
pub open spec fn inside_block(
    p: Program,
    s: Sight,
    l: Labels,
    m: MachineView,
    statements: Seq<Statement>,
    seed: Seq<(Seq<char>, Span)>,
    body: bool,
) -> bool {
    let whole = JobView::Open { statements, seed, body };
    &&& calm(p, s, l, m.heap, m.functions)
    &&& settled(p, s, l, m.heap, m.frames, m.scope, false)
    &&& m.frames.len() == 0 || leaves(m.frames.last())
    &&& m.heap.slot(m.scope) is Scope
    &&& l.soils(m.scope) == soiled(statements, seed, s.name)
    &&& forall|a: usize| #[trigger] l.sures(m.scope, a) == sure(p, statements, seed, s.name, a)
    &&& around(m.heap, m.scope) matches Some(outer) ==> m.heap.slot(outer) is Scope && suits(s, l, m.heap, whole, outer)
    &&& has_key(m.heap.bindings(m.scope), s.name) ==> seeded(seed, s.name) || hoists(statements, s.name)
}

/// What a body is known by holds of the scope of its block.
proof fn lemma_named_suits(
    p: Program,
    s: Sight,
    l: Labels,
    m: MachineView,
    statements: Seq<Statement>,
    seed: Seq<(Seq<char>, Span)>,
    body: bool,
    function: Function,
)
    requires
        inside_block(p, s, l, m, statements, seed, body),
        over_named(p, s, statements, seed, body, function),
    ensures
        suits_body(s, l, m.heap, body_job(p, function), m.scope),
{
    let job = body_job(p, function);
    let whole = JobView::Open { statements, seed, body };
    assert forall|k: nat| #[trigger] s.hides(job, k) implies never(l, m.heap, m.scope, k) by {
        if k > 0 {
            assert(s.bars(whole, (k - 1) as nat));
        }
    }
    assert forall|k: nat| #[trigger] s.bars(job, k) implies never(l, m.heap, m.scope, k) by {
        if k > 0 {
            assert(s.bars(whole, (k - 1) as nat));
        }
    }
    assert forall|k: nat, n: usize| #[trigger] s.knows(job, k, n) implies assured(l, m.heap, m.scope, k, n) by {
        if k > 0 {
            assert(s.knows(whole, (k - 1) as nat, n));
        } else {
            assert(l.sures(m.scope, n) == sure(p, statements, seed, s.name, n));
        }
    }
}

#[verifier::spinoff_prover]
pub proof fn lemma_hoist(
    p: Program,
    s: Sight,
    l: Labels,
    before: HeapView,
    m: MachineView,
    block: Option<BlockId>,
    seed: Seq<(Seq<char>, Span)>,
    body: bool,
    k: int,
)
    requires
        inside_block(p, s, l, m, p.statements_of(block), seed, body),
        over_block(p, s, p.statements_of(block), seed, body),
        good(before, m),
        roomy(m.heap),
        sized(m.hoisted(p, block, k)),
        p.has_body(block),
        0 <= k,
    ensures
        inside_block(p, s, l, m.hoisted(p, block, k), p.statements_of(block), seed, body),
    decreases p.statements_of(block).len() - k,
{
    let statements = p.statements_of(block);
    let whole = JobView::Open { statements, seed, body };
    lemma_hoisted_grows(p, m, block, k);
    lemma_small(p, block);
    if k < statements.len() {
        match statements[k].kind {
            StatementKind::Function { name, function } => {
                let at = FnAt::Declared(StmtAt { block, index: k as usize });
                let made = m.function_made(at);
                let value = m.function_value();
                let next = MachineView { heap: made.heap.declared(m.scope, name.name@, value), ..made };
                lemma_mark_len(m.heap, m.scope, m.heap.slots.len());
                let definition = definition_of(m.functions, at, 0);
                lemma_roomy(
                    m.heap.marked(m.scope),
                    SlotView::Function { definition: definition as usize, scope: m.scope },
                );
                lemma_hoisted_grows(p, next, block, k + 1);
                assert(function_at(p, at) == Some(function));
                lemma_function_made(before, m, at);
                lemma_bound_name(before, made, m.scope, name.name@, value);
                lemma_named_suits(p, s, l, m, statements, seed, body, function);
                lemma_made(p, s, l, m, at, function);
                assert(made.heap.slots.len() == next.heap.slots.len());
                assert(carried(s, l, m.heap, l, made.heap, m.scope));
                lemma_resettled(p, s, l, m.heap, l, made.heap, m.frames, m.scope, false, l.next);
                assert(shape(made.heap, s.name, m.scope) == shape(m.heap, s.name, m.scope));
                if let Some(outer) = around(m.heap, m.scope) {
                    assert(carried(s, l, m.heap, l, made.heap, outer));
                    lemma_suits(s, l, m.heap, l, made.heap, whole, outer);
                }
                if name.name@ == s.name {
                    assert(functions(statements[k], s.name));
                    assert(hoists(statements, s.name));
                    assert forall|n: usize| #[trigger] l.sures(m.scope, n) implies worth(
                        p,
                        made.heap,
                        made.functions,
                        value,
                        n,
                    ) by {
                        assert(l.sures(m.scope, n) == sure(p, statements, seed, s.name, n));
                    }
                    lemma_bound_top(p, s, l, made.heap, made.functions, m.frames, m.scope, value);
                    if let Some(outer) = around(made.heap, m.scope) {
                        assert(l.ages(outer) < l.ages(m.scope));
                        assert(carried(s, l, made.heap, l, next.heap, outer));
                        lemma_suits(s, l, made.heap, l, next.heap, whole, outer);
                    }
                    assert(around(next.heap, m.scope) == around(made.heap, m.scope));
                } else {
                    lemma_declared_still(made.heap, m.scope, name.name@, value, s.name);
                    lemma_same_frames(
                        p,
                        s,
                        l,
                        made.heap,
                        next.heap,
                        made.functions,
                        made.functions,
                        m.frames,
                        m.scope,
                        false,
                    );
                    assert(shape(next.heap, s.name, m.scope) == shape(made.heap, s.name, m.scope));
                    if let Some(outer) = around(made.heap, m.scope) {
                        assert(carried(s, l, made.heap, l, next.heap, outer));
                        lemma_suits(s, l, made.heap, l, next.heap, whole, outer);
                    }
                }
                lemma_hoist(p, s, l, before, next, block, seed, body, k + 1);
            },
            _ => {
                lemma_hoist(p, s, l, before, m, block, seed, body, k + 1);
            },
        }
    }
}

/// Where the first statement that ends a block is.
pub proof fn lemma_terminator(statements: Seq<Statement>, k: int)
    requires
        0 <= k <= statements.len(),
    ensures
        k <= first_terminator(statements, k) <= statements.len(),
        forall|i: int| k <= i < first_terminator(statements, k) ==> terminator((#[trigger] statements[i]).kind) is None,
        first_terminator(statements, k) < statements.len() ==> terminator(
            statements[first_terminator(statements, k)].kind,
        ) is Some,
    decreases statements.len() - k,
{
    if k < statements.len() && terminator(statements[k].kind) is None {
        lemma_terminator(statements, k + 1);
    }
}

/// The frames of the statements from `i` on.
pub open spec fn from_statement(base: Seq<Frame>, block: Option<BlockId>, n: nat, i: int) -> Seq<Frame> {
    base + scheduled(block, n).take(n - i)
}

proof fn lemma_from_statement(base: Seq<Frame>, block: Option<BlockId>, n: nat, i: int)
    requires
        0 <= i < n <= usize::MAX,
    ensures
        from_statement(base, block, n, i).len() > 0,
        from_statement(base, block, n, i).last() == Frame::Statement(StmtAt { block, index: i as usize }),
        from_statement(base, block, n, i).drop_last() == from_statement(base, block, n, i + 1),
{
    let all = from_statement(base, block, n, i);
    assert(all.drop_last() =~= from_statement(base, block, n, i + 1));
}

/// Behind a `let` of the name no statement needs it hidden.
proof fn lemma_blank_behind(
    p: Program,
    s: Sight,
    base: Seq<Frame>,
    block: Option<BlockId>,
    seed: Seq<(Seq<char>, Span)>,
    body: bool,
    j: int,
    i: int,
)
    requires
        over_block(p, s, p.statements_of(block), seed, body),
        p.statements_of(block).len() <= usize::MAX,
        base.len() == 0 || leaves(base.last()),
        0 <= j < i <= p.statements_of(block).len(),
        lets_at(p.statements_of(block), j, s.name),
    ensures
        blank(
            p,
            s,
            from_statement(base, block, p.statements_of(block).len(), i),
            i > first_terminator(p.statements_of(block), 0),
        ),
    decreases p.statements_of(block).len() - i,
{
    let statements = p.statements_of(block);
    let n = statements.len();
    let last = first_terminator(statements, 0);
    lemma_terminator(statements, 0);
    if i == n {
        assert(from_statement(base, block, n, i) =~= base);
    } else {
        lemma_from_statement(base, block, n, i);
        lemma_blank_behind(p, s, base, block, seed, body, j, i + 1);
        let frame = Frame::Statement(StmtAt { block, index: i as usize });
        assert(statement_at(p, StmtAt { block, index: i as usize }) == statements[i]);
        if i <= last {
            assert(over_statement(p, s, statements, seed, body, i));
            assert forall|job: JobView, k: nat|
                #![trigger runs(p, frame, job), s.hides(job, k)]
                runs(p, frame, job) && k > 0 implies !s.hides(job, k) by {
                if s.hides(job, k) {
                    assert(lets(statements[j], s.name));
                }
            }
        }
    }
}

#[verifier::spinoff_prover]
proof fn lemma_scheduled(
    p: Program,
    s: Sight,
    l: Labels,
    m: MachineView,
    block: Option<BlockId>,
    seed: Seq<(Seq<char>, Span)>,
    body: bool,
    i: int,
)
    requires
        inside_block(p, s, l, m, p.statements_of(block), seed, body),
        over_block(p, s, p.statements_of(block), seed, body),
        p.statements_of(block).len() <= usize::MAX,
        0 <= i <= p.statements_of(block).len(),
    ensures
        settled(
            p,
            s,
            l,
            m.heap,
            from_statement(m.frames, block, p.statements_of(block).len(), i),
            m.scope,
            i > first_terminator(p.statements_of(block), 0),
        ),
    decreases p.statements_of(block).len() - i,
{
    let statements = p.statements_of(block);
    let whole = JobView::Open { statements, seed, body };
    let n = statements.len();
    let last = first_terminator(statements, 0);
    lemma_terminator(statements, 0);
    if i == n {
        assert(from_statement(m.frames, block, n, i) =~= m.frames);
    } else {
        lemma_from_statement(m.frames, block, n, i);
        lemma_scheduled(p, s, l, m, block, seed, body, i + 1);
        let at = StmtAt { block, index: i as usize };
        let frame = Frame::Statement(at);
        assert(statement_at(p, at) == statements[i]);
        if i <= last {
            assert(over_statement(p, s, statements, seed, body, i));
            let piece = JobView::Statement(statements[i]);
            assert(suits(s, l, m.heap, piece, m.scope)) by {
                assert forall|k: nat| #[trigger] s.hides(piece, k) implies clear(m.heap, s.name, m.scope, k) by {
                    if k > 0 {
                        assert(s.hides(whole, (k - 1) as nat));
                    }
                }
                assert forall|k: nat| #[trigger] s.bars(piece, k) implies never(l, m.heap, m.scope, k) by {
                    if k > 0 {
                        assert(s.bars(whole, (k - 1) as nat));
                    }
                }
                assert forall|k: nat, a: usize| #[trigger] s.knows(piece, k, a) implies assured(l, m.heap, m.scope, k, a) by {
                    if k > 0 {
                        assert(s.knows(whole, (k - 1) as nat, a));
                    } else {
                        assert(l.sures(m.scope, a) == sure(p, statements, seed, s.name, a));
                    }
                }
            }
            assert(fine(p, s, l, m.heap, frame, m.scope));
            let rest = from_statement(m.frames, block, n, i + 1);
            assert(may_bind(p, s, l, frame, m.scope, rest, false)) by {
                if lets(statements[i], s.name) {
                    assert(lets_at(statements, i, s.name));
                    lemma_blank_behind(p, s, m.frames, block, seed, body, i, i + 1);
                    assert(i < last);
                    assert forall|a: usize| #[trigger] l.sures(m.scope, a) implies arity_of(p, statements[i]) == Some(a) by {
                        assert(l.sures(m.scope, a) == sure(p, statements, seed, s.name, a));
                    }
                }
            }
        }
    }
}

/// A machine that has entered a block keeps to what is known when it makes the block's functions and
/// schedules its statements.
pub proof fn lemma_block(
    p: Program,
    s: Sight,
    l: Labels,
    before: HeapView,
    m: MachineView,
    block: Option<BlockId>,
    seed: Seq<(Seq<char>, Span)>,
    body: bool,
)
    requires
        consistent(p, s),
        s.lives(JobView::Open { statements: p.statements_of(block), seed, body }),
        inside_block(p, s, l, m, p.statements_of(block), seed, body),
        good(before, m),
        roomy(m.heap),
        sized(m.opened(p, block)),
        p.has_body(block),
        m.suspended is None,
    ensures
        abides(p, s, l, m.opened(p, block)),
{
    let statements = p.statements_of(block);
    assert(over_block(p, s, statements, seed, body));
    lemma_small(p, block);
    lemma_hoisted_grows(p, m, block, 0);
    lemma_hoist(p, s, l, before, m, block, seed, body, 0);
    let ready = m.hoisted(p, block, 0);
    lemma_terminator(statements, 0);
    lemma_scheduled(p, s, l, ready, block, seed, body, 0);
    assert(from_statement(ready.frames, block, statements.len(), 0) =~= m.opened(p, block).frames);
}

} // verus!

//! That every step of a run keeps to what is known of a name.

use vstd::prelude::*;
use crate::ast::AccessKind;
use crate::ast::BlockId;
use crate::ast::ExprId;
use crate::ast::ExpressionKind;
use crate::ast::Function;
use crate::ast::Program;
use crate::ast::StatementKind;
use crate::check::entering::inside_block;
use crate::check::entering::lemma_block;
use crate::check::entering::lemma_bound_top;
use crate::check::entering::lemma_hoisted_grows;
use crate::check::entering::lemma_roomy;
use crate::check::entering::lemma_unfold;
use crate::check::entering::relabelled;
use crate::check::entering::roomy;
use crate::check::entering::unfolds;
use crate::check::running::among;
use crate::check::running::calm;
use crate::check::running::lasting;
use crate::check::running::lemma_allocated_still;
use crate::check::running::lemma_declared_still;
use crate::check::running::lemma_housed;
use crate::check::running::lemma_made;
use crate::check::running::lemma_only_among;
use crate::check::running::lemma_replaced_still;
use crate::check::running::lemma_same_frames;
use crate::check::running::lemma_same_slots_still;
use crate::check::running::lemma_suits;
use crate::check::running::sized;
use crate::check::running::still;
use crate::check::sight::Labels;
use crate::check::sight::Sight;
use crate::check::sight::abides;
use crate::check::sight::alike_but;
use crate::check::sight::arity_of;
use crate::check::sight::assured;
use crate::check::sight::below;
use crate::check::sight::binder;
use crate::check::sight::carried;
use crate::check::sight::clear;
use crate::check::sight::consistent;
use crate::check::sight::continues;
use crate::check::sight::deadens;
use crate::check::sight::fine;
use crate::check::sight::holds_expr;
use crate::check::sight::housed;
use crate::check::sight::housed_at;
use crate::check::sight::leaves;
use crate::check::sight::lemma_alike;
use crate::check::sight::lemma_captured;
use crate::check::sight::lemma_chain_fine;
use crate::check::sight::lemma_fine_carried;
use crate::check::sight::lemma_never_clear;
use crate::check::sight::lemma_older;
use crate::check::sight::lemma_piece;
use crate::check::sight::lemma_resettled;
use crate::check::sight::lemma_settled_push;
use crate::check::sight::lets;
use crate::check::sight::linked_to;
use crate::check::sight::loop_seed;
use crate::check::sight::may_bind;
use crate::check::sight::never;
use crate::check::sight::only;
use crate::check::sight::over_body;
use crate::check::sight::part;
use crate::check::sight::runs;
use crate::check::sight::seeded;
use crate::check::sight::settled;
use crate::check::sight::shape;
use crate::check::sight::starts_loop;
use crate::check::sight::suits;
use crate::check::sight::suits_body;
use crate::check::sight::worth;
use crate::check::walk::JobView;
use crate::check::walk::assigned_in;
use crate::check::walk::assigns;
use crate::check::walk::block_job;
use crate::check::walk::body_job;
use crate::check::walk::reassigned;
use crate::check::walk::seed_of;
use crate::check::walk::terminator;
use crate::diagnostics::Span;
use crate::interpreter::heap::HeapView;
use crate::interpreter::heap::RtView;
use crate::interpreter::heap::SlotId;
use crate::interpreter::heap::SlotView;
use crate::interpreter::lasting::good;
use crate::interpreter::lasting::homed;
use crate::interpreter::lasting::lemma_allocated;
use crate::interpreter::lasting::lemma_bound_name;
use crate::interpreter::lasting::lemma_dropped;
use crate::interpreter::lasting::lemma_exited;
use crate::interpreter::machine::fn_ok;
use crate::interpreter::machine::lemma_function_body;
use crate::interpreter::machine::lemma_statement_ok;
use crate::interpreter::machine::stmt_ok;
use crate::interpreter::machine::taken_fits;
use crate::interpreter::scopes::around;
use crate::interpreter::scopes::chained;
use crate::interpreter::semantics::Chain;
use crate::interpreter::semantics::FnAt;
use crate::interpreter::semantics::Frame;
use crate::interpreter::semantics::LoopFrame;
use crate::interpreter::semantics::LoopKind;
use crate::interpreter::semantics::MachineView;
use crate::interpreter::semantics::Made;
use crate::interpreter::semantics::StmtAt;
use crate::interpreter::semantics::Turn;
use crate::interpreter::semantics::binary;
use crate::interpreter::semantics::bound;
use crate::interpreter::semantics::chain_links;
use crate::interpreter::semantics::evals;
use crate::interpreter::semantics::function_at;
use crate::interpreter::semantics::iterated;
use crate::interpreter::semantics::loop_body;
use crate::interpreter::semantics::statement_at;
use crate::interpreter::semantics::unary;
use crate::number::position_of;
use crate::table::has_key;
use crate::table::lemma_put_keys;
use crate::table::put;

verus! {

/// What is there when a frame is about to run.
pub open spec fn ready(p: Program, s: Sight, l: Labels, before: HeapView, m: MachineView, frame: Frame) -> bool {
    &&& consistent(p, s)
    &&& p.wf()
    &&& abides(p, s, l, m.push(frame))
    &&& good(before, m.push(frame))
    &&& taken_fits(p, m, frame)
    &&& sized(m)
    &&& m.suspended is None
}

/// Whether a machine, as far as it can be, has kept to what is known.
pub open spec fn abides_on(p: Program, s: Sight, m: MachineView) -> bool {
    sized(m) ==> exists|l: Labels| abides(p, s, l, m)
}

/// Whether a turn that a run goes on from leads to a machine that has kept to what is known.
pub open spec fn leads_on(p: Program, s: Sight, turn: Turn) -> bool {
    match turn {
        Turn::Go(m) => abides_on(p, s, m),
        Turn::Halt(m, stop) => stop is Ask || stop is HostCall ==> abides_on(p, s, m),
        Turn::Fail(_) => true,
    }
}

/// What is known once the frame is taken off.
pub open spec fn steady(p: Program, s: Sight, l: Labels, before: HeapView, m: MachineView) -> bool {
    &&& consistent(p, s)
    &&& p.wf()
    &&& abides(p, s, l, m)
    &&& good(before, m)
    &&& sized(m)
    &&& m.suspended is None
}

/// What a sound heap has.
proof fn lemma_sound(before: HeapView, m: MachineView)
    requires
        good(before, m),
        sized(m),
    ensures
        m.heap.wf(),
        chained(m.heap),
        homed(m.heap),
        roomy(m.heap),
{
}

proof fn lemma_ready(p: Program, s: Sight, l: Labels, before: HeapView, m: MachineView, frame: Frame)
    requires
        ready(p, s, l, before, m, frame),
    ensures
        calm(p, s, l, m.heap, m.functions),
        fine(p, s, l, m.heap, frame, below(frame, m.scope)),
        may_bind(p, s, l, frame, below(frame, m.scope), m.frames, false),
        starts_loop(frame, m.scope),
        settled(p, s, l, m.heap, m.frames, below(frame, m.scope), deadens(p, frame, false)),
        m.heap.slot(below(frame, m.scope)) is Scope,
        m.heap.slot(m.scope) is Scope,
        leaves(frame) ==> l.ages(below(frame, m.scope)) < l.ages(m.scope),
        m.heap.wf(),
        chained(m.heap),
        homed(m.heap),
        roomy(m.heap),
{
    assert(m.push(frame).frames.drop_last() =~= m.frames);
    lemma_sound(before, m.push(frame));
}

/// A frame that leaves no scope and ends no block.
proof fn lemma_steady(p: Program, s: Sight, l: Labels, before: HeapView, m: MachineView, frame: Frame)
    requires
        ready(p, s, l, before, m, frame),
        !leaves(frame),
        !deadens(p, frame, false),
    ensures
        steady(p, s, l, before, m),
{
    lemma_ready(p, s, l, before, m, frame);
    assert(m.push(frame).frames.drop_last() =~= m.frames);
    lemma_dropped(before, m.push(frame));
    assert(MachineView { frames: m.push(frame).frames.drop_last(), ..m.push(frame) } == m);
}

proof fn lemma_found(p: Program, s: Sight, l: Labels, m: MachineView)
    requires
        abides(p, s, l, m),
    ensures
        abides_on(p, s, m),
{
}

/// One more frame.
proof fn lemma_one(p: Program, s: Sight, l: Labels, m: MachineView, frame: Frame)
    requires
        abides(p, s, l, m),
        m.suspended is None,
        !leaves(frame),
        !deadens(p, frame, false),
        starts_loop(frame, m.scope),
        fine(p, s, l, m.heap, frame, m.scope),
        binder(p, s, frame) is None,
    ensures
        abides(p, s, l, m.push(frame)),
{
    lemma_settled_push(p, s, l, m.heap, m.frames, m.scope, frame);
}

/// A frame that runs nothing of the tree.
spec fn bare(frame: Frame) -> bool {
    match frame {
        Frame::Discard => true,
        Frame::Unary { .. } => true,
        Frame::Binary { .. } => true,
        Frame::BuildArray { .. } => true,
        Frame::BuildObject(_) => true,
        Frame::AssignMember(_) => true,
        _ => false,
    }
}

proof fn lemma_bare(p: Program, s: Sight, l: Labels, m: MachineView, frame: Frame)
    requires
        abides(p, s, l, m),
        m.suspended is None,
        bare(frame),
    ensures
        abides(p, s, l, m.push(frame)),
{
    assert(fine(p, s, l, m.heap, frame, m.scope));
    lemma_one(p, s, l, m, frame);
}

proof fn lemma_eval(p: Program, s: Sight, l: Labels, m: MachineView, id: ExprId)
    requires
        abides(p, s, l, m),
        m.suspended is None,
        s.lives(JobView::Expression(id)),
        suits(s, l, m.heap, JobView::Expression(id), m.scope),
    ensures
        abides(p, s, l, m.push(Frame::Eval(id))),
{
    assert(fine(p, s, l, m.heap, Frame::Eval(id), m.scope));
    lemma_one(p, s, l, m, Frame::Eval(id));
}

/// Frames that evaluate parts of a piece that suits the scope.
proof fn lemma_evals(p: Program, s: Sight, l: Labels, m: MachineView, whole: JobView, ids: Seq<ExprId>, n: int)
    requires
        consistent(p, s),
        abides(p, s, l, m),
        m.suspended is None,
        s.lives(whole),
        suits(s, l, m.heap, whole, m.scope),
        0 <= n <= ids.len(),
        forall|i: int| 0 <= i < ids.len() ==> part(p, whole, JobView::Expression(#[trigger] ids[i])),
    ensures
        abides(p, s, l, m.push_all(evals(ids).take(n))),
    decreases n,
{
    if n > 0 {
        lemma_evals(p, s, l, m, whole, ids, n - 1);
        let earlier = m.push_all(evals(ids).take(n - 1));
        let id = ids[ids.len() - n];
        lemma_piece(p, s, l, m.heap, whole, JobView::Expression(id), m.scope);
        lemma_eval(p, s, l, earlier, id);
        assert(earlier.push(Frame::Eval(id)).frames =~= m.push_all(evals(ids).take(n)).frames);
    } else {
        assert(m.push_all(evals(ids).take(0)).frames =~= m.frames);
    }
}

proof fn lemma_all_evals(p: Program, s: Sight, l: Labels, m: MachineView, whole: JobView, ids: Seq<ExprId>)
    requires
        consistent(p, s),
        abides(p, s, l, m),
        m.suspended is None,
        s.lives(whole),
        suits(s, l, m.heap, whole, m.scope),
        forall|i: int| 0 <= i < ids.len() ==> part(p, whole, JobView::Expression(#[trigger] ids[i])),
    ensures
        abides(p, s, l, m.push_all(evals(ids))),
{
    lemma_evals(p, s, l, m, whole, ids, ids.len() as int);
    assert(evals(ids).take(ids.len() as int) =~= evals(ids));
}

/// A machine whose heap nothing can tell from the one before.
proof fn lemma_heap(p: Program, s: Sight, l: Labels, before: HeapView, m: MachineView, heap: HeapView)
    requires
        steady(p, s, l, before, m),
        still(m.heap, heap, s.name),
    ensures
        abides(p, s, l, MachineView { heap, ..m }),
{
    lemma_sound(before, m);
    lemma_same_frames(p, s, l, m.heap, heap, m.functions, m.functions, m.frames, m.scope, false);
}

proof fn lemma_issue(p: Program, s: Sight, l: Labels, before: HeapView, m: MachineView)
    requires
        steady(p, s, l, before, m),
    ensures
        abides(p, s, l, m.text_made()),
{
    lemma_same_slots_still(m.heap, m.heap.issue(), s.name);
    lemma_heap(p, s, l, before, m, m.heap.issue());
}

/// Entering a block, by a frame that comes back from it.
proof fn lemma_enter(
    p: Program,
    s: Sight,
    l: Labels,
    before: HeapView,
    m: MachineView,
    parent: SlotId,
    frame: Frame,
    inner: MachineView,
    block: BlockId,
    seed: Seq<(Seq<char>, Span)>,
    body: bool,
)
    requires
        consistent(p, s),
        abides(p, s, l, m),
        good(before, m),
        sized(m),
        m.heap.slot(parent) is Scope,
        s.lives(JobView::Open { statements: p.statements_of(Some(block)), seed, body }),
        suits(s, l, m.heap, JobView::Open { statements: p.statements_of(Some(block)), seed, body }, parent),
        leaves(frame),
        below(frame, inner.scope) == m.scope,
        fine(p, s, l, m.heap, frame, m.scope),
        inner.scope == m.heap.next(),
        inner.frames == m.frames.push(frame),
        inner.functions == m.functions,
        inner.suspended is None,
        unfolds(m.heap, inner.heap, m.heap.next(), Some(parent), seed, s.name),
        good(before, inner),
        roomy(inner.heap),
        p.has_block(block),
    ensures
        abides_on(p, s, inner.opened(p, Some(block))),
{
    if sized(inner.opened(p, Some(block))) {
        let statements = p.statements_of(Some(block));
        let whole = JobView::Open { statements, seed, body };
        let new = m.heap.next();
        let labels = relabelled(p, s, l, new, statements, seed);
        lemma_sound(before, m);
        lemma_unfold(p, s, l, m.heap, inner.heap, m.functions, new, Some(parent), statements, seed);
        assert(carried(s, l, m.heap, labels, inner.heap, m.scope));
        assert(carried(s, l, m.heap, labels, inner.heap, parent));
        lemma_resettled(p, s, l, m.heap, labels, inner.heap, m.frames, m.scope, false, l.next);
        lemma_fine_carried(p, s, l, m.heap, labels, inner.heap, frame, m.scope);
        assert(m.scope != new);
        assert(labels.ages(m.scope) < labels.ages(new));
        assert(settled(p, s, labels, inner.heap, inner.frames, new, false)) by {
            assert(inner.frames.drop_last() =~= m.frames);
        }
        lemma_suits(s, l, m.heap, labels, inner.heap, whole, parent);
        assert(inside_block(p, s, labels, inner, statements, seed, body));
        lemma_block(p, s, labels, before, inner, Some(block), seed, body);
    }
}

/// A block of a piece that suits the scope.
proof fn lemma_entered(p: Program, s: Sight, l: Labels, before: HeapView, m: MachineView, body: BlockId)
    requires
        steady(p, s, l, before, m),
        s.lives(block_job(p, body, Seq::empty())),
        suits(s, l, m.heap, block_job(p, body, Seq::empty()), m.scope),
        p.has_block(body),
    ensures
        abides_on(p, s, m.entered(p, body)),
{
    let inner = m.scoped(m.scope).push(Frame::ExitScope(m.scope));
    lemma_sound(before, m);
    lemma_roomy(
        m.heap,
        SlotView::Scope { bindings: Seq::empty(), parent: Some(m.scope), captured: false },
    );
    lemma_hoisted_grows(p, inner, Some(body), 0);
    if sized(m.entered(p, body)) {
        lemma_allocated(
            m.heap,
            SlotView::Scope { bindings: Seq::empty(), parent: Some(m.scope), captured: false },
        );
        crate::interpreter::lasting::lemma_scoped(before, m, inner, m.scope, Frame::ExitScope(m.scope));
        assert(unfolds(m.heap, inner.heap, m.heap.next(), Some(m.scope), Seq::empty(), s.name));
        assert(fine(p, s, l, m.heap, Frame::ExitScope(m.scope), m.scope));
        lemma_enter(p, s, l, before, m, m.scope, Frame::ExitScope(m.scope), inner, body, Seq::empty(), false);
    }
}

/// Whether a scope of one heap that is given back in another changes nothing for what is older.
proof fn lemma_exit(
    p: Program,
    s: Sight,
    l: Labels,
    before: HeapView,
    m: MachineView,
    frame: Frame,
    dead: bool,
)
    requires
        calm(p, s, l, m.heap, m.functions),
        good(before, m.push(frame)),
        sized(m),
        leaves(frame),
        settled(p, s, l, m.heap, m.frames, below(frame, m.scope), dead),
        m.heap.slot(below(frame, m.scope)) is Scope,
        m.heap.slot(m.scope) is Scope,
        l.ages(below(frame, m.scope)) < l.ages(m.scope),
    ensures
        calm(p, s, l, m.exited(below(frame, m.scope)).heap, m.functions),
        settled(p, s, l, m.exited(below(frame, m.scope)).heap, m.frames, below(frame, m.scope), dead),
        m.exited(below(frame, m.scope)).heap.slot(below(frame, m.scope)) is Scope,
        good(before, m.exited(below(frame, m.scope))),
        sized(m.exited(below(frame, m.scope))),
        carried(s, l, m.heap, l, m.exited(below(frame, m.scope)).heap, below(frame, m.scope)),
{
    let outer = below(frame, m.scope);
    let after = m.exited(outer);
    let a = m.heap;
    let b = after.heap;
    lemma_sound(before, m.push(frame));
    lemma_exited(before, m, frame, outer);
    if a.captured(m.scope) {
        lemma_same_slots_still(a, b, s.name);
        lemma_alike(s, l, a, b);
        assert(carried(s, l, a, l, b, outer));
    } else {
        assert forall|id: SlotId| id != m.scope implies #[trigger] b.slot(id) == a.slot(id) by {}
        assert(alike_but(a, b, s.name, m.scope)) by {
            assert forall|id: SlotId| id != m.scope implies #[trigger] shape(b, s.name, id) == shape(a, s.name, id) by {
                assert(b.slot(id) == a.slot(id));
            }
        }
        lemma_older(p, s, l, a, b, m.scope);
        lemma_captured(s, l, a, b, m.scope);
        assert(carried(s, l, a, l, b, outer));
        lemma_resettled(p, s, l, a, l, b, m.frames, outer, dead, l.ages(m.scope));
        assert(b.slot(m.scope) is Free);
        assert forall|id: SlotId| (#[trigger] b.slot(id)) is Scope implies l.ages(id) < l.next && (has_key(
            b.bindings(id),
            s.name,
        ) ==> l.soils(id)) && (around(b, id) matches Some(outer) ==> l.ages(outer) < l.ages(id)) by {
            assert(id != m.scope);
            assert(b.slot(id) == a.slot(id));
        }
        assert(lasting(a, b)) by {
            assert forall|id: SlotId| (#[trigger] a.slot(id)) is Function implies b.slot(id) == a.slot(id) by {}
        }
        assert forall|id: SlotId, n: usize| b.slot(id) is Scope && #[trigger] l.sures(id, n) implies only(
            p,
            b,
            m.functions,
            b.bindings(id),
            s.name,
            n,
        ) by {
            assert(id != m.scope);
            assert(b.slot(id) == a.slot(id));
            let entries = a.bindings(id);
            assert(among(entries, entries, s.name)) by {
                assert forall|i: int| 0 <= i < entries.len() && (#[trigger] entries[i]).0 == s.name implies exists|j: int|
                    0 <= j < entries.len() && #[trigger] entries[j] == entries[i] by {}
            }
            lemma_only_among(p, a, b, m.functions, m.functions, entries, entries, s.name, n);
        }
        assert forall|id: SlotId| (#[trigger] b.slot(id)) is Function implies housed_at(p, s, l, b, m.functions, id) by {
            assert(id != m.scope);
            assert(b.slot(id) == a.slot(id));
            if let SlotView::Function { definition, scope: home } = a.slot(id) {
                assert(a.captured(home));
                if let Some(function) = function_at(p, m.functions[definition as int]) {
                    let job = body_job(p, function);
                    assert(suits_body(s, l, a, job, home));
                    assert forall|k: nat| #[trigger] s.hides(job, k) implies never(l, b, home, k) by {
                        assert(never(l, a, home, k));
                    }
                    assert forall|k: nat| #[trigger] s.bars(job, k) implies never(l, b, home, k) by {
                        assert(never(l, a, home, k));
                    }
                    assert forall|k: nat, n: usize| #[trigger] s.knows(job, k, n) implies assured(l, b, home, k, n) by {
                        assert(assured(l, a, home, k, n));
                    }
                }
            }
        }
    }
}

/// Coming back from a call.
proof fn lemma_call_ended(p: Program, s: Sight, l: Labels, before: HeapView, m: MachineView, frame: Frame, value: RtView)
    requires
        calm(p, s, l, m.heap, m.functions),
        good(before, m.push(frame)),
        sized(m),
        settled(p, s, l, m.heap, m.frames, below(frame, m.scope), false),
        m.heap.slot(below(frame, m.scope)) is Scope,
        m.heap.slot(m.scope) is Scope,
        l.ages(below(frame, m.scope)) < l.ages(m.scope),
        fine(p, s, l, m.heap, frame, below(frame, m.scope)),
        m.suspended is None,
        frame is CallEnd,
    ensures
        frame matches Frame::CallEnd { outer_scope, values, chain, index, in_target } ==> abides(
            p,
            s,
            l,
            m.call_ended(outer_scope, values, chain, index, in_target, value),
        ),
{
    if let Frame::CallEnd { outer_scope, values, chain, index, in_target } = frame {
        lemma_exit(p, s, l, before, m, frame, false);
        let out = m.cut(values as int).exited(outer_scope);
        let given = MachineView { depth: out.depth - 1, ..out }.give(value);
        let heap = m.exited(outer_scope).heap;
        assert(given.heap == heap);
        lemma_fine_carried(p, s, l, m.heap, l, heap, frame, outer_scope);
        let link = Frame::Link { chain, index: (index + 1) as usize, in_target };
        assert(fine(p, s, l, heap, link, outer_scope)) by {
            assert forall|job: JobView| #[trigger] runs(p, link, job) implies s.lives(job) && suits(
                s,
                l,
                heap,
                job,
                outer_scope,
            ) by {
                assert(runs(p, frame, job));
            }
        }
        lemma_one(p, s, l, given, link);
    }
}

proof fn lemma_returned(p: Program, s: Sight, l: Labels, before: HeapView, m: MachineView, value: RtView, dead: bool)
    requires
        calm(p, s, l, m.heap, m.functions),
        good(before, m),
        sized(m),
        settled(p, s, l, m.heap, m.frames, m.scope, dead),
        m.heap.slot(m.scope) is Scope,
        m.suspended is None,
    ensures
        abides(p, s, l, m.returned(value)),
    decreases m.frames.len(),
{
    if m.frames.len() > 0 {
        let frame = m.frames.last();
        let rest = MachineView { frames: m.frames.drop_last(), ..m };
        assert(rest.push(frame).frames =~= m.frames);
        assert(rest.push(frame) == m);
        match frame {
            Frame::ExitScope(outer) => {
                lemma_exit(p, s, l, before, rest, frame, false);
                lemma_returned(p, s, l, before, rest.exited(outer), value, false);
            },
            Frame::CallEnd { .. } => {
                lemma_call_ended(p, s, l, before, rest, frame, value);
            },
            _ => {
                lemma_dropped(before, m);
                lemma_returned(p, s, l, before, rest, value, deadens(p, frame, dead));
            },
        }
    }
}

proof fn lemma_unwound(p: Program, s: Sight, l: Labels, before: HeapView, m: MachineView, consume: bool, dead: bool)
    requires
        calm(p, s, l, m.heap, m.functions),
        good(before, m),
        sized(m),
        settled(p, s, l, m.heap, m.frames, m.scope, dead),
        m.heap.slot(m.scope) is Scope,
        m.suspended is None,
    ensures
        abides(p, s, l, m.unwound(consume)),
    decreases m.frames.len(),
{
    if m.frames.len() > 0 {
        let frame = m.frames.last();
        let rest = MachineView { frames: m.frames.drop_last(), ..m };
        assert(rest.push(frame).frames =~= m.frames);
        assert(rest.push(frame) == m);
        match frame {
            Frame::ExitScope(outer) => {
                lemma_exit(p, s, l, before, rest, frame, false);
                lemma_unwound(p, s, l, before, rest.exited(outer), consume, false);
            },
            Frame::Loop(state) => {
                let cut = MachineView { scope: state.outer_scope, ..rest.cut(state.values as int) };
                assert(cut.scope == m.scope);
                assert(abides(p, s, l, cut));
                if !consume {
                    lemma_one(p, s, l, cut, frame);
                }
            },
            Frame::CallEnd { .. } => {
                assert(settled(p, s, l, m.heap, m.frames, m.scope, false));
            },
            _ => {
                lemma_dropped(before, m);
                lemma_unwound(p, s, l, before, rest, consume, deadens(p, frame, dead));
            },
        }
    }
}

/// An access that suits the scope.
proof fn lemma_chain_opened(p: Program, s: Sight, l: Labels, m: MachineView, access: ExprId, end: int, in_target: bool)
    requires
        consistent(p, s),
        abides(p, s, l, m),
        m.suspended is None,
        s.lives(JobView::Expression(access)),
        suits(s, l, m.heap, JobView::Expression(access), m.scope),
    ensures
        m.chain_opened(p, access, end, in_target) matches Turn::Go(after) ==> abides(p, s, l, after),
        !(m.chain_opened(p, access, end, in_target) is Halt),
{
    if let ExpressionKind::Access { base, links } = p.expr(access).kind {
        let whole = JobView::Expression(access);
        let chain = Chain { access, end: end as usize };
        let host = Frame::HostCall { chain, in_target };
        let link = Frame::Link { chain, index: 0, in_target };
        lemma_chain_fine(p, s, l, m.heap, chain, host, m.scope);
        lemma_chain_fine(p, s, l, m.heap, chain, link, m.scope);
        lemma_one(p, s, l, m, host);
        lemma_one(p, s, l, m, link);
        assert(part(p, whole, JobView::Expression(base)));
        lemma_piece(p, s, l, m.heap, whole, JobView::Expression(base), m.scope);
        lemma_eval(p, s, l, m.push(link), base);
        if links@.len() > 0 {
            if let AccessKind::Call { arguments, .. } = links@[0].kind {
                assert forall|i: int| 0 <= i < arguments@.len() implies part(
                    p,
                    whole,
                    JobView::Expression(#[trigger] arguments@[i]),
                ) by {
                    assert(holds_expr(links@[0], arguments@[i]));
                    assert(linked_to(links@, arguments@[i]));
                }
                lemma_all_evals(p, s, l, m.push(host), whole, arguments@);
            }
        }
    }
}

/// A statement of the tree that assigns to a name is among those that do.
proof fn lemma_reassigned(p: Program, at: StmtAt, name: Seq<char>)
    requires
        stmt_ok(p, at),
        assigns(p, statement_at(p, at), name),
    ensures
        reassigned(p, name),
{
    let statements = p.statements_of(at.block);
    assert(statements[at.index as int] == statement_at(p, at));
    assert(assigned_in(p, statements, name));
    if let Some(id) = at.block {
        assert(p.blocks@[id.0 as int].statements@ == statements);
    }
}

proof fn lemma_assignment(p: Program, s: Sight, l: Labels, m: MachineView, at: StmtAt, target: ExprId, value: ExprId)
    requires
        consistent(p, s),
        stmt_ok(p, at),
        abides(p, s, l, m),
        m.suspended is None,
        s.lives(JobView::Statement(statement_at(p, at))),
        suits(s, l, m.heap, JobView::Statement(statement_at(p, at)), m.scope),
        statement_at(p, at).kind matches StatementKind::Assignment { target: t, value: v, .. } && t == target && v == value,
    ensures
        m.assignment(p, target, value) matches Turn::Go(after) ==> abides(p, s, l, after),
        !(m.assignment(p, target, value) is Halt),
{
    let whole = JobView::Statement(statement_at(p, at));
    assert(part(p, whole, JobView::Expression(value)));
    lemma_piece(p, s, l, m.heap, whole, JobView::Expression(value), m.scope);
    match p.expr(target).kind {
        ExpressionKind::Identifier(node) => {
            let frame = Frame::AssignName(target);
            assert(fine(p, s, l, m.heap, frame, m.scope)) by {
                assert forall|k: nat| #[trigger] s.aims(target, k) implies clear(m.heap, s.name, m.scope, k) by {
                    assert(s.hides(whole, k));
                }
                if node.name@ == s.name {
                    lemma_reassigned(p, at, s.name);
                }
            }
            lemma_one(p, s, l, m, frame);
            lemma_eval(p, s, l, m.push(frame), value);
        },
        ExpressionKind::Access { links, .. } => {
            let goal = JobView::Expression(target);
            assert(part(p, whole, goal));
            lemma_piece(p, s, l, m.heap, whole, goal, m.scope);
            let frame = Frame::AssignMember(target);
            lemma_bare(p, s, l, m, frame);
            lemma_eval(p, s, l, m.push(frame), value);
            let scheduled = m.push(frame).push(Frame::Eval(value));
            if links@.len() > 0 {
                if let AccessKind::Index { expression, .. } = links@.last().kind {
                    assert(holds_expr(links@[links@.len() - 1], expression));
                    assert(linked_to(links@, expression));
                    assert(part(p, goal, JobView::Expression(expression)));
                    lemma_piece(p, s, l, m.heap, goal, JobView::Expression(expression), m.scope);
                    lemma_eval(p, s, l, scheduled, expression);
                    lemma_chain_opened(
                        p,
                        s,
                        l,
                        scheduled.push(Frame::Eval(expression)),
                        target,
                        links@.len() - 1,
                        true,
                    );
                }
                lemma_chain_opened(p, s, l, scheduled, target, links@.len() - 1, true);
            }
        },
        _ => {},
    }
}

proof fn lemma_branched(p: Program, s: Sight, l: Labels, before: HeapView, m: MachineView, at: StmtAt, index: int)
    requires
        steady(p, s, l, before, m),
        stmt_ok(p, at),
        s.lives(JobView::Statement(statement_at(p, at))),
        suits(s, l, m.heap, JobView::Statement(statement_at(p, at)), m.scope),
        0 <= index,
    ensures
        abides_on(p, s, m.branched(p, at, index)),
{
    let whole = JobView::Statement(statement_at(p, at));
    lemma_statement_ok(p, at);
    lemma_found(p, s, l, m);
    if let StatementKind::If { branches, else_branch } = statement_at(p, at).kind {
        if index < branches@.len() {
            let frame = Frame::Branch { at, index: index as usize };
            let id = branches@[index].condition.expression;
            assert(part(p, whole, JobView::Expression(id)));
            lemma_piece(p, s, l, m.heap, whole, JobView::Expression(id), m.scope);
            assert(fine(p, s, l, m.heap, frame, m.scope));
            lemma_one(p, s, l, m, frame);
            lemma_eval(p, s, l, m.push(frame), id);
            lemma_found(p, s, l, m.push(frame).push(Frame::Eval(id)));
        } else if let Some(otherwise) = else_branch {
            let block = block_job(p, otherwise.body, Seq::empty());
            assert(part(p, whole, block));
            lemma_piece(p, s, l, m.heap, whole, block, m.scope);
            lemma_entered(p, s, l, before, m, otherwise.body);
        }
    }
}

/// The statements that end a block.
#[verifier::spinoff_prover]
proof fn lemma_ending(p: Program, s: Sight, l: Labels, before: HeapView, m: MachineView, at: StmtAt)
    requires
        ready(p, s, l, before, m, Frame::Statement(at)),
        terminator(statement_at(p, at).kind) is Some,
    ensures
        leads_on(p, s, m.statement(p, at)),
{
    let frame = Frame::Statement(at);
    lemma_ready(p, s, l, before, m, frame);
    assert(m.push(frame).frames.drop_last() =~= m.frames);
    lemma_dropped(before, m.push(frame));
    assert(MachineView { frames: m.push(frame).frames.drop_last(), ..m.push(frame) } == m);
    let whole = JobView::Statement(statement_at(p, at));
    assert(runs(p, frame, whole));
    match statement_at(p, at).kind {
        StatementKind::Return { value, .. } => {
            match value {
                Some(id) => {
                    assert(part(p, whole, JobView::Expression(id)));
                    lemma_piece(p, s, l, m.heap, whole, JobView::Expression(id), m.scope);
                    let back = Frame::Return(id);
                    assert(fine(p, s, l, m.heap, back, m.scope));
                    lemma_settled_push(p, s, l, m.heap, m.frames, m.scope, back);
                    assert(abides(p, s, l, m.push(back)));
                    lemma_eval(p, s, l, m.push(back), id);
                    lemma_found(p, s, l, m.push(back).push(Frame::Eval(id)));
                },
                None => {
                    lemma_returned(p, s, l, before, m, RtView::Null, true);
                    lemma_found(p, s, l, m.returned(RtView::Null));
                },
            }
        },
        StatementKind::Break { .. } => {
            lemma_unwound(p, s, l, before, m, true, true);
            lemma_found(p, s, l, m.unwound(true));
        },
        StatementKind::Continue { .. } => {
            lemma_unwound(p, s, l, before, m, false, true);
            lemma_found(p, s, l, m.unwound(false));
        },
        _ => {},
    }
}

#[verifier::spinoff_prover]
proof fn lemma_statement(p: Program, s: Sight, l: Labels, before: HeapView, m: MachineView, at: StmtAt)
    requires
        ready(p, s, l, before, m, Frame::Statement(at)),
        terminator(statement_at(p, at).kind) is None,
    ensures
        leads_on(p, s, m.statement(p, at)),
{
    let frame = Frame::Statement(at);
    lemma_ready(p, s, l, before, m, frame);
    lemma_steady(p, s, l, before, m, frame);
    lemma_statement_ok(p, at);
    lemma_found(p, s, l, m);
    let whole = JobView::Statement(statement_at(p, at));
    assert(runs(p, frame, whole));
    match statement_at(p, at).kind {
        StatementKind::Let { initializer, .. } => {
            let declare = Frame::Declare(at);
            assert(part(p, whole, JobView::Expression(initializer)));
            lemma_piece(p, s, l, m.heap, whole, JobView::Expression(initializer), m.scope);
            assert(fine(p, s, l, m.heap, declare, m.scope));
            assert(may_bind(p, s, l, declare, m.scope, m.frames, false));
            lemma_settled_push(p, s, l, m.heap, m.frames, m.scope, declare);
            assert(abides(p, s, l, m.push(declare)));
            lemma_eval(p, s, l, m.push(declare), initializer);
            lemma_found(p, s, l, m.push(declare).push(Frame::Eval(initializer)));
        },
        StatementKind::Expression(id) => {
            assert(part(p, whole, JobView::Expression(id)));
            lemma_piece(p, s, l, m.heap, whole, JobView::Expression(id), m.scope);
            lemma_bare(p, s, l, m, Frame::Discard);
            lemma_eval(p, s, l, m.push(Frame::Discard), id);
            lemma_found(p, s, l, m.push(Frame::Discard).push(Frame::Eval(id)));
        },
        StatementKind::Block(id) => {
            assert(part(p, whole, block_job(p, id, Seq::empty())));
            lemma_piece(p, s, l, m.heap, whole, block_job(p, id, Seq::empty()), m.scope);
            lemma_entered(p, s, l, before, m, id);
        },
        StatementKind::Assignment { target, value, .. } => {
            lemma_assignment(p, s, l, m, at, target, value);
            if let Turn::Go(after) = m.assignment(p, target, value) {
                lemma_found(p, s, l, after);
            }
        },
        StatementKind::If { .. } => {
            lemma_branched(p, s, l, before, m, at, 0);
        },
        StatementKind::While { keyword, condition, body } => {
            let state = LoopFrame {
                outer_scope: m.scope,
                values: m.values.len() as usize,
                kind: LoopKind::While { keyword, condition: condition.expression, body },
            };
            let loop_frame = Frame::Loop(state);
            assert(fine(p, s, l, m.heap, loop_frame, m.scope)) by {
                assert forall|job: JobView| #[trigger] runs(p, loop_frame, job) implies s.lives(job) && suits(
                    s,
                    l,
                    m.heap,
                    job,
                    m.scope,
                ) by {
                    assert(part(p, whole, job));
                    lemma_piece(p, s, l, m.heap, whole, job, m.scope);
                }
            }
            lemma_one(p, s, l, m, loop_frame);
            lemma_found(p, s, l, m.push(loop_frame));
        },
        StatementKind::For { iterable, .. } => {
            assert(part(p, whole, JobView::Expression(iterable)));
            lemma_piece(p, s, l, m.heap, whole, JobView::Expression(iterable), m.scope);
            let start = Frame::ForStart(at);
            assert(fine(p, s, l, m.heap, start, m.scope));
            lemma_one(p, s, l, m, start);
            lemma_eval(p, s, l, m.push(start), iterable);
            lemma_found(p, s, l, m.push(start).push(Frame::Eval(iterable)));
        },
        _ => {},
    }
}

#[verifier::spinoff_prover]
proof fn lemma_expression(p: Program, s: Sight, l: Labels, before: HeapView, m: MachineView, id: ExprId)
    requires
        ready(p, s, l, before, m, Frame::Eval(id)),
    ensures
        leads_on(p, s, m.expression(p, id)),
{
    let frame = Frame::Eval(id);
    lemma_ready(p, s, l, before, m, frame);
    lemma_steady(p, s, l, before, m, frame);
    lemma_found(p, s, l, m);
    let whole = JobView::Expression(id);
    assert(runs(p, frame, whole));
    match p.expr(id).kind {
        ExpressionKind::Literal(literal) => {
            lemma_issue(p, s, l, before, m);
            if let Turn::Go(after) = m.expression(p, id) {
                assert(abides(p, s, l, after));
                lemma_found(p, s, l, after);
            }
        },
        ExpressionKind::Identifier(_) => {
            if let Turn::Go(after) = m.expression(p, id) {
                assert(abides(p, s, l, after));
                lemma_found(p, s, l, after);
            }
        },
        ExpressionKind::Group { expression, .. } => {
            assert(part(p, whole, JobView::Expression(expression)));
            lemma_piece(p, s, l, m.heap, whole, JobView::Expression(expression), m.scope);
            lemma_eval(p, s, l, m, expression);
            lemma_found(p, s, l, m.push(Frame::Eval(expression)));
        },
        ExpressionKind::Unary { operator, operand } => {
            assert(part(p, whole, JobView::Expression(operand)));
            lemma_piece(p, s, l, m.heap, whole, JobView::Expression(operand), m.scope);
            let next = Frame::Unary { operator, operand };
            lemma_bare(p, s, l, m, next);
            lemma_eval(p, s, l, m.push(next), operand);
            lemma_found(p, s, l, m.push(next).push(Frame::Eval(operand)));
        },
        ExpressionKind::Binary { left, operator, right } => {
            assert(part(p, whole, JobView::Expression(left)));
            assert(part(p, whole, JobView::Expression(right)));
            lemma_piece(p, s, l, m.heap, whole, JobView::Expression(left), m.scope);
            lemma_piece(p, s, l, m.heap, whole, JobView::Expression(right), m.scope);
            let next = Frame::BinaryRight { left, operator, right };
            assert(fine(p, s, l, m.heap, next, m.scope));
            lemma_one(p, s, l, m, next);
            lemma_eval(p, s, l, m.push(next), left);
            lemma_found(p, s, l, m.push(next).push(Frame::Eval(left)));
        },
        ExpressionKind::Array { elements, .. } => {
            let next = Frame::BuildArray { array: id, count: elements@.len() as usize };
            lemma_bare(p, s, l, m, next);
            assert forall|i: int| 0 <= i < elements@.len() implies part(
                p,
                whole,
                JobView::Expression(#[trigger] elements@[i]),
            ) by {}
            lemma_all_evals(p, s, l, m.push(next), whole, elements@);
            lemma_found(p, s, l, m.push(next).push_all(evals(elements@)));
        },
        ExpressionKind::Object { entries, .. } => {
            let next = Frame::BuildObject(id);
            lemma_bare(p, s, l, m, next);
            let ids = Seq::new(entries@.len(), |i: int| entries@[i].value);
            assert forall|i: int| 0 <= i < ids.len() implies part(p, whole, JobView::Expression(#[trigger] ids[i])) by {
                assert(ids[i] == entries@[i].value);
            }
            lemma_all_evals(p, s, l, m.push(next), whole, ids);
            lemma_found(p, s, l, m.push(next).push_all(evals(ids)));
        },
        ExpressionKind::Access { links, .. } => {
            lemma_chain_opened(p, s, l, m, id, links@.len() as int, false);
            if let Turn::Go(after) = m.chain_opened(p, id, links@.len() as int, false) {
                lemma_found(p, s, l, after);
            }
        },
        ExpressionKind::Function(function) => {
            let at = FnAt::Literal(id);
            let made = m.function_made(at);
            let after = made.give(m.function_value());
            let body = body_job(p, function);
            assert(over_body(s, whole, body));
            assert(suits_body(s, l, m.heap, body, m.scope)) by {
                assert forall|k: nat| #[trigger] s.hides(body, k) implies never(l, m.heap, m.scope, k) by {
                    assert(s.bars(whole, k));
                }
                assert forall|k: nat| #[trigger] s.bars(body, k) implies never(l, m.heap, m.scope, k) by {
                    assert(s.bars(whole, k));
                }
                assert forall|k: nat, a: usize| #[trigger] s.knows(body, k, a) implies assured(l, m.heap, m.scope, k, a) by {
                    assert(s.knows(whole, k, a));
                }
            }
            if sized(after) {
                lemma_made(p, s, l, m, at, function);
                assert(carried(s, l, m.heap, l, made.heap, m.scope));
                lemma_resettled(p, s, l, m.heap, l, made.heap, m.frames, m.scope, false, l.next);
                assert(abides(p, s, l, after));
                lemma_found(p, s, l, after);
            }
        },
    }
}

/// Going on with a chain.
#[verifier::spinoff_prover]
proof fn lemma_linked(p: Program, s: Sight, l: Labels, before: HeapView, m: MachineView, frame: Frame)
    requires
        ready(p, s, l, before, m, frame),
        frame is Link || frame is IndexRead || frame is HostCall,
    ensures
        leads_on(p, s, m.step(p, frame)),
{
    lemma_ready(p, s, l, before, m, frame);
    lemma_steady(p, s, l, before, m, frame);
    lemma_found(p, s, l, m);
    match frame {
        Frame::Link { chain, index, in_target } => {
            let links = chain_links(p, chain);
            if index < links.len() {
                let link = links[index as int];
                let next = Frame::Link { chain, index: (index + 1) as usize, in_target };
                lemma_same_chain(p, s, l, m.heap, frame, next, chain, m.scope);
                match link.kind {
                    AccessKind::Call { arguments, .. } => {
                        let invoke = Frame::Invoke { chain, index, in_target, arguments: arguments@.len() as usize };
                        lemma_same_chain(p, s, l, m.heap, frame, invoke, chain, m.scope);
                        lemma_one(p, s, l, m, invoke);
                        assert forall|i: int| 0 <= i < arguments@.len() implies continues(
                            p,
                            chain,
                            JobView::Expression(#[trigger] arguments@[i]),
                        ) by {
                            assert(holds_expr(links[index as int], arguments@[i]));
                            assert(linked_to(links, arguments@[i]));
                        }
                        lemma_chain_evals(p, s, l, m.push(invoke), chain, frame, arguments@, arguments@.len() as int);
                        assert(evals(arguments@).take(arguments@.len() as int) =~= evals(arguments@));
                        lemma_found(p, s, l, m.push(invoke).push_all(evals(arguments@)));
                    },
                    AccessKind::Property(_) => {
                        if let Turn::Go(after) = m.link(p, chain, index, in_target) {
                            if !(m.top() is Null) {
                                let popped = MachineView { values: after.values, ..m };
                                assert(abides(p, s, l, popped));
                                lemma_one(p, s, l, popped, next);
                                assert(after == popped.push(next));
                                lemma_found(p, s, l, after);
                            }
                        }
                    },
                    AccessKind::Index { expression, .. } => {
                        let read = Frame::IndexRead { chain, index, in_target };
                        lemma_same_chain(p, s, l, m.heap, frame, read, chain, m.scope);
                        lemma_one(p, s, l, m, read);
                        assert(holds_expr(links[index as int], expression));
                        assert(linked_to(links, expression));
                        assert(runs(p, frame, JobView::Expression(expression)));
                        lemma_eval(p, s, l, m.push(read), expression);
                        lemma_found(p, s, l, m.push(read).push(Frame::Eval(expression)));
                    },
                }
            }
            assert(leads_on(p, s, m.link(p, chain, index, in_target)));
        },
        Frame::IndexRead { chain, index, in_target } => {
            let next = Frame::Link { chain, index: (index + 1) as usize, in_target };
            lemma_same_chain(p, s, l, m.heap, frame, next, chain, m.scope);
            if let Turn::Go(after) = m.index_read(p, chain, index, in_target) {
                let popped = MachineView { values: after.values, work: after.work, ..m };
                assert(abides(p, s, l, popped));
                lemma_one(p, s, l, popped, next);
                assert(after == popped.push(next));
                lemma_found(p, s, l, after);
            }
            assert(leads_on(p, s, m.index_read(p, chain, index, in_target)));
        },
        Frame::HostCall { chain, in_target } => {
            let next = Frame::Link { chain, index: 1, in_target: false };
            lemma_same_chain(p, s, l, m.heap, frame, next, chain, m.scope);
            if let Turn::Halt(after, stop) = m.host_called(p, chain, in_target) {
                assert(abides(p, s, l, after));
                lemma_found(p, s, l, after);
            }
            assert(leads_on(p, s, m.host_called(p, chain, in_target)));
        },
        _ => {},
    }
}

/// Frames of one chain run the same.
proof fn lemma_same_chain(p: Program, s: Sight, l: Labels, heap: HeapView, frame: Frame, next: Frame, chain: Chain, id: SlotId)
    requires
        fine(p, s, l, heap, frame, id),
        forall|job: JobView| #[trigger] runs(p, frame, job) == continues(p, chain, job),
        forall|job: JobView| #[trigger] runs(p, next, job) == continues(p, chain, job),
        !(next is AssignName),
    ensures
        fine(p, s, l, heap, next, id),
{
    assert forall|job: JobView| #[trigger] runs(p, next, job) implies s.lives(job) && suits(s, l, heap, job, id) by {
        assert(runs(p, frame, job));
    }
}

proof fn lemma_chain_evals(p: Program, s: Sight, l: Labels, m: MachineView, chain: Chain, frame: Frame, ids: Seq<ExprId>, n: int)
    requires
        abides(p, s, l, m),
        m.suspended is None,
        fine(p, s, l, m.heap, frame, m.scope),
        forall|job: JobView| #[trigger] runs(p, frame, job) == continues(p, chain, job),
        0 <= n <= ids.len(),
        forall|i: int| 0 <= i < ids.len() ==> continues(p, chain, JobView::Expression(#[trigger] ids[i])),
    ensures
        abides(p, s, l, m.push_all(evals(ids).take(n))),
    decreases n,
{
    if n > 0 {
        lemma_chain_evals(p, s, l, m, chain, frame, ids, n - 1);
        let earlier = m.push_all(evals(ids).take(n - 1));
        let id = ids[ids.len() - n];
        assert(runs(p, frame, JobView::Expression(id)));
        lemma_eval(p, s, l, earlier, id);
        assert(earlier.push(Frame::Eval(id)).frames =~= m.push_all(evals(ids).take(n)).frames);
    } else {
        assert(m.push_all(evals(ids).take(0)).frames =~= m.frames);
    }
}

/// The operators.
#[verifier::spinoff_prover]
proof fn lemma_operated(p: Program, s: Sight, l: Labels, before: HeapView, m: MachineView, frame: Frame)
    requires
        ready(p, s, l, before, m, frame),
        frame is Unary || frame is Binary || frame is BinaryRight,
    ensures
        leads_on(p, s, m.step(p, frame)),
{
    lemma_ready(p, s, l, before, m, frame);
    lemma_steady(p, s, l, before, m, frame);
    match frame {
        Frame::Unary { operator, operand } => {
            let value = m.top();
            let rest = if m.answered is None { m.pop().read_text(value) } else { m.pop() };
            let made = unary(p, m.heap, operator, operand, value, m.answered);
            lemma_concluded(p, s, l, before, m, rest, made, rest.give(value), frame);
        },
        Frame::Binary { left, operator, right } => {
            let r = m.top();
            let x = m.pop().top();
            let popped = m.pop().pop();
            let rest = if m.answered is None { popped.read_text(x).read_text(r) } else { popped };
            let made = binary(p, left, operator, right, x, r, m.answered);
            lemma_concluded(p, s, l, before, m, rest, made, rest.give(x).give(r), frame);
        },
        Frame::BinaryRight { left, operator, right } => {
            assert(runs(p, frame, JobView::Expression(right)));
            let next = Frame::Binary { left, operator, right };
            lemma_bare(p, s, l, m, next);
            lemma_eval(p, s, l, m.push(next), right);
            lemma_found(p, s, l, m.push(next).push(Frame::Eval(right)));
            lemma_found(p, s, l, m);
            let popped = m.pop();
            assert(abides(p, s, l, popped));
            lemma_eval(p, s, l, popped, right);
            lemma_found(p, s, l, popped.push(Frame::Eval(right)));
        },
        _ => {},
    }
}

/// An operator's outcome: `rest` and `asking` differ from `m` in their values and their work.
proof fn lemma_concluded(
    p: Program,
    s: Sight,
    l: Labels,
    before: HeapView,
    m: MachineView,
    rest: MachineView,
    made: Made,
    asking: MachineView,
    frame: Frame,
)
    requires
        steady(p, s, l, before, m),
        rest == (MachineView { values: rest.values, work: rest.work, ..m }),
        asking == (MachineView { values: asking.values, work: asking.work, ..m }),
        bare(frame),
    ensures
        leads_on(p, s, rest.concluded(made, asking.push(frame))),
{
    assert(abides(p, s, l, rest));
    assert(abides(p, s, l, asking));
    lemma_bare(p, s, l, asking, frame);
    lemma_found(p, s, l, asking.push(frame));
    assert(good(before, rest));
    lemma_issue(p, s, l, before, rest);
    if let Turn::Go(after) = rest.concluded(made, asking.push(frame)) {
        assert(abides(p, s, l, after));
        lemma_found(p, s, l, after);
    }
}

/// Making and changing collections.
#[verifier::spinoff_prover]
proof fn lemma_collected(p: Program, s: Sight, l: Labels, before: HeapView, m: MachineView, frame: Frame)
    requires
        ready(p, s, l, before, m, frame),
        frame is BuildArray || frame is BuildObject || frame is Discard,
    ensures
        leads_on(p, s, m.step(p, frame)),
{
    lemma_ready(p, s, l, before, m, frame);
    lemma_steady(p, s, l, before, m, frame);
    if let Turn::Go(after) = m.step(p, frame) {
        if sized(after) {
            match frame {
                Frame::BuildArray { count, .. } => {
                    lemma_allocated_still(m.heap, SlotView::Array { items: m.tops(count as int), version: 0 }, s.name);
                    lemma_heap(p, s, l, before, m, after.heap);
                },
                Frame::BuildObject(id) => {
                    if let ExpressionKind::Object { entries, .. } = p.expr(id).kind {
                        let values = m.tops(entries@.len() as int);
                        let slot = SlotView::Object {
                            entries: crate::interpreter::semantics::literal_entries(p, id, values, values.len() as int),
                            version: 0,
                        };
                        lemma_allocated_still(m.heap, slot, s.name);
                        lemma_heap(p, s, l, before, m, after.heap);
                    }
                },
                _ => {},
            }
            assert(abides(p, s, l, after));
            lemma_found(p, s, l, after);
        }
    }
}

#[verifier::spinoff_prover]
proof fn lemma_member_assigned(p: Program, s: Sight, l: Labels, before: HeapView, m: MachineView, target: ExprId)
    requires
        ready(p, s, l, before, m, Frame::AssignMember(target)),
    ensures
        leads_on(p, s, m.member_assigned(p, target)),
{
    let frame = Frame::AssignMember(target);
    lemma_ready(p, s, l, before, m, frame);
    lemma_steady(p, s, l, before, m, frame);
    let value = m.top();
    let rest = m.pop();
    lemma_bare(p, s, l, m, frame);
    assert(MachineView { answered: None, ..m }.push(frame) == MachineView { answered: None, ..m.push(frame) });
    if let ExpressionKind::Access { links, .. } = p.expr(target).kind {
        if links@.len() > 0 {
            match links@.last().kind {
                AccessKind::Property(property) => {
                    if let RtView::Object(object) = rest.top() {
                        lemma_object_still(m.heap, object, property.name@, value, s.name);
                        lemma_heap(p, s, l, before, m, m.heap.object_store(object, property.name@, value));
                    }
                },
                AccessKind::Index { .. } => {
                    match (rest.pop().top(), rest.top()) {
                        (RtView::Array(array), RtView::Number(n)) => {
                            if let Some(i) = position_of(n) {
                                lemma_array_still(m.heap, array, i, value, s.name);
                                if let Some(heap) = m.heap.array_store(array, i, value) {
                                    lemma_heap(p, s, l, before, m, heap);
                                }
                            }
                        },
                        (RtView::Object(object), RtView::String(k, _)) => {
                            lemma_object_still(m.heap, object, k, value, s.name);
                            lemma_heap(p, s, l, before, m, m.heap.object_store(object, k, value));
                        },
                        _ => {},
                    }
                },
                AccessKind::Call { .. } => {},
            }
        }
    }
    match m.member_assigned(p, target) {
        Turn::Go(after) => {
            assert(abides(p, s, l, after));
            lemma_found(p, s, l, after);
        },
        Turn::Halt(after, _) => {
            assert(abides(p, s, l, after));
            lemma_found(p, s, l, after);
        },
        Turn::Fail(_) => {},
    }
}

proof fn lemma_object_still(heap: HeapView, id: SlotId, key: Seq<char>, value: RtView, name: Seq<char>)
    ensures
        still(heap, heap.object_store(id, key, value), name),
{
    lemma_same_slots_still(heap, heap, name);
    if let SlotView::Object { entries, version } = heap.slot(id) {
        lemma_replaced_still(
            heap,
            id,
            SlotView::Object {
                entries: put(entries, key, value),
                version: crate::interpreter::heap::bumped(version),
            },
            name,
        );
    }
}

proof fn lemma_array_still(heap: HeapView, id: SlotId, index: int, value: RtView, name: Seq<char>)
    ensures
        heap.array_store(id, index, value) matches Some(after) ==> still(heap, after, name),
{
    if let SlotView::Array { items, version } = heap.slot(id) {
        let version = crate::interpreter::heap::bumped(version);
        lemma_replaced_still(heap, id, SlotView::Array { items: items.update(index, value), version }, name);
        lemma_replaced_still(heap, id, SlotView::Array { items: items.push(value), version }, name);
    }
}

/// The scope that a name resolves to binds it.
pub proof fn lemma_owner(heap: HeapView, scope: SlotId, name: Seq<char>, fuel: nat)
    ensures
        heap.resolve_within(scope, name, fuel) matches Some(owner) ==> heap.slot(owner) is Scope && has_key(
            heap.bindings(owner),
            name,
        ),
    decreases fuel,
{
    if fuel > 0 {
        if let SlotView::Scope { bindings, parent, .. } = heap.slot(scope) {
            assert(heap.bindings(scope) == bindings);
            if let Some(outer) = parent {
                lemma_owner(heap, outer, name, (fuel - 1) as nat);
            }
        }
    }
}

/// Assigning to the name, where it is no function for certain.
#[verifier::spinoff_prover]
proof fn lemma_assigned(p: Program, s: Sight, l: Labels, before: HeapView, m: MachineView, target: ExprId)
    requires
        ready(p, s, l, before, m, Frame::AssignName(target)),
    ensures
        leads_on(p, s, m.step(p, Frame::AssignName(target))),
{
    let frame = Frame::AssignName(target);
    lemma_ready(p, s, l, before, m, frame);
    lemma_steady(p, s, l, before, m, frame);
    if let ExpressionKind::Identifier(node) = p.expr(target).kind {
        let name = node.name@;
        lemma_owner(m.heap, m.scope, name, m.heap.slots.len());
        if let Some(owner) = m.heap.resolve(m.scope, name) {
            let value = m.top();
            let heap = m.heap.declared(owner, name, value);
            let after = MachineView { heap, ..m.pop() };
            if name != s.name {
                lemma_declared_still(m.heap, owner, name, value, s.name);
                lemma_heap(p, s, l, before, m, heap);
            } else {
                assert(reassigned(p, s.name));
                lemma_overwritten(p, s, l, m, owner, value);
            }
            assert(abides(p, s, l, after));
            lemma_found(p, s, l, after);
        }
    }
}

proof fn lemma_overwritten(p: Program, s: Sight, l: Labels, m: MachineView, owner: SlotId, value: RtView)
    requires
        abides(p, s, l, m),
        homed(m.heap),
        reassigned(p, s.name),
        m.heap.slot(owner) is Scope,
        has_key(m.heap.bindings(owner), s.name),
        m.suspended is None,
    ensures
        abides(p, s, l, MachineView { heap: m.heap.declared(owner, s.name, value), ..m }),
{
    let a = m.heap;
    let b = a.declared(owner, s.name, value);
    if let SlotView::Scope { bindings, parent, captured } = a.slot(owner) {
        lemma_put_keys(bindings, s.name, value);
        assert forall|id: SlotId| #[trigger] shape(b, s.name, id) == shape(a, s.name, id) by {
            if id != owner {
                assert(b.slot(id) == a.slot(id));
            }
        }
        lemma_alike(s, l, a, b);
        lemma_resettled(p, s, l, a, l, b, m.frames, m.scope, false, l.next);
        assert(carried(s, l, a, l, b, m.scope));
        assert forall|id: SlotId| (#[trigger] b.slot(id)) is Scope implies l.ages(id) < l.next && (has_key(
            b.bindings(id),
            s.name,
        ) ==> l.soils(id)) && (around(b, id) matches Some(outer) ==> l.ages(outer) < l.ages(id)) by {
            assert(shape(b, s.name, id) == shape(a, s.name, id));
            assert(a.slot(id) is Scope);
        }
        assert forall|id: SlotId, n: usize| b.slot(id) is Scope && #[trigger] l.sures(id, n) implies only(
            p,
            b,
            m.functions,
            b.bindings(id),
            s.name,
            n,
        ) by {}
        assert forall|id: SlotId| (#[trigger] b.slot(id)) is Function implies housed_at(p, s, l, b, m.functions, id) by {
            assert(id != owner);
            assert(b.slot(id) == a.slot(id));
            if let SlotView::Function { definition, scope: home } = a.slot(id) {
                assert(a.captured(home));
                lemma_housed(p, s, l, a, l, b, m.functions, m.functions, definition, home);
            }
        }
    }
}

/// Whether the value on top is the function that a `let` of the name is written with.
pub open spec fn poised(p: Program, s: Sight, m: MachineView, at: StmtAt) -> bool {
    lets(statement_at(p, at), s.name) ==> (arity_of(p, statement_at(p, at)) matches Some(a) ==> worth(
        p,
        m.heap,
        m.functions,
        m.top(),
        a,
    ))
}

#[verifier::spinoff_prover]
proof fn lemma_declared(p: Program, s: Sight, l: Labels, before: HeapView, m: MachineView, at: StmtAt)
    requires
        ready(p, s, l, before, m, Frame::Declare(at)),
        poised(p, s, m, at),
    ensures
        leads_on(p, s, m.step(p, Frame::Declare(at))),
{
    let frame = Frame::Declare(at);
    lemma_ready(p, s, l, before, m, frame);
    lemma_steady(p, s, l, before, m, frame);
    if let StatementKind::Let { name, .. } = statement_at(p, at).kind {
        let value = m.top();
        let heap = m.heap.declared(m.scope, name.name@, value);
        let after = MachineView { heap, ..m.pop() };
        if name.name@ != s.name {
            lemma_declared_still(m.heap, m.scope, name.name@, value, s.name);
            lemma_heap(p, s, l, before, m, heap);
        } else {
            assert(lets(statement_at(p, at), s.name));
            lemma_bound_top(p, s, l, m.heap, m.functions, m.frames, m.scope, value);
        }
        assert(abides(p, s, l, after));
        lemma_found(p, s, l, after);
    } else {
        assert(abides(p, s, l, m.pop()));
        lemma_found(p, s, l, m.pop());
    }
}

/// Tests of conditions.
#[verifier::spinoff_prover]
proof fn lemma_tested(p: Program, s: Sight, l: Labels, before: HeapView, m: MachineView, frame: Frame)
    requires
        ready(p, s, l, before, m, frame),
        frame is Branch || frame is LoopTest,
    ensures
        leads_on(p, s, m.step(p, frame)),
{
    lemma_ready(p, s, l, before, m, frame);
    lemma_steady(p, s, l, before, m, frame);
    let popped = m.pop();
    assert(abides(p, s, l, popped));
    assert(steady(p, s, l, before, popped));
    lemma_found(p, s, l, popped);
    match frame {
        Frame::Branch { at, index } => {
            let whole = JobView::Statement(statement_at(p, at));
            assert(runs(p, frame, whole));
            lemma_statement_ok(p, at);
            if let StatementKind::If { branches, .. } = statement_at(p, at).kind {
                if index < branches@.len() {
                    let body = branches@[index as int].body;
                    let block = block_job(p, body, Seq::empty());
                    assert(part(p, whole, block));
                    lemma_piece(p, s, l, m.heap, whole, block, m.scope);
                    assert(p.has_block(body));
                    lemma_entered(p, s, l, before, popped, body);
                }
            }
            lemma_branched(p, s, l, before, popped, at, index + 1);
        },
        Frame::LoopTest(state) => {
            let body = loop_body(state.kind);
            let again = Frame::Loop(state);
            assert(fine(p, s, l, m.heap, again, m.scope)) by {
                assert forall|job: JobView| #[trigger] runs(p, again, job) implies s.lives(job) && suits(
                    s,
                    l,
                    m.heap,
                    job,
                    m.scope,
                ) by {
                    assert(runs(p, frame, job));
                }
            }
            lemma_one(p, s, l, popped, again);
            crate::interpreter::lasting::lemma_push(before, popped, again);
            assert(runs(p, frame, block_job(p, body, Seq::empty())));
            lemma_entered(p, s, l, before, popped.push(again), body);
        },
        _ => {},
    }
}

#[verifier::spinoff_prover]
proof fn lemma_for_started(p: Program, s: Sight, l: Labels, before: HeapView, m: MachineView, at: StmtAt)
    requires
        ready(p, s, l, before, m, Frame::ForStart(at)),
    ensures
        leads_on(p, s, m.for_started(p, at)),
{
    let frame = Frame::ForStart(at);
    lemma_ready(p, s, l, before, m, frame);
    lemma_steady(p, s, l, before, m, frame);
    let whole = JobView::Statement(statement_at(p, at));
    assert(runs(p, frame, whole));
    if let Turn::Go(after) = m.for_started(p, at) {
        let popped = MachineView { values: after.values, work: after.work, ..m };
        assert(abides(p, s, l, popped));
        let next = after.frames.last();
        assert(after.frames == m.frames.push(next));
        assert(fine(p, s, l, m.heap, next, m.scope)) by {
            assert forall|job: JobView| #[trigger] runs(p, next, job) implies s.lives(job) && suits(
                s,
                l,
                m.heap,
                job,
                m.scope,
            ) by {
                assert(part(p, whole, job));
                lemma_piece(p, s, l, m.heap, whole, job, m.scope);
            }
        }
        lemma_one(p, s, l, popped, next);
        assert(after == popped.push(next));
        lemma_found(p, s, l, after);
    }
}

#[verifier::spinoff_prover]
proof fn lemma_advanced(p: Program, s: Sight, l: Labels, before: HeapView, m: MachineView, state: LoopFrame)
    requires
        ready(p, s, l, before, m, Frame::Loop(state)),
    ensures
        leads_on(p, s, m.advanced(p, state)),
{
    let frame = Frame::Loop(state);
    lemma_ready(p, s, l, before, m, frame);
    lemma_steady(p, s, l, before, m, frame);
    lemma_found(p, s, l, m);
    match state.kind {
        LoopKind::While { condition, .. } => {
            let test = Frame::LoopTest(state);
            assert(fine(p, s, l, m.heap, test, m.scope)) by {
                assert forall|job: JobView| #[trigger] runs(p, test, job) implies s.lives(job) && suits(
                    s,
                    l,
                    m.heap,
                    job,
                    m.scope,
                ) by {
                    assert(runs(p, frame, job));
                }
            }
            lemma_one(p, s, l, m, test);
            assert(runs(p, frame, JobView::Expression(condition)));
            lemma_eval(p, s, l, m.push(test), condition);
            lemma_found(p, s, l, m.push(test).push(Frame::Eval(condition)));
        },
        LoopKind::For { keyword, at, body, collection, version, index, over_keys } => {
            if let Some(item) = iterated(m.heap, collection, index, over_keys) {
                let next = LoopFrame {
                    kind: LoopKind::For {
                        keyword,
                        at,
                        body,
                        collection,
                        version,
                        index: (index + 1) as usize,
                        over_keys,
                    },
                    ..state
                };
                let again = Frame::Loop(next);
                let made = if over_keys { m.text_made() } else { m };
                lemma_issue(p, s, l, before, m);
                crate::interpreter::lasting::lemma_text_made(before, m);
                assert(steady(p, s, l, before, made));
                assert(fine(p, s, l, made.heap, frame, m.scope)) by {
                    lemma_same_slots_still(m.heap, made.heap, s.name);
                    lemma_alike(s, l, m.heap, made.heap);
                    assert(carried(s, l, m.heap, l, made.heap, m.scope));
                    lemma_fine_carried(p, s, l, m.heap, l, made.heap, frame, m.scope);
                }
                assert(fine(p, s, l, made.heap, again, m.scope)) by {
                    assert forall|job: JobView| #[trigger] runs(p, again, job) implies s.lives(job) && suits(
                        s,
                        l,
                        made.heap,
                        job,
                        m.scope,
                    ) by {
                        assert(runs(p, frame, job));
                    }
                }
                lemma_one(p, s, l, made, again);
                crate::interpreter::lasting::lemma_push(before, made, again);
                assert(runs(p, again, block_job(p, body, loop_seed(p, at))));
                lemma_round(p, s, l, before, made.push(again), at, body, item, loop_seed(p, at));
            }
        },
    }
}

/// One round of a `for`.
proof fn lemma_round(
    p: Program,
    s: Sight,
    l: Labels,
    before: HeapView,
    m: MachineView,
    at: StmtAt,
    body: BlockId,
    item: RtView,
    seed: Seq<(Seq<char>, Span)>,
)
    requires
        steady(p, s, l, before, m),
        seed == loop_seed(p, at),
        s.lives(block_job(p, body, seed)),
        suits(s, l, m.heap, block_job(p, body, seed), m.scope),
        p.has_block(body),
    ensures
        ({
            let inner = m.scoped(m.scope);
            let named = match statement_at(p, at).kind {
                StatementKind::For { binding, .. } => MachineView {
                    heap: inner.heap.declared(inner.scope, binding.name@, item),
                    ..inner
                },
                _ => inner,
            };
            abides_on(p, s, named.push(Frame::ExitScope(m.scope)).opened(p, Some(body)))
        }),
{
    let inner = m.scoped(m.scope);
    let named = match statement_at(p, at).kind {
        StatementKind::For { binding, .. } => MachineView {
            heap: inner.heap.declared(inner.scope, binding.name@, item),
            ..inner
        },
        _ => inner,
    };
    let back = Frame::ExitScope(m.scope);
    let slot = SlotView::Scope { bindings: Seq::empty(), parent: Some(m.scope), captured: false };
    lemma_sound(before, m);
    lemma_roomy(m.heap, slot);
    lemma_hoisted_grows(p, named.push(back), Some(body), 0);
    if sized(named.push(back).opened(p, Some(body))) {
        lemma_allocated(m.heap, slot);
        crate::interpreter::lasting::lemma_scoped(before, m, inner.push(back), m.scope, back);
        let new = m.heap.next();
        if let StatementKind::For { binding, .. } = statement_at(p, at).kind {
            lemma_bound_name(before, inner.push(back), inner.scope, binding.name@, item);
            assert(named.push(back) == MachineView {
                heap: inner.push(back).heap.declared(inner.scope, binding.name@, item),
                ..inner.push(back)
            });
            lemma_put_keys(Seq::<(Seq<char>, RtView)>::empty(), binding.name@, item);
            assert forall|id: SlotId| id != new implies #[trigger] named.heap.slot(id) == m.heap.slot(id) by {
                assert(inner.heap.slot(id) == m.heap.slot(id));
            }
            assert(seed[0].0 == binding.name@);
        }
        assert(unfolds(m.heap, named.heap, new, Some(m.scope), seed, s.name));
        assert(fine(p, s, l, m.heap, back, m.scope));
        lemma_enter(p, s, l, before, m, m.scope, back, named.push(back), body, seed, false);
    }
}

/// The parameters of a call are bound in its scope alone.
proof fn lemma_parameters(heap: HeapView, scope: SlotId, function: Function, values: Seq<RtView>, n: int, name: Seq<char>)
    requires
        heap.slot(scope) is Scope,
        0 <= n <= function.parameters@.len(),
        !has_key(heap.bindings(scope), name),
    ensures
        ({
            let after = bound(heap, scope, function, values, n);
            &&& forall|id: SlotId| id != scope ==> #[trigger] after.slot(id) == heap.slot(id)
            &&& after.slot(scope) is Scope
            &&& around(after, scope) == around(heap, scope)
            &&& has_key(after.bindings(scope), name) ==> seeded(seed_of(function.parameters@), name)
            &&& after.slots.len() == heap.slots.len()
            &&& after.free == heap.free
        }),
    decreases n,
{
    if n > 0 {
        lemma_parameters(heap, scope, function, values, n - 1, name);
        let earlier = bound(heap, scope, function, values, n - 1);
        let after = bound(heap, scope, function, values, n);
        let parameter = function.parameters@[n - 1].name@;
        if let SlotView::Scope { bindings, parent, captured } = earlier.slot(scope) {
            lemma_put_keys(bindings, parameter, values[n - 1]);
            assert forall|id: SlotId| id != scope implies #[trigger] after.slot(id) == heap.slot(id) by {
                assert(earlier.slot(id) == heap.slot(id));
            }
            assert(seed_of(function.parameters@)[n - 1].0 == parameter);
        }
    }
}

#[verifier::spinoff_prover]
proof fn lemma_invoked(
    p: Program,
    s: Sight,
    l: Labels,
    before: HeapView,
    m: MachineView,
    chain: Chain,
    index: usize,
    in_target: bool,
    arguments: usize,
)
    requires
        ready(p, s, l, before, m, Frame::Invoke { chain, index, in_target, arguments }),
    ensures
        leads_on(p, s, m.invoked(p, chain, index, in_target, arguments)),
{
    let frame = Frame::Invoke { chain, index, in_target, arguments };
    lemma_ready(p, s, l, before, m, frame);
    lemma_steady(p, s, l, before, m, frame);
    let links = chain_links(p, chain);
    if index < links.len() {
        let rest = m.pops(arguments as int).pop();
        let values = m.tops(arguments as int);
        if let RtView::Function(slot) = m.pops(arguments as int).top() {
            if let SlotView::Function { definition, scope } = m.heap.slot(slot) {
                if m.defined(p, definition) is Some {
                    let function = m.defined(p, definition)->0;
                    if values.len() == function.parameters@.len() {
                        let at = m.functions[definition as int];
                        assert(fn_ok(p, at));
                        lemma_function_body(p, at);
                        assert(m.heap.captured(scope));
                        assert(housed(p, s, l, m.heap, m.functions, definition, scope));
                        let job = body_job(p, function);
                        assert(suits(s, l, m.heap, job, scope)) by {
                            assert forall|k: nat| #[trigger] s.hides(job, k) implies clear(m.heap, s.name, scope, k) by {
                                assert(never(l, m.heap, scope, k));
                                lemma_never_clear(p, s, l, m.heap, scope, k);
                            }
                        }
                        let back = Frame::CallEnd {
                            outer_scope: m.scope,
                            values: rest.values.len() as usize,
                            chain,
                            index,
                            in_target,
                        };
                        lemma_same_chain(p, s, l, m.heap, frame, back, chain, m.scope);
                        assert(abides(p, s, l, rest));
                        lemma_called(p, s, l, before, rest, scope, function, values, back);
                    }
                }
            }
        }
    }
}

/// Calling a function whose scope suits its body.
proof fn lemma_called(
    p: Program,
    s: Sight,
    l: Labels,
    before: HeapView,
    m: MachineView,
    home: SlotId,
    function: Function,
    values: Seq<RtView>,
    back: Frame,
)
    requires
        steady(p, s, l, before, m),
        m.heap.slot(home) is Scope,
        s.lives(body_job(p, function)),
        suits(s, l, m.heap, body_job(p, function), home),
        back is CallEnd,
        below(back, m.scope) == m.scope,
        fine(p, s, l, m.heap, back, m.scope),
        p.has_block(function.body),
        values.len() == function.parameters@.len(),
    ensures
        ({
            let framed = MachineView { depth: m.depth + 1, ..m.scoped(home) }.push(back);
            abides_on(
                p,
                s,
                MachineView {
                    heap: bound(framed.heap, framed.scope, function, values, function.parameters@.len() as int),
                    ..framed
                }.opened(p, Some(function.body)),
            )
        }),
{
    let n = function.parameters@.len() as int;
    let framed = MachineView { depth: m.depth + 1, ..m.scoped(home) }.push(back);
    let named = MachineView { heap: bound(framed.heap, framed.scope, function, values, n), ..framed };
    let slot = SlotView::Scope { bindings: Seq::empty(), parent: Some(home), captured: false };
    let new = m.heap.next();
    let seed = seed_of(function.parameters@);
    lemma_sound(before, m);
    lemma_roomy(m.heap, slot);
    lemma_bound_len(framed.heap, new, function, values, n);
    lemma_hoisted_grows(p, named, Some(function.body), 0);
    if sized(named.opened(p, Some(function.body))) {
        lemma_allocated(m.heap, slot);
        crate::interpreter::lasting::lemma_scoped(before, m, framed, home, back);
        crate::interpreter::lasting::lemma_parameters(
            before,
            framed,
            framed.scope,
            function,
            values,
            n,
        );
        lemma_parameters(framed.heap, new, function, values, n, s.name);
        assert(unfolds(m.heap, named.heap, new, Some(home), seed, s.name)) by {
            assert forall|id: SlotId| id != new implies #[trigger] named.heap.slot(id) == m.heap.slot(id) by {
                assert(framed.heap.slot(id) == m.heap.slot(id));
            }
        }
        lemma_enter(p, s, l, before, m, home, back, named, function.body, seed, true);
    }
}

proof fn lemma_bound_len(heap: HeapView, scope: SlotId, function: Function, values: Seq<RtView>, n: int)
    ensures
        bound(heap, scope, function, values, n).slots.len() == heap.slots.len(),
        bound(heap, scope, function, values, n).free == heap.free,
    decreases n,
{
    if n > 0 {
        lemma_bound_len(heap, scope, function, values, n - 1);
    }
}

/// A step keeps to what is known of the name.
#[verifier::spinoff_prover]
pub proof fn lemma_step_abides(p: Program, s: Sight, l: Labels, before: HeapView, m: MachineView, frame: Frame)
    requires
        ready(p, s, l, before, m, frame),
        frame matches Frame::Declare(at) ==> poised(p, s, m, at),
    ensures
        leads_on(p, s, m.step(p, frame)),
{
    match frame {
        Frame::Statement(at) => {
            if terminator(statement_at(p, at).kind) is Some {
                lemma_ending(p, s, l, before, m, at);
            } else {
                lemma_statement(p, s, l, before, m, at);
            }
        },
        Frame::ExitScope(outer) => {
            lemma_ready(p, s, l, before, m, frame);
            lemma_exit(p, s, l, before, m, frame, false);
            assert(abides(p, s, l, m.exited(outer)));
            lemma_found(p, s, l, m.exited(outer));
        },
        Frame::Eval(id) => {
            lemma_expression(p, s, l, before, m, id);
        },
        Frame::Declare(at) => {
            lemma_declared(p, s, l, before, m, at);
        },
        Frame::Return(_) => {
            lemma_ready(p, s, l, before, m, frame);
            assert(m.push(frame).frames.drop_last() =~= m.frames);
            lemma_dropped(before, m.push(frame));
            assert(MachineView { frames: m.push(frame).frames.drop_last(), ..m.push(frame) } == m);
            lemma_returned(p, s, l, before, m.pop(), m.top(), true);
            lemma_found(p, s, l, m.pop().returned(m.top()));
        },
        Frame::Unary { .. } => {
            lemma_operated(p, s, l, before, m, frame);
        },
        Frame::Binary { .. } => {
            lemma_operated(p, s, l, before, m, frame);
        },
        Frame::BinaryRight { .. } => {
            lemma_operated(p, s, l, before, m, frame);
        },
        Frame::BuildArray { .. } => {
            lemma_collected(p, s, l, before, m, frame);
        },
        Frame::BuildObject(_) => {
            lemma_collected(p, s, l, before, m, frame);
        },
        Frame::Discard => {
            lemma_collected(p, s, l, before, m, frame);
        },
        Frame::Link { .. } => {
            lemma_linked(p, s, l, before, m, frame);
        },
        Frame::IndexRead { .. } => {
            lemma_linked(p, s, l, before, m, frame);
        },
        Frame::HostCall { .. } => {
            lemma_linked(p, s, l, before, m, frame);
        },
        Frame::AssignName(target) => {
            lemma_assigned(p, s, l, before, m, target);
        },
        Frame::AssignMember(target) => {
            lemma_member_assigned(p, s, l, before, m, target);
        },
        Frame::Branch { .. } => {
            lemma_tested(p, s, l, before, m, frame);
        },
        Frame::LoopTest(_) => {
            lemma_tested(p, s, l, before, m, frame);
        },
        Frame::Loop(state) => {
            lemma_advanced(p, s, l, before, m, state);
        },
        Frame::ForStart(at) => {
            lemma_for_started(p, s, l, before, m, at);
        },
        Frame::Invoke { chain, index, in_target, arguments } => {
            lemma_invoked(p, s, l, before, m, chain, index, in_target, arguments);
        },
        Frame::CallEnd { outer_scope, values, chain, index, in_target } => {
            lemma_ready(p, s, l, before, m, frame);
            lemma_call_ended(p, s, l, before, m, frame, RtView::Null);
            lemma_found(p, s, l, m.call_ended(outer_scope, values, chain, index, in_target, RtView::Null));
        },
    }
}

} // verus!

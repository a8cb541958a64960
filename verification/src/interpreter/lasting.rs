//! What an execution keeps: every collection, every function and every captured scope until its end,
//! and of the other scopes those, and only those, that are still open.

use vstd::prelude::*;
use crate::ast::AccessKind;
use crate::ast::BlockId;
use crate::ast::ExprId;
use crate::ast::ExpressionKind;
use crate::ast::Function;
use crate::ast::Program;
use crate::ast::StatementKind;
use crate::diagnostics::Span;
use crate::interpreter::attach::attach_entries;
use crate::interpreter::attach::attach_items;
use crate::interpreter::attach::attach_value;
use crate::interpreter::attach::keyed;
use crate::interpreter::heap::HeapView;
use crate::interpreter::heap::RtView;
use crate::interpreter::heap::SlotId;
use crate::interpreter::heap::SlotView;
use crate::interpreter::keeping::law_failure_leaves_the_rest;
use crate::interpreter::machine::resumed;
use crate::interpreter::machine::started;
use crate::interpreter::machine::variables_bound;
use crate::interpreter::scopes::around;
use crate::interpreter::scopes::chained;
use crate::interpreter::scopes::law_capture_keeps_the_chain;
use crate::interpreter::scopes::linked;
use crate::interpreter::semantics::Chain;
use crate::interpreter::semantics::FnAt;
use crate::interpreter::semantics::Frame;
use crate::interpreter::semantics::LoopFrame;
use crate::interpreter::semantics::LoopKind;
use crate::interpreter::semantics::MachineView;
use crate::interpreter::semantics::Made;
use crate::interpreter::semantics::Meter;
use crate::interpreter::semantics::Site;
use crate::interpreter::semantics::StmtAt;
use crate::interpreter::semantics::Turn;
use crate::interpreter::semantics::added;
use crate::interpreter::semantics::binary;
use crate::interpreter::semantics::bound;
use crate::interpreter::semantics::chain_links;
use crate::interpreter::semantics::definition_of;
use crate::interpreter::semantics::element;
use crate::interpreter::semantics::evals;
use crate::interpreter::semantics::iterated;
use crate::interpreter::semantics::literal_entries;
use crate::interpreter::semantics::loop_body;
use crate::interpreter::semantics::scheduled;
use crate::interpreter::semantics::statement_at;
use crate::interpreter::semantics::unary;
use crate::interpreter::value::ValueView;
use crate::number::position_of;

verus! {

/// The scopes that are open, the outermost first: the current one, and those that the frames go back
/// to.
pub open spec fn open_scopes(frames: Seq<Frame>, scope: SlotId) -> Seq<SlotId>
    decreases frames.len(),
{
    if frames.len() == 0 {
        seq![scope]
    } else {
        match frames.last() {
            Frame::ExitScope(outer) => open_scopes(frames.drop_last(), outer).push(scope),
            Frame::CallEnd { outer_scope, .. } => open_scopes(frames.drop_last(), outer_scope).push(scope),
            _ => open_scopes(frames.drop_last(), scope),
        }
    }
}

/// Whether every loop that runs goes back to the scope that it was started in.
pub open spec fn looped(frames: Seq<Frame>, scope: SlotId) -> bool
    decreases frames.len(),
{
    if frames.len() == 0 {
        true
    } else {
        match frames.last() {
            Frame::ExitScope(outer) => looped(frames.drop_last(), outer),
            Frame::CallEnd { outer_scope, .. } => looped(frames.drop_last(), outer_scope),
            Frame::Loop(state) => state.outer_scope == scope && looped(frames.drop_last(), scope),
            Frame::LoopTest(state) => state.outer_scope == scope && looped(frames.drop_last(), scope),
            _ => looped(frames.drop_last(), scope),
        }
    }
}

/// Whether the scope of every function is captured.
pub open spec fn homed(heap: HeapView) -> bool {
    forall|id: SlotId| #[trigger] heap.slot(id) matches SlotView::Function { scope, .. } ==> heap.captured(scope)
}

/// Whether every open scope is there.
pub open spec fn present(heap: HeapView, open: Seq<SlotId>) -> bool {
    forall|i: int| 0 <= i < open.len() ==> heap.slot(#[trigger] open[i]) is Scope
}

/// Whether an open scope that no function captured is none of those further out, and around none of
/// them.
pub open spec fn apart(heap: HeapView, open: Seq<SlotId>) -> bool {
    forall|i: int, j: int|
        0 <= i < j < open.len() && !heap.captured(open[j]) ==> (#[trigger] open[i]) != (#[trigger] open[j]) && around(
            heap,
            open[i],
        ) != Some(open[j])
}

/// Whether every scope that no function captured is open.
pub open spec fn reclaimed(heap: HeapView, open: Seq<SlotId>) -> bool {
    forall|id: SlotId| #[trigger] heap.slot(id) is Scope && !heap.captured(id) ==> open.contains(id)
}

/// What holds of a heap while these scopes are open.
pub open spec fn sound(heap: HeapView, open: Seq<SlotId>) -> bool {
    &&& heap.wf()
    &&& chained(heap)
    &&& homed(heap)
    &&& present(heap, open)
    &&& apart(heap, open)
    &&& reclaimed(heap, open)
}

/// Whether what one slot holds lasts in another: a collection stays one, a function stays the same,
/// and a captured scope stays captured, inside the same scope.
pub open spec fn slot_lasts(before: SlotView, after: SlotView) -> bool {
    match before {
        SlotView::Free => true,
        SlotView::Array { .. } => after is Array,
        SlotView::Object { .. } => after is Object,
        SlotView::Function { .. } => after == before,
        SlotView::Scope { parent, captured, .. } => captured ==> (after matches SlotView::Scope {
            parent: same,
            captured: still,
            ..
        } && same == parent && still),
    }
}

/// Whether everything but the scopes that no function captured is still in the heap.
pub open spec fn lasts(before: HeapView, after: HeapView) -> bool {
    forall|id: SlotId| slot_lasts(before.slot(id), #[trigger] after.slot(id))
}

/// Whether a heap grew out of another, with these scopes open: as long as its slots can be numbered,
/// it is sound, and everything in the other lasts.
pub open spec fn grew(before: HeapView, heap: HeapView, open: Seq<SlotId>) -> bool {
    &&& before.slots.len() <= heap.slots.len()
    &&& heap.slots.len() <= usize::MAX ==> sound(heap, open) && lasts(before, heap)
}

/// Whether two slots hold the same kind of thing: the same function, or a scope inside the same scope
/// that is captured if it was.
spec fn same_kind(a: SlotView, b: SlotView) -> bool {
    match (a, b) {
        (SlotView::Free, SlotView::Free) => true,
        (SlotView::Array { .. }, SlotView::Array { .. }) => true,
        (SlotView::Object { .. }, SlotView::Object { .. }) => true,
        (SlotView::Function { .. }, SlotView::Function { .. }) => a == b,
        (
            SlotView::Scope { parent: p, captured: c, .. },
            SlotView::Scope { parent: q, captured: d, .. },
        ) => p == q && (c ==> d),
        _ => false,
    }
}

spec fn same_kinds(a: HeapView, b: HeapView) -> bool {
    &&& a.slots.len() == b.slots.len()
    &&& a.free == b.free
    &&& forall|s: int| 0 <= s < a.slots.len() ==> same_kind(a.slots[s], #[trigger] b.slots[s])
}

proof fn lemma_kinds_wf(a: HeapView, b: HeapView)
    requires
        a.wf(),
        same_kinds(a, b),
    ensures
        b.wf(),
{
    assert forall|i: int| 0 <= i < b.free.len() implies (#[trigger] b.free[i]).0 < b.slots.len()
        && b.slots[b.free[i].0 as int] is Free by {
        assert(a.free[i].0 < a.slots.len() && a.slots[a.free[i].0 as int] is Free);
    }
    assert forall|s: int| 0 <= s < b.slots.len() && (#[trigger] b.slots[s]) is Free implies exists|i: int|
        0 <= i < b.free.len() && (#[trigger] b.free[i]).0 == s by {
        assert(a.slots[s] is Free);
        let i = choose|i: int| 0 <= i < a.free.len() && (#[trigger] a.free[i]).0 == s;
        assert(b.free[i].0 == s);
    }
}

/// A heap whose slots hold the same kinds of things is as sound, if its chains are whole.
proof fn lemma_kinds(before: HeapView, a: HeapView, b: HeapView, open: Seq<SlotId>)
    requires
        grew(before, a, open),
        same_kinds(a, b),
        a.slots.len() <= usize::MAX ==> chained(b),
    ensures
        grew(before, b, open),
{
    if a.slots.len() <= usize::MAX {
        lemma_kinds_wf(a, b);
        assert forall|id: SlotId| same_kind(a.slot(id), #[trigger] b.slot(id)) by {
            if id.0 < a.slots.len() {
                assert(same_kind(a.slots[id.0 as int], b.slots[id.0 as int]));
            }
        }
        assert forall|id: SlotId| #[trigger] b.slot(id) matches SlotView::Function { scope, .. } implies b.captured(
            b.slot(id)->Function_scope,
        ) by {
            assert(same_kind(a.slot(id), b.slot(id)));
            let scope = b.slot(id)->Function_scope;
            assert(a.captured(scope));
            assert(same_kind(a.slot(scope), b.slot(scope)));
        }
        assert forall|i: int| 0 <= i < open.len() implies b.slot(#[trigger] open[i]) is Scope by {
            assert(same_kind(a.slot(open[i]), b.slot(open[i])));
            assert(a.slot(open[i]) is Scope);
        }
        assert forall|i: int, j: int| 0 <= i < j < open.len() && !b.captured(open[j]) implies (#[trigger] open[i]) != (
        #[trigger] open[j]) && around(b, open[i]) != Some(open[j]) by {
            assert(same_kind(a.slot(open[i]), b.slot(open[i])));
            assert(same_kind(a.slot(open[j]), b.slot(open[j])));
            assert(!a.captured(open[j]));
        }
        assert forall|id: SlotId| #[trigger] b.slot(id) is Scope && !b.captured(id) implies open.contains(id) by {
            assert(same_kind(a.slot(id), b.slot(id)));
            assert(a.slot(id) is Scope && !a.captured(id));
        }
        assert forall|id: SlotId| slot_lasts(before.slot(id), #[trigger] b.slot(id)) by {
            assert(slot_lasts(before.slot(id), a.slot(id)));
            assert(same_kind(a.slot(id), b.slot(id)));
        }
    }
}

/// Chains depend on the scopes alone.
proof fn lemma_chained_alike(a: HeapView, b: HeapView)
    requires
        chained(a),
        forall|id: SlotId| #[trigger] around(b, id) == around(a, id),
        forall|id: SlotId| #[trigger] b.captured(id) == a.captured(id),
        forall|id: SlotId| (#[trigger] b.slot(id) is Scope) == (a.slot(id) is Scope),
    ensures
        chained(b),
{
    assert forall|id: SlotId| #![trigger around(b, id)] linked(b, id) by {
        assert(around(b, id) == around(a, id));
        assert(linked(a, id));
        assert(b.captured(id) == a.captured(id));
        if let Some(outer) = around(a, id) {
            assert(b.captured(outer) == a.captured(outer));
            assert((b.slot(outer) is Scope) == (a.slot(outer) is Scope));
        }
    }
}

proof fn lemma_declared(before: HeapView, heap: HeapView, open: Seq<SlotId>, scope: SlotId, name: Seq<char>, value: RtView)
    requires
        grew(before, heap, open),
    ensures
        grew(before, heap.declared(scope, name, value), open),
{
    let after = heap.declared(scope, name, value);
    assert(same_kinds(heap, after));
    if heap.slots.len() <= usize::MAX {
        lemma_chained_alike(heap, after);
    }
    lemma_kinds(before, heap, after, open);
}

/// Making a string leaves every slot as it is.
proof fn lemma_issued(before: HeapView, heap: HeapView, open: Seq<SlotId>)
    requires
        grew(before, heap, open),
    ensures
        grew(before, heap.issue(), open),
{
    let after = heap.issue();
    assert(same_kinds(heap, after));
    if heap.slots.len() <= usize::MAX {
        lemma_chained_alike(heap, after);
    }
    lemma_kinds(before, heap, after, open);
}

proof fn lemma_object_store(before: HeapView, heap: HeapView, open: Seq<SlotId>, id: SlotId, key: Seq<char>, value: RtView)
    requires
        grew(before, heap, open),
    ensures
        grew(before, heap.object_store(id, key, value), open),
{
    let after = heap.object_store(id, key, value);
    assert(same_kinds(heap, after));
    if heap.slots.len() <= usize::MAX {
        lemma_chained_alike(heap, after);
    }
    lemma_kinds(before, heap, after, open);
}

proof fn lemma_array_store(before: HeapView, heap: HeapView, open: Seq<SlotId>, id: SlotId, index: int, value: RtView)
    requires
        grew(before, heap, open),
    ensures
        heap.array_store(id, index, value) matches Some(after) ==> grew(before, after, open),
{
    if let Some(after) = heap.array_store(id, index, value) {
        assert(same_kinds(heap, after));
        if heap.slots.len() <= usize::MAX {
            lemma_chained_alike(heap, after);
        }
        lemma_kinds(before, heap, after, open);
    }
}

proof fn lemma_mark_kinds(heap: HeapView, scope: SlotId, fuel: nat)
    ensures
        same_kinds(heap, heap.mark_within(scope, fuel)),
    decreases fuel,
{
    if fuel > 0 {
        if let SlotView::Scope { bindings, parent, captured } = heap.slot(scope) {
            if !captured {
                let next = heap.with(scope, SlotView::Scope { bindings, parent, captured: true });
                assert(same_kinds(heap, next));
                if let Some(outer) = parent {
                    lemma_mark_kinds(next, outer, (fuel - 1) as nat);
                    let last = next.mark_within(outer, (fuel - 1) as nat);
                    assert forall|s: int| 0 <= s < heap.slots.len() implies same_kind(
                        heap.slots[s],
                        #[trigger] last.slots[s],
                    ) by {
                        assert(same_kind(next.slots[s], last.slots[s]));
                        assert(same_kind(heap.slots[s], next.slots[s]));
                    }
                }
            }
        }
    }
}

proof fn lemma_marked(before: HeapView, heap: HeapView, open: Seq<SlotId>, scope: SlotId)
    requires
        grew(before, heap, open),
        heap.slots.len() <= usize::MAX ==> heap.slot(scope) is Scope,
    ensures
        grew(before, heap.marked(scope), open),
        heap.marked(scope).slots.len() == heap.slots.len(),
        heap.slots.len() <= usize::MAX ==> heap.marked(scope).captured(scope),
{
    lemma_mark_kinds(heap, scope, heap.slots.len());
    if heap.slots.len() <= usize::MAX {
        law_capture_keeps_the_chain(heap, scope);
    }
    lemma_kinds(before, heap, heap.marked(scope), open);
}

/// What an allocation leaves as it was.
pub proof fn lemma_allocated(heap: HeapView, slot: SlotView)
    requires
        heap.wf(),
        heap.allocated(slot).slots.len() <= usize::MAX,
        !(slot is Free),
    ensures
        heap.allocated(slot).wf(),
        heap.slots.len() <= heap.allocated(slot).slots.len(),
        heap.slot(heap.next()) is Free,
        heap.allocated(slot).slot(heap.next()) == slot,
        forall|id: SlotId| id != heap.next() ==> #[trigger] heap.allocated(slot).slot(id) == heap.slot(id),
{
    let after = heap.allocated(slot);
    let new = heap.next();
    if heap.free.len() > 0 {
        let last = heap.free.len() - 1;
        assert(heap.free[last] == new);
        assert forall|i: int| 0 <= i < after.free.len() implies (#[trigger] after.free[i]).0 < after.slots.len()
            && after.slots[after.free[i].0 as int] is Free by {
            assert(heap.free[i] == after.free[i]);
            assert(heap.free[i] != heap.free[last]);
        }
        assert forall|s: int| 0 <= s < after.slots.len() && (#[trigger] after.slots[s]) is Free implies exists|i: int|
            0 <= i < after.free.len() && (#[trigger] after.free[i]).0 == s by {
            assert(s != new.0);
            assert(heap.slots[s] is Free);
            let i = choose|i: int| 0 <= i < heap.free.len() && (#[trigger] heap.free[i]).0 == s;
            assert(i != last);
            assert(after.free[i].0 == s);
        }
    } else {
        assert forall|s: int| 0 <= s < after.slots.len() implies !((#[trigger] after.slots[s]) is Free) by {
            if s < heap.slots.len() {
                assert(after.slots[s] == heap.slots[s]);
            }
        }
    }
}

/// Whether a value is a collection, or a function whose scope is captured.
spec fn kept_kind(heap: HeapView, slot: SlotView) -> bool {
    slot is Array || slot is Object || (slot matches SlotView::Function { scope, .. } && heap.captured(scope))
}

proof fn lemma_kept(before: HeapView, heap: HeapView, open: Seq<SlotId>, slot: SlotView)
    requires
        grew(before, heap, open),
        slot is Array || slot is Object || slot is Function,
        heap.slots.len() <= usize::MAX ==> kept_kind(heap, slot),
    ensures
        grew(before, heap.allocated(slot), open),
{
    let after = heap.allocated(slot);
    let new = heap.next();
    if after.slots.len() <= usize::MAX {
        lemma_allocated(heap, slot);
        assert forall|id: SlotId| #[trigger] around(after, id) == around(heap, id) by {
            if id != new {
                assert(after.slot(id) == heap.slot(id));
            }
        }
        assert forall|id: SlotId| #[trigger] after.captured(id) == heap.captured(id) by {
            if id != new {
                assert(after.slot(id) == heap.slot(id));
            }
        }
        assert forall|id: SlotId| (#[trigger] after.slot(id) is Scope) == (heap.slot(id) is Scope) by {
            if id != new {
                assert(after.slot(id) == heap.slot(id));
            }
        }
        lemma_chained_alike(heap, after);
        assert forall|id: SlotId| #[trigger] after.slot(id) matches SlotView::Function { scope, .. } implies after.captured(
            after.slot(id)->Function_scope,
        ) by {
            if id != new {
                assert(after.slot(id) == heap.slot(id));
            }
            assert(after.captured(after.slot(id)->Function_scope) == heap.captured(after.slot(id)->Function_scope));
        }
        assert forall|i: int| 0 <= i < open.len() implies after.slot(#[trigger] open[i]) is Scope by {
            assert(heap.slot(open[i]) is Scope);
        }
        assert forall|i: int, j: int| 0 <= i < j < open.len() && !after.captured(open[j]) implies (
        #[trigger] open[i]) != (#[trigger] open[j]) && around(after, open[i]) != Some(open[j]) by {
            assert(!heap.captured(open[j]));
            assert(around(after, open[i]) == around(heap, open[i]));
        }
        assert forall|id: SlotId| #[trigger] after.slot(id) is Scope && !after.captured(id) implies open.contains(id) by {
            assert(heap.slot(id) is Scope && !heap.captured(id));
        }
        assert forall|id: SlotId| slot_lasts(before.slot(id), #[trigger] after.slot(id)) by {
            assert(slot_lasts(before.slot(id), heap.slot(id)));
            if id != new {
                assert(after.slot(id) == heap.slot(id));
            }
        }
    }
}

proof fn lemma_opened_scope(before: HeapView, heap: HeapView, open: Seq<SlotId>, parent: SlotId)
    requires
        grew(before, heap, open),
        heap.slots.len() <= usize::MAX ==> heap.slot(parent) is Scope,
    ensures
        grew(before, heap.scope_pushed(Some(parent)), open.push(heap.next())),
{
    let after = heap.scope_pushed(Some(parent));
    let new = heap.next();
    let more = open.push(new);
    if after.slots.len() <= usize::MAX {
        let slot = SlotView::Scope { bindings: Seq::empty(), parent: Some(parent), captured: false };
        lemma_allocated(heap, slot);
        assert forall|id: SlotId| #![trigger around(after, id)] linked(after, id) by {
            if id != new {
                assert(after.slot(id) == heap.slot(id));
                assert(around(heap, id) == around(after, id));
                assert(linked(heap, id));
            }
            if let Some(outer) = around(after, id) {
                assert(heap.slot(outer) is Scope);
                assert(after.slot(outer) == heap.slot(outer));
            }
        }
        assert forall|id: SlotId| #[trigger] after.slot(id) matches SlotView::Function { scope, .. } implies after.captured(
            after.slot(id)->Function_scope,
        ) by {
            assert(id != new);
            assert(after.slot(id) == heap.slot(id));
            let scope = after.slot(id)->Function_scope;
            assert(heap.captured(scope));
            assert(after.slot(scope) == heap.slot(scope));
        }
        assert forall|i: int| 0 <= i < more.len() implies after.slot(#[trigger] more[i]) is Scope by {
            if i < open.len() {
                assert(more[i] == open[i]);
                assert(heap.slot(open[i]) is Scope);
            }
        }
        assert forall|i: int, j: int| 0 <= i < j < more.len() && !after.captured(more[j]) implies (#[trigger] more[i])
            != (#[trigger] more[j]) && around(after, more[i]) != Some(more[j]) by {
            assert(more[i] == open[i]);
            assert(heap.slot(open[i]) is Scope);
            assert(after.slot(open[i]) == heap.slot(open[i]));
            assert(around(after, open[i]) == around(heap, open[i]));
            if j < open.len() {
                assert(more[j] == open[j]);
                assert(heap.slot(open[j]) is Scope);
                assert(!heap.captured(open[j]));
            } else {
                assert(linked(heap, open[i]));
            }
        }
        assert forall|id: SlotId| #[trigger] after.slot(id) is Scope && !after.captured(id) implies more.contains(id) by {
            if id == new {
                assert(more[open.len() as int] == new);
            } else {
                assert(heap.slot(id) is Scope && !heap.captured(id));
                let i = choose|i: int| 0 <= i < open.len() && open[i] == id;
                assert(more[i] == id);
            }
        }
        assert forall|id: SlotId| slot_lasts(before.slot(id), #[trigger] after.slot(id)) by {
            assert(slot_lasts(before.slot(id), heap.slot(id)));
            if id != new {
                assert(after.slot(id) == heap.slot(id));
            }
        }
    }
}

proof fn lemma_released_wf(heap: HeapView, id: SlotId)
    requires
        heap.wf(),
        !(heap.slot(id) is Free),
    ensures
        heap.release(id).wf(),
{
    let after = heap.release(id);
    assert forall|i: int| 0 <= i < after.free.len() implies (#[trigger] after.free[i]).0 < after.slots.len()
        && after.slots[after.free[i].0 as int] is Free by {
        if i < heap.free.len() {
            assert(heap.free[i] == after.free[i]);
        }
    }
    assert forall|i: int, j: int| 0 <= i < after.free.len() && 0 <= j < after.free.len() && i != j implies (
    #[trigger] after.free[i]) != (#[trigger] after.free[j]) by {
        if i < heap.free.len() {
            assert(heap.free[i] == after.free[i]);
        }
        if j < heap.free.len() {
            assert(heap.free[j] == after.free[j]);
        }
    }
    assert forall|s: int| 0 <= s < after.slots.len() && (#[trigger] after.slots[s]) is Free implies exists|i: int|
        0 <= i < after.free.len() && (#[trigger] after.free[i]).0 == s by {
        if s == id.0 {
            assert(after.free[heap.free.len() as int].0 == s);
        } else {
            assert(heap.slots[s] is Free);
            let i = choose|i: int| 0 <= i < heap.free.len() && (#[trigger] heap.free[i]).0 == s;
            assert(after.free[i].0 == s);
        }
    }
}

proof fn lemma_closed_scope(before: HeapView, heap: HeapView, open: Seq<SlotId>, scope: SlotId)
    requires
        grew(before, heap, open.push(scope)),
    ensures
        grew(before, heap.scope_released(scope), open),
{
    let after = heap.scope_released(scope);
    let more = open.push(scope);
    if heap.slots.len() <= usize::MAX {
        assert(more[open.len() as int] == scope);
        assert(heap.slot(scope) is Scope);
        assert forall|i: int| 0 <= i < open.len() implies more[i] == #[trigger] open[i] by {}
        if heap.captured(scope) {
            assert forall|i: int| 0 <= i < open.len() implies after.slot(#[trigger] open[i]) is Scope by {
                assert(more[i] == open[i]);
            }
            assert forall|i: int, j: int| 0 <= i < j < open.len() && !after.captured(open[j]) implies (
            #[trigger] open[i]) != (#[trigger] open[j]) && around(after, open[i]) != Some(open[j]) by {
                assert(more[i] == open[i] && more[j] == open[j]);
            }
            assert forall|id: SlotId| #[trigger] after.slot(id) is Scope && !after.captured(id) implies open.contains(
                id,
            ) by {
                let i = choose|i: int| 0 <= i < more.len() && more[i] == id;
                assert(open[i] == id);
            }
        } else {
            lemma_released_wf(heap, scope);
            assert forall|id: SlotId| id != scope implies #[trigger] after.slot(id) == heap.slot(id) by {}
            assert forall|i: int| 0 <= i < open.len() implies #[trigger] open[i] != scope && around(heap, open[i]) != Some(
                scope,
            ) by {
                assert(more[i] == open[i]);
            }
            assert forall|id: SlotId| #![trigger around(after, id)] linked(after, id) by {
                if id != scope {
                    assert(after.slot(id) == heap.slot(id));
                    assert(around(heap, id) == around(after, id));
                    assert(linked(heap, id));
                    if around(heap, id) == Some(scope) {
                        assert(!heap.captured(id));
                        assert(heap.slot(id) is Scope);
                        let i = choose|i: int| 0 <= i < more.len() && more[i] == id;
                        assert(open[i] == id);
                    }
                }
            }
            assert forall|id: SlotId| #[trigger] after.slot(id) matches SlotView::Function { scope: home, .. } implies
                after.captured(after.slot(id)->Function_scope) by {
                assert(after.slot(id) == heap.slot(id));
                assert(heap.captured(after.slot(id)->Function_scope));
            }
            assert forall|i: int| 0 <= i < open.len() implies after.slot(#[trigger] open[i]) is Scope by {
                assert(more[i] == open[i]);
                assert(heap.slot(more[i]) is Scope);
            }
            assert forall|i: int, j: int| 0 <= i < j < open.len() && !after.captured(open[j]) implies (
            #[trigger] open[i]) != (#[trigger] open[j]) && around(after, open[i]) != Some(open[j]) by {
                assert(more[i] == open[i] && more[j] == open[j]);
                assert(after.slot(open[i]) == heap.slot(open[i]));
                assert(after.slot(open[j]) == heap.slot(open[j]));
            }
            assert forall|id: SlotId| #[trigger] after.slot(id) is Scope && !after.captured(id) implies open.contains(
                id,
            ) by {
                assert(id != scope);
                assert(heap.slot(id) is Scope && !heap.captured(id));
                let i = choose|i: int| 0 <= i < more.len() && more[i] == id;
                assert(open[i] == id);
            }
            assert forall|id: SlotId| slot_lasts(before.slot(id), #[trigger] after.slot(id)) by {
                assert(slot_lasts(before.slot(id), heap.slot(id)));
            }
        }
    }
}

proof fn lemma_attached(before: HeapView, heap: HeapView, open: Seq<SlotId>, value: ValueView)
    requires
        grew(before, heap, open),
    ensures
        grew(before, attach_value(heap, value).0, open),
    decreases value, 0int,
{
    match value {
        ValueView::Array(items) => {
            lemma_items_attached(before, heap, open, items, 0);
            let (after, parts) = attach_items(heap, items, 0);
            lemma_kept(before, after, open, SlotView::Array { items: parts, version: 0 });
        },
        ValueView::Object(entries) => {
            lemma_entries_attached(before, heap, open, entries, 0);
            let (after, parts) = attach_entries(heap, entries, 0);
            lemma_kept(before, after, open, SlotView::Object { entries: keyed(entries, parts), version: 0 });
        },
        ValueView::String(_) => {
            lemma_issued(before, heap, open);
        },
        _ => {},
    }
}

proof fn lemma_items_attached(before: HeapView, heap: HeapView, open: Seq<SlotId>, items: Seq<ValueView>, k: int)
    requires
        grew(before, heap, open),
        0 <= k <= items.len(),
    ensures
        grew(before, attach_items(heap, items, k).0, open),
    decreases items, items.len() - k,
{
    if k < items.len() {
        lemma_attached(before, heap, open, items[k]);
        lemma_items_attached(before, attach_value(heap, items[k]).0, open, items, k + 1);
    }
}

proof fn lemma_entries_attached(
    before: HeapView,
    heap: HeapView,
    open: Seq<SlotId>,
    entries: Seq<(Seq<char>, ValueView)>,
    k: int,
)
    requires
        grew(before, heap, open),
        0 <= k <= entries.len(),
    ensures
        grew(before, attach_entries(heap, entries, k).0, open),
    decreases entries, entries.len() - k,
{
    if k < entries.len() {
        lemma_attached(before, heap, open, entries[k].1);
        lemma_entries_attached(before, attach_value(heap, entries[k].1).0, open, entries, k + 1);
    }
}

/// Whether a machine grew out of a heap: its heap did, with its scopes open, and its loops go back to
/// where they were started.
pub open spec fn good(before: HeapView, m: MachineView) -> bool {
    grew(before, m.heap, open_scopes(m.frames, m.scope)) && looped(m.frames, m.scope)
}

/// Whether a turn leads to a machine that grew out of a heap.
pub open spec fn leads(before: HeapView, turn: Turn) -> bool {
    match turn {
        Turn::Go(m) => good(before, m),
        Turn::Halt(m, _) => good(before, m),
        Turn::Fail(_) => true,
    }
}

/// Whether a frame says nothing about scopes.
pub open spec fn plain(frame: Frame) -> bool {
    !(frame is ExitScope) && !(frame is CallEnd) && !(frame is Loop) && !(frame is LoopTest)
}

proof fn lemma_current(frames: Seq<Frame>, scope: SlotId)
    ensures
        open_scopes(frames, scope).len() > 0,
        open_scopes(frames, scope).last() == scope,
    decreases frames.len(),
{
    if frames.len() > 0 {
        match frames.last() {
            Frame::ExitScope(_) => {},
            Frame::CallEnd { .. } => {},
            _ => {
                lemma_current(frames.drop_last(), scope);
            },
        }
    }
}

/// The current scope is there.
pub proof fn lemma_scope_there(before: HeapView, m: MachineView)
    requires
        good(before, m),
    ensures
        m.heap.slots.len() <= usize::MAX ==> m.heap.slot(m.scope) is Scope,
{
    lemma_current(m.frames, m.scope);
    let open = open_scopes(m.frames, m.scope);
    assert(open[open.len() - 1] == m.scope);
}

pub proof fn lemma_push(before: HeapView, m: MachineView, frame: Frame)
    requires
        good(before, m),
        plain(frame) || (frame matches Frame::Loop(state) && state.outer_scope == m.scope) || (
        frame matches Frame::LoopTest(state) && state.outer_scope == m.scope),
    ensures
        good(before, m.push(frame)),
{
    assert(m.push(frame).frames.drop_last() =~= m.frames);
}

proof fn lemma_push_all(before: HeapView, m: MachineView, more: Seq<Frame>)
    requires
        good(before, m),
        forall|i: int| 0 <= i < more.len() ==> plain(#[trigger] more[i]),
    ensures
        good(before, m.push_all(more)),
    decreases more.len(),
{
    if more.len() == 0 {
        assert(m.push_all(more).frames =~= m.frames);
    } else {
        let most = more.drop_last();
        assert forall|i: int| 0 <= i < most.len() implies plain(#[trigger] most[i]) by {
            assert(plain(more[i]));
        }
        lemma_push_all(before, m, most);
        assert(plain(more[more.len() - 1]));
        lemma_push(before, m.push_all(most), more.last());
        assert(m.push_all(most).push(more.last()).frames =~= m.push_all(more).frames);
    }
}

proof fn lemma_push_evals(before: HeapView, m: MachineView, ids: Seq<ExprId>)
    requires
        good(before, m),
    ensures
        good(before, m.push_all(evals(ids))),
{
    lemma_push_all(before, m, evals(ids));
}

pub proof fn lemma_function_made(before: HeapView, m: MachineView, at: FnAt)
    requires
        good(before, m),
    ensures
        good(before, m.function_made(at)),
{
    let open = open_scopes(m.frames, m.scope);
    let definition = definition_of(m.functions, at, 0);
    lemma_scope_there(before, m);
    lemma_marked(before, m.heap, open, m.scope);
    lemma_kept(
        before,
        m.heap.marked(m.scope),
        open,
        SlotView::Function { definition: definition as usize, scope: m.scope },
    );
}

pub proof fn lemma_bound_name(before: HeapView, m: MachineView, scope: SlotId, name: Seq<char>, value: RtView)
    requires
        good(before, m),
    ensures
        good(before, MachineView { heap: m.heap.declared(scope, name, value), ..m }),
{
    lemma_declared(before, m.heap, open_scopes(m.frames, m.scope), scope, name, value);
}

pub proof fn lemma_text_made(before: HeapView, m: MachineView)
    requires
        good(before, m),
    ensures
        good(before, m.text_made()),
{
    lemma_issued(before, m.heap, open_scopes(m.frames, m.scope));
}

/// An operator's outcome, from a machine and a question's machine that both grew out of a heap.
proof fn lemma_concluded(before: HeapView, m: MachineView, made: Made, asking: MachineView)
    requires
        good(before, m),
        good(before, asking),
    ensures
        leads(before, m.concluded(made, asking)),
{
    lemma_text_made(before, m);
}

proof fn lemma_hoisted(before: HeapView, p: Program, m: MachineView, block: Option<BlockId>, k: int)
    requires
        good(before, m),
        0 <= k,
    ensures
        good(before, m.hoisted(p, block, k)),
    decreases p.statements_of(block).len() - k,
{
    if k < p.statements_of(block).len() {
        match p.statements_of(block)[k].kind {
            StatementKind::Function { name, .. } => {
                let at = FnAt::Declared(StmtAt { block, index: k as usize });
                lemma_function_made(before, m, at);
                let made = m.function_made(at);
                lemma_bound_name(before, made, m.scope, name.name@, m.function_value());
                let next = MachineView {
                    heap: made.heap.declared(m.scope, name.name@, m.function_value()),
                    ..made
                };
                lemma_hoisted(before, p, next, block, k + 1);
            },
            _ => {
                lemma_hoisted(before, p, m, block, k + 1);
            },
        }
    }
}

proof fn lemma_opened(before: HeapView, p: Program, m: MachineView, block: Option<BlockId>)
    requires
        good(before, m),
    ensures
        good(before, m.opened(p, block)),
{
    lemma_hoisted(before, p, m, block, 0);
    lemma_push_all(before, m.hoisted(p, block, 0), scheduled(block, p.statements_of(block).len()));
}

/// A machine inside a new scope, which the frame on top leaves again.
pub proof fn lemma_scoped(before: HeapView, m: MachineView, inner: MachineView, parent: SlotId, frame: Frame)
    requires
        good(before, m),
        m.heap.slots.len() <= usize::MAX ==> m.heap.slot(parent) is Scope,
        inner.heap == m.heap.scope_pushed(Some(parent)),
        inner.scope == m.heap.next(),
        inner.frames == m.frames.push(frame),
        frame == Frame::ExitScope(m.scope) || (frame matches Frame::CallEnd { outer_scope, .. } && outer_scope
            == m.scope),
    ensures
        good(before, inner),
{
    lemma_opened_scope(before, m.heap, open_scopes(m.frames, m.scope), parent);
    assert(inner.frames.drop_last() =~= m.frames);
}

proof fn lemma_entered(before: HeapView, p: Program, m: MachineView, block: BlockId)
    requires
        good(before, m),
    ensures
        good(before, m.entered(p, block)),
{
    let inner = m.scoped(m.scope).push(Frame::ExitScope(m.scope));
    lemma_scope_there(before, m);
    lemma_scoped(before, m, inner, m.scope, Frame::ExitScope(m.scope));
    lemma_opened(before, p, inner, Some(block));
}

/// Leaving the current scope, by the frame that was on top.
pub proof fn lemma_exited(before: HeapView, m: MachineView, frame: Frame, outer: SlotId)
    requires
        good(before, m.push(frame)),
        frame == Frame::ExitScope(outer) || (frame matches Frame::CallEnd { outer_scope, .. } && outer_scope == outer),
    ensures
        good(before, m.exited(outer)),
{
    assert(m.push(frame).frames.drop_last() =~= m.frames);
    lemma_closed_scope(before, m.heap, open_scopes(m.frames, outer), m.scope);
}

proof fn lemma_branched(before: HeapView, p: Program, m: MachineView, at: StmtAt, index: int)
    requires
        good(before, m),
    ensures
        good(before, m.branched(p, at, index)),
{
    match statement_at(p, at).kind {
        StatementKind::If { branches, else_branch } => {
            if index < branches@.len() {
                let frame = Frame::Branch { at, index: index as usize };
                lemma_push(before, m, frame);
                lemma_push(before, m.push(frame), Frame::Eval(branches@[index].condition.expression));
            } else if let Some(otherwise) = else_branch {
                lemma_entered(before, p, m, otherwise.body);
            }
        },
        _ => {},
    }
}

/// Taking off a frame that leaves no scope.
pub proof fn lemma_dropped(before: HeapView, m: MachineView)
    requires
        good(before, m),
        m.frames.len() > 0,
        !(m.frames.last() is ExitScope),
        !(m.frames.last() is CallEnd),
    ensures
        good(before, MachineView { frames: m.frames.drop_last(), ..m }),
{
}

proof fn lemma_unwound(before: HeapView, m: MachineView, consume: bool)
    requires
        good(before, m),
    ensures
        good(before, m.unwound(consume)),
    decreases m.frames.len(),
{
    if m.frames.len() > 0 {
        let frame = m.frames.last();
        let rest = MachineView { frames: m.frames.drop_last(), ..m };
        assert(rest.push(frame).frames =~= m.frames);
        match frame {
            Frame::ExitScope(outer) => {
                lemma_exited(before, rest, frame, outer);
                lemma_unwound(before, rest.exited(outer), consume);
            },
            Frame::Loop(state) => {
                lemma_dropped(before, m);
                let cut = MachineView { scope: state.outer_scope, ..rest.cut(state.values as int) };
                assert(cut.scope == m.scope);
                assert(good(before, cut));
                if !consume {
                    lemma_push(before, cut, frame);
                }
            },
            Frame::CallEnd { .. } => {},
            _ => {
                lemma_dropped(before, m);
                lemma_unwound(before, rest, consume);
            },
        }
    }
}

proof fn lemma_call_ended(before: HeapView, m: MachineView, frame: Frame, value: RtView)
    requires
        good(before, m.push(frame)),
        frame is CallEnd,
    ensures
        frame matches Frame::CallEnd { outer_scope, values, chain, index, in_target } ==> good(
            before,
            m.call_ended(outer_scope, values, chain, index, in_target, value),
        ),
{
    if let Frame::CallEnd { outer_scope, values, chain, index, in_target } = frame {
        let cut = m.cut(values as int);
        assert(good(before, cut.push(frame)));
        lemma_exited(before, cut, frame, outer_scope);
        let out = cut.exited(outer_scope);
        let less = MachineView { depth: out.depth - 1, ..out };
        assert(good(before, less.give(value)));
        lemma_push(before, less.give(value), Frame::Link { chain, index: (index + 1) as usize, in_target });
    }
}

proof fn lemma_returned(before: HeapView, m: MachineView, value: RtView)
    requires
        good(before, m),
    ensures
        good(before, m.returned(value)),
    decreases m.frames.len(),
{
    if m.frames.len() > 0 {
        let frame = m.frames.last();
        let rest = MachineView { frames: m.frames.drop_last(), ..m };
        assert(rest.push(frame).frames =~= m.frames);
        match frame {
            Frame::ExitScope(outer) => {
                lemma_exited(before, rest, frame, outer);
                lemma_returned(before, rest.exited(outer), value);
            },
            Frame::CallEnd { .. } => {
                assert(good(before, rest.push(frame)));
                lemma_call_ended(before, rest, frame, value);
            },
            _ => {
                lemma_dropped(before, m);
                lemma_returned(before, rest, value);
            },
        }
    }
}

proof fn lemma_chain_opened(before: HeapView, p: Program, m: MachineView, access: ExprId, end: int, in_target: bool)
    requires
        good(before, m),
    ensures
        leads(before, m.chain_opened(p, access, end, in_target)),
{
    if let ExpressionKind::Access { base, links } = p.expr(access).kind {
        let chain = Chain { access, end: end as usize };
        let host = Frame::HostCall { chain, in_target };
        let first = Frame::Link { chain, index: 0, in_target };
        lemma_push(before, m, host);
        lemma_push(before, m, first);
        lemma_push(before, m.push(first), Frame::Eval(base));
        if links@.len() > 0 && links@[0].kind is Call {
            lemma_push_evals(before, m.push(host), links@[0].kind->Call_arguments@);
        }
    }
}

proof fn lemma_assignment(before: HeapView, p: Program, m: MachineView, target: ExprId, value: ExprId)
    requires
        good(before, m),
    ensures
        leads(before, m.assignment(p, target, value)),
{
    lemma_push(before, m, Frame::AssignName(target));
    lemma_push(before, m.push(Frame::AssignName(target)), Frame::Eval(value));
    lemma_push(before, m, Frame::AssignMember(target));
    let both = m.push(Frame::AssignMember(target)).push(Frame::Eval(value));
    lemma_push(before, m.push(Frame::AssignMember(target)), Frame::Eval(value));
    if let ExpressionKind::Access { links, .. } = p.expr(target).kind {
        if links@.len() > 0 {
            match links@.last().kind {
                AccessKind::Property(_) => {
                    lemma_chain_opened(before, p, both, target, links@.len() - 1, true);
                },
                AccessKind::Index { expression, .. } => {
                    lemma_push(before, both, Frame::Eval(expression));
                    lemma_chain_opened(before, p, both.push(Frame::Eval(expression)), target, links@.len() - 1, true);
                },
                AccessKind::Call { .. } => {},
            }
        }
    }
}

proof fn lemma_statement(before: HeapView, p: Program, m: MachineView, at: StmtAt)
    requires
        good(before, m),
    ensures
        leads(before, m.statement(p, at)),
{
    match statement_at(p, at).kind {
        StatementKind::Let { initializer, .. } => {
            lemma_push(before, m, Frame::Declare(at));
            lemma_push(before, m.push(Frame::Declare(at)), Frame::Eval(initializer));
        },
        StatementKind::Expression(id) => {
            lemma_push(before, m, Frame::Discard);
            lemma_push(before, m.push(Frame::Discard), Frame::Eval(id));
        },
        StatementKind::Return { value, .. } => match value {
            Some(id) => {
                lemma_push(before, m, Frame::Return(id));
                lemma_push(before, m.push(Frame::Return(id)), Frame::Eval(id));
            },
            None => {
                lemma_returned(before, m, RtView::Null);
            },
        },
        StatementKind::Block(id) => {
            lemma_entered(before, p, m, id);
        },
        StatementKind::Assignment { target, value, .. } => {
            lemma_assignment(before, p, m, target, value);
        },
        StatementKind::Function { .. } => {},
        StatementKind::If { .. } => {
            lemma_branched(before, p, m, at, 0);
        },
        StatementKind::While { keyword, condition, body } => {
            lemma_push(
                before,
                m,
                Frame::Loop(
                    LoopFrame {
                        outer_scope: m.scope,
                        values: m.values.len() as usize,
                        kind: LoopKind::While { keyword, condition: condition.expression, body },
                    },
                ),
            );
        },
        StatementKind::For { iterable, .. } => {
            lemma_push(before, m, Frame::ForStart(at));
            lemma_push(before, m.push(Frame::ForStart(at)), Frame::Eval(iterable));
        },
        StatementKind::Break { .. } => {
            lemma_unwound(before, m, true);
        },
        StatementKind::Continue { .. } => {
            lemma_unwound(before, m, false);
        },
    }
}

proof fn lemma_expression(before: HeapView, p: Program, m: MachineView, id: ExprId)
    requires
        good(before, m),
    ensures
        leads(before, m.expression(p, id)),
{
    match p.expr(id).kind {
        ExpressionKind::Literal(_) => {
            lemma_text_made(before, m);
        },
        ExpressionKind::Identifier(_) => {},
        ExpressionKind::Group { expression, .. } => {
            lemma_push(before, m, Frame::Eval(expression));
        },
        ExpressionKind::Unary { operator, operand } => {
            lemma_push(before, m, Frame::Unary { operator, operand });
            lemma_push(before, m.push(Frame::Unary { operator, operand }), Frame::Eval(operand));
        },
        ExpressionKind::Binary { left, operator, right } => {
            lemma_push(before, m, Frame::BinaryRight { left, operator, right });
            lemma_push(before, m.push(Frame::BinaryRight { left, operator, right }), Frame::Eval(left));
        },
        ExpressionKind::Array { elements, .. } => {
            let frame = Frame::BuildArray { array: id, count: elements@.len() as usize };
            lemma_push(before, m, frame);
            lemma_push_evals(before, m.push(frame), elements@);
        },
        ExpressionKind::Object { entries, .. } => {
            lemma_push(before, m, Frame::BuildObject(id));
            lemma_push_evals(
                before,
                m.push(Frame::BuildObject(id)),
                Seq::new(entries@.len(), |i: int| entries@[i].value),
            );
        },
        ExpressionKind::Access { links, .. } => {
            lemma_chain_opened(before, p, m, id, links@.len() as int, false);
        },
        ExpressionKind::Function(_) => {
            lemma_function_made(before, m, FnAt::Literal(id));
        },
    }
}

proof fn lemma_link(before: HeapView, p: Program, m: MachineView, chain: Chain, index: usize, in_target: bool)
    requires
        good(before, m),
    ensures
        leads(before, m.link(p, chain, index, in_target)),
{
    let links = chain_links(p, chain);
    if index < links.len() {
        match links[index as int].kind {
            AccessKind::Call { arguments, .. } => {
                let frame = Frame::Invoke { chain, index, in_target, arguments: arguments@.len() as usize };
                lemma_push(before, m, frame);
                lemma_push_evals(before, m.push(frame), arguments@);
            },
            AccessKind::Property(name) => {
                if let RtView::Object(object) = m.top() {
                    let value = match m.heap.object_get(object, name.name@) {
                        Some(value) => value,
                        None => RtView::Null,
                    };
                    lemma_push(
                        before,
                        m.pop().give(value),
                        Frame::Link { chain, index: (index + 1) as usize, in_target },
                    );
                }
            },
            AccessKind::Index { expression, .. } => {
                let frame = Frame::IndexRead { chain, index, in_target };
                lemma_push(before, m, frame);
                lemma_push(before, m.push(frame), Frame::Eval(expression));
            },
        }
    }
}

pub proof fn lemma_parameters(
    before: HeapView,
    m: MachineView,
    scope: SlotId,
    function: Function,
    values: Seq<RtView>,
    n: int,
)
    requires
        good(before, m),
    ensures
        good(before, MachineView { heap: bound(m.heap, scope, function, values, n), ..m }),
    decreases n,
{
    if n > 0 {
        lemma_parameters(before, m, scope, function, values, n - 1);
        lemma_bound_name(
            before,
            MachineView { heap: bound(m.heap, scope, function, values, n - 1), ..m },
            scope,
            function.parameters@[n - 1].name@,
            values[n - 1],
        );
    }
}

proof fn lemma_invoked(
    before: HeapView,
    p: Program,
    m: MachineView,
    chain: Chain,
    index: usize,
    in_target: bool,
    arguments: usize,
)
    requires
        good(before, m),
    ensures
        leads(before, m.invoked(p, chain, index, in_target, arguments)),
{
    let links = chain_links(p, chain);
    if index < links.len() {
        let rest = m.pops(arguments as int).pop();
        let values = m.tops(arguments as int);
        if let RtView::Function(slot) = m.pops(arguments as int).top() {
            if let SlotView::Function { definition, scope } = m.heap.slot(slot) {
                if m.defined(p, definition) is Some {
                    let function = m.defined(p, definition)->0;
                    let inner = rest.scoped(scope);
                    let frame = Frame::CallEnd {
                        outer_scope: m.scope,
                        values: rest.values.len() as usize,
                        chain,
                        index,
                        in_target,
                    };
                    let framed = MachineView { depth: m.depth + 1, ..inner }.push(frame);
                    lemma_scoped(before, m, framed, scope, frame);
                    lemma_parameters(
                        before,
                        framed,
                        framed.scope,
                        function,
                        values,
                        function.parameters@.len() as int,
                    );
                    let named = MachineView {
                        heap: bound(framed.heap, framed.scope, function, values, function.parameters@.len() as int),
                        ..framed
                    };
                    lemma_opened(before, p, named, Some(function.body));
                }
            }
        }
    }
}

proof fn lemma_advanced(before: HeapView, p: Program, m: MachineView, state: LoopFrame)
    requires
        good(before, m),
        state.outer_scope == m.scope,
    ensures
        leads(before, m.advanced(p, state)),
{
    match state.kind {
        LoopKind::While { condition, .. } => {
            lemma_push(before, m, Frame::LoopTest(state));
            lemma_push(before, m.push(Frame::LoopTest(state)), Frame::Eval(condition));
        },
        LoopKind::For { keyword, at, body, collection, version, index, over_keys } => {
            if let Some(item) = iterated(m.heap, collection, index, over_keys) {
                let next = LoopFrame {
                    kind: LoopKind::For {
                        keyword,
                        at,
                        body,
                        collection,
                        version,
                        index: (index + 1) as usize,
                        over_keys,
                    },
                    ..state
                };
                let made = if over_keys { m.text_made() } else { m };
                let inner = made.scoped(state.outer_scope);
                let framed = inner.push(Frame::Loop(next)).push(Frame::ExitScope(m.scope));
                lemma_text_made(before, m);
                lemma_push(before, made, Frame::Loop(next));
                lemma_scope_there(before, made);
                lemma_scoped(before, made.push(Frame::Loop(next)), framed, m.scope, Frame::ExitScope(m.scope));
                match statement_at(p, at).kind {
                    StatementKind::For { binding, .. } => {
                        lemma_bound_name(before, framed, inner.scope, binding.name@, item);
                        let named = MachineView {
                            heap: framed.heap.declared(inner.scope, binding.name@, item),
                            ..framed
                        };
                        lemma_opened(before, p, named, Some(body));
                    },
                    _ => {
                        lemma_opened(before, p, framed, Some(body));
                    },
                }
            }
        },
    }
}

proof fn lemma_member_assigned(before: HeapView, p: Program, m: MachineView, target: ExprId)
    requires
        good(before, m),
    ensures
        leads(before, m.member_assigned(p, target)),
{
    let open = open_scopes(m.frames, m.scope);
    let value = m.top();
    let rest = m.pop();
    lemma_push(before, MachineView { answered: None, ..m }, Frame::AssignMember(target));
    if let ExpressionKind::Access { links, .. } = p.expr(target).kind {
        if links@.len() > 0 {
            match links@.last().kind {
                AccessKind::Property(name) => {
                    if let RtView::Object(object) = rest.top() {
                        lemma_object_store(before, m.heap, open, object, name.name@, value);
                    }
                },
                AccessKind::Index { .. } => {
                    let key = rest.top();
                    match (rest.pop().top(), key) {
                        (RtView::Array(array), RtView::Number(n)) => {
                            if let Some(i) = position_of(n) {
                                lemma_array_store(before, m.heap, open, array, i, value);
                            }
                        },
                        (RtView::Object(object), RtView::String(k, _)) => {
                            lemma_object_store(before, m.heap, open, object, k, value);
                        },
                        _ => {},
                    }
                },
                AccessKind::Call { .. } => {},
            }
        }
    }
}

proof fn lemma_for_started(before: HeapView, p: Program, m: MachineView, at: StmtAt)
    requires
        good(before, m),
    ensures
        leads(before, m.for_started(p, at)),
{
    if let StatementKind::For { keyword, body, .. } = statement_at(p, at).kind {
        let rest = m.pop();
        match m.top() {
            RtView::Array(id) => {
                lemma_loop_pushed(before, rest, keyword, at, body, id, false);
            },
            RtView::Object(id) => {
                let worked = MachineView { work: added(m.work, m.heap.entries(id).len() as int), ..rest };
                lemma_loop_pushed(before, worked, keyword, at, body, id, true);
            },
            _ => {},
        }
    }
}

proof fn lemma_loop_pushed(
    before: HeapView,
    m: MachineView,
    keyword: Span,
    at: StmtAt,
    body: BlockId,
    collection: SlotId,
    over_keys: bool,
)
    requires
        good(before, m),
    ensures
        good(before, m.loop_pushed(keyword, at, body, collection, over_keys)),
{
    lemma_push(
        before,
        m,
        Frame::Loop(
            LoopFrame {
                outer_scope: m.scope,
                values: m.values.len() as usize,
                kind: LoopKind::For {
                    keyword,
                    at,
                    body,
                    collection,
                    version: m.heap.version(collection),
                    index: 0,
                    over_keys,
                },
            },
        ),
    );
}

/// One step keeps every collection, every function and every captured scope, and leaves of the other
/// scopes those that are open.
#[verifier::spinoff_prover]
pub proof fn law_step_lasts(before: HeapView, p: Program, m: MachineView, frame: Frame)
    requires
        good(before, m.push(frame)),
    ensures
        leads(before, m.step(p, frame)),
{
    assert(m.push(frame).frames.drop_last() =~= m.frames);
    let open = open_scopes(m.frames, m.scope);
    if !(frame is ExitScope) && !(frame is CallEnd) {
        assert(good(before, m));
    }
    match frame {
        Frame::Statement(at) => {
            lemma_statement(before, p, m, at);
        },
        Frame::ExitScope(outer) => {
            lemma_exited(before, m, frame, outer);
        },
        Frame::Eval(id) => {
            lemma_expression(before, p, m, id);
        },
        Frame::Discard => {},
        Frame::Declare(at) => {
            if let StatementKind::Let { name, .. } = statement_at(p, at).kind {
                lemma_bound_name(before, m.pop(), m.scope, name.name@, m.top());
            }
        },
        Frame::Return(_) => {
            lemma_returned(before, m.pop(), m.top());
        },
        Frame::Unary { operator, operand } => {
            let value = m.top();
            let rest = if m.answered is None { m.pop().read_text(value) } else { m.pop() };
            lemma_push(before, rest.give(value), frame);
            let made = unary(p, m.heap, operator, operand, value, m.answered);
            lemma_concluded(before, rest, made, rest.give(value).push(frame));
        },
        Frame::BinaryRight { left, operator, right } => {
            lemma_push(before, m.pop(), Frame::Eval(right));
            let both = Frame::Binary { left, operator, right };
            lemma_push(before, m, both);
            lemma_push(before, m.push(both), Frame::Eval(right));
        },
        Frame::Binary { left, operator, right } => {
            let r = m.top();
            let l = m.pop().top();
            let popped = m.pop().pop();
            let rest = if m.answered is None { popped.read_text(l).read_text(r) } else { popped };
            lemma_push(before, rest.give(l).give(r), frame);
            let made = binary(p, left, operator, right, l, r, m.answered);
            lemma_concluded(before, rest, made, rest.give(l).give(r).push(frame));
        },
        Frame::BuildArray { count, .. } => {
            lemma_kept(before, m.heap, open, SlotView::Array { items: m.tops(count as int), version: 0 });
        },
        Frame::BuildObject(id) => {
            if let ExpressionKind::Object { entries, .. } = p.expr(id).kind {
                let values = m.tops(entries@.len() as int);
                lemma_kept(
                    before,
                    m.heap,
                    open,
                    SlotView::Object { entries: literal_entries(p, id, values, values.len() as int), version: 0 },
                );
            }
        },
        Frame::Link { chain, index, in_target } => {
            lemma_link(before, p, m, chain, index, in_target);
        },
        Frame::IndexRead { chain, index, in_target } => {
            let links = chain_links(p, chain);
            let key = m.top();
            let receiver = m.pop().top();
            let rest = m.pop().pop().read_text(key);
            if index < links.len() {
                if let AccessKind::Index { expression, .. } = links[index as int].kind {
                    if let Ok(value) = element(m.heap, p, receiver, key, links[index as int], expression) {
                        lemma_push(
                            before,
                            rest.give(value),
                            Frame::Link { chain, index: (index + 1) as usize, in_target },
                        );
                    }
                }
            }
        },
        Frame::AssignName(target) => {
            if let ExpressionKind::Identifier(name) = p.expr(target).kind {
                if let Some(owner) = m.heap.resolve(m.scope, name.name@) {
                    lemma_bound_name(before, m.pop(), owner, name.name@, m.top());
                }
            }
        },
        Frame::AssignMember(target) => {
            lemma_member_assigned(before, p, m, target);
        },
        Frame::Branch { at, index } => {
            if let StatementKind::If { branches, .. } = statement_at(p, at).kind {
                if index < branches@.len() {
                    lemma_entered(before, p, m.pop(), branches@[index as int].body);
                }
            }
            lemma_branched(before, p, m.pop(), at, index + 1);
        },
        Frame::Loop(state) => {
            lemma_advanced(before, p, m, state);
        },
        Frame::LoopTest(state) => {
            lemma_push(before, m.pop(), Frame::Loop(state));
            lemma_entered(before, p, m.pop().push(Frame::Loop(state)), loop_body(state.kind));
        },
        Frame::ForStart(at) => {
            lemma_for_started(before, p, m, at);
        },
        Frame::Invoke { chain, index, in_target, arguments } => {
            lemma_invoked(before, p, m, chain, index, in_target, arguments);
        },
        Frame::CallEnd { .. } => {
            lemma_call_ended(before, m, frame, RtView::Null);
        },
        Frame::HostCall { .. } => {},
    }
}

/// However long a Script runs, what is in its heap lasts: nothing but scopes that no function
/// captured is given back, and of those each as soon as its block or call is left.
pub proof fn law_run_lasts(before: HeapView, p: Program, m: MachineView, fuel: nat)
    requires
        good(before, m),
    ensures
        leads(before, m.run(p, fuel)),
    decreases fuel,
{
    if m.frames.len() > 0 && fuel > 0 {
        let taken = m.taken();
        assert(taken.push(m.frames.last()).frames =~= m.frames);
        law_step_lasts(before, p, taken, m.frames.last());
        if let Turn::Go(after) = taken.step(p, m.frames.last()) {
            let worked = MachineView { work: added(after.work, 1), ..after };
            law_run_lasts(before, p, worked, (fuel - 1) as nat);
        }
    }
}

/// A run that fails leaves a machine of the same kind: what was in its heap has lasted to the end.
pub proof fn law_failure_lasts(before: HeapView, p: Program, m: MachineView, fuel: nat)
    requires
        good(before, m),
        m.run(p, fuel) is Fail,
    ensures
        good(before, m.failing(p, fuel)),
    decreases fuel,
{
    let taken = m.taken();
    let frame = m.frames.last();
    assert(taken.push(frame).frames =~= m.frames);
    law_step_lasts(before, p, taken, frame);
    match taken.step(p, frame) {
        Turn::Go(after) => {
            law_failure_lasts(before, p, MachineView { work: added(after.work, 1), ..after }, (fuel - 1) as nat);
        },
        Turn::Fail(_) => {
            law_failure_leaves_the_rest(p, taken, frame);
            assert(taken.push(frame).frames.drop_last() =~= taken.frames);
            assert(good(before, taken));
        },
        Turn::Halt(_, _) => {},
    }
}

/// A Script's own heap is sound before its first step.
pub proof fn law_start_is_sound(p: Program, variables: Seq<(Seq<char>, ValueView)>)
    ensures
        good(HeapView { slots: Seq::empty(), free: Seq::empty(), issued: 0 }, started(p, variables)),
{
    let none = HeapView { slots: Seq::empty(), free: Seq::empty(), issued: 0 };
    let root = none.next();
    let heap = none.scope_pushed(None);
    let open = seq![root];
    assert(grew(none, heap, open)) by {
        assert(root == SlotId(0));
        assert(heap.slots.len() == 1);
        assert(heap.wf());
        assert forall|id: SlotId| #![trigger around(heap, id)] linked(heap, id) by {}
        assert forall|id: SlotId| #[trigger] heap.slot(id) is Scope && !heap.captured(id) implies open.contains(id) by {
            assert(open[0] == id);
        }
    }
    lemma_variables(none, heap, open, root, variables, variables.len() as int);
    let bare = MachineView {
        frames: Seq::empty(),
        values: Seq::empty(),
        heap: variables_bound(heap, root, variables, variables.len() as int),
        scope: root,
        root,
        functions: Seq::empty(),
        depth: 0,
        suspended: None,
        meter: Meter { slice: None, memory_ceiling: None, allocation_ceiling: None },
        work: 0,
        site: Site::Unknown,
        allocations: 0,
        answered: None,
    };
    lemma_opened(none, p, bare, None);
}

pub proof fn lemma_variables(
    before: HeapView,
    heap: HeapView,
    open: Seq<SlotId>,
    scope: SlotId,
    variables: Seq<(Seq<char>, ValueView)>,
    n: int,
)
    requires
        grew(before, heap, open),
    ensures
        grew(before, variables_bound(heap, scope, variables, n), open),
    decreases n,
{
    if n > 0 {
        lemma_variables(before, heap, open, scope, variables, n - 1);
        let earlier = variables_bound(heap, scope, variables, n - 1);
        lemma_attached(before, earlier, open, variables[n - 1].1);
        let (after, value) = attach_value(earlier, variables[n - 1].1);
        lemma_declared(before, after, open, scope, variables[n - 1].0, value);
    }
}

/// Answering a host call keeps what is in the heap.
pub proof fn law_resume_lasts(before: HeapView, m: MachineView, value: ValueView)
    requires
        good(before, m),
    ensures
        good(before, resumed(m, value)),
{
    if let Some((chain, in_target)) = m.suspended {
        lemma_attached(before, m.heap, open_scopes(m.frames, m.scope), value);
        let (heap, handle) = attach_value(m.heap, value);
        let given = MachineView { suspended: None, heap, ..m }.give(handle);
        lemma_push(before, given, Frame::Link { chain, index: 1, in_target });
    }
}

/// A Script that runs off its end has given back every scope but the root's and those that a function
/// captured.
pub proof fn law_scopes_are_given_back(before: HeapView, m: MachineView, id: SlotId)
    requires
        good(before, m),
        m.frames.len() == 0,
        m.heap.slots.len() <= usize::MAX,
    ensures
        m.heap.slot(id) is Scope ==> id == m.scope || m.heap.captured(id),
{
    assert(open_scopes(m.frames, m.scope) =~= seq![m.scope]);
    if m.heap.slot(id) is Scope && !m.heap.captured(id) {
        let i = choose|i: int| 0 <= i < 1 && seq![m.scope][i] == id;
        assert(open_scopes(m.frames, m.scope).contains(id));
    }
}

} // verus!

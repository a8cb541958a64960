//! What keeps the scopes around a function alive.

use vstd::prelude::*;
use crate::interpreter::heap::HeapView;
use crate::interpreter::heap::RtView;
use crate::interpreter::heap::SlotId;
use crate::interpreter::heap::SlotView;

verus! {

/// The scope around a scope.
pub open spec fn around(heap: HeapView, id: SlotId) -> Option<SlotId> {
    match heap.slot(id) {
        SlotView::Scope { parent, .. } => parent,
        _ => None,
    }
}

/// The scope that is `n` scopes out from a scope.
pub open spec fn outward(heap: HeapView, id: SlotId, n: nat) -> Option<SlotId>
    decreases n,
{
    if n == 0 {
        Some(id)
    } else {
        match around(heap, id) {
            Some(outer) => outward(heap, outer, (n - 1) as nat),
            None => None,
        }
    }
}

/// Whether the scope around a scope is there, and is captured if the scope is.
pub open spec fn linked(heap: HeapView, id: SlotId) -> bool {
    around(heap, id) matches Some(outer) ==> heap.slot(outer) is Scope && (heap.captured(id) ==> heap.captured(outer))
}

/// Whether the scope around every scope is there, and is captured where the scope is.
pub open spec fn chained(heap: HeapView) -> bool {
    forall|id: SlotId| #![trigger around(heap, id)] linked(heap, id)
}

/// Whether that holds, except that `scope` need not be captured where a scope in it is.
spec fn linked_but(heap: HeapView, id: SlotId, scope: SlotId) -> bool {
    around(heap, id) matches Some(outer) ==> heap.slot(outer) is Scope && (heap.captured(id) && outer != scope
        ==> heap.captured(outer))
}

spec fn chained_but(heap: HeapView, scope: SlotId) -> bool {
    forall|id: SlotId| #![trigger around(heap, id)] linked_but(heap, id, scope)
}

/// How many of the first `n` slots are scopes that no function captured.
spec fn loose(heap: HeapView, n: int) -> int
    decreases n,
{
    if n <= 0 {
        0
    } else {
        loose(heap, n - 1) + if heap.slots[n - 1] matches SlotView::Scope { captured: false, .. } {
            1int
        } else {
            0
        }
    }
}

proof fn lemma_loose_bound(heap: HeapView, n: int)
    requires
        n >= 0,
    ensures
        0 <= loose(heap, n) <= n,
    decreases n,
{
    if n > 0 {
        lemma_loose_bound(heap, n - 1);
    }
}

proof fn lemma_loose_one(heap: HeapView, n: int, i: int)
    requires
        0 <= i < n,
        heap.slots[i] matches SlotView::Scope { captured: false, .. },
    ensures
        loose(heap, n) > 0,
    decreases n,
{
    lemma_loose_bound(heap, n - 1);
    if i < n - 1 {
        lemma_loose_one(heap, n - 1, i);
    }
}

proof fn lemma_loose_marked(heap: HeapView, scope: SlotId, n: int)
    requires
        scope.0 < heap.slots.len(),
        0 <= n <= heap.slots.len(),
        heap.slot(scope) is Scope,
        !heap.captured(scope),
    ensures
        loose(captured_here(heap, scope), n) == loose(heap, n) - if scope.0 < n {
            1int
        } else {
            0
        },
    decreases n,
{
    if n > 0 {
        lemma_loose_marked(heap, scope, n - 1);
    }
}

/// The heap with one scope marked captured.
spec fn captured_here(heap: HeapView, scope: SlotId) -> HeapView {
    match heap.slot(scope) {
        SlotView::Scope { bindings, parent, .. } => heap.with(
            scope,
            SlotView::Scope { bindings, parent, captured: true },
        ),
        _ => heap,
    }
}

proof fn lemma_mark(heap: HeapView, scope: SlotId, fuel: nat)
    requires
        chained_but(heap, scope),
        heap.slot(scope) is Scope,
        loose(heap, heap.slots.len() as int) <= fuel,
    ensures
        chained(heap.mark_within(scope, fuel)),
        heap.mark_within(scope, fuel).captured(scope),
        forall|id: SlotId| heap.captured(id) ==> #[trigger] heap.mark_within(scope, fuel).captured(id),
    decreases fuel,
{
    let len = heap.slots.len() as int;
    if heap.captured(scope) {
        assert(heap.mark_within(scope, fuel) == heap);
        assert forall|id: SlotId| #![trigger around(heap, id)] linked(heap, id) by {}
    } else {
        lemma_loose_one(heap, len, scope.0 as int);
        let next = captured_here(heap, scope);
        lemma_loose_marked(heap, scope, len);
        assert(next.slots.len() == heap.slots.len());
        assert forall|id: SlotId| #[trigger] around(next, id) == around(heap, id) by {}
        assert forall|id: SlotId| heap.captured(id) || id == scope implies #[trigger] next.captured(id) by {}
        match around(heap, scope) {
            Some(outer) => {
                assert(chained_but(next, outer)) by {
                    assert forall|id: SlotId| #![trigger around(next, id)] linked_but(next, id, outer) by {
                        assert(around(heap, id) == around(next, id));
                        assert(linked_but(heap, id, scope));
                        if id != scope {
                            assert(next.slot(id) == heap.slot(id));
                        }
                    }
                }
                assert(heap.slot(outer) is Scope);
                assert(next.slot(outer) is Scope);
                lemma_mark(next, outer, (fuel - 1) as nat);
                let last = next.mark_within(outer, (fuel - 1) as nat);
                assert(heap.mark_within(scope, fuel) == last);
                assert(next.captured(scope));
                assert forall|id: SlotId| heap.captured(id) implies #[trigger] last.captured(id) by {
                    assert(next.captured(id));
                }
            },
            None => {
                assert(heap.mark_within(scope, fuel) == next);
                assert forall|id: SlotId| #![trigger around(next, id)] linked(next, id) by {
                    assert(around(heap, id) == around(next, id));
                    assert(linked_but(heap, id, scope));
                    if id != scope {
                        assert(next.slot(id) == heap.slot(id));
                    }
                }
            },
        }
    }
}

/// Creating a function captures its scope, and the chain of scopes around it stays whole.
pub proof fn law_capture_keeps_the_chain(heap: HeapView, scope: SlotId)
    requires
        chained(heap),
        heap.slot(scope) is Scope,
    ensures
        chained(heap.marked(scope)),
        heap.marked(scope).captured(scope),
{
    lemma_loose_bound(heap, heap.slots.len() as int);
    lemma_mark(heap, scope, heap.slots.len());
}

/// Every scope around a captured scope is captured, however far out.
pub proof fn law_enclosing_scopes_survive(heap: HeapView, scope: SlotId, n: nat)
    requires
        chained(heap),
        heap.captured(scope),
    ensures
        outward(heap, scope, n) matches Some(outer) ==> heap.captured(outer),
    decreases n,
{
    if n > 0 {
        if let Some(outer) = around(heap, scope) {
            law_enclosing_scopes_survive(heap, outer, (n - 1) as nat);
        }
    }
}

/// A scope that is opened inside a scope that is there is chained like the rest.
pub proof fn law_open_keeps_the_chain(heap: HeapView, parent: Option<SlotId>)
    requires
        heap.wf(),
        heap.slots.len() < usize::MAX,
        chained(heap),
        parent matches Some(outer) ==> heap.slot(outer) is Scope,
    ensures
        chained(heap.scope_pushed(parent)),
        around(heap.scope_pushed(parent), heap.next()) == parent,
{
    let after = heap.scope_pushed(parent);
    let new = heap.next();
    assert(heap.slot(new) is Free);
    assert forall|id: SlotId| id != new implies #[trigger] after.slot(id) == heap.slot(id) by {}
    assert forall|id: SlotId| #![trigger around(after, id)] linked(after, id) by {
        if let Some(outer) = around(after, id) {
            if id != new {
                assert(after.slot(id) == heap.slot(id));
                assert(around(heap, id) == Some(outer));
            }
            assert(heap.slot(outer) is Scope);
            assert(after.slot(outer) == heap.slot(outer));
        }
    }
}

/// Closing a block keeps the chain whole, when every scope that is left inside the block's is
/// captured: then the block's own scope is, and stays.
pub proof fn law_close_keeps_the_chain(heap: HeapView, scope: SlotId)
    requires
        chained(heap),
        heap.slot(scope) is Scope,
        forall|id: SlotId| #[trigger] around(heap, id) == Some(scope) ==> heap.captured(id),
    ensures
        chained(heap.scope_released(scope)),
{
    if !heap.captured(scope) {
        let after = heap.scope_released(scope);
        assert forall|id: SlotId| #![trigger around(after, id)] linked(after, id) by {
            if id != scope {
                assert(after.slot(id) == heap.slot(id));
                assert(around(heap, id) == around(after, id));
                assert(around(heap, id) != Some(scope));
            }
        }
    }
}

/// Binding a name changes nothing about which scopes are around which.
pub proof fn law_binding_keeps_the_chain(heap: HeapView, scope: SlotId, name: Seq<char>, value: RtView)
    requires
        chained(heap),
    ensures
        chained(heap.declared(scope, name, value)),
{
    let after = heap.declared(scope, name, value);
    assert forall|id: SlotId| #![trigger around(after, id)] linked(after, id) by {
        assert(around(heap, id) == around(after, id));
    }
}

} // verus!

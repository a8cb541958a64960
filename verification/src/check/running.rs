//! That a run keeps to what is known of a name: what its frames still run suits the scopes they run it in.

use vstd::prelude::*;
use crate::ast::Function;
use crate::ast::Program;
use crate::check::walk::JobView;
use crate::check::sight::Labels;
use crate::check::sight::Sight;
use crate::check::sight::alike;
use crate::check::sight::assured;
use crate::check::sight::carried;
use crate::check::sight::clear;
use crate::check::sight::closures;
use crate::check::sight::housed;
use crate::check::sight::housed_at;
use crate::check::sight::labelled;
use crate::check::sight::lemma_alike;
use crate::check::sight::lemma_resettled;
use crate::check::sight::never;
use crate::check::sight::only;
use crate::check::sight::settled;
use crate::check::sight::shape;
use crate::check::sight::suits;
use crate::check::sight::suits_body;
use crate::check::sight::worth;
use crate::check::sight::worthy;
use crate::check::walk::body_job;
use crate::interpreter::heap::HeapView;
use crate::interpreter::heap::RtView;
use crate::interpreter::heap::SlotId;
use crate::interpreter::heap::SlotView;
use crate::interpreter::lasting::homed;
use crate::interpreter::lasting::lemma_allocated;
use crate::interpreter::scopes::around;
use crate::interpreter::semantics::FnAt;
use crate::interpreter::semantics::Frame;
use crate::interpreter::semantics::MachineView;
use crate::interpreter::semantics::definition_of;
use crate::interpreter::semantics::function_at;
use crate::table::has_key;
use crate::table::lemma_put_keys;
use crate::table::put;

verus! {

/// What is known of the scopes and functions in a heap.
pub open spec fn calm(p: Program, s: Sight, l: Labels, heap: HeapView, list: Seq<FnAt>) -> bool {
    labelled(p, s, l, heap) && worthy(p, s, l, heap, list) && closures(p, s, l, heap, list)
}

/// Whether a heap has room for its slots to be numbered, and a machine for its functions.
pub open spec fn sized(m: MachineView) -> bool {
    m.heap.slots.len() <= usize::MAX && m.functions.len() <= usize::MAX
}

/// Whether one list of functions goes on where another ends.
pub open spec fn extends(a: Seq<FnAt>, b: Seq<FnAt>) -> bool {
    a.len() <= b.len() && forall|i: int| 0 <= i < a.len() ==> #[trigger] b[i] == a[i]
}

/// Whether every function of a heap is still in another.
pub open spec fn lasting(a: HeapView, b: HeapView) -> bool {
    forall|id: SlotId| (#[trigger] a.slot(id)) is Function ==> b.slot(id) == a.slot(id)
}

/// Whether the values that a scope binds to a name were bound before.
pub open spec fn among(a: Seq<(Seq<char>, RtView)>, b: Seq<(Seq<char>, RtView)>, name: Seq<char>) -> bool {
    forall|i: int| 0 <= i < b.len() && (#[trigger] b[i]).0 == name ==> exists|j: int| 0 <= j < a.len() && #[trigger] a[j] == b[i]
}

/// Whether nothing that is known can tell two heaps apart.
pub open spec fn still(a: HeapView, b: HeapView, name: Seq<char>) -> bool {
    &&& alike(a, b, name)
    &&& forall|id: SlotId| a.slot(id) is Scope ==> among(a.bindings(id), #[trigger] b.bindings(id), name)
    &&& lasting(a, b)
    &&& forall|id: SlotId| (#[trigger] b.slot(id)) is Function ==> a.slot(id) == b.slot(id)
}

pub proof fn lemma_worth(p: Program, a: HeapView, b: HeapView, f: Seq<FnAt>, g: Seq<FnAt>, value: RtView, n: usize)
    requires
        lasting(a, b),
        extends(f, g),
        worth(p, a, f, value, n),
    ensures
        worth(p, b, g, value, n),
{
    if let RtView::Function(slot) = value {
        assert(a.slot(slot) is Function);
    }
}

pub proof fn lemma_only_among(
    p: Program,
    a: HeapView,
    b: HeapView,
    f: Seq<FnAt>,
    g: Seq<FnAt>,
    x: Seq<(Seq<char>, RtView)>,
    y: Seq<(Seq<char>, RtView)>,
    name: Seq<char>,
    n: usize,
)
    requires
        lasting(a, b),
        extends(f, g),
        only(p, a, f, x, name, n),
        among(x, y, name),
    ensures
        only(p, b, g, y, name, n),
{
    assert forall|i: int| 0 <= i < y.len() && (#[trigger] y[i]).0 == name implies worth(p, b, g, y[i].1, n) by {
        let j = choose|j: int| 0 <= j < x.len() && #[trigger] x[j] == y[i];
        assert(worth(p, a, f, x[j].1, n));
        lemma_worth(p, a, b, f, g, y[i].1, n);
    }
}

proof fn lemma_suits_body(s: Sight, l: Labels, a: HeapView, m: Labels, b: HeapView, job: JobView, id: SlotId)
    requires
        carried(s, l, a, m, b, id),
        suits_body(s, l, a, job, id),
    ensures
        suits_body(s, m, b, job, id),
{
    assert forall|k: nat| #[trigger] s.hides(job, k) implies never(m, b, id, k) by {
        assert(never(l, a, id, k));
    }
    assert forall|k: nat| #[trigger] s.bars(job, k) implies never(m, b, id, k) by {
        assert(never(l, a, id, k));
    }
    assert forall|k: nat, n: usize| #[trigger] s.knows(job, k, n) implies assured(m, b, id, k, n) by {
        assert(assured(l, a, id, k, n));
    }
}

pub proof fn lemma_suits(s: Sight, l: Labels, a: HeapView, m: Labels, b: HeapView, job: JobView, id: SlotId)
    requires
        carried(s, l, a, m, b, id),
        suits(s, l, a, job, id),
    ensures
        suits(s, m, b, job, id),
{
    assert forall|k: nat| #[trigger] s.hides(job, k) implies clear(b, s.name, id, k) by {
        assert(clear(a, s.name, id, k));
    }
    assert forall|k: nat| #[trigger] s.bars(job, k) implies never(m, b, id, k) by {
        assert(never(l, a, id, k));
    }
    assert forall|k: nat, n: usize| #[trigger] s.knows(job, k, n) implies assured(m, b, id, k, n) by {
        assert(assured(l, a, id, k, n));
    }
}

/// The functions of a heap stay housed.
pub proof fn lemma_housed(
    p: Program,
    s: Sight,
    l: Labels,
    a: HeapView,
    m: Labels,
    b: HeapView,
    f: Seq<FnAt>,
    g: Seq<FnAt>,
    definition: usize,
    scope: SlotId,
)
    requires
        housed(p, s, l, a, f, definition, scope),
        extends(f, g),
        carried(s, l, a, m, b, scope),
    ensures
        housed(p, s, m, b, g, definition, scope),
{
    assert(g[definition as int] == f[definition as int]);
    if let Some(function) = function_at(p, f[definition as int]) {
        lemma_suits_body(s, l, a, m, b, body_job(p, function), scope);
    }
}

/// What is known of a heap stays known while nothing can tell it from the next.
pub proof fn lemma_still(p: Program, s: Sight, l: Labels, a: HeapView, b: HeapView, f: Seq<FnAt>, g: Seq<FnAt>)
    requires
        calm(p, s, l, a, f),
        homed(a),
        still(a, b, s.name),
        extends(f, g),
    ensures
        calm(p, s, l, b, g),
        forall|id: SlotId| a.slot(id) is Scope ==> #[trigger] carried(s, l, a, l, b, id),
{
    lemma_alike(s, l, a, b);
    assert forall|id: SlotId| (#[trigger] b.slot(id)) is Scope implies l.ages(id) < l.next && (has_key(
        b.bindings(id),
        s.name,
    ) ==> l.soils(id)) && (around(b, id) matches Some(outer) ==> l.ages(outer) < l.ages(id)) by {
        assert(shape(b, s.name, id) == shape(a, s.name, id));
        assert(a.slot(id) is Scope);
    }
    assert forall|id: SlotId, n: usize| b.slot(id) is Scope && #[trigger] l.sures(id, n) implies only(
        p,
        b,
        g,
        b.bindings(id),
        s.name,
        n,
    ) by {
        assert(shape(b, s.name, id) == shape(a, s.name, id));
        lemma_only_among(p, a, b, f, g, a.bindings(id), b.bindings(id), s.name, n);
    }
    assert forall|id: SlotId| (#[trigger] b.slot(id)) is Function implies housed_at(p, s, l, b, g, id) by {
        assert(a.slot(id) == b.slot(id));
        if let SlotView::Function { definition, scope } = a.slot(id) {
            assert(a.captured(scope));
            lemma_housed(p, s, l, a, l, b, f, g, definition, scope);
        }
    }
}

/// A machine whose heap nothing can tell from the one before, with the same frames.
pub proof fn lemma_same_frames(p: Program, s: Sight, l: Labels, a: HeapView, b: HeapView, f: Seq<FnAt>, g: Seq<FnAt>, frames: Seq<Frame>, scope: SlotId, dead: bool)
    requires
        calm(p, s, l, a, f),
        homed(a),
        still(a, b, s.name),
        extends(f, g),
        settled(p, s, l, a, frames, scope, dead),
        a.slot(scope) is Scope,
    ensures
        calm(p, s, l, b, g),
        settled(p, s, l, b, frames, scope, dead),
        b.slot(scope) is Scope,
        forall|id: SlotId| a.slot(id) is Scope ==> #[trigger] carried(s, l, a, l, b, id),
{
    lemma_still(p, s, l, a, b, f, g);
    assert(carried(s, l, a, l, b, scope));
    lemma_resettled(p, s, l, a, l, b, frames, scope, dead, l.next);
}

/// Replacing what is no scope by what is none, or no function by what is none, changes nothing that is
/// known.
pub proof fn lemma_replaced_still(heap: HeapView, id: SlotId, slot: SlotView, name: Seq<char>)
    requires
        id.0 < heap.slots.len(),
        heap.slot(id) is Array || heap.slot(id) is Object,
        slot is Array || slot is Object,
    ensures
        still(heap, heap.with(id, slot), name),
{
    let after = heap.with(id, slot);
    assert forall|x: SlotId| #[trigger] shape(after, name, x) == shape(heap, name, x) by {
        if x != id {
            assert(after.slot(x) == heap.slot(x));
        }
    }
    assert forall|x: SlotId| heap.slot(x) is Scope implies among(heap.bindings(x), #[trigger] after.bindings(x), name) by {
        assert(after.slot(x) == heap.slot(x));
        assert forall|i: int| 0 <= i < after.bindings(x).len() && (#[trigger] after.bindings(x)[i]).0 == name implies exists|j: int|
            0 <= j < heap.bindings(x).len() && #[trigger] heap.bindings(x)[j] == after.bindings(x)[i] by {
            assert(heap.bindings(x)[i] == after.bindings(x)[i]);
        }
    }
    assert forall|x: SlotId| (#[trigger] heap.slot(x)) is Function implies after.slot(x) == heap.slot(x) by {}
    assert forall|x: SlotId| (#[trigger] after.slot(x)) is Function implies heap.slot(x) == after.slot(x) by {}
}

/// A heap of which every slot but one is the same, and that one was free and is a collection.
pub proof fn lemma_allocated_still(heap: HeapView, slot: SlotView, name: Seq<char>)
    requires
        heap.wf(),
        heap.allocated(slot).slots.len() <= usize::MAX,
        slot is Array || slot is Object,
    ensures
        still(heap, heap.allocated(slot), name),
        heap.allocated(slot).wf(),
        heap.slots.len() <= heap.allocated(slot).slots.len(),
{
    lemma_allocated(heap, slot);
    let after = heap.allocated(slot);
    let new = heap.next();
    assert forall|x: SlotId| #[trigger] shape(after, name, x) == shape(heap, name, x) by {
        if x != new {
            assert(after.slot(x) == heap.slot(x));
        }
    }
    assert forall|x: SlotId| heap.slot(x) is Scope implies among(heap.bindings(x), #[trigger] after.bindings(x), name) by {
        assert(after.slot(x) == heap.slot(x));
        assert forall|i: int| 0 <= i < after.bindings(x).len() && (#[trigger] after.bindings(x)[i]).0 == name implies exists|j: int|
            0 <= j < heap.bindings(x).len() && #[trigger] heap.bindings(x)[j] == after.bindings(x)[i] by {
            assert(heap.bindings(x)[i] == after.bindings(x)[i]);
        }
    }
    assert forall|x: SlotId| (#[trigger] heap.slot(x)) is Function implies after.slot(x) == heap.slot(x) by {}
    assert forall|x: SlotId| (#[trigger] after.slot(x)) is Function implies heap.slot(x) == after.slot(x) by {
        if x != new {
            assert(after.slot(x) == heap.slot(x));
        }
    }
}

/// A heap with the same slots.
pub proof fn lemma_same_slots_still(a: HeapView, b: HeapView, name: Seq<char>)
    requires
        a.slots == b.slots,
    ensures
        still(a, b, name),
{
    assert forall|x: SlotId| #[trigger] shape(b, name, x) == shape(a, name, x) by {
        assert(b.slot(x) == a.slot(x));
    }
    assert forall|x: SlotId| a.slot(x) is Scope implies among(a.bindings(x), #[trigger] b.bindings(x), name) by {
        assert(b.slot(x) == a.slot(x));
        assert forall|i: int| 0 <= i < b.bindings(x).len() && (#[trigger] b.bindings(x)[i]).0 == name implies exists|j: int|
            0 <= j < a.bindings(x).len() && #[trigger] a.bindings(x)[j] == b.bindings(x)[i] by {
            assert(a.bindings(x)[i] == b.bindings(x)[i]);
        }
    }
    assert forall|x: SlotId| (#[trigger] a.slot(x)) is Function implies b.slot(x) == a.slot(x) by {}
    assert forall|x: SlotId| (#[trigger] b.slot(x)) is Function implies a.slot(x) == b.slot(x) by {}
}

pub proof fn lemma_still_chain(a: HeapView, b: HeapView, c: HeapView, name: Seq<char>)
    requires
        still(a, b, name),
        still(b, c, name),
    ensures
        still(a, c, name),
{
    assert forall|x: SlotId| #[trigger] shape(c, name, x) == shape(a, name, x) by {
        assert(shape(b, name, x) == shape(a, name, x));
    }
    assert forall|x: SlotId| a.slot(x) is Scope implies among(a.bindings(x), #[trigger] c.bindings(x), name) by {
        assert(shape(b, name, x) == shape(a, name, x));
        assert(among(a.bindings(x), b.bindings(x), name));
        assert(among(b.bindings(x), c.bindings(x), name));
        assert forall|i: int| 0 <= i < c.bindings(x).len() && (#[trigger] c.bindings(x)[i]).0 == name implies exists|j: int|
            0 <= j < a.bindings(x).len() && #[trigger] a.bindings(x)[j] == c.bindings(x)[i] by {
            let k = choose|k: int| 0 <= k < b.bindings(x).len() && #[trigger] b.bindings(x)[k] == c.bindings(x)[i];
            assert(b.bindings(x)[k].0 == name);
        }
    }
    assert forall|x: SlotId| (#[trigger] a.slot(x)) is Function implies c.slot(x) == a.slot(x) by {
        assert(b.slot(x) == a.slot(x));
    }
    assert forall|x: SlotId| (#[trigger] c.slot(x)) is Function implies a.slot(x) == c.slot(x) by {
        assert(b.slot(x) == c.slot(x));
    }
}

/// Marking scopes captured.
pub proof fn lemma_marked_still(heap: HeapView, scope: SlotId, fuel: nat, name: Seq<char>)
    requires
        heap.wf(),
    ensures
        still(heap, heap.mark_within(scope, fuel), name),
        heap.mark_within(scope, fuel).wf(),
        heap.mark_within(scope, fuel).slots.len() == heap.slots.len(),
        forall|x: SlotId| heap.captured(x) ==> #[trigger] heap.mark_within(scope, fuel).captured(x),
    decreases fuel,
{
    lemma_same_slots_still(heap, heap, name);
    if fuel > 0 {
        if let SlotView::Scope { bindings, parent, captured } = heap.slot(scope) {
            if !captured {
                let next = heap.with(scope, SlotView::Scope { bindings, parent, captured: true });
                lemma_scope_replaced(heap, scope, bindings, parent, true, name);
                if let Some(outer) = parent {
                    lemma_marked_still(next, outer, (fuel - 1) as nat, name);
                    lemma_still_chain(heap, next, next.mark_within(outer, (fuel - 1) as nat), name);
                    assert forall|x: SlotId| heap.captured(x) implies #[trigger] heap.mark_within(scope, fuel).captured(x) by {
                        assert(next.captured(x));
                    }
                }
            }
        }
    }
}

/// A scope with other bindings, of which none under the name is new, and some of which are.
proof fn lemma_scope_replaced(
    heap: HeapView,
    scope: SlotId,
    bindings: Seq<(Seq<char>, RtView)>,
    parent: Option<SlotId>,
    captured: bool,
    name: Seq<char>,
)
    requires
        heap.wf(),
        heap.slot(scope) is Scope,
        parent == around(heap, scope),
        has_key(bindings, name) == has_key(heap.bindings(scope), name),
        among(heap.bindings(scope), bindings, name) || bindings == heap.bindings(scope),
        heap.captured(scope) ==> captured,
    ensures
        ({
            let after = heap.with(scope, SlotView::Scope { bindings, parent, captured });
            &&& still(heap, after, name)
            &&& after.wf()
            &&& forall|x: SlotId| heap.captured(x) ==> #[trigger] after.captured(x)
        }),
{
    let slot = SlotView::Scope { bindings, parent, captured };
    let after = heap.with(scope, slot);
    assert forall|x: SlotId| #[trigger] shape(after, name, x) == shape(heap, name, x) by {
        if x != scope {
            assert(after.slot(x) == heap.slot(x));
        }
    }
    assert forall|x: SlotId| heap.slot(x) is Scope implies among(heap.bindings(x), #[trigger] after.bindings(x), name) by {
        if x != scope || bindings == heap.bindings(scope) {
            assert(after.bindings(x) == heap.bindings(x));
            assert forall|i: int| 0 <= i < after.bindings(x).len() && (#[trigger] after.bindings(x)[i]).0 == name implies exists|
                j: int,
            | 0 <= j < heap.bindings(x).len() && #[trigger] heap.bindings(x)[j] == after.bindings(x)[i] by {
                assert(heap.bindings(x)[i] == after.bindings(x)[i]);
            }
        }
    }
    assert forall|x: SlotId| (#[trigger] heap.slot(x)) is Function implies after.slot(x) == heap.slot(x) by {}
    assert forall|x: SlotId| (#[trigger] after.slot(x)) is Function implies heap.slot(x) == after.slot(x) by {}
    lemma_replaced_wf(heap, scope, slot);
}

pub proof fn lemma_replaced_wf(heap: HeapView, id: SlotId, slot: SlotView)
    requires
        heap.wf(),
        !(heap.slot(id) is Free),
        !(slot is Free),
    ensures
        heap.with(id, slot).wf(),
{
    let after = heap.with(id, slot);
    assert forall|i: int| 0 <= i < after.free.len() implies (#[trigger] after.free[i]).0 < after.slots.len()
        && after.slots[after.free[i].0 as int] is Free by {
        assert(heap.free[i].0 < heap.slots.len() && heap.slots[heap.free[i].0 as int] is Free);
    }
    assert forall|t: int| 0 <= t < after.slots.len() && (#[trigger] after.slots[t]) is Free implies exists|i: int|
        0 <= i < after.free.len() && (#[trigger] after.free[i]).0 == t by {
        assert(heap.slots[t] is Free);
        let i = choose|i: int| 0 <= i < heap.free.len() && (#[trigger] heap.free[i]).0 == t;
        assert(after.free[i].0 == t);
    }
}

pub proof fn lemma_put_among(entries: Seq<(Seq<char>, RtView)>, key: Seq<char>, value: RtView, name: Seq<char>)
    requires
        key != name,
    ensures
        among(entries, put(entries, key, value), name),
        has_key(put(entries, key, value), name) == has_key(entries, name),
{
    lemma_put_keys(entries, key, value);
    let after = put(entries, key, value);
    assert forall|i: int| 0 <= i < after.len() && (#[trigger] after[i]).0 == name implies exists|j: int|
        0 <= j < entries.len() && #[trigger] entries[j] == after[i] by {
        assert(entries[i] == after[i]);
    }
}

/// Binding another name.
pub proof fn lemma_declared_still(heap: HeapView, scope: SlotId, other: Seq<char>, value: RtView, name: Seq<char>)
    requires
        heap.wf(),
        other != name,
    ensures
        still(heap, heap.declared(scope, other, value), name),
        heap.declared(scope, other, value).wf(),
{
    lemma_same_slots_still(heap, heap, name);
    if let SlotView::Scope { bindings, parent, captured } = heap.slot(scope) {
        lemma_put_among(bindings, other, value, name);
        lemma_scope_replaced(heap, scope, put(bindings, other, value), parent, captured, name);
    }
}

/// The functions of a heap in which one more was made.
pub proof fn lemma_made(p: Program, s: Sight, l: Labels, m: MachineView, at: FnAt, function: Function)
    requires
        calm(p, s, l, m.heap, m.functions),
        homed(m.heap),
        m.heap.wf(),
        sized(m.function_made(at)),
        function_at(p, at) == Some(function),
        s.lives(body_job(p, function)),
        suits_body(s, l, m.heap, body_job(p, function), m.scope),
        m.heap.slot(m.scope) is Scope,
    ensures
        calm(p, s, l, m.function_made(at).heap, m.function_made(at).functions),
        alike(m.heap, m.function_made(at).heap, s.name),
        forall|id: SlotId| m.heap.slot(id) is Scope ==> #[trigger] m.function_made(at).heap.bindings(id) == m.heap.bindings(id),
        lasting(m.heap, m.function_made(at).heap),
        extends(m.functions, m.function_made(at).functions),
        m.function_made(at).heap.wf(),
        worth(p, m.function_made(at).heap, m.function_made(at).functions, m.function_value(), function.parameters.len()),
        m.heap.slots.len() <= m.function_made(at).heap.slots.len(),
        forall|id: SlotId| m.heap.slot(id) is Scope ==> #[trigger] carried(s, l, m.heap, l, m.function_made(at).heap, id),
{
    let after = m.function_made(at);
    let definition = definition_of(m.functions, at, 0);
    lemma_definition(m.functions, at, 0);
    let marked = m.heap.marked(m.scope);
    lemma_marked_still(m.heap, m.scope, m.heap.slots.len(), s.name);
    lemma_mark_bindings(m.heap, m.scope, m.heap.slots.len());
    let slot = SlotView::Function { definition: definition as usize, scope: m.scope };
    lemma_allocated(marked, slot);
    let new = marked.next();
    assert(after.functions[definition] == at);
    assert(extends(m.functions, after.functions));
    assert forall|x: SlotId| #[trigger] shape(after.heap, s.name, x) == shape(m.heap, s.name, x) by {
        assert(shape(marked, s.name, x) == shape(m.heap, s.name, x));
        if x != new {
            assert(after.heap.slot(x) == marked.slot(x));
        }
    }
    assert forall|x: SlotId| m.heap.slot(x) is Scope implies #[trigger] after.heap.bindings(x) == m.heap.bindings(x) by {
        assert(shape(marked, s.name, x) == shape(m.heap, s.name, x));
        assert(marked.bindings(x) == m.heap.bindings(x));
        assert(after.heap.slot(x) == marked.slot(x));
    }
    assert forall|x: SlotId| (#[trigger] m.heap.slot(x)) is Function implies after.heap.slot(x) == m.heap.slot(x) by {
        assert(marked.slot(x) == m.heap.slot(x));
        assert(x != new);
        assert(after.heap.slot(x) == marked.slot(x));
    }
    lemma_alike(s, l, m.heap, after.heap);
    assert forall|id: SlotId| (#[trigger] after.heap.slot(id)) is Scope implies l.ages(id) < l.next && (has_key(
        after.heap.bindings(id),
        s.name,
    ) ==> l.soils(id)) && (around(after.heap, id) matches Some(outer) ==> l.ages(outer) < l.ages(id)) by {
        assert(shape(after.heap, s.name, id) == shape(m.heap, s.name, id));
        assert(m.heap.slot(id) is Scope);
    }
    assert forall|id: SlotId, n: usize| after.heap.slot(id) is Scope && #[trigger] l.sures(id, n) implies only(
        p,
        after.heap,
        after.functions,
        after.heap.bindings(id),
        s.name,
        n,
    ) by {
        assert(shape(after.heap, s.name, id) == shape(m.heap, s.name, id));
        let entries = m.heap.bindings(id);
        assert(after.heap.bindings(id) == entries);
        assert(only(p, m.heap, m.functions, entries, s.name, n));
        assert(among(entries, entries, s.name)) by {
            assert forall|i: int| 0 <= i < entries.len() && (#[trigger] entries[i]).0 == s.name implies exists|j: int|
                0 <= j < entries.len() && #[trigger] entries[j] == entries[i] by {}
        }
        lemma_only_among(p, m.heap, after.heap, m.functions, after.functions, entries, entries, s.name, n);
    }
    assert(carried(s, l, m.heap, l, after.heap, m.scope));
    lemma_suits_body(s, l, m.heap, l, after.heap, body_job(p, function), m.scope);
    assert forall|id: SlotId| (#[trigger] after.heap.slot(id)) is Function implies housed_at(
        p,
        s,
        l,
        after.heap,
        after.functions,
        id,
    ) by {
        if id != new {
            assert(after.heap.slot(id) == marked.slot(id));
            assert(m.heap.slot(id) == marked.slot(id));
            if let SlotView::Function { definition, scope } = m.heap.slot(id) {
                assert(m.heap.captured(scope));
                lemma_housed(p, s, l, m.heap, l, after.heap, m.functions, after.functions, definition, scope);
            }
        }
    }
}

pub proof fn lemma_definition(list: Seq<FnAt>, at: FnAt, k: int)
    requires
        0 <= k <= list.len(),
    ensures
        k <= definition_of(list, at, k) <= list.len(),
        definition_of(list, at, k) < list.len() ==> list[definition_of(list, at, k)] == at,
    decreases list.len() - k,
{
    if k < list.len() && list[k] != at {
        lemma_definition(list, at, k + 1);
    }
}

proof fn lemma_mark_bindings(heap: HeapView, scope: SlotId, fuel: nat)
    ensures
        forall|x: SlotId| #[trigger] heap.mark_within(scope, fuel).bindings(x) == heap.bindings(x),
    decreases fuel,
{
    if fuel > 0 {
        if let SlotView::Scope { bindings, parent, captured } = heap.slot(scope) {
            if !captured {
                let next = heap.with(scope, SlotView::Scope { bindings, parent, captured: true });
                assert forall|x: SlotId| #[trigger] next.bindings(x) == heap.bindings(x) by {
                    if x != scope {
                        assert(next.slot(x) == heap.slot(x));
                    }
                }
                if let Some(outer) = parent {
                    lemma_mark_bindings(next, outer, (fuel - 1) as nat);
                    assert forall|x: SlotId| #[trigger] heap.mark_within(scope, fuel).bindings(x) == heap.bindings(x) by {
                        assert(next.mark_within(outer, (fuel - 1) as nat).bindings(x) == next.bindings(x));
                        assert(next.bindings(x) == heap.bindings(x));
                    }
                }
            }
        }
    }
}

} // verus!

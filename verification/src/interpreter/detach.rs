//! Copying a value out of the heap.
//!
//! A value that reaches a function, or reaches itself again, has no finite form outside. Meeting a
//! collection again once it is done is sharing, not a cycle, and reuses what was made of it.
//!
//! The walk runs on a stack of its own, so the nesting of a value never grows the host's.

use vstd::prelude::*;
use std::collections::HashMap;
use crate::interpreter::heap::Heap;
use crate::interpreter::heap::HeapView;
use crate::interpreter::heap::RtValue;
use crate::interpreter::heap::RtView;
use crate::interpreter::heap::Slot;
use crate::interpreter::heap::SlotId;
use crate::interpreter::heap::SlotView;
use crate::interpreter::heap::entry_values;
use crate::interpreter::heap::entry_views;
use crate::interpreter::heap::views;
use crate::interpreter::value::Array;
use crate::interpreter::value::Object;
use crate::interpreter::value::Value;
use crate::interpreter::value::ValueView;
use crate::interpreter::value::entry_trees;
use crate::interpreter::value::trees;
use crate::table::Table;
use crate::table::distinct;
use crate::table::has_key;

verus! {

/// Why a value has no form outside its heap.
#[derive(Debug, Clone, Copy, PartialEq, Eq, Structural)]
pub enum DetachFailure {
    /// What it reaches refers back to itself.
    Cycle,
    /// It is, or contains, a function.
    Function,
}

/// How many of the first `n` slots are not on the path.
pub open spec fn unvisited(path: Set<int>, n: int) -> nat
    decreases n,
{
    if n <= 0 {
        0
    } else if path.contains(n - 1) {
        unvisited(path, n - 1)
    } else {
        unvisited(path, n - 1) + 1
    }
}

pub proof fn lemma_unvisited(path: Set<int>, id: int, n: int)
    requires
        !path.contains(id),
        0 <= id,
    ensures
        unvisited(path.insert(id), n) == unvisited(path, n) - (if id < n { 1int } else { 0int }),
    decreases n,
{
    if n > 0 {
        lemma_unvisited(path, id, n - 1);
    }
}

/// The values that a collection holds, in order.
pub open spec fn kids(heap: HeapView, id: SlotId) -> Seq<RtView> {
    match heap.slot(id) {
        SlotView::Array { items, .. } => items,
        SlotView::Object { entries, .. } => entry_values(entries),
        _ => Seq::empty(),
    }
}

/// The collection at `id` with `parts` in place of what it holds.
pub open spec fn built(heap: HeapView, id: SlotId, parts: Seq<ValueView>) -> ValueView {
    match heap.slot(id) {
        SlotView::Array { .. } => ValueView::Array(parts),
        SlotView::Object { entries, .. } => ValueView::Object(
            Seq::new(
                if entries.len() < parts.len() {
                    entries.len()
                } else {
                    parts.len()
                },
                |i: int| (entries[i].0, parts[i]),
            ),
        ),
        _ => ValueView::Null,
    }
}

/// The tree of a value, or why it has none: the first function, or collection that is on its own
/// path, in the order of the walk.
pub open spec fn detach_value(heap: HeapView, value: RtView, path: Set<int>) -> Result<ValueView, DetachFailure>
    decreases unvisited(path, heap.slots.len() as int), 1int,
{
    match value {
        RtView::Null => Ok(ValueView::Null),
        RtView::Bool(b) => Ok(ValueView::Bool(b)),
        RtView::Number(n) => Ok(ValueView::Number(n)),
        RtView::String(s, _) => Ok(ValueView::String(s)),
        RtView::Array(id) => detach_slot(heap, id, path),
        RtView::Object(id) => detach_slot(heap, id, path),
        RtView::Function(_) => Err(DetachFailure::Function),
    }
}

/// The tree of the collection at `id`.
pub open spec fn detach_slot(heap: HeapView, id: SlotId, path: Set<int>) -> Result<ValueView, DetachFailure>
    decreases unvisited(path, heap.slots.len() as int), 0int,
{
    if path.contains(id.0 as int) {
        Err(DetachFailure::Cycle)
    } else if heap.slot(id) is Array || heap.slot(id) is Object {
        proof {
            lemma_unvisited(path, id.0 as int, heap.slots.len() as int);
        }
        match detach_list(heap, kids(heap, id), 0, path.insert(id.0 as int)) {
            Ok(parts) => Ok(built(heap, id, parts)),
            Err(failure) => Err(failure),
        }
    } else {
        Ok(ValueView::Null)
    }
}

/// The trees of the values from `k` on.
pub open spec fn detach_list(heap: HeapView, values: Seq<RtView>, k: int, path: Set<int>) -> Result<
    Seq<ValueView>,
    DetachFailure,
>
    decreases unvisited(path, heap.slots.len() as int), values.len() - k + 2,
{
    if k < 0 || k >= values.len() {
        Ok(Seq::empty())
    } else {
        match detach_value(heap, values[k], path) {
            Err(failure) => Err(failure),
            Ok(first) => match detach_list(heap, values, k + 1, path) {
                Err(failure) => Err(failure),
                Ok(rest) => Ok(seq![first] + rest),
            },
        }
    }
}

/// A step of the walk: copy a value, or put a collection together from its parts.
enum Visit {
    Enter(RtValue),
    Finish(SlotId),
}

ghost enum Step {
    Enter(RtView),
    Finish(SlotId),
}

spec fn step_of(visit: Visit) -> Step {
    match visit {
        Visit::Enter(value) => Step::Enter(value@),
        Visit::Finish(id) => Step::Finish(id),
    }
}

spec fn steps(work: Seq<Visit>) -> Seq<Step> {
    Seq::new(work.len(), |i: int| step_of(work[i]))
}

/// The last values of `out` put together as the collection at `id`.
spec fn finished(heap: HeapView, out: Seq<ValueView>, id: SlotId) -> Seq<ValueView> {
    let n = kids(heap, id).len();
    let at = if out.len() >= n {
        out.len() - n
    } else {
        0
    };
    out.subrange(0, at).push(built(heap, id, out.subrange(at, out.len() as int)))
}

/// What the steps of `work` make of `out`, the last step first.
spec fn performed(heap: HeapView, out: Seq<ValueView>, work: Seq<Step>, path: Set<int>) -> Result<
    Seq<ValueView>,
    DetachFailure,
>
    decreases work.len(),
{
    if work.len() == 0 {
        Ok(out)
    } else {
        match work.last() {
            Step::Enter(value) => match detach_value(heap, value, path) {
                Err(failure) => Err(failure),
                Ok(one) => performed(heap, out.push(one), work.drop_last(), path),
            },
            Step::Finish(id) => performed(heap, finished(heap, out, id), work.drop_last(), path.remove(id.0 as int)),
        }
    }
}

/// The steps that copy `values` from `k` on, the first on top.
spec fn enters(values: Seq<RtView>, k: int) -> Seq<Step> {
    Seq::new((values.len() - k) as nat, |i: int| Step::Enter(values[values.len() - 1 - i]))
}

proof fn lemma_list_len(heap: HeapView, values: Seq<RtView>, k: int, path: Set<int>)
    requires
        0 <= k <= values.len(),
        detach_list(heap, values, k, path) is Ok,
    ensures
        detach_list(heap, values, k, path)->Ok_0.len() == values.len() - k,
    decreases values.len() - k,
{
    if k < values.len() {
        lemma_list_len(heap, values, k + 1, path);
    }
}

proof fn lemma_enters(
    heap: HeapView,
    out: Seq<ValueView>,
    base: Seq<Step>,
    values: Seq<RtView>,
    k: int,
    path: Set<int>,
)
    requires
        0 <= k <= values.len(),
    ensures
        performed(heap, out, base + enters(values, k), path) == (match detach_list(heap, values, k, path) {
            Err(failure) => Err(failure),
            Ok(parts) => performed(heap, out + parts, base, path),
        }),
    decreases values.len() - k,
{
    let work = base + enters(values, k);
    if k == values.len() {
        assert(work =~= base);
        assert(out + Seq::<ValueView>::empty() =~= out);
    } else {
        assert(work.last() == Step::Enter(values[k]));
        assert(work.drop_last() =~= base + enters(values, k + 1));
        match detach_value(heap, values[k], path) {
            Err(failure) => {},
            Ok(first) => {
                lemma_enters(heap, out.push(first), base, values, k + 1, path);
                match detach_list(heap, values, k + 1, path) {
                    Err(failure) => {},
                    Ok(rest) => {
                        assert(out.push(first) + rest =~= out + (seq![first] + rest));
                    },
                }
            },
        }
    }
}

/// Entering a collection is entering what it holds and then putting it together.
proof fn lemma_open(heap: HeapView, out: Seq<ValueView>, base: Seq<Step>, value: RtView, id: SlotId, path: Set<int>)
    requires
        value == RtView::Array(id) || value == RtView::Object(id),
        !path.contains(id.0 as int),
    ensures
        performed(heap, out, base.push(Step::Enter(value)), path) == performed(
            heap,
            out,
            base.push(Step::Finish(id)) + enters(kids(heap, id), 0),
            path.insert(id.0 as int),
        ),
{
    let inner = path.insert(id.0 as int);
    let work = base.push(Step::Finish(id));
    lemma_enters(heap, out, work, kids(heap, id), 0, inner);
    assert(work.drop_last() =~= base);
    assert(base.push(Step::Enter(value)).drop_last() =~= base);
    assert(inner.remove(id.0 as int) =~= path);
    if heap.slot(id) is Array || heap.slot(id) is Object {
        match detach_list(heap, kids(heap, id), 0, inner) {
            Err(failure) => {},
            Ok(parts) => {
                lemma_list_len(heap, kids(heap, id), 0, inner);
                let all = out + parts;
                let n = kids(heap, id).len();
                assert(all.subrange(all.len() - n, all.len() as int) =~= parts);
                assert(all.subrange(0, all.len() - n) =~= out);
                assert(finished(heap, all, id) =~= out.push(built(heap, id, parts)));
            },
        }
    } else {
        let all = out + Seq::<ValueView>::empty();
        assert(detach_list(heap, kids(heap, id), 0, inner) == Ok::<Seq<ValueView>, DetachFailure>(Seq::empty()));
        assert(all =~= out);
        assert(finished(heap, all, id) =~= out.push(ValueView::Null));
    }
}

/// The collection that a value is, if it is one.
spec fn collection(value: RtView) -> Option<int> {
    match value {
        RtView::Array(id) => Some(id.0 as int),
        RtView::Object(id) => Some(id.0 as int),
        _ => None,
    }
}

/// Whether a value is no collection, or one among `done`.
spec fn settled(value: RtView, done: Set<int>) -> bool {
    collection(value) matches Some(id) ==> done.contains(id)
}

/// What the collections among `done` hold is settled.
spec fn closed_under(heap: HeapView, done: Set<int>) -> bool {
    forall|id: SlotId, k: int|
        done.contains(id.0 as int) && 0 <= k < kids(heap, id).len() ==> settled(#[trigger] kids(heap, id)[k], done)
}

/// A settled value comes out alike on two paths that agree on what is done.
proof fn lemma_agree_value(heap: HeapView, value: RtView, done: Set<int>, p: Set<int>, q: Set<int>)
    requires
        closed_under(heap, done),
        settled(value, done),
        forall|i: int| done.contains(i) ==> (p.contains(i) <==> q.contains(i)),
    ensures
        detach_value(heap, value, p) == detach_value(heap, value, q),
    decreases unvisited(p, heap.slots.len() as int), 1int,
{
    match value {
        RtView::Array(id) => {
            lemma_agree_slot(heap, id, done, p, q);
        },
        RtView::Object(id) => {
            lemma_agree_slot(heap, id, done, p, q);
        },
        _ => {},
    }
}

proof fn lemma_agree_slot(heap: HeapView, id: SlotId, done: Set<int>, p: Set<int>, q: Set<int>)
    requires
        closed_under(heap, done),
        done.contains(id.0 as int),
        forall|i: int| done.contains(i) ==> (p.contains(i) <==> q.contains(i)),
    ensures
        detach_slot(heap, id, p) == detach_slot(heap, id, q),
    decreases unvisited(p, heap.slots.len() as int), 0int,
{
    if !p.contains(id.0 as int) && (heap.slot(id) is Array || heap.slot(id) is Object) {
        lemma_unvisited(p, id.0 as int, heap.slots.len() as int);
        assert forall|k: int| 0 <= k < kids(heap, id).len() implies settled(#[trigger] kids(heap, id)[k], done) by {}
        lemma_agree_list(heap, kids(heap, id), 0, done, p.insert(id.0 as int), q.insert(id.0 as int));
    }
}

proof fn lemma_agree_list(heap: HeapView, values: Seq<RtView>, k: int, done: Set<int>, p: Set<int>, q: Set<int>)
    requires
        closed_under(heap, done),
        0 <= k,
        forall|i: int| 0 <= i < values.len() ==> settled(#[trigger] values[i], done),
        forall|i: int| done.contains(i) ==> (p.contains(i) <==> q.contains(i)),
    ensures
        detach_list(heap, values, k, p) == detach_list(heap, values, k, q),
    decreases unvisited(p, heap.slots.len() as int), values.len() - k + 2,
{
    if k < values.len() {
        lemma_agree_value(heap, values[k], done, p, q);
        lemma_agree_list(heap, values, k + 1, done, p, q);
    }
}

/// The walk between two steps: what came out, what is left, the collections on the path, and what
/// was made of those that are done. `bases` holds, for each collection on the path, what was out
/// when it was entered.
ghost struct Walk {
    out: Seq<ValueView>,
    work: Seq<Step>,
    path: Set<int>,
    memo: Map<int, ValueView>,
    bases: Seq<Seq<ValueView>>,
}

/// Whether a step puts the collection `id` together.
spec fn closes(step: Step, id: int) -> bool {
    step matches Step::Finish(at) && at.0 == id
}

/// Whether `work` has yet to put the collection `id` together.
spec fn opened(work: Seq<Step>, id: int) -> bool {
    exists|w: int| 0 <= w < work.len() && closes(#[trigger] work[w], id)
}

/// Whether `work` holds, above `w`, a step that enters or finishes what `value` is.
spec fn ahead(work: Seq<Step>, w: int, value: RtView) -> bool {
    exists|u: int|
        w < u < work.len() && (#[trigger] work[u] == Step::Enter(value) || (work[u] matches Step::Finish(at)
            && collection(value) == Some(at.0 as int)))
}

spec fn push_result(base: Seq<ValueView>, result: Result<ValueView, DetachFailure>) -> Result<
    Seq<ValueView>,
    DetachFailure,
> {
    match result {
        Ok(one) => Ok(base.push(one)),
        Err(failure) => Err(failure),
    }
}

/// The set of collections that `work` has yet to put together.
spec fn open_set(work: Seq<Step>) -> Set<int> {
    Set::new(|id: int| opened(work, id))
}

impl Walk {
    spec fn ok(self, heap: HeapView, target: Result<Seq<ValueView>, DetachFailure>) -> bool {
        &&& performed(heap, self.out, self.work, self.path) == target
        &&& self.path == open_set(self.work)
        &&& self.bases.len() == self.work.len()
        &&& self.memos(heap)
        &&& forall|w: int| 0 <= w < self.work.len() ==> #[trigger] self.frame(heap, w)
    }

    /// What is known of the collections that are done.
    spec fn memos(self, heap: HeapView) -> bool {
        &&& closed_under(heap, self.memo.dom())
        &&& forall|id: SlotId|
            self.memo.dom().contains(id.0 as int) ==> #[trigger] detach_slot(heap, id, self.path) == Ok::<
                ValueView,
                DetachFailure,
            >(self.memo[id.0 as int])
        &&& forall|i: int| self.memo.dom().contains(i) ==> !self.path.contains(i)
    }

    /// What is known of the collection that step `w` puts together: what the steps from there on
    /// make, that it is opened once, and that what it holds is done or ahead.
    spec fn frame(self, heap: HeapView, w: int) -> bool {
        self.work[w] matches Step::Finish(id) ==> {
            &&& performed(heap, self.out, self.work.skip(w), self.path) == push_result(
                self.bases[w],
                detach_slot(heap, id, open_set(self.work.take(w))),
            )
            &&& !opened(self.work.take(w), id.0 as int)
            &&& forall|k: int|
                0 <= k < kids(heap, id).len() ==> settled(#[trigger] kids(heap, id)[k], self.memo.dom()) || ahead(
                    self.work,
                    w,
                    kids(heap, id)[k],
                )
        }
    }
}

/// The walk after a value came out as `one` without opening anything.
spec fn after_value(walk: Walk, one: ValueView) -> Walk {
    Walk {
        out: walk.out.push(one),
        work: walk.work.drop_last(),
        path: walk.path,
        memo: walk.memo,
        bases: walk.bases.drop_last(),
    }
}

proof fn lemma_open_set_push(work: Seq<Step>, step: Step)
    ensures
        step matches Step::Enter(_) ==> open_set(work.push(step)) == open_set(work),
        step matches Step::Finish(id) ==> open_set(work.push(step)) == open_set(work).insert(id.0 as int),
{
    let more = work.push(step);
    assert forall|i: int| opened(work, i) implies opened(more, i) by {
        let w = choose|w: int| 0 <= w < work.len() && closes(#[trigger] work[w], i);
        assert(more[w] == work[w]);
    }
    assert forall|i: int| opened(more, i) implies opened(work, i) || (step matches Step::Finish(at) && at.0 == i) by {
        let w = choose|w: int| 0 <= w < more.len() && closes(#[trigger] more[w], i);
        if w < work.len() {
            assert(work[w] == more[w]);
        }
    }
    match step {
        Step::Enter(_) => {
            assert(open_set(more) =~= open_set(work));
        },
        Step::Finish(id) => {
            assert(more[work.len() as int] == step);
            assert(opened(more, id.0 as int));
            assert(open_set(more) =~= open_set(work).insert(id.0 as int));
        },
    }
}

proof fn lemma_after_value(heap: HeapView, walk: Walk, target: Result<Seq<ValueView>, DetachFailure>, value: RtView, one: ValueView)
    requires
        walk.ok(heap, target),
        walk.work.len() > 0,
        walk.work.last() == Step::Enter(value),
        detach_value(heap, value, walk.path) == Ok::<ValueView, DetachFailure>(one),
        settled(value, walk.memo.dom()),
    ensures
        after_value(walk, one).ok(heap, target),
{
    let next = after_value(walk, one);
    let rest = next.work;
    assert(walk.work =~= rest.push(Step::Enter(value)));
    lemma_open_set_push(rest, Step::Enter(value));
    assert forall|w: int| 0 <= w < rest.len() implies #[trigger] next.frame(heap, w) by {
        assert(walk.frame(heap, w));
        if let Step::Finish(id) = rest[w] {
            assert(walk.work[w] == rest[w]);
            assert(walk.work.skip(w) =~= rest.skip(w).push(Step::Enter(value)));
            assert(rest.skip(w).push(Step::Enter(value)).drop_last() =~= rest.skip(w));
            assert(walk.work.take(w) =~= rest.take(w));
            assert forall|k: int| 0 <= k < kids(heap, id).len() implies settled(
                #[trigger] kids(heap, id)[k],
                next.memo.dom(),
            ) || ahead(rest, w, kids(heap, id)[k]) by {
                let kid = kids(heap, id)[k];
                if !settled(kid, walk.memo.dom()) {
                    let u = choose|u: int|
                        w < u < walk.work.len() && (#[trigger] walk.work[u] == Step::Enter(kid) || (
                        walk.work[u] matches Step::Finish(at) && collection(kid) == Some(at.0 as int)));
                    if u == rest.len() {
                        assert(kid == value);
                    } else {
                        assert(rest[u] == walk.work[u]);
                    }
                }
            }
        }
    }
}

/// The walk after the collection `id` is entered.
spec fn after_open(heap: HeapView, walk: Walk, id: SlotId) -> Walk {
    let rest = walk.work.drop_last();
    let values = kids(heap, id);
    Walk {
        out: walk.out,
        work: rest.push(Step::Finish(id)) + enters(values, 0),
        path: walk.path.insert(id.0 as int),
        memo: walk.memo,
        bases: walk.bases.drop_last().push(walk.out) + Seq::new(values.len(), |i: int| walk.out),
    }
}

proof fn lemma_open_set_enters(base: Seq<Step>, values: Seq<RtView>, k: int)
    requires
        0 <= k <= values.len(),
    ensures
        open_set(base + enters(values, k)) == open_set(base),
    decreases values.len() - k,
{
    if k == values.len() {
        assert(base + enters(values, k) =~= base);
    } else {
        lemma_open_set_enters(base, values, k + 1);
        assert(base + enters(values, k) =~= (base + enters(values, k + 1)).push(Step::Enter(values[k])));
        lemma_open_set_push(base + enters(values, k + 1), Step::Enter(values[k]));
    }
}

proof fn lemma_after_open(heap: HeapView, walk: Walk, target: Result<Seq<ValueView>, DetachFailure>, value: RtView, id: SlotId)
    requires
        walk.ok(heap, target),
        walk.work.len() > 0,
        walk.work.last() == Step::Enter(value),
        value == RtView::Array(id) || value == RtView::Object(id),
        !walk.path.contains(id.0 as int),
        !walk.memo.dom().contains(id.0 as int),
    ensures
        after_open(heap, walk, id).ok(heap, target),
{
    let next = after_open(heap, walk, id);
    let rest = walk.work.drop_last();
    let values = kids(heap, id);
    let at = rest.len() as int;
    assert(walk.work =~= rest.push(Step::Enter(value)));
    lemma_open(heap, walk.out, rest, value, id, walk.path);
    lemma_open_set_push(rest, Step::Enter(value));
    lemma_open_set_push(rest, Step::Finish(id));
    lemma_open_set_enters(rest.push(Step::Finish(id)), values, 0);
    assert forall|d: SlotId| next.memo.dom().contains(d.0 as int) implies #[trigger] detach_slot(heap, d, next.path)
        == Ok::<ValueView, DetachFailure>(next.memo[d.0 as int]) by {
        assert(detach_slot(heap, d, walk.path) == Ok::<ValueView, DetachFailure>(walk.memo[d.0 as int]));
        lemma_agree_slot(heap, d, walk.memo.dom(), walk.path, next.path);
    }
    assert(next.work[at] == Step::Finish(id));
    assert forall|w: int| 0 <= w < next.work.len() implies #[trigger] next.frame(heap, w) by {
        if let Step::Finish(inner) = next.work[w] {
            assert(w <= at);
            if w < at {
                assert(walk.work[w] == next.work[w]);
                assert(walk.frame(heap, w));
                assert(walk.work.skip(w) =~= rest.skip(w).push(Step::Enter(value)));
                assert(next.work.skip(w) =~= rest.skip(w).push(Step::Finish(id)) + enters(values, 0));
                lemma_open(heap, walk.out, rest.skip(w), value, id, walk.path);
                assert(next.work.take(w) =~= walk.work.take(w));
                assert(next.bases[w] == walk.bases[w]);
                assert forall|k: int| 0 <= k < kids(heap, inner).len() implies settled(
                    #[trigger] kids(heap, inner)[k],
                    next.memo.dom(),
                ) || ahead(next.work, w, kids(heap, inner)[k]) by {
                    let kid = kids(heap, inner)[k];
                    if !settled(kid, walk.memo.dom()) {
                        let u = choose|u: int|
                            w < u < walk.work.len() && (#[trigger] walk.work[u] == Step::Enter(kid) || (
                            walk.work[u] matches Step::Finish(f) && collection(kid) == Some(f.0 as int)));
                        if u == at {
                            assert(kid == value);
                            assert(next.work[at] == Step::Finish(id));
                        } else {
                            assert(next.work[u] == walk.work[u]);
                        }
                    }
                }
            } else {
                let none = Seq::<Step>::empty();
                reveal_with_fuel(performed, 2);
                lemma_open(heap, walk.out, none, value, id, walk.path);
                assert(!open_set(rest).contains(id.0 as int));
                assert(next.work.skip(at) =~= none.push(Step::Finish(id)) + enters(values, 0));
                assert(none.push(Step::Enter(value)).drop_last() =~= none);
                assert(next.work.take(at) =~= rest);
                assert(next.bases[at] == walk.out);
                assert forall|k: int| 0 <= k < kids(heap, id).len() implies settled(
                    #[trigger] kids(heap, id)[k],
                    next.memo.dom(),
                ) || ahead(next.work, at, kids(heap, id)[k]) by {
                    let u = at + 1 + (values.len() - 1 - k);
                    assert(next.work[u] == Step::Enter(values[k]));
                }
            }
        }
    }
}

/// The walk after the collection `id` is put together as `one`.
spec fn after_finish(heap: HeapView, walk: Walk, id: SlotId) -> Walk {
    Walk {
        out: finished(heap, walk.out, id),
        work: walk.work.drop_last(),
        path: walk.path.remove(id.0 as int),
        memo: walk.memo.insert(id.0 as int, finished(heap, walk.out, id).last()),
        bases: walk.bases.drop_last(),
    }
}

proof fn lemma_after_finish(heap: HeapView, walk: Walk, target: Result<Seq<ValueView>, DetachFailure>, id: SlotId)
    requires
        walk.ok(heap, target),
        walk.work.len() > 0,
        walk.work.last() == Step::Finish(id),
    ensures
        after_finish(heap, walk, id).ok(heap, target),
{
    let next = after_finish(heap, walk, id);
    let rest = walk.work.drop_last();
    let at = rest.len() as int;
    let one = finished(heap, walk.out, id).last();
    let none = Seq::<Step>::empty();
    assert(walk.work =~= rest.push(Step::Finish(id)));
    lemma_open_set_push(rest, Step::Finish(id));
    assert(walk.frame(heap, at));
    assert(walk.work[at] == Step::Finish(id));
    assert(walk.work.skip(at) =~= none.push(Step::Finish(id)));
    assert(none.push(Step::Finish(id)).drop_last() =~= none);
    assert(walk.work.take(at) =~= rest);
    assert(performed(heap, walk.out, none.push(Step::Finish(id)), walk.path) == performed(
        heap,
        finished(heap, walk.out, id),
        none,
        walk.path.remove(id.0 as int),
    ));
    assert(detach_slot(heap, id, open_set(rest)) is Ok);
    assert(walk.bases[at].push(detach_slot(heap, id, open_set(rest))->Ok_0).last() == one);
    assert(next.path =~= open_set(rest));
    assert(walk.path.contains(id.0 as int));
    assert(!walk.memo.dom().contains(id.0 as int));
    let done = next.memo.dom();
    assert(done =~= walk.memo.dom().insert(id.0 as int));
    assert forall|d: SlotId, k: int| done.contains(d.0 as int) && 0 <= k < kids(heap, d).len() implies settled(
        #[trigger] kids(heap, d)[k],
        done,
    ) by {
        if d.0 == id.0 {
            assert(d == id);
            assert(settled(kids(heap, id)[k], walk.memo.dom()) || ahead(walk.work, at, kids(heap, id)[k]));
        } else {
            assert(settled(kids(heap, d)[k], walk.memo.dom()));
        }
    }
    assert forall|d: SlotId| done.contains(d.0 as int) implies #[trigger] detach_slot(heap, d, next.path) == Ok::<
        ValueView,
        DetachFailure,
    >(next.memo[d.0 as int]) by {
        if d.0 == id.0 {
            assert(d == id);
        } else {
            assert(detach_slot(heap, d, walk.path) == Ok::<ValueView, DetachFailure>(walk.memo[d.0 as int]));
            lemma_agree_slot(heap, d, walk.memo.dom(), walk.path, next.path);
        }
    }
    assert forall|w: int| 0 <= w < rest.len() implies #[trigger] next.frame(heap, w) by {
        if let Step::Finish(inner) = rest[w] {
            assert(walk.frame(heap, w));
            assert(walk.work[w] == rest[w]);
            assert(walk.work.skip(w) =~= rest.skip(w).push(Step::Finish(id)));
            assert(rest.skip(w).push(Step::Finish(id)).drop_last() =~= rest.skip(w));
            assert(walk.work.take(w) =~= rest.take(w));
            assert forall|k: int| 0 <= k < kids(heap, inner).len() implies settled(
                #[trigger] kids(heap, inner)[k],
                done,
            ) || ahead(rest, w, kids(heap, inner)[k]) by {
                let kid = kids(heap, inner)[k];
                if !settled(kid, walk.memo.dom()) {
                    let u = choose|u: int|
                        w < u < walk.work.len() && (#[trigger] walk.work[u] == Step::Enter(kid) || (
                        walk.work[u] matches Step::Finish(f) && collection(kid) == Some(f.0 as int)));
                    if u == at {
                    } else {
                        assert(rest[u] == walk.work[u]);
                    }
                }
            }
        }
    }
}


enum Mark {
    OnPath,
    Done(Value),
}

/// What the marks say: which collections are on the path, and what was made of those done.
spec fn marked(marks: Map<usize, Mark>, walk: Walk) -> bool {
    &&& forall|i: usize|
        walk.path.contains(i as int) <==> (#[trigger] marks.contains_key(i) && marks[i] is OnPath)
    &&& forall|i: usize|
        walk.memo.contains_key(i as int) <==> (#[trigger] marks.contains_key(i) && marks[i] is Done)
    &&& forall|i: usize| #[trigger]
        marks.contains_key(i) && marks[i] is Done ==> walk.memo[i as int] == marks[i]->Done_0@
}

/// The marks are about the open collections and the trees that are done, and about nothing else.
proof fn lemma_marked_same(marks: Map<usize, Mark>, walk: Walk, next: Walk)
    requires
        marked(marks, walk),
        next.path == walk.path,
        next.memo == walk.memo,
    ensures
        marked(marks, next),
{
}

proof fn lemma_marked_open(marks: Map<usize, Mark>, walk: Walk, next: Walk, id: usize)
    requires
        marked(marks, walk),
        !marks.contains_key(id),
        next.path == walk.path.insert(id as int),
        next.memo == walk.memo,
    ensures
        marked(marks.insert(id, Mark::OnPath), next),
{
    let after = marks.insert(id, Mark::OnPath);
    assert forall|i: usize| next.path.contains(i as int) <==> (#[trigger] after.contains_key(i) && after[i] is OnPath) by {
        assert(i != id ==> (after.contains_key(i) == marks.contains_key(i)));
    }
    assert forall|i: usize| next.memo.contains_key(i as int) <==> (#[trigger] after.contains_key(i) && after[i] is Done) by {
        assert(i != id ==> (after.contains_key(i) == marks.contains_key(i)));
        assert(marks.contains_key(id) || !walk.memo.contains_key(id as int));
    }
    assert forall|i: usize| #[trigger] after.contains_key(i) && after[i] is Done implies next.memo[i as int]
        == after[i]->Done_0@ by {
        assert(marks.contains_key(i));
    }
}

proof fn lemma_marked_finish(marks: Map<usize, Mark>, walk: Walk, next: Walk, id: usize, value: Value)
    requires
        marked(marks, walk),
        next.path == walk.path.remove(id as int),
        next.memo == walk.memo.insert(id as int, value@),
    ensures
        marked(marks.insert(id, Mark::Done(value)), next),
{
    let after = marks.insert(id, Mark::Done(value));
    assert forall|i: usize| next.path.contains(i as int) <==> (#[trigger] after.contains_key(i) && after[i] is OnPath) by {
        assert(i != id ==> (after.contains_key(i) == marks.contains_key(i)));
    }
    assert forall|i: usize| next.memo.contains_key(i as int) <==> (#[trigger] after.contains_key(i) && after[i] is Done) by {
        assert(i != id ==> (after.contains_key(i) == marks.contains_key(i)));
    }
    assert forall|i: usize| #[trigger] after.contains_key(i) && after[i] is Done implies next.memo[i as int]
        == after[i]->Done_0@ by {
        assert(i != id ==> marks.contains_key(i));
    }
}

/// The collections that some mark names.
spec fn seen(marks: Map<usize, Mark>) -> Set<int> {
    Set::new(|i: int| 0 <= i <= usize::MAX && marks.contains_key(i as usize))
}

spec fn effort(work: Seq<Step>) -> nat
    decreases work.len(),
{
    if work.len() == 0 {
        0
    } else {
        effort(work.drop_last()) + (match work.last() {
            Step::Enter(_) => 2nat,
            Step::Finish(_) => 1nat,
        })
    }
}

/// An object with the keys of `entries` and the values `parts`, as far as both go.
fn key_parts(entries: &Table<RtValue>, parts: &Vec<Value>) -> (r: Object)
    ensures
        r@ == Seq::new(
            if entries@.len() < parts@.len() {
                entries@.len()
            } else {
                parts@.len()
            },
            |i: int| (entries@[i].0, parts@[i]@),
        ),
{
    let n = entries.len();
    let mut table: Table<Value> = Table::new();
    let mut i: usize = 0;
    while i < n && i < parts.len()
        invariant
            n == entries@.len(),
            distinct(entries@),
            i <= n,
            i <= parts@.len(),
            table@ == Seq::new(i as nat, |j: int| (entries@[j].0, parts@[j])),
        decreases n - i,
    {
        let key = entries.key_at(i).clone();
        let value = parts[i].clone();
        proof {
            if has_key(table@, (*key)@) {
                let j = crate::table::at(table@, (*key)@);
                assert(table@[j].0 == entries@[j].0);
                assert(entries@[j].0 == entries@[i as int].0);
            }
        }
        table.insert(key, value);
        i = i + 1;
        proof {
            assert(table@ =~= Seq::new(i as nat, |j: int| (entries@[j].0, parts@[j])));
        }
    }
    let ghost whole = Seq::new(
        if entries@.len() < parts@.len() {
            entries@.len()
        } else {
            parts@.len()
        },
        |i: int| (entries@[i].0, parts@[i]@),
    );
    proof {
        assert(entry_trees(table@) =~= whole);
    }
    Object::from_table(table)
}

impl Heap {
    /// Put the collection at `id` together from its parts.
    fn assemble(&self, id: SlotId, out: &mut Vec<Value>) -> (r: Value)
        ensures
            trees(final(out)@).push(r@) == finished(self@, trees(old(out)@), id),
    {
        let ghost before = trees(out@);
        match self.slot(id) {
            Some(Slot::Array { items, .. }) => {
                let n = items.len();
                let at: usize = if out.len() >= n { out.len() - n } else { 0 };
                let parts = out.split_off(at);
                proof {
                    assert(trees(parts@) =~= before.subrange(at as int, before.len() as int));
                    assert(trees(out@) =~= before.subrange(0, at as int));
                }
                Value::Array(Array::from_values(parts))
            },
            Some(Slot::Object { entries, .. }) => {
                let n = entries.len();
                let at: usize = if out.len() >= n { out.len() - n } else { 0 };
                let parts = out.split_off(at);
                proof {
                    assert(trees(parts@) =~= before.subrange(at as int, before.len() as int));
                    assert(trees(out@) =~= before.subrange(0, at as int));
                }
                let object = key_parts(entries, &parts);
                proof {
                    assert(ValueView::Object(object@) == built(self@, id, trees(parts@))) by {
                        assert(object@ =~= built(self@, id, trees(parts@))->Object_0);
                    }
                }
                Value::Object(object)
            },
            _ => {
                proof {
                    assert(before.subrange(0, before.len() as int) =~= before);
                }
                Value::Null
            },
        }
    }

    /// Copy a value and everything it reaches out of the heap.
    pub fn detach(&self, root: &RtValue) -> (r: Result<Value, DetachFailure>)
        ensures
            match (r, detach_value(self@, root@, Set::empty())) {
                (Ok(value), Ok(tree)) => value@ == tree,
                (Err(failure), Err(expected)) => failure == expected,
                _ => false,
            },
    {
        broadcast use vstd::std_specs::hash::group_hash_axioms;

        let mut work: Vec<Visit> = Vec::new();
        work.push(Visit::Enter(root.clone()));
        let mut out: Vec<Value> = Vec::new();
        let mut marks: HashMap<usize, Mark> = HashMap::new();
        let ghost target = push_result(Seq::empty(), detach_value(self@, root@, Set::empty()));
        let ghost mut walk = Walk {
            out: Seq::empty(),
            work: Seq::empty().push(Step::Enter(root@)),
            path: Set::empty(),
            memo: Map::empty(),
            bases: Seq::empty().push(Seq::empty()),
        };
        proof {
            reveal_with_fuel(performed, 2);
            assert(steps(work@) =~= walk.work);
            assert(trees(out@) =~= walk.out);
            assert(walk.work.drop_last() =~= Seq::empty());
            assert(walk.path =~= open_set(walk.work));
        }
        while work.len() > 0
            invariant
                target == push_result(Seq::empty(), detach_value(self@, root@, Set::empty())),
                walk.ok(self@, target),
                steps(work@) == walk.work,
                trees(out@) == walk.out,
                marked(marks@, walk),
            decreases unvisited(seen(marks@), self@.slots.len() as int), effort(steps(work@)),
        {
            let ghost before = walk;
            let visit = work.pop().unwrap();
            proof {
                assert(steps(work@) =~= before.work.drop_last());
                assert(before.work.last() == step_of(visit));
            }
            match visit {
                Visit::Enter(value) => {
                    let id = match &value {
                        RtValue::Null => {
                            out.push(Value::Null);
                            proof {
                                lemma_after_value(self@, walk, target, value@, ValueView::Null);
                                lemma_marked_same(marks@, walk, after_value(walk, ValueView::Null));
                                walk = after_value(walk, ValueView::Null);
                                assert(trees(out@) =~= walk.out);
                            }
                            continue;
                        },
                        RtValue::Bool(b) => {
                            out.push(Value::Bool(*b));
                            proof {
                                lemma_after_value(self@, walk, target, value@, ValueView::Bool(*b));
                                lemma_marked_same(marks@, walk, after_value(walk, ValueView::Bool(*b)));
                                walk = after_value(walk, ValueView::Bool(*b));
                                assert(trees(out@) =~= walk.out);
                            }
                            continue;
                        },
                        RtValue::Number(n) => {
                            out.push(Value::Number(*n));
                            proof {
                                lemma_after_value(self@, walk, target, value@, ValueView::Number(n.bits()));
                                lemma_marked_same(marks@, walk, after_value(walk, ValueView::Number(n.bits())));
                                walk = after_value(walk, ValueView::Number(n.bits()));
                                assert(trees(out@) =~= walk.out);
                            }
                            continue;
                        },
                        RtValue::String(s, _) => {
                            out.push(Value::String(s.clone()));
                            proof {
                                lemma_after_value(self@, walk, target, value@, ValueView::String((**s)@));
                                lemma_marked_same(marks@, walk, after_value(walk, ValueView::String((**s)@)));
                                walk = after_value(walk, ValueView::String((**s)@));
                                assert(trees(out@) =~= walk.out);
                            }
                            continue;
                        },
                        RtValue::Function(_) => {
                            return Err(DetachFailure::Function);
                        },
                        RtValue::Array(id) => *id,
                        RtValue::Object(id) => *id,
                    };
                    match marks.get(&id.0) {
                        Some(Mark::Done(done)) => {
                            out.push(done.clone());
                            proof {
                                assert(marks@.contains_key(id.0));
                                assert(walk.memo.dom().contains(id.0 as int));
                                assert(detach_slot(self@, id, walk.path) is Ok);
                                lemma_after_value(self@, walk, target, value@, done@);
                                lemma_marked_same(marks@, walk, after_value(walk, done@));
                                walk = after_value(walk, done@);
                                assert(trees(out@) =~= walk.out);
                            }
                            continue;
                        },
                        Some(Mark::OnPath) => {
                            proof {
                                assert(marks@.contains_key(id.0));
                                assert(walk.path.contains(id.0 as int));
                            }
                            return Err(DetachFailure::Cycle);
                        },
                        None => {},
                    }
                    proof {
                        assert(!marks@.contains_key(id.0));
                        lemma_after_open(self@, walk, target, value@, id);
                        walk = after_open(self@, walk, id);
                        lemma_unvisited(seen(marks@), id.0 as int, self@.slots.len() as int);
                    }
                    let ghost earlier = marks@;
                    marks.insert(id.0, Mark::OnPath);
                    proof {
                        assert(seen(marks@) =~= seen(earlier).insert(id.0 as int));
                        lemma_marked_open(earlier, before, walk, id.0);
                    }
                    work.push(Visit::Finish(id));
                    self.push_kids(id, &mut work);
                    proof {
                        let rest = before.work.drop_last();
                        if id.0 >= self@.slots.len() {
                            assert(steps(work@) =~= rest.push(Step::Finish(id)));
                            assert(rest.push(Step::Finish(id)).drop_last() =~= rest);
                        }
                    }
                },
                Visit::Finish(id) => {
                    let detached = self.assemble(id, &mut out);
                    proof {
                        lemma_after_finish(self@, walk, target, id);
                        walk = after_finish(self@, walk, id);
                    }
                    let ghost earlier = marks@;
                    let ghost kept = trees(out@);
                    marks.insert(id.0, Mark::Done(detached.clone()));
                    out.push(detached);
                    proof {
                        assert(trees(out@) =~= kept.push(detached@));
                        assert(walk.memo[id.0 as int] == detached@);
                        lemma_marked_finish(earlier, before, walk, id.0, detached);
                        assert(before.path.contains(id.0 as int)) by {
                            lemma_open_set_push(before.work.drop_last(), Step::Finish(id));
                            assert(before.work =~= before.work.drop_last().push(Step::Finish(id)));
                        }
                        assert(earlier.contains_key(id.0));
                        assert(seen(marks@) =~= seen(earlier));
                    }
                },
            }
        }
        proof {
            assert(steps(work@) =~= Seq::empty());
            assert(walk.out.len() == 1);
            assert(out@.len() == trees(out@).len());
            assert(trees(out@)[0] == out@[0]@);
        }
        match out.pop() {
            Some(value) => Ok(value),
            None => Err(DetachFailure::Cycle),
        }
    }

    /// Push what the collection at `id` holds, the first on top.
    fn push_kids(&self, id: SlotId, work: &mut Vec<Visit>)
        ensures
            steps(final(work)@) == steps(old(work)@) + enters(kids(self@, id), 0),
    {
        let ghost base = steps(work@);
        let ghost values = kids(self@, id);
        match self.slot(id) {
            Some(Slot::Array { items, .. }) => {
                let mut k: usize = items.len();
                proof {
                    assert(steps(work@) =~= base + enters(values, k as int));
                }
                while k > 0
                    invariant
                        values == views(items@),
                        k <= items@.len(),
                        steps(work@) == base + enters(values, k as int),
                    decreases k,
                {
                    k = k - 1;
                    let ghost prior = steps(work@);
                    work.push(Visit::Enter(items[k].clone()));
                    proof {
                        let one = Step::Enter(values[k as int]);
                        assert(steps(work@) =~= prior.push(one));
                        assert(enters(values, k as int) =~= enters(values, k + 1).push(one));
                        assert(steps(work@) =~= base + enters(values, k as int));
                    }
                }
            },
            Some(Slot::Object { entries, .. }) => {
                let mut k: usize = entries.len();
                proof {
                    assert(steps(work@) =~= base + enters(values, k as int));
                }
                while k > 0
                    invariant
                        values == entry_values(entry_views(entries@)),
                        k <= entries@.len(),
                        steps(work@) == base + enters(values, k as int),
                    decreases k,
                {
                    k = k - 1;
                    let ghost prior = steps(work@);
                    work.push(Visit::Enter(entries.value_at(k).clone()));
                    proof {
                        let one = Step::Enter(values[k as int]);
                        assert(steps(work@) =~= prior.push(one));
                        assert(enters(values, k as int) =~= enters(values, k + 1).push(one));
                        assert(steps(work@) =~= base + enters(values, k as int));
                    }
                }
            },
            _ => {
                proof {
                    assert(steps(work@) =~= base + enters(values, 0));
                }
            },
        }
    }
}

} // verus!

//! Copying a detached value into the heap.
//!
//! The walk runs on a stack of its own, so the nesting of a value never grows the host's.

use vstd::prelude::*;
use crate::interpreter::heap::Heap;
use crate::interpreter::heap::HeapView;
use crate::interpreter::heap::RtValue;
use crate::interpreter::heap::RtView;
use crate::interpreter::heap::SlotView;
use crate::interpreter::heap::entry_views;
use crate::interpreter::heap::lemma_put_views;
use crate::interpreter::heap::views;
use crate::interpreter::value::Object;
use crate::interpreter::value::Value;
use crate::interpreter::value::ValueView;
use crate::table::Table;
use crate::table::distinct;
use crate::table::has_key;

verus! {

/// A value copied into the heap: the heap after it, and its handle. Every string is a new one. The parts of a collection come
/// before the collection, in order.
pub open spec fn attach_value(heap: HeapView, value: ValueView) -> (HeapView, RtView)
    decreases value, 0int,
{
    match value {
        ValueView::Null => (heap, RtView::Null),
        ValueView::Bool(b) => (heap, RtView::Bool(b)),
        ValueView::Number(n) => (heap, RtView::Number(n)),
        ValueView::String(s) => (heap.issue(), RtView::String(s, heap.issued)),
        ValueView::Array(items) => {
            let (after, parts) = attach_items(heap, items, 0);
            (after.allocated(SlotView::Array { items: parts, version: 0 }), RtView::Array(after.next()))
        },
        ValueView::Object(entries) => {
            let (after, parts) = attach_entries(heap, entries, 0);
            (
                after.allocated(SlotView::Object { entries: keyed(entries, parts), version: 0 }),
                RtView::Object(after.next()),
            )
        },
    }
}

/// The items from `k` on, copied into the heap.
pub open spec fn attach_items(heap: HeapView, items: Seq<ValueView>, k: int) -> (HeapView, Seq<RtView>)
    decreases items, items.len() - k,
{
    if k < 0 || k >= items.len() {
        (heap, Seq::empty())
    } else {
        let (one, first) = attach_value(heap, items[k]);
        let (all, rest) = attach_items(one, items, k + 1);
        (all, seq![first] + rest)
    }
}

/// The values of the entries from `k` on, copied into the heap.
pub open spec fn attach_entries(heap: HeapView, entries: Seq<(Seq<char>, ValueView)>, k: int) -> (
    HeapView,
    Seq<RtView>,
)
    decreases entries, entries.len() - k,
{
    if k < 0 || k >= entries.len() {
        (heap, Seq::empty())
    } else {
        let (one, first) = attach_value(heap, entries[k].1);
        let (all, rest) = attach_entries(one, entries, k + 1);
        (all, seq![first] + rest)
    }
}

/// Entries with the keys of `entries` and the values `parts`, as far as both go.
pub open spec fn keyed(entries: Seq<(Seq<char>, ValueView)>, parts: Seq<RtView>) -> Seq<(Seq<char>, RtView)> {
    Seq::new(
        if entries.len() < parts.len() {
            entries.len()
        } else {
            parts.len()
        },
        |i: int| (entries[i].0, parts[i]),
    )
}

/// A table with the keys of `object` and the values `parts`, as far as both go.
fn key_parts(object: &Object, parts: &Vec<RtValue>) -> (r: Table<RtValue>)
    ensures
        entry_views(r@) == keyed(object@, views(parts@)),
{
    let n = object.len();
    let mut table: Table<RtValue> = Table::new();
    let mut i: usize = 0;
    let ghost whole = keyed(object@, views(parts@));
    proof {
        assert(entry_views(table@) =~= whole.take(0));
    }
    while i < n && i < parts.len()
        invariant
            n == object@.len(),
            distinct(object@),
            distinct(table@),
            i <= n,
            i <= parts@.len(),
            whole == keyed(object@, views(parts@)),
            entry_views(table@) == whole.take(i as int),
        decreases n - i,
    {
        let key = object.key_at(i).clone();
        let value = parts[i].clone();
        proof {
            lemma_put_views(table@, (*key)@, value);
            crate::table::lemma_put_distinct(table@, (*key)@, value);
            let held = entry_views(table@);
            if has_key(held, (*key)@) {
                let j = crate::table::at(held, (*key)@);
                assert(held[j].0 == object@[j].0);
                assert(object@[j].0 == object@[i as int].0);
            }
        }
        table.insert(key, value);
        i = i + 1;
        proof {
            assert(entry_views(table@) =~= whole.take(i as int));
        }
    }
    proof {
        assert(whole.take(i as int) =~= whole);
    }
    table
}

/// A step of the walk: copy a value, or put a collection together from its parts.
enum Visit<'a> {
    Enter(&'a Value),
    Finish(&'a Value),
}

ghost enum Step {
    Enter(ValueView),
    Finish(ValueView),
}

spec fn step_of(visit: Visit) -> Step {
    match visit {
        Visit::Enter(value) => Step::Enter(value@),
        Visit::Finish(value) => Step::Finish(value@),
    }
}

spec fn steps(work: Seq<Visit>) -> Seq<Step> {
    Seq::new(work.len(), |i: int| step_of(work[i]))
}

broadcast proof fn lemma_steps_push(work: Seq<Visit>, visit: Visit)
    ensures
        #[trigger] steps(work.push(visit)) == steps(work).push(step_of(visit)),
{
    assert(steps(work.push(visit)) =~= steps(work).push(step_of(visit)));
}

/// How many parts a collection has.
spec fn width(value: ValueView) -> int {
    match value {
        ValueView::Array(items) => items.len() as int,
        ValueView::Object(entries) => entries.len() as int,
        _ => 0,
    }
}

spec fn part(value: ValueView, k: int) -> ValueView {
    match value {
        ValueView::Array(items) => items[k],
        ValueView::Object(entries) => entries[k].1,
        _ => ValueView::Null,
    }
}

/// The collection put together from the last values of `out`.
spec fn finished(heap: HeapView, out: Seq<RtView>, value: ValueView) -> (HeapView, Seq<RtView>) {
    let at = if out.len() >= width(value) {
        out.len() - width(value)
    } else {
        0
    };
    let parts = out.subrange(at, out.len() as int);
    let below = out.subrange(0, at);
    match value {
        ValueView::Array(items) => (
            heap.allocated(SlotView::Array { items: parts, version: 0 }),
            below.push(RtView::Array(heap.next())),
        ),
        ValueView::Object(entries) => (
            heap.allocated(SlotView::Object { entries: keyed(entries, parts), version: 0 }),
            below.push(RtView::Object(heap.next())),
        ),
        _ => (heap, out),
    }
}

/// What the steps of `work` make of `heap` and `out`, the last step first.
spec fn performed(heap: HeapView, out: Seq<RtView>, work: Seq<Step>) -> (HeapView, Seq<RtView>)
    decreases work.len(),
{
    if work.len() == 0 {
        (heap, out)
    } else {
        match work.last() {
            Step::Enter(value) => {
                let (after, one) = attach_value(heap, value);
                performed(after, out.push(one), work.drop_last())
            },
            Step::Finish(value) => {
                let (after, rest) = finished(heap, out, value);
                performed(after, rest, work.drop_last())
            },
        }
    }
}

/// The steps that copy the parts of `value` from `k` on, the first on top.
spec fn enters(value: ValueView, k: int) -> Seq<Step> {
    Seq::new((width(value) - k) as nat, |i: int| Step::Enter(part(value, width(value) - 1 - i)))
}

spec fn attach_parts(heap: HeapView, value: ValueView, k: int) -> (HeapView, Seq<RtView>) {
    match value {
        ValueView::Array(items) => attach_items(heap, items, k),
        ValueView::Object(entries) => attach_entries(heap, entries, k),
        _ => (heap, Seq::empty()),
    }
}

proof fn lemma_parts_len(heap: HeapView, value: ValueView, k: int)
    requires
        0 <= k <= width(value),
    ensures
        attach_parts(heap, value, k).1.len() == width(value) - k,
    decreases width(value) - k,
{
    if k < width(value) {
        lemma_parts_len(attach_value(heap, part(value, k)).0, value, k + 1);
    }
}

/// Performing the steps for the parts from `k` on puts them, in order, behind `out`.
proof fn lemma_enters(heap: HeapView, out: Seq<RtView>, base: Seq<Step>, value: ValueView, k: int)
    requires
        0 <= k <= width(value),
    ensures
        performed(heap, out, base + enters(value, k)) == performed(
            attach_parts(heap, value, k).0,
            out + attach_parts(heap, value, k).1,
            base,
        ),
    decreases width(value) - k,
{
    let work = base + enters(value, k);
    if k == width(value) {
        assert(work =~= base);
        assert(out + attach_parts(heap, value, k).1 =~= out);
    } else {
        assert(work.last() == Step::Enter(part(value, k)));
        assert(work.drop_last() =~= base + enters(value, k + 1));
        let (one, first) = attach_value(heap, part(value, k));
        lemma_enters(one, out.push(first), base, value, k + 1);
        let rest = attach_parts(one, value, k + 1).1;
        assert(out.push(first) + rest =~= out + (seq![first] + rest));
    }
}

/// Entering a collection is entering its parts and then putting it together.
proof fn lemma_open(heap: HeapView, out: Seq<RtView>, base: Seq<Step>, value: ValueView)
    requires
        value is Array || value is Object,
    ensures
        performed(heap, out, base.push(Step::Enter(value))) == performed(
            heap,
            out,
            base.push(Step::Finish(value)) + enters(value, 0),
        ),
{
    lemma_enters(heap, out, base.push(Step::Finish(value)), value, 0);
    lemma_parts_len(heap, value, 0);
    let (after, parts) = attach_parts(heap, value, 0);
    let all = out + parts;
    let work = base.push(Step::Finish(value));
    assert(work.drop_last() =~= base);
    assert(all.subrange(all.len() - width(value), all.len() as int) =~= parts);
    assert(all.subrange(0, all.len() - width(value)) =~= out);
    assert(base.push(Step::Enter(value)).drop_last() =~= base);
    let (done, one) = attach_value(heap, value);
    assert(finished(after, all, value) == (done, out.push(one)));
}

/// How many nodes a value has.
pub open spec fn nodes(value: ValueView) -> nat
    decreases value, 0int,
{
    match value {
        ValueView::Array(items) => 1 + item_nodes(items, items.len() as int),
        ValueView::Object(entries) => 1 + entry_nodes(entries, entries.len() as int),
        _ => 1,
    }
}

pub open spec fn item_nodes(items: Seq<ValueView>, n: int) -> nat
    decreases items, n,
{
    if n <= 0 || n > items.len() {
        0
    } else {
        item_nodes(items, n - 1) + nodes(items[n - 1])
    }
}

pub open spec fn entry_nodes(entries: Seq<(Seq<char>, ValueView)>, n: int) -> nat
    decreases entries, n,
{
    if n <= 0 || n > entries.len() {
        0
    } else {
        entry_nodes(entries, n - 1) + nodes(entries[n - 1].1)
    }
}

spec fn part_nodes(value: ValueView, n: int) -> nat {
    match value {
        ValueView::Array(items) => item_nodes(items, n),
        ValueView::Object(entries) => entry_nodes(entries, n),
        _ => 0,
    }
}

spec fn effort(step: Step) -> nat {
    match step {
        Step::Enter(value) => 2 * nodes(value),
        Step::Finish(_) => 1,
    }
}

/// What is left to do.
spec fn remaining(work: Seq<Step>) -> nat
    decreases work.len(),
{
    if work.len() == 0 {
        0
    } else {
        remaining(work.drop_last()) + effort(work.last())
    }
}

proof fn lemma_remaining(base: Seq<Step>, value: ValueView, k: int)
    requires
        0 <= k <= width(value),
    ensures
        remaining(base + enters(value, k)) + 2 * part_nodes(value, k) == remaining(base) + 2 * part_nodes(
            value,
            width(value),
        ),
    decreases width(value) - k,
{
    let work = base + enters(value, k);
    if k == width(value) {
        assert(work =~= base);
    } else {
        assert(work.last() == Step::Enter(part(value, k)));
        assert(work.drop_last() =~= base + enters(value, k + 1));
        lemma_remaining(base, value, k + 1);
    }
}

proof fn lemma_push_remaining(base: Seq<Step>, step: Step)
    ensures
        remaining(base.push(step)) == remaining(base) + effort(step),
{
    assert(base.push(step).drop_last() =~= base);
}

impl Heap {
    /// Copy `value` into the heap. Structure that the value shares comes apart into separate
    /// collections.
    pub fn attach(&mut self, value: &Value) -> (r: RtValue)
        requires
            old(self).wf(),
        ensures
            final(self).wf(),
            final(self).outside() == old(self).outside(),
            (final(self)@, r@) == attach_value(old(self)@, value@),
    {
        broadcast use crate::interpreter::heap::group_views, lemma_steps_push;

        let ghost before = self@;
        let mut work: Vec<Visit> = Vec::new();
        work.push(Visit::Enter(value));
        let mut out: Vec<RtValue> = Vec::new();
        let ghost target = attach_value(before, value@);
        proof {
            let base = Seq::<Step>::empty();
            assert(steps(work@) =~= base.push(Step::Enter(value@)));
            assert(base.push(Step::Enter(value@)).drop_last() =~= base);
            assert(views(out@) =~= Seq::empty());
            reveal_with_fuel(performed, 2);
        }
        while work.len() > 0
            invariant
                self.wf(),
                self.outside() == old(self).outside(),
                target == attach_value(old(self)@, value@),
                performed(self@, views(out@), steps(work@)) == (target.0, Seq::<RtView>::empty().push(target.1)),
            decreases remaining(steps(work@)),
        {
            let ghost all = steps(work@);
            let ghost had = views(out@);
            let ghost heap = self@;
            let visit = work.pop().unwrap();
            let ghost base = steps(work@);
            proof {
                assert(all.drop_last() =~= base);
                assert(all =~= base.push(step_of(visit)));
                lemma_push_remaining(base, step_of(visit));
            }
            match visit {
                Visit::Enter(value) => {
                    match value {
                        Value::Null => {
                            out.push(RtValue::Null);
                            proof {
                                assert(views(out@) =~= had.push(RtView::Null));
                            }
                        },
                        Value::Bool(b) => {
                            out.push(RtValue::Bool(*b));
                            proof {
                                assert(views(out@) =~= had.push(RtView::Bool(*b)));
                            }
                        },
                        Value::Number(n) => {
                            out.push(RtValue::Number(*n));
                            proof {
                                assert(views(out@) =~= had.push(RtView::Number(n.bits())));
                            }
                        },
                        Value::String(s) => {
                            let made = self.make_text(s.clone());
                            out.push(made);
                            proof {
                                assert(views(out@) =~= had.push(made@));
                            }
                        },
                        Value::Array(array) => {
                            proof {
                                lemma_open(self@, views(out@), base, value@);
                                lemma_remaining(base.push(Step::Finish(value@)), value@, 0);
                                lemma_push_remaining(base, Step::Finish(value@));
                            }
                            work.push(Visit::Finish(value));
                            let mut k: usize = array.len();
                            proof {
                                assert(steps(work@) =~= base.push(Step::Finish(value@)) + enters(value@, k as int));
                            }
                            while k > 0
                                invariant
                                    value@ == ValueView::Array(array@),
                                    k <= array@.len(),
                                    steps(work@) == base.push(Step::Finish(value@)) + enters(value@, k as int),
                                decreases k,
                            {
                                k = k - 1;
                                let ghost prior = steps(work@);
                                work.push(Visit::Enter(array.get(k).unwrap()));
                                proof {
                                    let one = Step::Enter(part(value@, k as int));
                                    assert(steps(work@) =~= prior.push(one));
                                    assert(enters(value@, k as int) =~= enters(value@, k + 1).push(one));
                                    assert(steps(work@) =~= base.push(Step::Finish(value@)) + enters(
                                        value@,
                                        k as int,
                                    ));
                                }
                            }
                        },
                        Value::Object(object) => {
                            proof {
                                lemma_open(self@, views(out@), base, value@);
                                lemma_remaining(base.push(Step::Finish(value@)), value@, 0);
                                lemma_push_remaining(base, Step::Finish(value@));
                            }
                            work.push(Visit::Finish(value));
                            let mut k: usize = object.len();
                            proof {
                                assert(steps(work@) =~= base.push(Step::Finish(value@)) + enters(value@, k as int));
                            }
                            while k > 0
                                invariant
                                    value@ == ValueView::Object(object@),
                                    k <= object@.len(),
                                    steps(work@) == base.push(Step::Finish(value@)) + enters(value@, k as int),
                                decreases k,
                            {
                                k = k - 1;
                                let ghost prior = steps(work@);
                                work.push(Visit::Enter(object.value_at(k)));
                                proof {
                                    let one = Step::Enter(part(value@, k as int));
                                    assert(steps(work@) =~= prior.push(one));
                                    assert(enters(value@, k as int) =~= enters(value@, k + 1).push(one));
                                    assert(steps(work@) =~= base.push(Step::Finish(value@)) + enters(
                                        value@,
                                        k as int,
                                    ));
                                }
                            }
                        },
                    }
                },
                Visit::Finish(value) => {
                    match value {
                        Value::Array(array) => {
                            let n = array.len();
                            let at: usize = if out.len() >= n { out.len() - n } else { 0 };
                            let parts = out.split_off(at);
                            let ghost kept = out@;
                            proof {
                                assert(views(parts@) =~= had.subrange(at as int, had.len() as int));
                                assert(views(kept) =~= had.subrange(0, at as int));
                            }
                            let one = self.new_array(parts);
                            out.push(one);
                            proof {
                                assert(views(out@) =~= views(kept).push(one@));
                                assert((self@, views(out@)) == finished(heap, had, value@));
                            }
                        },
                        Value::Object(object) => {
                            let n = object.len();
                            let at: usize = if out.len() >= n { out.len() - n } else { 0 };
                            let parts = out.split_off(at);
                            let ghost kept = out@;
                            proof {
                                assert(views(parts@) =~= had.subrange(at as int, had.len() as int));
                                assert(views(kept) =~= had.subrange(0, at as int));
                            }
                            let table = key_parts(object, &parts);
                            let one = self.new_object(table);
                            out.push(one);
                            proof {
                                assert(views(out@) =~= views(kept).push(one@));
                                assert((self@, views(out@)) == finished(heap, had, value@));
                            }
                        },
                        _ => {},
                    }
                },
            }
        }
        proof {
            assert(steps(work@) =~= Seq::<Step>::empty());
            assert(views(out@) == Seq::<RtView>::empty().push(target.1));
            assert(views(out@)[0] == target.1);
            assert(out@.len() == views(out@).len());
            assert(out@[0]@ == target.1);
        }
        out.pop().unwrap()
    }
}

} // verus!

//! Lexical scopes as slots of the heap, linked by parent handle.
//!
//! A block's scope is given back when its block ends, unless a function value was created in it or
//! in a block inside it: creating one marks the defining scope and every scope around it captured,
//! and a captured scope lives until the execution ends.

use vstd::prelude::*;
use crate::interpreter::heap::Heap;
use crate::interpreter::heap::HeapView;
use crate::interpreter::heap::RtValue;
use crate::interpreter::heap::RtView;
use crate::interpreter::heap::ScopeRecord;
use crate::interpreter::heap::Slot;
use crate::interpreter::heap::SlotId;
use crate::interpreter::heap::SlotView;
use crate::interpreter::heap::entry_views;
use crate::interpreter::heap::lemma_entry_views;
use crate::table::Table;
use crate::table::has_key;
use crate::table::put;
use crate::table::value_of;
use crate::text::ascending;
use crate::text::holds;
use crate::text::insert_ascending;

verus! {

impl HeapView {
    /// The bindings of a scope; none, of anything else.
    pub open spec fn bindings(self, id: SlotId) -> Seq<(Seq<char>, RtView)> {
        match self.slot(id) {
            SlotView::Scope { bindings, .. } => bindings,
            _ => Seq::empty(),
        }
    }

    /// Whether a function captured the scope at `id`.
    pub open spec fn captured(self, id: SlotId) -> bool {
        self.slot(id) matches SlotView::Scope { captured: true, .. }
    }

    /// A new empty scope inside `parent`.
    pub open spec fn scope_pushed(self, parent: Option<SlotId>) -> HeapView {
        self.allocated(SlotView::Scope { bindings: Seq::empty(), parent, captured: false })
    }

    /// The heap with `name` bound in `scope`.
    pub open spec fn declared(self, scope: SlotId, name: Seq<char>, value: RtView) -> HeapView {
        match self.slot(scope) {
            SlotView::Scope { bindings, parent, captured } => self.with(
                scope,
                SlotView::Scope { bindings: put(bindings, name, value), parent, captured },
            ),
            _ => self,
        }
    }

    /// The innermost scope, from `scope` outward over at most `fuel` scopes, that binds `name`.
    pub open spec fn resolve_within(self, scope: SlotId, name: Seq<char>, fuel: nat) -> Option<SlotId>
        decreases fuel,
    {
        if fuel == 0 {
            None
        } else {
            match self.slot(scope) {
                SlotView::Scope { bindings, parent, .. } => if has_key(bindings, name) {
                    Some(scope)
                } else {
                    match parent {
                        Some(outer) => self.resolve_within(outer, name, (fuel - 1) as nat),
                        None => None,
                    }
                },
                _ => None,
            }
        }
    }

    /// The innermost scope from `scope` outward that binds `name`. A chain of scopes has no more of
    /// them than the heap has slots.
    pub open spec fn resolve(self, scope: SlotId, name: Seq<char>) -> Option<SlotId> {
        self.resolve_within(scope, name, self.slots.len())
    }

    /// The innermost binding of `name`.
    pub open spec fn lookup(self, scope: SlotId, name: Seq<char>) -> Option<RtView> {
        match self.resolve(scope, name) {
            Some(owner) => value_of(self.bindings(owner), name),
            None => None,
        }
    }

    /// The heap with the innermost binding of `name` overwritten.
    pub open spec fn assigned(self, scope: SlotId, name: Seq<char>, value: RtView) -> Option<HeapView> {
        match self.resolve(scope, name) {
            Some(owner) => Some(self.declared(owner, name, value)),
            None => None,
        }
    }

    /// The heap with `scope` and the scopes around it marked captured, up to the first that already
    /// is, over at most `fuel` scopes.
    pub open spec fn mark_within(self, scope: SlotId, fuel: nat) -> HeapView
        decreases fuel,
    {
        if fuel == 0 {
            self
        } else {
            match self.slot(scope) {
                SlotView::Scope { bindings, parent, captured } => if captured {
                    self
                } else {
                    let marked = self.with(scope, SlotView::Scope { bindings, parent, captured: true });
                    match parent {
                        Some(outer) => marked.mark_within(outer, (fuel - 1) as nat),
                        None => marked,
                    }
                },
                _ => self,
            }
        }
    }

    /// The heap with `scope` and every scope around it marked captured.
    pub open spec fn marked(self, scope: SlotId) -> HeapView {
        self.mark_within(scope, self.slots.len())
    }

    /// The heap with a scope given back, unless a function captured it.
    pub open spec fn scope_released(self, id: SlotId) -> HeapView {
        if self.captured(id) {
            self
        } else {
            self.release(id)
        }
    }
}

impl Heap {
    /// A new empty scope inside `parent`, or a root scope.
    pub fn push_scope(&mut self, parent: Option<SlotId>) -> (r: SlotId)
        requires
            old(self).wf(),
        ensures
            final(self).wf(),
            final(self).outside() == old(self).outside(),
            r == old(self)@.next(),
            final(self)@ == old(self)@.scope_pushed(parent),
    {
        let bindings: Table<RtValue> = Table::new();
        proof {
            assert(entry_views(bindings@) =~= Seq::empty());
        }
        self.allocate(Slot::Scope(ScopeRecord { bindings, parent, captured: false }))
    }

    fn scope(&self, id: SlotId) -> (r: Option<&ScopeRecord>)
        ensures
            match r {
                Some(record) => self@.slot(id) == (SlotView::Scope {
                    bindings: entry_views(record.bindings@),
                    parent: record.parent,
                    captured: record.captured,
                }),
                None => !(self@.slot(id) is Scope),
            },
    {
        match self.slot(id) {
            Some(Slot::Scope(record)) => Some(record),
            _ => None,
        }
    }

    /// Mark `scope` and every scope around it captured, so that they outlive their blocks. Stops at
    /// the first that already is: marking always runs to the root.
    pub fn mark_captured(&mut self, scope: SlotId)
        requires
            old(self).wf(),
        ensures
            final(self).wf(),
            final(self).outside() == old(self).outside(),
            final(self)@ == old(self)@.marked(scope),
    {
        let mut at = scope;
        let mut fuel: usize = self.capacity();
        let ghost before = self@;
        while fuel > 0
            invariant
                self.wf(),
                self.outside() == old(self).outside(),
                before == old(self)@,
                before.marked(scope) == self@.mark_within(at, fuel as nat),
            decreases fuel,
        {
            match self.scope(at) {
                Some(record) => {
                    if record.captured {
                        return;
                    }
                    let parent = record.parent;
                    self.set_captured(at);
                    match parent {
                        Some(outer) => {
                            at = outer;
                        },
                        None => {
                            return;
                        },
                    }
                },
                None => {
                    return;
                },
            }
            fuel = fuel - 1;
        }
    }

    /// Give back the scope of a block that ended, unless a function captured it.
    pub fn release_scope(&mut self, id: SlotId)
        requires
            old(self).wf(),
        ensures
            final(self).wf(),
            final(self).outside() == old(self).outside(),
            final(self)@ == old(self)@.scope_released(id),
    {
        if let Some(record) = self.scope(id) {
            if record.captured {
                return;
            }
        }
        self.release(id);
    }

    /// The names that `scope` itself binds, ascending.
    pub fn names(&self, scope: SlotId) -> (r: Vec<String>)
        ensures
            ascending(r@),
            forall|name: Seq<char>| holds(r@, name) <==> has_key(self@.bindings(scope), name),
    {
        let mut out: Vec<String> = Vec::new();
        if let Some(record) = self.scope(scope) {
            let bindings = &record.bindings;
            let n = bindings.len();
            let mut i: usize = 0;
            while i < n
                invariant
                    i <= n == bindings@.len(),
                    crate::table::distinct(bindings@),
                    ascending(out@),
                    forall|name: Seq<char>| holds(out@, name) <==> has_key(bindings@.take(i as int), name),
                decreases n - i,
            {
                let name = (**bindings.key_at(i)).to_owned();
                proof {
                    let earlier = bindings@.take(i as int);
                    let later = bindings@.take(i + 1);
                    if has_key(earlier, name@) {
                        let k = crate::table::at(earlier, name@);
                        assert(bindings@[k].0 == bindings@[i as int].0);
                    }
                    assert forall|text: Seq<char>| has_key(later, text) <==> (has_key(earlier, text) || text
                        == name@) by {
                        if has_key(earlier, text) {
                            let k = crate::table::at(earlier, text);
                            assert(later[k].0 == text);
                        }
                        if text == name@ {
                            assert(later[i as int].0 == text);
                        }
                        if has_key(later, text) {
                            let k = crate::table::at(later, text);
                            if k < i {
                                assert(earlier[k].0 == text);
                            }
                        }
                    }
                }
                insert_ascending(&mut out, name);
                i = i + 1;
            }
            proof {
                assert(bindings@.take(n as int) =~= bindings@);
                assert forall|name: Seq<char>| holds(out@, name) <==> has_key(self@.bindings(scope), name) by {
                    lemma_entry_views(bindings@, name);
                }
            }
        }
        out
    }

    /// The innermost scope from `scope` outward that binds `name`.
    fn resolve(&self, scope: SlotId, name: &str) -> (r: Option<SlotId>)
        ensures
            r == self@.resolve(scope, name@),
    {
        let mut at = scope;
        let mut fuel: usize = self.capacity();
        while fuel > 0
            invariant
                self@.resolve(scope, name@) == self@.resolve_within(at, name@, fuel as nat),
            decreases fuel,
        {
            match self.scope(at) {
                Some(record) => {
                    let n = record.bindings.len();
                    proof {
                        lemma_entry_views(record.bindings@, name@);
                    }
                    if record.bindings.find(name).is_some() {
                        return Some(at);
                    }
                    match record.parent {
                        Some(outer) => {
                            at = outer;
                        },
                        None => {
                            return None;
                        },
                    }
                },
                None => {
                    return None;
                },
            }
            fuel = fuel - 1;
        }
        None
    }

    /// Read the innermost binding of `name`.
    pub fn lookup(&self, scope: SlotId, name: &str) -> (r: Option<RtValue>)
        ensures
            match (r, self@.lookup(scope, name@)) {
                (Some(a), Some(b)) => a@ == b,
                (None, None) => true,
                _ => false,
            },
    {
        match self.resolve(scope, name) {
            Some(owner) => match self.scope(owner) {
                Some(record) => {
                    let n = record.bindings.len();
                    proof {
                        lemma_entry_views(record.bindings@, name@);
                    }
                    match record.bindings.get(name) {
                        Some(value) => Some(value.clone()),
                        None => None,
                    }
                },
                None => None,
            },
            None => None,
        }
    }

    /// Overwrite the innermost binding of `name`. `false` when no scope declares it: nothing is
    /// created.
    pub fn assign(&mut self, scope: SlotId, name: &str, value: RtValue) -> (r: bool)
        requires
            old(self).wf(),
        ensures
            final(self).wf(),
            final(self).outside() == old(self).outside(),
            match old(self)@.assigned(scope, name@, value@) {
                Some(heap) => r && final(self)@ == heap,
                None => !r && final(self)@ == old(self)@,
            },
    {
        match self.resolve(scope, name) {
            Some(owner) => {
                self.declare(owner, name, value);
                true
            },
            None => false,
        }
    }
}

} // verus!

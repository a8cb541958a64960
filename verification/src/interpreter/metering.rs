//! What a meter promises: an execution stops at the first step that crosses a ceiling, so it goes past
//! one by no more than what that step adds.

use vstd::prelude::*;
use crate::ast::BlockId;
use crate::ast::ExprId;
use crate::ast::Program;
use crate::ast::StatementKind;
use crate::interpreter::heap::RtView;
use crate::interpreter::semantics::Chain;
use crate::interpreter::semantics::FnAt;
use crate::interpreter::semantics::Frame;
use crate::interpreter::semantics::LoopFrame;
use crate::interpreter::semantics::MachineView;
use crate::interpreter::semantics::StmtAt;
use crate::interpreter::semantics::StopView;
use crate::interpreter::semantics::Turn;
use crate::interpreter::semantics::added;

verus! {

/// Whether a machine has the same meter and as many allocations as another.
pub open spec fn counted_alike(a: MachineView, b: MachineView) -> bool {
    a.meter == b.meter && a.allocations == b.allocations
}

/// Whether a machine has another's meter, and at most one more allocation.
pub open spec fn counted_on(before: MachineView, after: MachineView) -> bool {
    after.meter == before.meter && (after.allocations == before.allocations || after.allocations == added(
        before.allocations,
        1,
    ))
}

proof fn lemma_hoisted(p: Program, m: MachineView, block: Option<BlockId>, k: int)
    ensures
        counted_alike(m, m.hoisted(p, block, k)),
    decreases p.statements_of(block).len() - k,
{
    if 0 <= k < p.statements_of(block).len() {
        match p.statements_of(block)[k].kind {
            StatementKind::Function { name, .. } => {
                let made = m.function_made(FnAt::Declared(StmtAt { block, index: k as usize }));
                lemma_hoisted(
                    p,
                    MachineView { heap: made.heap.declared(m.scope, name.name@, m.function_value()), ..made },
                    block,
                    k + 1,
                );
            },
            _ => lemma_hoisted(p, m, block, k + 1),
        }
    }
}

proof fn lemma_unwound(m: MachineView, consume: bool)
    ensures
        counted_alike(m, m.unwound(consume)),
    decreases m.frames.len(),
{
    if m.frames.len() > 0 {
        let rest = MachineView { frames: m.frames.drop_last(), ..m };
        match m.frames.last() {
            Frame::ExitScope(outer) => lemma_unwound(rest.exited(outer), consume),
            Frame::Loop(_) => {},
            Frame::CallEnd { .. } => {},
            _ => lemma_unwound(rest, consume),
        }
    }
}

proof fn lemma_returned(m: MachineView, value: RtView)
    ensures
        counted_alike(m, m.returned(value)),
    decreases m.frames.len(),
{
    if m.frames.len() > 0 {
        let rest = MachineView { frames: m.frames.drop_last(), ..m };
        match m.frames.last() {
            Frame::ExitScope(outer) => lemma_returned(rest.exited(outer), value),
            Frame::CallEnd { .. } => {},
            _ => lemma_returned(rest, value),
        }
    }
}

broadcast proof fn lemma_opened(p: Program, m: MachineView, block: Option<BlockId>)
    ensures
        counted_alike(m, #[trigger] m.opened(p, block)),
{
    lemma_hoisted(p, m, block, 0);
}

/// Whether a turn leads to a machine with the same meter and at most one more allocation.
pub open spec fn counted_turn(m: MachineView, turn: Turn) -> bool {
    match turn {
        Turn::Go(after) => counted_on(m, after),
        Turn::Halt(after, _) => counted_on(m, after),
        Turn::Fail(_) => true,
    }
}

#[verifier::spinoff_prover]
proof fn lemma_statement(p: Program, m: MachineView, at: StmtAt)
    ensures
        counted_turn(m, m.statement(p, at)),
{
    broadcast use lemma_opened;

    lemma_unwound(m, true);
    lemma_unwound(m, false);
    lemma_returned(m, RtView::Null);
}

#[verifier::spinoff_prover]
proof fn lemma_expression(p: Program, m: MachineView, id: ExprId)
    ensures
        counted_turn(m, m.expression(p, id)),
{
}

#[verifier::spinoff_prover]
proof fn lemma_member(p: Program, m: MachineView, target: ExprId)
    ensures
        counted_turn(m, m.member_assigned(p, target)),
{
}

#[verifier::spinoff_prover]
proof fn lemma_advanced(p: Program, m: MachineView, state: LoopFrame)
    ensures
        counted_turn(m, m.advanced(p, state)),
{
    broadcast use lemma_opened;

}

#[verifier::spinoff_prover]
proof fn lemma_invoked(p: Program, m: MachineView, chain: Chain, index: usize, in_target: bool, arguments: usize)
    ensures
        counted_turn(m, m.invoked(p, chain, index, in_target, arguments)),
{
    broadcast use lemma_opened;

}

/// The frames that look at one value and run a block.
#[verifier::spinoff_prover]
proof fn lemma_tested(p: Program, m: MachineView, frame: Frame)
    requires
        frame is Branch || frame is LoopTest || frame is ForStart,
    ensures
        counted_turn(m, m.step(p, frame)),
{
    broadcast use lemma_opened;

}

/// The frames that apply an operator or follow a chain.
#[verifier::spinoff_prover]
proof fn lemma_applied(p: Program, m: MachineView, frame: Frame)
    requires
        frame is Unary || frame is BinaryRight || frame is Binary || frame is Link || frame is IndexRead
            || frame is HostCall,
    ensures
        counted_turn(m, m.step(p, frame)),
{
}

/// The other frames.
#[verifier::spinoff_prover]
proof fn lemma_others(p: Program, m: MachineView, frame: Frame)
    requires
        frame is ExitScope || frame is Discard || frame is Declare || frame is Return || frame is BuildArray
            || frame is BuildObject || frame is AssignName || frame is CallEnd,
    ensures
        counted_turn(m, m.step(p, frame)),
{
    lemma_returned(m.pop(), m.top());
}

/// A step leaves the meter as it is and makes at most one allocation.
pub proof fn law_step_makes_one_allocation(p: Program, m: MachineView, frame: Frame)
    ensures
        counted_turn(m, m.step(p, frame)),
{
    match frame {
        Frame::Statement(at) => lemma_statement(p, m, at),
        Frame::Eval(id) => lemma_expression(p, m, id),
        Frame::AssignMember(target) => lemma_member(p, m, target),
        Frame::Loop(state) => lemma_advanced(p, m, state),
        Frame::Invoke { chain, index, in_target, arguments } => lemma_invoked(p, m, chain, index, in_target, arguments),
        _ => {
            if frame is Branch || frame is LoopTest || frame is ForStart {
                lemma_tested(p, m, frame);
            } else if frame is Unary || frame is BinaryRight || frame is Binary || frame is Link || frame is IndexRead
                || frame is HostCall {
                lemma_applied(p, m, frame);
            } else {
                lemma_others(p, m, frame);
            }
        },
    }
}

/// Whether one step leads from a machine within its ceilings to `after`.
pub open spec fn one_step(p: Program, last: MachineView, after: MachineView) -> bool {
    &&& last.frames.len() > 0
    &&& !last.over_ceiling()
    &&& !last.over_allocated()
    &&& counted_on(last, after)
    &&& match last.taken().step(p, last.frames.last()) {
        Turn::Go(next) => next == after,
        Turn::Halt(next, _) => next == after,
        Turn::Fail(_) => false,
    }
}

/// An execution within its ceilings that stops at one stops at the first step past it: the machine
/// that it stops with is one step behind a machine within the ceilings. So its values exceed the
/// memory ceiling by no more than what that one step added.
pub proof fn law_ceilings_are_overshot_by_one_step(p: Program, m: MachineView, fuel: nat)
    requires
        !m.over_ceiling(),
        !m.over_allocated(),
    ensures
        match m.run(p, fuel) {
            Turn::Halt(after, StopView::OutOfMemory(_)) => after.meter == m.meter && exists|last: MachineView| #[trigger]
                one_step(p, last, after) && (m.meter.memory_ceiling matches Some(ceiling) ==> after.used() - ceiling
                    <= after.used() - last.used()),
            Turn::Halt(after, StopView::AllocationsExceeded(_)) => after.meter == m.meter && (m.meter.allocation_ceiling
                matches Some(ceiling) && after.allocations == ceiling + 1) && exists|last: MachineView| #[trigger]
                one_step(p, last, after),
            _ => true,
        },
    decreases fuel,
{
    if m.frames.len() > 0 && fuel > 0 {
        let taken = m.taken();
        law_step_makes_one_allocation(p, taken, m.frames.last());
        lemma_no_own_stop(p, taken, m.frames.last());
        match taken.step(p, m.frames.last()) {
            Turn::Go(after) => {
                if after.over_ceiling() || after.over_allocated() {
                    assert(one_step(p, m, after));
                } else {
                    let worked = MachineView { work: added(after.work, 1), ..after };
                    law_ceilings_are_overshot_by_one_step(p, worked, (fuel - 1) as nat);
                }
            },
            Turn::Halt(after, stop) => {
                assert(one_step(p, m, after));
            },
            Turn::Fail(_) => {},
        }
    }
}

/// No step stops for its allocations by itself.
proof fn lemma_no_own_stop(p: Program, m: MachineView, frame: Frame)
    ensures
        !(m.step(p, frame) matches Turn::Halt(_, StopView::AllocationsExceeded(_))),
{
}

/// A string counts once however many values hold it: one more copy of a string that a value holds
/// changes nothing that counts.
pub proof fn law_copies_weigh_nothing(m: MachineView, text: Seq<char>, number: u64)
    requires
        m.texts().count((text, number)) > 0,
    ensures
        m.give(RtView::String(text, number)).used() == m.used(),
{
    broadcast use vstd::multiset::group_multiset_axioms;

    let after = m.give(RtView::String(text, number));
    crate::interpreter::texts::lemma_held_prefix(m.values, after.values, m.values.len() as int);
    assert(after.texts() =~= m.texts().insert((text, number)));
    assert(after.texts().dom() =~= m.texts().dom());
}

/// A string counts for as long as a value holds it, and gives its bytes back with the last.
pub proof fn law_strings_give_their_bytes_back(m: MachineView, text: Seq<char>, number: u64)
    requires
        m.texts().count((text, number)) == 0,
    ensures
        m.give(RtView::String(text, number)).heap.bytes() == m.heap.bytes(),
        crate::interpreter::texts::weight(m.give(RtView::String(text, number)).texts().dom())
            == crate::interpreter::texts::weight(m.texts().dom()) + crate::interpreter::texts::text_weight(text),
        m.give(RtView::String(text, number)).pop().used() == m.used(),
{
    broadcast use vstd::multiset::group_multiset_axioms;

    let after = m.give(RtView::String(text, number));
    crate::interpreter::texts::lemma_held_prefix(m.values, after.values, m.values.len() as int);
    assert(after.texts() =~= m.texts().insert((text, number)));
    assert(after.texts().dom() =~= m.texts().dom().insert((text, number)));
    crate::interpreter::texts::lemma_weight_insert(m.texts().dom(), (text, number));
    assert(after.pop().values =~= m.values);
}

} // verus!

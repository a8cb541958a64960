//! The Resource Budget of one execution, kept for its whole run across every host call.
//!
//! Each dimension is bounded on its own. Crossing a limit ends the execution with an error that names
//! the dimension. Time, calls, side effects and the result's size are charged here; memory and
//! allocations are counted by the interpreter, which stops at the limits that its meter carries.

use vstd::prelude::*;
use crate::budget::Dimension;
use crate::diagnostics::Category;
use crate::diagnostics::Code;
use crate::diagnostics::Diagnostic;
use crate::diagnostics::DiagnosticView;
use crate::diagnostics::Span;
use crate::diagnostics::error_of;
use crate::exec::executor::Limits;
use crate::interpreter::semantics::added;

verus! {

/// How many nanoseconds a millisecond has.
pub const NANOS_PER_MILLI: u64 = 1_000_000;

/// A dimension that was exceeded, and where.
#[derive(Debug, Clone, Copy, PartialEq, Eq, Structural)]
pub struct Exceeded {
    pub dimension: Dimension,
    pub span: Span,
}

/// The code of an exceeded dimension.
pub open spec fn exceeded_code(dimension: Dimension) -> &'static str {
    match dimension {
        Dimension::CpuTime => Code::CPU_TIME_EXCEEDED,
        Dimension::Memory => Code::MEMORY_EXCEEDED,
        Dimension::Allocations => "budget.allocations_exceeded",
        Dimension::RpcCalls => "budget.rpc_calls_exceeded",
        Dimension::OutputSize => "budget.output_size_exceeded",
        Dimension::SideEffects => "budget.side_effects_exceeded",
    }
}

/// The error of an exceeded dimension.
pub open spec fn exceeded_error(exceeded: Exceeded) -> DiagnosticView {
    error_of(
        Category::Budget,
        exceeded_code(exceeded.dimension),
        "the execution exceeded its `"@ + exceeded.dimension.spelling() + "` budget"@,
        exceeded.span,
    )
}

impl Exceeded {
    /// The dimension, for the log.
    pub fn dimension(&self) -> (r: Dimension)
        ensures
            r == self.dimension,
    {
        self.dimension
    }

    /// The Script's error.
    pub fn into_diagnostic(self) -> (r: Diagnostic)
        ensures
            r@ == exceeded_error(self),
    {
        let code = match self.dimension {
            Dimension::CpuTime => Code::CPU_TIME_EXCEEDED,
            Dimension::Memory => Code::MEMORY_EXCEEDED,
            Dimension::Allocations => "budget.allocations_exceeded",
            Dimension::RpcCalls => "budget.rpc_calls_exceeded",
            Dimension::OutputSize => "budget.output_size_exceeded",
            Dimension::SideEffects => "budget.side_effects_exceeded",
        };
        let mut message = "the execution exceeded its `".to_owned();
        message.append(self.dimension.as_str());
        message.append("` budget");
        Diagnostic::error(Category::Budget, code, message, self.span)
    }
}

/// What a budget has been charged.
#[verifier::ext_equal]
pub ghost struct BudgetView {
    pub limits: Limits,
    /// Nanoseconds of work.
    pub spent: u64,
    pub rpc_calls: u64,
    pub side_effects: u64,
}

/// The CPU time that limits allow, in nanoseconds.
pub open spec fn cpu_nanos(limits: Limits) -> int {
    limits.cpu_time_ms * NANOS_PER_MILLI
}

impl BudgetView {
    /// The budget after some nanoseconds of work.
    pub open spec fn worked(self, nanos: u64) -> BudgetView {
        BudgetView { spent: added(self.spent, nanos as int), ..self }
    }

    /// Whether the work done takes the execution past its CPU time.
    pub open spec fn overworked(self) -> bool {
        self.spent > cpu_nanos(self.limits)
    }

    /// Which limit one more host call would cross, if it would cross one.
    pub open spec fn call_crosses(self) -> Option<Dimension> {
        if self.rpc_calls >= self.limits.rpc_calls {
            Some(Dimension::RpcCalls)
        } else if self.side_effects >= self.limits.side_effects {
            Some(Dimension::SideEffects)
        } else {
            None
        }
    }

    /// The budget after one more host call.
    pub open spec fn called(self) -> BudgetView {
        BudgetView {
            rpc_calls: (self.rpc_calls + 1) as u64,
            side_effects: (self.side_effects + 1) as u64,
            ..self
        }
    }

    /// Whether no more calls were let through than the limits allow.
    pub open spec fn within(self) -> bool {
        self.rpc_calls <= self.limits.rpc_calls && self.side_effects <= self.limits.side_effects
    }
}

/// The Resource Budget of one execution.
#[derive(Debug)]
pub struct Budget {
    limits: Limits,
    spent: u64,
    rpc_calls: u64,
    side_effects: u64,
}

impl View for Budget {
    type V = BudgetView;

    closed spec fn view(&self) -> BudgetView {
        BudgetView {
            limits: self.limits,
            spent: self.spent,
            rpc_calls: self.rpc_calls,
            side_effects: self.side_effects,
        }
    }
}

impl Budget {
    /// An unspent budget.
    pub fn with_limits(limits: Limits) -> (r: Self)
        ensures
            r@ == (BudgetView { limits, spent: 0, rpc_calls: 0, side_effects: 0 }),
            r@.within(),
    {
        Budget { limits, spent: 0, rpc_calls: 0, side_effects: 0 }
    }

    /// The limits.
    pub fn limits(&self) -> (r: Limits)
        ensures
            r == self@.limits,
    {
        self.limits
    }

    /// Charge some nanoseconds of work on what is at `span`.
    pub fn charge_cpu(&mut self, nanos: u64, span: Span) -> (r: Result<(), Exceeded>)
        ensures
            final(self)@ == old(self)@.worked(nanos),
            r == (if final(self)@.overworked() {
                Err::<(), Exceeded>(Exceeded { dimension: Dimension::CpuTime, span })
            } else {
                Ok(())
            }),
    {
        self.spent = self.spent.saturating_add(nanos);
        let limit: u128 = self.limits.cpu_time_ms as u128 * NANOS_PER_MILLI as u128;
        if self.spent as u128 > limit {
            Err(Exceeded { dimension: Dimension::CpuTime, span })
        } else {
            Ok(())
        }
    }

    /// Charge a host call as one RPC call and one side effect. A call that would cross either limit
    /// is refused, and nothing is counted.
    pub fn charge_rpc_call(&mut self, span: Span) -> (r: Result<(), Exceeded>)
        ensures
            match old(self)@.call_crosses() {
                Some(dimension) => r == Err::<(), Exceeded>(Exceeded { dimension, span }) && final(self)@ == old(self)@,
                None => r is Ok && final(self)@ == old(self)@.called(),
            },
            old(self)@.within() ==> final(self)@.within(),
    {
        if self.rpc_calls >= self.limits.rpc_calls {
            return Err(Exceeded { dimension: Dimension::RpcCalls, span });
        }
        if self.side_effects >= self.limits.side_effects {
            return Err(Exceeded { dimension: Dimension::SideEffects, span });
        }
        self.rpc_calls = self.rpc_calls + 1;
        self.side_effects = self.side_effects + 1;
        Ok(())
    }

    /// Charge a result of `size` bytes.
    pub fn charge_output(&self, size: usize, span: Span) -> (r: Result<(), Exceeded>)
        ensures
            r == (if size > self@.limits.output_size {
                Err::<(), Exceeded>(Exceeded { dimension: Dimension::OutputSize, span })
            } else {
                Ok(())
            }),
    {
        if size > self.limits.output_size {
            Err(Exceeded { dimension: Dimension::OutputSize, span })
        } else {
            Ok(())
        }
    }

    /// The execution's values came to hold more than its memory.
    pub fn memory_exceeded(&self, span: Span) -> (r: Exceeded)
        ensures
            r == (Exceeded { dimension: Dimension::Memory, span }),
    {
        Exceeded { dimension: Dimension::Memory, span }
    }

    /// The execution made more allocations than it may.
    pub fn allocations_exceeded(&self, span: Span) -> (r: Exceeded)
        ensures
            r == (Exceeded { dimension: Dimension::Allocations, span }),
    {
        Exceeded { dimension: Dimension::Allocations, span }
    }
}

/// The dimensions are bounded each on its own: what is charged to one changes no other.
pub proof fn law_dimensions_are_separate(budget: BudgetView, nanos: u64)
    ensures
        budget.worked(nanos).call_crosses() == budget.call_crosses(),
        budget.call_crosses() is None ==> budget.called().spent == budget.spent && budget.called().overworked()
            == budget.overworked(),
{
}

/// Work adds up: two charges are one of both together.
pub proof fn law_work_adds_up(budget: BudgetView, a: u64, b: u64)
    requires
        a + b <= u64::MAX,
    ensures
        budget.worked(a).worked(b) == budget.worked((a + b) as u64),
        budget.worked(a).overworked() ==> budget.worked(a).worked(b).overworked(),
{
}

} // verus!

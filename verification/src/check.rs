//! The static check: what can be decided of a Script from its tree alone. It never runs a Script.
//!
//! A finding is about code that fails when it is reached: literal operands that an operator does not
//! take, a name that is not bound where it is read or assigned, a call with the wrong number of
//! arguments. The body of a function is checked at the end of the block that defines it, and nothing is
//! said of a name in it that a block further out declares further on. Silence only means that nothing
//! decidable was wrong.

use vstd::prelude::*;
use crate::ast::Program;
use crate::check::pass::diagnostic_views;
use crate::check::walk::found;
use crate::check::walk::in_source_order;
use crate::check::walk::sorted;
use crate::check::walk::walk_findings;
use crate::diagnostics::Diagnostic;
use crate::diagnostics::DiagnosticView;
use crate::diagnostics::Severity;

pub mod arities;
pub mod calling;
pub mod entering;
pub mod failing;
pub mod invoking;
pub mod looping;
pub mod noticing;
pub mod operands;
pub mod pass;
pub mod reaching;
pub mod reported;
pub mod running;
pub mod seeing;
pub mod sight;
pub mod stacking;
pub mod stepping;
pub mod telling;
pub mod touring;
pub mod visits;
pub mod walk;
pub mod weighing;

verus! {

/// The constructs that a Backend may switch off, each on its own.
#[derive(Debug, Clone, Copy, PartialEq, Eq, Hash, Structural)]
pub struct Policy {
    /// `while` and `for … in`.
    pub loops: bool,
    /// `if`, `else if` and `else`.
    pub conditionals: bool,
    /// Defining a function, named or anonymous.
    pub callbacks: bool,
    /// Object literals.
    pub object_literals: bool,
    /// Array literals.
    pub array_literals: bool,
    /// Calling a Registered Function.
    pub rpc_calls: bool,
}

impl Policy {
    /// Whether every construct is on.
    pub open spec fn all_on(self) -> bool {
        self.loops && self.conditionals && self.callbacks && self.object_literals && self.array_literals
            && self.rpc_calls
    }

    /// Every construct on.
    pub fn new() -> (r: Self)
        ensures
            r.all_on(),
    {
        Policy {
            loops: true,
            conditionals: true,
            callbacks: true,
            object_literals: true,
            array_literals: true,
            rpc_calls: true,
        }
    }
}

impl Default for Policy {
    fn default() -> (r: Self)
        ensures
            r.all_on(),
    {
        Policy::new()
    }
}

/// What surrounds a Script: the names bound before it runs and, optionally, the names that it may
/// call.
///
/// A missing list of callable names suppresses the finding on unknown functions altogether. An empty
/// list does not: it says that nothing but the Script's own functions is callable.
#[derive(Debug, Clone)]
pub struct Environment {
    variables: Vec<String>,
    callables: Option<Vec<String>>,
}

impl Default for Environment {
    fn default() -> (r: Self)
        ensures
            r.bound() == Seq::<String>::empty(),
            r.callable() is None,
    {
        Environment { variables: Vec::new(), callables: None }
    }
}

impl Environment {
    /// The names bound before the Script runs.
    pub closed spec fn bound(self) -> Seq<String> {
        self.variables@
    }

    /// The names that the Script may call, if the list was given.
    pub closed spec fn callable(self) -> Option<Seq<String>> {
        match self.callables {
            Some(list) => Some(list@),
            None => None,
        }
    }

    /// Nothing bound, and nothing said of what is callable.
    pub fn new() -> (r: Self)
        ensures
            r.bound() == Seq::<String>::empty(),
            r.callable() is None,
    {
        Environment { variables: Vec::new(), callables: None }
    }

    /// With these starting variables in place of any given before.
    pub fn with_variables(self, names: Vec<String>) -> (r: Self)
        ensures
            r.bound() == names@,
            r.callable() == self.callable(),
    {
        Environment { variables: names, callables: self.callables }
    }

    /// With this list of callable names in place of any given before.
    pub fn with_callables(self, names: Vec<String>) -> (r: Self)
        ensures
            r.bound() == self.bound(),
            r.callable() == Some(names@),
    {
        Environment { variables: self.variables, callables: Some(names) }
    }

    /// The names of the starting variables, in the order given.
    pub fn variables(&self) -> (r: &Vec<String>)
        ensures
            r@ == self.bound(),
    {
        &self.variables
    }

    /// The callable names, or `None` when no list was given.
    pub fn callables(&self) -> (r: Option<&Vec<String>>)
        ensures
            pass::list_view(r) == self.callable(),
    {
        match &self.callables {
            Some(list) => Some(list),
            None => None,
        }
    }
}

/// What the findings add up to.
#[derive(Debug, Clone, Copy, PartialEq, Eq, Hash, Structural)]
pub enum Outcome {
    /// No findings.
    Clean,
    /// Findings, but no errors. A warning never rejects a Script.
    Warnings,
    /// At least one error.
    Errors,
}

/// What a check found, in source order.
#[derive(Debug, Clone)]
pub struct Findings {
    diagnostics: Vec<Diagnostic>,
}

impl View for Findings {
    type V = Seq<DiagnosticView>;

    closed spec fn view(&self) -> Seq<DiagnosticView> {
        diagnostic_views(self.diagnostics@)
    }
}

/// How many of the first `n` findings are errors.
pub open spec fn errors(findings: Seq<DiagnosticView>, n: int) -> nat
    decreases n,
{
    if n <= 0 {
        0
    } else {
        errors(findings, n - 1) + if findings[n - 1].severity == Severity::Error {
            1nat
        } else {
            0nat
        }
    }
}

impl Default for Findings {
    fn default() -> (r: Self)
        ensures
            r@ == Seq::<DiagnosticView>::empty(),
    {
        let r = Findings { diagnostics: Vec::new() };
        proof {
            assert(r@ =~= Seq::<DiagnosticView>::empty());
        }
        r
    }
}

impl Findings {
    /// Every finding, by where it starts in the source.
    pub fn diagnostics(&self) -> (r: &Vec<Diagnostic>)
        ensures
            diagnostic_views(r@) == self@,
    {
        &self.diagnostics
    }

    /// Whether any finding is an error.
    pub fn has_errors(&self) -> (r: bool)
        ensures
            r == exists|i: int| 0 <= i < self@.len() && (#[trigger] self@[i]).severity == Severity::Error,
    {
        let mut i: usize = 0;
        while i < self.diagnostics.len()
            invariant
                i <= self.diagnostics@.len(),
                forall|j: int| 0 <= j < i ==> (#[trigger] self@[j]).severity != Severity::Error,
            decreases self.diagnostics.len() - i,
        {
            if self.diagnostics[i].severity == Severity::Error {
                proof {
                    assert(self@[i as int].severity == Severity::Error);
                }
                return true;
            }
            i = i + 1;
        }
        false
    }

    /// Whether the Script is clean, carries warnings only, or must be rejected.
    pub fn outcome(&self) -> (r: Outcome)
        ensures
            r == Outcome::Clean <==> self@.len() == 0,
            r == Outcome::Errors <==> exists|i: int|
                0 <= i < self@.len() && (#[trigger] self@[i]).severity == Severity::Error,
    {
        if self.diagnostics.len() == 0 {
            Outcome::Clean
        } else if self.has_errors() {
            Outcome::Errors
        } else {
            Outcome::Warnings
        }
    }

    /// How many findings there are.
    pub fn len(&self) -> (r: usize)
        ensures
            r == self@.len(),
    {
        self.diagnostics.len()
    }

    /// Whether there are no findings.
    pub fn is_empty(&self) -> (r: bool)
        ensures
            r == (self@.len() == 0),
    {
        self.diagnostics.len() == 0
    }

    /// How many findings are errors.
    pub fn error_count(&self) -> (r: usize)
        ensures
            r == errors(self@, self@.len() as int),
    {
        let mut count: usize = 0;
        let mut i: usize = 0;
        while i < self.diagnostics.len()
            invariant
                count <= i <= self.diagnostics@.len(),
                count == errors(self@, i as int),
            decreases self.diagnostics.len() - i,
        {
            if self.diagnostics[i].severity == Severity::Error {
                count = count + 1;
            }
            i = i + 1;
        }
        count
    }
}

/// Check a Script against what its environment provides and the policy in force.
pub fn check(program: &Program, environment: &Environment, policy: &Policy) -> (r: Findings)
    requires
        program.wf(),
        program.acyclic(),
    ensures
        found(
            *program,
            environment.bound(),
            *policy,
            environment.callable(),
            walk_findings(*program, environment.bound(), *policy, environment.callable()),
        ),
        r@ == in_source_order(walk_findings(*program, environment.bound(), *policy, environment.callable())),
        sorted(r@),
{
    let diagnostics = pass::run(program, environment.variables(), environment.callables(), *policy);
    proof {
        walk::law_in_source_order(
            walk_findings(*program, environment.bound(), *policy, environment.callable()),
            0,
        );
    }
    Findings { diagnostics }
}

/// The number of errors is zero where no finding is one, and all of them where every one is; findings one behind the
/// other add theirs up.
pub proof fn law_errors_are_counted(findings: Seq<DiagnosticView>, n: int)
    requires
        0 <= n <= findings.len(),
    ensures
        errors(findings, n) == 0 <==> forall|i: int| 0 <= i < n ==> (#[trigger] findings[i]).severity != Severity::Error,
        errors(findings, n) == n <==> forall|i: int| 0 <= i < n ==> (#[trigger] findings[i]).severity == Severity::Error,
        errors(findings, n) <= n,
        n < findings.len() ==> errors(findings, n + 1) - errors(findings, n) == (if findings[n].severity == Severity::Error {
            1int
        } else {
            0int
        }),
    decreases n,
{
    if n > 0 {
        law_errors_are_counted(findings, n - 1);
        if forall|i: int| 0 <= i < n ==> (#[trigger] findings[i]).severity != Severity::Error {
            assert(findings[n - 1].severity != Severity::Error);
        }
        if forall|i: int| 0 <= i < n ==> (#[trigger] findings[i]).severity == Severity::Error {
            assert(findings[n - 1].severity == Severity::Error);
        }
    }
}

/// A Script is rejected exactly where an error was counted; warnings alone never reject it.
pub proof fn law_only_errors_reject(findings: Findings, outcome: Outcome, rejected: bool, count: usize)
    requires
        call_ensures(Findings::outcome, (&findings,), outcome),
        call_ensures(Findings::has_errors, (&findings,), rejected),
        call_ensures(Findings::error_count, (&findings,), count),
    ensures
        outcome == Outcome::Errors <==> count > 0,
        rejected <==> count > 0,
        outcome == Outcome::Warnings <==> count == 0 && findings@.len() > 0,
        outcome == Outcome::Clean <==> findings@.len() == 0,
        count <= findings@.len(),
{
    law_errors_are_counted(findings@, findings@.len() as int);
}

/// A policy that nobody changed leaves every construct on.
pub proof fn law_everything_is_on(policy: Policy)
    requires
        call_ensures(Policy::new, (), policy),
    ensures
        policy.loops,
        policy.conditionals,
        policy.callbacks,
        policy.object_literals,
        policy.array_literals,
        policy.rpc_calls,
{
}

/// Variables and callable names are given one beside the other: the later of two lists of one kind counts.
pub proof fn law_environment_is_what_was_given(
    before: Environment,
    names: Vec<String>,
    callables: Vec<String>,
    some: Environment,
    both: Environment,
)
    requires
        call_ensures(Environment::with_variables, (before, names), some),
        call_ensures(Environment::with_callables, (some, callables), both),
    ensures
        both.bound() == names@,
        both.callable() == Some(callables@),
        some.callable() == before.callable(),
{
}

} // verus!

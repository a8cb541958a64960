//! A resumable run of one Script.
//!
//! An [`Execution`] owns its Program and its heap. Running it consumes it: the Script finishes, fails,
//! or stops with the execution handed back inside what it stopped on.

use vstd::prelude::*;
use std::sync::Arc;
use crate::ast::Identifier;
use crate::ast::Program;
use crate::ast::StatementKind;
use crate::diagnostics::Category;
use crate::diagnostics::Code;
use crate::diagnostics::Diagnostic;
use crate::diagnostics::DiagnosticView;
use crate::diagnostics::Span;
use crate::diagnostics::error_of;
use crate::interpreter::machine::Argument;
use crate::interpreter::machine::Machine;
use crate::interpreter::machine::Stop;
use crate::interpreter::machine::argument_views;
use crate::interpreter::machine::resumed;
use crate::interpreter::machine::started;
use crate::interpreter::operators::Answer;
use crate::interpreter::operators::Question;
use crate::interpreter::semantics::ArgumentView;
use crate::interpreter::semantics::MachineView;
use crate::interpreter::semantics::Meter;
use crate::interpreter::semantics::QuestionView;
use crate::interpreter::semantics::StopView;
use crate::interpreter::semantics::Turn;
use crate::interpreter::value::Value;
use crate::interpreter::value::ValueView;
use crate::interpreter::value::pair_trees;
use crate::text::same;

verus! {

impl Meter {
    /// No slices and no ceiling.
    pub fn unmetered() -> (r: Self)
        ensures
            r == (Meter { slice: None, memory_ceiling: None, allocation_ceiling: None }),
    {
        Meter { slice: None, memory_ceiling: None, allocation_ceiling: None }
    }
}

impl Default for Meter {
    fn default() -> (r: Self)
        ensures
            r == (Meter { slice: None, memory_ceiling: None, allocation_ceiling: None }),
    {
        Meter { slice: None, memory_ceiling: None, allocation_ceiling: None }
    }
}

/// The name that a top-level statement declares.
pub open spec fn declared_name(kind: StatementKind) -> Option<Identifier> {
    match kind {
        StatementKind::Let { name, .. } => Some(name),
        StatementKind::Function { name, .. } => Some(name),
        _ => None,
    }
}

/// Whether a list of variables supplies `name`.
pub open spec fn supplies(variables: Seq<(Seq<char>, ValueView)>, name: Seq<char>) -> bool {
    exists|i: int| 0 <= i < variables.len() && (#[trigger] variables[i]).0 == name
}

/// Whether statement `k` of the top level declares a supplied name.
pub open spec fn collides(p: Program, variables: Seq<(Seq<char>, ValueView)>, k: int) -> bool {
    declared_name(p.statements@[k].kind) matches Some(name) && supplies(variables, name.name@)
}

/// The first top-level statement from `k` on that declares a supplied name.
pub open spec fn collision(p: Program, variables: Seq<(Seq<char>, ValueView)>, k: int) -> Option<DiagnosticView>
    decreases p.statements@.len() - k,
{
    if k < 0 || k >= p.statements@.len() {
        None
    } else if collides(p, variables, k) {
        let name = declared_name(p.statements@[k].kind)->0;
        Some(
            error_of(
                Category::Syntax,
                Code::DUPLICATE_DECLARATION,
                "`"@ + name.name@
                    + "` is already bound as a starting variable, and this declaration is in the same block; rename one of them"@,
                name.span,
            ),
        )
    } else {
        collision(p, variables, k + 1)
    }
}

fn is_supplied(variables: &Vec<(Arc<str>, Value)>, name: &str) -> (r: bool)
    ensures
        r == supplies(pair_trees(variables@), name@),
{
    let mut i: usize = 0;
    while i < variables.len()
        invariant
            i <= variables@.len(),
            forall|j: int| 0 <= j < i ==> (#[trigger] pair_trees(variables@)[j]).0 != name@,
        decreases variables.len() - i,
    {
        if same(&variables[i].0, name) {
            proof {
                assert(pair_trees(variables@)[i as int].0 == name@);
            }
            return true;
        }
        i = i + 1;
    }
    false
}

/// Reject a starting variable whose name the Script's own top level also declares.
pub fn check_starting_variables(program: &Program, variables: &Vec<(Arc<str>, Value)>) -> (r: Result<(), Diagnostic>)
    ensures
        match (r, collision(*program, pair_trees(variables@), 0)) {
            (Ok(_), None) => true,
            (Err(d), Some(failure)) => d@ == failure,
            _ => false,
        },
{
    let mut k: usize = 0;
    while k < program.statements.len()
        invariant
            k <= program.statements@.len(),
            collision(*program, pair_trees(variables@), 0) == collision(*program, pair_trees(variables@), k as int),
        decreases program.statements.len() - k,
    {
        let name = match &program.statements[k].kind {
            StatementKind::Let { name, .. } => Some(name),
            StatementKind::Function { name, .. } => Some(name),
            _ => None,
        };
        if let Some(name) = name {
            if is_supplied(variables, name.name.as_str()) {
                let mut message = "`".to_owned();
                message.append(name.name.as_str());
                message.append(
                    "` is already bound as a starting variable, and this declaration is in the same block; rename one of them",
                );
                return Err(Diagnostic::error(Category::Syntax, Code::DUPLICATE_DECLARATION, message, name.span));
            }
        }
        k = k + 1;
    }
    Ok(())
}

/// A resumable run of one Script.
pub struct Execution {
    machine: Machine,
}

impl View for Execution {
    type V = MachineView;

    closed spec fn view(&self) -> MachineView {
        self.machine@
    }
}

/// Where a run stopped.
pub enum Outcome {
    /// The Script ended with this result.
    Finished(Value),
    /// The Script called the host and waits for the value.
    HostCall(HostCall),
    /// The slice that the meter allows is done.
    Paused(Paused),
    /// Its values came to hold more than the memory ceiling; the execution is gone.
    OutOfMemory(OutOfMemory),
    /// It made more allocations than the ceiling allows; the execution is gone.
    AllocationsExceeded(AllocationsExceeded),
    /// An operator waits for arithmetic from outside.
    Asked(Asked),
}

/// An execution paused at the end of a slice.
pub struct Paused {
    span: Span,
    execution: Execution,
}

/// An execution that stopped at its memory ceiling.
#[derive(Debug, Clone, Copy, PartialEq, Eq, Structural)]
pub struct OutOfMemory {
    span: Span,
    used: u64,
}

/// An execution that stopped at its allocation ceiling.
#[derive(Debug, Clone, Copy, PartialEq, Eq, Structural)]
pub struct AllocationsExceeded {
    span: Span,
}

/// A host call that an execution is suspended on.
pub struct HostCall {
    name: String,
    arguments: Vec<Argument>,
    span: Span,
    execution: Execution,
}

/// A question that an execution waits on.
pub struct Asked {
    question: Question,
    execution: Execution,
}

/// Whether an outcome is what a stop of the state `m` says.
pub open spec fn stops(outcome: Outcome, p: Program, m: MachineView, stop: StopView) -> bool {
    match stop {
        StopView::Finished(value) => outcome matches Outcome::Finished(v) && v@ == value,
        StopView::HostCall { name, arguments, span } => outcome matches Outcome::HostCall(call) && call.called()
            == name && call.passed() == arguments && call.place() == span && call.state() == m && call.tree() == p,
        StopView::Paused(span) => outcome matches Outcome::Paused(paused) && paused.place() == span && paused.state()
            == m && paused.tree() == p,
        StopView::OutOfMemory(span) => outcome matches Outcome::OutOfMemory(out) && out.place() == span && out.held()
            == m.used(),
        StopView::AllocationsExceeded(span) => outcome matches Outcome::AllocationsExceeded(out) && out.place() == span,
        StopView::Ask(question) => outcome matches Outcome::Asked(asked) && asked.asked() == question && asked.state()
            == m && asked.tree() == p,
    }
}

impl Execution {
    #[verifier::type_invariant]
    spec fn inv(self) -> bool {
        self.machine.inv()
    }

    /// The Program that runs.
    pub closed spec fn program(self) -> Program {
        self.machine.program()
    }

    closed spec fn asks(self) -> bool {
        self.machine.asks()
    }

    /// An execution whose root scope binds `variables`. Nothing runs yet.
    pub fn with_variables(program: Arc<Program>, variables: Vec<(Arc<str>, Value)>) -> (r: Result<Self, Diagnostic>)
        requires
            program.wf(),
        ensures
            match (r, collision(*program, pair_trees(variables@), 0)) {
                (Ok(e), None) => e@ == started(*program, pair_trees(variables@)) && e.program() == *program,
                (Err(d), Some(failure)) => d@ == failure,
                _ => false,
            },
    {
        check_starting_variables(&program, &variables)?;
        Ok(Execution { machine: Machine::with_variables(program, &variables) })
    }

    /// The names that the root scope binds, ascending.
    pub fn root_names(&self) -> (r: Vec<String>)
        ensures
            crate::text::ascending(r@),
            forall|name: Seq<char>|
                crate::text::holds(r@, name) <==> crate::table::has_key(self@.heap.bindings(self@.root), name),
    {
        self.machine.root_names()
    }

    /// Meter the rest of this execution.
    pub fn metered(self, meter: Meter) -> (r: Self)
        ensures
            r@ == (MachineView { meter, ..self@ }),
            r.program() == self.program(),
    {
        proof {
            use_type_invariant(&self);
        }
        let mut machine = self.machine;
        machine.set_meter(meter);
        Execution { machine }
    }

    /// What this execution's values count towards its memory ceiling.
    pub fn memory_used(&self) -> (r: u64)
        ensures
            r == self@.used(),
    {
        proof {
            use_type_invariant(self);
        }
        self.machine.memory_used()
    }

    /// Run until the Script ends, calls the host, asks, or the meter stops it.
    pub fn run(self) -> (r: Result<Outcome, Diagnostic>)
        ensures
            match self@.execute(self.program()) {
                Turn::Go(_) => false,
                Turn::Halt(m, stop) => r matches Ok(outcome) && stops(outcome, self.program(), m, stop),
                Turn::Fail(failure) => r matches Err(d) && d@ == failure,
            },
    {
        proof {
            use_type_invariant(&self);
        }
        let mut machine = self.machine;
        match machine.execute()? {
            Stop::Finished(value) => Ok(Outcome::Finished(value)),
            Stop::HostCall(call) => Ok(
                Outcome::HostCall(
                    HostCall {
                        name: call.name,
                        arguments: call.arguments,
                        span: call.span,
                        execution: Execution { machine },
                    },
                ),
            ),
            Stop::Paused(span) => Ok(Outcome::Paused(Paused { span, execution: Execution { machine } })),
            Stop::OutOfMemory(span) => Ok(Outcome::OutOfMemory(OutOfMemory { span, used: machine.memory_used() })),
            Stop::AllocationsExceeded(span) => Ok(Outcome::AllocationsExceeded(AllocationsExceeded { span })),
            Stop::Ask(question) => Ok(Outcome::Asked(Asked { question, execution: Execution { machine } })),
        }
    }
}

impl Paused {
    pub closed spec fn place(self) -> Span {
        self.span
    }

    pub closed spec fn state(self) -> MachineView {
        self.execution@
    }

    pub closed spec fn tree(self) -> Program {
        self.execution.program()
    }

    /// What was running when the slice ended.
    pub fn span(&self) -> (r: Span)
        ensures
            r == self.place(),
    {
        self.span
    }

    /// The execution, ready to run on.
    pub fn resume(self) -> (r: Execution)
        ensures
            r@ == self.state(),
            r.program() == self.tree(),
    {
        self.execution
    }
}

impl OutOfMemory {
    pub closed spec fn place(self) -> Span {
        self.span
    }

    pub closed spec fn held(self) -> u64 {
        self.used
    }

    /// What crossed the ceiling.
    pub fn span(&self) -> (r: Span)
        ensures
            r == self.place(),
    {
        self.span
    }

    /// What the values counted when the execution stopped.
    pub fn used(&self) -> (r: u64)
        ensures
            r == self.held(),
    {
        self.used
    }
}

impl AllocationsExceeded {
    pub closed spec fn place(self) -> Span {
        self.span
    }

    /// What made the allocation that crossed the ceiling.
    pub fn span(&self) -> (r: Span)
        ensures
            r == self.place(),
    {
        self.span
    }
}

impl HostCall {
    pub closed spec fn called(self) -> Seq<char> {
        self.name@
    }

    pub closed spec fn passed(self) -> Seq<ArgumentView> {
        argument_views(self.arguments@)
    }

    pub closed spec fn place(self) -> Span {
        self.span
    }

    pub closed spec fn state(self) -> MachineView {
        self.execution@
    }

    pub closed spec fn tree(self) -> Program {
        self.execution.program()
    }

    /// The name that the Script called.
    pub fn name(&self) -> (r: &str)
        ensures
            r@ == self.called(),
    {
        self.name.as_str()
    }

    /// The arguments, in order.
    pub fn arguments(&self) -> (r: &Vec<Argument>)
        ensures
            argument_views(r@) == self.passed(),
    {
        &self.arguments
    }

    /// From the callee's name through the closing parenthesis.
    pub fn span(&self) -> (r: Span)
        ensures
            r == self.place(),
    {
        self.span
    }

    /// Give the call `value` as its result and hand back the execution.
    pub fn resume(self, value: &Value) -> (r: Execution)
        ensures
            r@ == resumed(self.state(), value@),
            r.program() == self.tree(),
    {
        proof {
            use_type_invariant(&self.execution);
        }
        let mut machine = self.execution.machine;
        machine.resume(value);
        Execution { machine }
    }
}

impl Asked {
    #[verifier::type_invariant]
    spec fn waits(self) -> bool {
        self.execution.asks()
    }

    pub closed spec fn asked(self) -> QuestionView {
        self.question@
    }

    pub closed spec fn state(self) -> MachineView {
        self.execution@
    }

    pub closed spec fn tree(self) -> Program {
        self.execution.program()
    }

    /// What is asked.
    pub fn question(&self) -> (r: &Question)
        ensures
            r@ == self.asked(),
    {
        &self.question
    }

    /// Answer, and hand back the execution.
    pub fn answer(self, answer: Answer) -> (r: Execution)
        ensures
            r@ == (MachineView { answered: Some(answer@), ..self.state() }),
            r.program() == self.tree(),
    {
        proof {
            use_type_invariant(&self);
            use_type_invariant(&self.execution);
        }
        let mut machine = self.execution.machine;
        machine.answer(answer);
        Execution { machine }
    }
}

/// How far an evaluation without a host got.
pub enum Progress {
    /// The Script's result.
    Done(Value),
    /// An operator waits for arithmetic from outside.
    Ask(Asked),
    /// The run goes on.
    Again(Execution),
}

/// What an evaluation without a host makes of a stop: a host call has nobody to call.
pub open spec fn proceeds(r: Result<Progress, Diagnostic>, p: Program, m: MachineView, stop: StopView) -> bool {
    match stop {
        StopView::Finished(value) => r matches Ok(Progress::Done(v)) && v@ == value,
        StopView::Ask(question) => r matches Ok(Progress::Ask(asked)) && asked.asked() == question && asked.state()
            == m && asked.tree() == p,
        StopView::Paused(_) => r matches Ok(Progress::Again(e)) && e@ == m && e.program() == p,
        StopView::OutOfMemory(span) => r matches Err(d) && d@ == error_of(
            Category::Syntax,
            Code::EXPECTED_SYNTAX,
            "internal error: an unmetered evaluation stopped at a meter"@,
            span,
        ),
        StopView::AllocationsExceeded(span) => r matches Err(d) && d@ == error_of(
            Category::Syntax,
            Code::EXPECTED_SYNTAX,
            "internal error: an unmetered evaluation stopped at a meter"@,
            span,
        ),
        StopView::HostCall { name, span, .. } => r matches Err(d) && d@ == error_of(
            Category::Capability,
            Code::UNKNOWN_FUNCTION,
            "`"@ + name
                + "` is not declared, and there is no host here to call it on: a Script run on its own can call only the functions it declares"@,
            span,
        ),
    }
}

/// Carry an evaluation without a host on: until its result, an error, or a question. A host call is
/// refused, since there is no host.
pub fn proceed(execution: Execution) -> (r: Result<Progress, Diagnostic>)
    ensures
        match execution@.execute(execution.program()) {
            Turn::Go(_) => false,
            Turn::Halt(m, stop) => proceeds(r, execution.program(), m, stop),
            Turn::Fail(failure) => r matches Err(d) && d@ == failure,
        },
{
    match execution.run()? {
        Outcome::Finished(value) => Ok(Progress::Done(value)),
        Outcome::Asked(asked) => Ok(Progress::Ask(asked)),
        Outcome::Paused(paused) => Ok(Progress::Again(paused.resume())),
        Outcome::OutOfMemory(out) => Err(
            Diagnostic::error(
                Category::Syntax,
                Code::EXPECTED_SYNTAX,
                "internal error: an unmetered evaluation stopped at a meter".to_owned(),
                out.span(),
            ),
        ),
        Outcome::AllocationsExceeded(out) => Err(
            Diagnostic::error(
                Category::Syntax,
                Code::EXPECTED_SYNTAX,
                "internal error: an unmetered evaluation stopped at a meter".to_owned(),
                out.span(),
            ),
        ),
        Outcome::HostCall(call) => {
            let mut message = "`".to_owned();
            message.append(call.name());
            message.append(
                "` is not declared, and there is no host here to call it on: a Script run on its own can call only the functions it declares",
            );
            Err(Diagnostic::error(Category::Capability, Code::UNKNOWN_FUNCTION, message, call.span()))
        },
    }
}

proof fn lemma_no_collision(p: &Program, k: int)
    requires
        0 <= k <= p.statements@.len(),
    ensures
        collision(*p, Seq::empty(), k) is None,
    decreases p.statements@.len() - k,
{
    if k < p.statements@.len() {
        lemma_no_collision(p, k + 1);
    }
}

/// Evaluate a Script without a host, its root scope binding `variables`: until its result, an error,
/// or a question. A name that the Script's own top level also declares is refused before anything
/// runs.
pub fn evaluate_with_variables(program: Arc<Program>, variables: Vec<(Arc<str>, Value)>) -> (r: Result<
    Progress,
    Diagnostic,
>)
    requires
        program.wf(),
    ensures
        match collision(*program, pair_trees(variables@), 0) {
            Some(failure) => r matches Err(d) && d@ == failure,
            None => match started(*program, pair_trees(variables@)).execute(*program) {
                Turn::Go(_) => false,
                Turn::Halt(m, stop) => proceeds(r, *program, m, stop),
                Turn::Fail(failure) => r matches Err(d) && d@ == failure,
            },
        },
{
    proceed(Execution::with_variables(program, variables)?)
}

/// Evaluate a Script on its own, without a host and without starting variables.
pub fn evaluate(program: Arc<Program>) -> (r: Result<Progress, Diagnostic>)
    requires
        program.wf(),
    ensures
        match started(*program, Seq::empty()).execute(*program) {
            Turn::Go(_) => false,
            Turn::Halt(m, stop) => proceeds(r, *program, m, stop),
            Turn::Fail(failure) => r matches Err(d) && d@ == failure,
        },
{
    let variables: Vec<(Arc<str>, Value)> = Vec::new();
    proof {
        lemma_no_collision(&*program, 0);
        assert(pair_trees(variables@) =~= Seq::empty());
    }
    evaluate_with_variables(program, variables)
}

} // verus!

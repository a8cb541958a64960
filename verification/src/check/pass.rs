//! The walk itself: one pass over the tree on an explicit stack of jobs.

use vstd::prelude::*;
use crate::ast::AccessKind;
use crate::ast::AccessLink;
use crate::ast::BlockId;
use crate::ast::ExprId;
use crate::ast::ExpressionKind;
use crate::ast::Function;
use crate::ast::Identifier;
use crate::ast::Program;
use crate::ast::Statement;
use crate::ast::StatementKind;
use crate::ast::Weights;
use crate::check::Policy;
use crate::check::operands;
use crate::check::walk;
use crate::check::walk::Binding;
use crate::check::walk::JobView;
use crate::check::walk::ScopeView;
use crate::check::walk::WalkView;
use crate::check::walk::branch_jobs;
use crate::check::walk::entry_jobs;
use crate::check::walk::expression_jobs;
use crate::check::walk::links_jobs;
use crate::check::walk::reassigned;
use crate::check::walk::statement_jobs;
use crate::check::weighing::lemma_step;
use crate::check::weighing::walk_weight;
use crate::diagnostics::Category;
use crate::diagnostics::Code;
use crate::diagnostics::Diagnostic;
use crate::diagnostics::DiagnosticView;
use crate::diagnostics::Span;
use crate::diagnostics::through;
use crate::table::Table;
use crate::table::has_key;
use crate::table::share;
use crate::text::list_holds;
use crate::text::push_decimal;

verus! {

/// The names that a scope starts with.
pub enum Seed<'p> {
    Nothing,
    Variables(&'p Vec<String>, Span),
    Parameters(&'p Vec<Identifier>),
    Binding(&'p Identifier),
}

impl<'p> View for Seed<'p> {
    type V = Seq<(Seq<char>, Span)>;

    open spec fn view(&self) -> Seq<(Seq<char>, Span)> {
        match *self {
            Seed::Nothing => Seq::empty(),
            Seed::Variables(names, span) => Seq::new(names@.len(), |i: int| (names@[i]@, span)),
            Seed::Parameters(parameters) => walk::seed_of(parameters@),
            Seed::Binding(name) => seq![(name.name@, name.span)],
        }
    }
}

/// One thing left to walk.
pub enum Job<'p> {
    Open { statements: &'p Vec<Statement>, seed: Seed<'p>, body: bool },
    Statement(&'p Statement),
    Expression(ExprId),
    Declare { name: &'p Identifier, arity: Option<usize> },
    Deferred,
    Close,
}

impl<'p> View for Job<'p> {
    type V = JobView;

    open spec fn view(&self) -> JobView {
        match *self {
            Job::Open { statements, seed, body } => JobView::Open { statements: statements@, seed: seed@, body },
            Job::Statement(statement) => JobView::Statement(*statement),
            Job::Expression(id) => JobView::Expression(id),
            Job::Declare { name, arity } => JobView::Declare { name: *name, arity },
            Job::Deferred => JobView::Deferred,
            Job::Close => JobView::Close,
        }
    }
}

/// One scope of the walk.
pub struct Scope<'p> {
    bindings: Table<Binding>,
    deferred: Vec<&'p Function>,
    lets: Table<bool>,
    body: bool,
    statements: Ghost<Seq<Statement>>,
    seed: Ghost<Seq<(Seq<char>, Span)>>,
}

impl<'p> View for Scope<'p> {
    type V = ScopeView;

    closed spec fn view(&self) -> ScopeView {
        ScopeView {
            bindings: self.bindings@,
            deferred: Seq::new(self.deferred@.len(), |i: int| *self.deferred@[i]),
            lets: self.lets@,
            body: self.body,
            statements: self.statements@,
            seed: self.seed@,
        }
    }
}

/// What some jobs say.
pub open spec fn job_views(jobs: Seq<Job<'_>>) -> Seq<JobView> {
    Seq::new(jobs.len(), |i: int| jobs[i]@)
}

/// What some scopes say.
pub open spec fn scope_views(scopes: Seq<Scope<'_>>) -> Seq<ScopeView> {
    Seq::new(scopes.len(), |i: int| scopes[i]@)
}

/// What some diagnostics say.
pub open spec fn diagnostic_views(diagnostics: Seq<Diagnostic>) -> Seq<DiagnosticView> {
    Seq::new(diagnostics.len(), |i: int| diagnostics[i]@)
}

/// A walk under way.
pub struct Walk<'p> {
    program: &'p Program,
    policy: Policy,
    callables: Option<&'p Vec<String>>,
    reassigned: Table<bool>,
    jobs: Vec<Job<'p>>,
    scopes: Vec<Scope<'p>>,
    findings: Vec<Diagnostic>,
}

impl<'p> View for Walk<'p> {
    type V = WalkView;

    closed spec fn view(&self) -> WalkView {
        WalkView {
            jobs: job_views(self.jobs@),
            scopes: scope_views(self.scopes@),
            findings: diagnostic_views(self.findings@),
        }
    }
}

impl JobView {
    /// Whether every index in the job is the tree's.
    pub open spec fn fits(self, p: Program) -> bool {
        match self {
            JobView::Open { statements, .. } => p.statements_ok(statements),
            JobView::Statement(statement) => p.statement_ok(statement),
            JobView::Expression(id) => p.has_expr(id),
            _ => true,
        }
    }
}

impl ScopeView {
    /// Whether every waiting body is the tree's.
    pub open spec fn fits(self, p: Program) -> bool {
        forall|i: int| 0 <= i < self.deferred.len() ==> p.has_block((#[trigger] self.deferred[i]).body)
    }
}

impl WalkView {
    /// Whether every index in the walk is the tree's.
    pub open spec fn fits(self, p: Program) -> bool {
        &&& forall|i: int| 0 <= i < self.jobs.len() ==> (#[trigger] self.jobs[i]).fits(p)
        &&& forall|i: int| 0 <= i < self.scopes.len() ==> (#[trigger] self.scopes[i]).fits(p)
    }
}

/// What an optional list holds.
pub open spec fn list_view(list: Option<&Vec<String>>) -> Option<Seq<String>> {
    match list {
        Some(list) => Some(list@),
        None => None,
    }
}

impl<'p> Walk<'p> {
    /// What the walk reads besides its jobs.
    pub closed spec fn reads(self, p: Program, policy: Policy, callables: Option<Seq<String>>) -> bool {
        &&& *self.program == p
        &&& self.policy == policy
        &&& list_view(self.callables) == callables
        &&& forall|name: Seq<char>| has_key(self.reassigned@, name) <==> reassigned(p, name)
    }

    /// Whether nothing but the jobs, the scopes and the findings differ.
    closed spec fn kept(self, other: Self) -> bool {
        &&& self.program == other.program
        &&& self.policy == other.policy
        &&& self.callables == other.callables
        &&& self.reassigned == other.reassigned
    }

    fn push_job(&mut self, job: Job<'p>)
        ensures
            final(self)@ == old(self)@.job(job@),
            final(self).kept(*old(self)),
    {
        self.jobs.push(job);
        proof {
            assert(self@ =~= old(self)@.job(job@));
        }
    }

    fn push_finding(&mut self, finding: Diagnostic)
        ensures
            final(self)@ == old(self)@.report(finding@),
            final(self).kept(*old(self)),
    {
        self.findings.push(finding);
        proof {
            assert(self@ =~= old(self)@.report(finding@));
        }
    }

    fn disabled(&mut self, construct: &str, toggle: &str, span: Span)
        ensures
            final(self)@ == old(self)@.report(walk::disabled(construct@, toggle@, span)),
            final(self).kept(*old(self)),
    {
        let mut message = "`".to_owned();
        message.append(construct);
        message.append("` is disabled by the `");
        message.append(toggle);
        message.append("` policy toggle");
        self.push_finding(Diagnostic::error(Category::Policy, Code::CONSTRUCT_DISABLED, message, span));
    }

    /// Bind a name in the innermost scope.
    fn bind(&mut self, name: &str, binding: Binding)
        requires
            old(self)@.scopes.len() > 0,
        ensures
            final(self)@ == old(self)@.bind(name@, binding),
            final(self).kept(*old(self)),
    {
        let last: usize = self.scopes.len() - 1;
        let scope = &mut self.scopes[last];
        scope.bindings.insert(share(name), binding);
        proof {
            assert(self@ =~= old(self)@.bind(name@, binding));
        }
    }

    fn binds(&self, name: &str) -> (r: bool)
        requires
            self@.scopes.len() > 0,
        ensures
            r == self@.binds(name@),
    {
        let last: usize = self.scopes.len() - 1;
        self.scopes[last].bindings.find(name).is_some()
    }
}

/// The names that the first `n` of some statements assign to join the table.
fn gather_assigned(names: &mut Table<bool>, program: &Program, statements: &Vec<Statement>)
    requires
        program.wf(),
        program.statements_ok(statements@),
    ensures
        forall|name: Seq<char>|
            has_key(final(names)@, name) <==> has_key(old(names)@, name) || walk::assigned_in(*program, statements@, name),
{
    let mut i: usize = 0;
    while i < statements.len()
        invariant
            i <= statements@.len(),
            program.wf(),
            program.statements_ok(statements@),
            forall|name: Seq<char>|
                #![trigger has_key(names@, name)]
                has_key(names@, name) <==> has_key(old(names)@, name) || exists|j: int|
                    0 <= j < i && walk::assigns(*program, #[trigger] statements@[j], name),
        decreases statements.len() - i,
    {
        let ghost before = names@;
        proof {
            assert(program.statement_ok(statements@[i as int]));
        }
        if let StatementKind::Assignment { target, .. } = &statements[i].kind {
            if let ExpressionKind::Identifier(name) = &program.expression(*target).kind {
                names.insert(share(name.name.as_str()), true);
                proof {
                    crate::table::lemma_put_keys(before, name.name@, true);
                }
            }
        }
        proof {
            assert forall|name: Seq<char>|
                #![trigger has_key(names@, name)]
                has_key(names@, name) <==> has_key(old(names)@, name) || exists|j: int|
                    0 <= j < i + 1 && walk::assigns(*program, #[trigger] statements@[j], name) by {
                if walk::assigns(*program, statements@[i as int], name) {
                    assert(has_key(names@, name));
                }
                assert(has_key(before, name) <==> has_key(old(names)@, name) || exists|j: int|
                    0 <= j < i && walk::assigns(*program, #[trigger] statements@[j], name));
            }
        }
        i = i + 1;
    }
}

/// Every name assigned to anywhere in the Script.
fn reassigned_names(program: &Program) -> (r: Table<bool>)
    requires
        program.wf(),
    ensures
        forall|name: Seq<char>| has_key(r@, name) <==> reassigned(*program, name),
{
    let mut names: Table<bool> = Table::new();
    gather_assigned(&mut names, program, &program.statements);
    let mut b: usize = 0;
    while b < program.blocks.len()
        invariant
            b <= program.blocks@.len(),
            program.wf(),
            forall|name: Seq<char>|
                #![trigger has_key(names@, name)]
                has_key(names@, name) <==> walk::assigned_in(*program, program.statements@, name) || exists|c: int|
                    0 <= c < b && walk::assigned_in(*program, (#[trigger] program.blocks@[c]).statements@, name),
        decreases program.blocks.len() - b,
    {
        let ghost before = names@;
        gather_assigned(&mut names, program, &program.blocks[b].statements);
        proof {
            assert forall|name: Seq<char>|
                #![trigger has_key(names@, name)]
                has_key(names@, name) <==> walk::assigned_in(*program, program.statements@, name) || exists|c: int|
                    0 <= c < b + 1 && walk::assigned_in(*program, (#[trigger] program.blocks@[c]).statements@, name) by {
                assert(has_key(before, name) <==> walk::assigned_in(*program, program.statements@, name) || exists|c: int|
                    0 <= c < b && walk::assigned_in(*program, (#[trigger] program.blocks@[c]).statements@, name));
                assert(has_key(names@, name) <==> has_key(before, name) || walk::assigned_in(
                    *program,
                    program.blocks@[b as int].statements@,
                    name,
                ));
            }
        }
        b = b + 1;
    }
    names
}

/// The parameter count of an initializer that is written as a function literal.
fn function_arity(program: &Program, initializer: ExprId) -> (r: Option<usize>)
    requires
        program.wf(),
        program.has_expr(initializer),
    ensures
        r == walk::function_arity(*program, initializer),
{
    match operands::unwrap(program, initializer) {
        Some(ExpressionKind::Function(function)) => Some(function.parameters.len()),
        _ => None,
    }
}

fn terminates(kind: &StatementKind) -> (r: Option<&'static str>)
    ensures
        match (r, walk::terminator(*kind)) {
            (Some(keyword), Some(wanted)) => keyword@ == wanted,
            (None, None) => true,
            _ => false,
        },
{
    match kind {
        StatementKind::Return { .. } => Some("return"),
        StatementKind::Break { .. } => Some("break"),
        StatementKind::Continue { .. } => Some("continue"),
        _ => None,
    }
}

fn declares_function(kind: &StatementKind) -> (r: bool)
    ensures
        r == (*kind is Function),
{
    match kind {
        StatementKind::Function { .. } => true,
        _ => false,
    }
}

fn find_terminator(statements: &Vec<Statement>) -> (r: usize)
    ensures
        r == walk::first_terminator(statements@, 0),
        r <= statements@.len(),
{
    let mut k: usize = 0;
    while k < statements.len()
        invariant
            k <= statements@.len(),
            walk::first_terminator(statements@, 0) == walk::first_terminator(statements@, k as int),
        decreases statements.len() - k,
    {
        if terminates(&statements[k].kind).is_some() {
            return k;
        }
        k = k + 1;
    }
    k
}

fn find_plain(statements: &Vec<Statement>, from: usize) -> (r: usize)
    requires
        from <= statements@.len(),
    ensures
        r == walk::first_plain(statements@, from as int),
        r <= statements@.len(),
{
    let mut k: usize = from;
    while k < statements.len()
        invariant
            from <= k <= statements@.len(),
            walk::first_plain(statements@, from as int) == walk::first_plain(statements@, k as int),
        decreases statements.len() - k,
    {
        if !declares_function(&statements[k].kind) {
            return k;
        }
        k = k + 1;
    }
    k
}

/// The names that the `let`s of a block declare, as far as its statements are walked.
fn gather_lets(statements: &Vec<Statement>) -> (r: Table<bool>)
    ensures
        r@ == walk::lets_of(statements@, statements@.len() as int),
{
    let reachable = find_terminator(statements);
    let mut names: Table<bool> = Table::new();
    let mut i: usize = 0;
    while i < statements.len()
        invariant
            i <= statements@.len(),
            reachable == walk::first_terminator(statements@, 0),
            names@ == walk::lets_of(statements@, i as int),
        decreases statements.len() - i,
    {
        if let StatementKind::Let { name, .. } = &statements[i].kind {
            if i <= reachable {
                names.insert(share(name.name.as_str()), false);
            }
        }
        i = i + 1;
    }
    names
}

impl<'p> Walk<'p> {
    /// Bind a name that the scope starts with. A repeated name binds once.
    fn seed(&mut self, name: &str, span: Span)
        requires
            old(self)@.scopes.len() > 0,
        ensures
            final(self)@ == if old(self)@.binds(name@) {
                old(self)@
            } else {
                old(self)@.bind(name@, (Binding { span, arity: None, report_unused: false, read: false }))
            },
            final(self).kept(*old(self)),
    {
        if !self.binds(name) {
            self.bind(name, Binding { span, arity: None, report_unused: false, read: false });
        }
    }

    fn seed_all(&mut self, seed: &Seed<'p>)
        requires
            old(self)@.scopes.len() > 0,
        ensures
            final(self)@ == old(self)@.seeded(seed@, seed@.len() as int),
            final(self).kept(*old(self)),
            final(self)@.scopes.len() == old(self)@.scopes.len(),
    {
        let ghost start = *self;
        match seed {
            Seed::Nothing => {},
            Seed::Variables(names, span) => {
                let mut i: usize = 0;
                while i < names.len()
                    invariant
                        i <= names@.len(),
                        seed@.len() == names@.len(),
                        forall|j: int| 0 <= j < names@.len() ==> #[trigger] seed@[j] == (names@[j]@, *span),
                        self@ == start@.seeded(seed@, i as int),
                        self.kept(start),
                        self@.scopes.len() == start@.scopes.len(),
                        start@.scopes.len() > 0,
                    decreases names.len() - i,
                {
                    proof {
                        assert(seed@[i as int].0 == names@[i as int]@);
                    }
                    self.seed(names[i].as_str(), *span);
                    i = i + 1;
                }
            },
            Seed::Parameters(parameters) => {
                let mut i: usize = 0;
                while i < parameters.len()
                    invariant
                        i <= parameters@.len(),
                        seed@ == walk::seed_of(parameters@),
                        self@ == start@.seeded(seed@, i as int),
                        self.kept(start),
                        self@.scopes.len() == start@.scopes.len(),
                        start@.scopes.len() > 0,
                    decreases parameters.len() - i,
                {
                    self.seed(parameters[i].name.as_str(), parameters[i].span);
                    i = i + 1;
                }
            },
            Seed::Binding(name) => {
                self.seed(name.name.as_str(), name.span);
                proof {
                    assert(start@.seeded(seed@, 0) == start@);
                    assert(seed@[0].0 == name.name@);
                }
            },
        }
    }

    fn declare(&mut self, name: &'p Identifier, arity: Option<usize>, p: Ghost<Program>)
        requires
            forall|n: Seq<char>| has_key(old(self).reassigned@, n) <==> reassigned(p@, n),
        ensures
            final(self)@ == old(self)@.declared(p@, *name, arity),
            final(self).kept(*old(self)),
            final(self)@.scopes.len() == old(self)@.scopes.len(),
    {
        if self.scopes.len() == 0 {
            return;
        }
        if self.binds(name.name.as_str()) {
            let mut message = "expected a new binding name; `".to_owned();
            message.append(name.name.as_str());
            message.append("` is already declared in this scope");
            self.push_finding(
                Diagnostic::error(Category::Syntax, Code::DUPLICATE_DECLARATION, message, name.span),
            );
            return;
        }
        let known = if self.reassigned.find(name.name.as_str()).is_some() {
            None
        } else {
            arity
        };
        let last: usize = self.scopes.len() - 1;
        let read = match self.scopes[last].lets.get(name.name.as_str()) {
            Some(ahead) => *ahead,
            None => false,
        };
        self.bind(name.name.as_str(), Binding { span: name.span, arity: known, report_unused: true, read });
    }

    fn hoist(&mut self, statements: &'p Vec<Statement>, p: Ghost<Program>)
        requires
            forall|n: Seq<char>| has_key(old(self).reassigned@, n) <==> reassigned(p@, n),
        ensures
            final(self)@ == old(self)@.hoisted(p@, statements@, statements@.len() as int),
            final(self).kept(*old(self)),
            final(self)@.scopes.len() == old(self)@.scopes.len(),
    {
        let ghost start = *self;
        let mut i: usize = 0;
        while i < statements.len()
            invariant
                i <= statements@.len(),
                self@ == start@.hoisted(p@, statements@, i as int),
                self.kept(start),
                self@.scopes.len() == start@.scopes.len(),
                forall|n: Seq<char>| has_key(self.reassigned@, n) <==> reassigned(p@, n),
            decreases statements.len() - i,
        {
            if let StatementKind::Function { name, function } = &statements[i].kind {
                self.declare(name, Some(function.parameters.len()), p);
            }
            i = i + 1;
        }
    }

    fn note_unreachable(&mut self, statements: &'p Vec<Statement>)
        ensures
            final(self)@ == old(self)@.noted(walk::dead_code(statements@)),
            final(self).kept(*old(self)),
    {
        let at = find_terminator(statements);
        if at < statements.len() {
            let first = find_plain(statements, at + 1);
            if first < statements.len() {
                let keyword = terminates(&statements[at].kind);
                proof {
                    lemma_terminates(statements@, 0);
                }
                if let Some(keyword) = keyword {
                    let mut message = "this code can never run: the block always `".to_owned();
                    message.append(keyword);
                    message.append("`s before it");
                    self.push_finding(
                        Diagnostic::warning(
                            Category::Syntax,
                            Code::new(Code::UNREACHABLE_CODE),
                            message,
                            statements[first].span,
                        ),
                    );
                }
            }
        }
    }

    fn open(&mut self, statements: &'p Vec<Statement>, seed: Seed<'p>, body: bool, p: Ghost<Program>)
        requires
            forall|n: Seq<char>| has_key(old(self).reassigned@, n) <==> reassigned(p@, n),
        ensures
            final(self)@ == old(self)@.opened(p@, statements@, seed@, body),
            final(self).kept(*old(self)),
    {
        let ghost start = *self;
        let scope = Scope {
            bindings: Table::new(),
            deferred: Vec::new(),
            lets: gather_lets(statements),
            body,
            statements: Ghost(statements@),
            seed: Ghost(seed@),
        };
        self.scopes.push(scope);
        proof {
            assert(scope@ =~= start@.entered(statements@, seed@, body).scopes.last());
            assert(self@.scopes =~= start@.entered(statements@, seed@, body).scopes);
            assert(self@ =~= start@.entered(statements@, seed@, body));
        }
        self.seed_all(&seed);
        self.hoist(statements, p);
        self.note_unreachable(statements);
        self.push_job(Job::Close);
        self.push_job(Job::Deferred);
        let ghost base = self@;
        let reachable = find_terminator(statements);
        let mut k: usize = statements.len();
        proof {
            assert(self@ =~= base.schedule(statement_jobs(statements@, k as int)));
        }
        while k > 0
            invariant
                k <= statements@.len(),
                reachable == walk::first_terminator(statements@, 0),
                self@ == base.schedule(statement_jobs(statements@, k as int)),
                self.kept(start),
            decreases k,
        {
            k = k - 1;
            if k <= reachable || declares_function(&statements[k].kind) {
                self.push_job(Job::Statement(&statements[k]));
            }
            proof {
                assert(self@ =~= base.schedule(statement_jobs(statements@, k as int)));
            }
        }
    }

    fn resume(&mut self)
        requires
            old(self).program.wf(),
            old(self)@.fits(*old(self).program),
        ensures
            final(self)@ == old(self)@.resumed(*old(self).program),
            final(self).kept(*old(self)),
    {
        if self.scopes.len() == 0 {
            return;
        }
        let last: usize = self.scopes.len() - 1;
        proof {
            assert(self@.scopes[last as int].fits(*self.program));
        }
        if self.scopes[last].deferred.len() == 0 {
            return;
        }
        let ghost waiting = self.scopes@[last as int]@.deferred;
        let scope = &mut self.scopes[last];
        let function: &'p Function = match scope.deferred.pop() {
            Some(function) => function,
            None => {
                return;
            },
        };
        proof {
            assert(waiting.last() == *function);
            assert(self.scopes@[last as int]@.deferred =~= waiting.drop_last());
            assert(self@ =~= old(self)@.innermost(
                ScopeView { deferred: old(self)@.scopes.last().deferred.drop_last(), ..old(self)@.scopes.last() },
            ));
        }
        self.push_job(Job::Deferred);
        let program: &'p Program = self.program;
        self.push_job(
            Job::Open {
                statements: &program.block(function.body).statements,
                seed: Seed::Parameters(&function.parameters),
                body: true,
            },
        );
    }

    fn close(&mut self)
        ensures
            final(self)@ == old(self)@.closed(),
            final(self).kept(*old(self)),
    {
        let scope = match self.scopes.pop() {
            Some(scope) => scope,
            None => {
                return;
            },
        };
        let ghost bindings = scope.bindings@;
        proof {
            assert(self@.scopes =~= old(self)@.scopes.drop_last());
            assert(old(self)@.scopes.last() == scope@);
        }
        let ghost start = *self;
        let mut i: usize = 0;
        proof {
            assert(self@.findings =~= start@.findings + walk::unread(bindings, 0));
        }
        while i < scope.bindings.len()
            invariant
                i <= scope.bindings@.len(),
                bindings == scope.bindings@,
                self@.jobs == start@.jobs,
                self@.scopes == start@.scopes,
                self@.findings == start@.findings + walk::unread(bindings, i as int),
                self.kept(start),
            decreases bindings.len() - i,
        {
            let binding = *scope.bindings.value_at(i);
            if binding.report_unused && !binding.read {
                let mut message = "`".to_owned();
                message.append(scope.bindings.key_at(i));
                message.append("` is declared but never read");
                self.push_finding(
                    Diagnostic::warning(Category::Reference, Code::new(Code::UNUSED_VARIABLE), message, binding.span),
                );
            }
            i = i + 1;
            proof {
                assert(self@.findings =~= start@.findings + walk::unread(bindings, i as int));
            }
        }
        proof {
            assert(self@ =~= old(self)@.closed());
        }
    }

    /// Where `name` is bound.
    fn resolve(&self, name: &str) -> (r: Option<usize>)
        ensures
            match (r, self@.resolve(name@)) {
                (Some(at), Some(wanted)) => at == wanted && at < self@.scopes.len() && has_key(
                    self@.scopes[at as int].bindings,
                    name@,
                ),
                (None, None) => true,
                _ => false,
            },
    {
        let mut k: usize = self.scopes.len();
        while k > 0
            invariant
                k <= self.scopes@.len(),
                self@.resolve(name@) == walk::resolved(self@.scopes, name@, k as int),
            decreases k,
        {
            k = k - 1;
            if self.scopes[k].bindings.find(name).is_some() {
                return Some(k);
            }
        }
        None
    }

    /// The block that may have declared `name`, further in than where it is bound, by the time it is
    /// read.
    fn awaits(&self, name: &str) -> (r: Option<usize>)
        ensures
            match (r, self@.awaits(name@)) {
                (Some(at), Some(wanted)) => at == wanted && at < self@.scopes.len() && !has_key(
                    self@.scopes[at as int].bindings,
                    name@,
                ),
                (None, None) => true,
                _ => false,
            },
    {
        let mut k: usize = self.scopes.len();
        let mut crossed = false;
        while k > 0
            invariant
                k <= self.scopes@.len(),
                self@.awaits(name@) == walk::awaiting(self@.scopes, name@, k as int, crossed),
            decreases k,
        {
            k = k - 1;
            if self.scopes[k].bindings.find(name).is_some() {
                return None;
            }
            if crossed && self.scopes[k].lets.find(name).is_some() {
                return Some(k);
            }
            crossed = crossed || self.scopes[k].body;
        }
        None
    }

    /// Mark the binding that a read of `name` reaches, and the declaration further on that it may reach,
    /// and give the binding.
    fn read(&mut self, name: &str) -> (r: Option<Binding>)
        ensures
            r == old(self)@.reached(name@),
            final(self)@ == old(self)@.read(name@),
            final(self).kept(*old(self)),
    {
        let at = self.resolve(name);
        if let Some(ahead) = self.awaits(name) {
            let scope = &mut self.scopes[ahead];
            scope.lets.insert(share(name), true);
        }
        proof {
            assert(self@ =~= old(self)@.foreseen(name@));
        }
        let at = match at {
            Some(at) => at,
            None => {
                return None;
            },
        };
        let binding = match self.scopes[at].bindings.get(name) {
            Some(binding) => *binding,
            None => {
                return None;
            },
        };
        let scope = &mut self.scopes[at];
        scope.bindings.insert(share(name), Binding { read: true, ..binding });
        proof {
            assert(self@ =~= old(self)@.read(name@));
        }
        Some(binding)
    }
}

/// A terminator that was found is one.
proof fn lemma_terminates(statements: Seq<Statement>, k: int)
    requires
        0 <= k,
    ensures
        ({
            let at = walk::first_terminator(statements, k);
            at < statements.len() ==> walk::terminator(statements[at].kind) is Some
        }),
    decreases statements.len() - k,
{
    if k < statements.len() && walk::terminator(statements[k].kind) is None {
        lemma_terminates(statements, k + 1);
    }
}

impl<'p> Walk<'p> {
    /// Let a function's body wait for the end of the innermost scope.
    fn defer(&mut self, function: &'p Function)
        ensures
            final(self)@ == old(self)@.defer(old(self).policy, *function),
            final(self).kept(*old(self)),
    {
        if !self.policy.callbacks {
            self.disabled("function definition", "callbacks", function.keyword);
        }
        if self.scopes.len() == 0 {
            return;
        }
        let ghost noted = self@;
        let last: usize = self.scopes.len() - 1;
        let scope = &mut self.scopes[last];
        scope.deferred.push(function);
        proof {
            let before = noted.scopes.last();
            assert(self.scopes@[last as int]@ =~= ScopeView { deferred: before.deferred.push(*function), ..before });
            assert(self@ =~= noted.innermost(ScopeView { deferred: before.deferred.push(*function), ..before }));
        }
    }

    fn assignment(&mut self, target: ExprId)
        requires
            old(self).program.has_expr(target),
        ensures
            final(self)@ == old(self)@.target(*old(self).program, target),
            final(self).kept(*old(self)),
    {
        let program: &'p Program = self.program;
        match &program.expression(target).kind {
            ExpressionKind::Identifier(name) => {
                if self.resolve(name.name.as_str()).is_none() && self.awaits(name.name.as_str()).is_none() {
                    let mut message = "cannot assign to `".to_owned();
                    message.append(name.name.as_str());
                    message.append("`: it is not declared; declare it first with `let ");
                    message.append(name.name.as_str());
                    message.append(" = …`");
                    self.push_finding(
                        Diagnostic::error(Category::Reference, Code::UNDECLARED_ASSIGNMENT, message, name.span),
                    );
                }
            },
            _ => self.push_job(Job::Expression(target)),
        }
    }

    fn enter(&mut self, body: BlockId)
        requires
            old(self).program.has_block(body),
        ensures
            final(self)@ == old(self)@.job(walk::block_job(*old(self).program, body, Seq::empty())),
            final(self).kept(*old(self)),
    {
        let program: &'p Program = self.program;
        self.push_job(Job::Open { statements: &program.block(body).statements, seed: Seed::Nothing, body: false });
    }

    #[verifier::loop_isolation(false)]
    fn statement(&mut self, statement: &'p Statement)
        requires
            old(self).program.wf(),
            old(self).program.statement_ok(*statement),
        ensures
            final(self)@ == old(self)@.statement(*old(self).program, old(self).policy, *statement),
            final(self).kept(*old(self)),
    {
        let program: &'p Program = self.program;
        match &statement.kind {
            StatementKind::Let { name, initializer, .. } => {
                self.push_job(Job::Declare { name, arity: function_arity(program, *initializer) });
                self.push_job(Job::Expression(*initializer));
            },
            StatementKind::Function { function, .. } => self.defer(function),
            StatementKind::Assignment { target, value, .. } => {
                self.push_job(Job::Expression(*value));
                self.assignment(*target);
            },
            StatementKind::Return { value, .. } => {
                if let Some(value) = value {
                    self.push_job(Job::Expression(*value));
                }
            },
            StatementKind::Block(body) => self.enter(*body),
            StatementKind::If { branches, else_branch } => {
                if !self.policy.conditionals {
                    let span = if branches.len() == 0 {
                        statement.span
                    } else {
                        branches[0].keyword
                    };
                    self.disabled("if", "conditionals", span);
                }
                if let Some(branch) = else_branch {
                    self.enter(branch.body);
                }
                let ghost base = *self;
                let mut k: usize = branches.len();
                proof {
                    assert(self@ =~= base@.schedule(branch_jobs(*program, branches@, k as int)));
                }
                while k > 0
                    invariant
                        k <= branches@.len(),
                        self@ == base@.schedule(branch_jobs(*program, branches@, k as int)),
                        self.kept(base),
                    decreases k,
                {
                    k = k - 1;
                    let branch = &branches[k];
                    self.enter(branch.body);
                    self.push_job(Job::Expression(branch.condition.expression));
                    proof {
                        assert(self@ =~= base@.schedule(branch_jobs(*program, branches@, k as int)));
                    }
                }
            },
            StatementKind::While { keyword, condition, body } => {
                if !self.policy.loops {
                    self.disabled("while", "loops", *keyword);
                }
                self.enter(*body);
                self.push_job(Job::Expression(condition.expression));
            },
            StatementKind::For { keyword, binding, iterable, body } => {
                if !self.policy.loops {
                    self.disabled("for", "loops", *keyword);
                }
                self.push_job(
                    Job::Open {
                        statements: &program.block(*body).statements,
                        seed: Seed::Binding(binding),
                        body: false,
                    },
                );
                self.push_job(Job::Expression(*iterable));
            },
            StatementKind::Break { .. } => {},
            StatementKind::Continue { .. } => {},
            StatementKind::Expression(id) => self.push_job(Job::Expression(*id)),
        }
    }

    fn call(&mut self, name: &'p Identifier, link: &'p AccessLink, passed: usize)
        ensures
            final(self)@ == old(self)@.call(
                old(self).policy,
                list_view(old(self).callables),
                *name,
                *link,
                passed as nat,
            ),
            final(self).kept(*old(self)),
    {
        let awaited = self.awaits(name.name.as_str()).is_some();
        if let Some(binding) = self.read(name.name.as_str()) {
            if let Some(arity) = binding.arity {
                if passed != arity && !awaited {
                    let mut message = "this call passes ".to_owned();
                    push_decimal(&mut message, passed as u64);
                    message.append(" argument");
                    message.append(if passed == 1 { "" } else { "s" });
                    message.append(", but the function takes ");
                    push_decimal(&mut message, arity as u64);
                    self.push_finding(Diagnostic::error(Category::Arity, Code::ARGUMENT_COUNT, message, link.span));
                }
            }
            return;
        }
        if awaited {
            return;
        }
        if !self.policy.rpc_calls {
            self.disabled("call to a Registered Function", "rpc_calls", name.span);
            return;
        }
        if let Some(callables) = self.callables {
            if !list_holds(callables, name.name.as_str()) {
                let mut message = "`".to_owned();
                message.append(name.name.as_str());
                message.append("` is neither declared in this script nor a function this caller says is callable");
                self.push_finding(
                    Diagnostic::error(
                        Category::Capability,
                        Code::UNKNOWN_FUNCTION,
                        message,
                        through(name.span, link.span),
                    ),
                );
            }
        }
    }

    fn push_expressions(&mut self, ids: &'p Vec<ExprId>)
        ensures
            final(self)@ == old(self)@.schedule(expression_jobs(ids@, 0)),
            final(self).kept(*old(self)),
    {
        let ghost base = *self;
        let mut k: usize = ids.len();
        proof {
            assert(self@ =~= base@.schedule(expression_jobs(ids@, k as int)));
        }
        while k > 0
            invariant
                k <= ids@.len(),
                self@ == base@.schedule(expression_jobs(ids@, k as int)),
                self.kept(base),
            decreases k,
        {
            k = k - 1;
            self.push_job(Job::Expression(ids[k]));
            proof {
                assert(self@ =~= base@.schedule(expression_jobs(ids@, k as int)));
            }
        }
    }

    fn access(&mut self, base: ExprId, links: &'p Vec<AccessLink>)
        requires
            old(self).program.has_expr(base),
        ensures
            final(self)@ == old(self)@.access(
                *old(self).program,
                old(self).policy,
                list_view(old(self).callables),
                base,
                links@,
            ),
            final(self).kept(*old(self)),
    {
        let program: &'p Program = self.program;
        let mut called = false;
        if let ExpressionKind::Identifier(name) = &program.expression(base).kind {
            if links.len() > 0 {
                if let AccessKind::Call { arguments, .. } = &links[0].kind {
                    self.call(name, &links[0], arguments.len());
                    called = true;
                }
            }
        }
        if !called {
            self.push_job(Job::Expression(base));
        }
        let ghost based = *self;
        let mut k: usize = links.len();
        proof {
            assert(self@ =~= based@.schedule(links_jobs(links@, k as int)));
        }
        while k > 0
            invariant
                k <= links@.len(),
                self@ == based@.schedule(links_jobs(links@, k as int)),
                self.kept(based),
            decreases k,
        {
            k = k - 1;
            match &links[k].kind {
                AccessKind::Call { arguments, .. } => self.push_expressions(arguments),
                AccessKind::Index { expression, .. } => self.push_job(Job::Expression(*expression)),
                AccessKind::Property(_) => {},
            }
            proof {
                assert(self@ =~= based@.schedule(links_jobs(links@, k as int)));
            }
        }
    }

    #[verifier::loop_isolation(false)]
    fn expression(&mut self, id: ExprId)
        requires
            old(self).program.wf(),
            old(self).program.has_expr(id),
        ensures
            final(self)@ == old(self)@.expression(
                *old(self).program,
                old(self).policy,
                list_view(old(self).callables),
                id,
            ),
            final(self).kept(*old(self)),
    {
        let program: &'p Program = self.program;
        let expression = program.expression(id);
        proof {
            assert(program.expression_ok(program.expr(id)));
        }
        match &expression.kind {
            ExpressionKind::Literal(_) => {},
            ExpressionKind::Identifier(name) => {
                let awaited = self.awaits(name.name.as_str()).is_some();
                if self.read(name.name.as_str()).is_none() && !awaited {
                    let mut message = "`".to_owned();
                    message.append(name.name.as_str());
                    message.append("` is not declared");
                    self.push_finding(
                        Diagnostic::error(Category::Reference, Code::UNDECLARED_IDENTIFIER, message, name.span),
                    );
                }
            },
            ExpressionKind::Group { expression, .. } => self.push_job(Job::Expression(*expression)),
            ExpressionKind::Unary { operator, operand } => {
                if let Some(finding) = operands::unary(program, operator.kind, *operand) {
                    self.push_finding(finding);
                }
                self.push_job(Job::Expression(*operand));
            },
            ExpressionKind::Binary { left, operator, right } => {
                if let Some(finding) = operands::binary(program, *left, operator.kind, *right) {
                    self.push_finding(finding);
                }
                self.push_job(Job::Expression(*right));
                self.push_job(Job::Expression(*left));
            },
            ExpressionKind::Array { elements, .. } => {
                if !self.policy.array_literals {
                    self.disabled("array literal", "array_literals", expression.span);
                }
                self.push_expressions(elements);
            },
            ExpressionKind::Object { entries, .. } => {
                if !self.policy.object_literals {
                    self.disabled("object literal", "object_literals", expression.span);
                }
                let ghost base = *self;
                let mut k: usize = entries.len();
                proof {
                    assert(self@ =~= base@.schedule(entry_jobs(entries@, k as int)));
                }
                while k > 0
                    invariant
                        k <= entries@.len(),
                        self@ == base@.schedule(entry_jobs(entries@, k as int)),
                        self.kept(base),
                    decreases k,
                {
                    k = k - 1;
                    self.push_job(Job::Expression(entries[k].value));
                    proof {
                        assert(self@ =~= base@.schedule(entry_jobs(entries@, k as int)));
                    }
                }
            },
            ExpressionKind::Access { base, links } => self.access(*base, links),
            ExpressionKind::Function(function) => self.defer(function),
        }
    }

    /// Do the next job.
    fn step(&mut self, p: Ghost<Program>, callables: Ghost<Option<Seq<String>>>)
        requires
            p@.wf(),
            old(self).reads(p@, old(self).policy, callables@),
            old(self)@.fits(p@),
            old(self)@.jobs.len() > 0,
        ensures
            final(self)@ == old(self)@.step(p@, old(self).policy, callables@),
            final(self).reads(p@, old(self).policy, callables@),
            final(self).policy == old(self).policy,
    {
        let ghost last = self@.jobs.last();
        proof {
            assert(last.fits(p@));
        }
        let job = match self.jobs.pop() {
            Some(job) => job,
            None => {
                return;
            },
        };
        proof {
            assert(last == job@);
            assert(self@ =~= WalkView { jobs: old(self)@.jobs.drop_last(), ..old(self)@ });
        }
        match job {
            Job::Open { statements, seed, body } => self.open(statements, seed, body, p),
            Job::Statement(statement) => self.statement(statement),
            Job::Expression(id) => self.expression(id),
            Job::Declare { name, arity } => self.declare(name, arity, p),
            Job::Deferred => self.resume(),
            Job::Close => self.close(),
        }
    }
}

/// Put a finding where it goes among findings in source order.
fn insert_finding(sorted: &mut Vec<Diagnostic>, finding: Diagnostic)
    ensures
        diagnostic_views(final(sorted)@) == diagnostic_views(old(sorted)@).insert(
            walk::place(diagnostic_views(old(sorted)@), finding@.span.offset, 0),
            finding@,
        ),
{
    let ghost views = diagnostic_views(sorted@);
    let mut k: usize = 0;
    while k < sorted.len() && sorted[k].span.offset < finding.span.offset
        invariant
            k <= sorted@.len(),
            views == diagnostic_views(sorted@),
            walk::place(views, finding@.span.offset, 0) == walk::place(views, finding@.span.offset, k as int),
        decreases sorted.len() - k,
    {
        k = k + 1;
    }
    let ghost before = sorted@;
    sorted.insert(k, finding);
    proof {
        assert(diagnostic_views(sorted@) =~= views.insert(k as int, finding@));
    }
}

/// Put findings in source order.
fn sort_findings(findings: Vec<Diagnostic>) -> (r: Vec<Diagnostic>)
    ensures
        diagnostic_views(r@) == walk::in_source_order(diagnostic_views(findings@)),
{
    let ghost all = diagnostic_views(findings@);
    let mut left: Vec<Diagnostic> = findings;
    let mut sorted: Vec<Diagnostic> = Vec::new();
    proof {
        assert(all.skip(left@.len() as int) =~= Seq::empty());
        assert(diagnostic_views(sorted@) =~= Seq::empty());
    }
    while left.len() > 0
        invariant
            left@.len() <= all.len(),
            diagnostic_views(left@) == all.take(left@.len() as int),
            diagnostic_views(sorted@) == walk::in_source_order(all.skip(left@.len() as int)),
        decreases left.len(),
    {
        let ghost before = left@;
        if let Some(finding) = left.pop() {
            proof {
                let rest = all.skip(left@.len() as int);
                assert(diagnostic_views(before)[left@.len() as int] == finding@);
                assert(all.take(before.len() as int)[left@.len() as int] == finding@);
                assert(rest[0] == finding@);
                assert(rest.drop_first() =~= all.skip(before.len() as int));
                assert(diagnostic_views(left@) =~= all.take(left@.len() as int));
            }
            insert_finding(&mut sorted, finding);
        }
    }
    proof {
        assert(all.skip(0) =~= all);
    }
    sorted
}

/// Walk a Script and give what was found, in source order.
pub(crate) fn run(
    program: &Program,
    variables: &Vec<String>,
    callables: Option<&Vec<String>>,
    policy: Policy,
) -> (r: Vec<Diagnostic>)
    requires
        program.wf(),
        program.acyclic(),
    ensures
        walk::found(
            *program,
            variables@,
            policy,
            list_view(callables),
            walk::walk_findings(*program, variables@, policy, list_view(callables)),
        ),
        diagnostic_views(r@) == walk::in_source_order(
            walk::walk_findings(*program, variables@, policy, list_view(callables)),
        ),
{
    let ghost list = list_view(callables);
    let ghost tree = *program;
    let ghost w = choose|w: Weights| program.weighs(w);
    let ghost start = walk::begun(tree, variables@);
    let mut jobs: Vec<Job<'_>> = Vec::new();
    jobs.push(Job::Open { statements: &program.statements, seed: Seed::Variables(variables, program.span), body: false });
    let mut walk = Walk {
        program,
        policy,
        callables,
        reassigned: reassigned_names(program),
        jobs,
        scopes: Vec::new(),
        findings: Vec::new(),
    };
    let ghost mut n: nat = 0;
    proof {
        assert(start.jobs[0] == job_views(walk.jobs@)[0]) by {
            assert(job_views(walk.jobs@)[0]->Open_seed =~= start.jobs[0]->Open_seed);
        }
        assert(walk@ =~= start);
        assert(walk@ == start.steps(tree, policy, list, n));
    }
    while walk.jobs.len() > 0
        invariant
            tree == *program,
            program.wf(),
            program.weighs(w),
            walk@.fits(tree),
            walk.reads(tree, policy, list),
            walk@ == start.steps(tree, policy, list, n),
        decreases walk_weight(w, walk@),
    {
        proof {
            lemma_step(tree, w, policy, list, walk@);
        }
        walk.step(Ghost(tree), Ghost(list));
        proof {
            n = n + 1;
        }
    }
    let ghost findings = walk@.findings;
    proof {
        assert(start.steps(tree, policy, list, n).jobs.len() == 0);
        assert(walk::found(tree, variables@, policy, list, findings));
        walk::law_found_once(
            tree,
            variables@,
            policy,
            list,
            findings,
            walk::walk_findings(tree, variables@, policy, list),
        );
    }
    let Walk { findings, .. } = walk;
    sort_findings(findings)
}

} // verus!

//! What the analysis keeps of one file: resolver roots, calls and problems with directives.

use vstd::prelude::*;

use crate::call_matcher;
use crate::call_matcher::{
    Actual, Argument, CallMatch, CallMatchIdentity, CallMatchTarget, CallNoMatchReason, Lead,
    ObservedArgument, ObservedCall, ObservedCallTarget, Outcome, Target,
};
use crate::chalk::ModuleOrigin;
use crate::provenance;
use crate::provenance::{
    CallDefinitionOriginKind, CallModuleProvenance, CallTarget, Callee, Collected,
    DecoratorModuleProvenance, Decorator, KnownCallTarget,
    ModuleSymbol, SemanticModel,
};
use crate::semantic::{Db, Definition, File, FileRange, Type};
use crate::supported_functions::SupportedFuncs;
use crate::suppression;
use crate::suppression::{
    FunctionSuppression, StatementSuppression, SuppressionCode, SuppressionProblem, Suppressions,
};
use crate::syntax;
use crate::syntax::{CallArgument, CallSite, Child, Expr, ExprKind, Stmt, StmtKind};
use crate::text;
use crate::text::TextRange;

verus! {

broadcast use vstd::string::group_string_axioms;

/// A function that is a resolver root.
#[derive(Clone, Copy, Debug, PartialEq, Eq, Structural)]
pub struct ResolverRootFact {
    pub definition: Definition,
    pub range: TextRange,
    /// The directive that suppresses the root, if there is one.
    pub unsupported_function_suppression: Option<TextRange>,
}

/// A call in the body of a named function.
#[derive(Debug)]
pub struct CallFact {
    pub caller: Definition,
    pub range: TextRange,
    pub targets: Vec<CallTarget>,
    pub no_matches: Vec<(CallMatchTarget, CallNoMatchReason)>,
    /// The directive behind the call's statement, if there is one.
    pub unsupported_function_statement_suppression: Option<TextRange>,
    /// The directive above the call's caller, if there is one.
    pub unsupported_function_caller_suppression: Option<TextRange>,
}

/// What the analysis keeps of one file.
#[derive(Debug)]
pub struct FileFacts {
    pub resolver_roots: Vec<ResolverRootFact>,
    pub calls: Vec<CallFact>,
    pub suppression_problems: Vec<SuppressionProblem>,
}

/// A call as the analysis keeps it.
pub struct Fact {
    pub caller: Definition,
    pub range: TextRange,
    pub targets: Seq<CallTarget>,
    pub no_matches: Seq<(Target, CallNoMatchReason)>,
    pub statement_suppression: Option<TextRange>,
    pub caller_suppression: Option<TextRange>,
}

/// Targets that do not match, with the reasons.
pub open spec fn no_match_views(list: Seq<(CallMatchTarget, CallNoMatchReason)>) -> Seq<
    (Target, CallNoMatchReason),
> {
    Seq::new(list.len(), |i: int| (list[i].0@, list[i].1))
}

impl View for CallFact {
    type V = Fact;

    open spec fn view(&self) -> Fact {
        Fact {
            caller: self.caller,
            range: self.range,
            targets: self.targets@,
            no_matches: no_match_views(self.no_matches@),
            statement_suppression: self.unsupported_function_statement_suppression,
            caller_suppression: self.unsupported_function_caller_suppression,
        }
    }
}

/// Calls as the analysis keeps them.
pub open spec fn fact_views(calls: Seq<CallFact>) -> Seq<Fact> {
    Seq::new(calls.len(), |i: int| calls[i]@)
}

// ---------------------------------------------------------------------------------------------
// Resolvers
// ---------------------------------------------------------------------------------------------

/// Whether a symbol of a module makes resolvers.
pub open spec fn is_resolver_symbol(owner: ModuleOrigin, module: Seq<char>, symbol: Seq<char>) -> bool {
    let common = symbol == "online"@ || symbol == "offline"@ || symbol == "resolver"@;
    owner == ModuleOrigin::ThirdParty && (((module == "chalk.features.resolver"@ || module
        == "chalk.features"@) && common) || (module == "chalk"@ && (common || symbol == "batch"@
        || symbol == "realtime"@)))
}

/// Whether a symbol of a module makes resolvers: only the installed packages count.
pub fn is_baked_resolver_origin(origin: ModuleOrigin, module: &str, symbol: &str) -> (found: bool)
    ensures
        found == is_resolver_symbol(origin, module@, symbol@),
{
    if origin != ModuleOrigin::ThirdParty {
        return false;
    }
    let common = text::same_text(symbol, "online") || text::same_text(symbol, "offline")
        || text::same_text(symbol, "resolver");
    if text::same_text(module, "chalk.features.resolver") || text::same_text(
        module,
        "chalk.features",
    ) {
        proof {
            reveal_strlit("chalk");
            reveal_strlit("chalk.features");
            reveal_strlit("chalk.features.resolver");
            assert("chalk"@.len() < "chalk.features"@.len() < "chalk.features.resolver"@.len());
        }
        common
    } else if text::same_text(module, "chalk") {
        common || text::same_text(symbol, "batch") || text::same_text(symbol, "realtime")
    } else {
        false
    }
}

/// Whether a definition is a function that makes resolvers.
pub open spec fn is_resolver_definition(db: Db, definition: Definition) -> bool {
    let data = db.definition(definition);
    &&& provenance::definition_kind(db, definition) == Some(
        CallDefinitionOriginKind::TopLevelFunction,
    )
    &&& is_resolver_symbol(
        provenance::file_owner(db, data.file),
        provenance::file_module_name(db, data.file),
        data.name@,
    )
}

/// Whether a decorator makes resolvers: everything that it may lead to does, and it leads
/// somewhere. Modules only count where it leads to no definition.
pub open spec fn makes_resolvers(db: Db, file: File, decorator: Decorator) -> bool {
    let callee = provenance::decorator_callee(decorator);
    let state = provenance::collect_callee(db, callee);
    let definitions = provenance::function_definitions(state.targets);
    let modules = provenance::decorator_modules(db, file, callee);
    if definitions.len() > 0 {
        !provenance::decorator_unresolved(state) && forall|i: int|
            0 <= i < definitions.len() ==> is_resolver_definition(db, #[trigger] definitions[i])
    } else {
        provenance::decorator_modules_complete(db, callee) && modules.len() > 0 && forall|i: int|
            0 <= i < modules.len() ==> is_resolver_symbol(
                (#[trigger] modules[i]).owner,
                modules[i].module,
                modules[i].symbol,
            )
    }
}

/// The directive that suppresses a function, from a place on.
pub open spec fn function_directive(
    entries: Seq<FunctionSuppression>,
    definition: Definition,
    at: int,
) -> Option<TextRange>
    decreases entries.len() - at,
{
    if at < 0 || at >= entries.len() {
        None
    } else if entries[at].definition == definition && entries[at].code
        == SuppressionCode::UnsupportedFunction {
        Some(entries[at].directive)
    } else {
        function_directive(entries, definition, at + 1)
    }
}

/// The directive that suppresses a statement, from a place on.
pub open spec fn statement_directive(
    entries: Seq<StatementSuppression>,
    statement: TextRange,
    at: int,
) -> Option<TextRange>
    decreases entries.len() - at,
{
    if at < 0 || at >= entries.len() {
        None
    } else if entries[at].statement == statement && entries[at].code
        == SuppressionCode::UnsupportedFunction {
        Some(entries[at].directive)
    } else {
        statement_directive(entries, statement, at + 1)
    }
}

/// The root that a statement is, if it is one.
pub open spec fn root_of(
    db: Db,
    file: File,
    entries: Seq<FunctionSuppression>,
    stmt: Stmt,
) -> Seq<ResolverRootFact> {
    match stmt.kind {
        StmtKind::Function { definition, decorators, .. } => if exists|i: int|
            0 <= i < decorators@.len() && makes_resolvers(db, file, #[trigger] decorators@[i]) {
            seq![
                ResolverRootFact {
                    definition,
                    range: stmt.range,
                    unsupported_function_suppression: function_directive(entries, definition, 0),
                },
            ]
        } else {
            Seq::empty()
        },
        _ => Seq::empty(),
    }
}

/// The roots in a part, each in front of those that it holds.
pub open spec fn roots_in(
    db: Db,
    file: File,
    entries: Seq<FunctionSuppression>,
    child: Child,
) -> Seq<ResolverRootFact>
    decreases child,
{
    match child {
        Child::Stmt(stmt) => if stmt.kind is TypeAlias {
            Seq::empty()
        } else {
            root_of(db, file, entries, stmt) + roots(db, file, entries, stmt.body@)
        },
        _ => Seq::empty(),
    }
}

/// The roots in a body.
pub open spec fn roots(
    db: Db,
    file: File,
    entries: Seq<FunctionSuppression>,
    body: Seq<Child>,
) -> Seq<ResolverRootFact>
    decreases body,
{
    if body.len() == 0 {
        Seq::empty()
    } else {
        roots(db, file, entries, body.drop_last()) + roots_in(db, file, entries, body.last())
    }
}

// ---------------------------------------------------------------------------------------------
// Calls
// ---------------------------------------------------------------------------------------------

/// A call, with the named function and the statement that it belongs to.
pub struct Site {
    pub caller: Definition,
    pub statement: TextRange,
    pub call: CallSite,
}

/// Where an expression stands: in which named function and in which statement.
#[derive(Clone, Copy, Debug)]
pub struct Context {
    pub caller: Option<Definition>,
    pub statement: Option<TextRange>,
}

/// The call that an expression is, if it stands in a named function.
pub open spec fn site_of(expr: Expr, context: Context) -> Seq<Site> {
    match (expr.kind, context.caller, context.statement) {
        (ExprKind::Call(call), Some(caller), Some(statement)) => seq![
            Site { caller, statement, call },
        ],
        _ => Seq::empty(),
    }
}

/// The calls in an expression, each in front of those that it holds; lambdas and comprehensions
/// hide theirs.
pub open spec fn sites_in_expr(expr: Expr, context: Context) -> Seq<Site>
    decreases expr,
{
    if expr.kind is Deferred {
        Seq::empty()
    } else {
        site_of(expr, context) + sites_in_exprs(expr.children@, context)
    }
}

/// The calls in expressions.
pub open spec fn sites_in_exprs(exprs: Seq<Expr>, context: Context) -> Seq<Site>
    decreases exprs,
{
    if exprs.len() == 0 {
        Seq::empty()
    } else {
        sites_in_exprs(exprs.drop_last(), context) + sites_in_expr(exprs.last(), context)
    }
}

/// The calls in a part of a body. The body of a function belongs to that function, that of a class
/// to none; what stands in front of either, annotations and type aliases are left out.
pub open spec fn sites_in(child: Child, context: Context) -> Seq<Site>
    decreases child,
{
    match child {
        Child::Stmt(stmt) => {
            let here = Context { statement: Some(stmt.range), ..context };
            match stmt.kind {
                StmtKind::Function { definition, .. } => sites(
                    stmt.body@,
                    Context { caller: Some(definition), ..here },
                ),
                StmtKind::Class => sites(stmt.body@, Context { caller: None, ..here }),
                StmtKind::TypeAlias => Seq::empty(),
                StmtKind::Other => sites_in_exprs(stmt.header@, here) + sites(stmt.body@, here),
            }
        },
        Child::Expr(expr) => sites_in_expr(expr, context),
        Child::Annotation(_) => Seq::empty(),
    }
}

/// The calls in a body.
pub open spec fn sites(body: Seq<Child>, context: Context) -> Seq<Site>
    decreases body,
{
    if body.len() == 0 {
        Seq::empty()
    } else {
        sites(body.drop_last(), context) + sites_in(body.last(), context)
    }
}

/// The argument that is observed, where it can be.
pub open spec fn observed_argument(argument: CallArgument) -> Option<Argument> {
    match argument {
        CallArgument::Positional { ty: Some(ty) } => Some(Argument::Positional(Actual::Native(ty))),
        CallArgument::Keyword { name, ty: Some(ty) } => Some(
            Argument::Keyword { name: name@, ty: Actual::Native(ty) },
        ),
        _ => None,
    }
}

/// The arguments that are observed: none if one of them is unpacked or of unknown type.
pub open spec fn observed_arguments(arguments: Seq<CallArgument>) -> Option<Seq<Argument>> {
    if forall|i: int|
        0 <= i < arguments.len() ==> observed_argument(#[trigger] arguments[i]) is Some {
        Some(Seq::new(arguments.len(), |i: int| observed_argument(arguments[i])->0))
    } else {
        None
    }
}

/// The receiver of a call.
pub open spec fn receiver_of(callee: Callee) -> Option<Type> {
    match callee {
        Callee::Attribute { receiver, .. } => receiver,
        _ => None,
    }
}

/// Everything that a call may lead to and that is known.
pub open spec fn leads(state: Collected, modules: Seq<ModuleSymbol>) -> Seq<Lead> {
    definition_leads(state.targets) + known_leads(state.known) + module_leads(modules)
}

/// The definitions that a call may lead to.
pub open spec fn definition_leads(targets: Seq<CallTarget>) -> Seq<Lead> {
    Seq::new(targets.len(), |i: int| Lead::Definition(targets[i].definition))
}

/// The known operations that a call may lead to.
pub open spec fn known_leads(known: Seq<KnownCallTarget>) -> Seq<Lead> {
    Seq::new(known.len(), |i: int| Lead::Known(known[i]))
}

/// The symbols of modules that a call may lead to.
pub open spec fn module_leads(modules: Seq<ModuleSymbol>) -> Seq<Lead> {
    Seq::new(modules.len(), |i: int| Lead::Module(modules[i]))
}

/// Keeps a result that is no match, once.
pub open spec fn with_outcome(
    found: Seq<(Target, CallNoMatchReason)>,
    outcome: Outcome,
) -> Seq<(Target, CallNoMatchReason)> {
    match outcome {
        Outcome::NoMatch { target, reason } => if found.contains((target, reason)) {
            found
        } else {
            found.push((target, reason))
        },
        _ => found,
    }
}

/// The results that are no match, each once and in order.
pub open spec fn no_matches_of(
    db: Db,
    supported: SupportedFuncs,
    leads: Seq<Lead>,
    arguments: Seq<Argument>,
    receiver: Option<Type>,
) -> Seq<(Target, CallNoMatchReason)>
    decreases leads.len(),
{
    if leads.len() == 0 {
        Seq::empty()
    } else {
        with_outcome(
            no_matches_of(db, supported, leads.drop_last(), arguments, receiver),
            call_matcher::outcome(db, supported, leads.last(), arguments, receiver),
        )
    }
}

/// What the analysis keeps of a call. Nothing is matched where the arguments cannot be observed.
pub open spec fn fact_of(
    db: Db,
    file: File,
    supported: SupportedFuncs,
    functions: Seq<FunctionSuppression>,
    statements: Seq<StatementSuppression>,
    site: Site,
) -> Fact {
    let callee = site.call.callee;
    let state = provenance::collect_callee(db, callee);
    Fact {
        caller: site.caller,
        range: site.call.range,
        targets: state.targets,
        no_matches: match observed_arguments(site.call.arguments@) {
            Some(arguments) => no_matches_of(
                db,
                supported,
                leads(state, provenance::call_modules(db, file, callee)),
                arguments,
                receiver_of(callee),
            ),
            None => Seq::empty(),
        },
        statement_suppression: statement_directive(statements, site.statement, 0),
        caller_suppression: function_directive(functions, site.caller, 0),
    }
}

/// What the analysis keeps of calls.
pub open spec fn facts_of(
    db: Db,
    file: File,
    supported: SupportedFuncs,
    functions: Seq<FunctionSuppression>,
    statements: Seq<StatementSuppression>,
    sites: Seq<Site>,
) -> Seq<Fact> {
    Seq::new(
        sites.len(),
        |i: int| fact_of(db, file, supported, functions, statements, sites[i]),
    )
}

/// Whether the facts of a file speak of what is known.
pub open spec fn facts_known(db: Db, facts: FileFacts) -> bool {
    &&& forall|i: int|
        0 <= i < facts.calls@.len() ==> db.has_definition((#[trigger] facts.calls@[i]).caller)
            && provenance::targets_known(db, facts.calls@[i].targets@)
    &&& forall|i: int|
        0 <= i < facts.resolver_roots@.len() ==> db.has_definition(
            (#[trigger] facts.resolver_roots@[i]).definition,
        )
}

/// Module level: in no function and no statement.
pub open spec fn nowhere() -> Context {
    Context { caller: None, statement: None }
}

// ---------------------------------------------------------------------------------------------
// Comparing targets
// ---------------------------------------------------------------------------------------------

fn same_identity(left: &CallMatchIdentity, right: &CallMatchIdentity) -> (same: bool)
    ensures
        same == (left@ == right@),
{
    match (left, right) {
        (CallMatchIdentity::Definition(a), CallMatchIdentity::Definition(b)) => *a == *b,
        (CallMatchIdentity::Known(a), CallMatchIdentity::Known(b)) => *a == *b,
        (
            CallMatchIdentity::ModuleSymbol { module: a, symbol: x },
            CallMatchIdentity::ModuleSymbol { module: b, symbol: y },
        ) => text::same_text(a, b) && text::same_text(x, y),
        _ => false,
    }
}

fn same_place(left: Option<FileRange>, right: Option<FileRange>) -> (same: bool)
    ensures
        same == (left == right),
{
    match (left, right) {
        (Some(a), Some(b)) => a == b,
        (None, None) => true,
        _ => false,
    }
}

fn same_parameter(left: Option<u32>, right: Option<u32>) -> (same: bool)
    ensures
        same == (left == right),
{
    match (left, right) {
        (Some(a), Some(b)) => a == b,
        (None, None) => true,
        _ => false,
    }
}

/// Whether two targets are the same.
pub fn same_target(left: &CallMatchTarget, right: &CallMatchTarget) -> (same: bool)
    ensures
        same == (left@ == right@),
{
    same_identity(&left.identity, &right.identity) && left.kind == right.kind && text::same_text(
        &left.name,
        &right.name,
    ) && text::same_text(&left.display_label, &right.display_label) && same_place(
        left.definition_range,
        right.definition_range,
    ) && same_parameter(left.receiver_parameter, right.receiver_parameter)
}

/// Whether a target is kept with a reason.
fn is_kept(
    found: &Vec<(CallMatchTarget, CallNoMatchReason)>,
    target: &CallMatchTarget,
    reason: CallNoMatchReason,
) -> (kept: bool)
    ensures
        kept == no_match_views(found@).contains((target@, reason)),
{
    let ghost views = no_match_views(found@);
    let mut i: usize = 0;
    while i < found.len()
        invariant
            i <= found@.len(),
            views == no_match_views(found@),
            forall|k: int| 0 <= k < i ==> #[trigger] views[k] != (target@, reason),
        decreases found@.len() - i,
    {
        if found[i].1 == reason && same_target(&found[i].0, target) {
            assert(views[i as int] == (target@, reason));
            return true;
        }
        i += 1;
    }
    false
}

/// Keeps a result that is no match, once.
fn record_match(found: &mut Vec<(CallMatchTarget, CallNoMatchReason)>, result: CallMatch)
    ensures
        no_match_views(final(found)@) == with_outcome(no_match_views(old(found)@), result@),
{
    let ghost views = no_match_views(found@);
    if let CallMatch::NoMatch { target, reason } = result {
        if !is_kept(found, &target, reason) {
            found.push((target, reason));
            assert(no_match_views(found@) =~= views.push((target@, reason)));
        }
    }
}

// ---------------------------------------------------------------------------------------------
// Visiting
// ---------------------------------------------------------------------------------------------

struct FactVisitor<'a> {
    model: SemanticModel<'a>,
    supported: &'a SupportedFuncs,
    suppressions: &'a Suppressions,
    resolver_roots: Vec<ResolverRootFact>,
    calls: Vec<CallFact>,
}

impl<'a> FactVisitor<'a> {
    spec fn wf(self) -> bool {
        self.model.db.wf() && self.supported.wf()
    }

    spec fn same_frame(self, other: Self) -> bool {
        &&& self.model == other.model
        &&& self.supported == other.supported
        &&& self.suppressions == other.suppressions
    }

    spec fn kept(self, sites: Seq<Site>) -> Seq<Fact> {
        facts_of(
            *self.model.db,
            self.model.file,
            *self.supported,
            self.suppressions.function@,
            self.suppressions.statement@,
            sites,
        )
    }

    spec fn roots_of(self, body: Seq<Child>) -> Seq<ResolverRootFact> {
        roots(*self.model.db, self.model.file, self.suppressions.function@, body)
    }

    fn function_suppression(&self, definition: Definition) -> (directive: Option<TextRange>)
        ensures
            directive == function_directive(self.suppressions.function@, definition, 0),
    {
        let entries = self.suppressions.function();
        let mut i: usize = 0;
        while i < entries.len()
            invariant
                i <= entries@.len(),
                *entries == self.suppressions.function,
                function_directive(entries@, definition, 0) == function_directive(
                    entries@,
                    definition,
                    i as int,
                ),
            decreases entries@.len() - i,
        {
            if entries[i].definition == definition && entries[i].code
                == SuppressionCode::UnsupportedFunction {
                return Some(entries[i].directive);
            }
            i += 1;
        }
        None
    }

    fn statement_suppression(&self, statement: TextRange) -> (directive: Option<TextRange>)
        ensures
            directive == statement_directive(self.suppressions.statement@, statement, 0),
    {
        let entries = self.suppressions.statement();
        let mut i: usize = 0;
        while i < entries.len()
            invariant
                i <= entries@.len(),
                *entries == self.suppressions.statement,
                statement_directive(entries@, statement, 0) == statement_directive(
                    entries@,
                    statement,
                    i as int,
                ),
            decreases entries@.len() - i,
        {
            if entries[i].statement == statement && entries[i].code
                == SuppressionCode::UnsupportedFunction {
                return Some(entries[i].directive);
            }
            i += 1;
        }
        None
    }

    fn is_resolver_decorator(&self, decorator: &Decorator) -> (found: bool)
        requires
            self.wf(),
            provenance::callee_wf(*self.model.db, provenance::decorator_callee(*decorator)),
        ensures
            found == makes_resolvers(*self.model.db, self.model.file, *decorator),
    {
        let found = self.model.chalk_decorator_provenance(decorator);
        let ghost callee = provenance::decorator_callee(*decorator);
        let ghost state = provenance::collect_callee(*self.model.db, callee);
        proof {
            provenance::lemma_collect_callee_known(*self.model.db, callee);
            lemma_function_definitions_known(*self.model.db, state.targets);
        }
        if found.definitions.len() > 0 {
            !found.has_unresolved && self.are_resolver_definitions(&found.definitions)
        } else {
            found.module_fallback_is_complete && found.modules.len() > 0 && are_resolver_modules(
                &found.modules,
            )
        }
    }

    fn are_resolver_definitions(&self, definitions: &Vec<Definition>) -> (all: bool)
        requires
            self.wf(),
            forall|k: int|
                0 <= k < definitions@.len() ==> self.model.db.has_definition(
                    #[trigger] definitions@[k],
                ),
        ensures
            all == forall|k: int|
                0 <= k < definitions@.len() ==> is_resolver_definition(
                    *self.model.db,
                    #[trigger] definitions@[k],
                ),
    {
        let mut i: usize = 0;
        while i < definitions.len()
            invariant
                self.wf(),
                i <= definitions@.len(),
                forall|k: int|
                    0 <= k < definitions@.len() ==> self.model.db.has_definition(
                        #[trigger] definitions@[k],
                    ),
                forall|k: int|
                    0 <= k < i ==> is_resolver_definition(
                        *self.model.db,
                        #[trigger] definitions@[k],
                    ),
            decreases definitions@.len() - i,
        {
            let definition = definitions[i];
            let resolves = match self.model.chalk_decorator_definition_origin(definition) {
                Some(origin) => is_baked_resolver_origin(
                    origin.ownership_origin,
                    &origin.module,
                    &origin.symbol,
                ),
                None => false,
            };
            if !resolves {
                assert(!is_resolver_definition(*self.model.db, definitions@[i as int]));
                return false;
            }
            i += 1;
        }
        true
    }

    /// What is kept of everything that a call may lead to.
    spec fn kept_matches(
        self,
        leads: Seq<Lead>,
        arguments: Seq<ObservedArgument<'_>>,
        receiver: Option<Type>,
    ) -> Seq<(Target, CallNoMatchReason)> {
        no_matches_of(
            *self.model.db,
            *self.supported,
            leads,
            call_matcher::observed_all(arguments),
            receiver,
        )
    }

    fn match_definitions(
        &self,
        targets: &Vec<CallTarget>,
        arguments: &Vec<ObservedArgument<'_>>,
        receiver: Option<Type>,
        no_matches: &mut Vec<(CallMatchTarget, CallNoMatchReason)>,
        Ghost(before): Ghost<Seq<Lead>>,
    )
        requires
            self.wf(),
            provenance::targets_known(*self.model.db, targets@),
            call_matcher::holds_arguments(*self.model.db, arguments@),
            call_matcher::holds_receiver(*self.model.db, receiver),
            no_match_views(old(no_matches)@) == self.kept_matches(before, arguments@, receiver),
        ensures
            no_match_views(final(no_matches)@) == self.kept_matches(
                before + definition_leads(targets@),
                arguments@,
                receiver,
            ),
    {
        let ghost added = definition_leads(targets@);
        assert(before + added.take(0) =~= before);
        let mut i: usize = 0;
        while i < targets.len()
            invariant
                self.wf(),
                provenance::targets_known(*self.model.db, targets@),
                i <= targets@.len(),
                added == definition_leads(targets@),
                call_matcher::holds_arguments(*self.model.db, arguments@),
                call_matcher::holds_receiver(*self.model.db, receiver),
                no_match_views(no_matches@) == self.kept_matches(
                    before + added.take(i as int),
                    arguments@,
                    receiver,
                ),
            decreases targets@.len() - i,
        {
            let target = targets[i];
            proof {
                let next = before + added.take(i as int + 1);
                assert(next.drop_last() =~= before + added.take(i as int));
                assert(next.last() == Lead::Definition(target.definition));
                assert(self.model.db.has_definition(targets@[i as int].definition));
            }
            let result = call_matcher::match_call_target(
                self.model.db,
                self.supported,
                ObservedCall { target: ObservedCallTarget::Resolved(target), arguments, receiver },
            );
            record_match(no_matches, result);
            i += 1;
        }
        assert(added.take(added.len() as int) =~= added);
    }

    fn match_known(
        &self,
        targets: &Vec<KnownCallTarget>,
        arguments: &Vec<ObservedArgument<'_>>,
        receiver: Option<Type>,
        no_matches: &mut Vec<(CallMatchTarget, CallNoMatchReason)>,
        Ghost(before): Ghost<Seq<Lead>>,
    )
        requires
            self.wf(),
            call_matcher::holds_arguments(*self.model.db, arguments@),
            call_matcher::holds_receiver(*self.model.db, receiver),
            no_match_views(old(no_matches)@) == self.kept_matches(before, arguments@, receiver),
        ensures
            no_match_views(final(no_matches)@) == self.kept_matches(
                before + known_leads(targets@),
                arguments@,
                receiver,
            ),
    {
        let ghost added = known_leads(targets@);
        assert(before + added.take(0) =~= before);
        let mut i: usize = 0;
        while i < targets.len()
            invariant
                self.wf(),
                i <= targets@.len(),
                added == known_leads(targets@),
                call_matcher::holds_arguments(*self.model.db, arguments@),
                call_matcher::holds_receiver(*self.model.db, receiver),
                no_match_views(no_matches@) == self.kept_matches(
                    before + added.take(i as int),
                    arguments@,
                    receiver,
                ),
            decreases targets@.len() - i,
        {
            let target = targets[i];
            proof {
                let next = before + added.take(i as int + 1);
                assert(next.drop_last() =~= before + added.take(i as int));
                assert(next.last() == Lead::Known(target));
            }
            let result = call_matcher::match_call_target(
                self.model.db,
                self.supported,
                ObservedCall { target: ObservedCallTarget::Known(target), arguments, receiver },
            );
            record_match(no_matches, result);
            i += 1;
        }
        assert(added.take(added.len() as int) =~= added);
    }

    fn match_modules(
        &self,
        targets: &Vec<CallModuleProvenance>,
        arguments: &Vec<ObservedArgument<'_>>,
        receiver: Option<Type>,
        no_matches: &mut Vec<(CallMatchTarget, CallNoMatchReason)>,
        Ghost(before): Ghost<Seq<Lead>>,
    )
        requires
            self.wf(),
            call_matcher::holds_arguments(*self.model.db, arguments@),
            call_matcher::holds_receiver(*self.model.db, receiver),
            no_match_views(old(no_matches)@) == self.kept_matches(before, arguments@, receiver),
        ensures
            no_match_views(final(no_matches)@) == self.kept_matches(
                before + module_leads(provenance::call_symbols(targets@)),
                arguments@,
                receiver,
            ),
    {
        let ghost added = module_leads(provenance::call_symbols(targets@));
        assert(before + added.take(0) =~= before);
        let mut i: usize = 0;
        while i < targets.len()
            invariant
                self.wf(),
                i <= targets@.len(),
                added == module_leads(provenance::call_symbols(targets@)),
                call_matcher::holds_arguments(*self.model.db, arguments@),
                call_matcher::holds_receiver(*self.model.db, receiver),
                no_match_views(no_matches@) == self.kept_matches(
                    before + added.take(i as int),
                    arguments@,
                    receiver,
                ),
            decreases targets@.len() - i,
        {
            let target = &targets[i];
            proof {
                let next = before + added.take(i as int + 1);
                assert(next.drop_last() =~= before + added.take(i as int));
                assert(next.last() == Lead::Module(target.symbol_view()));
            }
            let result = call_matcher::match_call_target(
                self.model.db,
                self.supported,
                ObservedCall { target: ObservedCallTarget::ModuleProvenance(target), arguments, receiver },
            );
            record_match(no_matches, result);
            i += 1;
        }
        assert(added.take(added.len() as int) =~= added);
    }

    fn visit_call(&mut self, call: &CallSite, context: Context)
        requires
            old(self).wf(),
            syntax::call_known(*old(self).model.db, *call),
        ensures
            final(self).same_frame(*old(self)),
            final(self).resolver_roots@ == old(self).resolver_roots@,
            fact_views(final(self).calls@) == fact_views(old(self).calls@) + match (
                context.caller,
                context.statement,
            ) {
                (Some(caller), Some(statement)) => old(self).kept(
                    seq![Site { caller, statement, call: *call }],
                ),
                _ => Seq::empty(),
            },
    {
        let (caller, statement) = match (context.caller, context.statement) {
            (Some(caller), Some(statement)) => (caller, statement),
            _ => {
                assert(fact_views(self.calls@) + Seq::<Fact>::empty() =~= fact_views(self.calls@));
                return ;
            },
        };
        let db = self.model.db;
        let targets = self.model.chalk_call_targets(&call.callee);
        let modules = self.model.chalk_call_module_provenance(&call.callee);
        let ghost state = provenance::collect_callee(*db, call.callee);
        let ghost all = leads(state, provenance::call_symbols(modules@));
        proof {
            provenance::lemma_collect_callee_known(*db, call.callee);
        }
        let mut no_matches: Vec<(CallMatchTarget, CallNoMatchReason)> = Vec::new();
        assert(no_match_views(no_matches@) =~= Seq::empty());
        if let Some(arguments) = call_arguments(db, &call.arguments) {
            let receiver = match &call.callee {
                Callee::Attribute { receiver, .. } => *receiver,
                _ => None,
            };
            let ghost none = Seq::<Lead>::empty();
            let ghost first = definition_leads(targets.targets@);
            let ghost second = known_leads(targets.known_targets@);
            let ghost third = module_leads(provenance::call_symbols(modules@));
            self.match_definitions(&targets.targets, &arguments, receiver, &mut no_matches, Ghost(none));
            self.match_known(
                &targets.known_targets,
                &arguments,
                receiver,
                &mut no_matches,
                Ghost(none + first),
            );
            self.match_modules(
                &modules,
                &arguments,
                receiver,
                &mut no_matches,
                Ghost(none + first + second),
            );
            assert(none + first + second + third =~= all);
        }
        let fact = CallFact {
            caller,
            range: call.range,
            targets: targets.targets,
            no_matches,
            unsupported_function_statement_suppression: self.statement_suppression(statement),
            unsupported_function_caller_suppression: self.function_suppression(caller),
        };
        let ghost before = self.calls@;
        self.calls.push(fact);
        proof {
            let site = Site { caller, statement, call: *call };
            assert(self.kept(seq![site])[0] == fact@);
            assert(fact_views(self.calls@) =~= fact_views(before) + self.kept(seq![site]));
        }
    }
}

impl<'a> FactVisitor<'a> {
    fn visit_expr(&mut self, expr: &Expr, context: Context)
        requires
            old(self).wf(),
            syntax::expr_known(*old(self).model.db, *expr),
        ensures
            final(self).same_frame(*old(self)),
            final(self).resolver_roots@ == old(self).resolver_roots@,
            fact_views(final(self).calls@) == fact_views(old(self).calls@) + old(self).kept(
                sites_in_expr(*expr, context),
            ),
        decreases expr, 0int,
    {
        let ghost before = fact_views(self.calls@);
        match &expr.kind {
            ExprKind::Deferred => {
                assert(before + self.kept(Seq::empty()) =~= before);
                return ;
            },
            ExprKind::Call(call) => {
                self.visit_call(call, context);
            },
            ExprKind::Other => {},
        }
        let ghost here = site_of(*expr, context);
        let ghost inner = sites_in_exprs(expr.children@, context);
        assert(fact_views(self.calls@) =~= before + self.kept(here));
        proof {
            assert(decreases_to!(*expr => expr.children));
        }
        self.visit_exprs(&expr.children, context);
        assert(self.kept(here) + self.kept(inner) =~= self.kept(here + inner));
        assert(fact_views(self.calls@) =~= before + (self.kept(here) + self.kept(inner)));
    }

    fn visit_exprs(&mut self, exprs: &Vec<Expr>, context: Context)
        requires
            old(self).wf(),
            forall|i: int|
                0 <= i < exprs@.len() ==> syntax::expr_known(
                    *old(self).model.db,
                    #[trigger] exprs@[i],
                ),
        ensures
            final(self).same_frame(*old(self)),
            final(self).resolver_roots@ == old(self).resolver_roots@,
            fact_views(final(self).calls@) == fact_views(old(self).calls@) + old(self).kept(
                sites_in_exprs(exprs@, context),
            ),
        decreases exprs, 0int,
    {
        let ghost before = fact_views(self.calls@);
        let mut i: usize = 0;
        assert(before + self.kept(Seq::empty()) =~= before);
        while i < exprs.len()
            invariant
                self.wf(),
                self.same_frame(*old(self)),
                self.resolver_roots@ == old(self).resolver_roots@,
                i <= exprs@.len(),
                forall|k: int|
                    0 <= k < exprs@.len() ==> syntax::expr_known(
                        *self.model.db,
                        #[trigger] exprs@[k],
                    ),
                fact_views(self.calls@) == before + self.kept(
                    sites_in_exprs(exprs@.take(i as int), context),
                ),
            decreases exprs@.len() - i,
        {
            let ghost done = sites_in_exprs(exprs@.take(i as int), context);
            let ghost next = sites_in_expr(exprs@[i as int], context);
            proof {
                assert(exprs@.take(i as int + 1).drop_last() =~= exprs@.take(i as int));
                assert(decreases_to!(*exprs => exprs@[i as int]));
            }
            self.visit_expr(&exprs[i], context);
            assert(self.kept(done) + self.kept(next) =~= self.kept(done + next));
            assert(fact_views(self.calls@) =~= before + (self.kept(done) + self.kept(next)));
            i += 1;
        }
        assert(exprs@.take(exprs@.len() as int) =~= exprs@);
    }

    /// Keeps a function that is a resolver root.
    fn visit_decorators(&mut self, stmt: &Stmt)
        requires
            old(self).wf(),
            syntax::kind_known(*old(self).model.db, stmt.kind),
        ensures
            final(self).same_frame(*old(self)),
            final(self).calls@ == old(self).calls@,
            final(self).resolver_roots@ == old(self).resolver_roots@ + root_of(
                *old(self).model.db,
                old(self).model.file,
                old(self).suppressions.function@,
                *stmt,
            ),
    {
        match &stmt.kind {
            StmtKind::Function { definition, decorators, .. } => {
                let mut i: usize = 0;
                while i < decorators.len()
                    invariant
                        *self == *old(self),
                        self.wf(),
                        i <= decorators@.len(),
                        forall|k: int|
                            0 <= k < decorators@.len() ==> provenance::callee_wf(
                                *self.model.db,
                                provenance::decorator_callee(#[trigger] decorators@[k]),
                            ),
                        forall|k: int|
                            0 <= k < i ==> !makes_resolvers(
                                *self.model.db,
                                self.model.file,
                                #[trigger] decorators@[k],
                            ),
                        stmt.kind matches StmtKind::Function {
                            definition: d,
                            decorators: all,
                            ..
                        } && d == *definition && all == *decorators,
                    decreases decorators@.len() - i,
                {
                    if self.is_resolver_decorator(&decorators[i]) {
                        let root = ResolverRootFact {
                            definition: *definition,
                            range: stmt.range,
                            unsupported_function_suppression: self.function_suppression(
                                *definition,
                            ),
                        };
                        self.resolver_roots.push(root);
                        assert(self.resolver_roots@ =~= old(self).resolver_roots@ + seq![root]);
                        return ;
                    }
                    i += 1;
                }
            },
            _ => {},
        }
        assert(self.resolver_roots@ =~= old(self).resolver_roots@ + Seq::<
            ResolverRootFact,
        >::empty());
    }

    fn visit_stmt(&mut self, stmt: &Stmt, context: Context)
        requires
            old(self).wf(),
            syntax::known(*old(self).model.db, Child::Stmt(*stmt)),
        ensures
            final(self).same_frame(*old(self)),
            final(self).resolver_roots@ == old(self).resolver_roots@ + roots_in(
                *old(self).model.db,
                old(self).model.file,
                old(self).suppressions.function@,
                Child::Stmt(*stmt),
            ),
            fact_views(final(self).calls@) == fact_views(old(self).calls@) + old(self).kept(
                sites_in(Child::Stmt(*stmt), context),
            ),
        decreases stmt, 0int,
    {
        let ghost before = fact_views(self.calls@);
        let ghost found = self.resolver_roots@;
        proof {
            assert(decreases_to!(*stmt => stmt.body));
            assert(before + self.kept(Seq::empty()) =~= before);
            assert(found + Seq::<ResolverRootFact>::empty() =~= found);
        }
        let here = Context { caller: context.caller, statement: Some(stmt.range) };
        match &stmt.kind {
            StmtKind::TypeAlias => {},
            StmtKind::Function { definition, .. } => {
                self.visit_decorators(stmt);
                self.visit_body(
                    &stmt.body,
                    Context { caller: Some(*definition), statement: here.statement },
                );
            },
            StmtKind::Class => {
                self.visit_body(&stmt.body, Context { caller: None, statement: here.statement });
            },
            StmtKind::Other => {
                let ghost first = sites_in_exprs(stmt.header@, here);
                let ghost second = sites(stmt.body@, here);
                self.visit_exprs(&stmt.header, here);
                self.visit_body(&stmt.body, here);
                assert(self.kept(first) + self.kept(second) =~= self.kept(first + second));
                assert(fact_views(self.calls@) =~= before + (self.kept(first) + self.kept(second)));
            },
        }
        assert(self.resolver_roots@ =~= found + roots_in(
            *self.model.db,
            self.model.file,
            self.suppressions.function@,
            Child::Stmt(*stmt),
        ));
    }

    fn visit_body(&mut self, body: &Vec<Child>, context: Context)
        requires
            old(self).wf(),
            syntax::all_known(*old(self).model.db, body@),
        ensures
            final(self).same_frame(*old(self)),
            final(self).resolver_roots@ == old(self).resolver_roots@ + old(self).roots_of(body@),
            fact_views(final(self).calls@) == fact_views(old(self).calls@) + old(self).kept(
                sites(body@, context),
            ),
        decreases body, 0int,
    {
        let ghost before = fact_views(self.calls@);
        let ghost found = self.resolver_roots@;
        let mut i: usize = 0;
        assert(before + self.kept(Seq::empty()) =~= before);
        assert(found + Seq::<ResolverRootFact>::empty() =~= found);
        while i < body.len()
            invariant
                self.wf(),
                self.same_frame(*old(self)),
                i <= body@.len(),
                syntax::all_known(*self.model.db, body@),
                fact_views(self.calls@) == before + self.kept(
                    sites(body@.take(i as int), context),
                ),
                self.resolver_roots@ == found + self.roots_of(body@.take(i as int)),
            decreases body@.len() - i,
        {
            let ghost done = sites(body@.take(i as int), context);
            let ghost next = sites_in(body@[i as int], context);
            let ghost known_roots = self.roots_of(body@.take(i as int));
            let ghost next_roots = roots_in(
                *self.model.db,
                self.model.file,
                self.suppressions.function@,
                body@[i as int],
            );
            proof {
                assert(body@.take(i as int + 1).drop_last() =~= body@.take(i as int));
                assert(syntax::known(*self.model.db, body@[i as int]));
                assert(decreases_to!(*body => body@[i as int]));
            }
            match &body[i] {
                Child::Stmt(stmt) => {
                    proof {
                        assert(decreases_to!(body@[i as int] => *stmt));
                    }
                    self.visit_stmt(stmt, context);
                },
                Child::Expr(expr) => {
                    self.visit_expr(expr, context);
                },
                Child::Annotation(_) => {},
            }
            assert(self.kept(done) + self.kept(next) =~= self.kept(done + next));
            assert(fact_views(self.calls@) =~= before + (self.kept(done) + self.kept(next)));
            assert(self.resolver_roots@ =~= found + (known_roots + next_roots));
            i += 1;
        }
        assert(body@.take(body@.len() as int) =~= body@);
    }
}

impl FileFacts {
    /// Whether these are the facts of a file.
    pub open spec fn of(
        self,
        db: Db,
        file: File,
        supported: SupportedFuncs,
        source: Seq<u8>,
        comments: Seq<TextRange>,
        body: Seq<Child>,
    ) -> bool {
        let directives = suppression::directives_of(source, comments);
        let stmts = syntax::statements(body);
        let functions = suppression::function_entries(source, directives, stmts);
        let statements = suppression::with_statements(source, directives, stmts, Seq::empty());
        &&& self.resolver_roots@ == roots(db, file, functions, body)
        &&& fact_views(self.calls@) == facts_of(
            db,
            file,
            supported,
            functions,
            statements,
            sites(body, nowhere()),
        )
        &&& self.suppression_problems@ == suppression::all_problems(source, comments)
    }

    pub fn resolver_roots(&self) -> (roots: &Vec<ResolverRootFact>)
        ensures
            *roots == self.resolver_roots,
    {
        &self.resolver_roots
    }

    pub fn calls(&self) -> (calls: &Vec<CallFact>)
        ensures
            *calls == self.calls,
    {
        &self.calls
    }

    pub fn suppression_problems(&self) -> (problems: &Vec<SuppressionProblem>)
        ensures
            *problems == self.suppression_problems,
    {
        &self.suppression_problems
    }
}

/// Extracts the facts of a file, in source order.
pub fn extract_file_facts(
    db: &Db,
    file: File,
    supported: &SupportedFuncs,
    source: &str,
    comments: &Vec<TextRange>,
    body: &Vec<Child>,
) -> (facts: FileFacts)
    requires
        db.wf(),
        supported.wf(),
        suppression::utf8(source@).len() <= u32::MAX,
        suppression::comments_placed(comments@, suppression::utf8(source@).len()),
        syntax::all_placed(body@, suppression::utf8(source@).len()),
        syntax::all_known(*db, body@),
    ensures
        facts.of(*db, file, *supported, suppression::utf8(source@), comments@, body@),
        facts_known(*db, facts),
{
    let suppressions = suppression::extract_suppressions(source, comments, body);
    let mut visitor = FactVisitor {
        model: SemanticModel { db, file },
        supported,
        suppressions: &suppressions,
        resolver_roots: Vec::new(),
        calls: Vec::new(),
    };
    visitor.visit_body(body, Context { caller: None, statement: None });
    assert(fact_views(Seq::empty()) =~= Seq::empty());
    assert(fact_views(visitor.calls@) =~= visitor.kept(sites(body@, nowhere())));
    assert(visitor.resolver_roots@ =~= visitor.roots_of(body@));
    proof {
        lemma_sites_known(*db, body@, nowhere());
        lemma_roots_known(*db, file, suppressions.function@, body@);
        let all = sites(body@, nowhere());
        assert forall|i: int| 0 <= i < visitor.calls@.len() implies db.has_definition(
            (#[trigger] visitor.calls@[i]).caller,
        ) && provenance::targets_known(*db, visitor.calls@[i].targets@) by {
            let view = fact_views(visitor.calls@)[i];
            assert(view == visitor.kept(all)[i]);
            assert(site_known(*db, all[i]));
            provenance::lemma_collect_callee_known(*db, all[i].call.callee);
        }
    }
    let resolver_roots = visitor.resolver_roots;
    let calls = visitor.calls;
    FileFacts { resolver_roots, calls, suppression_problems: suppressions.problems }
}

/// Whether what a call mentions is known.
spec fn site_known(db: Db, site: Site) -> bool {
    db.has_definition(site.caller) && syntax::call_known(db, site.call)
}

spec fn sites_known(db: Db, sites: Seq<Site>) -> bool {
    forall|i: int| 0 <= i < sites.len() ==> site_known(db, #[trigger] sites[i])
}

spec fn context_known(db: Db, context: Context) -> bool {
    context.caller matches Some(caller) ==> db.has_definition(caller)
}

proof fn lemma_sites_join(db: Db, first: Seq<Site>, second: Seq<Site>)
    requires
        sites_known(db, first),
        sites_known(db, second),
    ensures
        sites_known(db, first + second),
{
    assert forall|i: int| 0 <= i < (first + second).len() implies site_known(
        db,
        #[trigger] (first + second)[i],
    ) by {
        if i < first.len() {
            assert(site_known(db, first[i]));
        } else {
            assert(site_known(db, second[i - first.len()]));
        }
    }
}

proof fn lemma_expr_sites_known(db: Db, expr: Expr, context: Context)
    requires
        syntax::expr_known(db, expr),
        context_known(db, context),
    ensures
        sites_known(db, sites_in_expr(expr, context)),
    decreases expr,
{
    if !(expr.kind is Deferred) {
        lemma_exprs_sites_known(db, expr.children@, context);
        lemma_sites_join(db, site_of(expr, context), sites_in_exprs(expr.children@, context));
    }
}

proof fn lemma_exprs_sites_known(db: Db, exprs: Seq<Expr>, context: Context)
    requires
        forall|i: int| 0 <= i < exprs.len() ==> syntax::expr_known(db, #[trigger] exprs[i]),
        context_known(db, context),
    ensures
        sites_known(db, sites_in_exprs(exprs, context)),
    decreases exprs,
{
    if exprs.len() > 0 {
        lemma_exprs_sites_known(db, exprs.drop_last(), context);
        assert(syntax::expr_known(db, exprs[exprs.len() - 1]));
        lemma_expr_sites_known(db, exprs.last(), context);
        lemma_sites_join(
            db,
            sites_in_exprs(exprs.drop_last(), context),
            sites_in_expr(exprs.last(), context),
        );
    }
}

proof fn lemma_child_sites_known(db: Db, child: Child, context: Context)
    requires
        syntax::known(db, child),
        context_known(db, context),
    ensures
        sites_known(db, sites_in(child, context)),
    decreases child,
{
    match child {
        Child::Stmt(stmt) => {
            let here = Context { statement: Some(stmt.range), ..context };
            match stmt.kind {
                StmtKind::Function { definition, .. } => {
                    lemma_sites_known(
                        db,
                        stmt.body@,
                        Context { caller: Some(definition), ..here },
                    );
                },
                StmtKind::Class => {
                    lemma_sites_known(db, stmt.body@, Context { caller: None, ..here });
                },
                StmtKind::TypeAlias => {},
                StmtKind::Other => {
                    lemma_exprs_sites_known(db, stmt.header@, here);
                    lemma_sites_known(db, stmt.body@, here);
                    lemma_sites_join(
                        db,
                        sites_in_exprs(stmt.header@, here),
                        sites(stmt.body@, here),
                    );
                },
            }
        },
        Child::Expr(expr) => {
            lemma_expr_sites_known(db, expr, context);
        },
        Child::Annotation(_) => {},
    }
}

proof fn lemma_sites_known(db: Db, body: Seq<Child>, context: Context)
    requires
        syntax::all_known(db, body),
        context_known(db, context),
    ensures
        sites_known(db, sites(body, context)),
    decreases body,
{
    if body.len() > 0 {
        lemma_sites_known(db, body.drop_last(), context);
        assert(syntax::known(db, body[body.len() - 1]));
        lemma_child_sites_known(db, body.last(), context);
        lemma_sites_join(db, sites(body.drop_last(), context), sites_in(body.last(), context));
    }
}

spec fn roots_known(db: Db, roots: Seq<ResolverRootFact>) -> bool {
    forall|i: int| 0 <= i < roots.len() ==> db.has_definition((#[trigger] roots[i]).definition)
}

proof fn lemma_child_roots_known(
    db: Db,
    file: File,
    entries: Seq<FunctionSuppression>,
    child: Child,
)
    requires
        syntax::known(db, child),
    ensures
        roots_known(db, roots_in(db, file, entries, child)),
    decreases child,
{
    if let Child::Stmt(stmt) = child {
        if !(stmt.kind is TypeAlias) {
            lemma_roots_known(db, file, entries, stmt.body@);
        }
    }
}

proof fn lemma_roots_known(
    db: Db,
    file: File,
    entries: Seq<FunctionSuppression>,
    body: Seq<Child>,
)
    requires
        syntax::all_known(db, body),
    ensures
        roots_known(db, roots(db, file, entries, body)),
    decreases body,
{
    if body.len() > 0 {
        lemma_roots_known(db, file, entries, body.drop_last());
        assert(syntax::known(db, body[body.len() - 1]));
        lemma_child_roots_known(db, file, entries, body.last());
    }
}

fn are_resolver_modules(modules: &Vec<DecoratorModuleProvenance>) -> (all: bool)
    ensures
        ({
            let symbols = provenance::decorator_symbols(modules@);
            all == forall|k: int|
                0 <= k < symbols.len() ==> is_resolver_symbol(
                    (#[trigger] symbols[k]).owner,
                    symbols[k].module,
                    symbols[k].symbol,
                )
        }),
{
    let ghost symbols = provenance::decorator_symbols(modules@);
    let mut i: usize = 0;
    while i < modules.len()
        invariant
            i <= modules@.len(),
            symbols == provenance::decorator_symbols(modules@),
            forall|k: int|
                0 <= k < i ==> is_resolver_symbol(
                    (#[trigger] symbols[k]).owner,
                    symbols[k].module,
                    symbols[k].symbol,
                ),
        decreases modules@.len() - i,
    {
        let origin = &modules[i];
        assert(symbols[i as int] == origin.symbol_view());
        if !is_baked_resolver_origin(origin.ownership_origin, &origin.module, &origin.symbol) {
            return false;
        }
        i += 1;
    }
    true
}

proof fn lemma_function_definitions_known(db: Db, targets: Seq<CallTarget>)
    requires
        provenance::targets_known(db, targets),
    ensures
        forall|i: int|
            0 <= i < provenance::function_definitions(targets).len() ==> db.has_definition(
                #[trigger] provenance::function_definitions(targets)[i],
            ),
    decreases targets.len(),
{
    if targets.len() > 0 {
        let before = provenance::function_definitions(targets.drop_last());
        let all = provenance::function_definitions(targets);
        lemma_function_definitions_known(db, targets.drop_last());
        assert forall|i: int| 0 <= i < all.len() implies db.has_definition(#[trigger] all[i]) by {
            if i < before.len() {
                assert(all[i] == before[i]);
            } else {
                assert(targets.last() == targets[targets.len() - 1]);
            }
        }
    }
}

/// The arguments of a call, if all of them can be observed.
fn call_arguments<'a>(db: &Db, arguments: &'a Vec<CallArgument>) -> (found: Option<
    Vec<ObservedArgument<'a>>,
>)
    requires
        forall|i: int|
            0 <= i < arguments@.len() ==> syntax::argument_known(*db, #[trigger] arguments@[i]),
    ensures
        match found {
            Some(found) => observed_arguments(arguments@) == Some(
                call_matcher::observed_all(found@),
            ) && call_matcher::holds_arguments(*db, found@),
            None => observed_arguments(arguments@) is None,
        },
{
    let mut found: Vec<ObservedArgument<'a>> = Vec::new();
    let mut i: usize = 0;
    while i < arguments.len()
        invariant
            i <= arguments@.len(),
            found@.len() == i,
            forall|k: int|
                0 <= k < arguments@.len() ==> syntax::argument_known(*db, #[trigger] arguments@[k]),
            forall|k: int|
                0 <= k < i ==> observed_argument(#[trigger] arguments@[k]) == Some(
                    call_matcher::observed(found@[k]),
                ),
            call_matcher::holds_arguments(*db, found@),
        decreases arguments@.len() - i,
    {
        assert(syntax::argument_known(*db, arguments@[i as int]));
        match &arguments[i] {
            CallArgument::Positional { ty: Some(ty) } => {
                found.push(ObservedArgument::Positional(*ty));
            },
            CallArgument::Keyword { name, ty: Some(ty) } => {
                found.push(ObservedArgument::Keyword { name: name.as_str(), ty: *ty });
            },
            _ => {
                assert(observed_argument(arguments@[i as int]) is None);
                return None;
            },
        }
        i += 1;
    }
    assert(call_matcher::observed_all(found@) =~= Seq::new(
        arguments@.len(),
        |k: int| observed_argument(arguments@[k])->0,
    ));
    Some(found)
}

} // verus!

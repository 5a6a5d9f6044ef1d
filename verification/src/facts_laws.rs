//! What holds of the facts of every file.

use vstd::prelude::*;

use crate::call_matcher::{Argument, Lead};
use crate::chalk::ModuleOrigin;
use crate::facts;
use crate::facts::{Context, Site};
use crate::provenance;
use crate::provenance::Decorator;
use crate::semantic::{Db, Definition, File, Type};
use crate::supported_functions::SupportedFuncs;
use crate::suppression::{FunctionSuppression, StatementSuppression};
use crate::syntax;
use crate::syntax::{Child, Expr, Stmt, StmtKind};
use crate::text::TextRange;

verus! {

/// A decorator that makes resolvers leads somewhere, and everything that it leads to belongs to an
/// installed package: a module of the project with the same name makes none.
pub proof fn law_only_installed_packages_make_resolvers(db: Db, file: File, decorator: Decorator)
    requires
        facts::makes_resolvers(db, file, decorator),
    ensures
        ({
            let callee = provenance::decorator_callee(decorator);
            let state = provenance::collect_callee(db, callee);
            let definitions = provenance::function_definitions(state.targets);
            let modules = provenance::decorator_modules(db, file, callee);
            &&& definitions.len() > 0 || modules.len() > 0
            &&& forall|i: int|
                0 <= i < definitions.len() ==> provenance::file_owner(
                    db,
                    db.definition(#[trigger] definitions[i]).file,
                ) == ModuleOrigin::ThirdParty
            &&& definitions.len() == 0 ==> forall|i: int|
                0 <= i < modules.len() ==> (#[trigger] modules[i]).owner
                    == ModuleOrigin::ThirdParty
        }),
{
    let callee = provenance::decorator_callee(decorator);
    let state = provenance::collect_callee(db, callee);
    let definitions = provenance::function_definitions(state.targets);
    assert forall|i: int| 0 <= i < definitions.len() implies provenance::file_owner(
        db,
        db.definition(#[trigger] definitions[i]).file,
    ) == ModuleOrigin::ThirdParty by {
        assert(facts::is_resolver_definition(db, definitions[i]));
    }
}

/// A call with an argument that is unpacked, or whose type is not known, is never held against the
/// registry.
pub proof fn law_unobserved_arguments_hide_the_call(
    db: Db,
    file: File,
    supported: SupportedFuncs,
    functions: Seq<FunctionSuppression>,
    statements: Seq<StatementSuppression>,
    site: Site,
    i: int,
)
    requires
        0 <= i < site.call.arguments@.len(),
        facts::observed_argument(site.call.arguments@[i]) is None,
    ensures
        facts::fact_of(db, file, supported, functions, statements, site).no_matches.len() == 0,
{
}

/// No target is listed twice with the same reason.
pub proof fn law_no_matches_are_distinct(
    db: Db,
    supported: SupportedFuncs,
    leads: Seq<Lead>,
    arguments: Seq<Argument>,
    receiver: Option<Type>,
)
    ensures
        facts::no_matches_of(db, supported, leads, arguments, receiver).no_duplicates(),
    decreases leads.len(),
{
    if leads.len() > 0 {
        law_no_matches_are_distinct(db, supported, leads.drop_last(), arguments, receiver);
    }
}

// ---------------------------------------------------------------------------------------------
// Where calls belong
// ---------------------------------------------------------------------------------------------

/// Whether a function is defined by one of some statements.
pub open spec fn defines(stmts: Seq<Stmt>, caller: Definition) -> bool {
    exists|i: int|
        0 <= i < stmts.len() && ((#[trigger] stmts[i]).kind matches StmtKind::Function {
            definition,
            ..
        } && definition == caller)
}

/// Whether a range is that of one of some statements.
pub open spec fn has_range(stmts: Seq<Stmt>, range: TextRange) -> bool {
    exists|i: int| 0 <= i < stmts.len() && (#[trigger] stmts[i]).range == range
}

spec fn belongs(stmts: Seq<Stmt>, context: Context, site: Site) -> bool {
    &&& context.caller == Some(site.caller) || defines(stmts, site.caller)
    &&& context.statement == Some(site.statement) || has_range(stmts, site.statement)
}

spec fn all_belong(stmts: Seq<Stmt>, context: Context, sites: Seq<Site>) -> bool {
    forall|i: int| 0 <= i < sites.len() ==> belongs(stmts, context, #[trigger] sites[i])
}

proof fn lemma_belong_join(
    left: Seq<Stmt>,
    right: Seq<Stmt>,
    context: Context,
    first: Seq<Site>,
    second: Seq<Site>,
)
    requires
        all_belong(left, context, first),
        all_belong(right, context, second),
    ensures
        all_belong(left + right, context, first + second),
{
    let stmts = left + right;
    assert forall|i: int| 0 <= i < (first + second).len() implies belongs(
        stmts,
        context,
        #[trigger] (first + second)[i],
    ) by {
        if i < first.len() {
            let site = first[i];
            assert(belongs(left, context, site));
            if defines(left, site.caller) {
                let k = choose|k: int|
                    0 <= k < left.len() && ((#[trigger] left[k]).kind matches StmtKind::Function {
                        definition,
                        ..
                    } && definition == site.caller);
                assert(stmts[k] == left[k]);
            }
            if has_range(left, site.statement) {
                let k = choose|k: int|
                    0 <= k < left.len() && (#[trigger] left[k]).range == site.statement;
                assert(stmts[k] == left[k]);
            }
        } else {
            let site = second[i - first.len()];
            assert(belongs(right, context, site));
            if defines(right, site.caller) {
                let k = choose|k: int|
                    0 <= k < right.len() && ((#[trigger] right[k]).kind matches
                        StmtKind::Function { definition, .. } && definition == site.caller);
                assert(stmts[left.len() + k] == right[k]);
            }
            if has_range(right, site.statement) {
                let k = choose|k: int|
                    0 <= k < right.len() && (#[trigger] right[k]).range == site.statement;
                assert(stmts[left.len() + k] == right[k]);
            }
        }
    }
}

proof fn lemma_expr_belongs(expr: Expr, context: Context)
    ensures
        all_belong(Seq::empty(), context, facts::sites_in_expr(expr, context)),
    decreases expr,
{
    if !(expr.kind is Deferred) {
        lemma_exprs_belong(expr.children@, context);
        lemma_belong_join(
            Seq::empty(),
            Seq::empty(),
            context,
            facts::site_of(expr, context),
            facts::sites_in_exprs(expr.children@, context),
        );
        assert(Seq::<Stmt>::empty() + Seq::empty() =~= Seq::empty());
    }
}

proof fn lemma_exprs_belong(exprs: Seq<Expr>, context: Context)
    ensures
        all_belong(Seq::empty(), context, facts::sites_in_exprs(exprs, context)),
    decreases exprs,
{
    if exprs.len() > 0 {
        lemma_exprs_belong(exprs.drop_last(), context);
        lemma_expr_belongs(exprs.last(), context);
        lemma_belong_join(
            Seq::empty(),
            Seq::empty(),
            context,
            facts::sites_in_exprs(exprs.drop_last(), context),
            facts::sites_in_expr(exprs.last(), context),
        );
        assert(Seq::<Stmt>::empty() + Seq::empty() =~= Seq::empty());
    }
}

/// What belongs to the body of a statement belongs to the statement.
proof fn lemma_belong_outside(
    stmt: Stmt,
    inner: Seq<Stmt>,
    context: Context,
    here: Context,
    sites: Seq<Site>,
)
    requires
        all_belong(inner, here, sites),
        here.statement == Some(stmt.range),
        here.caller == context.caller || here.caller is None || (stmt.kind matches
            StmtKind::Function { definition, .. } && here.caller == Some(definition)),
    ensures
        all_belong(seq![stmt] + inner, context, sites),
{
    let stmts = seq![stmt] + inner;
    assert(stmts[0] == stmt);
    assert forall|i: int| 0 <= i < sites.len() implies belongs(
        stmts,
        context,
        #[trigger] sites[i],
    ) by {
        let site = sites[i];
        assert(belongs(inner, here, site));
        if defines(inner, site.caller) {
            let k = choose|k: int|
                0 <= k < inner.len() && ((#[trigger] inner[k]).kind matches StmtKind::Function {
                    definition,
                    ..
                } && definition == site.caller);
            assert(stmts[k + 1] == inner[k]);
        }
        if has_range(inner, site.statement) {
            let k = choose|k: int|
                0 <= k < inner.len() && (#[trigger] inner[k]).range == site.statement;
            assert(stmts[k + 1] == inner[k]);
        }
    }
}

proof fn lemma_child_belongs(child: Child, context: Context)
    ensures
        all_belong(syntax::statements_of(child), context, facts::sites_in(child, context)),
    decreases child,
{
    match child {
        Child::Stmt(stmt) => {
            let here = Context { statement: Some(stmt.range), ..context };
            let inner = syntax::statements(stmt.body@);
            match stmt.kind {
                StmtKind::Function { definition, .. } => {
                    let inside = Context { caller: Some(definition), ..here };
                    lemma_body_belongs(stmt.body@, inside);
                    lemma_belong_outside(
                        stmt,
                        inner,
                        context,
                        inside,
                        facts::sites(stmt.body@, inside),
                    );
                },
                StmtKind::Class => {
                    let inside = Context { caller: None, ..here };
                    lemma_body_belongs(stmt.body@, inside);
                    lemma_belong_outside(
                        stmt,
                        inner,
                        context,
                        inside,
                        facts::sites(stmt.body@, inside),
                    );
                },
                StmtKind::TypeAlias => {},
                StmtKind::Other => {
                    let first = facts::sites_in_exprs(stmt.header@, here);
                    let second = facts::sites(stmt.body@, here);
                    lemma_exprs_belong(stmt.header@, here);
                    lemma_body_belongs(stmt.body@, here);
                    lemma_belong_join(Seq::empty(), inner, here, first, second);
                    assert(Seq::<Stmt>::empty() + inner =~= inner);
                    lemma_belong_outside(stmt, inner, context, here, first + second);
                },
            }
        },
        Child::Expr(expr) => {
            lemma_expr_belongs(expr, context);
        },
        Child::Annotation(_) => {},
    }
}

proof fn lemma_body_belongs(body: Seq<Child>, context: Context)
    ensures
        all_belong(syntax::statements(body), context, facts::sites(body, context)),
    decreases body,
{
    if body.len() > 0 {
        lemma_body_belongs(body.drop_last(), context);
        lemma_child_belongs(body.last(), context);
        lemma_belong_join(
            syntax::statements(body.drop_last()),
            syntax::statements_of(body.last()),
            context,
            facts::sites(body.drop_last(), context),
            facts::sites_in(body.last(), context),
        );
    }
}

/// Every call that is kept belongs to a named function of the file and to one of its statements:
/// calls at module level and in class bodies are left out.
pub proof fn law_calls_belong_to_functions(body: Seq<Child>, i: int)
    requires
        0 <= i < facts::sites(body, facts::nowhere()).len(),
    ensures
        ({
            let site = facts::sites(body, facts::nowhere())[i];
            &&& defines(syntax::statements(body), site.caller)
            &&& has_range(syntax::statements(body), site.statement)
        }),
{
    lemma_body_belongs(body, facts::nowhere());
    assert(belongs(
        syntax::statements(body),
        facts::nowhere(),
        facts::sites(body, facts::nowhere())[i],
    ));
}

/// What a class, a lambda, a comprehension, an annotation or a type alias holds, and what stands in
/// front of the body of a function, belongs to no function around it.
pub proof fn law_deferred_parts_hide_their_calls(child: Child, context: Context)
    ensures
        child is Annotation ==> facts::sites_in(child, context).len() == 0,
        (child matches Child::Expr(expr) && expr.kind is Deferred) ==> facts::sites_in(
            child,
            context,
        ).len() == 0,
        (child matches Child::Stmt(stmt) && stmt.kind is TypeAlias) ==> facts::sites_in(
            child,
            context,
        ).len() == 0,
        (child matches Child::Stmt(stmt) && (stmt.kind is Function || stmt.kind is Class)) ==> {
            let site = facts::sites_in(child, context);
            facts::sites_in(child, Context { caller: None, ..context }) == site
        },
{
    if let Child::Expr(expr) = child {
        if expr.kind is Deferred {
            assert(facts::sites_in_expr(expr, context) == Seq::<Site>::empty());
        }
    }
}

} // verus!

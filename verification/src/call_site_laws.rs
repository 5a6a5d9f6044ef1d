//! Which calls of a file are kept, told by the way from the file to the call.

use vstd::prelude::*;

use crate::call_matcher;
use crate::call_matcher::{Actual, Argument, CallNoMatchReason, Lead, Outcome, Target};
use crate::chalk::ModuleOrigin;
use crate::facts;
use crate::facts::{CallFact, Context, FileFacts, ResolverRootFact, Site};
use crate::provenance;
use crate::provenance::{Callee, Collected, ModuleSymbol};
use crate::semantic::{Db, Definition, File, Type};
use crate::supported_functions::SupportedFuncs;
use crate::suppression::{FunctionSuppression, StatementSuppression, SuppressionCode};
use crate::syntax::{CallArgument, CallSite, Child, Expr, ExprKind, Stmt, StmtKind};
use crate::text::TextRange;

verus! {

// ---------------------------------------------------------------------------------------------
// Ways
// ---------------------------------------------------------------------------------------------

/// A statement or an expression of a file.
pub enum Node {
    Stmt(Stmt),
    Expr(Expr),
}

/// Whether one node stands directly in another and is evaluated with it. A lambda or a
/// comprehension runs nothing, a type alias neither; of functions and classes only the body counts;
/// an annotation is no node.
pub open spec fn holds(outer: Node, inner: Node) -> bool {
    match (outer, inner) {
        (Node::Expr(outer), Node::Expr(inner)) => outer.kind !is Deferred
            && outer.children@.contains(inner),
        (Node::Expr(_), Node::Stmt(_)) => false,
        (Node::Stmt(outer), Node::Stmt(inner)) => outer.kind !is TypeAlias
            && outer.body@.contains(Child::Stmt(inner)),
        (Node::Stmt(outer), Node::Expr(inner)) => outer.kind !is TypeAlias && (
        outer.body@.contains(Child::Expr(inner)) || outer.kind is Other && outer.header@.contains(
            inner,
        )),
    }
}

/// Whether each node of a way stands in the one before it.
pub open spec fn is_way(way: Seq<Node>) -> bool {
    way.len() > 0 && forall|i: int|
        0 <= i < way.len() - 1 ==> holds(#[trigger] way[i], way[i + 1])
}

/// Whether a node stands at the top of a body.
pub open spec fn tops(body: Seq<Child>, node: Node) -> bool {
    match node {
        Node::Stmt(stmt) => body.contains(Child::Stmt(stmt)),
        Node::Expr(expr) => body.contains(Child::Expr(expr)),
    }
}

/// The named function in which a way ends: the last function on it, unless a class follows.
pub open spec fn function_on(way: Seq<Node>, outside: Option<Definition>) -> Option<Definition>
    decreases way.len(),
{
    if way.len() == 0 {
        outside
    } else {
        match way.last() {
            Node::Stmt(stmt) => match stmt.kind {
                StmtKind::Function { definition, .. } => Some(definition),
                StmtKind::Class => None,
                _ => function_on(way.drop_last(), outside),
            },
            Node::Expr(_) => function_on(way.drop_last(), outside),
        }
    }
}

/// The statement in which a way ends: the last one on it.
pub open spec fn statement_on(way: Seq<Node>, outside: Option<TextRange>) -> Option<TextRange>
    decreases way.len(),
{
    if way.len() == 0 {
        outside
    } else {
        match way.last() {
            Node::Stmt(stmt) => Some(stmt.range),
            Node::Expr(_) => statement_on(way.drop_last(), outside),
        }
    }
}

/// Whether a way ends at a call.
pub open spec fn ends_at(way: Seq<Node>, call: CallSite) -> bool {
    way.len() > 0 && (way.last() matches Node::Expr(expr) && expr.kind == ExprKind::Call(call))
}

/// Whether a way leads through a file to a call in a named function.
pub open spec fn leads_to(body: Seq<Child>, way: Seq<Node>, site: Site) -> bool {
    &&& is_way(way)
    &&& tops(body, way[0])
    &&& ends_at(way, site.call)
    &&& function_on(way, None) == Some(site.caller)
    &&& statement_on(way, None) == Some(site.statement)
}

// ---------------------------------------------------------------------------------------------
// What is found below a node
// ---------------------------------------------------------------------------------------------

spec fn found(node: Node, context: Context) -> Seq<Site> {
    match node {
        Node::Stmt(stmt) => facts::sites_in(Child::Stmt(stmt), context),
        Node::Expr(expr) => facts::sites_in_expr(expr, context),
    }
}

spec fn inside(node: Node, context: Context) -> Context {
    Context {
        caller: function_on(seq![node], context.caller),
        statement: statement_on(seq![node], context.statement),
    }
}

spec fn arrives(way: Seq<Node>, context: Context, site: Site) -> bool {
    &&& is_way(way)
    &&& ends_at(way, site.call)
    &&& function_on(way, context.caller) == Some(site.caller)
    &&& statement_on(way, context.statement) == Some(site.statement)
}

spec fn reaches(node: Node, context: Context, site: Site) -> bool {
    exists|way: Seq<Node>| #[trigger] arrives(way, context, site) && way[0] == node
}

proof fn lemma_first_node(way: Seq<Node>, context: Context)
    requires
        way.len() > 0,
    ensures
        ({
            let inner = inside(way[0], context);
            let rest = way.drop_first();
            &&& function_on(way, context.caller) == function_on(rest, inner.caller)
            &&& statement_on(way, context.statement) == statement_on(rest, inner.statement)
        }),
    decreases way.len(),
{
    let rest = way.drop_first();
    if way.len() == 1 {
        assert(way =~= seq![way[0]]);
        assert(rest =~= Seq::empty());
    } else {
        lemma_first_node(way.drop_last(), context);
        assert(way.drop_last().drop_first() =~= rest.drop_last());
        assert(rest.last() == way.last());
        assert(way.drop_last()[0] == way[0]);
    }
}

proof fn lemma_longer_way(outer: Node, inner: Node, context: Context, site: Site)
    requires
        holds(outer, inner),
        reaches(inner, inside(outer, context), site),
    ensures
        reaches(outer, context, site),
{
    let below = inside(outer, context);
    let way = choose|way: Seq<Node>| #[trigger] arrives(way, below, site) && way[0] == inner;
    let longer = seq![outer] + way;
    assert(longer.drop_first() =~= way);
    lemma_first_node(longer, context);
    assert(longer.last() == way.last());
    assert forall|i: int| 0 <= i < longer.len() - 1 implies holds(
        #[trigger] longer[i],
        longer[i + 1],
    ) by {
        if i > 0 {
            assert(holds(way[i - 1], way[i]));
        }
    }
    assert(arrives(longer, context, site));
}

proof fn lemma_shorter_way(outer: Node, context: Context, site: Site) -> (inner: Node)
    requires
        reaches(outer, context, site),
        !arrives(seq![outer], context, site),
    ensures
        holds(outer, inner),
        reaches(inner, inside(outer, context), site),
{
    let way = choose|way: Seq<Node>| #[trigger] arrives(way, context, site) && way[0] == outer;
    if way.len() == 1 {
        assert(way =~= seq![outer]);
    }
    let rest = way.drop_first();
    lemma_first_node(way, context);
    assert(holds(way[0], way[1]));
    assert(rest.last() == way.last());
    assert forall|i: int| 0 <= i < rest.len() - 1 implies holds(#[trigger] rest[i], rest[i + 1]) by {
        assert(holds(way[i + 1], way[i + 2]));
    }
    assert(arrives(rest, inside(outer, context), site));
    assert(rest[0] == way[1]);
    way[1]
}

proof fn lemma_join(first: Seq<Site>, second: Seq<Site>, site: Site)
    ensures
        (first + second).contains(site) <==> first.contains(site) || second.contains(site),
{
    let both = first + second;
    if first.contains(site) {
        let i = choose|i: int| 0 <= i < first.len() && first[i] == site;
        assert(both[i] == site);
    }
    if second.contains(site) {
        let i = choose|i: int| 0 <= i < second.len() && second[i] == site;
        assert(both[first.len() + i] == site);
    }
    if both.contains(site) {
        let i = choose|i: int| 0 <= i < both.len() && both[i] == site;
        if i < first.len() {
            assert(first[i] == site);
        } else {
            assert(second[i - first.len()] == site);
        }
    }
}

proof fn lemma_in_exprs(exprs: Seq<Expr>, context: Context, site: Site)
    ensures
        facts::sites_in_exprs(exprs, context).contains(site) <==> exists|i: int|
            0 <= i < exprs.len() && facts::sites_in_expr(#[trigger] exprs[i], context).contains(
                site,
            ),
    decreases exprs.len(),
{
    if exprs.len() > 0 {
        let init = exprs.drop_last();
        lemma_in_exprs(init, context, site);
        lemma_join(
            facts::sites_in_exprs(init, context),
            facts::sites_in_expr(exprs.last(), context),
            site,
        );
        assert(exprs.last() == exprs[exprs.len() - 1]);
        assert(forall|i: int| 0 <= i < init.len() ==> init[i] == #[trigger] exprs[i]);
        if facts::sites_in_exprs(init, context).contains(site) {
            let i = choose|i: int|
                0 <= i < init.len() && facts::sites_in_expr(#[trigger] init[i], context).contains(
                    site,
                );
            assert(exprs[i] == init[i]);
        }
        if exists|i: int|
            0 <= i < exprs.len() && facts::sites_in_expr(#[trigger] exprs[i], context).contains(
                site,
            ) {
            let i = choose|i: int|
                0 <= i < exprs.len() && facts::sites_in_expr(#[trigger] exprs[i], context).contains(
                    site,
                );
            if i < init.len() {
                assert(init[i] == exprs[i]);
            }
        }
    }
}

proof fn lemma_in_body(body: Seq<Child>, context: Context, site: Site)
    ensures
        facts::sites(body, context).contains(site) <==> exists|i: int|
            0 <= i < body.len() && facts::sites_in(#[trigger] body[i], context).contains(site),
    decreases body.len(),
{
    if body.len() > 0 {
        let init = body.drop_last();
        lemma_in_body(init, context, site);
        lemma_join(facts::sites(init, context), facts::sites_in(body.last(), context), site);
        assert(body.last() == body[body.len() - 1]);
        if facts::sites(init, context).contains(site) {
            let i = choose|i: int|
                0 <= i < init.len() && facts::sites_in(#[trigger] init[i], context).contains(site);
            assert(body[i] == init[i]);
        }
        if exists|i: int|
            0 <= i < body.len() && facts::sites_in(#[trigger] body[i], context).contains(site) {
            let i = choose|i: int|
                0 <= i < body.len() && facts::sites_in(#[trigger] body[i], context).contains(site);
            if i < init.len() {
                assert(init[i] == body[i]);
            }
        }
    }
}

proof fn lemma_itself(node: Node, context: Context, site: Site)
    ensures
        arrives(seq![node], context, site) <==> (node matches Node::Expr(expr) && facts::site_of(
            expr,
            context,
        ).contains(site)),
{
    let way = seq![node];
    assert(way.drop_last() =~= Seq::empty());
    assert(way.last() == node);
    reveal_with_fuel(function_on, 2);
    reveal_with_fuel(statement_on, 2);
    if let Node::Expr(expr) = node {
        let own = facts::site_of(expr, context);
        if own.len() > 0 {
            assert(own.contains(own[0]));
        }
    }
}

proof fn lemma_expr_ways(expr: Expr, context: Context, site: Site)
    ensures
        facts::sites_in_expr(expr, context).contains(site) <==> reaches(
            Node::Expr(expr),
            context,
            site,
        ),
    decreases expr,
{
    let node = Node::Expr(expr);
    let children = expr.children@;
    assert(seq![node].drop_last() =~= Seq::empty());
    reveal_with_fuel(function_on, 2);
    reveal_with_fuel(statement_on, 2);
    assert(inside(node, context) == context);
    lemma_itself(node, context, site);
    lemma_in_exprs(children, context, site);
    assert forall|i: int| 0 <= i < children.len() implies facts::sites_in_expr(
        #[trigger] children[i],
        context,
    ).contains(site) == reaches(Node::Expr(children[i]), context, site) by {
        lemma_expr_ways(children[i], context, site);
    }
    if expr.kind !is Deferred {
        lemma_join(
            facts::site_of(expr, context),
            facts::sites_in_exprs(children, context),
            site,
        );
    }
    if facts::sites_in_expr(expr, context).contains(site) {
        if facts::site_of(expr, context).contains(site) {
            assert(arrives(seq![node], context, site));
            assert(seq![node][0] == node);
        } else {
            let i = choose|i: int|
                0 <= i < children.len() && facts::sites_in_expr(
                    #[trigger] children[i],
                    context,
                ).contains(site);
            assert(children.contains(children[i]));
            lemma_longer_way(node, Node::Expr(children[i]), context, site);
        }
    }
    if reaches(node, context, site) && !arrives(seq![node], context, site) {
        let inner = lemma_shorter_way(node, context, site);
        let i = choose|i: int| 0 <= i < children.len() && children[i] == inner->Expr_0;
        assert(facts::sites_in_expr(children[i], context).contains(site));
    }
}

proof fn lemma_stmt_ways(stmt: Stmt, context: Context, site: Site)
    ensures
        facts::sites_in(Child::Stmt(stmt), context).contains(site) <==> reaches(
            Node::Stmt(stmt),
            context,
            site,
        ),
    decreases stmt,
{
    let node = Node::Stmt(stmt);
    let body = stmt.body@;
    let header = stmt.header@;
    let below = inside(node, context);
    assert(seq![node].drop_last() =~= Seq::empty());
    reveal_with_fuel(function_on, 2);
    reveal_with_fuel(statement_on, 2);
    lemma_itself(node, context, site);
    lemma_in_exprs(header, below, site);
    lemma_in_body(body, below, site);
    lemma_join(facts::sites_in_exprs(header, below), facts::sites(body, below), site);
    assert forall|i: int| 0 <= i < body.len() implies facts::sites_in(
        #[trigger] body[i],
        below,
    ).contains(site) == (match body[i] {
        Child::Stmt(inner) => reaches(Node::Stmt(inner), below, site),
        Child::Expr(inner) => reaches(Node::Expr(inner), below, site),
        Child::Annotation(_) => false,
    }) by {
        match body[i] {
            Child::Stmt(inner) => {
                assert(decreases_to!(stmt => body));
                assert(decreases_to!(body => body[i]));
                lemma_stmt_ways(inner, below, site);
            },
            Child::Expr(inner) => {
                lemma_expr_ways(inner, below, site);
            },
            Child::Annotation(_) => {},
        }
    }
    assert forall|i: int| 0 <= i < header.len() implies facts::sites_in_expr(
        #[trigger] header[i],
        below,
    ).contains(site) == reaches(Node::Expr(header[i]), below, site) by {
        lemma_expr_ways(header[i], below, site);
    }
    if facts::sites_in(Child::Stmt(stmt), context).contains(site) {
        if facts::sites(body, below).contains(site) {
            let i = choose|i: int|
                0 <= i < body.len() && facts::sites_in(#[trigger] body[i], below).contains(site);
            assert(body.contains(body[i]));
            match body[i] {
                Child::Stmt(inner) => lemma_longer_way(node, Node::Stmt(inner), context, site),
                Child::Expr(inner) => lemma_longer_way(node, Node::Expr(inner), context, site),
                Child::Annotation(_) => {},
            }
        } else {
            let i = choose|i: int|
                0 <= i < header.len() && facts::sites_in_expr(#[trigger] header[i], below).contains(
                    site,
                );
            assert(header.contains(header[i]));
            lemma_longer_way(node, Node::Expr(header[i]), context, site);
        }
    }
    if reaches(node, context, site) {
        let inner = lemma_shorter_way(node, context, site);
        match inner {
            Node::Stmt(inner) => {
                let i = choose|i: int| 0 <= i < body.len() && body[i] == Child::Stmt(inner);
                assert(facts::sites_in(body[i], below).contains(site));
            },
            Node::Expr(inner) => {
                if body.contains(Child::Expr(inner)) {
                    let i = choose|i: int| 0 <= i < body.len() && body[i] == Child::Expr(inner);
                    assert(facts::sites_in(body[i], below).contains(site));
                } else {
                    let i = choose|i: int| 0 <= i < header.len() && header[i] == inner;
                    assert(facts::sites_in_expr(header[i], below).contains(site));
                }
            },
        }
    }
}

// ---------------------------------------------------------------------------------------------
// Laws
// ---------------------------------------------------------------------------------------------

/// The calls of a file are exactly those that a way leads to: through statements, the bodies of
/// functions and classes, and expressions that run where they stand, calls and their arguments
/// among them. Each belongs to the last function on its way and to the last statement on it.
pub proof fn law_calls_are_what_ways_lead_to(body: Seq<Child>, site: Site)
    ensures
        facts::sites(body, facts::nowhere()).contains(site) <==> exists|way: Seq<Node>|
            #[trigger] leads_to(body, way, site),
{
    let context = facts::nowhere();
    lemma_in_body(body, context, site);
    if facts::sites(body, context).contains(site) {
        let i = choose|i: int|
            0 <= i < body.len() && facts::sites_in(#[trigger] body[i], context).contains(site);
        assert(body.contains(body[i]));
        let node = match body[i] {
            Child::Stmt(stmt) => {
                lemma_stmt_ways(stmt, context, site);
                Node::Stmt(stmt)
            },
            Child::Expr(expr) => {
                lemma_expr_ways(expr, context, site);
                Node::Expr(expr)
            },
            Child::Annotation(expr) => Node::Expr(expr),
        };
        let way = choose|way: Seq<Node>| #[trigger] arrives(way, context, site) && way[0] == node;
        assert(leads_to(body, way, site));
    }
    if exists|way: Seq<Node>| #[trigger] leads_to(body, way, site) {
        let way = choose|way: Seq<Node>| #[trigger] leads_to(body, way, site);
        assert(arrives(way, context, site));
        match way[0] {
            Node::Stmt(stmt) => {
                let i = choose|i: int| 0 <= i < body.len() && body[i] == Child::Stmt(stmt);
                lemma_stmt_ways(stmt, context, site);
                assert(facts::sites_in(body[i], context).contains(site));
            },
            Node::Expr(expr) => {
                let i = choose|i: int| 0 <= i < body.len() && body[i] == Child::Expr(expr);
                lemma_expr_ways(expr, context, site);
                assert(facts::sites_in(body[i], context).contains(site));
            },
        }
    }
}

/// Whether a fact speaks of a call that a way leads to.
pub open spec fn speaks_of_a_way(body: Seq<Child>, fact: CallFact) -> bool {
    exists|way: Seq<Node>, site: Site| #[trigger]
        leads_to(body, way, site) && fact.caller == site.caller && fact.range == site.call.range
}

/// Every call that a way leads to has its fact in the file, with the function that it belongs to
/// and the range that it takes up, and no fact speaks of any other call.
pub proof fn law_facts_are_of_the_calls_on_ways(
    known: FileFacts,
    db: Db,
    file: File,
    supported: SupportedFuncs,
    source: Seq<u8>,
    comments: Seq<TextRange>,
    body: Seq<Child>,
)
    requires
        known.of(db, file, supported, source, comments, body),
    ensures
        forall|way: Seq<Node>, site: Site| #[trigger]
            leads_to(body, way, site) ==> exists|i: int|
                0 <= i < known.calls@.len() && (#[trigger] known.calls@[i]).caller == site.caller
                    && known.calls@[i].range == site.call.range,
        forall|i: int|
            0 <= i < known.calls@.len() ==> speaks_of_a_way(body, #[trigger] known.calls@[i]),
{
    let all = facts::sites(body, facts::nowhere());
    let views = facts::fact_views(known.calls@);
    assert forall|way: Seq<Node>, site: Site| #[trigger] leads_to(body, way, site) implies exists|
        i: int,
    |
        0 <= i < known.calls@.len() && (#[trigger] known.calls@[i]).caller == site.caller
            && known.calls@[i].range == site.call.range by {
        law_calls_are_what_ways_lead_to(body, site);
        let i = choose|i: int| 0 <= i < all.len() && all[i] == site;
        assert(views.len() == all.len() && views.len() == known.calls@.len());
        assert(views[i] == known.calls@[i]@);
        assert(known.calls@[i].caller == site.caller);
    }
    assert forall|i: int| 0 <= i < known.calls@.len() implies speaks_of_a_way(
        body,
        #[trigger] known.calls@[i],
    ) by {
        assert(views.len() == all.len() && views.len() == known.calls@.len());
        assert(views[i] == known.calls@[i]@);
        assert(views[i].caller == all[i].caller);
        assert(all.contains(all[i]));
        law_calls_are_what_ways_lead_to(body, all[i]);
        let way = choose|way: Seq<Node>| #[trigger] leads_to(body, way, all[i]);
        assert(leads_to(body, way, all[i]));
    }
}

/// A call keeps every call that stands in its callee or its arguments, and everything that they
/// keep: the calls of an expression are its own and those of each expression in it.
pub proof fn law_a_call_keeps_the_calls_in_it(
    outer: Expr,
    call: CallSite,
    caller: Definition,
    statement: TextRange,
    i: int,
    site: Site,
)
    requires
        outer.kind == ExprKind::Call(call),
        0 <= i < outer.children@.len(),
        ({
            let context = Context { caller: Some(caller), statement: Some(statement) };
            facts::sites(seq![Child::Expr(outer.children@[i])], context).contains(site)
        }),
    ensures
        ({
            let context = Context { caller: Some(caller), statement: Some(statement) };
            let kept = facts::sites(seq![Child::Expr(outer)], context);
            kept.contains(site) && kept.contains(Site { caller, statement, call })
        }),
{
    let context = Context { caller: Some(caller), statement: Some(statement) };
    let node = Node::Expr(outer);
    let inner = Node::Expr(outer.children@[i]);
    let own = Site { caller, statement, call };
    lemma_in_body(seq![Child::Expr(outer.children@[i])], context, site);
    lemma_in_body(seq![Child::Expr(outer)], context, site);
    lemma_in_body(seq![Child::Expr(outer)], context, own);
    assert(seq![Child::Expr(outer)][0] == Child::Expr(outer));
    assert(seq![node].drop_last() =~= Seq::empty());
    reveal_with_fuel(function_on, 2);
    reveal_with_fuel(statement_on, 2);
    assert(inside(node, context) == context);
    lemma_expr_ways(outer.children@[i], context, site);
    assert(outer.children@.contains(outer.children@[i]));
    lemma_longer_way(node, inner, context, site);
    lemma_expr_ways(outer, context, site);
    lemma_itself(node, context, own);
    assert(facts::site_of(outer, context)[0] == own);
    assert(arrives(seq![node], context, own));
    assert(seq![node][0] == node);
    lemma_expr_ways(outer, context, own);
}

/// The calls of two bodies, one behind the other, are those of the first and then those of the
/// second.
pub proof fn law_calls_come_in_source_order(
    first: Seq<Child>,
    second: Seq<Child>,
    context: Context,
)
    ensures
        facts::sites(first + second, context) == facts::sites(first, context) + facts::sites(
            second,
            context,
        ),
    decreases second.len(),
{
    if second.len() == 0 {
        assert(first + second =~= first);
    } else {
        law_calls_come_in_source_order(first, second.drop_last(), context);
        assert((first + second).drop_last() =~= first + second.drop_last());
        assert((first + second).last() == second.last());
    }
}

/// A call comes in front of the calls in it, once, and those come in the order of the callee and
/// the arguments.
pub proof fn law_a_call_comes_before_its_parts(
    outer: Expr,
    call: CallSite,
    caller: Definition,
    statement: TextRange,
)
    requires
        outer.kind == ExprKind::Call(call),
    ensures
        ({
            let context = Context { caller: Some(caller), statement: Some(statement) };
            let parts = Seq::new(
                outer.children@.len(),
                |i: int| Child::Expr(outer.children@[i]),
            );
            facts::sites(seq![Child::Expr(outer)], context) == seq![
                Site { caller, statement, call },
            ] + facts::sites(parts, context)
        }),
{
    let context = Context { caller: Some(caller), statement: Some(statement) };
    lemma_exprs_as_parts(outer.children@, context);
    assert(seq![Child::Expr(outer)].drop_last() =~= Seq::empty());
    reveal_with_fuel(facts::sites, 2);
}

proof fn lemma_exprs_as_parts(exprs: Seq<Expr>, context: Context)
    ensures
        facts::sites_in_exprs(exprs, context) == facts::sites(
            Seq::new(exprs.len(), |i: int| Child::Expr(exprs[i])),
            context,
        ),
    decreases exprs.len(),
{
    let parts = Seq::new(exprs.len(), |i: int| Child::Expr(exprs[i]));
    if exprs.len() > 0 {
        let init = exprs.drop_last();
        lemma_exprs_as_parts(init, context);
        assert(parts.drop_last() =~= Seq::new(init.len(), |i: int| Child::Expr(init[i])));
        assert(parts.last() == Child::Expr(exprs.last()));
        assert(facts::sites(parts, context) == facts::sites(parts.drop_last(), context)
            + facts::sites_in(parts.last(), context));
        assert(facts::sites_in_exprs(exprs, context) == facts::sites_in_exprs(init, context)
            + facts::sites_in_expr(exprs.last(), context));
    } else {
        assert(parts =~= Seq::empty());
    }
}

// ---------------------------------------------------------------------------------------------
// Resolvers
// ---------------------------------------------------------------------------------------------

/// Whether a way consists of statements only.
pub open spec fn is_of_statements(way: Seq<Node>) -> bool {
    forall|i: int| 0 <= i < way.len() ==> (#[trigger] way[i]) is Stmt
}

/// Whether a statement is a function of which some decorator makes a resolver.
pub open spec fn is_resolver(db: Db, file: File, stmt: Stmt) -> bool {
    stmt.kind matches StmtKind::Function { decorators, .. } && exists|i: int|
        0 <= i < decorators@.len() && facts::makes_resolvers(db, file, #[trigger] decorators@[i])
}

/// Whether a root is that of the resolver in which a way of statements ends.
pub open spec fn is_root_at(
    db: Db,
    file: File,
    entries: Seq<FunctionSuppression>,
    way: Seq<Node>,
    root: ResolverRootFact,
) -> bool {
    &&& is_way(way)
    &&& is_of_statements(way)
    &&& way.last() matches Node::Stmt(stmt)
    &&& is_resolver(db, file, stmt)
    &&& stmt.kind matches StmtKind::Function { definition, .. }
    &&& root.definition == definition
    &&& root.range == stmt.range
    &&& root.unsupported_function_suppression == facts::function_directive(entries, definition, 0)
}

spec fn root_below(
    db: Db,
    file: File,
    entries: Seq<FunctionSuppression>,
    stmt: Stmt,
    root: ResolverRootFact,
) -> bool {
    exists|way: Seq<Node>| #[trigger]
        is_root_at(db, file, entries, way, root) && way[0] == Node::Stmt(stmt)
}

proof fn lemma_roots_in_body(
    db: Db,
    file: File,
    entries: Seq<FunctionSuppression>,
    body: Seq<Child>,
    root: ResolverRootFact,
)
    ensures
        facts::roots(db, file, entries, body).contains(root) <==> exists|i: int|
            0 <= i < body.len() && facts::roots_in(
                db,
                file,
                entries,
                #[trigger] body[i],
            ).contains(root),
    decreases body.len(),
{
    if body.len() > 0 {
        let init = body.drop_last();
        let first = facts::roots(db, file, entries, init);
        let second = facts::roots_in(db, file, entries, body.last());
        lemma_roots_in_body(db, file, entries, init, root);
        lemma_join_roots(first, second, root);
        assert(body.last() == body[body.len() - 1]);
        if first.contains(root) {
            let i = choose|i: int|
                0 <= i < init.len() && facts::roots_in(
                    db,
                    file,
                    entries,
                    #[trigger] init[i],
                ).contains(root);
            assert(body[i] == init[i]);
        }
        if exists|i: int|
            0 <= i < body.len() && facts::roots_in(db, file, entries, #[trigger] body[i]).contains(
                root,
            ) {
            let i = choose|i: int|
                0 <= i < body.len() && facts::roots_in(
                    db,
                    file,
                    entries,
                    #[trigger] body[i],
                ).contains(root);
            if i < init.len() {
                assert(init[i] == body[i]);
            }
        }
    }
}

proof fn lemma_join_roots(
    first: Seq<ResolverRootFact>,
    second: Seq<ResolverRootFact>,
    root: ResolverRootFact,
)
    ensures
        (first + second).contains(root) <==> first.contains(root) || second.contains(root),
{
    let both = first + second;
    if first.contains(root) {
        let i = choose|i: int| 0 <= i < first.len() && first[i] == root;
        assert(both[i] == root);
    }
    if second.contains(root) {
        let i = choose|i: int| 0 <= i < second.len() && second[i] == root;
        assert(both[first.len() + i] == root);
    }
    if both.contains(root) {
        let i = choose|i: int| 0 <= i < both.len() && both[i] == root;
        if i < first.len() {
            assert(first[i] == root);
        } else {
            assert(second[i - first.len()] == root);
        }
    }
}

proof fn lemma_root_ways(
    db: Db,
    file: File,
    entries: Seq<FunctionSuppression>,
    stmt: Stmt,
    root: ResolverRootFact,
)
    ensures
        facts::roots_in(db, file, entries, Child::Stmt(stmt)).contains(root) <==> root_below(
            db,
            file,
            entries,
            stmt,
            root,
        ),
    decreases stmt,
{
    let body = stmt.body@;
    let node = Node::Stmt(stmt);
    let own = facts::root_of(db, file, entries, stmt);
    lemma_roots_in_body(db, file, entries, body, root);
    lemma_join_roots(own, facts::roots(db, file, entries, body), root);
    assert forall|i: int| 0 <= i < body.len() implies facts::roots_in(
        db,
        file,
        entries,
        #[trigger] body[i],
    ).contains(root) == (body[i] matches Child::Stmt(inner) && root_below(
        db,
        file,
        entries,
        inner,
        root,
    )) by {
        if let Child::Stmt(inner) = body[i] {
            assert(decreases_to!(stmt => body));
            assert(decreases_to!(body => body[i]));
            lemma_root_ways(db, file, entries, inner, root);
        }
    }
    if own.contains(root) {
        assert(own[0] == root);
        let way = seq![node];
        assert(is_root_at(db, file, entries, way, root));
        assert(way[0] == node);
    }
    if stmt.kind !is TypeAlias && facts::roots(db, file, entries, body).contains(root) {
        let i = choose|i: int|
            0 <= i < body.len() && facts::roots_in(db, file, entries, #[trigger] body[i]).contains(
                root,
            );
        let inner = body[i]->Stmt_0;
        let way = choose|way: Seq<Node>| #[trigger]
            is_root_at(db, file, entries, way, root) && way[0] == Node::Stmt(inner);
        let longer = seq![node] + way;
        assert(body.contains(Child::Stmt(inner)));
        assert(longer.last() == way.last());
        assert forall|k: int| 0 <= k < longer.len() - 1 implies holds(
            #[trigger] longer[k],
            longer[k + 1],
        ) by {
            if k > 0 {
                assert(holds(way[k - 1], way[k]));
            }
        }
        assert forall|k: int| 0 <= k < longer.len() implies (#[trigger] longer[k]) is Stmt by {
            if k > 0 {
                assert(way[k - 1] is Stmt);
            }
        }
        assert(is_root_at(db, file, entries, longer, root));
        assert(longer[0] == node);
    }
    if root_below(db, file, entries, stmt, root) {
        let way = choose|way: Seq<Node>| #[trigger]
            is_root_at(db, file, entries, way, root) && way[0] == node;
        if way.len() == 1 {
            assert(own == seq![root]);
            assert(own[0] == root);
        } else {
            let rest = way.drop_first();
            assert(holds(way[0], way[1]));
            assert(way[1] is Stmt);
            let inner = way[1]->Stmt_0;
            assert(rest.last() == way.last());
            assert forall|k: int| 0 <= k < rest.len() - 1 implies holds(
                #[trigger] rest[k],
                rest[k + 1],
            ) by {
                assert(holds(way[k + 1], way[k + 2]));
            }
            assert forall|k: int| 0 <= k < rest.len() implies (#[trigger] rest[k]) is Stmt by {
                assert(way[k + 1] is Stmt);
            }
            assert(is_root_at(db, file, entries, rest, root));
            assert(rest[0] == Node::Stmt(inner));
            let i = choose|i: int| 0 <= i < body.len() && body[i] == Child::Stmt(inner);
            assert(facts::roots_in(db, file, entries, body[i]).contains(root));
        }
    }
}

/// The resolvers of a file are exactly the functions with a decorator that makes resolvers, at
/// whatever depth: in other functions, in classes and in other statements.
pub proof fn law_resolvers_are_found_at_every_depth(
    db: Db,
    file: File,
    entries: Seq<FunctionSuppression>,
    body: Seq<Child>,
    root: ResolverRootFact,
)
    ensures
        facts::roots(db, file, entries, body).contains(root) <==> exists|way: Seq<Node>|
            #[trigger]
            is_root_at(db, file, entries, way, root) && tops(body, way[0]),
{
    lemma_roots_in_body(db, file, entries, body, root);
    if facts::roots(db, file, entries, body).contains(root) {
        let i = choose|i: int|
            0 <= i < body.len() && facts::roots_in(db, file, entries, #[trigger] body[i]).contains(
                root,
            );
        assert(body.contains(body[i]));
        let stmt = body[i]->Stmt_0;
        lemma_root_ways(db, file, entries, stmt, root);
        let way = choose|way: Seq<Node>| #[trigger]
            is_root_at(db, file, entries, way, root) && way[0] == Node::Stmt(stmt);
        assert(tops(body, way[0]));
    }
    if exists|way: Seq<Node>| #[trigger]
        is_root_at(db, file, entries, way, root) && tops(body, way[0]) {
        let way = choose|way: Seq<Node>| #[trigger]
            is_root_at(db, file, entries, way, root) && tops(body, way[0]);
        assert(way[0] is Stmt);
        let stmt = way[0]->Stmt_0;
        lemma_root_ways(db, file, entries, stmt, root);
        let i = choose|i: int| 0 <= i < body.len() && body[i] == Child::Stmt(stmt);
        assert(facts::roots_in(db, file, entries, body[i]).contains(root));
    }
}

/// Resolvers are made by `online`, `offline` and `resolver` of the three modules that offer them,
/// and by `batch` and `realtime` of `chalk` alone, each as an installed package.
pub proof fn law_resolver_decorators_are_these(
    owner: ModuleOrigin,
    module: Seq<char>,
    symbol: Seq<char>,
)
    ensures
        facts::is_resolver_symbol(owner, module, symbol) <==> owner == ModuleOrigin::ThirdParty && {
            ||| module == "chalk"@ && (symbol == "batch"@ || symbol == "realtime"@)
            ||| (module == "chalk"@ || module == "chalk.features"@ || module
                == "chalk.features.resolver"@) && (symbol == "online"@ || symbol == "offline"@
                || symbol == "resolver"@)
        },
{
}

/// A function carries the first directive that switches the unsupported call off for it, a
/// statement the first that does so for it, and neither carries any other.
pub proof fn law_directives_belong_to_what_they_name(
    functions: Seq<FunctionSuppression>,
    definition: Definition,
    statements: Seq<StatementSuppression>,
    statement: TextRange,
    i: int,
    j: int,
)
    requires
        0 <= i <= functions.len(),
        i < functions.len() ==> functions[i].definition == definition && functions[i].code
            == SuppressionCode::UnsupportedFunction,
        forall|k: int|
            0 <= k < i ==> (#[trigger] functions[k]).definition != definition || functions[k].code
                != SuppressionCode::UnsupportedFunction,
        0 <= j <= statements.len(),
        j < statements.len() ==> statements[j].statement == statement && statements[j].code
            == SuppressionCode::UnsupportedFunction,
        forall|k: int|
            0 <= k < j ==> (#[trigger] statements[k]).statement != statement || statements[k].code
                != SuppressionCode::UnsupportedFunction,
    ensures
        facts::function_directive(functions, definition, 0) == if i < functions.len() {
            Some(functions[i].directive)
        } else {
            None
        },
        facts::statement_directive(statements, statement, 0) == if j < statements.len() {
            Some(statements[j].directive)
        } else {
            None
        },
{
    lemma_function_directive(functions, definition, i, 0);
    lemma_statement_directive(statements, statement, j, 0);
}

proof fn lemma_function_directive(
    functions: Seq<FunctionSuppression>,
    definition: Definition,
    i: int,
    at: int,
)
    requires
        0 <= at <= i <= functions.len(),
        i < functions.len() ==> functions[i].definition == definition && functions[i].code
            == SuppressionCode::UnsupportedFunction,
        forall|k: int|
            0 <= k < i ==> (#[trigger] functions[k]).definition != definition || functions[k].code
                != SuppressionCode::UnsupportedFunction,
    ensures
        facts::function_directive(functions, definition, at) == if i < functions.len() {
            Some(functions[i].directive)
        } else {
            None
        },
    decreases i - at,
{
    if at < i {
        assert(functions[at].definition != definition || functions[at].code
            != SuppressionCode::UnsupportedFunction);
        lemma_function_directive(functions, definition, i, at + 1);
    }
}

proof fn lemma_statement_directive(
    statements: Seq<StatementSuppression>,
    statement: TextRange,
    j: int,
    at: int,
)
    requires
        0 <= at <= j <= statements.len(),
        j < statements.len() ==> statements[j].statement == statement && statements[j].code
            == SuppressionCode::UnsupportedFunction,
        forall|k: int|
            0 <= k < j ==> (#[trigger] statements[k]).statement != statement || statements[k].code
                != SuppressionCode::UnsupportedFunction,
    ensures
        facts::statement_directive(statements, statement, at) == if j < statements.len() {
            Some(statements[j].directive)
        } else {
            None
        },
    decreases j - at,
{
    if at < j {
        assert(statements[at].statement != statement || statements[at].code
            != SuppressionCode::UnsupportedFunction);
        lemma_statement_directive(statements, statement, j, at + 1);
    }
}

// ---------------------------------------------------------------------------------------------
// Matches
// ---------------------------------------------------------------------------------------------

/// Whether a call may lead somewhere.
pub open spec fn may_lead(state: Collected, modules: Seq<ModuleSymbol>, lead: Lead) -> bool {
    match lead {
        Lead::Definition(definition) => exists|i: int|
            0 <= i < state.targets.len() && (#[trigger] state.targets[i]).definition == definition,
        Lead::Known(known) => state.known.contains(known),
        Lead::Module(symbol) => modules.contains(symbol),
        Lead::Deferred => false,
    }
}

proof fn lemma_leads(state: Collected, modules: Seq<ModuleSymbol>, lead: Lead)
    ensures
        facts::leads(state, modules).contains(lead) <==> may_lead(state, modules, lead),
{
    let all = facts::leads(state, modules);
    let first = state.targets.len() as int;
    let second = first + state.known.len();
    if all.contains(lead) {
        let i = choose|i: int| 0 <= i < all.len() && all[i] == lead;
        if i < first {
            assert(lead == Lead::Definition(state.targets[i].definition));
        } else if i < second {
            assert(lead == Lead::Known(state.known[i - first]));
        } else {
            assert(lead == Lead::Module(modules[i - second]));
        }
    }
    if may_lead(state, modules, lead) {
        match lead {
            Lead::Definition(definition) => {
                let i = choose|i: int|
                    0 <= i < state.targets.len() && (#[trigger] state.targets[i]).definition
                        == definition;
                assert(all[i] == lead);
            },
            Lead::Known(known) => {
                let i = choose|i: int| 0 <= i < state.known.len() && state.known[i] == known;
                assert(all[first + i] == lead);
            },
            Lead::Module(symbol) => {
                let i = choose|i: int| 0 <= i < modules.len() && modules[i] == symbol;
                assert(all[second + i] == lead);
            },
            Lead::Deferred => {},
        }
    }
}

proof fn lemma_no_matches(
    db: Db,
    supported: SupportedFuncs,
    leads: Seq<Lead>,
    arguments: Seq<Argument>,
    receiver: Option<Type>,
    found: (Target, CallNoMatchReason),
)
    ensures
        facts::no_matches_of(db, supported, leads, arguments, receiver).contains(found)
            <==> exists|i: int|
            0 <= i < leads.len() && call_matcher::outcome(
                db,
                supported,
                #[trigger] leads[i],
                arguments,
                receiver,
            ) == (Outcome::NoMatch { target: found.0, reason: found.1 }),
    decreases leads.len(),
{
    if leads.len() > 0 {
        let init = leads.drop_last();
        let at = leads.len() - 1;
        let before = facts::no_matches_of(db, supported, init, arguments, receiver);
        let after = facts::no_matches_of(db, supported, leads, arguments, receiver);
        let own = call_matcher::outcome(db, supported, leads.last(), arguments, receiver);
        lemma_no_matches(db, supported, init, arguments, receiver, found);
        assert(leads[at] == leads.last());
        assert(forall|i: int| 0 <= i < init.len() ==> #[trigger] init[i] == leads[i]);
        if before.contains(found) {
            let k = choose|k: int| 0 <= k < before.len() && before[k] == found;
            assert(after[k] == found);
            let i = choose|i: int|
                0 <= i < init.len() && call_matcher::outcome(
                    db,
                    supported,
                    #[trigger] init[i],
                    arguments,
                    receiver,
                ) == (Outcome::NoMatch { target: found.0, reason: found.1 });
            assert(leads[i] == init[i]);
        }
        if own == (Outcome::NoMatch { target: found.0, reason: found.1 }) && !before.contains(
            found,
        ) {
            assert(after == before.push(found));
            assert(after[before.len() as int] == found);
        }
        if after.contains(found) && !before.contains(found) {
            let k = choose|k: int| 0 <= k < after.len() && after[k] == found;
            if k < before.len() {
                assert(before[k] == found);
            }
        }
        if exists|i: int|
            0 <= i < leads.len() && call_matcher::outcome(
                db,
                supported,
                #[trigger] leads[i],
                arguments,
                receiver,
            ) == (Outcome::NoMatch { target: found.0, reason: found.1 }) {
            let i = choose|i: int|
                0 <= i < leads.len() && call_matcher::outcome(
                    db,
                    supported,
                    #[trigger] leads[i],
                    arguments,
                    receiver,
                ) == (Outcome::NoMatch { target: found.0, reason: found.1 });
            if i < at {
                assert(init[i] == leads[i]);
            }
        }
    }
}

/// A call is kept with every target that it may lead to and that does not match, and with no other:
/// targets that match or are left open are passed over. Where some argument cannot be observed,
/// nothing is held against the call.
pub proof fn law_facts_keep_every_mismatch(
    db: Db,
    file: File,
    supported: SupportedFuncs,
    functions: Seq<FunctionSuppression>,
    statements: Seq<StatementSuppression>,
    site: Site,
    target: Target,
    reason: CallNoMatchReason,
)
    ensures
        ({
            let fact = facts::fact_of(db, file, supported, functions, statements, site);
            let callee = site.call.callee;
            let state = provenance::collect_callee(db, callee);
            let modules = provenance::call_modules(db, file, callee);
            let receiver = match callee {
                Callee::Attribute { receiver, .. } => receiver,
                _ => None,
            };
            &&& fact.targets == state.targets
            &&& fact.no_matches.contains((target, reason)) <==> (facts::observed_arguments(
                site.call.arguments@,
            ) matches Some(arguments) && exists|lead: Lead| #[trigger]
                may_lead(state, modules, lead) && call_matcher::outcome(
                    db,
                    supported,
                    lead,
                    arguments,
                    receiver,
                ) == (Outcome::NoMatch { target, reason }))
        }),
{
    let callee = site.call.callee;
    let state = provenance::collect_callee(db, callee);
    let modules = provenance::call_modules(db, file, callee);
    let receiver = facts::receiver_of(callee);
    let leads = facts::leads(state, modules);
    if let Some(arguments) = facts::observed_arguments(site.call.arguments@) {
        lemma_no_matches(db, supported, leads, arguments, receiver, (target, reason));
        assert forall|i: int| 0 <= i < leads.len() implies may_lead(
            state,
            modules,
            #[trigger] leads[i],
        ) by {
            assert(leads.contains(leads[i]));
            lemma_leads(state, modules, leads[i]);
        }
        assert forall|lead: Lead| #[trigger] may_lead(state, modules, lead) implies exists|i: int|
            0 <= i < leads.len() && #[trigger] leads[i] == lead by {
            lemma_leads(state, modules, lead);
            let i = choose|i: int| 0 <= i < leads.len() && leads[i] == lead;
            assert(leads[i] == lead);
        }
        if exists|lead: Lead| #[trigger]
            may_lead(state, modules, lead) && call_matcher::outcome(
                db,
                supported,
                lead,
                arguments,
                receiver,
            ) == (Outcome::NoMatch { target, reason }) {
            let lead = choose|lead: Lead| #[trigger]
                may_lead(state, modules, lead) && call_matcher::outcome(
                    db,
                    supported,
                    lead,
                    arguments,
                    receiver,
                ) == (Outcome::NoMatch { target, reason });
            let i = choose|i: int| 0 <= i < leads.len() && #[trigger] leads[i] == lead;
            assert(call_matcher::outcome(db, supported, leads[i], arguments, receiver) == (
            Outcome::NoMatch { target, reason }));
        }
    }
}

/// Arguments are observed as they stand: by position or under their name, each with its own type,
/// and only if every one of them has a type and none is unpacked.
pub proof fn law_arguments_are_observed_as_they_stand(arguments: Seq<CallArgument>)
    ensures
        match facts::observed_arguments(arguments) {
            Some(observed) => {
                &&& observed.len() == arguments.len()
                &&& forall|i: int|
                    0 <= i < arguments.len() ==> match #[trigger] arguments[i] {
                        CallArgument::Positional { ty } => ty matches Some(ty) && observed[i]
                            == Argument::Positional(Actual::Native(ty)),
                        CallArgument::Keyword { name, ty } => ty matches Some(ty) && observed[i]
                            == (Argument::Keyword { name: name@, ty: Actual::Native(ty) }),
                        _ => false,
                    }
            },
            None => exists|i: int|
                0 <= i < arguments.len() && match #[trigger] arguments[i] {
                    CallArgument::Positional { ty } => ty is None,
                    CallArgument::Keyword { ty, .. } => ty is None,
                    _ => true,
                },
        },
{
    if facts::observed_arguments(arguments) is Some {
        assert forall|i: int| 0 <= i < arguments.len() implies match #[trigger] arguments[i] {
            CallArgument::Positional { ty } => ty is Some,
            CallArgument::Keyword { ty, .. } => ty is Some,
            _ => false,
        } by {
            assert(facts::observed_argument(arguments[i]) is Some);
        }
    } else {
        let i = choose|i: int|
            0 <= i < arguments.len() && facts::observed_argument(#[trigger] arguments[i]) is None;
        assert(facts::observed_argument(arguments[i]) is None);
    }
}

} // verus!

//! What the call graph of a project holds: whose calls it has, where they lead, where it starts and
//! what of it is reported.

use vstd::prelude::*;

use crate::call_matcher::{CallNoMatchReason, Identity, Target};
use crate::facts::ResolverRootFact;
use crate::provenance::{CallTarget, CallTargetKind};
use crate::reachability;
use crate::reachability::{
    CycleCandidate, FactsView, FileView, Graph, PlacedCall, ProjectSuppressionProblem, Roots,
    Unsupported,
};
use crate::semantic::{Db, Definition, File};

verus! {

proof fn lemma_append<A>(list: Seq<A>, item: A, other: A)
    ensures
        list.push(item).contains(other) <==> list.contains(other) || item == other,
{
    let longer = list.push(item);
    if list.contains(other) {
        let i = choose|i: int| 0 <= i < list.len() && list[i] == other;
        assert(longer[i] == other);
    }
    if item == other {
        assert(longer[list.len() as int] == other);
    }
    if longer.contains(other) {
        let i = choose|i: int| 0 <= i < longer.len() && longer[i] == other;
        if i < list.len() {
            assert(list[i] == other);
        }
    }
}

proof fn lemma_sum<A>(a: Seq<A>, b: Seq<A>, item: A)
    ensures
        (a + b).contains(item) <==> a.contains(item) || b.contains(item),
{
    let both = a + b;
    if a.contains(item) {
        let k = choose|k: int| 0 <= k < a.len() && a[k] == item;
        assert(both[k] == item);
    }
    if b.contains(item) {
        let k = choose|k: int| 0 <= k < b.len() && b[k] == item;
        assert(both[a.len() + k] == item);
    }
    if both.contains(item) {
        let k = choose|k: int| 0 <= k < both.len() && both[k] == item;
        if k < a.len() {
            assert(a[k] == item);
        } else {
            assert(b[k - a.len()] == item);
        }
    }
}

// ---------------------------------------------------------------------------------------------
// Calls
// ---------------------------------------------------------------------------------------------

/// The facts of a file that was not given up.
pub open spec fn facts_at(files: Seq<FileView>, i: int) -> Option<FactsView> {
    if 0 <= i < files.len() {
        files[i].facts
    } else {
        None
    }
}

/// The graph has exactly the calls of all files that were analysed, each in its own file; a file
/// whose analysis was given up adds none, but stays a file of the project.
pub proof fn law_the_graph_has_the_calls_of_all_files(
    db: Db,
    files: Seq<FileView>,
    site: PlacedCall,
    file: File,
)
    ensures
        ({
            let graph = reachability::graph_of(db, files);
            &&& graph.db == db
            &&& graph.files.contains(file) <==> exists|i: int|
                0 <= i < files.len() && (#[trigger] files[i]).file == file
            &&& graph.sites.contains(site) <==> exists|i: int, k: int|
                #[trigger] is_call_at(files, i, k, site)
        }),
{
    lemma_all_calls(files, site);
    let graph = reachability::graph_of(db, files);
    if exists|i: int| 0 <= i < files.len() && (#[trigger] files[i]).file == file {
        let i = choose|i: int| 0 <= i < files.len() && (#[trigger] files[i]).file == file;
        assert(graph.files[i] == file);
    }
    if graph.files.contains(file) {
        let i = choose|i: int| 0 <= i < graph.files.len() && graph.files[i] == file;
        assert(files[i].file == file);
    }
}

/// Whether a call stands at a place of the facts of a file.
pub open spec fn is_call_at(files: Seq<FileView>, i: int, k: int, site: PlacedCall) -> bool {
    &&& facts_at(files, i) matches Some(facts)
    &&& 0 <= k < facts.calls.len()
    &&& facts.calls[k] == site.call
    &&& files[i].file == site.file
}

proof fn lemma_all_calls(files: Seq<FileView>, site: PlacedCall)
    ensures
        reachability::all_calls(files).contains(site) <==> exists|i: int, k: int|
            #[trigger] is_call_at(files, i, k, site),
    decreases files.len(),
{
    if files.len() > 0 {
        let init = files.drop_last();
        let at = files.len() - 1;
        let own = reachability::calls_in(files.last());
        lemma_all_calls(init, site);
        lemma_sum(reachability::all_calls(init), own, site);
        assert(files[at] == files.last());
        if reachability::all_calls(init).contains(site) {
            let (i, k) = choose|i: int, k: int|
                #[trigger] is_call_at(init, i, k, site);
            assert(files[i] == init[i]);
            assert(is_call_at(files, i, k, site));
        }
        if own.contains(site) {
            let k = choose|k: int| 0 <= k < own.len() && own[k] == site;
            assert(is_call_at(files, at, k, site));
        }
        if exists|i: int, k: int|
            #[trigger] is_call_at(files, i, k, site) {
            let (i, k) = choose|i: int, k: int|
                #[trigger] is_call_at(files, i, k, site);
            if i < at {
                assert(init[i] == files[i]);
                assert(is_call_at(init, i, k, site));
            } else {
                assert(own[k] == site);
            }
        }
    }
}

/// The calls of a function are exactly the calls of the project that it makes.
pub proof fn law_calls_of_a_function_are_its_own(graph: Graph, caller: Definition, site: PlacedCall)
    ensures
        graph.calls_of(caller).contains(site) <==> graph.sites.contains(site) && site.call.caller
            == caller,
{
    lemma_calls_by(graph.sites, caller, site);
}

proof fn lemma_calls_by(sites: Seq<PlacedCall>, caller: Definition, site: PlacedCall)
    ensures
        reachability::calls_by(sites, caller).contains(site) <==> sites.contains(site)
            && site.call.caller == caller,
    decreases sites.len(),
{
    if sites.len() > 0 {
        let init = sites.drop_last();
        lemma_calls_by(init, caller, site);
        lemma_append(init, sites.last(), site);
        lemma_append(reachability::calls_by(init, caller), sites.last(), site);
        assert(sites =~= init.push(sites.last()));
    }
}

/// A call is followed exactly to the functions among its targets that are defined in a file of the
/// project, each once; classes and what is defined elsewhere are not followed.
pub proof fn law_calls_are_followed_to_functions_of_the_project(
    graph: Graph,
    site: PlacedCall,
    to: Definition,
)
    ensures
        graph.next(site).no_duplicates(),
        graph.next(site).contains(to) <==> site.call.targets.contains(
            CallTarget { definition: to, kind: CallTargetKind::Function },
        ) && graph.files.contains(graph.db.definition(to).file),
{
    lemma_functions_among(graph.db, graph.files, site.call.targets, to);
}

proof fn lemma_functions_among(
    db: Db,
    files: Seq<File>,
    targets: Seq<CallTarget>,
    to: Definition,
)
    ensures
        reachability::functions_among(db, files, targets).no_duplicates(),
        reachability::functions_among(db, files, targets).contains(to) <==> targets.contains(
            CallTarget { definition: to, kind: CallTargetKind::Function },
        ) && files.contains(db.definition(to).file),
    decreases targets.len(),
{
    if targets.len() > 0 {
        let init = targets.drop_last();
        let before = reachability::functions_among(db, files, init);
        let wanted = CallTarget { definition: to, kind: CallTargetKind::Function };
        lemma_functions_among(db, files, init, to);
        lemma_append(init, targets.last(), wanted);
        lemma_append(before, targets.last().definition, to);
        assert(targets =~= init.push(targets.last()));
    }
}

// ---------------------------------------------------------------------------------------------
// Reports
// ---------------------------------------------------------------------------------------------

/// Whether a target that does not match counts against a call: it is no function that the call is
/// followed to.
pub open spec fn counts(graph: Graph, site: PlacedCall, target: Target) -> bool {
    match target.identity {
        Identity::Definition(definition) => !graph.next(site).contains(definition),
        _ => true,
    }
}

/// A call is reported exactly if some target that does not match counts against it and no directive
/// suppresses its statement or the function that makes it. It is reported at its own place, with
/// exactly the targets that count, each once.
pub proof fn law_calls_are_reported_with_what_counts(
    graph: Graph,
    site: PlacedCall,
    target: Target,
    reason: CallNoMatchReason,
)
    ensures
        ({
            let open = site.call.statement_suppression is None && site.call.caller_suppression
                is None;
            match reachability::candidate_of(graph, site) {
                Some(found) => {
                    &&& open
                    &&& found.file == site.file
                    &&& found.range == site.call.range
                    &&& found.targets.len() > 0
                    &&& found.targets.no_duplicates()
                    &&& found.targets.contains((target, reason)) <==> counts(graph, site, target)
                        && site.call.no_matches.contains((target, reason))
                },
                None => open && site.call.no_matches.contains((target, reason)) ==> !counts(
                    graph,
                    site,
                    target,
                ),
            }
        }),
{
    lemma_unsupported(graph, site, site.call.no_matches, (target, reason));
    let targets = reachability::unsupported_targets(site.call.no_matches, graph.next(site));
    if targets.contains((target, reason)) {
        assert(targets.len() > 0);
    }
}

proof fn lemma_unsupported(
    graph: Graph,
    site: PlacedCall,
    no_matches: Seq<(Target, CallNoMatchReason)>,
    item: (Target, CallNoMatchReason),
)
    ensures
        ({
            let found = reachability::unsupported_targets(no_matches, graph.next(site));
            &&& found.no_duplicates()
            &&& found.contains(item) <==> no_matches.contains(item) && counts(graph, site, item.0)
        }),
    decreases no_matches.len(),
{
    if no_matches.len() > 0 {
        let init = no_matches.drop_last();
        let before = reachability::unsupported_targets(init, graph.next(site));
        lemma_unsupported(graph, site, init, item);
        lemma_append(init, no_matches.last(), item);
        lemma_append(before, no_matches.last(), item);
        assert(no_matches =~= init.push(no_matches.last()));
    }
}

/// A call is left out of the unsupported ones exactly if a call at its place closes a cycle.
pub proof fn law_only_cycles_take_calls_away(
    found: Seq<Unsupported>,
    cycles: Seq<CycleCandidate>,
    item: Unsupported,
)
    ensures
        reachability::outside_cycles(found, cycles).contains(item) <==> found.contains(item)
            && !cycles.contains(CycleCandidate { file: item.file, range: item.range }),
    decreases found.len(),
{
    if found.len() > 0 {
        let init = found.drop_last();
        law_only_cycles_take_calls_away(init, cycles, item);
        lemma_append(init, found.last(), item);
        lemma_append(reachability::outside_cycles(init, cycles), found.last(), item);
        assert(found =~= init.push(found.last()));
    }
}

// ---------------------------------------------------------------------------------------------
// Roots and problems
// ---------------------------------------------------------------------------------------------

/// The roots of files, one behind the other.
pub open spec fn listed_roots(files: Seq<FileView>) -> Seq<ResolverRootFact>
    decreases files.len(),
{
    if files.len() == 0 {
        Seq::empty()
    } else {
        listed_roots(files.drop_last()) + match files.last().facts {
            Some(facts) => facts.roots,
            None => Seq::empty(),
        }
    }
}

/// Whether a place holds the first root of its function.
pub open spec fn is_first(roots: Seq<ResolverRootFact>, i: int) -> bool {
    0 <= i < roots.len() && forall|j: int|
        0 <= j < i ==> (#[trigger] roots[j]).definition != roots[i].definition
}

spec fn starts(found: Roots, roots: Seq<ResolverRootFact>) -> bool {
    &&& found.all.no_duplicates()
    &&& found.open.no_duplicates()
    &&& forall|definition: Definition| #[trigger]
        found.all.contains(definition) <==> exists|i: int|
            0 <= i < roots.len() && (#[trigger] roots[i]).definition == definition
    &&& forall|definition: Definition| #[trigger]
        found.open.contains(definition) <==> exists|i: int|
            #[trigger] is_first(roots, i) && roots[i].definition == definition
                && roots[i].unsupported_function_suppression is None
}

proof fn lemma_one_more_root(found: Roots, roots: Seq<ResolverRootFact>, root: ResolverRootFact)
    requires
        starts(found, roots),
    ensures
        starts(
            if found.all.contains(root.definition) {
                found
            } else {
                Roots {
                    all: found.all.push(root.definition),
                    open: if root.unsupported_function_suppression is None {
                        found.open.push(root.definition)
                    } else {
                        found.open
                    },
                }
            },
            roots.push(root),
        ),
{
    let more = roots.push(root);
    let at = roots.len() as int;
    let known = found.all.contains(root.definition);
    let after = if known {
        found
    } else {
        Roots {
            all: found.all.push(root.definition),
            open: if root.unsupported_function_suppression is None {
                found.open.push(root.definition)
            } else {
                found.open
            },
        }
    };
    assert(more[at] == root);
    assert(forall|i: int| 0 <= i < at ==> #[trigger] more[i] == roots[i]);
    assert forall|i: int| 0 <= i < at implies #[trigger] is_first(more, i) == is_first(roots, i) by {
        if is_first(more, i) {
            assert forall|j: int| 0 <= j < i implies (#[trigger] roots[j]).definition
                != roots[i].definition by {
                assert(more[j].definition != more[i].definition);
            }
        }
        if is_first(roots, i) {
            assert forall|j: int| 0 <= j < i implies (#[trigger] more[j]).definition
                != more[i].definition by {
                assert(roots[j].definition != roots[i].definition);
            }
        }
    }
    assert(is_first(more, at) == !known) by {
        if known {
            let i = choose|i: int|
                0 <= i < roots.len() && (#[trigger] roots[i]).definition == root.definition;
            assert(more[i].definition == more[at].definition);
        } else {
            assert forall|j: int| 0 <= j < at implies (#[trigger] more[j]).definition
                != more[at].definition by {
                assert(roots[j].definition == more[j].definition);
            }
        }
    }
    assert forall|definition: Definition| #[trigger]
        after.all.contains(definition) == exists|i: int|
        0 <= i < more.len() && (#[trigger] more[i]).definition == definition by {
        lemma_append(found.all, root.definition, definition);
        if found.all.contains(definition) {
            let i = choose|i: int|
                0 <= i < roots.len() && (#[trigger] roots[i]).definition == definition;
            assert(more[i].definition == definition);
        }
        if root.definition == definition {
            assert(more[at].definition == definition);
        }
        if exists|i: int| 0 <= i < more.len() && (#[trigger] more[i]).definition == definition {
            let i = choose|i: int|
                0 <= i < more.len() && (#[trigger] more[i]).definition == definition;
            if i < at {
                assert(roots[i].definition == definition);
            }
        }
    }
    if found.open.contains(root.definition) {
        let i = choose|i: int|
            #[trigger] is_first(roots, i) && roots[i].definition == root.definition
                && roots[i].unsupported_function_suppression is None;
        assert(roots[i].definition == root.definition);
        assert(known);
    }
    assert forall|definition: Definition| #[trigger]
        after.open.contains(definition) == exists|i: int|
        #[trigger] is_first(more, i) && more[i].definition == definition
            && more[i].unsupported_function_suppression is None by {
        lemma_append(found.open, root.definition, definition);
        if found.open.contains(definition) {
            let i = choose|i: int|
                #[trigger] is_first(roots, i) && roots[i].definition == definition
                    && roots[i].unsupported_function_suppression is None;
            assert(is_first(more, i));
        }
        if !known && root.definition == definition && root.unsupported_function_suppression
            is None {
            assert(is_first(more, at));
        }
        if exists|i: int|
            #[trigger] is_first(more, i) && more[i].definition == definition
                && more[i].unsupported_function_suppression is None {
            let i = choose|i: int|
                #[trigger] is_first(more, i) && more[i].definition == definition
                    && more[i].unsupported_function_suppression is None;
            if i < at {
                assert(is_first(roots, i));
            }
        }
    }
}

proof fn lemma_with_roots(found: Roots, listed: Seq<ResolverRootFact>, roots: Seq<ResolverRootFact>)
    requires
        starts(found, listed),
    ensures
        starts(reachability::with_roots(found, roots), listed + roots),
    decreases roots.len(),
{
    if roots.len() == 0 {
        assert(listed + roots =~= listed);
    } else {
        let init = roots.drop_last();
        lemma_with_roots(found, listed, init);
        lemma_one_more_root(
            reachability::with_roots(found, init),
            listed + init,
            roots.last(),
        );
        assert(listed + roots =~= (listed + init).push(roots.last()));
    }
}

proof fn lemma_roots_of(files: Seq<FileView>)
    ensures
        starts(reachability::roots_of(files), listed_roots(files)),
    decreases files.len(),
{
    if files.len() > 0 {
        let init = files.drop_last();
        lemma_roots_of(init);
        match files.last().facts {
            Some(facts) => {
                lemma_with_roots(
                    reachability::roots_of(init),
                    listed_roots(init),
                    facts.roots,
                );
            },
            None => {
                assert(listed_roots(files) =~= listed_roots(init));
            },
        }
    }
}

/// Cycles are looked for from every resolver of the project; unsupported calls from every resolver
/// whose first root no directive suppresses. No function is a root twice.
pub proof fn law_every_resolver_is_a_root(files: Seq<FileView>, definition: Definition)
    ensures
        ({
            let found = reachability::roots_of(files);
            let roots = listed_roots(files);
            &&& found.all.no_duplicates()
            &&& found.open.no_duplicates()
            &&& found.all.contains(definition) <==> exists|i: int|
                0 <= i < roots.len() && (#[trigger] roots[i]).definition == definition
            &&& found.open.contains(definition) <==> exists|i: int|
                #[trigger] is_first(roots, i) && roots[i].definition == definition
                    && roots[i].unsupported_function_suppression is None
        }),
{
    lemma_roots_of(files);
}

/// Every problem with a directive of a file is one of the project, at the same place of that file,
/// and there are no others.
pub proof fn law_problems_are_those_of_the_files(
    files: Seq<FileView>,
    problem: ProjectSuppressionProblem,
)
    ensures
        reachability::problems_of(files).contains(problem) <==> exists|i: int, k: int|
            #[trigger] is_problem_at(files, i, k, problem),
    decreases files.len(),
{
    if files.len() > 0 {
        let init = files.drop_last();
        let at = files.len() - 1;
        let before = reachability::problems_of(init);
        law_problems_are_those_of_the_files(init, problem);
        assert(files[at] == files.last());
        if let Some(facts) = files.last().facts {
            let file = files.last().file;
            let own = Seq::new(
                facts.problems.len(),
                |i: int|
                    ProjectSuppressionProblem {
                        file,
                        range: facts.problems[i].range,
                        kind: facts.problems[i].kind,
                    },
            );
            lemma_sum(before, own, problem);
            if own.contains(problem) {
                let k = choose|k: int| 0 <= k < own.len() && own[k] == problem;
                assert(is_problem_at(files, at, k, problem));
            }
            assert forall|k: int|
                #[trigger] is_problem_at(files, at, k, problem) implies own.contains(problem) by {
                assert(own[k] == problem);
            }
        }
        if before.contains(problem) {
            let (i, k) = choose|i: int, k: int|
                #[trigger] is_problem_at(init, i, k, problem);
            assert(files[i] == init[i]);
            assert(is_problem_at(files, i, k, problem));
        }
        if exists|i: int, k: int|
            #[trigger] is_problem_at(files, i, k, problem) {
            let (i, k) = choose|i: int, k: int|
                #[trigger] is_problem_at(files, i, k, problem);
            if i < at {
                assert(init[i] == files[i]);
                assert(is_problem_at(init, i, k, problem));
            }
        }
    }
}

/// Whether a problem stands at a place of the facts of a file.
pub open spec fn is_problem_at(
    files: Seq<FileView>,
    i: int,
    k: int,
    problem: ProjectSuppressionProblem,
) -> bool {
    &&& facts_at(files, i) matches Some(facts)
    &&& 0 <= k < facts.problems.len()
    &&& facts.problems[k].range == problem.range
    &&& facts.problems[k].kind == problem.kind
    &&& files[i].file == problem.file
}

} // verus!

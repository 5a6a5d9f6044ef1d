//! What holds of the cycles that are reported: no directive hides one, and none is reported twice.

use vstd::prelude::*;

use crate::facts::ResolverRootFact;
use crate::order;
use crate::reachability;
use crate::reachability::{
    Analysis, CycleCandidate, FileView, Graph, Placed, PlacedCall, ProjectCandidates, ProjectFile,
    Roots, VisitState, Walk,
};
use crate::semantic::{Db, Definition};

verus! {

/// Whether two calls are the same but for the directives that suppress them.
pub open spec fn same_call(left: PlacedCall, right: PlacedCall) -> bool {
    &&& left.file == right.file
    &&& left.call.caller == right.call.caller
    &&& left.call.range == right.call.range
    &&& left.call.targets == right.call.targets
}

/// Whether two lists of calls are the same but for the directives that suppress them.
pub open spec fn same_calls(left: Seq<PlacedCall>, right: Seq<PlacedCall>) -> bool {
    &&& left.len() == right.len()
    &&& forall|i: int| 0 <= i < left.len() ==> same_call(#[trigger] left[i], right[i])
}

/// Whether two lists of roots are of the same functions.
pub open spec fn same_roots(left: Seq<ResolverRootFact>, right: Seq<ResolverRootFact>) -> bool {
    &&& left.len() == right.len()
    &&& forall|i: int|
        0 <= i < left.len() ==> (#[trigger] left[i]).definition == right[i].definition
}

/// Whether two files have the same functions and calls, whatever directives they hold.
pub open spec fn same_but_directives(left: FileView, right: FileView) -> bool {
    &&& left.file == right.file
    &&& left.facts is Some == right.facts is Some
    &&& left.facts is Some ==> same_roots(left.facts->0.roots, right.facts->0.roots)
    &&& same_calls(reachability::calls_in(left), reachability::calls_in(right))
}

/// No directive hides a cycle: files that differ in their directives alone have the same cycles.
pub proof fn law_cycles_cannot_be_suppressed(db: Db, left: Seq<FileView>, right: Seq<FileView>)
    requires
        left.len() == right.len(),
        forall|i: int| 0 <= i < left.len() ==> same_but_directives(#[trigger] left[i], right[i]),
    ensures
        reachability::reached_cycles(db, left) == reachability::reached_cycles(db, right),
{
    let a = reachability::graph_of(db, left);
    let b = reachability::graph_of(db, right);
    assert forall|i: int| 0 <= i < left.len() implies left[i].file == #[trigger] right[i].file by {
        assert(same_but_directives(left[i], right[i]));
    }
    assert(a.files =~= b.files);
    lemma_same_sites(left, right);
    lemma_same_roots(left, right);
    lemma_same_visit_all(
        a,
        b,
        db.definitions@.len(),
        reachability::roots_of(left).all,
        reachability::fresh(),
    );
}

proof fn lemma_same_sites(left: Seq<FileView>, right: Seq<FileView>)
    requires
        left.len() == right.len(),
        forall|i: int| 0 <= i < left.len() ==> same_but_directives(#[trigger] left[i], right[i]),
    ensures
        same_calls(reachability::all_calls(left), reachability::all_calls(right)),
    decreases left.len(),
{
    if left.len() > 0 {
        assert forall|i: int| 0 <= i < left.len() - 1 implies same_but_directives(
            #[trigger] left.drop_last()[i],
            right.drop_last()[i],
        ) by {
            assert(same_but_directives(left[i], right[i]));
        }
        lemma_same_sites(left.drop_last(), right.drop_last());
        assert(same_but_directives(left[left.len() - 1], right[left.len() - 1]));
    }
}

proof fn lemma_same_roots(left: Seq<FileView>, right: Seq<FileView>)
    requires
        left.len() == right.len(),
        forall|i: int| 0 <= i < left.len() ==> same_but_directives(#[trigger] left[i], right[i]),
    ensures
        reachability::roots_of(left).all == reachability::roots_of(right).all,
    decreases left.len(),
{
    if left.len() > 0 {
        assert forall|i: int| 0 <= i < left.len() - 1 implies same_but_directives(
            #[trigger] left.drop_last()[i],
            right.drop_last()[i],
        ) by {
            assert(same_but_directives(left[i], right[i]));
        }
        lemma_same_roots(left.drop_last(), right.drop_last());
        assert(same_but_directives(left[left.len() - 1], right[left.len() - 1]));
        if left.last().facts is Some {
            lemma_same_with_roots(
                reachability::roots_of(left.drop_last()),
                reachability::roots_of(right.drop_last()),
                left.last().facts->0.roots,
                right.last().facts->0.roots,
            );
        }
    }
}

proof fn lemma_same_with_roots(
    a: Roots,
    b: Roots,
    left: Seq<ResolverRootFact>,
    right: Seq<ResolverRootFact>,
)
    requires
        a.all == b.all,
        same_roots(left, right),
    ensures
        reachability::with_roots(a, left).all == reachability::with_roots(b, right).all,
    decreases left.len(),
{
    if left.len() > 0 {
        assert(left[left.len() - 1].definition == right[left.len() - 1].definition);
        lemma_same_with_roots(a, b, left.drop_last(), right.drop_last());
    }
}

proof fn lemma_same_calls_by(left: Seq<PlacedCall>, right: Seq<PlacedCall>, caller: Definition)
    requires
        same_calls(left, right),
    ensures
        same_calls(reachability::calls_by(left, caller), reachability::calls_by(right, caller)),
    decreases left.len(),
{
    if left.len() > 0 {
        assert(same_call(left[left.len() - 1], right[left.len() - 1]));
        lemma_same_calls_by(left.drop_last(), right.drop_last(), caller);
    }
}

/// Whether two graphs have the same functions and calls, whatever directives they hold.
spec fn same_graph(a: Graph, b: Graph) -> bool {
    &&& a.db == b.db
    &&& a.files == b.files
    &&& same_calls(a.sites, b.sites)
}

proof fn lemma_same_visit_all(a: Graph, b: Graph, depth: nat, roots: Seq<Definition>, walk: Walk)
    requires
        same_graph(a, b),
    ensures
        reachability::visit_all(a, Analysis::Cycles, depth, roots, walk)
            == reachability::visit_all(b, Analysis::Cycles, depth, roots, walk),
    decreases roots.len(),
{
    if roots.len() > 0 {
        lemma_same_visit_all(a, b, depth, roots.drop_last(), walk);
        lemma_same_visit(
            a,
            b,
            depth,
            roots.last(),
            reachability::visit_all(a, Analysis::Cycles, depth, roots.drop_last(), walk),
        );
    }
}

proof fn lemma_same_visit(a: Graph, b: Graph, depth: nat, definition: Definition, walk: Walk)
    requires
        same_graph(a, b),
    ensures
        reachability::visit(a, Analysis::Cycles, depth, definition, walk) == reachability::visit(
            b,
            Analysis::Cycles,
            depth,
            definition,
            walk,
        ),
    decreases depth, 0int, 0int,
{
    if !walk.states.contains_key(definition) && depth > 0 {
        let entered = Walk {
            states: walk.states.insert(definition, VisitState::Visiting),
            ..walk
        };
        lemma_same_calls_by(a.sites, b.sites, definition);
        lemma_same_visit_calls(
            a,
            b,
            (depth - 1) as nat,
            a.calls_of(definition),
            b.calls_of(definition),
            entered,
        );
    }
}

proof fn lemma_same_visit_calls(
    a: Graph,
    b: Graph,
    depth: nat,
    left: Seq<PlacedCall>,
    right: Seq<PlacedCall>,
    walk: Walk,
)
    requires
        same_graph(a, b),
        same_calls(left, right),
    ensures
        reachability::visit_calls(a, Analysis::Cycles, depth, left, walk)
            == reachability::visit_calls(b, Analysis::Cycles, depth, right, walk),
    decreases depth, 3int, left.len(),
{
    if left.len() > 0 {
        lemma_same_visit_calls(a, b, depth, left.drop_last(), right.drop_last(), walk);
        assert(same_call(left[left.len() - 1], right[left.len() - 1]));
        let before = reachability::visit_calls(
            a,
            Analysis::Cycles,
            depth,
            left.drop_last(),
            walk,
        );
        lemma_same_follow(
            a,
            b,
            depth,
            left.last(),
            right.last(),
            a.next(left.last()),
            before,
        );
        assert(reachability::visit_call(a, Analysis::Cycles, depth, left.last(), before)
            == reachability::visit_call(b, Analysis::Cycles, depth, right.last(), before));
    }
}

proof fn lemma_same_follow(
    a: Graph,
    b: Graph,
    depth: nat,
    left: PlacedCall,
    right: PlacedCall,
    targets: Seq<Definition>,
    walk: Walk,
)
    requires
        same_graph(a, b),
        same_call(left, right),
    ensures
        reachability::follow(a, Analysis::Cycles, depth, left, targets, walk)
            == reachability::follow(b, Analysis::Cycles, depth, right, targets, walk),
    decreases depth, 1int, targets.len(),
{
    if targets.len() > 0 {
        lemma_same_follow(a, b, depth, left, right, targets.drop_last(), walk);
        let before = reachability::follow(
            a,
            Analysis::Cycles,
            depth,
            left,
            targets.drop_last(),
            walk,
        );
        lemma_same_visit(a, b, depth, targets.last(), before);
    }
}

// ---------------------------------------------------------------------------------------------
// Repetition
// ---------------------------------------------------------------------------------------------

/// No call is reported twice as closing a cycle.
pub proof fn law_cycles_occur_once(db: Db, files: Seq<ProjectFile>, found: ProjectCandidates)
    requires
        found.of(db, files),
    ensures
        found.cycles@.no_duplicates(),
{
    let sorted = reachability::sorted_files(db, files);
    let cycles = reachability::reached_cycles(db, sorted);
    lemma_once_visit_all(
        reachability::graph_of(db, sorted),
        db.definitions@.len(),
        reachability::roots_of(sorted).all,
        reachability::fresh(),
    );
    let placed = Seq::new(
        cycles.len(),
        |i: int| reachability::placed_at(db, cycles[i].file, cycles[i].range, cycles[i]),
    );
    assert(placed.no_duplicates()) by {
        assert forall|i: int, j: int|
            0 <= i < placed.len() && 0 <= j < placed.len() && i != j implies placed[i]
            != placed[j] by {
            assert(placed[i].item == cycles[i] && placed[j].item == cycles[j]);
        }
    }
    order::lemma_stable_sort(placed);
    let in_order = order::stable_sort(placed);
    placed.lemma_multiset_has_no_duplicates();
    assert forall|x: Placed<CycleCandidate>| in_order.to_multiset().contains(x) implies
        #[trigger] in_order.to_multiset().count(x) == 1 by {
        assert(placed.to_multiset().contains(x));
    }
    in_order.lemma_multiset_has_no_duplicates_conv();
    assert forall|i: int, j: int| 0 <= i < j < found.cycles@.len() implies found.cycles@[i]
        != found.cycles@[j] by {
        assert(found.cycles@[i] == in_order[i].item && found.cycles@[j] == in_order[j].item);
        assert(in_order.contains(in_order[i]) && in_order.contains(in_order[j]));
        let m = choose|m: int| 0 <= m < placed.len() && placed[m] == in_order[i];
        let n = choose|n: int| 0 <= n < placed.len() && placed[n] == in_order[j];
        assert(in_order[i] != in_order[j]);
    }
}

proof fn lemma_once_visit_all(graph: Graph, depth: nat, roots: Seq<Definition>, walk: Walk)
    requires
        walk.cycles.no_duplicates(),
    ensures
        reachability::visit_all(
            graph,
            Analysis::Cycles,
            depth,
            roots,
            walk,
        ).cycles.no_duplicates(),
    decreases roots.len(),
{
    if roots.len() > 0 {
        lemma_once_visit_all(graph, depth, roots.drop_last(), walk);
        lemma_once_visit(
            graph,
            depth,
            roots.last(),
            reachability::visit_all(graph, Analysis::Cycles, depth, roots.drop_last(), walk),
        );
    }
}

proof fn lemma_once_visit(graph: Graph, depth: nat, definition: Definition, walk: Walk)
    requires
        walk.cycles.no_duplicates(),
    ensures
        reachability::visit(
            graph,
            Analysis::Cycles,
            depth,
            definition,
            walk,
        ).cycles.no_duplicates(),
    decreases depth, 0int, 0int,
{
    if !walk.states.contains_key(definition) && depth > 0 {
        let entered = Walk {
            states: walk.states.insert(definition, VisitState::Visiting),
            ..walk
        };
        lemma_once_visit_calls(graph, (depth - 1) as nat, graph.calls_of(definition), entered);
    }
}

proof fn lemma_once_visit_calls(graph: Graph, depth: nat, sites: Seq<PlacedCall>, walk: Walk)
    requires
        walk.cycles.no_duplicates(),
    ensures
        reachability::visit_calls(
            graph,
            Analysis::Cycles,
            depth,
            sites,
            walk,
        ).cycles.no_duplicates(),
    decreases depth, 3int, sites.len(),
{
    if sites.len() > 0 {
        lemma_once_visit_calls(graph, depth, sites.drop_last(), walk);
        let before = reachability::visit_calls(
            graph,
            Analysis::Cycles,
            depth,
            sites.drop_last(),
            walk,
        );
        lemma_once_follow(graph, depth, sites.last(), graph.next(sites.last()), before);
        assert(reachability::visit_call(
            graph,
            Analysis::Cycles,
            depth,
            sites.last(),
            before,
        ).cycles.no_duplicates());
    }
}

proof fn lemma_once_follow(
    graph: Graph,
    depth: nat,
    site: PlacedCall,
    targets: Seq<Definition>,
    walk: Walk,
)
    requires
        walk.cycles.no_duplicates(),
    ensures
        reachability::follow(
            graph,
            Analysis::Cycles,
            depth,
            site,
            targets,
            walk,
        ).cycles.no_duplicates(),
    decreases depth, 1int, targets.len(),
{
    if targets.len() > 0 {
        lemma_once_follow(graph, depth, site, targets.drop_last(), walk);
        let before = reachability::follow(
            graph,
            Analysis::Cycles,
            depth,
            site,
            targets.drop_last(),
            walk,
        );
        lemma_once_visit(graph, depth, targets.last(), before);
    }
}

} // verus!

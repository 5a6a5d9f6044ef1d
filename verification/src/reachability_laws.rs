//! What holds of every walk through the calls of a project.

use vstd::prelude::*;

use crate::facts;
use crate::facts::ResolverRootFact;
use crate::order;
use crate::order::Ordered;
use crate::provenance;
use crate::provenance::CallTarget;
use crate::reachability;
use crate::reachability::{
    Analysis, CycleCandidate, FileView, Graph, Place, Placed, PlacedCall, ProjectCandidates,
    ProjectFile, ProjectSuppressionProblem, Roots, Unsupported, VisitState, Walk,
};
use crate::semantic::{Db, Definition, File};
use crate::text::TextRange;

verus! {

// ---------------------------------------------------------------------------------------------
// Reaching
// ---------------------------------------------------------------------------------------------

/// Whether a call of one function leads to another.
pub open spec fn leads_to(graph: Graph, from: Definition, to: Definition) -> bool {
    exists|i: int|
        0 <= i < graph.sites.len() && (#[trigger] graph.sites[i]).call.caller == from && graph.next(
            graph.sites[i],
        ).contains(to)
}

/// Whether every function of a path is called by the one before it.
pub open spec fn is_path(graph: Graph, path: Seq<Definition>) -> bool {
    &&& path.len() > 0
    &&& forall|i: int, j: int|
        0 <= i && j == i + 1 && j < path.len() ==> leads_to(
            graph,
            #[trigger] path[i],
            #[trigger] path[j],
        )
}

/// Whether calls lead from one function to another, over any number of functions or none.
pub open spec fn reaches(graph: Graph, from: Definition, to: Definition) -> bool {
    exists|path: Seq<Definition>| #[trigger]
        is_path(graph, path) && path[0] == from && path.last() == to
}

/// Whether calls lead from one of several functions to another.
pub open spec fn reached_from(graph: Graph, roots: Seq<Definition>, to: Definition) -> bool {
    exists|i: int| 0 <= i < roots.len() && reaches(graph, #[trigger] roots[i], to)
}

proof fn lemma_reaches_self(graph: Graph, definition: Definition)
    ensures
        reaches(graph, definition, definition),
{
    let path = seq![definition];
    assert(is_path(graph, path));
    assert(path.last() == definition);
}

proof fn lemma_reaches_step(graph: Graph, from: Definition, via: Definition, to: Definition)
    requires
        reaches(graph, from, via),
        leads_to(graph, via, to),
    ensures
        reaches(graph, from, to),
{
    let path = choose|path: Seq<Definition>| #[trigger]
        is_path(graph, path) && path[0] == from && path.last() == via;
    let longer = path.push(to);
    assert forall|i: int, j: int| 0 <= i && j == i + 1 && j < longer.len() implies leads_to(
        graph,
        #[trigger] longer[i],
        #[trigger] longer[j],
    ) by {
        if j < path.len() {
            assert(longer[i] == path[i] && longer[j] == path[j]);
        } else {
            assert(longer[i] == path.last());
        }
    }
    assert(is_path(graph, longer));
    assert(longer[0] == from);
    assert(longer.last() == to);
}

proof fn lemma_reaches_join(graph: Graph, from: Definition, via: Definition, to: Definition)
    requires
        reaches(graph, from, via),
        reaches(graph, via, to),
    ensures
        reaches(graph, from, to),
{
    let path = choose|path: Seq<Definition>| #[trigger]
        is_path(graph, path) && path[0] == via && path.last() == to;
    lemma_reaches_along(graph, from, path, path.len() - 1);
}

proof fn lemma_reaches_along(graph: Graph, from: Definition, path: Seq<Definition>, at: int)
    requires
        is_path(graph, path),
        0 <= at < path.len(),
        reaches(graph, from, path[0]),
    ensures
        reaches(graph, from, path[at]),
    decreases at,
{
    if at > 0 {
        lemma_reaches_along(graph, from, path, at - 1);
        assert(leads_to(graph, path[at - 1], path[at]));
        lemma_reaches_step(graph, from, path[at - 1], path[at]);
    }
}

proof fn lemma_calls_by(sites: Seq<PlacedCall>, caller: Definition)
    ensures
        forall|site: PlacedCall| #[trigger]
            reachability::calls_by(sites, caller).contains(site) <==> sites.contains(site)
                && site.call.caller == caller,
    decreases sites.len(),
{
    let all = reachability::calls_by(sites, caller);
    if sites.len() > 0 {
        let init = sites.drop_last();
        let before = reachability::calls_by(init, caller);
        lemma_calls_by(init, caller);
        assert forall|site: PlacedCall| #[trigger] all.contains(site) <==> sites.contains(site)
            && site.call.caller == caller by {
            assert(before.contains(site) <==> init.contains(site) && site.call.caller == caller);
            if init.contains(site) {
                let k = choose|k: int| 0 <= k < init.len() && init[k] == site;
                assert(sites[k] == site);
            }
            if sites.contains(site) {
                let k = choose|k: int| 0 <= k < sites.len() && sites[k] == site;
                if k < init.len() {
                    assert(init[k] == site);
                }
            }
            if before.contains(site) {
                let k = choose|k: int| 0 <= k < before.len() && before[k] == site;
                assert(all[k] == site);
            }
            if all.contains(site) {
                let k = choose|k: int| 0 <= k < all.len() && all[k] == site;
                if k < before.len() {
                    assert(before[k] == site);
                } else {
                    assert(site == sites.last());
                    assert(sites[sites.len() - 1] == site);
                }
            }
            if site == sites.last() && site.call.caller == caller {
                assert(all[before.len() as int] == site);
            }
        }
    }
}

// ---------------------------------------------------------------------------------------------
// Soundness
// ---------------------------------------------------------------------------------------------

/// Whether an unsupported call comes from a call of a function that is reached.
pub open spec fn is_reached_call(graph: Graph, from: Definition, found: Unsupported) -> bool {
    exists|i: int|
        0 <= i < graph.sites.len() && reaches(
            graph,
            from,
            (#[trigger] graph.sites[i]).call.caller,
        ) && reachability::candidate_of(graph, graph.sites[i]) == Some(found)
}

/// Whether a place is that of a call, of a function that is reached, that leads back to its caller.
pub open spec fn is_reached_cycle(graph: Graph, from: Definition, place: CycleCandidate) -> bool {
    exists|i: int, to: Definition|
        0 <= i < graph.sites.len() && reaches(
            graph,
            from,
            (#[trigger] graph.sites[i]).call.caller,
        ) && reachability::place_of(graph.sites[i]) == place && #[trigger] graph.next(
            graph.sites[i],
        ).contains(to) && reaches(graph, to, graph.sites[i].call.caller)
}

spec fn is_visiting(walk: Walk, definition: Definition) -> bool {
    walk.states.contains_key(definition) && walk.states[definition] == VisitState::Visiting
}

spec fn is_done(walk: Walk, definition: Definition) -> bool {
    walk.states.contains_key(definition) && walk.states[definition] == VisitState::Done
}

/// A walk on from a function only finds what that function reaches.
spec fn sound(graph: Graph, from: Definition, before: Walk, after: Walk) -> bool {
    &&& forall|d: Definition|
        #![trigger after.states.contains_key(d)]
        after.states.contains_key(d) && !before.states.contains_key(d) ==> reaches(graph, from, d)
    &&& forall|d: Definition| #[trigger] is_visiting(after, d) <==> is_visiting(before, d)
    &&& before.unsupported.len() <= after.unsupported.len()
    &&& forall|j: int|
        0 <= j < before.unsupported.len() ==> #[trigger] after.unsupported[j]
            == before.unsupported[j]
    &&& forall|j: int|
        before.unsupported.len() <= j < after.unsupported.len() ==> is_reached_call(
            graph,
            from,
            #[trigger] after.unsupported[j],
        )
    &&& before.cycles.len() <= after.cycles.len()
    &&& forall|j: int|
        0 <= j < before.cycles.len() ==> #[trigger] after.cycles[j] == before.cycles[j]
    &&& forall|j: int|
        before.cycles.len() <= j < after.cycles.len() ==> is_reached_cycle(
            graph,
            from,
            #[trigger] after.cycles[j],
        )
}

proof fn lemma_sound_join(graph: Graph, from: Definition, a: Walk, b: Walk, c: Walk)
    requires
        sound(graph, from, a, b),
        sound(graph, from, b, c),
    ensures
        sound(graph, from, a, c),
{
    assert forall|d: Definition|
        #![trigger c.states.contains_key(d)]
        c.states.contains_key(d) && !a.states.contains_key(d) implies reaches(graph, from, d) by {
        assert(b.states.contains_key(d) || !b.states.contains_key(d));
    }
    assert forall|d: Definition| #[trigger] is_visiting(c, d) <==> is_visiting(a, d) by {
        assert(is_visiting(b, d) <==> is_visiting(a, d));
    }
    assert forall|j: int| 0 <= j < a.unsupported.len() implies #[trigger] c.unsupported[j]
        == a.unsupported[j] by {
        assert(b.unsupported[j] == a.unsupported[j]);
    }
    assert forall|j: int| a.unsupported.len() <= j < c.unsupported.len() implies is_reached_call(
        graph,
        from,
        #[trigger] c.unsupported[j],
    ) by {
        if j < b.unsupported.len() {
            assert(c.unsupported[j] == b.unsupported[j]);
        }
    }
    assert forall|j: int| 0 <= j < a.cycles.len() implies #[trigger] c.cycles[j] == a.cycles[j] by {
        assert(b.cycles[j] == a.cycles[j]);
    }
    assert forall|j: int| a.cycles.len() <= j < c.cycles.len() implies is_reached_cycle(
        graph,
        from,
        #[trigger] c.cycles[j],
    ) by {
        if j < b.cycles.len() {
            assert(c.cycles[j] == b.cycles[j]);
        }
    }
}

proof fn lemma_sound_lift(graph: Graph, from: Definition, to: Definition, a: Walk, b: Walk)
    requires
        reaches(graph, from, to),
        sound(graph, to, a, b),
    ensures
        sound(graph, from, a, b),
{
    assert forall|d: Definition|
        #![trigger b.states.contains_key(d)]
        b.states.contains_key(d) && !a.states.contains_key(d) implies reaches(graph, from, d) by {
        lemma_reaches_join(graph, from, to, d);
    }
    assert forall|j: int| a.unsupported.len() <= j < b.unsupported.len() implies is_reached_call(
        graph,
        from,
        #[trigger] b.unsupported[j],
    ) by {
        assert(is_reached_call(graph, to, b.unsupported[j]));
        let i = choose|i: int|
            0 <= i < graph.sites.len() && reaches(
                graph,
                to,
                (#[trigger] graph.sites[i]).call.caller,
            ) && reachability::candidate_of(graph, graph.sites[i]) == Some(b.unsupported[j]);
        lemma_reaches_join(graph, from, to, graph.sites[i].call.caller);
    }
    assert forall|j: int| a.cycles.len() <= j < b.cycles.len() implies is_reached_cycle(
        graph,
        from,
        #[trigger] b.cycles[j],
    ) by {
        assert(is_reached_cycle(graph, to, b.cycles[j]));
        let (i, back) = choose|i: int, back: Definition|
            0 <= i < graph.sites.len() && reaches(
                graph,
                to,
                (#[trigger] graph.sites[i]).call.caller,
            ) && reachability::place_of(graph.sites[i]) == b.cycles[j] && #[trigger] graph.next(
                graph.sites[i],
            ).contains(back) && reaches(graph, back, graph.sites[i].call.caller);
        lemma_reaches_join(graph, from, to, graph.sites[i].call.caller);
    }
}

/// Whether everything that a walk is in reaches a function.
spec fn stack_reaches(graph: Graph, walk: Walk, definition: Definition) -> bool {
    forall|d: Definition| #[trigger] is_visiting(walk, d) ==> reaches(graph, d, definition)
}

proof fn lemma_visit_sound(
    graph: Graph,
    analysis: Analysis,
    depth: nat,
    definition: Definition,
    walk: Walk,
)
    requires
        stack_reaches(graph, walk, definition),
    ensures
        sound(
            graph,
            definition,
            walk,
            reachability::visit(graph, analysis, depth, definition, walk),
        ),
    decreases depth, 0int, 0int,
{
    if !walk.states.contains_key(definition) && depth > 0 {
        let entered = Walk {
            states: walk.states.insert(definition, VisitState::Visiting),
            ..walk
        };
        let sites = graph.calls_of(definition);
        lemma_reaches_self(graph, definition);
        lemma_calls_by(graph.sites, definition);
        assert forall|d: Definition| #[trigger] is_visiting(entered, d) implies reaches(
            graph,
            d,
            definition,
        ) by {
            assert(d == definition || is_visiting(walk, d));
        }
        assert forall|i: int| 0 <= i < sites.len() implies is_call_of(
            graph,
            definition,
            #[trigger] sites[i],
        ) by {
            assert(sites.contains(sites[i]));
        }
        lemma_visit_calls_sound(graph, analysis, (depth - 1) as nat, definition, sites, entered);
        let left = reachability::visit_calls(
            graph,
            analysis,
            (depth - 1) as nat,
            sites,
            entered,
        );
        let after = reachability::visit(graph, analysis, depth, definition, walk);
        assert(after.states == left.states.insert(definition, VisitState::Done));
        assert forall|d: Definition|
            #![trigger after.states.contains_key(d)]
            after.states.contains_key(d) && !walk.states.contains_key(d) implies reaches(
            graph,
            definition,
            d,
        ) by {
            if d != definition {
                assert(left.states.contains_key(d));
            }
        }
        assert forall|d: Definition| #[trigger] is_visiting(after, d) <==> is_visiting(walk, d) by {
            assert(is_visiting(left, d) <==> is_visiting(entered, d));
        }
    }
}

/// Whether a call of the project belongs to a function.
spec fn is_call_of(graph: Graph, caller: Definition, site: PlacedCall) -> bool {
    graph.sites.contains(site) && site.call.caller == caller
}

proof fn lemma_visit_calls_sound(
    graph: Graph,
    analysis: Analysis,
    depth: nat,
    caller: Definition,
    sites: Seq<PlacedCall>,
    walk: Walk,
)
    requires
        stack_reaches(graph, walk, caller),
        forall|i: int| 0 <= i < sites.len() ==> is_call_of(graph, caller, #[trigger] sites[i]),
    ensures
        sound(
            graph,
            caller,
            walk,
            reachability::visit_calls(graph, analysis, depth, sites, walk),
        ),
    decreases depth, 3int, sites.len(),
{
    if sites.len() > 0 {
        let init = sites.drop_last();
        let site = sites.last();
        lemma_visit_calls_sound(graph, analysis, depth, caller, init, walk);
        let before = reachability::visit_calls(graph, analysis, depth, init, walk);
        let note = reachability::noted(graph, analysis, site, before);
        assert(is_call_of(graph, caller, sites[sites.len() - 1]));
        lemma_noted_sound(graph, analysis, caller, site, before);
        lemma_sound_join(graph, caller, walk, before, note);
        assert forall|d: Definition| #[trigger] is_visiting(note, d) implies reaches(
            graph,
            d,
            caller,
        ) by {
            assert(is_visiting(walk, d));
        }
        lemma_follow_sound(graph, analysis, depth, caller, site, graph.next(site), note);
        reachability::lemma_visit_call(graph, analysis, depth, site, before);
        lemma_sound_join(
            graph,
            caller,
            walk,
            note,
            reachability::visit_calls(graph, analysis, depth, sites, walk),
        );
    }
}

proof fn lemma_noted_sound(
    graph: Graph,
    analysis: Analysis,
    caller: Definition,
    site: PlacedCall,
    walk: Walk,
)
    requires
        is_call_of(graph, caller, site),
    ensures
        sound(graph, caller, walk, reachability::noted(graph, analysis, site, walk)),
{
    lemma_reaches_self(graph, caller);
    let k = choose|k: int| 0 <= k < graph.sites.len() && graph.sites[k] == site;
    assert(graph.sites[k].call.caller == caller);
}

proof fn lemma_follow_sound(
    graph: Graph,
    analysis: Analysis,
    depth: nat,
    caller: Definition,
    site: PlacedCall,
    targets: Seq<Definition>,
    walk: Walk,
)
    requires
        stack_reaches(graph, walk, caller),
        is_call_of(graph, caller, site),
        forall|i: int| 0 <= i < targets.len() ==> graph.next(site).contains(#[trigger] targets[i]),
    ensures
        sound(
            graph,
            caller,
            walk,
            reachability::follow(graph, analysis, depth, site, targets, walk),
        ),
    decreases depth, 1int, targets.len(),
{
    if targets.len() > 0 {
        let init = targets.drop_last();
        let target = targets.last();
        lemma_follow_sound(graph, analysis, depth, caller, site, init, walk);
        let before = reachability::follow(graph, analysis, depth, site, init, walk);
        let after = reachability::follow(graph, analysis, depth, site, targets, walk);
        let k = choose|k: int| 0 <= k < graph.sites.len() && graph.sites[k] == site;
        assert(graph.sites[k].call.caller == caller);
        assert(targets[targets.len() - 1] == target);
        assert(leads_to(graph, caller, target));
        lemma_reaches_self(graph, caller);
        lemma_reaches_step(graph, caller, caller, target);
        if !before.states.contains_key(target) {
            assert forall|d: Definition| #[trigger] is_visiting(before, d) implies reaches(
                graph,
                d,
                target,
            ) by {
                assert(is_visiting(walk, d));
                lemma_reaches_step(graph, d, caller, target);
            }
            lemma_visit_sound(graph, analysis, depth, target, before);
            lemma_sound_lift(graph, caller, target, before, after);
        } else if after != before {
            assert(is_visiting(before, target));
            assert(is_visiting(walk, target));
            assert(reaches(graph, target, caller));
            assert(is_reached_cycle(graph, caller, reachability::place_of(site))) by {
                assert(graph.next(graph.sites[k]).contains(target));
            }
            assert(sound(graph, caller, before, after));
        }
        lemma_sound_join(graph, caller, walk, before, after);
    }
}

// ---------------------------------------------------------------------------------------------
// Completeness
// ---------------------------------------------------------------------------------------------

/// How many of the first functions a walk has not entered.
spec fn missing(count: nat, walk: Walk) -> nat
    decreases count,
{
    if count == 0 {
        0
    } else {
        missing((count - 1) as nat, walk) + if walk.states.contains_key(
            Definition { id: (count - 1) as usize },
        ) {
            0nat
        } else {
            1
        }
    }
}

proof fn lemma_missing_grows(count: nat, before: Walk, after: Walk)
    requires
        forall|d: Definition|
            before.states.contains_key(d) ==> #[trigger] after.states.contains_key(d),
    ensures
        missing(count, after) <= missing(count, before),
    decreases count,
{
    if count > 0 {
        lemma_missing_grows((count - 1) as nat, before, after);
    }
}

proof fn lemma_missing_enters(count: nat, before: Walk, after: Walk, definition: Definition)
    requires
        count <= usize::MAX,
        definition.id < count,
        !before.states.contains_key(definition),
        after.states.contains_key(definition),
        forall|d: Definition|
            before.states.contains_key(d) ==> #[trigger] after.states.contains_key(d),
    ensures
        missing(count, after) < missing(count, before),
    decreases count,
{
    let last = Definition { id: (count - 1) as usize };
    if last == definition {
        lemma_missing_grows((count - 1) as nat, before, after);
    } else {
        lemma_missing_enters((count - 1) as nat, before, after, definition);
    }
}

proof fn lemma_missing_bound(count: nat, walk: Walk)
    ensures
        missing(count, walk) <= count,
    decreases count,
{
    if count > 0 {
        lemma_missing_bound((count - 1) as nat, walk);
    }
}

/// Whether a walk of a depth can go everywhere.
spec fn enough(graph: Graph, depth: nat, walk: Walk) -> bool {
    missing(graph.db.definitions@.len(), walk) <= depth
}

/// Whether all calls of a graph lead to known functions.
pub open spec fn graph_known(graph: Graph) -> bool {
    forall|i: int, d: Definition|
        0 <= i < graph.sites.len() && #[trigger] graph.next(graph.sites[i]).contains(d)
            ==> graph.db.has_definition(d)
}

/// What became of one target of a call: it was left before, or the walk is still in it, and then
/// the call is noted as closing a cycle.
spec fn target_settled(
    analysis: Analysis,
    site: PlacedCall,
    target: Definition,
    left: Seq<Definition>,
    open: Seq<Definition>,
    before: Walk,
    after: Walk,
) -> bool {
    ||| left.contains(target)
    ||| is_done(before, target)
    ||| (is_visiting(before, target) || open.contains(target)) && (analysis == Analysis::Cycles
        ==> after.cycles.contains(reachability::place_of(site)))
}

/// What became of a call: all its targets are settled, and it is noted if it is not supported.
spec fn call_settled(
    graph: Graph,
    analysis: Analysis,
    site: PlacedCall,
    left: Seq<Definition>,
    open: Seq<Definition>,
    before: Walk,
    after: Walk,
) -> bool {
    &&& forall|target: Definition| #[trigger]
        graph.next(site).contains(target) ==> target_settled(
            analysis,
            site,
            target,
            left,
            open,
            before,
            after,
        )
    &&& analysis == Analysis::Unsupported && reachability::candidate_of(graph, site) is Some
        ==> after.unsupported.contains(reachability::candidate_of(graph, site)->0)
}

/// A walk has entered and left some functions, in this order, and settled their calls.
spec fn complete(
    graph: Graph,
    analysis: Analysis,
    before: Walk,
    after: Walk,
    order: Seq<Definition>,
) -> bool {
    &&& forall|d: Definition|
        before.states.contains_key(d) ==> #[trigger] after.states.contains_key(d)
            && after.states[d] == before.states[d]
    &&& forall|d: Definition|
        #[trigger] after.states.contains_key(d) <==> before.states.contains_key(d)
            || order.contains(d)
    &&& forall|i: int|
        0 <= i < order.len() ==> !before.states.contains_key(#[trigger] order[i]) && is_done(
            after,
            order[i],
        )
    &&& forall|i: int, j: int| 0 <= i < j < order.len() ==> #[trigger] order[i] != #[trigger] order[j]
    &&& forall|c: Unsupported| #[trigger]
        before.unsupported.contains(c) ==> after.unsupported.contains(c)
    &&& forall|c: CycleCandidate| #[trigger] before.cycles.contains(c) ==> after.cycles.contains(c)
    &&& forall|i: int, site: PlacedCall|
        0 <= i < order.len() && #[trigger] is_call_of(graph, #[trigger] order[i], site)
            ==> call_settled(graph, analysis, site, order.take(i), order, before, after)
}

proof fn lemma_target_settled_widens(
    analysis: Analysis,
    site: PlacedCall,
    target: Definition,
    left: Seq<Definition>,
    open: Seq<Definition>,
    before: Walk,
    after: Walk,
    wider_left: Seq<Definition>,
    wider_open: Seq<Definition>,
    earlier: Walk,
    later: Walk,
)
    requires
        target_settled(analysis, site, target, left, open, before, after),
        left.contains(target) ==> wider_left.contains(target),
        open.contains(target) ==> wider_open.contains(target),
        is_done(before, target) ==> is_done(earlier, target) || wider_left.contains(target),
        is_visiting(before, target) ==> is_visiting(earlier, target) || wider_open.contains(target),
        after.cycles.contains(reachability::place_of(site)) ==> later.cycles.contains(
            reachability::place_of(site),
        ),
    ensures
        target_settled(analysis, site, target, wider_left, wider_open, earlier, later),
{
}

proof fn lemma_complete_join(
    graph: Graph,
    analysis: Analysis,
    a: Walk,
    b: Walk,
    c: Walk,
    first: Seq<Definition>,
    second: Seq<Definition>,
)
    requires
        complete(graph, analysis, a, b, first),
        complete(graph, analysis, b, c, second),
    ensures
        complete(graph, analysis, a, c, first + second),
{
    let all = first + second;
    assert forall|d: Definition| all.contains(d) <==> first.contains(d) || second.contains(d) by {
        if first.contains(d) {
            let k = choose|k: int| 0 <= k < first.len() && first[k] == d;
            assert(all[k] == d);
        }
        if second.contains(d) {
            let k = choose|k: int| 0 <= k < second.len() && second[k] == d;
            assert(all[first.len() + k] == d);
        }
        if all.contains(d) {
            let k = choose|k: int| 0 <= k < all.len() && all[k] == d;
            if k < first.len() {
                assert(first[k] == d);
            } else {
                assert(second[k - first.len()] == d);
            }
        }
    }
    assert forall|d: Definition| a.states.contains_key(d) implies #[trigger] c.states.contains_key(d)
        && c.states[d] == a.states[d] by {
        assert(b.states.contains_key(d));
    }
    assert forall|d: Definition|
        #[trigger] c.states.contains_key(d) <==> a.states.contains_key(d) || all.contains(d) by {
        assert(b.states.contains_key(d) <==> a.states.contains_key(d) || first.contains(d));
    }
    assert forall|i: int| 0 <= i < all.len() implies !a.states.contains_key(#[trigger] all[i])
        && is_done(c, all[i]) by {
        if i < first.len() {
            assert(is_done(b, first[i]));
            assert(b.states.contains_key(first[i]));
            assert(c.states.contains_key(first[i]));
        } else {
            let d = second[i - first.len()];
            assert(!b.states.contains_key(d));
            assert(a.states.contains_key(d) ==> b.states.contains_key(d));
        }
    }
    assert forall|i: int, j: int| 0 <= i < j < all.len() implies #[trigger] all[i]
        != #[trigger] all[j] by {
        if j < first.len() {
        } else if i >= first.len() {
            assert(second[i - first.len()] != second[j - first.len()]);
        } else {
            assert(is_done(b, first[i]));
            assert(!b.states.contains_key(second[j - first.len()]));
        }
    }
    assert forall|x: Unsupported| #[trigger] a.unsupported.contains(x) implies c.unsupported.contains(
        x,
    ) by {
        assert(b.unsupported.contains(x));
    }
    assert forall|x: CycleCandidate| #[trigger] a.cycles.contains(x) implies c.cycles.contains(
        x,
    ) by {
        assert(b.cycles.contains(x));
    }
    assert forall|i: int, site: PlacedCall|
        0 <= i < all.len() && #[trigger] is_call_of(graph, #[trigger] all[i], site) implies
        call_settled(graph, analysis, site, all.take(i), all, a, c) by {
        if i < first.len() {
            assert(is_call_of(graph, first[i], site));
            assert(call_settled(graph, analysis, site, first.take(i), first, a, b));
            assert(all.take(i) =~= first.take(i));
            assert forall|target: Definition| #[trigger] graph.next(site).contains(target) implies
                target_settled(analysis, site, target, all.take(i), all, a, c) by {
                lemma_target_settled_widens(
                    analysis,
                    site,
                    target,
                    first.take(i),
                    first,
                    a,
                    b,
                    all.take(i),
                    all,
                    a,
                    c,
                );
            }
        } else {
            let k = i - first.len();
            assert(is_call_of(graph, second[k], site));
            assert(call_settled(graph, analysis, site, second.take(k), second, b, c));
            let left = all.take(i);
            assert(left =~= first + second.take(k));
            assert forall|target: Definition| #[trigger] graph.next(site).contains(target) implies
                target_settled(analysis, site, target, left, all, a, c) by {
                if first.contains(target) {
                    let m = choose|m: int| 0 <= m < first.len() && first[m] == target;
                    assert(left[m] == target);
                }
                if second.take(k).contains(target) {
                    let m = choose|m: int|
                        0 <= m < second.take(k).len() && second.take(k)[m] == target;
                    assert(left[first.len() + m] == target);
                }
                lemma_between(graph, analysis, a, b, first, target);
                lemma_target_settled_widens(
                    analysis,
                    site,
                    target,
                    second.take(k),
                    second,
                    b,
                    c,
                    left,
                    all,
                    a,
                    c,
                );
            }
        }
    }
}

/// What a walk has left in the middle it had left before, or has left since; what it is in it was in.
proof fn lemma_between(
    graph: Graph,
    analysis: Analysis,
    before: Walk,
    middle: Walk,
    order: Seq<Definition>,
    target: Definition,
)
    requires
        complete(graph, analysis, before, middle, order),
    ensures
        is_done(middle, target) ==> is_done(before, target) || order.contains(target),
        is_visiting(middle, target) ==> is_visiting(before, target),
{
    assert(middle.states.contains_key(target) <==> before.states.contains_key(target)
        || order.contains(target));
    if order.contains(target) {
        let k = choose|k: int| 0 <= k < order.len() && order[k] == target;
        assert(is_done(middle, order[k]));
    }
}

proof fn lemma_nothing_complete(graph: Graph, analysis: Analysis, walk: Walk)
    ensures
        complete(graph, analysis, walk, walk, Seq::empty()),
{
}

#[verifier::spinoff_prover]
proof fn lemma_visit_complete(
    graph: Graph,
    analysis: Analysis,
    depth: nat,
    definition: Definition,
    walk: Walk,
) -> (order: Seq<Definition>)
    requires
        graph_known(graph),
        graph.db.has_definition(definition),
        enough(graph, depth, walk),
    ensures
        complete(
            graph,
            analysis,
            walk,
            reachability::visit(graph, analysis, depth, definition, walk),
            order,
        ),
        reachability::visit(graph, analysis, depth, definition, walk).states.contains_key(
            definition,
        ),
        !walk.states.contains_key(definition) ==> order.contains(definition),
    decreases depth, 0int, 0int,
{
    let after = reachability::visit(graph, analysis, depth, definition, walk);
    let count = graph.db.definitions@.len();
    if walk.states.contains_key(definition) {
        lemma_nothing_complete(graph, analysis, walk);
        Seq::empty()
    } else {
        let entered = Walk {
            states: walk.states.insert(definition, VisitState::Visiting),
            ..walk
        };
        assert(count == graph.db.definitions.len());
        lemma_missing_enters(count, walk, entered, definition);
        let inner = (depth - 1) as nat;
        let sites = graph.calls_of(definition);
        lemma_calls_by(graph.sites, definition);
        assert forall|i: int| 0 <= i < sites.len() implies graph.sites.contains(
            #[trigger] sites[i],
        ) by {
            assert(sites.contains(sites[i]));
        }
        let order = lemma_visit_calls_complete(graph, analysis, inner, sites, entered);
        let left = reachability::visit_calls(graph, analysis, inner, sites, entered);
        let all = order.push(definition);
        assert(after.states == left.states.insert(definition, VisitState::Done));
        assert forall|c: Unsupported| #[trigger] walk.unsupported.contains(c) implies
            after.unsupported.contains(c) by {
            assert(entered.unsupported.contains(c));
        }
        assert forall|c: CycleCandidate| #[trigger] walk.cycles.contains(c) implies
            after.cycles.contains(c) by {
            assert(entered.cycles.contains(c));
        }
        assert(entered.states.contains_key(definition));
        assert(left.states.contains_key(definition));
        assert(!order.contains(definition)) by {
            if order.contains(definition) {
                let k = choose|k: int| 0 <= k < order.len() && order[k] == definition;
                assert(!entered.states.contains_key(order[k]));
            }
        }
        assert(all[order.len() as int] == definition);
        assert forall|d: Definition| all.contains(d) <==> order.contains(d) || d == definition by {
            if order.contains(d) {
                let k = choose|k: int| 0 <= k < order.len() && order[k] == d;
                assert(all[k] == d);
            }
            if all.contains(d) {
                let k = choose|k: int| 0 <= k < all.len() && all[k] == d;
                if k < order.len() {
                    assert(order[k] == d);
                }
            }
        }
        assert forall|d: Definition| walk.states.contains_key(d) implies
            #[trigger] after.states.contains_key(d) && after.states[d] == walk.states[d] by {
            assert(entered.states.contains_key(d));
            assert(left.states.contains_key(d));
        }
        assert forall|d: Definition|
            #[trigger] after.states.contains_key(d) <==> walk.states.contains_key(d)
                || all.contains(d) by {
            assert(left.states.contains_key(d) <==> entered.states.contains_key(d)
                || order.contains(d));
        }
        assert forall|i: int| 0 <= i < all.len() implies !walk.states.contains_key(
            #[trigger] all[i],
        ) && is_done(after, all[i]) by {
            if i < order.len() {
                assert(!entered.states.contains_key(order[i]));
                assert(is_done(left, order[i]));
            }
        }
        assert forall|i: int, j: int| 0 <= i < j < all.len() implies #[trigger] all[i]
            != #[trigger] all[j] by {
            if j == order.len() {
                assert(order.contains(order[i]));
            } else {
                assert(order[i] != order[j]);
            }
        }
        assert forall|i: int, site: PlacedCall|
            0 <= i < all.len() && #[trigger] is_call_of(graph, #[trigger] all[i], site) implies
            call_settled(graph, analysis, site, all.take(i), all, walk, after) by {
            if i < order.len() {
                assert(is_call_of(graph, order[i], site));
                assert(call_settled(graph, analysis, site, order.take(i), order, entered, left));
                assert(all.take(i) =~= order.take(i));
                assert forall|target: Definition| #[trigger]
                    graph.next(site).contains(target) implies target_settled(
                    analysis,
                    site,
                    target,
                    all.take(i),
                    all,
                    walk,
                    after,
                ) by {
                    lemma_target_settled_widens(
                        analysis,
                        site,
                        target,
                        order.take(i),
                        order,
                        entered,
                        left,
                        all.take(i),
                        all,
                        walk,
                        after,
                    );
                }
            } else {
                assert(sites.contains(site));
                let k = choose|k: int| 0 <= k < sites.len() && sites[k] == site;
                assert(call_settled(
                    graph,
                    analysis,
                    sites[k],
                    order,
                    Seq::empty(),
                    entered,
                    left,
                ));
                assert(all.take(i) =~= order);
                assert forall|target: Definition| #[trigger]
                    graph.next(site).contains(target) implies target_settled(
                    analysis,
                    site,
                    target,
                    all.take(i),
                    all,
                    walk,
                    after,
                ) by {
                    lemma_target_settled_widens(
                        analysis,
                        site,
                        target,
                        order,
                        Seq::empty(),
                        entered,
                        left,
                        all.take(i),
                        all,
                        walk,
                        after,
                    );
                }
            }
        }
        all
    }
}

/// A settled call stays settled while the walk goes on.
proof fn lemma_call_settled_stays(
    graph: Graph,
    analysis: Analysis,
    site: PlacedCall,
    a: Walk,
    b: Walk,
    c: Walk,
    first: Seq<Definition>,
    second: Seq<Definition>,
)
    requires
        call_settled(graph, analysis, site, first, Seq::empty(), a, b),
        complete(graph, analysis, b, c, second),
    ensures
        call_settled(graph, analysis, site, first + second, Seq::empty(), a, c),
{
    assert forall|target: Definition| #[trigger] graph.next(site).contains(target) implies
        target_settled(analysis, site, target, first + second, Seq::empty(), a, c) by {
        if first.contains(target) {
            let k = choose|k: int| 0 <= k < first.len() && first[k] == target;
            assert((first + second)[k] == target);
        }
        lemma_target_settled_widens(
            analysis,
            site,
            target,
            first,
            Seq::empty(),
            a,
            b,
            first + second,
            Seq::empty(),
            a,
            c,
        );
    }
}

proof fn lemma_visit_calls_complete(
    graph: Graph,
    analysis: Analysis,
    depth: nat,
    sites: Seq<PlacedCall>,
    walk: Walk,
) -> (order: Seq<Definition>)
    requires
        graph_known(graph),
        enough(graph, depth, walk),
        forall|i: int| 0 <= i < sites.len() ==> graph.sites.contains(#[trigger] sites[i]),
    ensures
        complete(
            graph,
            analysis,
            walk,
            reachability::visit_calls(graph, analysis, depth, sites, walk),
            order,
        ),
        forall|i: int|
            0 <= i < sites.len() ==> call_settled(
                graph,
                analysis,
                #[trigger] sites[i],
                order,
                Seq::empty(),
                walk,
                reachability::visit_calls(graph, analysis, depth, sites, walk),
            ),
    decreases depth, 3int, sites.len(),
{
    if sites.len() == 0 {
        lemma_nothing_complete(graph, analysis, walk);
        Seq::empty()
    } else {
        let init = sites.drop_last();
        let site = sites.last();
        assert(graph.sites.contains(sites[sites.len() - 1]));
        assert forall|i: int| 0 <= i < init.len() implies graph.sites.contains(
            #[trigger] init[i],
        ) by {
            assert(init[i] == sites[i]);
        }
        let first = lemma_visit_calls_complete(graph, analysis, depth, init, walk);
        let before = reachability::visit_calls(graph, analysis, depth, init, walk);
        let note = reachability::noted(graph, analysis, site, before);
        let after = reachability::visit_calls(graph, analysis, depth, sites, walk);
        lemma_missing_grows(graph.db.definitions@.len(), walk, note);
        let second = lemma_follow_complete(
            graph,
            analysis,
            depth,
            site,
            graph.next(site),
            note,
        );
        reachability::lemma_visit_call(graph, analysis, depth, site, before);
        assert(after == reachability::follow(
            graph,
            analysis,
            depth,
            site,
            graph.next(site),
            note,
        ));
        lemma_noted_complete(graph, analysis, site, before, after, second);
        lemma_complete_join(graph, analysis, walk, before, after, first, second);
        assert forall|i: int| 0 <= i < sites.len() implies call_settled(
            graph,
            analysis,
            #[trigger] sites[i],
            first + second,
            Seq::empty(),
            walk,
            after,
        ) by {
            if i < init.len() {
                assert(init[i] == sites[i]);
                lemma_call_settled_stays(
                    graph,
                    analysis,
                    site_at(init, i),
                    walk,
                    before,
                    after,
                    first,
                    second,
                );
            } else {
                assert forall|target: Definition| #[trigger]
                    graph.next(site).contains(target) implies target_settled(
                    analysis,
                    site,
                    target,
                    first + second,
                    Seq::empty(),
                    walk,
                    after,
                ) by {
                    let k = choose|k: int|
                        0 <= k < graph.next(site).len() && graph.next(site)[k] == target;
                    assert(target_settled(
                        analysis,
                        site,
                        graph.next(site)[k],
                        second,
                        Seq::empty(),
                        note,
                        after,
                    ));
                    lemma_between(graph, analysis, walk, before, first, target);
                    if second.contains(target) {
                        let m = choose|m: int| 0 <= m < second.len() && second[m] == target;
                        assert((first + second)[first.len() + m] == target);
                    }
                    if first.contains(target) {
                        let m = choose|m: int| 0 <= m < first.len() && first[m] == target;
                        assert((first + second)[m] == target);
                    }
                }
                if analysis == Analysis::Unsupported && reachability::candidate_of(
                    graph,
                    site,
                ) is Some {
                    let candidate = reachability::candidate_of(graph, site)->0;
                    assert(note.unsupported[before.unsupported.len() as int] == candidate);
                    assert(note.unsupported.contains(candidate));
                }
            }
        }
        first + second
    }
}

spec fn site_at(sites: Seq<PlacedCall>, i: int) -> PlacedCall {
    sites[i]
}

/// Noting a call changes nothing but the list of unsupported calls.
proof fn lemma_noted_complete(
    graph: Graph,
    analysis: Analysis,
    site: PlacedCall,
    before: Walk,
    after: Walk,
    order: Seq<Definition>,
)
    requires
        complete(graph, analysis, reachability::noted(graph, analysis, site, before), after, order),
    ensures
        complete(graph, analysis, before, after, order),
{
    let note = reachability::noted(graph, analysis, site, before);
    assert(note.states == before.states && note.cycles == before.cycles);
    assert forall|c: Unsupported| #[trigger] before.unsupported.contains(c) implies
        after.unsupported.contains(c) by {
        let k = choose|k: int| 0 <= k < before.unsupported.len() && before.unsupported[k] == c;
        assert(note.unsupported[k] == c);
        assert(note.unsupported.contains(c));
    }
    assert forall|i: int, other: PlacedCall|
        0 <= i < order.len() && #[trigger] is_call_of(graph, #[trigger] order[i], other) implies
        call_settled(graph, analysis, other, order.take(i), order, before, after) by {
        assert(call_settled(graph, analysis, other, order.take(i), order, note, after));
        assert forall|target: Definition| #[trigger] graph.next(other).contains(target) implies
            target_settled(analysis, other, target, order.take(i), order, before, after) by {
            assert(target_settled(
                analysis,
                other,
                target,
                order.take(i),
                order,
                note,
                after,
            ));
        }
    }
}

proof fn lemma_follow_complete(
    graph: Graph,
    analysis: Analysis,
    depth: nat,
    site: PlacedCall,
    targets: Seq<Definition>,
    walk: Walk,
) -> (order: Seq<Definition>)
    requires
        graph_known(graph),
        enough(graph, depth, walk),
        graph.sites.contains(site),
        forall|i: int| 0 <= i < targets.len() ==> graph.next(site).contains(#[trigger] targets[i]),
    ensures
        complete(
            graph,
            analysis,
            walk,
            reachability::follow(graph, analysis, depth, site, targets, walk),
            order,
        ),
        forall|i: int|
            0 <= i < targets.len() ==> target_settled(
                analysis,
                site,
                #[trigger] targets[i],
                order,
                Seq::empty(),
                walk,
                reachability::follow(graph, analysis, depth, site, targets, walk),
            ),
    decreases depth, 1int, targets.len(),
{
    if targets.len() == 0 {
        lemma_nothing_complete(graph, analysis, walk);
        Seq::empty()
    } else {
        let init = targets.drop_last();
        let target = targets.last();
        assert(targets[targets.len() - 1] == target);
        let at = choose|at: int| 0 <= at < graph.sites.len() && graph.sites[at] == site;
        assert(graph.next(graph.sites[at]).contains(target));
        assert forall|i: int| 0 <= i < init.len() implies graph.next(site).contains(
            #[trigger] init[i],
        ) by {
            assert(init[i] == targets[i]);
        }
        let first = lemma_follow_complete(graph, analysis, depth, site, init, walk);
        let before = reachability::follow(graph, analysis, depth, site, init, walk);
        let after = reachability::follow(graph, analysis, depth, site, targets, walk);
        lemma_missing_grows(graph.db.definitions@.len(), walk, before);
        let second = if !before.states.contains_key(target) {
            lemma_visit_complete(graph, analysis, depth, target, before)
        } else {
            lemma_step_complete(graph, analysis, before, after, site);
            Seq::empty()
        };
        lemma_complete_join(graph, analysis, walk, before, after, first, second);
        let all = first + second;
        assert forall|i: int| 0 <= i < targets.len() implies target_settled(
            analysis,
            site,
            #[trigger] targets[i],
            all,
            Seq::empty(),
            walk,
            after,
        ) by {
            let d = targets[i];
            if first.contains(d) {
                let k = choose|k: int| 0 <= k < first.len() && first[k] == d;
                assert(all[k] == d);
            }
            if second.contains(d) {
                let k = choose|k: int| 0 <= k < second.len() && second[k] == d;
                assert(all[first.len() + k] == d);
            }
            if i < init.len() {
                assert(init[i] == d);
                assert(target_settled(
                    analysis,
                    site,
                    init[i],
                    first,
                    Seq::empty(),
                    walk,
                    before,
                ));
            } else {
                lemma_between(graph, analysis, walk, before, first, d);
                if before.states.contains_key(d) && is_visiting(before, d) && analysis
                    == Analysis::Cycles {
                    let place = reachability::place_of(site);
                    if !before.cycles.contains(place) {
                        assert(after.cycles[before.cycles.len() as int] == place);
                    }
                    assert(after.cycles.contains(place));
                }
            }
        }
        all
    }
}

proof fn lemma_step_complete(
    graph: Graph,
    analysis: Analysis,
    before: Walk,
    after: Walk,
    site: PlacedCall,
)
    requires
        after == before || after == (Walk {
            cycles: before.cycles.push(reachability::place_of(site)),
            ..before
        }),
    ensures
        complete(graph, analysis, before, after, Seq::empty()),
{
    assert forall|c: CycleCandidate| #[trigger] before.cycles.contains(c) implies
        after.cycles.contains(c) by {
        let k = choose|k: int| 0 <= k < before.cycles.len() && before.cycles[k] == c;
        assert(after.cycles[k] == c);
    }
}

// ---------------------------------------------------------------------------------------------
// Whole walks
// ---------------------------------------------------------------------------------------------

/// Whether functions are known.
pub open spec fn all_known(db: Db, definitions: Seq<Definition>) -> bool {
    forall|i: int| 0 <= i < definitions.len() ==> db.has_definition(#[trigger] definitions[i])
}

spec fn full_walk(graph: Graph, analysis: Analysis, roots: Seq<Definition>) -> Walk {
    reachability::visit_all(
        graph,
        analysis,
        graph.db.definitions@.len(),
        roots,
        reachability::fresh(),
    )
}

proof fn lemma_full_walk_complete(graph: Graph, analysis: Analysis, roots: Seq<Definition>) -> (order:
    Seq<Definition>)
    requires
        graph_known(graph),
        all_known(graph.db, roots),
    ensures
        complete(
            graph,
            analysis,
            reachability::fresh(),
            full_walk(graph, analysis, roots),
            order,
        ),
        forall|i: int| 0 <= i < roots.len() ==> order.contains(#[trigger] roots[i]),
    decreases roots.len(),
{
    let start = reachability::fresh();
    if roots.len() == 0 {
        lemma_nothing_complete(graph, analysis, start);
        Seq::empty()
    } else {
        let init = roots.drop_last();
        let first = lemma_full_walk_complete(graph, analysis, init);
        let before = full_walk(graph, analysis, init);
        let after = full_walk(graph, analysis, roots);
        let depth = graph.db.definitions@.len();
        lemma_missing_bound(depth, start);
        lemma_missing_grows(depth, start, before);
        let second = lemma_visit_complete(graph, analysis, depth, roots.last(), before);
        lemma_complete_join(graph, analysis, start, before, after, first, second);
        let all = first + second;
        assert forall|i: int| 0 <= i < roots.len() implies all.contains(#[trigger] roots[i]) by {
            if i < init.len() {
                assert(init[i] == roots[i]);
                assert(first.contains(init[i]));
                let k = choose|k: int| 0 <= k < first.len() && first[k] == roots[i];
                assert(all[k] == roots[i]);
            } else {
                let root = roots.last();
                assert(after.states.contains_key(root));
                assert(start.states.contains_key(root) || all.contains(root));
            }
        }
        all
    }
}

/// What a whole walk finds is reached from one of its roots.
spec fn sound_from(graph: Graph, roots: Seq<Definition>, walk: Walk) -> bool {
    &&& forall|d: Definition| #[trigger] walk.states.contains_key(d) ==> reached_from(graph, roots, d)
    &&& forall|d: Definition| !#[trigger] is_visiting(walk, d)
    &&& forall|j: int|
        0 <= j < walk.unsupported.len() ==> exists|i: int|
            0 <= i < roots.len() && is_reached_call(
                graph,
                #[trigger] roots[i],
                #[trigger] walk.unsupported[j],
            )
    &&& forall|j: int|
        0 <= j < walk.cycles.len() ==> exists|i: int|
            0 <= i < roots.len() && is_reached_cycle(
                graph,
                #[trigger] roots[i],
                #[trigger] walk.cycles[j],
            )
}

proof fn lemma_full_walk_sound(graph: Graph, analysis: Analysis, roots: Seq<Definition>)
    ensures
        sound_from(graph, roots, full_walk(graph, analysis, roots)),
    decreases roots.len(),
{
    if roots.len() > 0 {
        let init = roots.drop_last();
        lemma_full_walk_sound(graph, analysis, init);
        let before = full_walk(graph, analysis, init);
        let after = full_walk(graph, analysis, roots);
        let root = roots.last();
        lemma_visit_sound(graph, analysis, graph.db.definitions@.len(), root, before);
        let last = roots.len() - 1;
        assert(roots[last] == root);
        assert forall|d: Definition| #[trigger] after.states.contains_key(d) implies reached_from(
            graph,
            roots,
            d,
        ) by {
            if before.states.contains_key(d) {
                assert(reached_from(graph, init, d));
                let i = choose|i: int| 0 <= i < init.len() && reaches(graph, #[trigger] init[i], d);
                assert(roots[i] == init[i]);
            } else {
                assert(reaches(graph, roots[last], d));
            }
        }
        assert forall|d: Definition| !#[trigger] is_visiting(after, d) by {
            assert(!is_visiting(before, d));
        }
        assert forall|j: int| 0 <= j < after.unsupported.len() implies exists|i: int|
            0 <= i < roots.len() && is_reached_call(
                graph,
                #[trigger] roots[i],
                #[trigger] after.unsupported[j],
            ) by {
            if j < before.unsupported.len() {
                assert(after.unsupported[j] == before.unsupported[j]);
                let i = choose|i: int|
                    0 <= i < init.len() && is_reached_call(
                        graph,
                        #[trigger] init[i],
                        before.unsupported[j],
                    );
                assert(roots[i] == init[i]);
            } else {
                assert(is_reached_call(graph, roots[last], after.unsupported[j]));
            }
        }
        assert forall|j: int| 0 <= j < after.cycles.len() implies exists|i: int|
            0 <= i < roots.len() && is_reached_cycle(
                graph,
                #[trigger] roots[i],
                #[trigger] after.cycles[j],
            ) by {
            if j < before.cycles.len() {
                assert(after.cycles[j] == before.cycles[j]);
                let i = choose|i: int|
                    0 <= i < init.len() && is_reached_cycle(
                        graph,
                        #[trigger] init[i],
                        before.cycles[j],
                    );
                assert(roots[i] == init[i]);
            } else {
                assert(is_reached_cycle(graph, roots[last], after.cycles[j]));
            }
        }
    }
}

/// The functions that a complete walk from nothing entered are closed under calls.
proof fn lemma_closed(
    graph: Graph,
    analysis: Analysis,
    walk: Walk,
    order: Seq<Definition>,
    from: Definition,
    to: Definition,
)
    requires
        complete(graph, analysis, reachability::fresh(), walk, order),
        order.contains(from),
        leads_to(graph, from, to),
    ensures
        order.contains(to),
{
    let k = choose|k: int| 0 <= k < order.len() && order[k] == from;
    let i = choose|i: int|
        0 <= i < graph.sites.len() && (#[trigger] graph.sites[i]).call.caller == from && graph.next(
            graph.sites[i],
        ).contains(to);
    let site = graph.sites[i];
    assert(is_call_of(graph, order[k], site));
    assert(call_settled(
        graph,
        analysis,
        site,
        order.take(k),
        order,
        reachability::fresh(),
        walk,
    ));
    assert(graph.next(site).contains(to));
    assert(target_settled(
        analysis,
        site,
        to,
        order.take(k),
        order,
        reachability::fresh(),
        walk,
    ));
    if order.take(k).contains(to) {
        let m = choose|m: int| 0 <= m < order.take(k).len() && order.take(k)[m] == to;
        assert(order[m] == to);
    }
}

proof fn lemma_closed_along(
    graph: Graph,
    analysis: Analysis,
    walk: Walk,
    order: Seq<Definition>,
    path: Seq<Definition>,
    at: int,
)
    requires
        complete(graph, analysis, reachability::fresh(), walk, order),
        is_path(graph, path),
        order.contains(path[0]),
        0 <= at < path.len(),
    ensures
        order.contains(path[at]),
    decreases at,
{
    if at > 0 {
        lemma_closed_along(graph, analysis, walk, order, path, at - 1);
        assert(leads_to(graph, path[at - 1], path[at]));
        lemma_closed(graph, analysis, walk, order, path[at - 1], path[at]);
    }
}

proof fn lemma_reached_is_entered(
    graph: Graph,
    analysis: Analysis,
    roots: Seq<Definition>,
    order: Seq<Definition>,
    definition: Definition,
)
    requires
        complete(
            graph,
            analysis,
            reachability::fresh(),
            full_walk(graph, analysis, roots),
            order,
        ),
        forall|i: int| 0 <= i < roots.len() ==> order.contains(#[trigger] roots[i]),
        reached_from(graph, roots, definition),
    ensures
        order.contains(definition),
{
    let i = choose|i: int| 0 <= i < roots.len() && reaches(graph, #[trigger] roots[i], definition);
    let path = choose|path: Seq<Definition>| #[trigger]
        is_path(graph, path) && path[0] == roots[i] && path.last() == definition;
    assert(order.contains(roots[i]));
    lemma_closed_along(
        graph,
        analysis,
        full_walk(graph, analysis, roots),
        order,
        path,
        path.len() - 1,
    );
}

/// A walk enters exactly the functions that its roots reach, and leaves them all.
pub proof fn law_walk_enters_what_is_reached(
    graph: Graph,
    analysis: Analysis,
    roots: Seq<Definition>,
    definition: Definition,
)
    requires
        graph_known(graph),
        all_known(graph.db, roots),
    ensures
        ({
            let walk = reachability::visit_all(
                graph,
                analysis,
                graph.db.definitions@.len(),
                roots,
                reachability::fresh(),
            );
            &&& walk.states.contains_key(definition) <==> reached_from(graph, roots, definition)
            &&& walk.states.contains_key(definition) ==> walk.states[definition]
                == VisitState::Done
        }),
{
    let walk = full_walk(graph, analysis, roots);
    let order = lemma_full_walk_complete(graph, analysis, roots);
    lemma_full_walk_sound(graph, analysis, roots);
    if reached_from(graph, roots, definition) {
        lemma_reached_is_entered(graph, analysis, roots, order, definition);
        assert(walk.states.contains_key(definition));
    }
    assert(!is_visiting(walk, definition));
}

/// The unsupported calls that are found are exactly those of the functions that an open root
/// reaches: none is missed, and none is made up.
pub proof fn law_unsupported_calls_are_exactly_those_reached(
    db: Db,
    files: Seq<FileView>,
    found: Unsupported,
)
    requires
        graph_known(reachability::graph_of(db, files)),
        all_known(db, reachability::roots_of(files).open),
    ensures
        ({
            let graph = reachability::graph_of(db, files);
            reachability::reached_unsupported(db, files).contains(found) <==> exists|i: int|
                0 <= i < graph.sites.len() && reached_from(
                    graph,
                    reachability::roots_of(files).open,
                    (#[trigger] graph.sites[i]).call.caller,
                ) && reachability::candidate_of(graph, graph.sites[i]) == Some(found)
        }),
{
    let graph = reachability::graph_of(db, files);
    let roots = reachability::roots_of(files).open;
    let walk = full_walk(graph, Analysis::Unsupported, roots);
    let order = lemma_full_walk_complete(graph, Analysis::Unsupported, roots);
    lemma_full_walk_sound(graph, Analysis::Unsupported, roots);
    if walk.unsupported.contains(found) {
        let j = choose|j: int| 0 <= j < walk.unsupported.len() && walk.unsupported[j] == found;
        let k = choose|k: int|
            0 <= k < roots.len() && is_reached_call(
                graph,
                #[trigger] roots[k],
                walk.unsupported[j],
            );
        let i = choose|i: int|
            0 <= i < graph.sites.len() && reaches(
                graph,
                roots[k],
                (#[trigger] graph.sites[i]).call.caller,
            ) && reachability::candidate_of(graph, graph.sites[i]) == Some(found);
        assert(reached_from(graph, roots, graph.sites[i].call.caller));
    }
    if exists|i: int|
        0 <= i < graph.sites.len() && reached_from(
            graph,
            roots,
            (#[trigger] graph.sites[i]).call.caller,
        ) && reachability::candidate_of(graph, graph.sites[i]) == Some(found) {
        let i = choose|i: int|
            0 <= i < graph.sites.len() && reached_from(
                graph,
                roots,
                (#[trigger] graph.sites[i]).call.caller,
            ) && reachability::candidate_of(graph, graph.sites[i]) == Some(found);
        let site = graph.sites[i];
        lemma_reached_is_entered(
            graph,
            Analysis::Unsupported,
            roots,
            order,
            site.call.caller,
        );
        let k = choose|k: int| 0 <= k < order.len() && order[k] == site.call.caller;
        assert(is_call_of(graph, order[k], site));
        assert(call_settled(
            graph,
            Analysis::Unsupported,
            site,
            order.take(k),
            order,
            reachability::fresh(),
            walk,
        ));
    }
}

/// Every call that is reported as closing a cycle belongs to a function that a root reaches, and
/// leads to a function that reaches its caller again.
pub proof fn law_reported_cycles_are_cycles(db: Db, files: Seq<FileView>, place: CycleCandidate)
    requires
        reachability::reached_cycles(db, files).contains(place),
    ensures
        ({
            let graph = reachability::graph_of(db, files);
            exists|i: int, to: Definition|
                0 <= i < graph.sites.len() && reached_from(
                    graph,
                    reachability::roots_of(files).all,
                    (#[trigger] graph.sites[i]).call.caller,
                ) && reachability::place_of(graph.sites[i]) == place && #[trigger] graph.next(
                    graph.sites[i],
                ).contains(to) && reaches(graph, to, graph.sites[i].call.caller)
        }),
{
    let graph = reachability::graph_of(db, files);
    let roots = reachability::roots_of(files).all;
    let walk = full_walk(graph, Analysis::Cycles, roots);
    lemma_full_walk_sound(graph, Analysis::Cycles, roots);
    let j = choose|j: int| 0 <= j < walk.cycles.len() && walk.cycles[j] == place;
    let k = choose|k: int|
        0 <= k < roots.len() && is_reached_cycle(graph, #[trigger] roots[k], walk.cycles[j]);
    let (i, to) = choose|i: int, to: Definition|
        0 <= i < graph.sites.len() && reaches(
            graph,
            roots[k],
            (#[trigger] graph.sites[i]).call.caller,
        ) && reachability::place_of(graph.sites[i]) == place && #[trigger] graph.next(
            graph.sites[i],
        ).contains(to) && reaches(graph, to, graph.sites[i].call.caller);
    assert(reached_from(graph, roots, graph.sites[i].call.caller));
}

/// Where a function stands in the order in which functions are left.
spec fn rank(order: Seq<Definition>, definition: Definition) -> int {
    choose|k: int| 0 <= k < order.len() && order[k] == definition
}

/// Calls that form a cycle: each belongs to a function of a closed path and leads to the next.
pub open spec fn is_cycle(graph: Graph, path: Seq<Definition>, calls: Seq<PlacedCall>) -> bool {
    &&& calls.len() > 0
    &&& path.len() == calls.len() + 1
    &&& path[0] == path.last()
    &&& forall|i: int|
        0 <= i < calls.len() ==> graph.sites.contains(#[trigger] calls[i])
            && calls[i].call.caller == path[i]
    &&& forall|i: int, j: int|
        0 <= i < calls.len() && j == i + 1 ==> graph.next(#[trigger] calls[i]).contains(
            #[trigger] path[j],
        )
}

/// In every cycle of calls that a root reaches, at least one of the calls is reported.
pub proof fn law_every_cycle_is_reported(
    db: Db,
    files: Seq<FileView>,
    path: Seq<Definition>,
    calls: Seq<PlacedCall>,
)
    requires
        graph_known(reachability::graph_of(db, files)),
        all_known(db, reachability::roots_of(files).all),
        is_cycle(reachability::graph_of(db, files), path, calls),
        reached_from(
            reachability::graph_of(db, files),
            reachability::roots_of(files).all,
            path[0],
        ),
    ensures
        exists|i: int|
            0 <= i < calls.len() && reachability::reached_cycles(db, files).contains(
                reachability::place_of(#[trigger] calls[i]),
            ),
{
    let graph = reachability::graph_of(db, files);
    let roots = reachability::roots_of(files).all;
    let walk = full_walk(graph, Analysis::Cycles, roots);
    let order = lemma_full_walk_complete(graph, Analysis::Cycles, roots);
    lemma_reached_is_entered(graph, Analysis::Cycles, roots, order, path[0]);
    if !exists|i: int|
        0 <= i < calls.len() && walk.cycles.contains(
            reachability::place_of(#[trigger] calls[i]),
        ) {
        lemma_ranks_fall(graph, walk, order, path, calls, calls.len() as int);
    }
}

proof fn lemma_ranks_fall(
    graph: Graph,
    walk: Walk,
    order: Seq<Definition>,
    path: Seq<Definition>,
    calls: Seq<PlacedCall>,
    at: int,
)
    requires
        complete(graph, Analysis::Cycles, reachability::fresh(), walk, order),
        is_cycle(graph, path, calls),
        order.contains(path[0]),
        0 <= at < path.len(),
        !exists|i: int|
            0 <= i < calls.len() && walk.cycles.contains(
                reachability::place_of(#[trigger] calls[i]),
            ),
    ensures
        order.contains(path[at]),
        rank(order, path[at]) <= rank(order, path[0]) - at,
    decreases at,
{
    if at > 0 {
        lemma_ranks_fall(graph, walk, order, path, calls, at - 1);
        let from = path[at - 1];
        let to = path[at];
        let k = rank(order, from);
        assert(order[k] == from);
        let site = calls[at - 1];
        assert(is_call_of(graph, order[k], site));
        assert(call_settled(
            graph,
            Analysis::Cycles,
            site,
            order.take(k),
            order,
            reachability::fresh(),
            walk,
        ));
        assert(graph.next(calls[at - 1]).contains(path[at]));
        assert(target_settled(
            Analysis::Cycles,
            site,
            to,
            order.take(k),
            order,
            reachability::fresh(),
            walk,
        ));
        assert(!walk.cycles.contains(reachability::place_of(calls[at - 1])));
        assert(order.take(k).contains(to));
        let m = choose|m: int| 0 <= m < order.take(k).len() && order.take(k)[m] == to;
        assert(order[m] == to);
        let r = rank(order, to);
        assert(0 <= r < order.len() && order[r] == to);
        if r != m {
            if r < m {
                assert(order[r] != order[m]);
            } else {
                assert(order[m] != order[r]);
            }
        }
    }
}

// ---------------------------------------------------------------------------------------------
// Projects
// ---------------------------------------------------------------------------------------------

spec fn calls_known(db: Db, sites: Seq<PlacedCall>) -> bool {
    forall|i: int|
        0 <= i < sites.len() ==> provenance::targets_known(
            db,
            (#[trigger] sites[i]).call.targets,
        )
}

proof fn lemma_functions_known(db: Db, files: Seq<File>, targets: Seq<CallTarget>)
    requires
        provenance::targets_known(db, targets),
    ensures
        all_known(db, reachability::functions_among(db, files, targets)),
    decreases targets.len(),
{
    if targets.len() > 0 {
        lemma_functions_known(db, files, targets.drop_last());
        assert(db.has_definition(targets[targets.len() - 1].definition));
    }
}

spec fn view_known(db: Db, file: FileView) -> bool {
    file.facts matches Some(facts) ==> {
        &&& forall|i: int|
            0 <= i < facts.calls.len() ==> provenance::targets_known(
                db,
                (#[trigger] facts.calls[i]).targets,
            )
        &&& forall|i: int|
            0 <= i < facts.roots.len() ==> db.has_definition((#[trigger] facts.roots[i]).definition)
    }
}

proof fn lemma_all_calls_known(db: Db, files: Seq<FileView>)
    requires
        forall|i: int| 0 <= i < files.len() ==> view_known(db, #[trigger] files[i]),
    ensures
        calls_known(db, reachability::all_calls(files)),
    decreases files.len(),
{
    if files.len() > 0 {
        let init = files.drop_last();
        assert forall|i: int| 0 <= i < init.len() implies view_known(db, #[trigger] init[i]) by {
            assert(init[i] == files[i]);
        }
        lemma_all_calls_known(db, init);
        assert(view_known(db, files[files.len() - 1]));
        let before = reachability::all_calls(init);
        let all = reachability::all_calls(files);
        assert forall|i: int| 0 <= i < all.len() implies provenance::targets_known(
            db,
            (#[trigger] all[i]).call.targets,
        ) by {
            if i < before.len() {
                assert(all[i] == before[i]);
            } else {
                assert(all[i] == reachability::calls_in(files.last())[i - before.len()]);
            }
        }
    }
}

proof fn lemma_with_roots_known(db: Db, found: Roots, roots: Seq<ResolverRootFact>)
    requires
        all_known(db, found.all),
        all_known(db, found.open),
        forall|i: int| 0 <= i < roots.len() ==> db.has_definition((#[trigger] roots[i]).definition),
    ensures
        all_known(db, reachability::with_roots(found, roots).all),
        all_known(db, reachability::with_roots(found, roots).open),
    decreases roots.len(),
{
    if roots.len() > 0 {
        lemma_with_roots_known(db, found, roots.drop_last());
        assert(db.has_definition(roots[roots.len() - 1].definition));
    }
}

proof fn lemma_roots_known(db: Db, files: Seq<FileView>)
    requires
        forall|i: int| 0 <= i < files.len() ==> view_known(db, #[trigger] files[i]),
    ensures
        all_known(db, reachability::roots_of(files).all),
        all_known(db, reachability::roots_of(files).open),
    decreases files.len(),
{
    if files.len() > 0 {
        let init = files.drop_last();
        assert forall|i: int| 0 <= i < init.len() implies view_known(db, #[trigger] init[i]) by {
            assert(init[i] == files[i]);
        }
        lemma_roots_known(db, init);
        assert(view_known(db, files[files.len() - 1]));
        if let Some(facts) = files.last().facts {
            lemma_with_roots_known(db, reachability::roots_of(init), facts.roots);
        }
    }
}

/// The call graph and the roots of a project whose facts speak of known functions are known too.
pub proof fn law_projects_are_known(db: Db, files: Seq<ProjectFile>)
    requires
        reachability::files_known(db, files),
    ensures
        ({
            let sorted = reachability::sorted_files(db, files);
            &&& graph_known(reachability::graph_of(db, sorted))
            &&& all_known(db, reachability::roots_of(sorted).all)
            &&& all_known(db, reachability::roots_of(sorted).open)
        }),
{
    let unsorted = Seq::new(files.len(), |i: int| reachability::file_view(db, files[i]));
    let sorted = reachability::sorted_files(db, files);
    order::lemma_stable_sort(unsorted);
    assert forall|i: int| 0 <= i < sorted.len() implies view_known(db, #[trigger] sorted[i]) by {
        assert(sorted.contains(sorted[i]));
        let k = choose|k: int| 0 <= k < unsorted.len() && unsorted[k] == sorted[i];
        let file = files[k];
        if let Some(facts) = file.facts {
            assert(facts::facts_known(db, facts));
            let view = reachability::facts_view(file.facts)->0;
            assert forall|m: int| 0 <= m < view.calls.len() implies provenance::targets_known(
                db,
                (#[trigger] view.calls[m]).targets,
            ) by {
                assert(provenance::targets_known(db, facts.calls@[m].targets@));
            }
        }
    }
    lemma_all_calls_known(db, sorted);
    lemma_roots_known(db, sorted);
    let graph = reachability::graph_of(db, sorted);
    assert forall|i: int, d: Definition|
        0 <= i < graph.sites.len() && #[trigger] graph.next(graph.sites[i]).contains(d) implies
        graph.db.has_definition(d) by {
        let next = graph.next(graph.sites[i]);
        lemma_functions_known(db, graph.files, graph.sites[i].call.targets);
        let k = choose|k: int| 0 <= k < next.len() && next[k] == d;
        assert(db.has_definition(next[k]));
    }
}

/// The place of something in a file.
pub open spec fn place_in(db: Db, file: File, range: TextRange) -> Place {
    Place { path: db.file(file).path@, start: range.start, end: range.end }
}

/// Everything that is reported stands in order of its place: by path, start and end.
pub proof fn law_reports_are_sorted(db: Db, files: Seq<ProjectFile>, found: ProjectCandidates)
    requires
        found.of(db, files),
    ensures
        forall|i: int, j: int|
            0 <= i < j < found.unsupported@.len() ==> !reachability::place_before(
                place_in(db, (#[trigger] found.unsupported@[j]).file, found.unsupported@[j].range),
                place_in(db, (#[trigger] found.unsupported@[i]).file, found.unsupported@[i].range),
            ),
        forall|i: int, j: int|
            0 <= i < j < found.cycles@.len() ==> !reachability::place_before(
                place_in(db, (#[trigger] found.cycles@[j]).file, found.cycles@[j].range),
                place_in(db, (#[trigger] found.cycles@[i]).file, found.cycles@[i].range),
            ),
        forall|i: int, j: int|
            0 <= i < j < found.suppression_problems@.len() ==> !reachability::place_before(
                place_in(
                    db,
                    (#[trigger] found.suppression_problems@[j]).file,
                    found.suppression_problems@[j].range,
                ),
                place_in(
                    db,
                    (#[trigger] found.suppression_problems@[i]).file,
                    found.suppression_problems@[i].range,
                ),
            ),
{
    let sorted = reachability::sorted_files(db, files);
    let cycles = reachability::reached_cycles(db, sorted);
    let kept = reachability::outside_cycles(
        reachability::reached_unsupported(db, sorted),
        cycles,
    );
    let problems = reachability::problems_of(sorted);
    let placed = Seq::new(
        kept.len(),
        |i: int| reachability::placed_at(db, kept[i].file, kept[i].range, kept[i]),
    );
    lemma_sorted_places(db, placed, |u: Unsupported| u.file, |u: Unsupported| u.range);
    let views = reachability::candidate_views(found.unsupported@);
    assert forall|i: int, j: int|
        0 <= i < j < found.unsupported@.len() implies !reachability::place_before(
        place_in(db, (#[trigger] found.unsupported@[j]).file, found.unsupported@[j].range),
        place_in(db, (#[trigger] found.unsupported@[i]).file, found.unsupported@[i].range),
    ) by {
        assert(views[i].file == found.unsupported@[i].file);
        assert(views[j].file == found.unsupported@[j].file);
    }
    let placed = Seq::new(
        cycles.len(),
        |i: int| reachability::placed_at(db, cycles[i].file, cycles[i].range, cycles[i]),
    );
    lemma_sorted_places(db, placed, |c: CycleCandidate| c.file, |c: CycleCandidate| c.range);
    let placed = Seq::new(
        problems.len(),
        |i: int| reachability::placed_at(db, problems[i].file, problems[i].range, problems[i]),
    );
    lemma_sorted_places(
        db,
        placed,
        |p: ProjectSuppressionProblem| p.file,
        |p: ProjectSuppressionProblem| p.range,
    );
}

proof fn lemma_sorted_places<T>(
    db: Db,
    placed: Seq<Placed<T>>,
    file: spec_fn(T) -> File,
    range: spec_fn(T) -> TextRange,
)
    requires
        forall|i: int|
            0 <= i < placed.len() ==> #[trigger] placed[i] == reachability::placed_at(
                db,
                file(placed[i].item),
                range(placed[i].item),
                placed[i].item,
            ),
    ensures
        ({
            let items = reachability::items_of(order::stable_sort(placed));
            forall|i: int, j: int|
                0 <= i < j < items.len() ==> !reachability::place_before(
                    place_in(db, file(#[trigger] items[j]), range(items[j])),
                    place_in(db, file(#[trigger] items[i]), range(items[i])),
                )
        }),
{
    let sorted = order::stable_sort(placed);
    let items = reachability::items_of(sorted);
    order::lemma_stable_sort(placed);
    assert forall|i: int| 0 <= i < sorted.len() implies (#[trigger] sorted[i]).key() == place_in(
        db,
        file(items[i]),
        range(items[i]),
    ) by {
        assert(sorted.contains(sorted[i]));
        let k = choose|k: int| 0 <= k < placed.len() && placed[k] == sorted[i];
        assert(placed[k].item == items[i]);
    }
    assert forall|i: int, j: int| 0 <= i < j < items.len() implies !reachability::place_before(
        place_in(db, file(#[trigger] items[j]), range(items[j])),
        place_in(db, file(#[trigger] items[i]), range(items[i])),
    ) by {
        assert(!<Placed<T> as Ordered>::key_before(sorted[j].key(), sorted[i].key()));
    }
}

/// A call that is reported as closing a cycle is not reported as unsupported too.
pub proof fn law_cycles_hide_unsupported_calls(
    db: Db,
    files: Seq<ProjectFile>,
    found: ProjectCandidates,
    i: int,
    j: int,
)
    requires
        found.of(db, files),
        0 <= i < found.unsupported@.len(),
        0 <= j < found.cycles@.len(),
    ensures
        found.unsupported@[i].file != found.cycles@[j].file || found.unsupported@[i].range
            != found.cycles@[j].range,
{
    let sorted = reachability::sorted_files(db, files);
    let cycles = reachability::reached_cycles(db, sorted);
    let reached = reachability::reached_unsupported(db, sorted);
    let kept = reachability::outside_cycles(reached, cycles);
    let placed_kept = Seq::new(
        kept.len(),
        |k: int| reachability::placed_at(db, kept[k].file, kept[k].range, kept[k]),
    );
    let placed_cycles = Seq::new(
        cycles.len(),
        |k: int| reachability::placed_at(db, cycles[k].file, cycles[k].range, cycles[k]),
    );
    order::lemma_stable_sort(placed_kept);
    order::lemma_stable_sort(placed_cycles);
    let sorted_kept = order::stable_sort(placed_kept);
    let sorted_cycles = order::stable_sort(placed_cycles);
    assert(reachability::candidate_views(found.unsupported@).len() == found.unsupported@.len());
    assert(sorted_kept.contains(sorted_kept[i]));
    assert(sorted_cycles.contains(sorted_cycles[j]));
    let a = choose|a: int| 0 <= a < placed_kept.len() && placed_kept[a] == sorted_kept[i];
    let b = choose|b: int| 0 <= b < placed_cycles.len() && placed_cycles[b] == sorted_cycles[j];
    let view = reachability::candidate_views(found.unsupported@)[i];
    assert(view == kept[a]);
    assert(found.cycles@[j] == cycles[b]);
    lemma_outside_cycles(reached, cycles);
    let place = CycleCandidate { file: kept[a].file, range: kept[a].range };
    assert(!cycles.contains(place));
    assert(cycles.contains(cycles[b]));
}

/// What is outside of cycles was found, and closes none.
pub proof fn lemma_outside_cycles(found: Seq<Unsupported>, cycles: Seq<CycleCandidate>)
    ensures
        ({
            let kept = reachability::outside_cycles(found, cycles);
            forall|i: int|
                0 <= i < kept.len() ==> found.contains(#[trigger] kept[i]) && !cycles.contains(
                    CycleCandidate { file: kept[i].file, range: kept[i].range },
                )
        }),
    decreases found.len(),
{
    if found.len() > 0 {
        let init = found.drop_last();
        lemma_outside_cycles(init, cycles);
        let before = reachability::outside_cycles(init, cycles);
        let kept = reachability::outside_cycles(found, cycles);
        assert forall|i: int| 0 <= i < kept.len() implies found.contains(#[trigger] kept[i])
            && !cycles.contains(CycleCandidate { file: kept[i].file, range: kept[i].range }) by {
            if i < before.len() {
                assert(kept[i] == before[i]);
                let k = choose|k: int| 0 <= k < init.len() && init[k] == before[i];
                assert(found[k] == kept[i]);
            } else {
                assert(found[found.len() - 1] == kept[i]);
            }
        }
    }
}

/// In which order the files of a project are given changes nothing, as long as no two of them have
/// the same path.
pub proof fn law_file_order_is_irrelevant(
    db: Db,
    left: Seq<ProjectFile>,
    right: Seq<ProjectFile>,
)
    requires
        forall|file: ProjectFile| #[trigger] left.contains(file) <==> right.contains(file),
        forall|i: int, j: int|
            0 <= i < j < left.len() ==> db.file((#[trigger] left[i]).file).path@ != db.file(
                (#[trigger] left[j]).file,
            ).path@,
        forall|i: int, j: int|
            0 <= i < j < right.len() ==> db.file((#[trigger] right[i]).file).path@ != db.file(
                (#[trigger] right[j]).file,
            ).path@,
    ensures
        reachability::sorted_files(db, left) == reachability::sorted_files(db, right),
{
    let a = Seq::new(left.len(), |i: int| reachability::file_view(db, left[i]));
    let b = Seq::new(right.len(), |i: int| reachability::file_view(db, right[i]));
    let x = order::stable_sort(a);
    let y = order::stable_sort(b);
    order::lemma_stable_sort(a);
    order::lemma_stable_sort(b);
    assert forall|view: FileView| #[trigger] a.contains(view) implies b.contains(view) by {
        let k = choose|k: int| 0 <= k < a.len() && a[k] == view;
        assert(left.contains(left[k]));
        assert(right.contains(left[k]));
        let m = choose|m: int| 0 <= m < right.len() && right[m] == left[k];
        assert(b[m] == view);
    }
    assert forall|view: FileView| #[trigger] b.contains(view) implies a.contains(view) by {
        let k = choose|k: int| 0 <= k < b.len() && b[k] == view;
        assert(right.contains(right[k]));
        assert(left.contains(right[k]));
        let m = choose|m: int| 0 <= m < left.len() && left[m] == right[k];
        assert(a[m] == view);
    }
    lemma_distinct_keys(a);
    lemma_distinct_keys(b);
    assert forall|view: FileView| #[trigger] x.contains(view) <==> y.contains(view) by {
        assert(x.contains(view) <==> a.contains(view));
        assert(y.contains(view) <==> b.contains(view));
    }
    assert forall|key: Seq<char>| #[trigger] order::keys(x).contains(key) <==> order::keys(
        y,
    ).contains(key) by {
        if order::keys(x).contains(key) {
            let k = choose|k: int| 0 <= k < order::keys(x).len() && order::keys(x)[k] == key;
            assert(x.contains(x[k]));
            assert(y.contains(x[k]));
            let m = choose|m: int| 0 <= m < y.len() && y[m] == x[k];
            assert(order::keys(y)[m] == key);
        }
        if order::keys(y).contains(key) {
            let k = choose|k: int| 0 <= k < order::keys(y).len() && order::keys(y)[k] == key;
            assert(y.contains(y[k]));
            assert(x.contains(y[k]));
            let m = choose|m: int| 0 <= m < x.len() && x[m] == y[k];
            assert(order::keys(x)[m] == key);
        }
    }
    order::lemma_strictly_increasing_unique(x, y);
    assert forall|i: int| 0 <= i < x.len() implies x[i] == y[i] by {
        assert(order::keys(x)[i] == order::keys(y)[i]);
        assert(x.contains(x[i]));
        assert(y.contains(x[i]));
        let m = choose|m: int| 0 <= m < y.len() && y[m] == x[i];
        assert(y[m].key() == y[i].key());
        if m < i {
            assert(<FileView as Ordered>::key_before(y[m].key(), y[i].key()));
            <FileView as Ordered>::key_irreflexive(y[i].key());
        } else if i < m {
            assert(<FileView as Ordered>::key_before(y[i].key(), y[m].key()));
            <FileView as Ordered>::key_irreflexive(y[i].key());
        }
    }
    assert(order::keys(x).len() == order::keys(y).len());
    assert(x =~= y);
}

/// A sorted list of files of different paths is strictly increasing.
proof fn lemma_distinct_keys(files: Seq<FileView>)
    requires
        forall|i: int, j: int|
            0 <= i < j < files.len() ==> (#[trigger] files[i]).path != (#[trigger] files[j]).path,
    ensures
        order::strictly_increasing(order::stable_sort(files)),
{
    let sorted = order::stable_sort(files);
    order::lemma_stable_sort(files);
    assert forall|i: int, j: int| 0 <= i < j < sorted.len() implies <FileView as Ordered>::key_before(
        (#[trigger] sorted[i]).key(),
        (#[trigger] sorted[j]).key(),
    ) by {
        <FileView as Ordered>::key_total(sorted[i].key(), sorted[j].key());
        if sorted[i].key() == sorted[j].key() {
            lemma_no_duplicates(files, sorted, i, j);
        }
    }
}

/// A sorted list holds nothing twice that the unsorted list holds once.
proof fn lemma_no_duplicates(files: Seq<FileView>, sorted: Seq<FileView>, i: int, j: int)
    requires
        forall|m: int, n: int|
            0 <= m < n < files.len() ==> (#[trigger] files[m]).path != (#[trigger] files[n]).path,
        sorted.to_multiset() =~= files.to_multiset(),
        forall|x: FileView| #[trigger] sorted.contains(x) <==> files.contains(x),
        0 <= i < j < sorted.len(),
    ensures
        sorted[i].path != sorted[j].path,
{
    if sorted[i].path == sorted[j].path {
        lemma_duplicates_come_from_duplicates(files, sorted, i, j);
    }
}

proof fn lemma_duplicates_come_from_duplicates(
    files: Seq<FileView>,
    sorted: Seq<FileView>,
    i: int,
    j: int,
)
    requires
        sorted.to_multiset() =~= files.to_multiset(),
        forall|x: FileView| #[trigger] sorted.contains(x) <==> files.contains(x),
        0 <= i < j < sorted.len(),
        sorted[i].path == sorted[j].path,
    ensures
        exists|m: int, n: int|
            0 <= m < n < files.len() && (#[trigger] files[m]).path == (#[trigger] files[n]).path,
{
    broadcast use vstd::seq_lib::group_to_multiset_ensures;

    let item = sorted[i];
    assert(sorted.contains(sorted[i]) && sorted.contains(sorted[j]));
    let m = choose|m: int| 0 <= m < files.len() && files[m] == sorted[i];
    let n = choose|n: int| 0 <= n < files.len() && files[n] == sorted[j];
    if m < n {
        assert(files[m].path == files[n].path);
    } else if n < m {
        assert(files[n].path == files[m].path);
    } else {
        assert(sorted[j] == item);
        let less = sorted.remove(j);
        assert(less[i] == item);
        assert(less.contains(item));
        assert(less.to_multiset() =~= sorted.to_multiset().remove(sorted[j]));
        assert(less.to_multiset().count(item) > 0);
        assert(sorted.to_multiset().count(item) > 0);
        assert(sorted.to_multiset().count(item) >= 2);
        let rest = files.remove(m);
        assert(files.to_multiset().count(item) >= 2);
        assert(rest.to_multiset() =~= files.to_multiset().remove(files[m]));
        assert(rest.to_multiset().count(item) >= 1);
        assert(rest.contains(item));
        let k = choose|k: int| 0 <= k < rest.len() && rest[k] == item;
        if k < m {
            assert(files[k].path == files[m].path);
        } else {
            assert(files[m].path == files[k + 1].path);
        }
    }
}

} // verus!

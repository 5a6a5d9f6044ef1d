//! The diagnostics of an active project: those of exactly its Python sources.

use vstd::prelude::*;

use crate::active_project;
use crate::active_project::{ChalkProjectInput, Files};
use crate::call_matcher::{CallMatchTarget, CallNoMatchReason, Target};
use crate::diagnostic;
use crate::diagnostic::ChalkDiagnostic;
use crate::facts;
use crate::facts::{CallFact, FileFacts};
use crate::order;
use crate::reachability;
use crate::reachability::{
    FileView, PlacedCall, ProjectCandidates, ProjectFile, ProjectSuppressionProblem, Unsupported,
};
use crate::reachability_laws;
use crate::semantic::{Db, Definition, File};
use crate::supported_functions::SupportedFuncs;
use crate::text;

verus! {

// ---------------------------------------------------------------------------------------------
// The files of a project
// ---------------------------------------------------------------------------------------------

/// The facts of a file, where it could be checked. The facts of all files are listed by the numbers
/// of the files.
pub open spec fn facts_of(known: Seq<Option<FileFacts>>, file: File) -> Option<FileFacts> {
    if file.id < known.len() {
        known[file.id as int]
    } else {
        None
    }
}

/// Whether a file of the file system is a Python source.
pub open spec fn is_python(files: Files) -> spec_fn(File) -> bool {
    |file: File| active_project::is_python_path(files.path(file)->Some_0)
}

/// The Python sources of a project with their facts, in order.
pub open spec fn project_files(
    files: Files,
    sources: Seq<File>,
    known: Seq<Option<FileFacts>>,
) -> Seq<ProjectFile> {
    let python = sources.filter(is_python(files));
    Seq::new(
        python.len(),
        |i: int| ProjectFile { file: python[i], facts: facts_of(known, python[i]) },
    )
}

/// Whether the facts of all files speak of what is known, and all sources are known files.
pub open spec fn facts_wf(db: Db, sources: Seq<File>, known: Seq<Option<FileFacts>>) -> bool {
    &&& forall|i: int| 0 <= i < sources.len() ==> db.has_file(#[trigger] sources[i])
    &&& forall|i: int|
        0 <= i < known.len() ==> ((#[trigger] known[i]) matches Some(facts) ==> facts::facts_known(
            db,
            facts,
        ) && locations_known(db, facts))
}

/// Whether the targets of calls are defined in known files.
pub open spec fn locations_known(db: Db, facts: FileFacts) -> bool {
    forall|i: int, k: int|
        #![trigger facts.calls@[i].no_matches@[k]]
        0 <= i < facts.calls@.len() && 0 <= k < facts.calls@[i].no_matches@.len() ==> (
        facts.calls@[i].no_matches@[k].0.definition_range matches Some(location) ==> db.has_file(
            location.file,
        ))
}

/// Whether the facts of a file are about parts of its source.
pub open spec fn facts_fit(facts: FileFacts, source: Seq<char>) -> bool {
    &&& forall|i: int|
        0 <= i < facts.calls@.len() ==> text::is_part(source, (#[trigger] facts.calls@[i]).range)
    &&& forall|i: int|
        0 <= i < facts.suppression_problems@.len() ==> text::is_part(
            source,
            (#[trigger] facts.suppression_problems@[i]).range,
        )
}

fn copied_call(call: &CallFact) -> (copy: CallFact)
    ensures
        copy@ == call@,
{
    let mut targets = Vec::new();
    let mut i: usize = 0;
    while i < call.targets.len()
        invariant
            i <= call.targets@.len(),
            targets@ == call.targets@.take(i as int),
        decreases call.targets@.len() - i,
    {
        targets.push(call.targets[i]);
        assert(targets@ =~= call.targets@.take(i as int + 1));
        i += 1;
    }
    assert(call.targets@.take(i as int) =~= call.targets@);
    let mut no_matches: Vec<(CallMatchTarget, CallNoMatchReason)> = Vec::new();
    i = 0;
    while i < call.no_matches.len()
        invariant
            i <= call.no_matches@.len(),
            no_matches@.len() == i,
            forall|k: int|
                0 <= k < i ==> (#[trigger] no_matches@[k]).0@ == call.no_matches@[k].0@
                    && no_matches@[k].1 == call.no_matches@[k].1,
        decreases call.no_matches@.len() - i,
    {
        let entry = &call.no_matches[i];
        no_matches.push((entry.0.copied(), entry.1));
        i += 1;
    }
    assert(facts::no_match_views(no_matches@) =~= facts::no_match_views(call.no_matches@));
    CallFact {
        caller: call.caller,
        range: call.range,
        targets,
        no_matches,
        unsupported_function_statement_suppression:
            call.unsupported_function_statement_suppression,
        unsupported_function_caller_suppression: call.unsupported_function_caller_suppression,
    }
}

fn copied_facts(facts: &FileFacts) -> (copy: FileFacts)
    ensures
        copy.resolver_roots@ == facts.resolver_roots@,
        facts::fact_views(copy.calls@) == facts::fact_views(facts.calls@),
        copy.suppression_problems@ == facts.suppression_problems@,
{
    let mut resolver_roots = Vec::new();
    let mut i: usize = 0;
    while i < facts.resolver_roots.len()
        invariant
            i <= facts.resolver_roots@.len(),
            resolver_roots@ == facts.resolver_roots@.take(i as int),
        decreases facts.resolver_roots@.len() - i,
    {
        resolver_roots.push(facts.resolver_roots[i]);
        assert(resolver_roots@ =~= facts.resolver_roots@.take(i as int + 1));
        i += 1;
    }
    assert(facts.resolver_roots@.take(i as int) =~= facts.resolver_roots@);
    let mut calls: Vec<CallFact> = Vec::new();
    i = 0;
    while i < facts.calls.len()
        invariant
            i <= facts.calls@.len(),
            calls@.len() == i,
            forall|k: int| 0 <= k < i ==> (#[trigger] calls@[k])@ == facts.calls@[k]@,
        decreases facts.calls@.len() - i,
    {
        calls.push(copied_call(&facts.calls[i]));
        i += 1;
    }
    assert(facts::fact_views(calls@) =~= facts::fact_views(facts.calls@));
    let mut suppression_problems = Vec::new();
    i = 0;
    while i < facts.suppression_problems.len()
        invariant
            i <= facts.suppression_problems@.len(),
            suppression_problems@ == facts.suppression_problems@.take(i as int),
        decreases facts.suppression_problems@.len() - i,
    {
        suppression_problems.push(facts.suppression_problems[i]);
        assert(suppression_problems@ =~= facts.suppression_problems@.take(i as int + 1));
        i += 1;
    }
    assert(facts.suppression_problems@.take(i as int) =~= facts.suppression_problems@);
    FileFacts { resolver_roots, calls, suppression_problems }
}

/// What files of projects are, as values.
spec fn views_of(db: Db, files: Seq<ProjectFile>) -> Seq<FileView> {
    Seq::new(files.len(), |i: int| reachability::file_view(db, files[i]))
}

/// Picks the Python sources of a project, with their facts.
fn pick_files(db: &Db, files: &Files, input: &ChalkProjectInput, known: &Vec<Option<FileFacts>>) -> (
picked: Vec<ProjectFile>)
    requires
        files.wf(),
        input.wf(*files),
        facts_wf(*db, input.source_files@, known@),
    ensures
        reachability::files_known(*db, picked@),
        views_of(*db, picked@) == views_of(
            *db,
            project_files(*files, input.source_files@, known@),
        ),
{
    let python = input.python_files(files);
    let ghost all = project_files(*files, input.source_files@, known@);
    proof {
        assert(python@ == input.source_files@.filter(is_python(*files)));
        lemma_python_known(*db, *files, input.source_files@);
    }
    let mut picked: Vec<ProjectFile> = Vec::new();
    let mut i: usize = 0;
    while i < python.len()
        invariant
            i <= python@.len(),
            python@ == input.source_files@.filter(is_python(*files)),
            forall|k: int| 0 <= k < python@.len() ==> db.has_file(#[trigger] python@[k]),
            all == project_files(*files, input.source_files@, known@),
            facts_wf(*db, input.source_files@, known@),
            picked@.len() == i,
            reachability::files_known(*db, picked@),
            forall|k: int|
                0 <= k < i ==> reachability::file_view(*db, #[trigger] picked@[k])
                    == reachability::file_view(*db, all[k]),
        decreases python@.len() - i,
    {
        let file = python[i];
        let ghost before = picked@;
        let facts = if file.id < known.len() {
            match &known[file.id] {
                Some(facts) => Some(copied_facts(facts)),
                None => None,
            }
        } else {
            None
        };
        proof {
            if let Some(own) = facts_of(known@, file) {
                assert(known@[file.id as int] == Some(own));
                lemma_same_known(*db, own, facts->Some_0);
            }
        }
        let next = ProjectFile { file, facts };
        assert(reachability::file_view(*db, next) == reachability::file_view(*db, all[i as int]));
        picked.push(next);
        assert forall|k: int| 0 <= k < picked@.len() implies db.has_file(
            (#[trigger] picked@[k]).file,
        ) && (picked@[k].facts matches Some(facts) ==> facts::facts_known(*db, facts)) by {
            if k < before.len() {
                assert(picked@[k] == before[k]);
            }
        }
        i += 1;
    }
    assert(views_of(*db, picked@) =~= views_of(*db, all));
    picked
}

proof fn lemma_python_known(db: Db, files: Files, sources: Seq<File>)
    requires
        forall|i: int| 0 <= i < sources.len() ==> db.has_file(#[trigger] sources[i]),
    ensures
        forall|k: int|
            0 <= k < sources.filter(is_python(files)).len() ==> db.has_file(
                #[trigger] sources.filter(is_python(files))[k],
            ),
    decreases sources.len(),
{
    reveal(Seq::filter);
    if sources.len() > 0 {
        assert forall|i: int| 0 <= i < sources.drop_last().len() implies db.has_file(
            #[trigger] sources.drop_last()[i],
        ) by {
            assert(sources[i] == sources.drop_last()[i]);
        }
        lemma_python_known(db, files, sources.drop_last());
        let before = sources.drop_last().filter(is_python(files));
        let found = sources.filter(is_python(files));
        assert(db.has_file(sources[sources.len() - 1]));
        assert forall|k: int| 0 <= k < found.len() implies db.has_file(#[trigger] found[k]) by {
            if k < before.len() {
                assert(found[k] == before[k]);
            }
        }
    }
}

/// Facts that are the same as values are known alike.
proof fn lemma_same_known(db: Db, left: FileFacts, right: FileFacts)
    requires
        facts::facts_known(db, left),
        left.resolver_roots@ == right.resolver_roots@,
        facts::fact_views(left.calls@) == facts::fact_views(right.calls@),
    ensures
        facts::facts_known(db, right),
{
    assert(left.calls@.len() == facts::fact_views(left.calls@).len());
    assert(right.calls@.len() == facts::fact_views(right.calls@).len());
    assert forall|i: int| 0 <= i < right.calls@.len() implies db.has_definition(
        (#[trigger] right.calls@[i]).caller,
    ) && crate::provenance::targets_known(db, right.calls@[i].targets@) by {
        assert(facts::fact_views(right.calls@)[i] == right.calls@[i]@);
        assert(facts::fact_views(left.calls@)[i] == left.calls@[i]@);
        assert(left.calls@[i].caller == right.calls@[i].caller);
    }
}

/// What there is to report of an active project: of its Python sources, and of no other files.
pub fn chalk_project_candidates(
    db: &Db,
    files: &Files,
    input: &ChalkProjectInput,
    known: &Vec<Option<FileFacts>>,
) -> (candidates: ProjectCandidates)
    requires
        db.wf(),
        files.wf(),
        input.wf(*files),
        facts_wf(*db, input.source_files@, known@),
    ensures
        candidates.of(*db, project_files(*files, input.source_files@, known@)),
{
    let picked = pick_files(db, files, input, known);
    proof {
        let wanted = project_files(*files, input.source_files@, known@);
        assert(views_of(*db, picked@) =~= Seq::new(
            picked@.len(),
            |i: int| reachability::file_view(*db, picked@[i]),
        ));
        assert(views_of(*db, wanted) =~= Seq::new(
            wanted.len(),
            |i: int| reachability::file_view(*db, wanted[i]),
        ));
        assert(reachability::sorted_files(*db, picked@) == reachability::sorted_files(
            *db,
            wanted,
        ));
    }
    reachability::project_candidates(db, &picked)
}

// ---------------------------------------------------------------------------------------------
// Diagnostics
// ---------------------------------------------------------------------------------------------

/// A call of several files is a fact of one of them.
proof fn lemma_call_of_file(files: Seq<FileView>, site: PlacedCall)
    requires
        reachability::all_calls(files).contains(site),
    ensures
        exists|k: int|
            0 <= k < files.len() && (#[trigger] files[k]).file == site.file && (
            files[k].facts matches Some(facts) && facts.calls.contains(site.call)),
    decreases files.len(),
{
    if files.len() > 0 {
        let init = files.drop_last();
        let before = reachability::all_calls(init);
        let own = reachability::calls_in(files.last());
        let all = reachability::all_calls(files);
        let i = choose|i: int| 0 <= i < all.len() && all[i] == site;
        if i < before.len() {
            assert(before[i] == site);
            lemma_call_of_file(init, site);
            let k = choose|k: int|
                0 <= k < init.len() && (#[trigger] init[k]).file == site.file && (
                init[k].facts matches Some(facts) && facts.calls.contains(site.call));
            assert(files[k] == init[k]);
        } else {
            assert(own[i - before.len()] == site);
            assert(files[files.len() - 1] == files.last());
            assert(files.last().facts->Some_0.calls[i - before.len()] == site.call);
        }
    }
}

/// A problem of several files is one of a file.
proof fn lemma_problem_of_file(files: Seq<FileView>, problem: ProjectSuppressionProblem)
    requires
        reachability::problems_of(files).contains(problem),
    ensures
        exists|k: int, m: int|
            0 <= k < files.len() && (#[trigger] files[k]).file == problem.file && files[k].facts
                is Some && 0 <= m < files[k].facts->Some_0.problems.len() && (
            #[trigger] files[k].facts->Some_0.problems[m]).range == problem.range,
    decreases files.len(),
{
    if files.len() > 0 {
        let init = files.drop_last();
        let before = reachability::problems_of(init);
        let all = reachability::problems_of(files);
        let i = choose|i: int| 0 <= i < all.len() && all[i] == problem;
        if i < before.len() {
            assert(before[i] == problem);
            lemma_problem_of_file(init, problem);
            let (k, m) = choose|k: int, m: int|
                0 <= k < init.len() && (#[trigger] init[k]).file == problem.file && init[k].facts
                    is Some && 0 <= m < init[k].facts->Some_0.problems.len() && (
                #[trigger] init[k].facts->Some_0.problems[m]).range == problem.range;
            assert(files[k] == init[k]);
            assert(files[k].facts->Some_0.problems[m].range == problem.range);
        } else {
            assert(files[files.len() - 1] == files.last());
            assert(files[files.len() - 1].facts->Some_0.problems[i - before.len()].range
                == problem.range);
        }
    }
}

proof fn lemma_unsupported_targets(
    no_matches: Seq<(Target, CallNoMatchReason)>,
    followed: Seq<Definition>,
)
    ensures
        forall|i: int|
            0 <= i < reachability::unsupported_targets(no_matches, followed).len()
                ==> no_matches.contains(
                #[trigger] reachability::unsupported_targets(no_matches, followed)[i],
            ),
    decreases no_matches.len(),
{
    if no_matches.len() > 0 {
        let init = no_matches.drop_last();
        lemma_unsupported_targets(init, followed);
        let before = reachability::unsupported_targets(init, followed);
        let found = reachability::unsupported_targets(no_matches, followed);
        assert forall|i: int| 0 <= i < found.len() implies no_matches.contains(
            #[trigger] found[i],
        ) by {
            if i < before.len() {
                assert(found[i] == before[i]);
                let k = choose|k: int| 0 <= k < init.len() && init[k] == before[i];
                assert(no_matches[k] == found[i]);
            } else {
                assert(no_matches[no_matches.len() - 1] == found[i]);
            }
        }
    }
}

/// Which of the files of a project a sorted one is.
proof fn lemma_sorted_file(db: Db, files: Seq<ProjectFile>, k: int) -> (at: int)
    requires
        0 <= k < reachability::sorted_files(db, files).len(),
    ensures
        0 <= at < files.len(),
        reachability::sorted_files(db, files)[k] == reachability::file_view(db, files[at]),
{
    let unsorted = Seq::new(files.len(), |i: int| reachability::file_view(db, files[i]));
    order::lemma_stable_sort(unsorted);
    let sorted = reachability::sorted_files(db, files);
    assert(sorted.contains(sorted[k]));
    choose|at: int| 0 <= at < unsorted.len() && unsorted[at] == sorted[k]
}

/// What a project has to report is about facts of its files.
proof fn lemma_fits(
    db: Db,
    files: Files,
    sources: Seq<File>,
    known: Seq<Option<FileFacts>>,
    candidates: ProjectCandidates,
    file: File,
    source: Seq<char>,
)
    requires
        facts_wf(db, sources, known),
        facts_of(known, file) matches Some(facts) ==> facts_fit(facts, source),
        candidates.of(db, project_files(files, sources, known)),
    ensures
        diagnostic::fits_source(db, candidates, file, source),
{
    let own = project_files(files, sources, known);
    let sorted = reachability::sorted_files(db, own);
    let graph = reachability::graph_of(db, sorted);
    lemma_python_known(db, files, sources);
    assert forall|i: int| 0 <= i < own.len() implies db.has_file((#[trigger] own[i]).file) && (
    own[i].facts matches Some(facts) ==> facts::facts_known(db, facts)) by {
        if own[i].facts is Some {
            assert(known[own[i].file.id as int] is Some);
        }
    }
    reachability_laws::law_projects_are_known(db, own);
    let cycles = reachability::reached_cycles(db, sorted);
    let reached = reachability::reached_unsupported(db, sorted);
    let kept = reachability::outside_cycles(reached, cycles);
    reachability_laws::lemma_outside_cycles(reached, cycles);
    let placed = Seq::new(
        kept.len(),
        |k: int| reachability::placed_at(db, kept[k].file, kept[k].range, kept[k]),
    );
    order::lemma_stable_sort(placed);
    let views = reachability::candidate_views(candidates.unsupported@);
    assert(views.len() == candidates.unsupported@.len());
    assert forall|i: int| 0 <= i < candidates.unsupported@.len() implies (
    candidates.unsupported@[i].file == file ==> text::is_part(
        source,
        candidates.unsupported@[i].range,
    )) && diagnostic::locations_known(
        db,
        (#[trigger] candidates.unsupported@[i]).targets@,
    ) by {
        let in_order = order::stable_sort(placed);
        assert(in_order.contains(in_order[i]));
        let a = choose|a: int| 0 <= a < placed.len() && placed[a] == in_order[i];
        assert(views[i] == kept[a]);
        let found = kept[a];
        assert(reached.contains(found));
        reachability_laws::law_unsupported_calls_are_exactly_those_reached(db, sorted, found);
        let s = choose|s: int|
            0 <= s < graph.sites.len() && reachability_laws::reached_from(
                graph,
                reachability::roots_of(sorted).open,
                (#[trigger] graph.sites[s]).call.caller,
            ) && reachability::candidate_of(graph, graph.sites[s]) == Some(found);
        lemma_found_call(db, files, sources, known, graph.sites[s], found, candidates, i);
        if candidates.unsupported@[i].file == file {
            let facts = facts_of(known, file)->Some_0;
            let m = choose|m: int|
                0 <= m < facts.calls@.len() && (#[trigger] facts.calls@[m]).range == found.range;
            assert(text::is_part(source, facts.calls@[m].range));
        }
    }
    let problems = reachability::problems_of(sorted);
    let placed_problems = Seq::new(
        problems.len(),
        |k: int| reachability::placed_at(db, problems[k].file, problems[k].range, problems[k]),
    );
    order::lemma_stable_sort(placed_problems);
    assert forall|i: int|
        0 <= i < candidates.suppression_problems@.len() && (
        #[trigger] candidates.suppression_problems@[i]).file == file implies text::is_part(
        source,
        candidates.suppression_problems@[i].range,
    ) by {
        let in_order = order::stable_sort(placed_problems);
        assert(in_order.contains(in_order[i]));
        let a = choose|a: int| 0 <= a < placed_problems.len() && placed_problems[a]
            == in_order[i];
        let problem = problems[a];
        assert(candidates.suppression_problems@[i] == problem);
        assert(problems.contains(problem));
        lemma_problem_of_file(sorted, problem);
        let (k, m) = choose|k: int, m: int|
            0 <= k < sorted.len() && (#[trigger] sorted[k]).file == problem.file
                && sorted[k].facts is Some && 0 <= m < sorted[k].facts->Some_0.problems.len() && (
            #[trigger] sorted[k].facts->Some_0.problems[m]).range == problem.range;
        let at = lemma_sorted_file(db, own, k);
        let facts = facts_of(known, file)->Some_0;
        assert(own[at].facts == Some(facts));
        assert(text::is_part(source, facts.suppression_problems@[m].range));
    }
}

/// A call that is reported is a fact of its file, and its targets are those of the fact.
proof fn lemma_found_call(
    db: Db,
    files: Files,
    sources: Seq<File>,
    known: Seq<Option<FileFacts>>,
    site: PlacedCall,
    found: Unsupported,
    candidates: ProjectCandidates,
    i: int,
)
    requires
        facts_wf(db, sources, known),
        ({
            let sorted = reachability::sorted_files(db, project_files(files, sources, known));
            let graph = reachability::graph_of(db, sorted);
            &&& graph.sites.contains(site)
            &&& reachability::candidate_of(graph, site) == Some(found)
        }),
        0 <= i < candidates.unsupported@.len(),
        candidates.unsupported@[i]@ == found,
    ensures
        facts_of(known, found.file) matches Some(facts) && exists|m: int|
            0 <= m < facts.calls@.len() && (#[trigger] facts.calls@[m]).range == found.range,
        diagnostic::locations_known(db, candidates.unsupported@[i].targets@),
{
    let own = project_files(files, sources, known);
    let sorted = reachability::sorted_files(db, own);
    let graph = reachability::graph_of(db, sorted);
    lemma_call_of_file(sorted, site);
    let k = choose|k: int|
        0 <= k < sorted.len() && (#[trigger] sorted[k]).file == site.file && (
        sorted[k].facts matches Some(facts) && facts.calls.contains(site.call));
    let at = lemma_sorted_file(db, own, k);
    let facts = facts_of(known, found.file)->Some_0;
    assert(own[at].facts == Some(facts));
    let calls = facts::fact_views(facts.calls@);
    assert(sorted[k].facts->Some_0.calls == calls);
    let m = choose|m: int| 0 <= m < calls.len() && calls[m] == site.call;
    assert(facts.calls@[m]@ == site.call);
    assert(facts.calls@[m].range == found.range);
    let no_matches = site.call.no_matches;
    lemma_unsupported_targets(no_matches, graph.next(site));
    let targets = candidates.unsupported@[i].targets@;
    assert(reachability::target_views(targets) == found.targets);
    assert forall|j: int| 0 <= j < targets.len() implies ((
    #[trigger] targets[j]).target.definition_range matches Some(location) ==> db.has_file(
        location.file,
    )) by {
        assert(reachability::target_views(targets)[j] == found.targets[j]);
        let n = choose|n: int| 0 <= n < no_matches.len() && no_matches[n] == found.targets[j];
        assert(facts::no_match_views(facts.calls@[m].no_matches@)[n] == no_matches[n]);
        assert(facts.calls@[m].no_matches@[n].0.definition_range
            == targets[j].target.definition_range);
        assert(known[found.file.id as int] == Some(facts));
    }
}

/// The diagnostics of a file of an active project: those of what its Python sources have to report
/// there. A file that is no source of the project has none.
pub fn chalk_project_diagnostics(
    db: &Db,
    supported: &SupportedFuncs,
    files: &Files,
    input: &ChalkProjectInput,
    known: &Vec<Option<FileFacts>>,
    file: File,
    source: &str,
) -> (diagnostics: Vec<ChalkDiagnostic>)
    requires
        db.wf(),
        supported.wf(),
        files.wf(),
        input.wf(*files),
        facts_wf(*db, input.source_files@, known@),
        facts_of(known@, file) matches Some(facts) ==> facts_fit(facts, source@),
    ensures
        !input.source_files@.contains(file) ==> diagnostics@.len() == 0,
        input.source_files@.contains(file) ==> exists|
            candidates: ProjectCandidates,
            found: Seq<ChalkDiagnostic>,
        |
            #![trigger reachability::unsupported_in(candidates.unsupported@, file), order::stable_sort(found)]
            candidates.of(*db, project_files(*files, input.source_files@, known@))
                && diagnostic::is_report(
                *db,
                *supported,
                source@,
                reachability::unsupported_in(candidates.unsupported@, file),
                reachability::cycles_in(candidates.cycles@, file),
                reachability::problems_in(candidates.suppression_problems@, file),
                found,
            ) && diagnostics@ == order::stable_sort(found),
{
    let candidates = chalk_project_candidates(db, files, input, known);
    proof {
        lemma_fits(*db, *files, input.source_files@, known@, candidates, file, source@);
    }
    diagnostic::chalk_diagnostics_for_file(
        db,
        supported,
        &input.source_files,
        &candidates,
        file,
        source,
    )
}

// ---------------------------------------------------------------------------------------------
// Laws
// ---------------------------------------------------------------------------------------------

/// Only the Python sources of a project count: what is known of other files changes nothing in what
/// it has to report.
pub proof fn law_other_files_do_not_count(
    files: Files,
    sources: Seq<File>,
    left: Seq<Option<FileFacts>>,
    right: Seq<Option<FileFacts>>,
)
    requires
        forall|file: File|
            sources.contains(file) && active_project::is_python_path(files.path(file)->Some_0)
                ==> #[trigger] facts_of(left, file) == facts_of(right, file),
    ensures
        project_files(files, sources, left) == project_files(files, sources, right),
{
    let python = sources.filter(is_python(files));
    assert forall|i: int| 0 <= i < python.len() implies facts_of(left, python[i]) == facts_of(
        right,
        python[i],
    ) by {
        lemma_is_python(files, sources, i);
    }
    assert(project_files(files, sources, left) =~= project_files(files, sources, right));
}

proof fn lemma_is_python(files: Files, sources: Seq<File>, i: int)
    requires
        0 <= i < sources.filter(is_python(files)).len(),
    ensures
        sources.contains(sources.filter(is_python(files))[i]),
        active_project::is_python_path(
            files.path(sources.filter(is_python(files))[i])->Some_0,
        ),
    decreases sources.len(),
{
    reveal(Seq::filter);
    if sources.len() > 0 {
        let init = sources.drop_last();
        let before = init.filter(is_python(files));
        let found = sources.filter(is_python(files));
        if i < before.len() {
            lemma_is_python(files, init, i);
            assert(found[i] == before[i]);
            let k = choose|k: int| 0 <= k < init.len() && init[k] == before[i];
            assert(sources[k] == found[i]);
        } else {
            assert(sources[sources.len() - 1] == found[i]);
        }
    }
}

} // verus!

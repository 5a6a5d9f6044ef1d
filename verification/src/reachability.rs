//! What resolvers reach: calls that are not supported and calls that close a cycle.

use vstd::prelude::*;

use crate::call_matcher::{CallMatchIdentity, CallMatchTarget, CallNoMatchReason, Identity, Target};
use crate::facts;
use crate::facts::{CallFact, Fact, FileFacts, ResolverRootFact};
use crate::order;
use crate::order::{Keyed, Ordered};
use crate::provenance;
use crate::provenance::{CallTarget, CallTargetKind};
use crate::semantic::{Db, Definition, File};
use crate::suppression::{SuppressionProblem, SuppressionProblemKind};
use crate::text;
use crate::text::{Relation, TextRange};

verus! {

/// A target of a call that is not supported.
#[derive(Debug)]
pub struct UnsupportedTarget {
    pub target: CallMatchTarget,
    pub reason: CallNoMatchReason,
}

/// A call that a resolver reaches, with the targets that are not supported.
#[derive(Debug)]
pub struct UnsupportedCallCandidate {
    pub file: File,
    pub range: TextRange,
    pub targets: Vec<UnsupportedTarget>,
}

/// A call that a resolver reaches and that closes a cycle.
#[derive(Clone, Copy, Debug, PartialEq, Eq, Structural)]
pub struct CycleCandidate {
    pub file: File,
    pub range: TextRange,
}

/// A problem with a directive, whether or not a resolver reaches it.
#[derive(Clone, Copy, Debug, PartialEq, Eq, Structural)]
pub struct ProjectSuppressionProblem {
    pub file: File,
    pub range: TextRange,
    pub kind: SuppressionProblemKind,
}

/// What there is to report of a project, each list sorted by place.
#[derive(Debug)]
pub struct ProjectCandidates {
    pub unsupported: Vec<UnsupportedCallCandidate>,
    pub cycles: Vec<CycleCandidate>,
    pub suppression_problems: Vec<ProjectSuppressionProblem>,
}

/// A Python file of a project, with its facts unless its analysis was aborted.
#[derive(Debug)]
pub struct ProjectFile {
    pub file: File,
    pub facts: Option<FileFacts>,
}

// ---------------------------------------------------------------------------------------------
// Models
// ---------------------------------------------------------------------------------------------

/// A call that is not supported.
pub struct Unsupported {
    pub file: File,
    pub range: TextRange,
    pub targets: Seq<(Target, CallNoMatchReason)>,
}

/// Targets with their reasons.
pub open spec fn target_views(targets: Seq<UnsupportedTarget>) -> Seq<(Target, CallNoMatchReason)> {
    Seq::new(targets.len(), |i: int| (targets[i].target@, targets[i].reason))
}

impl View for UnsupportedCallCandidate {
    type V = Unsupported;

    open spec fn view(&self) -> Unsupported {
        Unsupported {
            file: self.file,
            range: self.range,
            targets: target_views(self.targets@),
        }
    }
}

/// Calls that are not supported.
pub open spec fn candidate_views(candidates: Seq<UnsupportedCallCandidate>) -> Seq<Unsupported> {
    Seq::new(candidates.len(), |i: int| candidates[i]@)
}

/// The facts of a file.
pub struct FactsView {
    pub roots: Seq<ResolverRootFact>,
    pub calls: Seq<Fact>,
    pub problems: Seq<SuppressionProblem>,
}

/// A file of a project.
pub struct FileView {
    pub path: Seq<char>,
    pub file: File,
    pub facts: Option<FactsView>,
}

/// The facts of a file, where there are any.
pub open spec fn facts_view(facts: Option<FileFacts>) -> Option<FactsView> {
    match facts {
        Some(facts) => Some(
            FactsView {
                roots: facts.resolver_roots@,
                calls: facts::fact_views(facts.calls@),
                problems: facts.suppression_problems@,
            },
        ),
        None => None,
    }
}

/// A file of a project.
pub open spec fn file_view(db: Db, file: ProjectFile) -> FileView {
    FileView { path: db.file(file.file).path@, file: file.file, facts: facts_view(file.facts) }
}

impl Ordered for FileView {
    type Key = Seq<char>;

    open spec fn key(&self) -> Seq<char> {
        self.path
    }

    open spec fn key_before(a: Seq<char>, b: Seq<char>) -> bool {
        text::text_before(a, b)
    }

    proof fn key_irreflexive(a: Seq<char>) {
        text::lemma_text_before_irreflexive(a);
    }

    proof fn key_transitive(a: Seq<char>, b: Seq<char>, c: Seq<char>) {
        text::lemma_text_before_transitive(a, b, c);
    }

    proof fn key_total(a: Seq<char>, b: Seq<char>) {
        text::lemma_text_before_total(a, b);
    }
}

/// The files of a project, sorted by path.
pub open spec fn sorted_files(db: Db, files: Seq<ProjectFile>) -> Seq<FileView> {
    order::stable_sort(Seq::new(files.len(), |i: int| file_view(db, files[i])))
}

/// A place in a project.
pub struct Place {
    pub path: Seq<char>,
    pub start: u32,
    pub end: u32,
}

/// The order of places: by path, then by start, then by end.
pub open spec fn place_before(a: Place, b: Place) -> bool {
    text::text_before(a.path, b.path) || (a.path == b.path && (a.start < b.start || (a.start
        == b.start && a.end < b.end)))
}

/// Something at a place.
pub struct Placed<T> {
    pub path: Seq<char>,
    pub range: TextRange,
    pub item: T,
}

impl<T> Ordered for Placed<T> {
    type Key = Place;

    open spec fn key(&self) -> Place {
        Place { path: self.path, start: self.range.start, end: self.range.end }
    }

    open spec fn key_before(a: Place, b: Place) -> bool {
        place_before(a, b)
    }

    proof fn key_irreflexive(a: Place) {
        text::lemma_text_before_irreflexive(a.path);
    }

    proof fn key_transitive(a: Place, b: Place, c: Place) {
        if text::text_before(a.path, b.path) && text::text_before(b.path, c.path) {
            text::lemma_text_before_transitive(a.path, b.path, c.path);
        }
    }

    proof fn key_total(a: Place, b: Place) {
        text::lemma_text_before_total(a.path, b.path);
    }
}

/// Something at its place in a file.
pub open spec fn placed_at<T>(db: Db, file: File, range: TextRange, item: T) -> Placed<T> {
    Placed { path: db.file(file).path@, range, item }
}

/// What stands at sorted places.
pub open spec fn items_of<T>(placed: Seq<Placed<T>>) -> Seq<T> {
    Seq::new(placed.len(), |i: int| placed[i].item)
}

/// Unsupported calls sorted by place.
pub open spec fn sorted_unsupported(db: Db, items: Seq<Unsupported>) -> Seq<Unsupported> {
    items_of(
        order::stable_sort(
            Seq::new(items.len(), |i: int| placed_at(db, items[i].file, items[i].range, items[i])),
        ),
    )
}

/// Cycles sorted by place.
pub open spec fn sorted_cycles(db: Db, items: Seq<CycleCandidate>) -> Seq<CycleCandidate> {
    items_of(
        order::stable_sort(
            Seq::new(items.len(), |i: int| placed_at(db, items[i].file, items[i].range, items[i])),
        ),
    )
}

/// Problems sorted by place.
pub open spec fn sorted_problems(db: Db, items: Seq<ProjectSuppressionProblem>) -> Seq<
    ProjectSuppressionProblem,
> {
    items_of(
        order::stable_sort(
            Seq::new(items.len(), |i: int| placed_at(db, items[i].file, items[i].range, items[i])),
        ),
    )
}

// ---------------------------------------------------------------------------------------------
// The call graph
// ---------------------------------------------------------------------------------------------

/// A call and the file that it stands in.
pub struct PlacedCall {
    pub file: File,
    pub call: Fact,
}

/// The calls of one file.
pub open spec fn calls_in(file: FileView) -> Seq<PlacedCall> {
    match file.facts {
        Some(facts) => Seq::new(
            facts.calls.len(),
            |i: int| PlacedCall { file: file.file, call: facts.calls[i] },
        ),
        None => Seq::empty(),
    }
}

/// The calls of several files, in order.
pub open spec fn all_calls(files: Seq<FileView>) -> Seq<PlacedCall>
    decreases files.len(),
{
    if files.len() == 0 {
        Seq::empty()
    } else {
        all_calls(files.drop_last()) + calls_in(files.last())
    }
}

/// Which functions call which.
pub struct Graph {
    pub db: Db,
    /// The files of the project.
    pub files: Seq<File>,
    /// All calls of the project.
    pub sites: Seq<PlacedCall>,
}

/// The calls of a function, in order.
pub open spec fn calls_by(sites: Seq<PlacedCall>, caller: Definition) -> Seq<PlacedCall>
    decreases sites.len(),
{
    if sites.len() == 0 {
        Seq::empty()
    } else {
        let before = calls_by(sites.drop_last(), caller);
        if sites.last().call.caller == caller {
            before.push(sites.last())
        } else {
            before
        }
    }
}

/// The functions of the project among targets, each once.
pub open spec fn functions_among(db: Db, files: Seq<File>, targets: Seq<CallTarget>) -> Seq<
    Definition,
>
    decreases targets.len(),
{
    if targets.len() == 0 {
        Seq::empty()
    } else {
        let before = functions_among(db, files, targets.drop_last());
        let target = targets.last();
        if target.kind == CallTargetKind::Function && files.contains(
            db.definition(target.definition).file,
        ) && !before.contains(target.definition) {
            before.push(target.definition)
        } else {
            before
        }
    }
}

impl Graph {
    /// The calls of a function.
    pub open spec fn calls_of(self, caller: Definition) -> Seq<PlacedCall> {
        calls_by(self.sites, caller)
    }

    /// The functions of the project that a call may lead to.
    pub open spec fn next(self, site: PlacedCall) -> Seq<Definition> {
        functions_among(self.db, self.files, site.call.targets)
    }
}

/// The call graph of sorted files.
pub open spec fn graph_of(db: Db, files: Seq<FileView>) -> Graph {
    Graph {
        db,
        files: Seq::new(files.len(), |i: int| files[i].file),
        sites: all_calls(files),
    }
}

/// Whether a target is a function of the project that the call leads to.
pub open spec fn is_followed(target: Target, followed: Seq<Definition>) -> bool {
    target.identity matches Identity::Definition(definition) && followed.contains(definition)
}

/// The targets that are not supported, each once; functions of the project are followed instead.
pub open spec fn unsupported_targets(
    no_matches: Seq<(Target, CallNoMatchReason)>,
    followed: Seq<Definition>,
) -> Seq<(Target, CallNoMatchReason)>
    decreases no_matches.len(),
{
    if no_matches.len() == 0 {
        Seq::empty()
    } else {
        let before = unsupported_targets(no_matches.drop_last(), followed);
        if is_followed(no_matches.last().0, followed) || before.contains(no_matches.last()) {
            before
        } else {
            before.push(no_matches.last())
        }
    }
}

/// What a call adds to the unsupported calls: nothing where a directive suppresses it.
pub open spec fn candidate_of(graph: Graph, site: PlacedCall) -> Option<Unsupported> {
    let targets = unsupported_targets(site.call.no_matches, graph.next(site));
    if targets.len() > 0 && site.call.statement_suppression is None
        && site.call.caller_suppression is None {
        Some(Unsupported { file: site.file, range: site.call.range, targets })
    } else {
        None
    }
}

/// Where a call stands.
pub open spec fn place_of(site: PlacedCall) -> CycleCandidate {
    CycleCandidate { file: site.file, range: site.call.range }
}

// ---------------------------------------------------------------------------------------------
// The walk
// ---------------------------------------------------------------------------------------------

/// How far a walk is with a function.
#[derive(Clone, Copy, Debug, PartialEq, Eq, Structural)]
pub enum VisitState {
    Visiting,
    Done,
}

/// What a walk looks for.
#[derive(Clone, Copy, Debug, PartialEq, Eq, Structural)]
pub enum Analysis {
    Unsupported,
    Cycles,
}

/// What a walk has seen.
pub struct Walk {
    pub states: Map<Definition, VisitState>,
    pub unsupported: Seq<Unsupported>,
    pub cycles: Seq<CycleCandidate>,
}

/// Enters a function that was not entered before, goes through its calls in order, and leaves it.
/// The walk goes at most `depth` calls deep.
pub open spec fn visit(
    graph: Graph,
    analysis: Analysis,
    depth: nat,
    definition: Definition,
    walk: Walk,
) -> Walk
    decreases depth, 0int, 0int,
{
    if walk.states.contains_key(definition) || depth == 0 {
        walk
    } else {
        let entered = Walk {
            states: walk.states.insert(definition, VisitState::Visiting),
            ..walk
        };
        let left = visit_calls(
            graph,
            analysis,
            (depth - 1) as nat,
            graph.calls_of(definition),
            entered,
        );
        Walk { states: left.states.insert(definition, VisitState::Done), ..left }
    }
}

/// Goes through calls in order.
pub open spec fn visit_calls(
    graph: Graph,
    analysis: Analysis,
    depth: nat,
    sites: Seq<PlacedCall>,
    walk: Walk,
) -> Walk
    decreases depth, 3int, sites.len(),
{
    if sites.len() == 0 {
        walk
    } else {
        visit_call(
            graph,
            analysis,
            depth,
            sites.last(),
            visit_calls(graph, analysis, depth, sites.drop_last(), walk),
        )
    }
}

/// Notes a call and follows it.
pub open spec fn visit_call(
    graph: Graph,
    analysis: Analysis,
    depth: nat,
    site: PlacedCall,
    walk: Walk,
) -> Walk
    decreases depth, 2int, 0int,
{
    follow(graph, analysis, depth, site, graph.next(site), noted(graph, analysis, site, walk))
}

/// Notes a call that is not supported.
pub open spec fn noted(graph: Graph, analysis: Analysis, site: PlacedCall, walk: Walk) -> Walk {
    match (analysis, candidate_of(graph, site)) {
        (Analysis::Unsupported, Some(candidate)) => Walk {
            unsupported: walk.unsupported.push(candidate),
            ..walk
        },
        _ => walk,
    }
}

/// Follows a call to functions in order: one that the walk is still in closes a cycle, and one that
/// it has not entered is visited.
pub open spec fn follow(
    graph: Graph,
    analysis: Analysis,
    depth: nat,
    site: PlacedCall,
    targets: Seq<Definition>,
    walk: Walk,
) -> Walk
    decreases depth, 1int, targets.len(),
{
    if targets.len() == 0 {
        walk
    } else {
        let before = follow(graph, analysis, depth, site, targets.drop_last(), walk);
        let target = targets.last();
        if !before.states.contains_key(target) {
            visit(graph, analysis, depth, target, before)
        } else if before.states[target] == VisitState::Visiting && analysis == Analysis::Cycles
            && !before.cycles.contains(place_of(site)) {
            Walk { cycles: before.cycles.push(place_of(site)), ..before }
        } else {
            before
        }
    }
}

/// Visits functions in order.
pub open spec fn visit_all(
    graph: Graph,
    analysis: Analysis,
    depth: nat,
    roots: Seq<Definition>,
    walk: Walk,
) -> Walk
    decreases roots.len(),
{
    if roots.len() == 0 {
        walk
    } else {
        visit(
            graph,
            analysis,
            depth,
            roots.last(),
            visit_all(graph, analysis, depth, roots.drop_last(), walk),
        )
    }
}

/// Nothing seen yet.
pub open spec fn fresh() -> Walk {
    Walk { states: Map::empty(), unsupported: Seq::empty(), cycles: Seq::empty() }
}

// ---------------------------------------------------------------------------------------------
// Roots and problems
// ---------------------------------------------------------------------------------------------

/// Resolver roots: all of them, and those that are searched for unsupported calls.
pub struct Roots {
    pub all: Seq<Definition>,
    pub open: Seq<Definition>,
}

/// Adds roots, each function once; one that a directive suppresses is not searched.
pub open spec fn with_roots(found: Roots, roots: Seq<ResolverRootFact>) -> Roots
    decreases roots.len(),
{
    if roots.len() == 0 {
        found
    } else {
        let before = with_roots(found, roots.drop_last());
        let root = roots.last();
        if before.all.contains(root.definition) {
            before
        } else {
            Roots {
                all: before.all.push(root.definition),
                open: if root.unsupported_function_suppression is None {
                    before.open.push(root.definition)
                } else {
                    before.open
                },
            }
        }
    }
}

/// The roots of several files, in order.
pub open spec fn roots_of(files: Seq<FileView>) -> Roots
    decreases files.len(),
{
    if files.len() == 0 {
        Roots { all: Seq::empty(), open: Seq::empty() }
    } else {
        let before = roots_of(files.drop_last());
        match files.last().facts {
            Some(facts) => with_roots(before, facts.roots),
            None => before,
        }
    }
}

/// The problems of several files, in order.
pub open spec fn problems_of(files: Seq<FileView>) -> Seq<ProjectSuppressionProblem>
    decreases files.len(),
{
    if files.len() == 0 {
        Seq::empty()
    } else {
        let before = problems_of(files.drop_last());
        let file = files.last().file;
        match files.last().facts {
            Some(facts) => before + Seq::new(
                facts.problems.len(),
                |i: int|
                    ProjectSuppressionProblem {
                        file,
                        range: facts.problems[i].range,
                        kind: facts.problems[i].kind,
                    },
            ),
            None => before,
        }
    }
}

/// The unsupported calls that close no cycle, in order.
pub open spec fn outside_cycles(found: Seq<Unsupported>, cycles: Seq<CycleCandidate>) -> Seq<
    Unsupported,
>
    decreases found.len(),
{
    if found.len() == 0 {
        Seq::empty()
    } else {
        let before = outside_cycles(found.drop_last(), cycles);
        let place = CycleCandidate { file: found.last().file, range: found.last().range };
        if cycles.contains(place) {
            before
        } else {
            before.push(found.last())
        }
    }
}

/// The unsupported calls that the open roots of sorted files reach.
pub open spec fn reached_unsupported(db: Db, files: Seq<FileView>) -> Seq<Unsupported> {
    visit_all(
        graph_of(db, files),
        Analysis::Unsupported,
        db.definitions@.len(),
        roots_of(files).open,
        fresh(),
    ).unsupported
}

/// The calls that close cycles on the ways from all roots of sorted files.
pub open spec fn reached_cycles(db: Db, files: Seq<FileView>) -> Seq<CycleCandidate> {
    visit_all(
        graph_of(db, files),
        Analysis::Cycles,
        db.definitions@.len(),
        roots_of(files).all,
        fresh(),
    ).cycles
}

/// The unsupported calls of a file, in order.
pub open spec fn unsupported_in(found: Seq<UnsupportedCallCandidate>, file: File) -> Seq<
    UnsupportedCallCandidate,
>
    decreases found.len(),
{
    if found.len() == 0 {
        Seq::empty()
    } else {
        let before = unsupported_in(found.drop_last(), file);
        if found.last().file == file {
            before.push(found.last())
        } else {
            before
        }
    }
}

/// The cycles of a file, in order.
pub open spec fn cycles_in(found: Seq<CycleCandidate>, file: File) -> Seq<CycleCandidate>
    decreases found.len(),
{
    if found.len() == 0 {
        Seq::empty()
    } else {
        let before = cycles_in(found.drop_last(), file);
        if found.last().file == file {
            before.push(found.last())
        } else {
            before
        }
    }
}

/// The problems of a file, in order.
pub open spec fn problems_in(found: Seq<ProjectSuppressionProblem>, file: File) -> Seq<
    ProjectSuppressionProblem,
>
    decreases found.len(),
{
    if found.len() == 0 {
        Seq::empty()
    } else {
        let before = problems_in(found.drop_last(), file);
        if found.last().file == file {
            before.push(found.last())
        } else {
            before
        }
    }
}

impl ProjectCandidates {
    /// The unsupported calls of a file.
    pub fn unsupported_for_file(&self, file: File) -> (found: Vec<&UnsupportedCallCandidate>)
        ensures
            found@.len() == unsupported_in(self.unsupported@, file).len(),
            forall|i: int|
                0 <= i < found@.len() ==> *(#[trigger] found@[i]) == unsupported_in(
                    self.unsupported@,
                    file,
                )[i],
    {
        let ghost all = self.unsupported@;
        let mut found: Vec<&UnsupportedCallCandidate> = Vec::new();
        let mut i: usize = 0;
        while i < self.unsupported.len()
            invariant
                i <= self.unsupported@.len(),
                all == self.unsupported@,
                found@.len() == unsupported_in(all.take(i as int), file).len(),
                forall|k: int|
                    0 <= k < found@.len() ==> *(#[trigger] found@[k]) == unsupported_in(
                        all.take(i as int),
                        file,
                    )[k],
            decreases self.unsupported@.len() - i,
        {
            assert(all.take(i as int + 1).drop_last() =~= all.take(i as int));
            if self.unsupported[i].file == file {
                found.push(&self.unsupported[i]);
            }
            i += 1;
        }
        assert(all.take(all.len() as int) =~= all);
        found
    }

    /// The cycles of a file.
    pub fn cycles_for_file(&self, file: File) -> (found: Vec<CycleCandidate>)
        ensures
            found@ == cycles_in(self.cycles@, file),
    {
        let ghost all = self.cycles@;
        let mut found: Vec<CycleCandidate> = Vec::new();
        let mut i: usize = 0;
        while i < self.cycles.len()
            invariant
                i <= self.cycles@.len(),
                all == self.cycles@,
                found@ == cycles_in(all.take(i as int), file),
            decreases self.cycles@.len() - i,
        {
            assert(all.take(i as int + 1).drop_last() =~= all.take(i as int));
            if self.cycles[i].file == file {
                found.push(self.cycles[i]);
            }
            i += 1;
        }
        assert(all.take(all.len() as int) =~= all);
        found
    }

    /// The problems of a file.
    pub fn suppression_problems_for_file(&self, file: File) -> (found: Vec<
        ProjectSuppressionProblem,
    >)
        ensures
            found@ == problems_in(self.suppression_problems@, file),
    {
        let ghost all = self.suppression_problems@;
        let mut found: Vec<ProjectSuppressionProblem> = Vec::new();
        let mut i: usize = 0;
        while i < self.suppression_problems.len()
            invariant
                i <= self.suppression_problems@.len(),
                all == self.suppression_problems@,
                found@ == problems_in(all.take(i as int), file),
            decreases self.suppression_problems@.len() - i,
        {
            assert(all.take(i as int + 1).drop_last() =~= all.take(i as int));
            if self.suppression_problems[i].file == file {
                found.push(self.suppression_problems[i]);
            }
            i += 1;
        }
        assert(all.take(all.len() as int) =~= all);
        found
    }

    /// Whether this is what there is to report of a project.
    pub open spec fn of(self, db: Db, files: Seq<ProjectFile>) -> bool {
        let sorted = sorted_files(db, files);
        let cycles = reached_cycles(db, sorted);
        &&& candidate_views(self.unsupported@) == sorted_unsupported(
            db,
            outside_cycles(reached_unsupported(db, sorted), cycles),
        )
        &&& self.cycles@ == sorted_cycles(db, cycles)
        &&& self.suppression_problems@ == sorted_problems(db, problems_of(sorted))
    }
}

// ---------------------------------------------------------------------------------------------
// What is known
// ---------------------------------------------------------------------------------------------

/// Whether the files of a project speak of what is known.
pub open spec fn files_known(db: Db, files: Seq<ProjectFile>) -> bool {
    forall|i: int|
        0 <= i < files.len() ==> db.has_file((#[trigger] files[i]).file) && (files[i].facts matches
            Some(facts) ==> facts::facts_known(db, facts))
}

// ---------------------------------------------------------------------------------------------
// Sorting by place
// ---------------------------------------------------------------------------------------------

/// Something with the path and the range of its place.
struct Located<'a, T> {
    path: &'a String,
    range: TextRange,
    item: T,
}

impl<'a, T> Ordered for Located<'a, T> {
    type Key = Place;

    closed spec fn key(&self) -> Place {
        Place { path: self.path@, start: self.range.start, end: self.range.end }
    }

    closed spec fn key_before(a: Place, b: Place) -> bool {
        place_before(a, b)
    }

    proof fn key_irreflexive(a: Place) {
        text::lemma_text_before_irreflexive(a.path);
    }

    proof fn key_transitive(a: Place, b: Place, c: Place) {
        if text::text_before(a.path, b.path) && text::text_before(b.path, c.path) {
            text::lemma_text_before_transitive(a.path, b.path, c.path);
        }
    }

    proof fn key_total(a: Place, b: Place) {
        text::lemma_text_before_total(a.path, b.path);
    }
}

impl<'a, T> Keyed for Located<'a, T> {
    fn relate(&self, other: &Self) -> (relation: Relation) {
        proof {
            text::lemma_text_before_total(self.path@, other.path@);
        }
        match text::order_text(self.path.as_str(), other.path.as_str()) {
            Relation::Less => Relation::Less,
            Relation::Greater => Relation::Greater,
            Relation::Equal => {
                if self.range.start < other.range.start {
                    Relation::Less
                } else if self.range.start > other.range.start {
                    Relation::Greater
                } else if self.range.end < other.range.end {
                    Relation::Less
                } else if self.range.end > other.range.end {
                    Relation::Greater
                } else {
                    Relation::Equal
                }
            },
        }
    }
}

/// Takes the items out.
fn unlocated<'a, T>(located: Vec<Located<'a, T>>) -> (items: Vec<T>)
    ensures
        items@ == Seq::new(located@.len(), |i: int| located@[i].item),
{
    let ghost all = located@;
    let mut rest = located;
    let mut reversed: Vec<T> = Vec::new();
    while rest.len() > 0
        invariant
            rest@.len() + reversed@.len() == all.len(),
            rest@ =~= all.take(rest@.len() as int),
            forall|i: int|
                0 <= i < reversed@.len() ==> #[trigger] reversed@[i] == all[all.len() - 1 - i].item,
        decreases rest@.len(),
    {
        if let Some(last) = rest.pop() {
            reversed.push(last.item);
        }
    }
    let mut items: Vec<T> = Vec::new();
    while reversed.len() > 0
        invariant
            items@.len() + reversed@.len() == all.len(),
            forall|i: int|
                0 <= i < reversed@.len() ==> #[trigger] reversed@[i] == all[all.len() - 1 - i].item,
            forall|i: int| 0 <= i < items@.len() ==> #[trigger] items@[i] == all[i].item,
        decreases reversed@.len(),
    {
        if let Some(item) = reversed.pop() {
            items.push(item);
        }
    }
    assert(items@ =~= Seq::new(all.len(), |i: int| all[i].item));
    items
}

spec fn as_placed<'a, T>() -> spec_fn(Located<'a, T>) -> Placed<T> {
    |located: Located<'a, T>|
        Placed { path: located.path@, range: located.range, item: located.item }
}

spec fn as_placed_call<'a>() -> spec_fn(Located<'a, UnsupportedCallCandidate>) -> Placed<
    Unsupported,
> {
    |located: Located<'a, UnsupportedCallCandidate>|
        Placed { path: located.path@, range: located.range, item: located.item@ }
}

/// Sorts cycles by place.
fn sort_cycles(db: &Db, cycles: &Vec<CycleCandidate>) -> (sorted: Vec<CycleCandidate>)
    requires
        forall|i: int| 0 <= i < cycles@.len() ==> db.has_file((#[trigger] cycles@[i]).file),
    ensures
        sorted@ == sorted_cycles(*db, cycles@),
{
    let mut located: Vec<Located<'_, CycleCandidate>> = Vec::new();
    let mut i: usize = 0;
    while i < cycles.len()
        invariant
            i <= cycles@.len(),
            forall|k: int| 0 <= k < cycles@.len() ==> db.has_file((#[trigger] cycles@[k]).file),
            located@.len() == i,
            forall|k: int|
                0 <= k < i ==> as_placed()(#[trigger] located@[k]) == placed_at(
                    *db,
                    cycles@[k].file,
                    cycles@[k].range,
                    cycles@[k],
                ),
        decreases cycles@.len() - i,
    {
        let item = cycles[i];
        located.push(Located { path: &db.files[item.file.id].path, range: item.range, item });
        i += 1;
    }
    let ghost map = as_placed::<CycleCandidate>();
    proof {
        order::lemma_stable_sort_map(located@, map);
        assert(located@.map_values(map) =~= Seq::new(
            cycles@.len(),
            |k: int| placed_at(*db, cycles@[k].file, cycles@[k].range, cycles@[k]),
        ));
    }
    let ghost all = order::stable_sort(located@);
    let sorted = unlocated(order::sort_stable(located));
    assert(sorted@ =~= items_of(all.map_values(map)));
    sorted
}

/// Sorts problems by place.
fn sort_problems(db: &Db, problems: &Vec<ProjectSuppressionProblem>) -> (sorted: Vec<
    ProjectSuppressionProblem,
>)
    requires
        forall|i: int| 0 <= i < problems@.len() ==> db.has_file((#[trigger] problems@[i]).file),
    ensures
        sorted@ == sorted_problems(*db, problems@),
{
    let mut located: Vec<Located<'_, ProjectSuppressionProblem>> = Vec::new();
    let mut i: usize = 0;
    while i < problems.len()
        invariant
            i <= problems@.len(),
            forall|k: int| 0 <= k < problems@.len() ==> db.has_file((#[trigger] problems@[k]).file),
            located@.len() == i,
            forall|k: int|
                0 <= k < i ==> as_placed()(#[trigger] located@[k]) == placed_at(
                    *db,
                    problems@[k].file,
                    problems@[k].range,
                    problems@[k],
                ),
        decreases problems@.len() - i,
    {
        let item = problems[i];
        located.push(Located { path: &db.files[item.file.id].path, range: item.range, item });
        i += 1;
    }
    let ghost map = as_placed::<ProjectSuppressionProblem>();
    proof {
        order::lemma_stable_sort_map(located@, map);
        assert(located@.map_values(map) =~= Seq::new(
            problems@.len(),
            |k: int| placed_at(*db, problems@[k].file, problems@[k].range, problems@[k]),
        ));
    }
    let ghost all = order::stable_sort(located@);
    let sorted = unlocated(order::sort_stable(located));
    assert(sorted@ =~= items_of(all.map_values(map)));
    sorted
}

/// The unsupported calls that close no cycle, sorted by place.
fn sort_unsupported(
    db: &Db,
    found: Vec<UnsupportedCallCandidate>,
    cycles: &Vec<CycleCandidate>,
) -> (sorted: Vec<UnsupportedCallCandidate>)
    requires
        forall|i: int| 0 <= i < found@.len() ==> db.has_file((#[trigger] found@[i]).file),
    ensures
        candidate_views(sorted@) == sorted_unsupported(
            *db,
            outside_cycles(candidate_views(found@), cycles@),
        ),
{
    let ghost all = candidate_views(found@);
    let ghost files = found@;
    let mut rest = found;
    let mut reversed: Vec<UnsupportedCallCandidate> = Vec::new();
    while rest.len() > 0
        invariant
            rest@.len() + reversed@.len() == files.len(),
            rest@ =~= files.take(rest@.len() as int),
            forall|i: int|
                0 <= i < reversed@.len() ==> #[trigger] reversed@[i] == files[files.len() - 1 - i],
        decreases rest@.len(),
    {
        if let Some(last) = rest.pop() {
            reversed.push(last);
        }
    }
    let mut located: Vec<Located<'_, UnsupportedCallCandidate>> = Vec::new();
    let ghost map = as_placed_call();
    let ghost mut kept: Seq<Unsupported> = Seq::empty();
    let ghost mut done: int = 0;
    while reversed.len() > 0
        invariant
            0 <= done <= files.len(),
            done + reversed@.len() == files.len(),
            all == candidate_views(files),
            map == as_placed_call(),
            forall|i: int| 0 <= i < files.len() ==> db.has_file((#[trigger] files[i]).file),
            forall|i: int|
                0 <= i < reversed@.len() ==> #[trigger] reversed@[i] == files[files.len() - 1 - i],
            kept == outside_cycles(all.take(done), cycles@),
            located@.len() == kept.len(),
            forall|k: int|
                0 <= k < kept.len() ==> map(#[trigger] located@[k]) == placed_at(
                    *db,
                    kept[k].file,
                    kept[k].range,
                    kept[k],
                ),
        decreases reversed@.len(),
    {
        if let Some(item) = reversed.pop() {
            assert(item == files[done]);
            assert(all.take(done + 1).drop_last() =~= all.take(done));
            assert(all.take(done + 1).last() == item@);
            let place = CycleCandidate { file: item.file, range: item.range };
            if !has_cycle(cycles, place) {
                proof {
                    kept = kept.push(item@);
                }
                located.push(
                    Located { path: &db.files[item.file.id].path, range: item.range, item },
                );
            }
            proof {
                done = done + 1;
            }
        }
    }
    assert(all.take(all.len() as int) =~= all);
    proof {
        order::lemma_stable_sort_map(located@, map);
        assert(located@.map_values(map) =~= Seq::new(
            kept.len(),
            |k: int| placed_at(*db, kept[k].file, kept[k].range, kept[k]),
        ));
    }
    let ghost entries = order::stable_sort(located@);
    let sorted = unlocated(order::sort_stable(located));
    assert(candidate_views(sorted@) =~= items_of(entries.map_values(map)));
    sorted
}

/// Whether a place is among those that close cycles.
fn has_cycle(cycles: &Vec<CycleCandidate>, place: CycleCandidate) -> (found: bool)
    ensures
        found == cycles@.contains(place),
{
    let mut i: usize = 0;
    while i < cycles.len()
        invariant
            i <= cycles@.len(),
            forall|k: int| 0 <= k < i ==> #[trigger] cycles@[k] != place,
        decreases cycles@.len() - i,
    {
        if cycles[i] == place {
            assert(cycles@[i as int] == place);
            return true;
        }
        i += 1;
    }
    false
}

// ---------------------------------------------------------------------------------------------
// Walking
// ---------------------------------------------------------------------------------------------

#[derive(Clone, Copy)]
struct CallSite<'a> {
    file: File,
    call: &'a CallFact,
}

impl<'a> View for CallSite<'a> {
    type V = PlacedCall;

    closed spec fn view(&self) -> PlacedCall {
        PlacedCall { file: self.file, call: self.call@ }
    }
}

spec fn site_views(sites: Seq<CallSite<'_>>) -> Seq<PlacedCall> {
    Seq::new(sites.len(), |i: int| sites[i]@)
}

/// The states of functions, by their numbers.
spec fn state_map(states: Seq<Option<VisitState>>) -> Map<Definition, VisitState> {
    Map::new(
        |d: Definition| 0 <= d.id < states.len() && states[d.id as int] is Some,
        |d: Definition| states[d.id as int]->0,
    )
}

/// How many functions were not entered.
spec fn unentered(states: Seq<Option<VisitState>>) -> nat
    decreases states.len(),
{
    if states.len() == 0 {
        0
    } else {
        unentered(states.drop_last()) + if states.last() is None {
            1nat
        } else {
            0
        }
    }
}

proof fn lemma_unentered_update(states: Seq<Option<VisitState>>, at: int, state: VisitState)
    requires
        0 <= at < states.len(),
    ensures
        unentered(states) == unentered(states.update(at, Some(state))) + if states[at] is None {
            1nat
        } else {
            0
        },
    decreases states.len(),
{
    let updated = states.update(at, Some(state));
    if at == states.len() - 1 {
        assert(updated.drop_last() =~= states.drop_last());
    } else {
        assert(updated.drop_last() =~= states.drop_last().update(at, Some(state)));
        lemma_unentered_update(states.drop_last(), at, state);
    }
}

proof fn lemma_unentered_bound(states: Seq<Option<VisitState>>)
    ensures
        unentered(states) <= states.len(),
    decreases states.len(),
{
    if states.len() > 0 {
        lemma_unentered_bound(states.drop_last());
    }
}

struct ReachabilityAnalyzer<'a> {
    db: &'a Db,
    /// Which files belong to the project, by their numbers.
    first_party: Vec<bool>,
    /// The calls of functions, by the functions' numbers.
    calls: Vec<Vec<CallSite<'a>>>,
    states: Vec<Option<VisitState>>,
    unsupported: Vec<UnsupportedCallCandidate>,
    cycles: Vec<CycleCandidate>,
}

impl<'a> ReachabilityAnalyzer<'a> {
    spec fn site_known(self, site: CallSite<'_>) -> bool {
        &&& self.db.has_file(site.file)
        &&& provenance::targets_known(*self.db, site.call.targets@)
    }

    /// Whether the tables are those of a graph.
    spec fn of(self, graph: Graph) -> bool {
        &&& self.db.wf()
        &&& *self.db == graph.db
        &&& self.first_party@.len() == self.db.files@.len()
        &&& forall|file: File|
            self.db.has_file(file) ==> #[trigger] self.first_party@[file.id as int]
                == graph.files.contains(file)
        &&& self.calls@.len() == self.db.definitions@.len()
        &&& forall|d: Definition|
            self.db.has_definition(d) ==> site_views((#[trigger] self.calls@[d.id as int])@)
                == graph.calls_of(d)
        &&& forall|i: int, j: int|
            0 <= i < self.calls@.len() && 0 <= j < self.calls@[i]@.len() ==> self.site_known(
                #[trigger] self.calls@[i]@[j],
            )
        &&& self.states@.len() == self.db.definitions@.len()
        &&& forall|i: int|
            0 <= i < self.cycles@.len() ==> self.db.has_file((#[trigger] self.cycles@[i]).file)
        &&& forall|i: int|
            0 <= i < self.unsupported@.len() ==> self.db.has_file(
                (#[trigger] self.unsupported@[i]).file,
            )
    }

    spec fn same_tables(self, other: Self) -> bool {
        &&& self.db == other.db
        &&& self.first_party == other.first_party
        &&& self.calls == other.calls
    }

    spec fn walk(self) -> Walk {
        Walk {
            states: state_map(self.states@),
            unsupported: candidate_views(self.unsupported@),
            cycles: self.cycles@,
        }
    }

    fn visit(
        &mut self,
        definition: Definition,
        analysis: Analysis,
        Ghost(graph): Ghost<Graph>,
        Ghost(depth): Ghost<nat>,
    )
        requires
            old(self).of(graph),
            old(self).db.has_definition(definition),
            unentered(old(self).states@) <= depth,
        ensures
            final(self).of(graph),
            final(self).same_tables(*old(self)),
            final(self).walk() == visit(graph, analysis, depth, definition, old(self).walk()),
            unentered(final(self).states@) <= unentered(old(self).states@),
        decreases depth, 0int, 0int,
    {
        if self.states[definition.id].is_some() {
            assert(self.walk().states.contains_key(definition));
            return ;
        }
        let ghost start = self.walk();
        proof {
            assert(!start.states.contains_key(definition));
            lemma_unentered_update(self.states@, definition.id as int, VisitState::Visiting);
        }
        self.states.set(definition.id, Some(VisitState::Visiting));
        let ghost entered = self.walk();
        assert(entered.states =~= start.states.insert(definition, VisitState::Visiting));
        let ghost inner = (depth - 1) as nat;
        let ghost sites = graph.calls_of(definition);
        let ghost before = self.states@;
        assert(site_views(self.calls@[definition.id as int]@) == sites);
        let mut i: usize = 0;
        while i < self.calls[definition.id].len()
            invariant
                self.of(graph),
                self.same_tables(*old(self)),
                self.db.has_definition(definition),
                sites == graph.calls_of(definition),
                i <= sites.len(),
                site_views(self.calls@[definition.id as int]@) == sites,
                unentered(self.states@) <= unentered(before),
                unentered(before) <= inner,
                inner < depth,
                self.walk() == visit_calls(
                    graph,
                    analysis,
                    inner,
                    sites.take(i as int),
                    entered,
                ),
            decreases sites.len() - i,
        {
            let site = self.calls[definition.id][i];
            proof {
                assert(sites.take(i as int + 1).drop_last() =~= sites.take(i as int));
                assert(self.site_known(self.calls@[definition.id as int]@[i as int]));
                assert(sites[i as int] == site@);
            }
            self.visit_call(site, analysis, Ghost(graph), Ghost(inner));
            i += 1;
        }
        assert(sites.take(sites.len() as int) =~= sites);
        let ghost left = self.walk();
        proof {
            lemma_unentered_update(self.states@, definition.id as int, VisitState::Done);
        }
        self.states.set(definition.id, Some(VisitState::Done));
        assert(self.walk().states =~= left.states.insert(definition, VisitState::Done));
    }

    fn first_party_targets(&self, targets: &Vec<CallTarget>, Ghost(graph): Ghost<Graph>) -> (found:
        Vec<Definition>)
        requires
            self.of(graph),
            provenance::targets_known(*self.db, targets@),
        ensures
            found@ == functions_among(*self.db, graph.files, targets@),
            forall|i: int| 0 <= i < found@.len() ==> self.db.has_definition(#[trigger] found@[i]),
    {
        let mut found: Vec<Definition> = Vec::new();
        let mut i: usize = 0;
        while i < targets.len()
            invariant
                self.of(graph),
                i <= targets@.len(),
                provenance::targets_known(*self.db, targets@),
                found@ == functions_among(*self.db, graph.files, targets@.take(i as int)),
                forall|k: int|
                    0 <= k < found@.len() ==> self.db.has_definition(#[trigger] found@[k]),
            decreases targets@.len() - i,
        {
            let target = targets[i];
            proof {
                assert(targets@.take(i as int + 1).drop_last() =~= targets@.take(i as int));
                assert(self.db.has_definition(targets@[i as int].definition));
                assert(self.db.definition_wf(
                    self.db.definitions@[target.definition.id as int],
                ));
            }
            if target.kind == CallTargetKind::Function {
                let file = self.db.definitions[target.definition.id].file;
                if self.first_party[file.id] && !has_definition(&found, target.definition) {
                    found.push(target.definition);
                }
            }
            i += 1;
        }
        assert(targets@.take(targets@.len() as int) =~= targets@);
        found
    }

    /// Notes a call that is not supported.
    fn note(&mut self, site: CallSite<'a>, followed: &Vec<Definition>, Ghost(graph): Ghost<Graph>)
        requires
            old(self).of(graph),
            old(self).site_known(site),
            followed@ == graph.next(site@),
        ensures
            final(self).of(graph),
            final(self).same_tables(*old(self)),
            final(self).states@ == old(self).states@,
            final(self).walk() == noted(
                graph,
                Analysis::Unsupported,
                site@,
                old(self).walk(),
            ),
    {
        let targets = collect_unsupported(&site.call.no_matches, followed);
        if targets.len() > 0 && site.call.unsupported_function_statement_suppression.is_none()
            && site.call.unsupported_function_caller_suppression.is_none() {
            let ghost before = self.unsupported@;
            let candidate = UnsupportedCallCandidate {
                file: site.file,
                range: site.call.range,
                targets,
            };
            self.unsupported.push(candidate);
            assert(candidate_views(self.unsupported@) =~= candidate_views(before).push(candidate@));
        }
    }

    fn visit_call(
        &mut self,
        site: CallSite<'a>,
        analysis: Analysis,
        Ghost(graph): Ghost<Graph>,
        Ghost(depth): Ghost<nat>,
    )
        requires
            old(self).of(graph),
            old(self).site_known(site),
            unentered(old(self).states@) <= depth,
        ensures
            final(self).of(graph),
            final(self).same_tables(*old(self)),
            final(self).walk() == visit_call(graph, analysis, depth, site@, old(self).walk()),
            unentered(final(self).states@) <= unentered(old(self).states@),
        decreases depth, 2int, 0int,
    {
        let targets = self.first_party_targets(&site.call.targets, Ghost(graph));
        assert(targets@ == graph.next(site@));
        if analysis == Analysis::Unsupported {
            self.note(site, &targets, Ghost(graph));
        }
        let ghost start = self.walk();
        let ghost before = self.states@;
        assert(start == noted(graph, analysis, site@, old(self).walk()));
        let mut i: usize = 0;
        while i < targets.len()
            invariant
                self.of(graph),
                self.same_tables(*old(self)),
                self.site_known(site),
                i <= targets@.len(),
                forall|k: int|
                    0 <= k < targets@.len() ==> self.db.has_definition(#[trigger] targets@[k]),
                unentered(self.states@) <= unentered(before),
                unentered(before) <= depth,
                self.walk() == follow(
                    graph,
                    analysis,
                    depth,
                    site@,
                    targets@.take(i as int),
                    start,
                ),
            decreases targets@.len() - i,
        {
            let target = targets[i];
            let ghost now = self.walk();
            proof {
                assert(targets@.take(i as int + 1).drop_last() =~= targets@.take(i as int));
                assert(self.db.has_definition(targets@[i as int]));
            }
            match self.states[target.id] {
                Some(VisitState::Visiting) => {
                    assert(now.states.contains_key(target) && now.states[target]
                        == VisitState::Visiting);
                    let place = CycleCandidate { file: site.file, range: site.call.range };
                    if analysis == Analysis::Cycles && !has_cycle(&self.cycles, place) {
                        self.cycles.push(place);
                    }
                },
                Some(VisitState::Done) => {
                    assert(now.states.contains_key(target) && now.states[target]
                        == VisitState::Done);
                },
                None => {
                    assert(!now.states.contains_key(target));
                    self.visit(target, analysis, Ghost(graph), Ghost(depth));
                },
            }
            i += 1;
        }
        assert(targets@.take(targets@.len() as int) =~= targets@);
    }

    fn visit_roots(
        &mut self,
        roots: &Vec<Definition>,
        analysis: Analysis,
        Ghost(graph): Ghost<Graph>,
        Ghost(depth): Ghost<nat>,
    )
        requires
            old(self).of(graph),
            forall|i: int|
                0 <= i < roots@.len() ==> old(self).db.has_definition(#[trigger] roots@[i]),
            unentered(old(self).states@) <= depth,
        ensures
            final(self).of(graph),
            final(self).same_tables(*old(self)),
            final(self).walk() == visit_all(graph, analysis, depth, roots@, old(self).walk()),
    {
        let ghost start = self.walk();
        let mut i: usize = 0;
        while i < roots.len()
            invariant
                self.of(graph),
                self.same_tables(*old(self)),
                i <= roots@.len(),
                forall|k: int|
                    0 <= k < roots@.len() ==> self.db.has_definition(#[trigger] roots@[k]),
                unentered(self.states@) <= depth,
                self.walk() == visit_all(graph, analysis, depth, roots@.take(i as int), start),
            decreases roots@.len() - i,
        {
            assert(roots@.take(i as int + 1).drop_last() =~= roots@.take(i as int));
            self.visit(roots[i], analysis, Ghost(graph), Ghost(depth));
            i += 1;
        }
        assert(roots@.take(roots@.len() as int) =~= roots@);
    }
}

/// Whether a definition is in a list.
fn has_definition(list: &Vec<Definition>, definition: Definition) -> (found: bool)
    ensures
        found == list@.contains(definition),
{
    let mut i: usize = 0;
    while i < list.len()
        invariant
            i <= list@.len(),
            forall|k: int| 0 <= k < i ==> #[trigger] list@[k] != definition,
        decreases list@.len() - i,
    {
        if list[i] == definition {
            assert(list@[i as int] == definition);
            return true;
        }
        i += 1;
    }
    false
}

/// Whether a target is in a list with a reason.
fn has_target(list: &Vec<UnsupportedTarget>, target: &CallMatchTarget, reason: CallNoMatchReason) -> (
found: bool)
    ensures
        found == target_views(list@).contains((target@, reason)),
{
    let ghost views = target_views(list@);
    let mut i: usize = 0;
    while i < list.len()
        invariant
            i <= list@.len(),
            views == target_views(list@),
            forall|k: int| 0 <= k < i ==> #[trigger] views[k] != (target@, reason),
        decreases list@.len() - i,
    {
        if list[i].reason == reason && facts::same_target(&list[i].target, target) {
            assert(views[i as int] == (target@, reason));
            return true;
        }
        i += 1;
    }
    false
}

/// The targets that are not supported and not followed, each once.
fn collect_unsupported(
    no_matches: &Vec<(CallMatchTarget, CallNoMatchReason)>,
    followed: &Vec<Definition>,
) -> (found: Vec<UnsupportedTarget>)
    ensures
        target_views(found@) == unsupported_targets(facts::no_match_views(no_matches@), followed@),
{
    let ghost views = facts::no_match_views(no_matches@);
    let mut found: Vec<UnsupportedTarget> = Vec::new();
    assert(target_views(found@) =~= Seq::empty());
    let mut i: usize = 0;
    while i < no_matches.len()
        invariant
            i <= no_matches@.len(),
            views == facts::no_match_views(no_matches@),
            target_views(found@) == unsupported_targets(views.take(i as int), followed@),
        decreases no_matches@.len() - i,
    {
        let target = &no_matches[i].0;
        let reason = no_matches[i].1;
        let ghost before = found@;
        proof {
            assert(views.take(i as int + 1).drop_last() =~= views.take(i as int));
            assert(views[i as int] == (target@, reason));
        }
        let is_followed = match &target.identity {
            CallMatchIdentity::Definition(definition) => has_definition(followed, *definition),
            _ => false,
        };
        if !is_followed && !has_target(&found, target, reason) {
            found.push(UnsupportedTarget { target: target.copied(), reason });
            assert(target_views(found@) =~= target_views(before).push((target@, reason)));
        }
        i += 1;
    }
    assert(views.take(views.len() as int) =~= views);
    found
}

// ---------------------------------------------------------------------------------------------
// Projects
// ---------------------------------------------------------------------------------------------

/// A file's path and its number in a list.
struct Named<'a> {
    path: &'a String,
    position: usize,
}

impl<'a> Ordered for Named<'a> {
    type Key = Seq<char>;

    closed spec fn key(&self) -> Seq<char> {
        self.path@
    }

    closed spec fn key_before(a: Seq<char>, b: Seq<char>) -> bool {
        text::text_before(a, b)
    }

    proof fn key_irreflexive(a: Seq<char>) {
        text::lemma_text_before_irreflexive(a);
    }

    proof fn key_transitive(a: Seq<char>, b: Seq<char>, c: Seq<char>) {
        text::lemma_text_before_transitive(a, b, c);
    }

    proof fn key_total(a: Seq<char>, b: Seq<char>) {
        text::lemma_text_before_total(a, b);
    }
}

impl<'a> Keyed for Named<'a> {
    fn relate(&self, other: &Self) -> (relation: Relation) {
        proof {
            text::lemma_text_before_total(self.path@, other.path@);
        }
        text::order_text(self.path.as_str(), other.path.as_str())
    }
}

spec fn as_file<'a>(files: Seq<ProjectFile>) -> spec_fn(Named<'a>) -> FileView {
    |named: Named<'a>|
        FileView {
            path: named.path@,
            file: files[named.position as int].file,
            facts: facts_view(files[named.position as int].facts),
        }
}

/// The files of a project, sorted by path.
fn sort_files<'a>(db: &Db, files: &'a Vec<ProjectFile>) -> (sorted: Vec<&'a ProjectFile>)
    requires
        files_known(*db, files@),
    ensures
        sorted@.len() == files@.len(),
        Seq::new(sorted@.len(), |i: int| file_view(*db, *sorted@[i])) == sorted_files(*db, files@),
        forall|i: int|
            0 <= i < sorted@.len() ==> db.has_file((#[trigger] sorted@[i]).file) && (
            sorted@[i].facts matches Some(facts) ==> facts::facts_known(*db, facts)),
{
    let mut named: Vec<Named<'_>> = Vec::new();
    let ghost map = as_file(files@);
    let mut i: usize = 0;
    while i < files.len()
        invariant
            i <= files@.len(),
            files_known(*db, files@),
            named@.len() == i,
            map == as_file(files@),
            forall|k: int|
                0 <= k < i ==> (#[trigger] named@[k]).position == k && named@[k].path@ == db.file(
                    files@[k].file,
                ).path@,
        decreases files@.len() - i,
    {
        assert(db.has_file(files@[i as int].file));
        named.push(Named { path: &db.files[files[i].file.id].path, position: i });
        i += 1;
    }
    let ghost entries = named@;
    let ghost ordered = order::stable_sort(entries);
    proof {
        order::lemma_stable_sort_map(entries, map);
        order::lemma_stable_sort(entries);
        assert(entries.map_values(map) =~= Seq::new(
            files@.len(),
            |k: int| file_view(*db, files@[k]),
        ));
        assert forall|k: int| 0 <= k < ordered.len() implies (#[trigger] ordered[k]).position
            < files@.len() && ordered[k].path@ == db.file(
            files@[ordered[k].position as int].file,
        ).path@ by {
            assert(ordered.contains(ordered[k]));
            assert(entries.contains(ordered[k]));
            let m = choose|m: int| 0 <= m < entries.len() && entries[m] == ordered[k];
            assert(entries[m].position == m);
        }
    }
    let order = order::sort_stable(named);
    let mut sorted: Vec<&'a ProjectFile> = Vec::new();
    let mut k: usize = 0;
    while k < order.len()
        invariant
            k <= order@.len(),
            order@ == ordered,
            files_known(*db, files@),
            map == as_file(files@),
            sorted@.len() == k,
            forall|m: int|
                0 <= m < ordered.len() ==> (#[trigger] ordered[m]).position < files@.len()
                    && ordered[m].path@ == db.file(
                    files@[ordered[m].position as int].file,
                ).path@,
            forall|m: int|
                0 <= m < k ==> file_view(*db, *(#[trigger] sorted@[m])) == map(ordered[m])
                    && db.has_file(sorted@[m].file) && (sorted@[m].facts matches Some(facts)
                    ==> facts::facts_known(*db, facts)),
        decreases order@.len() - k,
    {
        assert(ordered[k as int].position < files@.len());
        sorted.push(&files[order[k].position]);
        k += 1;
    }
    assert(Seq::new(sorted@.len(), |m: int| file_view(*db, *sorted@[m])) =~= ordered.map_values(
        map,
    ));
    sorted
}

/// The tables of a call graph, as far as files were read.
struct Tables<'a> {
    first_party: Vec<bool>,
    calls: Vec<Vec<CallSite<'a>>>,
    all_roots: Vec<Definition>,
    open_roots: Vec<Definition>,
    problems: Vec<ProjectSuppressionProblem>,
}

impl<'a> Tables<'a> {
    /// The tables of no files.
    fn new(db: &Db) -> (tables: Self)
        ensures
            tables.of(*db, Seq::empty()),
    {
        let mut first_party: Vec<bool> = Vec::new();
        let mut i: usize = 0;
        while i < db.files.len()
            invariant
                i <= db.files@.len(),
                first_party@.len() == i,
                forall|k: int| 0 <= k < i ==> !#[trigger] first_party@[k],
            decreases db.files@.len() - i,
        {
            first_party.push(false);
            i += 1;
        }
        let mut calls: Vec<Vec<CallSite<'a>>> = Vec::new();
        let mut k: usize = 0;
        while k < db.definitions.len()
            invariant
                k <= db.definitions@.len(),
                calls@.len() == k,
                forall|m: int| 0 <= m < k ==> (#[trigger] calls@[m])@.len() == 0,
            decreases db.definitions@.len() - k,
        {
            calls.push(Vec::new());
            k += 1;
        }
        let tables = Tables {
            first_party,
            calls,
            all_roots: Vec::new(),
            open_roots: Vec::new(),
            problems: Vec::new(),
        };
        proof {
            assert forall|d: Definition| db.has_definition(d) implies site_views(
                (#[trigger] tables.calls@[d.id as int])@,
            ) == calls_by(Seq::empty(), d) by {
                assert(site_views(tables.calls@[d.id as int]@) =~= Seq::empty());
            }
            assert(roots_of(Seq::empty()) == Roots { all: Seq::empty(), open: Seq::empty() });
        }
        tables
    }

    spec fn calls_are(self, db: Db, sites: Seq<PlacedCall>) -> bool {
        &&& self.calls@.len() == db.definitions@.len()
        &&& forall|d: Definition|
            db.has_definition(d) ==> site_views((#[trigger] self.calls@[d.id as int])@) == calls_by(
                sites,
                d,
            )
        &&& forall|i: int, j: int|
            0 <= i < self.calls@.len() && 0 <= j < self.calls@[i]@.len() ==> {
                let site = #[trigger] self.calls@[i]@[j];
                db.has_file(site.file) && provenance::targets_known(db, site.call.targets@)
            }
    }

    spec fn files_are(self, db: Db, files: Seq<FileView>) -> bool {
        &&& self.first_party@.len() == db.files@.len()
        &&& forall|file: File|
            db.has_file(file) ==> #[trigger] self.first_party@[file.id as int] == Seq::new(
                files.len(),
                |i: int| files[i].file,
            ).contains(file)
    }

    spec fn roots_are(self, db: Db, found: Roots) -> bool {
        &&& self.all_roots@ == found.all
        &&& self.open_roots@ == found.open
        &&& forall|i: int|
            0 <= i < self.all_roots@.len() ==> db.has_definition(#[trigger] self.all_roots@[i])
        &&& forall|i: int|
            0 <= i < self.open_roots@.len() ==> db.has_definition(#[trigger] self.open_roots@[i])
    }

    spec fn problems_are(self, db: Db, files: Seq<FileView>) -> bool {
        &&& self.problems@ == problems_of(files)
        &&& forall|i: int|
            0 <= i < self.problems@.len() ==> db.has_file((#[trigger] self.problems@[i]).file)
    }

    /// Whether these are the tables of sorted files.
    spec fn of(self, db: Db, files: Seq<FileView>) -> bool {
        &&& self.files_are(db, files)
        &&& self.calls_are(db, all_calls(files))
        &&& self.roots_are(db, roots_of(files))
        &&& self.problems_are(db, files)
    }

    fn add_calls(
        &mut self,
        db: &Db,
        file: File,
        calls: &'a Vec<CallFact>,
        Ghost(before): Ghost<Seq<PlacedCall>>,
    )
        requires
            db.has_file(file),
            forall|i: int|
                0 <= i < calls@.len() ==> db.has_definition((#[trigger] calls@[i]).caller)
                    && provenance::targets_known(*db, calls@[i].targets@),
            old(self).calls_are(*db, before),
        ensures
            final(self).calls_are(
                *db,
                before + Seq::new(
                    calls@.len(),
                    |i: int| PlacedCall { file, call: facts::fact_views(calls@)[i] },
                ),
            ),
            final(self).first_party == old(self).first_party,
            final(self).all_roots == old(self).all_roots,
            final(self).open_roots == old(self).open_roots,
            final(self).problems == old(self).problems,
    {
        let ghost added = Seq::new(
            calls@.len(),
            |i: int| PlacedCall { file, call: facts::fact_views(calls@)[i] },
        );
        assert(before + added.take(0) =~= before);
        let mut i: usize = 0;
        while i < calls.len()
            invariant
                i <= calls@.len(),
                db.has_file(file),
                added == Seq::new(
                    calls@.len(),
                    |k: int| PlacedCall { file, call: facts::fact_views(calls@)[k] },
                ),
                forall|k: int|
                    0 <= k < calls@.len() ==> db.has_definition((#[trigger] calls@[k]).caller)
                        && provenance::targets_known(*db, calls@[k].targets@),
                self.calls_are(*db, before + added.take(i as int)),
                self.first_party == old(self).first_party,
                self.all_roots == old(self).all_roots,
                self.open_roots == old(self).open_roots,
                self.problems == old(self).problems,
            decreases calls@.len() - i,
        {
            let call = &calls[i];
            let caller = call.caller;
            let site = CallSite { file, call };
            let ghost so_far = self.calls@;
            let ghost sites = before + added.take(i as int);
            let ghost next = before + added.take(i as int + 1);
            assert(db.has_definition(calls@[i as int].caller));
            self.calls[caller.id].push(site);
            proof {
                assert(next.drop_last() =~= sites);
                assert(next.last() == site@);
                assert forall|d: Definition| db.has_definition(d) implies site_views(
                    (#[trigger] self.calls@[d.id as int])@,
                ) == calls_by(next, d) by {
                    assert(site_views(so_far[d.id as int]@) == calls_by(sites, d));
                    if d.id == caller.id {
                        assert(d == caller);
                        assert(site_views(self.calls@[d.id as int]@) =~= site_views(
                            so_far[d.id as int]@,
                        ).push(site@));
                    }
                }
                assert forall|m: int, j: int|
                    0 <= m < self.calls@.len() && 0 <= j < self.calls@[m]@.len() implies {
                    let found = #[trigger] self.calls@[m]@[j];
                    db.has_file(found.file) && provenance::targets_known(*db, found.call.targets@)
                } by {
                    if m != caller.id || j < so_far[m]@.len() {
                        assert(self.calls@[m]@[j] == so_far[m]@[j]);
                    }
                }
            }
            i += 1;
        }
        assert(added.take(added.len() as int) =~= added);
    }

    fn add_roots(&mut self, db: &Db, roots: &Vec<ResolverRootFact>, Ghost(before): Ghost<Roots>)
        requires
            forall|i: int|
                0 <= i < roots@.len() ==> db.has_definition((#[trigger] roots@[i]).definition),
            old(self).roots_are(*db, before),
        ensures
            final(self).roots_are(*db, with_roots(before, roots@)),
            final(self).first_party == old(self).first_party,
            final(self).calls == old(self).calls,
            final(self).problems == old(self).problems,
    {
        let mut i: usize = 0;
        while i < roots.len()
            invariant
                i <= roots@.len(),
                forall|k: int|
                    0 <= k < roots@.len() ==> db.has_definition((#[trigger] roots@[k]).definition),
                self.roots_are(*db, with_roots(before, roots@.take(i as int))),
                self.first_party == old(self).first_party,
                self.calls == old(self).calls,
                self.problems == old(self).problems,
            decreases roots@.len() - i,
        {
            let root = roots[i];
            assert(roots@.take(i as int + 1).drop_last() =~= roots@.take(i as int));
            if !has_definition(&self.all_roots, root.definition) {
                self.all_roots.push(root.definition);
                if root.unsupported_function_suppression.is_none() {
                    self.open_roots.push(root.definition);
                }
            }
            i += 1;
        }
        assert(roots@.take(roots@.len() as int) =~= roots@);
    }

    fn add_problems(&mut self, db: &Db, file: File, problems: &Vec<SuppressionProblem>)
        requires
            db.has_file(file),
            forall|i: int|
                0 <= i < old(self).problems@.len() ==> db.has_file(
                    (#[trigger] old(self).problems@[i]).file,
                ),
        ensures
            final(self).problems@ == old(self).problems@ + Seq::new(
                problems@.len(),
                |i: int|
                    ProjectSuppressionProblem {
                        file,
                        range: problems@[i].range,
                        kind: problems@[i].kind,
                    },
            ),
            forall|i: int|
                0 <= i < final(self).problems@.len() ==> db.has_file(
                    (#[trigger] final(self).problems@[i]).file,
                ),
            final(self).first_party == old(self).first_party,
            final(self).calls == old(self).calls,
            final(self).all_roots == old(self).all_roots,
            final(self).open_roots == old(self).open_roots,
    {
        let ghost added = Seq::new(
            problems@.len(),
            |i: int|
                ProjectSuppressionProblem {
                    file,
                    range: problems@[i].range,
                    kind: problems@[i].kind,
                },
        );
        let mut i: usize = 0;
        while i < problems.len()
            invariant
                i <= problems@.len(),
                db.has_file(file),
                added == Seq::new(
                    problems@.len(),
                    |k: int|
                        ProjectSuppressionProblem {
                            file,
                            range: problems@[k].range,
                            kind: problems@[k].kind,
                        },
                ),
                self.problems@ =~= old(self).problems@ + added.take(i as int),
                forall|k: int|
                    0 <= k < self.problems@.len() ==> db.has_file(
                        (#[trigger] self.problems@[k]).file,
                    ),
                self.first_party == old(self).first_party,
                self.calls == old(self).calls,
                self.all_roots == old(self).all_roots,
                self.open_roots == old(self).open_roots,
            decreases problems@.len() - i,
        {
            self.problems.push(
                ProjectSuppressionProblem {
                    file,
                    range: problems[i].range,
                    kind: problems[i].kind,
                },
            );
            i += 1;
        }
        assert(added.take(added.len() as int) =~= added);
    }

    /// Reads one more file.
    fn add_file(&mut self, db: &Db, file: &'a ProjectFile, Ghost(before): Ghost<Seq<FileView>>)
        requires
            db.has_file(file.file),
            file.facts matches Some(facts) ==> facts::facts_known(*db, facts),
            old(self).of(*db, before),
        ensures
            final(self).of(*db, before.push(file_view(*db, *file))),
    {
        let ghost next = before.push(file_view(*db, *file));
        assert(next.drop_last() =~= before);
        let ghost marked = self.first_party@;
        self.first_party.set(file.file.id, true);
        proof {
            let old_files = Seq::new(before.len(), |i: int| before[i].file);
            let new_files = Seq::new(next.len(), |i: int| next[i].file);
            assert(new_files =~= old_files.push(file.file));
            assert forall|f: File| db.has_file(f) implies #[trigger] self.first_party@[f.id as int]
                == new_files.contains(f) by {
                assert(marked[f.id as int] == old_files.contains(f));
                if f.id == file.file.id {
                    assert(new_files[before.len() as int] == f);
                } else if old_files.contains(f) {
                    let k = choose|k: int| 0 <= k < old_files.len() && old_files[k] == f;
                    assert(new_files[k] == f);
                }
            }
        }
        match &file.facts {
            Some(facts) => {
                self.add_calls(db, file.file, &facts.calls, Ghost(all_calls(before)));
                self.add_roots(db, &facts.resolver_roots, Ghost(roots_of(before)));
                self.add_problems(db, file.file, &facts.suppression_problems);
            },
            None => {
                assert(all_calls(next) =~= all_calls(before));
            },
        }
    }
}

/// What there is to report of a project.
pub fn project_candidates(db: &Db, files: &Vec<ProjectFile>) -> (candidates: ProjectCandidates)
    requires
        db.wf(),
        files_known(*db, files@),
    ensures
        candidates.of(*db, files@),
{
    let sorted = sort_files(db, files);
    let ghost all = sorted_files(*db, files@);
    let mut tables = Tables::new(db);
    let mut i: usize = 0;
    assert(all.take(0) =~= Seq::empty());
    while i < sorted.len()
        invariant
            i <= sorted@.len(),
            sorted@.len() == all.len(),
            all == Seq::new(sorted@.len(), |k: int| file_view(*db, *sorted@[k])),
            forall|k: int|
                0 <= k < sorted@.len() ==> db.has_file((#[trigger] sorted@[k]).file) && (
                sorted@[k].facts matches Some(facts) ==> facts::facts_known(*db, facts)),
            tables.of(*db, all.take(i as int)),
        decreases sorted@.len() - i,
    {
        assert(db.has_file(sorted@[i as int].file));
        tables.add_file(db, sorted[i], Ghost(all.take(i as int)));
        assert(all.take(i as int).push(file_view(*db, *sorted@[i as int])) =~= all.take(
            i as int + 1,
        ));
        i += 1;
    }
    assert(all.take(all.len() as int) =~= all);
    let ghost graph = graph_of(*db, all);
    let ghost depth = db.definitions@.len();
    let open_roots = tables.open_roots;
    let all_roots = tables.all_roots;
    let problems = tables.problems;
    let mut analyzer = ReachabilityAnalyzer {
        db,
        first_party: tables.first_party,
        calls: tables.calls,
        states: unvisited_states(db.definitions.len()),
        unsupported: Vec::new(),
        cycles: Vec::new(),
    };
    proof {
        lemma_unentered_bound(analyzer.states@);
        lemma_start(analyzer.states@);
        assert(candidate_views(analyzer.unsupported@) =~= Seq::empty());
        assert(analyzer.of(graph));
    }
    analyzer.visit_roots(&open_roots, Analysis::Unsupported, Ghost(graph), Ghost(depth));
    let ghost first = analyzer.walk();
    proof {
        lemma_cycles_untouched(graph, depth, open_roots@, fresh());
    }
    analyzer.states = unvisited_states(db.definitions.len());
    proof {
        lemma_unentered_bound(analyzer.states@);
        lemma_start(analyzer.states@);
    }
    let ghost second = analyzer.walk();
    analyzer.visit_roots(&all_roots, Analysis::Cycles, Ghost(graph), Ghost(depth));
    proof {
        lemma_unsupported_untouched(graph, depth, all_roots@, second, fresh());
    }
    let unsupported = sort_unsupported(db, analyzer.unsupported, &analyzer.cycles);
    let cycles = sort_cycles(db, &analyzer.cycles);
    let suppression_problems = sort_problems(db, &problems);
    ProjectCandidates { unsupported, cycles, suppression_problems }
}

/// No function entered yet.
fn unvisited_states(len: usize) -> (states: Vec<Option<VisitState>>)
    ensures
        states@ == Seq::new(len as nat, |i: int| None::<VisitState>),
{
    let mut states: Vec<Option<VisitState>> = Vec::new();
    let mut i: usize = 0;
    while i < len
        invariant
            i <= len,
            states@ =~= Seq::new(i as nat, |k: int| None::<VisitState>),
        decreases len - i,
    {
        states.push(None);
        i += 1;
    }
    states
}

proof fn lemma_start(states: Seq<Option<VisitState>>)
    requires
        forall|i: int| 0 <= i < states.len() ==> #[trigger] states[i] is None,
    ensures
        state_map(states) == Map::<Definition, VisitState>::empty(),
{
    assert(state_map(states) =~= Map::<Definition, VisitState>::empty());
}

/// A walk that looks for unsupported calls notes no cycles.
proof fn lemma_cycles_untouched(graph: Graph, depth: nat, roots: Seq<Definition>, walk: Walk)
    ensures
        visit_all(graph, Analysis::Unsupported, depth, roots, walk).cycles == walk.cycles,
    decreases roots.len(),
{
    if roots.len() > 0 {
        lemma_cycles_untouched(graph, depth, roots.drop_last(), walk);
        lemma_visit_keeps_cycles(
            graph,
            depth,
            roots.last(),
            visit_all(graph, Analysis::Unsupported, depth, roots.drop_last(), walk),
        );
    }
}

proof fn lemma_visit_keeps_cycles(graph: Graph, depth: nat, definition: Definition, walk: Walk)
    ensures
        visit(graph, Analysis::Unsupported, depth, definition, walk).cycles == walk.cycles,
    decreases depth, 0int, 0int,
{
    if !walk.states.contains_key(definition) && depth > 0 {
        let entered = Walk {
            states: walk.states.insert(definition, VisitState::Visiting),
            ..walk
        };
        lemma_calls_keep_cycles(
            graph,
            (depth - 1) as nat,
            graph.calls_of(definition),
            entered,
        );
    }
}

proof fn lemma_calls_keep_cycles(graph: Graph, depth: nat, sites: Seq<PlacedCall>, walk: Walk)
    ensures
        visit_calls(graph, Analysis::Unsupported, depth, sites, walk).cycles == walk.cycles,
    decreases depth, 3int, sites.len(),
{
    if sites.len() > 0 {
        lemma_calls_keep_cycles(graph, depth, sites.drop_last(), walk);
        let before = visit_calls(graph, Analysis::Unsupported, depth, sites.drop_last(), walk);
        let site = sites.last();
        lemma_follow_keeps_cycles(
            graph,
            depth,
            site,
            graph.next(site),
            noted(graph, Analysis::Unsupported, site, before),
        );
        lemma_visit_call(graph, Analysis::Unsupported, depth, site, before);
    }
}

/// What visiting a call comes to.
pub proof fn lemma_visit_call(
    graph: Graph,
    analysis: Analysis,
    depth: nat,
    site: PlacedCall,
    walk: Walk,
)
    ensures
        visit_call(graph, analysis, depth, site, walk) == follow(
            graph,
            analysis,
            depth,
            site,
            graph.next(site),
            noted(graph, analysis, site, walk),
        ),
{
}

proof fn lemma_follow_keeps_cycles(
    graph: Graph,
    depth: nat,
    site: PlacedCall,
    targets: Seq<Definition>,
    walk: Walk,
)
    ensures
        follow(graph, Analysis::Unsupported, depth, site, targets, walk).cycles == walk.cycles,
    decreases depth, 1int, targets.len(),
{
    if targets.len() > 0 {
        lemma_follow_keeps_cycles(graph, depth, site, targets.drop_last(), walk);
        let before = follow(
            graph,
            Analysis::Unsupported,
            depth,
            site,
            targets.drop_last(),
            walk,
        );
        if !before.states.contains_key(targets.last()) {
            lemma_visit_keeps_cycles(graph, depth, targets.last(), before);
        }
    }
}

/// Two walks that agree but for their unsupported calls.
spec fn agree(left: Walk, right: Walk) -> bool {
    left.states == right.states && left.cycles == right.cycles
}

/// A walk that looks for cycles leaves the unsupported calls alone and does not depend on them.
proof fn lemma_unsupported_untouched(
    graph: Graph,
    depth: nat,
    roots: Seq<Definition>,
    walk: Walk,
    other: Walk,
)
    requires
        agree(walk, other),
    ensures
        visit_all(graph, Analysis::Cycles, depth, roots, walk).unsupported == walk.unsupported,
        agree(
            visit_all(graph, Analysis::Cycles, depth, roots, walk),
            visit_all(graph, Analysis::Cycles, depth, roots, other),
        ),
    decreases roots.len(),
{
    if roots.len() > 0 {
        let init = roots.drop_last();
        lemma_unsupported_untouched(graph, depth, init, walk, other);
        lemma_visit_ignores_unsupported(
            graph,
            depth,
            roots.last(),
            visit_all(graph, Analysis::Cycles, depth, init, walk),
            visit_all(graph, Analysis::Cycles, depth, init, other),
        );
    }
}

proof fn lemma_visit_ignores_unsupported(
    graph: Graph,
    depth: nat,
    definition: Definition,
    walk: Walk,
    other: Walk,
)
    requires
        agree(walk, other),
    ensures
        visit(graph, Analysis::Cycles, depth, definition, walk).unsupported == walk.unsupported,
        agree(
            visit(graph, Analysis::Cycles, depth, definition, walk),
            visit(graph, Analysis::Cycles, depth, definition, other),
        ),
    decreases depth, 0int, 0int,
{
    if !walk.states.contains_key(definition) && depth > 0 {
        lemma_calls_ignore_unsupported(
            graph,
            (depth - 1) as nat,
            graph.calls_of(definition),
            Walk { states: walk.states.insert(definition, VisitState::Visiting), ..walk },
            Walk { states: other.states.insert(definition, VisitState::Visiting), ..other },
        );
    }
}

proof fn lemma_calls_ignore_unsupported(
    graph: Graph,
    depth: nat,
    sites: Seq<PlacedCall>,
    walk: Walk,
    other: Walk,
)
    requires
        agree(walk, other),
    ensures
        visit_calls(graph, Analysis::Cycles, depth, sites, walk).unsupported == walk.unsupported,
        agree(
            visit_calls(graph, Analysis::Cycles, depth, sites, walk),
            visit_calls(graph, Analysis::Cycles, depth, sites, other),
        ),
    decreases depth, 3int, sites.len(),
{
    if sites.len() > 0 {
        let init = sites.drop_last();
        lemma_calls_ignore_unsupported(graph, depth, init, walk, other);
        lemma_follow_ignores_unsupported(
            graph,
            depth,
            sites.last(),
            graph.next(sites.last()),
            visit_calls(graph, Analysis::Cycles, depth, init, walk),
            visit_calls(graph, Analysis::Cycles, depth, init, other),
        );
        lemma_visit_call(
            graph,
            Analysis::Cycles,
            depth,
            sites.last(),
            visit_calls(graph, Analysis::Cycles, depth, init, walk),
        );
        lemma_visit_call(
            graph,
            Analysis::Cycles,
            depth,
            sites.last(),
            visit_calls(graph, Analysis::Cycles, depth, init, other),
        );
    }
}

proof fn lemma_follow_ignores_unsupported(
    graph: Graph,
    depth: nat,
    site: PlacedCall,
    targets: Seq<Definition>,
    walk: Walk,
    other: Walk,
)
    requires
        agree(walk, other),
    ensures
        follow(graph, Analysis::Cycles, depth, site, targets, walk).unsupported
            == walk.unsupported,
        agree(
            follow(graph, Analysis::Cycles, depth, site, targets, walk),
            follow(graph, Analysis::Cycles, depth, site, targets, other),
        ),
    decreases depth, 1int, targets.len(),
{
    if targets.len() > 0 {
        let init = targets.drop_last();
        lemma_follow_ignores_unsupported(graph, depth, site, init, walk, other);
        let before = follow(graph, Analysis::Cycles, depth, site, init, walk);
        if !before.states.contains_key(targets.last()) {
            lemma_visit_ignores_unsupported(
                graph,
                depth,
                targets.last(),
                before,
                follow(graph, Analysis::Cycles, depth, site, init, other),
            );
        }
    }
}

} // verus!

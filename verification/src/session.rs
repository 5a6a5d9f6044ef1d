//! The state of a language server: its projects, which of them a document is routed to, and how they
//! follow what is opened, changed and closed.

use vstd::prelude::*;

use crate::active_project;
use crate::active_project::{Active, ActiveChalkProject, Change, ChangeEvent, Files};
use crate::order;
use crate::path_map;
use crate::path_map::{PathEntry, PathMap};
use crate::paths;
use crate::paths::SystemPath;
use crate::project;
use crate::project::{ChalkConfig, ChalkProject, ChalkProjectError, Failure};
use crate::registrations::{ClientCapabilities, DiagnosticMode, Registrations};
use crate::semantic::File;
use crate::system::System;
use crate::text;
use crate::workspaces;
use crate::workspaces::{FolderError, FolderPath, Workspace, Workspaces};

verus! {

broadcast use vstd::string::group_string_axioms;

// ---------------------------------------------------------------------------------------------
// The world outside
// ---------------------------------------------------------------------------------------------

/// What a configuration file holds, or why that cannot be read as settings.
#[derive(Debug)]
pub struct ParsedConfig {
    pub path: SystemPath,
    pub config: Result<ChalkConfig, String>,
}

/// A file that the settings of a project exclude from it.
#[derive(Debug)]
pub struct Exclusion {
    pub root: SystemPath,
    pub path: SystemPath,
}

/// What the databases see: the file system with the open documents in it, the files in it, and what
/// its configuration files hold.
#[derive(Debug)]
pub struct World {
    pub system: System,
    pub files: Files,
    pub configs: Vec<ParsedConfig>,
    /// What a configuration file that was not read is taken for.
    pub unread: Result<ChalkConfig, String>,
    pub excluded: Vec<Exclusion>,
}

/// What a configuration file holds, from a place in the list on.
pub open spec fn config_from(
    configs: Seq<ParsedConfig>,
    unread: Result<ChalkConfig, String>,
    path: Seq<Seq<char>>,
    at: int,
) -> Result<ChalkConfig, String>
    decreases configs.len() - at,
{
    if at < 0 || at >= configs.len() {
        unread
    } else if configs[at].path@ == path {
        configs[at].config
    } else {
        config_from(configs, unread, path, at + 1)
    }
}

impl World {
    /// Whether the paths are paths.
    pub open spec fn wf(self) -> bool {
        self.system.wf() && self.files.wf()
    }

    /// What a configuration file holds.
    pub open spec fn config(self, path: Seq<Seq<char>>) -> Result<ChalkConfig, String> {
        config_from(self.configs@, self.unread, path, 0)
    }

    /// Whether the settings of a project exclude a file from it.
    pub open spec fn excludes(self, root: Seq<Seq<char>>, path: Seq<Seq<char>>) -> bool {
        exists|i: int|
            0 <= i < self.excluded@.len() && (#[trigger] self.excluded@[i]).root@ == root
                && self.excluded@[i].path@ == path
    }

    /// The file at a path, where there is one.
    pub open spec fn existing(self, path: Seq<Seq<char>>) -> Option<File> {
        if self.system.has_file(path) {
            self.files.file_at(path)
        } else {
            None
        }
    }

    /// Finds the file at a path, where there is one.
    fn find_existing(&self, path: &SystemPath) -> (file: Option<File>)
        ensures
            file == self.existing(path@),
    {
        if self.system.is_file(path) {
            self.files.find(path)
        } else {
            None
        }
    }

    /// Finds what a configuration file holds.
    fn find_config(&self, path: &SystemPath) -> (config: &Result<ChalkConfig, String>)
        ensures
            *config == self.config(path@),
    {
        let mut i: usize = 0;
        while i < self.configs.len()
            invariant
                i <= self.configs@.len(),
                self.config(path@) == config_from(self.configs@, self.unread, path@, i as int),
            decreases self.configs@.len() - i,
        {
            if self.configs[i].path.same_as(path) {
                return &self.configs[i].config;
            }
            i += 1;
        }
        &self.unread
    }

    /// Whether the settings of a project exclude a file from it.
    fn is_excluded(&self, root: &SystemPath, path: &SystemPath) -> (excluded: bool)
        ensures
            excluded == self.excludes(root@, path@),
    {
        let mut i: usize = 0;
        while i < self.excluded.len()
            invariant
                i <= self.excluded@.len(),
                forall|k: int|
                    0 <= k < i ==> !((#[trigger] self.excluded@[k]).root@ == root@
                        && self.excluded@[k].path@ == path@),
            decreases self.excluded@.len() - i,
        {
            if self.excluded[i].root.same_as(root) && self.excluded[i].path.same_as(path) {
                assert(self.excluded@[i as int].root@ == root@);
                return true;
            }
            i += 1;
        }
        false
    }
}

// ---------------------------------------------------------------------------------------------
// Projects
// ---------------------------------------------------------------------------------------------

/// Where a document lies: in the file system, or nowhere in it.
#[derive(Debug)]
pub enum AnySystemPath {
    System(SystemPath),
    Virtual(String),
}

/// Where a document lies.
pub enum Place {
    System(Seq<Seq<char>>),
    Virtual(Seq<char>),
}

impl View for AnySystemPath {
    type V = Place;

    open spec fn view(&self) -> Place {
        match self {
            AnySystemPath::System(path) => Place::System(path@),
            AnySystemPath::Virtual(name) => Place::Virtual(name@),
        }
    }
}

impl AnySystemPath {
    /// Whether the path is one.
    pub open spec fn wf(self) -> bool {
        self matches AnySystemPath::System(path) ==> path.wf()
    }

    /// Whether two documents lie at one place.
    fn same_as(&self, other: &AnySystemPath) -> (same: bool)
        ensures
            same == (self@ == other@),
    {
        match (self, other) {
            (AnySystemPath::System(a), AnySystemPath::System(b)) => a.same_as(b),
            (AnySystemPath::Virtual(a), AnySystemPath::Virtual(b)) => text::same_text(
                a.as_str(),
                b.as_str(),
            ),
            _ => false,
        }
    }

    /// A copy.
    fn copied(&self) -> (copy: AnySystemPath)
        ensures
            copy@ == self@,
            self.wf() ==> copy.wf(),
    {
        match self {
            AnySystemPath::System(path) => AnySystemPath::System(path.copied()),
            AnySystemPath::Virtual(name) => AnySystemPath::Virtual(name.clone()),
        }
    }
}

/// Places as values.
pub open spec fn places(files: Seq<AnySystemPath>) -> Seq<Place> {
    Seq::new(files.len(), |i: int| files[i]@)
}

/// The kind of a project.
#[derive(Clone, Copy, Debug, PartialEq, Eq, Structural)]
pub enum ProjectKind {
    Workspace,
    Chalk,
}

/// A project.
#[derive(Debug)]
pub struct ProjectState {
    pub kind: ProjectKind,
    /// The workspace folder whose settings the project was made with.
    pub workspace_root: Option<SystemPath>,
    /// The files with diagnostics that nothing else will clear.
    pub untracked: Vec<String>,
    pub chalk_project: Option<ActiveChalkProject>,
    /// The documents that are open in the project.
    pub open_files: Vec<AnySystemPath>,
}

/// A project.
#[verifier::ext_equal]
pub struct Project {
    pub kind: ProjectKind,
    pub workspace_root: Option<Seq<Seq<char>>>,
    pub untracked: Seq<Seq<char>>,
    pub active: Option<Active>,
    pub open_files: Seq<Place>,
}

impl View for ProjectState {
    type V = Project;

    open spec fn view(&self) -> Project {
        Project {
            kind: self.kind,
            workspace_root: match self.workspace_root {
                Some(root) => Some(root@),
                None => None,
            },
            untracked: workspaces::names_of(self.untracked@),
            active: match self.chalk_project {
                Some(active) => Some(active@),
                None => None,
            },
            open_files: places(self.open_files@),
        }
    }
}

impl ProjectState {
    /// Whether the sources of the project are files, and its root a path.
    pub open spec fn wf(self, files: Files) -> bool {
        &&& self.chalk_project matches Some(active) ==> active.wf(files)
        &&& self.workspace_root matches Some(root) ==> root.wf()
    }

    /// The project as a function of its state.
    pub open spec fn viewed() -> spec_fn(ProjectState) -> Project {
        |state: ProjectState| state@
    }
}

/// The directories of projects of a kind.
pub open spec fn roots_of(projects: Map<Seq<Seq<char>>, Project>, kind: ProjectKind) -> Set<
    Seq<Seq<char>>,
> {
    Set::new(|root: Seq<Seq<char>>| projects.contains_key(root) && projects[root].kind == kind)
}

/// The project that a path is routed to: the innermost of the feature projects that it lies in, or
/// else of the other ones.
pub open spec fn routed(projects: Map<Seq<Seq<char>>, Project>, path: Seq<Seq<char>>) -> Option<
    Seq<Seq<char>>,
> {
    match workspaces::innermost(roots_of(projects, ProjectKind::Chalk), path) {
        Some(root) => Some(root),
        None => workspaces::innermost(roots_of(projects, ProjectKind::Workspace), path),
    }
}

/// Whether a project is the first one.
pub open spec fn is_first(
    projects: Map<Seq<Seq<char>>, Project>,
    root: Seq<Seq<char>>,
) -> bool {
    projects.contains_key(root) && forall|other: Seq<Seq<char>>| #[trigger]
        projects.contains_key(other) ==> !paths::path_before(other, root)
}

/// The first project.
pub open spec fn first(projects: Map<Seq<Seq<char>>, Project>) -> Seq<Seq<char>> {
    choose|root: Seq<Seq<char>>| is_first(projects, root)
}

/// The project that a document belongs to: the one that its path is routed to, or else the first.
pub open spec fn owner(projects: Map<Seq<Seq<char>>, Project>, place: Place) -> Seq<Seq<char>> {
    match place {
        Place::System(path) => match routed(projects, path) {
            Some(root) => root,
            None => first(projects),
        },
        Place::Virtual(_) => first(projects),
    }
}

/// There is one first project.
pub proof fn lemma_first(projects: Map<Seq<Seq<char>>, Project>, root: Seq<Seq<char>>)
    requires
        is_first(projects, root),
    ensures
        first(projects) == root,
{
    let other = first(projects);
    assert(is_first(projects, other));
    paths::lemma_path_before_total(root, other);
}

/// A path is routed to a project that it lies in.
pub proof fn lemma_routed(projects: Map<Seq<Seq<char>>, Project>, path: Seq<Seq<char>>)
    ensures
        routed(projects, path) matches Some(root) ==> projects.contains_key(root)
            && paths::lies_in(path, root),
{
    let chalk = roots_of(projects, ProjectKind::Chalk);
    let other = roots_of(projects, ProjectKind::Workspace);
    workspaces::law_innermost_is_longest(chalk, path, path);
    workspaces::law_innermost_is_longest(other, path, path);
}

/// The projects of a session, as values.
pub open spec fn projects_of(projects: PathMap<ProjectState>) -> Map<Seq<Seq<char>>, Project> {
    projects@.map_values(ProjectState::viewed())
}

/// Whether projects are in order and well-formed.
pub open spec fn projects_wf(projects: PathMap<ProjectState>, files: Files) -> bool {
    &&& projects.wf()
    &&& forall|root: Seq<Seq<char>>| #[trigger]
        projects@.contains_key(root) ==> projects@[root].wf(files)
}

/// The projects with a state added or taken away.
pub proof fn lemma_projects_insert(
    before: Map<Seq<Seq<char>>, ProjectState>,
    root: Seq<Seq<char>>,
    state: ProjectState,
)
    ensures
        before.insert(root, state).map_values(ProjectState::viewed()) == before.map_values(
            ProjectState::viewed(),
        ).insert(root, state@),
        before.remove(root).map_values(ProjectState::viewed()) == before.map_values(
            ProjectState::viewed(),
        ).remove(root),
{
    assert(before.insert(root, state).map_values(ProjectState::viewed()) =~= before.map_values(
        ProjectState::viewed(),
    ).insert(root, state@));
    assert(before.remove(root).map_values(ProjectState::viewed()) =~= before.map_values(
        ProjectState::viewed(),
    ).remove(root));
}

/// Finds the innermost project of a kind that a path lies in.
fn innermost_project(projects: &PathMap<ProjectState>, kind: ProjectKind, path: &SystemPath) -> (root:
    Option<SystemPath>)
    requires
        projects.wf(),
        path.wf(),
    ensures
        match (
            root,
            workspaces::innermost(roots_of(projects_of(*projects), kind), path@),
        ) {
            (Some(root), Some(expected)) => root@ == expected && root.wf(),
            (None, None) => true,
            _ => false,
        },
{
    let ghost roots = roots_of(projects_of(*projects), kind);
    let mut current = path.copied();
    loop
        invariant
            projects.wf(),
            current.wf(),
            roots == roots_of(projects_of(*projects), kind),
            workspaces::innermost(roots, path@) == workspaces::innermost(roots, current@),
        decreases current@.len(),
    {
        let found = match projects.get(&current) {
            Some(state) => state.kind == kind,
            None => false,
        };
        assert(found == roots.contains(current@));
        if found {
            return Some(current);
        }
        match current.parent() {
            Some(parent) => {
                current = parent;
            },
            None => {
                return None;
            },
        }
    }
}

/// Finds the project that a path is routed to.
pub fn project_root_for_path(projects: &PathMap<ProjectState>, path: &SystemPath) -> (root: Option<
    SystemPath,
>)
    requires
        projects.wf(),
        path.wf(),
    ensures
        match (root, routed(projects_of(*projects), path@)) {
            (Some(root), Some(expected)) => root@ == expected && root.wf(),
            (None, None) => true,
            _ => false,
        },
{
    match innermost_project(projects, ProjectKind::Chalk, path) {
        Some(root) => Some(root),
        None => innermost_project(projects, ProjectKind::Workspace, path),
    }
}

/// Finds the place of the project that a document belongs to.
fn owner_place(projects: &PathMap<ProjectState>, place: &AnySystemPath) -> (index: usize)
    requires
        projects.wf(),
        place.wf(),
        projects.entries().len() > 0,
    ensures
        index < projects.entries().len(),
        projects.entries()[index as int].path@ == owner(projects_of(*projects), place@),
        projects@.contains_key(owner(projects_of(*projects), place@)),
{
    proof {
        projects.lemma_contents();
        projects.lemma_entries();
        let start = projects.entries()[0].path@;
        assert forall|other: Seq<Seq<char>>| #[trigger]
            projects_of(*projects).contains_key(other) implies !paths::path_before(
            other,
            start,
        ) by {
            let i = choose|i: int|
                0 <= i < projects.entries().len() && (
                #[trigger] projects.entries()[i]).path@ == other;
            paths::lemma_path_before_irreflexive(start);
            if i > 0 && paths::path_before(other, start) {
                assert(paths::path_before(
                    projects.entries()[0].path@,
                    projects.entries()[i].path@,
                ));
                paths::lemma_path_before_transitive(start, other, start);
            }
        }
        lemma_first(projects_of(*projects), start);
    }
    if let AnySystemPath::System(path) = place {
        proof {
            lemma_routed(projects_of(*projects), path@);
        }
        if let Some(root) = project_root_for_path(projects, path) {
            if let Some(index) = projects.place(&root) {
                return index;
            }
        }
    }
    0
}

// ---------------------------------------------------------------------------------------------
// Changes
// ---------------------------------------------------------------------------------------------

/// Whether one of some changes can change the sources of a project.
pub open spec fn affected(active: Active, changes: Seq<Change>) -> bool {
    exists|i: int|
        0 <= i < changes.len() && active_project::affects_sources(
            active.root,
            active.config_path,
            active.ignore_path,
            #[trigger] changes[i],
        )
}

/// An active project with its sources looked up again.
pub open spec fn refreshed(world: World, active: Active) -> Active {
    active_project::refreshed(
        world.files,
        world.system,
        world.config(active.config_path),
        active,
    )
}

/// A project after changes: its sources are looked up again where they may have changed.
pub open spec fn followed(world: World, changes: Seq<Change>, project: Project) -> Project {
    match project.active {
        Some(active) => if affected(active, changes) {
            Project { active: Some(refreshed(world, active)), ..project }
        } else {
            project
        },
        None => project,
    }
}

/// How a project follows changes.
pub open spec fn following(world: World, changes: Seq<Change>) -> spec_fn(
    Project,
) -> Project {
    |project: Project| followed(world, changes, project)
}

/// Why the sources of an active project cannot be looked up again.
pub open spec fn refresh_failure(world: World, active: Active) -> Option<Failure> {
    match active_project::active_sources(
        world.files,
        world.system,
        (active.root, active.config_path),
        world.config(active.config_path),
        active.open,
    ) {
        Ok(_) => None,
        Err(failure) => Some(failure),
    }
}

/// Why a project cannot follow changes.
pub open spec fn follow_failure(
    world: World,
    changes: Seq<Change>,
    project: Project,
) -> Option<Failure> {
    match project.active {
        Some(active) => if affected(active, changes) {
            refresh_failure(world, active)
        } else {
            None
        },
        None => None,
    }
}

/// A project whose sources could not be looked up again, and why.
#[derive(Debug)]
pub struct RefreshFailure {
    pub root: SystemPath,
    pub error: ChalkProjectError,
}

/// Whether failures are those of the projects that cannot follow changes, in order.
pub open spec fn are_failures(
    world: World,
    changes: Seq<Change>,
    projects: Map<Seq<Seq<char>>, Project>,
    failures: Seq<RefreshFailure>,
) -> bool {
    &&& forall|i: int, j: int|
        0 <= i < j < failures.len() ==> paths::path_before(
            (#[trigger] failures[i]).root@,
            (#[trigger] failures[j]).root@,
        )
    &&& forall|i: int|
        0 <= i < failures.len() ==> projects.contains_key((#[trigger] failures[i]).root@)
            && follow_failure(world, changes, projects[failures[i].root@]) == Some(
            failures[i].error@,
        )
    &&& forall|root: Seq<Seq<char>>| #[trigger]
        projects.contains_key(root) && follow_failure(world, changes, projects[root]) is Some
            ==> exists|i: int| 0 <= i < failures.len() && (#[trigger] failures[i]).root@ == root
}

/// Failures as values.
spec fn failures_view(failures: Seq<RefreshFailure>) -> Seq<(Seq<Seq<char>>, Failure)> {
    Seq::new(failures.len(), |i: int| (failures[i].root@, failures[i].error@))
}

/// The failures of entries, in order.
spec fn failing(
    world: World,
    changes: Seq<Change>,
    entries: Seq<PathEntry<ProjectState>>,
) -> Seq<(Seq<Seq<char>>, Failure)>
    decreases entries.len(),
{
    if entries.len() == 0 {
        Seq::empty()
    } else {
        let before = failing(world, changes, entries.drop_last());
        match follow_failure(world, changes, entries.last().value@) {
            Some(failure) => before.push((entries.last().path@, failure)),
            None => before,
        }
    }
}

proof fn lemma_failing_from(
    world: World,
    changes: Seq<Change>,
    entries: Seq<PathEntry<ProjectState>>,
    i: int,
) -> (m: int)
    requires
        0 <= i < failing(world, changes, entries).len(),
    ensures
        0 <= m < entries.len(),
        entries[m].path@ == failing(world, changes, entries)[i].0,
        follow_failure(world, changes, entries[m].value@) == Some(
            failing(world, changes, entries)[i].1,
        ),
    decreases entries.len(),
{
    let rest = entries.drop_last();
    if i < failing(world, changes, rest).len() {
        lemma_failing_from(world, changes, rest, i)
    } else {
        entries.len() - 1
    }
}

proof fn lemma_failing_to(
    world: World,
    changes: Seq<Change>,
    entries: Seq<PathEntry<ProjectState>>,
    m: int,
) -> (i: int)
    requires
        0 <= m < entries.len(),
        follow_failure(world, changes, entries[m].value@) is Some,
    ensures
        0 <= i < failing(world, changes, entries).len(),
        entries[m].path@ == failing(world, changes, entries)[i].0,
    decreases entries.len(),
{
    let rest = entries.drop_last();
    if m < rest.len() {
        lemma_failing_to(world, changes, rest, m)
    } else {
        failing(world, changes, entries).len() - 1
    }
}

proof fn lemma_failing_order(
    world: World,
    changes: Seq<Change>,
    entries: Seq<PathEntry<ProjectState>>,
    i: int,
    j: int,
)
    requires
        path_map::in_order(entries),
        0 <= i < j < failing(world, changes, entries).len(),
    ensures
        paths::path_before(
            failing(world, changes, entries)[i].0,
            failing(world, changes, entries)[j].0,
        ),
    decreases entries.len(),
{
    let rest = entries.drop_last();
    let before = failing(world, changes, rest);
    assert(path_map::in_order(rest)) by {
        assert forall|a: int, b: int| 0 <= a < b < rest.len() implies paths::path_before(
            (#[trigger] rest[a]).path@,
            (#[trigger] rest[b]).path@,
        ) by {
            assert(rest[a] == entries[a] && rest[b] == entries[b]);
        }
    }
    if j < before.len() {
        lemma_failing_order(world, changes, rest, i, j);
    } else {
        let m = lemma_failing_from(world, changes, rest, i);
        assert(rest[m] == entries[m]);
        assert(paths::path_before(entries[m].path@, entries[entries.len() - 1].path@));
    }
}

proof fn lemma_failing(
    world: World,
    changes: Seq<Change>,
    projects: PathMap<ProjectState>,
    failures: Seq<RefreshFailure>,
)
    requires
        projects.wf(),
        failures_view(failures) == failing(world, changes, projects.entries()),
    ensures
        are_failures(world, changes, projects_of(projects), failures),
{
    projects.lemma_contents();
    projects.lemma_entries();
    let entries = projects.entries();
    let views = projects_of(projects);
    let found = failing(world, changes, entries);
    assert(failures_view(failures).len() == failures.len());
    assert forall|i: int| 0 <= i < failures.len() implies (#[trigger] failures[i]).root@
        == found[i].0 && failures[i].error@ == found[i].1 by {
        assert(failures_view(failures)[i] == found[i]);
    }
    assert forall|i: int, j: int| 0 <= i < j < failures.len() implies paths::path_before(
        (#[trigger] failures[i]).root@,
        (#[trigger] failures[j]).root@,
    ) by {
        lemma_failing_order(world, changes, entries, i, j);
    }
    assert forall|i: int| 0 <= i < failures.len() implies views.contains_key(
        (#[trigger] failures[i]).root@,
    ) && follow_failure(world, changes, views[failures[i].root@]) == Some(
        failures[i].error@,
    ) by {
        let m = lemma_failing_from(world, changes, entries, i);
        assert(projects@[entries[m].path@] == entries[m].value);
    }
    assert forall|root: Seq<Seq<char>>| #[trigger]
        views.contains_key(root) && follow_failure(world, changes, views[root]) is Some implies exists|
        i: int,
    | 0 <= i < failures.len() && (#[trigger] failures[i]).root@ == root by {
        assert(projects@.contains_key(root));
        let m = choose|m: int| 0 <= m < entries.len() && (#[trigger] entries[m]).path@ == root;
        assert(projects@[root] == entries[m].value);
        let i = lemma_failing_to(world, changes, entries, m);
        assert(failures[i].root@ == root);
    }
}

/// Changes as values.
pub open spec fn changes_of(changes: Seq<ChangeEvent>) -> Seq<Change> {
    Seq::new(changes.len(), |i: int| changes[i]@)
}

/// Looks up the sources of an active project again.
fn refresh_active(world: &World, active: &mut ActiveChalkProject) -> (failure: Option<
    ChalkProjectError,
>)
    requires
        world.wf(),
        old(active).wf(world.files),
    ensures
        final(active).wf(world.files),
        final(active)@ == refreshed(*world, old(active)@),
        match (failure, refresh_failure(*world, old(active)@)) {
            (Some(error), Some(expected)) => error@ == expected,
            (None, None) => true,
            _ => false,
        },
{
    let path = active.project().config_path.copied();
    let config = world.find_config(&path);
    match active.refresh(&world.files, &world.system, config) {
        Ok(_) => None,
        Err(error) => Some(error),
    }
}

/// Whether one of some changes can change the sources of a project.
fn is_affected(active: &ActiveChalkProject, changes: &Vec<ChangeEvent>) -> (found: bool)
    ensures
        found == affected(active@, changes_of(changes@)),
{
    let mut i: usize = 0;
    while i < changes.len()
        invariant
            i <= changes@.len(),
            forall|k: int|
                0 <= k < i ==> !active_project::affects_sources(
                    active@.root,
                    active@.config_path,
                    active@.ignore_path,
                    #[trigger] changes_of(changes@)[k],
                ),
        decreases changes@.len() - i,
    {
        if active.should_refresh(&changes[i]) {
            assert(active_project::affects_sources(
                active@.root,
                active@.config_path,
                active@.ignore_path,
                changes_of(changes@)[i as int],
            ));
            return true;
        }
        i += 1;
    }
    false
}

/// Lets a project follow changes.
fn apply_changes_to_project(world: &World, changes: &Vec<ChangeEvent>, state: &mut ProjectState) -> (
    failure: Option<ChalkProjectError>)
    requires
        world.wf(),
        old(state).wf(world.files),
    ensures
        final(state).wf(world.files),
        final(state)@ == followed(*world, changes_of(changes@), old(state)@),
        match (failure, follow_failure(*world, changes_of(changes@), old(state)@)) {
            (Some(error), Some(expected)) => error@ == expected,
            (None, None) => true,
            _ => false,
        },
{
    match &mut state.chalk_project {
        Some(active) => if is_affected(active, changes) {
            refresh_active(world, active)
        } else {
            None
        },
        None => None,
    }
}

/// Lets every project follow changes; gives why those failed that did, in order.
fn apply_changes_to_projects(
    world: &World,
    changes: &Vec<ChangeEvent>,
    projects: &mut PathMap<ProjectState>,
) -> (failures: Vec<RefreshFailure>)
    requires
        world.wf(),
        projects_wf(*old(projects), world.files),
    ensures
        projects_wf(*final(projects), world.files),
        projects_of(*final(projects)) == projects_of(*old(projects)).map_values(
            following(*world, changes_of(changes@)),
        ),
        final(projects).entries().len() == old(projects).entries().len(),
        are_failures(*world, changes_of(changes@), projects_of(*old(projects)), failures@),
{
    let ghost start = *projects;
    let ghost follow = following(*world, changes_of(changes@));
    let mut failures: Vec<RefreshFailure> = Vec::new();
    let mut i: usize = 0;
    proof {
        projects.lemma_contents();
        assert(start.entries().take(0) =~= Seq::empty());
        assert(failures_view(failures@) =~= Seq::empty());
    }
    while i < projects.len()
        invariant
            world.wf(),
            failures_view(failures@) == failing(
                *world,
                changes_of(changes@),
                start.entries().take(i as int),
            ),
            projects_wf(start, world.files),
            follow == following(*world, changes_of(changes@)),
            start == *old(projects),
            i <= projects.entries().len(),
            projects.entries().len() == start.entries().len(),
            forall|k: int|
                0 <= k < start.entries().len() ==> (#[trigger] start.entries()[k]).value.wf(
                    world.files,
                ),
            forall|k: int|
                0 <= k < start.entries().len() ==> (#[trigger] projects.entries()[k]).path
                    == start.entries()[k].path,
            forall|k: int|
                0 <= k < i ==> (#[trigger] projects.entries()[k]).value@ == followed(
                    *world,
                    changes_of(changes@),
                    start.entries()[k].value@,
                ) && projects.entries()[k].value.wf(world.files),
            forall|k: int|
                i <= k < start.entries().len() ==> (#[trigger] projects.entries()[k])
                    == start.entries()[k],
        decreases start.entries().len() - i,
    {
        let ghost before = projects.entries();
        let ghost known = failures_view(failures@);
        proof {
            assert(before[i as int] == start.entries()[i as int]);
            assert(start.entries().take(i as int + 1).drop_last() =~= start.entries().take(
                i as int,
            ));
            assert(start.entries().take(i as int + 1).last() == start.entries()[i as int]);
        }
        let root = projects.at(i).path.copied();
        let state = projects.value_mut(i);
        match apply_changes_to_project(world, changes, state) {
            Some(error) => {
                let ghost own = (root@, error@);
                failures.push(RefreshFailure { root, error });
                assert(failures_view(failures@) =~= known.push(own));
            },
            None => {},
        }
        proof {
            assert forall|k: int| 0 <= k < start.entries().len() implies (
            #[trigger] projects.entries()[k]).path == start.entries()[k].path by {
                if k != i {
                    assert(projects.entries()[k] == before[k]);
                }
            }
        }
        i += 1;
    }
    proof {
        start.lemma_same_paths(projects);
        path_map::lemma_related(start, *projects, ProjectState::viewed(), follow);
        projects.lemma_contents();
        assert forall|root: Seq<Seq<char>>| #[trigger]
            projects@.contains_key(root) implies projects@[root].wf(world.files) by {
            let k = choose|k: int|
                0 <= k < projects.entries().len() && (
                #[trigger] projects.entries()[k]).path@ == root;
            assert(projects.entries()[k].value.wf(world.files));
        }
        assert(start.entries().take(i as int) =~= start.entries());
        lemma_failing(*world, changes_of(changes@), start, failures@);
    }
    failures
}

// ---------------------------------------------------------------------------------------------
// Documents
// ---------------------------------------------------------------------------------------------

/// The language of a document, as the client says.
#[derive(Clone, Copy, Debug, PartialEq, Eq, Structural)]
pub enum LanguageId {
    Python,
    Other,
}

/// The kind of a document.
#[derive(Clone, Copy, Debug, PartialEq, Eq, Structural)]
pub enum DocumentKind {
    Text,
    Notebook,
    Cell,
}

/// An open document. A cell lies where its notebook does.
#[derive(Debug)]
pub struct DocumentHandle {
    pub uri: String,
    pub path: AnySystemPath,
    pub kind: DocumentKind,
    /// The language, for a text.
    pub language: Option<LanguageId>,
    /// Whether the extension of the file alone tells the type checker that it is a source.
    pub is_source_by_name: bool,
}

/// An open document.
pub struct Document {
    pub uri: Seq<char>,
    pub place: Place,
    pub kind: DocumentKind,
    pub language: Option<LanguageId>,
    pub is_source_by_name: bool,
}

impl View for DocumentHandle {
    type V = Document;

    open spec fn view(&self) -> Document {
        Document {
            uri: self.uri@,
            place: self.path@,
            kind: self.kind,
            language: self.language,
            is_source_by_name: self.is_source_by_name,
        }
    }
}

/// Documents as values.
pub open spec fn documents_of(handles: Seq<DocumentHandle>) -> Seq<Document> {
    Seq::new(handles.len(), |i: int| handles[i]@)
}

impl DocumentHandle {
    /// The client's name of the document.
    pub fn uri(&self) -> (uri: &str)
        ensures
            uri@ == self@.uri,
    {
        self.uri.as_str()
    }

    /// Where the file of the document lies.
    pub fn notebook_or_file_path(&self) -> (path: &AnySystemPath)
        ensures
            path@ == self@.place,
            *path == self.path,
    {
        &self.path
    }

    /// Whether the document is a cell of a notebook.
    pub fn is_cell(&self) -> (found: bool)
        ensures
            found == (self@.kind == DocumentKind::Cell),
    {
        self.kind == DocumentKind::Cell
    }

    /// Whether the document is a notebook or a cell of one.
    pub fn is_cell_or_notebook(&self) -> (found: bool)
        ensures
            found == (self@.kind != DocumentKind::Text),
    {
        self.kind != DocumentKind::Text
    }
}

/// Whether a document is a SQL source.
pub open spec fn is_sql(place: Place) -> bool {
    place matches Place::System(path) && active_project::is_sql_path(path)
}

/// Whether a document is one of another language that is no source of features either.
pub open spec fn is_foreign(place: Place, language: Option<LanguageId>) -> bool {
    language == Some(LanguageId::Other) && !is_sql(place)
}

/// Whether a path is that of a SQL source.
fn is_chalk_sql_path(path: &SystemPath) -> (found: bool)
    ensures
        found == active_project::is_sql_path(path@),
{
    match path.file_name() {
        Some(name) => text::has_suffix(name, ".chalk.sql"),
        None => false,
    }
}

/// A document that goes over to a feature project, and the project that it comes from.
#[derive(Debug)]
pub struct MigratedDocument {
    pub from: SystemPath,
    pub path: SystemPath,
    pub uri: String,
    pub is_python: bool,
}

/// A document that goes over to a feature project.
pub struct Migrated {
    pub from: Seq<Seq<char>>,
    pub path: Seq<Seq<char>>,
    pub uri: Seq<char>,
    pub is_python: bool,
}

/// Documents that go over, as values.
pub open spec fn migrated_view(documents: Seq<MigratedDocument>) -> Seq<Migrated> {
    Seq::new(
        documents.len(),
        |i: int|
            Migrated {
                from: documents[i].from@,
                path: documents[i].path@,
                uri: documents[i].uri@,
                is_python: documents[i].is_python,
            },
    )
}

/// The document that goes over to a feature project in a directory, if an open document does: a file
/// in it that a workspace has so far.
pub open spec fn migration(
    projects: Map<Seq<Seq<char>>, Project>,
    document: Document,
    root: Seq<Seq<char>>,
) -> Option<Migrated> {
    match document.place {
        Place::System(path) => if document.kind != DocumentKind::Cell && !is_foreign(
            document.place,
            document.language,
        ) && paths::lies_in(path, root) {
            match routed(projects, path) {
                Some(from) => if projects[from].kind == ProjectKind::Chalk {
                    None
                } else {
                    Some(
                        Migrated {
                            from,
                            path,
                            uri: document.uri,
                            is_python: document.language != Some(LanguageId::Other),
                        },
                    )
                },
                None => None,
            }
        } else {
            None
        },
        Place::Virtual(_) => None,
    }
}

/// The documents that go over to a feature project in a directory.
pub open spec fn migrating(
    projects: Map<Seq<Seq<char>>, Project>,
    documents: Seq<Document>,
    root: Seq<Seq<char>>,
) -> Seq<Migrated>
    decreases documents.len(),
{
    if documents.len() == 0 {
        Seq::empty()
    } else {
        let before = migrating(projects, documents.drop_last(), root);
        match migration(projects, documents.last(), root) {
            Some(migrated) => before.push(migrated),
            None => before,
        }
    }
}

/// Whether the paths of documents that go over are paths.
pub open spec fn migrated_wf(documents: Seq<MigratedDocument>) -> bool {
    forall|i: int|
        0 <= i < documents.len() ==> (#[trigger] documents[i]).from.wf() && documents[i].path.wf()
}

/// Finds the document that goes over, if an open document does.
fn find_migration(
    projects: &PathMap<ProjectState>,
    document: &DocumentHandle,
    root: &SystemPath,
) -> (found: Option<MigratedDocument>)
    requires
        projects.wf(),
        document.path.wf(),
    ensures
        match (found, migration(projects_of(*projects), document@, root@)) {
            (Some(found), Some(expected)) => {
                &&& found.from@ == expected.from
                &&& found.path@ == expected.path
                &&& found.uri@ == expected.uri
                &&& found.is_python == expected.is_python
                &&& found.from.wf()
                &&& found.path.wf()
            },
            (None, None) => true,
            _ => false,
        },
{
    let path = match &document.path {
        AnySystemPath::System(path) => path,
        AnySystemPath::Virtual(_) => {
            return None;
        },
    };
    let is_python = document.language != Some(LanguageId::Other);
    if document.kind == DocumentKind::Cell || (!is_python && !is_chalk_sql_path(path))
        || !path.starts_with(root) {
        return None;
    }
    proof {
        lemma_routed(projects_of(*projects), path@);
    }
    match project_root_for_path(projects, path) {
        Some(from) => {
            let kind = match projects.get(&from) {
                Some(state) => state.kind,
                None => ProjectKind::Workspace,
            };
            if kind == ProjectKind::Chalk {
                None
            } else {
                Some(
                    MigratedDocument {
                        from,
                        path: path.copied(),
                        uri: document.uri.clone(),
                        is_python,
                    },
                )
            }
        },
        None => None,
    }
}

/// Finds the documents that go over to a feature project in a directory.
fn open_documents_migrating_to(
    projects: &PathMap<ProjectState>,
    documents: &Vec<DocumentHandle>,
    root: &SystemPath,
) -> (found: Vec<MigratedDocument>)
    requires
        projects.wf(),
        forall|i: int| 0 <= i < documents@.len() ==> (#[trigger] documents@[i]).path.wf(),
    ensures
        migrated_view(found@) == migrating(
            projects_of(*projects),
            documents_of(documents@),
            root@,
        ),
        migrated_wf(found@),
{
    let ghost all = documents_of(documents@);
    let mut found: Vec<MigratedDocument> = Vec::new();
    let mut i: usize = 0;
    assert(all.take(0) =~= Seq::empty());
    assert(migrated_view(found@) =~= Seq::empty());
    while i < documents.len()
        invariant
            projects.wf(),
            i <= documents@.len(),
            all == documents_of(documents@),
            forall|k: int| 0 <= k < documents@.len() ==> (#[trigger] documents@[k]).path.wf(),
            migrated_view(found@) == migrating(
                projects_of(*projects),
                all.take(i as int),
                root@,
            ),
            migrated_wf(found@),
        decreases documents@.len() - i,
    {
        let ghost before = found@;
        assert(documents@[i as int].path.wf());
        assert(all.take(i as int + 1).drop_last() =~= all.take(i as int));
        assert(all.take(i as int + 1).last() == documents@[i as int]@);
        if let Some(migrated) = find_migration(projects, &documents[i], root) {
            let ghost own = Migrated {
                from: migrated.from@,
                path: migrated.path@,
                uri: migrated.uri@,
                is_python: migrated.is_python,
            };
            found.push(migrated);
            assert(migrated_view(found@) =~= migrated_view(before).push(own));
            assert forall|k: int| 0 <= k < found@.len() implies (#[trigger] found@[k]).from.wf()
                && found@[k].path.wf() by {
                if k < before.len() {
                    assert(found@[k] == before[k]);
                }
            }
        }
        i += 1;
    }
    assert(all.take(i as int) =~= all);
    found
}

/// An active project with documents opened that are files.
pub open spec fn with_opened(world: World, active: Active, documents: Seq<Migrated>) -> Active
    decreases documents.len(),
{
    if documents.len() == 0 {
        active
    } else {
        let before = with_opened(world, active, documents.drop_last());
        match world.existing(documents.last().path) {
            Some(file) => active_project::opened(world.files, before, file),
            None => before,
        }
    }
}

/// A project made active with documents open in it, or why it cannot be.
pub open spec fn activated(
    world: World,
    root: Seq<Seq<char>>,
    config_path: Seq<Seq<char>>,
    documents: Seq<Migrated>,
) -> Result<Active, Failure> {
    let config = world.config(config_path);
    match active_project::active_sources(
        world.files,
        world.system,
        (root, config_path),
        config,
        Seq::empty(),
    ) {
        Err(failure) => Err(failure),
        Ok(sources) => {
            let active = with_opened(
                world,
                Active {
                    root,
                    config_path,
                    sources,
                    ignore_path: project::ignore_path(
                        world.system,
                        root,
                        config_path,
                        config,
                    )->Ok_0,
                    open: Seq::empty(),
                },
                documents,
            );
            match refresh_failure(world, active) {
                Some(failure) => Err(failure),
                None => Ok(refreshed(world, active)),
            }
        },
    }
}

/// Opening documents changes nothing but what is open.
proof fn lemma_with_opened(world: World, active: Active, documents: Seq<Migrated>)
    ensures
        with_opened(world, active, documents).root == active.root,
        with_opened(world, active, documents).config_path == active.config_path,
    decreases documents.len(),
{
    if documents.len() > 0 {
        lemma_with_opened(world, active, documents.drop_last());
    }
}

/// Makes a project active, with documents open in it.
fn activate_chalk_project(
    world: &World,
    chalk_project: ChalkProject,
    documents: &Vec<MigratedDocument>,
) -> (result: Result<ActiveChalkProject, ChalkProjectError>)
    requires
        world.wf(),
        chalk_project.wf(),
        migrated_wf(documents@),
    ensures
        match (
            result,
            activated(
                *world,
                chalk_project.root@,
                chalk_project.config_path@,
                migrated_view(documents@),
            ),
        ) {
            (Ok(active), Ok(expected)) => active@ == expected && active.wf(world.files),
            (Err(error), Err(failure)) => error@ == failure,
            _ => false,
        },
{
    let ghost all = migrated_view(documents@);
    let config = world.find_config(&chalk_project.config_path);
    let mut active = match ActiveChalkProject::new(
        &world.files,
        &world.system,
        chalk_project,
        config,
    ) {
        Ok(active) => active,
        Err(error) => {
            return Err(error);
        },
    };
    let ghost start = active@;
    let mut i: usize = 0;
    assert(all.take(0) =~= Seq::empty());
    while i < documents.len()
        invariant
            world.wf(),
            i <= documents@.len(),
            all == migrated_view(documents@),
            active.wf(world.files),
            active@ == with_opened(*world, start, all.take(i as int)),
        decreases documents@.len() - i,
    {
        assert(all.take(i as int + 1).drop_last() =~= all.take(i as int));
        assert(all.take(i as int + 1).last() == all[i as int]);
        if let Some(file) = world.find_existing(&documents[i].path) {
            active.open_source(&world.files, file);
        }
        i += 1;
    }
    assert(all.take(i as int) =~= all);
    proof {
        lemma_with_opened(*world, start, all);
    }
    match refresh_active(world, &mut active) {
        Some(error) => Err(error),
        None => Ok(active),
    }
}

// ---------------------------------------------------------------------------------------------
// Open files
// ---------------------------------------------------------------------------------------------

/// Open files with one more.
pub open spec fn with_place(open: Seq<Place>, place: Place) -> Seq<Place> {
    if open.contains(place) {
        open
    } else {
        open.push(place)
    }
}

/// Whether a place is another one.
pub open spec fn is_elsewhere(place: Place) -> spec_fn(Place) -> bool {
    |other: Place| other != place
}

/// Open files without one.
pub open spec fn without_place(open: Seq<Place>, place: Place) -> Seq<Place> {
    open.filter(is_elsewhere(place))
}

/// Opens a file.
fn open_file(open: &mut Vec<AnySystemPath>, place: &AnySystemPath)
    ensures
        places(final(open)@) == with_place(places(old(open)@), place@),
{
    let ghost before = places(open@);
    let mut i: usize = 0;
    while i < open.len()
        invariant
            i <= open@.len(),
            *open == *old(open),
            before == places(open@),
            forall|k: int| 0 <= k < i ==> before[k] != place@,
        decreases open@.len() - i,
    {
        if open[i].same_as(place) {
            assert(before[i as int] == place@);
            return ;
        }
        i += 1;
    }
    open.push(place.copied());
    assert(places(open@) =~= before.push(place@));
}

/// Closes a file.
fn close_file(open: &mut Vec<AnySystemPath>, place: &AnySystemPath)
    ensures
        places(final(open)@) == without_place(places(old(open)@), place@),
{
    let ghost all = places(open@);
    let ghost wanted = is_elsewhere(place@);
    let mut rest: Vec<AnySystemPath> = Vec::new();
    let mut i: usize = 0;
    proof {
        reveal(Seq::filter);
        assert(all.take(0) =~= Seq::empty());
        assert(places(rest@) =~= Seq::empty());
    }
    while i < open.len()
        invariant
            i <= open@.len(),
            *open == *old(open),
            all == places(open@),
            wanted == is_elsewhere(place@),
            places(rest@) == all.take(i as int).filter(wanted),
        decreases open@.len() - i,
    {
        let ghost before = places(rest@);
        proof {
            reveal(Seq::filter);
            assert(all.take(i as int + 1).drop_last() =~= all.take(i as int));
            assert(all.take(i as int + 1).last() == all[i as int]);
        }
        if !open[i].same_as(place) {
            rest.push(open[i].copied());
            assert(places(rest@) =~= before.push(all[i as int]));
        }
        i += 1;
    }
    assert(all.take(i as int) =~= all);
    *open = rest;
}

/// Projects with documents that go over closed in the ones that they come from.
pub open spec fn moved_out(
    projects: Map<Seq<Seq<char>>, Project>,
    documents: Seq<Migrated>,
) -> Map<Seq<Seq<char>>, Project>
    decreases documents.len(),
{
    if documents.len() == 0 {
        projects
    } else {
        let before = moved_out(projects, documents.drop_last());
        let document = documents.last();
        if document.is_python && before.contains_key(document.from) {
            before.insert(
                document.from,
                Project {
                    open_files: without_place(
                        before[document.from].open_files,
                        Place::System(document.path),
                    ),
                    ..before[document.from]
                },
            )
        } else {
            before
        }
    }
}

/// The documents that go over and are open in the new project: those that are files and not excluded
/// from it, except the one that is opened just now.
pub open spec fn moved_in(
    world: World,
    root: Seq<Seq<char>>,
    uri: Seq<char>,
    documents: Seq<Migrated>,
) -> Seq<Place>
    decreases documents.len(),
{
    if documents.len() == 0 {
        Seq::empty()
    } else {
        let before = moved_in(world, root, uri, documents.drop_last());
        let document = documents.last();
        if document.is_python && document.uri != uri && world.existing(document.path) is Some
            && !world.excludes(root, document.path) {
            with_place(before, Place::System(document.path))
        } else {
            before
        }
    }
}

/// Changes the state of a project in place.
proof fn lemma_project_changed(
    before: PathMap<ProjectState>,
    after: PathMap<ProjectState>,
    at: int,
    state: ProjectState,
    files: Files,
)
    requires
        projects_wf(before, files),
        0 <= at < before.entries().len(),
        after.entries() == before.entries().update(
            at,
            PathEntry { path: before.entries()[at].path, value: state },
        ),
        state.wf(files),
    ensures
        projects_wf(after, files),
        projects_of(after) == projects_of(before).insert(before.entries()[at].path@, state@),
        projects_of(before).contains_key(before.entries()[at].path@),
        projects_of(before)[before.entries()[at].path@] == before.entries()[at].value@,
{
    path_map::lemma_updated(before, after, at, state);
    lemma_projects_insert(before@, before.entries()[at].path@, state);
    before.lemma_contents();
}

/// Closes documents that go over in the projects that they come from.
fn move_out(projects: &mut PathMap<ProjectState>, documents: &Vec<MigratedDocument>, Ghost(files): Ghost<
    Files,
>)
    requires
        projects_wf(*old(projects), files),
        migrated_wf(documents@),
    ensures
        projects_wf(*final(projects), files),
        projects_of(*final(projects)) == moved_out(
            projects_of(*old(projects)),
            migrated_view(documents@),
        ),
{
    let ghost all = migrated_view(documents@);
    let ghost start = projects_of(*projects);
    let mut i: usize = 0;
    assert(all.take(0) =~= Seq::empty());
    while i < documents.len()
        invariant
            i <= documents@.len(),
            all == migrated_view(documents@),
            migrated_wf(documents@),
            projects_wf(*projects, files),
            projects_of(*projects) == moved_out(start, all.take(i as int)),
        decreases documents@.len() - i,
    {
        let document = &documents[i];
        let ghost before = *projects;
        proof {
            assert(all.take(i as int + 1).drop_last() =~= all.take(i as int));
            assert(all.take(i as int + 1).last() == all[i as int]);
            assert(document.path.wf());
            before.lemma_contents();
        }
        if document.is_python {
            if let Some(index) = projects.place(&document.from) {
                let place = AnySystemPath::System(document.path.copied());
                let state = projects.value_mut(index);
                close_file(&mut state.open_files, &place);
                proof {
                    let now = projects.entries()[index as int].value;
                    let was = before.entries()[index as int].value;
                    assert(was.wf(files));
                    lemma_project_changed(before, *projects, index as int, now, files);
                    assert(now@ =~= Project {
                        open_files: without_place(was@.open_files, Place::System(document.path@)),
                        ..was@
                    });
                }
            }
        }
        i += 1;
    }
    assert(all.take(i as int) =~= all);
}

/// Finds the documents that go over and are open in the new project.
fn move_in(world: &World, root: &SystemPath, uri: &str, documents: &Vec<MigratedDocument>) -> (open:
    Vec<AnySystemPath>)
    ensures
        places(open@) == moved_in(*world, root@, uri@, migrated_view(documents@)),
{
    let ghost all = migrated_view(documents@);
    let mut open: Vec<AnySystemPath> = Vec::new();
    let mut i: usize = 0;
    assert(all.take(0) =~= Seq::empty());
    assert(places(open@) =~= Seq::empty());
    while i < documents.len()
        invariant
            i <= documents@.len(),
            all == migrated_view(documents@),
            places(open@) == moved_in(*world, root@, uri@, all.take(i as int)),
        decreases documents@.len() - i,
    {
        let document = &documents[i];
        assert(all.take(i as int + 1).drop_last() =~= all.take(i as int));
        assert(all.take(i as int + 1).last() == all[i as int]);
        if document.is_python && !text::same_text(document.uri.as_str(), uri)
            && world.find_existing(&document.path).is_some() && !world.is_excluded(
            root,
            &document.path,
        ) {
            let place = AnySystemPath::System(document.path.copied());
            open_file(&mut open, &place);
        }
        i += 1;
    }
    assert(all.take(i as int) =~= all);
    open
}

// ---------------------------------------------------------------------------------------------
// Sessions
// ---------------------------------------------------------------------------------------------

/// The state of a language server.
#[derive(Debug)]
pub struct Session<S> {
    pub workspaces: Workspaces<S>,
    /// The projects by the directory that paths are routed to them by.
    pub projects: PathMap<ProjectState>,
    pub documents: Vec<DocumentHandle>,
    pub registrations: Registrations,
    pub capabilities: ClientCapabilities,
    pub diagnostic_mode: DiagnosticMode,
    /// Goes up with every change that can change diagnostics.
    pub revision: u64,
}

/// How documents are routed.
#[verifier::ext_equal]
pub struct Routes {
    pub projects: Map<Seq<Seq<char>>, Project>,
    /// Whether what is to be watched has changed.
    pub needs_refresh: bool,
}

/// The routes once the feature project that a document lies in is there, and why it cannot be. A
/// document that is routed to a feature project stays there, whatever becomes of its configuration
/// file. A workspace project at the root becomes the feature project; else a new one is made and
/// takes the open documents that lie in it.
pub open spec fn ensured(
    world: World,
    folders: Set<Seq<Seq<char>>>,
    documents: Seq<Document>,
    routes: Routes,
    uri: Seq<char>,
    place: Place,
    language: Option<LanguageId>,
) -> (Routes, Option<Failure>) {
    match place {
        Place::Virtual(_) => (routes, None),
        Place::System(path) => if is_foreign(place, language) || (routed(
            routes.projects,
            path,
        ) matches Some(own) && routes.projects[own].kind == ProjectKind::Chalk) {
            (routes, None)
        } else {
            match project::discovered(world.system, path) {
                None => (routes, None),
                Some((root, config_path)) => if routes.projects.contains_key(root)
                    && routes.projects[root].kind == ProjectKind::Chalk {
                    (routes, None)
                } else {
                    let migrated = migrating(routes.projects, documents, root);
                    match activated(world, root, config_path, migrated) {
                        Err(failure) => (routes, Some(failure)),
                        Ok(active) => (
                            Routes {
                                projects: if routes.projects.contains_key(root) {
                                    routes.projects.insert(
                                        root,
                                        Project {
                                            kind: ProjectKind::Chalk,
                                            active: Some(active),
                                            ..routes.projects[root]
                                        },
                                    )
                                } else {
                                    moved_out(routes.projects, migrated).insert(
                                        root,
                                        Project {
                                            kind: ProjectKind::Chalk,
                                            workspace_root: workspaces::innermost(folders, path),
                                            untracked: Seq::empty(),
                                            active: Some(active),
                                            open_files: moved_in(world, root, uri, migrated),
                                        },
                                    )
                                },
                                needs_refresh: true,
                            },
                            None,
                        ),
                    }
                },
            }
        },
    }
}

/// The folders that a session starts with, or why it cannot start.
pub open spec fn starting_folders<S>(folders: Seq<(String, FolderPath)>) -> Result<
    Map<Seq<Seq<char>>, Workspace<S>>,
    FolderError,
>
    decreases folders.len(),
{
    if folders.len() == 0 {
        Ok(Map::empty())
    } else {
        match starting_folders(folders.drop_last()) {
            Err(error) => Err(error),
            Ok(before) => match folders.last().1 {
                FolderPath::NotFile => Err(FolderError::NotFile),
                FolderPath::NotText => Err(FolderError::NotText),
                FolderPath::Path(path) => if before.contains_key(path@) {
                    Ok(before)
                } else {
                    Ok(
                        before.insert(
                            path@,
                            Workspace { uri: folders.last().0, settings: None, initialized: false },
                        ),
                    )
                },
            },
        }
    }
}

proof fn lemma_cannot_start<S>(folders: Seq<(String, FolderPath)>, at: int)
    requires
        0 <= at <= folders.len(),
        starting_folders::<S>(folders.take(at)) is Err,
    ensures
        starting_folders::<S>(folders) == starting_folders::<S>(folders.take(at)),
    decreases folders.len() - at,
{
    if at < folders.len() {
        assert(folders.take(at + 1).drop_last() =~= folders.take(at));
        lemma_cannot_start::<S>(folders, at + 1);
    } else {
        assert(folders.take(at) =~= folders);
    }
}

impl<S> Session<S> {
    /// Starts a session with workspace folders that wait for their settings.
    pub fn new(
        folders: &Vec<(String, FolderPath)>,
        capabilities: ClientCapabilities,
        diagnostic_mode: DiagnosticMode,
    ) -> (result: Result<Self, FolderError>)
        requires
            forall|i: int| 0 <= i < folders@.len() ==> (#[trigger] folders@[i]).1.wf(),
        ensures
            match (result, starting_folders::<S>(folders@)) {
                (Ok(session), Ok(expected)) => {
                    &&& forall|files: Files| #[trigger] session.wf(files)
                    &&& session.workspaces.folders@ == expected
                    &&& session.routes().projects == Map::<Seq<Seq<char>>, Project>::empty()
                    &&& session.documents@.len() == 0
                    &&& session.registrations == (Registrations {
                        diagnostics: false,
                        file_watching: false,
                        needs_refresh: false,
                    })
                    &&& session.capabilities == capabilities
                    &&& session.diagnostic_mode == diagnostic_mode
                    &&& session.revision == 0
                },
                (Err(error), Err(expected)) => error == expected,
                _ => false,
            },
    {
        let mut workspaces: Workspaces<S> = Workspaces::new();
        let mut i: usize = 0;
        assert(folders@.take(0) =~= Seq::empty());
        while i < folders.len()
            invariant
                i <= folders@.len(),
                forall|k: int| 0 <= k < folders@.len() ==> (#[trigger] folders@[k]).1.wf(),
                workspaces.wf(),
                starting_folders::<S>(folders@.take(i as int)) == Ok::<
                    Map<Seq<Seq<char>>, Workspace<S>>,
                    FolderError,
                >(workspaces.folders@),
            decreases folders@.len() - i,
        {
            let folder = &folders[i];
            proof {
                assert(folders@[i as int].1.wf());
                assert(folders@.take(i as int + 1).drop_last() =~= folders@.take(i as int));
                assert(folders@.take(i as int + 1).last() == folders@[i as int]);
            }
            let path = match &folder.1 {
                FolderPath::NotFile => FolderPath::NotFile,
                FolderPath::NotText => FolderPath::NotText,
                FolderPath::Path(path) => FolderPath::Path(path.copied()),
            };
            match workspaces.register(folder.0.clone(), path) {
                Ok(_) => {},
                Err(error) => {
                    proof {
                        lemma_cannot_start::<S>(folders@, i as int + 1);
                    }
                    return Err(error);
                },
            }
            i += 1;
        }
        assert(folders@.take(i as int) =~= folders@);
        let session = Session {
            workspaces,
            projects: PathMap::new(),
            documents: Vec::new(),
            registrations: Registrations::new(),
            capabilities,
            diagnostic_mode,
            revision: 0,
        };
        assert(projects_of(session.projects) =~= Map::empty());
        assert forall|files: Files| #[trigger] session.wf(files) by {}
        Ok(session)
    }

    /// Whether everything in the session is well-formed.
    pub open spec fn wf(self, files: Files) -> bool {
        &&& self.workspaces.wf()
        &&& projects_wf(self.projects, files)
        &&& forall|i: int|
            0 <= i < self.documents@.len() ==> (#[trigger] self.documents@[i]).path.wf()
    }

    /// How documents are routed.
    pub open spec fn routes(self) -> Routes {
        Routes {
            projects: projects_of(self.projects),
            needs_refresh: self.registrations.needs_refresh,
        }
    }

    /// Makes sure that the feature project that a document lies in is there.
    fn ensure_chalk_project_for_document(
        &mut self,
        world: &World,
        uri: &str,
        place: &AnySystemPath,
        language: Option<LanguageId>,
    ) -> (failure: Option<ChalkProjectError>)
        requires
            world.wf(),
            old(self).wf(world.files),
            place.wf(),
        ensures
            final(self).wf(world.files),
            ({
                let (routes, expected) = ensured(
                    *world,
                    old(self).workspaces.folders@.dom(),
                    documents_of(old(self).documents@),
                    old(self).routes(),
                    uri@,
                    place@,
                    language,
                );
                &&& final(self).routes() == routes
                &&& match (failure, expected) {
                    (Some(error), Some(expected)) => error@ == expected,
                    (None, None) => true,
                    _ => false,
                }
            }),
            final(self).workspaces == old(self).workspaces,
            final(self).documents == old(self).documents,
            final(self).revision == old(self).revision,
            final(self).diagnostic_mode == old(self).diagnostic_mode,
            final(self).capabilities == old(self).capabilities,
            final(self).registrations.diagnostics == old(self).registrations.diagnostics,
            final(self).registrations.file_watching == old(self).registrations.file_watching,
            old(self).projects.entries().len() > 0 ==> final(self).projects.entries().len() > 0,
    {
        let path = match place {
            AnySystemPath::System(path) => path,
            AnySystemPath::Virtual(_) => {
                return None;
            },
        };
        if language == Some(LanguageId::Other) && !is_chalk_sql_path(path) {
            return None;
        }
        proof {
            lemma_routed(projects_of(self.projects), path@);
        }
        if let Some(own) = project_root_for_path(&self.projects, path) {
            if let Some(state) = self.projects.get(&own) {
                if state.kind == ProjectKind::Chalk {
                    return None;
                }
            }
        }
        let chalk_project = match project::discover_project_of(&world.system, path) {
            Some(chalk_project) => chalk_project,
            None => {
                return None;
            },
        };
        let root = chalk_project.root.copied();
        let index = self.projects.place(&root);
        if let Some(index) = index {
            proof {
                self.projects.lemma_contents();
            }
            if self.projects.at(index).value.kind == ProjectKind::Chalk {
                return None;
            }
        }
        let migrated = open_documents_migrating_to(&self.projects, &self.documents, &root);
        let active = match activate_chalk_project(world, chalk_project, &migrated) {
            Ok(active) => active,
            Err(error) => {
                return Some(error);
            },
        };
        let ghost before = self.projects;
        match index {
            Some(index) => {
                proof {
                    before.lemma_contents();
                }
                let ghost was = before.entries()[index as int].value;
                let ghost own = active@;
                let state = self.projects.value_mut(index);
                state.kind = ProjectKind::Chalk;
                state.chalk_project = Some(active);
                proof {
                    let now = self.projects.entries()[index as int].value;
                    assert(was.wf(world.files));
                    lemma_project_changed(
                        before,
                        self.projects,
                        index as int,
                        now,
                        world.files,
                    );
                    assert(now@ =~= Project {
                        kind: ProjectKind::Chalk,
                        active: Some(own),
                        ..was@
                    });
                }
            },
            None => {
                let workspace_root = self.workspaces.root_for_path(path);
                let open_files = move_in(world, &root, uri, &migrated);
                move_out(&mut self.projects, &migrated, Ghost(world.files));
                let state = ProjectState {
                    kind: ProjectKind::Chalk,
                    workspace_root,
                    untracked: Vec::new(),
                    chalk_project: Some(active),
                    open_files,
                };
                let ghost own = state;
                let ghost moved = self.projects@;
                let ghost place_root = root@;
                assert(workspaces::names_of(state.untracked@) =~= Seq::empty());
                self.projects.insert(root, state);
                proof {
                    lemma_projects_insert(moved, place_root, own);
                    assert forall|other: Seq<Seq<char>>| #[trigger]
                        self.projects@.contains_key(other) implies self.projects@[other].wf(
                        world.files,
                    ) by {
                        if other != place_root {
                            assert(moved.contains_key(other));
                        }
                    }
                    self.projects.lemma_contents();
                    assert(self.projects@.contains_key(place_root));
                }
            },
        }
        self.registrations.needs_refresh = true;
        None
    }
}

// ---------------------------------------------------------------------------------------------
// Opening
// ---------------------------------------------------------------------------------------------

/// Whether a document has another name.
pub open spec fn has_other_name(uri: Seq<char>) -> spec_fn(Document) -> bool {
    |document: Document| document.uri != uri
}

/// Open documents without the one of a name.
pub open spec fn without_document(documents: Seq<Document>, uri: Seq<char>) -> Seq<Document> {
    documents.filter(has_other_name(uri))
}

/// The event of a document that is opened: one that the file system may not have is a new file.
pub open spec fn opening(path: Seq<Seq<char>>, is_new: bool) -> Change {
    if is_new {
        Change::Created(path)
    } else {
        Change::Opened(path)
    }
}

/// Projects with a file of a document that is opened kept in the feature project that it belongs to.
pub open spec fn kept_open(
    world: World,
    projects: Map<Seq<Seq<char>>, Project>,
    path: Seq<Seq<char>>,
) -> Map<Seq<Seq<char>>, Project> {
    let own = owner(projects, Place::System(path));
    match (world.existing(path), projects[own].active) {
        (Some(file), Some(active)) => projects.insert(
            own,
            Project {
                active: Some(active_project::opened(world.files, active, file)),
                ..projects[own]
            },
        ),
        _ => projects,
    }
}

/// Projects with a file open in the one that it belongs to, unless it is excluded from it.
pub open spec fn opened_in_owner(
    world: World,
    projects: Map<Seq<Seq<char>>, Project>,
    path: Seq<Seq<char>>,
) -> Map<Seq<Seq<char>>, Project> {
    let own = owner(projects, Place::System(path));
    if world.existing(path) is Some && !world.excludes(own, path) {
        projects.insert(
            own,
            Project {
                open_files: with_place(projects[own].open_files, Place::System(path)),
                ..projects[own]
            },
        )
    } else {
        projects
    }
}

/// Projects with a document opened, after every project has seen the event of it.
pub open spec fn opened_in(
    world: World,
    projects: Map<Seq<Seq<char>>, Project>,
    place: Place,
    language: Option<LanguageId>,
    is_new: bool,
) -> Map<Seq<Seq<char>>, Project> {
    match place {
        Place::System(path) => {
            let seen = kept_open(world, projects, path).map_values(
                following(world, seq![opening(path, is_new)]),
            );
            if language == Some(LanguageId::Other) {
                seen
            } else {
                opened_in_owner(world, seen, path)
            }
        },
        Place::Virtual(_) => if language == Some(LanguageId::Other) {
            projects
        } else {
            let own = owner(projects, place);
            projects.insert(
                own,
                Project {
                    open_files: with_place(projects[own].open_files, place),
                    ..projects[own]
                },
            )
        },
    }
}

/// Whether failures are those of the projects that cannot follow that a document is opened.
pub open spec fn are_open_failures(
    world: World,
    projects: Map<Seq<Seq<char>>, Project>,
    place: Place,
    is_new: bool,
    failures: Seq<RefreshFailure>,
) -> bool {
    match place {
        Place::System(path) => are_failures(
            world,
            seq![opening(path, is_new)],
            kept_open(world, projects, path),
            failures,
        ),
        Place::Virtual(_) => failures.len() == 0,
    }
}

/// By how much opening a document raises the revision.
pub open spec fn open_steps(place: Place, language: Option<LanguageId>) -> int {
    let is_other = language == Some(LanguageId::Other);
    match place {
        Place::System(_) => if is_other {
            1
        } else {
            2
        },
        Place::Virtual(_) => if is_other {
            0
        } else {
            1
        },
    }
}

/// Keeps the file of a document that is opened in the feature project that it belongs to.
fn keep_open(world: &World, projects: &mut PathMap<ProjectState>, path: &SystemPath)
    requires
        world.wf(),
        projects_wf(*old(projects), world.files),
        old(projects).entries().len() > 0,
        path.wf(),
    ensures
        projects_wf(*final(projects), world.files),
        projects_of(*final(projects)) == kept_open(*world, projects_of(*old(projects)), path@),
        final(projects).entries().len() == old(projects).entries().len(),
{
    let place = AnySystemPath::System(path.copied());
    let index = owner_place(projects, &place);
    let ghost before = *projects;
    let file = match world.find_existing(path) {
        Some(file) => file,
        None => {
            return ;
        },
    };
    proof {
        before.lemma_contents();
    }
    let ghost was = before.entries()[index as int].value;
    assert(was.wf(world.files));
    let state = projects.value_mut(index);
    if let Some(active) = &mut state.chalk_project {
        active.open_source(&world.files, file);
    }
    proof {
        let now = projects.entries()[index as int].value;
        lemma_project_changed(before, *projects, index as int, now, world.files);
        if let Some(active) = was@.active {
            assert(now@ =~= Project {
                active: Some(active_project::opened(world.files, active, file)),
                ..was@
            });
        } else {
            assert(now@ =~= was@);
            assert(projects_of(*projects) =~= projects_of(before));
        }
    }
}

/// Opens a place in the project that it belongs to.
fn open_in_owner(
    projects: &mut PathMap<ProjectState>,
    index: usize,
    place: &AnySystemPath,
    Ghost(files): Ghost<Files>,
)
    requires
        projects_wf(*old(projects), files),
        index < old(projects).entries().len(),
    ensures
        projects_wf(*final(projects), files),
        projects_of(*final(projects)) == projects_of(*old(projects)).insert(
            old(projects).entries()[index as int].path@,
            Project {
                open_files: with_place(
                    old(projects).entries()[index as int].value@.open_files,
                    place@,
                ),
                ..old(projects).entries()[index as int].value@
            },
        ),
        projects_of(*old(projects)).contains_key(old(projects).entries()[index as int].path@),
        projects_of(*old(projects))[old(projects).entries()[index as int].path@] == old(
            projects,
        ).entries()[index as int].value@,
        final(projects).entries().len() == old(projects).entries().len(),
{
    let ghost before = *projects;
    proof {
        before.lemma_contents();
    }
    let ghost was = before.entries()[index as int].value;
    assert(was.wf(files));
    let state = projects.value_mut(index);
    open_file(&mut state.open_files, place);
    proof {
        let now = projects.entries()[index as int].value;
        lemma_project_changed(before, *projects, index as int, now, files);
        assert(now@ =~= Project {
            open_files: with_place(was@.open_files, place@),
            ..was@
        });
    }
}

/// What became of a document that was opened.
#[derive(Debug)]
pub struct Opened {
    /// Why the feature project that the document lies in could not be made active.
    pub failure: Option<ChalkProjectError>,
    /// Why the sources of projects could not be looked up again.
    pub refresh_failures: Vec<RefreshFailure>,
}

/// The event of a document that is opened.
fn open_event(path: &SystemPath, is_new: bool) -> (event: ChangeEvent)
    ensures
        event@ == opening(path@, is_new),
{
    if is_new {
        ChangeEvent::Created { path: path.copied() }
    } else {
        ChangeEvent::Opened(path.copied())
    }
}

impl<S> Session<S> {
    /// Lets every project follow changes. Gives why those failed that did, in order.
    pub fn apply_changes(&mut self, world: &World, changes: &Vec<ChangeEvent>) -> (failures: Vec<
        RefreshFailure,
    >)
        requires
            world.wf(),
            old(self).wf(world.files),
            old(self).revision < u64::MAX,
        ensures
            final(self).wf(world.files),
            final(self).routes() == (Routes {
                projects: old(self).routes().projects.map_values(
                    following(*world, changes_of(changes@)),
                ),
                ..old(self).routes()
            }),
            are_failures(
                *world,
                changes_of(changes@),
                old(self).routes().projects,
                failures@,
            ),
            final(self).revision == old(self).revision + 1,
            final(self).workspaces == old(self).workspaces,
            final(self).documents == old(self).documents,
            final(self).registrations == old(self).registrations,
            final(self).capabilities == old(self).capabilities,
            final(self).diagnostic_mode == old(self).diagnostic_mode,
            final(self).projects.entries().len() == old(self).projects.entries().len(),
    {
        self.revision += 1;
        apply_changes_to_projects(world, changes, &mut self.projects)
    }

    /// Forgets the open document of a name. Gives it, where there was one.
    fn take_document(&mut self, uri: &str) -> (taken: Option<DocumentHandle>)
        ensures
            documents_of(final(self).documents@) == without_document(
                documents_of(old(self).documents@),
                uri@,
            ),
            match taken {
                Some(document) => document@.uri == uri@ && old(self).documents@.contains(
                    document,
                ),
                None => forall|i: int|
                    0 <= i < old(self).documents@.len() ==> (
                    #[trigger] old(self).documents@[i]).uri@ != uri@,
            },
            forall|i: int|
                0 <= i < final(self).documents@.len() ==> old(self).documents@.contains(
                    #[trigger] final(self).documents@[i],
                ),
            final(self).projects == old(self).projects,
            final(self).workspaces == old(self).workspaces,
            final(self).registrations == old(self).registrations,
            final(self).capabilities == old(self).capabilities,
            final(self).diagnostic_mode == old(self).diagnostic_mode,
            final(self).revision == old(self).revision,
    {
        let ghost start = self.documents@;
        let ghost wanted = has_other_name(uri@);
        let mut rest: Vec<DocumentHandle> = Vec::new();
        let mut taken: Option<DocumentHandle> = None;
        let mut last_first: Vec<DocumentHandle> = Vec::new();
        while self.documents.len() > 0
            invariant
                self.documents@.len() + last_first@.len() == start.len(),
                forall|k: int|
                    0 <= k < self.documents@.len() ==> self.documents@[k] == start[k],
                forall|k: int|
                    0 <= k < last_first@.len() ==> last_first@[k] == start[start.len() - 1 - k],
                self.projects == old(self).projects,
                self.workspaces == old(self).workspaces,
                self.registrations == old(self).registrations,
                self.capabilities == old(self).capabilities,
                self.diagnostic_mode == old(self).diagnostic_mode,
                self.revision == old(self).revision,
            decreases self.documents@.len(),
        {
            match self.documents.pop() {
                Some(document) => {
                    last_first.push(document);
                },
                None => {},
            }
        }
        let ghost all = documents_of(start);
        let ghost mut at: int = 0;
        proof {
            reveal(Seq::filter);
            assert(all.take(0) =~= Seq::empty());
            assert(documents_of(rest@) =~= Seq::empty());
        }
        while last_first.len() > 0
            invariant
                all == documents_of(start),
                wanted == has_other_name(uri@),
                0 <= at <= start.len(),
                last_first@.len() == start.len() - at,
                forall|k: int|
                    0 <= k < last_first@.len() ==> last_first@[k] == start[start.len() - 1 - k],
                documents_of(rest@) == all.take(at).filter(wanted),
                forall|k: int| 0 <= k < rest@.len() ==> start.contains(#[trigger] rest@[k]),
                match taken {
                    Some(document) => document@.uri == uri@ && start.contains(document),
                    None => forall|k: int| 0 <= k < at ==> (#[trigger] start[k]).uri@ != uri@,
                },
            decreases last_first@.len(),
        {
            let ghost before = rest@;
            proof {
                reveal(Seq::filter);
                assert(all.take(at + 1).drop_last() =~= all.take(at));
                assert(all.take(at + 1).last() == all[at]);
                assert(last_first@[last_first@.len() - 1] == start[at]);
            }
            match last_first.pop() {
                Some(document) => {
                    assert(document == start[at]);
                    assert(start.contains(start[at]));
                    if text::same_text(document.uri.as_str(), uri) {
                        taken = Some(document);
                    } else {
                        let ghost own = document@;
                        rest.push(document);
                        assert(documents_of(rest@) =~= documents_of(before).push(own));
                        assert forall|k: int| 0 <= k < rest@.len() implies start.contains(
                            #[trigger] rest@[k],
                        ) by {
                            if k < before.len() {
                                assert(rest@[k] == before[k]);
                            }
                        }
                    }
                },
                None => {},
            }
            proof {
                at = at + 1;
            }
        }
        assert(all.take(at) =~= all);
        self.documents = rest;
        taken
    }

    /// Opens a document. One of the same name that was open is replaced. A document that the file
    /// system may not have is new.
    pub fn open_document(&mut self, world: &World, document: DocumentHandle, is_new: bool) -> (result:
        Opened)
        requires
            world.wf(),
            old(self).wf(world.files),
            old(self).projects.entries().len() > 0,
            document.path.wf(),
            old(self).revision + 2 <= u64::MAX,
        ensures
            final(self).wf(world.files),
            ({
                let documents = without_document(
                    documents_of(old(self).documents@),
                    document@.uri,
                ).push(document@);
                let (routes, failure) = ensured(
                    *world,
                    old(self).workspaces.folders@.dom(),
                    documents,
                    old(self).routes(),
                    document@.uri,
                    document@.place,
                    document@.language,
                );
                &&& documents_of(final(self).documents@) == documents
                &&& match (result.failure, failure) {
                    (Some(error), Some(expected)) => error@ == expected,
                    (None, None) => true,
                    _ => false,
                }
                &&& final(self).routes().needs_refresh == routes.needs_refresh
                &&& final(self).routes().projects == opened_in(
                    *world,
                    routes.projects,
                    document@.place,
                    document@.language,
                    is_new,
                )
                &&& are_open_failures(
                    *world,
                    routes.projects,
                    document@.place,
                    is_new,
                    result.refresh_failures@,
                )
            }),
            final(self).revision == old(self).revision + open_steps(
                document@.place,
                document@.language,
            ),
            final(self).workspaces == old(self).workspaces,
            final(self).diagnostic_mode == old(self).diagnostic_mode,
            final(self).capabilities == old(self).capabilities,
            final(self).registrations.diagnostics == old(self).registrations.diagnostics,
            final(self).registrations.file_watching == old(self).registrations.file_watching,
    {
        let place = document.path.copied();
        let language = document.language;
        let uri = document.uri.clone();
        let ghost view = document@;
        let ghost start = self.documents@;
        self.take_document(uri.as_str());
        let ghost kept = self.documents@;
        self.documents.push(document);
        proof {
            assert(documents_of(self.documents@) =~= documents_of(kept).push(view));
            assert forall|i: int| 0 <= i < self.documents@.len() implies (
            #[trigger] self.documents@[i]).path.wf() by {
                if i < kept.len() {
                    assert(self.documents@[i] == kept[i]);
                    assert(start.contains(kept[i]));
                }
            }
        }
        let failure = self.ensure_chalk_project_for_document(
            world,
            uri.as_str(),
            &place,
            language,
        );
        let refresh_failures = self.open_document_in_db(world, &place, language, is_new);
        Opened { failure, refresh_failures }
    }

    /// Opens a document in the projects.
    fn open_document_in_db(
        &mut self,
        world: &World,
        place: &AnySystemPath,
        language: Option<LanguageId>,
        is_new: bool,
    ) -> (failures: Vec<RefreshFailure>)
        requires
            world.wf(),
            old(self).wf(world.files),
            old(self).projects.entries().len() > 0,
            place.wf(),
            old(self).revision + 2 <= u64::MAX,
        ensures
            final(self).wf(world.files),
            final(self).routes().projects == opened_in(
                *world,
                old(self).routes().projects,
                place@,
                language,
                is_new,
            ),
            are_open_failures(
                *world,
                old(self).routes().projects,
                place@,
                is_new,
                failures@,
            ),
            final(self).routes().needs_refresh == old(self).routes().needs_refresh,
            final(self).revision == old(self).revision + open_steps(place@, language),
            final(self).workspaces == old(self).workspaces,
            final(self).documents == old(self).documents,
            final(self).diagnostic_mode == old(self).diagnostic_mode,
            final(self).capabilities == old(self).capabilities,
            final(self).registrations == old(self).registrations,
    {
        let is_other = language == Some(LanguageId::Other);
        match place {
            AnySystemPath::System(path) => {
                keep_open(world, &mut self.projects, path);
                let event = open_event(path, is_new);
                let mut changes: Vec<ChangeEvent> = Vec::new();
                changes.push(event);
                assert(changes_of(changes@) =~= seq![opening(path@, is_new)]);
                let failures = self.apply_changes(world, &changes);
                let ghost seen = projects_of(self.projects);
                if !is_other {
                    if world.find_existing(path).is_some() {
                        let index = owner_place(&self.projects, place);
                        if !world.is_excluded(&self.projects.at(index).path, path) {
                            open_in_owner(
                                &mut self.projects,
                                index,
                                place,
                                Ghost(world.files),
                            );
                        }
                    }
                    assert(projects_of(self.projects) == opened_in_owner(*world, seen, path@));
                    self.revision += 1;
                }
                failures
            },
            AnySystemPath::Virtual(_) => {
                let failures: Vec<RefreshFailure> = Vec::new();
                if !is_other {
                    let index = owner_place(&self.projects, place);
                    open_in_owner(&mut self.projects, index, place, Ghost(world.files));
                    self.revision += 1;
                }
                failures
            },
        }
    }
}

// ---------------------------------------------------------------------------------------------
// Closing
// ---------------------------------------------------------------------------------------------

/// Projects with a place closed in the one that it belongs to.
pub open spec fn closed_in_owner(
    projects: Map<Seq<Seq<char>>, Project>,
    place: Place,
) -> Map<Seq<Seq<char>>, Project> {
    let own = owner(projects, place);
    projects.insert(
        own,
        Project {
            open_files: without_place(projects[own].open_files, place),
            ..projects[own]
        },
    )
}

/// Whether the feature project that a path belongs to keeps its file open.
pub open spec fn is_kept(
    world: World,
    projects: Map<Seq<Seq<char>>, Project>,
    path: Seq<Seq<char>>,
) -> bool {
    match (world.files.file_at(path), projects[owner(projects, Place::System(path))].active) {
        (Some(file), Some(active)) => active.open.contains(file),
        _ => false,
    }
}

/// The feature project that a path belongs to without its file kept open.
pub open spec fn released_active(
    world: World,
    projects: Map<Seq<Seq<char>>, Project>,
    path: Seq<Seq<char>>,
) -> Active {
    active_project::closed(
        projects[owner(projects, Place::System(path))].active->Some_0,
        world.files.file_at(path)->Some_0,
    )
}

/// Projects with the file of a document let go by the feature project that it belongs to, which then
/// looks up its sources again.
pub open spec fn released(
    world: World,
    projects: Map<Seq<Seq<char>>, Project>,
    path: Seq<Seq<char>>,
) -> Map<Seq<Seq<char>>, Project> {
    let own = owner(projects, Place::System(path));
    if is_kept(world, projects, path) {
        projects.insert(
            own,
            Project {
                active: Some(refreshed(world, released_active(world, projects, path))),
                ..projects[own]
            },
        )
    } else {
        projects
    }
}

/// Projects after every one has seen that a closed document has its contents of the file system
/// again.
pub open spec fn seen_closed(
    world: World,
    projects: Map<Seq<Seq<char>>, Project>,
    path: Seq<Seq<char>>,
) -> Map<Seq<Seq<char>>, Project> {
    closed_in_owner(projects, Place::System(path)).map_values(
        following(world, seq![Change::Changed(path)]),
    )
}

/// Projects with a document closed. Closing a cell does not close its notebook.
pub open spec fn closed_in(
    world: World,
    projects: Map<Seq<Seq<char>>, Project>,
    document: Document,
) -> Map<Seq<Seq<char>>, Project> {
    if document.kind == DocumentKind::Cell {
        projects
    } else {
        match document.place {
            Place::System(path) => released(world, seen_closed(world, projects, path), path),
            Place::Virtual(_) => closed_in_owner(projects, document.place),
        }
    }
}

/// Whether the client has to clear the diagnostics of a closed document: of a cell, of one that lies
/// nowhere or in no workspace folder, and of any where only open files are diagnosed.
pub open spec fn clears_diagnostics(
    folders: Set<Seq<Seq<char>>>,
    mode: DiagnosticMode,
    document: Document,
) -> bool {
    match document.place {
        Place::System(path) => document.kind == DocumentKind::Cell || workspaces::innermost(
            folders,
            path,
        ) is None || mode == DiagnosticMode::OpenFilesOnly,
        Place::Virtual(_) => true,
    }
}

/// Whether a project forgets the file of a closed document: it was in the project only because the
/// client said what language it is.
pub open spec fn forgets_file(document: Document) -> bool {
    document.kind != DocumentKind::Cell && document.language is Some && document.place is System
        && !document.is_source_by_name
}

/// What became of a document that was closed.
#[derive(Debug)]
pub struct Closed {
    pub clear_diagnostics: bool,
    pub forget_file: bool,
    /// Why the sources of projects could not be looked up again.
    pub refresh_failures: Vec<RefreshFailure>,
    /// Why the sources of the feature project that the document belongs to could not be looked up
    /// again without it.
    pub failure: Option<ChalkProjectError>,
}

/// A document that is not open.
#[derive(Clone, Copy, Debug, PartialEq, Eq, Structural)]
pub struct UnknownDocument;

/// Closes a place in the project that it belongs to.
fn close_in_owner(projects: &mut PathMap<ProjectState>, place: &AnySystemPath, Ghost(files): Ghost<
    Files,
>)
    requires
        projects_wf(*old(projects), files),
        old(projects).entries().len() > 0,
        place.wf(),
    ensures
        projects_wf(*final(projects), files),
        projects_of(*final(projects)) == closed_in_owner(projects_of(*old(projects)), place@),
        final(projects).entries().len() == old(projects).entries().len(),
{
    let index = owner_place(projects, place);
    let ghost before = *projects;
    proof {
        before.lemma_contents();
    }
    let ghost was = before.entries()[index as int].value;
    assert(was.wf(files));
    let state = projects.value_mut(index);
    close_file(&mut state.open_files, place);
    proof {
        let now = projects.entries()[index as int].value;
        lemma_project_changed(before, *projects, index as int, now, files);
        assert(now@ =~= Project {
            open_files: without_place(was@.open_files, place@),
            ..was@
        });
    }
}

/// Lets the feature project that a document belongs to let go of its file.
fn release_source(world: &World, projects: &mut PathMap<ProjectState>, place: &AnySystemPath, path: &SystemPath) -> (
    failure: Option<ChalkProjectError>)
    requires
        world.wf(),
        projects_wf(*old(projects), world.files),
        old(projects).entries().len() > 0,
        place.wf(),
        place@ == Place::System(path@),
    ensures
        projects_wf(*final(projects), world.files),
        projects_of(*final(projects)) == released(*world, projects_of(*old(projects)), path@),
        match (
            failure,
            if is_kept(*world, projects_of(*old(projects)), path@) {
                refresh_failure(
                    *world,
                    released_active(*world, projects_of(*old(projects)), path@),
                )
            } else {
                None
            },
        ) {
            (Some(error), Some(expected)) => error@ == expected,
            (None, None) => true,
            _ => false,
        },
        final(projects).entries().len() == old(projects).entries().len(),
{
    let file = match world.files.find(path) {
        Some(file) => file,
        None => {
            return None;
        },
    };
    let index = owner_place(projects, place);
    let ghost before = *projects;
    proof {
        before.lemma_contents();
    }
    let ghost was = before.entries()[index as int].value;
    assert(was.wf(world.files));
    let mut failure: Option<ChalkProjectError> = None;
    let state = projects.value_mut(index);
    if let Some(active) = &mut state.chalk_project {
        let ghost own = active@;
        if active.close_source(file) {
            failure = refresh_active(world, active);
        } else {
            proof {
                lemma_closed_same(own, file);
            }
        }
    }
    proof {
        let now = projects.entries()[index as int].value;
        lemma_project_changed(before, *projects, index as int, now, world.files);
        let views = projects_of(before);
        if is_kept(*world, views, path@) {
            assert(now@ =~= Project {
                active: Some(refreshed(*world, released_active(*world, views, path@))),
                ..was@
            });
        } else {
            assert(now@ =~= was@);
            assert(projects_of(*projects) =~= views);
        }
    }
    failure
}

/// Closing what is not open changes nothing.
proof fn lemma_closed_same(active: Active, file: File)
    requires
        !active.open.contains(file),
    ensures
        active_project::closed(active, file) == active,
{
    order::lemma_filter_all(active.open, active_project::is_other(file));
}

impl<S> Session<S> {
    /// Closes the document of a name. The world is the one without the document.
    pub fn close_document(&mut self, world: &World, uri: &str) -> (result: Result<
        Closed,
        UnknownDocument,
    >)
        requires
            world.wf(),
            old(self).wf(world.files),
            old(self).projects.entries().len() > 0,
            old(self).revision < u64::MAX,
        ensures
            final(self).wf(world.files),
            documents_of(final(self).documents@) == without_document(
                documents_of(old(self).documents@),
                uri@,
            ),
            final(self).workspaces == old(self).workspaces,
            final(self).diagnostic_mode == old(self).diagnostic_mode,
            final(self).capabilities == old(self).capabilities,
            final(self).registrations == old(self).registrations,
            match result {
                Err(_) => {
                    &&& forall|i: int|
                        0 <= i < old(self).documents@.len() ==> (
                        #[trigger] old(self).documents@[i]).uri@ != uri@
                    &&& final(self).projects == old(self).projects
                    &&& final(self).revision == old(self).revision
                },
                Ok(closed) => exists|document: DocumentHandle| #[trigger]
                    old(self).documents@.contains(document) && document@.uri == uri@ && {
                        let projects = old(self).routes().projects;
                        &&& final(self).routes().projects == closed_in(
                            *world,
                            projects,
                            document@,
                        )
                        &&& final(self).revision == old(self).revision + 1
                        &&& closed.clear_diagnostics == clears_diagnostics(
                            old(self).workspaces.folders@.dom(),
                            old(self).diagnostic_mode,
                            document@,
                        )
                        &&& closed.forget_file == forgets_file(document@)
                        &&& match document@.place {
                            Place::System(path) => if document@.kind == DocumentKind::Cell {
                                closed.refresh_failures@.len() == 0 && closed.failure is None
                            } else {
                                &&& are_failures(
                                    *world,
                                    seq![Change::Changed(path)],
                                    closed_in_owner(projects, document@.place),
                                    closed.refresh_failures@,
                                )
                                &&& {
                                    let seen = seen_closed(*world, projects, path);
                                    match (
                                        closed.failure,
                                        if is_kept(*world, seen, path) {
                                            refresh_failure(
                                                *world,
                                                released_active(*world, seen, path),
                                            )
                                        } else {
                                            None
                                        },
                                    ) {
                                        (Some(error), Some(expected)) => error@ == expected,
                                        (None, None) => true,
                                        _ => false,
                                    }
                                }
                            },
                            Place::Virtual(_) => closed.refresh_failures@.len() == 0
                                && closed.failure is None,
                        }
                    },
            },
    {
        let ghost start = self.documents@;
        let taken = self.take_document(uri);
        proof {
            assert forall|i: int| 0 <= i < self.documents@.len() implies (
            #[trigger] self.documents@[i]).path.wf() by {
                assert(start.contains(self.documents@[i]));
            }
        }
        let document = match taken {
            Some(document) => document,
            None => {
                return Err(UnknownDocument);
            },
        };
        assert(start.contains(document));
        assert(document.path.wf());
        let is_cell = document.is_cell();
        let mut closed = Closed {
            clear_diagnostics: true,
            forget_file: false,
            refresh_failures: Vec::new(),
            failure: None,
        };
        match &document.path {
            AnySystemPath::System(path) => {
                if is_cell {
                    self.revision += 1;
                } else {
                    close_in_owner(&mut self.projects, &document.path, Ghost(world.files));
                    closed.forget_file = document.language.is_some()
                        && !document.is_source_by_name;
                    closed.clear_diagnostics = self.workspaces.root_for_path(path).is_none()
                        || self.diagnostic_mode == DiagnosticMode::OpenFilesOnly;
                    let mut changes: Vec<ChangeEvent> = Vec::new();
                    changes.push(ChangeEvent::Changed { path: path.copied() });
                    assert(changes_of(changes@) =~= seq![Change::Changed(path@)]);
                    closed.refresh_failures = self.apply_changes(world, &changes);
                    closed.failure = release_source(
                        world,
                        &mut self.projects,
                        &document.path,
                        path,
                    );
                }
            },
            AnySystemPath::Virtual(_) => {
                if !is_cell {
                    close_in_owner(&mut self.projects, &document.path, Ghost(world.files));
                }
                self.revision += 1;
            },
        }
        Ok(closed)
    }

    /// Lets every project see that the contents of a document changed.
    pub fn update_document(&mut self, world: &World, place: &AnySystemPath) -> (failures: Vec<
        RefreshFailure,
    >)
        requires
            world.wf(),
            old(self).wf(world.files),
            old(self).revision < u64::MAX,
        ensures
            final(self).wf(world.files),
            ({
                let change = match place@ {
                    Place::System(path) => Change::Changed(path),
                    Place::Virtual(name) => Change::ChangedVirtual(name),
                };
                &&& final(self).routes().projects == old(self).routes().projects.map_values(
                    following(*world, seq![change]),
                )
                &&& are_failures(
                    *world,
                    seq![change],
                    old(self).routes().projects,
                    failures@,
                )
            }),
            final(self).revision == old(self).revision + 1,
            final(self).documents == old(self).documents,
            final(self).workspaces == old(self).workspaces,
            final(self).registrations == old(self).registrations,
            final(self).capabilities == old(self).capabilities,
            final(self).diagnostic_mode == old(self).diagnostic_mode,
    {
        let mut changes: Vec<ChangeEvent> = Vec::new();
        match place {
            AnySystemPath::System(path) => {
                changes.push(ChangeEvent::Changed { path: path.copied() });
                assert(changes_of(changes@) =~= seq![Change::Changed(path@)]);
            },
            AnySystemPath::Virtual(name) => {
                changes.push(ChangeEvent::ChangedVirtual(name.clone()));
                assert(changes_of(changes@) =~= seq![Change::ChangedVirtual(name@)]);
            },
        }
        self.apply_changes(world, &changes)
    }
}

} // verus!

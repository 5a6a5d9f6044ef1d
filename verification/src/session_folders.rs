//! How a session follows its workspace folders, and which project owns which file.

use vstd::prelude::*;

use crate::active_project::Files;
use crate::path_map::{PathEntry, PathMap};
use crate::paths;
use crate::paths::SystemPath;
use crate::registrations;
use crate::registrations::{
    ClientCapabilities, DiagnosticMode, RegistrationChanges, Registrations, WatchedProject,
};
use crate::session;
use crate::session::{
    AnySystemPath, Document, DocumentHandle, DocumentKind, Place, Project, ProjectKind,
    ProjectState, Routes, Session,
};
use crate::text;
use crate::workspaces;
use crate::workspaces::{FolderError, FolderPath, Workspace};

verus! {

broadcast use vstd::string::group_string_axioms;

// ---------------------------------------------------------------------------------------------
// Initializing folders
// ---------------------------------------------------------------------------------------------

/// What is done about the folders that wait for their settings.
#[derive(Debug)]
pub enum ConfigurationRequest {
    /// There are none.
    Nothing,
    /// The client cannot be asked: they get the settings that the session was started with.
    InitializeNow(Vec<String>),
    /// The client is asked for the settings of each.
    Ask(Vec<String>),
}

/// What becomes of a folder whose settings have come.
#[derive(Debug)]
pub enum InitializeStep {
    NotFile,
    NotText,
    NotRegistered,
    AlreadyInitialized,
    /// A project is to be made for the folder.
    MakeProject(SystemPath),
}

/// Names with what was answered for each.
pub open spec fn paired<T>(names: Seq<String>, answers: Seq<T>, pairs: Seq<(String, T)>) -> bool {
    &&& pairs.len() == names.len()
    &&& forall|i: int|
        0 <= i < names.len() ==> (#[trigger] pairs[i]).0@ == names[i]@ && pairs[i].1 == answers[i]
}

/// Puts the names of folders and what the client answered for each together.
pub fn pair_configurations<T>(names: Vec<String>, answers: Vec<T>) -> (pairs: Vec<(String, T)>)
    requires
        names@.len() == answers@.len(),
    ensures
        paired(names@, answers@, pairs@),
{
    let ghost all = answers@;
    let ghost count = names@.len();
    let mut rest = answers;
    let mut last_first: Vec<T> = Vec::new();
    while rest.len() > 0
        invariant
            rest@.len() + last_first@.len() == all.len(),
            forall|k: int| 0 <= k < rest@.len() ==> rest@[k] == all[k],
            forall|k: int|
                0 <= k < last_first@.len() ==> last_first@[k] == all[all.len() - 1 - k],
        decreases rest@.len(),
    {
        match rest.pop() {
            Some(answer) => {
                last_first.push(answer);
            },
            None => {},
        }
    }
    let mut pairs: Vec<(String, T)> = Vec::new();
    let mut i: usize = 0;
    while i < names.len()
        invariant
            i <= names@.len(),
            names@.len() == all.len(),
            pairs@.len() == i,
            last_first@.len() == all.len() - i,
            forall|k: int|
                0 <= k < last_first@.len() ==> last_first@[k] == all[all.len() - 1 - k],
            forall|k: int|
                0 <= k < i ==> (#[trigger] pairs@[k]).0@ == names@[k]@ && pairs@[k].1 == all[k],
        decreases names@.len() - i,
    {
        assert(last_first@[last_first@.len() - 1] == all[i as int]);
        match last_first.pop() {
            Some(answer) => {
                pairs.push((names[i].clone(), answer));
            },
            None => {},
        }
        i += 1;
    }
    pairs
}

/// The global settings of the folders that were initialized last, where any were.
pub fn latest_global_options<G>(options: Vec<G>) -> (latest: Option<G>)
    ensures
        latest == if options@.len() > 0 {
            Some(options@.last())
        } else {
            None
        },
{
    let mut options = options;
    options.pop()
}

/// The project of a workspace folder. What is known of diagnostics of a project that was there stays.
pub open spec fn workspace_project(
    projects: Map<Seq<Seq<char>>, Project>,
    workspace_root: Seq<Seq<char>>,
    root: Seq<Seq<char>>,
) -> Project {
    Project {
        kind: ProjectKind::Workspace,
        workspace_root: Some(workspace_root),
        untracked: if projects.contains_key(root) {
            projects[root].untracked
        } else {
            Seq::empty()
        },
        active: None,
        open_files: Seq::empty(),
    }
}

// ---------------------------------------------------------------------------------------------
// Removing folders
// ---------------------------------------------------------------------------------------------

/// The projects that do not belong to a workspace folder.
pub open spec fn without_folder(
    projects: Map<Seq<Seq<char>>, Project>,
    workspace_root: Seq<Seq<char>>,
) -> Map<Seq<Seq<char>>, Project> {
    Map::new(
        |root: Seq<Seq<char>>|
            projects.contains_key(root) && projects[root].workspace_root != Some(workspace_root),
        |root: Seq<Seq<char>>| projects[root],
    )
}

/// The files with diagnostics that nothing else clears, of the projects of a workspace folder.
pub open spec fn untracked_of(
    entries: Seq<PathEntry<ProjectState>>,
    workspace_root: Seq<Seq<char>>,
) -> Seq<Seq<char>>
    decreases entries.len(),
{
    if entries.len() == 0 {
        Seq::empty()
    } else {
        let before = untracked_of(entries.drop_last(), workspace_root);
        if entries.last().value@.workspace_root == Some(workspace_root) {
            before + entries.last().value@.untracked
        } else {
            before
        }
    }
}

/// Whether the client does not clear the diagnostics of a document by itself.
pub open spec fn needs_clearing(capabilities: ClientCapabilities, document: Document) -> bool {
    !(capabilities.pull_diagnostics && document.kind == DocumentKind::Text)
}

/// The texts in a directory whose diagnostics are to be cleared; the cells of a notebook are texts.
pub open spec fn cleared_documents(
    capabilities: ClientCapabilities,
    documents: Seq<Document>,
    directory: Seq<Seq<char>>,
) -> Seq<Seq<char>>
    decreases documents.len(),
{
    if documents.len() == 0 {
        Seq::empty()
    } else {
        let before = cleared_documents(capabilities, documents.drop_last(), directory);
        let document = documents.last();
        if document.kind != DocumentKind::Notebook && needs_clearing(capabilities, document) && (
        document.place matches Place::System(path) && paths::lies_in(path, directory)) {
            before.push(document.uri)
        } else {
            before
        }
    }
}

impl<S> Session<S> {
    /// Says what is to be done about the folders that wait for their settings.
    pub fn request_uninitialized_workspace_folder_configurations(&self) -> (request:
        ConfigurationRequest)
        requires
            self.workspaces.wf(),
        ensures
            match request {
                ConfigurationRequest::Nothing => workspaces::none_waits(self.workspaces.folders@),
                ConfigurationRequest::InitializeNow(uris) => {
                    &&& !workspaces::none_waits(self.workspaces.folders@)
                    &&& !self.capabilities.workspace_configuration
                    &&& workspaces::names_of(uris@) == workspaces::waiting(
                        self.workspaces.folders.entries(),
                    )
                },
                ConfigurationRequest::Ask(uris) => {
                    &&& !workspaces::none_waits(self.workspaces.folders@)
                    &&& self.capabilities.workspace_configuration
                    &&& workspaces::names_of(uris@) == workspaces::waiting(
                        self.workspaces.folders.entries(),
                    )
                },
            },
    {
        if self.workspaces.all_initialized() {
            return ConfigurationRequest::Nothing;
        }
        let uris = self.workspaces.uninitialized();
        if self.capabilities.workspace_configuration {
            ConfigurationRequest::Ask(uris)
        } else {
            ConfigurationRequest::InitializeNow(uris)
        }
    }

    /// Gives a workspace folder its settings, and says whether a project is to be made for it. A
    /// folder that has its settings keeps them.
    pub fn begin_workspace_folder(&mut self, path: FolderPath, settings: S) -> (step: InitializeStep)
        requires
            old(self).workspaces.wf(),
            path.wf(),
        ensures
            final(self).workspaces.wf(),
            final(self).projects == old(self).projects,
            final(self).documents == old(self).documents,
            final(self).registrations == old(self).registrations,
            final(self).revision == old(self).revision,
            final(self).capabilities == old(self).capabilities,
            final(self).diagnostic_mode == old(self).diagnostic_mode,
            match path {
                FolderPath::NotFile => step is NotFile && final(self).workspaces
                    == old(self).workspaces,
                FolderPath::NotText => step is NotText && final(self).workspaces
                    == old(self).workspaces,
                FolderPath::Path(path) => {
                    let folders = old(self).workspaces.folders@;
                    if !folders.contains_key(path@) {
                        step is NotRegistered && final(self).workspaces == old(self).workspaces
                    } else if folders[path@].initialized {
                        step is AlreadyInitialized && final(self).workspaces
                            == old(self).workspaces
                    } else {
                        &&& step matches InitializeStep::MakeProject(root) && root@ == path@
                            && root.wf()
                        &&& final(self).workspaces.folders@ == folders.insert(
                            path@,
                            Workspace {
                                uri: folders[path@].uri,
                                settings: Some(settings),
                                initialized: true,
                            },
                        )
                    }
                },
            },
    {
        match path {
            FolderPath::NotFile => InitializeStep::NotFile,
            FolderPath::NotText => InitializeStep::NotText,
            FolderPath::Path(path) => match self.workspaces.initialize(&path, settings) {
                Ok(true) => InitializeStep::MakeProject(path),
                Ok(false) => InitializeStep::AlreadyInitialized,
                Err(_) => InitializeStep::NotRegistered,
            },
        }
    }

    /// Adds the project of a workspace folder, at the root that it was made with.
    pub fn finish_workspace_folder(
        &mut self,
        workspace_root: SystemPath,
        root: SystemPath,
    )
        requires
            old(self).projects.wf(),
            workspace_root.wf(),
            root.wf(),
        ensures
            final(self).projects.wf(),
            forall|files: Files| #[trigger]
                old(self).wf(files) ==> final(self).wf(files),
            session::projects_of(final(self).projects) == session::projects_of(
                old(self).projects,
            ).insert(
                root@,
                workspace_project(
                    session::projects_of(old(self).projects),
                    workspace_root@,
                    root@,
                ),
            ),
            final(self).workspaces == old(self).workspaces,
            final(self).documents == old(self).documents,
            final(self).registrations == old(self).registrations,
            final(self).revision == old(self).revision,
            final(self).capabilities == old(self).capabilities,
            final(self).diagnostic_mode == old(self).diagnostic_mode,
    {
        let ghost before = self.projects@;
        let ghost views = session::projects_of(self.projects);
        let untracked = match self.projects.remove(&root) {
            Some(state) => state.untracked,
            None => Vec::new(),
        };
        let state = ProjectState {
            kind: ProjectKind::Workspace,
            workspace_root: Some(workspace_root),
            untracked,
            chalk_project: None,
            open_files: Vec::new(),
        };
        let ghost own = state;
        let ghost place = root@;
        let ghost rest = self.projects@;
        proof {
            assert(session::places(state.open_files@) =~= Seq::empty());
            if !before.contains_key(root@) {
                assert(workspaces::names_of(state.untracked@) =~= Seq::empty());
            }
            assert(state@ =~= workspace_project(views, workspace_root@, root@));
        }
        self.projects.insert(root, state);
        proof {
            assert(self.projects@ =~= before.insert(place, own));
            session::lemma_projects_insert(before, place, own);
            assert forall|files: Files| #[trigger] old(self).wf(files) implies self.wf(files) by {
                assert forall|other: Seq<Seq<char>>| #[trigger]
                    self.projects@.contains_key(other) implies self.projects@[other].wf(
                    files,
                ) by {
                    if other != place {
                        assert(before.contains_key(other));
                    }
                }
            }
        }
    }

    /// Ends the initialization of workspace folders, once their projects are there: the global
    /// settings that came last say which diagnostics there are, and where none came those stay as
    /// they are. Gives what is to be registered anew. The modes are those of the global settings of
    /// each folder, joined with the ones that the session was started with.
    pub fn finish_workspace_folders(
        &mut self,
        modes: Vec<DiagnosticMode>,
        projects: &Vec<WatchedProject>,
    ) -> (changes: RegistrationChanges)
        ensures
            final(self).diagnostic_mode == if modes@.len() > 0 {
                modes@.last()
            } else {
                old(self).diagnostic_mode
            },
            changes.unregistrations@ == registrations::taken_back(
                old(self).registrations,
                old(self).capabilities,
            ),
            registrations::registered(changes.registrations@) == registrations::registered_anew(
                old(self).capabilities,
                final(self).diagnostic_mode,
                projects@,
            ),
            final(self).registrations == (Registrations {
                diagnostics: if old(self).capabilities.diagnostic_dynamic_registration {
                    final(self).diagnostic_mode != DiagnosticMode::Off
                } else {
                    old(self).registrations.diagnostics
                },
                file_watching: old(self).registrations.file_watching
                    || old(self).capabilities.file_watcher,
                needs_refresh: false,
            }),
            final(self).workspaces == old(self).workspaces,
            final(self).projects == old(self).projects,
            final(self).documents == old(self).documents,
            final(self).revision == old(self).revision,
            final(self).capabilities == old(self).capabilities,
    {
        match latest_global_options(modes) {
            Some(mode) => {
                self.diagnostic_mode = mode;
            },
            None => {},
        }
        self.registrations.register_capabilities(
            self.capabilities,
            self.diagnostic_mode,
            projects,
        )
    }

    /// Removes a workspace folder with the projects that belong to it. Gives the names of the
    /// documents whose diagnostics are to be cleared.
    pub fn remove_workspace_folder(&mut self, path: &FolderPath) -> (result: Result<
        Vec<String>,
        FolderError,
    >)
        requires
            old(self).workspaces.wf(),
            old(self).projects.wf(),
            path.wf(),
            old(self).revision < u64::MAX,
        ensures
            final(self).workspaces.wf(),
            final(self).projects.wf(),
            forall|files: Files| #[trigger]
                old(self).wf(files) ==> final(self).wf(files),
            final(self).documents == old(self).documents,
            final(self).capabilities == old(self).capabilities,
            final(self).diagnostic_mode == old(self).diagnostic_mode,
            final(self).registrations.diagnostics == old(self).registrations.diagnostics,
            final(self).registrations.file_watching == old(self).registrations.file_watching,
            match path {
                FolderPath::NotFile => result is Err && result->Err_0 == FolderError::NotFile
                    && *final(self) == *old(self),
                FolderPath::NotText => result is Err && result->Err_0 == FolderError::NotText
                    && *final(self) == *old(self),
                FolderPath::Path(path) => if !old(self).workspaces.folders@.contains_key(path@) {
                    &&& result is Err && result->Err_0 == FolderError::NotFound
                    &&& final(self).routes() == old(self).routes()
                    &&& final(self).workspaces.folders@ == old(self).workspaces.folders@
                    &&& final(self).revision == old(self).revision
                } else {
                    &&& final(self).workspaces.folders@ == old(self).workspaces.folders@.remove(
                        path@,
                    )
                    &&& final(self).routes() == (Routes {
                        projects: without_folder(old(self).routes().projects, path@),
                        needs_refresh: old(self).routes().needs_refresh || exists|
                            root: Seq<Seq<char>>,
                        | #[trigger]
                            old(self).routes().projects.contains_key(root)
                                && old(self).routes().projects[root].workspace_root == Some(
                                path@,
                            ),
                    })
                    &&& final(self).revision == old(self).revision + 1
                    &&& result is Ok
                    &&& workspaces::names_of(result->Ok_0@) == if old(self).diagnostic_mode
                        == DiagnosticMode::Off {
                        Seq::empty()
                    } else {
                        untracked_of(old(self).projects.entries(), path@) + cleared_documents(
                            old(self).capabilities,
                            session::documents_of(old(self).documents@),
                            path@,
                        )
                    }
                },
            },
    {
        let path = match path {
            FolderPath::NotFile => {
                return Err(FolderError::NotFile);
            },
            FolderPath::NotText => {
                return Err(FolderError::NotText);
            },
            FolderPath::Path(path) => path,
        };
        let found = self.workspaces.unregister(path);
        if !found {
            assert(self.workspaces.folders@ =~= old(self).workspaces.folders@);
            return Err(FolderError::NotFound);
        }
        let mut cleared: Vec<String> = untracked_files(&self.projects, path);
        let owned = owned_roots(&self.projects, path);
        if owned.len() > 0 {
            proof {
                let root = owned@[0]@;
                assert(session::projects_of(self.projects).contains_key(root));
            }
            self.registrations.needs_refresh = true;
        } else {
            proof {
                assert forall|root: Seq<Seq<char>>| #[trigger]
                    session::projects_of(self.projects).contains_key(root) implies session::projects_of(
                    self.projects,
                )[root].workspace_root != Some(path@) by {
                    if session::projects_of(self.projects)[root].workspace_root == Some(path@) {
                        let k = choose|k: int|
                            0 <= k < owned@.len() && (#[trigger] owned@[k])@ == root;
                    }
                }
            }
        }
        let ghost before = self.projects;
        remove_projects(&mut self.projects, &owned, path);
        assert forall|files: Files| #[trigger] old(self).wf(files) implies session::projects_wf(
            self.projects,
            files,
        ) by {
            assert forall|root: Seq<Seq<char>>| #[trigger]
                self.projects@.contains_key(root) implies self.projects@[root].wf(files) by {
                assert(before@.contains_key(root));
            }
        }
        let ghost first = workspaces::names_of(cleared@);
        let mut more = documents_to_clear(self.capabilities, &self.documents, path);
        let ghost second = workspaces::names_of(more@);
        cleared.append(&mut more);
        assert(workspaces::names_of(cleared@) =~= first + second);
        self.revision += 1;
        if self.diagnostic_mode == DiagnosticMode::Off {
            let none: Vec<String> = Vec::new();
            assert(workspaces::names_of(none@) =~= Seq::empty());
            Ok(none)
        } else {
            Ok(cleared)
        }
    }
}

/// Whether two paths are the same, where the first is there.
fn is_root(root: &Option<SystemPath>, path: &SystemPath) -> (same: bool)
    ensures
        same == (match *root {
            Some(root) => Some(root@),
            None => None,
        } == Some(path@)),
{
    match root {
        Some(root) => root.same_as(path),
        None => false,
    }
}

/// The files with diagnostics that nothing else clears, of the projects of a workspace folder.
fn untracked_files(projects: &PathMap<ProjectState>, path: &SystemPath) -> (files: Vec<String>)
    ensures
        workspaces::names_of(files@) == untracked_of(projects.entries(), path@),
{
    let ghost all = projects.entries();
    let mut files: Vec<String> = Vec::new();
    let mut i: usize = 0;
    assert(all.take(0) =~= Seq::empty());
    assert(workspaces::names_of(files@) =~= Seq::empty());
    while i < projects.len()
        invariant
            i <= all.len(),
            all == projects.entries(),
            workspaces::names_of(files@) == untracked_of(all.take(i as int), path@),
        decreases all.len() - i,
    {
        let state = &projects.at(i).value;
        let ghost before = workspaces::names_of(files@);
        assert(all.take(i as int + 1).drop_last() =~= all.take(i as int));
        assert(all.take(i as int + 1).last() == all[i as int]);
        if is_root(&state.workspace_root, path) {
            let mut j: usize = 0;
            assert(before + state@.untracked.take(0) =~= before);
            while j < state.untracked.len()
                invariant
                    j <= state.untracked@.len(),
                    workspaces::names_of(files@) == before + state@.untracked.take(j as int),
                decreases state.untracked@.len() - j,
            {
                let ghost so_far = workspaces::names_of(files@);
                files.push(state.untracked[j].clone());
                assert(workspaces::names_of(files@) =~= so_far.push(state.untracked@[j as int]@));
                assert(workspaces::names_of(files@) =~= before + state@.untracked.take(
                    j as int + 1,
                ));
                j += 1;
            }
            assert(state@.untracked.take(j as int) =~= state@.untracked);
        }
        i += 1;
    }
    assert(all.take(i as int) =~= all);
    files
}

/// The roots of the projects of a workspace folder.
fn owned_roots(projects: &PathMap<ProjectState>, path: &SystemPath) -> (roots: Vec<SystemPath>)
    requires
        projects.wf(),
    ensures
        forall|k: int|
            0 <= k < roots@.len() ==> session::projects_of(*projects).contains_key(
                (#[trigger] roots@[k])@,
            ) && session::projects_of(*projects)[roots@[k]@].workspace_root == Some(path@),
        forall|root: Seq<Seq<char>>| #[trigger]
            session::projects_of(*projects).contains_key(root) && session::projects_of(
                *projects,
            )[root].workspace_root == Some(path@) ==> exists|k: int|
                0 <= k < roots@.len() && (#[trigger] roots@[k])@ == root,
{
    let ghost all = projects.entries();
    let ghost views = session::projects_of(*projects);
    proof {
        projects.lemma_contents();
    }
    let mut roots: Vec<SystemPath> = Vec::new();
    let mut i: usize = 0;
    while i < projects.len()
        invariant
            i <= all.len(),
            all == projects.entries(),
            views == session::projects_of(*projects),
            forall|k: int|
                0 <= k < all.len() ==> projects@.contains_key((#[trigger] all[k]).path@)
                    && projects@[all[k].path@] == all[k].value,
            forall|k: int|
                0 <= k < roots@.len() ==> views.contains_key((#[trigger] roots@[k])@)
                    && views[roots@[k]@].workspace_root == Some(path@),
            forall|m: int|
                0 <= m < i && (#[trigger] all[m]).value@.workspace_root == Some(path@)
                    ==> exists|k: int|
                    0 <= k < roots@.len() && (#[trigger] roots@[k])@ == all[m].path@,
        decreases all.len() - i,
    {
        let entry = projects.at(i);
        let ghost before = roots@;
        assert(all[i as int] == *entry);
        if is_root(&entry.value.workspace_root, path) {
            roots.push(entry.path.copied());
            proof {
                assert forall|k: int| 0 <= k < roots@.len() implies views.contains_key(
                    (#[trigger] roots@[k])@,
                ) && views[roots@[k]@].workspace_root == Some(path@) by {
                    if k < before.len() {
                        assert(roots@[k] == before[k]);
                    }
                }
                assert forall|m: int|
                    0 <= m < i + 1 && (#[trigger] all[m]).value@.workspace_root == Some(
                        path@,
                    ) implies exists|k: int|
                    0 <= k < roots@.len() && (#[trigger] roots@[k])@ == all[m].path@ by {
                    if m < i {
                        let k = choose|k: int|
                            0 <= k < before.len() && (#[trigger] before[k])@ == all[m].path@;
                        assert(roots@[k] == before[k]);
                    } else {
                        assert(roots@[before.len() as int]@ == all[m].path@);
                    }
                }
            }
        }
        i += 1;
    }
    assert forall|root: Seq<Seq<char>>| #[trigger]
        views.contains_key(root) && views[root].workspace_root == Some(path@) implies exists|
        k: int,
    | 0 <= k < roots@.len() && (#[trigger] roots@[k])@ == root by {
        assert(projects@.contains_key(root));
        let m = choose|m: int| 0 <= m < all.len() && (#[trigger] all[m]).path@ == root;
        assert(projects@[root] == all[m].value);
    }
    roots
}

/// Removes the projects of a workspace folder.
fn remove_projects(
    projects: &mut PathMap<ProjectState>,
    roots: &Vec<SystemPath>,
    path: &SystemPath,
)
    requires
        old(projects).wf(),
        forall|k: int|
            0 <= k < roots@.len() ==> session::projects_of(*old(projects)).contains_key(
                (#[trigger] roots@[k])@,
            ) && session::projects_of(*old(projects))[roots@[k]@].workspace_root == Some(path@),
        forall|root: Seq<Seq<char>>| #[trigger]
            session::projects_of(*old(projects)).contains_key(root) && session::projects_of(
                *old(projects),
            )[root].workspace_root == Some(path@) ==> exists|k: int|
                0 <= k < roots@.len() && (#[trigger] roots@[k])@ == root,
    ensures
        final(projects).wf(),
        session::projects_of(*final(projects)) == without_folder(
            session::projects_of(*old(projects)),
            path@,
        ),
        forall|root: Seq<Seq<char>>| #[trigger]
            final(projects)@.contains_key(root) ==> old(projects)@.contains_key(root)
                && final(projects)@[root] == old(projects)@[root],
{
    let ghost start = projects@;
    let ghost views = session::projects_of(*projects);
    let mut i: usize = 0;
    while i < roots.len()
        invariant
            i <= roots@.len(),
            projects.wf(),
            forall|root: Seq<Seq<char>>| #[trigger]
                projects@.contains_key(root) <==> start.contains_key(root) && !exists|k: int|
                    0 <= k < i && (#[trigger] roots@[k])@ == root,
            forall|root: Seq<Seq<char>>| #[trigger]
                projects@.contains_key(root) ==> projects@[root] == start[root],
        decreases roots@.len() - i,
    {
        let ghost before = projects@;
        projects.remove(&roots[i]);
        proof {
            let gone = roots@[i as int]@;
            assert forall|root: Seq<Seq<char>>| #[trigger]
                projects@.contains_key(root) <==> start.contains_key(root) && !exists|k: int|
                    0 <= k < i + 1 && (#[trigger] roots@[k])@ == root by {
                if before.contains_key(root) && root != gone {
                    if exists|k: int| 0 <= k < i + 1 && (#[trigger] roots@[k])@ == root {
                        let k = choose|k: int| 0 <= k < i + 1 && (#[trigger] roots@[k])@ == root;
                        assert(k < i);
                    }
                }
                if start.contains_key(root) && !exists|k: int|
                    0 <= k < i + 1 && (#[trigger] roots@[k])@ == root {
                    assert(roots@[i as int]@ != root);
                    assert(before.contains_key(root));
                }
            }
        }
        i += 1;
    }
    proof {
        let after = session::projects_of(*projects);
        let expected = without_folder(views, path@);
        assert forall|root: Seq<Seq<char>>| #[trigger]
            after.contains_key(root) <==> expected.contains_key(root) by {
            assert(projects@.contains_key(root) <==> after.contains_key(root));
            assert(start.contains_key(root) <==> views.contains_key(root));
            if after.contains_key(root) && views[root].workspace_root == Some(path@) {
                let k = choose|k: int| 0 <= k < roots@.len() && (#[trigger] roots@[k])@ == root;
            }
            if expected.contains_key(root) && !after.contains_key(root) {
                let k = choose|k: int| 0 <= k < i && (#[trigger] roots@[k])@ == root;
                assert(views[roots@[k]@].workspace_root == Some(path@));
            }
        }
        assert forall|root: Seq<Seq<char>>| #[trigger] after.contains_key(root) implies after[root]
            == expected[root] by {
            assert(projects@.contains_key(root));
        }
        assert(after =~= expected);
    }
}

/// The texts in a directory whose diagnostics are to be cleared.
fn documents_to_clear(
    capabilities: ClientCapabilities,
    documents: &Vec<DocumentHandle>,
    directory: &SystemPath,
) -> (uris: Vec<String>)
    ensures
        workspaces::names_of(uris@) == cleared_documents(
            capabilities,
            session::documents_of(documents@),
            directory@,
        ),
{
    let ghost all = session::documents_of(documents@);
    let mut uris: Vec<String> = Vec::new();
    let mut i: usize = 0;
    assert(all.take(0) =~= Seq::empty());
    assert(workspaces::names_of(uris@) =~= Seq::empty());
    while i < documents.len()
        invariant
            i <= documents@.len(),
            all == session::documents_of(documents@),
            workspaces::names_of(uris@) == cleared_documents(
                capabilities,
                all.take(i as int),
                directory@,
            ),
        decreases documents@.len() - i,
    {
        let document = &documents[i];
        let ghost before = workspaces::names_of(uris@);
        assert(all.take(i as int + 1).drop_last() =~= all.take(i as int));
        assert(all.take(i as int + 1).last() == document@);
        let inside = match &document.path {
            AnySystemPath::System(path) => path.starts_with(directory),
            AnySystemPath::Virtual(_) => false,
        };
        if inside && document.kind != DocumentKind::Notebook && clear_diagnostics_if_needed(
            capabilities,
            document,
        ) {
            uris.push(document.uri.clone());
            assert(workspaces::names_of(uris@) =~= before.push(document@.uri));
        }
        i += 1;
    }
    assert(all.take(i as int) =~= all);
    uris
}

/// Whether the diagnostics of a document are to be cleared, since the client does not ask for them.
pub fn clear_diagnostics_if_needed(capabilities: ClientCapabilities, document: &DocumentHandle) -> (
    clear: bool)
    ensures
        clear == needs_clearing(capabilities, document@),
{
    !capabilities.pull_diagnostics || document.is_cell_or_notebook()
}

// ---------------------------------------------------------------------------------------------
// Settings and owners
// ---------------------------------------------------------------------------------------------

/// Whether a project owns a file: what its path is routed to does; what is routed nowhere belongs to
/// every workspace project, and what lies nowhere to every project.
pub open spec fn owns(
    projects: Map<Seq<Seq<char>>, Project>,
    root: Seq<Seq<char>>,
    place: Place,
) -> bool {
    match place {
        Place::System(path) => match session::routed(projects, path) {
            Some(own) => own == root,
            None => projects[root].kind == ProjectKind::Workspace,
        },
        Place::Virtual(_) => true,
    }
}

impl<S> Session<S> {
    /// Whether a project owns a file.
    pub fn project_owns_file(&self, root: &SystemPath, place: &AnySystemPath) -> (owned: bool)
        requires
            self.projects.wf(),
            self.routes().projects.contains_key(root@),
            place.wf(),
        ensures
            owned == owns(self.routes().projects, root@, place@),
    {
        match place {
            AnySystemPath::System(path) => match session::project_root_for_path(
                &self.projects,
                path,
            ) {
                Some(own) => own.same_as(root),
                None => match self.projects.get(root) {
                    Some(state) => state.kind == ProjectKind::Workspace,
                    None => false,
                },
            },
            AnySystemPath::Virtual(_) => true,
        }
    }

    /// The settings for a document: of the folder that it lies in. A document that lies nowhere has
    /// those of the folder that its project lies in, or else of the first folder. The outer option
    /// says whether there are any.
    pub fn workspace_settings_for_document(
        &self,
        place: &AnySystemPath,
        project_root: &SystemPath,
    ) -> (settings: Option<&Option<S>>)
        requires
            self.workspaces.wf(),
            place.wf(),
            project_root.wf(),
        ensures
            ({
                let own = match place@ {
                    Place::System(path) => self.workspaces.root_of(path),
                    Place::Virtual(_) => self.workspaces.root_of(project_root@),
                };
                match own {
                    Some(root) => self.workspaces.folders@.contains_key(root) && (
                    settings matches Some(settings) && *settings
                        == self.workspaces.folders@[root].settings),
                    None => if place@ is Virtual && self.workspaces.folders.entries().len() > 0 {
                        settings matches Some(settings) && *settings
                            == self.workspaces.folders.entries()[0].value.settings
                    } else {
                        settings is None
                    },
                }
            }),
    {
        match place {
            AnySystemPath::System(path) => self.workspaces.settings_for_path(path),
            AnySystemPath::Virtual(_) => match self.workspaces.settings_for_path(project_root) {
                Some(settings) => Some(settings),
                None => self.workspaces.settings_virtual_fallback(),
            },
        }
    }
}

// ---------------------------------------------------------------------------------------------
// Requests that wait for a change
// ---------------------------------------------------------------------------------------------

/// A request for the diagnostics of the workspace that had nothing new to say.
#[derive(Debug)]
pub struct SuspendedWorkspaceDiagnosticRequest<P> {
    pub request: P,
    /// The revision that the request has seen.
    pub revision: u64,
}

/// What becomes of a request that waits.
#[derive(Debug)]
pub enum Resumption<P> {
    /// It was cancelled.
    Dropped,
    /// Nothing has changed.
    Waiting(SuspendedWorkspaceDiagnosticRequest<P>),
    /// Something may have changed: it is to be run again.
    Retry(P),
}

impl<P> SuspendedWorkspaceDiagnosticRequest<P> {
    /// Says what becomes of the request at a revision.
    pub fn resume(self, is_pending: bool, revision: u64) -> (resumption: Resumption<P>)
        ensures
            resumption == if !is_pending {
                Resumption::Dropped
            } else if self.revision == revision {
                Resumption::Waiting(self)
            } else {
                Resumption::Retry(self.request)
            },
    {
        if !is_pending {
            Resumption::Dropped
        } else if self.revision == revision {
            Resumption::Waiting(self)
        } else {
            Resumption::Retry(self.request)
        }
    }
}

// ---------------------------------------------------------------------------------------------
// Words to the user
// ---------------------------------------------------------------------------------------------

/// The editor that is connected.
#[derive(Clone, Copy, Debug, PartialEq, Eq, Structural)]
pub enum ClientName {
    Zed,
    Other,
}

impl ClientName {
    /// Tells the editor by its name.
    pub fn from_name(name: Option<&str>) -> (client: Self)
        ensures
            client == if name matches Some(name) && name@ == "Zed"@ {
                ClientName::Zed
            } else {
                ClientName::Other
            },
    {
        match name {
            Some(name) => if text::same_text(name, "Zed") {
                ClientName::Zed
            } else {
                ClientName::Other
            },
            None => ClientName::Other,
        }
    }

    /// Where the user finds the logs.
    pub fn log_guidance(self) -> (guidance: &'static str)
        ensures
            guidance@ == guidance_of(self),
    {
        match self {
            ClientName::Zed => {
                "Please refer to the logs for more details (command palette: `dev: open language server logs`)."
            },
            ClientName::Other => "Please refer to the logs for more details.",
        }
    }
}

/// Where the user finds the logs.
pub open spec fn guidance_of(client: ClientName) -> Seq<char> {
    match client {
        ClientName::Zed => {
            "Please refer to the logs for more details (command palette: `dev: open language server logs`)."@
        },
        ClientName::Other => "Please refer to the logs for more details."@,
    }
}

/// Says that the project of a folder could not be loaded.
pub fn failed_project_message(uri: &str, client: ClientName) -> (message: String)
    ensures
        message@ == "Failed to load project for workspace "@ + uri@ + ". "@ + guidance_of(client),
{
    let mut message = "Failed to load project for workspace ".to_owned();
    text::push_text(&mut message, uri);
    text::push_text(&mut message, ". ");
    text::push_text(&mut message, client.log_guidance());
    message
}

/// Says that there are unknown options: for a folder, or where the session was started.
pub fn unknown_options_message(workspace_uri: Option<&str>, options: &str) -> (message: String)
    ensures
        message@ == match workspace_uri {
            Some(uri) => "Received unknown options for workspace `"@ + uri@ + "`: "@ + options@,
            None => "Received unknown options during initialization: "@ + options@,
        },
{
    match workspace_uri {
        Some(uri) => {
            let mut message = "Received unknown options for workspace `".to_owned();
            text::push_text(&mut message, uri);
            text::push_text(&mut message, "`: ");
            text::push_text(&mut message, options);
            message
        },
        None => {
            let mut message = "Received unknown options during initialization: ".to_owned();
            text::push_text(&mut message, options);
            message
        },
    }
}

} // verus!

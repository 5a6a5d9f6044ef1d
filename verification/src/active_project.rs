//! The active project of a database: its sources, kept in step with the file system and the open
//! documents.

use vstd::prelude::*;

use crate::order;
use crate::order::{Keyed, Ordered};
use crate::paths;
use crate::paths::SystemPath;
use crate::project;
use crate::project::{ChalkConfig, ChalkProject, ChalkProjectError, Failure};
use crate::semantic::File;
use crate::system::System;
use crate::text;
use crate::text::Relation;

verus! {

// ---------------------------------------------------------------------------------------------
// Files
// ---------------------------------------------------------------------------------------------

/// Where a file of the database comes from.
#[derive(Debug)]
pub enum FilePath {
    System(SystemPath),
    Vendored,
    Virtual,
}

/// The files of a database, by their number.
#[derive(Debug)]
pub struct Files {
    pub paths: Vec<FilePath>,
}

/// The file at a path, from a place in the table on.
pub open spec fn file_from(paths: Seq<FilePath>, path: Seq<Seq<char>>, at: int) -> Option<File>
    decreases paths.len() - at,
{
    if at < 0 || at >= paths.len() {
        None
    } else if paths[at] matches FilePath::System(own) && own@ == path {
        Some(File { id: at as usize })
    } else {
        file_from(paths, path, at + 1)
    }
}

impl Files {
    /// Whether the paths are paths.
    pub open spec fn wf(self) -> bool {
        forall|i: int|
            0 <= i < self.paths@.len() ==> ((#[trigger] self.paths@[i]) matches FilePath::System(
                path,
            ) ==> path.wf())
    }

    /// The path of a file, for one of the file system.
    pub open spec fn path(self, file: File) -> Option<Seq<Seq<char>>> {
        if file.id < self.paths@.len() {
            match self.paths@[file.id as int] {
                FilePath::System(path) => Some(path@),
                _ => None,
            }
        } else {
            None
        }
    }

    /// The file at a path.
    pub open spec fn file_at(self, path: Seq<Seq<char>>) -> Option<File> {
        file_from(self.paths@, path, 0)
    }

    /// Whether files are files of the file system.
    pub open spec fn are_sources(self, files: Seq<File>) -> bool {
        forall|i: int| 0 <= i < files.len() ==> self.path(#[trigger] files[i]) is Some
    }

    /// The path of a file, for one of the file system.
    pub fn system_path(&self, file: File) -> (path: Option<&SystemPath>)
        requires
            self.wf(),
        ensures
            match (path, self.path(file)) {
                (Some(path), Some(expected)) => path@ == expected && path.wf(),
                (None, None) => true,
                _ => false,
            },
    {
        if file.id < self.paths.len() {
            assert(self.paths@[file.id as int] == self.paths[file.id as int]);
            match &self.paths[file.id] {
                FilePath::System(path) => Some(path),
                _ => None,
            }
        } else {
            None
        }
    }

    /// The file at a path.
    pub fn find(&self, path: &SystemPath) -> (file: Option<File>)
        ensures
            file == self.file_at(path@),
    {
        let mut i: usize = 0;
        while i < self.paths.len()
            invariant
                i <= self.paths@.len(),
                self.file_at(path@) == file_from(self.paths@, path@, i as int),
            decreases self.paths@.len() - i,
        {
            match &self.paths[i] {
                FilePath::System(own) => {
                    if own.same_as(path) {
                        return Some(File { id: i });
                    }
                },
                _ => {},
            }
            i += 1;
        }
        None
    }
}

/// The file at a path has that path.
pub proof fn lemma_file_from(files: Files, path: Seq<Seq<char>>, at: int)
    requires
        0 <= at,
        file_from(files.paths@, path, at) is Some,
        files.paths@.len() <= usize::MAX,
    ensures
        files.path(file_from(files.paths@, path, at)->Some_0) == Some(path),
    decreases files.paths@.len() - at,
{
    if !(files.paths@[at] matches FilePath::System(own) && own@ == path) {
        lemma_file_from(files, path, at + 1);
    }
}

// ---------------------------------------------------------------------------------------------
// The sources of an active project
// ---------------------------------------------------------------------------------------------

/// The files at paths, or the first path without one.
pub open spec fn resolved_files(files: Files, paths: Seq<Seq<Seq<char>>>) -> Result<
    Seq<File>,
    Failure,
>
    decreases paths.len(),
{
    if paths.len() == 0 {
        Ok(Seq::empty())
    } else {
        match resolved_files(files, paths.drop_last()) {
            Err(failure) => Err(failure),
            Ok(before) => match files.file_at(paths.last()) {
                Some(file) => Ok(before.push(file)),
                None => Err(Failure::File { path: paths.last() }),
            },
        }
    }
}

/// Sources with those open files that the project contains.
pub open spec fn with_open(
    files: Files,
    system: System,
    project: (Seq<Seq<char>>, Seq<Seq<char>>),
    config: Result<ChalkConfig, String>,
    sources: Seq<File>,
    open: Seq<File>,
) -> Result<Seq<File>, Failure>
    decreases open.len(),
{
    if open.len() == 0 {
        Ok(sources)
    } else {
        match with_open(files, system, project, config, sources, open.drop_last()) {
            Err(failure) => Err(failure),
            Ok(before) => match files.path(open.last()) {
                None => Ok(before),
                Some(path) => if before.contains(open.last()) {
                    Ok(before)
                } else {
                    match project::is_project_source(system, project.0, project.1, config, path) {
                        Err(failure) => Err(failure),
                        Ok(contained) => if contained {
                            Ok(before.push(open.last()))
                        } else {
                            Ok(before)
                        },
                    }
                },
            },
        }
    }
}

/// A file with the text of its path.
pub struct Named {
    pub file: File,
    pub text: Seq<char>,
}

/// A file with the text of its path.
#[derive(Debug)]
pub struct NamedFile {
    pub file: File,
    pub text: String,
}

impl Ordered for Named {
    type Key = Seq<char>;

    open spec fn key(&self) -> Seq<char> {
        self.text
    }

    open spec fn key_before(a: Seq<char>, b: Seq<char>) -> bool {
        text::text_before(a, b)
    }

    proof fn key_irreflexive(a: Seq<char>) {
        text::lemma_text_before_irreflexive(a);
    }

    proof fn key_transitive(a: Seq<char>, b: Seq<char>, c: Seq<char>) {
        text::lemma_text_before_transitive(a, b, c);
    }

    proof fn key_total(a: Seq<char>, b: Seq<char>) {
        text::lemma_text_before_total(a, b);
    }
}

impl Ordered for NamedFile {
    type Key = Seq<char>;

    open spec fn key(&self) -> Seq<char> {
        self.text@
    }

    open spec fn key_before(a: Seq<char>, b: Seq<char>) -> bool {
        text::text_before(a, b)
    }

    proof fn key_irreflexive(a: Seq<char>) {
        text::lemma_text_before_irreflexive(a);
    }

    proof fn key_transitive(a: Seq<char>, b: Seq<char>, c: Seq<char>) {
        text::lemma_text_before_transitive(a, b, c);
    }

    proof fn key_total(a: Seq<char>, b: Seq<char>) {
        text::lemma_text_before_total(a, b);
    }
}

impl Keyed for NamedFile {
    fn relate(&self, other: &Self) -> (relation: Relation) {
        self.text.relate(&other.text)
    }
}

/// Files with the texts of their paths.
pub open spec fn named(files: Files, sources: Seq<File>) -> Seq<Named> {
    Seq::new(
        sources.len(),
        |i: int|
            Named { file: sources[i], text: paths::path_text(files.path(sources[i])->Some_0) },
    )
}

/// Named files without their names.
pub open spec fn unnamed(sources: Seq<Named>) -> Seq<File> {
    Seq::new(sources.len(), |i: int| sources[i].file)
}

/// Files, sorted by the text of their paths.
pub open spec fn sorted_files(files: Files, sources: Seq<File>) -> Seq<File> {
    unnamed(order::stable_sort(named(files, sources)))
}

/// The sources of a project and of the documents that are open in it, sorted by path, or why they
/// are not known.
pub open spec fn active_sources(
    files: Files,
    system: System,
    project: (Seq<Seq<char>>, Seq<Seq<char>>),
    config: Result<ChalkConfig, String>,
    open: Seq<File>,
) -> Result<Seq<File>, Failure> {
    match project::ignore_path(system, project.0, project.1, config) {
        Err(failure) => Err(failure),
        Ok(_) => match project::project_sources(system, project.0, project.1, config) {
            Err(failure) => Err(failure),
            Ok(found) => match resolved_files(files, project::sorted_paths(found)) {
                Err(failure) => Err(failure),
                Ok(native) => match with_open(files, system, project, config, native, open) {
                    Err(failure) => Err(failure),
                    Ok(sources) => Ok(sorted_files(files, sources)),
                },
            },
        },
    }
}

/// Whether a file stands in a list.
fn contains_file(sources: &Vec<File>, file: File) -> (found: bool)
    ensures
        found == sources@.contains(file),
{
    let mut i: usize = 0;
    while i < sources.len()
        invariant
            i <= sources@.len(),
            forall|k: int| 0 <= k < i ==> sources@[k] != file,
        decreases sources@.len() - i,
    {
        if sources[i] == file {
            assert(sources@[i as int] == file);
            return true;
        }
        i += 1;
    }
    false
}

/// The files at paths, or the first path without one.
fn resolve_files(files: &Files, paths: &Vec<SystemPath>) -> (result: Result<
    Vec<File>,
    ChalkProjectError,
>)
    requires
        files.wf(),
    ensures
        match (result, resolved_files(*files, order::keys(paths@))) {
            (Ok(sources), Ok(expected)) => sources@ == expected && files.are_sources(sources@),
            (Err(error), Err(failure)) => error@ == failure,
            _ => false,
        },
{
    let ghost all = order::keys(paths@);
    let mut sources: Vec<File> = Vec::new();
    let mut i: usize = 0;
    while i < paths.len()
        invariant
            i <= paths@.len(),
            all == order::keys(paths@),
            files.wf(),
            files.are_sources(sources@),
            resolved_files(*files, all.take(i as int)) == Ok::<Seq<File>, Failure>(sources@),
        decreases paths@.len() - i,
    {
        assert(all.take(i as int + 1).drop_last() =~= all.take(i as int));
        assert(all.take(i as int + 1).last() == paths@[i as int]@);
        let ghost before = sources@;
        match files.find(&paths[i]) {
            Some(file) => {
                proof {
                    vstd::std_specs::vec::axiom_spec_len(&files.paths);
                    lemma_file_from(*files, paths@[i as int]@, 0);
                }
                sources.push(file);
                assert forall|k: int| 0 <= k < sources@.len() implies files.path(
                    #[trigger] sources@[k],
                ) is Some by {
                    if k < before.len() {
                        assert(sources@[k] == before[k]);
                    }
                }
            },
            None => {
                proof {
                    lemma_resolved_fails(*files, all, i as int + 1);
                }
                return Err(ChalkProjectError::File { path: paths[i].copied() });
            },
        }
        i += 1;
    }
    assert(all.take(all.len() as int) =~= all);
    Ok(sources)
}

proof fn lemma_resolved_fails(files: Files, paths: Seq<Seq<Seq<char>>>, at: int)
    requires
        0 <= at <= paths.len(),
        resolved_files(files, paths.take(at)) is Err,
    ensures
        resolved_files(files, paths) == resolved_files(files, paths.take(at)),
    decreases paths.len() - at,
{
    if at < paths.len() {
        assert(paths.take(at + 1).drop_last() =~= paths.take(at));
        lemma_resolved_fails(files, paths, at + 1);
    } else {
        assert(paths.take(at) =~= paths);
    }
}

/// Adds those open files that the project contains.
fn add_open(
    files: &Files,
    system: &System,
    project: &ChalkProject,
    config: &Result<ChalkConfig, String>,
    sources: &mut Vec<File>,
    open: &Vec<File>,
) -> (result: Result<(), ChalkProjectError>)
    requires
        files.wf(),
        system.wf(),
        project.wf(),
        files.are_sources(old(sources)@),
    ensures
        match (
            result,
            with_open(
                *files,
                *system,
                (project.root@, project.config_path@),
                *config,
                old(sources)@,
                open@,
            ),
        ) {
            (Ok(_), Ok(expected)) => final(sources)@ == expected && files.are_sources(
                final(sources)@,
            ),
            (Err(error), Err(failure)) => error@ == failure,
            _ => false,
        },
{
    let ghost place = (project.root@, project.config_path@);
    let ghost start = sources@;
    let mut i: usize = 0;
    assert(open@.take(0) =~= Seq::empty());
    while i < open.len()
        invariant
            i <= open@.len(),
            files.wf(),
            system.wf(),
            project.wf(),
            place == (project.root@, project.config_path@),
            start == old(sources)@,
            files.are_sources(sources@),
            with_open(*files, *system, place, *config, start, open@.take(i as int)) == Ok::<
                Seq<File>,
                Failure,
            >(sources@),
        decreases open@.len() - i,
    {
        let file = open[i];
        let ghost before = sources@;
        assert(open@.take(i as int + 1).drop_last() =~= open@.take(i as int));
        assert(open@.take(i as int + 1).last() == file);
        if let Some(path) = files.system_path(file) {
            if !contains_file(sources, file) {
                match project.contains_path(system, config, path) {
                    Ok(contained) => {
                        if contained {
                            sources.push(file);
                            assert forall|k: int| 0 <= k < sources@.len() implies files.path(
                                #[trigger] sources@[k],
                            ) is Some by {
                                if k < before.len() {
                                    assert(sources@[k] == before[k]);
                                }
                            }
                        }
                    },
                    Err(error) => {
                        proof {
                            lemma_with_open_fails(
                                *files,
                                *system,
                                place,
                                *config,
                                start,
                                open@,
                                i as int + 1,
                            );
                        }
                        return Err(error);
                    },
                }
            }
        }
        i += 1;
    }
    assert(open@.take(open@.len() as int) =~= open@);
    Ok(())
}

proof fn lemma_with_open_fails(
    files: Files,
    system: System,
    project: (Seq<Seq<char>>, Seq<Seq<char>>),
    config: Result<ChalkConfig, String>,
    sources: Seq<File>,
    open: Seq<File>,
    at: int,
)
    requires
        0 <= at <= open.len(),
        with_open(files, system, project, config, sources, open.take(at)) is Err,
    ensures
        with_open(files, system, project, config, sources, open) == with_open(
            files,
            system,
            project,
            config,
            sources,
            open.take(at),
        ),
    decreases open.len() - at,
{
    if at < open.len() {
        assert(open.take(at + 1).drop_last() =~= open.take(at));
        lemma_with_open_fails(files, system, project, config, sources, open, at + 1);
    } else {
        assert(open.take(at) =~= open);
    }
}

/// Sorts files by the text of their paths.
fn sort_files(files: &Files, sources: &Vec<File>) -> (sorted: Vec<File>)
    requires
        files.wf(),
        files.are_sources(sources@),
    ensures
        sorted@ == sorted_files(*files, sources@),
        files.are_sources(sorted@),
{
    let mut items: Vec<NamedFile> = Vec::new();
    let ghost map = |item: NamedFile| Named { file: item.file, text: item.text@ };
    let mut i: usize = 0;
    while i < sources.len()
        invariant
            i <= sources@.len(),
            files.wf(),
            files.are_sources(sources@),
            items@.len() == i,
            forall|k: int|
                0 <= k < i ==> (#[trigger] items@[k]).file == sources@[k] && items@[k].text@
                    == paths::path_text(files.path(sources@[k])->Some_0),
        decreases sources@.len() - i,
    {
        assert(files.path(sources@[i as int]) is Some);
        if let Some(path) = files.system_path(sources[i]) {
            items.push(NamedFile { file: sources[i], text: path.to_text() });
        }
        i += 1;
    }
    let ghost unsorted = items@;
    proof {
        assert(unsorted.map_values(map) =~= named(*files, sources@));
        order::lemma_stable_sort_map(unsorted, map);
        order::lemma_stable_sort(unsorted);
    }
    let sorted_items = order::sort_stable(items);
    let mut sorted: Vec<File> = Vec::new();
    let mut j: usize = 0;
    while j < sorted_items.len()
        invariant
            j <= sorted_items@.len(),
            sorted@.len() == j,
            forall|k: int| 0 <= k < j ==> sorted@[k] == sorted_items@[k].file,
        decreases sorted_items@.len() - j,
    {
        sorted.push(sorted_items[j].file);
        j += 1;
    }
    proof {
        assert(sorted@ =~= unnamed(sorted_items@.map_values(map)));
        assert forall|k: int| 0 <= k < sorted@.len() implies files.path(#[trigger] sorted@[k])
            is Some by {
            assert(sorted_items@.contains(sorted_items@[k]));
            assert(unsorted.contains(sorted_items@[k]));
            let m = choose|m: int| 0 <= m < unsorted.len() && unsorted[m] == sorted_items@[k];
            assert(files.path(sources@[m]) is Some);
        }
    }
    sorted
}

/// The sources of a project and of the documents that are open in it, sorted by path, and the path
/// of its ignore file.
fn source_files(
    files: &Files,
    system: &System,
    project: &ChalkProject,
    config: &Result<ChalkConfig, String>,
    open: &Vec<File>,
) -> (result: Result<(Vec<File>, SystemPath), ChalkProjectError>)
    requires
        files.wf(),
        system.wf(),
        project.wf(),
    ensures
        match (
            result,
            active_sources(
                *files,
                *system,
                (project.root@, project.config_path@),
                *config,
                open@,
            ),
        ) {
            (Ok((sources, path)), Ok(expected)) => {
                &&& sources@ == expected
                &&& files.are_sources(sources@)
                &&& project::ignore_path(*system, project.root@, project.config_path@, *config)
                    == Ok::<Seq<Seq<char>>, Failure>(path@)
                &&& path.wf()
            },
            (Err(error), Err(failure)) => error@ == failure,
            _ => false,
        },
{
    let ignore_path = match project.configured_ignore_path(system, config) {
        Ok(path) => path,
        Err(error) => {
            return Err(error);
        },
    };
    let paths = match project.source_files(system, config) {
        Ok(paths) => paths,
        Err(error) => {
            return Err(error);
        },
    };
    let mut sources = match resolve_files(files, &paths) {
        Ok(sources) => sources,
        Err(error) => {
            return Err(error);
        },
    };
    match add_open(files, system, project, config, &mut sources, open) {
        Ok(_) => {},
        Err(error) => {
            return Err(error);
        },
    }
    Ok((sort_files(files, &sources), ignore_path))
}

// ---------------------------------------------------------------------------------------------
// The input
// ---------------------------------------------------------------------------------------------

/// A project as the checks see it: the files that are its sources, in a fixed order.
#[derive(Debug)]
pub struct ChalkProjectInput {
    pub root: SystemPath,
    pub config_path: SystemPath,
    pub source_files: Vec<File>,
}

/// Whether a path is that of a Python source.
pub open spec fn is_python_path(path: Seq<Seq<char>>) -> bool {
    path.len() > 0 && paths::is_python_name(path.last())
}

/// Whether a path is that of a SQL source.
pub open spec fn is_sql_path(path: Seq<Seq<char>>) -> bool {
    path.len() > 0 && ".chalk.sql"@.is_suffix_of(path.last())
}

impl ChalkProjectInput {
    /// Whether the paths are paths and the sources files of the file system.
    pub open spec fn wf(self, files: Files) -> bool {
        self.root.wf() && self.config_path.wf() && files.are_sources(self.source_files@)
    }

    /// The Python sources, in order.
    pub fn python_files(&self, files: &Files) -> (found: Vec<File>)
        requires
            files.wf(),
            self.wf(*files),
        ensures
            found@ == self.source_files@.filter(
                |file: File| is_python_path(files.path(file)->Some_0),
            ),
    {
        let ghost wanted = |file: File| is_python_path(files.path(file)->Some_0);
        let mut found: Vec<File> = Vec::new();
        let mut i: usize = 0;
        assert(self.source_files@.take(0) =~= Seq::empty());
        proof {
            reveal(Seq::filter);
        }
        while i < self.source_files.len()
            invariant
                i <= self.source_files@.len(),
                files.wf(),
                self.wf(*files),
                wanted == (|file: File| is_python_path(files.path(file)->Some_0)),
                found@ == self.source_files@.take(i as int).filter(wanted),
            decreases self.source_files@.len() - i,
        {
            let file = self.source_files[i];
            proof {
                reveal(Seq::filter);
                assert(self.source_files@.take(i as int + 1).drop_last()
                    =~= self.source_files@.take(i as int));
                assert(files.path(self.source_files@[i as int]) is Some);
            }
            if let Some(path) = files.system_path(file) {
                if let Some(name) = path.file_name() {
                    if paths::has_python_extension(name) {
                        found.push(file);
                    }
                }
            }
            i += 1;
        }
        assert(self.source_files@.take(i as int) =~= self.source_files@);
        found
    }

    /// The SQL sources, in order.
    pub fn chalk_sql_files(&self, files: &Files) -> (found: Vec<File>)
        requires
            files.wf(),
            self.wf(*files),
        ensures
            found@ == self.source_files@.filter(
                |file: File| is_sql_path(files.path(file)->Some_0),
            ),
    {
        let ghost wanted = |file: File| is_sql_path(files.path(file)->Some_0);
        let mut found: Vec<File> = Vec::new();
        let mut i: usize = 0;
        assert(self.source_files@.take(0) =~= Seq::empty());
        proof {
            reveal(Seq::filter);
        }
        while i < self.source_files.len()
            invariant
                i <= self.source_files@.len(),
                files.wf(),
                self.wf(*files),
                wanted == (|file: File| is_sql_path(files.path(file)->Some_0)),
                found@ == self.source_files@.take(i as int).filter(wanted),
            decreases self.source_files@.len() - i,
        {
            let file = self.source_files[i];
            proof {
                reveal(Seq::filter);
                assert(self.source_files@.take(i as int + 1).drop_last()
                    =~= self.source_files@.take(i as int));
                assert(files.path(self.source_files@[i as int]) is Some);
            }
            if let Some(path) = files.system_path(file) {
                if let Some(name) = path.file_name() {
                    if text::has_suffix(name, ".chalk.sql") {
                        found.push(file);
                    }
                }
            }
            i += 1;
        }
        assert(self.source_files@.take(i as int) =~= self.source_files@);
        found
    }
}

// ---------------------------------------------------------------------------------------------
// Changes
// ---------------------------------------------------------------------------------------------

/// A change of the file system or of an open document.
#[derive(Debug)]
pub enum ChangeEvent {
    Opened(SystemPath),
    Created { path: SystemPath },
    Changed { path: SystemPath },
    Deleted { path: SystemPath },
    CreatedVirtual(String),
    ChangedVirtual(String),
    DeletedVirtual(String),
    Rescan,
}

/// A change.
pub enum Change {
    Opened(Seq<Seq<char>>),
    Created(Seq<Seq<char>>),
    Changed(Seq<Seq<char>>),
    Deleted(Seq<Seq<char>>),
    CreatedVirtual(Seq<char>),
    ChangedVirtual(Seq<char>),
    DeletedVirtual(Seq<char>),
    Rescan,
}

impl View for ChangeEvent {
    type V = Change;

    open spec fn view(&self) -> Change {
        match self {
            ChangeEvent::Opened(path) => Change::Opened(path@),
            ChangeEvent::Created { path } => Change::Created(path@),
            ChangeEvent::Changed { path } => Change::Changed(path@),
            ChangeEvent::Deleted { path } => Change::Deleted(path@),
            ChangeEvent::CreatedVirtual(name) => Change::CreatedVirtual(name@),
            ChangeEvent::ChangedVirtual(name) => Change::ChangedVirtual(name@),
            ChangeEvent::DeletedVirtual(name) => Change::DeletedVirtual(name@),
            ChangeEvent::Rescan => Change::Rescan,
        }
    }
}

impl Change {
    /// The path that changed in the file system.
    pub open spec fn path(self) -> Option<Seq<Seq<char>>> {
        match self {
            Change::Opened(path) => Some(path),
            Change::Created(path) => Some(path),
            Change::Changed(path) => Some(path),
            Change::Deleted(path) => Some(path),
            _ => None,
        }
    }
}

impl ChangeEvent {
    /// The path that changed in the file system.
    pub fn system_path(&self) -> (path: Option<&SystemPath>)
        ensures
            match (path, self@.path()) {
                (Some(path), Some(expected)) => path@ == expected,
                (None, None) => true,
                _ => false,
            },
    {
        match self {
            ChangeEvent::Opened(path) => Some(path),
            ChangeEvent::Created { path } => Some(path),
            ChangeEvent::Changed { path } => Some(path),
            ChangeEvent::Deleted { path } => Some(path),
            _ => None,
        }
    }
}

/// Whether a path has one of two names.
pub open spec fn is_named(path: Seq<Seq<char>>, a: Seq<char>, b: Seq<char>) -> bool {
    path.len() > 0 && (path.last() == a || path.last() == b)
}

/// Whether a change can change which files are the sources of a project: a rescan, a change of its
/// ignore file, a file that comes or goes in it, or new contents of its configuration, of an
/// ignore file or of what is no source. Configuration files that come or go are not for the
/// project to follow: they change which project there is.
pub open spec fn affects_sources(
    root: Seq<Seq<char>>,
    config_path: Seq<Seq<char>>,
    ignore_path: Seq<Seq<char>>,
    change: Change,
) -> bool {
    match change.path() {
        None => change is Rescan,
        Some(path) => if (change is Created || change is Deleted) && is_named(
            path,
            "chalk.yml"@,
            "chalk.yaml"@,
        ) {
            false
        } else {
            path == ignore_path || (paths::lies_in(path, root) && (change is Changed ==> path
                == config_path || is_named(path, ".gitignore"@, ".chalkignore"@)
                || !paths::is_source_path(path)))
        },
    }
}

/// Whether a path has one of two names.
fn has_name(path: &SystemPath, a: &str, b: &str) -> (found: bool)
    ensures
        found == is_named(path@, a@, b@),
{
    match path.file_name() {
        Some(name) => text::same_text(name, a) || text::same_text(name, b),
        None => false,
    }
}

// ---------------------------------------------------------------------------------------------
// The active project
// ---------------------------------------------------------------------------------------------

/// The active project of a database.
#[derive(Debug)]
pub struct ActiveChalkProject {
    project: ChalkProject,
    input: ChalkProjectInput,
    ignore_path: SystemPath,
    open_sources: Vec<File>,
}

/// An active project: where it lies, what its sources are and what is open in it.
#[verifier::ext_equal]
pub struct Active {
    pub root: Seq<Seq<char>>,
    pub config_path: Seq<Seq<char>>,
    pub sources: Seq<File>,
    pub ignore_path: Seq<Seq<char>>,
    pub open: Seq<File>,
}

/// Whether a document can be kept open in a project: a source of the file system below its root.
pub open spec fn can_open(files: Files, active: Active, file: File) -> bool {
    match files.path(file) {
        Some(path) => paths::lies_in(path, active.root) && paths::is_source_path(path)
            && !active.open.contains(file),
        None => false,
    }
}

/// An active project with one more document open.
pub open spec fn opened(files: Files, active: Active, file: File) -> Active {
    if can_open(files, active, file) {
        Active { open: active.open.push(file), ..active }
    } else {
        active
    }
}

/// Whether a file is another one.
pub open spec fn is_other(file: File) -> spec_fn(File) -> bool {
    |other: File| other != file
}

/// An active project with a document closed.
pub open spec fn closed(active: Active, file: File) -> Active {
    Active { open: active.open.filter(is_other(file)), ..active }
}

/// An active project with its sources looked up again; where that fails, it stays as it is.
pub open spec fn refreshed(
    files: Files,
    system: System,
    config: Result<ChalkConfig, String>,
    active: Active,
) -> Active {
    match active_sources(files, system, (active.root, active.config_path), config, active.open) {
        Ok(sources) => Active {
            sources,
            ignore_path: project::ignore_path(
                system,
                active.root,
                active.config_path,
                config,
            )->Ok_0,
            ..active
        },
        Err(_) => active,
    }
}

impl View for ActiveChalkProject {
    type V = Active;

    closed spec fn view(&self) -> Active {
        Active {
            root: self.project.root@,
            config_path: self.project.config_path@,
            sources: self.input.source_files@,
            ignore_path: self.ignore_path@,
            open: self.open_sources@,
        }
    }
}

/// Whether two lists hold the same files in the same order.
fn same_files(a: &Vec<File>, b: &Vec<File>) -> (same: bool)
    ensures
        same == (a@ == b@),
{
    if a.len() != b.len() {
        return false;
    }
    let mut i: usize = 0;
    while i < a.len()
        invariant
            a@.len() == b@.len(),
            i <= a@.len(),
            forall|k: int| 0 <= k < i ==> a@[k] == b@[k],
        decreases a@.len() - i,
    {
        if a[i] != b[i] {
            assert(a@[i as int] != b@[i as int]);
            return false;
        }
        i += 1;
    }
    assert(a@ =~= b@);
    true
}

impl ActiveChalkProject {
    /// Whether the paths are paths, the sources files of the file system, and the input that of
    /// the project.
    pub closed spec fn wf(self, files: Files) -> bool {
        &&& self.project.wf()
        &&& self.input.wf(files)
        &&& self.input.root@ == self.project.root@
        &&& self.input.config_path@ == self.project.config_path@
        &&& self.ignore_path.wf()
    }

    /// Makes a project the active one.
    pub fn new(
        files: &Files,
        system: &System,
        project: ChalkProject,
        config: &Result<ChalkConfig, String>,
    ) -> (result: Result<Self, ChalkProjectError>)
        requires
            files.wf(),
            system.wf(),
            project.wf(),
        ensures
            match (
                result,
                active_sources(
                    *files,
                    *system,
                    (project.root@, project.config_path@),
                    *config,
                    Seq::empty(),
                ),
            ) {
                (Ok(active), Ok(sources)) => {
                    &&& active@ == (Active {
                        root: project.root@,
                        config_path: project.config_path@,
                        sources,
                        ignore_path: project::ignore_path(
                            *system,
                            project.root@,
                            project.config_path@,
                            *config,
                        )->Ok_0,
                        open: Seq::empty(),
                    })
                    &&& active.wf(*files)
                },
                (Err(error), Err(failure)) => error@ == failure,
                _ => false,
            },
    {
        let open_sources: Vec<File> = Vec::new();
        match source_files(files, system, &project, config, &open_sources) {
            Ok((sources, ignore_path)) => {
                let input = ChalkProjectInput {
                    root: project.root.copied(),
                    config_path: project.config_path.copied(),
                    source_files: sources,
                };
                Ok(ActiveChalkProject { project, input, ignore_path, open_sources })
            },
            Err(error) => Err(error),
        }
    }

    /// The project.
    pub fn project(&self) -> (project: &ChalkProject)
        ensures
            project.root@ == self@.root,
            project.config_path@ == self@.config_path,
            forall|files: Files| #[trigger] self.wf(files) ==> project.wf(),
    {
        &self.project
    }

    /// The project as the checks see it.
    pub fn input(&self) -> (input: &ChalkProjectInput)
        ensures
            input.source_files@ == self@.sources,
            forall|files: Files| #[trigger]
                self.wf(files) ==> input.wf(files) && input.root@ == self@.root
                    && input.config_path@ == self@.config_path,
    {
        &self.input
    }

    /// Keeps a document open, so that it stays a source while the file system does not have it.
    /// Says whether it was not kept before.
    pub fn open_source(&mut self, files: &Files, file: File) -> (added: bool)
        requires
            files.wf(),
            old(self).wf(*files),
        ensures
            added == can_open(*files, old(self)@, file),
            final(self)@ == opened(*files, old(self)@, file),
            final(self).wf(*files),
    {
        match files.system_path(file) {
            Some(path) => {
                if !path.starts_with(&self.project.root) || !paths::is_source_candidate(path)
                    || contains_file(&self.open_sources, file) {
                    return false;
                }
            },
            None => {
                return false;
            },
        }
        self.open_sources.push(file);
        true
    }

    /// Lets go of a document. Says whether it was kept.
    pub fn close_source(&mut self, file: File) -> (removed: bool)
        ensures
            removed == old(self)@.open.contains(file),
            final(self)@ == closed(old(self)@, file),
            forall|files: Files| #[trigger] old(self).wf(files) ==> final(self).wf(files),
    {
        let ghost kept = is_other(file);
        let ghost start = self.open_sources@;
        let mut rest: Vec<File> = Vec::new();
        let mut removed = false;
        let mut i: usize = 0;
        assert(start.take(0) =~= Seq::empty());
        proof {
            reveal(Seq::filter);
        }
        while i < self.open_sources.len()
            invariant
                i <= self.open_sources@.len(),
                self.open_sources@ == start,
                *self == *old(self),
                kept == is_other(file),
                rest@ == start.take(i as int).filter(kept),
                removed == (exists|k: int| 0 <= k < i && #[trigger] start[k] == file),
            decreases self.open_sources@.len() - i,
        {
            proof {
                reveal(Seq::filter);
                assert(start.take(i as int + 1).drop_last() =~= start.take(i as int));
            }
            if self.open_sources[i] == file {
                removed = true;
                assert(start[i as int] == file);
            } else {
                rest.push(self.open_sources[i]);
            }
            i += 1;
        }
        assert(start.take(i as int) =~= start);
        self.open_sources = rest;
        removed
    }

    /// Looks up the sources again and says whether they changed. Where that fails, the project
    /// stays as it is.
    pub fn refresh(
        &mut self,
        files: &Files,
        system: &System,
        config: &Result<ChalkConfig, String>,
    ) -> (result: Result<bool, ChalkProjectError>)
        requires
            files.wf(),
            system.wf(),
            old(self).wf(*files),
        ensures
            final(self)@ == refreshed(*files, *system, *config, old(self)@),
            final(self).wf(*files),
            match (
                result,
                active_sources(
                    *files,
                    *system,
                    (old(self)@.root, old(self)@.config_path),
                    *config,
                    old(self)@.open,
                ),
            ) {
                (Ok(changed), Ok(sources)) => changed == (sources != old(self)@.sources),
                (Err(error), Err(failure)) => error@ == failure,
                _ => false,
            },
    {
        match source_files(files, system, &self.project, config, &self.open_sources) {
            Ok((sources, ignore_path)) => {
                let changed = !same_files(&self.input.source_files, &sources);
                if changed {
                    self.input.source_files = sources;
                }
                self.ignore_path = ignore_path;
                Ok(changed)
            },
            Err(error) => Err(error),
        }
    }

    /// Whether a change can change which files are the sources.
    pub fn should_refresh(&self, change: &ChangeEvent) -> (affected: bool)
        ensures
            affected == affects_sources(
                self@.root,
                self@.config_path,
                self@.ignore_path,
                change@,
            ),
    {
        if let ChangeEvent::Rescan = change {
            return true;
        }
        let path = match change.system_path() {
            Some(path) => path,
            None => {
                return false;
            },
        };
        let moved = match change {
            ChangeEvent::Created { .. } => true,
            ChangeEvent::Deleted { .. } => true,
            _ => false,
        };
        if moved && has_name(path, "chalk.yml", "chalk.yaml") {
            return false;
        }
        if path.same_as(&self.ignore_path) {
            return true;
        }
        if !path.starts_with(&self.project.root) {
            return false;
        }
        match change {
            ChangeEvent::Changed { .. } => path.same_as(&self.project.config_path) || has_name(
                path,
                ".gitignore",
                ".chalkignore",
            ) || !paths::is_source_candidate(path),
            _ => true,
        }
    }
}

} // verus!

//! Requests about the whole workspace: which files they look at, project by project.

use rustc_hash::FxHashSet;
use vstd::prelude::*;

use crate::active_project;
use crate::active_project::{ChalkProjectInput, Files};
use crate::paths::SystemPath;
use crate::semantic::File;
use crate::session;
use crate::session::{AnySystemPath, Place, Project, Session};
use crate::session_folders;

verus! {

// ---------------------------------------------------------------------------------------------
// Sets of numbers
// ---------------------------------------------------------------------------------------------

/// How `rustc_hash` sets hash their items.
#[verifier::external_type_specification]
#[verifier::external_body]
pub struct ExFxBuildHasher(rustc_hash::FxBuildHasher);

/// Makes a `rustc_hash::FxHashSet` by its `Default`: it holds nothing.
#[verifier::external_body]
fn new_set() -> (set: FxHashSet<usize>)
    ensures
        set@ == Set::<usize>::empty(),
{
    FxHashSet::default()
}

/// `insert` of a `rustc_hash::FxHashSet`: the number is in the set afterwards, and nothing else
/// changes.
#[verifier::external_body]
fn insert_number(set: &mut FxHashSet<usize>, number: usize)
    ensures
        final(set)@ == old(set)@.insert(number),
{
    set.insert(number);
}

/// `contains` of a `rustc_hash::FxHashSet`: whether the number is in the set.
#[verifier::external_body]
fn contains_number(set: &FxHashSet<usize>, number: usize) -> (found: bool)
    ensures
        found == set@.contains(number),
{
    set.contains(&number)
}

// ---------------------------------------------------------------------------------------------
// Diagnostics
// ---------------------------------------------------------------------------------------------

/// The files of a project that only its features are diagnosed in.
#[derive(Debug)]
pub struct ProjectReporter {
    pub chalk_only_files: Vec<File>,
}

/// Whether a file of a project is its own and is not checked anyway.
pub open spec fn is_chalk_only(
    files: Files,
    projects: Map<Seq<Seq<char>>, Project>,
    root: Seq<Seq<char>>,
    checked: Seq<File>,
) -> spec_fn(File) -> bool {
    |file: File|
        session_folders::owns(
            projects,
            root,
            Place::System(files.path(file)->Some_0),
        ) && !checked.contains(file)
}

/// The files of a feature project that its features alone are diagnosed in: its Python sources that
/// are its own and are not checked anyway, in order.
pub open spec fn chalk_only(
    files: Files,
    projects: Map<Seq<Seq<char>>, Project>,
    root: Seq<Seq<char>>,
    python_files: Seq<File>,
    checked: Seq<File>,
) -> Seq<File> {
    python_files.filter(is_chalk_only(files, projects, root, checked))
}

/// The numbers of files.
fn numbers_of(checked: &Vec<File>) -> (numbers: FxHashSet<usize>)
    ensures
        forall|file: File| #[trigger]
            checked@.contains(file) <==> numbers@.contains(file.id),
{
    let mut numbers = new_set();
    let mut i: usize = 0;
    while i < checked.len()
        invariant
            i <= checked@.len(),
            forall|number: usize| #[trigger]
                numbers@.contains(number) <==> exists|k: int|
                    0 <= k < i && (#[trigger] checked@[k]).id == number,
        decreases checked@.len() - i,
    {
        let ghost before = numbers@;
        insert_number(&mut numbers, checked[i].id);
        assert forall|number: usize| #[trigger]
            numbers@.contains(number) <==> exists|k: int|
                0 <= k < i + 1 && (#[trigger] checked@[k]).id == number by {
            if before.contains(number) {
                let k = choose|k: int| 0 <= k < i && (#[trigger] checked@[k]).id == number;
                assert(checked@[k].id == number);
            }
            if number == checked@[i as int].id {
                assert(checked@[i as int].id == number);
            }
        }
        i += 1;
    }
    assert forall|file: File| #[trigger]
        checked@.contains(file) <==> numbers@.contains(file.id) by {
        if checked@.contains(file) {
            let k = choose|k: int| 0 <= k < checked@.len() && checked@[k] == file;
            assert(checked@[k].id == file.id);
        }
        if numbers@.contains(file.id) {
            let k = choose|k: int|
                0 <= k < checked@.len() && (#[trigger] checked@[k]).id == file.id;
            assert(checked@[k] == file);
        }
    }
    numbers
}

impl ProjectReporter {
    /// Finds the files of a project that only its features are diagnosed in.
    pub fn new<S>(
        session: &Session<S>,
        files: &Files,
        root: &SystemPath,
        input: Option<&ChalkProjectInput>,
        checked: &Vec<File>,
    ) -> (reporter: Self)
        requires
            session.projects.wf(),
            session.routes().projects.contains_key(root@),
            files.wf(),
            input matches Some(input) ==> input.wf(*files),
        ensures
            reporter.chalk_only_files@ == match input {
                Some(input) => chalk_only(
                    *files,
                    session.routes().projects,
                    root@,
                    input.source_files@.filter(
                        |file: File|
                            active_project::is_python_path(files.path(file)->Some_0),
                    ),
                    checked@,
                ),
                None => Seq::empty(),
            },
    {
        let mut found: Vec<File> = Vec::new();
        let input = match input {
            Some(input) => input,
            None => {
                return ProjectReporter { chalk_only_files: found };
            },
        };
        let numbers = numbers_of(checked);
        let python_files = input.python_files(files);
        let ghost all = python_files@;
        let ghost python = |file: File| active_project::is_python_path(files.path(file)->Some_0);
        let ghost wanted = is_chalk_only(
            *files,
            session.routes().projects,
            root@,
            checked@,
        );
        let mut i: usize = 0;
        proof {
            reveal(Seq::filter);
            assert(all.take(0) =~= Seq::empty());
            lemma_filter_known(*files, input.source_files@, python);
        }
        while i < python_files.len()
            invariant
                i <= python_files@.len(),
                all == python_files@,
                session.projects.wf(),
                session.routes().projects.contains_key(root@),
                files.wf(),
                files.are_sources(all),
                wanted == is_chalk_only(
                    *files,
                    session.routes().projects,
                    root@,
                    checked@,
                ),
                forall|file: File| #[trigger]
                    checked@.contains(file) <==> numbers@.contains(file.id),
                found@ == all.take(i as int).filter(wanted),
            decreases python_files@.len() - i,
        {
            let file = python_files[i];
            proof {
                reveal(Seq::filter);
                assert(all.take(i as int + 1).drop_last() =~= all.take(i as int));
                assert(all.take(i as int + 1).last() == file);
                assert(files.path(all[i as int]) is Some);
                assert(checked@.contains(file) <==> numbers@.contains(file.id));
            }
            if let Some(path) = files.system_path(file) {
                let place = AnySystemPath::System(path.copied());
                if session.project_owns_file(root, &place) && !contains_number(&numbers, file.id) {
                    found.push(file);
                }
            }
            i += 1;
        }
        assert(all.take(i as int) =~= all);
        ProjectReporter { chalk_only_files: found }
    }

    /// How many files are reported, with those that are checked anyway.
    pub fn set_files(&self, checked: usize) -> (count: usize)
        requires
            checked + self.chalk_only_files@.len() <= usize::MAX,
        ensures
            count == checked + self.chalk_only_files@.len(),
    {
        checked + self.chalk_only_files.len()
    }
}

/// What is kept of sources are sources.
proof fn lemma_filter_known(files: Files, sources: Seq<File>, wanted: spec_fn(File) -> bool)
    requires
        files.are_sources(sources),
    ensures
        files.are_sources(sources.filter(wanted)),
    decreases sources.len(),
{
    reveal(Seq::filter);
    if sources.len() > 0 {
        let rest = sources.drop_last();
        assert forall|i: int| 0 <= i < rest.len() implies files.path(#[trigger] rest[i])
            is Some by {
            assert(rest[i] == sources[i]);
        }
        lemma_filter_known(files, rest, wanted);
        let before = rest.filter(wanted);
        let all = sources.filter(wanted);
        assert(files.path(sources[sources.len() - 1]) is Some);
        assert forall|i: int| 0 <= i < all.len() implies files.path(#[trigger] all[i]) is Some by {
            if i < before.len() {
                assert(all[i] == before[i]);
            }
        }
    }
}

/// No file is diagnosed twice: one that is checked anyway is not looked at for its features alone.
pub proof fn law_files_are_reported_once(
    files: Files,
    projects: Map<Seq<Seq<char>>, Project>,
    root: Seq<Seq<char>>,
    python_files: Seq<File>,
    checked: Seq<File>,
    file: File,
)
    requires
        chalk_only(files, projects, root, python_files, checked).contains(file),
    ensures
        !checked.contains(file),
        python_files.contains(file),
        session_folders::owns(projects, root, Place::System(files.path(file)->Some_0)),
    decreases python_files.len(),
{
    reveal(Seq::filter);
    let wanted = is_chalk_only(files, projects, root, checked);
    if python_files.len() > 0 {
        let rest = python_files.drop_last();
        let all = python_files.filter(wanted);
        let before = rest.filter(wanted);
        let k = choose|k: int| 0 <= k < all.len() && all[k] == file;
        if k < before.len() {
            assert(before[k] == file);
            law_files_are_reported_once(files, projects, root, rest, checked, file);
            let m = choose|m: int| 0 <= m < rest.len() && rest[m] == file;
            assert(python_files[m] == file);
        } else {
            assert(file == python_files.last());
            assert(python_files[python_files.len() - 1] == file);
        }
    }
}

// ---------------------------------------------------------------------------------------------
// Symbols
// ---------------------------------------------------------------------------------------------

/// A file of a project's index.
#[derive(Debug)]
pub struct IndexedFile {
    pub file: File,
    pub place: AnySystemPath,
}

/// The files of a project's index that it owns, in order.
pub open spec fn owned_files(
    projects: Map<Seq<Seq<char>>, Project>,
    root: Seq<Seq<char>>,
    indexed: Seq<IndexedFile>,
) -> Seq<File>
    decreases indexed.len(),
{
    if indexed.len() == 0 {
        Seq::empty()
    } else {
        let before = owned_files(projects, root, indexed.drop_last());
        if session_folders::owns(projects, root, indexed.last().place@) {
            before.push(indexed.last().file)
        } else {
            before
        }
    }
}

/// Finds the files of a project's index in which symbols are looked for: those that it owns.
pub fn symbol_files<S>(session: &Session<S>, root: &SystemPath, indexed: &Vec<IndexedFile>) -> (files:
    Vec<File>)
    requires
        session.projects.wf(),
        session.routes().projects.contains_key(root@),
        forall|i: int| 0 <= i < indexed@.len() ==> (#[trigger] indexed@[i]).place.wf(),
    ensures
        files@ == owned_files(session.routes().projects, root@, indexed@),
{
    let mut files: Vec<File> = Vec::new();
    let mut i: usize = 0;
    assert(indexed@.take(0) =~= Seq::empty());
    while i < indexed.len()
        invariant
            i <= indexed@.len(),
            session.projects.wf(),
            session.routes().projects.contains_key(root@),
            forall|k: int| 0 <= k < indexed@.len() ==> (#[trigger] indexed@[k]).place.wf(),
            files@ == owned_files(session.routes().projects, root@, indexed@.take(i as int)),
        decreases indexed@.len() - i,
    {
        let entry = &indexed[i];
        assert(indexed@[i as int].place.wf());
        assert(indexed@.take(i as int + 1).drop_last() =~= indexed@.take(i as int));
        assert(indexed@.take(i as int + 1).last() == *entry);
        if session.project_owns_file(root, &entry.place) {
            files.push(entry.file);
        }
        i += 1;
    }
    assert(indexed@.take(i as int) =~= indexed@);
    files
}

/// What is answered to a query for symbols: nothing to an empty one, and nothing where none were
/// found.
pub fn symbol_response<T>(query: &str, symbols: Vec<T>) -> (response: Option<Vec<T>>)
    ensures
        response == if query@.len() == 0 || symbols@.len() == 0 {
            None
        } else {
            Some(symbols)
        },
{
    if query.unicode_len() == 0 || symbols.len() == 0 {
        None
    } else {
        Some(symbols)
    }
}

} // verus!

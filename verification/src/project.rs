//! Projects: where they lie, what they ignore and which sources they have.

use ignore::gitignore::Gitignore;
use vstd::prelude::*;

use crate::ignores;
use crate::ignores::{GitignoreEntry, MatchKind, Rules};
use crate::order;
use crate::paths;
use crate::paths::SystemPath;
use crate::system::{Entry, IoErrorKind, System};
use crate::text;

verus! {

broadcast use vstd::string::group_string_axioms;

/// A project: the directory of the nearest configuration file.
#[derive(Debug)]
pub struct ChalkProject {
    pub root: SystemPath,
    pub config_path: SystemPath,
}

/// Why the sources of a project are not known.
#[derive(Debug)]
pub enum ChalkProjectError {
    Io(IoErrorKind),
    Ignore(ignore::Error),
    Config { path: SystemPath, error: String },
    File { path: SystemPath },
}

/// Why the sources of a project are not known.
pub enum Failure {
    Io(IoErrorKind),
    Ignore,
    Config { path: Seq<Seq<char>>, error: Seq<char> },
    File { path: Seq<Seq<char>> },
}

impl View for ChalkProjectError {
    type V = Failure;

    open spec fn view(&self) -> Failure {
        match self {
            ChalkProjectError::Io(kind) => Failure::Io(*kind),
            ChalkProjectError::Ignore(_) => Failure::Ignore,
            ChalkProjectError::Config { path, error } => Failure::Config {
                path: path@,
                error: error@,
            },
            ChalkProjectError::File { path } => Failure::File { path: path@ },
        }
    }
}

/// The settings of an environment.
#[derive(Debug)]
pub struct EnvironmentConfig {
    pub chalkignore: Option<String>,
}

/// The settings of a project.
#[derive(Debug)]
pub struct ChalkConfig {
    pub chalkignore: Option<String>,
    pub environments: Vec<(String, EnvironmentConfig)>,
}

impl ChalkProject {
    /// Whether the paths are paths.
    pub open spec fn wf(self) -> bool {
        self.root.wf() && self.config_path.wf()
    }
}

// ---------------------------------------------------------------------------------------------
// Discovery
// ---------------------------------------------------------------------------------------------

/// The root and the configuration file of the project that a directory lies in: the nearest
/// directory upwards that has one.
pub open spec fn nearest(system: System, directory: Seq<Seq<char>>) -> Option<
    (Seq<Seq<char>>, Seq<Seq<char>>),
>
    decreases directory.len(),
{
    if system.has_file(directory.push("chalk.yaml"@)) {
        Some((directory, directory.push("chalk.yaml"@)))
    } else if system.has_file(directory.push("chalk.yml"@)) {
        Some((directory, directory.push("chalk.yml"@)))
    } else if directory.len() == 0 {
        None
    } else {
        nearest(system, directory.drop_last())
    }
}

/// The project that a path lies in.
pub open spec fn discovered(system: System, path: Seq<Seq<char>>) -> Option<
    (Seq<Seq<char>>, Seq<Seq<char>>),
> {
    if system.has_directory(path) {
        nearest(system, path)
    } else if path.len() == 0 {
        None
    } else {
        nearest(system, path.drop_last())
    }
}

proof fn lemma_resolved_is_path(path: Seq<Seq<char>>, names: Seq<Seq<char>>)
    requires
        paths::is_path(path),
        forall|i: int| 0 <= i < names.len() ==> !(#[trigger] names[i]).contains('/'),
    ensures
        paths::is_path(paths::go_along(path, names)),
    decreases names.len(),
{
    if names.len() > 0 {
        lemma_resolved_is_path(path, names.drop_last());
        assert(!names[names.len() - 1].contains('/'));
    }
}

proof fn lemma_split_names(text: Seq<char>)
    ensures
        paths::split(text).len() > 0,
        forall|i: int|
            0 <= i < paths::split(text).len() ==> !(#[trigger] paths::split(text)[i]).contains('/'),
    decreases text.len(),
{
    if text.len() > 0 {
        lemma_split_names(text.drop_last());
        let before = paths::split(text.drop_last());
        let names = paths::split(text);
        assert forall|i: int| 0 <= i < names.len() implies !(#[trigger] names[i]).contains('/') by {
            if text.last() == '/' {
                if i < before.len() {
                    assert(names[i] == before[i]);
                }
            } else if i < before.len() - 1 {
                assert(names[i] == before[i]);
            } else {
                let last = before.last();
                assert(names[i] == last.push(text.last()));
                assert(!before[before.len() - 1].contains('/'));
                if names[i].contains('/') {
                    let k = choose|k: int| 0 <= k < names[i].len() && names[i][k] == '/';
                    if k < last.len() {
                        assert(last[k] == '/');
                    }
                }
            }
        }
    }
}

/// What a text means in a directory is a path.
pub proof fn lemma_absolute_is_path(text: Seq<char>, directory: Seq<Seq<char>>)
    requires
        paths::is_path(directory),
    ensures
        paths::is_path(paths::resolved(text, directory)),
{
    lemma_split_names(text);
    lemma_resolved_is_path(directory, paths::split(text));
    lemma_resolved_is_path(Seq::empty(), paths::split(text));
}

proof fn lemma_fixed_names()
    ensures
        paths::is_name("chalk.yaml"@),
        paths::is_name("chalk.yml"@),
        paths::is_name(".gitignore"@),
        paths::is_name(".chalkignore"@),
{
    reveal_strlit(".");
    reveal_strlit("..");
    reveal_strlit("chalk.yaml");
    reveal_strlit("chalk.yml");
    reveal_strlit(".gitignore");
    reveal_strlit(".chalkignore");
    assert(forall|i: int| 0 <= i < 10 ==> #[trigger] "chalk.yaml"@[i] != '/');
    assert(forall|i: int| 0 <= i < 9 ==> #[trigger] "chalk.yml"@[i] != '/');
    assert(forall|i: int| 0 <= i < 10 ==> #[trigger] ".gitignore"@[i] != '/');
    assert(forall|i: int| 0 <= i < 12 ==> #[trigger] ".chalkignore"@[i] != '/');
}

/// The project that a path lies in: the nearest directory upwards with a configuration file.
pub fn discover_chalk_project(system: &System, file_path: &str) -> (project: Option<ChalkProject>)
    requires
        system.wf(),
    ensures
        match (
            project,
            discovered(*system, paths::resolved(file_path@, system.current_directory@)),
        ) {
            (Some(project), Some((root, config_path))) => project.root@ == root
                && project.config_path@ == config_path && project.wf(),
            (None, None) => true,
            _ => false,
        },
{
    proof {
        lemma_absolute_is_path(file_path@, system.current_directory@);
    }
    let path = SystemPath::absolute(file_path, &system.current_directory);
    discover_project_of(system, &path)
}

/// The project that a path lies in: the nearest directory upwards with a configuration file.
pub fn discover_project_of(system: &System, path: &SystemPath) -> (project: Option<ChalkProject>)
    requires
        system.wf(),
        path.wf(),
    ensures
        match (project, discovered(*system, path@)) {
            (Some(project), Some((root, config_path))) => project.root@ == root
                && project.config_path@ == config_path && project.wf(),
            (None, None) => true,
            _ => false,
        },
{
    let mut directory = if system.is_directory(path) {
        path.copied()
    } else {
        match path.parent() {
            Some(parent) => parent,
            None => {
                return None;
            },
        }
    };
    let ghost start = directory@;
    loop
        invariant
            paths::is_path(directory@),
            nearest(*system, start) == nearest(*system, directory@),
            discovered(*system, path@) == nearest(*system, start),
        decreases directory@.len(),
    {
        proof {
            lemma_fixed_names();
        }
        let yaml = directory.join("chalk.yaml");
        if system.is_file(&yaml) {
            return Some(ChalkProject { root: directory, config_path: yaml });
        }
        let yml = directory.join("chalk.yml");
        if system.is_file(&yml) {
            return Some(ChalkProject { root: directory, config_path: yml });
        }
        match directory.parent() {
            Some(parent) => {
                directory = parent;
            },
            None => {
                return None;
            },
        }
    }
}

// ---------------------------------------------------------------------------------------------
// Ignore files
// ---------------------------------------------------------------------------------------------

/// The globs of an ignore file; a missing file has none.
pub open spec fn file_rules(system: System, path: Seq<Seq<char>>) -> Result<
    Seq<Seq<char>>,
    Failure,
> {
    match system.contents(path) {
        Ok(contents) => {
            let lines = ignores::lines_of(contents);
            if ignores::are_rules(lines) {
                Ok(ignores::globs_of(lines))
            } else {
                Err(Failure::Ignore)
            }
        },
        Err(IoErrorKind::NotFound) => Ok(Seq::empty()),
        Err(kind) => Err(Failure::Io(kind)),
    }
}

/// The rules of a directory's own ignore file.
pub open spec fn own_rules(system: System, directory: Seq<Seq<char>>) -> Result<
    Seq<Rules>,
    Failure,
> {
    let path = directory.push(".gitignore"@);
    if system.has_file(path) {
        match file_rules(system, path) {
            Ok(globs) => Ok(seq![Rules { directory, globs }]),
            Err(failure) => Err(failure),
        }
    } else {
        Ok(Seq::empty())
    }
}

/// Whether ignore files are looked for in an entry: not in `.git`, nor in directories that the
/// rules above them ignore.
pub open spec fn is_searched(entry: Entry, active: Seq<Rules>) -> bool {
    entry.is_directory && entry.path.last() != ".git"@ && ignores::all_say(
        active,
        entry.path,
        true,
    ) != Some(MatchKind::Ignore)
}

/// The rules of the ignore files in a directory, at most `depth` levels deep, each directory in
/// front of those that it holds.
pub open spec fn collected(
    system: System,
    depth: nat,
    directory: Seq<Seq<char>>,
    active: Seq<Rules>,
) -> Result<Seq<Rules>, Failure>
    decreases depth, 0int, 0int,
{
    if depth == 0 {
        Ok(Seq::empty())
    } else {
        match own_rules(system, directory) {
            Err(failure) => Err(failure),
            Ok(own) => match system.listing(directory) {
                Err(kind) => Err(Failure::Io(kind)),
                Ok(entries) => match collected_in(
                    system,
                    (depth - 1) as nat,
                    entries,
                    active + own,
                ) {
                    Err(failure) => Err(failure),
                    Ok(rest) => Ok(own + rest),
                },
            },
        }
    }
}

/// The rules of the ignore files in entries.
pub open spec fn collected_in(
    system: System,
    depth: nat,
    entries: Seq<Entry>,
    active: Seq<Rules>,
) -> Result<Seq<Rules>, Failure>
    decreases depth, 1int, entries.len(),
{
    if entries.len() == 0 {
        Ok(Seq::empty())
    } else {
        match collected_in(system, depth, entries.drop_last(), active) {
            Err(failure) => Err(failure),
            Ok(before) => if is_searched(entries.last(), active) {
                match collected(system, depth, entries.last().path, active) {
                    Err(failure) => Err(failure),
                    Ok(inner) => Ok(before + inner),
                }
            } else {
                Ok(before)
            },
        }
    }
}

/// The path of the ignore file that the settings name: that of the default environment, or else
/// that of the project if it exists, or else `.chalkignore`.
pub open spec fn chalkignore_path(
    system: System,
    root: Seq<Seq<char>>,
    config: ChalkConfig,
) -> Seq<Seq<char>> {
    match named_chalkignore(default_chalkignore(config.environments@, 0)) {
        Some(path) => paths::resolved(path, root),
        None => match named_chalkignore(
            match config.chalkignore {
                Some(path) => Some(path@),
                None => None,
            },
        ) {
            Some(path) => if system.at(paths::resolved(path, root)) is Some {
                paths::resolved(path, root)
            } else {
                root.push(".chalkignore"@)
            },
            None => root.push(".chalkignore"@),
        },
    }
}

/// An empty name is none.
pub open spec fn named_chalkignore(name: Option<Seq<char>>) -> Option<Seq<char>> {
    match name {
        Some(name) => if name.len() == 0 {
            None
        } else {
            Some(name)
        },
        None => None,
    }
}

/// The ignore file of the default environment, from a place in the list on.
pub open spec fn default_chalkignore(
    environments: Seq<(String, EnvironmentConfig)>,
    at: int,
) -> Option<Seq<char>>
    decreases environments.len() - at,
{
    if at < 0 || at >= environments.len() {
        None
    } else if environments[at].0@ == "default"@ {
        match environments[at].1.chalkignore {
            Some(path) => Some(path@),
            None => None,
        }
    } else {
        default_chalkignore(environments, at + 1)
    }
}

/// What is ignored in every project.
pub open spec fn built_in_lines() -> Seq<Seq<char>> {
    seq![
        "*.egg*"@,
        "*.iml"@,
        "*.ipynb_checkpoints*"@,
        "*.pyc"@,
        "*.py~"@,
        "*venv"@,
        ".DS_Store"@,
        ".git"@,
        ".github"@,
        ".idea"@,
        ".vscode"@,
        "__pycache__"@,
        "node_modules"@,
        "venv"@,
    ]
}

/// What a project ignores: the globs of its ignore files.
pub struct IgnoreRules {
    pub root: Seq<Seq<char>>,
    pub gitignores: Seq<Rules>,
    pub chalkignore: Seq<Seq<char>>,
    pub built_in: Seq<Seq<char>>,
}

/// The path of the ignore file of a project, or why it is not known.
pub open spec fn ignore_path(
    system: System,
    root: Seq<Seq<char>>,
    config_path: Seq<Seq<char>>,
    config: Result<ChalkConfig, String>,
) -> Result<Seq<Seq<char>>, Failure> {
    match (system.contents(config_path), config) {
        (Err(kind), _) => Err(Failure::Io(kind)),
        (Ok(_), Err(error)) => Err(Failure::Config { path: config_path, error: error@ }),
        (Ok(_), Ok(config)) => Ok(chalkignore_path(system, root, config)),
    }
}

/// What a project ignores, or why that is not known: the ignore files are read first, then the
/// configuration file and the settings in it, then the ignore file that it names.
pub open spec fn project_rules(
    system: System,
    root: Seq<Seq<char>>,
    config_path: Seq<Seq<char>>,
    config: Result<ChalkConfig, String>,
) -> Result<IgnoreRules, Failure> {
    match collected(system, system.depth() + 1, root, Seq::empty()) {
        Err(failure) => Err(failure),
        Ok(gitignores) => match ignore_path(system, root, config_path, config) {
            Err(failure) => Err(failure),
            Ok(path) => match file_rules(system, path) {
                Err(failure) => Err(failure),
                Ok(chalkignore) => if ignores::are_rules(built_in_lines()) {
                    Ok(
                        IgnoreRules {
                            root,
                            gitignores,
                            chalkignore,
                            built_in: ignores::globs_of(built_in_lines()),
                        },
                    )
                } else {
                    Err(Failure::Ignore)
                },
            },
        },
    }
}

/// Whether a project ignores a path: later rules win, the built-in ones last. Nothing outside the
/// project is ignored.
pub open spec fn is_ignored(rules: IgnoreRules, path: Seq<Seq<char>>, is_directory: bool) -> bool {
    paths::lies_in(path, rules.root) && ignores::folded(
        ignores::folded(
            ignores::all_say(rules.gitignores, path, is_directory),
            ignores::says(
                Rules { directory: rules.root, globs: rules.chalkignore },
                path,
                is_directory,
            ),
        ),
        ignores::says(
            Rules { directory: rules.root, globs: rules.built_in },
            path,
            is_directory,
        ),
    ) == Some(MatchKind::Ignore)
}

// ---------------------------------------------------------------------------------------------
// Sources
// ---------------------------------------------------------------------------------------------

/// The sources in a directory, at most `depth` levels deep, in order.
pub open spec fn walked(
    system: System,
    rules: IgnoreRules,
    depth: nat,
    directory: Seq<Seq<char>>,
) -> Result<Seq<Seq<Seq<char>>>, Failure>
    decreases depth, 0int, 0int,
{
    if depth == 0 {
        Ok(Seq::empty())
    } else {
        match system.listing(directory) {
            Err(kind) => Err(Failure::Io(kind)),
            Ok(entries) => walked_in(system, rules, (depth - 1) as nat, entries),
        }
    }
}

/// The sources in entries, in order: nothing that is ignored, and nothing in it.
pub open spec fn walked_in(
    system: System,
    rules: IgnoreRules,
    depth: nat,
    entries: Seq<Entry>,
) -> Result<Seq<Seq<Seq<char>>>, Failure>
    decreases depth, 1int, entries.len(),
{
    if entries.len() == 0 {
        Ok(Seq::empty())
    } else {
        match walked_in(system, rules, depth, entries.drop_last()) {
            Err(failure) => Err(failure),
            Ok(before) => {
                let entry = entries.last();
                if is_ignored(rules, entry.path, entry.is_directory) {
                    Ok(before)
                } else if entry.is_directory {
                    match walked(system, rules, depth, entry.path) {
                        Err(failure) => Err(failure),
                        Ok(inner) => Ok(before + inner),
                    }
                } else if paths::is_source_path(entry.path) {
                    Ok(before.push(entry.path))
                } else {
                    Ok(before)
                }
            },
        }
    }
}

/// The sources of a project, or why they are not known.
pub open spec fn project_sources(
    system: System,
    root: Seq<Seq<char>>,
    config_path: Seq<Seq<char>>,
    config: Result<ChalkConfig, String>,
) -> Result<Seq<Seq<Seq<char>>>, Failure> {
    match project_rules(system, root, config_path, config) {
        Err(failure) => Err(failure),
        Ok(rules) => walked(system, rules, system.depth() + 1, root),
    }
}

/// Whether a path is a source of a project, or why that is not known.
pub open spec fn is_project_source(
    system: System,
    root: Seq<Seq<char>>,
    config_path: Seq<Seq<char>>,
    config: Result<ChalkConfig, String>,
    path: Seq<Seq<char>>,
) -> Result<bool, Failure> {
    if !paths::lies_in(path, root) || !system.has_file(path) || !paths::is_source_path(path) {
        Ok(false)
    } else {
        match project_rules(system, root, config_path, config) {
            Err(failure) => Err(failure),
            Ok(rules) => Ok(!is_ignored(rules, path, false)),
        }
    }
}

// ---------------------------------------------------------------------------------------------
// Reading ignore files
// ---------------------------------------------------------------------------------------------

/// Makes a matcher of an ignore file; a missing file makes one without rules.
fn build_ignore_file(system: &System, root: &SystemPath, path: &SystemPath) -> (result: Result<
    Gitignore,
    ChalkProjectError,
>)
    ensures
        match (result, file_rules(*system, path@)) {
            (Ok(matcher), Ok(globs)) => ignores::matcher_globs(matcher) == globs
                && ignores::is_for(matcher, root@),
            (Err(error), Err(failure)) => error@ == failure,
            _ => false,
        },
{
    let lines = match system.read_to_string(path) {
        Ok(contents) => ignores::text_lines(contents),
        Err(IoErrorKind::NotFound) => {
            let none: Vec<String> = Vec::new();
            assert(order::keys(none@) =~= Seq::empty());
            none
        },
        Err(kind) => {
            return Err(ChalkProjectError::Io(kind));
        },
    };
    let from = path.to_text();
    match ignores::build_rules(root, Some(from.as_str()), &lines) {
        Ok(matcher) => Ok(matcher),
        Err(error) => Err(ChalkProjectError::Ignore(error)),
    }
}

/// The rules at places of a list.
spec fn rules_at(entries: Seq<GitignoreEntry>, places: Seq<usize>) -> Seq<Rules> {
    Seq::new(places.len(), |i: int| entries[places[i] as int]@)
}

spec fn places_wf(entries: Seq<GitignoreEntry>, places: Seq<usize>) -> bool {
    forall|i: int| 0 <= i < places.len() ==> (#[trigger] places[i]) < entries.len()
}

/// What the entries at places of a list say of a path.
fn match_active_entries(
    entries: &Vec<GitignoreEntry>,
    places: &Vec<usize>,
    path: &SystemPath,
    is_directory: bool,
) -> (result: Option<MatchKind>)
    requires
        ignores::entries_wf(entries@),
        places_wf(entries@, places@),
        path.wf(),
    ensures
        result == ignores::all_say(rules_at(entries@, places@), path@, is_directory),
{
    let ghost rules = rules_at(entries@, places@);
    let mut result: Option<MatchKind> = None;
    let mut i: usize = 0;
    while i < places.len()
        invariant
            i <= places@.len(),
            rules == rules_at(entries@, places@),
            ignores::entries_wf(entries@),
            places_wf(entries@, places@),
            path.wf(),
            result == ignores::all_say(rules.take(i as int), path@, is_directory),
        decreases places@.len() - i,
    {
        let place: usize = places[i];
        assert(places@[i as int] < entries@.len());
        let entry = &entries[place];
        proof {
            assert(entries@[place as int].wf());
            assert(rules.take(i as int + 1).drop_last() =~= rules.take(i as int));
            assert(rules.take(i as int + 1).last() == entry@);
        }
        if path.starts_with(&entry.directory) {
            result = ignores::fold_match(
                result,
                ignores::match_rules(&entry.matcher, &entry.directory, path, is_directory),
            );
        }
        i += 1;
    }
    assert(rules.take(rules.len() as int) =~= rules);
    result
}

/// Collects the ignore files in a directory; the active ones are those of the directories above.
fn collect_gitignores(
    system: &System,
    directory: &SystemPath,
    active: &mut Vec<usize>,
    all: &mut Vec<GitignoreEntry>,
    Ghost(depth): Ghost<nat>,
) -> (result: Result<(), ChalkProjectError>)
    requires
        system.wf(),
        directory.wf(),
        depth > 0,
        depth + directory@.len() > system.depth(),
        ignores::entries_wf(old(all)@),
        places_wf(old(all)@, old(active)@),
    ensures
        match (
            result,
            collected(*system, depth, directory@, rules_at(old(all)@, old(active)@)),
        ) {
            (Ok(_), Ok(found)) => {
                &&& ignores::rules_of(final(all)@) == ignores::rules_of(old(all)@) + found
                &&& ignores::entries_wf(final(all)@)
                &&& final(active)@ == old(active)@
                &&& final(all)@.len() >= old(all)@.len()
                &&& forall|i: int|
                    0 <= i < old(all)@.len() ==> #[trigger] final(all)@[i] == old(all)@[i]
            },
            (Err(error), Err(failure)) => error@ == failure,
            _ => false,
        },
    decreases depth,
{
    let ghost above = rules_at(all@, active@);
    let ghost start = all@;
    let ghost places = active@;
    proof {
        lemma_fixed_names();
    }
    let ignore_path = directory.join(".gitignore");
    let mut should_pop = false;
    let ghost mut own: Seq<Rules> = Seq::empty();
    if system.is_file(&ignore_path) {
        match build_ignore_file(system, directory, &ignore_path) {
            Ok(matcher) => {
                let entry = GitignoreEntry { directory: directory.copied(), matcher };
                proof {
                    own = seq![entry@];
                }
                active.push(all.len());
                all.push(entry);
                should_pop = true;
            },
            Err(error) => {
                return Err(error);
            },
        }
    }
    proof {
        assert(Ok::<Seq<Rules>, Failure>(own) == own_rules(*system, directory@));
        assert(rules_at(all@, active@) =~= above + own);
        assert(ignores::rules_of(all@) =~= ignores::rules_of(start) + own);
    }
    let entries = match system.sorted_directory_entries(directory) {
        Ok(entries) => entries,
        Err(kind) => {
            return Err(ChalkProjectError::Io(kind));
        },
    };
    let ghost views = Seq::new(entries@.len(), |i: int| entries@[i]@);
    let ghost inner = (depth - 1) as nat;
    let ghost known = above + own;
    let ghost now = active@;
    let ghost middle = all@;
    let ghost mut found: Seq<Rules> = Seq::empty();
    let mut i: usize = 0;
    assert(ignores::rules_of(all@) =~= ignores::rules_of(middle) + found);
    while i < entries.len()
        invariant
            system.wf(),
            i <= entries@.len(),
            views == Seq::new(entries@.len(), |k: int| entries@[k]@),
            forall|k: int|
                0 <= k < entries@.len() ==> (#[trigger] entries@[k]).path.wf()
                    && entries@[k].path@.len() == directory@.len() + 1 && entries@[k].path@.len()
                    <= system.depth(),
            depth + directory@.len() > system.depth(),
            inner == depth - 1,
            depth > 0,
            ignores::entries_wf(all@),
            places_wf(all@, active@),
            active@ == now,
            rules_at(all@, active@) == known,
            all@.len() >= middle.len(),
            forall|k: int| 0 <= k < middle.len() ==> #[trigger] all@[k] == middle[k],
            places_wf(middle, now),
            ignores::rules_of(all@) == ignores::rules_of(middle) + found,
            collected_in(*system, inner, views.take(i as int), known) == Ok::<
                Seq<Rules>,
                Failure,
            >(found),
            system.listing(directory@) == Ok::<Seq<Entry>, IoErrorKind>(views),
            known == above + own,
            own_rules(*system, directory@) == Ok::<Seq<Rules>, Failure>(own),
            above == rules_at(old(all)@, old(active)@),
        decreases entries@.len() - i,
    {
        let entry = &entries[i];
        let ghost before = all@;
        proof {
            assert(entries@[i as int].path.wf());
            assert(views.take(i as int + 1).drop_last() =~= views.take(i as int));
            assert(views.take(i as int + 1).last() == entry@);
        }
        let is_git = match entry.path.file_name() {
            Some(name) => text::same_text(name, ".git"),
            None => false,
        };
        if entry.is_directory && !is_git {
            let verdict = match_active_entries(all, active, &entry.path, true);
            let searched = match verdict {
                Some(MatchKind::Ignore) => false,
                _ => true,
            };
            assert(searched == is_searched(entry@, known));
            if searched {
                match collect_gitignores(system, &entry.path, active, all, Ghost(inner)) {
                    Ok(_) => {
                        proof {
                            let more = collected(*system, inner, entry.path@, known)->Ok_0;
                            assert(rules_at(all@, active@) =~= known) by {
                                assert forall|k: int| 0 <= k < now.len() implies all@[now[k] as int]
                                    == before[now[k] as int] by {
                                    assert(now[k] < middle.len());
                                }
                            }
                            assert(ignores::rules_of(all@) =~= ignores::rules_of(middle) + (found
                                + more));
                            found = found + more;
                        }
                    },
                    Err(error) => {
                        proof {
                            lemma_collected_in_fails(*system, inner, views, known, i as int + 1);
                        }
                        return Err(error);
                    },
                }
            }
        }
        i += 1;
    }
    assert(views.take(views.len() as int) =~= views);
    if should_pop {
        active.pop();
        assert(active@ =~= places);
    }
    assert(ignores::rules_of(all@) =~= ignores::rules_of(start) + (own + found));
    assert(forall|k: int| 0 <= k < start.len() ==> #[trigger] middle[k] == start[k]);
    Ok(())
}

proof fn lemma_collected_in_fails(
    system: System,
    depth: nat,
    entries: Seq<Entry>,
    active: Seq<Rules>,
    at: int,
)
    requires
        0 <= at <= entries.len(),
        collected_in(system, depth, entries.take(at), active) is Err,
    ensures
        collected_in(system, depth, entries, active) == collected_in(
            system,
            depth,
            entries.take(at),
            active,
        ),
    decreases entries.len() - at,
{
    if at < entries.len() {
        assert(entries.take(at + 1).drop_last() =~= entries.take(at));
        lemma_collected_in_fails(system, depth, entries, active, at + 1);
    } else {
        assert(entries.take(at) =~= entries);
    }
}

// ---------------------------------------------------------------------------------------------
// Settings
// ---------------------------------------------------------------------------------------------

/// The path of the ignore file that the settings of a project name.
pub fn configured_chalkignore(system: &System, project: &ChalkProject, config: &ChalkConfig) -> (path:
    SystemPath)
    requires
        project.wf(),
    ensures
        path@ == chalkignore_path(*system, project.root@, *config),
        path.wf(),
{
    let root = &project.root;
    let mut i: usize = 0;
    let mut named: Option<&String> = None;
    while i < config.environments.len()
        invariant_except_break
            i <= config.environments@.len(),
            named is None,
            default_chalkignore(config.environments@, 0) == default_chalkignore(
                config.environments@,
                i as int,
            ),
        ensures
            default_chalkignore(config.environments@, 0) == match named {
                Some(name) => Some(name@),
                None => None,
            },
        decreases config.environments@.len() - i,
    {
        if text::same_text(config.environments[i].0.as_str(), "default") {
            match &config.environments[i].1.chalkignore {
                Some(name) => {
                    named = Some(name);
                },
                None => {},
            }
            break;
        }
        i += 1;
    }
    proof {
        lemma_fixed_names();
    }
    if let Some(name) = named {
        if name.as_str().unicode_len() > 0 {
            proof {
                lemma_absolute_is_path(name@, root@);
            }
            return SystemPath::absolute(name.as_str(), root);
        }
    }
    if let Some(name) = &config.chalkignore {
        if name.as_str().unicode_len() > 0 {
            proof {
                lemma_absolute_is_path(name@, root@);
            }
            let path = SystemPath::absolute(name.as_str(), root);
            if system.path_exists(&path) {
                return path;
            }
        }
    }
    root.join(".chalkignore")
}

/// What is ignored in every project.
fn built_in_exclusions() -> (lines: Vec<String>)
    ensures
        order::keys(lines@) == built_in_lines(),
{
    let mut lines: Vec<String> = Vec::new();
    lines.push("*.egg*".to_owned());
    lines.push("*.iml".to_owned());
    lines.push("*.ipynb_checkpoints*".to_owned());
    lines.push("*.pyc".to_owned());
    lines.push("*.py~".to_owned());
    lines.push("*venv".to_owned());
    lines.push(".DS_Store".to_owned());
    lines.push(".git".to_owned());
    lines.push(".github".to_owned());
    lines.push(".idea".to_owned());
    lines.push(".vscode".to_owned());
    lines.push("__pycache__".to_owned());
    lines.push("node_modules".to_owned());
    lines.push("venv".to_owned());
    assert(order::keys(lines@) =~= built_in_lines());
    lines
}

// ---------------------------------------------------------------------------------------------
// The matcher of a project
// ---------------------------------------------------------------------------------------------

/// What a project ignores.
#[derive(Debug)]
pub struct ProjectIgnoreMatcher {
    pub root: SystemPath,
    pub gitignores: Vec<GitignoreEntry>,
    pub chalkignore: Gitignore,
    pub built_in: Gitignore,
}

impl View for ProjectIgnoreMatcher {
    type V = IgnoreRules;

    open spec fn view(&self) -> IgnoreRules {
        IgnoreRules {
            root: self.root@,
            gitignores: ignores::rules_of(self.gitignores@),
            chalkignore: ignores::matcher_globs(self.chalkignore),
            built_in: ignores::matcher_globs(self.built_in),
        }
    }
}

impl ProjectIgnoreMatcher {
    /// Whether the matchers are for their directories.
    pub open spec fn wf(self) -> bool {
        &&& self.root.wf()
        &&& ignores::entries_wf(self.gitignores@)
        &&& ignores::is_for(self.chalkignore, self.root@)
        &&& ignores::is_for(self.built_in, self.root@)
    }

    /// Reads what a project ignores; the settings are what its configuration file holds, or why
    /// that cannot be read as settings.
    pub fn new(
        system: &System,
        project: &ChalkProject,
        config: &Result<ChalkConfig, String>,
    ) -> (result: Result<Self, ChalkProjectError>)
        requires
            system.wf(),
            project.wf(),
        ensures
            match (
                result,
                project_rules(*system, project.root@, project.config_path@, *config),
            ) {
                (Ok(matcher), Ok(rules)) => matcher@ == rules && matcher.wf(),
                (Err(error), Err(failure)) => error@ == failure,
                _ => false,
            },
    {
        let mut active: Vec<usize> = Vec::new();
        let mut gitignores: Vec<GitignoreEntry> = Vec::new();
        proof {
            assert(rules_at(gitignores@, active@) =~= Seq::empty());
            assert(ignores::rules_of(gitignores@) =~= Seq::empty());
        }
        match collect_gitignores(
            system,
            &project.root,
            &mut active,
            &mut gitignores,
            Ghost(system.depth() + 1),
        ) {
            Ok(_) => {},
            Err(error) => {
                return Err(error);
            },
        }
        proof {
            let found = collected(
                *system,
                system.depth() + 1,
                project.root@,
                Seq::empty(),
            )->Ok_0;
            assert(Seq::<Rules>::empty() + found =~= found);
        }
        let chalkignore_path = match project.configured_ignore_path(system, config) {
            Ok(path) => path,
            Err(error) => {
                return Err(error);
            },
        };
        let chalkignore = match build_ignore_file(system, &project.root, &chalkignore_path) {
            Ok(matcher) => matcher,
            Err(error) => {
                return Err(error);
            },
        };
        let built_in = match ignores::build_rules(&project.root, None, &built_in_exclusions()) {
            Ok(matcher) => matcher,
            Err(error) => {
                return Err(ChalkProjectError::Ignore(error));
            },
        };
        Ok(
            ProjectIgnoreMatcher {
                root: project.root.copied(),
                gitignores,
                chalkignore,
                built_in,
            },
        )
    }

    /// Whether the project ignores a path.
    pub fn is_ignored(&self, path: &SystemPath, is_directory: bool) -> (ignored: bool)
        requires
            self.wf(),
            path.wf(),
        ensures
            ignored == is_ignored(self@, path@, is_directory),
    {
        if !path.starts_with(&self.root) {
            return false;
        }
        let mut result = ignores::match_gitignore_entries(&self.gitignores, path, is_directory);
        result = ignores::fold_match(
            result,
            ignores::match_rules(&self.chalkignore, &self.root, path, is_directory),
        );
        result = ignores::fold_match(
            result,
            ignores::match_rules(&self.built_in, &self.root, path, is_directory),
        );
        match result {
            Some(MatchKind::Ignore) => true,
            _ => false,
        }
    }

    /// Adds the sources in a directory.
    fn walk_sources(
        &self,
        system: &System,
        directory: &SystemPath,
        sources: &mut Vec<SystemPath>,
        Ghost(depth): Ghost<nat>,
    ) -> (result: Result<(), ChalkProjectError>)
        requires
            self.wf(),
            system.wf(),
            depth > 0,
            depth + directory@.len() > system.depth(),
        ensures
            match (result, walked(*system, self@, depth, directory@)) {
                (Ok(_), Ok(found)) => order::keys(final(sources)@) == order::keys(old(sources)@)
                    + found,
                (Err(error), Err(failure)) => error@ == failure,
                _ => false,
            },
        decreases depth,
    {
        let entries = match system.sorted_directory_entries(directory) {
            Ok(entries) => entries,
            Err(kind) => {
                return Err(ChalkProjectError::Io(kind));
            },
        };
        let ghost views = Seq::new(entries@.len(), |i: int| entries@[i]@);
        let ghost inner = (depth - 1) as nat;
        let ghost start = order::keys(sources@);
        let ghost mut found: Seq<Seq<Seq<char>>> = Seq::empty();
        let mut i: usize = 0;
        assert(order::keys(sources@) =~= start + found);
        while i < entries.len()
            invariant
                self.wf(),
                system.wf(),
                i <= entries@.len(),
                views == Seq::new(entries@.len(), |k: int| entries@[k]@),
                forall|k: int|
                    0 <= k < entries@.len() ==> (#[trigger] entries@[k]).path.wf()
                        && entries@[k].path@.len() == directory@.len() + 1
                        && entries@[k].path@.len() <= system.depth(),
                depth > 0,
                depth + directory@.len() > system.depth(),
                inner == depth - 1,
                start == order::keys(old(sources)@),
                order::keys(sources@) == start + found,
                walked_in(*system, self@, inner, views.take(i as int)) == Ok::<
                    Seq<Seq<Seq<char>>>,
                    Failure,
                >(found),
                system.listing(directory@) == Ok::<Seq<Entry>, IoErrorKind>(views),
            decreases entries@.len() - i,
        {
            let entry = &entries[i];
            let ghost before = sources@;
            proof {
                assert(entries@[i as int].path.wf());
                assert(views.take(i as int + 1).drop_last() =~= views.take(i as int));
                assert(views.take(i as int + 1).last() == entry@);
            }
            if !self.is_ignored(&entry.path, entry.is_directory) {
                if entry.is_directory {
                    match self.walk_sources(system, &entry.path, sources, Ghost(inner)) {
                        Ok(_) => {
                            proof {
                                let more = walked(*system, self@, inner, entry.path@)->Ok_0;
                                assert(order::keys(sources@) =~= start + (found + more));
                                found = found + more;
                            }
                        },
                        Err(error) => {
                            proof {
                                lemma_walked_in_fails(*system, self@, inner, views, i as int + 1);
                            }
                            return Err(error);
                        },
                    }
                } else if paths::is_source_candidate(&entry.path) {
                    sources.push(entry.path.copied());
                    proof {
                        assert(order::keys(sources@) =~= order::keys(before).push(entry.path@));
                        assert(order::keys(sources@) =~= start + found.push(entry.path@));
                        found = found.push(entry.path@);
                    }
                }
            }
            i += 1;
        }
        assert(views.take(views.len() as int) =~= views);
        Ok(())
    }
}

proof fn lemma_walked_in_fails(
    system: System,
    rules: IgnoreRules,
    depth: nat,
    entries: Seq<Entry>,
    at: int,
)
    requires
        0 <= at <= entries.len(),
        walked_in(system, rules, depth, entries.take(at)) is Err,
    ensures
        walked_in(system, rules, depth, entries) == walked_in(
            system,
            rules,
            depth,
            entries.take(at),
        ),
    decreases entries.len() - at,
{
    if at < entries.len() {
        assert(entries.take(at + 1).drop_last() =~= entries.take(at));
        lemma_walked_in_fails(system, rules, depth, entries, at + 1);
    } else {
        assert(entries.take(at) =~= entries);
    }
}

/// Paths in order.
pub struct SortedPath {
    pub path: Seq<Seq<char>>,
}

impl order::Ordered for SortedPath {
    type Key = Seq<Seq<char>>;

    open spec fn key(&self) -> Seq<Seq<char>> {
        self.path
    }

    open spec fn key_before(a: Seq<Seq<char>>, b: Seq<Seq<char>>) -> bool {
        paths::path_before(a, b)
    }

    proof fn key_irreflexive(a: Seq<Seq<char>>) {
        paths::lemma_path_before_irreflexive(a);
    }

    proof fn key_transitive(a: Seq<Seq<char>>, b: Seq<Seq<char>>, c: Seq<Seq<char>>) {
        paths::lemma_path_before_transitive(a, b, c);
    }

    proof fn key_total(a: Seq<Seq<char>>, b: Seq<Seq<char>>) {
        paths::lemma_path_before_total(a, b);
    }
}

/// Paths, sorted.
pub open spec fn sorted_paths(paths: Seq<Seq<Seq<char>>>) -> Seq<Seq<Seq<char>>> {
    order::keys(
        order::stable_sort(Seq::new(paths.len(), |i: int| SortedPath { path: paths[i] })),
    )
}

impl ChalkProject {
    /// The path of the project's ignore file: the settings are what its configuration file holds,
    /// or why that cannot be read as settings.
    pub fn configured_ignore_path(
        &self,
        system: &System,
        config: &Result<ChalkConfig, String>,
    ) -> (result: Result<SystemPath, ChalkProjectError>)
        requires
            self.wf(),
        ensures
            match (result, ignore_path(*system, self.root@, self.config_path@, *config)) {
                (Ok(path), Ok(expected)) => path@ == expected && path.wf(),
                (Err(error), Err(failure)) => error@ == failure,
                _ => false,
            },
    {
        match system.read_to_string(&self.config_path) {
            Ok(_) => {},
            Err(kind) => {
                return Err(ChalkProjectError::Io(kind));
            },
        }
        match config {
            Ok(settings) => Ok(configured_chalkignore(system, self, settings)),
            Err(error) => Err(
                ChalkProjectError::Config {
                    path: self.config_path.copied(),
                    error: error.clone(),
                },
            ),
        }
    }

    /// The Python and SQL sources of the project, sorted by path.
    pub fn source_files(&self, system: &System, config: &Result<ChalkConfig, String>) -> (result:
        Result<Vec<SystemPath>, ChalkProjectError>)
        requires
            self.wf(),
            system.wf(),
        ensures
            match (
                result,
                project_sources(*system, self.root@, self.config_path@, *config),
            ) {
                (Ok(sources), Ok(found)) => order::keys(sources@) == sorted_paths(found),
                (Err(error), Err(failure)) => error@ == failure,
                _ => false,
            },
    {
        let matcher = match ProjectIgnoreMatcher::new(system, self, config) {
            Ok(matcher) => matcher,
            Err(error) => {
                return Err(error);
            },
        };
        let mut sources: Vec<SystemPath> = Vec::new();
        let ghost rules = matcher@;
        match matcher.walk_sources(
            system,
            &self.root,
            &mut sources,
            Ghost(system.depth() + 1),
        ) {
            Ok(_) => {},
            Err(error) => {
                return Err(error);
            },
        }
        let ghost found = walked(*system, rules, system.depth() + 1, self.root@)->Ok_0;
        let ghost unsorted = sources@;
        let ghost map = |path: SystemPath| SortedPath { path: path@ };
        proof {
            assert(order::keys(unsorted) =~= found);
            order::lemma_stable_sort_map(unsorted, map);
            assert(unsorted.map_values(map) =~= Seq::new(
                found.len(),
                |i: int| SortedPath { path: found[i] },
            ));
        }
        let sorted = order::sort_stable(sources);
        assert(order::keys(sorted@) =~= order::keys(sorted@.map_values(map)));
        Ok(sorted)
    }

    /// Whether an existing file is a source of the project.
    pub fn contains_source(
        &self,
        system: &System,
        config: &Result<ChalkConfig, String>,
        path: &str,
    ) -> (result: Result<bool, ChalkProjectError>)
        requires
            self.wf(),
            system.wf(),
        ensures
            match (
                result,
                is_project_source(
                    *system,
                    self.root@,
                    self.config_path@,
                    *config,
                    paths::resolved(path@, system.current_directory@),
                ),
            ) {
                (Ok(found), Ok(expected)) => found == expected,
                (Err(error), Err(failure)) => error@ == failure,
                _ => false,
            },
    {
        let absolute = SystemPath::absolute(path, &system.current_directory);
        proof {
            lemma_absolute_is_path(path@, system.current_directory@);
        }
        self.contains_path(system, config, &absolute)
    }

    /// Whether an existing file is a source of the project.
    pub fn contains_path(
        &self,
        system: &System,
        config: &Result<ChalkConfig, String>,
        path: &SystemPath,
    ) -> (result: Result<bool, ChalkProjectError>)
        requires
            self.wf(),
            system.wf(),
            path.wf(),
        ensures
            match (
                result,
                is_project_source(*system, self.root@, self.config_path@, *config, path@),
            ) {
                (Ok(found), Ok(expected)) => found == expected,
                (Err(error), Err(failure)) => error@ == failure,
                _ => false,
            },
    {
        if !path.starts_with(&self.root) || !system.is_file(path)
            || !paths::is_source_candidate(path) {
            return Ok(false);
        }
        match ProjectIgnoreMatcher::new(system, self, config) {
            Ok(matcher) => Ok(!matcher.is_ignored(path, false)),
            Err(error) => Err(error),
        }
    }
}

} // verus!

use ty_chalk::active_project::{
    ActiveChalkProject, ChalkProjectInput, ChangeEvent, FilePath, Files,
};
use ty_chalk::path_map::PathMap;
use ty_chalk::paths::SystemPath;
use ty_chalk::project::{discover_chalk_project, ChalkConfig, ChalkProjectError};
use ty_chalk::registrations::{
    Capability, ClientCapabilities, DiagnosticMode, Registration, Registrations, WatchedProject,
    Watchers,
};
use ty_chalk::semantic::File;
use ty_chalk::session::{AnySystemPath, Session};
use ty_chalk::system::{IoErrorKind, Node, NodeKind, System};
use ty_chalk::workspace_requests::{symbol_files, symbol_response, IndexedFile, ProjectReporter};
use ty_chalk::workspaces::{FolderPath, Workspaces};

fn path(text: &str) -> SystemPath {
    SystemPath::absolute(text, &SystemPath::root())
}

fn system(files: &[&str]) -> System {
    let mut nodes: Vec<Node> = vec![
        Node {
            path: path("/"),
            kind: NodeKind::Directory { listing: Ok(()) },
            is_listed: true,
            is_link: false,
        },
        Node {
            path: path("/project"),
            kind: NodeKind::Directory { listing: Ok(()) },
            is_listed: true,
            is_link: false,
        },
    ];
    for file in files {
        nodes.push(Node {
            path: path(file),
            kind: NodeKind::File { contents: Ok(String::new()) },
            is_listed: !file.contains("unsaved"),
            is_link: false,
        });
    }
    System { current_directory: path("/"), nodes }
}

fn files(paths: &[&str]) -> Files {
    Files { paths: paths.iter().map(|own| FilePath::System(path(own))).collect() }
}

fn settings() -> Result<ChalkConfig, String> {
    Ok(ChalkConfig { chalkignore: None, environments: Vec::new() })
}

const PATHS: [&str; 5] = [
    "/project/chalk.yml",
    "/project/main.py",
    "/project/query.chalk.sql",
    "/project/unsaved.py",
    "/elsewhere/other.py",
];

fn active() -> (ActiveChalkProject, System, Files) {
    let system = system(&PATHS);
    let files = files(&PATHS);
    let project = discover_chalk_project(&system, "/project/main.py").unwrap();
    let active = ActiveChalkProject::new(&files, &system, project, &settings()).unwrap();
    (active, system, files)
}

fn sources(active: &ActiveChalkProject) -> Vec<usize> {
    active.input().source_files.iter().map(|file| file.id).collect()
}

#[test]
fn active_projects_have_native_and_open_sources() {
    let (mut active, system, files) = active();
    assert_eq!(active.project().root.to_text(), "/project");
    assert_eq!(sources(&active), [1, 2]);
    assert_eq!(active.input().python_files(&files), [File { id: 1 }]);
    assert_eq!(active.input().chalk_sql_files(&files), [File { id: 2 }]);

    assert!(active.open_source(&files, File { id: 3 }));
    assert!(!active.open_source(&files, File { id: 3 }));
    assert_eq!(sources(&active), [1, 2]);
    assert!(active.refresh(&files, &system, &settings()).unwrap());
    assert_eq!(sources(&active), [1, 2, 3]);
    assert!(!active.refresh(&files, &system, &settings()).unwrap());
    assert!(active.close_source(File { id: 3 }));
    assert!(!active.close_source(File { id: 3 }));
    assert!(active.refresh(&files, &system, &settings()).unwrap());
    assert_eq!(sources(&active), [1, 2]);
}

#[test]
fn documents_elsewhere_are_no_sources() {
    let (mut active, system, files) = active();
    active.open_source(&files, File { id: 4 });
    assert!(!active.refresh(&files, &system, &settings()).unwrap());
    assert_eq!(sources(&active), [1, 2]);
}

#[test]
fn only_changes_of_membership_refresh() {
    let (active, _, _) = active();
    let changed = |text: &str| ChangeEvent::Changed { path: path(text) };
    let created = |text: &str| ChangeEvent::Created { path: path(text) };
    let deleted = |text: &str| ChangeEvent::Deleted { path: path(text) };
    for (change, expected) in [
        (ChangeEvent::Rescan, true),
        (ChangeEvent::CreatedVirtual("untitled:one".to_owned()), false),
        (ChangeEvent::ChangedVirtual("untitled:one".to_owned()), false),
        (ChangeEvent::DeletedVirtual("untitled:one".to_owned()), false),
        (ChangeEvent::Opened(path("/project/main.py")), true),
        (created("/project/new.py"), true),
        (deleted("/project/main.py"), true),
        (deleted("/project/chalk.yml"), false),
        (created("/project/nested/chalk.yaml"), false),
        (changed("/project/chalk.yml"), true),
        (changed("/project/main.py"), false),
        (changed("/project/query.chalk.sql"), false),
        (changed("/project/.gitignore"), true),
        (changed("/project/.chalkignore"), true),
        (changed("/project/notes.md"), true),
        (changed("/elsewhere/.gitignore"), false),
        (created("/elsewhere/new.py"), false),
    ] {
        assert_eq!(active.should_refresh(&change), expected, "{change:?}");
    }
}

#[test]
fn projects_without_settings_cannot_be_active() {
    let system = system(&PATHS[..3]);
    let project = discover_chalk_project(&system, "/project/main.py").unwrap();
    let failed =
        ActiveChalkProject::new(&files(&PATHS), &system, project, &Err("no mapping".to_owned()));
    match failed {
        Err(ChalkProjectError::Config { path, error }) => {
            assert_eq!(path.to_text(), "/project/chalk.yml");
            assert_eq!(error, "no mapping");
        }
        other => panic!("the settings are refused: {other:?}"),
    }
    let project = discover_chalk_project(&system, "/project/main.py").unwrap();
    let unnamed = ActiveChalkProject::new(&files(&PATHS[..2]), &system, project, &settings());
    assert!(matches!(unnamed, Err(ChalkProjectError::File { .. })));
    let project = discover_chalk_project(&system, "/project/main.py").unwrap();
    let gone = System { current_directory: path("/"), nodes: Vec::new() };
    let unread = ActiveChalkProject::new(&files(&PATHS), &gone, project, &settings());
    assert!(matches!(unread, Err(ChalkProjectError::Io(IoErrorKind::NotFound))));
}

fn session() -> Session<u32> {
    let folders = vec![("file:///project".to_owned(), FolderPath::Path(path("/project")))];
    let capabilities = ClientCapabilities {
        diagnostic_dynamic_registration: false,
        file_watcher: false,
        relative_file_watcher: false,
        workspace_configuration: false,
        pull_diagnostics: false,
    };
    let mut session =
        Session::new(&folders, capabilities, DiagnosticMode::Workspace).unwrap();
    session.finish_workspace_folder(path("/project"), path("/project"));
    session.finish_workspace_folder(path("/project"), path("/project/nested"));
    session
}

#[test]
fn files_that_are_checked_anyway_are_not_reported_twice() {
    let table = files(&[
        "/project/a.py",
        "/project/b.py",
        "/project/query.chalk.sql",
        "/project/nested/c.py",
    ]);
    let input = ChalkProjectInput {
        root: path("/project"),
        config_path: path("/project/chalk.yml"),
        source_files: (0..4).map(|id| File { id }).collect(),
    };
    let session = session();
    let root = path("/project");
    let reporter =
        ProjectReporter::new(&session, &table, &root, Some(&input), &vec![File { id: 0 }]);
    assert_eq!(reporter.chalk_only_files, [File { id: 1 }]);
    assert_eq!(reporter.set_files(4), 5);
    let reporter = ProjectReporter::new(&session, &table, &root, Some(&input), &Vec::new());
    assert_eq!(reporter.chalk_only_files, [File { id: 0 }, File { id: 1 }]);
    let reporter = ProjectReporter::new(&session, &table, &root, None, &Vec::new());
    assert!(reporter.chalk_only_files.is_empty());
}

#[test]
fn symbols_are_looked_for_in_owned_files() {
    let session = session();
    let indexed = |id: usize, place: AnySystemPath| IndexedFile { file: File { id }, place };
    let files = vec![
        indexed(0, AnySystemPath::System(path("/project/a.py"))),
        indexed(1, AnySystemPath::System(path("/project/nested/c.py"))),
        indexed(2, AnySystemPath::Virtual("untitled:1".to_owned())),
        indexed(3, AnySystemPath::System(path("/elsewhere/d.py"))),
    ];
    let found: Vec<usize> = symbol_files(&session, &path("/project"), &files)
        .iter()
        .map(|file| file.id)
        .collect();
    assert_eq!(found, [0, 2, 3]);
    let found: Vec<usize> = symbol_files(&session, &path("/project/nested"), &files)
        .iter()
        .map(|file| file.id)
        .collect();
    assert_eq!(found, [1, 2, 3]);
}

#[test]
fn empty_queries_and_answers_are_nothing() {
    assert_eq!(symbol_response("", vec![1]), None);
    assert_eq!(symbol_response::<u32>("name", Vec::new()), None);
    assert_eq!(symbol_response("name", vec![1, 2]), Some(vec![1, 2]));
}

#[test]
fn folders_are_found_by_the_innermost_that_holds_a_path() {
    let mut workspaces: Workspaces<u32> = Workspaces::new();
    for folder in ["/a", "/a/b", "/c"] {
        let added = workspaces.register(format!("file://{folder}"), FolderPath::Path(path(folder)));
        assert_eq!(added, Ok(true));
    }
    let root = |text: &str| workspaces.root_for_path(&path(text)).map(|found| found.to_text());
    assert_eq!(root("/a/b/x.py").as_deref(), Some("/a/b"));
    assert_eq!(root("/a/bc/x.py").as_deref(), Some("/a"));
    assert_eq!(root("/d/x.py"), None);
    assert_eq!(workspaces.for_path(&path("/c/x.py")).unwrap().uri, "file:///c");
    assert_eq!(
        workspaces.uninitialized(),
        ["file:///a", "file:///a/b", "file:///c"]
    );
    assert_eq!(workspaces.initialize(&path("/a"), 1), Ok(true));
    assert_eq!(workspaces.initialize(&path("/a"), 2), Ok(false));
    assert!(workspaces.initialize(&path("/d"), 2).is_err());
    assert_eq!(workspaces.settings_for_path(&path("/a/x.py")), Some(&Some(1)));
    assert_eq!(workspaces.settings_for_path(&path("/a/b/x.py")), Some(&None));
    assert_eq!(workspaces.settings_virtual_fallback(), Some(&Some(1)));
    assert!(!workspaces.all_initialized());
    assert!(workspaces.unregister(&path("/a/b")));
    assert!(!workspaces.unregister(&path("/a/b")));
    assert_eq!(
        workspaces.root_for_path(&path("/a/b/x.py")).unwrap().to_text(),
        "/a"
    );
}

#[test]
fn maps_keep_their_paths_in_order() {
    let mut map: PathMap<u32> = PathMap::new();
    map.insert(path("/b"), 2);
    map.insert(path("/a/c"), 3);
    map.insert(path("/a"), 1);
    map.insert(path("/b"), 4);
    let entries: Vec<(String, u32)> = (0..map.len())
        .map(|index| (map.at(index).path.to_text(), map.at(index).value))
        .collect();
    assert_eq!(
        entries,
        [("/a".to_owned(), 1), ("/a/c".to_owned(), 3), ("/b".to_owned(), 4)]
    );
    *map.value_mut(0) = 7;
    assert_eq!(map.get(&path("/a")), Some(&7));
    assert_eq!(map.remove(&path("/a")), Some(7));
    assert_eq!(map.remove(&path("/a")), None);
    assert!(!map.contains(&path("/a")) && map.contains(&path("/a/c")));
}

#[test]
fn registrations_are_taken_back_before_they_are_made_anew() {
    let capabilities = ClientCapabilities {
        diagnostic_dynamic_registration: true,
        file_watcher: true,
        relative_file_watcher: true,
        workspace_configuration: false,
        pull_diagnostics: true,
    };
    let projects = vec![
        WatchedProject { root: path("/a/b"), search_paths: vec![path("/a/b/x"), path("/lib")] },
        WatchedProject { root: path("/a"), search_paths: vec![path("/lib/inner")] },
    ];
    let mut registrations = Registrations::new();
    let first =
        registrations.register_capabilities(capabilities, DiagnosticMode::Workspace, &projects);
    assert!(first.unregistrations.is_empty());
    let [Registration::Diagnostics { workspace: true }, Registration::FileWatching(Watchers::Below(directories))] =
        first.registrations.as_slice()
    else {
        panic!("both are registered: {first:?}");
    };
    let directories: Vec<String> = directories.iter().map(|own| own.to_text()).collect();
    assert_eq!(directories, ["/a", "/lib"]);
    let second = registrations.register_capabilities(capabilities, DiagnosticMode::Off, &projects);
    assert_eq!(
        second.unregistrations,
        [Capability::Diagnostics, Capability::FileWatching]
    );
    assert_eq!(second.registrations.len(), 1);

    let plain = ClientCapabilities { relative_file_watcher: false, ..capabilities };
    let third = registrations.register_capabilities(plain, DiagnosticMode::Off, &projects);
    assert!(matches!(
        third.registrations.as_slice(),
        [Registration::FileWatching(Watchers::Everything)]
    ));
    let quiet = registrations.refresh_file_watcher_registration_if_needed(plain, &projects);
    assert!(quiet.unregistrations.is_empty() && quiet.registrations.is_empty());
}

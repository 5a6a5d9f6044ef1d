use ty_chalk::active_project::{FilePath, Files};
use ty_chalk::messages::{DeferredMessages, Message, MessageKind};
use ty_chalk::paths::SystemPath;
use ty_chalk::project::ChalkConfig;
use ty_chalk::registrations::{
    Capability, ClientCapabilities, DiagnosticMode, Registration, RegistrationChanges,
    WatchedProject, Watchers,
};
use ty_chalk::session::{
    project_root_for_path, AnySystemPath, DocumentHandle, DocumentKind, LanguageId, ParsedConfig,
    ProjectKind, Session, World,
};
use ty_chalk::session_folders::{
    clear_diagnostics_if_needed, failed_project_message, latest_global_options,
    pair_configurations, unknown_options_message, ClientName, ConfigurationRequest, InitializeStep,
    Resumption, SuspendedWorkspaceDiagnosticRequest,
};
use ty_chalk::system::{Node, NodeKind, System};
use ty_chalk::workspaces::{FolderError, FolderPath};

fn path(text: &str) -> SystemPath {
    SystemPath::absolute(text, &SystemPath::root())
}

fn folder(text: &str) -> FolderPath {
    FolderPath::Path(path(text))
}

fn uri(text: &str) -> String {
    format!("file://{text}")
}

fn named(uri: &str) -> FolderPath {
    folder(uri.strip_prefix("file://").unwrap())
}

/// The options that a client can give: those of a folder and those of the whole server.
#[derive(Clone, Default)]
struct ClientOptions {
    disable_language_services: Option<bool>,
    show_syntax_errors: Option<bool>,
    diagnostic_mode: Option<DiagnosticMode>,
}

/// What a server is told at its start.
#[derive(Default)]
struct ServerBuilder {
    initialization_options: ClientOptions,
    folders: Vec<(String, Option<ClientOptions>)>,
    files: Vec<(String, String)>,
    search_paths: Vec<(String, String)>,
    without_configuration: bool,
    dynamic_diagnostics: bool,
    watched_files: bool,
}

struct Server {
    session: Session<ClientOptions>,
    files: Vec<(String, String)>,
    search_paths: Vec<(String, String)>,
    options: Vec<(String, Option<ClientOptions>)>,
    initialization_options: ClientOptions,
    global: ClientOptions,
    registered: Vec<RegistrationChanges>,
}

impl ServerBuilder {
    fn with_workspace(mut self, root: &str, options: Option<ClientOptions>) -> Self {
        self.folders.push((root.to_owned(), options));
        self
    }

    fn with_file(mut self, file: &str, contents: &str) -> Self {
        self.files.push((file.to_owned(), contents.to_owned()));
        self
    }

    fn with_initialization_options(mut self, options: ClientOptions) -> Self {
        self.initialization_options = options;
        self
    }

    fn with_diagnostic_mode(self, mode: DiagnosticMode) -> Self {
        self.with_initialization_options(ClientOptions {
            diagnostic_mode: Some(mode),
            ..ClientOptions::default()
        })
    }

    fn build(self) -> Server {
        let folders: Vec<(String, FolderPath)> = self
            .folders
            .iter()
            .map(|(root, _)| (uri(root), folder(root)))
            .collect();
        let mode = self
            .initialization_options
            .diagnostic_mode
            .unwrap_or(DiagnosticMode::OpenFilesOnly);
        let session = Session::new(
            &folders,
            ClientCapabilities {
                diagnostic_dynamic_registration: self.dynamic_diagnostics,
                file_watcher: self.watched_files,
                relative_file_watcher: self.watched_files,
                workspace_configuration: !self.without_configuration,
                pull_diagnostics: true,
            },
            mode,
        )
        .unwrap();
        let mut server = Server {
            session,
            files: self.files,
            search_paths: self.search_paths,
            options: self.folders,
            initialization_options: self.initialization_options.clone(),
            global: self.initialization_options,
            registered: Vec::new(),
        };
        server.initialize_folders();
        server
    }
}

impl Server {
    fn watched(&self) -> Vec<WatchedProject> {
        (0..self.session.projects.len())
            .map(|index| {
                let root = self.session.projects.at(index).path.to_text();
                WatchedProject {
                    search_paths: self
                        .search_paths
                        .iter()
                        .filter(|(project, _)| *project == root)
                        .map(|(_, directory)| path(directory))
                        .collect(),
                    root: path(&root),
                }
            })
            .collect()
    }

    /// Gives the folders that wait for them their settings. Says whether any did.
    fn initialize_folders(&mut self) -> bool {
        let request = self
            .session
            .request_uninitialized_workspace_folder_configurations();
        let (names, asked) = match request {
            ConfigurationRequest::Nothing => return false,
            ConfigurationRequest::InitializeNow(names) => (names, false),
            ConfigurationRequest::Ask(names) => (names, true),
        };
        let answers: Vec<ClientOptions> = names
            .iter()
            .map(|name| {
                let answer = self.options.iter().find(|(root, _)| uri(root) == *name);
                match answer {
                    Some((_, Some(options))) if asked => options.clone(),
                    _ => self.initialization_options.clone(),
                }
            })
            .collect();
        if let Some(latest) = latest_global_options(answers.clone()) {
            self.global = latest;
        }
        let modes = answers
            .iter()
            .map(|options| options.diagnostic_mode.unwrap_or(self.session.diagnostic_mode))
            .collect();
        for (name, options) in pair_configurations(names, answers) {
            match self.session.begin_workspace_folder(named(&name), options) {
                InitializeStep::MakeProject(root) => {
                    let workspace_root = root.copied();
                    self.session.finish_workspace_folder(workspace_root, root);
                }
                step => panic!("{name} cannot be initialized: {step:?}"),
            }
        }
        let watched = self.watched();
        let changes = self.session.finish_workspace_folders(modes, &watched);
        self.registered.push(changes);
        true
    }

    /// What the client is told once something has changed.
    fn refresh_registrations(&mut self) -> RegistrationChanges {
        let watched = self.watched();
        self.session
            .registrations
            .refresh_file_watcher_registration_if_needed(self.session.capabilities, &watched)
    }

    fn add_workspace_folder(&mut self, root: &str, options: Option<ClientOptions>) -> bool {
        self.options.push((root.to_owned(), options));
        self.session.workspaces.register(uri(root), folder(root)).unwrap()
    }

    fn world(&self) -> World {
        let mut directories = vec!["/".to_owned()];
        for (file, _) in &self.files {
            let mut prefix = String::new();
            for name in file.rsplit_once('/').unwrap().0.split('/').filter(|name| !name.is_empty())
            {
                prefix.push('/');
                prefix.push_str(name);
                if !directories.contains(&prefix) {
                    directories.push(prefix.clone());
                }
            }
        }
        let mut nodes: Vec<Node> = self
            .files
            .iter()
            .map(|(file, contents)| Node {
                path: path(file),
                kind: NodeKind::File {
                    contents: Ok(contents.clone()),
                },
                is_listed: true,
                is_link: false,
            })
            .collect();
        nodes.extend(directories.iter().map(|directory| Node {
            path: path(directory),
            kind: NodeKind::Directory { listing: Ok(()) },
            is_listed: true,
            is_link: false,
        }));
        World {
            system: System {
                current_directory: SystemPath::root(),
                nodes,
            },
            files: Files {
                paths: self
                    .files
                    .iter()
                    .map(|(file, _)| FilePath::System(path(file)))
                    .collect(),
            },
            configs: self
                .files
                .iter()
                .filter(|(file, _)| file.ends_with("/chalk.yml") || file.ends_with("/chalk.yaml"))
                .map(|(file, _)| ParsedConfig {
                    path: path(file),
                    config: Ok(ChalkConfig {
                        chalkignore: None,
                        environments: Vec::new(),
                    }),
                })
                .collect(),
            unread: Err("not read".to_owned()),
            excluded: Vec::new(),
        }
    }

    fn open_text_document(&mut self, file: &str) {
        let world = self.world();
        let opened = self.session.open_document(
            &world,
            DocumentHandle {
                uri: uri(file),
                path: AnySystemPath::System(path(file)),
                kind: DocumentKind::Text,
                language: Some(LanguageId::Python),
                is_source_by_name: true,
            },
            false,
        );
        assert!(opened.failure.is_none());
        assert!(opened.refresh_failures.is_empty());
    }

    /// The projects that publish the diagnostics of a file.
    fn owners(&self, file: &str) -> Vec<String> {
        (0..self.session.projects.len())
            .map(|index| self.session.projects.at(index).path.to_text())
            .filter(|root| {
                project_root_for_path(&self.session.projects, &path(file)).is_some()
                    && self
                        .session
                        .project_owns_file(&path(root), &AnySystemPath::System(path(file)))
            })
            .collect()
    }

    /// The files that the workspace diagnostics speak of.
    fn diagnosed(&self) -> Vec<String> {
        self.files
            .iter()
            .map(|(file, _)| file.clone())
            .filter(|file| !self.owners(file).is_empty())
            .collect()
    }

    fn settings(&self, file: &str) -> Option<&Option<ClientOptions>> {
        self.session.workspace_settings_for_document(
            &AnySystemPath::System(path(file)),
            &SystemPath::root(),
        )
    }

    fn language_services(&self, file: &str) -> bool {
        let settings = self.settings(file).unwrap().as_ref().unwrap();
        settings.disable_language_services != Some(true)
    }

    fn shows_syntax_errors(&self) -> bool {
        self.global.show_syntax_errors != Some(false)
    }

    /// The only thing that was registered at the start.
    fn single_registration(&self) -> &Registration {
        let [changes] = self.registered.as_slice() else {
            panic!("Expected a single request, got: {:?}", self.registered);
        };
        let [registration] = changes.registrations.as_slice() else {
            panic!("Expected a single registration, got: {:?}", changes.registrations);
        };
        registration
    }
}

fn watches(registration: &Registration, directory: &str) -> bool {
    match registration {
        Registration::FileWatching(Watchers::Below(directories)) => directories
            .iter()
            .any(|watched| watched.to_text() == directory),
        _ => false,
    }
}

fn watching(changes: &RegistrationChanges) -> &Registration {
    assert_eq!(changes.unregistrations, [Capability::FileWatching]);
    let [registration] = changes.registrations.as_slice() else {
        panic!("Expected a single registration, got: {:?}", changes.registrations);
    };
    registration
}

fn workspace_diagnostics(registration: &Registration) -> Option<bool> {
    match registration {
        Registration::Diagnostics { workspace } => Some(*workspace),
        _ => None,
    }
}

#[test]
fn empty_workspace_folders() {
    let server = ServerBuilder::default().build();
    assert_eq!(server.session.projects.len(), 0);
    assert!(server.session.workspaces.all_initialized());
    assert!(server.registered.is_empty());
}

#[test]
fn single_workspace_folder() {
    let server = ServerBuilder::default().with_workspace("/foo", None).build();
    assert_eq!(server.session.projects.len(), 1);
    assert_eq!(server.session.projects.at(0).path.to_text(), "/foo");
    assert_eq!(server.session.projects.at(0).value.kind, ProjectKind::Workspace);
    assert!(server.session.workspaces.all_initialized());
}

#[test]
fn workspace_diagnostic_registration_without_configuration() {
    let server = ServerBuilder {
        without_configuration: true,
        dynamic_diagnostics: true,
        ..ServerBuilder::default()
    }
    .with_diagnostic_mode(DiagnosticMode::Workspace)
    .with_workspace("/foo", None)
    .build();
    assert_eq!(workspace_diagnostics(server.single_registration()), Some(true));
}

#[test]
fn open_files_diagnostic_registration_without_configuration() {
    let server = ServerBuilder {
        without_configuration: true,
        dynamic_diagnostics: true,
        ..ServerBuilder::default()
    }
    .with_diagnostic_mode(DiagnosticMode::OpenFilesOnly)
    .with_workspace("/foo", None)
    .build();
    assert_eq!(workspace_diagnostics(server.single_registration()), Some(false));
}

#[test]
fn workspace_diagnostic_registration_via_initialization() {
    let server = ServerBuilder {
        dynamic_diagnostics: true,
        ..ServerBuilder::default()
    }
    .with_diagnostic_mode(DiagnosticMode::Workspace)
    .with_workspace("/foo", None)
    .build();
    assert_eq!(workspace_diagnostics(server.single_registration()), Some(true));
}

#[test]
fn open_files_diagnostic_registration_via_initialization() {
    let server = ServerBuilder {
        dynamic_diagnostics: true,
        ..ServerBuilder::default()
    }
    .with_diagnostic_mode(DiagnosticMode::OpenFilesOnly)
    .with_workspace("/foo", None)
    .build();
    assert_eq!(workspace_diagnostics(server.single_registration()), Some(false));
}

#[test]
fn workspace_diagnostic_registration() {
    let server = ServerBuilder {
        dynamic_diagnostics: true,
        ..ServerBuilder::default()
    }
    .with_workspace(
        "/foo",
        Some(ClientOptions {
            diagnostic_mode: Some(DiagnosticMode::Workspace),
            ..ClientOptions::default()
        }),
    )
    .build();
    assert_eq!(workspace_diagnostics(server.single_registration()), Some(true));
}

#[test]
fn open_files_diagnostic_registration() {
    let server = ServerBuilder {
        dynamic_diagnostics: true,
        ..ServerBuilder::default()
    }
    .with_workspace(
        "/foo",
        Some(ClientOptions {
            diagnostic_mode: Some(DiagnosticMode::OpenFilesOnly),
            ..ClientOptions::default()
        }),
    )
    .build();
    assert_eq!(workspace_diagnostics(server.single_registration()), Some(false));
}

#[test]
fn disable_language_services_set_on_initialization() {
    let server = ServerBuilder::default()
        .with_initialization_options(ClientOptions {
            disable_language_services: Some(true),
            ..ClientOptions::default()
        })
        .with_workspace("/src", None)
        .build();
    assert!(!server.language_services("/src/foo.py"));
}

#[test]
fn disable_language_services_set_on_workspace() {
    let server = ServerBuilder::default()
        .with_workspace(
            "/src",
            Some(ClientOptions {
                disable_language_services: Some(true),
                ..ClientOptions::default()
            }),
        )
        .build();
    assert!(!server.language_services("/src/foo.py"));
}

#[test]
fn unknown_initialization_options() {
    assert_eq!(
        unknown_options_message(None, "{\n  \"bar\": null\n}"),
        "Received unknown options during initialization: {\n  \"bar\": null\n}"
    );
}

#[test]
fn unknown_options_in_workspace_configuration() {
    assert_eq!(
        unknown_options_message(Some("file:///foo"), "{\n  \"bar\": null\n}"),
        "Received unknown options for workspace `file:///foo`: {\n  \"bar\": null\n}"
    );
}

#[test]
fn register_multiple_capabilities() {
    let server = ServerBuilder {
        dynamic_diagnostics: true,
        ..ServerBuilder::default()
    }
    .with_workspace("/foo", None)
    .with_diagnostic_mode(DiagnosticMode::Workspace)
    .build();
    assert_eq!(workspace_diagnostics(server.single_registration()), Some(true));
    assert!(server.registered[0].unregistrations.is_empty());
}

#[test]
fn lazy_chalk_project_refreshes_file_watcher_registration() {
    let main = "/chalk-project/main.py";
    let second = "/chalk-project/second.py";
    let mut server = ServerBuilder {
        without_configuration: true,
        watched_files: true,
        search_paths: vec![("/chalk-project".to_owned(), "/external".to_owned())],
        ..ServerBuilder::default()
    }
    .with_workspace("/workspace", None)
    .with_diagnostic_mode(DiagnosticMode::Off)
    .with_file("/chalk-project/chalk.yml", "{}")
    .with_file(main, "")
    .with_file(second, "")
    .with_file("/external/dependency.py", "")
    .build();

    let initial = server.single_registration();
    assert!(watches(initial, "/workspace"));
    assert!(!watches(initial, "/chalk-project"));
    assert!(!watches(initial, "/external"));

    server.open_text_document(main);
    let changes = server.refresh_registrations();
    let refreshed = watching(&changes);
    assert!(watches(refreshed, "/workspace"));
    assert!(watches(refreshed, "/chalk-project"));
    assert!(watches(refreshed, "/external"));

    server.open_text_document(second);
    let changes = server.refresh_registrations();
    assert!(changes.unregistrations.is_empty());
    assert!(changes.registrations.is_empty());
}

#[test]
fn removing_workspace_refreshes_lazy_chalk_file_watcher_registration() {
    let main = "/repository/service/main.py";
    let mut server = ServerBuilder {
        without_configuration: true,
        watched_files: true,
        ..ServerBuilder::default()
    }
    .with_workspace("/retained", None)
    .with_workspace("/repository/service", None)
    .with_diagnostic_mode(DiagnosticMode::Off)
    .with_file("/repository/chalk.yml", "{}")
    .with_file(main, "")
    .build();

    let initial = server.single_registration();
    assert!(watches(initial, "/retained"));
    assert!(watches(initial, "/repository/service"));
    assert!(!watches(initial, "/repository"));

    server.open_text_document(main);
    let changes = server.refresh_registrations();
    let added = watching(&changes);
    assert!(watches(added, "/retained"));
    assert!(watches(added, "/repository"));

    server
        .session
        .remove_workspace_folder(&folder("/repository/service"))
        .unwrap();
    let changes = server.refresh_registrations();
    let removed = watching(&changes);
    assert!(watches(removed, "/retained"));
    assert!(!watches(removed, "/repository"));
    assert!(!watches(removed, "/repository/service"));
}

#[test]
fn workspace_diagnostics_partition_nested_chalk_projects() {
    let source = "does_not_exist()";
    let mut server = ServerBuilder::default()
        .with_diagnostic_mode(DiagnosticMode::Workspace)
        .with_workspace("/workspace", None)
        .with_file("/workspace/ty.toml", "")
        .with_file("/workspace/parent.py", source)
        .with_file("/workspace/first/chalk.yaml", "{}")
        .with_file("/workspace/first/main.py", source)
        .with_file("/workspace/second/chalk.yml", "{}")
        .with_file("/workspace/second/main.py", source)
        .build();
    server.open_text_document("/workspace/first/main.py");
    server.open_text_document("/workspace/second/main.py");

    for (file, owner) in [
        ("/workspace/parent.py", "/workspace"),
        ("/workspace/first/main.py", "/workspace/first"),
        ("/workspace/second/main.py", "/workspace/second"),
    ] {
        assert_eq!(server.owners(file), [owner]);
    }
}

#[test]
fn initialize_multiple_workspace_folders() {
    let server = ServerBuilder::default()
        .with_diagnostic_mode(DiagnosticMode::Workspace)
        .with_file("/root1/main.py", "does_not_exist()")
        .with_file("/root2/main.py", "does_not_exist()")
        .with_workspace("/root1", None)
        .with_workspace("/root2", None)
        .build();
    assert_eq!(server.diagnosed(), ["/root1/main.py", "/root2/main.py"]);
}

#[test]
fn add_workspace_folder_after_init() {
    let mut server = ServerBuilder::default()
        .with_diagnostic_mode(DiagnosticMode::Workspace)
        .with_file("/root1/main.py", "does_not_exist()")
        .with_file("/root2/main.py", "does_not_exist()")
        .with_workspace("/root1", None)
        .build();
    assert_eq!(server.diagnosed(), ["/root1/main.py"]);
    assert!(server.add_workspace_folder("/root2", None));
    assert!(server.initialize_folders());
    assert_eq!(server.diagnosed(), ["/root1/main.py", "/root2/main.py"]);
}

#[test]
fn add_multiple_workspace_folders() {
    let mut server = ServerBuilder::default()
        .with_diagnostic_mode(DiagnosticMode::Workspace)
        .with_file("/root1/main.py", "does_not_exist()")
        .with_file("/root2/main.py", "does_not_exist()")
        .with_file("/root3/main.py", "does_not_exist()")
        .with_workspace("/root1", None)
        .build();
    assert_eq!(server.diagnosed(), ["/root1/main.py"]);
    assert!(server.add_workspace_folder("/root2", None));
    assert!(server.add_workspace_folder("/root3", None));
    assert!(server.initialize_folders());
    assert_eq!(
        server.diagnosed(),
        ["/root1/main.py", "/root2/main.py", "/root3/main.py"]
    );
}

#[test]
fn remove_workspace_folder_after_init() {
    let mut server = ServerBuilder::default()
        .with_diagnostic_mode(DiagnosticMode::Workspace)
        .with_file("/root1/main.py", "does_not_exist()")
        .with_file("/root2/main.py", "does_not_exist()")
        .with_workspace("/root1", None)
        .with_workspace("/root2", None)
        .build();
    assert_eq!(server.diagnosed(), ["/root1/main.py", "/root2/main.py"]);
    server.session.remove_workspace_folder(&folder("/root2")).unwrap();
    assert!(!server.initialize_folders());
    assert_eq!(server.diagnosed(), ["/root1/main.py"]);
}

#[test]
fn remove_multiple_workspace_folders() {
    let mut server = ServerBuilder::default()
        .with_diagnostic_mode(DiagnosticMode::Workspace)
        .with_file("/root1/main.py", "does_not_exist()")
        .with_file("/root2/main.py", "does_not_exist()")
        .with_file("/root3/main.py", "does_not_exist()")
        .with_workspace("/root1", None)
        .with_workspace("/root2", None)
        .with_workspace("/root3", None)
        .build();
    assert_eq!(
        server.diagnosed(),
        ["/root1/main.py", "/root2/main.py", "/root3/main.py"]
    );
    server.session.remove_workspace_folder(&folder("/root2")).unwrap();
    server.session.remove_workspace_folder(&folder("/root3")).unwrap();
    assert_eq!(server.diagnosed(), ["/root1/main.py"]);
}

#[test]
fn remove_workspace_folder_with_open_document() {
    let main1 = "/root1/main.py";
    let main2 = "/root2/main.py";
    let mut server = ServerBuilder::default()
        .with_file(main1, "does_not_exist1()")
        .with_file(main2, "does_not_exist1()")
        .with_workspace("/root1", None)
        .with_workspace("/root2", None)
        .build();
    server.open_text_document(main1);
    server.open_text_document(main2);
    assert_eq!(server.owners(main1), ["/root1"]);
    assert_eq!(server.owners(main2), ["/root2"]);

    server.session.remove_workspace_folder(&folder("/root2")).unwrap();
    assert_eq!(server.owners(main1), ["/root1"]);
    assert!(server.owners(main2).is_empty());
    assert!(server.settings(main1).is_some());
    assert!(server.settings(main2).is_none());
}

#[test]
fn add_and_remove_workspace_folders() {
    let mut server = ServerBuilder::default()
        .with_diagnostic_mode(DiagnosticMode::Workspace)
        .with_file("/root1/main.py", "does_not_exist()")
        .with_file("/root2/main.py", "does_not_exist()")
        .with_file("/root3/main.py", "does_not_exist()")
        .with_workspace("/root1", None)
        .with_workspace("/root2", None)
        .build();
    assert_eq!(server.diagnosed(), ["/root1/main.py", "/root2/main.py"]);
    server.session.remove_workspace_folder(&folder("/root2")).unwrap();
    assert!(server.add_workspace_folder("/root3", None));
    assert!(server.initialize_folders());
    assert_eq!(server.diagnosed(), ["/root1/main.py", "/root3/main.py"]);
}

#[test]
fn add_existing_workspace_folder_is_no_op() {
    let mut server = ServerBuilder::default()
        .with_diagnostic_mode(DiagnosticMode::Workspace)
        .with_file("/root1/main.py", "does_not_exist()")
        .with_workspace("/root1", None)
        .build();
    assert!(!server.add_workspace_folder("/root1", None));
    assert!(!server.initialize_folders());
    assert_eq!(server.diagnosed(), ["/root1/main.py"]);
}

#[test]
fn remove_only_workspace() {
    let mut server = ServerBuilder::default()
        .with_diagnostic_mode(DiagnosticMode::Workspace)
        .with_file("/root1/main.py", "does_not_exist()")
        .with_workspace("/root1", None)
        .build();
    server.session.remove_workspace_folder(&folder("/root1")).unwrap();
    assert!(server.diagnosed().is_empty());
    assert_eq!(server.session.projects.len(), 0);
}

#[test]
fn different_settings() {
    let server = ServerBuilder::default()
        .with_diagnostic_mode(DiagnosticMode::Workspace)
        .with_workspace("/root1", None)
        .with_workspace(
            "/root2",
            Some(ClientOptions {
                disable_language_services: Some(true),
                ..ClientOptions::default()
            }),
        )
        .build();
    assert!(server.language_services("/root1/main.py"));
    assert!(!server.language_services("/root2/main.py"));
}

#[test]
fn nested_sibling_workspace_uses_correct_settings() {
    let server = ServerBuilder::default()
        .with_workspace("/", None)
        .with_workspace(
            "/external/Y",
            Some(ClientOptions {
                disable_language_services: Some(true),
                ..ClientOptions::default()
            }),
        )
        .build();
    assert!(server.language_services("/systemtests/foo.py"));
    assert!(!server.language_services("/external/Y/foo.py"));
}

#[test]
fn nested_sibling_workspace_uses_correct_project() {
    let server = ServerBuilder::default()
        .with_workspace("/", None)
        .with_workspace("/external/Y", None)
        .build();
    assert_eq!(server.owners("/systemtests/included.py"), ["/"]);
    assert_eq!(server.owners("/external/Y/only_external.py"), ["/external/Y"]);
}

#[test]
fn global_settings_precedence() {
    let silent = ClientOptions {
        show_syntax_errors: Some(false),
        ..ClientOptions::default()
    };
    let server = ServerBuilder::default()
        .with_workspace("/root1", None)
        .with_workspace("/root2", Some(silent.clone()))
        .build();
    assert!(!server.shows_syntax_errors());

    let server = ServerBuilder::default()
        .with_workspace("/root1", Some(silent))
        .with_workspace("/root2", None)
        .build();
    assert!(server.shows_syntax_errors());
}

#[test]
fn global_settings_change() {
    let mut server = ServerBuilder::default().with_workspace("/root1", None).build();
    assert!(server.shows_syntax_errors());
    assert!(server.add_workspace_folder(
        "/root2",
        Some(ClientOptions {
            show_syntax_errors: Some(false),
            ..ClientOptions::default()
        }),
    ));
    assert!(server.initialize_folders());
    assert!(!server.shows_syntax_errors());
}

#[test]
fn folders_that_are_no_paths_are_refused() {
    let mut server = ServerBuilder::default().with_workspace("/root1", None).build();
    let workspaces = &mut server.session.workspaces;
    assert_eq!(
        workspaces.register("untitled:1".to_owned(), FolderPath::NotFile),
        Err(FolderError::NotFile)
    );
    assert_eq!(
        workspaces.register("file:///%ff".to_owned(), FolderPath::NotText),
        Err(FolderError::NotText)
    );
    let session = &mut server.session;
    assert!(matches!(
        session.remove_workspace_folder(&FolderPath::NotFile),
        Err(FolderError::NotFile)
    ));
    assert!(matches!(
        session.remove_workspace_folder(&FolderPath::NotText),
        Err(FolderError::NotText)
    ));
    assert!(matches!(
        session.remove_workspace_folder(&folder("/root2")),
        Err(FolderError::NotFound)
    ));
    let options = ClientOptions::default;
    assert!(matches!(
        session.begin_workspace_folder(FolderPath::NotFile, options()),
        InitializeStep::NotFile
    ));
    assert!(matches!(
        session.begin_workspace_folder(FolderPath::NotText, options()),
        InitializeStep::NotText
    ));
    assert!(matches!(
        session.begin_workspace_folder(folder("/root2"), options()),
        InitializeStep::NotRegistered
    ));
    assert!(matches!(
        session.begin_workspace_folder(folder("/root1"), options()),
        InitializeStep::AlreadyInitialized
    ));
    let folders = vec![("untitled:1".to_owned(), FolderPath::NotFile)];
    let started: Result<Session<u32>, FolderError> =
        Session::new(&folders, session.capabilities, DiagnosticMode::Off);
    assert!(matches!(started, Err(FolderError::NotFile)));
}

#[test]
fn diagnostics_of_removed_folders_are_cleared() {
    let mut server = ServerBuilder::default()
        .with_file("/root1/main.py", "")
        .with_file("/root2/main.py", "")
        .with_workspace("/root1", None)
        .with_workspace("/root2", None)
        .build();
    server.session.capabilities.pull_diagnostics = false;
    server.open_text_document("/root1/main.py");
    server.open_text_document("/root2/main.py");
    let cleared = server.session.remove_workspace_folder(&folder("/root2")).unwrap();
    assert_eq!(cleared, ["file:///root2/main.py"]);
    server.session.diagnostic_mode = DiagnosticMode::Off;
    let cleared = server.session.remove_workspace_folder(&folder("/root1")).unwrap();
    assert!(cleared.is_empty());
}

#[test]
fn notebooks_are_cleared_whatever_the_client_asks_for() {
    let mut document = DocumentHandle {
        uri: "file:///a.ipynb".to_owned(),
        path: AnySystemPath::System(path("/a.ipynb")),
        kind: DocumentKind::Notebook,
        language: None,
        is_source_by_name: true,
    };
    let server = ServerBuilder::default().build();
    assert!(clear_diagnostics_if_needed(server.session.capabilities, &document));
    document.kind = DocumentKind::Text;
    assert!(!clear_diagnostics_if_needed(server.session.capabilities, &document));
    assert_eq!(document.uri(), "file:///a.ipynb");
    assert!(!document.is_cell() && !document.is_cell_or_notebook());
}

#[test]
fn suspended_requests_wait_for_a_change() {
    let suspended = |request: &str| SuspendedWorkspaceDiagnosticRequest {
        request: request.to_owned(),
        revision: 3,
    };
    assert!(matches!(suspended("a").resume(false, 4), Resumption::Dropped));
    assert!(matches!(
        suspended("a").resume(true, 3),
        Resumption::Waiting(waiting) if waiting.revision == 3
    ));
    assert!(matches!(
        suspended("a").resume(true, 4),
        Resumption::Retry(request) if request == "a"
    ));
}

#[test]
fn failures_name_the_workspace_and_the_logs() {
    assert_eq!(
        failed_project_message("file:///foo", ClientName::from_name(Some("Zed"))),
        "Failed to load project for workspace file:///foo. Please refer to the logs for more details (command palette: `dev: open language server logs`)."
    );
    assert_eq!(
        failed_project_message("file:///foo", ClientName::from_name(None)),
        "Failed to load project for workspace file:///foo. Please refer to the logs for more details."
    );
}

#[test]
fn virtual_documents_have_the_settings_of_their_project() {
    let server = ServerBuilder::default()
        .with_workspace("/root1", None)
        .with_workspace(
            "/root2",
            Some(ClientOptions {
                disable_language_services: Some(true),
                ..ClientOptions::default()
            }),
        )
        .build();
    let place = AnySystemPath::Virtual("untitled:1".to_owned());
    let disabled = |root: &str| {
        let settings = server
            .session
            .workspace_settings_for_document(&place, &path(root))
            .unwrap();
        settings.as_ref().unwrap().disable_language_services
    };
    assert_eq!(disabled("/root2"), Some(true));
    assert_eq!(disabled("/root1"), None);
    assert_eq!(disabled("/elsewhere"), None);
}

#[test]
fn messages_wait_until_the_folders_have_their_settings() {
    let message = |method: &str, payload: u32| Message {
        kind: MessageKind::Notification,
        method: method.to_owned(),
        payload,
    };
    let mut deferred: DeferredMessages<u32> = DeferredMessages::new();
    assert!(deferred
        .should_defer_message(false, message("textDocument/didOpen", 1))
        .is_none());
    assert!(deferred
        .should_defer_message(false, message("textDocument/didChange", 2))
        .is_none());
    let taken = deferred.take_deferred_messages(false);
    assert!(taken.is_none());
    let kept = deferred.should_defer_message(true, message("exit", 3));
    assert_eq!(kept.unwrap().payload, 3);
    let taken = deferred.take_deferred_messages(true).unwrap();
    assert_eq!(taken.method, "textDocument/didOpen");
    let taken = deferred.take_deferred_messages(true).unwrap();
    assert_eq!(taken.payload, 2);
    assert!(deferred.take_deferred_messages(true).is_none());
}

#[test]
fn the_last_global_settings_say_which_diagnostics_there_are() {
    let mut server = ServerBuilder::default().with_workspace("/root1", None).build();
    let before = server.session.diagnostic_mode;
    let changes = server.session.finish_workspace_folders(Vec::new(), &Vec::new());
    assert_eq!(server.session.diagnostic_mode, before);
    assert_eq!(server.session.registrations.needs_refresh, false);
    drop(changes);
    server.session.finish_workspace_folders(
        vec![DiagnosticMode::Workspace, DiagnosticMode::Off],
        &Vec::new(),
    );
    assert_eq!(server.session.diagnostic_mode, DiagnosticMode::Off);
}

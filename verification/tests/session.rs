use std::collections::BTreeMap;

use serde_yaml::Value;
use ty_chalk::active_project::{ChangeEvent, FilePath, Files};
use ty_chalk::paths::SystemPath;
use ty_chalk::project::{ChalkConfig, ChalkProjectError, EnvironmentConfig};
use ty_chalk::registrations::{ClientCapabilities, DiagnosticMode};
use ty_chalk::session::{
    project_root_for_path, AnySystemPath, Closed, DocumentHandle, DocumentKind, LanguageId, Opened,
    ParsedConfig, ProjectKind, ProjectState, Session, UnknownDocument, World,
};
use ty_chalk::system::{Node, NodeKind, System};
use ty_chalk::workspaces::FolderPath;

fn path(text: &str) -> SystemPath {
    SystemPath::absolute(text, &SystemPath::root())
}

fn parse_config(contents: &str) -> Result<ChalkConfig, String> {
    let text = |value: Option<&Value>| match value {
        Some(Value::String(text)) => Some(text.clone()),
        _ => None,
    };
    let value: Value = serde_yaml::from_str(contents).map_err(|error| error.to_string())?;
    let mut config = ChalkConfig {
        chalkignore: text(value.get("chalkignore")),
        environments: Vec::new(),
    };
    if let Some(Value::Mapping(environments)) = value.get("environments") {
        for (name, environment) in environments {
            config.environments.push((
                name.as_str().unwrap().to_owned(),
                EnvironmentConfig {
                    chalkignore: text(environment.get("chalkignore")),
                },
            ));
        }
    }
    Ok(config)
}

/// A session over files in memory, with the documents that the editor has open on top of them.
struct TestSession {
    session: Session<u32>,
    disk: BTreeMap<String, String>,
    editor: BTreeMap<String, String>,
    known: Vec<String>,
}

fn capabilities() -> ClientCapabilities {
    ClientCapabilities {
        diagnostic_dynamic_registration: false,
        file_watcher: false,
        relative_file_watcher: false,
        workspace_configuration: false,
        pull_diagnostics: false,
    }
}

fn session() -> TestSession {
    let folders = vec![(
        "file:///workspace".to_owned(),
        FolderPath::Path(path("/workspace")),
    )];
    let mut session: Session<u32> =
        Session::new(&folders, capabilities(), DiagnosticMode::OpenFilesOnly).unwrap();
    session.finish_workspace_folder(path("/workspace"), path("/workspace"));
    TestSession {
        session,
        disk: BTreeMap::new(),
        editor: BTreeMap::new(),
        known: Vec::new(),
    }
}

impl TestSession {
    fn write_files(&mut self, files: &[(&str, &str)]) {
        for (file, contents) in files {
            self.disk.insert((*file).to_owned(), (*contents).to_owned());
        }
    }

    fn remove_file(&mut self, file: &str) {
        self.disk.remove(file).unwrap();
    }

    /// What the projects see.
    fn world(&mut self) -> World {
        let mut files = self.disk.clone();
        files.extend(self.editor.clone());
        let mut directories = vec!["/".to_owned(), "/workspace".to_owned()];
        for file in files.keys() {
            let mut prefix = String::new();
            for name in file.rsplit_once('/').unwrap().0.split('/').filter(|name| !name.is_empty())
            {
                prefix.push('/');
                prefix.push_str(name);
                if !directories.contains(&prefix) {
                    directories.push(prefix.clone());
                }
            }
            if !self.known.contains(file) {
                self.known.push(file.clone());
            }
        }
        let configs = files
            .iter()
            .filter(|(file, _)| file.ends_with("/chalk.yml") || file.ends_with("/chalk.yaml"))
            .map(|(file, contents)| ParsedConfig {
                path: path(file),
                config: parse_config(contents),
            })
            .collect();
        let mut nodes: Vec<Node> = files
            .iter()
            .map(|(file, contents)| Node {
                path: path(file),
                kind: NodeKind::File {
                    contents: Ok(contents.clone()),
                },
                is_listed: self.disk.contains_key(file),
                is_link: false,
            })
            .collect();
        nodes.extend(directories.iter().map(|directory| Node {
            path: path(directory),
            kind: NodeKind::Directory { listing: Ok(()) },
            is_listed: true,
            is_link: false,
        }));
        World {
            system: System {
                current_directory: path("/workspace"),
                nodes,
            },
            files: Files {
                paths: self.known.iter().map(|file| FilePath::System(path(file))).collect(),
            },
            configs,
            unread: Err("not read".to_owned()),
            excluded: Vec::new(),
        }
    }

    fn open(&mut self, file: &str, contents: &str, language: LanguageId) -> Opened {
        let is_new = !self.disk.contains_key(file) && !self.editor.contains_key(file);
        self.editor.insert(file.to_owned(), contents.to_owned());
        let world = self.world();
        self.session.open_document(
            &world,
            DocumentHandle {
                uri: format!("file://{file}"),
                path: AnySystemPath::System(path(file)),
                kind: DocumentKind::Text,
                language: Some(language),
                is_source_by_name: file.ends_with(".py"),
            },
            is_new,
        )
    }

    fn open_python(&mut self, file: &str) {
        let opened = self.open(file, "", LanguageId::Python);
        assert!(opened.failure.is_none());
        assert!(opened.refresh_failures.is_empty());
    }

    fn open_other(&mut self, file: &str, contents: &str) {
        let opened = self.open(file, contents, LanguageId::Other);
        assert!(opened.failure.is_none());
        assert!(opened.refresh_failures.is_empty());
    }

    fn update(&mut self, file: &str, contents: &str) {
        self.editor.insert(file.to_owned(), contents.to_owned());
        let world = self.world();
        let failures = self
            .session
            .update_document(&world, &AnySystemPath::System(path(file)));
        assert!(failures.is_empty());
    }

    fn close(&mut self, file: &str) -> Result<Closed, UnknownDocument> {
        self.editor.remove(file);
        let world = self.world();
        self.session.close_document(&world, &format!("file://{file}"))
    }

    fn apply(&mut self, changes: Vec<ChangeEvent>) -> usize {
        let world = self.world();
        self.session.apply_changes(&world, &changes).len()
    }

    fn state(&self, root: &str) -> &ProjectState {
        self.session.projects.get(&path(root)).unwrap()
    }

    fn routing_root(&self, file: &str) -> Option<String> {
        project_root_for_path(&self.session.projects, &path(file)).map(|root| root.to_text())
    }

    fn source_text(&mut self, file: &str) -> String {
        let world = self.world();
        world.system.read_to_string(&path(file)).unwrap().to_owned()
    }

    fn source_paths(&self, root: &str) -> Vec<String> {
        let input = self.state(root).chalk_project.as_ref().unwrap().input();
        input
            .source_files
            .iter()
            .map(|file| self.known[file.id].clone())
            .collect()
    }

    fn has_open_file(&self, root: &str, file: &str) -> bool {
        self.state(root).open_files.iter().any(|place| {
            matches!(place, AnySystemPath::System(open) if open.to_text() == file)
        })
    }

    fn routed_projects(&self) -> Vec<(String, ProjectKind)> {
        (0..self.session.projects.len())
            .map(|index| {
                let entry = self.session.projects.at(index);
                (entry.path.to_text(), entry.value.kind)
            })
            .collect()
    }

    fn owners(&self, file: &str) -> Vec<String> {
        self.routed_projects()
            .into_iter()
            .map(|(root, _)| root)
            .filter(|root| {
                self.session
                    .project_owns_file(&path(root), &AnySystemPath::System(path(file)))
            })
            .collect()
    }

    fn workspace_root(&self, root: &str) -> Option<String> {
        self.state(root).workspace_root.as_ref().map(|folder| folder.to_text())
    }
}

#[test]
fn containing_chalk_project_routes_workspace_document() {
    let mut test = session();
    test.write_files(&[("/chalk.yml", ""), ("/workspace/main.py", "")]);

    let main = "/workspace/main.py";
    test.open_python(main);

    assert_eq!(test.routing_root(main).as_deref(), Some("/"));
    assert_eq!(test.state("/").kind, ProjectKind::Chalk);
    assert_eq!(test.workspace_root("/").as_deref(), Some("/workspace"));
    assert!(test.has_open_file("/", main));
    assert!(!test.has_open_file("/workspace", main));
    assert_eq!(test.source_paths("/"), ["/workspace/main.py"]);
    assert!(test.state("/").chalk_project.is_some());
    assert_eq!(test.owners(main), ["/"]);
}

#[test]
fn containing_chalk_project_routes_unsaved_chalk_sql_source() {
    let mut test = session();
    test.write_files(&[("/chalk.yml", "")]);

    let sql = "/workspace/features.chalk.sql";
    test.open_other(sql, "select 1");

    assert_eq!(test.routing_root(sql).as_deref(), Some("/"));
    assert_eq!(test.state("/").kind, ProjectKind::Chalk);
    assert_eq!(test.workspace_root("/").as_deref(), Some("/workspace"));
    assert_eq!(test.source_paths("/"), ["/workspace/features.chalk.sql"]);
    assert!(!test.has_open_file("/", sql));
}

#[test]
fn lazy_chalk_projects_route_siblings_and_survive_marker_deletion() {
    let mut test = session();
    test.write_files(&[
        ("/workspace/parent.py", ""),
        ("/workspace/first/chalk.yaml", "{}"),
        ("/workspace/first/unopened.py", "def invalid(:\n"),
        ("/workspace/second/chalk.yml", "{}"),
    ]);

    let first_file = "/workspace/first/src/first.py";
    let second_file = "/workspace/second/src/second.py";
    test.open_python(first_file);
    test.open_python(second_file);

    assert_eq!(test.session.projects.len(), 3);
    assert_eq!(
        test.routed_projects(),
        [
            ("/workspace".to_owned(), ProjectKind::Workspace),
            ("/workspace/first".to_owned(), ProjectKind::Chalk),
            ("/workspace/second".to_owned(), ProjectKind::Chalk),
        ]
    );
    for (file, expected_root) in [
        ("/workspace/parent.py", "/workspace"),
        (first_file, "/workspace/first"),
        (second_file, "/workspace/second"),
    ] {
        assert_eq!(test.owners(file), [expected_root]);
    }
    for (file, expected_root) in [
        (first_file, "/workspace/first"),
        (second_file, "/workspace/second"),
    ] {
        assert_eq!(test.routing_root(file).as_deref(), Some(expected_root));
        assert_eq!(test.state(expected_root).kind, ProjectKind::Chalk);
        assert_eq!(test.workspace_root(expected_root).as_deref(), Some("/workspace"));
    }

    test.remove_file("/workspace/first/chalk.yaml");
    let retained_file = "/workspace/first/src/retained.py";
    test.open(retained_file, "", LanguageId::Python);

    assert_eq!(test.session.projects.len(), 3);
    assert_eq!(
        test.routing_root(retained_file).as_deref(),
        Some("/workspace/first")
    );
    assert_eq!(test.state("/workspace/first").kind, ProjectKind::Chalk);
}

#[test]
fn lazy_chalk_project_migrates_existing_open_documents() {
    let mut test = session();
    let existing_file = "/workspace/project/existing.py";
    let triggering_file = "/workspace/project/trigger.py";
    test.open_python(existing_file);
    test.open_python(triggering_file);

    assert!(test.has_open_file("/workspace", existing_file));
    assert!(test.has_open_file("/workspace", triggering_file));

    test.write_files(&[("/workspace/project/chalk.yaml", "{}")]);
    test.open_python(triggering_file);

    assert!(!test.has_open_file("/workspace", existing_file));
    assert!(!test.has_open_file("/workspace", triggering_file));
    assert!(test.has_open_file("/workspace/project", existing_file));
    assert!(test.has_open_file("/workspace/project", triggering_file));
}

#[test]
fn chalk_input_is_carried_and_refreshes_without_rerouting() {
    let mut test = session();
    test.write_files(&[
        ("/workspace/project/chalk.yml", ""),
        ("/workspace/project/main.py", ""),
    ]);
    test.open_python("/workspace/project/main.py");

    assert_eq!(
        test.source_paths("/workspace/project"),
        ["/workspace/project/main.py"]
    );
    assert!(test.state("/workspace/project").chalk_project.is_some());

    test.write_files(&[("/workspace/project/added.chalk.sql", "")]);
    let failures = test.apply(vec![ChangeEvent::Created {
        path: path("/workspace/project/added.chalk.sql"),
    }]);
    assert_eq!(failures, 0);
    assert_eq!(
        test.source_paths("/workspace/project"),
        [
            "/workspace/project/added.chalk.sql",
            "/workspace/project/main.py"
        ]
    );

    test.remove_file("/workspace/project/chalk.yml");
    let failures = test.apply(vec![ChangeEvent::Deleted {
        path: path("/workspace/project/chalk.yml"),
    }]);
    assert_eq!(failures, 0);
    assert_eq!(test.state("/workspace/project").kind, ProjectKind::Chalk);
    assert_eq!(
        test.source_paths("/workspace/project"),
        [
            "/workspace/project/added.chalk.sql",
            "/workspace/project/main.py"
        ]
    );
}

#[test]
fn editor_file_revisions_are_synchronized_to_every_project() {
    let mut test = session();
    test.write_files(&[
        ("/workspace/a/chalk.yml", ""),
        ("/workspace/a/main.py", ""),
        ("/workspace/b/chalk.yml", ""),
        ("/workspace/b/main.py", ""),
        ("/workspace/shared.py", "on disk"),
    ]);
    test.open_python("/workspace/a/main.py");
    test.open_python("/workspace/b/main.py");

    let shared = "/workspace/shared.py";
    let before = test.session.revision;
    let opened = test.open(shared, "in editor", LanguageId::Python);
    assert!(opened.failure.is_none() && opened.refresh_failures.is_empty());
    assert_eq!(test.source_text(shared), "in editor");
    let after_open = test.session.revision;
    assert!(before < after_open);

    test.update(shared, "edited");
    assert_eq!(test.source_text(shared), "edited");
    assert_eq!(test.session.revision, after_open + 1);

    test.close(shared).unwrap();
    assert_eq!(test.source_text(shared), "on disk");
    assert!(after_open + 1 < test.session.revision);
    assert_eq!(test.session.projects.len(), 3);
}

#[test]
fn unsaved_open_source_is_retained_until_close() {
    let mut test = session();
    test.write_files(&[
        ("/workspace/project/chalk.yml", ""),
        ("/workspace/project/resolver.py", ""),
    ]);
    test.open_python("/workspace/project/resolver.py");

    let helper = "/workspace/project/helper.py";
    assert!(!test.disk.contains_key(helper));
    let opened = test.open(helper, "value = 1", LanguageId::Python);
    assert!(opened.failure.is_none() && opened.refresh_failures.is_empty());
    assert_eq!(
        test.source_paths("/workspace/project"),
        [
            "/workspace/project/helper.py",
            "/workspace/project/resolver.py"
        ]
    );
    assert_eq!(test.source_text(helper), "value = 1");

    test.update(helper, "value = 2");
    assert_eq!(test.source_text(helper), "value = 2");
    assert_eq!(
        test.source_paths("/workspace/project"),
        [
            "/workspace/project/helper.py",
            "/workspace/project/resolver.py"
        ]
    );

    test.close(helper).unwrap();
    assert_eq!(
        test.source_paths("/workspace/project"),
        ["/workspace/project/resolver.py"]
    );
}

#[test]
fn closing_unsaved_membership_inputs_restores_disk_source_set() {
    let mut test = session();
    test.write_files(&[
        ("/workspace/project/chalk.yml", "chalkignore: .chalkignore\n"),
        ("/workspace/project/.chalkignore", ""),
        ("/workspace/project/alternate.ignore", "ignored.py\n"),
        ("/workspace/project/ignored.py", ""),
        ("/workspace/project/main.py", ""),
    ]);
    test.open_python("/workspace/project/main.py");

    let both = ["/workspace/project/ignored.py", "/workspace/project/main.py"];
    assert_eq!(test.source_paths("/workspace/project"), both);

    test.open_other("/workspace/project/.chalkignore", "ignored.py\n");
    assert_eq!(
        test.source_paths("/workspace/project"),
        ["/workspace/project/main.py"]
    );
    test.close("/workspace/project/.chalkignore").unwrap();
    assert_eq!(test.source_paths("/workspace/project"), both);

    test.open_other(
        "/workspace/project/chalk.yml",
        "chalkignore: alternate.ignore\n",
    );
    assert_eq!(
        test.source_paths("/workspace/project"),
        ["/workspace/project/main.py"]
    );
    test.close("/workspace/project/chalk.yml").unwrap();
    assert_eq!(test.source_paths("/workspace/project"), both);
}

#[test]
fn closing_unsaved_external_ignore_restores_disk_source_set() {
    let mut test = session();
    test.write_files(&[
        (
            "/workspace/project/chalk.yml",
            "chalkignore: /external/chalk.ignore\n",
        ),
        ("/external/chalk.ignore", ""),
        ("/workspace/project/ignored.py", ""),
        ("/workspace/project/main.py", ""),
    ]);
    test.open_python("/workspace/project/main.py");

    let both = ["/workspace/project/ignored.py", "/workspace/project/main.py"];
    assert_eq!(test.source_paths("/workspace/project"), both);

    test.open_other("/external/chalk.ignore", "ignored.py\n");
    assert_eq!(
        test.source_paths("/workspace/project"),
        ["/workspace/project/main.py"]
    );
    test.close("/external/chalk.ignore").unwrap();
    assert_eq!(test.source_paths("/workspace/project"), both);
}

#[test]
fn chalk_sql_document_lazily_creates_project_without_opening_python_file() {
    let mut test = session();
    test.write_files(&[("/workspace/project/chalk.yml", "")]);
    let sql = "/workspace/project/features.chalk.sql";

    test.open_other(sql, "select 1");

    assert_eq!(
        test.source_paths("/workspace/project"),
        ["/workspace/project/features.chalk.sql"]
    );
    assert!(!test.has_open_file("/workspace/project", sql));
}

#[test]
fn lazy_chalk_project_migrates_unsaved_chalk_sql_document() {
    let mut test = session();
    let sql = "/workspace/project/features.chalk.sql";
    test.open_other(sql, "select 1");
    assert!(!test.disk.contains_key(sql));

    test.write_files(&[
        ("/workspace/project/chalk.yml", ""),
        ("/workspace/project/main.py", ""),
    ]);
    test.open_python("/workspace/project/main.py");

    assert_eq!(
        test.source_paths("/workspace/project"),
        [
            "/workspace/project/features.chalk.sql",
            "/workspace/project/main.py"
        ]
    );
    assert_eq!(test.source_text(sql), "select 1");
    assert!(!test.has_open_file("/workspace/project", sql));
}

#[test]
fn unreadable_settings_leave_the_routes_as_they_were() {
    let mut test = session();
    test.write_files(&[
        ("/workspace/project/chalk.yml", "a: ["),
        ("/workspace/project/main.py", ""),
    ]);
    let opened = test.open("/workspace/project/main.py", "", LanguageId::Python);
    assert!(matches!(
        opened.failure,
        Some(ChalkProjectError::Config { .. })
    ));
    assert_eq!(test.session.projects.len(), 1);
    assert_eq!(
        test.routing_root("/workspace/project/main.py").as_deref(),
        Some("/workspace")
    );
    assert!(test.has_open_file("/workspace", "/workspace/project/main.py"));
}

#[test]
fn failed_refreshes_leave_the_sources_as_they_were() {
    let mut test = session();
    test.write_files(&[
        ("/workspace/project/chalk.yml", ""),
        ("/workspace/project/main.py", ""),
    ]);
    test.open_python("/workspace/project/main.py");
    test.remove_file("/workspace/project/chalk.yml");
    assert_eq!(test.apply(vec![ChangeEvent::Rescan]), 1);
    assert_eq!(
        test.source_paths("/workspace/project"),
        ["/workspace/project/main.py"]
    );
}

#[test]
fn other_languages_do_not_make_projects() {
    let mut test = session();
    test.write_files(&[("/workspace/project/chalk.yml", "")]);
    test.open_other("/workspace/project/notes.md", "");
    assert_eq!(test.session.projects.len(), 1);
    assert!(!test.has_open_file("/workspace", "/workspace/project/notes.md"));
}

#[test]
fn closing_undoes_opening() {
    let mut test = session();
    test.open_python("/workspace/main.py");
    assert!(test.has_open_file("/workspace", "/workspace/main.py"));
    let closed = test.close("/workspace/main.py").unwrap();
    assert!(closed.failure.is_none());
    assert!(closed.refresh_failures.is_empty());
    assert!(!test.has_open_file("/workspace", "/workspace/main.py"));
    assert!(test.session.documents.is_empty());
}

#[test]
fn unknown_documents_cannot_be_closed() {
    let mut test = session();
    let before = test.session.revision;
    assert!(test.close("/workspace/main.py").is_err());
    assert_eq!(test.session.revision, before);
}

#[test]
fn documents_that_lie_nowhere_belong_to_every_project() {
    let mut test = session();
    test.write_files(&[
        ("/workspace/project/chalk.yml", ""),
        ("/workspace/project/main.py", ""),
    ]);
    test.open_python("/workspace/project/main.py");
    let place = AnySystemPath::Virtual("untitled:Untitled-1".to_owned());
    assert!(test.session.project_owns_file(&path("/workspace"), &place));
    assert!(test.session.project_owns_file(&path("/workspace/project"), &place));
    assert_eq!(test.owners("/elsewhere/main.py"), ["/workspace"]);
    assert_eq!(test.routing_root("/elsewhere/main.py"), None);
}

#[test]
fn a_workspace_project_at_the_root_becomes_a_feature_project() {
    let mut test = session();
    test.write_files(&[("/workspace/chalk.yml", ""), ("/workspace/main.py", "")]);
    test.open_python("/workspace/main.py");
    assert_eq!(
        test.routed_projects(),
        [("/workspace".to_owned(), ProjectKind::Chalk)]
    );
    assert!(test.has_open_file("/workspace", "/workspace/main.py"));
    assert!(test.session.registrations.needs_refresh);
}

#[test]
fn unsaved_documents_are_sources_whatever_their_language() {
    let mut test = session();
    test.write_files(&[
        ("/workspace/project/chalk.yml", ""),
        ("/workspace/project/main.py", ""),
    ]);
    test.open_python("/workspace/project/main.py");
    test.open_other("/workspace/project/template.py", "");
    assert_eq!(
        test.source_paths("/workspace/project"),
        [
            "/workspace/project/main.py",
            "/workspace/project/template.py"
        ]
    );
    assert!(!test.has_open_file("/workspace/project", "/workspace/project/template.py"));
}

#[test]
fn files_that_only_the_client_calls_sources_are_forgotten() {
    let mut test = session();
    test.write_files(&[("/workspace/script", ""), ("/workspace/main.py", "")]);
    test.open_python("/workspace/script");
    assert!(test.close("/workspace/script").unwrap().forget_file);
    test.open_python("/workspace/main.py");
    assert!(!test.close("/workspace/main.py").unwrap().forget_file);
}

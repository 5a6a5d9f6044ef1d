use serde_yaml::Value;
use ty_chalk::ignores::{fold_match, MatchKind};
use ty_chalk::paths::SystemPath;
use ty_chalk::project::{
    discover_chalk_project, ChalkConfig, ChalkProject, ChalkProjectError, EnvironmentConfig,
    ProjectIgnoreMatcher,
};
use ty_chalk::system::{IoErrorKind, Node, NodeKind, System};

fn path(text: &str) -> SystemPath {
    SystemPath::absolute(text, &SystemPath::root())
}

/// A file system with some files and the directories that they lie in.
fn system(current_directory: &str, files: &[(&str, &str)]) -> System {
    let mut directories = vec!["/".to_owned()];
    let mut add = |text: &str| {
        let mut prefix = String::new();
        for name in text.split('/').filter(|name| !name.is_empty()) {
            prefix.push('/');
            prefix.push_str(name);
            if !directories.contains(&prefix) {
                directories.push(prefix.clone());
            }
        }
    };
    add(current_directory);
    for (file, _) in files {
        let parent = file.rsplit_once('/').unwrap().0;
        add(parent);
    }
    let mut nodes: Vec<Node> = files
        .iter()
        .map(|(file, contents)| Node {
            path: path(file),
            kind: NodeKind::File {
                contents: Ok((*contents).to_owned()),
            },
            is_listed: true,
            is_link: false,
        })
        .collect();
    nodes.extend(directories.iter().map(|directory| Node {
        path: path(directory),
        kind: NodeKind::Directory { listing: Ok(()) },
        is_listed: true,
        is_link: false,
    }));
    System {
        current_directory: path(current_directory),
        nodes,
    }
}

fn parse_config(contents: &str) -> Result<ChalkConfig, String> {
    let text = |value: Option<&Value>| match value {
        Some(Value::String(text)) => Some(text.clone()),
        _ => None,
    };
    let value: Value = serde_yaml::from_str(contents).map_err(|error| error.to_string())?;
    let mut config = ChalkConfig {
        chalkignore: text(value.get("chalkignore")),
        environments: Vec::new(),
    };
    if let Some(Value::Mapping(environments)) = value.get("environments") {
        for (name, environment) in environments {
            config.environments.push((
                name.as_str().unwrap().to_owned(),
                EnvironmentConfig {
                    chalkignore: text(environment.get("chalkignore")),
                },
            ));
        }
    }
    Ok(config)
}

struct TestProject {
    system: System,
    config: Result<ChalkConfig, String>,
    project: ChalkProject,
}

impl TestProject {
    fn new(config_name: &str, config: &str, files: &[(&str, &str)]) -> Self {
        let config_path = format!("/project/{config_name}");
        let absolute: Vec<(String, &str)> = files
            .iter()
            .map(|(file, contents)| (format!("/project/{file}"), *contents))
            .collect();
        let mut all = vec![(config_path.as_str(), config)];
        all.extend(absolute.iter().map(|(file, contents)| (file.as_str(), *contents)));
        let system = system("/project", &all);
        let project = discover_chalk_project(&system, "/project/src/app.py").unwrap();
        TestProject {
            system,
            config: parse_config(config),
            project,
        }
    }

    fn relative_sources(&self) -> Vec<String> {
        self.project
            .source_files(&self.system, &self.config)
            .unwrap()
            .iter()
            .map(|path| path.to_text().strip_prefix("/project/").unwrap().to_owned())
            .collect()
    }

    fn contains(&self, path: &str) -> bool {
        self.project
            .contains_source(&self.system, &self.config, path)
            .unwrap()
    }
}

#[test]
fn discovers_nearest_yaml_or_yml_marker() {
    let system = system(
        "/workspace",
        &[
            ("/workspace/chalk.yml", ""),
            ("/workspace/nested/chalk.yaml", ""),
        ],
    );

    let yml = discover_chalk_project(&system, "/workspace/file.py").unwrap();
    assert_eq!(yml.root.to_text(), "/workspace");
    assert_eq!(yml.config_path.to_text(), "/workspace/chalk.yml");

    let yaml = discover_chalk_project(&system, "/workspace/nested/src/file.py").unwrap();
    assert_eq!(yaml.root.to_text(), "/workspace/nested");
    assert_eq!(yaml.config_path.to_text(), "/workspace/nested/chalk.yaml");

    assert!(discover_chalk_project(&system, "/unrelated/file.py").is_none());
}

#[test]
fn yaml_is_preferred_and_relative_paths_start_at_the_current_directory() {
    let system = system(
        "/workspace",
        &[("/workspace/chalk.yml", ""), ("/workspace/chalk.yaml", "")],
    );
    let project = discover_chalk_project(&system, "./src/../file.py").unwrap();
    assert_eq!(project.config_path.to_text(), "/workspace/chalk.yaml");
    let directory = discover_chalk_project(&system, "/workspace").unwrap();
    assert_eq!(directory.root.to_text(), "/workspace");
    assert!(discover_chalk_project(&system, "/").is_none());
}

#[test]
fn applies_built_ins_nested_gitignore_and_extensions_deterministically() {
    let test = TestProject::new(
        "chalk.yaml",
        "{}",
        &[
            ("z.py", ""),
            ("a.chalk.sql", ""),
            ("nested/.gitignore", "ignored.py\n"),
            ("nested/ignored.py", ""),
            ("nested/keep.py", ""),
            ("node_modules/package.py", ""),
            ("venv/lib.py", ""),
            ("notes.sql", ""),
            ("module.pyi", ""),
        ],
    );

    assert_eq!(
        test.relative_sources(),
        ["a.chalk.sql", "nested/keep.py", "z.py"]
    );
    assert!(test.contains("/project/nested/keep.py"));
    assert!(!test.contains("/project/nested/ignored.py"));
    assert!(!test.contains("/other/file.py"));
}

#[test]
fn applies_default_chalkignore() {
    let test = TestProject::new(
        "chalk.yml",
        "{}",
        &[
            (".chalkignore", "ignored.py\n"),
            ("ignored.py", ""),
            ("keep.py", ""),
        ],
    );

    assert_eq!(test.relative_sources(), ["keep.py"]);
}

#[test]
fn applies_configured_default_environment_chalkignore() {
    let test = TestProject::new(
        "chalk.yaml",
        "chalkignore: project.ignore\nenvironments:\n  default:\n    chalkignore: default.ignore\n",
        &[
            ("project.ignore", "project-only.py\n"),
            ("default.ignore", "default-only.py\n"),
            ("project-only.py", ""),
            ("default-only.py", ""),
            ("keep.py", ""),
        ],
    );

    assert_eq!(test.relative_sources(), ["keep.py", "project-only.py"]);
}

#[test]
fn applies_project_level_configured_chalkignore() {
    let test = TestProject::new(
        "chalk.yaml",
        "chalkignore: custom.ignore\n",
        &[
            (".chalkignore", "default-only.py\n"),
            ("custom.ignore", "custom-only.py\n"),
            ("default-only.py", ""),
            ("custom-only.py", ""),
            ("keep.py", ""),
        ],
    );

    assert_eq!(test.relative_sources(), ["default-only.py", "keep.py"]);
}

#[test]
fn a_missing_project_ignore_file_falls_back_and_a_missing_default_one_does_not() {
    let project = TestProject::new(
        "chalk.yaml",
        "chalkignore: missing.ignore\n",
        &[(".chalkignore", "a.py\n"), ("a.py", ""), ("b.py", "")],
    );
    assert_eq!(project.relative_sources(), ["b.py"]);

    let environment = TestProject::new(
        "chalk.yaml",
        "environments:\n  default:\n    chalkignore: missing.ignore\n",
        &[(".chalkignore", "a.py\n"), ("a.py", ""), ("b.py", "")],
    );
    assert_eq!(environment.relative_sources(), ["a.py", "b.py"]);
    assert_eq!(
        environment
            .project
            .configured_ignore_path(&environment.system, &environment.config)
            .unwrap()
            .to_text(),
        "/project/missing.ignore"
    );
}

#[test]
fn deeper_rules_win_and_whitelists_undo_ignores() {
    let test = TestProject::new(
        "chalk.yaml",
        "{}",
        &[
            (".gitignore", "*.py\n!keep.py\n# comment\n"),
            ("keep.py", ""),
            ("drop.py", ""),
            ("nested/.gitignore", "!drop.py\nkeep.py\n"),
            ("nested/keep.py", ""),
            ("nested/drop.py", ""),
        ],
    );
    assert_eq!(test.relative_sources(), ["keep.py", "nested/drop.py"]);
}

#[test]
fn ignored_directories_hide_their_sources_and_their_ignore_files() {
    let test = TestProject::new(
        "chalk.yaml",
        "{}",
        &[
            (".gitignore", "build/\n"),
            ("build/.gitignore", "!a.py\n"),
            ("build/a.py", ""),
            ("builder.py", ""),
        ],
    );
    assert_eq!(test.relative_sources(), ["builder.py"]);
    assert!(!test.contains("/project/build/a.py"));

    let matcher =
        ProjectIgnoreMatcher::new(&test.system, &test.project, &test.config).unwrap();
    assert!(matcher.is_ignored(&path("/project/build"), true));
    assert!(matcher.is_ignored(&path("/project/__pycache__"), true));
    assert!(!matcher.is_ignored(&path("/project/builder.py"), false));
    assert!(!matcher.is_ignored(&path("/elsewhere/build"), true));
}

#[test]
fn verdicts_fold_with_the_later_one_winning() {
    assert_eq!(fold_match(None, None), None);
    assert_eq!(
        fold_match(Some(MatchKind::Ignore), None),
        Some(MatchKind::Ignore)
    );
    assert_eq!(
        fold_match(Some(MatchKind::Ignore), Some(MatchKind::Whitelist)),
        Some(MatchKind::Whitelist)
    );
}

#[test]
fn unreadable_and_malformed_projects_say_why() {
    let mut test = TestProject::new("chalk.yaml", "{}", &[("a.py", "")]);
    test.config = Err("bad".to_owned());
    match test.project.source_files(&test.system, &test.config) {
        Err(ChalkProjectError::Config { path, error }) => {
            assert_eq!(path.to_text(), "/project/chalk.yaml");
            assert_eq!(error, "bad");
        }
        other => panic!("{other:?}"),
    }

    let broken = TestProject::new("chalk.yaml", "{}", &[(".chalkignore", "a{b\n"), ("a.py", "")]);
    assert!(matches!(
        broken.project.source_files(&broken.system, &broken.config),
        Err(ChalkProjectError::Ignore(_))
    ));

    let mut unlisted = TestProject::new("chalk.yaml", "{}", &[("nested/a.py", "")]);
    for node in &mut unlisted.system.nodes {
        if node.path.to_text() == "/project/nested" {
            node.kind = NodeKind::Directory {
                listing: Err(IoErrorKind::Other),
            };
        }
    }
    assert!(matches!(
        unlisted.project.source_files(&unlisted.system, &unlisted.config),
        Err(ChalkProjectError::Io(IoErrorKind::Other))
    ));

    let mut removed = TestProject::new("chalk.yaml", "{}", &[("a.py", "")]);
    removed
        .system
        .nodes
        .retain(|node| node.path.to_text() != "/project/chalk.yaml");
    assert!(matches!(
        removed.project.source_files(&removed.system, &removed.config),
        Err(ChalkProjectError::Io(IoErrorKind::NotFound))
    ));
    assert!(matches!(
        removed
            .project
            .contains_source(&removed.system, &removed.config, "a.py"),
        Err(ChalkProjectError::Io(IoErrorKind::NotFound))
    ));
    assert!(matches!(
        removed
            .project
            .contains_source(&removed.system, &removed.config, "missing.py"),
        Ok(false)
    ));
}

#[test]
fn sources_are_sorted_by_names_and_not_by_characters() {
    let test = TestProject::new(
        "chalk.yaml",
        "{}",
        &[("a-b/x.py", ""), ("a/y.py", ""), ("a.py", "")],
    );
    assert_eq!(test.relative_sources(), ["a/y.py", "a-b/x.py", "a.py"]);
}

#[test]
fn linked_directories_are_not_walked() {
    let mut test = TestProject::new("chalk.yaml", "{}", &[("linked/a.py", ""), ("b.py", "")]);
    assert_eq!(test.relative_sources(), ["b.py", "linked/a.py"]);
    for node in &mut test.system.nodes {
        if node.path.to_text() == "/project/linked" {
            node.is_link = true;
        }
    }
    assert_eq!(test.relative_sources(), ["b.py"]);
    assert!(test.system.is_directory(&path("/project/linked")));
    assert!(test.contains("/project/linked/a.py"));
}

#[test]
fn comments_and_blank_lines_are_no_rules() {
    let test = TestProject::new(
        "chalk.yaml",
        "{}",
        &[(".gitignore", "# a.py\n\n   \n"), ("a.py", ""), ("nested/b.py", "")],
    );
    assert_eq!(test.relative_sources(), ["a.py", "nested/b.py"]);
    let trimmed = TestProject::new(
        "chalk.yaml",
        "{}",
        &[(".gitignore", "# all but b\na.py  \n"), ("a.py", ""), ("nested/b.py", "")],
    );
    assert_eq!(trimmed.relative_sources(), ["nested/b.py"]);
}

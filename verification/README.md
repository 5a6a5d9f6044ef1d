# ty_chalk

Checks feature pipelines written in Python against what a static accelerator can run, and keeps the
projects of a language server in step with the files and documents they are made of. The library
is verified with Verus: every function states what it returns, and `*_laws.rs` state what holds
across functions.

## Layout

- `src/` is the verified library.
  - `semantic`, `syntax`: what a type checker knows of a program, and the parts of its source that
    are read.
  - `supported_functions`, `presentation`: the registry of supported calls and how it is shown.
  - `chalk`, `provenance`, `type_matcher`, `call_matcher`: origins of modules and definitions, and
    matching calls against the registry.
  - `suppression`, `facts`, `reachability`, `diagnostic`, `project_diagnostics`: from a file to what
    is reported of a project.
  - `features`, `feature_paths`, `feature_expressions`, `feature_returns`, `feature_calls`: the
    types of classes of features, of paths through them, of rows in subscripts of relationships
    and of what resolvers return.
  - `paths`, `system`, `ignores`, `project`, `active_project`: finding a project and its sources.
  - `path_map`, `workspaces`, `messages`, `registrations`, `session`, `session_folders`,
    `workspace_requests`: the state of a language server.
  - `text`, `order`, `version`: texts, sorting and the version in a manifest.
- `tests/` runs the library. `tests/analysis.rs` brings a small Python front end of its own.
- `app/` reads files and settings and speaks the language server protocol.

The file system, the open documents and the knowledge of the type checker come in as values.
Matching ignore files is the `ignore` crate's work and sets of numbers are `rustc_hash`'s; what is
taken from them on trust is stated next to each call.

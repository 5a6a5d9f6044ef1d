//! Which rules decide whether a project ignores a path.

use vstd::prelude::*;

use crate::ignores;
use crate::ignores::Rules;
use crate::paths;
use crate::project;
use crate::project::{ChalkConfig, IgnoreRules};
use crate::project_laws;
use crate::system::{Entry, IoErrorKind, System};

verus! {

// ---------------------------------------------------------------------------------------------
// The last word
// ---------------------------------------------------------------------------------------------

/// What the globs of an ignore file in a directory say of a path: to ignore it, to keep it, or
/// nothing.
pub open spec fn verdict(
    directory: Seq<Seq<char>>,
    globs: Seq<Seq<char>>,
    path: Seq<Seq<char>>,
    is_directory: bool,
) -> Option<bool> {
    if globs.len() == 0 {
        None
    } else {
        ignores::rule_verdict(
            paths::path_text(directory),
            globs,
            paths::path_text(path),
            is_directory,
        )
    }
}

/// Whether a `.gitignore` file speaks of a path: the path lies in its directory and some glob of it
/// matches.
pub open spec fn speaks(rules: Rules, path: Seq<Seq<char>>, is_directory: bool) -> bool {
    rules.directory.is_prefix_of(path) && verdict(
        rules.directory,
        rules.globs,
        path,
        is_directory,
    ) is Some
}

/// Whether the last of some `.gitignore` files to speak of a path stands at a place.
pub open spec fn speaks_last(
    gitignores: Seq<Rules>,
    path: Seq<Seq<char>>,
    is_directory: bool,
    i: int,
) -> bool {
    &&& 0 <= i < gitignores.len()
    &&& speaks(gitignores[i], path, is_directory)
    &&& forall|j: int|
        i < j < gitignores.len() ==> !speaks(#[trigger] gitignores[j], path, is_directory)
}

/// Whether no `.gitignore` file speaks of a path.
pub open spec fn are_silent(
    gitignores: Seq<Rules>,
    path: Seq<Seq<char>>,
    is_directory: bool,
) -> bool {
    forall|j: int|
        0 <= j < gitignores.len() ==> !speaks(#[trigger] gitignores[j], path, is_directory)
}

proof fn lemma_last_gitignore(gitignores: Seq<Rules>, path: Seq<Seq<char>>, is_directory: bool)
    ensures
        ({
            let said = ignores::all_say(gitignores, path, is_directory);
            &&& forall|i: int| #[trigger]
                speaks_last(gitignores, path, is_directory, i) ==> said == Some(
                    if verdict(
                        gitignores[i].directory,
                        gitignores[i].globs,
                        path,
                        is_directory,
                    )->0 {
                        ignores::MatchKind::Ignore
                    } else {
                        ignores::MatchKind::Whitelist
                    },
                )
            &&& are_silent(gitignores, path, is_directory) ==> said is None
        }),
    decreases gitignores.len(),
{
    if gitignores.len() > 0 {
        let init = gitignores.drop_last();
        let last = gitignores.last();
        let at = gitignores.len() - 1;
        lemma_last_gitignore(init, path, is_directory);
        assert(gitignores[at] == last);
        assert(forall|j: int| 0 <= j < init.len() ==> #[trigger] init[j] == gitignores[j]);
        assert forall|i: int| #[trigger]
            speaks_last(gitignores, path, is_directory, i) implies ignores::all_say(
            gitignores,
            path,
            is_directory,
        ) == Some(
            if verdict(gitignores[i].directory, gitignores[i].globs, path, is_directory)->0 {
                ignores::MatchKind::Ignore
            } else {
                ignores::MatchKind::Whitelist
            },
        ) by {
            if i < at {
                assert(!speaks(gitignores[at], path, is_directory));
                assert forall|j: int| i < j < init.len() implies !speaks(
                    #[trigger] init[j],
                    path,
                    is_directory,
                ) by {
                    assert(!speaks(gitignores[j], path, is_directory));
                }
                assert(init[i] == gitignores[i]);
                assert(speaks_last(init, path, is_directory, i));
            }
        }
        if are_silent(gitignores, path, is_directory) {
            assert(!speaks(gitignores[at], path, is_directory));
            assert forall|j: int| 0 <= j < init.len() implies !speaks(
                #[trigger] init[j],
                path,
                is_directory,
            ) by {
                assert(!speaks(gitignores[j], path, is_directory));
            }
        }
    }
}

/// The last word counts: what the built-in globs say of a path in the project is done; where they
/// say nothing, what the chalk ignore file says, whatever the `.gitignore` files say; where that
/// says nothing either, what the last `.gitignore` file that speaks of the path says. A path of
/// which nothing is said is kept, and so is every path outside the project.
pub proof fn law_the_last_word_counts(
    rules: IgnoreRules,
    path: Seq<Seq<char>>,
    is_directory: bool,
)
    ensures
        ({
            let ignored = project::is_ignored(rules, path, is_directory);
            let inside = rules.root.is_prefix_of(path);
            let built_in = verdict(rules.root, rules.built_in, path, is_directory);
            let chalk = verdict(rules.root, rules.chalkignore, path, is_directory);
            &&& !inside ==> !ignored
            &&& inside && built_in is Some ==> ignored == built_in->0
            &&& inside && built_in is None && chalk is Some ==> ignored == chalk->0
            &&& inside && built_in is None && chalk is None ==> {
                &&& forall|i: int| #[trigger]
                    speaks_last(rules.gitignores, path, is_directory, i) ==> ignored == verdict(
                        rules.gitignores[i].directory,
                        rules.gitignores[i].globs,
                        path,
                        is_directory,
                    )->0
                &&& are_silent(rules.gitignores, path, is_directory) ==> !ignored
            }
        }),
{
    lemma_last_gitignore(rules.gitignores, path, is_directory);
}

/// Whether some `.gitignore` file speaks of a path is decided by one of them: either one speaks
/// last, or all are silent.
pub proof fn law_one_gitignore_speaks_last(
    gitignores: Seq<Rules>,
    path: Seq<Seq<char>>,
    is_directory: bool,
)
    ensures
        are_silent(gitignores, path, is_directory) || exists|i: int|
            speaks_last(gitignores, path, is_directory, i),
    decreases gitignores.len(),
{
    if gitignores.len() > 0 {
        let init = gitignores.drop_last();
        let at = gitignores.len() - 1;
        if speaks(gitignores[at], path, is_directory) {
            assert(speaks_last(gitignores, path, is_directory, at));
        } else {
            law_one_gitignore_speaks_last(init, path, is_directory);
            assert(forall|j: int| 0 <= j < init.len() ==> #[trigger] init[j] == gitignores[j]);
            if are_silent(init, path, is_directory) {
                assert forall|j: int| 0 <= j < gitignores.len() implies !speaks(
                    #[trigger] gitignores[j],
                    path,
                    is_directory,
                ) by {
                    if j < at {
                        assert(!speaks(init[j], path, is_directory));
                    }
                }
            } else {
                let i = choose|i: int| speaks_last(init, path, is_directory, i);
                assert forall|j: int| i < j < gitignores.len() implies !speaks(
                    #[trigger] gitignores[j],
                    path,
                    is_directory,
                ) by {
                    if j < at {
                        assert(!speaks(init[j], path, is_directory));
                    }
                }
                assert(speaks_last(gitignores, path, is_directory, i));
            }
        }
    }
}

/// Two projects with the same root, chalk ignore file and built-in globs agree on every path of
/// which one of the latter two speaks, whatever `.gitignore` files they have.
pub proof fn law_gitignores_do_not_overrule(
    one: IgnoreRules,
    other: IgnoreRules,
    path: Seq<Seq<char>>,
    is_directory: bool,
)
    requires
        one.root == other.root,
        one.chalkignore == other.chalkignore,
        one.built_in == other.built_in,
        verdict(one.root, one.built_in, path, is_directory) is Some || verdict(
            one.root,
            one.chalkignore,
            path,
            is_directory,
        ) is Some,
    ensures
        project::is_ignored(one, path, is_directory) == project::is_ignored(
            other,
            path,
            is_directory,
        ),
{
}

/// What the chalk ignore file of a project says to ignore is no source of it, whatever the
/// `.gitignore` files say, unless a built-in glob speaks of it; and what it says to keep is a
/// source under the same condition.
pub proof fn law_the_chalk_ignore_file_decides_on_sources(
    system: System,
    root: Seq<Seq<char>>,
    config_path: Seq<Seq<char>>,
    config: Result<ChalkConfig, String>,
    rules: IgnoreRules,
    path: Seq<Seq<char>>,
)
    requires
        project::project_rules(system, root, config_path, config) == Ok::<
            IgnoreRules,
            project::Failure,
        >(rules),
        root.is_prefix_of(path),
        system.has_file(path),
        paths::is_source_path(path),
        verdict(root, rules.built_in, path, false) is None,
        verdict(root, rules.chalkignore, path, false) is Some,
    ensures
        project::is_project_source(system, root, config_path, config, path) == Ok::<
            bool,
            project::Failure,
        >(!verdict(root, rules.chalkignore, path, false)->0),
        verdict(root, rules.chalkignore, path, false)->0 ==> match project::project_sources(
            system,
            root,
            config_path,
            config,
        ) {
            Ok(sources) => !sources.contains(path),
            Err(_) => true,
        },
{
    law_the_last_word_counts(rules, path, false);
    if project::project_sources(system, root, config_path, config) is Ok {
        project_laws::law_sources_are_what_is_not_ignored(
            system,
            root,
            config_path,
            config,
            path,
        );
    }
}

/// Nothing below a directory that a project ignores is listed as a source.
pub proof fn law_ignored_directories_hide_their_sources(
    system: System,
    root: Seq<Seq<char>>,
    config_path: Seq<Seq<char>>,
    config: Result<ChalkConfig, String>,
    rules: IgnoreRules,
    path: Seq<Seq<char>>,
    k: int,
)
    requires
        project::project_rules(system, root, config_path, config) == Ok::<
            IgnoreRules,
            project::Failure,
        >(rules),
        project::project_sources(system, root, config_path, config) is Ok,
        root.len() < k < path.len(),
        project::is_ignored(rules, path.take(k), true),
    ensures
        !project::project_sources(system, root, config_path, config)->Ok_0.contains(path),
{
    project_laws::law_sources_are_what_is_not_ignored(system, root, config_path, config, path);
    if project_laws::is_reached(system, rules, root, path) {
        assert(project_laws::is_entered(system, rules, path.take(k)));
    }
}

// ---------------------------------------------------------------------------------------------
// Where the rules come from
// ---------------------------------------------------------------------------------------------

/// The rules of a project come from four places: the `.gitignore` files, the chalk ignore file, and
/// the globs that every project has, which are these.
pub proof fn law_rules_come_from_the_project(
    system: System,
    root: Seq<Seq<char>>,
    config_path: Seq<Seq<char>>,
    config: ChalkConfig,
    rules: IgnoreRules,
)
    requires
        project::project_rules(system, root, config_path, Ok(config)) == Ok::<
            IgnoreRules,
            project::Failure,
        >(rules),
    ensures
        rules.root == root,
        ({
            let path = project::chalkignore_path(system, root, config);
            match system.contents(path) {
                Ok(contents) => rules.chalkignore == ignores::globs_of(
                    ignores::lines_of(contents),
                ),
                Err(kind) => kind == IoErrorKind::NotFound && rules.chalkignore.len() == 0,
            }
        }),
        rules.built_in == ignores::globs_of(
            seq![
                "*.egg*"@,
                "*.iml"@,
                "*.ipynb_checkpoints*"@,
                "*.pyc"@,
                "*.py~"@,
                "*venv"@,
                ".DS_Store"@,
                ".git"@,
                ".github"@,
                ".idea"@,
                ".vscode"@,
                "__pycache__"@,
                "node_modules"@,
                "venv"@,
            ],
        ),
{
}

/// Whether the first environment that is called `default` names an ignore file.
pub open spec fn default_names(config: ChalkConfig, name: Seq<char>) -> bool {
    exists|i: int|
        0 <= i < config.environments@.len() && (#[trigger] config.environments@[i]).0@ == "default"@
            && (forall|j: int|
            0 <= j < i ==> (#[trigger] config.environments@[j]).0@ != "default"@)
            && (config.environments@[i].1.chalkignore matches Some(own) && own@ == name)
}

proof fn lemma_default(config: ChalkConfig, at: int)
    requires
        0 <= at,
        forall|j: int|
            0 <= j < at && j < config.environments@.len() ==> (
            #[trigger] config.environments@[j]).0@ != "default"@,
    ensures
        match project::default_chalkignore(config.environments@, at) {
            Some(name) => forall|other: Seq<char>| #[trigger]
                default_names(config, other) <==> other == name,
            None => forall|other: Seq<char>| !#[trigger] default_names(config, other),
        },
    decreases config.environments@.len() - at,
{
    let all = config.environments@;
    if at < all.len() {
        if all[at].0@ == "default"@ {
            assert forall|other: Seq<char>| #[trigger] default_names(config, other) implies (
            all[at].1.chalkignore matches Some(own) && own@ == other) by {
                let i = choose|i: int|
                    0 <= i < all.len() && (#[trigger] all[i]).0@ == "default"@ && (forall|j: int|
                        0 <= j < i ==> (#[trigger] all[j]).0@ != "default"@) && (
                    all[i].1.chalkignore matches Some(own) && own@ == other);
                if i < at {
                    assert(all[i].0@ != "default"@);
                } else if at < i {
                    assert(all[at].0@ != "default"@);
                }
            }
            if let Some(own) = all[at].1.chalkignore {
                assert(default_names(config, own@));
            }
        } else {
            lemma_default(config, at + 1);
        }
    } else {
        assert forall|other: Seq<char>| !#[trigger] default_names(config, other) by {
            if default_names(config, other) {
                let i = choose|i: int|
                    0 <= i < all.len() && (#[trigger] all[i]).0@ == "default"@ && (forall|j: int|
                        0 <= j < i ==> (#[trigger] all[j]).0@ != "default"@) && (
                    all[i].1.chalkignore matches Some(own) && own@ == other);
                assert(all[i].0@ != "default"@);
            }
        }
    }
}

/// The chalk ignore file is the one that the default environment names, whether it exists or not;
/// or else the one that the project names, if it exists; or else `.chalkignore` in the root. An
/// empty name counts as none.
pub proof fn law_the_chalk_ignore_file_is_named_or_standard(
    system: System,
    root: Seq<Seq<char>>,
    config: ChalkConfig,
    named: Seq<char>,
)
    ensures
        ({
            let path = project::chalkignore_path(system, root, config);
            let standard = root.push(".chalkignore"@);
            let own = match config.chalkignore {
                Some(own) => own@,
                None => Seq::empty(),
            };
            &&& named.len() > 0 && default_names(config, named) ==> path == paths::resolved(
                named,
                root,
            )
            &&& (forall|other: Seq<char>| #[trigger]
                default_names(config, other) ==> other.len() == 0) ==> path == if own.len() > 0
                && system.at(paths::resolved(own, root)) is Some {
                paths::resolved(own, root)
            } else {
                standard
            }
        }),
{
    lemma_default(config, 0);
    if let Some(name) = project::default_chalkignore(config.environments@, 0) {
        assert(default_names(config, name));
    }
}

/// Sources are files with a name in front of `.py`, and files whose name ends in `.chalk.sql`.
pub proof fn law_sources_are_told_by_their_names(path: Seq<Seq<char>>)
    ensures
        paths::is_source_path(path) <==> path.len() > 0 && exists|stem: Seq<char>|
            (path.last() == #[trigger] (stem + ".py"@) && stem.len() > 0) || path.last() == stem
                + ".chalk.sql"@,
{
    let name = if path.len() > 0 {
        path.last()
    } else {
        Seq::empty()
    };
    reveal_strlit(".py");
    reveal_strlit(".chalk.sql");
    if paths::is_source_path(path) {
        if ".py"@.is_suffix_of(name) && name != ".py"@ {
            let stem = name.take(name.len() - ".py"@.len());
            assert(name =~= stem + ".py"@);
            if stem.len() == 0 {
                assert(name =~= ".py"@);
            }
        } else {
            let stem = name.take(name.len() - ".chalk.sql"@.len());
            assert(name =~= stem + ".chalk.sql"@);
            let py = stem + ".py"@;
        }
    }
    assert forall|stem: Seq<char>|
        path.len() > 0 && ((path.last() == #[trigger] (stem + ".py"@) && stem.len() > 0)
            || path.last() == stem + ".chalk.sql"@) implies paths::is_source_path(path) by {
        if path.last() == stem + ".py"@ && stem.len() > 0 {
            assert(".py"@ =~= name.skip(name.len() - ".py"@.len()));
        } else {
            assert(".chalk.sql"@ =~= name.skip(name.len() - ".chalk.sql"@.len()));
        }
    }
}

} // verus!

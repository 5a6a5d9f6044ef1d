//! What holds of sessions, whatever is opened, changed and closed.

use vstd::prelude::*;

use crate::active_project::Change;
use crate::paths;
use crate::project;
use crate::session;
use crate::session::{
    Document, LanguageId, Place, Project, ProjectKind, Routes, World,
};
use crate::session_folders;
use crate::workspaces;

verus! {

// ---------------------------------------------------------------------------------------------
// Routing
// ---------------------------------------------------------------------------------------------

/// A path is routed to a project that it lies in, to a feature project if it lies in one, and among
/// projects of one kind to the innermost.
pub proof fn law_routing_prefers_feature_projects(
    projects: Map<Seq<Seq<char>>, Project>,
    path: Seq<Seq<char>>,
    other: Seq<Seq<char>>,
)
    requires
        projects.contains_key(other),
        paths::lies_in(path, other),
    ensures
        session::routed(projects, path) matches Some(root) && {
            &&& projects.contains_key(root)
            &&& paths::lies_in(path, root)
            &&& projects[other].kind == ProjectKind::Chalk ==> projects[root].kind
                == ProjectKind::Chalk
            &&& projects[other].kind == projects[root].kind ==> other.len() <= root.len()
        },
{
    let chalk = session::roots_of(projects, ProjectKind::Chalk);
    let rest = session::roots_of(projects, ProjectKind::Workspace);
    workspaces::law_innermost_is_longest(chalk, path, other);
    workspaces::law_innermost_is_longest(rest, path, other);
    if projects[other].kind == ProjectKind::Chalk {
        assert(chalk.contains(other));
    } else {
        assert(rest.contains(other));
    }
}

/// A path that lies in no project is routed nowhere.
pub proof fn law_outside_paths_are_not_routed(
    projects: Map<Seq<Seq<char>>, Project>,
    path: Seq<Seq<char>>,
)
    requires
        forall|root: Seq<Seq<char>>| #[trigger]
            projects.contains_key(root) ==> !paths::lies_in(path, root),
    ensures
        session::routed(projects, path) is None,
{
    session::lemma_routed(projects, path);
}

/// A file that lies in a project has exactly one owner: the project that documents in it are routed
/// to.
pub proof fn law_files_have_one_owner(
    projects: Map<Seq<Seq<char>>, Project>,
    path: Seq<Seq<char>>,
    root: Seq<Seq<char>>,
)
    requires
        session::routed(projects, path) is Some,
        projects.contains_key(root),
    ensures
        session_folders::owns(projects, root, Place::System(path)) <==> root == session::owner(
            projects,
            Place::System(path),
        ),
{
}

proof fn lemma_following_kinds(
    world: World,
    changes: Seq<Change>,
    projects: Map<Seq<Seq<char>>, Project>,
    kind: ProjectKind,
)
    ensures
        session::roots_of(projects.map_values(session::following(world, changes)), kind)
            == session::roots_of(projects, kind),
{
    let after = projects.map_values(session::following(world, changes));
    assert forall|root: Seq<Seq<char>>| #[trigger]
        session::roots_of(after, kind).contains(root) <==> session::roots_of(
            projects,
            kind,
        ).contains(root) by {
        if projects.contains_key(root) {
            assert(after[root] == session::followed(world, changes, projects[root]));
        }
    }
    assert(session::roots_of(after, kind) =~= session::roots_of(projects, kind));
}

/// Changes of the file system never change which project a path is routed to.
pub proof fn law_changes_do_not_reroute(
    world: World,
    changes: Seq<Change>,
    projects: Map<Seq<Seq<char>>, Project>,
    path: Seq<Seq<char>>,
)
    ensures
        session::routed(projects.map_values(session::following(world, changes)), path)
            == session::routed(projects, path),
{
    lemma_following_kinds(world, changes, projects, ProjectKind::Chalk);
    lemma_following_kinds(world, changes, projects, ProjectKind::Workspace);
}

// ---------------------------------------------------------------------------------------------
// Feature projects
// ---------------------------------------------------------------------------------------------

/// A document that is routed to a feature project stays there, whatever the file system holds by
/// now.
pub proof fn law_feature_projects_survive(
    world: World,
    folders: Set<Seq<Seq<char>>>,
    documents: Seq<Document>,
    routes: Routes,
    uri: Seq<char>,
    path: Seq<Seq<char>>,
    language: Option<LanguageId>,
)
    requires
        session::routed(routes.projects, path) matches Some(own) && routes.projects[own].kind
            == ProjectKind::Chalk,
    ensures
        session::ensured(
            world,
            folders,
            documents,
            routes,
            uri,
            Place::System(path),
            language,
        ) == (routes, None::<project::Failure>),
{
}

/// Where a feature project cannot be made active, everything stays as it is.
pub proof fn law_failures_change_nothing(
    world: World,
    folders: Set<Seq<Seq<char>>>,
    documents: Seq<Document>,
    routes: Routes,
    uri: Seq<char>,
    place: Place,
    language: Option<LanguageId>,
)
    requires
        session::ensured(world, folders, documents, routes, uri, place, language).1 is Some,
    ensures
        session::ensured(world, folders, documents, routes, uri, place, language).0 == routes,
{
}

proof fn lemma_discovered_contains(system: crate::system::System, path: Seq<Seq<char>>)
    ensures
        project::discovered(system, path) matches Some((root, _)) ==> paths::lies_in(path, root),
{
    crate::project_laws::law_nearest_project_is_found(system, path);
}

/// A document of a feature project is routed to a feature project once it is opened, unless the
/// project cannot be made active.
pub proof fn law_documents_reach_their_project(
    world: World,
    folders: Set<Seq<Seq<char>>>,
    documents: Seq<Document>,
    routes: Routes,
    uri: Seq<char>,
    path: Seq<Seq<char>>,
    language: Option<LanguageId>,
)
    requires
        !session::is_foreign(Place::System(path), language),
        project::discovered(world.system, path) is Some,
        session::ensured(
            world,
            folders,
            documents,
            routes,
            uri,
            Place::System(path),
            language,
        ).1 is None,
    ensures
        ({
            let after = session::ensured(
                world,
                folders,
                documents,
                routes,
                uri,
                Place::System(path),
                language,
            ).0;
            session::routed(after.projects, path) matches Some(own) && after.projects[own].kind
                == ProjectKind::Chalk
        }),
{
    let after = session::ensured(
        world,
        folders,
        documents,
        routes,
        uri,
        Place::System(path),
        language,
    ).0;
    lemma_discovered_contains(world.system, path);
    let root = project::discovered(world.system, path)->Some_0.0;
    if session::routed(routes.projects, path) matches Some(own) && routes.projects[own].kind
        == ProjectKind::Chalk {
    } else {
        assert(after.projects.contains_key(root));
        assert(after.projects[root].kind == ProjectKind::Chalk);
        law_routing_prefers_feature_projects(after.projects, path, root);
    }
}

/// Opening another document in a feature project that is there changes no routes.
pub proof fn law_ensuring_is_idempotent(
    world: World,
    later: World,
    folders: Set<Seq<Seq<char>>>,
    documents: Seq<Document>,
    routes: Routes,
    uri: Seq<char>,
    path: Seq<Seq<char>>,
    language: Option<LanguageId>,
)
    requires
        !session::is_foreign(Place::System(path), language),
        project::discovered(world.system, path) is Some,
        session::ensured(
            world,
            folders,
            documents,
            routes,
            uri,
            Place::System(path),
            language,
        ).1 is None,
    ensures
        ({
            let after = session::ensured(
                world,
                folders,
                documents,
                routes,
                uri,
                Place::System(path),
                language,
            ).0;
            session::ensured(
                later,
                folders,
                documents,
                after,
                uri,
                Place::System(path),
                language,
            ) == (after, None::<project::Failure>)
        }),
{
    law_documents_reach_their_project(world, folders, documents, routes, uri, path, language);
}

// ---------------------------------------------------------------------------------------------
// Folders
// ---------------------------------------------------------------------------------------------

/// Removing a workspace folder removes the projects that belong to it, and leaves the others as they
/// are.
pub proof fn law_removal_is_exact(
    projects: Map<Seq<Seq<char>>, Project>,
    workspace_root: Seq<Seq<char>>,
    root: Seq<Seq<char>>,
)
    requires
        projects.contains_key(root),
    ensures
        session_folders::without_folder(projects, workspace_root).contains_key(root)
            <==> projects[root].workspace_root != Some(workspace_root),
        session_folders::without_folder(projects, workspace_root).contains_key(root)
            ==> session_folders::without_folder(projects, workspace_root)[root] == projects[root],
{
}

/// Removing a workspace folder twice is the same as removing it once.
pub proof fn law_removal_is_idempotent(
    projects: Map<Seq<Seq<char>>, Project>,
    workspace_root: Seq<Seq<char>>,
)
    ensures
        session_folders::without_folder(
            session_folders::without_folder(projects, workspace_root),
            workspace_root,
        ) == session_folders::without_folder(projects, workspace_root),
{
    assert(session_folders::without_folder(
        session_folders::without_folder(projects, workspace_root),
        workspace_root,
    ) =~= session_folders::without_folder(projects, workspace_root));
}

// ---------------------------------------------------------------------------------------------
// Open files
// ---------------------------------------------------------------------------------------------

/// Closing a file that was opened just now leaves the open files as they were.
pub proof fn law_close_undoes_open(open: Seq<Place>, place: Place)
    requires
        !open.contains(place),
    ensures
        session::without_place(session::with_place(open, place), place) == open,
{
    let wanted = session::is_elsewhere(place);
    reveal(Seq::filter);
    assert(open.push(place).drop_last() =~= open);
    assert forall|i: int| 0 <= i < open.len() implies wanted(#[trigger] open[i]) by {
        assert(open.contains(open[i]));
    }
    crate::order::lemma_filter_all(open, wanted);
}

} // verus!

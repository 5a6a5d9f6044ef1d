//! Which open documents go over to a feature project, and where they are open afterwards.

use vstd::prelude::*;

use crate::active_project;
use crate::active_project::{Active, Change};
use crate::session;
use crate::session::{
    Document, DocumentKind, LanguageId, Migrated, Place, Project, ProjectKind, World,
};

verus! {

proof fn lemma_append<A>(list: Seq<A>, item: A, other: A)
    ensures
        list.push(item).contains(other) <==> list.contains(other) || item == other,
{
    let longer = list.push(item);
    if list.contains(other) {
        let i = choose|i: int| 0 <= i < list.len() && list[i] == other;
        assert(longer[i] == other);
    }
    if item == other {
        assert(longer[list.len() as int] == other);
    }
    if longer.contains(other) {
        let i = choose|i: int| 0 <= i < longer.len() && longer[i] == other;
        if i < list.len() {
            assert(list[i] == other);
        }
    }
}

proof fn lemma_filtered<A>(list: Seq<A>, keep: spec_fn(A) -> bool, item: A)
    ensures
        list.filter(keep).contains(item) <==> list.contains(item) && keep(item),
    decreases list.len(),
{
    reveal(Seq::filter);
    if list.len() > 0 {
        let init = list.drop_last();
        lemma_filtered(init, keep, item);
        lemma_append(init.filter(keep), list.last(), item);
        lemma_append(init, list.last(), item);
        assert(list =~= init.push(list.last()));
    }
}

/// Whether an open document goes over to a feature project as something: it is a file in the
/// project's directory and no cell of a notebook, it is written in Python or is a SQL source, and a
/// workspace has it so far.
pub open spec fn goes_over(
    projects: Map<Seq<Seq<char>>, Project>,
    document: Document,
    root: Seq<Seq<char>>,
    migrated: Migrated,
) -> bool {
    &&& document.place == Place::System(migrated.path)
    &&& document.uri == migrated.uri
    &&& document.kind != DocumentKind::Cell
    &&& root.is_prefix_of(migrated.path)
    &&& document.language == Some(LanguageId::Other) ==> active_project::is_sql_path(migrated.path)
    &&& migrated.is_python == (document.language != Some(LanguageId::Other))
    &&& session::routed(projects, migrated.path) == Some(migrated.from)
    &&& projects[migrated.from].kind != ProjectKind::Chalk
}

/// The documents that go over to a feature project are exactly the open ones that do.
pub proof fn law_documents_in_the_directory_go_over(
    projects: Map<Seq<Seq<char>>, Project>,
    documents: Seq<Document>,
    root: Seq<Seq<char>>,
    migrated: Migrated,
)
    ensures
        session::migrating(projects, documents, root).contains(migrated) <==> exists|i: int|
            0 <= i < documents.len() && goes_over(
                projects,
                #[trigger] documents[i],
                root,
                migrated,
            ),
    decreases documents.len(),
{
    if documents.len() > 0 {
        let init = documents.drop_last();
        let at = documents.len() - 1;
        let before = session::migrating(projects, init, root);
        law_documents_in_the_directory_go_over(projects, init, root, migrated);
        assert(documents[at] == documents.last());
        assert(session::migration(projects, documents.last(), root) == Some(migrated) <==> goes_over(
            projects,
            documents[at],
            root,
            migrated,
        ));
        if let Some(own) = session::migration(projects, documents.last(), root) {
            lemma_append(before, own, migrated);
        }
        if before.contains(migrated) {
            let i = choose|i: int|
                0 <= i < init.len() && goes_over(projects, #[trigger] init[i], root, migrated);
            assert(documents[i] == init[i]);
        }
        if exists|i: int|
            0 <= i < documents.len() && goes_over(
                projects,
                #[trigger] documents[i],
                root,
                migrated,
            ) {
            let i = choose|i: int|
                0 <= i < documents.len() && goes_over(
                    projects,
                    #[trigger] documents[i],
                    root,
                    migrated,
                );
            if i < at {
                assert(init[i] == documents[i]);
            }
        }
    }
}

/// Whether a document that goes over is open in the project that it comes from at a place.
pub open spec fn leaves(document: Migrated, root: Seq<Seq<char>>, place: Place) -> bool {
    document.is_python && document.from == root && place == Place::System(document.path)
}

/// Documents that go over are closed in the projects that they come from, and nothing else is: every
/// project stays, with everything else of it as it was.
pub proof fn law_documents_are_closed_where_they_come_from(
    projects: Map<Seq<Seq<char>>, Project>,
    documents: Seq<Migrated>,
    root: Seq<Seq<char>>,
    place: Place,
)
    ensures
        ({
            let after = session::moved_out(projects, documents);
            &&& after.dom() == projects.dom()
            &&& projects.contains_key(root) ==> {
                &&& after[root].kind == projects[root].kind
                &&& after[root].workspace_root == projects[root].workspace_root
                &&& after[root].untracked == projects[root].untracked
                &&& after[root].active == projects[root].active
                &&& after[root].open_files.contains(place) <==> projects[root].open_files.contains(
                    place,
                ) && !exists|i: int|
                    0 <= i < documents.len() && leaves(#[trigger] documents[i], root, place)
            }
        }),
    decreases documents.len(),
{
    if documents.len() > 0 {
        let init = documents.drop_last();
        let at = documents.len() - 1;
        let last = documents.last();
        let before = session::moved_out(projects, init);
        let after = session::moved_out(projects, documents);
        law_documents_are_closed_where_they_come_from(projects, init, root, place);
        assert(documents[at] == last);
        assert(forall|i: int| 0 <= i < init.len() ==> #[trigger] init[i] == documents[i]);
        assert(after.dom() =~= projects.dom());
        if projects.contains_key(root) {
            assert(before.dom().contains(root));
            if last.is_python && last.from == root {
                lemma_filtered(
                    before[root].open_files,
                    session::is_elsewhere(Place::System(last.path)),
                    place,
                );
            }
            if exists|i: int| 0 <= i < init.len() && leaves(#[trigger] init[i], root, place) {
                let i = choose|i: int| 0 <= i < init.len() && leaves(#[trigger] init[i], root, place);
                assert(leaves(documents[i], root, place));
            }
            if exists|i: int|
                0 <= i < documents.len() && leaves(#[trigger] documents[i], root, place) {
                let i = choose|i: int|
                    0 <= i < documents.len() && leaves(#[trigger] documents[i], root, place);
                if i < at {
                    assert(leaves(init[i], root, place));
                }
            }
            if leaves(last, root, place) {
                assert(leaves(documents[at], root, place));
            }
        }
    }
}

/// Whether a document that goes over is opened at a place in the new project: it is Python, is not
/// the one that is opened just now, is a file, and is not excluded from the project.
pub open spec fn arrives(
    world: World,
    root: Seq<Seq<char>>,
    uri: Seq<char>,
    document: Migrated,
    place: Place,
) -> bool {
    &&& document.is_python
    &&& document.uri != uri
    &&& world.existing(document.path) is Some
    &&& !world.excludes(root, document.path)
    &&& place == Place::System(document.path)
}

/// In a new feature project exactly the documents that arrive are open, each once.
pub proof fn law_documents_are_open_where_they_arrive(
    world: World,
    root: Seq<Seq<char>>,
    uri: Seq<char>,
    documents: Seq<Migrated>,
    place: Place,
)
    ensures
        session::moved_in(world, root, uri, documents).no_duplicates(),
        session::moved_in(world, root, uri, documents).contains(place) <==> exists|i: int|
            0 <= i < documents.len() && arrives(world, root, uri, #[trigger] documents[i], place),
    decreases documents.len(),
{
    if documents.len() > 0 {
        let init = documents.drop_last();
        let at = documents.len() - 1;
        let before = session::moved_in(world, root, uri, init);
        let own = Place::System(documents.last().path);
        law_documents_are_open_where_they_arrive(world, root, uri, init, place);
        lemma_append(before, own, place);
        assert(documents[at] == documents.last());
        if before.contains(place) {
            let i = choose|i: int|
                0 <= i < init.len() && arrives(world, root, uri, #[trigger] init[i], place);
            assert(arrives(world, root, uri, documents[i], place));
        }
        if arrives(world, root, uri, documents.last(), place) {
            assert(arrives(world, root, uri, documents[at], place));
        }
        if exists|i: int|
            0 <= i < documents.len() && arrives(world, root, uri, #[trigger] documents[i], place) {
            let i = choose|i: int|
                0 <= i < documents.len() && arrives(
                    world,
                    root,
                    uri,
                    #[trigger] documents[i],
                    place,
                );
            if i < at {
                assert(arrives(world, root, uri, init[i], place));
            }
        }
    }
}

/// A project looks up its sources again as soon as one of several changes may change them, whichever
/// it is, and otherwise stays as it is; nothing else of it changes either way.
pub proof fn law_one_change_suffices(
    world: World,
    changes: Seq<Change>,
    project: Project,
    active: Active,
    i: int,
)
    requires
        project.active == Some(active),
    ensures
        ({
            let after = session::followed(world, changes, project);
            let looks = |change: Change|
                active_project::affects_sources(
                    active.root,
                    active.config_path,
                    active.ignore_path,
                    change,
                );
            &&& 0 <= i < changes.len() && looks(changes[i]) ==> after.active == Some(
                active_project::refreshed(
                    world.files,
                    world.system,
                    world.config(active.config_path),
                    active,
                ),
            )
            &&& (forall|j: int| 0 <= j < changes.len() ==> !looks(#[trigger] changes[j])) ==> after
                == project
            &&& after.kind == project.kind
            &&& after.workspace_root == project.workspace_root
            &&& after.untracked == project.untracked
            &&& after.open_files == project.open_files
        }),
{
}

} // verus!

//! What holds of projects, whatever the file system holds.

use vstd::prelude::*;

use crate::ignores;
use crate::ignores::{MatchKind, Rules};
use crate::order;
use crate::paths;
use crate::project;
use crate::project::{ChalkConfig, Failure, IgnoreRules, SortedPath};
use crate::system;
use crate::system::{Entry, IoErrorKind, Node, System};

verus! {

// ---------------------------------------------------------------------------------------------
// Discovery
// ---------------------------------------------------------------------------------------------

/// Whether a directory has a configuration file.
pub open spec fn has_config(system: System, directory: Seq<Seq<char>>) -> bool {
    system.has_file(directory.push("chalk.yaml"@)) || system.has_file(
        directory.push("chalk.yml"@),
    )
}

proof fn lemma_nearest(system: System, directory: Seq<Seq<char>>)
    ensures
        match project::nearest(system, directory) {
            Some((root, config_path)) => {
                &&& paths::lies_in(directory, root)
                &&& system.has_file(config_path)
                &&& config_path == if system.has_file(root.push("chalk.yaml"@)) {
                    root.push("chalk.yaml"@)
                } else {
                    root.push("chalk.yml"@)
                }
                &&& forall|k: int|
                    root.len() < k <= directory.len() ==> !has_config(
                        system,
                        #[trigger] directory.take(k),
                    )
            },
            None => forall|k: int|
                0 <= k <= directory.len() ==> !has_config(system, #[trigger] directory.take(k)),
        },
    decreases directory.len(),
{
    assert(directory.take(directory.len() as int) =~= directory);
    if !has_config(system, directory) && directory.len() > 0 {
        let up = directory.drop_last();
        lemma_nearest(system, up);
        assert forall|k: int| 0 <= k <= up.len() implies #[trigger] directory.take(k) == up.take(
            k,
        ) by {
            assert(directory.take(k) =~= up.take(k));
        }
    }
}

/// A path lies in the project that is found for it. The configuration file lies directly in the
/// root, `chalk.yaml` is preferred over `chalk.yml`, and no directory between the root and the
/// path has a configuration file. Where no project is found, no directory above the path has one.
pub proof fn law_nearest_project_is_found(system: System, path: Seq<Seq<char>>)
    ensures
        match project::discovered(system, path) {
            Some((root, config_path)) => {
                &&& paths::lies_in(path, root)
                &&& system.has_file(config_path)
                &&& config_path == if system.has_file(root.push("chalk.yaml"@)) {
                    root.push("chalk.yaml"@)
                } else {
                    root.push("chalk.yml"@)
                }
                &&& forall|k: int|
                    root.len() < k < path.len() ==> !has_config(system, #[trigger] path.take(k))
            },
            None => forall|k: int|
                0 <= k < path.len() ==> !has_config(system, #[trigger] path.take(k)),
        },
{
    if system.has_directory(path) {
        lemma_nearest(system, path);
    } else if path.len() > 0 {
        let up = path.drop_last();
        lemma_nearest(system, up);
        assert forall|k: int| 0 <= k <= up.len() implies #[trigger] path.take(k) == up.take(k) by {
            assert(path.take(k) =~= up.take(k));
        }
    }
}

// ---------------------------------------------------------------------------------------------
// Sources
// ---------------------------------------------------------------------------------------------

/// Whether the file system lists a path, as a directory or not.
pub open spec fn is_listed(system: System, path: Seq<Seq<char>>, is_directory: bool) -> bool {
    exists|i: int|
        0 <= i < system.nodes@.len() && (#[trigger] system.nodes@[i]).path@ == path
            && system.nodes@[i].is_listed && system.nodes@[i].is_listed_directory() == is_directory
}

/// Whether a directory is gone into.
pub open spec fn is_entered(
    system: System,
    rules: IgnoreRules,
    directory: Seq<Seq<char>>,
) -> bool {
    is_listed(system, directory, true) && !project::is_ignored(rules, directory, true)
}

/// Whether a path is a source that lies in a directory, neither ignored itself nor in a directory
/// that is.
pub open spec fn is_reached(
    system: System,
    rules: IgnoreRules,
    directory: Seq<Seq<char>>,
    path: Seq<Seq<char>>,
) -> bool {
    &&& path.len() > directory.len()
    &&& paths::lies_in(path, directory)
    &&& paths::is_source_path(path)
    &&& is_listed(system, path, false)
    &&& !project::is_ignored(rules, path, false)
    &&& forall|k: int|
        directory.len() < k < path.len() ==> is_entered(system, rules, #[trigger] path.take(k))
}

spec fn entry_reaches(
    system: System,
    rules: IgnoreRules,
    entry: Entry,
    path: Seq<Seq<char>>,
) -> bool {
    !project::is_ignored(rules, entry.path, entry.is_directory) && if entry.is_directory {
        is_reached(system, rules, entry.path, path)
    } else {
        paths::is_source_path(path) && path == entry.path
    }
}

proof fn lemma_children(nodes: Seq<Node>, directory: Seq<Seq<char>>, entry: Entry)
    ensures
        system::children(nodes, directory).contains(entry) <==> system::is_child(
            entry.path,
            directory,
        ) && exists|i: int|
            0 <= i < nodes.len() && (#[trigger] nodes[i]).path@ == entry.path
                && nodes[i].is_listed && nodes[i].is_listed_directory() == entry.is_directory,
    decreases nodes.len(),
{
    if nodes.len() > 0 {
        let rest = nodes.drop_last();
        lemma_children(rest, directory, entry);
        let before = system::children(rest, directory);
        let node = nodes.last();
        let own = Entry { path: node.path@, is_directory: node.is_listed_directory() };
        let all = system::children(nodes, directory);
        if node.is_listed && system::is_child(node.path@, directory) {
            assert(all == before.push(own));
            assert(all[before.len() as int] == own);
            if all.contains(entry) {
                let k = choose|k: int| 0 <= k < all.len() && all[k] == entry;
                if k < before.len() {
                    assert(before[k] == entry);
                }
            }
            if before.contains(entry) {
                let k = choose|k: int| 0 <= k < before.len() && before[k] == entry;
                assert(all[k] == entry);
            }
        }
        assert forall|i: int| 0 <= i < rest.len() implies #[trigger] rest[i] == nodes[i] by {}
        if exists|i: int|
            0 <= i < nodes.len() && (#[trigger] nodes[i]).path@ == entry.path
                && nodes[i].is_listed && nodes[i].is_listed_directory() == entry.is_directory {
            let i = choose|i: int|
                0 <= i < nodes.len() && (#[trigger] nodes[i]).path@ == entry.path
                    && nodes[i].is_listed && nodes[i].is_listed_directory() == entry.is_directory;
            if i < rest.len() {
                assert(rest[i] == nodes[i]);
            } else {
                assert(own == entry);
            }
        }
    }
}

proof fn lemma_listing(system: System, directory: Seq<Seq<char>>, entry: Entry)
    requires
        system.listing(directory) is Ok,
    ensures
        system.listing(directory)->Ok_0.contains(entry) <==> system::is_child(
            entry.path,
            directory,
        ) && is_listed(system, entry.path, entry.is_directory),
{
    lemma_children(system.nodes@, directory, entry);
    order::lemma_stable_sort(system::children(system.nodes@, directory));
}

proof fn lemma_walked(
    system: System,
    rules: IgnoreRules,
    depth: nat,
    directory: Seq<Seq<char>>,
    path: Seq<Seq<char>>,
)
    requires
        depth > 0,
        depth + directory.len() > system.depth(),
        project::walked(system, rules, depth, directory) is Ok,
    ensures
        project::walked(system, rules, depth, directory)->Ok_0.contains(path) <==> is_reached(
            system,
            rules,
            directory,
            path,
        ),
    decreases depth, 0int, 0int,
{
    let entries = system.listing(directory)->Ok_0;
    let inner = (depth - 1) as nat;
    assert forall|i: int| 0 <= i < entries.len() implies system::is_child(
        #[trigger] entries[i].path,
        directory,
    ) && is_listed(system, entries[i].path, entries[i].is_directory) by {
        assert(entries.contains(entries[i]));
        lemma_listing(system, directory, entries[i]);
    }
    lemma_walked_in(system, rules, inner, directory, entries, path);
    let found = project::walked(system, rules, depth, directory)->Ok_0;
    if found.contains(path) {
        let i = choose|i: int|
            0 <= i < entries.len() && entry_reaches(system, rules, #[trigger] entries[i], path);
        let entry = entries[i];
        assert(system::is_child(entry.path, directory));
        assert(entry.path =~= directory.push(entry.path.last()));
        assert(path.take(entry.path.len() as int) =~= entry.path);
        assert forall|k: int| directory.len() < k < path.len() implies is_entered(
            system,
            rules,
            #[trigger] path.take(k),
        ) by {
            if k == entry.path.len() {
                assert(path.take(k) == entry.path);
            }
        }
    }
    if is_reached(system, rules, directory, path) {
        let next = directory.len() + 1;
        let entry = Entry {
            path: path.take(next as int),
            is_directory: path.len() > next,
        };
        assert(entry.path.drop_last() =~= directory);
        if !entry.is_directory {
            assert(entry.path =~= path);
        } else {
            assert(is_entered(system, rules, path.take(next as int)));
        }
        lemma_listing(system, directory, entry);
        assert(entries.contains(entry));
        let i = choose|i: int| 0 <= i < entries.len() && entries[i] == entry;
        assert(entry_reaches(system, rules, entries[i], path));
    }
}

proof fn lemma_walked_in(
    system: System,
    rules: IgnoreRules,
    depth: nat,
    directory: Seq<Seq<char>>,
    entries: Seq<Entry>,
    path: Seq<Seq<char>>,
)
    requires
        depth + 1 + directory.len() > system.depth(),
        forall|i: int|
            0 <= i < entries.len() ==> system::is_child(#[trigger] entries[i].path, directory)
                && is_listed(system, entries[i].path, entries[i].is_directory),
        project::walked_in(system, rules, depth, entries) is Ok,
    ensures
        project::walked_in(system, rules, depth, entries)->Ok_0.contains(path) <==> exists|i: int|
            0 <= i < entries.len() && entry_reaches(system, rules, #[trigger] entries[i], path),
    decreases depth, 1int, entries.len(),
{
    if entries.len() > 0 {
        let rest = entries.drop_last();
        let entry = entries.last();
        assert forall|i: int| 0 <= i < rest.len() implies system::is_child(
            #[trigger] rest[i].path,
            directory,
        ) && is_listed(system, rest[i].path, rest[i].is_directory) by {
            assert(rest[i] == entries[i]);
        }
        lemma_walked_in(system, rules, depth, directory, rest, path);
        let before = project::walked_in(system, rules, depth, rest)->Ok_0;
        let all = project::walked_in(system, rules, depth, entries)->Ok_0;
        assert(entries[entries.len() - 1] == entry);
        assert(system::is_child(entries[entries.len() - 1].path, directory));
        let own = entry_reaches(system, rules, entry, path);
        assert(all.contains(path) <==> before.contains(path) || own) by {
            if !project::is_ignored(rules, entry.path, entry.is_directory) {
                if entry.is_directory {
                    let i = choose|i: int|
                        0 <= i < system.nodes@.len() && (#[trigger] system.nodes@[i]).path@
                            == entry.path && system.nodes@[i].is_listed && system.nodes@[i].is_listed_directory() == entry.is_directory;
                    system::lemma_height(system.nodes@, i);
                    assert(entry.path.len() == directory.len() + 1);
                    lemma_walked(system, rules, depth, entry.path, path);
                    let inner = project::walked(system, rules, depth, entry.path)->Ok_0;
                    assert(all == before + inner);
                    lemma_contains_sum(before, inner, path);
                } else if paths::is_source_path(entry.path) {
                    assert(all == before + seq![entry.path]) by {
                        assert(all =~= before + seq![entry.path]);
                    }
                    lemma_contains_sum(before, seq![entry.path], path);
                    assert(seq![entry.path][0] == entry.path);
                }
            }
        }
        if before.contains(path) {
            let i = choose|i: int|
                0 <= i < rest.len() && entry_reaches(system, rules, #[trigger] rest[i], path);
            assert(entry_reaches(system, rules, entries[i], path));
        }
        if exists|i: int|
            0 <= i < entries.len() && entry_reaches(system, rules, #[trigger] entries[i], path) {
            let i = choose|i: int|
                0 <= i < entries.len() && entry_reaches(
                    system,
                    rules,
                    #[trigger] entries[i],
                    path,
                );
            if i < rest.len() {
                assert(entry_reaches(system, rules, rest[i], path));
            }
        }
    }
}

proof fn lemma_contains_sum<A>(a: Seq<A>, b: Seq<A>, item: A)
    ensures
        (a + b).contains(item) <==> a.contains(item) || b.contains(item),
{
    if a.contains(item) {
        let k = choose|k: int| 0 <= k < a.len() && a[k] == item;
        assert((a + b)[k] == item);
    }
    if b.contains(item) {
        let k = choose|k: int| 0 <= k < b.len() && b[k] == item;
        assert((a + b)[a.len() + k] == item);
    }
    if (a + b).contains(item) {
        let k = choose|k: int| 0 <= k < (a + b).len() && (a + b)[k] == item;
        if k < a.len() {
            assert(a[k] == item);
        } else {
            assert(b[k - a.len()] == item);
        }
    }
}

/// The sources of a project are exactly the Python and SQL sources below its root that are
/// neither ignored themselves nor lie in an ignored directory.
pub proof fn law_sources_are_what_is_not_ignored(
    system: System,
    root: Seq<Seq<char>>,
    config_path: Seq<Seq<char>>,
    config: Result<ChalkConfig, String>,
    path: Seq<Seq<char>>,
)
    requires
        project::project_sources(system, root, config_path, config) is Ok,
    ensures
        project::project_sources(system, root, config_path, config)->Ok_0.contains(path)
            <==> is_reached(
            system,
            project::project_rules(system, root, config_path, config)->Ok_0,
            root,
            path,
        ),
{
    let rules = project::project_rules(system, root, config_path, config)->Ok_0;
    lemma_walked(system, rules, system.depth() + 1, root, path);
}

/// A file that is listed as a source of a project is contained in it.
pub proof fn law_listed_sources_are_contained(
    system: System,
    root: Seq<Seq<char>>,
    config_path: Seq<Seq<char>>,
    config: Result<ChalkConfig, String>,
    path: Seq<Seq<char>>,
)
    requires
        project::project_sources(system, root, config_path, config) is Ok,
        project::project_sources(system, root, config_path, config)->Ok_0.contains(path),
        system.has_file(path),
    ensures
        project::is_project_source(system, root, config_path, config, path) == Ok::<
            bool,
            project::Failure,
        >(true),
{
    law_sources_are_what_is_not_ignored(system, root, config_path, config, path);
}

/// A file that a project contains is one of the sources that it lists, where the file system lists
/// the file and every directory between the root and the file is gone into.
pub proof fn law_contained_sources_are_listed(
    system: System,
    root: Seq<Seq<char>>,
    config_path: Seq<Seq<char>>,
    config: Result<ChalkConfig, String>,
    path: Seq<Seq<char>>,
)
    requires
        project::project_sources(system, root, config_path, config) is Ok,
        project::is_project_source(system, root, config_path, config, path) == Ok::<
            bool,
            project::Failure,
        >(true),
        path.len() > root.len(),
        is_listed(system, path, false),
        forall|k: int|
            root.len() < k < path.len() ==> is_entered(
                system,
                project::project_rules(system, root, config_path, config)->Ok_0,
                #[trigger] path.take(k),
            ),
    ensures
        project::project_sources(system, root, config_path, config)->Ok_0.contains(path),
{
    law_sources_are_what_is_not_ignored(system, root, config_path, config, path);
}

/// Sorting paths puts them in order and keeps them as they are.
pub proof fn law_sources_are_sorted(paths: Seq<Seq<Seq<char>>>)
    ensures
        project::sorted_paths(paths).len() == paths.len(),
        project::sorted_paths(paths).to_multiset() == paths.to_multiset(),
        forall|i: int, j: int|
            0 <= i < j < paths.len() ==> !paths::path_before(
                #[trigger] project::sorted_paths(paths)[j],
                #[trigger] project::sorted_paths(paths)[i],
            ),
{
    let items = Seq::new(paths.len(), |i: int| SortedPath { path: paths[i] });
    order::lemma_stable_sort(items);
    let sorted = order::stable_sort(items);
    let inner = |item: SortedPath| item.path;
    assert(project::sorted_paths(paths) =~= sorted.map_values(inner));
    assert(paths =~= items.map_values(inner));
    lemma_map_multiset(items, sorted, inner);
    assert forall|i: int, j: int| 0 <= i < j < paths.len() implies !paths::path_before(
        #[trigger] project::sorted_paths(paths)[j],
        #[trigger] project::sorted_paths(paths)[i],
    ) by {
        assert(project::sorted_paths(paths)[j] == sorted[j].path);
        assert(project::sorted_paths(paths)[i] == sorted[i].path);
    }
}

proof fn lemma_map_multiset<A, B>(a: Seq<A>, b: Seq<A>, map: spec_fn(A) -> B)
    requires
        a.to_multiset() == b.to_multiset(),
    ensures
        a.map_values(map).to_multiset() == b.map_values(map).to_multiset(),
    decreases a.len(),
{
    broadcast use vstd::seq_lib::group_to_multiset_ensures;

    vstd::seq_lib::to_multiset_len(a);
    vstd::seq_lib::to_multiset_len(b);
    if a.len() == 0 {
        assert(a.map_values(map) =~= b.map_values(map));
    } else {
        let last = a.last();
        let k = a.len() - 1;
        assert(a[k] == last);
        assert(a.contains(last));
        assert(b.to_multiset().count(last) > 0);
        assert(b.contains(last));
        let j = choose|j: int| 0 <= j < b.len() && b[j] == last;
        assert(a.remove(k) =~= a.drop_last());
        lemma_map_multiset(a.remove(k), b.remove(j), map);
        assert(a.map_values(map).remove(k) =~= a.remove(k).map_values(map));
        assert(b.map_values(map).remove(j) =~= b.remove(j).map_values(map));
        let left = a.map_values(map);
        let right = b.map_values(map);
        assert(left.contains(left[k]));
        assert(right.contains(right[j]));
        assert(left.to_multiset() =~= left.to_multiset().remove(map(last)).insert(map(last)));
        assert(right.to_multiset() =~= right.to_multiset().remove(map(last)).insert(map(last)));
    }
}

// ---------------------------------------------------------------------------------------------
// Ignore files
// ---------------------------------------------------------------------------------------------

/// The rules of the `.gitignore` files of a directory and of those above it, up to a root, outermost
/// first.
pub open spec fn rules_above(
    system: System,
    root: Seq<Seq<char>>,
    directory: Seq<Seq<char>>,
) -> Seq<Rules>
    decreases directory.len(),
{
    let own = match project::own_rules(system, directory) {
        Ok(own) => own,
        Err(_) => Seq::empty(),
    };
    if directory.len() <= root.len() {
        own
    } else {
        rules_above(system, root, directory.drop_last()) + own
    }
}

/// Whether ignore files are looked for in a directory on the way from another one on: every
/// directory on the way is listed, is not called `.git`, and is not ignored by the ignore files
/// above it.
pub open spec fn is_looked_in(
    system: System,
    root: Seq<Seq<char>>,
    from: int,
    directory: Seq<Seq<char>>,
) -> bool {
    forall|k: int|
        from < k <= directory.len() ==> {
            let part = #[trigger] directory.take(k);
            &&& is_listed(system, part, true)
            &&& directory[k - 1] != ".git"@
            &&& ignores::all_say(
                rules_above(system, root, directory.take(k - 1)),
                part,
                true,
            ) != Some(MatchKind::Ignore)
        }
}

spec fn is_collected(
    system: System,
    root: Seq<Seq<char>>,
    directory: Seq<Seq<char>>,
    rules: Rules,
) -> bool {
    &&& paths::lies_in(rules.directory, directory)
    &&& is_looked_in(system, root, directory.len() as int, rules.directory)
    &&& project::own_rules(system, rules.directory) == Ok::<Seq<Rules>, Failure>(seq![rules])
}

proof fn lemma_own_rules(system: System, directory: Seq<Seq<char>>, rules: Rules)
    requires
        project::own_rules(system, directory) is Ok,
    ensures
        project::own_rules(system, directory)->Ok_0.contains(rules) <==> rules.directory
            == directory && project::own_rules(system, rules.directory) == Ok::<
            Seq<Rules>,
            Failure,
        >(seq![rules]),
{
    let own = project::own_rules(system, directory)->Ok_0;
    if own.contains(rules) {
        assert(own[0] == rules);
        assert(own =~= seq![rules]);
    }
    if rules.directory == directory && project::own_rules(system, rules.directory) == Ok::<
        Seq<Rules>,
        Failure,
    >(seq![rules]) {
        assert(own[0] == rules);
    }
}

proof fn lemma_collected(
    system: System,
    root: Seq<Seq<char>>,
    depth: nat,
    directory: Seq<Seq<char>>,
    active: Seq<Rules>,
    rules: Rules,
)
    requires
        depth > 0,
        depth + directory.len() > system.depth(),
        directory.len() >= root.len(),
        project::collected(system, depth, directory, active) is Ok,
        active + project::own_rules(system, directory)->Ok_0 == rules_above(
            system,
            root,
            directory,
        ),
    ensures
        project::collected(system, depth, directory, active)->Ok_0.contains(rules) <==> is_collected(
            system,
            root,
            directory,
            rules,
        ),
    decreases depth, 0int, 0int,
{
    let own = project::own_rules(system, directory)->Ok_0;
    let entries = system.listing(directory)->Ok_0;
    let inner = (depth - 1) as nat;
    let rest = project::collected_in(system, inner, entries, active + own)->Ok_0;
    assert forall|i: int| 0 <= i < entries.len() implies system::is_child(
        #[trigger] entries[i].path,
        directory,
    ) && is_listed(system, entries[i].path, entries[i].is_directory) by {
        assert(entries.contains(entries[i]));
        lemma_listing(system, directory, entries[i]);
    }
    lemma_collected_in(system, root, inner, directory, entries, active + own, rules);
    lemma_own_rules(system, directory, rules);
    lemma_contains_sum(own, rest, rules);
    let from = directory.len() as int;
    if own.contains(rules) {
        assert(is_looked_in(system, root, from, rules.directory));
    }
    if rest.contains(rules) {
        let i = choose|i: int|
            0 <= i < entries.len() && entry_collects(
                system,
                root,
                directory,
                #[trigger] entries[i],
                rules,
            );
        let entry = entries[i];
        assert(system::is_child(entry.path, directory));
        assert(entry.path =~= directory.push(entry.path.last()));
        assert(rules.directory.take(from + 1) =~= entry.path);
        assert(rules.directory.take(from) =~= directory);
        assert forall|k: int| from < k <= rules.directory.len() implies ({
            let part = #[trigger] rules.directory.take(k);
            &&& is_listed(system, part, true)
            &&& rules.directory[k - 1] != ".git"@
            &&& ignores::all_say(
                rules_above(system, root, rules.directory.take(k - 1)),
                part,
                true,
            ) != Some(MatchKind::Ignore)
        }) by {
            if k == from + 1 {
                assert(rules.directory.take(k - 1) == directory);
                assert(rules.directory.take(k) == entry.path);
                assert(entry.path.last() == rules.directory[k - 1]);
            }
        }
    }
    if is_collected(system, root, directory, rules) && rules.directory != directory {
        let path = rules.directory;
        assert(path.len() > from) by {
            if path.len() == from {
                assert(path =~= directory);
            }
        }
        let entry = Entry { path: path.take(from + 1), is_directory: true };
        assert(entry.path.drop_last() =~= directory);
        assert(path.take(from) =~= directory);
        assert(is_listed(system, path.take(from + 1), true));
        lemma_listing(system, directory, entry);
        let i = choose|i: int| 0 <= i < entries.len() && entries[i] == entry;
        assert(entry.path.last() == path[from]);
        assert(path.take(from + 1 - 1) == directory);
        assert(is_looked_in(system, root, from + 1, path));
        assert(entry_collects(system, root, directory, entries[i], rules));
    }
}

spec fn entry_collects(
    system: System,
    root: Seq<Seq<char>>,
    directory: Seq<Seq<char>>,
    entry: Entry,
    rules: Rules,
) -> bool {
    project::is_searched(entry, rules_above(system, root, directory)) && is_collected(
        system,
        root,
        entry.path,
        rules,
    )
}

proof fn lemma_collected_in(
    system: System,
    root: Seq<Seq<char>>,
    depth: nat,
    directory: Seq<Seq<char>>,
    entries: Seq<Entry>,
    active: Seq<Rules>,
    rules: Rules,
)
    requires
        depth + 1 + directory.len() > system.depth(),
        directory.len() >= root.len(),
        active == rules_above(system, root, directory),
        forall|i: int|
            0 <= i < entries.len() ==> system::is_child(#[trigger] entries[i].path, directory)
                && is_listed(system, entries[i].path, entries[i].is_directory),
        project::collected_in(system, depth, entries, active) is Ok,
    ensures
        project::collected_in(system, depth, entries, active)->Ok_0.contains(rules) <==> exists|
            i: int,
        |
            0 <= i < entries.len() && entry_collects(
                system,
                root,
                directory,
                #[trigger] entries[i],
                rules,
            ),
    decreases depth, 1int, entries.len(),
{
    if entries.len() > 0 {
        let init = entries.drop_last();
        let entry = entries.last();
        let at = entries.len() - 1;
        assert(entries[at] == entry);
        assert forall|i: int| 0 <= i < init.len() implies system::is_child(
            #[trigger] init[i].path,
            directory,
        ) && is_listed(system, init[i].path, init[i].is_directory) by {
            assert(init[i] == entries[i]);
        }
        lemma_collected_in(system, root, depth, directory, init, active, rules);
        let before = project::collected_in(system, depth, init, active)->Ok_0;
        let all = project::collected_in(system, depth, entries, active)->Ok_0;
        assert(system::is_child(entries[at].path, directory));
        let own = entry_collects(system, root, directory, entry, rules);
        assert(all.contains(rules) <==> before.contains(rules) || own) by {
            if project::is_searched(entry, active) {
                let i = choose|i: int|
                    0 <= i < system.nodes@.len() && (#[trigger] system.nodes@[i]).path@
                        == entry.path && system.nodes@[i].is_listed
                        && system.nodes@[i].is_listed_directory() == entry.is_directory;
                system::lemma_height(system.nodes@, i);
                assert(entry.path.len() == directory.len() + 1);
                assert(entry.path.drop_last() =~= directory);
                assert(rules_above(system, root, entry.path) == rules_above(
                    system,
                    root,
                    directory,
                ) + project::own_rules(system, entry.path)->Ok_0);
                lemma_collected(system, root, depth, entry.path, active, rules);
                let inner = project::collected(system, depth, entry.path, active)->Ok_0;
                assert(all == before + inner);
                lemma_contains_sum(before, inner, rules);
            }
        }
        if before.contains(rules) {
            let i = choose|i: int|
                0 <= i < init.len() && entry_collects(
                    system,
                    root,
                    directory,
                    #[trigger] init[i],
                    rules,
                );
            assert(entry_collects(system, root, directory, entries[i], rules));
        }
        if own {
            assert(entry_collects(system, root, directory, entries[at], rules));
        }
        if exists|i: int|
            0 <= i < entries.len() && entry_collects(
                system,
                root,
                directory,
                #[trigger] entries[i],
                rules,
            ) {
            let i = choose|i: int|
                0 <= i < entries.len() && entry_collects(
                    system,
                    root,
                    directory,
                    #[trigger] entries[i],
                    rules,
                );
            if i < at {
                assert(entry_collects(system, root, directory, init[i], rules));
            }
        }
    }
}

/// The `.gitignore` files of a project are exactly those below its root in directories that are
/// looked in: not in `.git`, nor in directories that the ignore files above them ignore. Each counts
/// for its own directory, with the globs of its own lines; one that is gone by now has none.
pub proof fn law_gitignores_are_found_where_they_are_looked_for(
    system: System,
    root: Seq<Seq<char>>,
    config_path: Seq<Seq<char>>,
    config: Result<ChalkConfig, String>,
    found: IgnoreRules,
    rules: Rules,
)
    requires
        project::project_rules(system, root, config_path, config) == Ok::<IgnoreRules, Failure>(
            found,
        ),
    ensures
        found.gitignores.contains(rules) <==> {
            &&& root.is_prefix_of(rules.directory)
            &&& is_looked_in(system, root, root.len() as int, rules.directory)
            &&& system.has_file(rules.directory.push(".gitignore"@))
            &&& match system.contents(rules.directory.push(".gitignore"@)) {
                Ok(contents) => ignores::are_rules(ignores::lines_of(contents)) && rules.globs
                    == ignores::globs_of(ignores::lines_of(contents)),
                Err(kind) => kind == IoErrorKind::NotFound && rules.globs.len() == 0,
            }
        },
{
    let own = project::own_rules(system, root)->Ok_0;
    assert(Seq::<Rules>::empty() + own =~= own);
    lemma_collected(system, root, system.depth() + 1, root, Seq::empty(), rules);
    let path = rules.directory.push(".gitignore"@);
    if let Ok(listed) = project::own_rules(system, rules.directory) {
        if listed == seq![rules] {
            assert(listed[0] == rules);
        }
        if listed.len() == 1 && listed[0].globs =~= rules.globs {
            assert(listed =~= seq![rules]);
        }
    }
    if system.has_file(path) && system.contents(path) == Err::<Seq<char>, IoErrorKind>(
        IoErrorKind::NotFound,
    ) && rules.globs.len() == 0 {
        assert(rules.globs =~= Seq::empty());
        assert(project::own_rules(system, rules.directory)->Ok_0 =~= seq![rules]);
    }
}

/// The rules of a directory come before those of the directories in it, so that these win.
pub proof fn law_outer_rules_come_first(
    system: System,
    depth: nat,
    directory: Seq<Seq<char>>,
    active: Seq<Rules>,
)
    requires
        depth > 0,
        project::collected(system, depth, directory, active) is Ok,
    ensures
        project::own_rules(system, directory)->Ok_0.is_prefix_of(
            project::collected(system, depth, directory, active)->Ok_0,
        ),
{
    let own = project::own_rules(system, directory)->Ok_0;
    let all = project::collected(system, depth, directory, active)->Ok_0;
    assert(own =~= all.subrange(0, own.len() as int));
}

} // verus!

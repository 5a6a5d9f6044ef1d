//! What is registered with the client: diagnostics, and which directories it watches.

use vstd::prelude::*;

use crate::order;
use crate::paths;
use crate::paths::SystemPath;
use crate::project;
use crate::project::SortedPath;

verus! {

// ---------------------------------------------------------------------------------------------
// Directories to watch
// ---------------------------------------------------------------------------------------------

/// The outermost directories of a sorted list.
pub open spec fn outermost(sorted: Seq<Seq<Seq<char>>>) -> Seq<Seq<Seq<char>>>
    decreases sorted.len(),
{
    if sorted.len() == 0 {
        Seq::empty()
    } else {
        let before = outermost(sorted.drop_last());
        if before.len() > 0 && paths::lies_in(sorted.last(), before.last()) {
            before
        } else {
            before.push(sorted.last())
        }
    }
}

/// Directories without those that lie in others, each once and in order.
pub open spec fn deduplicated(directories: Seq<Seq<Seq<char>>>) -> Seq<Seq<Seq<char>>> {
    outermost(project::sorted_paths(directories))
}

/// What a project looks at: its root, and where its modules come from.
#[derive(Debug)]
pub struct WatchedProject {
    pub root: SystemPath,
    pub search_paths: Vec<SystemPath>,
}

/// The places outside a project that modules come from, up to a number of them.
pub open spec fn outside(
    root: Seq<Seq<char>>,
    search_paths: Seq<SystemPath>,
    count: nat,
) -> Seq<Seq<Seq<char>>>
    decreases count,
{
    if count == 0 {
        Seq::empty()
    } else {
        let before = outside(root, search_paths, (count - 1) as nat);
        let path = search_paths[count - 1]@;
        if paths::lies_in(path, root) {
            before
        } else {
            before.push(path)
        }
    }
}

/// The places outside projects that modules come from.
pub open spec fn all_outside(projects: Seq<WatchedProject>) -> Seq<Seq<Seq<char>>>
    decreases projects.len(),
{
    if projects.len() == 0 {
        Seq::empty()
    } else {
        let last = projects.last();
        all_outside(projects.drop_last()) + outside(
            last.root@,
            last.search_paths@,
            last.search_paths@.len(),
        )
    }
}

/// The roots of projects.
pub open spec fn roots(projects: Seq<WatchedProject>) -> Seq<Seq<Seq<char>>> {
    Seq::new(projects.len(), |i: int| projects[i].root@)
}

/// The directories that are watched for projects.
pub open spec fn watched(projects: Seq<WatchedProject>) -> Seq<Seq<Seq<char>>> {
    deduplicated(all_outside(projects) + roots(projects))
}

/// Drops the directories that lie in others.
fn deduplicate_nested_paths(directories: Vec<SystemPath>) -> (kept: Vec<SystemPath>)
    ensures
        order::keys(kept@) == deduplicated(order::keys(directories@)),
{
    let ghost unsorted = directories@;
    let ghost found = order::keys(unsorted);
    let ghost map = |path: SystemPath| SortedPath { path: path@ };
    proof {
        order::lemma_stable_sort_map(unsorted, map);
        assert(unsorted.map_values(map) =~= Seq::new(
            found.len(),
            |i: int| SortedPath { path: found[i] },
        ));
    }
    let sorted = order::sort_stable(directories);
    let ghost all = order::keys(sorted@);
    assert(all =~= order::keys(sorted@.map_values(map)));
    assert(all == project::sorted_paths(found));
    let mut kept: Vec<SystemPath> = Vec::new();
    let mut i: usize = 0;
    assert(all.take(0) =~= Seq::empty());
    assert(order::keys(kept@) =~= Seq::empty());
    while i < sorted.len()
        invariant
            i <= sorted@.len(),
            all == order::keys(sorted@),
            order::keys(kept@) == outermost(all.take(i as int)),
        decreases sorted@.len() - i,
    {
        let ghost before = order::keys(kept@);
        let path = &sorted[i];
        proof {
            assert(all.take(i as int + 1).drop_last() =~= all.take(i as int));
            assert(all.take(i as int + 1).last() == path@);
            assert(before.len() == kept@.len());
        }
        let nested = if kept.len() > 0 {
            let last = kept.len() - 1;
            assert(before.last() == kept@[last as int]@);
            path.starts_with(&kept[last])
        } else {
            false
        };
        if !nested {
            kept.push(path.copied());
            assert(order::keys(kept@) =~= before.push(path@));
        }
        i += 1;
    }
    assert(all.take(i as int) =~= all);
    kept
}

/// The directories that are watched for projects.
fn watched_directories(projects: &Vec<WatchedProject>) -> (directories: Vec<SystemPath>)
    ensures
        order::keys(directories@) == watched(projects@),
{
    let mut directories: Vec<SystemPath> = Vec::new();
    let mut i: usize = 0;
    assert(projects@.take(0) =~= Seq::empty());
    assert(order::keys(directories@) =~= Seq::empty());
    while i < projects.len()
        invariant
            i <= projects@.len(),
            order::keys(directories@) == all_outside(projects@.take(i as int)),
        decreases projects@.len() - i,
    {
        let project = &projects[i];
        let ghost start = order::keys(directories@);
        proof {
            assert(projects@.take(i as int + 1).drop_last() =~= projects@.take(i as int));
            assert(projects@.take(i as int + 1).last() == *project);
            assert(start + Seq::<Seq<Seq<char>>>::empty() =~= start);
        }
        let mut j: usize = 0;
        while j < project.search_paths.len()
            invariant
                j <= project.search_paths@.len(),
                order::keys(directories@) == start + outside(
                    project.root@,
                    project.search_paths@,
                    j as nat,
                ),
            decreases project.search_paths@.len() - j,
        {
            let path = &project.search_paths[j];
            let ghost before = order::keys(directories@);
            let ghost so_far = outside(project.root@, project.search_paths@, j as nat);
            if !path.starts_with(&project.root) {
                directories.push(path.copied());
                assert(order::keys(directories@) =~= before.push(path@));
                assert(order::keys(directories@) =~= start + so_far.push(path@));
            }
            j += 1;
        }
        i += 1;
    }
    assert(projects@.take(i as int) =~= projects@);
    let ghost start = order::keys(directories@);
    let mut k: usize = 0;
    assert(start + roots(projects@).take(0) =~= start);
    while k < projects.len()
        invariant
            k <= projects@.len(),
            order::keys(directories@) == start + roots(projects@).take(k as int),
        decreases projects@.len() - k,
    {
        let ghost before = order::keys(directories@);
        directories.push(projects[k].root.copied());
        proof {
            assert(order::keys(directories@) =~= before.push(projects@[k as int].root@));
            assert(order::keys(directories@) =~= start + roots(projects@).take(k as int + 1));
        }
        k += 1;
    }
    assert(roots(projects@).take(k as int) =~= roots(projects@));
    deduplicate_nested_paths(directories)
}

// ---------------------------------------------------------------------------------------------
// Registering
// ---------------------------------------------------------------------------------------------

/// What the client can do.
#[derive(Clone, Copy, Debug, PartialEq, Eq, Structural)]
pub struct ClientCapabilities {
    pub diagnostic_dynamic_registration: bool,
    pub file_watcher: bool,
    pub relative_file_watcher: bool,
    pub workspace_configuration: bool,
    pub pull_diagnostics: bool,
}

/// Which files are diagnosed.
#[derive(Clone, Copy, Debug, PartialEq, Eq, Structural)]
pub enum DiagnosticMode {
    Off,
    OpenFilesOnly,
    Workspace,
}

/// Something that is registered with the client.
#[derive(Clone, Copy, Debug, PartialEq, Eq, Structural)]
pub enum Capability {
    Diagnostics,
    FileWatching,
}

/// What the client is to watch.
#[derive(Debug)]
pub enum Watchers {
    /// Everything in the folders that it has open.
    Everything,
    /// Everything in some directories.
    Below(Vec<SystemPath>),
}

/// A registration.
#[derive(Debug)]
pub enum Registration {
    Diagnostics { workspace: bool },
    FileWatching(Watchers),
}

/// A registration.
pub enum Registered {
    Diagnostics { workspace: bool },
    WatchEverything,
    WatchBelow(Seq<Seq<Seq<char>>>),
}

impl View for Registration {
    type V = Registered;

    open spec fn view(&self) -> Registered {
        match self {
            Registration::Diagnostics { workspace } => Registered::Diagnostics {
                workspace: *workspace,
            },
            Registration::FileWatching(Watchers::Everything) => Registered::WatchEverything,
            Registration::FileWatching(Watchers::Below(directories)) => Registered::WatchBelow(
                order::keys(directories@),
            ),
        }
    }
}

/// What is to be registered and what is first to be taken back.
#[derive(Debug)]
pub struct RegistrationChanges {
    pub unregistrations: Vec<Capability>,
    pub registrations: Vec<Registration>,
}

/// Registrations as values.
pub open spec fn registered(registrations: Seq<Registration>) -> Seq<Registered> {
    Seq::new(registrations.len(), |i: int| registrations[i]@)
}

/// What is registered with the client.
#[derive(Debug)]
pub struct Registrations {
    pub diagnostics: bool,
    pub file_watching: bool,
    /// Whether what is to be watched has changed.
    pub needs_refresh: bool,
}

/// What the client is to watch.
pub open spec fn watching(
    capabilities: ClientCapabilities,
    projects: Seq<WatchedProject>,
) -> Registered {
    if capabilities.relative_file_watcher {
        Registered::WatchBelow(watched(projects))
    } else {
        Registered::WatchEverything
    }
}

/// What is taken back before diagnostics and watching are registered anew.
pub open spec fn taken_back(own: Registrations, capabilities: ClientCapabilities) -> Seq<
    Capability,
> {
    (if capabilities.diagnostic_dynamic_registration && own.diagnostics {
        seq![Capability::Diagnostics]
    } else {
        Seq::empty()
    }) + watching_taken_back(own, capabilities)
}

/// What is taken back before watching is registered anew.
pub open spec fn watching_taken_back(
    own: Registrations,
    capabilities: ClientCapabilities,
) -> Seq<Capability> {
    if capabilities.file_watcher && own.file_watching {
        seq![Capability::FileWatching]
    } else {
        Seq::empty()
    }
}

/// The registrations of diagnostics and watching.
pub open spec fn registered_anew(
    capabilities: ClientCapabilities,
    mode: DiagnosticMode,
    projects: Seq<WatchedProject>,
) -> Seq<Registered> {
    (if capabilities.diagnostic_dynamic_registration && mode != DiagnosticMode::Off {
        seq![Registered::Diagnostics { workspace: mode == DiagnosticMode::Workspace }]
    } else {
        Seq::empty()
    }) + watching_anew(capabilities, projects)
}

/// The registrations of watching.
pub open spec fn watching_anew(
    capabilities: ClientCapabilities,
    projects: Seq<WatchedProject>,
) -> Seq<Registered> {
    if capabilities.file_watcher {
        seq![watching(capabilities, projects)]
    } else {
        Seq::empty()
    }
}

impl Registrations {
    /// Nothing is registered.
    pub fn new() -> (registrations: Self)
        ensures
            registrations == (Registrations {
                diagnostics: false,
                file_watching: false,
                needs_refresh: false,
            }),
    {
        Registrations { diagnostics: false, file_watching: false, needs_refresh: false }
    }

    /// Adds the changes of watching.
    fn append_file_watcher_registration_changes(
        &mut self,
        capabilities: ClientCapabilities,
        projects: &Vec<WatchedProject>,
        changes: &mut RegistrationChanges,
    )
        ensures
            final(changes).unregistrations@ == old(changes).unregistrations@
                + watching_taken_back(*old(self), capabilities),
            registered(final(changes).registrations@) == registered(old(changes).registrations@)
                + watching_anew(capabilities, projects@),
            *final(self) == (Registrations {
                file_watching: old(self).file_watching || capabilities.file_watcher,
                ..*old(self)
            }),
    {
        let ghost taken = changes.unregistrations@;
        let ghost before = registered(changes.registrations@);
        if !capabilities.file_watcher {
            assert(taken + Seq::<Capability>::empty() =~= taken);
            assert(before + Seq::<Registered>::empty() =~= before);
            return ;
        }
        if self.file_watching {
            changes.unregistrations.push(Capability::FileWatching);
        }
        assert(changes.unregistrations@ =~= taken + watching_taken_back(
            *old(self),
            capabilities,
        ));
        let watchers = if capabilities.relative_file_watcher {
            Watchers::Below(watched_directories(projects))
        } else {
            Watchers::Everything
        };
        changes.registrations.push(Registration::FileWatching(watchers));
        self.file_watching = true;
        assert(registered(changes.registrations@) =~= before + watching_anew(
            capabilities,
            projects@,
        ));
    }

    /// Registers diagnostics and watching anew, as far as the client takes registrations.
    pub fn register_capabilities(
        &mut self,
        capabilities: ClientCapabilities,
        mode: DiagnosticMode,
        projects: &Vec<WatchedProject>,
    ) -> (changes: RegistrationChanges)
        ensures
            changes.unregistrations@ == taken_back(*old(self), capabilities),
            registered(changes.registrations@) == registered_anew(capabilities, mode, projects@),
            *final(self) == (Registrations {
                diagnostics: if capabilities.diagnostic_dynamic_registration {
                    mode != DiagnosticMode::Off
                } else {
                    old(self).diagnostics
                },
                file_watching: old(self).file_watching || capabilities.file_watcher,
                needs_refresh: false,
            }),
    {
        let mut changes = RegistrationChanges {
            unregistrations: Vec::new(),
            registrations: Vec::new(),
        };
        if capabilities.diagnostic_dynamic_registration {
            if self.diagnostics {
                changes.unregistrations.push(Capability::Diagnostics);
            }
            match mode {
                DiagnosticMode::Off => {
                    self.diagnostics = false;
                },
                DiagnosticMode::OpenFilesOnly => {
                    changes.registrations.push(Registration::Diagnostics { workspace: false });
                    self.diagnostics = true;
                },
                DiagnosticMode::Workspace => {
                    changes.registrations.push(Registration::Diagnostics { workspace: true });
                    self.diagnostics = true;
                },
            }
        }
        proof {
            assert(changes.unregistrations@ + watching_taken_back(*self, capabilities)
                =~= taken_back(*old(self), capabilities));
            assert(registered(changes.registrations@) + watching_anew(capabilities, projects@)
                =~= registered_anew(capabilities, mode, projects@));
        }
        self.append_file_watcher_registration_changes(capabilities, projects, &mut changes);
        self.needs_refresh = false;
        changes
    }

    /// Registers watching anew, if what is to be watched has changed.
    pub fn refresh_file_watcher_registration_if_needed(
        &mut self,
        capabilities: ClientCapabilities,
        projects: &Vec<WatchedProject>,
    ) -> (changes: RegistrationChanges)
        ensures
            if old(self).needs_refresh {
                &&& changes.unregistrations@ == watching_taken_back(*old(self), capabilities)
                &&& registered(changes.registrations@) == watching_anew(capabilities, projects@)
                &&& *final(self) == (Registrations {
                    file_watching: old(self).file_watching || capabilities.file_watcher,
                    needs_refresh: false,
                    ..*old(self)
                })
            } else {
                &&& changes.unregistrations@ == Seq::<Capability>::empty()
                &&& registered(changes.registrations@) == Seq::<Registered>::empty()
                &&& *final(self) == *old(self)
            },
    {
        let mut changes = RegistrationChanges {
            unregistrations: Vec::new(),
            registrations: Vec::new(),
        };
        assert(registered(changes.registrations@) =~= Seq::empty());
        if !self.needs_refresh {
            return changes;
        }
        self.needs_refresh = false;
        self.append_file_watcher_registration_changes(capabilities, projects, &mut changes);
        assert(changes.unregistrations@ =~= watching_taken_back(*old(self), capabilities));
        assert(registered(changes.registrations@) =~= watching_anew(capabilities, projects@));
        changes
    }
}

// ---------------------------------------------------------------------------------------------
// Laws
// ---------------------------------------------------------------------------------------------

/// Nothing is registered twice: what is registered anew was not registered, or is taken back first.
pub proof fn law_registered_once(
    own: Registrations,
    capabilities: ClientCapabilities,
    mode: DiagnosticMode,
    projects: Seq<WatchedProject>,
    i: int,
)
    requires
        0 <= i < registered_anew(capabilities, mode, projects).len(),
    ensures
        match registered_anew(capabilities, mode, projects)[i] {
            Registered::Diagnostics { .. } => own.diagnostics ==> taken_back(
                own,
                capabilities,
            ).contains(Capability::Diagnostics),
            _ => own.file_watching ==> taken_back(own, capabilities).contains(
                Capability::FileWatching,
            ),
        },
{
    let taken = taken_back(own, capabilities);
    if own.diagnostics && capabilities.diagnostic_dynamic_registration {
        assert(taken[0] == Capability::Diagnostics);
    }
    if own.file_watching && capabilities.file_watcher {
        assert(taken[taken.len() - 1] == Capability::FileWatching);
    }
}

proof fn lemma_prefix_between(a: Seq<Seq<char>>, b: Seq<Seq<char>>, c: Seq<Seq<char>>)
    requires
        paths::lies_in(c, a),
        !paths::path_before(b, a),
        !paths::path_before(c, b),
    ensures
        paths::lies_in(b, a),
    decreases a.len(),
{
    paths::lemma_path_before_total(a, b);
    paths::lemma_path_before_total(b, c);
    if a.len() == 0 {
        assert(a.is_prefix_of(b));
    } else if a == b {
    } else {
        assert(paths::path_before(a, b));
        assert(c.len() > 0 && c[0] == a[0]);
        if b == c {
        } else {
            assert(paths::path_before(b, c));
            assert(b.len() > 0);
            crate::text::lemma_text_before_total(a[0], b[0]);
            if a[0] != b[0] {
                assert(crate::text::text_before(a[0], b[0]));
                if crate::text::text_before(b[0], c[0]) {
                    crate::text::lemma_text_before_transitive(a[0], b[0], c[0]);
                    crate::text::lemma_text_before_irreflexive(a[0]);
                }
            } else {
                crate::text::lemma_text_before_irreflexive(a[0]);
                let (x, y, z) = (a.drop_first(), b.drop_first(), c.drop_first());
                assert(x.is_prefix_of(z)) by {
                    assert(x =~= z.take(x.len() as int));
                }
                lemma_prefix_between(x, y, z);
                assert(a =~= b.take(a.len() as int)) by {
                    assert(x =~= y.take(x.len() as int));
                    assert forall|i: int| 0 <= i < a.len() implies a[i] == b[i] by {
                        if i > 0 {
                            assert(a[i] == x[i - 1] && b[i] == y[i - 1]);
                        }
                    }
                }
            }
        }
    }
}

/// Whether paths are in order.
spec fn ascends(sorted: Seq<Seq<Seq<char>>>) -> bool {
    forall|i: int, j: int|
        0 <= i < j < sorted.len() ==> !paths::path_before(
            #[trigger] sorted[j],
            #[trigger] sorted[i],
        )
}

/// Whether no path lies in another one, and they are in order.
spec fn apart(kept: Seq<Seq<Seq<char>>>) -> bool {
    forall|i: int, j: int|
        0 <= i < j < kept.len() ==> !paths::lies_in(#[trigger] kept[j], #[trigger] kept[i])
            && !paths::lies_in(kept[i], kept[j]) && !paths::path_before(kept[j], kept[i])
}

proof fn lemma_ascends_rest(sorted: Seq<Seq<Seq<char>>>)
    requires
        ascends(sorted),
        sorted.len() > 0,
    ensures
        ascends(sorted.drop_last()),
{
    let rest = sorted.drop_last();
    assert forall|i: int, j: int| 0 <= i < j < rest.len() implies !paths::path_before(
        #[trigger] rest[j],
        #[trigger] rest[i],
    ) by {
        assert(rest[j] == sorted[j] && rest[i] == sorted[i]);
    }
}

proof fn lemma_outermost_member(sorted: Seq<Seq<Seq<char>>>, i: int) -> (k: int)
    requires
        0 <= i < outermost(sorted).len(),
    ensures
        0 <= k < sorted.len(),
        sorted[k] == outermost(sorted)[i],
    decreases sorted.len(),
{
    let rest = sorted.drop_last();
    let before = outermost(rest);
    if i < before.len() {
        lemma_outermost_member(rest, i)
    } else {
        sorted.len() - 1
    }
}

proof fn lemma_outermost_covers(sorted: Seq<Seq<Seq<char>>>, k: int) -> (i: int)
    requires
        0 <= k < sorted.len(),
    ensures
        0 <= i < outermost(sorted).len(),
        paths::lies_in(sorted[k], outermost(sorted)[i]),
    decreases sorted.len(),
{
    let rest = sorted.drop_last();
    if k < rest.len() {
        assert(rest[k] == sorted[k]);
        lemma_outermost_covers(rest, k)
    } else {
        let last = sorted.last();
        assert(last.take(last.len() as int) =~= last);
        outermost(sorted).len() - 1
    }
}

proof fn lemma_kept_apart(
    sorted: Seq<Seq<Seq<char>>>,
    before: Seq<Seq<Seq<char>>>,
    last: Seq<Seq<char>>,
    i: int,
)
    requires
        ascends(sorted),
        sorted.len() > 0,
        last == sorted.last(),
        before == outermost(sorted.drop_last()),
        apart(before),
        0 <= i < before.len(),
        !paths::lies_in(last, before.last()),
    ensures
        !paths::lies_in(last, before[i]),
        !paths::lies_in(before[i], last),
        !paths::path_before(last, before[i]),
{
    let rest = sorted.drop_last();
    let end = before.len() - 1;
    let k = lemma_outermost_member(rest, i);
    let m = lemma_outermost_member(rest, end);
    assert(sorted[k] == before[i] && sorted[m] == before[end]);
    assert(sorted[sorted.len() - 1] == last);
    assert(!paths::path_before(sorted[sorted.len() - 1], sorted[k]));
    assert(!paths::path_before(sorted[sorted.len() - 1], sorted[m]));
    if i < end && paths::lies_in(last, before[i]) {
        assert(!paths::path_before(before[end], before[i]));
        lemma_prefix_between(before[i], before[end], last);
        assert(!paths::lies_in(before[end], before[i]));
    }
    if paths::lies_in(before[i], last) {
        lemma_prefix_order(before[i], last);
    }
}

proof fn lemma_outermost_apart(sorted: Seq<Seq<Seq<char>>>)
    requires
        ascends(sorted),
    ensures
        apart(outermost(sorted)),
    decreases sorted.len(),
{
    if sorted.len() > 0 {
        let rest = sorted.drop_last();
        let last = sorted.last();
        lemma_ascends_rest(sorted);
        lemma_outermost_apart(rest);
        let before = outermost(rest);
        if before.len() > 0 && paths::lies_in(last, before.last()) {
        } else {
            let all = before.push(last);
            assert forall|i: int, j: int| 0 <= i < j < all.len() implies !paths::lies_in(
                #[trigger] all[j],
                #[trigger] all[i],
            ) && !paths::lies_in(all[i], all[j]) && !paths::path_before(all[j], all[i]) by {
                assert(all[i] == before[i]);
                if j < before.len() {
                    assert(all[j] == before[j]);
                } else {
                    lemma_kept_apart(sorted, before, last, i);
                }
            }
        }
    }
}

proof fn lemma_prefix_order(path: Seq<Seq<char>>, directory: Seq<Seq<char>>)
    requires
        paths::lies_in(path, directory),
    ensures
        path == directory || paths::path_before(directory, path),
    decreases path.len(),
{
    if path.len() == directory.len() {
        assert(path =~= directory);
    } else if directory.len() > 0 {
        let (a, b) = (path.drop_first(), directory.drop_first());
        assert(b.is_prefix_of(a)) by {
            assert(b =~= a.take(b.len() as int));
        }
        lemma_prefix_order(a, b);
        if a == b {
            assert(a.len() == b.len());
        }
    }
}

/// The directories that are watched cover everything that is to be watched, and none of them lies in
/// another one.
pub proof fn law_watched_directories_are_disjoint(directories: Seq<Seq<Seq<char>>>)
    ensures
        forall|path: Seq<Seq<char>>| #[trigger]
            directories.contains(path) ==> exists|i: int|
                0 <= i < deduplicated(directories).len() && paths::lies_in(
                    path,
                    #[trigger] deduplicated(directories)[i],
                ),
        forall|i: int, j: int|
            0 <= i < deduplicated(directories).len() && 0 <= j < deduplicated(directories).len()
                && i != j ==> !paths::lies_in(
                #[trigger] deduplicated(directories)[i],
                #[trigger] deduplicated(directories)[j],
            ),
{
    let sorted = project::sorted_paths(directories);
    let items = Seq::new(directories.len(), |i: int| SortedPath { path: directories[i] });
    order::lemma_stable_sort(items);
    let sorted_items = order::stable_sort(items);
    assert forall|i: int, j: int| 0 <= i < j < sorted.len() implies !paths::path_before(
        #[trigger] sorted[j],
        #[trigger] sorted[i],
    ) by {
        assert(sorted[j] == sorted_items[j].path && sorted[i] == sorted_items[i].path);
    }
    lemma_outermost_apart(sorted);
    let kept = deduplicated(directories);
    assert forall|path: Seq<Seq<char>>| #[trigger] directories.contains(path) implies exists|
        i: int,
    |
        0 <= i < kept.len() && paths::lies_in(path, #[trigger] kept[i]) by {
        let m = choose|m: int| 0 <= m < directories.len() && directories[m] == path;
        assert(items.contains(items[m]));
        assert(sorted_items.contains(items[m]));
        let k = choose|k: int| 0 <= k < sorted_items.len() && sorted_items[k] == items[m];
        assert(sorted[k] == path);
        let i = lemma_outermost_covers(sorted, k);
        assert(paths::lies_in(path, kept[i]));
    }
    assert forall|i: int, j: int|
        0 <= i < kept.len() && 0 <= j < kept.len() && i != j implies !paths::lies_in(
        #[trigger] kept[i],
        #[trigger] kept[j],
    ) by {
        if i < j {
            assert(!paths::lies_in(kept[j], kept[i]) && !paths::lies_in(kept[i], kept[j]));
        } else {
            assert(!paths::lies_in(kept[i], kept[j]) && !paths::lies_in(kept[j], kept[i]));
        }
    }
}

} // verus!

//! Workspace folders: which there are, which are initialized, and which one a path lies in.

use vstd::prelude::*;

use crate::path_map::{PathEntry, PathMap};
use crate::paths;
use crate::paths::SystemPath;

verus! {

// ---------------------------------------------------------------------------------------------
// The innermost directory
// ---------------------------------------------------------------------------------------------

/// The innermost of some directories that a path lies in.
pub open spec fn innermost(roots: Set<Seq<Seq<char>>>, path: Seq<Seq<char>>) -> Option<
    Seq<Seq<char>>,
>
    decreases path.len(),
{
    if roots.contains(path) {
        Some(path)
    } else if path.len() == 0 {
        None
    } else {
        innermost(roots, path.drop_last())
    }
}

/// The innermost directory is one of the given ones, the path lies in it, and of all the given ones
/// that the path lies in it has the longest path. It is found wherever there is one.
pub proof fn law_innermost_is_longest(
    roots: Set<Seq<Seq<char>>>,
    path: Seq<Seq<char>>,
    other: Seq<Seq<char>>,
)
    ensures
        match innermost(roots, path) {
            Some(root) => {
                &&& roots.contains(root)
                &&& paths::lies_in(path, root)
                &&& roots.contains(other) && paths::lies_in(path, other) ==> other.len()
                    <= root.len()
            },
            None => !(roots.contains(other) && paths::lies_in(path, other)),
        },
    decreases path.len(),
{
    if roots.contains(path) {
    } else if path.len() == 0 {
        if paths::lies_in(path, other) {
            assert(other =~= path);
        }
    } else {
        law_innermost_is_longest(roots, path.drop_last(), other);
        if paths::lies_in(path, other) {
            if other.len() == path.len() {
                assert(other =~= path);
            } else {
                assert(path.drop_last().take(other.len() as int) =~= path.take(
                    other.len() as int,
                ));
                assert(other =~= path.take(other.len() as int));
                assert(other.is_prefix_of(path.drop_last()));
            }
        }
        if let Some(root) = innermost(roots, path.drop_last()) {
            assert(root.is_prefix_of(path));
        }
    }
}

// ---------------------------------------------------------------------------------------------
// Folders
// ---------------------------------------------------------------------------------------------

/// A workspace folder. Until its settings have come it is not initialized.
#[derive(Debug)]
pub struct Workspace<S> {
    /// The folder as the client names it.
    pub uri: String,
    /// The settings, where they are not the default ones.
    pub settings: Option<S>,
    pub initialized: bool,
}

/// The path that a client's name of a folder means.
#[derive(Debug)]
pub enum FolderPath {
    Path(SystemPath),
    NotFile,
    NotText,
}

/// Why a folder is not added or removed.
#[derive(Clone, Copy, Debug, PartialEq, Eq, Structural)]
pub enum FolderError {
    NotFile,
    NotText,
    NotFound,
}

impl FolderPath {
    /// Whether the path is one.
    pub open spec fn wf(self) -> bool {
        self matches FolderPath::Path(path) ==> path.wf()
    }
}

/// The workspace folders.
#[derive(Debug)]
pub struct Workspaces<S> {
    pub folders: PathMap<Workspace<S>>,
}

/// Whether a folder waits for its settings.
pub open spec fn waits<S>(entry: PathEntry<Workspace<S>>) -> bool {
    !entry.value.initialized
}

/// The names of the folders that wait for their settings, in order.
pub open spec fn waiting<S>(entries: Seq<PathEntry<Workspace<S>>>) -> Seq<Seq<char>>
    decreases entries.len(),
{
    if entries.len() == 0 {
        Seq::empty()
    } else {
        let before = waiting(entries.drop_last());
        if waits(entries.last()) {
            before.push(entries.last().value.uri@)
        } else {
            before
        }
    }
}

/// Names as texts.
pub open spec fn names_of(names: Seq<String>) -> Seq<Seq<char>> {
    Seq::new(names.len(), |i: int| names[i]@)
}

/// Whether every folder has its settings.
pub open spec fn none_waits<S>(folders: Map<Seq<Seq<char>>, Workspace<S>>) -> bool {
    forall|path: Seq<Seq<char>>| #[trigger]
        folders.contains_key(path) ==> folders[path].initialized
}

impl<S> Workspaces<S> {
    /// Whether the folders are in order.
    pub open spec fn wf(self) -> bool {
        self.folders.wf()
    }

    /// The root of the folder that a path lies in: the innermost one.
    pub open spec fn root_of(self, path: Seq<Seq<char>>) -> Option<Seq<Seq<char>>> {
        innermost(self.folders@.dom(), path)
    }

    /// No folders.
    pub fn new() -> (workspaces: Self)
        ensures
            workspaces.wf(),
            workspaces.folders@ == Map::<Seq<Seq<char>>, Workspace<S>>::empty(),
    {
        Workspaces { folders: PathMap::new() }
    }

    /// Adds a folder with the default settings, not yet initialized. Says whether it is new; one that
    /// was there stays as it is.
    pub fn register(&mut self, uri: String, path: FolderPath) -> (result: Result<bool, FolderError>)
        requires
            old(self).wf(),
            path.wf(),
        ensures
            final(self).wf(),
            match path {
                FolderPath::NotFile => result == Err::<bool, FolderError>(FolderError::NotFile)
                    && *final(self) == *old(self),
                FolderPath::NotText => result == Err::<bool, FolderError>(FolderError::NotText)
                    && *final(self) == *old(self),
                FolderPath::Path(path) => if old(self).folders@.contains_key(path@) {
                    result == Ok::<bool, FolderError>(false) && *final(self) == *old(self)
                } else {
                    result == Ok::<bool, FolderError>(true) && final(self).folders@
                        == old(self).folders@.insert(
                        path@,
                        Workspace { uri, settings: None, initialized: false },
                    )
                },
            },
    {
        match path {
            FolderPath::NotFile => Err(FolderError::NotFile),
            FolderPath::NotText => Err(FolderError::NotText),
            FolderPath::Path(path) => {
                if self.folders.contains(&path) {
                    return Ok(false);
                }
                self.folders.insert(path, Workspace { uri, settings: None, initialized: false });
                Ok(true)
            },
        }
    }

    /// Removes a folder. Says whether it was there.
    pub fn unregister(&mut self, path: &SystemPath) -> (removed: bool)
        requires
            old(self).wf(),
        ensures
            final(self).wf(),
            removed == old(self).folders@.contains_key(path@),
            final(self).folders@ == old(self).folders@.remove(path@),
    {
        self.folders.remove(path).is_some()
    }

    /// The root of the folder that a path lies in.
    pub fn root_for_path(&self, path: &SystemPath) -> (root: Option<SystemPath>)
        requires
            self.wf(),
            path.wf(),
        ensures
            match (root, self.root_of(path@)) {
                (Some(root), Some(expected)) => root@ == expected && root.wf(),
                (None, None) => true,
                _ => false,
            },
    {
        let mut current = path.copied();
        loop
            invariant
                self.wf(),
                current.wf(),
                self.root_of(path@) == innermost(self.folders@.dom(), current@),
            decreases current@.len(),
        {
            if self.folders.contains(&current) {
                return Some(current);
            }
            match current.parent() {
                Some(parent) => {
                    current = parent;
                },
                None => {
                    return None;
                },
            }
        }
    }

    /// The folder that a path lies in.
    pub fn for_path(&self, path: &SystemPath) -> (folder: Option<&Workspace<S>>)
        requires
            self.wf(),
            path.wf(),
        ensures
            match (folder, self.root_of(path@)) {
                (Some(folder), Some(root)) => self.folders@.contains_key(root) && *folder
                    == self.folders@[root],
                (None, None) => true,
                _ => false,
            },
    {
        proof {
            if let Some(root) = self.root_of(path@) {
                law_innermost_is_longest(self.folders@.dom(), path@, root);
            }
        }
        match self.root_for_path(path) {
            Some(root) => self.folders.get(&root),
            None => None,
        }
    }

    /// The settings of the folder that a path lies in; the outer option says whether there is one.
    pub fn settings_for_path(&self, path: &SystemPath) -> (settings: Option<&Option<S>>)
        requires
            self.wf(),
            path.wf(),
        ensures
            match (settings, self.root_of(path@)) {
                (Some(settings), Some(root)) => self.folders@.contains_key(root) && *settings
                    == self.folders@[root].settings,
                (None, None) => true,
                _ => false,
            },
    {
        match self.for_path(path) {
            Some(folder) => Some(&folder.settings),
            None => None,
        }
    }

    /// The settings of the first folder.
    pub fn settings_virtual_fallback(&self) -> (settings: Option<&Option<S>>)
        ensures
            match settings {
                Some(settings) => self.folders.entries().len() > 0 && *settings
                    == self.folders.entries()[0].value.settings,
                None => self.folders.entries().len() == 0,
            },
    {
        if self.folders.len() > 0 {
            Some(&self.folders.at(0).value.settings)
        } else {
            None
        }
    }

    /// Whether every folder has its settings.
    pub fn all_initialized(&self) -> (done: bool)
        requires
            self.wf(),
        ensures
            done == none_waits(self.folders@),
    {
        proof {
            self.folders.lemma_contents();
        }
        let mut i: usize = 0;
        while i < self.folders.len()
            invariant
                i <= self.folders.entries().len(),
                forall|k: int|
                    0 <= k < i ==> (#[trigger] self.folders.entries()[k]).value.initialized,
                forall|k: int|
                    0 <= k < self.folders.entries().len() ==> self.folders@.contains_key(
                        (#[trigger] self.folders.entries()[k]).path@,
                    ) && self.folders@[self.folders.entries()[k].path@]
                        == self.folders.entries()[k].value,
            decreases self.folders.entries().len() - i,
        {
            let entry = self.folders.at(i);
            if !entry.value.initialized {
                assert(self.folders@.contains_key(self.folders.entries()[i as int].path@));
                return false;
            }
            i += 1;
        }
        assert forall|path: Seq<Seq<char>>| #[trigger]
            self.folders@.contains_key(path) implies self.folders@[path].initialized by {
            let k = choose|k: int|
                0 <= k < self.folders.entries().len() && (
                #[trigger] self.folders.entries()[k]).path@ == path;
            assert(self.folders.entries()[k].value.initialized);
        }
        true
    }

    /// The names of the folders that wait for their settings, in order.
    pub fn uninitialized(&self) -> (uris: Vec<String>)
        ensures
            names_of(uris@) == waiting(self.folders.entries()),
    {
        let ghost all = self.folders.entries();
        let mut uris: Vec<String> = Vec::new();
        let mut i: usize = 0;
        assert(all.take(0) =~= Seq::empty());
        assert(names_of(uris@) =~= Seq::empty());
        while i < self.folders.len()
            invariant
                i <= all.len(),
                all == self.folders.entries(),
                names_of(uris@) == waiting(all.take(i as int)),
            decreases all.len() - i,
        {
            let entry = self.folders.at(i);
            let ghost before = names_of(uris@);
            assert(all.take(i as int + 1).drop_last() =~= all.take(i as int));
            assert(all.take(i as int + 1).last() == all[i as int]);
            if !entry.value.initialized {
                uris.push(entry.value.uri.clone());
                assert(names_of(uris@) =~= before.push(entry.value.uri@));
            }
            i += 1;
        }
        assert(all.take(i as int) =~= all);
        uris
    }

    /// Gives a folder its settings, if it is there and has none yet. Says whether it did.
    pub fn initialize(&mut self, path: &SystemPath, settings: S) -> (done: Result<bool, FolderError>)
        requires
            old(self).wf(),
            path.wf(),
        ensures
            final(self).wf(),
            if !old(self).folders@.contains_key(path@) {
                done == Err::<bool, FolderError>(FolderError::NotFound) && *final(self)
                    == *old(self)
            } else if old(self).folders@[path@].initialized {
                done == Ok::<bool, FolderError>(false) && *final(self) == *old(self)
            } else {
                done == Ok::<bool, FolderError>(true) && final(self).folders@
                    == old(self).folders@.insert(
                    path@,
                    Workspace {
                        uri: old(self).folders@[path@].uri,
                        settings: Some(settings),
                        initialized: true,
                    },
                )
            },
    {
        match self.folders.get(path) {
            Some(folder) => {
                if folder.initialized {
                    return Ok(false);
                }
            },
            None => {
                return Err(FolderError::NotFound);
            },
        }
        let ghost before = self.folders@;
        match self.folders.remove(path) {
            Some(folder) => {
                let uri = folder.uri;
                self.folders.insert(
                    path.copied(),
                    Workspace { uri, settings: Some(settings), initialized: true },
                );
                assert(self.folders@ =~= before.insert(path@, self.folders@[path@]));
            },
            None => {},
        }
        Ok(true)
    }
}

/// Adding a folder and removing it again leaves the folders as they were.
pub proof fn law_unregister_undoes_register<S>(
    folders: Map<Seq<Seq<char>>, Workspace<S>>,
    path: Seq<Seq<char>>,
    folder: Workspace<S>,
)
    requires
        !folders.contains_key(path),
    ensures
        folders.insert(path, folder).remove(path) == folders,
{
    assert(folders.insert(path, folder).remove(path) =~= folders);
}

/// No folder waits exactly where there are no names of folders that wait.
pub proof fn law_waiting_folders_are_named<S>(entries: Seq<PathEntry<Workspace<S>>>)
    ensures
        waiting(entries).len() == 0 <==> forall|i: int|
            0 <= i < entries.len() ==> (#[trigger] entries[i]).value.initialized,
    decreases entries.len(),
{
    if entries.len() > 0 {
        let rest = entries.drop_last();
        law_waiting_folders_are_named(rest);
        if waiting(entries).len() == 0 {
            assert forall|i: int| 0 <= i < entries.len() implies (
            #[trigger] entries[i]).value.initialized by {
                if i < rest.len() {
                    assert(rest[i] == entries[i]);
                }
            }
        }
        if forall|i: int| 0 <= i < entries.len() ==> (#[trigger] entries[i]).value.initialized {
            assert forall|i: int| 0 <= i < rest.len() implies (
            #[trigger] rest[i]).value.initialized by {
                assert(rest[i] == entries[i]);
            }
            assert(entries[entries.len() - 1].value.initialized);
        }
    }
}

} // verus!

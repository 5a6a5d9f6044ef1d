//! A picture of a file system.

use vstd::prelude::*;

use crate::order;
use crate::order::{Keyed, Ordered};
use crate::paths;
use crate::paths::SystemPath;
use crate::text::Relation;

verus! {

/// Why something could not be read.
#[derive(Clone, Copy, Debug, PartialEq, Eq, Structural)]
pub enum IoErrorKind {
    NotFound,
    Other,
}

/// What stands at a path.
#[derive(Debug)]
pub enum NodeKind {
    /// A file, with its contents if they could be read.
    File { contents: Result<String, IoErrorKind> },
    /// A directory, which could be listed or not.
    Directory { listing: Result<(), IoErrorKind> },
    Other,
}

/// A path at which something stands.
#[derive(Debug)]
pub struct Node {
    pub path: SystemPath,
    pub kind: NodeKind,
    /// Whether the directory that it lies in lists it: a document that was never saved stands at its
    /// path, but no directory lists it.
    pub is_listed: bool,
    /// Whether a link stands there, and the kind is that of what it leads to. Lists of directories
    /// do not follow links.
    pub is_link: bool,
}

impl Node {
    /// Whether a directory that lists it lists a directory.
    pub open spec fn is_listed_directory(self) -> bool {
        self.kind is Directory && !self.is_link
    }
}

/// A picture of a file system, taken from a current directory.
#[derive(Debug)]
pub struct System {
    pub current_directory: SystemPath,
    pub nodes: Vec<Node>,
}

/// An entry of a directory.
#[derive(Debug)]
pub struct DirectoryEntry {
    pub path: SystemPath,
    pub is_directory: bool,
}

/// An entry of a directory.
pub struct Entry {
    pub path: Seq<Seq<char>>,
    pub is_directory: bool,
}

impl View for DirectoryEntry {
    type V = Entry;

    open spec fn view(&self) -> Entry {
        Entry { path: self.path@, is_directory: self.is_directory }
    }
}

impl Ordered for Entry {
    type Key = Seq<Seq<char>>;

    open spec fn key(&self) -> Seq<Seq<char>> {
        self.path
    }

    open spec fn key_before(a: Seq<Seq<char>>, b: Seq<Seq<char>>) -> bool {
        paths::path_before(a, b)
    }

    proof fn key_irreflexive(a: Seq<Seq<char>>) {
        paths::lemma_path_before_irreflexive(a);
    }

    proof fn key_transitive(a: Seq<Seq<char>>, b: Seq<Seq<char>>, c: Seq<Seq<char>>) {
        paths::lemma_path_before_transitive(a, b, c);
    }

    proof fn key_total(a: Seq<Seq<char>>, b: Seq<Seq<char>>) {
        paths::lemma_path_before_total(a, b);
    }
}

impl Ordered for DirectoryEntry {
    type Key = Seq<Seq<char>>;

    open spec fn key(&self) -> Seq<Seq<char>> {
        self.path@
    }

    open spec fn key_before(a: Seq<Seq<char>>, b: Seq<Seq<char>>) -> bool {
        paths::path_before(a, b)
    }

    proof fn key_irreflexive(a: Seq<Seq<char>>) {
        paths::lemma_path_before_irreflexive(a);
    }

    proof fn key_transitive(a: Seq<Seq<char>>, b: Seq<Seq<char>>, c: Seq<Seq<char>>) {
        paths::lemma_path_before_transitive(a, b, c);
    }

    proof fn key_total(a: Seq<Seq<char>>, b: Seq<Seq<char>>) {
        paths::lemma_path_before_total(a, b);
    }
}

impl Keyed for DirectoryEntry {
    fn relate(&self, other: &Self) -> (relation: Relation) {
        self.path.relate(&other.path)
    }
}

// ---------------------------------------------------------------------------------------------
// Looking up
// ---------------------------------------------------------------------------------------------

/// What stands at a path, from a place in the list on.
pub open spec fn node_from(nodes: Seq<Node>, path: Seq<Seq<char>>, at: int) -> Option<NodeKind>
    decreases nodes.len() - at,
{
    if at < 0 || at >= nodes.len() {
        None
    } else if nodes[at].path@ == path {
        Some(nodes[at].kind)
    } else {
        node_from(nodes, path, at + 1)
    }
}

/// Whether a path is that of an entry of a directory.
pub open spec fn is_child(path: Seq<Seq<char>>, directory: Seq<Seq<char>>) -> bool {
    path.len() > 0 && path.drop_last() == directory
}

/// The entries of a directory, in the order of the list.
pub open spec fn children(nodes: Seq<Node>, directory: Seq<Seq<char>>) -> Seq<Entry>
    decreases nodes.len(),
{
    if nodes.len() == 0 {
        Seq::empty()
    } else {
        let before = children(nodes.drop_last(), directory);
        let node = nodes.last();
        if node.is_listed && is_child(node.path@, directory) {
            before.push(Entry { path: node.path@, is_directory: node.is_listed_directory() })
        } else {
            before
        }
    }
}

/// How many names the longest path has.
pub open spec fn height(nodes: Seq<Node>) -> nat
    decreases nodes.len(),
{
    if nodes.len() == 0 {
        0
    } else {
        let before = height(nodes.drop_last());
        if nodes.last().path@.len() > before {
            nodes.last().path@.len()
        } else {
            before
        }
    }
}

/// No path is longer than the file system is deep.
pub proof fn lemma_height(nodes: Seq<Node>, i: int)
    requires
        0 <= i < nodes.len(),
    ensures
        nodes[i].path@.len() <= height(nodes),
    decreases nodes.len(),
{
    if i < nodes.len() - 1 {
        lemma_height(nodes.drop_last(), i);
    }
}

impl System {
    /// Whether the paths are paths.
    pub open spec fn wf(self) -> bool {
        &&& self.current_directory.wf()
        &&& forall|i: int| 0 <= i < self.nodes@.len() ==> (#[trigger] self.nodes@[i]).path.wf()
    }

    /// What stands at a path.
    pub open spec fn at(self, path: Seq<Seq<char>>) -> Option<NodeKind> {
        node_from(self.nodes@, path, 0)
    }

    /// Whether a file stands at a path.
    pub open spec fn has_file(self, path: Seq<Seq<char>>) -> bool {
        self.at(path) matches Some(kind) && kind is File
    }

    /// Whether a directory stands at a path.
    pub open spec fn has_directory(self, path: Seq<Seq<char>>) -> bool {
        self.at(path) matches Some(kind) && kind is Directory
    }

    /// What reading a file gives.
    pub open spec fn contents(self, path: Seq<Seq<char>>) -> Result<Seq<char>, IoErrorKind> {
        match self.at(path) {
            Some(NodeKind::File { contents: Ok(contents) }) => Ok(contents@),
            Some(NodeKind::File { contents: Err(kind) }) => Err(kind),
            Some(_) => Err(IoErrorKind::Other),
            None => Err(IoErrorKind::NotFound),
        }
    }

    /// What listing a directory gives, sorted by path.
    pub open spec fn listing(self, path: Seq<Seq<char>>) -> Result<Seq<Entry>, IoErrorKind> {
        match self.at(path) {
            Some(NodeKind::Directory { listing: Ok(_) }) => Ok(
                order::stable_sort(children(self.nodes@, path)),
            ),
            Some(NodeKind::Directory { listing: Err(kind) }) => Err(kind),
            Some(_) => Err(IoErrorKind::Other),
            None => Err(IoErrorKind::NotFound),
        }
    }

    /// How deep the file system is.
    pub open spec fn depth(self) -> nat {
        height(self.nodes@)
    }

    /// Looks up what stands at a path.
    fn find(&self, path: &SystemPath) -> (kind: Option<&NodeKind>)
        ensures
            match kind {
                Some(kind) => self.at(path@) == Some(*kind),
                None => self.at(path@) is None,
            },
    {
        let mut i: usize = 0;
        while i < self.nodes.len()
            invariant
                i <= self.nodes@.len(),
                self.at(path@) == node_from(self.nodes@, path@, i as int),
            decreases self.nodes@.len() - i,
        {
            if self.nodes[i].path.same_as(path) {
                return Some(&self.nodes[i].kind);
            }
            i += 1;
        }
        None
    }

    /// Whether a file stands at a path.
    pub fn is_file(&self, path: &SystemPath) -> (found: bool)
        ensures
            found == self.has_file(path@),
    {
        match self.find(path) {
            Some(NodeKind::File { .. }) => true,
            _ => false,
        }
    }

    /// Whether a directory stands at a path.
    pub fn is_directory(&self, path: &SystemPath) -> (found: bool)
        ensures
            found == self.has_directory(path@),
    {
        match self.find(path) {
            Some(NodeKind::Directory { .. }) => true,
            _ => false,
        }
    }

    /// Whether anything stands at a path.
    pub fn path_exists(&self, path: &SystemPath) -> (found: bool)
        ensures
            found == (self.at(path@) is Some),
    {
        self.find(path).is_some()
    }

    /// Reads a file.
    pub fn read_to_string(&self, path: &SystemPath) -> (contents: Result<&str, IoErrorKind>)
        ensures
            match (contents, self.contents(path@)) {
                (Ok(contents), Ok(expected)) => contents@ == expected,
                (Err(kind), Err(expected)) => kind == expected,
                _ => false,
            },
    {
        match self.find(path) {
            Some(NodeKind::File { contents: Ok(contents) }) => Ok(contents.as_str()),
            Some(NodeKind::File { contents: Err(kind) }) => Err(*kind),
            Some(_) => Err(IoErrorKind::Other),
            None => Err(IoErrorKind::NotFound),
        }
    }

    /// Lists a directory, sorted by path.
    pub fn sorted_directory_entries(&self, path: &SystemPath) -> (entries: Result<
        Vec<DirectoryEntry>,
        IoErrorKind,
    >)
        requires
            self.wf(),
        ensures
            match (entries, self.listing(path@)) {
                (Ok(entries), Ok(expected)) => {
                    &&& Seq::new(entries@.len(), |i: int| entries@[i]@) == expected
                    &&& forall|i: int|
                        0 <= i < entries@.len() ==> (#[trigger] entries@[i]).path.wf()
                            && is_child(entries@[i].path@, path@) && entries@[i].path@.len()
                            <= self.depth()
                },
                (Err(kind), Err(expected)) => kind == expected,
                _ => false,
            },
    {
        match self.find(path) {
            Some(NodeKind::Directory { listing: Ok(_) }) => {},
            Some(NodeKind::Directory { listing: Err(kind) }) => {
                return Err(*kind);
            },
            Some(_) => {
                return Err(IoErrorKind::Other);
            },
            None => {
                return Err(IoErrorKind::NotFound);
            },
        }
        let mut entries: Vec<DirectoryEntry> = Vec::new();
        let ghost all = self.nodes@;
        let ghost map = |entry: DirectoryEntry| entry@;
        let mut i: usize = 0;
        assert(entries@.map_values(map) =~= children(all.take(0), path@));
        while i < self.nodes.len()
            invariant
                i <= self.nodes@.len(),
                self.wf(),
                all == self.nodes@,
                map == (|entry: DirectoryEntry| entry@),
                entries@.map_values(map) == children(all.take(i as int), path@),
                forall|k: int|
                    0 <= k < entries@.len() ==> (#[trigger] entries@[k]).path.wf() && is_child(
                        entries@[k].path@,
                        path@,
                    ) && entries@[k].path@.len() <= self.depth(),
            decreases self.nodes@.len() - i,
        {
            let node = &self.nodes[i];
            let ghost before = entries@;
            proof {
                assert(all[i as int].path.wf());
                assert(all.take(i as int + 1).drop_last() =~= all.take(i as int));
                lemma_height(all, i as int);
            }
            let is_entry = match node.path.parent() {
                Some(parent) => parent.same_as(path),
                None => false,
            };
            if node.is_listed && is_entry {
                let is_directory = match &node.kind {
                    NodeKind::Directory { .. } => !node.is_link,
                    _ => false,
                };
                entries.push(DirectoryEntry { path: node.path.copied(), is_directory });
                assert(entries@.map_values(map) =~= before.map_values(map).push(entries@.last()@));
            }
            i += 1;
        }
        assert(all.take(all.len() as int) =~= all);
        let ghost unsorted = entries@;
        proof {
            order::lemma_stable_sort_map(unsorted, map);
            order::lemma_stable_sort(unsorted);
        }
        let sorted = order::sort_stable(entries);
        proof {
            assert(Seq::new(sorted@.len(), |k: int| sorted@[k]@) =~= sorted@.map_values(map));
            assert forall|k: int| 0 <= k < sorted@.len() implies (#[trigger] sorted@[k]).path.wf()
                && is_child(sorted@[k].path@, path@) && sorted@[k].path@.len() <= self.depth() by {
                assert(sorted@.contains(sorted@[k]));
                assert(unsorted.contains(sorted@[k]));
                let m = choose|m: int| 0 <= m < unsorted.len() && unsorted[m] == sorted@[k];
                assert(unsorted[m].path.wf());
            }
        }
        Ok(sorted)
    }
}

} // verus!

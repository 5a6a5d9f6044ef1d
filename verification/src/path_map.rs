//! Values by path, in the order of the paths.

use vstd::prelude::*;

use crate::order::Keyed;
use crate::paths;
use crate::paths::SystemPath;
use crate::text::Relation;

verus! {

/// A path and its value.
#[derive(Debug)]
pub struct PathEntry<V> {
    pub path: SystemPath,
    pub value: V,
}

/// Values by path, in the order of the paths.
#[derive(Debug)]
pub struct PathMap<V> {
    entries: Vec<PathEntry<V>>,
}

/// Whether entries are in order, each path once.
pub open spec fn in_order<V>(entries: Seq<PathEntry<V>>) -> bool {
    forall|i: int, j: int|
        0 <= i < j < entries.len() ==> paths::path_before(
            (#[trigger] entries[i]).path@,
            (#[trigger] entries[j]).path@,
        )
}

/// The place of a path among entries, from a place on; their number where it is not there.
pub open spec fn place_from<V>(entries: Seq<PathEntry<V>>, path: Seq<Seq<char>>, at: int) -> int
    decreases entries.len() - at,
{
    if at < 0 || at >= entries.len() {
        entries.len() as int
    } else if entries[at].path@ == path {
        at
    } else {
        place_from(entries, path, at + 1)
    }
}

/// Entries as a map.
pub open spec fn map_of<V>(entries: Seq<PathEntry<V>>) -> Map<Seq<Seq<char>>, V> {
    Map::new(
        |path: Seq<Seq<char>>| place_from(entries, path, 0) < entries.len(),
        |path: Seq<Seq<char>>| entries[place_from(entries, path, 0)].value,
    )
}

proof fn lemma_place<V>(entries: Seq<PathEntry<V>>, path: Seq<Seq<char>>, at: int)
    requires
        0 <= at <= entries.len(),
    ensures
        at <= place_from(entries, path, at) <= entries.len(),
        place_from(entries, path, at) < entries.len() ==> entries[place_from(
            entries,
            path,
            at,
        )].path@ == path,
        forall|k: int|
            at <= k < place_from(entries, path, at) ==> (#[trigger] entries[k]).path@ != path,
    decreases entries.len() - at,
{
    if at < entries.len() && entries[at].path@ != path {
        lemma_place(entries, path, at + 1);
    }
}

/// In ordered entries a path has one place.
pub proof fn lemma_place_unique<V>(entries: Seq<PathEntry<V>>, path: Seq<Seq<char>>, at: int)
    requires
        in_order(entries),
        0 <= at < entries.len(),
        entries[at].path@ == path,
    ensures
        place_from(entries, path, 0) == at,
{
    lemma_place(entries, path, 0);
    let place = place_from(entries, path, 0);
    paths::lemma_path_before_irreflexive(path);
    if place < at {
        assert(paths::path_before(entries[place].path@, entries[at].path@));
    } else if place > at {
        assert(entries[at].path@ != path);
    }
}

proof fn lemma_absent<V>(entries: Seq<PathEntry<V>>, path: Seq<Seq<char>>)
    requires
        forall|k: int| 0 <= k < entries.len() ==> (#[trigger] entries[k]).path@ != path,
    ensures
        place_from(entries, path, 0) == entries.len(),
{
    lemma_place(entries, path, 0);
}

proof fn lemma_inserted<V>(
    before: Seq<PathEntry<V>>,
    after: Seq<PathEntry<V>>,
    at: int,
    entry: PathEntry<V>,
)
    requires
        in_order(before),
        0 <= at <= before.len(),
        after == before.insert(at, entry),
        forall|k: int|
            0 <= k < at ==> paths::path_before((#[trigger] before[k]).path@, entry.path@),
        forall|k: int|
            at <= k < before.len() ==> paths::path_before(
                entry.path@,
                (#[trigger] before[k]).path@,
            ),
    ensures
        in_order(after),
        map_of(after) == map_of(before).insert(entry.path@, entry.value),
{
    assert forall|i: int, j: int| 0 <= i < j < after.len() implies paths::path_before(
        (#[trigger] after[i]).path@,
        (#[trigger] after[j]).path@,
    ) by {
        let a = if i < at {
            i
        } else {
            i - 1
        };
        let b = if j < at {
            j
        } else {
            j - 1
        };
        if i == at {
            assert(after[j] == before[b]);
        } else if j == at {
            assert(after[i] == before[a]);
        } else {
            assert(after[i] == before[a] && after[j] == before[b]);
        }
    }
    assert forall|path: Seq<Seq<char>>| #[trigger]
        map_of(after).contains_key(path) <==> map_of(before).insert(
            entry.path@,
            entry.value,
        ).contains_key(path) by {
        lemma_moved(before, after, at, entry, path);
    }
    assert forall|path: Seq<Seq<char>>| #[trigger] map_of(after).contains_key(path) implies map_of(
        after,
    )[path] == map_of(before).insert(entry.path@, entry.value)[path] by {
        lemma_moved(before, after, at, entry, path);
    }
    assert(map_of(after) =~= map_of(before).insert(entry.path@, entry.value));
}

proof fn lemma_moved<V>(
    before: Seq<PathEntry<V>>,
    after: Seq<PathEntry<V>>,
    at: int,
    entry: PathEntry<V>,
    path: Seq<Seq<char>>,
)
    requires
        in_order(before),
        in_order(after),
        0 <= at <= before.len(),
        after == before.insert(at, entry),
    ensures
        path == entry.path@ ==> place_from(after, path, 0) == at,
        path != entry.path@ ==> ({
            let old_place = place_from(before, path, 0);
            let new_place = place_from(after, path, 0);
            if old_place < before.len() {
                new_place < after.len() && after[new_place] == before[old_place]
            } else {
                new_place == after.len()
            }
        }),
{
    lemma_place(before, path, 0);
    lemma_place(after, path, 0);
    assert(after[at] == entry);
    if path == entry.path@ {
        lemma_place_unique(after, path, at);
    } else {
        let old_place = place_from(before, path, 0);
        if old_place < before.len() {
            let moved = if old_place < at {
                old_place
            } else {
                old_place + 1
            };
            assert(after[moved] == before[old_place]);
            lemma_place_unique(after, path, moved);
        } else {
            assert forall|k: int| 0 <= k < after.len() implies (#[trigger] after[k]).path@
                != path by {
                if k < at {
                    assert(after[k] == before[k]);
                } else if k > at {
                    assert(after[k] == before[k - 1]);
                }
            }
            lemma_absent(after, path);
        }
    }
}

impl<V> PathMap<V> {
    /// Whether the paths are paths, in order and each there once.
    pub closed spec fn wf(self) -> bool {
        in_order(self.entries@) && forall|i: int|
            0 <= i < self.entries@.len() ==> (#[trigger] self.entries@[i]).path.wf()
    }

    /// The entries in order.
    pub closed spec fn entries(self) -> Seq<PathEntry<V>> {
        self.entries@
    }

    /// What holds of the entries of a well-formed map.
    pub proof fn lemma_entries(&self)
        requires
            self.wf(),
        ensures
            in_order(self.entries()),
            self@ == map_of(self.entries()),
            forall|i: int|
                0 <= i < self.entries().len() ==> (#[trigger] self.entries()[i]).path.wf(),
    {
    }

    /// Every entry is in the map under its path, and nothing else is.
    pub proof fn lemma_contents(&self)
        requires
            self.wf(),
        ensures
            forall|i: int|
                0 <= i < self.entries().len() ==> self@.contains_key(
                    (#[trigger] self.entries()[i]).path@,
                ) && self@[self.entries()[i].path@] == self.entries()[i].value,
            forall|path: Seq<Seq<char>>| #[trigger]
                self@.contains_key(path) ==> exists|i: int|
                    0 <= i < self.entries().len() && (#[trigger] self.entries()[i]).path@ == path,
    {
        assert forall|i: int| 0 <= i < self.entries().len() implies self@.contains_key(
            (#[trigger] self.entries()[i]).path@,
        ) && self@[self.entries()[i].path@] == self.entries()[i].value by {
            lemma_place_unique(self.entries@, self.entries@[i].path@, i);
        }
        assert forall|path: Seq<Seq<char>>| #[trigger] self@.contains_key(path) implies exists|
            i: int,
        |
            0 <= i < self.entries().len() && (#[trigger] self.entries()[i]).path@ == path by {
            lemma_place(self.entries@, path, 0);
            assert(self.entries()[place_from(self.entries@, path, 0)].path@ == path);
        }
    }

    /// An empty map.
    pub fn new() -> (map: Self)
        ensures
            map.wf(),
            map@ == Map::<Seq<Seq<char>>, V>::empty(),
            map.entries().len() == 0,
    {
        let map = PathMap { entries: Vec::new() };
        assert(map_of(map.entries@) =~= Map::empty());
        map
    }

    /// How many entries there are.
    pub fn len(&self) -> (count: usize)
        ensures
            count == self.entries().len(),
    {
        self.entries.len()
    }

    /// The entry at a place.
    pub fn at(&self, index: usize) -> (entry: &PathEntry<V>)
        requires
            index < self.entries().len(),
        ensures
            *entry == self.entries()[index as int],
    {
        &self.entries[index]
    }

    /// The value at a place, to be changed.
    pub fn value_mut(&mut self, index: usize) -> (value: &mut V)
        requires
            index < old(self).entries().len(),
        ensures
            *value == old(self).entries()[index as int].value,
            final(self).entries() == old(self).entries().update(
                index as int,
                PathEntry {
                    path: old(self).entries()[index as int].path,
                    value: *final(value),
                },
            ),
    {
        &mut self.entries[index].value
    }

    /// The place of a path.
    pub fn place(&self, path: &SystemPath) -> (index: Option<usize>)
        requires
            self.wf(),
        ensures
            match index {
                Some(index) => index < self.entries().len() && self.entries()[index as int].path@
                    == path@ && self@.contains_key(path@),
                None => !self@.contains_key(path@),
            },
    {
        let (at, found) = self.find(path);
        if found {
            Some(at)
        } else {
            None
        }
    }

    /// Entries with the paths of a well-formed map are well-formed.
    pub proof fn lemma_same_paths(&self, other: &Self)
        requires
            self.wf(),
            self.entries().len() == other.entries().len(),
            forall|i: int|
                0 <= i < self.entries().len() ==> (#[trigger] other.entries()[i]).path
                    == self.entries()[i].path,
        ensures
            other.wf(),
    {
        assert forall|i: int, j: int| 0 <= i < j < other.entries@.len() implies paths::path_before(
            (#[trigger] other.entries@[i]).path@,
            (#[trigger] other.entries@[j]).path@,
        ) by {
            assert(other.entries()[i].path == self.entries()[i].path);
            assert(other.entries()[j].path == self.entries()[j].path);
            assert(paths::path_before(self.entries@[i].path@, self.entries@[j].path@));
        }
        assert forall|i: int| 0 <= i < other.entries@.len() implies (
        #[trigger] other.entries@[i]).path.wf() by {
            assert(other.entries()[i].path == self.entries()[i].path);
            assert(self.entries@[i].path.wf());
        }
    }

    /// Finds the place of a path, or the place where it belongs.
    fn find(&self, path: &SystemPath) -> (result: (usize, bool))
        requires
            self.wf(),
        ensures
            result.0 <= self.entries@.len(),
            result.1 ==> result.0 < self.entries@.len() && self.entries@[result.0 as int].path@
                == path@ && place_from(self.entries@, path@, 0) == result.0,
            !result.1 ==> place_from(self.entries@, path@, 0) == self.entries@.len() && (forall|
                k: int,
            |
                0 <= k < result.0 ==> paths::path_before(
                    (#[trigger] self.entries@[k]).path@,
                    path@,
                )) && (forall|k: int|
                result.0 <= k < self.entries@.len() ==> paths::path_before(
                    path@,
                    (#[trigger] self.entries@[k]).path@,
                )),
    {
        let mut i: usize = 0;
        while i < self.entries.len()
            invariant
                self.wf(),
                i <= self.entries@.len(),
                forall|k: int|
                    0 <= k < i ==> paths::path_before(
                        (#[trigger] self.entries@[k]).path@,
                        path@,
                    ),
            decreases self.entries@.len() - i,
        {
            match self.entries[i].path.relate(path) {
                Relation::Less => {},
                Relation::Equal => {
                    proof {
                        lemma_place_unique(self.entries@, path@, i as int);
                    }
                    return (i, true);
                },
                Relation::Greater => {
                    proof {
                        self.lemma_gap(path@, i as int);
                    }
                    return (i, false);
                },
            }
            i += 1;
        }
        proof {
            assert forall|k: int| 0 <= k < self.entries@.len() implies (
            #[trigger] self.entries@[k]).path@ != path@ by {
                paths::lemma_path_before_irreflexive(path@);
            }
            lemma_absent(self.entries@, path@);
        }
        (i, false)
    }

    proof fn lemma_gap(&self, path: Seq<Seq<char>>, at: int)
        requires
            self.wf(),
            0 <= at < self.entries@.len(),
            forall|k: int|
                0 <= k < at ==> paths::path_before((#[trigger] self.entries@[k]).path@, path),
            paths::path_before(path, self.entries@[at].path@),
        ensures
            place_from(self.entries@, path, 0) == self.entries@.len(),
            forall|k: int|
                at <= k < self.entries@.len() ==> paths::path_before(
                    path,
                    (#[trigger] self.entries@[k]).path@,
                ),
    {
        assert forall|k: int| at <= k < self.entries@.len() implies paths::path_before(
            path,
            (#[trigger] self.entries@[k]).path@,
        ) by {
            if k > at {
                assert(paths::path_before(self.entries@[at].path@, self.entries@[k].path@));
                paths::lemma_path_before_transitive(
                    path,
                    self.entries@[at].path@,
                    self.entries@[k].path@,
                );
            }
        }
        assert forall|k: int| 0 <= k < self.entries@.len() implies (
        #[trigger] self.entries@[k]).path@ != path by {
            paths::lemma_path_before_irreflexive(path);
        }
        lemma_absent(self.entries@, path);
    }

    /// The value of a path.
    pub fn get(&self, path: &SystemPath) -> (value: Option<&V>)
        requires
            self.wf(),
        ensures
            match value {
                Some(value) => self@.contains_key(path@) && self@[path@] == *value,
                None => !self@.contains_key(path@),
            },
    {
        let (at, found) = self.find(path);
        if found {
            Some(&self.entries[at].value)
        } else {
            None
        }
    }

    /// Whether a path has a value.
    pub fn contains(&self, path: &SystemPath) -> (found: bool)
        requires
            self.wf(),
        ensures
            found == self@.contains_key(path@),
    {
        self.get(path).is_some()
    }

    /// Gives a path a value.
    pub fn insert(&mut self, path: SystemPath, value: V)
        requires
            old(self).wf(),
            path.wf(),
        ensures
            final(self).wf(),
            final(self)@ == old(self)@.insert(path@, value),
    {
        let (at, found) = self.find(&path);
        let ghost before = self.entries@;
        let ghost entry = PathEntry { path, value };
        if found {
            let ghost name = path@;
            self.entries.remove(at);
            let ghost removed = self.entries@;
            proof {
                lemma_removed(before, removed, at as int, name);
                assert forall|k: int| 0 <= k < at implies paths::path_before(
                    (#[trigger] removed[k]).path@,
                    name,
                ) by {
                    assert(removed[k] == before[k]);
                    assert(paths::path_before(before[k].path@, before[at as int].path@));
                }
                assert forall|k: int| at <= k < removed.len() implies paths::path_before(
                    name,
                    (#[trigger] removed[k]).path@,
                ) by {
                    assert(removed[k] == before[k + 1]);
                    assert(paths::path_before(before[at as int].path@, before[k + 1].path@));
                }
                assert forall|k: int| 0 <= k < removed.len() implies (
                #[trigger] removed[k]).path.wf() by {
                    if k < at {
                        assert(removed[k] == before[k]);
                    } else {
                        assert(removed[k] == before[k + 1]);
                    }
                }
            }
            self.entries.insert(at, PathEntry { path, value });
            proof {
                lemma_inserted(removed, self.entries@, at as int, entry);
                assert(map_of(removed).insert(name, value) =~= map_of(before).insert(name, value));
                assert forall|k: int| 0 <= k < self.entries@.len() implies (
                #[trigger] self.entries@[k]).path.wf() by {
                    if k < at {
                        assert(self.entries@[k] == removed[k]);
                    } else if k > at {
                        assert(self.entries@[k] == removed[k - 1]);
                    }
                }
            }
        } else {
            self.entries.insert(at, PathEntry { path, value });
            proof {
                lemma_inserted(before, self.entries@, at as int, entry);
                assert forall|k: int| 0 <= k < self.entries@.len() implies (
                #[trigger] self.entries@[k]).path.wf() by {
                    if k < at {
                        assert(self.entries@[k] == before[k]);
                    } else if k > at {
                        assert(self.entries@[k] == before[k - 1]);
                    }
                }
            }
        }
    }

    /// Takes a path and its value away.
    pub fn remove(&mut self, path: &SystemPath) -> (value: Option<V>)
        requires
            old(self).wf(),
        ensures
            final(self).wf(),
            final(self)@ == old(self)@.remove(path@),
            match value {
                Some(value) => old(self)@.contains_key(path@) && old(self)@[path@] == value,
                None => !old(self)@.contains_key(path@),
            },
    {
        let (at, found) = self.find(path);
        let ghost before = self.entries@;
        if found {
            let entry = self.entries.remove(at);
            proof {
                lemma_removed(before, self.entries@, at as int, path@);
                assert forall|k: int| 0 <= k < self.entries@.len() implies (
                #[trigger] self.entries@[k]).path.wf() by {
                    if k < at {
                        assert(self.entries@[k] == before[k]);
                    } else {
                        assert(self.entries@[k] == before[k + 1]);
                    }
                }
            }
            Some(entry.value)
        } else {
            assert(map_of(before).remove(path@) =~= map_of(before));
            None
        }
    }
}

proof fn lemma_removed<V>(
    before: Seq<PathEntry<V>>,
    after: Seq<PathEntry<V>>,
    at: int,
    path: Seq<Seq<char>>,
)
    requires
        in_order(before),
        0 <= at < before.len(),
        before[at].path@ == path,
        after == before.remove(at),
    ensures
        in_order(after),
        map_of(after) == map_of(before).remove(path),
{
    assert forall|i: int, j: int| 0 <= i < j < after.len() implies paths::path_before(
        (#[trigger] after[i]).path@,
        (#[trigger] after[j]).path@,
    ) by {
        let a = if i < at {
            i
        } else {
            i + 1
        };
        let b = if j < at {
            j
        } else {
            j + 1
        };
        assert(after[i] == before[a] && after[j] == before[b]);
    }
    assert(before =~= after.insert(at, before[at]));
    let left = map_of(after);
    let right = map_of(before).remove(path);
    assert forall|name: Seq<Seq<char>>| #[trigger]
        left.contains_key(name) <==> right.contains_key(name) by {
        lemma_moved(after, before, at, before[at], name);
        lemma_gone(before, after, at, name);
    }
    assert forall|name: Seq<Seq<char>>| #[trigger] left.contains_key(name) implies left[name]
        == right[name] by {
        lemma_moved(after, before, at, before[at], name);
        lemma_gone(before, after, at, name);
    }
    assert(left =~= right);
}

proof fn lemma_gone<V>(
    before: Seq<PathEntry<V>>,
    after: Seq<PathEntry<V>>,
    at: int,
    path: Seq<Seq<char>>,
)
    requires
        in_order(before),
        0 <= at < before.len(),
        after == before.remove(at),
    ensures
        path == before[at].path@ ==> place_from(after, path, 0) == after.len(),
{
    if path == before[at].path@ {
        assert forall|k: int| 0 <= k < after.len() implies (#[trigger] after[k]).path@ != path by {
            paths::lemma_path_before_irreflexive(path);
            if k < at {
                assert(after[k] == before[k]);
                assert(paths::path_before(before[k].path@, before[at].path@));
            } else {
                assert(after[k] == before[k + 1]);
                assert(paths::path_before(before[at].path@, before[k + 1].path@));
            }
        }
        lemma_absent(after, path);
    }
}

impl<V> View for PathMap<V> {
    type V = Map<Seq<Seq<char>>, V>;

    closed spec fn view(&self) -> Map<Seq<Seq<char>>, V> {
        map_of(self.entries@)
    }
}

/// Where the values of two maps with the same paths are related entry by entry, the maps are.
pub proof fn lemma_related<V, W>(
    before: PathMap<V>,
    after: PathMap<V>,
    view: spec_fn(V) -> W,
    change: spec_fn(W) -> W,
)
    requires
        before.wf(),
        after.wf(),
        before.entries().len() == after.entries().len(),
        forall|i: int|
            0 <= i < before.entries().len() ==> (#[trigger] after.entries()[i]).path
                == before.entries()[i].path && view(after.entries()[i].value) == change(
                view(before.entries()[i].value),
            ),
    ensures
        after@.map_values(view) == before@.map_values(view).map_values(change),
{
    before.lemma_contents();
    after.lemma_contents();
    let left = after@.map_values(view);
    let right = before@.map_values(view).map_values(change);
    assert forall|path: Seq<Seq<char>>| #[trigger]
        left.contains_key(path) <==> right.contains_key(path) by {
        if after@.contains_key(path) {
            let i = choose|i: int|
                0 <= i < after.entries().len() && (#[trigger] after.entries()[i]).path@ == path;
            assert(before.entries()[i].path@ == path);
        }
        if before@.contains_key(path) {
            let i = choose|i: int|
                0 <= i < before.entries().len() && (#[trigger] before.entries()[i]).path@ == path;
            assert(after.entries()[i].path@ == path);
        }
    }
    assert forall|path: Seq<Seq<char>>| #[trigger] left.contains_key(path) implies left[path]
        == right[path] by {
        let i = choose|i: int|
            0 <= i < after.entries().len() && (#[trigger] after.entries()[i]).path@ == path;
        assert(before.entries()[i].path@ == path);
        assert(before@[path] == before.entries()[i].value);
        assert(after@[path] == after.entries()[i].value);
    }
    assert(left =~= right);
}

/// Changing the value of one entry changes the value of its path.
pub proof fn lemma_updated<V>(before: PathMap<V>, after: PathMap<V>, at: int, value: V)
    requires
        before.wf(),
        0 <= at < before.entries().len(),
        after.entries() == before.entries().update(
            at,
            PathEntry { path: before.entries()[at].path, value },
        ),
    ensures
        after.wf(),
        after@ == before@.insert(before.entries()[at].path@, value),
{
    assert forall|i: int| 0 <= i < before.entries().len() implies (
    #[trigger] after.entries()[i]).path == before.entries()[i].path by {}
    before.lemma_same_paths(&after);
    before.lemma_contents();
    after.lemma_contents();
    let name = before.entries()[at].path@;
    let right = before@.insert(name, value);
    assert forall|path: Seq<Seq<char>>| #[trigger]
        after@.contains_key(path) <==> right.contains_key(path) by {
        if after@.contains_key(path) {
            let i = choose|i: int|
                0 <= i < after.entries().len() && (#[trigger] after.entries()[i]).path@ == path;
            assert(before.entries()[i].path@ == path);
        }
        if before@.contains_key(path) || path == name {
            if path == name {
                assert(after.entries()[at].path@ == path);
            } else {
                let i = choose|i: int|
                    0 <= i < before.entries().len() && (
                    #[trigger] before.entries()[i]).path@ == path;
                assert(after.entries()[i].path@ == path);
            }
        }
    }
    assert forall|path: Seq<Seq<char>>| #[trigger] after@.contains_key(path) implies after@[path]
        == right[path] by {
        let i = choose|i: int|
            0 <= i < after.entries().len() && (#[trigger] after.entries()[i]).path@ == path;
        assert(before.entries()[i].path@ == path);
        if path == name {
            lemma_place_unique(before.entries(), path, at);
            lemma_place_unique(before.entries(), path, i);
        } else {
            assert(after.entries()[i] == before.entries()[i]);
        }
    }
    assert(after@ =~= right);
}

} // verus!

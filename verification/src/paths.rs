//! Absolute paths, as sequences of names.

use vstd::prelude::*;

use crate::order;
use crate::order::{Keyed, Ordered};
use crate::text;
use crate::text::Relation;

verus! {

broadcast use vstd::string::group_string_axioms;

/// An absolute path without `.` and `..`: the names on the way down from the root.
#[derive(Debug)]
pub struct SystemPath {
    pub components: Vec<String>,
}

impl View for SystemPath {
    type V = Seq<Seq<char>>;

    open spec fn view(&self) -> Seq<Seq<char>> {
        order::keys(self.components@)
    }
}

// ---------------------------------------------------------------------------------------------
// Reading
// ---------------------------------------------------------------------------------------------

/// The names of a text, split at slashes; slashes next to each other enclose empty names.
pub open spec fn split(text: Seq<char>) -> Seq<Seq<char>>
    decreases text.len(),
{
    if text.len() == 0 {
        seq![Seq::empty()]
    } else {
        let before = split(text.drop_last());
        if text.last() == '/' {
            before.push(Seq::empty())
        } else {
            before.drop_last().push(before.last().push(text.last()))
        }
    }
}

/// Goes on to a name: nowhere for an empty one and `.`, up for `..`, and down for any other.
pub open spec fn go(path: Seq<Seq<char>>, name: Seq<char>) -> Seq<Seq<char>> {
    if name.len() == 0 || name == "."@ {
        path
    } else if name == ".."@ {
        if path.len() == 0 {
            path
        } else {
            path.drop_last()
        }
    } else {
        path.push(name)
    }
}

/// Goes on to names in order.
pub open spec fn go_along(path: Seq<Seq<char>>, names: Seq<Seq<char>>) -> Seq<Seq<char>>
    decreases names.len(),
{
    if names.len() == 0 {
        path
    } else {
        go(go_along(path, names.drop_last()), names.last())
    }
}

/// The path that a text means in a directory.
pub open spec fn resolved(text: Seq<char>, directory: Seq<Seq<char>>) -> Seq<Seq<char>> {
    if text.len() > 0 && text[0] == '/' {
        go_along(Seq::empty(), split(text))
    } else {
        go_along(directory, split(text))
    }
}

/// Whether a name can stand in a path.
pub open spec fn is_name(name: Seq<char>) -> bool {
    name.len() > 0 && name != "."@ && name != ".."@ && !name.contains('/')
}

/// Whether all names of a path can stand in one.
pub open spec fn is_path(path: Seq<Seq<char>>) -> bool {
    forall|i: int| 0 <= i < path.len() ==> is_name(#[trigger] path[i])
}

/// The path as a text.
pub open spec fn path_text(path: Seq<Seq<char>>) -> Seq<char> {
    "/"@ + text::joined(path, "/"@)
}

/// Whether a path lies in a directory, or is it.
pub open spec fn lies_in(path: Seq<Seq<char>>, directory: Seq<Seq<char>>) -> bool {
    directory.is_prefix_of(path)
}

// ---------------------------------------------------------------------------------------------
// Order
// ---------------------------------------------------------------------------------------------

/// The order of paths: name by name, a directory before what lies in it.
pub open spec fn path_before(a: Seq<Seq<char>>, b: Seq<Seq<char>>) -> bool
    decreases a.len(),
{
    if b.len() == 0 {
        false
    } else if a.len() == 0 {
        true
    } else {
        text::text_before(a[0], b[0]) || (a[0] == b[0] && path_before(
            a.drop_first(),
            b.drop_first(),
        ))
    }
}

/// No path comes before itself.
pub proof fn lemma_path_before_irreflexive(a: Seq<Seq<char>>)
    ensures
        !path_before(a, a),
    decreases a.len(),
{
    if a.len() > 0 {
        text::lemma_text_before_irreflexive(a[0]);
        lemma_path_before_irreflexive(a.drop_first());
    }
}

/// The order of paths is transitive.
pub proof fn lemma_path_before_transitive(
    a: Seq<Seq<char>>,
    b: Seq<Seq<char>>,
    c: Seq<Seq<char>>,
)
    requires
        path_before(a, b),
        path_before(b, c),
    ensures
        path_before(a, c),
    decreases a.len(),
{
    if a.len() > 0 {
        if text::text_before(a[0], b[0]) && text::text_before(b[0], c[0]) {
            text::lemma_text_before_transitive(a[0], b[0], c[0]);
        }
        if a[0] == b[0] && b[0] == c[0] && path_before(a.drop_first(), b.drop_first())
            && path_before(b.drop_first(), c.drop_first()) {
            lemma_path_before_transitive(a.drop_first(), b.drop_first(), c.drop_first());
        }
        if a[0] == b[0] {
            text::lemma_text_before_irreflexive(a[0]);
        }
        if b[0] == c[0] {
            text::lemma_text_before_irreflexive(b[0]);
        }
    }
}

/// Different paths are ordered one way or the other.
pub proof fn lemma_path_before_total(a: Seq<Seq<char>>, b: Seq<Seq<char>>)
    ensures
        a == b || path_before(a, b) || path_before(b, a),
    decreases a.len(),
{
    if a.len() == 0 {
        if b.len() == 0 {
            assert(a =~= b);
        }
    } else if b.len() > 0 {
        text::lemma_text_before_total(a[0], b[0]);
        if a[0] == b[0] {
            lemma_path_before_total(a.drop_first(), b.drop_first());
            if a.drop_first() == b.drop_first() {
                assert(a =~= seq![a[0]] + a.drop_first());
                assert(b =~= seq![b[0]] + b.drop_first());
            }
        }
    }
}

impl Ordered for SystemPath {
    type Key = Seq<Seq<char>>;

    open spec fn key(&self) -> Seq<Seq<char>> {
        self@
    }

    open spec fn key_before(a: Seq<Seq<char>>, b: Seq<Seq<char>>) -> bool {
        path_before(a, b)
    }

    proof fn key_irreflexive(a: Seq<Seq<char>>) {
        lemma_path_before_irreflexive(a);
    }

    proof fn key_transitive(a: Seq<Seq<char>>, b: Seq<Seq<char>>, c: Seq<Seq<char>>) {
        lemma_path_before_transitive(a, b, c);
    }

    proof fn key_total(a: Seq<Seq<char>>, b: Seq<Seq<char>>) {
        lemma_path_before_total(a, b);
    }
}

proof fn lemma_path_before_skip(a: Seq<Seq<char>>, b: Seq<Seq<char>>, at: int)
    requires
        0 <= at <= a.len(),
        at <= b.len(),
        forall|i: int| 0 <= i < at ==> #[trigger] a[i] == b[i],
    ensures
        path_before(a, b) == path_before(a.skip(at), b.skip(at)),
    decreases at,
{
    if at > 0 {
        lemma_path_before_skip(a, b, at - 1);
        let x = a.skip(at - 1);
        let y = b.skip(at - 1);
        text::lemma_text_before_irreflexive(x[0]);
        assert(x[0] == a[at - 1] && y[0] == b[at - 1]);
        assert(x.drop_first() =~= a.skip(at));
        assert(y.drop_first() =~= b.skip(at));
    } else {
        assert(a.skip(0) =~= a);
        assert(b.skip(0) =~= b);
    }
}

impl Keyed for SystemPath {
    fn relate(&self, other: &Self) -> (relation: Relation) {
        let ghost a = self@;
        let ghost b = other@;
        let mut i: usize = 0;
        while i < self.components.len() && i < other.components.len()
            invariant
                i <= self.components@.len(),
                i <= other.components@.len(),
                a == self@,
                b == other@,
                forall|k: int| 0 <= k < i ==> #[trigger] a[k] == b[k],
            decreases self.components@.len() - i,
        {
            proof {
                lemma_path_before_skip(a, b, i as int);
                lemma_path_before_skip(b, a, i as int);
                assert(a.skip(i as int)[0] == self.components@[i as int]@);
                assert(b.skip(i as int)[0] == other.components@[i as int]@);
                text::lemma_text_before_total(a[i as int], b[i as int]);
            }
            match text::order_text(self.components[i].as_str(), other.components[i].as_str()) {
                Relation::Less => {
                    return Relation::Less;
                },
                Relation::Greater => {
                    return Relation::Greater;
                },
                Relation::Equal => {},
            }
            i += 1;
        }
        proof {
            lemma_path_before_skip(a, b, i as int);
            lemma_path_before_skip(b, a, i as int);
        }
        if self.components.len() < other.components.len() {
            Relation::Less
        } else if self.components.len() > other.components.len() {
            Relation::Greater
        } else {
            assert(a =~= b);
            Relation::Equal
        }
    }
}

// ---------------------------------------------------------------------------------------------
// Paths
// ---------------------------------------------------------------------------------------------

/// The names of a text, split at slashes.
fn split_names(text: &str) -> (names: Vec<String>)
    ensures
        order::keys(names@) == split(text@),
{
    let mut names: Vec<String> = Vec::new();
    let mut current = String::new();
    let mut rest = text.chars();
    let ghost mut at: int = 0;
    proof {
        assert(text@.skip(0) =~= text@);
        assert(text@.take(0) =~= Seq::empty());
        assert(order::keys(names@).push(current@) =~= seq![Seq::<char>::empty()]);
    }
    loop
        invariant
            0 <= at <= text@.len(),
            vstd::std_specs::iter::IteratorSpec::remaining(&rest) == text@.skip(at),
            order::keys(names@).push(current@) == split(text@.take(at)),
        decreases text@.len() - at,
    {
        match rest.next() {
            None => {
                let ghost before = names@;
                names.push(current);
                assert(text@.take(at) =~= text@);
                assert(order::keys(names@) =~= order::keys(before).push(names@.last()@));
                return names;
            },
            Some(c) => {
                let ghost before = names@;
                let ghost held = current@;
                proof {
                    assert(c == text@[at]);
                    assert(text@.take(at + 1).drop_last() =~= text@.take(at));
                    assert(text@.take(at + 1).last() == c);
                    assert(order::keys(before).push(held).drop_last() =~= order::keys(before));
                    assert(order::keys(before).push(held).last() == held);
                }
                if c == '/' {
                    names.push(current);
                    current = String::new();
                    assert(order::keys(names@) =~= order::keys(before).push(held));
                } else {
                    current.push(c);
                }
                proof {
                    assert(text@.skip(at).drop_first() =~= text@.skip(at + 1));
                    at = at + 1;
                }
            },
        }
    }
}

impl SystemPath {
    /// Whether all names can stand in a path.
    pub open spec fn wf(self) -> bool {
        is_path(self@)
    }

    /// The root directory.
    pub fn root() -> (path: Self)
        ensures
            path@ == Seq::<Seq<char>>::empty(),
    {
        let path = SystemPath { components: Vec::new() };
        assert(path@ =~= Seq::empty());
        path
    }

    /// The same path once more.
    pub fn copied(&self) -> (copy: Self)
        ensures
            copy@ == self@,
    {
        let mut components: Vec<String> = Vec::new();
        let mut i: usize = 0;
        while i < self.components.len()
            invariant
                i <= self.components@.len(),
                components@.len() == i,
                forall|k: int| 0 <= k < i ==> (#[trigger] components@[k])@ == self@[k],
            decreases self.components@.len() - i,
        {
            components.push(self.components[i].clone());
            i += 1;
        }
        let copy = SystemPath { components };
        assert(copy@ =~= self@);
        copy
    }

    /// The path that a text means in a directory.
    pub fn absolute(text: &str, directory: &SystemPath) -> (path: Self)
        ensures
            path@ == resolved(text@, directory@),
    {
        let names = split_names(text);
        let is_absolute = text::has_prefix(text, "/");
        let mut path = if is_absolute {
            SystemPath::root()
        } else {
            directory.copied()
        };
        proof {
            reveal_strlit("/");
            if is_absolute {
                assert(text@.subrange(0, 1)[0] == "/"@[0]);
            } else if text@.len() > 0 && text@[0] == '/' {
                assert("/"@ =~= text@.subrange(0, 1));
            }
        }
        let ghost start = path@;
        let ghost all = order::keys(names@);
        let mut i: usize = 0;
        assert(all.take(0) =~= Seq::empty());
        while i < names.len()
            invariant
                i <= names@.len(),
                all == order::keys(names@),
                path@ == go_along(start, all.take(i as int)),
            decreases names@.len() - i,
        {
            proof {
                assert(all.take(i as int + 1).drop_last() =~= all.take(i as int));
                assert(all.take(i as int + 1).last() == names@[i as int]@);
            }
            path.go_to(names[i].as_str());
            i += 1;
        }
        assert(all.take(all.len() as int) =~= all);
        path
    }

    fn go_to(&mut self, name: &str)
        ensures
            final(self)@ == go(old(self)@, name@),
    {
        let ghost before = self@;
        if name.unicode_len() == 0 || text::same_text(name, ".") {
        } else if text::same_text(name, "..") {
            if self.components.len() > 0 {
                self.components.pop();
                assert(self@ =~= before.drop_last());
            }
        } else {
            self.components.push(name.to_owned());
            assert(self@ =~= before.push(name@));
        }
    }

    /// A name in this directory.
    pub fn join(&self, name: &str) -> (path: Self)
        ensures
            path@ == self@.push(name@),
    {
        let mut path = self.copied();
        let ghost before = path@;
        path.components.push(name.to_owned());
        assert(path@ =~= before.push(name@));
        path
    }

    /// The directory that a path lies in; the root lies in none.
    pub fn parent(&self) -> (parent: Option<Self>)
        ensures
            match parent {
                Some(parent) => self@.len() > 0 && parent@ == self@.drop_last(),
                None => self@.len() == 0,
            },
    {
        if self.components.len() == 0 {
            return None;
        }
        let mut parent = self.copied();
        let ghost before = parent@;
        parent.components.pop();
        assert(parent@ =~= before.drop_last());
        Some(parent)
    }

    /// The last name.
    pub fn file_name(&self) -> (name: Option<&str>)
        ensures
            match name {
                Some(name) => self@.len() > 0 && name@ == self@.last(),
                None => self@.len() == 0,
            },
    {
        if self.components.len() == 0 {
            None
        } else {
            Some(self.components[self.components.len() - 1].as_str())
        }
    }

    /// Whether the path lies in a directory, or is it.
    pub fn starts_with(&self, directory: &SystemPath) -> (inside: bool)
        ensures
            inside == lies_in(self@, directory@),
    {
        let ghost a = self@;
        let ghost b = directory@;
        if directory.components.len() > self.components.len() {
            return false;
        }
        let mut i: usize = 0;
        while i < directory.components.len()
            invariant
                i <= directory.components@.len(),
                directory.components@.len() <= self.components@.len(),
                a == self@,
                b == directory@,
                forall|k: int| 0 <= k < i ==> #[trigger] a[k] == b[k],
            decreases directory.components@.len() - i,
        {
            if !text::same_text(self.components[i].as_str(), directory.components[i].as_str()) {
                proof {
                    if lies_in(a, b) {
                        assert(a.subrange(0, b.len() as int)[i as int] == b[i as int]);
                    }
                }
                return false;
            }
            i += 1;
        }
        assert(b =~= a.subrange(0, b.len() as int));
        true
    }

    /// Whether two paths are the same.
    pub fn same_as(&self, other: &SystemPath) -> (same: bool)
        ensures
            same == (self@ == other@),
    {
        match self.relate(other) {
            Relation::Equal => true,
            Relation::Less => {
                proof {
                    lemma_path_before_irreflexive(self@);
                }
                false
            },
            Relation::Greater => {
                proof {
                    lemma_path_before_irreflexive(self@);
                }
                false
            },
        }
    }

    /// The path as a text.
    pub fn to_text(&self) -> (text: String)
        ensures
            text@ == path_text(self@),
    {
        let mut text = "/".to_owned();
        let names = order::join_texts(&self.components, "/");
        text::push_text(&mut text, names.as_str());
        text
    }
}

/// Whether a name is that of a Python or a SQL source: an extension needs a name in front of it.
pub open spec fn is_source_name(name: Seq<char>) -> bool {
    is_python_name(name) || ".chalk.sql"@.is_suffix_of(name)
}

/// Whether a name has the extension of Python sources.
pub open spec fn is_python_name(name: Seq<char>) -> bool {
    ".py"@.is_suffix_of(name) && name != ".py"@
}

/// Whether a path names a source.
pub open spec fn is_source_path(path: Seq<Seq<char>>) -> bool {
    path.len() > 0 && is_source_name(path.last())
}

/// Whether a name has the extension of Python sources.
pub fn has_python_extension(name: &str) -> (found: bool)
    ensures
        found == is_python_name(name@),
{
    text::has_suffix(name, ".py") && !text::same_text(name, ".py")
}

/// Whether a path names a Python or a SQL source.
pub fn is_source_candidate(path: &SystemPath) -> (found: bool)
    ensures
        found == is_source_path(path@),
{
    match path.file_name() {
        Some(name) => has_python_extension(name) || text::has_suffix(name, ".chalk.sql"),
        None => false,
    }
}

} // verus!

//! Ignore files in the format of `.gitignore`, matched by the `ignore` crate.

use ignore::gitignore::{Gitignore, GitignoreBuilder};
use vstd::prelude::*;

use crate::order;
use crate::paths;
use crate::paths::SystemPath;
use crate::text;

verus! {

broadcast use vstd::string::group_string_axioms;

// ---------------------------------------------------------------------------------------------
// The `ignore` crate
// ---------------------------------------------------------------------------------------------

/// `ignore::gitignore::GitignoreBuilder`: a directory and the lines that were added for it.
#[verifier::external_type_specification]
#[verifier::external_body]
pub struct ExGitignoreBuilder(ignore::gitignore::GitignoreBuilder);

/// `ignore::gitignore::Gitignore`: a matcher for a directory, made of lines.
#[verifier::external_type_specification]
#[verifier::external_body]
pub struct ExGitignore(ignore::gitignore::Gitignore);

/// `ignore::Error`: why a line or a set of lines is refused.
#[verifier::external_type_specification]
#[verifier::external_body]
pub struct ExIgnoreError(ignore::Error);

/// The directory that a builder was made for.
pub uninterp spec fn builder_root(builder: GitignoreBuilder) -> Seq<char>;

/// The globs that a builder holds, as they were written, in the order in which they were added.
pub uninterp spec fn builder_globs(builder: GitignoreBuilder) -> Seq<Seq<char>>;

/// The directory that a matcher holds. A matcher without globs holds none of its own: it is the same
/// whatever directory it was built for.
pub uninterp spec fn matcher_root(matcher: Gitignore) -> Seq<char>;

/// The globs that a matcher holds, as they were written.
pub uninterp spec fn matcher_globs(matcher: Gitignore) -> Seq<Seq<char>>;

/// Whether `GitignoreBuilder::add_line` takes a line: a comment, a blank line or a glob that parses.
pub uninterp spec fn is_rule(line: Seq<char>) -> bool;

/// The glob that `GitignoreBuilder::add_line` keeps of a line that it takes: the line without white
/// space at its end, unless that is escaped. Of a comment or a blank line it keeps none.
pub uninterp spec fn glob_of(line: Seq<char>) -> Option<Seq<char>>;

/// Whether `GitignoreBuilder::build` takes globs: they compile together.
pub uninterp spec fn compiles(globs: Seq<Seq<char>>) -> bool;

/// What `Gitignore::matched_path_or_any_parents` says, for globs of a directory, of a path in it:
/// whether the path is ignored, or nothing where no glob speaks of it or of a directory above it.
/// Paths are separated by slashes.
pub uninterp spec fn rule_verdict(
    root: Seq<char>,
    globs: Seq<Seq<char>>,
    path: Seq<char>,
    is_directory: bool,
) -> Option<bool>;

/// Whether a path, as a text, is a directory or lies in it: what stands behind the directory's name
/// begins a name of its own, with exactly one slash before it.
pub open spec fn is_below(root: Seq<char>, path: Seq<char>) -> bool {
    &&& root.len() > 0 && root[0] == '/'
    &&& root.is_prefix_of(path)
    &&& {
        let rest = path.skip(root.len() as int);
        if rest.len() == 0 {
            true
        } else if root.last() == '/' {
            rest[0] != '/'
        } else {
            rest[0] == '/' && !(rest.len() > 1 && rest[1] == '/')
        }
    }
}

/// `GitignoreBuilder::new` makes a builder for a directory; it holds no globs. The name of the
/// directory is kept as it is where it begins with a slash.
#[verifier::external_body]
fn new_builder(root: &str) -> (builder: GitignoreBuilder)
    requires
        root@.len() > 0 && root@[0] == '/',
    ensures
        builder_root(builder) == root@,
        builder_globs(builder) == Seq::<Seq<char>>::empty(),
{
    GitignoreBuilder::new(root)
}

/// `GitignoreBuilder::add_line` adds the glob of a line, if it has one, behind those that the
/// builder holds, or refuses the line and leaves the builder as it was. A line that is empty or
/// begins with `#` is taken and has no glob. The path that the line came from is only kept for
/// reports.
#[verifier::external_body]
fn add_line(builder: &mut GitignoreBuilder, from: Option<&str>, line: &str) -> (result: Result<
    (),
    ignore::Error,
>)
    ensures
        result is Ok <==> is_rule(line@),
        builder_root(*final(builder)) == builder_root(*old(builder)),
        builder_globs(*final(builder)) == match (is_rule(line@), glob_of(line@)) {
            (true, Some(glob)) => builder_globs(*old(builder)).push(glob),
            _ => builder_globs(*old(builder)),
        },
        line@.len() == 0 || line@[0] == '#' ==> result is Ok && builder_globs(*final(builder))
            == builder_globs(*old(builder)),
{
    match builder.add_line(from.map(std::path::PathBuf::from), line) {
        Ok(_) => Ok(()),
        Err(error) => Err(error),
    }
}

/// `GitignoreBuilder::build` makes a matcher of the globs that the builder holds, or refuses them;
/// no globs are never refused. The matcher holds the directory of the builder where it holds any
/// globs.
#[verifier::external_body]
fn build(builder: &GitignoreBuilder) -> (result: Result<Gitignore, ignore::Error>)
    ensures
        match result {
            Ok(matcher) => {
                &&& compiles(builder_globs(*builder))
                &&& matcher_globs(matcher) == builder_globs(*builder)
                &&& builder_globs(*builder).len() > 0 ==> matcher_root(matcher) == builder_root(
                    *builder,
                )
            },
            Err(_) => !compiles(builder_globs(*builder)),
        },
        builder_globs(*builder).len() == 0 ==> result is Ok,
{
    builder.build()
}

/// `Gitignore::matched_path_or_any_parents` gives the verdict of the last glob that speaks of the
/// path, or else of the nearest directory above it; without globs there is none. A matcher with
/// globs must not be asked about a path outside its directory.
#[verifier::external_body]
fn matched(matcher: &Gitignore, path: &str, is_directory: bool) -> (verdict: Option<bool>)
    requires
        matcher_globs(*matcher).len() > 0 ==> is_below(matcher_root(*matcher), path@),
    ensures
        matcher_globs(*matcher).len() > 0 ==> verdict == rule_verdict(
            matcher_root(*matcher),
            matcher_globs(*matcher),
            path@,
            is_directory,
        ),
        matcher_globs(*matcher).len() == 0 ==> verdict is None,
{
    match matcher.matched_path_or_any_parents(path, is_directory) {
        ignore::Match::None => None,
        ignore::Match::Ignore(_) => Some(true),
        ignore::Match::Whitelist(_) => Some(false),
    }
}

// ---------------------------------------------------------------------------------------------
// Rules
// ---------------------------------------------------------------------------------------------

/// What a rule says of a path.
#[derive(Clone, Copy, Debug, PartialEq, Eq, Structural)]
pub enum MatchKind {
    Ignore,
    Whitelist,
}

/// The globs of an ignore file and the directory that they speak of.
pub struct Rules {
    pub directory: Seq<Seq<char>>,
    pub globs: Seq<Seq<char>>,
}

/// Whether a matcher is one for a directory. One without globs is for any.
pub open spec fn is_for(matcher: Gitignore, directory: Seq<Seq<char>>) -> bool {
    matcher_globs(matcher).len() > 0 ==> matcher_root(matcher) == paths::path_text(directory)
}

/// A matcher with the directory that it speaks of.
#[derive(Debug)]
pub struct GitignoreEntry {
    pub directory: SystemPath,
    pub matcher: Gitignore,
}

impl View for GitignoreEntry {
    type V = Rules;

    open spec fn view(&self) -> Rules {
        Rules { directory: self.directory@, globs: matcher_globs(self.matcher) }
    }
}

impl GitignoreEntry {
    /// Whether the matcher is for the directory.
    pub open spec fn wf(self) -> bool {
        self.directory.wf() && is_for(self.matcher, self.directory@)
    }
}

/// The rules of entries.
pub open spec fn rules_of(entries: Seq<GitignoreEntry>) -> Seq<Rules> {
    Seq::new(entries.len(), |i: int| entries[i]@)
}

/// Whether all matchers are for their directories.
pub open spec fn entries_wf(entries: Seq<GitignoreEntry>) -> bool {
    forall|i: int| 0 <= i < entries.len() ==> (#[trigger] entries[i]).wf()
}

/// What rules say of a path in their directory.
pub open spec fn says(rules: Rules, path: Seq<Seq<char>>, is_directory: bool) -> Option<MatchKind> {
    if rules.globs.len() == 0 {
        None
    } else {
        match rule_verdict(
            paths::path_text(rules.directory),
            rules.globs,
            paths::path_text(path),
            is_directory,
        ) {
            None => None,
            Some(ignored) => Some(
                if ignored {
                    MatchKind::Ignore
                } else {
                    MatchKind::Whitelist
                },
            ),
        }
    }
}

/// Later rules win, where they speak of the path at all.
pub open spec fn folded(current: Option<MatchKind>, next: Option<MatchKind>) -> Option<MatchKind> {
    match next {
        Some(kind) => Some(kind),
        None => current,
    }
}

/// What several rules say of a path; those of directories that it does not lie in say nothing.
pub open spec fn all_say(
    rules: Seq<Rules>,
    path: Seq<Seq<char>>,
    is_directory: bool,
) -> Option<MatchKind>
    decreases rules.len(),
{
    if rules.len() == 0 {
        None
    } else {
        let before = all_say(rules.drop_last(), path, is_directory);
        let last = rules.last();
        if paths::lies_in(path, last.directory) {
            folded(before, says(last, path, is_directory))
        } else {
            before
        }
    }
}

/// Combines what was said so far with what comes next.
pub fn fold_match(current: Option<MatchKind>, next: Option<MatchKind>) -> (result: Option<
    MatchKind,
>)
    ensures
        result == folded(current, next),
{
    match next {
        None => current,
        Some(kind) => Some(kind),
    }
}

// ---------------------------------------------------------------------------------------------
// Paths below paths
// ---------------------------------------------------------------------------------------------

proof fn lemma_joined_prefix(names: Seq<Seq<char>>, count: int)
    requires
        0 < count < names.len(),
    ensures
        ({
            let front = text::joined(names.take(count), "/"@);
            let all = text::joined(names, "/"@);
            &&& front.len() + 1 + names[count].len() <= all.len()
            &&& forall|i: int| 0 <= i < front.len() ==> #[trigger] all[i] == front[i]
            &&& all[front.len() as int] == '/'
            &&& forall|i: int|
                0 <= i < names[count].len() ==> #[trigger] all[front.len() + 1 + i]
                    == names[count][i]
        }),
    decreases names.len(),
{
    reveal_strlit("/");
    let init = names.drop_last();
    if count == names.len() - 1 {
        assert(names.take(count) =~= init);
    } else {
        lemma_joined_prefix(init, count);
        assert(init.take(count) =~= names.take(count));
        assert(init[count] == names[count]);
        let front = text::joined(names.take(count), "/"@);
        let before = text::joined(init, "/"@);
        let all = text::joined(names, "/"@);
        assert(all == before + "/"@ + names.last());
        assert forall|i: int| 0 <= i < before.len() implies all[i] == before[i] by {}
    }
}

/// What lies in a directory lies below its text.
proof fn lemma_below(directory: Seq<Seq<char>>, path: Seq<Seq<char>>)
    requires
        paths::is_path(path),
        paths::lies_in(path, directory),
    ensures
        is_below(paths::path_text(directory), paths::path_text(path)),
{
    reveal_strlit("/");
    let root = paths::path_text(directory);
    let whole = paths::path_text(path);
    let count = directory.len() as int;
    assert(directory =~= path.take(count));
    if count == path.len() {
        assert(directory =~= path);
        assert(whole.skip(root.len() as int) =~= Seq::empty());
        assert(root =~= whole.subrange(0, root.len() as int));
    } else if count == 0 {
        assert(text::joined(directory, "/"@) =~= Seq::empty());
        assert(root =~= "/"@);
        assert(root =~= whole.subrange(0, 1));
        lemma_joined_first(path);
        assert(paths::is_name(path[0]));
        let rest = whole.skip(1);
        assert(rest =~= text::joined(path, "/"@));
        assert(rest[0] == path[0][0]);
        assert(rest[0] != '/') by {
            if rest[0] == '/' {
                assert(path[0].contains(path[0][0]));
            }
        }
    } else {
        lemma_joined_prefix(path, count);
        let front = text::joined(directory, "/"@);
        let all = text::joined(path, "/"@);
        assert(root =~= whole.subrange(0, root.len() as int));
        let rest = whole.skip(root.len() as int);
        assert(rest[0] == all[front.len() as int]);
        assert(paths::is_name(path[count]));
        assert(rest.skip(1)[0] == all[front.len() as int + 1]);
        assert(all[front.len() as int + 1 + 0] == path[count][0]);
        assert(path[count].contains(path[count][0]));
    }
}

proof fn lemma_joined_first(names: Seq<Seq<char>>)
    requires
        names.len() > 0,
        names[0].len() > 0,
    ensures
        text::joined(names, "/"@).len() > 0,
        text::joined(names, "/"@)[0] == names[0][0],
    decreases names.len(),
{
    if names.len() > 1 {
        lemma_joined_first(names.drop_last());
    }
}

// ---------------------------------------------------------------------------------------------
// Matching
// ---------------------------------------------------------------------------------------------

/// What a matcher of a directory says of a path in it.
pub fn match_rules(matcher: &Gitignore, directory: &SystemPath, path: &SystemPath, is_directory: bool) -> (
result: Option<MatchKind>)
    requires
        is_for(*matcher, directory@),
        path.wf(),
        paths::lies_in(path@, directory@),
    ensures
        result == says(
            Rules { directory: directory@, globs: matcher_globs(*matcher) },
            path@,
            is_directory,
        ),
{
    proof {
        lemma_below(directory@, path@);
    }
    let text = path.to_text();
    match matched(matcher, text.as_str(), is_directory) {
        None => None,
        Some(true) => Some(MatchKind::Ignore),
        Some(false) => Some(MatchKind::Whitelist),
    }
}

/// What entries say of a path; those of directories that it does not lie in say nothing.
pub fn match_gitignore_entries(
    entries: &Vec<GitignoreEntry>,
    path: &SystemPath,
    is_directory: bool,
) -> (result: Option<MatchKind>)
    requires
        entries_wf(entries@),
        path.wf(),
    ensures
        result == all_say(rules_of(entries@), path@, is_directory),
{
    let ghost rules = rules_of(entries@);
    let mut result: Option<MatchKind> = None;
    let mut i: usize = 0;
    while i < entries.len()
        invariant
            i <= entries@.len(),
            rules == rules_of(entries@),
            entries_wf(entries@),
            path.wf(),
            result == all_say(rules.take(i as int), path@, is_directory),
        decreases entries@.len() - i,
    {
        let entry = &entries[i];
        proof {
            assert(entries@[i as int].wf());
            assert(rules.take(i as int + 1).drop_last() =~= rules.take(i as int));
            assert(rules.take(i as int + 1).last() == entry@);
        }
        if path.starts_with(&entry.directory) {
            result = fold_match(
                result,
                match_rules(&entry.matcher, &entry.directory, path, is_directory),
            );
        }
        i += 1;
    }
    assert(rules.take(rules.len() as int) =~= rules);
    result
}

// ---------------------------------------------------------------------------------------------
// Building
// ---------------------------------------------------------------------------------------------

/// The globs of lines, in order.
pub open spec fn globs_of(lines: Seq<Seq<char>>) -> Seq<Seq<char>>
    decreases lines.len(),
{
    if lines.len() == 0 {
        Seq::empty()
    } else {
        let before = globs_of(lines.drop_last());
        match glob_of(lines.last()) {
            Some(glob) => before.push(glob),
            None => before,
        }
    }
}

/// Whether lines make a matcher: each is a rule, and their globs compile together.
pub open spec fn are_rules(lines: Seq<Seq<char>>) -> bool {
    (forall|i: int| 0 <= i < lines.len() ==> is_rule(#[trigger] lines[i])) && (globs_of(lines).len()
        == 0 || compiles(globs_of(lines)))
}

/// Makes a matcher of lines.
pub fn build_rules(directory: &SystemPath, from: Option<&str>, lines: &Vec<String>) -> (result:
    Result<Gitignore, ignore::Error>)
    ensures
        match result {
            Ok(matcher) => are_rules(order::keys(lines@)) && is_for(matcher, directory@)
                && matcher_globs(matcher) == globs_of(order::keys(lines@)),
            Err(_) => !are_rules(order::keys(lines@)),
        },
{
    let ghost all = order::keys(lines@);
    let text = directory.to_text();
    proof {
        reveal_strlit("/");
    }
    let mut builder = new_builder(text.as_str());
    let mut i: usize = 0;
    assert(all.take(0) =~= Seq::empty());
    while i < lines.len()
        invariant
            i <= lines@.len(),
            all == order::keys(lines@),
            builder_root(builder) == paths::path_text(directory@),
            builder_globs(builder) == globs_of(all.take(i as int)),
            forall|k: int| 0 <= k < i ==> is_rule(#[trigger] all[k]),
        decreases lines@.len() - i,
    {
        let line = lines[i].as_str();
        proof {
            assert(all[i as int] == line@);
            assert(all.take(i as int + 1).drop_last() =~= all.take(i as int));
            assert(all.take(i as int + 1).last() == line@);
        }
        match add_line(&mut builder, from, line) {
            Ok(_) => {},
            Err(error) => {
                return Err(error);
            },
        }
        i += 1;
    }
    assert(all.take(all.len() as int) =~= all);
    build(&builder)
}

// ---------------------------------------------------------------------------------------------
// Lines
// ---------------------------------------------------------------------------------------------

/// The lines of a text with the part behind its last line feed, split at line feeds.
pub open spec fn split_lines(text: Seq<char>) -> Seq<Seq<char>>
    decreases text.len(),
{
    if text.len() == 0 {
        seq![Seq::empty()]
    } else {
        let before = split_lines(text.drop_last());
        if text.last() == '\n' {
            before.push(Seq::empty())
        } else {
            before.drop_last().push(before.last().push(text.last()))
        }
    }
}

/// A line that a line feed ends, without the carriage return in front of it.
pub open spec fn line_content(line: Seq<char>) -> Seq<char> {
    if line.len() > 0 && line.last() == '\r' {
        line.drop_last()
    } else {
        line
    }
}

/// The lines of a text, without what ends them; what follows the last line feed is a line unless it
/// is empty.
pub open spec fn lines_of(text: Seq<char>) -> Seq<Seq<char>> {
    let parts = split_lines(text);
    let ended = Seq::new((parts.len() - 1) as nat, |i: int| line_content(parts[i]));
    if parts.last().len() == 0 {
        ended
    } else {
        ended.push(parts.last())
    }
}

/// The lines of a text.
pub fn text_lines(text: &str) -> (lines: Vec<String>)
    ensures
        order::keys(lines@) == lines_of(text@),
{
    let mut lines: Vec<String> = Vec::new();
    // The current line, but for a carriage return that may end it.
    let mut current = String::new();
    let mut returned = false;
    let mut rest = text.chars();
    let ghost mut at: int = 0;
    let ghost mut parts: Seq<Seq<char>> = seq![Seq::empty()];
    proof {
        assert(text@.skip(0) =~= text@);
        assert(text@.take(0) =~= Seq::empty());
        assert(order::keys(lines@) =~= Seq::new(
            (parts.len() - 1) as nat,
            |i: int| line_content(parts[i]),
        ));
    }
    loop
        invariant
            0 <= at <= text@.len(),
            vstd::std_specs::iter::IteratorSpec::remaining(&rest) == text@.skip(at),
            parts == split_lines(text@.take(at)),
            parts.len() > 0,
            parts.last() == if returned {
                current@.push('\r')
            } else {
                current@
            },
            !returned && current@.len() > 0 ==> current@.last() != '\r',
            order::keys(lines@) == Seq::new(
                (parts.len() - 1) as nat,
                |i: int| line_content(parts[i]),
            ),
        decreases text@.len() - at,
    {
        match rest.next() {
            None => {
                assert(text@.take(at) =~= text@);
                let ghost before = lines@;
                if returned {
                    current.push('\r');
                }
                if current.as_str().unicode_len() > 0 {
                    lines.push(current);
                    assert(order::keys(lines@) =~= order::keys(before).push(parts.last()));
                }
                return lines;
            },
            Some(c) => {
                let ghost before = lines@;
                let ghost held = current@;
                let ghost earlier = parts;
                proof {
                    assert(c == text@[at]);
                    assert(text@.take(at + 1).drop_last() =~= text@.take(at));
                    assert(text@.take(at + 1).last() == c);
                    assert(held.push('\r').drop_last() =~= held);
                    assert(line_content(earlier.last()) == held);
                    parts = split_lines(text@.take(at + 1));
                }
                if c == '\n' {
                    lines.push(current);
                    current = String::new();
                    returned = false;
                    proof {
                        assert(parts == earlier.push(Seq::empty()));
                        assert(order::keys(lines@) =~= order::keys(before).push(held));
                        assert(order::keys(lines@) =~= Seq::new(
                            (parts.len() - 1) as nat,
                            |i: int| line_content(parts[i]),
                        ));
                    }
                } else {
                    if returned {
                        current.push('\r');
                    }
                    if c == '\r' {
                        returned = true;
                    } else {
                        current.push(c);
                        returned = false;
                    }
                    proof {
                        assert(parts == earlier.drop_last().push(earlier.last().push(c)));
                        assert(order::keys(lines@) =~= Seq::new(
                            (parts.len() - 1) as nat,
                            |i: int| line_content(parts[i]),
                        ));
                    }
                }
                proof {
                    assert(text@.skip(at).drop_first() =~= text@.skip(at + 1));
                    at = at + 1;
                }
            },
        }
    }
}

} // verus!

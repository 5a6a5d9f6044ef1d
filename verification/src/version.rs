//! The version in a package manifest.

use vstd::prelude::*;

use crate::ignores;
use crate::order;
use crate::text;

verus! {

broadcast use vstd::string::group_string_axioms;

/// Whether a character is white space.
pub open spec fn is_white_space(c: char) -> bool {
    ('\t' <= c <= '\r') || c == ' ' || c == '\u{85}' || c == '\u{a0}' || c == '\u{1680}' || (
    '\u{2000}' <= c <= '\u{200a}') || c == '\u{2028}' || c == '\u{2029}' || c == '\u{202f}' || c
        == '\u{205f}' || c == '\u{3000}'
}

/// A text without the characters at its start that are to go.
pub open spec fn trimmed_start(text: Seq<char>, goes: spec_fn(char) -> bool) -> Seq<char>
    decreases text.len(),
{
    if text.len() > 0 && goes(text[0]) {
        trimmed_start(text.drop_first(), goes)
    } else {
        text
    }
}

/// A text without the characters at its end that are to go.
pub open spec fn trimmed_end(text: Seq<char>, goes: spec_fn(char) -> bool) -> Seq<char>
    decreases text.len(),
{
    if text.len() > 0 && goes(text.last()) {
        trimmed_end(text.drop_last(), goes)
    } else {
        text
    }
}

/// White space.
pub open spec fn white_space() -> spec_fn(char) -> bool {
    |c: char| is_white_space(c)
}

/// Quotation marks.
pub open spec fn quotes() -> spec_fn(char) -> bool {
    |c: char| c == '"'
}

/// A value without the white space around it and the quotation marks around that.
pub open spec fn unquoted(value: Seq<char>) -> Seq<char> {
    let bare = trimmed_end(trimmed_start(value, white_space()), white_space());
    trimmed_end(trimmed_start(bare, quotes()), quotes())
}

/// The version that is given first in the package section of lines, from a place on.
pub open spec fn version_from(
    lines: Seq<Seq<char>>,
    in_package: bool,
    at: int,
) -> Option<Seq<char>>
    decreases lines.len() - at,
{
    if at < 0 || at >= lines.len() {
        None
    } else if lines[at] == "[package]"@ {
        version_from(lines, true, at + 1)
    } else if "["@.is_prefix_of(lines[at]) {
        version_from(lines, false, at + 1)
    } else if in_package && "version ="@.is_prefix_of(lines[at]) {
        Some(unquoted(lines[at].skip(9)))
    } else {
        version_from(lines, in_package, at + 1)
    }
}

/// Whether a character is white space.
fn is_space(c: char) -> (found: bool)
    ensures
        found == is_white_space(c),
{
    ('\t' <= c && c <= '\r') || c == ' ' || c == '\u{85}' || c == '\u{a0}' || c == '\u{1680}' || (
    '\u{2000}' <= c && c <= '\u{200a}') || c == '\u{2028}' || c == '\u{2029}' || c == '\u{202f}'
        || c == '\u{205f}' || c == '\u{3000}'
}

/// The characters of a text.
fn characters(text: &str) -> (characters: Vec<char>)
    ensures
        characters@ == text@,
{
    let mut characters: Vec<char> = Vec::new();
    let mut rest = text.chars();
    let ghost mut at: int = 0;
    assert(text@.skip(0) =~= text@);
    assert(text@.take(0) =~= Seq::empty());
    loop
        invariant
            0 <= at <= text@.len(),
            vstd::std_specs::iter::IteratorSpec::remaining(&rest) == text@.skip(at),
            characters@ == text@.take(at),
        decreases text@.len() - at,
    {
        match rest.next() {
            None => {
                assert(text@.take(at) =~= text@);
                return characters;
            },
            Some(c) => {
                characters.push(c);
                proof {
                    assert(c == text@.skip(at)[0]);
                    assert(text@.skip(at).skip(1) =~= text@.skip(at + 1));
                    assert(characters@ =~= text@.take(at + 1));
                    at = at + 1;
                }
            },
        }
    }
}

/// The part of a text from a place on.
pub open spec fn part(characters: Seq<char>, start: int, end: int) -> Seq<char> {
    characters.subrange(start, end)
}

/// Reads a value without the white space around it and the quotation marks around that.
fn unquote(characters: &Vec<char>, from: usize) -> (value: String)
    requires
        from <= characters@.len(),
    ensures
        value@ == unquoted(characters@.skip(from as int)),
{
    let mut start: usize = from;
    let mut end: usize = characters.len();
    let ghost whole = characters@.skip(from as int);
    assert(whole =~= part(characters@, start as int, end as int));
    while start < end && is_space(characters[start])
        invariant
            start <= end,
            end == characters@.len(),
            trimmed_start(whole, white_space()) == trimmed_start(
                part(characters@, start as int, end as int),
                white_space(),
            ),
        decreases end - start,
    {
        assert(part(characters@, start as int, end as int).drop_first() =~= part(
            characters@,
            start as int + 1,
            end as int,
        ));
        start += 1;
    }
    let ghost left = part(characters@, start as int, end as int);
    while start < end && is_space(characters[end - 1])
        invariant
            start <= end,
            end <= characters@.len(),
            trimmed_end(left, white_space()) == trimmed_end(
                part(characters@, start as int, end as int),
                white_space(),
            ),
        decreases end - start,
    {
        assert(part(characters@, start as int, end as int).drop_last() =~= part(
            characters@,
            start as int,
            end as int - 1,
        ));
        end -= 1;
    }
    let ghost bare = part(characters@, start as int, end as int);
    while start < end && characters[start] == '"'
        invariant
            start <= end,
            end <= characters@.len(),
            trimmed_start(bare, quotes()) == trimmed_start(
                part(characters@, start as int, end as int),
                quotes(),
            ),
        decreases end - start,
    {
        assert(part(characters@, start as int, end as int).drop_first() =~= part(
            characters@,
            start as int + 1,
            end as int,
        ));
        start += 1;
    }
    let ghost right = part(characters@, start as int, end as int);
    while start < end && characters[end - 1] == '"'
        invariant
            start <= end,
            end <= characters@.len(),
            trimmed_end(right, quotes()) == trimmed_end(
                part(characters@, start as int, end as int),
                quotes(),
            ),
        decreases end - start,
    {
        assert(part(characters@, start as int, end as int).drop_last() =~= part(
            characters@,
            start as int,
            end as int - 1,
        ));
        end -= 1;
    }
    let mut value = String::new();
    let mut i: usize = start;
    assert(value@ =~= part(characters@, start as int, i as int));
    while i < end
        invariant
            start <= i <= end,
            end <= characters@.len(),
            value@ == part(characters@, start as int, i as int),
        decreases end - i,
    {
        value.push(characters[i]);
        assert(value@ =~= part(characters@, start as int, i as int + 1));
        i += 1;
    }
    value
}

/// Reads the version that a package manifest gives.
pub fn ruff_version_info(manifest: &str) -> (version: Option<String>)
    ensures
        match (version, version_from(ignores::lines_of(manifest@), false, 0)) {
            (Some(version), Some(expected)) => version@ == expected,
            (None, None) => true,
            _ => false,
        },
{
    let lines = ignores::text_lines(manifest);
    let ghost all = ignores::lines_of(manifest@);
    let mut in_package = false;
    let mut i: usize = 0;
    while i < lines.len()
        invariant
            i <= lines@.len(),
            all == ignores::lines_of(manifest@),
            all == order::keys(lines@),
            version_from(all, false, 0) == version_from(all, in_package, i as int),
        decreases lines@.len() - i,
    {
        let line = lines[i].as_str();
        assert(all[i as int] == line@);
        if text::same_text(line, "[package]") {
            in_package = true;
        } else if text::has_prefix(line, "[") {
            in_package = false;
        } else if in_package && text::has_prefix(line, "version =") {
            proof {
                reveal_strlit("version =");
            }
            return Some(unquote(&characters(line), 9));
        }
        i += 1;
    }
    None
}

} // verus!

//! Suppression directives in comments: `# chalk: ignore[unsupported-function]`.

use vstd::prelude::*;

use crate::semantic::Definition;
use crate::syntax;
use crate::syntax::{Child, Stmt, StmtKind};
use crate::text;
use crate::text::TextRange;

verus! {

broadcast use vstd::string::group_string_axioms;

/// A diagnostic that a directive can switch off.
#[derive(Clone, Copy, Debug, PartialEq, Eq, Structural)]
pub enum SuppressionCode {
    UnsupportedFunction,
}

/// Why a comment that addresses the analysis is not a directive, or why one of its codes is refused.
#[derive(Clone, Copy, Debug, PartialEq, Eq, Hash, Structural)]
pub enum InvalidSuppressionReason {
    ExpectedIgnore,
    Blanket,
    ExpectedCodeList,
    MissingClosingBracket,
    EmptyCodeList,
    MalformedCodeList,
    TrailingContent,
    UnsuppressibleCode,
}

/// What is wrong with a directive.
#[derive(Clone, Copy, Debug, PartialEq, Eq, Structural)]
pub enum SuppressionProblemKind {
    Invalid(InvalidSuppressionReason),
    UnknownCode,
}

/// A problem with a directive and the part of the source it lies in.
#[derive(Clone, Copy, Debug, PartialEq, Eq, Structural)]
pub struct SuppressionProblem {
    pub range: TextRange,
    pub kind: SuppressionProblemKind,
}

/// A directive that reads as one.
#[derive(Clone, Copy, Debug, PartialEq, Eq, Structural)]
pub struct ParsedDirective {
    pub range: TextRange,
    pub line: usize,
    pub own_line: bool,
    pub suppresses_unsupported_function: bool,
}

// ---------------------------------------------------------------------------------------------
// Bytes
// ---------------------------------------------------------------------------------------------

/// ASCII white space: space, tab, line feed, form feed, carriage return.
pub open spec fn is_space(byte: u8) -> bool {
    byte == 0x20 || byte == 0x09 || byte == 0x0a || byte == 0x0c || byte == 0x0d
}

/// A byte that may stand in a suppression code: an ASCII letter, digit or hyphen.
pub open spec fn is_word(byte: u8) -> bool {
    0x30 <= byte <= 0x39 || 0x41 <= byte <= 0x5a || 0x61 <= byte <= 0x7a || byte == 0x2d
}

/// The first position from `at` on that holds no white space.
pub open spec fn skip_space(bytes: Seq<u8>, at: int) -> int
    decreases bytes.len() - at,
{
    if 0 <= at < bytes.len() && is_space(bytes[at]) {
        skip_space(bytes, at + 1)
    } else {
        at
    }
}

/// The end of `from..end` without the white space at its back.
pub open spec fn space_trimmed(bytes: Seq<u8>, from: int, end: int) -> int
    decreases end - from,
{
    if from < end && is_space(bytes[end - 1]) {
        space_trimmed(bytes, from, end - 1)
    } else {
        end
    }
}

/// The start of `from..end` without the white space at its front.
pub open spec fn space_led(bytes: Seq<u8>, from: int, end: int) -> int
    decreases end - from,
{
    if from < end && is_space(bytes[from]) {
        space_led(bytes, from + 1, end)
    } else {
        from
    }
}

/// The first position in `from..end` that holds `byte`, or `end`.
pub open spec fn first_of(bytes: Seq<u8>, byte: u8, from: int, end: int) -> int
    decreases end - from,
{
    if from < end && bytes[from] != byte {
        first_of(bytes, byte, from + 1, end)
    } else if from < end {
        from
    } else {
        end
    }
}

/// Whether `word` stands at a position.
pub open spec fn has_at(bytes: Seq<u8>, at: int, word: Seq<u8>) -> bool {
    at + word.len() <= bytes.len() && bytes.subrange(at, at + word.len()) == word
}

/// The UTF-8 bytes of a text.
pub open spec fn utf8(text: Seq<char>) -> Seq<u8> {
    vstd::utf8::encode_utf8(text)
}

/// How many bytes the white-space character at the front of UTF-8 text takes; nothing where the
/// text does not begin with white space.
pub open spec fn blank_width(bytes: Seq<u8>) -> int {
    if bytes.len() >= 1 && (0x09 <= bytes[0] <= 0x0d || bytes[0] == 0x20) {
        1
    } else if bytes.len() >= 2 && bytes[0] == 0xc2 && (bytes[1] == 0x85 || bytes[1] == 0xa0) {
        2
    } else if bytes.len() >= 3 && ((bytes[0] == 0xe1 && bytes[1] == 0x9a && bytes[2] == 0x80) || (
    bytes[0] == 0xe2 && bytes[1] == 0x80 && (0x80 <= bytes[2] <= 0x8a || bytes[2] == 0xa8
        || bytes[2] == 0xa9 || bytes[2] == 0xaf)) || (bytes[0] == 0xe2 && bytes[1] == 0x81
        && bytes[2] == 0x9f) || (bytes[0] == 0xe3 && bytes[1] == 0x80 && bytes[2] == 0x80)) {
        3
    } else {
        0
    }
}

/// Whether UTF-8 text holds nothing but Unicode white space.
pub open spec fn is_blank(bytes: Seq<u8>) -> bool
    decreases bytes.len(),
{
    bytes.len() == 0 || (blank_width(bytes) > 0 && is_blank(bytes.skip(blank_width(bytes))))
}

/// How many lines end in a text.
pub open spec fn newlines(bytes: Seq<u8>) -> nat
    decreases bytes.len(),
{
    if bytes.len() == 0 {
        0
    } else {
        newlines(bytes.drop_last()) + if bytes.last() == 0x0a {
            1nat
        } else {
            0
        }
    }
}

/// The number of the line that an offset lies on.
pub open spec fn line_of(bytes: Seq<u8>, offset: int) -> nat {
    newlines(bytes.take(offset))
}

/// Where the line that an offset lies on begins.
pub open spec fn line_begin(bytes: Seq<u8>, offset: int) -> int
    decreases offset,
{
    if offset <= 0 || bytes[offset - 1] == 0x0a {
        offset
    } else {
        line_begin(bytes, offset - 1)
    }
}

fn is_ascii_space(byte: u8) -> (space: bool)
    ensures
        space == is_space(byte),
{
    byte == 0x20 || byte == 0x09 || byte == 0x0a || byte == 0x0c || byte == 0x0d
}

fn is_code_byte(byte: u8) -> (word: bool)
    ensures
        word == is_word(byte),
{
    (0x30 <= byte && byte <= 0x39) || (0x41 <= byte && byte <= 0x5a) || (0x61 <= byte && byte
        <= 0x7a) || byte == 0x2d
}

fn skip_whitespace(bytes: &[u8], from: usize) -> (at: usize)
    requires
        from <= bytes@.len(),
    ensures
        at == skip_space(bytes@, from as int),
        from <= at <= bytes@.len(),
{
    let mut at: usize = from;
    while at < bytes.len() && is_ascii_space(bytes[at])
        invariant
            from <= at <= bytes.len(),
            skip_space(bytes@, at as int) == skip_space(bytes@, from as int),
        decreases bytes.len() - at,
    {
        at = at + 1;
    }
    at
}

fn trimmed_end(bytes: &[u8], start: usize) -> (end: usize)
    requires
        start <= bytes@.len(),
    ensures
        end == space_trimmed(bytes@, start as int, bytes@.len() as int),
        start <= end <= bytes@.len(),
{
    let mut end: usize = bytes.len();
    while end > start && is_ascii_space(bytes[end - 1])
        invariant
            start <= end <= bytes.len(),
            space_trimmed(bytes@, start as int, end as int) == space_trimmed(
                bytes@,
                start as int,
                bytes@.len() as int,
            ),
        decreases end,
    {
        end = end - 1;
    }
    end
}

/// The part of `from..to` without the white space at either side.
pub open spec fn trimmed(bytes: Seq<u8>, from: int, to: int) -> (int, int) {
    let start = space_led(bytes, from, to);
    (start, space_trimmed(bytes, start, to))
}

fn trim(bytes: &[u8], from: usize, to: usize) -> (part: (usize, usize))
    requires
        from <= to <= bytes@.len(),
    ensures
        (part.0 as int, part.1 as int) == trimmed(bytes@, from as int, to as int),
        from <= part.0 <= part.1 <= to,
{
    let mut start: usize = from;
    while start < to && is_ascii_space(bytes[start])
        invariant
            from <= start <= to <= bytes.len(),
            space_led(bytes@, start as int, to as int) == space_led(
                bytes@,
                from as int,
                to as int,
            ),
        decreases to - start,
    {
        start = start + 1;
    }
    let mut end: usize = to;
    while end > start && is_ascii_space(bytes[end - 1])
        invariant
            start <= end <= to <= bytes.len(),
            space_trimmed(bytes@, start as int, end as int) == space_trimmed(
                bytes@,
                start as int,
                to as int,
            ),
        decreases end,
    {
        end = end - 1;
    }
    (start, end)
}

fn find_byte(bytes: &[u8], byte: u8, from: usize, to: usize) -> (at: usize)
    requires
        from <= to <= bytes@.len(),
    ensures
        at == first_of(bytes@, byte, from as int, to as int),
        from <= at <= to,
        at < to ==> bytes@[at as int] == byte,
{
    let mut at: usize = from;
    while at < to && bytes[at] != byte
        invariant
            from <= at <= to <= bytes.len(),
            first_of(bytes@, byte, at as int, to as int) == first_of(
                bytes@,
                byte,
                from as int,
                to as int,
            ),
        decreases to - at,
    {
        at = at + 1;
    }
    at
}

fn starts_with_at(bytes: &[u8], at: usize, word: &[u8]) -> (found: bool)
    requires
        at <= bytes@.len(),
    ensures
        found == has_at(bytes@, at as int, word@),
{
    if bytes.len() - at < word.len() {
        return false;
    }
    let ghost part = bytes@.subrange(at as int, at + word@.len());
    let mut i: usize = 0;
    while i < word.len()
        invariant
            i <= word.len(),
            at + word.len() <= bytes.len(),
            part == bytes@.subrange(at as int, at + word@.len()),
            forall|j: int| 0 <= j < i ==> #[trigger] part[j] == word@[j],
        decreases word.len() - i,
    {
        if bytes[at + i] != word[i] {
            assert(part[i as int] != word@[i as int]);
            return false;
        }
        i = i + 1;
    }
    assert(part =~= word@);
    true
}

fn is_blank_text(bytes: &[u8], from: usize, to: usize) -> (blank: bool)
    requires
        from <= to <= bytes@.len(),
    ensures
        blank == is_blank(bytes@.subrange(from as int, to as int)),
{
    let ghost whole = bytes@.subrange(from as int, to as int);
    let mut at: usize = from;
    assert(bytes@.subrange(at as int, to as int) =~= whole);
    while at < to
        invariant
            from <= at <= to <= bytes.len(),
            whole == bytes@.subrange(from as int, to as int),
            is_blank(bytes@.subrange(at as int, to as int)) == is_blank(whole),
        decreases to - at,
    {
        let ghost rest = bytes@.subrange(at as int, to as int);
        let left: usize = to - at;
        let first = bytes[at];
        let width: usize = if (0x09 <= first && first <= 0x0d) || first == 0x20 {
            1
        } else if left >= 2 && first == 0xc2 && (bytes[at + 1] == 0x85 || bytes[at + 1] == 0xa0) {
            2
        } else if left >= 3 && ((first == 0xe1 && bytes[at + 1] == 0x9a && bytes[at + 2] == 0x80)
            || (first == 0xe2 && bytes[at + 1] == 0x80 && ((0x80 <= bytes[at + 2] && bytes[at + 2]
            <= 0x8a) || bytes[at + 2] == 0xa8 || bytes[at + 2] == 0xa9 || bytes[at + 2] == 0xaf))
            || (first == 0xe2 && bytes[at + 1] == 0x81 && bytes[at + 2] == 0x9f) || (first == 0xe3
            && bytes[at + 1] == 0x80 && bytes[at + 2] == 0x80)) {
            3
        } else {
            0
        };
        assert(width == blank_width(rest));
        if width == 0 {
            return false;
        }
        assert(rest.skip(width as int) =~= bytes@.subrange(at + width, to as int));
        at = at + width;
    }
    assert(bytes@.subrange(at as int, to as int).len() == 0);
    true
}

// ---------------------------------------------------------------------------------------------
// Lines
// ---------------------------------------------------------------------------------------------

/// Where the lines of a source text begin.
#[derive(Debug)]
pub struct Lines {
    pub starts: Vec<u32>,
}

/// A line begins at the front of the text or behind a line feed, and its number counts those.
pub open spec fn begins_line(bytes: Seq<u8>, start: int, line: int) -> bool {
    &&& 0 <= start <= bytes.len()
    &&& start == 0 || bytes[start - 1] == 0x0a
    &&& newlines(bytes.take(start)) == line
}

proof fn lemma_newlines_step(bytes: Seq<u8>, i: int)
    requires
        0 <= i < bytes.len(),
    ensures
        newlines(bytes.take(i + 1)) == newlines(bytes.take(i)) + if bytes[i] == 0x0a {
            1nat
        } else {
            0
        },
{
    assert(bytes.take(i + 1).drop_last() =~= bytes.take(i));
}

proof fn lemma_newlines_monotone(bytes: Seq<u8>, i: int, j: int)
    requires
        0 <= i <= j <= bytes.len(),
    ensures
        newlines(bytes.take(i)) <= newlines(bytes.take(j)),
    decreases j - i,
{
    if i < j {
        lemma_newlines_step(bytes, j - 1);
        lemma_newlines_monotone(bytes, i, j - 1);
    }
}

/// Between the start of a line and an offset that a later line's start does not precede, no line
/// ends.
proof fn lemma_line_between(bytes: Seq<u8>, start: int, line: int, offset: int)
    requires
        begins_line(bytes, start, line),
        start <= offset <= bytes.len(),
        forall|p: int| start < p <= offset ==> !#[trigger] begins_line(bytes, p, line + 1),
    ensures
        newlines(bytes.take(offset)) == line,
        line_begin(bytes, offset) == start,
    decreases offset - start,
{
    if start < offset {
        lemma_line_between(bytes, start, line, offset - 1);
        lemma_newlines_step(bytes, offset - 1);
        assert(!begins_line(bytes, offset, line + 1));
    }
}

impl Lines {
    /// The starts are those of the lines of a text, in order.
    pub open spec fn of(self, bytes: Seq<u8>) -> bool {
        &&& self.starts@.len() == newlines(bytes) + 1
        &&& forall|k: int|
            0 <= k < self.starts@.len() ==> begins_line(
                bytes,
                (#[trigger] self.starts@[k]) as int,
                k,
            )
    }

    /// Finds where the lines of a text begin.
    pub fn new(source: &str) -> (lines: Self)
        requires
            utf8(source@).len() <= u32::MAX,
        ensures
            lines.of(utf8(source@)),
    {
        let bytes = source.as_bytes();
        let mut starts: Vec<u32> = Vec::new();
        starts.push(0);
        let mut i: usize = 0;
        proof {
            assert(bytes@.take(0) =~= Seq::<u8>::empty());
        }
        while i < bytes.len()
            invariant
                i <= bytes.len(),
                bytes@.len() <= u32::MAX,
                starts@.len() == newlines(bytes@.take(i as int)) + 1,
                forall|k: int|
                    0 <= k < starts@.len() ==> begins_line(
                        bytes@,
                        (#[trigger] starts@[k]) as int,
                        k,
                    ),
            decreases bytes.len() - i,
        {
            proof {
                lemma_newlines_step(bytes@, i as int);
            }
            if bytes[i] == 0x0a {
                starts.push((i + 1) as u32);
            }
            i = i + 1;
        }
        assert(bytes@.take(bytes@.len() as int) =~= bytes@);
        Lines { starts }
    }

    /// The number of the line that an offset lies on, and where that line begins.
    fn locate(&self, offset: u32, Ghost(bytes): Ghost<Seq<u8>>) -> (place: (usize, u32))
        requires
            self.of(bytes),
            offset <= bytes.len(),
        ensures
            place.0 == line_of(bytes, offset as int),
            place.1 == line_begin(bytes, offset as int),
            place.1 <= offset,
    {
        let mut line: usize = 0;
        proof {
            assert(begins_line(bytes, self.starts@[0] as int, 0));
            if self.starts@[0] > 0 {
                lemma_newlines_step(bytes, self.starts@[0] - 1);
            }
        }
        while line + 1 < self.starts.len() && self.starts[line + 1] <= offset
            invariant
                self.of(bytes),
                line < self.starts.len(),
                self.starts@[line as int] <= offset <= bytes.len(),
            decreases self.starts.len() - line,
        {
            line = line + 1;
        }
        proof {
            let start = self.starts@[line as int] as int;
            assert(begins_line(bytes, start, line as int));
            assert forall|p: int| start < p <= offset implies !#[trigger] begins_line(
                bytes,
                p,
                line + 1,
            ) by {
                if begins_line(bytes, p, line + 1) {
                    if line + 1 < self.starts@.len() {
                        let next = self.starts@[line + 1] as int;
                        assert(begins_line(bytes, next, line + 1));
                        lemma_newlines_step(bytes, next - 1);
                        lemma_newlines_monotone(bytes, p, next - 1);
                    } else {
                        lemma_newlines_monotone(bytes, p, bytes.len() as int);
                        assert(bytes.take(bytes.len() as int) =~= bytes);
                    }
                }
            }
            lemma_line_between(bytes, start, line as int, offset as int);
        }
        (line, self.starts[line])
    }
}

// ---------------------------------------------------------------------------------------------
// Comments
// ---------------------------------------------------------------------------------------------

/// What a comment says to the analysis.
pub enum Reading {
    /// It is not addressed to the analysis.
    Unrelated,
    /// It is addressed to the analysis, and the bytes `start..end` of it are wrong.
    Invalid { start: int, end: int, reason: InvalidSuppressionReason },
    /// It lists codes, each at its place.
    Codes { codes: Seq<(int, int)> },
}

/// The codes of a comma-separated list, or the place at which it is malformed.
pub open spec fn read_codes(bytes: Seq<u8>, first: int, from: int, close: int) -> Result<
    Seq<(int, int)>,
    (int, int),
>
    decreases close - from,
{
    let end = first_of(bytes, 0x2c, from, close);
    let (start, stop) = trimmed(bytes, from, end);
    if start == stop {
        if end < close {
            Err((end, end + 1))
        } else if from > first {
            Err((from - 1, from))
        } else {
            Err((start, stop))
        }
    } else if !(forall|i: int| start <= i < stop ==> is_word(#[trigger] bytes[i])) {
        Err((start, stop))
    } else if from <= end < close {
        match read_codes(bytes, first, end + 1, close) {
            Ok(rest) => Ok(seq![(start, stop)] + rest),
            Err(place) => Err(place),
        }
    } else {
        Ok(seq![(start, stop)])
    }
}

/// What the bracketed list that opens at `open` says.
pub open spec fn read_list(bytes: Seq<u8>, open: int) -> Reading {
    let len = bytes.len() as int;
    let close = first_of(bytes, 0x5d, open + 1, len);
    let after = skip_space(bytes, close + 1);
    let (start, stop) = trimmed(bytes, open + 1, close);
    if close == len {
        Reading::Invalid {
            start: open,
            end: len,
            reason: InvalidSuppressionReason::MissingClosingBracket,
        }
    } else if after != len {
        Reading::Invalid {
            start: after,
            end: space_trimmed(bytes, after, len),
            reason: InvalidSuppressionReason::TrailingContent,
        }
    } else if start == stop {
        Reading::Invalid {
            start: open,
            end: close + 1,
            reason: InvalidSuppressionReason::EmptyCodeList,
        }
    } else {
        match read_codes(bytes, open + 1, open + 1, close) {
            Ok(codes) => Reading::Codes { codes },
            Err((start, end)) => Reading::Invalid {
                start,
                end,
                reason: InvalidSuppressionReason::MalformedCodeList,
            },
        }
    }
}

/// What a comment says: `#`, `chalk:`, `ignore`, then codes in brackets, with white space between.
pub open spec fn read_comment(bytes: Seq<u8>) -> Reading {
    let len = bytes.len() as int;
    let address = skip_space(bytes, 1);
    let verb = skip_space(bytes, address + 6);
    let behind = verb + 6;
    let open = skip_space(bytes, behind);
    if !has_at(bytes, address, utf8("chalk:"@)) {
        Reading::Unrelated
    } else if !has_at(bytes, verb, utf8("ignore"@)) {
        Reading::Invalid {
            start: verb,
            end: space_trimmed(bytes, verb, len),
            reason: InvalidSuppressionReason::ExpectedIgnore,
        }
    } else if behind < len && is_word(bytes[behind]) {
        Reading::Invalid {
            start: behind,
            end: space_trimmed(bytes, behind, len),
            reason: InvalidSuppressionReason::ExpectedCodeList,
        }
    } else if open == len {
        Reading::Invalid { start: verb, end: behind, reason: InvalidSuppressionReason::Blanket }
    } else if bytes[open] != 0x5b {
        Reading::Invalid {
            start: open,
            end: space_trimmed(bytes, open, len),
            reason: InvalidSuppressionReason::ExpectedCodeList,
        }
    } else {
        read_list(bytes, open)
    }
}

/// A part of a comment, as a part of the source.
pub open spec fn absolute(base: int, part: (int, int)) -> TextRange {
    TextRange { start: (base + part.0) as u32, end: (base + part.1) as u32 }
}

/// Whether a listed code is that of the diagnostic that directives switch off.
pub open spec fn is_known_code(bytes: Seq<u8>, code: (int, int)) -> bool {
    bytes.subrange(code.0, code.1) == utf8("unsupported-function"@)
}

/// Whether the code of the diagnostic that directives switch off is listed.
pub open spec fn lists_known_code(bytes: Seq<u8>, codes: Seq<(int, int)>) -> bool {
    exists|i: int| 0 <= i < codes.len() && is_known_code(bytes, #[trigger] codes[i])
}

/// Whether a listed code is that of a diagnostic that no directive can switch off.
pub open spec fn is_unsuppressible_code(bytes: Seq<u8>, code: (int, int)) -> bool {
    bytes.subrange(code.0, code.1) == utf8("resolver-cycle"@)
}

/// What is wrong with a listed code that switches nothing off.
pub open spec fn code_problem(bytes: Seq<u8>, code: (int, int)) -> SuppressionProblemKind {
    if is_unsuppressible_code(bytes, code) {
        SuppressionProblemKind::Invalid(InvalidSuppressionReason::UnsuppressibleCode)
    } else {
        SuppressionProblemKind::UnknownCode
    }
}

/// The problems of listed codes: one for each that switches nothing off.
pub open spec fn code_problems(
    bytes: Seq<u8>,
    base: int,
    codes: Seq<(int, int)>,
) -> Seq<SuppressionProblem>
    decreases codes.len(),
{
    if codes.len() == 0 {
        Seq::empty()
    } else {
        let before = code_problems(bytes, base, codes.drop_last());
        if is_known_code(bytes, codes.last()) {
            before
        } else {
            before.push(
                SuppressionProblem {
                    range: absolute(base, codes.last()),
                    kind: code_problem(bytes, codes.last()),
                },
            )
        }
    }
}

/// The problems that reading a comment brings up.
pub open spec fn problems_of(bytes: Seq<u8>, base: int) -> Seq<SuppressionProblem> {
    match read_comment(bytes) {
        Reading::Unrelated => Seq::empty(),
        Reading::Invalid { start, end, reason } => seq![
            SuppressionProblem {
                range: absolute(base, (start, end)),
                kind: SuppressionProblemKind::Invalid(reason),
            },
        ],
        Reading::Codes { codes } => code_problems(bytes, base, codes),
    }
}

/// The directive that a comment of a source text is, if it is one.
pub open spec fn directive_of(source: Seq<u8>, range: TextRange) -> Option<ParsedDirective> {
    let bytes = source.subrange(range.start as int, range.end as int);
    match read_comment(bytes) {
        Reading::Codes { codes } => Some(
            ParsedDirective {
                range,
                line: line_of(source, range.start as int) as usize,
                own_line: is_blank(
                    source.subrange(line_begin(source, range.start as int), range.start as int),
                ),
                suppresses_unsupported_function: lists_known_code(bytes, codes),
            },
        ),
        _ => None,
    }
}

/// Places in a comment as pairs of numbers.
spec fn places(parts: Seq<(usize, usize)>) -> Seq<(int, int)> {
    Seq::new(parts.len(), |i: int| (parts[i].0 as int, parts[i].1 as int))
}

/// Reads the codes between brackets.
fn parse_codes(bytes: &[u8], first: usize, close: usize) -> (codes: Result<
    Vec<(usize, usize)>,
    (usize, usize),
>)
    requires
        first <= close < bytes@.len(),
    ensures
        match codes {
            Ok(codes) => read_codes(bytes@, first as int, first as int, close as int) == Ok::<
                Seq<(int, int)>,
                (int, int),
            >(places(codes@)) && forall|i: int|
                0 <= i < codes@.len() ==> (#[trigger] codes@[i]).0 <= codes@[i].1 <= bytes@.len(),
            Err(place) => read_codes(bytes@, first as int, first as int, close as int) == Err::<
                Seq<(int, int)>,
                (int, int),
            >((place.0 as int, place.1 as int)) && place.0 <= place.1 <= bytes@.len(),
        },
{
    let ghost whole = read_codes(bytes@, first as int, first as int, close as int);
    let mut codes: Vec<(usize, usize)> = Vec::new();
    let mut from: usize = first;
    proof {
        match whole {
            Ok(all) => {
                assert(places(codes@) + all =~= all);
            },
            Err(_) => {},
        }
    }
    loop
        invariant
            first <= from <= close < bytes@.len(),
            whole == read_codes(bytes@, first as int, first as int, close as int),
            match read_codes(bytes@, first as int, from as int, close as int) {
                Ok(rest) => whole == Ok::<Seq<(int, int)>, (int, int)>(places(codes@) + rest),
                Err(place) => whole == Err::<Seq<(int, int)>, (int, int)>(place),
            },
            forall|i: int|
                0 <= i < codes@.len() ==> (#[trigger] codes@[i]).0 <= codes@[i].1 <= bytes@.len(),
        decreases close - from,
    {
        let end = find_byte(bytes, 0x2c, from, close);
        let (start, stop) = trim(bytes, from, end);
        if start == stop {
            if end < close {
                return Err((end, end + 1));
            }
            if from > first {
                return Err((from - 1, from));
            }
            return Err((start, stop));
        }
        let mut i: usize = start;
        while i < stop
            invariant
                start <= i <= stop <= bytes@.len(),
                forall|j: int| start <= j < i ==> is_word(#[trigger] bytes@[j]),
            ensures
                start <= i <= stop,
                forall|j: int| start <= j < i ==> is_word(#[trigger] bytes@[j]),
                i < stop ==> !is_word(bytes@[i as int]),
            decreases stop - i,
        {
            if !is_code_byte(bytes[i]) {
                break;
            }
            i = i + 1;
        }
        if i < stop {
            return Err((start, stop));
        }
        let ghost before = places(codes@);
        let ghost rest = read_codes(bytes@, first as int, from as int, close as int);
        codes.push((start, stop));
        proof {
            assert(places(codes@) =~= before.push((start as int, stop as int)));
            match rest {
                Ok(rest) => {
                    assert(before + rest =~= places(codes@) + rest.drop_first());
                },
                Err(_) => {},
            }
        }
        if end == close {
            proof {
                assert(rest->Ok_0 =~= seq![(start as int, stop as int)]);
                assert(before + rest->Ok_0 =~= places(codes@));
            }
            return Ok(codes);
        }
        proof {
            match read_codes(bytes@, first as int, end + 1, close as int) {
                Ok(more) => {
                    assert(rest->Ok_0 == seq![(start as int, stop as int)] + more);
                    assert(rest->Ok_0.drop_first() =~= more);
                },
                Err(_) => {},
            }
        }
        from = end + 1;
    }
}

/// Whether a listed code is a given one.
fn is_word_of(word: &[u8], code: &[u8]) -> (same: bool)
    ensures
        same == (word@ == code@),
{
    let same = word.len() == code.len() && starts_with_at(word, 0, code);
    proof {
        if word@.len() == code@.len() {
            assert(word@.subrange(0, code@.len() as int) =~= word@);
        }
    }
    same
}

/// What an invalid comment adds to the problems.
fn report(
    problems: &mut Vec<SuppressionProblem>,
    base: u32,
    start: usize,
    end: usize,
    reason: InvalidSuppressionReason,
)
    requires
        start <= end,
        base + end <= u32::MAX,
    ensures
        final(problems)@ == old(problems)@.push(
            SuppressionProblem {
                range: absolute(base as int, (start as int, end as int)),
                kind: SuppressionProblemKind::Invalid(reason),
            },
        ),
{
    problems.push(
        SuppressionProblem {
            range: TextRange { start: base + start as u32, end: base + end as u32 },
            kind: SuppressionProblemKind::Invalid(reason),
        },
    );
}

/// Reads a comment: the directive that it is, if it is one, and the problems that it has.
pub fn parse_comment(
    source: &str,
    range: TextRange,
    lines: &Lines,
    problems: &mut Vec<SuppressionProblem>,
) -> (directive: Option<ParsedDirective>)
    requires
        utf8(source@).len() <= u32::MAX,
        range.start < range.end <= utf8(source@).len(),
        lines.of(utf8(source@)),
    ensures
        directive == directive_of(utf8(source@), range),
        final(problems)@ == old(problems)@ + problems_of(
            utf8(source@).subrange(range.start as int, range.end as int),
            range.start as int,
        ),
{
    let all = source.as_bytes();
    let base = range.start;
    let bytes = vstd::slice::slice_subrange(all, base as usize, range.end as usize);
    let chalk = "chalk:".as_bytes();
    let ignore = "ignore".as_bytes();
    proof {
        reveal_strlit("chalk:");
        reveal_strlit("ignore");
        vstd::utf8::is_ascii_chars_encode_utf8("chalk:"@);
        vstd::utf8::is_ascii_chars_encode_utf8("ignore"@);
        assert(chalk@.len() == 6);
        assert(ignore@.len() == 6);
        assert(old(problems)@ + Seq::<SuppressionProblem>::empty() =~= old(problems)@);
        assert forall|problem: SuppressionProblem| old(problems)@ + seq![problem] =~= #[trigger] old(
            problems,
        )@.push(problem) by {}
    }
    let address = skip_whitespace(bytes, 1);
    if !starts_with_at(bytes, address, chalk) {
        return None;
    }
    let verb = skip_whitespace(bytes, address + 6);
    if !starts_with_at(bytes, verb, ignore) {
        let end = trimmed_end(bytes, verb);
        report(problems, base, verb, end, InvalidSuppressionReason::ExpectedIgnore);
        return None;
    }
    let behind = verb + 6;
    if behind < bytes.len() && is_code_byte(bytes[behind]) {
        let end = trimmed_end(bytes, behind);
        report(problems, base, behind, end, InvalidSuppressionReason::ExpectedCodeList);
        return None;
    }
    let open = skip_whitespace(bytes, behind);
    if open == bytes.len() {
        report(problems, base, verb, behind, InvalidSuppressionReason::Blanket);
        return None;
    }
    if bytes[open] != 0x5b {
        let end = trimmed_end(bytes, open);
        report(problems, base, open, end, InvalidSuppressionReason::ExpectedCodeList);
        return None;
    }
    let close = find_byte(bytes, 0x5d, open + 1, bytes.len());
    if close == bytes.len() {
        report(problems, base, open, bytes.len(), InvalidSuppressionReason::MissingClosingBracket);
        return None;
    }
    let after = skip_whitespace(bytes, close + 1);
    if after != bytes.len() {
        let end = trimmed_end(bytes, after);
        report(problems, base, after, end, InvalidSuppressionReason::TrailingContent);
        return None;
    }
    let (start, stop) = trim(bytes, open + 1, close);
    assert(open < close);
    if start == stop {
        report(problems, base, open, close + 1, InvalidSuppressionReason::EmptyCodeList);
        return None;
    }
    let codes = match parse_codes(bytes, open + 1, close) {
        Ok(codes) => codes,
        Err((start, end)) => {
            report(problems, base, start, end, InvalidSuppressionReason::MalformedCodeList);
            return None;
        },
    };
    let known = "unsupported-function".as_bytes();
    let unsuppressible = "resolver-cycle".as_bytes();
    let ghost listed = places(codes@);
    let mut suppresses = false;
    let mut i: usize = 0;
    assert(listed.take(0) =~= Seq::<(int, int)>::empty());
    while i < codes.len()
        invariant
            i <= codes.len(),
            bytes@.len() + base <= u32::MAX,
            known@ == utf8("unsupported-function"@),
            unsuppressible@ == utf8("resolver-cycle"@),
            listed == places(codes@),
            forall|j: int|
                0 <= j < codes@.len() ==> (#[trigger] codes@[j]).0 <= codes@[j].1 <= bytes@.len(),
            problems@ == old(problems)@ + code_problems(
                bytes@,
                base as int,
                listed.take(i as int),
            ),
            suppresses == exists|j: int|
                0 <= j < i && is_known_code(bytes@, #[trigger] listed[j]),
        decreases codes.len() - i,
    {
        let (start, end) = codes[i];
        let word = vstd::slice::slice_subrange(bytes, start, end);
        proof {
            assert(listed[i as int] == (start as int, end as int));
            assert(listed.take(i + 1).drop_last() =~= listed.take(i as int));
            assert(listed.take(i + 1).last() == (start as int, end as int));
        }
        if is_word_of(word, known) {
            suppresses = true;
            assert(is_known_code(bytes@, listed[i as int]));
        } else {
            let kind = if is_word_of(word, unsuppressible) {
                SuppressionProblemKind::Invalid(InvalidSuppressionReason::UnsuppressibleCode)
            } else {
                SuppressionProblemKind::UnknownCode
            };
            problems.push(
                SuppressionProblem {
                    range: TextRange { start: base + start as u32, end: base + end as u32 },
                    kind,
                },
            );
            proof {
                assert(!is_known_code(bytes@, listed[i as int]));
                assert(kind == code_problem(bytes@, listed[i as int]));
                assert(problems@ =~= old(problems)@ + code_problems(
                    bytes@,
                    base as int,
                    listed.take(i + 1),
                ));
            }
        }
        i = i + 1;
    }
    assert(listed.take(listed.len() as int) =~= listed);
    let (line, line_start) = lines.locate(base, Ghost(all@));
    let own_line = is_blank_text(all, line_start as usize, base as usize);
    proof {
        assert(read_comment(bytes@) == Reading::Codes { codes: listed });
        assert(line == line_of(all@, base as int) as usize);
        assert(suppresses == lists_known_code(bytes@, listed));
    }
    Some(
        ParsedDirective {
            range,
            line,
            own_line,
            suppresses_unsupported_function: suppresses,
        },
    )
}

// ---------------------------------------------------------------------------------------------
// What directives apply to
// ---------------------------------------------------------------------------------------------

/// A directive that switches a diagnostic off in a function.
#[derive(Clone, Copy, Debug, PartialEq, Eq, Structural)]
pub struct FunctionSuppression {
    pub definition: Definition,
    pub function: TextRange,
    pub directive: TextRange,
    pub code: SuppressionCode,
}

/// A directive that switches a diagnostic off in a statement.
#[derive(Clone, Copy, Debug, PartialEq, Eq, Structural)]
pub struct StatementSuppression {
    pub statement: TextRange,
    pub directive: TextRange,
    pub code: SuppressionCode,
}

/// The directives of a file.
#[derive(Debug)]
pub struct Suppressions {
    pub function: Vec<FunctionSuppression>,
    pub statement: Vec<StatementSuppression>,
    pub problems: Vec<SuppressionProblem>,
}

/// Whether a directive stands behind the first or the last line of a statement.
pub open spec fn trails(bytes: Seq<u8>, directive: ParsedDirective, range: TextRange) -> bool {
    &&& directive.suppresses_unsupported_function
    &&& !directive.own_line
    &&& (directive.line == line_of(bytes, range.start as int) || directive.line == line_of(
        bytes,
        range.end - 1,
    ))
}

/// Whether a statement lies deeper than another that a directive stands behind: it begins later,
/// or begins there too and ends earlier.
pub open spec fn lies_deeper(range: TextRange, other: TextRange) -> bool {
    range.start > other.start || (range.start == other.start && range.end < other.end)
}

/// The first entry of a directive, from a place on.
pub open spec fn entry_of(found: Seq<StatementSuppression>, directive: TextRange, at: int) -> Option<
    int,
>
    decreases found.len() - at,
{
    if at < 0 || at >= found.len() {
        None
    } else if found[at].directive == directive {
        Some(at)
    } else {
        entry_of(found, directive, at + 1)
    }
}

/// A directive applies to a statement unless it already applies to a deeper one.
pub open spec fn applied(
    found: Seq<StatementSuppression>,
    directive: TextRange,
    range: TextRange,
) -> Seq<StatementSuppression> {
    let entry = StatementSuppression {
        statement: range,
        directive,
        code: SuppressionCode::UnsupportedFunction,
    };
    match entry_of(found, directive, 0) {
        Some(at) => if lies_deeper(range, found[at].statement) {
            found.update(at, StatementSuppression { statement: range, ..found[at] })
        } else {
            found
        },
        None => found.push(entry),
    }
}

/// What a statement adds to the entries of directives.
pub open spec fn with_statement(
    bytes: Seq<u8>,
    directives: Seq<ParsedDirective>,
    range: TextRange,
    found: Seq<StatementSuppression>,
) -> Seq<StatementSuppression>
    decreases directives.len(),
{
    if directives.len() == 0 {
        found
    } else {
        let before = with_statement(bytes, directives.drop_last(), range, found);
        if trails(bytes, directives.last(), range) {
            applied(before, directives.last().range, range)
        } else {
            before
        }
    }
}

/// What statements add to the entries of directives.
pub open spec fn with_statements(
    bytes: Seq<u8>,
    directives: Seq<ParsedDirective>,
    stmts: Seq<Stmt>,
    found: Seq<StatementSuppression>,
) -> Seq<StatementSuppression>
    decreases stmts.len(),
{
    if stmts.len() == 0 {
        found
    } else {
        with_statement(
            bytes,
            directives,
            stmts.last().range,
            with_statements(bytes, directives, stmts.drop_last(), found),
        )
    }
}

/// The first directive, from a place on, that has a line to itself.
pub open spec fn directive_on(directives: Seq<ParsedDirective>, line: int, at: int) -> Option<
    ParsedDirective,
>
    decreases directives.len() - at,
{
    if at < 0 || at >= directives.len() {
        None
    } else if directives[at].line == line && directives[at].own_line
        && directives[at].suppresses_unsupported_function {
        Some(directives[at])
    } else {
        directive_on(directives, line, at + 1)
    }
}

/// The directive on the line above a function, if there is one.
pub open spec fn function_entry(
    bytes: Seq<u8>,
    directives: Seq<ParsedDirective>,
    stmt: Stmt,
) -> Option<FunctionSuppression> {
    match stmt.kind {
        StmtKind::Function { definition, anchor, .. } => match directive_on(
            directives,
            line_of(bytes, anchor as int) - 1,
            0,
        ) {
            Some(directive) => Some(
                FunctionSuppression {
                    definition,
                    function: stmt.range,
                    directive: directive.range,
                    code: SuppressionCode::UnsupportedFunction,
                },
            ),
            None => None,
        },
        _ => None,
    }
}

/// The directives above functions, in source order.
pub open spec fn function_entries(
    bytes: Seq<u8>,
    directives: Seq<ParsedDirective>,
    stmts: Seq<Stmt>,
) -> Seq<FunctionSuppression>
    decreases stmts.len(),
{
    if stmts.len() == 0 {
        Seq::empty()
    } else {
        let before = function_entries(bytes, directives, stmts.drop_last());
        match function_entry(bytes, directives, stmts.last()) {
            Some(entry) => before.push(entry),
            None => before,
        }
    }
}

proof fn lemma_with_statements_append(
    bytes: Seq<u8>,
    directives: Seq<ParsedDirective>,
    first: Seq<Stmt>,
    second: Seq<Stmt>,
    found: Seq<StatementSuppression>,
)
    ensures
        with_statements(bytes, directives, first + second, found) == with_statements(
            bytes,
            directives,
            second,
            with_statements(bytes, directives, first, found),
        ),
    decreases second.len(),
{
    if second.len() == 0 {
        assert(first + second =~= first);
    } else {
        assert((first + second).drop_last() =~= first + second.drop_last());
        lemma_with_statements_append(bytes, directives, first, second.drop_last(), found);
    }
}

proof fn lemma_function_entries_append(
    bytes: Seq<u8>,
    directives: Seq<ParsedDirective>,
    first: Seq<Stmt>,
    second: Seq<Stmt>,
)
    ensures
        function_entries(bytes, directives, first + second) == function_entries(
            bytes,
            directives,
            first,
        ) + function_entries(bytes, directives, second),
    decreases second.len(),
{
    if second.len() == 0 {
        assert(first + second =~= first);
    } else {
        assert((first + second).drop_last() =~= first + second.drop_last());
        lemma_function_entries_append(bytes, directives, first, second.drop_last());
    }
}

/// Applies directives while statements are visited.
struct SuppressionVisitor<'a> {
    lines: &'a Lines,
    directives: &'a Vec<ParsedDirective>,
    function: Vec<FunctionSuppression>,
    statement: Vec<StatementSuppression>,
}

impl<'a> SuppressionVisitor<'a> {
    fn apply(&mut self, directive: TextRange, range: TextRange)
        ensures
            final(self).statement@ == applied(old(self).statement@, directive, range),
            final(self).function@ == old(self).function@,
            final(self).lines == old(self).lines,
            final(self).directives == old(self).directives,
    {
        let mut at: usize = 0;
        while at < self.statement.len()
            invariant
                at <= self.statement@.len(),
                *self == *old(self),
                entry_of(self.statement@, directive, 0) == entry_of(
                    self.statement@,
                    directive,
                    at as int,
                ),
            decreases self.statement@.len() - at,
        {
            let entry = self.statement[at];
            if entry.directive == directive {
                if range.start > entry.statement.start || (range.start == entry.statement.start
                    && range.end < entry.statement.end) {
                    self.statement.set(at, StatementSuppression { statement: range, ..entry });
                }
                return ;
            }
            at += 1;
        }
        self.statement.push(
            StatementSuppression {
                statement: range,
                directive,
                code: SuppressionCode::UnsupportedFunction,
            },
        );
    }

    fn visit_stmt(&mut self, statement: &Stmt, Ghost(bytes): Ghost<Seq<u8>>)
        requires
            old(self).lines.of(bytes),
            syntax::placed(Child::Stmt(*statement), bytes.len()),
        ensures
            final(self).lines == old(self).lines,
            final(self).directives == old(self).directives,
            final(self).statement@ == with_statements(
                bytes,
                old(self).directives@,
                syntax::statements_of(Child::Stmt(*statement)),
                old(self).statement@,
            ),
            final(self).function@ == old(self).function@ + function_entries(
                bytes,
                old(self).directives@,
                syntax::statements_of(Child::Stmt(*statement)),
            ),
        decreases statement, 0int,
    {
        let range = statement.range;
        let ghost directives = self.directives@;
        let ghost before = self.statement@;
        let (start_line, _) = self.lines.locate(range.start, Ghost(bytes));
        let (end_line, _) = self.lines.locate(range.end - 1, Ghost(bytes));
        let mut i: usize = 0;
        while i < self.directives.len()
            invariant
                i <= self.directives@.len(),
                directives == self.directives@,
                self.lines == old(self).lines,
                self.directives == old(self).directives,
                self.function@ == old(self).function@,
                start_line == line_of(bytes, range.start as int),
                end_line == line_of(bytes, range.end - 1),
                self.statement@ == with_statement(bytes, directives.take(i as int), range, before),
            decreases self.directives@.len() - i,
        {
            let directive = self.directives[i];
            assert(directives.take(i as int + 1).drop_last() =~= directives.take(i as int));
            if directive.suppresses_unsupported_function && !directive.own_line && (directive.line
                == start_line || directive.line == end_line) {
                self.apply(directive.range, range);
            }
            i += 1;
        }
        assert(directives.take(directives.len() as int) =~= directives);
        let ghost alone = seq![*statement];
        proof {
            assert(alone.drop_last() =~= Seq::empty());
            reveal_with_fuel(with_statements, 2);
            reveal_with_fuel(function_entries, 2);
        }
        assert(self.statement@ == with_statements(bytes, directives, alone, before));
        let ghost functions = self.function@;
        match &statement.kind {
            StmtKind::Function { definition, anchor, .. } => {
                let (anchor_line, _) = self.lines.locate(*anchor, Ghost(bytes));
                let found = if anchor_line > 0 {
                    find_directive(self.directives, anchor_line - 1)
                } else {
                    proof {
                        lemma_no_line_above(directives, 0);
                    }
                    None
                };
                if let Some(directive) = found {
                    self.function.push(
                        FunctionSuppression {
                            definition: *definition,
                            function: range,
                            directive: directive.range,
                            code: SuppressionCode::UnsupportedFunction,
                        },
                    );
                }
            },
            _ => {},
        }
        assert(self.function@ =~= functions + function_entries(bytes, directives, alone));
        proof {
            let inner = syntax::statements(statement.body@);
            lemma_with_statements_append(bytes, directives, alone, inner, before);
            lemma_function_entries_append(bytes, directives, alone, inner);
            assert(syntax::statements_of(Child::Stmt(*statement)) == alone + inner);
            assert(decreases_to!(*statement => statement.body));
        }
        self.visit_body(&statement.body, Ghost(bytes));
        assert(self.function@ =~= functions + function_entries(
            bytes,
            directives,
            syntax::statements_of(Child::Stmt(*statement)),
        ));
    }

    fn visit_body(&mut self, body: &Vec<Child>, Ghost(bytes): Ghost<Seq<u8>>)
        requires
            old(self).lines.of(bytes),
            syntax::all_placed(body@, bytes.len()),
        ensures
            final(self).lines == old(self).lines,
            final(self).directives == old(self).directives,
            final(self).statement@ == with_statements(
                bytes,
                old(self).directives@,
                syntax::statements(body@),
                old(self).statement@,
            ),
            final(self).function@ == old(self).function@ + function_entries(
                bytes,
                old(self).directives@,
                syntax::statements(body@),
            ),
        decreases body, 0int,
    {
        let ghost directives = self.directives@;
        let mut i: usize = 0;
        assert(self.function@ =~= old(self).function@ + function_entries(
            bytes,
            directives,
            syntax::statements(body@.take(0)),
        ));
        while i < body.len()
            invariant
                i <= body@.len(),
                directives == self.directives@,
                self.lines.of(bytes),
                self.lines == old(self).lines,
                self.directives == old(self).directives,
                syntax::all_placed(body@, bytes.len()),
                self.statement@ == with_statements(
                    bytes,
                    directives,
                    syntax::statements(body@.take(i as int)),
                    old(self).statement@,
                ),
                self.function@ =~= old(self).function@ + function_entries(
                    bytes,
                    directives,
                    syntax::statements(body@.take(i as int)),
                ),
            decreases body@.len() - i,
        {
            proof {
                let done = syntax::statements(body@.take(i as int));
                let next = syntax::statements_of(body@[i as int]);
                assert(body@.take(i as int + 1).drop_last() =~= body@.take(i as int));
                lemma_with_statements_append(bytes, directives, done, next, old(self).statement@);
                lemma_function_entries_append(bytes, directives, done, next);
                assert(syntax::placed(body@[i as int], bytes.len()));
                assert(decreases_to!(*body => body@[i as int]));
            }
            match &body[i] {
                Child::Stmt(statement) => {
                    proof {
                        assert(decreases_to!(body@[i as int] => *statement));
                    }
                    self.visit_stmt(statement, Ghost(bytes));
                },
                _ => {},
            }
            i += 1;
        }
        assert(body@.take(body@.len() as int) =~= body@);
    }
}

proof fn lemma_no_line_above(directives: Seq<ParsedDirective>, at: int)
    requires
        0 <= at <= directives.len(),
    ensures
        directive_on(directives, -1, at) is None,
    decreases directives.len() - at,
{
    if at < directives.len() {
        lemma_no_line_above(directives, at + 1);
    }
}

/// The first directive that has a line to itself.
fn find_directive(directives: &Vec<ParsedDirective>, line: usize) -> (found: Option<
    ParsedDirective,
>)
    ensures
        found == directive_on(directives@, line as int, 0),
{
    let mut i: usize = 0;
    while i < directives.len()
        invariant
            i <= directives@.len(),
            directive_on(directives@, line as int, 0) == directive_on(
                directives@,
                line as int,
                i as int,
            ),
        decreases directives@.len() - i,
    {
        let directive = directives[i];
        if directive.line == line && directive.own_line
            && directive.suppresses_unsupported_function {
            return Some(directive);
        }
        i += 1;
    }
    None
}

/// The directives among comments, in order.
pub open spec fn directives_of(source: Seq<u8>, comments: Seq<TextRange>) -> Seq<ParsedDirective>
    decreases comments.len(),
{
    if comments.len() == 0 {
        Seq::empty()
    } else {
        let before = directives_of(source, comments.drop_last());
        match directive_of(source, comments.last()) {
            Some(directive) => before.push(directive),
            None => before,
        }
    }
}

/// The problems of comments, in order.
pub open spec fn all_problems(source: Seq<u8>, comments: Seq<TextRange>) -> Seq<SuppressionProblem>
    decreases comments.len(),
{
    if comments.len() == 0 {
        Seq::empty()
    } else {
        let range = comments.last();
        all_problems(source, comments.drop_last()) + problems_of(
            source.subrange(range.start as int, range.end as int),
            range.start as int,
        )
    }
}

/// Whether comments lie in a source.
pub open spec fn comments_placed(comments: Seq<TextRange>, len: nat) -> bool {
    forall|i: int|
        0 <= i < comments.len() ==> (#[trigger] comments[i]).start < comments[i].end <= len
}

impl Suppressions {
    /// Whether these are the directives of a file.
    pub open spec fn of(self, source: Seq<u8>, comments: Seq<TextRange>, body: Seq<Child>) -> bool {
        let directives = directives_of(source, comments);
        let stmts = syntax::statements(body);
        &&& self.function@ == function_entries(source, directives, stmts)
        &&& self.statement@ == with_statements(source, directives, stmts, Seq::empty())
        &&& self.problems@ == all_problems(source, comments)
    }

    pub fn function(&self) -> (entries: &Vec<FunctionSuppression>)
        ensures
            *entries == self.function,
    {
        &self.function
    }

    pub fn statement(&self) -> (entries: &Vec<StatementSuppression>)
        ensures
            *entries == self.statement,
    {
        &self.statement
    }

    pub fn problems(&self) -> (problems: &Vec<SuppressionProblem>)
        ensures
            *problems == self.problems,
    {
        &self.problems
    }
}

/// Reads the directives of a file from its comments and applies them to its statements.
pub fn extract_suppressions(source: &str, comments: &Vec<TextRange>, body: &Vec<Child>) -> (found:
    Suppressions)
    requires
        utf8(source@).len() <= u32::MAX,
        comments_placed(comments@, utf8(source@).len()),
        syntax::all_placed(body@, utf8(source@).len()),
    ensures
        found.of(utf8(source@), comments@, body@),
{
    let ghost bytes = utf8(source@);
    let lines = Lines::new(source);
    let mut directives: Vec<ParsedDirective> = Vec::new();
    let mut problems: Vec<SuppressionProblem> = Vec::new();
    let mut i: usize = 0;
    while i < comments.len()
        invariant
            i <= comments@.len(),
            bytes == utf8(source@),
            bytes.len() <= u32::MAX,
            comments_placed(comments@, bytes.len()),
            lines.of(bytes),
            directives@ == directives_of(bytes, comments@.take(i as int)),
            problems@ == all_problems(bytes, comments@.take(i as int)),
        decreases comments@.len() - i,
    {
        assert(comments@.take(i as int + 1).drop_last() =~= comments@.take(i as int));
        assert(comments@[i as int].start < comments@[i as int].end <= bytes.len());
        if let Some(directive) = parse_comment(source, comments[i], &lines, &mut problems) {
            directives.push(directive);
        }
        i += 1;
    }
    assert(comments@.take(comments@.len() as int) =~= comments@);
    let mut visitor = SuppressionVisitor {
        lines: &lines,
        directives: &directives,
        function: Vec::new(),
        statement: Vec::new(),
    };
    visitor.visit_body(body, Ghost(bytes));
    assert(visitor.function@ =~= function_entries(
        bytes,
        directives@,
        syntax::statements(body@),
    ));
    Suppressions { function: visitor.function, statement: visitor.statement, problems }
}

} // verus!

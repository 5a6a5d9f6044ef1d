//! How directives are read, told by where the parts of a comment stand.

use vstd::prelude::*;

use crate::suppression;
use crate::suppression::{InvalidSuppressionReason, ParsedDirective, Reading};
use crate::text::TextRange;

verus! {

// ---------------------------------------------------------------------------------------------
// Places
// ---------------------------------------------------------------------------------------------

/// Whether a byte is a space, a tab, a line feed, a form feed or a carriage return.
pub open spec fn is_white(byte: u8) -> bool {
    byte == 32 || byte == 9 || byte == 10 || byte == 12 || byte == 13
}

/// Whether a byte is an ASCII letter or digit, or a hyphen.
pub open spec fn is_code_byte(byte: u8) -> bool {
    ||| 'a' as u8 <= byte <= 'z' as u8
    ||| 'A' as u8 <= byte <= 'Z' as u8
    ||| '0' as u8 <= byte <= '9' as u8
    ||| byte == '-' as u8
}

/// Whether only white space stands in a part of a text.
pub open spec fn is_gap(bytes: Seq<u8>, from: int, to: int) -> bool {
    forall|i: int| from <= i < to ==> is_white(#[trigger] bytes[i])
}

/// Whether a place is the next one from another on that holds no white space.
pub open spec fn is_next(bytes: Seq<u8>, from: int, at: int) -> bool {
    &&& 0 <= from <= at <= bytes.len()
    &&& is_gap(bytes, from, at)
    &&& at < bytes.len() ==> !is_white(bytes[at])
}

/// Whether a place is where a text ends, from another place on, without the white space behind it.
pub open spec fn is_end(bytes: Seq<u8>, from: int, end: int) -> bool {
    &&& 0 <= from <= end <= bytes.len()
    &&& is_gap(bytes, end, bytes.len() as int)
    &&& from < end ==> !is_white(bytes[end - 1])
}

/// Whether a place is the first one from another on that holds a byte, or the end of the text.
pub open spec fn is_first_byte(bytes: Seq<u8>, byte: u8, from: int, at: int) -> bool {
    &&& 0 <= from <= at <= bytes.len()
    &&& forall|i: int| from <= i < at ==> #[trigger] bytes[i] != byte
    &&& at < bytes.len() ==> bytes[at] == byte
}

proof fn lemma_next(bytes: Seq<u8>, from: int, at: int)
    requires
        is_next(bytes, from, at),
    ensures
        suppression::skip_space(bytes, from) == at,
    decreases at - from,
{
    if from < at {
        assert(is_white(bytes[from]));
        lemma_next(bytes, from + 1, at);
    }
}

proof fn lemma_end(bytes: Seq<u8>, from: int, end: int, to: int)
    requires
        0 <= from <= end <= to <= bytes.len(),
        is_gap(bytes, end, to),
        from < end ==> !is_white(bytes[end - 1]),
    ensures
        suppression::space_trimmed(bytes, from, to) == end,
    decreases to - end,
{
    if end < to {
        assert(is_white(bytes[to - 1]));
        lemma_end(bytes, from, end, to - 1);
    }
}

proof fn lemma_led(bytes: Seq<u8>, from: int, start: int, to: int)
    requires
        0 <= from <= start <= to <= bytes.len(),
        is_gap(bytes, from, start),
        start < to ==> !is_white(bytes[start]),
    ensures
        suppression::space_led(bytes, from, to) == start,
    decreases start - from,
{
    if from < start {
        assert(is_white(bytes[from]));
        lemma_led(bytes, from + 1, start, to);
    }
}

proof fn lemma_led_exists(bytes: Seq<u8>, from: int, to: int)
    requires
        0 <= from <= to <= bytes.len(),
    ensures
        ({
            let start = suppression::space_led(bytes, from, to);
            let stop = suppression::space_trimmed(bytes, start, to);
            &&& from <= start <= stop <= to
            &&& is_gap(bytes, from, start)
            &&& is_gap(bytes, stop, to)
            &&& start < stop ==> !is_white(bytes[start]) && !is_white(bytes[stop - 1])
        }),
{
    lemma_led_bounds(bytes, from, to);
    lemma_trimmed_bounds(bytes, suppression::space_led(bytes, from, to), to);
}

proof fn lemma_led_bounds(bytes: Seq<u8>, from: int, to: int)
    requires
        0 <= from <= to <= bytes.len(),
    ensures
        ({
            let start = suppression::space_led(bytes, from, to);
            &&& from <= start <= to
            &&& is_gap(bytes, from, start)
            &&& start < to ==> !is_white(bytes[start])
        }),
    decreases to - from,
{
    if from < to && suppression::is_space(bytes[from]) {
        lemma_led_bounds(bytes, from + 1, to);
    }
}

proof fn lemma_trimmed_bounds(bytes: Seq<u8>, from: int, to: int)
    requires
        0 <= from <= to <= bytes.len(),
    ensures
        ({
            let stop = suppression::space_trimmed(bytes, from, to);
            &&& from <= stop <= to
            &&& is_gap(bytes, stop, to)
            &&& from < stop ==> !is_white(bytes[stop - 1])
        }),
    decreases to - from,
{
    if from < to && suppression::is_space(bytes[to - 1]) {
        lemma_trimmed_bounds(bytes, from, to - 1);
    }
}

proof fn lemma_first_of(bytes: Seq<u8>, byte: u8, from: int, at: int, to: int)
    requires
        0 <= from <= at <= to <= bytes.len(),
        forall|i: int| from <= i < at ==> #[trigger] bytes[i] != byte,
        at < to ==> bytes[at] == byte,
    ensures
        suppression::first_of(bytes, byte, from, to) == at,
    decreases at - from,
{
    if from < at {
        assert(bytes[from] != byte);
        lemma_first_of(bytes, byte, from + 1, at, to);
    }
}

// ---------------------------------------------------------------------------------------------
// Comments
// ---------------------------------------------------------------------------------------------

/// A comment is read from the front: what first stands behind its mark has to be `chalk:`, or it is
/// none of the analysis's; what stands next has to be `ignore`, with no word running on behind it;
/// and then a list has to open. Each time the part that is wrong is reported, up to the end of the
/// comment without the white space behind it; a bare `ignore` is reported itself.
pub proof fn law_comments_are_read_from_the_front(
    bytes: Seq<u8>,
    address: int,
    verb: int,
    open: int,
    end: int,
)
    requires
        is_next(bytes, 1, address),
    ensures
        ({
            let len = bytes.len() as int;
            let reading = suppression::read_comment(bytes);
            let addressed = suppression::has_at(bytes, address, suppression::utf8("chalk:"@));
            let ignores = suppression::has_at(bytes, verb, suppression::utf8("ignore"@));
            let behind = verb + 6;
            let runs_on = behind < len && is_code_byte(bytes[behind]);
            &&& !addressed <==> reading is Unrelated
            &&& addressed && is_next(bytes, address + 6, verb) ==> {
                &&& !ignores && is_end(bytes, verb, end) ==> reading == (Reading::Invalid {
                    start: verb,
                    end,
                    reason: InvalidSuppressionReason::ExpectedIgnore,
                })
                &&& ignores && runs_on && is_end(bytes, behind, end) ==> reading == (
                Reading::Invalid {
                    start: behind,
                    end,
                    reason: InvalidSuppressionReason::ExpectedCodeList,
                })
                &&& ignores && !runs_on && is_next(bytes, behind, open) ==> {
                    &&& open == len ==> reading == (Reading::Invalid {
                        start: verb,
                        end: behind,
                        reason: InvalidSuppressionReason::Blanket,
                    })
                    &&& open < len && bytes[open] != '[' as u8 && is_end(bytes, open, end)
                        ==> reading == (Reading::Invalid {
                        start: open,
                        end,
                        reason: InvalidSuppressionReason::ExpectedCodeList,
                    })
                    &&& open < len && bytes[open] == '[' as u8 ==> reading
                        == suppression::read_list(bytes, open)
                }
            }
        }),
{
    let len = bytes.len() as int;
    let behind = verb + 6;
    lemma_next(bytes, 1, address);
    if is_next(bytes, address + 6, verb) {
        lemma_next(bytes, address + 6, verb);
        if is_end(bytes, verb, end) {
            lemma_end(bytes, verb, end, len);
        }
        if is_end(bytes, behind, end) {
            lemma_end(bytes, behind, end, len);
        }
        if is_next(bytes, behind, open) {
            lemma_next(bytes, behind, open);
            if is_end(bytes, open, end) {
                lemma_end(bytes, open, end, len);
            }
            lemma_list_is_no_stranger(bytes, open);
        }
    }
}

proof fn lemma_list_is_no_stranger(bytes: Seq<u8>, open: int)
    ensures
        suppression::read_list(bytes, open) !is Unrelated,
{
}

/// A list that opens has to close, nothing may stand behind it, and something has to stand in it;
/// each failure is reported at its place.
pub proof fn law_lists_have_to_close_and_hold_something(
    bytes: Seq<u8>,
    open: int,
    close: int,
    after: int,
    end: int,
)
    requires
        0 <= open < bytes.len(),
        is_first_byte(bytes, ']' as u8, open + 1, close),
    ensures
        ({
            let len = bytes.len() as int;
            let reading = suppression::read_list(bytes, open);
            &&& close == len ==> reading == (Reading::Invalid {
                start: open,
                end: len,
                reason: InvalidSuppressionReason::MissingClosingBracket,
            })
            &&& close < len && is_next(bytes, close + 1, after) ==> {
                &&& after < len && is_end(bytes, after, end) ==> reading == (Reading::Invalid {
                    start: after,
                    end,
                    reason: InvalidSuppressionReason::TrailingContent,
                })
                &&& after == len && is_gap(bytes, open + 1, close) ==> reading == (
                Reading::Invalid {
                    start: open,
                    end: close + 1,
                    reason: InvalidSuppressionReason::EmptyCodeList,
                })
                &&& after == len && !is_gap(bytes, open + 1, close) ==> match reading {
                    Reading::Codes { codes } => suppression::read_codes(
                        bytes,
                        open + 1,
                        open + 1,
                        close,
                    ) == Ok::<Seq<(int, int)>, (int, int)>(codes),
                    Reading::Invalid { reason, .. } => reason
                        == InvalidSuppressionReason::MalformedCodeList,
                    Reading::Unrelated => false,
                }
            }
        }),
{
    let len = bytes.len() as int;
    lemma_first_of(bytes, ']' as u8, open + 1, close, len);
    if close < len && is_next(bytes, close + 1, after) {
        lemma_next(bytes, close + 1, after);
        if is_end(bytes, after, end) {
            lemma_end(bytes, after, end, len);
        }
        lemma_led_exists(bytes, open + 1, close);
        let start = suppression::space_led(bytes, open + 1, close);
        let stop = suppression::space_trimmed(bytes, start, close);
        if is_gap(bytes, open + 1, close) && start < stop {
            assert(is_white(bytes[start]));
        }
        if start == stop {
            assert forall|i: int| open + 1 <= i < close implies is_white(#[trigger] bytes[i]) by {}
        }
    }
}

// ---------------------------------------------------------------------------------------------
// Codes
// ---------------------------------------------------------------------------------------------

/// Whether places cut a list at all of its commas, from where it opens to where it closes.
pub open spec fn are_cuts(bytes: Seq<u8>, open: int, close: int, cuts: Seq<int>) -> bool {
    &&& cuts.len() >= 2
    &&& cuts[0] == open
    &&& cuts.last() == close
    &&& 0 <= open && close <= bytes.len()
    &&& forall|i: int| 0 <= i < cuts.len() - 1 ==> #[trigger] cuts[i] < cuts[i + 1]
    &&& forall|i: int| 0 < i < cuts.len() - 1 ==> bytes[#[trigger] cuts[i]] == ',' as u8
    &&& forall|i: int, p: int|
        0 <= i < cuts.len() - 1 && #[trigger] cuts[i] < p < cuts[i + 1] ==> #[trigger] bytes[p]
            != ',' as u8
}

/// Whether a code stands in a part of a list, with nothing but white space around it.
pub open spec fn is_code_in(bytes: Seq<u8>, from: int, to: int, code: (int, int)) -> bool {
    &&& from <= code.0 < code.1 <= to
    &&& is_gap(bytes, from, code.0)
    &&& is_gap(bytes, code.1, to)
    &&& forall|i: int| code.0 <= i < code.1 ==> is_code_byte(#[trigger] bytes[i])
}

spec fn are_codes(bytes: Seq<u8>, cuts: Seq<int>, from: int, codes: Seq<(int, int)>) -> bool {
    &&& codes.len() == cuts.len() - 1 - from
    &&& forall|i: int|
        0 <= i < codes.len() ==> is_code_in(
            bytes,
            cuts[from + i] + 1,
            cuts[from + i + 1],
            #[trigger] codes[i],
        )
}

spec fn lacks_code(bytes: Seq<u8>, cuts: Seq<int>, i: int) -> bool {
    forall|code: (int, int)| !#[trigger] is_code_in(bytes, cuts[i] + 1, cuts[i + 1], code)
}

proof fn lemma_code_in_part(bytes: Seq<u8>, from: int, to: int)
    requires
        0 <= from <= to <= bytes.len(),
    ensures
        ({
            let (start, stop) = suppression::trimmed(bytes, from, to);
            let good = start < stop && forall|i: int|
                start <= i < stop ==> suppression::is_word(#[trigger] bytes[i]);
            &&& start <= stop
            &&& good ==> is_code_in(bytes, from, to, (start, stop))
            &&& !good ==> forall|code: (int, int)| !#[trigger] is_code_in(bytes, from, to, code)
            &&& forall|code: (int, int)| #[trigger]
                is_code_in(bytes, from, to, code) ==> code == (start, stop)
        }),
{
    let (start, stop) = suppression::trimmed(bytes, from, to);
    lemma_led_exists(bytes, from, to);
    if start < stop && forall|i: int|
        start <= i < stop ==> suppression::is_word(#[trigger] bytes[i]) {
        assert forall|i: int| start <= i < stop implies is_code_byte(#[trigger] bytes[i]) by {
            assert(suppression::is_word(bytes[i]));
        }
    }
    assert forall|code: (int, int)| #[trigger] is_code_in(bytes, from, to, code) implies code == (
        start,
        stop,
    ) && start < stop && forall|i: int|
        start <= i < stop ==> suppression::is_word(#[trigger] bytes[i]) by {
        assert(is_code_byte(bytes[code.0]));
        assert(is_code_byte(bytes[code.1 - 1]));
        lemma_led(bytes, from, code.0, to);
        lemma_end(bytes, code.0, code.1, to);
        assert forall|i: int| start <= i < stop implies suppression::is_word(
            #[trigger] bytes[i],
        ) by {
            assert(is_code_byte(bytes[i]));
        }
    }
}

proof fn lemma_codes(bytes: Seq<u8>, open: int, close: int, cuts: Seq<int>, k: int)
    requires
        are_cuts(bytes, open, close, cuts),
        0 <= k < cuts.len() - 1,
    ensures
        match suppression::read_codes(bytes, open + 1, cuts[k] + 1, close) {
            Ok(codes) => are_codes(bytes, cuts, k, codes),
            Err(_) => exists|i: int| k <= i < cuts.len() - 1 && #[trigger] lacks_code(bytes, cuts, i),
        },
    decreases cuts.len() - k,
{
    lemma_cuts_ordered(bytes, open, close, cuts, k);
    let from = cuts[k] + 1;
    let end = cuts[k + 1];
    assert(cuts[k] < cuts[k + 1]);
    assert(end < close ==> k + 1 < cuts.len() - 1);
    if k + 1 < cuts.len() - 1 {
        assert(bytes[cuts[k + 1]] == ',' as u8);
        lemma_cuts_ordered(bytes, open, close, cuts, k + 1);
        assert(cuts[k + 1] < cuts[k + 2]);
    } else {
        assert(cuts[k + 1] == cuts.last());
    }
    lemma_first_of(bytes, ',' as u8, from, end, close);
    lemma_code_in_part(bytes, from, end);
    let (start, stop) = suppression::trimmed(bytes, from, end);
    let good = start < stop && forall|i: int|
        start <= i < stop ==> suppression::is_word(#[trigger] bytes[i]);
    if !good {
        assert(lacks_code(bytes, cuts, k));
    } else if end < close {
        lemma_codes(bytes, open, close, cuts, k + 1);
        match suppression::read_codes(bytes, open + 1, end + 1, close) {
            Ok(rest) => {
                let codes = seq![(start, stop)] + rest;
                assert forall|i: int| 0 <= i < codes.len() implies is_code_in(
                    bytes,
                    cuts[k + i] + 1,
                    cuts[k + i + 1],
                    #[trigger] codes[i],
                ) by {
                    if i > 0 {
                        assert(codes[i] == rest[i - 1]);
                        assert(k + 1 + (i - 1) == k + i);
                    }
                }
                assert(are_codes(bytes, cuts, k, codes));
            },
            Err(_) => {
                let i = choose|i: int|
                    k + 1 <= i < cuts.len() - 1 && #[trigger] lacks_code(bytes, cuts, i);
                assert(lacks_code(bytes, cuts, i));
            },
        }
    } else {
        assert(are_codes(bytes, cuts, k, seq![(start, stop)]));
    }
}

proof fn lemma_cuts_ordered(bytes: Seq<u8>, open: int, close: int, cuts: Seq<int>, k: int)
    requires
        are_cuts(bytes, open, close, cuts),
        0 <= k < cuts.len(),
    ensures
        open <= cuts[k] <= close,
        k < cuts.len() - 1 ==> cuts[k] < close,
{
    lemma_cuts_from_open(bytes, open, close, cuts, k);
    lemma_cuts_to_close(bytes, open, close, cuts, k);
}

proof fn lemma_cuts_from_open(bytes: Seq<u8>, open: int, close: int, cuts: Seq<int>, k: int)
    requires
        are_cuts(bytes, open, close, cuts),
        0 <= k < cuts.len(),
    ensures
        open <= cuts[k],
    decreases k,
{
    if k > 0 {
        lemma_cuts_from_open(bytes, open, close, cuts, k - 1);
        assert(cuts[k - 1] < cuts[k]);
    }
}

proof fn lemma_cuts_to_close(bytes: Seq<u8>, open: int, close: int, cuts: Seq<int>, k: int)
    requires
        are_cuts(bytes, open, close, cuts),
        0 <= k < cuts.len(),
    ensures
        cuts[k] <= close,
        k < cuts.len() - 1 ==> cuts[k] < close,
    decreases cuts.len() - k,
{
    if k < cuts.len() - 1 {
        lemma_cuts_to_close(bytes, open, close, cuts, k + 1);
        assert(cuts[k] < cuts[k + 1]);
    } else {
        assert(cuts[k] == cuts.last());
    }
}

/// A list is cut at its commas. It is well formed exactly if a code stands in every part, made of
/// letters, digits and hyphens, with nothing but white space around it; and its codes are then those
/// of its parts, in order.
pub proof fn law_lists_are_cut_at_their_commas(
    bytes: Seq<u8>,
    open: int,
    close: int,
    cuts: Seq<int>,
    codes: Seq<(int, int)>,
)
    requires
        are_cuts(bytes, open, close, cuts),
    ensures
        suppression::read_codes(bytes, open + 1, open + 1, close) == Ok::<
            Seq<(int, int)>,
            (int, int),
        >(codes) <==> codes.len() == cuts.len() - 1 && forall|i: int|
            0 <= i < codes.len() ==> is_code_in(
                bytes,
                cuts[i] + 1,
                cuts[i + 1],
                #[trigger] codes[i],
            ),
{
    lemma_codes(bytes, open, close, cuts, 0);
    match suppression::read_codes(bytes, open + 1, open + 1, close) {
        Ok(read) => {
            if codes.len() == cuts.len() - 1 && forall|i: int|
                0 <= i < codes.len() ==> is_code_in(
                    bytes,
                    cuts[i] + 1,
                    cuts[i + 1],
                    #[trigger] codes[i],
                ) {
                assert forall|i: int| 0 <= i < codes.len() implies codes[i] == #[trigger] read[i] by {
                    lemma_cuts_ordered(bytes, open, close, cuts, i);
                    lemma_cuts_ordered(bytes, open, close, cuts, i + 1);
                    assert(cuts[i] < cuts[i + 1]);
                    lemma_code_in_part(bytes, cuts[i] + 1, cuts[i + 1]);
                    assert(is_code_in(bytes, cuts[0 + i] + 1, cuts[0 + i + 1], read[i]));
                    assert(is_code_in(bytes, cuts[i] + 1, cuts[i + 1], codes[i]));
                }
                assert(codes =~= read);
            } else if read == codes {
                assert forall|i: int| 0 <= i < codes.len() implies is_code_in(
                    bytes,
                    cuts[i] + 1,
                    cuts[i + 1],
                    #[trigger] codes[i],
                ) by {
                    assert(is_code_in(bytes, cuts[0 + i] + 1, cuts[0 + i + 1], read[i]));
                }
            }
        },
        Err(_) => {
            let i = choose|i: int| 0 <= i < cuts.len() - 1 && #[trigger] lacks_code(bytes, cuts, i);
            if codes.len() == cuts.len() - 1 && forall|j: int|
                0 <= j < codes.len() ==> is_code_in(
                    bytes,
                    cuts[j] + 1,
                    cuts[j + 1],
                    #[trigger] codes[j],
                ) {
                assert(is_code_in(bytes, cuts[i] + 1, cuts[i + 1], codes[i]));
            }
        },
    }
}

// ---------------------------------------------------------------------------------------------
// Directives
// ---------------------------------------------------------------------------------------------

/// How many line feeds stand in a part of a text.
pub open spec fn line_feeds(bytes: Seq<u8>, to: int) -> int
    decreases to,
{
    if to <= 0 {
        0
    } else {
        line_feeds(bytes, to - 1) + if bytes[to - 1] == 10 {
            1int
        } else {
            0
        }
    }
}

proof fn lemma_line_feeds(bytes: Seq<u8>, to: int)
    requires
        0 <= to <= bytes.len(),
    ensures
        suppression::line_of(bytes, to) == line_feeds(bytes, to),
    decreases to,
{
    let part = bytes.take(to);
    if to > 0 {
        lemma_line_feeds(bytes, to - 1);
        assert(part.drop_last() =~= bytes.take(to - 1));
        assert(part.last() == bytes[to - 1]);
    }
}

/// A directive stands behind a statement exactly if it switches the diagnostic off, shares its line
/// with code, and as many lines end in front of it as in front of the first or of the last byte of
/// the statement.
pub proof fn law_directives_stand_behind_first_or_last_lines(
    bytes: Seq<u8>,
    directive: ParsedDirective,
    range: TextRange,
)
    requires
        range.start < range.end <= bytes.len(),
    ensures
        suppression::trails(bytes, directive, range) <==> {
            &&& directive.suppresses_unsupported_function
            &&& !directive.own_line
            &&& directive.line == line_feeds(bytes, range.start as int) || directive.line
                == line_feeds(bytes, range.end - 1)
        },
{
    lemma_line_feeds(bytes, range.start as int);
    lemma_line_feeds(bytes, range.end - 1);
}

/// A directive is at the place of its comment, switches the diagnostic off exactly if one of its
/// codes is `unsupported-function`, and has its line to itself exactly if nothing but white space
/// stands between the last line feed in front of it and the comment.
pub proof fn law_directives_are_what_their_comments_say(
    source: Seq<u8>,
    range: TextRange,
    codes: Seq<(int, int)>,
    begin: int,
)
    requires
        range.start < range.end <= source.len(),
        source.len() <= u32::MAX,
        suppression::read_comment(source.subrange(range.start as int, range.end as int)) == (
        Reading::Codes { codes }),
        0 <= begin <= range.start,
        begin == 0 || source[begin - 1] == 10,
        forall|i: int| begin <= i < range.start ==> #[trigger] source[i] != 10,
    ensures
        suppression::directive_of(source, range) matches Some(directive) && {
            let bytes = source.subrange(range.start as int, range.end as int);
            &&& directive.range == range
            &&& directive.line == line_feeds(source, range.start as int)
            &&& directive.own_line == suppression::is_blank(
                source.subrange(begin, range.start as int),
            )
            &&& directive.suppresses_unsupported_function <==> exists|i: int|
                0 <= i < codes.len() && bytes.subrange((#[trigger] codes[i]).0, codes[i].1)
                    == suppression::utf8("unsupported-function"@)
        },
{
    let bytes = source.subrange(range.start as int, range.end as int);
    lemma_line_feeds(source, range.start as int);
    lemma_few_line_feeds(source, range.start as int);
    lemma_line_begin(source, begin, range.start as int);
    if exists|i: int|
        0 <= i < codes.len() && bytes.subrange((#[trigger] codes[i]).0, codes[i].1)
            == suppression::utf8("unsupported-function"@) {
        let i = choose|i: int|
            0 <= i < codes.len() && bytes.subrange((#[trigger] codes[i]).0, codes[i].1)
                == suppression::utf8("unsupported-function"@);
        assert(suppression::is_known_code(bytes, codes[i]));
    }
}

proof fn lemma_few_line_feeds(bytes: Seq<u8>, to: int)
    ensures
        0 <= line_feeds(bytes, to),
        0 <= to ==> line_feeds(bytes, to) <= to,
    decreases to,
{
    if to > 0 {
        lemma_few_line_feeds(bytes, to - 1);
    }
}

proof fn lemma_line_begin(source: Seq<u8>, begin: int, at: int)
    requires
        0 <= begin <= at <= source.len(),
        begin == 0 || source[begin - 1] == 10,
        forall|i: int| begin <= i < at ==> #[trigger] source[i] != 10,
    ensures
        suppression::line_begin(source, at) == begin,
    decreases at - begin,
{
    if begin < at {
        assert(source[at - 1] != 10);
        lemma_line_begin(source, begin, at - 1);
    }
}

} // verus!

//! Text primitives: code-point order, string equality, decimal numerals and source ranges.

use vstd::prelude::*;

verus! {

broadcast use vstd::string::group_string_axioms;

/// How two values of a total order relate.
#[derive(Clone, Copy, Debug, PartialEq, Eq, Structural)]
pub enum Relation {
    Less,
    Equal,
    Greater,
}

/// A half-open range of byte offsets into one source text.
#[derive(Clone, Copy, Debug, PartialEq, Eq, Hash, Structural)]
pub struct TextRange {
    pub start: u32,
    pub end: u32,
}

impl TextRange {
    /// A range runs forwards.
    pub open spec fn wf(self) -> bool {
        self.start <= self.end
    }

    /// Whether `other` lies inside this range.
    pub open spec fn encloses(self, other: TextRange) -> bool {
        self.start <= other.start && other.end <= self.end
    }

    /// The range `start..end`.
    pub fn new(start: u32, end: u32) -> (range: Self)
        ensures
            range.start == start,
            range.end == end,
    {
        TextRange { start, end }
    }
}

/// `left` comes strictly before `right` in code-point lexicographic order.
pub open spec fn text_before(left: Seq<char>, right: Seq<char>) -> bool
    decreases left.len(),
{
    if right.len() == 0 {
        false
    } else if left.len() == 0 {
        true
    } else if left[0] == right[0] {
        text_before(left.drop_first(), right.drop_first())
    } else {
        (left[0] as int) < (right[0] as int)
    }
}

/// No text comes before itself.
pub proof fn lemma_text_before_irreflexive(text: Seq<char>)
    ensures
        !text_before(text, text),
    decreases text.len(),
{
    if text.len() > 0 {
        lemma_text_before_irreflexive(text.drop_first());
    }
}

/// The text order is transitive.
pub proof fn lemma_text_before_transitive(a: Seq<char>, b: Seq<char>, c: Seq<char>)
    requires
        text_before(a, b),
        text_before(b, c),
    ensures
        text_before(a, c),
    decreases a.len(),
{
    if a.len() > 0 && b.len() > 0 && c.len() > 0 && a[0] == b[0] && b[0] == c[0] {
        lemma_text_before_transitive(a.drop_first(), b.drop_first(), c.drop_first());
    }
}

/// Any two different texts are ordered one way or the other.
pub proof fn lemma_text_before_total(a: Seq<char>, b: Seq<char>)
    ensures
        a == b || text_before(a, b) || text_before(b, a),
    decreases a.len(),
{
    if a.len() == 0 {
        assert(b.len() == 0 ==> a =~= b);
    } else if b.len() == 0 {
        assert(text_before(b, a));
    } else {
        if a[0] == b[0] {
            lemma_text_before_total(a.drop_first(), b.drop_first());
            if a.drop_first() == b.drop_first() {
                assert(a =~= seq![a[0]] + a.drop_first());
                assert(b =~= seq![b[0]] + b.drop_first());
                assert(a == b);
            }
        } else {
            assert(a[0] as int != b[0] as int);
        }
    }
}

/// How two texts relate in code-point lexicographic order.
pub open spec fn text_relation(left: Seq<char>, right: Seq<char>) -> Relation {
    if left == right {
        Relation::Equal
    } else if text_before(left, right) {
        Relation::Less
    } else {
        Relation::Greater
    }
}

/// Compares two texts in code-point lexicographic order.
pub fn order_text(left: &str, right: &str) -> (relation: Relation)
    ensures
        relation == text_relation(left@, right@),
{
    let mut lefts = left.chars();
    let mut rights = right.chars();
    let ghost mut at: int = 0;
    proof {
        assert(left@.skip(0) =~= left@);
        assert(right@.skip(0) =~= right@);
    }
    loop
        invariant
            0 <= at <= left@.len(),
            at <= right@.len(),
            vstd::std_specs::iter::IteratorSpec::remaining(&lefts) == left@.skip(at),
            vstd::std_specs::iter::IteratorSpec::remaining(&rights) == right@.skip(at),
            text_relation(left@.skip(at), right@.skip(at)) == text_relation(left@, right@),
        decreases left@.len() - at,
    {
        let ghost a = left@.skip(at);
        let ghost b = right@.skip(at);
        let next_left = lefts.next();
        let next_right = rights.next();
        match (next_left, next_right) {
            (None, None) => {
                assert(a =~= b);
                return Relation::Equal;
            },
            (None, Some(_)) => {
                return Relation::Less;
            },
            (Some(_), None) => {
                return Relation::Greater;
            },
            (Some(x), Some(y)) => {
                if x != y {
                    if x < y {
                        return Relation::Less;
                    }
                    return Relation::Greater;
                }
                proof {
                    assert(a.drop_first() =~= left@.skip(at + 1));
                    assert(b.drop_first() =~= right@.skip(at + 1));
                    if a.drop_first() == b.drop_first() {
                        assert(a =~= seq![a[0]] + a.drop_first());
                        assert(b =~= seq![b[0]] + b.drop_first());
                    }
                    at = at + 1;
                }
            },
        }
    }
}

/// Whether two texts are the same.
pub fn same_text(left: &str, right: &str) -> (same: bool)
    ensures
        same == (left@ == right@),
{
    order_text(left, right) == Relation::Equal
}

/// The texts one after the other, with `separator` between neighbours.
pub open spec fn joined(texts: Seq<Seq<char>>, separator: Seq<char>) -> Seq<char>
    decreases texts.len(),
{
    if texts.len() == 0 {
        Seq::empty()
    } else if texts.len() == 1 {
        texts[0]
    } else {
        joined(texts.drop_last(), separator) + separator + texts.last()
    }
}

/// The decimal digit for a number below ten.
pub open spec fn digit(n: nat) -> Seq<char> {
    if n == 0 {
        "0"@
    } else if n == 1 {
        "1"@
    } else if n == 2 {
        "2"@
    } else if n == 3 {
        "3"@
    } else if n == 4 {
        "4"@
    } else if n == 5 {
        "5"@
    } else if n == 6 {
        "6"@
    } else if n == 7 {
        "7"@
    } else if n == 8 {
        "8"@
    } else {
        "9"@
    }
}

/// The decimal numeral of a number.
pub open spec fn decimal(n: nat) -> Seq<char>
    decreases n,
{
    if n < 10 {
        digit(n)
    } else {
        decimal(n / 10) + digit(n % 10)
    }
}

/// The decimal numeral of a number.
pub fn decimal_text(n: usize) -> (text: String)
    ensures
        text@ == decimal(n as nat),
    decreases n,
{
    let mut text = if n < 10 {
        String::new()
    } else {
        decimal_text(n / 10)
    };
    let last: usize = n % 10;
    let digit = if last == 0 {
        "0"
    } else if last == 1 {
        "1"
    } else if last == 2 {
        "2"
    } else if last == 3 {
        "3"
    } else if last == 4 {
        "4"
    } else if last == 5 {
        "5"
    } else if last == 6 {
        "6"
    } else if last == 7 {
        "7"
    } else if last == 8 {
        "8"
    } else {
        "9"
    };
    push_text(&mut text, digit);
    proof {
        assert(Seq::<char>::empty() + digit@ =~= digit@);
    }
    text
}

/// Whether a text begins with another.
pub fn has_prefix(text: &str, prefix: &str) -> (found: bool)
    ensures
        found == prefix@.is_prefix_of(text@),
{
    let mut lefts = prefix.chars();
    let mut rights = text.chars();
    let ghost mut at: int = 0;
    proof {
        assert(prefix@.skip(0) =~= prefix@);
        assert(text@.skip(0) =~= text@);
    }
    loop
        invariant
            0 <= at <= prefix@.len(),
            at <= text@.len(),
            vstd::std_specs::iter::IteratorSpec::remaining(&lefts) == prefix@.skip(at),
            vstd::std_specs::iter::IteratorSpec::remaining(&rights) == text@.skip(at),
            forall|i: int| 0 <= i < at ==> #[trigger] prefix@[i] == text@[i],
        decreases prefix@.len() - at,
    {
        let next_left = lefts.next();
        let next_right = rights.next();
        match (next_left, next_right) {
            (None, _) => {
                assert(prefix@ =~= text@.subrange(0, prefix@.len() as int));
                return true;
            },
            (Some(_), None) => {
                return false;
            },
            (Some(x), Some(y)) => {
                assert(x == prefix@[at] && y == text@[at]);
                if x != y {
                    proof {
                        if prefix@.is_prefix_of(text@) {
                            assert(prefix@[at] == text@.subrange(0, prefix@.len() as int)[at]);
                        }
                    }
                    return false;
                }
                proof {
                    assert(prefix@.skip(at).drop_first() =~= prefix@.skip(at + 1));
                    assert(text@.skip(at).drop_first() =~= text@.skip(at + 1));
                    at = at + 1;
                }
            },
        }
    }
}

/// Whether a text ends with another.
pub fn has_suffix(text: &str, suffix: &str) -> (found: bool)
    ensures
        found == suffix@.is_suffix_of(text@),
{
    let len = text.unicode_len();
    let back = suffix.unicode_len();
    if back > len {
        return false;
    }
    let mut lefts = suffix.chars();
    let mut rights = text.chars();
    let ghost start: int = len - back;
    let mut skipped: usize = 0;
    assert(suffix@.skip(0) =~= suffix@);
    assert(text@.skip(0) =~= text@);
    while skipped < len - back
        invariant
            0 <= skipped <= start,
            start == len - back,
            len == text@.len(),
            back <= len,
            vstd::std_specs::iter::IteratorSpec::remaining(&rights) == text@.skip(
                skipped as int,
            ),
        decreases start - skipped,
    {
        let _ = rights.next();
        assert(text@.skip(skipped as int).drop_first() =~= text@.skip(skipped as int + 1));
        skipped += 1;
    }
    let ghost mut at: int = 0;
    loop
        invariant
            0 <= at <= suffix@.len(),
            start + suffix@.len() == text@.len(),
            0 <= start,
            vstd::std_specs::iter::IteratorSpec::remaining(&lefts) == suffix@.skip(at),
            vstd::std_specs::iter::IteratorSpec::remaining(&rights) == text@.skip(start + at),
            forall|i: int| 0 <= i < at ==> #[trigger] suffix@[i] == text@[start + i],
        decreases suffix@.len() - at,
    {
        let next_left = lefts.next();
        let next_right = rights.next();
        match (next_left, next_right) {
            (Some(x), Some(y)) => {
                assert(x == suffix@[at] && y == text@[start + at]);
                if x != y {
                    proof {
                        if suffix@.is_suffix_of(text@) {
                            assert(suffix@[at] == text@.subrange(start, text@.len() as int)[at]);
                        }
                    }
                    return false;
                }
                proof {
                    assert(suffix@.skip(at).drop_first() =~= suffix@.skip(at + 1));
                    assert(text@.skip(start + at).drop_first() =~= text@.skip(start + at + 1));
                    at = at + 1;
                }
            },
            _ => {
                assert(suffix@ =~= text@.subrange(start, text@.len() as int));
                return true;
            },
        }
    }
}

/// `String::push` appends the given character to the end of the text and changes nothing else.
pub assume_specification[ std::string::String::push ](s: &mut std::string::String, ch: char)
    ensures
        final(s)@ == old(s)@.push(ch),
;

/// Appends `suffix` to `text`.
pub fn push_text(text: &mut String, suffix: &str)
    ensures
        final(text)@ == old(text)@ + suffix@,
{
    text.append(suffix);
}

/// Whether a range of bytes of a text begins and ends between characters.
pub open spec fn is_part(text: Seq<char>, range: TextRange) -> bool {
    let bytes = vstd::utf8::encode_utf8(text);
    &&& range.start <= range.end <= bytes.len()
    &&& vstd::utf8::is_char_boundary(bytes, range.start as int)
    &&& vstd::utf8::is_char_boundary(bytes, range.end as int)
}

/// The part of a text at a range of bytes.
pub open spec fn part_of(text: Seq<char>, range: TextRange) -> Seq<char> {
    vstd::utf8::decode_utf8(
        vstd::utf8::encode_utf8(text).subrange(range.start as int, range.end as int),
    )
}

/// The part of a text at a range of bytes.
pub fn slice(text: &str, range: TextRange) -> (part: &str)
    requires
        is_part(text@, range),
    ensures
        part@ == part_of(text@, range),
{
    let ghost bytes = vstd::utf8::encode_utf8(text@);
    proof {
        vstd::utf8::encode_utf8_valid_utf8(text@);
    }
    let (head, _) = text.split_at(range.end as usize);
    let ghost front = vstd::utf8::encode_utf8(head@);
    proof {
        assert(front == bytes.subrange(0, range.end as int));
        vstd::utf8::encode_utf8_valid_utf8(head@);
        if range.start < range.end {
            vstd::utf8::is_char_boundary_iff_not_is_continuation_byte(bytes, range.start as int);
            vstd::utf8::is_char_boundary_iff_not_is_continuation_byte(front, range.start as int);
            assert(front[range.start as int] == bytes[range.start as int]);
        } else {
            vstd::utf8::is_char_boundary_start_end_of_seq(front);
        }
    }
    let (_, part) = head.split_at(range.start as usize);
    proof {
        vstd::utf8::encode_utf8_decode_utf8(part@);
        assert(vstd::utf8::encode_utf8(part@) =~= bytes.subrange(
            range.start as int,
            range.end as int,
        ));
    }
    part
}

} // verus!

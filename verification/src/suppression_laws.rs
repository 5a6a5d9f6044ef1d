//! What holds of every suppression directive.

use vstd::prelude::*;

use crate::suppression;
use crate::suppression::{
    FunctionSuppression, InvalidSuppressionReason, ParsedDirective, Reading, StatementSuppression,
    SuppressionProblemKind,
};
use crate::syntax::{Stmt, StmtKind};
use crate::text::TextRange;

verus! {

// ---------------------------------------------------------------------------------------------
// Comments
// ---------------------------------------------------------------------------------------------

/// A comment that does not address the analysis is neither a directive nor a problem.
pub proof fn law_unrelated_comments_do_nothing(source: Seq<u8>, range: TextRange)
    requires
        range.start < range.end <= source.len(),
        ({
            let bytes = source.subrange(range.start as int, range.end as int);
            !suppression::has_at(
                bytes,
                suppression::skip_space(bytes, 1),
                suppression::utf8("chalk:"@),
            )
        }),
    ensures
        suppression::directive_of(source, range) is None,
        suppression::problems_of(
            source.subrange(range.start as int, range.end as int),
            range.start as int,
        ).len() == 0,
{
}

/// A comment that addresses the analysis is either a directive, whose problems are then those of
/// single codes, or one problem that is of no single code.
pub proof fn law_directive_or_invalid(source: Seq<u8>, range: TextRange)
    requires
        range.start < range.end <= source.len(),
    ensures
        ({
            let bytes = source.subrange(range.start as int, range.end as int);
            let problems = suppression::problems_of(bytes, range.start as int);
            match suppression::directive_of(source, range) {
                Some(directive) => {
                    &&& directive.range == range
                    &&& forall|i: int|
                        0 <= i < problems.len() ==> is_of_a_code((#[trigger] problems[i]).kind)
                },
                None => problems.len() <= 1 && forall|i: int|
                    0 <= i < problems.len() ==> !is_of_a_code((#[trigger] problems[i]).kind),
            }
        }),
{
    let bytes = source.subrange(range.start as int, range.end as int);
    if let Reading::Codes { codes } = suppression::read_comment(bytes) {
        lemma_code_problems(bytes, range.start as int, codes);
    }
}

/// Whether a problem is that of a single code, and leaves the directive one.
pub open spec fn is_of_a_code(kind: SuppressionProblemKind) -> bool {
    ||| kind == SuppressionProblemKind::UnknownCode
    ||| kind == SuppressionProblemKind::Invalid(InvalidSuppressionReason::UnsuppressibleCode)
}

/// Each code of a directive is either that of the diagnostic it switches off, or a problem at its
/// place: a code that cannot be suppressed where it names a cycle, an unknown code otherwise.
pub proof fn law_codes_suppress_or_are_reported(bytes: Seq<u8>, base: int)
    requires
        suppression::read_comment(bytes) is Codes,
    ensures
        ({
            let codes = suppression::read_comment(bytes)->codes;
            let problems = suppression::problems_of(bytes, base);
            forall|k: int|
                0 <= k < codes.len() ==> suppression::is_known_code(bytes, #[trigger] codes[k])
                    || problems.contains(
                    suppression::SuppressionProblem {
                        range: suppression::absolute(base, codes[k]),
                        kind: if suppression::is_unsuppressible_code(bytes, codes[k]) {
                            SuppressionProblemKind::Invalid(
                                InvalidSuppressionReason::UnsuppressibleCode,
                            )
                        } else {
                            SuppressionProblemKind::UnknownCode
                        },
                    },
                )
        }),
{
    let codes = suppression::read_comment(bytes)->codes;
    assert forall|k: int|
        0 <= k < codes.len() && !suppression::is_known_code(
            bytes,
            #[trigger] codes[k],
        ) implies suppression::problems_of(bytes, base).contains(
        suppression::SuppressionProblem {
            range: suppression::absolute(base, codes[k]),
            kind: suppression::code_problem(bytes, codes[k]),
        },
    ) by {
        lemma_code_is_reported(bytes, base, codes, k);
    }
}

proof fn lemma_code_is_reported(bytes: Seq<u8>, base: int, codes: Seq<(int, int)>, k: int)
    requires
        0 <= k < codes.len(),
        !suppression::is_known_code(bytes, codes[k]),
    ensures
        suppression::code_problems(bytes, base, codes).contains(
            suppression::SuppressionProblem {
                range: suppression::absolute(base, codes[k]),
                kind: suppression::code_problem(bytes, codes[k]),
            },
        ),
    decreases codes.len(),
{
    let init = codes.drop_last();
    let before = suppression::code_problems(bytes, base, init);
    let problems = suppression::code_problems(bytes, base, codes);
    let problem = suppression::SuppressionProblem {
        range: suppression::absolute(base, codes[k]),
        kind: suppression::code_problem(bytes, codes[k]),
    };
    if k == codes.len() - 1 {
        assert(problems[before.len() as int] == problem);
    } else {
        assert(init[k] == codes[k]);
        lemma_code_is_reported(bytes, base, init, k);
        let i = choose|i: int| 0 <= i < before.len() && before[i] == problem;
        assert(problems[i] == problem);
    }
}

proof fn lemma_code_problems(bytes: Seq<u8>, base: int, codes: Seq<(int, int)>)
    ensures
        ({
            let problems = suppression::code_problems(bytes, base, codes);
            forall|i: int|
                0 <= i < problems.len() ==> is_of_a_code((#[trigger] problems[i]).kind)
                    && exists|k: int|
                    0 <= k < codes.len() && problems[i].range == suppression::absolute(
                        base,
                        #[trigger] codes[k],
                    )
        }),
    decreases codes.len(),
{
    if codes.len() > 0 {
        let init = codes.drop_last();
        lemma_code_problems(bytes, base, init);
        let problems = suppression::code_problems(bytes, base, codes);
        let before = suppression::code_problems(bytes, base, init);
        assert forall|i: int| 0 <= i < problems.len() implies is_of_a_code(
            (#[trigger] problems[i]).kind,
        ) && exists|k: int|
            0 <= k < codes.len() && problems[i].range == suppression::absolute(
                base,
                #[trigger] codes[k],
            ) by {
            if i < before.len() {
                assert(problems[i] == before[i]);
                let k = choose|k: int|
                    0 <= k < init.len() && before[i].range == suppression::absolute(
                        base,
                        #[trigger] init[k],
                    );
                assert(codes[k] == init[k]);
            } else {
                assert(codes[codes.len() - 1] == codes.last());
            }
        }
    }
}

proof fn lemma_skip_space(bytes: Seq<u8>, at: int)
    requires
        0 <= at <= bytes.len(),
    ensures
        at <= suppression::skip_space(bytes, at) <= bytes.len(),
    decreases bytes.len() - at,
{
    if at < bytes.len() && suppression::is_space(bytes[at]) {
        lemma_skip_space(bytes, at + 1);
    }
}

proof fn lemma_space_trimmed(bytes: Seq<u8>, from: int, end: int)
    requires
        from <= end,
    ensures
        from <= suppression::space_trimmed(bytes, from, end) <= end,
    decreases end - from,
{
    if from < end && suppression::is_space(bytes[end - 1]) {
        lemma_space_trimmed(bytes, from, end - 1);
    }
}

proof fn lemma_space_led(bytes: Seq<u8>, from: int, end: int)
    requires
        from <= end,
    ensures
        from <= suppression::space_led(bytes, from, end) <= end,
    decreases end - from,
{
    if from < end && suppression::is_space(bytes[from]) {
        lemma_space_led(bytes, from + 1, end);
    }
}

proof fn lemma_first_of(bytes: Seq<u8>, byte: u8, from: int, end: int)
    requires
        from <= end,
    ensures
        from <= suppression::first_of(bytes, byte, from, end) <= end,
    decreases end - from,
{
    if from < end && bytes[from] != byte {
        lemma_first_of(bytes, byte, from + 1, end);
    }
}

proof fn lemma_read_codes(bytes: Seq<u8>, first: int, from: int, close: int)
    requires
        0 <= first <= from <= close,
    ensures
        match suppression::read_codes(bytes, first, from, close) {
            Ok(codes) => forall|i: int|
                0 <= i < codes.len() ==> first <= (#[trigger] codes[i]).0 < codes[i].1 <= close,
            Err(place) => first <= place.0 <= place.1 <= close,
        },
    decreases close - from,
{
    let end = suppression::first_of(bytes, 0x2c, from, close);
    lemma_first_of(bytes, 0x2c, from, close);
    lemma_space_led(bytes, from, end);
    let start = suppression::space_led(bytes, from, end);
    lemma_space_trimmed(bytes, start, end);
    if end < close {
        lemma_read_codes(bytes, first, end + 1, close);
    }
}

/// Every problem lies inside the comment that it is a problem of.
pub proof fn law_problems_lie_in_their_comment(source: Seq<u8>, range: TextRange)
    requires
        range.start < range.end <= source.len(),
    ensures
        ({
            let bytes = source.subrange(range.start as int, range.end as int);
            let problems = suppression::problems_of(bytes, range.start as int);
            forall|i: int|
                0 <= i < problems.len() ==> range.encloses((#[trigger] problems[i]).range)
                    && problems[i].range.start <= problems[i].range.end
        }),
{
    let bytes = source.subrange(range.start as int, range.end as int);
    let base = range.start as int;
    let len = bytes.len() as int;
    reveal_strlit("chalk:");
    reveal_strlit("ignore");
    vstd::utf8::is_ascii_chars_encode_utf8("chalk:"@);
    vstd::utf8::is_ascii_chars_encode_utf8("ignore"@);
    lemma_skip_space(bytes, 1);
    let address = suppression::skip_space(bytes, 1);
    if suppression::has_at(bytes, address, suppression::utf8("chalk:"@)) {
        lemma_skip_space(bytes, address + 6);
        let verb = suppression::skip_space(bytes, address + 6);
        lemma_space_trimmed(bytes, verb, len);
        if suppression::has_at(bytes, verb, suppression::utf8("ignore"@)) {
            let behind = verb + 6;
            lemma_space_trimmed(bytes, behind, len);
            lemma_skip_space(bytes, behind);
            let open = suppression::skip_space(bytes, behind);
            lemma_space_trimmed(bytes, open, len);
            if open < len {
                lemma_first_of(bytes, 0x5d, open + 1, len);
                let close = suppression::first_of(bytes, 0x5d, open + 1, len);
                if close < len {
                    lemma_skip_space(bytes, close + 1);
                    lemma_space_trimmed(bytes, suppression::skip_space(bytes, close + 1), len);
                    lemma_read_codes(bytes, open + 1, open + 1, close);
                }
            }
        }
    }
    if let Reading::Codes { codes } = suppression::read_comment(bytes) {
        lemma_code_problems(bytes, base, codes);
        let problems = suppression::problems_of(bytes, base);
        assert forall|i: int| 0 <= i < problems.len() implies range.encloses(
            (#[trigger] problems[i]).range,
        ) && problems[i].range.start <= problems[i].range.end by {
            let k = choose|k: int|
                0 <= k < codes.len() && problems[i].range == suppression::absolute(
                    base,
                    #[trigger] codes[k],
                );
            assert(0 <= codes[k].0 < codes[k].1 <= len);
        }
    }
}

// ---------------------------------------------------------------------------------------------
// Statements
// ---------------------------------------------------------------------------------------------

/// Whether a statement was visited before a directive was held against it.
spec fn visited(stmt: int, directive: int, n: int, m: int) -> bool {
    stmt < n || (stmt == n && directive < m)
}

spec fn distinct(found: Seq<StatementSuppression>) -> bool {
    forall|i: int, j: int|
        0 <= i < j < found.len() ==> (#[trigger] found[i]).directive != (
        #[trigger] found[j]).directive
}

spec fn backed(
    bytes: Seq<u8>,
    directives: Seq<ParsedDirective>,
    stmts: Seq<Stmt>,
    found: Seq<StatementSuppression>,
) -> bool {
    forall|i: int|
        0 <= i < found.len() ==> #[trigger] has_backing(bytes, directives, stmts, found[i])
}

/// Whether an entry joins a directive to a statement that it stands behind.
pub open spec fn has_backing(
    bytes: Seq<u8>,
    directives: Seq<ParsedDirective>,
    stmts: Seq<Stmt>,
    entry: StatementSuppression,
) -> bool {
    exists|d: int, s: int|
        0 <= d < directives.len() && 0 <= s < stmts.len() && (#[trigger] directives[d]).range
            == entry.directive && (#[trigger] stmts[s]).range == entry.statement
            && suppression::trails(bytes, directives[d], stmts[s].range)
}

spec fn covered(
    bytes: Seq<u8>,
    directives: Seq<ParsedDirective>,
    stmts: Seq<Stmt>,
    found: Seq<StatementSuppression>,
    n: int,
    m: int,
) -> bool {
    forall|s: int, d: int|
        0 <= s < stmts.len() && 0 <= d < directives.len() && visited(s, d, n, m)
            && suppression::trails(bytes, #[trigger] directives[d], (#[trigger] stmts[s]).range)
            ==> is_entry(found, directives[d].range, stmts[s].range)
}

/// Whether a directive has an entry, for a statement that lies at least as deep as another.
pub open spec fn is_entry(
    found: Seq<StatementSuppression>,
    directive: TextRange,
    range: TextRange,
) -> bool {
    exists|i: int|
        0 <= i < found.len() && (#[trigger] found[i]).directive == directive
            && !suppression::lies_deeper(range, found[i].statement)
}

proof fn lemma_entry(found: Seq<StatementSuppression>, directive: TextRange, at: int)
    requires
        0 <= at <= found.len(),
    ensures
        match suppression::entry_of(found, directive, at) {
            Some(index) => at <= index < found.len() && found[index].directive == directive,
            None => forall|i: int|
                at <= i < found.len() ==> (#[trigger] found[i]).directive != directive,
        },
    decreases found.len() - at,
{
    if at < found.len() && found[at].directive != directive {
        lemma_entry(found, directive, at + 1);
    }
}

proof fn lemma_apply(
    bytes: Seq<u8>,
    directives: Seq<ParsedDirective>,
    stmts: Seq<Stmt>,
    found: Seq<StatementSuppression>,
    n: int,
    m: int,
)
    requires
        0 <= n < stmts.len(),
        0 <= m < directives.len(),
        distinct(found),
        backed(bytes, directives, stmts, found),
        covered(bytes, directives, stmts, found, n, m),
    ensures
        ({
            let next = if suppression::trails(bytes, directives[m], stmts[n].range) {
                suppression::applied(found, directives[m].range, stmts[n].range)
            } else {
                found
            };
            &&& distinct(next)
            &&& backed(bytes, directives, stmts, next)
            &&& covered(bytes, directives, stmts, next, n, m + 1)
        }),
{
    let directive = directives[m].range;
    let range = stmts[n].range;
    if suppression::trails(bytes, directives[m], range) {
        let next = suppression::applied(found, directive, range);
        lemma_entry(found, directive, 0);
        let place = suppression::entry_of(found, directive, 0);
        assert forall|i: int| 0 <= i < next.len() implies #[trigger] has_backing(
            bytes,
            directives,
            stmts,
            next[i],
        ) by {
            if i < found.len() && next[i] == found[i] {
                assert(has_backing(bytes, directives, stmts, found[i]));
            } else {
                assert(directives[m].range == next[i].directive);
                assert(stmts[n].range == next[i].statement);
            }
        }
        assert forall|s: int, d: int|
            0 <= s < stmts.len() && 0 <= d < directives.len() && visited(s, d, n, m + 1)
                && suppression::trails(
                bytes,
                #[trigger] directives[d],
                (#[trigger] stmts[s]).range,
            ) implies is_entry(next, directives[d].range, stmts[s].range) by {
            if s == n && d == m {
                match place {
                    Some(at) => {
                        assert(next[at].directive == directive);
                    },
                    None => {
                        assert(next[found.len() as int].directive == directive);
                    },
                }
            } else {
                assert(is_entry(found, directives[d].range, stmts[s].range));
                let i = choose|i: int|
                    0 <= i < found.len() && (#[trigger] found[i]).directive == directives[d].range
                        && !suppression::lies_deeper(stmts[s].range, found[i].statement);
                assert(next[i].directive == directives[d].range);
            }
        }
    }
}

proof fn lemma_with_statement(
    bytes: Seq<u8>,
    directives: Seq<ParsedDirective>,
    stmts: Seq<Stmt>,
    found: Seq<StatementSuppression>,
    n: int,
    m: int,
)
    requires
        0 <= n < stmts.len(),
        0 <= m <= directives.len(),
        distinct(found),
        backed(bytes, directives, stmts, found),
        covered(bytes, directives, stmts, found, n, 0),
    ensures
        ({
            let next = suppression::with_statement(
                bytes,
                directives.take(m),
                stmts[n].range,
                found,
            );
            &&& distinct(next)
            &&& backed(bytes, directives, stmts, next)
            &&& covered(bytes, directives, stmts, next, n, m)
        }),
    decreases m,
{
    if m > 0 {
        lemma_with_statement(bytes, directives, stmts, found, n, m - 1);
        assert(directives.take(m).drop_last() =~= directives.take(m - 1));
        let before = suppression::with_statement(
            bytes,
            directives.take(m - 1),
            stmts[n].range,
            found,
        );
        lemma_apply(bytes, directives, stmts, before, n, m - 1);
    }
}

proof fn lemma_with_statements(
    bytes: Seq<u8>,
    directives: Seq<ParsedDirective>,
    stmts: Seq<Stmt>,
    n: int,
)
    requires
        0 <= n <= stmts.len(),
    ensures
        ({
            let next = suppression::with_statements(
                bytes,
                directives,
                stmts.take(n),
                Seq::empty(),
            );
            &&& distinct(next)
            &&& backed(bytes, directives, stmts, next)
            &&& covered(bytes, directives, stmts, next, n, 0)
        }),
    decreases n,
{
    if n > 0 {
        lemma_with_statements(bytes, directives, stmts, n - 1);
        assert(stmts.take(n).drop_last() =~= stmts.take(n - 1));
        let before = suppression::with_statements(
            bytes,
            directives,
            stmts.take(n - 1),
            Seq::empty(),
        );
        lemma_with_statement(
            bytes,
            directives,
            stmts,
            before,
            n - 1,
            directives.len() as int,
        );
        assert(directives.take(directives.len() as int) =~= directives);
    }
}

/// A directive behind a statement applies to exactly one statement, and among those that it stands
/// behind to one that lies deepest.
pub proof fn law_directive_applies_to_deepest_statement(
    bytes: Seq<u8>,
    directives: Seq<ParsedDirective>,
    stmts: Seq<Stmt>,
)
    ensures
        ({
            let found = suppression::with_statements(bytes, directives, stmts, Seq::empty());
            &&& forall|i: int, j: int|
                0 <= i < j < found.len() ==> (#[trigger] found[i]).directive != (
                #[trigger] found[j]).directive
            &&& forall|i: int|
                0 <= i < found.len() ==> has_backing(
                    bytes,
                    directives,
                    stmts,
                    #[trigger] found[i],
                )
            &&& forall|s: int, d: int|
                0 <= s < stmts.len() && 0 <= d < directives.len() && suppression::trails(
                    bytes,
                    #[trigger] directives[d],
                    (#[trigger] stmts[s]).range,
                ) ==> is_entry(found, directives[d].range, stmts[s].range)
        }),
{
    lemma_with_statements(bytes, directives, stmts, stmts.len() as int);
    assert(stmts.take(stmts.len() as int) =~= stmts);
    let found = suppression::with_statements(bytes, directives, stmts, Seq::empty());
    assert forall|i: int| 0 <= i < found.len() implies has_backing(
        bytes,
        directives,
        stmts,
        #[trigger] found[i],
    ) by {
    }
    assert forall|s: int, d: int|
        0 <= s < stmts.len() && 0 <= d < directives.len() && suppression::trails(
            bytes,
            #[trigger] directives[d],
            (#[trigger] stmts[s]).range,
        ) implies is_entry(found, directives[d].range, stmts[s].range) by {
        assert(visited(s, d, stmts.len() as int, 0));
    }
}

// ---------------------------------------------------------------------------------------------
// Functions
// ---------------------------------------------------------------------------------------------

/// Whether an entry joins a directive that has a line to itself to the function right below it.
pub open spec fn stands_above(
    bytes: Seq<u8>,
    directives: Seq<ParsedDirective>,
    stmts: Seq<Stmt>,
    entry: FunctionSuppression,
) -> bool {
    exists|d: int, s: int|
        0 <= d < directives.len() && 0 <= s < stmts.len() && (#[trigger] directives[d]).range
            == entry.directive && directives[d].own_line
            && directives[d].suppresses_unsupported_function && ((#[trigger] stmts[s]).kind matches
            StmtKind::Function { definition, anchor, .. } && definition == entry.definition
            && stmts[s].range == entry.function && directives[d].line + 1 == suppression::line_of(
            bytes,
            anchor as int,
        ))
}

proof fn lemma_directive_on(directives: Seq<ParsedDirective>, line: int, at: int)
    requires
        0 <= at <= directives.len(),
    ensures
        match suppression::directive_on(directives, line, at) {
            Some(directive) => directive.line == line && directive.own_line
                && directive.suppresses_unsupported_function && exists|d: int|
                at <= d < directives.len() && #[trigger] directives[d] == directive,
            None => forall|d: int|
                at <= d < directives.len() && (#[trigger] directives[d]).own_line
                    && directives[d].suppresses_unsupported_function ==> directives[d].line
                    != line,
        },
    decreases directives.len() - at,
{
    if at < directives.len() {
        if directives[at].line == line && directives[at].own_line
            && directives[at].suppresses_unsupported_function {
        } else {
            lemma_directive_on(directives, line, at + 1);
        }
    }
}

/// A function is suppressed exactly by a directive alone on the line above it: one above its
/// decorators where it has some. Directives that share their line with code never reach a function.
pub proof fn law_function_directives_stand_above(
    bytes: Seq<u8>,
    directives: Seq<ParsedDirective>,
    stmts: Seq<Stmt>,
)
    ensures
        ({
            let found = suppression::function_entries(bytes, directives, stmts);
            &&& forall|i: int|
                0 <= i < found.len() ==> stands_above(bytes, directives, stmts, #[trigger] found[i])
            &&& forall|s: int|
                0 <= s < stmts.len() && suppression::function_entry(
                    bytes,
                    directives,
                    #[trigger] stmts[s],
                ) is Some ==> found.contains(
                    suppression::function_entry(bytes, directives, stmts[s])->0,
                )
        }),
    decreases stmts.len(),
{
    let found = suppression::function_entries(bytes, directives, stmts);
    if stmts.len() > 0 {
        let init = stmts.drop_last();
        law_function_directives_stand_above(bytes, directives, init);
        let before = suppression::function_entries(bytes, directives, init);
        if let StmtKind::Function { anchor, .. } = stmts.last().kind {
            lemma_directive_on(directives, suppression::line_of(bytes, anchor as int) - 1, 0);
        }
        assert forall|i: int| 0 <= i < found.len() implies stands_above(
            bytes,
            directives,
            stmts,
            #[trigger] found[i],
        ) by {
            if i < before.len() {
                assert(stands_above(bytes, directives, init, before[i]));
                let (d, s) = choose|d: int, s: int|
                    0 <= d < directives.len() && 0 <= s < init.len() && (
                    #[trigger] directives[d]).range == before[i].directive
                        && directives[d].own_line
                        && directives[d].suppresses_unsupported_function && ((
                    #[trigger] init[s]).kind matches StmtKind::Function { definition, anchor, .. }
                        && definition == before[i].definition && init[s].range
                        == before[i].function && directives[d].line + 1 == suppression::line_of(
                        bytes,
                        anchor as int,
                    ));
                assert(stmts[s] == init[s]);
            } else {
                let s = stmts.len() - 1;
                assert(stmts[s] == stmts.last());
            }
        }
        assert forall|s: int|
            0 <= s < stmts.len() && suppression::function_entry(
                bytes,
                directives,
                #[trigger] stmts[s],
            ) is Some implies found.contains(
            suppression::function_entry(bytes, directives, stmts[s])->0,
        ) by {
            let entry = suppression::function_entry(bytes, directives, stmts[s])->0;
            if s < init.len() {
                assert(init[s] == stmts[s]);
                assert(before.contains(entry));
                let k = choose|k: int| 0 <= k < before.len() && before[k] == entry;
                assert(found[k] == entry);
            } else {
                assert(found[before.len() as int] == entry);
            }
        }
    }
}

} // verus!

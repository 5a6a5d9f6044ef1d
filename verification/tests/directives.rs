use ty_chalk::semantic::Definition;
use ty_chalk::suppression::{
    extract_suppressions, parse_comment, InvalidSuppressionReason, Lines, ParsedDirective,
    SuppressionProblem, SuppressionProblemKind,
};
use ty_chalk::syntax::{Child, Stmt, StmtKind};
use ty_chalk::text::TextRange;
use ty_chalk::version::ruff_version_info;

/// Reads the first comment of a source.
fn read(source: &str) -> (Option<ParsedDirective>, Vec<SuppressionProblem>) {
    let start = source.find('#').unwrap();
    let end = source[start..].find('\n').map_or(source.len(), |length| start + length);
    let mut problems: Vec<SuppressionProblem> = Vec::new();
    let directive = parse_comment(
        source,
        TextRange::new(start as u32, end as u32),
        &Lines::new(source),
        &mut problems,
    );
    (directive, problems)
}

/// The reason why a comment is no directive, and the part that is wrong.
fn refused(source: &str) -> (InvalidSuppressionReason, &str) {
    let (directive, problems) = read(source);
    assert!(directive.is_none());
    let [problem] = problems.as_slice() else {
        panic!("one problem is found: {problems:?}");
    };
    let SuppressionProblemKind::Invalid(reason) = problem.kind else {
        panic!("the directive is refused: {problem:?}");
    };
    (reason, &source[problem.range.start as usize..problem.range.end as usize])
}

#[test]
fn directives_are_read_with_their_place() {
    let (directive, problems) = read("# chalk: ignore[unsupported-function]");
    let directive = directive.unwrap();
    assert!(problems.is_empty());
    assert!(directive.own_line && directive.suppresses_unsupported_function);
    assert_eq!(directive.line, 0);
    assert_eq!(directive.range, TextRange::new(0, 37));

    let (directive, _) = read("first()\nsecond()  #chalk:ignore [ unsupported-function ]  \n");
    let directive = directive.unwrap();
    assert!(!directive.own_line);
    assert_eq!(directive.line, 1);
}

#[test]
fn unrelated_comments_are_no_directives() {
    for source in ["# a comment", "#", "# chalky: ignore", "# type: ignore"] {
        let (directive, problems) = read(source);
        assert!(directive.is_none() && problems.is_empty(), "{source}");
    }
}

#[test]
fn unknown_codes_are_reported_and_known_ones_still_apply() {
    let source = "# chalk: ignore[future-code, unsupported-function]";
    let (directive, problems) = read(source);
    assert!(directive.unwrap().suppresses_unsupported_function);
    assert_eq!(problems.len(), 1);
    assert_eq!(problems[0].kind, SuppressionProblemKind::UnknownCode);
    let range = problems[0].range;
    assert_eq!(&source[range.start as usize..range.end as usize], "future-code");
}

#[test]
fn cycles_cannot_be_switched_off() {
    let source = "# chalk: ignore[resolver-cycle, future-code]";
    let (directive, problems) = read(source);
    assert!(!directive.unwrap().suppresses_unsupported_function);
    let kinds: Vec<SuppressionProblemKind> = problems.iter().map(|problem| problem.kind).collect();
    assert_eq!(
        kinds,
        [
            SuppressionProblemKind::Invalid(InvalidSuppressionReason::UnsuppressibleCode),
            SuppressionProblemKind::UnknownCode,
        ]
    );
    let range = problems[0].range;
    assert_eq!(&source[range.start as usize..range.end as usize], "resolver-cycle");

    let (directive, problems) = read("# chalk: ignore[unsupported-function, resolver-cycles]");
    assert!(directive.unwrap().suppresses_unsupported_function);
    assert_eq!(problems[0].kind, SuppressionProblemKind::UnknownCode);
}

#[test]
fn malformed_directives_say_why() {
    assert_eq!(refused("# chalk: disable").0, InvalidSuppressionReason::ExpectedIgnore);
    assert_eq!(refused("# chalk: ignore").0, InvalidSuppressionReason::Blanket);
    assert_eq!(
        refused("# chalk: ignore unsupported-function").0,
        InvalidSuppressionReason::ExpectedCodeList
    );
    assert_eq!(
        refused("# chalk: ignore[unsupported-function").0,
        InvalidSuppressionReason::MissingClosingBracket
    );
    assert_eq!(refused("# chalk: ignore[ ]").0, InvalidSuppressionReason::EmptyCodeList);
    assert_eq!(
        refused("# chalk: ignore[unsupported-function,]").0,
        InvalidSuppressionReason::MalformedCodeList
    );
    assert_eq!(
        refused("# chalk: ignore[unsupported-function] because").0,
        InvalidSuppressionReason::TrailingContent
    );
}

fn range_of(source: &str, part: &str) -> TextRange {
    let start = source.find(part).unwrap();
    TextRange::new(start as u32, (start + part.len()) as u32)
}

fn statement(range: TextRange, kind: StmtKind, body: Vec<Child>) -> Child {
    Child::Stmt(Stmt { range, kind, header: Vec::new(), body })
}

#[test]
fn directives_apply_to_the_deepest_statement_and_the_function_below() {
    let source = "\
# chalk: ignore[unsupported-function]
def outer():
    inner()  # chalk: ignore[unsupported-function]
";
    let first = range_of(source, "# chalk: ignore[unsupported-function]\ndef");
    let above = TextRange::new(first.start, first.end - 4);
    let start = source.rfind('#').unwrap() as u32;
    let behind = TextRange::new(start, start + 37);
    let call = range_of(source, "inner()");
    let definition = Definition { id: 7 };
    let function = TextRange::new(range_of(source, "def").start, call.end);
    let body = vec![statement(
        function,
        StmtKind::Function { definition, anchor: function.start, decorators: Vec::new() },
        vec![statement(call, StmtKind::Other, Vec::new())],
    )];
    let found = extract_suppressions(source, &vec![above, behind], &body);
    assert!(found.problems().is_empty());
    assert_eq!(found.function().len(), 1);
    assert_eq!(found.function()[0].definition, definition);
    assert_eq!(found.function()[0].directive, above);
    assert_eq!(found.statement().len(), 1);
    assert_eq!(found.statement()[0].statement, call);
    assert_eq!(found.statement()[0].directive, behind);
}

#[test]
fn the_version_is_that_of_the_package_section() {
    let manifest = "\
[workspace]
version = \"9.9.9\"

[package]
name = \"ruff\"
version = \"0.14.2\"
edition = \"2024\"
";
    assert_eq!(ruff_version_info(manifest).as_deref(), Some("0.14.2"));
    assert_eq!(ruff_version_info("[package]\nname = \"ruff\"\n"), None);
    assert_eq!(ruff_version_info("[package]\n[lib]\nversion = \"1\"\n"), None);
    assert_eq!(ruff_version_info(""), None);
}

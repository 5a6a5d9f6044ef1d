//! Diagnostics: what is reported of a file, with its wording.

use vstd::prelude::*;

use crate::call_matcher::{CallMatchTarget, CallNoMatchReason, Target};
use crate::order;
use crate::order::{Keyed, Ordered};
use crate::presentation;
use crate::reachability;
use crate::reachability::{
    CycleCandidate, Place, ProjectCandidates, ProjectSuppressionProblem, Unsupported,
    UnsupportedCallCandidate, UnsupportedTarget,
};
use crate::semantic::{Db, File, FileRange};
use crate::supported_functions::{CallKey, SupportedCall, SupportedFuncs};
use crate::suppression::{InvalidSuppressionReason, SuppressionProblemKind};
use crate::text;
use crate::text::{Relation, TextRange};

verus! {

broadcast use vstd::string::group_string_axioms;

/// How long a call may be to be quoted in a diagnostic.
pub const MAX_OBSERVED_CALL_CHARACTERS: usize = 160;

/// How bad a diagnostic is.
#[derive(Clone, Copy, Debug, PartialEq, Eq, Hash, Structural)]
pub enum ChalkDiagnosticSeverity {
    Warning,
    Error,
}

/// A target that is not supported, as a diagnostic shows it.
#[derive(Debug)]
pub struct UnsupportedTargetDetail {
    pub label: String,
    pub reason: CallNoMatchReason,
    pub location: Option<FileRange>,
}

/// What a diagnostic says of a call that is not supported.
#[derive(Debug)]
pub struct UnsupportedFunctionDetails {
    pub targets: Vec<UnsupportedTargetDetail>,
    pub observed_call: Option<String>,
    pub supported_signatures: Vec<String>,
}

/// What a diagnostic is about.
#[derive(Debug)]
pub enum ChalkDiagnosticKind {
    UnsupportedFunction(UnsupportedFunctionDetails),
    ResolverCycle,
    UnknownSuppression { code: String },
    InvalidSuppression { reason: InvalidSuppressionReason },
}

/// A diagnostic.
#[derive(Debug)]
pub struct ChalkDiagnostic {
    pub file: File,
    pub range: TextRange,
    pub kind: ChalkDiagnosticKind,
}

// ---------------------------------------------------------------------------------------------
// Models
// ---------------------------------------------------------------------------------------------

/// A target that is not supported, as a diagnostic shows it.
pub struct Detail {
    pub label: Seq<char>,
    pub reason: CallNoMatchReason,
    pub location: Option<FileRange>,
}

/// What a diagnostic says of a call that is not supported.
pub struct Details {
    pub targets: Seq<Detail>,
    pub observed_call: Option<Seq<char>>,
    pub signatures: Seq<Seq<char>>,
}

/// What a diagnostic is about.
pub enum Kind {
    UnsupportedFunction(Details),
    ResolverCycle,
    UnknownSuppression { code: Seq<char> },
    InvalidSuppression { reason: InvalidSuppressionReason },
}

/// A diagnostic.
pub struct Diagnostic {
    pub file: File,
    pub range: TextRange,
    pub kind: Kind,
}

impl View for UnsupportedTargetDetail {
    type V = Detail;

    open spec fn view(&self) -> Detail {
        Detail { label: self.label@, reason: self.reason, location: self.location }
    }
}

/// Targets as a diagnostic shows them.
pub open spec fn detail_views(details: Seq<UnsupportedTargetDetail>) -> Seq<Detail> {
    Seq::new(details.len(), |i: int| details[i]@)
}

impl View for UnsupportedFunctionDetails {
    type V = Details;

    open spec fn view(&self) -> Details {
        Details {
            targets: detail_views(self.targets@),
            observed_call: match self.observed_call {
                Some(call) => Some(call@),
                None => None,
            },
            signatures: order::keys(self.supported_signatures@),
        }
    }
}

impl View for ChalkDiagnosticKind {
    type V = Kind;

    open spec fn view(&self) -> Kind {
        match self {
            ChalkDiagnosticKind::UnsupportedFunction(details) => Kind::UnsupportedFunction(
                details@,
            ),
            ChalkDiagnosticKind::ResolverCycle => Kind::ResolverCycle,
            ChalkDiagnosticKind::UnknownSuppression { code } => Kind::UnknownSuppression {
                code: code@,
            },
            ChalkDiagnosticKind::InvalidSuppression { reason } => Kind::InvalidSuppression {
                reason: *reason,
            },
        }
    }
}

impl View for ChalkDiagnostic {
    type V = Diagnostic;

    open spec fn view(&self) -> Diagnostic {
        Diagnostic { file: self.file, range: self.range, kind: self.kind@ }
    }
}

// ---------------------------------------------------------------------------------------------
// Wording
// ---------------------------------------------------------------------------------------------

/// How bad something is: only cycles are errors.
pub open spec fn severity_of(kind: Kind) -> ChalkDiagnosticSeverity {
    match kind {
        Kind::ResolverCycle => ChalkDiagnosticSeverity::Error,
        _ => ChalkDiagnosticSeverity::Warning,
    }
}

/// The code of a kind of diagnostic.
pub open spec fn code_of(kind: Kind) -> Seq<char> {
    match kind {
        Kind::UnsupportedFunction(_) => "unsupported-function"@,
        Kind::ResolverCycle => "resolver-cycle"@,
        Kind::UnknownSuppression { .. } => "unknown-chalk-suppression"@,
        Kind::InvalidSuppression { .. } => "invalid-chalk-suppression"@,
    }
}

/// What is wrong with a directive, in words.
pub open spec fn reason_text(reason: InvalidSuppressionReason) -> Seq<char> {
    match reason {
        InvalidSuppressionReason::ExpectedIgnore => "expected `ignore` after `chalk:`"@,
        InvalidSuppressionReason::Blanket => "suppression code is required"@,
        InvalidSuppressionReason::ExpectedCodeList => "expected a bracketed suppression code list"@,
        InvalidSuppressionReason::MissingClosingBracket => "missing closing `]`"@,
        InvalidSuppressionReason::EmptyCodeList => "suppression code list cannot be empty"@,
        InvalidSuppressionReason::MalformedCodeList => "malformed suppression code list"@,
        InvalidSuppressionReason::TrailingContent =>
            "unexpected content after suppression code list"@,
        InvalidSuppressionReason::UnsuppressibleCode => "this diagnostic code cannot be suppressed"@,
    }
}

/// The message of a kind of diagnostic.
pub open spec fn message_of(kind: Kind) -> Seq<char> {
    match kind {
        Kind::UnsupportedFunction(_) => "Call is not supported by the static accelerator"@,
        Kind::ResolverCycle => "Resolver call graph contains a cycle"@,
        Kind::UnknownSuppression { code } => "Unknown Chalk suppression code: "@ + code,
        Kind::InvalidSuppression { reason } => "Invalid Chalk suppression directive: "@
            + reason_text(reason),
    }
}

fn invalid_suppression_reason(reason: InvalidSuppressionReason) -> (text: &'static str)
    ensures
        text@ == reason_text(reason),
{
    match reason {
        InvalidSuppressionReason::ExpectedIgnore => "expected `ignore` after `chalk:`",
        InvalidSuppressionReason::Blanket => "suppression code is required",
        InvalidSuppressionReason::ExpectedCodeList => "expected a bracketed suppression code list",
        InvalidSuppressionReason::MissingClosingBracket => "missing closing `]`",
        InvalidSuppressionReason::EmptyCodeList => "suppression code list cannot be empty",
        InvalidSuppressionReason::MalformedCodeList => "malformed suppression code list",
        InvalidSuppressionReason::TrailingContent => "unexpected content after suppression code list",
        InvalidSuppressionReason::UnsuppressibleCode => "this diagnostic code cannot be suppressed",
    }
}

impl ChalkDiagnostic {
    pub fn file(&self) -> (file: File)
        ensures
            file == self.file,
    {
        self.file
    }

    pub fn range(&self) -> (range: TextRange)
        ensures
            range == self.range,
    {
        self.range
    }

    pub fn kind(&self) -> (kind: &ChalkDiagnosticKind)
        ensures
            *kind == self.kind,
    {
        &self.kind
    }

    /// What there is to say of a call that is not supported.
    pub fn unsupported_function_details(&self) -> (details: Option<&UnsupportedFunctionDetails>)
        ensures
            match details {
                Some(details) => self.kind == ChalkDiagnosticKind::UnsupportedFunction(*details),
                None => !(self.kind is UnsupportedFunction),
            },
    {
        match &self.kind {
            ChalkDiagnosticKind::UnsupportedFunction(details) => Some(details),
            _ => None,
        }
    }

    pub fn severity(&self) -> (severity: ChalkDiagnosticSeverity)
        ensures
            severity == severity_of(self.kind@),
    {
        match &self.kind {
            ChalkDiagnosticKind::ResolverCycle => ChalkDiagnosticSeverity::Error,
            _ => ChalkDiagnosticSeverity::Warning,
        }
    }

    pub fn code(&self) -> (code: &'static str)
        ensures
            code@ == code_of(self.kind@),
    {
        match &self.kind {
            ChalkDiagnosticKind::UnsupportedFunction(_) => "unsupported-function",
            ChalkDiagnosticKind::ResolverCycle => "resolver-cycle",
            ChalkDiagnosticKind::UnknownSuppression { .. } => "unknown-chalk-suppression",
            ChalkDiagnosticKind::InvalidSuppression { .. } => "invalid-chalk-suppression",
        }
    }

    pub fn message(&self) -> (message: String)
        ensures
            message@ == message_of(self.kind@),
    {
        match &self.kind {
            ChalkDiagnosticKind::UnsupportedFunction(_) => {
                "Call is not supported by the static accelerator".to_owned()
            },
            ChalkDiagnosticKind::ResolverCycle => "Resolver call graph contains a cycle".to_owned(),
            ChalkDiagnosticKind::UnknownSuppression { code } => {
                let mut message = "Unknown Chalk suppression code: ".to_owned();
                text::push_text(&mut message, code);
                message
            },
            ChalkDiagnosticKind::InvalidSuppression { reason } => {
                let mut message = "Invalid Chalk suppression directive: ".to_owned();
                text::push_text(&mut message, invalid_suppression_reason(*reason));
                message
            },
        }
    }
}

impl UnsupportedFunctionDetails {
    pub fn targets(&self) -> (targets: &Vec<UnsupportedTargetDetail>)
        ensures
            *targets == self.targets,
    {
        &self.targets
    }

    pub fn observed_call(&self) -> (call: Option<&str>)
        ensures
            match (call, self.observed_call) {
                (Some(shown), Some(held)) => shown@ == held@,
                (None, None) => true,
                _ => false,
            },
    {
        match &self.observed_call {
            Some(call) => Some(call.as_str()),
            None => None,
        }
    }

    pub fn supported_signatures(&self) -> (signatures: &Vec<String>)
        ensures
            *signatures == self.supported_signatures,
    {
        &self.supported_signatures
    }
}

impl UnsupportedTargetDetail {
    pub fn label(&self) -> (label: &str)
        ensures
            label@ == self.label@,
    {
        self.label.as_str()
    }

    pub fn reason(&self) -> (reason: CallNoMatchReason)
        ensures
            reason == self.reason,
    {
        self.reason
    }

    pub fn location(&self) -> (location: Option<FileRange>)
        ensures
            location == self.location,
    {
        self.location
    }
}

// ---------------------------------------------------------------------------------------------
// Order of diagnostics
// ---------------------------------------------------------------------------------------------

/// Where a diagnostic stands and what it is.
pub struct DiagnosticKey {
    pub start: u32,
    pub end: u32,
    pub code: Seq<char>,
}

impl Ordered for ChalkDiagnostic {
    type Key = DiagnosticKey;

    open spec fn key(&self) -> DiagnosticKey {
        DiagnosticKey { start: self.range.start, end: self.range.end, code: code_of(self.kind@) }
    }

    open spec fn key_before(a: DiagnosticKey, b: DiagnosticKey) -> bool {
        a.start < b.start || (a.start == b.start && (a.end < b.end || (a.end == b.end
            && text::text_before(a.code, b.code))))
    }

    proof fn key_irreflexive(a: DiagnosticKey) {
        text::lemma_text_before_irreflexive(a.code);
    }

    proof fn key_transitive(a: DiagnosticKey, b: DiagnosticKey, c: DiagnosticKey) {
        if text::text_before(a.code, b.code) && text::text_before(b.code, c.code) {
            text::lemma_text_before_transitive(a.code, b.code, c.code);
        }
    }

    proof fn key_total(a: DiagnosticKey, b: DiagnosticKey) {
        text::lemma_text_before_total(a.code, b.code);
    }
}

impl Keyed for ChalkDiagnostic {
    fn relate(&self, other: &Self) -> (relation: Relation) {
        proof {
            text::lemma_text_before_total(code_of(self.kind@), code_of(other.kind@));
        }
        if self.range.start < other.range.start {
            Relation::Less
        } else if self.range.start > other.range.start {
            Relation::Greater
        } else if self.range.end < other.range.end {
            Relation::Less
        } else if self.range.end > other.range.end {
            Relation::Greater
        } else {
            text::order_text(self.code(), other.code())
        }
    }
}

// ---------------------------------------------------------------------------------------------
// Targets
// ---------------------------------------------------------------------------------------------

/// What targets are sorted by: their labels, then missing entries before mismatches, then their
/// places, those without one first.
pub struct DetailKey {
    pub label: Seq<char>,
    pub rank: u8,
    pub place: Option<Place>,
}

/// The rank of a reason.
pub open spec fn rank_of(reason: CallNoMatchReason) -> u8 {
    match reason {
        CallNoMatchReason::MissingRegistryEntry => 0,
        CallNoMatchReason::SignatureMismatch => 1,
    }
}

fn reason_rank(reason: CallNoMatchReason) -> (rank: u8)
    ensures
        rank == rank_of(reason),
{
    match reason {
        CallNoMatchReason::MissingRegistryEntry => 0,
        CallNoMatchReason::SignatureMismatch => 1,
    }
}

/// The order of places that may be missing.
pub open spec fn location_before(a: Option<Place>, b: Option<Place>) -> bool {
    match (a, b) {
        (None, Some(_)) => true,
        (Some(a), Some(b)) => reachability::place_before(a, b),
        _ => false,
    }
}

/// The order of targets.
pub open spec fn detail_before(a: DetailKey, b: DetailKey) -> bool {
    text::text_before(a.label, b.label) || (a.label == b.label && (a.rank < b.rank || (a.rank
        == b.rank && location_before(a.place, b.place))))
}

proof fn lemma_location_order(a: Option<Place>, b: Option<Place>, c: Option<Place>)
    ensures
        !location_before(a, a),
        location_before(a, b) && location_before(b, c) ==> location_before(a, c),
        a == b || location_before(a, b) || location_before(b, a),
{
    if let Some(a) = a {
        text::lemma_text_before_irreflexive(a.path);
        if let Some(b) = b {
            text::lemma_text_before_total(a.path, b.path);
            if let Some(c) = c {
                if text::text_before(a.path, b.path) && text::text_before(b.path, c.path) {
                    text::lemma_text_before_transitive(a.path, b.path, c.path);
                }
            }
        }
    }
}

/// A target with its place.
pub struct PlacedDetail {
    pub place: Option<Place>,
    pub detail: Detail,
}

impl Ordered for PlacedDetail {
    type Key = DetailKey;

    open spec fn key(&self) -> DetailKey {
        DetailKey {
            label: self.detail.label,
            rank: rank_of(self.detail.reason),
            place: self.place,
        }
    }

    open spec fn key_before(a: DetailKey, b: DetailKey) -> bool {
        detail_before(a, b)
    }

    proof fn key_irreflexive(a: DetailKey) {
        text::lemma_text_before_irreflexive(a.label);
        lemma_location_order(a.place, a.place, a.place);
    }

    proof fn key_transitive(a: DetailKey, b: DetailKey, c: DetailKey) {
        lemma_location_order(a.place, b.place, c.place);
        if text::text_before(a.label, b.label) && text::text_before(b.label, c.label) {
            text::lemma_text_before_transitive(a.label, b.label, c.label);
        }
    }

    proof fn key_total(a: DetailKey, b: DetailKey) {
        text::lemma_text_before_total(a.label, b.label);
        lemma_location_order(a.place, b.place, b.place);
    }
}

/// The place of a location.
pub open spec fn place_of(db: Db, location: Option<FileRange>) -> Option<Place> {
    match location {
        Some(location) => Some(
            Place {
                path: db.file(location.file).path@,
                start: location.range.start,
                end: location.range.end,
            },
        ),
        None => None,
    }
}

/// A target as a diagnostic shows it.
pub open spec fn detail_of(target: (Target, CallNoMatchReason)) -> Detail {
    Detail { label: target.0.label, reason: target.1, location: target.0.range }
}

/// Targets as a diagnostic shows them, with their places.
pub open spec fn placed_details(db: Db, targets: Seq<(Target, CallNoMatchReason)>) -> Seq<
    PlacedDetail,
> {
    Seq::new(
        targets.len(),
        |i: int|
            PlacedDetail {
                place: place_of(db, targets[i].0.range),
                detail: detail_of(targets[i]),
            },
    )
}

/// Neighbours that are the same, once.
pub open spec fn deduplicated(details: Seq<Detail>) -> Seq<Detail>
    decreases details.len(),
{
    if details.len() == 0 {
        Seq::empty()
    } else {
        let before = deduplicated(details.drop_last());
        if before.len() > 0 && before.last() == details.last() {
            before
        } else {
            before.push(details.last())
        }
    }
}

/// The targets of a diagnostic: sorted, each once.
pub open spec fn sorted_details(db: Db, targets: Seq<(Target, CallNoMatchReason)>) -> Seq<Detail> {
    let sorted = order::stable_sort(placed_details(db, targets));
    deduplicated(Seq::new(sorted.len(), |i: int| sorted[i].detail))
}

/// The calls whose signatures are worth showing: those that exist and do not match.
pub open spec fn mismatched_calls(targets: Seq<(Target, CallNoMatchReason)>) -> Seq<CallKey>
    decreases targets.len(),
{
    if targets.len() == 0 {
        Seq::empty()
    } else {
        let before = mismatched_calls(targets.drop_last());
        let (target, reason) = targets.last();
        if reason == CallNoMatchReason::SignatureMismatch {
            before.push(CallKey { kind: target.kind, name: target.name })
        } else {
            before
        }
    }
}

/// Whether signatures are what is presented of calls.
pub open spec fn are_presented(
    supported: SupportedFuncs,
    keys: Seq<CallKey>,
    signatures: Seq<Seq<char>>,
) -> bool {
    exists|calls: Seq<SupportedCall>, displays: Seq<Seq<char>>|
        order::keys(calls) == keys && #[trigger] presentation::is_listing(
            supported,
            presentation::distinct_calls(calls),
            displays,
        ) && signatures == presentation::summary(displays)
}

/// The call as it is quoted: only on one line, only if it is short, and only next to signatures.
pub open spec fn quoted(observed: Seq<char>, signatures: Seq<Seq<char>>) -> Option<Seq<char>> {
    if signatures.len() > 0 && !observed.contains('\n') && !observed.contains('\r')
        && observed.len() <= MAX_OBSERVED_CALL_CHARACTERS {
        Some(observed)
    } else {
        None
    }
}

/// Whether this is what a diagnostic says of a call that is not supported.
pub open spec fn are_details(
    db: Db,
    supported: SupportedFuncs,
    candidate: Unsupported,
    source: Seq<char>,
    details: Details,
) -> bool {
    &&& details.targets == sorted_details(db, candidate.targets)
    &&& are_presented(supported, mismatched_calls(candidate.targets), details.signatures)
    &&& details.observed_call == quoted(
        text::part_of(source, candidate.range),
        details.signatures,
    )
}

// ---------------------------------------------------------------------------------------------
// Diagnostics of a file
// ---------------------------------------------------------------------------------------------

/// Whether a diagnostic reports a call that is not supported.
pub open spec fn reports_call(
    db: Db,
    supported: SupportedFuncs,
    source: Seq<char>,
    candidate: Unsupported,
    diagnostic: Diagnostic,
) -> bool {
    &&& diagnostic.file == candidate.file
    &&& diagnostic.range == candidate.range
    &&& (diagnostic.kind matches Kind::UnsupportedFunction(details) && are_details(
        db,
        supported,
        candidate,
        source,
        details,
    ))
}

/// The diagnostic of a cycle.
pub open spec fn cycle_diagnostic(cycle: CycleCandidate) -> Diagnostic {
    Diagnostic { file: cycle.file, range: cycle.range, kind: Kind::ResolverCycle }
}

/// The diagnostic of a problem with a directive.
pub open spec fn problem_diagnostic(
    source: Seq<char>,
    problem: ProjectSuppressionProblem,
) -> Diagnostic {
    Diagnostic {
        file: problem.file,
        range: problem.range,
        kind: match problem.kind {
            SuppressionProblemKind::Invalid(reason) => Kind::InvalidSuppression { reason },
            SuppressionProblemKind::UnknownCode => Kind::UnknownSuppression {
                code: text::part_of(source, problem.range),
            },
        },
    }
}

/// Whether diagnostics report the calls, the cycles and the problems of a file, in this order.
pub open spec fn is_report(
    db: Db,
    supported: SupportedFuncs,
    source: Seq<char>,
    calls: Seq<UnsupportedCallCandidate>,
    cycles: Seq<CycleCandidate>,
    problems: Seq<ProjectSuppressionProblem>,
    found: Seq<ChalkDiagnostic>,
) -> bool {
    &&& found.len() == calls.len() + cycles.len() + problems.len()
    &&& forall|i: int|
        0 <= i < calls.len() ==> reports_call(
            db,
            supported,
            source,
            (#[trigger] calls[i])@,
            found[i]@,
        )
    &&& forall|i: int|
        0 <= i < cycles.len() ==> found[calls.len() + i]@ == cycle_diagnostic(
            #[trigger] cycles[i],
        )
    &&& forall|i: int|
        0 <= i < problems.len() ==> found[calls.len() + cycles.len() + i]@ == problem_diagnostic(
            source,
            #[trigger] problems[i],
        )
}

/// Whether the places of candidates in a file are parts of its source, and their locations known.
pub open spec fn fits_source(db: Db, candidates: ProjectCandidates, file: File, source: Seq<char>) -> bool {
    &&& forall|i: int|
        0 <= i < candidates.unsupported@.len() && (#[trigger] candidates.unsupported@[i]).file
            == file ==> text::is_part(source, candidates.unsupported@[i].range)
    &&& forall|i: int|
        0 <= i < candidates.unsupported@.len() ==> locations_known(
            db,
            (#[trigger] candidates.unsupported@[i]).targets@,
        )
    &&& forall|i: int|
        0 <= i < candidates.suppression_problems@.len() && (
        #[trigger] candidates.suppression_problems@[i]).file == file ==> text::is_part(
            source,
            candidates.suppression_problems@[i].range,
        )
}

/// Whether the locations of targets are known.
pub open spec fn locations_known(db: Db, targets: Seq<UnsupportedTarget>) -> bool {
    forall|i: int|
        0 <= i < targets.len() ==> ((#[trigger] targets[i]).target.definition_range matches Some(
            location,
        ) ==> db.has_file(location.file))
}

/// A target with the path of its place.
struct Located<'a> {
    path: Option<&'a String>,
    detail: UnsupportedTargetDetail,
}

impl<'a> Located<'a> {
    spec fn place(self) -> Option<Place> {
        match (self.path, self.detail.location) {
            (Some(path), Some(location)) => Some(
                Place { path: path@, start: location.range.start, end: location.range.end },
            ),
            _ => None,
        }
    }
}

impl<'a> Ordered for Located<'a> {
    type Key = DetailKey;

    closed spec fn key(&self) -> DetailKey {
        DetailKey {
            label: self.detail.label@,
            rank: rank_of(self.detail.reason),
            place: self.place(),
        }
    }

    closed spec fn key_before(a: DetailKey, b: DetailKey) -> bool {
        detail_before(a, b)
    }

    proof fn key_irreflexive(a: DetailKey) {
        <PlacedDetail as Ordered>::key_irreflexive(a);
    }

    proof fn key_transitive(a: DetailKey, b: DetailKey, c: DetailKey) {
        <PlacedDetail as Ordered>::key_transitive(a, b, c);
    }

    proof fn key_total(a: DetailKey, b: DetailKey) {
        <PlacedDetail as Ordered>::key_total(a, b);
    }
}

impl<'a> Located<'a> {
    /// Compares places, those that are missing first.
    fn relate_location(&self, other: &Self) -> (relation: Relation)
        ensures
            match relation {
                Relation::Less => location_before(self.place(), other.place()),
                Relation::Equal => self.place() == other.place(),
                Relation::Greater => location_before(other.place(), self.place()),
            },
    {
        match ((self.path, self.detail.location), (other.path, other.detail.location)) {
            ((Some(path), Some(here)), (Some(other_path), Some(there))) => {
                proof {
                    text::lemma_text_before_total(path@, other_path@);
                }
                match text::order_text(path.as_str(), other_path.as_str()) {
                    Relation::Less => Relation::Less,
                    Relation::Greater => Relation::Greater,
                    Relation::Equal => {
                        if here.range.start < there.range.start {
                            Relation::Less
                        } else if here.range.start > there.range.start {
                            Relation::Greater
                        } else if here.range.end < there.range.end {
                            Relation::Less
                        } else if here.range.end > there.range.end {
                            Relation::Greater
                        } else {
                            Relation::Equal
                        }
                    },
                }
            },
            ((Some(_), Some(_)), _) => Relation::Greater,
            (_, (Some(_), Some(_))) => Relation::Less,
            _ => Relation::Equal,
        }
    }
}

impl<'a> Keyed for Located<'a> {
    fn relate(&self, other: &Self) -> (relation: Relation) {
        proof {
            text::lemma_text_before_total(self.detail.label@, other.detail.label@);
        }
        match text::order_text(self.detail.label.as_str(), other.detail.label.as_str()) {
            Relation::Less => Relation::Less,
            Relation::Greater => Relation::Greater,
            Relation::Equal => {
                let left: u8 = reason_rank(self.detail.reason);
                let right: u8 = reason_rank(other.detail.reason);
                if left < right {
                    Relation::Less
                } else if left > right {
                    Relation::Greater
                } else {
                    self.relate_location(other)
                }
            },
        }
    }
}

spec fn as_placed_detail<'a>() -> spec_fn(Located<'a>) -> PlacedDetail {
    |located: Located<'a>| PlacedDetail { place: located.place(), detail: located.detail@ }
}

fn same_detail(left: &UnsupportedTargetDetail, right: &UnsupportedTargetDetail) -> (same: bool)
    ensures
        same == (left@ == right@),
{
    text::same_text(&left.label, &right.label) && left.reason == right.reason && match (
        left.location,
        right.location,
    ) {
        (Some(a), Some(b)) => a == b,
        (None, None) => true,
        _ => false,
    }
}

/// The targets of a diagnostic: sorted, each once.
fn target_details(db: &Db, targets: &Vec<UnsupportedTarget>) -> (details: Vec<
    UnsupportedTargetDetail,
>)
    requires
        locations_known(*db, targets@),
    ensures
        detail_views(details@) == sorted_details(*db, reachability::target_views(targets@)),
{
    let ghost views = reachability::target_views(targets@);
    let ghost map = as_placed_detail();
    let mut located: Vec<Located<'_>> = Vec::new();
    let mut i: usize = 0;
    while i < targets.len()
        invariant
            i <= targets@.len(),
            locations_known(*db, targets@),
            views == reachability::target_views(targets@),
            map == as_placed_detail(),
            located@.len() == i,
            forall|k: int|
                0 <= k < i ==> map(#[trigger] located@[k]) == placed_details(*db, views)[k],
        decreases targets@.len() - i,
    {
        let unsupported = &targets[i];
        let location = unsupported.target.definition_range;
        let path = match location {
            Some(location) => {
                assert(db.has_file(location.file));
                Some(&db.files[location.file.id].path)
            },
            None => None,
        };
        located.push(
            Located {
                path,
                detail: UnsupportedTargetDetail {
                    label: unsupported.target.display_label.clone(),
                    reason: unsupported.reason,
                    location,
                },
            },
        );
        i += 1;
    }
    let ghost all = order::stable_sort(located@);
    proof {
        order::lemma_stable_sort_map(located@, map);
        assert(located@.map_values(map) =~= placed_details(*db, views));
    }
    let sorted = order::sort_stable(located);
    let ghost shown = Seq::new(all.len(), |k: int| all[k].detail@);
    assert(shown =~= {
        let placed = all.map_values(map);
        Seq::new(placed.len(), |k: int| placed[k].detail)
    });
    without_repetition(sorted)
}

/// Neighbours that are the same, once.
fn without_repetition<'a>(sorted: Vec<Located<'a>>) -> (details: Vec<UnsupportedTargetDetail>)
    ensures
        detail_views(details@) == deduplicated(
            Seq::new(sorted@.len(), |k: int| sorted@[k].detail@),
        ),
{
    let ghost all = sorted@;
    let ghost shown = Seq::new(all.len(), |k: int| all[k].detail@);
    let mut rest = sorted;
    let mut reversed: Vec<UnsupportedTargetDetail> = Vec::new();
    while rest.len() > 0
        invariant
            rest@.len() + reversed@.len() == all.len(),
            rest@ =~= all.take(rest@.len() as int),
            forall|i: int|
                0 <= i < reversed@.len() ==> #[trigger] reversed@[i] == all[all.len() - 1
                    - i].detail,
        decreases rest@.len(),
    {
        if let Some(last) = rest.pop() {
            reversed.push(last.detail);
        }
    }
    let mut details: Vec<UnsupportedTargetDetail> = Vec::new();
    let ghost mut done: int = 0;
    assert(detail_views(details@) =~= deduplicated(shown.take(0)));
    while reversed.len() > 0
        invariant
            0 <= done,
            done + reversed@.len() == all.len(),
            shown == Seq::new(all.len(), |k: int| all[k].detail@),
            forall|i: int|
                0 <= i < reversed@.len() ==> #[trigger] reversed@[i] == all[all.len() - 1
                    - i].detail,
            detail_views(details@) == deduplicated(shown.take(done)),
        decreases reversed@.len(),
    {
        if let Some(detail) = reversed.pop() {
            let ghost before = details@;
            proof {
                assert(detail == all[done].detail);
                assert(shown.take(done + 1).drop_last() =~= shown.take(done));
                assert(shown.take(done + 1).last() == detail@);
            }
            let repeated = details.len() > 0 && same_detail(&details[details.len() - 1], &detail);
            if !repeated {
                details.push(detail);
                assert(detail_views(details@) =~= detail_views(before).push(detail@));
            }
            proof {
                assert(before.len() > 0 ==> detail_views(before).last() == before.last()@);
                done = done + 1;
            }
        }
    }
    assert(shown.take(shown.len() as int) =~= shown);
    details
}

/// The calls whose signatures are worth showing.
fn calls_to_show(targets: &Vec<UnsupportedTarget>) -> (calls: Vec<SupportedCall>)
    ensures
        order::keys(calls@) == mismatched_calls(reachability::target_views(targets@)),
{
    let ghost views = reachability::target_views(targets@);
    let mut calls: Vec<SupportedCall> = Vec::new();
    assert(order::keys(calls@) =~= Seq::empty());
    let mut i: usize = 0;
    while i < targets.len()
        invariant
            i <= targets@.len(),
            views == reachability::target_views(targets@),
            order::keys(calls@) == mismatched_calls(views.take(i as int)),
        decreases targets@.len() - i,
    {
        let unsupported = &targets[i];
        let ghost before = calls@;
        proof {
            assert(views.take(i as int + 1).drop_last() =~= views.take(i as int));
            assert(views[i as int] == (unsupported.target@, unsupported.reason));
        }
        if unsupported.reason == CallNoMatchReason::SignatureMismatch {
            calls.push(SupportedCall::new(unsupported.target.kind, unsupported.target.name.as_str()));
            assert(order::keys(calls@) =~= order::keys(before).push(calls@.last().key()));
        }
        i += 1;
    }
    assert(views.take(views.len() as int) =~= views);
    calls
}

/// Whether a text has line breaks.
fn has_line_break(text: &str) -> (found: bool)
    ensures
        found == (text@.contains('\n') || text@.contains('\r')),
{
    let mut rest = text.chars();
    let ghost mut at: int = 0;
    assert(text@.skip(0) =~= text@);
    loop
        invariant
            0 <= at <= text@.len(),
            vstd::std_specs::iter::IteratorSpec::remaining(&rest) == text@.skip(at),
            forall|i: int| 0 <= i < at ==> #[trigger] text@[i] != '\n' && text@[i] != '\r',
        decreases text@.len() - at,
    {
        match rest.next() {
            None => {
                return false;
            },
            Some(c) => {
                assert(c == text@[at]);
                if c == '\n' || c == '\r' {
                    return true;
                }
                proof {
                    assert(text@.skip(at).drop_first() =~= text@.skip(at + 1));
                    at = at + 1;
                }
            },
        }
    }
}

/// What a diagnostic says of a call that is not supported.
pub fn unsupported_function_details(
    db: &Db,
    supported: &SupportedFuncs,
    candidate: &UnsupportedCallCandidate,
    source: &str,
) -> (details: UnsupportedFunctionDetails)
    requires
        supported.wf(),
        locations_known(*db, candidate.targets@),
        text::is_part(source@, candidate.range),
    ensures
        are_details(*db, *supported, candidate@, source@, details@),
{
    let targets = target_details(db, &candidate.targets);
    let calls = calls_to_show(&candidate.targets);
    let supported_signatures = presentation::present_supported_signatures(supported, &calls);
    assert(are_presented(
        *supported,
        mismatched_calls(candidate@.targets),
        order::keys(supported_signatures@),
    ));
    let observed = text::slice(source, candidate.range);
    let observed_call = if supported_signatures.len() > 0 && !has_line_break(observed)
        && observed.unicode_len() <= MAX_OBSERVED_CALL_CHARACTERS {
        Some(observed.to_owned())
    } else {
        None
    };
    assert(order::keys(supported_signatures@).len() == supported_signatures@.len());
    UnsupportedFunctionDetails { targets, observed_call, supported_signatures }
}

proof fn lemma_unsupported_in(found: Seq<UnsupportedCallCandidate>, file: File)
    ensures
        forall|i: int|
            0 <= i < reachability::unsupported_in(found, file).len() ==> {
                let held = #[trigger] reachability::unsupported_in(found, file)[i];
                found.contains(held) && held.file == file
            },
    decreases found.len(),
{
    if found.len() > 0 {
        let init = found.drop_last();
        lemma_unsupported_in(init, file);
        let before = reachability::unsupported_in(init, file);
        let all = reachability::unsupported_in(found, file);
        assert forall|i: int| 0 <= i < all.len() implies found.contains(#[trigger] all[i])
            && all[i].file == file by {
            if i < before.len() {
                assert(all[i] == before[i]);
                assert(init.contains(before[i]));
                let k = choose|k: int| 0 <= k < init.len() && init[k] == before[i];
                assert(found[k] == all[i]);
            } else {
                assert(found[found.len() - 1] == all[i]);
            }
        }
    }
}

proof fn lemma_problems_in(found: Seq<ProjectSuppressionProblem>, file: File)
    ensures
        forall|i: int|
            0 <= i < reachability::problems_in(found, file).len() ==> {
                let held = #[trigger] reachability::problems_in(found, file)[i];
                found.contains(held) && held.file == file
            },
    decreases found.len(),
{
    if found.len() > 0 {
        let init = found.drop_last();
        lemma_problems_in(init, file);
        let before = reachability::problems_in(init, file);
        let all = reachability::problems_in(found, file);
        assert forall|i: int| 0 <= i < all.len() implies found.contains(#[trigger] all[i])
            && all[i].file == file by {
            if i < before.len() {
                assert(all[i] == before[i]);
                assert(init.contains(before[i]));
                let k = choose|k: int| 0 <= k < init.len() && init[k] == before[i];
                assert(found[k] == all[i]);
            } else {
                assert(found[found.len() - 1] == all[i]);
            }
        }
    }
}

/// Whether a file is in a list.
fn has_file(files: &Vec<File>, file: File) -> (found: bool)
    ensures
        found == files@.contains(file),
{
    let mut i: usize = 0;
    while i < files.len()
        invariant
            i <= files@.len(),
            forall|k: int| 0 <= k < i ==> #[trigger] files@[k] != file,
        decreases files@.len() - i,
    {
        if files[i] == file {
            assert(files@[i as int] == file);
            return true;
        }
        i += 1;
    }
    false
}

/// The diagnostics of a file of a project, sorted by range and code; other files have none.
pub fn chalk_diagnostics_for_file(
    db: &Db,
    supported: &SupportedFuncs,
    source_files: &Vec<File>,
    candidates: &ProjectCandidates,
    file: File,
    source: &str,
) -> (diagnostics: Vec<ChalkDiagnostic>)
    requires
        supported.wf(),
        fits_source(*db, *candidates, file, source@),
    ensures
        !source_files@.contains(file) ==> diagnostics@.len() == 0,
        source_files@.contains(file) ==> exists|found: Seq<ChalkDiagnostic>| #[trigger]
            is_report(
                *db,
                *supported,
                source@,
                reachability::unsupported_in(candidates.unsupported@, file),
                reachability::cycles_in(candidates.cycles@, file),
                reachability::problems_in(candidates.suppression_problems@, file),
                found,
            ) && diagnostics@ == order::stable_sort(found),
{
    if !has_file(source_files, file) {
        return Vec::new();
    }
    let calls = candidates.unsupported_for_file(file);
    let cycles = candidates.cycles_for_file(file);
    let problems = candidates.suppression_problems_for_file(file);
    let ghost held = reachability::unsupported_in(candidates.unsupported@, file);
    proof {
        lemma_unsupported_in(candidates.unsupported@, file);
        lemma_problems_in(candidates.suppression_problems@, file);
        assert forall|k: int| 0 <= k < held.len() implies (#[trigger] held[k]).file == file
            && text::is_part(source@, held[k].range) && locations_known(*db, held[k].targets@) by {
            assert(candidates.unsupported@.contains(held[k]));
            let m = choose|m: int|
                0 <= m < candidates.unsupported@.len() && candidates.unsupported@[m] == held[k];
            assert(candidates.unsupported@[m].file == file);
        }
        assert forall|k: int| 0 <= k < problems@.len() implies (#[trigger] problems@[k]).file
            == file && text::is_part(source@, problems@[k].range) by {
            let m = choose|m: int|
                0 <= m < candidates.suppression_problems@.len()
                    && candidates.suppression_problems@[m] == problems@[k];
            assert(candidates.suppression_problems@[m].file == file);
        }
    }
    let mut found: Vec<ChalkDiagnostic> = Vec::new();
    let mut i: usize = 0;
    while i < calls.len()
        invariant
            i <= calls@.len(),
            supported.wf(),
            calls@.len() == held.len(),
            forall|k: int| 0 <= k < calls@.len() ==> *(#[trigger] calls@[k]) == held[k],
            forall|k: int|
                0 <= k < held.len() ==> (#[trigger] held[k]).file == file && text::is_part(
                    source@,
                    held[k].range,
                ) && locations_known(*db, held[k].targets@),
            found@.len() == i,
            forall|k: int|
                0 <= k < i ==> reports_call(
                    *db,
                    *supported,
                    source@,
                    (#[trigger] held[k])@,
                    found@[k]@,
                ),
        decreases calls@.len() - i,
    {
        let candidate = calls[i];
        assert(*candidate == held[i as int]);
        let details = unsupported_function_details(db, supported, candidate, source);
        found.push(
            ChalkDiagnostic {
                file,
                range: candidate.range,
                kind: ChalkDiagnosticKind::UnsupportedFunction(details),
            },
        );
        i += 1;
    }
    let ghost first = found@;
    let mut j: usize = 0;
    while j < cycles.len()
        invariant
            j <= cycles@.len(),
            found@.len() == first.len() + j,
            forall|k: int| 0 <= k < first.len() ==> #[trigger] found@[k] == first[k],
            forall|k: int|
                0 <= k < j ==> found@[first.len() + k]@ == cycle_diagnostic(#[trigger] cycles@[k]),
        decreases cycles@.len() - j,
    {
        found.push(
            ChalkDiagnostic {
                file: cycles[j].file,
                range: cycles[j].range,
                kind: ChalkDiagnosticKind::ResolverCycle,
            },
        );
        j += 1;
    }
    let ghost second = found@;
    let mut k: usize = 0;
    while k < problems.len()
        invariant
            k <= problems@.len(),
            found@.len() == second.len() + k,
            forall|m: int|
                0 <= m < problems@.len() ==> (#[trigger] problems@[m]).file == file
                    && text::is_part(source@, problems@[m].range),
            forall|m: int| 0 <= m < second.len() ==> #[trigger] found@[m] == second[m],
            forall|m: int|
                0 <= m < k ==> found@[second.len() + m]@ == problem_diagnostic(
                    source@,
                    #[trigger] problems@[m],
                ),
        decreases problems@.len() - k,
    {
        let problem = problems[k];
        assert(text::is_part(source@, problems@[k as int].range));
        let kind = match problem.kind {
            SuppressionProblemKind::Invalid(reason) => ChalkDiagnosticKind::InvalidSuppression {
                reason,
            },
            SuppressionProblemKind::UnknownCode => ChalkDiagnosticKind::UnknownSuppression {
                code: text::slice(source, problem.range).to_owned(),
            },
        };
        found.push(ChalkDiagnostic { file: problem.file, range: problem.range, kind });
        k += 1;
    }
    proof {
        assert forall|m: int| 0 <= m < held.len() implies reports_call(
            *db,
            *supported,
            source@,
            (#[trigger] held[m])@,
            found@[m]@,
        ) by {
            assert(found@[m] == second[m]);
            assert(second[m] == first[m]);
        }
        assert forall|m: int| 0 <= m < cycles@.len() implies found@[held.len() + m]@
            == cycle_diagnostic(#[trigger] cycles@[m]) by {
            assert(found@[held.len() + m] == second[held.len() + m]);
        }
        assert(is_report(
            *db,
            *supported,
            source@,
            held,
            cycles@,
            problems@,
            found@,
        ));
    }
    order::sort_stable(found)
}

} // verus!

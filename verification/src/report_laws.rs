//! What is reported, and how it is worded.

use vstd::prelude::*;

use crate::active_project;
use crate::active_project::{Active, Change, Files};
use crate::call_matcher::{CallNoMatchReason, Target};
use crate::diagnostic;
use crate::diagnostic::{ChalkDiagnosticSeverity, Kind};
use crate::facts::FileFacts;
use crate::messages;
use crate::messages::Message;
use crate::paths;
use crate::project_diagnostics;
use crate::reachability;
use crate::reachability::{
    CycleCandidate, ProjectFile, ProjectSuppressionProblem, UnsupportedCallCandidate,
};
use crate::semantic::File;
use crate::supported_functions::CallKey;
use crate::suppression::{InvalidSuppressionReason, SuppressionProblemKind};
use crate::text;

verus! {

proof fn lemma_append<A>(list: Seq<A>, item: A, other: A)
    ensures
        list.push(item).contains(other) <==> list.contains(other) || item == other,
{
    let longer = list.push(item);
    if list.contains(other) {
        let i = choose|i: int| 0 <= i < list.len() && list[i] == other;
        assert(longer[i] == other);
    }
    if item == other {
        assert(longer[list.len() as int] == other);
    }
    if longer.contains(other) {
        let i = choose|i: int| 0 <= i < longer.len() && longer[i] == other;
        if i < list.len() {
            assert(list[i] == other);
        }
    }
}

// ---------------------------------------------------------------------------------------------
// Words
// ---------------------------------------------------------------------------------------------

/// A cycle is an error, everything else a warning.
pub proof fn law_only_cycles_are_errors(kind: Kind)
    ensures
        diagnostic::severity_of(kind) == ChalkDiagnosticSeverity::Error <==> kind is ResolverCycle,
        diagnostic::severity_of(kind) == ChalkDiagnosticSeverity::Warning <==> kind
            !is ResolverCycle,
{
}

/// Diagnostics of two kinds never share a code: the code tells the kind.
pub proof fn law_codes_tell_the_kind(kind: Kind)
    ensures
        kind is UnsupportedFunction <==> diagnostic::code_of(kind) == "unsupported-function"@,
        kind is ResolverCycle <==> diagnostic::code_of(kind) == "resolver-cycle"@,
        kind is UnknownSuppression <==> diagnostic::code_of(kind) == "unknown-chalk-suppression"@,
        kind is InvalidSuppression <==> diagnostic::code_of(kind) == "invalid-chalk-suppression"@,
{
    reveal_strlit("unsupported-function");
    reveal_strlit("resolver-cycle");
    reveal_strlit("unknown-chalk-suppression");
    reveal_strlit("invalid-chalk-suppression");
    assert("unsupported-function"@.len() == 20 && "resolver-cycle"@.len() == 14);
    assert("unknown-chalk-suppression"@.len() == 25 && "invalid-chalk-suppression"@.len() == 25);
    assert("unknown-chalk-suppression"@[0] == 'u' && "invalid-chalk-suppression"@[0] == 'i');
}

/// The words of a diagnostic: an unknown code is named, and what is wrong with a directive is said.
pub proof fn law_messages_say_what_is_wrong(kind: Kind)
    ensures
        ({
            let message = diagnostic::message_of(kind);
            match kind {
                Kind::UnsupportedFunction(_) => message
                    == "Call is not supported by the static accelerator"@,
                Kind::ResolverCycle => message == "Resolver call graph contains a cycle"@,
                Kind::UnknownSuppression { code } => message
                    == "Unknown Chalk suppression code: "@ + code,
                Kind::InvalidSuppression { reason } => message
                    == "Invalid Chalk suppression directive: "@ + match reason {
                    InvalidSuppressionReason::ExpectedIgnore =>
                        "expected `ignore` after `chalk:`"@,
                    InvalidSuppressionReason::Blanket => "suppression code is required"@,
                    InvalidSuppressionReason::ExpectedCodeList =>
                        "expected a bracketed suppression code list"@,
                    InvalidSuppressionReason::MissingClosingBracket => "missing closing `]`"@,
                    InvalidSuppressionReason::EmptyCodeList =>
                        "suppression code list cannot be empty"@,
                    InvalidSuppressionReason::MalformedCodeList =>
                        "malformed suppression code list"@,
                    InvalidSuppressionReason::TrailingContent =>
                        "unexpected content after suppression code list"@,
                    InvalidSuppressionReason::UnsuppressibleCode =>
                        "this diagnostic code cannot be suppressed"@,
                },
            }
        }),
{
}

/// A problem with a directive is reported at its own place: as an unknown code, quoted from the
/// source, or as an invalid directive with its reason.
pub proof fn law_problems_are_reported_where_they_are(
    source: Seq<char>,
    problem: ProjectSuppressionProblem,
)
    ensures
        ({
            let found = diagnostic::problem_diagnostic(source, problem);
            &&& found.file == problem.file
            &&& found.range == problem.range
            &&& match problem.kind {
                SuppressionProblemKind::UnknownCode => found.kind == (Kind::UnknownSuppression {
                    code: text::part_of(source, problem.range),
                }),
                SuppressionProblemKind::Invalid(reason) => found.kind == (
                Kind::InvalidSuppression { reason }),
            }
        }),
{
}

/// A call is quoted exactly if it takes one line, has at most a hundred and sixty characters, and
/// there are signatures to hold it against.
pub proof fn law_short_calls_are_quoted(observed: Seq<char>, signatures: Seq<Seq<char>>)
    ensures
        ({
            let quoted = diagnostic::quoted(observed, signatures);
            let is_short = observed.len() <= 160 && forall|i: int|
                0 <= i < observed.len() ==> (#[trigger] observed[i]) != '\n' && observed[i] != '\r';
            quoted == if signatures.len() > 0 && is_short {
                Some(observed)
            } else {
                None
            }
        }),
{
    if observed.contains('\n') {
        let i = choose|i: int| 0 <= i < observed.len() && observed[i] == '\n';
        assert(observed[i] == '\n');
    }
    if observed.contains('\r') {
        let i = choose|i: int| 0 <= i < observed.len() && observed[i] == '\r';
        assert(observed[i] == '\r');
    }
    if !observed.contains('\n') && !observed.contains('\r') {
        assert forall|i: int| 0 <= i < observed.len() implies (#[trigger] observed[i]) != '\n'
            && observed[i] != '\r' by {
            assert(observed.contains(observed[i]));
        }
    }
}

/// Signatures are shown exactly of the targets that the registry lists and that do not match.
pub proof fn law_signatures_are_shown_of_mismatches(
    targets: Seq<(Target, CallNoMatchReason)>,
    key: CallKey,
)
    ensures
        diagnostic::mismatched_calls(targets).contains(key) <==> exists|i: int|
            0 <= i < targets.len() && (#[trigger] targets[i]).1
                == CallNoMatchReason::SignatureMismatch && targets[i].0.kind == key.kind
                && targets[i].0.name == key.name,
    decreases targets.len(),
{
    if targets.len() > 0 {
        let init = targets.drop_last();
        let at = targets.len() - 1;
        let before = diagnostic::mismatched_calls(init);
        let own = CallKey { kind: targets.last().0.kind, name: targets.last().0.name };
        law_signatures_are_shown_of_mismatches(init, key);
        lemma_append(before, own, key);
        assert(targets[at] == targets.last());
        if before.contains(key) {
            let i = choose|i: int|
                0 <= i < init.len() && (#[trigger] init[i]).1
                    == CallNoMatchReason::SignatureMismatch && init[i].0.kind == key.kind
                    && init[i].0.name == key.name;
            assert(targets[i] == init[i]);
        }
        if exists|i: int|
            0 <= i < targets.len() && (#[trigger] targets[i]).1
                == CallNoMatchReason::SignatureMismatch && targets[i].0.kind == key.kind
                && targets[i].0.name == key.name {
            let i = choose|i: int|
                0 <= i < targets.len() && (#[trigger] targets[i]).1
                    == CallNoMatchReason::SignatureMismatch && targets[i].0.kind == key.kind
                    && targets[i].0.name == key.name;
            if i < at {
                assert(init[i] == targets[i]);
            }
        }
    }
}

// ---------------------------------------------------------------------------------------------
// Files
// ---------------------------------------------------------------------------------------------

/// What is reported of a file is exactly what stands in it.
pub proof fn law_files_get_what_stands_in_them(
    cycles: Seq<CycleCandidate>,
    problems: Seq<ProjectSuppressionProblem>,
    calls: Seq<UnsupportedCallCandidate>,
    file: File,
    cycle: CycleCandidate,
    problem: ProjectSuppressionProblem,
    call: UnsupportedCallCandidate,
)
    ensures
        reachability::unsupported_in(calls, file).contains(call) <==> calls.contains(call)
            && call.file == file,
        reachability::cycles_in(cycles, file).contains(cycle) <==> cycles.contains(cycle)
            && cycle.file == file,
        reachability::problems_in(problems, file).contains(problem) <==> problems.contains(problem)
            && problem.file == file,
{
    lemma_unsupported_in(calls, file, call);
    lemma_cycles_in(cycles, file, cycle);
    lemma_problems_in(problems, file, problem);
}

proof fn lemma_unsupported_in(
    calls: Seq<UnsupportedCallCandidate>,
    file: File,
    call: UnsupportedCallCandidate,
)
    ensures
        reachability::unsupported_in(calls, file).contains(call) <==> calls.contains(call)
            && call.file == file,
    decreases calls.len(),
{
    if calls.len() > 0 {
        let init = calls.drop_last();
        lemma_unsupported_in(init, file, call);
        lemma_append(init, calls.last(), call);
        lemma_append(reachability::unsupported_in(init, file), calls.last(), call);
        assert(calls =~= init.push(calls.last()));
    }
}

proof fn lemma_cycles_in(cycles: Seq<CycleCandidate>, file: File, cycle: CycleCandidate)
    ensures
        reachability::cycles_in(cycles, file).contains(cycle) <==> cycles.contains(cycle)
            && cycle.file == file,
    decreases cycles.len(),
{
    if cycles.len() > 0 {
        let init = cycles.drop_last();
        lemma_cycles_in(init, file, cycle);
        lemma_append(init, cycles.last(), cycle);
        lemma_append(reachability::cycles_in(init, file), cycles.last(), cycle);
        assert(cycles =~= init.push(cycles.last()));
    }
}

proof fn lemma_problems_in(
    problems: Seq<ProjectSuppressionProblem>,
    file: File,
    problem: ProjectSuppressionProblem,
)
    ensures
        reachability::problems_in(problems, file).contains(problem) <==> problems.contains(problem)
            && problem.file == file,
    decreases problems.len(),
{
    if problems.len() > 0 {
        let init = problems.drop_last();
        lemma_problems_in(init, file, problem);
        lemma_append(init, problems.last(), problem);
        lemma_append(reachability::problems_in(init, file), problems.last(), problem);
        assert(problems =~= init.push(problems.last()));
    }
}

proof fn lemma_filtered<A>(list: Seq<A>, keep: spec_fn(A) -> bool, item: A)
    ensures
        list.filter(keep).contains(item) <==> list.contains(item) && keep(item),
    decreases list.len(),
{
    reveal(Seq::filter);
    if list.len() > 0 {
        let init = list.drop_last();
        lemma_filtered(init, keep, item);
        lemma_append(init.filter(keep), list.last(), item);
        lemma_append(init, list.last(), item);
        assert(list =~= init.push(list.last()));
    }
}

/// The files that are analysed are exactly the sources whose names end in `.py` behind something,
/// each with its own facts.
pub proof fn law_python_sources_are_analysed(
    files: Files,
    sources: Seq<File>,
    known: Seq<Option<FileFacts>>,
    one: ProjectFile,
)
    requires
        files.are_sources(sources),
    ensures
        project_diagnostics::project_files(files, sources, known).contains(one) <==> {
            &&& sources.contains(one.file)
            &&& one.facts == (if one.file.id < known.len() {
                known[one.file.id as int]
            } else {
                None
            })
            &&& files.path(one.file) matches Some(path)
            &&& path.len() > 0
            &&& exists|stem: Seq<char>| stem.len() > 0 && path.last() == #[trigger] (stem + ".py"@)
        },
{
    let keep = project_diagnostics::is_python(files);
    let python = sources.filter(keep);
    let all = project_diagnostics::project_files(files, sources, known);
    lemma_filtered(sources, keep, one.file);
    if sources.contains(one.file) {
        let i = choose|i: int| 0 <= i < sources.len() && sources[i] == one.file;
        assert(files.path(sources[i]) is Some);
        lemma_python_path(files.path(one.file)->0);
    }
    if all.contains(one) {
        let i = choose|i: int| 0 <= i < all.len() && all[i] == one;
        assert(python[i] == one.file);
        assert(python.contains(one.file));
    }
    if python.contains(one.file) {
        let i = choose|i: int| 0 <= i < python.len() && python[i] == one.file;
        assert(all[i].file == one.file);
    }
}

proof fn lemma_python_path(path: Seq<Seq<char>>)
    ensures
        active_project::is_python_path(path) <==> path.len() > 0 && exists|stem: Seq<char>|
            stem.len() > 0 && path.last() == #[trigger] (stem + ".py"@),
{
    reveal_strlit(".py");
    if path.len() > 0 {
        let name = path.last();
        if active_project::is_python_path(path) {
            let stem = name.take(name.len() - ".py"@.len());
            assert(name =~= stem + ".py"@);
            if stem.len() == 0 {
                assert(name =~= ".py"@);
            }
        }
        assert forall|stem: Seq<char>|
            stem.len() > 0 && name == #[trigger] (stem + ".py"@)
            implies active_project::is_python_path(path) by {
            assert(".py"@ =~= name.skip(name.len() - ".py"@.len()));
        }
    }
}

// ---------------------------------------------------------------------------------------------
// Changes
// ---------------------------------------------------------------------------------------------

/// A project looks up its sources again on a rescan; when its ignore file changes in any way; when
/// anything is opened, comes or goes below its root; and on new contents there of its configuration,
/// of an ignore file, or of what is no source. It does not for configuration files that come or go,
/// for anything else outside, nor for what is in no file system.
pub proof fn law_sources_are_looked_up_when_they_may_change(
    root: Seq<Seq<char>>,
    config_path: Seq<Seq<char>>,
    ignore_path: Seq<Seq<char>>,
    change: Change,
)
    ensures
        ({
            let looks = active_project::affects_sources(root, config_path, ignore_path, change);
            match change {
                Change::Rescan => looks,
                Change::CreatedVirtual(_) => !looks,
                Change::ChangedVirtual(_) => !looks,
                Change::DeletedVirtual(_) => !looks,
                Change::Opened(path) => looks <==> path == ignore_path || root.is_prefix_of(path),
                Change::Created(path) => looks <==> !is_config_name(path) && (path == ignore_path
                    || root.is_prefix_of(path)),
                Change::Deleted(path) => looks <==> !is_config_name(path) && (path == ignore_path
                    || root.is_prefix_of(path)),
                Change::Changed(path) => looks <==> path == ignore_path || root.is_prefix_of(path)
                    && (path == config_path || is_ignore_name(path)
                    || !paths::is_source_path(path)),
            }
        }),
{
}

/// Whether a path is that of a configuration file.
pub open spec fn is_config_name(path: Seq<Seq<char>>) -> bool {
    path.len() > 0 && (path.last() == "chalk.yaml"@ || path.last() == "chalk.yml"@)
}

/// Whether a path is that of an ignore file.
pub open spec fn is_ignore_name(path: Seq<Seq<char>>) -> bool {
    path.len() > 0 && (path.last() == ".gitignore"@ || path.last() == ".chalkignore"@)
}

/// Opening a document adds it to a project exactly if it is a source below the root that is not open
/// yet; closing one leaves all others open, and nothing else changes.
pub proof fn law_documents_are_opened_and_closed(
    files: Files,
    active: Active,
    file: File,
    other: File,
)
    ensures
        ({
            let opened = active_project::opened(files, active, file);
            let closed = active_project::closed(active, file);
            let fits = files.path(file) matches Some(path) && active.root.is_prefix_of(path)
                && paths::is_source_path(path);
            &&& opened.open.contains(other) <==> active.open.contains(other) || other == file
                && fits
            &&& closed.open.contains(other) <==> active.open.contains(other) && other != file
            &&& opened.root == active.root && closed.root == active.root
            &&& opened.config_path == active.config_path && closed.config_path
                == active.config_path
            &&& opened.sources == active.sources && closed.sources == active.sources
            &&& opened.ignore_path == active.ignore_path && closed.ignore_path
                == active.ignore_path
        }),
{
    lemma_append(active.open, file, other);
    lemma_filtered(active.open, active_project::is_other(file), other);
}

/// Only responses, the request to shut down and the notification to exit do not wait.
pub proof fn law_few_messages_do_not_wait<P>(message: Message<P>)
    ensures
        messages::is_urgent(message) <==> {
            ||| message.kind is Response
            ||| message.kind is Request && message.method@ == "shutdown"@
            ||| message.kind is Notification && message.method@ == "exit"@
        },
{
}

} // verus!

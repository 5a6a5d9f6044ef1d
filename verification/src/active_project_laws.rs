//! What holds of active projects, whatever the file system holds and whatever is open.

use vstd::prelude::*;

use crate::active_project;
use crate::active_project::{Active, Change, Files, Named};
use crate::order;
use crate::paths;
use crate::project;
use crate::project::{ChalkConfig, Failure};
use crate::semantic::File;
use crate::system::System;
use crate::text;

verus! {

/// Closing a document that was opened just now leaves the project as it was.
pub proof fn law_close_undoes_open(files: Files, active: Active, file: File)
    requires
        active_project::can_open(files, active, file),
    ensures
        active_project::closed(active_project::opened(files, active, file), file) == active,
{
    let wanted = active_project::is_other(file);
    assert(active.open.push(file).drop_last() =~= active.open);
    reveal(Seq::filter);
    order::lemma_filter_all(active.open, wanted);
}

/// Opening a document twice is the same as opening it once.
pub proof fn law_open_is_idempotent(files: Files, active: Active, file: File)
    ensures
        active_project::opened(files, active_project::opened(files, active, file), file)
            == active_project::opened(files, active, file),
{
    if active_project::can_open(files, active, file) {
        let open = active.open.push(file);
        assert(open[open.len() - 1] == file);
        assert(open.contains(file));
    }
}

/// Looking up the sources a second time changes nothing.
pub proof fn law_refresh_is_idempotent(
    files: Files,
    system: System,
    config: Result<ChalkConfig, String>,
    active: Active,
)
    ensures
        active_project::refreshed(
            files,
            system,
            config,
            active_project::refreshed(files, system, config, active),
        ) == active_project::refreshed(files, system, config, active),
{
}

/// Neither opening nor closing a document changes the sources before they are looked up again.
pub proof fn law_documents_wait_for_a_refresh(files: Files, active: Active, file: File)
    ensures
        active_project::opened(files, active, file).sources == active.sources,
        active_project::closed(active, file).sources == active.sources,
{
}

proof fn lemma_with_open(
    files: Files,
    system: System,
    place: (Seq<Seq<char>>, Seq<Seq<char>>),
    config: Result<ChalkConfig, String>,
    native: Seq<File>,
    open: Seq<File>,
    file: File,
)
    requires
        active_project::with_open(files, system, place, config, native, open) is Ok,
    ensures
        active_project::with_open(files, system, place, config, native, open)->Ok_0.contains(file)
            <==> native.contains(file) || (open.contains(file) && contains_open(
            files,
            system,
            place,
            config,
            file,
        )),
    decreases open.len(),
{
    if open.len() > 0 {
        let rest = open.drop_last();
        let last = open.last();
        lemma_with_open(files, system, place, config, native, rest, file);
        let before = active_project::with_open(
            files,
            system,
            place,
            config,
            native,
            rest,
        )->Ok_0;
        let all = active_project::with_open(files, system, place, config, native, open)->Ok_0;
        if open.contains(file) {
            let k = choose|k: int| 0 <= k < open.len() && open[k] == file;
            if k < rest.len() {
                assert(rest[k] == file);
            } else {
                assert(file == last);
            }
        }
        if rest.contains(file) {
            let k = choose|k: int| 0 <= k < rest.len() && rest[k] == file;
            assert(open[k] == file);
        }
        assert(open[open.len() - 1] == last);
        if all != before {
            assert(all == before.push(last));
            assert(all[before.len() as int] == last);
            if before.contains(file) {
                let k = choose|k: int| 0 <= k < before.len() && before[k] == file;
                assert(all[k] == file);
            }
            if all.contains(file) {
                let k = choose|k: int| 0 <= k < all.len() && all[k] == file;
                if k < before.len() {
                    assert(before[k] == file);
                }
            }
        }
        if file == last && contains_open(files, system, place, config, file) {
            lemma_with_open_last(files, system, place, config, native, open);
        }
    }
}

proof fn lemma_with_open_last(
    files: Files,
    system: System,
    place: (Seq<Seq<char>>, Seq<Seq<char>>),
    config: Result<ChalkConfig, String>,
    native: Seq<File>,
    open: Seq<File>,
)
    requires
        open.len() > 0,
        active_project::with_open(files, system, place, config, native, open) is Ok,
        contains_open(files, system, place, config, open.last()),
    ensures
        active_project::with_open(files, system, place, config, native, open)->Ok_0.contains(
            open.last(),
        ),
{
    let before = active_project::with_open(
        files,
        system,
        place,
        config,
        native,
        open.drop_last(),
    )->Ok_0;
    let all = active_project::with_open(files, system, place, config, native, open)->Ok_0;
    if !before.contains(open.last()) {
        assert(all[before.len() as int] == open.last());
    }
}

/// Whether the project contains a file that is open.
pub open spec fn contains_open(
    files: Files,
    system: System,
    place: (Seq<Seq<char>>, Seq<Seq<char>>),
    config: Result<ChalkConfig, String>,
    file: File,
) -> bool {
    match files.path(file) {
        Some(path) => project::is_project_source(system, place.0, place.1, config, path) == Ok::<
            bool,
            Failure,
        >(true),
        None => false,
    }
}

proof fn lemma_sorted_contains(files: Files, sources: Seq<File>, file: File)
    ensures
        active_project::sorted_files(files, sources).contains(file) <==> sources.contains(file),
{
    let items = active_project::named(files, sources);
    let sorted = order::stable_sort(items);
    let out = active_project::sorted_files(files, sources);
    order::lemma_stable_sort(items);
    if out.contains(file) {
        let k = choose|k: int| 0 <= k < out.len() && out[k] == file;
        assert(sorted.contains(sorted[k]));
        assert(items.contains(sorted[k]));
        let m = choose|m: int| 0 <= m < items.len() && items[m] == sorted[k];
        assert(sources[m] == file);
    }
    if sources.contains(file) {
        let m = choose|m: int| 0 <= m < sources.len() && sources[m] == file;
        assert(items.contains(items[m]));
        assert(sorted.contains(items[m]));
        let k = choose|k: int| 0 <= k < sorted.len() && sorted[k] == items[m];
        assert(out[k] == file);
    }
}

/// The sources of an active project are those that the file system has and those open documents
/// that the project contains, and no others: closing a document that the file system still has
/// leaves it a source.
pub proof fn law_sources_are_native_or_open(
    files: Files,
    system: System,
    place: (Seq<Seq<char>>, Seq<Seq<char>>),
    config: Result<ChalkConfig, String>,
    open: Seq<File>,
    file: File,
)
    requires
        active_project::active_sources(files, system, place, config, open) is Ok,
        active_project::active_sources(files, system, place, config, Seq::empty()) is Ok,
    ensures
        active_project::active_sources(files, system, place, config, open)->Ok_0.contains(file)
            <==> active_project::active_sources(
            files,
            system,
            place,
            config,
            Seq::empty(),
        )->Ok_0.contains(file) || (open.contains(file) && contains_open(
            files,
            system,
            place,
            config,
            file,
        )),
{
    let found = project::project_sources(system, place.0, place.1, config)->Ok_0;
    let native = active_project::resolved_files(files, project::sorted_paths(found))->Ok_0;
    let sources = active_project::with_open(files, system, place, config, native, open)->Ok_0;
    lemma_with_open(files, system, place, config, native, open, file);
    lemma_sorted_contains(files, sources, file);
    lemma_sorted_contains(files, native, file);
}

/// The sources of an active project are sorted by the text of their paths.
pub proof fn law_active_sources_are_sorted(files: Files, sources: Seq<File>, i: int, j: int)
    requires
        0 <= i < j < sources.len(),
    ensures
        active_project::sorted_files(files, sources).len() == sources.len(),
        !text::text_before(
            paths::path_text(
                files.path(active_project::sorted_files(files, sources)[j])->Some_0,
            ),
            paths::path_text(
                files.path(active_project::sorted_files(files, sources)[i])->Some_0,
            ),
        ),
{
    let items = active_project::named(files, sources);
    let sorted = order::stable_sort(items);
    order::lemma_stable_sort(items);
    assert forall|k: int| 0 <= k < sorted.len() implies (#[trigger] sorted[k]).text
        == paths::path_text(files.path(sorted[k].file)->Some_0) by {
        assert(sorted.contains(sorted[k]));
        assert(items.contains(sorted[k]));
        let m = choose|m: int| 0 <= m < items.len() && items[m] == sorted[k];
        assert(items[m].text == paths::path_text(files.path(items[m].file)->Some_0));
    }
    let a: Named = sorted[i];
    let b: Named = sorted[j];
    assert(!text::text_before(b.text, a.text));
}

/// New contents of a source, other than the configuration or the ignore file, never make the
/// project look up its sources again.
pub proof fn law_edits_do_not_refresh(active: Active, change: Change)
    requires
        change is Changed,
        paths::is_source_path(change.path()->Some_0),
        change.path() != Some(active.ignore_path),
        change.path() != Some(active.config_path),
        !active_project::is_named(
            change.path()->Some_0,
            ".gitignore"@,
            ".chalkignore"@,
        ),
    ensures
        !active_project::affects_sources(
            active.root,
            active.config_path,
            active.ignore_path,
            change,
        ),
{
}

/// What happens outside the project concerns it only at its ignore file.
pub proof fn law_changes_elsewhere_do_not_refresh(active: Active, change: Change)
    requires
        change.path() matches Some(path) && !paths::lies_in(path, active.root) && path
            != active.ignore_path,
    ensures
        !active_project::affects_sources(
            active.root,
            active.config_path,
            active.ignore_path,
            change,
        ),
{
}

} // verus!

//! What holds of every diagnostic.

use vstd::prelude::*;

use crate::call_matcher::{CallNoMatchReason, Target};
use crate::diagnostic;
use crate::diagnostic::{ChalkDiagnostic, Detail, Details, PlacedDetail};
use crate::order;
use crate::order::Ordered;
use crate::presentation;
use crate::presentation_laws;
use crate::reachability::Unsupported;
use crate::semantic::Db;
use crate::supported_functions::{CallKey, SupportedCall, SupportedFuncs};

verus! {

/// The signatures that are presented of calls are determined by the calls.
pub proof fn law_presented_signatures_are_unique(
    supported: SupportedFuncs,
    keys: Seq<CallKey>,
    a: Seq<Seq<char>>,
    b: Seq<Seq<char>>,
)
    requires
        diagnostic::are_presented(supported, keys, a),
        diagnostic::are_presented(supported, keys, b),
    ensures
        a == b,
{
    let (left, x) = choose|calls: Seq<SupportedCall>, displays: Seq<Seq<char>>|
        order::keys(calls) == keys && #[trigger] presentation::is_listing(
            supported,
            presentation::distinct_calls(calls),
            displays,
        ) && a == presentation::summary(displays);
    let (right, y) = choose|calls: Seq<SupportedCall>, displays: Seq<Seq<char>>|
        order::keys(calls) == keys && #[trigger] presentation::is_listing(
            supported,
            presentation::distinct_calls(calls),
            displays,
        ) && b == presentation::summary(displays);
    presentation_laws::law_call_order_is_irrelevant(supported, left, right);
    presentation_laws::law_listing_is_unique(
        supported,
        presentation::distinct_calls(left),
        x,
        y,
    );
}

/// What a diagnostic says of a call is determined by the call, the registry and the source.
pub proof fn law_details_are_unique(
    db: Db,
    supported: SupportedFuncs,
    candidate: Unsupported,
    source: Seq<char>,
    a: Details,
    b: Details,
)
    requires
        diagnostic::are_details(db, supported, candidate, source, a),
        diagnostic::are_details(db, supported, candidate, source, b),
    ensures
        a == b,
{
    law_presented_signatures_are_unique(
        supported,
        diagnostic::mismatched_calls(candidate.targets),
        a.signatures,
        b.signatures,
    );
}

/// A call is only quoted on one line, in at most a fixed number of characters, and next to at least
/// one signature.
pub proof fn law_quotes_are_short(
    db: Db,
    supported: SupportedFuncs,
    candidate: Unsupported,
    source: Seq<char>,
    details: Details,
)
    requires
        diagnostic::are_details(db, supported, candidate, source, details),
    ensures
        details.observed_call matches Some(call) ==> {
            &&& call.len() <= diagnostic::MAX_OBSERVED_CALL_CHARACTERS
            &&& !call.contains('\n')
            &&& !call.contains('\r')
            &&& details.signatures.len() > 0
        },
{
}

/// Diagnostics stand in order of where they start, then of where they end, then of their codes.
pub proof fn law_diagnostics_are_sorted(found: Seq<ChalkDiagnostic>)
    ensures
        order::non_decreasing(order::stable_sort(found)),
        order::stable_sort(found).to_multiset() =~= found.to_multiset(),
{
    order::lemma_stable_sort(found);
}

/// No neighbours are the same, and nothing is lost.
proof fn lemma_deduplicated(details: Seq<Detail>)
    ensures
        ({
            let kept = diagnostic::deduplicated(details);
            &&& forall|i: int, j: int|
                0 <= i && j == i + 1 && j < kept.len() ==> #[trigger] kept[i] != #[trigger] kept[j]
            &&& forall|detail: Detail| #[trigger]
                kept.contains(detail) <==> details.contains(detail)
            &&& details.len() > 0 ==> kept.len() > 0 && kept.last() == details.last()
        }),
    decreases details.len(),
{
    if details.len() > 0 {
        let init = details.drop_last();
        lemma_deduplicated(init);
        let before = diagnostic::deduplicated(init);
        let kept = diagnostic::deduplicated(details);
        assert forall|detail: Detail| #[trigger] kept.contains(detail) <==> details.contains(
            detail,
        ) by {
            assert(before.contains(detail) <==> init.contains(detail));
            if kept.contains(detail) {
                let k = choose|k: int| 0 <= k < kept.len() && kept[k] == detail;
                if k < before.len() {
                    assert(before[k] == detail);
                    let m = choose|m: int| 0 <= m < init.len() && init[m] == detail;
                    assert(details[m] == detail);
                } else {
                    assert(details[details.len() - 1] == detail);
                }
            }
            if details.contains(detail) {
                let m = choose|m: int| 0 <= m < details.len() && details[m] == detail;
                if m < init.len() {
                    assert(init[m] == detail);
                    let k = choose|k: int| 0 <= k < before.len() && before[k] == detail;
                    assert(kept[k] == detail);
                } else {
                    assert(kept[kept.len() - 1] == detail);
                }
            }
        }
    }
}

/// Where what is the same stands together, nothing is kept twice.
proof fn lemma_deduplicated_once(details: Seq<Detail>)
    requires
        forall|i: int, j: int, k: int|
            0 <= i < j < k < details.len() && #[trigger] details[i] == #[trigger] details[k]
                ==> #[trigger] details[j] == details[i],
    ensures
        diagnostic::deduplicated(details).no_duplicates(),
    decreases details.len(),
{
    if details.len() > 0 {
        let init = details.drop_last();
        let before = diagnostic::deduplicated(init);
        let kept = diagnostic::deduplicated(details);
        assert forall|i: int, j: int, k: int|
            0 <= i < j < k < init.len() && #[trigger] init[i]
                == #[trigger] init[k] implies #[trigger] init[j] == init[i] by {
            assert(details[i] == init[i] && details[j] == init[j] && details[k] == init[k]);
        }
        lemma_deduplicated_once(init);
        lemma_deduplicated(init);
        if before.contains(details.last()) && (before.len() == 0 || before.last()
            != details.last()) {
            let m = choose|m: int| 0 <= m < init.len() && init[m] == details.last();
            let last = details.len() - 1;
            assert(details[m] == details[last]);
            if m < last - 1 {
                assert(details[last - 1] == details[m]);
            }
            assert(init.last() == details[last - 1]);
        }
        assert forall|i: int, j: int| 0 <= i < j < kept.len() implies kept[i] != kept[j] by {
            if j < before.len() {
                assert(kept[i] == before[i] && kept[j] == before[j]);
            } else {
                assert(kept[i] == before[i]);
                assert(kept[j] == details.last());
                assert(before.contains(before[i]));
            }
        }
    }
}

/// No target occurs twice in a diagnostic and none is lost, where files are told apart by their
/// paths.
pub proof fn law_targets_occur_once(db: Db, targets: Seq<(Target, CallNoMatchReason)>)
    requires
        forall|i: int, j: int|
            0 <= i < targets.len() && 0 <= j < targets.len() && (#[trigger] targets[i]).0.range
                is Some && (#[trigger] targets[j]).0.range is Some && db.file(
                targets[i].0.range->Some_0.file,
            ).path@ == db.file(targets[j].0.range->Some_0.file).path@
                ==> targets[i].0.range->Some_0.file == targets[j].0.range->Some_0.file,
    ensures
        diagnostic::sorted_details(db, targets).no_duplicates(),
        forall|detail: Detail| #[trigger]
            diagnostic::sorted_details(db, targets).contains(detail) <==> exists|i: int|
                0 <= i < targets.len() && diagnostic::detail_of(#[trigger] targets[i]) == detail,
{
    let placed = diagnostic::placed_details(db, targets);
    let sorted = order::stable_sort(placed);
    let shown = Seq::new(sorted.len(), |i: int| sorted[i].detail);
    order::lemma_stable_sort(placed);
    assert forall|i: int| 0 <= i < sorted.len() implies exists|k: int|
        0 <= k < targets.len() && #[trigger] placed[k] == #[trigger] sorted[i] by {
        assert(sorted.contains(sorted[i]));
    }
    assert forall|i: int, j: int|
        0 <= i < sorted.len() && 0 <= j < sorted.len() && (#[trigger] sorted[i]).key() == (
        #[trigger] sorted[j]).key() implies sorted[i] == sorted[j] by {
        let m = choose|m: int| 0 <= m < targets.len() && #[trigger] placed[m] == sorted[i];
        let n = choose|n: int| 0 <= n < targets.len() && #[trigger] placed[n] == sorted[j];
        assert(targets[m].0.range is Some == targets[n].0.range is Some);
        if targets[m].0.range is Some {
            assert(targets[m].0.range->Some_0.file == targets[n].0.range->Some_0.file);
        }
        assert(sorted[i].detail.location == sorted[j].detail.location);
        assert(sorted[i].detail.reason == sorted[j].detail.reason);
    }
    assert forall|i: int, j: int, k: int|
        0 <= i < j < k < shown.len() && #[trigger] shown[i] == #[trigger] shown[k] implies
        #[trigger] shown[j] == shown[i] by {
        let m = choose|m: int| 0 <= m < targets.len() && #[trigger] placed[m] == sorted[i];
        let n = choose|n: int| 0 <= n < targets.len() && #[trigger] placed[n] == sorted[k];
        assert(sorted[i].key() == sorted[k].key());
        assert(!PlacedDetail::key_before(sorted[j].key(), sorted[i].key()));
        assert(!PlacedDetail::key_before(sorted[k].key(), sorted[j].key()));
        PlacedDetail::key_total(sorted[i].key(), sorted[j].key());
        assert(sorted[i].key() == sorted[j].key());
    }
    lemma_deduplicated_once(shown);
    lemma_deduplicated(shown);
    assert forall|detail: Detail| #[trigger]
        diagnostic::sorted_details(db, targets).contains(detail) <==> exists|i: int|
            0 <= i < targets.len() && diagnostic::detail_of(#[trigger] targets[i]) == detail by {
        if shown.contains(detail) {
            let i = choose|i: int| 0 <= i < shown.len() && shown[i] == detail;
            let k = choose|k: int| 0 <= k < targets.len() && #[trigger] placed[k] == sorted[i];
            assert(diagnostic::detail_of(targets[k]) == detail);
        }
        if exists|i: int|
            0 <= i < targets.len() && diagnostic::detail_of(#[trigger] targets[i]) == detail {
            let i = choose|i: int|
                0 <= i < targets.len() && diagnostic::detail_of(#[trigger] targets[i]) == detail;
            assert(placed.contains(placed[i]));
            assert(sorted.contains(placed[i]));
            let m = choose|m: int| 0 <= m < sorted.len() && sorted[m] == placed[i];
            assert(shown[m] == detail);
        }
    }
}

} // verus!

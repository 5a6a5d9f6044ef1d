//! What holds of every presentation of registry signatures.

use vstd::prelude::*;

use crate::order;
use crate::presentation;
use crate::supported_functions::{CallKey, CallKind, SupportedCall, SupportedFuncs, SupportedSignature};
use crate::text;

verus! {

/// The displays to be summarized are determined by the registry and the calls: there is only one
/// list of them without repetition and in text order.
pub proof fn law_listing_is_unique(
    supported: SupportedFuncs,
    calls: Seq<CallKey>,
    a: Seq<Seq<char>>,
    b: Seq<Seq<char>>,
)
    requires
        presentation::is_listing(supported, calls, a),
        presentation::is_listing(supported, calls, b),
    ensures
        a == b,
{
    lemma_sorted_texts_unique(a, b);
}

proof fn lemma_sorted_texts_unique(a: Seq<Seq<char>>, b: Seq<Seq<char>>)
    requires
        forall|i: int, j: int|
            0 <= i < j < a.len() ==> text::text_before(#[trigger] a[i], #[trigger] a[j]),
        forall|i: int, j: int|
            0 <= i < j < b.len() ==> text::text_before(#[trigger] b[i], #[trigger] b[j]),
        forall|t: Seq<char>| #[trigger] a.contains(t) <==> b.contains(t),
    ensures
        a =~= b,
    decreases a.len(),
{
    if a.len() == 0 {
        if b.len() > 0 {
            assert(b.contains(b[0]));
            assert(a.contains(b[0]));
        }
    } else {
        let x = a.last();
        assert(a.contains(x));
        let at = choose|i: int| 0 <= i < b.len() && b[i] == x;
        let y = b.last();
        assert(b.contains(y));
        assert(a.contains(y));
        let on = choose|i: int| 0 <= i < a.len() && a[i] == y;
        if at < b.len() - 1 {
            assert(text::text_before(b[at], b[b.len() - 1]));
            if on < a.len() - 1 {
                assert(text::text_before(a[on], a[a.len() - 1]));
                text::lemma_text_before_transitive(x, y, x);
            }
            text::lemma_text_before_irreflexive(x);
        }
        let c = a.drop_last();
        let d = b.drop_last();
        text::lemma_text_before_irreflexive(x);
        assert forall|t: Seq<char>| #[trigger] c.contains(t) == d.contains(t) by {
            if c.contains(t) {
                let i = choose|i: int| 0 <= i < c.len() && c[i] == t;
                assert(a[i] == t);
                assert(a.contains(t));
                let j = choose|j: int| 0 <= j < b.len() && b[j] == t;
                assert(text::text_before(a[i], a[a.len() - 1]));
                assert(d[j] == t);
            }
            if d.contains(t) {
                let i = choose|i: int| 0 <= i < d.len() && d[i] == t;
                assert(b[i] == t);
                assert(b.contains(t));
                assert(a.contains(t));
                let j = choose|j: int| 0 <= j < a.len() && a[j] == t;
                assert(text::text_before(b[i], b[b.len() - 1]));
                assert(c[j] == t);
            }
        }
        lemma_sorted_texts_unique(c, d);
        assert(a =~= c.push(x));
        assert(b =~= d.push(y));
    }
}

/// A presentation has at most two displays and a count of the rest.
pub proof fn law_presentation_is_short(displays: Seq<Seq<char>>)
    ensures
        presentation::summary(displays).len() <= presentation::DISPLAY_LIMIT + 1,
        displays.len() <= presentation::DISPLAY_LIMIT ==> presentation::summary(displays)
            == displays,
        displays.len() > presentation::DISPLAY_LIMIT ==> presentation::summary(displays).len()
            == presentation::DISPLAY_LIMIT + 1,
{
}

/// Neither the order nor the repetition of calls changes what is presented.
pub proof fn law_call_order_is_irrelevant(
    supported: SupportedFuncs,
    a: Seq<SupportedCall>,
    b: Seq<SupportedCall>,
)
    requires
        forall|call: CallKey| #[trigger] order::keys(a).contains(call) <==> order::keys(b).contains(
            call,
        ),
    ensures
        presentation::distinct_calls(a) == presentation::distinct_calls(b),
{
    order::lemma_distinct_sort(a);
    order::lemma_distinct_sort(b);
    let x = order::distinct_sort(a);
    let y = order::distinct_sort(b);
    assert forall|call: CallKey| #[trigger] order::keys(x).contains(call) == order::keys(
        y,
    ).contains(call) by {
        assert(order::keys(a).contains(call) == order::keys(b).contains(call));
    }
    order::lemma_strictly_increasing_unique(x, y);
}

/// A call that is not registered adds nothing to what is presented.
pub proof fn law_missing_calls_show_nothing(
    supported: SupportedFuncs,
    calls: Seq<CallKey>,
    missing: CallKey,
)
    requires
        !supported.has(missing),
    ensures
        forall|display: Seq<char>| #[trigger]
            presentation::shows(supported, calls.push(missing), display) == presentation::shows(
                supported,
                calls,
                display,
            ),
{
    let longer = calls.push(missing);
    assert(longer.drop_last() =~= calls);
    assert forall|call: CallKey| supported.has(call) implies #[trigger] longer.contains(call)
        == calls.contains(call) by {
        if longer.contains(call) {
            let i = choose|i: int| 0 <= i < longer.len() && longer[i] == call;
            assert(calls[i] == call);
        }
        if calls.contains(call) {
            let i = choose|i: int| 0 <= i < calls.len() && calls[i] == call;
            assert(longer[i] == call);
        }
    }
    assert forall|display: Seq<char>| #[trigger]
        presentation::shows(supported, longer, display) == presentation::shows(
        supported,
        calls,
        display,
    ) by {
        if presentation::collapsed_shows(supported, longer, display) {
            let call = choose|call: CallKey| #[trigger]
                longer.contains(call) && supported.has(call) && presentation::call_shows(
                    call.kind,
                    call.name,
                    supported.at(call).to_set(),
                    display,
                );
            assert(calls.contains(call));
        }
        if presentation::collapsed_shows(supported, calls, display) {
            let call = choose|call: CallKey| #[trigger]
                calls.contains(call) && supported.has(call) && presentation::call_shows(
                    call.kind,
                    call.name,
                    supported.at(call).to_set(),
                    display,
                );
            assert(longer.contains(call));
        }
        if presentation::raw_shows(supported, longer, display) {
            let (call, signature) = choose|call: CallKey, signature: SupportedSignature|
                #![trigger longer.contains(call), supported.at(call).contains(signature)]
                longer.contains(call) && supported.has(call) && supported.at(call).contains(
                    signature,
                ) && display == presentation::signature_text(call.kind, call.name, signature);
            assert(calls.contains(call));
        }
        if presentation::raw_shows(supported, calls, display) {
            let (call, signature) = choose|call: CallKey, signature: SupportedSignature|
                #![trigger calls.contains(call), supported.at(call).contains(signature)]
                calls.contains(call) && supported.has(call) && supported.at(call).contains(
                    signature,
                ) && display == presentation::signature_text(call.kind, call.name, signature);
            assert(longer.contains(call));
        }
    }
}

/// Two registries with the same calls, each with the same signatures in some order.
pub open spec fn same_up_to_signature_order(a: SupportedFuncs, b: SupportedFuncs) -> bool {
    forall|call: CallKey| #[trigger]
        a.has(call) == b.has(call) && (a.has(call) ==> a.at(call).to_multiset() =~= b.at(
            call,
        ).to_multiset())
}

/// The order in which a call's signatures are registered changes nothing of what is presented.
pub proof fn law_signature_order_is_irrelevant(
    a: SupportedFuncs,
    b: SupportedFuncs,
    calls: Seq<CallKey>,
)
    requires
        same_up_to_signature_order(a, b),
    ensures
        forall|display: Seq<char>| #[trigger]
            presentation::shows(a, calls, display) == presentation::shows(b, calls, display),
{
    lemma_total_work_order(a, b, calls);
    assert forall|call: CallKey| a.has(call) implies (#[trigger] a.at(call)).to_set() =~= b.at(
        call,
    ).to_set() && forall|s: SupportedSignature| #[trigger]
        a.at(call).contains(s) == b.at(call).contains(s) by {
        assert(a.has(call) == b.has(call));
        lemma_same_members(a.at(call), b.at(call));
    }
    assert forall|display: Seq<char>| #[trigger]
        presentation::shows(a, calls, display) == presentation::shows(b, calls, display) by {
        lemma_raw_order(a, b, calls, display);
        lemma_raw_order(b, a, calls, display);
        lemma_collapsed_order(a, b, calls, display);
        lemma_collapsed_order(b, a, calls, display);
    }
}

proof fn lemma_raw_order(
    a: SupportedFuncs,
    b: SupportedFuncs,
    calls: Seq<CallKey>,
    display: Seq<char>,
)
    requires
        same_up_to_signature_order(a, b),
    ensures
        presentation::raw_shows(a, calls, display) ==> presentation::raw_shows(b, calls, display),
{
    if presentation::raw_shows(a, calls, display) {
        let (call, signature) = choose|call: CallKey, signature: SupportedSignature|
            #![trigger calls.contains(call), a.at(call).contains(signature)]
            calls.contains(call) && a.has(call) && a.at(call).contains(signature) && display
                == presentation::signature_text(call.kind, call.name, signature);
        assert(a.has(call) == b.has(call));
        lemma_same_members(a.at(call), b.at(call));
        assert(b.at(call).contains(signature));
    }
}

proof fn lemma_collapsed_order(
    a: SupportedFuncs,
    b: SupportedFuncs,
    calls: Seq<CallKey>,
    display: Seq<char>,
)
    requires
        same_up_to_signature_order(a, b),
    ensures
        presentation::collapsed_shows(a, calls, display) ==> presentation::collapsed_shows(
            b,
            calls,
            display,
        ),
{
    if presentation::collapsed_shows(a, calls, display) {
        let call = choose|call: CallKey| #[trigger]
            calls.contains(call) && a.has(call) && presentation::call_shows(
                call.kind,
                call.name,
                a.at(call).to_set(),
                display,
            );
        assert(a.has(call) == b.has(call));
        lemma_same_members(a.at(call), b.at(call));
        assert(a.at(call).to_set() =~= b.at(call).to_set());
    }
}

proof fn lemma_same_members(a: Seq<SupportedSignature>, b: Seq<SupportedSignature>)
    requires
        a.to_multiset() =~= b.to_multiset(),
    ensures
        a.len() == b.len(),
        forall|s: SupportedSignature| #[trigger] a.contains(s) == b.contains(s),
        a.to_set() =~= b.to_set(),
{
    a.to_multiset_ensures();
    b.to_multiset_ensures();
    assert forall|s: SupportedSignature| #[trigger] a.contains(s) == b.contains(s) by {
        assert(a.to_multiset().count(s) == b.to_multiset().count(s));
    }
}

proof fn lemma_total_work_order(a: SupportedFuncs, b: SupportedFuncs, calls: Seq<CallKey>)
    requires
        same_up_to_signature_order(a, b),
    ensures
        presentation::total_work(a, calls) == presentation::total_work(b, calls),
    decreases calls.len(),
{
    if calls.len() > 0 {
        lemma_total_work_order(a, b, calls.drop_last());
        let call = calls.last();
        assert(a.has(call) == b.has(call));
        if a.has(call) {
            lemma_call_work_order(call.kind, a.at(call), b.at(call));
        }
    }
}

proof fn lemma_count_order(
    signatures: Seq<SupportedSignature>,
    condition: spec_fn(SupportedSignature) -> bool,
)
    ensures
        presentation::count_where(signatures, condition) == signatures.to_multiset().filter(
            condition,
        ).len(),
    decreases signatures.len(),
{
    broadcast use vstd::multiset::group_multiset_axioms;

    signatures.to_multiset_ensures();
    if signatures.len() == 0 {
        assert(signatures.to_multiset().filter(condition) =~= vstd::multiset::Multiset::<
            SupportedSignature,
        >::empty());
    } else {
        let init = signatures.drop_last();
        let last = signatures.last();
        lemma_count_order(init, condition);
        assert(signatures =~= init.push(last));
        vstd::seq_lib::to_multiset_build(init, last);
        let before = init.to_multiset().filter(condition);
        let after = signatures.to_multiset().filter(condition);
        if condition(last) {
            assert(after =~= before.insert(last));
        } else {
            assert(after =~= before);
        }
    }
}

proof fn lemma_max_arity(kind: CallKind, signatures: Seq<SupportedSignature>)
    ensures
        forall|s: SupportedSignature| #[trigger]
            signatures.contains(s) ==> presentation::presented(kind, s).len()
                <= presentation::max_arity(kind, signatures),
        signatures.len() > 0 ==> exists|s: SupportedSignature| #[trigger]
            signatures.contains(s) && presentation::presented(kind, s).len()
                == presentation::max_arity(kind, signatures),
    decreases signatures.len(),
{
    if signatures.len() > 0 {
        let init = signatures.drop_last();
        let last = signatures.last();
        lemma_max_arity(kind, init);
        assert(signatures.contains(last));
        assert forall|s: SupportedSignature| #[trigger] signatures.contains(s) implies
        presentation::presented(kind, s).len() <= presentation::max_arity(kind, signatures) by {
            let i = choose|i: int| 0 <= i < signatures.len() && signatures[i] == s;
            if i < init.len() {
                assert(init[i] == s);
                assert(init.contains(s));
            }
        }
        if init.len() > 0 {
            let s = choose|s: SupportedSignature| #[trigger]
                init.contains(s) && presentation::presented(kind, s).len()
                    == presentation::max_arity(kind, init);
            let i = choose|i: int| 0 <= i < init.len() && init[i] == s;
            assert(signatures[i] == s);
            assert(signatures.contains(s));
        }
    }
}

proof fn lemma_call_work_order(
    kind: CallKind,
    a: Seq<SupportedSignature>,
    b: Seq<SupportedSignature>,
)
    requires
        a.to_multiset() =~= b.to_multiset(),
    ensures
        presentation::call_work(kind, a) == presentation::call_work(kind, b),
{
    lemma_same_members(a, b);
    lemma_max_arity(kind, a);
    lemma_max_arity(kind, b);
    assert(presentation::max_arity(kind, a) == presentation::max_arity(kind, b)) by {
        if a.len() > 0 {
            let s = choose|s: SupportedSignature| #[trigger]
                a.contains(s) && presentation::presented(kind, s).len() == presentation::max_arity(
                    kind,
                    a,
                );
            assert(b.contains(s));
            let t = choose|t: SupportedSignature| #[trigger]
                b.contains(t) && presentation::presented(kind, t).len() == presentation::max_arity(
                    kind,
                    b,
                );
            assert(a.contains(t));
        }
    }
    assert(presentation::metadata_of(kind, a) =~= presentation::metadata_of(kind, b)) by {
        assert forall|meta: presentation::Metadata| #[trigger]
            presentation::metadata_of(kind, a).contains(meta) == presentation::metadata_of(
            kind,
            b,
        ).contains(meta) by {
            if presentation::metadata_of(kind, a).contains(meta) {
                let s = choose|s: SupportedSignature| #[trigger]
                    a.contains(s) && presentation::metadata(kind, s) == meta;
                assert(b.contains(s));
            }
            if presentation::metadata_of(kind, b).contains(meta) {
                let s = choose|s: SupportedSignature| #[trigger]
                    b.contains(s) && presentation::metadata(kind, s) == meta;
                assert(a.contains(s));
            }
        }
    }
    assert forall|meta: presentation::Metadata| #[trigger]
        presentation::group_work(kind, a, meta) == presentation::group_work(kind, b, meta) by {
        lemma_group_work_order(kind, a, b, meta);
    }
    assert(presentation::group_measure(kind, a) =~= presentation::group_measure(kind, b));
}

proof fn lemma_group_work_order(
    kind: CallKind,
    a: Seq<SupportedSignature>,
    b: Seq<SupportedSignature>,
    meta: presentation::Metadata,
)
    requires
        a.to_multiset() =~= b.to_multiset(),
    ensures
        presentation::group_work(kind, a, meta) == presentation::group_work(kind, b, meta),
{
    lemma_same_members(a, b);
    lemma_count_order(a, presentation::of_group(kind, meta));
    lemma_count_order(b, presentation::of_group(kind, meta));
    assert forall|form: presentation::Shape| #[trigger]
        presentation::shape_work(kind, a, meta, form) == presentation::shape_work(
        kind,
        b,
        meta,
        form,
    ) by {
        lemma_count_order(a, presentation::of_shape(kind, a.to_set(), meta, form));
        lemma_count_order(b, presentation::of_shape(kind, b.to_set(), meta, form));
    }
    assert(presentation::shape_measure(kind, a, meta) =~= presentation::shape_measure(
        kind,
        b,
        meta,
    ));
}

/// Every signature of a group is shown: by a display of its own, or by one that stands for all
/// signatures of a shape that it fits.
pub proof fn law_every_signature_is_shown(
    kind: CallKind,
    name: Seq<char>,
    pool: Set<SupportedSignature>,
    meta: presentation::Metadata,
    signature: SupportedSignature,
)
    requires
        presentation::in_group(kind, pool, meta, signature),
    ensures
        presentation::group_shows(
            kind,
            name,
            pool,
            meta,
            presentation::signature_text(kind, name, signature),
        ) || exists|form: presentation::Shape| #[trigger]
            presentation::collapses(kind, pool, meta, form) && presentation::fits(
                kind,
                signature,
                form,
            ) && presentation::group_shows(
                kind,
                name,
                pool,
                meta,
                presentation::collapsed_text(
                    name,
                    meta,
                    form,
                    presentation::nullable_axes(kind, pool, meta, form),
                ),
            ),
{
    if presentation::is_covered(kind, pool, signature) {
        let form = choose|form: presentation::Shape| #[trigger]
            presentation::collapses(kind, pool, meta, form) && presentation::fits(
                kind,
                signature,
                form,
            );
        assert(presentation::collapses(kind, pool, meta, form));
    }
}

} // verus!

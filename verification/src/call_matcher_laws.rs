//! What holds of every match of a call.

use vstd::prelude::*;

use crate::call_matcher;
use crate::call_matcher::{
    Actual, Argument, CallNoMatchReason, Classified, Identity, Lead, ObservedCall, Outcome, Target,
};
use crate::chalk;
use crate::chalk::{ChalkTypeShape, ModuleOrigin};
use crate::provenance;
use crate::provenance::{CallDefinitionOriginKind, KnownCallTarget, ModuleSymbol};
use crate::semantic::{Db, Definition, FileRange, Type, TypeKind, TypeVarBound};
use crate::supported_functions::{
    CallKey, CallKind, SupportedArg, SupportedFuncs, SupportedSignature, SupportedTy,
};
use crate::type_matcher;
use crate::type_matcher::TypeMatch;
use crate::type_matcher_laws;

verus! {

/// A definition of the project, of an extra path or of no known origin never matches the registry,
/// whatever its module is called: it shadows nothing that the registry lists.
pub proof fn law_local_definitions_never_match(
    db: Db,
    supported: SupportedFuncs,
    call: ObservedCall<'_>,
)
    requires
        call.target is Resolved,
        ({
            let file = db.definition(call.target->Resolved_0.definition).file;
            let owner = provenance::file_owner(db, file);
            owner == ModuleOrigin::FirstParty || owner == ModuleOrigin::Extra || owner
                == ModuleOrigin::Other
        }),
    ensures
        match call_matcher::call_outcome(db, supported, call) {
            Outcome::Match(_) => false,
            Outcome::NoMatch { reason, .. } => reason == CallNoMatchReason::MissingRegistryEntry,
            Outcome::Inconclusive => true,
        },
{
    reveal(call_matcher::outcome);
}

/// Every function, method or class of an installed `chalk` package matches, whatever is passed.
pub proof fn law_chalk_definitions_match(db: Db, supported: SupportedFuncs, call: ObservedCall<'_>)
    requires
        call.target is Resolved,
        ({
            let definition = call.target->Resolved_0.definition;
            let file = db.definition(definition).file;
            &&& provenance::file_owner(db, file) == ModuleOrigin::ThirdParty
            &&& provenance::in_chalk_namespace(provenance::file_module_name(db, file))
            &&& provenance::definition_kind(db, definition) is Some
        }),
    ensures
        call_matcher::call_outcome(db, supported, call) is Match,
{
    reveal(call_matcher::outcome);
}

/// A module that is not installed and not part of the standard library is left open: its name
/// alone gains it nothing.
pub proof fn law_foreign_modules_are_open(db: Db, supported: SupportedFuncs, call: ObservedCall<'_>)
    requires
        call.target is ModuleProvenance,
        !call_matcher::is_registered_origin(call.target->ModuleProvenance_0.ownership_origin),
    ensures
        call_matcher::call_outcome(db, supported, call) is Inconclusive,
{
    reveal(call_matcher::outcome);
}

/// A class is only matched as a builtin: any other constructor outside the `chalk` packages is
/// left open.
pub proof fn law_other_constructors_are_open(
    db: Db,
    supported: SupportedFuncs,
    call: ObservedCall<'_>,
)
    requires
        call.target is Resolved,
        ({
            let definition = call.target->Resolved_0.definition;
            let file = db.definition(definition).file;
            &&& provenance::definition_kind(db, definition) == Some(
                CallDefinitionOriginKind::ClassConstructor,
            )
            &&& provenance::file_owner(db, file) != ModuleOrigin::ThirdParty
            &&& provenance::file_module_name(db, file) != "builtins"@
        }),
    ensures
        call_matcher::call_outcome(db, supported, call) is Inconclusive,
{
    reveal(call_matcher::outcome);
}

/// A method without a receiver is left open, unless it belongs to an installed `chalk` package.
pub proof fn law_unbound_methods_are_open(db: Db, supported: SupportedFuncs, call: ObservedCall<'_>)
    requires
        call.target is Resolved,
        call.receiver is None,
        ({
            let definition = call.target->Resolved_0.definition;
            let file = db.definition(definition).file;
            &&& provenance::definition_kind(db, definition) == Some(
                CallDefinitionOriginKind::Method,
            )
            &&& provenance::file_owner(db, file) != ModuleOrigin::ThirdParty
        }),
    ensures
        call_matcher::call_outcome(db, supported, call) is Inconclusive,
{
    reveal(call_matcher::outcome);
}

/// The target that a result speaks of.
pub open spec fn outcome_target(outcome: Outcome) -> Option<Target> {
    match outcome {
        Outcome::Match(target) => Some(target),
        Outcome::NoMatch { target, .. } => Some(target),
        Outcome::Inconclusive => None,
    }
}

/// The target that a call is matched as does not depend on its arguments, nor on the registry.
pub proof fn law_identity_ignores_arguments(
    db: Db,
    supported: SupportedFuncs,
    other_supported: SupportedFuncs,
    call: ObservedCall<'_>,
    other: ObservedCall<'_>,
)
    requires
        call.target == other.target,
        call.receiver == other.receiver,
    ensures
        ({
            let left = outcome_target(call_matcher::call_outcome(db, supported, call));
            let right = outcome_target(call_matcher::call_outcome(db, other_supported, other));
            left is Some && right is Some ==> left == right
        }),
{
    reveal(call_matcher::outcome);
}

/// What becomes of an observed call.
pub open spec fn classified_call(db: Db, call: ObservedCall<'_>) -> Classified {
    call_matcher::classified(
        db,
        call_matcher::lead_of(call.target),
        call_matcher::observed_all(call.arguments@),
        call.receiver,
    )
}

/// A call that the registry does not list is reported as missing, never as a mismatch.
pub proof fn law_unlisted_calls_are_missing(
    db: Db,
    supported: SupportedFuncs,
    call: ObservedCall<'_>,
)
    requires
        ({
            let classified = classified_call(db, call);
            &&& classified is Registry
            &&& classified->protocol is None
            &&& !supported.has(
                CallKey {
                    kind: classified->Registry_target.kind,
                    name: classified->Registry_target.name,
                },
            )
        }),
    ensures
        call_matcher::call_outcome(db, supported, call) == (Outcome::NoMatch {
            target: classified_call(db, call)->Registry_target,
            reason: CallNoMatchReason::MissingRegistryEntry,
        }),
{
    reveal(call_matcher::outcome);
}

// ---------------------------------------------------------------------------------------------
// Signatures
// ---------------------------------------------------------------------------------------------

/// A call matches exactly if every combination of its argument types is taken by a signature whose
/// parameters all match.
pub proof fn law_match_covers_every_combination(
    db: Db,
    signatures: Seq<SupportedSignature>,
    arguments: Seq<Argument>,
)
    requires
        call_matcher::combinations(db, arguments) is Some,
    ensures
        call_matcher::signatures_match(db, signatures, arguments) == TypeMatch::Match <==> ({
            let all = call_matcher::combinations(db, arguments)->0;
            forall|i: int|
                0 <= i < all.len() ==> exists|k: int|
                    0 <= k < signatures.len() && call_matcher::signature_match(
                        db,
                        #[trigger] signatures[k],
                        #[trigger] all[i],
                    ) == TypeMatch::Match
        }),
{
    let all = call_matcher::combinations(db, arguments)->0;
    let results = Seq::new(
        all.len(),
        |i: int| call_matcher::overload_match(db, signatures, all[i]),
    );
    assert forall|i: int| 0 <= i < all.len() implies ((#[trigger] results[i]) == TypeMatch::Match
        <==> exists|k: int|
        0 <= k < signatures.len() && call_matcher::signature_match(
            db,
            #[trigger] signatures[k],
            all[i],
        ) == TypeMatch::Match) by {
        let row = Seq::new(
            signatures.len(),
            |k: int| call_matcher::signature_match(db, signatures[k], all[i]),
        );
        assert(results[i] == TypeMatch::any_of(row));
        if exists|k: int|
            0 <= k < signatures.len() && call_matcher::signature_match(
                db,
                #[trigger] signatures[k],
                all[i],
            ) == TypeMatch::Match {
            let k = choose|k: int|
                0 <= k < signatures.len() && call_matcher::signature_match(
                    db,
                    #[trigger] signatures[k],
                    all[i],
                ) == TypeMatch::Match;
            assert(row[k] == TypeMatch::Match);
            assert(row.contains(TypeMatch::Match));
        }
    }
    if call_matcher::signatures_match(db, signatures, arguments) == TypeMatch::Match {
        assert forall|i: int| 0 <= i < all.len() implies exists|k: int|
            0 <= k < signatures.len() && call_matcher::signature_match(
                db,
                #[trigger] signatures[k],
                #[trigger] all[i],
            ) == TypeMatch::Match by {
            assert(results.contains(results[i]));
        }
    } else {
        let bad = choose|i: int| 0 <= i < results.len() && results[i] != TypeMatch::Match;
        assert(results[bad] != TypeMatch::Match);
        let row = all[bad];
    }
}

/// The order of a call's signatures in the registry changes nothing.
pub proof fn law_signature_order_is_irrelevant(
    db: Db,
    left: Seq<SupportedSignature>,
    right: Seq<SupportedSignature>,
    arguments: Seq<Argument>,
)
    requires
        forall|signature: SupportedSignature| #[trigger]
            left.contains(signature) <==> right.contains(signature),
    ensures
        call_matcher::signatures_match(db, left, arguments) == call_matcher::signatures_match(
            db,
            right,
            arguments,
        ),
{
    if let Some(all) = call_matcher::combinations(db, arguments) {
        assert forall|i: int| 0 <= i < all.len() implies call_matcher::overload_match(
            db,
            left,
            #[trigger] all[i],
        ) == call_matcher::overload_match(db, right, all[i]) by {
            let a = Seq::new(
                left.len(),
                |k: int| call_matcher::signature_match(db, left[k], all[i]),
            );
            let b = Seq::new(
                right.len(),
                |k: int| call_matcher::signature_match(db, right[k], all[i]),
            );
            assert forall|result: TypeMatch| #[trigger] a.contains(result) implies b.contains(
                result,
            ) by {
                let k = choose|k: int| 0 <= k < a.len() && a[k] == result;
                assert(left.contains(left[k]));
                let m = choose|m: int| 0 <= m < right.len() && right[m] == left[k];
                assert(b[m] == result);
            }
            assert forall|result: TypeMatch| #[trigger] b.contains(result) implies a.contains(
                result,
            ) by {
                let k = choose|k: int| 0 <= k < b.len() && b[k] == result;
                assert(right.contains(right[k]));
                assert(left.contains(right[k]));
                let m = choose|m: int| 0 <= m < left.len() && left[m] == right[k];
                assert(a[m] == result);
            }
            type_matcher_laws::law_aggregates_ignore_order(a, b);
        }
        assert(Seq::new(all.len(), |i: int| call_matcher::overload_match(db, left, all[i]))
            =~= Seq::new(all.len(), |i: int| call_matcher::overload_match(db, right, all[i])));
    }
}

// ---------------------------------------------------------------------------------------------
// Binding
// ---------------------------------------------------------------------------------------------

/// How many parameters are bound.
pub open spec fn bound_count(bound: Seq<Option<call_matcher::Actual>>) -> nat
    decreases bound.len(),
{
    if bound.len() == 0 {
        0
    } else {
        bound_count(bound.drop_last()) + if bound.last() is Some {
            1nat
        } else {
            0
        }
    }
}

proof fn lemma_bound_count_update(
    bound: Seq<Option<call_matcher::Actual>>,
    at: int,
    actual: call_matcher::Actual,
)
    requires
        0 <= at < bound.len(),
        bound[at] is None,
    ensures
        bound_count(bound.update(at, Some(actual))) == bound_count(bound) + 1,
    decreases bound.len(),
{
    let updated = bound.update(at, Some(actual));
    if at == bound.len() - 1 {
        assert(updated.drop_last() =~= bound.drop_last());
    } else {
        assert(updated.drop_last() =~= bound.drop_last().update(at, Some(actual)));
        lemma_bound_count_update(bound.drop_last(), at, actual);
    }
}

proof fn lemma_named_parameter(parameters: Seq<SupportedArg>, name: Seq<char>, at: int)
    requires
        0 <= at,
    ensures
        match call_matcher::named_parameter(parameters, name, at) {
            Some(index) => at <= index < parameters.len() && parameters[index].label() == Some(
                name,
            ),
            None => forall|i: int|
                at <= i < parameters.len() ==> (#[trigger] parameters[i]).label() != Some(name),
        },
    decreases parameters.len() - at,
{
    if at < parameters.len() && parameters[at].label() != Some(name) {
        lemma_named_parameter(parameters, name, at + 1);
    }
}

proof fn lemma_bind_all(parameters: Seq<SupportedArg>, arguments: Seq<Argument>)
    ensures
        match call_matcher::bind_all(parameters, arguments) {
            Some(state) => {
                &&& state.bound.len() == parameters.len()
                &&& 0 <= state.next <= parameters.len()
                &&& bound_count(state.bound) == arguments.len()
                &&& (!state.saw_keyword ==> state.next == arguments.len() && forall|i: int|
                    state.next <= i < parameters.len() ==> #[trigger] state.bound[i] is None)
                &&& forall|i: int|
                    0 <= i < state.next ==> i < arguments.len() && arguments[i]
                        == Argument::Positional((#[trigger] state.bound[i])->0)
                        && state.bound[i] is Some
                &&& forall|i: int|
                    state.next <= i < arguments.len() ==> #[trigger] arguments[i] is Keyword
            },
            None => true,
        },
    decreases arguments.len(),
{
    if arguments.len() == 0 {
        lemma_nothing_bound(parameters.len());
        assert(call_matcher::bind_all(parameters, arguments)->0.bound =~= Seq::new(
            parameters.len(),
            |i: int| None::<call_matcher::Actual>,
        ));
    } else {
        let init = arguments.drop_last();
        lemma_bind_all(parameters, init);
        if let Some(state) = call_matcher::bind_all(parameters, init) {
            assert(forall|i: int| 0 <= i < init.len() ==> arguments[i] == #[trigger] init[i]);
            match arguments.last() {
                Argument::Positional(ty) => {
                    if !state.saw_keyword && state.next < parameters.len() {
                        lemma_bound_count_update(state.bound, state.next, ty);
                        let next = call_matcher::bind_all(parameters, arguments)->0;
                        assert forall|i: int| 0 <= i < next.next implies i < arguments.len()
                            && arguments[i] == Argument::Positional((#[trigger] next.bound[i])->0)
                            && next.bound[i] is Some by {
                            if i < state.next {
                                assert(state.bound[i] is Some);
                            }
                        }
                    }
                },
                Argument::Keyword { name, ty } => {
                    lemma_named_parameter(parameters, name, 0);
                    if let Some(index) = call_matcher::named_parameter(parameters, name, 0) {
                        if state.bound[index] is None {
                            lemma_bound_count_update(state.bound, index, ty);
                            let next = call_matcher::bind_all(parameters, arguments)->0;
                            assert forall|i: int| 0 <= i < next.next implies i < arguments.len()
                                && arguments[i] == Argument::Positional(
                                (#[trigger] next.bound[i])->0,
                            ) && next.bound[i] is Some by {
                                assert(state.bound[i] is Some);
                            }
                            assert forall|i: int| next.next <= i < arguments.len() implies (
                            #[trigger] arguments[i]) is Keyword by {
                                if i < init.len() {
                                    assert(init[i] is Keyword);
                                }
                            }
                        }
                    }
                },
            }
        }
    }
}

proof fn lemma_nothing_bound(len: nat)
    ensures
        bound_count(Seq::new(len, |i: int| None::<call_matcher::Actual>)) == 0,
    decreases len,
{
    let nothing = Seq::new(len, |i: int| None::<call_matcher::Actual>);
    if len > 0 {
        lemma_nothing_bound((len - 1) as nat);
        assert(nothing.drop_last() =~= Seq::new(
            (len - 1) as nat,
            |i: int| None::<call_matcher::Actual>,
        ));
    }
}

/// Binding loses no argument and makes up none: positional arguments fill the first parameters in
/// order, as many parameters are bound as there are arguments, and what stays free has a default.
pub proof fn law_binding_is_faithful(signature: SupportedSignature, arguments: Seq<Argument>)
    ensures
        match call_matcher::bind(signature, arguments) {
            Some(bound) => {
                &&& bound.len() == signature.args@.len()
                &&& bound_count(bound) == arguments.len()
                &&& forall|i: int|
                    0 <= i < arguments.len() && #[trigger] arguments[i] is Positional ==> i
                        < bound.len() && bound[i] == Some(arguments[i]->Positional_0)
                &&& forall|i: int|
                    0 <= i < bound.len() && #[trigger] bound[i] is None
                        ==> signature.args@[i].has_default
            },
            None => true,
        },
{
    lemma_bind_all(signature.args@, arguments);
    if let Some(bound) = call_matcher::bind(signature, arguments) {
        let state = call_matcher::bind_all(signature.args@, arguments)->0;
        assert forall|i: int| 0 <= i < arguments.len() && #[trigger] arguments[i] is Positional
            implies i < bound.len() && bound[i] == Some(arguments[i]->Positional_0) by {
            assert(i < state.next);
            assert(state.bound[i] is Some);
        }
    }
}

/// A positional argument behind a keyword is never taken.
pub proof fn law_positional_after_keyword_is_refused(
    signature: SupportedSignature,
    arguments: Seq<Argument>,
    i: int,
    j: int,
)
    requires
        0 <= i < j < arguments.len(),
        arguments[i] is Keyword,
        arguments[j] is Positional,
    ensures
        call_matcher::bind(signature, arguments) is None,
{
    lemma_bind_all(signature.args@, arguments);
    if let Some(state) = call_matcher::bind_all(signature.args@, arguments) {
        assert(i >= state.next) by {
            if i < state.next {
                assert(state.bound[i] is Some);
            }
        }
        assert(arguments[j] is Keyword);
    }
}

/// More arguments than parameters are never taken.
pub proof fn law_surplus_arguments_are_refused(
    signature: SupportedSignature,
    arguments: Seq<Argument>,
)
    requires
        arguments.len() > signature.args@.len(),
    ensures
        call_matcher::bind(signature, arguments) is None,
{
    lemma_bind_all(signature.args@, arguments);
    if let Some(state) = call_matcher::bind_all(signature.args@, arguments) {
        lemma_count_at_most(state.bound);
    }
}

proof fn lemma_count_at_most(bound: Seq<Option<call_matcher::Actual>>)
    ensures
        bound_count(bound) <= bound.len(),
    decreases bound.len(),
{
    if bound.len() > 0 {
        lemma_count_at_most(bound.drop_last());
    }
}

/// A keyword that no parameter is named is never taken.
pub proof fn law_unknown_keyword_is_refused(
    signature: SupportedSignature,
    arguments: Seq<Argument>,
    i: int,
)
    requires
        0 <= i < arguments.len(),
        arguments[i] is Keyword,
        forall|k: int|
            0 <= k < signature.args@.len() ==> (#[trigger] signature.args@[k]).label() != Some(
                arguments[i]->name,
            ),
    ensures
        call_matcher::bind(signature, arguments) is None,
{
    lemma_unknown_keyword(signature.args@, arguments, i);
}

proof fn lemma_unknown_keyword(parameters: Seq<SupportedArg>, arguments: Seq<Argument>, i: int)
    requires
        0 <= i < arguments.len(),
        arguments[i] is Keyword,
        forall|k: int|
            0 <= k < parameters.len() ==> (#[trigger] parameters[k]).label() != Some(
                arguments[i]->name,
            ),
    ensures
        call_matcher::bind_all(parameters, arguments) is None,
    decreases arguments.len(),
{
    if i == arguments.len() - 1 {
        lemma_named_parameter(parameters, arguments[i]->name, 0);
    } else {
        lemma_unknown_keyword(parameters, arguments.drop_last(), i);
    }
}

/// Two neighbouring keywords can change places.
pub proof fn law_keyword_order_is_irrelevant(
    signature: SupportedSignature,
    before: Seq<Argument>,
    first: Argument,
    second: Argument,
    after: Seq<Argument>,
)
    requires
        first is Keyword,
        second is Keyword,
    ensures
        call_matcher::bind(signature, before.push(first).push(second) + after)
            == call_matcher::bind(signature, before.push(second).push(first) + after),
{
    let parameters = signature.args@;
    lemma_keywords_swap(parameters, before, first, second);
    lemma_bind_all_extends(
        parameters,
        before.push(first).push(second),
        before.push(second).push(first),
        after,
    );
}

proof fn lemma_keywords_swap(
    parameters: Seq<SupportedArg>,
    before: Seq<Argument>,
    first: Argument,
    second: Argument,
)
    requires
        first is Keyword,
        second is Keyword,
    ensures
        call_matcher::bind_all(parameters, before.push(first).push(second))
            == call_matcher::bind_all(parameters, before.push(second).push(first)),
{
    lemma_bind_all(parameters, before);
    lemma_named_parameter(parameters, first->name, 0);
    lemma_named_parameter(parameters, second->name, 0);
    let left = before.push(first);
    let right = before.push(second);
    assert(left.drop_last() =~= before);
    assert(right.drop_last() =~= before);
    assert(left.push(second).drop_last() =~= left);
    assert(right.push(first).drop_last() =~= right);
    assert(left.last() == first && right.last() == second);
    assert(left.push(second).last() == second && right.push(first).last() == first);
    reveal_with_fuel(call_matcher::bind_all, 3);
    if let Some(state) = call_matcher::bind_all(parameters, before) {
        let a = call_matcher::named_parameter(parameters, first->name, 0);
        let b = call_matcher::named_parameter(parameters, second->name, 0);
        if a is Some && b is Some && a != b {
            let one = state.bound.update(a->0, Some(first->ty)).update(b->0, Some(second->ty));
            let two = state.bound.update(b->0, Some(second->ty)).update(a->0, Some(first->ty));
            assert(one =~= two);
        }
    }
}

proof fn lemma_bind_all_extends(
    parameters: Seq<SupportedArg>,
    left: Seq<Argument>,
    right: Seq<Argument>,
    after: Seq<Argument>,
)
    requires
        call_matcher::bind_all(parameters, left) == call_matcher::bind_all(parameters, right),
    ensures
        call_matcher::bind_all(parameters, left + after) == call_matcher::bind_all(
            parameters,
            right + after,
        ),
    decreases after.len(),
{
    if after.len() == 0 {
        assert(left + after =~= left);
        assert(right + after =~= right);
    } else {
        lemma_bind_all_extends(parameters, left, right, after.drop_last());
        assert((left + after).drop_last() =~= left + after.drop_last());
        assert((right + after).drop_last() =~= right + after.drop_last());
    }
}

// ---------------------------------------------------------------------------------------------
// Arguments and parameters
// ---------------------------------------------------------------------------------------------

/// Whether the argument at a place of a call is the one for a parameter: a positional argument for
/// the parameter at its place, a keyword for the first parameter of its name.
pub open spec fn is_for(parameters: Seq<SupportedArg>, argument: Argument, k: int, i: int) -> bool {
    0 <= i < parameters.len() && match argument {
        Argument::Positional(_) => i == k,
        Argument::Keyword { name, .. } => parameters[i].label() == Some(name) && forall|j: int|
            0 <= j < i ==> (#[trigger] parameters[j]).label() != Some(name),
    }
}

/// Whether an argument is for some parameter.
pub open spec fn finds_one(parameters: Seq<SupportedArg>, argument: Argument, k: int) -> bool {
    exists|i: int| #[trigger] is_for(parameters, argument, k, i)
}

/// Whether arguments can be handed to parameters: each is for one, no two are for the same, and
/// none by position stands behind a keyword.
pub open spec fn can_hand_over(parameters: Seq<SupportedArg>, arguments: Seq<Argument>) -> bool {
    &&& forall|k: int|
        0 <= k < arguments.len() ==> finds_one(parameters, #[trigger] arguments[k], k)
    &&& forall|k: int, m: int, i: int|
        0 <= k < m < arguments.len() && #[trigger] is_for(parameters, arguments[k], k, i)
            ==> !#[trigger] is_for(parameters, arguments[m], m, i)
    &&& forall|k: int, m: int|
        0 <= k < m < arguments.len() && (#[trigger] arguments[k]) is Keyword ==> (
        #[trigger] arguments[m]) is Keyword
}

/// Whether a parameter gets an argument.
pub open spec fn gets_one(parameters: Seq<SupportedArg>, arguments: Seq<Argument>, i: int) -> bool {
    exists|k: int| 0 <= k < arguments.len() && is_for(parameters, #[trigger] arguments[k], k, i)
}

/// Whether a call has the shape of a signature: its arguments can be handed over, and only
/// parameters with a default go without.
pub open spec fn has_shape(signature: SupportedSignature, arguments: Seq<Argument>) -> bool {
    &&& can_hand_over(signature.args@, arguments)
    &&& forall|i: int|
        0 <= i < signature.args@.len() && !(#[trigger] signature.args@[i]).has_default
            ==> gets_one(signature.args@, arguments, i)
}

spec fn hands_over(
    parameters: Seq<SupportedArg>,
    arguments: Seq<Argument>,
    bound: Seq<Option<Actual>>,
) -> bool {
    &&& bound.len() == parameters.len()
    &&& forall|k: int, i: int|
        0 <= k < arguments.len() && #[trigger] is_for(parameters, arguments[k], k, i) ==> bound[i]
            == Some(call_matcher::argument_type(arguments[k]))
    &&& forall|i: int|
        0 <= i < bound.len() && #[trigger] bound[i] is Some ==> gets_one(parameters, arguments, i)
}

proof fn lemma_hand_over(parameters: Seq<SupportedArg>, arguments: Seq<Argument>)
    ensures
        match call_matcher::bind_all(parameters, arguments) {
            Some(state) => {
                &&& can_hand_over(parameters, arguments)
                &&& hands_over(parameters, arguments, state.bound)
                &&& (state.saw_keyword <==> exists|k: int|
                    0 <= k < arguments.len() && (#[trigger] arguments[k]) is Keyword)
            },
            None => !can_hand_over(parameters, arguments),
        },
    decreases arguments.len(),
{
    if arguments.len() > 0 {
        let init = arguments.drop_last();
        let at = arguments.len() - 1;
        let last = arguments.last();
        lemma_hand_over(parameters, init);
        lemma_bind_all(parameters, init);
        assert(forall|k: int| 0 <= k < init.len() ==> #[trigger] init[k] == arguments[k]);
        assert(arguments[at] == last);
        if can_hand_over(parameters, arguments) {
            lemma_fewer_handed_over(parameters, arguments);
        }
        if let Some(state) = call_matcher::bind_all(parameters, init) {
            match last {
                Argument::Positional(ty) => {
                    if state.saw_keyword {
                        let k = choose|k: int| 0 <= k < init.len() && (#[trigger] init[k]) is Keyword;
                        assert(arguments[k] is Keyword);
                        assert(!can_hand_over(parameters, arguments));
                    } else if state.next == parameters.len() {
                        assert(!finds_one(parameters, arguments[at], at));
                        assert(!can_hand_over(parameters, arguments));
                    } else {
                        assert(state.next == at);
                        assert forall|k: int| 0 <= k < at implies (#[trigger] arguments[k])
                            is Positional by {
                            if init[k] is Keyword {
                                assert(state.saw_keyword);
                            }
                        }
                        lemma_one_more(parameters, arguments, state.bound, at);
                    }
                },
                Argument::Keyword { name, ty } => {
                    lemma_first_named(parameters, name, 0);
                    match call_matcher::named_parameter(parameters, name, 0) {
                        None => {
                            assert(!finds_one(parameters, arguments[at], at));
                            assert(!can_hand_over(parameters, arguments));
                        },
                        Some(index) => {
                            assert(is_for(parameters, arguments[at], at, index));
                            if state.bound[index] is Some {
                                assert(gets_one(parameters, init, index));
                                let k = choose|k: int|
                                    0 <= k < init.len() && is_for(
                                        parameters,
                                        #[trigger] init[k],
                                        k,
                                        index,
                                    );
                                assert(is_for(parameters, arguments[k], k, index));
                                assert(!can_hand_over(parameters, arguments));
                            } else {
                                lemma_one_more(parameters, arguments, state.bound, index);
                                assert(arguments[at] is Keyword);
                            }
                        },
                    }
                },
            }
        }
    }
}

proof fn lemma_fewer_handed_over(parameters: Seq<SupportedArg>, arguments: Seq<Argument>)
    requires
        arguments.len() > 0,
        can_hand_over(parameters, arguments),
    ensures
        can_hand_over(parameters, arguments.drop_last()),
{
    let init = arguments.drop_last();
    assert(forall|k: int| 0 <= k < init.len() ==> #[trigger] init[k] == arguments[k]);
    assert forall|k: int| 0 <= k < init.len() implies finds_one(
        parameters,
        #[trigger] init[k],
        k,
    ) by {
        assert(finds_one(parameters, arguments[k], k));
    }
    assert forall|k: int, m: int, i: int|
        0 <= k < m < init.len() && #[trigger] is_for(parameters, init[k], k, i)
            implies !#[trigger] is_for(parameters, init[m], m, i) by {
        assert(is_for(parameters, arguments[k], k, i));
        assert(!is_for(parameters, arguments[m], m, i));
    }
    assert forall|k: int, m: int|
        0 <= k < m < init.len() && (#[trigger] init[k]) is Keyword implies (#[trigger] init[m])
        is Keyword by {
        assert(arguments[k] is Keyword);
        assert(arguments[m] is Keyword);
    }
}

proof fn lemma_first_named(parameters: Seq<SupportedArg>, name: Seq<char>, at: int)
    requires
        0 <= at,
    ensures
        match call_matcher::named_parameter(parameters, name, at) {
            Some(index) => at <= index < parameters.len() && parameters[index].label() == Some(name)
                && forall|j: int|
                at <= j < index ==> (#[trigger] parameters[j]).label() != Some(name),
            None => forall|j: int|
                at <= j < parameters.len() ==> (#[trigger] parameters[j]).label() != Some(name),
        },
    decreases parameters.len() - at,
{
    if at < parameters.len() && parameters[at].label() != Some(name) {
        lemma_first_named(parameters, name, at + 1);
    }
}

proof fn lemma_one_more(
    parameters: Seq<SupportedArg>,
    arguments: Seq<Argument>,
    bound: Seq<Option<Actual>>,
    index: int,
)
    requires
        arguments.len() > 0,
        can_hand_over(parameters, arguments.drop_last()),
        hands_over(parameters, arguments.drop_last(), bound),
        0 <= index < parameters.len(),
        bound[index] is None,
        is_for(parameters, arguments.last(), arguments.len() - 1, index),
        arguments.last() is Keyword || forall|k: int|
            0 <= k < arguments.len() - 1 ==> (#[trigger] arguments[k]) is Positional,
    ensures
        can_hand_over(parameters, arguments),
        hands_over(
            parameters,
            arguments,
            bound.update(index, Some(call_matcher::argument_type(arguments.last()))),
        ),
{
    let init = arguments.drop_last();
    let at = arguments.len() - 1;
    let after = bound.update(index, Some(call_matcher::argument_type(arguments.last())));
    assert(forall|k: int| 0 <= k < init.len() ==> #[trigger] init[k] == arguments[k]);
    assert forall|i: int| #[trigger] is_for(parameters, arguments[at], at, i) implies i == index by {
        if i < index {
            assert(parameters[i].label() != parameters[index].label() || arguments[at]
                is Positional);
        } else if index < i {
            assert(parameters[index].label() != parameters[i].label() || arguments[at]
                is Positional);
        }
    }
    assert forall|k: int, i: int|
        0 <= k < init.len() && #[trigger] is_for(parameters, arguments[k], k, i) implies i != index
        && bound[i] == Some(call_matcher::argument_type(arguments[k])) by {
        assert(is_for(parameters, init[k], k, i));
    }
    assert forall|k: int| 0 <= k < arguments.len() implies finds_one(
        parameters,
        #[trigger] arguments[k],
        k,
    ) by {
        if k < at {
            assert(finds_one(parameters, init[k], k));
        } else {
            assert(is_for(parameters, arguments[k], k, index));
        }
    }
    assert forall|k: int, m: int, i: int|
        0 <= k < m < arguments.len() && #[trigger] is_for(parameters, arguments[k], k, i)
            implies !#[trigger] is_for(parameters, arguments[m], m, i) by {
        assert(is_for(parameters, init[k], k, i));
        if m < at {
            assert(!is_for(parameters, init[m], m, i));
        }
    }
    assert forall|k: int, m: int|
        0 <= k < m < arguments.len() && (#[trigger] arguments[k]) is Keyword implies (
    #[trigger] arguments[m]) is Keyword by {
        assert(init[k] is Keyword);
        if m < at {
            assert(init[m] is Keyword);
        }
    }
    assert forall|i: int| 0 <= i < after.len() && #[trigger] after[i] is Some implies gets_one(
        parameters,
        arguments,
        i,
    ) by {
        if i == index {
            assert(is_for(parameters, arguments[at], at, index));
        } else {
            assert(bound[i] is Some);
            let k = choose|k: int|
                0 <= k < init.len() && is_for(parameters, #[trigger] init[k], k, i);
            assert(is_for(parameters, arguments[k], k, i));
        }
    }
}

proof fn lemma_bound_matches(
    db: Db,
    parameters: Seq<SupportedArg>,
    bound: Seq<Option<Actual>>,
    result: TypeMatch,
)
    requires
        parameters.len() == bound.len(),
    ensures
        call_matcher::bound_matches(db, parameters, bound).contains(result) <==> exists|i: int|
            0 <= i < bound.len() && #[trigger] bound[i] is Some && call_matcher::actual_match(
                db,
                bound[i]->0,
                parameters[i].ty,
            ) == result,
    decreases bound.len(),
{
    if bound.len() > 0 {
        let init = bound.drop_last();
        let fewer = parameters.drop_last();
        let before = call_matcher::bound_matches(db, fewer, init);
        let all = call_matcher::bound_matches(db, parameters, bound);
        let at = bound.len() - 1;
        lemma_bound_matches(db, fewer, init, result);
        assert(forall|i: int|
            0 <= i < init.len() ==> #[trigger] init[i] == bound[i] && fewer[i] == parameters[i]);
        assert(bound.last() == bound[at] && parameters.last() == parameters[at]);
        if before.contains(result) {
            let k = choose|k: int| 0 <= k < before.len() && before[k] == result;
            assert(all[k] == result);
            let i = choose|i: int|
                0 <= i < init.len() && #[trigger] init[i] is Some && call_matcher::actual_match(
                    db,
                    init[i]->0,
                    fewer[i].ty,
                ) == result;
            assert(bound[i] is Some);
        }
        if bound[at] is Some {
            assert(all[before.len() as int] == call_matcher::actual_match(
                db,
                bound[at]->0,
                parameters[at].ty,
            ));
        }
        if all.contains(result) {
            let k = choose|k: int| 0 <= k < all.len() && all[k] == result;
            if k < before.len() {
                assert(before[k] == result);
            } else {
                assert(bound[at] is Some);
            }
        }
        if exists|i: int|
            0 <= i < bound.len() && #[trigger] bound[i] is Some && call_matcher::actual_match(
                db,
                bound[i]->0,
                parameters[i].ty,
            ) == result {
            let i = choose|i: int|
                0 <= i < bound.len() && #[trigger] bound[i] is Some && call_matcher::actual_match(
                    db,
                    bound[i]->0,
                    parameters[i].ty,
                ) == result;
            if i < at {
                assert(init[i] is Some);
            }
        }
    }
}

/// How the argument at a place of a call suits the parameter that it is for.
pub open spec fn suits(
    db: Db,
    signature: SupportedSignature,
    arguments: Seq<Argument>,
    k: int,
    i: int,
) -> TypeMatch {
    call_matcher::actual_match(
        db,
        call_matcher::argument_type(arguments[k]),
        signature.args@[i].ty,
    )
}

/// Whether some argument suits its parameter in one way.
pub open spec fn some_suits(
    db: Db,
    signature: SupportedSignature,
    arguments: Seq<Argument>,
    result: TypeMatch,
) -> bool {
    exists|k: int, i: int|
        0 <= k < arguments.len() && #[trigger] is_for(signature.args@, arguments[k], k, i)
            && suits(db, signature, arguments, k, i) == result
}

proof fn lemma_some_suits(
    db: Db,
    signature: SupportedSignature,
    arguments: Seq<Argument>,
    bound: Seq<Option<Actual>>,
    result: TypeMatch,
)
    requires
        hands_over(signature.args@, arguments, bound),
    ensures
        call_matcher::bound_matches(db, signature.args@, bound).contains(result) <==> some_suits(
            db,
            signature,
            arguments,
            result,
        ),
{
    let parameters = signature.args@;
    lemma_bound_matches(db, parameters, bound, result);
    if call_matcher::bound_matches(db, parameters, bound).contains(result) {
        let i = choose|i: int|
            0 <= i < bound.len() && #[trigger] bound[i] is Some && call_matcher::actual_match(
                db,
                bound[i]->0,
                parameters[i].ty,
            ) == result;
        assert(gets_one(parameters, arguments, i));
        let k = choose|k: int|
            0 <= k < arguments.len() && is_for(parameters, #[trigger] arguments[k], k, i);
        assert(is_for(parameters, arguments[k], k, i));
    }
    if some_suits(db, signature, arguments, result) {
        let (k, i) = choose|k: int, i: int|
            0 <= k < arguments.len() && #[trigger] is_for(signature.args@, arguments[k], k, i)
                && suits(db, signature, arguments, k, i) == result;
        assert(bound[i] is Some);
    }
}

/// A signature matches a call exactly if the call has its shape and every argument suits the
/// parameter that it is for, whether or not that parameter has a default. It refuses the call
/// exactly if the call does not have its shape or some argument does not suit.
pub proof fn law_every_argument_has_to_suit(
    db: Db,
    signature: SupportedSignature,
    arguments: Seq<Argument>,
)
    ensures
        ({
            let result = call_matcher::signature_match(db, signature, arguments);
            &&& result == TypeMatch::Match <==> has_shape(signature, arguments) && (forall|
                k: int,
                i: int,
            |
                0 <= k < arguments.len() && #[trigger] is_for(
                    signature.args@,
                    arguments[k],
                    k,
                    i,
                ) ==> suits(db, signature, arguments, k, i) == TypeMatch::Match)
            &&& result == TypeMatch::NoMatch <==> !has_shape(signature, arguments) || some_suits(
                db,
                signature,
                arguments,
                TypeMatch::NoMatch,
            )
        }),
{
    let parameters = signature.args@;
    lemma_hand_over(parameters, arguments);
    if let Some(state) = call_matcher::bind_all(parameters, arguments) {
        lemma_shape(signature, arguments, state.bound);
        if call_matcher::bind(signature, arguments) is Some {
            lemma_some_suits(db, signature, arguments, state.bound, TypeMatch::NoMatch);
            lemma_some_suits(db, signature, arguments, state.bound, TypeMatch::Inconclusive);
            lemma_all_of(call_matcher::bound_matches(db, parameters, state.bound));
            if call_matcher::signature_match(db, signature, arguments) == TypeMatch::Match {
                assert forall|k: int, i: int|
                    0 <= k < arguments.len() && #[trigger] is_for(
                        signature.args@,
                        arguments[k],
                        k,
                        i,
                    ) implies suits(db, signature, arguments, k, i) == TypeMatch::Match by {
                    if suits(db, signature, arguments, k, i) == TypeMatch::NoMatch {
                        assert(some_suits(db, signature, arguments, TypeMatch::NoMatch));
                    }
                    if suits(db, signature, arguments, k, i) == TypeMatch::Inconclusive {
                        assert(some_suits(db, signature, arguments, TypeMatch::Inconclusive));
                    }
                }
            }
        }
    }
}

proof fn lemma_shape(
    signature: SupportedSignature,
    arguments: Seq<Argument>,
    bound: Seq<Option<Actual>>,
)
    requires
        call_matcher::bind_all(signature.args@, arguments) matches Some(state) && state.bound
            == bound,
        can_hand_over(signature.args@, arguments),
        hands_over(signature.args@, arguments, bound),
    ensures
        has_shape(signature, arguments) <==> call_matcher::bind(signature, arguments) is Some,
        call_matcher::bind(signature, arguments) matches Some(kept) ==> kept == bound,
{
    let parameters = signature.args@;
    assert forall|i: int| 0 <= i < parameters.len() implies (bound[i] is Some <==> gets_one(
        parameters,
        arguments,
        i,
    )) by {
        if gets_one(parameters, arguments, i) {
            let k = choose|k: int|
                0 <= k < arguments.len() && is_for(parameters, #[trigger] arguments[k], k, i);
            assert(is_for(parameters, arguments[k], k, i));
        }
    }
}

proof fn lemma_all_of(results: Seq<TypeMatch>)
    ensures
        TypeMatch::all_of(results) == TypeMatch::NoMatch <==> results.contains(TypeMatch::NoMatch),
        TypeMatch::all_of(results) == TypeMatch::Match <==> !results.contains(TypeMatch::NoMatch)
            && !results.contains(TypeMatch::Inconclusive),
{
}

/// A call is refused exactly if some combination of its argument types is refused by every
/// signature.
pub proof fn law_refusal_needs_every_signature(
    db: Db,
    signatures: Seq<SupportedSignature>,
    arguments: Seq<Argument>,
)
    ensures
        call_matcher::signatures_match(db, signatures, arguments) == TypeMatch::NoMatch <==> (
        call_matcher::combinations(db, arguments) matches Some(all) && exists|i: int|
            0 <= i < all.len() && (forall|k: int|
                0 <= k < signatures.len() ==> call_matcher::signature_match(
                    db,
                    #[trigger] signatures[k],
                    #[trigger] all[i],
                ) == TypeMatch::NoMatch)),
{
    if let Some(all) = call_matcher::combinations(db, arguments) {
        let results = Seq::new(
            all.len(),
            |i: int| call_matcher::overload_match(db, signatures, all[i]),
        );
        assert forall|i: int| 0 <= i < all.len() implies ((#[trigger] results[i])
            == TypeMatch::NoMatch <==> forall|k: int|
            0 <= k < signatures.len() ==> call_matcher::signature_match(
                db,
                #[trigger] signatures[k],
                all[i],
            ) == TypeMatch::NoMatch) by {
            let row = Seq::new(
                signatures.len(),
                |k: int| call_matcher::signature_match(db, signatures[k], all[i]),
            );
            assert(results[i] == TypeMatch::any_of(row));
            assert forall|k: int| 0 <= k < signatures.len() implies row.contains(
                call_matcher::signature_match(db, #[trigger] signatures[k], all[i]),
            ) by {
                assert(row[k] == call_matcher::signature_match(db, signatures[k], all[i]));
            }
        }
        if results.contains(TypeMatch::NoMatch) {
            let i = choose|i: int| 0 <= i < results.len() && results[i] == TypeMatch::NoMatch;
            assert(results[i] == TypeMatch::NoMatch);
            let row = all[i];
        }
        assert forall|i: int|
            0 <= i < all.len() && (forall|k: int|
                0 <= k < signatures.len() ==> call_matcher::signature_match(
                    db,
                    #[trigger] signatures[k],
                    #[trigger] all[i],
                ) == TypeMatch::NoMatch) implies results.contains(TypeMatch::NoMatch) by {
            assert(results[i] == TypeMatch::NoMatch);
        }
    }
}

// ---------------------------------------------------------------------------------------------
// Alternatives
// ---------------------------------------------------------------------------------------------

/// Whether a type stands for others, and one of them is another: an element of a union, or what an
/// alias, a new type, a constrained type variable, a reduced enumeration or a divergent type with a
/// fallback stands for.
pub open spec fn stands_for(db: Db, ty: Type, next: Type) -> bool {
    match db.ty(ty).kind {
        TypeKind::Union { elements } => elements@.contains(next),
        TypeKind::TypeAlias { value } => next == value,
        TypeKind::NewTypeInstance { base } => next == base,
        TypeKind::TypeVar { bound } => bound == TypeVarBound::Constraints(next),
        TypeKind::EnumComplement { remaining } => next == remaining,
        TypeKind::Divergent { fallback } => fallback == Some(next),
        _ => false,
    }
}

/// Whether a type stands for no others.
pub open spec fn stands_alone(db: Db, ty: Type) -> bool {
    match db.ty(ty).kind {
        TypeKind::Union { .. } => false,
        TypeKind::TypeAlias { .. } => false,
        TypeKind::NewTypeInstance { .. } => false,
        TypeKind::TypeVar { bound } => bound !is Constraints,
        TypeKind::EnumComplement { .. } => false,
        TypeKind::Divergent { fallback } => fallback is None,
        _ => true,
    }
}

/// Whether each type of a chain is one that the type before it stands for, and the last stands for
/// no others.
pub open spec fn is_unfolding(db: Db, chain: Seq<Type>) -> bool {
    &&& chain.len() > 0
    &&& forall|i: int|
        0 <= i < chain.len() - 1 ==> stands_for(db, #[trigger] chain[i], chain[i + 1])
    &&& stands_alone(db, chain.last())
}

/// Whether a type is an alternative of another: some chain leads to it.
pub open spec fn is_alternative(db: Db, ty: Type, one: Type) -> bool {
    exists|chain: Seq<Type>| #[trigger]
        is_unfolding(db, chain) && chain[0] == ty && chain.last() == one
}

proof fn lemma_alternative_alone(db: Db, ty: Type, one: Type)
    requires
        stands_alone(db, ty),
    ensures
        is_alternative(db, ty, one) <==> one == ty,
{
    if one == ty {
        let chain = seq![ty];
        assert(is_unfolding(db, chain));
        assert(chain[0] == ty && chain.last() == one);
    }
    if is_alternative(db, ty, one) {
        let chain = choose|chain: Seq<Type>| #[trigger]
            is_unfolding(db, chain) && chain[0] == ty && chain.last() == one;
        if chain.len() > 1 {
            assert(stands_for(db, chain[0], chain[1]));
        }
    }
}

proof fn lemma_alternative_further(db: Db, ty: Type, one: Type)
    requires
        !stands_alone(db, ty),
    ensures
        is_alternative(db, ty, one) <==> exists|next: Type| #[trigger]
            stands_for(db, ty, next) && is_alternative(db, next, one),
{
    if exists|next: Type| #[trigger] stands_for(db, ty, next) && is_alternative(db, next, one) {
        let next = choose|next: Type| #[trigger]
            stands_for(db, ty, next) && is_alternative(db, next, one);
        let chain = choose|chain: Seq<Type>| #[trigger]
            is_unfolding(db, chain) && chain[0] == next && chain.last() == one;
        let longer = seq![ty] + chain;
        assert(longer.last() == chain.last());
        assert forall|i: int| 0 <= i < longer.len() - 1 implies stands_for(
            db,
            #[trigger] longer[i],
            longer[i + 1],
        ) by {
            if i > 0 {
                assert(stands_for(db, chain[i - 1], chain[i]));
            }
        }
        assert(is_unfolding(db, longer));
        assert(longer[0] == ty);
    }
    if is_alternative(db, ty, one) {
        let chain = choose|chain: Seq<Type>| #[trigger]
            is_unfolding(db, chain) && chain[0] == ty && chain.last() == one;
        let rest = chain.drop_first();
        assert(chain.len() > 1);
        assert(stands_for(db, chain[0], chain[1]));
        assert(rest.last() == chain.last());
        assert forall|i: int| 0 <= i < rest.len() - 1 implies stands_for(
            db,
            #[trigger] rest[i],
            rest[i + 1],
        ) by {
            assert(stands_for(db, chain[i + 1], chain[i + 2]));
        }
        assert(is_unfolding(db, rest));
        assert(rest[0] == chain[1]);
        assert(is_alternative(db, chain[1], one));
    }
}

spec fn pending_leads(db: Db, pending: Seq<(Type, nat)>, one: Type) -> bool {
    exists|i: int| 0 <= i < pending.len() && is_alternative(db, (#[trigger] pending[i]).0, one)
}

proof fn lemma_pending_join(
    db: Db,
    rest: Seq<(Type, nat)>,
    types: Seq<Type>,
    depth: nat,
    one: Type,
)
    ensures
        pending_leads(db, rest + call_matcher::at_depth(types, depth), one) <==> pending_leads(
            db,
            rest,
            one,
        ) || exists|k: int| 0 <= k < types.len() && is_alternative(db, #[trigger] types[k], one),
{
    let added = call_matcher::at_depth(types, depth);
    let all = rest + added;
    if pending_leads(db, rest, one) {
        let i = choose|i: int|
            0 <= i < rest.len() && is_alternative(db, (#[trigger] rest[i]).0, one);
        assert(all[i] == rest[i]);
    }
    if exists|k: int| 0 <= k < types.len() && is_alternative(db, #[trigger] types[k], one) {
        let k = choose|k: int| 0 <= k < types.len() && is_alternative(db, #[trigger] types[k], one);
        assert(all[rest.len() + k].0 == types[k]);
    }
    if pending_leads(db, all, one) {
        let i = choose|i: int| 0 <= i < all.len() && is_alternative(db, (#[trigger] all[i]).0, one);
        if i < rest.len() {
            assert(rest[i] == all[i]);
        } else {
            assert(types[i - rest.len()] == all[i].0);
        }
    }
}

proof fn lemma_split(db: Db, pending: Seq<(Type, nat)>, found: Seq<Type>, one: Type)
    ensures
        call_matcher::split_pending(db, pending, found) matches Some(types) ==> (types.contains(one)
            <==> found.contains(one) || pending_leads(db, pending, one)),
    decreases call_matcher::work_left(pending),
{
    if pending.len() > 0 {
        let (ty, depth) = pending.last();
        let rest = pending.drop_last();
        if depth < call_matcher::MAX_CALL_ALTERNATIVES {
            assert(pending =~= rest + call_matcher::at_depth(seq![ty], depth));
            lemma_pending_join(db, rest, seq![ty], depth, one);
            assert(seq![ty][0] == ty);
            match chalk::shape_of(&db, ty) {
                ChalkTypeShape::Expanded(expanded) => {
                    call_matcher::lemma_work_left_decreases(pending, seq![expanded]);
                    let next = rest + call_matcher::at_depth(seq![expanded], depth + 1);
                    lemma_split(db, next, found, one);
                    lemma_pending_join(db, rest, seq![expanded], depth + 1, one);
                    lemma_alternative_further(db, ty, one);
                    assert(seq![expanded][0] == expanded);
                    assert(stands_for(db, ty, expanded));
                },
                ChalkTypeShape::Union(elements) => {
                    if found.len() + rest.len() + elements@.len()
                        <= call_matcher::MAX_CALL_ALTERNATIVES {
                        call_matcher::lemma_work_left_decreases(pending, elements@);
                        let next = rest + call_matcher::at_depth(elements@, depth + 1);
                        lemma_split(db, next, found, one);
                        lemma_pending_join(db, rest, elements@, depth + 1, one);
                        lemma_alternative_further(db, ty, one);
                        if exists|k: int|
                            0 <= k < elements@.len() && is_alternative(
                                db,
                                #[trigger] elements@[k],
                                one,
                            ) {
                            let k = choose|k: int|
                                0 <= k < elements@.len() && is_alternative(
                                    db,
                                    #[trigger] elements@[k],
                                    one,
                                );
                            assert(stands_for(db, ty, elements@[k]));
                        }
                        if is_alternative(db, ty, one) {
                            let inner = choose|inner: Type| #[trigger]
                                stands_for(db, ty, inner) && is_alternative(db, inner, one);
                            let k = choose|k: int|
                                0 <= k < elements@.len() && elements@[k] == inner;
                            assert(is_alternative(db, elements@[k], one));
                        }
                    }
                },
                _ => {
                    call_matcher::lemma_work_left_decreases(pending, Seq::empty());
                    lemma_split(db, rest, found.push(ty), one);
                    lemma_alternative_alone(db, ty, one);
                    let more = found.push(ty);
                    if found.contains(one) {
                        let k = choose|k: int| 0 <= k < found.len() && found[k] == one;
                        assert(more[k] == one);
                    }
                    if one == ty {
                        assert(more[found.len() as int] == one);
                    }
                    if more.contains(one) {
                        let k = choose|k: int| 0 <= k < more.len() && more[k] == one;
                        if k < found.len() {
                            assert(found[k] == one);
                        }
                    }
                },
            }
        }
    }
}

/// Whether a value is an alternative of an argument: one of the types that its type stands for in
/// the end, or the module that it is.
pub open spec fn may_be_passed(db: Db, actual: Actual, one: Actual) -> bool {
    match actual {
        Actual::Module { .. } => one == actual,
        Actual::Native(ty) => one matches Actual::Native(other) && is_alternative(db, ty, other),
    }
}

proof fn lemma_actual_alternatives(db: Db, actual: Actual, one: Actual)
    ensures
        call_matcher::actual_alternatives(db, actual) matches Some(types) ==> (types.contains(one)
            <==> may_be_passed(db, actual, one)),
{
    match actual {
        Actual::Module { .. } => {
            assert(seq![actual][0] == actual);
        },
        Actual::Native(ty) => {
            let start = call_matcher::at_depth(seq![ty], 0);
            assert(start.len() == 1 && start[0].0 == ty);
            if let Some(types) = call_matcher::split_pending(db, start, Seq::empty()) {
                let all = Seq::new(types.len(), |i: int| Actual::Native(types[i]));
                if let Actual::Native(other) = one {
                    lemma_split(db, start, Seq::empty(), other);
                    if types.contains(other) {
                        let i = choose|i: int| 0 <= i < types.len() && types[i] == other;
                        assert(all[i] == one);
                    }
                    if all.contains(one) {
                        let i = choose|i: int| 0 <= i < all.len() && all[i] == one;
                        assert(types[i] == other);
                    }
                    if pending_leads(db, start, other) {
                        let i = choose|i: int|
                            0 <= i < start.len() && is_alternative(
                                db,
                                (#[trigger] start[i]).0,
                                other,
                            );
                        assert(i == 0);
                    }
                    if is_alternative(db, ty, other) {
                        assert(is_alternative(db, start[0].0, other));
                    }
                }
            }
        },
    }
}

/// Whether an argument is another with one of its alternatives as its type: in the same position,
/// and under the same name.
pub open spec fn is_variant(db: Db, argument: Argument, variant: Argument) -> bool {
    match (argument, variant) {
        (Argument::Positional(ty), Argument::Positional(own)) => may_be_passed(db, ty, own),
        (Argument::Keyword { name, ty }, Argument::Keyword { name: same, ty: own }) => name == same
            && may_be_passed(db, ty, own),
        _ => false,
    }
}

proof fn lemma_combine(
    all: Seq<Seq<Argument>>,
    argument: Argument,
    types: Seq<Actual>,
    one: Seq<Argument>,
)
    ensures
        call_matcher::combine(all, argument, types).contains(one) <==> one.len() > 0
            && all.contains(one.drop_last()) && exists|i: int|
            0 <= i < types.len() && one.last() == call_matcher::retyped(
                argument,
                #[trigger] types[i],
            ),
    decreases all.len(),
{
    if all.len() > 0 {
        let init = all.drop_last();
        let before = call_matcher::combine(init, argument, types);
        let row = Seq::new(
            types.len(),
            |i: int| all.last().push(call_matcher::retyped(argument, types[i])),
        );
        let both = call_matcher::combine(all, argument, types);
        lemma_combine(init, argument, types, one);
        assert(both == before + row);
        assert(all.contains(one.drop_last()) <==> init.contains(one.drop_last()) || all.last()
            == one.drop_last()) by {
            if init.contains(one.drop_last()) {
                let k = choose|k: int| 0 <= k < init.len() && init[k] == one.drop_last();
                assert(all[k] == one.drop_last());
            }
            if all.last() == one.drop_last() {
                assert(all[all.len() - 1] == one.drop_last());
            }
            if all.contains(one.drop_last()) {
                let k = choose|k: int| 0 <= k < all.len() && all[k] == one.drop_last();
                if k < init.len() {
                    assert(init[k] == one.drop_last());
                }
            }
        }
        assert(row.contains(one) <==> one.len() > 0 && all.last() == one.drop_last() && exists|
            i: int,
        |
            0 <= i < types.len() && one.last() == call_matcher::retyped(
                argument,
                #[trigger] types[i],
            )) by {
            if row.contains(one) {
                let k = choose|k: int| 0 <= k < row.len() && row[k] == one;
                assert(one.drop_last() =~= all.last());
                assert(one.last() == call_matcher::retyped(argument, types[k]));
            }
            if one.len() > 0 && all.last() == one.drop_last() && exists|i: int|
                0 <= i < types.len() && one.last() == call_matcher::retyped(
                    argument,
                    #[trigger] types[i],
                ) {
                let i = choose|i: int|
                    0 <= i < types.len() && one.last() == call_matcher::retyped(
                        argument,
                        #[trigger] types[i],
                    );
                assert(row[i] =~= one);
            }
        }
        if before.contains(one) {
            let k = choose|k: int| 0 <= k < before.len() && before[k] == one;
            assert(both[k] == one);
        }
        if row.contains(one) {
            let k = choose|k: int| 0 <= k < row.len() && row[k] == one;
            assert(both[before.len() + k] == one);
        }
        if both.contains(one) {
            let k = choose|k: int| 0 <= k < both.len() && both[k] == one;
            if k < before.len() {
                assert(before[k] == one);
            } else {
                assert(row[k - before.len()] == one);
            }
        }
    }
}

/// The combinations that a call is matched in are exactly those in which every argument has one of
/// its alternatives, independently of the others.
pub proof fn law_combinations_vary_every_argument(
    db: Db,
    arguments: Seq<Argument>,
    one: Seq<Argument>,
)
    ensures
        call_matcher::combinations(db, arguments) matches Some(all) ==> (all.contains(one)
            <==> one.len() == arguments.len() && forall|k: int|
            0 <= k < arguments.len() ==> is_variant(db, #[trigger] arguments[k], one[k])),
    decreases arguments.len(),
{
    if let Some(all) = call_matcher::combinations(db, arguments) {
        if arguments.len() == 0 {
            assert(all[0] == Seq::<Argument>::empty());
            if one.len() == 0 {
                assert(one =~= Seq::empty());
            }
        } else {
            let init = arguments.drop_last();
            let last = arguments.last();
            let at = arguments.len() - 1;
            let before = call_matcher::combinations(db, init)->0;
            let types = call_matcher::actual_alternatives(
                db,
                call_matcher::argument_type(last),
            )->0;
            lemma_combine(before, last, types, one);
            assert(arguments[at] == last);
            assert(forall|k: int| 0 <= k < init.len() ==> #[trigger] init[k] == arguments[k]);
            if one.len() > 0 {
                law_combinations_vary_every_argument(db, init, one.drop_last());
                lemma_variants(db, last, types, one.last());
                if one.len() == arguments.len() {
                    assert(one.drop_last().len() == init.len());
                    assert(forall|k: int|
                        0 <= k < init.len() ==> one.drop_last()[k] == #[trigger] one[k]);
                    assert(one.last() == one[at]);
                    if forall|k: int|
                        0 <= k < arguments.len() ==> is_variant(db, #[trigger] arguments[k], one[k]) {
                        assert forall|k: int| 0 <= k < init.len() implies is_variant(
                            db,
                            #[trigger] init[k],
                            one.drop_last()[k],
                        ) by {
                            assert(is_variant(db, arguments[k], one[k]));
                        }
                        assert(is_variant(db, arguments[at], one[at]));
                    }
                    if before.contains(one.drop_last()) && is_variant(db, last, one.last()) {
                        assert forall|k: int| 0 <= k < arguments.len() implies is_variant(
                            db,
                            #[trigger] arguments[k],
                            one[k],
                        ) by {
                            if k < at {
                                assert(is_variant(db, init[k], one.drop_last()[k]));
                            }
                        }
                    }
                }
            }
        }
    }
}

proof fn lemma_variants(db: Db, argument: Argument, types: Seq<Actual>, variant: Argument)
    requires
        call_matcher::actual_alternatives(db, call_matcher::argument_type(argument)) == Some(types),
    ensures
        is_variant(db, argument, variant) <==> exists|i: int|
            0 <= i < types.len() && variant == call_matcher::retyped(
                argument,
                #[trigger] types[i],
            ),
{
    let actual = call_matcher::argument_type(argument);
    let own = call_matcher::argument_type(variant);
    lemma_actual_alternatives(db, actual, own);
    if is_variant(db, argument, variant) {
        assert(types.contains(own));
        let i = choose|i: int| 0 <= i < types.len() && types[i] == own;
        assert(variant == call_matcher::retyped(argument, types[i]));
    }
    if exists|i: int|
        0 <= i < types.len() && variant == call_matcher::retyped(argument, #[trigger] types[i]) {
        let i = choose|i: int|
            0 <= i < types.len() && variant == call_matcher::retyped(argument, #[trigger] types[i]);
        assert(own == types[i]);
        assert(types.contains(own));
    }
}

// ---------------------------------------------------------------------------------------------
// Values and modules
// ---------------------------------------------------------------------------------------------

/// Where a registry type is a module, the module itself is taken if it is installed, and so is a
/// value by the module or class path that it belongs to; where it is anything else, a value is
/// taken by its type, and a module is not.
pub proof fn law_modules_are_passed_as_modules(db: Db, actual: Actual, expected: SupportedTy)
    ensures
        ({
            let result = call_matcher::actual_match(db, actual, expected);
            match (actual, expected) {
                (Actual::Module { name, origin }, SupportedTy::Module { name: wanted, .. }) => {
                    &&& name != wanted@ ==> result == TypeMatch::NoMatch
                    &&& name == wanted@ ==> result == match origin {
                        ModuleOrigin::StandardLibrary => TypeMatch::Match,
                        ModuleOrigin::ThirdParty => TypeMatch::Match,
                        ModuleOrigin::FirstParty => TypeMatch::NoMatch,
                        ModuleOrigin::Extra => TypeMatch::NoMatch,
                        ModuleOrigin::Other => TypeMatch::NoMatch,
                        ModuleOrigin::Namespace => TypeMatch::Inconclusive,
                        ModuleOrigin::Unresolved => TypeMatch::Inconclusive,
                    }
                },
                (Actual::Module { .. }, _) => result == TypeMatch::NoMatch,
                (Actual::Native(ty), SupportedTy::Module { name: wanted, .. }) => result
                    == type_matcher::as_match(chalk::receiver_relation(db, ty, wanted@)),
                (Actual::Native(ty), _) => result == type_matcher::type_match(
                    db,
                    256,
                    ty,
                    expected,
                ),
            }
        }),
{
}

// ---------------------------------------------------------------------------------------------
// What is asked of the registry
// ---------------------------------------------------------------------------------------------

/// What holding a call against the registry under a kind and a name gives.
pub open spec fn held_against(
    db: Db,
    supported: SupportedFuncs,
    target: Target,
    arguments: Seq<Argument>,
    outcome: Outcome,
) -> bool {
    let key = CallKey { kind: target.kind, name: target.name };
    let result = call_matcher::signatures_match(db, supported.at(key), arguments);
    if !supported.has(key) {
        outcome == (Outcome::NoMatch { target, reason: CallNoMatchReason::MissingRegistryEntry })
    } else {
        &&& result == TypeMatch::Match ==> outcome == Outcome::Match(target)
        &&& result == TypeMatch::NoMatch ==> outcome == (Outcome::NoMatch {
            target,
            reason: CallNoMatchReason::SignatureMismatch,
        })
        &&& result == TypeMatch::Inconclusive ==> outcome is Inconclusive
    }
}

/// A function or method of the standard library or of an installed package is held against the
/// registry as a method of its name, with its receiver in front of the arguments, or, where it has
/// none, its module.
pub proof fn law_functions_are_matched_with_what_stands_before_them(
    db: Db,
    supported: SupportedFuncs,
    definition: Definition,
    arguments: Seq<Argument>,
    receiver: Option<Type>,
)
    requires
        ({
            let file = db.definition(definition).file;
            let owner = provenance::file_owner(db, file);
            let module = provenance::file_module_name(db, file);
            let kind = provenance::definition_kind(db, definition);
            &&& owner == ModuleOrigin::StandardLibrary || owner == ModuleOrigin::ThirdParty
            &&& owner == ModuleOrigin::ThirdParty ==> !provenance::in_chalk_namespace(module)
            &&& kind == Some(CallDefinitionOriginKind::Method) && receiver is Some || kind == Some(
                CallDefinitionOriginKind::TopLevelFunction,
            ) && !(owner == ModuleOrigin::StandardLibrary && module == "builtins"@)
        }),
    ensures
        ({
            let data = db.definition(definition);
            let owner = provenance::file_owner(db, data.file);
            let module = provenance::file_module_name(db, data.file);
            let qualified = provenance::qualified_symbol(data.scopes@, data.name@);
            let first = match receiver {
                Some(receiver) => Actual::Native(receiver),
                None => Actual::Module { name: module, origin: owner },
            };
            held_against(
                db,
                supported,
                Target {
                    identity: Identity::Definition(definition),
                    kind: CallKind::Method,
                    name: data.name@,
                    label: if module.len() == 0 {
                        qualified
                    } else {
                        module + "."@ + qualified
                    },
                    range: Some(FileRange { file: data.file, range: data.focus }),
                    receiver: Some(0),
                },
                seq![Argument::Positional(first)] + arguments,
                call_matcher::outcome(
                    db,
                    supported,
                    Lead::Definition(definition),
                    arguments,
                    receiver,
                ),
            )
        }),
{
    reveal(call_matcher::outcome);
}

/// A builtin function or class other than `bool` and `len` is held against the registry as a
/// builtin of its name, with its arguments alone, whatever the receiver.
pub proof fn law_builtins_are_matched_by_their_arguments(
    db: Db,
    supported: SupportedFuncs,
    definition: Definition,
    arguments: Seq<Argument>,
    receiver: Option<Type>,
)
    requires
        ({
            let data = db.definition(definition);
            let kind = provenance::definition_kind(db, definition);
            &&& provenance::file_owner(db, data.file) == ModuleOrigin::StandardLibrary
            &&& provenance::file_module_name(db, data.file) == "builtins"@
            &&& kind == Some(CallDefinitionOriginKind::TopLevelFunction) || kind == Some(
                CallDefinitionOriginKind::ClassConstructor,
            )
            &&& data.name@ != "bool"@ && data.name@ != "len"@
        }),
    ensures
        ({
            let data = db.definition(definition);
            held_against(
                db,
                supported,
                Target {
                    identity: Identity::Definition(definition),
                    kind: CallKind::Builtin,
                    name: data.name@,
                    label: "builtins"@ + "."@ + provenance::qualified_symbol(
                        data.scopes@,
                        data.name@,
                    ),
                    range: Some(FileRange { file: data.file, range: data.focus }),
                    receiver: None,
                },
                arguments,
                call_matcher::outcome(
                    db,
                    supported,
                    Lead::Definition(definition),
                    arguments,
                    receiver,
                ),
            )
        }),
{
    reveal(call_matcher::outcome);
    reveal_strlit("builtins");
    assert("builtins"@.len() == 8);
}

/// `str.startswith` is held against the registry as a method of that name, with its receiver in
/// front; without a receiver it is left open.
pub proof fn law_startswith_is_matched_with_its_receiver(
    db: Db,
    supported: SupportedFuncs,
    known: KnownCallTarget,
    arguments: Seq<Argument>,
    receiver: Option<Type>,
)
    ensures
        ({
            let outcome = call_matcher::outcome(
                db,
                supported,
                Lead::Known(known),
                arguments,
                receiver,
            );
            match receiver {
                Some(receiver) => held_against(
                    db,
                    supported,
                    Target {
                        identity: Identity::Known(known),
                        kind: CallKind::Method,
                        name: "startswith"@,
                        label: "str.startswith"@,
                        range: None,
                        receiver: Some(0),
                    },
                    seq![Argument::Positional(Actual::Native(receiver))] + arguments,
                    outcome,
                ),
                None => outcome is Inconclusive,
            }
        }),
{
    reveal(call_matcher::outcome);
}

/// A symbol of a module that is part of the standard library or installed, and neither a builtin
/// nor one of the accelerator's own, is held against the registry as a method of its name, with the
/// module in front, or the receiver where it belongs to the receiver's class.
pub proof fn law_module_symbols_are_matched_with_their_module(
    db: Db,
    supported: SupportedFuncs,
    symbol: ModuleSymbol,
    arguments: Seq<Argument>,
    receiver: Option<Type>,
)
    requires
        symbol.owner == ModuleOrigin::StandardLibrary || symbol.owner == ModuleOrigin::ThirdParty
            && !provenance::in_chalk_namespace(symbol.module),
        symbol.module != "builtins"@,
    ensures
        ({
            let outcome = call_matcher::outcome(
                db,
                supported,
                Lead::Module(symbol),
                arguments,
                receiver,
            );
            let target = Target {
                identity: Identity::ModuleSymbol { module: symbol.module, symbol: symbol.symbol },
                kind: CallKind::Method,
                name: symbol.symbol,
                label: symbol.module + "."@ + symbol.symbol,
                range: None,
                receiver: Some(0),
            };
            let module = Actual::Module { name: symbol.module, origin: symbol.owner };
            match (symbol.receiver, receiver) {
                (Some(_), None) => outcome is Inconclusive,
                (Some(_), Some(receiver)) => held_against(
                    db,
                    supported,
                    target,
                    seq![Argument::Positional(Actual::Native(receiver))] + arguments,
                    outcome,
                ),
                (None, _) => held_against(
                    db,
                    supported,
                    target,
                    seq![Argument::Positional(module)] + arguments,
                    outcome,
                ),
            }
        }),
{
    reveal(call_matcher::outcome);
}

/// `bool` and `len` need both an entry of their own and one of the method that they call: without
/// either they are missing. They match exactly if some signature of the builtin takes the call and
/// the method takes the same values.
pub proof fn law_protocols_need_the_method_too(
    db: Db,
    supported: SupportedFuncs,
    definition: Definition,
    arguments: Seq<Argument>,
    receiver: Option<Type>,
    method: Seq<char>,
)
    requires
        ({
            let data = db.definition(definition);
            let kind = provenance::definition_kind(db, definition);
            &&& provenance::file_owner(db, data.file) == ModuleOrigin::StandardLibrary
            &&& provenance::file_module_name(db, data.file) == "builtins"@
            &&& kind == Some(CallDefinitionOriginKind::TopLevelFunction) || kind == Some(
                CallDefinitionOriginKind::ClassConstructor,
            )
            &&& data.name@ == "bool"@ && method == "__bool__"@ || data.name@ == "len"@ && method
                == "__len__"@
        }),
    ensures
        ({
            let data = db.definition(definition);
            let own = CallKey { kind: CallKind::Builtin, name: data.name@ };
            let called = CallKey { kind: CallKind::Method, name: method };
            let outcome = call_matcher::outcome(
                db,
                supported,
                Lead::Definition(definition),
                arguments,
                receiver,
            );
            &&& !(supported.has(own) && supported.has(called)) <==> (outcome matches Outcome::NoMatch {
                reason,
                ..
            } && reason == CallNoMatchReason::MissingRegistryEntry)
            &&& outcome is Match <==> supported.has(own) && supported.has(called) && exists|i: int|
                0 <= i < supported.at(own).len() && takes_with_method(
                    db,
                    #[trigger] supported.at(own)[i],
                    supported.at(called),
                    arguments,
                ) == TypeMatch::Match
        }),
{
    let data = db.definition(definition);
    let own = CallKey { kind: CallKind::Builtin, name: data.name@ };
    let called = CallKey { kind: CallKind::Method, name: method };
    lemma_protocol_outcome(db, supported, definition, arguments, receiver, method);
    lemma_protocol_match(db, supported.at(own), supported.at(called), arguments);
}

proof fn lemma_protocol_match(
    db: Db,
    builtins: Seq<SupportedSignature>,
    methods: Seq<SupportedSignature>,
    arguments: Seq<Argument>,
)
    ensures
        call_matcher::protocol_match(db, builtins, methods, arguments) == TypeMatch::Match
            <==> exists|i: int|
            0 <= i < builtins.len() && takes_with_method(
                db,
                #[trigger] builtins[i],
                methods,
                arguments,
            ) == TypeMatch::Match,
{
    let row = Seq::new(
        builtins.len(),
        |i: int| call_matcher::protocol_signature_match(db, builtins[i], methods, arguments),
    );
    assert forall|i: int| 0 <= i < builtins.len() implies row[i] == takes_with_method(
        db,
        #[trigger] builtins[i],
        methods,
        arguments,
    ) by {}
    if row.contains(TypeMatch::Match) {
        let i = choose|i: int| 0 <= i < row.len() && row[i] == TypeMatch::Match;
        assert(takes_with_method(db, builtins[i], methods, arguments) == TypeMatch::Match);
    }
    if exists|i: int|
        0 <= i < builtins.len() && takes_with_method(
            db,
            #[trigger] builtins[i],
            methods,
            arguments,
        ) == TypeMatch::Match {
        let i = choose|i: int|
            0 <= i < builtins.len() && takes_with_method(
                db,
                #[trigger] builtins[i],
                methods,
                arguments,
            ) == TypeMatch::Match;
        assert(row[i] == TypeMatch::Match);
    }
}

proof fn lemma_protocol_outcome(
    db: Db,
    supported: SupportedFuncs,
    definition: Definition,
    arguments: Seq<Argument>,
    receiver: Option<Type>,
    method: Seq<char>,
)
    requires
        ({
            let data = db.definition(definition);
            let kind = provenance::definition_kind(db, definition);
            &&& provenance::file_owner(db, data.file) == ModuleOrigin::StandardLibrary
            &&& provenance::file_module_name(db, data.file) == "builtins"@
            &&& kind == Some(CallDefinitionOriginKind::TopLevelFunction) || kind == Some(
                CallDefinitionOriginKind::ClassConstructor,
            )
            &&& data.name@ == "bool"@ && method == "__bool__"@ || data.name@ == "len"@ && method
                == "__len__"@
        }),
    ensures
        ({
            let data = db.definition(definition);
            let own = CallKey { kind: CallKind::Builtin, name: data.name@ };
            let called = CallKey { kind: CallKind::Method, name: method };
            let outcome = call_matcher::outcome(
                db,
                supported,
                Lead::Definition(definition),
                arguments,
                receiver,
            );
            if supported.has(own) && supported.has(called) {
                let result = call_matcher::protocol_match(
                    db,
                    supported.at(own),
                    supported.at(called),
                    arguments,
                );
                &&& outcome is Match <==> result == TypeMatch::Match
                &&& outcome matches Outcome::NoMatch { reason, .. } ==> reason
                    == CallNoMatchReason::SignatureMismatch
            } else {
                outcome matches Outcome::NoMatch { reason, .. } && reason
                    == CallNoMatchReason::MissingRegistryEntry
            }
        }),
{
    reveal(call_matcher::outcome);
    reveal_strlit("bool");
    reveal_strlit("len");
    assert("bool"@.len() == 4 && "len"@.len() == 3);
}

/// How a signature of a builtin takes a call together with the method of its first argument.
pub open spec fn takes_with_method(
    db: Db,
    builtin: SupportedSignature,
    methods: Seq<SupportedSignature>,
    arguments: Seq<Argument>,
) -> TypeMatch {
    match call_matcher::bind(builtin, arguments) {
        None => TypeMatch::NoMatch,
        Some(bound) => if bound.len() == 0 || bound[0] is None {
            TypeMatch::NoMatch
        } else {
            call_matcher::signature_match(db, builtin, arguments).both(
                call_matcher::signatures_match(
                    db,
                    methods,
                    call_matcher::bound_arguments(bound),
                ),
            )
        },
    }
}

/// The values that a method is handed are those of the parameters that are bound, in their order
/// and by position; parameters that are left to their defaults are passed over.
pub proof fn law_methods_are_handed_what_is_bound(
    first: Seq<Option<Actual>>,
    second: Seq<Option<Actual>>,
    actual: Actual,
)
    ensures
        call_matcher::bound_arguments(first + second) == call_matcher::bound_arguments(first)
            + call_matcher::bound_arguments(second),
        call_matcher::bound_arguments(seq![Some(actual)]) == seq![Argument::Positional(actual)],
        call_matcher::bound_arguments(seq![None]) == Seq::<Argument>::empty(),
    decreases second.len(),
{
    let bound = seq![Some(actual)];
    let free = seq![None::<Actual>];
    assert(bound.drop_last() =~= Seq::empty());
    assert(free.drop_last() =~= Seq::empty());
    reveal_with_fuel(call_matcher::bound_arguments, 2);
    assert(call_matcher::bound_arguments(bound) =~= seq![Argument::Positional(actual)]);
    assert(call_matcher::bound_arguments(free) =~= Seq::<Argument>::empty());
    if second.len() == 0 {
        assert(first + second =~= first);
        assert(call_matcher::bound_arguments(second) =~= Seq::empty());
    } else {
        law_methods_are_handed_what_is_bound(first, second.drop_last(), actual);
        assert((first + second).drop_last() =~= first + second.drop_last());
        assert((first + second).last() == second.last());
    }
}

} // verus!

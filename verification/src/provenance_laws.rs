//! Where calls lead, told by the types that their callees may have.

use vstd::prelude::*;

use crate::chalk;
use crate::chalk::ModuleOrigin;
use crate::provenance;
use crate::provenance::{
    Binding, CallDefinitionOriginKind, CallTarget, CallTargetKind, Callee, Collected,
    KnownCallTarget, ModuleSymbol,
};
use crate::semantic::{
    Db, Definedness, Definition, DefinitionKind, File, Module, ScopeNode, Type, TypeDefinition,
    TypeKind,
};
use crate::text;

verus! {

// ---------------------------------------------------------------------------------------------
// What a callee may be
// ---------------------------------------------------------------------------------------------

/// Whether a value of a type may be of another: of an element of a union, or of the type itself.
pub open spec fn may_be_of(db: Db, ty: Type, one: Type) -> bool {
    match db.ty(ty).kind {
        TypeKind::Union { elements } => elements@.contains(one),
        _ => one == ty,
    }
}

/// Whether a callee may have a type: that of a binding of a name, or the inferred one where nothing
/// binds it; that of the attribute, of any receiver; or the inferred one of anything else.
pub open spec fn callee_may_be(db: Db, callee: Callee, one: Type) -> bool {
    match callee {
        Callee::Name { bindings, inferred, .. } => if some_defined(bindings@) {
            exists|i: int|
                0 <= i < bindings@.len() && ((#[trigger] bindings@[i]) matches Binding::Defined {
                    ty,
                    ..
                } && may_be_of(db, ty, one))
        } else {
            inferred matches Some(ty) && may_be_of(db, ty, one)
        },
        Callee::Attribute { receiver, attr, .. } => receiver matches Some(receiver) && exists|
            owner: Type,
        | #[trigger]
            may_be_of(db, receiver, owner) && (db.member(owner, attr@) matches Some((ty, _))
                && may_be_of(db, ty, one)),
        Callee::Other { inferred } => inferred matches Some(ty) && may_be_of(db, ty, one),
    }
}

/// Whether some binding defines its name.
pub open spec fn some_defined(bindings: Seq<Binding>) -> bool {
    exists|i: int| 0 <= i < bindings.len() && (#[trigger] bindings[i]) is Defined
}

/// Where calling a value of a type that is no union leads, if to a definition.
pub open spec fn definition_called(db: Db, one: Type) -> Option<CallTarget> {
    match (db.ty(one).kind, db.ty(one).definition) {
        (TypeKind::FunctionLiteral, Some(TypeDefinition::Function(definition))) => Some(
            CallTarget { definition, kind: CallTargetKind::Function },
        ),
        (TypeKind::BoundMethod, Some(TypeDefinition::Function(definition))) => Some(
            CallTarget { definition, kind: CallTargetKind::Function },
        ),
        (TypeKind::ClassLiteral { .. }, Some(TypeDefinition::StaticClass(definition))) => Some(
            CallTarget { definition, kind: CallTargetKind::ClassConstructor },
        ),
        _ => None,
    }
}

/// Whether calling a value of a type that is no union leads nowhere that is known.
pub open spec fn leads_nowhere(db: Db, one: Type) -> bool {
    definition_called(db, one) is None && db.ty(one).kind !is StrStartswith && db.ty(one).kind
        !is Never
}

/// Whether some type that a callee may have leads to a definition or a known operation.
pub open spec fn types_lead(db: Db, callee: Callee) -> bool {
    exists|one: Type| #[trigger]
        callee_may_be(db, callee, one) && (definition_called(db, one) is Some || db.ty(one).kind
            is StrStartswith)
}

/// The definitions that the source names for a callee.
pub open spec fn sources_of(callee: Callee) -> Seq<Definition> {
    match callee {
        Callee::Name { sources, .. } => sources@,
        Callee::Attribute { receiver: Some(_), sources, .. } => sources@,
        _ => Seq::empty(),
    }
}

/// The target that a definition is, where it is a function or a class.
pub open spec fn as_target(db: Db, definition: Definition) -> Option<CallTarget> {
    match db.definition(definition).kind {
        DefinitionKind::Function => Some(
            CallTarget { definition, kind: CallTargetKind::Function },
        ),
        DefinitionKind::Class => Some(
            CallTarget { definition, kind: CallTargetKind::ClassConstructor },
        ),
        _ => None,
    }
}

// ---------------------------------------------------------------------------------------------
// Collecting
// ---------------------------------------------------------------------------------------------

spec fn called(db: Db, types: Seq<Type>, target: CallTarget) -> bool {
    exists|i: int|
        0 <= i < types.len() && definition_called(db, #[trigger] types[i]) == Some(target)
}

spec fn some_kind(db: Db, types: Seq<Type>, holds: spec_fn(Type) -> bool) -> bool {
    exists|i: int| 0 <= i < types.len() && holds(#[trigger] types[i])
}

spec fn collected_from(db: Db, types: Seq<Type>, before: Collected, after: Collected) -> bool {
    &&& forall|target: CallTarget| #[trigger]
        after.targets.contains(target) <==> before.targets.contains(target) || called(
            db,
            types,
            target,
        )
    &&& forall|known: KnownCallTarget| #[trigger]
        after.known.contains(known) <==> before.known.contains(known) || some_kind(
            db,
            types,
            |one: Type| db.ty(one).kind is StrStartswith,
        )
    &&& after.unresolved <==> before.unresolved || some_kind(
        db,
        types,
        |one: Type| leads_nowhere(db, one),
    )
    &&& (before.targets.no_duplicates() ==> after.targets.no_duplicates())
    &&& (before.known.no_duplicates() ==> after.known.no_duplicates())
}

proof fn lemma_push<A>(list: Seq<A>, item: A, other: A)
    ensures
        list.push(item).contains(other) <==> list.contains(other) || item == other,
        list.no_duplicates() && !list.contains(item) ==> list.push(item).no_duplicates(),
{
    let longer = list.push(item);
    if list.contains(other) {
        let i = choose|i: int| 0 <= i < list.len() && list[i] == other;
        assert(longer[i] == other);
    }
    if item == other {
        assert(longer[list.len() as int] == other);
    }
    if longer.contains(other) {
        let i = choose|i: int| 0 <= i < longer.len() && longer[i] == other;
        if i < list.len() {
            assert(list[i] == other);
        }
    }
}

proof fn lemma_collect_all(db: Db, types: Seq<Type>, state: Collected)
    ensures
        collected_from(db, types, state, provenance::collect_all(db, types, state)),
    decreases types.len(),
{
    let after = provenance::collect_all(db, types, state);
    let startswith = |one: Type| db.ty(one).kind is StrStartswith;
    let nowhere = |one: Type| leads_nowhere(db, one);
    if types.len() > 0 {
        let init = types.drop_last();
        let last = types.last();
        let at = types.len() - 1;
        let before = provenance::collect_all(db, init, state);
        lemma_collect_all(db, init, state);
        assert(types[at] == last);
        assert(forall|i: int| 0 <= i < init.len() ==> #[trigger] init[i] == types[i]);
        assert forall|target: CallTarget| #[trigger]
            after.targets.contains(target) == (state.targets.contains(target) || called(
            db,
            types,
            target,
        )) by {
            if let Some(own) = definition_called(db, last) {
                lemma_push(before.targets, own, target);
            }
            if called(db, init, target) {
                let i = choose|i: int|
                    0 <= i < init.len() && definition_called(db, #[trigger] init[i]) == Some(
                        target,
                    );
                assert(types[i] == init[i]);
            }
            if called(db, types, target) {
                let i = choose|i: int|
                    0 <= i < types.len() && definition_called(db, #[trigger] types[i]) == Some(
                        target,
                    );
                if i < at {
                    assert(init[i] == types[i]);
                }
            }
        }
        assert(some_kind(db, types, startswith) == (some_kind(db, init, startswith) || startswith(
            last,
        ))) by {
            lemma_some_kind(db, types, startswith);
        }
        assert(some_kind(db, types, nowhere) == (some_kind(db, init, nowhere) || nowhere(last)))
            by {
            lemma_some_kind(db, types, nowhere);
        }
        assert forall|known: KnownCallTarget| #[trigger]
            after.known.contains(known) == (state.known.contains(known) || some_kind(
            db,
            types,
            startswith,
        )) by {
            lemma_push(before.known, KnownCallTarget::StrStartswith, known);
        }
        if let Some(own) = definition_called(db, last) {
            lemma_push(before.targets, own, own);
        }
        lemma_push(
            before.known,
            KnownCallTarget::StrStartswith,
            KnownCallTarget::StrStartswith,
        );
    }
}

proof fn lemma_some_kind(db: Db, types: Seq<Type>, holds: spec_fn(Type) -> bool)
    requires
        types.len() > 0,
    ensures
        some_kind(db, types, holds) <==> some_kind(db, types.drop_last(), holds) || holds(
            types.last(),
        ),
{
    let init = types.drop_last();
    if some_kind(db, init, holds) {
        let i = choose|i: int| 0 <= i < init.len() && holds(#[trigger] init[i]);
        assert(holds(types[i]));
    }
    if holds(types.last()) {
        assert(holds(types[types.len() - 1]));
    }
    if some_kind(db, types, holds) {
        let i = choose|i: int| 0 <= i < types.len() && holds(#[trigger] types[i]);
        if i < init.len() {
            assert(holds(init[i]));
        }
    }
}

/// Whether a set of types is what was collected from.
spec fn collected_by(
    db: Db,
    among: spec_fn(Type) -> bool,
    also_unresolved: bool,
    before: Collected,
    after: Collected,
) -> bool {
    &&& forall|target: CallTarget| #[trigger]
        after.targets.contains(target) <==> before.targets.contains(target) || called_among(
            db,
            among,
            target,
        )
    &&& forall|known: KnownCallTarget| #[trigger]
        after.known.contains(known) <==> before.known.contains(known) || startswith_among(
            db,
            among,
        )
    &&& after.unresolved <==> before.unresolved || also_unresolved || nowhere_among(db, among)
    &&& (before.targets.no_duplicates() ==> after.targets.no_duplicates())
    &&& (before.known.no_duplicates() ==> after.known.no_duplicates())
}

spec fn called_among(db: Db, among: spec_fn(Type) -> bool, target: CallTarget) -> bool {
    exists|one: Type| #[trigger] among(one) && definition_called(db, one) == Some(target)
}

spec fn startswith_among(db: Db, among: spec_fn(Type) -> bool) -> bool {
    exists|one: Type| #[trigger] among(one) && db.ty(one).kind is StrStartswith
}

spec fn nowhere_among(db: Db, among: spec_fn(Type) -> bool) -> bool {
    exists|one: Type| #[trigger] among(one) && leads_nowhere(db, one)
}

proof fn lemma_collect(db: Db, ty: Type, state: Collected)
    ensures
        collected_by(
            db,
            |one: Type| may_be_of(db, ty, one),
            false,
            state,
            provenance::collect(db, ty, state),
        ),
{
    let types = provenance::alternatives(db, ty);
    let among = |one: Type| may_be_of(db, ty, one);
    lemma_collect_all(db, types, state);
    assert forall|one: Type| #[trigger] among(one) implies exists|i: int|
        0 <= i < types.len() && #[trigger] types[i] == one by {
        if db.ty(ty).kind is Union {
            let i = choose|i: int| 0 <= i < types.len() && types[i] == one;
            assert(types[i] == one);
        } else {
            assert(types[0] == one);
        }
    }
    assert forall|i: int| 0 <= i < types.len() implies among(#[trigger] types[i]) by {
        if db.ty(ty).kind is Union {
            assert(types.contains(types[i]));
        }
    }
    lemma_list_as_set(db, types, among);
}

proof fn lemma_list_as_set(db: Db, types: Seq<Type>, among: spec_fn(Type) -> bool)
    requires
        forall|one: Type| #[trigger] among(one) ==> exists|i: int|
            0 <= i < types.len() && #[trigger] types[i] == one,
        forall|i: int| 0 <= i < types.len() ==> among(#[trigger] types[i]),
    ensures
        forall|target: CallTarget| #[trigger]
            called(db, types, target) <==> called_among(db, among, target),
        some_kind(db, types, |one: Type| db.ty(one).kind is StrStartswith) <==> startswith_among(
            db,
            among,
        ),
        some_kind(db, types, |one: Type| leads_nowhere(db, one)) <==> nowhere_among(db, among),
{
    let startswith = |one: Type| db.ty(one).kind is StrStartswith;
    let nowhere = |one: Type| leads_nowhere(db, one);
    assert forall|target: CallTarget| #[trigger]
        called(db, types, target) == called_among(db, among, target) by {
        if called(db, types, target) {
            let i = choose|i: int|
                0 <= i < types.len() && definition_called(db, #[trigger] types[i]) == Some(target);
            assert(among(types[i]));
        }
        if called_among(db, among, target) {
            let one = choose|one: Type| #[trigger]
                among(one) && definition_called(db, one) == Some(target);
            let i = choose|i: int| 0 <= i < types.len() && #[trigger] types[i] == one;
            assert(definition_called(db, types[i]) == Some(target));
        }
    }
    if some_kind(db, types, startswith) {
        let i = choose|i: int| 0 <= i < types.len() && startswith(#[trigger] types[i]);
        assert(among(types[i]));
    }
    if startswith_among(db, among) {
        let one = choose|one: Type| #[trigger] among(one) && db.ty(one).kind is StrStartswith;
        let i = choose|i: int| 0 <= i < types.len() && #[trigger] types[i] == one;
        assert(startswith(types[i]));
    }
    if some_kind(db, types, nowhere) {
        let i = choose|i: int| 0 <= i < types.len() && nowhere(#[trigger] types[i]);
        assert(among(types[i]));
    }
    if nowhere_among(db, among) {
        let one = choose|one: Type| #[trigger] among(one) && leads_nowhere(db, one);
        let i = choose|i: int| 0 <= i < types.len() && #[trigger] types[i] == one;
        assert(nowhere(types[i]));
    }
}

proof fn lemma_then(
    db: Db,
    first: spec_fn(Type) -> bool,
    first_unresolved: bool,
    second: spec_fn(Type) -> bool,
    second_unresolved: bool,
    both: spec_fn(Type) -> bool,
    a: Collected,
    b: Collected,
    c: Collected,
)
    requires
        collected_by(db, first, first_unresolved, a, b),
        collected_by(db, second, second_unresolved, b, c),
        forall|one: Type| #[trigger] both(one) <==> first(one) || second(one),
    ensures
        collected_by(db, both, first_unresolved || second_unresolved, a, c),
{
    assert forall|target: CallTarget| #[trigger]
        called_among(db, both, target) == (called_among(db, first, target) || called_among(
        db,
        second,
        target,
    )) by {
        if called_among(db, first, target) {
            let one = choose|one: Type| #[trigger]
                first(one) && definition_called(db, one) == Some(target);
            assert(both(one));
        }
        if called_among(db, second, target) {
            let one = choose|one: Type| #[trigger]
                second(one) && definition_called(db, one) == Some(target);
            assert(both(one));
        }
        if called_among(db, both, target) {
            let one = choose|one: Type| #[trigger]
                both(one) && definition_called(db, one) == Some(target);
            assert(first(one) || second(one));
        }
    }
    assert(startswith_among(db, both) == (startswith_among(db, first) || startswith_among(
        db,
        second,
    ))) by {
        if startswith_among(db, first) {
            let one = choose|one: Type| #[trigger] first(one) && db.ty(one).kind is StrStartswith;
            assert(both(one));
        }
        if startswith_among(db, second) {
            let one = choose|one: Type| #[trigger] second(one) && db.ty(one).kind is StrStartswith;
            assert(both(one));
        }
        if startswith_among(db, both) {
            let one = choose|one: Type| #[trigger] both(one) && db.ty(one).kind is StrStartswith;
            assert(first(one) || second(one));
        }
    }
    assert(nowhere_among(db, both) == (nowhere_among(db, first) || nowhere_among(db, second)))
        by {
        if nowhere_among(db, first) {
            let one = choose|one: Type| #[trigger] first(one) && leads_nowhere(db, one);
            assert(both(one));
        }
        if nowhere_among(db, second) {
            let one = choose|one: Type| #[trigger] second(one) && leads_nowhere(db, one);
            assert(both(one));
        }
        if nowhere_among(db, both) {
            let one = choose|one: Type| #[trigger] both(one) && leads_nowhere(db, one);
            assert(first(one) || second(one));
        }
    }
}

spec fn of_bindings(db: Db, bindings: Seq<Binding>) -> spec_fn(Type) -> bool {
    |one: Type|
        exists|i: int|
            0 <= i < bindings.len() && ((#[trigger] bindings[i]) matches Binding::Defined {
                ty,
                ..
            } && may_be_of(db, ty, one))
}

proof fn lemma_collect_bindings(db: Db, bindings: Seq<Binding>, state: Collected)
    ensures
        collected_by(
            db,
            of_bindings(db, bindings),
            false,
            state,
            provenance::collect_bindings(db, bindings, state),
        ),
    decreases bindings.len(),
{
    let all = of_bindings(db, bindings);
    if bindings.len() > 0 {
        let init = bindings.drop_last();
        let some = of_bindings(db, init);
        let before = provenance::collect_bindings(db, init, state);
        let at = bindings.len() - 1;
        lemma_collect_bindings(db, init, state);
        assert(bindings[at] == bindings.last());
        assert(forall|i: int| 0 <= i < init.len() ==> #[trigger] init[i] == bindings[i]);
        let own = |one: Type|
            bindings.last() matches Binding::Defined { ty, .. } && may_be_of(db, ty, one);
        assert forall|one: Type| #[trigger] all(one) == (some(one) || own(one)) by {
            if some(one) {
                let i = choose|i: int|
                    0 <= i < init.len() && ((#[trigger] init[i]) matches Binding::Defined { ty, .. }
                        && may_be_of(db, ty, one));
                assert(bindings[i] == init[i]);
            }
            if own(one) {
                assert(bindings[at] is Defined);
            }
            if all(one) {
                let i = choose|i: int|
                    0 <= i < bindings.len() && ((#[trigger] bindings[i]) matches
                        Binding::Defined { ty, .. } && may_be_of(db, ty, one));
                if i < at {
                    assert(init[i] == bindings[i]);
                }
            }
        }
        let after = provenance::collect_bindings(db, bindings, state);
        match bindings.last() {
            Binding::Defined { ty, .. } => {
                lemma_collect(db, ty, before);
                lemma_same_set(
                    db,
                    |one: Type| may_be_of(db, ty, one),
                    own,
                    false,
                    before,
                    after,
                );
            },
            Binding::Missing => {
                lemma_nothing_collected(db, own, before);
            },
        }
        lemma_then(db, some, false, own, false, all, state, before, after);
    } else {
        lemma_nothing_collected(db, all, state);
    }
}

proof fn lemma_same_set(
    db: Db,
    one_way: spec_fn(Type) -> bool,
    other_way: spec_fn(Type) -> bool,
    also_unresolved: bool,
    before: Collected,
    after: Collected,
)
    requires
        collected_by(db, one_way, also_unresolved, before, after),
        forall|one: Type| #[trigger] one_way(one) <==> other_way(one),
    ensures
        collected_by(db, other_way, also_unresolved, before, after),
{
    lemma_nothing_collected(db, |one: Type| false, after);
    lemma_then(
        db,
        one_way,
        also_unresolved,
        |one: Type| false,
        false,
        other_way,
        before,
        after,
        after,
    );
}

proof fn lemma_nothing_collected(db: Db, among: spec_fn(Type) -> bool, state: Collected)
    requires
        forall|one: Type| !#[trigger] among(one),
    ensures
        collected_by(db, among, false, state, state),
{
}

spec fn of_members(db: Db, receivers: Seq<Type>, name: Seq<char>) -> spec_fn(Type) -> bool {
    |one: Type|
        exists|i: int|
            0 <= i < receivers.len() && (db.member(#[trigger] receivers[i], name) matches Some(
                (ty, _),
            ) && may_be_of(db, ty, one))
}

/// Whether an attribute may be missing on a receiver.
pub open spec fn may_lack(db: Db, owner: Type, name: Seq<char>) -> bool {
    match db.member(owner, name) {
        Some((_, definedness)) => definedness == Definedness::PossiblyUndefined,
        None => true,
    }
}

spec fn some_lack(db: Db, receivers: Seq<Type>, name: Seq<char>) -> bool {
    exists|i: int| 0 <= i < receivers.len() && may_lack(db, #[trigger] receivers[i], name)
}

proof fn lemma_collect_members(
    db: Db,
    receivers: Seq<Type>,
    name: Seq<char>,
    state: Collected,
)
    ensures
        collected_by(
            db,
            of_members(db, receivers, name),
            some_lack(db, receivers, name),
            state,
            provenance::collect_members(db, receivers, name, state),
        ),
    decreases receivers.len(),
{
    let all = of_members(db, receivers, name);
    if receivers.len() > 0 {
        let init = receivers.drop_last();
        let some = of_members(db, init, name);
        let before = provenance::collect_members(db, init, name, state);
        let after = provenance::collect_members(db, receivers, name, state);
        let at = receivers.len() - 1;
        let last = receivers.last();
        lemma_collect_members(db, init, name, state);
        assert(receivers[at] == last);
        assert(forall|i: int| 0 <= i < init.len() ==> #[trigger] init[i] == receivers[i]);
        let own = |one: Type|
            db.member(last, name) matches Some((ty, _)) && may_be_of(db, ty, one);
        assert forall|one: Type| #[trigger] all(one) == (some(one) || own(one)) by {
            if some(one) {
                let i = choose|i: int|
                    0 <= i < init.len() && (db.member(#[trigger] init[i], name) matches Some(
                        (ty, _),
                    ) && may_be_of(db, ty, one));
                assert(receivers[i] == init[i]);
            }
            if own(one) {
                assert(db.member(receivers[at], name) is Some);
            }
            if all(one) {
                let i = choose|i: int|
                    0 <= i < receivers.len() && (db.member(
                        #[trigger] receivers[i],
                        name,
                    ) matches Some((ty, _)) && may_be_of(db, ty, one));
                if i < at {
                    assert(init[i] == receivers[i]);
                }
            }
        }
        assert(some_lack(db, receivers, name) == (some_lack(db, init, name) || may_lack(
            db,
            last,
            name,
        ))) by {
            if some_lack(db, init, name) {
                let i = choose|i: int|
                    0 <= i < init.len() && may_lack(db, #[trigger] init[i], name);
                assert(may_lack(db, receivers[i], name));
            }
            if may_lack(db, last, name) {
                assert(may_lack(db, receivers[at], name));
            }
            if some_lack(db, receivers, name) {
                let i = choose|i: int|
                    0 <= i < receivers.len() && may_lack(db, #[trigger] receivers[i], name);
                if i < at {
                    assert(may_lack(db, init[i], name));
                }
            }
        }
        match db.member(last, name) {
            Some((ty, definedness)) => {
                let open = if definedness == Definedness::PossiblyUndefined {
                    before.with_unresolved()
                } else {
                    before
                };
                lemma_collect(db, ty, open);
                lemma_same_set(db, |one: Type| may_be_of(db, ty, one), own, false, open, after);
                assert(collected_by(
                    db,
                    own,
                    definedness == Definedness::PossiblyUndefined,
                    before,
                    after,
                ));
            },
            None => {
                lemma_nothing_collected(db, own, before);
                assert(collected_by(db, own, true, before, after));
            },
        }
        lemma_then(
            db,
            some,
            some_lack(db, init, name),
            own,
            may_lack(db, last, name),
            all,
            state,
            before,
            after,
        );
    } else {
        lemma_nothing_collected(db, all, state);
    }
}

/// What the types of a callee give, before the source is asked.
spec fn by_types(db: Db, callee: Callee) -> Collected {
    let start = Collected::nothing();
    match callee {
        Callee::Name { bindings, inferred, .. } => {
            let bound = provenance::collect_bindings(db, bindings@, start);
            if some_defined(bindings@) {
                if some_missing(bindings@) {
                    bound.with_unresolved()
                } else {
                    bound
                }
            } else {
                provenance::collect_inferred(db, inferred, bound)
            }
        },
        Callee::Attribute { receiver: Some(receiver), attr, .. } => provenance::collect_members(
            db,
            provenance::alternatives(db, receiver),
            attr@,
            start,
        ),
        Callee::Attribute { .. } => start.with_unresolved(),
        Callee::Other { inferred } => provenance::collect_inferred(db, inferred, start),
    }
}

/// Whether a name may be unbound.
pub open spec fn some_missing(bindings: Seq<Binding>) -> bool {
    exists|i: int| 0 <= i < bindings.len() && (#[trigger] bindings[i]) is Missing
}

/// Whether a callee itself may be missing: a name that is bound on some ways only, or an attribute
/// that some receiver may lack; or nothing is known of it.
pub open spec fn may_be_missing(db: Db, callee: Callee) -> bool {
    match callee {
        Callee::Name { bindings, inferred, .. } => if some_defined(bindings@) {
            some_missing(bindings@)
        } else {
            inferred is None
        },
        Callee::Attribute { receiver, attr, .. } => match receiver {
            Some(receiver) => exists|owner: Type| #[trigger]
                may_be_of(db, receiver, owner) && may_lack(db, owner, attr@),
            None => true,
        },
        Callee::Other { inferred } => inferred is None,
    }
}

proof fn lemma_by_types(db: Db, callee: Callee)
    ensures
        collected_by(
            db,
            |one: Type| callee_may_be(db, callee, one),
            may_be_missing(db, callee),
            Collected::nothing(),
            by_types(db, callee),
        ),
{
    let start = Collected::nothing();
    let among = |one: Type| callee_may_be(db, callee, one);
    let after = by_types(db, callee);
    match callee {
        Callee::Name { bindings, inferred, .. } => {
            lemma_collect_bindings(db, bindings@, start);
            let bound = provenance::collect_bindings(db, bindings@, start);
            let own = of_bindings(db, bindings@);
            if some_defined(bindings@) {
                assert(forall|one: Type| #[trigger] among(one) == own(one));
                assert(collected_by(db, own, some_missing(bindings@), start, after));
                lemma_same_set(db, own, among, some_missing(bindings@), start, after);
            } else {
                assert forall|one: Type| !#[trigger] own(one) by {
                    if own(one) {
                        let i = choose|i: int|
                            0 <= i < bindings@.len() && ((#[trigger] bindings@[i]) matches
                                Binding::Defined { ty, .. } && may_be_of(db, ty, one));
                        assert(bindings@[i] is Defined);
                    }
                }
                match inferred {
                    Some(ty) => {
                        lemma_collect(db, ty, bound);
                        lemma_then(
                            db,
                            own,
                            false,
                            |one: Type| may_be_of(db, ty, one),
                            false,
                            among,
                            start,
                            bound,
                            after,
                        );
                    },
                    None => {
                        lemma_same_set(db, own, among, false, start, bound);
                        assert(collected_by(db, among, true, start, after));
                    },
                }
            }
        },
        Callee::Attribute { receiver, attr, .. } => {
            match receiver {
                Some(receiver) => {
                    let receivers = provenance::alternatives(db, receiver);
                    let own = of_members(db, receivers, attr@);
                    lemma_collect_members(db, receivers, attr@, start);
                    lemma_receivers(db, receiver);
                    assert forall|one: Type| #[trigger] own(one) == among(one) by {
                        if own(one) {
                            let i = choose|i: int|
                                0 <= i < receivers.len() && (db.member(
                                    #[trigger] receivers[i],
                                    attr@,
                                ) matches Some((ty, _)) && may_be_of(db, ty, one));
                            assert(may_be_of(db, receiver, receivers[i]));
                        }
                        if among(one) {
                            let owner = choose|owner: Type| #[trigger]
                                may_be_of(db, receiver, owner) && (db.member(
                                    owner,
                                    attr@,
                                ) matches Some((ty, _)) && may_be_of(db, ty, one));
                            let i = choose|i: int|
                                0 <= i < receivers.len() && #[trigger] receivers[i] == owner;
                            assert(db.member(receivers[i], attr@) is Some);
                        }
                    }
                    if some_lack(db, receivers, attr@) {
                        let i = choose|i: int|
                            0 <= i < receivers.len() && may_lack(
                                db,
                                #[trigger] receivers[i],
                                attr@,
                            );
                        assert(may_be_of(db, receiver, receivers[i]));
                    }
                    if may_be_missing(db, callee) {
                        let owner = choose|owner: Type| #[trigger]
                            may_be_of(db, receiver, owner) && may_lack(db, owner, attr@);
                        let i = choose|i: int|
                            0 <= i < receivers.len() && #[trigger] receivers[i] == owner;
                        assert(may_lack(db, receivers[i], attr@));
                    }
                    lemma_same_set(
                        db,
                        own,
                        among,
                        some_lack(db, receivers, attr@),
                        start,
                        after,
                    );
                },
                None => {
                    lemma_nothing_collected(db, among, start);
                    assert(collected_by(db, among, true, start, after));
                },
            }
        },
        Callee::Other { inferred } => {
            match inferred {
                Some(ty) => {
                    lemma_collect(db, ty, start);
                    lemma_same_set(
                        db,
                        |one: Type| may_be_of(db, ty, one),
                        among,
                        false,
                        start,
                        after,
                    );
                },
                None => {
                    lemma_nothing_collected(db, among, start);
                    assert(collected_by(db, among, true, start, after));
                },
            }
        },
    }
}

proof fn lemma_receivers(db: Db, receiver: Type)
    ensures
        forall|owner: Type| #[trigger]
            may_be_of(db, receiver, owner) ==> exists|i: int|
                0 <= i < provenance::alternatives(db, receiver).len()
                    && #[trigger] provenance::alternatives(db, receiver)[i] == owner,
        forall|i: int|
            0 <= i < provenance::alternatives(db, receiver).len() ==> may_be_of(
                db,
                receiver,
                #[trigger] provenance::alternatives(db, receiver)[i],
            ),
{
    let receivers = provenance::alternatives(db, receiver);
    assert forall|owner: Type| #[trigger] may_be_of(db, receiver, owner) implies exists|i: int|
        0 <= i < receivers.len() && #[trigger] receivers[i] == owner by {
        if db.ty(receiver).kind is Union {
            let i = choose|i: int| 0 <= i < receivers.len() && receivers[i] == owner;
            assert(receivers[i] == owner);
        } else {
            assert(receivers[0] == owner);
        }
    }
    assert forall|i: int| 0 <= i < receivers.len() implies may_be_of(
        db,
        receiver,
        #[trigger] receivers[i],
    ) by {
        if db.ty(receiver).kind is Union {
            assert(receivers.contains(receivers[i]));
        }
    }
}

proof fn lemma_fallback(db: Db, sources: Seq<Definition>, state: Collected)
    ensures
        ({
            let after = provenance::collect_sources(db, sources, state);
            &&& forall|target: CallTarget| #[trigger]
                after.targets.contains(target) <==> state.targets.contains(target)
                    || named_in_source(db, sources, target)
            &&& after.known == state.known
            &&& after.unresolved <==> state.unresolved || exists|i: int|
                0 <= i < sources.len() && as_target(db, #[trigger] sources[i]) is Some
            &&& (state.targets.no_duplicates() ==> after.targets.no_duplicates())
        }),
    decreases sources.len(),
{
    if sources.len() > 0 {
        let init = sources.drop_last();
        let at = sources.len() - 1;
        let before = provenance::collect_sources(db, init, state);
        let after = provenance::collect_sources(db, sources, state);
        lemma_fallback(db, init, state);
        assert(sources[at] == sources.last());
        assert(forall|i: int| 0 <= i < init.len() ==> #[trigger] init[i] == sources[i]);
        assert forall|target: CallTarget| #[trigger]
            after.targets.contains(target) == (state.targets.contains(target) || named_in_source(
            db,
            sources,
            target,
        )) by {
            if let Some(own) = as_target(db, sources.last()) {
                lemma_push(before.targets, own, target);
                lemma_push(before.targets, own, own);
            }
            if named_in_source(db, init, target) {
                let i = choose|i: int|
                    0 <= i < init.len() && as_target(db, #[trigger] init[i]) == Some(target);
                assert(as_target(db, sources[i]) == Some(target));
            }
            if named_in_source(db, sources, target) {
                let i = choose|i: int|
                    0 <= i < sources.len() && as_target(db, #[trigger] sources[i]) == Some(target);
                if i < at {
                    assert(as_target(db, init[i]) == Some(target));
                }
            }
        }
        if let Some(own) = as_target(db, sources.last()) {
            lemma_push(before.targets, own, own);
            assert(as_target(db, sources[at]) is Some);
        }
        if exists|i: int| 0 <= i < init.len() && as_target(db, #[trigger] init[i]) is Some {
            let i = choose|i: int|
                0 <= i < init.len() && as_target(db, #[trigger] init[i]) is Some;
            assert(as_target(db, sources[i]) is Some);
        }
        if exists|i: int| 0 <= i < sources.len() && as_target(db, #[trigger] sources[i]) is Some {
            let i = choose|i: int|
                0 <= i < sources.len() && as_target(db, #[trigger] sources[i]) is Some;
            if i < at {
                assert(as_target(db, init[i]) is Some);
            }
        }
    }
}

/// Whether a target is among the functions and classes that the source names.
pub open spec fn named_in_source(db: Db, sources: Seq<Definition>, target: CallTarget) -> bool {
    exists|i: int| 0 <= i < sources.len() && as_target(db, #[trigger] sources[i]) == Some(target)
}

// ---------------------------------------------------------------------------------------------
// Laws
// ---------------------------------------------------------------------------------------------

/// A call leads to exactly the functions and classes that the types of its callee stand for, each
/// once. Only where no type stands for a function, a class or a known operation does it lead to
/// what the source names, and is then left unresolved too.
pub proof fn law_calls_lead_where_their_types_do(db: Db, callee: Callee, target: CallTarget)
    ensures
        ({
            let found = provenance::collect_callee(db, callee);
            &&& found.targets.no_duplicates()
            &&& types_lead(db, callee) ==> (found.targets.contains(target) <==> exists|one: Type|
                #[trigger]
                callee_may_be(db, callee, one) && definition_called(db, one) == Some(target))
            &&& !types_lead(db, callee) ==> (found.targets.contains(target) <==> named_in_source(
                db,
                sources_of(callee),
                target,
            ))
            &&& found.known.contains(KnownCallTarget::StrStartswith) <==> exists|one: Type|
                #[trigger]
                callee_may_be(db, callee, one) && db.ty(one).kind is StrStartswith
        }),
{
    let among = |one: Type| callee_may_be(db, callee, one);
    let state = by_types(db, callee);
    let nothing = Collected::nothing();
    lemma_by_types(db, callee);
    lemma_callee(db, callee);
    lemma_fallback(db, sources_of(callee), state);
    assert(called_among(db, among, target) == exists|one: Type| #[trigger]
        callee_may_be(db, callee, one) && definition_called(db, one) == Some(target)) by {
        if called_among(db, among, target) {
            let one = choose|one: Type| #[trigger]
                among(one) && definition_called(db, one) == Some(target);
            assert(callee_may_be(db, callee, one));
        }
        if exists|one: Type| #[trigger]
            callee_may_be(db, callee, one) && definition_called(db, one) == Some(target) {
            let one = choose|one: Type| #[trigger]
                callee_may_be(db, callee, one) && definition_called(db, one) == Some(target);
            assert(among(one));
        }
    }
    assert(startswith_among(db, among) == exists|one: Type| #[trigger]
        callee_may_be(db, callee, one) && db.ty(one).kind is StrStartswith) by {
        if startswith_among(db, among) {
            let one = choose|one: Type| #[trigger] among(one) && db.ty(one).kind is StrStartswith;
            assert(callee_may_be(db, callee, one));
        }
        if exists|one: Type| #[trigger]
            callee_may_be(db, callee, one) && db.ty(one).kind is StrStartswith {
            let one = choose|one: Type| #[trigger]
                callee_may_be(db, callee, one) && db.ty(one).kind is StrStartswith;
            assert(among(one));
        }
    }
    lemma_types_lead(db, callee);
}

proof fn lemma_types_lead(db: Db, callee: Callee)
    ensures
        types_lead(db, callee) <==> by_types(db, callee).targets.len() > 0 || by_types(
            db,
            callee,
        ).known.len() > 0,
{
    let among = |one: Type| callee_may_be(db, callee, one);
    let state = by_types(db, callee);
    lemma_by_types(db, callee);
    if types_lead(db, callee) {
        let one = choose|one: Type| #[trigger]
            callee_may_be(db, callee, one) && (definition_called(db, one) is Some || db.ty(
                one,
            ).kind is StrStartswith);
        assert(among(one));
        if let Some(target) = definition_called(db, one) {
            assert(called_among(db, among, target));
            assert(state.targets.contains(target));
        } else {
            assert(startswith_among(db, among));
            assert(state.known.contains(KnownCallTarget::StrStartswith));
        }
    }
    if state.targets.len() > 0 {
        assert(state.targets.contains(state.targets[0]));
        let one = choose|one: Type| #[trigger]
            among(one) && definition_called(db, one) == Some(state.targets[0]);
        assert(callee_may_be(db, callee, one));
    }
    if state.known.len() > 0 {
        assert(state.known.contains(state.known[0]));
        let one = choose|one: Type| #[trigger] among(one) && db.ty(one).kind is StrStartswith;
        assert(callee_may_be(db, callee, one));
    }
}

proof fn lemma_callee(db: Db, callee: Callee)
    ensures
        provenance::collect_callee(db, callee) == if by_types(db, callee).targets.len() == 0
            && by_types(db, callee).known.len() == 0 {
            provenance::collect_sources(db, sources_of(callee), by_types(db, callee))
        } else {
            by_types(db, callee)
        },
{
    if let Callee::Name { bindings, .. } = callee {
        let bindings = bindings@;
        assert(some_defined(bindings) == exists|i: int|
            0 <= i < bindings.len() && provenance::defines(#[trigger] bindings[i])) by {
            if some_defined(bindings) {
                let i = choose|i: int| 0 <= i < bindings.len() && (#[trigger] bindings[i]) is Defined;
                assert(provenance::defines(bindings[i]));
            }
        }
        assert(some_missing(bindings) == exists|i: int|
            0 <= i < bindings.len() && !provenance::defines(#[trigger] bindings[i])) by {
            if some_missing(bindings) {
                let i = choose|i: int| 0 <= i < bindings.len() && (#[trigger] bindings[i]) is Missing;
                assert(!provenance::defines(bindings[i]));
            }
        }
    }
}

/// A call is left unresolved exactly if its callee may be missing, if some type that it may have
/// leads nowhere that is known, or if only the source tells where it leads.
pub proof fn law_calls_are_unresolved_where_something_is_open(db: Db, callee: Callee)
    ensures
        provenance::collect_callee(db, callee).unresolved <==> {
            ||| may_be_missing(db, callee)
            ||| exists|one: Type| #[trigger]
                callee_may_be(db, callee, one) && leads_nowhere(db, one)
            ||| !types_lead(db, callee) && exists|i: int|
                0 <= i < sources_of(callee).len() && as_target(
                    db,
                    #[trigger] sources_of(callee)[i],
                ) is Some
        },
{
    let among = |one: Type| callee_may_be(db, callee, one);
    let state = by_types(db, callee);
    lemma_by_types(db, callee);
    lemma_callee(db, callee);
    lemma_fallback(db, sources_of(callee), state);
    lemma_types_lead(db, callee);
    if nowhere_among(db, among) {
        let one = choose|one: Type| #[trigger] among(one) && leads_nowhere(db, one);
        assert(callee_may_be(db, callee, one));
    }
    if exists|one: Type| #[trigger] callee_may_be(db, callee, one) && leads_nowhere(db, one) {
        let one = choose|one: Type| #[trigger]
            callee_may_be(db, callee, one) && leads_nowhere(db, one);
        assert(among(one));
    }
}

// ---------------------------------------------------------------------------------------------
// Modules
// ---------------------------------------------------------------------------------------------

/// The origin that a search path stands for.
pub open spec fn is_origin(db: Db, module: Module, origin: ModuleOrigin) -> bool {
    match db.module(module).search_path {
        None => origin == ModuleOrigin::Namespace,
        Some(path) => match origin {
            ModuleOrigin::StandardLibrary => path is StandardLibrary,
            ModuleOrigin::ThirdParty => path is ThirdParty,
            ModuleOrigin::FirstParty => path is FirstParty,
            ModuleOrigin::Extra => path is Extra,
            ModuleOrigin::Other => path is Other,
            _ => false,
        },
    }
}

/// Where a module is found decides who owns it: the module that runs, where there is one, whatever
/// is known of its types; or else a stub that ships with the type checker. Nobody owns any other.
pub proof fn law_the_running_module_decides_who_owns_it(
    db: Db,
    importing_file: File,
    name: Seq<char>,
    typing_module: Option<Module>,
)
    ensures
        ({
            let owner = chalk::owner_of(db, importing_file, name, typing_module);
            match (db.real_module(importing_file, name), typing_module) {
                (Some(running), _) => is_origin(db, running, owner),
                (None, Some(stub)) => if db.module(stub).file matches Some(file) && db.file(
                    file,
                ).is_vendored {
                    is_origin(db, stub, owner)
                } else {
                    owner == ModuleOrigin::Unresolved
                },
                (None, None) => owner == ModuleOrigin::Unresolved,
            }
        }),
{
}

/// Whether a binding imports a symbol by name, or all symbols of a module.
pub open spec fn imports(db: Db, binding: Binding, id: Seq<char>, found: ModuleSymbol) -> bool {
    binding matches Binding::Defined { definition, .. } && {
        let data = db.definition(definition);
        &&& found.receiver is None
        &&& match data.kind {
            DefinitionKind::ImportFrom { module: Some(module), symbol, typing_module } => {
                &&& found.module == module@
                &&& found.symbol == symbol@
                &&& found.origin == chalk::origin_of(db, typing_module)
                &&& found.owner == chalk::owner_of(db, data.file, module@, typing_module)
            },
            DefinitionKind::StarImport { module: Some(module), typing_module } => {
                &&& found.module == module@
                &&& found.symbol == id
                &&& found.origin == chalk::origin_of(db, typing_module)
                &&& found.owner == chalk::owner_of(db, data.file, module@, typing_module)
            },
            _ => false,
        }
    }
}

/// The symbols that bindings bring in are exactly those that some binding imports, each once.
pub proof fn law_imports_bring_their_symbols(
    db: Db,
    bindings: Seq<Binding>,
    id: Seq<char>,
    found: ModuleSymbol,
)
    ensures
        provenance::imported_symbols(db, bindings, id).no_duplicates(),
        provenance::imported_symbols(db, bindings, id).contains(found) <==> exists|i: int|
            0 <= i < bindings.len() && imports(db, #[trigger] bindings[i], id, found),
    decreases bindings.len(),
{
    if bindings.len() > 0 {
        let init = bindings.drop_last();
        let at = bindings.len() - 1;
        let before = provenance::imported_symbols(db, init, id);
        law_imports_bring_their_symbols(db, init, id, found);
        assert(bindings[at] == bindings.last());
        assert(forall|i: int| 0 <= i < init.len() ==> #[trigger] init[i] == bindings[i]);
        if let Some(own) = provenance::bound_symbol(db, bindings.last(), id) {
            lemma_push(before, own, found);
            lemma_push(before, own, own);
            assert(imports(db, bindings[at], id, own));
        }
        if exists|i: int| 0 <= i < init.len() && imports(db, #[trigger] init[i], id, found) {
            let i = choose|i: int|
                0 <= i < init.len() && imports(db, #[trigger] init[i], id, found);
            assert(imports(db, bindings[i], id, found));
        }
        if exists|i: int| 0 <= i < bindings.len() && imports(db, #[trigger] bindings[i], id, found) {
            let i = choose|i: int|
                0 <= i < bindings.len() && imports(db, #[trigger] bindings[i], id, found);
            if i < at {
                assert(imports(db, init[i], id, found));
            } else {
                assert(provenance::bound_symbol(db, bindings.last(), id) == Some(found));
            }
        }
    }
}

/// Whether an attribute of a receiver names a symbol: of the module that the receiver is, or of the
/// module in which the receiver's class is written.
pub open spec fn attribute_names(
    db: Db,
    file: File,
    owner: Type,
    symbol: Seq<char>,
    found: ModuleSymbol,
) -> bool {
    let (module, receiver): (Option<Module>, Option<u32>) = match db.ty(owner).kind {
        TypeKind::ModuleLiteral { module } => (Some(module), None),
        _ => (chalk::receiver_module(db, owner), Some(0)),
    };
    module matches Some(module) && {
        &&& found.module == db.module(module).name@
        &&& found.symbol == symbol
        &&& found.receiver == receiver
        &&& found.origin == chalk::origin_of(db, Some(module))
        &&& found.owner == chalk::owner_of(db, file, db.module(module).name@, Some(module))
    }
}

proof fn lemma_receiver_symbols(
    db: Db,
    file: File,
    receivers: Seq<Type>,
    symbol: Seq<char>,
    found: ModuleSymbol,
)
    ensures
        provenance::receiver_symbols(db, file, receivers, symbol).contains(found) <==> {
            &&& found.owner == ModuleOrigin::ThirdParty
            &&& provenance::in_chalk_namespace(found.module)
            &&& exists|i: int|
                0 <= i < receivers.len() && attribute_names(
                    db,
                    file,
                    #[trigger] receivers[i],
                    symbol,
                    found,
                )
        },
    decreases receivers.len(),
{
    if receivers.len() > 0 {
        let init = receivers.drop_last();
        let at = receivers.len() - 1;
        let before = provenance::receiver_symbols(db, file, init, symbol);
        lemma_receiver_symbols(db, file, init, symbol, found);
        assert(receivers[at] == receivers.last());
        assert(forall|i: int| 0 <= i < init.len() ==> #[trigger] init[i] == receivers[i]);
        if let Some(own) = provenance::receiver_symbol(db, file, receivers.last(), symbol) {
            lemma_push(before, own, found);
            assert(attribute_names(db, file, receivers[at], symbol, own));
        }
        if exists|i: int|
            0 <= i < init.len() && attribute_names(db, file, #[trigger] init[i], symbol, found) {
            let i = choose|i: int|
                0 <= i < init.len() && attribute_names(
                    db,
                    file,
                    #[trigger] init[i],
                    symbol,
                    found,
                );
            assert(attribute_names(db, file, receivers[i], symbol, found));
        }
        if exists|i: int|
            0 <= i < receivers.len() && attribute_names(
                db,
                file,
                #[trigger] receivers[i],
                symbol,
                found,
            ) {
            let i = choose|i: int|
                0 <= i < receivers.len() && attribute_names(
                    db,
                    file,
                    #[trigger] receivers[i],
                    symbol,
                    found,
                );
            if i < at {
                assert(attribute_names(db, file, init[i], symbol, found));
            } else {
                assert(provenance::receiver_symbol(db, file, receivers.last(), symbol) == Some(
                    found,
                ));
            }
        }
    }
}

/// Whether what a callee names is a symbol of a module, by an import or as an attribute.
pub open spec fn callee_names(db: Db, file: File, callee: Callee, found: ModuleSymbol) -> bool {
    match callee {
        Callee::Name { id, bindings, .. } => exists|i: int|
            0 <= i < bindings@.len() && imports(db, #[trigger] bindings@[i], id@, found),
        Callee::Attribute { receiver: Some(receiver), attr, .. } => exists|owner: Type| #[trigger]
            may_be_of(db, receiver, owner) && attribute_names(db, file, owner, attr@, found),
        _ => false,
    }
}

/// A call leads to a module's symbol exactly if it leads to no definition and no known operation,
/// names the symbol, and the symbol belongs to an installed package of the accelerator.
pub proof fn law_modules_count_where_nothing_else_is_known(
    db: Db,
    file: File,
    callee: Callee,
    found: ModuleSymbol,
)
    ensures
        provenance::call_modules(db, file, callee).contains(found) <==> {
            let state = provenance::collect_callee(db, callee);
            &&& state.targets.len() == 0
            &&& state.known.len() == 0
            &&& found.owner == ModuleOrigin::ThirdParty
            &&& provenance::in_chalk_namespace(found.module)
            &&& callee_names(db, file, callee, found)
        },
{
    match callee {
        Callee::Name { id, bindings, .. } => {
            law_imports_bring_their_symbols(db, bindings@, id@, found);
            let all = provenance::imported_symbols(db, bindings@, id@);
            let installed = |symbol: ModuleSymbol| provenance::is_installed_chalk(symbol);
            lemma_filtered(all, installed, found);
        },
        Callee::Attribute { receiver: Some(receiver), attr, .. } => {
            let receivers = provenance::alternatives(db, receiver);
            lemma_receiver_symbols(db, file, receivers, attr@, found);
            lemma_receivers(db, receiver);
            if callee_names(db, file, callee, found) {
                let owner = choose|owner: Type| #[trigger]
                    may_be_of(db, receiver, owner) && attribute_names(
                        db,
                        file,
                        owner,
                        attr@,
                        found,
                    );
                let i = choose|i: int|
                    0 <= i < receivers.len() && #[trigger] receivers[i] == owner;
                assert(attribute_names(db, file, receivers[i], attr@, found));
            }
        },
        _ => {},
    }
}

proof fn lemma_filtered<A>(list: Seq<A>, keep: spec_fn(A) -> bool, item: A)
    ensures
        list.filter(keep).contains(item) <==> list.contains(item) && keep(item),
    decreases list.len(),
{
    reveal(Seq::filter);
    if list.len() > 0 {
        let init = list.drop_last();
        lemma_filtered(init, keep, item);
        lemma_push(init.filter(keep), list.last(), item);
        lemma_push(init, list.last(), item);
        assert(list =~= init.push(list.last()));
    }
}

/// The accelerator's packages are `chalk` and `chalkdf`, with everything below them; a module whose
/// name merely begins alike is none.
pub proof fn law_namespace_is_two_packages(module: Seq<char>)
    ensures
        provenance::in_chalk_namespace(module) <==> {
            ||| module == "chalk"@
            ||| module == "chalkdf"@
            ||| exists|rest: Seq<char>| module == #[trigger] ("chalk."@ + rest)
            ||| exists|rest: Seq<char>| module == #[trigger] ("chalkdf."@ + rest)
        },
{
    reveal_strlit("chalk");
    reveal_strlit("chalkdf");
    reveal_strlit(".");
    reveal_strlit("chalk.");
    reveal_strlit("chalkdf.");
    assert("chalk"@ + "."@ =~= "chalk."@);
    assert("chalkdf"@ + "."@ =~= "chalkdf."@);
    if "chalk."@.is_prefix_of(module) {
        let rest = module.skip("chalk."@.len() as int);
        assert(module =~= "chalk."@ + rest);
    }
    if "chalkdf."@.is_prefix_of(module) {
        let rest = module.skip("chalkdf."@.len() as int);
        assert(module =~= "chalkdf."@ + rest);
    }
}

// ---------------------------------------------------------------------------------------------
// Definitions
// ---------------------------------------------------------------------------------------------

/// A function directly in a module is a top-level one, one directly in a class a method, and any
/// other a nested one; a class is called as a constructor; nothing else is called by definition.
pub proof fn law_definitions_are_told_by_their_scope(db: Db, definition: Definition)
    ensures
        ({
            let data = db.definition(definition);
            let kind = provenance::definition_kind(db, definition);
            let scopes = data.scopes@;
            &&& data.kind is Function ==> kind == Some(
                if scopes.len() == 0 {
                    CallDefinitionOriginKind::NestedFunction
                } else {
                    match scopes[0] {
                        ScopeNode::Module => CallDefinitionOriginKind::TopLevelFunction,
                        ScopeNode::Class { .. } => CallDefinitionOriginKind::Method,
                        _ => CallDefinitionOriginKind::NestedFunction,
                    }
                },
            )
            &&& data.kind is Class ==> kind == Some(CallDefinitionOriginKind::ClassConstructor)
            &&& data.kind !is Function && data.kind !is Class ==> kind is None
        }),
{
}

proof fn lemma_joined_front(first: Seq<char>, rest: Seq<Seq<char>>)
    requires
        rest.len() > 0,
    ensures
        text::joined(seq![first] + rest, "."@) == first + "."@ + text::joined(rest, "."@),
    decreases rest.len(),
{
    let all = seq![first] + rest;
    assert(all.drop_last() =~= seq![first] + rest.drop_last());
    assert(all.last() == rest.last());
    if rest.len() == 1 {
        assert(all.drop_last() =~= seq![first]);
        assert(text::joined(seq![first], "."@) == first);
    } else {
        lemma_joined_front(first, rest.drop_last());
        assert(text::joined(all, "."@) =~= first + "."@ + text::joined(rest, "."@));
    }
}

proof fn lemma_outer_scope(scopes: Seq<ScopeNode>, outer: ScopeNode)
    ensures
        provenance::scope_components(scopes.push(outer)) == match outer {
            ScopeNode::Class { name } => seq![name@],
            ScopeNode::Function { name } => seq![name@ + ".<locals>"@],
            _ => Seq::empty(),
        } + provenance::scope_components(scopes),
    decreases scopes.len(),
{
    let all = scopes.push(outer);
    let own = match outer {
        ScopeNode::Class { name } => seq![name@],
        ScopeNode::Function { name } => seq![name@ + ".<locals>"@],
        _ => Seq::empty(),
    };
    if scopes.len() == 0 {
        assert(all.drop_first() =~= Seq::empty());
        assert(provenance::scope_components(all.drop_first()) =~= Seq::empty());
        assert(provenance::scope_components(all) =~= own);
        assert(own + provenance::scope_components(scopes) =~= own);
    } else {
        lemma_outer_scope(scopes.drop_first(), outer);
        assert(all.drop_first() =~= scopes.drop_first().push(outer));
        assert(all[0] == scopes[0]);
        assert(provenance::scope_components(all) =~= own + provenance::scope_components(scopes));
    }
}

/// A symbol is qualified by the classes and functions around it, outermost first, with `<locals>`
/// behind a function; a module or any other scope adds nothing.
pub proof fn law_symbols_are_qualified_by_their_scopes(
    scopes: Seq<ScopeNode>,
    outer: ScopeNode,
    symbol: Seq<char>,
)
    ensures
        provenance::qualified_symbol(Seq::empty(), symbol) == symbol,
        ({
            let inner = provenance::qualified_symbol(scopes, symbol);
            provenance::qualified_symbol(scopes.push(outer), symbol) == match outer {
                ScopeNode::Class { name } => name@ + "."@ + inner,
                ScopeNode::Function { name } => name@ + ".<locals>"@ + "."@ + inner,
                _ => inner,
            }
        }),
{
    lemma_outer_scope(scopes, outer);
    let rest = provenance::scope_components(scopes).push(symbol);
    let all = provenance::scope_components(scopes.push(outer)).push(symbol);
    assert(provenance::scope_components(Seq::<ScopeNode>::empty()) =~= Seq::empty());
    assert(Seq::<Seq<char>>::empty().push(symbol) =~= seq![symbol]);
    match outer {
        ScopeNode::Class { name } => {
            assert(all =~= seq![name@] + rest);
            lemma_joined_front(name@, rest);
        },
        ScopeNode::Function { name } => {
            assert(all =~= seq![name@ + ".<locals>"@] + rest);
            lemma_joined_front(name@ + ".<locals>"@, rest);
        },
        _ => {
            assert(all =~= rest);
        },
    }
}

} // verus!

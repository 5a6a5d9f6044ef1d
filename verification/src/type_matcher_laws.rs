//! What holds of every match of a type against a registry type.

use vstd::prelude::*;

use crate::chalk;
use crate::chalk::{ChalkContainerKind, ChalkContainerType, ChalkTypeShape};
use crate::semantic::{Db, Type};
use crate::supported_functions::SupportedTy;
use crate::type_matcher;
use crate::type_matcher::TypeMatch;

verus! {

// ---------------------------------------------------------------------------------------------
// Aggregation
// ---------------------------------------------------------------------------------------------

/// Requirements can be aggregated in any order and grouping, and repeating one changes nothing.
pub proof fn law_all_is_a_semilattice(a: TypeMatch, b: TypeMatch, c: TypeMatch)
    ensures
        a.both(b) == b.both(a),
        a.both(b).both(c) == a.both(b.both(c)),
        a.both(a) == a,
        a.both(TypeMatch::Match) == a,
        a.both(TypeMatch::NoMatch) == TypeMatch::NoMatch,
{
}

/// Alternatives can be aggregated in any order and grouping, and repeating one changes nothing.
pub proof fn law_any_is_a_semilattice(a: TypeMatch, b: TypeMatch, c: TypeMatch)
    ensures
        a.either(b) == b.either(a),
        a.either(b).either(c) == a.either(b.either(c)),
        a.either(a) == a,
        a.either(TypeMatch::NoMatch) == a,
        a.either(TypeMatch::Match) == TypeMatch::Match,
{
}

/// The aggregate of several results depends only on which results there are.
pub proof fn law_aggregates_ignore_order(a: Seq<TypeMatch>, b: Seq<TypeMatch>)
    requires
        forall|result: TypeMatch| #[trigger] a.contains(result) <==> b.contains(result),
    ensures
        TypeMatch::all_of(a) == TypeMatch::all_of(b),
        TypeMatch::any_of(a) == TypeMatch::any_of(b),
{
    assert(a.contains(TypeMatch::Match) == b.contains(TypeMatch::Match));
    assert(a.contains(TypeMatch::NoMatch) == b.contains(TypeMatch::NoMatch));
    assert(a.contains(TypeMatch::Inconclusive) == b.contains(TypeMatch::Inconclusive));
}

// ---------------------------------------------------------------------------------------------
// Open types
// ---------------------------------------------------------------------------------------------

/// A type of which nothing is known never counts as a mismatch, whatever it is matched against.
pub proof fn law_unknown_types_are_inconclusive(
    db: Db,
    limit: nat,
    actual: Type,
    expected: SupportedTy,
)
    requires
        chalk::shape_of(&db, actual) is Dynamic || chalk::shape_of(&db, actual) is Unavailable,
    ensures
        type_matcher::type_match(db, limit, actual, expected) == TypeMatch::Inconclusive,
{
}

/// A type without values matches everything.
pub proof fn law_never_matches_everything(
    db: Db,
    limit: nat,
    actual: Type,
    expected: SupportedTy,
)
    requires
        chalk::shape_of(&db, actual) is Never,
    ensures
        type_matcher::type_match(db, limit, actual, expected) == TypeMatch::Match,
{
}

/// `None` matches exactly the registry types that accept it.
pub proof fn law_none_matches_what_accepts_it(
    db: Db,
    limit: nat,
    actual: Type,
    expected: SupportedTy,
)
    requires
        db.wf(),
        db.has_type(actual),
        db.ty(actual).is_none,
    ensures
        type_matcher::type_match(db, limit, actual, expected) == type_matcher::truth_match(
            expected.takes_none(),
        ),
{
    assert(db.type_wf(db.types@[actual.id as int]));
    let wanted = type_matcher::Wanted::Registry(expected, Seq::<usize>::empty());
    let pair = type_matcher::Pair { actual, wanted: wanted.key() };
    let alone = Set::<type_matcher::Pair>::empty().insert(pair);
    assert(type_matcher::eval_shape(db, limit, actual, wanted, 0, alone, Map::empty())
        == type_matcher::eval_concrete(db, limit, actual, wanted, 0, alone, Map::empty()));
}

/// At the limit nothing is expanded any more: a composed type is left open.
pub proof fn law_limit_leaves_composed_types_open(
    db: Db,
    limit: nat,
    actual: Type,
    wanted: type_matcher::Wanted,
)
    requires
        chalk::shape_of(&db, actual) is Expanded || chalk::shape_of(&db, actual) is Union
            || chalk::shape_of(&db, actual) is Intersection,
    ensures
        type_matcher::eval(
            db,
            limit,
            actual,
            wanted,
            limit,
            Set::empty(),
            Map::empty(),
        ).0 == TypeMatch::Inconclusive,
{
    let pair = type_matcher::Pair { actual, wanted: wanted.key() };
    let alone = Set::<type_matcher::Pair>::empty().insert(pair);
    if let ChalkTypeShape::Expanded(expanded) = chalk::shape_of(&db, actual) {
        assert(type_matcher::eval_shape(db, limit, actual, wanted, limit, alone, Map::empty())
            == type_matcher::descend(db, limit, expanded, wanted, limit, alone, Map::empty()));
    }
}

// ---------------------------------------------------------------------------------------------
// Types without cycles
// ---------------------------------------------------------------------------------------------

/// Whether matching a type looks into another.
pub open spec fn looks_into(db: Db, outer: Type, inner: Type) -> bool {
    ||| match chalk::shape_of(&db, outer) {
        ChalkTypeShape::Expanded(ty) => ty == inner,
        ChalkTypeShape::Union(elements) => elements@.contains(inner),
        ChalkTypeShape::Intersection(intersection) => intersection.positive@.contains(inner) || (
        intersection.top_materialization != outer && intersection.bottom_materialization != outer
            && (intersection.top_materialization == inner || intersection.bottom_materialization
            == inner)),
        _ => false,
    }
    ||| exists|kind: ChalkContainerKind|
        match #[trigger] chalk::container_of(&db, outer, kind) {
            ChalkContainerType::Unary(item) => item == inner,
            ChalkContainerType::Mapping { key, value } => key == inner || value == inner,
            ChalkContainerType::Tuple(tuple) => tuple.elements@.contains(inner),
            _ => false,
        }
}

/// Types can be ranked so that matching only ever looks into types of a lower rank.
pub open spec fn is_acyclic(db: Db, rank: spec_fn(Type) -> nat) -> bool {
    forall|outer: Type, inner: Type| #[trigger]
        looks_into(db, outer, inner) ==> rank(inner) < rank(outer)
}

/// The match on its own: with nothing being matched and nothing known.
pub open spec fn answer(
    db: Db,
    limit: nat,
    actual: Type,
    wanted: type_matcher::Wanted,
    depth: nat,
) -> TypeMatch {
    type_matcher::eval(db, limit, actual, wanted, depth, Set::empty(), Map::empty()).0
}

/// The part of a registry type with an index.
pub open spec fn child(ty: SupportedTy, index: usize) -> Option<SupportedTy> {
    match ty {
        SupportedTy::Counter { items, .. } => Some(*items),
        SupportedTy::FrozenSet { items, .. } => Some(*items),
        SupportedTy::Generator { items, .. } => Some(*items),
        SupportedTy::Iterable { items, .. } => Some(*items),
        SupportedTy::List { items, .. } => Some(*items),
        SupportedTy::SetType { items, .. } => Some(*items),
        SupportedTy::Dict { key_type, value_type, .. } => if index == 0 {
            Some(*key_type)
        } else {
            Some(*value_type)
        },
        SupportedTy::Tuple { items, .. } => if index < items@.len() {
            Some(items@[index as int])
        } else {
            None
        },
        _ => None,
    }
}

/// The part of a registry type at a place.
pub open spec fn at_place(root: SupportedTy, place: Seq<usize>) -> Option<SupportedTy>
    decreases place.len(),
{
    if place.len() == 0 {
        Some(root)
    } else {
        match at_place(root, place.drop_last()) {
            Some(ty) => child(ty, place.last()),
            None => None,
        }
    }
}

/// What is wanted lies where it says within the whole registry type.
pub open spec fn fits(root: SupportedTy, wanted: type_matcher::Wanted) -> bool {
    match wanted {
        type_matcher::Wanted::Registry(ty, place) => at_place(root, place) == Some(ty),
        _ => true,
    }
}

proof fn lemma_part_fits(root: SupportedTy, outer: SupportedTy, place: Seq<usize>, index: usize)
    requires
        at_place(root, place) == Some(outer),
    ensures
        at_place(root, place.push(index)) == child(outer, index),
{
    assert(place.push(index).drop_last() =~= place);
}

/// Every known result is the match on its own.
#[verifier::opaque]
spec fn is_sound(db: Db, limit: nat, root: SupportedTy, memo: type_matcher::Memo) -> bool {
    forall|actual: Type, wanted: type_matcher::Wanted, depth: nat|
        #![trigger answer(db, limit, actual, wanted, depth)]
        {
            let key = type_matcher::MemoKey {
                pair: type_matcher::Pair { actual, wanted: wanted.key() },
                depth,
            };
            fits(root, wanted) && memo.dom().contains(key) ==> memo[key] == answer(
                db,
                limit,
                actual,
                wanted,
                depth,
            )
        }
}

/// Every pair that is being matched has at least a rank.
spec fn ranks_at_least(
    active: Set<type_matcher::Pair>,
    rank: spec_fn(Type) -> nat,
    bound: nat,
) -> bool {
    forall|pair: type_matcher::Pair| #[trigger] active.contains(pair) ==> rank(pair.actual) >= bound
}

/// What all parts of the argument share.
#[verifier::opaque]
spec fn steady(
    db: Db,
    limit: nat,
    root: SupportedTy,
    rank: spec_fn(Type) -> nat,
    bound: nat,
    active: Set<type_matcher::Pair>,
    memo: type_matcher::Memo,
) -> bool {
    is_acyclic(db, rank) && ranks_at_least(active, rank, bound) && is_sound(db, limit, root, memo)
}

proof fn lemma_steady_empty(
    db: Db,
    limit: nat,
    root: SupportedTy,
    rank: spec_fn(Type) -> nat,
    bound: nat,
)
    requires
        is_acyclic(db, rank),
    ensures
        steady(db, limit, root, rank, bound, Set::empty(), Map::empty()),
{
    reveal(is_sound);
    reveal(steady);
}

proof fn lemma_steady_reset(
    db: Db,
    limit: nat,
    root: SupportedTy,
    rank: spec_fn(Type) -> nat,
    bound: nat,
    active: Set<type_matcher::Pair>,
    memo: type_matcher::Memo,
)
    requires
        steady(db, limit, root, rank, bound, active, memo),
    ensures
        steady(db, limit, root, rank, bound, Set::empty(), Map::empty()),
        is_sound(db, limit, root, memo),
{
    reveal(steady);
    lemma_steady_empty(db, limit, root, rank, bound);
}

proof fn lemma_eval(
    db: Db,
    limit: nat,
    root: SupportedTy,
    rank: spec_fn(Type) -> nat,
    bound: nat,
    actual: Type,
    wanted: type_matcher::Wanted,
    depth: nat,
    active: Set<type_matcher::Pair>,
    memo: type_matcher::Memo,
)
    requires
        steady(db, limit, root, rank, bound, active, memo),
        rank(actual) < bound,
        fits(root, wanted),
    ensures
        ({
            let (result, after) = type_matcher::eval(
                db,
                limit,
                actual,
                wanted,
                depth,
                active,
                memo,
            );
            result == answer(db, limit, actual, wanted, depth) && is_sound(db, limit, root, after)
        }),
    decreases limit - depth, 8int, 0int,
{
    let pair = type_matcher::Pair { actual, wanted: wanted.key() };
    let key = type_matcher::MemoKey { pair, depth };
    let own = answer(db, limit, actual, wanted, depth);
    reveal(is_sound);
    reveal(steady);
    if !memo.dom().contains(key) {
        assert(!active.contains(pair));
        lemma_shape(db, limit, root, rank, actual, wanted, depth, active.insert(pair), memo);
        lemma_steady_empty(db, limit, root, rank, rank(actual));
        let alone = Set::<type_matcher::Pair>::empty().insert(pair);
        lemma_shape(db, limit, root, rank, actual, wanted, depth, alone, Map::empty());
        let (result, between) = type_matcher::eval_shape(
            db,
            limit,
            actual,
            wanted,
            depth,
            active.insert(pair),
            memo,
        );
        assert(result == own);
        let after = between.insert(key, result);
        assert forall|a: Type, w: type_matcher::Wanted, d: nat|
            #![trigger answer(db, limit, a, w, d)]
            {
                let k = type_matcher::MemoKey {
                    pair: type_matcher::Pair { actual: a, wanted: w.key() },
                    depth: d,
                };
                fits(root, w) && after.dom().contains(k) ==> after[k] == answer(db, limit, a, w, d)
            } by {
            let k = type_matcher::MemoKey {
                pair: type_matcher::Pair { actual: a, wanted: w.key() },
                depth: d,
            };
            if fits(root, w) && k == key {
                assert(w.key() == wanted.key());
                assert(w == wanted);
            }
        }
    }
}

proof fn lemma_shape(
    db: Db,
    limit: nat,
    root: SupportedTy,
    rank: spec_fn(Type) -> nat,
    actual: Type,
    wanted: type_matcher::Wanted,
    depth: nat,
    active: Set<type_matcher::Pair>,
    memo: type_matcher::Memo,
)
    requires
        steady(db, limit, root, rank, rank(actual), active, memo),
        fits(root, wanted),
    ensures
        ({
            let (result, after) = type_matcher::eval_shape(
                db,
                limit,
                actual,
                wanted,
                depth,
                active,
                memo,
            );
            result == type_matcher::eval_shape(
                db,
                limit,
                actual,
                wanted,
                depth,
                Set::empty(),
                Map::empty(),
            ).0 && is_sound(db, limit, root, after)
        }),
    decreases limit - depth, 7int, 0int,
{
    reveal(steady);
    let bound = rank(actual);
    lemma_steady_empty(db, limit, root, rank, bound);
    match chalk::shape_of(&db, actual) {
        ChalkTypeShape::Expanded(expanded) => {
            assert(looks_into(db, actual, expanded));
            if depth < limit {
                lemma_eval(
                    db,
                    limit,
                    root,
                    rank,
                    bound,
                    expanded,
                    wanted,
                    depth + 1,
                    active,
                    memo,
                );
            }
        },
        ChalkTypeShape::Union(elements) => {
            if depth < limit {
                let tasks = type_matcher::against(elements@, wanted);
                assert forall|i: int| 0 <= i < tasks.len() implies rank((#[trigger] tasks[i]).0)
                    < bound && fits(root, tasks[i].1) by {
                    assert(elements@.contains(elements@[i]));
                    assert(looks_into(db, actual, elements@[i]));
                }
                lemma_each(db, limit, root, rank, bound, tasks, depth + 1, active, memo);
                lemma_each(
                    db,
                    limit,
                    root,
                    rank,
                    bound,
                    tasks,
                    depth + 1,
                    Set::empty(),
                    Map::empty(),
                );
            }
        },
        ChalkTypeShape::Intersection(intersection) => {
            if depth < limit {
                let types = intersection.positive@;
                assert forall|i: int| 0 <= i < types.len() implies rank(#[trigger] types[i])
                    < bound by {
                    assert(types.contains(types[i]));
                    assert(looks_into(db, actual, types[i]));
                }
                lemma_some(db, limit, root, rank, bound, types, wanted, depth + 1, active, memo);
                lemma_some(
                    db,
                    limit,
                    root,
                    rank,
                    bound,
                    types,
                    wanted,
                    depth + 1,
                    Set::empty(),
                    Map::empty(),
                );
                let top = intersection.top_materialization;
                let bottom = intersection.bottom_materialization;
                if top != actual && bottom != actual {
                    assert(looks_into(db, actual, top));
                    assert(looks_into(db, actual, bottom));
                    let first = type_matcher::eval_some(
                        db,
                        limit,
                        types,
                        wanted,
                        depth + 1,
                        active,
                        memo,
                    ).1;
                    let plain = type_matcher::eval_some(
                        db,
                        limit,
                        types,
                        wanted,
                        depth + 1,
                        Set::empty(),
                        Map::empty(),
                    ).1;
                    lemma_eval(
                        db,
                        limit,
                        root,
                        rank,
                        bound,
                        top,
                        wanted,
                        depth + 1,
                        active,
                        first,
                    );
                    lemma_eval(
                        db,
                        limit,
                        root,
                        rank,
                        bound,
                        top,
                        wanted,
                        depth + 1,
                        Set::empty(),
                        plain,
                    );
                    let second = type_matcher::eval(
                        db,
                        limit,
                        top,
                        wanted,
                        depth + 1,
                        active,
                        first,
                    ).1;
                    let simple = type_matcher::eval(
                        db,
                        limit,
                        top,
                        wanted,
                        depth + 1,
                        Set::empty(),
                        plain,
                    ).1;
                    lemma_eval(
                        db,
                        limit,
                        root,
                        rank,
                        bound,
                        bottom,
                        wanted,
                        depth + 1,
                        active,
                        second,
                    );
                    lemma_eval(
                        db,
                        limit,
                        root,
                        rank,
                        bound,
                        bottom,
                        wanted,
                        depth + 1,
                        Set::empty(),
                        simple,
                    );
                }
            }
        },
        ChalkTypeShape::Concrete => {
            lemma_concrete(db, limit, root, rank, actual, wanted, depth, active, memo);
        },
        _ => {},
    }
}

proof fn lemma_each(
    db: Db,
    limit: nat,
    root: SupportedTy,
    rank: spec_fn(Type) -> nat,
    bound: nat,
    tasks: Seq<(Type, type_matcher::Wanted)>,
    depth: nat,
    active: Set<type_matcher::Pair>,
    memo: type_matcher::Memo,
)
    requires
        steady(db, limit, root, rank, bound, active, memo),
        forall|i: int|
            0 <= i < tasks.len() ==> rank((#[trigger] tasks[i]).0) < bound && fits(
                root,
                tasks[i].1,
            ),
    ensures
        ({
            let (results, after) = type_matcher::eval_each(db, limit, tasks, depth, active, memo);
            results =~= Seq::new(
                tasks.len(),
                |i: int| answer(db, limit, tasks[i].0, tasks[i].1, depth),
            ) && is_sound(db, limit, root, after)
        }),
    decreases limit - depth, 9int, tasks.len(),
{
    reveal(steady);
    if tasks.len() > 0 {
        let init = tasks.drop_last();
        assert forall|i: int| 0 <= i < init.len() implies rank((#[trigger] init[i]).0) < bound
            && fits(root, init[i].1) by {
            assert(init[i] == tasks[i]);
        }
        lemma_each(db, limit, root, rank, bound, init, depth, active, memo);
        let before = type_matcher::eval_each(db, limit, init, depth, active, memo).1;
        let last = tasks[tasks.len() - 1];
        lemma_eval(db, limit, root, rank, bound, last.0, last.1, depth, active, before);
    }
}

proof fn lemma_some(
    db: Db,
    limit: nat,
    root: SupportedTy,
    rank: spec_fn(Type) -> nat,
    bound: nat,
    types: Seq<Type>,
    wanted: type_matcher::Wanted,
    depth: nat,
    active: Set<type_matcher::Pair>,
    memo: type_matcher::Memo,
)
    requires
        steady(db, limit, root, rank, bound, active, memo),
        fits(root, wanted),
        forall|i: int| 0 <= i < types.len() ==> rank(#[trigger] types[i]) < bound,
    ensures
        ({
            let (found, after) = type_matcher::eval_some(
                db,
                limit,
                types,
                wanted,
                depth,
                active,
                memo,
            );
            found == (exists|i: int|
                0 <= i < types.len() && answer(db, limit, #[trigger] types[i], wanted, depth)
                    == TypeMatch::Match) && is_sound(db, limit, root, after)
        }),
    decreases limit - depth, 9int, types.len(),
{
    reveal(steady);
    if types.len() > 0 {
        let init = types.drop_last();
        assert forall|i: int| 0 <= i < init.len() implies rank(#[trigger] init[i]) < bound by {
            assert(init[i] == types[i]);
        }
        lemma_some(db, limit, root, rank, bound, init, wanted, depth, active, memo);
        let (found, before) = type_matcher::eval_some(
            db,
            limit,
            init,
            wanted,
            depth,
            active,
            memo,
        );
        let last = types[types.len() - 1];
        if found {
            let i = choose|i: int|
                0 <= i < init.len() && answer(db, limit, #[trigger] init[i], wanted, depth)
                    == TypeMatch::Match;
            assert(types[i] == init[i]);
        } else {
            lemma_eval(db, limit, root, rank, bound, last, wanted, depth, active, before);
            if answer(db, limit, last, wanted, depth) != TypeMatch::Match {
                assert forall|i: int| 0 <= i < types.len() implies answer(
                    db,
                    limit,
                    #[trigger] types[i],
                    wanted,
                    depth,
                ) != TypeMatch::Match by {
                    if i < init.len() {
                        assert(init[i] == types[i]);
                    }
                }
            }
        }
    }
}

/// One level deeper, the match is the one on its own.
proof fn lemma_descend(
    db: Db,
    limit: nat,
    root: SupportedTy,
    rank: spec_fn(Type) -> nat,
    bound: nat,
    actual: Type,
    wanted: type_matcher::Wanted,
    depth: nat,
    active: Set<type_matcher::Pair>,
    memo: type_matcher::Memo,
)
    requires
        steady(db, limit, root, rank, bound, active, memo),
        rank(actual) < bound,
        fits(root, wanted),
    ensures
        ({
            let (result, after) = type_matcher::descend(
                db,
                limit,
                actual,
                wanted,
                depth,
                active,
                memo,
            );
            result == (if depth < limit {
                answer(db, limit, actual, wanted, depth + 1)
            } else {
                TypeMatch::Inconclusive
            }) && is_sound(db, limit, root, after)
        }),
    decreases limit - depth, 0int, 0int,
{
    reveal(steady);
    if depth < limit {
        lemma_eval(db, limit, root, rank, bound, actual, wanted, depth + 1, active, memo);
    }
}

proof fn lemma_concrete(
    db: Db,
    limit: nat,
    root: SupportedTy,
    rank: spec_fn(Type) -> nat,
    actual: Type,
    wanted: type_matcher::Wanted,
    depth: nat,
    active: Set<type_matcher::Pair>,
    memo: type_matcher::Memo,
)
    requires
        steady(db, limit, root, rank, rank(actual), active, memo),
        fits(root, wanted),
    ensures
        ({
            let (result, after) = type_matcher::eval_concrete(
                db,
                limit,
                actual,
                wanted,
                depth,
                active,
                memo,
            );
            result == type_matcher::eval_concrete(
                db,
                limit,
                actual,
                wanted,
                depth,
                Set::empty(),
                Map::empty(),
            ).0 && is_sound(db, limit, root, after)
        }),
    decreases limit - depth, 6int, 0int,
{
    lemma_steady_reset(db, limit, root, rank, rank(actual), active, memo);
    match wanted {
        type_matcher::Wanted::JsonValue => {
            lemma_json(db, limit, root, rank, actual, depth, active, memo);
        },
        type_matcher::Wanted::JsonStringKey => {},
        type_matcher::Wanted::Registry(ty, place) => {
            if !db.ty(actual).is_none {
                lemma_registry(db, limit, root, rank, actual, ty, place, depth, active, memo);
            }
        },
    }
}

/// Registry types whose parts are matched too.
spec fn has_parts(ty: SupportedTy) -> bool {
    ty is Counter || ty is FrozenSet || ty is Generator || ty is Iterable || ty is List
        || ty is SetType || ty is Dict || ty is Json || ty is SubClassOf || ty is Tuple
}

/// The container that a registry type with one item type names.
spec fn items_kind(ty: SupportedTy) -> Option<(ChalkContainerKind, SupportedTy)> {
    match ty {
        SupportedTy::Counter { items, .. } => Some((ChalkContainerKind::Counter, *items)),
        SupportedTy::FrozenSet { items, .. } => Some((ChalkContainerKind::FrozenSet, *items)),
        SupportedTy::Generator { items, .. } => Some((ChalkContainerKind::Generator, *items)),
        SupportedTy::Iterable { items, .. } => Some((ChalkContainerKind::Iterable, *items)),
        SupportedTy::List { items, .. } => Some((ChalkContainerKind::List, *items)),
        SupportedTy::SetType { items, .. } => Some((ChalkContainerKind::SetOf, *items)),
        _ => None,
    }
}

proof fn lemma_registry_leaf(
    db: Db,
    limit: nat,
    actual: Type,
    ty: SupportedTy,
    place: Seq<usize>,
    depth: nat,
    active: Set<type_matcher::Pair>,
    memo: type_matcher::Memo,
)
    requires
        !has_parts(ty),
    ensures
        type_matcher::eval_registry(db, limit, actual, ty, place, depth, active, memo) == (
            type_matcher::eval_registry(
                db,
                limit,
                actual,
                ty,
                place,
                depth,
                Set::empty(),
                Map::empty(),
            ).0,
            memo,
        ),
{
}

proof fn lemma_registry_items(
    db: Db,
    limit: nat,
    actual: Type,
    ty: SupportedTy,
    kind: ChalkContainerKind,
    item: SupportedTy,
    place: Seq<usize>,
    depth: nat,
    active: Set<type_matcher::Pair>,
    memo: type_matcher::Memo,
)
    requires
        items_kind(ty) == Some((kind, item)),
    ensures
        type_matcher::eval_registry(db, limit, actual, ty, place, depth, active, memo)
            == type_matcher::eval_items(
            db,
            limit,
            actual,
            kind,
            item,
            place,
            depth,
            active,
            memo,
        ),
{
}

proof fn lemma_category(
    db: Db,
    limit: nat,
    root: SupportedTy,
    rank: spec_fn(Type) -> nat,
    actual: Type,
    name: Seq<char>,
    depth: nat,
    active: Set<type_matcher::Pair>,
    memo: type_matcher::Memo,
)
    requires
        steady(db, limit, root, rank, rank(actual), active, memo),
    ensures
        ({
            let (result, after) = type_matcher::eval_category(
                db,
                limit,
                actual,
                name,
                depth,
                active,
                memo,
            );
            result == type_matcher::eval_category(
                db,
                limit,
                actual,
                name,
                depth,
                Set::empty(),
                Map::empty(),
            ).0 && is_sound(db, limit, root, after)
        }),
    decreases limit - depth, 3int, 0int,
{
    lemma_steady_reset(db, limit, root, rank, rank(actual), active, memo);
    lemma_json(db, limit, root, rank, actual, depth, active, memo);
}

proof fn lemma_dict(
    db: Db,
    limit: nat,
    root: SupportedTy,
    rank: spec_fn(Type) -> nat,
    actual: Type,
    key_type: SupportedTy,
    value_type: SupportedTy,
    place: Seq<usize>,
    depth: nat,
    active: Set<type_matcher::Pair>,
    memo: type_matcher::Memo,
)
    requires
        steady(db, limit, root, rank, rank(actual), active, memo),
        fits(root, type_matcher::part(key_type, place, 0)),
        fits(root, type_matcher::part(value_type, place, 1)),
    ensures
        ({
            let (result, after) = type_matcher::eval_mapping(
                db,
                limit,
                actual,
                key_type,
                value_type,
                place,
                depth,
                active,
                memo,
            );
            result == type_matcher::eval_mapping(
                db,
                limit,
                actual,
                key_type,
                value_type,
                place,
                depth,
                Set::empty(),
                Map::empty(),
            ).0 && is_sound(db, limit, root, after)
        }),
    decreases limit - depth, 2int, 0int,
{
    lemma_steady_reset(db, limit, root, rank, rank(actual), active, memo);
    let keys = type_matcher::part(key_type, place, 0);
    let values = type_matcher::part(value_type, place, 1);
    lemma_mapping(db, limit, root, rank, actual, keys, values, depth, active, memo);
    lemma_mapping(
        db,
        limit,
        root,
        rank,
        actual,
        keys,
        values,
        depth,
        Set::empty(),
        Map::empty(),
    );
}

proof fn lemma_registry_dict(
    db: Db,
    limit: nat,
    root: SupportedTy,
    rank: spec_fn(Type) -> nat,
    actual: Type,
    ty: SupportedTy,
    place: Seq<usize>,
    depth: nat,
    active: Set<type_matcher::Pair>,
    memo: type_matcher::Memo,
)
    requires
        steady(db, limit, root, rank, rank(actual), active, memo),
        at_place(root, place) == Some(ty),
        ty is Dict,
    ensures
        ({
            let (result, after) = type_matcher::eval_registry(
                db,
                limit,
                actual,
                ty,
                place,
                depth,
                active,
                memo,
            );
            result == type_matcher::eval_registry(
                db,
                limit,
                actual,
                ty,
                place,
                depth,
                Set::empty(),
                Map::empty(),
            ).0 && is_sound(db, limit, root, after)
        }),
    decreases limit - depth, 4int, 0int,
{
    if let SupportedTy::Dict { key_type, value_type, .. } = ty {
        lemma_part_fits(root, ty, place, 0);
        lemma_part_fits(root, ty, place, 1);
        lemma_dict(
            db,
            limit,
            root,
            rank,
            actual,
            *key_type,
            *value_type,
            place,
            depth,
            active,
            memo,
        );
    }
}

proof fn lemma_registry_json(
    db: Db,
    limit: nat,
    root: SupportedTy,
    rank: spec_fn(Type) -> nat,
    actual: Type,
    ty: SupportedTy,
    place: Seq<usize>,
    depth: nat,
    active: Set<type_matcher::Pair>,
    memo: type_matcher::Memo,
)
    requires
        steady(db, limit, root, rank, rank(actual), active, memo),
        at_place(root, place) == Some(ty),
        ty is Json,
    ensures
        ({
            let (result, after) = type_matcher::eval_registry(
                db,
                limit,
                actual,
                ty,
                place,
                depth,
                active,
                memo,
            );
            result == type_matcher::eval_registry(
                db,
                limit,
                actual,
                ty,
                place,
                depth,
                Set::empty(),
                Map::empty(),
            ).0 && is_sound(db, limit, root, after)
        }),
    decreases limit - depth, 4int, 0int,
{
    lemma_json(db, limit, root, rank, actual, depth, active, memo);
}

proof fn lemma_registry_category(
    db: Db,
    limit: nat,
    root: SupportedTy,
    rank: spec_fn(Type) -> nat,
    actual: Type,
    ty: SupportedTy,
    place: Seq<usize>,
    depth: nat,
    active: Set<type_matcher::Pair>,
    memo: type_matcher::Memo,
)
    requires
        steady(db, limit, root, rank, rank(actual), active, memo),
        at_place(root, place) == Some(ty),
        ty is SubClassOf,
    ensures
        ({
            let (result, after) = type_matcher::eval_registry(
                db,
                limit,
                actual,
                ty,
                place,
                depth,
                active,
                memo,
            );
            result == type_matcher::eval_registry(
                db,
                limit,
                actual,
                ty,
                place,
                depth,
                Set::empty(),
                Map::empty(),
            ).0 && is_sound(db, limit, root, after)
        }),
    decreases limit - depth, 4int, 0int,
{
    if let SupportedTy::SubClassOf { ty_name, .. } = ty {
        lemma_category(db, limit, root, rank, actual, ty_name@, depth, active, memo);
    }
}

proof fn lemma_registry_tuple(
    db: Db,
    limit: nat,
    root: SupportedTy,
    rank: spec_fn(Type) -> nat,
    actual: Type,
    ty: SupportedTy,
    place: Seq<usize>,
    depth: nat,
    active: Set<type_matcher::Pair>,
    memo: type_matcher::Memo,
)
    requires
        steady(db, limit, root, rank, rank(actual), active, memo),
        at_place(root, place) == Some(ty),
        ty is Tuple,
    ensures
        ({
            let (result, after) = type_matcher::eval_registry(
                db,
                limit,
                actual,
                ty,
                place,
                depth,
                active,
                memo,
            );
            result == type_matcher::eval_registry(
                db,
                limit,
                actual,
                ty,
                place,
                depth,
                Set::empty(),
                Map::empty(),
            ).0 && is_sound(db, limit, root, after)
        }),
    decreases limit - depth, 4int, 0int,
{
    if let SupportedTy::Tuple { items, is_variable, .. } = ty {
        assert(items@.len() == items.len());
        lemma_tuple(
            db,
            limit,
            root,
            rank,
            actual,
            ty,
            items@,
            is_variable,
            place,
            depth,
            active,
            memo,
        );
    }
}

proof fn lemma_registry_item(
    db: Db,
    limit: nat,
    root: SupportedTy,
    rank: spec_fn(Type) -> nat,
    actual: Type,
    ty: SupportedTy,
    place: Seq<usize>,
    depth: nat,
    active: Set<type_matcher::Pair>,
    memo: type_matcher::Memo,
)
    requires
        steady(db, limit, root, rank, rank(actual), active, memo),
        at_place(root, place) == Some(ty),
        items_kind(ty) is Some,
    ensures
        ({
            let (result, after) = type_matcher::eval_registry(
                db,
                limit,
                actual,
                ty,
                place,
                depth,
                active,
                memo,
            );
            result == type_matcher::eval_registry(
                db,
                limit,
                actual,
                ty,
                place,
                depth,
                Set::empty(),
                Map::empty(),
            ).0 && is_sound(db, limit, root, after)
        }),
    decreases limit - depth, 4int, 0int,
{
    let none = Set::<type_matcher::Pair>::empty();
    let empty = Map::<type_matcher::MemoKey, TypeMatch>::empty();
    if let Some((kind, item)) = items_kind(ty) {
        lemma_part_fits(root, ty, place, 0);
        lemma_registry_items(db, limit, actual, ty, kind, item, place, depth, active, memo);
        lemma_registry_items(db, limit, actual, ty, kind, item, place, depth, none, empty);
        lemma_items(db, limit, root, rank, actual, kind, item, place, depth, active, memo);
    }
}

proof fn lemma_registry(
    db: Db,
    limit: nat,
    root: SupportedTy,
    rank: spec_fn(Type) -> nat,
    actual: Type,
    ty: SupportedTy,
    place: Seq<usize>,
    depth: nat,
    active: Set<type_matcher::Pair>,
    memo: type_matcher::Memo,
)
    requires
        steady(db, limit, root, rank, rank(actual), active, memo),
        at_place(root, place) == Some(ty),
    ensures
        ({
            let (result, after) = type_matcher::eval_registry(
                db,
                limit,
                actual,
                ty,
                place,
                depth,
                active,
                memo,
            );
            result == type_matcher::eval_registry(
                db,
                limit,
                actual,
                ty,
                place,
                depth,
                Set::empty(),
                Map::empty(),
            ).0 && is_sound(db, limit, root, after)
        }),
    decreases limit - depth, 5int, 0int,
{
    if !has_parts(ty) {
        lemma_steady_reset(db, limit, root, rank, rank(actual), active, memo);
        lemma_registry_leaf(db, limit, actual, ty, place, depth, active, memo);
    } else if ty is Dict {
        lemma_registry_dict(db, limit, root, rank, actual, ty, place, depth, active, memo);
    } else if ty is Json {
        lemma_registry_json(db, limit, root, rank, actual, ty, place, depth, active, memo);
    } else if ty is SubClassOf {
        lemma_registry_category(db, limit, root, rank, actual, ty, place, depth, active, memo);
    } else if ty is Tuple {
        lemma_registry_tuple(db, limit, root, rank, actual, ty, place, depth, active, memo);
    } else {
        lemma_registry_item(db, limit, root, rank, actual, ty, place, depth, active, memo);
    }
}

proof fn lemma_items(
    db: Db,
    limit: nat,
    root: SupportedTy,
    rank: spec_fn(Type) -> nat,
    actual: Type,
    kind: ChalkContainerKind,
    item: SupportedTy,
    place: Seq<usize>,
    depth: nat,
    active: Set<type_matcher::Pair>,
    memo: type_matcher::Memo,
)
    requires
        steady(db, limit, root, rank, rank(actual), active, memo),
        fits(root, type_matcher::part(item, place, 0)),
    ensures
        ({
            let (result, after) = type_matcher::eval_items(
                db,
                limit,
                actual,
                kind,
                item,
                place,
                depth,
                active,
                memo,
            );
            result == type_matcher::eval_items(
                db,
                limit,
                actual,
                kind,
                item,
                place,
                depth,
                Set::empty(),
                Map::empty(),
            ).0 && is_sound(db, limit, root, after)
        }),
    decreases limit - depth, 1int, 0int,
{
    reveal(steady);
    lemma_steady_empty(db, limit, root, rank, rank(actual));
    match chalk::container_of(&db, actual, kind) {
        ChalkContainerType::Unary(held) => {
            let wanted = type_matcher::part(item, place, 0);
            assert(looks_into(db, actual, held));
            lemma_descend(
                db,
                limit,
                root,
                rank,
                rank(actual),
                held,
                wanted,
                depth,
                active,
                memo,
            );
            lemma_descend(
                db,
                limit,
                root,
                rank,
                rank(actual),
                held,
                wanted,
                depth,
                Set::empty(),
                Map::empty(),
            );
        },
        _ => {},
    }
}

/// What a match one level deeper gives on its own.
spec fn below(
    db: Db,
    limit: nat,
    actual: Type,
    wanted: type_matcher::Wanted,
    depth: nat,
) -> TypeMatch {
    if depth < limit {
        answer(db, limit, actual, wanted, depth + 1)
    } else {
        TypeMatch::Inconclusive
    }
}

/// The keys and values of a mapping are matched on their own.
proof fn lemma_mapping(
    db: Db,
    limit: nat,
    root: SupportedTy,
    rank: spec_fn(Type) -> nat,
    actual: Type,
    key_wanted: type_matcher::Wanted,
    value_wanted: type_matcher::Wanted,
    depth: nat,
    active: Set<type_matcher::Pair>,
    memo: type_matcher::Memo,
)
    requires
        steady(db, limit, root, rank, rank(actual), active, memo),
        fits(root, key_wanted),
        fits(root, value_wanted),
    ensures
        chalk::container_of(&db, actual, ChalkContainerKind::Dict) matches
            ChalkContainerType::Mapping { key, value } ==> ({
            let (keys, first) = type_matcher::descend(
                db,
                limit,
                key,
                key_wanted,
                depth,
                active,
                memo,
            );
            let (values, second) = type_matcher::descend(
                db,
                limit,
                value,
                value_wanted,
                depth,
                active,
                first,
            );
            &&& keys == below(db, limit, key, key_wanted, depth)
            &&& values == below(db, limit, value, value_wanted, depth)
            &&& is_sound(db, limit, root, second)
        }),
    decreases limit - depth, 1int, 0int,
{
    reveal(steady);
    match chalk::container_of(&db, actual, ChalkContainerKind::Dict) {
        ChalkContainerType::Mapping { key, value } => {
            assert(looks_into(db, actual, key));
            assert(looks_into(db, actual, value));
            lemma_descend(
                db,
                limit,
                root,
                rank,
                rank(actual),
                key,
                key_wanted,
                depth,
                active,
                memo,
            );
            let first = type_matcher::descend(
                db,
                limit,
                key,
                key_wanted,
                depth,
                active,
                memo,
            ).1;
            lemma_descend(
                db,
                limit,
                root,
                rank,
                rank(actual),
                value,
                value_wanted,
                depth,
                active,
                first,
            );
        },
        _ => {},
    }
}

proof fn lemma_tuple(
    db: Db,
    limit: nat,
    root: SupportedTy,
    rank: spec_fn(Type) -> nat,
    actual: Type,
    ty: SupportedTy,
    items: Seq<SupportedTy>,
    is_variable: bool,
    place: Seq<usize>,
    depth: nat,
    active: Set<type_matcher::Pair>,
    memo: type_matcher::Memo,
)
    requires
        steady(db, limit, root, rank, rank(actual), active, memo),
        at_place(root, place) == Some(ty),
        ty matches SupportedTy::Tuple { items: held, .. } && held@ == items,
        items.len() <= usize::MAX,
    ensures
        ({
            let (result, after) = type_matcher::eval_tuple(
                db,
                limit,
                actual,
                items,
                is_variable,
                place,
                depth,
                active,
                memo,
            );
            result == type_matcher::eval_tuple(
                db,
                limit,
                actual,
                items,
                is_variable,
                place,
                depth,
                Set::empty(),
                Map::empty(),
            ).0 && is_sound(db, limit, root, after)
        }),
    decreases limit - depth, 1int, 0int,
{
    reveal(steady);
    let bound = rank(actual);
    lemma_steady_empty(db, limit, root, rank, bound);
    match chalk::container_of(&db, actual, ChalkContainerKind::Tuple) {
        ChalkContainerType::Tuple(tuple) => {
            let elements = tuple.elements@;
            assert forall|i: int| 0 <= i < elements.len() implies rank(#[trigger] elements[i])
                < bound by {
                assert(elements.contains(elements[i]));
                assert(looks_into(db, actual, elements[i]));
            }
            if depth < limit {
                if is_variable {
                    if items.len() > 0 {
                        lemma_part_fits(root, ty, place, 0);
                        let tasks = type_matcher::against(
                            elements,
                            type_matcher::part(items[0], place, 0),
                        );
                        assert forall|i: int| 0 <= i < tasks.len() implies rank(
                            (#[trigger] tasks[i]).0,
                        ) < bound && fits(root, tasks[i].1) by {
                            assert(tasks[i].0 == elements[i]);
                        }
                        lemma_each(db, limit, root, rank, bound, tasks, depth + 1, active, memo);
                        lemma_each(
                            db,
                            limit,
                            root,
                            rank,
                            bound,
                            tasks,
                            depth + 1,
                            Set::empty(),
                            Map::empty(),
                        );
                    }
                } else if !tuple.is_variable && elements.len() == items.len() {
                    let tasks = type_matcher::pairwise(elements, items, place);
                    assert forall|i: int| 0 <= i < tasks.len() implies rank(
                        (#[trigger] tasks[i]).0,
                    ) < bound && fits(root, tasks[i].1) by {
                        assert(tasks[i].0 == elements[i]);
                        lemma_part_fits(root, ty, place, i as usize);
                    }
                    lemma_each(db, limit, root, rank, bound, tasks, depth + 1, active, memo);
                    lemma_each(
                        db,
                        limit,
                        root,
                        rank,
                        bound,
                        tasks,
                        depth + 1,
                        Set::empty(),
                        Map::empty(),
                    );
                }
            }
        },
        _ => {},
    }
}

proof fn lemma_json(
    db: Db,
    limit: nat,
    root: SupportedTy,
    rank: spec_fn(Type) -> nat,
    actual: Type,
    depth: nat,
    active: Set<type_matcher::Pair>,
    memo: type_matcher::Memo,
)
    requires
        steady(db, limit, root, rank, rank(actual), active, memo),
    ensures
        ({
            let (result, after) = type_matcher::eval_json(db, limit, actual, depth, active, memo);
            result == type_matcher::eval_json(
                db,
                limit,
                actual,
                depth,
                Set::empty(),
                Map::empty(),
            ).0 && is_sound(db, limit, root, after)
        }),
    decreases limit - depth, 2int, 0int,
{
    reveal(steady);
    lemma_steady_empty(db, limit, root, rank, rank(actual));
    lemma_json_list(db, limit, root, rank, actual, depth, active, memo);
    lemma_json_list(db, limit, root, rank, actual, depth, Set::empty(), Map::empty());
    let first = json_list(db, limit, actual, depth, active, memo).1;
    let plain = json_list(db, limit, actual, depth, Set::empty(), Map::empty()).1;
    lemma_mapping(
        db,
        limit,
        root,
        rank,
        actual,
        type_matcher::Wanted::JsonStringKey,
        type_matcher::Wanted::JsonValue,
        depth,
        active,
        first,
    );
    lemma_mapping(
        db,
        limit,
        root,
        rank,
        actual,
        type_matcher::Wanted::JsonStringKey,
        type_matcher::Wanted::JsonValue,
        depth,
        Set::empty(),
        plain,
    );
}

/// The list half of a JSON match.
spec fn json_list(
    db: Db,
    limit: nat,
    actual: Type,
    depth: nat,
    active: Set<type_matcher::Pair>,
    memo: type_matcher::Memo,
) -> (TypeMatch, type_matcher::Memo) {
    match chalk::container_of(&db, actual, ChalkContainerKind::List) {
        ChalkContainerType::Unary(item) => type_matcher::descend(
            db,
            limit,
            item,
            type_matcher::Wanted::JsonValue,
            depth,
            active,
            memo,
        ),
        ChalkContainerType::Unavailable => (TypeMatch::Inconclusive, memo),
        _ => (TypeMatch::NoMatch, memo),
    }
}

proof fn lemma_json_list(
    db: Db,
    limit: nat,
    root: SupportedTy,
    rank: spec_fn(Type) -> nat,
    actual: Type,
    depth: nat,
    active: Set<type_matcher::Pair>,
    memo: type_matcher::Memo,
)
    requires
        steady(db, limit, root, rank, rank(actual), active, memo),
    ensures
        is_sound(db, limit, root, json_list(db, limit, actual, depth, active, memo).1),
        json_list(db, limit, actual, depth, active, memo).0 == (match chalk::container_of(
            &db,
            actual,
            ChalkContainerKind::List,
        ) {
            ChalkContainerType::Unary(item) => below(
                db,
                limit,
                item,
                type_matcher::Wanted::JsonValue,
                depth,
            ),
            ChalkContainerType::Unavailable => TypeMatch::Inconclusive,
            _ => TypeMatch::NoMatch,
        }),
    decreases limit - depth, 1int, 0int,
{
    reveal(steady);
    match chalk::container_of(&db, actual, ChalkContainerKind::List) {
        ChalkContainerType::Unary(item) => {
            assert(looks_into(db, actual, item));
            lemma_descend(
                db,
                limit,
                root,
                rank,
                rank(actual),
                item,
                type_matcher::Wanted::JsonValue,
                depth,
                active,
                memo,
            );
        },
        _ => {},
    }
}

/// Where types have no cycles, a union matches exactly if every element does, each on its own: what
/// was matched before and what is being matched make no difference.
pub proof fn law_union_matches_elementwise(
    db: Db,
    limit: nat,
    rank: spec_fn(Type) -> nat,
    actual: Type,
    expected: SupportedTy,
)
    requires
        is_acyclic(db, rank),
        limit > 0,
        chalk::shape_of(&db, actual) is Union,
    ensures
        chalk::shape_of(&db, actual) matches ChalkTypeShape::Union(elements)
            && type_matcher::type_match(db, limit, actual, expected) == TypeMatch::all_of(
            Seq::new(
                elements@.len(),
                |i: int|
                    answer(
                        db,
                        limit,
                        elements@[i],
                        type_matcher::Wanted::Registry(expected, Seq::empty()),
                        1,
                    ),
            ),
        ),
{
    reveal(steady);
    let wanted = type_matcher::Wanted::Registry(expected, Seq::<usize>::empty());
    match chalk::shape_of(&db, actual) {
        ChalkTypeShape::Union(elements) => {
            let pair = type_matcher::Pair { actual, wanted: wanted.key() };
            let alone = Set::<type_matcher::Pair>::empty().insert(pair);
            let bound = rank(actual);
            let tasks = type_matcher::against(elements@, wanted);
            assert forall|i: int| 0 <= i < tasks.len() implies rank((#[trigger] tasks[i]).0) < bound
                && fits(expected, tasks[i].1) by {
                assert(elements@.contains(elements@[i]));
                assert(looks_into(db, actual, elements@[i]));
            }
            lemma_steady_empty(db, limit, expected, rank, bound);
            lemma_each(db, limit, expected, rank, bound, tasks, 1, alone, Map::empty());
            let wanted_results = Seq::new(
                elements@.len(),
                |i: int| answer(db, limit, elements@[i], wanted, 1),
            );
            assert(type_matcher::eval_each(db, limit, tasks, 1, alone, Map::empty()).0
                =~= wanted_results);
        },
        _ => {},
    }
}

/// Where types have no cycles, the order of a union's elements makes no difference.
pub proof fn law_union_order_is_irrelevant(
    db: Db,
    limit: nat,
    rank: spec_fn(Type) -> nat,
    a: Type,
    b: Type,
    expected: SupportedTy,
)
    requires
        is_acyclic(db, rank),
        limit > 0,
        chalk::shape_of(&db, a) matches ChalkTypeShape::Union(left) && chalk::shape_of(&db, b)
            matches ChalkTypeShape::Union(right) && forall|ty: Type| #[trigger]
            left@.contains(ty) <==> right@.contains(ty),
    ensures
        type_matcher::type_match(db, limit, a, expected) == type_matcher::type_match(
            db,
            limit,
            b,
            expected,
        ),
{
    law_union_matches_elementwise(db, limit, rank, a, expected);
    law_union_matches_elementwise(db, limit, rank, b, expected);
    let wanted = type_matcher::Wanted::Registry(expected, Seq::<usize>::empty());
    match (chalk::shape_of(&db, a), chalk::shape_of(&db, b)) {
        (ChalkTypeShape::Union(left), ChalkTypeShape::Union(right)) => {
            let x = Seq::new(left@.len(), |i: int| answer(db, limit, left@[i], wanted, 1));
            let y = Seq::new(right@.len(), |i: int| answer(db, limit, right@[i], wanted, 1));
            assert forall|result: TypeMatch| #[trigger] x.contains(result) == y.contains(
                result,
            ) by {
                if x.contains(result) {
                    let i = choose|i: int| 0 <= i < x.len() && x[i] == result;
                    assert(left@.contains(left@[i]));
                    assert(right@.contains(left@[i]));
                    let j = choose|j: int| 0 <= j < right@.len() && right@[j] == left@[i];
                    assert(y[j] == result);
                }
                if y.contains(result) {
                    let i = choose|i: int| 0 <= i < y.len() && y[i] == result;
                    assert(right@.contains(right@[i]));
                    assert(left@.contains(right@[i]));
                    let j = choose|j: int| 0 <= j < left@.len() && left@[j] == right@[i];
                    assert(x[j] == result);
                }
            }
            law_aggregates_ignore_order(x, y);
        },
        _ => {},
    }
}

/// Where types have no cycles, what is known already and what is being matched further up never
/// change a result: remembering results is only a matter of speed.
pub proof fn law_remembering_is_transparent(
    db: Db,
    limit: nat,
    rank: spec_fn(Type) -> nat,
    first: Type,
    second: Type,
    expected: SupportedTy,
)
    requires
        is_acyclic(db, rank),
    ensures
        ({
            let wanted = type_matcher::Wanted::Registry(expected, Seq::empty());
            let known = type_matcher::eval(
                db,
                limit,
                first,
                wanted,
                0,
                Set::empty(),
                Map::empty(),
            ).1;
            type_matcher::eval(db, limit, second, wanted, 0, Set::empty(), known).0
                == type_matcher::type_match(db, limit, second, expected)
        }),
{
    reveal(steady);
    let wanted = type_matcher::Wanted::Registry(expected, Seq::<usize>::empty());
    let bound = rank(first) + rank(second) + 1;
    lemma_steady_empty(db, limit, expected, rank, bound);
    lemma_eval(
        db,
        limit,
        expected,
        rank,
        bound,
        first,
        wanted,
        0,
        Set::empty(),
        Map::empty(),
    );
    let known = type_matcher::eval(
        db,
        limit,
        first,
        wanted,
        0,
        Set::empty(),
        Map::empty(),
    ).1;
    lemma_eval(db, limit, expected, rank, bound, second, wanted, 0, Set::empty(), known);
}

} // verus!

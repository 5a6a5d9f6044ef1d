//! Matching of types against registry types.
//!
//! A match is three-valued. It is computed once for each pair of a type and a place in the registry
//! type at each depth, and a pair that is met again while it is being matched counts as matching.

use vstd::prelude::*;

use crate::chalk;
use crate::chalk::{
    ChalkClassRelation, ChalkContainerKind, ChalkContainerType, ChalkIntersection, ChalkTypeShape,
};
use crate::semantic::{Db, Type};
use crate::supported_functions::SupportedTy;
use crate::text;

verus! {

/// How deep types are expanded before a match is left open.
pub const DEFAULT_EXPANSION_LIMIT: usize = 256;

/// The result of matching a type against a registry type.
#[derive(Clone, Copy, Debug, PartialEq, Eq, Structural)]
pub enum TypeMatch {
    Match,
    NoMatch,
    Inconclusive,
}

impl TypeMatch {
    /// Both of two requirements: a known mismatch dominates an open question.
    pub open spec fn both(self, other: Self) -> Self {
        if self == TypeMatch::NoMatch || other == TypeMatch::NoMatch {
            TypeMatch::NoMatch
        } else if self == TypeMatch::Inconclusive || other == TypeMatch::Inconclusive {
            TypeMatch::Inconclusive
        } else {
            TypeMatch::Match
        }
    }

    /// One of two alternatives: a known match dominates an open question.
    pub open spec fn either(self, other: Self) -> Self {
        if self == TypeMatch::Match || other == TypeMatch::Match {
            TypeMatch::Match
        } else if self == TypeMatch::Inconclusive || other == TypeMatch::Inconclusive {
            TypeMatch::Inconclusive
        } else {
            TypeMatch::NoMatch
        }
    }

    /// All of several requirements.
    pub open spec fn all_of(results: Seq<Self>) -> Self {
        if results.contains(TypeMatch::NoMatch) {
            TypeMatch::NoMatch
        } else if results.contains(TypeMatch::Inconclusive) {
            TypeMatch::Inconclusive
        } else {
            TypeMatch::Match
        }
    }

    /// One of several alternatives.
    pub open spec fn any_of(results: Seq<Self>) -> Self {
        if results.contains(TypeMatch::Match) {
            TypeMatch::Match
        } else if results.contains(TypeMatch::Inconclusive) {
            TypeMatch::Inconclusive
        } else {
            TypeMatch::NoMatch
        }
    }

    /// Aggregates requirements that must all match.
    pub fn all(self, other: Self) -> (result: Self)
        ensures
            result == self.both(other),
    {
        match (self, other) {
            (TypeMatch::NoMatch, _) | (_, TypeMatch::NoMatch) => TypeMatch::NoMatch,
            (TypeMatch::Inconclusive, _) | (_, TypeMatch::Inconclusive) => TypeMatch::Inconclusive,
            (TypeMatch::Match, TypeMatch::Match) => TypeMatch::Match,
        }
    }

    /// Aggregates alternatives where any matching alternative is sufficient.
    pub fn any(self, other: Self) -> (result: Self)
        ensures
            result == self.either(other),
    {
        match (self, other) {
            (TypeMatch::Match, _) | (_, TypeMatch::Match) => TypeMatch::Match,
            (TypeMatch::Inconclusive, _) | (_, TypeMatch::Inconclusive) => TypeMatch::Inconclusive,
            (TypeMatch::NoMatch, TypeMatch::NoMatch) => TypeMatch::NoMatch,
        }
    }

    /// Aggregates several requirements that must all match.
    pub fn all_results(results: &Vec<Self>) -> (result: Self)
        ensures
            result == Self::all_of(results@),
    {
        let mut result = TypeMatch::Match;
        let mut i: usize = 0;
        assert(results@.take(0) =~= Seq::<TypeMatch>::empty());
        while i < results.len()
            invariant
                i <= results.len(),
                result == Self::all_of(results@.take(i as int)),
            decreases results.len() - i,
        {
            proof {
                lemma_all_of_step(results@, i as int);
            }
            result = result.all(results[i]);
            i = i + 1;
        }
        assert(results@.take(results@.len() as int) =~= results@);
        result
    }

    /// Aggregates several alternatives where any matching alternative is sufficient.
    pub fn any_results(results: &Vec<Self>) -> (result: Self)
        ensures
            result == Self::any_of(results@),
    {
        let mut result = TypeMatch::NoMatch;
        let mut i: usize = 0;
        assert(results@.take(0) =~= Seq::<TypeMatch>::empty());
        while i < results.len()
            invariant
                i <= results.len(),
                result == Self::any_of(results@.take(i as int)),
            decreases results.len() - i,
        {
            proof {
                lemma_any_of_step(results@, i as int);
            }
            result = result.any(results[i]);
            i = i + 1;
        }
        assert(results@.take(results@.len() as int) =~= results@);
        result
    }
}

proof fn lemma_take_contains(results: Seq<TypeMatch>, i: int, value: TypeMatch)
    requires
        0 <= i < results.len(),
    ensures
        results.take(i + 1).contains(value) <==> results.take(i).contains(value) || results[i]
            == value,
{
    let before = results.take(i);
    let after = results.take(i + 1);
    if before.contains(value) {
        let k = choose|k: int| 0 <= k < before.len() && before[k] == value;
        assert(after[k] == value);
    }
    if results[i] == value {
        assert(after[i] == value);
    }
    if after.contains(value) {
        let k = choose|k: int| 0 <= k < after.len() && after[k] == value;
        if k < i {
            assert(before[k] == value);
        }
    }
}

proof fn lemma_all_of_step(results: Seq<TypeMatch>, i: int)
    requires
        0 <= i < results.len(),
    ensures
        TypeMatch::all_of(results.take(i + 1)) == TypeMatch::all_of(results.take(i)).both(
            results[i],
        ),
{
    lemma_take_contains(results, i, TypeMatch::NoMatch);
    lemma_take_contains(results, i, TypeMatch::Inconclusive);
}

proof fn lemma_any_of_step(results: Seq<TypeMatch>, i: int)
    requires
        0 <= i < results.len(),
    ensures
        TypeMatch::any_of(results.take(i + 1)) == TypeMatch::any_of(results.take(i)).either(
            results[i],
        ),
{
    lemma_take_contains(results, i, TypeMatch::Match);
    lemma_take_contains(results, i, TypeMatch::Inconclusive);
}

// ---------------------------------------------------------------------------------------------
// What a match is
// ---------------------------------------------------------------------------------------------

/// What a type is matched against: a registry type at its place within the whole one, or a part of
/// a JSON document.
pub enum Wanted {
    Registry(SupportedTy, Seq<usize>),
    JsonValue,
    JsonStringKey,
}

/// What is remembered of what a type is matched against.
pub enum WantedKey {
    Registry(Seq<usize>),
    JsonValue,
    JsonStringKey,
}

impl Wanted {
    pub open spec fn key(self) -> WantedKey {
        match self {
            Wanted::Registry(_, place) => WantedKey::Registry(place),
            Wanted::JsonValue => WantedKey::JsonValue,
            Wanted::JsonStringKey => WantedKey::JsonStringKey,
        }
    }
}

/// A type and what it is matched against.
pub struct Pair {
    pub actual: Type,
    pub wanted: WantedKey,
}

/// A pair at a depth.
pub struct MemoKey {
    pub pair: Pair,
    pub depth: nat,
}

/// The results that are known already.
pub type Memo = Map<MemoKey, TypeMatch>;

/// The part of a registry type at a place below another.
pub open spec fn part(ty: SupportedTy, place: Seq<usize>, index: usize) -> Wanted {
    Wanted::Registry(ty, place.push(index))
}

/// What the answer to a question about a class means for a match.
pub open spec fn as_match(relation: ChalkClassRelation) -> TypeMatch {
    match relation {
        ChalkClassRelation::Match => TypeMatch::Match,
        ChalkClassRelation::NoMatch => TypeMatch::NoMatch,
        ChalkClassRelation::Unavailable => TypeMatch::Inconclusive,
    }
}

/// Whether a type is an instance of exactly the named class.
pub open spec fn instance_match(
    db: Db,
    actual: Type,
    module: Seq<char>,
    name: Seq<char>,
) -> TypeMatch {
    as_match(chalk::exact_instance(db, actual, module, name))
}

/// Whether a type is an instance of a class that derives from the named one.
pub open spec fn derived_match(
    db: Db,
    actual: Type,
    module: Seq<char>,
    name: Seq<char>,
) -> TypeMatch {
    as_match(chalk::instance_derivation(db, actual, module, name))
}

/// Whether the class that a type is about derives from the named one.
pub open spec fn class_match(db: Db, actual: Type, module: Seq<char>, name: Seq<char>) -> TypeMatch {
    as_match(chalk::class_derivation(db, actual, module, name))
}

/// A yes-or-no answer as a match.
pub open spec fn truth_match(holds: bool) -> TypeMatch {
    if holds {
        TypeMatch::Match
    } else {
        TypeMatch::NoMatch
    }
}

/// Whether a type is a number, a truth value or a text.
pub open spec fn json_primitive(db: Db, actual: Type) -> TypeMatch {
    TypeMatch::any_of(
        seq![
            instance_match(db, actual, "builtins"@, "bool"@),
            instance_match(db, actual, "builtins"@, "int"@),
            instance_match(db, actual, "builtins"@, "float"@),
            instance_match(db, actual, "builtins"@, "str"@),
        ],
    )
}

/// Whether a type is one of the digest objects.
pub open spec fn digest_match(db: Db, actual: Type) -> TypeMatch {
    TypeMatch::any_of(
        seq![
            derived_match(db, actual, "_hashlib"@, "HASH"@),
            derived_match(db, actual, "_hashlib"@, "HASHXOF"@),
            derived_match(db, actual, "_blake2"@, "blake2b"@),
            derived_match(db, actual, "_blake2"@, "blake2s"@),
        ],
    )
}

/// The match of a type against what is wanted at a depth, given the pairs that are being matched
/// and the results that are known; and the results known afterwards.
pub open spec fn eval(
    db: Db,
    limit: nat,
    actual: Type,
    wanted: Wanted,
    depth: nat,
    active: Set<Pair>,
    memo: Memo,
) -> (TypeMatch, Memo)
    decreases limit - depth, 6int, 0int,
{
    let pair = Pair { actual, wanted: wanted.key() };
    let key = MemoKey { pair, depth };
    if memo.dom().contains(key) {
        (memo[key], memo)
    } else if active.contains(pair) {
        (TypeMatch::Match, memo)
    } else {
        let (result, after) = eval_shape(
            db,
            limit,
            actual,
            wanted,
            depth,
            active.insert(pair),
            memo,
        );
        (result, after.insert(key, result))
    }
}

/// The match of a type by its shape.
pub open spec fn eval_shape(
    db: Db,
    limit: nat,
    actual: Type,
    wanted: Wanted,
    depth: nat,
    active: Set<Pair>,
    memo: Memo,
) -> (TypeMatch, Memo)
    decreases limit - depth, 5int, 0int,
{
    match chalk::shape_of(&db, actual) {
        ChalkTypeShape::Dynamic => (TypeMatch::Inconclusive, memo),
        ChalkTypeShape::Unavailable => (TypeMatch::Inconclusive, memo),
        ChalkTypeShape::Never => (TypeMatch::Match, memo),
        ChalkTypeShape::Expanded(expanded) => descend(
            db,
            limit,
            expanded,
            wanted,
            depth,
            active,
            memo,
        ),
        ChalkTypeShape::Union(elements) => if depth < limit {
            let (results, after) = eval_each(
                db,
                limit,
                against(elements@, wanted),
                depth + 1,
                active,
                memo,
            );
            (TypeMatch::all_of(results), after)
        } else {
            (TypeMatch::Inconclusive, memo)
        },
        ChalkTypeShape::Intersection(intersection) => if depth < limit {
            let (found, tried) = eval_some(
                db,
                limit,
                intersection.positive@,
                wanted,
                depth + 1,
                active,
                memo,
            );
            let top = intersection.top_materialization;
            let bottom = intersection.bottom_materialization;
            if found {
                (TypeMatch::Match, tried)
            } else if top == actual || bottom == actual {
                (TypeMatch::Inconclusive, tried)
            } else {
                let (upper, above) = eval(db, limit, top, wanted, depth + 1, active, tried);
                let (lower, below) = eval(db, limit, bottom, wanted, depth + 1, active, above);
                (
                    if upper == lower {
                        upper
                    } else {
                        TypeMatch::Inconclusive
                    },
                    below,
                )
            }
        } else {
            (TypeMatch::Inconclusive, memo)
        },
        ChalkTypeShape::Concrete => eval_concrete(db, limit, actual, wanted, depth, active, memo),
    }
}

/// Every type of a list against one thing.
pub open spec fn against(types: Seq<Type>, wanted: Wanted) -> Seq<(Type, Wanted)> {
    Seq::new(types.len(), |i: int| (types[i], wanted))
}

/// The types of a list against the parts of a registry type at the same positions.
pub open spec fn pairwise(
    types: Seq<Type>,
    items: Seq<SupportedTy>,
    place: Seq<usize>,
) -> Seq<(Type, Wanted)> {
    Seq::new(types.len(), |i: int| (types[i], part(items[i], place, i as usize)))
}

/// The results of several matches, one after the other.
pub open spec fn eval_each(
    db: Db,
    limit: nat,
    tasks: Seq<(Type, Wanted)>,
    depth: nat,
    active: Set<Pair>,
    memo: Memo,
) -> (Seq<TypeMatch>, Memo)
    decreases limit - depth, 7int, tasks.len(),
{
    if tasks.len() == 0 {
        (Seq::empty(), memo)
    } else {
        let (results, before) = eval_each(db, limit, tasks.drop_last(), depth, active, memo);
        let (actual, wanted) = tasks.last();
        let (result, after) = eval(db, limit, actual, wanted, depth, active, before);
        (results.push(result), after)
    }
}

/// Whether one of several types matches; those behind the first that does are not tried.
pub open spec fn eval_some(
    db: Db,
    limit: nat,
    types: Seq<Type>,
    wanted: Wanted,
    depth: nat,
    active: Set<Pair>,
    memo: Memo,
) -> (bool, Memo)
    decreases limit - depth, 7int, types.len(),
{
    if types.len() == 0 {
        (false, memo)
    } else {
        let (found, before) = eval_some(db, limit, types.drop_last(), wanted, depth, active, memo);
        if found {
            (true, before)
        } else {
            let (result, after) = eval(db, limit, types.last(), wanted, depth, active, before);
            (result == TypeMatch::Match, after)
        }
    }
}

/// The match of a type one level deeper.
pub open spec fn descend(
    db: Db,
    limit: nat,
    actual: Type,
    wanted: Wanted,
    depth: nat,
    active: Set<Pair>,
    memo: Memo,
) -> (TypeMatch, Memo)
    decreases limit - depth, 0int, 0int,
{
    if depth < limit {
        eval(db, limit, actual, wanted, depth + 1, active, memo)
    } else {
        (TypeMatch::Inconclusive, memo)
    }
}

/// The match of a type that is neither open nor composed of others.
pub open spec fn eval_concrete(
    db: Db,
    limit: nat,
    actual: Type,
    wanted: Wanted,
    depth: nat,
    active: Set<Pair>,
    memo: Memo,
) -> (TypeMatch, Memo)
    decreases limit - depth, 4int, 0int,
{
    match wanted {
        Wanted::JsonValue => if db.ty(actual).is_none {
            (TypeMatch::Match, memo)
        } else if json_primitive(db, actual) != TypeMatch::NoMatch {
            (json_primitive(db, actual), memo)
        } else {
            eval_json(db, limit, actual, depth, active, memo)
        },
        Wanted::JsonStringKey => (instance_match(db, actual, "builtins"@, "str"@), memo),
        Wanted::Registry(ty, place) => if db.ty(actual).is_none {
            (truth_match(ty.takes_none()), memo)
        } else {
            eval_registry(db, limit, actual, ty, place, depth, active, memo)
        },
    }
}

/// The match of a type that is not `None` against a registry type.
pub open spec fn eval_registry(
    db: Db,
    limit: nat,
    actual: Type,
    ty: SupportedTy,
    place: Seq<usize>,
    depth: nat,
    active: Set<Pair>,
    memo: Memo,
) -> (TypeMatch, Memo)
    decreases limit - depth, 3int, 0int,
{
    match ty {
        SupportedTy::Any { .. } => (TypeMatch::Match, memo),
        SupportedTy::Bool { .. } => (instance_match(db, actual, "builtins"@, "bool"@), memo),
        SupportedTy::Bytes { .. } => (instance_match(db, actual, "builtins"@, "bytes"@), memo),
        SupportedTy::Class { module, name, .. } => (
            as_match(chalk::exact_class_object(db, actual, module@, name@)),
            memo,
        ),
        SupportedTy::Counter { items, .. } => eval_items(
            db,
            limit,
            actual,
            ChalkContainerKind::Counter,
            *items,
            place,
            depth,
            active,
            memo,
        ),
        SupportedTy::Date { .. } => (instance_match(db, actual, "datetime"@, "date"@), memo),
        SupportedTy::DateTime { .. } => (
            instance_match(db, actual, "datetime"@, "datetime"@),
            memo,
        ),
        SupportedTy::Dict { key_type, value_type, .. } => eval_mapping(
            db,
            limit,
            actual,
            *key_type,
            *value_type,
            place,
            depth,
            active,
            memo,
        ),
        SupportedTy::Float { .. } => (
            instance_match(db, actual, "builtins"@, "float"@).either(
                instance_match(db, actual, "builtins"@, "int"@),
            ),
            memo,
        ),
        SupportedTy::FrozenSet { items, .. } => eval_items(
            db,
            limit,
            actual,
            ChalkContainerKind::FrozenSet,
            *items,
            place,
            depth,
            active,
            memo,
        ),
        SupportedTy::Generator { items, .. } => eval_items(
            db,
            limit,
            actual,
            ChalkContainerKind::Generator,
            *items,
            place,
            depth,
            active,
            memo,
        ),
        SupportedTy::HashlibHash { .. } => (digest_match(db, actual), memo),
        SupportedTy::Int { .. } => (instance_match(db, actual, "builtins"@, "int"@), memo),
        SupportedTy::Iterable { items, .. } => eval_items(
            db,
            limit,
            actual,
            ChalkContainerKind::Iterable,
            *items,
            place,
            depth,
            active,
            memo,
        ),
        SupportedTy::Json { .. } => eval_json(db, limit, actual, depth, active, memo),
        SupportedTy::List { items, .. } => eval_items(
            db,
            limit,
            actual,
            ChalkContainerKind::List,
            *items,
            place,
            depth,
            active,
            memo,
        ),
        SupportedTy::Module { name, .. } => (
            truth_match(chalk::is_module(db, actual, name@)),
            memo,
        ),
        SupportedTy::NoneType { .. } => (TypeMatch::NoMatch, memo),
        SupportedTy::ReMatch { .. } => (derived_match(db, actual, "re"@, "Match"@), memo),
        SupportedTy::RePattern { .. } => (derived_match(db, actual, "re"@, "Pattern"@), memo),
        SupportedTy::RequestsHttpResponse { .. } => (
            derived_match(db, actual, "requests.models"@, "Response"@),
            memo,
        ),
        SupportedTy::SetType { items, .. } => eval_items(
            db,
            limit,
            actual,
            ChalkContainerKind::SetOf,
            *items,
            place,
            depth,
            active,
            memo,
        ),
        SupportedTy::SequenceMatcher { .. } => (
            derived_match(db, actual, "difflib"@, "SequenceMatcher"@),
            memo,
        ),
        SupportedTy::Str { .. } => (instance_match(db, actual, "builtins"@, "str"@), memo),
        SupportedTy::SubClassOf { ty_name, .. } => eval_category(
            db,
            limit,
            actual,
            ty_name@,
            depth,
            active,
            memo,
        ),
        SupportedTy::Time { .. } => (instance_match(db, actual, "datetime"@, "time"@), memo),
        SupportedTy::Timedelta { .. } => (
            instance_match(db, actual, "datetime"@, "timedelta"@),
            memo,
        ),
        SupportedTy::TimeZone { .. } => (
            instance_match(db, actual, "datetime"@, "timezone"@),
            memo,
        ),
        SupportedTy::Tuple { items, is_variable, .. } => eval_tuple(
            db,
            limit,
            actual,
            items@,
            is_variable,
            place,
            depth,
            active,
            memo,
        ),
        SupportedTy::Other { name, .. } => if name@ == "TySlice"@ {
            (instance_match(db, actual, "builtins"@, "slice"@), memo)
        } else {
            (TypeMatch::Inconclusive, memo)
        },
    }
}

/// The match of a mapping.
pub open spec fn eval_mapping(
    db: Db,
    limit: nat,
    actual: Type,
    key_type: SupportedTy,
    value_type: SupportedTy,
    place: Seq<usize>,
    depth: nat,
    active: Set<Pair>,
    memo: Memo,
) -> (TypeMatch, Memo)
    decreases limit - depth, 1int, 0int,
{
    match chalk::container_of(
        &db,
        actual,
        ChalkContainerKind::Dict,
    ) {
        ChalkContainerType::Mapping { key, value } => {
            let (keys, first) = descend(
                db,
                limit,
                key,
                part(key_type, place, 0),
                depth,
                active,
                memo,
            );
            let (values, second) = descend(
                db,
                limit,
                value,
                part(value_type, place, 1),
                depth,
                active,
                first,
            );
            (keys.both(values), second)
        },
        ChalkContainerType::Unavailable => (TypeMatch::Inconclusive, memo),
        _ => (TypeMatch::NoMatch, memo),
    }
}

/// The match of a tuple: against one item type for every element, or item by item.
pub open spec fn eval_tuple(
    db: Db,
    limit: nat,
    actual: Type,
    items: Seq<SupportedTy>,
    is_variable: bool,
    place: Seq<usize>,
    depth: nat,
    active: Set<Pair>,
    memo: Memo,
) -> (TypeMatch, Memo)
    decreases limit - depth, 1int, 0int,
{
    match chalk::container_of(
        &db,
        actual,
        ChalkContainerKind::Tuple,
    ) {
        ChalkContainerType::Tuple(tuple) => if depth >= limit {
            (TypeMatch::Inconclusive, memo)
        } else if is_variable {
            if items.len() == 0 {
                (TypeMatch::NoMatch, memo)
            } else {
                let (results, after) = eval_each(
                    db,
                    limit,
                    against(tuple.elements@, part(items[0], place, 0)),
                    depth + 1,
                    active,
                    memo,
                );
                (TypeMatch::all_of(results), after)
            }
        } else if tuple.is_variable || tuple.elements@.len() != items.len() {
            (TypeMatch::NoMatch, memo)
        } else {
            let (results, after) = eval_each(
                db,
                limit,
                pairwise(tuple.elements@, items, place),
                depth + 1,
                active,
                memo,
            );
            (TypeMatch::all_of(results), after)
        },
        ChalkContainerType::Unavailable => (TypeMatch::Inconclusive, memo),
        _ => (TypeMatch::NoMatch, memo),
    }
}

/// The match of a container with one type argument.
pub open spec fn eval_items(
    db: Db,
    limit: nat,
    actual: Type,
    kind: ChalkContainerKind,
    item: SupportedTy,
    place: Seq<usize>,
    depth: nat,
    active: Set<Pair>,
    memo: Memo,
) -> (TypeMatch, Memo)
    decreases limit - depth, 1int, 0int,
{
    match chalk::container_of(&db, actual, kind) {
        ChalkContainerType::Unary(held) => descend(
            db,
            limit,
            held,
            part(item, place, 0),
            depth,
            active,
            memo,
        ),
        ChalkContainerType::Unavailable => (TypeMatch::Inconclusive, memo),
        _ => (TypeMatch::NoMatch, memo),
    }
}

/// The match of a list or a mapping that holds JSON.
pub open spec fn eval_json(
    db: Db,
    limit: nat,
    actual: Type,
    depth: nat,
    active: Set<Pair>,
    memo: Memo,
) -> (TypeMatch, Memo)
    decreases limit - depth, 1int, 0int,
{
    let (list, first) = match chalk::container_of(&db, actual, ChalkContainerKind::List) {
        ChalkContainerType::Unary(item) => descend(
            db,
            limit,
            item,
            Wanted::JsonValue,
            depth,
            active,
            memo,
        ),
        ChalkContainerType::Unavailable => (TypeMatch::Inconclusive, memo),
        _ => (TypeMatch::NoMatch, memo),
    };
    let (dict, second) = match chalk::container_of(&db, actual, ChalkContainerKind::Dict) {
        ChalkContainerType::Mapping { key, value } => {
            let (keys, between) = descend(
                db,
                limit,
                key,
                Wanted::JsonStringKey,
                depth,
                active,
                first,
            );
            let (values, after) = descend(
                db,
                limit,
                value,
                Wanted::JsonValue,
                depth,
                active,
                between,
            );
            (keys.both(values), after)
        },
        ChalkContainerType::Unavailable => (TypeMatch::Inconclusive, first),
        _ => (
            if chalk::is_logical_struct(db, actual) {
                TypeMatch::Inconclusive
            } else {
                TypeMatch::NoMatch
            },
            first,
        ),
    };
    (list.either(dict), second)
}

/// The match of a type against a category that the registry names.
pub open spec fn eval_category(
    db: Db,
    limit: nat,
    actual: Type,
    name: Seq<char>,
    depth: nat,
    active: Set<Pair>,
    memo: Memo,
) -> (TypeMatch, Memo)
    decreases limit - depth, 2int, 0int,
{
    if name == "TyEnum"@ {
        (as_match(chalk::enumeration(db, actual)), memo)
    } else if name == "TyJson"@ {
        eval_json(db, limit, actual, depth, active, memo)
    } else if name == "TyLogicalStruct"@ {
        (truth_match(chalk::is_logical_struct(db, actual)), memo)
    } else if name == "TyTuple"@ {
        match chalk::container_of(&db, actual, ChalkContainerKind::Tuple) {
            ChalkContainerType::Tuple(_) => (TypeMatch::Match, memo),
            ChalkContainerType::Unavailable => (TypeMatch::Inconclusive, memo),
            _ => (TypeMatch::NoMatch, memo),
        }
    } else if name == "TyProto"@ {
        (class_match(db, actual, "google.protobuf.message"@, "Message"@), memo)
    } else if name == "TyProtoEnum"@ {
        (
            class_match(
                db,
                actual,
                "google.protobuf.internal.enum_type_wrapper"@,
                "EnumTypeWrapper"@,
            ).either(class_match(db, actual, "enum"@, "Enum"@)),
            memo,
        )
    } else {
        (TypeMatch::Inconclusive, memo)
    }
}

/// The match of a type against a registry type.
pub open spec fn type_match(db: Db, limit: nat, actual: Type, expected: SupportedTy) -> TypeMatch {
    eval(
        db,
        limit,
        actual,
        Wanted::Registry(expected, Seq::empty()),
        0,
        Set::empty(),
        Map::empty(),
    ).0
}

// ---------------------------------------------------------------------------------------------
// The matcher
// ---------------------------------------------------------------------------------------------

/// What a type is matched against.
#[derive(Clone, Copy)]
enum Expected<'a> {
    Registry(&'a SupportedTy, &'a Vec<usize>),
    JsonValue,
    JsonStringKey,
}

impl<'a> Expected<'a> {
    spec fn wanted(self) -> Wanted {
        match self {
            Expected::Registry(ty, place) => Wanted::Registry(*ty, place@),
            Expected::JsonValue => Wanted::JsonValue,
            Expected::JsonStringKey => Wanted::JsonStringKey,
        }
    }
}

/// A copy of a place.
fn copy_place(place: &Vec<usize>) -> (copy: Vec<usize>)
    ensures
        copy@ == place@,
{
    let mut copy: Vec<usize> = Vec::new();
    let mut i: usize = 0;
    while i < place.len()
        invariant
            i <= place.len(),
            copy@ == place@.take(i as int),
        decreases place.len() - i,
    {
        copy.push(place[i]);
        assert(copy@ =~= place@.take(i + 1));
        i = i + 1;
    }
    assert(place@.take(place@.len() as int) =~= place@);
    copy
}

/// The place of a part below another place.
fn child_place(place: &Vec<usize>, index: usize) -> (child: Vec<usize>)
    ensures
        child@ == place@.push(index),
{
    let mut child = copy_place(place);
    child.push(index);
    child
}

/// What is remembered of what a type is matched against.
enum ExpectedKey {
    Registry(Vec<usize>),
    JsonValue,
    JsonStringKey,
}

impl ExpectedKey {
    spec fn view(self) -> WantedKey {
        match self {
            ExpectedKey::Registry(place) => WantedKey::Registry(place@),
            ExpectedKey::JsonValue => WantedKey::JsonValue,
            ExpectedKey::JsonStringKey => WantedKey::JsonStringKey,
        }
    }

    fn of(expected: Expected<'_>) -> (key: Self)
        ensures
            key@ == expected.wanted().key(),
    {
        match expected {
            Expected::Registry(_, place) => ExpectedKey::Registry(copy_place(place)),
            Expected::JsonValue => ExpectedKey::JsonValue,
            Expected::JsonStringKey => ExpectedKey::JsonStringKey,
        }
    }

    fn is(&self, expected: Expected<'_>) -> (same: bool)
        ensures
            same == (self@ == expected.wanted().key()),
    {
        match (self, expected) {
            (ExpectedKey::Registry(left), Expected::Registry(_, right)) => same_place(left, right),
            (ExpectedKey::JsonValue, Expected::JsonValue) => true,
            (ExpectedKey::JsonStringKey, Expected::JsonStringKey) => true,
            _ => false,
        }
    }
}

/// Whether two places are the same.
fn same_place(left: &Vec<usize>, right: &Vec<usize>) -> (same: bool)
    ensures
        same == (left@ == right@),
{
    if left.len() != right.len() {
        return false;
    }
    let mut i: usize = 0;
    while i < left.len()
        invariant
            i <= left.len(),
            left.len() == right.len(),
            forall|j: int| 0 <= j < i ==> #[trigger] left@[j] == right@[j],
        decreases left.len() - i,
    {
        if left[i] != right[i] {
            return false;
        }
        i = i + 1;
    }
    assert(left@ =~= right@);
    true
}

/// A pair that is being matched.
struct ActivePair {
    actual: Type,
    expected: ExpectedKey,
}

impl ActivePair {
    spec fn view(self) -> Pair {
        Pair { actual: self.actual, wanted: self.expected@ }
    }
}

/// A result that is known.
struct MemoEntry {
    actual: Type,
    expected: ExpectedKey,
    depth: usize,
    result: TypeMatch,
}

impl MemoEntry {
    spec fn key(self) -> MemoKey {
        MemoKey {
            pair: Pair { actual: self.actual, wanted: self.expected@ },
            depth: self.depth as nat,
        }
    }
}

/// The pairs of a list.
spec fn pairs_of(active: Seq<ActivePair>) -> Set<Pair> {
    Set::new(|pair: Pair| exists|i: int| 0 <= i < active.len() && (#[trigger] active[i])@ == pair)
}

/// The results of a list, the latest of each key.
spec fn memo_of(entries: Seq<MemoEntry>) -> Memo
    decreases entries.len(),
{
    if entries.len() == 0 {
        Map::empty()
    } else {
        memo_of(entries.drop_last()).insert(entries.last().key(), entries.last().result)
    }
}

/// A match in progress.
struct Matcher<'db> {
    db: &'db Db,
    expansion_limit: usize,
    active: Vec<ActivePair>,
    memo: Vec<MemoEntry>,
}

impl<'db> Matcher<'db> {
    spec fn pairs(self) -> Set<Pair> {
        pairs_of(self.active@)
    }

    spec fn known(self) -> Memo {
        memo_of(self.memo@)
    }

    spec fn limit(self) -> nat {
        self.expansion_limit as nat
    }

    /// What a match leaves as it was.
    spec fn frame(self, before: Self) -> bool {
        self.db == before.db && self.expansion_limit == before.expansion_limit && self.active@
            == before.active@
    }

    fn new(db: &'db Db, expansion_limit: usize) -> (matcher: Self)
        ensures
            matcher.db == db,
            matcher.expansion_limit == expansion_limit,
            matcher.pairs() == Set::<Pair>::empty(),
            matcher.known() == Map::<MemoKey, TypeMatch>::empty(),
    {
        let matcher = Matcher {
            db,
            expansion_limit,
            active: Vec::new(),
            memo: Vec::new(),
        };
        assert(matcher.pairs() =~= Set::<Pair>::empty());
        matcher
    }

    fn remembered(&self, actual: Type, expected: Expected<'_>, depth: usize) -> (result: Option<
        TypeMatch,
    >)
        ensures
            ({
                let key = MemoKey {
                    pair: Pair { actual, wanted: expected.wanted().key() },
                    depth: depth as nat,
                };
                match result {
                    Some(result) => self.known().dom().contains(key) && self.known()[key] == result,
                    None => !self.known().dom().contains(key),
                }
            }),
    {
        let ghost key = MemoKey {
            pair: Pair { actual, wanted: expected.wanted().key() },
            depth: depth as nat,
        };
        let mut i: usize = self.memo.len();
        assert(self.memo@.take(i as int) =~= self.memo@);
        while i > 0
            invariant
                i <= self.memo.len(),
                key == (MemoKey {
                    pair: Pair { actual, wanted: expected.wanted().key() },
                    depth: depth as nat,
                }),
                memo_of(self.memo@.take(i as int)).dom().contains(key)
                    == self.known().dom().contains(key),
                memo_of(self.memo@.take(i as int)).dom().contains(key) ==> memo_of(
                    self.memo@.take(i as int),
                )[key] == self.known()[key],
            decreases i,
        {
            let entry = &self.memo[i - 1];
            proof {
                assert(self.memo@.take(i as int).drop_last() =~= self.memo@.take(i - 1));
                assert(self.memo@.take(i as int).last() == self.memo@[i - 1]);
            }
            if entry.actual == actual && entry.depth == depth && entry.expected.is(expected) {
                assert(entry.key() == key);
                return Some(entry.result);
            }
            assert(entry.key() != key);
            i = i - 1;
        }
        None
    }

    fn is_active(&self, actual: Type, expected: Expected<'_>) -> (found: bool)
        ensures
            found == self.pairs().contains(Pair { actual, wanted: expected.wanted().key() }),
    {
        let ghost pair = Pair { actual, wanted: expected.wanted().key() };
        let mut i: usize = 0;
        while i < self.active.len()
            invariant
                i <= self.active.len(),
                pair == (Pair { actual, wanted: expected.wanted().key() }),
                forall|j: int| 0 <= j < i ==> (#[trigger] self.active@[j])@ != pair,
            decreases self.active.len() - i,
        {
            let entry = &self.active[i];
            if entry.actual == actual && entry.expected.is(expected) {
                assert(self.active@[i as int]@ == pair);
                return true;
            }
            assert(self.active@[i as int]@ != pair);
            i = i + 1;
        }
        false
    }

    fn match_type(&mut self, actual: Type, expected: Expected<'_>) -> (result: TypeMatch)
        requires
            old(self).db.wf(),
            old(self).db.has_type(actual),
        ensures
            final(self).frame(*old(self)),
            (result, final(self).known()) == eval(
                *old(self).db,
                old(self).limit(),
                actual,
                expected.wanted(),
                0,
                old(self).pairs(),
                old(self).known(),
            ),
    {
        self.match_type_at_depth(actual, expected, 0)
    }

    fn match_type_at_depth(&mut self, actual: Type, expected: Expected<'_>, depth: usize) -> (result:
        TypeMatch)
        requires
            old(self).db.wf(),
            old(self).db.has_type(actual),
            depth <= old(self).expansion_limit,
        ensures
            final(self).frame(*old(self)),
            (result, final(self).known()) == eval(
                *old(self).db,
                old(self).limit(),
                actual,
                expected.wanted(),
                depth as nat,
                old(self).pairs(),
                old(self).known(),
            ),
        decreases old(self).expansion_limit - depth, 6int, 0int,
    {
        match self.remembered(actual, expected, depth) {
            Some(result) => {
                return result;
            },
            None => {},
        }
        if self.is_active(actual, expected) {
            return TypeMatch::Match;
        }
        let ghost pair = Pair { actual, wanted: expected.wanted().key() };
        let ghost before = self.active@;
        self.active.push(ActivePair { actual, expected: ExpectedKey::of(expected) });
        proof {
            lemma_pairs_push(before, self.active@.last());
            assert(self.active@ =~= before.push(self.active@.last()));
        }
        let result = self.match_type_inner(actual, expected, depth);
        self.active.pop();
        assert(self.active@ =~= before);
        let ghost entries = self.memo@;
        self.memo.push(MemoEntry { actual, expected: ExpectedKey::of(expected), depth, result });
        assert(self.memo@.drop_last() =~= entries);
        result
    }

    fn match_type_inner(&mut self, actual: Type, expected: Expected<'_>, depth: usize) -> (result:
        TypeMatch)
        requires
            old(self).db.wf(),
            old(self).db.has_type(actual),
            depth <= old(self).expansion_limit,
        ensures
            final(self).frame(*old(self)),
            (result, final(self).known()) == eval_shape(
                *old(self).db,
                old(self).limit(),
                actual,
                expected.wanted(),
                depth as nat,
                old(self).pairs(),
                old(self).known(),
            ),
        decreases old(self).expansion_limit - depth, 5int, 0int,
    {
        match chalk::chalk_type_shape(self.db, actual) {
            ChalkTypeShape::Dynamic | ChalkTypeShape::Unavailable => TypeMatch::Inconclusive,
            ChalkTypeShape::Never => TypeMatch::Match,
            ChalkTypeShape::Expanded(expanded) => self.descend(expanded, expected, depth),
            ChalkTypeShape::Union(elements) => {
                if depth < self.expansion_limit {
                    let results = self.match_each(elements, expected, depth + 1);
                    TypeMatch::all_results(&results)
                } else {
                    TypeMatch::Inconclusive
                }
            },
            ChalkTypeShape::Intersection(intersection) => {
                self.match_intersection(actual, intersection, expected, depth)
            },
            ChalkTypeShape::Concrete => self.match_concrete(actual, expected, depth),
        }
    }

    /// Matches every type of a list against one thing.
    fn match_each(&mut self, types: &Vec<Type>, expected: Expected<'_>, depth: usize) -> (results:
        Vec<TypeMatch>)
        requires
            old(self).db.wf(),
            old(self).db.has_types(types@),
            depth <= old(self).expansion_limit,
        ensures
            final(self).frame(*old(self)),
            (results@, final(self).known()) == eval_each(
                *old(self).db,
                old(self).limit(),
                against(types@, expected.wanted()),
                depth as nat,
                old(self).pairs(),
                old(self).known(),
            ),
        decreases old(self).expansion_limit - depth, 7int, 0int,
    {
        let ghost tasks = against(types@, expected.wanted());
        let mut results: Vec<TypeMatch> = Vec::new();
        let mut i: usize = 0;
        assert(tasks.take(0) =~= Seq::<(Type, Wanted)>::empty());
        while i < types.len()
            invariant
                i <= types.len(),
                self.frame(*old(self)),
                self.db.wf(),
                self.db.has_types(types@),
                depth <= self.expansion_limit,
                tasks == against(types@, expected.wanted()),
                (results@, self.known()) == eval_each(
                    *old(self).db,
                    old(self).limit(),
                    tasks.take(i as int),
                    depth as nat,
                    old(self).pairs(),
                    old(self).known(),
                ),
            decreases types.len() - i,
        {
            proof {
                assert(tasks.take(i + 1).drop_last() =~= tasks.take(i as int));
                assert(tasks.take(i + 1).last() == (types@[i as int], expected.wanted()));
            }
            let result = self.match_type_at_depth(types[i], expected, depth);
            results.push(result);
            i = i + 1;
        }
        assert(tasks.take(tasks.len() as int) =~= tasks);
        results
    }

    fn match_intersection(
        &mut self,
        actual: Type,
        intersection: ChalkIntersection<'db>,
        expected: Expected<'_>,
        depth: usize,
    ) -> (result: TypeMatch)
        requires
            old(self).db.wf(),
            old(self).db.has_type(actual),
            depth <= old(self).expansion_limit,
            chalk::shape_of(old(self).db, actual) == ChalkTypeShape::Intersection(intersection),
            old(self).db.has_types(intersection.positive@),
            old(self).db.has_type(intersection.top_materialization),
            old(self).db.has_type(intersection.bottom_materialization),
        ensures
            final(self).frame(*old(self)),
            (result, final(self).known()) == eval_shape(
                *old(self).db,
                old(self).limit(),
                actual,
                expected.wanted(),
                depth as nat,
                old(self).pairs(),
                old(self).known(),
            ),
        decreases old(self).expansion_limit - depth, 4int, 0int,
    {
        if depth >= self.expansion_limit {
            return TypeMatch::Inconclusive;
        }
        let positive = intersection.positive;
        let ghost types = positive@;
        let mut i: usize = 0;
        assert(types.take(0) =~= Seq::<Type>::empty());
        while i < positive.len()
            invariant
                i <= positive.len(),
                types == positive@,
                self.frame(*old(self)),
                self.db.wf(),
                self.db.has_types(positive@),
                depth < self.expansion_limit,
                chalk::shape_of(old(self).db, actual) == ChalkTypeShape::Intersection(
                    intersection,
                ),
                positive == intersection.positive,
                (false, self.known()) == eval_some(
                    *old(self).db,
                    old(self).limit(),
                    types.take(i as int),
                    expected.wanted(),
                    (depth + 1) as nat,
                    old(self).pairs(),
                    old(self).known(),
                ),
            decreases positive.len() - i,
        {
            proof {
                assert(types.take(i + 1).drop_last() =~= types.take(i as int));
                assert(types.take(i + 1).last() == types[i as int]);
            }
            let result = self.match_type_at_depth(positive[i], expected, depth + 1);
            if result == TypeMatch::Match {
                proof {
                    lemma_some_stays(
                        *old(self).db,
                        old(self).limit(),
                        types,
                        expected.wanted(),
                        (depth + 1) as nat,
                        old(self).pairs(),
                        old(self).known(),
                        i + 1,
                    );
                }
                return TypeMatch::Match;
            }
            i = i + 1;
        }
        assert(types.take(types.len() as int) =~= types);
        let top = intersection.top_materialization;
        let bottom = intersection.bottom_materialization;
        if top == actual || bottom == actual {
            return TypeMatch::Inconclusive;
        }
        let upper = self.match_type_at_depth(top, expected, depth + 1);
        let lower = self.match_type_at_depth(bottom, expected, depth + 1);
        if upper == lower {
            upper
        } else {
            TypeMatch::Inconclusive
        }
    }

    fn match_concrete(&mut self, actual: Type, expected: Expected<'_>, depth: usize) -> (result:
        TypeMatch)
        requires
            old(self).db.wf(),
            old(self).db.has_type(actual),
            depth <= old(self).expansion_limit,
        ensures
            final(self).frame(*old(self)),
            (result, final(self).known()) == eval_concrete(
                *old(self).db,
                old(self).limit(),
                actual,
                expected.wanted(),
                depth as nat,
                old(self).pairs(),
                old(self).known(),
            ),
        decreases old(self).expansion_limit - depth, 4int, 0int,
    {
        match expected {
            Expected::JsonValue => self.match_json_value(actual, depth),
            Expected::JsonStringKey => self.exact_instance(actual, "builtins", "str"),
            Expected::Registry(ty, place) => {
                if self.db.types[actual.id].is_none {
                    return if ty.accepts_none() {
                        TypeMatch::Match
                    } else {
                        TypeMatch::NoMatch
                    };
                }
                self.match_registry_type(actual, ty, place, depth)
            },
        }
    }

    fn match_registry_type(
        &mut self,
        actual: Type,
        expected: &SupportedTy,
        place: &Vec<usize>,
        depth: usize,
    ) -> (result: TypeMatch)
        requires
            old(self).db.wf(),
            old(self).db.has_type(actual),
            depth <= old(self).expansion_limit,
        ensures
            final(self).frame(*old(self)),
            (result, final(self).known()) == eval_registry(
                *old(self).db,
                old(self).limit(),
                actual,
                *expected,
                place@,
                depth as nat,
                old(self).pairs(),
                old(self).known(),
            ),
        decreases old(self).expansion_limit - depth, 3int, 0int,
    {
        match expected {
            SupportedTy::Any { .. } => TypeMatch::Match,
            SupportedTy::Bool { .. } => self.exact_instance(actual, "builtins", "bool"),
            SupportedTy::Bytes { .. } => self.exact_instance(actual, "builtins", "bytes"),
            SupportedTy::Class { module, name, .. } => relation_to_match(
                chalk::chalk_exact_class_object(self.db, actual, module.as_str(), name.as_str()),
            ),
            SupportedTy::Counter { items, .. } => {
                self.match_unary_container(actual, ChalkContainerKind::Counter, items, place, depth)
            },
            SupportedTy::Date { .. } => self.exact_instance(actual, "datetime", "date"),
            SupportedTy::DateTime { .. } => self.exact_instance(actual, "datetime", "datetime"),
            SupportedTy::Dict { key_type, value_type, .. } => {
                self.match_mapping_container(actual, key_type, value_type, place, depth)
            },
            SupportedTy::Float { .. } => {
                let floating = self.exact_instance(actual, "builtins", "float");
                let whole = self.exact_instance(actual, "builtins", "int");
                floating.any(whole)
            },
            SupportedTy::FrozenSet { items, .. } => {
                self.match_unary_container(actual, ChalkContainerKind::FrozenSet, items, place, depth)
            },
            SupportedTy::Generator { items, .. } => {
                self.match_unary_container(actual, ChalkContainerKind::Generator, items, place, depth)
            },
            SupportedTy::HashlibHash { .. } => {
                let mut results: Vec<TypeMatch> = Vec::new();
                results.push(self.instance_derived_from(actual, "_hashlib", "HASH"));
                results.push(self.instance_derived_from(actual, "_hashlib", "HASHXOF"));
                results.push(self.instance_derived_from(actual, "_blake2", "blake2b"));
                results.push(self.instance_derived_from(actual, "_blake2", "blake2s"));
                assert(results@ =~= seq![
                    derived_match(*self.db, actual, "_hashlib"@, "HASH"@),
                    derived_match(*self.db, actual, "_hashlib"@, "HASHXOF"@),
                    derived_match(*self.db, actual, "_blake2"@, "blake2b"@),
                    derived_match(*self.db, actual, "_blake2"@, "blake2s"@),
                ]);
                TypeMatch::any_results(&results)
            },
            SupportedTy::Int { .. } => self.exact_instance(actual, "builtins", "int"),
            SupportedTy::Iterable { items, .. } => {
                self.match_unary_container(actual, ChalkContainerKind::Iterable, items, place, depth)
            },
            SupportedTy::Json { .. } => self.match_json_container(actual, depth),
            SupportedTy::List { items, .. } => {
                self.match_unary_container(actual, ChalkContainerKind::List, items, place, depth)
            },
            SupportedTy::Module { name, .. } => {
                if chalk::chalk_module_is(self.db, actual, name.as_str()) {
                    TypeMatch::Match
                } else {
                    TypeMatch::NoMatch
                }
            },
            SupportedTy::NoneType { .. } => TypeMatch::NoMatch,
            SupportedTy::ReMatch { .. } => {
                self.instance_derived_from(actual, "re", "Match")
            },
            SupportedTy::RePattern { .. } => {
                self.instance_derived_from(actual, "re", "Pattern")
            },
            SupportedTy::RequestsHttpResponse { .. } => {
                self.instance_derived_from(actual, "requests.models", "Response")
            },
            SupportedTy::SetType { items, .. } => {
                self.match_unary_container(actual, ChalkContainerKind::SetOf, items, place, depth)
            },
            SupportedTy::SequenceMatcher { .. } => {
                self.instance_derived_from(actual, "difflib", "SequenceMatcher")
            },
            SupportedTy::Str { .. } => self.exact_instance(actual, "builtins", "str"),
            SupportedTy::SubClassOf { ty_name, .. } => {
                self.match_accelerator_category(actual, ty_name.as_str(), depth)
            },
            SupportedTy::Time { .. } => self.exact_instance(actual, "datetime", "time"),
            SupportedTy::Timedelta { .. } => self.exact_instance(actual, "datetime", "timedelta"),
            SupportedTy::TimeZone { .. } => self.exact_instance(actual, "datetime", "timezone"),
            SupportedTy::Tuple { items, is_variable, .. } => {
                self.match_tuple(actual, items, *is_variable, place, depth)
            },
            SupportedTy::Other { name, .. } => {
                if text::same_text(name.as_str(), "TySlice") {
                    self.exact_instance(actual, "builtins", "slice")
                } else {
                    TypeMatch::Inconclusive
                }
            },
        }
    }

    fn match_unary_container(
        &mut self,
        actual: Type,
        kind: ChalkContainerKind,
        item: &SupportedTy,
        place: &Vec<usize>,
        depth: usize,
    ) -> (result: TypeMatch)
        requires
            old(self).db.wf(),
            old(self).db.has_type(actual),
            depth <= old(self).expansion_limit,
        ensures
            final(self).frame(*old(self)),
            (result, final(self).known()) == eval_items(
                *old(self).db,
                old(self).limit(),
                actual,
                kind,
                *item,
                place@,
                depth as nat,
                old(self).pairs(),
                old(self).known(),
            ),
        decreases old(self).expansion_limit - depth, 1int, 0int,
    {
        match chalk::chalk_container_type(self.db, actual, kind) {
            ChalkContainerType::Unary(held) => {
                let child = child_place(place, 0);
                self.descend(held, Expected::Registry(item, &child), depth)
            },
            ChalkContainerType::Unavailable => TypeMatch::Inconclusive,
            _ => TypeMatch::NoMatch,
        }
    }

    fn match_mapping_container(
        &mut self,
        actual: Type,
        key_type: &SupportedTy,
        value_type: &SupportedTy,
        place: &Vec<usize>,
        depth: usize,
    ) -> (result: TypeMatch)
        requires
            old(self).db.wf(),
            old(self).db.has_type(actual),
            depth <= old(self).expansion_limit,
        ensures
            final(self).frame(*old(self)),
            (result, final(self).known()) == eval_mapping(
                *old(self).db,
                old(self).limit(),
                actual,
                *key_type,
                *value_type,
                place@,
                depth as nat,
                old(self).pairs(),
                old(self).known(),
            ),
        decreases old(self).expansion_limit - depth, 1int, 0int,
    {
        match chalk::chalk_container_type(self.db, actual, ChalkContainerKind::Dict) {
            ChalkContainerType::Mapping { key, value } => {
                let first = child_place(place, 0);
                let second = child_place(place, 1);
                let keys = self.descend(key, Expected::Registry(key_type, &first), depth);
                let values = self.descend(value, Expected::Registry(value_type, &second), depth);
                keys.all(values)
            },
            ChalkContainerType::Unavailable => TypeMatch::Inconclusive,
            _ => TypeMatch::NoMatch,
        }
    }

    fn match_tuple(
        &mut self,
        actual: Type,
        items: &Vec<SupportedTy>,
        is_variable: bool,
        place: &Vec<usize>,
        depth: usize,
    ) -> (result: TypeMatch)
        requires
            old(self).db.wf(),
            old(self).db.has_type(actual),
            depth <= old(self).expansion_limit,
        ensures
            final(self).frame(*old(self)),
            (result, final(self).known()) == eval_tuple(
                *old(self).db,
                old(self).limit(),
                actual,
                items@,
                is_variable,
                place@,
                depth as nat,
                old(self).pairs(),
                old(self).known(),
            ),
        decreases old(self).expansion_limit - depth, 1int, 0int,
    {
        let tuple = match chalk::chalk_container_type(self.db, actual, ChalkContainerKind::Tuple) {
            ChalkContainerType::Tuple(tuple) => tuple,
            ChalkContainerType::Unavailable => {
                return TypeMatch::Inconclusive;
            },
            _ => {
                return TypeMatch::NoMatch;
            },
        };
        if depth >= self.expansion_limit {
            return TypeMatch::Inconclusive;
        }
        let elements = tuple.elements;
        if is_variable {
            if items.len() == 0 {
                return TypeMatch::NoMatch;
            }
            let child = child_place(place, 0);
            let results = self.match_each(
                elements,
                Expected::Registry(&items[0], &child),
                depth + 1,
            );
            return TypeMatch::all_results(&results);
        }
        if tuple.is_variable || elements.len() != items.len() {
            return TypeMatch::NoMatch;
        }
        let results = self.match_pairwise(elements, items, place, depth + 1);
        TypeMatch::all_results(&results)
    }

    /// Matches the types of a list against the parts of a registry type at the same positions.
    fn match_pairwise(
        &mut self,
        types: &Vec<Type>,
        items: &Vec<SupportedTy>,
        place: &Vec<usize>,
        depth: usize,
    ) -> (results: Vec<TypeMatch>)
        requires
            old(self).db.wf(),
            old(self).db.has_types(types@),
            types@.len() == items@.len(),
            depth <= old(self).expansion_limit,
        ensures
            final(self).frame(*old(self)),
            (results@, final(self).known()) == eval_each(
                *old(self).db,
                old(self).limit(),
                pairwise(types@, items@, place@),
                depth as nat,
                old(self).pairs(),
                old(self).known(),
            ),
        decreases old(self).expansion_limit - depth, 7int, 0int,
    {
        let ghost tasks = pairwise(types@, items@, place@);
        let mut results: Vec<TypeMatch> = Vec::new();
        let mut i: usize = 0;
        assert(tasks.take(0) =~= Seq::<(Type, Wanted)>::empty());
        while i < types.len()
            invariant
                i <= types.len(),
                types@.len() == items@.len(),
                self.frame(*old(self)),
                self.db.wf(),
                self.db.has_types(types@),
                depth <= self.expansion_limit,
                tasks == pairwise(types@, items@, place@),
                (results@, self.known()) == eval_each(
                    *old(self).db,
                    old(self).limit(),
                    tasks.take(i as int),
                    depth as nat,
                    old(self).pairs(),
                    old(self).known(),
                ),
            decreases types.len() - i,
        {
            proof {
                assert(tasks.take(i + 1).drop_last() =~= tasks.take(i as int));
                assert(tasks.take(i + 1).last() == (
                    types@[i as int],
                    part(items@[i as int], place@, i),
                ));
            }
            let child = child_place(place, i);
            let result = self.match_type_at_depth(
                types[i],
                Expected::Registry(&items[i], &child),
                depth,
            );
            results.push(result);
            i = i + 1;
        }
        assert(tasks.take(tasks.len() as int) =~= tasks);
        results
    }

    fn match_json_container(&mut self, actual: Type, depth: usize) -> (result: TypeMatch)
        requires
            old(self).db.wf(),
            old(self).db.has_type(actual),
            depth <= old(self).expansion_limit,
        ensures
            final(self).frame(*old(self)),
            (result, final(self).known()) == eval_json(
                *old(self).db,
                old(self).limit(),
                actual,
                depth as nat,
                old(self).pairs(),
                old(self).known(),
            ),
        decreases old(self).expansion_limit - depth, 1int, 0int,
    {
        let list = match chalk::chalk_container_type(self.db, actual, ChalkContainerKind::List) {
            ChalkContainerType::Unary(item) => self.descend(item, Expected::JsonValue, depth),
            ChalkContainerType::Unavailable => TypeMatch::Inconclusive,
            _ => TypeMatch::NoMatch,
        };
        let dict = match chalk::chalk_container_type(self.db, actual, ChalkContainerKind::Dict) {
            ChalkContainerType::Mapping { key, value } => {
                let keys = self.descend(key, Expected::JsonStringKey, depth);
                let values = self.descend(value, Expected::JsonValue, depth);
                keys.all(values)
            },
            ChalkContainerType::Unavailable => TypeMatch::Inconclusive,
            _ => {
                if chalk::chalk_is_logical_struct(self.db, actual) {
                    TypeMatch::Inconclusive
                } else {
                    TypeMatch::NoMatch
                }
            },
        };
        list.any(dict)
    }

    fn match_json_value(&mut self, actual: Type, depth: usize) -> (result: TypeMatch)
        requires
            old(self).db.wf(),
            old(self).db.has_type(actual),
            depth <= old(self).expansion_limit,
        ensures
            final(self).frame(*old(self)),
            (result, final(self).known()) == eval_concrete(
                *old(self).db,
                old(self).limit(),
                actual,
                Wanted::JsonValue,
                depth as nat,
                old(self).pairs(),
                old(self).known(),
            ),
        decreases old(self).expansion_limit - depth, 2int, 0int,
    {
        if self.db.types[actual.id].is_none {
            return TypeMatch::Match;
        }
        let mut results: Vec<TypeMatch> = Vec::new();
        results.push(self.exact_instance(actual, "builtins", "bool"));
        results.push(self.exact_instance(actual, "builtins", "int"));
        results.push(self.exact_instance(actual, "builtins", "float"));
        results.push(self.exact_instance(actual, "builtins", "str"));
        assert(results@ =~= seq![
            instance_match(*self.db, actual, "builtins"@, "bool"@),
            instance_match(*self.db, actual, "builtins"@, "int"@),
            instance_match(*self.db, actual, "builtins"@, "float"@),
            instance_match(*self.db, actual, "builtins"@, "str"@),
        ]);
        let primitive = TypeMatch::any_results(&results);
        if primitive != TypeMatch::NoMatch {
            return primitive;
        }
        self.match_json_container(actual, depth)
    }

    fn match_accelerator_category(&mut self, actual: Type, name: &str, depth: usize) -> (result:
        TypeMatch)
        requires
            old(self).db.wf(),
            old(self).db.has_type(actual),
            depth <= old(self).expansion_limit,
        ensures
            final(self).frame(*old(self)),
            (result, final(self).known()) == eval_category(
                *old(self).db,
                old(self).limit(),
                actual,
                name@,
                depth as nat,
                old(self).pairs(),
                old(self).known(),
            ),
        decreases old(self).expansion_limit - depth, 2int, 0int,
    {
        if text::same_text(name, "TyEnum") {
            relation_to_match(chalk::chalk_is_enum(self.db, actual))
        } else if text::same_text(name, "TyJson") {
            self.match_json_container(actual, depth)
        } else if text::same_text(name, "TyLogicalStruct") {
            if chalk::chalk_is_logical_struct(self.db, actual) {
                TypeMatch::Match
            } else {
                TypeMatch::NoMatch
            }
        } else if text::same_text(name, "TyTuple") {
            match chalk::chalk_container_type(self.db, actual, ChalkContainerKind::Tuple) {
                ChalkContainerType::Tuple(_) => TypeMatch::Match,
                ChalkContainerType::Unavailable => TypeMatch::Inconclusive,
                _ => TypeMatch::NoMatch,
            }
        } else if text::same_text(name, "TyProto") {
            self.derived_from(actual, "google.protobuf.message", "Message")
        } else if text::same_text(name, "TyProtoEnum") {
            let wrapper = self.derived_from(
                actual,
                "google.protobuf.internal.enum_type_wrapper",
                "EnumTypeWrapper",
            );
            let plain = self.derived_from(actual, "enum", "Enum");
            wrapper.any(plain)
        } else {
            TypeMatch::Inconclusive
        }
    }

    fn exact_instance(&self, actual: Type, module: &str, name: &str) -> (result: TypeMatch)
        requires
            self.db.wf(),
            self.db.has_type(actual),
        ensures
            result == instance_match(*self.db, actual, module@, name@),
    {
        relation_to_match(chalk::chalk_exact_instance_class(self.db, actual, module, name))
    }

    fn derived_from(&self, actual: Type, module: &str, name: &str) -> (result: TypeMatch)
        requires
            self.db.wf(),
            self.db.has_type(actual),
        ensures
            result == class_match(*self.db, actual, module@, name@),
    {
        relation_to_match(chalk::chalk_class_derived_from(self.db, actual, module, name))
    }

    fn instance_derived_from(&self, actual: Type, module: &str, name: &str) -> (result: TypeMatch)
        requires
            self.db.wf(),
            self.db.has_type(actual),
        ensures
            result == derived_match(*self.db, actual, module@, name@),
    {
        relation_to_match(chalk::chalk_instance_derived_from(self.db, actual, module, name))
    }

    fn descend(&mut self, actual: Type, expected: Expected<'_>, depth: usize) -> (result: TypeMatch)
        requires
            old(self).db.wf(),
            old(self).db.has_type(actual),
            depth <= old(self).expansion_limit,
        ensures
            final(self).frame(*old(self)),
            (result, final(self).known()) == self::descend(
                *old(self).db,
                old(self).limit(),
                actual,
                expected.wanted(),
                depth as nat,
                old(self).pairs(),
                old(self).known(),
            ),
        decreases old(self).expansion_limit - depth, 0int, 0int,
    {
        if depth < self.expansion_limit {
            self.match_type_at_depth(actual, expected, depth + 1)
        } else {
            TypeMatch::Inconclusive
        }
    }
}

proof fn lemma_pairs_push(active: Seq<ActivePair>, pair: ActivePair)
    ensures
        pairs_of(active.push(pair)) =~= pairs_of(active).insert(pair@),
{
    let longer = active.push(pair);
    assert forall|p: Pair| #[trigger] pairs_of(longer).contains(p) == pairs_of(active).insert(
        pair@,
    ).contains(p) by {
        if pairs_of(active).contains(p) {
            let i = choose|i: int| 0 <= i < active.len() && (#[trigger] active[i])@ == p;
            assert(longer[i]@ == p);
        }
        if p == pair@ {
            assert(longer[active.len() as int]@ == p);
        }
        if pairs_of(longer).contains(p) {
            let i = choose|i: int| 0 <= i < longer.len() && (#[trigger] longer[i])@ == p;
            if i < active.len() {
                assert(active[i]@ == p);
            }
        }
    }
}

/// Once one type of a list matches, the rest changes nothing.
proof fn lemma_some_stays(
    db: Db,
    limit: nat,
    types: Seq<Type>,
    wanted: Wanted,
    depth: nat,
    active: Set<Pair>,
    memo: Memo,
    n: int,
)
    requires
        0 <= n <= types.len(),
        eval_some(db, limit, types.take(n), wanted, depth, active, memo).0,
    ensures
        eval_some(db, limit, types, wanted, depth, active, memo) == eval_some(
            db,
            limit,
            types.take(n),
            wanted,
            depth,
            active,
            memo,
        ),
    decreases types.len() - n,
{
    if n < types.len() {
        assert(types.take(n + 1).drop_last() =~= types.take(n));
        lemma_some_stays(db, limit, types, wanted, depth, active, memo, n + 1);
    } else {
        assert(types.take(n) =~= types);
    }
}

fn relation_to_match(relation: ChalkClassRelation) -> (result: TypeMatch)
    ensures
        result == as_match(relation),
{
    match relation {
        ChalkClassRelation::Match => TypeMatch::Match,
        ChalkClassRelation::NoMatch => TypeMatch::NoMatch,
        ChalkClassRelation::Unavailable => TypeMatch::Inconclusive,
    }
}

/// Matches a type against a registry type, expanding types to a given depth.
pub fn match_type_within(db: &Db, actual: Type, expected: &SupportedTy, expansion_limit: usize) -> (
result: TypeMatch)
    requires
        db.wf(),
        db.has_type(actual),
    ensures
        result == type_match(*db, expansion_limit as nat, actual, *expected),
{
    let mut matcher = Matcher::new(db, expansion_limit);
    let root: Vec<usize> = Vec::new();
    matcher.match_type(actual, Expected::Registry(expected, &root))
}

/// Matches a type against a registry type.
pub fn match_supported_type(db: &Db, actual: Type, expected: &SupportedTy) -> (result: TypeMatch)
    requires
        db.wf(),
        db.has_type(actual),
    ensures
        result == type_match(*db, DEFAULT_EXPANSION_LIMIT as nat, actual, *expected),
{
    match_type_within(db, actual, expected, DEFAULT_EXPANSION_LIMIT)
}

} // verus!

//! What conditions on features say, told by the values that make them true or false.

use vstd::prelude::*;

use crate::feature_paths;
use crate::feature_paths::{
    CalledFunction, ChalkIfThenElseRefinements, ChalkPathRefinement, Comparator, Connective,
    Expression, ExpressionKind, Key, Manner, Operator, Path, Refinement, UnaryOperator,
};
use crate::features;
use crate::features::Scope;
use crate::semantic::{Db, Type};

verus! {

// ---------------------------------------------------------------------------------------------
// Truth
// ---------------------------------------------------------------------------------------------

/// The feature that an expression names.
pub open spec fn feature_named(db: Db, scope: Scope, expression: Expression) -> Option<Key> {
    match feature_paths::path_of(expression) {
        Some(path) => feature_paths::key(db, scope, path, path.members.len() as int),
        None => None,
    }
}

/// Whether a comparison can have a truth value, given which features are `None`.
pub open spec fn comparison_can_be(
    db: Db,
    scope: Scope,
    left: Expression,
    operator: Comparator,
    right: Expression,
    value: bool,
    absent: spec_fn(Key) -> bool,
) -> bool {
    let feature = if right.kind is NoneLiteral {
        feature_named(db, scope, left)
    } else if left.kind is NoneLiteral {
        feature_named(db, scope, right)
    } else {
        None
    };
    match feature {
        Some(feature) => match operator {
            Comparator::Equal => value == absent(feature),
            Comparator::Is => value == absent(feature),
            Comparator::NotEqual => value == !absent(feature),
            Comparator::IsNot => value == !absent(feature),
            Comparator::Other => true,
        },
        None => true,
    }
}

/// Whether a condition can have a truth value, given which features are `None`. Of what is not a
/// comparison with `None`, or composed of such, nothing is known.
pub open spec fn can_be(
    db: Db,
    scope: Scope,
    expression: Expression,
    value: bool,
    absent: spec_fn(Key) -> bool,
) -> bool
    decreases expression,
{
    match expression.kind {
        ExpressionKind::Compare { left, operators, others } => operators@.len() == 1
            && others@.len() == 1 ==> comparison_can_be(
            db,
            scope,
            *left,
            operators@[0],
            others@[0],
            value,
            absent,
        ),
        ExpressionKind::Binary { operator, left, right } => match operator {
            Operator::BitAnd => if value {
                can_be(db, scope, *left, true, absent) && can_be(db, scope, *right, true, absent)
            } else {
                can_be(db, scope, *left, false, absent) || can_be(db, scope, *right, false, absent)
            },
            Operator::BitOr => if value {
                can_be(db, scope, *left, true, absent) || can_be(db, scope, *right, true, absent)
            } else {
                can_be(db, scope, *left, false, absent) && can_be(db, scope, *right, false, absent)
            },
            Operator::Other => true,
        },
        ExpressionKind::Boolean { connective, values } => match connective {
            Connective::And => value ==> forall|i: int|
                0 <= i < values@.len() ==> can_be(db, scope, #[trigger] values@[i], true, absent),
            Connective::Or => !value ==> forall|i: int|
                0 <= i < values@.len() ==> can_be(db, scope, #[trigger] values@[i], false, absent),
        },
        ExpressionKind::Unary { sign, operand } => match sign {
            UnaryOperator::Not => can_be(db, scope, *operand, !value, absent),
            UnaryOperator::Invert => can_be(db, scope, *operand, !value, absent),
            UnaryOperator::Other => true,
        },
        _ => true,
    }
}

/// Whether what is said of features is so.
pub open spec fn are_so(known: Seq<Refinement>, absent: spec_fn(Key) -> bool) -> bool {
    forall|i: int|
        0 <= i < known.len() ==> match (#[trigger] known[i]).says {
            ChalkPathRefinement::OnlyNone => absent(known[i].path),
            ChalkPathRefinement::NonNone => !absent(known[i].path),
        }
}

proof fn lemma_are_so_join(
    first: Seq<Refinement>,
    second: Seq<Refinement>,
    absent: spec_fn(Key) -> bool,
)
    requires
        are_so(first, absent),
        are_so(second, absent),
    ensures
        are_so(first + second, absent),
{
    let both = first + second;
    assert forall|i: int| 0 <= i < both.len() implies match (#[trigger] both[i]).says {
        ChalkPathRefinement::OnlyNone => absent(both[i].path),
        ChalkPathRefinement::NonNone => !absent(both[i].path),
    } by {
        if i < first.len() {
            assert(both[i] == first[i]);
        } else {
            assert(both[i] == second[i - first.len()]);
        }
    }
}

/// What a condition says is so wherever it says it: if a condition can be true for some features
/// being `None`, then what it says where it is true holds of them, and in the same way where it is
/// false.
pub proof fn law_conditions_say_what_is_so(
    db: Db,
    scope: Scope,
    expression: Expression,
    truthy: bool,
    absent: spec_fn(Key) -> bool,
)
    requires
        can_be(db, scope, expression, truthy, absent),
    ensures
        are_so(feature_paths::condition(db, scope, expression, truthy), absent),
    decreases expression, 0int,
{
    match expression.kind {
        ExpressionKind::Binary { operator, left, right } => {
            if (truthy && operator == Operator::BitAnd) || (!truthy && operator
                == Operator::BitOr) {
                law_conditions_say_what_is_so(db, scope, *left, truthy, absent);
                law_conditions_say_what_is_so(db, scope, *right, truthy, absent);
                lemma_are_so_join(
                    feature_paths::condition(db, scope, *left, truthy),
                    feature_paths::condition(db, scope, *right, truthy),
                    absent,
                );
            }
        },
        ExpressionKind::Boolean { connective, values } => {
            if truthy == (connective == Connective::And) {
                lemma_all_say_what_is_so(db, scope, values, truthy, values@.len(), absent);
            }
        },
        ExpressionKind::Unary { sign, operand } => {
            if sign != UnaryOperator::Other {
                law_conditions_say_what_is_so(db, scope, *operand, !truthy, absent);
            }
        },
        _ => {},
    }
}

proof fn lemma_all_say_what_is_so(
    db: Db,
    scope: Scope,
    values: Vec<Expression>,
    truthy: bool,
    count: nat,
    absent: spec_fn(Key) -> bool,
)
    requires
        count <= values@.len(),
        forall|i: int|
            0 <= i < values@.len() ==> can_be(db, scope, #[trigger] values@[i], truthy, absent),
    ensures
        are_so(feature_paths::conditions(db, scope, values, truthy, count), absent),
    decreases values, count,
{
    if count > 0 {
        lemma_all_say_what_is_so(db, scope, values, truthy, (count - 1) as nat, absent);
        law_conditions_say_what_is_so(db, scope, values@[count - 1], truthy, absent);
        lemma_are_so_join(
            feature_paths::conditions(db, scope, values, truthy, (count - 1) as nat),
            feature_paths::condition(db, scope, values@[count - 1], truthy),
            absent,
        );
    }
}

// ---------------------------------------------------------------------------------------------
// Comparisons and connectives
// ---------------------------------------------------------------------------------------------

/// Whether an expression compares two others, in either order, by one operator.
pub open spec fn compares(
    expression: Expression,
    one: Expression,
    operator: Comparator,
    other: Expression,
) -> bool {
    expression.kind matches ExpressionKind::Compare { left, operators, others } && operators@
        == seq![operator] && (*left == one && others@ == seq![other] || *left == other && others@
        == seq![one])
}

/// A feature is known not to be `None` where `feature != None` or `feature is not None` is true and
/// where `feature == None` or `feature is None` is false, and known to be `None` in the other
/// branch of each, with `None` on either side. No other comparison with `None` says anything.
pub proof fn law_comparisons_with_none_tell_both_branches(
    db: Db,
    scope: Scope,
    expression: Expression,
    feature: Expression,
    operator: Comparator,
    none: Expression,
    key: Key,
)
    requires
        compares(expression, feature, operator, none),
        none.kind is NoneLiteral,
        feature_named(db, scope, feature) == Some(key),
    ensures
        ({
            let if_true = feature_paths::condition(db, scope, expression, true);
            let if_false = feature_paths::condition(db, scope, expression, false);
            let present = seq![Refinement { path: key, says: ChalkPathRefinement::NonNone }];
            let absent = seq![Refinement { path: key, says: ChalkPathRefinement::OnlyNone }];
            &&& operator == Comparator::NotEqual || operator == Comparator::IsNot ==> if_true
                == present && if_false == absent
            &&& operator == Comparator::Equal || operator == Comparator::Is ==> if_true == absent
                && if_false == present
            &&& operator == Comparator::Other ==> if_true.len() == 0 && if_false.len() == 0
        }),
{
    assert(expression.kind->operators@.len() == 1 && expression.kind->operators@[0] == operator);
    assert(expression.kind->others@.len() == 1);
}

/// `feature != None` says where it is true what `feature == None` says where it is false, and the
/// other way round; so do `is not` and `is`, whatever is compared.
pub proof fn law_opposite_comparisons_swap_branches(
    db: Db,
    scope: Scope,
    one: Expression,
    other: Expression,
    left: Expression,
    right: Expression,
    truthy: bool,
)
    requires
        ({
            ||| compares_in_order(one, left, Comparator::NotEqual, right) && compares_in_order(
                other,
                left,
                Comparator::Equal,
                right,
            )
            ||| compares_in_order(one, left, Comparator::IsNot, right) && compares_in_order(
                other,
                left,
                Comparator::Is,
                right,
            )
        }),
    ensures
        feature_paths::condition(db, scope, one, truthy) == feature_paths::condition(
            db,
            scope,
            other,
            !truthy,
        ),
{
    assert(one.kind->operators@.len() == 1);
    assert(other.kind->operators@.len() == 1);
    assert(one.kind->others@[0] == right && other.kind->others@[0] == right);
}

/// Whether an expression compares two others by one operator.
pub open spec fn compares_in_order(
    expression: Expression,
    one: Expression,
    operator: Comparator,
    other: Expression,
) -> bool {
    expression.kind matches ExpressionKind::Compare { left, operators, others } && operators@
        == seq![operator] && *left == one && others@ == seq![other]
}

/// A comparison that names no feature, is not with `None`, or is chained says nothing.
pub proof fn law_other_comparisons_say_nothing(
    db: Db,
    scope: Scope,
    expression: Expression,
    truthy: bool,
)
    requires
        expression.kind matches ExpressionKind::Compare { left, operators, others } && (
        operators@.len() != 1 || others@.len() != 1 || (left.kind !is NoneLiteral && others@[0].kind
            !is NoneLiteral) || (feature_named(db, scope, *left) is None && feature_named(
            db,
            scope,
            others@[0],
        ) is None)),
    ensures
        feature_paths::condition(db, scope, expression, truthy).len() == 0,
{
}

/// A negation says in one branch what its operand says in the other.
pub proof fn law_negation_swaps_branches(
    db: Db,
    scope: Scope,
    expression: Expression,
    operand: Expression,
    truthy: bool,
)
    requires
        expression.kind matches ExpressionKind::Unary { sign, operand: inner } && *inner == operand
            && (sign == UnaryOperator::Not || sign == UnaryOperator::Invert),
    ensures
        feature_paths::condition(db, scope, expression, truthy) == feature_paths::condition(
            db,
            scope,
            operand,
            !truthy,
        ),
{
}

/// Where `a & b` is true, all that `a` and then `b` say where they are true is known, and where
/// `a | b` is false, all that they say where they are false. The other branches say nothing.
pub proof fn law_both_sides_are_known(
    db: Db,
    scope: Scope,
    expression: Expression,
    operator: Operator,
    first: Expression,
    second: Expression,
)
    requires
        expression.kind matches ExpressionKind::Binary { operator: own, left, right } && own
            == operator && *left == first && *right == second,
    ensures
        ({
            let if_true = feature_paths::condition(db, scope, expression, true);
            let if_false = feature_paths::condition(db, scope, expression, false);
            &&& operator == Operator::BitAnd ==> if_true == feature_paths::condition(
                db,
                scope,
                first,
                true,
            ) + feature_paths::condition(db, scope, second, true) && if_false.len() == 0
            &&& operator == Operator::BitOr ==> if_false == feature_paths::condition(
                db,
                scope,
                first,
                false,
            ) + feature_paths::condition(db, scope, second, false) && if_true.len() == 0
            &&& operator == Operator::Other ==> if_true.len() == 0 && if_false.len() == 0
        }),
{
}

/// Where `a and b and ..` is true, exactly what some part says where it is true is known, and where
/// `a or b or ..` is false, exactly what some part says where it is false. The other branches say
/// nothing.
pub proof fn law_all_parts_are_known(
    db: Db,
    scope: Scope,
    expression: Expression,
    connective: Connective,
    values: Vec<Expression>,
    truthy: bool,
    item: Refinement,
)
    requires
        expression.kind == (ExpressionKind::Boolean { connective, values }),
    ensures
        feature_paths::condition(db, scope, expression, truthy).contains(item) <==> (match connective {
            Connective::And => truthy,
            Connective::Or => !truthy,
        }) && exists|i: int|
            0 <= i < values@.len() && feature_paths::condition(
                db,
                scope,
                #[trigger] values@[i],
                truthy,
            ).contains(item),
{
    lemma_parts(db, scope, values, truthy, values@.len(), item);
}

proof fn lemma_parts(
    db: Db,
    scope: Scope,
    values: Vec<Expression>,
    truthy: bool,
    count: nat,
    item: Refinement,
)
    requires
        count <= values@.len(),
    ensures
        feature_paths::conditions(db, scope, values, truthy, count).contains(item) <==> exists|
            i: int,
        |
            0 <= i < count && feature_paths::condition(
                db,
                scope,
                #[trigger] values@[i],
                truthy,
            ).contains(item),
    decreases count,
{
    if count > 0 {
        let fewer = (count - 1) as nat;
        lemma_parts(db, scope, values, truthy, fewer, item);
        let first = feature_paths::conditions(db, scope, values, truthy, fewer);
        let last = feature_paths::condition(db, scope, values@[count - 1], truthy);
        let both = feature_paths::conditions(db, scope, values, truthy, count);
        assert(both == first + last);
        if first.contains(item) {
            let k = choose|k: int| 0 <= k < first.len() && first[k] == item;
            assert(both[k] == item);
        }
        if last.contains(item) {
            let k = choose|k: int| 0 <= k < last.len() && last[k] == item;
            assert(both[first.len() + k] == item);
        }
        if both.contains(item) {
            let k = choose|k: int| 0 <= k < both.len() && both[k] == item;
            if k < first.len() {
                assert(first[k] == item);
            } else {
                assert(last[k - first.len()] == item);
            }
        }
    }
}

// ---------------------------------------------------------------------------------------------
// Refined types
// ---------------------------------------------------------------------------------------------

/// In the branch where a feature is known not to be `None` its type is what is left without `None`,
/// in the other branch only `None`; a type that is no union stays as it is, and so does that of any
/// other feature.
pub proof fn law_branches_narrow_the_feature(
    db: Db,
    scope: Scope,
    expression: Expression,
    feature: Expression,
    operator: Comparator,
    none: Expression,
    key: Key,
    other: Key,
    ty: Type,
)
    requires
        compares(expression, feature, operator, none),
        none.kind is NoneLiteral,
        operator == Comparator::NotEqual || operator == Comparator::IsNot,
        feature_named(db, scope, feature) == Some(key),
        other != key,
    ensures
        ({
            let if_true = feature_paths::condition(db, scope, expression, true);
            let if_false = feature_paths::condition(db, scope, expression, false);
            &&& match db.ty(ty).parts {
                Some(parts) => {
                    &&& feature_paths::refined(db, if_true, key, ty) == parts.without_none
                    &&& feature_paths::refined(db, if_false, key, ty) == parts.only_none
                },
                None => {
                    &&& feature_paths::refined(db, if_true, key, ty) == ty
                    &&& feature_paths::refined(db, if_false, key, ty) == ty
                },
            }
            &&& feature_paths::refined(db, if_true, other, ty) == ty
            &&& feature_paths::refined(db, if_false, other, ty) == ty
        }),
{
    law_comparisons_with_none_tell_both_branches(
        db,
        scope,
        expression,
        feature,
        operator,
        none,
        key,
    );
    let if_true = feature_paths::condition(db, scope, expression, true);
    let if_false = feature_paths::condition(db, scope, expression, false);
    assert(if_true.drop_last() =~= Seq::empty());
    assert(if_false.drop_last() =~= Seq::empty());
    reveal_with_fuel(feature_paths::refined, 2);
}

/// What is known first narrows first, and what is known of other features narrows nothing.
pub proof fn law_refinements_apply_in_order(
    db: Db,
    first: Seq<Refinement>,
    second: Seq<Refinement>,
    key: Key,
    ty: Type,
)
    ensures
        feature_paths::refined(db, first + second, key, ty) == feature_paths::refined(
            db,
            second,
            key,
            feature_paths::refined(db, first, key, ty),
        ),
        (forall|i: int| 0 <= i < first.len() ==> (#[trigger] first[i]).path != key)
            ==> feature_paths::refined(db, first, key, ty) == ty,
    decreases second.len(), first.len(),
{
    if second.len() > 0 {
        law_refinements_apply_in_order(db, first, second.drop_last(), key, ty);
        assert((first + second).drop_last() =~= first + second.drop_last());
        assert((first + second).last() == second.last());
    } else {
        assert(first + second =~= first);
        if first.len() > 0 {
            law_refinements_apply_in_order(db, first.drop_last(), second, key, ty);
            assert(forall|i: int|
                0 <= i < first.len() - 1 ==> #[trigger] first.drop_last()[i] == first[i]);
            assert(first.last() == first[first.len() - 1]);
        }
    }
}

/// In the second argument of `if_then_else` is known what its condition says where it is true, in
/// the third what it says where it is false, and in the condition itself nothing.
pub proof fn law_branches_know_the_condition(
    db: Db,
    scope: Scope,
    refinements: ChalkIfThenElseRefinements,
    condition: Expression,
    feature: Expression,
    none: Expression,
    key: Key,
)
    requires
        refinements.if_true@ == feature_paths::condition(db, scope, condition, true),
        refinements.if_false@ == feature_paths::condition(db, scope, condition, false),
        compares(condition, feature, Comparator::NotEqual, none),
        none.kind is NoneLiteral,
        feature_named(db, scope, feature) == Some(key),
    ensures
        feature_paths::known_in_argument(Some(refinements), 0).len() == 0,
        feature_paths::known_in_argument(Some(refinements), 1) == seq![
            Refinement { path: key, says: ChalkPathRefinement::NonNone },
        ],
        feature_paths::known_in_argument(Some(refinements), 2) == seq![
            Refinement { path: key, says: ChalkPathRefinement::OnlyNone },
        ],
        feature_paths::known_in_argument(None, 1).len() == 0,
        feature_paths::known_in_argument(None, 2).len() == 0,
{
    law_comparisons_with_none_tell_both_branches(
        db,
        scope,
        condition,
        feature,
        Comparator::NotEqual,
        none,
        key,
    );
}

/// A call is a conditional expression only as `if_then_else` of one of the two modules that offer
/// it, with three arguments by position, none of them unpacked.
pub proof fn law_conditional_expressions_are_plain_calls(
    name: String,
    module: String,
    arguments: Seq<Expression>,
    has_keywords: bool,
)
    ensures
        feature_paths::is_if_then_else(
            Some(CalledFunction { name, module: Some(module) }),
            arguments,
            has_keywords,
        ) <==> name@ == "if_then_else"@ && (module@ == "chalk.functions"@ || module@
            == "chalk.features.underscore"@) && !has_keywords && arguments.len() == 3
            && arguments[0].kind !is Starred && arguments[1].kind !is Starred
            && arguments[2].kind !is Starred,
        !feature_paths::is_if_then_else(None, arguments, has_keywords),
        !feature_paths::is_if_then_else(
            Some(CalledFunction { name, module: None }),
            arguments,
            has_keywords,
        ),
{
}

// ---------------------------------------------------------------------------------------------
// Paths
// ---------------------------------------------------------------------------------------------

/// The type at the end of the first members of a resolved path.
pub open spec fn type_before(start: Type, found: Seq<feature_paths::Found>, i: int) -> Type {
    if i == 0 {
        start
    } else {
        found[i - 1].ty
    }
}

/// Whether a member of a path is the feature of its name of what stands before it, narrowed by all
/// that is known of the path up to there.
pub open spec fn is_narrowed_feature(
    db: Db,
    scope: Scope,
    known: Seq<Refinement>,
    path: Path,
    manner: Manner,
    before: Type,
    i: int,
    found: feature_paths::Found,
) -> bool {
    let owner = if manner.pass_optional {
        features::present(db, before)
    } else {
        before
    };
    &&& found.name == path.members[i].name
    &&& features::feature_member(db, scope, owner, path.members[i].name) matches Some(feature)
    &&& match feature_paths::key(db, scope, path, i + 1) {
        Some(key) => found.ty == feature_paths::refined(db, known, key, feature),
        None => found.ty == feature,
    }
}

/// Whether types are those of all members of a path, one after the other.
pub open spec fn are_narrowed_features(
    db: Db,
    scope: Scope,
    known: Seq<Refinement>,
    path: Path,
    start: Type,
    manner: Manner,
    found: Seq<feature_paths::Found>,
) -> bool {
    found.len() == path.members.len() && forall|i: int|
        0 <= i < found.len() ==> is_narrowed_feature(
            db,
            scope,
            known,
            path,
            manner,
            type_before(start, found, i),
            i,
            #[trigger] found[i],
        )
}

/// Each member of a resolved path is the feature of its name of what stands before it, narrowed by
/// all that is known of the path up to there. Where some member is no such feature, the path is not
/// resolved.
pub proof fn law_members_are_features_of_what_stands_before(
    db: Db,
    scope: Scope,
    known: Seq<Refinement>,
    path: Path,
    start: Type,
    manner: Manner,
)
    requires
        !manner.diagnose_missing,
    ensures
        match feature_paths::resolved(db, scope, known, path, start, manner) {
            Some(result) => result.report is None && are_narrowed_features(
                db,
                scope,
                known,
                path,
                start,
                manner,
                result.members,
            ),
            None => forall|found: Seq<feature_paths::Found>|
                !#[trigger] are_narrowed_features(db, scope, known, path, start, manner, found),
        },
{
    lemma_members_from(db, scope, known, path, start, manner, 0);
    if feature_paths::resolved(db, scope, known, path, start, manner) is None {
        assert forall|found: Seq<feature_paths::Found>|
            !#[trigger] are_narrowed_features(db, scope, known, path, start, manner, found) by {
            if found.len() == path.members.len() {
                let i = lemma_some_member_fails(db, scope, known, path, start, manner, 0, found);
                assert(!is_narrowed_feature(
                    db,
                    scope,
                    known,
                    path,
                    manner,
                    type_before(start, found, i),
                    i,
                    found[i],
                ));
            }
        }
    }
}

proof fn lemma_some_member_fails(
    db: Db,
    scope: Scope,
    known: Seq<Refinement>,
    path: Path,
    current: Type,
    manner: Manner,
    at: int,
    found: Seq<feature_paths::Found>,
) -> (i: int)
    requires
        !manner.diagnose_missing,
        0 <= at <= path.members.len(),
        found.len() == path.members.len() - at,
        feature_paths::resolved_from(db, scope, known, path, current, manner, at) is None,
    ensures
        0 <= i < found.len(),
        !is_narrowed_feature(
            db,
            scope,
            known,
            path,
            manner,
            type_before(current, found, i),
            at + i,
            found[i],
        ),
    decreases path.members.len() - at,
{
    if !is_narrowed_feature(db, scope, known, path, manner, current, at, found[0]) {
        0
    } else {
        let rest = found.drop_first();
        let i = lemma_some_member_fails(
            db,
            scope,
            known,
            path,
            found[0].ty,
            manner,
            at + 1,
            rest,
        );
        assert(rest[i] == found[i + 1]);
        assert(type_before(found[0].ty, rest, i) == type_before(current, found, i + 1));
        i + 1
    }
}

proof fn lemma_members_from(
    db: Db,
    scope: Scope,
    known: Seq<Refinement>,
    path: Path,
    current: Type,
    manner: Manner,
    at: int,
)
    requires
        !manner.diagnose_missing,
        0 <= at <= path.members.len(),
    ensures
        match feature_paths::resolved_from(db, scope, known, path, current, manner, at) {
            Some(result) => {
                &&& result.members.len() == path.members.len() - at
                &&& result.report is None
                &&& forall|i: int|
                    0 <= i < result.members.len() ==> is_narrowed_feature(
                        db,
                        scope,
                        known,
                        path,
                        manner,
                        type_before(current, result.members, i),
                        at + i,
                        #[trigger] result.members[i],
                    )
            },
            None => true,
        },
    decreases path.members.len() - at,
{
    if at < path.members.len() {
        let owner = feature_paths::owner_of(db, manner, current);
        if let Some(member) = features::feature_member(db, scope, owner, path.members[at].name) {
            let ty = feature_paths::refined_member(db, scope, known, path, at + 1, member);
            lemma_members_from(db, scope, known, path, ty, manner, at + 1);
            if let Some(rest) = feature_paths::resolved_from(
                db,
                scope,
                known,
                path,
                ty,
                manner,
                at + 1,
            ) {
                let result = feature_paths::resolved_from(
                    db,
                    scope,
                    known,
                    path,
                    current,
                    manner,
                    at,
                )->0;
                assert(result.members[0].ty == ty);
                assert forall|i: int| 0 <= i < result.members.len() implies is_narrowed_feature(
                    db,
                    scope,
                    known,
                    path,
                    manner,
                    type_before(current, result.members, i),
                    at + i,
                    #[trigger] result.members[i],
                ) by {
                    if i > 0 {
                        assert(result.members[i] == rest.members[i - 1]);
                        assert(type_before(ty, rest.members, i - 1) == type_before(
                            current,
                            result.members,
                            i,
                        ));
                        assert(at + 1 + (i - 1) == at + i);
                        assert(is_narrowed_feature(
                            db,
                            scope,
                            known,
                            path,
                            manner,
                            type_before(ty, rest.members, i - 1),
                            at + 1 + (i - 1),
                            rest.members[i - 1],
                        ));
                    }
                }
            }
        }
    }
}

/// What a path means starts at the class of features that its root is, or, for `_`, at the rows
/// that it stands for, and goes on by the names of its members; a path with any other root means
/// nothing.
pub proof fn law_paths_mean_features_of_their_root(
    db: Db,
    scope: Scope,
    path: Path,
    count: int,
)
    requires
        0 <= count <= path.members.len(),
    ensures
        match feature_paths::key(db, scope, path, count) {
            Some(key) => {
                &&& key.members.len() == count
                &&& forall|i: int|
                    0 <= i < count ==> #[trigger] key.members[i] == path.members[i].name
                &&& if features::is_features_class(db, path.root) {
                    key.root == path.root
                } else {
                    features::is_symbol(scope, path.root, "_"@) && (if scope.row is Some {
                        scope.row == Some(key.root)
                    } else {
                        scope.enclosing == Some(key.root) && features::in_features_class(db, scope)
                    })
                }
            },
            None => {
                &&& !features::is_features_class(db, path.root)
                &&& features::is_symbol(scope, path.root, "_"@) ==> scope.row is None && (
                !features::in_features_class(db, scope) || scope.enclosing is None)
            },
        },
{
}

} // verus!

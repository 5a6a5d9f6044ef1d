//! What holds of features, whatever the program is.

use vstd::prelude::*;

use crate::feature_calls;
use crate::feature_calls::BoundOverload;
use crate::feature_expressions;
use crate::feature_expressions::{Child, Shape};
use crate::feature_paths;
use crate::feature_paths::{
    ChalkIfThenElseRefinements, Expression, ExpressionKind, Found, Key, Manner, Path, Refinement,
    UnaryOperator,
};
use crate::features;
use crate::features::Scope;
use crate::semantic::{Db, Field, Type};

verus! {

// ---------------------------------------------------------------------------------------------
// Conditions
// ---------------------------------------------------------------------------------------------

/// What is known around a conditional expression is known again after each of its arguments.
pub proof fn law_leaving_undoes_entering(
    known: Seq<Refinement>,
    refinements: Option<ChalkIfThenElseRefinements>,
    index: int,
)
    ensures
        (known + feature_paths::known_in_argument(refinements, index)).take(known.len() as int)
            == known,
{
    assert((known + feature_paths::known_in_argument(refinements, index)).take(
        known.len() as int,
    ) =~= known);
}

/// Negating a condition swaps what is known where it is true and where it is false.
pub proof fn law_negation_swaps_branches(
    db: Db,
    scope: Scope,
    node: usize,
    sign: UnaryOperator,
    operand: Box<Expression>,
    truthy: bool,
)
    requires
        sign != UnaryOperator::Other,
    ensures
        feature_paths::condition(
            db,
            scope,
            Expression { node, kind: ExpressionKind::Unary { sign, operand } },
            truthy,
        ) == feature_paths::condition(db, scope, *operand, !truthy),
{
}

/// The condition itself is judged by what is known around it: only the second and the third
/// argument of a conditional expression know more.
pub proof fn law_only_branches_know_more(
    refinements: Option<ChalkIfThenElseRefinements>,
    index: int,
)
    requires
        index != 1,
        index != 2,
    ensures
        feature_paths::known_in_argument(refinements, index) == Seq::<Refinement>::empty(),
{
}

/// What is known of other paths does not touch a path.
pub proof fn law_refinements_are_exact(db: Db, known: Seq<Refinement>, key: Key, ty: Type)
    requires
        forall|i: int| 0 <= i < known.len() ==> (#[trigger] known[i]).path != key,
    ensures
        feature_paths::refined(db, known, key, ty) == ty,
    decreases known.len(),
{
    if known.len() > 0 {
        assert(known[known.len() - 1].path != key);
        assert forall|i: int| 0 <= i < known.drop_last().len() implies (
        #[trigger] known.drop_last()[i]).path != key by {
            assert(known.drop_last()[i] == known[i]);
        }
        law_refinements_are_exact(db, known.drop_last(), key, ty);
    }
}

// ---------------------------------------------------------------------------------------------
// Paths
// ---------------------------------------------------------------------------------------------

proof fn lemma_stored_nodes(
    db: Db,
    scope: Scope,
    known: Seq<Refinement>,
    path: Path,
    current: Type,
    manner: Manner,
    at: int,
)
    requires
        0 <= at <= path.members.len(),
        feature_paths::resolved_from(db, scope, known, path, current, manner, at) is Some,
    ensures
        ({
            let result = feature_paths::resolved_from(
                db,
                scope,
                known,
                path,
                current,
                manner,
                at,
            )->Some_0;
            &&& result.stored.len() <= path.members.len() - at
            &&& forall|i: int|
                0 <= i < result.stored.len() ==> (#[trigger] result.stored[i]).node
                    == path.members[at + i].node
        }),
    decreases path.members.len() - at,
{
    if at < path.members.len() {
        let result = feature_paths::resolved_from(
            db,
            scope,
            known,
            path,
            current,
            manner,
            at,
        )->Some_0;
        match features::feature_member(
            db,
            scope,
            feature_paths::owner_of(db, manner, current),
            path.members[at].name,
        ) {
            None => {},
            Some(member) => {
                let ty = feature_paths::refined_member(db, scope, known, path, at + 1, member);
                lemma_stored_nodes(db, scope, known, path, ty, manner, at + 1);
                let rest = feature_paths::resolved_from(
                    db,
                    scope,
                    known,
                    path,
                    ty,
                    manner,
                    at + 1,
                )->Some_0;
                assert forall|i: int| 0 <= i < result.stored.len() implies (
                #[trigger] result.stored[i]).node == path.members[at + i].node by {
                    if manner.store_terminal || at != path.members.len() - 1 {
                        if i > 0 {
                            assert(result.stored[i] == rest.stored[i - 1]);
                        }
                    } else {
                        assert(result.stored =~= rest.stored);
                    }
                }
            },
        }
    }
}

/// No expression in a path is given two types, where the expressions are told apart.
pub proof fn law_expressions_are_typed_once(
    db: Db,
    scope: Scope,
    known: Seq<Refinement>,
    path: Path,
    start: Type,
    manner: Manner,
    i: int,
    j: int,
)
    requires
        forall|a: int, b: int|
            0 <= a < b < path.members.len() ==> (#[trigger] path.members[a]).node != (
            #[trigger] path.members[b]).node,
        forall|a: int|
            0 <= a < path.members.len() ==> (#[trigger] path.members[a]).node != path.root_node,
        feature_paths::resolved(db, scope, known, path, start, manner) is Some,
        0 <= i < j < feature_paths::resolved(
            db,
            scope,
            known,
            path,
            start,
            manner,
        )->Some_0.stored.len(),
    ensures
        feature_paths::resolved(db, scope, known, path, start, manner)->Some_0.stored[i].node
            != feature_paths::resolved(
            db,
            scope,
            known,
            path,
            start,
            manner,
        )->Some_0.stored[j].node,
{
    lemma_stored_nodes(db, scope, known, path, start, manner, 0);
    let rest = feature_paths::resolved_from(db, scope, known, path, start, manner, 0)->Some_0;
    let all = feature_paths::resolved(db, scope, known, path, start, manner)->Some_0;
    assert(all.stored[j] == rest.stored[j - 1]);
    assert(rest.stored[j - 1].node == path.members[j - 1].node);
    if i > 0 {
        assert(all.stored[i] == rest.stored[i - 1]);
        assert(rest.stored[i - 1].node == path.members[i - 1].node);
    }
}

/// Where missing members are reported, every path has a type.
pub proof fn law_reported_paths_resolve(
    db: Db,
    scope: Scope,
    known: Seq<Refinement>,
    path: Path,
    current: Type,
    manner: Manner,
    at: int,
)
    requires
        manner.diagnose_missing,
    ensures
        feature_paths::resolved_from(db, scope, known, path, current, manner, at) is Some,
    decreases path.members.len() - at,
{
    if 0 <= at < path.members.len() {
        match features::feature_member(
            db,
            scope,
            feature_paths::owner_of(db, manner, current),
            path.members[at].name,
        ) {
            None => {},
            Some(member) => {
                let ty = feature_paths::refined_member(db, scope, known, path, at + 1, member);
                law_reported_paths_resolve(db, scope, known, path, ty, manner, at + 1);
            },
        }
    }
}

// ---------------------------------------------------------------------------------------------
// Sets of features
// ---------------------------------------------------------------------------------------------

/// What is selected under a path of names.
pub open spec fn selected_at(shape: Shape, names: Seq<Seq<char>>) -> Option<Type>
    decreases names.len(),
{
    if names.len() == 0 {
        shape.selected
    } else {
        let at = feature_expressions::child_from(shape.children, names[0], 0);
        if at < shape.children.len() {
            selected_at(shape.children[at].shape, names.drop_first())
        } else {
            None
        }
    }
}

/// The names of a resolved path.
pub open spec fn names_of(path: Seq<Found>) -> Seq<Seq<char>> {
    Seq::new(path.len(), |i: int| path[i].name)
}

proof fn lemma_child_from(children: Seq<Child>, name: Seq<char>, at: int)
    requires
        0 <= at <= children.len(),
    ensures
        at <= feature_expressions::child_from(children, name, at) <= children.len(),
        feature_expressions::child_from(children, name, at) < children.len()
            ==> children[feature_expressions::child_from(children, name, at)].name == name,
        forall|k: int|
            at <= k < feature_expressions::child_from(children, name, at) ==> (
            #[trigger] children[k]).name != name,
    decreases children.len() - at,
{
    if at < children.len() && children[at].name != name {
        lemma_child_from(children, name, at + 1);
    }
}

proof fn lemma_child_from_unique(children: Seq<Child>, name: Seq<char>, at: int, place: int)
    requires
        0 <= at <= place <= children.len(),
        forall|k: int| at <= k < place ==> (#[trigger] children[k]).name != name,
        place < children.len() ==> children[place].name == name,
    ensures
        feature_expressions::child_from(children, name, at) == place,
    decreases place - at,
{
    if at < place {
        assert(children[at].name != name);
        lemma_child_from_unique(children, name, at + 1, place);
    }
}

proof fn lemma_nothing_selected(names: Seq<Seq<char>>)
    ensures
        selected_at(feature_expressions::no_features(), names) is None,
{
}

/// Selecting a path of features selects that path with its type, and changes no other path.
pub proof fn law_selecting_is_exact(shape: Shape, path: Seq<Found>, names: Seq<Seq<char>>)
    requires
        path.len() > 0,
    ensures
        selected_at(feature_expressions::with_path(shape, path), names) == if names == names_of(
            path,
        ) {
            Some(path.last().ty)
        } else {
            selected_at(shape, names)
        },
    decreases path.len(),
{
    let name = path[0].name;
    let at = feature_expressions::child_from(shape.children, name, 0);
    lemma_child_from(shape.children, name, 0);
    let after = feature_expressions::with_path(shape, path);
    let child = if at < shape.children.len() {
        shape.children[at].shape
    } else {
        feature_expressions::no_features()
    };
    let rest = path.drop_first();
    if names.len() > 0 {
        let place = feature_expressions::child_from(shape.children, names[0], 0);
        lemma_child_from(shape.children, names[0], 0);
        let tail = names.drop_first();
        assert(names_of(path).drop_first() =~= names_of(rest));
        assert(names_of(path)[0] == name);
        if names[0] == name {
            assert forall|k: int| 0 <= k < at implies (#[trigger] after.children[k]).name != name by {
                assert(after.children[k] == shape.children[k]);
            }
            lemma_child_from_unique(after.children, name, 0, at);
            if tail == names_of(rest) {
                assert(names =~= seq![name] + tail);
                assert(names_of(path) =~= seq![name] + names_of(rest));
            }
            lemma_nothing_selected(tail);
            if path.len() == 1 {
                assert(names_of(rest) =~= Seq::empty());
                let changed = after.children[at].shape;
                if tail.len() == 0 {
                    assert(tail =~= Seq::empty());
                } else {
                    assert(selected_at(changed, tail) == selected_at(child, tail));
                }
            } else {
                law_selecting_is_exact(child, rest, tail);
                assert(rest.last() == path.last());
            }
        } else {
            if place < shape.children.len() {
                assert forall|k: int| 0 <= k < place implies (#[trigger] after.children[k]).name
                    != names[0] by {
                    if k != at {
                        assert(after.children[k] == shape.children[k]);
                    }
                }
                assert(after.children[place] == shape.children[place]);
                lemma_child_from_unique(after.children, names[0], 0, place);
            } else {
                assert forall|k: int| 0 <= k < after.children.len() implies (
                #[trigger] after.children[k]).name != names[0] by {
                    if k != at {
                        assert(after.children[k] == shape.children[k]);
                    }
                }
                lemma_child_from_unique(
                    after.children,
                    names[0],
                    0,
                    after.children.len() as int,
                );
            }
        }
    }
}

// ---------------------------------------------------------------------------------------------
// Calls
// ---------------------------------------------------------------------------------------------

/// Only fields of the class are supplied, and nothing is known of their types where the call is
/// wrong.
pub proof fn law_only_fields_are_supplied(
    unknown: Type,
    fields: Seq<Field>,
    overload: BoundOverload,
    count: nat,
    i: int,
)
    requires
        0 <= i < feature_calls::supplied_fields(unknown, fields, overload, count).len(),
    ensures
        ({
            let field = feature_calls::supplied_fields(unknown, fields, overload, count)[i];
            &&& features::field_from(fields, field.name, 0) is Some
            &&& overload.has_errors ==> field.ty == unknown
        }),
    decreases count,
{
    if count > 0 {
        let before = feature_calls::supplied_fields(
            unknown,
            fields,
            overload,
            (count - 1) as nat,
        );
        if i < before.len() {
            law_only_fields_are_supplied(unknown, fields, overload, (count - 1) as nat, i);
        }
    }
}

} // verus!

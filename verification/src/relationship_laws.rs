//! What `_` stands for in a subscript of a relationship, and what it never does.

use vstd::prelude::*;

use crate::feature_expressions;
use crate::feature_paths;
use crate::feature_paths::{
    Expression, ExpressionKind, Key, Manner, MissingMember, Path, Refinement,
};
use crate::features;
use crate::features::{Scope, ShownAs};
use crate::semantic::{Db, Type};

verus! {

/// The expression that takes an attribute from a name.
pub open spec fn attribute(node: usize, name_node: usize, root: Type, name: String) -> Expression {
    Expression {
        node,
        kind: ExpressionKind::Attribute {
            value: Box::new(
                Expression { node: name_node, kind: ExpressionKind::Name { ty: root } },
            ),
            name,
        },
    }
}

/// Whether a name is `_`, and the attribute is none that `_` has of its own.
pub open spec fn is_underscore(db: Db, scope: Scope, root: Type, name: Seq<char>) -> bool {
    &&& !features::is_features_class(db, root)
    &&& features::is_symbol(scope, root, "_"@)
    &&& !feature_expressions::is_among(scope.symbols.underscore@, name)
}

proof fn lemma_attribute_path(node: usize, name_node: usize, root: Type, name: String)
    ensures
        ({
            let path = feature_paths::path_of(attribute(node, name_node, root, name));
            &&& path is Some
            &&& path->Some_0.root == root
            &&& path->Some_0.members.len() == 1
            &&& path->Some_0.members[0].name == name@
        }),
{
    reveal_with_fuel(feature_paths::chain, 2);
}

/// In a subscript of a relationship, `_` has exactly the members of the rows: what a row has has
/// its type there, with what is known of it, and what a row lacks is reported as for a row.
pub proof fn law_underscore_has_the_members_of_the_row(
    db: Db,
    scope: Scope,
    known: Seq<Refinement>,
    row: Type,
    root: Type,
    name: String,
    node: usize,
    name_node: usize,
)
    requires
        scope.row == Some(row),
        is_underscore(db, scope, root, name@),
    ensures
        ({
            let value = feature_expressions::value(
                db,
                scope,
                known,
                attribute(node, name_node, root, name),
            );
            &&& value is Some
            &&& match features::feature_member(db, scope, row, name@) {
                Some(member) => {
                    let ty = feature_paths::refined(
                        db,
                        known,
                        Key { root: row, members: seq![name@] },
                        member,
                    );
                    &&& value->Some_0.report is None
                    &&& value->Some_0.shown == if db.ty(ty).kind is Dynamic {
                        ShownAs::Plain(ty)
                    } else {
                        features::symbolic(db, scope, ty)
                    }
                },
                None => value->Some_0.report == feature_paths::loaded(db, row, name@).1,
            }
        }),
{
    lemma_attribute_path(node, name_node, root, name);
    let path = feature_paths::path_of(attribute(node, name_node, root, name))->Some_0;
    reveal_with_fuel(feature_paths::resolved_from, 2);
    let key = feature_paths::key(db, scope, path, 1)->Some_0;
    assert(key.members =~= seq![name@]);
}

/// A member that the rows do not have is missing in a subscript, whatever other relationships of
/// the class around have it.
pub proof fn law_other_relationships_do_not_help(
    db: Db,
    scope: Scope,
    known: Seq<Refinement>,
    row: Type,
    root: Type,
    name: String,
    node: usize,
    name_node: usize,
)
    requires
        scope.row == Some(row),
        is_underscore(db, scope, root, name@),
        features::feature_member(db, scope, row, name@) is None,
        db.member(row, name@) is None,
    ensures
        feature_expressions::value(
            db,
            scope,
            known,
            attribute(node, name_node, root, name),
        ) matches Some(value) && value.report == Some(MissingMember::Missing),
{
    law_underscore_has_the_members_of_the_row(
        db,
        scope,
        known,
        row,
        root,
        name,
        node,
        name_node,
    );
}

/// Outside of subscripts, `_` never finds a member of rows: what the class neither declares nor
/// has is missing, whatever the rows of its relationships have.
pub proof fn law_bare_underscore_finds_no_rows(
    db: Db,
    scope: Scope,
    known: Seq<Refinement>,
    start: Type,
    root: Type,
    name: String,
    node: usize,
    name_node: usize,
)
    requires
        scope.row is None,
        features::in_features_class(db, scope),
        db.ty(scope.enclosing->Some_0).instance == Some(start),
        is_underscore(db, scope, root, name@),
        features::instance_class(db, start) matches Some(class) ==> features::declaration_from(
            db.class(class).declarations@,
            name@,
            0,
        ) is None,
        features::own_member_from(db.ty(start).instance_members@, name@, 0) is None,
        db.member(start, name@) is None,
    ensures
        feature_expressions::value(
            db,
            scope,
            known,
            attribute(node, name_node, root, name),
        ) matches Some(value) && value.report == Some(MissingMember::Missing),
{
    lemma_attribute_path(node, name_node, root, name);
    reveal_with_fuel(feature_paths::resolved_from, 2);
}

/// Whether two scopes hold the same modules and stand in a subscript of the same rows.
pub open spec fn same_rows(left: Scope, right: Scope) -> bool {
    &&& left.symbols == right.symbols
    &&& left.row is Some
    &&& left.row == right.row
}

proof fn lemma_same_resolution(
    db: Db,
    left: Scope,
    right: Scope,
    known: Seq<Refinement>,
    path: Path,
    current: Type,
    manner: Manner,
    at: int,
)
    requires
        same_rows(left, right),
    ensures
        feature_paths::resolved_from(db, left, known, path, current, manner, at)
            == feature_paths::resolved_from(db, right, known, path, current, manner, at),
    decreases path.members.len() - at,
{
    if 0 <= at < path.members.len() {
        let owner = feature_paths::owner_of(db, manner, current);
        let name = path.members[at].name;
        assert(feature_paths::key(db, left, path, at + 1) == feature_paths::key(
            db,
            right,
            path,
            at + 1,
        ));
        if let Some(member) = features::feature_member(db, left, owner, name) {
            let ty = feature_paths::refined_member(db, left, known, path, at + 1, member);
            lemma_same_resolution(db, left, right, known, path, ty, manner, at + 1);
        }
    }
}

/// In a subscript of a relationship only the rows count: which class is around it, and which
/// other relationships that class has, changes neither values nor the rows of inner subscripts.
pub proof fn law_only_the_rows_count(
    db: Db,
    left: Scope,
    right: Scope,
    known: Seq<Refinement>,
    expression: Expression,
)
    requires
        same_rows(left, right),
    ensures
        feature_expressions::value(db, left, known, expression) == feature_expressions::value(
            db,
            right,
            known,
            expression,
        ),
        feature_expressions::relationship_row(db, left, known, expression)
            == feature_expressions::relationship_row(db, right, known, expression),
{
    if let Some(path) = feature_paths::path_of(expression) {
        if let Some((start, underscore)) = feature_expressions::value_start(db, left, path) {
            let manner = Manner {
                store_terminal: false,
                resolved_values: true,
                diagnose_missing: underscore,
                pass_optional: false,
            };
            lemma_same_resolution(db, left, right, known, path, start, manner, 0);
            lemma_same_resolution(
                db,
                left,
                right,
                known,
                path,
                start,
                feature_expressions::as_receiver(underscore),
                0,
            );
        }
    }
}

/// A subscript of a relationship inside another one replaces the rows: the outer rows do not count
/// in it.
pub proof fn law_inner_subscripts_replace_rows(
    db: Db,
    scope: Scope,
    known: Seq<Refinement>,
    receiver: Expression,
    inner: Type,
    expression: Expression,
)
    requires
        feature_expressions::relationship_row(db, scope, known, receiver) == Some(inner),
    ensures
        ({
            let inside = Scope {
                row: feature_expressions::row_inside(db, scope, known, receiver),
                ..scope
            };
            forall|outer: Scope|
                outer.symbols == scope.symbols && outer.row == Some(inner)
                    ==> feature_expressions::value(db, inside, known, expression)
                    == #[trigger] feature_expressions::value(db, outer, known, expression)
        }),
{
    let inside = Scope {
        row: feature_expressions::row_inside(db, scope, known, receiver),
        ..scope
    };
    assert forall|outer: Scope| outer.symbols == scope.symbols && outer.row == Some(inner) implies
        feature_expressions::value(db, inside, known, expression)
        == #[trigger] feature_expressions::value(db, outer, known, expression) by {
        law_only_the_rows_count(db, inside, outer, known, expression);
    }
}

/// What is around a subscript is around again after it.
pub proof fn law_leaving_undoes_entering_subscripts(
    db: Db,
    scope: Scope,
    known: Seq<Refinement>,
    receiver: Expression,
)
    ensures
        ({
            let inside = Scope {
                row: feature_expressions::row_inside(db, scope, known, receiver),
                ..scope
            };
            (Scope { row: scope.row, ..inside }) == scope
        }),
{
}

/// The rows that a subscript is about are instances of a class of features, and the last member of
/// the receiver is a relationship to them.
pub proof fn law_rows_are_of_features(
    db: Db,
    scope: Scope,
    known: Seq<Refinement>,
    receiver: Expression,
    row: Type,
)
    requires
        feature_expressions::relationship_row(db, scope, known, receiver) == Some(row),
    ensures
        features::instance_class(db, row) is Some,
        exists|ty: Type|
            features::applied_to(
                db,
                ty,
                features::class_symbol(db, scope.symbols.features@, "DataFrame"@),
            ) == Some(row) && #[trigger] features::row_type(db, scope, ty) == Some(row),
{
    let path = feature_paths::path_of(receiver)->Some_0;
    let (start, underscore) = feature_expressions::value_start(db, scope, path)->Some_0;
    let result = feature_paths::resolved(
        db,
        scope,
        known,
        path,
        start,
        feature_expressions::as_receiver(underscore),
    )->Some_0;
    assert(features::row_type(db, scope, result.members.last().ty) == Some(row));
}

/// On the path of a receiver from a class of features, a member that may be absent is passed as if
/// it were there: from `T | None` the path goes on exactly as from `T`.
pub proof fn law_receivers_pass_optional_members(
    db: Db,
    scope: Scope,
    known: Seq<Refinement>,
    path: Path,
    optional: Type,
    plain: Type,
    at: int,
)
    requires
        db.ty(optional).parts matches Some(parts) && parts.without_none == plain,
        db.ty(plain).parts is None,
        0 <= at < path.members.len(),
    ensures
        ({
            let manner = feature_expressions::as_receiver(false);
            feature_paths::resolved_from(db, scope, known, path, optional, manner, at)
                == feature_paths::resolved_from(db, scope, known, path, plain, manner, at)
        }),
{
}

/// On any other path, and in a receiver from `_`, what may be absent has no members of its own that
/// are features: such a path leads nowhere, or the member is reported.
pub proof fn law_other_paths_stop_at_optional_members(
    db: Db,
    scope: Scope,
    known: Seq<Refinement>,
    path: Path,
    optional: Type,
    manner: Manner,
    at: int,
)
    requires
        !manner.pass_optional,
        features::instance_class(db, optional) is None,
        0 <= at < path.members.len(),
    ensures
        match feature_paths::resolved_from(db, scope, known, path, optional, manner, at) {
            None => !manner.diagnose_missing,
            Some(result) => manner.diagnose_missing && result.report == feature_paths::loaded(
                db,
                optional,
                path.members[at].name,
            ).1,
        },
{
}

} // verus!

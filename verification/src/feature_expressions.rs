//! The types of expressions that name features.

use vstd::prelude::*;

use crate::feature_paths;
use crate::feature_paths::{
    ChalkRefinements, Expression, ExpressionKind, FeaturePath, Found, Manner, MissingMember, Path,
    Refinement, ResolvedFeaturePath, ResolvedMember, Stored, StoredType,
};
use crate::features;
use crate::features::{Scope, Shown, ShownAs};
use crate::semantic::{Db, Type, TypeKind};
use crate::text;

verus! {

broadcast use vstd::string::group_string_axioms;

// ---------------------------------------------------------------------------------------------
// Paths as types
// ---------------------------------------------------------------------------------------------

/// The type that a path of features is as an annotation, and the types of the expressions in it.
#[derive(Debug)]
pub struct FeatureAnnotation {
    pub ty: Type,
    pub stored: Vec<StoredType>,
}

/// How paths in annotations are resolved.
pub open spec fn as_annotation() -> Manner {
    Manner {
        store_terminal: false,
        resolved_values: false,
        diagnose_missing: false,
        pass_optional: false,
    }
}

/// The instances of a class of features.
pub open spec fn class_instance(db: Db, root: Type) -> Option<Type> {
    if features::is_features_class(db, root) {
        db.ty(root).instance
    } else {
        None
    }
}

/// The type that a path of features is as an annotation: what the feature is declared to be.
pub open spec fn annotation(
    db: Db,
    scope: Scope,
    known: Seq<Refinement>,
    expression: Expression,
) -> Option<(Type, Seq<Stored>)> {
    match feature_paths::path_of(expression) {
        None => None,
        Some(path) => match class_instance(db, path.root) {
            None => None,
            Some(start) => match feature_paths::resolved(
                db,
                scope,
                known,
                path,
                start,
                as_annotation(),
            ) {
                Some(result) => Some((result.members.last().ty, result.stored)),
                None => None,
            },
        },
    }
}

/// Finds the instances of a class of features.
fn find_class_instance(db: &Db, root: Type) -> (instance: Option<Type>)
    requires
        db.wf(),
        db.has_type(root),
    ensures
        instance == class_instance(*db, root),
        instance matches Some(instance) ==> db.has_type(instance),
{
    if features::is_chalk_features_class(db, root) {
        assert(db.type_wf(db.types@[root.id as int]));
        db.types[root.id].instance
    } else {
        None
    }
}

/// A path that is resolved without reports has all its members.
proof fn lemma_all_resolved(
    db: Db,
    scope: Scope,
    known: Seq<Refinement>,
    path: Path,
    current: Type,
    manner: Manner,
    at: int,
)
    requires
        0 <= at <= path.members.len(),
        feature_paths::resolved_from(db, scope, known, path, current, manner, at) is Some,
    ensures
        at < path.members.len() ==> feature_paths::resolved_from(
            db,
            scope,
            known,
            path,
            current,
            manner,
            at,
        )->Some_0.members.len() > 0,
{
}

/// Infers the type that a path of features is as an annotation.
pub fn infer_chalk_feature_path_type_expression(
    db: &Db,
    scope: &Scope,
    known: &ChalkRefinements,
    expression: &Expression,
) -> (result: Option<FeatureAnnotation>)
    requires
        db.wf(),
        scope.wf(*db),
        feature_paths::expression_wf(*db, *expression),
    ensures
        match (result, annotation(*db, *scope, known@, *expression)) {
            (Some(result), Some((ty, types))) => result.ty == ty && feature_paths::stored(
                result.stored@,
            ) == types && db.has_type(ty),
            (None, None) => true,
            _ => false,
        },
{
    proof {
        feature_paths::lemma_root_known(*db, *expression);
    }
    let path = match FeaturePath::from_expression(expression) {
        Some(path) => path,
        None => {
            return None;
        },
    };
    let start = match find_class_instance(db, path.root) {
        Some(start) => start,
        None => {
            return None;
        },
    };
    let manner = Manner {
        store_terminal: false,
        resolved_values: false,
        diagnose_missing: false,
        pass_optional: false,
    };
    match feature_paths::resolve_chalk_feature_path_from(db, scope, known, &path, start, manner) {
        Some(resolved) => {
            proof {
                lemma_all_resolved(*db, *scope, known@, path@, start, manner, 0);
            }
            Some(last_member(db, resolved))
        },
        None => None,
    }
}

/// The type of the last member of a path.
fn last_member(db: &Db, resolved: ResolvedFeaturePath) -> (result: FeatureAnnotation)
    requires
        resolved@.members.len() > 0,
        feature_paths::members_known(*db, resolved.members@),
    ensures
        result.ty == resolved@.members.last().ty,
        feature_paths::stored(result.stored@) == resolved@.stored,
        db.has_type(result.ty),
{
    let last = resolved.members.len() - 1;
    assert(db.has_type(resolved.members@[last as int].ty));
    FeatureAnnotation { ty: resolved.members[last].ty, stored: resolved.stored }
}

// ---------------------------------------------------------------------------------------------
// Paths as values
// ---------------------------------------------------------------------------------------------

/// What stands for the value of a path of features, the types of the expressions in it, and what
/// is to be reported.
#[derive(Debug)]
pub struct FeatureValue {
    pub shown: Shown,
    pub stored: Vec<StoredType>,
    pub report: Option<MissingMember>,
}

/// What stands for the value of a path of features.
pub struct Valued {
    pub shown: ShownAs,
    pub stored: Seq<Stored>,
    pub report: Option<MissingMember>,
}

/// Whether a name is among some.
pub open spec fn is_among(names: Seq<String>, name: Seq<char>) -> bool {
    exists|i: int| 0 <= i < names.len() && (#[trigger] names[i])@ == name
}

/// What `_` stands for: a row of the relationship whose subscript it stands in, whatever is around
/// that, or else an instance of the class of features that it stands in.
pub open spec fn underscore_start(db: Db, scope: Scope) -> Option<Type> {
    match scope.row {
        Some(row) => Some(row),
        None => if features::in_features_class(db, scope) {
            db.ty(scope.enclosing->Some_0).instance
        } else {
            None
        },
    }
}

/// Where the value of a path starts: at the instances of a class of features, or for `_` at what it
/// stands for; then whether it does. Members that `_` has of its own are not features.
pub open spec fn value_start(db: Db, scope: Scope, path: Path) -> Option<(Type, bool)> {
    if features::is_features_class(db, path.root) {
        match db.ty(path.root).instance {
            Some(start) => Some((start, false)),
            None => None,
        }
    } else if features::is_symbol(scope, path.root, "_"@) && !is_among(
        scope.symbols.underscore@,
        path.members[0].name,
    ) {
        match underscore_start(db, scope) {
            Some(start) => Some((start, true)),
            None => None,
        }
    } else {
        None
    }
}

/// What stands for the value of a path of features. Missing members of `_` are reported. On a path
/// from a class of features, what may be absent on the way is passed where that is asked for.
pub open spec fn value_passing(
    db: Db,
    scope: Scope,
    known: Seq<Refinement>,
    expression: Expression,
    pass_optional: bool,
) -> Option<Valued> {
    match feature_paths::path_of(expression) {
        None => None,
        Some(path) => match value_start(db, scope, path) {
            None => None,
            Some((start, underscore)) => match feature_paths::resolved(
                db,
                scope,
                known,
                path,
                start,
                Manner {
                    store_terminal: false,
                    resolved_values: true,
                    diagnose_missing: underscore,
                    pass_optional: pass_optional && !underscore,
                },
            ) {
                None => None,
                Some(result) => {
                    let terminal = result.members.last().ty;
                    Some(
                        Valued {
                            shown: if db.ty(terminal).kind is Dynamic {
                                ShownAs::Plain(terminal)
                            } else {
                                features::symbolic(db, scope, terminal)
                            },
                            stored: result.stored,
                            report: result.report,
                        },
                    )
                },
            },
        },
    }
}

/// What stands for the value of a path of features.
pub open spec fn value(
    db: Db,
    scope: Scope,
    known: Seq<Refinement>,
    expression: Expression,
) -> Option<Valued> {
    value_passing(db, scope, known, expression, false)
}

/// Whether a name is among some.
fn contains_name(names: &Vec<String>, name: &str) -> (found: bool)
    ensures
        found == is_among(names@, name@),
{
    let mut i: usize = 0;
    while i < names.len()
        invariant
            i <= names@.len(),
            forall|k: int| 0 <= k < i ==> (#[trigger] names@[k])@ != name@,
        decreases names@.len() - i,
    {
        if text::same_text(names[i].as_str(), name) {
            assert(names@[i as int]@ == name@);
            return true;
        }
        i += 1;
    }
    false
}

/// Finds where the value of a path starts.
fn find_value_start(db: &Db, scope: &Scope, path: &FeaturePath) -> (result: Option<(Type, bool)>)
    requires
        db.wf(),
        scope.wf(*db),
        db.has_type(path.root),
        path@.members.len() > 0,
    ensures
        result == value_start(*db, *scope, path@),
        result matches Some((start, _)) ==> db.has_type(start),
{
    assert(db.type_wf(db.types@[path.root.id as int]));
    if features::is_chalk_features_class(db, path.root) {
        return match db.types[path.root.id].instance {
            Some(start) => Some((start, false)),
            None => None,
        };
    }
    if !features::is_chalk_features_symbol(scope, path.root, "_") {
        return None;
    }
    assert(path@.members[0].name == path.members@[0].name@);
    if contains_name(&scope.symbols.underscore, path.members[0].name.as_str()) {
        return None;
    }
    match find_underscore_start(db, scope) {
        Some(start) => Some((start, true)),
        None => None,
    }
}

/// Finds what `_` stands for.
fn find_underscore_start(db: &Db, scope: &Scope) -> (start: Option<Type>)
    requires
        db.wf(),
        scope.wf(*db),
    ensures
        start == underscore_start(*db, *scope),
        start matches Some(start) ==> db.has_type(start),
{
    match scope.row {
        Some(row) => Some(row),
        None => match scope.enclosing {
            Some(class) => {
                assert(db.type_wf(db.types@[class.id as int]));
                if features::in_chalk_features_class(db, scope) {
                    db.types[class.id].instance
                } else {
                    None
                }
            },
            None => None,
        },
    }
}

/// Infers what stands for the value of a path of features.
pub fn infer_chalk_feature_path_value_expression(
    db: &Db,
    scope: &Scope,
    known: &ChalkRefinements,
    expression: &Expression,
) -> (result: Option<FeatureValue>)
    requires
        db.wf(),
        scope.wf(*db),
        feature_paths::expression_wf(*db, *expression),
    ensures
        match (result, value(*db, *scope, known@, *expression)) {
            (Some(result), Some(expected)) => {
                &&& result.shown@ == expected.shown
                &&& feature_paths::stored(result.stored@) == expected.stored
                &&& result.report == expected.report
            },
            (None, None) => true,
            _ => false,
        },
{
    infer_value_passing(db, scope, known, expression, false)
}

/// Infers what stands for the value of a path of features, passing what may be absent or not.
fn infer_value_passing(
    db: &Db,
    scope: &Scope,
    known: &ChalkRefinements,
    expression: &Expression,
    pass_optional: bool,
) -> (result: Option<FeatureValue>)
    requires
        db.wf(),
        scope.wf(*db),
        feature_paths::expression_wf(*db, *expression),
    ensures
        match (result, value_passing(*db, *scope, known@, *expression, pass_optional)) {
            (Some(result), Some(expected)) => {
                &&& result.shown@ == expected.shown
                &&& feature_paths::stored(result.stored@) == expected.stored
                &&& result.report == expected.report
            },
            (None, None) => true,
            _ => false,
        },
{
    proof {
        feature_paths::lemma_root_known(*db, *expression);
    }
    let path = match FeaturePath::from_expression(expression) {
        Some(path) => path,
        None => {
            return None;
        },
    };
    let (start, underscore) = match find_value_start(db, scope, &path) {
        Some(start) => start,
        None => {
            return None;
        },
    };
    let manner = Manner {
        store_terminal: false,
        resolved_values: true,
        diagnose_missing: underscore,
        pass_optional: pass_optional && !underscore,
    };
    match feature_paths::resolve_chalk_feature_path_from(db, scope, known, &path, start, manner) {
        Some(resolved) => {
            proof {
                lemma_all_resolved(*db, *scope, known@, path@, start, manner, 0);
            }
            let report = resolved.report;
            let terminal = last_member(db, resolved);
            let shown = match &db.types[terminal.ty.id].kind {
                TypeKind::Dynamic => Shown::Plain(terminal.ty),
                _ => features::chalk_symbolic_feature_type(db, scope, terminal.ty),
            };
            Some(FeatureValue { shown, stored: terminal.stored, report })
        },
        None => None,
    }
}

// ---------------------------------------------------------------------------------------------
// Relationships
// ---------------------------------------------------------------------------------------------

/// How the receiver of a subscript is resolved: on a path from a class of features, what may be
/// absent on the way is passed.
pub open spec fn as_receiver(underscore: bool) -> Manner {
    Manner {
        store_terminal: false,
        resolved_values: false,
        diagnose_missing: false,
        pass_optional: !underscore,
    }
}

/// What the rows are that a subscript of a path of features is about: those of the relationship
/// that the whole path leads to.
pub open spec fn relationship_row(
    db: Db,
    scope: Scope,
    known: Seq<Refinement>,
    receiver: Expression,
) -> Option<Type> {
    match feature_paths::path_of(receiver) {
        None => None,
        Some(path) => match value_start(db, scope, path) {
            None => None,
            Some((start, underscore)) => match feature_paths::resolved(
                db,
                scope,
                known,
                path,
                start,
                as_receiver(underscore),
            ) {
                None => None,
                Some(result) => features::row_type(db, scope, result.members.last().ty),
            },
        },
    }
}

/// Tells what the rows are that a subscript of a path of features is about.
pub fn chalk_relationship_row(
    db: &Db,
    scope: &Scope,
    known: &ChalkRefinements,
    receiver: &Expression,
) -> (row: Option<Type>)
    requires
        db.wf(),
        scope.wf(*db),
        feature_paths::expression_wf(*db, *receiver),
    ensures
        row == relationship_row(*db, *scope, known@, *receiver),
        row matches Some(row) ==> db.has_type(row),
{
    proof {
        feature_paths::lemma_root_known(*db, *receiver);
    }
    let path = match FeaturePath::from_expression(receiver) {
        Some(path) => path,
        None => {
            return None;
        },
    };
    let (start, underscore) = match find_value_start(db, scope, &path) {
        Some(start) => start,
        None => {
            return None;
        },
    };
    let manner = Manner {
        store_terminal: false,
        resolved_values: false,
        diagnose_missing: false,
        pass_optional: !underscore,
    };
    match feature_paths::resolve_chalk_feature_path_from(db, scope, known, &path, start, manner) {
        Some(resolved) => {
            proof {
                lemma_all_resolved(*db, *scope, known@, path@, start, manner, 0);
            }
            let last = last_member(db, resolved);
            features::chalk_row_type(db, scope, last.ty)
        },
        None => None,
    }
}

/// What stands for the value of the receiver of a subscript: of a relationship, the value that its
/// path leads to, and of anything else the value that it has elsewhere too.
pub open spec fn receiver_value(
    db: Db,
    scope: Scope,
    known: Seq<Refinement>,
    receiver: Expression,
) -> Option<Valued> {
    value_passing(
        db,
        scope,
        known,
        receiver,
        relationship_row(db, scope, known, receiver) is Some,
    )
}

/// Infers what stands for the value of the receiver of a subscript.
pub fn infer_chalk_receiver_expression(
    db: &Db,
    scope: &Scope,
    known: &ChalkRefinements,
    receiver: &Expression,
) -> (result: Option<FeatureValue>)
    requires
        db.wf(),
        scope.wf(*db),
        feature_paths::expression_wf(*db, *receiver),
    ensures
        match (result, receiver_value(*db, *scope, known@, *receiver)) {
            (Some(result), Some(expected)) => {
                &&& result.shown@ == expected.shown
                &&& feature_paths::stored(result.stored@) == expected.stored
                &&& result.report == expected.report
            },
            (None, None) => true,
            _ => false,
        },
{
    let is_relationship = chalk_relationship_row(db, scope, known, receiver).is_some();
    infer_value_passing(db, scope, known, receiver, is_relationship)
}

/// What `_` stands for a row of in a subscript: the rows of the relationship that the receiver
/// leads to. A subscript of anything else changes nothing.
pub open spec fn row_inside(
    db: Db,
    scope: Scope,
    known: Seq<Refinement>,
    receiver: Expression,
) -> Option<Type> {
    match relationship_row(db, scope, known, receiver) {
        Some(row) => Some(row),
        None => scope.row,
    }
}

impl Scope {
    /// Goes into a subscript. Gives what to hand to [`Scope::leave_subscript`] when the subscript
    /// is done.
    pub fn enter_subscript(&mut self, db: &Db, known: &ChalkRefinements, receiver: &Expression) -> (
    outer: Option<Type>)
        requires
            db.wf(),
            old(self).wf(*db),
            feature_paths::expression_wf(*db, *receiver),
        ensures
            outer == old(self).row,
            *final(self) == (Scope {
                row: row_inside(*db, *old(self), known@, *receiver),
                ..*old(self)
            }),
            final(self).wf(*db),
    {
        let outer = self.row;
        match chalk_relationship_row(db, self, known, receiver) {
            Some(row) => {
                self.row = Some(row);
            },
            None => {},
        }
        outer
    }

    /// Comes back from a subscript.
    pub fn leave_subscript(&mut self, outer: Option<Type>)
        ensures
            *final(self) == (Scope { row: outer, ..*old(self) }),
    {
        self.row = outer;
    }
}

// ---------------------------------------------------------------------------------------------
// Sets of features
// ---------------------------------------------------------------------------------------------

/// The features that are selected in a class, and in what they hold.
#[derive(Debug)]
pub struct FeatureShape {
    pub selected: Option<Type>,
    pub children: Vec<FeatureChild>,
}

/// A member of a shape.
#[derive(Debug)]
pub struct FeatureChild {
    pub name: String,
    pub shape: FeatureShape,
}

/// The features that are selected.
pub struct Shape {
    pub selected: Option<Type>,
    pub children: Seq<Child>,
}

/// A member of a shape.
pub struct Child {
    pub name: Seq<char>,
    pub shape: Shape,
}

/// The features that are selected.
pub open spec fn shape_of(shape: FeatureShape) -> Shape
    decreases shape,
{
    Shape {
        selected: shape.selected,
        children: Seq::new(
            shape.children@.len(),
            |i: int|
                if 0 <= i < shape.children@.len() {
                    Child {
                        name: shape.children@[i].name@,
                        shape: shape_of(shape.children@[i].shape),
                    }
                } else {
                    arbitrary()
                },
        ),
    }
}

/// No features.
pub open spec fn no_features() -> Shape {
    Shape { selected: None, children: Seq::empty() }
}

/// The place of a name among members, from a place on; their number where it is not there.
pub open spec fn child_from(children: Seq<Child>, name: Seq<char>, at: int) -> int
    decreases children.len() - at,
{
    if at < 0 || at >= children.len() {
        children.len() as int
    } else if children[at].name == name {
        at
    } else {
        child_from(children, name, at + 1)
    }
}

/// A shape with one more path selected: new members come last.
pub open spec fn with_path(shape: Shape, path: Seq<Found>) -> Shape
    decreases path.len(),
{
    if path.len() == 0 {
        shape
    } else {
        let at = child_from(shape.children, path[0].name, 0);
        let child = if at < shape.children.len() {
            shape.children[at].shape
        } else {
            no_features()
        };
        let changed = Child {
            name: path[0].name,
            shape: if path.len() == 1 {
                Shape { selected: Some(path[0].ty), ..child }
            } else {
                with_path(child, path.drop_first())
            },
        };
        Shape {
            children: if at < shape.children.len() {
                shape.children.update(at, changed)
            } else {
                shape.children.push(changed)
            },
            ..shape
        }
    }
}

/// Finds the place of a name among members.
fn find_child(children: &Vec<FeatureChild>, name: &str, Ghost(views): Ghost<Seq<Child>>) -> (at:
    usize)
    requires
        views.len() == children@.len(),
        forall|i: int| 0 <= i < views.len() ==> (#[trigger] views[i]).name == children@[i].name@,
    ensures
        at == child_from(views, name@, 0),
        at <= children@.len(),
        at < children@.len() ==> children@[at as int].name@ == name@,
{
    let mut i: usize = 0;
    while i < children.len()
        invariant
            i <= children@.len(),
            views.len() == children@.len(),
            forall|k: int|
                0 <= k < views.len() ==> (#[trigger] views[k]).name == children@[k].name@,
            child_from(views, name@, 0) == child_from(views, name@, i as int),
        decreases children@.len() - i,
    {
        assert(views[i as int].name == children@[i as int].name@);
        if text::same_text(children[i].name.as_str(), name) {
            return i;
        }
        i += 1;
    }
    i
}

/// Selects a path, from a place in it on.
fn select_path(shape: &mut FeatureShape, path: &Vec<ResolvedMember>, at: usize)
    requires
        at < path@.len(),
    ensures
        shape_of(*final(shape)) == with_path(
            shape_of(*old(shape)),
            feature_paths::found(path@).skip(at as int),
        ),
    decreases path@.len() - at,
{
    let ghost start = shape_of(*shape);
    let ghost steps = feature_paths::found(path@).skip(at as int);
    let name = path[at].name.as_str();
    assert(steps[0].name == name@);
    let found = find_child(&shape.children, name, Ghost(start.children));
    if found == shape.children.len() {
        let fresh = FeatureShape { selected: None, children: Vec::new() };
        assert(shape_of(fresh).children =~= no_features().children);
        shape.children.push(FeatureChild { name: name.to_owned(), shape: fresh });
    }
    let ghost before = shape.children@;
    let ghost inner = shape_of(before[found as int].shape);
    if path.len() - at == 1 {
        shape.children[found].shape.selected = Some(path[at].ty);
        assert(shape_of(shape.children@[found as int].shape).children =~= inner.children);
    } else {
        select_path(&mut shape.children[found].shape, path, at + 1);
        assert(feature_paths::found(path@).skip(at as int + 1) =~= steps.drop_first());
    }
    proof {
        let expected = with_path(start, steps);
        let now = shape_of(*shape);
        assert(shape.children@.len() == before.len());
        assert forall|i: int| 0 <= i < before.len() implies #[trigger] now.children[i]
            == expected.children[i] by {
            if i != found {
                assert(shape.children@[i] == before[i]);
                assert(now.children[i] == start.children[i]);
            } else {
                assert(shape.children@[i].name@ == name@);
            }
        }
        assert(now.children =~= expected.children);
    }
}

/// The features that a type selects: what is selected as it is, and for other members what is
/// selected in them.
#[derive(Debug)]
pub struct FeatureProtocol {
    pub members: Vec<ProtocolMember>,
}

/// A member of a set of features.
#[derive(Debug)]
pub struct ProtocolMember {
    pub name: String,
    pub ty: ProtocolMemberType,
}

/// What a member of a set of features is.
#[derive(Debug)]
pub enum ProtocolMemberType {
    Selected(Type),
    Nested(FeatureProtocol),
}

/// The features that a type selects.
pub struct Protocol {
    pub members: Seq<(Seq<char>, MemberType)>,
}

/// What a member of a set of features is.
pub enum MemberType {
    Selected(Type),
    Nested(Protocol),
}

/// The features that a type selects.
pub open spec fn protocol_view(protocol: FeatureProtocol) -> Protocol
    decreases protocol,
{
    Protocol {
        members: Seq::new(
            protocol.members@.len(),
            |i: int|
                if 0 <= i < protocol.members@.len() {
                    (
                        protocol.members@[i].name@,
                        match protocol.members@[i].ty {
                            ProtocolMemberType::Selected(ty) => MemberType::Selected(ty),
                            ProtocolMemberType::Nested(inner) => MemberType::Nested(
                                protocol_view(inner),
                            ),
                        },
                    )
                } else {
                    arbitrary()
                },
        ),
    }
}

/// The protocol of a shape: a member that is selected hides what is selected in it.
pub open spec fn protocol_of(shape: Shape) -> Protocol
    decreases shape,
{
    Protocol {
        members: Seq::new(
            shape.children.len(),
            |i: int|
                if 0 <= i < shape.children.len() {
                    (
                        shape.children[i].name,
                        match shape.children[i].shape.selected {
                            Some(ty) => MemberType::Selected(ty),
                            None => MemberType::Nested(protocol_of(shape.children[i].shape)),
                        },
                    )
                } else {
                    arbitrary()
                },
        ),
    }
}

impl FeatureShape {
    /// Makes the protocol of the shape.
    pub fn into_protocol(&self) -> (protocol: FeatureProtocol)
        ensures
            protocol_view(protocol) == protocol_of(shape_of(*self)),
        decreases self,
    {
        let mut members: Vec<ProtocolMember> = Vec::new();
        let mut i: usize = 0;
        while i < self.children.len()
            invariant
                i <= self.children@.len(),
                members@.len() == i,
                forall|k: int|
                    0 <= k < i ==> (#[trigger] members@[k]).name@ == self.children@[k].name@
                        && match (members@[k].ty, self.children@[k].shape.selected) {
                        (ProtocolMemberType::Selected(ty), Some(selected)) => ty == selected,
                        (ProtocolMemberType::Nested(inner), None) => protocol_view(inner)
                            == protocol_of(shape_of(self.children@[k].shape)),
                        _ => false,
                    },
            decreases self.children@.len() - i,
        {
            let child = &self.children[i];
            let ty = match child.shape.selected {
                Some(ty) => ProtocolMemberType::Selected(ty),
                None => ProtocolMemberType::Nested(child.shape.into_protocol()),
            };
            members.push(ProtocolMember { name: child.name.clone(), ty });
            i += 1;
        }
        let protocol = FeatureProtocol { members };
        proof {
            let expected = protocol_of(shape_of(*self));
            assert forall|k: int| 0 <= k < expected.members.len() implies #[trigger] protocol_view(
                protocol,
            ).members[k] == expected.members[k] by {
                assert(protocol.members@[k].name@ == self.children@[k].name@);
                assert(shape_of(*self).children[k].shape == shape_of(self.children@[k].shape));
                assert(shape_of(self.children@[k].shape).selected
                    == self.children@[k].shape.selected);
            }
            assert(protocol_view(protocol).members =~= expected.members);
        }
        protocol
    }
}

/// A set of features as an annotation: its protocol and the types of the expressions in it.
#[derive(Debug)]
pub struct FeatureSet {
    pub protocol: FeatureProtocol,
    pub stored: Vec<StoredType>,
}

/// The paths that a set of features is written with.
pub open spec fn elements(slice: Expression) -> Seq<Expression> {
    match slice.kind {
        ExpressionKind::Tuple { elements } => elements@,
        _ => seq![slice],
    }
}

/// How paths in sets of features are resolved.
pub open spec fn as_element() -> Manner {
    Manner {
        store_terminal: true,
        resolved_values: false,
        diagnose_missing: false,
        pass_optional: false,
    }
}

/// What the paths of a set of features select.
pub struct Selection {
    pub shape: Shape,
    pub stored: Seq<Stored>,
    pub terminals: Seq<Type>,
}

/// What paths select together, in order; nothing where one of them is no path of features.
pub open spec fn selection(
    db: Db,
    scope: Scope,
    known: Seq<Refinement>,
    expressions: Seq<Expression>,
) -> Option<Selection>
    decreases expressions.len(),
{
    if expressions.len() == 0 {
        Some(Selection { shape: no_features(), stored: Seq::empty(), terminals: Seq::empty() })
    } else {
        match (
            selection(db, scope, known, expressions.drop_last()),
            feature_paths::path_of(expressions.last()),
        ) {
            (Some(before), Some(path)) => match class_instance(db, path.root) {
                None => None,
                Some(start) => match feature_paths::resolved(
                    db,
                    scope,
                    known,
                    path,
                    start,
                    as_element(),
                ) {
                    None => None,
                    Some(result) => Some(
                        Selection {
                            shape: with_path(before.shape, result.members),
                            stored: before.stored + result.stored,
                            terminals: before.terminals.push(result.members.last().ty),
                        },
                    ),
                },
            },
            _ => None,
        }
    }
}

/// The set of features that an annotation `Features[...]` is.
pub open spec fn feature_set(
    db: Db,
    scope: Scope,
    known: Seq<Refinement>,
    slice: Expression,
    value: Type,
) -> Option<(Protocol, Seq<Stored>)> {
    if !features::is_symbol(scope, value, "Features"@) || elements(slice).len() == 0 {
        None
    } else {
        match selection(db, scope, known, elements(slice)) {
            None => None,
            Some(result) => Some(
                (
                    protocol_of(result.shape),
                    if slice.kind is Tuple {
                        result.stored.push(
                            Stored { node: slice.node, shown: ShownAs::Tuple(result.terminals) },
                        )
                    } else {
                        result.stored
                    },
                ),
            ),
        }
    }
}

proof fn lemma_selection_fails(
    db: Db,
    scope: Scope,
    known: Seq<Refinement>,
    expressions: Seq<Expression>,
    at: int,
)
    requires
        0 <= at <= expressions.len(),
        selection(db, scope, known, expressions.take(at)) is None,
    ensures
        selection(db, scope, known, expressions) is None,
    decreases expressions.len() - at,
{
    if at < expressions.len() {
        assert(expressions.take(at + 1).drop_last() =~= expressions.take(at));
        lemma_selection_fails(db, scope, known, expressions, at + 1);
    } else {
        assert(expressions.take(at) =~= expressions);
    }
}

/// What is selected so far.
struct Selecting {
    shape: FeatureShape,
    stored: Vec<StoredType>,
    terminals: Vec<Type>,
}

/// Selects one more path; says whether it is one of features.
fn select_element(
    db: &Db,
    scope: &Scope,
    known: &ChalkRefinements,
    expression: &Expression,
    state: &mut Selecting,
    Ghost(before): Ghost<Seq<Expression>>,
) -> (selected: bool)
    requires
        db.wf(),
        scope.wf(*db),
        feature_paths::expression_wf(*db, *expression),
        selection(*db, *scope, known@, before) == Some(
            Selection {
                shape: shape_of(old(state).shape),
                stored: feature_paths::stored(old(state).stored@),
                terminals: old(state).terminals@,
            },
        ),
    ensures
        selected == (selection(*db, *scope, known@, before.push(*expression)) is Some),
        selected ==> selection(*db, *scope, known@, before.push(*expression)) == Some(
            Selection {
                shape: shape_of(final(state).shape),
                stored: feature_paths::stored(final(state).stored@),
                terminals: final(state).terminals@,
            },
        ),
{
    proof {
        feature_paths::lemma_root_known(*db, *expression);
        assert(before.push(*expression).drop_last() =~= before);
        assert(before.push(*expression).last() == *expression);
    }
    let path = match FeaturePath::from_expression(expression) {
        Some(path) => path,
        None => {
            return false;
        },
    };
    let start = match find_class_instance(db, path.root) {
        Some(start) => start,
        None => {
            return false;
        },
    };
    let manner = Manner {
        store_terminal: true,
        resolved_values: false,
        diagnose_missing: false,
        pass_optional: false,
    };
    match feature_paths::resolve_chalk_feature_path_from(db, scope, known, &path, start, manner) {
        Some(resolved) => {
            let ghost result = resolved@;
            proof {
                lemma_all_resolved(*db, *scope, known@, path@, start, manner, 0);
                assert(feature_paths::found(resolved.members@).skip(0)
                    =~= feature_paths::found(resolved.members@));
            }
            select_path(&mut state.shape, &resolved.members, 0);
            let last = resolved.members.len() - 1;
            state.terminals.push(resolved.members[last].ty);
            let mut types = resolved.stored;
            let ghost stored_before = feature_paths::stored(state.stored@);
            state.stored.append(&mut types);
            assert(feature_paths::stored(state.stored@) =~= stored_before + result.stored);
            true
        },
        None => false,
    }
}

/// Infers the set of features that an annotation `Features[...]` is.
pub fn infer_chalk_features_type_expression(
    db: &Db,
    scope: &Scope,
    known: &ChalkRefinements,
    slice: &Expression,
    value: Type,
) -> (result: Option<FeatureSet>)
    requires
        db.wf(),
        scope.wf(*db),
        feature_paths::expression_wf(*db, *slice),
    ensures
        match (result, feature_set(*db, *scope, known@, *slice, value)) {
            (Some(result), Some((protocol, types))) => protocol_view(result.protocol) == protocol
                && feature_paths::stored(result.stored@) == types,
            (None, None) => true,
            _ => false,
        },
{
    if !features::is_chalk_features_symbol(scope, value, "Features") {
        return None;
    }
    let mut state = Selecting {
        shape: FeatureShape { selected: None, children: Vec::new() },
        stored: Vec::new(),
        terminals: Vec::new(),
    };
    proof {
        assert(shape_of(state.shape).children =~= no_features().children);
        assert(feature_paths::stored(state.stored@) =~= Seq::empty());
        assert(state.terminals@ =~= Seq::empty());
    }
    match &slice.kind {
        ExpressionKind::Tuple { elements: all } => {
            if all.len() == 0 {
                return None;
            }
            let mut i: usize = 0;
            assert(all@.take(0) =~= Seq::empty());
            while i < all.len()
                invariant
                    i <= all@.len(),
                    db.wf(),
                    scope.wf(*db),
                    elements(*slice) == all@,
                    forall|k: int|
                        0 <= k < all@.len() ==> feature_paths::expression_wf(
                            *db,
                            #[trigger] all@[k],
                        ),
                    selection(*db, *scope, known@, all@.take(i as int)) == Some(
                        Selection {
                            shape: shape_of(state.shape),
                            stored: feature_paths::stored(state.stored@),
                            terminals: state.terminals@,
                        },
                    ),
                decreases all@.len() - i,
            {
                assert(feature_paths::expression_wf(*db, all@[i as int]));
                assert(all@.take(i as int).push(all@[i as int]) =~= all@.take(i as int + 1));
                if !select_element(
                    db,
                    scope,
                    known,
                    &all[i],
                    &mut state,
                    Ghost(all@.take(i as int)),
                ) {
                    proof {
                        lemma_selection_fails(*db, *scope, known@, all@, i as int + 1);
                    }
                    return None;
                }
                i += 1;
            }
            assert(all@.take(i as int) =~= all@);
            let protocol = state.shape.into_protocol();
            let ghost before = feature_paths::stored(state.stored@);
            let ghost last = Stored {
                node: slice.node,
                shown: ShownAs::Tuple(state.terminals@),
            };
            let mut types = state.stored;
            types.push(StoredType { node: slice.node, shown: Shown::Tuple(state.terminals) });
            assert(feature_paths::stored(types@) =~= before.push(last));
            Some(FeatureSet { protocol, stored: types })
        },
        _ => {
            assert(Seq::<Expression>::empty().push(*slice) =~= seq![*slice]);
            if !select_element(db, scope, known, slice, &mut state, Ghost(Seq::empty())) {
                return None;
            }
            let protocol = state.shape.into_protocol();
            Some(FeatureSet { protocol, stored: state.stored })
        },
    }
}

} // verus!

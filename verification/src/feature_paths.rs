//! Paths of features in expressions: how they are read, resolved, and refined by conditions.

use vstd::prelude::*;

use crate::features;
use crate::features::{Scope, Shown, ShownAs};
use crate::semantic::{Db, Definedness, Type, TypeKind};
use crate::text;

verus! {

broadcast use vstd::string::group_string_axioms;

// ---------------------------------------------------------------------------------------------
// Expressions
// ---------------------------------------------------------------------------------------------

/// An operator that compares two values.
#[derive(Clone, Copy, Debug, PartialEq, Eq, Structural)]
pub enum Comparator {
    Equal,
    NotEqual,
    Is,
    IsNot,
    Other,
}

/// An operator on two values.
#[derive(Clone, Copy, Debug, PartialEq, Eq, Structural)]
pub enum Operator {
    BitAnd,
    BitOr,
    Other,
}

/// An operator on truth values.
#[derive(Clone, Copy, Debug, PartialEq, Eq, Structural)]
pub enum Connective {
    And,
    Or,
}

/// An operator on one value.
#[derive(Clone, Copy, Debug, PartialEq, Eq, Structural)]
pub enum UnaryOperator {
    Not,
    Invert,
    Other,
}

/// The form of an expression.
#[derive(Debug)]
pub enum ExpressionKind {
    /// A name, with the type that it has where it stands.
    Name { ty: Type },
    Attribute { value: Box<Expression>, name: String },
    NoneLiteral,
    Compare { left: Box<Expression>, operators: Vec<Comparator>, others: Vec<Expression> },
    Binary { operator: Operator, left: Box<Expression>, right: Box<Expression> },
    Boolean { connective: Connective, values: Vec<Expression> },
    Unary { sign: UnaryOperator, operand: Box<Expression> },
    Tuple { elements: Vec<Expression> },
    Starred,
    Other,
}

/// An expression.
#[derive(Debug)]
pub struct Expression {
    /// What tells the expression from others.
    pub node: usize,
    pub kind: ExpressionKind,
}

// ---------------------------------------------------------------------------------------------
// Paths
// ---------------------------------------------------------------------------------------------

/// A member in a path.
#[derive(Debug)]
pub struct PathMember {
    pub node: usize,
    pub name: String,
}

/// A name and the attributes that are taken from it, at least one.
#[derive(Debug)]
pub struct FeaturePath {
    pub root_node: usize,
    pub root: Type,
    pub members: Vec<PathMember>,
}

/// A member in a path.
pub struct Step {
    pub node: usize,
    pub name: Seq<char>,
}

/// A name and the attributes that are taken from it.
pub struct Path {
    pub root_node: usize,
    pub root: Type,
    pub members: Seq<Step>,
}

/// Members in a path.
pub open spec fn steps(members: Seq<PathMember>) -> Seq<Step> {
    Seq::new(members.len(), |i: int| Step { node: members[i].node, name: members[i].name@ })
}

impl View for FeaturePath {
    type V = Path;

    open spec fn view(&self) -> Path {
        Path { root_node: self.root_node, root: self.root, members: steps(self.members@) }
    }
}

/// A name and the attributes that are taken from it.
pub open spec fn chain(expression: Expression) -> Option<Path>
    decreases expression,
{
    match expression.kind {
        ExpressionKind::Name { ty } => Some(
            Path { root_node: expression.node, root: ty, members: Seq::empty() },
        ),
        ExpressionKind::Attribute { value, name } => match chain(*value) {
            Some(path) => Some(
                Path {
                    members: path.members.push(Step { node: expression.node, name: name@ }),
                    ..path
                },
            ),
            None => None,
        },
        _ => None,
    }
}

/// The path that an expression is.
pub open spec fn path_of(expression: Expression) -> Option<Path> {
    match chain(expression) {
        Some(path) => if path.members.len() > 0 {
            Some(path)
        } else {
            None
        },
        None => None,
    }
}

/// Whether the types of all names in an expression are in the picture.
pub open spec fn expression_wf(db: Db, expression: Expression) -> bool
    decreases expression,
{
    match expression.kind {
        ExpressionKind::Name { ty } => db.has_type(ty),
        ExpressionKind::Attribute { value, .. } => expression_wf(db, *value),
        ExpressionKind::Compare { left, others, .. } => expression_wf(db, *left) && (forall|i: int|
            0 <= i < others@.len() ==> expression_wf(db, #[trigger] others@[i])),
        ExpressionKind::Binary { left, right, .. } => expression_wf(db, *left) && expression_wf(
            db,
            *right,
        ),
        ExpressionKind::Boolean { values, .. } => forall|i: int|
            0 <= i < values@.len() ==> expression_wf(db, #[trigger] values@[i]),
        ExpressionKind::Unary { operand, .. } => expression_wf(db, *operand),
        ExpressionKind::Tuple { elements } => forall|i: int|
            0 <= i < elements@.len() ==> expression_wf(db, #[trigger] elements@[i]),
        _ => true,
    }
}

/// The root of a path has a type in the picture.
pub proof fn lemma_root_known(db: Db, expression: Expression)
    requires
        expression_wf(db, expression),
    ensures
        chain(expression) matches Some(path) ==> db.has_type(path.root),
    decreases expression,
{
    match expression.kind {
        ExpressionKind::Attribute { value, .. } => {
            lemma_root_known(db, *value);
        },
        _ => {},
    }
}

/// Reads a name and the attributes that are taken from it.
fn read_chain(expression: &Expression) -> (path: Option<FeaturePath>)
    ensures
        match (path, chain(*expression)) {
            (Some(path), Some(expected)) => path@ == expected,
            (None, None) => true,
            _ => false,
        },
    decreases expression,
{
    match &expression.kind {
        ExpressionKind::Name { ty } => {
            let path = FeaturePath { root_node: expression.node, root: *ty, members: Vec::new() };
            assert(path@.members =~= Seq::empty());
            Some(path)
        },
        ExpressionKind::Attribute { value, name } => match read_chain(value) {
            Some(path) => {
                let mut path = path;
                let ghost before = path@;
                path.members.push(PathMember { node: expression.node, name: name.clone() });
                assert(path@.members =~= before.members.push(
                    Step { node: expression.node, name: name@ },
                ));
                Some(path)
            },
            None => None,
        },
        _ => None,
    }
}

impl FeaturePath {
    /// Reads the path that an expression is.
    pub fn from_expression(expression: &Expression) -> (path: Option<Self>)
        ensures
            match (path, path_of(*expression)) {
                (Some(path), Some(expected)) => path@ == expected,
                (None, None) => true,
                _ => false,
            },
    {
        match read_chain(expression) {
            Some(path) => if path.members.len() > 0 {
                Some(path)
            } else {
                None
            },
            None => None,
        }
    }
}

// ---------------------------------------------------------------------------------------------
// Keys
// ---------------------------------------------------------------------------------------------

/// What a path means: features of a class.
#[derive(Debug)]
pub struct ChalkFeaturePathKey {
    pub root: Type,
    pub members: Vec<String>,
}

/// What a path means: features of a class.
pub struct Key {
    pub root: Type,
    pub members: Seq<Seq<char>>,
}

impl View for ChalkFeaturePathKey {
    type V = Key;

    open spec fn view(&self) -> Key {
        Key {
            root: self.root,
            members: Seq::new(self.members@.len(), |i: int| self.members@[i]@),
        }
    }
}

/// What the root of a path means: a class of features, and for `_` the rows of the relationship
/// whose subscript it stands in, or else the class of features that it stands in.
pub open spec fn key_root(db: Db, scope: Scope, root: Type) -> Option<Type> {
    if features::is_features_class(db, root) {
        Some(root)
    } else if features::is_symbol(scope, root, "_"@) {
        if scope.row is Some {
            scope.row
        } else if features::in_features_class(db, scope) {
            scope.enclosing
        } else {
            None
        }
    } else {
        None
    }
}

/// What the first members of a path mean.
pub open spec fn key(db: Db, scope: Scope, path: Path, count: int) -> Option<Key> {
    match key_root(db, scope, path.root) {
        Some(root) => Some(
            Key {
                root,
                members: Seq::new(
                    if count < path.members.len() {
                        count as nat
                    } else {
                        path.members.len()
                    },
                    |i: int| path.members[i].name,
                ),
            },
        ),
        None => None,
    }
}

/// Tells what the first members of a path mean.
fn chalk_feature_path_key(db: &Db, scope: &Scope, path: &FeaturePath, count: usize) -> (found:
    Option<ChalkFeaturePathKey>)
    requires
        db.wf(),
        scope.wf(*db),
        db.has_type(path.root),
    ensures
        match (found, key(*db, *scope, path@, count as int)) {
            (Some(found), Some(expected)) => found@ == expected,
            (None, None) => true,
            _ => false,
        },
{
    let root = if features::is_chalk_features_class(db, path.root) {
        path.root
    } else if features::is_chalk_features_symbol(scope, path.root, "_") {
        match scope.row {
            Some(row) => row,
            None => match scope.enclosing {
                Some(ty) => {
                    if !features::in_chalk_features_class(db, scope) {
                        return None;
                    }
                    ty
                },
                None => {
                    return None;
                },
            },
        }
    } else {
        return None;
    };
    let mut members: Vec<String> = Vec::new();
    let mut i: usize = 0;
    while i < path.members.len() && i < count
        invariant
            i <= path.members@.len(),
            i <= count,
            members@.len() == i,
            forall|k: int| 0 <= k < i ==> (#[trigger] members@[k])@ == path.members@[k].name@,
        decreases path.members@.len() - i,
    {
        members.push(path.members[i].name.clone());
        i += 1;
    }
    let found = ChalkFeaturePathKey { root, members };
    proof {
        let expected = key(*db, *scope, path@, count as int)->Some_0;
        assert(found@.members =~= expected.members);
    }
    Some(found)
}

/// Whether two paths mean the same.
fn same_key(a: &ChalkFeaturePathKey, b: &ChalkFeaturePathKey) -> (same: bool)
    ensures
        same == (a@ == b@),
{
    if a.root != b.root || a.members.len() != b.members.len() {
        assert(a@.members.len() == a.members@.len());
        assert(b@.members.len() == b.members@.len());
        return false;
    }
    let mut i: usize = 0;
    while i < a.members.len()
        invariant
            a.members@.len() == b.members@.len(),
            i <= a.members@.len(),
            forall|k: int| 0 <= k < i ==> a@.members[k] == b@.members[k],
        decreases a.members@.len() - i,
    {
        if !text::same_text(a.members[i].as_str(), b.members[i].as_str()) {
            assert(a@.members[i as int] != b@.members[i as int]);
            return false;
        }
        i += 1;
    }
    assert(a@.members =~= b@.members);
    true
}

// ---------------------------------------------------------------------------------------------
// Conditions
// ---------------------------------------------------------------------------------------------

/// What a condition says of a path.
#[derive(Clone, Copy, Debug, PartialEq, Eq, Structural)]
pub enum ChalkPathRefinement {
    NonNone,
    OnlyNone,
}

/// What is known of paths.
#[derive(Debug)]
pub struct ChalkRefinements {
    pub paths: Vec<(ChalkFeaturePathKey, ChalkPathRefinement)>,
}

/// What is known of a path.
pub struct Refinement {
    pub path: Key,
    pub says: ChalkPathRefinement,
}

/// What is known of paths.
pub open spec fn refinements(paths: Seq<(ChalkFeaturePathKey, ChalkPathRefinement)>) -> Seq<
    Refinement,
> {
    Seq::new(paths.len(), |i: int| Refinement { path: paths[i].0@, says: paths[i].1 })
}

impl View for ChalkRefinements {
    type V = Seq<Refinement>;

    open spec fn view(&self) -> Seq<Refinement> {
        refinements(self.paths@)
    }
}

/// What a comparison with `None` says, where it is true or where it is false.
pub open spec fn says(operator: Comparator, truthy: bool) -> Option<ChalkPathRefinement> {
    match operator {
        Comparator::Equal | Comparator::Is => if truthy {
            Some(ChalkPathRefinement::OnlyNone)
        } else {
            Some(ChalkPathRefinement::NonNone)
        },
        Comparator::NotEqual | Comparator::IsNot => if truthy {
            Some(ChalkPathRefinement::NonNone)
        } else {
            Some(ChalkPathRefinement::OnlyNone)
        },
        Comparator::Other => None,
    }
}

/// The expression that is compared with `None`, for one comparison with `None` on either side.
pub open spec fn compared_with_none(left: Expression, right: Expression) -> Option<Expression> {
    if right.kind is NoneLiteral {
        Some(left)
    } else if left.kind is NoneLiteral {
        Some(right)
    } else {
        None
    }
}

/// What a condition says of paths, where it is true or where it is false: a conjunction what all
/// its parts say where it is true, a disjunction where it is false.
pub open spec fn condition(db: Db, scope: Scope, expression: Expression, truthy: bool) -> Seq<
    Refinement,
>
    decreases expression, 0int,
{
    match expression.kind {
        ExpressionKind::Compare { left, operators, others } => if operators@.len() == 1
            && others@.len() == 1 {
            match (compared_with_none(*left, others@[0]), says(operators@[0], truthy)) {
                (Some(path), Some(says)) => match path_of(path) {
                    Some(path) => match key(db, scope, path, path.members.len() as int) {
                        Some(key) => seq![Refinement { path: key, says }],
                        None => Seq::empty(),
                    },
                    None => Seq::empty(),
                },
                _ => Seq::empty(),
            }
        } else {
            Seq::empty()
        },
        ExpressionKind::Binary { operator, left, right } => if (truthy && operator
            == Operator::BitAnd) || (!truthy && operator == Operator::BitOr) {
            condition(db, scope, *left, truthy) + condition(db, scope, *right, truthy)
        } else {
            Seq::empty()
        },
        ExpressionKind::Boolean { connective, values } => if truthy == (connective
            == Connective::And) {
            conditions(db, scope, values, truthy, values@.len())
        } else {
            Seq::empty()
        },
        ExpressionKind::Unary { sign, operand } => if sign == UnaryOperator::Other {
            Seq::empty()
        } else {
            condition(db, scope, *operand, !truthy)
        },
        _ => Seq::empty(),
    }
}

/// What the first of some conditions say of paths.
pub open spec fn conditions(
    db: Db,
    scope: Scope,
    values: Vec<Expression>,
    truthy: bool,
    count: nat,
) -> Seq<Refinement>
    decreases values, count,
{
    if count == 0 || count > values@.len() {
        Seq::empty()
    } else {
        conditions(db, scope, values, truthy, (count - 1) as nat) + condition(
            db,
            scope,
            values@[count - 1],
            truthy,
        )
    }
}

/// Tells what a path that an expression is means.
fn chalk_feature_path_key_from_expression(db: &Db, scope: &Scope, expression: &Expression) -> (
    found: Option<ChalkFeaturePathKey>)
    requires
        db.wf(),
        scope.wf(*db),
        expression_wf(*db, *expression),
    ensures
        match (
            found,
            match path_of(*expression) {
                Some(path) => key(*db, *scope, path, path.members.len() as int),
                None => None,
            },
        ) {
            (Some(found), Some(expected)) => found@ == expected,
            (None, None) => true,
            _ => false,
        },
{
    proof {
        lemma_root_known(*db, *expression);
    }
    match FeaturePath::from_expression(expression) {
        Some(path) => {
            let count = path.members.len();
            chalk_feature_path_key(db, scope, &path, count)
        },
        None => None,
    }
}

/// What a comparison with `None` says.
fn comparison_says(operator: Comparator, truthy: bool) -> (result: Option<ChalkPathRefinement>)
    ensures
        result == says(operator, truthy),
{
    match (operator, truthy) {
        (Comparator::NotEqual, true) | (Comparator::IsNot, true) | (Comparator::Equal, false) | (
            Comparator::Is,
            false,
        ) => Some(ChalkPathRefinement::NonNone),
        (Comparator::Equal, true) | (Comparator::Is, true) | (Comparator::NotEqual, false) | (
            Comparator::IsNot,
            false,
        ) => Some(ChalkPathRefinement::OnlyNone),
        _ => None,
    }
}

/// Whether an expression is `None`.
fn is_none_literal(expression: &Expression) -> (found: bool)
    ensures
        found == (expression.kind is NoneLiteral),
{
    match &expression.kind {
        ExpressionKind::NoneLiteral => true,
        _ => false,
    }
}

/// Adds what one comparison says.
fn collect_comparison(
    db: &Db,
    scope: &Scope,
    left: &Expression,
    operator: Comparator,
    right: &Expression,
    truthy: bool,
    out: &mut ChalkRefinements,
)
    requires
        db.wf(),
        scope.wf(*db),
        expression_wf(*db, *left),
        expression_wf(*db, *right),
    ensures
        final(out)@ == old(out)@ + match (
            compared_with_none(*left, *right),
            says(operator, truthy),
        ) {
            (Some(path), Some(says)) => match path_of(path) {
                Some(path) => match key(*db, *scope, path, path.members.len() as int) {
                    Some(key) => seq![Refinement { path: key, says }],
                    None => Seq::empty(),
                },
                None => Seq::empty(),
            },
            _ => Seq::empty(),
        },
{
    let ghost start = out@;
    assert(start + Seq::<Refinement>::empty() =~= start);
    let path = if is_none_literal(right) {
        left
    } else if is_none_literal(left) {
        right
    } else {
        return ;
    };
    if let Some(says) = comparison_says(operator, truthy) {
        if let Some(key) = chalk_feature_path_key_from_expression(db, scope, path) {
            let ghost added = Refinement { path: key@, says };
            out.paths.push((key, says));
            assert(out@ =~= start + seq![added]);
        }
    }
}

/// Adds what a condition says of paths, where it is true or where it is false.
fn collect_chalk_condition_refinements(
    db: &Db,
    scope: &Scope,
    expression: &Expression,
    truthy: bool,
    out: &mut ChalkRefinements,
)
    requires
        db.wf(),
        scope.wf(*db),
        expression_wf(*db, *expression),
    ensures
        final(out)@ == old(out)@ + condition(*db, *scope, *expression, truthy),
    decreases expression, 0int,
{
    let ghost start = out@;
    assert(start + Seq::<Refinement>::empty() =~= start);
    match &expression.kind {
        ExpressionKind::Compare { left, operators, others } => {
            if operators.len() == 1 && others.len() == 1 {
                assert(expression_wf(*db, others@[0]));
                collect_comparison(db, scope, left, operators[0], &others[0], truthy, out);
            }
        },
        ExpressionKind::Binary { operator, left, right } => {
            if (truthy && *operator == Operator::BitAnd) || (!truthy && *operator
                == Operator::BitOr) {
                collect_chalk_condition_refinements(db, scope, left, truthy, out);
                collect_chalk_condition_refinements(db, scope, right, truthy, out);
                assert(out@ =~= start + (condition(*db, *scope, **left, truthy) + condition(
                    *db,
                    *scope,
                    **right,
                    truthy,
                )));
            }
        },
        ExpressionKind::Boolean { connective, values } => {
            if (truthy && *connective == Connective::And) || (!truthy && *connective
                == Connective::Or) {
                collect_all(db, scope, values, truthy, out);
            }
        },
        ExpressionKind::Unary { sign, operand } => {
            if *sign == UnaryOperator::Not || *sign == UnaryOperator::Invert {
                collect_chalk_condition_refinements(db, scope, operand, !truthy, out);
            }
        },
        _ => {},
    }
}

/// Adds what conditions say of paths.
fn collect_all(
    db: &Db,
    scope: &Scope,
    values: &Vec<Expression>,
    truthy: bool,
    out: &mut ChalkRefinements,
)
    requires
        db.wf(),
        scope.wf(*db),
        forall|i: int| 0 <= i < values@.len() ==> expression_wf(*db, #[trigger] values@[i]),
    ensures
        final(out)@ == old(out)@ + conditions(*db, *scope, *values, truthy, values@.len()),
    decreases values, 1int,
{
    let ghost start = out@;
    let mut i: usize = 0;
    assert(start + Seq::<Refinement>::empty() =~= start);
    while i < values.len()
        invariant
            i <= values@.len(),
            db.wf(),
            scope.wf(*db),
            forall|k: int| 0 <= k < values@.len() ==> expression_wf(*db, #[trigger] values@[k]),
            out@ == start + conditions(*db, *scope, *values, truthy, i as nat),
        decreases values@.len() - i,
    {
        assert(expression_wf(*db, values@[i as int]));
        collect_chalk_condition_refinements(db, scope, &values[i], truthy, out);
        assert(out@ =~= start + conditions(*db, *scope, *values, truthy, i as nat + 1));
        i += 1;
    }
}

// ---------------------------------------------------------------------------------------------
// Conditional expressions
// ---------------------------------------------------------------------------------------------

/// What is known in the two branches of a conditional expression.
#[derive(Debug)]
pub struct ChalkIfThenElseRefinements {
    pub if_true: ChalkRefinements,
    pub if_false: ChalkRefinements,
}

/// A function that is called, or the function of a method that is.
#[derive(Debug)]
pub struct CalledFunction {
    pub name: String,
    /// The module of the function's file, where it is one.
    pub module: Option<String>,
}

/// Whether a call is a conditional expression: of `if_then_else`, with three plain arguments.
pub open spec fn is_if_then_else(
    function: Option<CalledFunction>,
    arguments: Seq<Expression>,
    has_keywords: bool,
) -> bool {
    &&& function matches Some(function) && {
        &&& function.name@ == "if_then_else"@
        &&& function.module matches Some(module)
        &&& module@ == "chalk.functions"@ || module@ == "chalk.features.underscore"@
    }
    &&& !has_keywords
    &&& arguments.len() == 3
    &&& forall|i: int| 0 <= i < arguments.len() ==> !((#[trigger] arguments[i]).kind is Starred)
}

/// Whether an expression is starred.
fn is_starred(expression: &Expression) -> (found: bool)
    ensures
        found == (expression.kind is Starred),
{
    match &expression.kind {
        ExpressionKind::Starred => true,
        _ => false,
    }
}

/// Tells what is known in the two branches of a conditional expression.
pub fn chalk_if_then_else_refinements(
    db: &Db,
    scope: &Scope,
    function: &Option<CalledFunction>,
    arguments: &Vec<Expression>,
    has_keywords: bool,
) -> (result: Option<ChalkIfThenElseRefinements>)
    requires
        db.wf(),
        scope.wf(*db),
        forall|i: int|
            0 <= i < arguments@.len() ==> expression_wf(*db, #[trigger] arguments@[i]),
    ensures
        match result {
            Some(result) => {
                &&& is_if_then_else(*function, arguments@, has_keywords)
                &&& result.if_true@ == condition(*db, *scope, arguments@[0], true)
                &&& result.if_false@ == condition(*db, *scope, arguments@[0], false)
            },
            None => !is_if_then_else(*function, arguments@, has_keywords),
        },
{
    match function {
        Some(function) => {
            if !text::same_text(function.name.as_str(), "if_then_else") {
                return None;
            }
            match &function.module {
                Some(module) => {
                    if !text::same_text(module.as_str(), "chalk.functions")
                        && !text::same_text(module.as_str(), "chalk.features.underscore") {
                        return None;
                    }
                },
                None => {
                    return None;
                },
            }
        },
        None => {
            return None;
        },
    }
    if has_keywords || arguments.len() != 3 {
        return None;
    }
    if is_starred(&arguments[0]) || is_starred(&arguments[1]) || is_starred(&arguments[2]) {
        assert(arguments@[0].kind is Starred || arguments@[1].kind is Starred
            || arguments@[2].kind is Starred);
        return None;
    }
    assert(expression_wf(*db, arguments@[0]));
    let mut if_true = ChalkRefinements { paths: Vec::new() };
    let mut if_false = ChalkRefinements { paths: Vec::new() };
    assert(if_true@ =~= Seq::empty());
    assert(if_false@ =~= Seq::empty());
    collect_chalk_condition_refinements(db, scope, &arguments[0], true, &mut if_true);
    collect_chalk_condition_refinements(db, scope, &arguments[0], false, &mut if_false);
    assert(if_true@ =~= condition(*db, *scope, arguments@[0], true));
    assert(if_false@ =~= condition(*db, *scope, arguments@[0], false));
    Some(ChalkIfThenElseRefinements { if_true, if_false })
}

/// What is known in an argument of a conditional expression, beyond what is known around it.
pub open spec fn known_in_argument(
    refinements: Option<ChalkIfThenElseRefinements>,
    index: int,
) -> Seq<Refinement> {
    match refinements {
        Some(refinements) => if index == 1 {
            refinements.if_true@
        } else if index == 2 {
            refinements.if_false@
        } else {
            Seq::empty()
        },
        None => Seq::empty(),
    }
}

/// A copy of a key.
fn copied_key(key: &ChalkFeaturePathKey) -> (copy: ChalkFeaturePathKey)
    ensures
        copy@ == key@,
{
    let mut members: Vec<String> = Vec::new();
    let mut i: usize = 0;
    while i < key.members.len()
        invariant
            i <= key.members@.len(),
            members@.len() == i,
            forall|k: int| 0 <= k < i ==> (#[trigger] members@[k])@ == key.members@[k]@,
        decreases key.members@.len() - i,
    {
        members.push(key.members[i].clone());
        i += 1;
    }
    let copy = ChalkFeaturePathKey { root: key.root, members };
    assert(copy@.members =~= key@.members);
    copy
}

impl ChalkRefinements {
    /// Goes into an argument of a conditional expression. Gives what to hand to
    /// [`ChalkRefinements::leave_argument`] when the argument is done.
    pub fn enter_argument(
        &mut self,
        refinements: Option<&ChalkIfThenElseRefinements>,
        index: usize,
    ) -> (known: usize)
        ensures
            known == old(self)@.len(),
            final(self)@ == old(self)@ + known_in_argument(
                match refinements {
                    Some(refinements) => Some(*refinements),
                    None => None,
                },
                index as int,
            ),
    {
        let ghost start = self@;
        let known = self.paths.len();
        assert(start + Seq::<Refinement>::empty() =~= start);
        let added = match refinements {
            Some(refinements) => if index == 1 {
                &refinements.if_true
            } else if index == 2 {
                &refinements.if_false
            } else {
                return known;
            },
            None => {
                return known;
            },
        };
        let mut i: usize = 0;
        assert(added@.take(0) =~= Seq::empty());
        while i < added.paths.len()
            invariant
                i <= added.paths@.len(),
                self@ == start + added@.take(i as int),
            decreases added.paths@.len() - i,
        {
            let ghost before = self@;
            let item = &added.paths[i];
            let path = copied_key(&item.0);
            let ghost own = Refinement { path: path@, says: item.1 };
            self.paths.push((path, item.1));
            assert(self@ =~= before.push(own));
            assert(added@[i as int] == own);
            assert(self@ =~= start + added@.take(i as int + 1));
            i += 1;
        }
        assert(added@.take(i as int) =~= added@);
        known
    }

    /// Comes back from an argument of a conditional expression.
    pub fn leave_argument(&mut self, known: usize)
        requires
            known <= old(self)@.len(),
        ensures
            final(self)@ == old(self)@.take(known as int),
    {
        let ghost start = self@;
        self.paths.truncate(known);
        assert(self@ =~= start.take(known as int));
    }
}

// ---------------------------------------------------------------------------------------------
// Resolving paths
// ---------------------------------------------------------------------------------------------

/// A type with what is said of it.
pub open spec fn narrowed(db: Db, ty: Type, says: ChalkPathRefinement) -> Type {
    match db.ty(ty).parts {
        Some(parts) => if says == ChalkPathRefinement::NonNone {
            parts.without_none
        } else {
            parts.only_none
        },
        None => ty,
    }
}

/// A type with all that is said of a path, in order.
pub open spec fn refined(db: Db, known: Seq<Refinement>, key: Key, ty: Type) -> Type
    decreases known.len(),
{
    if known.len() == 0 {
        ty
    } else {
        let before = refined(db, known.drop_last(), key, ty);
        if known.last().path == key {
            narrowed(db, before, known.last().says)
        } else {
            before
        }
    }
}

/// The type of a feature at the end of the first members of a path, with what is known of it.
pub open spec fn refined_member(
    db: Db,
    scope: Scope,
    known: Seq<Refinement>,
    path: Path,
    count: int,
    ty: Type,
) -> Type {
    match key(db, scope, path, count) {
        Some(key) => refined(db, known, key, ty),
        None => ty,
    }
}

/// Refines the type of a feature by what is known of its path.
fn refine_chalk_feature_path(
    db: &Db,
    scope: &Scope,
    known: &ChalkRefinements,
    path: &FeaturePath,
    count: usize,
    ty: Type,
) -> (refined_ty: Type)
    requires
        db.wf(),
        scope.wf(*db),
        db.has_type(path.root),
        db.has_type(ty),
    ensures
        refined_ty == refined_member(*db, *scope, known@, path@, count as int, ty),
        db.has_type(refined_ty),
{
    let key = match chalk_feature_path_key(db, scope, path, count) {
        Some(key) => key,
        None => {
            return ty;
        },
    };
    let mut current = ty;
    let mut i: usize = 0;
    assert(known@.take(0) =~= Seq::empty());
    while i < known.paths.len()
        invariant
            i <= known.paths@.len(),
            db.wf(),
            db.has_type(current),
            current == refined(*db, known@.take(i as int), key@, ty),
        decreases known.paths@.len() - i,
    {
        let item = &known.paths[i];
        proof {
            assert(known@.take(i as int + 1).drop_last() =~= known@.take(i as int));
            assert(known@.take(i as int + 1).last() == known@[i as int]);
            assert(db.type_wf(db.types@[current.id as int]));
        }
        if same_key(&item.0, &key) {
            match db.types[current.id].parts {
                Some(parts) => {
                    current = match item.1 {
                        ChalkPathRefinement::NonNone => parts.without_none,
                        ChalkPathRefinement::OnlyNone => parts.only_none,
                    };
                },
                None => {},
            }
        }
        i += 1;
    }
    assert(known@.take(i as int) =~= known@);
    current
}

/// What is to be reported of a member.
#[derive(Clone, Copy, Debug, PartialEq, Eq, Structural)]
pub enum MissingMember {
    Missing,
    PossiblyMissing,
}

/// A member of a resolved path.
#[derive(Debug)]
pub struct ResolvedMember {
    pub name: String,
    pub ty: Type,
}

/// The type that an expression is shown to have.
#[derive(Debug)]
pub struct StoredType {
    pub node: usize,
    pub shown: Shown,
}

/// A resolved path: its members, the types of the expressions in it, and what is to be reported.
#[derive(Debug)]
pub struct ResolvedFeaturePath {
    pub members: Vec<ResolvedMember>,
    pub stored: Vec<StoredType>,
    pub report: Option<MissingMember>,
}

/// A member of a resolved path.
pub struct Found {
    pub name: Seq<char>,
    pub ty: Type,
}

/// The type that an expression is shown to have.
pub struct Stored {
    pub node: usize,
    pub shown: ShownAs,
}

/// A resolved path.
pub struct Resolution {
    pub members: Seq<Found>,
    pub stored: Seq<Stored>,
    pub report: Option<MissingMember>,
}

/// Members of a resolved path.
pub open spec fn found(members: Seq<ResolvedMember>) -> Seq<Found> {
    Seq::new(members.len(), |i: int| Found { name: members[i].name@, ty: members[i].ty })
}

/// The types that expressions are shown to have.
pub open spec fn stored(types: Seq<StoredType>) -> Seq<Stored> {
    Seq::new(types.len(), |i: int| Stored { node: types[i].node, shown: types[i].shown@ })
}

impl View for ResolvedFeaturePath {
    type V = Resolution;

    open spec fn view(&self) -> Resolution {
        Resolution {
            members: found(self.members@),
            stored: stored(self.stored@),
            report: self.report,
        }
    }
}

/// How a path is resolved.
#[derive(Clone, Copy, Debug, PartialEq, Eq, Structural)]
pub struct Manner {
    /// Whether the type of the whole path is stored too.
    pub store_terminal: bool,
    /// Whether what stands for the values is stored, rather than their types.
    pub resolved_values: bool,
    /// Whether a missing member is reported, rather than the path not resolved.
    pub diagnose_missing: bool,
    /// Whether what may be absent on the way is passed as if it were there.
    pub pass_optional: bool,
}

/// What has the next member of a path.
pub open spec fn owner_of(db: Db, manner: Manner, current: Type) -> Type {
    if manner.pass_optional {
        features::present(db, current)
    } else {
        current
    }
}

/// What taking an attribute gives, and what is to be reported of it.
pub open spec fn loaded(db: Db, ty: Type, name: Seq<char>) -> (Type, Option<MissingMember>) {
    match db.member(ty, name) {
        Some((member, Definedness::AlwaysDefined)) => (member, None),
        Some((member, Definedness::PossiblyUndefined)) => (
            member,
            Some(MissingMember::PossiblyMissing),
        ),
        None => (db.unknown, Some(MissingMember::Missing)),
    }
}

/// What stands for a feature in a path.
pub open spec fn shown_as(db: Db, scope: Scope, manner: Manner, ty: Type) -> ShownAs {
    if manner.resolved_values {
        features::symbolic(db, scope, ty)
    } else {
        ShownAs::Plain(ty)
    }
}

/// Resolves the members of a path from a place on.
pub open spec fn resolved_from(
    db: Db,
    scope: Scope,
    known: Seq<Refinement>,
    path: Path,
    current: Type,
    manner: Manner,
    at: int,
) -> Option<Resolution>
    decreases path.members.len() - at,
{
    if at < 0 || at >= path.members.len() {
        Some(Resolution { members: Seq::empty(), stored: Seq::empty(), report: None })
    } else {
        let step = path.members[at];
        let is_last = at == path.members.len() - 1;
        match features::feature_member(db, scope, owner_of(db, manner, current), step.name) {
            None => if manner.diagnose_missing {
                let (ty, report) = loaded(db, current, step.name);
                Some(
                    Resolution {
                        members: seq![Found { name: step.name, ty }],
                        stored: if is_last {
                            Seq::empty()
                        } else {
                            seq![Stored { node: step.node, shown: ShownAs::Plain(ty) }]
                        },
                        report,
                    },
                )
            } else {
                None
            },
            Some(member) => {
                let ty = refined_member(db, scope, known, path, at + 1, member);
                match resolved_from(db, scope, known, path, ty, manner, at + 1) {
                    None => None,
                    Some(rest) => Some(
                        Resolution {
                            members: seq![Found { name: step.name, ty }] + rest.members,
                            stored: (if manner.store_terminal || !is_last {
                                seq![
                                    Stored {
                                        node: step.node,
                                        shown: shown_as(db, scope, manner, ty),
                                    },
                                ]
                            } else {
                                Seq::empty()
                            }) + rest.stored,
                            report: rest.report,
                        },
                    ),
                }
            },
        }
    }
}

/// Resolves a path, starting at a type.
pub open spec fn resolved(
    db: Db,
    scope: Scope,
    known: Seq<Refinement>,
    path: Path,
    start: Type,
    manner: Manner,
) -> Option<Resolution> {
    match resolved_from(db, scope, known, path, start, manner, 0) {
        Some(rest) => Some(
            Resolution {
                stored: seq![Stored { node: path.root_node, shown: ShownAs::Plain(path.root) }]
                    + rest.stored,
                ..rest
            },
        ),
        None => None,
    }
}

/// What stands for a feature in a path.
fn show(db: &Db, scope: &Scope, manner: Manner, ty: Type) -> (shown: Shown)
    requires
        db.wf(),
        scope.wf(*db),
        db.has_type(ty),
    ensures
        shown@ == shown_as(*db, *scope, manner, ty),
{
    if manner.resolved_values {
        features::chalk_symbolic_feature_type(db, scope, ty)
    } else {
        Shown::Plain(ty)
    }
}

/// What taking an attribute gives, and what is to be reported of it.
fn load(db: &Db, ty: Type, name: &str) -> (result: (Type, Option<MissingMember>))
    requires
        db.wf(),
        db.has_type(ty),
    ensures
        result == loaded(*db, ty, name@),
        db.has_type(result.0),
{
    match db.find_member(ty, name) {
        Some((member, Definedness::AlwaysDefined)) => (member, None),
        Some((member, Definedness::PossiblyUndefined)) => (
            member,
            Some(MissingMember::PossiblyMissing),
        ),
        None => (db.unknown, Some(MissingMember::Missing)),
    }
}

/// Whether the types of the members are in the picture.
pub open spec fn members_known(db: Db, members: Seq<ResolvedMember>) -> bool {
    forall|i: int| 0 <= i < members.len() ==> db.has_type((#[trigger] members[i]).ty)
}

/// Resolves a path, starting at a type.
pub fn resolve_chalk_feature_path_from(
    db: &Db,
    scope: &Scope,
    known: &ChalkRefinements,
    path: &FeaturePath,
    start: Type,
    manner: Manner,
) -> (result: Option<ResolvedFeaturePath>)
    requires
        db.wf(),
        scope.wf(*db),
        db.has_type(path.root),
        db.has_type(start),
    ensures
        match (result, resolved(*db, *scope, known@, path@, start, manner)) {
            (Some(result), Some(expected)) => result@ == expected && members_known(
                *db,
                result.members@,
            ),
            (None, None) => true,
            _ => false,
        },
{
    let ghost whole = resolved_from(*db, *scope, known@, path@, start, manner, 0);
    let ghost root = Stored { node: path.root_node, shown: ShownAs::Plain(path.root) };
    let mut members: Vec<ResolvedMember> = Vec::new();
    let mut types: Vec<StoredType> = Vec::new();
    types.push(StoredType { node: path.root_node, shown: Shown::Plain(path.root) });
    let mut current = start;
    let mut i: usize = 0;
    proof {
        assert(stored(types@) =~= seq![root]);
        if let Some(expected) = whole {
            assert(expected.members =~= found(members@) + expected.members);
        }
    }
    while i < path.members.len()
        invariant
            i <= path.members@.len(),
            db.wf(),
            scope.wf(*db),
            db.has_type(path.root),
            db.has_type(current),
            members_known(*db, members@),
            root == (Stored { node: path.root_node, shown: ShownAs::Plain(path.root) }),
            whole == resolved_from(*db, *scope, known@, path@, start, manner, 0),
            match (
                whole,
                resolved_from(*db, *scope, known@, path@, current, manner, i as int),
            ) {
                (Some(expected), Some(rest)) => {
                    &&& expected.members == found(members@) + rest.members
                    &&& seq![root] + expected.stored == stored(types@) + rest.stored
                    &&& expected.report == rest.report
                },
                (None, None) => true,
                _ => false,
            },
        decreases path.members@.len() - i,
    {
        let member = &path.members[i];
        let name = member.name.as_str();
        let is_last = i == path.members.len() - 1;
        let ghost found_before = found(members@);
        let ghost stored_before = stored(types@);
        let ghost known_members = members@;
        assert(path@.members[i as int] == Step { node: member.node, name: name@ });
        let owner = if manner.pass_optional {
            features::without_none(db, current)
        } else {
            current
        };
        match features::chalk_feature_member(db, scope, owner, name) {
            None => {
                if !manner.diagnose_missing {
                    return None;
                }
                let (ty, report) = load(db, current, name);
                members.push(ResolvedMember { name: member.name.clone(), ty });
                assert(found(members@) =~= found_before + seq![Found { name: name@, ty }]);
                if !is_last {
                    types.push(StoredType { node: member.node, shown: Shown::Plain(ty) });
                    assert(stored(types@) =~= stored_before + seq![
                        Stored { node: member.node, shown: ShownAs::Plain(ty) },
                    ]);
                }
                assert forall|k: int| 0 <= k < members@.len() implies db.has_type(
                    (#[trigger] members@[k]).ty,
                ) by {
                    if k < known_members.len() {
                        assert(members@[k] == known_members[k]);
                    }
                }
                proof {
                    if let Some(expected) = whole {
                        assert(found(members@) =~= expected.members);
                        assert(stored(types@) =~= seq![root] + expected.stored);
                    }
                }
                return Some(ResolvedFeaturePath { members, stored: types, report });
            },
            Some(own) => {
                let ty = refine_chalk_feature_path(db, scope, known, path, i + 1, own);
                let ghost item = Found { name: name@, ty };
                let ghost before = resolved_from(
                    *db,
                    *scope,
                    known@,
                    path@,
                    current,
                    manner,
                    i as int,
                );
                members.push(ResolvedMember { name: member.name.clone(), ty });
                assert(found(members@) =~= found_before + seq![item]);
                if manner.store_terminal || !is_last {
                    let shown = show(db, scope, manner, ty);
                    types.push(StoredType { node: member.node, shown });
                    assert(stored(types@) =~= stored_before + seq![
                        Stored { node: member.node, shown: shown@ },
                    ]);
                }
                assert forall|k: int| 0 <= k < members@.len() implies db.has_type(
                    (#[trigger] members@[k]).ty,
                ) by {
                    if k < known_members.len() {
                        assert(members@[k] == known_members[k]);
                    }
                }
                proof {
                    let rest = resolved_from(
                        *db,
                        *scope,
                        known@,
                        path@,
                        ty,
                        manner,
                        i as int + 1,
                    );
                    if let (Some(expected), Some(rest)) = (whole, rest) {
                        assert(found_before + (seq![item] + rest.members) =~= found(members@)
                            + rest.members);
                        assert(seq![root] + expected.stored =~= stored(types@) + rest.stored);
                    }
                }
                current = ty;
            },
        }
        i += 1;
    }
    proof {
        if let Some(expected) = whole {
            assert(expected.members =~= found(members@));
            assert(seq![root] + expected.stored =~= stored(types@));
        }
    }
    Some(ResolvedFeaturePath { members, stored: types, report: None })
}

} // verus!

//! Classes of features: how they are told, what their members are and what stands for their values.

use vstd::prelude::*;

use crate::semantic::{Class, Db, Declaration, Field, FieldKind, Member, Type, TypeKind};
use crate::text;

verus! {

broadcast use vstd::string::group_string_axioms;

// ---------------------------------------------------------------------------------------------
// Where an expression stands
// ---------------------------------------------------------------------------------------------

/// A symbol of a module and its type.
#[derive(Debug)]
pub struct Symbol {
    pub name: String,
    pub ty: Type,
}

/// What the modules that features are made with hold, as the file imports them. A module that
/// cannot be imported holds nothing.
#[derive(Debug)]
pub struct Symbols {
    /// The symbols of `chalk.features`.
    pub features: Vec<Symbol>,
    /// The symbols of `chalk.streams`.
    pub streams: Vec<Symbol>,
    /// The symbols of `ty_chalk_extensions`.
    pub extensions: Vec<Symbol>,
    /// The members that `_` has without asking for arbitrary ones.
    pub underscore: Vec<String>,
}

/// Where an expression stands.
#[derive(Debug)]
pub struct Scope {
    pub symbols: Symbols,
    /// Whether the scope is the body of a class.
    pub is_class: bool,
    /// The type of the nearest class around the scope.
    pub enclosing: Option<Type>,
    /// The type of the rows of the relationship whose subscript is nearest around the expression.
    /// There `_` stands for a row.
    pub row: Option<Type>,
}

/// What stands for the value of a feature.
#[derive(Debug)]
pub enum Shown {
    /// A type as it is.
    Plain(Type),
    /// The extension class `Resolved`, applied to a type.
    Resolved(Type),
    /// The extension class `Windowed`, applied to a type.
    Windowed(Type),
    /// The tuple of some types.
    Tuple(Vec<Type>),
    /// Nothing is known, because the extension class cannot be imported.
    Unknown,
}

/// What stands for the value of a feature.
pub enum ShownAs {
    Plain(Type),
    Resolved(Type),
    Windowed(Type),
    Tuple(Seq<Type>),
    Unknown,
}

impl View for Shown {
    type V = ShownAs;

    open spec fn view(&self) -> ShownAs {
        match self {
            Shown::Plain(ty) => ShownAs::Plain(*ty),
            Shown::Resolved(ty) => ShownAs::Resolved(*ty),
            Shown::Windowed(ty) => ShownAs::Windowed(*ty),
            Shown::Tuple(types) => ShownAs::Tuple(types@),
            Shown::Unknown => ShownAs::Unknown,
        }
    }
}

/// The type of a symbol, from a place in the list on.
pub open spec fn symbol_from(symbols: Seq<Symbol>, name: Seq<char>, at: int) -> Option<Type>
    decreases symbols.len() - at,
{
    if at < 0 || at >= symbols.len() {
        None
    } else if symbols[at].name@ == name {
        Some(symbols[at].ty)
    } else {
        symbol_from(symbols, name, at + 1)
    }
}

/// The type of a symbol.
pub open spec fn symbol(symbols: Seq<Symbol>, name: Seq<char>) -> Option<Type> {
    symbol_from(symbols, name, 0)
}

/// The class that a symbol is, where it is one that is written in source.
pub open spec fn class_symbol(db: Db, symbols: Seq<Symbol>, name: Seq<char>) -> Option<Class> {
    match symbol(symbols, name) {
        Some(ty) => match db.ty(ty).kind {
            TypeKind::ClassLiteral { class } => if db.class(class).is_static {
                Some(db.class(class).generic)
            } else {
                None
            },
            _ => None,
        },
        None => None,
    }
}

/// What a generic class is applied to first, for an instance of it.
pub open spec fn applied_to(db: Db, ty: Type, generic: Option<Class>) -> Option<Type> {
    match (generic, db.ty(ty).nominal_class) {
        (Some(generic), Some(class)) => if db.class(class).generic == generic && db.class(
            class,
        ).arguments@.len() > 0 {
            Some(db.class(class).arguments@[0])
        } else {
            None
        },
        _ => None,
    }
}

impl Scope {
    /// What is mentioned is in the picture.
    pub open spec fn wf(self, db: Db) -> bool {
        &&& symbols_wf(db, self.symbols.features@)
        &&& symbols_wf(db, self.symbols.streams@)
        &&& symbols_wf(db, self.symbols.extensions@)
        &&& self.enclosing matches Some(ty) ==> db.has_type(ty)
        &&& self.row matches Some(ty) ==> db.has_type(ty)
    }
}

/// What symbols mention is in the picture.
pub open spec fn symbols_wf(db: Db, symbols: Seq<Symbol>) -> bool {
    forall|i: int| 0 <= i < symbols.len() ==> db.has_type((#[trigger] symbols[i]).ty)
}

/// Finds the type of a symbol.
pub fn find_symbol(symbols: &Vec<Symbol>, name: &str) -> (ty: Option<Type>)
    ensures
        ty == symbol(symbols@, name@),
        forall|db: Db| #[trigger]
            symbols_wf(db, symbols@) ==> (ty matches Some(ty) ==> db.has_type(ty)),
{
    let mut i: usize = 0;
    while i < symbols.len()
        invariant
            i <= symbols@.len(),
            symbol(symbols@, name@) == symbol_from(symbols@, name@, i as int),
        decreases symbols@.len() - i,
    {
        if text::same_text(symbols[i].name.as_str(), name) {
            assert forall|db: Db| #[trigger] symbols_wf(db, symbols@) implies db.has_type(
                symbols@[i as int].ty,
            ) by {}
            return Some(symbols[i].ty);
        }
        i += 1;
    }
    None
}

/// Finds the class that a symbol is.
fn find_class(db: &Db, symbols: &Vec<Symbol>, name: &str) -> (class: Option<Class>)
    requires
        db.wf(),
        symbols_wf(*db, symbols@),
    ensures
        class == class_symbol(*db, symbols@, name@),
{
    match find_symbol(symbols, name) {
        Some(ty) => {
            assert(db.type_wf(db.types@[ty.id as int]));
            match &db.types[ty.id].kind {
                TypeKind::ClassLiteral { class } => if db.classes[class.id].is_static {
                    Some(db.classes[class.id].generic)
                } else {
                    None
                },
                _ => None,
            }
        },
        None => None,
    }
}

/// Finds what a generic class is applied to first, for an instance of it.
fn first_argument(db: &Db, ty: Type, generic: Option<Class>) -> (argument: Option<Type>)
    requires
        db.wf(),
        db.has_type(ty),
    ensures
        argument == applied_to(*db, ty, generic),
        argument matches Some(argument) ==> db.has_type(argument),
{
    assert(db.type_wf(db.types@[ty.id as int]));
    match (generic, db.types[ty.id].nominal_class) {
        (Some(generic), Some(class)) => {
            assert(db.class_wf(db.classes@[class.id as int]));
            let data = &db.classes[class.id];
            if data.generic == generic && data.arguments.len() > 0 {
                assert(db.has_type(data.arguments@[0]));
                Some(data.arguments[0])
            } else {
                None
            }
        },
        _ => None,
    }
}

// ---------------------------------------------------------------------------------------------
// Classes of features
// ---------------------------------------------------------------------------------------------

/// Whether a type is a class of features.
pub open spec fn is_features_class(db: Db, ty: Type) -> bool {
    db.ty(ty).kind matches TypeKind::ClassLiteral { class } && db.class(class).is_static
        && db.class(class).is_features
}

/// Whether a scope is the body of a class of features.
pub open spec fn in_features_class(db: Db, scope: Scope) -> bool {
    scope.is_class && (scope.enclosing matches Some(ty) && is_features_class(db, ty))
}

/// Whether a type is that of a symbol of `chalk.features`.
pub open spec fn is_symbol(scope: Scope, ty: Type, name: Seq<char>) -> bool {
    symbol(scope.symbols.features@, name) == Some(ty)
}

/// The class of features that a type has instances of.
pub open spec fn instance_class(db: Db, ty: Type) -> Option<Class> {
    match db.ty(ty).nominal_class {
        Some(class) => if db.class(class).is_static && db.class(class).is_features {
            Some(class)
        } else {
            None
        },
        None => None,
    }
}

/// Whether a type is a class of features.
pub fn is_chalk_features_class(db: &Db, ty: Type) -> (found: bool)
    requires
        db.wf(),
        db.has_type(ty),
    ensures
        found == is_features_class(*db, ty),
{
    assert(db.type_wf(db.types@[ty.id as int]));
    match &db.types[ty.id].kind {
        TypeKind::ClassLiteral { class } => db.classes[class.id].is_static
            && db.classes[class.id].is_features,
        _ => false,
    }
}

/// Whether a scope is the body of a class of features.
pub fn in_chalk_features_class(db: &Db, scope: &Scope) -> (found: bool)
    requires
        db.wf(),
        scope.wf(*db),
    ensures
        found == in_features_class(*db, *scope),
{
    if !scope.is_class {
        return false;
    }
    match scope.enclosing {
        Some(ty) => is_chalk_features_class(db, ty),
        None => false,
    }
}

/// Whether a type is that of a symbol of `chalk.features`.
pub fn is_chalk_features_symbol(scope: &Scope, ty: Type, name: &str) -> (found: bool)
    ensures
        found == is_symbol(*scope, ty, name@),
{
    match find_symbol(&scope.symbols.features, name) {
        Some(own) => own == ty,
        None => false,
    }
}

/// Whether a decorator makes a class one of features: `features`, or a call of it.
pub fn is_chalk_features_decorator(scope: &Scope, decorator: Type, call: Option<Type>) -> (found:
    bool)
    ensures
        found == (is_symbol(*scope, decorator, "features"@) || (call matches Some(ty) && is_symbol(
            *scope,
            ty,
            "features"@,
        ))),
{
    if is_chalk_features_symbol(scope, decorator, "features") {
        return true;
    }
    match call {
        Some(ty) => is_chalk_features_symbol(scope, ty, "features"),
        None => false,
    }
}

/// Finds the class of features that a type has instances of.
fn find_instance_class(db: &Db, ty: Type) -> (class: Option<Class>)
    requires
        db.wf(),
        db.has_type(ty),
    ensures
        class == instance_class(*db, ty),
        class matches Some(class) ==> db.has_class(class),
{
    assert(db.type_wf(db.types@[ty.id as int]));
    match db.types[ty.id].nominal_class {
        Some(class) => if db.classes[class.id].is_static && db.classes[class.id].is_features {
            Some(class)
        } else {
            None
        },
        None => None,
    }
}

// ---------------------------------------------------------------------------------------------
// Values of features
// ---------------------------------------------------------------------------------------------

/// The type of the values of a feature: what `Primary` is applied to, for a primary key.
pub open spec fn value_type(db: Db, scope: Scope, ty: Type) -> Type {
    match db.ty(ty).nominal_class {
        Some(class) => if db.class(class).name@ == "Primary"@ {
            match applied_to(
                db,
                ty,
                class_symbol(db, scope.symbols.features@, "Primary"@),
            ) {
                Some(inner) => inner,
                None => ty,
            }
        } else {
            ty
        },
        None => ty,
    }
}

/// What the rows of a relationship are: what `DataFrame` is applied to, where that is a class of
/// features. How a relationship is given its value does not matter.
pub open spec fn row_type(db: Db, scope: Scope, ty: Type) -> Option<Type> {
    match applied_to(db, ty, class_symbol(db, scope.symbols.features@, "DataFrame"@)) {
        Some(row) => if instance_class(db, row) is Some {
            Some(row)
        } else {
            None
        },
        None => None,
    }
}

/// A type without its part that is `None`.
pub open spec fn present(db: Db, ty: Type) -> Type {
    match db.ty(ty).parts {
        Some(parts) => parts.without_none,
        None => ty,
    }
}

/// What a windowed feature has windows of.
pub open spec fn windowed_inner(db: Db, scope: Scope, ty: Type) -> Option<Type> {
    applied_to(db, ty, class_symbol(db, scope.symbols.streams@, "Windowed"@))
}

/// What stands for the value of a feature in an expression: a windowed feature for its windows,
/// any other for its value.
pub open spec fn symbolic(db: Db, scope: Scope, ty: Type) -> ShownAs {
    match windowed_inner(db, scope, ty) {
        Some(inner) => if class_symbol(db, scope.symbols.extensions@, "Windowed"@) is Some {
            ShownAs::Windowed(inner)
        } else {
            ShownAs::Unknown
        },
        None => if class_symbol(db, scope.symbols.extensions@, "Resolved"@) is Some {
            ShownAs::Resolved(ty)
        } else {
            ShownAs::Unknown
        },
    }
}

/// What a type stands for, where it stands for the value of a feature.
pub open spec fn symbolic_inner(db: Db, scope: Scope, ty: Type) -> Option<Type> {
    match applied_to(db, ty, class_symbol(db, scope.symbols.extensions@, "Resolved"@)) {
        Some(inner) => Some(inner),
        None => applied_to(db, ty, class_symbol(db, scope.symbols.extensions@, "Windowed"@)),
    }
}

/// The type of the values of a feature.
pub fn chalk_feature_value_type(db: &Db, scope: &Scope, ty: Type) -> (value: Type)
    requires
        db.wf(),
        scope.wf(*db),
        db.has_type(ty),
    ensures
        value == value_type(*db, *scope, ty),
        db.has_type(value),
{
    assert(db.type_wf(db.types@[ty.id as int]));
    match db.types[ty.id].nominal_class {
        Some(class) => if text::same_text(db.classes[class.id].name.as_str(), "Primary") {
            match first_argument(db, ty, find_class(db, &scope.symbols.features, "Primary")) {
                Some(inner) => inner,
                None => ty,
            }
        } else {
            ty
        },
        None => ty,
    }
}

/// What the rows of a relationship are.
pub fn chalk_row_type(db: &Db, scope: &Scope, ty: Type) -> (row: Option<Type>)
    requires
        db.wf(),
        scope.wf(*db),
        db.has_type(ty),
    ensures
        row == row_type(*db, *scope, ty),
        row matches Some(row) ==> db.has_type(row),
{
    match first_argument(db, ty, find_class(db, &scope.symbols.features, "DataFrame")) {
        Some(row) => match find_instance_class(db, row) {
            Some(_) => Some(row),
            None => None,
        },
        None => None,
    }
}

/// A type without its part that is `None`.
pub fn without_none(db: &Db, ty: Type) -> (rest: Type)
    requires
        db.wf(),
        db.has_type(ty),
    ensures
        rest == present(*db, ty),
        db.has_type(rest),
{
    assert(db.type_wf(db.types@[ty.id as int]));
    match db.types[ty.id].parts {
        Some(parts) => parts.without_none,
        None => ty,
    }
}

/// What stands for the value of a feature in an expression.
pub fn chalk_symbolic_feature_type(db: &Db, scope: &Scope, ty: Type) -> (shown: Shown)
    requires
        db.wf(),
        scope.wf(*db),
        db.has_type(ty),
    ensures
        shown@ == symbolic(*db, *scope, ty),
{
    match first_argument(db, ty, find_class(db, &scope.symbols.streams, "Windowed")) {
        Some(inner) => match find_class(db, &scope.symbols.extensions, "Windowed") {
            Some(_) => Shown::Windowed(inner),
            None => Shown::Unknown,
        },
        None => match find_class(db, &scope.symbols.extensions, "Resolved") {
            Some(_) => Shown::Resolved(ty),
            None => Shown::Unknown,
        },
    }
}

/// What a type stands for, where it stands for the value of a feature.
pub fn chalk_symbolic_inner(db: &Db, scope: &Scope, ty: Type) -> (inner: Option<Type>)
    requires
        db.wf(),
        scope.wf(*db),
        db.has_type(ty),
    ensures
        inner == symbolic_inner(*db, *scope, ty),
        inner matches Some(inner) ==> db.has_type(inner),
{
    match first_argument(db, ty, find_class(db, &scope.symbols.extensions, "Resolved")) {
        Some(inner) => Some(inner),
        None => first_argument(db, ty, find_class(db, &scope.symbols.extensions, "Windowed")),
    }
}

/// What is held against each other where a feature gets a value in the body of its class: the type
/// of its values, the type that the value stands for, and whether it stands for one. Elsewhere the
/// types as they are.
pub fn chalk_feature_initializer_assignment(
    db: &Db,
    scope: &Scope,
    target_is_name: bool,
    declared: Type,
    is_class_var: bool,
    inferred: Type,
) -> (types: (Type, Type, bool))
    requires
        db.wf(),
        scope.wf(*db),
        db.has_type(declared),
        db.has_type(inferred),
    ensures
        types == if in_features_class(*db, *scope) && target_is_name && !is_class_var {
            match symbolic_inner(*db, *scope, inferred) {
                Some(inner) => (value_type(*db, *scope, declared), inner, true),
                None => (value_type(*db, *scope, declared), inferred, false),
            }
        } else {
            (declared, inferred, false)
        },
{
    if in_chalk_features_class(db, scope) && target_is_name && !is_class_var {
        let value = chalk_feature_value_type(db, scope, declared);
        match chalk_symbolic_inner(db, scope, inferred) {
            Some(inner) => (value, inner, true),
            None => (value, inferred, false),
        }
    } else {
        (declared, inferred, false)
    }
}

/// Whether a type is an instance of the extension class `Resolved` that is applied to a type.
pub open spec fn is_resolved_of(db: Db, ty: Type, inner: Type) -> bool {
    &&& db.ty(ty).kind is Instance
    &&& db.ty(ty).nominal_class matches Some(class) && {
        &&& db.class(class).name@ == "Resolved"@
        &&& db.file(db.class(class).file).module matches Some(module)
        &&& db.module(module).name@ == "ty_chalk_extensions"@
        &&& db.class(class).is_static
        &&& db.class(class).arguments@.len() > 0
        &&& db.class(class).arguments@[0] == inner
    }
}

/// The part of `T | Resolved[T]` that stands for the value of a feature, for a type variable `T`
/// and either order of the two.
pub open spec fn resolved_arm(db: Db, ty: Type) -> Option<Type> {
    match db.ty(ty).kind {
        TypeKind::Union { elements } => if elements@.len() == 2 {
            let left = elements@[0];
            let right = elements@[1];
            if db.ty(left).kind is TypeVar && is_resolved_of(db, right, left) {
                Some(right)
            } else if db.ty(right).kind is TypeVar && is_resolved_of(db, left, right) {
                Some(left)
            } else {
                None
            }
        } else {
            None
        },
        _ => None,
    }
}

/// Whether a type is an instance of the extension class `Resolved` that is applied to a type.
fn is_resolved(db: &Db, ty: Type, inner: Type) -> (found: bool)
    requires
        db.wf(),
        db.has_type(ty),
    ensures
        found == is_resolved_of(*db, ty, inner),
{
    assert(db.type_wf(db.types@[ty.id as int]));
    match &db.types[ty.id].kind {
        TypeKind::Instance => {},
        _ => {
            return false;
        },
    }
    match db.types[ty.id].nominal_class {
        Some(class) => {
            assert(db.class_wf(db.classes@[class.id as int]));
            let data = &db.classes[class.id];
            if !text::same_text(data.name.as_str(), "Resolved") {
                return false;
            }
            match db.files[data.file.id].module {
                Some(module) => text::same_text(
                    db.modules[module.id].name.as_str(),
                    "ty_chalk_extensions",
                ) && data.is_static && data.arguments.len() > 0 && data.arguments[0] == inner,
                None => false,
            }
        },
        None => false,
    }
}

/// The part of `T | Resolved[T]` to infer `T` by, where an argument can be assigned to that part.
pub fn chalk_resolved_union_inference_arm(db: &Db, ty: Type, actual: Type) -> (arm: Option<Type>)
    requires
        db.wf(),
        db.has_type(ty),
        db.has_type(actual),
    ensures
        arm == match resolved_arm(*db, ty) {
            Some(arm) => if db.ty(actual).inferable_to@.contains(arm) {
                Some(arm)
            } else {
                None
            },
            None => None,
        },
{
    assert(db.type_wf(db.types@[ty.id as int]));
    let arm = match &db.types[ty.id].kind {
        TypeKind::Union { elements } => {
            if elements.len() != 2 {
                return None;
            }
            let left = elements[0];
            let right = elements[1];
            assert(db.has_type(elements@[0]) && db.has_type(elements@[1]));
            if is_type_var(db, left) && is_resolved(db, right, left) {
                right
            } else if is_type_var(db, right) && is_resolved(db, left, right) {
                left
            } else {
                return None;
            }
        },
        _ => {
            return None;
        },
    };
    let list = &db.types[actual.id].inferable_to;
    let mut i: usize = 0;
    while i < list.len()
        invariant
            i <= list@.len(),
            list@ == db.ty(actual).inferable_to@,
            resolved_arm(*db, ty) == Some(arm),
            forall|k: int| 0 <= k < i ==> list@[k] != arm,
        decreases list@.len() - i,
    {
        if list[i] == arm {
            assert(list@[i as int] == arm);
            return Some(arm);
        }
        i += 1;
    }
    None
}

/// Whether a type is a type variable.
fn is_type_var(db: &Db, ty: Type) -> (found: bool)
    requires
        db.has_type(ty),
    ensures
        found == (db.ty(ty).kind is TypeVar),
{
    match &db.types[ty.id].kind {
        TypeKind::TypeVar { .. } => true,
        _ => false,
    }
}

// ---------------------------------------------------------------------------------------------
// Members
// ---------------------------------------------------------------------------------------------

/// A field of a class, from a place in the list on.
pub open spec fn field_from(fields: Seq<Field>, name: Seq<char>, at: int) -> Option<
    (Type, FieldKind),
>
    decreases fields.len() - at,
{
    if at < 0 || at >= fields.len() {
        None
    } else if fields[at].name@ == name {
        Some((fields[at].declared, fields[at].kind))
    } else {
        field_from(fields, name, at + 1)
    }
}

/// Finds a field of a class.
pub fn find_field(fields: &Vec<Field>, name: &str) -> (field: Option<(Type, FieldKind)>)
    ensures
        field == field_from(fields@, name@, 0),
{
    let mut i: usize = 0;
    while i < fields.len()
        invariant
            i <= fields@.len(),
            field_from(fields@, name@, 0) == field_from(fields@, name@, i as int),
        decreases fields@.len() - i,
    {
        if text::same_text(fields[i].name.as_str(), name) {
            return Some((fields[i].declared, fields[i].kind));
        }
        i += 1;
    }
    None
}

/// What an instance of a class of features has under the name of a field: what the field is
/// declared to be.
pub open spec fn instance_field(db: Db, ty: Type, name: Seq<char>) -> Option<Type> {
    match instance_class(db, ty) {
        Some(class) => match field_from(db.class(class).fields@, name, 0) {
            Some((declared, FieldKind::Dataclass { init_only: false, .. })) => Some(declared),
            _ => None,
        },
        None => None,
    }
}

/// What an instance of a class of features has under the name of a field.
pub fn chalk_instance_member(db: &Db, ty: Type, name: &str) -> (member: Option<Type>)
    requires
        db.wf(),
        db.has_type(ty),
    ensures
        member == instance_field(*db, ty, name@),
{
    match find_instance_class(db, ty) {
        Some(class) => match find_field(&db.classes[class.id].fields, name) {
            Some((declared, FieldKind::Dataclass { init_only: false, .. })) => Some(declared),
            _ => None,
        },
        None => None,
    }
}

/// What a class declares a symbol to be, from a place in the list on.
pub open spec fn declaration_from(
    declarations: Seq<Declaration>,
    name: Seq<char>,
    at: int,
) -> Option<Declaration>
    decreases declarations.len() - at,
{
    if at < 0 || at >= declarations.len() {
        None
    } else if declarations[at].name@ == name {
        Some(declarations[at])
    } else {
        declaration_from(declarations, name, at + 1)
    }
}

/// The type of a member of its own, from a place in the list on.
pub open spec fn own_member_from(members: Seq<Member>, name: Seq<char>, at: int) -> Option<Type>
    decreases members.len() - at,
{
    if at < 0 || at >= members.len() {
        None
    } else if members[at].name@ == name {
        Some(members[at].ty)
    } else {
        own_member_from(members, name, at + 1)
    }
}

/// The feature of a name that a type has: what its class declares, or else what its instances
/// have. What is declared in other ways than by an annotation, and variables of the class or of
/// its initialization, are no features. Neither are the features of the rows of a relationship that
/// the class declares: those are members of the rows alone, which `_` stands for in a subscript of
/// the relationship (see [`Scope::row`]).
pub open spec fn feature_member(db: Db, scope: Scope, ty: Type, name: Seq<char>) -> Option<Type> {
    match instance_class(db, ty) {
        None => None,
        Some(class) => match declaration_from(db.class(class).declarations@, name, 0) {
            Some(declaration) => if !declaration.is_annotated || declaration.is_class_var
                || declaration.is_init_var {
                None
            } else {
                match declaration.declared {
                    Some(declared) => Some(value_type(db, scope, declared)),
                    None => own_member_from(db.ty(ty).instance_members@, name, 0),
                }
            },
            None => own_member_from(db.ty(ty).instance_members@, name, 0),
        },
    }
}

/// Finds a member of its own.
fn find_own_member(db: &Db, ty: Type, name: &str) -> (member: Option<Type>)
    requires
        db.wf(),
        db.has_type(ty),
    ensures
        member == own_member_from(db.ty(ty).instance_members@, name@, 0),
        member matches Some(member) ==> db.has_type(member),
{
    let members = &db.types[ty.id].instance_members;
    assert(db.type_wf(db.types@[ty.id as int]));
    let mut i: usize = 0;
    while i < members.len()
        invariant
            i <= members@.len(),
            members@ == db.ty(ty).instance_members@,
            db.type_wf(db.ty(ty)),
            own_member_from(members@, name@, 0) == own_member_from(members@, name@, i as int),
        decreases members@.len() - i,
    {
        if text::same_text(members[i].name.as_str(), name) {
            assert(db.has_type(members@[i as int].ty));
            return Some(members[i].ty);
        }
        i += 1;
    }
    None
}

/// The feature of a name that a type has.
pub fn chalk_feature_member(db: &Db, scope: &Scope, ty: Type, name: &str) -> (member: Option<Type>)
    requires
        db.wf(),
        scope.wf(*db),
        db.has_type(ty),
    ensures
        member == feature_member(*db, *scope, ty, name@),
        member matches Some(member) ==> db.has_type(member),
{
    let class = match find_instance_class(db, ty) {
        Some(class) => class,
        None => {
            return None;
        },
    };
    assert(db.class_wf(db.classes@[class.id as int]));
    let declarations = &db.classes[class.id].declarations;
    let mut i: usize = 0;
    while i < declarations.len()
        invariant
            i <= declarations@.len(),
            declarations@ == db.class(class).declarations@,
            instance_class(*db, ty) == Some(class),
            db.wf(),
            db.has_type(ty),
            db.class_wf(db.class(class)),
            scope.wf(*db),
            declaration_from(declarations@, name@, 0) == declaration_from(
                declarations@,
                name@,
                i as int,
            ),
        decreases declarations@.len() - i,
    {
        let declaration = &declarations[i];
        if text::same_text(declaration.name.as_str(), name) {
            assert(declarations@[i as int].declared matches Some(ty) ==> db.has_type(ty));
            if !declaration.is_annotated || declaration.is_class_var || declaration.is_init_var {
                return None;
            }
            return match declaration.declared {
                Some(declared) => Some(chalk_feature_value_type(db, scope, declared)),
                None => find_own_member(db, ty, name),
            };
        }
        i += 1;
    }
    find_own_member(db, ty, name)
}

} // verus!

//! Semantic facts about types, classes and modules that the compatibility analysis asks for.

use vstd::prelude::*;

use crate::order;
use crate::semantic::{
    Class, ClassBase, Db, File, KnownClass, Module, SearchPath, SubclassOfInner,
    SynthesizedProtocolKind, Type, TypeKind, TypeVarBound,
};
use crate::text;

verus! {

broadcast use vstd::string::group_string_axioms;

/// A bounded structural view of a type.
#[derive(Debug)]
pub enum ChalkTypeShape<'db> {
    Dynamic,
    Unavailable,
    Never,
    Expanded(Type),
    Union(&'db Vec<Type>),
    Intersection(ChalkIntersection<'db>),
    Concrete,
}

/// The components of an intersection, together with its materialized bounds.
#[derive(Debug)]
pub struct ChalkIntersection<'db> {
    pub positive: &'db Vec<Type>,
    pub top_materialization: Type,
    pub bottom_materialization: Type,
}

/// A container category that the registry speaks of.
#[derive(Clone, Copy, Debug, PartialEq, Eq, Structural)]
pub enum ChalkContainerKind {
    List,
    SetOf,
    FrozenSet,
    Dict,
    Tuple,
    Iterable,
    Generator,
    Counter,
}

/// The type arguments of a container.
#[derive(Debug)]
pub enum ChalkContainerType<'db> {
    NotContainer,
    Unavailable,
    Unary(Type),
    Mapping { key: Type, value: Type },
    Tuple(ChalkTupleType<'db>),
}

/// A tuple of fixed or variable length.
#[derive(Debug)]
pub struct ChalkTupleType<'db> {
    pub elements: &'db Vec<Type>,
    pub is_variable: bool,
}

/// The answer to a question about a class's identity or ancestry.
#[derive(Clone, Copy, Debug, PartialEq, Eq, Structural)]
pub enum ChalkClassRelation {
    Match,
    NoMatch,
    Unavailable,
}

/// Where a module comes from.
#[derive(Clone, Copy, Debug, PartialEq, Eq, Hash, Structural)]
pub enum ModuleOrigin {
    StandardLibrary,
    ThirdParty,
    FirstParty,
    Extra,
    Namespace,
    Unresolved,
    Other,
}

// ---------------------------------------------------------------------------------------------
// Origins of modules
// ---------------------------------------------------------------------------------------------

/// The origin of a module by the search path that it was found on.
pub open spec fn origin_of(db: Db, module: Option<Module>) -> ModuleOrigin {
    match module {
        None => ModuleOrigin::Unresolved,
        Some(module) => match db.module(module).search_path {
            None => ModuleOrigin::Namespace,
            Some(SearchPath::StandardLibrary) => ModuleOrigin::StandardLibrary,
            Some(SearchPath::ThirdParty) => ModuleOrigin::ThirdParty,
            Some(SearchPath::FirstParty) => ModuleOrigin::FirstParty,
            Some(SearchPath::Extra) => ModuleOrigin::Extra,
            Some(SearchPath::Other) => ModuleOrigin::Other,
        },
    }
}

/// Whether a module is typing information that ships with the type checker.
pub open spec fn is_vendored(db: Db, module: Module) -> bool {
    db.module(module).file matches Some(file) && db.file(file).is_vendored
}

/// Who owns a module: the run-time module decides where there is one, and otherwise only a stub
/// that ships with the type checker counts.
pub open spec fn owner_of(
    db: Db,
    importing_file: File,
    name: Seq<char>,
    typing_module: Option<Module>,
) -> ModuleOrigin {
    match db.real_module(importing_file, name) {
        Some(module) => origin_of(db, Some(module)),
        None => match typing_module {
            Some(module) => if is_vendored(db, module) {
                origin_of(db, Some(module))
            } else {
                ModuleOrigin::Unresolved
            },
            None => ModuleOrigin::Unresolved,
        },
    }
}

/// Classifies a resolved module by the search path that it was found on.
pub fn module_origin(db: &Db, module: Option<Module>) -> (origin: ModuleOrigin)
    requires
        db.wf(),
        module matches Some(module) ==> db.has_module(module),
    ensures
        origin == origin_of(*db, module),
{
    match module {
        None => ModuleOrigin::Unresolved,
        Some(module) => match db.modules[module.id].search_path {
            None => ModuleOrigin::Namespace,
            Some(SearchPath::StandardLibrary) => ModuleOrigin::StandardLibrary,
            Some(SearchPath::ThirdParty) => ModuleOrigin::ThirdParty,
            Some(SearchPath::FirstParty) => ModuleOrigin::FirstParty,
            Some(SearchPath::Extra) => ModuleOrigin::Extra,
            Some(SearchPath::Other) => ModuleOrigin::Other,
        },
    }
}

/// Classifies who owns a module, going by the run-time module when there is one.
pub fn module_ownership_origin(
    db: &Db,
    importing_file: File,
    module_name: &str,
    typing_module: Option<Module>,
) -> (origin: ModuleOrigin)
    requires
        db.wf(),
        typing_module matches Some(module) ==> db.has_module(module),
    ensures
        origin == owner_of(*db, importing_file, module_name@, typing_module),
{
    match db.resolve_real_module(importing_file, module_name) {
        Some(module) => module_origin(db, Some(module)),
        None => match typing_module {
            Some(module) => {
                let vendored = match db.modules[module.id].file {
                    Some(file) => db.files[file.id].is_vendored,
                    None => false,
                };
                if vendored {
                    module_origin(db, Some(module))
                } else {
                    ModuleOrigin::Unresolved
                }
            },
            None => ModuleOrigin::Unresolved,
        },
    }
}

/// What the origin of a module says of a registry entry that names it: only the standard library
/// and installed packages are registered.
pub open spec fn origin_relation(origin: ModuleOrigin) -> ChalkClassRelation {
    match origin {
        ModuleOrigin::StandardLibrary | ModuleOrigin::ThirdParty => ChalkClassRelation::Match,
        ModuleOrigin::FirstParty | ModuleOrigin::Extra | ModuleOrigin::Other => {
            ChalkClassRelation::NoMatch
        },
        ModuleOrigin::Namespace | ModuleOrigin::Unresolved => ChalkClassRelation::Unavailable,
    }
}

fn registry_origin_relation(origin: ModuleOrigin) -> (relation: ChalkClassRelation)
    ensures
        relation == origin_relation(origin),
{
    match origin {
        ModuleOrigin::StandardLibrary | ModuleOrigin::ThirdParty => ChalkClassRelation::Match,
        ModuleOrigin::FirstParty | ModuleOrigin::Extra | ModuleOrigin::Other => {
            ChalkClassRelation::NoMatch
        },
        ModuleOrigin::Namespace | ModuleOrigin::Unresolved => ChalkClassRelation::Unavailable,
    }
}

// ---------------------------------------------------------------------------------------------
// Identity and ancestry of classes
// ---------------------------------------------------------------------------------------------

/// What the module that defines a class says of a registry entry.
pub open spec fn class_origin_relation(db: Db, class: Class) -> ChalkClassRelation {
    let file = db.class(class).file;
    match db.file(file).module {
        None => ChalkClassRelation::Unavailable,
        Some(module) => origin_relation(
            owner_of(db, file, db.module(module).name@, Some(module)),
        ),
    }
}

/// The scopes that enclose a class, joined by dots.
pub open spec fn enclosing_path(db: Db, class: Class) -> Seq<char> {
    text::joined(order::keys(db.class(class).enclosing@), "."@)
}

/// Whether a class is the one that a registry entry names by module and name.
pub open spec fn class_identity(
    db: Db,
    class: Class,
    module: Seq<char>,
    name: Seq<char>,
) -> ChalkClassRelation {
    if db.class(class).name@ != name {
        ChalkClassRelation::NoMatch
    } else if class_origin_relation(db, class) != ChalkClassRelation::Match {
        class_origin_relation(db, class)
    } else if db.class(class).enclosing@.len() > 0 && enclosing_path(db, class) == module {
        ChalkClassRelation::Match
    } else {
        ChalkClassRelation::NoMatch
    }
}

/// Whether a text holds a dot.
pub open spec fn has_dot(name: Seq<char>) -> bool {
    name.contains('.')
}

/// Whether a dotted path names a class, one component for each enclosing scope and one for itself.
pub open spec fn names_class(db: Db, class: Class, path: Seq<char>) -> bool {
    let components = order::keys(db.class(class).enclosing@).push(db.class(class).name@);
    &&& forall|i: int| 0 <= i < components.len() ==> !has_dot(#[trigger] components[i])
    &&& text::joined(components, "."@) == path
}

/// Whether a class is the one that a registry entry names by a dotted path.
pub open spec fn class_path_relation(
    db: Db,
    class: Class,
    path: Seq<char>,
) -> ChalkClassRelation {
    if class_origin_relation(db, class) != ChalkClassRelation::Match {
        class_origin_relation(db, class)
    } else if names_class(db, class, path) {
        ChalkClassRelation::Match
    } else {
        ChalkClassRelation::NoMatch
    }
}

/// Whether nothing is known of what a base contributes.
pub open spec fn is_unavailable_base(base: ClassBase) -> bool {
    base is Any || base is Dynamic || base is Divergent
}

/// The answer over a method resolution order: one matching class suffices; otherwise anything
/// unknown leaves the question open.
pub open spec fn over_bases(
    mro: Seq<ClassBase>,
    relation: spec_fn(Class) -> ChalkClassRelation,
) -> ChalkClassRelation {
    if exists|i: int|
        0 <= i < mro.len() && ((#[trigger] mro[i]) matches ClassBase::Class(class) && relation(
            class,
        ) == ChalkClassRelation::Match) {
        ChalkClassRelation::Match
    } else if exists|i: int|
        0 <= i < mro.len() && (is_unavailable_base(#[trigger] mro[i]) || (
        mro[i] matches ClassBase::Class(class) && relation(class)
            == ChalkClassRelation::Unavailable)) {
        ChalkClassRelation::Unavailable
    } else {
        ChalkClassRelation::NoMatch
    }
}

/// Whether a class derives from one that a registry entry names by module and name.
pub open spec fn derives_from(
    db: Db,
    class: Class,
    module: Seq<char>,
    name: Seq<char>,
) -> ChalkClassRelation {
    over_bases(db.class(class).mro@, |base: Class| class_identity(db, base, module, name))
}

/// Whether a class derives from one that a registry entry names by a dotted path.
pub open spec fn derives_from_path(db: Db, class: Class, path: Seq<char>) -> ChalkClassRelation {
    over_bases(db.class(class).mro@, |base: Class| class_path_relation(db, base, path))
}

fn definition_relation(db: &Db, class: Class) -> (relation: ChalkClassRelation)
    requires
        db.wf(),
        db.has_class(class),
    ensures
        relation == class_origin_relation(*db, class),
{
    assert(db.class_wf(db.classes@[class.id as int]));
    let file = db.classes[class.id].file;
    match db.files[file.id].module {
        None => ChalkClassRelation::Unavailable,
        Some(module) => {
            let name = &db.modules[module.id].name;
            registry_origin_relation(
                module_ownership_origin(db, file, name.as_str(), Some(module)),
            )
        },
    }
}

fn class_identity_relation(db: &Db, class: Class, module: &str, name: &str) -> (relation:
    ChalkClassRelation)
    requires
        db.wf(),
        db.has_class(class),
    ensures
        relation == class_identity(*db, class, module@, name@),
{
    let data = &db.classes[class.id];
    if !text::same_text(data.name.as_str(), name) {
        return ChalkClassRelation::NoMatch;
    }
    let origin = definition_relation(db, class);
    if origin != ChalkClassRelation::Match {
        return origin;
    }
    let path = order::join_texts(&data.enclosing, ".");
    if data.enclosing.len() > 0 && text::same_text(path.as_str(), module) {
        ChalkClassRelation::Match
    } else {
        ChalkClassRelation::NoMatch
    }
}

/// Whether a text holds a dot.
fn contains_dot(name: &str) -> (found: bool)
    ensures
        found == has_dot(name@),
{
    let mut chars = name.chars();
    let ghost mut at: int = 0;
    proof {
        assert(name@.skip(0) =~= name@);
    }
    loop
        invariant
            0 <= at <= name@.len(),
            vstd::std_specs::iter::IteratorSpec::remaining(&chars) == name@.skip(at),
            forall|j: int| 0 <= j < at ==> #[trigger] name@[j] != '.',
        decreases name@.len() - at,
    {
        match chars.next() {
            None => {
                return false;
            },
            Some(next) => {
                assert(next == name@[at]);
                if next == '.' {
                    return true;
                }
                proof {
                    assert(name@.skip(at).drop_first() =~= name@.skip(at + 1));
                    at = at + 1;
                }
            },
        }
    }
}

fn registry_class_relation(db: &Db, class: Class, path: &str) -> (relation: ChalkClassRelation)
    requires
        db.wf(),
        db.has_class(class),
    ensures
        relation == class_path_relation(*db, class, path@),
{
    let origin = definition_relation(db, class);
    if origin != ChalkClassRelation::Match {
        return origin;
    }
    let data = &db.classes[class.id];
    let ghost enclosing = order::keys(data.enclosing@);
    let ghost components = enclosing.push(data.name@);
    let mut i: usize = 0;
    while i < data.enclosing.len()
        invariant
            i <= data.enclosing.len(),
            db.wf(),
            db.has_class(class),
            *data == db.class(class),
            class_origin_relation(*db, class) == ChalkClassRelation::Match,
            enclosing == order::keys(data.enclosing@),
            components == enclosing.push(data.name@),
            forall|j: int| 0 <= j < i ==> !has_dot(#[trigger] components[j]),
        decreases data.enclosing.len() - i,
    {
        if contains_dot(data.enclosing[i].as_str()) {
            assert(has_dot(components[i as int]));
            return ChalkClassRelation::NoMatch;
        }
        assert(components[i as int] == data.enclosing@[i as int]@);
        i = i + 1;
    }
    if contains_dot(data.name.as_str()) {
        assert(has_dot(components[enclosing.len() as int]));
        return ChalkClassRelation::NoMatch;
    }
    let mut joined = order::join_texts(&data.enclosing, ".");
    if data.enclosing.len() > 0 {
        text::push_text(&mut joined, ".");
    }
    text::push_text(&mut joined, data.name.as_str());
    proof {
        assert(components.drop_last() =~= enclosing);
        if enclosing.len() == 0 {
            assert(joined@ =~= data.name@);
        }
        assert(joined@ == text::joined(components, "."@));
        assert(components[enclosing.len() as int] == data.name@);
    }
    if text::same_text(joined.as_str(), path) {
        ChalkClassRelation::Match
    } else {
        ChalkClassRelation::NoMatch
    }
}

fn is_unavailable(base: ClassBase) -> (unavailable: bool)
    ensures
        unavailable == is_unavailable_base(base),
{
    match base {
        ClassBase::Any | ClassBase::Dynamic | ClassBase::Divergent => true,
        _ => false,
    }
}

fn class_derived_from(db: &Db, class: Class, module: &str, name: &str) -> (relation:
    ChalkClassRelation)
    requires
        db.wf(),
        db.has_class(class),
    ensures
        relation == derives_from(*db, class, module@, name@),
{
    let mro = &db.classes[class.id].mro;
    let ghost ask = |base: Class| class_identity(*db, base, module@, name@);
    assert(db.class_wf(db.classes@[class.id as int]));
    let mut unavailable = false;
    let mut i: usize = 0;
    while i < mro.len()
        invariant
            i <= mro.len(),
            db.wf(),
            db.has_class(class),
            db.class_wf(db.class(class)),
            mro@ == db.class(class).mro@,
            ask == (|base: Class| class_identity(*db, base, module@, name@)),
            forall|j: int|
                0 <= j < i ==> ((#[trigger] mro@[j]) matches ClassBase::Class(base) ==> ask(base)
                    != ChalkClassRelation::Match),
            unavailable == exists|j: int|
                0 <= j < i && (is_unavailable_base(#[trigger] mro@[j]) || (
                mro@[j] matches ClassBase::Class(base) && ask(base)
                    == ChalkClassRelation::Unavailable)),
        decreases mro.len() - i,
    {
        let base = mro[i];
        match base {
            ClassBase::Class(base) => {
                match class_identity_relation(db, base, module, name) {
                    ChalkClassRelation::Match => {
                        assert(mro@[i as int] matches ClassBase::Class(base) && ask(base)
                            == ChalkClassRelation::Match);
                        return ChalkClassRelation::Match;
                    },
                    ChalkClassRelation::Unavailable => {
                        assert(mro@[i as int] matches ClassBase::Class(base) && ask(base)
                            == ChalkClassRelation::Unavailable);
                        unavailable = true;
                    },
                    ChalkClassRelation::NoMatch => {},
                }
            },
            _ => {
                if is_unavailable(base) {
                    assert(is_unavailable_base(mro@[i as int]));
                    unavailable = true;
                }
            },
        }
        i = i + 1;
    }
    if unavailable {
        ChalkClassRelation::Unavailable
    } else {
        ChalkClassRelation::NoMatch
    }
}

fn registry_class_derived_from(db: &Db, class: Class, path: &str) -> (relation: ChalkClassRelation)
    requires
        db.wf(),
        db.has_class(class),
    ensures
        relation == derives_from_path(*db, class, path@),
{
    let mro = &db.classes[class.id].mro;
    let ghost ask = |base: Class| class_path_relation(*db, base, path@);
    assert(db.class_wf(db.classes@[class.id as int]));
    let mut unavailable = false;
    let mut i: usize = 0;
    while i < mro.len()
        invariant
            i <= mro.len(),
            db.wf(),
            db.has_class(class),
            db.class_wf(db.class(class)),
            mro@ == db.class(class).mro@,
            ask == (|base: Class| class_path_relation(*db, base, path@)),
            forall|j: int|
                0 <= j < i ==> ((#[trigger] mro@[j]) matches ClassBase::Class(base) ==> ask(base)
                    != ChalkClassRelation::Match),
            unavailable == exists|j: int|
                0 <= j < i && (is_unavailable_base(#[trigger] mro@[j]) || (
                mro@[j] matches ClassBase::Class(base) && ask(base)
                    == ChalkClassRelation::Unavailable)),
        decreases mro.len() - i,
    {
        let base = mro[i];
        match base {
            ClassBase::Class(base) => {
                match registry_class_relation(db, base, path) {
                    ChalkClassRelation::Match => {
                        assert(mro@[i as int] matches ClassBase::Class(base) && ask(base)
                            == ChalkClassRelation::Match);
                        return ChalkClassRelation::Match;
                    },
                    ChalkClassRelation::Unavailable => {
                        assert(mro@[i as int] matches ClassBase::Class(base) && ask(base)
                            == ChalkClassRelation::Unavailable);
                        unavailable = true;
                    },
                    ChalkClassRelation::NoMatch => {},
                }
            },
            _ => {
                if is_unavailable(base) {
                    assert(is_unavailable_base(mro@[i as int]));
                    unavailable = true;
                }
            },
        }
        i = i + 1;
    }
    if unavailable {
        ChalkClassRelation::Unavailable
    } else {
        ChalkClassRelation::NoMatch
    }
}

// ---------------------------------------------------------------------------------------------
// Shapes of types
// ---------------------------------------------------------------------------------------------

/// The structural view of a type.
pub open spec fn shape_of<'db>(db: &'db Db, ty: Type) -> ChalkTypeShape<'db> {
    match &db.ty(ty).kind {
        TypeKind::Dynamic => ChalkTypeShape::Dynamic,
        TypeKind::Divergent { fallback } => match fallback {
            Some(ty) => ChalkTypeShape::Expanded(*ty),
            None => ChalkTypeShape::Unavailable,
        },
        TypeKind::Never => ChalkTypeShape::Never,
        TypeKind::TypeAlias { value } => ChalkTypeShape::Expanded(*value),
        TypeKind::NewTypeInstance { base } => ChalkTypeShape::Expanded(*base),
        TypeKind::TypeVar { bound } => match bound {
            TypeVarBound::Constraints(ty) => ChalkTypeShape::Expanded(*ty),
            _ => ChalkTypeShape::Unavailable,
        },
        TypeKind::EnumComplement { remaining } => ChalkTypeShape::Expanded(*remaining),
        TypeKind::Union { elements } => ChalkTypeShape::Union(elements),
        TypeKind::Intersection { positive, top, bottom } => ChalkTypeShape::Intersection(
            ChalkIntersection {
                positive,
                top_materialization: *top,
                bottom_materialization: *bottom,
            },
        ),
        TypeKind::AlwaysTruthy | TypeKind::AlwaysFalsy => ChalkTypeShape::Unavailable,
        _ => ChalkTypeShape::Concrete,
    }
}

/// The structural view of a type.
pub fn chalk_type_shape<'db>(db: &'db Db, ty: Type) -> (shape: ChalkTypeShape<'db>)
    requires
        db.wf(),
        db.has_type(ty),
    ensures
        shape == shape_of(db, ty),
        match shape {
            ChalkTypeShape::Expanded(ty) => db.has_type(ty),
            ChalkTypeShape::Union(elements) => db.has_types(elements@),
            ChalkTypeShape::Intersection(intersection) => db.has_types(intersection.positive@)
                && db.has_type(intersection.top_materialization) && db.has_type(
                intersection.bottom_materialization,
            ),
            _ => true,
        },
{
    assert(db.type_wf(db.types@[ty.id as int]));
    match &db.types[ty.id].kind {
        TypeKind::Dynamic => ChalkTypeShape::Dynamic,
        TypeKind::Divergent { fallback } => match fallback {
            Some(ty) => ChalkTypeShape::Expanded(*ty),
            None => ChalkTypeShape::Unavailable,
        },
        TypeKind::Never => ChalkTypeShape::Never,
        TypeKind::TypeAlias { value } => ChalkTypeShape::Expanded(*value),
        TypeKind::NewTypeInstance { base } => ChalkTypeShape::Expanded(*base),
        TypeKind::TypeVar { bound } => match bound {
            // An upper bound does not mean that the variable is exactly the bound.
            TypeVarBound::Unbound | TypeVarBound::UpperBound => ChalkTypeShape::Unavailable,
            TypeVarBound::Constraints(ty) => ChalkTypeShape::Expanded(*ty),
        },
        TypeKind::EnumComplement { remaining } => ChalkTypeShape::Expanded(*remaining),
        TypeKind::Union { elements } => ChalkTypeShape::Union(elements),
        TypeKind::Intersection { positive, top, bottom } => ChalkTypeShape::Intersection(
            ChalkIntersection {
                positive,
                top_materialization: *top,
                bottom_materialization: *bottom,
            },
        ),
        TypeKind::AlwaysTruthy | TypeKind::AlwaysFalsy => ChalkTypeShape::Unavailable,
        _ => ChalkTypeShape::Concrete,
    }
}

/// Whether a class can be the named container.
pub open spec fn is_container_class(known: KnownClass, kind: ChalkContainerKind) -> bool {
    match kind {
        ChalkContainerKind::List => known == KnownClass::List,
        ChalkContainerKind::SetOf => known == KnownClass::SetClass,
        ChalkContainerKind::FrozenSet => known == KnownClass::FrozenSet,
        ChalkContainerKind::Dict => known == KnownClass::Dict,
        ChalkContainerKind::Generator => known == KnownClass::GeneratorType || known
            == KnownClass::Generator,
        ChalkContainerKind::Counter => known == KnownClass::Counter,
        ChalkContainerKind::Tuple | ChalkContainerKind::Iterable => false,
    }
}

/// Whether a base is the named container.
pub open spec fn is_container_base(db: Db, base: ClassBase, kind: ChalkContainerKind) -> bool {
    base matches ClassBase::Class(class) && (db.class(class).known matches Some(known)
        && is_container_class(known, kind))
}

/// The first base of a method resolution order, from a place on, that is the named container.
pub open spec fn container_base_from(
    db: Db,
    mro: Seq<ClassBase>,
    kind: ChalkContainerKind,
    at: int,
) -> Option<Class>
    decreases mro.len() - at,
{
    if at < 0 || at >= mro.len() {
        None
    } else if is_container_base(db, mro[at], kind) {
        Some(mro[at]->Class_0)
    } else {
        container_base_from(db, mro, kind, at + 1)
    }
}

/// The container class that a type's class derives from.
pub open spec fn container_base(db: Db, ty: Type, kind: ChalkContainerKind) -> Option<Class> {
    match db.ty(ty).nominal_class {
        Some(class) => container_base_from(db, db.class(class).mro@, kind, 0),
        None => None,
    }
}

/// Whether a type's class has a base of which nothing is known.
pub open spec fn has_unavailable_base(db: Db, ty: Type) -> bool {
    db.ty(ty).nominal_class matches Some(class) && exists|i: int|
        0 <= i < db.class(class).mro@.len() && is_unavailable_base(
            #[trigger] db.class(class).mro@[i],
        )
}

/// A type that is not the container: the question is open where a base is unknown.
pub open spec fn no_container<'db>(db: &'db Db, ty: Type) -> ChalkContainerType<'db> {
    if has_unavailable_base(*db, ty) {
        ChalkContainerType::Unavailable
    } else {
        ChalkContainerType::NotContainer
    }
}

/// The type arguments of a container type.
pub open spec fn container_of<'db>(
    db: &'db Db,
    ty: Type,
    kind: ChalkContainerKind,
) -> ChalkContainerType<'db> {
    let data = db.ty(ty);
    if data.kind is Dynamic || data.kind is Divergent {
        ChalkContainerType::Unavailable
    } else if kind == ChalkContainerKind::Tuple {
        match &data.tuple {
            Some(spec) => ChalkContainerType::Tuple(
                ChalkTupleType { elements: &spec.elements, is_variable: spec.is_variadic },
            ),
            None => no_container(db, ty),
        }
    } else if kind == ChalkContainerKind::Iterable {
        match data.iterates {
            Some(item) => ChalkContainerType::Unary(item),
            None => no_container(db, ty),
        }
    } else {
        match container_base(*db, ty, kind) {
            None => no_container(db, ty),
            Some(base) => {
                let arguments = db.class(base).arguments@;
                if kind == ChalkContainerKind::Dict {
                    if arguments.len() < 2 {
                        ChalkContainerType::Mapping { key: db.unknown, value: db.unknown }
                    } else {
                        ChalkContainerType::Mapping { key: arguments[0], value: arguments[1] }
                    }
                } else if arguments.len() == 0 {
                    ChalkContainerType::Unary(db.unknown)
                } else {
                    ChalkContainerType::Unary(arguments[0])
                }
            },
        }
    }
}

fn accepts_known(known: KnownClass, kind: ChalkContainerKind) -> (accepts: bool)
    ensures
        accepts == is_container_class(known, kind),
{
    match kind {
        ChalkContainerKind::List => known == KnownClass::List,
        ChalkContainerKind::SetOf => known == KnownClass::SetClass,
        ChalkContainerKind::FrozenSet => known == KnownClass::FrozenSet,
        ChalkContainerKind::Dict => known == KnownClass::Dict,
        ChalkContainerKind::Generator => known == KnownClass::GeneratorType || known
            == KnownClass::Generator,
        ChalkContainerKind::Counter => known == KnownClass::Counter,
        ChalkContainerKind::Tuple | ChalkContainerKind::Iterable => false,
    }
}

fn chalk_known_base(db: &Db, ty: Type, kind: ChalkContainerKind) -> (base: Option<Class>)
    requires
        db.wf(),
        db.has_type(ty),
    ensures
        base == container_base(*db, ty, kind),
        base matches Some(base) ==> db.has_class(base),
{
    assert(db.type_wf(db.types@[ty.id as int]));
    match db.types[ty.id].nominal_class {
        None => None,
        Some(class) => {
            assert(db.class_wf(db.classes@[class.id as int]));
            let mro = &db.classes[class.id].mro;
            let mut i: usize = 0;
            while i < mro.len()
                invariant
                    i <= mro.len(),
                    db.wf(),
                    db.has_class(class),
                    db.class_wf(db.class(class)),
                    mro@ == db.class(class).mro@,
                    container_base_from(*db, mro@, kind, 0) == container_base_from(
                        *db,
                        mro@,
                        kind,
                        i as int,
                    ),
                    db.has_type(ty),
                    db.ty(ty).nominal_class == Some(class),
                decreases mro.len() - i,
            {
                match mro[i] {
                    ClassBase::Class(base) => {
                        assert(mro@[i as int] == ClassBase::Class(base));
                        match db.classes[base.id].known {
                            Some(known) => {
                                if accepts_known(known, kind) {
                                    return Some(base);
                                }
                            },
                            None => {},
                        }
                    },
                    _ => {},
                }
                i = i + 1;
            }
            None
        },
    }
}

fn chalk_class_has_unavailable_base(db: &Db, ty: Type) -> (found: bool)
    requires
        db.wf(),
        db.has_type(ty),
    ensures
        found == has_unavailable_base(*db, ty),
{
    assert(db.type_wf(db.types@[ty.id as int]));
    match db.types[ty.id].nominal_class {
        None => false,
        Some(class) => {
            let mro = &db.classes[class.id].mro;
            let mut i: usize = 0;
            while i < mro.len()
                invariant
                    i <= mro.len(),
                    db.has_class(class),
                    mro@ == db.class(class).mro@,
                    db.has_type(ty),
                    db.ty(ty).nominal_class == Some(class),
                    forall|j: int| 0 <= j < i ==> !is_unavailable_base(#[trigger] mro@[j]),
                decreases mro.len() - i,
            {
                if is_unavailable(mro[i]) {
                    assert(is_unavailable_base(db.class(class).mro@[i as int]));
                    return true;
                }
                i = i + 1;
            }
            false
        },
    }
}

fn not_container<'db>(db: &'db Db, ty: Type) -> (container: ChalkContainerType<'db>)
    requires
        db.wf(),
        db.has_type(ty),
    ensures
        container == no_container(db, ty),
{
    if chalk_class_has_unavailable_base(db, ty) {
        ChalkContainerType::Unavailable
    } else {
        ChalkContainerType::NotContainer
    }
}

/// The type arguments of a type that belongs to a container category.
pub fn chalk_container_type<'db>(db: &'db Db, ty: Type, kind: ChalkContainerKind) -> (container:
    ChalkContainerType<'db>)
    requires
        db.wf(),
        db.has_type(ty),
    ensures
        container == container_of(db, ty, kind),
        match container {
            ChalkContainerType::Unary(item) => db.has_type(item),
            ChalkContainerType::Mapping { key, value } => db.has_type(key) && db.has_type(value),
            ChalkContainerType::Tuple(tuple) => db.has_types(tuple.elements@),
            _ => true,
        },
{
    assert(db.type_wf(db.types@[ty.id as int]));
    let data = &db.types[ty.id];
    match &data.kind {
        TypeKind::Dynamic | TypeKind::Divergent { .. } => {
            return ChalkContainerType::Unavailable;
        },
        _ => {},
    }
    if kind == ChalkContainerKind::Tuple {
        return match &data.tuple {
            Some(spec) => ChalkContainerType::Tuple(
                ChalkTupleType { elements: &spec.elements, is_variable: spec.is_variadic },
            ),
            None => not_container(db, ty),
        };
    }
    if kind == ChalkContainerKind::Iterable {
        return match data.iterates {
            Some(item) => ChalkContainerType::Unary(item),
            None => not_container(db, ty),
        };
    }
    match chalk_known_base(db, ty, kind) {
        None => not_container(db, ty),
        Some(base) => {
            assert(db.class_wf(db.classes@[base.id as int]));
            let arguments = &db.classes[base.id].arguments;
            if kind == ChalkContainerKind::Dict {
                if arguments.len() < 2 {
                    ChalkContainerType::Mapping { key: db.unknown, value: db.unknown }
                } else {
                    ChalkContainerType::Mapping { key: arguments[0], value: arguments[1] }
                }
            } else if arguments.len() == 0 {
                ChalkContainerType::Unary(db.unknown)
            } else {
                ChalkContainerType::Unary(arguments[0])
            }
        },
    }
}

// ---------------------------------------------------------------------------------------------
// Relations of types to registered classes and modules
// ---------------------------------------------------------------------------------------------

/// Whether a type is an instance of exactly the named class.
pub open spec fn exact_instance(
    db: Db,
    ty: Type,
    module: Seq<char>,
    name: Seq<char>,
) -> ChalkClassRelation {
    match db.ty(ty).nominal_class {
        Some(class) => class_identity(db, class, module, name),
        None => ChalkClassRelation::NoMatch,
    }
}

/// Whether a type is exactly the named class object.
pub open spec fn exact_class_object(
    db: Db,
    ty: Type,
    module: Seq<char>,
    name: Seq<char>,
) -> ChalkClassRelation {
    match db.ty(ty).kind {
        TypeKind::ClassLiteral { class } => class_identity(db, class, module, name),
        TypeKind::GenericAlias { class } => class_identity(db, class, module, name),
        _ => ChalkClassRelation::NoMatch,
    }
}

/// The class that a type is about, as an instance or as a class object.
pub open spec fn class_of(db: Db, ty: Type) -> Result<Option<Class>, ()> {
    match db.ty(ty).kind {
        TypeKind::ClassLiteral { class } => Ok(Some(class)),
        TypeKind::GenericAlias { class } => Ok(Some(class)),
        TypeKind::SubclassOf { inner } => match inner {
            SubclassOfInner::Class(class) => Ok(Some(class)),
            _ => Err(()),
        },
        TypeKind::TypedDict { defining_class } => Ok(defining_class),
        _ => Ok(db.ty(ty).nominal_class),
    }
}

/// Whether the class that a type is about derives from the named class.
pub open spec fn class_derivation(
    db: Db,
    ty: Type,
    module: Seq<char>,
    name: Seq<char>,
) -> ChalkClassRelation {
    match class_of(db, ty) {
        Ok(Some(class)) => derives_from(db, class, module, name),
        Ok(None) => ChalkClassRelation::NoMatch,
        Err(_) => ChalkClassRelation::Unavailable,
    }
}

/// Whether a type is an instance of a class that derives from the named class.
pub open spec fn instance_derivation(
    db: Db,
    ty: Type,
    module: Seq<char>,
    name: Seq<char>,
) -> ChalkClassRelation {
    match db.ty(ty).nominal_class {
        Some(class) => derives_from(db, class, module, name),
        None => ChalkClassRelation::NoMatch,
    }
}

/// Whether a type is the named module.
pub open spec fn is_module(db: Db, ty: Type, name: Seq<char>) -> bool {
    db.ty(ty).kind matches TypeKind::ModuleLiteral { module } && db.module(module).name@ == name
}

/// Whether a type has enumeration semantics.
pub open spec fn enumeration(db: Db, ty: Type) -> ChalkClassRelation {
    if db.ty(ty).is_enum {
        ChalkClassRelation::Match
    } else {
        class_derivation(db, ty, "enum"@, "Enum"@)
    }
}

/// Whether a type has fields that can stand for a structure.
pub open spec fn is_logical_struct(db: Db, ty: Type) -> bool {
    match db.ty(ty).kind {
        TypeKind::TypedDict { .. } => true,
        TypeKind::ProtocolInstance { synthesized, .. } => synthesized == Some(
            SynthesizedProtocolKind::ChalkFeatures,
        ),
        _ => false,
    }
}

/// Whether a module is the one that a registry entry names.
pub open spec fn module_relation(db: Db, module: Module, expected: Seq<char>) -> ChalkClassRelation {
    let data = db.module(module);
    if data.name@ != expected {
        ChalkClassRelation::NoMatch
    } else {
        match data.file {
            None => ChalkClassRelation::Unavailable,
            Some(file) => origin_relation(owner_of(db, file, data.name@, Some(module))),
        }
    }
}

/// Whether a receiver is the module, or derives from the class, that a registry entry names.
pub open spec fn receiver_relation(db: Db, ty: Type, expected: Seq<char>) -> ChalkClassRelation {
    match db.ty(ty).kind {
        TypeKind::Dynamic => ChalkClassRelation::Unavailable,
        TypeKind::Divergent { .. } => ChalkClassRelation::Unavailable,
        TypeKind::ModuleLiteral { module } => module_relation(db, module, expected),
        _ => match class_of(db, ty) {
            Ok(Some(class)) => derives_from_path(db, class, expected),
            Ok(None) => ChalkClassRelation::NoMatch,
            Err(_) => ChalkClassRelation::Unavailable,
        },
    }
}

/// Tests whether a type is an instance of exactly the named class.
pub fn chalk_exact_instance_class(db: &Db, ty: Type, module: &str, name: &str) -> (relation:
    ChalkClassRelation)
    requires
        db.wf(),
        db.has_type(ty),
    ensures
        relation == exact_instance(*db, ty, module@, name@),
{
    assert(db.type_wf(db.types@[ty.id as int]));
    match db.types[ty.id].nominal_class {
        Some(class) => class_identity_relation(db, class, module, name),
        None => ChalkClassRelation::NoMatch,
    }
}

/// Tests whether a type is exactly the named class object.
pub fn chalk_exact_class_object(db: &Db, ty: Type, module: &str, name: &str) -> (relation:
    ChalkClassRelation)
    requires
        db.wf(),
        db.has_type(ty),
    ensures
        relation == exact_class_object(*db, ty, module@, name@),
{
    assert(db.type_wf(db.types@[ty.id as int]));
    match &db.types[ty.id].kind {
        TypeKind::ClassLiteral { class } => class_identity_relation(db, *class, module, name),
        TypeKind::GenericAlias { class } => class_identity_relation(db, *class, module, name),
        _ => ChalkClassRelation::NoMatch,
    }
}

/// The class that a type is about, as an instance or as a class object.
pub fn chalk_class_type(db: &Db, ty: Type) -> (class: Result<Option<Class>, ()>)
    requires
        db.wf(),
        db.has_type(ty),
    ensures
        class == class_of(*db, ty),
        class matches Ok(Some(class)) ==> db.has_class(class),
{
    assert(db.type_wf(db.types@[ty.id as int]));
    match &db.types[ty.id].kind {
        TypeKind::ClassLiteral { class } => Ok(Some(*class)),
        TypeKind::GenericAlias { class } => Ok(Some(*class)),
        TypeKind::SubclassOf { inner } => match inner {
            SubclassOfInner::Class(class) => Ok(Some(*class)),
            SubclassOfInner::Dynamic | SubclassOfInner::TypeVar => Err(()),
        },
        TypeKind::TypedDict { defining_class } => Ok(*defining_class),
        _ => Ok(db.types[ty.id].nominal_class),
    }
}

/// Tests whether an instance or class object derives from the named class.
pub fn chalk_class_derived_from(db: &Db, ty: Type, module: &str, name: &str) -> (relation:
    ChalkClassRelation)
    requires
        db.wf(),
        db.has_type(ty),
    ensures
        relation == class_derivation(*db, ty, module@, name@),
{
    match chalk_class_type(db, ty) {
        Ok(Some(class)) => class_derived_from(db, class, module, name),
        Ok(None) => ChalkClassRelation::NoMatch,
        Err(_) => ChalkClassRelation::Unavailable,
    }
}

/// Tests whether an instance derives from the named class.
pub fn chalk_instance_derived_from(db: &Db, ty: Type, module: &str, name: &str) -> (relation:
    ChalkClassRelation)
    requires
        db.wf(),
        db.has_type(ty),
    ensures
        relation == instance_derivation(*db, ty, module@, name@),
{
    assert(db.type_wf(db.types@[ty.id as int]));
    match db.types[ty.id].nominal_class {
        Some(class) => class_derived_from(db, class, module, name),
        None => ChalkClassRelation::NoMatch,
    }
}

/// Tests whether a type is the named module.
pub fn chalk_module_is(db: &Db, ty: Type, expected: &str) -> (same: bool)
    requires
        db.wf(),
        db.has_type(ty),
    ensures
        same == is_module(*db, ty, expected@),
{
    assert(db.type_wf(db.types@[ty.id as int]));
    match &db.types[ty.id].kind {
        TypeKind::ModuleLiteral { module } => {
            text::same_text(db.modules[module.id].name.as_str(), expected)
        },
        _ => false,
    }
}

/// Tests whether a type has enumeration semantics, as an instance or as a class object.
pub fn chalk_is_enum(db: &Db, ty: Type) -> (relation: ChalkClassRelation)
    requires
        db.wf(),
        db.has_type(ty),
    ensures
        relation == enumeration(*db, ty),
{
    if db.types[ty.id].is_enum {
        ChalkClassRelation::Match
    } else {
        chalk_class_derived_from(db, ty, "enum", "Enum")
    }
}

/// Tests whether a type has fields that can stand for a structure.
pub fn chalk_is_logical_struct(db: &Db, ty: Type) -> (logical: bool)
    requires
        db.has_type(ty),
    ensures
        logical == is_logical_struct(*db, ty),
{
    match &db.types[ty.id].kind {
        TypeKind::TypedDict { .. } => true,
        TypeKind::ProtocolInstance { synthesized, .. } => match synthesized {
            Some(kind) => *kind == SynthesizedProtocolKind::ChalkFeatures,
            None => false,
        },
        _ => false,
    }
}

fn registry_module_relation(db: &Db, module: Module, expected: &str) -> (relation:
    ChalkClassRelation)
    requires
        db.wf(),
        db.has_module(module),
    ensures
        relation == module_relation(*db, module, expected@),
{
    let data = &db.modules[module.id];
    if !text::same_text(data.name.as_str(), expected) {
        return ChalkClassRelation::NoMatch;
    }
    match data.file {
        None => ChalkClassRelation::Unavailable,
        Some(file) => registry_origin_relation(
            module_ownership_origin(db, file, data.name.as_str(), Some(module)),
        ),
    }
}

/// Relates a module, class or instance receiver to the owner that a registry entry names.
pub fn chalk_receiver_module_relation(db: &Db, ty: Type, expected: &str) -> (relation:
    ChalkClassRelation)
    requires
        db.wf(),
        db.has_type(ty),
    ensures
        relation == receiver_relation(*db, ty, expected@),
{
    assert(db.type_wf(db.types@[ty.id as int]));
    match &db.types[ty.id].kind {
        TypeKind::Dynamic | TypeKind::Divergent { .. } => ChalkClassRelation::Unavailable,
        TypeKind::ModuleLiteral { module } => registry_module_relation(db, *module, expected),
        _ => match chalk_class_type(db, ty) {
            Ok(Some(class)) => registry_class_derived_from(db, class, expected),
            Ok(None) => ChalkClassRelation::NoMatch,
            Err(_) => ChalkClassRelation::Unavailable,
        },
    }
}

/// The module that defines a receiver's class, where the class is written in source.
pub open spec fn receiver_module(db: Db, ty: Type) -> Option<Module> {
    match class_of(db, ty) {
        Ok(Some(class)) => if db.class(class).is_static {
            db.file(db.class(class).file).module
        } else {
            None
        },
        _ => None,
    }
}

/// The module that defines a receiver's class.
pub fn chalk_receiver_module(db: &Db, ty: Type) -> (module: Option<Module>)
    requires
        db.wf(),
        db.has_type(ty),
    ensures
        module == receiver_module(*db, ty),
        module matches Some(module) ==> db.has_module(module),
{
    match chalk_class_type(db, ty) {
        Ok(Some(class)) => {
            assert(db.class_wf(db.classes@[class.id as int]));
            let data = &db.classes[class.id];
            if data.is_static {
                db.files[data.file.id].module
            } else {
                None
            }
        },
        _ => None,
    }
}

} // verus!

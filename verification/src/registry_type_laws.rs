//! What each registry type takes, told by the classes behind a type.

use vstd::prelude::*;

use crate::chalk;
use crate::chalk::{ChalkClassRelation, ChalkContainerKind};
use crate::order;
use crate::semantic::{
    Class, ClassBase, Db, KnownClass, Module, SearchPath, SubclassOfInner, SynthesizedProtocolKind,
    Type, TypeKind, TypeVarBound,
};
use crate::supported_functions::SupportedTy;
use crate::text;
use crate::type_matcher;
use crate::type_matcher::{Memo, MemoKey, Pair, TypeMatch, Wanted};

verus! {

// ---------------------------------------------------------------------------------------------
// Classes
// ---------------------------------------------------------------------------------------------

/// Whether a module was found in the standard library or among the installed packages.
pub open spec fn found_installed(db: Db, module: Module) -> bool {
    db.module(module).search_path == Some(SearchPath::StandardLibrary) || db.module(
        module,
    ).search_path == Some(SearchPath::ThirdParty)
}

/// Whether a module was found in the project or on a path that it adds.
pub open spec fn found_elsewhere(db: Db, module: Module) -> bool {
    db.module(module).search_path matches Some(path) && path != SearchPath::StandardLibrary && path
        != SearchPath::ThirdParty
}

/// Whether a class is written in a module of which something holds: the module that runs, where
/// there is one, or else a stub that ships with the type checker.
pub open spec fn written_in(db: Db, class: Class, holds: spec_fn(Module) -> bool) -> bool {
    let file = db.class(class).file;
    db.file(file).module matches Some(module) && match db.real_module(
        file,
        db.module(module).name@,
    ) {
        Some(running) => holds(running),
        None => db.module(module).file matches Some(stub) && db.file(stub).is_vendored && holds(
            module,
        ),
    }
}

/// Whether a class belongs to the standard library or to an installed package.
pub open spec fn is_installed(db: Db, class: Class) -> bool {
    written_in(db, class, |module: Module| found_installed(db, module))
}

/// Whether a class is known to belong to something else.
pub open spec fn is_foreign(db: Db, class: Class) -> bool {
    written_in(db, class, |module: Module| found_elsewhere(db, module))
}

/// Whether a class is the installed one of a name at the top of a module.
pub open spec fn is_class(db: Db, class: Class, module: Seq<char>, name: Seq<char>) -> bool {
    &&& is_installed(db, class)
    &&& db.class(class).name@ == name
    &&& db.class(class).enclosing@.len() > 0
    &&& text::joined(order::keys(db.class(class).enclosing@), "."@) == module
}

/// Whether a class has a name and nobody can tell whose it is.
pub open spec fn may_be_class(db: Db, class: Class, name: Seq<char>) -> bool {
    db.class(class).name@ == name && !is_installed(db, class) && !is_foreign(db, class)
}

/// What is said of a type that should be an instance of exactly one class.
pub open spec fn only_instances(
    db: Db,
    actual: Type,
    module: Seq<char>,
    name: Seq<char>,
    result: TypeMatch,
) -> bool {
    match db.ty(actual).nominal_class {
        None => result == TypeMatch::NoMatch,
        Some(class) => {
            &&& result == TypeMatch::Match <==> is_class(db, class, module, name)
            &&& result == TypeMatch::Inconclusive <==> may_be_class(db, class, name)
        },
    }
}

/// Whether a class is or derives from a class.
pub open spec fn is_or_derives(db: Db, class: Class, module: Seq<char>, name: Seq<char>) -> bool {
    exists|i: int|
        0 <= i < db.class(class).mro@.len() && ((#[trigger] db.class(class).mro@[i]) matches
            ClassBase::Class(base) && is_class(db, base, module, name))
}

/// Whether a class has a base that may be a class.
pub open spec fn may_derive(db: Db, class: Class, name: Seq<char>) -> bool {
    exists|i: int|
        0 <= i < db.class(class).mro@.len() && match #[trigger] db.class(class).mro@[i] {
            ClassBase::Class(base) => may_be_class(db, base, name),
            ClassBase::Any | ClassBase::Dynamic | ClassBase::Divergent => true,
            _ => false,
        }
}

/// What is said of a class that should derive from another.
pub open spec fn only_descendants(
    db: Db,
    class: Option<Class>,
    module: Seq<char>,
    name: Seq<char>,
    result: TypeMatch,
) -> bool {
    match class {
        None => result == TypeMatch::NoMatch,
        Some(class) => {
            &&& result == TypeMatch::Match <==> is_or_derives(db, class, module, name)
            &&& result == TypeMatch::NoMatch <==> !is_or_derives(db, class, module, name)
                && !may_derive(db, class, name)
        },
    }
}

proof fn lemma_identity(db: Db, class: Class, module: Seq<char>, name: Seq<char>)
    ensures
        ({
            let relation = chalk::class_identity(db, class, module, name);
            &&& relation == ChalkClassRelation::Match <==> is_class(db, class, module, name)
            &&& relation == ChalkClassRelation::Unavailable <==> may_be_class(db, class, name)
        }),
{
}

proof fn lemma_descent(db: Db, class: Class, module: Seq<char>, name: Seq<char>)
    ensures
        ({
            let relation = chalk::derives_from(db, class, module, name);
            &&& relation == ChalkClassRelation::Match <==> is_or_derives(db, class, module, name)
            &&& relation == ChalkClassRelation::NoMatch <==> !is_or_derives(
                db,
                class,
                module,
                name,
            ) && !may_derive(db, class, name)
        }),
{
    let mro = db.class(class).mro@;
    let relation = |base: Class| chalk::class_identity(db, base, module, name);
    assert forall|base: Class| true implies ({
        &&& #[trigger] relation(base) == ChalkClassRelation::Match <==> is_class(
            db,
            base,
            module,
            name,
        )
        &&& relation(base) == ChalkClassRelation::Unavailable <==> may_be_class(db, base, name)
    }) by {
        lemma_identity(db, base, module, name);
    }
    if is_or_derives(db, class, module, name) {
        let i = choose|i: int|
            0 <= i < mro.len() && ((#[trigger] mro[i]) matches ClassBase::Class(base) && is_class(
                db,
                base,
                module,
                name,
            ));
        assert(relation(mro[i]->Class_0) == ChalkClassRelation::Match);
    }
    if may_derive(db, class, name) {
        let i = choose|i: int|
            0 <= i < mro.len() && match #[trigger] mro[i] {
                ClassBase::Class(base) => may_be_class(db, base, name),
                ClassBase::Any | ClassBase::Dynamic | ClassBase::Divergent => true,
                _ => false,
            };
        if mro[i] is Class {
            assert(relation(mro[i]->Class_0) == ChalkClassRelation::Unavailable);
        } else {
            assert(chalk::is_unavailable_base(mro[i]));
        }
    }
    assert(chalk::derives_from(db, class, module, name) == chalk::over_bases(mro, relation));
}

proof fn lemma_instances(db: Db, actual: Type, module: Seq<char>, name: Seq<char>)
    ensures
        only_instances(
            db,
            actual,
            module,
            name,
            type_matcher::instance_match(db, actual, module, name),
        ),
        only_descendants(
            db,
            db.ty(actual).nominal_class,
            module,
            name,
            type_matcher::derived_match(db, actual, module, name),
        ),
{
    if let Some(class) = db.ty(actual).nominal_class {
        lemma_identity(db, class, module, name);
        lemma_descent(db, class, module, name);
    }
}

// ---------------------------------------------------------------------------------------------
// Plain types
// ---------------------------------------------------------------------------------------------

/// Whether a type is settled and not composed of others, and is not `None`.
pub open spec fn is_plain(db: Db, actual: Type) -> bool {
    !db.ty(actual).is_none && match db.ty(actual).kind {
        TypeKind::Dynamic
        | TypeKind::Divergent { .. }
        | TypeKind::Never
        | TypeKind::TypeAlias { .. }
        | TypeKind::NewTypeInstance { .. }
        | TypeKind::TypeVar { .. }
        | TypeKind::EnumComplement { .. }
        | TypeKind::Union { .. }
        | TypeKind::Intersection { .. }
        | TypeKind::AlwaysTruthy
        | TypeKind::AlwaysFalsy => false,
        _ => true,
    }
}

/// Whether a question is new: it is neither answered nor being asked.
pub open spec fn is_new(
    actual: Type,
    wanted: Wanted,
    depth: nat,
    active: Set<Pair>,
    memo: Memo,
) -> bool {
    let pair = Pair { actual, wanted: wanted.key() };
    !active.contains(pair) && !memo.dom().contains(MemoKey { pair, depth })
}

/// The questions that are being asked while the parts of a type are looked at.
pub open spec fn asked(actual: Type, wanted: Wanted, active: Set<Pair>) -> Set<Pair> {
    active.insert(Pair { actual, wanted: wanted.key() })
}

proof fn lemma_plain(
    db: Db,
    limit: nat,
    actual: Type,
    expected: SupportedTy,
    place: Seq<usize>,
    depth: nat,
    active: Set<Pair>,
    memo: Memo,
)
    requires
        is_plain(db, actual),
        is_new(actual, Wanted::Registry(expected, place), depth, active, memo),
    ensures
        ({
            let wanted = Wanted::Registry(expected, place);
            type_matcher::eval(db, limit, actual, wanted, depth, active, memo).0
                == type_matcher::eval_registry(
                db,
                limit,
                actual,
                expected,
                place,
                depth,
                asked(actual, wanted, active),
                memo,
            ).0
        }),
{
    let wanted = Wanted::Registry(expected, place);
    let active = asked(actual, wanted, active);
    assert(type_matcher::eval_shape(db, limit, actual, wanted, depth, active, memo)
        == type_matcher::eval_concrete(db, limit, actual, wanted, depth, active, memo));
    assert(type_matcher::eval_concrete(db, limit, actual, wanted, depth, active, memo)
        == type_matcher::eval_registry(
        db,
        limit,
        actual,
        expected,
        place,
        depth,
        active,
        memo,
    ));
}

proof fn lemma_plain_match(db: Db, limit: nat, actual: Type, expected: SupportedTy)
    requires
        is_plain(db, actual),
    ensures
        ({
            let wanted = Wanted::Registry(expected, Seq::empty());
            type_matcher::type_match(db, limit, actual, expected) == type_matcher::eval_registry(
                db,
                limit,
                actual,
                expected,
                Seq::empty(),
                0,
                asked(actual, wanted, Set::empty()),
                Map::empty(),
            ).0
        }),
{
    lemma_plain(db, limit, actual, expected, Seq::empty(), 0, Set::empty(), Map::empty());
}

/// Each simple registry type takes the instances of its own class and of no other; whether it also
/// takes `None` plays no part for any other type.
pub proof fn law_simple_types_take_one_class(
    db: Db,
    limit: nat,
    actual: Type,
    expected: SupportedTy,
)
    requires
        is_plain(db, actual),
    ensures
        ({
            let result = type_matcher::type_match(db, limit, actual, expected);
            match expected {
                SupportedTy::Bool { .. } => only_instances(
                    db,
                    actual,
                    "builtins"@,
                    "bool"@,
                    result,
                ),
                SupportedTy::Bytes { .. } => only_instances(
                    db,
                    actual,
                    "builtins"@,
                    "bytes"@,
                    result,
                ),
                SupportedTy::Int { .. } => only_instances(
                    db,
                    actual,
                    "builtins"@,
                    "int"@,
                    result,
                ),
                SupportedTy::Str { .. } => only_instances(
                    db,
                    actual,
                    "builtins"@,
                    "str"@,
                    result,
                ),
                SupportedTy::Date { .. } => only_instances(
                    db,
                    actual,
                    "datetime"@,
                    "date"@,
                    result,
                ),
                SupportedTy::DateTime { .. } => only_instances(
                    db,
                    actual,
                    "datetime"@,
                    "datetime"@,
                    result,
                ),
                SupportedTy::Time { .. } => only_instances(
                    db,
                    actual,
                    "datetime"@,
                    "time"@,
                    result,
                ),
                SupportedTy::Timedelta { .. } => only_instances(
                    db,
                    actual,
                    "datetime"@,
                    "timedelta"@,
                    result,
                ),
                SupportedTy::TimeZone { .. } => only_instances(
                    db,
                    actual,
                    "datetime"@,
                    "timezone"@,
                    result,
                ),
                SupportedTy::Other { name, .. } => if name@ == "TySlice"@ {
                    only_instances(db, actual, "builtins"@, "slice"@, result)
                } else {
                    result == TypeMatch::Inconclusive
                },
                SupportedTy::Any { .. } => result == TypeMatch::Match,
                SupportedTy::NoneType { .. } => result == TypeMatch::NoMatch,
                _ => true,
            }
        }),
{
    lemma_plain_match(db, limit, actual, expected);
    lemma_instances(db, actual, "builtins"@, "bool"@);
    lemma_instances(db, actual, "builtins"@, "bytes"@);
    lemma_instances(db, actual, "builtins"@, "int"@);
    lemma_instances(db, actual, "builtins"@, "str"@);
    lemma_instances(db, actual, "datetime"@, "date"@);
    lemma_instances(db, actual, "datetime"@, "datetime"@);
    lemma_instances(db, actual, "datetime"@, "time"@);
    lemma_instances(db, actual, "datetime"@, "timedelta"@);
    lemma_instances(db, actual, "datetime"@, "timezone"@);
    lemma_instances(db, actual, "builtins"@, "slice"@);
}

/// Numbers are told apart: an integer is taken where either is wanted, a float only where a float
/// is, and a truth value, which is an integer to Python, where neither is.
pub proof fn law_numbers_are_told_apart(
    db: Db,
    limit: nat,
    actual: Type,
    class: Class,
    nullable: bool,
)
    requires
        is_plain(db, actual),
        db.ty(actual).nominal_class == Some(class),
    ensures
        ({
            let as_int = type_matcher::type_match(db, limit, actual, SupportedTy::Int { nullable });
            let as_float = type_matcher::type_match(db, limit, actual, SupportedTy::Float { nullable });
            &&& as_float == TypeMatch::Match <==> is_class(db, class, "builtins"@, "int"@)
                || is_class(db, class, "builtins"@, "float"@)
            &&& as_float == TypeMatch::Inconclusive <==> may_be_class(db, class, "int"@)
                || may_be_class(db, class, "float"@)
            &&& is_class(db, class, "builtins"@, "int"@) ==> as_int == TypeMatch::Match && as_float
                == TypeMatch::Match
            &&& is_class(db, class, "builtins"@, "float"@) ==> as_int == TypeMatch::NoMatch && as_float
                == TypeMatch::Match
            &&& is_class(db, class, "builtins"@, "bool"@) ==> as_int == TypeMatch::NoMatch && as_float
                == TypeMatch::NoMatch
        }),
{
    reveal_strlit("int");
    reveal_strlit("float");
    reveal_strlit("bool");
    assert("int"@.len() == 3 && "float"@.len() == 5 && "bool"@.len() == 4);
    lemma_plain_match(db, limit, actual, SupportedTy::Int { nullable });
    lemma_plain_match(db, limit, actual, SupportedTy::Float { nullable });
    lemma_instances(db, actual, "builtins"@, "int"@);
    lemma_instances(db, actual, "builtins"@, "float"@);
}

/// A type without a class of its own is no number.
pub proof fn law_what_has_no_class_is_no_float(
    db: Db,
    limit: nat,
    actual: Type,
    nullable: bool,
)
    requires
        is_plain(db, actual),
        db.ty(actual).nominal_class is None,
    ensures
        type_matcher::type_match(db, limit, actual, SupportedTy::Float { nullable })
            == TypeMatch::NoMatch,
{
    lemma_plain_match(db, limit, actual, SupportedTy::Float { nullable });
    lemma_instances(db, actual, "builtins"@, "int"@);
    lemma_instances(db, actual, "builtins"@, "float"@);
}

/// Registry types for objects of a library take the instances of its class and of every class that
/// derives from it.
pub proof fn law_library_types_take_descendants(
    db: Db,
    limit: nat,
    actual: Type,
    expected: SupportedTy,
)
    requires
        is_plain(db, actual),
    ensures
        ({
            let result = type_matcher::type_match(db, limit, actual, expected);
            let class = db.ty(actual).nominal_class;
            match expected {
                SupportedTy::ReMatch { .. } => only_descendants(
                    db,
                    class,
                    "re"@,
                    "Match"@,
                    result,
                ),
                SupportedTy::RePattern { .. } => only_descendants(
                    db,
                    class,
                    "re"@,
                    "Pattern"@,
                    result,
                ),
                SupportedTy::RequestsHttpResponse { .. } => only_descendants(
                    db,
                    class,
                    "requests.models"@,
                    "Response"@,
                    result,
                ),
                SupportedTy::SequenceMatcher { .. } => only_descendants(
                    db,
                    class,
                    "difflib"@,
                    "SequenceMatcher"@,
                    result,
                ),
                _ => true,
            }
        }),
{
    lemma_plain_match(db, limit, actual, expected);
    lemma_instances(db, actual, "re"@, "Match"@);
    lemma_instances(db, actual, "re"@, "Pattern"@);
    lemma_instances(db, actual, "requests.models"@, "Response"@);
    lemma_instances(db, actual, "difflib"@, "SequenceMatcher"@);
}

/// A digest is an instance of any of the four classes that `hashlib` hands out.
pub proof fn law_digests_are_of_four_classes(
    db: Db,
    limit: nat,
    actual: Type,
    class: Class,
    nullable: bool,
)
    requires
        is_plain(db, actual),
        db.ty(actual).nominal_class == Some(class),
    ensures
        ({
            let result = type_matcher::type_match(
                db,
                limit,
                actual,
                SupportedTy::HashlibHash { nullable },
            );
            let is_digest = is_or_derives(db, class, "_hashlib"@, "HASH"@) || is_or_derives(
                db,
                class,
                "_hashlib"@,
                "HASHXOF"@,
            ) || is_or_derives(db, class, "_blake2"@, "blake2b"@) || is_or_derives(
                db,
                class,
                "_blake2"@,
                "blake2s"@,
            );
            let may_be_digest = may_derive(db, class, "HASH"@) || may_derive(
                db,
                class,
                "HASHXOF"@,
            ) || may_derive(db, class, "blake2b"@) || may_derive(db, class, "blake2s"@);
            &&& result == TypeMatch::Match <==> is_digest
            &&& result == TypeMatch::NoMatch <==> !is_digest && !may_be_digest
        }),
{
    lemma_plain_match(db, limit, actual, SupportedTy::HashlibHash { nullable });
    lemma_instances(db, actual, "_hashlib"@, "HASH"@);
    lemma_instances(db, actual, "_hashlib"@, "HASHXOF"@);
    lemma_instances(db, actual, "_blake2"@, "blake2b"@);
    lemma_instances(db, actual, "_blake2"@, "blake2s"@);
    lemma_any_of_four(
        type_matcher::derived_match(db, actual, "_hashlib"@, "HASH"@),
        type_matcher::derived_match(db, actual, "_hashlib"@, "HASHXOF"@),
        type_matcher::derived_match(db, actual, "_blake2"@, "blake2b"@),
        type_matcher::derived_match(db, actual, "_blake2"@, "blake2s"@),
    );
}

proof fn lemma_any_of_four(a: TypeMatch, b: TypeMatch, c: TypeMatch, d: TypeMatch)
    ensures
        TypeMatch::any_of(seq![a, b, c, d]) == a.either(b).either(c).either(d),
{
    let all = seq![a, b, c, d];
    assert(all[0] == a && all[1] == b && all[2] == c && all[3] == d);
    assert forall|value: TypeMatch| true implies (#[trigger] all.contains(value) <==> a == value
        || b == value || c == value || d == value) by {
        if a == value {
            assert(all[0] == value);
        }
        if b == value {
            assert(all[1] == value);
        }
        if c == value {
            assert(all[2] == value);
        }
        if d == value {
            assert(all[3] == value);
        }
    }
}

/// Where a class is wanted, only the class object itself is taken, not its instances and not the
/// classes that derive from it; where a module is wanted, only the module of that name.
pub proof fn law_classes_and_modules_are_taken_themselves(
    db: Db,
    limit: nat,
    actual: Type,
    expected: SupportedTy,
)
    requires
        is_plain(db, actual),
    ensures
        ({
            let result = type_matcher::type_match(db, limit, actual, expected);
            match expected {
                SupportedTy::Class { module, name, .. } => match db.ty(actual).kind {
                    TypeKind::ClassLiteral { class } | TypeKind::GenericAlias { class } => {
                        &&& result == TypeMatch::Match <==> is_class(db, class, module@, name@)
                        &&& result == TypeMatch::Inconclusive <==> may_be_class(db, class, name@)
                    },
                    _ => result == TypeMatch::NoMatch,
                },
                SupportedTy::Module { name, .. } => match db.ty(actual).kind {
                    TypeKind::ModuleLiteral { module } => result == if db.module(module).name@
                        == name@ {
                        TypeMatch::Match
                    } else {
                        TypeMatch::NoMatch
                    },
                    _ => result == TypeMatch::NoMatch,
                },
                _ => true,
            }
        }),
{
    lemma_plain_match(db, limit, actual, expected);
    if let SupportedTy::Class { module, name, .. } = expected {
        match db.ty(actual).kind {
            TypeKind::ClassLiteral { class } => {
                lemma_identity(db, class, module@, name@);
            },
            TypeKind::GenericAlias { class } => {
                lemma_identity(db, class, module@, name@);
            },
            _ => {},
        }
    }
}

// ---------------------------------------------------------------------------------------------
// Containers
// ---------------------------------------------------------------------------------------------

/// Whether the first base of a type's class that is one of some known classes stands at a place.
pub open spec fn first_known(
    db: Db,
    actual: Type,
    known: spec_fn(KnownClass) -> bool,
    i: int,
) -> bool {
    db.ty(actual).nominal_class matches Some(class) && {
        let mro = db.class(class).mro@;
        &&& 0 <= i < mro.len()
        &&& is_known(db, mro[i], known)
        &&& forall|j: int| 0 <= j < i ==> !is_known(db, #[trigger] mro[j], known)
    }
}

/// Whether a base is one of some known classes.
pub open spec fn is_known(db: Db, base: ClassBase, known: spec_fn(KnownClass) -> bool) -> bool {
    base matches ClassBase::Class(class) && (db.class(class).known matches Some(kind) && known(
        kind,
    ))
}

/// The base of a type's class at a place.
pub open spec fn base_at(db: Db, actual: Type, i: int) -> Class {
    db.class(db.ty(actual).nominal_class->0).mro@[i]->Class_0
}

/// Whether no base of a type's class is one of some known classes, and every base is known.
pub open spec fn surely_not(db: Db, actual: Type, known: spec_fn(KnownClass) -> bool) -> bool {
    match db.ty(actual).nominal_class {
        None => true,
        Some(class) => forall|i: int|
            0 <= i < db.class(class).mro@.len() ==> {
                let base = #[trigger] db.class(class).mro@[i];
                !is_known(db, base, known) && base !is Any && base !is Dynamic && base !is Divergent
            },
    }
}

/// The known classes of a container that holds one sort of items.
pub open spec fn container_classes(expected: SupportedTy, kind: KnownClass) -> bool {
    match expected {
        SupportedTy::List { .. } => kind == KnownClass::List,
        SupportedTy::SetType { .. } => kind == KnownClass::SetClass,
        SupportedTy::FrozenSet { .. } => kind == KnownClass::FrozenSet,
        SupportedTy::Counter { .. } => kind == KnownClass::Counter,
        SupportedTy::Generator { .. } => kind == KnownClass::Generator || kind
            == KnownClass::GeneratorType,
        SupportedTy::Dict { .. } => kind == KnownClass::Dict,
        _ => false,
    }
}

/// The item type that a container with one sort of items is registered with.
pub open spec fn items_of(expected: SupportedTy) -> Option<SupportedTy> {
    match expected {
        SupportedTy::List { items, .. } => Some(*items),
        SupportedTy::SetType { items, .. } => Some(*items),
        SupportedTy::FrozenSet { items, .. } => Some(*items),
        SupportedTy::Counter { items, .. } => Some(*items),
        SupportedTy::Generator { items, .. } => Some(*items),
        _ => None,
    }
}

spec fn kind_of(expected: SupportedTy) -> ChalkContainerKind {
    match expected {
        SupportedTy::List { .. } => ChalkContainerKind::List,
        SupportedTy::SetType { .. } => ChalkContainerKind::SetOf,
        SupportedTy::FrozenSet { .. } => ChalkContainerKind::FrozenSet,
        SupportedTy::Counter { .. } => ChalkContainerKind::Counter,
        SupportedTy::Generator { .. } => ChalkContainerKind::Generator,
        _ => ChalkContainerKind::Dict,
    }
}

proof fn lemma_container_base(
    db: Db,
    mro: Seq<ClassBase>,
    kind: ChalkContainerKind,
    known: spec_fn(KnownClass) -> bool,
    at: int,
)
    requires
        0 <= at,
        forall|class: KnownClass| #[trigger]
            known(class) == chalk::is_container_class(class, kind),
    ensures
        match chalk::container_base_from(db, mro, kind, at) {
            Some(class) => exists|i: int|
                at <= i < mro.len() && is_known(db, #[trigger] mro[i], known) && mro[i]->Class_0
                    == class && forall|j: int|
                    at <= j < i ==> !is_known(db, #[trigger] mro[j], known),
            None => forall|j: int|
                at <= j < mro.len() ==> !is_known(db, #[trigger] mro[j], known),
        },
    decreases mro.len() - at,
{
    if at < mro.len() {
        assert(is_known(db, mro[at], known) == chalk::is_container_base(db, mro[at], kind));
        if !chalk::is_container_base(db, mro[at], kind) {
            lemma_container_base(db, mro, kind, known, at + 1);
            if let Some(class) = chalk::container_base_from(db, mro, kind, at + 1) {
                let i = choose|i: int|
                    at + 1 <= i < mro.len() && is_known(db, #[trigger] mro[i], known)
                        && mro[i]->Class_0 == class && forall|j: int|
                        at + 1 <= j < i ==> !is_known(db, #[trigger] mro[j], known);
                assert(is_known(db, mro[i], known));
            }
        }
    }
}

proof fn lemma_first_known(
    db: Db,
    actual: Type,
    kind: ChalkContainerKind,
    known: spec_fn(KnownClass) -> bool,
)
    requires
        forall|class: KnownClass| #[trigger]
            known(class) == chalk::is_container_class(class, kind),
    ensures
        forall|i: int| #[trigger]
            first_known(db, actual, known, i) ==> chalk::container_base(db, actual, kind) == Some(
                base_at(db, actual, i),
            ),
        surely_not(db, actual, known) ==> chalk::container_base(db, actual, kind) is None
            && !chalk::has_unavailable_base(db, actual),
{
    if let Some(class) = db.ty(actual).nominal_class {
        let mro = db.class(class).mro@;
        lemma_container_base(db, mro, kind, known, 0);
        assert forall|i: int| #[trigger] first_known(db, actual, known, i) implies (
        chalk::container_base(db, actual, kind) == Some(base_at(db, actual, i))) by {
            assert(is_known(db, mro[i], known));
            let found = chalk::container_base_from(db, mro, kind, 0);
            assert(found is Some);
            let k = choose|k: int|
                0 <= k < mro.len() && is_known(db, #[trigger] mro[k], known) && mro[k]->Class_0
                    == found->0 && forall|j: int|
                    0 <= j < k ==> !is_known(db, #[trigger] mro[j], known);
            if k < i {
                assert(!is_known(db, mro[k], known));
            }
            if i < k {
                assert(!is_known(db, mro[i], known));
            }
        }
        if surely_not(db, actual, known) {
            if let Some(found) = chalk::container_base_from(db, mro, kind, 0) {
                let k = choose|k: int|
                    0 <= k < mro.len() && is_known(db, #[trigger] mro[k], known) && mro[k]->Class_0
                        == found && forall|j: int|
                        0 <= j < k ==> !is_known(db, #[trigger] mro[j], known);
                assert(!is_known(db, mro[k], known));
            }
        }
    }
}

/// A list, set, frozen set, counter or generator matches its registry type exactly as what it holds
/// matches the item type, one level deeper; what is surely no such container does not match.
pub proof fn law_containers_match_by_their_items(
    db: Db,
    limit: nat,
    actual: Type,
    expected: SupportedTy,
    place: Seq<usize>,
    depth: nat,
    active: Set<Pair>,
    memo: Memo,
)
    requires
        is_plain(db, actual),
        items_of(expected) is Some,
        is_new(actual, Wanted::Registry(expected, place), depth, active, memo),
        depth < limit,
    ensures
        ({
            let wanted = Wanted::Registry(expected, place);
            let known = |kind: KnownClass| container_classes(expected, kind);
            let result = type_matcher::eval(db, limit, actual, wanted, depth, active, memo).0;
            &&& forall|i: int| #[trigger]
                first_known(db, actual, known, i) ==> {
                    let arguments = db.class(base_at(db, actual, i)).arguments@;
                    let held = if arguments.len() > 0 {
                        arguments[0]
                    } else {
                        db.unknown
                    };
                    result == type_matcher::eval(
                        db,
                        limit,
                        held,
                        Wanted::Registry(items_of(expected)->0, place.push(0)),
                        depth + 1,
                        asked(actual, wanted, active),
                        memo,
                    ).0
                }
            &&& surely_not(db, actual, known) ==> result == TypeMatch::NoMatch
        }),
{
    let known = |kind: KnownClass| container_classes(expected, kind);
    let kind = kind_of(expected);
    let wanted = Wanted::Registry(expected, place);
    let inner = asked(actual, wanted, active);
    lemma_plain(db, limit, actual, expected, place, depth, active, memo);
    lemma_first_known(db, actual, kind, known);
    let item = items_of(expected)->0;
    assert(type_matcher::eval_registry(
        db,
        limit,
        actual,
        expected,
        place,
        depth,
        inner,
        memo,
    ) == type_matcher::eval_items(db, limit, actual, kind, item, place, depth, inner, memo));
    assert forall|held: Type| true implies #[trigger] type_matcher::descend(
        db,
        limit,
        held,
        type_matcher::part(item, place, 0),
        depth,
        inner,
        memo,
    ) == type_matcher::eval(
        db,
        limit,
        held,
        Wanted::Registry(item, place.push(0)),
        depth + 1,
        inner,
        memo,
    ) by {}
}

/// A mapping matches exactly if its keys match the key type and its values the value type, one
/// level deeper.
pub proof fn law_mappings_match_by_keys_and_values(
    db: Db,
    limit: nat,
    actual: Type,
    nullable: bool,
    key_type: Box<SupportedTy>,
    value_type: Box<SupportedTy>,
    place: Seq<usize>,
    depth: nat,
    active: Set<Pair>,
    memo: Memo,
)
    requires
        is_plain(db, actual),
        is_new(
            actual,
            Wanted::Registry(SupportedTy::Dict { nullable, key_type, value_type }, place),
            depth,
            active,
            memo,
        ),
        depth < limit,
    ensures
        ({
            let expected = SupportedTy::Dict { nullable, key_type, value_type };
            let wanted = Wanted::Registry(expected, place);
            let inner = asked(actual, wanted, active);
            let known = |kind: KnownClass| kind == KnownClass::Dict;
            let result = type_matcher::eval(db, limit, actual, wanted, depth, active, memo).0;
            &&& forall|i: int| #[trigger]
                first_known(db, actual, known, i) ==> {
                    let arguments = db.class(base_at(db, actual, i)).arguments@;
                    let (key, value) = if arguments.len() >= 2 {
                        (arguments[0], arguments[1])
                    } else {
                        (db.unknown, db.unknown)
                    };
                    let (keys, after) = type_matcher::eval(
                        db,
                        limit,
                        key,
                        Wanted::Registry(*key_type, place.push(0)),
                        depth + 1,
                        inner,
                        memo,
                    );
                    let values = type_matcher::eval(
                        db,
                        limit,
                        value,
                        Wanted::Registry(*value_type, place.push(1)),
                        depth + 1,
                        inner,
                        after,
                    ).0;
                    &&& result == TypeMatch::Match <==> keys == TypeMatch::Match && values
                        == TypeMatch::Match
                    &&& result == TypeMatch::NoMatch <==> keys == TypeMatch::NoMatch || values
                        == TypeMatch::NoMatch
                }
            &&& surely_not(db, actual, known) ==> result == TypeMatch::NoMatch
        }),
{
    let expected = SupportedTy::Dict { nullable, key_type, value_type };
    let known = |kind: KnownClass| kind == KnownClass::Dict;
    let wanted = Wanted::Registry(expected, place);
    let inner = asked(actual, wanted, active);
    lemma_plain(db, limit, actual, expected, place, depth, active, memo);
    lemma_first_known(db, actual, ChalkContainerKind::Dict, known);
    assert(type_matcher::eval_registry(db, limit, actual, expected, place, depth, inner, memo)
        == type_matcher::eval_mapping(
        db,
        limit,
        actual,
        *key_type,
        *value_type,
        place,
        depth,
        inner,
        memo,
    ));
}

/// What can be iterated over matches as what iterating gives.
pub proof fn law_iterables_match_by_what_they_give(
    db: Db,
    limit: nat,
    actual: Type,
    nullable: bool,
    items: Box<SupportedTy>,
    place: Seq<usize>,
    depth: nat,
    active: Set<Pair>,
    memo: Memo,
)
    requires
        is_plain(db, actual),
        is_new(
            actual,
            Wanted::Registry(SupportedTy::Iterable { nullable, items }, place),
            depth,
            active,
            memo,
        ),
        depth < limit,
    ensures
        ({
            let wanted = Wanted::Registry(SupportedTy::Iterable { nullable, items }, place);
            let result = type_matcher::eval(db, limit, actual, wanted, depth, active, memo).0;
            match db.ty(actual).iterates {
                Some(item) => result == type_matcher::eval(
                    db,
                    limit,
                    item,
                    Wanted::Registry(*items, place.push(0)),
                    depth + 1,
                    asked(actual, wanted, active),
                    memo,
                ).0,
                None => result != TypeMatch::Match && (surely_not(
                    db,
                    actual,
                    |kind: KnownClass| false,
                ) ==> result == TypeMatch::NoMatch),
            }
        }),
{
    let expected = SupportedTy::Iterable { nullable, items };
    let wanted = Wanted::Registry(expected, place);
    let inner = asked(actual, wanted, active);
    lemma_plain(db, limit, actual, expected, place, depth, active, memo);
    assert(type_matcher::eval_registry(db, limit, actual, expected, place, depth, inner, memo)
        == type_matcher::eval_items(
        db,
        limit,
        actual,
        ChalkContainerKind::Iterable,
        *items,
        place,
        depth,
        inner,
        memo,
    ));
}

// ---------------------------------------------------------------------------------------------
// Composed types
// ---------------------------------------------------------------------------------------------

/// An alias, a new type, a constrained type variable, what is left of an enumeration and a
/// divergent type with a fallback match as what they stand for, one level deeper.
pub proof fn law_stand_ins_match_as_what_they_stand_for(
    db: Db,
    limit: nat,
    actual: Type,
    meant: Type,
    wanted: Wanted,
    depth: nat,
    active: Set<Pair>,
    memo: Memo,
)
    requires
        match db.ty(actual).kind {
            TypeKind::TypeAlias { value } => value == meant,
            TypeKind::NewTypeInstance { base } => base == meant,
            TypeKind::TypeVar { bound } => bound == TypeVarBound::Constraints(meant),
            TypeKind::EnumComplement { remaining } => remaining == meant,
            TypeKind::Divergent { fallback } => fallback == Some(meant),
            _ => false,
        },
        is_new(actual, wanted, depth, active, memo),
        depth < limit,
    ensures
        type_matcher::eval(db, limit, actual, wanted, depth, active, memo).0 == type_matcher::eval(
            db,
            limit,
            meant,
            wanted,
            depth + 1,
            asked(actual, wanted, active),
            memo,
        ).0,
{
    let inner = asked(actual, wanted, active);
    assert(type_matcher::eval_shape(db, limit, actual, wanted, depth, inner, memo)
        == type_matcher::descend(db, limit, meant, wanted, depth, inner, memo));
}

/// Types of which nothing is settled are left open, whatever is wanted.
pub proof fn law_unsettled_types_are_open(
    db: Db,
    limit: nat,
    actual: Type,
    expected: SupportedTy,
)
    requires
        match db.ty(actual).kind {
            TypeKind::Dynamic | TypeKind::AlwaysTruthy | TypeKind::AlwaysFalsy => true,
            TypeKind::TypeVar { bound } => bound == TypeVarBound::Unbound || bound
                == TypeVarBound::UpperBound,
            TypeKind::Divergent { fallback } => fallback is None,
            _ => false,
        },
    ensures
        type_matcher::type_match(db, limit, actual, expected) == TypeMatch::Inconclusive,
{
    let wanted = Wanted::Registry(expected, Seq::empty());
    let inner = asked(actual, wanted, Set::empty());
    assert(type_matcher::eval_shape(db, limit, actual, wanted, 0, inner, Map::empty()).0
        == TypeMatch::Inconclusive);
}

/// An intersection one of whose parts alone is named matches where that part does; where no part is
/// named, it matches as its two bounds do, if they agree, and is left open if they do not.
pub proof fn law_intersections_match_by_a_part_or_their_bounds(
    db: Db,
    limit: nat,
    actual: Type,
    wanted: Wanted,
    depth: nat,
    active: Set<Pair>,
    memo: Memo,
)
    requires
        db.ty(actual).kind is Intersection,
        is_new(actual, wanted, depth, active, memo),
        depth < limit,
    ensures
        ({
            let inner = asked(actual, wanted, active);
            let positive = db.ty(actual).kind->positive@;
            let top = db.ty(actual).kind->top;
            let bottom = db.ty(actual).kind->bottom;
            let result = type_matcher::eval(db, limit, actual, wanted, depth, active, memo).0;
            let (upper, above) = type_matcher::eval(
                db,
                limit,
                top,
                wanted,
                depth + 1,
                inner,
                memo,
            );
            let lower = type_matcher::eval(db, limit, bottom, wanted, depth + 1, inner, above).0;
            &&& positive.len() > 0 && type_matcher::eval(
                db,
                limit,
                positive[0],
                wanted,
                depth + 1,
                inner,
                memo,
            ).0 == TypeMatch::Match ==> result == TypeMatch::Match
            &&& positive.len() == 0 && top != actual && bottom != actual ==> result == (if upper
                == lower {
                upper
            } else {
                TypeMatch::Inconclusive
            })
            &&& positive.len() == 0 && (top == actual || bottom == actual) ==> result
                == TypeMatch::Inconclusive
        }),
{
    let inner = asked(actual, wanted, active);
    let positive = db.ty(actual).kind->positive@;
    if positive.len() > 0 && type_matcher::eval(
        db,
        limit,
        positive[0],
        wanted,
        depth + 1,
        inner,
        memo,
    ).0 == TypeMatch::Match {
        lemma_first_part_decides(db, limit, positive, wanted, depth + 1, inner, memo);
    }
    if positive.len() == 0 {
        assert(type_matcher::eval_some(db, limit, positive, wanted, depth + 1, inner, memo) == (
            false,
            memo,
        ));
    }
    let (found, tried) = type_matcher::eval_some(
        db,
        limit,
        positive,
        wanted,
        depth + 1,
        inner,
        memo,
    );
    if found {
        assert(type_matcher::eval_shape(db, limit, actual, wanted, depth, inner, memo).0
            == TypeMatch::Match);
    } else {
        let top = db.ty(actual).kind->top;
        let bottom = db.ty(actual).kind->bottom;
        let (upper, above) = type_matcher::eval(db, limit, top, wanted, depth + 1, inner, tried);
        let (lower, below) = type_matcher::eval(db, limit, bottom, wanted, depth + 1, inner, above);
        assert(type_matcher::eval_shape(db, limit, actual, wanted, depth, inner, memo).0 == if top
            == actual || bottom == actual {
            TypeMatch::Inconclusive
        } else if upper == lower {
            upper
        } else {
            TypeMatch::Inconclusive
        });
    }
}

proof fn lemma_first_part_decides(
    db: Db,
    limit: nat,
    types: Seq<Type>,
    wanted: Wanted,
    depth: nat,
    active: Set<Pair>,
    memo: Memo,
)
    requires
        types.len() > 0,
        type_matcher::eval(db, limit, types[0], wanted, depth, active, memo).0 == TypeMatch::Match,
    ensures
        type_matcher::eval_some(db, limit, types, wanted, depth, active, memo).0,
    decreases types.len(),
{
    if types.len() > 1 {
        lemma_first_part_decides(db, limit, types.drop_last(), wanted, depth, active, memo);
    } else {
        reveal_with_fuel(type_matcher::eval_some, 2);
        assert(types.drop_last() =~= Seq::empty());
        assert(types.last() == types[0]);
    }
}

// ---------------------------------------------------------------------------------------------
// Categories
// ---------------------------------------------------------------------------------------------

/// The class that a type is about: the class itself for a class object, the class of its instances
/// otherwise.
pub open spec fn class_about(db: Db, actual: Type) -> Option<Class> {
    match db.ty(actual).kind {
        TypeKind::ClassLiteral { class } => Some(class),
        TypeKind::GenericAlias { class } => Some(class),
        TypeKind::SubclassOf { inner } => match inner {
            SubclassOfInner::Class(class) => Some(class),
            _ => None,
        },
        TypeKind::TypedDict { defining_class } => defining_class,
        _ => db.ty(actual).nominal_class,
    }
}

/// The categories take what they are called after: enumerations, structures, tuples and protocol
/// buffers. A category that is not known is left open.
pub proof fn law_categories_take_their_kind(
    db: Db,
    limit: nat,
    actual: Type,
    ty_name: String,
    match_nullable: bool,
)
    requires
        is_plain(db, actual),
        !(db.ty(actual).kind matches TypeKind::SubclassOf { inner } && inner !is Class),
    ensures
        ({
            let result = type_matcher::type_match(
                db,
                limit,
                actual,
                SupportedTy::SubClassOf { ty_name, match_nullable },
            );
            let about = class_about(db, actual);
            &&& ty_name@ == "TyEnum"@ ==> if db.ty(actual).is_enum {
                result == TypeMatch::Match
            } else {
                only_descendants(db, about, "enum"@, "Enum"@, result)
            }
            &&& ty_name@ == "TyLogicalStruct"@ ==> (result == TypeMatch::NoMatch || result
                == TypeMatch::Match) && (result == TypeMatch::Match <==> db.ty(actual).kind
                is TypedDict || (db.ty(actual).kind matches TypeKind::ProtocolInstance {
                synthesized,
                ..
            } && synthesized == Some(SynthesizedProtocolKind::ChalkFeatures)))
            &&& ty_name@ == "TyTuple"@ ==> (result == TypeMatch::Match <==> db.ty(actual).tuple
                is Some)
            &&& ty_name@ == "TyProto"@ ==> only_descendants(
                db,
                about,
                "google.protobuf.message"@,
                "Message"@,
                result,
            )
            &&& ty_name@ == "TyProtoEnum"@ ==> (result == TypeMatch::Match <==> (about matches Some(
                class,
            ) && (is_or_derives(
                db,
                class,
                "google.protobuf.internal.enum_type_wrapper"@,
                "EnumTypeWrapper"@,
            ) || is_or_derives(db, class, "enum"@, "Enum"@))))
            &&& !(ty_name@ == "TyEnum"@ || ty_name@ == "TyJson"@ || ty_name@ == "TyLogicalStruct"@
                || ty_name@ == "TyTuple"@ || ty_name@ == "TyProto"@ || ty_name@ == "TyProtoEnum"@)
                ==> result == TypeMatch::Inconclusive
        }),
{
    let expected = SupportedTy::SubClassOf { ty_name, match_nullable };
    lemma_plain_match(db, limit, actual, expected);
    reveal_strlit("TyEnum");
    reveal_strlit("TyJson");
    reveal_strlit("TyLogicalStruct");
    reveal_strlit("TyTuple");
    reveal_strlit("TyProto");
    reveal_strlit("TyProtoEnum");
    assert("TyEnum"@.len() == 6 && "TyJson"@.len() == 6 && "TyLogicalStruct"@.len() == 15
        && "TyTuple"@.len() == 7 && "TyProto"@.len() == 7 && "TyProtoEnum"@.len() == 11);
    assert("TyEnum"@[2] == 'E' && "TyJson"@[2] == 'J');
    assert("TyTuple"@[2] == 'T' && "TyProto"@[2] == 'P');
    if let Some(class) = class_about(db, actual) {
        lemma_descent(db, class, "enum"@, "Enum"@);
        lemma_descent(db, class, "google.protobuf.message"@, "Message"@);
        lemma_descent(
            db,
            class,
            "google.protobuf.internal.enum_type_wrapper"@,
            "EnumTypeWrapper"@,
        );
    }
}

// ---------------------------------------------------------------------------------------------
// Several questions
// ---------------------------------------------------------------------------------------------

/// Whether results are the answers to several questions, asked one after the other, each with what
/// was learned from those before it.
pub open spec fn are_answers(
    db: Db,
    limit: nat,
    types: Seq<Type>,
    wanted: Seq<Wanted>,
    depth: nat,
    active: Set<Pair>,
    memo: Memo,
    results: Seq<TypeMatch>,
    memos: Seq<Memo>,
) -> bool {
    &&& wanted.len() == types.len()
    &&& results.len() == types.len()
    &&& memos.len() == types.len() + 1
    &&& memos[0] == memo
    &&& forall|i: int|
        0 <= i < types.len() ==> (#[trigger] results[i], memos[i + 1]) == type_matcher::eval(
            db,
            limit,
            types[i],
            wanted[i],
            depth,
            active,
            memos[i],
        )
}

/// Whether a result is that of requirements that all have to be met.
pub open spec fn is_all(result: TypeMatch, results: Seq<TypeMatch>) -> bool {
    &&& result == TypeMatch::Match <==> forall|i: int|
        0 <= i < results.len() ==> (#[trigger] results[i]) == TypeMatch::Match
    &&& result == TypeMatch::NoMatch <==> exists|i: int|
        0 <= i < results.len() && (#[trigger] results[i]) == TypeMatch::NoMatch
}

proof fn lemma_each(
    db: Db,
    limit: nat,
    tasks: Seq<(Type, Wanted)>,
    depth: nat,
    active: Set<Pair>,
    memo: Memo,
) -> (memos: Seq<Memo>)
    ensures
        ({
            let (results, after) = type_matcher::eval_each(db, limit, tasks, depth, active, memo);
            &&& are_answers(
                db,
                limit,
                Seq::new(tasks.len(), |i: int| tasks[i].0),
                Seq::new(tasks.len(), |i: int| tasks[i].1),
                depth,
                active,
                memo,
                results,
                memos,
            )
            &&& memos.last() == after
        }),
    decreases tasks.len(),
{
    if tasks.len() == 0 {
        seq![memo]
    } else {
        let init = tasks.drop_last();
        let before = lemma_each(db, limit, init, depth, active, memo);
        let (results, known) = type_matcher::eval_each(db, limit, init, depth, active, memo);
        let (all, after) = type_matcher::eval_each(db, limit, tasks, depth, active, memo);
        let memos = before.push(after);
        let types = Seq::new(tasks.len(), |i: int| tasks[i].0);
        let wanted = Seq::new(tasks.len(), |i: int| tasks[i].1);
        assert forall|i: int| 0 <= i < types.len() implies (#[trigger] all[i], memos[i + 1])
            == type_matcher::eval(db, limit, types[i], wanted[i], depth, active, memos[i]) by {
            if i < init.len() {
                assert(all[i] == results[i]);
                assert(memos[i + 1] == before[i + 1]);
                assert(memos[i] == before[i]);
            } else {
                assert(memos[i] == before.last());
            }
        }
        memos
    }
}

proof fn lemma_is_all(results: Seq<TypeMatch>)
    ensures
        is_all(TypeMatch::all_of(results), results),
{
    let result = TypeMatch::all_of(results);
    if results.contains(TypeMatch::NoMatch) {
        let i = choose|i: int| 0 <= i < results.len() && results[i] == TypeMatch::NoMatch;
        assert(results[i] == TypeMatch::NoMatch);
    } else {
        assert forall|i: int| 0 <= i < results.len() implies (#[trigger] results[i])
            != TypeMatch::NoMatch by {
            assert(results.contains(results[i]));
        }
        if results.contains(TypeMatch::Inconclusive) {
            let i = choose|i: int| 0 <= i < results.len() && results[i] == TypeMatch::Inconclusive;
            assert(results[i] == TypeMatch::Inconclusive);
        } else {
            assert forall|i: int| 0 <= i < results.len() implies (#[trigger] results[i])
                == TypeMatch::Match by {
                assert(results.contains(results[i]));
            }
        }
    }
}

/// The same question several times.
pub open spec fn repeated(wanted: Wanted, len: nat) -> Seq<Wanted> {
    Seq::new(len, |i: int| wanted)
}

/// The item types of a tuple, each at its place.
pub open spec fn item_types(items: Seq<SupportedTy>, place: Seq<usize>) -> Seq<Wanted> {
    Seq::new(items.len(), |i: int| Wanted::Registry(items[i], place.push(i as usize)))
}

/// Whether a result is that of several questions all of which have to be met.
pub open spec fn asks_all(
    db: Db,
    limit: nat,
    types: Seq<Type>,
    wanted: Seq<Wanted>,
    depth: nat,
    active: Set<Pair>,
    memo: Memo,
    result: TypeMatch,
) -> bool {
    exists|results: Seq<TypeMatch>, memos: Seq<Memo>| #[trigger]
        are_answers(db, limit, types, wanted, depth, active, memo, results, memos) && is_all(
            result,
            results,
        )
}

proof fn lemma_asks_all(
    db: Db,
    limit: nat,
    tasks: Seq<(Type, Wanted)>,
    types: Seq<Type>,
    wanted: Seq<Wanted>,
    depth: nat,
    active: Set<Pair>,
    memo: Memo,
)
    requires
        types == Seq::new(tasks.len(), |i: int| tasks[i].0),
        wanted == Seq::new(tasks.len(), |i: int| tasks[i].1),
    ensures
        asks_all(
            db,
            limit,
            types,
            wanted,
            depth,
            active,
            memo,
            TypeMatch::all_of(
                type_matcher::eval_each(db, limit, tasks, depth, active, memo).0,
            ),
        ),
{
    let memos = lemma_each(db, limit, tasks, depth, active, memo);
    let (results, after) = type_matcher::eval_each(db, limit, tasks, depth, active, memo);
    lemma_is_all(results);
    assert(are_answers(db, limit, types, wanted, depth, active, memo, results, memos));
}

/// A union is matched by all of its elements, one level deeper.
pub proof fn law_unions_ask_every_element(
    db: Db,
    limit: nat,
    actual: Type,
    elements: Vec<Type>,
    wanted: Wanted,
    depth: nat,
    active: Set<Pair>,
    memo: Memo,
)
    requires
        db.ty(actual).kind == (TypeKind::Union { elements }),
        is_new(actual, wanted, depth, active, memo),
        depth < limit,
    ensures
        asks_all(
            db,
            limit,
            elements@,
            repeated(wanted, elements@.len()),
            depth + 1,
            asked(actual, wanted, active),
            memo,
            type_matcher::eval(db, limit, actual, wanted, depth, active, memo).0,
        ),
{
    let inner = asked(actual, wanted, active);
    let tasks = type_matcher::against(elements@, wanted);
    assert(Seq::new(tasks.len(), |i: int| tasks[i].0) =~= elements@);
    assert(Seq::new(tasks.len(), |i: int| tasks[i].1) =~= repeated(wanted, elements@.len()));
    lemma_asks_all(
        db,
        limit,
        tasks,
        elements@,
        repeated(wanted, elements@.len()),
        depth + 1,
        inner,
        memo,
    );
    assert(type_matcher::eval_shape(db, limit, actual, wanted, depth, inner, memo).0
        == TypeMatch::all_of(
        type_matcher::eval_each(db, limit, tasks, depth + 1, inner, memo).0,
    ));
}

/// A tuple of a fixed length matches item by item, and only one of the same length; where any
/// length is wanted, every element has to match the one item type. What is no tuple does not match.
pub proof fn law_tuples_match_item_by_item(
    db: Db,
    limit: nat,
    actual: Type,
    nullable: bool,
    items: Vec<SupportedTy>,
    is_variable: bool,
    place: Seq<usize>,
    depth: nat,
    active: Set<Pair>,
    memo: Memo,
)
    requires
        is_plain(db, actual),
        is_new(
            actual,
            Wanted::Registry(SupportedTy::Tuple { nullable, items, is_variable }, place),
            depth,
            active,
            memo,
        ),
        depth < limit,
    ensures
        ({
            let wanted = Wanted::Registry(
                SupportedTy::Tuple { nullable, items, is_variable },
                place,
            );
            let inner = asked(actual, wanted, active);
            let result = type_matcher::eval(db, limit, actual, wanted, depth, active, memo).0;
            match db.ty(actual).tuple {
                None => result != TypeMatch::Match && (surely_not(
                    db,
                    actual,
                    |kind: KnownClass| false,
                ) ==> result == TypeMatch::NoMatch),
                Some(tuple) => {
                    let elements = tuple.elements@;
                    if is_variable && items@.len() == 0 || !is_variable && (tuple.is_variadic
                        || elements.len() != items@.len()) {
                        result == TypeMatch::NoMatch
                    } else {
                        asks_all(
                            db,
                            limit,
                            elements,
                            if is_variable {
                                repeated(Wanted::Registry(items@[0], place.push(0)), elements.len())
                            } else {
                                item_types(items@, place)
                            },
                            depth + 1,
                            inner,
                            memo,
                            result,
                        )
                    }
                },
            }
        }),
{
    let expected = SupportedTy::Tuple { nullable, items, is_variable };
    let wanted = Wanted::Registry(expected, place);
    let inner = asked(actual, wanted, active);
    lemma_plain(db, limit, actual, expected, place, depth, active, memo);
    assert(type_matcher::eval_registry(db, limit, actual, expected, place, depth, inner, memo)
        == type_matcher::eval_tuple(
        db,
        limit,
        actual,
        items@,
        is_variable,
        place,
        depth,
        inner,
        memo,
    ));
    lemma_tuple(db, limit, actual, items@, is_variable, place, depth, inner, memo);
}

proof fn lemma_tuple(
    db: Db,
    limit: nat,
    actual: Type,
    items: Seq<SupportedTy>,
    is_variable: bool,
    place: Seq<usize>,
    depth: nat,
    active: Set<Pair>,
    memo: Memo,
)
    requires
        is_plain(db, actual),
        depth < limit,
    ensures
        ({
            let result = type_matcher::eval_tuple(
                db,
                limit,
                actual,
                items,
                is_variable,
                place,
                depth,
                active,
                memo,
            ).0;
            match db.ty(actual).tuple {
                None => result != TypeMatch::Match && (surely_not(
                    db,
                    actual,
                    |kind: KnownClass| false,
                ) ==> result == TypeMatch::NoMatch),
                Some(tuple) => {
                    let elements = tuple.elements@;
                    if is_variable && items.len() == 0 || !is_variable && (tuple.is_variadic
                        || elements.len() != items.len()) {
                        result == TypeMatch::NoMatch
                    } else {
                        asks_all(
                            db,
                            limit,
                            elements,
                            if is_variable {
                                repeated(Wanted::Registry(items[0], place.push(0)), elements.len())
                            } else {
                                item_types(items, place)
                            },
                            depth + 1,
                            active,
                            memo,
                            result,
                        )
                    }
                },
            }
        }),
{
    if let Some(tuple) = db.ty(actual).tuple {
        let elements = tuple.elements@;
        if is_variable {
            let tasks = type_matcher::against(elements, type_matcher::part(items[0], place, 0));
            let parts = repeated(Wanted::Registry(items[0], place.push(0)), elements.len());
            assert(Seq::new(tasks.len(), |i: int| tasks[i].0) =~= elements);
            assert(Seq::new(tasks.len(), |i: int| tasks[i].1) =~= parts);
            lemma_asks_all(db, limit, tasks, elements, parts, depth + 1, active, memo);
        } else if elements.len() == items.len() {
            let tasks = type_matcher::pairwise(elements, items, place);
            let parts = item_types(items, place);
            assert(Seq::new(tasks.len(), |i: int| tasks[i].0) =~= elements);
            assert(Seq::new(tasks.len(), |i: int| tasks[i].1) =~= parts);
            lemma_asks_all(db, limit, tasks, elements, parts, depth + 1, active, memo);
        }
    }
}

// ---------------------------------------------------------------------------------------------
// JSON
// ---------------------------------------------------------------------------------------------

/// A list that is surely no mapping is JSON exactly as what it holds is a JSON value; a mapping that
/// is surely no list exactly as its keys are texts and its values JSON values; and what is surely
/// neither, and no structure of fields, is not JSON.
pub proof fn law_json_is_lists_and_mappings(
    db: Db,
    limit: nat,
    actual: Type,
    nullable: bool,
    place: Seq<usize>,
    depth: nat,
    active: Set<Pair>,
    memo: Memo,
)
    requires
        is_plain(db, actual),
        is_new(
            actual,
            Wanted::Registry(SupportedTy::Json { nullable }, place),
            depth,
            active,
            memo,
        ),
        depth < limit,
        db.ty(actual).kind !is TypedDict,
        db.ty(actual).kind !is ProtocolInstance,
    ensures
        ({
            let wanted = Wanted::Registry(SupportedTy::Json { nullable }, place);
            let inner = asked(actual, wanted, active);
            let list = |kind: KnownClass| kind == KnownClass::List;
            let dict = |kind: KnownClass| kind == KnownClass::Dict;
            let result = type_matcher::eval(db, limit, actual, wanted, depth, active, memo).0;
            &&& forall|i: int| #[trigger]
                first_known(db, actual, list, i) && surely_not(db, actual, dict) ==> {
                    let arguments = db.class(base_at(db, actual, i)).arguments@;
                    let held = if arguments.len() > 0 {
                        arguments[0]
                    } else {
                        db.unknown
                    };
                    result == type_matcher::eval(
                        db,
                        limit,
                        held,
                        Wanted::JsonValue,
                        depth + 1,
                        inner,
                        memo,
                    ).0
                }
            &&& forall|i: int| #[trigger]
                first_known(db, actual, dict, i) && surely_not(db, actual, list) ==> {
                    let arguments = db.class(base_at(db, actual, i)).arguments@;
                    let (key, value) = if arguments.len() >= 2 {
                        (arguments[0], arguments[1])
                    } else {
                        (db.unknown, db.unknown)
                    };
                    let (keys, after) = type_matcher::eval(
                        db,
                        limit,
                        key,
                        Wanted::JsonStringKey,
                        depth + 1,
                        inner,
                        memo,
                    );
                    let values = type_matcher::eval(
                        db,
                        limit,
                        value,
                        Wanted::JsonValue,
                        depth + 1,
                        inner,
                        after,
                    ).0;
                    is_all(result, seq![keys, values])
                }
            &&& surely_not(db, actual, list) && surely_not(db, actual, dict) ==> result
                == TypeMatch::NoMatch
        }),
{
    let expected = SupportedTy::Json { nullable };
    let wanted = Wanted::Registry(expected, place);
    let inner = asked(actual, wanted, active);
    let list = |kind: KnownClass| kind == KnownClass::List;
    let dict = |kind: KnownClass| kind == KnownClass::Dict;
    lemma_plain(db, limit, actual, expected, place, depth, active, memo);
    lemma_first_known(db, actual, ChalkContainerKind::List, list);
    lemma_first_known(db, actual, ChalkContainerKind::Dict, dict);
    assert(type_matcher::eval_registry(db, limit, actual, expected, place, depth, inner, memo)
        == type_matcher::eval_json(db, limit, actual, depth, inner, memo));
    assert forall|i: int| #[trigger]
        first_known(db, actual, dict, i) && surely_not(db, actual, list) implies ({
        let arguments = db.class(base_at(db, actual, i)).arguments@;
        let (key, value) = if arguments.len() >= 2 {
            (arguments[0], arguments[1])
        } else {
            (db.unknown, db.unknown)
        };
        let (keys, after) = type_matcher::eval(
            db,
            limit,
            key,
            Wanted::JsonStringKey,
            depth + 1,
            inner,
            memo,
        );
        let values = type_matcher::eval(
            db,
            limit,
            value,
            Wanted::JsonValue,
            depth + 1,
            inner,
            after,
        ).0;
        is_all(type_matcher::eval_json(db, limit, actual, depth, inner, memo).0, seq![keys, values])
    }) by {
        let arguments = db.class(base_at(db, actual, i)).arguments@;
        let (key, value) = if arguments.len() >= 2 {
            (arguments[0], arguments[1])
        } else {
            (db.unknown, db.unknown)
        };
        let (keys, after) = type_matcher::eval(
            db,
            limit,
            key,
            Wanted::JsonStringKey,
            depth + 1,
            inner,
            memo,
        );
        let values = type_matcher::eval(
            db,
            limit,
            value,
            Wanted::JsonValue,
            depth + 1,
            inner,
            after,
        ).0;
        let both = seq![keys, values];
        assert(both[0] == keys && both[1] == values);
        assert(type_matcher::eval_json(db, limit, actual, depth, inner, memo).0 == keys.both(
            values,
        ));
    }
}

/// Inside JSON, `None` and every truth value, integer, float and text is taken, and as a key every
/// text and nothing else.
pub proof fn law_json_holds_plain_values(
    db: Db,
    limit: nat,
    actual: Type,
    class: Class,
    depth: nat,
    active: Set<Pair>,
    memo: Memo,
)
    requires
        is_plain(db, actual),
        db.ty(actual).nominal_class == Some(class),
        is_new(actual, Wanted::JsonValue, depth, active, memo),
        is_new(actual, Wanted::JsonStringKey, depth, active, memo),
    ensures
        is_class(db, class, "builtins"@, "bool"@) || is_class(db, class, "builtins"@, "int"@)
            || is_class(db, class, "builtins"@, "float"@) || is_class(
            db,
            class,
            "builtins"@,
            "str"@,
        ) ==> type_matcher::eval(db, limit, actual, Wanted::JsonValue, depth, active, memo).0
            == TypeMatch::Match,
        only_instances(
            db,
            actual,
            "builtins"@,
            "str"@,
            type_matcher::eval(db, limit, actual, Wanted::JsonStringKey, depth, active, memo).0,
        ),
{
    lemma_instances(db, actual, "builtins"@, "bool"@);
    lemma_instances(db, actual, "builtins"@, "int"@);
    lemma_instances(db, actual, "builtins"@, "float"@);
    lemma_instances(db, actual, "builtins"@, "str"@);
    lemma_any_of_four(
        type_matcher::instance_match(db, actual, "builtins"@, "bool"@),
        type_matcher::instance_match(db, actual, "builtins"@, "int"@),
        type_matcher::instance_match(db, actual, "builtins"@, "float"@),
        type_matcher::instance_match(db, actual, "builtins"@, "str"@),
    );
    let value = asked(actual, Wanted::JsonValue, active);
    let key = asked(actual, Wanted::JsonStringKey, active);
    assert(type_matcher::eval_shape(db, limit, actual, Wanted::JsonValue, depth, value, memo)
        == type_matcher::eval_concrete(
        db,
        limit,
        actual,
        Wanted::JsonValue,
        depth,
        value,
        memo,
    ));
    assert(type_matcher::eval_shape(db, limit, actual, Wanted::JsonStringKey, depth, key, memo)
        == type_matcher::eval_concrete(
        db,
        limit,
        actual,
        Wanted::JsonStringKey,
        depth,
        key,
        memo,
    ));
}

// ---------------------------------------------------------------------------------------------
// Receivers
// ---------------------------------------------------------------------------------------------

/// Whether a class is the installed one at a dotted path: its scopes and its own name, one component
/// each.
pub open spec fn is_at_path(db: Db, class: Class, path: Seq<char>) -> bool {
    let components = order::keys(db.class(class).enclosing@).push(db.class(class).name@);
    &&& is_installed(db, class)
    &&& forall|i: int| 0 <= i < components.len() ==> !(#[trigger] components[i]).contains('.')
    &&& text::joined(components, "."@) == path
}

/// A receiver belongs to a registry entry for a module exactly if it is the installed module of that
/// name, or if its class is or derives from the installed class at that path.
pub proof fn law_receivers_belong_to_modules_and_classes(
    db: Db,
    actual: Type,
    expected: Seq<char>,
)
    requires
        is_plain(db, actual),
    ensures
        ({
            let relation = chalk::receiver_relation(db, actual, expected);
            match db.ty(actual).kind {
                TypeKind::ModuleLiteral { module } => db.module(module).name@ != expected
                    ==> relation == ChalkClassRelation::NoMatch,
                _ => relation == ChalkClassRelation::Match <==> (class_about(
                    db,
                    actual,
                ) matches Some(class) && exists|i: int|
                    0 <= i < db.class(class).mro@.len() && ((
                    #[trigger] db.class(class).mro@[i]) matches ClassBase::Class(base)
                        && is_at_path(db, base, expected))),
            }
        }),
{
    if let Some(class) = class_about(db, actual) {
        let mro = db.class(class).mro@;
        let relation = |base: Class| chalk::class_path_relation(db, base, expected);
        assert forall|base: Class| true implies (#[trigger] relation(base)
            == ChalkClassRelation::Match <==> is_at_path(db, base, expected)) by {
            let components = order::keys(db.class(base).enclosing@).push(db.class(base).name@);
            if chalk::names_class(db, base, expected) {
                assert forall|i: int| 0 <= i < components.len() implies !(
                #[trigger] components[i]).contains('.') by {
                    assert(!chalk::has_dot(components[i]));
                }
            }
            if is_at_path(db, base, expected) {
                assert forall|i: int| 0 <= i < components.len() implies !chalk::has_dot(
                    #[trigger] components[i],
                ) by {}
            }
        }
        assert(chalk::derives_from_path(db, class, expected) == chalk::over_bases(mro, relation));
        if exists|i: int|
            0 <= i < mro.len() && ((#[trigger] mro[i]) matches ClassBase::Class(base) && is_at_path(
                db,
                base,
                expected,
            )) {
            let i = choose|i: int|
                0 <= i < mro.len() && ((#[trigger] mro[i]) matches ClassBase::Class(base)
                    && is_at_path(db, base, expected));
            assert(relation(mro[i]->Class_0) == ChalkClassRelation::Match);
        }
    }
}

} // verus!

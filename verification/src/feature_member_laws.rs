//! What the features of a class are, and what paths of them stand for.

use vstd::prelude::*;

use crate::feature_calls;
use crate::feature_calls::{BoundOverload, ConstructorBinding, Supplied};
use crate::feature_expressions;
use crate::feature_paths;
use crate::feature_paths::{Expression, Found, Manner, Path, Refinement};
use crate::feature_returns;
use crate::features;
use crate::features::{Scope, ShownAs, Symbol};
use crate::refinement_laws;
use crate::semantic::{
    Class, Db, Declaration, Definedness, Field, FieldKind, Member, SynthesizedProtocolKind, Type,
    TypeKind,
};

verus! {

// ---------------------------------------------------------------------------------------------
// Names
// ---------------------------------------------------------------------------------------------

/// Whether a place holds the first declaration of a name.
pub open spec fn first_declared(list: Seq<Declaration>, name: Seq<char>, i: int) -> bool {
    &&& 0 <= i < list.len()
    &&& list[i].name@ == name
    &&& forall|j: int| 0 <= j < i ==> (#[trigger] list[j]).name@ != name
}

/// Whether a place holds the first member of a name.
pub open spec fn first_member(list: Seq<Member>, name: Seq<char>, i: int) -> bool {
    &&& 0 <= i < list.len()
    &&& list[i].name@ == name
    &&& forall|j: int| 0 <= j < i ==> (#[trigger] list[j]).name@ != name
}

/// Whether a place holds the first field of a name.
pub open spec fn first_field(list: Seq<Field>, name: Seq<char>, i: int) -> bool {
    &&& 0 <= i < list.len()
    &&& list[i].name@ == name
    &&& forall|j: int| 0 <= j < i ==> (#[trigger] list[j]).name@ != name
}

/// Whether a place holds the first symbol of a name.
pub open spec fn first_symbol(list: Seq<Symbol>, name: Seq<char>, i: int) -> bool {
    &&& 0 <= i < list.len()
    &&& list[i].name@ == name
    &&& forall|j: int| 0 <= j < i ==> (#[trigger] list[j]).name@ != name
}

proof fn lemma_declaration(list: Seq<Declaration>, name: Seq<char>, at: int)
    requires
        0 <= at,
        forall|j: int| 0 <= j < at && j < list.len() ==> (#[trigger] list[j]).name@ != name,
    ensures
        match features::declaration_from(list, name, at) {
            Some(found) => exists|i: int| #[trigger] first_declared(list, name, i) && found == list[i],
            None => forall|j: int| 0 <= j < list.len() ==> (#[trigger] list[j]).name@ != name,
        },
    decreases list.len() - at,
{
    if at < list.len() {
        if list[at].name@ == name {
            assert(first_declared(list, name, at));
        } else {
            lemma_declaration(list, name, at + 1);
        }
    }
}

proof fn lemma_own_member(list: Seq<Member>, name: Seq<char>, at: int)
    requires
        0 <= at,
        forall|j: int| 0 <= j < at && j < list.len() ==> (#[trigger] list[j]).name@ != name,
    ensures
        match features::own_member_from(list, name, at) {
            Some(found) => exists|i: int|
                #[trigger] first_member(list, name, i) && found == list[i].ty,
            None => forall|j: int| 0 <= j < list.len() ==> (#[trigger] list[j]).name@ != name,
        },
    decreases list.len() - at,
{
    if at < list.len() {
        if list[at].name@ == name {
            assert(first_member(list, name, at));
        } else {
            lemma_own_member(list, name, at + 1);
        }
    }
}

proof fn lemma_field(list: Seq<Field>, name: Seq<char>, at: int)
    requires
        0 <= at,
        forall|j: int| 0 <= j < at && j < list.len() ==> (#[trigger] list[j]).name@ != name,
    ensures
        match features::field_from(list, name, at) {
            Some(found) => exists|i: int|
                #[trigger] first_field(list, name, i) && found == (list[i].declared, list[i].kind),
            None => forall|j: int| 0 <= j < list.len() ==> (#[trigger] list[j]).name@ != name,
        },
    decreases list.len() - at,
{
    if at < list.len() {
        if list[at].name@ == name {
            assert(first_field(list, name, at));
        } else {
            lemma_field(list, name, at + 1);
        }
    }
}

proof fn lemma_symbol(list: Seq<Symbol>, name: Seq<char>, at: int)
    requires
        0 <= at,
        forall|j: int| 0 <= j < at && j < list.len() ==> (#[trigger] list[j]).name@ != name,
    ensures
        match features::symbol_from(list, name, at) {
            Some(found) => exists|i: int|
                #[trigger] first_symbol(list, name, i) && found == list[i].ty,
            None => forall|j: int| 0 <= j < list.len() ==> (#[trigger] list[j]).name@ != name,
        },
    decreases list.len() - at,
{
    if at < list.len() {
        if list[at].name@ == name {
            assert(first_symbol(list, name, at));
        } else {
            lemma_symbol(list, name, at + 1);
        }
    }
}

// ---------------------------------------------------------------------------------------------
// Features
// ---------------------------------------------------------------------------------------------

/// Whether a type has the instances of a class of features.
pub open spec fn has_instances(db: Db, ty: Type, class: Class) -> bool {
    db.ty(ty).nominal_class == Some(class) && db.class(class).is_static && db.class(
        class,
    ).is_features
}

/// A feature is what the class declares by an annotation, neither for the class alone nor for its
/// initialization alone. What is declared otherwise is none; what is not declared, or without a
/// type, is what the instances have of their own. Only classes of features have any.
pub proof fn law_features_are_annotated_declarations(
    db: Db,
    scope: Scope,
    ty: Type,
    name: Seq<char>,
    class: Class,
    i: int,
    k: int,
)
    ensures
        ({
            let found = features::feature_member(db, scope, ty, name);
            let declared = db.class(class).declarations@;
            let own = db.ty(ty).instance_members@;
            let undeclared = forall|j: int|
                0 <= j < declared.len() ==> (#[trigger] declared[j]).name@ != name;
            let unowned = forall|j: int| 0 <= j < own.len() ==> (#[trigger] own[j]).name@ != name;
            &&& (forall|other: Class| !#[trigger] has_instances(db, ty, other)) ==> found is None
            &&& has_instances(db, ty, class) && first_declared(declared, name, i) ==> {
                let is_feature = declared[i].is_annotated && !declared[i].is_class_var
                    && !declared[i].is_init_var;
                &&& !is_feature ==> found is None
                &&& is_feature ==> match declared[i].declared {
                    Some(inner) => found == Some(features::value_type(db, scope, inner)),
                    None => (first_member(own, name, k) ==> found == Some(own[k].ty)) && (unowned
                        ==> found is None),
                }
            }
            &&& has_instances(db, ty, class) && undeclared ==> {
                &&& first_member(own, name, k) ==> found == Some(own[k].ty)
                &&& unowned ==> found is None
            }
        }),
{
    let declared = db.class(class).declarations@;
    let own = db.ty(ty).instance_members@;
    lemma_declaration(declared, name, 0);
    lemma_own_member(own, name, 0);
    if let Some(nominal) = db.ty(ty).nominal_class {
        if db.class(nominal).is_static && db.class(nominal).is_features {
            assert(has_instances(db, ty, nominal));
        }
    }
    if let Some(found) = features::declaration_from(declared, name, 0) {
        let j = choose|j: int| #[trigger] first_declared(declared, name, j) && found == declared[j];
        if first_declared(declared, name, i) {
            if i < j {
                assert(declared[i].name@ != name);
            } else if j < i {
                assert(declared[j].name@ != name);
            }
        }
    }
    if let Some(found) = features::own_member_from(own, name, 0) {
        let j = choose|j: int| #[trigger] first_member(own, name, j) && found == own[j].ty;
        if first_member(own, name, k) {
            if k < j {
                assert(own[k].name@ != name);
            } else if j < k {
                assert(own[j].name@ != name);
            }
        }
    }
}

/// Whether a type is an application of the class that a symbol is, to an argument first.
pub open spec fn is_applied(
    db: Db,
    symbols: Seq<Symbol>,
    name: Seq<char>,
    ty: Type,
    inner: Type,
) -> bool {
    exists|i: int, class: Class|
        #![trigger first_symbol(symbols, name, i), db.class(class)]
        first_symbol(symbols, name, i) && db.ty(symbols[i].ty).kind == (TypeKind::ClassLiteral {
            class,
        }) && db.class(class).is_static && (db.ty(ty).nominal_class matches Some(own) && db.class(
            own,
        ).generic == db.class(class).generic && db.class(own).arguments@.len() > 0 && db.class(
            own,
        ).arguments@[0] == inner)
}

proof fn lemma_applied(db: Db, symbols: Seq<Symbol>, name: Seq<char>, ty: Type)
    ensures
        match features::applied_to(db, ty, features::class_symbol(db, symbols, name)) {
            Some(inner) => is_applied(db, symbols, name, ty, inner),
            None => forall|inner: Type| !#[trigger] is_applied(db, symbols, name, ty, inner),
        },
{
    lemma_symbol(symbols, name, 0);
    match features::applied_to(db, ty, features::class_symbol(db, symbols, name)) {
        Some(inner) => {
            let symbol = features::symbol(symbols, name)->0;
            let i = choose|i: int|
                #[trigger] first_symbol(symbols, name, i) && symbol == symbols[i].ty;
            let class = db.ty(symbol).kind->ClassLiteral_class;
            assert(first_symbol(symbols, name, i));
            assert(db.class(class).is_static);
        },
        None => {
            assert forall|inner: Type| !#[trigger] is_applied(db, symbols, name, ty, inner) by {
                if is_applied(db, symbols, name, ty, inner) {
                    let (i, class) = choose|i: int, class: Class|
                        #![trigger first_symbol(symbols, name, i), db.class(class)]
                        first_symbol(symbols, name, i) && db.ty(symbols[i].ty).kind == (
                        TypeKind::ClassLiteral { class }) && db.class(class).is_static && (db.ty(
                            ty,
                        ).nominal_class matches Some(own) && db.class(own).generic == db.class(
                            class,
                        ).generic && db.class(own).arguments@.len() > 0 && db.class(
                            own,
                        ).arguments@[0] == inner);
                    match features::symbol(symbols, name) {
                        Some(symbol) => {
                            let j = choose|j: int|
                                #[trigger] first_symbol(symbols, name, j) && symbol
                                    == symbols[j].ty;
                            if i < j {
                                assert(symbols[i].name@ != name);
                            } else if j < i {
                                assert(symbols[j].name@ != name);
                            }
                        },
                        None => {
                            assert(symbols[i].name@ != name);
                        },
                    }
                }
            }
        },
    }
}

/// The values of a primary key are of the type that `Primary` is applied to; the values of any other
/// feature are of its own type.
pub proof fn law_primary_keys_have_the_type_inside(db: Db, scope: Scope, ty: Type, inner: Type)
    ensures
        ({
            let value = features::value_type(db, scope, ty);
            let symbols = scope.symbols.features@;
            let is_primary = db.ty(ty).nominal_class matches Some(class) && db.class(class).name@
                == "Primary"@;
            &&& is_primary && is_applied(db, symbols, "Primary"@, ty, inner) ==> value == inner
            &&& !is_primary ==> value == ty
            &&& (forall|other: Type| !#[trigger]
                is_applied(db, symbols, "Primary"@, ty, other)) ==> value == ty
        }),
{
    let symbols = scope.symbols.features@;
    lemma_applied(db, symbols, "Primary"@, ty);
    lemma_applied_once(db, symbols, "Primary"@, ty, inner);
}

proof fn lemma_applied_once(
    db: Db,
    symbols: Seq<Symbol>,
    name: Seq<char>,
    ty: Type,
    inner: Type,
)
    ensures
        is_applied(db, symbols, name, ty, inner) ==> features::applied_to(
            db,
            ty,
            features::class_symbol(db, symbols, name),
        ) == Some(inner),
{
    lemma_applied(db, symbols, name, ty);
}

/// A feature is a relationship exactly if it is a `DataFrame` of a class of features; its rows are
/// then the instances of that class.
pub proof fn law_relationships_are_frames_of_features(db: Db, scope: Scope, ty: Type, row: Type)
    ensures
        features::row_type(db, scope, ty) == Some(row) <==> is_applied(
            db,
            scope.symbols.features@,
            "DataFrame"@,
            ty,
            row,
        ) && exists|class: Class| has_instances(db, row, class),
{
    lemma_applied(db, scope.symbols.features@, "DataFrame"@, ty);
    lemma_applied_once(db, scope.symbols.features@, "DataFrame"@, ty, row);
    if let Some(class) = db.ty(row).nominal_class {
        if db.class(class).is_static && db.class(class).is_features {
            assert(has_instances(db, row, class));
        }
    }
}

/// What stands for a feature in an expression is `Windowed` of what it has windows of, or `Resolved`
/// of its own type where it has none.
pub proof fn law_windowed_features_stand_for_their_windows(
    db: Db,
    scope: Scope,
    ty: Type,
    inner: Type,
)
    ensures
        ({
            let shown = features::symbolic(db, scope, ty);
            let windowed = features::class_symbol(db, scope.symbols.extensions@, "Windowed"@);
            let resolved = features::class_symbol(db, scope.symbols.extensions@, "Resolved"@);
            &&& is_applied(db, scope.symbols.streams@, "Windowed"@, ty, inner) ==> shown == (
            if windowed is Some {
                ShownAs::Windowed(inner)
            } else {
                ShownAs::Unknown
            })
            &&& (forall|other: Type| !#[trigger]
                is_applied(db, scope.symbols.streams@, "Windowed"@, ty, other)) ==> shown == (
            if resolved is Some {
                ShownAs::Resolved(ty)
            } else {
                ShownAs::Unknown
            })
        }),
{
    lemma_applied(db, scope.symbols.streams@, "Windowed"@, ty);
    lemma_applied_once(db, scope.symbols.streams@, "Windowed"@, ty, inner);
}

// ---------------------------------------------------------------------------------------------
// Paths
// ---------------------------------------------------------------------------------------------

/// A path from a class of features has a value exactly if each of its members is a feature of what
/// stands before it, starting at the instances of the class; the value then stands for the last of
/// them, and as an annotation the path is the type of the last.
pub proof fn law_paths_from_a_class_stand_for_their_last_feature(
    db: Db,
    scope: Scope,
    known: Seq<Refinement>,
    expression: Expression,
    path: Path,
    start: Type,
)
    requires
        feature_paths::path_of(expression) == Some(path),
        features::is_features_class(db, path.root),
        db.ty(path.root).instance == Some(start),
    ensures
        ({
            let manner = Manner {
                store_terminal: false,
                resolved_values: false,
                diagnose_missing: false,
                pass_optional: false,
            };
            let valued = feature_expressions::value(db, scope, known, expression);
            let annotated = feature_expressions::annotation(db, scope, known, expression);
            &&& forall|found: Seq<Found>| #[trigger]
                refinement_laws::are_narrowed_features(
                    db,
                    scope,
                    known,
                    path,
                    start,
                    manner,
                    found,
                ) ==> {
                    let last = found.last().ty;
                    &&& valued matches Some(valued) && valued.report is None && valued.shown == (
                    if db.ty(last).kind is Dynamic {
                        ShownAs::Plain(last)
                    } else {
                        features::symbolic(db, scope, last)
                    })
                    &&& annotated matches Some((ty, _)) && ty == last
                }
            &&& (forall|found: Seq<Found>| !#[trigger]
                refinement_laws::are_narrowed_features(
                    db,
                    scope,
                    known,
                    path,
                    start,
                    manner,
                    found,
                )) ==> valued is None && annotated is None
        }),
{
    let manner = Manner {
        store_terminal: false,
        resolved_values: false,
        diagnose_missing: false,
        pass_optional: false,
    };
    let symbolic = Manner { resolved_values: true, ..manner };
    refinement_laws::law_members_are_features_of_what_stands_before(
        db,
        scope,
        known,
        path,
        start,
        manner,
    );
    refinement_laws::law_members_are_features_of_what_stands_before(
        db,
        scope,
        known,
        path,
        start,
        symbolic,
    );
    assert forall|found: Seq<Found>| #[trigger]
        refinement_laws::are_narrowed_features(
            db,
            scope,
            known,
            path,
            start,
            manner,
            found,
        ) == refinement_laws::are_narrowed_features(
        db,
        scope,
        known,
        path,
        start,
        symbolic,
        found,
    ) by {
        lemma_manner(db, scope, known, path, start, manner, symbolic, found);
    }
    assert forall|found: Seq<Found>| #[trigger]
        refinement_laws::are_narrowed_features(
            db,
            scope,
            known,
            path,
            start,
            manner,
            found,
        ) implies feature_paths::resolved(db, scope, known, path, start, manner) is Some
        && feature_paths::resolved(db, scope, known, path, start, manner)->0.members == found
        && feature_paths::resolved(db, scope, known, path, start, symbolic) is Some
        && feature_paths::resolved(db, scope, known, path, start, symbolic)->0.members == found by {
        assert(refinement_laws::are_narrowed_features(
            db,
            scope,
            known,
            path,
            start,
            symbolic,
            found,
        ));
        let plain = feature_paths::resolved(db, scope, known, path, start, manner)->0.members;
        let other = feature_paths::resolved(db, scope, known, path, start, symbolic)->0.members;
        lemma_features_once(db, scope, known, path, start, manner, found, plain);
        lemma_features_once(db, scope, known, path, start, symbolic, found, other);
    }
    if let Some(result) = feature_paths::resolved(db, scope, known, path, start, manner) {
        assert(refinement_laws::are_narrowed_features(
            db,
            scope,
            known,
            path,
            start,
            manner,
            result.members,
        ));
    }
    if let Some(result) = feature_paths::resolved(db, scope, known, path, start, symbolic) {
        assert(refinement_laws::are_narrowed_features(
            db,
            scope,
            known,
            path,
            start,
            manner,
            result.members,
        ));
    }
}

proof fn lemma_manner(
    db: Db,
    scope: Scope,
    known: Seq<Refinement>,
    path: Path,
    start: Type,
    manner: Manner,
    other: Manner,
    found: Seq<Found>,
)
    requires
        manner.pass_optional == other.pass_optional,
    ensures
        refinement_laws::are_narrowed_features(db, scope, known, path, start, manner, found)
            == refinement_laws::are_narrowed_features(
            db,
            scope,
            known,
            path,
            start,
            other,
            found,
        ),
{
    assert forall|i: int, before: Type|
        refinement_laws::is_narrowed_feature(
            db,
            scope,
            known,
            path,
            manner,
            before,
            i,
            found[i],
        ) == #[trigger] refinement_laws::is_narrowed_feature(
            db,
            scope,
            known,
            path,
            other,
            before,
            i,
            found[i],
        ) by {}
    if refinement_laws::are_narrowed_features(db, scope, known, path, start, manner, found) {
        assert forall|i: int| 0 <= i < found.len() implies refinement_laws::is_narrowed_feature(
            db,
            scope,
            known,
            path,
            other,
            refinement_laws::type_before(start, found, i),
            i,
            #[trigger] found[i],
        ) by {}
    }
    if refinement_laws::are_narrowed_features(db, scope, known, path, start, other, found) {
        assert forall|i: int| 0 <= i < found.len() implies refinement_laws::is_narrowed_feature(
            db,
            scope,
            known,
            path,
            manner,
            refinement_laws::type_before(start, found, i),
            i,
            #[trigger] found[i],
        ) by {
            assert(refinement_laws::is_narrowed_feature(
                db,
                scope,
                known,
                path,
                other,
                refinement_laws::type_before(start, found, i),
                i,
                found[i],
            ));
        }
    }
}

proof fn lemma_features_once(
    db: Db,
    scope: Scope,
    known: Seq<Refinement>,
    path: Path,
    start: Type,
    manner: Manner,
    one: Seq<Found>,
    other: Seq<Found>,
)
    requires
        refinement_laws::are_narrowed_features(db, scope, known, path, start, manner, one),
        refinement_laws::are_narrowed_features(db, scope, known, path, start, manner, other),
    ensures
        one == other,
{
    assert forall|i: int| 0 <= i < one.len() implies one[i] == other[i] by {
        lemma_feature_once(db, scope, known, path, start, manner, one, other, i);
    }
    assert(one =~= other);
}

proof fn lemma_feature_once(
    db: Db,
    scope: Scope,
    known: Seq<Refinement>,
    path: Path,
    start: Type,
    manner: Manner,
    one: Seq<Found>,
    other: Seq<Found>,
    i: int,
)
    requires
        refinement_laws::are_narrowed_features(db, scope, known, path, start, manner, one),
        refinement_laws::are_narrowed_features(db, scope, known, path, start, manner, other),
        0 <= i < one.len(),
    ensures
        one[i] == other[i],
    decreases i,
{
    if i > 0 {
        lemma_feature_once(db, scope, known, path, start, manner, one, other, i - 1);
    }
    assert(refinement_laws::is_narrowed_feature(
        db,
        scope,
        known,
        path,
        manner,
        refinement_laws::type_before(start, one, i),
        i,
        one[i],
    ));
    assert(refinement_laws::is_narrowed_feature(
        db,
        scope,
        known,
        path,
        manner,
        refinement_laws::type_before(start, other, i),
        i,
        other[i],
    ));
}

// ---------------------------------------------------------------------------------------------
// Constructor calls
// ---------------------------------------------------------------------------------------------

/// Whether a field is supplied by a parameter of a call: the parameter has a name and a type, some
/// argument is sure to reach it, and the first field of its name is one that the constructor takes
/// and the instance keeps.
pub open spec fn supplies(
    db: Db,
    class: Class,
    overload: BoundOverload,
    at: int,
    field: Supplied,
) -> bool {
    &&& 0 <= at < overload.parameters@.len()
    &&& overload.parameters@[at].name matches Some(name)
    &&& overload.parameters@[at].ty matches Some(ty)
    &&& field.name == name@
    &&& field.ty == (if overload.has_errors {
        db.unknown
    } else {
        ty
    })
    &&& exists|a: int, m: int|
        #![trigger overload.argument_matches@[a].parameters@[m]]
        0 <= a < overload.argument_matches@.len() && overload.argument_matches@[a].matched && 0 <= m
            < overload.argument_matches@[a].parameters@.len()
            && overload.argument_matches@[a].parameters@[m].index == at
            && overload.argument_matches@[a].parameters@[m].definitely_supplied
    &&& exists|f: int|
        #[trigger] first_field(db.class(class).fields@, name@, f) && (db.class(
            class,
        ).fields@[f].kind matches FieldKind::Dataclass { init_only, init } && !init_only && init)
}

proof fn lemma_supplied_field(
    db: Db,
    class: Class,
    overload: BoundOverload,
    at: int,
    field: Supplied,
)
    requires
        0 <= at < overload.parameters@.len(),
    ensures
        feature_calls::supplied_field(
            db.unknown,
            db.class(class).fields@,
            overload,
            at,
        ) == Some(field) <==> supplies(db, class, overload, at, field),
{
    let fields = db.class(class).fields@;
    assert(feature_calls::is_supplied(overload, at) <==> exists|a: int, m: int|
        #![trigger overload.argument_matches@[a].parameters@[m]]
        0 <= a < overload.argument_matches@.len() && overload.argument_matches@[a].matched && 0 <= m
            < overload.argument_matches@[a].parameters@.len()
            && overload.argument_matches@[a].parameters@[m].index == at
            && overload.argument_matches@[a].parameters@[m].definitely_supplied) by {
        if feature_calls::is_supplied(overload, at) {
            let a = choose|a: int|
                0 <= a < overload.argument_matches@.len() && feature_calls::argument_supplies(
                    #[trigger] overload.argument_matches@[a],
                    at,
                );
            let argument = overload.argument_matches@[a];
            let m = choose|m: int|
                0 <= m < argument.parameters@.len() && (#[trigger] argument.parameters@[m]).index
                    == at && argument.parameters@[m].definitely_supplied;
            assert(overload.argument_matches@[a].parameters@[m].index == at);
        }
        if exists|a: int, m: int|
            #![trigger overload.argument_matches@[a].parameters@[m]]
            0 <= a < overload.argument_matches@.len() && overload.argument_matches@[a].matched && 0
                <= m < overload.argument_matches@[a].parameters@.len()
                && overload.argument_matches@[a].parameters@[m].index == at
                && overload.argument_matches@[a].parameters@[m].definitely_supplied {
            let (a, m) = choose|a: int, m: int|
                #![trigger overload.argument_matches@[a].parameters@[m]]
                0 <= a < overload.argument_matches@.len() && overload.argument_matches@[a].matched
                    && 0 <= m < overload.argument_matches@[a].parameters@.len()
                    && overload.argument_matches@[a].parameters@[m].index == at
                    && overload.argument_matches@[a].parameters@[m].definitely_supplied;
            assert(feature_calls::argument_supplies(overload.argument_matches@[a], at));
        }
    }
    if let Some(name) = overload.parameters@[at].name {
        lemma_field(fields, name@, 0);
        match features::field_from(fields, name@, 0) {
            Some(found) => {
                let f = choose|f: int|
                    #[trigger] first_field(fields, name@, f) && found == (
                        fields[f].declared,
                        fields[f].kind,
                    );
                assert forall|g: int| #[trigger] first_field(fields, name@, g) implies g == f by {
                    if g < f {
                        assert(fields[g].name@ != name@);
                    } else if f < g {
                        assert(fields[f].name@ != name@);
                    }
                }
            },
            None => {
                assert forall|g: int| !#[trigger] first_field(fields, name@, g) by {
                    if first_field(fields, name@, g) {
                        assert(fields[g].name@ != name@);
                    }
                }
            },
        }
    }
}

proof fn lemma_supplied_fields(
    db: Db,
    class: Class,
    overload: BoundOverload,
    count: nat,
    field: Supplied,
)
    requires
        count <= overload.parameters@.len(),
    ensures
        feature_calls::supplied_fields(
            db.unknown,
            db.class(class).fields@,
            overload,
            count,
        ).contains(field) <==> exists|at: int|
            at < count && #[trigger] supplies(db, class, overload, at, field),
    decreases count,
{
    if count > 0 {
        let fields = db.class(class).fields@;
        let fewer = (count - 1) as nat;
        let before = feature_calls::supplied_fields(db.unknown, fields, overload, fewer);
        let all = feature_calls::supplied_fields(db.unknown, fields, overload, count);
        lemma_supplied_fields(db, class, overload, fewer, field);
        lemma_supplied_field(db, class, overload, count - 1, field);
        if before.contains(field) {
            let k = choose|k: int| 0 <= k < before.len() && before[k] == field;
            assert(all[k] == field);
        }
        if supplies(db, class, overload, count - 1, field) {
            assert(all == before.push(field));
            assert(all[before.len() as int] == field);
        }
        if all.contains(field) {
            let k = choose|k: int| 0 <= k < all.len() && all[k] == field;
            if k < before.len() {
                assert(before[k] == field);
            }
        }
    }
}

/// A call of a class of features is known to supply exactly the fields that its parameters supply;
/// a call of anything else, of a class whose fields do not make its constructor, or with several
/// signatures supplies nothing that is known.
pub proof fn law_calls_supply_what_is_sure_to_reach_a_field(
    db: Db,
    binding: ConstructorBinding,
    field: Supplied,
)
    ensures
        feature_calls::refinement(db, binding).contains(field) <==> {
            &&& binding.class matches Some(class)
            &&& db.class(class).is_static
            &&& db.class(class).is_features
            &&& binding.is_dataclass_like
            &&& binding.overloads@.len() == 1
            &&& exists|at: int| #[trigger] supplies(db, class, binding.overloads@[0], at, field)
        },
{
    if let Some(class) = binding.class {
        if binding.overloads@.len() == 1 {
            let overload = binding.overloads@[0];
            lemma_supplied_fields(db, class, overload, overload.parameters@.len(), field);
        }
    }
}

// ---------------------------------------------------------------------------------------------
// Returns
// ---------------------------------------------------------------------------------------------

/// Whether a member of a declaration is returned in a way that fits: it is always declared, and what
/// is returned under its name, where something is, fits in turn.
pub open spec fn member_fits(
    db: Db,
    expected: Type,
    given: Type,
    prefix: Seq<char>,
    name: Seq<char>,
) -> bool {
    feature_returns::required(db, expected, name) matches Some(member) && (db.member(
        given,
        name,
    ) matches Some((own, _)) ==> feature_returns::compared(
        db,
        member,
        own,
        feature_returns::path(prefix, name),
    ).compatible)
}

/// Whether a feature below a member of a declaration is missing: the member is not always returned,
/// or the feature is missing in what is returned for it.
pub open spec fn is_missing_below(
    db: Db,
    expected: Type,
    given: Type,
    prefix: Seq<char>,
    name: Seq<char>,
    leaf: Seq<char>,
) -> bool {
    feature_returns::required(db, expected, name) matches Some(member) && {
        let below = feature_returns::path(prefix, name);
        match db.member(given, name) {
            Some((own, Definedness::AlwaysDefined)) => feature_returns::compared(
                db,
                member,
                own,
                below,
            ).missing.contains(leaf),
            _ => feature_returns::leaves(db, member, below).contains(leaf),
        }
    }
}

proof fn lemma_compared_among(
    db: Db,
    expected: Type,
    given: Type,
    prefix: Seq<char>,
    names: Seq<Seq<char>>,
    leaf: Seq<char>,
)
    requires
        db.has_type(expected),
        feature_returns::is_features(db, expected),
        feature_returns::protocols_descend(db),
    ensures
        ({
            let result = feature_returns::compared_among(db, expected, given, prefix, names);
            &&& result.compatible <==> forall|i: int|
                0 <= i < names.len() ==> member_fits(
                    db,
                    expected,
                    given,
                    prefix,
                    #[trigger] names[i],
                )
            &&& result.missing.contains(leaf) <==> exists|i: int|
                0 <= i < names.len() && is_missing_below(
                    db,
                    expected,
                    given,
                    prefix,
                    #[trigger] names[i],
                    leaf,
                )
        }),
    decreases names.len(),
{
    if names.len() > 0 {
        let init = names.drop_last();
        let at = names.len() - 1;
        let name = names.last();
        let before = feature_returns::compared_among(db, expected, given, prefix, init);
        let after = feature_returns::compared_among(db, expected, given, prefix, names);
        lemma_compared_among(db, expected, given, prefix, init, leaf);
        assert(names[at] == name);
        assert(forall|i: int| 0 <= i < init.len() ==> #[trigger] init[i] == names[i]);
        let fits = member_fits(db, expected, given, prefix, name);
        let lacks = is_missing_below(db, expected, given, prefix, name, leaf);
        assert(after.compatible == (before.compatible && fits));
        assert(after.missing.contains(leaf) == (before.missing.contains(leaf) || lacks)) by {
            if let Some(member) = feature_returns::required(db, expected, name) {
                let below = feature_returns::path(prefix, name);
                let added = match db.member(given, name) {
                    Some((own, Definedness::AlwaysDefined)) => feature_returns::compared(
                        db,
                        member,
                        own,
                        below,
                    ).missing,
                    _ => feature_returns::leaves(db, member, below),
                };
                assert(after.missing == before.missing + added);
                lemma_sum(before.missing, added, leaf);
            }
        }
        if after.compatible {
            assert forall|i: int| 0 <= i < names.len() implies member_fits(
                db,
                expected,
                given,
                prefix,
                #[trigger] names[i],
            ) by {
                if i < at {
                    assert(member_fits(db, expected, given, prefix, init[i]));
                }
            }
        } else if before.compatible {
            assert(!member_fits(db, expected, given, prefix, names[at]));
        } else {
            let i = choose|i: int|
                0 <= i < init.len() && !member_fits(db, expected, given, prefix, #[trigger] init[i]);
            assert(!member_fits(db, expected, given, prefix, names[i]));
        }
        if before.missing.contains(leaf) {
            let i = choose|i: int|
                0 <= i < init.len() && is_missing_below(
                    db,
                    expected,
                    given,
                    prefix,
                    #[trigger] init[i],
                    leaf,
                );
            assert(is_missing_below(db, expected, given, prefix, names[i], leaf));
        }
        if exists|i: int|
            0 <= i < names.len() && is_missing_below(
                db,
                expected,
                given,
                prefix,
                #[trigger] names[i],
                leaf,
            ) {
            let i = choose|i: int|
                0 <= i < names.len() && is_missing_below(
                    db,
                    expected,
                    given,
                    prefix,
                    #[trigger] names[i],
                    leaf,
                );
            if i < at {
                assert(is_missing_below(db, expected, given, prefix, init[i], leaf));
            }
        }
    }
}

proof fn lemma_sum<A>(a: Seq<A>, b: Seq<A>, item: A)
    ensures
        (a + b).contains(item) <==> a.contains(item) || b.contains(item),
{
    let both = a + b;
    if a.contains(item) {
        let k = choose|k: int| 0 <= k < a.len() && a[k] == item;
        assert(both[k] == item);
    }
    if b.contains(item) {
        let k = choose|k: int| 0 <= k < b.len() && b[k] == item;
        assert(both[a.len() + k] == item);
    }
    if both.contains(item) {
        let k = choose|k: int| 0 <= k < both.len() && both[k] == item;
        if k < a.len() {
            assert(a[k] == item);
        } else {
            assert(b[k - a.len()] == item);
        }
    }
}

/// What is returned for a set of features fits exactly if every member that is returned fits, and
/// lacks exactly the features below members that are not always returned and those that are missing
/// further down. Anything else fits exactly if it can be assigned, and lacks nothing.
pub proof fn law_returns_are_compared_member_by_member(
    db: Db,
    expected: Type,
    actual: Type,
    prefix: Seq<char>,
    leaf: Seq<char>,
)
    requires
        db.has_type(expected),
        feature_returns::protocols_descend(db),
    ensures
        ({
            let result = feature_returns::compared(db, expected, actual, prefix);
            let given = feature_returns::supplied(db, actual);
            match db.ty(expected).kind {
                TypeKind::ProtocolInstance { synthesized, interface } => if synthesized == Some(
                    SynthesizedProtocolKind::ChalkFeatures,
                ) {
                    &&& result.compatible <==> forall|i: int|
                        0 <= i < interface@.len() ==> member_fits(
                            db,
                            expected,
                            given,
                            prefix,
                            (#[trigger] interface@[i])@,
                        )
                    &&& result.missing.contains(leaf) <==> exists|i: int|
                        0 <= i < interface@.len() && is_missing_below(
                            db,
                            expected,
                            given,
                            prefix,
                            (#[trigger] interface@[i])@,
                            leaf,
                        )
                } else {
                    result.compatible == db.assignable(actual, expected) && result.missing.len()
                        == 0
                },
                _ => result.compatible == db.assignable(actual, expected) && result.missing.len()
                    == 0,
            }
        }),
{
    if feature_returns::is_features(db, expected) {
        let given = feature_returns::supplied(db, actual);
        let names = feature_returns::interface(db, expected);
        let interface = db.ty(expected).kind->ProtocolInstance_interface;
        lemma_compared_among(db, expected, given, prefix, names, leaf);
        assert(names.len() == interface@.len());
        assert(forall|i: int| 0 <= i < names.len() ==> #[trigger] names[i] == interface@[i]@);
        assert(forall|i: int| 0 <= i < names.len() ==> names[i] == (#[trigger] interface@[i])@);
    }
}

/// What a constructor call supplies is read off the first part of an intersection that says so;
/// without one, and for any other type, the type itself is compared.
pub proof fn law_supplied_features_are_read_first(db: Db, actual: Type, i: int)
    ensures
        match db.ty(actual).kind {
            TypeKind::Intersection { positive, .. } => {
                &&& 0 <= i < positive@.len() && feature_returns::is_supplied(db, positive@[i]) && (
                forall|j: int|
                    0 <= j < i ==> !feature_returns::is_supplied(db, #[trigger] positive@[j]))
                    ==> feature_returns::supplied(db, actual) == positive@[i]
                &&& (forall|j: int|
                    0 <= j < positive@.len() ==> !feature_returns::is_supplied(
                        db,
                        #[trigger] positive@[j],
                    )) ==> feature_returns::supplied(db, actual) == actual
            },
            _ => feature_returns::supplied(db, actual) == actual,
        },
{
    if let TypeKind::Intersection { positive, .. } = db.ty(actual).kind {
        lemma_first_supplied(db, positive@, actual, i, 0);
    }
}

proof fn lemma_first_supplied(db: Db, types: Seq<Type>, otherwise: Type, i: int, at: int)
    requires
        0 <= at,
    ensures
        at <= i < types.len() && feature_returns::is_supplied(db, types[i]) && (forall|j: int|
            0 <= j < i ==> !feature_returns::is_supplied(db, #[trigger] types[j]))
            ==> feature_returns::first_supplied(db, types, otherwise, at) == types[i],
        (forall|j: int|
            0 <= j < types.len() ==> !feature_returns::is_supplied(db, #[trigger] types[j]))
            ==> feature_returns::first_supplied(db, types, otherwise, at) == otherwise,
    decreases types.len() - at,
{
    if at < types.len() {
        lemma_first_supplied(db, types, otherwise, i, at + 1);
    }
}

/// A declaration lacks features only where something is missing and everything else fits; it is
/// incomplete only if it does not return the one feature that it declares either.
pub proof fn law_incomplete_returns_lack_features_only(db: Db, expected: Type, actual: Type)
    ensures
        ({
            let result = feature_returns::compared(db, expected, actual, Seq::empty());
            let lacks = feature_returns::is_features(db, expected) && result.compatible
                && result.missing.len() > 0;
            &&& feature_returns::missing_fields(db, expected, actual) == if lacks {
                Some(result.missing)
            } else {
                None
            }
            &&& feature_returns::is_incomplete(db, expected, actual) <==> lacks
                && !feature_returns::returns_feature(db, expected, actual)
        }),
{
}

} // verus!

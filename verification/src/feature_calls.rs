//! Calls that make instances of classes of features.

use vstd::prelude::*;

use crate::features;
use crate::semantic::{Class, Db, Field, FieldKind, Type};

verus! {

broadcast use vstd::string::group_string_axioms;

/// A parameter that an argument was matched to.
#[derive(Clone, Copy, Debug, PartialEq, Eq, Structural)]
pub struct MatchedParameter {
    pub index: usize,
    pub definitely_supplied: bool,
}

/// How an argument was matched.
#[derive(Debug)]
pub struct ArgumentMatch {
    pub matched: bool,
    pub parameters: Vec<MatchedParameter>,
}

/// A parameter and the type of what was handed to it.
#[derive(Debug)]
pub struct BoundParameter {
    pub name: Option<String>,
    pub ty: Option<Type>,
}

/// One signature of a constructor, bound to the arguments of a call.
#[derive(Debug)]
pub struct BoundOverload {
    pub has_errors: bool,
    pub parameters: Vec<BoundParameter>,
    pub argument_matches: Vec<ArgumentMatch>,
}

/// A call of a class.
#[derive(Debug)]
pub struct ConstructorBinding {
    /// The class that is called, with the type arguments of what the call returns.
    pub class: Option<Class>,
    /// Whether the fields of the class make its constructor.
    pub is_dataclass_like: bool,
    pub overloads: Vec<BoundOverload>,
}

/// A field that a call supplies.
#[derive(Debug)]
pub struct SuppliedField {
    pub name: String,
    pub ty: Type,
}

/// A field that a call supplies.
pub struct Supplied {
    pub name: Seq<char>,
    pub ty: Type,
}

/// The fields that a call supplies.
pub open spec fn supplied_view(fields: Seq<SuppliedField>) -> Seq<Supplied> {
    Seq::new(fields.len(), |i: int| Supplied { name: fields[i].name@, ty: fields[i].ty })
}

/// Whether an argument supplies a parameter whatever happens.
pub open spec fn argument_supplies(argument: ArgumentMatch, index: int) -> bool {
    argument.matched && exists|i: int|
        0 <= i < argument.parameters@.len() && (#[trigger] argument.parameters@[i]).index == index
            && argument.parameters@[i].definitely_supplied
}

/// Whether some argument supplies a parameter whatever happens.
pub open spec fn is_supplied(overload: BoundOverload, index: int) -> bool {
    exists|i: int|
        0 <= i < overload.argument_matches@.len() && argument_supplies(
            #[trigger] overload.argument_matches@[i],
            index,
        )
}

/// The field that a parameter supplies: one that the constructor takes and the instance keeps.
/// Nothing is known of its type where the call is wrong.
pub open spec fn supplied_field(
    unknown: Type,
    fields: Seq<Field>,
    overload: BoundOverload,
    index: int,
) -> Option<Supplied> {
    match (overload.parameters@[index].ty, overload.parameters@[index].name) {
        (Some(ty), Some(name)) => if is_supplied(overload, index) {
            match features::field_from(fields, name@, 0) {
                Some((_, FieldKind::Dataclass { init_only: false, init: true })) => Some(
                    Supplied {
                        name: name@,
                        ty: if overload.has_errors {
                            unknown
                        } else {
                            ty
                        },
                    },
                ),
                _ => None,
            }
        } else {
            None
        },
        _ => None,
    }
}

/// The fields that the first parameters supply, in order.
pub open spec fn supplied_fields(
    unknown: Type,
    fields: Seq<Field>,
    overload: BoundOverload,
    count: nat,
) -> Seq<Supplied>
    decreases count,
{
    if count == 0 {
        Seq::empty()
    } else {
        let before = supplied_fields(unknown, fields, overload, (count - 1) as nat);
        match supplied_field(unknown, fields, overload, count - 1) {
            Some(field) => before.push(field),
            None => before,
        }
    }
}

/// The fields that a call is known to supply, for a call of a class of features with one
/// signature; what the call returns has them as they were supplied.
pub open spec fn refinement(db: Db, binding: ConstructorBinding) -> Seq<Supplied> {
    match binding.class {
        Some(class) => if db.class(class).is_static && db.class(class).is_features
            && binding.is_dataclass_like && binding.overloads@.len() == 1 {
            supplied_fields(
                db.unknown,
                db.class(class).fields@,
                binding.overloads@[0],
                binding.overloads@[0].parameters@.len(),
            )
        } else {
            Seq::empty()
        },
        None => Seq::empty(),
    }
}

/// Whether an argument supplies a parameter whatever happens.
fn supplies(argument: &ArgumentMatch, index: usize) -> (found: bool)
    ensures
        found == argument_supplies(*argument, index as int),
{
    if !argument.matched {
        return false;
    }
    let mut i: usize = 0;
    while i < argument.parameters.len()
        invariant
            argument.matched,
            i <= argument.parameters@.len(),
            forall|k: int|
                0 <= k < i ==> !((#[trigger] argument.parameters@[k]).index == index
                    && argument.parameters@[k].definitely_supplied),
        decreases argument.parameters@.len() - i,
    {
        if argument.parameters[i].index == index && argument.parameters[i].definitely_supplied {
            assert(argument.parameters@[i as int].index == index);
            return true;
        }
        i += 1;
    }
    false
}

/// Whether some argument supplies a parameter whatever happens.
fn is_definitely_supplied(overload: &BoundOverload, index: usize) -> (found: bool)
    ensures
        found == is_supplied(*overload, index as int),
{
    let mut i: usize = 0;
    while i < overload.argument_matches.len()
        invariant
            i <= overload.argument_matches@.len(),
            forall|k: int|
                0 <= k < i ==> !argument_supplies(
                    #[trigger] overload.argument_matches@[k],
                    index as int,
                ),
        decreases overload.argument_matches@.len() - i,
    {
        if supplies(&overload.argument_matches[i], index) {
            assert(argument_supplies(overload.argument_matches@[i as int], index as int));
            return true;
        }
        i += 1;
    }
    false
}

/// The field that a parameter supplies.
fn find_supplied_field(
    unknown: Type,
    fields: &Vec<Field>,
    overload: &BoundOverload,
    index: usize,
) -> (field: Option<SuppliedField>)
    requires
        index < overload.parameters@.len(),
    ensures
        match (field, supplied_field(unknown, fields@, *overload, index as int)) {
            (Some(field), Some(expected)) => field.name@ == expected.name && field.ty
                == expected.ty,
            (None, None) => true,
            _ => false,
        },
{
    let parameter = &overload.parameters[index];
    let ty = match parameter.ty {
        Some(ty) => ty,
        None => {
            return None;
        },
    };
    if !is_definitely_supplied(overload, index) {
        return None;
    }
    match &parameter.name {
        Some(name) => match features::find_field(fields, name.as_str()) {
            Some((_, FieldKind::Dataclass { init_only: false, init: true })) => Some(
                SuppliedField {
                    name: name.clone(),
                    ty: if overload.has_errors {
                        unknown
                    } else {
                        ty
                    },
                },
            ),
            _ => None,
        },
        None => None,
    }
}

/// Tells the fields that a call is known to supply. Where there are none, what the call returns
/// stays as it is; else it is also the protocol of those fields.
pub fn refine_chalk_features_return_type(db: &Db, binding: &ConstructorBinding) -> (supplied: Vec<
    SuppliedField,
>)
    requires
        db.wf(),
        binding.class matches Some(class) ==> db.has_class(class),
    ensures
        supplied_view(supplied@) == refinement(*db, *binding),
{
    let mut supplied: Vec<SuppliedField> = Vec::new();
    assert(supplied_view(supplied@) =~= Seq::empty());
    let class = match binding.class {
        Some(class) => class,
        None => {
            return supplied;
        },
    };
    let data = &db.classes[class.id];
    if !data.is_static || !data.is_features || !binding.is_dataclass_like
        || binding.overloads.len() != 1 {
        return supplied;
    }
    let overload = &binding.overloads[0];
    let mut i: usize = 0;
    while i < overload.parameters.len()
        invariant
            i <= overload.parameters@.len(),
            supplied_view(supplied@) == supplied_fields(
                db.unknown,
                data.fields@,
                *overload,
                i as nat,
            ),
        decreases overload.parameters@.len() - i,
    {
        let ghost before = supplied_view(supplied@);
        if let Some(field) = find_supplied_field(db.unknown, &data.fields, overload, i) {
            let ghost own = Supplied { name: field.name@, ty: field.ty };
            supplied.push(field);
            assert(supplied_view(supplied@) =~= before.push(own));
        }
        i += 1;
    }
    supplied
}

} // verus!

//! What a resolver returns, held against the features that it declares.

use vstd::prelude::*;

use crate::semantic::{Db, Definedness, SynthesizedProtocolKind, Type, TypeKind};
use crate::text;

verus! {

broadcast use vstd::string::group_string_axioms;

// ---------------------------------------------------------------------------------------------
// Protocols of features
// ---------------------------------------------------------------------------------------------

/// Whether a type is the protocol of a set of features, as `Features[...]` makes it.
pub open spec fn is_features(db: Db, ty: Type) -> bool {
    db.ty(ty).kind matches TypeKind::ProtocolInstance { synthesized, .. } && synthesized == Some(
        SynthesizedProtocolKind::ChalkFeatures,
    )
}

/// Whether a type is the protocol of the features that a constructor call supplies.
pub open spec fn is_supplied(db: Db, ty: Type) -> bool {
    db.ty(ty).kind matches TypeKind::ProtocolInstance { synthesized, .. } && synthesized == Some(
        SynthesizedProtocolKind::ChalkSuppliedFeatures,
    )
}

/// The names of the members of a protocol, in order.
pub open spec fn interface(db: Db, ty: Type) -> Seq<Seq<char>> {
    match db.ty(ty).kind {
        TypeKind::ProtocolInstance { interface, .. } => names_of(interface@),
        _ => Seq::empty(),
    }
}

/// Names as texts.
pub open spec fn names_of(names: Seq<String>) -> Seq<Seq<char>> {
    Seq::new(names.len(), |i: int| names[i]@)
}

/// The type of a member that is there on every path.
pub open spec fn required(db: Db, ty: Type, name: Seq<char>) -> Option<Type> {
    match db.member(ty, name) {
        Some((member, Definedness::AlwaysDefined)) => Some(member),
        _ => None,
    }
}

/// How far down protocols can go from a type: a protocol is made after what it holds.
pub open spec fn rank(db: Db, ty: Type) -> nat {
    if is_features(db, ty) {
        ty.id as nat + 1
    } else {
        0
    }
}

/// Whether protocols of features are made after the protocols that they hold.
pub open spec fn protocols_descend(db: Db) -> bool {
    forall|ty: Type, name: Seq<char>|
        #![trigger required(db, ty, name)]
        db.has_type(ty) && is_features(db, ty) ==> (required(db, ty, name) matches Some(member)
            ==> rank(db, member) < rank(db, ty))
}

/// A member's path.
pub open spec fn path(prefix: Seq<char>, name: Seq<char>) -> Seq<char> {
    if prefix.len() == 0 {
        name
    } else {
        prefix + "."@ + name
    }
}

/// The paths of the features in a type, below a prefix.
pub open spec fn leaves(db: Db, ty: Type, prefix: Seq<char>) -> Seq<Seq<char>>
    decreases rank(db, ty), 1int, 0int,
{
    if is_features(db, ty) {
        leaves_among(db, ty, prefix, interface(db, ty))
    } else {
        seq![prefix]
    }
}

/// The paths of the features in members.
pub open spec fn leaves_among(
    db: Db,
    ty: Type,
    prefix: Seq<char>,
    names: Seq<Seq<char>>,
) -> Seq<Seq<char>>
    decreases rank(db, ty), 0int, names.len(),
{
    if names.len() == 0 {
        Seq::empty()
    } else {
        let before = leaves_among(db, ty, prefix, names.drop_last());
        let name = names.last();
        match required(db, ty, name) {
            Some(member) => if rank(db, member) < rank(db, ty) {
                before + leaves(db, member, path(prefix, name))
            } else {
                before
            },
            None => before.push(path(prefix, name)),
        }
    }
}

/// What is supplied to a constructor call, where a type says so.
pub open spec fn supplied(db: Db, actual: Type) -> Type {
    match db.ty(actual).kind {
        TypeKind::Intersection { positive, .. } => first_supplied(db, positive@, actual, 0),
        _ => actual,
    }
}

/// The first type from a place in a list on that says what is supplied.
pub open spec fn first_supplied(db: Db, types: Seq<Type>, otherwise: Type, at: int) -> Type
    decreases types.len() - at,
{
    if at < 0 || at >= types.len() {
        otherwise
    } else if is_supplied(db, types[at]) {
        types[at]
    } else {
        first_supplied(db, types, otherwise, at + 1)
    }
}

/// What comparing a returned type with a declared one gives: whether what is there fits, and the
/// paths of what is not.
pub struct Comparison {
    pub compatible: bool,
    pub missing: Seq<Seq<char>>,
}

/// Compares a returned type with a declared one.
pub open spec fn compared(db: Db, expected: Type, actual: Type, prefix: Seq<char>) -> Comparison
    decreases rank(db, expected), 1int, 0int,
{
    if is_features(db, expected) {
        compared_among(
            db,
            expected,
            supplied(db, actual),
            prefix,
            interface(db, expected),
        )
    } else {
        Comparison { compatible: db.assignable(actual, expected), missing: Seq::empty() }
    }
}

/// Compares members. Of a member that may not be there, all features are missing, but those that
/// are there have to fit.
pub open spec fn compared_among(
    db: Db,
    expected: Type,
    actual: Type,
    prefix: Seq<char>,
    names: Seq<Seq<char>>,
) -> Comparison
    decreases rank(db, expected), 0int, names.len(),
{
    if names.len() == 0 {
        Comparison { compatible: true, missing: Seq::empty() }
    } else {
        let before = compared_among(db, expected, actual, prefix, names.drop_last());
        let name = names.last();
        match required(db, expected, name) {
            None => Comparison { compatible: false, ..before },
            Some(member) => if rank(db, member) >= rank(db, expected) {
                before
            } else {
                let all = leaves(db, member, path(prefix, name));
                match db.member(actual, name) {
                    Some((own, definedness)) => {
                        let inner = compared(db, member, own, path(prefix, name));
                        Comparison {
                            compatible: before.compatible && inner.compatible,
                            missing: before.missing + if definedness is AlwaysDefined {
                                inner.missing
                            } else {
                                all
                            },
                        }
                    },
                    None => Comparison { missing: before.missing + all, ..before },
                }
            },
        }
    }
}

/// The features that a returned type lacks, where it lacks any and fits otherwise.
pub open spec fn missing_fields(db: Db, expected: Type, actual: Type) -> Option<Seq<Seq<char>>> {
    let result = compared(db, expected, actual, Seq::empty());
    if is_features(db, expected) && result.compatible && result.missing.len() > 0 {
        Some(result.missing)
    } else {
        None
    }
}

/// The one feature that a type selects, where it selects exactly one.
pub open spec fn single(db: Db, ty: Type) -> Option<Type>
    decreases rank(db, ty), 1int, 0int,
{
    if is_features(db, ty) {
        match singles(db, ty, interface(db, ty)) {
            Some(selected) => selected,
            None => None,
        }
    } else {
        Some(ty)
    }
}

/// The one feature that members select: none for no members, and nothing where a member is not
/// always there, selects none or more than one, or is not the only one.
pub open spec fn singles(db: Db, ty: Type, names: Seq<Seq<char>>) -> Option<Option<Type>>
    decreases rank(db, ty), 0int, names.len(),
{
    if names.len() == 0 {
        Some(None)
    } else {
        match (singles(db, ty, names.drop_last()), required(db, ty, names.last())) {
            (Some(None), Some(member)) => if rank(db, member) < rank(db, ty) {
                match single(db, member) {
                    Some(selected) => Some(Some(selected)),
                    None => None,
                }
            } else {
                None
            },
            _ => None,
        }
    }
}

/// Whether a returned type can stand for the one feature that is declared.
pub open spec fn returns_feature(db: Db, expected: Type, actual: Type) -> bool {
    is_features(db, expected) && (single(db, expected) matches Some(selected) && db.assignable(
        actual,
        selected,
    ))
}

/// Whether a returned type lacks declared features and nothing else is wrong with it.
pub open spec fn is_incomplete(db: Db, expected: Type, actual: Type) -> bool {
    !returns_feature(db, expected, actual) && missing_fields(db, expected, actual) is Some
}

// ---------------------------------------------------------------------------------------------
// Reading protocols
// ---------------------------------------------------------------------------------------------

/// The names of the members of a protocol of features.
fn features_interface(db: &Db, ty: Type) -> (names: Option<&Vec<String>>)
    requires
        db.wf(),
        db.has_type(ty),
    ensures
        match names {
            Some(names) => is_features(*db, ty) && names_of(names@) == interface(*db, ty),
            None => !is_features(*db, ty),
        },
{
    match &db.types[ty.id].kind {
        TypeKind::ProtocolInstance { synthesized, interface } => match synthesized {
            Some(SynthesizedProtocolKind::ChalkFeatures) => Some(interface),
            _ => None,
        },
        _ => None,
    }
}

/// The type of a member that is there on every path.
fn required_member_type(db: &Db, ty: Type, name: &str) -> (member: Option<Type>)
    requires
        db.wf(),
        db.has_type(ty),
    ensures
        member == required(*db, ty, name@),
        member matches Some(member) ==> db.has_type(member),
{
    match db.find_member(ty, name) {
        Some((member, Definedness::AlwaysDefined)) => Some(member),
        _ => None,
    }
}

/// A member's path.
fn member_path(prefix: &str, name: &str) -> (joined: String)
    ensures
        joined@ == path(prefix@, name@),
{
    if prefix.unicode_len() == 0 {
        name.to_owned()
    } else {
        let mut joined = prefix.to_owned();
        text::push_text(&mut joined, ".");
        text::push_text(&mut joined, name);
        joined
    }
}

/// What is supplied to a constructor call, where a type says so.
fn supplied_features(db: &Db, actual: Type) -> (ty: Type)
    requires
        db.wf(),
        db.has_type(actual),
    ensures
        ty == supplied(*db, actual),
        db.has_type(ty),
{
    assert(db.type_wf(db.types@[actual.id as int]));
    match &db.types[actual.id].kind {
        TypeKind::Intersection { positive, .. } => {
            let mut i: usize = 0;
            while i < positive.len()
                invariant
                    i <= positive@.len(),
                    db.wf(),
                    db.has_type(actual),
                    db.has_types(positive@),
                    supplied(*db, actual) == first_supplied(
                        *db,
                        positive@,
                        actual,
                        i as int,
                    ),
                decreases positive@.len() - i,
            {
                let ty = positive[i];
                assert(db.has_type(positive@[i as int]));
                match &db.types[ty.id].kind {
                    TypeKind::ProtocolInstance {
                        synthesized: Some(SynthesizedProtocolKind::ChalkSuppliedFeatures),
                        ..
                    } => {
                        return ty;
                    },
                    _ => {},
                }
                i += 1;
            }
            actual
        },
        _ => actual,
    }
}

// ---------------------------------------------------------------------------------------------
// Comparing
// ---------------------------------------------------------------------------------------------

/// Adds the paths of the features in a type.
fn collect_leaves(db: &Db, expected: Type, prefix: String, out: &mut Vec<String>)
    requires
        db.wf(),
        db.has_type(expected),
        protocols_descend(*db),
    ensures
        names_of(final(out)@) == names_of(old(out)@) + leaves(*db, expected, prefix@),
    decreases rank(*db, expected),
{
    let ghost start = names_of(out@);
    let names = match features_interface(db, expected) {
        Some(names) => names,
        None => {
            out.push(prefix);
            assert(names_of(out@) =~= start + seq![prefix@]);
            return;
        },
    };
    let ghost all = names_of(names@);
    let mut i: usize = 0;
    assert(names_of(out@) =~= start + leaves_among(*db, expected, prefix@, all.take(0)));
    while i < names.len()
        invariant
            i <= names@.len(),
            all == names_of(names@),
            db.wf(),
            db.has_type(expected),
            is_features(*db, expected),
            protocols_descend(*db),
            names_of(out@) == start + leaves_among(*db, expected, prefix@, all.take(i as int)),
        decreases names@.len() - i,
    {
        let name = names[i].as_str();
        let path = member_path(prefix.as_str(), name);
        let ghost before = names_of(out@);
        let ghost so_far = leaves_among(*db, expected, prefix@, all.take(i as int));
        proof {
            assert(all.take(i as int + 1).drop_last() =~= all.take(i as int));
            assert(all.take(i as int + 1).last() == name@);
        }
        match required_member_type(db, expected, name) {
            Some(member) => {
                let ghost inner = leaves(*db, member, path@);
                collect_leaves(db, member, path, out);
                assert(names_of(out@) =~= start + (so_far + inner));
            },
            None => {
                let ghost text = path@;
                out.push(path);
                assert(names_of(out@) =~= before.push(text));
                assert(names_of(out@) =~= start + so_far.push(text));
            },
        }
        i += 1;
    }
    assert(all.take(i as int) =~= all);
}

/// Compares a returned type with a declared one and adds the paths of what is missing.
fn compare(
    db: &Db,
    expected: Type,
    actual: Type,
    prefix: &str,
    missing: &mut Vec<String>,
) -> (compatible: bool)
    requires
        db.wf(),
        db.has_type(expected),
        db.has_type(actual),
        protocols_descend(*db),
    ensures
        compatible == compared(*db, expected, actual, prefix@).compatible,
        names_of(final(missing)@) == names_of(old(missing)@) + compared(
            *db,
            expected,
            actual,
            prefix@,
        ).missing,
    decreases rank(*db, expected),
{
    let ghost start = names_of(missing@);
    let names = match features_interface(db, expected) {
        Some(names) => names,
        None => {
            assert(start + Seq::<Seq<char>>::empty() =~= start);
            return db.is_assignable_to(actual, expected);
        },
    };
    let own = supplied_features(db, actual);
    let ghost all = names_of(names@);
    let mut compatible = true;
    let mut i: usize = 0;
    proof {
        assert(all.take(0) =~= Seq::empty());
        assert(start + Seq::<Seq<char>>::empty() =~= start);
    }
    while i < names.len()
        invariant
            i <= names@.len(),
            all == names_of(names@),
            db.wf(),
            db.has_type(expected),
            db.has_type(own),
            is_features(*db, expected),
            protocols_descend(*db),
            compatible == compared_among(
                *db,
                expected,
                own,
                prefix@,
                all.take(i as int),
            ).compatible,
            names_of(missing@) == start + compared_among(
                *db,
                expected,
                own,
                prefix@,
                all.take(i as int),
            ).missing,
        decreases names@.len() - i,
    {
        let name = names[i].as_str();
        let ghost before = compared_among(*db, expected, own, prefix@, all.take(i as int));
        let ghost after = compared_among(*db, expected, own, prefix@, all.take(i as int + 1));
        proof {
            assert(all.take(i as int + 1).drop_last() =~= all.take(i as int));
            assert(all.take(i as int + 1).last() == name@);
        }
        match required_member_type(db, expected, name) {
            None => {
                compatible = false;
            },
            Some(member) => {
                let path = member_path(prefix, name);
                match db.find_member(own, name) {
                    Some((actual_member, Definedness::AlwaysDefined)) => {
                        let fits = compare(db, member, actual_member, path.as_str(), missing);
                        compatible = compatible && fits;
                        assert(names_of(missing@) =~= start + after.missing);
                    },
                    Some((actual_member, Definedness::PossiblyUndefined)) => {
                        let mut nested: Vec<String> = Vec::new();
                        let fits = compare(db, member, actual_member, path.as_str(), &mut nested);
                        compatible = compatible && fits;
                        collect_leaves(db, member, path, missing);
                        assert(names_of(missing@) =~= start + after.missing);
                    },
                    None => {
                        collect_leaves(db, member, path, missing);
                        assert(names_of(missing@) =~= start + after.missing);
                    },
                }
            },
        }
        i += 1;
    }
    assert(all.take(i as int) =~= all);
    compatible
}

/// The features that a returned type lacks, where it lacks any and fits otherwise.
pub fn chalk_missing_return_fields(db: &Db, expected: Type, actual: Type) -> (missing: Option<
    Vec<String>,
>)
    requires
        db.wf(),
        db.has_type(expected),
        db.has_type(actual),
        protocols_descend(*db),
    ensures
        match (missing, missing_fields(*db, expected, actual)) {
            (Some(missing), Some(paths)) => names_of(missing@) == paths,
            (None, None) => true,
            _ => false,
        },
{
    match features_interface(db, expected) {
        Some(_) => {},
        None => {
            return None;
        },
    }
    let mut missing: Vec<String> = Vec::new();
    let compatible = compare(db, expected, actual, "", &mut missing);
    proof {
        reveal_strlit("");
        assert(""@ =~= Seq::empty());
        let result = compared(*db, expected, actual, Seq::empty());
        assert(names_of(missing@) =~= result.missing);
        assert(names_of(missing@).len() == missing@.len());
    }
    if compatible && missing.len() > 0 {
        Some(missing)
    } else {
        None
    }
}

/// The one feature that a type selects, where it selects exactly one.
fn single_selected_type(db: &Db, ty: Type) -> (selected: Option<Type>)
    requires
        db.wf(),
        db.has_type(ty),
        protocols_descend(*db),
    ensures
        selected == single(*db, ty),
        selected matches Some(selected) ==> db.has_type(selected),
    decreases rank(*db, ty),
{
    let names = match features_interface(db, ty) {
        Some(names) => names,
        None => {
            return Some(ty);
        },
    };
    let ghost all = names_of(names@);
    let mut selected: Option<Type> = None;
    let mut i: usize = 0;
    assert(all.take(0) =~= Seq::empty());
    while i < names.len()
        invariant
            i <= names@.len(),
            all == names_of(names@),
            all == interface(*db, ty),
            db.wf(),
            db.has_type(ty),
            is_features(*db, ty),
            protocols_descend(*db),
            singles(*db, ty, all.take(i as int)) == Some(selected),
            selected matches Some(selected) ==> db.has_type(selected),
        decreases names@.len() - i,
    {
        let name = names[i].as_str();
        proof {
            assert(all.take(i as int + 1).drop_last() =~= all.take(i as int));
            assert(all.take(i as int + 1).last() == name@);
        }
        let member = match required_member_type(db, ty, name) {
            Some(member) => single_selected_type(db, member),
            None => {
                proof {
                    lemma_singles_fail(*db, ty, all, i as int + 1);
                }
                return None;
            },
        };
        match (member, selected) {
            (Some(member), None) => {
                selected = Some(member);
            },
            _ => {
                proof {
                    lemma_singles_fail(*db, ty, all, i as int + 1);
                }
                return None;
            },
        }
        i += 1;
    }
    assert(all.take(i as int) =~= all);
    selected
}

proof fn lemma_singles_fail(db: Db, ty: Type, names: Seq<Seq<char>>, at: int)
    requires
        0 <= at <= names.len(),
        singles(db, ty, names.take(at)) is None,
    ensures
        singles(db, ty, names) is None,
    decreases names.len() - at,
{
    if at < names.len() {
        assert(names.take(at + 1).drop_last() =~= names.take(at));
        lemma_singles_fail(db, ty, names, at + 1);
    } else {
        assert(names.take(at) =~= names);
    }
}

/// Whether a returned type can stand for the one feature that is declared: a resolver of
/// `Features[Name.field]` may return what `Name.field` is declared to be.
pub fn chalk_features_return_is_compatible(db: &Db, expected: Type, actual: Type) -> (compatible:
    bool)
    requires
        db.wf(),
        db.has_type(expected),
        db.has_type(actual),
        protocols_descend(*db),
    ensures
        compatible == returns_feature(*db, expected, actual),
{
    match features_interface(db, expected) {
        Some(_) => match single_selected_type(db, expected) {
            Some(selected) => db.is_assignable_to(actual, selected),
            None => false,
        },
        None => false,
    }
}

/// Whether a returned type lacks declared features and nothing else is wrong with it.
pub fn chalk_features_return_is_incomplete(db: &Db, expected: Type, actual: Type) -> (incomplete:
    bool)
    requires
        db.wf(),
        db.has_type(expected),
        db.has_type(actual),
        protocols_descend(*db),
    ensures
        incomplete == is_incomplete(*db, expected, actual),
{
    !chalk_features_return_is_compatible(db, expected, actual) && chalk_missing_return_fields(
        db,
        expected,
        actual,
    ).is_some()
}

} // verus!

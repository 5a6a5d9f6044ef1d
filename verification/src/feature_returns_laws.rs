//! What holds of returned features, whatever is declared and returned.

use vstd::prelude::*;

use crate::feature_returns;
use crate::semantic::{Db, Type};

verus! {

proof fn lemma_leaf_of_member(
    db: Db,
    expected: Type,
    prefix: Seq<char>,
    names: Seq<Seq<char>>,
    at: int,
    leaf: Seq<char>,
)
    requires
        0 <= at < names.len(),
        feature_returns::required(db, expected, names[at]) matches Some(member)
            && feature_returns::rank(db, member) < feature_returns::rank(db, expected)
            && feature_returns::leaves(
            db,
            member,
            feature_returns::path(prefix, names[at]),
        ).contains(leaf),
    ensures
        feature_returns::leaves_among(db, expected, prefix, names).contains(leaf),
    decreases names.len(),
{
    let all = feature_returns::leaves_among(db, expected, prefix, names);
    let before = feature_returns::leaves_among(db, expected, prefix, names.drop_last());
    if at < names.len() - 1 {
        assert(names.drop_last()[at] == names[at]);
        lemma_leaf_of_member(db, expected, prefix, names.drop_last(), at, leaf);
        let k = choose|k: int| 0 <= k < before.len() && before[k] == leaf;
        assert(all[k] == leaf);
    } else {
        let member = feature_returns::required(db, expected, names[at])->Some_0;
        let inner = feature_returns::leaves(
            db,
            member,
            feature_returns::path(prefix, names[at]),
        );
        let k = choose|k: int| 0 <= k < inner.len() && inner[k] == leaf;
        assert(all == before + inner);
        assert(all[before.len() + k] == leaf);
    }
}

proof fn lemma_missing_are_leaves(
    db: Db,
    expected: Type,
    actual: Type,
    prefix: Seq<char>,
    name: Seq<char>,
)
    requires
        feature_returns::compared(db, expected, actual, prefix).missing.contains(name),
    ensures
        feature_returns::leaves(db, expected, prefix).contains(name),
    decreases feature_returns::rank(db, expected), 1int, 0int,
{
    if feature_returns::is_features(db, expected) {
        lemma_missing_among(
            db,
            expected,
            feature_returns::supplied(db, actual),
            prefix,
            feature_returns::interface(db, expected),
            name,
        );
    }
}

proof fn lemma_missing_among(
    db: Db,
    expected: Type,
    actual: Type,
    prefix: Seq<char>,
    names: Seq<Seq<char>>,
    name: Seq<char>,
)
    requires
        feature_returns::is_features(db, expected),
        feature_returns::compared_among(db, expected, actual, prefix, names).missing.contains(
            name,
        ),
    ensures
        feature_returns::leaves_among(db, expected, prefix, names).contains(name),
    decreases feature_returns::rank(db, expected), 0int, names.len(),
{
    if names.len() > 0 {
        let rest = names.drop_last();
        let all = feature_returns::compared_among(db, expected, actual, prefix, names).missing;
        let before = feature_returns::compared_among(db, expected, actual, prefix, rest).missing;
        let leaves = feature_returns::leaves_among(db, expected, prefix, names);
        let leaves_before = feature_returns::leaves_among(db, expected, prefix, rest);
        if before.contains(name) {
            lemma_missing_among(db, expected, actual, prefix, rest, name);
            let k = choose|k: int| 0 <= k < leaves_before.len() && leaves_before[k] == name;
            assert(leaves[k] == name);
        } else {
            let k = choose|k: int| 0 <= k < all.len() && all[k] == name;
            if k < before.len() {
                assert(before[k] == name);
            }
            let member = feature_returns::required(db, expected, names.last())->Some_0;
            let path = feature_returns::path(prefix, names.last());
            let inner = feature_returns::leaves(db, member, path);
            match db.member(actual, names.last()) {
                Some((own, definedness)) => {
                    if definedness is AlwaysDefined {
                        let missing = feature_returns::compared(db, member, own, path).missing;
                        assert(all == before + missing);
                        assert(missing[k - before.len()] == name);
                        lemma_missing_are_leaves(db, member, own, path, name);
                    } else {
                        assert(all == before + inner);
                        assert(inner[k - before.len()] == name);
                    }
                },
                None => {
                    assert(all == before + inner);
                    assert(inner[k - before.len()] == name);
                },
            }
            lemma_leaf_of_member(db, expected, prefix, names, names.len() - 1, name);
        }
    }
}

/// Only declared features can be missing.
pub proof fn law_missing_fields_are_declared(db: Db, expected: Type, actual: Type, name: Seq<char>)
    requires
        feature_returns::missing_fields(db, expected, actual) matches Some(missing)
            && missing.contains(name),
    ensures
        feature_returns::leaves(db, expected, Seq::empty()).contains(name),
{
    lemma_missing_are_leaves(db, expected, actual, Seq::empty(), name);
}

proof fn lemma_absent_is_missing(
    db: Db,
    expected: Type,
    actual: Type,
    prefix: Seq<char>,
    names: Seq<Seq<char>>,
    at: int,
    leaf: Seq<char>,
)
    requires
        0 <= at < names.len(),
        db.member(actual, names[at]) matches Some((_, definedness)) ==> !(definedness
            is AlwaysDefined),
        feature_returns::required(db, expected, names[at]) matches Some(member)
            && feature_returns::rank(db, member) < feature_returns::rank(db, expected)
            && feature_returns::leaves(
            db,
            member,
            feature_returns::path(prefix, names[at]),
        ).contains(leaf),
    ensures
        feature_returns::compared_among(db, expected, actual, prefix, names).missing.contains(
            leaf,
        ),
    decreases names.len(),
{
    let rest = names.drop_last();
    let all = feature_returns::compared_among(db, expected, actual, prefix, names).missing;
    let before = feature_returns::compared_among(db, expected, actual, prefix, rest).missing;
    if at < names.len() - 1 {
        assert(rest[at] == names[at]);
        lemma_absent_is_missing(db, expected, actual, prefix, rest, at, leaf);
        let k = choose|k: int| 0 <= k < before.len() && before[k] == leaf;
        assert(all[k] == leaf);
    } else {
        let member = feature_returns::required(db, expected, names[at])->Some_0;
        let inner = feature_returns::leaves(
            db,
            member,
            feature_returns::path(prefix, names[at]),
        );
        let k = choose|k: int| 0 <= k < inner.len() && inner[k] == leaf;
        assert(all == before + inner);
        assert(all[before.len() + k] == leaf);
    }
}

/// Where a returned type does not always have a declared member, every feature below that member
/// is missing.
pub proof fn law_absent_members_are_missing(
    db: Db,
    expected: Type,
    actual: Type,
    at: int,
    member: Type,
    leaf: Seq<char>,
)
    requires
        db.has_type(expected),
        feature_returns::protocols_descend(db),
        feature_returns::is_features(db, expected),
        0 <= at < feature_returns::interface(db, expected).len(),
        feature_returns::required(db, expected, feature_returns::interface(db, expected)[at])
            == Some(member),
        db.member(
            feature_returns::supplied(db, actual),
            feature_returns::interface(db, expected)[at],
        ) matches Some((_, definedness)) ==> !(definedness is AlwaysDefined),
        feature_returns::leaves(
            db,
            member,
            feature_returns::interface(db, expected)[at],
        ).contains(leaf),
    ensures
        feature_returns::compared(db, expected, actual, Seq::empty()).missing.contains(leaf),
{
    lemma_absent_is_missing(
        db,
        expected,
        feature_returns::supplied(db, actual),
        Seq::empty(),
        feature_returns::interface(db, expected),
        at,
        leaf,
    );
}

/// A resolver of one feature may return what that feature is declared to be.
pub proof fn law_one_feature_may_be_returned_bare(
    db: Db,
    expected: Type,
    name: Seq<char>,
    declared: Type,
    actual: Type,
)
    requires
        db.has_type(expected),
        feature_returns::is_features(db, expected),
        feature_returns::interface(db, expected) == seq![name],
        feature_returns::required(db, expected, name) == Some(declared),
        !feature_returns::is_features(db, declared),
        db.assignable(actual, declared),
    ensures
        feature_returns::returns_feature(db, expected, actual),
        !feature_returns::is_incomplete(db, expected, actual),
{
    reveal_with_fuel(feature_returns::singles, 2);
    assert(seq![name].drop_last() =~= Seq::empty());
    assert(feature_returns::singles(db, expected, Seq::empty()) == Some(None::<Type>));
    assert(feature_returns::single(db, declared) == Some(declared));
}

/// Only a declaration of features can be returned incompletely.
pub proof fn law_only_features_are_incomplete(db: Db, expected: Type, actual: Type)
    requires
        !feature_returns::is_features(db, expected),
    ensures
        feature_returns::missing_fields(db, expected, actual) is None,
        !feature_returns::returns_feature(db, expected, actual),
        !feature_returns::is_incomplete(db, expected, actual),
{
}

} // verus!

//! Total orders on keys, stable sorting and sorted duplicate-free lists.

use vstd::prelude::*;

use crate::text;
use crate::text::Relation;

verus! {

/// A value that is ordered by a key.
pub trait Ordered: Sized {
    /// What the order looks at.
    type Key;

    /// This value's key.
    spec fn key(&self) -> Self::Key;

    /// The strict order on keys.
    spec fn key_before(a: Self::Key, b: Self::Key) -> bool;

    /// No key comes before itself.
    proof fn key_irreflexive(a: Self::Key)
        ensures
            !Self::key_before(a, a),
    ;

    /// The order is transitive.
    proof fn key_transitive(a: Self::Key, b: Self::Key, c: Self::Key)
        requires
            Self::key_before(a, b),
            Self::key_before(b, c),
        ensures
            Self::key_before(a, c),
    ;

    /// Different keys are ordered one way or the other.
    proof fn key_total(a: Self::Key, b: Self::Key)
        ensures
            a == b || Self::key_before(a, b) || Self::key_before(b, a),
    ;
}

/// A value that can be compared by its key.
pub trait Keyed: Ordered {
    /// Compares two values by their keys.
    fn relate(&self, other: &Self) -> (relation: Relation)
        ensures
            match relation {
                Relation::Less => Self::key_before(self.key(), other.key()),
                Relation::Equal => self.key() == other.key(),
                Relation::Greater => Self::key_before(other.key(), self.key()),
            },
    ;
}

/// The keys of a sequence, in its order.
pub open spec fn keys<T: Ordered>(items: Seq<T>) -> Seq<T::Key> {
    Seq::new(items.len(), |i: int| items[i].key())
}

/// Keys never step back.
pub open spec fn non_decreasing<T: Ordered>(items: Seq<T>) -> bool {
    forall|i: int, j: int|
        0 <= i < j < items.len() ==> !T::key_before(
            (#[trigger] items[j]).key(),
            (#[trigger] items[i]).key(),
        )
}

/// Every key comes strictly before the next ones, so none occurs twice.
pub open spec fn strictly_increasing<T: Ordered>(items: Seq<T>) -> bool {
    forall|i: int, j: int|
        0 <= i < j < items.len() ==> T::key_before(
            (#[trigger] items[i]).key(),
            (#[trigger] items[j]).key(),
        )
}

/// `items` with `item` placed behind everything whose key does not come after its own.
pub open spec fn stable_insert<T: Ordered>(items: Seq<T>, item: T) -> Seq<T>
    decreases items.len(),
{
    if items.len() == 0 || !T::key_before(item.key(), items.last().key()) {
        items.push(item)
    } else {
        stable_insert(items.drop_last(), item).push(items.last())
    }
}

/// `items` sorted by key, items of one key keeping their order.
pub open spec fn stable_sort<T: Ordered>(items: Seq<T>) -> Seq<T>
    decreases items.len(),
{
    if items.len() == 0 {
        items
    } else {
        stable_insert(stable_sort(items.drop_last()), items.last())
    }
}

/// `items` with `item` added at its place, unless its key is there already.
pub open spec fn distinct_insert<T: Ordered>(items: Seq<T>, item: T) -> Seq<T> {
    if keys(items).contains(item.key()) {
        items
    } else {
        stable_insert(items, item)
    }
}

/// `items` as a sorted list in which the first item of each key stands.
pub open spec fn distinct_sort<T: Ordered>(items: Seq<T>) -> Seq<T>
    decreases items.len(),
{
    if items.len() == 0 {
        items
    } else {
        distinct_insert(distinct_sort(items.drop_last()), items.last())
    }
}

/// Inserting keeps what was there and adds one item.
pub proof fn lemma_stable_insert_contents<T: Ordered>(items: Seq<T>, item: T)
    ensures
        stable_insert(items, item).len() == items.len() + 1,
        stable_insert(items, item).to_multiset() =~= items.to_multiset().insert(item),
        forall|x: T| #[trigger]
            stable_insert(items, item).contains(x) <==> items.contains(x) || x == item,
    decreases items.len(),
{
    let out = stable_insert(items, item);
    if items.len() == 0 || !T::key_before(item.key(), items.last().key()) {
        vstd::seq_lib::to_multiset_build(items, item);
        assert forall|x: T| out.contains(x) == (items.contains(x) || x == item) by {
            if x == item {
                assert(out[items.len() as int] == x);
            }
            if items.contains(x) {
                let i = choose|i: int| 0 <= i < items.len() && items[i] == x;
                assert(out[i] == x);
            }
        }
    } else {
        let init = items.drop_last();
        let rest = stable_insert(init, item);
        lemma_stable_insert_contents(init, item);
        vstd::seq_lib::to_multiset_build(rest, items.last());
        vstd::seq_lib::to_multiset_build(init, items.last());
        assert(items =~= init.push(items.last()));
        assert forall|x: T| out.contains(x) == (items.contains(x) || x == item) by {
            if out.contains(x) {
                let i = choose|i: int| 0 <= i < out.len() && out[i] == x;
                if i < rest.len() {
                    assert(rest[i] == x);
                    assert(rest.contains(x));
                    if init.contains(x) {
                        let k = choose|k: int| 0 <= k < init.len() && init[k] == x;
                        assert(items[k] == x);
                    }
                }
            }
            if x == item || items.contains(x) {
                if x == items.last() {
                    assert(out[out.len() - 1] == x);
                } else {
                    if items.contains(x) {
                        let k = choose|k: int| 0 <= k < items.len() && items[k] == x;
                        assert(init[k] == x);
                    }
                    assert(rest.contains(x));
                    let k = choose|k: int| 0 <= k < rest.len() && rest[k] == x;
                    assert(out[k] == x);
                }
            }
        }
    }
}

/// Inserting into a sorted sequence leaves it sorted.
pub proof fn lemma_stable_insert_sorted<T: Ordered>(items: Seq<T>, item: T)
    requires
        non_decreasing(items),
    ensures
        non_decreasing(stable_insert(items, item)),
    decreases items.len(),
{
    let out = stable_insert(items, item);
    if items.len() == 0 || !T::key_before(item.key(), items.last().key()) {
        assert forall|i: int, j: int| 0 <= i < j < out.len() implies !T::key_before(
            (#[trigger] out[j]).key(),
            (#[trigger] out[i]).key(),
        ) by {
            if j == items.len() {
                let last = items.last().key();
                if T::key_before(item.key(), items[i].key()) {
                    if i < items.len() - 1 {
                        T::key_total(items[i].key(), last);
                        if items[i].key() != last {
                            T::key_transitive(item.key(), items[i].key(), last);
                        }
                    }
                }
            }
        }
    } else {
        let init = items.drop_last();
        let rest = stable_insert(init, item);
        let last = items.last();
        lemma_stable_insert_sorted(init, item);
        lemma_stable_insert_contents(init, item);
        assert forall|i: int, j: int| 0 <= i < j < out.len() implies !T::key_before(
            (#[trigger] out[j]).key(),
            (#[trigger] out[i]).key(),
        ) by {
            if j == rest.len() {
                assert(rest.contains(rest[i]));
                if rest[i] == item {
                    if T::key_before(last.key(), item.key()) {
                        T::key_transitive(last.key(), item.key(), last.key());
                        T::key_irreflexive(last.key());
                    }
                } else {
                    let k = choose|k: int| 0 <= k < init.len() && init[k] == rest[i];
                    assert(items[k] == rest[i]);
                    assert(items[items.len() - 1] == last);
                }
            } else {
                assert(out[i] == rest[i] && out[j] == rest[j]);
            }
        }
    }
}

/// A stable sort reorders its input into non-decreasing keys.
pub proof fn lemma_stable_sort<T: Ordered>(items: Seq<T>)
    ensures
        non_decreasing(stable_sort(items)),
        stable_sort(items).len() == items.len(),
        stable_sort(items).to_multiset() =~= items.to_multiset(),
        forall|x: T| #[trigger] stable_sort(items).contains(x) <==> items.contains(x),
    decreases items.len(),
{
    if items.len() > 0 {
        let init = items.drop_last();
        lemma_stable_sort(init);
        lemma_stable_insert_sorted(stable_sort(init), items.last());
        lemma_stable_insert_contents(stable_sort(init), items.last());
        vstd::seq_lib::to_multiset_build(init, items.last());
        assert(items =~= init.push(items.last()));
        assert forall|x: T| #[trigger] stable_sort(items).contains(x) == items.contains(x) by {
            if items.contains(x) && x != items.last() {
                let k = choose|k: int| 0 <= k < items.len() && items[k] == x;
                assert(init[k] == x);
            }
            if init.contains(x) {
                let k = choose|k: int| 0 <= k < init.len() && init[k] == x;
                assert(items[k] == x);
            }
            assert(items[items.len() - 1] == items.last());
        }
    }
}

/// Inserting a new key into a duplicate-free sorted sequence keeps it so.
pub proof fn lemma_stable_insert_distinct<T: Ordered>(items: Seq<T>, item: T)
    requires
        strictly_increasing(items),
        !keys(items).contains(item.key()),
    ensures
        strictly_increasing(stable_insert(items, item)),
    decreases items.len(),
{
    let out = stable_insert(items, item);
    assert forall|i: int| 0 <= i < items.len() implies item.key() != (
    #[trigger] items[i]).key() by {
        assert(keys(items)[i] == items[i].key());
    }
    if items.len() == 0 || !T::key_before(item.key(), items.last().key()) {
        assert forall|i: int, j: int| 0 <= i < j < out.len() implies T::key_before(
            (#[trigger] out[i]).key(),
            (#[trigger] out[j]).key(),
        ) by {
            if j == items.len() {
                let last = items[items.len() - 1].key();
                T::key_total(item.key(), last);
                if i < items.len() - 1 {
                    T::key_transitive(items[i].key(), last, item.key());
                }
            }
        }
    } else {
        let init = items.drop_last();
        let rest = stable_insert(init, item);
        let last = items.last();
        assert forall|k: T::Key| keys(init).contains(k) implies keys(items).contains(k) by {
            let i = choose|i: int| 0 <= i < keys(init).len() && keys(init)[i] == k;
            assert(keys(items)[i] == k);
        }
        lemma_stable_insert_distinct(init, item);
        lemma_stable_insert_contents(init, item);
        assert forall|i: int, j: int| 0 <= i < j < out.len() implies T::key_before(
            (#[trigger] out[i]).key(),
            (#[trigger] out[j]).key(),
        ) by {
            if j == rest.len() {
                assert(rest.contains(rest[i]));
                if rest[i] != item {
                    let k = choose|k: int| 0 <= k < init.len() && init[k] == rest[i];
                    assert(items[k] == rest[i]);
                    assert(items[items.len() - 1] == last);
                }
            } else {
                assert(out[i] == rest[i] && out[j] == rest[j]);
            }
        }
    }
}

/// Adding to a duplicate-free sorted list keeps it so and adds exactly the item's key.
pub proof fn lemma_distinct_insert<T: Ordered>(items: Seq<T>, item: T)
    requires
        strictly_increasing(items),
    ensures
        strictly_increasing(distinct_insert(items, item)),
        forall|x: T| #[trigger]
            distinct_insert(items, item).contains(x) ==> items.contains(x) || x == item,
        forall|k: T::Key| #[trigger]
            keys(distinct_insert(items, item)).contains(k) <==> keys(items).contains(k) || k
                == item.key(),
{
    let out = distinct_insert(items, item);
    if !keys(items).contains(item.key()) {
        lemma_stable_insert_distinct(items, item);
        lemma_stable_insert_contents(items, item);
        assert forall|k: T::Key| #[trigger] keys(out).contains(k) == (keys(items).contains(k) || k
            == item.key()) by {
            if keys(out).contains(k) {
                let i = choose|i: int| 0 <= i < keys(out).len() && keys(out)[i] == k;
                assert(out.contains(out[i]));
                if out[i] != item {
                    let j = choose|j: int| 0 <= j < items.len() && items[j] == out[i];
                    assert(keys(items)[j] == k);
                }
            }
            if keys(items).contains(k) {
                let i = choose|i: int| 0 <= i < keys(items).len() && keys(items)[i] == k;
                assert(items.contains(items[i]));
                assert(out.contains(items[i]));
                let j = choose|j: int| 0 <= j < out.len() && out[j] == items[i];
                assert(keys(out)[j] == k);
            }
            if k == item.key() {
                assert(out.contains(item));
                let j = choose|j: int| 0 <= j < out.len() && out[j] == item;
                assert(keys(out)[j] == k);
            }
        }
    }
}

/// A duplicate-free sort holds each key of its input once, in order.
pub proof fn lemma_distinct_sort<T: Ordered>(items: Seq<T>)
    ensures
        strictly_increasing(distinct_sort(items)),
        forall|x: T| #[trigger] distinct_sort(items).contains(x) ==> items.contains(x),
        forall|k: T::Key| #[trigger]
            keys(distinct_sort(items)).contains(k) <==> keys(items).contains(k),
    decreases items.len(),
{
    if items.len() > 0 {
        let init = items.drop_last();
        lemma_distinct_sort(init);
        lemma_distinct_insert(distinct_sort(init), items.last());
        let out = distinct_sort(items);
        assert forall|x: T| #[trigger] out.contains(x) implies items.contains(x) by {
            if x == items.last() {
                assert(items[items.len() - 1] == x);
            } else {
                assert(distinct_sort(init).contains(x));
                let i = choose|i: int| 0 <= i < init.len() && init[i] == x;
                assert(items[i] == x);
            }
        }
        assert forall|k: T::Key| #[trigger] keys(out).contains(k) == keys(items).contains(k) by {
            if keys(items).contains(k) {
                let i = choose|i: int| 0 <= i < keys(items).len() && keys(items)[i] == k;
                if i < init.len() {
                    assert(keys(init)[i] == k);
                }
            }
            if keys(init).contains(k) {
                let i = choose|i: int| 0 <= i < keys(init).len() && keys(init)[i] == k;
                assert(keys(items)[i] == k);
            }
            assert(keys(items)[items.len() - 1] == items.last().key());
        }
    }
}

/// Two duplicate-free sorted sequences with the same keys list them identically.
pub proof fn lemma_strictly_increasing_unique<T: Ordered>(a: Seq<T>, b: Seq<T>)
    requires
        strictly_increasing(a),
        strictly_increasing(b),
        forall|k: T::Key| #[trigger] keys(a).contains(k) <==> keys(b).contains(k),
    ensures
        keys(a) =~= keys(b),
    decreases a.len(),
{
    if a.len() == 0 {
        if b.len() > 0 {
            assert(keys(b)[0] == b[0].key());
            assert(keys(b).contains(b[0].key()));
            assert(keys(a).contains(b[0].key()));
        }
    } else {
        let x = a.last().key();
        assert(keys(a)[a.len() - 1] == x);
        assert(keys(a).contains(x));
        assert(keys(b).contains(x));
        let at = choose|i: int| 0 <= i < keys(b).len() && keys(b)[i] == x;
        let y = b.last().key();
        assert(keys(b)[b.len() - 1] == y);
        assert(keys(b).contains(y));
        assert(keys(a).contains(y));
        let on = choose|i: int| 0 <= i < keys(a).len() && keys(a)[i] == y;
        if at < b.len() - 1 {
            assert(T::key_before(b[at].key(), b[b.len() - 1].key()));
            if on < a.len() - 1 {
                assert(T::key_before(a[on].key(), a[a.len() - 1].key()));
                T::key_transitive(x, y, x);
            }
            T::key_irreflexive(x);
        }
        assert(x == y);
        let c = a.drop_last();
        let d = b.drop_last();
        assert forall|k: T::Key| #[trigger] keys(c).contains(k) == keys(d).contains(k) by {
            if keys(c).contains(k) {
                let i = choose|i: int| 0 <= i < keys(c).len() && keys(c)[i] == k;
                assert(keys(a)[i] == k);
                assert(keys(a).contains(k));
                assert(keys(b).contains(k));
                let j = choose|j: int| 0 <= j < keys(b).len() && keys(b)[j] == k;
                if j == b.len() - 1 {
                    assert(T::key_before(a[i].key(), a[a.len() - 1].key()));
                    T::key_irreflexive(x);
                }
                assert(keys(d)[j] == k);
            }
            if keys(d).contains(k) {
                let i = choose|i: int| 0 <= i < keys(d).len() && keys(d)[i] == k;
                assert(keys(b)[i] == k);
                assert(keys(b).contains(k));
                assert(keys(a).contains(k));
                let j = choose|j: int| 0 <= j < keys(a).len() && keys(a)[j] == k;
                if j == a.len() - 1 {
                    assert(T::key_before(b[i].key(), b[b.len() - 1].key()));
                    T::key_irreflexive(x);
                }
                assert(keys(c)[j] == k);
            }
        }
        lemma_strictly_increasing_unique(c, d);
        assert(keys(a) =~= keys(c).push(x));
        assert(keys(b) =~= keys(d).push(y));
    }
}

/// The place at which `item` belongs in the first `end` items of a vector.
proof fn lemma_stable_insert_place<T: Ordered>(items: Seq<T>, item: T, at: int)
    requires
        0 <= at <= items.len(),
        at == 0 || !T::key_before(item.key(), items[at - 1].key()),
        forall|i: int| at <= i < items.len() ==> T::key_before(item.key(), (
        #[trigger] items[i]).key()),
    ensures
        stable_insert(items, item) =~= items.insert(at, item),
    decreases items.len(),
{
    if at < items.len() {
        assert(items[items.len() - 1] == items.last());
        lemma_stable_insert_place(items.drop_last(), item, at);
        assert(items.drop_last().insert(at, item).push(items.last()) =~= items.insert(at, item));
    } else {
        assert(items.insert(at, item) =~= items.push(item));
    }
}

/// Inserting and mapping to values of the same keys can change places.
pub proof fn lemma_stable_insert_map<A: Ordered, B: Ordered<Key = A::Key>>(
    items: Seq<A>,
    item: A,
    map: spec_fn(A) -> B,
)
    requires
        forall|a: A| (#[trigger] map(a)).key() == a.key(),
        forall|x: A::Key, y: A::Key| #[trigger] A::key_before(x, y) == B::key_before(x, y),
    ensures
        stable_insert(items, item).map_values(map) == stable_insert(
            items.map_values(map),
            map(item),
        ),
    decreases items.len(),
{
    let mapped = items.map_values(map);
    if items.len() == 0 {
        assert(stable_insert(items, item).map_values(map) =~= mapped.push(map(item)));
    } else {
        assert(mapped.last() == map(items.last()));
        assert(A::key_before(item.key(), items.last().key()) == B::key_before(
            item.key(),
            items.last().key(),
        ));
        if A::key_before(item.key(), items.last().key()) {
            lemma_stable_insert_map(items.drop_last(), item, map);
            assert(mapped.drop_last() =~= items.drop_last().map_values(map));
            assert(stable_insert(items, item).map_values(map) =~= stable_insert(
                items.drop_last(),
                item,
            ).map_values(map).push(map(items.last())));
        } else {
            assert(stable_insert(items, item).map_values(map) =~= mapped.push(map(item)));
        }
    }
}

/// Sorting and mapping to values of the same keys can change places.
pub proof fn lemma_stable_sort_map<A: Ordered, B: Ordered<Key = A::Key>>(
    items: Seq<A>,
    map: spec_fn(A) -> B,
)
    requires
        forall|a: A| (#[trigger] map(a)).key() == a.key(),
        forall|x: A::Key, y: A::Key| #[trigger] A::key_before(x, y) == B::key_before(x, y),
    ensures
        stable_sort(items).map_values(map) == stable_sort(items.map_values(map)),
    decreases items.len(),
{
    let mapped = items.map_values(map);
    if items.len() == 0 {
        assert(stable_sort(items).map_values(map) =~= mapped);
        assert(mapped =~= Seq::empty());
    } else {
        lemma_stable_sort_map(items.drop_last(), map);
        assert(mapped.drop_last() =~= items.drop_last().map_values(map));
        assert(mapped.last() == map(items.last()));
        lemma_stable_insert_map(stable_sort(items.drop_last()), items.last(), map);
    }
}

/// Puts `item` behind everything whose key does not come after its own.
pub fn insert_stable<T: Keyed>(items: &mut Vec<T>, item: T)
    ensures
        final(items)@ == stable_insert(old(items)@, item),
{
    let mut at: usize = items.len();
    while at > 0
        invariant_except_break
            at <= items.len(),
            items@ == old(items)@,
            forall|i: int| at <= i < items.len() ==> T::key_before(item.key(), (
            #[trigger] items@[i]).key()),
        ensures
            at <= items.len(),
            items@ == old(items)@,
            at == 0 || !T::key_before(item.key(), items@[at - 1].key()),
            forall|i: int| at <= i < items.len() ==> T::key_before(item.key(), (
            #[trigger] items@[i]).key()),
        decreases at,
    {
        match item.relate(&items[at - 1]) {
            Relation::Less => {
                at = at - 1;
            },
            Relation::Equal => {
                proof {
                    T::key_irreflexive(item.key());
                }
                break;
            },
            Relation::Greater => {
                proof {
                    let k = items@[at - 1].key();
                    if T::key_before(item.key(), k) {
                        T::key_transitive(item.key(), k, item.key());
                        T::key_irreflexive(item.key());
                    }
                }
                break;
            },
        }
    }
    proof {
        lemma_stable_insert_place(items@, item, at as int);
    }
    items.insert(at, item);
}

/// Whether some item has the key of `item`.
pub fn contains_key<T: Keyed>(items: &Vec<T>, item: &T) -> (found: bool)
    ensures
        found == keys(items@).contains(item.key()),
{
    let mut i: usize = 0;
    while i < items.len()
        invariant
            i <= items.len(),
            forall|j: int| 0 <= j < i ==> (#[trigger] items@[j]).key() != item.key(),
        decreases items.len() - i,
    {
        match items[i].relate(item) {
            Relation::Equal => {
                assert(keys(items@)[i as int] == item.key());
                return true;
            },
            Relation::Less => {
                proof {
                    T::key_irreflexive(item.key());
                }
            },
            Relation::Greater => {
                proof {
                    T::key_irreflexive(item.key());
                }
            },
        }
        i = i + 1;
    }
    false
}

/// Adds `item` to a sorted list, unless its key is there already.
pub fn insert_distinct<T: Keyed>(items: &mut Vec<T>, item: T)
    ensures
        final(items)@ == distinct_insert(old(items)@, item),
{
    if !contains_key(items, &item) {
        insert_stable(items, item);
    }
}

/// Sorts by key; items of one key keep their order.
pub fn sort_stable<T: Keyed>(items: Vec<T>) -> (sorted: Vec<T>)
    ensures
        sorted@ == stable_sort(items@),
{
    let ghost all = items@;
    let mut rest = items;
    let mut reversed: Vec<T> = Vec::new();
    while rest.len() > 0
        invariant
            rest@.len() + reversed@.len() == all.len(),
            rest@ =~= all.take(rest@.len() as int),
            forall|i: int| 0 <= i < reversed@.len() ==> #[trigger] reversed@[i] == all[all.len() - 1
                - i],
        decreases rest.len(),
    {
        let ghost before = rest@;
        match rest.pop() {
            Some(item) => {
                assert(item == before.last());
                reversed.push(item);
            },
            None => {},
        }
    }
    let mut sorted: Vec<T> = Vec::new();
    let ghost mut done: int = 0;
    assert(all.take(0) =~= Seq::<T>::empty());
    while reversed.len() > 0
        invariant
            0 <= done <= all.len(),
            done + reversed@.len() == all.len(),
            forall|i: int| 0 <= i < reversed@.len() ==> #[trigger] reversed@[i] == all[all.len() - 1
                - i],
            sorted@ == stable_sort(all.take(done)),
        decreases reversed.len(),
    {
        let ghost before = reversed@;
        match reversed.pop() {
            Some(item) => {
                proof {
                    assert(item == before[before.len() - 1]);
                    assert(item == all[done]);
                    assert(all.take(done + 1).drop_last() =~= all.take(done));
                    assert(all.take(done + 1).last() == item);
                    done = done + 1;
                }
                insert_stable(&mut sorted, item);
            },
            None => {},
        }
    }
    assert(all.take(all.len() as int) =~= all);
    sorted
}

/// Joins texts with a separator between neighbours.
pub fn join_texts(texts: &Vec<String>, separator: &str) -> (joined: String)
    ensures
        joined@ == text::joined(keys(texts@), separator@),
{
    let mut joined = String::new();
    let mut i: usize = 0;
    assert(keys(texts@).take(0) =~= Seq::<Seq<char>>::empty());
    while i < texts.len()
        invariant
            i <= texts.len(),
            joined@ == text::joined(keys(texts@).take(i as int), separator@),
        decreases texts.len() - i,
    {
        let ghost more = keys(texts@).take(i + 1);
        assert(more.drop_last() =~= keys(texts@).take(i as int));
        assert(more.last() == texts@[i as int]@);
        if i > 0 {
            text::push_text(&mut joined, separator);
        }
        text::push_text(&mut joined, texts[i].as_str());
        proof {
            if i == 0 {
                assert(joined@ =~= more[0]);
            }
        }
        i = i + 1;
    }
    assert(keys(texts@).take(texts@.len() as int) =~= keys(texts@));
    joined
}

impl Ordered for String {
    type Key = Seq<char>;

    open spec fn key(&self) -> Seq<char> {
        self@
    }

    open spec fn key_before(a: Seq<char>, b: Seq<char>) -> bool {
        text::text_before(a, b)
    }

    proof fn key_irreflexive(a: Seq<char>) {
        text::lemma_text_before_irreflexive(a);
    }

    proof fn key_transitive(a: Seq<char>, b: Seq<char>, c: Seq<char>) {
        text::lemma_text_before_transitive(a, b, c);
    }

    proof fn key_total(a: Seq<char>, b: Seq<char>) {
        text::lemma_text_before_total(a, b);
    }
}

impl Keyed for String {
    fn relate(&self, other: &Self) -> (relation: Relation) {
        proof {
            text::lemma_text_before_total(self@, other@);
        }
        text::order_text(self.as_str(), other.as_str())
    }
}

/// Filtering changes nothing where all items pass.
pub proof fn lemma_filter_all<A>(items: Seq<A>, wanted: spec_fn(A) -> bool)
    requires
        forall|i: int| 0 <= i < items.len() ==> wanted(#[trigger] items[i]),
    ensures
        items.filter(wanted) == items,
    decreases items.len(),
{
    reveal(Seq::filter);
    if items.len() > 0 {
        lemma_filter_all(items.drop_last(), wanted);
        assert(wanted(items[items.len() - 1]));
        assert(items =~= items.drop_last().push(items.last()));
    }
}

} // verus!

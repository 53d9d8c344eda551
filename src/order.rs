//! Orderings as the proofs see them: the total order that keys and
//! elements are compared by, and the listing of a map's keys in that order.
use core::cmp::Ordering;
use vstd::laws_cmp::{obeys_cmp, obeys_cmp_ord, obeys_partial_cmp_spec_properties};
use vstd::laws_eq::obeys_eq_spec_properties;
use vstd::prelude::*;
use vstd::relations::{sorted_by, total_ordering};
use vstd::std_specs::cmp::{OrdSpec, PartialEqSpec, PartialOrdSpec};

verus! {

/// `T`'s `Ord` is a total order on its values: the comparison obeys the laws
/// of `Ord`, and two values compare `Equal` only when they are the same value.
pub open spec fn is_total_order<T: Ord>() -> bool {
    &&& obeys_cmp::<T>()
    &&& forall|x: T, y: T| #[trigger] x.cmp_spec(&y) == Ordering::Equal ==> x == y
}

/// `a` does not come after `b`.
pub open spec fn not_after<T: Ord>(a: T, b: T) -> bool {
    a.cmp_spec(&b) != Ordering::Greater
}

/// `not_after` as a relation.
pub open spec fn not_after_rel<T: Ord>() -> spec_fn(T, T) -> bool {
    |a: T, b: T| not_after(a, b)
}

/// Each item of `s` comes strictly before every later one.
pub open spec fn strictly_ascending<T: Ord>(s: Seq<T>) -> bool {
    forall|i: int, j: int|
        #![trigger s[i], s[j]]
        0 <= i < j < s.len() ==> s[i].cmp_spec(&s[j]) == Ordering::Less
}

/// The keys of `m`, in ascending order.
pub open spec fn keys_in_order<K: Ord, V>(m: Map<K, V>) -> Seq<K> {
    m.dom().to_sorted_seq(not_after_rel::<K>())
}

/// The values of `m`, listed in ascending order of their keys.
pub open spec fn values_in_key_order<K: Ord, V>(m: Map<K, V>) -> Seq<V> {
    keys_in_order(m).map_values(|k: K| m[k])
}

/// The laws of `Ord` that the proofs use, stated over `cmp_spec`.
pub proof fn lemma_cmp_laws<T: Ord>()
    requires
        obeys_cmp::<T>(),
    ensures
        forall|x: T, y: T|
            #[trigger] x.cmp_spec(&y) == Ordering::Less <==> y.cmp_spec(&x) == Ordering::Greater,
        forall|x: T, y: T|
            #[trigger] x.cmp_spec(&y) == Ordering::Greater <==> y.cmp_spec(&x) == Ordering::Less,
        forall|x: T| #[trigger] x.cmp_spec(&x) == Ordering::Equal,
        forall|x: T, y: T|
            #[trigger] x.cmp_spec(&y) == Ordering::Equal ==> y.cmp_spec(&x) == Ordering::Equal,
        forall|x: T, y: T, z: T|
            x.cmp_spec(&y) == Ordering::Equal && #[trigger] y.cmp_spec(&z) == Ordering::Equal
                ==> #[trigger] x.cmp_spec(&z) == Ordering::Equal,
        forall|x: T, y: T, z: T|
            x.cmp_spec(&y) == Ordering::Less && #[trigger] y.cmp_spec(&z) == Ordering::Less
                ==> #[trigger] x.cmp_spec(&z) == Ordering::Less,
{
    reveal(obeys_partial_cmp_spec_properties);
    reveal(obeys_eq_spec_properties);
    reveal(obeys_cmp_ord);
    assert forall|x: T, y: T|
        #[trigger] x.cmp_spec(&y) == Ordering::Less <==> y.cmp_spec(&x) == Ordering::Greater by {
        assert(x.partial_cmp_spec(&y) == Some(x.cmp_spec(&y)));
        assert(y.partial_cmp_spec(&x) == Some(y.cmp_spec(&x)));
    }
    assert forall|x: T, y: T|
        #[trigger] x.cmp_spec(&y) == Ordering::Greater <==> y.cmp_spec(&x) == Ordering::Less by {
        assert(x.partial_cmp_spec(&y) == Some(x.cmp_spec(&y)));
        assert(y.partial_cmp_spec(&x) == Some(y.cmp_spec(&x)));
    }
    assert forall|x: T| #[trigger] x.cmp_spec(&x) == Ordering::Equal by {
        assert(x.partial_cmp_spec(&x) == Some(x.cmp_spec(&x)));
    }
    assert forall|x: T, y: T|
        #[trigger] x.cmp_spec(&y) == Ordering::Equal implies y.cmp_spec(&x) == Ordering::Equal by {
        assert(x.partial_cmp_spec(&y) == Some(x.cmp_spec(&y)));
        assert(y.partial_cmp_spec(&x) == Some(y.cmp_spec(&x)));
    }
    assert forall|x: T, y: T, z: T|
        x.cmp_spec(&y) == Ordering::Equal && #[trigger] y.cmp_spec(&z) == Ordering::Equal
            implies #[trigger] x.cmp_spec(&z) == Ordering::Equal by {
        assert(x.partial_cmp_spec(&y) == Some(x.cmp_spec(&y)));
        assert(y.partial_cmp_spec(&z) == Some(y.cmp_spec(&z)));
        assert(x.partial_cmp_spec(&z) == Some(x.cmp_spec(&z)));
        assert(x.eq_spec(&y));
        assert(y.eq_spec(&z));
        assert(x.eq_spec(&z));
    }
    assert forall|x: T, y: T, z: T|
        x.cmp_spec(&y) == Ordering::Less && #[trigger] y.cmp_spec(&z) == Ordering::Less
            implies #[trigger] x.cmp_spec(&z) == Ordering::Less by {
        assert(x.partial_cmp_spec(&y) == Some(x.cmp_spec(&y)));
        assert(y.partial_cmp_spec(&z) == Some(y.cmp_spec(&z)));
        assert(x.partial_cmp_spec(&z) == Some(x.cmp_spec(&z)));
    }
}

/// Under a total order, `not_after` is a total ordering relation.
pub proof fn lemma_not_after_total<T: Ord>()
    requires
        is_total_order::<T>(),
    ensures
        total_ordering(not_after_rel::<T>()),
{
    lemma_cmp_laws::<T>();
    let r = not_after_rel::<T>();
    assert forall|x: T, y: T, z: T| #[trigger] r(x, y) && #[trigger] r(y, z) implies r(x, z) by {
        if x.cmp_spec(&y) == Ordering::Equal {
            assert(x == y);
        } else if y.cmp_spec(&z) == Ordering::Equal {
            assert(y == z);
        }
    }
    assert forall|x: T, y: T| #[trigger] r(x, y) && #[trigger] r(y, x) implies x == y by {
        assert(x.cmp_spec(&y) == Ordering::Equal);
    }
}

/// A set's listing holds each of its members once.
proof fn lemma_to_seq_len<A>(s: Set<A>)
    requires
        s.finite(),
    ensures
        s.to_seq().len() == s.len(),
    decreases s.len(),
{
    if s.len() != 0 {
        let x = s.choose();
        assert(s.contains(x));
        lemma_to_seq_len(s.remove(x));
    }
}

/// A strictly ascending sequence holds no value twice.
pub proof fn lemma_ascending_no_duplicates<T: Ord>(s: Seq<T>)
    requires
        obeys_cmp::<T>(),
        strictly_ascending(s),
    ensures
        s.no_duplicates(),
{
    lemma_cmp_laws::<T>();
    assert forall|i: int, j: int| 0 <= i < s.len() && 0 <= j < s.len() && i != j implies s[i]
        != s[j] by {
        if i < j {
            assert(s[i].cmp_spec(&s[j]) == Ordering::Less);
        } else {
            assert(s[j].cmp_spec(&s[i]) == Ordering::Less);
        }
    }
}

/// The ascending listing of a map's keys holds each key once, and nothing else.
pub proof fn lemma_keys_in_order<K: Ord, V>(m: Map<K, V>)
    requires
        is_total_order::<K>(),
        m.dom().finite(),
    ensures
        keys_in_order(m).to_set() == m.dom(),
        keys_in_order(m).len() == m.dom().len(),
        keys_in_order(m).no_duplicates(),
        strictly_ascending(keys_in_order(m)),
{
    broadcast use vstd::seq_lib::group_to_multiset_ensures;
    broadcast use vstd::multiset::group_multiset_axioms;

    let r = not_after_rel::<K>();
    let listed = m.dom().to_seq();
    let ks = keys_in_order(m);
    lemma_not_after_total::<K>();
    lemma_cmp_laws::<K>();
    lemma_to_seq_len(m.dom());
    m.dom().lemma_to_seq_to_set_id();
    listed.lemma_no_dup_set_cardinality();
    listed.lemma_sort_by_ensures(r);
    listed.lemma_multiset_has_no_duplicates();
    assert forall|x: K| ks.to_multiset().contains(x) implies ks.to_multiset().count(x) == 1 by {
        assert(listed.to_multiset().contains(x));
    }
    ks.lemma_multiset_has_no_duplicates_conv();
    assert forall|x: K| ks.contains(x) <==> m.dom().contains(x) by {
        assert(ks.contains(x) <==> ks.to_multiset().contains(x));
        assert(listed.contains(x) <==> listed.to_multiset().contains(x));
        assert(listed.to_set().contains(x) <==> listed.contains(x));
    }
    assert(ks.to_set() =~= m.dom());
    ks.unique_seq_to_set();
    assert forall|i: int, j: int| #![trigger ks[i], ks[j]]
        0 <= i < j < ks.len() implies ks[i].cmp_spec(&ks[j]) == Ordering::Less by {
        assert(r(ks[i], ks[j]));
        assert(ks[i] != ks[j]);
    }
}

/// Two strictly ascending sequences that hold the same values are equal.
pub proof fn lemma_ascending_unique<T: Ord>(a: Seq<T>, b: Seq<T>)
    requires
        is_total_order::<T>(),
        strictly_ascending(a),
        strictly_ascending(b),
        a.to_set() == b.to_set(),
    ensures
        a == b,
{
    broadcast use vstd::seq_lib::group_to_multiset_ensures;
    broadcast use vstd::multiset::group_multiset_axioms;

    let r = not_after_rel::<T>();
    lemma_not_after_total::<T>();
    lemma_ascending_no_duplicates(a);
    lemma_ascending_no_duplicates(b);
    a.lemma_multiset_has_no_duplicates();
    b.lemma_multiset_has_no_duplicates();
    assert forall|x: T| a.to_multiset().count(x) == b.to_multiset().count(x) by {
        assert(a.contains(x) <==> a.to_set().contains(x));
        assert(b.contains(x) <==> b.to_set().contains(x));
        assert(a.contains(x) <==> a.to_multiset().contains(x));
        assert(b.contains(x) <==> b.to_multiset().contains(x));
    }
    assert(a.to_multiset() =~= b.to_multiset());
    assert(sorted_by(a, r));
    assert(sorted_by(b, r));
    vstd::seq_lib::lemma_sorted_unique(a, b, r);
}

} // verus!

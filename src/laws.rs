//! What holds of decoding and of the two listings taken together.
use crate::decode::{decoded, lemma_decoded_dom};
use crate::encode::{insert_stable, stable_sorted};
use crate::keyed::BTreeVector;
use crate::order::{
    is_total_order, keys_in_order, lemma_ascending_unique, lemma_cmp_laws, lemma_keys_in_order,
    not_after, strictly_ascending, values_in_key_order,
};
use core::cmp::Ordering;
use vstd::laws_cmp::obeys_cmp;
use vstd::prelude::*;
use vstd::std_specs::cmp::OrdSpec;

verus! {

/// No two elements of `s` have the same key.
pub open spec fn distinct_keys<K, V: BTreeVector<K>>(s: Seq<V>) -> bool {
    forall|i: int, j: int|
        #![trigger s[i], s[j]]
        0 <= i < s.len() && 0 <= j < s.len() && i != j ==> s[i].key_of() != s[j].key_of()
}

/// Every value of `m` is stored under its own key.
pub open spec fn stored_by_own_key<K, V: BTreeVector<K>>(m: Map<K, V>) -> bool {
    forall|k: K| #[trigger] m.contains_key(k) ==> m[k].key_of() == k
}

/// The keys of the items of `s`, in the same order.
pub open spec fn keys_of<K, V: BTreeVector<K>>(s: Seq<V>) -> Seq<K> {
    s.map_values(|v: V| v.key_of())
}

/// Whether an item compares equal to `c`.
pub open spec fn ties<V: Ord>(c: V) -> spec_fn(V) -> bool {
    |y: V| y.cmp_spec(&c) == Ordering::Equal
}

/// The items of `s` that compare equal to `c`, in their order in `s`.
pub open spec fn ties_with<V: Ord>(s: Seq<V>, c: V) -> Seq<V> {
    s.filter(ties(c))
}

/// No item of `s` comes after a later one.
pub open spec fn in_order<V: Ord>(s: Seq<V>) -> bool {
    forall|i: int, j: int| #![trigger s[i], s[j]] 0 <= i < j < s.len() ==> not_after(s[i], s[j])
}

/// A decoded map stores each element under that element's own key.
pub proof fn lemma_decoded_own_keys<K, V: BTreeVector<K>>(s: Seq<V>)
    ensures
        stored_by_own_key(decoded::<K, V>(s)),
    decreases s.len(),
{
    if s.len() > 0 {
        lemma_decoded_own_keys::<K, V>(s.drop_last());
    }
}

/// Where keys are distinct, each element is found under its key.
pub proof fn lemma_decoded_distinct<K, V: BTreeVector<K>>(s: Seq<V>)
    requires
        distinct_keys(s),
    ensures
        forall|i: int|
            0 <= i < s.len() ==> decoded::<K, V>(s).contains_key((#[trigger] s[i]).key_of())
                && decoded::<K, V>(s)[s[i].key_of()] == s[i],
    decreases s.len(),
{
    if s.len() > 0 {
        let p = s.drop_last();
        assert(distinct_keys(p)) by {
            assert forall|i: int, j: int|
                #![trigger p[i], p[j]]
                0 <= i < p.len() && 0 <= j < p.len() && i != j implies p[i].key_of()
                != p[j].key_of() by {
                assert(p[i] == s[i] && p[j] == s[j]);
            }
        }
        lemma_decoded_distinct::<K, V>(p);
        assert forall|i: int| 0 <= i < s.len() implies decoded::<K, V>(s).contains_key(
            (#[trigger] s[i]).key_of(),
        ) && decoded::<K, V>(s)[s[i].key_of()] == s[i] by {
            if i < s.len() - 1 {
                assert(p[i] == s[i]);
                assert(s[i].key_of() != s[s.len() - 1].key_of());
            }
        }
    }
}

/// Decoding elements with distinct keys and listing the map in key order
/// gives back the same elements, each once, now in ascending key order.
pub proof fn lemma_round_trip<K: Ord, V: BTreeVector<K>>(s: Seq<V>)
    requires
        is_total_order::<K>(),
        distinct_keys(s),
    ensures
        values_in_key_order(decoded::<K, V>(s)).len() == s.len(),
        values_in_key_order(decoded::<K, V>(s)).to_set() == s.to_set(),
        strictly_ascending(keys_of(values_in_key_order(decoded::<K, V>(s)))),
{
    let m = decoded::<K, V>(s);
    let ks = keys_in_order(m);
    let r = values_in_key_order(m);
    lemma_decoded_dom::<K, V>(s);
    lemma_decoded_own_keys::<K, V>(s);
    lemma_decoded_distinct::<K, V>(s);
    lemma_keys_in_order(m);
    assert forall|i: int| 0 <= i < ks.len() implies m.contains_key(#[trigger] ks[i]) by {
        assert(ks.contains(ks[i]));
    }
    assert(keys_of(r) =~= ks);
    let sk = keys_of(s);
    assert(sk.no_duplicates()) by {
        assert forall|i: int, j: int|
            0 <= i < sk.len() && 0 <= j < sk.len() && i != j implies sk[i] != sk[j] by {
            assert(s[i].key_of() != s[j].key_of());
        }
    }
    assert forall|k: K| sk.to_set().contains(k) <==> m.dom().contains(k) by {
        if m.dom().contains(k) {
            let i = choose|i: int| 0 <= i < s.len() && (#[trigger] s[i]).key_of() == k;
            assert(sk[i] == k);
        }
        if sk.to_set().contains(k) {
            assert(sk.contains(k));
            let i = choose|i: int| 0 <= i < sk.len() && sk[i] == k;
            assert(s[i].key_of() == k);
        }
    }
    assert(sk.to_set() =~= m.dom());
    sk.unique_seq_to_set();
    assert forall|v: V| r.to_set().contains(v) <==> s.to_set().contains(v) by {
        if r.to_set().contains(v) {
            assert(r.contains(v));
            let j = choose|j: int| 0 <= j < r.len() && r[j] == v;
            assert(m.dom().contains(ks[j]));
            let i = choose|i: int| 0 <= i < s.len() && (#[trigger] s[i]).key_of() == ks[j];
            assert(s.contains(s[i]));
        }
        if s.to_set().contains(v) {
            assert(s.contains(v));
            let i = choose|i: int| 0 <= i < s.len() && s[i] == v;
            assert(ks.to_set().contains(s[i].key_of()));
            assert(ks.contains(s[i].key_of()));
            let j = choose|j: int| 0 <= j < ks.len() && ks[j] == s[i].key_of();
            assert(r[j] == v);
            assert(r.contains(v));
        }
    }
    assert(r.to_set() =~= s.to_set());
}

/// Of two elements with the same key, decoding keeps the later one only.
pub proof fn lemma_last_wins<K, V: BTreeVector<K>>(e1: V, e2: V)
    requires
        e1.key_of() == e2.key_of(),
    ensures
        decoded::<K, V>(seq![e1, e2]) == Map::<K, V>::empty().insert(e2.key_of(), e2),
        decoded::<K, V>(seq![e1, e2]).len() == 1,
{
    let s = seq![e1, e2];
    assert(s.drop_last() == seq![e1]);
    assert(seq![e1].drop_last() == Seq::<V>::empty());
    assert(decoded::<K, V>(Seq::<V>::empty()) == Map::<K, V>::empty());
    assert(decoded::<K, V>(seq![e1]) == Map::<K, V>::empty().insert(e1.key_of(), e1));
    assert(decoded::<K, V>(s) =~= Map::<K, V>::empty().insert(e2.key_of(), e2));
    assert(Map::<K, V>::empty().insert(e2.key_of(), e2).dom() =~= set![e2.key_of()]);
}

/// The key-order listing is fixed by the keys' order alone: it is the map's
/// values read along any strictly ascending listing of its keys.
pub proof fn lemma_listing_follows_keys<K: Ord, V>(m: Map<K, V>, ks: Seq<K>)
    requires
        is_total_order::<K>(),
        m.dom().finite(),
        strictly_ascending(ks),
        ks.to_set() == m.dom(),
    ensures
        values_in_key_order(m) == ks.map_values(|k: K| m[k]),
{
    lemma_keys_in_order(m);
    lemma_ascending_unique(ks, keys_in_order(m));
}

/// Decoding the key-order listing of a map whose values sit under their own
/// keys gives back the map.
pub proof fn lemma_decode_listing<K: Ord, V: BTreeVector<K>>(m: Map<K, V>)
    requires
        is_total_order::<K>(),
        m.dom().finite(),
        stored_by_own_key(m),
    ensures
        decoded::<K, V>(values_in_key_order(m)) == m,
{
    let ks = keys_in_order(m);
    let r = values_in_key_order(m);
    lemma_keys_in_order(m);
    assert forall|i: int| 0 <= i < ks.len() implies m.contains_key(#[trigger] ks[i]) by {
        assert(ks.contains(ks[i]));
    }
    assert(keys_of(r) =~= ks);
    assert(distinct_keys(r)) by {
        assert forall|i: int, j: int|
            #![trigger r[i], r[j]]
            0 <= i < r.len() && 0 <= j < r.len() && i != j implies r[i].key_of()
            != r[j].key_of() by {
            assert(m.dom().contains(ks[i]));
            assert(m.dom().contains(ks[j]));
        }
    }
    lemma_decoded_distinct::<K, V>(r);
    lemma_decoded_dom::<K, V>(r);
    let d = decoded::<K, V>(r);
    assert forall|k: K| d.contains_key(k) <==> m.contains_key(k) by {
        if d.contains_key(k) {
            let i = choose|i: int| 0 <= i < r.len() && (#[trigger] r[i]).key_of() == k;
            assert(m.dom().contains(ks[i]));
        }
        if m.contains_key(k) {
            assert(ks.to_set().contains(k));
            assert(ks.contains(k));
            let j = choose|j: int| 0 <= j < ks.len() && ks[j] == k;
            assert(r[j].key_of() == k);
        }
    }
    assert forall|k: K| #[trigger] d.contains_key(k) implies d[k] == m[k] by {
        let i = choose|i: int| 0 <= i < r.len() && (#[trigger] r[i]).key_of() == k;
        assert(m.dom().contains(ks[i]));
    }
    assert(d =~= m);
}

/// Inserting `x` adds it to the items that tie with `c` exactly when it ties
/// with `c`, and then after all of them.
proof fn lemma_insert_stable_ties<V: Ord>(s: Seq<V>, x: V, c: V)
    requires
        obeys_cmp::<V>(),
    ensures
        ties_with(insert_stable(s, x), c) == if x.cmp_spec(&c) == Ordering::Equal {
            ties_with(s, c).push(x)
        } else {
            ties_with(s, c)
        },
    decreases s.len(),
{
    lemma_cmp_laws::<V>();
    if s.len() > 0 && s.last().cmp_spec(&x) == Ordering::Greater {
        let p = s.drop_last();
        let t = insert_stable(p, x);
        lemma_insert_stable_ties(p, x, c);
        t.lemma_filter_push(s.last(), ties(c));
        p.lemma_filter_push(s.last(), ties(c));
        assert(p.push(s.last()) == s);
        if x.cmp_spec(&c) == Ordering::Equal {
            assert(s.last().cmp_spec(&c) != Ordering::Equal);
        }
    } else {
        s.lemma_filter_push(x, ties(c));
    }
}

/// Sorting is stable: the items that compare equal to any `c` come out in the
/// order in which they went in.
pub proof fn lemma_sort_keeps_ties<V: Ord>(s: Seq<V>, c: V)
    requires
        obeys_cmp::<V>(),
    ensures
        ties_with(stable_sorted(s), c) == ties_with(s, c),
    decreases s.len(),
{
    if s.len() > 0 {
        lemma_sort_keeps_ties(s.drop_last(), c);
        lemma_insert_stable_ties(stable_sorted(s.drop_last()), s.last(), c);
        s.drop_last().lemma_filter_push(s.last(), ties(c));
        assert(s.drop_last().push(s.last()) == s);
    }
}

/// Inserting adds `x` to the items and keeps them in order.
proof fn lemma_insert_stable_sorted<V: Ord>(s: Seq<V>, x: V)
    requires
        obeys_cmp::<V>(),
        in_order(s),
    ensures
        insert_stable(s, x).to_multiset() == s.to_multiset().insert(x),
        in_order(insert_stable(s, x)),
        forall|y: V| #[trigger]
            insert_stable(s, x).contains(y) ==> y == x || s.contains(y),
    decreases s.len(),
{
    broadcast use vstd::seq_lib::group_to_multiset_ensures;
    broadcast use vstd::multiset::group_multiset_axioms;

    lemma_cmp_laws::<V>();
    if s.len() > 0 && s.last().cmp_spec(&x) == Ordering::Greater {
        let p = s.drop_last();
        let last = s.last();
        let t = insert_stable(p, x);
        assert(in_order(p));
        lemma_insert_stable_sorted(p, x);
        assert(p.push(last) == s);
        assert forall|y: V| #[trigger] t.push(last).contains(y) implies y == x || s.contains(y) by {
            if y != last {
                assert(t.contains(y));
                if y != x {
                    let i = choose|i: int| 0 <= i < p.len() && p[i] == y;
                    assert(s[i] == y);
                }
            }
        }
        assert forall|i: int, j: int|
            #![trigger t.push(last)[i], t.push(last)[j]]
            0 <= i < j < t.len() + 1 implies not_after(t.push(last)[i], t.push(last)[j]) by {
            if j == t.len() {
                let y = t[i];
                assert(t.contains(y));
                if y != x {
                    let k = choose|k: int| 0 <= k < p.len() && p[k] == y;
                    assert(s[k] == y);
                    assert(not_after(s[k], s[s.len() - 1]));
                }
            } else {
                assert(t.push(last)[i] == t[i] && t.push(last)[j] == t[j]);
            }
        }
    } else {
        assert forall|i: int, j: int|
            #![trigger s.push(x)[i], s.push(x)[j]]
            0 <= i < j < s.len() + 1 implies not_after(s.push(x)[i], s.push(x)[j]) by {
            if j == s.len() {
                if i < s.len() - 1 {
                    assert(not_after(s[i], s[s.len() - 1]));
                }
            } else {
                assert(s.push(x)[i] == s[i] && s.push(x)[j] == s[j]);
            }
        }
        assert forall|y: V| #[trigger] s.push(x).contains(y) implies y == x || s.contains(y) by {
            if y != x {
                let i = choose|i: int| 0 <= i < s.len() + 1 && s.push(x)[i] == y;
                assert(s[i] == y);
            }
        }
    }
}

/// Sorting puts the items in order and keeps each of them, as often as it
/// occurs.
pub proof fn lemma_sorted_is_ordered_permutation<V: Ord>(s: Seq<V>)
    requires
        obeys_cmp::<V>(),
    ensures
        in_order(stable_sorted(s)),
        stable_sorted(s).to_multiset() == s.to_multiset(),
    decreases s.len(),
{
    broadcast use vstd::seq_lib::group_to_multiset_ensures;

    if s.len() > 0 {
        lemma_sorted_is_ordered_permutation(s.drop_last());
        lemma_insert_stable_sorted(stable_sorted(s.drop_last()), s.last());
        assert(s.drop_last().push(s.last()) == s);
    }
}

} // verus!

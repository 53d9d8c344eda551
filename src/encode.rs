//! Listing an ordered map's values, in key order or sorted by the values.
use crate::order::{
    is_total_order, keys_in_order, lemma_ascending_unique, lemma_keys_in_order,
    strictly_ascending, values_in_key_order,
};
use core::cmp::Ordering;
use std::collections::BTreeMap;
use vstd::laws_cmp::{obeys_cmp, obeys_cmp_ord};
use vstd::prelude::*;
use vstd::std_specs::btree::increasing_seq;
use vstd::std_specs::cmp::OrdSpec;

verus! {

/// `x` placed into `s` after the last item that does not compare greater than
/// it: the step of a stable insertion sort.
pub open spec fn insert_stable<V: Ord>(s: Seq<V>, x: V) -> Seq<V>
    decreases s.len(),
{
    if s.len() > 0 && s.last().cmp_spec(&x) == Ordering::Greater {
        insert_stable(s.drop_last(), x).push(s.last())
    } else {
        s.push(x)
    }
}

/// `s` sorted by its items' own order, stably: items that compare equal keep
/// their relative order.
pub open spec fn stable_sorted<V: Ord>(s: Seq<V>) -> Seq<V>
    decreases s.len(),
{
    if s.len() == 0 {
        s
    } else {
        insert_stable(stable_sorted(s.drop_last()), s.last())
    }
}

/// Inserting adds one item.
pub proof fn lemma_insert_stable_len<V: Ord>(s: Seq<V>, x: V)
    ensures
        insert_stable(s, x).len() == s.len() + 1,
    decreases s.len(),
{
    if s.len() > 0 && s.last().cmp_spec(&x) == Ordering::Greater {
        lemma_insert_stable_len(s.drop_last(), x);
    }
}

/// Sorting keeps the length.
pub proof fn lemma_stable_sorted_len<V: Ord>(s: Seq<V>)
    ensures
        stable_sorted(s).len() == s.len(),
    decreases s.len(),
{
    if s.len() > 0 {
        lemma_stable_sorted_len(s.drop_last());
        lemma_insert_stable_len(stable_sorted(s.drop_last()), s.last());
    }
}

/// Any ascending listing of a map's keys is the listing `keys_in_order`.
proof fn lemma_key_listing_unique<K: Ord, V>(m: Map<K, V>)
    requires
        is_total_order::<K>(),
        m.dom().finite(),
    ensures
        forall|ks: Seq<K>| #[trigger]
            increasing_seq(ks) && ks.to_set() == m.dom() ==> ks == keys_in_order(m),
{
    lemma_keys_in_order(m);
    assert forall|ks: Seq<K>| #[trigger]
        increasing_seq(ks) && ks.to_set() == m.dom() implies ks == keys_in_order(m) by {
        assert(strictly_ascending(ks));
        lemma_ascending_unique(ks, keys_in_order(m));
    }
}

/// Lists the values of `map` in ascending order of their keys.
pub fn btreemap_values<'a, K: Ord, V>(map: &'a BTreeMap<K, V>) -> (values: Vec<&'a V>)
    requires
        is_total_order::<K>(),
    ensures
        values@.unref() == values_in_key_order(map@),
{
    proof {
        lemma_key_listing_unique(map@);
    }
    let mut out: Vec<&'a V> = Vec::new();
    for v in it: map.values()
        invariant
            out@ == it.seq().take(it.index()),
    {
        proof {
            assert(it.seq().take(it.index() + 1) == out@.push(v));
        }
        out.push(v);
    }
    assert(out@.unref() =~= values_in_key_order(map@));
    out
}

/// Sorts `values` by the order of the values they refer to, stably.
fn sort_stable<V: Ord>(values: &mut Vec<&V>)
    requires
        obeys_cmp::<V>(),
    ensures
        final(values)@.unref() == stable_sorted(old(values)@.unref()),
{
    proof {
        reveal(obeys_cmp_ord);
    }
    let ghost orig = values@.unref();
    let n = values.len();
    let mut i: usize = 0;
    while i < n
        invariant
            V::obeys_cmp_spec(),
            n == values.len(),
            n == orig.len(),
            i <= n,
            values@.unref() == stable_sorted(orig.take(i as int)) + orig.skip(i as int),
        decreases n - i,
    {
        let ghost p = stable_sorted(orig.take(i as int));
        let ghost x = orig[i as int];
        let ghost rest = orig.skip(i + 1);
        proof {
            lemma_stable_sorted_len(orig.take(i as int));
            assert(orig.take(i + 1).drop_last() == orig.take(i as int));
            assert(orig.take(i + 1).last() == x);
            assert(orig.skip(i as int) == seq![x] + rest);
            assert(p.take(i as int) == p);
            assert(p.subrange(i as int, i as int) == Seq::<V>::empty());
            assert(values@.unref() == p.take(i as int).push(x) + p.subrange(i as int, i as int)
                + rest);
        }
        let mut j: usize = i;
        loop
            invariant
                V::obeys_cmp_spec(),
                n == values.len(),
                i < n,
                j <= i,
                p.len() == i,
                values@.unref() == p.take(j as int).push(x) + p.subrange(j as int, i as int)
                    + rest,
                insert_stable(p, x) == insert_stable(p.take(j as int), x) + p.subrange(
                    j as int,
                    i as int,
                ),
            ensures
                values@.unref() == insert_stable(p, x) + rest,
            decreases j,
        {
            if j == 0 {
                proof {
                    assert(p.take(0) == Seq::<V>::empty());
                    assert(insert_stable(p.take(0), x) == seq![x]);
                    assert(p.take(0).push(x) == seq![x]);
                }
                break;
            }
            let a: &V = values[j - 1];
            let b: &V = values[j];
            proof {
                assert(values@.unref()[j - 1] == *a);
                assert(values@.unref()[j as int] == *b);
                assert(*a == p[j - 1]);
                assert(*b == x);
                assert(p.take(j as int).drop_last() == p.take(j - 1));
                assert(p.take(j as int).last() == p[j - 1]);
            }
            match a.cmp(b) {
                Ordering::Greater => {
                    let ghost before = values@.unref();
                    values[j - 1] = b;
                    values[j] = a;
                    proof {
                        assert(values@.unref() =~= before.update(j - 1, x).update(
                            j as int,
                            p[j - 1],
                        ));
                        assert(values@.unref() =~= p.take(j - 1).push(x) + p.subrange(
                            j - 1,
                            i as int,
                        ) + rest);
                        assert(p.subrange(j - 1, i as int) =~= seq![p[j - 1]] + p.subrange(
                            j as int,
                            i as int,
                        ));
                        assert(insert_stable(p.take(j as int), x) == insert_stable(
                            p.take(j - 1),
                            x,
                        ).push(p[j - 1]));
                        assert(insert_stable(p, x) =~= insert_stable(p.take(j - 1), x)
                            + p.subrange(j - 1, i as int));
                    }
                    j = j - 1;
                },
                _ => {
                    proof {
                        assert(insert_stable(p.take(j as int), x) == p.take(j as int).push(x));
                    }
                    break;
                },
            }
        }
        proof {
            assert(stable_sorted(orig.take(i + 1)) == insert_stable(p, x));
            assert(orig.skip(i + 1) == rest);
        }
        i = i + 1;
    }
    proof {
        assert(orig.take(n as int) == orig);
        assert(orig.skip(n as int) =~= Seq::<V>::empty());
        assert(values@.unref() =~= stable_sorted(orig));
    }
}

/// Lists the values of `map` sorted by their own order; values that compare
/// equal keep the ascending order of their keys.
pub fn btreemap_sorted_values<'a, K: Ord, V: Ord>(map: &'a BTreeMap<K, V>) -> (values: Vec<
    &'a V,
>)
    requires
        is_total_order::<K>(),
        obeys_cmp::<V>(),
    ensures
        values@.unref() == stable_sorted(values_in_key_order(map@)),
{
    let mut values = btreemap_values(map);
    sort_stable(&mut values);
    values
}

} // verus!

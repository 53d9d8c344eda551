//! Building an ordered map from a sequence of elements.
use crate::keyed::BTreeVector;
use std::collections::BTreeMap;
use vstd::laws_cmp::obeys_cmp;
use vstd::prelude::*;

verus! {

/// The map that a sequence of elements stands for: each element, from first
/// to last, is stored under its key, so a later element replaces an earlier
/// one with the same key.
pub open spec fn decoded<K, V: BTreeVector<K>>(s: Seq<V>) -> Map<K, V>
    decreases s.len(),
{
    if s.len() == 0 {
        Map::empty()
    } else {
        decoded::<K, V>(s.drop_last()).insert(s.last().key_of(), s.last())
    }
}

/// The keys of the decoded map are the keys of the elements, and it has no
/// more entries than the sequence has elements.
pub proof fn lemma_decoded_dom<K, V: BTreeVector<K>>(s: Seq<V>)
    ensures
        decoded::<K, V>(s).dom().finite(),
        decoded::<K, V>(s).dom().len() <= s.len(),
        forall|k: K|
            decoded::<K, V>(s).contains_key(k) <==> exists|i: int|
                0 <= i < s.len() && (#[trigger] s[i]).key_of() == k,
    decreases s.len(),
{
    if s.len() > 0 {
        let p = s.drop_last();
        lemma_decoded_dom::<K, V>(p);
        assert forall|k: K|
            decoded::<K, V>(s).contains_key(k) <==> exists|i: int|
                0 <= i < s.len() && (#[trigger] s[i]).key_of() == k by {
            if decoded::<K, V>(s).contains_key(k) && k != s.last().key_of() {
                let i = choose|i: int| 0 <= i < p.len() && (#[trigger] p[i]).key_of() == k;
                assert(s[i] == p[i]);
            }
            if exists|i: int| 0 <= i < s.len() && (#[trigger] s[i]).key_of() == k {
                let i = choose|i: int| 0 <= i < s.len() && (#[trigger] s[i]).key_of() == k;
                if i < s.len() - 1 {
                    assert(p[i] == s[i]);
                }
            }
        }
    }
}

/// Builds the map of `vector`'s elements by their keys; where two elements
/// share a key, the later one is kept.
pub fn btree_from_vector<K: Ord, V: BTreeVector<K>>(vector: Vec<V>) -> (map: BTreeMap<K, V>)
    requires
        obeys_cmp::<K>(),
    ensures
        map@ == decoded::<K, V>(vector@),
        map@.len() <= vector@.len(),
{
    let ghost s = vector@;
    let mut ret: BTreeMap<K, V> = BTreeMap::new();
    for element in it: vector
        invariant
            obeys_cmp::<K>(),
            it.seq() == s,
            ret@ == decoded::<K, V>(s.take(it.index())),
    {
        let ghost i = it.index();
        proof {
            assert(s.take(i + 1).drop_last() == s.take(i));
            assert(element == s[i]);
            assert(s.take(i + 1).last() == s[i]);
        }
        let key = element.key();
        ret.insert(key, element);
        assert(ret@ == decoded::<K, V>(s.take(i + 1)));
    }
    proof {
        assert(s.take(s.len() as int) == s);
        lemma_decoded_dom::<K, V>(s);
    }
    ret
}

} // verus!

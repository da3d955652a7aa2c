//! The order in which an ordered map hands out its keys, in the terms of
//! plain integers.

use vstd::laws_cmp::obeys_cmp;
use vstd::prelude::*;
use vstd::std_specs::btree::increasing_seq;
use vstd::std_specs::cmp::OrdSpec;

verus! {

/// In an increasing sequence an earlier item compares less than a later one.
pub proof fn lemma_increasing_pair<K: Ord>(s: Seq<K>, i: int, j: int)
    requires
        obeys_cmp::<K>(),
        increasing_seq(s),
        0 <= i < j < s.len(),
    ensures
        s[i].cmp_spec(&s[j]) is Less,
{
}

/// The keys of an ordered map, taken in the map's order, are its domain in
/// strictly ascending order.
pub proof fn lemma_keys_ascending(keys: Seq<&u32>, ids: Seq<u32>, domain: Set<u32>)
    requires
        increasing_seq(keys),
        keys.unref().to_set() == domain,
        ids == keys.map_values(|key: &u32| *key),
    ensures
        forall|id: u32| ids.contains(id) <==> domain.contains(id),
        forall|i: int, j: int| 0 <= i < j < ids.len() ==> ids[i] < ids[j],
{
    assert(ids =~= keys.unref());
    assert forall|i: int, j: int| 0 <= i < j < ids.len() implies ids[i] < ids[j] by {
        lemma_increasing_pair(keys, i, j);
        assert(ids[i] == *keys[i]);
    }
    assert forall|id: u32| ids.contains(id) <==> domain.contains(id) by {
        assert(ids.to_set().contains(id) <==> ids.contains(id));
    }
}

} // verus!

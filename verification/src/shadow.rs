//! Which objects between a point and a light cast a shadow on the point.
//!
//! Walking from the point towards the light, every object met attenuates the
//! light, but only until an object is met a second time: from there on the
//! intersections belong to objects already counted.

use std::collections::HashSet;
use vstd::prelude::*;

verus! {

broadcast use vstd::std_specs::hash::group_hash_axioms;

/// The number of leading intersections of `ids` that belong to objects not
/// met before: the length of the longest prefix of `ids` in which no object
/// occurs twice.
pub fn distinct_prefix_len(ids: &Vec<u64>) -> (k: usize)
    ensures
        k <= ids@.len(),
        ids@.take(k as int).no_duplicates(),
        k < ids@.len() ==> ids@.take(k as int).contains(ids@[k as int]),
{
    let mut seen: HashSet<u64> = HashSet::new();
    let mut i: usize = 0;
    while i < ids.len()
        invariant
            i <= ids@.len(),
            ids@.take(i as int).no_duplicates(),
            forall|x: u64| seen@.contains(x) <==> ids@.take(i as int).contains(x),
        decreases ids@.len() - i,
    {
        let fresh = seen.insert(ids[i]);
        if !fresh {
            return i;
        }
        proof {
            let t = ids@.take(i + 1);
            assert(t =~= ids@.take(i as int).push(ids@[i as int]));
            assert forall|x: u64| seen@.contains(x) <==> t.contains(x) by {
                assert(t[i as int] == ids@[i as int]);
                if t.contains(x) {
                    let j = choose|j: int| 0 <= j < t.len() && t[j] == x;
                    if j < i {
                        assert(ids@.take(i as int)[j] == x);
                    }
                }
                if ids@.take(i as int).contains(x) {
                    let j = choose|j: int| 0 <= j < i && ids@.take(i as int)[j] == x;
                    assert(t[j] == x);
                }
            }
        }
        i = i + 1;
    }
    assert(ids@.take(i as int) =~= ids@);
    i
}

} // verus!

//! Which objects a ray is inside of as it crosses surfaces: the bookkeeping
//! that decides between which two materials a ray refracts.
//!
//! Objects are named by identifiers; each crossing of an object's surface
//! either enters the object or leaves it.

use vstd::prelude::*;

verus! {

/// The objects a ray is inside of after crossing the surfaces of `ids` in
/// order, from the one it entered first to the one it entered last: crossing
/// the surface of an object it is inside of leaves that object, crossing any
/// other surface enters that object.
pub open spec fn containers(ids: Seq<u64>) -> Seq<u64>
    decreases ids.len(),
{
    if ids.len() == 0 {
        Seq::empty()
    } else {
        let c = containers(ids.drop_last());
        let o = ids.last();
        if c.contains(o) {
            c.remove_value(o)
        } else {
            c.push(o)
        }
    }
}

/// The last element of `s`, if any.
pub open spec fn last_of(s: Seq<u64>) -> Option<u64> {
    if s.len() == 0 {
        None
    } else {
        Some(s.last())
    }
}

/// The number of times `o` occurs in `ids`.
pub open spec fn occurrences(ids: Seq<u64>, o: u64) -> nat
    decreases ids.len(),
{
    if ids.len() == 0 {
        0
    } else {
        occurrences(ids.drop_last(), o) + if ids.last() == o {
            1nat
        } else {
            0nat
        }
    }
}

/// The index of the first occurrence of `o` in `c`, if any.
fn position(c: &Vec<u64>, o: u64) -> (r: Option<usize>)
    ensures
        r is None <==> !c@.contains(o),
        r matches Some(i) ==> i < c@.len() && c@[i as int] == o && forall|j: int|
            0 <= j < i ==> c@[j] != o,
{
    let mut i: usize = 0;
    while i < c.len()
        invariant
            i <= c@.len(),
            forall|j: int| 0 <= j < i ==> c@[j] != o,
        decreases c@.len() - i,
    {
        if c[i] == o {
            return Some(i);
        }
        i = i + 1;
    }
    None
}

/// Crosses the surface of object `o`: leaves it when `c` holds it, enters it
/// otherwise.
fn cross(c: &mut Vec<u64>, o: u64)
    ensures
        final(c)@ == if old(c)@.contains(o) {
            old(c)@.remove_value(o)
        } else {
            old(c)@.push(o)
        },
{
    match position(c, o) {
        Some(i) => {
            proof {
                old(c)@.index_of_first_ensures(o);
                let f = old(c)@.index_of_first(o).unwrap();
                assert(f == i as int);
            }
            c.remove(i);
        },
        None => {
            c.push(o);
        },
    }
}

/// The objects the ray is inside of just before and just after it crosses
/// the surface of the hit: the first intersection of `ids` marked in
/// `is_hit`. Returns the innermost object on each side of that surface, or
/// `(None, None)` when no intersection is marked.
pub fn refraction_objects(ids: &Vec<u64>, is_hit: &Vec<bool>) -> (r: (Option<u64>, Option<u64>))
    requires
        ids@.len() == is_hit@.len(),
    ensures
        (forall|k: int| 0 <= k < is_hit@.len() ==> !is_hit@[k]) ==> r == (
        None::<u64>,
        None::<u64>,
        ),
        forall|k: int|
            0 <= k < is_hit@.len() && #[trigger] is_hit@[k] && (forall|j: int|
                0 <= j < k ==> !is_hit@[j]) ==> r == (
            last_of(containers(ids@.take(k))),
            last_of(containers(ids@.take(k + 1))),
            ),
{
    let mut c: Vec<u64> = Vec::new();
    let mut i: usize = 0;
    while i < ids.len()
        invariant
            ids@.len() == is_hit@.len(),
            i <= ids@.len(),
            c@ == containers(ids@.take(i as int)),
            forall|j: int| 0 <= j < i ==> !is_hit@[j],
        decreases ids@.len() - i,
    {
        let before = if c.len() == 0 {
            None
        } else {
            Some(c[c.len() - 1])
        };
        proof {
            assert(ids@.take(i + 1).drop_last() =~= ids@.take(i as int));
        }
        cross(&mut c, ids[i]);
        if is_hit[i] {
            let after = if c.len() == 0 {
                None
            } else {
                Some(c[c.len() - 1])
            };
            return (before, after);
        }
        i = i + 1;
    }
    (None, None)
}

/// The ray is inside an object exactly when it has crossed that object's
/// surface an odd number of times.
pub proof fn lemma_inside_iff_odd_crossings(ids: Seq<u64>, o: u64)
    ensures
        containers(ids).contains(o) <==> occurrences(ids, o) % 2 == 1,
        containers(ids).no_duplicates(),
    decreases ids.len(),
{
    if ids.len() > 0 {
        let rest = ids.drop_last();
        lemma_inside_iff_odd_crossings(rest, o);
        lemma_inside_iff_odd_crossings(rest, ids.last());
        let c = containers(rest);
        let x = ids.last();
        if c.contains(x) {
            c.index_of_first_ensures(x);
            let f = c.index_of_first(x).unwrap();
            let d = c.remove(f);
            assert(d.no_duplicates()) by {
                assert forall|i: int, j: int| 0 <= i < d.len() && 0 <= j < d.len() && i != j implies d[i]
                    != d[j] by {
                    let ii = if i < f { i } else { i + 1 };
                    let jj = if j < f { j } else { j + 1 };
                    assert(d[i] == c[ii]);
                    assert(d[j] == c[jj]);
                }
            }
            if o == x {
                if d.contains(o) {
                    let k = choose|k: int| 0 <= k < d.len() && d[k] == o;
                    let kk = if k < f { k } else { k + 1 };
                    assert(c[kk] == o);
                    assert(c[f] == o);
                    assert(kk != f);
                    assert(false);
                }
                assert(!containers(ids).contains(o));
            } else {
                if c.contains(o) {
                    let k = choose|k: int| 0 <= k < c.len() && c[k] == o;
                    assert(k != f);
                    let kd = if k < f { k } else { k - 1 };
                    assert(d[kd] == o);
                }
                if d.contains(o) {
                    let k = choose|k: int| 0 <= k < d.len() && d[k] == o;
                    let kk = if k < f { k } else { k + 1 };
                    assert(c[kk] == o);
                }
            }
        } else {
            let d = c.push(x);
            assert(d.no_duplicates()) by {
                assert forall|i: int, j: int| 0 <= i < d.len() && 0 <= j < d.len() && i != j implies d[i]
                    != d[j] by {
                    if i < c.len() && j < c.len() {
                    } else if i < c.len() {
                        assert(c[i] == d[i]);
                    } else {
                        assert(c[j] == d[j]);
                    }
                }
            }
            if o != x {
                if d.contains(o) {
                    let k = choose|k: int| 0 <= k < d.len() && d[k] == o;
                    assert(c[k] == o);
                }
                if c.contains(o) {
                    let k = choose|k: int| 0 <= k < c.len() && c[k] == o;
                    assert(d[k] == o);
                }
            } else {
                assert(d[c.len() as int] == o);
            }
        }
    }
}

/// Crossing the surface of an object the ray is inside of leaves exactly that
/// object: the other objects stay, in the order they were entered, so the
/// innermost object is unchanged unless it is the one left. Crossing any
/// other surface enters that object, which becomes the innermost.
pub proof fn lemma_crossing_leaves_or_enters(ids: Seq<u64>, o: u64)
    ensures
        forall|f: int|
            0 <= f < containers(ids).len() && containers(ids)[f] == o ==> containers(ids.push(o))
                == containers(ids).take(f) + containers(ids).skip(f + 1),
        containers(ids).contains(o) && containers(ids).last() != o ==> containers(
            ids.push(o),
        ).len() > 0 && containers(ids.push(o)).last() == containers(ids).last(),
        !containers(ids).contains(o) ==> containers(ids.push(o)) == containers(ids).push(o),
{
    let c = containers(ids);
    assert(ids.push(o).drop_last() =~= ids);
    assert(ids.push(o).last() == o);
    lemma_inside_iff_odd_crossings(ids, o);
    if c.contains(o) {
        c.index_of_first_ensures(o);
        let g = c.index_of_first(o).unwrap();
        let d = containers(ids.push(o));
        assert(d == c.remove(g));
        assert forall|f: int| 0 <= f < c.len() && c[f] == o implies d == c.take(f) + c.skip(f + 1) by {
            if f != g {
                assert(c[f] == c[g]);
                assert(false);
            }
            assert(d =~= c.take(f) + c.skip(f + 1));
        }
        if c.last() != o {
            assert(g != c.len() - 1);
            assert(d.len() == c.len() - 1);
            assert(d[d.len() - 1] == c[c.len() - 1]);
        }
    }
}

} // verus!

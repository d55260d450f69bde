//! Constructive solid geometry: deciding which intersections of two child
//! objects belong to the surface of their combination.

use vstd::prelude::*;

verus! {

/// How the two children of a CSG object are combined.
#[derive(Debug, Clone, Copy, PartialEq, Eq, Structural)]
pub enum CsgOperation {
    Union,
    Intersection,
    Difference,
}

impl CsgOperation {
    /// Whether a hit on one child belongs to the combined surface, given
    /// which child was hit and whether the ray is currently inside each child.
    pub open spec fn allows(self, is_left_hit: bool, is_in_left: bool, is_in_right: bool) -> bool {
        match self {
            CsgOperation::Union => (is_left_hit && !is_in_right) || (!is_left_hit && !is_in_left),
            CsgOperation::Intersection => (is_left_hit && is_in_right) || (!is_left_hit
                && is_in_left),
            CsgOperation::Difference => (is_left_hit && !is_in_right) || (!is_left_hit
                && is_in_left),
        }
    }

    pub fn intersection_allowed(&self, is_left_hit: bool, is_in_left: bool, is_in_right: bool) -> (r:
        bool)
        ensures
            r == self.allows(is_left_hit, is_in_left, is_in_right),
    {
        match self {
            CsgOperation::Union => (is_left_hit && !is_in_right) || (!is_left_hit && !is_in_left),
            CsgOperation::Intersection => (is_left_hit && is_in_right) || (!is_left_hit
                && is_in_left),
            CsgOperation::Difference => (is_left_hit && !is_in_right) || (!is_left_hit
                && is_in_left),
        }
    }
}

/// A shape built from two children and an operation combining them.
pub struct Csg<T> {
    pub left: T,
    pub right: T,
    pub operation: CsgOperation,
}

/// Which child of a CSG object an intersection belongs to.
#[derive(Debug, Clone, Copy, PartialEq, Eq, Structural)]
pub enum Side {
    Left,
    Right,
}

/// An intersection tagged with the child it came from.
pub struct SidedIntersection<I> {
    pub i: I,
    pub side: Side,
}

/// The number of intersections in `xs` that lie on the given side.
pub open spec fn crossings<I>(xs: Seq<SidedIntersection<I>>, side: Side) -> nat
    decreases xs.len(),
{
    if xs.len() == 0 {
        0
    } else {
        crossings(xs.drop_last(), side) + if xs.last().side == side {
            1nat
        } else {
            0nat
        }
    }
}

/// Whether the ray is inside the child on `side` after passing the
/// intersections `xs`: it has crossed that child's surface an odd number of times.
pub open spec fn inside<I>(xs: Seq<SidedIntersection<I>>, side: Side) -> bool {
    crossings(xs, side) % 2 == 1
}

/// Whether the intersection at index `k` of the ordered list `xs` is kept by `op`.
pub open spec fn kept<I>(op: CsgOperation, xs: Seq<SidedIntersection<I>>, k: int) -> bool {
    op.allows(
        xs[k].side == Side::Left,
        inside(xs.take(k), Side::Left),
        inside(xs.take(k), Side::Right),
    )
}

/// The intersections of `xs` that `op` keeps, in the order they come in.
pub open spec fn filtered<I>(op: CsgOperation, xs: Seq<SidedIntersection<I>>) -> Seq<I>
    decreases xs.len(),
{
    if xs.len() == 0 {
        Seq::empty()
    } else {
        let rest = filtered(op, xs.drop_last());
        if kept(op, xs, xs.len() - 1) {
            rest.push(xs.last().i)
        } else {
            rest
        }
    }
}

impl<T> Csg<T> {
    /// Keeps the intersections, sorted along the ray, that lie on the surface
    /// of the combined shape.
    pub fn filter_intersections<I>(&self, xs: Vec<SidedIntersection<I>>) -> (r: Vec<I>)
        ensures
            r@ == filtered(self.operation, xs@),
    {
        let ghost all = xs@;
        let mut is_in_left = false;
        let mut is_in_right = false;
        let mut out: Vec<I> = Vec::new();
        for x in it: xs.into_iter()
            invariant
                it.seq() == all,
                is_in_left == inside(all.take(it.index() as int), Side::Left),
                is_in_right == inside(all.take(it.index() as int), Side::Right),
                out@ == filtered(self.operation, all.take(it.index() as int)),
        {
            let ghost k = it.index() as int;
            proof {
                assert(all.take(k + 1).drop_last() =~= all.take(k));
                assert(all.take(k + 1).take(k) =~= all.take(k));
            }
            let is_left_hit = match x.side {
                Side::Left => true,
                Side::Right => false,
            };
            let is_allowed = self.operation.intersection_allowed(
                is_left_hit,
                is_in_left,
                is_in_right,
            );
            if is_left_hit {
                is_in_left = !is_in_left;
            } else {
                is_in_right = !is_in_right;
            }
            if is_allowed {
                out.push(x.i);
            }
        }
        proof {
            assert(all.take(all.len() as int) =~= all);
        }
        out
    }

    /// Tags the intersections of the left child and of the right child with
    /// the child they came from, left ones first.
    pub fn tag_sides<I>(left_xs: Vec<I>, right_xs: Vec<I>) -> (r: Vec<SidedIntersection<I>>)
        ensures
            r@.len() == left_xs@.len() + right_xs@.len(),
            forall|k: int|
                0 <= k < left_xs@.len() ==> #[trigger] r@[k] == (SidedIntersection {
                    i: left_xs@[k],
                    side: Side::Left,
                }),
            forall|k: int|
                0 <= k < right_xs@.len() ==> #[trigger] r@[left_xs@.len() + k] == (
                SidedIntersection { i: right_xs@[k], side: Side::Right }),
    {
        let ghost n = left_xs@.len();
        let mut all: Vec<SidedIntersection<I>> = Vec::new();
        for x in it: left_xs.into_iter()
            invariant
                it.seq() == left_xs@,
                all@.len() == it.index(),
                forall|k: int|
                    0 <= k < it.index() ==> #[trigger] all@[k] == (SidedIntersection {
                        i: left_xs@[k],
                        side: Side::Left,
                    }),
        {
            all.push(SidedIntersection { i: x, side: Side::Left });
        }
        for x in it: right_xs.into_iter()
            invariant
                it.seq() == right_xs@,
                n == left_xs@.len(),
                all@.len() == n + it.index(),
                forall|k: int|
                    0 <= k < n ==> #[trigger] all@[k] == (SidedIntersection {
                        i: left_xs@[k],
                        side: Side::Left,
                    }),
                forall|k: int|
                    0 <= k < it.index() ==> #[trigger] all@[n + k] == (SidedIntersection {
                        i: right_xs@[k],
                        side: Side::Right,
                    }),
        {
            all.push(SidedIntersection { i: x, side: Side::Right });
            assert(all@[n + it.index()] == all@[all@.len() - 1]);
        }
        all
    }
}

} // verus!

verus! {

/// Every intersection is kept by exactly one of union and intersection, so
/// together they keep as many intersections as there are.
pub proof fn lemma_union_intersection_partition<I>(xs: Seq<SidedIntersection<I>>)
    ensures
        filtered(CsgOperation::Union, xs).len() + filtered(CsgOperation::Intersection, xs).len()
            == xs.len(),
    decreases xs.len(),
{
    if xs.len() > 0 {
        lemma_union_intersection_partition(xs.drop_last());
    }
}

/// The items of a list of tagged intersections, in order.
pub open spec fn items<I>(xs: Seq<SidedIntersection<I>>) -> Seq<I> {
    xs.map_values(|x: SidedIntersection<I>| x.i)
}

proof fn lemma_no_crossings<I>(xs: Seq<SidedIntersection<I>>, side: Side)
    requires
        forall|k: int| 0 <= k < xs.len() ==> #[trigger] xs[k].side != side,
    ensures
        crossings(xs, side) == 0,
    decreases xs.len(),
{
    if xs.len() > 0 {
        lemma_no_crossings(xs.drop_last(), side);
    }
}

/// When a ray hits only the left child, union and difference keep every
/// intersection and intersection keeps none.
pub proof fn lemma_left_only<I>(xs: Seq<SidedIntersection<I>>)
    requires
        forall|k: int| 0 <= k < xs.len() ==> #[trigger] xs[k].side == Side::Left,
    ensures
        filtered(CsgOperation::Union, xs) == items(xs),
        filtered(CsgOperation::Difference, xs) == items(xs),
        filtered(CsgOperation::Intersection, xs) == Seq::<I>::empty(),
    decreases xs.len(),
{
    if xs.len() > 0 {
        let k = xs.len() - 1;
        lemma_left_only(xs.drop_last());
        lemma_no_crossings(xs.take(k), Side::Right);
        assert(items(xs.drop_last()).push(xs.last().i) =~= items(xs));
    } else {
        assert(items(xs) =~= Seq::<I>::empty());
    }
}

/// When a ray hits only the right child, union keeps every intersection and
/// intersection and difference keep none.
pub proof fn lemma_right_only<I>(xs: Seq<SidedIntersection<I>>)
    requires
        forall|k: int| 0 <= k < xs.len() ==> #[trigger] xs[k].side == Side::Right,
    ensures
        filtered(CsgOperation::Union, xs) == items(xs),
        filtered(CsgOperation::Difference, xs) == Seq::<I>::empty(),
        filtered(CsgOperation::Intersection, xs) == Seq::<I>::empty(),
    decreases xs.len(),
{
    if xs.len() > 0 {
        let k = xs.len() - 1;
        lemma_right_only(xs.drop_last());
        lemma_no_crossings(xs.take(k), Side::Left);
        assert(items(xs.drop_last()).push(xs.last().i) =~= items(xs));
    } else {
        assert(items(xs) =~= Seq::<I>::empty());
    }
}

/// Before any intersection the ray is inside neither child, and each
/// intersection on a child's surface flips whether the ray is inside that
/// child while leaving the other child as it was, however many times the
/// surface has been crossed before.
pub proof fn lemma_crossing_toggles_inside<I>(
    xs: Seq<SidedIntersection<I>>,
    x: SidedIntersection<I>,
    side: Side,
)
    ensures
        !inside(Seq::<SidedIntersection<I>>::empty(), side),
        x.side == side ==> (inside(xs.push(x), side) <==> !inside(xs, side)),
        x.side != side ==> (inside(xs.push(x), side) <==> inside(xs, side)),
{
    assert(xs.push(x).drop_last() =~= xs);
}

/// A union keeps a hit on one child exactly when the ray has crossed the
/// other child's surface an even number of times before it, that is, when
/// the hit is not inside the other child.
pub proof fn lemma_union_keeps_hits_outside_the_other_child<I>(
    xs: Seq<SidedIntersection<I>>,
    k: int,
)
    requires
        0 <= k < xs.len(),
    ensures
        xs[k].side == Side::Left ==> (kept(CsgOperation::Union, xs, k) <==> crossings(
            xs.take(k),
            Side::Right,
        ) % 2 == 0),
        xs[k].side == Side::Right ==> (kept(CsgOperation::Union, xs, k) <==> crossings(
            xs.take(k),
            Side::Left,
        ) % 2 == 0),
{
}

} // verus!

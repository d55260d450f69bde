use ray_tracer_challenge::csg::{Csg, CsgOperation, Side, SidedIntersection};

fn allowed(op: CsgOperation, is_left_hit: bool, is_in_left: bool, is_in_right: bool) -> bool {
    op.intersection_allowed(is_left_hit, is_in_left, is_in_right)
}

#[test]
fn union_rule() {
    let U = CsgOperation::Union;
    assert!(!allowed(U, true, true, true));
    assert!(allowed(U, true, true, false));
    assert!(!allowed(U, true, false, true));
    assert!(allowed(U, true, false, false));
    assert!(!allowed(U, false, true, true));
    assert!(!allowed(U, false, true, false));
    assert!(allowed(U, false, false, true));
    assert!(allowed(U, false, false, false));
}

#[test]
fn intersection_rule() {
    let I = CsgOperation::Intersection;
    assert!(allowed(I, true, true, true));
    assert!(!allowed(I, true, true, false));
    assert!(allowed(I, true, false, true));
    assert!(!allowed(I, true, false, false));
    assert!(allowed(I, false, true, true));
    assert!(allowed(I, false, true, false));
    assert!(!allowed(I, false, false, true));
    assert!(!allowed(I, false, false, false));
}

#[test]
fn difference_rule() {
    let D = CsgOperation::Difference;
    assert!(!allowed(D, true, true, true));
    assert!(allowed(D, true, true, false));
    assert!(!allowed(D, true, false, true));
    assert!(allowed(D, true, false, false));
    assert!(allowed(D, false, true, true));
    assert!(allowed(D, false, true, false));
    assert!(!allowed(D, false, false, true));
    assert!(!allowed(D, false, false, false));
}

/// A ray through a left child (entered at 1, left at 4) that holds the
/// right child (entered at 2, left at 3).
fn sample() -> Vec<SidedIntersection<u32>> {
    Csg::<()>::tag_sides(vec![1, 4], vec![2, 3])
}

fn sorted(mut xs: Vec<SidedIntersection<u32>>) -> Vec<SidedIntersection<u32>> {
    xs.sort_by_key(|x| x.i);
    xs
}

fn filter(op: CsgOperation, xs: Vec<SidedIntersection<u32>>) -> Vec<u32> {
    let c = Csg { left: (), right: (), operation: op };
    c.filter_intersections(xs)
}

#[test]
fn filtering_a_list_of_intersections() {
    assert_eq!(filter(CsgOperation::Union, sorted(sample())), vec![1, 4]);
    assert_eq!(filter(CsgOperation::Intersection, sorted(sample())), vec![2, 3]);
    assert_eq!(filter(CsgOperation::Difference, sorted(sample())), vec![1, 2, 3, 4]);
}

#[test]
fn overlapping_children_filtering() {
    // left spans 1..3, right spans 2..4
    let xs = sorted(Csg::<()>::tag_sides(vec![1, 3], vec![2, 4]));
    assert_eq!(filter(CsgOperation::Union, xs), vec![1, 4]);
    let xs = sorted(Csg::<()>::tag_sides(vec![1, 3], vec![2, 4]));
    assert_eq!(filter(CsgOperation::Intersection, xs), vec![2, 3]);
    let xs = sorted(Csg::<()>::tag_sides(vec![1, 3], vec![2, 4]));
    assert_eq!(filter(CsgOperation::Difference, xs), vec![1, 2]);
}

#[test]
fn union_and_intersection_split_the_hits() {
    let xs = sorted(Csg::<()>::tag_sides(vec![1, 5, 6, 9], vec![2, 3, 7, 8]));
    let n = xs.len();
    let u = filter(CsgOperation::Union, sorted(Csg::<()>::tag_sides(vec![1, 5, 6, 9], vec![2, 3, 7, 8])));
    let i = filter(CsgOperation::Intersection, xs);
    assert_eq!(u.len() + i.len(), n);
}

#[test]
fn a_single_child_hit() {
    let only_left = Csg::<()>::tag_sides(vec![1, 2], vec![]);
    assert_eq!(filter(CsgOperation::Union, only_left), vec![1, 2]);
    let only_left = Csg::<()>::tag_sides(vec![1, 2], vec![]);
    assert_eq!(filter(CsgOperation::Intersection, only_left), Vec::<u32>::new());
    let only_left = Csg::<()>::tag_sides(vec![1, 2], vec![]);
    assert_eq!(filter(CsgOperation::Difference, only_left), vec![1, 2]);
    let only_right = Csg::<()>::tag_sides(vec![], vec![1, 2]);
    assert_eq!(filter(CsgOperation::Union, only_right), vec![1, 2]);
    let only_right = Csg::<()>::tag_sides(vec![], vec![1, 2]);
    assert_eq!(filter(CsgOperation::Difference, only_right), Vec::<u32>::new());
}

#[test]
fn tagging_keeps_order_and_sides() {
    let xs = Csg::<()>::tag_sides(vec![10, 20], vec![30]);
    let tags: Vec<(u32, Side)> = xs.into_iter().map(|x| (x.i, x.side)).collect();
    assert_eq!(tags, vec![(10, Side::Left), (20, Side::Left), (30, Side::Right)]);
}

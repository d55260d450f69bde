use ray_tracer_challenge::refraction::refraction_objects;
use ray_tracer_challenge::shadow::distinct_prefix_len;

const A: u64 = 1;
const B: u64 = 2;
const C: u64 = 3;

/// Three nested glass spheres crossed by a ray: A (outer), B and C overlapping inside it.
fn crossings() -> Vec<u64> {
    vec![A, B, C, B, C, A]
}

fn at(index: usize) -> (Option<u64>, Option<u64>) {
    let ids = crossings();
    let is_hit: Vec<bool> = (0..ids.len()).map(|i| i == index).collect();
    refraction_objects(&ids, &is_hit)
}

#[test]
fn objects_on_both_sides_of_each_crossing() {
    assert_eq!(at(0), (None, Some(A)));
    assert_eq!(at(1), (Some(A), Some(B)));
    assert_eq!(at(2), (Some(B), Some(C)));
    assert_eq!(at(3), (Some(C), Some(C)));
    assert_eq!(at(4), (Some(C), Some(A)));
    assert_eq!(at(5), (Some(A), None));
}

#[test]
fn without_a_hit_no_object_surrounds_it() {
    let ids = crossings();
    assert_eq!(refraction_objects(&ids, &vec![false; 6]), (None, None));
    assert_eq!(refraction_objects(&vec![], &vec![]), (None, None));
}

#[test]
fn the_first_marked_hit_counts() {
    let ids = crossings();
    let is_hit = vec![false, false, true, false, true, false];
    assert_eq!(refraction_objects(&ids, &is_hit), (Some(B), Some(C)));
}

#[test]
fn inside_after_an_odd_number_of_crossings() {
    // A is crossed three times: the ray ends up inside it.
    let ids = vec![A, A, A];
    assert_eq!(refraction_objects(&ids, &vec![false, false, true]), (None, Some(A)));
}

#[test]
fn shadow_casters_stop_at_the_first_repeated_object() {
    assert_eq!(distinct_prefix_len(&vec![]), 0);
    assert_eq!(distinct_prefix_len(&vec![A, B, C]), 3);
    assert_eq!(distinct_prefix_len(&vec![A, B, A, C]), 2);
    assert_eq!(distinct_prefix_len(&vec![A, A]), 1);
    assert_eq!(distinct_prefix_len(&vec![A, B, C, C, B]), 3);
}

use ray_tracer_challenge::group::Group;

#[test]
fn adding_a_child_to_a_group() {
    let g = Group::new(vec!["sphere"]);

    assert_eq!(g.children().len(), 1);
}

#[test]
fn an_empty_group_has_no_children() {
    let g = Group::<u8>::new(vec![]);
    assert!(g.children().is_empty());
}

#[test]
fn children_keep_their_order() {
    let g = Group::new(vec![3, 1, 2]);
    assert_eq!(g.children(), &vec![3, 1, 2]);
}

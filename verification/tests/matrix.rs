use ray_tracer_challenge::matrix::submatrix;

#[test]
fn submatrix_of_3x3_is_2x2() {
    let a = vec![vec![1, 5, 0], vec![-3, 2, 7], vec![0, 6, -3]];
    assert_eq!(submatrix(&a, 0, 2), vec![vec![-3, 2], vec![0, 6]]);
}

#[test]
fn submatrix_of_4x4_is_3x3() {
    let a = vec![vec![-6, 1, 1, 6], vec![-8, 5, 8, 6], vec![-1, 0, 8, 2], vec![-7, 1, -1, 1]];
    assert_eq!(
        submatrix(&a, 2, 1),
        vec![vec![-6, 1, 6], vec![-8, 8, 6], vec![-7, -1, 1]]
    );
}

#[test]
fn submatrix_outside_the_matrix_keeps_everything() {
    let a = vec![vec![1.5, 2.5], vec![3.5, 4.5]];
    assert_eq!(submatrix(&a, 5, 5), a);
}

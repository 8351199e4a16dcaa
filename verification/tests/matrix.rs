use matlib::collections::{MatSized, Matrix};

fn mat(rows: &[&[i64]]) -> Matrix {
    Matrix::from(rows.iter().map(|r| r.to_vec()).collect())
}

fn cells(m: &Matrix) -> Vec<Vec<i64>> {
    let (r, c) = m.dimensions();
    (0..r).map(|i| (0..c).map(|j| m.get(i, j).unwrap()).collect()).collect()
}

#[test]
fn from_fn_matches_literal() {
    let a = Matrix::from_fn(3, 3, |i, j| i + j);
    let b = mat(&[&[0, 1, 2], &[1, 2, 3], &[2, 3, 4]]);
    assert_eq!(a, b);
}

#[test]
fn row_reflected_example() {
    let a = mat(&[&[1, 2], &[3, 4]]);
    let b = mat(&[&[2, 1], &[4, 3]]);
    let c = Matrix::row_reflected(&b);
    assert_eq!(a, c);
}

#[test]
fn product_example() {
    let a = mat(&[&[1, 2], &[3, 4]]);
    let b = mat(&[&[5, 6], &[7, 8]]);
    let c = mat(&[&[19, 22], &[43, 50]]);
    assert_eq!(a.mul(&b), c);
}

#[test]
fn product_rectangular() {
    let a = mat(&[&[1, 2, 3]]);
    let b = mat(&[&[1], &[2], &[3]]);
    assert_eq!(cells(&a.mul(&b)), vec![vec![14]]);
    assert_eq!(cells(&b.mul(&a)), vec![vec![1, 2, 3], vec![2, 4, 6], vec![3, 6, 9]]);
}

#[test]
fn product_strassen_matches_schoolbook() {
    // large enough for Strassen's method
    let n = 320;
    let a = Matrix::from_fn(n, n, |i, j| (i * 7 + j * 3) % 11 - 5);
    let b = Matrix::from_fn(n, n, |i, j| (i * 5 + j * 2) % 13 - 6);
    let c = a.mul(&b);
    assert_eq!(c.dimensions(), (n, n));
    for &(i, j) in &[(0usize, 0usize), (1, 2), (100, 200), (319, 319), (160, 17)] {
        let mut s = 0i64;
        for k in 0..n {
            s += a.get(i, k).unwrap() * b.get(k, j).unwrap();
        }
        assert_eq!(c.get(i, j).unwrap(), s);
    }
}

#[test]
fn product_with_identity() {
    let a = mat(&[&[1, -2, 3], &[4, 5, -6]]);
    assert_eq!(a.mul(&Matrix::identity(3, 3)), a);
    assert_eq!(Matrix::identity(2, 2).mul(&a), a);
}

#[test]
fn add_sub_scale() {
    let a = mat(&[&[1, 2], &[3, 4]]);
    let b = mat(&[&[10, 20], &[30, 40]]);
    assert_eq!(a.add(&b), mat(&[&[11, 22], &[33, 44]]));
    assert_eq!(b.sub(&a), mat(&[&[9, 18], &[27, 36]]));
    assert_eq!(a.add(&b).sub(&b), a);
    assert_eq!(a.mul_scalar(-3), mat(&[&[-3, -6], &[-9, -12]]));
}

#[test]
fn constructors() {
    assert_eq!(Matrix::null(2, 3), mat(&[&[0, 0, 0], &[0, 0, 0]]));
    assert_eq!(Matrix::fill(2, 2, 7), mat(&[&[7, 7], &[7, 7]]));
    assert_eq!(Matrix::scalar(2, 3, 5), mat(&[&[5, 0, 0], &[0, 5, 0]]));
    assert_eq!(Matrix::identity(2, 2), mat(&[&[1, 0], &[0, 1]]));
    assert_eq!(Matrix::column(vec![1, 2, 3]), mat(&[&[1], &[2], &[3]]));
}

#[test]
fn transpose_twice() {
    let a = mat(&[&[1, 2, 3], &[4, 5, 6]]);
    let t = Matrix::transposed(&a);
    assert_eq!(t, mat(&[&[1, 4], &[2, 5], &[3, 6]]));
    assert_eq!(Matrix::transposed(&t), a);
}

#[test]
fn dials_and_back() {
    let a = Matrix::from_fn(4, 6, |i, j| i * 10 + j);
    let [d11, d12, d21, d22] = a.dials();
    assert_eq!(d11, mat(&[&[0, 1, 2], &[10, 11, 12]]));
    assert_eq!(d22, mat(&[&[23, 24, 25], &[33, 34, 35]]));
    assert_eq!(Matrix::from_dials(&d11, &d12, &d21, &d22), a);
}

#[test]
fn sub_matrix_block() {
    let a = Matrix::from_fn(3, 3, |i, j| i * 3 + j);
    assert_eq!(a.sub_matrix(1..3, 0..2), mat(&[&[3, 4], &[6, 7]]));
}

#[test]
fn resize_grows_and_shrinks() {
    let mut a = mat(&[&[1, 2], &[3, 4]]);
    a.resize(3, 3);
    assert_eq!(a, mat(&[&[1, 2, 0], &[3, 4, 0], &[0, 0, 0]]));
    a.resize(1, 2);
    assert_eq!(a, mat(&[&[1, 2]]));
}

#[test]
fn push_and_remove() {
    let mut a = mat(&[&[1, 2], &[3, 4]]);
    a.push_row(vec![5, 6]);
    a.push_col(vec![7, 8, 9]);
    assert_eq!(a, mat(&[&[1, 2, 7], &[3, 4, 8], &[5, 6, 9]]));
    assert_eq!(a.remove_row(1), vec![3, 4, 8]);
    assert_eq!(a.remove_col(0), vec![1, 5]);
    assert_eq!(a, mat(&[&[2, 7], &[6, 9]]));
}

#[test]
fn getters() {
    let a = mat(&[&[0, 2, 0], &[0, 0, 0], &[5, 6, 7]]);
    assert_eq!(a.get(2, 1), Some(6));
    assert_eq!(a.get(3, 0), None);
    assert_eq!(a.get(0, 3), None);
    assert_eq!(a.iter_all(), vec![0, 2, 0, 0, 0, 0, 5, 6, 7]);
    assert_eq!(a.iter_row(2), Some(vec![5, 6, 7]));
    assert_eq!(a.iter_row(3), None);
    assert_eq!(a.iter_col(1), Some(vec![2, 0, 6]));
    assert_eq!(a.iter_col(3), None);
    assert_eq!(a.pivot(0), Some(2));
    assert_eq!(a.pivot(1), None);
    assert_eq!(a.column_pivot(0), Some(1));
    assert_eq!(a.column_pivot(2), Some(0));
    assert_eq!(a.column_pivot(1), None);
    assert_eq!(a.diagonal(), Some(vec![0, 0, 7]));
    assert_eq!(a.trace(), Some(7));
    assert_eq!(mat(&[&[1, 2, 3]]).diagonal(), None);
    assert_eq!(mat(&[&[1, 2, 3]]).trace(), None);
    assert_eq!(a.index(2), &[5, 6, 7]);
}

#[test]
fn shape_predicates() {
    let a = mat(&[&[1, 2, 3]]);
    assert!(a.is_line());
    assert!(!a.is_column());
    assert!(!a.is_square());
    assert!(Matrix::column(vec![1, 2]).is_column());
    assert!(Matrix::null(2, 2).is_null());
    assert!(!a.is_null());
}

#[test]
fn triangular_predicates() {
    let u = mat(&[&[1, 2], &[0, 3]]);
    let l = mat(&[&[1, 0], &[2, 3]]);
    let d = mat(&[&[2, 0], &[0, 2]]);
    assert!(u.is_upper_triangular() && !u.is_lower_triangular());
    assert!(l.is_lower_triangular() && !l.is_upper_triangular());
    assert!(d.is_diagonal() && d.is_scalar() && !d.is_identity());
    assert!(Matrix::identity(3, 3).is_identity());
    assert!(!mat(&[&[1, 0], &[0, 2]]).is_scalar());
    assert!(!mat(&[&[1, 2, 3]]).is_upper_triangular());
}

#[test]
fn symmetry_predicates() {
    assert!(mat(&[&[1, 2], &[2, 1]]).is_symetric());
    assert!(!mat(&[&[1, 2], &[3, 1]]).is_symetric());
    assert!(mat(&[&[0, 2], &[-2, 0]]).is_antisymetric());
    assert!(!mat(&[&[1, 2], &[-2, 0]]).is_antisymetric());
    assert!(mat(&[&[i64::MAX, 0], &[0, 0]]).is_antisymetric() == false);
}

#[test]
fn transition_and_level_state() {
    assert!(mat(&[&[1, 0], &[0, 1]]).is_transition());
    assert!(mat(&[&[2, -3], &[-1, 4]]).is_transition());
    assert!(!mat(&[&[1, 1], &[1, 1]]).is_transition());
    assert!(Matrix::column(vec![3, -2]).is_level_state());
    assert!(!Matrix::column(vec![1, 1]).is_level_state());
}

#[test]
fn scaled_and_reduced() {
    assert!(mat(&[&[1, 2], &[0, 3]]).is_scaled());
    assert!(!mat(&[&[0, 3], &[1, 2]]).is_scaled());
    assert!(mat(&[&[0, 0], &[0, 0]]).is_scaled());
    // zero rows come last
    assert!(!mat(&[&[0, 0], &[0, 1]]).is_scaled());
    assert!(mat(&[&[1, 2], &[0, 0]]).is_scaled());
    assert!(!mat(&[&[0, 0], &[1, 2]]).is_scaled());
    // the last row's pivot column holds 2 above it
    assert!(!mat(&[&[1, 2], &[0, 1]]).is_reduced());
    assert!(mat(&[&[1, 0], &[0, 1]]).is_reduced());
    assert!(!mat(&[&[0, 0, 0], &[1, 0, 5]]).is_reduced());
    assert!(mat(&[&[1, 0, 5], &[0, 1, 6], &[0, 0, 0]]).is_reduced());
    assert!(!mat(&[&[1, 1, 5], &[0, 1, 6], &[0, 0, 0]]).is_reduced());
    assert!(!mat(&[&[0, 1, 5], &[1, 0, 6], &[0, 0, 0]]).is_reduced());
}

#[test]
fn reduction() {
    let a = mat(&[&[2, 4], &[6, 8]]);
    assert_eq!(Matrix::reduced(&a), mat(&[&[2, 4], &[0, -4]]));
    let b = mat(&[&[1, 2, 3], &[4, 5, 6], &[7, 8, 10]]);
    assert_eq!(Matrix::reduced(&b), mat(&[&[1, 2, 3], &[0, -3, -6], &[0, 0, -1]]));
}

#[test]
fn determinants() {
    assert_eq!(mat(&[&[1, 2, 3], &[5, 6, 5], &[7, 8, 9]]).determinant(), Some(-12));
    assert_eq!(Matrix::identity(3, 3).determinant(), Some(1));
    assert_eq!(mat(&[&[2, 0], &[0, 3]]).determinant(), Some(6));
    assert_eq!(mat(&[&[4]]).determinant(), Some(4));
    assert_eq!(mat(&[&[1, 2], &[3, 4]]).determinant(), Some(-2));
    assert_eq!(mat(&[&[4, 1], &[6, 1]]).determinant(), Some(-2));
    assert_eq!(mat(&[&[1, 2], &[2, 4]]).determinant(), Some(0));
    assert!(!mat(&[&[1, 2], &[2, 4]]).is_invertible());
    assert!(mat(&[&[1, 2], &[3, 4]]).is_invertible());
    assert!(mat(&[&[1, 2], &[3, 4]]).is_regular());
}

#[test]
fn minors_and_cofactors() {
    let a = mat(&[&[1, 2, 3], &[5, 6, 5], &[7, 8, 9]]);
    // without row 0 and column 0: [[6, 5], [8, 9]] -> 14
    assert_eq!(a.minor(0, 0), Some(14));
    // without row 0 and column 1: [[5, 5], [7, 9]] -> 10
    assert_eq!(a.minor(0, 1), Some(10));
    assert_eq!(a.cofactor(0, 1), Some(-10));
    assert_eq!(a.cofactor(0, 0), Some(14));
}

#[test]
fn inverse_of_unimodular() {
    let a = mat(&[&[1, 1], &[0, 1]]);
    let inv = Matrix::inversed(&a);
    assert_eq!(inv, mat(&[&[1, -1], &[0, 1]]));
    assert_eq!(a.mul(&inv), Matrix::identity(2, 2));
    let b = mat(&[&[0, 1], &[1, 0]]);
    assert_eq!(Matrix::inversed(&b), b);
    let c = mat(&[&[2, 1, 0], &[1, 1, 0], &[0, 0, -1]]);
    assert_eq!(c.mul(&Matrix::inversed(&c)), Matrix::identity(3, 3));
    // no inverse: a copy
    let d = mat(&[&[1, 2], &[2, 4]]);
    assert_eq!(Matrix::inversed(&d), d);
    // determinant 6: no inverse with integer cells, so a copy
    let e = mat(&[&[2, 0], &[0, 3]]);
    assert_eq!(Matrix::inversed(&e), e);
}

#[test]
fn linear_maximisation() {
    let m = mat(&[&[1, 4, 1, 0, 0, 12], &[2, 1, 0, 1, 0, 10], &[-3, -3, 0, 0, 1, 0]]);
    assert_eq!(m.maximize_linear(), vec![4, 2]);
}

#[test]
fn linear_maximisation_reads_objective() {
    // maximise x under the same constraints: the best point is (5, 0)
    let m = mat(&[&[1, 4, 1, 0, 0, 12], &[2, 1, 0, 1, 0, 10], &[-1, 0, 0, 0, 1, 0]]);
    assert_eq!(m.maximize_linear(), vec![5, 0]);
    // maximise y: the best point is (0, 3)
    let m = mat(&[&[1, 4, 1, 0, 0, 12], &[2, 1, 0, 1, 0, 10], &[0, -1, 0, 0, 1, 0]]);
    assert_eq!(m.maximize_linear(), vec![0, 3]);
    // no constraint row: nothing to choose
    assert_eq!(mat(&[&[0, 1]]).maximize_linear(), Vec::<i64>::new());
}

#[test]
fn linear_maximisation_at_the_tight_vertex() {
    // the same problem at a larger scale: the vertex where both constraints
    // are tight, (400, 200), is the maximum
    let m = mat(&[&[1, 4, 1, 0, 0, 1200], &[2, 1, 0, 1, 0, 1000], &[-3, -3, 0, 0, 1, 0]]);
    assert_eq!(m.maximize_linear(), vec![400, 200]);
}

#[test]
fn linear_maximisation_with_a_negative_coefficient() {
    // maximise x + y under x - y <= 1 and y <= 2: the best point is (3, 2)
    let m = mat(&[&[1, -1, 1, 0, 0, 1], &[0, 1, 0, 1, 0, 2], &[-1, -1, 0, 0, 1, 0]]);
    assert_eq!(m.maximize_linear(), vec![3, 2]);
}

#[test]
fn linear_maximisation_divides_down() {
    // maximise x under 2x <= 3 and y <= 1: the vertex (3/2, 1), where both
    // constraints are tight, is a maximum; x = 3/2 is divided down to 1
    let m = mat(&[&[2, 0, 1, 0, 0, 3], &[0, 1, 0, 1, 0, 1], &[-1, 0, 0, 0, 1, 0]]);
    assert_eq!(m.maximize_linear(), vec![1, 1]);
}

#[test]
fn broy_method() {
    let a = mat(&[&[2, 1], &[1, 3]]);
    assert_eq!(Matrix::broy(&a), Some(mat(&[&[3, -1, 5], &[-1, 2, 5]])));
    let b = mat(&[&[1, 2, 0], &[0, 1, 1], &[1, 0, 1]]);
    assert_eq!(Matrix::broy(&b), Some(mat(&[&[1, -2, 2, 3], &[1, 1, -1, 3], &[-1, 2, 1, 3]])));
    // x = (1, 2, 3): c = b * x = (5, 5, 4); row i gives x[i] * 3
    let r = Matrix::broy(&b).unwrap();
    let c = [5, 5, 4];
    for i in 0..3 {
        let sum: i64 = (0..3).map(|j| r.get(i, j).unwrap() * c[j]).sum();
        assert_eq!(sum, (i as i64 + 1) * r.get(i, 3).unwrap());
    }
    assert_eq!(Matrix::broy(&mat(&[&[0, 1], &[1, 0]])), Some(mat(&[&[0, -1, -1], &[-1, 0, -1]])));
    // the solution is not unique
    assert_eq!(Matrix::broy(&mat(&[&[1, 2], &[2, 4]])), None);
}

#[test]
fn older_constructor_names() {
    assert_eq!(Matrix::from_vec(vec![vec![1, 2], vec![3, 4]]), mat(&[&[1, 2], &[3, 4]]));
    assert_eq!(Matrix::from_scalar(2, 3, 5), mat(&[&[5, 0, 0], &[0, 5, 0]]));
    assert_eq!(Matrix::from_scalar(2, 3, 5), Matrix::scalar(2, 3, 5));
}

#[test]
fn sizes_through_the_trait() {
    let a = mat(&[&[1, 2, 3], &[4, 5, 6]]);
    assert_eq!(MatSized::dimensions(&a), (2, 3));
    assert_eq!(MatSized::m(&a), 2);
    assert_eq!(MatSized::n(&a), 3);
    // a matrix without rows has no columns either
    let empty = Matrix::from(vec![]);
    assert_eq!(MatSized::dimensions(&empty), (0, 0));
}

#[test]
fn writing_through_a_row() {
    let mut a = mat(&[&[1, 2], &[3, 4]]);
    a.index_mut(1)[0] = 9;
    assert_eq!(a, mat(&[&[1, 2], &[9, 4]]));
    assert_eq!(a.index(1), &[9, 4]);
}

#[test]
fn rows_and_columns_by_their_older_names() {
    let a = mat(&[&[1, 2, 3], &[4, 5, 6]]);
    assert_eq!(a.get_row(1), Some(vec![4, 5, 6]));
    assert_eq!(a.get_row(2), None);
    assert_eq!(a.get_col(2), Some(vec![3, 6]));
    assert_eq!(a.get_col(3), None);
}

#[test]
fn text_of_a_matrix() {
    let a = mat(&[&[1, -2], &[30, 4]]);
    assert_eq!(a.fmt(), "[\n[1,-2,]\n[30,4,]\n]");
    assert_eq!(Matrix::from(vec![]).fmt(), "[\n]");
    let b = mat(&[&[i64::MIN, i64::MAX, 0]]);
    assert_eq!(b.fmt(), "[\n[-9223372036854775808,9223372036854775807,0,]\n]");
}

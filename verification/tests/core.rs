use algae::arith::multiply_add_row;
use algae::arith::multiply_row;
use algae::array::Array;
use algae::scalar::FloatEq;

/// The matrix with the given rows, whose shape must be `size`.
fn lit(content: Vec<Vec<i32>>, size: (usize, usize)) -> Array<i32> {
    let a = Array::new_mat(content);
    assert_eq!(a.size(), size);
    a
}

#[test]
fn new_mat() {
    let actual = Array::new_mat(vec![vec![1, 2], vec![2, -1]]);
    assert_eq!(actual.size(), (2, 2));
    assert_eq!(actual.get(0, 0), 1);
    assert_eq!(actual.get(0, 1), 2);
    assert_eq!(actual.get(1, 0), 2);
    assert_eq!(actual.get(1, 1), -1);
}

#[test]
fn new_mat_empty() {
    let actual: Array<i32> = Array::new_mat(vec![]);
    assert_eq!(actual.size(), (0, 0));
}

#[test]
fn new_vec() {
    let expected = lit(vec![vec![1], vec![2]], (1, 2));
    let actual = Array::new_vec(vec![1, 2]);
    assert_eq!(expected, actual);
}

#[test]
fn new_filled() {
    let expected = lit(vec![vec![1, 1], vec![1, 1]], (2, 2));
    let actual = Array::new_filled((2, 2), 1);
    assert_eq!(expected, actual);
}

#[test]
fn new_filled_without_rows() {
    let actual = Array::new_filled((3, 0), 1);
    assert_eq!(actual.size(), (3, 0));
}

#[test]
fn transpose() {
    let expected = lit(vec![vec![1, 2], vec![0, 1]], (2, 2));
    let actual = lit(vec![vec![1, 0], vec![2, 1]], (2, 2)).transpose();
    assert_eq!(expected, actual);
}

#[test]
fn transpose_wide() {
    let expected = lit(vec![vec![1, 4], vec![2, 5], vec![3, 6]], (2, 3));
    let actual = lit(vec![vec![1, 2, 3], vec![4, 5, 6]], (3, 2)).transpose();
    assert_eq!(expected, actual);
}

#[test]
fn get_row() {
    let expected = lit(vec![vec![0, 1]], (2, 1));
    let actual = lit(vec![vec![1, 2], vec![0, 1]], (2, 2)).get_row(1);
    assert_eq!(expected, actual);
}

#[test]
fn get_col() {
    let expected = lit(vec![vec![2], vec![1]], (1, 2));
    let actual = lit(vec![vec![1, 2], vec![0, 1]], (2, 2)).get_col(1);
    assert_eq!(expected, actual);
}

#[test]
fn concat_0_axis() {
    let expected = lit(vec![vec![1, 2], vec![0, 1]], (2, 2));
    let actual = Array::concat_0_axis(
        lit(vec![vec![1], vec![0]], (1, 2)),
        lit(vec![vec![2], vec![1]], (1, 2)),
    );
    assert_eq!(expected, actual);
}

#[test]
fn concat_1_axis() {
    let expected = lit(vec![vec![1, 2], vec![0, 1]], (2, 2));
    let actual = Array::concat_1_axis(lit(vec![vec![1, 2]], (2, 1)), lit(vec![vec![0, 1]], (2, 1)));
    assert_eq!(expected, actual);
}

#[test]
fn split_0_axis() {
    let expected = (lit(vec![vec![1], vec![0]], (1, 2)), lit(vec![vec![2], vec![1]], (1, 2)));
    let actual = Array::split_0_axis(lit(vec![vec![1, 2], vec![0, 1]], (2, 2)), 1);
    assert_eq!(expected, actual);
}

#[test]
fn split_0_axis_past_the_bound() {
    let (a, b) = Array::split_0_axis(lit(vec![vec![1, 2], vec![0, 1]], (2, 2)), 5);
    assert_eq!(a, lit(vec![vec![1, 2], vec![0, 1]], (2, 2)));
    assert_eq!(b.size(), (0, 2));
}

#[test]
fn split_1_axis() {
    let expected = (lit(vec![vec![1, 2]], (2, 1)), lit(vec![vec![0, 1]], (2, 1)));
    let actual = Array::split_1_axis(lit(vec![vec![1, 2], vec![0, 1]], (2, 2)), 1);
    assert_eq!(expected, actual);
}

#[test]
fn split_1_axis_past_the_bound() {
    let (a, b) = Array::split_1_axis(lit(vec![vec![1, 2], vec![0, 1]], (2, 2)), 3);
    assert_eq!(a, lit(vec![vec![1, 2], vec![0, 1]], (2, 2)));
    assert_eq!(b.size(), (2, 0));
}

#[test]
fn split_then_concat_gives_the_matrix_back() {
    let m = lit(vec![vec![1, 2, 3], vec![4, 5, 6]], (3, 2));
    let (a, b) = Array::split_0_axis(m.clone(), 2);
    assert_eq!(Array::concat_0_axis(a, b), m);
    let (c, d) = Array::split_1_axis(m.clone(), 1);
    assert_eq!(Array::concat_1_axis(c, d), m);
}

#[test]
fn extend_to() {
    let expected = lit(vec![vec![1, 2, 0], vec![0, 1, 0], vec![0, 0, 0]], (3, 3));
    let actual = {
        let mut temp = lit(vec![vec![1, 2], vec![0, 1]], (2, 2));
        temp.extend_to((3, 3), 0);
        temp
    };
    assert_eq!(expected, actual);
}

#[test]
fn extend_by() {
    let expected = lit(vec![vec![1, 2, 0], vec![0, 1, 0], vec![0, 0, 0]], (3, 3));
    let actual = {
        let mut temp = lit(vec![vec![1, 2], vec![0, 1]], (2, 2));
        temp.extend_by((1, 1), 0);
        temp
    };
    assert_eq!(expected, actual);
}

#[test]
fn index() {
    let expected = 0;
    let actual = lit(vec![vec![1, 2], vec![0, 1]], (2, 2))[(1, 0)];
    assert_eq!(expected, actual);
}

#[test]
fn mut_index() {
    let expected = lit(vec![vec![1, 2], vec![0, 1]], (2, 2));
    let actual = {
        let mut temp = lit(vec![vec![1, 2], vec![1, 1]], (2, 2));
        temp[(1, 0)] = 0;
        temp
    };
    assert_eq!(expected, actual);
}

#[test]
fn add() {
    let expected = lit(vec![vec![1, 2], vec![0, 1]], (2, 2));
    let actual = lit(vec![vec![1, 0], vec![-1, 1]], (2, 2)) + lit(vec![vec![0, 2], vec![1, 0]], (2, 2));
    assert_eq!(expected, actual);
}

#[test]
fn sub() {
    let expected = lit(vec![vec![1, 2], vec![0, 1]], (2, 2));
    let actual = lit(vec![vec![1, 0], vec![-1, 1]], (2, 2)) - lit(vec![vec![0, -2], vec![-1, 0]], (2, 2));
    assert_eq!(expected, actual);
}

#[test]
fn neg() {
    let expected = lit(vec![vec![1, 2], vec![0, 1]], (2, 2));
    let actual = -lit(vec![vec![-1, -2], vec![0, -1]], (2, 2));
    assert_eq!(expected, actual);
}

#[test]
fn scaler_prod() {
    let expected = lit(vec![vec![2, 4], vec![0, 2]], (2, 2));
    let actual = lit(vec![vec![1, 2], vec![0, 1]], (2, 2)).scale(2);
    assert_eq!(expected, actual);
}

#[test]
fn mat_mul() {
    let expected = lit(vec![vec![4, 3], vec![1, 0]], (2, 2));
    let actual = lit(vec![vec![1, 2], vec![0, 1]], (2, 2)) * lit(vec![vec![2, 3], vec![1, 0]], (2, 2));
    assert_eq!(expected, actual);
}

#[test]
fn mat_mul_rectangular() {
    let expected = lit(vec![vec![14], vec![32]], (1, 2));
    let actual = lit(vec![vec![1, 2, 3], vec![4, 5, 6]], (3, 2)).mul(lit(vec![vec![1], vec![2], vec![3]], (1, 3)));
    assert_eq!(expected, actual);
}

#[test]
fn mat_mul_without_inner_dimension() {
    let left: Array<i32> = Array::new_filled((0, 2), 7);
    let right: Array<i32> = Array::new_filled((3, 0), 7);
    let actual = left.mul(right);
    assert_eq!(actual, lit(vec![vec![0, 0, 0], vec![0, 0, 0]], (3, 2)));
}

#[test]
fn test_multiply_row() {
    let expected = lit(vec![vec![2, 4], vec![1, 0]], (2, 2));
    let actual = {
        let mut temp = lit(vec![vec![1, 2], vec![1, 0]], (2, 2));
        multiply_row(&mut temp, 0, 2, 0);
        temp
    };
    assert_eq!(expected, actual);
}

#[test]
fn multiply_row_from_a_later_column() {
    let mut temp = lit(vec![vec![1, 2, 3], vec![1, 0, 1]], (3, 2));
    multiply_row(&mut temp, 0, 5, 1);
    assert_eq!(temp, lit(vec![vec![1, 10, 15], vec![1, 0, 1]], (3, 2)));
}

#[test]
fn test_multiply_add_row() {
    let expected = lit(vec![vec![1, 0], vec![0, 1]], (2, 2));
    let actual = {
        let mut temp = lit(vec![vec![1, 0], vec![2, 1]], (2, 2));
        multiply_add_row(&mut temp, 0, 1, -2, 0);
        temp
    };
    assert_eq!(expected, actual);
}

#[test]
fn multiply_add_row_onto_itself() {
    let mut temp = lit(vec![vec![1, 2], vec![3, 4]], (2, 2));
    multiply_add_row(&mut temp, 1, 1, 2, 1);
    assert_eq!(temp, lit(vec![vec![1, 2], vec![3, 12]], (2, 2)));
}

#[test]
fn identity() {
    let expected = lit(vec![vec![1, 0], vec![0, 1]], (2, 2));
    let actual = Array::identity(2);
    assert_eq!(expected, actual);
}

#[test]
fn elementary_swap() {
    let expected = lit(vec![vec![1, 0, 0], vec![0, 0, 1], vec![0, 1, 0]], (3, 3));
    let actual = Array::elementary_swap(3, (1, 2));
    assert_eq!(expected, actual);
}

#[test]
fn elementary_swap_of_a_row_with_itself() {
    let actual: Array<i32> = Array::elementary_swap(3, (1, 1));
    assert_eq!(actual, Array::identity(3));
}

#[test]
fn elementary_multiply() {
    let expected = lit(vec![vec![1, 0, 0], vec![0, 3, 0], vec![0, 0, 1]], (3, 3));
    let actual = Array::elementary_multiply(3, 1, 3);
    assert_eq!(expected, actual);
}

#[test]
fn elementary_add_into() {
    let expected = lit(vec![vec![1, 0, 0], vec![3, 1, 0], vec![0, 0, 1]], (3, 3));
    let actual = Array::elementary_add_into(3, 0, 1, 3);
    assert_eq!(expected, actual);
}

#[test]
fn elementary_multiply_equivalency() {
    let a = lit(vec![vec![1, 0, 0], vec![0, 3, 0], vec![0, 0, 1]], (3, 3));
    let expected = {
        let mut temp = a.clone();
        multiply_row(&mut temp, 1, 3, 0);
        temp
    };
    let actual = Array::elementary_multiply(3, 1, 3) * a;
    assert_eq!(expected, actual);
}

#[test]
fn elementary_add_into_equivalency() {
    let a = lit(vec![vec![1, 0, 0], vec![0, 3, 0], vec![0, 0, 1]], (3, 3));
    let expected = {
        let mut temp = a.clone();
        multiply_add_row(&mut temp, 0, 1, 3, 0);
        temp
    };
    let actual = Array::elementary_add_into(3, 0, 1, 3) * a;
    assert_eq!(expected, actual);
}

#[test]
fn exact_and_approximate_equality_of_integer_matrices() {
    let a = lit(vec![vec![1, 2], vec![3, 4]], (2, 2));
    let b = lit(vec![vec![1, 2], vec![3, 5]], (2, 2));
    assert!(a.equals(&a.clone()));
    assert!(!a.equals(&b));
    assert!(a.float_eq(&a.clone()));
    assert!(!a.float_eq(&b));
    assert!(!a.float_eq(&lit(vec![vec![1, 2]], (2, 1))));
}

#[test]
fn integer_matrices_eliminate_with_integer_division() {
    let mut m: Array<i64> = Array::new_mat(vec![vec![1, 2], vec![3, 4]]);
    m.echelon_form();
    assert_eq!(m, Array::new_mat(vec![vec![1, 2], vec![0, 1]]));
    let mut kept = lit(vec![vec![1, 2], vec![0, 1]], (2, 2));
    kept.echelon_form();
    assert_eq!(kept, lit(vec![vec![1, 2], vec![0, 1]], (2, 2)));
}

#[test]
fn integer_rank_and_determinant() {
    assert_eq!(lit(vec![vec![1, 2], vec![2, 4]], (2, 2)).rank(), 1);
    assert_eq!(lit(vec![vec![1, 2], vec![2, 5]], (2, 2)).rank(), 2);
    assert_eq!(lit(vec![vec![2, 0], vec![0, 3]], (2, 2)).determinant(), 6);
    let wide: Array<i64> = Array::new_mat(vec![vec![0, 0, 7], vec![0, 0, 0]]);
    assert_eq!(wide.rank(), 1);
    assert_eq!(wide.determinant(), 0);
}

#[test]
fn integer_scalars() {
    use_scalar::<i32>(7, -7, 14, 49);
    use_scalar::<i64>(7, -7, 14, 49);
}

/// Checks the scalar operations on `x`, given its negative, double and
/// square.
fn use_scalar<T: algae::scalar::Scalar + PartialEq + std::fmt::Debug>(x: T, negative: T, double: T, square: T) {
    assert!(T::zero().is_zero());
    assert!(!T::one().is_zero());
    assert!(!x.is_zero());
    assert_eq!(x.neg(), negative);
    assert_eq!(x.add(x), double);
    assert_eq!(x.mul(x), square);
    assert_eq!(x.sub(x), T::zero());
    assert_eq!(x.div(x), T::one());
    assert_eq!(negative.div(double), T::zero());
    assert_eq!(x.add(T::zero()), x);
    assert_eq!(x.mul(T::one()), x);
    assert!(x.exact_eq(&x));
    assert!(!x.exact_eq(&negative));
    assert!(x.float_eq(&x));
    assert!(!x.float_eq(&double));
    assert!(x.greater(&negative));
    assert!(!negative.greater(&x));
}

#[test]
fn operators_are_the_methods() {
    let a = lit(vec![vec![1, 2], vec![3, 4]], (2, 2));
    let b = lit(vec![vec![5, 6], vec![7, 8]], (2, 2));
    assert_eq!(a.clone() + b.clone(), a.clone().add(b.clone()));
    assert_eq!(a.clone() - b.clone(), a.clone().sub(b.clone()));
    assert_eq!(a.clone() * b.clone(), a.clone().mul(b.clone()));
    assert_eq!(-a.clone(), a.neg());
}

#[test]
fn get_and_set() {
    let mut m = lit(vec![vec![1, 2, 3], vec![4, 5, 6]], (3, 2));
    assert_eq!(m.get(1, 2), 6);
    assert_eq!(m[(0, 1)], 2);
    m.set(0, 2, 9);
    assert_eq!(m, lit(vec![vec![1, 2, 9], vec![4, 5, 6]], (3, 2)));
    m.swap_rows(0, 1);
    assert_eq!(m, lit(vec![vec![4, 5, 6], vec![1, 2, 9]], (3, 2)));
}

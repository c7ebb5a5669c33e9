use algae::array::Array;
use algae::eigenvalues::Failure;
use algae::factorizations::LuFactorization;
use algae::scalar::FloatEq;
use algae::scalar::Scalar;
use algae::solver::LinearSystemResult;
use algae::solver::NonInvertible;
use algae::solver::SingularMatrix;

/// A double-precision scalar; two of them are approximately equal when they
/// differ by less than five machine epsilons.
#[derive(Clone, Copy, Debug, PartialEq, PartialOrd)]
struct F(f64);

impl FloatEq for F {
    fn float_eq_spec(&self, other: &Self) -> bool {
        f64::abs(self.0 - other.0) < f64::EPSILON * 5.0
    }
    fn float_eq(&self, other: &Self) -> bool {
        f64::abs(self.0 - other.0) < f64::EPSILON * 5.0
    }
}

impl Scalar for F {
    fn zero_spec() -> Self {
        F(0.0)
    }
    fn one_spec() -> Self {
        F(1.0)
    }
    fn add_spec(self, rhs: Self) -> Self {
        F(self.0 + rhs.0)
    }
    fn sub_spec(self, rhs: Self) -> Self {
        F(self.0 - rhs.0)
    }
    fn mul_spec(self, rhs: Self) -> Self {
        F(self.0 * rhs.0)
    }
    fn div_spec(self, rhs: Self) -> Self {
        F(self.0 / rhs.0)
    }
    fn neg_spec(self) -> Self {
        F(-self.0)
    }
    fn add_ok(self, _rhs: Self) -> bool {
        true
    }
    fn sub_ok(self, _rhs: Self) -> bool {
        true
    }
    fn mul_ok(self, _rhs: Self) -> bool {
        true
    }
    fn div_ok(self, _rhs: Self) -> bool {
        true
    }
    fn neg_ok(self) -> bool {
        true
    }
    fn eq_spec(self, rhs: Self) -> bool {
        self.0 == rhs.0
    }
    fn gt_spec(self, rhs: Self) -> bool {
        self.0 > rhs.0
    }
    fn zero() -> Self {
        F(0.0)
    }
    fn one() -> Self {
        F(1.0)
    }
    fn is_zero(&self) -> bool {
        self.0 == 0.0
    }
    fn add(self, rhs: Self) -> Self {
        F(self.0 + rhs.0)
    }
    fn sub(self, rhs: Self) -> Self {
        F(self.0 - rhs.0)
    }
    fn mul(self, rhs: Self) -> Self {
        F(self.0 * rhs.0)
    }
    fn div(self, rhs: Self) -> Self {
        F(self.0 / rhs.0)
    }
    fn neg(self) -> Self {
        F(-self.0)
    }
    fn exact_eq(&self, rhs: &Self) -> bool {
        self.0 == rhs.0
    }
    fn greater(&self, rhs: &Self) -> bool {
        self.0 > rhs.0
    }
}

/// The matrix with the given rows, whose shape must be `size`.
fn lit(content: Vec<Vec<f64>>, size: (usize, usize)) -> Array<F> {
    let a = Array::new_mat(content.into_iter().map(|r| r.into_iter().map(F).collect()).collect());
    assert_eq!(a.size(), size);
    a
}

#[test]
fn float_matrices_add_entry_by_entry() {
    let actual = lit(vec![vec![1.5, 0.0]], (2, 1)).add(lit(vec![vec![0.25, 2.0]], (2, 1)));
    assert_eq!(actual, lit(vec![vec![1.75, 2.0]], (2, 1)));
}

#[test]
fn echelon_form() {
    let expected = lit(vec![vec![1.0, 2.0, 3.0], vec![0.0, 1.0, 6.0], vec![0.0, 0.0, 1.0]], (3, 3));
    let actual = {
        let mut temp = lit(vec![vec![1.0, 2.0, 3.0], vec![1.0, 3.0, 9.0], vec![2.0, 5.0, 11.0]], (3, 3));
        temp.echelon_form();
        temp
    };
    assert_eq!(expected, actual);
}

#[test]
fn echelon_form_cycles_rows_without_a_pivot_to_the_end() {
    let mut temp = lit(
        vec![vec![0.0, 1.0], vec![0.0, 2.0], vec![4.0, 8.0], vec![0.0, 3.0], vec![2.0, 2.0]],
        (2, 5),
    );
    temp.echelon_form();
    // Tried in turn: the first row, then the last; the last has a pivot.
    // Below it the rows keep the order in which they were left: the second,
    // the third, the fourth, and then the row that was set aside.
    let expected = lit(
        vec![vec![1.0, 1.0], vec![0.0, 1.0], vec![0.0, 0.0], vec![0.0, 0.0], vec![0.0, 0.0]],
        (2, 5),
    );
    assert_eq!(expected, temp);
}

#[test]
fn echelon_form_of_a_matrix_without_rows_or_columns() {
    let mut none: Array<F> = Array::new_mat(vec![]);
    none.echelon_form();
    assert_eq!(none.size(), (0, 0));
    let mut flat: Array<F> = Array::new_filled((3, 0), F(1.0));
    flat.reduced_echelon_form();
    assert_eq!(flat.size(), (3, 0));
}

#[test]
fn echelon_form_to_reduced_echelon_form() {
    let expected = lit(vec![vec![1.0, 0.0, 0.0], vec![0.0, 1.0, 0.0], vec![0.0, 0.0, 1.0]], (3, 3));
    let actual = {
        let mut temp = lit(vec![vec![1.0, 2.0, 3.0], vec![0.0, 1.0, 9.0], vec![0.0, 0.0, 1.0]], (3, 3));
        temp.echelon_form_to_reduced_echelon_form();
        temp
    };
    assert_eq!(expected, actual);
}

#[test]
fn back_substitution_uses_the_leading_entry_of_each_row() {
    let expected = lit(vec![vec![1.0, 0.0, 5.0, 0.0], vec![0.0, 0.0, 0.0, 1.0]], (4, 2));
    let actual = {
        let mut temp = lit(vec![vec![1.0, 0.0, 5.0, 2.0], vec![0.0, 0.0, 0.0, 1.0]], (4, 2));
        temp.echelon_form_to_reduced_echelon_form();
        temp
    };
    assert_eq!(expected, actual);
}

#[test]
fn reduced_echelon_form() {
    let expected = lit(vec![vec![1.0, 0.0, 3.0], vec![0.0, 1.0, 0.0], vec![0.0, 0.0, 0.0]], (3, 3));
    let actual = {
        let mut temp = lit(vec![vec![1.0, 2.0, 3.0], vec![1.0, 1.0, 3.0], vec![3.0, 3.0, 9.0]], (3, 3));
        temp.reduced_echelon_form();
        temp
    };
    assert_eq!(expected, actual);
}

#[test]
fn solve_single() {
    let expected = lit(vec![vec![-16.0], vec![0.3333333333333333], vec![5.333333333333333]], (1, 3));
    let actual = {
        let a = lit(vec![vec![1.0, 3.0, 3.0], vec![3.0, 6.0, 9.0], vec![0.5, 1.0, 2.0]], (3, 3));
        let b = lit(vec![vec![1.0], vec![2.0], vec![3.0]], (1, 3));
        Array::solve(a, b)
    };
    match actual {
        LinearSystemResult::Single(a) => {
            assert!(expected.float_eq(&a));
        }
        _ => {
            panic!("Wrong result");
        }
    }
}

#[test]
fn solve_infinite() {
    let expected = (
        lit(vec![vec![1.0], vec![1.0], vec![0.0]], (1, 3)),
        lit(vec![vec![-1.0], vec![-1.0], vec![1.0]], (1, 3)),
    );
    let actual = {
        let a = lit(vec![vec![3.0, 0.0, 3.0], vec![-1.0, 1.0, 0.0], vec![2.0, 3.0, 5.0]], (3, 3));
        let b = lit(vec![vec![3.0], vec![0.0], vec![5.0]], (1, 3));
        Array::solve(a, b)
    };
    match actual {
        LinearSystemResult::Infinite(a) => {
            assert!(expected.0.float_eq(&a.0));
            assert!(expected.1.float_eq(&a.1));
        }
        LinearSystemResult::Single(s) => {
            panic!("Wrong result: {:?}", s);
        }
        LinearSystemResult::Inconsistent => {
            panic!("Wrong result: Linear system inconsistent.");
        }
    }
}

#[test]
fn solve_unsolvable() {
    let actual = {
        let a = lit(vec![vec![1.0, 3.0, 1.0], vec![1.0, 2.0, 1.0], vec![4.0, 0.0, 4.0]], (3, 3));
        let b = lit(vec![vec![4.0], vec![3.0], vec![5.0]], (1, 3));
        Array::solve(a, b)
    };
    match actual {
        LinearSystemResult::Infinite(a) => {
            panic!("Wrong result: {:?}; {:?}", a.0, a.1);
        }
        LinearSystemResult::Single(s) => {
            panic!("Wrong result: {:?}", s);
        }
        _ => {}
    }
}

#[test]
fn solve_with_a_free_unknown_in_the_middle() {
    // x0 + 2 x1 = 3, x2 = 4: the second unknown is free.
    let a = lit(vec![vec![1.0, 2.0, 0.0], vec![0.0, 0.0, 1.0]], (3, 2));
    let b = lit(vec![vec![3.0], vec![4.0]], (1, 2));
    match Array::solve(a, b) {
        LinearSystemResult::Infinite((fixed, basis)) => {
            assert_eq!(fixed, lit(vec![vec![3.0], vec![0.0], vec![4.0]], (1, 3)));
            assert_eq!(basis, lit(vec![vec![-2.0], vec![1.0], vec![-0.0]], (1, 3)));
        }
        other => panic!("Wrong result: {:?}", other),
    }
}

#[test]
fn solve_with_two_free_unknowns() {
    let a = lit(vec![vec![1.0, 2.0, 3.0]], (3, 1));
    let b = lit(vec![vec![6.0]], (1, 1));
    match Array::solve(a, b) {
        LinearSystemResult::Infinite((fixed, basis)) => {
            assert_eq!(fixed, lit(vec![vec![6.0], vec![0.0], vec![0.0]], (1, 3)));
            assert_eq!(basis, lit(vec![vec![-2.0, -3.0], vec![1.0, 0.0], vec![0.0, 1.0]], (2, 3)));
        }
        other => panic!("Wrong result: {:?}", other),
    }
}

#[test]
fn solve_overdetermined() {
    let a = lit(vec![vec![1.0, 0.0], vec![0.0, 1.0], vec![1.0, 1.0]], (2, 3));
    let consistent = lit(vec![vec![1.0], vec![2.0], vec![3.0]], (1, 3));
    assert_eq!(
        Array::solve(a.clone(), consistent),
        LinearSystemResult::Single(lit(vec![vec![1.0], vec![2.0]], (1, 2)))
    );
    let contradictory = lit(vec![vec![1.0], vec![2.0], vec![4.0]], (1, 3));
    assert_eq!(Array::solve(a, contradictory), LinearSystemResult::Inconsistent);
}

#[test]
fn solved_systems_are_solved() {
    let a = lit(vec![vec![2.0, 1.0], vec![1.0, 3.0]], (2, 2));
    let b = lit(vec![vec![3.0], vec![5.0]], (1, 2));
    match Array::solve(a.clone(), b.clone()) {
        LinearSystemResult::Single(x) => assert!(a.mul(x).float_eq(&b)),
        other => panic!("Wrong result: {:?}", other),
    }
    let a = lit(vec![vec![3.0, 0.0, 3.0], vec![-1.0, 1.0, 0.0], vec![2.0, 3.0, 5.0]], (3, 3));
    let b = lit(vec![vec![3.0], vec![0.0], vec![5.0]], (1, 3));
    match Array::solve(a.clone(), b.clone()) {
        LinearSystemResult::Infinite((fixed, basis)) => {
            assert!(a.clone().mul(fixed.clone()).float_eq(&b));
            let t = lit(vec![vec![2.5]], (1, 1));
            assert!(a.mul(fixed.add(basis.mul(t))).float_eq(&b));
        }
        other => panic!("Wrong result: {:?}", other),
    }
}

#[test]
fn inverse() {
    let matrix = lit(vec![vec![1.0, 3.0, 3.0], vec![3.0, 6.0, 9.0], vec![0.5, 1.0, 2.0]], (3, 3));
    let inverse = match matrix.inv() {
        Ok(i) => i,
        Err(e) => panic!("Error: {:?}", e),
    };
    let unit: Array<F> = Array::identity(matrix.size().0);
    assert!(unit.float_eq(&(inverse.clone() * matrix.clone())));
    assert!(unit.float_eq(&(matrix.clone() * inverse.clone())));
}

#[test]
fn inverse_of_a_singular_matrix() {
    let matrix = lit(vec![vec![1.0, 2.0], vec![2.0, 4.0]], (2, 2));
    assert_eq!(matrix.inv(), Err(NonInvertible));
}

#[test]
fn rank() {
    let expected = 2;
    let actual = lit(vec![vec![3.0, 0.0, 3.0], vec![-1.0, 1.0, 0.0], vec![2.0, 3.0, 5.0]], (3, 3)).rank();
    assert_eq!(expected, actual);
}

#[test]
fn rank_of_zero_and_empty_matrices() {
    assert_eq!(Array::new_filled((3, 2), F(0.0)).rank(), 0);
    assert_eq!(Array::<F>::new_mat(vec![]).rank(), 0);
    assert_eq!(Array::new_filled((0, 2), F(1.0)).rank(), 0);
}

#[test]
fn rank_of_the_reduced_form_and_of_reordered_rows() {
    let m = lit(vec![vec![3.0, 0.0, 3.0], vec![-1.0, 1.0, 0.0], vec![2.0, 3.0, 5.0]], (3, 3));
    let mut reduced = m.clone();
    reduced.reduced_echelon_form();
    assert_eq!(m.rank(), reduced.rank());
    let mut reordered = m.clone();
    reordered.swap_rows(0, 2);
    assert_eq!(m.rank(), reordered.rank());
}

#[test]
fn leontief_input_output_model_test() {
    let expected = lit(vec![vec![-16.0], vec![0.3333333333333333], vec![5.333333333333333]], (1, 3));
    match {
        let consumption = lit(vec![vec![0.0, -3.0, -3.0], vec![-3.0, -5.0, -9.0], vec![-0.5, -1.0, -1.0]], (3, 3));
        let demand = lit(vec![vec![1.0], vec![2.0], vec![3.0]], (1, 3));
        Array::leontief_input_output_model(consumption, demand)
    } {
        LinearSystemResult::Single(actual) => assert!(expected.float_eq(&actual)),
        LinearSystemResult::Infinite(actual) => panic!("Wrong result: {:?}, {:?}", actual.0, actual.1),
        LinearSystemResult::Inconsistent => panic!("Error: Inconsistent system of equations."),
    }
}

#[test]
fn cramers_rule_test() {
    let expected = lit(vec![vec![-16.0], vec![0.3333333333333333], vec![5.333333333333333]], (1, 3));
    let actual = {
        let a = lit(vec![vec![1.0, 3.0, 3.0], vec![3.0, 6.0, 9.0], vec![0.5, 1.0, 2.0]], (3, 3));
        let b = lit(vec![vec![1.0], vec![2.0], vec![3.0]], (1, 3));
        Array::cramers_rule(a, b)
    };
    match actual {
        Ok(actual) => assert!(expected.float_eq(&actual)),
        Err(e) => panic!("Error: {:?}", e),
    }
}

#[test]
fn cramers_rule_on_a_singular_matrix() {
    let a = lit(vec![vec![1.0, 2.0], vec![2.0, 4.0]], (2, 2));
    let b = lit(vec![vec![1.0], vec![2.0]], (1, 2));
    assert_eq!(Array::cramers_rule(a, b), Err(SingularMatrix));
}

#[test]
fn null_space() {
    let expected = lit(vec![vec![-1.0], vec![-1.0], vec![1.0]], (1, 3));
    let actual = lit(vec![vec![3.0, 0.0, 3.0], vec![-1.0, 1.0, 0.0], vec![2.0, 3.0, 5.0]], (3, 3)).null_space();
    assert_eq!(expected, actual);
}

#[test]
fn null_space_of_an_invertible_matrix() {
    let actual = lit(vec![vec![1.0, 2.0], vec![3.0, 4.0]], (2, 2)).null_space();
    assert_eq!(actual, lit(vec![vec![0.0], vec![0.0]], (1, 2)));
}

#[test]
fn get_linear_independent_test() {
    let expected = lit(vec![vec![1.0, 3.0], vec![2.0, 3.0], vec![2.0, 1.0]], (2, 3));
    let actual = Array::get_linear_independent(lit(
        vec![vec![1.0, 2.0, 3.0, 6.0], vec![2.0, 4.0, 3.0, 6.0], vec![2.0, 4.0, 1.0, 2.0]],
        (4, 3),
    ));
    assert_eq!(expected, actual);
}

#[test]
fn change_basis_test() {
    let basis_a = lit(vec![vec![3.0, 4.0, 0.0], vec![0.0, 4.0, 4.0], vec![1.0, 0.0, 4.0]], (3, 3));
    let basis_b = lit(vec![vec![1.0, 1.0, 1.0], vec![1.0, 2.0, 3.0], vec![1.0, 4.0, 9.0]], (3, 3));
    let vec_a = lit(vec![vec![1.0], vec![0.0], vec![0.0]], (1, 3));
    let vec_b = match Array::change_basis(&basis_a, &vec_a, &basis_b) {
        Ok(v) => v,
        Err(e) => panic!("Error: basis_b not a basis: {:?}", e),
    };
    let vec_a_back = match Array::change_basis(&basis_b, &vec_b, &basis_a) {
        Ok(v) => v,
        Err(e) => panic!("Error: basis_b not a basis: {:?}", e),
    };
    assert!(vec_a.float_eq(&vec_a_back));
}

#[test]
fn change_basis_into_what_is_no_basis() {
    let basis_a = lit(vec![vec![1.0, 0.0], vec![0.0, 1.0]], (2, 2));
    let basis_b = lit(vec![vec![1.0, 1.0], vec![1.0, 1.0]], (2, 2));
    let vec_a = lit(vec![vec![1.0], vec![0.0]], (1, 2));
    assert_eq!(Array::change_basis(&basis_a, &vec_a, &basis_b), Err(NonInvertible));
}

#[test]
fn determinant_0() {
    let expected = F(0.0);
    let actual = lit(vec![vec![1.0, 2.0, 3.0], vec![1.0, 1.0, 3.0], vec![3.0, 3.0, 9.0]], (3, 3)).determinant();
    assert_eq!(expected, actual);
}

#[test]
fn determinant() {
    let expected = F(1.0);
    let actual = lit(vec![vec![3.0, 1.0, 0.0], vec![9.0, 3.0, 1.0], vec![19.0, 6.0, 2.0]], (3, 3)).determinant();
    assert!(expected.float_eq(&actual));
}

#[test]
fn determinant_under_row_operations() {
    let m = lit(vec![vec![2.0, 1.0], vec![4.0, 5.0]], (2, 2));
    assert_eq!(m.determinant(), F(6.0));
    let mut exchanged = m.clone();
    exchanged.swap_rows(0, 1);
    assert_eq!(exchanged.determinant(), F(-6.0));
    let mut scaled = m.clone();
    algae::arith::multiply_row(&mut scaled, 1, F(3.0), 0);
    assert_eq!(scaled.determinant(), F(18.0));
}

#[test]
fn determinant_exchanges_with_the_last_row_that_has_a_pivot() {
    let m = lit(vec![vec![0.0, 1.0, 0.0], vec![2.0, 0.0, 0.0], vec![0.0, 0.0, 4.0]], (3, 3));
    assert_eq!(m.determinant(), F(-8.0));
}

#[test]
fn lu_factorization_possible() {
    let expected = LuFactorization::from_factors(
        lit(vec![vec![1.0, 0.0, 0.0], vec![3.0, 1.0, 0.0], vec![0.5, 0.16666666666666666, 1.0]], (3, 3)),
        lit(vec![vec![1.0, 3.0, 3.0], vec![0.0, -3.0, 0.0], vec![0.0, 0.0, 0.5]], (3, 3)),
    );
    let actual = LuFactorization::new(lit(vec![vec![1.0, 3.0, 3.0], vec![3.0, 6.0, 9.0], vec![0.5, 1.0, 2.0]], (3, 3)));
    match actual {
        Ok(arr) => assert!(expected.float_eq(&arr)),
        Err(e) => panic!("Error: {:?}", e),
    }
}

#[test]
fn lu_factors_multiply_to_the_matrix() {
    let m = lit(vec![vec![1.0, 3.0, 3.0], vec![3.0, 6.0, 9.0], vec![0.5, 1.0, 2.0]], (3, 3));
    let lu = LuFactorization::new(m.clone()).unwrap();
    assert_eq!(lu.size(), (3, 3));
    assert!(lu.lower_factor().mul(lu.upper_factor()).float_eq(&m));
}

#[test]
fn lu_factorization_impossible() {
    let actual = LuFactorization::new(lit(vec![vec![1.0, 3.0, 3.0], vec![3.0, 9.0, 9.0], vec![0.5, 1.0, 2.0]], (3, 3)));
    match actual {
        Ok(arr) => panic!("Wrong result: {:?}", arr),
        Err(_) => {}
    }
}

#[test]
fn solve() {
    let expected = lit(vec![vec![-16.0], vec![0.3333333333333333], vec![5.333333333333333]], (1, 3));
    let actual = {
        let temp = LuFactorization::from_factors(
            lit(vec![vec![1.0, 0.0, 0.0], vec![3.0, 1.0, 0.0], vec![0.5, 0.16666666666666666, 1.0]], (3, 3)),
            lit(vec![vec![1.0, 3.0, 3.0], vec![0.0, -3.0, 0.0], vec![0.0, 0.0, 0.5]], (3, 3)),
        );
        temp.solve(lit(vec![vec![1.0], vec![2.0], vec![3.0]], (1, 3)))
    };
    match actual {
        LinearSystemResult::Single(s) => {
            println!("{:?}", s);
            assert!(expected.float_eq(&s))
        }
        other => panic!("Wrong result: {:?}", other),
    }
}

#[test]
fn power_method() {
    let array = lit(vec![vec![1.0, 2.0], vec![5.0, 4.0]], (2, 2));
    let e_0 = lit(vec![vec![1.0], vec![0.0]], (1, 2));
    let iteration_cap = 10000;
    match Array::power_method(&array, e_0, iteration_cap) {
        Ok((lambda, x)) => {
            assert!((array * x.clone()).float_eq(&(x.scale(lambda))))
        }
        Err((e, _, _)) => {
            panic!("{:?}", e)
        }
    }
}

#[test]
fn power_method_finds_the_dominant_eigenvalue() {
    let array = lit(vec![vec![1.0, 2.0], vec![5.0, 4.0]], (2, 2));
    let e_0 = lit(vec![vec![1.0], vec![0.0]], (1, 2));
    match Array::power_method(&array, e_0, 10000) {
        Ok((lambda, x)) => {
            assert!((lambda.0 - 6.0).abs() < 1e-9);
            assert!((x.get(0, 0).0 / x.get(1, 0).0 - 0.4).abs() < 1e-9);
        }
        Err((e, _, _)) => panic!("{:?}", e),
    }
}

#[test]
fn power_method_divides_by_the_component_of_largest_magnitude() {
    let array = lit(vec![vec![-2.0, 0.0], vec![0.0, 1.0]], (2, 2));
    let x0 = lit(vec![vec![1.0], vec![1.0]], (1, 2));
    match Array::power_method(&array, x0, 1000) {
        Ok((lambda, x)) => {
            assert!((lambda.0 + 2.0).abs() < 1e-9);
            assert_eq!(x.get(0, 0), F(1.0));
        }
        Err((e, _, _)) => panic!("{:?}", e),
    }
}

#[test]
fn power_method_gives_up_at_the_cap() {
    let array = lit(vec![vec![1.0, 2.0], vec![5.0, 4.0]], (2, 2));
    let e_0 = lit(vec![vec![1.0], vec![0.0]], (1, 2));
    match Array::power_method(&array, e_0.clone(), 0) {
        Err((why, mu, x)) => {
            assert_eq!(why, Failure::IterationCap(0));
            assert_eq!(mu, F(0.0));
            assert_eq!(x, e_0);
        }
        Ok(found) => panic!("Wrong result: {:?}", found),
    }
    match Array::power_method(&array, e_0, 1) {
        Err((why, mu, x)) => {
            assert_eq!(why, Failure::IterationCap(1));
            assert_eq!(mu, F(5.0));
            assert_eq!(x, lit(vec![vec![0.2], vec![1.0]], (1, 2)));
        }
        Ok(found) => panic!("Wrong result: {:?}", found),
    }
}

#[test]
fn inverse_power_method() {
    let array = lit(vec![vec![1.0, 2.0], vec![0.0, 4.0]], (2, 2));
    let e_0 = lit(vec![vec![1.0], vec![0.0]], (1, 2));
    let alpha = F(0.0);
    let iteration_cap = 10000;
    match Array::inverse_power_method(&array, e_0, alpha, iteration_cap) {
        Ok((lambda, x)) => {
            assert!((array * x.clone()).float_eq(&(x.scale(lambda))))
        }
        Err((e, _, _)) => {
            panic!("{:?}", e)
        }
    }
}

#[test]
fn inverse_power_method_with_an_eigenvalue_as_shift() {
    let array = lit(vec![vec![1.0, 2.0], vec![0.0, 4.0]], (2, 2));
    let e_0 = lit(vec![vec![1.0], vec![0.0]], (1, 2));
    match Array::inverse_power_method(&array, e_0.clone(), F(1.0), 100) {
        Err((why, estimate, x)) => {
            assert_eq!(why, Failure::SingularShift);
            assert_eq!(estimate, F(1.0));
            assert_eq!(x, e_0);
        }
        Ok(found) => panic!("Wrong result: {:?}", found),
    }
}

#[test]
fn inverse_power_method_estimates_by_the_shift_and_the_largest_component() {
    let array = lit(vec![vec![2.0, 0.0], vec![0.0, 3.0]], (2, 2));
    let x_0 = lit(vec![vec![1.0], vec![1.0]], (1, 2));
    // The shifted matrix is diag(1, 2): the first step solves to (1, 1/2),
    // whose largest component is 1, so the estimate is (1 + 1) / 1.
    match Array::inverse_power_method(&array, x_0.clone(), F(1.0), 1) {
        Err((why, estimate, x)) => {
            assert_eq!(why, Failure::IterationCap(1));
            assert_eq!(estimate, F(2.0));
            assert_eq!(x, lit(vec![vec![1.0], vec![0.5]], (1, 2)));
        }
        Ok(found) => panic!("Wrong result: {:?}", found),
    }
    match Array::inverse_power_method(&array, x_0, F(1.0), 1000) {
        Ok((estimate, x)) => {
            assert_eq!(estimate, F(2.0));
            assert_eq!(x.get(0, 0), F(1.0));
            assert!(x.get(1, 0).float_eq(&F(0.0)));
        }
        Err((why, _, _)) => panic!("{:?}", why),
    }
}

#[test]
fn solve_by_factors_that_leave_no_or_many_solutions() {
    let unit: Array<F> = Array::identity(2);
    let upper = lit(vec![vec![1.0, 2.0], vec![0.0, 0.0]], (2, 2));
    let factors = LuFactorization::from_factors(unit, upper);
    assert_eq!(factors.solve(lit(vec![vec![1.0], vec![1.0]], (1, 2))), LinearSystemResult::Inconsistent);
    assert_eq!(
        factors.solve(lit(vec![vec![3.0], vec![0.0]], (1, 2))),
        LinearSystemResult::Infinite((lit(vec![vec![3.0], vec![0.0]], (1, 2)), lit(vec![vec![-2.0], vec![1.0]], (1, 2))))
    );
    assert_eq!(algae::factorizations::LuResult::from_system(LinearSystemResult::<F>::Inconsistent), None);
}

#[test]
fn lu_solve_agrees_with_solve() {
    let a = lit(vec![vec![2.0, 1.0], vec![4.0, 5.0]], (2, 2));
    let b = lit(vec![vec![3.0, 1.0], vec![9.0, 2.0]], (2, 2));
    let factors = LuFactorization::new(a.clone()).unwrap();
    match (factors.solve(b.clone()), Array::solve(a.clone(), b.clone())) {
        (LinearSystemResult::Single(x), LinearSystemResult::Single(y)) => {
            assert!(x.float_eq(&y));
            assert!((a * x).float_eq(&b));
        }
        other => panic!("Wrong result: {:?}", other),
    }
}

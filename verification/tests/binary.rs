use algae::array::Array;
use algae::binary::Bit;
use algae::factorizations::LuFactorization;
use algae::solver::LinearSystemResult;
use algae::solver::NonInvertible;

/// The matrix over the field of two elements with the given rows.
fn bits(rows: Vec<Vec<u8>>) -> Array<Bit> {
    Array::new_mat(rows.into_iter().map(|r| r.into_iter().map(|x| Bit(x != 0)).collect()).collect())
}

#[test]
fn binary_systems_are_solved_exactly() {
    let a = bits(vec![vec![1, 1], vec![0, 1]]);
    let b = bits(vec![vec![1], vec![1]]);
    match Array::solve(a.clone(), b.clone()) {
        LinearSystemResult::Single(x) => {
            assert_eq!(x, bits(vec![vec![0], vec![1]]));
            assert_eq!(a * x, b);
        }
        other => panic!("Wrong result: {:?}", other),
    }
}

#[test]
fn binary_inverse_rank_and_determinant() {
    let a = bits(vec![vec![1, 1], vec![0, 1]]);
    let inverse = a.inv().unwrap();
    assert_eq!(a.clone() * inverse.clone(), Array::identity(2));
    assert_eq!(inverse * a.clone(), Array::identity(2));
    assert_eq!(a.determinant(), Bit(true));
    assert_eq!(a.rank(), 2);
    let singular = bits(vec![vec![1, 1], vec![1, 1]]);
    assert_eq!(singular.inv(), Err(NonInvertible));
    assert_eq!(singular.determinant(), Bit(false));
    assert_eq!(singular.rank(), 1);
    assert_eq!(singular.null_space(), bits(vec![vec![1], vec![1]]));
}

#[test]
fn binary_cramers_rule_and_factorization() {
    let a = bits(vec![vec![1, 0, 1], vec![1, 1, 0], vec![0, 0, 1]]);
    let b = bits(vec![vec![1], vec![0], vec![1]]);
    let by_rule = Array::cramers_rule(a.clone(), b.clone()).unwrap();
    assert_eq!(a.clone() * by_rule.clone(), b);
    let factors = LuFactorization::new(a.clone()).unwrap();
    assert_eq!(factors.lower_factor() * factors.upper_factor(), a);
    assert_eq!(factors.solve(b), LinearSystemResult::Single(by_rule));
}

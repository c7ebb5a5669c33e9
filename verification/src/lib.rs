//! Dense matrices over a generic scalar, with Gaussian elimination, linear
//! system solving, LU factorization and eigenvalue iteration.
//!
//! The executable functions state what they compute over a mathematical
//! model: a matrix is the sequence of its rows, and every algorithm has a
//! spec function that says what it returns. The modules whose names end in
//! `_laws` prove what these results mean where the scalars form an exact
//! field: elimination ends in a reduced staircase, what `solve` finds solves
//! the system, the inverse is an inverse, the factors of an LU factorization
//! multiply back and solve, the rank is decided by the kernel, the
//! determinant is the determinant by cofactor expansion, and Cramer's rule
//! finds the solution.

pub mod arith;
pub mod array;
pub mod binary;
pub mod cofactors;
pub mod column_laws;
pub mod cramer_laws;
pub mod determinant_laws;
pub mod echelon_laws;
pub mod eigen_laws;
pub mod eigenvalues;
pub mod elimination;
pub mod factorizations;
pub mod field;
pub mod inverse_laws;
pub mod lu_laws;
pub mod lu_solve_laws;
pub mod operators;
pub mod rank_laws;
pub mod reduction_laws;
pub mod rows;
pub mod scalar;
pub mod solver;
pub mod solver_laws;
pub mod sums;

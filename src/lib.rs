pub mod binomial;
pub mod matrix;
pub mod coefficient_matrix_computer;
pub mod cache_coefficient_matrix_computer;
pub mod jit_coefficient_matrix_computer;
pub mod options;
pub mod vector2;
pub mod curve;

use crate::coefficient_matrix_computer::CoefficientMatrixComputerType;
use vstd::prelude::*;

verus! {

/// The settings of an editing session.
#[derive(Debug)]
pub struct Options {
    pub steps: usize,
    pub coefficient_matrix_computer_type: CoefficientMatrixComputerType,
    pub render_curve_points: bool,
    pub render_control_points: bool,
    pub render_lines: bool,
}

impl Options {
    /// One step, the cached computer, control points and lines shown, curve points hidden.
    pub fn new() -> (r: Options)
        ensures
            r.steps == 1,
            r.coefficient_matrix_computer_type == CoefficientMatrixComputerType::Cached,
            !r.render_curve_points,
            r.render_control_points,
            r.render_lines,
    {
        Options {
            steps: 1,
            coefficient_matrix_computer_type: CoefficientMatrixComputerType::Cached,
            render_curve_points: false,
            render_control_points: true,
            render_lines: true,
        }
    }
}

} // verus!

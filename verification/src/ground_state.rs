//! Derivatives of an isolated ground-state energy.

use vstd::prelude::*;

use crate::ad;
use crate::ad::{
    energy_gradient, validate_ground_state_arguments, GradientDiagnostics, GradientStatus,
    GroundStateOptions, ParameterGradient, ParameterModel, ParameterValues,
};
use crate::error::{QmbedError, Reason, Result};
use crate::family::QuantumOperator;
use crate::linear::Scalar;
use crate::numbers;
use crate::numbers::{larger_of, RealNumber, Whole};
use crate::ordered::copy_list;

verus! {

/// Real numbers with bounds on spectral gaps.
pub trait GapMeasure: RealNumber {
    /// The largest gap that residuals leave open, at some scale of energies.
    spec fn spec_unresolved(residual: Self, scale: Self) -> Self;

    /// The largest gap that makes a derivative badly conditioned, at some scale of energies.
    spec fn spec_delicate(scale: Self) -> Self;

    fn unresolved(residual: Self, scale: Self) -> (gap: Self)
        ensures
            gap == Self::spec_unresolved(residual, scale),
    ;

    fn delicate(scale: Self) -> (gap: Self)
        ensures
            gap == Self::spec_delicate(scale),
    ;
}

/// Whole numbers: a gap has to exceed ten residuals, and a scale of a hundred million asks for
/// one more.
impl GapMeasure for Whole {
    open spec fn spec_unresolved(residual: Self, scale: Self) -> Self {
        Whole { value: 10 }.spec_times(residual)
    }

    open spec fn spec_delicate(scale: Self) -> Self {
        scale.spec_over(Whole { value: 100_000_000 })
    }

    fn unresolved(residual: Self, scale: Self) -> (gap: Self) {
        Whole { value: 10 }.times(residual)
    }

    fn delicate(scale: Self) -> (gap: Self) {
        scale.over(Whole { value: 100_000_000 })
    }
}

/// The lowest eigenpairs of an operator, as a solver found them.
#[derive(Debug)]
pub struct Eigenpairs<R, S> {
    /// Eigenvalues in ascending order.
    pub eigenvalues: Vec<R>,
    /// Normalized eigenvectors.
    pub eigenvectors: Vec<Vec<S>>,
    /// How far each pair is from an eigenpair.
    pub residuals: Vec<R>,
    /// Iterations of the solver.
    pub iterations: usize,
}

/// A ground-state energy with its gradient and the evidence for it.
#[derive(Debug)]
pub struct GroundStateEnergyGradient<R, S> {
    /// The smallest eigenvalue.
    pub energy: R,
    /// The normalized eigenvector.
    pub state: Vec<S>,
    /// Derivatives of the energy by the parameters.
    pub gradient: ParameterGradient<S>,
    /// Residual and spectral gap.
    pub diagnostics: GradientDiagnostics<R>,
    /// Iterations of the solver.
    pub eigensolver_iterations: usize,
}

/// The largest of the first numbers, and at least zero.
pub open spec fn largest_of<R: RealNumber>(values: Seq<R>, count: nat) -> R
    decreases count,
{
    if count == 0 {
        R::spec_zero()
    } else {
        numbers::larger(largest_of(values, (count - 1) as nat), values[count - 1])
    }
}

/// The scale of an energy.
pub open spec fn scale_at<R: RealNumber>(energy: R) -> R {
    numbers::larger(energy.spec_magnitude(), R::spec_one())
}

/// What a gap says about the derivative of the lower level.
pub open spec fn status_of<R: GapMeasure>(energy: R, gap: R, residual: R) -> GradientStatus {
    let scale = scale_at(energy);
    if gap.spec_at_most(R::spec_unresolved(residual, scale)) {
        GradientStatus::NonDifferentiable
    } else if gap.spec_at_most(R::spec_delicate(scale)) {
        GradientStatus::IllConditioned
    } else {
        GradientStatus::Reliable
    }
}

/// Whether a gradient is the stated one.
pub open spec fn is_ground_gradient<R: GapMeasure, S: Scalar>(
    found: GroundStateEnergyGradient<R, S>,
    operator: QuantumOperator<S>,
    parameters: ParameterModel<S>,
    pairs: Eigenpairs<R, S>,
) -> bool {
    let energy = pairs.eigenvalues@[0];
    let gap = pairs.eigenvalues@[1].spec_minus(energy);
    let residual = largest_of(pairs.residuals@, pairs.residuals@.len());
    &&& found.energy == energy
    &&& found.state@ == pairs.eigenvectors@[0]@
    &&& found.gradient@.schema == parameters.schema
    &&& found.gradient@.values == Seq::new(
        operator@.len(),
        |k: int| ad::expectation(operator@, pairs.eigenvectors@[0]@, k),
    )
    &&& found.diagnostics.status == status_of(energy, gap, residual)
    &&& found.diagnostics.primal_residual == Some(residual)
    &&& found.diagnostics.backward_residual == None::<R>
    &&& found.diagnostics.spectral_gap == Some(gap)
    &&& found.diagnostics.primal_applications == 0
    &&& found.diagnostics.backward_applications == operator@.len()
    &&& found.diagnostics.recomputations == 0
    &&& found.eigensolver_iterations == pairs.iterations
}

/// Differentiate an isolated ground-state energy, given the lowest eigenpairs.
///
/// At least two eigenpairs show the gap. A level that is degenerate or not resolved has no
/// derivative; its status says so.
pub fn ground_state_energy_gradient<R: GapMeasure, S: Scalar>(
    operator: &QuantumOperator<S>,
    parameters: &ParameterValues<S>,
    options: GroundStateOptions,
    tolerance: S::Size,
    pairs: &Eigenpairs<R, S>,
) -> (result: Result<GroundStateEnergyGradient<R, S>>)
    requires
        operator.valid(),
        parameters.valid(),
        pairs.eigenvalues@.len() >= 2,
        pairs.eigenvectors@.len() >= 1,
    ensures
        match ad::ground_state_error(operator@, parameters@.schema, options, tolerance) {
            Some(stated) => result matches Err(error) && error == stated,
            None => if pairs.eigenvectors@[0]@.len() != operator@[0].operator.columns {
                result matches Err(error) && error == (QmbedError::DimensionMismatch(Reason::Length {
                    what: "eigenvector",
                    found: pairs.eigenvectors@[0]@.len() as usize,
                    expected: operator@[0].operator.columns,
                }))
            } else {
                result matches Ok(found) && is_ground_gradient(found, *operator, parameters@, *pairs)
            },
        },
{
    match validate_ground_state_arguments(operator, parameters, options, tolerance) {
        Ok(_) => {},
        Err(error) => {
            return Err(error);
        },
    }
    let energy: R = pairs.eigenvalues[0];
    let gap: R = pairs.eigenvalues[1].minus(energy);
    let state: Vec<S> = copy_list(&pairs.eigenvectors[0]);
    let gradient: ParameterGradient<S> = match energy_gradient(operator, parameters, &state) {
        Ok(gradient) => gradient,
        Err(error) => {
            return Err(error);
        },
    };
    let mut residual: R = R::zero();
    let mut next: usize = 0;
    while next < pairs.residuals.len()
        invariant
            next <= pairs.residuals@.len(),
            residual == largest_of(pairs.residuals@, next as nat),
        decreases pairs.residuals@.len() - next,
    {
        residual = larger_of(residual, pairs.residuals[next]);
        next += 1;
    }
    let scale: R = larger_of(energy.magnitude(), R::one());
    let status: GradientStatus = if gap.at_most(R::unresolved(residual, scale)) {
        GradientStatus::NonDifferentiable
    } else if gap.at_most(R::delicate(scale)) {
        GradientStatus::IllConditioned
    } else {
        GradientStatus::Reliable
    };
    let diagnostics: GradientDiagnostics<R> = GradientDiagnostics {
        status,
        primal_residual: Some(residual),
        backward_residual: None,
        spectral_gap: Some(gap),
        primal_applications: 0,
        backward_applications: operator.components().len(),
        recomputations: 0,
    };
    Ok(
        GroundStateEnergyGradient {
            energy,
            state,
            gradient,
            diagnostics,
            eigensolver_iterations: pairs.iterations,
        },
    )
}

} // verus!

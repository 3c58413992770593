//! Coherent states of an oscillator with a cutoff.

use vstd::prelude::*;

use crate::ensemble::ComplexOver;
use crate::error::{QmbedError, Reason, Result};
use crate::linear;
use crate::linear::{Gaussian, Scalar};
use crate::numbers::{RealNumber, Whole};

verus! {

/// Complex scalars that are amplitudes of coherent states.
pub trait Displacement<R: RealNumber>: ComplexOver<R> {
    /// The amplitude of the vacuum in the coherent state of an amplitude.
    spec fn spec_vacuum(self) -> Self;

    fn vacuum(&self) -> (value: Self)
        ensures
            value == self.spec_vacuum(),
    ;
}

/// Over the Gaussian integers, rounded toward zero, only the vacuum itself overlaps with the
/// vacuum.
impl Displacement<Whole> for Gaussian {
    open spec fn spec_vacuum(self) -> Self {
        if self.re == 0 && self.im == 0 {
            Gaussian { re: 1, im: 0 }
        } else {
            Gaussian { re: 0, im: 0 }
        }
    }

    fn vacuum(&self) -> (value: Self) {
        if self.re == 0 && self.im == 0 {
            Gaussian { re: 1, im: 0 }
        } else {
            Gaussian { re: 0, im: 0 }
        }
    }
}

/// Coefficient of an occupation in a coherent state.
pub open spec fn coherent_coefficient<R: RealNumber, S: Displacement<R>>(
    amplitude: S,
    occupation: nat,
) -> S
    decreases occupation,
{
    if occupation == 0 {
        amplitude.spec_vacuum()
    } else {
        coherent_coefficient::<R, S>(amplitude, (occupation - 1) as nat).spec_times(
            amplitude.spec_divided(R::spec_count(occupation as usize).spec_root()),
        )
    }
}

/// Coefficients of a coherent state below a cutoff.
pub open spec fn coherent<R: RealNumber, S: Displacement<R>>(amplitude: S, states: usize) -> core::result::Result<
    Seq<S>,
    QmbedError,
> {
    if states == 0 || !amplitude.spec_is_finite() {
        Err(
            QmbedError::InvalidOptions(
                Reason::Text("coherent-state amplitude must be finite and the cutoff positive"),
            ),
        )
    } else {
        Ok(
            Seq::new(
                states as nat,
                |occupation: int| coherent_coefficient::<R, S>(amplitude, occupation as nat),
            ),
        )
    }
}

/// Coefficients of a coherent state below a cutoff, from the vacuum on.
pub fn coherent_state<R: RealNumber, S: Displacement<R>>(amplitude: S, states: usize) -> (result: Result<
    Vec<S>,
>)
    ensures
        linear::vector_is(result, coherent::<R, S>(amplitude, states)),
{
    if states == 0 || !amplitude.is_finite() {
        return Err(
            QmbedError::InvalidOptions(
                Reason::Text("coherent-state amplitude must be finite and the cutoff positive"),
            ),
        );
    }
    let ghost stated = coherent::<R, S>(amplitude, states)->Ok_0;
    let mut coefficient: S = amplitude.vacuum();
    let mut coefficients: Vec<S> = Vec::new();
    coefficients.push(coefficient);
    let mut occupation: usize = 1;
    assert(coefficients@ =~= stated.take(1));
    while occupation < states
        invariant
            1 <= occupation <= states,
            stated == coherent::<R, S>(amplitude, states)->Ok_0,
            stated.len() == states,
            coherent::<R, S>(amplitude, states) is Ok,
            coefficient == coherent_coefficient::<R, S>(amplitude, (occupation - 1) as nat),
            coefficients@ == stated.take(occupation as int),
        decreases states - occupation,
    {
        coefficient = coefficient.times(&amplitude.divided(R::count(occupation).root()));
        coefficients.push(coefficient);
        occupation += 1;
        assert(coefficients@ =~= stated.take(occupation as int));
    }
    assert(coefficients@ =~= stated);
    Ok(coefficients)
}

} // verus!

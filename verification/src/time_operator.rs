//! Operator families whose coefficients follow a schedule in time.

use vstd::prelude::*;

use crate::error::{QmbedError, Reason, Result};
use crate::interop;
use crate::interop::PackedOperatorModel;
use crate::linear;
use crate::linear::{check_apply_shape, scale_vector, Entries, LinearOperator, Scalar};
use crate::ordered::copy_list;
use crate::time_block::TimeDependentOperator;

verus! {

/// Coefficients of the components of a family as time goes on.
pub trait Schedule<S> {
    /// Instants.
    type Time: Copy;

    /// Whether an instant is a number.
    spec fn spec_time_is_finite(time: Self::Time) -> bool;

    /// Coefficients at an instant, in the order of the components.
    spec fn spec_coefficients_at(&self, time: Self::Time) -> core::result::Result<
        Entries<S>,
        QmbedError,
    >;

    /// Whether an instant is a number.
    fn time_is_finite(time: Self::Time) -> (answer: bool)
        ensures
            answer == Self::spec_time_is_finite(time),
    ;

    /// Coefficients at an instant, in the order of the components.
    fn coefficients_at(&self, time: Self::Time) -> (result: Result<Vec<S>>)
        ensures
            linear::vector_is(result, self.spec_coefficients_at(time)),
    ;
}

/// Coefficients that change with the steps of a clock; the last ones stay.
#[derive(Debug)]
pub struct SteppedSchedule<S> {
    /// Coefficients of each step.
    pub steps: Vec<Vec<S>>,
}

impl<S: Scalar> Schedule<S> for SteppedSchedule<S> {
    type Time = u64;

    open spec fn spec_time_is_finite(time: u64) -> bool {
        true
    }

    open spec fn spec_coefficients_at(&self, time: u64) -> core::result::Result<
        Seq<S>,
        QmbedError,
    > {
        if self.steps@.len() == 0 {
            Err(QmbedError::InvalidOptions(Reason::Text("a schedule requires at least one step")))
        } else if time < self.steps@.len() {
            Ok(self.steps@[time as int]@)
        } else {
            Ok(self.steps@.last()@)
        }
    }

    fn time_is_finite(time: u64) -> (answer: bool) {
        true
    }

    fn coefficients_at(&self, time: u64) -> (result: Result<Vec<S>>) {
        if self.steps.len() == 0 {
            return Err(QmbedError::InvalidOptions(Reason::Text("a schedule requires at least one step")));
        }
        let last: usize = self.steps.len() - 1;
        let place: usize = if time < last as u64 {
            time as usize
        } else {
            last
        };
        Ok(copy_list(&self.steps[place]))
    }
}

/// A multiple of an operator family whose coefficients follow a schedule.
pub struct TimeOperator<'a, S, C> {
    model: &'a PackedOperatorModel<S>,
    scale: S,
    schedule: C,
}

impl<'a, S: Scalar, C: Schedule<S>> TimeOperator<'a, S, C> {
    /// The family.
    pub closed spec fn spec_model(&self) -> PackedOperatorModel<S> {
        *self.model
    }

    /// Factor of the whole family.
    pub closed spec fn spec_scale(&self) -> S {
        self.scale
    }

    /// Coefficients in time.
    pub closed spec fn spec_schedule(&self) -> C {
        self.schedule
    }

    /// A family with components.
    pub open spec fn valid(&self) -> bool {
        &&& self.spec_model().valid()
        &&& self.spec_model()@.components.len() > 0
    }
}

/// Image of a vector under a multiple of a family with scheduled coefficients.
pub open spec fn scheduled_image<S: Scalar>(
    model: interop::FamilyModel<S>,
    scale: S,
    coefficients: core::result::Result<Seq<S>, QmbedError>,
    input: Seq<S>,
) -> core::result::Result<Seq<S>, QmbedError> {
    match coefficients {
        Err(error) => Err(error),
        Ok(values) => if values.len() != model.components.len() || !interop::all_finite(values) {
            Err(
                QmbedError::InvalidOptions(
                    Reason::Text("time-dependent coefficients must be finite, one for each component"),
                ),
            )
        } else {
            match interop::family_image(model, values, input) {
                Ok(output) => Ok(linear::scaled(output, scale)),
                Err(error) => Err(error),
            }
        },
    }
}

/// Why a family has no time operator with a factor.
pub open spec fn schedule_refused<S: Scalar>(
    model: interop::FamilyModel<S>,
    scale: S,
) -> Option<QmbedError> {
    if !scale.spec_is_finite() {
        Some(QmbedError::InvalidOptions(Reason::Text("time-dependent operator scale must be finite")))
    } else if model.components.len() == 0 {
        Some(
            QmbedError::InvalidOptions(
                Reason::Text("time-dependent evolution requires at least one operator component"),
            ),
        )
    } else {
        None
    }
}

impl<S: Scalar> PackedOperatorModel<S> {
    /// The family with coefficients that follow a schedule, in the order of the components.
    pub fn time_operator<'a, C: Schedule<S>>(&'a self, schedule: C) -> (result: Result<
        TimeOperator<'a, S, C>,
    >)
        requires
            self.valid(),
        ensures
            match (result, schedule_refused(self@, S::spec_one())) {
                (Ok(operator), None) => {
                    &&& operator.valid()
                    &&& operator.spec_model() == *self
                    &&& operator.spec_scale() == S::spec_one()
                    &&& operator.spec_schedule() == schedule
                },
                (Err(error), Some(stated)) => error == stated,
                _ => false,
            },
    {
        self.time_operator_scaled(S::one(), schedule)
    }

    /// A multiple of the whole family with coefficients that follow a schedule.
    pub fn time_operator_scaled<'a, C: Schedule<S>>(&'a self, scale: S, schedule: C) -> (result:
        Result<TimeOperator<'a, S, C>>)
        requires
            self.valid(),
        ensures
            match (result, schedule_refused(self@, scale)) {
                (Ok(operator), None) => {
                    &&& operator.valid()
                    &&& operator.spec_model() == *self
                    &&& operator.spec_scale() == scale
                    &&& operator.spec_schedule() == schedule
                },
                (Err(error), Some(stated)) => error == stated,
                _ => false,
            },
    {
        if !scale.is_finite() {
            return Err(QmbedError::InvalidOptions(Reason::Text("time-dependent operator scale must be finite")));
        }
        if self.component_count() == 0 {
            return Err(
                QmbedError::InvalidOptions(
                    Reason::Text("time-dependent evolution requires at least one operator component"),
                ),
            );
        }
        Ok(TimeOperator { model: self, scale, schedule })
    }
}

impl<'a, S: Scalar, C: Schedule<S>> TimeDependentOperator for TimeOperator<'a, S, C> {
    type Value = S;

    type Time = C::Time;

    open spec fn wf(&self) -> bool {
        self.valid()
    }

    open spec fn spec_rows(&self) -> usize {
        self.spec_model()@.fixed.rows
    }

    open spec fn spec_columns(&self) -> usize {
        self.spec_model()@.fixed.columns
    }

    open spec fn spec_time_is_finite(time: C::Time) -> bool {
        C::spec_time_is_finite(time)
    }

    open spec fn spec_apply_at(&self, time: C::Time, input: Seq<S>) -> core::result::Result<
        Seq<S>,
        QmbedError,
    > {
        if input.len() == self.spec_columns() {
            scheduled_image(
                self.spec_model()@,
                self.spec_scale(),
                self.spec_schedule().spec_coefficients_at(time),
                input,
            )
        } else {
            Err(linear::input_refused(input.len(), self.spec_columns()))
        }
    }

    proof fn images_fit(&self, time: C::Time, input: Seq<S>) {
        let model = self.spec_model()@;
        self.spec_model().lemma_valid();
        linear::lemma_entries_apply(
            model.fixed.entries,
            input,
            model.fixed.rows,
            model.fixed.columns,
        );
    }

    fn shape(&self) -> (shape: (usize, usize)) {
        proof {
            self.model.lemma_valid();
        }
        self.model.static_part().shape()
    }

    fn time_is_finite(time: C::Time) -> (answer: bool) {
        C::time_is_finite(time)
    }

    fn apply_at(&self, time: C::Time, input: &Vec<S>) -> (result: Result<Vec<S>>) {
        let (_rows, columns) = self.shape();
        if let Err(error) = check_apply_shape(input, columns) {
            return Err(error);
        }
        let coefficients: Vec<S> = match self.schedule.coefficients_at(time) {
            Ok(coefficients) => coefficients,
            Err(error) => {
                return Err(error);
            },
        };
        if coefficients.len() != self.model.component_count() || !interop::are_finite(
            &coefficients,
        ) {
            return Err(
                QmbedError::InvalidOptions(
                    Reason::Text("time-dependent coefficients must be finite, one for each component"),
                ),
            );
        }
        match self.model.apply_coefficients(&coefficients, input) {
            Ok(output) => Ok(scale_vector(&output, self.scale)),
            Err(error) => Err(error),
        }
    }
}

} // verus!

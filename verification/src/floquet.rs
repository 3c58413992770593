//! Periodic drives, their propagators and time grids, and dynamical responses.

use vstd::prelude::*;

use crate::ensemble;
use crate::ensemble::ComplexOver;
use crate::error::{QmbedError, Reason, Result};
use crate::linear;
use crate::linear::{unit_vector, Entries, Extent, Gaussian, LinearOperator, Scalar};
use crate::matrix_subspace::Normed;
use crate::numbers::{RealNumber, Whole};
use crate::ordered::copy_list;
use crate::time_block::TimeDependentOperator;

verus! {

/// One piecewise-constant Hamiltonian and its physical duration.
#[derive(Debug)]
pub struct DriveStep<H, R> {
    /// Square Hermitian generator.
    pub hamiltonian: H,
    /// Nonnegative evolution duration.
    pub duration: R,
}

/// One explicitly time-dependent Hamiltonian and its physical duration.
#[derive(Debug)]
pub struct CallableDriveStep<H, R> {
    /// Square generator evaluated at internal integration times.
    pub hamiltonian: H,
    /// Nonnegative evolution duration.
    pub duration: R,
}

/// Whether a number can be a duration.
pub open spec fn lasting<R: RealNumber>(duration: R) -> bool {
    duration.spec_is_finite() && R::spec_zero().spec_at_most(duration)
}

fn is_lasting<R: RealNumber>(duration: R) -> (answer: bool)
    ensures
        answer == lasting(duration),
{
    duration.is_finite() && R::zero().at_most(duration)
}

impl<H: LinearOperator, R: RealNumber> DriveStep<H, R> {
    /// Validate a static square Hamiltonian and a nonnegative duration.
    pub fn new(hamiltonian: H, duration: R) -> (result: Result<Self>)
        requires
            hamiltonian.wf(),
        ensures
            result == if hamiltonian.spec_rows() != hamiltonian.spec_columns() {
                Err::<Self, QmbedError>(
                    QmbedError::DimensionMismatch(Reason::Text("a drive Hamiltonian must be square")),
                )
            } else if !lasting(duration) {
                Err(QmbedError::InvalidOptions(Reason::Text("drive duration must be finite and nonnegative")))
            } else {
                Ok((DriveStep { hamiltonian, duration }))
            },
    {
        let (rows, columns) = hamiltonian.shape();
        if rows != columns {
            return Err(QmbedError::DimensionMismatch(Reason::Text("a drive Hamiltonian must be square")));
        }
        if !is_lasting(duration) {
            return Err(QmbedError::InvalidOptions(Reason::Text("drive duration must be finite and nonnegative")));
        }
        Ok(DriveStep { hamiltonian, duration })
    }
}

impl<H: TimeDependentOperator, R: RealNumber> CallableDriveStep<H, R> {
    /// Validate a square Hamiltonian that depends on time and a nonnegative duration.
    pub fn new(hamiltonian: H, duration: R) -> (result: Result<Self>)
        requires
            hamiltonian.wf(),
        ensures
            result == if hamiltonian.spec_rows() != hamiltonian.spec_columns() {
                Err::<Self, QmbedError>(
                    QmbedError::DimensionMismatch(Reason::Text("a callable drive Hamiltonian must be square")),
                )
            } else if !lasting(duration) {
                Err(QmbedError::InvalidOptions(Reason::Text("drive duration must be finite and nonnegative")))
            } else {
                Ok((CallableDriveStep { hamiltonian, duration }))
            },
    {
        let (rows, columns) = hamiltonian.shape();
        if rows != columns {
            return Err(
                QmbedError::DimensionMismatch(Reason::Text("a callable drive Hamiltonian must be square")),
            );
        }
        if !is_lasting(duration) {
            return Err(QmbedError::InvalidOptions(Reason::Text("drive duration must be finite and nonnegative")));
        }
        Ok(CallableDriveStep { hamiltonian, duration })
    }
}

/// A way to evolve a state under a Hamiltonian for a time.
pub trait Propagation<H, R: RealNumber> {
    type Value: Scalar;

    /// A state after a time.
    spec fn spec_evolve(
        &self,
        hamiltonian: H,
        state: Entries<Self::Value>,
        duration: R,
    ) -> core::result::Result<
        Entries<Self::Value>,
        QmbedError,
    >;

    /// Whether a Hamiltonian can be evolved with in a dimension.
    spec fn ready(&self, hamiltonian: H, dimension: Extent) -> bool;

    /// States keep their length.
    proof fn states_fit(&self, hamiltonian: H, state: Entries<Self::Value>, duration: R)
        requires
            self.ready(hamiltonian, state.len()),
        ensures
            match self.spec_evolve(hamiltonian, state, duration) {
                Ok(later) => later.len() == state.len(),
                Err(_) => true,
            },
    ;

    /// A state after a time.
    fn evolve(&self, hamiltonian: &H, state: &Vec<Self::Value>, duration: R) -> (result: Result<
        Vec<Self::Value>,
    >)
        requires
            self.ready(*hamiltonian, state@.len()),
        ensures
            linear::vector_is(result, self.spec_evolve(*hamiltonian, state@, duration)),
    ;
}

/// Evolution where each operator is the propagator of a unit of time and durations count units.
#[derive(Clone, Copy, Debug)]
pub struct UnitPropagators;

/// A vector after an operator acted on it a number of times.
pub open spec fn acted<O: LinearOperator>(
    operator: O,
    state: Seq<O::Value>,
    count: nat,
) -> core::result::Result<Seq<O::Value>, QmbedError>
    decreases count,
{
    if count == 0 {
        Ok(state)
    } else {
        match acted(operator, state, (count - 1) as nat) {
            Err(error) => Err(error),
            Ok(before) => operator.spec_apply(before),
        }
    }
}

proof fn lemma_acted_fits<O: LinearOperator>(operator: O, state: Seq<O::Value>, count: nat)
    requires
        operator.wf(),
        operator.spec_rows() == operator.spec_columns(),
        operator.spec_rows() == state.len(),
    ensures
        match acted(operator, state, count) {
            Ok(later) => later.len() == state.len(),
            Err(_) => true,
        },
    decreases count,
{
    if count > 0 {
        lemma_acted_fits(operator, state, (count - 1) as nat);
        match acted(operator, state, (count - 1) as nat) {
            Ok(before) => operator.images_fit(before),
            Err(_) => {},
        }
    }
}

proof fn lemma_acted_fails<O: LinearOperator>(
    operator: O,
    state: Seq<O::Value>,
    count: nat,
    later: nat,
)
    requires
        count <= later,
        acted(operator, state, count) is Err,
    ensures
        acted(operator, state, later) == acted(operator, state, count),
    decreases later,
{
    if count < later {
        lemma_acted_fails(operator, state, count, (later - 1) as nat);
    }
}

impl<H: LinearOperator> Propagation<H, Whole> for UnitPropagators {
    type Value = H::Value;

    open spec fn spec_evolve(&self, hamiltonian: H, state: Seq<H::Value>, duration: Whole) -> core::result::Result<
        Seq<H::Value>,
        QmbedError,
    > {
        acted(
            hamiltonian,
            state,
            if duration.value <= 0 {
                0nat
            } else {
                duration.value as nat
            },
        )
    }

    open spec fn ready(&self, hamiltonian: H, dimension: nat) -> bool {
        &&& hamiltonian.wf()
        &&& hamiltonian.spec_rows() == dimension
        &&& hamiltonian.spec_columns() == dimension
    }

    proof fn states_fit(&self, hamiltonian: H, state: Seq<H::Value>, duration: Whole) {
        let count = if duration.value <= 0 {
            0nat
        } else {
            duration.value as nat
        };
        lemma_acted_fits(hamiltonian, state, count);
    }

    fn evolve(&self, hamiltonian: &H, state: &Vec<H::Value>, duration: Whole) -> (result: Result<
        Vec<H::Value>,
    >) {
        let mut current: Vec<H::Value> = copy_list(state);
        let mut next: i64 = 0;
        let total: i64 = if duration.value <= 0 {
            0
        } else {
            duration.value
        };
        while next < total
            invariant
                0 <= next <= total,
                hamiltonian.wf(),
                hamiltonian.spec_rows() == state@.len(),
                hamiltonian.spec_columns() == state@.len(),
                total == if duration.value <= 0 {
                    0
                } else {
                    duration.value as int
                },
                acted(*hamiltonian, state@, next as nat) == Ok::<Seq<H::Value>, QmbedError>(
                    current@,
                ),
                current@.len() == state@.len(),
            decreases total - next,
        {
            proof {
                lemma_acted_fits(*hamiltonian, state@, (next + 1) as nat);
            }
            match hamiltonian.apply(&current) {
                Ok(image) => {
                    current = image;
                },
                Err(error) => {
                    proof {
                        lemma_acted_fails(*hamiltonian, state@, (next + 1) as nat, total as nat);
                    }
                    return Err(error);
                },
            }
            next += 1;
        }
        Ok(current)
    }
}

/// One period of a piecewise drive.
#[derive(Debug)]
pub struct Floquet<H, R, E> {
    steps: Vec<DriveStep<H, R>>,
    dimension: usize,
    evolution: E,
    analysis_period: Option<R>,
}

/// Shapes of the generators of static steps.
pub open spec fn static_shapes<H: LinearOperator, R>(steps: Seq<DriveStep<H, R>>) -> Seq<
    (usize, usize),
> {
    Seq::new(
        steps.len(),
        |i: int| (steps[i].hamiltonian.spec_rows(), steps[i].hamiltonian.spec_columns()),
    )
}

/// Shapes of the generators of steps that depend on time.
pub open spec fn callable_shapes<H: TimeDependentOperator, R>(
    steps: Seq<CallableDriveStep<H, R>>,
) -> Seq<(usize, usize)> {
    Seq::new(
        steps.len(),
        |i: int| (steps[i].hamiltonian.spec_rows(), steps[i].hamiltonian.spec_columns()),
    )
}

/// Why steps with some shapes are not a drive.
pub open spec fn drive_refused(shapes: Seq<(usize, usize)>) -> Option<QmbedError> {
    if shapes.len() == 0 {
        Some(QmbedError::InvalidOptions(Reason::Text("Floquet requires at least one drive step")))
    } else if !(forall|i: int|
        0 <= i < shapes.len() ==> #[trigger] shapes[i] == (shapes[0].0, shapes[0].0)) {
        Some(QmbedError::DimensionMismatch(Reason::Text("all drive steps must have the same square shape")))
    } else {
        None
    }
}

fn check_shapes(shapes: &Vec<(usize, usize)>) -> (refused: Option<QmbedError>)
    ensures
        refused == drive_refused(shapes@),
{
    if shapes.len() == 0 {
        return Some(QmbedError::InvalidOptions(Reason::Text("Floquet requires at least one drive step")));
    }
    let dimension: usize = shapes[0].0;
    let mut next: usize = 0;
    while next < shapes.len()
        invariant
            next <= shapes@.len(),
            shapes@.len() > 0,
            dimension == shapes@[0].0,
            forall|i: int|
                0 <= i < next ==> #[trigger] shapes@[i] == (shapes@[0].0, shapes@[0].0),
        decreases shapes@.len() - next,
    {
        if shapes[next].0 != dimension || shapes[next].1 != dimension {
            assert(shapes@[next as int] != (shapes@[0].0, shapes@[0].0));
            return Some(
                QmbedError::DimensionMismatch(Reason::Text("all drive steps must have the same square shape")),
            );
        }
        next += 1;
    }
    None
}

/// A state after the first steps of a drive.
pub open spec fn driven<H, R: RealNumber, E: Propagation<H, R>>(
    steps: Seq<DriveStep<H, R>>,
    evolution: E,
    state: Seq<E::Value>,
    count: nat,
) -> core::result::Result<Seq<E::Value>, QmbedError>
    decreases count,
{
    if count == 0 {
        Ok(state)
    } else {
        match driven(steps, evolution, state, (count - 1) as nat) {
            Err(error) => Err(error),
            Ok(before) => evolution.spec_evolve(
                steps[count - 1].hamiltonian,
                before,
                steps[count - 1].duration,
            ),
        }
    }
}

pub proof fn lemma_driven_fits<H, R: RealNumber, E: Propagation<H, R>>(
    steps: Seq<DriveStep<H, R>>,
    evolution: E,
    state: Seq<E::Value>,
    count: nat,
)
    requires
        count <= steps.len(),
        forall|i: int|
            0 <= i < steps.len() ==> evolution.ready(
                (#[trigger] steps[i]).hamiltonian,
                state.len(),
            ),
    ensures
        match driven(steps, evolution, state, count) {
            Ok(later) => later.len() == state.len(),
            Err(_) => true,
        },
    decreases count,
{
    if count > 0 {
        lemma_driven_fits(steps, evolution, state, (count - 1) as nat);
        match driven(steps, evolution, state, (count - 1) as nat) {
            Ok(before) => {
                let step = steps[count - 1];
                evolution.states_fit(step.hamiltonian, before, step.duration);
            },
            Err(_) => {},
        }
    }
}

proof fn lemma_driven_fails<H, R: RealNumber, E: Propagation<H, R>>(
    steps: Seq<DriveStep<H, R>>,
    evolution: E,
    state: Seq<E::Value>,
    count: nat,
    later: nat,
)
    requires
        count <= later,
        driven(steps, evolution, state, count) is Err,
    ensures
        driven(steps, evolution, state, later) == driven(steps, evolution, state, count),
    decreases later,
{
    if count < later {
        lemma_driven_fails(steps, evolution, state, count, (later - 1) as nat);
    }
}

/// Sum of the first durations of a drive.
pub open spec fn lasted<H, R: RealNumber>(steps: Seq<DriveStep<H, R>>, count: nat) -> R
    decreases count,
{
    if count == 0 {
        R::spec_zero()
    } else {
        lasted(steps, (count - 1) as nat).spec_plus(steps[count - 1].duration)
    }
}

/// A state after one period of a drive.
pub open spec fn period_image<H, R: RealNumber, E: Propagation<H, R>>(
    steps: Seq<DriveStep<H, R>>,
    dimension: usize,
    evolution: E,
    state: Seq<E::Value>,
) -> core::result::Result<Seq<E::Value>, QmbedError> {
    if state.len() != dimension {
        Err(QmbedError::DimensionMismatch(Reason::Text("Floquet input or output length does not match")))
    } else {
        driven(steps, evolution, state, steps.len())
    }
}

/// Whether a number can be a period.
pub open spec fn recurring<R: RealNumber>(period: R) -> bool {
    period.spec_is_finite() && !period.spec_at_most(R::spec_zero())
}

pub fn is_recurring<R: RealNumber>(period: R) -> (answer: bool)
    ensures
        answer == recurring(period),
{
    period.is_finite() && !period.at_most(R::zero())
}

/// Columns of a period propagator, one after another.
pub open spec fn unitary_columns<H, R: RealNumber, E: Propagation<H, R>>(
    steps: Seq<DriveStep<H, R>>,
    dimension: usize,
    evolution: E,
    count: nat,
) -> core::result::Result<Seq<Seq<E::Value>>, QmbedError>
    decreases count,
{
    if count == 0 {
        Ok(Seq::empty())
    } else {
        match unitary_columns(steps, dimension, evolution, (count - 1) as nat) {
            Err(error) => Err(error),
            Ok(before) => match driven(
                steps,
                evolution,
                linear::unit(dimension as nat, (count - 1) as nat),
                steps.len(),
            ) {
                Err(error) => Err(error),
                Ok(column) => Ok(before.push(column)),
            },
        }
    }
}

proof fn lemma_columns_fail<H, R: RealNumber, E: Propagation<H, R>>(
    steps: Seq<DriveStep<H, R>>,
    dimension: usize,
    evolution: E,
    count: nat,
    later: nat,
)
    requires
        count <= later,
        unitary_columns(steps, dimension, evolution, count) is Err,
    ensures
        unitary_columns(steps, dimension, evolution, later) == unitary_columns(
            steps,
            dimension,
            evolution,
            count,
        ),
    decreases later,
{
    if count < later {
        lemma_columns_fail(steps, dimension, evolution, count, (later - 1) as nat);
    }
}

impl<H, R, E> Floquet<H, R, E> {
    /// Steps of one period.
    pub closed spec fn spec_steps(&self) -> Seq<DriveStep<H, R>> {
        self.steps@
    }

    /// Length of the states.
    pub closed spec fn spec_dimension(&self) -> usize {
        self.dimension
    }

    /// Controls of the evolution.
    pub closed spec fn spec_evolution(&self) -> E {
        self.evolution
    }

    /// The declared period.
    pub closed spec fn spec_declared(&self) -> Option<R> {
        self.analysis_period
    }
}

impl<H, R: RealNumber, E: Propagation<H, R>> Floquet<H, R, E> {
    /// Every step can be evolved with.
    pub open spec fn valid(&self) -> bool {
        forall|i: int|
            0 <= i < self.spec_steps().len() ==> self.spec_evolution().ready(
                (#[trigger] self.spec_steps()[i]).hamiltonian,
                self.spec_dimension() as nat,
            )
    }

    /// Replace the controls used to evolve each drive step.
    pub fn with_evolution_options(self, options: E) -> (floquet: Self)
        requires
            forall|i: int|
                0 <= i < self.spec_steps().len() ==> options.ready(
                    (#[trigger] self.spec_steps()[i]).hamiltonian,
                    self.spec_dimension() as nat,
                ),
        ensures
            floquet.valid(),
            floquet.spec_steps() == self.spec_steps(),
            floquet.spec_dimension() == self.spec_dimension(),
            floquet.spec_evolution() == options,
            floquet.spec_declared() == self.spec_declared(),
    {
        let ghost steps = self.spec_steps();
        let floquet: Self = Floquet { evolution: options, ..self };
        assert(floquet.spec_steps() == steps);
        floquet
    }

    /// Declare the physical period used for quasienergies and the effective Hamiltonian; the
    /// durations of the steps stay.
    pub fn with_period(self, period: R) -> (result: Result<Self>)
        ensures
            match result {
                Ok(floquet) => {
                    &&& recurring(period)
                    &&& floquet.spec_steps() == self.spec_steps()
                    &&& floquet.spec_dimension() == self.spec_dimension()
                    &&& floquet.spec_evolution() == self.spec_evolution()
                    &&& floquet.spec_declared() == Some(period)
                    &&& self.valid() ==> floquet.valid()
                },
                Err(error) => {
                    &&& !recurring(period)
                    &&& error == QmbedError::InvalidOptions(
                        Reason::Text("Floquet analysis period must be finite and positive"),
                    )
                },
            },
    {
        if !is_recurring(period) {
            return Err(
                QmbedError::InvalidOptions(Reason::Text("Floquet analysis period must be finite and positive")),
            );
        }
        Ok(Floquet { analysis_period: Some(period), ..self })
    }

    /// Sum of the durations of the steps.
    pub fn protocol_duration(&self) -> (duration: R)
        ensures
            duration == lasted(self.spec_steps(), self.spec_steps().len()),
    {
        let mut duration: R = R::zero();
        let mut next: usize = 0;
        while next < self.steps.len()
            invariant
                next <= self.steps@.len(),
                duration == lasted(self.steps@, next as nat),
            decreases self.steps@.len() - next,
        {
            duration = duration.plus(self.steps[next].duration);
            next += 1;
        }
        duration
    }

    /// Length of the states.
    pub fn dimension(&self) -> (dimension: usize)
        ensures
            dimension == self.spec_dimension(),
    {
        self.dimension
    }

    /// The declared period, or the sum of the durations of the steps.
    pub fn period(&self) -> (period: R)
        ensures
            period == match self.spec_declared() {
                Some(declared) => declared,
                None => lasted(self.spec_steps(), self.spec_steps().len()),
            },
    {
        match self.analysis_period {
            Some(declared) => declared,
            None => self.protocol_duration(),
        }
    }

    fn drive(&self, input: &Vec<E::Value>) -> (result: Result<Vec<E::Value>>)
        requires
            self.valid(),
            input@.len() == self.spec_dimension(),
        ensures
            linear::vector_is(
                result,
                driven(self.spec_steps(), self.spec_evolution(), input@, self.spec_steps().len()),
            ),
    {
        let mut state: Vec<E::Value> = copy_list(input);
        let mut next: usize = 0;
        while next < self.steps.len()
            invariant
                next <= self.steps@.len(),
                self.valid(),
                input@.len() == self.spec_dimension(),
                driven(self.steps@, self.evolution, input@, next as nat) == Ok::<
                    Seq<E::Value>,
                    QmbedError,
                >(state@),
                state@.len() == input@.len(),
            decreases self.steps@.len() - next,
        {
            proof {
                lemma_driven_fits(self.steps@, self.evolution, input@, (next + 1) as nat);
                assert(self.spec_evolution().ready(
                    self.spec_steps()[next as int].hamiltonian,
                    self.spec_dimension() as nat,
                ));
            }
            let step: &DriveStep<H, R> = &self.steps[next];
            match self.evolution.evolve(&step.hamiltonian, &state, step.duration) {
                Ok(later) => {
                    state = later;
                },
                Err(error) => {
                    proof {
                        lemma_driven_fails(
                            self.steps@,
                            self.evolution,
                            input@,
                            (next + 1) as nat,
                            self.steps@.len(),
                        );
                    }
                    return Err(error);
                },
            }
            next += 1;
        }
        Ok(state)
    }

    /// Apply one period of the drive in the order of its steps.
    pub fn apply_period(&self, input: &Vec<E::Value>) -> (result: Result<Vec<E::Value>>)
        requires
            self.valid(),
        ensures
            linear::vector_is(
                result,
                period_image(
                    self.spec_steps(),
                    self.spec_dimension(),
                    self.spec_evolution(),
                    input@,
                ),
            ),
    {
        if input.len() != self.dimension {
            return Err(
                QmbedError::DimensionMismatch(Reason::Text("Floquet input or output length does not match")),
            );
        }
        self.drive(input)
    }

    /// Columns of the propagator of one period.
    pub fn full_unitary(&self) -> (result: Result<Vec<Vec<E::Value>>>)
        requires
            self.valid(),
        ensures
            match (
                result,
                unitary_columns(
                    self.spec_steps(),
                    self.spec_dimension(),
                    self.spec_evolution(),
                    self.spec_dimension() as nat,
                ),
            ) {
                (Ok(columns), Ok(stated)) => ensemble::vectors(columns@) == stated,
                (Err(error), Err(stated)) => error == stated,
                _ => false,
            },
    {
        let mut columns: Vec<Vec<E::Value>> = Vec::new();
        let mut next: usize = 0;
        assert(ensemble::vectors(columns@) =~= Seq::empty());
        while next < self.dimension
            invariant
                next <= self.dimension,
                self.valid(),
                self.dimension == self.spec_dimension(),
                unitary_columns(self.steps@, self.dimension, self.evolution, next as nat) == Ok::<
                    Seq<Seq<E::Value>>,
                    QmbedError,
                >(ensemble::vectors(columns@)),
            decreases self.dimension - next,
        {
            let unit: Vec<E::Value> = unit_vector(self.dimension, next);
            let ghost before = ensemble::vectors(columns@);
            match self.drive(&unit) {
                Ok(column) => {
                    let ghost added = column@;
                    columns.push(column);
                    assert(ensemble::vectors(columns@) =~= before.push(added));
                },
                Err(error) => {
                    proof {
                        lemma_columns_fail(
                            self.steps@,
                            self.dimension,
                            self.evolution,
                            (next + 1) as nat,
                            self.dimension as nat,
                        );
                    }
                    return Err(error);
                },
            }
            next += 1;
        }
        Ok(columns)
    }
}

impl<H: LinearOperator, R: RealNumber, E: Propagation<H, R>> Floquet<H, R, E> {
    /// One period made of static steps in order.
    pub fn new(steps: Vec<DriveStep<H, R>>, evolution: E) -> (result: Result<Self>)
        requires
            forall|i: int|
                0 <= i < steps@.len() ==> (#[trigger] steps@[i]).hamiltonian.wf()
                    && evolution.ready(
                    steps@[i].hamiltonian,
                    steps@[i].hamiltonian.spec_rows() as nat,
                ),
        ensures
            match result {
                Ok(floquet) => {
                    &&& drive_refused(static_shapes(steps@)) is None
                    &&& floquet.valid()
                    &&& floquet.spec_steps() == steps@
                    &&& floquet.spec_dimension() == steps@[0].hamiltonian.spec_rows()
                    &&& floquet.spec_evolution() == evolution
                    &&& floquet.spec_declared() is None
                },
                Err(error) => drive_refused(static_shapes(steps@)) == Some(error),
            },
    {
        let mut shapes: Vec<(usize, usize)> = Vec::new();
        let mut next: usize = 0;
        while next < steps.len()
            invariant
                next <= steps@.len(),
                forall|i: int|
                    0 <= i < steps@.len() ==> (#[trigger] steps@[i]).hamiltonian.wf(),
                shapes@ == static_shapes(steps@).take(next as int),
            decreases steps@.len() - next,
        {
            shapes.push(steps[next].hamiltonian.shape());
            next += 1;
            assert(shapes@ =~= static_shapes(steps@).take(next as int));
        }
        assert(shapes@ =~= static_shapes(steps@));
        match check_shapes(&shapes) {
            Some(error) => Err(error),
            None => {
                let dimension: usize = shapes[0].0;
                proof {
                    assert forall|i: int| 0 <= i < steps@.len() implies evolution.ready(
                        (#[trigger] steps@[i]).hamiltonian,
                        dimension as nat,
                    ) by {
                        assert(static_shapes(steps@)[i] == (dimension, dimension));
                    }
                }
                Ok(Floquet { steps, dimension, evolution, analysis_period: None })
            },
        }
    }
}

/// Steps that depend on time, as the steps of a drive.
pub open spec fn as_steps<H, R>(steps: Seq<CallableDriveStep<H, R>>) -> Seq<DriveStep<H, R>> {
    Seq::new(
        steps.len(),
        |i: int| DriveStep { hamiltonian: steps[i].hamiltonian, duration: steps[i].duration },
    )
}

impl<H: TimeDependentOperator, R: RealNumber, E: Propagation<H, R>> Floquet<H, R, E> {
    /// One period made of steps that depend on time, in order.
    pub fn from_callable(steps: Vec<CallableDriveStep<H, R>>, evolution: E) -> (result: Result<
        Self,
    >)
        requires
            forall|i: int|
                0 <= i < steps@.len() ==> (#[trigger] steps@[i]).hamiltonian.wf()
                    && evolution.ready(
                    steps@[i].hamiltonian,
                    steps@[i].hamiltonian.spec_rows() as nat,
                ),
        ensures
            match result {
                Ok(floquet) => {
                    &&& drive_refused(callable_shapes(steps@)) is None
                    &&& floquet.valid()
                    &&& floquet.spec_steps() == as_steps(steps@)
                    &&& floquet.spec_dimension() == steps@[0].hamiltonian.spec_rows()
                    &&& floquet.spec_evolution() == evolution
                    &&& floquet.spec_declared() is None
                },
                Err(error) => drive_refused(callable_shapes(steps@)) == Some(error),
            },
    {
        let ghost given = steps@;
        let mut shapes: Vec<(usize, usize)> = Vec::new();
        let mut next: usize = 0;
        while next < steps.len()
            invariant
                next <= steps@.len(),
                forall|i: int|
                    0 <= i < steps@.len() ==> (#[trigger] steps@[i]).hamiltonian.wf(),
                shapes@ == callable_shapes(steps@).take(next as int),
            decreases steps@.len() - next,
        {
            shapes.push(steps[next].hamiltonian.shape());
            next += 1;
            assert(shapes@ =~= callable_shapes(steps@).take(next as int));
        }
        assert(shapes@ =~= callable_shapes(steps@));
        match check_shapes(&shapes) {
            Some(error) => Err(error),
            None => {
                let dimension: usize = shapes[0].0;
                let mut left: Vec<CallableDriveStep<H, R>> = steps;
                let mut taken: Vec<DriveStep<H, R>> = Vec::new();
                while left.len() > 0
                    invariant
                        left@.len() + taken@.len() == given.len(),
                        left@ == given.take(left@.len() as int),
                        taken@ == as_steps(given).skip(left@.len() as int),
                    decreases left@.len(),
                {
                    let ghost kept = taken@;
                    match left.pop() {
                        Some(step) => {
                            taken.insert(
                                0,
                                DriveStep { hamiltonian: step.hamiltonian, duration: step.duration },
                            );
                            assert(left@ =~= given.take(left@.len() as int));
                            assert(taken@ =~= as_steps(given).skip(left@.len() as int));
                        },
                        None => {},
                    }
                }
                assert(taken@ =~= as_steps(given));
                proof {
                    assert forall|i: int| 0 <= i < taken@.len() implies evolution.ready(
                        (#[trigger] taken@[i]).hamiltonian,
                        dimension as nat,
                    ) by {
                        assert(callable_shapes(given)[i] == (dimension, dimension));
                        assert(given[i].hamiltonian.wf());
                    }
                }
                Ok(Floquet { steps: taken, dimension, evolution, analysis_period: None })
            },
        }
    }
}

/// A place in a Floquet time grid.
#[derive(Clone, Copy, Debug, PartialEq, Eq, Structural)]
pub struct FloquetCoordinate<R> {
    pub cycle: usize,
    pub within_cycle: R,
}

/// A uniform time grid over the cycles of a drive.
#[derive(Clone, Debug)]
pub struct FloquetTimeVector<R> {
    period: R,
    cycles: usize,
    points_per_cycle: usize,
    times: Vec<R>,
}

/// Period, numbers and times of a grid.
pub struct GridModel<R> {
    pub period: R,
    pub cycles: usize,
    pub points_per_cycle: usize,
    pub times: Seq<R>,
}

/// Instants that follow each other by a step.
pub open spec fn stepped_times<R: RealNumber>(step: R, count: nat) -> Seq<R> {
    Seq::new(count, |index: int| R::spec_count(index as usize).spec_times(step))
}

/// Instants from a start on that follow each other by a step.
pub open spec fn shifted_times<R: RealNumber>(start: R, step: R, count: nat) -> Seq<R> {
    Seq::new(count, |index: int| start.spec_plus(R::spec_count(index as usize).spec_times(step)))
}

/// A grid that starts at zero.
pub open spec fn plain_grid<R: RealNumber>(
    period: R,
    cycles: usize,
    points_per_cycle: usize,
    include_endpoint: bool,
) -> core::result::Result<GridModel<R>, QmbedError> {
    let extra: int = if include_endpoint {
        1
    } else {
        0
    };
    let points = cycles * points_per_cycle + extra;
    if !recurring(period) || cycles == 0 || points_per_cycle == 0 {
        Err(QmbedError::InvalidOptions(Reason::Text("Floquet time-vector controls must be positive")))
    } else if points > usize::MAX {
        Err(QmbedError::InvalidOptions(Reason::Text("Floquet time-vector overflow")))
    } else {
        let step = period.spec_over(R::spec_count(points_per_cycle));
        Ok(
            GridModel {
                period,
                cycles,
                points_per_cycle,
                times: stepped_times(step, points as nat),
            },
        )
    }
}

/// A grid over a ramp up, a constant stage and a ramp down; the constant stage starts at zero.
pub open spec fn staged_grid<R: RealNumber>(
    period: R,
    ramp_up_cycles: usize,
    constant_cycles: usize,
    ramp_down_cycles: usize,
    points_per_cycle: usize,
) -> core::result::Result<GridModel<R>, QmbedError> {
    let cycles = ramp_up_cycles + constant_cycles + ramp_down_cycles;
    if cycles > usize::MAX {
        Err(QmbedError::InvalidOptions(Reason::Text("Floquet cycle count overflow")))
    } else if !recurring(period) || constant_cycles == 0 || points_per_cycle == 0 {
        Err(QmbedError::InvalidOptions(Reason::Text("Floquet staged-grid controls must be positive")))
    } else if cycles * points_per_cycle + 1 > usize::MAX {
        Err(QmbedError::InvalidOptions(Reason::Text("Floquet time-vector overflow")))
    } else {
        let step = period.spec_over(R::spec_count(points_per_cycle));
        let start = R::spec_zero().spec_minus(R::spec_count(ramp_up_cycles)).spec_times(period);
        Ok(
            GridModel {
                period,
                cycles: cycles as usize,
                points_per_cycle,
                times: shifted_times(start, step, (cycles * points_per_cycle + 1) as nat),
            },
        )
    }
}

impl<R> View for FloquetTimeVector<R> {
    type V = GridModel<R>;

    closed spec fn view(&self) -> GridModel<R> {
        GridModel {
            period: self.period,
            cycles: self.cycles,
            points_per_cycle: self.points_per_cycle,
            times: self.times@,
        }
    }
}

impl<R: RealNumber> FloquetTimeVector<R> {
    /// A cycle has points.
    pub open spec fn valid(&self) -> bool {
        self@.points_per_cycle > 0
    }

    /// A grid that starts at zero.
    pub fn new(period: R, cycles: usize, points_per_cycle: usize, include_endpoint: bool) -> (result:
        Result<Self>)
        ensures
            match (result, plain_grid(period, cycles, points_per_cycle, include_endpoint)) {
                (Ok(grid), Ok(stated)) => grid.valid() && grid@ == stated,
                (Err(error), Err(stated)) => error == stated,
                _ => false,
            },
    {
        if !is_recurring(period) || cycles == 0 || points_per_cycle == 0 {
            return Err(QmbedError::InvalidOptions(Reason::Text("Floquet time-vector controls must be positive")));
        }
        let within: usize = match cycles.checked_mul(points_per_cycle) {
            Some(product) => product,
            None => {
                return Err(QmbedError::InvalidOptions(Reason::Text("Floquet time-vector overflow")));
            },
        };
        if include_endpoint && within == usize::MAX {
            return Err(QmbedError::InvalidOptions(Reason::Text("Floquet time-vector overflow")));
        }
        let points: usize = if include_endpoint {
            within + 1
        } else {
            within
        };
        let step: R = period.over(R::count(points_per_cycle));
        let mut times: Vec<R> = Vec::new();
        let mut next: usize = 0;
        while next < points
            invariant
                next <= points,
                times@ == stepped_times(step, points as nat).take(next as int),
            decreases points - next,
        {
            times.push(R::count(next).times(step));
            next += 1;
            assert(times@ =~= stepped_times(step, points as nat).take(next as int));
        }
        assert(times@ =~= stepped_times(step, points as nat));
        Ok(FloquetTimeVector { period, cycles, points_per_cycle, times })
    }

    /// A grid over a ramp up, a constant stage and a ramp down. It starts before zero by the
    /// ramp up and holds its last endpoint.
    pub fn staged(
        period: R,
        ramp_up_cycles: usize,
        constant_cycles: usize,
        ramp_down_cycles: usize,
        points_per_cycle: usize,
    ) -> (result: Result<Self>)
        ensures
            match (
                result,
                staged_grid(
                    period,
                    ramp_up_cycles,
                    constant_cycles,
                    ramp_down_cycles,
                    points_per_cycle,
                ),
            ) {
                (Ok(grid), Ok(stated)) => grid.valid() && grid@ == stated,
                (Err(error), Err(stated)) => error == stated,
                _ => false,
            },
    {
        let early: usize = match ramp_up_cycles.checked_add(constant_cycles) {
            Some(sum) => sum,
            None => {
                return Err(QmbedError::InvalidOptions(Reason::Text("Floquet cycle count overflow")));
            },
        };
        let cycles: usize = match early.checked_add(ramp_down_cycles) {
            Some(sum) => sum,
            None => {
                return Err(QmbedError::InvalidOptions(Reason::Text("Floquet cycle count overflow")));
            },
        };
        if !is_recurring(period) || constant_cycles == 0 || cycles == 0 || points_per_cycle == 0 {
            return Err(QmbedError::InvalidOptions(Reason::Text("Floquet staged-grid controls must be positive")));
        }
        let within: usize = match cycles.checked_mul(points_per_cycle) {
            Some(product) => product,
            None => {
                return Err(QmbedError::InvalidOptions(Reason::Text("Floquet time-vector overflow")));
            },
        };
        if within == usize::MAX {
            return Err(QmbedError::InvalidOptions(Reason::Text("Floquet time-vector overflow")));
        }
        let points: usize = within + 1;
        let step: R = period.over(R::count(points_per_cycle));
        let start: R = R::zero().minus(R::count(ramp_up_cycles)).times(period);
        let mut times: Vec<R> = Vec::new();
        let mut next: usize = 0;
        while next < points
            invariant
                next <= points,
                times@ == shifted_times(start, step, points as nat).take(next as int),
            decreases points - next,
        {
            times.push(start.plus(R::count(next).times(step)));
            next += 1;
            assert(times@ =~= shifted_times(start, step, points as nat).take(next as int));
        }
        assert(times@ =~= shifted_times(start, step, points as nat));
        Ok(FloquetTimeVector { period, cycles, points_per_cycle, times })
    }

    /// The period.
    pub fn period(&self) -> (period: R)
        ensures
            period == self@.period,
    {
        self.period
    }

    /// The number of cycles.
    pub fn cycles(&self) -> (cycles: usize)
        ensures
            cycles == self@.cycles,
    {
        self.cycles
    }

    /// The number of points in a cycle.
    pub fn points_per_cycle(&self) -> (points: usize)
        ensures
            points == self@.points_per_cycle,
    {
        self.points_per_cycle
    }

    /// The instants.
    pub fn times(&self) -> (times: &Vec<R>)
        ensures
            times@ == self@.times,
    {
        &self.times
    }

    /// The cycle of an instant and the time since the cycle began.
    pub fn coordinate(&self, index: usize) -> (result: Result<FloquetCoordinate<R>>)
        requires
            self.valid(),
        ensures
            result == if index >= self@.times.len() {
                Err::<FloquetCoordinate<R>, QmbedError>(
                    QmbedError::InvalidOptions(Reason::Text("Floquet time index is out of bounds")),
                )
            } else {
                Ok(
                    (FloquetCoordinate {
                        cycle: index / self@.points_per_cycle,
                        within_cycle: R::spec_count(index % self@.points_per_cycle).spec_times(
                            self@.period,
                        ).spec_over(R::spec_count(self@.points_per_cycle)),
                    }),
                )
            },
    {
        if index >= self.times.len() {
            return Err(QmbedError::InvalidOptions(Reason::Text("Floquet time index is out of bounds")));
        }
        Ok(
            FloquetCoordinate {
                cycle: index / self.points_per_cycle,
                within_cycle: R::count(index % self.points_per_cycle).times(self.period).over(
                    R::count(self.points_per_cycle),
                ),
            },
        )
    }
}

/// Of a plain grid without its endpoint, every cycle holds the same number of points: the
/// coordinate of a point names a cycle of the grid, and cycle and place name the point.
pub proof fn law_coordinates_name_points<R: RealNumber>(
    period: R,
    cycles: usize,
    points_per_cycle: usize,
    index: int,
)
    requires
        plain_grid(period, cycles, points_per_cycle, false) is Ok,
        0 <= index < plain_grid(period, cycles, points_per_cycle, false)->Ok_0.times.len(),
    ensures
        index / points_per_cycle as int * points_per_cycle + index % points_per_cycle as int
            == index,
        0 <= index / points_per_cycle as int,
        index / (points_per_cycle as int) < cycles,
        0 <= index % (points_per_cycle as int) < points_per_cycle,
{
    let points = points_per_cycle as int;
    vstd::arithmetic::div_mod::lemma_fundamental_div_mod(index, points);
    vstd::arithmetic::mul::lemma_mul_is_commutative(points, index / points);
    vstd::arithmetic::div_mod::lemma_mod_bound(index, points);
    vstd::arithmetic::div_mod::lemma_div_pos_is_pos(index, points);
    vstd::arithmetic::div_mod::lemma_multiply_divide_lt(index, points, cycles as int);
}

/// Complex scalars with an angle and a magnitude.
pub trait Circular<R: RealNumber>: ComplexOver<R> {
    /// The angle from the positive real axis.
    spec fn spec_angle(self) -> R;

    /// The magnitude.
    spec fn spec_radius(self) -> R;

    fn angle(&self) -> (value: R)
        ensures
            value == self.spec_angle(),
    ;

    fn radius(&self) -> (value: R)
        ensures
            value == self.spec_radius(),
    ;
}

/// Over the Gaussian integers an angle is the number of whole quarter turns, from minus one to
/// two, and a magnitude is rounded down.
impl Circular<Whole> for Gaussian {
    open spec fn spec_angle(self) -> Whole {
        if self.re > 0 && self.im >= 0 {
            Whole { value: 0 }
        } else if self.re <= 0 && self.im > 0 {
            Whole { value: 1 }
        } else if self.re < 0 && self.im <= 0 {
            Whole { value: 2 }
        } else if self.im < 0 {
            Whole { value: (-1) as i64 }
        } else {
            Whole { value: 0 }
        }
    }

    open spec fn spec_radius(self) -> Whole {
        self.spec_weight().spec_root()
    }

    fn angle(&self) -> (value: Whole) {
        if self.re > 0 && self.im >= 0 {
            Whole { value: 0 }
        } else if self.re <= 0 && self.im > 0 {
            Whole { value: 1 }
        } else if self.re < 0 && self.im <= 0 {
            Whole { value: 2 }
        } else if self.im < 0 {
            Whole { value: -1 }
        } else {
            Whole { value: 0 }
        }
    }

    fn radius(&self) -> (value: Whole) {
        self.weight().root()
    }
}

/// Complete eigensystem of a one-period unitary.
#[derive(Debug)]
pub struct FloquetEigensystem<R, S> {
    /// Quasienergies in ascending order.
    pub quasienergies: Vec<R>,
    /// Eigenvalues of the period propagator.
    pub eigenvalues: Vec<S>,
    /// Eigenvectors.
    pub eigenvectors: Vec<Vec<S>>,
    /// How far each pair is from an eigenpair.
    pub residuals: Vec<R>,
}

/// One level of an eigensystem.
pub struct FloquetLevel<R, S> {
    pub quasienergy: R,
    pub eigenvalue: S,
    pub eigenvector: Seq<S>,
    pub residual: R,
}

/// Sum of the first terms of a row of a matrix times a vector.
pub open spec fn row_product<S: Scalar>(
    matrix: Seq<S>,
    row: int,
    vector: Seq<S>,
    count: nat,
) -> S
    decreases count,
{
    if count == 0 {
        S::spec_zero()
    } else {
        row_product(matrix, row, vector, (count - 1) as nat).spec_plus(
            matrix[row * vector.len() + (count - 1)].spec_times(vector[count - 1]),
        )
    }
}

/// Sum of the first squared deviations of a pair from an eigenpair.
pub open spec fn deviation<R: RealNumber, S: Circular<R> + Normed>(
    matrix: Seq<S>,
    eigenvalue: S,
    vector: Seq<S>,
    count: nat,
) -> R
    decreases count,
{
    if count == 0 {
        R::spec_zero()
    } else {
        let row = count - 1;
        let difference = row_product(matrix, row, vector, vector.len()).spec_minus(
            eigenvalue.spec_times(vector[row]),
        );
        deviation::<R, S>(matrix, eigenvalue, vector, (count - 1) as nat).spec_plus(
            difference.spec_weight(),
        )
    }
}

/// Whether an eigenvalue is off the unit circle by more than a tolerance.
pub open spec fn off_circle<R: RealNumber, S: Circular<R>>(eigenvalue: S, tolerance: R) -> bool {
    !eigenvalue.spec_radius().spec_minus(R::spec_one()).spec_magnitude().spec_at_most(tolerance)
}

/// The level of an eigenpair.
pub open spec fn level_of<R: RealNumber, S: Circular<R> + Normed>(
    matrix: Seq<S>,
    period: R,
    eigenvalue: S,
    vector: Seq<S>,
) -> FloquetLevel<R, S> {
    FloquetLevel {
        quasienergy: R::spec_zero().spec_minus(eigenvalue.spec_angle()).spec_over(period),
        eigenvalue,
        eigenvector: vector,
        residual: deviation::<R, S>(matrix, eigenvalue, vector, vector.len()).spec_root(),
    }
}

/// Levels with one more, behind those whose quasienergies do not exceed its own.
pub open spec fn level_inserted<R: RealNumber, S>(
    sorted: Seq<FloquetLevel<R, S>>,
    level: FloquetLevel<R, S>,
) -> Seq<FloquetLevel<R, S>>
    decreases sorted.len(),
{
    if sorted.len() == 0 || sorted.last().quasienergy.spec_at_most(level.quasienergy) {
        sorted.push(level)
    } else {
        level_inserted(sorted.drop_last(), level).push(sorted.last())
    }
}

/// Levels of the first eigenpairs in ascending order.
pub open spec fn levels_of<R: RealNumber, S: Circular<R> + Normed>(
    matrix: Seq<S>,
    period: R,
    eigenvalues: Seq<S>,
    eigenvectors: Seq<Seq<S>>,
    tolerance: R,
    count: nat,
) -> core::result::Result<Seq<FloquetLevel<R, S>>, QmbedError>
    decreases count,
{
    if count == 0 {
        Ok(Seq::empty())
    } else {
        match levels_of(
            matrix,
            period,
            eigenvalues,
            eigenvectors,
            tolerance,
            (count - 1) as nat,
        ) {
            Err(error) => Err(error),
            Ok(before) => if off_circle(eigenvalues[count - 1], tolerance) {
                Err(QmbedError::NonConvergence { iterations: 1 })
            } else {
                Ok(
                    level_inserted(
                        before,
                        level_of(matrix, period, eigenvalues[count - 1], eigenvectors[count - 1]),
                    ),
                )
            },
        }
    }
}

proof fn lemma_levels_fail<R: RealNumber, S: Circular<R> + Normed>(
    matrix: Seq<S>,
    period: R,
    eigenvalues: Seq<S>,
    eigenvectors: Seq<Seq<S>>,
    tolerance: R,
    count: nat,
    later: nat,
)
    requires
        count <= later,
        levels_of(matrix, period, eigenvalues, eigenvectors, tolerance, count) is Err,
    ensures
        levels_of(matrix, period, eigenvalues, eigenvectors, tolerance, later) == levels_of(
            matrix,
            period,
            eigenvalues,
            eigenvectors,
            tolerance,
            count,
        ),
    decreases later,
{
    if count < later {
        lemma_levels_fail(
            matrix,
            period,
            eigenvalues,
            eigenvectors,
            tolerance,
            count,
            (later - 1) as nat,
        );
    }
}

impl<R, S> FloquetEigensystem<R, S> {
    /// The lists are of one length.
    pub open spec fn aligned(&self) -> bool {
        &&& self.eigenvalues@.len() == self.quasienergies@.len()
        &&& self.eigenvectors@.len() == self.quasienergies@.len()
        &&& self.residuals@.len() == self.quasienergies@.len()
    }
}

impl<R, S> View for FloquetEigensystem<R, S> {
    type V = Seq<FloquetLevel<R, S>>;

    open spec fn view(&self) -> Seq<FloquetLevel<R, S>> {
        Seq::new(
            self.quasienergies@.len(),
            |i: int|
                FloquetLevel {
                    quasienergy: self.quasienergies@[i],
                    eigenvalue: self.eigenvalues@[i],
                    eigenvector: self.eigenvectors@[i]@,
                    residual: self.residuals@[i],
                },
        )
    }
}

impl<R: RealNumber, S: Scalar> FloquetEigensystem<R, S> {
    fn insert(&mut self, quasienergy: R, eigenvalue: S, eigenvector: Vec<S>, residual: R)
        requires
            old(self).aligned(),
        ensures
            final(self).aligned(),
            final(self)@ == level_inserted(
                old(self)@,
                (FloquetLevel { quasienergy, eigenvalue, eigenvector: eigenvector@, residual }),
            ),
    {
        let ghost start = self@;
        let ghost before = *self;
        let ghost level = FloquetLevel {
            quasienergy,
            eigenvalue,
            eigenvector: eigenvector@,
            residual,
        };
        let mut place: usize = self.quasienergies.len();
        assert(start.take(place as int) =~= start);
        assert(level_inserted(start, level) =~= level_inserted(start.take(place as int), level)
            + start.skip(place as int));
        while place > 0 && !self.quasienergies[place - 1].at_most(quasienergy)
            invariant
                place <= start.len(),
                *self == before,
                start == before@,
                before.aligned(),
                level.quasienergy == quasienergy,
                level_inserted(start, level) == level_inserted(start.take(place as int), level)
                    + start.skip(place as int),
            decreases place,
        {
            proof {
                assert(start.take(place as int).last() == start[place - 1]);
                assert(start.take(place as int).drop_last() =~= start.take(place - 1));
                assert(level_inserted(start.take(place - 1), level).push(start[place - 1])
                    + start.skip(place as int) =~= level_inserted(start.take(place - 1), level)
                    + start.skip(place - 1));
            }
            place = place - 1;
        }
        self.quasienergies.insert(place, quasienergy);
        self.eigenvalues.insert(place, eigenvalue);
        self.eigenvectors.insert(place, eigenvector);
        self.residuals.insert(place, residual);
        proof {
            if place > 0 {
                assert(start.take(place as int).last() == start[place - 1]);
            }
            assert(level_inserted(start.take(place as int), level) =~= start.take(
                place as int,
            ).push(level));
            assert(self@ =~= start.take(place as int).push(level) + start.skip(place as int));
        }
    }
}

fn find_row_product<S: Scalar>(matrix: &Vec<S>, row: usize, vector: &Vec<S>) -> (sum: S)
    requires
        matrix@.len() == vector@.len() * vector@.len(),
        row < vector@.len(),
    ensures
        sum == row_product(matrix@, row as int, vector@, vector@.len()),
{
    let dimension: usize = vector.len();
    let mut sum: S = S::zero();
    let mut next: usize = 0;
    while next < dimension
        invariant
            next <= dimension,
            dimension == vector@.len(),
            row < dimension,
            matrix@.len() == dimension * dimension,
            sum == row_product(matrix@, row as int, vector@, next as nat),
        decreases dimension - next,
    {
        proof {
            let size: usize = matrix.len();
            assert(row * dimension + next < dimension * dimension && row * dimension >= 0)
                by (nonlinear_arith)
                requires
                    row < dimension,
                    next < dimension,
            ;
            assert(matrix@.len() <= usize::MAX);
        }
        sum = sum.plus(&matrix[row * dimension + next].times(&vector[next]));
        next += 1;
    }
    sum
}

fn find_deviation<R: RealNumber, S: Circular<R> + Normed>(
    matrix: &Vec<S>,
    eigenvalue: S,
    vector: &Vec<S>,
) -> (sum: R)
    requires
        matrix@.len() == vector@.len() * vector@.len(),
    ensures
        sum == deviation::<R, S>(matrix@, eigenvalue, vector@, vector@.len()),
{
    let mut sum: R = R::zero();
    let mut row: usize = 0;
    while row < vector.len()
        invariant
            row <= vector@.len(),
            matrix@.len() == vector@.len() * vector@.len(),
            sum == deviation::<R, S>(matrix@, eigenvalue, vector@, row as nat),
        decreases vector@.len() - row,
    {
        let difference: S = Normed::minus(
            &find_row_product(matrix, row, vector),
            &eigenvalue.times(&vector[row]),
        );
        sum = sum.plus(difference.weight());
        row += 1;
    }
    sum
}

/// Levels of a one-period propagator from its eigenpairs.
///
/// Every eigenvalue has to lie on the unit circle within a tolerance.
pub fn floquet_eigensystem<R: RealNumber, S: Circular<R> + Normed>(
    unitary: &Vec<S>,
    period: R,
    eigenvalues: &Vec<S>,
    eigenvectors: &Vec<Vec<S>>,
    tolerance: R,
) -> (result: Result<FloquetEigensystem<R, S>>)
    requires
        unitary@.len() == eigenvalues@.len() * eigenvalues@.len(),
        ensemble::square(ensemble::vectors(eigenvectors@), eigenvalues@.len()),
    ensures
        match (
            result,
            levels_of(
                unitary@,
                period,
                eigenvalues@,
                ensemble::vectors(eigenvectors@),
                tolerance,
                eigenvalues@.len(),
            ),
        ) {
            (Ok(system), Ok(stated)) => system.aligned() && system@ == stated,
            (Err(error), Err(stated)) => error == stated,
            _ => false,
        },
{
    let ghost given = ensemble::vectors(eigenvectors@);
    let mut system: FloquetEigensystem<R, S> = FloquetEigensystem {
        quasienergies: Vec::new(),
        eigenvalues: Vec::new(),
        eigenvectors: Vec::new(),
        residuals: Vec::new(),
    };
    assert(system@ =~= Seq::empty());
    let mut next: usize = 0;
    while next < eigenvalues.len()
        invariant
            next <= eigenvalues@.len(),
            given == ensemble::vectors(eigenvectors@),
            unitary@.len() == eigenvalues@.len() * eigenvalues@.len(),
            ensemble::square(given, eigenvalues@.len()),
            system.aligned(),
            levels_of(unitary@, period, eigenvalues@, given, tolerance, next as nat) == Ok::<
                Seq<FloquetLevel<R, S>>,
                QmbedError,
            >(system@),
        decreases eigenvalues@.len() - next,
    {
        assert(given[next as int].len() == eigenvalues@.len());
        let eigenvalue: S = eigenvalues[next];
        if !eigenvalue.radius().minus(R::one()).magnitude().at_most(tolerance) {
            proof {
                lemma_levels_fail(
                    unitary@,
                    period,
                    eigenvalues@,
                    given,
                    tolerance,
                    (next + 1) as nat,
                    eigenvalues@.len(),
                );
            }
            return Err(QmbedError::NonConvergence { iterations: 1 });
        }
        let vector: Vec<S> = copy_list(&eigenvectors[next]);
        let spread: R = find_deviation(unitary, eigenvalue, &vector);
        let quasienergy: R = R::zero().minus(eigenvalue.angle()).over(period);
        system.insert(quasienergy, eigenvalue, vector, spread.root());
        next += 1;
    }
    Ok(system)
}

/// Quasienergies of levels.
pub open spec fn quasienergies_of<R, S>(levels: Seq<FloquetLevel<R, S>>) -> Seq<R> {
    Seq::new(levels.len(), |i: int| levels[i].quasienergy)
}

/// Eigenvectors of levels.
pub open spec fn eigenvectors_of<R, S>(levels: Seq<FloquetLevel<R, S>>) -> Seq<Seq<S>> {
    Seq::new(levels.len(), |i: int| levels[i].eigenvector)
}

proof fn lemma_inserted_lengths<R: RealNumber, S>(
    sorted: Seq<FloquetLevel<R, S>>,
    level: FloquetLevel<R, S>,
    length: nat,
)
    requires
        forall|i: int| 0 <= i < sorted.len() ==> (#[trigger] sorted[i]).eigenvector.len() == length,
        level.eigenvector.len() == length,
    ensures
        level_inserted(sorted, level).len() == sorted.len() + 1,
        forall|i: int|
            0 <= i < level_inserted(sorted, level).len() ==> (#[trigger] level_inserted(
                sorted,
                level,
            )[i]).eigenvector.len() == length,
    decreases sorted.len(),
{
    if sorted.len() > 0 && !sorted.last().quasienergy.spec_at_most(level.quasienergy) {
        assert forall|i: int| 0 <= i < sorted.drop_last().len() implies (
        #[trigger] sorted.drop_last()[i]).eigenvector.len() == length by {
            assert(sorted[i].eigenvector.len() == length);
        }
        lemma_inserted_lengths(sorted.drop_last(), level, length);
    }
}

/// Levels have the eigenvectors that were given, one for each eigenvalue.
pub proof fn lemma_levels_lengths<R: RealNumber, S: Circular<R> + Normed>(
    matrix: Seq<S>,
    period: R,
    eigenvalues: Seq<S>,
    eigenvectors: Seq<Seq<S>>,
    tolerance: R,
    length: nat,
    count: nat,
)
    requires
        count <= eigenvectors.len(),
        ensemble::all_of_length(eigenvectors, length),
    ensures
        match levels_of(matrix, period, eigenvalues, eigenvectors, tolerance, count) {
            Ok(levels) => levels.len() == count && forall|i: int|
                0 <= i < levels.len() ==> (#[trigger] levels[i]).eigenvector.len() == length,
            Err(_) => true,
        },
    decreases count,
{
    if count > 0 {
        lemma_levels_lengths(
            matrix,
            period,
            eigenvalues,
            eigenvectors,
            tolerance,
            length,
            (count - 1) as nat,
        );
        match levels_of(
            matrix,
            period,
            eigenvalues,
            eigenvectors,
            tolerance,
            (count - 1) as nat,
        ) {
            Ok(before) => {
                assert(eigenvectors[count - 1].len() == length);
                lemma_inserted_lengths(
                    before,
                    level_of(matrix, period, eigenvalues[count - 1], eigenvectors[count - 1]),
                    length,
                );
            },
            Err(_) => {},
        }
    }
}

} // verus!

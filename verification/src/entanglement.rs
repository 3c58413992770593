//! Spectra of density matrices and entropies of their subsystems.

use vstd::prelude::*;

use crate::amplitudes::Turn;
use crate::bits::checked_pow2;
use crate::density;
use crate::density::{partial_trace, partial_trace_density, partial_trace_density_subsystem,
    partial_trace_sector_state, partial_trace_subsystem};
use crate::ensemble;
use crate::ensemble::{fills_square, find_trace, sort_levels};
use crate::error::{QmbedError, Reason, Result};
use crate::exchange;
use crate::exchange::{BinaryState, NoncommutingGroup};
use crate::floquet::Circular;
use crate::linear;
use crate::linear::{Entries, Gaussian};
use crate::matrix_subspace;
use crate::matrix_subspace::PhaseScalar;
use crate::numbers;
use crate::numbers::{larger_of, RealNumber, Whole};
use crate::ordered::copy_list;
use crate::phases;
use crate::phases::{apply_noncommuting_subsystem_exchange_phases, canonical_schmidt_sites};
use crate::statistics;
use crate::statistics::{entropy_from_spectrum, sum_of, EntropyOrder};
use crate::subsystem;
use crate::subsystem::{subsystem_index_map, SubsystemIndexMap};
use crate::symmetry::PhaseFactor;
use vstd::arithmetic::power2::pow2;

verus! {

/// Complex scalars that are entries of density matrices.
pub trait DensityScalar<R: RealNumber>: Circular<R> {
    spec fn spec_imaginary(self) -> R;

    /// Whether an entry is not the conjugate of its mirror image, in a matrix of some scale.
    spec fn spec_departs(self, mirror: Self, scale: R) -> bool;

    /// By how much a trace may miss the sum of a spectrum.
    spec fn spec_slack(dimension: usize, sum: R, scale: R) -> R;

    fn imaginary(&self) -> (value: R)
        ensures
            value == self.spec_imaginary(),
    ;

    fn departs(&self, mirror: &Self, scale: R) -> (answer: bool)
        ensures
            answer == self.spec_departs(*mirror, scale),
    ;

    fn slack(dimension: usize, sum: R, scale: R) -> (value: R)
        ensures
            value == Self::spec_slack(dimension, sum, scale),
    ;
}

/// Gaussian integers leave no room for rounding.
impl DensityScalar<Whole> for Gaussian {
    open spec fn spec_imaginary(self) -> Whole {
        Whole { value: self.im }
    }

    open spec fn spec_departs(self, mirror: Self, scale: Whole) -> bool {
        self.re != mirror.re || self.im != (0i64).wrapping_sub(mirror.im)
    }

    open spec fn spec_slack(dimension: usize, sum: Whole, scale: Whole) -> Whole {
        Whole { value: 0 }
    }

    fn imaginary(&self) -> (value: Whole) {
        Whole { value: self.im }
    }

    fn departs(&self, mirror: &Self, scale: Whole) -> (answer: bool) {
        self.re != mirror.re || self.im != 0i64.wrapping_sub(mirror.im)
    }

    fn slack(dimension: usize, sum: Whole, scale: Whole) -> (value: Whole) {
        Whole { value: 0 }
    }
}

/// A way to find the singular values of square matrices in row order.
pub trait SingularValues<R: RealNumber, S> {
    spec fn spec_singular_values(&self, matrix: Entries<S>, dimension: usize) -> core::result::Result<
        Entries<R>,
        QmbedError,
    >;

    fn singular_values(&self, matrix: &Vec<S>, dimension: usize) -> (result: Result<Vec<R>>)
        requires
            matrix@.len() == dimension * dimension,
        ensures
            linear::vector_is(result, self.spec_singular_values(matrix@, dimension)),
    ;
}

/// The singular values of diagonal matrices; other matrices are refused.
#[derive(Clone, Copy, Debug)]
pub struct DiagonalOnly;

/// Magnitudes of the first diagonal entries.
pub open spec fn diagonal_radii(matrix: Seq<Gaussian>, dimension: nat, count: nat) -> Seq<Whole> {
    Seq::new(count, |i: int| matrix[i * dimension + i].spec_radius())
}

/// Whether all entries off the diagonal are zero.
pub open spec fn diagonal(matrix: Seq<Gaussian>, dimension: nat) -> bool {
    forall|k: int|
        0 <= k < matrix.len() && k / dimension as int != k % dimension as int
            ==> #[trigger] matrix[k] == (Gaussian { re: 0, im: 0 })
}

impl SingularValues<Whole, Gaussian> for DiagonalOnly {
    open spec fn spec_singular_values(&self, matrix: Seq<Gaussian>, dimension: usize) -> core::result::Result<
        Seq<Whole>,
        QmbedError,
    > {
        if diagonal(matrix, dimension as nat) {
            Ok(diagonal_radii(matrix, dimension as nat, dimension as nat))
        } else {
            Err(QmbedError::NonConvergence { iterations: 1 })
        }
    }

    fn singular_values(&self, matrix: &Vec<Gaussian>, dimension: usize) -> (result: Result<
        Vec<Whole>,
    >) {
        let mut next: usize = 0;
        while next < matrix.len()
            invariant
                next <= matrix@.len(),
                matrix@.len() == dimension * dimension,
                forall|k: int|
                    0 <= k < next && k / dimension as int != k % dimension as int
                        ==> #[trigger] matrix@[k] == (Gaussian { re: 0, im: 0 }),
            decreases matrix@.len() - next,
        {
            proof {
                assert(dimension > 0) by (nonlinear_arith)
                    requires
                        0 <= next < dimension * dimension,
                ;
            }
            let entry: Gaussian = matrix[next];
            if next / dimension != next % dimension && (entry.re != 0 || entry.im != 0) {
                assert(matrix@[next as int] != (Gaussian { re: 0, im: 0 }));
                return Err(QmbedError::NonConvergence { iterations: 1 });
            }
            next += 1;
        }
        let mut values: Vec<Whole> = Vec::new();
        let mut place: usize = 0;
        while place < dimension
            invariant
                place <= dimension,
                matrix@.len() == dimension * dimension,
                values@ == diagonal_radii(matrix@, dimension as nat, place as nat),
            decreases dimension - place,
        {
            proof {
                let size: usize = matrix.len();
                assert(place * dimension + place < dimension * dimension && place * dimension >= 0)
                    by (nonlinear_arith)
                    requires
                        place < dimension,
                ;
                assert(matrix@.len() <= usize::MAX);
            }
            values.push(matrix[place * dimension + place].radius());
            place += 1;
            assert(values@ =~= diagonal_radii(matrix@, dimension as nat, place as nat));
        }
        Ok(values)
    }
}

/// The largest magnitude of the first entries.
pub open spec fn scale_of<R: RealNumber, S: Circular<R>>(matrix: Seq<S>, count: nat) -> R
    decreases count,
{
    if count == 0 {
        R::spec_zero()
    } else {
        numbers::larger(scale_of::<R, S>(matrix, (count - 1) as nat), matrix[count - 1].spec_radius())
    }
}

/// What is wrong with the first entries of a density matrix in row order, if anything.
pub open spec fn entries_refused<R: RealNumber, S: DensityScalar<R>>(
    matrix: Seq<S>,
    dimension: nat,
    count: nat,
) -> Option<QmbedError>
    decreases count,
{
    if count == 0 {
        None
    } else {
        let place = count - 1;
        let mirror = place % dimension as int * dimension + place / dimension as int;
        match entries_refused::<R, S>(matrix, dimension, (count - 1) as nat) {
            Some(error) => Some(error),
            None => if !matrix[place].spec_is_finite() {
                Some(QmbedError::InvalidOptions(Reason::Text("density matrix entries must be finite")))
            } else if matrix[place].spec_departs(
                matrix[mirror],
                scale_of::<R, S>(matrix, count),
            ) {
                Some(QmbedError::InvalidOptions(Reason::Text("density matrix must be Hermitian")))
            } else {
                None
            },
        }
    }
}

proof fn lemma_refused_stays<R: RealNumber, S: DensityScalar<R>>(
    matrix: Seq<S>,
    dimension: nat,
    count: nat,
    later: nat,
)
    requires
        count <= later,
        entries_refused::<R, S>(matrix, dimension, count) is Some,
    ensures
        entries_refused::<R, S>(matrix, dimension, later) == entries_refused::<R, S>(
            matrix,
            dimension,
            count,
        ),
    decreases later,
{
    if count < later {
        lemma_refused_stays::<R, S>(matrix, dimension, count, (later - 1) as nat);
    }
}

/// The spectrum that singular values are, where they add up to the trace.
pub open spec fn accepted<R: RealNumber, S: DensityScalar<R>>(
    values: Seq<R>,
    trace: S,
    slack: R,
) -> core::result::Result<Seq<R>, QmbedError> {
    let sorted = ensemble::levels_sorted(values);
    let sum = statistics::total(sorted, sorted.len());
    let level = trace.spec_real();
    let bottom = R::spec_zero().spec_minus(slack);
    let level_only = trace.spec_imaginary().spec_magnitude().spec_at_most(slack);
    let above = bottom.spec_at_most(level);
    let close = sum.spec_minus(level).spec_magnitude().spec_at_most(slack);
    if level_only && above && close {
        Ok(sorted)
    } else if above && level.spec_at_most(sum) {
        Err(QmbedError::InvalidOptions(Reason::Text("density matrix is not positive semidefinite")))
    } else {
        Err(
            QmbedError::InvalidOptions(Reason::Text("density matrix must have a finite nonnegative real trace")),
        )
    }
}

/// Probabilities of a density matrix in ascending order, or what keeps them from existing.
pub open spec fn spectrum_of<
    R: RealNumber,
    S: DensityScalar<R>,
    V: SingularValues<R, S>,
>(matrix: Seq<S>, dimension: usize, solver: V) -> core::result::Result<Seq<R>, QmbedError> {
    let size = dimension as nat * dimension as nat;
    if matrix.len() != size {
        Err(QmbedError::DimensionMismatch(Reason::Text("density matrix shape does not match its dimension")))
    } else {
        match entries_refused::<R, S>(matrix, dimension as nat, size) {
            Some(error) => Err(error),
            None => match solver.spec_singular_values(matrix, dimension) {
                Err(error) => Err(error),
                Ok(values) => {
                    let sorted = ensemble::levels_sorted(values);
                    accepted::<R, S>(
                        values,
                        ensemble::trace(matrix, dimension as nat, dimension as nat),
                        S::spec_slack(
                            dimension,
                            statistics::total(sorted, sorted.len()),
                            scale_of::<R, S>(matrix, size),
                        ),
                    )
                },
            },
        }
    }
}

/// Probabilities of a density matrix in ascending order. They are its singular values, which
/// have to add up to its trace.
pub fn density_matrix_spectrum<
    R: RealNumber,
    S: DensityScalar<R>,
    V: SingularValues<R, S>,
>(matrix: &Vec<S>, dimension: usize, solver: &V) -> (result: Result<Vec<R>>)
    ensures
        linear::vector_is(result, spectrum_of(matrix@, dimension, *solver)),
{
    if !fills_square(matrix, dimension) {
        return Err(
            QmbedError::DimensionMismatch(Reason::Text("density matrix shape does not match its dimension")),
        );
    }
    let size: usize = matrix.len();
    let mut scale: R = R::zero();
    let mut next: usize = 0;
    while next < size
        invariant
            next <= size,
            size == matrix@.len(),
            size == dimension * dimension,
            scale == scale_of::<R, S>(matrix@, next as nat),
            entries_refused::<R, S>(matrix@, dimension as nat, next as nat) is None,
        decreases size - next,
    {
        proof {
            assert(dimension > 0) by (nonlinear_arith)
                requires
                    0 <= next < dimension * dimension,
            ;
            let row = next as int / dimension as int;
            let column = next as int % dimension as int;
            vstd::arithmetic::div_mod::lemma_multiply_divide_lt(
                next as int,
                dimension as int,
                dimension as int,
            );
            vstd::arithmetic::div_mod::lemma_mod_bound(next as int, dimension as int);
            assert(0 <= column * dimension && column * dimension + row < dimension * dimension)
                by (nonlinear_arith)
                requires
                    0 <= column < dimension,
                    0 <= row < dimension,
            ;
            if !(matrix@[next as int].spec_is_finite()) || matrix@[next as int].spec_departs(
                matrix@[column * dimension + row],
                scale_of::<R, S>(matrix@, (next + 1) as nat),
            ) {
                lemma_refused_stays::<R, S>(
                    matrix@,
                    dimension as nat,
                    (next + 1) as nat,
                    size as nat,
                );
            }
        }
        let value: S = matrix[next];
        if !value.is_finite() {
            return Err(QmbedError::InvalidOptions(Reason::Text("density matrix entries must be finite")));
        }
        scale = larger_of(scale, value.radius());
        let mirror: S = matrix[next % dimension * dimension + next / dimension];
        if value.departs(&mirror, scale) {
            return Err(QmbedError::InvalidOptions(Reason::Text("density matrix must be Hermitian")));
        }
        next += 1;
    }
    let trace: S = find_trace(matrix, dimension);
    let values: Vec<R> = match solver.singular_values(matrix, dimension) {
        Ok(values) => values,
        Err(error) => {
            return Err(error);
        },
    };
    let sorted: Vec<R> = sort_levels(&values);
    let sum: R = sum_of(&sorted);
    let slack: R = S::slack(dimension, sum, scale);
    let level: R = trace.real_number();
    let above: bool = R::zero().minus(slack).at_most(level);
    if trace.imaginary().magnitude().at_most(slack) && above && sum.minus(
        level,
    ).magnitude().at_most(slack) {
        return Ok(sorted);
    }
    if above && level.at_most(sum) {
        return Err(QmbedError::InvalidOptions(Reason::Text("density matrix is not positive semidefinite")));
    }
    Err(QmbedError::InvalidOptions(Reason::Text("density matrix must have a finite nonnegative real trace")))
}

/// The spectrum of a reduced density matrix, where that exists.
pub open spec fn spectrum_after<
    R: RealNumber,
    S: DensityScalar<R>,
    V: SingularValues<R, S>,
>(
    reduced: core::result::Result<Seq<S>, QmbedError>,
    dimension: usize,
    solver: V,
) -> core::result::Result<Seq<R>, QmbedError> {
    match reduced {
        Ok(matrix) => spectrum_of(matrix, dimension, solver),
        Err(error) => Err(error),
    }
}

/// The entropy of a spectrum, where that exists.
pub open spec fn entropy_after<R: RealNumber>(
    spectrum: core::result::Result<Seq<R>, QmbedError>,
    order: EntropyOrder<R>,
) -> core::result::Result<R, QmbedError> {
    match spectrum {
        Ok(probabilities) => statistics::spectrum_entropy(probabilities, order),
        Err(error) => Err(error),
    }
}

/// Spectrum of the first factor of a pure state of two factors.
pub fn entanglement_spectrum<R: RealNumber, S: DensityScalar<R>, V: SingularValues<R, S>>(
    state: &Vec<S>,
    subsystem_dimension: usize,
    environment_dimension: usize,
    solver: &V,
) -> (result: Result<Vec<R>>)
    requires
        density::reduced_state::<R, S>(state@, subsystem_dimension, environment_dimension) is Ok
            ==> subsystem_dimension * subsystem_dimension <= usize::MAX,
    ensures
        linear::vector_is(
            result,
            spectrum_after(
                density::reduced_state::<R, S>(state@, subsystem_dimension, environment_dimension),
                subsystem_dimension,
                *solver,
            ),
        ),
{
    match partial_trace::<R, S>(state, subsystem_dimension, environment_dimension) {
        Ok(reduced) => density_matrix_spectrum(&reduced, subsystem_dimension, solver),
        Err(error) => Err(error),
    }
}

/// Spectrum of the first factor of a mixed state of two factors.
pub fn entanglement_spectrum_density<R: RealNumber, S: DensityScalar<R>, V: SingularValues<R, S>>(
    density: &Vec<S>,
    subsystem_dimension: usize,
    environment_dimension: usize,
    solver: &V,
) -> (result: Result<Vec<R>>)
    ensures
        linear::vector_is(
            result,
            spectrum_after(
                density::reduced_mixture::<R, S>(
                    density@,
                    subsystem_dimension,
                    environment_dimension,
                ),
                subsystem_dimension,
                *solver,
            ),
        ),
{
    match partial_trace_density::<R, S>(density, subsystem_dimension, environment_dimension) {
        Ok(reduced) => density_matrix_spectrum(&reduced, subsystem_dimension, solver),
        Err(error) => Err(error),
    }
}

/// The order of an entropy that cannot be used is refused before anything else.
pub open spec fn checked_entropy<R: RealNumber>(
    spectrum: core::result::Result<Seq<R>, QmbedError>,
    order: EntropyOrder<R>,
) -> core::result::Result<R, QmbedError> {
    if order matches EntropyOrder::Renyi(alpha) && !statistics::order_usable(alpha) {
        Err(statistics::order_refused())
    } else {
        entropy_after(spectrum, order)
    }
}

/// Entropy of the first factor of a pure state of two factors.
pub fn entanglement_entropy<R: RealNumber, S: DensityScalar<R>, V: SingularValues<R, S>>(
    state: &Vec<S>,
    subsystem_dimension: usize,
    environment_dimension: usize,
    order: EntropyOrder<R>,
    solver: &V,
) -> (result: Result<R>)
    requires
        density::reduced_state::<R, S>(state@, subsystem_dimension, environment_dimension) is Ok
            ==> subsystem_dimension * subsystem_dimension <= usize::MAX,
    ensures
        result == checked_entropy(
            spectrum_after(
                density::reduced_state::<R, S>(state@, subsystem_dimension, environment_dimension),
                subsystem_dimension,
                *solver,
            ),
            order,
        ),
{
    if let EntropyOrder::Renyi(alpha) = order {
        if !statistics::is_order_usable(alpha) {
            return Err(
                QmbedError::InvalidOptions(
                    Reason::Text("Renyi order must be positive, finite, and different from one"),
                ),
            );
        }
    }
    match entanglement_spectrum(state, subsystem_dimension, environment_dimension, solver) {
        Ok(probabilities) => entropy_from_spectrum(&probabilities, order),
        Err(error) => Err(error),
    }
}

/// Entropies of the first factor of the first states of a batch.
pub open spec fn entropies<R: RealNumber, S: DensityScalar<R>, V: SingularValues<R, S>>(
    states: Seq<Seq<S>>,
    inner: usize,
    outer: usize,
    order: EntropyOrder<R>,
    solver: V,
    count: nat,
) -> core::result::Result<Seq<R>, QmbedError>
    decreases count,
{
    if count == 0 {
        Ok(Seq::empty())
    } else {
        match entropies(states, inner, outer, order, solver, (count - 1) as nat) {
            Err(error) => Err(error),
            Ok(before) => match checked_entropy(
                spectrum_after(
                    density::reduced_state::<R, S>(states[count - 1], inner, outer),
                    inner,
                    solver,
                ),
                order,
            ) {
                Err(error) => Err(error),
                Ok(entropy) => Ok(before.push(entropy)),
            },
        }
    }
}

proof fn lemma_entropies_fail<R: RealNumber, S: DensityScalar<R>, V: SingularValues<R, S>>(
    states: Seq<Seq<S>>,
    inner: usize,
    outer: usize,
    order: EntropyOrder<R>,
    solver: V,
    count: nat,
    later: nat,
)
    requires
        count <= later,
        entropies(states, inner, outer, order, solver, count) is Err,
    ensures
        entropies(states, inner, outer, order, solver, later) == entropies(
            states,
            inner,
            outer,
            order,
            solver,
            count,
        ),
    decreases later,
{
    if count < later {
        lemma_entropies_fail(states, inner, outer, order, solver, count, (later - 1) as nat);
    }
}

/// Entropies of the first factor of each state of a batch.
pub fn entanglement_entropy_batch<R: RealNumber, S: DensityScalar<R>, V: SingularValues<R, S>>(
    states: &Vec<Vec<S>>,
    subsystem_dimension: usize,
    environment_dimension: usize,
    order: EntropyOrder<R>,
    solver: &V,
) -> (result: Result<Vec<R>>)
    requires
        forall|i: int|
            0 <= i < states@.len() && density::reduced_state::<R, S>(
                (#[trigger] states@[i])@,
                subsystem_dimension,
                environment_dimension,
            ) is Ok ==> subsystem_dimension * subsystem_dimension <= usize::MAX,
    ensures
        linear::vector_is(
            result,
            entropies(
                ensemble::vectors(states@),
                subsystem_dimension,
                environment_dimension,
                order,
                *solver,
                states@.len(),
            ),
        ),
{
    let ghost given = ensemble::vectors(states@);
    let mut values: Vec<R> = Vec::new();
    let mut next: usize = 0;
    while next < states.len()
        invariant
            next <= states@.len(),
            given == ensemble::vectors(states@),
            forall|i: int|
                0 <= i < states@.len() && density::reduced_state::<R, S>(
                    (#[trigger] states@[i])@,
                    subsystem_dimension,
                    environment_dimension,
                ) is Ok ==> subsystem_dimension * subsystem_dimension <= usize::MAX,
            entropies(
                given,
                subsystem_dimension,
                environment_dimension,
                order,
                *solver,
                next as nat,
            ) == Ok::<Seq<R>, QmbedError>(values@),
        decreases states@.len() - next,
    {
        assert(given[next as int] == states@[next as int]@);
        match entanglement_entropy(
            &states[next],
            subsystem_dimension,
            environment_dimension,
            order,
            solver,
        ) {
            Ok(entropy) => {
                values.push(entropy);
            },
            Err(error) => {
                proof {
                    lemma_entropies_fail(
                        given,
                        subsystem_dimension,
                        environment_dimension,
                        order,
                        *solver,
                        (next + 1) as nat,
                        states@.len(),
                    );
                }
                return Err(error);
            },
        }
        next += 1;
    }
    Ok(values)
}

/// Entropy of the first factor of a mixed state of two factors.
pub fn entanglement_entropy_density<R: RealNumber, S: DensityScalar<R>, V: SingularValues<R, S>>(
    density: &Vec<S>,
    subsystem_dimension: usize,
    environment_dimension: usize,
    order: EntropyOrder<R>,
    solver: &V,
) -> (result: Result<R>)
    ensures
        result == entropy_after(
            spectrum_after(
                density::reduced_mixture::<R, S>(
                    density@,
                    subsystem_dimension,
                    environment_dimension,
                ),
                subsystem_dimension,
                *solver,
            ),
            order,
        ),
{
    match entanglement_spectrum_density(
        density,
        subsystem_dimension,
        environment_dimension,
        solver,
    ) {
        Ok(probabilities) => entropy_from_spectrum(&probabilities, order),
        Err(error) => Err(error),
    }
}

/// The dimension of retained sites.
pub open spec fn kept_dimension(dimensions: Seq<usize>, retained: Seq<usize>) -> usize {
    subsystem::product_over(dimensions, retained) as usize
}

/// Spectrum of any set of retained sites of a pure state.
pub fn entanglement_spectrum_subsystem<R: RealNumber, S: DensityScalar<R>, V: SingularValues<R, S>>(
    state: &Vec<S>,
    local_dimensions: &[usize],
    retained_sites: &[usize],
    solver: &V,
) -> (result: Result<Vec<R>>)
    requires
        density::reduced_sites::<R, S>(state@, local_dimensions@, retained_sites@) is Ok
            ==> subsystem::product_over(local_dimensions@, retained_sites@)
            * subsystem::product_over(local_dimensions@, retained_sites@) <= usize::MAX,
    ensures
        linear::vector_is(
            result,
            spectrum_after(
                density::reduced_sites::<R, S>(state@, local_dimensions@, retained_sites@),
                kept_dimension(local_dimensions@, retained_sites@),
                *solver,
            ),
        ),
{
    let layout: SubsystemIndexMap = match subsystem_index_map(local_dimensions, retained_sites) {
        Ok(layout) => layout,
        Err(error) => {
            return Err(error);
        },
    };
    match partial_trace_subsystem::<R, S>(state, local_dimensions, retained_sites) {
        Ok(reduced) => density_matrix_spectrum(&reduced, layout.subsystem_dimension, solver),
        Err(error) => Err(error),
    }
}

/// Spectrum of any set of retained sites of a mixed state.
pub fn entanglement_spectrum_density_subsystem<
    R: RealNumber,
    S: DensityScalar<R>,
    V: SingularValues<R, S>,
>(density: &Vec<S>, local_dimensions: &[usize], retained_sites: &[usize], solver: &V) -> (result:
    Result<Vec<R>>)
    ensures
        linear::vector_is(
            result,
            spectrum_after(
                density::reduced_mixed_sites::<R, S>(
                    density@,
                    local_dimensions@,
                    retained_sites@,
                ),
                kept_dimension(local_dimensions@, retained_sites@),
                *solver,
            ),
        ),
{
    let layout: SubsystemIndexMap = match subsystem_index_map(local_dimensions, retained_sites) {
        Ok(layout) => layout,
        Err(error) => {
            return Err(error);
        },
    };
    match partial_trace_density_subsystem::<R, S>(density, local_dimensions, retained_sites) {
        Ok(reduced) => density_matrix_spectrum(&reduced, layout.subsystem_dimension, solver),
        Err(error) => Err(error),
    }
}

/// Entropy of any set of retained sites of a pure state.
pub fn entanglement_entropy_subsystem<R: RealNumber, S: DensityScalar<R>, V: SingularValues<R, S>>(
    state: &Vec<S>,
    local_dimensions: &[usize],
    retained_sites: &[usize],
    order: EntropyOrder<R>,
    solver: &V,
) -> (result: Result<R>)
    requires
        density::reduced_sites::<R, S>(state@, local_dimensions@, retained_sites@) is Ok
            ==> subsystem::product_over(local_dimensions@, retained_sites@)
            * subsystem::product_over(local_dimensions@, retained_sites@) <= usize::MAX,
    ensures
        result == entropy_after(
            spectrum_after(
                density::reduced_sites::<R, S>(state@, local_dimensions@, retained_sites@),
                kept_dimension(local_dimensions@, retained_sites@),
                *solver,
            ),
            order,
        ),
{
    match entanglement_spectrum_subsystem(state, local_dimensions, retained_sites, solver) {
        Ok(probabilities) => entropy_from_spectrum(&probabilities, order),
        Err(error) => Err(error),
    }
}

/// Entropy of any set of retained sites of a mixed state.
pub fn entanglement_entropy_density_subsystem<
    R: RealNumber,
    S: DensityScalar<R>,
    V: SingularValues<R, S>,
>(
    density: &Vec<S>,
    local_dimensions: &[usize],
    retained_sites: &[usize],
    order: EntropyOrder<R>,
    solver: &V,
) -> (result: Result<R>)
    ensures
        result == entropy_after(
            spectrum_after(
                density::reduced_mixed_sites::<R, S>(
                    density@,
                    local_dimensions@,
                    retained_sites@,
                ),
                kept_dimension(local_dimensions@, retained_sites@),
                *solver,
            ),
            order,
        ),
{
    match entanglement_spectrum_density_subsystem(
        density,
        local_dimensions,
        retained_sites,
        solver,
    ) {
        Ok(probabilities) => entropy_from_spectrum(&probabilities, order),
        Err(error) => Err(error),
    }
}

/// Whether a result is the spectrum of a sector state with some retained sites.
pub open spec fn sector_spectrum<
    R: RealNumber,
    P: PhaseFactor,
    B: BinaryState,
    S: DensityScalar<R> + PhaseScalar<P>,
    V: SingularValues<R, S>,
>(
    result: Result<Vec<R>>,
    amplitudes: Seq<S>,
    states: Seq<B>,
    total_sites: usize,
    retained: Seq<usize>,
    groups: Seq<NoncommutingGroup<P>>,
    solver: V,
) -> bool {
    exists|reduced: Seq<S>|
        #![trigger density::reduced_sector_state::<R, P, B, S>(reduced, amplitudes, states, total_sites, retained, groups)]
        density::reduced_sector_state::<R, P, B, S>(
            reduced,
            amplitudes,
            states,
            total_sites,
            retained,
            groups,
        ) && linear::vector_is(
            result,
            spectrum_of(reduced, pow2(retained.len()) as usize, solver),
        )
}

/// Whether a result is the spectrum of a sector state, or what keeps it from existing.
pub open spec fn is_sector_result<
    R: RealNumber,
    P: PhaseFactor,
    B: BinaryState,
    S: DensityScalar<R> + PhaseScalar<P>,
    V: SingularValues<R, S>,
>(
    result: Result<Vec<R>>,
    amplitudes: Seq<S>,
    states: Seq<B>,
    total_sites: usize,
    retained: Seq<usize>,
    groups: Seq<NoncommutingGroup<P>>,
    solver: V,
) -> bool {
    if pow2(retained.len()) > usize::MAX {
        result == Err::<Vec<R>, QmbedError>(
            QmbedError::DimensionMismatch(
                Reason::Text("retained subsystem is too large for a dense entanglement spectrum"),
            ),
        )
    } else if amplitudes.len() != states.len() {
        result == Err::<Vec<R>, QmbedError>(
            QmbedError::DimensionMismatch(
                Reason::Text("sector amplitudes and basis states must have the same length"),
            ),
        )
    } else if !ensemble::sound(density::squared_norm::<R, S>(amplitudes, amplitudes.len())) {
        result == Err::<Vec<R>, QmbedError>(density::no_norm())
    } else {
        ||| sector_spectrum::<R, P, B, S, V>(
            result,
            amplitudes,
            states,
            total_sites,
            retained,
            groups,
            solver,
        )
        ||| (result matches Err(error) && density::sector_fails::<B, P, S>(
            states,
            total_sites,
            retained,
            groups,
            error,
        ))
    }
}

/// Spectrum of the retained sites of a pure state stored in a binary sector basis.
pub fn entanglement_spectrum_sector<
    R: RealNumber,
    P: PhaseFactor,
    B: BinaryState,
    S: DensityScalar<R> + PhaseScalar<P>,
    V: SingularValues<R, S>,
>(
    amplitudes: &Vec<S>,
    basis_states: &[B],
    total_sites: usize,
    retained_sites: &[usize],
    noncommuting_groups: &Vec<NoncommutingGroup<P>>,
    solver: &V,
) -> (result: Result<Vec<R>>)
    requires
        B::readable(),
    ensures
        is_sector_result::<R, P, B, S, V>(
            result,
            amplitudes@,
            basis_states@,
            total_sites,
            retained_sites@,
            noncommuting_groups@,
            *solver,
        ),
{
    let dimension: usize = match checked_pow2(retained_sites.len()) {
        Some(dimension) => dimension,
        None => {
            return Err(
                QmbedError::DimensionMismatch(
                    Reason::Text("retained subsystem is too large for a dense entanglement spectrum"),
                ),
            );
        },
    };
    match partial_trace_sector_state::<R, P, B, S>(
        amplitudes,
        basis_states,
        total_sites,
        retained_sites,
        noncommuting_groups,
    ) {
        Ok(reduced) => density_matrix_spectrum(&reduced, dimension, solver),
        Err(error) => Err(error),
    }
}

/// Entropy of the retained sites of a pure state stored in a binary sector basis.
///
/// The contract speaks of the spectrum, which is found first, and of its entropy.
pub fn entanglement_entropy_sector<
    R: RealNumber,
    P: PhaseFactor,
    B: BinaryState,
    S: DensityScalar<R> + PhaseScalar<P>,
    V: SingularValues<R, S>,
>(
    amplitudes: &Vec<S>,
    basis_states: &[B],
    total_sites: usize,
    retained_sites: &[usize],
    noncommuting_groups: &Vec<NoncommutingGroup<P>>,
    order: EntropyOrder<R>,
    solver: &V,
) -> (result: Result<R>)
    requires
        B::readable(),
    ensures
        exists|spectrum: Result<Vec<R>>|
            #![trigger is_sector_result::<R, P, B, S, V>(spectrum, amplitudes@, basis_states@, total_sites, retained_sites@, noncommuting_groups@, *solver)]
            is_sector_result::<R, P, B, S, V>(
                spectrum,
                amplitudes@,
                basis_states@,
                total_sites,
                retained_sites@,
                noncommuting_groups@,
                *solver,
            ) && result == entropy_after(values_of(spectrum), order),
{
    let spectrum: Result<Vec<R>> = entanglement_spectrum_sector(
        amplitudes,
        basis_states,
        total_sites,
        retained_sites,
        noncommuting_groups,
        solver,
    );
    assert(is_sector_result::<R, P, B, S, V>(
        spectrum,
        amplitudes@,
        basis_states@,
        total_sites,
        retained_sites@,
        noncommuting_groups@,
        *solver,
    ));
    match &spectrum {
        Ok(probabilities) => entropy_from_spectrum(probabilities, order),
        Err(error) => Err(*error),
    }
}

/// A returned list as a sequence.
pub open spec fn values_of<R>(result: Result<Vec<R>>) -> core::result::Result<Seq<R>, QmbedError> {
    match result {
        Ok(list) => Ok(list@),
        Err(error) => Err(error),
    }
}

/// A cut of a state at its canonical side, with the exchange phases of that side.
pub open spec fn canonical_cut<P: PhaseFactor, S: PhaseScalar<P>>(
    state: Seq<S>,
    dimensions: Seq<usize>,
    retained: Seq<usize>,
    groups: Seq<NoncommutingGroup<P>>,
    side: Seq<usize>,
    changed: Seq<S>,
) -> bool {
    &&& phases::is_canonical_side(dimensions, retained, side)
    &&& if groups.len() == 0 {
        changed == state
    } else {
        &&& phases::phases_error(dimensions, side, exchange::group_sites(groups)) is None
        &&& state.len() == subsystem::stride(dimensions, dimensions.len())
        &&& phases::has_phases(state, dimensions, side, groups, changed)
    }
}

/// Whether exchange phases of the canonical side of a cut are refused.
pub open spec fn canonical_refused<P: PhaseFactor, S: PhaseScalar<P>>(
    length: nat,
    dimensions: Seq<usize>,
    side: Seq<usize>,
    groups: Seq<NoncommutingGroup<P>>,
    error: QmbedError,
) -> bool {
    &&& groups.len() > 0
    &&& match phases::phases_error(dimensions, side, exchange::group_sites(groups)) {
        Some(stated) => error == stated,
        None => if length != subsystem::stride(dimensions, dimensions.len()) {
            error == QmbedError::DimensionMismatch(
                Reason::Text("state length does not match the noncommuting subsystem layout"),
            )
        } else {
            &&& phases::phases_unheld::<P, S>(dimensions, side, groups)
            &&& error == matrix_subspace::no_value()
        },
    }
}

/// Whether a result is the Schmidt spectrum of a cut, or what keeps it from existing.
pub open spec fn is_canonical_spectrum<
    R: RealNumber,
    P: PhaseFactor,
    S: DensityScalar<R> + PhaseScalar<P>,
    V: SingularValues<R, S>,
>(
    result: Result<Vec<R>>,
    state: Seq<S>,
    dimensions: Seq<usize>,
    retained: Seq<usize>,
    groups: Seq<NoncommutingGroup<P>>,
    solver: V,
) -> bool {
    match subsystem::split_error(dimensions, retained) {
        Some(stated) => result == Err::<Vec<R>, QmbedError>(stated),
        None => {
            ||| exists|side: Seq<usize>, changed: Seq<S>|
                #![trigger canonical_cut(state, dimensions, retained, groups, side, changed)]
                canonical_cut(state, dimensions, retained, groups, side, changed)
                    && linear::vector_is(
                    result,
                    spectrum_after(
                        density::reduced_sites::<R, S>(changed, dimensions, side),
                        kept_dimension(dimensions, side),
                        solver,
                    ),
                )
            ||| exists|side: Seq<usize>| #[trigger]
                phases::is_canonical_side(dimensions, retained, side) && (result matches Err(error)
                    && canonical_refused::<P, S>(state.len(), dimensions, side, groups, error))
        },
    }
}

/// Schmidt spectrum of a pure state, found on the canonical side of the cut.
///
/// Both sides of a cut have the same spectrum but for zeros, and both lead here by the same
/// path.
pub fn canonical_schmidt_spectrum_subsystem_with_exchange_phases<
    R: RealNumber,
    P: PhaseFactor,
    S: DensityScalar<R> + PhaseScalar<P>,
    V: SingularValues<R, S>,
>(
    state: &Vec<S>,
    local_dimensions: &[usize],
    retained_sites: &[usize],
    noncommuting_groups: &Vec<NoncommutingGroup<P>>,
    solver: &V,
) -> (result: Result<Vec<R>>)
    ensures
        is_canonical_spectrum::<R, P, S, V>(
            result,
            state@,
            local_dimensions@,
            retained_sites@,
            noncommuting_groups@,
            *solver,
        ),
{
    let side: Vec<usize> = match canonical_schmidt_sites(local_dimensions, retained_sites) {
        Ok(side) => side,
        Err(error) => {
            return Err(error);
        },
    };
    let sites: usize = local_dimensions.len();
    let changed: Vec<S> = if noncommuting_groups.len() == 0 {
        copy_list(state)
    } else {
        match apply_noncommuting_subsystem_exchange_phases(
            state,
            local_dimensions,
            side.as_slice(),
            noncommuting_groups,
        ) {
            Ok(changed) => changed,
            Err(error) => {
                return Err(error);
            },
        }
    };
    proof {
        phases::lemma_canonical_side_is_small(local_dimensions@, retained_sites@, side@);
        assert(canonical_cut(
            state@,
            local_dimensions@,
            retained_sites@,
            noncommuting_groups@,
            side@,
            changed@,
        ));
    }
    entanglement_spectrum_subsystem(&changed, local_dimensions, side.as_slice(), solver)
}

/// Whether groups hold the given modes, and every exchange of two of them changes the sign.
pub open spec fn are_fermionic(
    groups: Seq<NoncommutingGroup<Turn>>,
    lists: Seq<Vec<usize>>,
) -> bool {
    &&& groups.len() == lists.len()
    &&& forall|i: int|
        0 <= i < lists.len() ==> (#[trigger] groups[i]).spec_sites() == lists[i]@
            && groups[i].spec_exchange_phase() == (Turn { steps: 1, circle: 2 })
}

/// Groups of modes every exchange of which changes the sign.
pub fn fermionic_groups(lists: &[Vec<usize>]) -> (groups: Vec<NoncommutingGroup<Turn>>)
    ensures
        are_fermionic(groups@, lists@),
{
    let mut groups: Vec<NoncommutingGroup<Turn>> = Vec::new();
    let mut next: usize = 0;
    while next < lists.len()
        invariant
            next <= lists@.len(),
            groups@.len() == next,
            forall|i: int|
                0 <= i < next ==> (#[trigger] groups@[i]).spec_sites() == lists@[i]@
                    && groups@[i].spec_exchange_phase() == (Turn { steps: 1, circle: 2 }),
        decreases lists@.len() - next,
    {
        match NoncommutingGroup::new(copy_list(&lists[next]), Turn { steps: 1, circle: 2 }) {
            Ok(group) => {
                groups.push(group);
            },
            Err(_) => {
                assert(false);
            },
        }
        next += 1;
    }
    groups
}

/// Schmidt spectrum of a pure state with groups of modes every exchange of which changes the
/// sign.
pub fn canonical_schmidt_spectrum_subsystem<
    R: RealNumber,
    S: DensityScalar<R> + PhaseScalar<Turn>,
    V: SingularValues<R, S>,
>(
    state: &Vec<S>,
    local_dimensions: &[usize],
    retained_sites: &[usize],
    noncommuting_groups: &[Vec<usize>],
    solver: &V,
) -> (result: Result<Vec<R>>)
    ensures
        exists|groups: Seq<NoncommutingGroup<Turn>>| #[trigger]
            are_fermionic(groups, noncommuting_groups@) && is_canonical_spectrum::<R, Turn, S, V>(
                result,
                state@,
                local_dimensions@,
                retained_sites@,
                groups,
                *solver,
            ),
{
    let groups: Vec<NoncommutingGroup<Turn>> = fermionic_groups(noncommuting_groups);
    assert(are_fermionic(groups@, noncommuting_groups@));
    canonical_schmidt_spectrum_subsystem_with_exchange_phases(
        state,
        local_dimensions,
        retained_sites,
        &groups,
        solver,
    )
}

} // verus!

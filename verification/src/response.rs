//! Spectral functions and real-time correlators.

use vstd::prelude::*;

use crate::ensemble;
use crate::ensemble::ComplexOver;
use crate::error::{QmbedError, Reason, Result};
use crate::floquet::Propagation;
use crate::linear;
use crate::linear::{dotc, LinearOperator};
use crate::numbers::RealNumber;
use crate::statistics;

verus! {

/// Frequency grid and numerical controls of broadened spectral functions.
#[derive(Clone, Debug)]
pub struct SpectrumOptions<R> {
    /// Frequencies at which the response is evaluated.
    pub frequencies: Vec<R>,
    /// Reference-state energy subtracted from the resolvent.
    pub reference_energy: R,
    /// Positive Lorentzian broadening.
    pub broadening: R,
    /// Maximum Krylov dimension.
    pub krylov_dimension: usize,
    /// Continued-fraction termination tolerance.
    pub tolerance: R,
    /// The circumference of a circle over its diameter, in the precision of the numbers.
    pub circle_ratio: R,
}

/// Whether a number is finite and greater than zero.
pub open spec fn usable<R: RealNumber>(value: R) -> bool {
    value.spec_is_finite() && !value.spec_at_most(R::spec_zero())
}

impl<R: RealNumber> SpectrumOptions<R> {
    /// Whether the grid is finite and not empty and the controls are usable.
    pub open spec fn sound(&self) -> bool {
        &&& self.frequencies@.len() > 0
        &&& statistics::all_finite(self.frequencies@)
        &&& self.reference_energy.spec_is_finite()
        &&& usable(self.broadening)
        &&& self.krylov_dimension > 0
        &&& usable(self.tolerance)
    }

    /// Controls for a frequency grid; at most 64 Krylov vectors.
    pub fn new(
        frequencies: Vec<R>,
        reference_energy: R,
        broadening: R,
        tolerance: R,
        circle_ratio: R,
    ) -> (options: Self)
        ensures
            options.frequencies@ == frequencies@,
            options.reference_energy == reference_energy,
            options.broadening == broadening,
            options.krylov_dimension == 64,
            options.tolerance == tolerance,
            options.circle_ratio == circle_ratio,
    {
        SpectrumOptions {
            frequencies,
            reference_energy,
            broadening,
            krylov_dimension: 64,
            tolerance,
            circle_ratio,
        }
    }

    /// Set the maximum Krylov dimension.
    #[must_use]
    pub fn with_krylov_dimension(self, dimension: usize) -> (options: Self)
        ensures
            options == (SpectrumOptions { krylov_dimension: dimension, ..self }),
    {
        SpectrumOptions { krylov_dimension: dimension, ..self }
    }

    /// Set the continued-fraction termination tolerance.
    #[must_use]
    pub fn with_tolerance(self, tolerance: R) -> (options: Self)
        ensures
            options == (SpectrumOptions { tolerance, ..self }),
    {
        SpectrumOptions { tolerance, ..self }
    }

    /// Refuse a grid or controls that cannot be used.
    pub fn validate(&self) -> (result: Result<()>)
        ensures
            result == if self.sound() {
                Ok::<(), QmbedError>(())
            } else {
                Err(
                    QmbedError::InvalidOptions(
                        Reason::Text("invalid spectrum frequency grid or numerical controls"),
                    ),
                )
            },
    {
        if self.frequencies.len() == 0 || !statistics::check_finite(&self.frequencies)
            || !self.reference_energy.is_finite() || !self.broadening.is_finite()
            || self.broadening.at_most(R::zero()) || self.krylov_dimension == 0
            || !self.tolerance.is_finite() || self.tolerance.at_most(R::zero()) {
            return Err(
                QmbedError::InvalidOptions(Reason::Text("invalid spectrum frequency grid or numerical controls")),
            );
        }
        Ok(())
    }
}

/// What a probe makes of a source state, in the sector of a target Hamiltonian.
pub open spec fn probed<R: RealNumber, H: LinearOperator, P: LinearOperator>(
    target: H,
    source: Seq<P::Value>,
    probe: P,
    options: SpectrumOptions<R>,
) -> core::result::Result<Seq<P::Value>, QmbedError> {
    if !options.sound() {
        Err(QmbedError::InvalidOptions(Reason::Text("invalid spectrum frequency grid or numerical controls")))
    } else if target.spec_rows() != target.spec_columns() || probe.spec_rows()
        != target.spec_rows() || probe.spec_columns() != source.len() {
        Err(
            QmbedError::DimensionMismatch(
                Reason::Text("target Hamiltonian, source, and probe shapes are incompatible"),
            ),
        )
    } else {
        probe.spec_apply(source)
    }
}

/// The state that a probe creates, in the sector of a target Hamiltonian.
pub fn created_state<R: RealNumber, H: LinearOperator, P: LinearOperator>(
    target_hamiltonian: &H,
    source: &Vec<P::Value>,
    probe: &P,
    options: &SpectrumOptions<R>,
) -> (result: Result<Vec<P::Value>>)
    requires
        target_hamiltonian.wf(),
        probe.wf(),
    ensures
        linear::vector_is(result, probed(*target_hamiltonian, source@, *probe, *options)),
{
    match options.validate() {
        Ok(_) => {},
        Err(error) => {
            return Err(error);
        },
    }
    let (rows, columns) = target_hamiltonian.shape();
    let (probe_rows, probe_columns) = probe.shape();
    if rows != columns || probe_rows != rows || probe_columns != source.len() {
        return Err(
            QmbedError::DimensionMismatch(
                Reason::Text("target Hamiltonian, source, and probe shapes are incompatible"),
            ),
        );
    }
    probe.apply(source)
}

/// Sum of the first Lorentzian lines at a frequency.
pub open spec fn lines_at<R: RealNumber>(
    options: SpectrumOptions<R>,
    energies: Seq<R>,
    weights: Seq<R>,
    frequency: R,
    count: nat,
) -> R
    decreases count,
{
    if count == 0 {
        R::spec_zero()
    } else {
        let detuning = frequency.spec_plus(options.reference_energy).spec_minus(
            energies[count - 1],
        );
        let width = options.broadening;
        let spread = options.circle_ratio.spec_times(
            detuning.spec_times(detuning).spec_plus(width.spec_times(width)),
        );
        lines_at(options, energies, weights, frequency, (count - 1) as nat).spec_plus(
            weights[count - 1].spec_times(width).spec_over(spread),
        )
    }
}

/// A broadened spectrum on a grid.
pub open spec fn broadened<R: RealNumber>(
    options: SpectrumOptions<R>,
    energies: Seq<R>,
    weights: Seq<R>,
) -> Seq<R> {
    Seq::new(
        options.frequencies@.len(),
        |k: int| lines_at(options, energies, weights, options.frequencies@[k], energies.len()),
    )
}

/// Lorentzian lines of a spectral measure on a frequency grid.
pub fn broadened_spectrum<R: RealNumber>(
    options: &SpectrumOptions<R>,
    energies: &Vec<R>,
    weights: &Vec<R>,
) -> (spectrum: Vec<R>)
    requires
        weights@.len() == energies@.len(),
    ensures
        spectrum@ == broadened(*options, energies@, weights@),
{
    let mut spectrum: Vec<R> = Vec::new();
    let mut place: usize = 0;
    while place < options.frequencies.len()
        invariant
            place <= options.frequencies@.len(),
            weights@.len() == energies@.len(),
            spectrum@ == broadened(*options, energies@, weights@).take(place as int),
        decreases options.frequencies@.len() - place,
    {
        let frequency: R = options.frequencies[place];
        let mut sum: R = R::zero();
        let mut next: usize = 0;
        while next < energies.len()
            invariant
                next <= energies@.len(),
                weights@.len() == energies@.len(),
                sum == lines_at(*options, energies@, weights@, frequency, next as nat),
            decreases energies@.len() - next,
        {
            let detuning: R = frequency.plus(options.reference_energy).minus(energies[next]);
            let width: R = options.broadening;
            let spread: R = options.circle_ratio.times(
                detuning.times(detuning).plus(width.times(width)),
            );
            sum = sum.plus(weights[next].times(width).over(spread));
            next += 1;
        }
        spectrum.push(sum);
        place += 1;
        assert(spectrum@ =~= broadened(*options, energies@, weights@).take(place as int));
    }
    assert(spectrum@ =~= broadened(*options, energies@, weights@));
    spectrum
}

/// Weights of a state on the vectors of an eigensystem.
pub open spec fn line_weights<R: RealNumber, S: ComplexOver<R>>(
    eigenvectors: Seq<Seq<S>>,
    created: Seq<S>,
) -> Seq<R> {
    Seq::new(
        eigenvectors.len(),
        |i: int| linear::inner_product(eigenvectors[i], created).spec_weight(),
    )
}

fn find_line_weights<R: RealNumber, S: ComplexOver<R>>(
    eigenvectors: &Vec<Vec<S>>,
    created: &Vec<S>,
) -> (weights: Vec<R>)
    requires
        ensemble::all_of_length(ensemble::vectors(eigenvectors@), created@.len()),
    ensures
        weights@ == line_weights::<R, S>(ensemble::vectors(eigenvectors@), created@),
{
    let ghost given = ensemble::vectors(eigenvectors@);
    let mut weights: Vec<R> = Vec::new();
    let mut next: usize = 0;
    while next < eigenvectors.len()
        invariant
            next <= eigenvectors@.len(),
            given == ensemble::vectors(eigenvectors@),
            ensemble::all_of_length(given, created@.len()),
            weights@ == line_weights::<R, S>(given, created@).take(next as int),
        decreases eigenvectors@.len() - next,
    {
        assert(given[next as int].len() == created@.len());
        weights.push(dotc(&eigenvectors[next], created).weight());
        next += 1;
        assert(weights@ =~= line_weights::<R, S>(given, created@).take(next as int));
    }
    assert(weights@ =~= line_weights::<R, S>(given, created@));
    weights
}

/// Lorentzian-broadened spectral density in the same or another target sector, from the
/// complete eigensystem of the target Hamiltonian.
pub fn spectral_function<R: RealNumber, H: LinearOperator, P: LinearOperator>(
    target_hamiltonian: &H,
    source: &Vec<P::Value>,
    probe: &P,
    options: &SpectrumOptions<R>,
    energies: &Vec<R>,
    eigenvectors: &Vec<Vec<P::Value>>,
) -> (result: Result<Vec<R>>) where P::Value: ComplexOver<R>
    requires
        target_hamiltonian.wf(),
        probe.wf(),
        energies@.len() == target_hamiltonian.spec_rows(),
        ensemble::square(
            ensemble::vectors(eigenvectors@),
            target_hamiltonian.spec_rows() as nat,
        ),
    ensures
        match (result, probed(*target_hamiltonian, source@, *probe, *options)) {
            (Ok(spectrum), Ok(created)) => spectrum@ == broadened(
                *options,
                energies@,
                line_weights::<R, P::Value>(ensemble::vectors(eigenvectors@), created),
            ),
            (Err(error), Err(stated)) => error == stated,
            _ => false,
        },
{
    match created_state(target_hamiltonian, source, probe, options) {
        Ok(created) => {
            proof {
                probe.images_fit(source@);
            }
            let weights: Vec<R> = find_line_weights(eigenvectors, &created);
            Ok(broadened_spectrum(options, energies, &weights))
        },
        Err(error) => Err(error),
    }
}

/// A state at the first of some times.
pub open spec fn states_at<H, R: RealNumber, E: Propagation<H, R>>(
    evolution: E,
    hamiltonian: H,
    state: Seq<E::Value>,
    times: Seq<R>,
    count: nat,
) -> core::result::Result<Seq<Seq<E::Value>>, QmbedError>
    decreases count,
{
    if count == 0 {
        Ok(Seq::empty())
    } else {
        match states_at(evolution, hamiltonian, state, times, (count - 1) as nat) {
            Err(error) => Err(error),
            Ok(before) => match evolution.spec_evolve(hamiltonian, state, times[count - 1]) {
                Err(error) => Err(error),
                Ok(later) => Ok(before.push(later)),
            },
        }
    }
}

proof fn lemma_states_fail<H, R: RealNumber, E: Propagation<H, R>>(
    evolution: E,
    hamiltonian: H,
    state: Seq<E::Value>,
    times: Seq<R>,
    count: nat,
    later: nat,
)
    requires
        count <= later,
        states_at(evolution, hamiltonian, state, times, count) is Err,
    ensures
        states_at(evolution, hamiltonian, state, times, later) == states_at(
            evolution,
            hamiltonian,
            state,
            times,
            count,
        ),
    decreases later,
{
    if count < later {
        lemma_states_fail(evolution, hamiltonian, state, times, count, (later - 1) as nat);
    }
}

/// A state at each of some times.
pub fn evolve<H, R: RealNumber, E: Propagation<H, R>>(
    evolution: &E,
    hamiltonian: &H,
    state: &Vec<E::Value>,
    times: &Vec<R>,
) -> (result: Result<Vec<Vec<E::Value>>>)
    requires
        evolution.ready(*hamiltonian, state@.len()),
    ensures
        match (result, states_at(*evolution, *hamiltonian, state@, times@, times@.len())) {
            (Ok(states), Ok(stated)) => ensemble::vectors(states@) == stated
                && ensemble::all_of_length(stated, state@.len()),
            (Err(error), Err(stated)) => error == stated,
            _ => false,
        },
{
    let mut states: Vec<Vec<E::Value>> = Vec::new();
    assert(ensemble::vectors(states@) =~= Seq::empty());
    let mut next: usize = 0;
    while next < times.len()
        invariant
            next <= times@.len(),
            evolution.ready(*hamiltonian, state@.len()),
            states_at(*evolution, *hamiltonian, state@, times@, next as nat) == Ok::<
                Seq<Seq<E::Value>>,
                QmbedError,
            >(ensemble::vectors(states@)),
            ensemble::all_of_length(ensemble::vectors(states@), state@.len()),
        decreases times@.len() - next,
    {
        let ghost before = ensemble::vectors(states@);
        match evolution.evolve(hamiltonian, state, times[next]) {
            Ok(later) => {
                let ghost added = later@;
                proof {
                    evolution.states_fit(*hamiltonian, state@, times@[next as int]);
                }
                states.push(later);
                proof {
                    assert(ensemble::vectors(states@) =~= before.push(added));
                    assert forall|i: int| 0 <= i < ensemble::vectors(states@).len() implies (
                    #[trigger] ensemble::vectors(states@)[i]).len() == state@.len() by {
                        if i < before.len() {
                            assert(before[i].len() == state@.len());
                        }
                    }
                }
            },
            Err(error) => {
                proof {
                    lemma_states_fail(
                        *evolution,
                        *hamiltonian,
                        state@,
                        times@,
                        (next + 1) as nat,
                        times@.len(),
                    );
                }
                return Err(error);
            },
        }
        next += 1;
    }
    Ok(states)
}

/// Matrix elements of a probe between the first pairs of two lists of states.
pub open spec fn correlations<A: LinearOperator>(
    probe: A,
    reference: Seq<Seq<A::Value>>,
    excited: Seq<Seq<A::Value>>,
    count: nat,
) -> core::result::Result<Seq<A::Value>, QmbedError>
    decreases count,
{
    if count == 0 {
        Ok(Seq::empty())
    } else {
        match correlations(probe, reference, excited, (count - 1) as nat) {
            Err(error) => Err(error),
            Ok(before) => match probe.spec_apply(excited[count - 1]) {
                Err(error) => Err(error),
                Ok(image) => Ok(
                    before.push(linear::inner_product(reference[count - 1], image)),
                ),
            },
        }
    }
}

proof fn lemma_correlations_fail<A: LinearOperator>(
    probe: A,
    reference: Seq<Seq<A::Value>>,
    excited: Seq<Seq<A::Value>>,
    count: nat,
    later: nat,
)
    requires
        count <= later,
        correlations(probe, reference, excited, count) is Err,
    ensures
        correlations(probe, reference, excited, later) == correlations(
            probe,
            reference,
            excited,
            count,
        ),
    decreases later,
{
    if count < later {
        lemma_correlations_fail(probe, reference, excited, count, (later - 1) as nat);
    }
}

/// Matrix elements of a probe between the pairs of two lists of states.
pub fn correlate<A: LinearOperator>(
    probe: &A,
    reference: &Vec<Vec<A::Value>>,
    excited: &Vec<Vec<A::Value>>,
) -> (result: Result<Vec<A::Value>>)
    requires
        probe.wf(),
        reference@.len() == excited@.len(),
        ensemble::all_of_length(ensemble::vectors(reference@), probe.spec_rows() as nat),
        ensemble::all_of_length(ensemble::vectors(excited@), probe.spec_columns() as nat),
    ensures
        linear::vector_is(
            result,
            correlations(
                *probe,
                ensemble::vectors(reference@),
                ensemble::vectors(excited@),
                excited@.len(),
            ),
        ),
{
    let ghost left = ensemble::vectors(reference@);
    let ghost right = ensemble::vectors(excited@);
    let mut values: Vec<A::Value> = Vec::new();
    let mut next: usize = 0;
    while next < excited.len()
        invariant
            next <= excited@.len(),
            probe.wf(),
            reference@.len() == excited@.len(),
            left == ensemble::vectors(reference@),
            right == ensemble::vectors(excited@),
            ensemble::all_of_length(left, probe.spec_rows() as nat),
            ensemble::all_of_length(right, probe.spec_columns() as nat),
            correlations(*probe, left, right, next as nat) == Ok::<Seq<A::Value>, QmbedError>(
                values@,
            ),
        decreases excited@.len() - next,
    {
        proof {
            assert(left[next as int].len() == probe.spec_rows());
            assert(right[next as int].len() == probe.spec_columns());
            probe.images_fit(right[next as int]);
        }
        match probe.apply(&excited[next]) {
            Ok(image) => {
                values.push(dotc(&reference[next], &image));
            },
            Err(error) => {
                proof {
                    lemma_correlations_fail(
                        *probe,
                        left,
                        right,
                        (next + 1) as nat,
                        excited@.len(),
                    );
                }
                return Err(error);
            },
        }
        next += 1;
    }
    Ok(values)
}

/// Whether an operator is square in a dimension.
pub open spec fn acts_on<O: LinearOperator>(operator: O, dimension: nat) -> bool {
    operator.spec_rows() == dimension && operator.spec_columns() == dimension
}

/// The correlator of two probes at some times.
pub open spec fn correlator<
    H: LinearOperator,
    A: LinearOperator,
    B: LinearOperator<Value = A::Value>,
    R: RealNumber,
    E: Propagation<H, R, Value = A::Value>,
>(
    hamiltonian: H,
    state: Seq<A::Value>,
    left_probe: A,
    right_probe: B,
    evolution: E,
    times: Seq<R>,
) -> core::result::Result<Seq<A::Value>, QmbedError> {
    if !acts_on(hamiltonian, state.len()) || !acts_on(left_probe, state.len()) || !acts_on(
        right_probe,
        state.len(),
    ) {
        Err(
            QmbedError::DimensionMismatch(
                Reason::Text("correlator Hamiltonian, probes, and state dimensions do not match"),
            ),
        )
    } else {
        match right_probe.spec_apply(state) {
            Err(error) => Err(error),
            Ok(created) => match states_at(evolution, hamiltonian, state, times, times.len()) {
                Err(error) => Err(error),
                Ok(reference) => match states_at(
                    evolution,
                    hamiltonian,
                    created,
                    times,
                    times.len(),
                ) {
                    Err(error) => Err(error),
                    Ok(excited) => correlations(left_probe, reference, excited, excited.len()),
                },
            },
        }
    }
}

/// Real-time two-point function of two probes in a state: the second one acts at time zero and
/// the first one later.
pub fn dynamical_correlator<
    H: LinearOperator,
    A: LinearOperator,
    B: LinearOperator<Value = A::Value>,
    R: RealNumber,
    E: Propagation<H, R, Value = A::Value>,
>(
    hamiltonian: &H,
    state: &Vec<A::Value>,
    left_probe: &A,
    right_probe: &B,
    evolution: &E,
    times: &Vec<R>,
) -> (result: Result<Vec<A::Value>>)
    requires
        hamiltonian.wf(),
        left_probe.wf(),
        right_probe.wf(),
        acts_on(*hamiltonian, state@.len()) ==> evolution.ready(*hamiltonian, state@.len()),
    ensures
        linear::vector_is(
            result,
            correlator(*hamiltonian, state@, *left_probe, *right_probe, *evolution, times@),
        ),
{
    let dimension: usize = state.len();
    let (rows, columns) = hamiltonian.shape();
    let (left_rows, left_columns) = left_probe.shape();
    let (right_rows, right_columns) = right_probe.shape();
    if rows != dimension || columns != dimension || left_rows != dimension || left_columns
        != dimension || right_rows != dimension || right_columns != dimension {
        return Err(
            QmbedError::DimensionMismatch(
                Reason::Text("correlator Hamiltonian, probes, and state dimensions do not match"),
            ),
        );
    }
    let created: Vec<A::Value> = match right_probe.apply(state) {
        Ok(created) => created,
        Err(error) => {
            return Err(error);
        },
    };
    proof {
        right_probe.images_fit(state@);
    }
    let reference: Vec<Vec<A::Value>> = match evolve(evolution, hamiltonian, state, times) {
        Ok(states) => states,
        Err(error) => {
            return Err(error);
        },
    };
    let excited: Vec<Vec<A::Value>> = match evolve(evolution, hamiltonian, &created, times) {
        Ok(states) => states,
        Err(error) => {
            return Err(error);
        },
    };
    proof {
        lemma_states_count(*evolution, *hamiltonian, state@, times@, times@.len());
        lemma_states_count(*evolution, *hamiltonian, created@, times@, times@.len());
    }
    correlate(left_probe, &reference, &excited)
}

proof fn lemma_states_count<H, R: RealNumber, E: Propagation<H, R>>(
    evolution: E,
    hamiltonian: H,
    state: Seq<E::Value>,
    times: Seq<R>,
    count: nat,
)
    ensures
        match states_at(evolution, hamiltonian, state, times, count) {
            Ok(states) => states.len() == count,
            Err(_) => true,
        },
    decreases count,
{
    if count > 0 {
        lemma_states_count(evolution, hamiltonian, state, times, (count - 1) as nat);
    }
}

} // verus!

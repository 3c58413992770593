//! What broadened spectra show: lines at excitation energies.

use vstd::prelude::*;

use crate::eigenphases;
use crate::ensemble;
use crate::exact;
use crate::exact_numbers::{lemma_shifted_difference, ExactComplex, ExactReal};
use crate::floquet::Propagation;
use crate::linear;
use crate::linear::{LinearOperator, Scalar};
use crate::numbers::RealNumber;
use crate::response;
use crate::response::{broadened, correlator, line_weights, lines_at, states_at, SpectrumOptions};

verus! {

/// All numbers of a list moved by a constant.
pub open spec fn moved_by<R: RealNumber>(numbers: Seq<R>, shift: R) -> Seq<R> {
    Seq::new(numbers.len(), |i: int| numbers[i].spec_plus(shift))
}

/// Sums of the numbers of two lists.
pub open spec fn sums<R: RealNumber>(left: Seq<R>, right: Seq<R>) -> Seq<R> {
    Seq::new(left.len(), |i: int| left[i].spec_plus(right[i]))
}

proof fn lemma_moved_lines<R: ExactReal>(
    options: SpectrumOptions<R>,
    moved: SpectrumOptions<R>,
    energies: Seq<R>,
    weights: Seq<R>,
    frequency: R,
    shift: R,
    count: nat,
)
    requires
        count <= energies.len(),
        moved.reference_energy == options.reference_energy.spec_plus(shift),
        moved.broadening == options.broadening,
        moved.circle_ratio == options.circle_ratio,
    ensures
        lines_at(moved, moved_by(energies, shift), weights, frequency, count) == lines_at(
            options,
            energies,
            weights,
            frequency,
            count,
        ),
    decreases count,
{
    if count > 0 {
        lemma_moved_lines(
            options,
            moved,
            energies,
            weights,
            frequency,
            shift,
            (count - 1) as nat,
        );
        R::plus_associates(frequency, options.reference_energy, shift);
        lemma_shifted_difference(
            frequency.spec_plus(options.reference_energy),
            energies[count - 1],
            shift,
        );
    }
}

/// Only excitation energies show: one constant added to all levels and to the energy of the
/// reference state leaves the spectrum as it is.
pub proof fn law_spectrum_ignores_the_origin_of_energy<R: ExactReal>(
    options: SpectrumOptions<R>,
    moved: SpectrumOptions<R>,
    energies: Seq<R>,
    weights: Seq<R>,
    shift: R,
)
    requires
        weights.len() == energies.len(),
        moved.frequencies@ == options.frequencies@,
        moved.reference_energy == options.reference_energy.spec_plus(shift),
        moved.broadening == options.broadening,
        moved.circle_ratio == options.circle_ratio,
    ensures
        broadened(moved, moved_by(energies, shift), weights) == broadened(
            options,
            energies,
            weights,
        ),
{
    assert forall|k: int| 0 <= k < options.frequencies@.len() implies #[trigger] broadened(
        moved,
        moved_by(energies, shift),
        weights,
    )[k] == broadened(options, energies, weights)[k] by {
        lemma_moved_lines(
            options,
            moved,
            energies,
            weights,
            options.frequencies@[k],
            shift,
            energies.len(),
        );
    }
    assert(broadened(moved, moved_by(energies, shift), weights) =~= broadened(
        options,
        energies,
        weights,
    ));
}

/// A single line has the shape of a Lorentzian about its excitation energy, the energy of the
/// level above the reference state: at a distance `d` from it the height is the weight times the
/// width over the circle ratio times `d * d` plus the squared width.
pub proof fn law_line_stands_at_the_excitation_energy<R: ExactReal>(
    options: SpectrumOptions<R>,
    energy: R,
    weight: R,
    distance: R,
    place: int,
)
    requires
        0 <= place < options.frequencies@.len(),
        options.frequencies@[place] == energy.spec_minus(options.reference_energy).spec_plus(
            distance,
        ),
    ensures
        broadened(options, seq![energy], seq![weight])[place] == weight.spec_times(
            options.broadening,
        ).spec_over(
            options.circle_ratio.spec_times(
                distance.spec_times(distance).spec_plus(
                    options.broadening.spec_times(options.broadening),
                ),
            ),
        ),
{
    let origin = options.reference_energy;
    let frequency = options.frequencies@[place];
    let excitation = energy.spec_minus(origin);
    let detuning = frequency.spec_plus(origin).spec_minus(energy);
    R::plus_commutes(excitation, distance);
    R::plus_associates(distance, excitation, origin);
    R::minus_undoes_plus(energy, origin);
    R::minus_undoes_plus(distance, energy);
    assert(detuning == distance);
    reveal_with_fuel(lines_at, 2);
    let height = weight.spec_times(options.broadening).spec_over(
        options.circle_ratio.spec_times(
            distance.spec_times(distance).spec_plus(
                options.broadening.spec_times(options.broadening),
            ),
        ),
    );
    R::plus_commutes(R::spec_zero(), height);
    R::zero_is_neutral(height);
}

/// At its excitation energy a line has its full height: times the circle ratio and the width it
/// is the weight, where the division leaves no rest.
pub proof fn law_line_has_its_full_height_there<R: ExactReal>(
    options: SpectrumOptions<R>,
    energy: R,
    weight: R,
    place: int,
)
    requires
        0 <= place < options.frequencies@.len(),
        options.frequencies@[place] == energy.spec_minus(options.reference_energy),
        R::parts(
            options.circle_ratio.spec_times(options.broadening.spec_times(options.broadening)),
        ),
    ensures
        broadened(options, seq![energy], seq![weight])[place].spec_times(
            options.circle_ratio.spec_times(options.broadening),
        ) == weight,
{
    let nothing = R::spec_zero();
    let width = options.broadening;
    let ratio = options.circle_ratio;
    let square = width.spec_times(width);
    let spread = ratio.spec_times(square);
    R::zero_is_neutral(options.frequencies@[place]);
    law_line_stands_at_the_excitation_energy(options, energy, weight, nothing, place);
    R::zero_is_neutral(nothing);
    R::plus_commutes(nothing, square);
    R::zero_is_neutral(square);
    let height = weight.spec_times(width).spec_over(spread);
    let unit = ratio.spec_times(width);
    // height * unit = (unit * (weight * width)) / spread = (weight * spread) / spread
    R::times_commutes(height, unit);
    R::division_is_linear(unit, weight.spec_times(width), spread);
    R::times_commutes(weight, width);
    R::times_associates(unit, width, weight);
    R::times_associates(ratio, width, width);
    R::times_commutes(spread, weight);
    R::division_is_linear(weight, weight, spread);
}

proof fn lemma_lines_extend<R: ExactReal>(
    options: SpectrumOptions<R>,
    energies: Seq<R>,
    weights: Seq<R>,
    more_energies: Seq<R>,
    more_weights: Seq<R>,
    frequency: R,
    count: nat,
)
    requires
        weights.len() == energies.len(),
        more_weights.len() == more_energies.len(),
        count <= more_energies.len(),
    ensures
        lines_at(
            options,
            energies + more_energies,
            weights + more_weights,
            frequency,
            energies.len() + count,
        ) == lines_at(options, energies, weights, frequency, energies.len()).spec_plus(
            lines_at(options, more_energies, more_weights, frequency, count),
        ),
    decreases count,
{
    let base = lines_at(options, energies, weights, frequency, energies.len());
    if count == 0 {
        lemma_lines_alike(
            options,
            energies + more_energies,
            weights + more_weights,
            energies,
            weights,
            frequency,
            energies.len(),
        );
        R::zero_is_neutral(base);
    } else {
        lemma_lines_extend(
            options,
            energies,
            weights,
            more_energies,
            more_weights,
            frequency,
            (count - 1) as nat,
        );
        let last = energies.len() + count - 1;
        assert((energies + more_energies)[last] == more_energies[count - 1]);
        assert((weights + more_weights)[last] == more_weights[count - 1]);
        let detuning = frequency.spec_plus(options.reference_energy).spec_minus(
            more_energies[count - 1],
        );
        let width = options.broadening;
        let spread = options.circle_ratio.spec_times(
            detuning.spec_times(detuning).spec_plus(width.spec_times(width)),
        );
        R::plus_associates(
            base,
            lines_at(options, more_energies, more_weights, frequency, (count - 1) as nat),
            more_weights[count - 1].spec_times(width).spec_over(spread),
        );
    }
}

proof fn lemma_lines_alike<R: RealNumber>(
    options: SpectrumOptions<R>,
    energies: Seq<R>,
    weights: Seq<R>,
    others: Seq<R>,
    shares: Seq<R>,
    frequency: R,
    count: nat,
)
    requires
        forall|i: int| 0 <= i < count ==> #[trigger] energies[i] == others[i],
        forall|i: int| 0 <= i < count ==> #[trigger] weights[i] == shares[i],
    ensures
        lines_at(options, energies, weights, frequency, count) == lines_at(
            options,
            others,
            shares,
            frequency,
            count,
        ),
    decreases count,
{
    if count > 0 {
        lemma_lines_alike(
            options,
            energies,
            weights,
            others,
            shares,
            frequency,
            (count - 1) as nat,
        );
        assert(energies[count - 1] == others[count - 1]);
        assert(weights[count - 1] == shares[count - 1]);
    }
}

/// Lines add up: the spectrum of two lists of levels taken together is the sum of their spectra.
pub proof fn law_lines_add_up<R: ExactReal>(
    options: SpectrumOptions<R>,
    energies: Seq<R>,
    weights: Seq<R>,
    more_energies: Seq<R>,
    more_weights: Seq<R>,
)
    requires
        weights.len() == energies.len(),
        more_weights.len() == more_energies.len(),
    ensures
        broadened(options, energies + more_energies, weights + more_weights) == sums(
            broadened(options, energies, weights),
            broadened(options, more_energies, more_weights),
        ),
{
    let whole = broadened(options, energies + more_energies, weights + more_weights);
    let parts = sums(
        broadened(options, energies, weights),
        broadened(options, more_energies, more_weights),
    );
    assert forall|k: int| 0 <= k < options.frequencies@.len() implies #[trigger] whole[k]
        == parts[k] by {
        lemma_lines_extend(
            options,
            energies,
            weights,
            more_energies,
            more_weights,
            options.frequencies@[k],
            more_energies.len(),
        );
    }
    assert(whole =~= parts);
}

/// The weight of a product is the product of the weights, and one and zero weigh one and zero.
pub proof fn lemma_weights<R: ExactReal, S: ExactComplex<R>>(a: S, b: S)
    ensures
        a.spec_times(b).spec_weight() == a.spec_weight().spec_times(b.spec_weight()),
        S::spec_one().spec_weight() == R::spec_one(),
        S::spec_zero().spec_weight() == R::spec_zero(),
{
    let product = a.spec_times(b);
    let (x, y) = (a.spec_weight(), b.spec_weight());
    S::numbers_embed(product, product.spec_weight(), x);
    S::numbers_embed(a, x, y);
    S::numbers_embed(b, x.spec_times(y), y);
    S::conjugation_is_linear(a, b);
    crate::partial_traces::lemma_four(a, b, a.spec_conjugate(), b.spec_conjugate());
    let one = S::spec_one();
    S::numbers_embed(one, one.spec_weight(), x);
    S::numbers_embed(one, R::spec_one(), x);
    S::one_is_neutral(one);
    let zero = S::spec_zero();
    S::numbers_embed(zero, zero.spec_weight(), x);
    S::numbers_embed(zero, R::spec_zero(), x);
    S::zero_is_neutral(zero.spec_conjugate());
}

/// A probe that creates one eigenvector shows one line: the weight of that level is one and those
/// of all others are zero.
pub proof fn law_created_eigenvector_is_one_line<R: ExactReal, S: ExactComplex<R>>(
    eigenvectors: Seq<Seq<S>>,
    level: int,
    other: int,
)
    requires
        eigenphases::orthonormal(eigenvectors),
        0 <= level < eigenvectors.len(),
        0 <= other < eigenvectors.len(),
    ensures
        line_weights::<R, S>(eigenvectors, eigenvectors[level])[other] == if other == level {
            R::spec_one()
        } else {
            R::spec_zero()
        },
{
    lemma_weights::<R, S>(S::spec_one(), S::spec_zero());
    assert(linear::inner_product(eigenvectors[other], eigenvectors[level]) == if other == level {
        S::spec_one()
    } else {
        S::spec_zero()
    });
}

/// Weights are squares: a state created with a factor gives every line the weight of the factor.
pub proof fn law_weights_are_squares<R: ExactReal, S: ExactComplex<R>>(
    eigenvectors: Seq<Seq<S>>,
    created: Seq<S>,
    factor: S,
    level: int,
)
    requires
        ensemble::all_of_length(eigenvectors, created.len()),
        0 <= level < eigenvectors.len(),
    ensures
        line_weights::<R, S>(eigenvectors, linear::scaled(created, factor))[level]
            == factor.spec_weight().spec_times(
            line_weights::<R, S>(eigenvectors, created)[level],
        ),
{
    let vector = eigenvectors[level];
    assert(vector.len() == created.len());
    let nothing = linear::zeros::<S>(created.len());
    let both = linear::add_scaled(nothing, factor, created);
    assert forall|i: int| 0 <= i < created.len() implies #[trigger] both[i] == linear::scaled(
        created,
        factor,
    )[i] by {
        S::times_commutes(factor, created[i]);
        S::plus_commutes(S::spec_zero(), factor.spec_times(created[i]));
        S::zero_is_neutral(factor.spec_times(created[i]));
    }
    assert(both =~= linear::scaled(created, factor));
    exact::lemma_inner_scaled_right(vector, nothing, factor, created);
    exact::lemma_inner_with_zero(vector, created.len());
    let overlap = linear::inner_product(vector, created);
    S::plus_commutes(S::spec_zero(), factor.spec_times(overlap));
    S::zero_is_neutral(factor.spec_times(overlap));
    lemma_weights::<R, S>(factor, overlap);
}

proof fn lemma_state_at<H, R: RealNumber, E: Propagation<H, R>>(
    evolution: E,
    hamiltonian: H,
    state: Seq<E::Value>,
    times: Seq<R>,
    count: nat,
    place: int,
)
    requires
        0 <= place < count <= times.len(),
        states_at(evolution, hamiltonian, state, times, count) is Ok,
    ensures
        states_at(evolution, hamiltonian, state, times, count)->Ok_0.len() == count,
        evolution.spec_evolve(hamiltonian, state, times[place]) == Ok::<
            Seq<E::Value>,
            crate::error::QmbedError,
        >(states_at(evolution, hamiltonian, state, times, count)->Ok_0[place]),
    decreases count,
{
    let before = states_at(evolution, hamiltonian, state, times, (count - 1) as nat);
    if count > 1 {
        lemma_state_at(
            evolution,
            hamiltonian,
            state,
            times,
            (count - 1) as nat,
            if place < count - 1 {
                place
            } else {
                0
            },
        );
    }
}

proof fn lemma_correlation_at<A: LinearOperator>(
    probe: A,
    reference: Seq<Seq<A::Value>>,
    excited: Seq<Seq<A::Value>>,
    count: nat,
    place: int,
)
    requires
        0 <= place < count,
        response::correlations(probe, reference, excited, count) is Ok,
    ensures
        response::correlations(probe, reference, excited, count)->Ok_0.len() == count,
        probe.spec_apply(excited[place]) is Ok,
        response::correlations(probe, reference, excited, count)->Ok_0[place]
            == linear::inner_product(reference[place], probe.spec_apply(excited[place])->Ok_0),
    decreases count,
{
    reveal_with_fuel(response::correlations, 2);
    if count > 1 {
        lemma_correlation_at(
            probe,
            reference,
            excited,
            (count - 1) as nat,
            if place < count - 1 {
                place
            } else {
                0
            },
        );
    }
}

/// The second probe acts first and the first one later: as long as nothing moves, the correlator
/// is the expectation of the first probe after the second.
pub proof fn law_correlator_starts_with_the_product<
    H: LinearOperator,
    A: LinearOperator,
    B: LinearOperator<Value = A::Value>,
    R: RealNumber,
    E: Propagation<H, R, Value = A::Value>,
>(
    hamiltonian: H,
    state: Seq<A::Value>,
    left_probe: A,
    right_probe: B,
    evolution: E,
    times: Seq<R>,
    place: int,
)
    requires
        0 <= place < times.len(),
        correlator(hamiltonian, state, left_probe, right_probe, evolution, times) is Ok,
        forall|resting: Seq<A::Value>| #[trigger]
            evolution.spec_evolve(hamiltonian, resting, times[place]) == Ok::<
                Seq<A::Value>,
                crate::error::QmbedError,
            >(resting),
    ensures
        right_probe.spec_apply(state) is Ok,
        left_probe.spec_apply(right_probe.spec_apply(state)->Ok_0) is Ok,
        correlator(hamiltonian, state, left_probe, right_probe, evolution, times)->Ok_0[place]
            == linear::inner_product(
            state,
            left_probe.spec_apply(right_probe.spec_apply(state)->Ok_0)->Ok_0,
        ),
{
    let created = right_probe.spec_apply(state)->Ok_0;
    let n = times.len();
    let reference = states_at(evolution, hamiltonian, state, times, n)->Ok_0;
    let excited = states_at(evolution, hamiltonian, created, times, n)->Ok_0;
    lemma_state_at(evolution, hamiltonian, state, times, n, place);
    lemma_state_at(evolution, hamiltonian, created, times, n, place);
    assert(evolution.spec_evolve(hamiltonian, state, times[place]) == Ok::<
        Seq<A::Value>,
        crate::error::QmbedError,
    >(state));
    assert(evolution.spec_evolve(hamiltonian, created, times[place]) == Ok::<
        Seq<A::Value>,
        crate::error::QmbedError,
    >(created));
    lemma_correlation_at(left_probe, reference, excited, excited.len(), place);
}

/// The correlator compares evolved states: at each time it is the overlap of the state, evolved
/// for that time, with the first probe on the state that the second probe has created, evolved
/// for the same time.
pub proof fn law_correlator_compares_evolved_states<
    H: LinearOperator,
    A: LinearOperator,
    B: LinearOperator<Value = A::Value>,
    R: RealNumber,
    E: Propagation<H, R, Value = A::Value>,
>(
    hamiltonian: H,
    state: Seq<A::Value>,
    left_probe: A,
    right_probe: B,
    evolution: E,
    times: Seq<R>,
    place: int,
)
    requires
        0 <= place < times.len(),
        correlator(hamiltonian, state, left_probe, right_probe, evolution, times) is Ok,
    ensures
        ({
            let created = right_probe.spec_apply(state);
            let resting = evolution.spec_evolve(hamiltonian, state, times[place]);
            let excited = evolution.spec_evolve(hamiltonian, created->Ok_0, times[place]);
            let probed = left_probe.spec_apply(excited->Ok_0);
            &&& created is Ok && resting is Ok && excited is Ok && probed is Ok
            &&& correlator(
                hamiltonian,
                state,
                left_probe,
                right_probe,
                evolution,
                times,
            )->Ok_0[place] == linear::inner_product(resting->Ok_0, probed->Ok_0)
        }),
{
    let created = right_probe.spec_apply(state)->Ok_0;
    let n = times.len();
    let reference = states_at(evolution, hamiltonian, state, times, n)->Ok_0;
    let excited = states_at(evolution, hamiltonian, created, times, n)->Ok_0;
    lemma_state_at(evolution, hamiltonian, state, times, n, place);
    lemma_state_at(evolution, hamiltonian, created, times, n, place);
    lemma_correlation_at(left_probe, reference, excited, excited.len(), place);
}

} // verus!

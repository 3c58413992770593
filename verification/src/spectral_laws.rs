//! Drives, their quasienergies, mixtures of projectors and coherent states.

use vstd::prelude::*;

use crate::coherent;
use crate::coherent::Displacement;
use crate::eigenphases;
use crate::ensemble;
use crate::ensemble::ComplexOver;
use crate::evolution::Evolving;
use crate::exact_numbers::{ExactComplex, ExactReal};
use crate::floquet;
use crate::floquet::{driven, Circular, DriveStep, FloquetLevel, Propagation};
use crate::floquet_spectrum;
use crate::linear;
use crate::linear::{Gaussian, Scalar};
use crate::matrix_subspace::Normed;
use crate::numbers::{RealNumber, Whole};
use crate::partial_traces;
use crate::sums;
use crate::sums::total_of;

verus! {

/// The steps of a drive act in turn, the first one first: a drive that goes on with more steps
/// carries on from where the first steps have led.
pub proof fn law_drive_steps_act_in_turn<H, R: RealNumber, E: Propagation<H, R>>(
    first: Seq<DriveStep<H, R>>,
    second: Seq<DriveStep<H, R>>,
    evolution: E,
    state: Seq<E::Value>,
    count: nat,
)
    requires
        count <= second.len(),
        driven(first, evolution, state, first.len()) is Ok,
    ensures
        driven(first + second, evolution, state, first.len() + count) == driven(
            second,
            evolution,
            driven(first, evolution, state, first.len())->Ok_0,
            count,
        ),
    decreases count,
{
    if count == 0 {
        lemma_same_beginning(first, second, evolution, state, first.len());
    } else {
        law_drive_steps_act_in_turn(first, second, evolution, state, (count - 1) as nat);
        assert((first + second)[first.len() + count - 1] == second[count - 1]);
    }
}

proof fn lemma_same_beginning<H, R: RealNumber, E: Propagation<H, R>>(
    first: Seq<DriveStep<H, R>>,
    second: Seq<DriveStep<H, R>>,
    evolution: E,
    state: Seq<E::Value>,
    count: nat,
)
    requires
        count <= first.len(),
    ensures
        driven(first + second, evolution, state, count) == driven(first, evolution, state, count),
    decreases count,
{
    if count > 0 {
        lemma_same_beginning(first, second, evolution, state, (count - 1) as nat);
        assert((first + second)[count - 1] == first[count - 1]);
    }
}

/// A drive of one step is the evolution under its generator for its duration.
pub proof fn law_single_step_is_its_evolution<H, R: RealNumber, E: Propagation<H, R>>(
    step: DriveStep<H, R>,
    evolution: E,
    state: Seq<E::Value>,
)
    ensures
        driven(seq![step], evolution, state, 1) == evolution.spec_evolve(
            step.hamiltonian,
            state,
            step.duration,
        ),
{
    reveal_with_fuel(driven, 2);
}

/// A quasienergy turns clockwise by the angle of its eigenvalue in one period: the quasienergy
/// times the period and the angle of the eigenvalue add up to zero.
pub proof fn law_quasienergies_are_clockwise_angles<R: ExactReal, S: Circular<R> + Normed>(
    matrix: Seq<S>,
    period: R,
    eigenvalue: S,
    vector: Seq<S>,
)
    requires
        R::parts(period),
    ensures
        floquet::level_of(matrix, period, eigenvalue, vector).quasienergy.spec_times(
            period,
        ).spec_plus(eigenvalue.spec_angle()) == R::spec_zero(),
{
    let zero = R::spec_zero();
    let angle = eigenvalue.spec_angle();
    let turned = zero.spec_minus(angle);
    R::times_commutes(turned.spec_over(period), period);
    R::division_is_linear(period, turned, period);
    R::times_commutes(period, turned);
    R::division_is_linear(turned, turned, period);
    R::minus_undoes_plus(zero, angle);
}

/// The angle of a unit of the Gaussian integers is the turn against the clock that leads to it.
pub proof fn law_angles_lead_to_their_unit(unit: Gaussian)
    requires
        unit.re as int * unit.re as int + unit.im as int * unit.im as int == 1,
    ensures
        <Gaussian as Evolving<Whole>>::spec_rotation(
            Whole { value: 0 }.spec_minus(<Gaussian as Circular<Whole>>::spec_angle(unit)),
        ) == unit,
{
    let (x, y) = (unit.re as int, unit.im as int);
    assert(-1 <= x <= 1 && -1 <= y <= 1 && (x == 0 <==> y != 0)) by (nonlinear_arith)
        requires
            x * x + y * y == 1,
    ;
    assert((-1int) % 4 == 3 && 2int % 4 == 2 && 1int % 4 == 1 && (-2int) % 4 == 2);
}

/// The share of one vector in an element of a mixture.
spec fn mixture_term<R: RealNumber, S: ComplexOver<R>>(
    eigenvectors: Seq<Seq<S>>,
    weights: Seq<R>,
    row: int,
    column: int,
    level: int,
) -> S {
    S::spec_from_number(weights[level]).spec_times(eigenvectors[level][row]).spec_times(
        eigenvectors[level][column].spec_conjugate(),
    )
}

proof fn lemma_mixture<R: RealNumber, S: ComplexOver<R>>(
    eigenvectors: Seq<Seq<S>>,
    weights: Seq<R>,
    row: int,
    column: int,
    count: nat,
)
    ensures
        ensemble::mixture_element(eigenvectors, weights, row, column, count) == total_of(
            |l: int| mixture_term(eigenvectors, weights, row, column, l),
            count,
        ),
    decreases count,
{
    if count > 0 {
        lemma_mixture(eigenvectors, weights, row, column, (count - 1) as nat);
    }
}

proof fn lemma_row_product<S: Scalar>(matrix: Seq<S>, row: int, vector: Seq<S>, count: nat)
    ensures
        floquet::row_product(matrix, row, vector, count) == total_of(
            |j: int| matrix[row * vector.len() + j].spec_times(vector[j]),
            count,
        ),
    decreases count,
{
    if count > 0 {
        lemma_row_product(matrix, row, vector, (count - 1) as nat);
    }
}

/// A mixture of projectors has its vectors as eigenvectors and its weights as eigenvalues: the
/// matrix takes each of some orthonormal vectors to the multiple with its weight. So a mixture of
/// energies is a Hamiltonian with these levels, and a mixture of probabilities is a density.
pub proof fn law_mixtures_have_their_weights_as_eigenvalues<R: ExactReal, S: ExactComplex<R>>(
    eigenvectors: Seq<Seq<S>>,
    weights: Seq<R>,
    level: int,
    row: int,
)
    requires
        ensemble::square(eigenvectors, weights.len()),
        eigenphases::orthonormal(eigenvectors),
        0 <= level < weights.len(),
        0 <= row < weights.len(),
    ensures
        floquet::row_product(
            ensemble::mixed_projectors(eigenvectors, weights),
            row,
            eigenvectors[level],
            weights.len(),
        ) == S::spec_from_number(weights[level]).spec_times(eigenvectors[level][row]),
{
    let n = weights.len();
    let matrix = ensemble::mixed_projectors(eigenvectors, weights);
    let vector = eigenvectors[level];
    assert(vector.len() == n);
    lemma_row_product(matrix, row, vector, n);
    let given = |j: int| matrix[row * vector.len() + j].spec_times(vector[j]);
    let factor = |l: int|
        S::spec_from_number(weights[l]).spec_times(eigenvectors[l][row]);
    let term = |j: int, l: int|
        factor(l).spec_times(eigenvectors[l][j].spec_conjugate().spec_times(vector[j]));
    let by_place = |j: int| total_of(|l: int| term(j, l), n);
    assert forall|j: int| 0 <= j < n implies #[trigger] given(j) == by_place(j) by {
        partial_traces::lemma_pair(row, j, n as int, n as int);
        lemma_mixture(eigenvectors, weights, row, j, n);
        let inside = |l: int| mixture_term(eigenvectors, weights, row, j, l);
        sums::lemma_factor_behind(inside, vector[j], n);
        let scaled = |l: int| inside(l).spec_times(vector[j]);
        let terms = |l: int| term(j, l);
        assert forall|l: int| 0 <= l < n implies #[trigger] scaled(l) == terms(l) by {
            let w = S::spec_from_number(weights[l]);
            let (a, b) = (eigenvectors[l][row], eigenvectors[l][j].spec_conjugate());
            S::times_associates(w.spec_times(a), b, vector[j]);
        }
        sums::lemma_alike(scaled, terms, n);
    }
    sums::lemma_alike(given, by_place, n);
    sums::lemma_exchanged(term, n, n);
    let by_level = |l: int| total_of(|j: int| term(j, l), n);
    assert forall|l: int| 0 <= l < n implies #[trigger] by_level(l) == factor(l).spec_times(
        linear::inner_product(eigenvectors[l], vector),
    ) by {
        assert(eigenvectors[l].len() == n);
        let pairs = |j: int| eigenvectors[l][j].spec_conjugate().spec_times(vector[j]);
        sums::lemma_factor(factor(l), pairs, n);
        sums::lemma_inner_product(eigenvectors[l], vector);
        sums::lemma_alike(|j: int| term(j, l), |j: int| factor(l).spec_times(pairs(j)), n);
    }
    assert forall|l: int| 0 <= l < n && l != level implies #[trigger] by_level(l)
        == S::spec_zero() by {
        assert(linear::inner_product(eigenvectors[l], eigenvectors[level]) == S::spec_zero());
        S::times_commutes(factor(l), S::spec_zero());
        S::zero_is_neutral(factor(l));
    }
    sums::lemma_single(by_level, level, n);
    assert(linear::inner_product(eigenvectors[level], eigenvectors[level]) == S::spec_one());
    S::times_commutes(factor(level), S::spec_one());
    S::one_is_neutral(factor(level));
}

/// The effective Hamiltonian of a drive has the eigenvectors of the drive, each with its
/// quasienergy.
pub proof fn law_effective_hamiltonian_has_the_quasienergies<
    R: ExactReal,
    S: Circular<R> + ExactComplex<R>,
>(levels: Seq<FloquetLevel<R, S>>, level: int, row: int)
    requires
        ensemble::square(floquet::eigenvectors_of(levels), levels.len()),
        eigenphases::orthonormal(floquet::eigenvectors_of(levels)),
        0 <= level < levels.len(),
        0 <= row < levels.len(),
    ensures
        floquet::row_product(
            floquet_spectrum::effective(levels),
            row,
            levels[level].eigenvector,
            levels.len(),
        ) == S::spec_from_number(levels[level].quasienergy).spec_times(
            levels[level].eigenvector[row],
        ),
{
    law_mixtures_have_their_weights_as_eigenvalues(
        floquet::eigenvectors_of(levels),
        floquet::quasienergies_of(levels),
        level,
        row,
    );
}

/// A coherent state is an eigenvector of annihilation: the coefficient of one more boson, times
/// the root of the number of bosons, is the coefficient below it times the displacement.
pub proof fn law_coherent_states_are_annihilated_to_themselves<
    R: ExactReal,
    S: Displacement<R> + ExactComplex<R>,
>(amplitude: S, states: usize, occupation: nat)
    requires
        coherent::coherent::<R, S>(amplitude, states) is Ok,
        occupation + 1 < states,
        S::divides(R::spec_count((occupation + 1) as usize).spec_root()),
    ensures
        coherent::coherent::<R, S>(amplitude, states)->Ok_0[occupation as int + 1].spec_times(
            S::spec_from_number(R::spec_count((occupation + 1) as usize).spec_root()),
        ) == coherent::coherent::<R, S>(amplitude, states)->Ok_0[occupation as int].spec_times(
            amplitude,
        ),
{
    let root = R::spec_count((occupation + 1) as usize).spec_root();
    let before = coherent::coherent_coefficient::<R, S>(amplitude, occupation);
    let size = S::spec_from_number(root);
    S::times_associates(before, amplitude.spec_divided(root), size);
    // (amplitude / root) * root = amplitude
    S::times_commutes(amplitude.spec_divided(root), size);
    S::division_is_linear(size, amplitude, root);
    S::times_commutes(size, amplitude);
    S::division_is_linear(amplitude, amplitude, root);
}

} // verus!

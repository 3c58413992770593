//! Evolution in a complete eigensystem, and observables along trajectories.

use vstd::prelude::*;

use crate::ensemble;
use crate::ensemble::{check_square, fills_square, ComplexOver};
use crate::error::{QmbedError, Reason, Result};
use crate::linear;
use crate::linear::{dotc, Gaussian, LinearOperator, Scalar};
use crate::numbers::{RealNumber, Whole};
use crate::observables;
use crate::observables::expectation;
use crate::statistics;

verus! {

/// Complex scalars that hold the phases of evolving levels.
pub trait Evolving<R: RealNumber>: ComplexOver<R> {
    /// The unit scalar turned clockwise by an angle.
    spec fn spec_rotation(angle: R) -> Self;

    fn rotation(angle: R) -> (value: Self)
        ensures
            value == Self::spec_rotation(angle),
    ;
}

/// Over the Gaussian integers angles count quarter turns.
impl Evolving<Whole> for Gaussian {
    open spec fn spec_rotation(angle: Whole) -> Self {
        let quarters = angle.value as int % 4;
        if quarters == 0 {
            Gaussian { re: 1, im: 0 }
        } else if quarters == 1 {
            Gaussian { re: 0, im: (-1) as i64 }
        } else if quarters == 2 {
            Gaussian { re: (-1) as i64, im: 0 }
        } else {
            Gaussian { re: 0, im: 1 }
        }
    }

    fn rotation(angle: Whole) -> (value: Self) {
        let shifted: i128 = angle.value as i128 + 0x8000_0000_0000_0000i128;
        proof {
            vstd::arithmetic::div_mod::lemma_mod_multiples_vanish(
                0x2000_0000_0000_0000,
                angle.value as int,
                4,
            );
        }
        let quarters: u128 = shifted as u128 % 4;
        if quarters == 0 {
            Gaussian { re: 1, im: 0 }
        } else if quarters == 1 {
            Gaussian { re: 0, im: -1 }
        } else if quarters == 2 {
            Gaussian { re: -1, im: 0 }
        } else {
            Gaussian { re: 0, im: 1 }
        }
    }
}

/// States at the times of a list.
pub struct StateTrajectory<R, S> {
    pub times: Vec<R>,
    pub states: Vec<Vec<S>>,
}

/// An entry of the first levels of a state at a time.
pub open spec fn evolved_entry<R: RealNumber, S: Evolving<R>>(
    initial: Seq<S>,
    levels: Seq<R>,
    eigenvectors: Seq<Seq<S>>,
    time: R,
    place: int,
    count: nat,
) -> S
    decreases count,
{
    if count == 0 {
        S::spec_zero()
    } else {
        let vector = eigenvectors[count - 1];
        let weight = linear::inner_product(vector, initial).spec_times(
            S::spec_rotation(time.spec_times(levels[count - 1])),
        );
        evolved_entry(initial, levels, eigenvectors, time, place, (count - 1) as nat).spec_plus(
            weight.spec_times(vector[place]),
        )
    }
}

/// A state at a time.
pub open spec fn evolved<R: RealNumber, S: Evolving<R>>(
    initial: Seq<S>,
    levels: Seq<R>,
    eigenvectors: Seq<Seq<S>>,
    time: R,
) -> Seq<S> {
    Seq::new(
        initial.len(),
        |place: int|
            evolved_entry(initial, levels, eigenvectors, time, place, levels.len()),
    )
}

/// Whether an eigensystem is complete for a state and the times are finite and at least one.
pub open spec fn complete_system<R: RealNumber, S>(
    dimension: nat,
    levels: Seq<R>,
    eigenvectors: Seq<Seq<S>>,
    times: Seq<R>,
) -> bool {
    &&& times.len() > 0
    &&& statistics::all_finite(times)
    &&& levels.len() == dimension
    &&& ensemble::square(eigenvectors, dimension)
}

fn evolve_to<R: RealNumber, S: Evolving<R>>(
    initial: &Vec<S>,
    coefficients: &Vec<S>,
    eigenvalues: &Vec<R>,
    eigenvectors: &Vec<Vec<S>>,
    time: R,
) -> (state: Vec<S>)
    requires
        eigenvalues@.len() == initial@.len(),
        ensemble::square(ensemble::vectors(eigenvectors@), initial@.len()),
        coefficients@.len() == initial@.len(),
        forall|i: int|
            0 <= i < coefficients@.len() ==> #[trigger] coefficients@[i] == linear::inner_product(
                ensemble::vectors(eigenvectors@)[i],
                initial@,
            ),
    ensures
        state@ == evolved(initial@, eigenvalues@, ensemble::vectors(eigenvectors@), time),
{
    let ghost given = ensemble::vectors(eigenvectors@);
    let dimension: usize = initial.len();
    let mut state: Vec<S> = linear::zero_vector(dimension);
    let mut level: usize = 0;
    while level < dimension
        invariant
            level <= dimension,
            dimension == initial@.len(),
            given == ensemble::vectors(eigenvectors@),
            eigenvalues@.len() == dimension,
            ensemble::square(given, dimension as nat),
            coefficients@.len() == dimension,
            forall|i: int|
                0 <= i < coefficients@.len() ==> #[trigger] coefficients@[i]
                    == linear::inner_product(given[i], initial@),
            state@.len() == dimension,
            forall|place: int|
                0 <= place < dimension ==> #[trigger] state@[place] == evolved_entry(
                    initial@,
                    eigenvalues@,
                    given,
                    time,
                    place,
                    level as nat,
                ),
        decreases dimension - level,
    {
        assert(given[level as int].len() == dimension);
        let weight: S = coefficients[level].times(&S::rotation(time.times(eigenvalues[level])));
        let vector: &Vec<S> = &eigenvectors[level];
        let mut place: usize = 0;
        while place < dimension
            invariant
                place <= dimension,
                level < dimension,
                dimension == initial@.len(),
                vector@ == given[level as int],
                vector@.len() == dimension,
                weight == linear::inner_product(given[level as int], initial@).spec_times(
                    S::spec_rotation(time.spec_times(eigenvalues@[level as int])),
                ),
                state@.len() == dimension,
                forall|p: int|
                    0 <= p < dimension ==> #[trigger] state@[p] == evolved_entry(
                        initial@,
                        eigenvalues@,
                        given,
                        time,
                        p,
                        if p < place {
                            (level + 1) as nat
                        } else {
                            level as nat
                        },
                    ),
            decreases dimension - place,
        {
            let sum: S = state[place].plus(&weight.times(&vector[place]));
            state.set(place, sum);
            place += 1;
        }
        level += 1;
    }
    assert(state@ =~= evolved(initial@, eigenvalues@, given, time));
    state
}

/// Exact evolution of a state in a complete eigensystem.
pub fn ed_state_vs_time<R: RealNumber, S: Evolving<R>>(
    initial: &Vec<S>,
    eigenvalues: &Vec<R>,
    eigenvectors: &Vec<Vec<S>>,
    times: &Vec<R>,
) -> (result: Result<StateTrajectory<R, S>>)
    ensures
        match result {
            Ok(trajectory) => {
                &&& complete_system(
                    initial@.len(),
                    eigenvalues@,
                    ensemble::vectors(eigenvectors@),
                    times@,
                )
                &&& trajectory.times@ == times@
                &&& trajectory.states@.len() == times@.len()
                &&& forall|k: int|
                    0 <= k < times@.len() ==> (#[trigger] trajectory.states@[k])@ == evolved(
                        initial@,
                        eigenvalues@,
                        ensemble::vectors(eigenvectors@),
                        times@[k],
                    )
            },
            Err(error) => {
                &&& !complete_system(
                    initial@.len(),
                    eigenvalues@,
                    ensemble::vectors(eigenvectors@),
                    times@,
                )
                &&& error == QmbedError::DimensionMismatch(
                    Reason::Text("complete eigensystem, state, and finite nonempty times are required"),
                )
            },
        },
{
    let ghost given = ensemble::vectors(eigenvectors@);
    let dimension: usize = initial.len();
    if times.len() == 0 || !statistics::check_finite(times) || eigenvalues.len() != dimension
        || !check_square(eigenvectors, dimension) {
        return Err(
            QmbedError::DimensionMismatch(
                Reason::Text("complete eigensystem, state, and finite nonempty times are required"),
            ),
        );
    }
    let mut coefficients: Vec<S> = Vec::new();
    let mut level: usize = 0;
    while level < dimension
        invariant
            level <= dimension,
            dimension == initial@.len(),
            given == ensemble::vectors(eigenvectors@),
            ensemble::square(given, dimension as nat),
            coefficients@.len() == level,
            forall|i: int|
                0 <= i < level ==> #[trigger] coefficients@[i] == linear::inner_product(
                    given[i],
                    initial@,
                ),
        decreases dimension - level,
    {
        assert(given[level as int].len() == dimension);
        coefficients.push(dotc(&eigenvectors[level], initial));
        level += 1;
    }
    let mut list: Vec<R> = Vec::new();
    let mut states: Vec<Vec<S>> = Vec::new();
    let mut next: usize = 0;
    while next < times.len()
        invariant
            next <= times@.len(),
            dimension == initial@.len(),
            given == ensemble::vectors(eigenvectors@),
            eigenvalues@.len() == dimension,
            ensemble::square(given, dimension as nat),
            coefficients@.len() == dimension,
            forall|i: int|
                0 <= i < dimension ==> #[trigger] coefficients@[i] == linear::inner_product(
                    given[i],
                    initial@,
                ),
            list@ == times@.take(next as int),
            states@.len() == next,
            forall|k: int|
                0 <= k < next ==> (#[trigger] states@[k])@ == evolved(
                    initial@,
                    eigenvalues@,
                    given,
                    times@[k],
                ),
        decreases times@.len() - next,
    {
        let state: Vec<S> = evolve_to(
            initial,
            &coefficients,
            eigenvalues,
            eigenvectors,
            times[next],
        );
        states.push(state);
        list.push(times[next]);
        next += 1;
        assert(list@ =~= times@.take(next as int));
    }
    assert(list@ =~= times@);
    Ok(StateTrajectory { times: list, states })
}

/// Sum of the first terms of a matrix element between two vectors, in row order.
pub open spec fn sandwich_between<S: Scalar>(
    matrix: Seq<S>,
    left: Seq<S>,
    right: Seq<S>,
    dimension: nat,
    count: nat,
) -> S
    decreases count,
{
    if count == 0 {
        S::spec_zero()
    } else {
        let row = (count - 1) / dimension as int;
        let column = (count - 1) % dimension as int;
        sandwich_between(matrix, left, right, dimension, (count - 1) as nat).spec_plus(
            left[row].spec_conjugate().spec_times(matrix[count - 1]).spec_times(right[column]),
        )
    }
}

/// A matrix in an eigensystem, in row order.
pub open spec fn in_eigensystem<S: Scalar>(matrix: Seq<S>, eigenvectors: Seq<Seq<S>>) -> Seq<S> {
    let dimension = eigenvectors.len();
    Seq::new(
        dimension * dimension,
        |place: int|
            sandwich_between(
                matrix,
                eigenvectors[place / dimension as int],
                eigenvectors[place % dimension as int],
                dimension,
                dimension * dimension,
            ),
    )
}

/// Sum of the first terms of an element of a density at a time; the terms run over pairs of
/// levels.
pub open spec fn evolved_element<R: RealNumber, S: Evolving<R>>(
    within: Seq<S>,
    levels: Seq<R>,
    eigenvectors: Seq<Seq<S>>,
    time: R,
    row: int,
    column: int,
    count: nat,
) -> S
    decreases count,
{
    if count == 0 {
        S::spec_zero()
    } else {
        let left = (count - 1) / eigenvectors.len() as int;
        let right = (count - 1) % eigenvectors.len() as int;
        let phase = S::spec_rotation(time.spec_times(levels[left].spec_minus(levels[right])));
        evolved_element(
            within,
            levels,
            eigenvectors,
            time,
            row,
            column,
            (count - 1) as nat,
        ).spec_plus(
            eigenvectors[left][row].spec_times(phase).spec_times(within[count - 1]).spec_times(
                eigenvectors[right][column].spec_conjugate(),
            ),
        )
    }
}

/// A density at a time, in row order.
pub open spec fn evolved_density<R: RealNumber, S: Evolving<R>>(
    initial: Seq<S>,
    levels: Seq<R>,
    eigenvectors: Seq<Seq<S>>,
    time: R,
) -> Seq<S> {
    let dimension = eigenvectors.len();
    Seq::new(
        dimension * dimension,
        |place: int|
            evolved_element(
                in_eigensystem(initial, eigenvectors),
                levels,
                eigenvectors,
                time,
                place / dimension as int,
                place % dimension as int,
                dimension * dimension,
            ),
    )
}

proof fn lemma_place(place: int, dimension: int)
    requires
        0 <= place < dimension * dimension,
        0 <= dimension,
    ensures
        dimension > 0,
        0 <= place / dimension < dimension,
        0 <= place % dimension < dimension,
{
    assert(dimension > 0) by (nonlinear_arith)
        requires
            0 <= place < dimension * dimension,
            dimension >= 0,
    ;
    vstd::arithmetic::div_mod::lemma_multiply_divide_lt(place, dimension, dimension);
    vstd::arithmetic::div_mod::lemma_mod_bound(place, dimension);
    vstd::arithmetic::div_mod::lemma_div_pos_is_pos(place, dimension);
}

fn find_sandwich_between<S: Scalar>(matrix: &Vec<S>, left: &Vec<S>, right: &Vec<S>) -> (sum: S)
    requires
        matrix@.len() == left@.len() * left@.len(),
        right@.len() == left@.len(),
    ensures
        sum == sandwich_between(matrix@, left@, right@, left@.len(), matrix@.len()),
{
    let dimension: usize = left.len();
    let mut sum: S = S::zero();
    let mut next: usize = 0;
    while next < matrix.len()
        invariant
            next <= matrix@.len(),
            dimension == left@.len(),
            dimension == right@.len(),
            matrix@.len() == dimension * dimension,
            sum == sandwich_between(matrix@, left@, right@, dimension as nat, next as nat),
        decreases matrix@.len() - next,
    {
        proof {
            lemma_place(next as int, dimension as int);
        }
        let row: usize = next / dimension;
        let column: usize = next % dimension;
        sum = sum.plus(&left[row].conjugate().times(&matrix[next]).times(&right[column]));
        next += 1;
    }
    sum
}

fn find_within<S: Scalar>(matrix: &Vec<S>, eigenvectors: &Vec<Vec<S>>) -> (within: Vec<S>)
    requires
        matrix@.len() == eigenvectors@.len() * eigenvectors@.len(),
        ensemble::square(ensemble::vectors(eigenvectors@), eigenvectors@.len()),
    ensures
        within@ == in_eigensystem(matrix@, ensemble::vectors(eigenvectors@)),
{
    let ghost given = ensemble::vectors(eigenvectors@);
    let dimension: usize = eigenvectors.len();
    let mut within: Vec<S> = Vec::new();
    let mut place: usize = 0;
    while place < matrix.len()
        invariant
            place <= matrix@.len(),
            dimension == eigenvectors@.len(),
            matrix@.len() == dimension * dimension,
            given == ensemble::vectors(eigenvectors@),
            ensemble::square(given, dimension as nat),
            within@ == in_eigensystem(matrix@, given).take(place as int),
        decreases matrix@.len() - place,
    {
        proof {
            lemma_place(place as int, dimension as int);
            assert(given[place as int / dimension as int].len() == dimension);
            assert(given[place as int % dimension as int].len() == dimension);
        }
        let left: usize = place / dimension;
        let right: usize = place % dimension;
        within.push(find_sandwich_between(matrix, &eigenvectors[left], &eigenvectors[right]));
        place += 1;
        assert(within@ =~= in_eigensystem(matrix@, given).take(place as int));
    }
    assert(within@ =~= in_eigensystem(matrix@, given));
    within
}

fn evolve_density_to<R: RealNumber, S: Evolving<R>>(
    initial: &Vec<S>,
    within: &Vec<S>,
    eigenvalues: &Vec<R>,
    eigenvectors: &Vec<Vec<S>>,
    time: R,
) -> (density: Vec<S>)
    requires
        initial@.len() == eigenvectors@.len() * eigenvectors@.len(),
        eigenvalues@.len() == eigenvectors@.len(),
        ensemble::square(ensemble::vectors(eigenvectors@), eigenvectors@.len()),
        within@ == in_eigensystem(initial@, ensemble::vectors(eigenvectors@)),
    ensures
        density@ == evolved_density(
            initial@,
            eigenvalues@,
            ensemble::vectors(eigenvectors@),
            time,
        ),
{
    let ghost given = ensemble::vectors(eigenvectors@);
    let ghost stated = evolved_density(initial@, eigenvalues@, given, time);
    let dimension: usize = eigenvectors.len();
    let size: usize = initial.len();
    let mut density: Vec<S> = Vec::new();
    let mut place: usize = 0;
    while place < size
        invariant
            place <= size,
            size == dimension * dimension,
            dimension == eigenvectors@.len(),
            eigenvalues@.len() == dimension,
            given == ensemble::vectors(eigenvectors@),
            ensemble::square(given, dimension as nat),
            within@ == in_eigensystem(initial@, given),
            stated == evolved_density(initial@, eigenvalues@, given, time),
            density@ == stated.take(place as int),
        decreases size - place,
    {
        proof {
            lemma_place(place as int, dimension as int);
        }
        let row: usize = place / dimension;
        let column: usize = place % dimension;
        let mut sum: S = S::zero();
        let mut next: usize = 0;
        while next < size
            invariant
                next <= size,
                size == dimension * dimension,
                row < dimension,
                column < dimension,
                dimension == eigenvectors@.len(),
                eigenvalues@.len() == dimension,
                given == ensemble::vectors(eigenvectors@),
                ensemble::square(given, dimension as nat),
                within@ == in_eigensystem(initial@, given),
                sum == evolved_element(
                    within@,
                    eigenvalues@,
                    given,
                    time,
                    row as int,
                    column as int,
                    next as nat,
                ),
            decreases size - next,
        {
            proof {
                lemma_place(next as int, dimension as int);
                assert(given[next as int / dimension as int].len() == dimension);
                assert(given[next as int % dimension as int].len() == dimension);
            }
            let left: usize = next / dimension;
            let right: usize = next % dimension;
            let phase: S = S::rotation(
                time.times(eigenvalues[left].minus(eigenvalues[right])),
            );
            sum = sum.plus(
                &eigenvectors[left][row].times(&phase).times(&within[next]).times(
                    &eigenvectors[right][column].conjugate(),
                ),
            );
            next += 1;
        }
        density.push(sum);
        place += 1;
        assert(density@ =~= stated.take(place as int));
    }
    assert(density@ =~= stated);
    density
}

/// Whether an eigensystem is complete for a density and the times are finite and at least one.
pub open spec fn complete_for_density<R: RealNumber, S>(
    initial: Seq<S>,
    levels: Seq<R>,
    eigenvectors: Seq<Seq<S>>,
    times: Seq<R>,
) -> bool {
    &&& initial.len() == levels.len() * levels.len()
    &&& ensemble::square(eigenvectors, levels.len())
    &&& times.len() > 0
    &&& statistics::all_finite(times)
}

/// Exact evolution of a density matrix in a complete eigensystem.
pub fn ed_density_vs_time<R: RealNumber, S: Evolving<R>>(
    initial: &Vec<S>,
    eigenvalues: &Vec<R>,
    eigenvectors: &Vec<Vec<S>>,
    times: &Vec<R>,
) -> (result: Result<Vec<Vec<S>>>)
    ensures
        match result {
            Ok(densities) => {
                &&& complete_for_density(
                    initial@,
                    eigenvalues@,
                    ensemble::vectors(eigenvectors@),
                    times@,
                )
                &&& densities@.len() == times@.len()
                &&& forall|k: int|
                    0 <= k < times@.len() ==> (#[trigger] densities@[k])@ == evolved_density(
                        initial@,
                        eigenvalues@,
                        ensemble::vectors(eigenvectors@),
                        times@[k],
                    )
            },
            Err(error) => {
                &&& !complete_for_density(
                    initial@,
                    eigenvalues@,
                    ensemble::vectors(eigenvectors@),
                    times@,
                )
                &&& error == QmbedError::DimensionMismatch(
                    Reason::Text("density matrix and complete eigensystem dimensions do not match"),
                )
            },
        },
{
    let ghost given = ensemble::vectors(eigenvectors@);
    let dimension: usize = eigenvalues.len();
    if !fills_square(initial, dimension) || !check_square(eigenvectors, dimension) || times.len()
        == 0 || !statistics::check_finite(times) {
        return Err(
            QmbedError::DimensionMismatch(
                Reason::Text("density matrix and complete eigensystem dimensions do not match"),
            ),
        );
    }
    let within: Vec<S> = find_within(initial, eigenvectors);
    let mut densities: Vec<Vec<S>> = Vec::new();
    let mut next: usize = 0;
    while next < times.len()
        invariant
            next <= times@.len(),
            dimension == eigenvectors@.len(),
            given == ensemble::vectors(eigenvectors@),
            initial@.len() == dimension * dimension,
            eigenvalues@.len() == dimension,
            ensemble::square(given, dimension as nat),
            within@ == in_eigensystem(initial@, given),
            densities@.len() == next,
            forall|k: int|
                0 <= k < next ==> (#[trigger] densities@[k])@ == evolved_density(
                    initial@,
                    eigenvalues@,
                    given,
                    times@[k],
                ),
        decreases times@.len() - next,
    {
        let density: Vec<S> = evolve_density_to(
            initial,
            &within,
            eigenvalues,
            eigenvectors,
            times[next],
        );
        densities.push(density);
        next += 1;
    }
    Ok(densities)
}

/// Expectations of an observable in the first states of a trajectory.
pub open spec fn expectations<O: LinearOperator>(
    operator: O,
    states: Seq<Seq<O::Value>>,
    count: nat,
) -> core::result::Result<Seq<O::Value>, QmbedError>
    decreases count,
{
    if count == 0 {
        Ok(Seq::empty())
    } else {
        match expectations(operator, states, (count - 1) as nat) {
            Err(error) => Err(error),
            Ok(before) => match observables::element_between(
                states[count - 1],
                operator,
                states[count - 1],
            ) {
                Err(error) => Err(error),
                Ok(value) => Ok(before.push(value)),
            },
        }
    }
}

proof fn lemma_expectations_fail<O: LinearOperator>(
    operator: O,
    states: Seq<Seq<O::Value>>,
    count: nat,
    later: nat,
)
    requires
        count <= later,
        expectations(operator, states, count) is Err,
    ensures
        expectations(operator, states, later) == expectations(operator, states, count),
    decreases later,
{
    if count < later {
        lemma_expectations_fail(operator, states, count, (later - 1) as nat);
    }
}

fn find_expectations<O: LinearOperator>(operator: &O, states: &Vec<Vec<O::Value>>) -> (result: Result<
    Vec<O::Value>,
>)
    requires
        operator.wf(),
    ensures
        linear::vector_is(
            result,
            expectations(*operator, ensemble::vectors(states@), states@.len()),
        ),
{
    let ghost given = ensemble::vectors(states@);
    let mut values: Vec<O::Value> = Vec::new();
    let mut next: usize = 0;
    while next < states.len()
        invariant
            next <= states@.len(),
            operator.wf(),
            given == ensemble::vectors(states@),
            expectations(*operator, given, next as nat) == Ok::<Seq<O::Value>, QmbedError>(values@),
        decreases states@.len() - next,
    {
        match expectation(operator, &states[next]) {
            Ok(value) => {
                values.push(value);
            },
            Err(error) => {
                proof {
                    lemma_expectations_fail(
                        *operator,
                        given,
                        (next + 1) as nat,
                        states@.len(),
                    );
                }
                return Err(error);
            },
        }
        next += 1;
    }
    Ok(values)
}

/// Expectations of the first observables along a trajectory; their names are not empty and
/// differ.
pub open spec fn observed<O: LinearOperator>(
    names: Seq<Seq<char>>,
    operators: Seq<O>,
    states: Seq<Seq<O::Value>>,
    count: nat,
) -> core::result::Result<Seq<Seq<O::Value>>, QmbedError>
    decreases count,
{
    if count == 0 {
        Ok(Seq::empty())
    } else {
        match observed(names, operators, states, (count - 1) as nat) {
            Err(error) => Err(error),
            Ok(before) => if names[count - 1].len() == 0 || names.take(count - 1).contains(
                names[count - 1],
            ) {
                Err(QmbedError::InvalidOptions(Reason::Text("observable names must be nonempty and unique")))
            } else {
                match expectations(operators[count - 1], states, states.len()) {
                    Err(error) => Err(error),
                    Ok(values) => Ok(before.push(values)),
                }
            },
        }
    }
}

proof fn lemma_observed_fails<O: LinearOperator>(
    names: Seq<Seq<char>>,
    operators: Seq<O>,
    states: Seq<Seq<O::Value>>,
    count: nat,
    later: nat,
)
    requires
        count <= later,
        observed(names, operators, states, count) is Err,
    ensures
        observed(names, operators, states, later) == observed(names, operators, states, count),
    decreases later,
{
    if count < later {
        lemma_observed_fails(names, operators, states, count, (later - 1) as nat);
    }
}

/// Names of observables.
pub open spec fn names_of<O>(observables: Seq<(String, O)>) -> Seq<Seq<char>> {
    Seq::new(observables.len(), |i: int| observables[i].0@)
}

/// Operators of observables.
pub open spec fn operators_of<O>(observables: Seq<(String, O)>) -> Seq<O> {
    Seq::new(observables.len(), |i: int| observables[i].1)
}

/// Expectations of named observables along a trajectory, in the order of the observables.
pub fn observables_vs_time<R: RealNumber, O: LinearOperator>(
    trajectory: &StateTrajectory<R, O::Value>,
    observables: &Vec<(String, O)>,
) -> (result: Result<Vec<Vec<O::Value>>>)
    requires
        forall|i: int| 0 <= i < observables@.len() ==> (#[trigger] observables@[i]).1.wf(),
    ensures
        if trajectory.times@.len() != trajectory.states@.len() {
            result == Err::<Vec<Vec<O::Value>>, QmbedError>(
                QmbedError::DimensionMismatch(Reason::Text("trajectory times and states must have equal lengths")),
            )
        } else {
            match (
                result,
                observed(
                    names_of(observables@),
                    operators_of(observables@),
                    ensemble::vectors(trajectory.states@),
                    observables@.len(),
                ),
            ) {
                (Ok(list), Ok(stated)) => ensemble::vectors(list@) == stated,
                (Err(error), Err(stated)) => error == stated,
                _ => false,
            }
        },
{
    if trajectory.times.len() != trajectory.states.len() {
        return Err(
            QmbedError::DimensionMismatch(Reason::Text("trajectory times and states must have equal lengths")),
        );
    }
    let ghost names = names_of(observables@);
    let ghost operators = operators_of(observables@);
    let ghost states = ensemble::vectors(trajectory.states@);
    let mut list: Vec<Vec<O::Value>> = Vec::new();
    assert(ensemble::vectors(list@) =~= Seq::empty());
    let mut next: usize = 0;
    while next < observables.len()
        invariant
            next <= observables@.len(),
            trajectory.times@.len() == trajectory.states@.len(),
            names == names_of(observables@),
            operators == operators_of(observables@),
            states == ensemble::vectors(trajectory.states@),
            forall|i: int| 0 <= i < observables@.len() ==> (#[trigger] observables@[i]).1.wf(),
            observed(names, operators, states, next as nat) == Ok::<
                Seq<Seq<O::Value>>,
                QmbedError,
            >(ensemble::vectors(list@)),
        decreases observables@.len() - next,
    {
        let mut repeated: bool = observables[next].0.as_str().unicode_len() == 0;
        let mut earlier: usize = 0;
        while earlier < next
            invariant
                earlier <= next < observables@.len(),
                names == names_of(observables@),
                repeated == (names[next as int].len() == 0 || names.take(
                    earlier as int,
                ).contains(names[next as int])),
            decreases next - earlier,
        {
            proof {
                let before = names.take(earlier as int);
                let after = names.take(earlier + 1);
                assert(after =~= before.push(names[earlier as int]));
                assert(after[earlier as int] == names[earlier as int]);
                if before.contains(names[next as int]) {
                    assert(after[before.index_of(names[next as int])] == names[next as int]);
                }
            }
            if observables[earlier].0 == observables[next].0 {
                repeated = true;
            }
            earlier += 1;
        }
        if repeated {
            proof {
                lemma_observed_fails(
                    names,
                    operators,
                    states,
                    (next + 1) as nat,
                    observables@.len(),
                );
            }
            return Err(QmbedError::InvalidOptions(Reason::Text("observable names must be nonempty and unique")));
        }
        let ghost before = ensemble::vectors(list@);
        match find_expectations(&observables[next].1, &trajectory.states) {
            Ok(values) => {
                let ghost added = values@;
                list.push(values);
                assert(ensemble::vectors(list@) =~= before.push(added));
            },
            Err(error) => {
                proof {
                    lemma_observed_fails(
                        names,
                        operators,
                        states,
                        (next + 1) as nat,
                        observables@.len(),
                    );
                }
                return Err(error);
            },
        }
        next += 1;
    }
    Ok(list)
}

} // verus!

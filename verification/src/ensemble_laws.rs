//! Diagonal ensembles: weights in mixed states, averages and fluctuations.

use vstd::prelude::*;

use crate::ensemble;
use crate::ensemble::{density_weights, sandwich, temporal_row, temporal_variance, ComplexOver};
use crate::error::QmbedError;
use crate::exact::ExactScalar;
use crate::exact_numbers::{ExactComplex, ExactReal};
use crate::linear;
use crate::linear::{LinearOperator, Scalar};
use crate::matrix_subspace::Normed;
use crate::measure_laws;
use crate::observables;
use crate::observables::{element_between, ensemble_expectation, mixed_fluctuation, operator_trace};
use crate::partial_traces;
use crate::statistics;
use crate::sums;
use crate::sums::total_of;

verus! {

proof fn lemma_sandwich<S: Scalar>(matrix: Seq<S>, vector: Seq<S>, dimension: nat, count: nat)
    ensures
        sandwich(matrix, vector, dimension, count) == total_of(
            |place: int|
                vector[place / (dimension as int)].spec_conjugate().spec_times(
                    matrix[place],
                ).spec_times(vector[place % (dimension as int)]),
            count,
        ),
    decreases count,
{
    if count > 0 {
        lemma_sandwich(matrix, vector, dimension, (count - 1) as nat);
    }
}

/// The expectation of the projector on a state, in another vector, is the weight of the overlap of
/// the two.
pub proof fn law_projectors_weigh_overlaps<R: ExactReal, S: ExactComplex<R>>(
    state: Seq<S>,
    vector: Seq<S>,
)
    requires
        vector.len() == state.len(),
        state.len() > 0,
    ensures
        sandwich(
            partial_traces::outer_product(state),
            vector,
            vector.len(),
            state.len() * state.len(),
        ) == S::spec_from_number(linear::inner_product(vector, state).spec_weight()),
{
    let n = state.len();
    let matrix = partial_traces::outer_product(state);
    lemma_sandwich(matrix, vector, n, n * n);
    let given = |place: int|
        vector[place / (n as int)].spec_conjugate().spec_times(matrix[place]).spec_times(
            vector[place % (n as int)],
        );
    let over = |i: int| vector[i].spec_conjugate().spec_times(state[i]);
    let back = |j: int| over(j).spec_conjugate();
    let term = |i: int, j: int| over(i).spec_times(back(j));
    let flat = |place: int| term(place / (n as int), place % (n as int));
    assert forall|place: int| 0 <= place < n * n implies #[trigger] given(place) == flat(place) by {
        partial_traces::lemma_unpair(place, n as int, n as int);
        let (i, j) = (place / (n as int), place % (n as int));
        let (a, b) = (vector[i].spec_conjugate(), state[i]);
        let (c, d) = (state[j].spec_conjugate(), vector[j]);
        // (a * (b * c)) * d == (a * b) * (d * c)
        S::times_associates(a, b, c);
        S::times_associates(a.spec_times(b), c, d);
        S::times_commutes(c, d);
        S::conjugation_is_linear(vector[j].spec_conjugate(), state[j]);
        S::conjugation_is_linear(vector[j], state[j]);
    }
    sums::lemma_alike(given, flat, n * n);
    sums::lemma_by_rows(term, n, n);
    sums::lemma_product(over, back, n, n);
    let by_rows = |i: int| total_of(|j: int| term(i, j), n);
    let multiplied = |i: int| total_of(|j: int| over(i).spec_times(back(j)), n);
    assert forall|i: int| 0 <= i < n implies #[trigger] by_rows(i) == multiplied(i) by {
        sums::lemma_alike(|j: int| term(i, j), |j: int| over(i).spec_times(back(j)), n);
    }
    sums::lemma_alike(by_rows, multiplied, n);
    sums::lemma_conjugated(over, n);
    sums::lemma_inner_product(vector, state);
    let overlap = linear::inner_product(vector, state);
    S::numbers_embed(overlap, R::spec_one(), R::spec_one());
}

/// Pure mixed states have the probabilities of their state: the share of a level in the projector
/// on a state is the weight of its overlap with the state over the whole.
pub proof fn law_pure_densities_have_the_weights_of_their_state<R: ExactReal, S: ExactComplex<R>>(
    eigenvectors: Seq<Seq<S>>,
    state: Seq<S>,
    whole: R,
    count: nat,
)
    requires
        state.len() > 0,
        count <= eigenvectors.len(),
        ensemble::all_of_length(eigenvectors, state.len()),
        density_weights::<R, S>(
            eigenvectors,
            partial_traces::outer_product(state),
            whole,
            count,
        ) is Ok,
    ensures
        ({
            let weights = density_weights::<R, S>(
                eigenvectors,
                partial_traces::outer_product(state),
                whole,
                count,
            )->Ok_0;
            &&& weights.len() == count
            &&& forall|i: int|
                0 <= i < count ==> #[trigger] weights[i] == statistics::floored(
                    linear::inner_product(eigenvectors[i], state).spec_weight(),
                ).spec_over(whole)
        }),
    decreases count,
{
    if count > 0 {
        law_pure_densities_have_the_weights_of_their_state::<R, S>(
            eigenvectors,
            state,
            whole,
            (count - 1) as nat,
        );
        let vector = eigenvectors[count - 1];
        assert(vector.len() == state.len());
        law_projectors_weigh_overlaps::<R, S>(state, vector);
        let weight = linear::inner_product(vector, state).spec_weight();
        S::numbers_embed(S::spec_one(), weight, weight);
    }
}

/// An ensemble averages over its levels: where its vectors are normalized eigenvectors of an
/// observable, the expectation is the sum of their eigenvalues, each with its probability.
pub proof fn law_ensembles_average_their_values<R: ExactReal, O: LinearOperator>(
    probabilities: Seq<R>,
    eigenvectors: Seq<Seq<O::Value>>,
    observable: O,
    values: Seq<O::Value>,
    count: nat,
) where O::Value: ExactComplex<R>
    requires
        count <= probabilities.len(),
        count <= eigenvectors.len(),
        count <= values.len(),
        observable.spec_rows() == observable.spec_columns(),
        forall|i: int|
            0 <= i < count ==> {
                let vector = #[trigger] eigenvectors[i];
                &&& vector.len() == observable.spec_columns()
                &&& measure_laws::is_eigenvector(observable, vector, values[i])
                &&& linear::inner_product(vector, vector) == <O::Value as Scalar>::spec_one()
            },
    ensures
        ensemble_expectation(probabilities, eigenvectors, observable, count) == Ok::<
            O::Value,
            QmbedError,
        >(
            total_of(
                |i: int|
                    <O::Value as ComplexOver<R>>::spec_from_number(probabilities[i]).spec_times(
                        values[i],
                    ),
                count,
            ),
        ),
    decreases count,
{
    if count > 0 {
        law_ensembles_average_their_values(
            probabilities,
            eigenvectors,
            observable,
            values,
            (count - 1) as nat,
        );
        let vector = eigenvectors[count - 1];
        measure_laws::law_eigenvectors_show_their_value(
            observable,
            vector,
            vector,
            values[count - 1],
        );
    }
}

proof fn lemma_squared_trace<O: LinearOperator>(
    operator: O,
    state: Seq<O::Value>,
    once: Seq<O::Value>,
    again: Seq<O::Value>,
    count: nat,
) where O::Value: ExactScalar
    requires
        count <= state.len(),
        once.len() == state.len(),
        again.len() == state.len(),
        forall|factor: O::Value| #[trigger]
            operator.spec_apply(linear::scaled(state, factor)) == Ok::<
                Seq<O::Value>,
                QmbedError,
            >(linear::scaled(once, factor)),
        forall|factor: O::Value| #[trigger]
            operator.spec_apply(linear::scaled(once, factor)) == Ok::<
                Seq<O::Value>,
                QmbedError,
            >(linear::scaled(again, factor)),
    ensures
        operator_trace(
            operator,
            partial_traces::outer_product(state),
            state.len(),
            true,
            count,
        ) == Ok::<O::Value, QmbedError>(
            total_of(|i: int| state[i].spec_conjugate().spec_times(again[i]), count),
        ),
    decreases count,
{
    if count > 0 {
        lemma_squared_trace(operator, state, once, again, (count - 1) as nat);
        let n = state.len();
        let column = count - 1;
        let factor = state[column].spec_conjugate();
        let given = observables::column_of(partial_traces::outer_product(state), n, column);
        assert forall|row: int| 0 <= row < n implies #[trigger] given[row] == linear::scaled(
            state,
            factor,
        )[row] by {
            partial_traces::lemma_pair(row, column, n as int, n as int);
        }
        assert(given =~= linear::scaled(state, factor));
        <O::Value as ExactScalar>::times_commutes(again[column], factor);
        assert(operator.spec_apply(linear::scaled(state, factor)) == Ok::<
            Seq<O::Value>,
            QmbedError,
        >(linear::scaled(once, factor)));
        assert(operator.spec_apply(linear::scaled(once, factor)) == Ok::<
            Seq<O::Value>,
            QmbedError,
        >(linear::scaled(again, factor)));
    }
}

/// A linear operator fluctuates in the projector on a state by the expectation of its square,
/// less the square of its expectation, in that state.
pub proof fn law_pure_densities_fluctuate_as_their_state<O: LinearOperator>(
    operator: O,
    state: Seq<O::Value>,
    once: Seq<O::Value>,
    again: Seq<O::Value>,
) where O::Value: ExactScalar + Normed
    requires
        operator.spec_rows() == operator.spec_columns(),
        state.len() == operator.spec_columns(),
        once.len() == state.len(),
        again.len() == state.len(),
        operator.spec_apply(state) == Ok::<Seq<O::Value>, QmbedError>(once),
        forall|factor: O::Value| #[trigger]
            operator.spec_apply(linear::scaled(state, factor)) == Ok::<
                Seq<O::Value>,
                QmbedError,
            >(linear::scaled(once, factor)),
        forall|factor: O::Value| #[trigger]
            operator.spec_apply(linear::scaled(once, factor)) == Ok::<
                Seq<O::Value>,
                QmbedError,
            >(linear::scaled(again, factor)),
    ensures
        ({
            let mean = linear::inner_product(state, once);
            mixed_fluctuation(operator, partial_traces::outer_product(state)) == Ok::<
                O::Value,
                QmbedError,
            >(linear::inner_product(state, again).spec_minus(mean.spec_times(mean)))
        }),
{
    measure_laws::law_pure_densities_have_the_expectations_of_their_state(operator, state, once);
    lemma_squared_trace(operator, state, once, again, state.len());
    sums::lemma_inner_product(state, again);
    assert(element_between(state, operator, state) == Ok::<O::Value, QmbedError>(
        linear::inner_product(state, once),
    ));
}

/// Terms of the double sum of an observable, by column.
pub open spec fn double_row<R: ExactReal>(
    probabilities: Seq<R>,
    squares: Seq<R>,
    row: int,
) -> Seq<R> {
    Seq::new(
        squares.len(),
        |column: int|
            probabilities[row].spec_times(squares[column]).spec_times(probabilities[column]),
    )
}

proof fn lemma_temporal_row<R: ExactReal>(
    start: R,
    probabilities: Seq<R>,
    squares: Seq<R>,
    row: int,
    count: nat,
)
    requires
        count <= squares.len(),
    ensures
        temporal_row(start, probabilities, squares, row, count).spec_plus(
            if 0 <= row < count {
                double_row(probabilities, squares, row)[row]
            } else {
                R::spec_zero()
            },
        ) == start.spec_plus(
            statistics::total(double_row(probabilities, squares, row), count),
        ),
    decreases count,
{
    let terms = double_row(probabilities, squares, row);
    let zero = R::spec_zero();
    if count == 0 {
    } else {
        let fewer = (count - 1) as nat;
        lemma_temporal_row(start, probabilities, squares, row, fewer);
        let before = temporal_row(start, probabilities, squares, row, fewer);
        let sum = statistics::total(terms, fewer);
        let last = terms[count - 1];
        R::plus_associates(start, sum, last);
        if row == count - 1 {
            R::zero_is_neutral(before);
        } else {
            let own = if 0 <= row < count {
                terms[row]
            } else {
                zero
            };
            R::plus_associates(before, last, own);
            R::plus_commutes(last, own);
            R::plus_associates(before, own, last);
        }
    }
}

/// The variance in time leaves out exactly the diagonal: together with the diagonal terms it is the
/// sum of all squared elements, each with the probabilities of its row and its column.
pub proof fn law_temporal_variance_leaves_out_the_diagonal<R: ExactReal>(
    probabilities: Seq<R>,
    squares: Seq<Seq<R>>,
    count: nat,
)
    requires
        count <= squares.len(),
        forall|row: int|
            0 <= row < squares.len() ==> (#[trigger] squares[row]).len() == squares.len(),
    ensures
        temporal_variance(probabilities, squares, count).spec_plus(
            statistics::total(
                Seq::new(
                    squares.len(),
                    |row: int| double_row(probabilities, squares[row], row)[row],
                ),
                count,
            ),
        ) == statistics::total(
            Seq::new(
                squares.len(),
                |row: int|
                    statistics::total(
                        double_row(probabilities, squares[row], row),
                        squares.len(),
                    ),
            ),
            count,
        ),
    decreases count,
{
    let n = squares.len();
    let diagonal = Seq::new(n, |row: int| double_row(probabilities, squares[row], row)[row]);
    let whole = Seq::new(
        n,
        |row: int| statistics::total(double_row(probabilities, squares[row], row), n),
    );
    if count == 0 {
        R::zero_is_neutral(R::spec_zero());
    } else {
        let fewer = (count - 1) as nat;
        law_temporal_variance_leaves_out_the_diagonal(probabilities, squares, fewer);
        let start = temporal_variance(probabilities, squares, fewer);
        assert(squares[count - 1].len() == n);
        lemma_temporal_row(start, probabilities, squares[count - 1], count - 1, n);
        let now = temporal_variance(probabilities, squares, count);
        let (d, w) = (diagonal[count - 1], whole[count - 1]);
        let (x, y) = (statistics::total(diagonal, fewer), statistics::total(whole, fewer));
        // now + d == start + w and start + x == y give now + (x + d) == y + w
        assert(now.spec_plus(d) == start.spec_plus(w));
        R::plus_commutes(x, d);
        R::plus_associates(now, d, x);
        R::plus_associates(start, w, x);
        R::plus_commutes(w, x);
        R::plus_associates(start, x, w);
    }
}

} // verus!

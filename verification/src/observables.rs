//! Matrix elements, fluctuations and projected operators.

use vstd::prelude::*;

use crate::ensemble;
use crate::ensemble::{fills_square, ComplexOver};
use crate::error::{QmbedError, Reason, Result};
use crate::linear;
use crate::linear::{
    dotc, unit_vector, LinearOperator, MatrixFormat, Operator, OperatorModel, Scalar,
};
use crate::matrix_subspace;
use crate::matrix_subspace::{orthogonalize, Normed};
use crate::numbers::RealNumber;
use crate::projector::BasisProjector;
use crate::statistics;

verus! {

/// Matrix element of an operator between two vectors.
pub open spec fn element_between<O: LinearOperator>(
    left: Seq<O::Value>,
    operator: O,
    right: Seq<O::Value>,
) -> core::result::Result<O::Value, QmbedError> {
    if left.len() != operator.spec_rows() || right.len() != operator.spec_columns() {
        Err(
            QmbedError::DimensionMismatch(Reason::Text("matrix-element vectors do not match the operator shape")),
        )
    } else {
        match operator.spec_apply(right) {
            Err(error) => Err(error),
            Ok(image) => Ok(linear::inner_product(left, image)),
        }
    }
}

/// Matrix element of an operator between two vectors.
pub fn matrix_element<O: LinearOperator>(
    left: &Vec<O::Value>,
    operator: &O,
    right: &Vec<O::Value>,
) -> (result: Result<O::Value>)
    requires
        operator.wf(),
    ensures
        result == element_between(left@, *operator, right@),
{
    let (rows, columns) = operator.shape();
    if left.len() != rows || right.len() != columns {
        return Err(
            QmbedError::DimensionMismatch(Reason::Text("matrix-element vectors do not match the operator shape")),
        );
    }
    match operator.apply(right) {
        Ok(image) => {
            proof {
                operator.images_fit(right@);
            }
            Ok(dotc(left, &image))
        },
        Err(error) => Err(error),
    }
}

/// Expectation of an operator in a state.
pub fn expectation<O: LinearOperator>(operator: &O, state: &Vec<O::Value>) -> (result: Result<
    O::Value,
>)
    requires
        operator.wf(),
    ensures
        result == element_between(state@, *operator, state@),
{
    matrix_element(state, operator, state)
}

/// Variance of an operator in a state that need not be normalized.
pub open spec fn variance_in<R: RealNumber, O: LinearOperator>(
    operator: O,
    state: Seq<O::Value>,
) -> core::result::Result<R, QmbedError> where O::Value: ComplexOver<R> {
    let norm: R = linear::inner_product(state, state).spec_real();
    if operator.spec_rows() != operator.spec_columns() || state.len() != operator.spec_rows() {
        Err(
            QmbedError::DimensionMismatch(
                Reason::Text("quantum fluctuation requires a square operator matching the state"),
            ),
        )
    } else if !ensemble::sound(norm) {
        Err(QmbedError::InvalidOptions(Reason::Text("state must have positive finite norm")))
    } else {
        match operator.spec_apply(state) {
            Err(error) => Err(error),
            Ok(image) => {
                let mean = linear::inner_product(state, image).spec_divided(norm);
                let second: R = linear::inner_product(image, image).spec_real();
                Ok(
                    statistics::floored(
                        second.spec_over(norm).spec_minus(mean.spec_weight()),
                    ),
                )
            },
        }
    }
}

/// Variance of an operator in a state.
pub fn quantum_fluctuation<R: RealNumber, O: LinearOperator>(
    operator: &O,
    state: &Vec<O::Value>,
) -> (result: Result<R>) where O::Value: ComplexOver<R>
    requires
        operator.wf(),
    ensures
        result == variance_in::<R, O>(*operator, state@),
{
    let (rows, columns) = operator.shape();
    if rows != columns || state.len() != rows {
        return Err(
            QmbedError::DimensionMismatch(
                Reason::Text("quantum fluctuation requires a square operator matching the state"),
            ),
        );
    }
    let norm: R = dotc(state, state).real_number();
    if !norm.is_finite() || norm.is_negligible() {
        return Err(QmbedError::InvalidOptions(Reason::Text("state must have positive finite norm")));
    }
    match operator.apply(state) {
        Ok(image) => {
            proof {
                operator.images_fit(state@);
            }
            let mean: O::Value = dotc(state, &image).divided(norm);
            let second: R = dotc(&image, &image).real_number();
            Ok(statistics::floor_at_zero(second.over(norm).minus(mean.weight())))
        },
        Err(error) => Err(error),
    }
}

/// The difference of the mean square and the square of the mean, without normalization.
pub open spec fn raw_fluctuation<O: LinearOperator>(operator: O, state: Seq<O::Value>) -> core::result::Result<
    O::Value,
    QmbedError,
> where O::Value: Normed {
    if operator.spec_rows() != operator.spec_columns() || state.len() != operator.spec_rows() {
        Err(
            QmbedError::DimensionMismatch(
                Reason::Text("raw quantum fluctuation requires a square operator matching the state"),
            ),
        )
    } else {
        match operator.spec_apply(state) {
            Err(error) => Err(error),
            Ok(once) => match operator.spec_apply(once) {
                Err(error) => Err(error),
                Ok(twice) => {
                    let mean = linear::inner_product(state, once);
                    Ok(linear::inner_product(state, twice).spec_minus(mean.spec_times(mean)))
                },
            },
        }
    }
}

/// The difference of the mean square and the square of the mean, without normalization.
pub fn raw_quantum_fluctuation<O: LinearOperator>(operator: &O, state: &Vec<O::Value>) -> (result: Result<
    O::Value,
>) where O::Value: Normed
    requires
        operator.wf(),
    ensures
        result == raw_fluctuation(*operator, state@),
{
    let (rows, columns) = operator.shape();
    if rows != columns || state.len() != rows {
        return Err(
            QmbedError::DimensionMismatch(
                Reason::Text("raw quantum fluctuation requires a square operator matching the state"),
            ),
        );
    }
    let once: Vec<O::Value> = match operator.apply(state) {
        Ok(once) => once,
        Err(error) => {
            return Err(error);
        },
    };
    proof {
        operator.images_fit(state@);
        operator.images_fit(once@);
    }
    match operator.apply(&once) {
        Ok(twice) => {
            let mean: O::Value = dotc(state, &once);
            Ok(dotc(state, &twice).minus(&mean.times(&mean)))
        },
        Err(error) => Err(error),
    }
}

/// A column of a matrix in row order.
pub open spec fn column_of<S>(matrix: Seq<S>, dimension: nat, column: int) -> Seq<S> {
    Seq::new(dimension, |row: int| matrix[row * dimension + column])
}

/// Sum of the first diagonal elements of an operator after a matrix, the operator taken once
/// or twice.
pub open spec fn operator_trace<O: LinearOperator>(
    operator: O,
    density: Seq<O::Value>,
    dimension: nat,
    twice: bool,
    count: nat,
) -> core::result::Result<O::Value, QmbedError>
    decreases count,
{
    if count == 0 {
        Ok(<O::Value as Scalar>::spec_zero())
    } else {
        match operator_trace(operator, density, dimension, twice, (count - 1) as nat) {
            Err(error) => Err(error),
            Ok(before) => match operator.spec_apply(column_of(density, dimension, count - 1)) {
                Err(error) => Err(error),
                Ok(once) => if twice {
                    match operator.spec_apply(once) {
                        Err(error) => Err(error),
                        Ok(again) => Ok(before.spec_plus(again[count - 1])),
                    }
                } else {
                    Ok(before.spec_plus(once[count - 1]))
                },
            },
        }
    }
}

proof fn lemma_trace_fails<O: LinearOperator>(
    operator: O,
    density: Seq<O::Value>,
    dimension: nat,
    twice: bool,
    count: nat,
    later: nat,
)
    requires
        count <= later,
        operator_trace(operator, density, dimension, twice, count) is Err,
    ensures
        operator_trace(operator, density, dimension, twice, later) == operator_trace(
            operator,
            density,
            dimension,
            twice,
            count,
        ),
    decreases later,
{
    if count < later {
        lemma_trace_fails(operator, density, dimension, twice, count, (later - 1) as nat);
    }
}

proof fn lemma_place(row: int, column: int, size: int)
    requires
        0 <= row < size,
        0 <= column < size,
    ensures
        0 <= row * size <= row * size + column < size * size,
{
    assert(0 <= row * size) by (nonlinear_arith)
        requires
            0 <= row,
            0 <= size,
    ;
    assert(row * size + column < size * size) by (nonlinear_arith)
        requires
            0 <= row < size,
            0 <= column < size,
    ;
}

fn take_column<S: Scalar>(matrix: &Vec<S>, dimension: usize, column: usize) -> (list: Vec<S>)
    requires
        matrix@.len() == dimension * dimension,
        column < dimension,
    ensures
        list@ == column_of(matrix@, dimension as nat, column as int),
{
    let given: usize = matrix.len();
    let mut list: Vec<S> = Vec::new();
    let mut row: usize = 0;
    while row < dimension
        invariant
            row <= dimension,
            column < dimension,
            given == matrix@.len(),
            given == dimension * dimension,
            list@ == column_of(matrix@, dimension as nat, column as int).take(row as int),
        decreases dimension - row,
    {
        proof {
            lemma_place(row as int, column as int, dimension as int);
        }
        list.push(matrix[row * dimension + column]);
        row += 1;
        assert(list@ =~= column_of(matrix@, dimension as nat, column as int).take(row as int));
    }
    assert(list@ =~= column_of(matrix@, dimension as nat, column as int));
    list
}

fn find_operator_trace<O: LinearOperator>(
    operator: &O,
    density: &Vec<O::Value>,
    dimension: usize,
    twice: bool,
) -> (result: Result<O::Value>)
    requires
        operator.wf(),
        operator.spec_rows() == dimension,
        operator.spec_columns() == dimension,
        density@.len() == dimension * dimension,
    ensures
        result == operator_trace(
            *operator,
            density@,
            dimension as nat,
            twice,
            dimension as nat,
        ),
{
    let mut sum: O::Value = <O::Value as Scalar>::zero();
    let mut column: usize = 0;
    while column < dimension
        invariant
            column <= dimension,
            operator.wf(),
            operator.spec_rows() == dimension,
            operator.spec_columns() == dimension,
            density@.len() == dimension * dimension,
            operator_trace(*operator, density@, dimension as nat, twice, column as nat) == Ok::<
                O::Value,
                QmbedError,
            >(sum),
        decreases dimension - column,
    {
        let input: Vec<O::Value> = take_column(density, dimension, column);
        let once: Vec<O::Value> = match operator.apply(&input) {
            Ok(once) => once,
            Err(error) => {
                proof {
                    lemma_trace_fails(
                        *operator,
                        density@,
                        dimension as nat,
                        twice,
                        (column + 1) as nat,
                        dimension as nat,
                    );
                }
                return Err(error);
            },
        };
        proof {
            operator.images_fit(input@);
            operator.images_fit(once@);
        }
        if twice {
            match operator.apply(&once) {
                Ok(again) => {
                    sum = sum.plus(&again[column]);
                },
                Err(error) => {
                    proof {
                        lemma_trace_fails(
                            *operator,
                            density@,
                            dimension as nat,
                            twice,
                            (column + 1) as nat,
                            dimension as nat,
                        );
                    }
                    return Err(error);
                },
            }
        } else {
            sum = sum.plus(&once[column]);
        }
        column += 1;
    }
    Ok(sum)
}

/// Expectation of an operator in a mixed state.
pub open spec fn mixed_expectation<O: LinearOperator>(operator: O, density: Seq<O::Value>) -> core::result::Result<
    O::Value,
    QmbedError,
> {
    let dimension = operator.spec_rows() as nat;
    if operator.spec_rows() != operator.spec_columns() || density.len() != dimension * dimension {
        Err(
            QmbedError::DimensionMismatch(
                Reason::Text("density expectation requires a square operator and matching density"),
            ),
        )
    } else {
        operator_trace(operator, density, dimension, false, dimension)
    }
}

/// Expectation of an operator in a mixed state.
pub fn density_expectation<O: LinearOperator>(operator: &O, density: &Vec<O::Value>) -> (result: Result<
    O::Value,
>)
    requires
        operator.wf(),
    ensures
        result == mixed_expectation(*operator, density@),
{
    let (rows, columns) = operator.shape();
    if rows != columns || !fills_square(density, rows) {
        return Err(
            QmbedError::DimensionMismatch(
                Reason::Text("density expectation requires a square operator and matching density"),
            ),
        );
    }
    find_operator_trace(operator, density, rows, false)
}

/// Fluctuation of an operator in a mixed state, without normalization.
pub open spec fn mixed_fluctuation<O: LinearOperator>(operator: O, density: Seq<O::Value>) -> core::result::Result<
    O::Value,
    QmbedError,
> where O::Value: Normed {
    let dimension = operator.spec_rows() as nat;
    if operator.spec_rows() != operator.spec_columns() || density.len() != dimension * dimension {
        Err(
            QmbedError::DimensionMismatch(
                Reason::Text("density fluctuation requires a square operator and matching density"),
            ),
        )
    } else {
        match mixed_expectation(operator, density) {
            Err(error) => Err(error),
            Ok(mean) => match operator_trace(operator, density, dimension, true, dimension) {
                Err(error) => Err(error),
                Ok(second) => Ok(second.spec_minus(mean.spec_times(mean))),
            },
        }
    }
}

/// Fluctuation of an operator in a mixed state, without normalization.
pub fn density_quantum_fluctuation<O: LinearOperator>(operator: &O, density: &Vec<O::Value>) -> (result: Result<
    O::Value,
>) where O::Value: Normed
    requires
        operator.wf(),
    ensures
        result == mixed_fluctuation(*operator, density@),
{
    let (rows, columns) = operator.shape();
    if rows != columns || !fills_square(density, rows) {
        return Err(
            QmbedError::DimensionMismatch(
                Reason::Text("density fluctuation requires a square operator and matching density"),
            ),
        );
    }
    let mean: O::Value = match density_expectation(operator, density) {
        Ok(mean) => mean,
        Err(error) => {
            return Err(error);
        },
    };
    match find_operator_trace(operator, density, rows, true) {
        Ok(second) => Ok(second.minus(&mean.times(&mean))),
        Err(error) => Err(error),
    }
}

/// Expectation of an observable over the first vectors of an ensemble.
pub open spec fn ensemble_expectation<R: RealNumber, O: LinearOperator>(
    probabilities: Seq<R>,
    eigenvectors: Seq<Seq<O::Value>>,
    observable: O,
    count: nat,
) -> core::result::Result<O::Value, QmbedError> where O::Value: ComplexOver<R>
    decreases count,
{
    if count == 0 {
        Ok(<O::Value as Scalar>::spec_zero())
    } else {
        match ensemble_expectation(probabilities, eigenvectors, observable, (count - 1) as nat) {
            Err(error) => Err(error),
            Ok(before) => match element_between(
                eigenvectors[count - 1],
                observable,
                eigenvectors[count - 1],
            ) {
                Err(error) => Err(error),
                Ok(value) => Ok(
                    before.spec_plus(
                        <O::Value as ComplexOver<R>>::spec_from_number(
                            probabilities[count - 1],
                        ).spec_times(value),
                    ),
                ),
            },
        }
    }
}

proof fn lemma_ensemble_fails<R: RealNumber, O: LinearOperator>(
    probabilities: Seq<R>,
    eigenvectors: Seq<Seq<O::Value>>,
    observable: O,
    count: nat,
    later: nat,
) where O::Value: ComplexOver<R>
    requires
        count <= later,
        ensemble_expectation(probabilities, eigenvectors, observable, count) is Err,
    ensures
        ensemble_expectation(probabilities, eigenvectors, observable, later)
            == ensemble_expectation(probabilities, eigenvectors, observable, count),
    decreases later,
{
    if count < later {
        lemma_ensemble_fails(probabilities, eigenvectors, observable, count, (later - 1) as nat);
    }
}

/// Expectation of an observable in a diagonal ensemble.
pub fn diagonal_ensemble_observable<R: RealNumber, O: LinearOperator>(
    probabilities: &Vec<R>,
    eigenvectors: &Vec<Vec<O::Value>>,
    observable: &O,
) -> (result: Result<O::Value>) where O::Value: ComplexOver<R>
    requires
        observable.wf(),
    ensures
        result == (if probabilities@.len() != eigenvectors@.len() || (eigenvectors@.len() > 0 && (
        observable.spec_rows() != observable.spec_columns() || !ensemble::all_of_length(
            ensemble::vectors(eigenvectors@),
            observable.spec_rows() as nat,
        ))) {
            Err(
                QmbedError::DimensionMismatch(
                    Reason::Text("diagonal ensemble, eigenvectors, and observable do not match"),
                ),
            )
        } else {
            ensemble_expectation(
                probabilities@,
                ensemble::vectors(eigenvectors@),
                *observable,
                eigenvectors@.len(),
            )
        }),
{
    let ghost given = ensemble::vectors(eigenvectors@);
    let (rows, columns) = observable.shape();
    if probabilities.len() != eigenvectors.len() || (eigenvectors.len() > 0 && (rows != columns
        || !ensemble::check_lengths(eigenvectors, rows))) {
        return Err(
            QmbedError::DimensionMismatch(
                Reason::Text("diagonal ensemble, eigenvectors, and observable do not match"),
            ),
        );
    }
    let mut sum: O::Value = <O::Value as Scalar>::zero();
    let mut next: usize = 0;
    while next < eigenvectors.len()
        invariant
            next <= eigenvectors@.len(),
            observable.wf(),
            given == ensemble::vectors(eigenvectors@),
            probabilities@.len() == eigenvectors@.len(),
            eigenvectors@.len() > 0 ==> observable.spec_rows() == observable.spec_columns()
                && ensemble::all_of_length(given, observable.spec_rows() as nat),
            ensemble_expectation(probabilities@, given, *observable, next as nat) == Ok::<
                O::Value,
                QmbedError,
            >(sum),
        decreases eigenvectors@.len() - next,
    {
        match expectation(observable, &eigenvectors[next]) {
            Ok(value) => {
                sum = sum.plus(
                    &<O::Value as ComplexOver<R>>::from_number(probabilities[next]).times(&value),
                );
            },
            Err(error) => {
                proof {
                    lemma_ensemble_fails(
                        probabilities@,
                        given,
                        *observable,
                        (next + 1) as nat,
                        given.len(),
                    );
                }
                return Err(error);
            },
        }
        next += 1;
    }
    Ok(sum)
}

/// A column of an operator taken through a projector: `P† A P`, or `P A P†` where the
/// operator acts on the reduced space.
pub open spec fn carried_column<O: LinearOperator>(
    operator: O,
    model: OperatorModel<O::Value>,
    column: nat,
) -> core::result::Result<Seq<O::Value>, QmbedError> {
    if operator.spec_rows() == model.columns {
        match operator.spec_apply(
            linear::entries_apply_adjoint(
                model.entries,
                linear::unit(model.rows as nat, column),
                model.columns as nat,
            ),
        ) {
            Err(error) => Err(error),
            Ok(image) => Ok(linear::entries_apply(model.entries, image, model.rows as nat)),
        }
    } else {
        match operator.spec_apply(
            linear::entries_apply(
                model.entries,
                linear::unit(model.columns as nat, column),
                model.rows as nat,
            ),
        ) {
            Err(error) => Err(error),
            Ok(image) => Ok(
                linear::entries_apply_adjoint(model.entries, image, model.columns as nat),
            ),
        }
    }
}

/// Entries of the first columns of an operator taken through a projector.
pub open spec fn carried_entries<O: LinearOperator>(
    operator: O,
    model: OperatorModel<O::Value>,
    size: nat,
    count: nat,
) -> core::result::Result<Seq<(usize, usize, O::Value)>, QmbedError>
    decreases count,
{
    if count == 0 {
        Ok(Seq::empty())
    } else {
        match carried_entries(operator, model, size, (count - 1) as nat) {
            Err(error) => Err(error),
            Ok(before) => match carried_column(operator, model, (count - 1) as nat) {
                Err(error) => Err(error),
                Ok(output) => Ok(
                    before + linear::column_entries((count - 1) as usize, output, size),
                ),
            },
        }
    }
}

/// An operator taken through a projector, or what keeps it from existing.
pub open spec fn carried<O: LinearOperator>(
    operator: O,
    model: OperatorModel<O::Value>,
    format: MatrixFormat,
) -> core::result::Result<OperatorModel<O::Value>, QmbedError> {
    if operator.spec_rows() != operator.spec_columns() || (operator.spec_rows() != model.rows
        && operator.spec_rows() != model.columns) {
        Err(
            QmbedError::DimensionMismatch(
                Reason::Text("operator dimension must match the parent or reduced projector space"),
            ),
        )
    } else {
        let size = if operator.spec_rows() == model.columns {
            model.rows
        } else {
            model.columns
        };
        match carried_entries(operator, model, size as nat, size as nat) {
            Err(error) => Err(error),
            Ok(entries) => Ok(OperatorModel { rows: size, columns: size, entries, format }),
        }
    }
}

proof fn lemma_carrying_fails<O: LinearOperator>(
    operator: O,
    model: OperatorModel<O::Value>,
    size: nat,
    count: nat,
    later: nat,
)
    requires
        count <= later,
        carried_entries(operator, model, size, count) is Err,
    ensures
        carried_entries(operator, model, size, later) == carried_entries(
            operator,
            model,
            size,
            count,
        ),
    decreases later,
{
    if count < later {
        lemma_carrying_fails(operator, model, size, count, (later - 1) as nat);
    }
}

fn carry_column<S: Scalar, O: LinearOperator<Value = S>>(
    operator: &O,
    projector: &BasisProjector<S>,
    column: usize,
    lifting: bool,
) -> (result: Result<Vec<S>>)
    requires
        operator.wf(),
        projector.valid(),
        operator.spec_rows() == operator.spec_columns(),
        lifting == (operator.spec_rows() == projector@.columns),
        lifting || operator.spec_rows() == projector@.rows,
        column < (if lifting {
            projector@.rows
        } else {
            projector@.columns
        }),
    ensures
        linear::vector_is(result, carried_column(*operator, projector@, column as nat)),
        result matches Ok(output) ==> output@.len() == (if lifting {
            projector@.rows
        } else {
            projector@.columns
        }),
{
    let ghost model = projector@;
    let (rows, width) = projector.shape();
    let input: Vec<S> = unit_vector(
        if lifting {
            rows
        } else {
            width
        },
        column,
    );
    proof {
        projector.images_fit(input@);
    }
    let inner: Result<Vec<S>> = if lifting {
        projector.apply_adjoint(&input)
    } else {
        projector.apply(&input)
    };
    let inner: Vec<S> = match inner {
        Ok(inner) => inner,
        Err(error) => {
            return Err(error);
        },
    };
    proof {
        operator.images_fit(inner@);
    }
    let image: Vec<S> = match operator.apply(&inner) {
        Ok(image) => image,
        Err(error) => {
            return Err(error);
        },
    };
    proof {
        projector.images_fit(image@);
    }
    if lifting {
        projector.apply(&image)
    } else {
        projector.apply_adjoint(&image)
    }
}

/// `P† A P` one reduced column at a time, or `P A P†` where the operator acts on the reduced
/// space.
pub fn project_operator<S: Scalar, O: LinearOperator<Value = S>>(
    operator: &O,
    projector: &BasisProjector<S>,
    format: MatrixFormat,
) -> (result: Result<Operator<S>>)
    requires
        operator.wf(),
        projector.valid(),
    ensures
        match (result, carried(*operator, projector@, format)) {
            (Ok(found), Ok(model)) => found.valid() && found@ == model,
            (Err(error), Err(stated)) => error == stated,
            _ => false,
        },
{
    let ghost model = projector@;
    let (rows, columns) = operator.shape();
    let (source, reduced) = projector.shape();
    if rows != columns || (rows != source && rows != reduced) {
        return Err(
            QmbedError::DimensionMismatch(
                Reason::Text("operator dimension must match the parent or reduced projector space"),
            ),
        );
    }
    let lifting: bool = rows == reduced;
    let size: usize = if lifting {
        source
    } else {
        reduced
    };
    let mut entries: Vec<(usize, usize, S)> = Vec::new();
    let mut column: usize = 0;
    while column < size
        invariant
            column <= size,
            operator.wf(),
            projector.valid(),
            model == projector@,
            operator.spec_rows() == operator.spec_columns(),
            lifting == (operator.spec_rows() == model.columns),
            lifting || operator.spec_rows() == model.rows,
            size == (if lifting {
                model.rows
            } else {
                model.columns
            }),
            linear::entries_fit(entries@, size, size),
            carried_entries(*operator, model, size as nat, column as nat) == Ok::<
                Seq<(usize, usize, S)>,
                QmbedError,
            >(entries@),
        decreases size - column,
    {
        let ghost before = entries@;
        let output: Vec<S> = match carry_column(operator, projector, column, lifting) {
            Ok(output) => output,
            Err(error) => {
                proof {
                    lemma_carrying_fails(
                        *operator,
                        model,
                        size as nat,
                        (column + 1) as nat,
                        size as nat,
                    );
                }
                return Err(error);
            },
        };
        let mut row: usize = 0;
        assert(before + linear::column_entries::<S>(column, output@, 0) =~= before);
        while row < size
            invariant
                row <= size,
                column < size,
                output@.len() == size,
                linear::entries_fit(entries@, size, size),
                entries@ == before + linear::column_entries(column, output@, row as nat),
            decreases size - row,
        {
            let value: S = output[row];
            if !value.is_negligible() {
                entries.push((row, column, value));
                assert(entries@ =~= before + linear::column_entries(
                    column,
                    output@,
                    (row + 1) as nat,
                ));
            }
            row += 1;
        }
        column += 1;
    }
    match Operator::from_triplets(size, size, entries, format) {
        Ok(found) => Ok(found),
        Err(error) => {
            assert(false);
            Err(error)
        },
    }
}

/// A finite-dimensional subspace, given by orthonormal columns.
pub struct Subspace<S> {
    ambient_dimension: usize,
    columns: Vec<Vec<S>>,
}

/// A column of a matrix in column order.
pub open spec fn stored_column<S>(values: Seq<S>, length: nat, column: int) -> Seq<S> {
    values.subrange(column * length, (column + 1) * length)
}

/// Orthonormal columns from the first columns of a matrix.
pub open spec fn orthonormal_columns<S: Normed>(
    values: Seq<S>,
    length: nat,
    tolerance: S::Size,
    count: nat,
) -> Option<Seq<Seq<S>>>
    decreases count,
{
    if count == 0 {
        Some(Seq::empty())
    } else {
        match orthonormal_columns(values, length, tolerance, (count - 1) as nat) {
            None => None,
            Some(before) => {
                let rest = matrix_subspace::orthogonalized(
                    stored_column(values, length, count - 1),
                    before,
                    before.len(),
                );
                if S::spec_within(S::spec_norm(rest), tolerance) {
                    None
                } else {
                    Some(before.push(matrix_subspace::divided(rest, S::spec_norm(rest))))
                }
            },
        }
    }
}

proof fn lemma_deficient<S: Normed>(
    values: Seq<S>,
    length: nat,
    tolerance: S::Size,
    count: nat,
    later: nat,
)
    requires
        count <= later,
        orthonormal_columns(values, length, tolerance, count) is None,
    ensures
        orthonormal_columns(values, length, tolerance, later) is None,
    decreases later,
{
    if count < later {
        lemma_deficient(values, length, tolerance, count, (later - 1) as nat);
    }
}

impl<S: Normed> Subspace<S> {
    pub closed spec fn spec_ambient(&self) -> usize {
        self.ambient_dimension
    }

    pub closed spec fn spec_columns(&self) -> Seq<Seq<S>> {
        matrix_subspace::vectors(self.columns@)
    }

    /// Columns of the length of the space.
    pub open spec fn valid(&self) -> bool {
        ensemble::all_of_length(self.spec_columns(), self.spec_ambient() as nat)
    }

    /// The space that the columns of a matrix span; columns that depend on earlier ones
    /// within the tolerance are refused.
    pub fn from_columns(
        ambient_dimension: usize,
        rank: usize,
        column_major_vectors: &Vec<S>,
        tolerance: S::Size,
    ) -> (result: Result<Self>)
        ensures
            match result {
                Ok(space) => {
                    &&& ambient_dimension > 0 && rank > 0
                    &&& column_major_vectors@.len() == ambient_dimension * rank
                    &&& space.valid()
                    &&& space.spec_ambient() == ambient_dimension
                    &&& space.spec_columns().len() == rank
                    &&& orthonormal_columns(
                        column_major_vectors@,
                        ambient_dimension as nat,
                        tolerance,
                        rank as nat,
                    ) == Some(space.spec_columns())
                },
                Err(error) => if ambient_dimension == 0 || rank == 0
                    || column_major_vectors@.len() != ambient_dimension * rank {
                    error == QmbedError::DimensionMismatch(
                        Reason::Text("subspace storage must contain ambient_dimension * rank entries"),
                    )
                } else {
                    &&& error == QmbedError::RankDeficient
                    &&& orthonormal_columns(
                        column_major_vectors@,
                        ambient_dimension as nat,
                        tolerance,
                        rank as nat,
                    ) is None
                },
            },
    {
        let given: usize = column_major_vectors.len();
        let fits: bool = match ambient_dimension.checked_mul(rank) {
            Some(size) => given == size,
            None => false,
        };
        if ambient_dimension == 0 || rank == 0 || !fits {
            return Err(
                QmbedError::DimensionMismatch(
                    Reason::Text("subspace storage must contain ambient_dimension * rank entries"),
                ),
            );
        }
        let ghost values = column_major_vectors@;
        let length: usize = ambient_dimension;
        let mut columns: Vec<Vec<S>> = Vec::new();
        assert(matrix_subspace::vectors(columns@) =~= Seq::empty());
        let mut column: usize = 0;
        while column < rank
            invariant
                column <= rank,
                rank > 0,
                length > 0,
                length == ambient_dimension,
                values == column_major_vectors@,
                given == values.len(),
                given == length * rank,
                columns@.len() == column,
                forall|i: int|
                    0 <= i < columns@.len() ==> (#[trigger] columns@[i])@.len() == length,
                orthonormal_columns(values, length as nat, tolerance, column as nat) == Some(
                    matrix_subspace::vectors(columns@),
                ),
            decreases rank - column,
        {
            proof {
                assert((column + 1) * length <= length * rank) by (nonlinear_arith)
                    requires
                        column + 1 <= rank,
                        length > 0,
                ;
                assert(column * length + length == (column + 1) * length) by (nonlinear_arith);
                assert(0 <= column * length) by (nonlinear_arith)
                    requires
                        column >= 0,
                        length >= 0,
                ;
            }
            let start: usize = column * length;
            let ghost stated = stored_column(values, length as nat, column as int);
            let mut vector: Vec<S> = Vec::new();
            let mut next: usize = 0;
            while next < length
                invariant
                    next <= length,
                    start == column * length,
                    start + length == (column + 1) * length,
                    start + length <= given,
                    values == column_major_vectors@,
                    given == values.len(),
                    stated == stored_column(values, length as nat, column as int),
                    stated.len() == length,
                    vector@ == stated.take(next as int),
                decreases length - next,
            {
                vector.push(column_major_vectors[start + next]);
                next += 1;
                assert(vector@ =~= stated.take(next as int));
            }
            assert(vector@ =~= stated);
            let rest: Vec<S> = orthogonalize(vector, &columns);
            let norm: S::Size = S::norm(&rest);
            if S::within(norm, tolerance) {
                proof {
                    lemma_deficient(
                        values,
                        length as nat,
                        tolerance,
                        (column + 1) as nat,
                        rank as nat,
                    );
                }
                return Err(QmbedError::RankDeficient);
            }
            let ghost unit = matrix_subspace::divided(rest@, norm);
            let mut entries: Vec<S> = Vec::new();
            let mut next: usize = 0;
            while next < rest.len()
                invariant
                    next <= rest@.len(),
                    unit == matrix_subspace::divided(rest@, norm),
                    entries@ == unit.take(next as int),
                decreases rest@.len() - next,
            {
                entries.push(rest[next].over(norm));
                next += 1;
                assert(entries@ =~= unit.take(next as int));
            }
            assert(entries@ =~= unit);
            let ghost before = matrix_subspace::vectors(columns@);
            columns.push(entries);
            column += 1;
            assert(matrix_subspace::vectors(columns@) =~= before.push(unit));
        }
        let space: Self = Subspace { ambient_dimension, columns };
        proof {
            assert forall|i: int| 0 <= i < space.spec_columns().len() implies (
            #[trigger] space.spec_columns()[i]).len() == ambient_dimension by {
                assert(space.columns@[i]@.len() == length);
            }
        }
        Ok(space)
    }

    pub fn ambient_dimension(&self) -> (dimension: usize)
        ensures
            dimension == self.spec_ambient(),
    {
        self.ambient_dimension
    }

    pub fn rank(&self) -> (rank: usize)
        ensures
            rank == self.spec_columns().len(),
    {
        self.columns.len()
    }

    pub fn columns(&self) -> (columns: &Vec<Vec<S>>)
        ensures
            matrix_subspace::vectors(columns@) == self.spec_columns(),
    {
        &self.columns
    }
}

/// Sum of the squared overlaps of a vector with the first columns of a space, added to what
/// is already there.
pub open spec fn overlap_row<R: RealNumber, S: ComplexOver<R>>(
    start: R,
    vector: Seq<S>,
    columns: Seq<Seq<S>>,
    count: nat,
) -> R
    decreases count,
{
    if count == 0 {
        start
    } else {
        overlap_row(start, vector, columns, (count - 1) as nat).spec_plus(
            linear::inner_product(vector, columns[count - 1]).spec_weight(),
        )
    }
}

/// Sum of the squared overlaps of the first columns of a space with another.
pub open spec fn overlap_sum<R: RealNumber, S: ComplexOver<R>>(
    left: Seq<Seq<S>>,
    right: Seq<Seq<S>>,
    count: nat,
) -> R
    decreases count,
{
    if count == 0 {
        R::spec_zero()
    } else {
        overlap_row(
            overlap_sum(left, right, (count - 1) as nat),
            left[count - 1],
            right,
            right.len(),
        )
    }
}

/// A number between zero and one.
pub open spec fn clamped<R: RealNumber>(value: R) -> R {
    if !R::spec_zero().spec_at_most(value) {
        R::spec_zero()
    } else if !value.spec_at_most(R::spec_one()) {
        R::spec_one()
    } else {
        value
    }
}

/// Mean squared cosine of the principal angles between the spaces of two lists of columns.
pub open spec fn mean_squared_cosine<R: RealNumber, S: ComplexOver<R>>(
    left: Seq<Seq<S>>,
    right: Seq<Seq<S>>,
) -> R {
    clamped(
        overlap_sum::<R, S>(left, right, left.len()).spec_over(
            R::spec_count(
                (if left.len() <= right.len() {
                    left.len()
                } else {
                    right.len()
                }) as usize,
            ),
        ),
    )
}

/// Mean squared cosine of the principal angles between two subspaces.
pub fn subspace_fidelity<R: RealNumber, S: Normed + ComplexOver<R>>(
    left: &Subspace<S>,
    right: &Subspace<S>,
) -> (result: Result<R>)
    requires
        left.valid(),
        right.valid(),
    ensures
        result == (if left.spec_ambient() != right.spec_ambient() {
            Err::<R, QmbedError>(
                QmbedError::DimensionMismatch(Reason::Text("subspaces must share an ambient dimension")),
            )
        } else if left.spec_columns().len() == 0 || right.spec_columns().len() == 0 {
            Err::<R, QmbedError>(QmbedError::RankDeficient)
        } else {
            Ok::<R, QmbedError>(
                mean_squared_cosine::<R, S>(left.spec_columns(), right.spec_columns()),
            )
        }),
{
    if left.ambient_dimension() != right.ambient_dimension() {
        return Err(QmbedError::DimensionMismatch(Reason::Text("subspaces must share an ambient dimension")));
    }
    let smaller: usize = if left.rank() <= right.rank() {
        left.rank()
    } else {
        right.rank()
    };
    if smaller == 0 {
        return Err(QmbedError::RankDeficient);
    }
    let ghost a = left.spec_columns();
    let ghost b = right.spec_columns();
    let mut sum: R = R::zero();
    let mut row: usize = 0;
    while row < left.columns.len()
        invariant
            row <= left.columns@.len(),
            left.valid(),
            right.valid(),
            left.spec_ambient() == right.spec_ambient(),
            a == left.spec_columns(),
            b == right.spec_columns(),
            a == matrix_subspace::vectors(left.columns@),
            b == matrix_subspace::vectors(right.columns@),
            sum == overlap_sum::<R, S>(a, b, row as nat),
        decreases left.columns@.len() - row,
    {
        let ghost start = sum;
        let mut column: usize = 0;
        while column < right.columns.len()
            invariant
                row < left.columns@.len(),
                column <= right.columns@.len(),
                left.valid(),
                right.valid(),
                left.spec_ambient() == right.spec_ambient(),
                a == left.spec_columns(),
                b == right.spec_columns(),
                a == matrix_subspace::vectors(left.columns@),
                b == matrix_subspace::vectors(right.columns@),
                sum == overlap_row::<R, S>(start, a[row as int], b, column as nat),
            decreases right.columns@.len() - column,
        {
            proof {
                assert(a[row as int].len() == left.spec_ambient());
                assert(b[column as int].len() == left.spec_ambient());
            }
            sum = sum.plus(dotc(&left.columns[row], &right.columns[column]).weight());
            column += 1;
        }
        row += 1;
    }
    let ratio: R = sum.over(R::count(smaller));
    if !R::zero().at_most(ratio) {
        Ok(R::zero())
    } else if !ratio.at_most(R::one()) {
        Ok(R::one())
    } else {
        Ok(ratio)
    }
}

} // verus!

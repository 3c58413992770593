//! What projectors do to operators, densities and vectors.

use vstd::prelude::*;

use crate::additivity;
use crate::error::QmbedError;
use crate::exact;
use crate::exact::ExactScalar;
use crate::isometry;
use crate::linear;
use crate::linear::{LinearOperator, MatrixFormat, OperatorModel, Scalar};
use crate::matrix_subspace::Normed;
use crate::observables::{carried, carried_column, carried_entries, element_between};
use crate::partial_traces;
use crate::projector::{outside, spread, spread_left, spread_right};
use crate::sums;
use crate::sums::total_of;

verus! {

/// Whether only zero counts as negligible.
pub open spec fn only_zero_is_negligible<S: Scalar>() -> bool {
    forall|value: S| #[trigger] value.spec_is_negligible() ==> value == S::spec_zero()
}

proof fn lemma_inner_with_unit<S: ExactScalar>(vector: Seq<S>, place: nat)
    requires
        place < vector.len(),
    ensures
        linear::inner_product(linear::unit::<S>(vector.len(), place), vector)
            == vector[place as int],
{
    let unit = linear::unit::<S>(vector.len(), place);
    sums::lemma_inner_product(unit, vector);
    let term = |i: int| unit[i].spec_conjugate().spec_times(vector[i]);
    assert forall|i: int| 0 <= i < vector.len() && i != place implies #[trigger] term(i)
        == S::spec_zero() by {
        S::conjugation_is_linear(S::spec_zero(), S::spec_zero());
        S::zero_is_neutral(vector[i]);
    }
    sums::lemma_single(term, place as int, vector.len());
    S::one_is_neutral(vector[place as int]);
}

proof fn lemma_inner_turned<S: ExactScalar>(left: Seq<S>, right: Seq<S>)
    requires
        left.len() == right.len(),
    ensures
        linear::inner_product(left, right).spec_conjugate() == linear::inner_product(right, left),
{
    let n = left.len();
    let term = |i: int| left[i].spec_conjugate().spec_times(right[i]);
    let turned = |i: int| right[i].spec_conjugate().spec_times(left[i]);
    sums::lemma_inner_product(left, right);
    sums::lemma_inner_product(right, left);
    sums::lemma_conjugated(term, n);
    let conjugated = |i: int| term(i).spec_conjugate();
    assert forall|i: int| 0 <= i < n implies #[trigger] conjugated(i) == turned(i) by {
        S::conjugation_is_linear(left[i].spec_conjugate(), right[i]);
        S::conjugation_is_linear(left[i], right[i]);
        S::times_commutes(left[i], right[i].spec_conjugate());
    }
    sums::lemma_alike(conjugated, turned, n);
}

proof fn lemma_column<S: ExactScalar>(
    column: usize,
    output: Seq<S>,
    from: nat,
    size: usize,
    count: nat,
)
    requires
        only_zero_is_negligible::<S>(),
        output.len() == size,
        column < size,
        count <= size,
    ensures
        ({
            let entries = linear::column_entries(column, output, count);
            let image = linear::entries_apply(entries, linear::unit::<S>(size as nat, from), size as nat);
            &&& linear::entries_fit(entries, size, size)
            &&& image.len() == size
            &&& forall|to: int|
                0 <= to < size ==> #[trigger] image[to] == if column == from && to < count {
                    output[to]
                } else {
                    S::spec_zero()
                }
        }),
    decreases count,
{
    let unit = linear::unit::<S>(size as nat, from);
    if count > 0 {
        let last = (count - 1) as nat;
        lemma_column(column, output, from, size, last);
        let before = linear::column_entries(column, output, last);
        let value = output[last as int];
        let zero = S::spec_zero();
        if !value.spec_is_negligible() {
            let entry = (last as usize, column, value);
            assert(before.push(entry).drop_last() =~= before);
            S::times_commutes(value, unit[column as int]);
            S::one_is_neutral(value);
            S::zero_is_neutral(value);
            S::plus_commutes(zero, value);
            S::zero_is_neutral(zero);
        }
    }
}

proof fn lemma_carried<O: LinearOperator>(
    operator: O,
    model: OperatorModel<O::Value>,
    size: usize,
    count: nat,
    from: nat,
) where O::Value: ExactScalar
    requires
        only_zero_is_negligible::<O::Value>(),
        count <= size,
        carried_entries(operator, model, size as nat, count) is Ok,
        forall|column: nat|
            column < size ==> match #[trigger] carried_column(operator, model, column) {
                Ok(output) => output.len() == size,
                Err(_) => true,
            },
    ensures
        ({
            let entries = carried_entries(operator, model, size as nat, count)->Ok_0;
            let image = linear::entries_apply(
                entries,
                linear::unit::<O::Value>(size as nat, from),
                size as nat,
            );
            &&& linear::entries_fit(entries, size, size)
            &&& image.len() == size
            &&& from < count ==> carried_column(operator, model, from) is Ok
            &&& forall|to: int|
                0 <= to < size ==> #[trigger] image[to] == if from < count {
                    carried_column(operator, model, from)->Ok_0[to]
                } else {
                    <O::Value as Scalar>::spec_zero()
                }
        }),
    decreases count,
{
    let unit = linear::unit::<O::Value>(size as nat, from);
    if count > 0 {
        let last = (count - 1) as nat;
        lemma_carried(operator, model, size, last, from);
        let before = carried_entries(operator, model, size as nat, last)->Ok_0;
        let output = carried_column(operator, model, last)->Ok_0;
        assert(output.len() == size);
        lemma_column(last as usize, output, from, size, size as nat);
        let more = linear::column_entries(last as usize, output, size as nat);
        additivity::lemma_joined_apply(before, more, unit, size, size);
        let entries = carried_entries(operator, model, size as nat, count)->Ok_0;
        assert(entries == before + more);
        let (x, y) = (
            linear::entries_apply(before, unit, size as nat),
            linear::entries_apply(more, unit, size as nat),
        );
        let image = linear::entries_apply(entries, unit, size as nat);
        let zero = <O::Value as Scalar>::spec_zero();
        assert forall|to: int| 0 <= to < size implies #[trigger] image[to] == if from < count {
            carried_column(operator, model, from)->Ok_0[to]
        } else {
            zero
        } by {
            assert(image[to] == x[to].spec_plus(y[to]));
            <O::Value as ExactScalar>::zero_is_neutral(x[to]);
            <O::Value as ExactScalar>::zero_is_neutral(zero);
            <O::Value as ExactScalar>::zero_is_neutral(y[to]);
            <O::Value as ExactScalar>::plus_commutes(zero, y[to]);
        }
    }
}

/// An operator that is projected keeps its elements: between two reduced states the projected
/// operator has the element that the operator has between the lifted states.
pub proof fn law_projected_operators_keep_their_elements<O: LinearOperator>(
    operator: O,
    model: OperatorModel<O::Value>,
    format: MatrixFormat,
    from: nat,
    to: nat,
) where O::Value: ExactScalar
    requires
        operator.wf(),
        only_zero_is_negligible::<O::Value>(),
        linear::entries_fit(model.entries, model.rows, model.columns),
        operator.spec_rows() == model.rows,
        model.rows != model.columns,
        from < model.columns,
        to < model.columns,
        carried(operator, model, format) is Ok,
    ensures
        ({
            let (rows, columns) = (model.rows as nat, model.columns as nat);
            let found = carried(operator, model, format)->Ok_0;
            &&& found.rows == model.columns && found.columns == model.columns
            &&& element_between(
                linear::entries_apply(model.entries, linear::unit(columns, to), rows),
                operator,
                linear::entries_apply(model.entries, linear::unit(columns, from), rows),
            ) == Ok::<O::Value, QmbedError>(
                linear::entries_apply(found.entries, linear::unit(columns, from), columns)[to as int],
            )
        }),
{
    let (rows, columns) = (model.rows as nat, model.columns as nat);
    assert forall|column: nat| column < model.columns implies match #[trigger] carried_column(
        operator,
        model,
        column,
    ) {
        Ok(output) => output.len() == model.columns,
        Err(_) => true,
    } by {
        let lifted = linear::entries_apply(
            model.entries,
            linear::unit::<O::Value>(columns, column),
            rows,
        );
        if let Ok(image) = operator.spec_apply(lifted) {
            linear::lemma_entries_apply(model.entries, image, model.rows, model.columns);
        }
    }
    lemma_carried(operator, model, model.columns, columns, from);
    let source = linear::entries_apply(
        model.entries,
        linear::unit::<O::Value>(columns, from),
        rows,
    );
    let target = linear::unit::<O::Value>(columns, to);
    linear::lemma_entries_apply(
        model.entries,
        linear::unit::<O::Value>(columns, from),
        model.rows,
        model.columns,
    );
    linear::lemma_entries_apply(model.entries, target, model.rows, model.columns);
    operator.images_fit(source);
    let image = operator.spec_apply(source)->Ok_0;
    exact::law_adjoint(model.entries, model.rows, model.columns, target, image);
    linear::lemma_entries_apply(model.entries, image, model.rows, model.columns);
    lemma_inner_with_unit(linear::entries_apply_adjoint(model.entries, image, columns), to);
}

/// An operator that is lifted keeps its elements: between two parent states the lifted operator
/// has the element that the operator has between the projected states.
pub proof fn law_lifted_operators_keep_their_elements<O: LinearOperator>(
    operator: O,
    model: OperatorModel<O::Value>,
    format: MatrixFormat,
    from: nat,
    to: nat,
) where O::Value: ExactScalar
    requires
        operator.wf(),
        only_zero_is_negligible::<O::Value>(),
        linear::entries_fit(model.entries, model.rows, model.columns),
        operator.spec_rows() == model.columns,
        from < model.rows,
        to < model.rows,
        carried(operator, model, format) is Ok,
    ensures
        ({
            let (rows, columns) = (model.rows as nat, model.columns as nat);
            let found = carried(operator, model, format)->Ok_0;
            &&& found.rows == model.rows && found.columns == model.rows
            &&& element_between(
                linear::entries_apply_adjoint(model.entries, linear::unit(rows, to), columns),
                operator,
                linear::entries_apply_adjoint(model.entries, linear::unit(rows, from), columns),
            ) == Ok::<O::Value, QmbedError>(
                linear::entries_apply(found.entries, linear::unit(rows, from), rows)[to as int],
            )
        }),
{
    let (rows, columns) = (model.rows as nat, model.columns as nat);
    assert forall|column: nat| column < model.rows implies match #[trigger] carried_column(
        operator,
        model,
        column,
    ) {
        Ok(output) => output.len() == model.rows,
        Err(_) => true,
    } by {
        let below = linear::entries_apply_adjoint(
            model.entries,
            linear::unit::<O::Value>(rows, column),
            columns,
        );
        if let Ok(image) = operator.spec_apply(below) {
            linear::lemma_entries_apply(model.entries, image, model.rows, model.columns);
        }
    }
    lemma_carried(operator, model, model.rows, rows, from);
    let source = linear::entries_apply_adjoint(
        model.entries,
        linear::unit::<O::Value>(rows, from),
        columns,
    );
    let place = linear::unit::<O::Value>(rows, to);
    let target = linear::entries_apply_adjoint(model.entries, place, columns);
    linear::lemma_entries_apply(
        model.entries,
        linear::unit::<O::Value>(rows, from),
        model.rows,
        model.columns,
    );
    linear::lemma_entries_apply(model.entries, place, model.rows, model.columns);
    operator.images_fit(source);
    let image = operator.spec_apply(source)->Ok_0;
    let above = linear::entries_apply(model.entries, image, rows);
    linear::lemma_entries_apply(model.entries, image, model.rows, model.columns);
    exact::law_adjoint(model.entries, model.rows, model.columns, image, place);
    lemma_inner_turned(above, place);
    lemma_inner_turned(image, target);
    lemma_inner_with_unit(above, to);
}

/// What some entries of a column put into a row.
pub open spec fn part_in_row<S: Scalar>(
    model: OperatorModel<S>,
    row: int,
    from: int,
    to: int,
) -> S
    decreases to - from,
{
    if to <= from {
        S::spec_zero()
    } else {
        part_in_row(model, row, from, to - 1).spec_plus(
            if model.entries[to - 1].0 == row {
                model.entries[to - 1].2
            } else {
                S::spec_zero()
            },
        )
    }
}

proof fn lemma_spread_right<S: ExactScalar>(
    matrix: Seq<S>,
    model: OperatorModel<S>,
    left: int,
    value: S,
    from: int,
    to: int,
    i: int,
    j: int,
)
    requires
        linear::entries_fit(model.entries, model.rows, model.columns),
        matrix.len() == model.rows * model.rows,
        0 <= left < model.entries.len(),
        0 <= from,
        to <= model.entries.len(),
        0 <= i < model.rows,
        0 <= j < model.rows,
    ensures
        spread_right(matrix, model, left, value, from, to).len() == matrix.len(),
        spread_right(matrix, model, left, value, from, to)[i * model.rows + j] == matrix[i
            * model.rows + j].spec_plus(
            if model.entries[left].0 == i {
                model.entries[left].2.spec_times(value).spec_times(
                    part_in_row(model, j, from, to).spec_conjugate(),
                )
            } else {
                S::spec_zero()
            },
        ),
    decreases to - from,
{
    let n = model.rows as int;
    let place = i * n + j;
    let factor = model.entries[left].2.spec_times(value);
    partial_traces::lemma_pair(i, j, n, n);
    S::zero_is_neutral(matrix[place]);
    if to <= from {
        S::conjugation_is_linear(S::spec_zero(), S::spec_zero());
        S::times_commutes(factor, S::spec_zero());
        S::zero_is_neutral(factor);
    } else {
        lemma_spread_right(matrix, model, left, value, from, to - 1, i, j);
        let before = spread_right(matrix, model, left, value, from, to - 1);
        let (r, c) = (model.entries[left].0 as int, model.entries[to - 1].0 as int);
        assert(r < n && c < n);
        partial_traces::lemma_pair(r, c, n, n);
        let part = part_in_row(model, j, from, to - 1);
        let more = if c == j {
            model.entries[to - 1].2
        } else {
            S::spec_zero()
        };
        S::conjugation_is_linear(part, more);
        S::conjugation_is_linear(S::spec_zero(), S::spec_zero());
        S::times_distributes(factor, part.spec_conjugate(), more.spec_conjugate());
        S::times_commutes(factor, S::spec_zero());
        S::zero_is_neutral(factor);
        S::zero_is_neutral(factor.spec_times(part.spec_conjugate()));
        S::plus_associates(
            matrix[place],
            factor.spec_times(part.spec_conjugate()),
            factor.spec_times(more.spec_conjugate()),
        );
        assert(place == r * n + c <==> r == i && c == j);
    }
}

proof fn lemma_spread_left<S: ExactScalar>(
    matrix: Seq<S>,
    model: OperatorModel<S>,
    value: S,
    from: int,
    to: int,
    right_from: int,
    right_to: int,
    i: int,
    j: int,
)
    requires
        linear::entries_fit(model.entries, model.rows, model.columns),
        matrix.len() == model.rows * model.rows,
        0 <= from,
        to <= model.entries.len(),
        0 <= right_from,
        right_to <= model.entries.len(),
        0 <= i < model.rows,
        0 <= j < model.rows,
    ensures
        spread_left(matrix, model, value, from, to, right_from, right_to).len() == matrix.len(),
        spread_left(matrix, model, value, from, to, right_from, right_to)[i * model.rows + j]
            == matrix[i * model.rows + j].spec_plus(
            part_in_row(model, i, from, to).spec_times(value).spec_times(
                part_in_row(model, j, right_from, right_to).spec_conjugate(),
            ),
        ),
    decreases to - from,
{
    let n = model.rows as int;
    let place = i * n + j;
    let zero = S::spec_zero();
    let back = part_in_row(model, j, right_from, right_to).spec_conjugate();
    S::zero_is_neutral(matrix[place]);
    S::zero_is_neutral(value);
    S::zero_is_neutral(back);
    if to > from {
        lemma_spread_left(
            matrix,
            model,
            value,
            from,
            to - 1,
            right_from,
            right_to,
            i,
            j,
        );
        let before = spread_left(matrix, model, value, from, to - 1, right_from, right_to);
        lemma_spread_right(before, model, to - 1, value, right_from, right_to, i, j);
        let part = part_in_row(model, i, from, to - 1);
        let more = if model.entries[to - 1].0 == i {
            model.entries[to - 1].2
        } else {
            zero
        };
        // (part + more) * value * back == part * value * back + more * value * back
        S::times_commutes(part.spec_plus(more), value);
        S::times_distributes(value, part, more);
        S::times_commutes(value, part);
        S::times_commutes(value, more);
        let (x, y) = (part.spec_times(value), more.spec_times(value));
        S::times_commutes(x.spec_plus(y), back);
        S::times_distributes(back, x, y);
        S::times_commutes(back, x);
        S::times_commutes(back, y);
        S::plus_associates(matrix[place], x.spec_times(back), y.spec_times(back));
    }
}

/// Densities are lifted on both sides: an element of the lifted matrix is the sum over all elements
/// of the reduced one, each times the entry of the projector in its row and the conjugate entry
/// in its column. Faint elements are left out.
pub proof fn law_densities_are_lifted_on_both_sides<S: Normed + ExactScalar>(
    model: OperatorModel<S>,
    offsets: Seq<usize>,
    reduced: Seq<S>,
    count: nat,
    i: int,
    j: int,
)
    requires
        linear::entries_fit(model.entries, model.rows, model.columns),
        offsets.len() == model.columns + 1,
        forall|c: int| 0 <= c < offsets.len() ==> #[trigger] offsets[c] <= model.entries.len(),
        count <= model.columns * model.columns,
        0 <= i < model.rows,
        0 <= j < model.rows,
    ensures
        spread(model, offsets, reduced, count).len() == model.rows * model.rows,
        spread(model, offsets, reduced, count)[i * model.rows + j] == total_of(
            |place: int|
                {
                    let row = place / (model.columns as int);
                    let column = place % (model.columns as int);
                    if reduced[place].spec_is_faint() {
                        S::spec_zero()
                    } else {
                        part_in_row(
                            model,
                            i,
                            offsets[row] as int,
                            offsets[row + 1] as int,
                        ).spec_times(reduced[place]).spec_times(
                            part_in_row(
                                model,
                                j,
                                offsets[column] as int,
                                offsets[column + 1] as int,
                            ).spec_conjugate(),
                        )
                    }
                },
            count,
        ),
    decreases count,
{
    let n = model.rows as int;
    partial_traces::lemma_pair(i, j, n, n);
    if count > 0 {
        let last = (count - 1) as nat;
        law_densities_are_lifted_on_both_sides(model, offsets, reduced, last, i, j);
        let columns = model.columns as int;
        partial_traces::lemma_unpair(last as int, columns, columns);
        let (row, column) = (last as int / columns, last as int % columns);
        let before = spread(model, offsets, reduced, last);
        S::zero_is_neutral(before[i * n + j]);
        assert(offsets[row] >= 0 && offsets[row + 1] <= model.entries.len());
        assert(offsets[column] >= 0 && offsets[column + 1] <= model.entries.len());
        lemma_spread_left(
            before,
            model,
            reduced[last as int],
            offsets[row] as int,
            offsets[row + 1] as int,
            offsets[column] as int,
            offsets[column + 1] as int,
            i,
            j,
        );
    }
}

/// Nothing of a lifted vector lies outside the projected space: the vector is subtracted from
/// itself.
pub proof fn law_lifted_vectors_are_not_outside<S: Normed + ExactScalar>(
    model: OperatorModel<S>,
    reduced: Seq<S>,
    row: int,
)
    requires
        linear::entries_fit(model.entries, model.rows, model.columns),
        isometry::exactly_isometric(model),
        reduced.len() == model.columns,
        0 <= row < model.rows,
    ensures
        ({
            let lifted = linear::entries_apply(model.entries, reduced, model.rows as nat);
            outside(model, lifted)[row] == lifted[row].spec_minus(lifted[row])
        }),
{
    isometry::law_projecting_undoes_lifting(model, reduced);
    linear::lemma_entries_apply(model.entries, reduced, model.rows, model.columns);
}

} // verus!

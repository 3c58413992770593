//! What projectors over exact scalars satisfy: projecting undoes lifting.

use vstd::prelude::*;

use crate::exact;
use crate::exact::ExactScalar;
use crate::linear;
use crate::linear::{OperatorModel, Scalar};
use crate::projector;

verus! {

/// Whether each unit vector comes back when it is lifted and projected again.
pub open spec fn exactly_isometric<S: Scalar>(model: OperatorModel<S>) -> bool {
    forall|column: nat|
        column < model.columns ==> #[trigger] projector::recovered(model, column) == linear::unit::<
            S,
        >(model.columns as nat, column)
}

proof fn lemma_nothing_added<S: ExactScalar>(factor: S)
    ensures
        S::spec_zero().spec_plus(factor.spec_times(S::spec_zero())) == S::spec_zero(),
{
    S::times_commutes(factor, S::spec_zero());
    S::zero_is_neutral(factor);
    S::zero_is_neutral(S::spec_zero());
}

/// A product with a combination, added to a combination, is a combination again.
proof fn lemma_combined<S: ExactScalar>(a: S, b: S, factor: S, value: S, x: S, y: S)
    ensures
        a.spec_plus(factor.spec_times(b)).spec_plus(
            value.spec_times(x.spec_plus(factor.spec_times(y))),
        ) == a.spec_plus(value.spec_times(x)).spec_plus(
            factor.spec_times(b.spec_plus(value.spec_times(y))),
        ),
{
    let inner = factor.spec_times(y);
    S::times_distributes(value, x, inner);
    S::times_associates(value, factor, y);
    S::times_commutes(value, factor);
    S::times_associates(factor, value, y);
    S::times_distributes(factor, b, value.spec_times(y));
    exact::lemma_crosswise(
        a,
        factor.spec_times(b),
        value.spec_times(x),
        value.spec_times(inner),
    );
}

proof fn lemma_shorter_fits<S>(entries: Seq<(usize, usize, S)>, rows: usize, columns: usize)
    requires
        linear::entries_fit(entries, rows, columns),
        entries.len() > 0,
    ensures
        linear::entries_fit(entries.drop_last(), rows, columns),
        entries.last().0 < rows,
        entries.last().1 < columns,
{
    assert(entries[entries.len() - 1].0 < rows);
    assert forall|i: int| 0 <= i < entries.len() - 1 implies (#[trigger] entries.drop_last()[i]).0
        < rows && entries.drop_last()[i].1 < columns by {
        assert(entries[i].0 < rows);
    }
}

/// A matrix takes a combination of vectors to the combination of their images.
pub proof fn lemma_apply_is_linear<S: ExactScalar>(
    entries: Seq<(usize, usize, S)>,
    x: Seq<S>,
    factor: S,
    y: Seq<S>,
    rows: usize,
    columns: usize,
)
    requires
        linear::entries_fit(entries, rows, columns),
        x.len() == columns,
        y.len() == columns,
    ensures
        linear::entries_apply(entries, linear::add_scaled(x, factor, y), rows as nat)
            == linear::add_scaled(
            linear::entries_apply(entries, x, rows as nat),
            factor,
            linear::entries_apply(entries, y, rows as nat),
        ),
    decreases entries.len(),
{
    let sum = linear::add_scaled(x, factor, y);
    linear::lemma_entries_apply(entries, x, rows, columns);
    linear::lemma_entries_apply(entries, y, rows, columns);
    linear::lemma_entries_apply(entries, sum, rows, columns);
    let image = linear::entries_apply(entries, sum, rows as nat);
    let combined = linear::add_scaled(
        linear::entries_apply(entries, x, rows as nat),
        factor,
        linear::entries_apply(entries, y, rows as nat),
    );
    if entries.len() == 0 {
        lemma_nothing_added(factor);
        assert(image =~= combined);
    } else {
        lemma_shorter_fits(entries, rows, columns);
        let shorter = entries.drop_last();
        let (row, column, value) = entries.last();
        lemma_apply_is_linear(shorter, x, factor, y, rows, columns);
        linear::lemma_entries_apply(shorter, x, rows, columns);
        linear::lemma_entries_apply(shorter, y, rows, columns);
        lemma_combined(
            linear::entries_apply(shorter, x, rows as nat)[row as int],
            linear::entries_apply(shorter, y, rows as nat)[row as int],
            factor,
            value,
            x[column as int],
            y[column as int],
        );
        assert(image =~= combined);
    }
}

/// The adjoint of a matrix takes a combination of vectors to the combination of their images.
proof fn lemma_adjoint_is_linear<S: ExactScalar>(
    entries: Seq<(usize, usize, S)>,
    x: Seq<S>,
    factor: S,
    y: Seq<S>,
    rows: usize,
    columns: usize,
)
    requires
        linear::entries_fit(entries, rows, columns),
        x.len() == rows,
        y.len() == rows,
    ensures
        linear::entries_apply_adjoint(entries, linear::add_scaled(x, factor, y), columns as nat)
            == linear::add_scaled(
            linear::entries_apply_adjoint(entries, x, columns as nat),
            factor,
            linear::entries_apply_adjoint(entries, y, columns as nat),
        ),
    decreases entries.len(),
{
    let sum = linear::add_scaled(x, factor, y);
    linear::lemma_entries_apply(entries, x, rows, columns);
    linear::lemma_entries_apply(entries, y, rows, columns);
    linear::lemma_entries_apply(entries, sum, rows, columns);
    let image = linear::entries_apply_adjoint(entries, sum, columns as nat);
    let combined = linear::add_scaled(
        linear::entries_apply_adjoint(entries, x, columns as nat),
        factor,
        linear::entries_apply_adjoint(entries, y, columns as nat),
    );
    if entries.len() == 0 {
        lemma_nothing_added(factor);
        assert(image =~= combined);
    } else {
        lemma_shorter_fits(entries, rows, columns);
        let shorter = entries.drop_last();
        let (row, column, value) = entries.last();
        lemma_adjoint_is_linear(shorter, x, factor, y, rows, columns);
        linear::lemma_entries_apply(shorter, x, rows, columns);
        linear::lemma_entries_apply(shorter, y, rows, columns);
        lemma_combined(
            linear::entries_apply_adjoint(shorter, x, columns as nat)[column as int],
            linear::entries_apply_adjoint(shorter, y, columns as nat)[column as int],
            factor,
            value.spec_conjugate(),
            x[row as int],
            y[row as int],
        );
        assert(image =~= combined);
    }
}

/// A matrix and its adjoint take nothing to nothing.
proof fn lemma_nothing_to_nothing<S: ExactScalar>(
    entries: Seq<(usize, usize, S)>,
    rows: usize,
    columns: usize,
)
    requires
        linear::entries_fit(entries, rows, columns),
    ensures
        linear::entries_apply(entries, linear::zeros::<S>(columns as nat), rows as nat)
            == linear::zeros::<S>(rows as nat),
        linear::entries_apply_adjoint(entries, linear::zeros::<S>(rows as nat), columns as nat)
            == linear::zeros::<S>(columns as nat),
    decreases entries.len(),
{
    if entries.len() > 0 {
        lemma_shorter_fits(entries, rows, columns);
        lemma_nothing_to_nothing(entries.drop_last(), rows, columns);
        let (row, column, value) = entries.last();
        lemma_nothing_added(value);
        lemma_nothing_added(value.spec_conjugate());
        assert(linear::entries_apply(entries, linear::zeros::<S>(columns as nat), rows as nat)
            =~= linear::zeros::<S>(rows as nat));
        assert(linear::entries_apply_adjoint(
            entries,
            linear::zeros::<S>(rows as nat),
            columns as nat,
        ) =~= linear::zeros::<S>(columns as nat));
    }
}

/// The first entries of a vector, with zeros behind them.
spec fn beginning<S: Scalar>(vector: Seq<S>, count: nat) -> Seq<S> {
    Seq::new(
        vector.len(),
        |i: int| if i < count {
            vector[i]
        } else {
            S::spec_zero()
        },
    )
}

proof fn lemma_beginning_grows<S: ExactScalar>(vector: Seq<S>, count: nat)
    requires
        count < vector.len(),
    ensures
        beginning(vector, count + 1) == linear::add_scaled(
            beginning(vector, count),
            vector[count as int],
            linear::unit::<S>(vector.len(), count),
        ),
{
    let factor = vector[count as int];
    let grown = linear::add_scaled(
        beginning(vector, count),
        factor,
        linear::unit::<S>(vector.len(), count),
    );
    assert forall|i: int| 0 <= i < vector.len() implies #[trigger] grown[i] == beginning(
        vector,
        count + 1,
    )[i] by {
        if i == count {
            S::times_commutes(factor, S::spec_one());
            S::one_is_neutral(factor);
            S::plus_commutes(S::spec_zero(), factor);
            S::zero_is_neutral(factor);
        } else {
            S::times_commutes(factor, S::spec_zero());
            S::zero_is_neutral(factor);
            S::zero_is_neutral(beginning(vector, count)[i]);
        }
    }
    assert(grown =~= beginning(vector, count + 1));
}

proof fn lemma_beginning_recovered<S: ExactScalar>(
    model: OperatorModel<S>,
    vector: Seq<S>,
    count: nat,
)
    requires
        linear::entries_fit(model.entries, model.rows, model.columns),
        exactly_isometric(model),
        vector.len() == model.columns,
        count <= vector.len(),
    ensures
        linear::entries_apply_adjoint(
            model.entries,
            linear::entries_apply(model.entries, beginning(vector, count), model.rows as nat),
            model.columns as nat,
        ) == beginning(vector, count),
    decreases count,
{
    let (entries, rows, columns) = (model.entries, model.rows, model.columns);
    if count == 0 {
        assert(beginning(vector, 0) =~= linear::zeros::<S>(columns as nat));
        lemma_nothing_to_nothing(entries, rows, columns);
    } else {
        let before = (count - 1) as nat;
        let factor = vector[before as int];
        let unit = linear::unit::<S>(columns as nat, before);
        lemma_beginning_recovered(model, vector, before);
        lemma_beginning_grows(vector, before);
        lemma_apply_is_linear(entries, beginning(vector, before), factor, unit, rows, columns);
        linear::lemma_entries_apply(entries, beginning(vector, before), rows, columns);
        linear::lemma_entries_apply(entries, unit, rows, columns);
        lemma_adjoint_is_linear(
            entries,
            linear::entries_apply(entries, beginning(vector, before), rows as nat),
            factor,
            linear::entries_apply(entries, unit, rows as nat),
            rows,
            columns,
        );
        assert(projector::recovered(model, before) == unit);
    }
}

/// Projecting undoes lifting: every reduced vector comes back from the parent space, where the
/// columns of the projector are orthonormal.
pub proof fn law_projecting_undoes_lifting<S: ExactScalar>(
    model: OperatorModel<S>,
    reduced: Seq<S>,
)
    requires
        linear::entries_fit(model.entries, model.rows, model.columns),
        exactly_isometric(model),
        reduced.len() == model.columns,
    ensures
        match projector::lifted_vector(model, reduced) {
            Ok(parent) => projector::projected_vector(model, parent) == Ok::<
                Seq<S>,
                crate::error::QmbedError,
            >(reduced),
            Err(_) => false,
        },
{
    lemma_beginning_recovered(model, reduced, reduced.len());
    linear::lemma_entries_apply(model.entries, reduced, model.rows, model.columns);
    assert(beginning(reduced, reduced.len()) =~= reduced);
}

/// Whether entries send each column to a row of its own with factor one.
spec fn one_to_one<S: Scalar>(
    entries: Seq<(usize, usize, S)>,
    targets: Seq<usize>,
    rows: usize,
) -> bool {
    &&& entries.len() == targets.len()
    &&& targets.no_duplicates()
    &&& targets.len() <= usize::MAX
    &&& forall|k: int|
        0 <= k < targets.len() ==> {
            &&& #[trigger] entries[k] == (targets[k], k as usize, S::spec_one())
            &&& targets[k] < rows
        }
}

proof fn lemma_one_to_one_apply<S: ExactScalar>(
    entries: Seq<(usize, usize, S)>,
    targets: Seq<usize>,
    rows: usize,
    x: Seq<S>,
    count: nat,
)
    requires
        one_to_one(entries, targets, rows),
        x.len() == targets.len(),
        count <= targets.len(),
    ensures
        ({
            let image = linear::entries_apply(entries.take(count as int), x, rows as nat);
            &&& image.len() == rows
            &&& forall|k: int|
                0 <= k < count ==> image[#[trigger] targets[k] as int] == x[k]
            &&& forall|k: int|
                count <= k < targets.len() ==> image[#[trigger] targets[k] as int]
                    == S::spec_zero()
        }),
    decreases count,
{
    assert forall|k: int| 0 <= k < targets.len() implies (#[trigger] targets[k]) < rows by {
        assert(entries[k] == (targets[k], k as usize, S::spec_one()));
    }
    if count > 0 {
        let before = (count - 1) as nat;
        lemma_one_to_one_apply(entries, targets, rows, x, before);
        assert(entries.take(count as int).drop_last() =~= entries.take(before as int));
        assert(entries.take(count as int).last() == entries[before as int]);
        let value = x[before as int];
        S::one_is_neutral(value);
        S::plus_commutes(S::spec_zero(), value);
        S::zero_is_neutral(value);
    }
}

proof fn lemma_one_to_one_adjoint<S: ExactScalar>(
    entries: Seq<(usize, usize, S)>,
    targets: Seq<usize>,
    rows: usize,
    y: Seq<S>,
    count: nat,
)
    requires
        one_to_one(entries, targets, rows),
        y.len() == rows,
        count <= targets.len(),
    ensures
        ({
            let image = linear::entries_apply_adjoint(
                entries.take(count as int),
                y,
                targets.len(),
            );
            &&& image.len() == targets.len()
            &&& forall|k: int|
                0 <= k < targets.len() ==> #[trigger] image[k] == if k < count {
                    y[targets[k] as int]
                } else {
                    S::spec_zero()
                }
        }),
    decreases count,
{
    if count > 0 {
        let before = (count - 1) as nat;
        lemma_one_to_one_adjoint(entries, targets, rows, y, before);
        assert(entries.take(count as int).drop_last() =~= entries.take(before as int));
        assert(entries.take(count as int).last() == entries[before as int]);
        let value = y[targets[before as int] as int];
        S::one_is_neutral(value);
        S::plus_commutes(S::spec_zero(), value);
        S::zero_is_neutral(value);
    }
}

/// Rows of the parent space at which the states of a selected basis stand.
spec fn rows_of<State>(reduced: Seq<State>, parent: Seq<State>) -> Seq<usize> {
    Seq::new(reduced.len(), |k: int| parent.index_of(reduced[k]) as usize)
}

proof fn lemma_embedded_columns<State, S: Scalar>(
    reduced: Seq<State>,
    parent: Seq<State>,
    count: nat,
)
    requires
        projector::embedded_columns::<State, S>(reduced, parent, count) is Ok,
        count <= reduced.len(),
    ensures
        ({
            let columns = projector::embedded_columns::<State, S>(reduced, parent, count)->Ok_0;
            &&& columns.len() == count
            &&& forall|k: int|
                0 <= k < count ==> {
                    &&& #[trigger] columns[k] == seq![(rows_of(reduced, parent)[k], S::spec_one())]
                    &&& parent.contains(reduced[k])
                }
        }),
    decreases count,
{
    if count > 0 {
        lemma_embedded_columns::<State, S>(reduced, parent, (count - 1) as nat);
    }
}

proof fn lemma_flattened_units<S: Scalar>(
    columns: Seq<Seq<(usize, S)>>,
    targets: Seq<usize>,
    count: nat,
)
    requires
        columns.len() == targets.len(),
        count <= columns.len(),
        forall|k: int|
            0 <= k < columns.len() ==> #[trigger] columns[k] == seq![(targets[k], S::spec_one())],
    ensures
        projector::flattened(columns, count).len() == count,
        forall|k: int|
            0 <= k < count ==> #[trigger] projector::flattened(columns, count)[k] == (
                targets[k],
                k as usize,
                S::spec_one(),
            ),
    decreases count,
{
    if count > 0 {
        lemma_flattened_units(columns, targets, (count - 1) as nat);
        let column = columns[count - 1];
        let entry = (targets[count - 1], S::spec_one());
        assert(column == seq![entry]);
        assert(column.drop_last() =~= Seq::empty());
        assert(projector::by_row(column.drop_last()) =~= Seq::empty());
        assert(projector::by_row(column) =~= seq![entry]);
    }
}

/// Embeddings of selected bases are isometries: the projector of a list of distinct states of
/// the parent basis gives every reduced vector back.
pub proof fn law_embeddings_are_isometric<State, S: ExactScalar>(
    reduced: Seq<State>,
    parent: Seq<State>,
    model: OperatorModel<S>,
)
    requires
        reduced.no_duplicates(),
        reduced.len() <= usize::MAX,
        parent.len() <= usize::MAX,
        projector::from_stated(
            parent.len() as usize,
            projector::embedded_columns::<State, S>(reduced, parent, reduced.len()),
        ) == Ok::<OperatorModel<S>, crate::error::QmbedError>(model),
    ensures
        model.rows == parent.len(),
        model.columns == reduced.len(),
        linear::entries_fit(model.entries, model.rows, model.columns),
        exactly_isometric(model),
{
    let targets = rows_of(reduced, parent);
    let columns = projector::embedded_columns::<State, S>(reduced, parent, reduced.len())->Ok_0;
    let (entries, rows) = (model.entries, model.rows);
    lemma_embedded_columns::<State, S>(reduced, parent, reduced.len());
    lemma_flattened_units(columns, targets, reduced.len());
    assert forall|k: int| 0 <= k < targets.len() implies {
        &&& parent[#[trigger] targets[k] as int] == reduced[k]
        &&& targets[k] < rows
    } by {
        assert(columns[k] == seq![(targets[k], S::spec_one())]);
        assert(parent[parent.index_of(reduced[k])] == reduced[k]);
    }
    assert(one_to_one(entries, targets, rows)) by {
        assert forall|k: int| 0 <= k < targets.len() implies {
            &&& #[trigger] entries[k] == (targets[k], k as usize, S::spec_one())
            &&& targets[k] < rows
        } by {
            assert(parent[targets[k] as int] == reduced[k]);
        }
        assert forall|i: int, j: int| 0 <= i < targets.len() && 0 <= j < targets.len() && i
            != j implies targets[i] != targets[j] by {
            assert(parent[targets[i] as int] == reduced[i]);
            assert(parent[targets[j] as int] == reduced[j]);
            assert(reduced[i] != reduced[j]);
        }
    }
    assert forall|column: nat| column < model.columns implies #[trigger] projector::recovered(
        model,
        column,
    ) == linear::unit::<S>(model.columns as nat, column) by {
        let unit = linear::unit::<S>(model.columns as nat, column);
        let image = linear::entries_apply(entries, unit, rows as nat);
        assert(entries.take(targets.len() as int) =~= entries);
        lemma_one_to_one_apply(entries, targets, rows, unit, targets.len());
        lemma_one_to_one_adjoint(entries, targets, rows, image, targets.len());
        assert forall|k: int| 0 <= k < targets.len() implies #[trigger] projector::recovered(
            model,
            column,
        )[k] == unit[k] by {
            assert(image[targets[k] as int] == unit[k]);
        }
        assert(projector::recovered(model, column) =~= unit);
    }
    assert forall|k: int| 0 <= k < entries.len() implies (#[trigger] entries[k]).0 < rows
        && entries[k].1 < model.columns by {
        assert(entries[k] == (targets[k], k as usize, S::spec_one()));
        assert(parent[targets[k] as int] == reduced[k]);
    }
}

} // verus!

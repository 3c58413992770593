//! Sparse isometric lifts from a reduced basis into a parent basis.

use vstd::prelude::*;

use crate::amplitudes::Turn;
use crate::basis::Basis;
use crate::error::{QmbedError, Reason, Result};
use crate::general::GeneralBasis;
use crate::linear;
use crate::linear::{
    streamed_triplets, unit_vector, Gaussian, LinearOperator, MatrixFormat, Operator, OperatorModel,
    Scalar,
};
use crate::matrix_subspace;
use crate::matrix_subspace::{refuse_value, Normed, PhaseScalar};
use crate::ordered::Bounded;
use crate::reduction::Reduction;
use crate::symmetry::SymmetryMap;

verus! {

/// Entries of a column with one more entry, behind those of lower and equal rows.
pub open spec fn placed<S>(sorted: Seq<(usize, S)>, entry: (usize, S)) -> Seq<(usize, S)>
    decreases sorted.len(),
{
    if sorted.len() == 0 || sorted.last().0 <= entry.0 {
        sorted.push(entry)
    } else {
        placed(sorted.drop_last(), entry).push(sorted.last())
    }
}

/// Entries of a column by row; entries of one row keep their order.
pub open spec fn by_row<S>(column: Seq<(usize, S)>) -> Seq<(usize, S)>
    decreases column.len(),
{
    if column.len() == 0 {
        Seq::empty()
    } else {
        placed(by_row(column.drop_last()), column.last())
    }
}

/// Rows never decrease along a column.
pub open spec fn rows_ascend<S>(column: Seq<(usize, S)>) -> bool {
    forall|i: int, j: int|
        0 <= i <= j < column.len() ==> (#[trigger] column[i]).0 <= (#[trigger] column[j]).0
}

proof fn lemma_placed<S>(sorted: Seq<(usize, S)>, entry: (usize, S))
    requires
        rows_ascend(sorted),
    ensures
        rows_ascend(placed(sorted, entry)),
        placed(sorted, entry).len() == sorted.len() + 1,
        placed(sorted, entry).to_multiset() == sorted.to_multiset().insert(entry),
        forall|bound: usize|
            entry.0 <= bound && (forall|i: int|
                0 <= i < sorted.len() ==> (#[trigger] sorted[i]).0 <= bound) ==> #[trigger] rows_within(
                placed(sorted, entry),
                bound,
            ),
    decreases sorted.len(),
{
    broadcast use vstd::seq_lib::group_to_multiset_ensures;

    if sorted.len() > 0 && sorted.last().0 > entry.0 {
        let shorter = sorted.drop_last();
        lemma_placed(shorter, entry);
        let inner = placed(shorter, entry);
        let bound = sorted.last().0;
        assert(shorter.push(sorted.last()) =~= sorted);
        assert(rows_within(inner, bound)) by {
            assert forall|i: int| 0 <= i < shorter.len() implies (#[trigger] shorter[i]).0
                <= bound by {
                assert(sorted[i].0 <= sorted[sorted.len() - 1].0);
            }
        }
        assert(shorter.to_multiset().insert(entry).insert(sorted.last())
            =~= shorter.to_multiset().insert(sorted.last()).insert(entry));
        let whole = placed(sorted, entry);
        assert forall|i: int, j: int| 0 <= i <= j < whole.len() implies (#[trigger] whole[i]).0 <= (
        #[trigger] whole[j]).0 by {
            if j == whole.len() - 1 && i < j {
                assert(inner[i].0 <= bound);
            }
        }
        assert forall|top: usize|
            entry.0 <= top && (forall|i: int|
                0 <= i < sorted.len() ==> (#[trigger] sorted[i]).0
                    <= top) implies #[trigger] rows_within(whole, top) by {
            assert forall|i: int| 0 <= i < whole.len() implies (#[trigger] whole[i]).0 <= top by {
                assert(sorted[sorted.len() - 1].0 <= top);
                if i < inner.len() {
                    assert(inner[i].0 <= bound);
                }
            }
        }
    } else {
        let whole = sorted.push(entry);
        assert forall|i: int, j: int| 0 <= i <= j < whole.len() implies (#[trigger] whole[i]).0 <= (
        #[trigger] whole[j]).0 by {
            if j == sorted.len() && i < j {
                assert(sorted[i].0 <= sorted[sorted.len() - 1].0);
            }
        }
    }
}

/// Rows do not exceed a bound.
pub open spec fn rows_within<S>(column: Seq<(usize, S)>, bound: usize) -> bool {
    forall|i: int| 0 <= i < column.len() ==> (#[trigger] column[i]).0 <= bound
}

/// Sorting a column by row keeps its entries and puts the rows in order.
pub proof fn law_by_row_sorts<S>(column: Seq<(usize, S)>)
    ensures
        rows_ascend(by_row(column)),
        by_row(column).to_multiset() == column.to_multiset(),
        by_row(column).len() == column.len(),
    decreases column.len(),
{
    broadcast use vstd::seq_lib::group_to_multiset_ensures;

    if column.len() > 0 {
        law_by_row_sorts(column.drop_last());
        lemma_placed(by_row(column.drop_last()), column.last());
        assert(column.drop_last().push(column.last()) =~= column);
    } else {
        assert(column =~= Seq::empty());
    }
}

/// Entries of a column of a matrix.
pub open spec fn in_column<S>(column: Seq<(usize, S)>, place: int) -> Seq<(usize, usize, S)> {
    column.map_values(|entry: (usize, S)| (entry.0, place as usize, entry.1))
}

/// Entries of the first columns, each sorted by row.
pub open spec fn flattened<S>(columns: Seq<Seq<(usize, S)>>, count: nat) -> Seq<(usize, usize, S)>
    decreases count,
{
    if count == 0 {
        Seq::empty()
    } else {
        flattened(columns, (count - 1) as nat) + in_column(by_row(columns[count - 1]), count - 1)
    }
}

/// Where the entries of each column begin.
pub open spec fn column_start<S>(columns: Seq<Seq<(usize, S)>>, count: nat) -> nat
    decreases count,
{
    if count == 0 {
        0
    } else {
        column_start(columns, (count - 1) as nat) + columns[count - 1].len()
    }
}

/// The columns as sequences.
pub open spec fn columns_view<S>(columns: Seq<Vec<(usize, S)>>) -> Seq<Seq<(usize, S)>> {
    Seq::new(columns.len(), |c: int| columns[c]@)
}

/// Every entry of a column has a row of the parent space and a finite value.
pub open spec fn column_valid<S: Scalar>(column: Seq<(usize, S)>, rows: usize) -> bool {
    forall|k: int|
        0 <= k < column.len() ==> (#[trigger] column[k]).0 < rows && column[k].1.spec_is_finite()
}

/// Every entry of every column has a row of the parent space and a finite value.
pub open spec fn columns_valid<S: Scalar>(columns: Seq<Seq<(usize, S)>>, rows: usize) -> bool {
    forall|c: int| 0 <= c < columns.len() ==> #[trigger] column_valid(columns[c], rows)
}

/// A column sorted by row.
fn sort_by_row<S: Copy>(column: &Vec<(usize, S)>) -> (sorted: Vec<(usize, S)>)
    ensures
        sorted@ == by_row(column@),
{
    let mut sorted: Vec<(usize, S)> = Vec::new();
    let mut next: usize = 0;
    assert(column@.take(0) =~= Seq::empty());
    while next < column.len()
        invariant
            next <= column@.len(),
            sorted@ == by_row(column@.take(next as int)),
        decreases column@.len() - next,
    {
        let entry: (usize, S) = column[next];
        proof {
            assert(column@.take(next + 1).drop_last() =~= column@.take(next as int));
        }
        place_entry(&mut sorted, entry);
        next += 1;
    }
    assert(column@.take(next as int) =~= column@);
    sorted
}

fn place_entry<S: Copy>(sorted: &mut Vec<(usize, S)>, entry: (usize, S))
    ensures
        final(sorted)@ == placed(old(sorted)@, entry),
{
    let ghost start = sorted@;
    let mut place: usize = sorted.len();
    assert(start.take(place as int) =~= start);
    assert(start.skip(place as int) =~= Seq::empty());
    assert(placed(start, entry) =~= placed(start.take(place as int), entry) + start.skip(
        place as int,
    ));
    while place > 0 && sorted[place - 1].0 > entry.0
        invariant
            place <= start.len(),
            sorted@ == start,
            placed(start, entry) == placed(start.take(place as int), entry) + start.skip(
                place as int,
            ),
        decreases place,
    {
        proof {
            assert(start.take(place as int).last() == start[place - 1]);
            assert(start.take(place as int).drop_last() =~= start.take(place - 1));
            assert(start.skip(place - 1) =~= seq![start[place - 1]] + start.skip(place as int));
            assert(placed(start.take(place - 1), entry).push(start[place - 1]) + start.skip(
                place as int,
            ) =~= placed(start.take(place - 1), entry) + start.skip(place - 1));
        }
        place = place - 1;
    }
    sorted.insert(place, entry);
    proof {
        if place > 0 {
            assert(start.take(place as int).last() == start[place - 1]);
        }
        assert(placed(start.take(place as int), entry) =~= start.take(place as int).push(entry));
        assert(sorted@ =~= start.take(place as int).push(entry) + start.skip(place as int));
    }
}

/// A sparse isometry, column by column.
pub struct BasisProjector<S: Scalar> {
    operator: Operator<S>,
    offsets: Vec<usize>,
}

impl<S: Scalar> View for BasisProjector<S> {
    type V = OperatorModel<S>;

    closed spec fn view(&self) -> OperatorModel<S> {
        self.operator@
    }
}

/// Entries stand column by column between the given offsets.
pub open spec fn offsets_fit<S>(model: OperatorModel<S>, offsets: Seq<usize>) -> bool {
    &&& offsets.len() == model.columns + 1
    &&& offsets[0] == 0
    &&& offsets[model.columns as int] == model.entries.len()
    &&& forall|c: int, k: int|
        0 <= c < model.columns && offsets[c] <= k < offsets[c + 1] ==> (
        #[trigger] column_at(model.entries, offsets, c, k))
    &&& forall|c: int| 0 <= c < model.columns ==> #[trigger] offsets[c] <= offsets[c + 1]
    &&& forall|c: int| 0 <= c <= model.columns ==> #[trigger] offsets[c] <= model.entries.len()
}

/// Whether an entry between two offsets stands in the column of the first.
pub open spec fn column_at<S>(
    entries: Seq<(usize, usize, S)>,
    offsets: Seq<usize>,
    column: int,
    place: int,
) -> bool {
    entries[place].1 == column
}

impl<S: Scalar> BasisProjector<S> {
    /// Where the entries of each column begin, and where those of the last end.
    pub closed spec fn spec_offsets(&self) -> Seq<usize> {
        self.offsets@
    }

    /// Entries inside the shape, column by column.
    pub open spec fn valid(&self) -> bool {
        &&& linear::entries_fit(self@.entries, self@.rows, self@.columns)
        &&& offsets_fit(self@, self.spec_offsets())
    }

    /// The projector with the given columns.
    pub fn from_columns(source_dimension: usize, columns: &Vec<Vec<(usize, S)>>) -> (result: Result<
        Self,
    >)
        requires
            columns@.len() < usize::MAX,
            column_start(columns_view(columns@), columns@.len()) <= usize::MAX,
        ensures
            match result {
                Ok(projector) => {
                    &&& columns_valid(columns_view(columns@), source_dimension)
                    &&& projector.valid()
                    &&& projector@.rows == source_dimension
                    &&& projector@.columns == columns@.len()
                    &&& projector@.entries == flattened(columns_view(columns@), columns@.len())
                    &&& projector@.format == MatrixFormat::Csc
                },
                Err(error) => {
                    &&& !columns_valid(columns_view(columns@), source_dimension)
                    &&& error == QmbedError::DimensionMismatch(
                        Reason::Text("projector contains an invalid parent-space row or coefficient"),
                    )
                },
            },
    {
        let ghost stated = columns_view(columns@);
        let mut column: usize = 0;
        while column < columns.len()
            invariant
                column <= columns@.len(),
                stated == columns_view(columns@),
                forall|c: int|
                    0 <= c < column ==> #[trigger] column_valid(stated[c], source_dimension),
            decreases columns@.len() - column,
        {
            let mut next: usize = 0;
            while next < columns[column].len()
                invariant
                    column < columns@.len(),
                    stated == columns_view(columns@),
                    next <= columns@[column as int]@.len(),
                    forall|k: int|
                        0 <= k < next ==> (#[trigger] columns@[column as int]@[k]).0
                            < source_dimension
                            && columns@[column as int]@[k].1.spec_is_finite(),
                decreases columns@[column as int]@.len() - next,
            {
                let (row, value) = columns[column][next];
                if row >= source_dimension || !value.is_finite() {
                    proof {
                        let entry = stated[column as int][next as int];
                        assert(!(entry.0 < source_dimension && entry.1.spec_is_finite()));
                        assert(!column_valid(stated[column as int], source_dimension));
                    }
                    return Err(
                        QmbedError::DimensionMismatch(
                            Reason::Text("projector contains an invalid parent-space row or coefficient"),
                        ),
                    );
                }
                next += 1;
            }
            assert(column_valid(stated[column as int], source_dimension));
            column += 1;
        }
        let width: usize = columns.len();
        let mut entries: Vec<(usize, usize, S)> = Vec::new();
        let mut offsets: Vec<usize> = Vec::new();
        offsets.push(0);
        let mut column: usize = 0;
        while column < columns.len()
            invariant
                column <= width,
                width == columns@.len(),
                stated == columns_view(columns@),
                columns_valid(stated, source_dimension),
                column_start(stated, width as nat) <= usize::MAX,
                entries@ == flattened(stated, column as nat),
                entries@.len() == column_start(stated, column as nat),
                linear::entries_fit(entries@, source_dimension, width),
                offsets@.len() == column + 1,
                offsets@[0] == 0,
                offsets@[column as int] == entries@.len(),
                forall|c: int, k: int|
                    0 <= c < column && offsets@[c] <= k < offsets@[c + 1] ==> (
                    #[trigger] column_at(entries@, offsets@, c, k)),
                forall|c: int| 0 <= c < column ==> #[trigger] offsets@[c] <= offsets@[c + 1],
                forall|c: int| 0 <= c <= column ==> #[trigger] offsets@[c] <= entries@.len(),
            decreases width - column,
        {
            let sorted: Vec<(usize, S)> = sort_by_row(&columns[column]);
            let ghost before = entries@;
            let ghost earlier = offsets@;
            proof {
                law_by_row_sorts(stated[column as int]);
                lemma_by_row_valid(stated[column as int], source_dimension);
                assert(column_valid(stated[column as int], source_dimension));
                lemma_starts(stated, (column + 1) as nat, width as nat);
                assert(before + in_column(sorted@, column as int).take(0) =~= before);
            }
            let mut next: usize = 0;
            while next < sorted.len()
                invariant
                    next <= sorted@.len(),
                    column < width,
                    column_valid(sorted@, source_dimension),
                    entries@ == before + in_column(sorted@, column as int).take(next as int),
                    linear::entries_fit(entries@, source_dimension, width),
                decreases sorted@.len() - next,
            {
                let (row, value) = sorted[next];
                assert(sorted@[next as int].0 < source_dimension);
                entries.push((row, column, value));
                next += 1;
                assert(entries@ =~= before + in_column(sorted@, column as int).take(next as int));
            }
            assert(in_column(sorted@, column as int).take(next as int) =~= in_column(
                sorted@,
                column as int,
            ));
            offsets.push(entries.len());
            column += 1;
            proof {
                assert forall|c: int, k: int|
                    0 <= c < column && offsets@[c] <= k < offsets@[c + 1] implies (
                #[trigger] column_at(entries@, offsets@, c, k)) by {
                    if c < column - 1 {
                        assert(offsets@[c] == earlier[c]);
                        assert(offsets@[c + 1] == earlier[c + 1]);
                        assert(column_at(before, earlier, c, k));
                    } else {
                        assert(entries@[k] == in_column(sorted@, column - 1)[k - before.len()]);
                    }
                }
            }
        }
        match Operator::from_triplets(source_dimension, width, entries, MatrixFormat::Csc) {
            Ok(operator) => Ok(BasisProjector { operator, offsets }),
            Err(error) => {
                assert(false);
                Err(error)
            },
        }
    }

    pub fn source_dimension(&self) -> (dimension: usize)
        ensures
            dimension == self@.rows,
    {
        self.operator.rows()
    }

    pub fn reduced_dimension(&self) -> (dimension: usize)
        ensures
            dimension == self@.columns,
    {
        self.operator.columns()
    }
}

proof fn lemma_by_row_valid<S: Scalar>(column: Seq<(usize, S)>, rows: usize)
    requires
        column_valid(column, rows),
    ensures
        column_valid(by_row(column), rows),
{
    law_by_row_sorts(column);
    let sorted = by_row(column);
    assert forall|k: int| 0 <= k < sorted.len() implies (#[trigger] sorted[k]).0 < rows
        && sorted[k].1.spec_is_finite() by {
        broadcast use vstd::seq_lib::group_to_multiset_ensures;

        assert(sorted.to_multiset().count(sorted[k]) > 0) by {
            assert(sorted.contains(sorted[k]));
        }
        assert(column.contains(sorted[k]));
        let at = column.index_of(sorted[k]);
        assert(column[at] == sorted[k]);
    }
}

proof fn lemma_starts<S>(columns: Seq<Seq<(usize, S)>>, count: nat, later: nat)
    requires
        count <= later,
    ensures
        column_start(columns, count) <= column_start(columns, later),
    decreases later,
{
    if count < later {
        lemma_starts(columns, count, (later - 1) as nat);
    }
}

proof fn lemma_start_update<S>(
    columns: Seq<Seq<(usize, S)>>,
    place: int,
    entry: (usize, S),
    count: nat,
)
    requires
        0 <= place < columns.len(),
        count <= columns.len(),
    ensures
        column_start(columns.update(place, columns[place].push(entry)), count) == column_start(
            columns,
            count,
        ) + (if place < count {
            1int
        } else {
            0int
        }),
    decreases count,
{
    if count > 0 {
        lemma_start_update(columns, place, entry, (count - 1) as nat);
    }
}

proof fn lemma_start_empty<S>(columns: Seq<Seq<(usize, S)>>, count: nat)
    requires
        count <= columns.len(),
        forall|c: int| 0 <= c < columns.len() ==> (#[trigger] columns[c]).len() == 0,
    ensures
        column_start(columns, count) == 0,
    decreases count,
{
    if count > 0 {
        lemma_start_empty(columns, (count - 1) as nat);
    }
}

/// Columns without entries.
pub open spec fn no_columns<S>(count: nat) -> Seq<Seq<(usize, S)>> {
    Seq::new(count, |c: int| Seq::empty())
}

/// Columns with one more entry.
pub open spec fn with_entry<S>(
    columns: Seq<Seq<(usize, S)>>,
    place: int,
    entry: (usize, S),
) -> Seq<Seq<(usize, S)>> {
    columns.update(place, columns[place].push(entry))
}

fn empty_columns<S>(count: usize) -> (columns: Vec<Vec<(usize, S)>>)
    ensures
        columns_view(columns@) == no_columns::<S>(count as nat),
        columns@.len() == count,
        column_start(columns_view(columns@), count as nat) == 0,
{
    let mut columns: Vec<Vec<(usize, S)>> = Vec::new();
    let mut next: usize = 0;
    while next < count
        invariant
            next <= count,
            columns@.len() == next,
            forall|c: int| 0 <= c < next ==> (#[trigger] columns@[c])@ == Seq::<
                (usize, S),
            >::empty(),
        decreases count - next,
    {
        columns.push(Vec::new());
        next += 1;
    }
    proof {
        assert(columns_view(columns@) =~= no_columns::<S>(count as nat));
        lemma_start_empty(columns_view(columns@), count as nat);
    }
    columns
}

fn push_entry<S>(columns: &mut Vec<Vec<(usize, S)>>, place: usize, entry: (usize, S))
    requires
        place < old(columns)@.len(),
    ensures
        columns_view(final(columns)@) == with_entry(
            columns_view(old(columns)@),
            place as int,
            entry,
        ),
        final(columns)@.len() == old(columns)@.len(),
        column_start(columns_view(final(columns)@), final(columns)@.len()) == column_start(
            columns_view(old(columns)@),
            old(columns)@.len(),
        ) + 1,
{
    let ghost before = columns@;
    columns[place].push(entry);
    proof {
        assert(columns_view(columns@) =~= with_entry(columns_view(before), place as int, entry));
        lemma_start_update(columns_view(before), place as int, entry, before.len());
    }
}

/// The first entries of a matrix, sorted into its columns; negligible entries are left out.
pub open spec fn sorted_out<S: Scalar>(
    entries: Seq<(usize, usize, S)>,
    width: nat,
    count: nat,
) -> Seq<Seq<(usize, S)>>
    decreases count,
{
    if count == 0 {
        no_columns(width)
    } else {
        let before = sorted_out(entries, width, (count - 1) as nat);
        let (row, column, value) = entries[count - 1];
        if value.spec_is_negligible() {
            before
        } else {
            with_entry(before, column as int, (row, value))
        }
    }
}

/// What a column becomes when it is lifted and projected again.
pub open spec fn recovered<S: Scalar>(model: OperatorModel<S>, column: nat) -> Seq<S> {
    linear::entries_apply_adjoint(
        model.entries,
        linear::entries_apply(
            model.entries,
            linear::unit(model.columns as nat, column),
            model.rows as nat,
        ),
        model.columns as nat,
    )
}

/// Whether an overlap of two columns is that of an isometry.
pub open spec fn overlap_fits<S: Scalar>(
    model: OperatorModel<S>,
    row: int,
    column: nat,
    tolerance: S::Size,
) -> bool {
    S::spec_within(
        recovered(model, column)[row].spec_distance(
            if row == column {
                S::spec_one()
            } else {
                S::spec_zero()
            },
        ),
        tolerance,
    )
}

/// Whether columns are orthonormal within a tolerance.
pub open spec fn isometric<S: Scalar>(model: OperatorModel<S>, tolerance: S::Size) -> bool {
    forall|row: int, column: nat|
        0 <= row < model.columns && column < model.columns ==> #[trigger] overlap_fits(
            model,
            row,
            column,
            tolerance,
        )
}

/// Projector of a rectangular operator, where the operator is an isometry.
pub open spec fn projector_of<O: LinearOperator>(
    operator: O,
    tolerance: <O::Value as Scalar>::Size,
) -> core::result::Result<OperatorModel<O::Value>, QmbedError> {
    if !<O::Value as Scalar>::spec_usable(tolerance) {
        Err(
            QmbedError::InvalidOptions(Reason::Text("projector-isometry tolerance must be positive and finite")),
        )
    } else {
        match linear::entries_of(operator) {
            Err(error) => Err(error),
            Ok(entries) => {
                let columns = sorted_out(entries, operator.spec_columns() as nat, entries.len());
                let model = OperatorModel {
                    rows: operator.spec_rows(),
                    columns: operator.spec_columns(),
                    entries: flattened(columns, columns.len()),
                    format: MatrixFormat::Csc,
                };
                if !columns_valid(columns, operator.spec_rows()) {
                    Err(
                        QmbedError::DimensionMismatch(
                            Reason::Text("projector contains an invalid parent-space row or coefficient"),
                        ),
                    )
                } else if !isometric(model, tolerance) {
                    Err(
                        QmbedError::InvalidOptions(
                            Reason::Text("operator columns are not isometric within the tolerance"),
                        ),
                    )
                } else {
                    Ok(model)
                }
            },
        }
    }
}

impl<S: Scalar> BasisProjector<S> {
    /// The projector with the columns of an explicit rectangular isometry.
    pub fn from_operator<O: LinearOperator<Value = S>>(projector: &O, tolerance: S::Size) -> (result: Result<
        Self,
    >)
        requires
            projector.wf(),
            projector.spec_columns() < usize::MAX,
        ensures
            match (result, projector_of(*projector, tolerance)) {
                (Ok(found), Ok(model)) => found.valid() && found@ == model,
                (Err(error), Err(stated)) => error == stated,
                _ => false,
            },
    {
        if !S::usable(tolerance) {
            return Err(
                QmbedError::InvalidOptions(
                    Reason::Text("projector-isometry tolerance must be positive and finite"),
                ),
            );
        }
        let (rows, width) = projector.shape();
        let entries: Vec<(usize, usize, S)> = match streamed_triplets(projector) {
            Ok(entries) => entries,
            Err(error) => {
                return Err(error);
            },
        };
        proof {
            linear::lemma_entries_of(*projector);
        }
        let mut columns: Vec<Vec<(usize, S)>> = empty_columns(width);
        let mut next: usize = 0;
        while next < entries.len()
            invariant
                next <= entries@.len(),
                linear::entries_fit(entries@, rows, width),
                columns@.len() == width,
                columns_view(columns@) == sorted_out(entries@, width as nat, next as nat),
                column_start(columns_view(columns@), width as nat) <= next,
            decreases entries@.len() - next,
        {
            let (row, column, value) = entries[next];
            assert(entries@[next as int].1 < width);
            if !value.is_negligible() {
                push_entry(&mut columns, column, (row, value));
            }
            next += 1;
        }
        let found: Self = match Self::from_columns(rows, &columns) {
            Ok(found) => found,
            Err(error) => {
                return Err(error);
            },
        };
        let ghost model = found@;
        let mut column: usize = 0;
        while column < width
            invariant
                column <= width,
                found.valid(),
                model == found@,
                model.columns == width,
                model.rows == rows,
                width == projector.spec_columns(),
                projector_of(*projector, tolerance) == (if isometric(model, tolerance) {
                    Ok::<OperatorModel<S>, QmbedError>(model)
                } else {
                    Err::<OperatorModel<S>, QmbedError>(
                        QmbedError::InvalidOptions(
                            Reason::Text("operator columns are not isometric within the tolerance"),
                        ),
                    )
                }),
                forall|r: int, c: nat|
                    0 <= r < width && c < column ==> #[trigger] overlap_fits(
                        model,
                        r,
                        c,
                        tolerance,
                    ),
            decreases width - column,
        {
            let coordinate: Vec<S> = unit_vector(width, column);
            proof {
                linear::lemma_entries_apply(model.entries, coordinate@, model.rows, model.columns);
            }
            let parent: Vec<S> = match found.operator.apply(&coordinate) {
                Ok(parent) => parent,
                Err(error) => {
                    return Err(error);
                },
            };
            proof {
                linear::lemma_entries_apply(model.entries, parent@, model.rows, model.columns);
            }
            let back: Vec<S> = match found.operator.apply_adjoint(&parent) {
                Ok(back) => back,
                Err(error) => {
                    return Err(error);
                },
            };
            let mut row: usize = 0;
            while row < width
                invariant
                    row <= width,
                    column < width,
                    model.columns == width,
                    back@ == recovered(model, column as nat),
                    back@.len() == width,
                    projector_of(*projector, tolerance) == (if isometric(model, tolerance) {
                        Ok::<OperatorModel<S>, QmbedError>(model)
                    } else {
                        Err::<OperatorModel<S>, QmbedError>(
                            QmbedError::InvalidOptions(
                                Reason::Text("operator columns are not isometric within the tolerance"),
                            ),
                        )
                    }),
                    forall|r: int, c: nat|
                        (0 <= r < width && c < column) || (0 <= r < row && c == column)
                            ==> #[trigger] overlap_fits(model, r, c, tolerance),
                decreases width - row,
            {
                let expected: S = if row == column {
                    S::one()
                } else {
                    S::zero()
                };
                if !S::within(back[row].distance(&expected), tolerance) {
                    proof {
                        assert(!overlap_fits(model, row as int, column as nat, tolerance));
                    }
                    return Err(
                        QmbedError::InvalidOptions(
                            Reason::Text("operator columns are not isometric within the tolerance"),
                        ),
                    );
                }
                row += 1;
            }
            column += 1;
        }
        assert(isometric(model, tolerance));
        Ok(found)
    }
}

/// Scalars that hold the coefficients of orbit sums: a phase over the root of the orbit
/// size.
pub trait OrbitScalar<Turned>: Scalar {
    /// Whether the scalars hold a coefficient.
    spec fn spec_holds_amplitude(phase: Turned, orbit_size: usize) -> bool;

    /// Whether the scalars hold a coefficient.
    fn holds_amplitude(phase: Turned, orbit_size: usize) -> (answer: bool)
        ensures
            answer == Self::spec_holds_amplitude(phase, orbit_size),
    ;

    spec fn spec_amplitude(phase: Turned, orbit_size: usize) -> Self;

    fn amplitude(phase: Turned, orbit_size: usize) -> (value: Self)
        ensures
            value == Self::spec_amplitude(phase, orbit_size),
    ;
}

/// The Gaussian integers hold the coefficients of states that stand for themselves alone.
impl OrbitScalar<Turn> for Gaussian {
    open spec fn spec_holds_amplitude(phase: Turn, orbit_size: usize) -> bool {
        orbit_size == 1 && <Gaussian as PhaseScalar<Turn>>::spec_holds_phase(phase)
    }

    fn holds_amplitude(phase: Turn, orbit_size: usize) -> (answer: bool) {
        orbit_size == 1 && Gaussian::holds_phase(&phase)
    }

    open spec fn spec_amplitude(phase: Turn, orbit_size: usize) -> Self {
        if orbit_size == 1 {
            <Gaussian as PhaseScalar<Turn>>::spec_from_phase(phase)
        } else {
            Gaussian { re: 0, im: 0 }
        }
    }

    fn amplitude(phase: Turn, orbit_size: usize) -> (value: Self) {
        if orbit_size == 1 {
            Gaussian::from_phase(&phase)
        } else {
            Gaussian { re: 0, im: 0 }
        }
    }
}

/// Columns of the embedding of the first states of a basis into another.
pub open spec fn embedded_columns<State, S: Scalar>(
    reduced: Seq<State>,
    parent: Seq<State>,
    count: nat,
) -> core::result::Result<Seq<Seq<(usize, S)>>, QmbedError>
    decreases count,
{
    if count == 0 {
        Ok(Seq::empty())
    } else {
        match embedded_columns::<State, S>(reduced, parent, (count - 1) as nat) {
            Err(error) => Err(error),
            Ok(columns) => if parent.contains(reduced[count - 1]) {
                Ok(
                    columns.push(
                        seq![(parent.index_of(reduced[count - 1]) as usize, S::spec_one())],
                    ),
                )
            } else {
                Err(QmbedError::StateNotInBasis)
            },
        }
    }
}

/// Columns of the lift of a reduced basis from the first states of a parent basis.
pub open spec fn lifted_columns<R: Reduction, S: OrbitScalar<R::Turned>>(
    reduced: R,
    parent: Seq<R::State>,
    count: nat,
) -> core::result::Result<Seq<Seq<(usize, S)>>, QmbedError>
    decreases count,
{
    if count == 0 {
        Ok(no_columns(reduced.spec_states().len()))
    } else {
        match lifted_columns::<R, S>(reduced, parent, (count - 1) as nat) {
            Err(error) => Err(error),
            Ok(columns) => match reduced.spec_reduction(parent[count - 1]) {
                Err(error) => Err(error),
                Ok(None) => Ok(columns),
                Ok(Some((representative, phase, orbit_size))) => if reduced.spec_states().contains(
                    representative,
                ) {
                    if !S::spec_holds_amplitude(phase, orbit_size) {
                        Err(matrix_subspace::no_value())
                    } else {
                        Ok(
                        with_entry(
                            columns,
                            reduced.spec_states().index_of(representative),
                            ((count - 1) as usize, S::spec_amplitude(phase, orbit_size)),
                        ),
                        )
                    }
                } else {
                    Err(QmbedError::StateNotInBasis)
                },
            },
        }
    }
}

/// The projector with given columns, or what keeps it from existing.
pub open spec fn from_stated<S: Scalar>(
    rows: usize,
    columns: core::result::Result<Seq<Seq<(usize, S)>>, QmbedError>,
) -> core::result::Result<OperatorModel<S>, QmbedError> {
    match columns {
        Err(error) => Err(error),
        Ok(list) => if columns_valid(list, rows) {
            Ok(
                OperatorModel {
                    rows,
                    columns: list.len() as usize,
                    entries: flattened(list, list.len()),
                    format: MatrixFormat::Csc,
                },
            )
        } else {
            Err(
                QmbedError::DimensionMismatch(
                    Reason::Text("projector contains an invalid parent-space row or coefficient"),
                ),
            )
        },
    }
}

/// Whether a returned projector is the stated one.
pub open spec fn projector_is<S: Scalar>(
    result: Result<BasisProjector<S>>,
    stated: core::result::Result<OperatorModel<S>, QmbedError>,
) -> bool {
    match (result, stated) {
        (Ok(projector), Ok(model)) => projector.valid() && projector@ == model,
        (Err(error), Err(found)) => error == found,
        _ => false,
    }
}

proof fn lemma_index_is<T>(items: Seq<T>, place: int)
    requires
        items.no_duplicates(),
        0 <= place < items.len(),
    ensures
        items.contains(items[place]),
        items.index_of(items[place]) == place,
{
    assert(items.contains(items[place]));
    let at = items.index_of(items[place]);
    assert(items[at] == items[place]);
}

proof fn lemma_embedding_fails<State, S: Scalar>(
    reduced: Seq<State>,
    parent: Seq<State>,
    count: nat,
    later: nat,
)
    requires
        count <= later,
        embedded_columns::<State, S>(reduced, parent, count) is Err,
    ensures
        embedded_columns::<State, S>(reduced, parent, later) == embedded_columns::<State, S>(
            reduced,
            parent,
            count,
        ),
    decreases later,
{
    if count < later {
        lemma_embedding_fails::<State, S>(reduced, parent, count, (later - 1) as nat);
    }
}

proof fn lemma_lift_fails<R: Reduction, S: OrbitScalar<R::Turned>>(
    reduced: R,
    parent: Seq<R::State>,
    count: nat,
    later: nat,
)
    requires
        count <= later,
        lifted_columns::<R, S>(reduced, parent, count) is Err,
    ensures
        lifted_columns::<R, S>(reduced, parent, later) == lifted_columns::<R, S>(
            reduced,
            parent,
            count,
        ),
    decreases later,
{
    if count < later {
        lemma_lift_fails::<R, S>(reduced, parent, count, (later - 1) as nat);
    }
}

impl<S: Scalar> BasisProjector<S> {
    /// Embedding of a selected basis into a compatible parent basis.
    pub fn from_embedding<Reduced: Basis, Parent: Basis<State = Reduced::State>>(
        reduced: &Reduced,
        parent: &Parent,
    ) -> (result: Result<Self>)
        requires
            reduced.wf(),
            parent.wf(),
            parent.faithful(),
            reduced.spec_states().len() < usize::MAX,
        ensures
            projector_is(
                result,
                from_stated(
                    parent.spec_states().len() as usize,
                    embedded_columns::<Reduced::State, S>(
                        reduced.spec_states(),
                        parent.spec_states(),
                        reduced.spec_states().len(),
                    ),
                ),
            ),
    {
        let ghost states = reduced.spec_states();
        let ghost parents = parent.spec_states();
        let width: usize = reduced.len();
        let mut columns: Vec<Vec<(usize, S)>> = Vec::new();
        let mut column: usize = 0;
        assert(columns_view(columns@) =~= Seq::empty());
        while column < width
            invariant
                column <= width,
                width == states.len(),
                width < usize::MAX,
                reduced.wf(),
                parent.wf(),
                parent.faithful(),
                states == reduced.spec_states(),
                parents == parent.spec_states(),
                columns@.len() == column,
                columns_view(columns@).len() == column,
                column_start(columns_view(columns@), column as nat) == column,
                embedded_columns::<Reduced::State, S>(states, parents, column as nat) == Ok::<
                    Seq<Seq<(usize, S)>>,
                    QmbedError,
                >(columns_view(columns@)),
            decreases width - column,
        {
            let state: Reduced::State = match reduced.state(column) {
                Ok(state) => state,
                Err(error) => {
                    assert(false);
                    return Err(error);
                },
            };
            let row: usize = match parent.index(state) {
                Ok(row) => row,
                Err(error) => {
                    proof {
                        lemma_embedding_fails::<Reduced::State, S>(
                            states,
                            parents,
                            (column + 1) as nat,
                            states.len(),
                        );
                    }
                    return Err(error);
                },
            };
            proof {
                parent.states_distinct();
                lemma_index_is(parents, row as int);
            }
            let ghost before = columns_view(columns@);
            let mut entries: Vec<(usize, S)> = Vec::new();
            entries.push((row, S::one()));
            let ghost added = entries@;
            columns.push(entries);
            column += 1;
            proof {
                assert(added =~= seq![(row, S::spec_one())]);
                assert(columns_view(columns@) =~= before.push(added));
                lemma_start_same(before, columns_view(columns@), (column - 1) as nat);
            }
        }
        Self::from_columns(parent.len(), &columns)
    }

    /// Isometric lift from any basis into an explicitly selected parent basis.
    ///
    /// The reduced basis says how each parent state enters it.
    pub fn between<Reduced: Reduction, Parent: Basis<State = Reduced::State>>(
        reduced: &Reduced,
        parent: &Parent,
    ) -> (result: Result<Self>) where S: OrbitScalar<Reduced::Turned>
        requires
            reduced.wf(),
            reduced.faithful(),
            parent.wf(),
            reduced.spec_states().len() < usize::MAX,
        ensures
            projector_is(
                result,
                from_stated(
                    parent.spec_states().len() as usize,
                    lifted_columns::<Reduced, S>(
                        *reduced,
                        parent.spec_states(),
                        parent.spec_states().len(),
                    ),
                ),
            ),
    {
        let ghost states = reduced.spec_states();
        let ghost parents = parent.spec_states();
        let total: usize = parent.len();
        let width: usize = reduced.len();
        let mut columns: Vec<Vec<(usize, S)>> = empty_columns(width);
        let mut row: usize = 0;
        while row < total
            invariant
                row <= total,
                total == parents.len(),
                width == states.len(),
                width < usize::MAX,
                reduced.wf(),
                reduced.faithful(),
                parent.wf(),
                states == reduced.spec_states(),
                parents == parent.spec_states(),
                columns@.len() == width,
                column_start(columns_view(columns@), width as nat) <= row,
                lifted_columns::<Reduced, S>(*reduced, parents, row as nat) == Ok::<
                    Seq<Seq<(usize, S)>>,
                    QmbedError,
                >(columns_view(columns@)),
            decreases total - row,
        {
            let state: Reduced::State = match parent.state(row) {
                Ok(state) => state,
                Err(error) => {
                    assert(false);
                    return Err(error);
                },
            };
            match reduced.reduction_image(state) {
                Err(error) => {
                    proof {
                        lemma_lift_fails::<Reduced, S>(
                            *reduced,
                            parents,
                            (row + 1) as nat,
                            parents.len(),
                        );
                    }
                    return Err(error);
                },
                Ok(None) => {},
                Ok(Some(image)) => {
                    let column: usize = match reduced.index(*image.representative()) {
                        Ok(column) => column,
                        Err(error) => {
                            proof {
                                lemma_lift_fails::<Reduced, S>(
                                    *reduced,
                                    parents,
                                    (row + 1) as nat,
                                    parents.len(),
                                );
                            }
                            return Err(error);
                        },
                    };
                    proof {
                        reduced.states_distinct();
                        lemma_index_is(states, column as int);
                    }
                    if !S::holds_amplitude(image.phase(), image.orbit_size()) {
                        proof {
                            lemma_lift_fails::<Reduced, S>(
                                *reduced,
                                parents,
                                (row + 1) as nat,
                                parents.len(),
                            );
                        }
                        return Err(refuse_value());
                    }
                    let value: S = S::amplitude(image.phase(), image.orbit_size());
                    push_entry(&mut columns, column, (row, value));
                },
            }
            row += 1;
        }
        Self::from_columns(total, &columns)
    }
}

proof fn lemma_start_same<S>(
    left: Seq<Seq<(usize, S)>>,
    right: Seq<Seq<(usize, S)>>,
    count: nat,
)
    requires
        count <= left.len(),
        count <= right.len(),
        forall|c: int| 0 <= c < count ==> left[c] == #[trigger] right[c],
    ensures
        column_start(left, count) == column_start(right, count),
    decreases count,
{
    if count > 0 {
        lemma_start_same(left, right, (count - 1) as nat);
    }
}

impl<S: Scalar> BasisProjector<S> {
    /// Isometric lift of a symmetry sector into its parent basis.
    pub fn from_general<Parent: Basis, M>(basis: &GeneralBasis<Parent, M>) -> (result: Result<Self>) where
        Parent::State: Bounded,
        M: SymmetryMap<Parent::State>,
        S: OrbitScalar<M::Factor>,

        requires
            basis.wf(),
            basis.faithful(),
            basis.spec_states().len() < usize::MAX,
        ensures
            projector_is(
                result,
                from_stated(
                    basis.spec_parent().spec_states().len() as usize,
                    lifted_columns::<GeneralBasis<Parent, M>, S>(
                        *basis,
                        basis.spec_parent().spec_states(),
                        basis.spec_parent().spec_states().len(),
                    ),
                ),
            ),
    {
        proof {
            basis.lemma_parent_ready();
        }
        Self::between(basis, basis.parent())
    }
}

impl<S: Scalar> LinearOperator for BasisProjector<S> {
    type Value = S;

    open spec fn wf(&self) -> bool {
        self.valid()
    }

    open spec fn spec_rows(&self) -> usize {
        self@.rows
    }

    open spec fn spec_columns(&self) -> usize {
        self@.columns
    }

    open spec fn spec_apply(&self, input: Seq<S>) -> core::result::Result<Seq<S>, QmbedError> {
        Ok(linear::entries_apply(self@.entries, input, self@.rows as nat))
    }

    open spec fn spec_apply_adjoint(&self, input: Seq<S>) -> core::result::Result<
        Seq<S>,
        QmbedError,
    > {
        Ok(linear::entries_apply_adjoint(self@.entries, input, self@.columns as nat))
    }

    open spec fn spec_stored(&self) -> Option<Seq<(usize, usize, S)>> {
        Some(self@.entries)
    }

    proof fn images_fit(&self, input: Seq<S>) {
        linear::lemma_entries_apply(self@.entries, input, self@.rows, self@.columns);
    }

    fn shape(&self) -> (shape: (usize, usize)) {
        self.operator.shape()
    }

    fn apply(&self, input: &Vec<S>) -> (result: Result<Vec<S>>) {
        self.operator.apply(input)
    }

    fn apply_adjoint(&self, input: &Vec<S>) -> (result: Result<Vec<S>>) {
        self.operator.apply_adjoint(input)
    }

    fn stored_triplets(&self) -> (stored: Option<Vec<(usize, usize, S)>>) {
        self.operator.stored_triplets()
    }
}

/// Refusal of a vector of the wrong length.
pub open spec fn wrong_length() -> QmbedError {
    QmbedError::DimensionMismatch(Reason::Text("projector input or output length does not match"))
}

/// Image of a parent-space vector under the adjoint projector.
pub open spec fn projected_vector<S: Scalar>(model: OperatorModel<S>, parent: Seq<S>) -> core::result::Result<
    Seq<S>,
    QmbedError,
> {
    if parent.len() == model.rows {
        Ok(linear::entries_apply_adjoint(model.entries, parent, model.columns as nat))
    } else {
        Err(wrong_length())
    }
}

/// Image of a reduced vector in the parent space.
pub open spec fn lifted_vector<S: Scalar>(model: OperatorModel<S>, reduced: Seq<S>) -> core::result::Result<
    Seq<S>,
    QmbedError,
> {
    if reduced.len() == model.columns {
        Ok(linear::entries_apply(model.entries, reduced, model.rows as nat))
    } else {
        Err(wrong_length())
    }
}

/// Images of a list of vectors, where all of them have one, and the error of the first that has
/// none otherwise.
pub open spec fn batch_is<S>(
    result: Result<Vec<Vec<S>>>,
    images: spec_fn(int) -> core::result::Result<Seq<S>, QmbedError>,
    count: nat,
) -> bool {
    match result {
        Ok(list) => {
            &&& list@.len() == count
            &&& forall|k: int|
                0 <= k < count ==> images(k) == Ok::<Seq<S>, QmbedError>(
                    (#[trigger] list@[k])@,
                )
        },
        Err(error) => exists|k: int|
            0 <= k < count && first_failure(images, k) && #[trigger] images(k) == Err::<
                Seq<S>,
                QmbedError,
            >(error),
    }
}

/// Whether every vector before a place has an image.
pub open spec fn first_failure<S>(
    images: spec_fn(int) -> core::result::Result<Seq<S>, QmbedError>,
    place: int,
) -> bool {
    forall|j: int| 0 <= j < place ==> #[trigger] images(j) is Ok
}

impl<S: Scalar> BasisProjector<S> {
    /// The adjoint projector applied to a parent-space vector.
    pub fn projected(&self, parent: &Vec<S>) -> (result: Result<Vec<S>>)
        requires
            self.valid(),
        ensures
            linear::vector_is(result, projected_vector(self@, parent@)),
    {
        if parent.len() != self.source_dimension() {
            return Err(
                QmbedError::DimensionMismatch(Reason::Text("projector input or output length does not match")),
            );
        }
        self.operator.apply_adjoint(parent)
    }

    /// The projector applied to a reduced vector.
    pub fn lifted(&self, reduced: &Vec<S>) -> (result: Result<Vec<S>>)
        requires
            self.valid(),
        ensures
            linear::vector_is(result, lifted_vector(self@, reduced@)),
    {
        if reduced.len() != self.reduced_dimension() {
            return Err(
                QmbedError::DimensionMismatch(Reason::Text("projector input or output length does not match")),
            );
        }
        self.operator.apply(reduced)
    }

    /// The adjoint projector applied to a parent-space vector, written over another vector, which
    /// has to have the reduced dimension.
    pub fn project(&self, parent: &Vec<S>, reduced: &mut Vec<S>) -> (result: Result<()>)
        requires
            self.valid(),
        ensures
            match result {
                Ok(_) => {
                    &&& old(reduced)@.len() == self@.columns
                    &&& projected_vector(self@, parent@) == Ok::<Seq<S>, QmbedError>(
                        final(reduced)@,
                    )
                },
                Err(error) => {
                    &&& parent@.len() != self@.rows || old(reduced)@.len() != self@.columns
                    &&& error == wrong_length()
                    &&& final(reduced)@ == old(reduced)@
                },
            },
    {
        if reduced.len() != self.reduced_dimension() {
            return Err(
                QmbedError::DimensionMismatch(Reason::Text("projector input or output length does not match")),
            );
        }
        match self.projected(parent) {
            Ok(image) => {
                *reduced = image;
                Ok(())
            },
            Err(error) => Err(error),
        }
    }

    pub fn lift_batch(&self, reduced: &Vec<Vec<S>>) -> (result: Result<Vec<Vec<S>>>)
        requires
            self.valid(),
        ensures
            batch_is(
                result,
                |k: int| lifted_vector(self@, reduced@[k]@),
                reduced@.len(),
            ),
    {
        let ghost images = |k: int| lifted_vector(self@, reduced@[k]@);
        let mut list: Vec<Vec<S>> = Vec::new();
        let mut next: usize = 0;
        while next < reduced.len()
            invariant
                next <= reduced@.len(),
                self.valid(),
                images == (|k: int| lifted_vector(self@, reduced@[k]@)),
                list@.len() == next,
                forall|k: int|
                    0 <= k < next ==> images(k) == Ok::<Seq<S>, QmbedError>(
                        (#[trigger] list@[k])@,
                    ),
            decreases reduced@.len() - next,
        {
            match self.lifted(&reduced[next]) {
                Ok(vector) => {
                    list.push(vector);
                },
                Err(error) => {
                    assert(images(next as int) == Err::<Seq<S>, QmbedError>(error));
                    assert forall|j: int| 0 <= j < next implies #[trigger] images(j) is Ok by {
                        assert(list@[j]@ == list@[j]@);
                    }
                    return Err(error);
                },
            }
            next += 1;
        }
        Ok(list)
    }

    pub fn project_batch(&self, parent: &Vec<Vec<S>>) -> (result: Result<Vec<Vec<S>>>)
        requires
            self.valid(),
        ensures
            batch_is(
                result,
                |k: int| projected_vector(self@, parent@[k]@),
                parent@.len(),
            ),
    {
        let ghost images = |k: int| projected_vector(self@, parent@[k]@);
        let mut list: Vec<Vec<S>> = Vec::new();
        let mut next: usize = 0;
        while next < parent.len()
            invariant
                next <= parent@.len(),
                self.valid(),
                images == (|k: int| projected_vector(self@, parent@[k]@)),
                list@.len() == next,
                forall|k: int|
                    0 <= k < next ==> images(k) == Ok::<Seq<S>, QmbedError>(
                        (#[trigger] list@[k])@,
                    ),
            decreases parent@.len() - next,
        {
            match self.projected(&parent[next]) {
                Ok(vector) => {
                    list.push(vector);
                },
                Err(error) => {
                    assert(images(next as int) == Err::<Seq<S>, QmbedError>(error));
                    assert forall|j: int| 0 <= j < next implies #[trigger] images(j) is Ok by {
                        assert(list@[j]@ == list@[j]@);
                    }
                    return Err(error);
                },
            }
            next += 1;
        }
        Ok(list)
    }
}

/// A matrix with the share of one element of a reduced matrix, for one entry of its row and
/// the entries of its column from one place up to another.
pub open spec fn spread_right<S: Scalar>(
    matrix: Seq<S>,
    model: OperatorModel<S>,
    left: int,
    value: S,
    from: int,
    to: int,
) -> Seq<S>
    decreases to - from,
{
    if to <= from {
        matrix
    } else {
        let before = spread_right(matrix, model, left, value, from, to - 1);
        let place = model.entries[left].0 * model.rows + model.entries[to - 1].0;
        before.update(
            place,
            before[place].spec_plus(
                model.entries[left].2.spec_times(value).spec_times(
                    model.entries[to - 1].2.spec_conjugate(),
                ),
            ),
        )
    }
}

/// A matrix with the share of one element of a reduced matrix, for the entries of its row
/// from one place up to another.
pub open spec fn spread_left<S: Scalar>(
    matrix: Seq<S>,
    model: OperatorModel<S>,
    value: S,
    from: int,
    to: int,
    right_from: int,
    right_to: int,
) -> Seq<S>
    decreases to - from,
{
    if to <= from {
        matrix
    } else {
        spread_right(
            spread_left(matrix, model, value, from, to - 1, right_from, right_to),
            model,
            to - 1,
            value,
            right_from,
            right_to,
        )
    }
}

/// The lift of the first elements of a reduced matrix in row order; faint elements are left
/// out.
pub open spec fn spread<S: Normed>(
    model: OperatorModel<S>,
    offsets: Seq<usize>,
    reduced: Seq<S>,
    count: nat,
) -> Seq<S>
    decreases count,
{
    if count == 0 {
        linear::zeros(model.rows as nat * model.rows as nat)
    } else {
        let before = spread(model, offsets, reduced, (count - 1) as nat);
        let row = (count - 1) / model.columns as int;
        let column = (count - 1) % model.columns as int;
        let value = reduced[count - 1];
        if value.spec_is_faint() {
            before
        } else {
            spread_left(
                before,
                model,
                value,
                offsets[row] as int,
                offsets[row + 1] as int,
                offsets[column] as int,
                offsets[column + 1] as int,
            )
        }
    }
}

proof fn lemma_place(row: int, column: int, size: int)
    requires
        0 <= row < size,
        0 <= column < size,
    ensures
        0 <= row * size <= row * size + column < size * size,
{
    assert(0 <= row * size) by (nonlinear_arith)
        requires
            0 <= row,
            0 <= size,
    ;
    assert(row * size + column < size * size) by (nonlinear_arith)
        requires
            0 <= row < size,
            0 <= column < size,
    ;
}

impl<S: Normed> BasisProjector<S> {
    /// Adds the share of one element of a reduced matrix.
    fn add_share(
        &self,
        matrix: &mut Vec<S>,
        value: S,
        from: usize,
        to: usize,
        right_from: usize,
        right_to: usize,
    )
        requires
            self.valid(),
            from <= to <= self@.entries.len(),
            right_from <= right_to <= self@.entries.len(),
            self@.rows * self@.rows <= usize::MAX,
            old(matrix)@.len() == self@.rows * self@.rows,
        ensures
            final(matrix)@ == spread_left(
                old(matrix)@,
                self@,
                value,
                from as int,
                to as int,
                right_from as int,
                right_to as int,
            ),
            final(matrix)@.len() == old(matrix)@.len(),
    {
        let ghost start = matrix@;
        let ghost model = self@;
        let rows: usize = self.operator.rows();
        let entries: &Vec<(usize, usize, S)> = self.operator.triplets();
        let mut left: usize = from;
        while left < to
            invariant
                from <= left <= to,
                to <= model.entries.len(),
                right_from <= right_to <= model.entries.len(),
                model == self@,
                entries@ == model.entries,
                linear::entries_fit(model.entries, model.rows, model.columns),
                rows == model.rows,
                rows * rows <= usize::MAX,
                matrix@.len() == rows * rows,
                matrix@ == spread_left(
                    start,
                    model,
                    value,
                    from as int,
                    left as int,
                    right_from as int,
                    right_to as int,
                ),
            decreases to - left,
        {
            let ghost middle = matrix@;
            let mut right: usize = right_from;
            while right < right_to
                invariant
                    right_from <= right <= right_to,
                    right_to <= model.entries.len(),
                    left < to,
                    to <= model.entries.len(),
                    entries@ == model.entries,
                    linear::entries_fit(model.entries, model.rows, model.columns),
                    rows == model.rows,
                    rows * rows <= usize::MAX,
                    matrix@.len() == rows * rows,
                    matrix@ == spread_right(
                        middle,
                        model,
                        left as int,
                        value,
                        right_from as int,
                        right as int,
                    ),
                decreases right_to - right,
            {
                proof {
                    assert(model.entries[left as int].0 < rows);
                    assert(model.entries[right as int].0 < rows);
                    lemma_place(
                        model.entries[left as int].0 as int,
                        model.entries[right as int].0 as int,
                        rows as int,
                    );
                }
                let place: usize = entries[left].0 * rows + entries[right].0;
                let sum: S = matrix[place].plus(
                    &entries[left].2.times(&value).times(&entries[right].2.conjugate()),
                );
                matrix.set(place, sum);
                right += 1;
            }
            left += 1;
        }
    }

    /// Lift of a reduced density matrix in row order, `P ρ P†`.
    pub fn lift_density(&self, reduced: &Vec<S>) -> (result: Result<Vec<S>>)
        requires
            self.valid(),
            reduced@.len() == self@.columns * self@.columns ==> self@.rows * self@.rows
                <= usize::MAX,
        ensures
            linear::vector_is(
                result,
                if reduced@.len() == self@.columns * self@.columns {
                    Ok(spread(self@, self.spec_offsets(), reduced@, reduced@.len()))
                } else {
                    Err(
                        QmbedError::DimensionMismatch(
                            Reason::Text("reduced density matrix does not match the projector domain"),
                        ),
                    )
                },
            ),
    {
        let ghost model = self@;
        let ghost offsets = self.spec_offsets();
        let rows: usize = self.operator.rows();
        let width: usize = self.operator.columns();
        let given: usize = reduced.len();
        let fits: bool = match width.checked_mul(width) {
            Some(size) => given == size,
            None => false,
        };
        if !fits {
            return Err(
                QmbedError::DimensionMismatch(
                    Reason::Text("reduced density matrix does not match the projector domain"),
                ),
            );
        }
        let mut matrix: Vec<S> = linear::zero_vector(rows * rows);
        proof {
            assert(linear::zeros::<S>((rows * rows) as nat) =~= linear::zeros::<S>(
                rows as nat * rows as nat,
            ));
        }
        let mut next: usize = 0;
        while next < reduced.len()
            invariant
                next <= reduced@.len(),
                self.valid(),
                model == self@,
                offsets == self.spec_offsets(),
                offsets == self.offsets@,
                rows == model.rows,
                width == model.columns,
                rows * rows <= usize::MAX,
                reduced@.len() == width * width,
                matrix@.len() == rows * rows,
                matrix@ == spread(model, offsets, reduced@, next as nat),
            decreases reduced@.len() - next,
        {
            let value: S = reduced[next];
            if !value.is_faint() {
                proof {
                    assert(width > 0) by (nonlinear_arith)
                        requires
                            0 <= next < width * width,
                            width >= 0,
                    ;
                    vstd::arithmetic::div_mod::lemma_multiply_divide_lt(
                        next as int,
                        width as int,
                        width as int,
                    );
                    vstd::arithmetic::div_mod::lemma_mod_bound(next as int, width as int);
                }
                let row: usize = next / width;
                let column: usize = next % width;
                proof {
                    assert(offsets[row as int] <= offsets[row + 1]);
                    assert(offsets[column as int] <= offsets[column + 1]);
                    assert(offsets[row + 1] <= model.entries.len());
                    assert(offsets[column + 1] <= model.entries.len());
                }
                self.add_share(
                    &mut matrix,
                    value,
                    self.offsets[row],
                    self.offsets[row + 1],
                    self.offsets[column],
                    self.offsets[column + 1],
                );
            }
            next += 1;
        }
        Ok(matrix)
    }
}

/// Part of a vector that lies outside the projected space.
pub open spec fn outside<S: Normed>(model: OperatorModel<S>, vector: Seq<S>) -> Seq<S> {
    let inside = linear::entries_apply(
        model.entries,
        linear::entries_apply_adjoint(model.entries, vector, model.columns as nat),
        model.rows as nat,
    );
    Seq::new(vector.len(), |i: int| vector[i].spec_minus(inside[i]))
}

/// What an operator leads out of the projected space from its first unit vectors, one after
/// another.
pub open spec fn leakage<O: LinearOperator>(
    model: OperatorModel<O::Value>,
    operator: O,
    count: nat,
) -> core::result::Result<Seq<O::Value>, QmbedError> where O::Value: Normed
    decreases count,
{
    if count == 0 {
        Ok(Seq::empty())
    } else {
        match leakage(model, operator, (count - 1) as nat) {
            Err(error) => Err(error),
            Ok(before) => match operator.spec_apply(
                linear::entries_apply(
                    model.entries,
                    linear::unit(model.columns as nat, (count - 1) as nat),
                    model.rows as nat,
                ),
            ) {
                Err(error) => Err(error),
                Ok(image) => Ok(before + outside(model, image)),
            },
        }
    }
}

/// Norm of `(I - P P†) A P`, or what keeps it from existing.
pub open spec fn leakage_norm<O: LinearOperator>(
    model: OperatorModel<O::Value>,
    operator: O,
) -> core::result::Result<<O::Value as Scalar>::Size, QmbedError> where O::Value: Normed {
    if operator.spec_rows() != model.rows || operator.spec_columns() != model.rows {
        Err(
            QmbedError::DimensionMismatch(Reason::Text("symmetry check requires a square parent-space operator")),
        )
    } else {
        match leakage(model, operator, model.columns as nat) {
            Err(error) => Err(error),
            Ok(list) => Ok(<O::Value as Normed>::spec_norm(list)),
        }
    }
}

proof fn lemma_leakage_fails<O: LinearOperator>(
    model: OperatorModel<O::Value>,
    operator: O,
    count: nat,
    later: nat,
) where O::Value: Normed
    requires
        count <= later,
        leakage(model, operator, count) is Err,
    ensures
        leakage(model, operator, later) == leakage(model, operator, count),
    decreases later,
{
    if count < later {
        lemma_leakage_fails(model, operator, count, (later - 1) as nat);
    }
}

impl<S: Normed> BasisProjector<S> {
    /// Norm of `(I - P P†) A P`, found one reduced column at a time. Zero means that the
    /// operator keeps the projected space.
    pub fn symmetry_leakage_norm<O: LinearOperator<Value = S>>(&self, operator: &O) -> (result: Result<
        S::Size,
    >)
        requires
            self.valid(),
            operator.wf(),
        ensures
            result == leakage_norm(self@, *operator),
    {
        let ghost model = self@;
        let (rows, columns) = operator.shape();
        if rows != self.source_dimension() || columns != self.source_dimension() {
            return Err(
                QmbedError::DimensionMismatch(
                    Reason::Text("symmetry check requires a square parent-space operator"),
                ),
            );
        }
        let width: usize = self.reduced_dimension();
        let mut list: Vec<S> = Vec::new();
        let mut column: usize = 0;
        while column < width
            invariant
                column <= width,
                self.valid(),
                operator.wf(),
                model == self@,
                width == model.columns,
                operator.spec_rows() == model.rows,
                operator.spec_columns() == model.rows,
                leakage(model, *operator, column as nat) == Ok::<Seq<S>, QmbedError>(list@),
            decreases width - column,
        {
            let ghost before = list@;
            let unit: Vec<S> = unit_vector(width, column);
            proof {
                linear::lemma_entries_apply(model.entries, unit@, model.rows, model.columns);
            }
            let lifted: Vec<S> = match self.lifted(&unit) {
                Ok(lifted) => lifted,
                Err(error) => {
                    assert(false);
                    return Err(error);
                },
            };
            let image: Vec<S> = match operator.apply(&lifted) {
                Ok(image) => image,
                Err(error) => {
                    proof {
                        lemma_leakage_fails(
                            model,
                            *operator,
                            (column + 1) as nat,
                            width as nat,
                        );
                    }
                    return Err(error);
                },
            };
            proof {
                operator.images_fit(lifted@);
                linear::lemma_entries_apply(model.entries, image@, model.rows, model.columns);
            }
            let projected: Vec<S> = match self.projected(&image) {
                Ok(projected) => projected,
                Err(error) => {
                    assert(false);
                    return Err(error);
                },
            };
            proof {
                linear::lemma_entries_apply(model.entries, projected@, model.rows, model.columns);
            }
            let inside: Vec<S> = match self.lifted(&projected) {
                Ok(inside) => inside,
                Err(error) => {
                    assert(false);
                    return Err(error);
                },
            };
            let ghost part = outside(model, image@);
            assert(before + part.take(0) =~= before);
            let mut next: usize = 0;
            while next < image.len()
                invariant
                    next <= image@.len(),
                    image@.len() == inside@.len(),
                    part.len() == image@.len(),
                    forall|i: int|
                        0 <= i < part.len() ==> #[trigger] part[i] == image@[i].spec_minus(
                            inside@[i],
                        ),
                    list@ == before + part.take(next as int),
                decreases image@.len() - next,
            {
                list.push(image[next].minus(&inside[next]));
                next += 1;
                assert(list@ =~= before + part.take(next as int));
            }
            assert(part.take(next as int) =~= part);
            column += 1;
        }
        Ok(S::norm(&list))
    }

    /// Whether an operator keeps the projected space within a tolerance.
    pub fn preserves_operator_symmetry<O: LinearOperator<Value = S>>(
        &self,
        operator: &O,
        tolerance: S::Size,
    ) -> (result: Result<bool>)
        requires
            self.valid(),
            operator.wf(),
        ensures
            if S::spec_bearable(tolerance) {
                match leakage_norm(self@, *operator) {
                    Ok(norm) => result == Ok::<bool, QmbedError>(S::spec_within(norm, tolerance)),
                    Err(error) => result == Err::<bool, QmbedError>(error),
                }
            } else {
                result == Err::<bool, QmbedError>(
                    QmbedError::InvalidOptions(
                        Reason::Text("symmetry-check tolerance must be finite and nonnegative"),
                    ),
                )
            },
    {
        if !S::bearable(tolerance) {
            return Err(
                QmbedError::InvalidOptions(
                    Reason::Text("symmetry-check tolerance must be finite and nonnegative"),
                ),
            );
        }
        match self.symmetry_leakage_norm(operator) {
            Ok(norm) => Ok(S::within(norm, tolerance)),
            Err(error) => Err(error),
        }
    }
}

} // verus!

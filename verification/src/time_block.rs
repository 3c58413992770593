//! Direct sums of explicitly time-dependent sector operators.

use vstd::prelude::*;

use crate::block;
use crate::block::{append_moved, block_offsets, part};
use crate::error::{QmbedError, Reason, Result};
use crate::linear;
use crate::linear::{
    check_apply_shape, unit_vector, LinearOperator, MatrixFormat, Operator, Scalar,
};
use crate::projection;
use crate::projection::ProjectionLayout;

verus! {

/// Linear maps that depend on time.
pub trait TimeDependentOperator: Sized {
    /// Entries of the vectors.
    type Value: Scalar;

    /// Instants.
    type Time: Copy;

    /// The invariant that constructors establish.
    spec fn wf(&self) -> bool;

    spec fn spec_rows(&self) -> usize;

    spec fn spec_columns(&self) -> usize;

    /// Whether an instant is a number.
    spec fn spec_time_is_finite(time: Self::Time) -> bool;

    /// Image of a vector at an instant.
    spec fn spec_apply_at(
        &self,
        time: Self::Time,
        input: Seq<Self::Value>,
    ) -> core::result::Result<Seq<Self::Value>, QmbedError>;

    /// Images have the right lengths.
    proof fn images_fit(&self, time: Self::Time, input: Seq<Self::Value>)
        requires
            self.wf(),
            input.len() == self.spec_columns(),
        ensures
            block::fits(self.spec_apply_at(time, input), self.spec_rows() as nat),
    ;

    /// Numbers of rows and columns.
    fn shape(&self) -> (shape: (usize, usize))
        requires
            self.wf(),
        ensures
            shape == (self.spec_rows(), self.spec_columns()),
    ;

    /// Whether an instant is a number.
    fn time_is_finite(time: Self::Time) -> (answer: bool)
        ensures
            answer == Self::spec_time_is_finite(time),
    ;

    /// Image of a vector at an instant.
    fn apply_at(&self, time: Self::Time, input: &Vec<Self::Value>) -> (result: Result<
        Vec<Self::Value>,
    >)
        requires
            self.wf(),
        ensures
            linear::vector_is(result, self.spec_apply_at(time, input@)),
    ;
}

/// A sequence of operators, one for each step of a clock; the last one stays.
#[derive(Debug)]
pub struct SteppedOperator<O> {
    steps: Vec<O>,
}

impl<O: LinearOperator> SteppedOperator<O> {
    /// The operators in order.
    pub closed spec fn operators(&self) -> Seq<O> {
        self.steps@
    }

    /// Operators of one shape that satisfy their invariants.
    pub open spec fn valid(&self) -> bool {
        &&& self.operators().len() > 0
        &&& block::all_wf(self.operators())
        &&& forall|k: int|
            0 <= k < self.operators().len() ==> (#[trigger] self.operators()[k]).spec_rows()
                == self.operators()[0].spec_rows() && self.operators()[k].spec_columns()
                == self.operators()[0].spec_columns()
    }

    /// The operator in force at a step.
    pub open spec fn in_force(&self, time: u64) -> O {
        if time < self.operators().len() {
            self.operators()[time as int]
        } else {
            self.operators().last()
        }
    }

    /// The sequence of the given operators; `None` unless all have one shape.
    pub fn new(steps: Vec<O>) -> (result: Option<Self>)
        requires
            block::all_wf(steps@),
        ensures
            match result {
                Some(operator) => operator.valid() && operator.operators() == steps@,
                None => steps@.len() == 0 || exists|k: int|
                    0 <= k < steps@.len() && ((#[trigger] steps@[k]).spec_rows()
                        != steps@[0].spec_rows() || steps@[k].spec_columns()
                        != steps@[0].spec_columns()),
            },
    {
        if steps.len() == 0 {
            return None;
        }
        assert(steps@[0].wf());
        let shape: (usize, usize) = steps[0].shape();
        let mut next: usize = 0;
        while next < steps.len()
            invariant
                next <= steps@.len(),
                steps@.len() > 0,
                block::all_wf(steps@),
                shape == (steps@[0].spec_rows(), steps@[0].spec_columns()),
                forall|k: int|
                    0 <= k < next ==> (#[trigger] steps@[k]).spec_rows() == shape.0
                        && steps@[k].spec_columns() == shape.1,
            decreases steps@.len() - next,
        {
            assert(steps@[next as int].wf());
            let found: (usize, usize) = steps[next].shape();
            if found.0 != shape.0 || found.1 != shape.1 {
                return None;
            }
            next += 1;
        }
        Some(SteppedOperator { steps })
    }
}

impl<O: LinearOperator> TimeDependentOperator for SteppedOperator<O> {
    type Value = O::Value;

    type Time = u64;

    open spec fn wf(&self) -> bool {
        self.valid()
    }

    open spec fn spec_rows(&self) -> usize {
        self.operators()[0].spec_rows()
    }

    open spec fn spec_columns(&self) -> usize {
        self.operators()[0].spec_columns()
    }

    open spec fn spec_time_is_finite(time: u64) -> bool {
        true
    }

    open spec fn spec_apply_at(&self, time: u64, input: Seq<O::Value>) -> core::result::Result<
        Seq<O::Value>,
        QmbedError,
    > {
        if input.len() == self.spec_columns() {
            self.in_force(time).spec_apply(input)
        } else {
            Err(linear::input_refused(input.len(), self.spec_columns()))
        }
    }

    proof fn images_fit(&self, time: u64, input: Seq<O::Value>) {
        let place = if time < self.operators().len() {
            time as int
        } else {
            self.operators().len() - 1
        };
        assert(self.operators()[place].wf());
        self.operators()[place].images_fit(input);
    }

    fn shape(&self) -> (shape: (usize, usize)) {
        assert(self.operators()[0].wf());
        self.steps[0].shape()
    }

    fn time_is_finite(time: u64) -> (answer: bool) {
        true
    }

    fn apply_at(&self, time: u64, input: &Vec<O::Value>) -> (result: Result<Vec<O::Value>>) {
        let last: usize = self.steps.len() - 1;
        let place: usize = if time < last as u64 {
            time as usize
        } else {
            last
        };
        assert(self.operators()[place as int].wf());
        self.steps[place].apply(input)
    }
}

/// Whether every operator satisfies its invariant.
pub open spec fn all_wf<O: TimeDependentOperator>(blocks: Seq<O>) -> bool {
    forall|k: int| 0 <= k < blocks.len() ==> (#[trigger] blocks[k]).wf()
}

/// Shapes of operators.
pub open spec fn shapes_of<O: TimeDependentOperator>(blocks: Seq<O>) -> Seq<(usize, usize)> {
    Seq::new(blocks.len(), |k: int| (blocks[k].spec_rows(), blocks[k].spec_columns()))
}

/// Image of a vector under a direct sum at an instant.
pub open spec fn direct_sum_apply_at<O: TimeDependentOperator>(
    blocks: Seq<O>,
    time: O::Time,
    input: Seq<O::Value>,
) -> core::result::Result<Seq<O::Value>, QmbedError> {
    block::concatenated(
        |k: int| blocks[k].spec_apply_at(time, block::block_part(input, shapes_of(blocks), k)),
        blocks.len(),
    )
}

/// Entries of the first columns at an instant, found by unit vectors.
pub open spec fn probed_entries_at<O: TimeDependentOperator>(
    operator: O,
    time: O::Time,
    count: nat,
) -> core::result::Result<Seq<(usize, usize, O::Value)>, QmbedError>
    decreases count,
{
    if count == 0 {
        Ok(Seq::empty())
    } else {
        match probed_entries_at(operator, time, (count - 1) as nat) {
            Err(error) => Err(error),
            Ok(before) => match operator.spec_apply_at(
                time,
                linear::unit(operator.spec_columns() as nat, (count - 1) as nat),
            ) {
                Err(error) => Err(error),
                Ok(output) => Ok(
                    before + linear::column_entries(
                        (count - 1) as usize,
                        output,
                        operator.spec_rows() as nat,
                    ),
                ),
            },
        }
    }
}

proof fn lemma_probe_fails<O: TimeDependentOperator>(
    operator: O,
    time: O::Time,
    count: nat,
    later: nat,
)
    requires
        count <= later,
        probed_entries_at(operator, time, count) is Err,
    ensures
        probed_entries_at(operator, time, later) == probed_entries_at(operator, time, count),
    decreases later,
{
    if count < later {
        lemma_probe_fails(operator, time, count, (later - 1) as nat);
    }
}

/// Entries found by unit vectors lie inside the shape.
pub proof fn lemma_probed_entries_at<O: TimeDependentOperator>(
    operator: O,
    time: O::Time,
    count: nat,
)
    requires
        count <= operator.spec_columns(),
    ensures
        match probed_entries_at(operator, time, count) {
            Ok(entries) => linear::entries_fit(
                entries,
                operator.spec_rows(),
                operator.spec_columns(),
            ),
            Err(_) => true,
        },
    decreases count,
{
    if count > 0 {
        lemma_probed_entries_at(operator, time, (count - 1) as nat);
        if let Ok(output) = operator.spec_apply_at(
            time,
            linear::unit(operator.spec_columns() as nat, (count - 1) as nat),
        ) {
            linear::lemma_column_entries(
                (count - 1) as usize,
                output,
                operator.spec_rows() as nat,
                operator.spec_rows(),
                operator.spec_columns(),
            );
        }
    }
}

/// Entries of an operator at an instant, found by unit vectors.
pub fn streamed_triplets_at<O: TimeDependentOperator>(operator: &O, time: O::Time) -> (result:
    Result<Vec<(usize, usize, O::Value)>>)
    requires
        operator.wf(),
    ensures
        linear::vector_is(
            result,
            probed_entries_at(*operator, time, operator.spec_columns() as nat),
        ),
{
    let (rows, columns) = operator.shape();
    let mut entries: Vec<(usize, usize, O::Value)> = Vec::new();
    let mut column: usize = 0;
    while column < columns
        invariant
            column <= columns,
            operator.wf(),
            rows == operator.spec_rows(),
            columns == operator.spec_columns(),
            probed_entries_at(*operator, time, column as nat) == Ok::<
                Seq<(usize, usize, O::Value)>,
                QmbedError,
            >(entries@),
        decreases columns - column,
    {
        let input: Vec<O::Value> = unit_vector(columns, column);
        let ghost before = entries@;
        let output: Vec<O::Value> = match operator.apply_at(time, &input) {
            Ok(output) => output,
            Err(error) => {
                proof {
                    lemma_probe_fails(*operator, time, (column + 1) as nat, columns as nat);
                }
                return Err(error);
            },
        };
        proof {
            operator.images_fit(time, input@);
        }
        let mut row: usize = 0;
        assert(before + linear::column_entries::<O::Value>(column, output@, 0) =~= before);
        while row < rows
            invariant
                row <= rows,
                output@.len() == rows,
                entries@ == before + linear::column_entries(column, output@, row as nat),
            decreases rows - row,
        {
            let value: O::Value = output[row];
            if !value.is_negligible() {
                entries.push((row, column, value));
                assert(entries@ =~= before + linear::column_entries(
                    column,
                    output@,
                    (row + 1) as nat,
                ));
            }
            row += 1;
        }
        column += 1;
    }
    Ok(entries)
}

/// Entries of a direct sum at an instant.
pub open spec fn direct_sum_entries_at<O: TimeDependentOperator>(
    blocks: Seq<O>,
    time: O::Time,
    count: nat,
) -> core::result::Result<Seq<(usize, usize, O::Value)>, QmbedError> {
    block::concatenated(
        |k: int|
            match probed_entries_at(blocks[k], time, blocks[k].spec_columns() as nat) {
                Ok(entries) => Ok(
                    block::moved(entries, block::offset(shapes_of(blocks), k as nat)),
                ),
                Err(error) => Err(error),
            },
        count,
    )
}

proof fn lemma_direct_sum_entries_at<O: TimeDependentOperator>(
    blocks: Seq<O>,
    time: O::Time,
    count: nat,
)
    requires
        count <= blocks.len(),
        forall|k: int|
            0 <= k < blocks.len() ==> (#[trigger] shapes_of(blocks)[k]).0 == shapes_of(blocks)[k].1,
        block::offset(shapes_of(blocks), blocks.len()) <= usize::MAX,
    ensures
        match direct_sum_entries_at(blocks, time, count) {
            Ok(entries) => linear::entries_fit(
                entries,
                block::offset(shapes_of(blocks), count) as usize,
                block::offset(shapes_of(blocks), count) as usize,
            ),
            Err(_) => true,
        },
    decreases count,
{
    let shapes = shapes_of(blocks);
    if count > 0 {
        let last = count - 1;
        lemma_direct_sum_entries_at(blocks, time, last as nat);
        block::lemma_offset_order(shapes, count, blocks.len());
        block::lemma_offset_order(shapes, last as nat, count);
        assert(shapes[last].0 == shapes[last].1);
        lemma_probed_entries_at(blocks[last], time, blocks[last].spec_columns() as nat);
        if let Ok(entries) = probed_entries_at(
            blocks[last],
            time,
            blocks[last].spec_columns() as nat,
        ) {
            let shifted = block::moved(entries, block::offset(shapes, last as nat));
            assert forall|i: int| 0 <= i < shifted.len() implies (#[trigger] shifted[i]).0
                < block::offset(shapes, count) && shifted[i].1 < block::offset(shapes, count) by {
                assert(entries[i].0 < blocks[last].spec_rows());
            }
        }
    }
}

fn list_shapes<O: TimeDependentOperator>(blocks: &Vec<O>) -> (shapes: Vec<(usize, usize)>)
    requires
        all_wf(blocks@),
    ensures
        shapes@ == shapes_of(blocks@),
{
    let mut shapes: Vec<(usize, usize)> = Vec::new();
    let mut next: usize = 0;
    while next < blocks.len()
        invariant
            next <= blocks@.len(),
            all_wf(blocks@),
            shapes@.len() == next,
            forall|k: int| 0 <= k < next ==> #[trigger] shapes@[k] == shapes_of(blocks@)[k],
        decreases blocks@.len() - next,
    {
        assert(blocks@[next as int].wf());
        shapes.push(blocks[next].shape());
        next += 1;
    }
    assert(shapes@ =~= shapes_of(blocks@));
    shapes
}

proof fn lemma_part_fits<O: TimeDependentOperator>(
    blocks: Seq<O>,
    time: O::Time,
    input: Seq<O::Value>,
    place: int,
)
    requires
        0 <= place < blocks.len(),
        all_wf(blocks),
        shapes_of(blocks)[place].0 == shapes_of(blocks)[place].1,
        input.len() == block::offset(shapes_of(blocks), blocks.len()),
    ensures
        blocks[place].wf(),
        block::block_part(input, shapes_of(blocks), place).len() == blocks[place].spec_columns(),
        block::fits(
            blocks[place].spec_apply_at(
                time,
                block::block_part(input, shapes_of(blocks), place),
            ),
            blocks[place].spec_rows() as nat,
        ),
{
    let shapes = shapes_of(blocks);
    block::lemma_offset_order(shapes, place as nat, (place + 1) as nat);
    block::lemma_offset_order(shapes, (place + 1) as nat, blocks.len());
    assert(blocks[place].wf());
    blocks[place].images_fit(time, block::block_part(input, shapes, place));
}

/// Delayed direct sum of explicitly time-dependent blocks.
#[derive(Debug)]
pub struct DynamicBlockOps<O> {
    blocks: Vec<O>,
    offsets: Vec<usize>,
}

impl<O: TimeDependentOperator> DynamicBlockOps<O> {
    /// The summands.
    pub closed spec fn parts(&self) -> Seq<O> {
        self.blocks@
    }

    /// Square blocks that satisfy their invariants, with the places where they start.
    pub closed spec fn valid(&self) -> bool {
        &&& self.blocks@.len() > 0
        &&& all_wf(self.blocks@)
        &&& block::offsets_of(self.offsets@, shapes_of(self.blocks@))
        &&& block::direct_sum_error(shapes_of(self.blocks@)) is None
    }

    /// The direct sum of the given blocks.
    pub fn new(blocks: Vec<O>) -> (result: Result<Self>)
        requires
            all_wf(blocks@),
        ensures
            match result {
                Ok(sum) => {
                    &&& sum.valid()
                    &&& sum.parts() == blocks@
                    &&& block::direct_sum_error(shapes_of(blocks@)) is None
                },
                Err(error) => block::direct_sum_error(shapes_of(blocks@)) == Some(error),
            },
    {
        match block_offsets(&list_shapes(&blocks)) {
            Ok(offsets) => Ok(DynamicBlockOps { blocks, offsets }),
            Err(error) => Err(error),
        }
    }

    /// Number of blocks.
    pub fn blocks(&self) -> (count: usize)
        ensures
            count == self.parts().len(),
    {
        self.blocks.len()
    }

    /// Adds a block at the end.
    pub fn push(&mut self, added: O) -> (result: Result<()>)
        requires
            old(self).valid(),
            added.wf(),
        ensures
            final(self).valid(),
            match result {
                Ok(_) => {
                    &&& block::direct_sum_error(shapes_of(old(self).parts().push(added))) is None
                    &&& final(self).parts() == old(self).parts().push(added)
                },
                Err(error) => {
                    &&& block::direct_sum_error(shapes_of(old(self).parts().push(added)))
                        == Some(error)
                    &&& *final(self) == *old(self)
                },
            },
    {
        let (rows, columns) = added.shape();
        let ghost before = shapes_of(self.blocks@);
        let ghost after = shapes_of(self.blocks@.push(added));
        let ghost count = self.blocks@.len();
        proof {
            block::lemma_longer_shapes(before, after);
            block::lemma_offset_prefix(before, after, count);
            assert(after[count as int] == (rows, columns));
            assert(self.offsets@[count as int] == block::offset(before, count));
        }
        if rows != columns {
            return Err(
                QmbedError::DimensionMismatch(Reason::Text("block-diagonal operators require square blocks")),
            );
        }
        let end: usize = self.offsets[self.blocks.len()];
        let next: usize = match end.checked_add(rows) {
            Some(next) => next,
            None => {
                return Err(QmbedError::UnsupportedBackend(Reason::Text("block dimension overflow")));
            },
        };
        self.blocks.push(added);
        self.offsets.push(next);
        proof {
            assert(shapes_of(self.blocks@) =~= after);
            assert forall|k: int| 0 <= k < self.offsets@.len() implies #[trigger] self.offsets@[k]
                == block::offset(after, k as nat) by {
                if k <= count {
                    block::lemma_offset_prefix(before, after, k as nat);
                }
            }
            assert forall|k: int| 0 <= k < after.len() implies (#[trigger] after[k]).0
                == after[k].1 by {
                if k < count {
                    assert(before[k].0 == before[k].1);
                    assert(before[k] == after[k]);
                }
            }
        }
        Ok(())
    }

    /// Stored matrix of the direct sum at an instant.
    pub fn materialize(&self, time: O::Time, format: MatrixFormat) -> (result: Result<
        Operator<O::Value>,
    >)
        requires
            self.valid(),
        ensures
            match result {
                Ok(operator) => {
                    &&& O::spec_time_is_finite(time)
                    &&& operator.valid()
                    &&& operator@.rows == block::offset(
                        shapes_of(self.parts()),
                        self.parts().len(),
                    )
                    &&& operator@.columns == operator@.rows
                    &&& operator@.format == format
                    &&& direct_sum_entries_at(self.parts(), time, self.parts().len()) == Ok::<
                        Seq<(usize, usize, O::Value)>,
                        QmbedError,
                    >(operator@.entries)
                },
                Err(error) => if O::spec_time_is_finite(time) {
                    direct_sum_entries_at(self.parts(), time, self.parts().len()) == Err::<
                        Seq<(usize, usize, O::Value)>,
                        QmbedError,
                    >(error)
                } else {
                    error == QmbedError::InvalidOptions(
                        Reason::Text("dynamic block materialization time must be finite"),
                    )
                },
            },
    {
        if !O::time_is_finite(time) {
            return Err(
                QmbedError::InvalidOptions(Reason::Text("dynamic block materialization time must be finite")),
            );
        }
        let ghost blocks = self.blocks@;
        let ghost shapes = shapes_of(blocks);
        let ghost image = |k: int|
            match probed_entries_at(blocks[k], time, blocks[k].spec_columns() as nat) {
                Ok(entries) => Ok(
                    block::moved(entries, block::offset(shapes_of(blocks), k as nat)),
                ),
                Err(error) => Err(error),
            };
        let dimension: usize = self.offsets[self.blocks.len()];
        let mut entries: Vec<(usize, usize, O::Value)> = Vec::new();
        let mut next: usize = 0;
        while next < self.blocks.len()
            invariant
                next <= blocks.len(),
                blocks == self.blocks@,
                shapes == shapes_of(blocks),
                self.valid(),
                O::spec_time_is_finite(time),
                image == (|k: int|
                    match probed_entries_at(blocks[k], time, blocks[k].spec_columns() as nat) {
                        Ok(entries) => Ok(
                            block::moved(entries, block::offset(shapes_of(blocks), k as nat)),
                        ),
                        Err(error) => Err(error),
                    }),
                block::concatenated(image, next as nat) == Ok::<
                    Seq<(usize, usize, O::Value)>,
                    QmbedError,
                >(entries@),
            decreases blocks.len() - next,
        {
            assert(blocks[next as int].wf());
            let (rows, _columns) = self.blocks[next].shape();
            proof {
                assert(shapes[next as int].0 == shapes[next as int].1);
                assert(self.offsets@[next as int] == block::offset(shapes, next as nat));
                assert(self.offsets@[next + 1] == block::offset(shapes, (next + 1) as nat));
                lemma_probed_entries_at(
                    blocks[next as int],
                    time,
                    blocks[next as int].spec_columns() as nat,
                );
            }
            match streamed_triplets_at(&self.blocks[next], time) {
                Ok(block_entries) => {
                    append_moved(&mut entries, &block_entries, self.offsets[next], rows);
                },
                Err(error) => {
                    proof {
                        assert(image(next as int) == Err::<
                            Seq<(usize, usize, O::Value)>,
                            QmbedError,
                        >(error));
                        block::lemma_concatenated_fails(image, (next + 1) as nat, blocks.len());
                    }
                    return Err(error);
                },
            }
            next += 1;
        }
        proof {
            assert(self.offsets@[blocks.len() as int] == block::offset(shapes, blocks.len()));
            lemma_direct_sum_entries_at(blocks, time, blocks.len());
        }
        Operator::from_triplets(dimension, dimension, entries, format)
    }
}

impl<O: TimeDependentOperator> TimeDependentOperator for DynamicBlockOps<O> {
    type Value = O::Value;

    type Time = O::Time;

    open spec fn wf(&self) -> bool {
        self.valid()
    }

    open spec fn spec_rows(&self) -> usize {
        block::offset(shapes_of(self.parts()), self.parts().len()) as usize
    }

    open spec fn spec_columns(&self) -> usize {
        block::offset(shapes_of(self.parts()), self.parts().len()) as usize
    }

    open spec fn spec_time_is_finite(time: O::Time) -> bool {
        O::spec_time_is_finite(time)
    }

    open spec fn spec_apply_at(&self, time: O::Time, input: Seq<O::Value>) -> core::result::Result<
        Seq<O::Value>,
        QmbedError,
    > {
        if input.len() == self.spec_columns() {
            direct_sum_apply_at(self.parts(), time, input)
        } else {
            Err(linear::input_refused(input.len(), self.spec_columns()))
        }
    }

    proof fn images_fit(&self, time: O::Time, input: Seq<O::Value>) {
        let blocks = self.parts();
        let shapes = shapes_of(blocks);
        let count = blocks.len();
        assert(self.offsets@[count as int] == block::offset(shapes, count));
        let image = |k: int| blocks[k].spec_apply_at(time, block::block_part(input, shapes, k));
        assert forall|k: int| 0 <= k < count implies block::fits(
            #[trigger] image(k),
            shapes[k].0 as nat,
        ) by {
            lemma_part_fits(blocks, time, input, k);
        }
        block::lemma_concatenated_length(image, shapes, count);
    }

    fn shape(&self) -> (shape: (usize, usize)) {
        let dimension: usize = self.offsets[self.blocks.len()];
        (dimension, dimension)
    }

    fn time_is_finite(time: O::Time) -> (answer: bool) {
        O::time_is_finite(time)
    }

    fn apply_at(&self, time: O::Time, input: &Vec<O::Value>) -> (result: Result<Vec<O::Value>>) {
        let dimension: usize = self.offsets[self.blocks.len()];
        if let Err(error) = check_apply_shape(input, dimension) {
            return Err(error);
        }
        let ghost blocks = self.blocks@;
        let ghost shapes = shapes_of(blocks);
        let ghost image = |k: int|
            blocks[k].spec_apply_at(time, block::block_part(input@, shapes, k));
        let mut output: Vec<O::Value> = Vec::new();
        let mut next: usize = 0;
        assert(self.offsets@[blocks.len() as int] == block::offset(shapes, blocks.len()));
        while next < self.blocks.len()
            invariant
                next <= blocks.len(),
                blocks == self.blocks@,
                shapes == shapes_of(blocks),
                self.valid(),
                input@.len() == block::offset(shapes, blocks.len()),
                image == (|k: int|
                    blocks[k].spec_apply_at(time, block::block_part(input@, shapes, k))),
                block::concatenated(image, next as nat) == Ok::<Seq<O::Value>, QmbedError>(
                    output@,
                ),
            decreases blocks.len() - next,
        {
            proof {
                assert(shapes[next as int].0 == shapes[next as int].1);
                lemma_part_fits(blocks, time, input@, next as int);
                block::lemma_offset_order(shapes, next as nat, (next + 1) as nat);
                block::lemma_offset_order(shapes, (next + 1) as nat, blocks.len());
                assert(self.offsets@[next as int] == block::offset(shapes, next as nat));
                assert(self.offsets@[next + 1] == block::offset(shapes, (next + 1) as nat));
            }
            let piece: Vec<O::Value> = part(input, self.offsets[next], self.offsets[next + 1]);
            match self.blocks[next].apply_at(time, &piece) {
                Ok(mut image_part) => {
                    output.append(&mut image_part);
                },
                Err(error) => {
                    proof {
                        assert(image(next as int) == Err::<Seq<O::Value>, QmbedError>(error));
                        block::lemma_concatenated_fails(image, (next + 1) as nat, blocks.len());
                    }
                    return Err(error);
                },
            }
            next += 1;
        }
        Ok(output)
    }
}

/// `P (⊕ H(t)) P†` on a vector.
pub open spec fn projected_apply_at<
    O: TimeDependentOperator,
    P: LinearOperator<Value = O::Value>,
>(blocks: Seq<O>, projectors: Seq<P>, time: O::Time, input: Seq<O::Value>) -> core::result::Result<
    Seq<O::Value>,
    QmbedError,
> {
    if !O::spec_time_is_finite(time) {
        Err(QmbedError::InvalidOptions(Reason::Text("dynamic block evaluation time must be finite")))
    } else {
        match projection::projected(projectors, input) {
            Err(error) => Err(error),
            Ok(coordinates) => match direct_sum_apply_at(blocks, time, coordinates) {
                Err(error) => Err(error),
                Ok(images) => projection::lifted(projectors, images),
            },
        }
    }
}

/// Time-dependent sector operators lifted into a shared parent space.
#[derive(Debug)]
pub struct ProjectedDynamicBlockOps<O, P> {
    blocks: DynamicBlockOps<O>,
    projection: ProjectionLayout<P>,
}

impl<O: TimeDependentOperator, P: LinearOperator<Value = O::Value>> ProjectedDynamicBlockOps<
    O,
    P,
> {
    /// The sector operators.
    pub closed spec fn parts(&self) -> Seq<O> {
        self.blocks.parts()
    }

    /// The projectors.
    pub closed spec fn projectors(&self) -> Seq<P> {
        self.projection.parts()
    }

    /// Blocks and projectors that fit together.
    pub closed spec fn valid(&self) -> bool {
        &&& self.blocks.valid()
        &&& self.projection.valid()
        &&& shapes_of(self.blocks.parts()) == projection::block_shapes(self.projection.parts())
    }

    /// The sectors with the given operators and projectors.
    pub fn new(
        blocks: Vec<O>,
        projectors: Vec<P>,
        tolerance: <O::Value as Scalar>::Size,
    ) -> (result: Result<Self>)
        requires
            all_wf(blocks@),
            block::all_wf(projectors@),
        ensures
            match result {
                Ok(operator) => {
                    &&& projection::projection_error(
                        shapes_of(blocks@),
                        projectors@,
                        tolerance,
                    ) is None
                    &&& operator.valid()
                    &&& operator.parts() == blocks@
                    &&& operator.projectors() == projectors@
                },
                Err(error) => projection::projection_error(
                    shapes_of(blocks@),
                    projectors@,
                    tolerance,
                ) == Some(error),
            },
    {
        let shapes: Vec<(usize, usize)> = list_shapes(&blocks);
        match ProjectionLayout::new(&shapes, projectors, tolerance) {
            Ok(projection) => match DynamicBlockOps::new(blocks) {
                Ok(blocks) => Ok(ProjectedDynamicBlockOps { blocks, projection }),
                Err(error) => Err(error),
            },
            Err(error) => Err(error),
        }
    }

    /// Number of blocks.
    pub fn blocks(&self) -> (count: usize)
        ensures
            count == self.parts().len(),
    {
        self.blocks.blocks()
    }

    /// Dimension of the parent space.
    pub fn full_dimension(&self) -> (dimension: usize)
        requires
            self.valid(),
        ensures
            dimension == self.projectors()[0].spec_rows(),
    {
        self.projection.full_dimension()
    }

    /// Sum of the block dimensions.
    pub fn block_dimension(&self) -> (dimension: usize)
        requires
            self.valid(),
        ensures
            dimension == projection::block_total(self.projectors()),
    {
        self.projection.block_dimension()
    }

    /// Coordinates of a parent vector in all blocks.
    pub fn project(&self, parent: &Vec<O::Value>) -> (result: Result<Vec<O::Value>>)
        requires
            self.valid(),
        ensures
            linear::vector_is(
                result,
                if parent@.len() == self.projectors()[0].spec_rows() {
                    projection::projected(self.projectors(), parent@)
                } else {
                    Err(
                        QmbedError::DimensionMismatch(Reason::Length {
                            what: "parent vector",
                            found: parent@.len() as usize,
                            expected: self.projectors()[0].spec_rows(),
                        }),
                    )
                },
            ),
    {
        self.projection.project(parent)
    }

    /// The parent vector with the given coordinates.
    pub fn lift(&self, blocks: &Vec<O::Value>) -> (result: Result<Vec<O::Value>>)
        requires
            self.valid(),
        ensures
            linear::vector_is(
                result,
                if blocks@.len() == projection::block_total(self.projectors()) {
                    projection::lifted(self.projectors(), blocks@)
                } else {
                    Err(
                        QmbedError::DimensionMismatch(Reason::Length {
                            what: "block vector",
                            found: blocks@.len() as usize,
                            expected: projection::block_total(self.projectors()) as usize,
                        }),
                    )
                },
            ),
    {
        self.projection.lift(blocks)
    }

    /// The largest entry of `P P† - 1`.
    pub fn completeness_residual(&self) -> (result: Result<<O::Value as Scalar>::Size>)
        requires
            self.valid(),
        ensures
            result == projection::residual(
                self.projectors(),
                self.projectors()[0].spec_rows() as nat,
            ),
    {
        self.projection.completeness_residual()
    }

    /// Stored matrix of the operator on the parent space at an instant.
    pub fn materialize(&self, time: O::Time, format: MatrixFormat) -> (result: Result<
        Operator<O::Value>,
    >)
        requires
            self.valid(),
        ensures
            match result {
                Ok(operator) => {
                    &&& operator.valid()
                    &&& operator@.rows == self.projectors()[0].spec_rows()
                    &&& operator@.columns == self.projectors()[0].spec_rows()
                    &&& operator@.format == format
                    &&& probed_entries_at(
                        *self,
                        time,
                        self.projectors()[0].spec_rows() as nat,
                    ) == Ok::<Seq<(usize, usize, O::Value)>, QmbedError>(operator@.entries)
                },
                Err(error) => probed_entries_at(
                    *self,
                    time,
                    self.projectors()[0].spec_rows() as nat,
                ) == Err::<Seq<(usize, usize, O::Value)>, QmbedError>(error),
            },
    {
        let dimension: usize = self.full_dimension();
        match streamed_triplets_at(self, time) {
            Ok(entries) => {
                proof {
                    lemma_probed_entries_at(*self, time, dimension as nat);
                }
                Operator::from_triplets(dimension, dimension, entries, format)
            },
            Err(error) => Err(error),
        }
    }
}

impl<
    O: TimeDependentOperator,
    P: LinearOperator<Value = O::Value>,
> TimeDependentOperator for ProjectedDynamicBlockOps<O, P> {
    type Value = O::Value;

    type Time = O::Time;

    open spec fn wf(&self) -> bool {
        self.valid()
    }

    open spec fn spec_rows(&self) -> usize {
        self.projectors()[0].spec_rows()
    }

    open spec fn spec_columns(&self) -> usize {
        self.projectors()[0].spec_rows()
    }

    open spec fn spec_time_is_finite(time: O::Time) -> bool {
        O::spec_time_is_finite(time)
    }

    open spec fn spec_apply_at(&self, time: O::Time, input: Seq<O::Value>) -> core::result::Result<
        Seq<O::Value>,
        QmbedError,
    > {
        if O::spec_time_is_finite(time) && input.len() != self.spec_columns() {
            Err(linear::input_refused(input.len(), self.spec_columns()))
        } else {
            projected_apply_at(self.parts(), self.projectors(), time, input)
        }
    }

    proof fn images_fit(&self, time: O::Time, input: Seq<O::Value>) {
        if let Ok(coordinates) = projection::projected(self.projectors(), input) {
            if let Ok(images) = direct_sum_apply_at(self.parts(), time, coordinates) {
                self.projection.lemma_lengths(images);
            }
        }
    }

    fn shape(&self) -> (shape: (usize, usize)) {
        let dimension: usize = self.full_dimension();
        (dimension, dimension)
    }

    fn time_is_finite(time: O::Time) -> (answer: bool) {
        O::time_is_finite(time)
    }

    fn apply_at(&self, time: O::Time, input: &Vec<O::Value>) -> (result: Result<Vec<O::Value>>) {
        if !O::time_is_finite(time) {
            return Err(QmbedError::InvalidOptions(Reason::Text("dynamic block evaluation time must be finite")));
        }
        if let Err(error) = check_apply_shape(input, self.full_dimension()) {
            return Err(error);
        }
        proof {
            self.projection.lemma_lengths(input@);
        }
        let coordinates: Vec<O::Value> = match self.projection.project(input) {
            Ok(coordinates) => coordinates,
            Err(error) => {
                return Err(error);
            },
        };
        let images: Vec<O::Value> = match self.blocks.apply_at(time, &coordinates) {
            Ok(images) => images,
            Err(error) => {
                return Err(error);
            },
        };
        proof {
            self.blocks.images_fit(time, coordinates@);
        }
        self.projection.lift(&images)
    }
}

} // verus!

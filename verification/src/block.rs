//! Direct sums of sector operators, alone and lifted into a parent space.

use vstd::prelude::*;

use crate::error::{QmbedError, Reason, Result};
use crate::linear;
use crate::linear::{
    check_apply_shape, streamed_triplets, LinearOperator, MatrixFormat, Operator, Scalar,
};

verus! {

/// Where a block starts, given the shapes of the blocks before it.
pub open spec fn offset(shapes: Seq<(usize, usize)>, block: nat) -> nat
    decreases block,
{
    if block == 0 {
        0
    } else {
        offset(shapes, (block - 1) as nat) + shapes[block - 1].0 as nat
    }
}

/// What is wrong with the first blocks of a direct sum, if anything.
pub open spec fn shapes_error(shapes: Seq<(usize, usize)>, count: nat) -> Option<QmbedError>
    decreases count,
{
    if count == 0 {
        None
    } else {
        match shapes_error(shapes, (count - 1) as nat) {
            Some(error) => Some(error),
            None => if shapes[count - 1].0 != shapes[count - 1].1 {
                Some(
                    QmbedError::DimensionMismatch(Reason::Text("block-diagonal operators require square blocks")),
                )
            } else if offset(shapes, count) > usize::MAX {
                Some(QmbedError::UnsupportedBackend(Reason::Text("block dimension overflow")))
            } else {
                None
            },
        }
    }
}

/// What is wrong with the blocks of a direct sum, if anything.
pub open spec fn direct_sum_error(shapes: Seq<(usize, usize)>) -> Option<QmbedError> {
    match shapes_error(shapes, shapes.len()) {
        Some(error) => Some(error),
        None => if shapes.len() == 0 {
            Some(QmbedError::InvalidOptions(Reason::Text("at least one operator block is required")))
        } else {
            None
        },
    }
}

/// Whether a list holds the start of every block and the end of the last.
pub open spec fn offsets_of(offsets: Seq<usize>, shapes: Seq<(usize, usize)>) -> bool {
    &&& offsets.len() == shapes.len() + 1
    &&& forall|k: int| 0 <= k < offsets.len() ==> #[trigger] offsets[k] == offset(shapes, k as nat)
    &&& forall|k: int| 0 <= k < shapes.len() ==> (#[trigger] shapes[k]).0 == shapes[k].1
}

proof fn lemma_shapes_error(shapes: Seq<(usize, usize)>, count: nat, later: nat)
    requires
        count <= later,
        shapes_error(shapes, count) is Some,
    ensures
        shapes_error(shapes, later) == shapes_error(shapes, count),
    decreases later,
{
    if count < later {
        lemma_shapes_error(shapes, count, (later - 1) as nat);
    }
}

/// Starts do not decrease.
pub proof fn lemma_offset_order(shapes: Seq<(usize, usize)>, block: nat, later: nat)
    requires
        block <= later,
    ensures
        offset(shapes, block) <= offset(shapes, later),
    decreases later,
{
    if block < later {
        lemma_offset_order(shapes, block, (later - 1) as nat);
    }
}

pub proof fn lemma_offset_prefix(shapes: Seq<(usize, usize)>, longer: Seq<(usize, usize)>, block: nat)
    requires
        block <= shapes.len() <= longer.len(),
        forall|k: int| 0 <= k < shapes.len() ==> #[trigger] shapes[k] == longer[k],
    ensures
        offset(shapes, block) == offset(longer, block),
    decreases block,
{
    if block > 0 {
        lemma_offset_prefix(shapes, longer, (block - 1) as nat);
        assert(shapes[block - 1] == longer[block - 1]);
    }
}

/// Starts of the blocks of a direct sum, and its dimension.
pub fn block_offsets(shapes: &Vec<(usize, usize)>) -> (result: Result<Vec<usize>>)
    ensures
        match result {
            Ok(offsets) => {
                &&& direct_sum_error(shapes@) is None
                &&& offsets_of(offsets@, shapes@)
            },
            Err(error) => direct_sum_error(shapes@) == Some(error),
        },
{
    let mut offsets: Vec<usize> = Vec::new();
    offsets.push(0);
    let mut total: usize = 0;
    let mut next: usize = 0;
    while next < shapes.len()
        invariant
            next <= shapes@.len(),
            shapes_error(shapes@, next as nat) is None,
            total == offset(shapes@, next as nat),
            offsets@.len() == next + 1,
            forall|k: int| 0 <= k <= next ==> #[trigger] offsets@[k] == offset(shapes@, k as nat),
            forall|k: int| 0 <= k < next ==> (#[trigger] shapes@[k]).0 == shapes@[k].1,
        decreases shapes@.len() - next,
    {
        let (rows, columns) = shapes[next];
        if rows != columns {
            proof {
                lemma_shapes_error(shapes@, (next + 1) as nat, shapes@.len());
            }
            return Err(
                QmbedError::DimensionMismatch(Reason::Text("block-diagonal operators require square blocks")),
            );
        }
        match total.checked_add(rows) {
            Some(sum) => {
                total = sum;
            },
            None => {
                proof {
                    lemma_shapes_error(shapes@, (next + 1) as nat, shapes@.len());
                }
                return Err(QmbedError::UnsupportedBackend(Reason::Text("block dimension overflow")));
            },
        }
        offsets.push(total);
        next += 1;
    }
    if shapes.len() == 0 {
        return Err(QmbedError::InvalidOptions(Reason::Text("at least one operator block is required")));
    }
    Ok(offsets)
}

/// The given vectors in a row, up to the first that fails.
pub open spec fn concatenated<S>(
    image: spec_fn(int) -> core::result::Result<Seq<S>, QmbedError>,
    count: nat,
) -> core::result::Result<Seq<S>, QmbedError>
    decreases count,
{
    if count == 0 {
        Ok(Seq::empty())
    } else {
        match concatenated(image, (count - 1) as nat) {
            Err(error) => Err(error),
            Ok(before) => match image(count - 1) {
                Err(error) => Err(error),
                Ok(vector) => Ok(before + vector),
            },
        }
    }
}

/// The sum of the given vectors, up to the first that fails.
pub open spec fn accumulated<S: Scalar>(
    image: spec_fn(int) -> core::result::Result<Seq<S>, QmbedError>,
    length: nat,
    count: nat,
) -> core::result::Result<Seq<S>, QmbedError>
    decreases count,
{
    if count == 0 {
        Ok(linear::zeros(length))
    } else {
        match accumulated(image, length, (count - 1) as nat) {
            Err(error) => Err(error),
            Ok(before) => match image(count - 1) {
                Err(error) => Err(error),
                Ok(vector) => Ok(linear::vector_sum(before, vector)),
            },
        }
    }
}

pub proof fn lemma_concatenated_fails<S>(
    image: spec_fn(int) -> core::result::Result<Seq<S>, QmbedError>,
    count: nat,
    later: nat,
)
    requires
        count <= later,
        concatenated(image, count) is Err,
    ensures
        concatenated(image, later) == concatenated(image, count),
    decreases later,
{
    if count < later {
        lemma_concatenated_fails(image, count, (later - 1) as nat);
    }
}

pub proof fn lemma_accumulated_fails<S: Scalar>(
    image: spec_fn(int) -> core::result::Result<Seq<S>, QmbedError>,
    length: nat,
    count: nat,
    later: nat,
)
    requires
        count <= later,
        accumulated(image, length, count) is Err,
    ensures
        accumulated(image, length, later) == accumulated(image, length, count),
    decreases later,
{
    if count < later {
        lemma_accumulated_fails(image, length, count, (later - 1) as nat);
    }
}

pub proof fn lemma_accumulated_length<S: Scalar>(
    image: spec_fn(int) -> core::result::Result<Seq<S>, QmbedError>,
    length: nat,
    count: nat,
)
    ensures
        match accumulated(image, length, count) {
            Ok(sum) => sum.len() == length,
            Err(_) => true,
        },
    decreases count,
{
    if count > 0 {
        lemma_accumulated_length(image, length, (count - 1) as nat);
    }
}

/// The same vectors give the same row.
pub proof fn lemma_concatenated_same<S>(
    left: spec_fn(int) -> core::result::Result<Seq<S>, QmbedError>,
    right: spec_fn(int) -> core::result::Result<Seq<S>, QmbedError>,
    count: nat,
)
    requires
        forall|k: int| 0 <= k < count ==> #[trigger] left(k) == right(k),
    ensures
        concatenated(left, count) == concatenated(right, count),
    decreases count,
{
    if count > 0 {
        lemma_concatenated_same(left, right, (count - 1) as nat);
        assert(left(count - 1) == right(count - 1));
    }
}

/// Whether an image has a given length, unless it fails.
pub open spec fn fits<S>(image: core::result::Result<Seq<S>, QmbedError>, length: nat) -> bool {
    match image {
        Ok(vector) => vector.len() == length,
        Err(_) => true,
    }
}

pub proof fn lemma_concatenated_length<S>(
    image: spec_fn(int) -> core::result::Result<Seq<S>, QmbedError>,
    shapes: Seq<(usize, usize)>,
    count: nat,
)
    requires
        count <= shapes.len(),
        forall|k: int| 0 <= k < count ==> fits(#[trigger] image(k), shapes[k].0 as nat),
    ensures
        fits(concatenated(image, count), offset(shapes, count)),
    decreases count,
{
    if count > 0 {
        lemma_concatenated_length(image, shapes, (count - 1) as nat);
        assert(fits(image(count - 1), shapes[count - 1].0 as nat));
    }
}

/// Entries from `start` to `end`.
pub(crate) fn part<S: Copy>(vector: &Vec<S>, start: usize, end: usize) -> (piece: Vec<S>)
    requires
        start <= end <= vector@.len(),
    ensures
        piece@ == vector@.subrange(start as int, end as int),
{
    let mut piece: Vec<S> = Vec::new();
    let mut next: usize = start;
    while next < end
        invariant
            start <= next <= end <= vector@.len(),
            piece@ == vector@.subrange(start as int, next as int),
        decreases end - next,
    {
        piece.push(vector[next]);
        next += 1;
        assert(piece@ =~= vector@.subrange(start as int, next as int));
    }
    piece
}

/// Shapes of operators.
pub open spec fn shapes_of<O: LinearOperator>(blocks: Seq<O>) -> Seq<(usize, usize)> {
    Seq::new(blocks.len(), |k: int| (blocks[k].spec_rows(), blocks[k].spec_columns()))
}

pub(crate) fn list_shapes<O: LinearOperator>(blocks: &Vec<O>) -> (shapes: Vec<(usize, usize)>)
    requires
        all_wf(blocks@),
    ensures
        shapes@ == shapes_of(blocks@),
{
    let mut shapes: Vec<(usize, usize)> = Vec::new();
    let mut next: usize = 0;
    while next < blocks.len()
        invariant
            next <= blocks@.len(),
            all_wf(blocks@),
            shapes@.len() == next,
            forall|k: int| 0 <= k < next ==> #[trigger] shapes@[k] == shapes_of(blocks@)[k],
        decreases blocks@.len() - next,
    {
        assert(blocks@[next as int].wf());
        shapes.push(blocks[next].shape());
        next += 1;
    }
    assert(shapes@ =~= shapes_of(blocks@));
    shapes
}

/// The part of a vector that belongs to a block.
pub open spec fn block_part<S>(vector: Seq<S>, shapes: Seq<(usize, usize)>, block: int) -> Seq<S> {
    vector.subrange(
        offset(shapes, block as nat) as int,
        offset(shapes, (block + 1) as nat) as int,
    )
}

/// Whether every operator satisfies its invariant.
pub open spec fn all_wf<O: LinearOperator>(blocks: Seq<O>) -> bool {
    forall|k: int| 0 <= k < blocks.len() ==> (#[trigger] blocks[k]).wf()
}

/// Image of a vector under a direct sum.
pub open spec fn direct_sum_apply<O: LinearOperator>(
    blocks: Seq<O>,
    input: Seq<O::Value>,
) -> core::result::Result<Seq<O::Value>, QmbedError> {
    concatenated(
        |k: int| blocks[k].spec_apply(block_part(input, shapes_of(blocks), k)),
        blocks.len(),
    )
}

/// Image of a vector under the adjoint of a direct sum.
pub open spec fn direct_sum_adjoint<O: LinearOperator>(
    blocks: Seq<O>,
    input: Seq<O::Value>,
) -> core::result::Result<Seq<O::Value>, QmbedError> {
    concatenated(
        |k: int| blocks[k].spec_apply_adjoint(block_part(input, shapes_of(blocks), k)),
        blocks.len(),
    )
}

/// Entries moved down and to the right.
pub open spec fn moved<S>(entries: Seq<(usize, usize, S)>, offset: nat) -> Seq<(usize, usize, S)> {
    Seq::new(
        entries.len(),
        |i: int|
            ((entries[i].0 + offset) as usize, (entries[i].1 + offset) as usize, entries[i].2),
    )
}

/// Entries of a direct sum.
pub open spec fn direct_sum_entries<O: LinearOperator>(
    blocks: Seq<O>,
    count: nat,
) -> core::result::Result<Seq<(usize, usize, O::Value)>, QmbedError> {
    concatenated(
        |k: int|
            match linear::entries_of(blocks[k]) {
                Ok(entries) => Ok(moved(entries, offset(shapes_of(blocks), k as nat))),
                Err(error) => Err(error),
            },
        count,
    )
}

/// Appends entries moved down and to the right.
pub(crate) fn append_moved<S: Copy>(
    target: &mut Vec<(usize, usize, S)>,
    entries: &Vec<(usize, usize, S)>,
    offset: usize,
    dimension: usize,
)
    requires
        linear::entries_fit(entries@, dimension, dimension),
        offset + dimension <= usize::MAX,
    ensures
        final(target)@ == old(target)@ + moved(entries@, offset as nat),
{
    let ghost before = target@;
    let mut next: usize = 0;
    assert(before + moved(entries@, offset as nat).take(0) =~= before);
    while next < entries.len()
        invariant
            next <= entries@.len(),
            linear::entries_fit(entries@, dimension, dimension),
            offset + dimension <= usize::MAX,
            target@ == before + moved(entries@, offset as nat).take(next as int),
        decreases entries@.len() - next,
    {
        let (row, column, value) = entries[next];
        proof {
            assert(entries@[next as int].0 < dimension);
        }
        target.push((offset + row, offset + column, value));
        next += 1;
        assert(target@ =~= before + moved(entries@, offset as nat).take(next as int));
    }
    assert(moved(entries@, offset as nat).take(next as int) =~= moved(entries@, offset as nat));
}

proof fn lemma_direct_sum_entries<O: LinearOperator>(blocks: Seq<O>, count: nat)
    requires
        all_wf(blocks),
        count <= blocks.len(),
        shapes_error(shapes_of(blocks), blocks.len()) is None,
        forall|k: int|
            0 <= k < blocks.len() ==> (#[trigger] shapes_of(blocks)[k]).0 == shapes_of(blocks)[k].1,
        offset(shapes_of(blocks), blocks.len()) <= usize::MAX,
    ensures
        match direct_sum_entries(blocks, count) {
            Ok(entries) => linear::entries_fit(
                entries,
                offset(shapes_of(blocks), count) as usize,
                offset(shapes_of(blocks), count) as usize,
            ),
            Err(_) => true,
        },
    decreases count,
{
    let shapes = shapes_of(blocks);
    if count > 0 {
        let last = count - 1;
        lemma_direct_sum_entries(blocks, last as nat);
        lemma_offset_order(shapes, count, blocks.len());
        lemma_offset_order(shapes, last as nat, count);
        assert(blocks[last].wf());
        assert(shapes[last].0 == shapes[last].1);
        linear::lemma_entries_of(blocks[last]);
        if let Ok(entries) = linear::entries_of(blocks[last]) {
            let shifted = moved(entries, offset(shapes, last as nat));
            assert forall|i: int| 0 <= i < shifted.len() implies (#[trigger] shifted[i]).0 < offset(
                shapes,
                count,
            ) && shifted[i].1 < offset(shapes, count) by {
                assert(entries[i].0 < blocks[last].spec_rows());
            }
        }
    }
}

/// Stored matrix of a direct sum.
pub fn block_diag_hamiltonian<O: LinearOperator>(blocks: &Vec<O>, format: MatrixFormat) -> (result:
    Result<Operator<O::Value>>)
    requires
        all_wf(blocks@),
    ensures
        match result {
            Ok(operator) => {
                &&& direct_sum_error(shapes_of(blocks@)) is None
                &&& operator.valid()
                &&& operator@.rows == offset(shapes_of(blocks@), blocks@.len())
                &&& operator@.columns == operator@.rows
                &&& operator@.format == format
                &&& direct_sum_entries(blocks@, blocks@.len()) == Ok::<
                    Seq<(usize, usize, O::Value)>,
                    QmbedError,
                >(operator@.entries)
            },
            Err(error) => match direct_sum_error(shapes_of(blocks@)) {
                Some(expected) => error == expected,
                None => direct_sum_entries(blocks@, blocks@.len()) == Err::<
                    Seq<(usize, usize, O::Value)>,
                    QmbedError,
                >(error),
            },
        },
{
    let ghost shapes = shapes_of(blocks@);
    let offsets: Vec<usize> = match block_offsets(&list_shapes(blocks)) {
        Ok(offsets) => offsets,
        Err(error) => {
            return Err(error);
        },
    };
    let ghost image = |k: int|
        match linear::entries_of(blocks@[k]) {
            Ok(entries) => Ok(moved(entries, offset(shapes_of(blocks@), k as nat))),
            Err(error) => Err(error),
        };
    let dimension: usize = offsets[blocks.len()];
    let mut triplets: Vec<(usize, usize, O::Value)> = Vec::new();
    let mut next: usize = 0;
    while next < blocks.len()
        invariant
            next <= blocks@.len(),
            all_wf(blocks@),
            shapes == shapes_of(blocks@),
            offsets_of(offsets@, shapes),
            direct_sum_error(shapes) is None,
            image == (|k: int|
                match linear::entries_of(blocks@[k]) {
                    Ok(entries) => Ok(moved(entries, offset(shapes_of(blocks@), k as nat))),
                    Err(error) => Err(error),
                }),
            concatenated(image, next as nat) == Ok::<Seq<(usize, usize, O::Value)>, QmbedError>(
                triplets@,
            ),
        decreases blocks@.len() - next,
    {
        assert(blocks@[next as int].wf());
        let (rows, _columns) = blocks[next].shape();
        proof {
            assert(shapes[next as int].0 == shapes[next as int].1);
            assert(offsets@[next as int] == offset(shapes, next as nat));
            assert(offsets@[next + 1] == offset(shapes, (next + 1) as nat));
            linear::lemma_entries_of(blocks@[next as int]);
        }
        match streamed_triplets(&blocks[next]) {
            Ok(entries) => {
                append_moved(&mut triplets, &entries, offsets[next], rows);
            },
            Err(error) => {
                proof {
                    assert(image(next as int) == Err::<
                        Seq<(usize, usize, O::Value)>,
                        QmbedError,
                    >(error));
                    lemma_concatenated_fails(image, (next + 1) as nat, blocks@.len());
                }
                return Err(error);
            },
        }
        next += 1;
    }
    proof {
        assert(offsets@[blocks@.len() as int] == offset(shapes, blocks@.len()));
        lemma_direct_sum_entries(blocks@, blocks@.len());
    }
    Operator::from_triplets(dimension, dimension, triplets, format)
}

/// Whether every operator stores its entries.
pub open spec fn all_stored<O: LinearOperator>(blocks: Seq<O>, count: nat) -> bool {
    forall|k: int| 0 <= k < count ==> (#[trigger] blocks[k]).spec_stored() is Some
}

/// Delayed direct sum of operators.
#[derive(Debug)]
pub struct BlockOps<O> {
    blocks: Vec<O>,
    offsets: Vec<usize>,
}

impl<O: LinearOperator> BlockOps<O> {
    /// The summands.
    pub closed spec fn parts(&self) -> Seq<O> {
        self.blocks@
    }

    /// Square blocks that satisfy their invariants, with the places where they start.
    pub closed spec fn valid(&self) -> bool {
        &&& self.blocks@.len() > 0
        &&& all_wf(self.blocks@)
        &&& offsets_of(self.offsets@, shapes_of(self.blocks@))
        &&& direct_sum_error(shapes_of(self.blocks@)) is None
    }

    /// The direct sum of the given blocks.
    pub fn new(blocks: Vec<O>) -> (result: Result<Self>)
        requires
            all_wf(blocks@),
        ensures
            match result {
                Ok(sum) => {
                    &&& sum.valid()
                    &&& sum.parts() == blocks@
                    &&& direct_sum_error(shapes_of(blocks@)) is None
                },
                Err(error) => direct_sum_error(shapes_of(blocks@)) == Some(error),
            },
    {
        match block_offsets(&list_shapes(&blocks)) {
            Ok(offsets) => Ok(BlockOps { blocks, offsets }),
            Err(error) => Err(error),
        }
    }

    /// Number of blocks.
    pub fn blocks(&self) -> (count: usize)
        ensures
            count == self.parts().len(),
    {
        self.blocks.len()
    }

    /// Stored matrix of the direct sum.
    pub fn materialize(&self, format: MatrixFormat) -> (result: Result<Operator<O::Value>>)
        requires
            self.valid(),
        ensures
            match result {
                Ok(operator) => {
                    &&& operator.valid()
                    &&& operator@.rows == offset(shapes_of(self.parts()), self.parts().len())
                    &&& operator@.columns == operator@.rows
                    &&& operator@.format == format
                    &&& direct_sum_entries(self.parts(), self.parts().len()) == Ok::<
                        Seq<(usize, usize, O::Value)>,
                        QmbedError,
                    >(operator@.entries)
                },
                Err(error) => direct_sum_entries(self.parts(), self.parts().len()) == Err::<
                    Seq<(usize, usize, O::Value)>,
                    QmbedError,
                >(error),
            },
    {
        block_diag_hamiltonian(&self.blocks, format)
    }

    /// Adds a block at the end.
    pub fn push(&mut self, block: O) -> (result: Result<()>)
        requires
            old(self).valid(),
            block.wf(),
        ensures
            final(self).valid(),
            match result {
                Ok(_) => {
                    &&& direct_sum_error(shapes_of(old(self).parts().push(block))) is None
                    &&& final(self).parts() == old(self).parts().push(block)
                },
                Err(error) => {
                    &&& direct_sum_error(shapes_of(old(self).parts().push(block))) == Some(error)
                    &&& *final(self) == *old(self)
                },
            },
    {
        let (rows, columns) = block.shape();
        let ghost before = shapes_of(self.blocks@);
        let ghost after = shapes_of(self.blocks@.push(block));
        let ghost count = self.blocks@.len();
        proof {
            lemma_longer_shapes(before, after);
            lemma_offset_prefix(before, after, count);
            assert(after[count as int] == (rows, columns));
            assert(self.offsets@[count as int] == offset(before, count));
        }
        if rows != columns {
            return Err(
                QmbedError::DimensionMismatch(Reason::Text("block-diagonal operators require square blocks")),
            );
        }
        let end: usize = self.offsets[self.blocks.len()];
        let next: usize = match end.checked_add(rows) {
            Some(next) => next,
            None => {
                return Err(QmbedError::UnsupportedBackend(Reason::Text("block dimension overflow")));
            },
        };
        self.blocks.push(block);
        self.offsets.push(next);
        proof {
            assert(shapes_of(self.blocks@) =~= after);
            assert forall|k: int| 0 <= k < self.offsets@.len() implies #[trigger] self.offsets@[k]
                == offset(after, k as nat) by {
                if k <= count {
                    lemma_offset_prefix(before, after, k as nat);
                }
            }
            assert forall|k: int| 0 <= k < after.len() implies (#[trigger] after[k]).0
                == after[k].1 by {
                if k < count {
                    assert(before[k].0 == before[k].1);
                    assert(before[k] == after[k]);
                }
            }
        }
        Ok(())
    }
}

pub proof fn lemma_longer_shapes(shapes: Seq<(usize, usize)>, longer: Seq<(usize, usize)>)
    requires
        direct_sum_error(shapes) is None,
        longer.len() == shapes.len() + 1,
        forall|k: int| 0 <= k < shapes.len() ==> #[trigger] shapes[k] == longer[k],
    ensures
        shapes_error(longer, shapes.len()) is None,
{
    lemma_shapes_prefix(shapes, longer, shapes.len());
}

proof fn lemma_shapes_prefix(
    shapes: Seq<(usize, usize)>,
    longer: Seq<(usize, usize)>,
    count: nat,
)
    requires
        count <= shapes.len() <= longer.len(),
        forall|k: int| 0 <= k < shapes.len() ==> #[trigger] shapes[k] == longer[k],
    ensures
        shapes_error(longer, count) == shapes_error(shapes, count),
    decreases count,
{
    if count > 0 {
        lemma_shapes_prefix(shapes, longer, (count - 1) as nat);
        lemma_offset_prefix(shapes, longer, count);
        assert(shapes[count - 1] == longer[count - 1]);
    }
}

impl<O: LinearOperator> LinearOperator for BlockOps<O> {
    type Value = O::Value;

    open spec fn wf(&self) -> bool {
        self.valid()
    }

    open spec fn spec_rows(&self) -> usize {
        offset(shapes_of(self.parts()), self.parts().len()) as usize
    }

    open spec fn spec_columns(&self) -> usize {
        offset(shapes_of(self.parts()), self.parts().len()) as usize
    }

    open spec fn spec_apply(&self, input: Seq<O::Value>) -> core::result::Result<
        Seq<O::Value>,
        QmbedError,
    > {
        direct_sum_apply(self.parts(), input)
    }

    open spec fn spec_apply_adjoint(&self, input: Seq<O::Value>) -> core::result::Result<
        Seq<O::Value>,
        QmbedError,
    > {
        direct_sum_adjoint(self.parts(), input)
    }

    open spec fn spec_stored(&self) -> Option<Seq<(usize, usize, O::Value)>> {
        if all_stored(self.parts(), self.parts().len()) {
            match direct_sum_entries(self.parts(), self.parts().len()) {
                Ok(entries) => Some(entries),
                Err(_) => None,
            }
        } else {
            None
        }
    }

    proof fn images_fit(&self, input: Seq<O::Value>) {
        let blocks = self.parts();
        let shapes = shapes_of(blocks);
        let count = blocks.len();
        assert(self.offsets@[count as int] == offset(shapes, count));
        lemma_direct_sum_entries(blocks, count);
        if input.len() == offset(shapes, count) {
            let forward = |k: int| blocks[k].spec_apply(block_part(input, shapes, k));
            let backward = |k: int| blocks[k].spec_apply_adjoint(block_part(input, shapes, k));
            assert forall|k: int| 0 <= k < count implies fits(
                #[trigger] forward(k),
                shapes[k].0 as nat,
            ) by {
                lemma_part_fits(blocks, input, k);
            }
            assert forall|k: int| 0 <= k < count implies fits(
                #[trigger] backward(k),
                shapes[k].0 as nat,
            ) by {
                lemma_part_fits(blocks, input, k);
            }
            lemma_concatenated_length(forward, shapes, count);
            lemma_concatenated_length(backward, shapes, count);
        }
    }

    fn shape(&self) -> (shape: (usize, usize)) {
        let dimension: usize = self.dimension();
        (dimension, dimension)
    }

    fn apply(&self, input: &Vec<O::Value>) -> (result: Result<Vec<O::Value>>) {
        if let Err(error) = check_apply_shape(input, self.dimension()) {
            return Err(error);
        }
        apply_parts(&self.blocks, &self.offsets, input)
    }

    fn apply_adjoint(&self, input: &Vec<O::Value>) -> (result: Result<Vec<O::Value>>) {
        if let Err(error) = check_apply_shape(input, self.dimension()) {
            return Err(error);
        }
        let ghost blocks = self.blocks@;
        let ghost shapes = shapes_of(blocks);
        let ghost image = |k: int| blocks[k].spec_apply_adjoint(block_part(input@, shapes, k));
        let mut output: Vec<O::Value> = Vec::new();
        let mut next: usize = 0;
        while next < self.blocks.len()
            invariant
                next <= blocks.len(),
                blocks == self.blocks@,
                shapes == shapes_of(blocks),
                self.valid(),
                input@.len() == offset(shapes, blocks.len()),
                image == (|k: int| blocks[k].spec_apply_adjoint(block_part(input@, shapes, k))),
                concatenated(image, next as nat) == Ok::<Seq<O::Value>, QmbedError>(output@),
            decreases blocks.len() - next,
        {
            proof {
                lemma_part_fits(blocks, input@, next as int);
                lemma_offset_order(shapes, next as nat, (next + 1) as nat);
                lemma_offset_order(shapes, (next + 1) as nat, blocks.len());
                assert(self.offsets@[next as int] == offset(shapes, next as nat));
                assert(self.offsets@[next + 1] == offset(shapes, (next + 1) as nat));
            }
            let piece: Vec<O::Value> = part(input, self.offsets[next], self.offsets[next + 1]);
            match self.blocks[next].apply_adjoint(&piece) {
                Ok(mut image_part) => {
                    output.append(&mut image_part);
                },
                Err(error) => {
                    proof {
                        assert(image(next as int) == Err::<Seq<O::Value>, QmbedError>(error));
                        lemma_concatenated_fails(image, (next + 1) as nat, blocks.len());
                    }
                    return Err(error);
                },
            }
            next += 1;
        }
        Ok(output)
    }

    fn stored_triplets(&self) -> (stored: Option<Vec<(usize, usize, O::Value)>>) {
        let ghost blocks = self.blocks@;
        let ghost shapes = shapes_of(blocks);
        let ghost image = |k: int|
            match linear::entries_of(blocks[k]) {
                Ok(entries) => Ok(moved(entries, offset(shapes_of(blocks), k as nat))),
                Err(error) => Err(error),
            };
        let mut entries: Vec<(usize, usize, O::Value)> = Vec::new();
        let mut next: usize = 0;
        while next < self.blocks.len()
            invariant
                next <= blocks.len(),
                blocks == self.blocks@,
                shapes == shapes_of(blocks),
                self.valid(),
                image == (|k: int|
                    match linear::entries_of(blocks[k]) {
                        Ok(entries) => Ok(moved(entries, offset(shapes_of(blocks), k as nat))),
                        Err(error) => Err(error),
                    }),
                all_stored(blocks, next as nat),
                concatenated(image, next as nat) == Ok::<
                    Seq<(usize, usize, O::Value)>,
                    QmbedError,
                >(entries@),
            decreases blocks.len() - next,
        {
            assert(blocks[next as int].wf());
            let (rows, _columns) = self.blocks[next].shape();
            proof {
                assert(shapes[next as int].0 == shapes[next as int].1);
                assert(self.offsets@[next as int] == offset(shapes, next as nat));
                assert(self.offsets@[next + 1] == offset(shapes, (next + 1) as nat));
                linear::lemma_entries_of(blocks[next as int]);
            }
            match self.blocks[next].stored_triplets() {
                Some(block_entries) => {
                    append_moved(&mut entries, &block_entries, self.offsets[next], rows);
                },
                None => {
                    assert(blocks[next as int].spec_stored() is None);
                    return None;
                },
            }
            next += 1;
        }
        Some(entries)
    }
}

impl<O: LinearOperator> BlockOps<O> {
    /// Sum of the block dimensions.
    fn dimension(&self) -> (dimension: usize)
        requires
            self.valid(),
        ensures
            dimension == offset(shapes_of(self.parts()), self.parts().len()) as usize,
    {
        self.offsets[self.blocks.len()]
    }
}

proof fn lemma_part_fits<O: LinearOperator>(blocks: Seq<O>, input: Seq<O::Value>, block: int)
    requires
        0 <= block < blocks.len(),
        all_wf(blocks),
        shapes_of(blocks)[block].0 == shapes_of(blocks)[block].1,
        input.len() == offset(shapes_of(blocks), blocks.len()),
    ensures
        blocks[block].wf(),
        block_part(input, shapes_of(blocks), block).len() == blocks[block].spec_columns(),
        block_part(input, shapes_of(blocks), block).len() == blocks[block].spec_rows(),
        fits(
            blocks[block].spec_apply(block_part(input, shapes_of(blocks), block)),
            blocks[block].spec_rows() as nat,
        ),
        fits(
            blocks[block].spec_apply_adjoint(block_part(input, shapes_of(blocks), block)),
            blocks[block].spec_rows() as nat,
        ),
{
    let shapes = shapes_of(blocks);
    lemma_offset_order(shapes, block as nat, (block + 1) as nat);
    lemma_offset_order(shapes, (block + 1) as nat, blocks.len());
    assert(blocks[block].wf());
    blocks[block].images_fit(block_part(input, shapes, block));
}

/// Image of a vector under a direct sum.
fn apply_parts<O: LinearOperator>(
    blocks: &Vec<O>,
    offsets: &Vec<usize>,
    input: &Vec<O::Value>,
) -> (result: Result<Vec<O::Value>>)
    requires
        all_wf(blocks@),
        offsets_of(offsets@, shapes_of(blocks@)),
        input@.len() == offset(shapes_of(blocks@), blocks@.len()),
    ensures
        linear::vector_is(result, direct_sum_apply(blocks@, input@)),
{
    let ghost shapes = shapes_of(blocks@);
    let ghost image = |k: int| blocks@[k].spec_apply(block_part(input@, shapes, k));
    let mut output: Vec<O::Value> = Vec::new();
    let mut next: usize = 0;
    while next < blocks.len()
        invariant
            next <= blocks@.len(),
            shapes == shapes_of(blocks@),
            all_wf(blocks@),
            offsets_of(offsets@, shapes),
            input@.len() == offset(shapes, blocks@.len()),
            image == (|k: int| blocks@[k].spec_apply(block_part(input@, shapes, k))),
            concatenated(image, next as nat) == Ok::<Seq<O::Value>, QmbedError>(output@),
        decreases blocks@.len() - next,
    {
        proof {
            assert(shapes[next as int].0 == shapes[next as int].1);
            lemma_part_fits(blocks@, input@, next as int);
            lemma_offset_order(shapes, next as nat, (next + 1) as nat);
            lemma_offset_order(shapes, (next + 1) as nat, blocks@.len());
            assert(offsets@[next as int] == offset(shapes, next as nat));
            assert(offsets@[next + 1] == offset(shapes, (next + 1) as nat));
        }
        let piece: Vec<O::Value> = part(input, offsets[next], offsets[next + 1]);
        match blocks[next].apply(&piece) {
            Ok(mut image_part) => {
                output.append(&mut image_part);
            },
            Err(error) => {
                proof {
                    assert(image(next as int) == Err::<Seq<O::Value>, QmbedError>(error));
                    lemma_concatenated_fails(image, (next + 1) as nat, blocks@.len());
                }
                return Err(error);
            },
        }
        next += 1;
    }
    Ok(output)
}

proof fn lemma_more_rows<S: Scalar>(
    entries: Seq<(usize, usize, S)>,
    input: Seq<S>,
    rows: nat,
    added: nat,
)
    requires
        forall|i: int| 0 <= i < entries.len() ==> (#[trigger] entries[i]).0 < rows,
    ensures
        linear::entries_apply(entries, input, rows + added) == linear::entries_apply(
            entries,
            input,
            rows,
        ) + linear::zeros(added),
        linear::entries_apply(entries, input, rows).len() == rows,
    decreases entries.len(),
{
    if entries.len() == 0 {
        assert(linear::zeros::<S>(rows + added) =~= linear::zeros::<S>(rows) + linear::zeros::<S>(
            added,
        ));
    } else {
        let shorter = entries.drop_last();
        assert forall|i: int| 0 <= i < shorter.len() implies (#[trigger] shorter[i]).0 < rows by {
            assert(entries[i].0 < rows);
        }
        lemma_more_rows(shorter, input, rows, added);
        let last = entries[entries.len() - 1];
        assert(last.0 < rows);
        assert(linear::entries_apply(entries, input, rows + added) =~= linear::entries_apply(
            entries,
            input,
            rows,
        ) + linear::zeros(added));
    }
}

proof fn lemma_one_more_block<S: Scalar>(
    entries: Seq<(usize, usize, S)>,
    added: Seq<(usize, usize, S)>,
    input: Seq<S>,
    start: nat,
    dimension: usize,
)
    requires
        start + dimension <= usize::MAX,
        start + dimension <= input.len(),
        forall|i: int| 0 <= i < entries.len() ==> (#[trigger] entries[i]).0 < start,
        linear::entries_fit(added, dimension, dimension),
    ensures
        linear::entries_apply(entries + moved(added, start), input, start + dimension as nat)
            == linear::entries_apply(entries, input, start) + linear::entries_apply(
            added,
            input.subrange(start as int, start + dimension),
            dimension as nat,
        ),
    decreases added.len(),
{
    let piece = input.subrange(start as int, start + dimension);
    let end = start + dimension as nat;
    lemma_more_rows(entries, input, start, dimension as nat);
    if added.len() == 0 {
        assert(entries + moved(added, start) =~= entries);
    } else {
        let shorter = added.drop_last();
        assert(linear::entries_fit(shorter, dimension, dimension)) by {
            assert forall|i: int| 0 <= i < shorter.len() implies (#[trigger] shorter[i]).0
                < dimension && shorter[i].1 < dimension by {
                assert(added[i].0 < dimension);
            }
        }
        lemma_one_more_block(entries, shorter, input, start, dimension);
        linear::lemma_entries_apply(shorter, piece, dimension, dimension);
        let last = added[added.len() - 1];
        assert(last.0 < dimension && last.1 < dimension);
        let whole = entries + moved(added, start);
        assert(whole.drop_last() =~= entries + moved(shorter, start));
        assert(whole.last() == ((last.0 + start) as usize, (last.1 + start) as usize, last.2));
        assert(piece[last.1 as int] == input[last.1 + start]);
        assert(linear::entries_apply(whole, input, end) =~= linear::entries_apply(
            entries,
            input,
            start,
        ) + linear::entries_apply(added, piece, dimension as nat));
    }
}

proof fn lemma_matrix_acts_alike<S: Scalar>(
    blocks: Seq<Operator<S>>,
    entries: Seq<(usize, usize, S)>,
    input: Seq<S>,
    count: nat,
)
    requires
        all_wf(blocks),
        count <= blocks.len(),
        direct_sum_error(shapes_of(blocks)) is None,
        forall|k: int|
            0 <= k < blocks.len() ==> (#[trigger] shapes_of(blocks)[k]).0 == shapes_of(blocks)[k].1,
        offset(shapes_of(blocks), blocks.len()) <= usize::MAX,
        input.len() == offset(shapes_of(blocks), blocks.len()),
        direct_sum_entries(blocks, count) == Ok::<Seq<(usize, usize, S)>, QmbedError>(entries),
    ensures
        concatenated(
            |k: int| blocks[k].spec_apply(block_part(input, shapes_of(blocks), k)),
            count,
        ) == Ok::<Seq<S>, QmbedError>(
            linear::entries_apply(entries, input, offset(shapes_of(blocks), count)),
        ),
    decreases count,
{
    let shapes = shapes_of(blocks);
    let image = |k: int| blocks[k].spec_apply(block_part(input, shapes, k));
    if count == 0 {
        assert(linear::zeros::<S>(0) =~= Seq::empty());
    } else {
        let last = (count - 1) as nat;
        let block = blocks[last as int];
        assert(block.wf());
        assert(shapes[last as int].0 == shapes[last as int].1);
        lemma_offset_order(shapes, last, count);
        lemma_offset_order(shapes, count, blocks.len());
        lemma_direct_sum_entries(blocks, last);
        let before = direct_sum_entries(blocks, last)->Ok_0;
        lemma_matrix_acts_alike(blocks, before, input, last);
        assert forall|i: int| 0 <= i < before.len() implies (#[trigger] before[i]).0 < offset(
            shapes,
            last,
        ) by {}
        lemma_one_more_block(before, block@.entries, input, offset(shapes, last), block@.rows);
        assert(block_part(input, shapes, last as int) == input.subrange(
            offset(shapes, last) as int,
            offset(shapes, last) + block@.rows,
        ));
        assert(concatenated(image, count) == Ok::<Seq<S>, QmbedError>(
            concatenated(image, last)->Ok_0 + image(last as int)->Ok_0,
        ));
    }
}

/// The stored matrix of a direct sum of stored operators acts like the direct sum:
/// block by block, on the part of the vector that belongs to the block.
pub proof fn law_matrix_acts_alike<S: Scalar>(
    sum: BlockOps<Operator<S>>,
    matrix: Operator<S>,
    input: Seq<S>,
)
    requires
        sum.valid(),
        matrix.valid(),
        matrix@.rows == offset(shapes_of(sum.parts()), sum.parts().len()),
        direct_sum_entries(sum.parts(), sum.parts().len()) == Ok::<
            Seq<(usize, usize, S)>,
            QmbedError,
        >(matrix@.entries),
        input.len() == matrix@.rows,
    ensures
        matrix.spec_apply(input) == sum.spec_apply(input),
{
    let blocks = sum.parts();
    assert(sum.offsets@[blocks.len() as int] == offset(shapes_of(blocks), blocks.len()));
    lemma_matrix_acts_alike(blocks, matrix@.entries, input, blocks.len());
}

} // verus!

//! Sector operators lifted into a shared parent space by isometries.

use vstd::prelude::*;

use crate::block;
use crate::block::{block_offsets, list_shapes, part, BlockOps};
use crate::error::{QmbedError, Reason, Result};
use crate::linear;
use crate::linear::{
    add_vector, check_apply_shape, streamed_triplets, unit_vector, zero_vector, LinearOperator,
    MatrixFormat, Operator, Scalar,
};

verus! {

/// What is wrong with the shapes of the first projectors, if anything.
pub open spec fn projector_shape_error<P: LinearOperator>(
    projectors: Seq<P>,
    shapes: Seq<(usize, usize)>,
    full: usize,
    count: nat,
) -> Option<QmbedError>
    decreases count,
{
    if count == 0 {
        None
    } else {
        match projector_shape_error(projectors, shapes, full, (count - 1) as nat) {
            Some(error) => Some(error),
            None => {
                let found = (
                    projectors[count - 1].spec_rows(),
                    projectors[count - 1].spec_columns(),
                );
                let expected = (full, shapes[count - 1].0);
                if found == expected {
                    None
                } else {
                    Some(
                        QmbedError::DimensionMismatch(Reason::Shape {
                            index: (count - 1) as usize,
                            found,
                            expected,
                        }),
                    )
                }
            },
        }
    }
}

/// The overlap that two columns of an isometry have.
pub open spec fn overlap_of<S: Scalar>(
    target: nat,
    target_column: nat,
    source: nat,
    source_column: nat,
) -> S {
    if source == target && source_column == target_column {
        S::spec_one()
    } else {
        S::spec_zero()
    }
}

/// The first wrong overlap of a column with the first columns of a block, if any.
pub open spec fn overlap_error<S: Scalar>(
    overlaps: Seq<S>,
    target: nat,
    source: nat,
    source_column: nat,
    tolerance: S::Size,
    count: nat,
) -> Option<QmbedError>
    decreases count,
{
    if count == 0 {
        None
    } else {
        match overlap_error(overlaps, target, source, source_column, tolerance, (count - 1) as nat) {
            Some(error) => Some(error),
            None => if S::spec_within(
                overlaps[count - 1].spec_distance(
                    overlap_of(target, (count - 1) as nat, source, source_column),
                ),
                tolerance,
            ) {
                None
            } else {
                Some(
                    QmbedError::InvalidOptions(Reason::NotIsometric {
                        target: target as usize,
                        target_column: (count - 1) as usize,
                        source: source as usize,
                        source_column: source_column as usize,
                    }),
                )
            },
        }
    }
}

/// What is wrong with the overlaps of a column with the first blocks, if anything.
pub open spec fn target_error<P: LinearOperator>(
    projectors: Seq<P>,
    parent: Seq<P::Value>,
    source: nat,
    source_column: nat,
    tolerance: <P::Value as Scalar>::Size,
    count: nat,
) -> Option<QmbedError>
    decreases count,
{
    if count == 0 {
        None
    } else {
        match target_error(projectors, parent, source, source_column, tolerance, (count - 1) as nat) {
            Some(error) => Some(error),
            None => match projectors[count - 1].spec_apply_adjoint(parent) {
                Err(error) => Some(error),
                Ok(overlaps) => overlap_error(
                    overlaps,
                    (count - 1) as nat,
                    source,
                    source_column,
                    tolerance,
                    projectors[count - 1].spec_columns() as nat,
                ),
            },
        }
    }
}

/// What is wrong with the first columns of a projector, if anything.
pub open spec fn column_error<P: LinearOperator>(
    projectors: Seq<P>,
    source: nat,
    tolerance: <P::Value as Scalar>::Size,
    count: nat,
) -> Option<QmbedError>
    decreases count,
{
    if count == 0 {
        None
    } else {
        match column_error(projectors, source, tolerance, (count - 1) as nat) {
            Some(error) => Some(error),
            None => match projectors[source as int].spec_apply(
                linear::unit(
                    projectors[source as int].spec_columns() as nat,
                    (count - 1) as nat,
                ),
            ) {
                Err(error) => Some(error),
                Ok(parent) => target_error(
                    projectors,
                    parent,
                    source,
                    (count - 1) as nat,
                    tolerance,
                    projectors.len(),
                ),
            },
        }
    }
}

/// What keeps the first projectors from being one isometry, if anything.
pub open spec fn isometry_error<P: LinearOperator>(
    projectors: Seq<P>,
    tolerance: <P::Value as Scalar>::Size,
    count: nat,
) -> Option<QmbedError>
    decreases count,
{
    if count == 0 {
        None
    } else {
        match isometry_error(projectors, tolerance, (count - 1) as nat) {
            Some(error) => Some(error),
            None => column_error(
                projectors,
                (count - 1) as nat,
                tolerance,
                projectors[count - 1].spec_columns() as nat,
            ),
        }
    }
}

/// What is wrong with projectors for blocks of the given shapes, if anything.
pub open spec fn projection_error<P: LinearOperator>(
    shapes: Seq<(usize, usize)>,
    projectors: Seq<P>,
    tolerance: <P::Value as Scalar>::Size,
) -> Option<QmbedError> {
    if !<P::Value as Scalar>::spec_usable(tolerance) {
        Some(
            QmbedError::InvalidOptions(Reason::Text("projector-isometry tolerance must be positive and finite")),
        )
    } else {
        match block::direct_sum_error(shapes) {
            Some(error) => Some(error),
            None => if projectors.len() != shapes.len() {
                Some(
                    QmbedError::DimensionMismatch(Reason::Length {
                        what: "block projectors",
                        found: projectors.len() as usize,
                        expected: shapes.len() as usize,
                    }),
                )
            } else if projectors[0].spec_rows() == 0 {
                Some(
                    QmbedError::DimensionMismatch(
                        Reason::Text("projectors must have a positive parent-space dimension"),
                    ),
                )
            } else {
                match projector_shape_error(
                    projectors,
                    shapes,
                    projectors[0].spec_rows(),
                    shapes.len(),
                ) {
                    Some(error) => Some(error),
                    None => isometry_error(projectors, tolerance, projectors.len()),
                }
            },
        }
    }
}

proof fn lemma_shape_error_persists<P: LinearOperator>(
    projectors: Seq<P>,
    shapes: Seq<(usize, usize)>,
    full: usize,
    count: nat,
    later: nat,
)
    requires
        count <= later,
        projector_shape_error(projectors, shapes, full, count) is Some,
    ensures
        projector_shape_error(projectors, shapes, full, later) == projector_shape_error(
            projectors,
            shapes,
            full,
            count,
        ),
    decreases later,
{
    if count < later {
        lemma_shape_error_persists(projectors, shapes, full, count, (later - 1) as nat);
    }
}

proof fn lemma_overlap_error_persists<S: Scalar>(
    overlaps: Seq<S>,
    target: nat,
    source: nat,
    source_column: nat,
    tolerance: S::Size,
    count: nat,
    later: nat,
)
    requires
        count <= later,
        overlap_error(overlaps, target, source, source_column, tolerance, count) is Some,
    ensures
        overlap_error(overlaps, target, source, source_column, tolerance, later) == overlap_error(
            overlaps,
            target,
            source,
            source_column,
            tolerance,
            count,
        ),
    decreases later,
{
    if count < later {
        lemma_overlap_error_persists(
            overlaps,
            target,
            source,
            source_column,
            tolerance,
            count,
            (later - 1) as nat,
        );
    }
}

proof fn lemma_target_error_persists<P: LinearOperator>(
    projectors: Seq<P>,
    parent: Seq<P::Value>,
    source: nat,
    source_column: nat,
    tolerance: <P::Value as Scalar>::Size,
    count: nat,
    later: nat,
)
    requires
        count <= later,
        target_error(projectors, parent, source, source_column, tolerance, count) is Some,
    ensures
        target_error(projectors, parent, source, source_column, tolerance, later) == target_error(
            projectors,
            parent,
            source,
            source_column,
            tolerance,
            count,
        ),
    decreases later,
{
    if count < later {
        lemma_target_error_persists(
            projectors,
            parent,
            source,
            source_column,
            tolerance,
            count,
            (later - 1) as nat,
        );
    }
}

proof fn lemma_column_error_persists<P: LinearOperator>(
    projectors: Seq<P>,
    source: nat,
    tolerance: <P::Value as Scalar>::Size,
    count: nat,
    later: nat,
)
    requires
        count <= later,
        column_error(projectors, source, tolerance, count) is Some,
    ensures
        column_error(projectors, source, tolerance, later) == column_error(
            projectors,
            source,
            tolerance,
            count,
        ),
    decreases later,
{
    if count < later {
        lemma_column_error_persists(projectors, source, tolerance, count, (later - 1) as nat);
    }
}

proof fn lemma_isometry_error_persists<P: LinearOperator>(
    projectors: Seq<P>,
    tolerance: <P::Value as Scalar>::Size,
    count: nat,
    later: nat,
)
    requires
        count <= later,
        isometry_error(projectors, tolerance, count) is Some,
    ensures
        isometry_error(projectors, tolerance, later) == isometry_error(
            projectors,
            tolerance,
            count,
        ),
    decreases later,
{
    if count < later {
        lemma_isometry_error_persists(projectors, tolerance, count, (later - 1) as nat);
    }
}

/// Looks for a wrong overlap of a column with the columns of a block.
fn check_overlaps<S: Scalar>(
    overlaps: &Vec<S>,
    target: usize,
    source: usize,
    source_column: usize,
    tolerance: S::Size,
) -> (fault: Option<QmbedError>)
    ensures
        fault == overlap_error(
            overlaps@,
            target as nat,
            source as nat,
            source_column as nat,
            tolerance,
            overlaps@.len(),
        ),
{
    let mut next: usize = 0;
    while next < overlaps.len()
        invariant
            next <= overlaps@.len(),
            overlap_error(
                overlaps@,
                target as nat,
                source as nat,
                source_column as nat,
                tolerance,
                next as nat,
            ) is None,
        decreases overlaps@.len() - next,
    {
        let expected: S = if source == target && source_column == next {
            S::one()
        } else {
            S::zero()
        };
        if !S::within(overlaps[next].distance(&expected), tolerance) {
            proof {
                lemma_overlap_error_persists(
                    overlaps@,
                    target as nat,
                    source as nat,
                    source_column as nat,
                    tolerance,
                    (next + 1) as nat,
                    overlaps@.len(),
                );
            }
            return Some(
                QmbedError::InvalidOptions(Reason::NotIsometric { target, target_column: next, source, source_column }),
            );
        }
        next += 1;
    }
    None
}

/// Looks for a wrong overlap of a column with any column.
fn check_targets<P: LinearOperator>(
    projectors: &Vec<P>,
    parent: &Vec<P::Value>,
    source: usize,
    source_column: usize,
    tolerance: <P::Value as Scalar>::Size,
) -> (fault: Option<QmbedError>)
    requires
        block::all_wf(projectors@),
        forall|k: int|
            0 <= k < projectors@.len() ==> (#[trigger] projectors@[k]).spec_rows() == parent@.len(),
    ensures
        fault == target_error(
            projectors@,
            parent@,
            source as nat,
            source_column as nat,
            tolerance,
            projectors@.len(),
        ),
{
    let mut next: usize = 0;
    while next < projectors.len()
        invariant
            next <= projectors@.len(),
            block::all_wf(projectors@),
            forall|k: int|
                0 <= k < projectors@.len() ==> (#[trigger] projectors@[k]).spec_rows()
                    == parent@.len(),
            target_error(
                projectors@,
                parent@,
                source as nat,
                source_column as nat,
                tolerance,
                next as nat,
            ) is None,
        decreases projectors@.len() - next,
    {
        let ghost projector = projectors@[next as int];
        let fault: Option<QmbedError> = match projectors[next].apply_adjoint(parent) {
            Ok(overlaps) => {
                proof {
                    projector.images_fit(parent@);
                }
                check_overlaps(&overlaps, next, source, source_column, tolerance)
            },
            Err(error) => Some(error),
        };
        if fault.is_some() {
            proof {
                lemma_target_error_persists(
                    projectors@,
                    parent@,
                    source as nat,
                    source_column as nat,
                    tolerance,
                    (next + 1) as nat,
                    projectors@.len(),
                );
            }
            return fault;
        }
        next += 1;
    }
    None
}

/// Looks for a wrong overlap of a column of one projector with any column.
fn check_columns<P: LinearOperator>(
    projectors: &Vec<P>,
    source: usize,
    full: usize,
    tolerance: <P::Value as Scalar>::Size,
) -> (fault: Option<QmbedError>)
    requires
        source < projectors@.len(),
        block::all_wf(projectors@),
        forall|k: int|
            0 <= k < projectors@.len() ==> (#[trigger] projectors@[k]).spec_rows() == full,
    ensures
        fault == column_error(
            projectors@,
            source as nat,
            tolerance,
            projectors@[source as int].spec_columns() as nat,
        ),
{
    let ghost projector = projectors@[source as int];
    assert(projector.wf());
    let (_rows, columns) = projectors[source].shape();
    let mut next: usize = 0;
    while next < columns
        invariant
            next <= columns,
            source < projectors@.len(),
            projector == projectors@[source as int],
            projector.wf(),
            columns == projector.spec_columns(),
            block::all_wf(projectors@),
            forall|k: int|
                0 <= k < projectors@.len() ==> (#[trigger] projectors@[k]).spec_rows() == full,
            column_error(projectors@, source as nat, tolerance, next as nat) is None,
        decreases columns - next,
    {
        let coordinate: Vec<P::Value> = unit_vector(columns, next);
        let fault: Option<QmbedError> = match projectors[source].apply(&coordinate) {
            Ok(parent) => {
                proof {
                    projector.images_fit(coordinate@);
                }
                check_targets(projectors, &parent, source, next, tolerance)
            },
            Err(error) => Some(error),
        };
        if fault.is_some() {
            proof {
                lemma_column_error_persists(
                    projectors@,
                    source as nat,
                    tolerance,
                    (next + 1) as nat,
                    columns as nat,
                );
            }
            return fault;
        }
        next += 1;
    }
    None
}

/// Looks for what keeps projectors from being one isometry.
fn check_isometry<P: LinearOperator>(
    projectors: &Vec<P>,
    full: usize,
    tolerance: <P::Value as Scalar>::Size,
) -> (fault: Option<QmbedError>)
    requires
        block::all_wf(projectors@),
        forall|k: int|
            0 <= k < projectors@.len() ==> (#[trigger] projectors@[k]).spec_rows() == full,
    ensures
        fault == isometry_error(projectors@, tolerance, projectors@.len()),
{
    let mut next: usize = 0;
    while next < projectors.len()
        invariant
            next <= projectors@.len(),
            block::all_wf(projectors@),
            forall|k: int|
                0 <= k < projectors@.len() ==> (#[trigger] projectors@[k]).spec_rows() == full,
            isometry_error(projectors@, tolerance, next as nat) is None,
        decreases projectors@.len() - next,
    {
        let fault: Option<QmbedError> = check_columns(projectors, next, full, tolerance);
        if fault.is_some() {
            proof {
                lemma_isometry_error_persists(
                    projectors@,
                    tolerance,
                    (next + 1) as nat,
                    projectors@.len(),
                );
            }
            return fault;
        }
        next += 1;
    }
    None
}

/// Projectors from a parent space to the blocks of a direct sum.
#[derive(Debug)]
pub struct ProjectionLayout<P> {
    projectors: Vec<P>,
    offsets: Vec<usize>,
    full_dimension: usize,
}

/// Shapes of square blocks that projectors lead to.
pub open spec fn block_shapes<P: LinearOperator>(projectors: Seq<P>) -> Seq<(usize, usize)> {
    Seq::new(
        projectors.len(),
        |k: int| (projectors[k].spec_columns(), projectors[k].spec_columns()),
    )
}

/// Coordinates of a parent vector in all blocks.
pub open spec fn projected<P: LinearOperator>(
    projectors: Seq<P>,
    parent: Seq<P::Value>,
) -> core::result::Result<Seq<P::Value>, QmbedError> {
    block::concatenated(|k: int| projectors[k].spec_apply_adjoint(parent), projectors.len())
}

/// The parent vector with the given coordinates.
pub open spec fn lifted<P: LinearOperator>(
    projectors: Seq<P>,
    blocks: Seq<P::Value>,
) -> core::result::Result<Seq<P::Value>, QmbedError> {
    block::accumulated(
        |k: int|
            projectors[k].spec_apply(block::block_part(blocks, block_shapes(projectors), k)),
        projectors[0].spec_rows() as nat,
        projectors.len(),
    )
}

/// Where the direct sum of the blocks ends.
pub open spec fn block_total<P: LinearOperator>(projectors: Seq<P>) -> nat {
    block::offset(block_shapes(projectors), projectors.len())
}

/// The largest entry of the first rows of a column that should be a unit vector.
pub open spec fn column_residual<S: Scalar>(
    column: Seq<S>,
    place: nat,
    start: S::Size,
    count: nat,
) -> S::Size
    decreases count,
{
    if count == 0 {
        start
    } else {
        S::spec_larger(
            column_residual(column, place, start, (count - 1) as nat),
            column[count - 1].spec_distance(linear::unit::<S>(column.len(), place)[count - 1]),
        )
    }
}

/// The largest entry of the first columns of `P P† - 1`.
pub open spec fn residual<P: LinearOperator>(
    projectors: Seq<P>,
    count: nat,
) -> core::result::Result<<P::Value as Scalar>::Size, QmbedError>
    decreases count,
{
    let full = projectors[0].spec_rows() as nat;
    if count == 0 {
        Ok(<P::Value as Scalar>::spec_no_size())
    } else {
        match residual(projectors, (count - 1) as nat) {
            Err(error) => Err(error),
            Ok(before) => match projected(projectors, linear::unit(full, (count - 1) as nat)) {
                Err(error) => Err(error),
                Ok(blocks) => match lifted(projectors, blocks) {
                    Err(error) => Err(error),
                    Ok(column) => Ok(column_residual(column, (count - 1) as nat, before, full)),
                },
            },
        }
    }
}

proof fn lemma_residual_fails<P: LinearOperator>(projectors: Seq<P>, count: nat, later: nat)
    requires
        count <= later,
        residual(projectors, count) is Err,
    ensures
        residual(projectors, later) == residual(projectors, count),
    decreases later,
{
    if count < later {
        lemma_residual_fails(projectors, count, (later - 1) as nat);
    }
}

/// Whether projectors lead from one parent space to blocks that start at the given places.
pub open spec fn projection_fits<P: LinearOperator>(
    projectors: Seq<P>,
    offsets: Seq<usize>,
    full: usize,
) -> bool {
    &&& projectors.len() > 0
    &&& block::all_wf(projectors)
    &&& block::offsets_of(offsets, block_shapes(projectors))
    &&& full == projectors[0].spec_rows()
    &&& forall|k: int|
        0 <= k < projectors.len() ==> (#[trigger] projectors[k]).spec_rows() == full
}

/// Coordinates and parent vectors have the right lengths.
pub proof fn lemma_projection_lengths<P: LinearOperator>(
    projectors: Seq<P>,
    offsets: Seq<usize>,
    full: usize,
    vector: Seq<P::Value>,
)
    requires
        projection_fits(projectors, offsets, full),
    ensures
        vector.len() == full ==> block::fits(
            projected(projectors, vector),
            block_total(projectors),
        ),
        block::fits(lifted(projectors, vector), full as nat),
        block_total(projectors) <= usize::MAX,
{
    let shapes = block_shapes(projectors);
    assert(offsets[projectors.len() as int] == block_total(projectors));
    if vector.len() == full {
        let image = |k: int| projectors[k].spec_apply_adjoint(vector);
        assert forall|k: int| 0 <= k < projectors.len() implies block::fits(
            #[trigger] image(k),
            shapes[k].0 as nat,
        ) by {
            assert(projectors[k].wf());
            projectors[k].images_fit(vector);
        }
        block::lemma_concatenated_length(image, shapes, projectors.len());
    }
    block::lemma_accumulated_length(
        |k: int| projectors[k].spec_apply(block::block_part(vector, shapes, k)),
        full as nat,
        projectors.len(),
    );
}

/// Checks projectors for blocks of the given shapes; finds the places where the
/// blocks start and the dimension of the parent space.
fn check_projection<P: LinearOperator>(
    shapes: &Vec<(usize, usize)>,
    projectors: &Vec<P>,
    tolerance: <P::Value as Scalar>::Size,
) -> (result: Result<(Vec<usize>, usize)>)
    requires
        block::all_wf(projectors@),
    ensures
        match result {
            Ok((offsets, full)) => {
                &&& projection_error(shapes@, projectors@, tolerance) is None
                &&& projection_fits(projectors@, offsets@, full)
                &&& block_shapes(projectors@) == shapes@
            },
            Err(error) => projection_error(shapes@, projectors@, tolerance) == Some(error),
        },
{
    if !<P::Value as Scalar>::usable(tolerance) {
        return Err(
            QmbedError::InvalidOptions(
                Reason::Text("projector-isometry tolerance must be positive and finite"),
            ),
        );
    }
    let offsets: Vec<usize> = match block_offsets(shapes) {
        Ok(offsets) => offsets,
        Err(error) => {
            return Err(error);
        },
    };
    if projectors.len() != shapes.len() {
        return Err(
            QmbedError::DimensionMismatch(Reason::Length {
                what: "block projectors",
                found: projectors.len(),
                expected: shapes.len(),
            }),
        );
    }
    assert(projectors@[0].wf());
    let (full_dimension, _columns) = projectors[0].shape();
    if full_dimension == 0 {
        return Err(
            QmbedError::DimensionMismatch(
                Reason::Text("projectors must have a positive parent-space dimension"),
            ),
        );
    }
    let mut next: usize = 0;
    while next < shapes.len()
        invariant
            next <= shapes@.len(),
            projectors@.len() == shapes@.len(),
            shapes@.len() > 0,
            full_dimension != 0,
            full_dimension == projectors@[0].spec_rows(),
            block::all_wf(projectors@),
            <P::Value as Scalar>::spec_usable(tolerance),
            block::direct_sum_error(shapes@) is None,
            projector_shape_error(projectors@, shapes@, full_dimension, next as nat) is None,
            forall|k: int|
                0 <= k < next ==> (#[trigger] projectors@[k]).spec_rows() == full_dimension
                    && projectors@[k].spec_columns() == shapes@[k].0,
        decreases shapes@.len() - next,
    {
        assert(projectors@[next as int].wf());
        let found: (usize, usize) = projectors[next].shape();
        let expected: (usize, usize) = (full_dimension, shapes[next].0);
        if found.0 != expected.0 || found.1 != expected.1 {
            proof {
                lemma_shape_error_persists(
                    projectors@,
                    shapes@,
                    full_dimension,
                    (next + 1) as nat,
                    shapes@.len(),
                );
            }
            return Err(QmbedError::DimensionMismatch(Reason::Shape { index: next, found, expected }));
        }
        next += 1;
    }
    if let Some(error) = check_isometry(projectors, full_dimension, tolerance) {
        return Err(error);
    }
    proof {
        assert forall|k: int| 0 <= k < shapes@.len() implies #[trigger] block_shapes(
            projectors@,
        )[k] == shapes@[k] by {
            assert(projectors@[k].spec_columns() == shapes@[k].0);
            assert(shapes@[k].0 == shapes@[k].1);
        }
        assert(block_shapes(projectors@) =~= shapes@);
    }
    Ok((offsets, full_dimension))
}

/// Coordinates of a parent vector in all blocks.
fn project_vector<P: LinearOperator>(projectors: &Vec<P>, parent: &Vec<P::Value>) -> (result: Result<
    Vec<P::Value>,
>)
    requires
        block::all_wf(projectors@),
        forall|k: int|
            0 <= k < projectors@.len() ==> (#[trigger] projectors@[k]).spec_rows() == parent@.len(),
    ensures
        linear::vector_is(result, projected(projectors@, parent@)),
{
    let ghost image = |k: int| projectors@[k].spec_apply_adjoint(parent@);
    let mut blocks: Vec<P::Value> = Vec::new();
    let mut next: usize = 0;
    while next < projectors.len()
        invariant
            next <= projectors@.len(),
            block::all_wf(projectors@),
            forall|k: int|
                0 <= k < projectors@.len() ==> (#[trigger] projectors@[k]).spec_rows()
                    == parent@.len(),
            image == (|k: int| projectors@[k].spec_apply_adjoint(parent@)),
            block::concatenated(image, next as nat) == Ok::<Seq<P::Value>, QmbedError>(
                blocks@,
            ),
        decreases projectors@.len() - next,
    {
        assert(projectors@[next as int].wf());
        match projectors[next].apply_adjoint(parent) {
            Ok(mut coordinates) => {
                blocks.append(&mut coordinates);
            },
            Err(error) => {
                proof {
                    assert(image(next as int) == Err::<Seq<P::Value>, QmbedError>(error));
                    block::lemma_concatenated_fails(
                        image,
                        (next + 1) as nat,
                        projectors@.len(),
                    );
                }
                return Err(error);
            },
        }
        next += 1;
    }
    Ok(blocks)
}

/// The parent vector with the given coordinates.
fn lift_vector<P: LinearOperator>(
    projectors: &Vec<P>,
    offsets: &Vec<usize>,
    full: usize,
    blocks: &Vec<P::Value>,
) -> (result: Result<Vec<P::Value>>)
    requires
        projection_fits(projectors@, offsets@, full),
        blocks@.len() == block_total(projectors@),
    ensures
        linear::vector_is(result, lifted(projectors@, blocks@)),
{
    let ghost shapes = block_shapes(projectors@);
    let ghost image = |k: int|
        projectors@[k].spec_apply(block::block_part(blocks@, shapes, k));
    let mut parent: Vec<P::Value> = zero_vector(full);
    let mut next: usize = 0;
    while next < projectors.len()
        invariant
            next <= projectors@.len(),
            shapes == block_shapes(projectors@),
            projection_fits(projectors@, offsets@, full),
            blocks@.len() == block::offset(shapes, projectors@.len()),
            parent@.len() == full,
            image == (|k: int|
                projectors@[k].spec_apply(block::block_part(blocks@, shapes, k))),
            block::accumulated(image, full as nat, next as nat) == Ok::<
                Seq<P::Value>,
                QmbedError,
            >(parent@),
        decreases projectors@.len() - next,
    {
        proof {
            assert(projectors@[next as int].wf());
            block::lemma_offset_order(shapes, next as nat, (next + 1) as nat);
            block::lemma_offset_order(shapes, (next + 1) as nat, projectors@.len());
            assert(offsets@[next as int] == block::offset(shapes, next as nat));
            assert(offsets@[next + 1] == block::offset(shapes, (next + 1) as nat));
            assert(shapes[next as int].0 == projectors@[next as int].spec_columns());
        }
        let piece: Vec<P::Value> = part(blocks, offsets[next], offsets[next + 1]);
        match projectors[next].apply(&piece) {
            Ok(contribution) => {
                proof {
                    projectors@[next as int].images_fit(piece@);
                }
                add_vector(&mut parent, &contribution);
            },
            Err(error) => {
                proof {
                    assert(image(next as int) == Err::<Seq<P::Value>, QmbedError>(error));
                    block::lemma_accumulated_fails(
                        image,
                        full as nat,
                        (next + 1) as nat,
                        projectors@.len(),
                    );
                }
                return Err(error);
            },
        }
        next += 1;
    }
    Ok(parent)
}

impl<P: LinearOperator> ProjectionLayout<P> {
    /// The projectors.
    pub closed spec fn parts(&self) -> Seq<P> {
        self.projectors@
    }

    /// Projectors from one parent space, with the places where their blocks start.
    pub closed spec fn valid(&self) -> bool {
        projection_fits(self.projectors@, self.offsets@, self.full_dimension)
    }

    /// Coordinates and parent vectors have the right lengths.
    pub proof fn lemma_lengths(&self, vector: Seq<P::Value>)
        requires
            self.valid(),
        ensures
            vector.len() == self.parts()[0].spec_rows() ==> block::fits(
                projected(self.parts(), vector),
                block_total(self.parts()),
            ),
            block::fits(lifted(self.parts(), vector), self.parts()[0].spec_rows() as nat),
            block_total(self.parts()) <= usize::MAX,
    {
        lemma_projection_lengths(self.projectors@, self.offsets@, self.full_dimension, vector);
    }

    /// Projectors for blocks of the given shapes.
    pub fn new(
        shapes: &Vec<(usize, usize)>,
        projectors: Vec<P>,
        tolerance: <P::Value as Scalar>::Size,
    ) -> (result: Result<Self>)
        requires
            block::all_wf(projectors@),
        ensures
            match result {
                Ok(layout) => {
                    &&& projection_error(shapes@, projectors@, tolerance) is None
                    &&& layout.valid()
                    &&& layout.parts() == projectors@
                    &&& block_shapes(projectors@) == shapes@
                },
                Err(error) => projection_error(shapes@, projectors@, tolerance) == Some(error),
            },
    {
        match check_projection(shapes, &projectors, tolerance) {
            Ok((offsets, full_dimension)) => Ok(
                ProjectionLayout { projectors, offsets, full_dimension },
            ),
            Err(error) => Err(error),
        }
    }

    /// Dimension of the parent space.
    pub fn full_dimension(&self) -> (dimension: usize)
        requires
            self.valid(),
        ensures
            dimension == self.parts()[0].spec_rows(),
    {
        self.full_dimension
    }

    /// Sum of the block dimensions.
    pub fn block_dimension(&self) -> (dimension: usize)
        requires
            self.valid(),
        ensures
            dimension == block_total(self.parts()),
    {
        self.offsets[self.projectors.len()]
    }

    /// Coordinates of a parent vector in all blocks.
    pub fn project(&self, parent: &Vec<P::Value>) -> (result: Result<Vec<P::Value>>)
        requires
            self.valid(),
        ensures
            linear::vector_is(
                result,
                if parent@.len() == self.parts()[0].spec_rows() {
                    projected(self.parts(), parent@)
                } else {
                    Err(
                        QmbedError::DimensionMismatch(Reason::Length {
                            what: "parent vector",
                            found: parent@.len() as usize,
                            expected: self.parts()[0].spec_rows(),
                        }),
                    )
                },
            ),
    {
        if parent.len() != self.full_dimension {
            return Err(
                QmbedError::DimensionMismatch(Reason::Length {
                    what: "parent vector",
                    found: parent.len(),
                    expected: self.full_dimension,
                }),
            );
        }
        project_vector(&self.projectors, parent)
    }

    /// The parent vector with the given coordinates.
    pub fn lift(&self, blocks: &Vec<P::Value>) -> (result: Result<Vec<P::Value>>)
        requires
            self.valid(),
        ensures
            linear::vector_is(
                result,
                if blocks@.len() == block_total(self.parts()) {
                    lifted(self.parts(), blocks@)
                } else {
                    Err(
                        QmbedError::DimensionMismatch(Reason::Length {
                            what: "block vector",
                            found: blocks@.len() as usize,
                            expected: block_total(self.parts()) as usize,
                        }),
                    )
                },
            ),
    {
        let expected: usize = self.block_dimension();
        if blocks.len() != expected {
            return Err(
                QmbedError::DimensionMismatch(Reason::Length {
                    what: "block vector",
                    found: blocks.len(),
                    expected,
                }),
            );
        }
        lift_vector(&self.projectors, &self.offsets, self.full_dimension, blocks)
    }

    /// The largest entry of `P P† - 1`.
    pub fn completeness_residual(&self) -> (result: Result<<P::Value as Scalar>::Size>)
        requires
            self.valid(),
        ensures
            result == residual(self.parts(), self.parts()[0].spec_rows() as nat),
    {
        let full: usize = self.full_dimension;
        let mut maximum: <P::Value as Scalar>::Size = <P::Value as Scalar>::no_size();
        let mut column: usize = 0;
        while column < full
            invariant
                column <= full,
                full == self.parts()[0].spec_rows(),
                self.valid(),
                residual(self.parts(), column as nat) == Ok::<
                    <P::Value as Scalar>::Size,
                    QmbedError,
                >(maximum),
            decreases full - column,
        {
            let parent: Vec<P::Value> = unit_vector(full, column);
            proof {
                self.lemma_lengths(parent@);
            }
            let blocks: Vec<P::Value> = match self.project(&parent) {
                Ok(blocks) => blocks,
                Err(error) => {
                    proof {
                        lemma_residual_fails(self.parts(), (column + 1) as nat, full as nat);
                    }
                    return Err(error);
                },
            };
            proof {
                self.lemma_lengths(blocks@);
            }
            let reconstructed: Vec<P::Value> = match self.lift(&blocks) {
                Ok(reconstructed) => reconstructed,
                Err(error) => {
                    proof {
                        lemma_residual_fails(self.parts(), (column + 1) as nat, full as nat);
                    }
                    return Err(error);
                },
            };
            let ghost before = maximum;
            let mut row: usize = 0;
            while row < full
                invariant
                    row <= full,
                    column < full,
                    reconstructed@.len() == full,
                    parent@ == linear::unit::<P::Value>(full as nat, column as nat),
                    maximum == column_residual(reconstructed@, column as nat, before, row as nat),
                decreases full - row,
            {
                maximum = <P::Value as Scalar>::larger(
                    maximum,
                    reconstructed[row].distance(&parent[row]),
                );
                row += 1;
            }
            column += 1;
        }
        Ok(maximum)
    }
}

/// `P (⊕ H) P†` on a vector.
pub open spec fn projected_apply<O: LinearOperator, P: LinearOperator<Value = O::Value>>(
    blocks: Seq<O>,
    projectors: Seq<P>,
    input: Seq<O::Value>,
) -> core::result::Result<Seq<O::Value>, QmbedError> {
    match projected(projectors, input) {
        Err(error) => Err(error),
        Ok(coordinates) => match block::direct_sum_apply(blocks, coordinates) {
            Err(error) => Err(error),
            Ok(images) => lifted(projectors, images),
        },
    }
}

/// `P (⊕ H†) P†` on a vector.
pub open spec fn projected_adjoint<O: LinearOperator, P: LinearOperator<Value = O::Value>>(
    blocks: Seq<O>,
    projectors: Seq<P>,
    input: Seq<O::Value>,
) -> core::result::Result<Seq<O::Value>, QmbedError> {
    match projected(projectors, input) {
        Err(error) => Err(error),
        Ok(coordinates) => match block::direct_sum_adjoint(blocks, coordinates) {
            Err(error) => Err(error),
            Ok(images) => lifted(projectors, images),
        },
    }
}

/// Entries of the first columns of `P (⊕ H) P†`.
pub open spec fn projected_entries<O: LinearOperator, P: LinearOperator<Value = O::Value>>(
    blocks: Seq<O>,
    projectors: Seq<P>,
    count: nat,
) -> core::result::Result<Seq<(usize, usize, O::Value)>, QmbedError>
    decreases count,
{
    let full = projectors[0].spec_rows() as nat;
    if count == 0 {
        Ok(Seq::empty())
    } else {
        match projected_entries(blocks, projectors, (count - 1) as nat) {
            Err(error) => Err(error),
            Ok(before) => match projected_apply(
                blocks,
                projectors,
                linear::unit(full, (count - 1) as nat),
            ) {
                Err(error) => Err(error),
                Ok(column) => Ok(
                    before + linear::column_entries((count - 1) as usize, column, full),
                ),
            },
        }
    }
}

/// A direct sum of sector operators acting in a shared parent space.
///
/// Each projector maps the coordinates of one sector into the parent space, and
/// together they are one isometry `P`; the operator is `P (⊕ H) P†`.
#[derive(Debug)]
pub struct ProjectedBlockOps<O, P> {
    blocks: BlockOps<O>,
    projection: ProjectionLayout<P>,
}

impl<O: LinearOperator, P: LinearOperator<Value = O::Value>> ProjectedBlockOps<O, P> {
    /// The sector operators.
    pub closed spec fn parts(&self) -> Seq<O> {
        self.blocks.parts()
    }

    /// The projectors.
    pub closed spec fn projectors(&self) -> Seq<P> {
        self.projection.parts()
    }

    /// Blocks and projectors that fit together.
    pub closed spec fn valid(&self) -> bool {
        &&& self.blocks.valid()
        &&& self.projection.valid()
        &&& block::shapes_of(self.blocks.parts()) == block_shapes(self.projection.parts())
    }

    /// The sectors with the given operators and projectors.
    pub fn new(
        blocks: Vec<O>,
        projectors: Vec<P>,
        tolerance: <O::Value as Scalar>::Size,
    ) -> (result: Result<Self>)
        requires
            block::all_wf(blocks@),
            block::all_wf(projectors@),
        ensures
            match result {
                Ok(operator) => {
                    &&& projection_error(
                        block::shapes_of(blocks@),
                        projectors@,
                        tolerance,
                    ) is None
                    &&& operator.valid()
                    &&& operator.parts() == blocks@
                    &&& operator.projectors() == projectors@
                },
                Err(error) => projection_error(block::shapes_of(blocks@), projectors@, tolerance)
                    == Some(error),
            },
    {
        let shapes: Vec<(usize, usize)> = list_shapes(&blocks);
        match ProjectionLayout::new(&shapes, projectors, tolerance) {
            Ok(projection) => match BlockOps::new(blocks) {
                Ok(blocks) => Ok(ProjectedBlockOps { blocks, projection }),
                Err(error) => Err(error),
            },
            Err(error) => Err(error),
        }
    }

    /// Number of blocks.
    pub fn blocks(&self) -> (count: usize)
        ensures
            count == self.parts().len(),
    {
        self.blocks.blocks()
    }

    /// Dimension of the parent space.
    pub fn full_dimension(&self) -> (dimension: usize)
        requires
            self.valid(),
        ensures
            dimension == self.projectors()[0].spec_rows(),
    {
        self.projection.full_dimension()
    }

    /// Sum of the block dimensions.
    pub fn block_dimension(&self) -> (dimension: usize)
        requires
            self.valid(),
        ensures
            dimension == block_total(self.projectors()),
    {
        self.projection.block_dimension()
    }

    /// Coordinates of a parent vector in all blocks.
    pub fn project(&self, parent: &Vec<O::Value>) -> (result: Result<Vec<O::Value>>)
        requires
            self.valid(),
        ensures
            linear::vector_is(
                result,
                if parent@.len() == self.projectors()[0].spec_rows() {
                    projected(self.projectors(), parent@)
                } else {
                    Err(
                        QmbedError::DimensionMismatch(Reason::Length {
                            what: "parent vector",
                            found: parent@.len() as usize,
                            expected: self.projectors()[0].spec_rows(),
                        }),
                    )
                },
            ),
    {
        self.projection.project(parent)
    }

    /// The parent vector with the given coordinates.
    pub fn lift(&self, blocks: &Vec<O::Value>) -> (result: Result<Vec<O::Value>>)
        requires
            self.valid(),
        ensures
            linear::vector_is(
                result,
                if blocks@.len() == block_total(self.projectors()) {
                    lifted(self.projectors(), blocks@)
                } else {
                    Err(
                        QmbedError::DimensionMismatch(Reason::Length {
                            what: "block vector",
                            found: blocks@.len() as usize,
                            expected: block_total(self.projectors()) as usize,
                        }),
                    )
                },
            ),
    {
        self.projection.lift(blocks)
    }

    /// The largest entry of `P P† - 1`.
    ///
    /// Projectors need not be complete: the sectors may span a subspace only.
    pub fn completeness_residual(&self) -> (result: Result<<O::Value as Scalar>::Size>)
        requires
            self.valid(),
        ensures
            result == residual(self.projectors(), self.projectors()[0].spec_rows() as nat),
    {
        self.projection.completeness_residual()
    }

    proof fn lemma_probed(&self, count: nat)
        ensures
            linear::probed_entries(*self, count) == projected_entries(
                self.parts(),
                self.projectors(),
                count,
            ),
        decreases count,
    {
        if count > 0 {
            self.lemma_probed((count - 1) as nat);
        }
    }

    /// Stored matrix of the operator on the parent space.
    pub fn materialize(&self, format: MatrixFormat) -> (result: Result<Operator<O::Value>>)
        requires
            self.valid(),
        ensures
            match result {
                Ok(operator) => {
                    &&& operator.valid()
                    &&& operator@.rows == self.projectors()[0].spec_rows()
                    &&& operator@.columns == self.projectors()[0].spec_rows()
                    &&& operator@.format == format
                    &&& projected_entries(
                        self.parts(),
                        self.projectors(),
                        self.projectors()[0].spec_rows() as nat,
                    ) == Ok::<Seq<(usize, usize, O::Value)>, QmbedError>(operator@.entries)
                },
                Err(error) => projected_entries(
                    self.parts(),
                    self.projectors(),
                    self.projectors()[0].spec_rows() as nat,
                ) == Err::<Seq<(usize, usize, O::Value)>, QmbedError>(error),
            },
    {
        let dimension: usize = self.full_dimension();
        proof {
            self.lemma_probed(dimension as nat);
        }
        match streamed_triplets(self) {
            Ok(entries) => {
                proof {
                    linear::lemma_entries_of(*self);
                }
                Operator::from_triplets(dimension, dimension, entries, format)
            },
            Err(error) => Err(error),
        }
    }
}

impl<O: LinearOperator, P: LinearOperator<Value = O::Value>> LinearOperator for ProjectedBlockOps<
    O,
    P,
> {
    type Value = O::Value;

    open spec fn wf(&self) -> bool {
        self.valid()
    }

    open spec fn spec_rows(&self) -> usize {
        self.projectors()[0].spec_rows()
    }

    open spec fn spec_columns(&self) -> usize {
        self.projectors()[0].spec_rows()
    }

    open spec fn spec_apply(&self, input: Seq<O::Value>) -> core::result::Result<
        Seq<O::Value>,
        QmbedError,
    > {
        projected_apply(self.parts(), self.projectors(), input)
    }

    open spec fn spec_apply_adjoint(&self, input: Seq<O::Value>) -> core::result::Result<
        Seq<O::Value>,
        QmbedError,
    > {
        projected_adjoint(self.parts(), self.projectors(), input)
    }

    open spec fn spec_stored(&self) -> Option<Seq<(usize, usize, O::Value)>> {
        None
    }

    proof fn images_fit(&self, input: Seq<O::Value>) {
        if let Ok(coordinates) = projected(self.projectors(), input) {
            if let Ok(images) = block::direct_sum_apply(self.parts(), coordinates) {
                self.projection.lemma_lengths(images);
            }
            if let Ok(images) = block::direct_sum_adjoint(self.parts(), coordinates) {
                self.projection.lemma_lengths(images);
            }
        }
    }

    fn shape(&self) -> (shape: (usize, usize)) {
        let dimension: usize = self.full_dimension();
        (dimension, dimension)
    }

    fn apply(&self, input: &Vec<O::Value>) -> (result: Result<Vec<O::Value>>) {
        if let Err(error) = check_apply_shape(input, self.full_dimension()) {
            return Err(error);
        }
        proof {
            self.projection.lemma_lengths(input@);
        }
        let coordinates: Vec<O::Value> = match self.projection.project(input) {
            Ok(coordinates) => coordinates,
            Err(error) => {
                return Err(error);
            },
        };
        let images: Vec<O::Value> = match self.blocks.apply(&coordinates) {
            Ok(images) => images,
            Err(error) => {
                return Err(error);
            },
        };
        proof {
            self.blocks.images_fit(coordinates@);
        }
        self.projection.lift(&images)
    }

    fn apply_adjoint(&self, input: &Vec<O::Value>) -> (result: Result<Vec<O::Value>>) {
        if let Err(error) = check_apply_shape(input, self.full_dimension()) {
            return Err(error);
        }
        proof {
            self.projection.lemma_lengths(input@);
        }
        let coordinates: Vec<O::Value> = match self.projection.project(input) {
            Ok(coordinates) => coordinates,
            Err(error) => {
                return Err(error);
            },
        };
        let images: Vec<O::Value> = match self.blocks.apply_adjoint(&coordinates) {
            Ok(images) => images,
            Err(error) => {
                return Err(error);
            },
        };
        proof {
            self.blocks.images_fit(coordinates@);
        }
        self.projection.lift(&images)
    }

    fn stored_triplets(&self) -> (stored: Option<Vec<(usize, usize, O::Value)>>) {
        None
    }
}

proof fn lemma_projected_entries_fail<O: LinearOperator, P: LinearOperator<Value = O::Value>>(
    blocks: Seq<O>,
    projectors: Seq<P>,
    count: nat,
    later: nat,
)
    requires
        count <= later,
        projected_entries(blocks, projectors, count) is Err,
    ensures
        projected_entries(blocks, projectors, later) == projected_entries(
            blocks,
            projectors,
            count,
        ),
    decreases later,
{
    if count < later {
        lemma_projected_entries_fail(blocks, projectors, count, (later - 1) as nat);
    }
}

/// Stored matrix of `P (⊕ H) P†`.
pub fn projected_matrix<O: LinearOperator, P: LinearOperator<Value = O::Value>>(
    blocks: Vec<O>,
    projectors: &Vec<P>,
    tolerance: <O::Value as Scalar>::Size,
    format: MatrixFormat,
) -> (result: Result<Operator<O::Value>>)
    requires
        block::all_wf(blocks@),
        block::all_wf(projectors@),
    ensures
        match projection_error(block::shapes_of(blocks@), projectors@, tolerance) {
            Some(error) => result matches Err(found) && found == error,
            None => match projected_entries(
                blocks@,
                projectors@,
                projectors@[0].spec_rows() as nat,
            ) {
                Ok(entries) => result matches Ok(operator) && operator.valid() && operator@.rows
                    == projectors@[0].spec_rows() && operator@.columns
                    == projectors@[0].spec_rows() && operator@.entries == entries && operator@.format
                    == format,
                Err(error) => result matches Err(found) && found == error,
            },
        },
{
    let ghost parts = blocks@;
    let shapes: Vec<(usize, usize)> = list_shapes(&blocks);
    let (offsets, full) = match check_projection(&shapes, projectors, tolerance) {
        Ok(layout) => layout,
        Err(error) => {
            return Err(error);
        },
    };
    let sum: BlockOps<O> = match BlockOps::new(blocks) {
        Ok(sum) => sum,
        Err(error) => {
            return Err(error);
        },
    };
    let mut entries: Vec<(usize, usize, O::Value)> = Vec::new();
    let mut column: usize = 0;
    while column < full
        invariant
            column <= full,
            sum.valid(),
            sum.parts() == parts,
            parts == blocks@,
            projection_error(block::shapes_of(parts), projectors@, tolerance) is None,
            projection_fits(projectors@, offsets@, full),
            block_shapes(projectors@) == block::shapes_of(parts),
            linear::entries_fit(entries@, full, full),
            projected_entries(parts, projectors@, column as nat) == Ok::<
                Seq<(usize, usize, O::Value)>,
                QmbedError,
            >(entries@),
        decreases full - column,
    {
        let input: Vec<O::Value> = unit_vector(full, column);
        let ghost before = entries@;
        proof {
            lemma_projection_lengths(projectors@, offsets@, full, input@);
        }
        let image: Result<Vec<O::Value>> = match project_vector(projectors, &input) {
            Ok(coordinates) => {
                proof {
                    sum.images_fit(coordinates@);
                }
                match sum.apply(&coordinates) {
                    Ok(images) => {
                        proof {
                            lemma_projection_lengths(projectors@, offsets@, full, images@);
                        }
                        lift_vector(projectors, &offsets, full, &images)
                    },
                    Err(error) => Err(error),
                }
            },
            Err(error) => Err(error),
        };
        let output: Vec<O::Value> = match image {
            Ok(output) => output,
            Err(error) => {
                proof {
                    lemma_projected_entries_fail(
                        parts,
                        projectors@,
                        (column + 1) as nat,
                        full as nat,
                    );
                }
                return Err(error);
            },
        };
        let mut row: usize = 0;
        assert(before + linear::column_entries::<O::Value>(column, output@, 0) =~= before);
        while row < full
            invariant
                row <= full,
                column < full,
                output@.len() == full,
                linear::entries_fit(entries@, full, full),
                entries@ == before + linear::column_entries(column, output@, row as nat),
            decreases full - row,
        {
            let value: O::Value = output[row];
            if !value.is_negligible() {
                entries.push((row, column, value));
                assert(entries@ =~= before + linear::column_entries(
                    column,
                    output@,
                    (row + 1) as nat,
                ));
            }
            row += 1;
        }
        column += 1;
    }
    Operator::from_triplets(full, full, entries, format)
}

} // verus!

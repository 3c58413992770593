//! Vectors carried between the bases of two models.

use vstd::prelude::*;

use crate::amplitudes::ReductionImage;
use crate::error::{QmbedError, Reason, Result};
use crate::linear::{LinearOperator, OperatorModel, Scalar};
use crate::model::EdModel;
use crate::ordered::copy_list;
use crate::projector;
use crate::projector::{BasisProjector, OrbitScalar};
use crate::reduction;
use crate::reduction::Reduction;

verus! {

/// Whether returned images are those of some states.
pub open spec fn images_are<B: Reduction>(
    basis: B,
    states: Seq<B::State>,
    result: Result<Vec<Option<ReductionImage<B::State, B::Turned>>>>,
) -> bool {
    match result {
        Ok(images) => {
            &&& images@.len() == states.len()
            &&& forall|i: int|
                0 <= i < states.len() ==> reduction::image_is(
                    Ok::<Option<ReductionImage<B::State, B::Turned>>, QmbedError>(
                        #[trigger] images@[i],
                    ),
                    basis.spec_reduction(states[i]),
                )
        },
        Err(error) => exists|first: int|
            {
                &&& 0 <= first < states.len()
                &&& basis.spec_reduction(#[trigger] states[first]) == Err::<
                    Option<(B::State, B::Turned, usize)>,
                    QmbedError,
                >(error)
                &&& forall|i: int|
                    0 <= i < first ==> basis.spec_reduction(#[trigger] states[i]) is Ok
            },
    }
}

/// The projector from a reduced model to a parent, or why there is none.
pub open spec fn projector_between<B: Reduction, S: OrbitScalar<B::Turned>>(
    reduced: EdModel<B, S>,
    parent: EdModel<B, S>,
) -> core::result::Result<OperatorModel<S>, QmbedError> {
    if reduced.spec_site_permutation() != parent.spec_site_permutation() {
        Err(
            QmbedError::InvalidOptions(
                Reason::Text("models must use the same site permutation for cross-basis operations"),
            ),
        )
    } else {
        projector::from_stated(
            parent.spec_basis().spec_states().len() as usize,
            projector::lifted_columns::<B, S>(
                reduced.spec_basis(),
                parent.spec_basis().spec_states(),
                parent.spec_basis().spec_states().len(),
            ),
        )
    }
}

/// The embedding of a model whose states are among those of a parent, or why there is none.
pub open spec fn embedding_between<B: Reduction, S: Scalar>(
    reduced: EdModel<B, S>,
    parent: EdModel<B, S>,
) -> core::result::Result<OperatorModel<S>, QmbedError> {
    if reduced.spec_site_permutation() != parent.spec_site_permutation() {
        Err(
            QmbedError::InvalidOptions(
                Reason::Text("models must use the same site permutation for cross-basis operations"),
            ),
        )
    } else {
        projector::from_stated(
            parent.spec_basis().spec_states().len() as usize,
            projector::embedded_columns::<B::State, S>(
                reduced.spec_basis().spec_states(),
                parent.spec_basis().spec_states(),
                reduced.spec_basis().spec_states().len(),
            ),
        )
    }
}

impl<B: Reduction, S: Scalar> EdModel<B, S> {
    /// Representatives and coefficients of physical states; no operator is made.
    pub fn reduction_images(&self, states: &Vec<B::State>) -> (result: Result<
        Vec<Option<ReductionImage<B::State, B::Turned>>>,
    >)
        requires
            self.valid(),
        ensures
            images_are(self.spec_basis(), states@, result),
    {
        proof {
            self.lemma_valid();
        }
        let ghost basis = self.spec_basis();
        let mut images: Vec<Option<ReductionImage<B::State, B::Turned>>> = Vec::new();
        let mut next: usize = 0;
        while next < states.len()
            invariant
                next <= states@.len(),
                basis == self.spec_basis(),
                basis.wf(),
                images@.len() == next,
                forall|i: int|
                    0 <= i < next ==> reduction::image_is(
                        Ok::<Option<ReductionImage<B::State, B::Turned>>, QmbedError>(
                            #[trigger] images@[i],
                        ),
                        basis.spec_reduction(states@[i]),
                    ),
                forall|i: int|
                    0 <= i < next ==> basis.spec_reduction(#[trigger] states@[i]) is Ok,
            decreases states@.len() - next,
        {
            match self.basis().reduction_image(states[next]) {
                Ok(image) => {
                    images.push(image);
                },
                Err(error) => {
                    assert(basis.spec_reduction(states@[next as int]) == Err::<
                        Option<(B::State, B::Turned, usize)>,
                        QmbedError,
                    >(error));
                    return Err(error);
                },
            }
            next += 1;
        }
        Ok(images)
    }

    /// The embedding of the basis into that of a parent with the same labels of states.
    pub fn embedding_to(&self, parent: &Self) -> (result: Result<BasisProjector<S>>)
        requires
            self.valid(),
            parent.valid(),
            parent.spec_basis().faithful(),
            self.spec_basis().spec_states().len() < usize::MAX,
        ensures
            projector::projector_is(result, embedding_between(*self, *parent)),
    {
        proof {
            self.lemma_valid();
            parent.lemma_valid();
        }
        match self.ensure_same_site_convention(parent) {
            Ok(_) => BasisProjector::from_embedding(self.basis(), parent.basis()),
            Err(error) => Err(error),
        }
    }
}

impl<B: Reduction, S: OrbitScalar<B::Turned>> EdModel<B, S> {
    /// The isometry from the basis into that of an explicit parent.
    pub fn projector_to(&self, parent: &Self) -> (result: Result<BasisProjector<S>>)
        requires
            self.valid(),
            self.spec_basis().faithful(),
            parent.valid(),
            self.spec_basis().spec_states().len() < usize::MAX,
        ensures
            projector::projector_is(result, projector_between(*self, *parent)),
    {
        proof {
            self.lemma_valid();
            parent.lemma_valid();
        }
        match self.ensure_same_site_convention(parent) {
            Ok(_) => BasisProjector::between(self.basis(), parent.basis()),
            Err(error) => Err(error),
        }
    }

    /// Lift reduced vectors into an explicit parent.
    pub fn lift_to_batch(&self, parent: &Self, vectors: &Vec<Vec<S>>) -> (result: Result<
        Vec<Vec<S>>,
    >)
        requires
            self.valid(),
            self.spec_basis().faithful(),
            parent.valid(),
            self.spec_basis().spec_states().len() < usize::MAX,
        ensures
            match projector_between(*self, *parent) {
                Ok(model) => projector::batch_is(
                    result,
                    |k: int| projector::lifted_vector(model, vectors@[k]@),
                    vectors@.len(),
                ),
                Err(error) => result matches Err(found) && found == error,
            },
    {
        match self.projector_to(parent) {
            Ok(found) => found.lift_batch(vectors),
            Err(error) => Err(error),
        }
    }

    /// Project vectors of an explicit parent into the basis.
    pub fn project_from_batch(&self, parent: &Self, vectors: &Vec<Vec<S>>) -> (result: Result<
        Vec<Vec<S>>,
    >)
        requires
            self.valid(),
            self.spec_basis().faithful(),
            parent.valid(),
            self.spec_basis().spec_states().len() < usize::MAX,
        ensures
            match projector_between(*self, *parent) {
                Ok(model) => projector::batch_is(
                    result,
                    |k: int| projector::projected_vector(model, vectors@[k]@),
                    vectors@.len(),
                ),
                Err(error) => result matches Err(found) && found == error,
            },
    {
        match self.projector_to(parent) {
            Ok(found) => found.project_batch(vectors),
            Err(error) => Err(error),
        }
    }
}

/// A vector after a projector, if there is one, lifted it.
pub open spec fn maybe_lifted<S: Scalar>(
    projector: Option<OperatorModel<S>>,
    input: Seq<S>,
) -> core::result::Result<Seq<S>, QmbedError> {
    match projector {
        Some(model) => projector::lifted_vector(model, input),
        None => Ok(input),
    }
}

/// A vector after a projector, if there is one, projected it.
pub open spec fn maybe_projected<S: Scalar>(
    projector: Option<OperatorModel<S>>,
    input: Seq<S>,
) -> core::result::Result<Seq<S>, QmbedError> {
    match projector {
        Some(model) => projector::projected_vector(model, input),
        None => Ok(input),
    }
}

/// Image of a vector under an operator that refuses other lengths.
pub open spec fn shifted<O: LinearOperator>(shift: O, input: Seq<O::Value>) -> core::result::Result<
    Seq<O::Value>,
    QmbedError,
> {
    if input.len() != shift.spec_columns() {
        Err(
            QmbedError::DimensionMismatch(Reason::Length {
                what: "operator action input",
                found: input.len() as usize,
                expected: shift.spec_columns(),
            }),
        )
    } else {
        shift.spec_apply(input)
    }
}

/// A reduced vector carried from one subspace to another by an operator between the parents.
pub open spec fn carried_between<O: LinearOperator>(
    source: Option<OperatorModel<O::Value>>,
    shift: O,
    target: Option<OperatorModel<O::Value>>,
    input: Seq<O::Value>,
) -> core::result::Result<Seq<O::Value>, QmbedError> {
    match maybe_lifted(source, input) {
        Err(error) => Err(error),
        Ok(lifted) => match shifted(shift, lifted) {
            Err(error) => Err(error),
            Ok(image) => maybe_projected(target, image),
        },
    }
}

/// A reduced vector lifted and acted on by an operator between the parents.
pub open spec fn acted_on<O: LinearOperator>(
    source: Option<OperatorModel<O::Value>>,
    shift: O,
    input: Seq<O::Value>,
) -> core::result::Result<Seq<O::Value>, QmbedError> {
    match maybe_lifted(source, input) {
        Err(error) => Err(error),
        Ok(lifted) => shifted(shift, lifted),
    }
}

/// Whether some vector of a batch has no image.
pub open spec fn some_failure<S>(
    images: spec_fn(int) -> core::result::Result<Seq<S>, QmbedError>,
    count: nat,
) -> bool {
    exists|k: int| 0 <= k < count && #[trigger] images(k) is Err
}

/// Whether a batch was carried from one subspace to another: every vector is lifted before the
/// operator acts on one, and it acts on every vector before one is projected.
pub open spec fn batch_carried<O: LinearOperator>(
    result: Result<Vec<Vec<O::Value>>>,
    source: Option<OperatorModel<O::Value>>,
    shift: O,
    target: Option<OperatorModel<O::Value>>,
    inputs: Seq<Vec<O::Value>>,
) -> bool {
    let lifted = |k: int| maybe_lifted(source, inputs[k]@);
    let acted = |k: int| acted_on(source, shift, inputs[k]@);
    let carried = |k: int| carried_between(source, shift, target, inputs[k]@);
    if some_failure(lifted, inputs.len()) {
        projector::batch_is(result, lifted, inputs.len())
    } else if some_failure(acted, inputs.len()) {
        projector::batch_is(result, acted, inputs.len())
    } else {
        projector::batch_is(result, carried, inputs.len())
    }
}

/// The model of a projector, if there is one.
pub open spec fn model_of<S: Scalar>(projector: Option<&BasisProjector<S>>) -> Option<
    OperatorModel<S>,
> {
    match projector {
        Some(held) => Some(held@),
        None => None,
    }
}

/// Why projectors do not fit an operator between two parents.
pub open spec fn subspaces_refused<S: Scalar>(
    source: Option<OperatorModel<S>>,
    columns: usize,
    target: Option<OperatorModel<S>>,
    rows: usize,
) -> Option<QmbedError> {
    if source matches Some(model) && model.rows != columns {
        Some(
            QmbedError::DimensionMismatch(
                Reason::Text("source projector rows do not match the source parent basis"),
            ),
        )
    } else if target matches Some(model) && model.rows != rows {
        Some(
            QmbedError::DimensionMismatch(
                Reason::Text("target projector rows do not match the target parent basis"),
            ),
        )
    } else {
        None
    }
}

/// Apply an operator between two parents to vectors of subspaces: the vectors are lifted, the
/// operator acts, and the images are projected. Without a projector a parent is its own
/// subspace.
pub fn apply_between_subspaces_batch<O: LinearOperator>(
    source_projector: Option<&BasisProjector<O::Value>>,
    shift: &O,
    target_projector: Option<&BasisProjector<O::Value>>,
    inputs: &Vec<Vec<O::Value>>,
) -> (result: Result<Vec<Vec<O::Value>>>)
    requires
        shift.wf(),
        source_projector matches Some(held) ==> held.valid(),
        target_projector matches Some(held) ==> held.valid(),
    ensures
        match subspaces_refused(
            model_of(source_projector),
            shift.spec_columns(),
            model_of(target_projector),
            shift.spec_rows(),
        ) {
            Some(error) => result matches Err(found) && found == error,
            None => batch_carried(
                result,
                model_of(source_projector),
                *shift,
                model_of(target_projector),
                inputs@,
            ),
        },
{
    let (rows, columns) = shift.shape();
    if let Some(held) = source_projector {
        if held.source_dimension() != columns {
            return Err(
                QmbedError::DimensionMismatch(
                    Reason::Text("source projector rows do not match the source parent basis"),
                ),
            );
        }
    }
    if let Some(held) = target_projector {
        if held.source_dimension() != rows {
            return Err(
                QmbedError::DimensionMismatch(
                    Reason::Text("target projector rows do not match the target parent basis"),
                ),
            );
        }
    }
    let ghost source = model_of(source_projector);
    let ghost target = model_of(target_projector);
    let ghost lifts = |k: int| maybe_lifted(source, inputs@[k]@);
    let ghost acts = |k: int| acted_on(source, *shift, inputs@[k]@);
    let ghost carried = |k: int| carried_between(source, *shift, target, inputs@[k]@);
    let lifted: Vec<Vec<O::Value>> = match source_projector {
        Some(held) => match held.lift_batch(inputs) {
            Ok(list) => list,
            Err(error) => {
                proof {
                    let images = |k: int| projector::lifted_vector(held@, inputs@[k]@);
                    assert forall|k: int| #[trigger] images(k) == lifts(k) by {}
                    assert(images =~= lifts);
                }
                return Err(error);
            },
        },
        None => copy_batch(inputs),
    };
    assert(forall|k: int|
        0 <= k < inputs@.len() ==> maybe_lifted(source, inputs@[k]@) == Ok::<
            Seq<O::Value>,
            QmbedError,
        >((#[trigger] lifted@[k])@)) by {
        if let Some(held) = source_projector {
            let images = |k: int| projector::lifted_vector(held@, inputs@[k]@);
            assert forall|k: int| 0 <= k < inputs@.len() implies maybe_lifted(
                source,
                inputs@[k]@,
            ) == Ok::<Seq<O::Value>, QmbedError>((#[trigger] lifted@[k])@) by {
                assert(images(k) == Ok::<Seq<O::Value>, QmbedError>(lifted@[k]@));
            }
        }
    }
    let mut images: Vec<Vec<O::Value>> = Vec::new();
    let mut next: usize = 0;
    while next < lifted.len()
        invariant
            next <= lifted@.len(),
            lifted@.len() == inputs@.len(),
            shift.wf(),
            columns == shift.spec_columns(),
            subspaces_refused(
                model_of(source_projector),
                shift.spec_columns(),
                model_of(target_projector),
                shift.spec_rows(),
            ) is None,
            source == model_of(source_projector),
            target == model_of(target_projector),
            lifts == (|k: int| maybe_lifted(source, inputs@[k]@)),
            acts == (|k: int| acted_on(source, *shift, inputs@[k]@)),
            forall|k: int|
                0 <= k < inputs@.len() ==> maybe_lifted(source, inputs@[k]@) == Ok::<
                    Seq<O::Value>,
                    QmbedError,
                >((#[trigger] lifted@[k])@),
            images@.len() == next,
            forall|k: int|
                0 <= k < next ==> shifted(*shift, lifted@[k]@) == Ok::<Seq<O::Value>, QmbedError>(
                    (#[trigger] images@[k])@,
                ),
        decreases lifted@.len() - next,
    {
        proof {
            assert forall|j: int| 0 <= j < inputs@.len() implies #[trigger] lifts(j) is Ok by {
                assert(lifted@[j]@ == lifted@[j]@);
            }
            assert forall|j: int| 0 <= j < next implies #[trigger] acts(j) is Ok by {
                assert(lifted@[j]@ == lifted@[j]@);
                assert(images@[j]@ == images@[j]@);
            }
            assert(!some_failure(lifts, inputs@.len()));
            assert(projector::first_failure(acts, next as int));
            assert(acts(next as int) == shifted(*shift, lifted@[next as int]@));
        }
        if lifted[next].len() != columns {
            return Err(
                QmbedError::DimensionMismatch(Reason::Length {
                    what: "operator action input",
                    found: lifted[next].len(),
                    expected: columns,
                }),
            );
        }
        match shift.apply(&lifted[next]) {
            Ok(image) => {
                images.push(image);
            },
            Err(error) => {
                assert(acts(next as int) == Err::<Seq<O::Value>, QmbedError>(error));
                return Err(error);
            },
        }
        next += 1;
    }
    proof {
        assert forall|j: int| 0 <= j < inputs@.len() implies #[trigger] lifts(j) is Ok by {
            assert(lifted@[j]@ == lifted@[j]@);
        }
        assert forall|j: int| 0 <= j < inputs@.len() implies #[trigger] acts(j) is Ok by {
            assert(lifted@[j]@ == lifted@[j]@);
            assert(images@[j]@ == images@[j]@);
        }
        assert(!some_failure(lifts, inputs@.len()));
        assert(!some_failure(acts, inputs@.len()));
    }
    match target_projector {
        Some(held) => {
            let result: Result<Vec<Vec<O::Value>>> = held.project_batch(&images);
            proof {
                let ends = |k: int| projector::projected_vector(held@, images@[k]@);
                assert forall|k: int| 0 <= k < inputs@.len() implies #[trigger] carried(k)
                    == ends(k) by {
                    assert(lifted@[k]@ == lifted@[k]@);
                    assert(images@[k]@ == images@[k]@);
                }
                match &result {
                    Ok(list) => {
                        assert forall|k: int| 0 <= k < inputs@.len() implies carried(k) == Ok::<
                            Seq<O::Value>,
                            QmbedError,
                        >((#[trigger] list@[k])@) by {
                            assert(ends(k) == Ok::<Seq<O::Value>, QmbedError>(list@[k]@));
                            assert(carried(k) == ends(k));
                        }
                    },
                    Err(error) => {
                        let k = choose|k: int|
                            0 <= k < inputs@.len() && projector::first_failure(ends, k)
                                && #[trigger] ends(k) == Err::<Seq<O::Value>, QmbedError>(*error);
                        assert(carried(k) == ends(k));
                        assert forall|j: int| 0 <= j < k implies #[trigger] carried(j) is Ok by {
                            assert(carried(j) == ends(j));
                        }
                        assert(projector::first_failure(carried, k));
                    },
                }
            }
            result
        },
        None => {
            proof {
                assert forall|k: int| 0 <= k < inputs@.len() implies carried(k) == Ok::<
                    Seq<O::Value>,
                    QmbedError,
                >((#[trigger] images@[k])@) by {
                    assert(lifted@[k]@ == lifted@[k]@);
                }
            }
            Ok(images)
        },
    }
}

fn copy_batch<S: Scalar>(vectors: &Vec<Vec<S>>) -> (copies: Vec<Vec<S>>)
    ensures
        copies@.len() == vectors@.len(),
        forall|k: int| 0 <= k < vectors@.len() ==> (#[trigger] copies@[k])@ == vectors@[k]@,
{
    let mut copies: Vec<Vec<S>> = Vec::new();
    let mut next: usize = 0;
    while next < vectors.len()
        invariant
            next <= vectors@.len(),
            copies@.len() == next,
            forall|k: int| 0 <= k < next ==> (#[trigger] copies@[k])@ == vectors@[k]@,
        decreases vectors@.len() - next,
    {
        copies.push(copy_list(&vectors[next]));
        next += 1;
    }
    copies
}

} // verus!

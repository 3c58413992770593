//! How physical states enter a reduced basis.

use vstd::prelude::*;

use crate::amplitudes::{ReductionFactor, ReductionImage, Turn};
use crate::basis::{Basis, Pair};
use crate::boson::BosonBasis1D;
use crate::error::{QmbedError, Result};
use crate::fermion::SpinlessFermionBasis1D;
use crate::general::GeneralBasis;
use crate::orbits::SymmetryImage;
use crate::linear::Scalar;
use crate::ordered::{Bounded, Coded};
use crate::photon::PhotonBasis;
use crate::spin::SpinBasis1D;
use crate::spinful::SpinfulFermionBasis1D;
use crate::symmetry::{PhaseFactor, SymmetryMap};
use crate::tensor::TensorBasis;
use crate::user::{LocalAlgebra, UserBasis};
use crate::wide::WideState;
use crate::wide_spin::WideSpinBasis;

verus! {

/// Bases that say how a physical state enters them.
pub trait Reduction: Basis {
    /// Phase of a state relative to its representative.
    type Turned: Copy;

    /// Representative, phase and orbit size of a physical state, if the basis holds its
    /// orbit.
    spec fn spec_reduction(&self, state: Self::State) -> core::result::Result<
        Option<(Self::State, Self::Turned, usize)>,
        QmbedError,
    >;

    fn reduction_image(&self, state: Self::State) -> (result: Result<
        Option<ReductionImage<Self::State, Self::Turned>>,
    >)
        requires
            self.wf(),
        ensures
            image_is(result, self.spec_reduction(state)),
    ;

    /// Size of the orbit of a row.
    spec fn spec_orbit_size(&self, state: Self::State) -> core::result::Result<usize, QmbedError>;

    fn transition_orbit_size(&self, state: Self::State) -> (result: Result<usize>)
        requires
            self.wf(),
        ensures
            result == self.spec_orbit_size(state),
    ;
}

/// Whether a returned image is the stated one.
pub open spec fn image_is<State: Copy, Turned: Copy>(
    result: Result<Option<ReductionImage<State, Turned>>>,
    stated: core::result::Result<Option<(State, Turned, usize)>, QmbedError>,
) -> bool {
    match (result, stated) {
        (Ok(Some(image)), Ok(Some(parts))) => {
            &&& image.spec_representative() == parts.0
            &&& image.spec_phase() == parts.1
            &&& image.spec_orbit_size() == parts.2
        },
        (Ok(None), Ok(None)) => true,
        (Err(error), Err(found)) => error == found,
        _ => false,
    }
}

/// A state of a basis without reduction stands for itself.
pub open spec fn own_image<B: Basis>(basis: B, state: B::State) -> core::result::Result<
    Option<(B::State, Turn, usize)>,
    QmbedError,
> {
    if basis.spec_states().contains(state) {
        Ok(Some((state, Turn { steps: 0, circle: 1 }, 1)))
    } else {
        Ok(None)
    }
}

/// A state of a basis without reduction stands for itself.
pub fn stands_for_itself<B: Basis>(basis: &B, state: B::State) -> (result: Result<
    Option<ReductionImage<B::State, Turn>>,
>)
    requires
        basis.wf(),
    ensures
        image_is(result, own_image(*basis, state)),
{
    match basis.index(state) {
        Ok(index) => {
            proof {
                assert(basis.spec_states()[index as int] == state);
            }
            match ReductionImage::new(state, Turn { steps: 0, circle: 1 }, 1) {
                Ok(image) => Ok(Some(image)),
                Err(error) => Err(error),
            }
        },
        Err(_) => Ok(None),
    }
}

impl Reduction for BosonBasis1D {
    type Turned = Turn;

    open spec fn spec_reduction(&self, state: u128) -> core::result::Result<
        Option<(u128, Turn, usize)>,
        QmbedError,
    > {
        own_image(*self, state)
    }

    fn reduction_image(&self, state: u128) -> (result: Result<Option<ReductionImage<u128, Turn>>>) {
        stands_for_itself(self, state)
    }

    open spec fn spec_orbit_size(&self, state: u128) -> core::result::Result<usize, QmbedError> {
        Ok(1)
    }

    fn transition_orbit_size(&self, state: u128) -> (result: Result<usize>) {
        Ok(1)
    }
}

impl<Left: Basis, Right: Basis> Reduction for TensorBasis<Left, Right> {
    type Turned = Turn;

    open spec fn spec_reduction(&self, state: Pair<Left::State, Right::State>) -> core::result::Result<
        Option<(Pair<Left::State, Right::State>, Turn, usize)>,
        QmbedError,
    > {
        own_image(*self, state)
    }

    fn reduction_image(&self, state: Pair<Left::State, Right::State>) -> (result: Result<
        Option<ReductionImage<Pair<Left::State, Right::State>, Turn>>,
    >) {
        stands_for_itself(self, state)
    }

    open spec fn spec_orbit_size(&self, state: Pair<Left::State, Right::State>) -> core::result::Result<
        usize,
        QmbedError,
    > {
        Ok(1)
    }

    fn transition_orbit_size(&self, state: Pair<Left::State, Right::State>) -> (result: Result<usize>) {
        Ok(1)
    }
}

impl<Matter: Basis> Reduction for PhotonBasis<Matter> where Matter::State: Coded {
    type Turned = Turn;

    open spec fn spec_reduction(&self, state: Pair<Matter::State, u128>) -> core::result::Result<
        Option<(Pair<Matter::State, u128>, Turn, usize)>,
        QmbedError,
    > {
        own_image(*self, state)
    }

    fn reduction_image(&self, state: Pair<Matter::State, u128>) -> (result: Result<
        Option<ReductionImage<Pair<Matter::State, u128>, Turn>>,
    >) {
        stands_for_itself(self, state)
    }

    open spec fn spec_orbit_size(&self, state: Pair<Matter::State, u128>) -> core::result::Result<
        usize,
        QmbedError,
    > {
        Ok(1)
    }

    fn transition_orbit_size(&self, state: Pair<Matter::State, u128>) -> (result: Result<usize>) {
        Ok(1)
    }
}

impl<State: Bounded, S: Scalar, A: LocalAlgebra<State, S>> Reduction for UserBasis<State, S, A> {
    type Turned = Turn;

    open spec fn spec_reduction(&self, state: State) -> core::result::Result<
        Option<(State, Turn, usize)>,
        QmbedError,
    > {
        own_image(*self, state)
    }

    fn reduction_image(&self, state: State) -> (result: Result<
        Option<ReductionImage<State, Turn>>,
    >) {
        stands_for_itself(self, state)
    }

    open spec fn spec_orbit_size(&self, state: State) -> core::result::Result<
        usize,
        QmbedError,
    > {
        Ok(1)
    }

    fn transition_orbit_size(&self, state: State) -> (result: Result<usize>) {
        Ok(1)
    }
}

impl Reduction for SpinfulFermionBasis1D {
    type Turned = Turn;

    open spec fn spec_reduction(&self, state: u128) -> core::result::Result<
        Option<(u128, Turn, usize)>,
        QmbedError,
    > {
        own_image(*self, state)
    }

    fn reduction_image(&self, state: u128) -> (result: Result<Option<ReductionImage<u128, Turn>>>) {
        stands_for_itself(self, state)
    }

    open spec fn spec_orbit_size(&self, state: u128) -> core::result::Result<usize, QmbedError> {
        Ok(1)
    }

    fn transition_orbit_size(&self, state: u128) -> (result: Result<usize>) {
        Ok(1)
    }
}

/// Representative, phase and orbit size as a table of a lattice sector holds them.
pub open spec fn tabled_image(
    lookup: Map<u128, SymmetryImage>,
    circle: usize,
    state: u128,
) -> core::result::Result<Option<(u128, Turn, usize)>, QmbedError> {
    if lookup.contains_key(state) {
        let image = lookup[state];
        if image.orbit_size == 0 {
            Err(
                QmbedError::InternalState(
                    "a reduction image requires a positive orbit and finite phase",
                ),
            )
        } else {
            Ok(
                Some(
                    (image.representative, Turn { steps: image.steps, circle }, image.orbit_size),
                ),
            )
        }
    } else {
        Ok(None)
    }
}

fn tabled(found: Option<SymmetryImage>, circle: usize) -> (result: Result<
    Option<ReductionImage<u128, Turn>>,
>)
    ensures
        match found {
            None => result matches Ok(None),
            Some(image) => image_is(
                result,
                if image.orbit_size == 0 {
                    Err(
                        QmbedError::InternalState(
                            "a reduction image requires a positive orbit and finite phase",
                        ),
                    )
                } else {
                    Ok(
                        Some(
                            (
                                image.representative,
                                Turn { steps: image.steps, circle },
                                image.orbit_size,
                            ),
                        ),
                    )
                },
            ),
        },
{
    match found {
        None => Ok(None),
        Some(image) => match ReductionImage::new(
            image.representative,
            Turn { steps: image.steps, circle },
            image.orbit_size,
        ) {
            Ok(reduced) => Ok(Some(reduced)),
            Err(error) => Err(error),
        },
    }
}

impl Reduction for SpinBasis1D {
    type Turned = Turn;

    open spec fn spec_reduction(&self, state: u128) -> core::result::Result<
        Option<(u128, Turn, usize)>,
        QmbedError,
    > {
        tabled_image(self@.orbits.lookup@, self@.circle(), state)
    }

    fn reduction_image(&self, state: u128) -> (result: Result<Option<ReductionImage<u128, Turn>>>) {
        let circle: usize = self.phase_circle();
        tabled(self.canonical_form(state), circle)
    }

    open spec fn spec_orbit_size(&self, state: u128) -> core::result::Result<usize, QmbedError> {
        if (self@.reduced()) && !self@.orbits.states@.contains(state) {
            Err(QmbedError::StateNotInBasis)
        } else {
            Ok(self@.orbit_size_of(state))
        }
    }

    fn transition_orbit_size(&self, state: u128) -> (result: Result<usize>) {
        self.orbit_size_at(state)
    }
}

impl Reduction for SpinlessFermionBasis1D {
    type Turned = Turn;

    open spec fn spec_reduction(&self, state: u128) -> core::result::Result<
        Option<(u128, Turn, usize)>,
        QmbedError,
    > {
        tabled_image(self@.orbits.lookup@, self@.circle(), state)
    }

    fn reduction_image(&self, state: u128) -> (result: Result<Option<ReductionImage<u128, Turn>>>) {
        let circle: usize = self.phase_circle();
        tabled(self.canonical_form(state), circle)
    }

    open spec fn spec_orbit_size(&self, state: u128) -> core::result::Result<usize, QmbedError> {
        if (self@.momentum is Some) && !self@.orbits.states@.contains(state) {
            Err(QmbedError::StateNotInBasis)
        } else {
            Ok(self@.orbit_size_of(state))
        }
    }

    fn transition_orbit_size(&self, state: u128) -> (result: Result<usize>) {
        self.orbit_size_at(state)
    }
}

impl<Parent: Basis, M> Reduction for GeneralBasis<Parent, M> where
    Parent::State: Bounded,
    M: SymmetryMap<Parent::State>,
 {
    type Turned = M::Factor;

    open spec fn spec_reduction(&self, state: Parent::State) -> core::result::Result<
        Option<(Parent::State, M::Factor, usize)>,
        QmbedError,
    > {
        match self.spec_image(state) {
            None => Ok(None),
            Some(image) => if image.orbit_size == 0 {
                Err(
                    QmbedError::InternalState(
                        "a reduction image requires a positive orbit and finite phase",
                    ),
                )
            } else {
                Ok(Some((image.representative, image.phase, image.orbit_size)))
            },
        }
    }

    fn reduction_image(&self, state: Parent::State) -> (result: Result<
        Option<ReductionImage<Parent::State, M::Factor>>,
    >) {
        self.image_of(state)
    }

    open spec fn spec_orbit_size(&self, state: Parent::State) -> core::result::Result<
        usize,
        QmbedError,
    > {
        match self.spec_row(state) {
            Some(row) => Ok(self.spec_orbit_lengths()[row as int]),
            None => Err(QmbedError::StateNotInBasis),
        }
    }

    fn transition_orbit_size(&self, state: Parent::State) -> (result: Result<usize>) {
        self.orbit_size_at(state)
    }
}

/// Amplitude of replacing a target by its representative.
pub open spec fn spec_reduce_transition<R: Reduction>(
    basis: R,
    state: R::State,
    source_orbit_size: usize,
) -> core::result::Result<Option<(R::State, ReductionFactor<R::Turned>)>, QmbedError> {
    match basis.spec_reduction(state) {
        Err(error) => Err(error),
        Ok(None) => Ok(None),
        Ok(Some((representative, phase, orbit_size))) => Ok(
            Some(
                (
                    representative,
                    ReductionFactor {
                        source_orbit: source_orbit_size,
                        target_orbit: orbit_size,
                        phase,
                    },
                ),
            ),
        ),
    }
}

/// Representative of a physical target and the amplitude of replacing the target by it.
pub fn reduce_transition<R: Reduction>(basis: &R, state: R::State, source_orbit_size: usize) -> (result: Result<
    Option<(R::State, ReductionFactor<R::Turned>)>,
>)
    requires
        basis.wf(),
    ensures
        result == spec_reduce_transition(*basis, state, source_orbit_size),
{
    match basis.reduction_image(state) {
        Err(error) => Err(error),
        Ok(None) => Ok(None),
        Ok(Some(image)) => Ok(
            Some(
                (
                    *image.representative(),
                    ReductionFactor {
                        source_orbit: source_orbit_size,
                        target_orbit: image.orbit_size(),
                        phase: image.phase(),
                    },
                ),
            ),
        ),
    }
}

/// Number of the representative of a physical target and the amplitude of replacing the
/// target by it.
pub fn index_transition<R: Reduction>(basis: &R, state: R::State, source_orbit_size: usize) -> (result: Result<
    Option<(usize, ReductionFactor<R::Turned>)>,
>)
    requires
        basis.wf(),
    ensures
        match (spec_reduce_transition(*basis, state, source_orbit_size), result) {
            (Err(stated), Err(error)) => error == stated,
            (Ok(None), Ok(None)) => true,
            (Ok(Some((representative, stated))), Ok(Some((index, factor)))) => {
                &&& index < basis.spec_states().len()
                &&& basis.spec_states()[index as int] == representative
                &&& factor == stated
            },
            (Ok(Some((representative, _))), Err(error)) => {
                &&& !basis.spec_states().contains(representative)
                &&& error == QmbedError::StateNotInBasis
            },
            _ => false,
        },
{
    match reduce_transition(basis, state, source_orbit_size) {
        Err(error) => Err(error),
        Ok(None) => Ok(None),
        Ok(Some((representative, factor))) => match basis.index(representative) {
            Ok(index) => Ok(Some((index, factor))),
            Err(error) => Err(error),
        },
    }
}

impl<const WORDS: usize> Reduction for WideSpinBasis<WORDS> {
    type Turned = Turn;

    open spec fn spec_reduction(&self, state: WideState<WORDS>) -> core::result::Result<
        Option<(WideState<WORDS>, Turn, usize)>,
        QmbedError,
    > {
        own_image(*self, state)
    }

    fn reduction_image(&self, state: WideState<WORDS>) -> (result: Result<
        Option<ReductionImage<WideState<WORDS>, Turn>>,
    >) {
        stands_for_itself(self, state)
    }

    open spec fn spec_orbit_size(&self, state: WideState<WORDS>) -> core::result::Result<
        usize,
        QmbedError,
    > {
        Ok(1)
    }

    fn transition_orbit_size(&self, state: WideState<WORDS>) -> (result: Result<usize>) {
        Ok(1)
    }
}

} // verus!

//! Exact amplitudes of local operators and of symmetry reductions.

use vstd::prelude::*;

use crate::error::{QmbedError, Result};

verus! {

/// One factor of an amplitude, kept exactly.
///
/// It stands for `numerator * sqrt(radicand)`, divided by two where `halved` is
/// set and multiplied by the imaginary unit where `imaginary` is set.
#[derive(Clone, Copy, Debug, PartialEq, Eq)]
pub struct LocalFactor {
    /// Integer in front of the root.
    pub numerator: i128,
    /// Whether the factor is divided by two.
    pub halved: bool,
    /// Whether the factor is multiplied by the imaginary unit.
    pub imaginary: bool,
    /// Number under the root.
    pub radicand: u128,
}

impl LocalFactor {
    /// A whole number.
    pub fn integer(value: i128) -> (factor: Self)
        ensures
            factor == Self::of_integer(value),
    {
        LocalFactor { numerator: value, halved: false, imaginary: false, radicand: 1 }
    }

    /// A whole number, as a factor.
    pub open spec fn of_integer(value: i128) -> Self {
        LocalFactor { numerator: value, halved: false, imaginary: false, radicand: 1 }
    }

    /// Half of a whole number, as a factor.
    pub open spec fn of_halves(value: i128) -> Self {
        LocalFactor { numerator: value, halved: true, imaginary: false, radicand: 1 }
    }

    /// A square root, as a factor.
    pub open spec fn of_root(radicand: u128) -> Self {
        LocalFactor { numerator: 1, halved: false, imaginary: false, radicand }
    }

    /// Half of a whole number.
    pub fn halves(value: i128) -> (factor: Self)
        ensures
            factor == Self::of_halves(value),
    {
        LocalFactor { numerator: value, halved: true, imaginary: false, radicand: 1 }
    }

    /// A square root.
    pub fn root(radicand: u128) -> (factor: Self)
        ensures
            factor == Self::of_root(radicand),
    {
        LocalFactor { numerator: 1, halved: false, imaginary: false, radicand }
    }
}

/// A phase that is a fraction of the full circle, turned clockwise.
#[derive(Clone, Copy, Debug, PartialEq, Eq)]
pub struct Turn {
    /// Steps taken.
    pub steps: usize,
    /// Steps of the full circle.
    pub circle: usize,
}

/// Canonical image of one physical state under a basis reduction.
///
/// The phase divided by the root of the orbit size is the coefficient of the
/// state in the normalized reduced vector labelled by the representative.
#[derive(Clone, Copy, Debug, PartialEq, Eq)]
pub struct ReductionImage<State, Phase> {
    representative: State,
    phase: Phase,
    orbit_size: usize,
}

impl<State: Copy, Phase: Copy> ReductionImage<State, Phase> {
    pub closed spec fn spec_representative(&self) -> State {
        self.representative
    }

    pub closed spec fn spec_phase(&self) -> Phase {
        self.phase
    }

    pub closed spec fn spec_orbit_size(&self) -> usize {
        self.orbit_size
    }

    /// An image in an orbit of the given size; an orbit has at least one state.
    pub fn new(representative: State, phase: Phase, orbit_size: usize) -> (result: Result<Self>)
        ensures
            match result {
                Ok(image) => {
                    &&& orbit_size > 0
                    &&& image.spec_representative() == representative
                    &&& image.spec_phase() == phase
                    &&& image.spec_orbit_size() == orbit_size
                },
                Err(error) => {
                    &&& orbit_size == 0
                    &&& error == QmbedError::InternalState(
                        "a reduction image requires a positive orbit and finite phase",
                    )
                },
            },
    {
        if orbit_size == 0 {
            return Err(
                QmbedError::InternalState(
                    "a reduction image requires a positive orbit and finite phase",
                ),
            );
        }
        Ok(ReductionImage { representative, phase, orbit_size })
    }

    /// Representative of the orbit.
    pub fn representative(&self) -> (representative: &State)
        ensures
            *representative == self.spec_representative(),
    {
        &self.representative
    }

    /// Phase of the state relative to the representative.
    pub fn phase(&self) -> (phase: Phase)
        ensures
            phase == self.spec_phase(),
    {
        self.phase
    }

    /// Number of states in the orbit.
    pub fn orbit_size(&self) -> (orbit_size: usize)
        ensures
            orbit_size == self.spec_orbit_size(),
    {
        self.orbit_size
    }
}

/// Amplitude that a reduction adds to a transition: the root of the ratio of the
/// orbit sizes, times the conjugate of the phase.
#[derive(Clone, Copy, Debug, PartialEq, Eq)]
pub struct ReductionFactor<Phase> {
    /// Orbit size of the source state.
    pub source_orbit: usize,
    /// Orbit size of the target state.
    pub target_orbit: usize,
    /// Phase of the physical target relative to its representative.
    pub phase: Phase,
}

/// Destinations of one local action on packed states, kept inline while few.
#[verifier::external_body]
#[derive(Debug)]
pub struct LocalTransitions {
    inner: smallvec::SmallVec<[(u128, Vec<LocalFactor>); 2]>,
}

/// The destinations in order, each with the factors of its amplitude.
pub uninterp spec fn listed_transitions(transitions: LocalTransitions) -> Seq<
    (u128, Seq<LocalFactor>),
>;

impl View for LocalTransitions {
    type V = Seq<(u128, Seq<LocalFactor>)>;

    open spec fn view(&self) -> Seq<(u128, Seq<LocalFactor>)> {
        listed_transitions(*self)
    }
}

impl LocalTransitions {
    /// `SmallVec::new`: no destination.
    #[verifier::external_body]
    pub(crate) fn new() -> (transitions: Self)
        ensures
            listed_transitions(transitions) == Seq::<(u128, Seq<LocalFactor>)>::empty(),
    {
        LocalTransitions { inner: smallvec::SmallVec::new() }
    }

    /// `SmallVec::push`: adds a destination behind the others.
    #[verifier::external_body]
    pub(crate) fn push(&mut self, state: u128, amplitude: Vec<LocalFactor>)
        ensures
            listed_transitions(*final(self)) == listed_transitions(*old(self)).push(
                (state, amplitude@),
            ),
    {
        self.inner.push((state, amplitude));
    }

    /// `SmallVec::len`: number of destinations.
    #[verifier::external_body]
    pub(crate) fn length(&self) -> (length: usize)
        ensures
            length == listed_transitions(*self).len(),
    {
        self.inner.len()
    }

    /// Indexing of a `SmallVec`: the destination number `index`.
    #[verifier::external_body]
    pub(crate) fn entry(&self, index: usize) -> (entry: (u128, &Vec<LocalFactor>))
        requires
            index < listed_transitions(*self).len(),
        ensures
            entry.0 == listed_transitions(*self)[index as int].0,
            entry.1@ == listed_transitions(*self)[index as int].1,
    {
        (self.inner[index].0, &self.inner[index].1)
    }

    /// Number of destinations.
    pub fn len(&self) -> (length: usize)
        ensures
            length == self@.len(),
    {
        self.length()
    }

    /// Whether there is no destination.
    pub fn is_empty(&self) -> (empty: bool)
        ensures
            empty == (self@.len() == 0),
    {
        self.length() == 0
    }

    /// The destination number `index`, if there is one.
    pub fn get(&self, index: usize) -> (entry: Option<(u128, &Vec<LocalFactor>)>)
        ensures
            match entry {
                Some((state, amplitude)) => index < self@.len() && self@[index as int] == (
                    state,
                    amplitude@,
                ),
                None => index >= self@.len(),
            },
    {
        if index < self.length() {
            Some(self.entry(index))
        } else {
            None
        }
    }
}

} // verus!

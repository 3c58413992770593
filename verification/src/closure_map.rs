//! Finite symmetry maps that a user defines.

use vstd::prelude::*;

use crate::error::{QmbedError, Reason, Result};
use crate::ordered::Bounded;
use crate::symmetry::{same_state, PhaseFactor, SymmetryMap};

verus! {

/// An action on states that a user defines.
pub trait SymmetryAction<State>: Sized {
    /// Phases that the action attaches.
    type Factor: PhaseFactor;

    spec fn spec_act(&self, state: State) -> core::result::Result<
        (State, Self::Factor),
        QmbedError,
    >;

    fn act(&self, state: State) -> (result: Result<(State, Self::Factor)>)
        ensures
            result == self.spec_act(state),
    ;
}

/// A user-defined action with the period that its user declares.
pub struct ClosureSymmetryMap<A> {
    period: usize,
    action: A,
}

impl<A> ClosureSymmetryMap<A> {
    pub closed spec fn spec_period(&self) -> usize {
        self.period
    }

    pub closed spec fn spec_action(&self) -> A {
        self.action
    }

    /// A map with a positive period.
    pub fn new(period: usize, action: A) -> (result: Result<Self>)
        ensures
            match result {
                Ok(map) => {
                    &&& period > 0
                    &&& map.spec_period() == period
                    &&& map.spec_action() == action
                },
                Err(error) => {
                    &&& period == 0
                    &&& error == QmbedError::InvalidSector(Reason::Text("a symmetry-map period must be positive"))
                },
            },
    {
        if period == 0 {
            return Err(QmbedError::InvalidSector(Reason::Text("a symmetry-map period must be positive")));
        }
        Ok(ClosureSymmetryMap { period, action })
    }
}

impl<State, A: SymmetryAction<State>> SymmetryMap<State> for ClosureSymmetryMap<A> {
    type Factor = A::Factor;

    open spec fn ready(&self) -> bool {
        true
    }

    open spec fn spec_map_period(&self) -> usize {
        self.spec_period()
    }

    open spec fn spec_apply(&self, state: State) -> core::result::Result<
        (State, A::Factor),
        QmbedError,
    > {
        self.spec_action().spec_act(state)
    }

    fn period(&self) -> (period: usize) {
        self.period
    }

    fn apply(&self, state: State) -> (result: Result<(State, A::Factor)>) {
        self.action.act(state)
    }
}

/// An action given by a table of images.
pub struct ImageTable<State, Factor> {
    /// States with their images and the phases of the images.
    pub images: Vec<(State, State, Factor)>,
}

/// Image of a state by the first entries of a table; the earliest entry counts.
pub open spec fn image_in<State, Factor>(
    images: Seq<(State, State, Factor)>,
    state: State,
    count: nat,
) -> Option<(State, Factor)>
    decreases count,
{
    if count == 0 {
        None
    } else {
        match image_in(images, state, (count - 1) as nat) {
            Some(image) => Some(image),
            None => if images[count - 1].0 == state {
                Some((images[count - 1].1, images[count - 1].2))
            } else {
                None
            },
        }
    }
}

proof fn lemma_image_stays<State, Factor>(
    images: Seq<(State, State, Factor)>,
    state: State,
    count: nat,
    later: nat,
)
    requires
        count <= later,
        image_in(images, state, count) is Some,
    ensures
        image_in(images, state, later) == image_in(images, state, count),
    decreases later,
{
    if count < later {
        lemma_image_stays(images, state, count, (later - 1) as nat);
    }
}

impl<State: Bounded, Factor: PhaseFactor> SymmetryAction<State> for ImageTable<State, Factor> {
    type Factor = Factor;

    open spec fn spec_act(&self, state: State) -> core::result::Result<
        (State, Factor),
        QmbedError,
    > {
        match image_in(self.images@, state, self.images@.len()) {
            Some(image) => Ok(image),
            None => Err(QmbedError::StateNotInBasis),
        }
    }

    fn act(&self, state: State) -> (result: Result<(State, Factor)>) {
        let mut next: usize = 0;
        while next < self.images.len()
            invariant
                next <= self.images@.len(),
                image_in(self.images@, state, next as nat) is None,
            decreases self.images@.len() - next,
        {
            let (source, target, phase) = self.images[next];
            if same_state(source, state) {
                proof {
                    lemma_image_stays(
                        self.images@,
                        state,
                        (next + 1) as nat,
                        self.images@.len(),
                    );
                }
                return Ok((target, phase));
            }
            next += 1;
        }
        Err(QmbedError::StateNotInBasis)
    }
}

} // verus!

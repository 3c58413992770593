//! Callback-defined bases with amplitudes in the Gaussian integers, as factors of a transition.

use vstd::prelude::*;

use crate::amplitudes::{ReductionImage, Turn};
use crate::assembly::Physical;
use crate::basis;
use crate::basis::{Basis, Factor, Transitions};
use crate::error::{QmbedError, Result};
use crate::linear::Gaussian;
use crate::reduction::{own_image, stands_for_itself, Reduction};
use crate::user::{user_walk, LocalAlgebra, UserBasis};

verus! {

/// A basis of explicit states with local operators of the user's own.
pub struct CallbackBasis<A> {
    basis: UserBasis<u128, Gaussian, A>,
}

/// A destination with its amplitude as the only factor.
pub open spec fn callback_transition(entry: (u128, Gaussian)) -> (u128, Seq<Factor<Turn>>) {
    (entry.0, seq![Factor::Whole(entry.1)])
}

impl<A: LocalAlgebra<u128, Gaussian>> CallbackBasis<A> {
    pub closed spec fn spec_basis(&self) -> UserBasis<u128, Gaussian, A> {
        self.basis
    }

    /// The basis with its states and its local operators.
    pub fn new(basis: UserBasis<u128, Gaussian, A>) -> (callback: Self)
        ensures
            callback.spec_basis() == basis,
    {
        CallbackBasis { basis }
    }

    pub fn basis(&self) -> (basis: &UserBasis<u128, Gaussian, A>)
        ensures
            *basis == self.spec_basis(),
    {
        &self.basis
    }
}

impl<A: LocalAlgebra<u128, Gaussian>> Basis for CallbackBasis<A> {
    type State = u128;

    type Phase = Turn;

    open spec fn wf(&self) -> bool {
        self.spec_basis().wf()
    }

    open spec fn spec_states(&self) -> Seq<u128> {
        self.spec_basis().spec_states()
    }

    open spec fn acts_on(&self, state: u128) -> bool {
        true
    }

    open spec fn spec_transitions(
        &self,
        state: u128,
        operator: Seq<char>,
        sites: Seq<usize>,
    ) -> core::result::Result<Seq<(u128, Seq<Factor<Turn>>)>, QmbedError> {
        match user_walk::<u128, Gaussian, A>(
            self.spec_basis().spec_algebra(),
            self.spec_basis().spec_sites(),
            state,
            operator,
            sites,
        ) {
            Ok(list) => Ok(Seq::new(list.len(), |i: int| callback_transition(list[i]))),
            Err(error) => Err(error),
        }
    }

    open spec fn spec_preserves(&self, operator: Seq<char>) -> core::result::Result<
        bool,
        QmbedError,
    > {
        Ok(true)
    }

    open spec fn spec_preserves_on_sites(
        &self,
        operator: Seq<char>,
        sites: Seq<usize>,
    ) -> core::result::Result<bool, QmbedError> {
        self.spec_preserves(operator)
    }

    open spec fn faithful(&self) -> bool {
        true
    }

    proof fn states_distinct(&self) {
        self.spec_basis().states_distinct();
    }

    proof fn acts_on_states(&self, index: int) {
    }

    fn len(&self) -> (length: usize) {
        self.basis.len()
    }

    fn state(&self, index: usize) -> (result: Result<u128>) {
        self.basis.state(index)
    }

    fn index(&self, state: u128) -> (result: Result<usize>) {
        self.basis.index(state)
    }

    fn apply_local_transitions(&self, state: u128, operator: &str, sites: &[usize]) -> (result:
        Result<Transitions<u128, Turn>>) {
        let list: Vec<(u128, Gaussian)> = match self.basis.visit_user_transitions(
            state,
            operator,
            sites,
        ) {
            Ok(list) => list,
            Err(error) => {
                return Err(error);
            },
        };
        let ghost stated = Seq::new(list@.len(), |i: int| callback_transition(list@[i]));
        let mut transitions: Transitions<u128, Turn> = Vec::new();
        let mut next: usize = 0;
        while next < list.len()
            invariant
                next <= list@.len(),
                stated == Seq::new(list@.len(), |i: int| callback_transition(list@[i])),
                transitions@.len() == next,
                forall|i: int|
                    0 <= i < next ==> (#[trigger] transitions@[i]).0 == stated[i].0
                        && transitions@[i].1@ == stated[i].1,
            decreases list@.len() - next,
        {
            let (target, amplitude) = list[next];
            let mut factors: Vec<Factor<Turn>> = Vec::new();
            factors.push(Factor::Whole(amplitude));
            assert(factors@ =~= stated[next as int].1);
            transitions.push((target, factors));
            next += 1;
        }
        assert(basis::transitions_view(transitions@) =~= stated);
        Ok(transitions)
    }

    fn operator_preserves_particle_sector_on_sites(
        &self,
        operator: &str,
        sites: &[usize],
    ) -> (result: Result<bool>) {
        self.operator_preserves_particle_sector(operator)
    }

    fn operator_preserves_particle_sector(&self, operator: &str) -> (result: Result<bool>) {
        Ok(true)
    }
}

impl<A: LocalAlgebra<u128, Gaussian>> Physical for CallbackBasis<A> {
    open spec fn spec_unreduced(&self, state: u128, operator: Seq<char>, sites: Seq<usize>) -> core::result::Result<
        Seq<(u128, Seq<Factor<Turn>>)>,
        QmbedError,
    > {
        self.spec_transitions(state, operator, sites)
    }

    fn apply_local_unreduced_transitions(&self, state: u128, operator: &str, sites: &[usize]) -> (
        result: Result<Transitions<u128, Turn>>) {
        self.apply_local_transitions(state, operator, sites)
    }
}

impl<A: LocalAlgebra<u128, Gaussian>> Reduction for CallbackBasis<A> {
    type Turned = Turn;

    open spec fn spec_reduction(&self, state: u128) -> core::result::Result<
        Option<(u128, Turn, usize)>,
        QmbedError,
    > {
        own_image(*self, state)
    }

    fn reduction_image(&self, state: u128) -> (result: Result<Option<ReductionImage<u128, Turn>>>) {
        stands_for_itself(self, state)
    }

    open spec fn spec_orbit_size(&self, state: u128) -> core::result::Result<usize, QmbedError> {
        Ok(1)
    }

    fn transition_orbit_size(&self, state: u128) -> (result: Result<usize>) {
        Ok(1)
    }
}

} // verus!

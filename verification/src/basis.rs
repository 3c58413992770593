//! What every basis offers: numbered states and local operators on them.

use vstd::prelude::*;

use crate::amplitudes::{LocalFactor, ReductionFactor};
use crate::error::{QmbedError, Result};
use crate::linear::Gaussian;
use crate::ordered::copy_list;

verus! {

/// One factor of a transition amplitude.
#[derive(Clone, Copy, Debug, PartialEq, Eq)]
pub enum Factor<Phase> {
    /// From a local operator symbol.
    Local(LocalFactor),
    /// An amplitude given as a Gaussian integer.
    Whole(Gaussian),
    /// From replacing the target by the representative of its orbit.
    Reduced(ReductionFactor<Phase>),
}

/// Destinations in order, each with the factors of its amplitude.
pub type Transitions<State, Phase> = Vec<(State, Vec<Factor<Phase>>)>;

/// The destinations as mathematical sequences.
pub open spec fn transitions_view<State, Phase>(
    transitions: Seq<(State, Vec<Factor<Phase>>)>,
) -> Seq<(State, Seq<Factor<Phase>>)> {
    transitions.map_values(|entry: (State, Vec<Factor<Phase>>)| (entry.0, entry.1@))
}

/// Whether a returned list of destinations is the stated one.
pub open spec fn transitions_are<State, Phase>(
    result: Result<Transitions<State, Phase>>,
    stated: core::result::Result<Seq<(State, Seq<Factor<Phase>>)>, QmbedError>,
) -> bool {
    match result {
        Ok(transitions) => stated == Ok::<Seq<(State, Seq<Factor<Phase>>)>, QmbedError>(
            transitions_view(transitions@),
        ),
        Err(error) => stated == Err::<Seq<(State, Seq<Factor<Phase>>)>, QmbedError>(error),
    }
}

/// Finite Hilbert-space basis and its local operator semantics.
///
/// A target may be listed more than once: its amplitude is the sum over its
/// entries, each the product of its factors.
pub trait Basis: Sized {
    /// Label of a basis state.
    type State: Copy;

    /// Phase that a symmetry reduction attaches to a state.
    type Phase: Copy;

    /// The invariant that constructors establish.
    spec fn wf(&self) -> bool;

    /// The basis states in order.
    spec fn spec_states(&self) -> Seq<Self::State>;

    /// The labels on which local operators can act.
    spec fn acts_on(&self, state: Self::State) -> bool;

    /// Destinations of a local operator string.
    spec fn spec_transitions(
        &self,
        state: Self::State,
        operator: Seq<char>,
        sites: Seq<usize>,
    ) -> core::result::Result<Seq<(Self::State, Seq<Factor<Self::Phase>>)>, QmbedError>;

    /// Whether a local operator string keeps the particle sectors of the basis.
    spec fn spec_preserves(&self, operator: Seq<char>) -> core::result::Result<bool, QmbedError>;

    /// Whether a local operator string on given sites keeps the particle sectors of the basis.
    spec fn spec_preserves_on_sites(
        &self,
        operator: Seq<char>,
        sites: Seq<usize>,
    ) -> core::result::Result<bool, QmbedError>;

    /// Whether labels are known to tell the states apart and local operators to act
    /// on all of them.
    spec fn faithful(&self) -> bool;

    /// No state is listed twice.
    proof fn states_distinct(&self)
        requires
            self.wf(),
            self.faithful(),
        ensures
            self.spec_states().no_duplicates(),
    ;

    /// Local operators act on every basis state.
    proof fn acts_on_states(&self, index: int)
        requires
            self.wf(),
            self.faithful(),
            0 <= index < self.spec_states().len(),
        ensures
            self.acts_on(self.spec_states()[index]),
    ;

    /// Number of basis states.
    fn len(&self) -> (length: usize)
        requires
            self.wf(),
        ensures
            length == self.spec_states().len(),
    ;

    /// The basis state number `index`.
    fn state(&self, index: usize) -> (result: Result<Self::State>)
        requires
            self.wf(),
        ensures
            match result {
                Ok(state) => {
                    &&& index < self.spec_states().len()
                    &&& state == self.spec_states()[index as int]
                },
                Err(error) => {
                    &&& index >= self.spec_states().len()
                    &&& error == QmbedError::StateNotInBasis
                },
            },
    ;

    /// The number of a basis state.
    fn index(&self, state: Self::State) -> (result: Result<usize>)
        requires
            self.wf(),
        ensures
            match result {
                Ok(index) => {
                    &&& index < self.spec_states().len()
                    &&& self.spec_states()[index as int] == state
                },
                Err(error) => {
                    &&& !self.spec_states().contains(state)
                    &&& error == QmbedError::StateNotInBasis
                },
            },
    ;

    /// Every destination of a local operator string.
    fn apply_local_transitions(
        &self,
        state: Self::State,
        operator: &str,
        sites: &[usize],
    ) -> (result: Result<Transitions<Self::State, Self::Phase>>)
        requires
            self.wf(),
            self.acts_on(state),
        ensures
            transitions_are(result, self.spec_transitions(state, operator@, sites@)),
    ;

    /// Whether a local operator string keeps the particle sectors of the basis.
    fn operator_preserves_particle_sector(&self, operator: &str) -> (result: Result<bool>)
        requires
            self.wf(),
            operator@.len() < i32::MAX,
        ensures
            result == self.spec_preserves(operator@),
    ;

    /// Whether a local operator string on given sites keeps the particle sectors of the basis.
    ///
    /// Most bases look at the string alone.
    fn operator_preserves_particle_sector_on_sites(
        &self,
        operator: &str,
        sites: &[usize],
    ) -> (result: Result<bool>)
        requires
            self.wf(),
            operator@.len() < i32::MAX,
        ensures
            result == self.spec_preserves_on_sites(operator@, sites@),
    ;

    /// Whether the basis has no state.
    fn is_empty(&self) -> (empty: bool)
        requires
            self.wf(),
        ensures
            empty == (self.spec_states().len() == 0),
    {
        self.len() == 0
    }
}

/// The number of a basis state leads back to the state, and the state to its number.
pub proof fn law_index_inverts_state<B: Basis>(basis: &B, index: int, found: int)
    requires
        basis.wf(),
        basis.faithful(),
        0 <= index < basis.spec_states().len(),
        0 <= found < basis.spec_states().len(),
        basis.spec_states()[found] == basis.spec_states()[index],
    ensures
        found == index,
{
    basis.states_distinct();
}

/// The only destination of an action that does not branch.
pub open spec fn single_transition<State, Phase>(
    stated: core::result::Result<Seq<(State, Seq<Factor<Phase>>)>, QmbedError>,
    branches: QmbedError,
) -> core::result::Result<Option<(State, Seq<Factor<Phase>>)>, QmbedError> {
    match stated {
        Ok(transitions) => if transitions.len() == 0 {
            Ok(None)
        } else if transitions.len() == 1 {
            Ok(Some(transitions[0]))
        } else {
            Err(branches)
        },
        Err(error) => Err(error),
    }
}

/// Whether a returned destination is the stated one.
pub open spec fn transition_is<State, Phase>(
    result: Result<Option<(State, Vec<Factor<Phase>>)>>,
    stated: core::result::Result<Option<(State, Seq<Factor<Phase>>)>, QmbedError>,
) -> bool {
    match result {
        Ok(Some(transition)) => stated == Ok::<
            Option<(State, Seq<Factor<Phase>>)>,
            QmbedError,
        >(Some((transition.0, transition.1@))),
        Ok(None) => stated == Ok::<Option<(State, Seq<Factor<Phase>>)>, QmbedError>(None),
        Err(error) => stated == Err::<Option<(State, Seq<Factor<Phase>>)>, QmbedError>(error),
    }
}

/// The only destination of a list, refused with `branches` where there are more.
pub fn only_transition<State, Phase>(
    transitions: Transitions<State, Phase>,
    branches: QmbedError,
) -> (result: Result<Option<(State, Vec<Factor<Phase>>)>>)
    ensures
        transition_is(
            result,
            single_transition(
                Ok::<Seq<(State, Seq<Factor<Phase>>)>, QmbedError>(
                    transitions_view(transitions@),
                ),
                branches,
            ),
        ),
{
    let mut transitions = transitions;
    let ghost start = transitions@;
    if transitions.len() == 0 {
        return Ok(None);
    }
    if transitions.len() > 1 {
        return Err(branches);
    }
    let last = transitions.pop();
    assert(transitions_view(start)[0] == (start[0].0, start[0].1@));
    Ok(last)
}

/// Local factors as amplitude factors.
pub open spec fn local_factors<Phase>(factors: Seq<LocalFactor>) -> Seq<Factor<Phase>> {
    factors.map_values(|factor: LocalFactor| Factor::<Phase>::Local(factor))
}

/// Local factors as amplitude factors.
pub fn wrap_factors<Phase: Copy>(factors: &Vec<LocalFactor>) -> (wrapped: Vec<Factor<Phase>>)
    ensures
        wrapped@ == local_factors::<Phase>(factors@),
{
    let mut wrapped: Vec<Factor<Phase>> = Vec::new();
    let mut next: usize = 0;
    while next < factors.len()
        invariant
            next <= factors@.len(),
            wrapped@.len() == next,
            forall|i: int| 0 <= i < next ==> #[trigger] wrapped@[i] == Factor::<Phase>::Local(
                factors@[i],
            ),
        decreases factors@.len() - next,
    {
        wrapped.push(Factor::Local(factors[next]));
        next += 1;
    }
    assert(wrapped@ =~= local_factors::<Phase>(factors@));
    wrapped
}

/// States of two parts taken together.
#[derive(Clone, Copy, Debug, PartialEq, Eq)]
pub struct Pair<A, B> {
    /// State of the first part.
    pub left: A,
    /// State of the second part.
    pub right: B,
}

/// Phase of one of two parts.
#[derive(Clone, Copy, Debug, PartialEq, Eq)]
pub enum EitherPhase<L, R> {
    /// Phase of the first part.
    Left(L),
    /// Phase of the second part.
    Right(R),
}

/// A factor of the first part.
pub open spec fn left_factor<L, R>(factor: Factor<L>) -> Factor<EitherPhase<L, R>> {
    match factor {
        Factor::Local(local) => Factor::Local(local),
        Factor::Whole(value) => Factor::Whole(value),
        Factor::Reduced(reduced) => Factor::Reduced(
            ReductionFactor {
                source_orbit: reduced.source_orbit,
                target_orbit: reduced.target_orbit,
                phase: EitherPhase::Left(reduced.phase),
            },
        ),
    }
}

/// A factor of the second part.
pub open spec fn right_factor<L, R>(factor: Factor<R>) -> Factor<EitherPhase<L, R>> {
    match factor {
        Factor::Local(local) => Factor::Local(local),
        Factor::Whole(value) => Factor::Whole(value),
        Factor::Reduced(reduced) => Factor::Reduced(
            ReductionFactor {
                source_orbit: reduced.source_orbit,
                target_orbit: reduced.target_orbit,
                phase: EitherPhase::Right(reduced.phase),
            },
        ),
    }
}

/// Factors of the first part.
pub open spec fn left_factors<L, R>(factors: Seq<Factor<L>>) -> Seq<Factor<EitherPhase<L, R>>> {
    Seq::new(factors.len(), |i: int| left_factor::<L, R>(factors[i]))
}

/// Factors of the second part.
pub open spec fn right_factors<L, R>(factors: Seq<Factor<R>>) -> Seq<Factor<EitherPhase<L, R>>> {
    Seq::new(factors.len(), |i: int| right_factor::<L, R>(factors[i]))
}

/// Appends factors of the first part.
pub fn append_left<L: Copy, R: Copy>(
    target: &mut Vec<Factor<EitherPhase<L, R>>>,
    factors: &Vec<Factor<L>>,
)
    ensures
        final(target)@ == old(target)@ + left_factors::<L, R>(factors@),
{
    let ghost before = target@;
    let mut next: usize = 0;
    assert(before + left_factors::<L, R>(factors@).take(0) =~= before);
    while next < factors.len()
        invariant
            next <= factors@.len(),
            target@ == before + left_factors::<L, R>(factors@).take(next as int),
        decreases factors@.len() - next,
    {
        let lifted: Factor<EitherPhase<L, R>> = match factors[next] {
            Factor::Local(local) => Factor::Local(local),
            Factor::Whole(value) => Factor::Whole(value),
            Factor::Reduced(reduced) => Factor::Reduced(
                ReductionFactor {
                    source_orbit: reduced.source_orbit,
                    target_orbit: reduced.target_orbit,
                    phase: EitherPhase::Left(reduced.phase),
                },
            ),
        };
        target.push(lifted);
        next += 1;
        assert(before + left_factors::<L, R>(factors@).take(next as int) =~= (before
            + left_factors::<L, R>(factors@).take(next - 1)).push(lifted));
    }
    assert(left_factors::<L, R>(factors@).take(next as int) =~= left_factors::<L, R>(factors@));
}

/// Appends factors of the second part.
pub fn append_right<L: Copy, R: Copy>(
    target: &mut Vec<Factor<EitherPhase<L, R>>>,
    factors: &Vec<Factor<R>>,
)
    ensures
        final(target)@ == old(target)@ + right_factors::<L, R>(factors@),
{
    let ghost before = target@;
    let mut next: usize = 0;
    assert(before + right_factors::<L, R>(factors@).take(0) =~= before);
    while next < factors.len()
        invariant
            next <= factors@.len(),
            target@ == before + right_factors::<L, R>(factors@).take(next as int),
        decreases factors@.len() - next,
    {
        let lifted: Factor<EitherPhase<L, R>> = match factors[next] {
            Factor::Local(local) => Factor::Local(local),
            Factor::Whole(value) => Factor::Whole(value),
            Factor::Reduced(reduced) => Factor::Reduced(
                ReductionFactor {
                    source_orbit: reduced.source_orbit,
                    target_orbit: reduced.target_orbit,
                    phase: EitherPhase::Right(reduced.phase),
                },
            ),
        };
        target.push(lifted);
        next += 1;
        assert(before + right_factors::<L, R>(factors@).take(next as int) =~= (before
            + right_factors::<L, R>(factors@).take(next - 1)).push(lifted));
    }
    assert(right_factors::<L, R>(factors@).take(next as int) =~= right_factors::<L, R>(factors@));
}

/// The same factors again.
pub fn copy_factors<Phase: Copy>(factors: &Vec<Factor<Phase>>) -> (copy: Vec<Factor<Phase>>)
    ensures
        copy@ == factors@,
{
    copy_list(factors)
}

} // verus!

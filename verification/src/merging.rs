//! Local transitions with the amplitudes of equal destinations added up.

use vstd::prelude::*;

use crate::amplitudes::Turn;
use crate::assembly;
use crate::assembly::{hold, weigh, Weighing};
use crate::basis;
use crate::basis::{Basis, Factor, Transitions};
use crate::error::{QmbedError, Reason, Result};
use crate::fermion::SpinlessFermionBasis1D;
use crate::general::GeneralBasis;
use crate::linear::Scalar;
use crate::ordered;
use crate::ordered::{sort_dedup, Bounded, Coded};
use crate::spin::SpinBasis1D;
use crate::symmetry::{same_state, SymmetryMap};
use crate::user;

verus! {

/// Destinations with their amplitudes as scalars.
pub open spec fn weighed_list<State, Phase, S: Weighing<Phase>>(
    transitions: Seq<(State, Seq<Factor<Phase>>)>,
) -> Seq<(State, S)> {
    Seq::new(
        transitions.len(),
        |i: int|
            (
                transitions[i].0,
                assembly::weighed(S::spec_one(), transitions[i].1, transitions[i].1.len()),
            ),
    )
}

fn weigh_list<State: Copy, Phase, S: Weighing<Phase>>(transitions: &Transitions<State, Phase>) -> (list:
    Vec<(State, S)>)
    ensures
        list@ == weighed_list::<State, Phase, S>(basis::transitions_view(transitions@)),
{
    let ghost stated = basis::transitions_view(transitions@);
    let mut list: Vec<(State, S)> = Vec::new();
    let mut next: usize = 0;
    while next < transitions.len()
        invariant
            next <= transitions@.len(),
            stated == basis::transitions_view(transitions@),
            list@ == weighed_list::<State, Phase, S>(stated).take(next as int),
        decreases transitions@.len() - next,
    {
        let value: S = weigh(S::one(), &transitions[next].1);
        let ghost before = list@;
        assert(stated[next as int] == (transitions@[next as int].0, transitions@[next as int].1@));
        list.push((transitions[next].0, value));
        next += 1;
        assert(list@ =~= weighed_list::<State, Phase, S>(stated).take(next as int));
    }
    assert(list@ =~= weighed_list::<State, Phase, S>(stated));
    list
}

/// Destinations that occur, each once with the sum of its amplitudes and in the order of the
/// states; negligible sums are left out.
pub open spec fn merged<State: Coded, S: Scalar>(
    list: Seq<(State, S)>,
    sums: Seq<(State, S)>,
) -> bool {
    &&& user::added_up(list, sums)
    &&& forall|i: int, j: int|
        0 <= i < j < sums.len() ==> (#[trigger] sums[i]).0.rank() < (#[trigger] sums[j]).0.rank()
}

fn total<State: Bounded, S: Scalar>(list: &Vec<(State, S)>, target: State) -> (sum: S)
    ensures
        sum == user::total_amplitude(list@, target, list@.len()),
{
    let mut sum: S = S::zero();
    let mut next: usize = 0;
    while next < list.len()
        invariant
            next <= list@.len(),
            sum == user::total_amplitude(list@, target, next as nat),
        decreases list@.len() - next,
    {
        let (state, amplitude) = list[next];
        if same_state(state, target) {
            sum = sum.plus(&amplitude);
        }
        next += 1;
    }
    sum
}

/// Adds up the amplitudes of equal destinations.
pub fn merge<State: Bounded, S: Scalar>(list: &Vec<(State, S)>) -> (sums: Vec<(State, S)>)
    ensures
        merged(list@, sums@),
{
    let mut targets: Vec<State> = Vec::new();
    let mut next: usize = 0;
    while next < list.len()
        invariant
            next <= list@.len(),
            targets@.len() == next,
            forall|i: int| 0 <= i < next ==> #[trigger] targets@[i] == list@[i].0,
        decreases list@.len() - next,
    {
        targets.push(list[next].0);
        next += 1;
    }
    let states: Vec<State> = sort_dedup(&targets);
    proof {
        assert forall|i: int| 0 <= i < states@.len() implies user::occurs(
            list@,
            #[trigger] states@[i],
            list@.len(),
        ) by {
            assert(states@.contains(states@[i]));
            let k = targets@.index_of(states@[i]);
            assert(targets@[k] == states@[i]);
            assert(list@[k].0 == states@[i]);
        }
        assert forall|target: State|
            user::occurs(list@, target, list@.len()) implies #[trigger] states@.contains(
            target,
        ) by {
            let k = choose|k: int| 0 <= k < list@.len() && (#[trigger] list@[k]).0 == target;
            assert(targets@[k] == target);
            assert(targets@.contains(target));
        }
    }
    let mut sums: Vec<(State, S)> = Vec::new();
    let mut place: usize = 0;
    while place < states.len()
        invariant
            place <= states@.len(),
            ordered::strictly_sorted(states@),
            forall|i: int|
                0 <= i < states@.len() ==> user::occurs(
                    list@,
                    #[trigger] states@[i],
                    list@.len(),
                ),
            forall|i: int|
                0 <= i < sums@.len() ==> user::occurs(list@, (#[trigger] sums@[i]).0, list@.len())
                    && sums@[i].1 == user::total_amplitude(list@, sums@[i].0, list@.len())
                    && !sums@[i].1.spec_is_negligible(),
            forall|i: int, j: int|
                0 <= i < j < sums@.len() ==> (#[trigger] sums@[i]).0.rank() < (
                #[trigger] sums@[j]).0.rank(),
            forall|i: int, k: int|
                0 <= i < sums@.len() && place <= k < states@.len() ==> (#[trigger] sums@[i]).0.rank()
                    < (#[trigger] states@[k]).rank(),
            forall|k: int|
                0 <= k < place && !user::total_amplitude(
                    list@,
                    #[trigger] states@[k],
                    list@.len(),
                ).spec_is_negligible() ==> user::occurs(sums@, states@[k], sums@.len()),
        decreases states@.len() - place,
    {
        let target: State = states[place];
        let sum: S = total(list, target);
        let ghost before = sums@;
        if !sum.is_negligible() {
            sums.push((target, sum));
            assert(sums@[before.len() as int].0 == target);
        }
        place += 1;
        proof {
            assert forall|k: int|
                0 <= k < place && !user::total_amplitude(
                    list@,
                    #[trigger] states@[k],
                    list@.len(),
                ).spec_is_negligible() implies user::occurs(sums@, states@[k], sums@.len()) by {
                if k < place - 1 {
                    let i = choose|i: int|
                        0 <= i < before.len() && (#[trigger] before[i]).0 == states@[k];
                    assert(sums@[i].0 == states@[k]);
                }
            }
        }
    }
    proof {
        assert forall|target: State|
            user::occurs(list@, target, list@.len()) && !(#[trigger] user::total_amplitude(
                list@,
                target,
                list@.len(),
            )).spec_is_negligible() implies user::occurs(sums@, target, sums@.len()) by {
            assert(states@.contains(target));
            let k = states@.index_of(target);
            assert(states@[k] == target);
        }
    }
    sums
}

/// Destinations of a local operator string, each once with its amplitude as a scalar.
pub fn merged_transitions<B: Basis, S: Weighing<B::Phase>>(
    basis: &B,
    state: B::State,
    operator: &str,
    sites: &[usize],
) -> (result: Result<Vec<(B::State, S)>>) where B::State: Bounded
    requires
        basis.wf(),
        basis.acts_on(state),
    ensures
        match (
            assembly::held::<B::State, B::Phase, S>(
                basis.spec_transitions(state, operator@, sites@),
            ),
            result,
        ) {
            (Ok(transitions), Ok(sums)) => merged(
                weighed_list::<B::State, B::Phase, S>(transitions),
                sums@,
            ),
            (Err(stated), Err(error)) => error == stated,
            _ => false,
        },
{
    match hold::<B::State, B::Phase, S>(basis.apply_local_transitions(state, operator, sites)) {
        Ok(transitions) => Ok(merge(&weigh_list(&transitions))),
        Err(error) => Err(error),
    }
}

/// Whether a returned destination is the only one of a list.
pub open spec fn only_one<State, S>(
    result: Result<Option<(State, S)>>,
    list: Seq<(State, S)>,
    branches: QmbedError,
) -> bool {
    match result {
        Ok(None) => list.len() == 0,
        Ok(Some(found)) => list =~= seq![found],
        Err(error) => list.len() > 1 && error == branches,
    }
}

fn take_only<State: Copy, S: Copy>(list: &Vec<(State, S)>, branches: QmbedError) -> (result: Result<
    Option<(State, S)>,
>)
    ensures
        only_one(result, list@, branches),
{
    if list.len() == 0 {
        Ok(None)
    } else if list.len() == 1 {
        Ok(Some(list[0]))
    } else {
        Err(branches)
    }
}

/// Whether a returned destination is the only one of what the equal ones of a list add up to.
pub open spec fn only_merged<State: Coded, S: Scalar>(
    result: Result<Option<(State, S)>>,
    list: Seq<(State, S)>,
    branches: QmbedError,
) -> bool {
    exists|sums: Seq<(State, S)>| #[trigger]
        merged(list, sums) && only_one(result, sums, branches)
}

impl SpinBasis1D {
    /// The only destination of a local operator string. In a symmetry sector equal
    /// destinations are added up first.
    pub fn apply_local<S: Weighing<Turn>>(&self, state: u128, operator: &str, sites: &[usize]) -> (result:
        Result<Option<(u128, S)>>)
        requires
            self.wf(),
            self.acts_on(state),
        ensures
            match assembly::held::<u128, Turn, S>(self.spec_transitions(state, operator@, sites@)) {
                Err(error) => result matches Err(found) && found == error,
                Ok(transitions) => {
                    let list = weighed_list::<u128, Turn, S>(transitions);
                    let branches = QmbedError::UnsupportedBackend(
                        Reason::Text("this higher-spin local action branches; use apply_local_transitions"),
                    );
                    if self@.reduced() {
                        only_merged(result, list, branches)
                    } else {
                        only_one(result, list, branches)
                    }
                },
            },
    {
        let branches: QmbedError = QmbedError::UnsupportedBackend(
            Reason::Text("this higher-spin local action branches; use apply_local_transitions"),
        );
        let reduced: bool = self.momentum().is_some() || self.parity().is_some();
        match hold::<u128, Turn, S>(self.apply_local_transitions(state, operator, sites)) {
            Ok(transitions) => {
                let list: Vec<(u128, S)> = weigh_list(&transitions);
                if reduced {
                    take_only(&merge(&list), branches)
                } else {
                    take_only(&list, branches)
                }
            },
            Err(error) => Err(error),
        }
    }
}

impl SpinlessFermionBasis1D {
    /// The only destination of a local operator string.
    pub fn apply_local<S: Weighing<Turn>>(&self, state: u128, operator: &str, sites: &[usize]) -> (result:
        Result<Option<(u128, S)>>)
        requires
            self.wf(),
            self.acts_on(state),
        ensures
            match assembly::held::<u128, Turn, S>(self.spec_transitions(state, operator@, sites@)) {
                Err(error) => result matches Err(found) && found == error,
                Ok(transitions) => only_one(
                    result,
                    weighed_list::<u128, Turn, S>(transitions),
                    QmbedError::UnsupportedBackend(
                        Reason::Text("this local action branches; use apply_local_transitions"),
                    ),
                ),
            },
    {
        match hold::<u128, Turn, S>(self.apply_local_transitions(state, operator, sites)) {
            Ok(transitions) => take_only(
                &weigh_list(&transitions),
                QmbedError::UnsupportedBackend(
                    Reason::Text("this local action branches; use apply_local_transitions"),
                ),
            ),
            Err(error) => Err(error),
        }
    }
}

impl<Parent: Basis, M> GeneralBasis<Parent, M> where
    Parent::State: Bounded,
    M: SymmetryMap<Parent::State>,
 {
    /// The only destination of a local operator string, once equal ones are added up.
    pub fn apply_local<S>(&self, state: Parent::State, operator: &str, sites: &[usize]) -> (result: Result<
        Option<(Parent::State, S)>,
    >) where S: Weighing<basis::EitherPhase<Parent::Phase, M::Factor>>
        requires
            self.wf(),
            self.acts_on(state),
        ensures
            match assembly::held::<
                Parent::State,
                basis::EitherPhase<Parent::Phase, M::Factor>,
                S,
            >(self.spec_transitions(state, operator@, sites@)) {
                Err(error) => result matches Err(found) && found == error,
                Ok(transitions) => only_merged(
                    result,
                    weighed_list::<
                        Parent::State,
                        basis::EitherPhase<Parent::Phase, M::Factor>,
                        S,
                    >(transitions),
                    QmbedError::UnsupportedBackend(
                        Reason::Text("this reduced local action branches; use apply_local_transitions"),
                    ),
                ),
            },
    {
        match merged_transitions::<Self, S>(self, state, operator, sites) {
            Ok(sums) => take_only(
                &sums,
                QmbedError::UnsupportedBackend(
                    Reason::Text("this reduced local action branches; use apply_local_transitions"),
                ),
            ),
            Err(error) => Err(error),
        }
    }
}

} // verus!

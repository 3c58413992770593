//! Matrices of local terms on a basis, and their action on physical states.

use vstd::prelude::*;

use crate::amplitudes::{LocalFactor, ReductionFactor, Turn};
use crate::basis;
use crate::basis::{Basis, EitherPhase, Factor, Pair, Transitions};
use crate::checks;
use crate::checks::AssemblyChecks;
use crate::boson;
use crate::boson::BosonBasis1D;
use crate::ensemble;
use crate::error::{QmbedError, Reason, Result};
use crate::family;
use crate::family::{ComponentModel, QuantumComponent};
use crate::fermion;
use crate::fermion::SpinlessFermionBasis1D;
use crate::general::GeneralBasis;
use crate::interop;
use crate::interop::{apply_operator_batch, FamilyModel, OperatorAction, PackedOperatorModel};
use crate::linear;
use crate::linear::{Gaussian, LinearOperator, MatrixFormat, Operator, OperatorModel, Scalar};
use crate::matrix_subspace;
use crate::matrix_subspace::{refuse_value, PhaseScalar};
use crate::model;
use crate::model::{
    Coupling, CouplingModel, EdModel, OperatorSpec, PackedTermComponent, TermComponentModel,
    TermModel,
};
use crate::ordered::{Bounded, Coded};
use crate::photon::PhotonBasis;
use crate::spin;
use crate::spin::SpinBasis1D;
use crate::spinful::SpinfulFermionBasis1D;
use crate::symbols;
use crate::symmetry::SymmetryMap;
use crate::tensor::TensorBasis;
use crate::user::{LocalAlgebra, UserBasis};
use crate::wide::WideState;
use crate::wide_spin::WideSpinBasis;

verus! {

/// Scalars that hold the amplitudes of local transitions.
pub trait Weighing<Phase>: Scalar {
    /// Whether the scalars hold the value of a factor.
    spec fn spec_holds(factor: Factor<Phase>) -> bool;

    /// Whether the scalars hold the value of a factor.
    fn holds(factor: &Factor<Phase>) -> (answer: bool)
        ensures
            answer == Self::spec_holds(*factor),
    ;

    spec fn spec_factor(factor: Factor<Phase>) -> Self;

    fn factor(factor: &Factor<Phase>) -> (value: Self)
        ensures
            value == Self::spec_factor(*factor),
    ;
}

/// The integer that a local factor is, apart from the imaginary unit, if it is one.
///
/// No root counts but that of one, and that of zero.
pub open spec fn whole_value(local: LocalFactor) -> Option<int> {
    if local.numerator == 0 || local.radicand == 0 {
        Some(0)
    } else if local.radicand != 1 {
        None
    } else if !local.halved {
        Some(local.numerator as int)
    } else if local.numerator % 2 == 0 {
        Some(local.numerator as int / 2)
    } else {
        None
    }
}

fn find_whole(local: &LocalFactor) -> (value: Option<i64>)
    ensures
        match value {
            Some(found) => whole_value(*local) == Some(found as int),
            None => match whole_value(*local) {
                Some(stated) => stated < i64::MIN || stated > i64::MAX,
                None => true,
            },
        },
{
    let numerator: i128 = local.numerator;
    if numerator == 0 || local.radicand == 0 {
        return Some(0);
    }
    if local.radicand != 1 {
        return None;
    }
    if !local.halved {
        if numerator < -0x8000_0000_0000_0000 || numerator > 0x7FFF_FFFF_FFFF_FFFF {
            return None;
        }
        return Some(numerator as i64);
    }
    if numerator < -0x1_0000_0000_0000_0000 || numerator > 0xFFFF_FFFF_FFFF_FFFF {
        return None;
    }
    if numerator > 0 {
        let size: u128 = numerator as u128;
        if size % 2 != 0 {
            return None;
        }
        Some((size / 2) as i64)
    } else {
        let size: u128 = (0 - numerator) as u128;
        if size % 2 != 0 {
            return None;
        }
        Some((0 - (size / 2) as i128) as i64)
    }
}

/// The Gaussian integers hold whole factors, with no changes of the orbit size and no turns but
/// quarters.
impl Weighing<Turn> for Gaussian {
    open spec fn spec_holds(factor: Factor<Turn>) -> bool {
        match factor {
            Factor::Local(local) => whole_value(local) matches Some(value) && i64::MIN <= value
                <= i64::MAX,
            Factor::Whole(_) => true,
            Factor::Reduced(reduced) => reduced.source_orbit == reduced.target_orbit
                && <Gaussian as PhaseScalar<Turn>>::spec_holds_phase(reduced.phase),
        }
    }

    fn holds(factor: &Factor<Turn>) -> (answer: bool) {
        match factor {
            Factor::Local(local) => find_whole(local).is_some(),
            Factor::Whole(_) => true,
            Factor::Reduced(reduced) => reduced.source_orbit == reduced.target_orbit
                && Gaussian::holds_phase(&reduced.phase),
        }
    }

    open spec fn spec_factor(factor: Factor<Turn>) -> Self {
        if !Self::spec_holds(factor) {
            Gaussian { re: 0, im: 0 }
        } else {
            match factor {
                Factor::Local(local) => {
                    let value = whole_value(local)->0 as i64;
                    if local.imaginary {
                        Gaussian { re: 0, im: value }
                    } else {
                        Gaussian { re: value, im: 0 }
                    }
                },
                Factor::Whole(value) => value,
                Factor::Reduced(reduced) => <Gaussian as PhaseScalar<Turn>>::spec_from_phase(
                    reduced.phase,
                ).spec_conjugate(),
            }
        }
    }

    fn factor(factor: &Factor<Turn>) -> (value: Self) {
        if !<Gaussian as Weighing<Turn>>::holds(factor) {
            return Gaussian { re: 0, im: 0 };
        }
        match factor {
            Factor::Local(local) => {
                let value: i64 = match find_whole(local) {
                    Some(value) => value,
                    None => 0,
                };
                if local.imaginary {
                    Gaussian { re: 0, im: value }
                } else {
                    Gaussian { re: value, im: 0 }
                }
            },
            Factor::Whole(value) => *value,
            Factor::Reduced(reduced) => Gaussian::from_phase(&reduced.phase).conjugate(),
        }
    }
}

/// The factor with the phase of either origin.
pub open spec fn merged_factor(factor: Factor<EitherPhase<Turn, Turn>>) -> Factor<Turn> {
    match factor {
        Factor::Local(local) => Factor::Local(local),
        Factor::Whole(value) => Factor::Whole(value),
        Factor::Reduced(reduced) => Factor::Reduced(
            ReductionFactor {
                source_orbit: reduced.source_orbit,
                target_orbit: reduced.target_orbit,
                phase: match reduced.phase {
                    EitherPhase::Left(turn) => turn,
                    EitherPhase::Right(turn) => turn,
                },
            },
        ),
    }
}

fn merge_factor(factor: &Factor<EitherPhase<Turn, Turn>>) -> (merged: Factor<Turn>)
    ensures
        merged == merged_factor(*factor),
{
    match factor {
        Factor::Local(local) => Factor::Local(*local),
        Factor::Whole(value) => Factor::Whole(*value),
        Factor::Reduced(reduced) => Factor::Reduced(
            ReductionFactor {
                source_orbit: reduced.source_orbit,
                target_orbit: reduced.target_orbit,
                phase: match reduced.phase {
                    EitherPhase::Left(turn) => turn,
                    EitherPhase::Right(turn) => turn,
                },
            },
        ),
    }
}

impl Weighing<EitherPhase<Turn, Turn>> for Gaussian {
    open spec fn spec_holds(factor: Factor<EitherPhase<Turn, Turn>>) -> bool {
        <Gaussian as Weighing<Turn>>::spec_holds(merged_factor(factor))
    }

    fn holds(factor: &Factor<EitherPhase<Turn, Turn>>) -> (answer: bool) {
        <Gaussian as Weighing<Turn>>::holds(&merge_factor(factor))
    }

    open spec fn spec_factor(factor: Factor<EitherPhase<Turn, Turn>>) -> Self {
        <Gaussian as Weighing<Turn>>::spec_factor(merged_factor(factor))
    }

    fn factor(factor: &Factor<EitherPhase<Turn, Turn>>) -> (value: Self) {
        <Gaussian as Weighing<Turn>>::factor(&merge_factor(factor))
    }
}

/// Whether the scalars hold all factors of an amplitude.
pub open spec fn all_held<Phase, S: Weighing<Phase>>(factors: Seq<Factor<Phase>>) -> bool {
    forall|i: int| 0 <= i < factors.len() ==> S::spec_holds(#[trigger] factors[i])
}

/// Whether the scalars hold the amplitudes of all destinations.
pub open spec fn amplitudes_held<State, Phase, S: Weighing<Phase>>(
    transitions: Seq<(State, Seq<Factor<Phase>>)>,
) -> bool {
    forall|i: int|
        0 <= i < transitions.len() ==> all_held::<Phase, S>((#[trigger] transitions[i]).1)
}

/// Destinations whose amplitudes the scalars hold; others are refused.
pub open spec fn held<State, Phase, S: Weighing<Phase>>(
    transitions: core::result::Result<Seq<(State, Seq<Factor<Phase>>)>, QmbedError>,
) -> core::result::Result<Seq<(State, Seq<Factor<Phase>>)>, QmbedError> {
    match transitions {
        Ok(list) => if amplitudes_held::<State, Phase, S>(list) {
            Ok(list)
        } else {
            Err(matrix_subspace::no_value())
        },
        Err(error) => Err(error),
    }
}

fn holds_all<Phase, S: Weighing<Phase>>(factors: &Vec<Factor<Phase>>) -> (answer: bool)
    ensures
        answer == all_held::<Phase, S>(factors@),
{
    let mut next: usize = 0;
    while next < factors.len()
        invariant
            next <= factors@.len(),
            forall|i: int| 0 <= i < next ==> S::spec_holds(#[trigger] factors@[i]),
        decreases factors@.len() - next,
    {
        if !S::holds(&factors[next]) {
            return false;
        }
        next += 1;
    }
    true
}

fn holds_amplitudes<State, Phase, S: Weighing<Phase>>(list: &Transitions<State, Phase>) -> (answer:
    bool)
    ensures
        answer == amplitudes_held::<State, Phase, S>(basis::transitions_view(list@)),
{
    let ghost view = basis::transitions_view(list@);
    let mut next: usize = 0;
    while next < list.len()
        invariant
            next <= list@.len(),
            view == basis::transitions_view(list@),
            forall|i: int| 0 <= i < next ==> all_held::<Phase, S>((#[trigger] view[i]).1),
        decreases list@.len() - next,
    {
        assert(view[next as int].1 == list@[next as int].1@);
        if !holds_all::<Phase, S>(&list[next].1) {
            return false;
        }
        next += 1;
    }
    true
}

/// Refuses destinations whose amplitudes the scalars do not hold.
pub fn hold<State, Phase, S: Weighing<Phase>>(transitions: Result<Transitions<State, Phase>>) -> (result:
    Result<Transitions<State, Phase>>)
    ensures
        match (transitions, result) {
            (Ok(list), Ok(kept)) => kept == list && amplitudes_held::<State, Phase, S>(
                basis::transitions_view(list@),
            ),
            (Ok(list), Err(error)) => error == matrix_subspace::no_value() && !amplitudes_held::<
                State,
                Phase,
                S,
            >(basis::transitions_view(list@)),
            (Err(given), Err(error)) => error == given,
            _ => false,
        },
{
    match transitions {
        Ok(list) => if holds_amplitudes::<State, Phase, S>(&list) {
            Ok(list)
        } else {
            Err(refuse_value())
        },
        Err(error) => Err(error),
    }
}

/// A number times the first factors of an amplitude.
pub open spec fn weighed<Phase, S: Weighing<Phase>>(
    start: S,
    factors: Seq<Factor<Phase>>,
    count: nat,
) -> S
    decreases count,
{
    if count == 0 {
        start
    } else {
        weighed(start, factors, (count - 1) as nat).spec_times(S::spec_factor(factors[count - 1]))
    }
}

pub fn weigh<Phase, S: Weighing<Phase>>(start: S, factors: &Vec<Factor<Phase>>) -> (value: S)
    ensures
        value == weighed(start, factors@, factors@.len()),
{
    let mut value: S = start;
    let mut next: usize = 0;
    while next < factors.len()
        invariant
            next <= factors@.len(),
            value == weighed(start, factors@, next as nat),
        decreases factors@.len() - next,
    {
        value = value.times(&S::factor(&factors[next]));
        next += 1;
    }
    value
}

/// Bases whose local operators can be seen before a symmetry reduction.
pub trait Physical: Basis {
    /// Destinations of a local operator string that no symmetry has replaced.
    spec fn spec_unreduced(
        &self,
        state: Self::State,
        operator: Seq<char>,
        sites: Seq<usize>,
    ) -> core::result::Result<Seq<(Self::State, Seq<Factor<Self::Phase>>)>, QmbedError>;

    /// Every destination of a local operator string, not replaced by a representative.
    fn apply_local_unreduced_transitions(
        &self,
        state: Self::State,
        operator: &str,
        sites: &[usize],
    ) -> (result: Result<Transitions<Self::State, Self::Phase>>)
        requires
            self.wf(),
            self.acts_on(state),
        ensures
            basis::transitions_are(result, self.spec_unreduced(state, operator@, sites@)),
    ;
}

impl Physical for BosonBasis1D {
    open spec fn spec_unreduced(&self, state: u128, operator: Seq<char>, sites: Seq<usize>) -> core::result::Result<
        Seq<(u128, Seq<Factor<Turn>>)>,
        QmbedError,
    > {
        self.spec_transitions(state, operator, sites)
    }

    fn apply_local_unreduced_transitions(&self, state: u128, operator: &str, sites: &[usize]) -> (
        result: Result<Transitions<u128, Turn>>) {
        self.apply_local_transitions(state, operator, sites)
    }
}

impl Physical for SpinfulFermionBasis1D {
    open spec fn spec_unreduced(&self, state: u128, operator: Seq<char>, sites: Seq<usize>) -> core::result::Result<
        Seq<(u128, Seq<Factor<Turn>>)>,
        QmbedError,
    > {
        self.spec_transitions(state, operator, sites)
    }

    fn apply_local_unreduced_transitions(&self, state: u128, operator: &str, sites: &[usize]) -> (
        result: Result<Transitions<u128, Turn>>) {
        self.apply_local_transitions(state, operator, sites)
    }
}

impl<const WORDS: usize> Physical for WideSpinBasis<WORDS> {
    open spec fn spec_unreduced(
        &self,
        state: WideState<WORDS>,
        operator: Seq<char>,
        sites: Seq<usize>,
    ) -> core::result::Result<Seq<(WideState<WORDS>, Seq<Factor<Turn>>)>, QmbedError> {
        self.spec_transitions(state, operator, sites)
    }

    fn apply_local_unreduced_transitions(
        &self,
        state: WideState<WORDS>,
        operator: &str,
        sites: &[usize],
    ) -> (result: Result<Transitions<WideState<WORDS>, Turn>>) {
        self.apply_local_transitions(state, operator, sites)
    }
}

impl<Left: Basis, Right: Basis> Physical for TensorBasis<Left, Right> {
    open spec fn spec_unreduced(
        &self,
        state: Pair<Left::State, Right::State>,
        operator: Seq<char>,
        sites: Seq<usize>,
    ) -> core::result::Result<Seq<(Pair<Left::State, Right::State>, Seq<Factor<EitherPhase<Left::Phase, Right::Phase>>>)>, QmbedError> {
        self.spec_transitions(state, operator, sites)
    }

    fn apply_local_unreduced_transitions(
        &self,
        state: Pair<Left::State, Right::State>,
        operator: &str,
        sites: &[usize],
    ) -> (result: Result<Transitions<Pair<Left::State, Right::State>, EitherPhase<Left::Phase, Right::Phase>>>) {
        self.apply_local_transitions(state, operator, sites)
    }
}

impl<Matter: Basis> Physical for PhotonBasis<Matter> where Matter::State: Coded {
    open spec fn spec_unreduced(
        &self,
        state: Pair<Matter::State, u128>,
        operator: Seq<char>,
        sites: Seq<usize>,
    ) -> core::result::Result<Seq<(Pair<Matter::State, u128>, Seq<Factor<EitherPhase<Matter::Phase, Turn>>>)>, QmbedError> {
        self.spec_transitions(state, operator, sites)
    }

    fn apply_local_unreduced_transitions(
        &self,
        state: Pair<Matter::State, u128>,
        operator: &str,
        sites: &[usize],
    ) -> (result: Result<Transitions<Pair<Matter::State, u128>, EitherPhase<Matter::Phase, Turn>>>) {
        self.apply_local_transitions(state, operator, sites)
    }
}

impl<State: Bounded, V: Scalar, A: LocalAlgebra<State, V>> Physical for UserBasis<State, V, A> {
    open spec fn spec_unreduced(
        &self,
        state: State,
        operator: Seq<char>,
        sites: Seq<usize>,
    ) -> core::result::Result<Seq<(State, Seq<Factor<V>>)>, QmbedError> {
        self.spec_transitions(state, operator, sites)
    }

    fn apply_local_unreduced_transitions(
        &self,
        state: State,
        operator: &str,
        sites: &[usize],
    ) -> (result: Result<Transitions<State, V>>) {
        self.apply_local_transitions(state, operator, sites)
    }
}

impl Physical for SpinBasis1D {
    open spec fn spec_unreduced(&self, state: u128, operator: Seq<char>, sites: Seq<usize>) -> core::result::Result<
        Seq<(u128, Seq<Factor<Turn>>)>,
        QmbedError,
    > {
        match spin::spin_action(self@.chain(), state, operator, sites) {
            Ok(branches) => Ok(spin::unreduced_transitions(branches)),
            Err(error) => Err(error),
        }
    }

    fn apply_local_unreduced_transitions(&self, state: u128, operator: &str, sites: &[usize]) -> (
        result: Result<Transitions<u128, Turn>>) {
        match self.unreduced_local_transitions(state, operator, sites) {
            Ok(branches) => Ok(spin::listed_branches(&branches)),
            Err(error) => Err(error),
        }
    }
}

impl Physical for SpinlessFermionBasis1D {
    open spec fn spec_unreduced(&self, state: u128, operator: Seq<char>, sites: Seq<usize>) -> core::result::Result<
        Seq<(u128, Seq<Factor<Turn>>)>,
        QmbedError,
    > {
        boson::word_transitions(
            fermion::fermion_symbol_action(
                self@.sites,
                state,
                symbols::without_separators(operator),
                sites,
            ),
        )
    }

    fn apply_local_unreduced_transitions(&self, state: u128, operator: &str, sites: &[usize]) -> (
        result: Result<Transitions<u128, Turn>>) {
        let ghost stated = fermion::fermion_symbol_action(
            self@.sites,
            state,
            symbols::without_separators(operator@),
            sites@,
        );
        boson::listed_word(self.unreduced_local_transition(state, operator, sites), Ghost(stated))
    }
}

/// Destinations of a parent with their factors in the phases of a reduced basis.
pub open spec fn inherited<State, P, Q>(transitions: Seq<(State, Seq<Factor<P>>)>) -> Seq<
    (State, Seq<Factor<EitherPhase<P, Q>>>),
> {
    transitions.map_values(
        |entry: (State, Seq<Factor<P>>)| (entry.0, basis::left_factors::<P, Q>(entry.1)),
    )
}

fn inherit<State: Copy, P: Copy, Q: Copy>(transitions: &Transitions<State, P>) -> (list:
    Transitions<State, EitherPhase<P, Q>>)
    ensures
        basis::transitions_view(list@) == inherited::<State, P, Q>(
            basis::transitions_view(transitions@),
        ),
{
    let ghost stated = inherited::<State, P, Q>(basis::transitions_view(transitions@));
    let mut list: Transitions<State, EitherPhase<P, Q>> = Vec::new();
    let mut next: usize = 0;
    assert(basis::transitions_view(list@) =~= stated.take(0));
    while next < transitions.len()
        invariant
            next <= transitions@.len(),
            stated == inherited::<State, P, Q>(basis::transitions_view(transitions@)),
            basis::transitions_view(list@) == stated.take(next as int),
        decreases transitions@.len() - next,
    {
        let ghost before = basis::transitions_view(list@);
        let mut factors: Vec<Factor<EitherPhase<P, Q>>> = Vec::new();
        basis::append_left(&mut factors, &transitions[next].1);
        assert(factors@ =~= basis::left_factors::<P, Q>(transitions@[next as int].1@));
        let ghost added = (transitions@[next as int].0, factors@);
        list.push((transitions[next].0, factors));
        next += 1;
        assert(basis::transitions_view(list@) =~= before.push(added));
        assert(basis::transitions_view(list@) =~= stated.take(next as int));
    }
    assert(basis::transitions_view(list@) =~= stated);
    list
}

impl<Parent: Physical, M> Physical for GeneralBasis<Parent, M> where
    Parent::State: Bounded,
    M: SymmetryMap<Parent::State>,
 {
    open spec fn spec_unreduced(
        &self,
        state: Parent::State,
        operator: Seq<char>,
        sites: Seq<usize>,
    ) -> core::result::Result<
        Seq<(Parent::State, Seq<Factor<EitherPhase<Parent::Phase, M::Factor>>>)>,
        QmbedError,
    > {
        match self.spec_parent().spec_unreduced(state, operator, sites) {
            Ok(transitions) => Ok(inherited(transitions)),
            Err(error) => Err(error),
        }
    }

    fn apply_local_unreduced_transitions(
        &self,
        state: Parent::State,
        operator: &str,
        sites: &[usize],
    ) -> (result: Result<Transitions<Parent::State, EitherPhase<Parent::Phase, M::Factor>>>) {
        proof {
            self.lemma_parent_ready();
        }
        match self.parent().apply_local_unreduced_transitions(state, operator, sites) {
            Ok(transitions) => Ok(inherit(&transitions)),
            Err(error) => Err(error),
        }
    }
}

/// Matrix entries of the first destinations of a column; destinations outside the basis have
/// none.
pub open spec fn transition_entries<B: Basis, S: Weighing<B::Phase>>(
    basis: B,
    column: usize,
    transitions: Seq<(B::State, Seq<Factor<B::Phase>>)>,
    coefficient: S,
    count: nat,
) -> Seq<(usize, usize, S)>
    decreases count,
{
    if count == 0 {
        Seq::empty()
    } else {
        let before = transition_entries::<B, S>(basis, column, transitions, coefficient, (count - 1) as nat);
        let (target, factors) = transitions[count - 1];
        let value = weighed(coefficient, factors, factors.len());
        if basis.spec_states().contains(target) {
            before.push((basis.spec_states().index_of(target) as usize, column, value))
        } else {
            before
        }
    }
}

/// Matrix entries of the first couplings of a term in a column.
pub open spec fn coupling_entries<B: Basis, S: Weighing<B::Phase>>(
    basis: B,
    operator: Seq<char>,
    couplings: Seq<CouplingModel<S>>,
    column: usize,
    count: nat,
) -> core::result::Result<Seq<(usize, usize, S)>, QmbedError>
    decreases count,
{
    if count == 0 {
        Ok(Seq::empty())
    } else {
        let coupling = couplings[count - 1];
        match coupling_entries(basis, operator, couplings, column, (count - 1) as nat) {
            Err(error) => Err(error),
            Ok(before) => match held::<B::State, B::Phase, S>(
                basis.spec_transitions(
                    basis.spec_states()[column as int],
                    operator,
                    coupling.sites,
                ),
            ) {
                Err(error) => Err(error),
                Ok(transitions) => Ok(
                    before + transition_entries::<B, S>(
                        basis,
                        column,
                        transitions,
                        coupling.coefficient,
                        transitions.len(),
                    ),
                ),
            },
        }
    }
}

/// Matrix entries of the first terms in a column.
pub open spec fn term_entries<B: Basis, S: Weighing<B::Phase>>(
    basis: B,
    terms: Seq<TermModel<S>>,
    column: usize,
    count: nat,
) -> core::result::Result<Seq<(usize, usize, S)>, QmbedError>
    decreases count,
{
    if count == 0 {
        Ok(Seq::empty())
    } else {
        let term = terms[count - 1];
        match term_entries(basis, terms, column, (count - 1) as nat) {
            Err(error) => Err(error),
            Ok(before) => match coupling_entries(
                basis,
                term.operator,
                term.couplings,
                column,
                term.couplings.len(),
            ) {
                Err(error) => Err(error),
                Ok(added) => Ok(before + added),
            },
        }
    }
}

proof fn lemma_coupling_entries_fail<B: Basis, S: Weighing<B::Phase>>(
    basis: B,
    operator: Seq<char>,
    couplings: Seq<CouplingModel<S>>,
    column: usize,
    count: nat,
    later: nat,
)
    requires
        count <= later,
        coupling_entries(basis, operator, couplings, column, count) is Err,
    ensures
        coupling_entries(basis, operator, couplings, column, later) == coupling_entries(
            basis,
            operator,
            couplings,
            column,
            count,
        ),
    decreases later,
{
    if count < later {
        lemma_coupling_entries_fail(
            basis,
            operator,
            couplings,
            column,
            count,
            (later - 1) as nat,
        );
    }
}

proof fn lemma_term_entries_fail<B: Basis, S: Weighing<B::Phase>>(
    basis: B,
    terms: Seq<TermModel<S>>,
    column: usize,
    count: nat,
    later: nat,
)
    requires
        count <= later,
        term_entries(basis, terms, column, count) is Err,
    ensures
        term_entries(basis, terms, column, later) == term_entries(
            basis,
            terms,
            column,
            count,
        ),
    decreases later,
{
    if count < later {
        lemma_term_entries_fail(basis, terms, column, count, (later - 1) as nat);
    }
}

fn list_transition_entries<B: Basis, S: Weighing<B::Phase>>(
    basis: &B,
    column: usize,
    transitions: &Transitions<B::State, B::Phase>,
    coefficient: S,
    list: &mut Vec<(usize, usize, S)>,
)
    requires
        basis.wf(),
        basis.faithful(),
    ensures
        final(list)@ == old(list)@ + transition_entries::<B, S>(
            *basis, column,
            basis::transitions_view(transitions@),
            coefficient,
            transitions@.len(),
        ),
{
    let ghost start = list@;
    let ghost stated = basis::transitions_view(transitions@);
    let mut next: usize = 0;
    assert(list@ =~= start + transition_entries::<B, S>(*basis, column, stated, coefficient, 0));
    while next < transitions.len()
        invariant
            next <= transitions@.len(),
            basis.wf(),
        basis.faithful(),
            stated == basis::transitions_view(transitions@),
            list@ == start + transition_entries::<B, S>(
                *basis, column,
                stated,
                coefficient,
                next as nat,
            ),
        decreases transitions@.len() - next,
    {
        let target: B::State = transitions[next].0;
        let value: S = weigh(coefficient, &transitions[next].1);
        assert(stated[next as int] == (target, transitions@[next as int].1@));
        let ghost before = list@;
        match basis.index(target) {
            Ok(row) => {
                proof {
                    basis.states_distinct();
                    let found = basis.spec_states().index_of(target);
                    assert(basis.spec_states()[row as int] == target);
                    assert(basis.spec_states().contains(target));
                    assert(found == row);
                }
                list.push((row, column, value));
            },
            Err(_) => {},
        }
        next += 1;
        assert(list@ =~= start + transition_entries::<B, S>(
            *basis, column,
            stated,
            coefficient,
            next as nat,
        ));
    }
}

fn list_coupling_entries<B: Basis, S: Weighing<B::Phase>>(
    basis: &B,
    term: &OperatorSpec<S>,
    column: usize,
    list: &mut Vec<(usize, usize, S)>,
) -> (result: Result<()>)
    requires
        basis.wf(),
        basis.faithful(),
        column < basis.spec_states().len(),
    ensures
        match (
            result,
            coupling_entries(
                *basis,
                term@.operator,
                term@.couplings,
                column,
                term@.couplings.len(),
            ),
        ) {
            (Ok(_), Ok(added)) => final(list)@ == old(list)@ + added,
            (Err(error), Err(stated)) => error == stated,
            _ => false,
        },
{
    let ghost start = list@;
    let ghost model = term@;
    let state: B::State = match basis.state(column) {
        Ok(state) => state,
        Err(error) => {
            return Err(error);
        },
    };
    proof {
        basis.acts_on_states(column as int);
    }
    let couplings: &Vec<Coupling<S>> = term.couplings();
    let mut next: usize = 0;
    assert(list@ =~= start + Seq::empty());
    while next < couplings.len()
        invariant
            next <= couplings@.len(),
            basis.wf(),
        basis.faithful(),
            column < basis.spec_states().len(),
            model == term@,
            state == basis.spec_states()[column as int],
            basis.acts_on(state),
            model.couplings == model::couplings_of(couplings@),
            coupling_entries(*basis, model.operator, model.couplings, column, next as nat) is Ok,
            list@ == start + coupling_entries(
                *basis,
                model.operator,
                model.couplings,
                column,
                next as nat,
            )->Ok_0,
        decreases couplings@.len() - next,
    {
        let coupling: &Coupling<S> = &couplings[next];
        let ghost before = coupling_entries(
            *basis,
            model.operator,
            model.couplings,
            column,
            next as nat,
        )->Ok_0;
        assert(model.couplings[next as int] == coupling@);
        match hold::<B::State, B::Phase, S>(
            basis.apply_local_transitions(
                state,
                term.operator().as_str(),
                coupling.sites.as_slice(),
            ),
        ) {
            Ok(transitions) => {
                list_transition_entries(
                    basis,
                    column,
                    &transitions,
                    coupling.coefficient,
                    list,
                );
                let ghost added = transition_entries::<B, S>(
                    *basis, column,
                    basis::transitions_view(transitions@),
                    coupling.coefficient,
                    transitions@.len(),
                );
                assert(start + before + added =~= start + (before + added));
            },
            Err(error) => {
                proof {
                    lemma_coupling_entries_fail(
                        *basis,
                        model.operator,
                        model.couplings,
                        column,
                        (next + 1) as nat,
                        couplings@.len(),
                    );
                }
                return Err(error);
            },
        }
        next += 1;
    }
    Ok(())
}

fn list_term_entries<B: Basis, S: Weighing<B::Phase>>(
    basis: &B,
    terms: &Vec<OperatorSpec<S>>,
    column: usize,
    list: &mut Vec<(usize, usize, S)>,
) -> (result: Result<()>)
    requires
        basis.wf(),
        basis.faithful(),
        column < basis.spec_states().len(),
    ensures
        match (
            result,
            term_entries(*basis, model::terms_of(terms@), column, terms@.len()),
        ) {
            (Ok(_), Ok(added)) => final(list)@ == old(list)@ + added,
            (Err(error), Err(stated)) => error == stated,
            _ => false,
        },
{
    let ghost start = list@;
    let ghost models = model::terms_of(terms@);
    let mut next: usize = 0;
    assert(list@ =~= start + Seq::empty());
    while next < terms.len()
        invariant
            next <= terms@.len(),
            basis.wf(),
        basis.faithful(),
            column < basis.spec_states().len(),
            models == model::terms_of(terms@),
            term_entries(*basis, models, column, next as nat) is Ok,
            list@ == start + term_entries(*basis, models, column, next as nat)->Ok_0,
        decreases terms@.len() - next,
    {
        let ghost before = term_entries(*basis, models, column, next as nat)->Ok_0;
        assert(models[next as int] == terms@[next as int]@);
        match list_coupling_entries(basis, &terms[next], column, list) {
            Ok(_) => {
                let ghost added = term_entries(*basis, models, column, (next + 1) as nat)->Ok_0;
                proof {
                    let model = models[next as int];
                    let part = coupling_entries(
                        *basis,
                        model.operator,
                        model.couplings,
                        column,
                        model.couplings.len(),
                    )->Ok_0;
                    assert(added == before + part);
                    assert(start + before + part =~= start + (before + part));
                }
            },
            Err(error) => {
                proof {
                    lemma_term_entries_fail(
                        *basis,
                        models,
                        column,
                        (next + 1) as nat,
                        terms@.len(),
                    );
                }
                return Err(error);
            },
        }
        next += 1;
    }
    Ok(())
}

/// A destination of a physical state under a local operator.
#[derive(Clone, Copy, Debug, PartialEq, Eq)]
pub struct BraKetTransition<State, S> {
    pub bra: State,
    pub ket: State,
    pub matrix_element: S,
}

/// The first destinations of a state that are not negligible.
pub open spec fn transition_kets<B: Physical, S: Weighing<B::Phase>>(
    ket: B::State,
    transitions: Seq<(B::State, Seq<Factor<B::Phase>>)>,
    coefficient: S,
    count: nat,
) -> Seq<BraKetTransition<B::State, S>>
    decreases count,
{
    if count == 0 {
        Seq::empty()
    } else {
        let before = transition_kets::<B, S>(ket, transitions, coefficient, (count - 1) as nat);
        let (target, factors) = transitions[count - 1];
        let value = weighed(coefficient, factors, factors.len());
        if value.spec_is_negligible() {
            before
        } else {
            before.push(BraKetTransition { bra: target, ket, matrix_element: value })
        }
    }
}

/// Destinations of a state under the first couplings of a term.
pub open spec fn coupling_kets<B: Physical, S: Weighing<B::Phase>>(
    basis: B,
    operator: Seq<char>,
    couplings: Seq<CouplingModel<S>>,
    ket: B::State,
    count: nat,
) -> core::result::Result<Seq<BraKetTransition<B::State, S>>, QmbedError>
    decreases count,
{
    if count == 0 {
        Ok(Seq::empty())
    } else {
        let coupling = couplings[count - 1];
        match coupling_kets(basis, operator, couplings, ket, (count - 1) as nat) {
            Err(error) => Err(error),
            Ok(before) => match held::<B::State, B::Phase, S>(
                basis.spec_unreduced(ket, operator, coupling.sites),
            ) {
                Err(error) => Err(error),
                Ok(transitions) => Ok(
                    before + transition_kets::<B, S>(
                        ket,
                        transitions,
                        coupling.coefficient,
                        transitions.len(),
                    ),
                ),
            },
        }
    }
}

/// Destinations of a state under the first terms.
pub open spec fn term_kets<B: Physical, S: Weighing<B::Phase>>(
    basis: B,
    terms: Seq<TermModel<S>>,
    ket: B::State,
    count: nat,
) -> core::result::Result<Seq<BraKetTransition<B::State, S>>, QmbedError>
    decreases count,
{
    if count == 0 {
        Ok(Seq::empty())
    } else {
        let term = terms[count - 1];
        match term_kets(basis, terms, ket, (count - 1) as nat) {
            Err(error) => Err(error),
            Ok(before) => match coupling_kets(
                basis,
                term.operator,
                term.couplings,
                ket,
                term.couplings.len(),
            ) {
                Err(error) => Err(error),
                Ok(added) => Ok(before + added),
            },
        }
    }
}

proof fn lemma_coupling_kets_fail<B: Physical, S: Weighing<B::Phase>>(
    basis: B,
    operator: Seq<char>,
    couplings: Seq<CouplingModel<S>>,
    ket: B::State,
    count: nat,
    later: nat,
)
    requires
        count <= later,
        coupling_kets(basis, operator, couplings, ket, count) is Err,
    ensures
        coupling_kets(basis, operator, couplings, ket, later) == coupling_kets(
            basis,
            operator,
            couplings,
            ket,
            count,
        ),
    decreases later,
{
    if count < later {
        lemma_coupling_kets_fail(
            basis,
            operator,
            couplings,
            ket,
            count,
            (later - 1) as nat,
        );
    }
}

proof fn lemma_term_kets_fail<B: Physical, S: Weighing<B::Phase>>(
    basis: B,
    terms: Seq<TermModel<S>>,
    ket: B::State,
    count: nat,
    later: nat,
)
    requires
        count <= later,
        term_kets(basis, terms, ket, count) is Err,
    ensures
        term_kets(basis, terms, ket, later) == term_kets(
            basis,
            terms,
            ket,
            count,
        ),
    decreases later,
{
    if count < later {
        lemma_term_kets_fail(basis, terms, ket, count, (later - 1) as nat);
    }
}

fn list_transition_kets<B: Physical, S: Weighing<B::Phase>>(
    basis: &B,
    ket: B::State,
    transitions: &Transitions<B::State, B::Phase>,
    coefficient: S,
    list: &mut Vec<BraKetTransition<B::State, S>>,
)
    requires
        basis.wf(),
        basis.acts_on(ket),
    ensures
        final(list)@ == old(list)@ + transition_kets::<B, S>(
            ket,
            basis::transitions_view(transitions@),
            coefficient,
            transitions@.len(),
        ),
{
    let ghost start = list@;
    let ghost stated = basis::transitions_view(transitions@);
    let mut next: usize = 0;
    assert(list@ =~= start + transition_kets::<B, S>(ket, stated, coefficient, 0));
    while next < transitions.len()
        invariant
            next <= transitions@.len(),
            basis.wf(),
        basis.acts_on(ket),
            stated == basis::transitions_view(transitions@),
            list@ == start + transition_kets::<B, S>(
                ket,
                stated,
                coefficient,
                next as nat,
            ),
        decreases transitions@.len() - next,
    {
        let target: B::State = transitions[next].0;
        let value: S = weigh(coefficient, &transitions[next].1);
        assert(stated[next as int] == (target, transitions@[next as int].1@));
        let ghost before = list@;
        if !value.is_negligible() {
            list.push(BraKetTransition { bra: target, ket, matrix_element: value });
        }
        next += 1;
        assert(list@ =~= start + transition_kets::<B, S>(
            ket,
            stated,
            coefficient,
            next as nat,
        ));
    }
}

fn list_coupling_kets<B: Physical, S: Weighing<B::Phase>>(
    basis: &B,
    term: &OperatorSpec<S>,
    ket: B::State,
    list: &mut Vec<BraKetTransition<B::State, S>>,
) -> (result: Result<()>)
    requires
        basis.wf(),
        basis.acts_on(ket),
    ensures
        match (
            result,
            coupling_kets(
                *basis,
                term@.operator,
                term@.couplings,
                ket,
                term@.couplings.len(),
            ),
        ) {
            (Ok(_), Ok(added)) => final(list)@ == old(list)@ + added,
            (Err(error), Err(stated)) => error == stated,
            _ => false,
        },
{
    let ghost start = list@;
    let ghost model = term@;
    let couplings: &Vec<Coupling<S>> = term.couplings();
    let mut next: usize = 0;
    assert(list@ =~= start + Seq::empty());
    while next < couplings.len()
        invariant
            next <= couplings@.len(),
            basis.wf(),
        basis.acts_on(ket),
            
            model == term@,
            model.couplings == model::couplings_of(couplings@),
            coupling_kets(*basis, model.operator, model.couplings, ket, next as nat) is Ok,
            list@ == start + coupling_kets(
                *basis,
                model.operator,
                model.couplings,
                ket,
                next as nat,
            )->Ok_0,
        decreases couplings@.len() - next,
    {
        let coupling: &Coupling<S> = &couplings[next];
        let ghost before = coupling_kets(
            *basis,
            model.operator,
            model.couplings,
            ket,
            next as nat,
        )->Ok_0;
        assert(model.couplings[next as int] == coupling@);
        match hold::<B::State, B::Phase, S>(
            basis.apply_local_unreduced_transitions(
                ket,
                term.operator().as_str(),
                coupling.sites.as_slice(),
            ),
        ) {
            Ok(transitions) => {
                list_transition_kets(
                    basis,
                    ket,
                    &transitions,
                    coupling.coefficient,
                    list,
                );
                let ghost added = transition_kets::<B, S>(
                    ket,
                    basis::transitions_view(transitions@),
                    coupling.coefficient,
                    transitions@.len(),
                );
                assert(start + before + added =~= start + (before + added));
            },
            Err(error) => {
                proof {
                    lemma_coupling_kets_fail(
                        *basis,
                        model.operator,
                        model.couplings,
                        ket,
                        (next + 1) as nat,
                        couplings@.len(),
                    );
                }
                return Err(error);
            },
        }
        next += 1;
    }
    Ok(())
}

fn list_term_kets<B: Physical, S: Weighing<B::Phase>>(
    basis: &B,
    terms: &Vec<OperatorSpec<S>>,
    ket: B::State,
    list: &mut Vec<BraKetTransition<B::State, S>>,
) -> (result: Result<()>)
    requires
        basis.wf(),
        basis.acts_on(ket),
    ensures
        match (
            result,
            term_kets(*basis, model::terms_of(terms@), ket, terms@.len()),
        ) {
            (Ok(_), Ok(added)) => final(list)@ == old(list)@ + added,
            (Err(error), Err(stated)) => error == stated,
            _ => false,
        },
{
    let ghost start = list@;
    let ghost models = model::terms_of(terms@);
    let mut next: usize = 0;
    assert(list@ =~= start + Seq::empty());
    while next < terms.len()
        invariant
            next <= terms@.len(),
            basis.wf(),
        basis.acts_on(ket),
            
            models == model::terms_of(terms@),
            term_kets(*basis, models, ket, next as nat) is Ok,
            list@ == start + term_kets(*basis, models, ket, next as nat)->Ok_0,
        decreases terms@.len() - next,
    {
        let ghost before = term_kets(*basis, models, ket, next as nat)->Ok_0;
        assert(models[next as int] == terms@[next as int]@);
        match list_coupling_kets(basis, &terms[next], ket, list) {
            Ok(_) => {
                let ghost added = term_kets(*basis, models, ket, (next + 1) as nat)->Ok_0;
                proof {
                    let model = models[next as int];
                    let part = coupling_kets(
                        *basis,
                        model.operator,
                        model.couplings,
                        ket,
                        model.couplings.len(),
                    )->Ok_0;
                    assert(added == before + part);
                    assert(start + before + part =~= start + (before + part));
                }
            },
            Err(error) => {
                proof {
                    lemma_term_kets_fail(
                        *basis,
                        models,
                        ket,
                        (next + 1) as nat,
                        terms@.len(),
                    );
                }
                return Err(error);
            },
        }
        next += 1;
    }
    Ok(())
}

/// Matrix entries of terms in the first columns.
pub open spec fn column_entries<B: Basis, S: Weighing<B::Phase>>(
    basis: B,
    terms: Seq<TermModel<S>>,
    count: nat,
) -> core::result::Result<Seq<(usize, usize, S)>, QmbedError>
    decreases count,
{
    if count == 0 {
        Ok(Seq::empty())
    } else {
        match column_entries(basis, terms, (count - 1) as nat) {
            Err(error) => Err(error),
            Ok(before) => match term_entries(basis, terms, (count - 1) as usize, terms.len()) {
                Err(error) => Err(error),
                Ok(added) => Ok(before + added),
            },
        }
    }
}

proof fn lemma_column_entries_fail<B: Basis, S: Weighing<B::Phase>>(
    basis: B,
    terms: Seq<TermModel<S>>,
    count: nat,
    later: nat,
)
    requires
        count <= later,
        column_entries(basis, terms, count) is Err,
    ensures
        column_entries(basis, terms, later) == column_entries(basis, terms, count),
    decreases later,
{
    if count < later {
        lemma_column_entries_fail(basis, terms, count, (later - 1) as nat);
    }
}

proof fn lemma_transition_entries_fit<B: Basis, S: Weighing<B::Phase>>(
    basis: B,
    column: usize,
    transitions: Seq<(B::State, Seq<Factor<B::Phase>>)>,
    coefficient: S,
    count: nat,
    length: usize,
)
    requires
        column < length,
        basis.spec_states().len() == length,
    ensures
        linear::entries_fit(
            transition_entries::<B, S>(basis, column, transitions, coefficient, count),
            length,
            length,
        ),
    decreases count,
{
    if count > 0 {
        lemma_transition_entries_fit::<B, S>(
            basis,
            column,
            transitions,
            coefficient,
            (count - 1) as nat,
            length,
        );
        let target = transitions[count - 1].0;
        if basis.spec_states().contains(target) {
            let found = basis.spec_states().index_of(target);
            assert(0 <= found < length);
        }
    }
}

proof fn lemma_coupling_entries_fit<B: Basis, S: Weighing<B::Phase>>(
    basis: B,
    operator: Seq<char>,
    couplings: Seq<CouplingModel<S>>,
    column: usize,
    count: nat,
    length: usize,
)
    requires
        column < length,
        basis.spec_states().len() == length,
    ensures
        match coupling_entries(basis, operator, couplings, column, count) {
            Ok(entries) => linear::entries_fit(entries, length, length),
            Err(_) => true,
        },
    decreases count,
{
    if count > 0 {
        lemma_coupling_entries_fit(
            basis,
            operator,
            couplings,
            column,
            (count - 1) as nat,
            length,
        );
        let coupling = couplings[count - 1];
        match basis.spec_transitions(
            basis.spec_states()[column as int],
            operator,
            coupling.sites,
        ) {
            Ok(transitions) => lemma_transition_entries_fit::<B, S>(
                basis,
                column,
                transitions,
                coupling.coefficient,
                transitions.len(),
                length,
            ),
            Err(_) => {},
        }
    }
}

/// Entries of terms lie inside the square of the basis.
pub proof fn lemma_term_entries_fit<B: Basis, S: Weighing<B::Phase>>(
    basis: B,
    terms: Seq<TermModel<S>>,
    column: usize,
    count: nat,
    length: usize,
)
    requires
        column < length,
        basis.spec_states().len() == length,
    ensures
        match term_entries(basis, terms, column, count) {
            Ok(entries) => linear::entries_fit(entries, length, length),
            Err(_) => true,
        },
    decreases count,
{
    if count > 0 {
        lemma_term_entries_fit(basis, terms, column, (count - 1) as nat, length);
        let term = terms[count - 1];
        lemma_coupling_entries_fit(
            basis,
            term.operator,
            term.couplings,
            column,
            term.couplings.len(),
            length,
        );
    }
}

/// Entries of columns lie inside the square of the basis.
pub proof fn lemma_column_entries_fit<B: Basis, S: Weighing<B::Phase>>(
    basis: B,
    terms: Seq<TermModel<S>>,
    count: nat,
    length: usize,
)
    requires
        count <= length,
        basis.spec_states().len() == length,
    ensures
        match column_entries(basis, terms, count) {
            Ok(entries) => linear::entries_fit(entries, length, length),
            Err(_) => true,
        },
    decreases count,
{
    if count > 0 {
        lemma_column_entries_fit(basis, terms, (count - 1) as nat, length);
        lemma_term_entries_fit(basis, terms, (count - 1) as usize, terms.len(), length);
    }
}

/// The matrix of terms on a basis.
pub open spec fn assembled<B: Basis, S: Weighing<B::Phase>>(
    basis: B,
    terms: Seq<TermModel<S>>,
    checks: AssemblyChecks,
    format: MatrixFormat,
) -> core::result::Result<OperatorModel<S>, QmbedError> {
    let length = basis.spec_states().len();
    match checks::refusal(basis, terms, checks) {
        Some(error) => Err(error),
        None => match column_entries(basis, terms, length) {
            Ok(entries) => {
                let operator = OperatorModel {
                    rows: length as usize,
                    columns: length as usize,
                    entries,
                    format,
                };
                if checks.hermiticity && !linear::hermitian(operator, S::spec_rounding()) {
                    Err(QmbedError::NonHermitian)
                } else {
                    Ok(operator)
                }
            },
            Err(error) => Err(error),
        },
    }
}

/// Whether a returned operator is the stated one.
pub open spec fn operator_is<S: Scalar>(
    result: Result<Operator<S>>,
    stated: core::result::Result<OperatorModel<S>, QmbedError>,
) -> bool {
    match (result, stated) {
        (Ok(operator), Ok(model)) => operator.valid() && operator@ == model,
        (Err(error), Err(found)) => error == found,
        _ => false,
    }
}

/// The matrix of terms on a basis.
pub fn assemble<B: Basis, S: Weighing<B::Phase>>(
    basis: &B,
    terms: &Vec<OperatorSpec<S>>,
    checks: AssemblyChecks,
    format: MatrixFormat,
) -> (result: Result<Operator<S>>)
    requires
        basis.wf(),
        basis.faithful(),
        checks.particle_conservation ==> checks::countable(model::terms_of(terms@)),
    ensures
        operator_is(result, assembled(*basis, model::terms_of(terms@), checks, format)),
{
    if let Err(error) = checks::check_terms(basis, terms, checks) {
        return Err(error);
    }
    let ghost models = model::terms_of(terms@);
    let length: usize = basis.len();
    let mut entries: Vec<(usize, usize, S)> = Vec::new();
    let mut column: usize = 0;
    while column < length
        invariant
            column <= length,
            basis.wf(),
            basis.faithful(),
            length == basis.spec_states().len(),
            models == model::terms_of(terms@),
            checks::refusal(*basis, models, checks) is None,
            column_entries(*basis, models, column as nat) == Ok::<
                Seq<(usize, usize, S)>,
                QmbedError,
            >(entries@),
        decreases length - column,
    {
        match list_term_entries(basis, terms, column, &mut entries) {
            Ok(_) => {},
            Err(error) => {
                proof {
                    lemma_column_entries_fail(
                        *basis,
                        models,
                        (column + 1) as nat,
                        length as nat,
                    );
                }
                return Err(error);
            },
        }
        column += 1;
    }
    proof {
        lemma_column_entries_fit(*basis, models, length as nat, length);
    }
    match Operator::from_triplets(length, length, entries, format) {
        Ok(operator) => if checks.hermiticity && !operator.is_hermitian(S::rounding()) {
            Err(QmbedError::NonHermitian)
        } else {
            Ok(operator)
        },
        Err(error) => Err(error),
    }
}

/// Terms in the site labels of a model.
pub open spec fn prepared<S>(permutation: Option<Seq<usize>>, terms: Seq<TermModel<S>>) -> core::result::Result<
    Seq<TermModel<S>>,
    QmbedError,
> {
    match permutation {
        Some(order) => model::relabeled_terms(terms, order, terms.len()),
        None => Ok(terms),
    }
}

/// The matrix of terms that a model relabels.
pub open spec fn assembled_on<B: Basis, S: Weighing<B::Phase>>(
    basis: B,
    permutation: Option<Seq<usize>>,
    terms: Seq<TermModel<S>>,
    checks: AssemblyChecks,
    format: MatrixFormat,
) -> core::result::Result<OperatorModel<S>, QmbedError> {
    match prepared(permutation, terms) {
        Ok(list) => assembled(basis, list, checks, format),
        Err(error) => Err(error),
    }
}

/// Matrices of the first components of a model.
pub open spec fn component_matrices<B: Basis, S: Weighing<B::Phase>>(
    basis: B,
    components: Seq<TermComponentModel<S>>,
    checks: AssemblyChecks,
    format: MatrixFormat,
    count: nat,
) -> core::result::Result<Seq<ComponentModel<S>>, QmbedError>
    decreases count,
{
    if count == 0 {
        Ok(Seq::empty())
    } else {
        let component = components[count - 1];
        match component_matrices(basis, components, checks, format, (count - 1) as nat) {
            Err(error) => Err(error),
            Ok(before) => match assembled(
                basis,
                component.terms,
                checks.of_component(),
                format,
            ) {
                Err(error) => Err(error),
                Ok(operator) => Ok(
                    before.push(
                        ComponentModel {
                            name: component.name,
                            operator,
                            default: component.default,
                        },
                    ),
                ),
            },
        }
    }
}

proof fn lemma_component_matrices_fail<B: Basis, S: Weighing<B::Phase>>(
    basis: B,
    components: Seq<TermComponentModel<S>>,
    checks: AssemblyChecks,
    format: MatrixFormat,
    count: nat,
    later: nat,
)
    requires
        count <= later,
        component_matrices(basis, components, checks, format, count) is Err,
    ensures
        component_matrices(basis, components, checks, format, later) == component_matrices(
            basis,
            components,
            checks,
            format,
            count,
        ),
    decreases later,
{
    if count < later {
        lemma_component_matrices_fail(
            basis,
            components,
            checks,
            format,
            count,
            (later - 1) as nat,
        );
    }
}

/// The operator family of a model: its terms as the fixed part and its components.
pub open spec fn family_on<B: Basis, S: Weighing<B::Phase>>(
    basis: B,
    terms: Seq<TermModel<S>>,
    components: Seq<TermComponentModel<S>>,
    checks: AssemblyChecks,
    format: MatrixFormat,
) -> core::result::Result<FamilyModel<S>, QmbedError> {
    match component_matrices(basis, components, checks, format, components.len()) {
        Err(error) => Err(error),
        Ok(matrices) => match assembled(basis, terms, checks, format) {
            Err(error) => Err(error),
            Ok(fixed) => if matrices.len() == 0 {
                Ok(FamilyModel { fixed, components: Seq::empty() })
            } else {
                match interop::model_error(fixed, matrices) {
                    Some(error) => Err(error),
                    None => Ok(FamilyModel { fixed, components: matrices }),
                }
            },
        },
    }
}

/// The matrix of one member of the family of a model.
pub open spec fn member_on<B: Basis, S: Weighing<B::Phase>>(
    basis: B,
    terms: Seq<TermModel<S>>,
    components: Seq<TermComponentModel<S>>,
    checks: AssemblyChecks,
    format: MatrixFormat,
    names: Seq<Seq<char>>,
    values: Seq<S>,
) -> core::result::Result<OperatorModel<S>, QmbedError> {
    if components.len() == 0 && names.len() > 0 {
        Err(QmbedError::InvalidOptions(Reason::UnknownParameter { index: 0 }))
    } else {
        match family_on(basis, terms, components, checks, format) {
            Ok(family) => interop::evaluated(family, names, values),
            Err(error) => Err(error),
        }
    }
}

/// Images of vectors under an algebraic view of one member of the family of a model.
pub open spec fn images_on<B: Basis, S: Weighing<B::Phase>>(
    basis: B,
    terms: Seq<TermModel<S>>,
    components: Seq<TermComponentModel<S>>,
    checks: AssemblyChecks,
    names: Seq<Seq<char>>,
    values: Seq<S>,
    inputs: Seq<Seq<S>>,
    action: OperatorAction,
) -> core::result::Result<Seq<Seq<S>>, QmbedError> {
    if components.len() == 0 {
        if names.len() > 0 {
            Err(QmbedError::InvalidOptions(Reason::UnknownParameter { index: 0 }))
        } else {
            match assembled(basis, terms, checks, MatrixFormat::MatrixFree) {
                Ok(operator) => interop::entries_batch(operator, inputs, action, inputs.len()),
                Err(error) => Err(error),
            }
        }
    } else {
        match family_on(basis, terms, components, checks, MatrixFormat::MatrixFree) {
            Err(error) => Err(error),
            Ok(family) => if action == OperatorAction::Normal {
                interop::family_batch(family, names, values, inputs, inputs.len())
            } else {
                match interop::evaluated(family, names, values) {
                    Ok(operator) => interop::entries_batch(
                        operator,
                        inputs,
                        action,
                        inputs.len(),
                    ),
                    Err(error) => Err(error),
                }
            },
        }
    }
}

impl<B: Basis, S: Weighing<B::Phase>> EdModel<B, S> {
    /// The matrix of the terms of the model, without its named components.
    pub fn materialized(&self, format: MatrixFormat) -> (result: Result<Operator<S>>)
        requires
            self.valid(),
            self.spec_basis().faithful(),
            self.checkable(),
        ensures
            operator_is(
                result,
                assembled(self.spec_basis(), self.spec_terms(), self.spec_checks(), format),
            ),
    {
        proof {
            self.lemma_valid();
        }
        assemble(self.basis(), self.terms(), self.checks(), format)
    }

    /// The matrix of other terms on the basis of the model, in the site labels of the model.
    pub fn assemble_terms(
        &self,
        terms: &Vec<OperatorSpec<S>>,
        checks: AssemblyChecks,
        format: MatrixFormat,
    ) -> (result: Result<Operator<S>>)
        requires
            self.valid(),
            self.spec_basis().faithful(),
            checks.particle_conservation && prepared(
                self.spec_site_permutation(),
                model::terms_of(terms@),
            ) is Ok ==> checks::countable(
                prepared(self.spec_site_permutation(), model::terms_of(terms@))->Ok_0,
            ),
        ensures
            operator_is(
                result,
                assembled_on(
                    self.spec_basis(),
                    self.spec_site_permutation(),
                    model::terms_of(terms@),
                    checks,
                    format,
                ),
            ),
    {
        proof {
            self.lemma_valid();
        }
        match self.prepare_terms(terms) {
            Ok(list) => assemble(self.basis(), &list, checks, format),
            Err(error) => Err(error),
        }
    }

    /// Images of some vectors under other terms on the basis of the model.
    pub fn apply_terms_batch(
        &self,
        terms: &Vec<OperatorSpec<S>>,
        inputs: &Vec<Vec<S>>,
        action: OperatorAction,
    ) -> (result: Result<Vec<Vec<S>>>)
        requires
            self.valid(),
            self.spec_basis().faithful(),
        ensures
            match assembled_on(
                self.spec_basis(),
                self.spec_site_permutation(),
                model::terms_of(terms@),
                AssemblyChecks::nothing(),
                MatrixFormat::MatrixFree,
            ) {
                Ok(operator) => interop::batch_is(
                    result,
                    interop::entries_batch(
                        operator,
                        interop::columns_of(inputs@),
                        action,
                        inputs@.len(),
                    ),
                ),
                Err(error) => result matches Err(found) && found == error,
            },
    {
        match self.assemble_terms(terms, AssemblyChecks::none(), MatrixFormat::MatrixFree) {
            Ok(operator) => {
                proof {
                    interop::lemma_entries_batch(
                        operator,
                        interop::columns_of(inputs@),
                        action,
                        inputs@.len(),
                    );
                }
                apply_operator_batch(&operator, inputs, action)
            },
            Err(error) => Err(error),
        }
    }

    /// The operator family of the model, with its named components and their defaults.
    pub fn operator_model(&self, format: MatrixFormat) -> (result: Result<
        PackedOperatorModel<S>,
    >)
        requires
            self.valid(),
            self.spec_basis().faithful(),
            self.checkable(),
        ensures
            match (
                result,
                family_on(
                    self.spec_basis(),
                    self.spec_terms(),
                    self.spec_components(),
                    self.spec_checks(),
                    format,
                ),
            ) {
                (Ok(family), Ok(stated)) => family.valid() && family@ == stated,
                (Err(error), Err(stated)) => error == stated,
                _ => false,
            },
    {
        proof {
            self.lemma_valid();
        }
        let ghost basis = self.spec_basis();
        let ghost models = self.spec_components();
        let checks: AssemblyChecks = self.checks();
        let components: &Vec<PackedTermComponent<S>> = self.components();
        let mut matrices: Vec<QuantumComponent<S>> = Vec::new();
        let mut next: usize = 0;
        assert(family::models(matrices@) =~= Seq::empty());
        while next < components.len()
            invariant
                next <= components@.len(),
                basis == self.spec_basis(),
                basis.wf(),
                basis.faithful(),
                models == self.spec_components(),
                models == model::term_components(components@),
                checks == self.spec_checks(),
                self.checkable(),
                component_matrices(basis, models, checks, format, next as nat) == Ok::<
                    Seq<ComponentModel<S>>,
                    QmbedError,
                >(family::models(matrices@)),
                forall|k: int| 0 <= k < matrices@.len() ==> (#[trigger] matrices@[k]).valid(),
                matrices@.len() == next,
            decreases components@.len() - next,
        {
            let component: &PackedTermComponent<S> = &components[next];
            assert(models[next as int] == component@);
            let ghost before = family::models(matrices@);
            match assemble(
                self.basis(),
                component.terms(),
                checks.for_component(),
                format,
            ) {
                Ok(operator) => {
                    let matrix: QuantumComponent<S> = QuantumComponent::with_optional_default(
                        component.name().clone(),
                        operator,
                        component.default(),
                    );
                    let ghost added = matrix@;
                    matrices.push(matrix);
                    assert(family::models(matrices@) =~= before.push(added));
                },
                Err(error) => {
                    proof {
                        lemma_component_matrices_fail(
                            basis,
                            models,
                            checks,
                            format,
                            (next + 1) as nat,
                            components@.len(),
                        );
                    }
                    return Err(error);
                },
            }
            next += 1;
        }
        match self.materialized(format) {
            Ok(fixed) => if matrices.len() == 0 {
                PackedOperatorModel::new(fixed)
            } else {
                PackedOperatorModel::with_components(fixed, matrices)
            },
            Err(error) => Err(error),
        }
    }

    /// The matrix of the family of the model, with its named components at their defaults.
    pub fn materialize(&self, format: MatrixFormat) -> (result: Result<Operator<S>>)
        requires
            self.valid(),
            self.spec_basis().faithful(),
            self.checkable(),
        ensures
            operator_is(
                result,
                member_on(
                    self.spec_basis(),
                    self.spec_terms(),
                    self.spec_components(),
                    self.spec_checks(),
                    format,
                    Seq::empty(),
                    Seq::empty(),
                ),
            ),
    {
        let none: Vec<(String, S)> = Vec::new();
        proof {
            assert(family::parameter_names(none@) =~= Seq::empty());
            assert(family::parameter_values(none@) =~= Seq::empty());
        }
        self.materialize_with(&none, format)
    }

    /// The matrix of the family of the model under a choice of parameters.
    pub fn materialize_with(&self, parameters: &Vec<(String, S)>, format: MatrixFormat) -> (result:
        Result<Operator<S>>)
        requires
            self.valid(),
            self.spec_basis().faithful(),
            self.checkable(),
        ensures
            operator_is(
                result,
                member_on(
                    self.spec_basis(),
                    self.spec_terms(),
                    self.spec_components(),
                    self.spec_checks(),
                    format,
                    family::parameter_names(parameters@),
                    family::parameter_values(parameters@),
                ),
            ),
    {
        proof {
            self.lemma_valid();
        }
        if self.components().len() == 0 && parameters.len() > 0 {
            return Err(QmbedError::InvalidOptions(Reason::UnknownParameter { index: 0 }));
        }
        match self.operator_model(format) {
            Ok(family) => family.materialize(parameters, format),
            Err(error) => Err(error),
        }
    }

    /// Images of the vectors of a batch under an algebraic view of the terms of the model.
    pub fn apply_batch(&self, inputs: &Vec<Vec<S>>, action: OperatorAction) -> (result: Result<
        Vec<Vec<S>>,
    >)
        requires
            self.valid(),
            self.spec_basis().faithful(),
            self.checkable(),
        ensures
            interop::batch_is(
                result,
                images_on(
                    self.spec_basis(),
                    self.spec_terms(),
                    self.spec_components(),
                    self.spec_checks(),
                    Seq::empty(),
                    Seq::empty(),
                    interop::columns_of(inputs@),
                    action,
                ),
            ),
    {
        let none: Vec<(String, S)> = Vec::new();
        proof {
            assert(family::parameter_names(none@) =~= Seq::empty());
            assert(family::parameter_values(none@) =~= Seq::empty());
        }
        self.apply_batch_with(&none, inputs, action)
    }

    /// Images of the vectors of a batch under an algebraic view of one member of the family of
    /// the model.
    pub fn apply_batch_with(
        &self,
        parameters: &Vec<(String, S)>,
        inputs: &Vec<Vec<S>>,
        action: OperatorAction,
    ) -> (result: Result<Vec<Vec<S>>>)
        requires
            self.valid(),
            self.spec_basis().faithful(),
            self.checkable(),
        ensures
            interop::batch_is(
                result,
                images_on(
                    self.spec_basis(),
                    self.spec_terms(),
                    self.spec_components(),
                    self.spec_checks(),
                    family::parameter_names(parameters@),
                    family::parameter_values(parameters@),
                    interop::columns_of(inputs@),
                    action,
                ),
            ),
    {
        proof {
            self.lemma_valid();
        }
        if self.components().len() == 0 {
            if parameters.len() > 0 {
                return Err(QmbedError::InvalidOptions(Reason::UnknownParameter { index: 0 }));
            }
            return match self.materialized(MatrixFormat::MatrixFree) {
                Ok(operator) => {
                    proof {
                        interop::lemma_entries_batch(
                            operator,
                            interop::columns_of(inputs@),
                            action,
                            inputs@.len(),
                        );
                    }
                    apply_operator_batch(&operator, inputs, action)
                },
                Err(error) => Err(error),
            };
        }
        match self.operator_model(MatrixFormat::MatrixFree) {
            Ok(family) => family.apply_batch(parameters, inputs, action),
            Err(error) => Err(error),
        }
    }
}

/// Destinations of the first of some states.
pub open spec fn kets_of<B: Physical, S: Weighing<B::Phase>>(
    basis: B,
    terms: Seq<TermModel<S>>,
    kets: Seq<B::State>,
    count: nat,
) -> core::result::Result<Seq<Seq<BraKetTransition<B::State, S>>>, QmbedError>
    decreases count,
{
    if count == 0 {
        Ok(Seq::empty())
    } else {
        match kets_of(basis, terms, kets, (count - 1) as nat) {
            Err(error) => Err(error),
            Ok(before) => match term_kets(basis, terms, kets[count - 1], terms.len()) {
                Err(error) => Err(error),
                Ok(list) => Ok(before.push(list)),
            },
        }
    }
}

proof fn lemma_kets_fail<B: Physical, S: Weighing<B::Phase>>(
    basis: B,
    terms: Seq<TermModel<S>>,
    kets: Seq<B::State>,
    count: nat,
    later: nat,
)
    requires
        count <= later,
        kets_of(basis, terms, kets, count) is Err,
    ensures
        kets_of(basis, terms, kets, later) == kets_of(basis, terms, kets, count),
    decreases later,
{
    if count < later {
        lemma_kets_fail(basis, terms, kets, count, (later - 1) as nat);
    }
}

impl<B: Physical, S: Weighing<B::Phase>> EdModel<B, S> {
    /// Destinations of physical states under local terms, not replaced by representatives.
    pub fn bra_ket_terms(&self, terms: &Vec<OperatorSpec<S>>, kets: &Vec<B::State>) -> (result: Result<
        Vec<Vec<BraKetTransition<B::State, S>>>,
    >)
        requires
            self.valid(),
            forall|i: int| 0 <= i < kets@.len() ==> self.spec_basis().acts_on(#[trigger] kets@[i]),
        ensures
            match prepared(self.spec_site_permutation(), model::terms_of(terms@)) {
                Err(error) => result matches Err(found) && found == error,
                Ok(list) => match (
                    result,
                    kets_of(self.spec_basis(), list, kets@, kets@.len()),
                ) {
                    (Ok(found), Ok(stated)) => ensemble::vectors(found@) == stated,
                    (Err(error), Err(stated)) => error == stated,
                    _ => false,
                },
            },
    {
        proof {
            self.lemma_valid();
        }
        let own: Vec<OperatorSpec<S>> = match self.prepare_terms(terms) {
            Ok(list) => list,
            Err(error) => {
                return Err(error);
            },
        };
        let ghost basis = self.spec_basis();
        let ghost list = model::terms_of(own@);
        let mut found: Vec<Vec<BraKetTransition<B::State, S>>> = Vec::new();
        let mut next: usize = 0;
        assert(ensemble::vectors(found@) =~= Seq::empty());
        while next < kets.len()
            invariant
                next <= kets@.len(),
                basis == self.spec_basis(),
                basis.wf(),
                forall|i: int| 0 <= i < kets@.len() ==> basis.acts_on(#[trigger] kets@[i]),
                list == model::terms_of(own@),
                prepared(self.spec_site_permutation(), model::terms_of(terms@)) == Ok::<
                    Seq<TermModel<S>>,
                    QmbedError,
                >(list),
                kets_of(basis, list, kets@, next as nat) == Ok::<
                    Seq<Seq<BraKetTransition<B::State, S>>>,
                    QmbedError,
                >(ensemble::vectors(found@)),
            decreases kets@.len() - next,
        {
            let ghost before = ensemble::vectors(found@);
            let mut row: Vec<BraKetTransition<B::State, S>> = Vec::new();
            match list_term_kets(self.basis(), &own, kets[next], &mut row) {
                Ok(_) => {
                    let ghost added = row@;
                    found.push(row);
                    assert(ensemble::vectors(found@) =~= before.push(added));
                },
                Err(error) => {
                    proof {
                        lemma_kets_fail(basis, list, kets@, (next + 1) as nat, kets@.len());
                    }
                    return Err(error);
                },
            }
            next += 1;
        }
        Ok(found)
    }
}

} // verus!

//! Orbits of states under finite symmetry maps, with the phases of a sector.

use vstd::arithmetic::div_mod::*;
use vstd::arithmetic::mul::*;
use vstd::arithmetic::power2::*;
use vstd::prelude::*;

use crate::amplitudes::Turn;
use crate::digits;
use crate::erased;
use crate::erased::{ErasedState, ErasedStateValue};
use crate::error::{QmbedError, Reason, Result};
use crate::lattice_map::LatticeSymmetryMap;
use crate::linear::{Entries, Place};
use crate::ordered;
use crate::ordered::{sort_dedup, Bounded};
use crate::permutation;
use crate::permutation::checked_lcm;
use crate::table::StateTable;
use crate::wide;
use crate::wide::WideState;

verus! {

/// Phases that symmetry maps attach to states.
pub trait PhaseFactor: Copy + Sized {
    /// The phase that changes nothing.
    spec fn spec_one() -> Self;

    /// One phase after another.
    spec fn spec_compose(self, other: Self) -> Self;

    /// Whether two phases count as the same.
    spec fn spec_agrees(self, other: Self) -> bool;

    /// Whether the phase is a number at all.
    spec fn spec_is_finite(self) -> bool;

    /// Whether the phase changes no magnitude.
    spec fn spec_is_unit(self) -> bool;

    /// Phase of one step in a sector of a map with the given period.
    spec fn spec_sector_step(sector: usize, period: usize) -> Self;

    /// Conjugate of the direction of the phase.
    spec fn spec_gauge(self) -> Self;

    /// The phases relative to one of them, if all have the same magnitude.
    spec fn spec_relative(coefficients: Entries<Self>, reference: Place) -> Option<Entries<Self>>;

    /// The phase that changes nothing.
    fn one() -> (phase: Self)
        ensures
            phase == Self::spec_one(),
    ;

    /// One phase after another.
    fn compose(&self, other: &Self) -> (phase: Self)
        ensures
            phase == self.spec_compose(*other),
    ;

    /// Whether two phases count as the same.
    fn agrees(&self, other: &Self) -> (answer: bool)
        ensures
            answer == self.spec_agrees(*other),
    ;

    /// Whether the phase is a number at all.
    fn is_finite(&self) -> (answer: bool)
        ensures
            answer == self.spec_is_finite(),
    ;

    /// Whether the phase changes no magnitude.
    fn is_unit(&self) -> (answer: bool)
        ensures
            answer == self.spec_is_unit(),
    ;

    /// Phase of one step in a sector of a map with the given period.
    fn sector_step(sector: usize, period: usize) -> (phase: Self)
        requires
            sector < period,
        ensures
            phase == Self::spec_sector_step(sector, period),
    ;

    /// Conjugate of the direction of the phase.
    fn gauge(&self) -> (phase: Self)
        ensures
            phase == self.spec_gauge(),
    ;

    /// The phases relative to one of them, if all have the same magnitude.
    fn relative(coefficients: &Vec<Self>, reference: usize) -> (phases: Option<Vec<Self>>)
        requires
            reference < coefficients@.len(),
        ensures
            match phases {
                Some(list) => {
                    &&& list@.len() == coefficients@.len()
                    &&& Self::spec_relative(coefficients@, reference as int) == Some(list@)
                },
                None => Self::spec_relative(coefficients@, reference as int) is None,
            },
    ;
}

/// The turn that stands for no phase: a circle without steps.
pub open spec fn undefined_turn() -> Turn {
    Turn { steps: 0, circle: 0 }
}

/// Whether every turn has a circle.
pub open spec fn all_defined(turns: Seq<Turn>) -> bool {
    forall|i: int| 0 <= i < turns.len() ==> (#[trigger] turns[i]).circle > 0
}

impl PhaseFactor for Turn {
    open spec fn spec_one() -> Self {
        Turn { steps: 0, circle: 1 }
    }

    open spec fn spec_compose(self, other: Self) -> Self {
        let common = permutation::lcm(self.circle as nat, other.circle as nat);
        if self.circle == 0 || other.circle == 0 || common > usize::MAX {
            undefined_turn()
        } else {
            let first = (self.steps as nat % self.circle as nat) * (common / self.circle as nat);
            let second = (other.steps as nat % other.circle as nat) * (common
                / other.circle as nat);
            Turn { steps: ((first + second) % common) as usize, circle: common as usize }
        }
    }

    open spec fn spec_agrees(self, other: Self) -> bool {
        &&& self.circle > 0
        &&& other.circle > 0
        &&& (self.steps as nat % self.circle as nat) * other.circle as nat == (other.steps as nat
            % other.circle as nat) * self.circle as nat
    }

    open spec fn spec_is_finite(self) -> bool {
        self.circle > 0
    }

    open spec fn spec_is_unit(self) -> bool {
        self.circle > 0
    }

    open spec fn spec_sector_step(sector: usize, period: usize) -> Self {
        Turn { steps: sector, circle: period }
    }

    open spec fn spec_gauge(self) -> Self {
        if self.circle == 0 {
            self
        } else {
            Turn {
                steps: ((self.circle - self.steps % self.circle) % self.circle as int) as usize,
                circle: self.circle,
            }
        }
    }

    open spec fn spec_relative(coefficients: Seq<Self>, reference: int) -> Option<Seq<Self>> {
        let list = Seq::new(
            coefficients.len(),
            |i: int| coefficients[i].spec_compose(coefficients[reference].spec_gauge()),
        );
        if all_defined(list) {
            Some(list)
        } else {
            None
        }
    }

    fn one() -> (phase: Self) {
        Turn { steps: 0, circle: 1 }
    }

    fn compose(&self, other: &Self) -> (phase: Self) {
        if self.circle == 0 || other.circle == 0 {
            return Turn { steps: 0, circle: 0 };
        }
        let common: usize = match checked_lcm(self.circle, other.circle) {
            Ok(common) => common,
            Err(_) => {
                return Turn { steps: 0, circle: 0 };
            },
        };
        proof {
            permutation::lemma_lcm(self.circle as nat, other.circle as nat, common as nat);
            lemma_mod_self_0(common as int);
            lemma_scaled_step(self.steps as nat, self.circle as nat, common as nat);
            lemma_scaled_step(other.steps as nat, other.circle as nat, common as nat);
        }
        let first: usize = (self.steps % self.circle) * (common / self.circle);
        let second: usize = (other.steps % other.circle) * (common / other.circle);
        let sum: u128 = first as u128 + second as u128;
        Turn { steps: (sum % common as u128) as usize, circle: common }
    }

    fn agrees(&self, other: &Self) -> (answer: bool) {
        if self.circle == 0 || other.circle == 0 {
            return false;
        }
        let a: u128 = (self.steps % self.circle) as u128;
        let b: u128 = (other.steps % other.circle) as u128;
        let c: u128 = self.circle as u128;
        let d: u128 = other.circle as u128;
        proof {
            assert(a * d <= u128::MAX) by (nonlinear_arith)
                requires
                    a <= u64::MAX,
                    d <= u64::MAX,
            ;
            assert(b * c <= u128::MAX) by (nonlinear_arith)
                requires
                    b <= u64::MAX,
                    c <= u64::MAX,
            ;
        }
        a * d == b * c
    }

    fn is_finite(&self) -> (answer: bool) {
        self.circle > 0
    }

    fn is_unit(&self) -> (answer: bool) {
        self.circle > 0
    }

    fn sector_step(sector: usize, period: usize) -> (phase: Self) {
        Turn { steps: sector, circle: period }
    }

    fn gauge(&self) -> (phase: Self) {
        if self.circle == 0 {
            return *self;
        }
        Turn {
            steps: (self.circle - self.steps % self.circle) % self.circle,
            circle: self.circle,
        }
    }

    fn relative(coefficients: &Vec<Self>, reference: usize) -> (phases: Option<Vec<Self>>) {
        let gauge: Turn = coefficients[reference].gauge();
        let ghost stated = Seq::new(
            coefficients@.len(),
            |i: int| coefficients@[i].spec_compose(gauge),
        );
        let mut list: Vec<Turn> = Vec::new();
        let mut next: usize = 0;
        while next < coefficients.len()
            invariant
                next <= coefficients@.len(),
                list@.len() == next,
                stated == Seq::new(
                    coefficients@.len(),
                    |i: int| coefficients@[i].spec_compose(gauge),
                ),
                gauge == coefficients@[reference as int].spec_gauge(),
                forall|i: int|
                    0 <= i < next ==> #[trigger] list@[i] == stated[i] && list@[i].circle > 0,
            decreases coefficients@.len() - next,
        {
            let phase: Turn = coefficients[next].compose(&gauge);
            assert(stated[next as int] == phase);
            if phase.circle == 0 {
                return None;
            }
            list.push(phase);
            next += 1;
        }
        assert(stated =~= list@);
        Some(list)
    }
}

/// Steps on a finer circle stay below a full turn.
proof fn lemma_scaled_step(steps: nat, circle: nat, common: nat)
    requires
        circle > 0,
        common > 0,
        common % circle == 0,
    ensures
        (steps % circle) * (common / circle) < common,
{
    lemma_fundamental_div_mod(common as int, circle as int);
    lemma_mod_bound(steps as int, circle as int);
    let r = steps % circle;
    let q = common / circle;
    assert(q > 0) by (nonlinear_arith)
        requires
            common == circle * q,
            common > 0,
    ;
    assert(r * q < circle * q) by (nonlinear_arith)
        requires
            r < circle,
            q > 0,
    ;
}

/// A sign as a phase: half of the circle where it turns.
pub open spec fn sign_turn(odd: bool) -> Turn {
    if odd {
        Turn { steps: 1, circle: 2 }
    } else {
        Turn { steps: 0, circle: 1 }
    }
}

/// A sign as a phase.
fn sign_phase(odd: bool) -> (phase: Turn)
    ensures
        phase == sign_turn(odd),
{
    if odd {
        Turn { steps: 1, circle: 2 }
    } else {
        Turn { steps: 0, circle: 1 }
    }
}

/// A map of states onto states that comes back after its period.
pub trait SymmetryMap<State>: Sized {
    /// Phases that the map attaches.
    type Factor: PhaseFactor;

    /// The invariant that constructors establish.
    spec fn ready(&self) -> bool;

    /// Declared number of steps until every state is back.
    spec fn spec_map_period(&self) -> usize;

    /// Image of a state and the phase that it gets.
    spec fn spec_apply(&self, state: State) -> core::result::Result<
        (State, Self::Factor),
        QmbedError,
    >;

    /// Declared number of steps until every state is back.
    fn period(&self) -> (period: usize)
        ensures
            period == self.spec_map_period(),
    ;

    /// Image of a state and the phase that it gets.
    fn apply(&self, state: State) -> (result: Result<(State, Self::Factor)>)
        requires
            self.ready(),
        ensures
            result == self.spec_apply(state),
    ;
}

impl SymmetryMap<u128> for LatticeSymmetryMap {
    type Factor = Turn;

    open spec fn ready(&self) -> bool {
        self.wf()
    }

    open spec fn spec_map_period(&self) -> usize {
        self.spec_period()
    }

    open spec fn spec_apply(&self, state: u128) -> core::result::Result<(u128, Turn), QmbedError> {
        if !self.packed() {
            Err(
                QmbedError::UnsupportedBackend(
                    Reason::Text("this lattice symmetry requires a wide fixed-width state"),
                ),
            )
        } else if state >= digits::power(self.spec_states_per_site(), self.spec_sites()) {
            Err(QmbedError::StateNotInBasis)
        } else {
            Ok((self.image(state as nat) as u128, sign_turn(self.turns_sign(state as nat))))
        }
    }

    fn period(&self) -> (period: usize) {
        LatticeSymmetryMap::period(self)
    }

    fn apply(&self, state: u128) -> (result: Result<(u128, Turn)>) {
        match self.mapped_state(state) {
            Ok((mapped, odd)) => Ok((mapped, sign_phase(odd))),
            Err(error) => Err(error),
        }
    }
}

impl<const WORDS: usize> SymmetryMap<WideState<WORDS>> for LatticeSymmetryMap {
    type Factor = Turn;

    open spec fn ready(&self) -> bool {
        &&& self.wf()
        &&& WORDS * 64 <= usize::MAX
    }

    open spec fn spec_map_period(&self) -> usize {
        self.spec_period()
    }

    open spec fn spec_apply(&self, state: WideState<WORDS>) -> core::result::Result<
        (WideState<WORDS>, Turn),
        QmbedError,
    > {
        if self.spec_states_per_site() != 2 || self.spec_sites() > WORDS * 64 {
            Err(
                QmbedError::UnsupportedBackend(
                    Reason::Text("wide lattice symmetries currently require a binary fixed-width state"),
                ),
            )
        } else if state.value() >= pow2(self.spec_sites()) {
            Err(QmbedError::StateNotInBasis)
        } else {
            Ok(
                (
                    wide::state_of::<WORDS>(self.image(state.value())),
                    sign_turn(self.turns_sign(state.value())),
                ),
            )
        }
    }

    fn period(&self) -> (period: usize) {
        LatticeSymmetryMap::period(self)
    }

    fn apply(&self, state: WideState<WORDS>) -> (result: Result<(WideState<WORDS>, Turn)>) {
        match self.mapped_wide::<WORDS>(state) {
            Ok((mapped, odd)) => {
                proof {
                    wide::lemma_state_of(mapped);
                }
                Ok((mapped, sign_phase(odd)))
            },
            Err(error) => Err(error),
        }
    }
}

/// Image of a state whose width is chosen at run time: its width must be the
/// number of sites, and its storage class decides which encoding is used.
pub open spec fn erased_image(map: &LatticeSymmetryMap, state: ErasedState) -> core::result::Result<
    (ErasedState, Turn),
    QmbedError,
> {
    let capacity = state.class().capacity();
    if state.width() != map.spec_sites() {
        Err(QmbedError::StateNotInBasis)
    } else if state.class() == wide::StateStorage::U128 {
        if !map.packed() {
            Err(
                QmbedError::UnsupportedBackend(
                    Reason::Text("this lattice symmetry requires a wide fixed-width state"),
                ),
            )
        } else if state.number() >= digits::power(map.spec_states_per_site(), map.spec_sites()) {
            Err(QmbedError::StateNotInBasis)
        } else {
            Ok(
                (
                    erased::state_of(state.width(), state.class(), map.image(state.number())),
                    sign_turn(map.turns_sign(state.number())),
                ),
            )
        }
    } else if map.spec_states_per_site() != 2 || map.spec_sites() > capacity {
        Err(
            QmbedError::UnsupportedBackend(
                Reason::Text("wide lattice symmetries currently require a binary fixed-width state"),
            ),
        )
    } else if state.number() >= pow2(map.spec_sites()) {
        Err(QmbedError::StateNotInBasis)
    } else {
        Ok(
            (
                erased::state_of(state.width(), state.class(), map.image(state.number())),
                sign_turn(map.turns_sign(state.number())),
            ),
        )
    }
}

impl SymmetryMap<ErasedState> for LatticeSymmetryMap {
    type Factor = Turn;

    open spec fn ready(&self) -> bool {
        self.wf()
    }

    open spec fn spec_map_period(&self) -> usize {
        self.spec_period()
    }

    open spec fn spec_apply(&self, state: ErasedState) -> core::result::Result<
        (ErasedState, Turn),
        QmbedError,
    > {
        erased_image(self, state)
    }

    fn period(&self) -> (period: usize) {
        LatticeSymmetryMap::period(self)
    }

    fn apply(&self, state: ErasedState) -> (result: Result<(ErasedState, Turn)>) {
        if state.width_bits() != self.sites() {
            return Err(QmbedError::StateNotInBasis);
        }
        let (value, odd): (ErasedStateValue, bool) = match state.stored() {
            ErasedStateValue::U128(word) => match self.mapped_state(word) {
                Ok((mapped, odd)) => (ErasedStateValue::U128(mapped), odd),
                Err(error) => {
                    return Err(error);
                },
            },
            ErasedStateValue::U256(word) => match self.mapped_wide::<4>(word) {
                Ok((mapped, odd)) => (ErasedStateValue::U256(mapped), odd),
                Err(error) => {
                    return Err(error);
                },
            },
            ErasedStateValue::U1024(word) => match self.mapped_wide::<16>(word) {
                Ok((mapped, odd)) => (ErasedStateValue::U1024(mapped), odd),
                Err(error) => {
                    return Err(error);
                },
            },
            ErasedStateValue::U4096(word) => match self.mapped_wide::<64>(word) {
                Ok((mapped, odd)) => (ErasedStateValue::U4096(mapped), odd),
                Err(error) => {
                    return Err(error);
                },
            },
            ErasedStateValue::U16384(word) => match self.mapped_wide::<256>(word) {
                Ok((mapped, odd)) => (ErasedStateValue::U16384(mapped), odd),
                Err(error) => {
                    return Err(error);
                },
            },
        };
        let image: ErasedState = ErasedState::from_stored(state.width_bits(), value);
        proof {
            erased::lemma_state_of(image);
        }
        Ok((image, sign_phase(odd)))
    }
}

/// A map and the sector in which it acts.
#[derive(Clone, Debug)]
pub struct SymmetryGenerator<M> {
    /// The map.
    pub map: M,
    /// Sector of the map, counted modulo its period.
    pub sector: i32,
}

/// Every map keeps its invariant.
pub open spec fn generators_ready<State, M: SymmetryMap<State>>(
    generators: Seq<SymmetryGenerator<M>>,
) -> bool {
    forall|g: int| 0 <= g < generators.len() ==> (#[trigger] generators[g]).map.ready()
}

/// A sector number within the period.
pub open spec fn sector_in_period(sector: i32, period: usize) -> usize {
    (sector as int % period as int) as usize
}

/// Phase of one step of a generator in its sector.
pub open spec fn generator_step<State, M: SymmetryMap<State>>(
    generator: SymmetryGenerator<M>,
) -> M::Factor {
    let period = generator.map.spec_map_period();
    <M::Factor as PhaseFactor>::spec_sector_step(
        sector_in_period(generator.sector, period),
        period,
    )
}

/// One application of a map, refused where its phase is no number.
pub open spec fn step<State, M: SymmetryMap<State>>(
    generator: SymmetryGenerator<M>,
    state: State,
) -> core::result::Result<(State, M::Factor), QmbedError> {
    match generator.map.spec_apply(state) {
        Ok((target, phase)) => if phase.spec_is_finite() {
            Ok((target, phase))
        } else {
            Err(
                QmbedError::IncompatibleSymmetry("a symmetry map returned a non-finite phase"),
            )
        },
        Err(error) => Err(error),
    }
}

/// Some applications of a map one after another.
pub open spec fn steps<State, M: SymmetryMap<State>>(
    generator: SymmetryGenerator<M>,
    state: State,
    count: nat,
) -> core::result::Result<(State, M::Factor), QmbedError>
    decreases count,
{
    if count == 0 {
        Ok((state, <M::Factor as PhaseFactor>::spec_one()))
    } else {
        match steps(generator, state, (count - 1) as nat) {
            Err(error) => Err(error),
            Ok((reached, phase)) => match step(generator, reached) {
                Err(error) => Err(error),
                Ok((target, more)) => Ok((target, phase.spec_compose(more))),
            },
        }
    }
}

/// Why a map does not come back to a state after its period.
pub open spec fn closure_error<State, M: SymmetryMap<State>>(
    generator: SymmetryGenerator<M>,
    state: State,
) -> Option<QmbedError> {
    let period = generator.map.spec_map_period();
    if period == 0 {
        Some(QmbedError::InvalidSector(Reason::Text("a symmetry-map period must be positive")))
    } else {
        match steps(generator, state, period as nat) {
            Err(error) => Some(error),
            Ok((reached, phase)) => if reached != state || !phase.spec_agrees(
                <M::Factor as PhaseFactor>::spec_one(),
            ) {
                Some(
                    QmbedError::IncompatibleSymmetry(
                        "a symmetry map does not close at its declared period",
                    ),
                )
            } else {
                None
            },
        }
    }
}

/// The first of the maps that does not come back, by its refusal.
pub open spec fn first_closure_error<State, M: SymmetryMap<State>>(
    generators: Seq<SymmetryGenerator<M>>,
    state: State,
) -> Option<QmbedError>
    decreases generators.len(),
{
    if generators.len() == 0 {
        None
    } else {
        match first_closure_error(generators.drop_last(), state) {
            Some(error) => Some(error),
            None => closure_error(generators.last(), state),
        }
    }
}

/// What is known of an orbit: its states in the order of discovery, each with its
/// coefficient in the sector, the phase that the maps alone give it, and the
/// state and generator from which it was found.
pub struct Exploration<State, Factor> {
    /// States in the order of discovery, the seed first.
    pub states: Seq<State>,
    /// Coefficients in the sector.
    pub coefficients: Seq<Factor>,
    /// Phases of the maps alone.
    pub physical: Seq<Factor>,
    /// Number of the state from which a state was found, and the generator.
    pub sources: Seq<(nat, nat)>,
    /// Whether no second way to a state disagreed about its coefficient.
    pub compatible: bool,
}

/// Only the seed is known.
pub open spec fn seed_only<State, Factor: PhaseFactor>(seed: State) -> Exploration<State, Factor> {
    Exploration {
        states: seq![seed],
        coefficients: seq![Factor::spec_one()],
        physical: seq![Factor::spec_one()],
        sources: seq![(0, 0)],
        compatible: true,
    }
}

/// Coefficient that a generator gives to the image of a known state.
pub open spec fn next_coefficient<State, M: SymmetryMap<State>>(
    generator: SymmetryGenerator<M>,
    coefficient: M::Factor,
    phase: M::Factor,
) -> M::Factor {
    coefficient.spec_compose(phase).spec_compose(generator_step(generator))
}

/// What is known after one generator was applied to one known state.
pub open spec fn advance<State, M: SymmetryMap<State>>(
    generators: Seq<SymmetryGenerator<M>>,
    known: Exploration<State, M::Factor>,
    source: nat,
    g: nat,
) -> core::result::Result<Exploration<State, M::Factor>, QmbedError> {
    if source >= known.states.len() {
        Ok(known)
    } else {
        match step(generators[g as int], known.states[source as int]) {
            Err(error) => Err(error),
            Ok((target, phase)) => {
                let coefficient = next_coefficient(
                    generators[g as int],
                    known.coefficients[source as int],
                    phase,
                );
                if known.states.contains(target) {
                    let place = known.states.index_of(target);
                    Ok(
                        Exploration {
                            compatible: known.compatible
                                && known.coefficients[place].spec_agrees(coefficient),
                            ..known
                        },
                    )
                } else {
                    Ok(
                        Exploration {
                            states: known.states.push(target),
                            coefficients: known.coefficients.push(coefficient),
                            physical: known.physical.push(
                                known.physical[source as int].spec_compose(phase),
                            ),
                            sources: known.sources.push((source, g)),
                            compatible: known.compatible,
                        },
                    )
                }
            },
        }
    }
}

/// What is known after the first `edges` applications, state by state in the order
/// of discovery and for each state generator by generator.
pub open spec fn explored<State, M: SymmetryMap<State>>(
    generators: Seq<SymmetryGenerator<M>>,
    seed: State,
    edges: nat,
) -> core::result::Result<Exploration<State, M::Factor>, QmbedError>
    decreases edges,
{
    if edges == 0 || generators.len() == 0 {
        Ok(seed_only(seed))
    } else {
        let last = (edges - 1) as nat;
        match explored(generators, seed, last) {
            Err(error) => Err(error),
            Ok(known) => advance(
                generators,
                known,
                last / generators.len(),
                last % generators.len(),
            ),
        }
    }
}

/// Whether nothing is left to apply.
pub open spec fn settled<State, M: SymmetryMap<State>>(
    generators: Seq<SymmetryGenerator<M>>,
    seed: State,
    edges: nat,
) -> bool {
    match explored(generators, seed, edges) {
        Err(_) => true,
        Ok(known) => edges >= known.states.len() * generators.len(),
    }
}

/// The orbit of a state with the phases of its sector.
pub open spec fn orbit_trace<State, M: SymmetryMap<State>>(
    generators: Seq<SymmetryGenerator<M>>,
    seed: State,
) -> core::result::Result<Exploration<State, M::Factor>, QmbedError> {
    match first_closure_error(generators, seed) {
        Some(error) => Err(error),
        None => explored(
            generators,
            seed,
            choose|edges: nat| #[trigger] settled(generators, seed, edges),
        ),
    }
}

/// Nothing changes once nothing is left to apply.
proof fn lemma_settled<State, M: SymmetryMap<State>>(
    generators: Seq<SymmetryGenerator<M>>,
    seed: State,
    edges: nat,
    later: nat,
)
    requires
        settled(generators, seed, edges),
        edges <= later,
    ensures
        settled(generators, seed, later),
        explored(generators, seed, later) == explored(generators, seed, edges),
    decreases later - edges,
{
    if edges < later {
        let last = (later - 1) as nat;
        let count = generators.len();
        lemma_settled(generators, seed, edges, last);
        if count > 0 {
            match explored(generators, seed, last) {
                Err(_) => {},
                Ok(known) => {
                    lemma_fundamental_div_mod(last as int, count as int);
                    lemma_mod_bound(last as int, count as int);
                    let q = last / count;
                    let n = known.states.len();
                    assert(q >= n) by (nonlinear_arith)
                        requires
                            last >= n * count,
                            last < count * q + count,
                            count > 0,
                    ;
                },
            }
        }
    }
}

/// Any number of applications after which nothing is left gives the orbit.
proof fn lemma_trace_is<State, M: SymmetryMap<State>>(
    generators: Seq<SymmetryGenerator<M>>,
    seed: State,
    edges: nat,
)
    requires
        first_closure_error(generators, seed) is None,
        settled(generators, seed, edges),
    ensures
        orbit_trace(generators, seed) == explored(generators, seed, edges),
{
    let chosen = choose|edges: nat| #[trigger] settled(generators, seed, edges);
    if chosen <= edges {
        lemma_settled(generators, seed, chosen, edges);
    } else {
        lemma_settled(generators, seed, edges, chosen);
    }
}

/// The source of a discovered state explains its coefficient and its phase.
pub open spec fn explains<State, M: SymmetryMap<State>>(
    generators: Seq<SymmetryGenerator<M>>,
    known: Exploration<State, M::Factor>,
    place: int,
) -> bool {
    let source = known.sources[place].0 as int;
    let g = known.sources[place].1 as int;
    &&& source < place
    &&& g < generators.len()
    &&& match step(generators[g], known.states[source]) {
        Err(_) => false,
        Ok((target, phase)) => {
            &&& target == known.states[place]
            &&& known.coefficients[place] == next_coefficient(
                generators[g],
                known.coefficients[source],
                phase,
            )
            &&& known.physical[place] == known.physical[source].spec_compose(phase)
        },
    }
}

/// A generator leads from a known state to a known state.
pub open spec fn leads_inside<State, M: SymmetryMap<State>>(
    generators: Seq<SymmetryGenerator<M>>,
    known: Exploration<State, M::Factor>,
    source: int,
    g: int,
) -> bool {
    match step(generators[g], known.states[source]) {
        Err(_) => false,
        Ok((target, _)) => known.states.contains(target),
    }
}

/// A generator gives the image of a known state the coefficient that is on record,
/// or is the way by which the image was found.
pub open spec fn coefficient_agrees<State, M: SymmetryMap<State>>(
    generators: Seq<SymmetryGenerator<M>>,
    known: Exploration<State, M::Factor>,
    source: int,
    g: int,
) -> bool {
    match step(generators[g], known.states[source]) {
        Err(_) => false,
        Ok((target, phase)) => {
            let place = known.states.index_of(target);
            ||| place > 0 && known.sources[place] == (source as nat, g as nat)
            ||| known.coefficients[place].spec_agrees(
                next_coefficient(generators[g], known.coefficients[source], phase),
            )
        },
    }
}

/// Whether an application is among the first `edges`.
pub open spec fn covered(source: int, g: int, count: nat, edges: nat) -> bool {
    source * count + g < edges
}

/// What holds of everything known after some applications.
pub open spec fn sound<State, M: SymmetryMap<State>>(
    generators: Seq<SymmetryGenerator<M>>,
    seed: State,
    known: Exploration<State, M::Factor>,
    edges: nat,
) -> bool {
    let n = known.states.len();
    &&& n > 0
    &&& known.coefficients.len() == n
    &&& known.physical.len() == n
    &&& known.sources.len() == n
    &&& known.states[0] == seed
    &&& known.coefficients[0] == <M::Factor as PhaseFactor>::spec_one()
    &&& known.physical[0] == <M::Factor as PhaseFactor>::spec_one()
    &&& known.states.no_duplicates()
    &&& forall|place: int| 0 < place < n ==> #[trigger] explains(generators, known, place)
    &&& forall|place: int|
        0 < place < n ==> covered(
            (#[trigger] known.sources[place]).0 as int,
            known.sources[place].1 as int,
            generators.len(),
            edges,
        )
    &&& forall|source: int, g: int|
        0 <= source < n && 0 <= g < generators.len() && covered(
            source,
            g,
            generators.len(),
            edges,
        ) ==> #[trigger] leads_inside(generators, known, source, g)
    &&& known.compatible == forall|source: int, g: int|
        0 <= source < n && 0 <= g < generators.len() && covered(
            source,
            g,
            generators.len(),
            edges,
        ) ==> #[trigger] coefficient_agrees(generators, known, source, g)
}

/// Applications are numbered one by one.
proof fn lemma_edge_number(source: int, g: int, count: nat, last: nat)
    requires
        count > 0,
        0 <= source,
        0 <= g < count,
    ensures
        source * count + g == last ==> source == last / count && g == last % count,
        (last / count) * count + last % count == last,
{
    lemma_fundamental_div_mod(last as int, count as int);
    lemma_mul_is_commutative(count as int, last as int / count as int);
    if source * count + g == last {
        lemma_fundamental_div_mod_converse(last as int, count as int, source, g);
    }
}

/// One application keeps what holds.
proof fn lemma_advance<State, M: SymmetryMap<State>>(
    generators: Seq<SymmetryGenerator<M>>,
    seed: State,
    known: Exploration<State, M::Factor>,
    source: nat,
    g: nat,
)
    requires
        sound(generators, seed, known, source * generators.len() + g),
        source < known.states.len(),
        g < generators.len(),
    ensures
        match advance(generators, known, source, g) {
            Ok(after) => sound(generators, seed, after, source * generators.len() + g + 1),
            Err(_) => true,
        },
{
    let count = generators.len();
    let edges = source * count + g;
    let gen = generators[g as int];
    match step(gen, known.states[source as int]) {
        Err(_) => {},
        Ok((target, phase)) => {
            let after = advance(generators, known, source, g)->Ok_0;
            let n = known.states.len();
            let coefficient = next_coefficient(gen, known.coefficients[source as int], phase);
            assert forall|s: int, h: int|
                0 <= s && 0 <= h < count && covered(s, h, count, edges + 1) implies covered(
                s,
                h,
                count,
                edges,
            ) || (s == source && h == g) by {
                lemma_edge_number(s, h, count, edges);
                lemma_edge_number(source as int, g as int, count, edges);
            }
            assert(covered(source as int, g as int, count, edges + 1));
            if known.states.contains(target) {
                let at = known.states.index_of(target);
                assert(after.states == known.states);
                assert forall|place: int| 0 < place < n implies #[trigger] explains(
                    generators,
                    after,
                    place,
                ) by {
                    assert(explains(generators, known, place));
                }
                assert forall|s: int, h: int|
                    0 <= s < n && 0 <= h < count && covered(
                        s,
                        h,
                        count,
                        edges + 1,
                    ) implies #[trigger] leads_inside(generators, after, s, h) by {
                    if covered(s, h, count, edges) {
                        assert(leads_inside(generators, known, s, h));
                    }
                }
                assert forall|s: int, h: int| 0 <= s < n && 0 <= h < count implies (
                #[trigger] coefficient_agrees(generators, after, s, h) == coefficient_agrees(
                    generators,
                    known,
                    s,
                    h,
                )) by {
                }
                let agreed = known.coefficients[at].spec_agrees(coefficient);
                assert(coefficient_agrees(generators, after, source as int, g as int) == agreed);
                if after.compatible {
                    assert forall|s: int, h: int|
                        0 <= s < n && 0 <= h < count && covered(
                            s,
                            h,
                            count,
                            edges + 1,
                        ) implies #[trigger] coefficient_agrees(generators, after, s, h) by {
                        if covered(s, h, count, edges) {
                            assert(coefficient_agrees(generators, known, s, h));
                        }
                    }
                } else if !known.compatible {
                    let (s, h) = choose|s: int, h: int|
                        0 <= s < n && 0 <= h < count && covered(s, h, count, edges)
                            && !#[trigger] coefficient_agrees(generators, known, s, h);
                    assert(!coefficient_agrees(generators, after, s, h));
                    assert(covered(s, h, count, edges + 1));
                } else {
                    assert(!coefficient_agrees(generators, after, source as int, g as int));
                }
            } else {
                assert forall|place: int| 0 < place < n + 1 implies #[trigger] explains(
                    generators,
                    after,
                    place,
                ) by {
                    if place < n {
                        assert(explains(generators, known, place));
                    }
                }
                assert(after.states.contains(target)) by {
                    assert(after.states[n as int] == target);
                }
                assert forall|s: int, h: int|
                    0 <= s < n + 1 && 0 <= h < count && covered(
                        s,
                        h,
                        count,
                        edges + 1,
                    ) implies #[trigger] leads_inside(generators, after, s, h) by {
                    if covered(s, h, count, edges) {
                        lemma_known_source(s, h, source, g, n, count);
                        assert(leads_inside(generators, known, s, h));
                        let there = step(generators[h], known.states[s])->Ok_0.0;
                        let at = known.states.index_of(there);
                        assert(after.states[at] == there);
                    }
                }
                assert(after.states.no_duplicates());
                assert forall|s: int, h: int|
                    0 <= s < n && 0 <= h < count && covered(s, h, count, edges) implies (
                #[trigger] coefficient_agrees(generators, after, s, h) == coefficient_agrees(
                    generators,
                    known,
                    s,
                    h,
                )) by {
                    assert(leads_inside(generators, known, s, h));
                    let there = step(generators[h], known.states[s])->Ok_0.0;
                    let at = known.states.index_of(there);
                    assert(after.states[at] == there);
                    assert(after.states.index_of(there) == at);
                }
                assert(coefficient_agrees(generators, after, source as int, g as int)) by {
                    assert(after.states[n as int] == target);
                    assert(after.states.index_of(target) == n);
                }
                if after.compatible {
                    assert forall|s: int, h: int|
                        0 <= s < n + 1 && 0 <= h < count && covered(
                            s,
                            h,
                            count,
                            edges + 1,
                        ) implies #[trigger] coefficient_agrees(generators, after, s, h) by {
                        if covered(s, h, count, edges) {
                            lemma_known_source(s, h, source, g, n, count);
                            assert(coefficient_agrees(generators, known, s, h));
                        }
                    }
                } else {
                    let (s, h) = choose|s: int, h: int|
                        0 <= s < n && 0 <= h < count && covered(s, h, count, edges)
                            && !#[trigger] coefficient_agrees(generators, known, s, h);
                    assert(!coefficient_agrees(generators, after, s, h));
                    assert(covered(s, h, count, edges + 1));
                }
            }
        },
    }
}

/// Covered applications start from states known earlier.
proof fn lemma_known_source(s: int, h: int, source: nat, g: nat, n: nat, count: nat)
    requires
        0 <= s,
        0 <= h < count,
        g < count,
        source < n,
        covered(s, h, count, source * count + g),
    ensures
        s < n,
{
    assert(s <= source) by (nonlinear_arith)
        requires
            s * count + h < source * count + g,
            0 <= h,
            g < count,
            0 <= s,
    ;
}

/// What is known after some applications is sound.
pub proof fn lemma_explored<State, M: SymmetryMap<State>>(
    generators: Seq<SymmetryGenerator<M>>,
    seed: State,
    source: nat,
    g: nat,
)
    requires
        generators.len() > 0,
        g < generators.len(),
    ensures
        explored(generators, seed, source * generators.len() + g + 1) == match explored(
            generators,
            seed,
            source * generators.len() + g,
        ) {
            Err(error) => Err(error),
            Ok(known) => advance(generators, known, source, g),
        },
{
    let last = source * generators.len() + g;
    lemma_edge_number(source as int, g as int, generators.len(), last);
}

/// Numbers of sources and generators as natural numbers.
pub open spec fn source_numbers(sources: Seq<(usize, usize)>) -> Seq<(nat, nat)> {
    Seq::new(sources.len(), |i: int| (sources[i].0 as nat, sources[i].1 as nat))
}

/// Orbit of a state as it was traced.
#[derive(Clone, Debug)]
pub struct SymmetryTrace<State, Factor> {
    states: Vec<State>,
    coefficients: Vec<Factor>,
    physical: Vec<Factor>,
    sources: Vec<(usize, usize)>,
    compatible: bool,
}

impl<State, Factor> View for SymmetryTrace<State, Factor> {
    type V = Exploration<State, Factor>;

    closed spec fn view(&self) -> Exploration<State, Factor> {
        Exploration {
            states: self.states@,
            coefficients: self.coefficients@,
            physical: self.physical@,
            sources: source_numbers(self.sources@),
            compatible: self.compatible,
        }
    }
}

impl<State: Copy, Factor: Copy> SymmetryTrace<State, Factor> {
    /// States in the order of discovery, the seed first.
    pub fn states(&self) -> (states: &Vec<State>)
        ensures
            states@ == self@.states,
    {
        &self.states
    }

    /// Coefficients of the states in the sector.
    pub fn coefficients(&self) -> (coefficients: &Vec<Factor>)
        ensures
            coefficients@ == self@.coefficients,
    {
        &self.coefficients
    }

    /// Whether the sector is compatible with the orbit.
    pub fn compatible(&self) -> (compatible: bool)
        ensures
            compatible == self@.compatible,
    {
        self.compatible
    }
}

/// A sector number within the period.
fn normalized_sector(sector: i32, period: usize) -> (normalized: usize)
    requires
        period > 0,
    ensures
        normalized == sector_in_period(sector, period),
        normalized < period,
        normalized == sector as int % period as int,
{
    proof {
        lemma_mod_bound(sector as int, period as int);
    }
    if sector >= 0 {
        return (sector as usize) % period;
    }
    let below: usize = (-(sector as i64)) as usize;
    let rest: usize = below % period;
    proof {
        let p = period as int;
        let q = below as int / p;
        lemma_fundamental_div_mod(below as int, p);
        if rest == 0 {
            assert(sector as int == (-q) * p + 0) by (nonlinear_arith)
                requires
                    -(sector as int) == p * q,
            ;
            lemma_fundamental_div_mod_converse(sector as int, p, -q, 0);
        } else {
            assert(sector as int == (-q - 1) * p + (p - rest)) by (nonlinear_arith)
                requires
                    -(sector as int) == p * q + rest,
            ;
            lemma_fundamental_div_mod_converse(sector as int, p, -q - 1, p - rest);
        }
    }
    if rest == 0 {
        0
    } else {
        period - rest
    }
}

/// One application of a map, refused where its phase is no number.
fn apply_finite<State, M: SymmetryMap<State>>(generator: &SymmetryGenerator<M>, state: State) -> (result:
    Result<(State, M::Factor)>)
    requires
        generator.map.ready(),
    ensures
        result == step(*generator, state),
{
    match generator.map.apply(state) {
        Ok((target, phase)) => {
            if !phase.is_finite() {
                return Err(
                    QmbedError::IncompatibleSymmetry("a symmetry map returned a non-finite phase"),
                );
            }
            Ok((target, phase))
        },
        Err(error) => Err(error),
    }
}

/// Whether two labels are the same.
pub(crate) fn same_state<State: Bounded>(left: State, right: State) -> (answer: bool)
    ensures
        answer == (left == right),
{
    let answer: bool = left.at_most(&right) && right.at_most(&left);
    proof {
        if answer {
            State::rank_identifies(left, right);
        }
    }
    answer
}

/// The refusal of a map that does not come back; the phase of one step otherwise.
fn check_closure<State: Bounded, M: SymmetryMap<State>>(
    generator: &SymmetryGenerator<M>,
    state: State,
) -> (result: Result<M::Factor>)
    requires
        generator.map.ready(),
    ensures
        match result {
            Ok(phase) => closure_error(*generator, state) is None && phase == generator_step(
                *generator,
            ),
            Err(error) => closure_error(*generator, state) == Some(error),
        },
{
    let period: usize = generator.map.period();
    if period == 0 {
        return Err(QmbedError::InvalidSector(Reason::Text("a symmetry-map period must be positive")));
    }
    let sector_phase = <M::Factor as PhaseFactor>::sector_step(
        normalized_sector(generator.sector, period),
        period,
    );
    let mut reached: State = state;
    let mut phase = <M::Factor as PhaseFactor>::one();
    let mut done: usize = 0;
    while done < period
        invariant
            done <= period,
            period == generator.map.spec_map_period(),
            period > 0,
            generator.map.ready(),
            steps(*generator, state, done as nat) == Ok::<(State, M::Factor), QmbedError>(
                (reached, phase),
            ),
        decreases period - done,
    {
        match apply_finite(generator, reached) {
            Ok((target, more)) => {
                reached = target;
                phase = phase.compose(&more);
            },
            Err(error) => {
                proof {
                    assert(steps(*generator, state, (done + 1) as nat) is Err);
                    lemma_steps_fail(*generator, state, (done + 1) as nat, period as nat);
                }
                return Err(error);
            },
        }
        done += 1;
    }
    if !same_state(reached, state) || !phase.agrees(&<M::Factor as PhaseFactor>::one()) {
        return Err(
            QmbedError::IncompatibleSymmetry(
                "a symmetry map does not close at its declared period",
            ),
        );
    }
    Ok(sector_phase)
}

/// A failed application ends a series of them.
proof fn lemma_steps_fail<State, M: SymmetryMap<State>>(
    generator: SymmetryGenerator<M>,
    state: State,
    count: nat,
    later: nat,
)
    requires
        steps(generator, state, count) is Err,
        count <= later,
    ensures
        steps(generator, state, later) == steps(generator, state, count),
    decreases later,
{
    if count < later {
        lemma_steps_fail(generator, state, count, (later - 1) as nat);
    }
}

/// A refusal among the first generators is the first refusal.
proof fn lemma_first_closure<State, M: SymmetryMap<State>>(
    generators: Seq<SymmetryGenerator<M>>,
    state: State,
    count: int,
)
    requires
        0 <= count <= generators.len(),
        first_closure_error(generators.take(count), state) is Some,
    ensures
        first_closure_error(generators, state) == first_closure_error(
            generators.take(count),
            state,
        ),
    decreases generators.len() - count,
{
    if count == generators.len() {
        assert(generators.take(count) =~= generators);
    } else {
        assert(generators.take(count + 1).drop_last() =~= generators.take(count));
        lemma_first_closure(generators, state, count + 1);
    }
}

/// The orbit of a state, with its coefficients in the sector.
pub fn trace_symmetry_orbit<State: Bounded, M: SymmetryMap<State>>(
    state: State,
    generators: &Vec<SymmetryGenerator<M>>,
) -> (result: Result<SymmetryTrace<State, M::Factor>>)
    requires
        generators_ready(generators@),
    ensures
        match result {
            Ok(trace) => {
                &&& orbit_trace(generators@, state) == Ok::<
                    Exploration<State, M::Factor>,
                    QmbedError,
                >(trace@)
                &&& sound(
                    generators@,
                    state,
                    trace@,
                    trace@.states.len() * generators@.len(),
                )
            },
            Err(error) => orbit_trace(generators@, state) == Err::<
                Exploration<State, M::Factor>,
                QmbedError,
            >(error),
        },
{
    let ghost gens = generators@;
    let count: usize = generators.len();
    let mut sector_phases: Vec<M::Factor> = Vec::new();
    assert(gens.take(0) =~= Seq::empty());
    let mut g: usize = 0;
    while g < count
        invariant
            g <= count,
            count == gens.len(),
            gens == generators@,
            generators_ready(gens),
            sector_phases@.len() == g,
            forall|h: int| 0 <= h < g ==> #[trigger] sector_phases@[h] == generator_step(gens[h]),
            first_closure_error(gens.take(g as int), state) is None,
        decreases count - g,
    {
        proof {
            assert(gens.take(g + 1).drop_last() =~= gens.take(g as int));
            assert(gens.take(g + 1).last() == gens[g as int]);
            assert(gens[g as int].map.ready());
        }
        match check_closure(&generators[g], state) {
            Ok(phase) => {
                sector_phases.push(phase);
            },
            Err(error) => {
                proof {
                    lemma_first_closure(gens, state, g + 1);
                }
                return Err(error);
            },
        }
        g += 1;
    }
    assert(gens.take(g as int) =~= gens);
    let mut trace: SymmetryTrace<State, M::Factor> = SymmetryTrace {
        states: vec![state],
        coefficients: vec![<M::Factor as PhaseFactor>::one()],
        physical: vec![<M::Factor as PhaseFactor>::one()],
        sources: vec![(0, 0)],
        compatible: true,
    };
    let mut places: StateTable<State, usize> = StateTable::new();
    places.insert(state, 0);
    let mut head: usize = 0;
    proof {
        let start = seed_only::<State, M::Factor>(state);
        assert(trace@.states =~= start.states);
        assert(trace@.coefficients =~= start.coefficients);
        assert(trace@.physical =~= start.physical);
        assert(trace@.sources =~= start.sources);
        assert(trace@ == start);
        assert(0 * gens.len() == 0);
        assert forall|s: int, h: int|
            0 <= s < 1 && 0 <= h < gens.len() && covered(s, h, gens.len(), 0) implies false by {
        }
        assert(sound(gens, state, trace@, 0));
    }
    while head < trace.states.len()
        invariant
            head <= trace.states@.len(),
            gens == generators@,
            count == gens.len(),
            generators_ready(gens),
            first_closure_error(gens, state) is None,
            sector_phases@.len() == count,
            forall|h: int|
                0 <= h < count ==> #[trigger] sector_phases@[h] == generator_step(gens[h]),
            explored(gens, state, head as nat * gens.len()) == Ok::<
                Exploration<State, M::Factor>,
                QmbedError,
            >(trace@),
            sound(gens, state, trace@, head as nat * gens.len()),
            places.wf(),
            forall|k: int|
                0 <= k < trace@.states.len() ==> places.entry(#[trigger] trace@.states[k]) == Some(
                    k as usize,
                ),
            forall|s: State| !trace@.states.contains(s) ==> #[trigger] places.entry(s) is None,
        decreases State::rank_limit() - head,
    {
        let mut g: usize = 0;
        proof {
            ordered::lemma_distinct_bounded(trace@.states);
            assert(head as nat * gens.len() + 0 == head as nat * gens.len());
        }
        while g < count
            invariant
                g <= count,
                head < trace.states@.len(),
                gens == generators@,
                count == gens.len(),
                generators_ready(gens),
                first_closure_error(gens, state) is None,
                sector_phases@.len() == count,
                forall|h: int|
                    0 <= h < count ==> #[trigger] sector_phases@[h] == generator_step(gens[h]),
                explored(gens, state, head as nat * gens.len() + g as nat) == Ok::<
                    Exploration<State, M::Factor>,
                    QmbedError,
                >(trace@),
                sound(gens, state, trace@, head as nat * gens.len() + g as nat),
                places.wf(),
                forall|k: int|
                    0 <= k < trace@.states.len() ==> places.entry(#[trigger] trace@.states[k])
                        == Some(k as usize),
                forall|s: State| !trace@.states.contains(s) ==> #[trigger] places.entry(s) is None,
            decreases count - g,
        {
            let ghost known = trace@;
            proof {
                assert(gens[g as int].map.ready());
                assert(trace.states.len() == trace.states@.len());
                lemma_explored(gens, state, head as nat, g as nat);
                lemma_advance(gens, state, known, head as nat, g as nat);
            }
            let (target, phase) = match apply_finite(&generators[g], trace.states[head]) {
                Ok(image) => image,
                Err(error) => {
                    proof {
                        lemma_trace_is(gens, state, head as nat * gens.len() + g as nat + 1);
                    }
                    return Err(error);
                },
            };
            let coefficient = trace.coefficients[head].compose(&phase).compose(&sector_phases[g]);
            match places.get(target) {
                Some(place) => {
                    proof {
                        assert(known.states.contains(target));
                        let at = known.states.index_of(target);
                        assert(known.states[at] == target);
                        assert(place == at);
                    }
                    if !trace.coefficients[place].agrees(&coefficient) {
                        trace.compatible = false;
                    }
                    proof {
                        assert(trace@ == advance(gens, known, head as nat, g as nat)->Ok_0);
                    }
                },
                None => {
                    proof {
                        if known.states.contains(target) {
                            let at = known.states.index_of(target);
                            assert(known.states[at] == target);
                        }
                    }
                    let place: usize = trace.states.len();
                    let turned = trace.physical[head].compose(&phase);
                    trace.states.push(target);
                    trace.coefficients.push(coefficient);
                    trace.physical.push(turned);
                    trace.sources.push((head, g));
                    places.insert(target, place);
                    proof {
                        let after = advance(gens, known, head as nat, g as nat)->Ok_0;
                        assert(trace@.sources =~= after.sources);
                        assert(trace@ == after);
                        assert forall|s: State| !trace@.states.contains(s) implies #[trigger] places.entry(
                            s,
                        ) is None by {
                            assert(trace@.states[place as int] == target);
                            if known.states.contains(s) {
                                let at = known.states.index_of(s);
                                assert(trace@.states[at] == s);
                            }
                        }
                    }
                },
            }
            g += 1;
        }
        head += 1;
        proof {
            assert(head as nat * gens.len() == (head - 1) as nat * gens.len() + gens.len())
                by (nonlinear_arith)
                requires
                    head >= 1,
            ;
        }
    }
    proof {
        lemma_trace_is(gens, state, head as nat * gens.len());
    }
    Ok(trace)
}

/// What is known after any number of applications is sound.
pub proof fn lemma_explored_sound<State, M: SymmetryMap<State>>(
    generators: Seq<SymmetryGenerator<M>>,
    seed: State,
    edges: nat,
)
    ensures
        match explored(generators, seed, edges) {
            Ok(known) => sound(generators, seed, known, edges),
            Err(_) => true,
        },
    decreases edges,
{
    let count = generators.len();
    if edges == 0 || count == 0 {
        assert forall|s: int, h: int|
            0 <= s < 1 && 0 <= h < count && covered(s, h, count, edges) implies false by {
            if count > 0 {
                assert(s * count == 0);
            }
        }
    } else {
        let last = (edges - 1) as nat;
        lemma_explored_sound(generators, seed, last);
        match explored(generators, seed, last) {
            Err(_) => {},
            Ok(known) => {
                let source = last / count;
                let g = last % count;
                lemma_edge_number(0, 0, count, last);
                lemma_mod_bound(last as int, count as int);
                if source < known.states.len() {
                    lemma_advance(generators, seed, known, source, g);
                } else {
                    assert forall|s: int, h: int|
                        0 <= s < known.states.len() && 0 <= h < count implies covered(
                        s,
                        h,
                        count,
                        edges,
                    ) == covered(s, h, count, last) by {
                        lemma_edge_number(s, h, count, last);
                    }
                    assert forall|place: int| 0 < place < known.states.len() implies covered(
                        (#[trigger] known.sources[place]).0 as int,
                        known.sources[place].1 as int,
                        count,
                        edges,
                    ) by {
                        assert(explains(generators, known, place));
                    }
                    if known.compatible {
                        assert forall|s: int, h: int|
                            0 <= s < known.states.len() && 0 <= h < count && covered(
                                s,
                                h,
                                count,
                                edges,
                            ) implies #[trigger] coefficient_agrees(generators, known, s, h) by {
                            assert(covered(s, h, count, last));
                        }
                    } else {
                        let (s, h) = choose|s: int, h: int|
                            0 <= s < known.states.len() && 0 <= h < count && covered(
                                s,
                                h,
                                count,
                                last,
                            ) && !#[trigger] coefficient_agrees(generators, known, s, h);
                        assert(covered(s, h, count, edges));
                    }
                    assert forall|s: int, h: int|
                        0 <= s < known.states.len() && 0 <= h < count && covered(
                            s,
                            h,
                            count,
                            edges,
                        ) implies #[trigger] leads_inside(generators, known, s, h) by {
                        assert(covered(s, h, count, last));
                    }
                }
            },
        }
    }
}

/// An orbit is complete.
pub proof fn lemma_trace_sound<State: Bounded, M: SymmetryMap<State>>(
    generators: Seq<SymmetryGenerator<M>>,
    seed: State,
)
    ensures
        match orbit_trace(generators, seed) {
            Ok(known) => sound(
                generators,
                seed,
                known,
                known.states.len() * generators.len(),
            ),
            Err(_) => true,
        },
{
    if first_closure_error(generators, seed) is None {
        let count = generators.len();
        let edges = State::rank_limit() * count;
        lemma_explored_sound(generators, seed, edges);
        match explored(generators, seed, edges) {
            Err(_) => {},
            Ok(known) => {
                ordered::lemma_distinct_bounded(known.states);
                let n = known.states.len();
                assert(n * count <= edges) by (nonlinear_arith)
                    requires
                        n <= State::rank_limit(),
                        edges == State::rank_limit() * count,
                ;
                let least = n * count;
                assert forall|s: int, h: int| 0 <= s < n && 0 <= h < count implies covered(
                    s,
                    h,
                    count,
                    least,
                ) && covered(s, h, count, edges) by {
                    lemma_inside(s, h, n, count);
                }
                assert forall|place: int| 0 < place < n implies covered(
                    (#[trigger] known.sources[place]).0 as int,
                    known.sources[place].1 as int,
                    count,
                    least,
                ) by {
                    assert(explains(generators, known, place));
                }
                assert forall|s: int, h: int|
                    0 <= s < n && 0 <= h < count && covered(
                        s,
                        h,
                        count,
                        least,
                    ) implies #[trigger] leads_inside(generators, known, s, h) by {
                    assert(covered(s, h, count, edges));
                }
                if known.compatible {
                    assert forall|s: int, h: int|
                        0 <= s < n && 0 <= h < count && covered(
                            s,
                            h,
                            count,
                            least,
                        ) implies #[trigger] coefficient_agrees(generators, known, s, h) by {
                        assert(covered(s, h, count, edges));
                    }
                } else {
                    let (s, h) = choose|s: int, h: int|
                        0 <= s < n && 0 <= h < count && covered(s, h, count, edges)
                            && !#[trigger] coefficient_agrees(generators, known, s, h);
                    assert(covered(s, h, count, least));
                }
            },
        }
        assert(settled(generators, seed, edges));
        lemma_trace_is(generators, seed, edges);
    }
}

/// Every application from a known state is covered in the end.
proof fn lemma_inside(s: int, h: int, n: nat, count: nat)
    requires
        0 <= s < n,
        0 <= h < count,
    ensures
        covered(s, h, count, n * count),
{
    assert(s * count + h < n * count) by (nonlinear_arith)
        requires
            s + 1 <= n,
            h < count,
            0 <= s,
    ;
}

/// An orbit is closed: every generator leads from each of its states to one of them.
pub proof fn law_orbit_closed<State: Bounded, M: SymmetryMap<State>>(
    generators: Seq<SymmetryGenerator<M>>,
    seed: State,
    source: int,
    g: int,
)
    requires
        orbit_trace(generators, seed) is Ok,
        0 <= source < orbit_trace(generators, seed)->Ok_0.states.len(),
        0 <= g < generators.len(),
    ensures
        leads_inside(generators, orbit_trace(generators, seed)->Ok_0, source, g),
{
    let known = orbit_trace(generators, seed)->Ok_0;
    lemma_trace_sound(generators, seed);
    lemma_inside(source, g, known.states.len(), generators.len());
}

/// A sector is compatible with an orbit exactly if every generator gives every state
/// the coefficient that is on record.
pub proof fn law_compatible_agrees<State: Bounded, M: SymmetryMap<State>>(
    generators: Seq<SymmetryGenerator<M>>,
    seed: State,
)
    requires
        orbit_trace(generators, seed) is Ok,
    ensures
        ({
            let known = orbit_trace(generators, seed)->Ok_0;
            known.compatible == forall|source: int, g: int|
                0 <= source < known.states.len() && 0 <= g < generators.len()
                    ==> #[trigger] coefficient_agrees(generators, known, source, g)
        }),
{
    let known = orbit_trace(generators, seed)->Ok_0;
    let n = known.states.len();
    let count = generators.len();
    let whole = n * count;
    lemma_trace_sound(generators, seed);
    assert forall|s: int, h: int| 0 <= s < n && 0 <= h < count implies covered(
        s,
        h,
        count,
        whole,
    ) by {
        lemma_inside(s, h, n, count);
    }
    if known.compatible {
        assert forall|s: int, h: int|
            0 <= s < n && 0 <= h < count implies #[trigger] coefficient_agrees(
            generators,
            known,
            s,
            h,
        ) by {
            assert(covered(s, h, count, whole));
        }
    } else {
        let (s, h) = choose|s: int, h: int|
            0 <= s < n && 0 <= h < count && covered(s, h, count, whole)
                && !#[trigger] coefficient_agrees(generators, known, s, h);
        assert(!coefficient_agrees(generators, known, s, h));
    }
}

/// Generators that lead from the seed to a state, in the order of their application.
pub open spec fn word_to(sources: Seq<(nat, nat)>, place: nat) -> Seq<nat>
    decreases place,
{
    if place == 0 || sources[place as int].0 >= place {
        Seq::empty()
    } else {
        word_to(sources, sources[place as int].0).push(sources[place as int].1)
    }
}

/// State and phase after the generators of a word were applied in order.
pub open spec fn follow<State, M: SymmetryMap<State>>(
    generators: Seq<SymmetryGenerator<M>>,
    seed: State,
    word: Seq<nat>,
) -> core::result::Result<(State, M::Factor), QmbedError>
    decreases word.len(),
{
    if word.len() == 0 {
        Ok((seed, <M::Factor as PhaseFactor>::spec_one()))
    } else {
        match follow(generators, seed, word.drop_last()) {
            Err(error) => Err(error),
            Ok((reached, phase)) => match step(generators[word.last() as int], reached) {
                Err(error) => Err(error),
                Ok((target, more)) => Ok((target, phase.spec_compose(more))),
            },
        }
    }
}

/// The word of a state of an orbit leads to it from the seed, and gathers its
/// physical phase on the way.
pub proof fn law_word_leads<State: Bounded, M: SymmetryMap<State>>(
    generators: Seq<SymmetryGenerator<M>>,
    seed: State,
    place: nat,
)
    requires
        orbit_trace(generators, seed) is Ok,
        place < orbit_trace(generators, seed)->Ok_0.states.len(),
    ensures
        ({
            let known = orbit_trace(generators, seed)->Ok_0;
            follow(generators, seed, word_to(known.sources, place)) == Ok::<
                (State, M::Factor),
                QmbedError,
            >((known.states[place as int], known.physical[place as int]))
        }),
    decreases place,
{
    let known = orbit_trace(generators, seed)->Ok_0;
    lemma_trace_sound(generators, seed);
    if place > 0 {
        assert(explains(generators, known, place as int));
        law_word_leads(generators, seed, known.sources[place as int].0);
        let word = word_to(known.sources, place);
        assert(word.drop_last() =~= word_to(known.sources, known.sources[place as int].0));
    }
}

/// Which state of an orbit stands for it.
#[derive(Clone, Copy, Debug, PartialEq, Eq, Structural)]
pub enum RepresentativeOrdering {
    Minimum,
    Maximum,
}

impl Default for RepresentativeOrdering {
    fn default() -> (ordering: Self)
        ensures
            ordering == RepresentativeOrdering::Minimum,
    {
        RepresentativeOrdering::Minimum
    }
}

/// Whether a place of a list holds the state that stands for it.
pub open spec fn is_extreme<State: Bounded>(
    states: Seq<State>,
    ordering: RepresentativeOrdering,
    place: int,
) -> bool {
    &&& 0 <= place < states.len()
    &&& forall|i: int|
        0 <= i < states.len() ==> match ordering {
            RepresentativeOrdering::Minimum => states[place].rank() <= (
            #[trigger] states[i]).rank(),
            RepresentativeOrdering::Maximum => states[place].rank() >= states[i].rank(),
        }
}

/// The place of the state that stands for a list.
pub open spec fn extreme_place<State: Bounded>(
    states: Seq<State>,
    ordering: RepresentativeOrdering,
) -> int {
    choose|place: int| is_extreme(states, ordering, place)
}

/// A list without repetition has one place of the state that stands for it.
pub proof fn lemma_extreme_place<State: Bounded>(
    states: Seq<State>,
    ordering: RepresentativeOrdering,
    place: int,
)
    requires
        states.no_duplicates(),
        is_extreme(states, ordering, place),
    ensures
        extreme_place(states, ordering) == place,
{
    let other = extreme_place(states, ordering);
    assert(states[other].rank() == states[place].rank());
    State::rank_identifies(states[other], states[place]);
}

/// Finds the state that stands for a list.
pub fn find_extreme<State: Bounded>(states: &Vec<State>, ordering: RepresentativeOrdering) -> (place:
    usize)
    requires
        states@.len() > 0,
        states@.no_duplicates(),
    ensures
        place < states@.len(),
        is_extreme(states@, ordering, place as int),
        place == extreme_place(states@, ordering),
{
    let mut place: usize = 0;
    let mut next: usize = 1;
    while next < states.len()
        invariant
            0 < next <= states@.len(),
            place < next,
            forall|i: int|
                0 <= i < next ==> match ordering {
                    RepresentativeOrdering::Minimum => states@[place as int].rank() <= (
                    #[trigger] states@[i]).rank(),
                    RepresentativeOrdering::Maximum => states@[place as int].rank()
                        >= states@[i].rank(),
                },
        decreases states@.len() - next,
    {
        let better: bool = match ordering {
            RepresentativeOrdering::Minimum => states[next].at_most(&states[place]),
            RepresentativeOrdering::Maximum => states[place].at_most(&states[next]),
        };
        if better {
            place = next;
        }
        next += 1;
    }
    proof {
        lemma_extreme_place(states@, ordering, place as int);
    }
    place
}

/// Result of reducing one physical state without a basis.
#[derive(Clone, Debug)]
pub struct SymmetryOrbit<State, Factor> {
    representative: State,
    orbit_size: usize,
    compatible: bool,
    phase: Option<Factor>,
    physical_phase_to_representative: Factor,
    generator_word: Vec<usize>,
}

/// Machine words as natural numbers.
pub open spec fn numbers(list: Seq<usize>) -> Seq<nat> {
    Seq::new(list.len(), |i: int| list[i] as nat)
}

impl<State: Copy, Factor: PhaseFactor> SymmetryOrbit<State, Factor> {
    pub closed spec fn spec_representative(&self) -> State {
        self.representative
    }

    pub closed spec fn spec_orbit_size(&self) -> usize {
        self.orbit_size
    }

    pub closed spec fn spec_compatible(&self) -> bool {
        self.compatible
    }

    pub closed spec fn spec_phase(&self) -> Option<Factor> {
        self.phase
    }

    pub closed spec fn spec_physical_phase(&self) -> Factor {
        self.physical_phase_to_representative
    }

    pub closed spec fn spec_word(&self) -> Seq<usize> {
        self.generator_word@
    }

    /// Whether this is the reduction of a traced orbit with one of its states in front.
    pub open spec fn reduces(&self, known: Exploration<State, Factor>, place: int) -> bool {
        &&& self.spec_representative() == known.states[place]
        &&& self.spec_orbit_size() == known.states.len()
        &&& self.spec_compatible() == known.compatible
        &&& self.spec_phase() == if known.compatible {
            Some(known.coefficients[place].spec_gauge())
        } else {
            None
        }
        &&& self.spec_physical_phase() == known.physical[place]
        &&& numbers(self.spec_word()) == word_to(known.sources, place as nat)
    }

    /// The state that stands for the orbit.
    pub fn representative(&self) -> (representative: &State)
        ensures
            *representative == self.spec_representative(),
    {
        &self.representative
    }

    /// Number of states in the orbit.
    pub fn orbit_size(&self) -> (orbit_size: usize)
        ensures
            orbit_size == self.spec_orbit_size(),
    {
        self.orbit_size
    }

    /// Whether the sector is compatible with the orbit.
    pub fn is_compatible(&self) -> (compatible: bool)
        ensures
            compatible == self.spec_compatible(),
    {
        self.compatible
    }

    /// Unit phase of the queried physical state in the representative vector.
    pub fn phase(&self) -> (phase: Option<Factor>)
        ensures
            phase == self.spec_phase(),
    {
        self.phase
    }

    /// Physical map phase acquired along the returned generator word.
    pub fn physical_phase_to_representative(&self) -> (phase: Factor)
        ensures
            phase == self.spec_physical_phase(),
    {
        self.physical_phase_to_representative
    }

    /// Generator indices applied in order to reach the representative.
    pub fn generator_word(&self) -> (word: &Vec<usize>)
        ensures
            word@ == self.spec_word(),
    {
        &self.generator_word
    }
}

/// The word of a state, gathered from its end.
fn gather_word(sources: &Vec<(usize, usize)>, place: usize) -> (word: Vec<usize>)
    requires
        place < sources@.len(),
        forall|i: int| 0 < i < sources@.len() ==> (#[trigger] sources@[i]).0 < i,
    ensures
        numbers(word@) == word_to(source_numbers(sources@), place as nat),
    decreases place,
{
    if place == 0 {
        let word: Vec<usize> = Vec::new();
        assert(numbers(word@) =~= word_to(source_numbers(sources@), 0));
        return word;
    }
    let (source, generator) = sources[place];
    assert(sources@[place as int].0 < place);
    let mut word: Vec<usize> = gather_word(sources, source);
    let ghost before = word@;
    word.push(generator);
    assert(numbers(word@) =~= numbers(before).push(generator as nat));
    word
}

/// Finite generators and sector phases that extend to a one-dimensional
/// character of the generated group.
#[derive(Debug)]
pub struct SymmetryReducer<State, M> {
    generators: Vec<SymmetryGenerator<M>>,
    labels: core::marker::PhantomData<State>,
}

/// Product of the periods of some generators.
pub open spec fn product_of_periods<State, M: SymmetryMap<State>>(
    generators: Seq<SymmetryGenerator<M>>,
) -> nat
    decreases generators.len(),
{
    if generators.len() == 0 {
        1
    } else {
        product_of_periods(generators.drop_last()) * generators.last().map.spec_map_period()
            as nat
    }
}

/// Whether the product of the periods of the first generators leaves a machine word.
pub open spec fn some_product_overflows<State, M: SymmetryMap<State>>(
    generators: Seq<SymmetryGenerator<M>>,
) -> bool {
    exists|count: int|
        0 <= count <= generators.len() && #[trigger] product_of_periods(generators.take(count))
            > usize::MAX
}

impl<State: Bounded, M: SymmetryMap<State>> SymmetryReducer<State, M> {
    pub closed spec fn spec_generators(&self) -> Seq<SymmetryGenerator<M>> {
        self.generators@
    }

    /// Every map keeps its invariant.
    pub open spec fn ready(&self) -> bool {
        generators_ready(self.spec_generators())
    }

    /// No generator.
    pub fn new() -> (reducer: Self)
        ensures
            reducer.spec_generators() == Seq::<SymmetryGenerator<M>>::empty(),
    {
        SymmetryReducer { generators: Vec::new(), labels: core::marker::PhantomData }
    }

    /// One more generator, acting in a sector.
    pub fn with_map(self, map: M, sector: i32) -> (reducer: Self)
        ensures
            reducer.spec_generators() == self.spec_generators().push(
                SymmetryGenerator { map, sector },
            ),
    {
        let mut generators: Vec<SymmetryGenerator<M>> = self.generators;
        generators.push(SymmetryGenerator { map, sector });
        SymmetryReducer { generators, labels: core::marker::PhantomData }
    }

    /// Number of generators.
    pub fn generators(&self) -> (count: usize)
        ensures
            count == self.spec_generators().len(),
    {
        self.generators.len()
    }

    /// Product of declared generator periods.
    ///
    /// This is not in general the order of the generated group.
    pub fn period_product(&self) -> (result: Result<usize>)
        ensures
            match result {
                Ok(product) => {
                    &&& product == product_of_periods(self.spec_generators())
                    &&& !some_product_overflows(self.spec_generators())
                },
                Err(error) => {
                    &&& error == QmbedError::UnsupportedBackend(
                        Reason::Text("symmetry period product is too large"),
                    )
                    &&& some_product_overflows(self.spec_generators())
                },
            },
    {
        let ghost gens = self.generators@;
        let mut product: usize = 1;
        let mut next: usize = 0;
        assert(gens.take(0) =~= Seq::empty());
        while next < self.generators.len()
            invariant
                next <= gens.len(),
                gens == self.generators@,
                product == product_of_periods(gens.take(next as int)),
                forall|count: int|
                    0 <= count <= next ==> #[trigger] product_of_periods(gens.take(count))
                        <= usize::MAX,
            decreases gens.len() - next,
        {
            let period: usize = self.generators[next].map.period();
            proof {
                assert(gens.take(next + 1).drop_last() =~= gens.take(next as int));
            }
            match product.checked_mul(period) {
                Some(value) => {
                    product = value;
                },
                None => {
                    proof {
                        assert(product_of_periods(gens.take(next + 1)) > usize::MAX);
                    }
                    return Err(
                        QmbedError::UnsupportedBackend(Reason::Text("symmetry period product is too large")),
                    );
                },
            }
            next += 1;
        }
        assert(gens.take(next as int) =~= gens);
        Ok(product)
    }

    /// The orbit of a state with its coefficients in the sector.
    pub fn trace(&self, state: State) -> (result: Result<SymmetryTrace<State, M::Factor>>)
        requires
            self.ready(),
        ensures
            match result {
                Ok(trace) => {
                    &&& orbit_trace(self.spec_generators(), state) == Ok::<
                        Exploration<State, M::Factor>,
                        QmbedError,
                    >(trace@)
                    &&& sound(
                        self.spec_generators(),
                        state,
                        trace@,
                        trace@.states.len() * self.spec_generators().len(),
                    )
                },
                Err(error) => orbit_trace(self.spec_generators(), state) == Err::<
                    Exploration<State, M::Factor>,
                    QmbedError,
                >(error),
            },
    {
        trace_symmetry_orbit(state, &self.generators)
    }

    /// Reduces a state and returns its physical orbit from one group traversal.
    pub fn orbit_with_states_and_ordering(
        &self,
        state: State,
        ordering: RepresentativeOrdering,
    ) -> (result: Result<(SymmetryOrbit<State, M::Factor>, Vec<State>)>)
        requires
            self.ready(),
        ensures
            match result {
                Ok((orbit, states)) => {
                    &&& orbit_trace(self.spec_generators(), state) is Ok
                    &&& ({
                        let known = orbit_trace(self.spec_generators(), state)->Ok_0;
                        &&& orbit.reduces(known, extreme_place(known.states, ordering))
                        &&& is_extreme(
                            known.states,
                            ordering,
                            extreme_place(known.states, ordering),
                        )
                        &&& ordered::strictly_sorted(states@)
                        &&& states@.len() == known.states.len()
                        &&& forall|item: State| #[trigger]
                            states@.contains(item) <==> known.states.contains(item)
                    })
                },
                Err(error) => orbit_trace(self.spec_generators(), state) == Err::<
                    Exploration<State, M::Factor>,
                    QmbedError,
                >(error),
            },
    {
        let trace: SymmetryTrace<State, M::Factor> = match self.trace(state) {
            Ok(trace) => trace,
            Err(error) => {
                return Err(error);
            },
        };
        let place: usize = find_extreme(&trace.states, ordering);
        proof {
            assert forall|i: int| 0 < i < trace.sources@.len() implies (
            #[trigger] trace.sources@[i]).0 < i by {
                assert(explains(self.generators@, trace@, i));
                assert(trace@.sources[i].0 < i);
            }
        }
        let phase: Option<M::Factor> = if trace.compatible {
            Some(trace.coefficients[place].gauge())
        } else {
            None
        };
        let generator_word: Vec<usize> = gather_word(&trace.sources, place);
        let states: Vec<State> = sort_dedup(&trace.states);
        Ok(
            (
                SymmetryOrbit {
                    representative: trace.states[place],
                    orbit_size: trace.states.len(),
                    compatible: trace.compatible,
                    phase,
                    physical_phase_to_representative: trace.physical[place],
                    generator_word,
                },
                states,
            ),
        )
    }

    /// Reduces a state to the least state of its orbit, and returns the orbit.
    pub fn orbit_with_states(&self, state: State) -> (result: Result<
        (SymmetryOrbit<State, M::Factor>, Vec<State>),
    >)
        requires
            self.ready(),
        ensures
            match result {
                Ok((orbit, states)) => {
                    &&& orbit_trace(self.spec_generators(), state) is Ok
                    &&& ({
                        let known = orbit_trace(self.spec_generators(), state)->Ok_0;
                        &&& orbit.reduces(
                            known,
                            extreme_place(known.states, RepresentativeOrdering::Minimum),
                        )
                        &&& ordered::strictly_sorted(states@)
                        &&& states@.len() == known.states.len()
                        &&& forall|item: State| #[trigger]
                            states@.contains(item) <==> known.states.contains(item)
                    })
                },
                Err(error) => orbit_trace(self.spec_generators(), state) == Err::<
                    Exploration<State, M::Factor>,
                    QmbedError,
                >(error),
            },
    {
        self.orbit_with_states_and_ordering(state, RepresentativeOrdering::Minimum)
    }

    /// The finite physical orbit of one state in canonical order.
    pub fn orbit_states(&self, state: State) -> (result: Result<Vec<State>>)
        requires
            self.ready(),
        ensures
            match result {
                Ok(states) => {
                    &&& orbit_trace(self.spec_generators(), state) is Ok
                    &&& ({
                        let known = orbit_trace(self.spec_generators(), state)->Ok_0;
                        &&& ordered::strictly_sorted(states@)
                        &&& states@.len() == known.states.len()
                        &&& forall|item: State| #[trigger]
                            states@.contains(item) <==> known.states.contains(item)
                    })
                },
                Err(error) => orbit_trace(self.spec_generators(), state) == Err::<
                    Exploration<State, M::Factor>,
                    QmbedError,
                >(error),
            },
    {
        match self.orbit_with_states(state) {
            Ok((_, states)) => Ok(states),
            Err(error) => Err(error),
        }
    }

    /// Reduces one state using only the finite group action.
    ///
    /// An incompatible sector still has a representative, but no phase.
    pub fn orbit(&self, state: State) -> (result: Result<SymmetryOrbit<State, M::Factor>>)
        requires
            self.ready(),
        ensures
            match result {
                Ok(orbit) => {
                    &&& orbit_trace(self.spec_generators(), state) is Ok
                    &&& ({
                        let known = orbit_trace(self.spec_generators(), state)->Ok_0;
                        orbit.reduces(
                            known,
                            extreme_place(known.states, RepresentativeOrdering::Minimum),
                        )
                    })
                },
                Err(error) => orbit_trace(self.spec_generators(), state) == Err::<
                    Exploration<State, M::Factor>,
                    QmbedError,
                >(error),
            },
    {
        match self.orbit_with_states(state) {
            Ok((orbit, _)) => Ok(orbit),
            Err(error) => Err(error),
        }
    }

    /// Reduces one state with an explicit choice of the representative.
    pub fn orbit_with_ordering(&self, state: State, ordering: RepresentativeOrdering) -> (result:
        Result<SymmetryOrbit<State, M::Factor>>)
        requires
            self.ready(),
        ensures
            match result {
                Ok(orbit) => {
                    &&& orbit_trace(self.spec_generators(), state) is Ok
                    &&& ({
                        let known = orbit_trace(self.spec_generators(), state)->Ok_0;
                        orbit.reduces(known, extreme_place(known.states, ordering))
                    })
                },
                Err(error) => orbit_trace(self.spec_generators(), state) == Err::<
                    Exploration<State, M::Factor>,
                    QmbedError,
                >(error),
            },
    {
        match self.orbit_with_states_and_ordering(state, ordering) {
            Ok((orbit, _)) => Ok(orbit),
            Err(error) => Err(error),
        }
    }
}

} // verus!

//! Wide spin bases whose width is chosen at run time.

use vstd::prelude::*;

use crate::amplitudes::{ReductionFactor, ReductionImage, Turn};
use crate::assembly::Physical;
use crate::basis;
use crate::basis::{Basis, EitherPhase, Factor, Transitions};
use crate::erased::{ErasedState, ErasedStateValue, U1024, U16384, U256, U4096};
use crate::error::{QmbedError, Reason, Result};
use crate::general::GeneralBasis;
use crate::lattice_map::LatticeSymmetryMap;
use crate::reduction;
use crate::reduction::Reduction;
use crate::wide::{StateStorage, WideState};
use crate::wide_spin;
use crate::wide_spin::{
    WideSpinBasis, WideSpinBasis1024, WideSpinBasis16384, WideSpinBasis256, WideSpinBasis4096,
};

verus! {

/// States of a fixed number of bits that a state of any width can hold.
pub trait FixedWidthState: Copy {
    spec fn spec_storage() -> StateStorage;

    /// The state with a logical width.
    spec fn spec_erase(self, width_bits: usize) -> ErasedState;

    /// The state without its logical width, where the storage class is the right one.
    spec fn spec_restore(state: ErasedState) -> Option<Self>;

    /// Erasing a state loses nothing.
    proof fn erased_keeps(self, width_bits: usize)
        ensures
            self.spec_erase(width_bits).width() == width_bits,
            self.spec_erase(width_bits).class() == Self::spec_storage(),
            Self::spec_restore(self.spec_erase(width_bits)) == Some(self),
    ;

    /// A restored state is the state that was erased.
    proof fn restored_keeps(state: ErasedState)
        ensures
            match Self::spec_restore(state) {
                Some(value) => {
                    &&& state.class() == Self::spec_storage()
                    &&& value.spec_erase(state.width() as usize) == state
                },
                None => state.class() != Self::spec_storage(),
            },
    ;

    fn erase(self, width_bits: usize) -> (state: ErasedState)
        ensures
            state == self.spec_erase(width_bits),
    ;

    fn restore(state: ErasedState) -> (value: Option<Self>)
        ensures
            value == Self::spec_restore(state),
    ;
}

impl FixedWidthState for WideState<4> {
    open spec fn spec_storage() -> StateStorage {
        StateStorage::U256
    }

    closed spec fn spec_erase(self, width_bits: usize) -> ErasedState {
        ErasedState { width_bits, value: ErasedStateValue::U256(self) }
    }

    closed spec fn spec_restore(state: ErasedState) -> Option<Self> {
        match state.value {
            ErasedStateValue::U256(value) => Some(value),
            _ => None,
        }
    }

    proof fn erased_keeps(self, width_bits: usize) {
        ErasedState::lemma_parts(self.spec_erase(width_bits));
    }

    proof fn restored_keeps(state: ErasedState) {
        ErasedState::lemma_parts(state);
    }

    fn erase(self, width_bits: usize) -> (state: ErasedState) {
        ErasedState { width_bits, value: ErasedStateValue::U256(self) }
    }

    fn restore(state: ErasedState) -> (value: Option<Self>) {
        match state.value {
            ErasedStateValue::U256(value) => Some(value),
            _ => None,
        }
    }
}

impl FixedWidthState for WideState<16> {
    open spec fn spec_storage() -> StateStorage {
        StateStorage::U1024
    }

    closed spec fn spec_erase(self, width_bits: usize) -> ErasedState {
        ErasedState { width_bits, value: ErasedStateValue::U1024(self) }
    }

    closed spec fn spec_restore(state: ErasedState) -> Option<Self> {
        match state.value {
            ErasedStateValue::U1024(value) => Some(value),
            _ => None,
        }
    }

    proof fn erased_keeps(self, width_bits: usize) {
        ErasedState::lemma_parts(self.spec_erase(width_bits));
    }

    proof fn restored_keeps(state: ErasedState) {
        ErasedState::lemma_parts(state);
    }

    fn erase(self, width_bits: usize) -> (state: ErasedState) {
        ErasedState { width_bits, value: ErasedStateValue::U1024(self) }
    }

    fn restore(state: ErasedState) -> (value: Option<Self>) {
        match state.value {
            ErasedStateValue::U1024(value) => Some(value),
            _ => None,
        }
    }
}

impl FixedWidthState for WideState<64> {
    open spec fn spec_storage() -> StateStorage {
        StateStorage::U4096
    }

    closed spec fn spec_erase(self, width_bits: usize) -> ErasedState {
        ErasedState { width_bits, value: ErasedStateValue::U4096(self) }
    }

    closed spec fn spec_restore(state: ErasedState) -> Option<Self> {
        match state.value {
            ErasedStateValue::U4096(value) => Some(value),
            _ => None,
        }
    }

    proof fn erased_keeps(self, width_bits: usize) {
        ErasedState::lemma_parts(self.spec_erase(width_bits));
    }

    proof fn restored_keeps(state: ErasedState) {
        ErasedState::lemma_parts(state);
    }

    fn erase(self, width_bits: usize) -> (state: ErasedState) {
        ErasedState { width_bits, value: ErasedStateValue::U4096(self) }
    }

    fn restore(state: ErasedState) -> (value: Option<Self>) {
        match state.value {
            ErasedStateValue::U4096(value) => Some(value),
            _ => None,
        }
    }
}

impl FixedWidthState for WideState<256> {
    open spec fn spec_storage() -> StateStorage {
        StateStorage::U16384
    }

    closed spec fn spec_erase(self, width_bits: usize) -> ErasedState {
        ErasedState { width_bits, value: ErasedStateValue::U16384(self) }
    }

    closed spec fn spec_restore(state: ErasedState) -> Option<Self> {
        match state.value {
            ErasedStateValue::U16384(value) => Some(value),
            _ => None,
        }
    }

    proof fn erased_keeps(self, width_bits: usize) {
        ErasedState::lemma_parts(self.spec_erase(width_bits));
    }

    proof fn restored_keeps(state: ErasedState) {
        ErasedState::lemma_parts(state);
    }

    fn erase(self, width_bits: usize) -> (state: ErasedState) {
        ErasedState { width_bits, value: ErasedStateValue::U16384(self) }
    }

    fn restore(state: ErasedState) -> (value: Option<Self>) {
        match state.value {
            ErasedStateValue::U16384(value) => Some(value),
            _ => None,
        }
    }
}

/// The state of a fixed number of bits behind a state of the given width.
pub open spec fn restored<W: FixedWidthState>(state: ErasedState, width: usize) -> core::result::Result<
    W,
    QmbedError,
> {
    if state.width() == width {
        match W::spec_restore(state) {
            Some(value) => Ok(value),
            None => Err(QmbedError::StateNotInBasis),
        }
    } else {
        Err(QmbedError::StateNotInBasis)
    }
}

/// The state of a fixed number of bits behind a state of the given width.
pub fn restore_fixed_width_state<W: FixedWidthState>(state: ErasedState, width_bits: usize) -> (result: Result<
    W,
>)
    ensures
        result == restored::<W>(state, width_bits),
{
    if state.width_bits() != width_bits {
        return Err(QmbedError::StateNotInBasis);
    }
    match W::restore(state) {
        Some(value) => Ok(value),
        None => Err(QmbedError::StateNotInBasis),
    }
}

/// Phases of plain and of symmetry-reduced wide bases.
pub type WidePhase = EitherPhase<Turn, Turn>;

/// Phases that a wide basis can attach to a state.
pub trait Widened: Copy {
    spec fn spec_widen(self) -> WidePhase;

    fn widen(self) -> (phase: WidePhase)
        ensures
            phase == self.spec_widen(),
    ;
}

impl Widened for Turn {
    open spec fn spec_widen(self) -> WidePhase {
        EitherPhase::Left(self)
    }

    fn widen(self) -> (phase: WidePhase) {
        EitherPhase::Left(self)
    }
}

impl Widened for EitherPhase<Turn, Turn> {
    open spec fn spec_widen(self) -> WidePhase {
        self
    }

    fn widen(self) -> (phase: WidePhase) {
        self
    }
}

/// A factor with a widened phase.
pub open spec fn widened_factor<P: Widened>(factor: Factor<P>) -> Factor<WidePhase> {
    match factor {
        Factor::Local(local) => Factor::Local(local),
        Factor::Whole(value) => Factor::Whole(value),
        Factor::Reduced(reduced) => Factor::Reduced(
            ReductionFactor {
                source_orbit: reduced.source_orbit,
                target_orbit: reduced.target_orbit,
                phase: reduced.phase.spec_widen(),
            },
        ),
    }
}

fn widen_factor<P: Widened>(factor: Factor<P>) -> (wide: Factor<WidePhase>)
    ensures
        wide == widened_factor(factor),
{
    match factor {
        Factor::Local(local) => Factor::Local(local),
        Factor::Whole(value) => Factor::Whole(value),
        Factor::Reduced(reduced) => Factor::Reduced(
            ReductionFactor {
                source_orbit: reduced.source_orbit,
                target_orbit: reduced.target_orbit,
                phase: reduced.phase.widen(),
            },
        ),
    }
}

/// Rows of a typed basis as states of the given width.
pub open spec fn erased_rows<B: Basis>(part: B, width: usize) -> Seq<ErasedState> where
    B::State: FixedWidthState,
 {
    Seq::new(part.spec_states().len(), |i: int| part.spec_states()[i].spec_erase(width))
}

/// A destination of a typed basis with a state of the given width.
pub open spec fn erased_move<W: FixedWidthState, P: Widened>(
    entry: (W, Seq<Factor<P>>),
    width: usize,
) -> (ErasedState, Seq<Factor<WidePhase>>) {
    (
        entry.0.spec_erase(width),
        Seq::new(entry.1.len(), |k: int| widened_factor(entry.1[k])),
    )
}

/// Destinations as states of the given width.
pub open spec fn all_erased<State: FixedWidthState, Phase: Widened>(
    list: Seq<(State, Seq<Factor<Phase>>)>,
    width: usize,
) -> Seq<(ErasedState, Seq<Factor<WidePhase>>)> {
    Seq::new(list.len(), |i: int| erased_move(list[i], width))
}

/// Destinations of a typed basis, before a symmetry replaces them, as states of the given width.
pub open spec fn erased_unreduced<B: Physical>(
    part: B,
    width: usize,
    state: ErasedState,
    operator: Seq<char>,
    sites: Seq<usize>,
) -> core::result::Result<Seq<(ErasedState, Seq<Factor<WidePhase>>)>, QmbedError> where
    B::State: FixedWidthState,
    B::Phase: Widened,
 {
    match restored::<B::State>(state, width) {
        Err(error) => Err(error),
        Ok(inner) => match part.spec_unreduced(inner, operator, sites) {
            Err(error) => Err(error),
            Ok(list) => Ok(all_erased(list, width)),
        },
    }
}

/// Destinations of a typed basis as states of the given width.
pub open spec fn erased_moves<B: Basis>(
    part: B,
    width: usize,
    state: ErasedState,
    operator: Seq<char>,
    sites: Seq<usize>,
) -> core::result::Result<Seq<(ErasedState, Seq<Factor<WidePhase>>)>, QmbedError> where
    B::State: FixedWidthState,
    B::Phase: Widened,
 {
    match restored::<B::State>(state, width) {
        Err(error) => Err(error),
        Ok(inner) => match part.spec_transitions(inner, operator, sites) {
            Err(error) => Err(error),
            Ok(list) => Ok(all_erased(list, width)),
        },
    }
}

/// Representative of a state of the given width.
pub open spec fn erased_image<B: Reduction<Turned = Turn>>(part: B, width: usize, state: ErasedState) -> core::result::Result<
    Option<(ErasedState, Turn, usize)>,
    QmbedError,
> where B::State: FixedWidthState {
    match restored::<B::State>(state, width) {
        Err(error) => Err(error),
        Ok(inner) => match part.spec_reduction(inner) {
            Err(error) => Err(error),
            Ok(None) => Ok(None),
            Ok(Some((representative, phase, size))) => if size == 0 {
                Err(
                    QmbedError::InternalState(
                        "a reduction image requires a positive orbit and finite phase",
                    ),
                )
            } else {
                Ok(Some((representative.spec_erase(width), phase, size)))
            },
        },
    }
}

/// Orbit size of a row of the given width.
pub open spec fn erased_orbit_size<B: Reduction<Turned = Turn>>(
    part: B,
    width: usize,
    state: ErasedState,
) -> core::result::Result<usize, QmbedError> where B::State: FixedWidthState {
    match restored::<B::State>(state, width) {
        Err(error) => Err(error),
        Ok(inner) => part.spec_orbit_size(inner),
    }
}

fn erased_state_at<B: Basis>(part: &B, width: usize, index: usize) -> (result: Result<ErasedState>) where
    B::State: FixedWidthState,

    requires
        part.wf(),
    ensures
        match result {
            Ok(state) => {
                &&& index < erased_rows(*part, width).len()
                &&& state == erased_rows(*part, width)[index as int]
            },
            Err(error) => {
                &&& index >= erased_rows(*part, width).len()
                &&& error == QmbedError::StateNotInBasis
            },
        },
{
    match part.state(index) {
        Ok(state) => Ok(state.erase(width)),
        Err(error) => Err(error),
    }
}

fn erased_index<B: Basis>(part: &B, width: usize, state: ErasedState) -> (result: Result<usize>) where
    B::State: FixedWidthState,

    requires
        part.wf(),
    ensures
        match result {
            Ok(index) => {
                &&& index < erased_rows(*part, width).len()
                &&& erased_rows(*part, width)[index as int] == state
            },
            Err(error) => {
                &&& !erased_rows(*part, width).contains(state)
                &&& error == QmbedError::StateNotInBasis
            },
        },
{
    let ghost rows = erased_rows(*part, width);
    proof {
        <B::State as FixedWidthState>::restored_keeps(state);
        if rows.contains(state) {
            let at = rows.index_of(state);
            assert(rows[at] == state);
            part.spec_states()[at].erased_keeps(width);
            assert(part.spec_states().contains(part.spec_states()[at]));
        }
    }
    match restore_fixed_width_state::<B::State>(state, width) {
        Ok(inner) => part.index(inner),
        Err(error) => Err(error),
    }
}

/// Destinations of a typed basis as states of the given width.
fn erase_moves<State: FixedWidthState, Phase: Widened>(
    moves: &Transitions<State, Phase>,
    width: usize,
) -> (erased: Transitions<ErasedState, WidePhase>)
    ensures
        basis::transitions_view(erased@) == all_erased(basis::transitions_view(moves@), width),
{
    let ghost list = basis::transitions_view(moves@);
    let ghost stated = all_erased(list, width);
    let mut erased: Transitions<ErasedState, WidePhase> = Vec::new();
    let mut next: usize = 0;
    while next < moves.len()
        invariant
            next <= moves@.len(),
            list == basis::transitions_view(moves@),
            stated == all_erased(list, width),
            erased@.len() == next,
            forall|i: int|
                0 <= i < next ==> (#[trigger] erased@[i]).0 == stated[i].0 && erased@[i].1@
                    == stated[i].1,
        decreases moves@.len() - next,
    {
        let mut factors: Vec<Factor<WidePhase>> = Vec::new();
        let mut place: usize = 0;
        while place < moves[next].1.len()
            invariant
                next < moves@.len(),
                place <= moves@[next as int].1@.len(),
                factors@.len() == place,
                forall|k: int|
                    0 <= k < place ==> #[trigger] factors@[k] == widened_factor(
                        moves@[next as int].1@[k],
                    ),
            decreases moves@[next as int].1@.len() - place,
        {
            factors.push(widen_factor(moves[next].1[place]));
            place += 1;
        }
        proof {
            assert(list[next as int] == (moves@[next as int].0, moves@[next as int].1@));
            assert(factors@ =~= stated[next as int].1);
        }
        erased.push((moves[next].0.erase(width), factors));
        next += 1;
    }
    proof {
        assert(basis::transitions_view(erased@) =~= stated);
    }
    erased
}

fn erased_local_moves<B: Basis>(
    part: &B,
    width: usize,
    state: ErasedState,
    operator: &str,
    sites: &[usize],
) -> (result: Result<Transitions<ErasedState, WidePhase>>) where
    B::State: FixedWidthState,
    B::Phase: Widened,

    requires
        part.wf(),
        forall|inner: B::State| #[trigger] part.acts_on(inner),
    ensures
        basis::transitions_are(result, erased_moves(*part, width, state, operator@, sites@)),
{
    match restore_fixed_width_state::<B::State>(state, width) {
        Ok(inner) => {
            assert(part.acts_on(inner));
            match part.apply_local_transitions(inner, operator, sites) {
                Ok(moves) => Ok(erase_moves(&moves, width)),
                Err(error) => Err(error),
            }
        },
        Err(error) => Err(error),
    }
}

fn erased_physical_moves<B: Physical>(
    part: &B,
    width: usize,
    state: ErasedState,
    operator: &str,
    sites: &[usize],
) -> (result: Result<Transitions<ErasedState, WidePhase>>) where
    B::State: FixedWidthState,
    B::Phase: Widened,

    requires
        part.wf(),
        forall|inner: B::State| #[trigger] part.acts_on(inner),
    ensures
        basis::transitions_are(result, erased_unreduced(*part, width, state, operator@, sites@)),
{
    match restore_fixed_width_state::<B::State>(state, width) {
        Ok(inner) => {
            assert(part.acts_on(inner));
            match part.apply_local_unreduced_transitions(inner, operator, sites) {
                Ok(moves) => Ok(erase_moves(&moves, width)),
                Err(error) => Err(error),
            }
        },
        Err(error) => Err(error),
    }
}

fn erased_reduction<B: Reduction<Turned = Turn>>(part: &B, width: usize, state: ErasedState) -> (result: Result<
    Option<ReductionImage<ErasedState, Turn>>,
>) where B::State: FixedWidthState
    requires
        part.wf(),
    ensures
        reduction::image_is(result, erased_image(*part, width, state)),
{
    match restore_fixed_width_state::<B::State>(state, width) {
        Err(error) => Err(error),
        Ok(inner) => match part.reduction_image(inner) {
            Err(error) => Err(error),
            Ok(None) => Ok(None),
            Ok(Some(image)) => match ReductionImage::new(
                image.representative().erase(width),
                image.phase(),
                image.orbit_size(),
            ) {
                Ok(erased) => Ok(Some(erased)),
                Err(error) => Err(error),
            },
        },
    }
}

fn erased_size<B: Reduction<Turned = Turn>>(part: &B, width: usize, state: ErasedState) -> (result: Result<
    usize,
>) where B::State: FixedWidthState
    requires
        part.wf(),
    ensures
        result == erased_orbit_size(*part, width, state),
{
    match restore_fixed_width_state::<B::State>(state, width) {
        Err(error) => Err(error),
        Ok(inner) => part.transition_orbit_size(inner),
    }
}

proof fn lemma_erased_distinct<B: Basis>(part: B, width: usize) where B::State: FixedWidthState
    requires
        part.spec_states().no_duplicates(),
    ensures
        erased_rows(part, width).no_duplicates(),
{
    let rows = erased_rows(part, width);
    assert forall|i: int, j: int|
        0 <= i < rows.len() && 0 <= j < rows.len() && i != j implies rows[i] != rows[j] by {
        part.spec_states()[i].erased_keeps(width);
        part.spec_states()[j].erased_keeps(width);
    }
}

/// Symmetry sector of 256-bit spin states.
pub type WideSpinBasisGeneral256 = GeneralBasis<WideSpinBasis256, LatticeSymmetryMap>;

/// Symmetry sector of 1024-bit spin states.
pub type WideSpinBasisGeneral1024 = GeneralBasis<WideSpinBasis1024, LatticeSymmetryMap>;

/// Symmetry sector of 4096-bit spin states.
pub type WideSpinBasisGeneral4096 = GeneralBasis<WideSpinBasis4096, LatticeSymmetryMap>;

/// Symmetry sector of 16384-bit spin states.
pub type WideSpinBasisGeneral16384 = GeneralBasis<WideSpinBasis16384, LatticeSymmetryMap>;

/// Wide spin basis whose width is chosen at run time.
///
/// Only the storage of the states is erased: local operators and symmetry reduction are
/// those of the typed bases.
pub enum WidePackedBasis {
    Spin256(WideSpinBasis256),
    Spin1024(WideSpinBasis1024),
    Spin4096(WideSpinBasis4096),
    Spin16384(WideSpinBasis16384),
    GeneralSpin256(WideSpinBasisGeneral256),
    GeneralSpin1024(WideSpinBasisGeneral1024),
    GeneralSpin4096(WideSpinBasisGeneral4096),
    GeneralSpin16384(WideSpinBasisGeneral16384),
    Reversed(Box<WidePackedBasis>),
}

impl WidePackedBasis {
    /// Parts keep their invariants.
    pub open spec fn ready(self) -> bool
        decreases self,
    {
        match self {
            WidePackedBasis::Spin256(part) => part.wf(),
            WidePackedBasis::Spin1024(part) => part.wf(),
            WidePackedBasis::Spin4096(part) => part.wf(),
            WidePackedBasis::Spin16384(part) => part.wf(),
            WidePackedBasis::GeneralSpin256(part) => part.wf(),
            WidePackedBasis::GeneralSpin1024(part) => part.wf(),
            WidePackedBasis::GeneralSpin4096(part) => part.wf(),
            WidePackedBasis::GeneralSpin16384(part) => part.wf(),
            WidePackedBasis::Reversed(inner) => inner.ready(),
        }
    }

    /// Number of sites.
    pub open spec fn width(self) -> usize
        decreases self,
    {
        match self {
            WidePackedBasis::Spin256(part) => part@.sites,
            WidePackedBasis::Spin1024(part) => part@.sites,
            WidePackedBasis::Spin4096(part) => part@.sites,
            WidePackedBasis::Spin16384(part) => part@.sites,
            WidePackedBasis::GeneralSpin256(part) => part.spec_parent()@.sites,
            WidePackedBasis::GeneralSpin1024(part) => part.spec_parent()@.sites,
            WidePackedBasis::GeneralSpin4096(part) => part.spec_parent()@.sites,
            WidePackedBasis::GeneralSpin16384(part) => part.spec_parent()@.sites,
            WidePackedBasis::Reversed(inner) => inner.width(),
        }
    }

    /// Storage class of the states.
    pub open spec fn class(self) -> StateStorage
        decreases self,
    {
        match self {
            WidePackedBasis::Spin256(part) => StateStorage::U256,
            WidePackedBasis::Spin1024(part) => StateStorage::U1024,
            WidePackedBasis::Spin4096(part) => StateStorage::U4096,
            WidePackedBasis::Spin16384(part) => StateStorage::U16384,
            WidePackedBasis::GeneralSpin256(part) => StateStorage::U256,
            WidePackedBasis::GeneralSpin1024(part) => StateStorage::U1024,
            WidePackedBasis::GeneralSpin4096(part) => StateStorage::U4096,
            WidePackedBasis::GeneralSpin16384(part) => StateStorage::U16384,
            WidePackedBasis::Reversed(inner) => inner.class(),
        }
    }

    /// Rows in order.
    pub open spec fn rows(self) -> Seq<ErasedState>
        decreases self,
    {
        match self {
            WidePackedBasis::Spin256(part) => erased_rows(part, self.width()),
            WidePackedBasis::Spin1024(part) => erased_rows(part, self.width()),
            WidePackedBasis::Spin4096(part) => erased_rows(part, self.width()),
            WidePackedBasis::Spin16384(part) => erased_rows(part, self.width()),
            WidePackedBasis::GeneralSpin256(part) => erased_rows(part, self.width()),
            WidePackedBasis::GeneralSpin1024(part) => erased_rows(part, self.width()),
            WidePackedBasis::GeneralSpin4096(part) => erased_rows(part, self.width()),
            WidePackedBasis::GeneralSpin16384(part) => erased_rows(part, self.width()),
            WidePackedBasis::Reversed(inner) => inner.rows().reverse(),
        }
    }

    /// Destinations of a local operator string.
    pub open spec fn moves(self, state: ErasedState, operator: Seq<char>, sites: Seq<usize>) -> core::result::Result<
        Seq<(ErasedState, Seq<Factor<WidePhase>>)>,
        QmbedError,
    >
        decreases self,
    {
        match self {
            WidePackedBasis::Spin256(part) => erased_moves(part, self.width(), state, operator, sites),
            WidePackedBasis::Spin1024(part) => erased_moves(part, self.width(), state, operator, sites),
            WidePackedBasis::Spin4096(part) => erased_moves(part, self.width(), state, operator, sites),
            WidePackedBasis::Spin16384(part) => erased_moves(part, self.width(), state, operator, sites),
            WidePackedBasis::GeneralSpin256(part) => erased_moves(part, self.width(), state, operator, sites),
            WidePackedBasis::GeneralSpin1024(part) => erased_moves(part, self.width(), state, operator, sites),
            WidePackedBasis::GeneralSpin4096(part) => erased_moves(part, self.width(), state, operator, sites),
            WidePackedBasis::GeneralSpin16384(part) => erased_moves(part, self.width(), state, operator, sites),
            WidePackedBasis::Reversed(inner) => inner.moves(state, operator, sites),
        }
    }

    /// Whether a local operator string keeps the particle sectors of the basis.
    pub open spec fn preserves(self, operator: Seq<char>) -> core::result::Result<bool, QmbedError>
        decreases self,
    {
        match self {
            WidePackedBasis::Spin256(part) => part.spec_preserves(operator),
            WidePackedBasis::Spin1024(part) => part.spec_preserves(operator),
            WidePackedBasis::Spin4096(part) => part.spec_preserves(operator),
            WidePackedBasis::Spin16384(part) => part.spec_preserves(operator),
            WidePackedBasis::GeneralSpin256(part) => part.spec_preserves(operator),
            WidePackedBasis::GeneralSpin1024(part) => part.spec_preserves(operator),
            WidePackedBasis::GeneralSpin4096(part) => part.spec_preserves(operator),
            WidePackedBasis::GeneralSpin16384(part) => part.spec_preserves(operator),
            WidePackedBasis::Reversed(inner) => inner.preserves(operator),
        }
    }

    /// Whether labels are known to tell the states apart.
    pub open spec fn tells_apart(self) -> bool
        decreases self,
    {
        match self {
            WidePackedBasis::Spin256(part) => part.faithful(),
            WidePackedBasis::Spin1024(part) => part.faithful(),
            WidePackedBasis::Spin4096(part) => part.faithful(),
            WidePackedBasis::Spin16384(part) => part.faithful(),
            WidePackedBasis::GeneralSpin256(part) => part.faithful(),
            WidePackedBasis::GeneralSpin1024(part) => part.faithful(),
            WidePackedBasis::GeneralSpin4096(part) => part.faithful(),
            WidePackedBasis::GeneralSpin16384(part) => part.faithful(),
            WidePackedBasis::Reversed(inner) => inner.tells_apart(),
        }
    }

    /// Representative, phase and orbit size of a physical state.
    pub open spec fn image(self, state: ErasedState) -> core::result::Result<
        Option<(ErasedState, Turn, usize)>,
        QmbedError,
    >
        decreases self,
    {
        match self {
            WidePackedBasis::Spin256(part) => erased_image(part, self.width(), state),
            WidePackedBasis::Spin1024(part) => erased_image(part, self.width(), state),
            WidePackedBasis::Spin4096(part) => erased_image(part, self.width(), state),
            WidePackedBasis::Spin16384(part) => erased_image(part, self.width(), state),
            WidePackedBasis::GeneralSpin256(part) => erased_image(part, self.width(), state),
            WidePackedBasis::GeneralSpin1024(part) => erased_image(part, self.width(), state),
            WidePackedBasis::GeneralSpin4096(part) => erased_image(part, self.width(), state),
            WidePackedBasis::GeneralSpin16384(part) => erased_image(part, self.width(), state),
            WidePackedBasis::Reversed(inner) => inner.image(state),
        }
    }

    /// Orbit size of a row.
    pub open spec fn orbit_size(self, state: ErasedState) -> core::result::Result<usize, QmbedError>
        decreases self,
    {
        match self {
            WidePackedBasis::Spin256(part) => erased_orbit_size(part, self.width(), state),
            WidePackedBasis::Spin1024(part) => erased_orbit_size(part, self.width(), state),
            WidePackedBasis::Spin4096(part) => erased_orbit_size(part, self.width(), state),
            WidePackedBasis::Spin16384(part) => erased_orbit_size(part, self.width(), state),
            WidePackedBasis::GeneralSpin256(part) => erased_orbit_size(part, self.width(), state),
            WidePackedBasis::GeneralSpin1024(part) => erased_orbit_size(part, self.width(), state),
            WidePackedBasis::GeneralSpin4096(part) => erased_orbit_size(part, self.width(), state),
            WidePackedBasis::GeneralSpin16384(part) => erased_orbit_size(part, self.width(), state),
            WidePackedBasis::Reversed(inner) => inner.orbit_size(state),
        }
    }

    proof fn lemma_tells_apart(self)
        requires
            self.ready(),
            self.tells_apart(),
        ensures
            self.rows().no_duplicates(),
        decreases self,
    {
        match self {
            WidePackedBasis::Spin256(part) => {
                part.states_distinct();
                lemma_erased_distinct(part, self.width());
            },
            WidePackedBasis::Spin1024(part) => {
                part.states_distinct();
                lemma_erased_distinct(part, self.width());
            },
            WidePackedBasis::Spin4096(part) => {
                part.states_distinct();
                lemma_erased_distinct(part, self.width());
            },
            WidePackedBasis::Spin16384(part) => {
                part.states_distinct();
                lemma_erased_distinct(part, self.width());
            },
            WidePackedBasis::GeneralSpin256(part) => {
                part.states_distinct();
                lemma_erased_distinct(part, self.width());
            },
            WidePackedBasis::GeneralSpin1024(part) => {
                part.states_distinct();
                lemma_erased_distinct(part, self.width());
            },
            WidePackedBasis::GeneralSpin4096(part) => {
                part.states_distinct();
                lemma_erased_distinct(part, self.width());
            },
            WidePackedBasis::GeneralSpin16384(part) => {
                part.states_distinct();
                lemma_erased_distinct(part, self.width());
            },
            WidePackedBasis::Reversed(inner) => {
                inner.lemma_tells_apart();
                let rows = self.rows();
                assert forall|i: int, j: int|
                    0 <= i < rows.len() && 0 <= j < rows.len() && i != j implies rows[i]
                    != rows[j] by {
                    let last = inner.rows().len() - 1;
                    assert(inner.rows()[last - i] != inner.rows()[last - j]);
                }
            },
        }
    }

    /// The basis in the opposite order.
    pub open spec fn opposite(self) -> Self {
        match self {
            WidePackedBasis::Reversed(inner) => *inner,
            other => WidePackedBasis::Reversed(Box::new(other)),
        }
    }

    /// The basis in the opposite order.
    pub fn reversed(self) -> (basis: Self)
        ensures
            basis.rows() == self.rows().reverse(),
            self.ready() ==> basis.ready(),
            basis.width() == self.width(),
            basis.class() == self.class(),
            basis == self.opposite(),
    {
        match self {
            WidePackedBasis::Reversed(inner) => {
                proof {
                    assert(inner.rows().reverse().reverse() =~= inner.rows());
                }
                *inner
            },
            other => WidePackedBasis::Reversed(Box::new(other)),
        }
    }

    /// Number of sites.
    pub fn width_bits(&self) -> (width: usize)
        requires
            self.ready(),
        ensures
            width == self.width(),
        decreases *self,
    {
        match self {
            WidePackedBasis::Spin256(part) => part.sites(),
            WidePackedBasis::Spin1024(part) => part.sites(),
            WidePackedBasis::Spin4096(part) => part.sites(),
            WidePackedBasis::Spin16384(part) => part.sites(),
            WidePackedBasis::GeneralSpin256(part) => part.parent().sites(),
            WidePackedBasis::GeneralSpin1024(part) => part.parent().sites(),
            WidePackedBasis::GeneralSpin4096(part) => part.parent().sites(),
            WidePackedBasis::GeneralSpin16384(part) => part.parent().sites(),
            WidePackedBasis::Reversed(inner) => inner.width_bits(),
        }
    }

    /// Storage class of the states.
    pub fn storage(&self) -> (storage: StateStorage)
        ensures
            storage == self.class(),
        decreases *self,
    {
        match self {
            WidePackedBasis::Spin256(part) => StateStorage::U256,
            WidePackedBasis::Spin1024(part) => StateStorage::U1024,
            WidePackedBasis::Spin4096(part) => StateStorage::U4096,
            WidePackedBasis::Spin16384(part) => StateStorage::U16384,
            WidePackedBasis::GeneralSpin256(part) => StateStorage::U256,
            WidePackedBasis::GeneralSpin1024(part) => StateStorage::U1024,
            WidePackedBasis::GeneralSpin4096(part) => StateStorage::U4096,
            WidePackedBasis::GeneralSpin16384(part) => StateStorage::U16384,
            WidePackedBasis::Reversed(inner) => inner.storage(),
        }
    }

    fn length(&self) -> (length: usize)
        requires
            self.ready(),
        ensures
            length == self.rows().len(),
        decreases *self,
    {
        match self {
            WidePackedBasis::Spin256(part) => part.len(),
            WidePackedBasis::Spin1024(part) => part.len(),
            WidePackedBasis::Spin4096(part) => part.len(),
            WidePackedBasis::Spin16384(part) => part.len(),
            WidePackedBasis::GeneralSpin256(part) => part.len(),
            WidePackedBasis::GeneralSpin1024(part) => part.len(),
            WidePackedBasis::GeneralSpin4096(part) => part.len(),
            WidePackedBasis::GeneralSpin16384(part) => part.len(),
            WidePackedBasis::Reversed(inner) => inner.length(),
        }
    }

    fn state_at(&self, index: usize) -> (result: Result<ErasedState>)
        requires
            self.ready(),
        ensures
            match result {
                Ok(state) => {
                    &&& index < self.rows().len()
                    &&& state == self.rows()[index as int]
                },
                Err(error) => {
                    &&& index >= self.rows().len()
                    &&& error == QmbedError::StateNotInBasis
                },
            },
        decreases *self,
    {
        let width: usize = self.width_bits();
        match self {
            WidePackedBasis::Spin256(part) => erased_state_at(part, width, index),
            WidePackedBasis::Spin1024(part) => erased_state_at(part, width, index),
            WidePackedBasis::Spin4096(part) => erased_state_at(part, width, index),
            WidePackedBasis::Spin16384(part) => erased_state_at(part, width, index),
            WidePackedBasis::GeneralSpin256(part) => erased_state_at(part, width, index),
            WidePackedBasis::GeneralSpin1024(part) => erased_state_at(part, width, index),
            WidePackedBasis::GeneralSpin4096(part) => erased_state_at(part, width, index),
            WidePackedBasis::GeneralSpin16384(part) => erased_state_at(part, width, index),
            WidePackedBasis::Reversed(inner) => {
                let length: usize = inner.length();
                if index >= length {
                    return Err(QmbedError::StateNotInBasis);
                }
                inner.state_at(length - index - 1)
            },
        }
    }

    fn row_of(&self, state: ErasedState) -> (result: Result<usize>)
        requires
            self.ready(),
        ensures
            match result {
                Ok(index) => {
                    &&& index < self.rows().len()
                    &&& self.rows()[index as int] == state
                },
                Err(error) => {
                    &&& !self.rows().contains(state)
                    &&& error == QmbedError::StateNotInBasis
                },
            },
        decreases *self,
    {
        let width: usize = self.width_bits();
        match self {
            WidePackedBasis::Spin256(part) => erased_index(part, width, state),
            WidePackedBasis::Spin1024(part) => erased_index(part, width, state),
            WidePackedBasis::Spin4096(part) => erased_index(part, width, state),
            WidePackedBasis::Spin16384(part) => erased_index(part, width, state),
            WidePackedBasis::GeneralSpin256(part) => erased_index(part, width, state),
            WidePackedBasis::GeneralSpin1024(part) => erased_index(part, width, state),
            WidePackedBasis::GeneralSpin4096(part) => erased_index(part, width, state),
            WidePackedBasis::GeneralSpin16384(part) => erased_index(part, width, state),
            WidePackedBasis::Reversed(inner) => match inner.row_of(state) {
                Ok(index) => Ok(inner.length() - index - 1),
                Err(error) => {
                    proof {
                        if self.rows().contains(state) {
                            let at = self.rows().index_of(state);
                            let back = inner.rows().len() - 1 - at;
                            assert(inner.rows()[back] == state);
                        }
                    }
                    Err(error)
                },
            },
        }
    }

    fn local_moves(&self, state: ErasedState, operator: &str, sites: &[usize]) -> (result: Result<
        Transitions<ErasedState, WidePhase>,
    >)
        requires
            self.ready(),
        ensures
            basis::transitions_are(result, self.moves(state, operator@, sites@)),
        decreases *self,
    {
        let width: usize = self.width_bits();
        match self {
            WidePackedBasis::Spin256(part) => erased_local_moves(part, width, state, operator, sites),
            WidePackedBasis::Spin1024(part) => erased_local_moves(part, width, state, operator, sites),
            WidePackedBasis::Spin4096(part) => erased_local_moves(part, width, state, operator, sites),
            WidePackedBasis::Spin16384(part) => erased_local_moves(part, width, state, operator, sites),
            WidePackedBasis::GeneralSpin256(part) => erased_local_moves(part, width, state, operator, sites),
            WidePackedBasis::GeneralSpin1024(part) => erased_local_moves(part, width, state, operator, sites),
            WidePackedBasis::GeneralSpin4096(part) => erased_local_moves(part, width, state, operator, sites),
            WidePackedBasis::GeneralSpin16384(part) => erased_local_moves(part, width, state, operator, sites),
            WidePackedBasis::Reversed(inner) => inner.local_moves(state, operator, sites),
        }
    }

    fn check_preserves(&self, operator: &str) -> (result: Result<bool>)
        requires
            self.ready(),
            operator@.len() < i32::MAX,
        ensures
            result == self.preserves(operator@),
        decreases *self,
    {
        match self {
            WidePackedBasis::Spin256(part) => part.operator_preserves_particle_sector(operator),
            WidePackedBasis::Spin1024(part) => part.operator_preserves_particle_sector(operator),
            WidePackedBasis::Spin4096(part) => part.operator_preserves_particle_sector(operator),
            WidePackedBasis::Spin16384(part) => part.operator_preserves_particle_sector(operator),
            WidePackedBasis::GeneralSpin256(part) => part.operator_preserves_particle_sector(operator),
            WidePackedBasis::GeneralSpin1024(part) => part.operator_preserves_particle_sector(operator),
            WidePackedBasis::GeneralSpin4096(part) => part.operator_preserves_particle_sector(operator),
            WidePackedBasis::GeneralSpin16384(part) => part.operator_preserves_particle_sector(operator),
            WidePackedBasis::Reversed(inner) => inner.check_preserves(operator),
        }
    }

    fn find_image(&self, state: ErasedState) -> (result: Result<Option<ReductionImage<ErasedState, Turn>>>)
        requires
            self.ready(),
        ensures
            reduction::image_is(result, self.image(state)),
        decreases *self,
    {
        let width: usize = self.width_bits();
        match self {
            WidePackedBasis::Spin256(part) => erased_reduction(part, width, state),
            WidePackedBasis::Spin1024(part) => erased_reduction(part, width, state),
            WidePackedBasis::Spin4096(part) => erased_reduction(part, width, state),
            WidePackedBasis::Spin16384(part) => erased_reduction(part, width, state),
            WidePackedBasis::GeneralSpin256(part) => erased_reduction(part, width, state),
            WidePackedBasis::GeneralSpin1024(part) => erased_reduction(part, width, state),
            WidePackedBasis::GeneralSpin4096(part) => erased_reduction(part, width, state),
            WidePackedBasis::GeneralSpin16384(part) => erased_reduction(part, width, state),
            WidePackedBasis::Reversed(inner) => inner.find_image(state),
        }
    }

    fn find_orbit_size(&self, state: ErasedState) -> (result: Result<usize>)
        requires
            self.ready(),
        ensures
            result == self.orbit_size(state),
        decreases *self,
    {
        let width: usize = self.width_bits();
        match self {
            WidePackedBasis::Spin256(part) => erased_size(part, width, state),
            WidePackedBasis::Spin1024(part) => erased_size(part, width, state),
            WidePackedBasis::Spin4096(part) => erased_size(part, width, state),
            WidePackedBasis::Spin16384(part) => erased_size(part, width, state),
            WidePackedBasis::GeneralSpin256(part) => erased_size(part, width, state),
            WidePackedBasis::GeneralSpin1024(part) => erased_size(part, width, state),
            WidePackedBasis::GeneralSpin4096(part) => erased_size(part, width, state),
            WidePackedBasis::GeneralSpin16384(part) => erased_size(part, width, state),
            WidePackedBasis::Reversed(inner) => inner.find_orbit_size(state),
        }
    }

    /// The only destination of a local operator string.
    pub fn apply_local(&self, state: ErasedState, operator: &str, sites: &[usize]) -> (result: Result<
        Option<(ErasedState, Vec<Factor<WidePhase>>)>,
    >)
        requires
            self.ready(),
        ensures
            basis::transition_is(
                result,
                basis::single_transition(
                    self.moves(state, operator@, sites@),
                    QmbedError::UnsupportedBackend(
                        Reason::Text("this local action branches; use apply_local_transitions"),
                    ),
                ),
            ),
    {
        match self.local_moves(state, operator, sites) {
            Ok(transitions) => basis::only_transition(
                transitions,
                QmbedError::UnsupportedBackend(
                    Reason::Text("this local action branches; use apply_local_transitions"),
                ),
            ),
            Err(error) => Err(error),
        }
    }
}

impl Basis for WidePackedBasis {
    type State = ErasedState;

    type Phase = WidePhase;

    open spec fn wf(&self) -> bool {
        self.ready()
    }

    open spec fn spec_states(&self) -> Seq<ErasedState> {
        self.rows()
    }

    open spec fn acts_on(&self, state: ErasedState) -> bool {
        true
    }

    open spec fn spec_transitions(
        &self,
        state: ErasedState,
        operator: Seq<char>,
        sites: Seq<usize>,
    ) -> core::result::Result<Seq<(ErasedState, Seq<Factor<WidePhase>>)>, QmbedError> {
        self.moves(state, operator, sites)
    }

    open spec fn spec_preserves(&self, operator: Seq<char>) -> core::result::Result<
        bool,
        QmbedError,
    > {
        self.preserves(operator)
    }

    open spec fn spec_preserves_on_sites(
        &self,
        operator: Seq<char>,
        sites: Seq<usize>,
    ) -> core::result::Result<bool, QmbedError> {
        self.spec_preserves(operator)
    }

    open spec fn faithful(&self) -> bool {
        self.tells_apart()
    }

    proof fn states_distinct(&self) {
        self.lemma_tells_apart();
    }

    proof fn acts_on_states(&self, index: int) {
    }

    fn len(&self) -> (length: usize) {
        self.length()
    }

    fn state(&self, index: usize) -> (result: Result<ErasedState>) {
        self.state_at(index)
    }

    fn index(&self, state: ErasedState) -> (result: Result<usize>) {
        self.row_of(state)
    }

    fn apply_local_transitions(&self, state: ErasedState, operator: &str, sites: &[usize]) -> (result:
        Result<Transitions<ErasedState, WidePhase>>) {
        self.local_moves(state, operator, sites)
    }

    fn operator_preserves_particle_sector_on_sites(
        &self,
        operator: &str,
        sites: &[usize],
    ) -> (result: Result<bool>) {
        self.operator_preserves_particle_sector(operator)
    }

    fn operator_preserves_particle_sector(&self, operator: &str) -> (result: Result<bool>) {
        self.check_preserves(operator)
    }
}

impl WidePackedBasis {
    /// Destinations of a local operator string that no symmetry has replaced.
    pub open spec fn unreduced_moves(
        self,
        state: ErasedState,
        operator: Seq<char>,
        sites: Seq<usize>,
    ) -> core::result::Result<Seq<(ErasedState, Seq<Factor<WidePhase>>)>, QmbedError>
        decreases self,
    {
        match self {
            WidePackedBasis::Spin256(part) => erased_unreduced(
                part,
                self.width(),
                state,
                operator,
                sites,
            ),
            WidePackedBasis::Spin1024(part) => erased_unreduced(
                part,
                self.width(),
                state,
                operator,
                sites,
            ),
            WidePackedBasis::Spin4096(part) => erased_unreduced(
                part,
                self.width(),
                state,
                operator,
                sites,
            ),
            WidePackedBasis::Spin16384(part) => erased_unreduced(
                part,
                self.width(),
                state,
                operator,
                sites,
            ),
            WidePackedBasis::GeneralSpin256(part) => erased_unreduced(
                part,
                self.width(),
                state,
                operator,
                sites,
            ),
            WidePackedBasis::GeneralSpin1024(part) => erased_unreduced(
                part,
                self.width(),
                state,
                operator,
                sites,
            ),
            WidePackedBasis::GeneralSpin4096(part) => erased_unreduced(
                part,
                self.width(),
                state,
                operator,
                sites,
            ),
            WidePackedBasis::GeneralSpin16384(part) => erased_unreduced(
                part,
                self.width(),
                state,
                operator,
                sites,
            ),
            WidePackedBasis::Reversed(inner) => inner.unreduced_moves(state, operator, sites),
        }
    }

    fn find_unreduced(&self, state: ErasedState, operator: &str, sites: &[usize]) -> (result: Result<
        Transitions<ErasedState, WidePhase>,
    >)
        requires
            self.ready(),
        ensures
            basis::transitions_are(result, self.unreduced_moves(state, operator@, sites@)),
        decreases *self,
    {
        let width: usize = self.width_bits();
        match self {
            WidePackedBasis::Spin256(part) => erased_physical_moves(
                part,
                width,
                state,
                operator,
                sites,
            ),
            WidePackedBasis::Spin1024(part) => erased_physical_moves(
                part,
                width,
                state,
                operator,
                sites,
            ),
            WidePackedBasis::Spin4096(part) => erased_physical_moves(
                part,
                width,
                state,
                operator,
                sites,
            ),
            WidePackedBasis::Spin16384(part) => erased_physical_moves(
                part,
                width,
                state,
                operator,
                sites,
            ),
            WidePackedBasis::GeneralSpin256(part) => erased_physical_moves(
                part,
                width,
                state,
                operator,
                sites,
            ),
            WidePackedBasis::GeneralSpin1024(part) => erased_physical_moves(
                part,
                width,
                state,
                operator,
                sites,
            ),
            WidePackedBasis::GeneralSpin4096(part) => erased_physical_moves(
                part,
                width,
                state,
                operator,
                sites,
            ),
            WidePackedBasis::GeneralSpin16384(part) => erased_physical_moves(
                part,
                width,
                state,
                operator,
                sites,
            ),
            WidePackedBasis::Reversed(inner) => inner.find_unreduced(state, operator, sites),
        }
    }
}

impl Physical for WidePackedBasis {
    open spec fn spec_unreduced(
        &self,
        state: ErasedState,
        operator: Seq<char>,
        sites: Seq<usize>,
    ) -> core::result::Result<Seq<(ErasedState, Seq<Factor<WidePhase>>)>, QmbedError> {
        self.unreduced_moves(state, operator, sites)
    }

    fn apply_local_unreduced_transitions(
        &self,
        state: ErasedState,
        operator: &str,
        sites: &[usize],
    ) -> (result: Result<Transitions<ErasedState, WidePhase>>) {
        self.find_unreduced(state, operator, sites)
    }
}

impl Reduction for WidePackedBasis {
    type Turned = Turn;

    open spec fn spec_reduction(&self, state: ErasedState) -> core::result::Result<
        Option<(ErasedState, Turn, usize)>,
        QmbedError,
    > {
        self.image(state)
    }

    fn reduction_image(&self, state: ErasedState) -> (result: Result<
        Option<ReductionImage<ErasedState, Turn>>,
    >) {
        self.find_image(state)
    }

    open spec fn spec_orbit_size(&self, state: ErasedState) -> core::result::Result<
        usize,
        QmbedError,
    > {
        self.orbit_size(state)
    }

    fn transition_orbit_size(&self, state: ErasedState) -> (result: Result<usize>) {
        self.find_orbit_size(state)
    }
}

/// Typed states behind the first states of a list.
pub open spec fn all_restored<W: FixedWidthState>(
    states: Seq<ErasedState>,
    width: usize,
    count: nat,
) -> core::result::Result<Seq<W>, QmbedError>
    decreases count,
{
    if count == 0 {
        Ok(Seq::empty())
    } else {
        match all_restored::<W>(states, width, (count - 1) as nat) {
            Err(error) => Err(error),
            Ok(before) => match restored::<W>(states[count - 1], width) {
                Err(error) => Err(error),
                Ok(state) => Ok(before.push(state)),
            },
        }
    }
}

proof fn lemma_restoring_fails<W: FixedWidthState>(
    states: Seq<ErasedState>,
    width: usize,
    count: nat,
    later: nat,
)
    requires
        count <= later,
        all_restored::<W>(states, width, count) is Err,
    ensures
        all_restored::<W>(states, width, later) == all_restored::<W>(states, width, count),
    decreases later,
{
    if count < later {
        lemma_restoring_fails::<W>(states, width, count, (later - 1) as nat);
    }
}

/// Whether a basis is that of the listed states, with the sites and the normalization of
/// another; the list is refused where one of its states does not belong there.
pub open spec fn explicit_part<const WORDS: usize>(
    part: WideSpinBasis<WORDS>,
    states: Seq<ErasedState>,
    result: core::result::Result<WideSpinBasis<WORDS>, QmbedError>,
) -> bool where WideState<WORDS>: FixedWidthState {
    match (all_restored::<WideState<WORDS>>(states, part@.sites, states.len()), result) {
        (Err(stated), Err(error)) => error == stated,
        (Ok(typed), Ok(built)) => {
            &&& !wide_spin::some_beyond(typed, part@.sites)
            &&& built.valid()
            &&& built@.sites == part@.sites
            &&& built@.normalization == part@.normalization
            &&& forall|state: WideState<WORDS>| #[trigger]
                built@.states.contains(state) <==> typed.contains(state)
        },
        (Ok(typed), Err(error)) => {
            &&& wide_spin::some_beyond(typed, part@.sites)
            &&& error == QmbedError::InvalidSector(
                Reason::Text("an explicit wide spin state exceeds the requested site width"),
            )
        },
        _ => false,
    }
}

fn explicit_wide<const WORDS: usize>(part: &WideSpinBasis<WORDS>, states: &Vec<ErasedState>) -> (result: Result<
    WideSpinBasis<WORDS>,
>) where WideState<WORDS>: FixedWidthState
    requires
        part.valid(),
    ensures
        explicit_part(*part, states@, result),
{
    let width: usize = part.sites();
    let mut typed: Vec<WideState<WORDS>> = Vec::new();
    let mut next: usize = 0;
    while next < states.len()
        invariant
            next <= states@.len(),
            width == part@.sites,
            all_restored::<WideState<WORDS>>(states@, width, next as nat) == Ok::<
                Seq<WideState<WORDS>>,
                QmbedError,
            >(typed@),
        decreases states@.len() - next,
    {
        match restore_fixed_width_state::<WideState<WORDS>>(states[next], width) {
            Ok(state) => {
                typed.push(state);
            },
            Err(error) => {
                proof {
                    lemma_restoring_fails::<WideState<WORDS>>(
                        states@,
                        width,
                        (next + 1) as nat,
                        states@.len(),
                    );
                }
                return Err(error);
            },
        }
        next += 1;
    }
    WideSpinBasis::from_explicit_states_with_normalization(width, typed, part.normalization())
}

/// Whether a basis is that of the listed states with the algebra and the order of another.
pub open spec fn explicit_is(
    whole: WidePackedBasis,
    states: Seq<ErasedState>,
    result: core::result::Result<WidePackedBasis, QmbedError>,
) -> bool
    decreases whole,
{
    match whole {
        WidePackedBasis::Spin256(part) => match result {
            Ok(found) => found is Spin256 && explicit_part(part, states, Ok(found->Spin256_0)),
            Err(error) => explicit_part(part, states, Err(error)),
        },
        WidePackedBasis::Spin1024(part) => match result {
            Ok(found) => found is Spin1024 && explicit_part(part, states, Ok(found->Spin1024_0)),
            Err(error) => explicit_part(part, states, Err(error)),
        },
        WidePackedBasis::Spin4096(part) => match result {
            Ok(found) => found is Spin4096 && explicit_part(part, states, Ok(found->Spin4096_0)),
            Err(error) => explicit_part(part, states, Err(error)),
        },
        WidePackedBasis::Spin16384(part) => match result {
            Ok(found) => found is Spin16384 && explicit_part(part, states, Ok(found->Spin16384_0)),
            Err(error) => explicit_part(part, states, Err(error)),
        },
        WidePackedBasis::Reversed(inner) => match result {
            Ok(found) => explicit_is(*inner, states, Ok(found.opposite())),
            Err(error) => explicit_is(*inner, states, Err(error)),
        },
        _ => result == Err::<WidePackedBasis, QmbedError>(
            QmbedError::InvalidOptions(
                Reason::Text("an explicit wide spin subspace must start from an unreduced spin algebra"),
            ),
        ),
    }
}

impl WidePackedBasis {
    /// The same spin algebra on explicitly selected physical states, in the same order.
    pub fn explicit_spin_subspace(&self, states: &Vec<ErasedState>) -> (result: Result<Self>)
        requires
            self.ready(),
        ensures
            explicit_is(*self, states@, result),
            result matches Ok(basis) ==> basis.ready() && basis.opposite().opposite() == basis,
        decreases *self,
    {
        match self {
            WidePackedBasis::Spin256(part) => match explicit_wide(part, states) {
                Ok(built) => Ok(WidePackedBasis::Spin256(built)),
                Err(error) => Err(error),
            },
            WidePackedBasis::Spin1024(part) => match explicit_wide(part, states) {
                Ok(built) => Ok(WidePackedBasis::Spin1024(built)),
                Err(error) => Err(error),
            },
            WidePackedBasis::Spin4096(part) => match explicit_wide(part, states) {
                Ok(built) => Ok(WidePackedBasis::Spin4096(built)),
                Err(error) => Err(error),
            },
            WidePackedBasis::Spin16384(part) => match explicit_wide(part, states) {
                Ok(built) => Ok(WidePackedBasis::Spin16384(built)),
                Err(error) => Err(error),
            },
            WidePackedBasis::Reversed(inner) => match inner.explicit_spin_subspace(states) {
                Ok(plain) => {
                    let found: WidePackedBasis = plain.reversed();
                    proof {
                        assert(found.opposite() == plain);
                    }
                    Ok(found)
                },
                Err(error) => Err(error),
            },
            _ => Err(
                QmbedError::InvalidOptions(
                    Reason::Text("an explicit wide spin subspace must start from an unreduced spin algebra"),
                ),
            ),
        }
    }
}

impl From<WideSpinBasis256> for WidePackedBasis {
    fn from(part: WideSpinBasis256) -> (basis: Self) {
        WidePackedBasis::Spin256(part)
    }
}

impl vstd::std_specs::convert::FromSpecImpl<WideSpinBasis256> for WidePackedBasis {
    open spec fn obeys_from_spec() -> bool {
        true
    }

    open spec fn from_spec(part: WideSpinBasis256) -> Self {
        WidePackedBasis::Spin256(part)
    }
}

impl From<WideSpinBasis1024> for WidePackedBasis {
    fn from(part: WideSpinBasis1024) -> (basis: Self) {
        WidePackedBasis::Spin1024(part)
    }
}

impl vstd::std_specs::convert::FromSpecImpl<WideSpinBasis1024> for WidePackedBasis {
    open spec fn obeys_from_spec() -> bool {
        true
    }

    open spec fn from_spec(part: WideSpinBasis1024) -> Self {
        WidePackedBasis::Spin1024(part)
    }
}

impl From<WideSpinBasis4096> for WidePackedBasis {
    fn from(part: WideSpinBasis4096) -> (basis: Self) {
        WidePackedBasis::Spin4096(part)
    }
}

impl vstd::std_specs::convert::FromSpecImpl<WideSpinBasis4096> for WidePackedBasis {
    open spec fn obeys_from_spec() -> bool {
        true
    }

    open spec fn from_spec(part: WideSpinBasis4096) -> Self {
        WidePackedBasis::Spin4096(part)
    }
}

impl From<WideSpinBasis16384> for WidePackedBasis {
    fn from(part: WideSpinBasis16384) -> (basis: Self) {
        WidePackedBasis::Spin16384(part)
    }
}

impl vstd::std_specs::convert::FromSpecImpl<WideSpinBasis16384> for WidePackedBasis {
    open spec fn obeys_from_spec() -> bool {
        true
    }

    open spec fn from_spec(part: WideSpinBasis16384) -> Self {
        WidePackedBasis::Spin16384(part)
    }
}

impl From<WideSpinBasisGeneral256> for WidePackedBasis {
    fn from(part: WideSpinBasisGeneral256) -> (basis: Self) {
        WidePackedBasis::GeneralSpin256(part)
    }
}

impl vstd::std_specs::convert::FromSpecImpl<WideSpinBasisGeneral256> for WidePackedBasis {
    open spec fn obeys_from_spec() -> bool {
        true
    }

    open spec fn from_spec(part: WideSpinBasisGeneral256) -> Self {
        WidePackedBasis::GeneralSpin256(part)
    }
}

impl From<WideSpinBasisGeneral1024> for WidePackedBasis {
    fn from(part: WideSpinBasisGeneral1024) -> (basis: Self) {
        WidePackedBasis::GeneralSpin1024(part)
    }
}

impl vstd::std_specs::convert::FromSpecImpl<WideSpinBasisGeneral1024> for WidePackedBasis {
    open spec fn obeys_from_spec() -> bool {
        true
    }

    open spec fn from_spec(part: WideSpinBasisGeneral1024) -> Self {
        WidePackedBasis::GeneralSpin1024(part)
    }
}

impl From<WideSpinBasisGeneral4096> for WidePackedBasis {
    fn from(part: WideSpinBasisGeneral4096) -> (basis: Self) {
        WidePackedBasis::GeneralSpin4096(part)
    }
}

impl vstd::std_specs::convert::FromSpecImpl<WideSpinBasisGeneral4096> for WidePackedBasis {
    open spec fn obeys_from_spec() -> bool {
        true
    }

    open spec fn from_spec(part: WideSpinBasisGeneral4096) -> Self {
        WidePackedBasis::GeneralSpin4096(part)
    }
}

impl From<WideSpinBasisGeneral16384> for WidePackedBasis {
    fn from(part: WideSpinBasisGeneral16384) -> (basis: Self) {
        WidePackedBasis::GeneralSpin16384(part)
    }
}

impl vstd::std_specs::convert::FromSpecImpl<WideSpinBasisGeneral16384> for WidePackedBasis {
    open spec fn obeys_from_spec() -> bool {
        true
    }

    open spec fn from_spec(part: WideSpinBasisGeneral16384) -> Self {
        WidePackedBasis::GeneralSpin16384(part)
    }
}

} // verus!

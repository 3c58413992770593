//! Bases chosen at run time.

use vstd::arithmetic::div_mod::*;
use vstd::arithmetic::mul::*;
use vstd::prelude::*;
use vstd::slice::slice_subrange;
use vstd::string::*;

use crate::amplitudes::{ReductionImage, Turn};
use crate::assembly::Physical;
use crate::basis;
use crate::basis::{Basis, EitherPhase, Factor, Transitions};
use crate::bits;
use crate::boson;
use crate::boson::{BosonBasis1D, BosonBasisBuilder};
use crate::callback::CallbackBasis;
use crate::closure_map::{ClosureSymmetryMap, ImageTable};
use crate::digits;
use crate::error::{OperatorFault, QmbedError, Reason, Result};
use crate::fermion::SpinlessFermionBasis1D;
use crate::general::GeneralBasis;
use crate::lattice_map::LatticeSymmetryMap;
use crate::linear::Gaussian;
use crate::reduction;
use crate::reduction::Reduction;
use crate::spin::SpinBasis1D;
use crate::spinful::SpinfulFermionBasis1D;
use crate::symbols;
use crate::symbols::{characters, find_separator};
use crate::table::StateTable;
use crate::symmetry::SymmetryMap;
use crate::user::{LocalAlgebra, RuleTable};
use crate::weights;
use crate::wide_spin;
use crate::wide_spin::operator_keeps_number;

verus! {

/// Phases of bases chosen at run time: those of a chain, and those of a lattice map.
pub type PackedPhase = EitherPhase<Turn, Turn>;

/// Spins reduced by lattice maps.
pub type SpinBasisGeneral<L = LatticeSymmetryMap> = GeneralBasis<SpinBasis1D, L>;

/// Bosons reduced by lattice maps.
pub type BosonBasisGeneral<L = LatticeSymmetryMap> = GeneralBasis<BosonBasis1D, L>;

/// Spinless fermions reduced by lattice maps.
pub type SpinlessFermionBasisGeneral<L = LatticeSymmetryMap> = GeneralBasis<SpinlessFermionBasis1D, L>;

/// Fermions with spin reduced by lattice maps.
pub type SpinfulFermionBasisGeneral<L = LatticeSymmetryMap> = GeneralBasis<SpinfulFermionBasis1D, L>;

/// Callback-defined states reduced by maps of the user's own.
pub type UserBasisGeneral<
    A = RuleTable<u128, Gaussian>,
    M = ClosureSymmetryMap<ImageTable<u128, Turn>>,
> = GeneralBasis<CallbackBasis<A>, M>;

/// A basis chosen at run time. `A` holds the local operators of callback-defined bases, `L` the
/// maps that reduce the other bases, `M` the maps that reduce callback-defined ones.
#[verifier::reject_recursive_types(A)]
#[verifier::reject_recursive_types(L)]
#[verifier::reject_recursive_types(M)]
pub enum PackedBasis<
    A = RuleTable<u128, Gaussian>,
    L = LatticeSymmetryMap,
    M = ClosureSymmetryMap<ImageTable<u128, Turn>>,
> where
    A: LocalAlgebra<u128, Gaussian>,
    L: SymmetryMap<u128, Factor = Turn>,
    M: SymmetryMap<u128, Factor = Turn>,
 {
    Spin(SpinBasis1D),
    Boson(BosonBasis1D),
    SpinlessFermion(SpinlessFermionBasis1D),
    SpinfulFermion(SpinfulFermionBasis1D),
    GeneralSpin(SpinBasisGeneral<L>),
    GeneralBoson(BosonBasisGeneral<L>),
    GeneralSpinlessFermion(SpinlessFermionBasisGeneral<L>),
    GeneralSpinfulFermion(SpinfulFermionBasisGeneral<L>),
    Tensor(Box<PackedTensorBasis<A, L, M>>),
    Photon(Box<PackedPhotonBasis<A, L, M>>),
    User(Box<UserBasisGeneral<A, M>>),
    /// The same states in the opposite order.
    Reversed(Box<PackedBasis<A, L, M>>),
}

/// Direct product of bases; states are the rows of the product.
#[verifier::reject_recursive_types(A)]
#[verifier::reject_recursive_types(L)]
#[verifier::reject_recursive_types(M)]
pub struct PackedTensorBasis<
    A = RuleTable<u128, Gaussian>,
    L = LatticeSymmetryMap,
    M = ClosureSymmetryMap<ImageTable<u128, Turn>>,
> where
    A: LocalAlgebra<u128, Gaussian>,
    L: SymmetryMap<u128, Factor = Turn>,
    M: SymmetryMap<u128, Factor = Turn>,
 {
    factors: Vec<PackedBasis<A, L, M>>,
    dimensions: Vec<usize>,
    strides: Vec<usize>,
    dimension: usize,
}

/// Matter tensored with one truncated photon mode.
///
/// Public states are rows of the unfiltered product, with the matter row as the major index
/// and the photon occupation as the minor index. A fixed total excitation leaves these numbers
/// unchanged, so that a projector connects the filtered and the full space.
#[verifier::reject_recursive_types(A)]
#[verifier::reject_recursive_types(L)]
#[verifier::reject_recursive_types(M)]
pub struct PackedPhotonBasis<
    A = RuleTable<u128, Gaussian>,
    L = LatticeSymmetryMap,
    M = ClosureSymmetryMap<ImageTable<u128, Turn>>,
> where
    A: LocalAlgebra<u128, Gaussian>,
    L: SymmetryMap<u128, Factor = Turn>,
    M: SymmetryMap<u128, Factor = Turn>,
 {
    matter: PackedBasis<A, L, M>,
    photon: BosonBasis1D,
    photon_dimension: usize,
    full_dimension: usize,
    states: Vec<u128>,
    indices: StateTable<u128, usize>,
    total_excitations: Option<usize>,
}

/// Whether local operators act on every state of a basis.
pub open spec fn acts_everywhere<B: Basis>(part: B) -> bool {
    forall|i: int| 0 <= i < part.spec_states().len() ==> part.acts_on(#[trigger] part.spec_states()[i])
}

/// A list from its end to its start.
pub open spec fn backwards<T>(list: Seq<T>) -> Seq<T> {
    Seq::new(list.len(), |i: int| list[list.len() - 1 - i])
}

/// A row, as a number.
pub open spec fn as_place(row: Option<usize>) -> Option<int> {
    match row {
        Some(row) => Some(row as int),
        None => None,
    }
}

/// First place of a state in a list.
pub open spec fn place_in(states: Seq<u128>, state: u128) -> Option<int> {
    if states.contains(state) {
        Some(states.index_of(state))
    } else {
        None
    }
}

/// Product of the dimensions from a factor on.
pub open spec fn product_from(dimensions: Seq<usize>, place: nat) -> nat
    decreases dimensions.len() - place,
{
    if place >= dimensions.len() {
        1
    } else {
        dimensions[place as int] as nat * product_from(dimensions, place + 1)
    }
}

/// An additive quantum number, where it fits the address space.
pub open spec fn counted(number: nat) -> core::result::Result<usize, QmbedError> {
    if number <= usize::MAX {
        Ok(number as usize)
    } else {
        Err(QmbedError::UnsupportedBackend(Reason::Text("additive quantum number overflow")))
    }
}

/// The number of excitations of a state of a basis.
pub open spec fn listed_number(states: Seq<u128>, state: u128, number: nat) -> core::result::Result<
    usize,
    QmbedError,
> {
    if states.contains(state) {
        counted(number)
    } else {
        Err(QmbedError::StateNotInBasis)
    }
}

/// Sum of two additive quantum numbers.
pub open spec fn summed_numbers(
    left: core::result::Result<usize, QmbedError>,
    right: core::result::Result<usize, QmbedError>,
) -> core::result::Result<usize, QmbedError> {
    match left {
        Err(error) => Err(error),
        Ok(left) => match right {
            Err(error) => Err(error),
            Ok(right) => counted((left + right) as nat),
        },
    }
}

/// The refusal to count the excitations of a callback-defined state.
pub open spec fn no_callback_number() -> QmbedError {
    QmbedError::UnsupportedBackend(
        Reason::Text("a callback-defined basis must provide an additive quantum-number callback"),
    )
}

impl<
    A: LocalAlgebra<u128, Gaussian>,
    L: SymmetryMap<u128, Factor = Turn>,
    M: SymmetryMap<u128, Factor = Turn>,
> PackedBasis<A, L, M> {
    /// The invariant of the chosen basis.
    pub open spec fn ready(self) -> bool
        decreases self,
    {
        match self {
            PackedBasis::Spin(part) => part.wf(),
            PackedBasis::Boson(part) => part.wf(),
            PackedBasis::SpinlessFermion(part) => part.wf(),
            PackedBasis::SpinfulFermion(part) => part.wf(),
            PackedBasis::GeneralSpin(part) => part.wf() && acts_everywhere(part),
            PackedBasis::GeneralBoson(part) => part.wf() && acts_everywhere(part),
            PackedBasis::GeneralSpinlessFermion(part) => part.wf() && acts_everywhere(part),
            PackedBasis::GeneralSpinfulFermion(part) => part.wf() && acts_everywhere(part),
            PackedBasis::User(part) => part.wf() && acts_everywhere(*part),
            PackedBasis::Tensor(tensor) => {
                &&& tensor.spec_factors().len() >= 2
                &&& tensor.spec_dimensions().len() == tensor.spec_factors().len()
                &&& tensor.spec_strides().len() == tensor.spec_factors().len()
                &&& tensor.spec_dimension() == product_from(tensor.spec_dimensions(), 0)
                &&& forall|k: int|
                    0 <= k < tensor.spec_factors().len() ==> (#[trigger] tensor.spec_factors()[k]).ready()
                &&& forall|k: int|
                    0 <= k < tensor.spec_factors().len() ==> (#[trigger] tensor.spec_dimensions()[k])
                        == tensor.spec_factors()[k].rows().len() && tensor.spec_dimensions()[k] > 0
                &&& forall|k: int|
                    0 <= k < tensor.spec_factors().len() ==> (#[trigger] tensor.spec_strides()[k])
                        == product_from(tensor.spec_dimensions(), (k + 1) as nat)
            },
            PackedBasis::Photon(product) => {
                &&& product.spec_matter().ready()
                &&& product.spec_photon().wf()
                &&& product.spec_photon_dimension() > 0
                &&& product.spec_photon().spec_states().len() <= product.spec_photon_dimension()
                &&& product.spec_matter().rows().len() * product.spec_photon_dimension()
                    <= usize::MAX
                &&& weights::ascending(product.spec_rows())
                &&& product.table_fits()
            },
            PackedBasis::Reversed(inner) => inner.ready(),
        }
    }

    /// The states in order.
    pub open spec fn rows(self) -> Seq<u128>
        decreases self,
    {
        match self {
            PackedBasis::Spin(part) => part.spec_states(),
            PackedBasis::Boson(part) => part.spec_states(),
            PackedBasis::SpinlessFermion(part) => part.spec_states(),
            PackedBasis::SpinfulFermion(part) => part.spec_states(),
            PackedBasis::GeneralSpin(part) => part.spec_states(),
            PackedBasis::GeneralBoson(part) => part.spec_states(),
            PackedBasis::GeneralSpinlessFermion(part) => part.spec_states(),
            PackedBasis::GeneralSpinfulFermion(part) => part.spec_states(),
            PackedBasis::User(part) => part.spec_states(),
            PackedBasis::Tensor(tensor) => Seq::new(tensor.spec_dimension() as nat, |i: int| i as u128),
            PackedBasis::Photon(product) => product.spec_rows(),
            PackedBasis::Reversed(inner) => backwards(inner.rows()),
        }
    }

    /// The row of a state.
    pub open spec fn row_number(self, state: u128) -> Option<int>
        decreases self,
    {
        match self {
            PackedBasis::Spin(part) => place_in(part.spec_states(), state),
            PackedBasis::Boson(part) => place_in(part.spec_states(), state),
            PackedBasis::SpinlessFermion(part) => place_in(part.spec_states(), state),
            PackedBasis::SpinfulFermion(part) => place_in(part.spec_states(), state),
            PackedBasis::GeneralSpin(part) => as_place(part.spec_row(state)),
            PackedBasis::GeneralBoson(part) => as_place(part.spec_row(state)),
            PackedBasis::GeneralSpinlessFermion(part) => as_place(part.spec_row(state)),
            PackedBasis::GeneralSpinfulFermion(part) => as_place(part.spec_row(state)),
            PackedBasis::User(part) => as_place(part.spec_row(state)),
            PackedBasis::Tensor(tensor) => if state < tensor.spec_dimension() {
                Some(state as int)
            } else {
                None
            },
            PackedBasis::Photon(product) => as_place(product.spec_row(state)),
            PackedBasis::Reversed(inner) => match inner.row_number(state) {
                Some(row) => Some(inner.rows().len() - 1 - row),
                None => None,
            },
        }
    }

    /// Number of excitations of a state: digits of spins and bosons, occupied orbitals of
    /// fermions, and the sum over the factors of a product.
    pub open spec fn quantum_number(self, state: u128) -> core::result::Result<usize, QmbedError>
        decreases self, 0nat,
    {
        let ones = bits::ones(state as nat);
        match self {
            PackedBasis::Spin(part) => listed_number(
                part.spec_states(),
                state,
                digits::digit_sum(
                    state as nat,
                    (part@.spin_twice + 1) as nat,
                    part@.sites as nat,
                ),
            ),
            PackedBasis::Boson(part) => listed_number(
                part.spec_states(),
                state,
                digits::digit_sum(
                    state as nat,
                    part@.states_per_site as nat,
                    part@.sites as nat,
                ),
            ),
            PackedBasis::SpinlessFermion(part) => listed_number(part.spec_states(), state, ones),
            PackedBasis::SpinfulFermion(part) => listed_number(part.spec_states(), state, ones),
            PackedBasis::GeneralSpin(part) => listed_number(
                part.spec_parent().spec_states(),
                state,
                digits::digit_sum(
                    state as nat,
                    (part.spec_parent()@.spin_twice + 1) as nat,
                    part.spec_parent()@.sites as nat,
                ),
            ),
            PackedBasis::GeneralBoson(part) => listed_number(
                part.spec_parent().spec_states(),
                state,
                digits::digit_sum(
                    state as nat,
                    part.spec_parent()@.states_per_site as nat,
                    part.spec_parent()@.sites as nat,
                ),
            ),
            PackedBasis::GeneralSpinlessFermion(part) => listed_number(
                part.spec_parent().spec_states(),
                state,
                ones,
            ),
            PackedBasis::GeneralSpinfulFermion(part) => listed_number(
                part.spec_parent().spec_states(),
                state,
                ones,
            ),
            PackedBasis::User(part) => if part.spec_parent().spec_states().contains(state) {
                Err(no_callback_number())
            } else {
                Err(QmbedError::StateNotInBasis)
            },
            PackedBasis::Tensor(tensor) => if state < tensor.spec_dimension() {
                tensor.factor_numbers(state as nat, tensor.spec_factors().len())
            } else {
                Err(QmbedError::StateNotInBasis)
            },
            PackedBasis::Photon(product) => match product.matter_state(state) {
                Some(matter_state) => summed_numbers(
                    product.spec_matter().quantum_number(matter_state),
                    Ok(product.occupation(state) as usize),
                ),
                None => Err(QmbedError::StateNotInBasis),
            },
            PackedBasis::Reversed(inner) => inner.quantum_number(state),
        }
    }
}

impl<
    A: LocalAlgebra<u128, Gaussian>,
    L: SymmetryMap<u128, Factor = Turn>,
    M: SymmetryMap<u128, Factor = Turn>,
> PackedTensorBasis<A, L, M> {
    /// The factors.
    pub closed spec fn spec_factors(self) -> Seq<PackedBasis<A, L, M>> {
        self.factors@
    }

    /// Numbers of states of the factors.
    pub closed spec fn spec_dimensions(self) -> Seq<usize> {
        self.dimensions@
    }

    /// Number of states behind each factor.
    pub closed spec fn spec_strides(self) -> Seq<usize> {
        self.strides@
    }

    /// Number of states.
    pub closed spec fn spec_dimension(self) -> usize {
        self.dimension
    }

    /// The row of a factor in a row of the product.
    pub open spec fn factor_row(self, row: nat, place: int) -> int {
        (row as int / self.spec_strides()[place] as int) % (self.spec_dimensions()[place] as int)
    }

    /// The state of a factor in a row of the product.
    pub open spec fn factor_state(self, row: nat, place: int) -> u128 {
        self.spec_factors()[place].rows()[self.factor_row(row, place)]
    }

    /// Number of excitations of the first factors.
    pub open spec fn factor_numbers(self, row: nat, count: nat) -> core::result::Result<
        usize,
        QmbedError,
    >
        decreases self, count,
    {
        if count == 0 || count > self.spec_factors().len() {
            Ok(0)
        } else {
            summed_numbers(
                self.factor_numbers(row, (count - 1) as nat),
                self.spec_factors()[count - 1].quantum_number(self.factor_state(row, count - 1)),
            )
        }
    }
}

impl<
    A: LocalAlgebra<u128, Gaussian>,
    L: SymmetryMap<u128, Factor = Turn>,
    M: SymmetryMap<u128, Factor = Turn>,
> PackedPhotonBasis<A, L, M> {
    /// The matter.
    pub closed spec fn spec_matter(self) -> PackedBasis<A, L, M> {
        self.matter
    }

    /// The photon mode.
    pub closed spec fn spec_photon(self) -> BosonBasis1D {
        self.photon
    }

    /// Number of photon occupations.
    pub closed spec fn spec_photon_dimension(self) -> usize {
        self.photon_dimension
    }

    /// The states in order.
    pub closed spec fn spec_rows(self) -> Seq<u128> {
        self.states@
    }

    /// The row of a state.
    pub closed spec fn spec_row(self, state: u128) -> Option<usize> {
        self.indices.entry(state)
    }

    /// The fixed total excitation, if there is one.
    pub closed spec fn spec_total(self) -> Option<usize> {
        self.total_excitations
    }

    /// Photon occupation of a row of the product.
    pub open spec fn occupation(self, state: u128) -> int {
        state as int % self.spec_photon_dimension() as int
    }

    /// State of the matter in a row of the product.
    pub open spec fn matter_state(self, state: u128) -> Option<u128> {
        let row = state as int / self.spec_photon_dimension() as int;
        if row < self.spec_matter().rows().len() {
            Some(self.spec_matter().rows()[row])
        } else {
            None
        }
    }

    /// Every state is found in its row.
    pub closed spec fn table_fits(self) -> bool {
        &&& self.indices.wf()
        &&& forall|state: u128| #[trigger]
            self.indices.entry(state) matches Some(row) ==> row < self.states@.len()
                && self.states@[row as int] == state
        &&& forall|i: int|
            0 <= i < self.states@.len() ==> self.indices.entry(
                #[trigger] self.states@[i],
            ) is Some
    }
}

proof fn lemma_product_positive(dimensions: Seq<usize>, place: nat)
    requires
        forall|k: int| place <= k < dimensions.len() ==> (#[trigger] dimensions[k]) > 0,
    ensures
        product_from(dimensions, place) >= 1,
    decreases dimensions.len() - place,
{
    if place < dimensions.len() {
        lemma_product_positive(dimensions, place + 1);
        lemma_mul_strictly_positive(
            dimensions[place as int] as int,
            product_from(dimensions, place + 1) as int,
        );
    }
}

proof fn lemma_product_order(dimensions: Seq<usize>, place: nat, later: nat)
    requires
        place <= later,
        forall|k: int| 0 <= k < dimensions.len() ==> (#[trigger] dimensions[k]) > 0,
    ensures
        product_from(dimensions, later) <= product_from(dimensions, place),
    decreases later - place,
{
    if place < later {
        lemma_product_order(dimensions, place + 1, later);
        if place < dimensions.len() {
            lemma_product_positive(dimensions, place + 1);
            lemma_mul_increases(
                dimensions[place as int] as int,
                product_from(dimensions, place + 1) as int,
            );
        }
    }
}

/// Sum of the lowest digits of a word, where it fits the address space.
fn sum_of_digits(word: u128, sites: usize, base: usize) -> (result: Result<usize>)
    requires
        base > 0,
    ensures
        result == counted(digits::digit_sum(word as nat, base as nat, sites as nat)),
{
    let wide: u128 = base as u128;
    let mut rest: u128 = word;
    let mut total: usize = 0;
    let mut next: usize = 0;
    while next < sites
        invariant
            next <= sites,
            base > 0,
            wide == base,
            digits::digit_sum(word as nat, base as nat, sites as nat) == total + digits::digit_sum(
                rest as nat,
                base as nat,
                (sites - next) as nat,
            ),
        decreases sites - next,
    {
        proof {
            lemma_mod_bound(rest as int, wide as int);
        }
        let digit: usize = (rest % wide) as usize;
        match total.checked_add(digit) {
            Some(sum) => {
                total = sum;
            },
            None => {
                return Err(QmbedError::UnsupportedBackend(Reason::Text("additive quantum number overflow")));
            },
        }
        rest = rest / wide;
        next += 1;
    }
    Ok(total)
}

/// Number of occupied orbitals.
fn occupied(word: u128) -> (result: Result<usize>)
    ensures
        result == counted(bits::ones(word as nat)),
{
    Ok(word.count_ones() as usize)
}

/// The number of excitations of a state of a basis.
fn number_if_listed<B: Basis<State = u128>>(
    part: &B,
    state: u128,
    number: Result<usize>,
) -> (result: Result<usize>)
    requires
        part.wf(),
    ensures
        result == if part.spec_states().contains(state) {
            number
        } else {
            Err(QmbedError::StateNotInBasis)
        },
{
    match part.index(state) {
        Ok(index) => {
            assert(part.spec_states()[index as int] == state);
            number
        },
        Err(error) => Err(error),
    }
}

/// Sum of two additive quantum numbers.
fn sum_numbers(left: usize, right: usize) -> (result: Result<usize>)
    ensures
        result == counted((left + right) as nat),
{
    match left.checked_add(right) {
        Some(sum) => Ok(sum),
        None => Err(QmbedError::UnsupportedBackend(Reason::Text("additive quantum number overflow"))),
    }
}

/// The row of a state of a basis that lists no state twice.
fn only_index<B: Basis<State = u128>>(part: &B, state: u128) -> (result: Result<usize>)
    requires
        part.wf(),
        part.faithful(),
    ensures
        match result {
            Ok(index) => {
                &&& index < part.spec_states().len()
                &&& part.spec_states()[index as int] == state
                &&& place_in(part.spec_states(), state) == Some(index as int)
            },
            Err(error) => {
                &&& !part.spec_states().contains(state)
                &&& error == QmbedError::StateNotInBasis
            },
        },
{
    match part.index(state) {
        Ok(index) => {
            proof {
                part.states_distinct();
                let states = part.spec_states();
                assert(states[index as int] == state);
                assert(states[states.index_of(state)] == state);
            }
            Ok(index)
        },
        Err(error) => Err(error),
    }
}

impl<
    A: LocalAlgebra<u128, Gaussian>,
    L: SymmetryMap<u128, Factor = Turn>,
    M: SymmetryMap<u128, Factor = Turn>,
> PackedBasis<A, L, M> {
    /// The basis with its states in the opposite order.
    pub open spec fn opposite(self) -> Self {
        match self {
            PackedBasis::Reversed(inner) => *inner,
            other => PackedBasis::Reversed(Box::new(other)),
        }
    }

    /// The basis with its states in the opposite order; states, local operators and their
    /// amplitudes stay as they are.
    pub fn reversed(self) -> (basis: Self)
        requires
            self.ready(),
        ensures
            basis.ready(),
            basis == self.opposite(),
            basis.rows() == backwards(self.rows()),
            forall|state: u128| #[trigger]
                basis.quantum_number(state) == self.quantum_number(state),
            forall|state: u128, operator: Seq<char>, sites: Seq<usize>| #[trigger]
                basis.moves(state, operator, sites) == self.moves(state, operator, sites),
            basis.tells_apart() == self.tells_apart(),
    {
        match self {
            PackedBasis::Reversed(inner) => {
                assert(inner.rows() =~= backwards(backwards(inner.rows())));
                *inner
            },
            other => PackedBasis::Reversed(Box::new(other)),
        }
    }

    /// Number of states.
    pub fn length(&self) -> (length: usize)
        requires
            self.ready(),
        ensures
            length == self.rows().len(),
        decreases *self,
    {
        match self {
            PackedBasis::Spin(part) => part.len(),
            PackedBasis::Boson(part) => part.len(),
            PackedBasis::SpinlessFermion(part) => part.len(),
            PackedBasis::SpinfulFermion(part) => part.len(),
            PackedBasis::GeneralSpin(part) => part.len(),
            PackedBasis::GeneralBoson(part) => part.len(),
            PackedBasis::GeneralSpinlessFermion(part) => part.len(),
            PackedBasis::GeneralSpinfulFermion(part) => part.len(),
            PackedBasis::User(part) => part.len(),
            PackedBasis::Tensor(tensor) => tensor.dimension,
            PackedBasis::Photon(product) => product.states.len(),
            PackedBasis::Reversed(inner) => inner.length(),
        }
    }

    /// The state in a row.
    pub fn state_at(&self, index: usize) -> (result: Result<u128>)
        requires
            self.ready(),
        ensures
            match result {
                Ok(state) => index < self.rows().len() && state == self.rows()[index as int],
                Err(error) => index >= self.rows().len() && error == QmbedError::StateNotInBasis,
            },
        decreases *self,
    {
        match self {
            PackedBasis::Spin(part) => part.state(index),
            PackedBasis::Boson(part) => part.state(index),
            PackedBasis::SpinlessFermion(part) => part.state(index),
            PackedBasis::SpinfulFermion(part) => part.state(index),
            PackedBasis::GeneralSpin(part) => part.state(index),
            PackedBasis::GeneralBoson(part) => part.state(index),
            PackedBasis::GeneralSpinlessFermion(part) => part.state(index),
            PackedBasis::GeneralSpinfulFermion(part) => part.state(index),
            PackedBasis::User(part) => part.state(index),
            PackedBasis::Tensor(tensor) => if index < tensor.dimension {
                Ok(index as u128)
            } else {
                Err(QmbedError::StateNotInBasis)
            },
            PackedBasis::Photon(product) => if index < product.states.len() {
                Ok(product.states[index])
            } else {
                Err(QmbedError::StateNotInBasis)
            },
            PackedBasis::Reversed(inner) => {
                let length: usize = inner.length();
                if index < length {
                    inner.state_at(length - 1 - index)
                } else {
                    Err(QmbedError::StateNotInBasis)
                }
            },
        }
    }

    /// The row of a state.
    pub fn row_of(&self, state: u128) -> (result: Result<usize>)
        requires
            self.ready(),
        ensures
            match result {
                Ok(index) => {
                    &&& index < self.rows().len()
                    &&& self.rows()[index as int] == state
                    &&& self.row_number(state) == Some(index as int)
                },
                Err(error) => {
                    &&& !self.rows().contains(state)
                    &&& self.row_number(state) is None
                    &&& error == QmbedError::StateNotInBasis
                },
            },
        decreases *self,
    {
        match self {
            PackedBasis::Spin(part) => only_index(part, state),
            PackedBasis::Boson(part) => only_index(part, state),
            PackedBasis::SpinlessFermion(part) => only_index(part, state),
            PackedBasis::SpinfulFermion(part) => only_index(part, state),
            PackedBasis::GeneralSpin(part) => part.row(state),
            PackedBasis::GeneralBoson(part) => part.row(state),
            PackedBasis::GeneralSpinlessFermion(part) => part.row(state),
            PackedBasis::GeneralSpinfulFermion(part) => part.row(state),
            PackedBasis::User(part) => part.row(state),
            PackedBasis::Tensor(tensor) => if state < tensor.dimension as u128 {
                Ok(state as usize)
            } else {
                Err(QmbedError::StateNotInBasis)
            },
            PackedBasis::Photon(product) => match product.indices.get(state) {
                Some(index) => Ok(index),
                None => {
                    proof {
                        if product.states@.contains(state) {
                            let i = product.states@.index_of(state);
                            assert(product.indices.entry(product.states@[i]) is Some);
                        }
                    }
                    Err(QmbedError::StateNotInBasis)
                },
            },
            PackedBasis::Reversed(inner) => match inner.row_of(state) {
                Ok(index) => Ok(inner.length() - 1 - index),
                Err(error) => {
                    proof {
                        let rows = self.rows();
                        if rows.contains(state) {
                            let i = rows.index_of(state);
                            assert(inner.rows()[inner.rows().len() - 1 - i] == state);
                        }
                    }
                    Err(error)
                },
            },
        }
    }

    /// Additive occupation or excitation number of a state.
    pub fn additive_quantum_number(&self, state: u128) -> (result: Result<usize>)
        requires
            self.ready(),
        ensures
            result == self.quantum_number(state),
        decreases *self, 0nat,
    {
        match self {
            PackedBasis::Spin(part) => number_if_listed(
                part,
                state,
                sum_of_digits(state, part.sites(), part.spin_twice() as usize + 1),
            ),
            PackedBasis::Boson(part) => number_if_listed(
                part,
                state,
                sum_of_digits(state, part.sites(), part.states_per_site()),
            ),
            PackedBasis::SpinlessFermion(part) => number_if_listed(part, state, occupied(state)),
            PackedBasis::SpinfulFermion(part) => number_if_listed(part, state, occupied(state)),
            PackedBasis::GeneralSpin(part) => {
                proof {
                    part.lemma_valid();
                }
                let parent: &SpinBasis1D = part.parent();
                number_if_listed(
                    parent,
                    state,
                    sum_of_digits(state, parent.sites(), parent.spin_twice() as usize + 1),
                )
            },
            PackedBasis::GeneralBoson(part) => {
                proof {
                    part.lemma_valid();
                }
                let parent: &BosonBasis1D = part.parent();
                number_if_listed(
                    parent,
                    state,
                    sum_of_digits(state, parent.sites(), parent.states_per_site()),
                )
            },
            PackedBasis::GeneralSpinlessFermion(part) => {
                proof {
                    part.lemma_valid();
                }
                number_if_listed(part.parent(), state, occupied(state))
            },
            PackedBasis::GeneralSpinfulFermion(part) => {
                proof {
                    part.lemma_valid();
                }
                number_if_listed(part.parent(), state, occupied(state))
            },
            PackedBasis::User(part) => {
                proof {
                    part.lemma_valid();
                }
                match part.parent().index(state) {
                    Ok(_) => Err(
                        QmbedError::UnsupportedBackend(
                            Reason::Text(
                                "a callback-defined basis must provide an additive quantum-number callback",
                            ),
                        ),
                    ),
                    Err(error) => Err(error),
                }
            },
            PackedBasis::Tensor(tensor) => if state < tensor.dimension as u128 {
                tensor.count_factors(state as usize)
            } else {
                Err(QmbedError::StateNotInBasis)
            },
            PackedBasis::Photon(product) => {
                let (matter_state, occupation) = product.product_state(state);
                match matter_state {
                    Some(matter_state) => match product.matter.additive_quantum_number(
                        matter_state,
                    ) {
                        Ok(number) => sum_numbers(number, occupation),
                        Err(error) => Err(error),
                    },
                    None => Err(QmbedError::StateNotInBasis),
                }
            },
            PackedBasis::Reversed(inner) => inner.additive_quantum_number(state),
        }
    }
}

impl<
    A: LocalAlgebra<u128, Gaussian>,
    L: SymmetryMap<u128, Factor = Turn>,
    M: SymmetryMap<u128, Factor = Turn>,
> PackedTensorBasis<A, L, M> {
    /// Factors that satisfy their invariants, with their dimensions and strides.
    pub open spec fn valid(self) -> bool {
        &&& self.spec_factors().len() >= 2
        &&& self.spec_dimensions().len() == self.spec_factors().len()
        &&& self.spec_strides().len() == self.spec_factors().len()
        &&& self.spec_dimension() == product_from(self.spec_dimensions(), 0)
        &&& forall|k: int|
            0 <= k < self.spec_factors().len() ==> (#[trigger] self.spec_factors()[k]).ready()
        &&& forall|k: int|
            0 <= k < self.spec_factors().len() ==> (#[trigger] self.spec_dimensions()[k])
                == self.spec_factors()[k].rows().len() && self.spec_dimensions()[k] > 0
        &&& forall|k: int|
            0 <= k < self.spec_factors().len() ==> (#[trigger] self.spec_strides()[k])
                == product_from(self.spec_dimensions(), (k + 1) as nat)
    }

    proof fn lemma_factor_row(self, row: nat, place: int)
        requires
            self.valid(),
            0 <= place < self.spec_factors().len(),
        ensures
            self.spec_strides()[place] > 0,
            self.spec_dimensions()[place] > 0,
            0 <= self.factor_row(row, place) < self.spec_factors()[place].rows().len(),
    {
        assert forall|k: int| 0 <= k < self.spec_dimensions().len() implies (
        #[trigger] self.spec_dimensions()[k]) > 0 by {}
        lemma_product_positive(self.spec_dimensions(), (place + 1) as nat);
        assert(self.spec_strides()[place] == product_from(
            self.spec_dimensions(),
            (place + 1) as nat,
        ));
        assert(self.spec_dimensions()[place] > 0);
        lemma_mod_bound(
            row as int / self.spec_strides()[place] as int,
            self.spec_dimensions()[place] as int,
        );
    }

    /// Number of excitations of a row.
    fn count_factors(&self, row: usize) -> (result: Result<usize>)
        requires
            self.valid(),
        ensures
            result == self.factor_numbers(row as nat, self.spec_factors().len()),
        decreases *self, 1nat,
    {
        let mut total: usize = 0;
        let mut next: usize = 0;
        while next < self.factors.len()
            invariant
                next <= self.factors@.len(),
                self.valid(),
                self.factor_numbers(row as nat, next as nat) == Ok::<usize, QmbedError>(total),
            decreases self.factors@.len() - next,
        {
            proof {
                self.lemma_factor_row(row as nat, next as int);
                assert(self.spec_factors()[next as int].ready());
            }
            let place: usize = (row / self.strides[next]) % self.dimensions[next];
            let number: Result<usize> = match self.factors[next].state_at(place) {
                Ok(state) => self.factors[next].additive_quantum_number(state),
                Err(error) => Err(error),
            };
            let sum: Result<usize> = match number {
                Ok(number) => sum_numbers(total, number),
                Err(error) => Err(error),
            };
            match sum {
                Ok(sum) => {
                    total = sum;
                },
                Err(error) => {
                    proof {
                        self.lemma_numbers_fail(
                            row as nat,
                            (next + 1) as nat,
                            self.spec_factors().len(),
                        );
                    }
                    return Err(error);
                },
            }
            next += 1;
        }
        Ok(total)
    }

    proof fn lemma_numbers_fail(self, row: nat, count: nat, later: nat)
        requires
            count <= later <= self.spec_factors().len(),
            self.factor_numbers(row, count) is Err,
        ensures
            self.factor_numbers(row, later) == self.factor_numbers(row, count),
        decreases later,
    {
        if count < later {
            self.lemma_numbers_fail(row, count, (later - 1) as nat);
        }
    }
}

/// The factors of an operator string, between its separators.
pub open spec fn pieces(operator: Seq<char>) -> Seq<Seq<char>>
    decreases operator.len(),
{
    let place = symbols::first_separator(operator);
    if place < 0 || place >= operator.len() {
        seq![operator]
    } else {
        seq![operator.subrange(0, place)] + pieces(
            operator.subrange(place + 1, operator.len() as int),
        )
    }
}

/// Number of symbols in the first factors.
pub open spec fn symbols_before(parts: Seq<Seq<char>>, count: nat) -> nat
    decreases count,
{
    if count == 0 {
        0
    } else {
        symbols_before(parts, (count - 1) as nat) + parts[count - 1].len()
    }
}

proof fn lemma_symbols_before(parts: Seq<Seq<char>>, count: nat, later: nat)
    requires
        count <= later,
    ensures
        symbols_before(parts, count) <= symbols_before(parts, later),
    decreases later,
{
    if count < later {
        lemma_symbols_before(parts, count, (later - 1) as nat);
    }
}

/// Where the factors of an operator string start and end.
fn piece_bounds(text: &Vec<char>) -> (bounds: Vec<(usize, usize)>)
    ensures
        bounds@.len() == pieces(text@).len(),
        forall|k: int|
            0 <= k < bounds@.len() ==> (#[trigger] bounds@[k]).0 <= bounds@[k].1 && bounds@[k].1
                <= text@.len() && pieces(text@)[k] == text@.subrange(
                bounds@[k].0 as int,
                bounds@[k].1 as int,
            ),
{
    let mut bounds: Vec<(usize, usize)> = Vec::new();
    let mut start: usize = 0;
    let ghost mut done: Seq<Seq<char>> = Seq::empty();
    assert(text@.subrange(0, text@.len() as int) =~= text@);
    assert(done + pieces(text@) =~= pieces(text@));
    loop
        invariant
            start <= text@.len(),
            bounds@.len() == done.len(),
            pieces(text@) == done + pieces(text@.subrange(start as int, text@.len() as int)),
            forall|k: int|
                0 <= k < bounds@.len() ==> (#[trigger] bounds@[k]).0 <= bounds@[k].1
                    && bounds@[k].1 <= text@.len() && done[k] == text@.subrange(
                    bounds@[k].0 as int,
                    bounds@[k].1 as int,
                ),
        decreases text@.len() - start,
    {
        let place: usize = find_separator(text, start);
        let ghost rest = text@.subrange(start as int, text@.len() as int);
        proof {
            assert forall|i: int| 0 <= i < place - start implies rest[i] != '|' by {}
            symbols::lemma_first_separator_unique(rest, place - start);
        }
        bounds.push((start, place));
        if place == text.len() {
            proof {
                assert(rest =~= text@.subrange(start as int, place as int));
                assert(pieces(rest) =~= seq![rest]);
            }
            return bounds;
        }
        proof {
            let first = rest.subrange(0, place - start);
            let others = rest.subrange(place - start + 1, rest.len() as int);
            assert(first =~= text@.subrange(start as int, place as int));
            assert(others =~= text@.subrange(place + 1, text@.len() as int));
            assert(done + (seq![first] + pieces(others)) =~= done.push(first) + pieces(others));
            done = done.push(first);
        }
        start = place + 1;
    }
}

/// Destinations of a chain, in the phases of bases chosen at run time.
pub open spec fn widened(
    moves: core::result::Result<Seq<(u128, Seq<Factor<Turn>>)>, QmbedError>,
) -> core::result::Result<Seq<(u128, Seq<Factor<PackedPhase>>)>, QmbedError> {
    match moves {
        Ok(moves) => Ok(
            Seq::new(
                moves.len(),
                |i: int| (moves[i].0, basis::left_factors::<Turn, Turn>(moves[i].1)),
            ),
        ),
        Err(error) => Err(error),
    }
}

fn widen(result: Result<Transitions<u128, Turn>>) -> (wide: Result<Transitions<u128, PackedPhase>>)
    ensures
        match result {
            Ok(moves) => basis::transitions_are(
                wide,
                widened(Ok(basis::transitions_view(moves@))),
            ),
            Err(error) => wide == Err::<Transitions<u128, PackedPhase>, QmbedError>(error),
        },
{
    let moves: Transitions<u128, Turn> = match result {
        Ok(moves) => moves,
        Err(error) => {
            return Err(error);
        },
    };
    let ghost list = basis::transitions_view(moves@);
    let mut wide: Transitions<u128, PackedPhase> = Vec::new();
    let mut next: usize = 0;
    while next < moves.len()
        invariant
            next <= moves@.len(),
            list == basis::transitions_view(moves@),
            wide@.len() == next,
            forall|i: int|
                0 <= i < next ==> (#[trigger] wide@[i]).0 == moves@[i].0 && wide@[i].1@
                    == basis::left_factors::<Turn, Turn>(moves@[i].1@),
        decreases moves@.len() - next,
    {
        let mut amplitude: Vec<Factor<PackedPhase>> = Vec::new();
        basis::append_left(&mut amplitude, &moves[next].1);
        assert(amplitude@ =~= basis::left_factors::<Turn, Turn>(moves@[next as int].1@));
        wide.push((moves[next].0, amplitude));
        next += 1;
    }
    assert(basis::transitions_view(wide@) =~= Seq::new(
        list.len(),
        |i: int| (list[i].0, basis::left_factors::<Turn, Turn>(list[i].1)),
    ));
    Ok(wide)
}

/// Partial destinations of a product: a row of the factors so far, and an amplitude.
pub type PartialMoves = Seq<(int, Seq<Factor<PackedPhase>>)>;

/// Whether every destination is a state of a basis.
pub open spec fn all_inside<
    A: LocalAlgebra<u128, Gaussian>,
    L: SymmetryMap<u128, Factor = Turn>,
    M: SymmetryMap<u128, Factor = Turn>,
>(part: PackedBasis<A, L, M>, moves: Seq<(u128, Seq<Factor<PackedPhase>>)>) -> bool {
    forall|i: int| 0 <= i < moves.len() ==> part.row_number((#[trigger] moves[i]).0) is Some
}

/// Partial destinations with those of one more factor, the new ones counting fastest.
pub open spec fn extended<
    A: LocalAlgebra<u128, Gaussian>,
    L: SymmetryMap<u128, Factor = Turn>,
    M: SymmetryMap<u128, Factor = Turn>,
>(
    partial: PartialMoves,
    part: PackedBasis<A, L, M>,
    moves: Seq<(u128, Seq<Factor<PackedPhase>>)>,
    stride: int,
) -> PartialMoves {
    let width = moves.len() as int;
    Seq::new(
        partial.len() * moves.len(),
        |i: int|
            (
                partial[i / width].0 + part.row_number(moves[i % width].0)->0 * stride,
                partial[i / width].1 + moves[i % width].1,
            ),
    )
}

impl<
    A: LocalAlgebra<u128, Gaussian>,
    L: SymmetryMap<u128, Factor = Turn>,
    M: SymmetryMap<u128, Factor = Turn>,
> PackedBasis<A, L, M> {
    /// Whether local operators act on a state.
    pub open spec fn acts(self, state: u128) -> bool
        decreases self,
    {
        match self {
            PackedBasis::Spin(part) => part.acts_on(state),
            PackedBasis::Boson(part) => part.acts_on(state),
            PackedBasis::SpinlessFermion(part) => part.acts_on(state),
            PackedBasis::SpinfulFermion(part) => part.acts_on(state),
            PackedBasis::GeneralSpin(part) => part.acts_on(state),
            PackedBasis::GeneralBoson(part) => part.acts_on(state),
            PackedBasis::GeneralSpinlessFermion(part) => part.acts_on(state),
            PackedBasis::GeneralSpinfulFermion(part) => part.acts_on(state),
            PackedBasis::User(part) => part.acts_on(state),
            PackedBasis::Tensor(_) => true,
            PackedBasis::Photon(_) => true,
            PackedBasis::Reversed(inner) => inner.acts(state),
        }
    }

    /// Local operators act on every state of the basis.
    pub proof fn lemma_acts(self, row: int)
        requires
            self.ready(),
            0 <= row < self.rows().len(),
        ensures
            self.acts(self.rows()[row]),
        decreases self,
    {
        match self {
            PackedBasis::Spin(part) => {
                part.acts_on_states(row);
            },
            PackedBasis::Boson(part) => {
                part.acts_on_states(row);
            },
            PackedBasis::SpinlessFermion(part) => {
                part.acts_on_states(row);
            },
            PackedBasis::SpinfulFermion(part) => {
                part.acts_on_states(row);
            },
            PackedBasis::Reversed(inner) => {
                inner.lemma_acts(inner.rows().len() - 1 - row);
            },
            _ => {},
        }
    }

    /// Destinations of a local operator string.
    pub open spec fn moves(
        self,
        state: u128,
        operator: Seq<char>,
        sites: Seq<usize>,
    ) -> core::result::Result<Seq<(u128, Seq<Factor<PackedPhase>>)>, QmbedError>
        decreases self, 0nat,
    {
        match self {
            PackedBasis::Spin(part) => widened(part.spec_transitions(state, operator, sites)),
            PackedBasis::Boson(part) => widened(part.spec_transitions(state, operator, sites)),
            PackedBasis::SpinlessFermion(part) => widened(
                part.spec_transitions(state, operator, sites),
            ),
            PackedBasis::SpinfulFermion(part) => widened(
                part.spec_transitions(state, operator, sites),
            ),
            PackedBasis::GeneralSpin(part) => part.spec_transitions(state, operator, sites),
            PackedBasis::GeneralBoson(part) => part.spec_transitions(state, operator, sites),
            PackedBasis::GeneralSpinlessFermion(part) => part.spec_transitions(
                state,
                operator,
                sites,
            ),
            PackedBasis::GeneralSpinfulFermion(part) => part.spec_transitions(
                state,
                operator,
                sites,
            ),
            PackedBasis::User(part) => part.spec_transitions(
                state,
                operator,
                sites,
            ),
            PackedBasis::Tensor(tensor) => {
                let parts = pieces(operator);
                let count = tensor.spec_factors().len();
                if parts.len() != count {
                    Err(
                        QmbedError::InvalidOperator(
                            OperatorFault::Factors {
                                found: parts.len() as usize,
                                expected: count as usize,
                            },
                        ),
                    )
                } else if state >= tensor.spec_dimension() {
                    Err(QmbedError::StateNotInBasis)
                } else if sites.len() != symbols_before(parts, count) {
                    Err(
                        QmbedError::InvalidCoupling(Reason::Arity {
                            symbols: symbols_before(parts, count) as usize,
                            sites: sites.len() as usize,
                        }),
                    )
                } else {
                    match tensor.products(state as nat, parts, sites, count) {
                        Ok(products) => Ok(
                            Seq::new(
                                products.len(),
                                |i: int| (products[i].0 as u128, products[i].1),
                            ),
                        ),
                        Err(error) => Err(error),
                    }
                }
            },
            PackedBasis::Photon(product) => product.kept_moves(
                product.raw_moves(state, operator, sites),
            ),
            PackedBasis::Reversed(inner) => inner.moves(state, operator, sites),
        }
    }
}

impl<
    A: LocalAlgebra<u128, Gaussian>,
    L: SymmetryMap<u128, Factor = Turn>,
    M: SymmetryMap<u128, Factor = Turn>,
> PackedTensorBasis<A, L, M> {
    /// Destinations of one factor of an operator string; an empty factor changes nothing.
    pub open spec fn factor_moves(
        self,
        row: nat,
        parts: Seq<Seq<char>>,
        sites: Seq<usize>,
        place: int,
    ) -> core::result::Result<Seq<(u128, Seq<Factor<PackedPhase>>)>, QmbedError>
        decreases self, 0nat,
    {
        let state = self.factor_state(row, place);
        let start = symbols_before(parts, place as nat) as int;
        if place < 0 || place >= self.spec_factors().len() {
            Ok(Seq::empty())
        } else if parts[place].len() == 0 {
            Ok(seq![(state, Seq::empty())])
        } else {
            self.spec_factors()[place].moves(
                state,
                parts[place],
                sites.subrange(start, start + parts[place].len()),
            )
        }
    }

    /// Partial destinations over the first factors.
    pub open spec fn products(
        self,
        row: nat,
        parts: Seq<Seq<char>>,
        sites: Seq<usize>,
        count: nat,
    ) -> core::result::Result<PartialMoves, QmbedError>
        decreases self, count,
    {
        if count == 0 {
            Ok(seq![(0, Seq::empty())])
        } else {
            match self.products(row, parts, sites, (count - 1) as nat) {
                Err(error) => Err(error),
                Ok(partial) => match self.factor_moves(row, parts, sites, count - 1) {
                    Err(error) => Err(error),
                    Ok(moves) => if partial.len() > 0 && !all_inside(
                        self.spec_factors()[count - 1],
                        moves,
                    ) {
                        Err(QmbedError::StateNotInBasis)
                    } else {
                        Ok(
                            extended(
                                partial,
                                self.spec_factors()[count - 1],
                                moves,
                                self.spec_strides()[count - 1] as int,
                            ),
                        )
                    },
                },
            }
        }
    }
}

/// The row of the product that a matter row and an occupation make up.
pub open spec fn encoded(matter_row: int, occupation: int, width: usize) -> u128 {
    (matter_row * width + occupation) as u128
}

/// The first pairs of matter and photon destinations, the photon counting fastest. Matter
/// destinations outside the matter basis belong to no row and are left out.
pub open spec fn photon_pairs<
    A: LocalAlgebra<u128, Gaussian>,
    L: SymmetryMap<u128, Factor = Turn>,
    M: SymmetryMap<u128, Factor = Turn>,
>(
    part: PackedBasis<A, L, M>,
    matter: Seq<(u128, Seq<Factor<PackedPhase>>)>,
    photon: Seq<(u128, Seq<Factor<PackedPhase>>)>,
    occupations: Seq<u128>,
    width: usize,
    count: nat,
) -> core::result::Result<Seq<(u128, Seq<Factor<PackedPhase>>)>, QmbedError>
    decreases count,
{
    if count == 0 {
        Ok(Seq::empty())
    } else {
        match photon_pairs(part, matter, photon, occupations, width, (count - 1) as nat) {
            Err(error) => Err(error),
            Ok(before) => {
                let place = count - 1;
                let left = matter[place / (photon.len() as int)];
                let right = photon[place % (photon.len() as int)];
                match place_in(occupations, right.0) {
                    None => Err(QmbedError::StateNotInBasis),
                    Some(occupation) => match part.row_number(left.0) {
                        None => Ok(before),
                        Some(row) => Ok(
                            before.push((encoded(row, occupation, width), left.1 + right.1)),
                        ),
                    },
                }
            },
        }
    }
}

impl<
    A: LocalAlgebra<u128, Gaussian>,
    L: SymmetryMap<u128, Factor = Turn>,
    M: SymmetryMap<u128, Factor = Turn>,
> PackedPhotonBasis<A, L, M> {
    /// Destinations of a local operator string, inside the sector or not.
    pub open spec fn raw_moves(
        self,
        state: u128,
        operator: Seq<char>,
        sites: Seq<usize>,
    ) -> core::result::Result<Seq<(u128, Seq<Factor<PackedPhase>>)>, QmbedError>
        decreases self, 0nat,
    {
        let parts = pieces(operator);
        let occupation = self.occupation(state);
        let occupations = self.spec_photon().spec_states();
        if self.spec_row(state) is None {
            Err(QmbedError::StateNotInBasis)
        } else if parts.len() != 2 {
            Err(QmbedError::InvalidOperator(OperatorFault::Whole))
        } else if sites.len() != parts[0].len() + parts[1].len() {
            Err(
                QmbedError::InvalidCoupling(Reason::Arity {
                    symbols: (parts[0].len() + parts[1].len()) as usize,
                    sites: sites.len() as usize,
                }),
            )
        } else if self.matter_state(state) is None || occupation >= occupations.len() {
            Err(QmbedError::StateNotInBasis)
        } else {
            let matter_state = self.matter_state(state)->0;
            let middle = parts[0].len() as int;
            let matter_moves = if parts[0].len() == 0 {
                Ok(seq![(matter_state, Seq::empty())])
            } else {
                self.spec_matter().moves(matter_state, parts[0], sites.subrange(0, middle))
            };
            let photon_moves = if parts[1].len() == 0 {
                Ok(seq![(occupations[occupation], Seq::empty())])
            } else {
                widened(
                    self.spec_photon().spec_transitions(
                        occupations[occupation],
                        parts[1],
                        sites.subrange(middle, sites.len() as int),
                    ),
                )
            };
            match matter_moves {
                Err(error) => Err(error),
                Ok(matter) => match photon_moves {
                    Err(error) => Err(error),
                    Ok(photon) => photon_pairs(
                        self.spec_matter(),
                        matter,
                        photon,
                        occupations,
                        self.spec_photon_dimension(),
                        matter.len() * photon.len(),
                    ),
                },
            }
        }
    }

    /// The destinations inside the sector.
    pub open spec fn kept_moves(
        self,
        moves: core::result::Result<Seq<(u128, Seq<Factor<PackedPhase>>)>, QmbedError>,
    ) -> core::result::Result<Seq<(u128, Seq<Factor<PackedPhase>>)>, QmbedError> {
        match moves {
            Ok(moves) => Ok(
                moves.filter(
                    |entry: (u128, Seq<Factor<PackedPhase>>)| self.spec_row(entry.0) is Some,
                ),
            ),
            Err(error) => Err(error),
        }
    }
}

/// Rows of the destinations of one factor.
fn rows_of_moves<
    A: LocalAlgebra<u128, Gaussian>,
    L: SymmetryMap<u128, Factor = Turn>,
    M: SymmetryMap<u128, Factor = Turn>,
>(part: &PackedBasis<A, L, M>, moves: &Transitions<u128, PackedPhase>) -> (result: Option<
    Vec<usize>,
>)
    requires
        part.ready(),
    ensures
        match result {
            Some(rows) => {
                &&& all_inside(*part, basis::transitions_view(moves@))
                &&& rows@.len() == moves@.len()
                &&& forall|i: int|
                    0 <= i < rows@.len() ==> part.row_number(moves@[i].0) == Some(
                        #[trigger] rows@[i] as int,
                    ) && rows@[i] < part.rows().len()
            },
            None => !all_inside(*part, basis::transitions_view(moves@)),
        },
{
    let ghost list = basis::transitions_view(moves@);
    let mut rows: Vec<usize> = Vec::new();
    let mut next: usize = 0;
    while next < moves.len()
        invariant
            next <= moves@.len(),
            part.ready(),
            list == basis::transitions_view(moves@),
            rows@.len() == next,
            forall|i: int|
                0 <= i < next ==> part.row_number(moves@[i].0) == Some(#[trigger] rows@[i] as int)
                    && rows@[i] < part.rows().len(),
        decreases moves@.len() - next,
    {
        assert(list[next as int].0 == moves@[next as int].0);
        match part.row_of(moves[next].0) {
            Ok(row) => {
                rows.push(row);
            },
            Err(_) => {
                return None;
            },
        }
        next += 1;
    }
    assert forall|i: int| 0 <= i < list.len() implies part.row_number(
        (#[trigger] list[i]).0,
    ) is Some by {
        assert(part.row_number(moves@[i].0) == Some(rows@[i] as int));
    }
    Some(rows)
}

/// Partial destinations as mathematical sequences.
pub open spec fn partial_view(partial: Seq<(usize, Vec<Factor<PackedPhase>>)>) -> PartialMoves {
    Seq::new(partial.len(), |i: int| (partial[i].0 as int, partial[i].1@))
}

/// Partial destinations with those of one more factor.
fn extend_partial<
    A: LocalAlgebra<u128, Gaussian>,
    L: SymmetryMap<u128, Factor = Turn>,
    M: SymmetryMap<u128, Factor = Turn>,
>(
    partial: &Vec<(usize, Vec<Factor<PackedPhase>>)>,
    part: &PackedBasis<A, L, M>,
    moves: &Transitions<u128, PackedPhase>,
    rows: &Vec<usize>,
    stride: usize,
    room: usize,
    total: usize,
) -> (next: Vec<(usize, Vec<Factor<PackedPhase>>)>)
    requires
        rows@.len() == moves@.len(),
        forall|i: int|
            0 <= i < rows@.len() ==> part.row_number(moves@[i].0) == Some(#[trigger] rows@[i] as int)
                && (rows@[i] + 1) * stride <= room,
        forall|i: int|
            0 <= i < partial@.len() ==> (#[trigger] partial@[i]).0 + room <= total,
    ensures
        partial_view(next@) == extended(
            partial_view(partial@),
            *part,
            basis::transitions_view(moves@),
            stride as int,
        ),
        forall|i: int| 0 <= i < next@.len() ==> (#[trigger] next@[i]).0 + stride <= total,
{
    let ghost first = partial_view(partial@);
    let ghost second = basis::transitions_view(moves@);
    let ghost whole = extended(first, *part, second, stride as int);
    let ghost width = second.len();
    let mut result: Vec<(usize, Vec<Factor<PackedPhase>>)> = Vec::new();
    let mut left: usize = 0;
    assert(partial_view(result@) =~= whole.take(0));
    while left < partial.len()
        invariant
            left <= partial@.len(),
            first == partial_view(partial@),
            second == basis::transitions_view(moves@),
            whole == extended(first, *part, second, stride as int),
            width == second.len(),
            rows@.len() == moves@.len(),
            forall|i: int|
                0 <= i < rows@.len() ==> part.row_number(moves@[i].0) == Some(
                    #[trigger] rows@[i] as int,
                ) && (rows@[i] + 1) * stride <= room,
            forall|i: int| 0 <= i < partial@.len() ==> (#[trigger] partial@[i]).0 + room <= total,
            left * width <= whole.len(),
            partial_view(result@) == whole.take(left * width),
            forall|i: int| 0 <= i < result@.len() ==> (#[trigger] result@[i]).0 + stride <= total,
        decreases partial@.len() - left,
    {
        let mut right: usize = 0;
        while right < moves.len()
            invariant
                left < partial@.len(),
                right <= moves@.len(),
                first == partial_view(partial@),
                second == basis::transitions_view(moves@),
                whole == extended(first, *part, second, stride as int),
                width == second.len(),
                rows@.len() == moves@.len(),
                forall|i: int|
                    0 <= i < rows@.len() ==> part.row_number(moves@[i].0) == Some(
                        #[trigger] rows@[i] as int,
                    ) && (rows@[i] + 1) * stride <= room,
                forall|i: int|
                    0 <= i < partial@.len() ==> (#[trigger] partial@[i]).0 + room <= total,
                0 <= left * width + right <= whole.len(),
                partial_view(result@) == whole.take(left * width + right),
                forall|i: int|
                    0 <= i < result@.len() ==> (#[trigger] result@[i]).0 + stride <= total,
            decreases moves@.len() - right,
        {
            let ghost before = result@;
            let ghost place = left * width + right;
            proof {
                crate::tensor::lemma_pair_bound(left as int, right as int, first.len(), width);
                crate::tensor::lemma_pair_number(left as int, right as int, width as int);
                assert(first[left as int] == (
                    partial@[left as int].0 as int,
                    partial@[left as int].1@,
                ));
                assert(second[right as int] == (moves@[right as int].0, moves@[right as int].1@));
                let row = rows@[right as int];
                assert(partial@[left as int].0 + room <= total);
                assert((row + 1) * stride == row * stride + stride) by (nonlinear_arith);
                assert(0 <= row * stride) by (nonlinear_arith)
                    requires
                        row >= 0,
                        stride >= 0,
                ;
            }
            let row: usize = partial[left].0 + rows[right] * stride;
            let mut amplitude: Vec<Factor<PackedPhase>> = basis::copy_factors(&partial[left].1);
            let mut added: Vec<Factor<PackedPhase>> = basis::copy_factors(&moves[right].1);
            amplitude.append(&mut added);
            result.push((row, amplitude));
            proof {
                let entry = (row as int, amplitude@);
                assert(amplitude@ =~= whole[place].1);
                assert(entry == whole[place]);
                assert(partial_view(result@) =~= partial_view(before).push(entry));
                assert(whole.take(place + 1) =~= whole.take(place).push(whole[place]));
            }
            right += 1;
        }
        left += 1;
        proof {
            assert(left * width == (left - 1) * width + width) by (nonlinear_arith)
                requires
                    left >= 1,
            ;
        }
    }
    assert(whole.take(left * width) =~= whole);
    result
}

/// A row of one factor leaves room for the factors behind it.
proof fn lemma_room(dimensions: Seq<usize>, place: nat, row: nat)
    requires
        place < dimensions.len(),
        row < dimensions[place as int],
    ensures
        (row + 1) * product_from(dimensions, place + 1) <= product_from(dimensions, place),
{
    let stride = product_from(dimensions, place + 1);
    assert((row + 1) * stride <= dimensions[place as int] * stride) by (nonlinear_arith)
        requires
            row + 1 <= dimensions[place as int],
            stride >= 0,
    ;
}

impl<
    A: LocalAlgebra<u128, Gaussian>,
    L: SymmetryMap<u128, Factor = Turn>,
    M: SymmetryMap<u128, Factor = Turn>,
> PackedTensorBasis<A, L, M> {
    proof fn lemma_products_fail(
        self,
        row: nat,
        parts: Seq<Seq<char>>,
        sites: Seq<usize>,
        count: nat,
        later: nat,
    )
        requires
            count <= later,
            self.products(row, parts, sites, count) is Err,
        ensures
            self.products(row, parts, sites, later) == self.products(row, parts, sites, count),
        decreases later,
    {
        if count < later {
            self.lemma_products_fail(row, parts, sites, count, (later - 1) as nat);
        }
    }

    /// Destinations of one factor of an operator string.
    fn move_factor(
        &self,
        row: usize,
        place: usize,
        part: &str,
        sites: &[usize],
        start: usize,
        Ghost(parts): Ghost<Seq<Seq<char>>>,
    ) -> (result: Result<Transitions<u128, PackedPhase>>)
        requires
            self.valid(),
            place < self.spec_factors().len(),
            part@ == parts[place as int],
            start == symbols_before(parts, place as nat),
            start + part@.len() <= sites@.len(),
        ensures
            basis::transitions_are(
                result,
                self.factor_moves(row as nat, parts, sites@, place as int),
            ),
        decreases *self, 0nat,
    {
        let ghost factor = self.spec_factors()[place as int];
        proof {
            assert(factor.ready());
            self.lemma_factor_row(row as nat, place as int);
            factor.lemma_acts(self.factor_row(row as nat, place as int));
        }
        let given: usize = sites.len();
        let width: usize = part.unicode_len();
        let factor_row: usize = (row / self.strides[place]) % self.dimensions[place];
        let source: u128 = match self.factors[place].state_at(factor_row) {
            Ok(source) => source,
            Err(error) => {
                return Err(error);
            },
        };
        if width == 0 {
            let mut same: Transitions<u128, PackedPhase> = Vec::new();
            same.push((source, Vec::new()));
            assert(basis::transitions_view(same@) =~= seq![(source, Seq::empty())]);
            return Ok(same);
        }
        self.factors[place].local_moves(source, part, slice_subrange(sites, start, start + width))
    }

    /// Destinations of a local operator string.
    fn local_moves(&self, state: u128, operator: &str, sites: &[usize]) -> (result: Result<
        Transitions<u128, PackedPhase>,
    >)
        requires
            self.valid(),
        ensures
            basis::transitions_are(
                result,
                PackedBasis::Tensor(Box::new(*self)).moves(state, operator@, sites@),
            ),
        decreases *self, 1nat,
    {
        let text: Vec<char> = characters(operator);
        let bounds: Vec<(usize, usize)> = piece_bounds(&text);
        let ghost parts = pieces(operator@);
        let count: usize = self.factors.len();
        if bounds.len() != count {
            return Err(
                QmbedError::InvalidOperator(
                    OperatorFault::Factors { found: bounds.len(), expected: count },
                ),
            );
        }
        if state >= self.dimension as u128 {
            return Err(QmbedError::StateNotInBasis);
        }
        let row: usize = state as usize;
        let length: usize = text.len();
        let mut arity: usize = 0;
        let mut next: usize = 0;
        proof {
            lemma_pieces_length(operator@);
        }
        while next < count
            invariant
                next <= count == bounds@.len(),
                length == text@.len(),
                parts == pieces(text@),
                parts.len() == count,
                text@ == operator@,
                arity == symbols_before(parts, next as nat),
                arity <= text@.len(),
                symbols_before(parts, count as nat) <= text@.len(),
                forall|k: int|
                    0 <= k < bounds@.len() ==> (#[trigger] bounds@[k]).0 <= bounds@[k].1
                        && bounds@[k].1 <= text@.len() && parts[k] == text@.subrange(
                        bounds@[k].0 as int,
                        bounds@[k].1 as int,
                    ),
            decreases count - next,
        {
            proof {
                lemma_symbols_before(parts, (next + 1) as nat, count as nat);
            }
            assert(parts[next as int].len() == bounds@[next as int].1 - bounds@[next as int].0);
            arity = arity + (bounds[next].1 - bounds[next].0);
            next += 1;
        }
        if sites.len() != arity {
            return Err(QmbedError::InvalidCoupling(Reason::Arity { symbols: arity, sites: sites.len() }));
        }
        let given: usize = sites.len();
        let mut partial: Vec<(usize, Vec<Factor<PackedPhase>>)> = Vec::new();
        partial.push((0, Vec::new()));
        let mut start: usize = 0;
        let mut place: usize = 0;
        assert(partial_view(partial@) =~= seq![(0int, Seq::<Factor<PackedPhase>>::empty())]);
        while place < count
            invariant
                place <= count == bounds@.len(),
                count == self.spec_factors().len(),
                self.valid(),
                text@ == operator@,
                parts == pieces(operator@),
                parts.len() == count,
                state < self.spec_dimension(),
                row == state,
                start == symbols_before(parts, place as nat),
                given == sites@.len(),
                sites@.len() == symbols_before(parts, count as nat),
                forall|k: int|
                    0 <= k < bounds@.len() ==> (#[trigger] bounds@[k]).0 <= bounds@[k].1
                        && bounds@[k].1 <= text@.len() && parts[k] == text@.subrange(
                        bounds@[k].0 as int,
                        bounds@[k].1 as int,
                    ),
                self.products(row as nat, parts, sites@, place as nat) == Ok::<
                    PartialMoves,
                    QmbedError,
                >(partial_view(partial@)),
                forall|i: int|
                    0 <= i < partial@.len() ==> (#[trigger] partial@[i]).0 + product_from(
                        self.spec_dimensions(),
                        place as nat,
                    ) <= self.spec_dimension(),
            decreases count - place,
        {
            let ghost factor = self.spec_factors()[place as int];
            proof {
                assert(factor.ready());
                lemma_symbols_before(parts, (place + 1) as nat, count as nat);
                assert(self.spec_strides()[place as int] == product_from(
                    self.spec_dimensions(),
                    (place + 1) as nat,
                ));
                assert(self.spec_dimensions()[place as int] == factor.rows().len());
                assert forall|k: int| 0 <= k < self.spec_dimensions().len() implies (
                #[trigger] self.spec_dimensions()[k]) > 0 by {}
                lemma_product_order(self.spec_dimensions(), 0, place as nat);
            }
            let (from, to) = bounds[place];
            let width: usize = to - from;
            let moves: Result<Transitions<u128, PackedPhase>> = self.move_factor(
                row,
                place,
                operator.substring_char(from, to),
                sites,
                start,
                Ghost(parts),
            );
            let moves: Transitions<u128, PackedPhase> = match moves {
                Ok(moves) => moves,
                Err(error) => {
                    proof {
                        self.lemma_products_fail(
                            row as nat,
                            parts,
                            sites@,
                            (place + 1) as nat,
                            count as nat,
                        );
                    }
                    return Err(error);
                },
            };
            let ghost list = basis::transitions_view(moves@);
            if partial.len() > 0 {
                match rows_of_moves(&self.factors[place], &moves) {
                    Some(rows) => {
                        let stride: usize = self.strides[place];
                        proof {
                            let sizes = self.spec_dimensions();
                            assert(product_from(sizes, place as nat) == sizes[place as int]
                                * product_from(sizes, (place + 1) as nat));
                            lemma_mul_is_commutative(
                                sizes[place as int] as int,
                                product_from(sizes, (place + 1) as nat) as int,
                            );
                            assert(product_from(sizes, place as nat) <= self.spec_dimension());
                        }
                        let room: usize = stride * self.dimensions[place];
                        proof {
                            assert(room == product_from(self.spec_dimensions(), place as nat));
                            assert forall|i: int| 0 <= i < rows@.len() implies factor.row_number(
                                moves@[i].0,
                            ) == Some(#[trigger] rows@[i] as int) && (rows@[i] + 1) * stride
                                <= room by {
                                lemma_room(self.spec_dimensions(), place as nat, rows@[i] as nat);
                            }
                        }
                        partial = extend_partial(
                            &partial,
                            &self.factors[place],
                            &moves,
                            &rows,
                            stride,
                            room,
                            self.dimension,
                        );
                    },
                    None => {
                        proof {
                            self.lemma_products_fail(
                                row as nat,
                                parts,
                                sites@,
                                (place + 1) as nat,
                                count as nat,
                            );
                        }
                        return Err(QmbedError::StateNotInBasis);
                    },
                }
            } else {
                assert(extended(
                    partial_view(partial@),
                    factor,
                    list,
                    self.spec_strides()[place as int] as int,
                ) =~= partial_view(partial@)) by {
                    assert(0 * list.len() == 0) by (nonlinear_arith);
                }
            }
            start = start + width;
            place += 1;
        }
        let ghost products = partial_view(partial@);
        let mut transitions: Transitions<u128, PackedPhase> = Vec::new();
        let mut done: usize = 0;
        while done < partial.len()
            invariant
                done <= partial@.len(),
                products == partial_view(partial@),
                transitions@.len() == done,
                forall|i: int|
                    0 <= i < done ==> (#[trigger] transitions@[i]).0 == partial@[i].0
                        && transitions@[i].1@ == partial@[i].1@,
            decreases partial@.len() - done,
        {
            transitions.push((partial[done].0 as u128, basis::copy_factors(&partial[done].1)));
            done += 1;
        }
        assert(basis::transitions_view(transitions@) =~= Seq::new(
            products.len(),
            |i: int| (products[i].0 as u128, products[i].1),
        ));
        Ok(transitions)
    }
}

impl<
    A: LocalAlgebra<u128, Gaussian>,
    L: SymmetryMap<u128, Factor = Turn>,
    M: SymmetryMap<u128, Factor = Turn>,
> PackedBasis<A, L, M> {
    /// Destinations of a local operator string.
    pub fn local_moves(&self, state: u128, operator: &str, sites: &[usize]) -> (result: Result<
        Transitions<u128, PackedPhase>,
    >)
        requires
            self.ready(),
            self.acts(state),
        ensures
            basis::transitions_are(result, self.moves(state, operator@, sites@)),
        decreases *self, 2nat,
    {
        match self {
            PackedBasis::Spin(part) => widen(part.apply_local_transitions(state, operator, sites)),
            PackedBasis::Boson(part) => widen(part.apply_local_transitions(state, operator, sites)),
            PackedBasis::SpinlessFermion(part) => widen(
                part.apply_local_transitions(state, operator, sites),
            ),
            PackedBasis::SpinfulFermion(part) => widen(
                part.apply_local_transitions(state, operator, sites),
            ),
            PackedBasis::GeneralSpin(part) => part.apply_local_transitions(state, operator, sites),
            PackedBasis::GeneralBoson(part) => part.apply_local_transitions(state, operator, sites),
            PackedBasis::GeneralSpinlessFermion(part) => part.apply_local_transitions(
                state,
                operator,
                sites,
            ),
            PackedBasis::GeneralSpinfulFermion(part) => part.apply_local_transitions(
                state,
                operator,
                sites,
            ),
            PackedBasis::User(part) => part.apply_local_transitions(
                state,
                operator,
                sites,
            ),
            PackedBasis::Tensor(tensor) => tensor.local_moves(state, operator, sites),
            PackedBasis::Photon(product) => product.local_moves(state, operator, sites),
            PackedBasis::Reversed(inner) => inner.local_moves(state, operator, sites),
        }
    }
}

/// Pairs of matter and photon destinations, the photon counting fastest.
fn pair_moves<
    A: LocalAlgebra<u128, Gaussian>,
    L: SymmetryMap<u128, Factor = Turn>,
    M: SymmetryMap<u128, Factor = Turn>,
>(
    part: &PackedBasis<A, L, M>,
    matter: &Transitions<u128, PackedPhase>,
    photon: &Transitions<u128, PackedPhase>,
    mode: &BosonBasis1D,
    width: usize,
) -> (result: Result<Transitions<u128, PackedPhase>>)
    requires
        part.ready(),
        part.rows().len() * width <= usize::MAX,
        mode.wf(),
        mode.spec_states().len() <= width,
    ensures
        basis::transitions_are(
            result,
            photon_pairs(
                *part,
                basis::transitions_view(matter@),
                basis::transitions_view(photon@),
                mode.spec_states(),
                width,
                matter@.len() * photon@.len(),
            ),
        ),
{
    let ghost first = basis::transitions_view(matter@);
    let ghost second = basis::transitions_view(photon@);
    let ghost occupations = mode.spec_states();
    let ghost columns = photon@.len();
    let ghost total = matter@.len() * columns;
    let mut pairs: Transitions<u128, PackedPhase> = Vec::new();
    let mut left: usize = 0;
    assert(basis::transitions_view(pairs@) =~= Seq::empty());
    while left < matter.len()
        invariant
            left <= matter@.len(),
            part.ready(),
            part.rows().len() * width <= usize::MAX,
            mode.wf(),
            mode.spec_states().len() <= width,
            first == basis::transitions_view(matter@),
            second == basis::transitions_view(photon@),
            occupations == mode.spec_states(),
            columns == photon@.len(),
            total == matter@.len() * columns,
            left * columns <= total,
            photon_pairs(*part, first, second, occupations, width, (left * columns) as nat)
                == Ok::<Seq<(u128, Seq<Factor<PackedPhase>>)>, QmbedError>(
                basis::transitions_view(pairs@),
            ),
        decreases matter@.len() - left,
    {
        let mut right: usize = 0;
        while right < photon.len()
            invariant
                left < matter@.len(),
                right <= photon@.len(),
                part.ready(),
                part.rows().len() * width <= usize::MAX,
                mode.wf(),
                mode.spec_states().len() <= width,
                first == basis::transitions_view(matter@),
                second == basis::transitions_view(photon@),
                occupations == mode.spec_states(),
                columns == photon@.len(),
                total == matter@.len() * columns,
                0 <= left * columns + right <= total,
                photon_pairs(
                    *part,
                    first,
                    second,
                    occupations,
                    width,
                    (left * columns + right) as nat,
                ) == Ok::<Seq<(u128, Seq<Factor<PackedPhase>>)>, QmbedError>(
                    basis::transitions_view(pairs@),
                ),
            decreases photon@.len() - right,
        {
            let ghost place = left * columns + right;
            let ghost before = pairs@;
            proof {
                crate::tensor::lemma_pair_bound(
                    left as int,
                    right as int,
                    first.len(),
                    columns,
                );
                crate::tensor::lemma_pair_number(left as int, right as int, columns as int);
                assert(first[left as int] == (matter@[left as int].0, matter@[left as int].1@));
                assert(second[right as int] == (photon@[right as int].0, photon@[right as int].1@));
            }
            let occupation: usize = match only_index(mode, photon[right].0) {
                Ok(occupation) => occupation,
                Err(error) => {
                    proof {
                        lemma_pairs_fail(
                            *part,
                            first,
                            second,
                            occupations,
                            width,
                            (place + 1) as nat,
                            total,
                        );
                    }
                    return Err(error);
                },
            };
            if let Ok(row) = part.row_of(matter[left].0) {
                proof {
                    lemma_row_fits(row as nat, part.rows().len(), width);
                }
                let target: u128 = encode_product_state(row, occupation, width);
                let mut amplitude: Vec<Factor<PackedPhase>> = basis::copy_factors(&matter[left].1);
                let mut added: Vec<Factor<PackedPhase>> = basis::copy_factors(&photon[right].1);
                amplitude.append(&mut added);
                pairs.push((target, amplitude));
                proof {
                    assert(basis::transitions_view(pairs@) =~= basis::transitions_view(
                        before,
                    ).push((target, amplitude@)));
                }
            }
            right += 1;
        }
        left += 1;
        proof {
            assert(left * columns == (left - 1) * columns + columns) by (nonlinear_arith)
                requires
                    left >= 1,
            ;
        }
    }
    Ok(pairs)
}

proof fn lemma_pairs_fail<
    A: LocalAlgebra<u128, Gaussian>,
    L: SymmetryMap<u128, Factor = Turn>,
    M: SymmetryMap<u128, Factor = Turn>,
>(
    part: PackedBasis<A, L, M>,
    matter: Seq<(u128, Seq<Factor<PackedPhase>>)>,
    photon: Seq<(u128, Seq<Factor<PackedPhase>>)>,
    occupations: Seq<u128>,
    width: usize,
    count: nat,
    later: nat,
)
    requires
        count <= later,
        photon_pairs(part, matter, photon, occupations, width, count) is Err,
    ensures
        photon_pairs(part, matter, photon, occupations, width, later) == photon_pairs(
            part,
            matter,
            photon,
            occupations,
            width,
            count,
        ),
    decreases later,
{
    if count < later {
        lemma_pairs_fail(part, matter, photon, occupations, width, count, (later - 1) as nat);
    }
}

/// The row of the product that a matter row and an occupation make up.
fn encode_product_state(matter_row: usize, photon_occupation: usize, photon_dimension: usize) -> (
state: u128)
    requires
        photon_occupation < photon_dimension,
        (matter_row + 1) * photon_dimension <= usize::MAX,
    ensures
        state == encoded(matter_row as int, photon_occupation as int, photon_dimension),
{
    proof {
        assert(0 <= matter_row * photon_dimension && matter_row * photon_dimension
            + photon_dimension == (matter_row + 1) * photon_dimension) by (nonlinear_arith)
            requires
                matter_row >= 0,
                photon_dimension >= 0,
        ;
    }
    (matter_row * photon_dimension + photon_occupation) as u128
}

/// An ascending list of words counts its own places from below.
proof fn lemma_ascending_places(words: Seq<u128>, place: int)
    requires
        weights::ascending(words),
        0 <= place < words.len(),
    ensures
        words[place] >= place,
    decreases place,
{
    if place > 0 {
        lemma_ascending_places(words, place - 1);
        assert(words[place - 1] < words[place]);
    }
}

proof fn lemma_one_mode(mode: BosonBasis1D, width: usize)
    requires
        mode.wf(),
        mode@.sites == 1,
        mode@.states_per_site == width,
    ensures
        mode.spec_states().len() <= width,
{
    let words = mode.spec_states();
    if words.len() > width {
        lemma_ascending_places(words, width as int);
        assert(words.contains(words[width as int]));
        reveal_with_fuel(digits::power, 3);
        assert(digits::power(width as nat, 1) == width);
    }
}

proof fn lemma_row_fits(row: nat, rows: nat, width: usize)
    requires
        row < rows,
        rows * width <= usize::MAX,
    ensures
        (row + 1) * width <= usize::MAX,
{
    lemma_mul_inequality((row + 1) as int, rows as int, width as int);
}

impl<
    A: LocalAlgebra<u128, Gaussian>,
    L: SymmetryMap<u128, Factor = Turn>,
    M: SymmetryMap<u128, Factor = Turn>,
> PackedPhotonBasis<A, L, M> {
    /// Parts that go together.
    pub open spec fn valid(self) -> bool {
        &&& self.spec_matter().ready()
        &&& self.spec_photon().wf()
        &&& self.spec_photon_dimension() > 0
        &&& self.spec_photon().spec_states().len() <= self.spec_photon_dimension()
        &&& self.spec_matter().rows().len() * self.spec_photon_dimension() <= usize::MAX
        &&& weights::ascending(self.spec_rows())
        &&& self.table_fits()
    }

    /// Matter state and photon occupation of a row of the product.
    fn product_state(&self, state: u128) -> (parts: (Option<u128>, usize))
        requires
            self.valid(),
        ensures
            parts.0 == self.matter_state(state),
            parts.1 == self.occupation(state),
            parts.1 < self.spec_photon_dimension(),
            parts.0 is Some ==> 0 <= state as int / self.spec_photon_dimension() as int,
    {
        let width: u128 = self.photon_dimension as u128;
        proof {
            lemma_mod_bound(state as int, width as int);
            lemma_div_pos_is_pos(state as int, width as int);
        }
        let row: u128 = state / width;
        let occupation: usize = (state % width) as usize;
        if row < self.matter.length() as u128 {
            match self.matter.state_at(row as usize) {
                Ok(state) => (Some(state), occupation),
                Err(_) => (None, occupation),
            }
        } else {
            (None, occupation)
        }
    }

    /// Destinations of a local operator string, inside the sector or not.
    pub fn raw_local_transitions(&self, state: u128, operator: &str, sites: &[usize]) -> (result:
        Result<Transitions<u128, PackedPhase>>)
        requires
            self.valid(),
        ensures
            basis::transitions_are(result, self.raw_moves(state, operator@, sites@)),
        decreases *self, 0nat,
    {
        if self.indices.get(state).is_none() {
            return Err(QmbedError::StateNotInBasis);
        }
        let text: Vec<char> = characters(operator);
        let bounds: Vec<(usize, usize)> = piece_bounds(&text);
        let ghost parts = pieces(operator@);
        if bounds.len() != 2 {
            return Err(QmbedError::InvalidOperator(OperatorFault::Whole));
        }
        proof {
            assert(parts[0] == text@.subrange(bounds@[0].0 as int, bounds@[0].1 as int));
            assert(parts[1] == text@.subrange(bounds@[1].0 as int, bounds@[1].1 as int));
            lemma_two_pieces(operator@);
        }
        let matter_operator: &str = operator.substring_char(bounds[0].0, bounds[0].1);
        let photon_operator: &str = operator.substring_char(bounds[1].0, bounds[1].1);
        let length: usize = text.len();
        let matter_arity: usize = bounds[0].1 - bounds[0].0;
        let photon_arity: usize = bounds[1].1 - bounds[1].0;
        let arity: usize = matter_arity + photon_arity;
        if sites.len() != arity {
            return Err(QmbedError::InvalidCoupling(Reason::Arity { symbols: arity, sites: sites.len() }));
        }
        let (matter_state, photon_row) = self.product_state(state);
        let matter_state: u128 = match matter_state {
            Some(matter_state) => matter_state,
            None => {
                return Err(QmbedError::StateNotInBasis);
            },
        };
        let photon_state: u128 = match self.photon.state(photon_row) {
            Ok(state) => state,
            Err(error) => {
                return Err(error);
            },
        };
        proof {
            self.matter.lemma_acts(state as int / self.photon_dimension as int);
            self.photon.acts_on_states(photon_row as int);
        }
        let matter_moves: Transitions<u128, PackedPhase> = if matter_arity == 0 {
            let mut same: Transitions<u128, PackedPhase> = Vec::new();
            same.push((matter_state, Vec::new()));
            assert(basis::transitions_view(same@) =~= seq![(matter_state, Seq::empty())]);
            same
        } else {
            match self.matter.local_moves(
                matter_state,
                matter_operator,
                slice_subrange(sites, 0, matter_arity),
            ) {
                Ok(moves) => moves,
                Err(error) => {
                    return Err(error);
                },
            }
        };
        let photon_moves: Transitions<u128, PackedPhase> = if photon_arity == 0 {
            let mut same: Transitions<u128, PackedPhase> = Vec::new();
            same.push((photon_state, Vec::new()));
            assert(basis::transitions_view(same@) =~= seq![(photon_state, Seq::empty())]);
            same
        } else {
            match widen(
                self.photon.apply_local_transitions(
                    photon_state,
                    photon_operator,
                    slice_subrange(sites, matter_arity, sites.len()),
                ),
            ) {
                Ok(moves) => moves,
                Err(error) => {
                    return Err(error);
                },
            }
        };
        pair_moves(
            &self.matter,
            &matter_moves,
            &photon_moves,
            &self.photon,
            self.photon_dimension,
        )
    }

    /// Destinations of a local operator string inside the sector.
    fn local_moves(&self, state: u128, operator: &str, sites: &[usize]) -> (result: Result<
        Transitions<u128, PackedPhase>,
    >)
        requires
            self.valid(),
        ensures
            basis::transitions_are(
                result,
                self.kept_moves(self.raw_moves(state, operator@, sites@)),
            ),
        decreases *self, 1nat,
    {
        let all: Transitions<u128, PackedPhase> = match self.raw_local_transitions(
            state,
            operator,
            sites,
        ) {
            Ok(all) => all,
            Err(error) => {
                return Err(error);
            },
        };
        let ghost list = basis::transitions_view(all@);
        let ghost keep = |entry: (u128, Seq<Factor<PackedPhase>>)| self.spec_row(entry.0) is Some;
        let mut kept: Transitions<u128, PackedPhase> = Vec::new();
        let mut next: usize = 0;
        proof {
            reveal(Seq::filter);
            assert(list.take(0) =~= Seq::empty());
            assert(basis::transitions_view(kept@) =~= list.take(0).filter(keep));
        }
        while next < all.len()
            invariant
                next <= all@.len(),
                self.valid(),
                list == basis::transitions_view(all@),
                keep == (|entry: (u128, Seq<Factor<PackedPhase>>)|
                    self.spec_row(entry.0) is Some),
                basis::transitions_view(kept@) == list.take(next as int).filter(keep),
            decreases all@.len() - next,
        {
            let ghost before = kept@;
            proof {
                reveal(Seq::filter);
                assert(list.take(next + 1).drop_last() =~= list.take(next as int));
                assert(list.take(next + 1).last() == (all@[next as int].0, all@[next as int].1@));
            }
            let target: u128 = all[next].0;
            if self.indices.get(target).is_some() {
                let amplitude: Vec<Factor<PackedPhase>> = basis::copy_factors(&all[next].1);
                kept.push((target, amplitude));
                proof {
                    assert(basis::transitions_view(kept@) =~= basis::transitions_view(before).push(
                        (target, amplitude@),
                    ));
                }
            }
            next += 1;
        }
        assert(list.take(next as int) =~= list);
        Ok(kept)
    }
}

/// The two factors of an operator string are shorter than the string.
proof fn lemma_two_pieces(operator: Seq<char>)
    requires
        pieces(operator).len() == 2,
    ensures
        pieces(operator)[0].len() + pieces(operator)[1].len() + 1 == operator.len(),
{
    symbols::lemma_first_separator(operator);
    let place = symbols::first_separator(operator);
    let rest = operator.subrange(place + 1, operator.len() as int);
    symbols::lemma_first_separator(rest);
    let more = symbols::first_separator(rest);
    if more < rest.len() {
        lemma_some_piece(rest.subrange(more + 1, rest.len() as int));
    }
    assert(pieces(rest).len() == 1);
    assert(pieces(rest)[0] == rest);
}

proof fn lemma_some_piece(operator: Seq<char>)
    ensures
        pieces(operator).len() >= 1,
{
}

/// The factors of an operator string together are not longer than the string.
proof fn lemma_pieces_length(operator: Seq<char>)
    ensures
        symbols_before(pieces(operator), pieces(operator).len()) <= operator.len(),
    decreases operator.len(),
{
    symbols::lemma_first_separator(operator);
    let place = symbols::first_separator(operator);
    let parts = pieces(operator);
    if place >= operator.len() {
        reveal_with_fuel(symbols_before, 2);
    } else {
        let first = operator.subrange(0, place);
        let rest = operator.subrange(place + 1, operator.len() as int);
        lemma_pieces_length(rest);
        lemma_symbols_shift(first, pieces(rest), pieces(rest).len());
    }
}

proof fn lemma_symbols_shift(first: Seq<char>, rest: Seq<Seq<char>>, count: nat)
    requires
        count <= rest.len(),
    ensures
        symbols_before(seq![first] + rest, count + 1) == first.len() + symbols_before(rest, count),
    decreases count,
{
    let parts = seq![first] + rest;
    if count == 0 {
        reveal_with_fuel(symbols_before, 2);
        assert(parts[0] == first);
    } else {
        lemma_symbols_shift(first, rest, (count - 1) as nat);
        assert(parts[count as int] == rest[count - 1]);
    }
}

/// The first factors, with products replaced by their own factors.
pub open spec fn flattened<
    A: LocalAlgebra<u128, Gaussian>,
    L: SymmetryMap<u128, Factor = Turn>,
    M: SymmetryMap<u128, Factor = Turn>,
>(factors: Seq<PackedBasis<A, L, M>>, count: nat) -> Seq<PackedBasis<A, L, M>>
    decreases count,
{
    if count == 0 {
        Seq::empty()
    } else {
        let before = flattened(factors, (count - 1) as nat);
        match factors[count - 1] {
            PackedBasis::Tensor(tensor) => before + tensor.spec_factors(),
            other => before.push(other),
        }
    }
}

/// Numbers of states of a list of factors.
pub open spec fn factor_dimensions<
    A: LocalAlgebra<u128, Gaussian>,
    L: SymmetryMap<u128, Factor = Turn>,
    M: SymmetryMap<u128, Factor = Turn>,
>(factors: Seq<PackedBasis<A, L, M>>) -> Seq<usize> {
    Seq::new(factors.len(), |k: int| factors[k].rows().len() as usize)
}

/// What is wrong with the factors of a product, if anything.
pub open spec fn tensor_error<
    A: LocalAlgebra<u128, Gaussian>,
    L: SymmetryMap<u128, Factor = Turn>,
    M: SymmetryMap<u128, Factor = Turn>,
>(factors: Seq<PackedBasis<A, L, M>>) -> Option<QmbedError> {
    if factors.len() < 2 {
        Some(QmbedError::InvalidSector(Reason::Text("a packed tensor basis requires at least two factors")))
    } else if factor_dimensions(factors).contains(0) {
        Some(QmbedError::InvalidSector(Reason::Text("tensor-basis factors must be nonempty")))
    } else if product_from(factor_dimensions(factors), 0) > usize::MAX {
        Some(QmbedError::UnsupportedBackend(Reason::Text("tensor-basis size overflow")))
    } else {
        None
    }
}

impl<
    A: LocalAlgebra<u128, Gaussian>,
    L: SymmetryMap<u128, Factor = Turn>,
    M: SymmetryMap<u128, Factor = Turn>,
> PackedTensorBasis<A, L, M> {
    /// The product of the given factors; the factors of a factor that is a product stand
    /// in its place.
    pub fn new(factors: Vec<PackedBasis<A, L, M>>) -> (result: Result<Self>)
        requires
            forall|k: int| 0 <= k < factors@.len() ==> (#[trigger] factors@[k]).ready(),
        ensures
            match result {
                Ok(tensor) => {
                    &&& tensor_error(flattened(factors@, factors@.len())) is None
                    &&& tensor.valid()
                    &&& tensor.spec_factors() == flattened(factors@, factors@.len())
                    &&& tensor.spec_dimensions() == factor_dimensions(tensor.spec_factors())
                },
                Err(error) => tensor_error(flattened(factors@, factors@.len())) == Some(error),
            },
    {
        let ghost given = factors@;
        let mut rest: Vec<PackedBasis<A, L, M>> = factors;
        let mut parts: Vec<PackedBasis<A, L, M>> = Vec::new();
        let ghost mut taken: nat = 0;
        while rest.len() > 0
            invariant
                forall|k: int| 0 <= k < given.len() ==> (#[trigger] given[k]).ready(),
                taken + rest@.len() == given.len(),
                rest@ == given.skip(taken as int),
                parts@ == flattened(given, taken),
                forall|k: int| 0 <= k < parts@.len() ==> (#[trigger] parts@[k]).ready(),
            decreases rest@.len(),
        {
            let ghost before = parts@;
            let part: PackedBasis<A, L, M> = rest.remove(0);
            assert(part == given[taken as int]);
            match part {
                PackedBasis::Tensor(tensor) => {
                    let mut inner: Vec<PackedBasis<A, L, M>> = tensor.factors;
                    let ghost added = inner@;
                    parts.append(&mut inner);
                    assert forall|k: int| 0 <= k < parts@.len() implies (
                    #[trigger] parts@[k]).ready() by {
                        if k >= before.len() {
                            assert(added[k - before.len()].ready());
                        } else {
                            assert(before[k].ready());
                        }
                    }
                },
                other => {
                    parts.push(other);
                },
            }
            proof {
                taken = taken + 1;
                assert(rest@ =~= given.skip(taken as int));
            }
        }
        let count: usize = parts.len();
        if count < 2 {
            return Err(
                QmbedError::InvalidSector(Reason::Text("a packed tensor basis requires at least two factors")),
            );
        }
        let ghost sizes = factor_dimensions(parts@);
        let mut dimensions: Vec<usize> = Vec::new();
        let mut next: usize = 0;
        while next < count
            invariant
                next <= count == parts@.len(),
                count >= 2,
                sizes == factor_dimensions(parts@),
                parts@ == flattened(given, given.len()),
                given == factors@,
                forall|k: int| 0 <= k < parts@.len() ==> (#[trigger] parts@[k]).ready(),
                dimensions@.len() == next,
                forall|k: int|
                    0 <= k < next ==> (#[trigger] dimensions@[k]) == parts@[k].rows().len()
                        && dimensions@[k] > 0 && sizes[k] == dimensions@[k],
            decreases count - next,
        {
            let size: usize = parts[next].length();
            if size == 0 {
                assert(sizes[next as int] == 0);
                return Err(QmbedError::InvalidSector(Reason::Text("tensor-basis factors must be nonempty")));
            }
            dimensions.push(size);
            next += 1;
        }
        assert(dimensions@ =~= sizes);
        let mut strides: Vec<usize> = vec![1; count];
        let mut dimension: usize = 1;
        let mut place: usize = count;
        while place > 0
            invariant
                place <= count,
                count >= 2,
                dimensions@.len() == count,
                strides@.len() == count,
                dimensions@ == sizes,
                sizes == factor_dimensions(parts@),
                parts@ == flattened(given, given.len()),
                given == factors@,
                parts@.len() == count,
                !sizes.contains(0),
                forall|k: int| 0 <= k < sizes.len() ==> (#[trigger] sizes[k]) > 0,
                dimension == product_from(sizes, place as nat),
                forall|k: int|
                    place <= k < count ==> (#[trigger] strides@[k]) == product_from(
                        sizes,
                        (k + 1) as nat,
                    ),
            decreases place,
        {
            place -= 1;
            strides[place] = dimension;
            proof {
                lemma_mul_is_commutative(
                    sizes[place as int] as int,
                    product_from(sizes, (place + 1) as nat) as int,
                );
                lemma_product_order(sizes, 0, place as nat);
            }
            match dimension.checked_mul(dimensions[place]) {
                Some(product) => {
                    dimension = product;
                },
                None => {
                    return Err(QmbedError::UnsupportedBackend(Reason::Text("tensor-basis size overflow")));
                },
            }
        }
        Ok(PackedTensorBasis { factors: parts, dimensions, strides, dimension })
    }

    pub fn factors(&self) -> (factors: &Vec<PackedBasis<A, L, M>>)
        ensures
            factors@ == self.spec_factors(),
    {
        &self.factors
    }

    pub fn dimensions(&self) -> (dimensions: &Vec<usize>)
        ensures
            dimensions@ == self.spec_dimensions(),
    {
        &self.dimensions
    }
}

/// Whether a number of matter excitations and an occupation make up the total.
pub open spec fn makes_up(total: Option<usize>, number: usize, occupation: int) -> bool {
    total matches Some(total) ==> number + occupation == total
}

/// Rows of one matter row with the first occupations, after other rows.
pub open spec fn with_occupations(
    before: Seq<u128>,
    matter_row: int,
    number: usize,
    width: usize,
    total: Option<usize>,
    count: nat,
) -> Seq<u128>
    decreases count,
{
    if count == 0 {
        before
    } else {
        let list = with_occupations(before, matter_row, number, width, total, (count - 1) as nat);
        if makes_up(total, number, count - 1) {
            list.push(encoded(matter_row, count - 1, width))
        } else {
            list
        }
    }
}

/// Rows of the first matter rows with the occupations that fit the total.
pub open spec fn photon_states<
    A: LocalAlgebra<u128, Gaussian>,
    L: SymmetryMap<u128, Factor = Turn>,
    M: SymmetryMap<u128, Factor = Turn>,
>(
    matter: PackedBasis<A, L, M>,
    width: usize,
    total: Option<usize>,
    count: nat,
) -> core::result::Result<Seq<u128>, QmbedError>
    decreases count,
{
    if count == 0 {
        Ok(Seq::empty())
    } else {
        match photon_states(matter, width, total, (count - 1) as nat) {
            Err(error) => Err(error),
            Ok(before) => match matter.quantum_number(matter.rows()[count - 1]) {
                Err(error) => Err(error),
                Ok(number) => Ok(
                    with_occupations(before, count - 1, number, width, total, width as nat),
                ),
            },
        }
    }
}

proof fn lemma_photon_states_fail<
    A: LocalAlgebra<u128, Gaussian>,
    L: SymmetryMap<u128, Factor = Turn>,
    M: SymmetryMap<u128, Factor = Turn>,
>(
    matter: PackedBasis<A, L, M>,
    width: usize,
    total: Option<usize>,
    count: nat,
    later: nat,
)
    requires
        count <= later,
        photon_states(matter, width, total, count) is Err,
    ensures
        photon_states(matter, width, total, later) == photon_states(matter, width, total, count),
    decreases later,
{
    if count < later {
        lemma_photon_states_fail(matter, width, total, count, (later - 1) as nat);
    }
}

/// Whether rows ascend below a bound, and are all rows below it where no total is fixed.
pub open spec fn rows_below(rows: Seq<u128>, total: Option<usize>, bound: int) -> bool {
    &&& weights::ascending(rows)
    &&& forall|i: int| 0 <= i < rows.len() ==> (#[trigger] rows[i]) < bound
    &&& total is None ==> rows.len() == bound && forall|i: int|
        0 <= i < rows.len() ==> (#[trigger] rows[i]) == i
}

proof fn lemma_occupations_ascend(
    before: Seq<u128>,
    matter_row: int,
    number: usize,
    width: usize,
    total: Option<usize>,
    count: nat,
)
    requires
        0 <= matter_row,
        (matter_row + 1) * width <= usize::MAX,
        count <= width,
        rows_below(before, total, matter_row * width),
    ensures
        rows_below(
            with_occupations(before, matter_row, number, width, total, count),
            total,
            matter_row * width + count,
        ),
    decreases count,
{
    if count > 0 {
        lemma_occupations_ascend(before, matter_row, number, width, total, (count - 1) as nat);
        assert(0 <= matter_row * width && matter_row * width + width == (matter_row + 1) * width)
            by (nonlinear_arith)
            requires
                matter_row >= 0,
                width >= 0,
        ;
    }
}

proof fn lemma_photon_states_ascend<
    A: LocalAlgebra<u128, Gaussian>,
    L: SymmetryMap<u128, Factor = Turn>,
    M: SymmetryMap<u128, Factor = Turn>,
>(
    matter: PackedBasis<A, L, M>,
    width: usize,
    total: Option<usize>,
    count: nat,
)
    requires
        count <= matter.rows().len(),
        matter.rows().len() * width <= usize::MAX,
        photon_states(matter, width, total, count) is Ok,
    ensures
        rows_below(photon_states(matter, width, total, count)->Ok_0, total, count * width),
    decreases count,
{
    if count > 0 {
        let row = (count - 1) as nat;
        lemma_photon_states_ascend(matter, width, total, row);
        lemma_row_fits(row, matter.rows().len(), width);
        lemma_occupations_ascend(
            photon_states(matter, width, total, row)->Ok_0,
            row as int,
            matter.quantum_number(matter.rows()[row as int])->Ok_0,
            width,
            total,
            width as nat,
        );
        assert(row * width + width == count * width) by (nonlinear_arith)
            requires
                count == row + 1,
        ;
    } else {
        assert(count * width == 0) by (nonlinear_arith)
            requires
                count == 0,
        ;
    }
}

/// The choices for the photon mode of a product.
pub open spec fn photon_mode(width: usize) -> BosonBasisBuilder {
    BosonBasisBuilder {
        sites: 1,
        states_per_site: width,
        particles: None,
        particle_sectors: None,
    }
}

/// What is wrong with matter and a photon cutoff, if anything.
pub open spec fn photon_error<
    A: LocalAlgebra<u128, Gaussian>,
    L: SymmetryMap<u128, Factor = Turn>,
    M: SymmetryMap<u128, Factor = Turn>,
>(
    matter: PackedBasis<A, L, M>,
    cutoff: usize,
    total: Option<usize>,
) -> Option<QmbedError> {
    let width = (cutoff + 1) as usize;
    if cutoff == usize::MAX {
        Some(QmbedError::UnsupportedBackend(Reason::Text("photon cutoff is too large")))
    } else if boson::boson_build_error(photon_mode(width)) is Some {
        boson::boson_build_error(photon_mode(width))
    } else if matter.rows().len() * width > usize::MAX {
        Some(QmbedError::UnsupportedBackend(Reason::Text("matter-photon basis size overflow")))
    } else {
        match photon_states(matter, width, total, matter.rows().len()) {
            Err(error) => Some(error),
            Ok(states) => if states.len() == 0 {
                Some(
                    QmbedError::InvalidSector(
                        Reason::Text("the requested total-excitation photon sector is empty"),
                    ),
                )
            } else {
                None
            },
        }
    }
}

/// Adds the rows of one matter row with the occupations that fit.
fn add_occupations(
    states: &mut Vec<u128>,
    matter_row: usize,
    number: usize,
    width: usize,
    total: Option<usize>,
)
    requires
        (matter_row + 1) * width <= usize::MAX,
    ensures
        final(states)@ == with_occupations(
            old(states)@,
            matter_row as int,
            number,
            width,
            total,
            width as nat,
        ),
{
    let ghost before = states@;
    let mut occupation: usize = 0;
    while occupation < width
        invariant
            occupation <= width,
            before == old(states)@,
            (matter_row + 1) * width <= usize::MAX,
            with_occupations(before, matter_row as int, number, width, total, occupation as nat)
                == states@,
        decreases width - occupation,
    {
        let fits: bool = match total {
            Some(total) => match number.checked_add(occupation) {
                Some(sum) => sum == total,
                None => false,
            },
            None => true,
        };
        if fits {
            states.push(encode_product_state(matter_row, occupation, width));
        }
        occupation += 1;
    }
}

impl<
    A: LocalAlgebra<u128, Gaussian>,
    L: SymmetryMap<u128, Factor = Turn>,
    M: SymmetryMap<u128, Factor = Turn>,
> PackedPhotonBasis<A, L, M> {
    /// Matter with a photon mode of at most `photon_cutoff` photons, and a fixed total
    /// excitation where one is given.
    pub fn new(matter: PackedBasis<A, L, M>, photon_cutoff: usize, total_excitations: Option<usize>) -> (
    result: Result<Self>)
        requires
            matter.ready(),
        ensures
            match result {
                Ok(product) => {
                    &&& photon_error(matter, photon_cutoff, total_excitations) is None
                    &&& product.valid()
                    &&& product.spec_matter() == matter
                    &&& product.spec_photon_dimension() == photon_cutoff + 1
                    &&& product.spec_photon()@.sites == 1
                    &&& product.spec_photon()@.states_per_site == photon_cutoff + 1
                    &&& product.spec_total() == total_excitations
                    &&& product.spec_full_dimension() == matter.rows().len() * (photon_cutoff + 1)
                    &&& photon_states(
                        matter,
                        (photon_cutoff + 1) as usize,
                        total_excitations,
                        matter.rows().len(),
                    ) == Ok::<Seq<u128>, QmbedError>(product.spec_rows())
                    &&& rows_below(
                        product.spec_rows(),
                        total_excitations,
                        product.spec_full_dimension() as int,
                    )
                },
                Err(error) => photon_error(matter, photon_cutoff, total_excitations) == Some(error),
            },
    {
        let photon_dimension: usize = match photon_cutoff.checked_add(1) {
            Some(width) => width,
            None => {
                return Err(QmbedError::UnsupportedBackend(Reason::Text("photon cutoff is too large")));
            },
        };
        assert(1 * (photon_dimension - 1) <= usize::MAX);
        let photon: BosonBasis1D = match BosonBasis1D::builder(1, photon_dimension).build() {
            Ok(photon) => photon,
            Err(error) => {
                return Err(error);
            },
        };
        proof {
            lemma_one_mode(photon, photon_dimension);
        }
        let count: usize = matter.length();
        let full_dimension: usize = match count.checked_mul(photon_dimension) {
            Some(size) => size,
            None => {
                return Err(QmbedError::UnsupportedBackend(Reason::Text("matter-photon basis size overflow")));
            },
        };
        let mut states: Vec<u128> = Vec::new();
        let mut row: usize = 0;
        while row < count
            invariant
                row <= count,
                count == matter.rows().len(),
                matter.ready(),
                photon_dimension == photon_cutoff + 1,
                boson::boson_build_error(photon_mode(photon_dimension)) is None,
                matter.rows().len() * photon_dimension <= usize::MAX,
                photon_states(matter, photon_dimension, total_excitations, row as nat) == Ok::<
                    Seq<u128>,
                    QmbedError,
                >(states@),
            decreases count - row,
        {
            proof {
                lemma_row_fits(row as nat, matter.rows().len(), photon_dimension);
            }
            let number: Result<usize> = match matter.state_at(row) {
                Ok(state) => matter.additive_quantum_number(state),
                Err(error) => Err(error),
            };
            if let Ok(number) = number {
                add_occupations(&mut states, row, number, photon_dimension, total_excitations);
            }
            if let Err(error) = number {
                proof {
                    lemma_photon_states_fail(
                        matter,
                        photon_dimension,
                        total_excitations,
                        (row + 1) as nat,
                        count as nat,
                    );
                }
                return Err(error);
            }
            row += 1;
        }
        if states.len() == 0 {
            return Err(
                QmbedError::InvalidSector(Reason::Text("the requested total-excitation photon sector is empty")),
            );
        }
        proof {
            lemma_photon_states_ascend(
                matter,
                photon_dimension,
                total_excitations,
                matter.rows().len(),
            );
        }
        let mut indices: StateTable<u128, usize> = StateTable::new();
        let mut next: usize = 0;
        while next < states.len()
            invariant
                next <= states@.len(),
                indices.wf(),
                forall|state: u128| #[trigger]
                    indices.entry(state) matches Some(row) ==> row < next && states@[row as int]
                        == state,
                forall|i: int| 0 <= i < next ==> indices.entry(#[trigger] states@[i]) is Some,
            decreases states@.len() - next,
        {
            indices.insert(states[next], next);
            next += 1;
        }
        Ok(
            PackedPhotonBasis {
                matter,
                photon,
                photon_dimension,
                full_dimension,
                states,
                indices,
                total_excitations,
            },
        )
    }

    pub fn matter(&self) -> (matter: &PackedBasis<A, L, M>)
        ensures
            *matter == self.spec_matter(),
    {
        &self.matter
    }

    pub fn photon(&self) -> (photon: &BosonBasis1D)
        ensures
            *photon == self.spec_photon(),
    {
        &self.photon
    }

    pub fn photon_dimension(&self) -> (dimension: usize)
        ensures
            dimension == self.spec_photon_dimension(),
    {
        self.photon_dimension
    }

    pub fn full_dimension(&self) -> (dimension: usize)
        ensures
            dimension == self.spec_full_dimension(),
    {
        self.full_dimension
    }

    pub fn total_excitations(&self) -> (total: Option<usize>)
        ensures
            total == self.spec_total(),
    {
        self.total_excitations
    }

    /// Number of states of the whole product.
    pub closed spec fn spec_full_dimension(self) -> usize {
        self.full_dimension
    }
}

/// Whether the first factors of an operator string keep the particle sectors of theirs.
/// The first that does not ends the walk.
pub open spec fn factors_preserve<
    A: LocalAlgebra<u128, Gaussian>,
    L: SymmetryMap<u128, Factor = Turn>,
    M: SymmetryMap<u128, Factor = Turn>,
>(
    factors: Seq<PackedBasis<A, L, M>>,
    parts: Seq<Seq<char>>,
    count: nat,
) -> core::result::Result<bool, QmbedError>
    decreases factors, count,
{
    if count == 0 || count > factors.len() {
        Ok(true)
    } else {
        match factors_preserve(factors, parts, (count - 1) as nat) {
            Err(error) => Err(error),
            Ok(false) => Ok(false),
            Ok(true) => factors[count - 1].preserves(parts[count - 1]),
        }
    }
}

impl<
    A: LocalAlgebra<u128, Gaussian>,
    L: SymmetryMap<u128, Factor = Turn>,
    M: SymmetryMap<u128, Factor = Turn>,
> PackedBasis<A, L, M> {
    /// Whether a local operator string keeps the particle sectors of the basis.
    pub open spec fn preserves(self, operator: Seq<char>) -> core::result::Result<bool, QmbedError>
        decreases self, 0nat,
    {
        match self {
            PackedBasis::Spin(part) => part.spec_preserves(operator),
            PackedBasis::Boson(part) => part.spec_preserves(operator),
            PackedBasis::SpinlessFermion(part) => part.spec_preserves(operator),
            PackedBasis::SpinfulFermion(part) => part.spec_preserves(operator),
            PackedBasis::GeneralSpin(part) => part.spec_preserves(operator),
            PackedBasis::GeneralBoson(part) => part.spec_preserves(operator),
            PackedBasis::GeneralSpinlessFermion(part) => part.spec_preserves(operator),
            PackedBasis::GeneralSpinfulFermion(part) => part.spec_preserves(operator),
            PackedBasis::User(part) => part.spec_preserves(operator),
            PackedBasis::Tensor(tensor) => {
                let parts = pieces(operator);
                let factors = tensor.spec_factors();
                if parts.len() != factors.len() {
                    Err(
                        QmbedError::InvalidOperator(
                            OperatorFault::Factors {
                                found: parts.len() as usize,
                                expected: factors.len() as usize,
                            },
                        ),
                    )
                } else {
                    factors_preserve(factors, parts, factors.len())
                }
            },
            PackedBasis::Photon(product) => if pieces(operator).len() != 2 {
                Err(QmbedError::InvalidOperator(OperatorFault::Whole))
            } else {
                wide_spin::keeps_number(product.spec_total() is Some, operator)
            },
            PackedBasis::Reversed(inner) => inner.preserves(operator),
        }
    }
}

/// Whether the first factors of an operator string on given sites keep the particle sectors of
/// theirs. The first that does not ends the walk.
pub open spec fn factors_preserve_on<
    A: LocalAlgebra<u128, Gaussian>,
    L: SymmetryMap<u128, Factor = Turn>,
    M: SymmetryMap<u128, Factor = Turn>,
>(
    factors: Seq<PackedBasis<A, L, M>>,
    parts: Seq<Seq<char>>,
    sites: Seq<usize>,
    count: nat,
) -> core::result::Result<bool, QmbedError>
    decreases factors, count,
{
    if count == 0 || count > factors.len() {
        Ok(true)
    } else {
        match factors_preserve_on(factors, parts, sites, (count - 1) as nat) {
            Err(error) => Err(error),
            Ok(false) => Ok(false),
            Ok(true) => factors[count - 1].preserves_on(
                parts[count - 1],
                sites.subrange(
                    symbols_before(parts, (count - 1) as nat) as int,
                    symbols_before(parts, count) as int,
                ),
            ),
        }
    }
}

impl<
    A: LocalAlgebra<u128, Gaussian>,
    L: SymmetryMap<u128, Factor = Turn>,
    M: SymmetryMap<u128, Factor = Turn>,
> PackedBasis<A, L, M> {
    /// Whether a local operator string on given sites keeps the particle sectors of the basis.
    pub open spec fn preserves_on(self, operator: Seq<char>, sites: Seq<usize>) -> core::result::Result<
        bool,
        QmbedError,
    >
        decreases self, 0nat,
    {
        match self {
            PackedBasis::Spin(part) => part.spec_preserves_on_sites(operator, sites),
            PackedBasis::Boson(part) => part.spec_preserves_on_sites(operator, sites),
            PackedBasis::SpinlessFermion(part) => part.spec_preserves_on_sites(operator, sites),
            PackedBasis::SpinfulFermion(part) => part.spec_preserves_on_sites(operator, sites),
            PackedBasis::GeneralSpin(part) => part.spec_preserves_on_sites(operator, sites),
            PackedBasis::GeneralBoson(part) => part.spec_preserves_on_sites(operator, sites),
            PackedBasis::GeneralSpinlessFermion(part) => part.spec_preserves_on_sites(
                operator,
                sites,
            ),
            PackedBasis::GeneralSpinfulFermion(part) => part.spec_preserves_on_sites(
                operator,
                sites,
            ),
            PackedBasis::User(part) => part.spec_preserves_on_sites(operator, sites),
            PackedBasis::Tensor(tensor) => {
                let parts = pieces(operator);
                let factors = tensor.spec_factors();
                if parts.len() != factors.len() {
                    Err(
                        QmbedError::InvalidOperator(
                            OperatorFault::Factors {
                                found: parts.len() as usize,
                                expected: factors.len() as usize,
                            },
                        ),
                    )
                } else if sites.len() != symbols_before(parts, parts.len()) {
                    Err(
                        QmbedError::InvalidCoupling(
                            Reason::Text("tensor operator arity does not match its sites"),
                        ),
                    )
                } else {
                    factors_preserve_on(factors, parts, sites, factors.len())
                }
            },
            PackedBasis::Photon(_) => self.preserves(operator),
            PackedBasis::Reversed(inner) => inner.preserves_on(operator, sites),
        }
    }
}

proof fn lemma_preserve_on_ends<
    A: LocalAlgebra<u128, Gaussian>,
    L: SymmetryMap<u128, Factor = Turn>,
    M: SymmetryMap<u128, Factor = Turn>,
>(
    factors: Seq<PackedBasis<A, L, M>>,
    parts: Seq<Seq<char>>,
    sites: Seq<usize>,
    count: nat,
    later: nat,
)
    requires
        count <= later <= factors.len(),
        factors_preserve_on(factors, parts, sites, count) != Ok::<bool, QmbedError>(true),
    ensures
        factors_preserve_on(factors, parts, sites, later) == factors_preserve_on(
            factors,
            parts,
            sites,
            count,
        ),
    decreases later,
{
    if count < later {
        lemma_preserve_on_ends(factors, parts, sites, count, (later - 1) as nat);
    }
}

proof fn lemma_preserve_ends<
    A: LocalAlgebra<u128, Gaussian>,
    L: SymmetryMap<u128, Factor = Turn>,
    M: SymmetryMap<u128, Factor = Turn>,
>(
    factors: Seq<PackedBasis<A, L, M>>,
    parts: Seq<Seq<char>>,
    count: nat,
    later: nat,
)
    requires
        count <= later <= factors.len(),
        factors_preserve(factors, parts, count) != Ok::<bool, QmbedError>(true),
    ensures
        factors_preserve(factors, parts, later) == factors_preserve(factors, parts, count),
    decreases later,
{
    if count < later {
        lemma_preserve_ends(factors, parts, count, (later - 1) as nat);
    }
}

impl<
    A: LocalAlgebra<u128, Gaussian>,
    L: SymmetryMap<u128, Factor = Turn>,
    M: SymmetryMap<u128, Factor = Turn>,
> PackedTensorBasis<A, L, M> {
    /// Whether a local operator string keeps the particle sectors of all factors.
    fn check_preserves(&self, operator: &str) -> (result: Result<bool>)
        requires
            self.valid(),
            operator@.len() < i32::MAX,
        ensures
            result == PackedBasis::Tensor(Box::new(*self)).preserves(operator@),
        decreases *self, 1nat,
    {
        let text: Vec<char> = characters(operator);
        let bounds: Vec<(usize, usize)> = piece_bounds(&text);
        let ghost parts = pieces(operator@);
        let count: usize = self.factors.len();
        if bounds.len() != count {
            return Err(
                QmbedError::InvalidOperator(
                    OperatorFault::Factors { found: bounds.len(), expected: count },
                ),
            );
        }
        let mut next: usize = 0;
        while next < count
            invariant
                next <= count == bounds@.len(),
                count == self.spec_factors().len(),
                self.valid(),
                text@ == operator@,
                operator@.len() < i32::MAX,
                parts == pieces(operator@),
                parts.len() == count,
                forall|k: int|
                    0 <= k < bounds@.len() ==> (#[trigger] bounds@[k]).0 <= bounds@[k].1
                        && bounds@[k].1 <= text@.len() && parts[k] == text@.subrange(
                        bounds@[k].0 as int,
                        bounds@[k].1 as int,
                    ),
                factors_preserve(self.spec_factors(), parts, next as nat) == Ok::<
                    bool,
                    QmbedError,
                >(true),
            decreases count - next,
        {
            let (from, to) = bounds[next];
            assert(self.spec_factors()[next as int].ready());
            let kept: Result<bool> = self.factors[next].check_preserves(
                operator.substring_char(from, to),
            );
            match kept {
                Ok(true) => {},
                other => {
                    proof {
                        lemma_preserve_ends(
                            self.spec_factors(),
                            parts,
                            (next + 1) as nat,
                            count as nat,
                        );
                    }
                    return other;
                },
            }
            next += 1;
        }
        Ok(true)
    }
}

impl<
    A: LocalAlgebra<u128, Gaussian>,
    L: SymmetryMap<u128, Factor = Turn>,
    M: SymmetryMap<u128, Factor = Turn>,
> PackedTensorBasis<A, L, M> {
    /// Whether a local operator string on given sites keeps the particle sectors of all factors.
    fn check_preserves_on(&self, operator: &str, sites: &[usize]) -> (result: Result<bool>)
        requires
            self.valid(),
            operator@.len() < i32::MAX,
        ensures
            result == PackedBasis::Tensor(Box::new(*self)).preserves_on(operator@, sites@),
        decreases *self, 1nat,
    {
        let text: Vec<char> = characters(operator);
        let bounds: Vec<(usize, usize)> = piece_bounds(&text);
        let ghost parts = pieces(operator@);
        let count: usize = self.factors.len();
        if bounds.len() != count {
            return Err(
                QmbedError::InvalidOperator(
                    OperatorFault::Factors { found: bounds.len(), expected: count },
                ),
            );
        }
        let mut arity: usize = 0;
        let mut counted: usize = 0;
        let length: usize = text.len();
        proof {
            lemma_pieces_length(operator@);
        }
        while counted < count
            invariant
                counted <= count == bounds@.len(),
                parts.len() == count,
                parts == pieces(operator@),
                text@ == operator@,
                length == text@.len(),
                arity == symbols_before(parts, counted as nat),
                arity <= text@.len(),
                symbols_before(parts, count as nat) <= text@.len(),
                forall|k: int|
                    0 <= k < bounds@.len() ==> (#[trigger] bounds@[k]).0 <= bounds@[k].1
                        && bounds@[k].1 <= text@.len() && parts[k] == text@.subrange(
                        bounds@[k].0 as int,
                        bounds@[k].1 as int,
                    ),
            decreases count - counted,
        {
            proof {
                lemma_symbols_before(parts, (counted + 1) as nat, count as nat);
            }
            assert(parts[counted as int].len() == bounds@[counted as int].1
                - bounds@[counted as int].0);
            arity = arity + (bounds[counted].1 - bounds[counted].0);
            counted += 1;
        }
        if sites.len() != arity {
            return Err(
                QmbedError::InvalidCoupling(
                    Reason::Text("tensor operator arity does not match its sites"),
                ),
            );
        }
        let given: usize = sites.len();
        let mut start: usize = 0;
        let mut next: usize = 0;
        while next < count
            invariant
                next <= count == bounds@.len(),
                count == self.spec_factors().len(),
                self.valid(),
                text@ == operator@,
                given == sites@.len(),
                sites@.len() == symbols_before(parts, count as nat),
                start == symbols_before(parts, next as nat),
                operator@.len() < i32::MAX,
                parts == pieces(operator@),
                parts.len() == count,
                forall|k: int|
                    0 <= k < bounds@.len() ==> (#[trigger] bounds@[k]).0 <= bounds@[k].1
                        && bounds@[k].1 <= text@.len() && parts[k] == text@.subrange(
                        bounds@[k].0 as int,
                        bounds@[k].1 as int,
                    ),
                factors_preserve_on(self.spec_factors(), parts, sites@, next as nat) == Ok::<
                    bool,
                    QmbedError,
                >(true),
            decreases count - next,
        {
            let (from, to) = bounds[next];
            assert(self.spec_factors()[next as int].ready());
            proof {
                lemma_symbols_before(parts, (next + 1) as nat, count as nat);
            }
            let width: usize = to - from;
            let kept: Result<bool> = self.factors[next].check_preserves_on(
                operator.substring_char(from, to),
                slice_subrange(sites, start, start + width),
            );
            match kept {
                Ok(true) => {},
                other => {
                    proof {
                        lemma_preserve_on_ends(
                            self.spec_factors(),
                            parts,
                            sites@,
                            (next + 1) as nat,
                            count as nat,
                        );
                    }
                    return other;
                },
            }
            start = start + width;
            next += 1;
        }
        Ok(true)
    }
}

impl<
    A: LocalAlgebra<u128, Gaussian>,
    L: SymmetryMap<u128, Factor = Turn>,
    M: SymmetryMap<u128, Factor = Turn>,
> PackedBasis<A, L, M> {
    /// Whether a local operator string on given sites keeps the particle sectors of the basis.
    fn check_preserves_on(&self, operator: &str, sites: &[usize]) -> (result: Result<bool>)
        requires
            self.ready(),
            operator@.len() < i32::MAX,
        ensures
            result == self.preserves_on(operator@, sites@),
        decreases *self, 2nat,
    {
        match self {
            PackedBasis::Spin(part) => part.operator_preserves_particle_sector_on_sites(
                operator,
                sites,
            ),
            PackedBasis::Boson(part) => part.operator_preserves_particle_sector_on_sites(
                operator,
                sites,
            ),
            PackedBasis::SpinlessFermion(part) => part.operator_preserves_particle_sector_on_sites(
                operator,
                sites,
            ),
            PackedBasis::SpinfulFermion(part) => part.operator_preserves_particle_sector_on_sites(
                operator,
                sites,
            ),
            PackedBasis::GeneralSpin(part) => part.operator_preserves_particle_sector_on_sites(
                operator,
                sites,
            ),
            PackedBasis::GeneralBoson(part) => part.operator_preserves_particle_sector_on_sites(
                operator,
                sites,
            ),
            PackedBasis::GeneralSpinlessFermion(part) => part.operator_preserves_particle_sector_on_sites(
                operator,
                sites,
            ),
            PackedBasis::GeneralSpinfulFermion(part) => part.operator_preserves_particle_sector_on_sites(
                operator,
                sites,
            ),
            PackedBasis::User(part) => part.operator_preserves_particle_sector_on_sites(
                operator,
                sites,
            ),
            PackedBasis::Tensor(tensor) => tensor.check_preserves_on(operator, sites),
            PackedBasis::Photon(_) => self.check_preserves(operator),
            PackedBasis::Reversed(inner) => inner.check_preserves_on(operator, sites),
        }
    }
}

impl<
    A: LocalAlgebra<u128, Gaussian>,
    L: SymmetryMap<u128, Factor = Turn>,
    M: SymmetryMap<u128, Factor = Turn>,
> PackedBasis<A, L, M> {
    /// Whether a local operator string keeps the particle sectors of the basis.
    fn check_preserves(&self, operator: &str) -> (result: Result<bool>)
        requires
            self.ready(),
            operator@.len() < i32::MAX,
        ensures
            result == self.preserves(operator@),
        decreases *self, 2nat,
    {
        match self {
            PackedBasis::Spin(part) => part.operator_preserves_particle_sector(operator),
            PackedBasis::Boson(part) => part.operator_preserves_particle_sector(operator),
            PackedBasis::SpinlessFermion(part) => part.operator_preserves_particle_sector(operator),
            PackedBasis::SpinfulFermion(part) => part.operator_preserves_particle_sector(operator),
            PackedBasis::GeneralSpin(part) => part.operator_preserves_particle_sector(operator),
            PackedBasis::GeneralBoson(part) => part.operator_preserves_particle_sector(operator),
            PackedBasis::GeneralSpinlessFermion(part) => part.operator_preserves_particle_sector(
                operator,
            ),
            PackedBasis::GeneralSpinfulFermion(part) => part.operator_preserves_particle_sector(
                operator,
            ),
            PackedBasis::User(part) => part.operator_preserves_particle_sector(
                operator,
            ),
            PackedBasis::Tensor(tensor) => tensor.check_preserves(operator),
            PackedBasis::Photon(product) => {
                let bounds: Vec<(usize, usize)> = piece_bounds(&characters(operator));
                if bounds.len() != 2 {
                    return Err(QmbedError::InvalidOperator(OperatorFault::Whole));
                }
                operator_keeps_number(product.total_excitations.is_some(), operator)
            },
            PackedBasis::Reversed(inner) => inner.check_preserves(operator),
        }
    }

    /// Whether labels are known to tell the states apart.
    pub open spec fn tells_apart(self) -> bool
        decreases self,
    {
        match self {
            PackedBasis::Spin(part) => part.faithful(),
            PackedBasis::Boson(part) => part.faithful(),
            PackedBasis::SpinlessFermion(part) => part.faithful(),
            PackedBasis::SpinfulFermion(part) => part.faithful(),
            PackedBasis::GeneralSpin(part) => part.faithful(),
            PackedBasis::GeneralBoson(part) => part.faithful(),
            PackedBasis::GeneralSpinlessFermion(part) => part.faithful(),
            PackedBasis::GeneralSpinfulFermion(part) => part.faithful(),
            PackedBasis::User(part) => part.faithful(),
            PackedBasis::Tensor(_) => true,
            PackedBasis::Photon(_) => true,
            PackedBasis::Reversed(inner) => inner.tells_apart(),
        }
    }

    proof fn lemma_tells_apart(self)
        requires
            self.ready(),
            self.tells_apart(),
        ensures
            self.rows().no_duplicates(),
        decreases self,
    {
        match self {
            PackedBasis::Spin(part) => {
                part.states_distinct();
            },
            PackedBasis::Boson(part) => {
                part.states_distinct();
            },
            PackedBasis::SpinlessFermion(part) => {
                part.states_distinct();
            },
            PackedBasis::SpinfulFermion(part) => {
                part.states_distinct();
            },
            PackedBasis::GeneralSpin(part) => {
                part.states_distinct();
            },
            PackedBasis::GeneralBoson(part) => {
                part.states_distinct();
            },
            PackedBasis::GeneralSpinlessFermion(part) => {
                part.states_distinct();
            },
            PackedBasis::GeneralSpinfulFermion(part) => {
                part.states_distinct();
            },
            PackedBasis::User(part) => {
                part.states_distinct();
            },
            PackedBasis::Tensor(_) => {},
            PackedBasis::Photon(_) => {},
            PackedBasis::Reversed(inner) => {
                inner.lemma_tells_apart();
                let rows = self.rows();
                assert forall|i: int, j: int|
                    0 <= i < rows.len() && 0 <= j < rows.len() && i != j implies rows[i]
                    != rows[j] by {
                    let last = inner.rows().len() - 1;
                    assert(inner.rows()[last - i] != inner.rows()[last - j]);
                }
            },
        }
    }

    /// The only destination of a local operator string.
    pub fn apply_local(&self, state: u128, operator: &str, sites: &[usize]) -> (result: Result<
        Option<(u128, Vec<Factor<PackedPhase>>)>,
    >)
        requires
            self.ready(),
            self.acts(state),
        ensures
            basis::transition_is(
                result,
                basis::single_transition(
                    self.moves(state, operator@, sites@),
                    QmbedError::UnsupportedBackend(
                        Reason::Text("this local action branches; use apply_local_transitions"),
                    ),
                ),
            ),
    {
        match self.local_moves(state, operator, sites) {
            Ok(transitions) => basis::only_transition(
                transitions,
                QmbedError::UnsupportedBackend(
                    Reason::Text("this local action branches; use apply_local_transitions"),
                ),
            ),
            Err(error) => Err(error),
        }
    }
}

impl<
    A: LocalAlgebra<u128, Gaussian>,
    L: SymmetryMap<u128, Factor = Turn>,
    M: SymmetryMap<u128, Factor = Turn>,
> Basis for PackedBasis<A, L, M> {
    type State = u128;

    type Phase = PackedPhase;

    open spec fn wf(&self) -> bool {
        self.ready()
    }

    open spec fn spec_states(&self) -> Seq<u128> {
        self.rows()
    }

    open spec fn acts_on(&self, state: u128) -> bool {
        self.acts(state)
    }

    open spec fn spec_transitions(
        &self,
        state: u128,
        operator: Seq<char>,
        sites: Seq<usize>,
    ) -> core::result::Result<Seq<(u128, Seq<Factor<PackedPhase>>)>, QmbedError> {
        self.moves(state, operator, sites)
    }

    open spec fn spec_preserves(&self, operator: Seq<char>) -> core::result::Result<
        bool,
        QmbedError,
    > {
        self.preserves(operator)
    }

    open spec fn spec_preserves_on_sites(
        &self,
        operator: Seq<char>,
        sites: Seq<usize>,
    ) -> core::result::Result<bool, QmbedError> {
        self.preserves_on(operator, sites)
    }

    open spec fn faithful(&self) -> bool {
        self.tells_apart()
    }

    proof fn states_distinct(&self) {
        self.lemma_tells_apart();
    }

    proof fn acts_on_states(&self, index: int) {
        self.lemma_acts(index);
    }

    fn len(&self) -> (length: usize) {
        self.length()
    }

    fn state(&self, index: usize) -> (result: Result<u128>) {
        self.state_at(index)
    }

    fn index(&self, state: u128) -> (result: Result<usize>) {
        self.row_of(state)
    }

    fn apply_local_transitions(&self, state: u128, operator: &str, sites: &[usize]) -> (result:
        Result<Transitions<u128, PackedPhase>>) {
        self.local_moves(state, operator, sites)
    }

    fn operator_preserves_particle_sector_on_sites(
        &self,
        operator: &str,
        sites: &[usize],
    ) -> (result: Result<bool>) {
        self.check_preserves_on(operator, sites)
    }

    fn operator_preserves_particle_sector(&self, operator: &str) -> (result: Result<bool>) {
        self.check_preserves(operator)
    }
}

/// The image of a product with an occupation, from that of its matter part.
pub open spec fn product_image<
    A: LocalAlgebra<u128, Gaussian>,
    L: SymmetryMap<u128, Factor = Turn>,
    M: SymmetryMap<u128, Factor = Turn>,
>(
    product: PackedPhotonBasis<A, L, M>,
    occupation: int,
    matter: core::result::Result<Option<(u128, Turn, usize)>, QmbedError>,
) -> core::result::Result<Option<(u128, Turn, usize)>, QmbedError> {
    match matter {
        Err(error) => Err(error),
        Ok(None) => Ok(None),
        Ok(Some((representative, phase, orbit_size))) => match product.spec_matter().row_number(
            representative,
        ) {
            None => Ok(None),
            Some(row) => {
                let code = encoded(row, occupation, product.spec_photon_dimension());
                if product.spec_row(code) is None {
                    Ok(None)
                } else if orbit_size == 0 {
                    Err(
                        QmbedError::InternalState(
                            "a reduction image requires a positive orbit and finite phase",
                        ),
                    )
                } else {
                    Ok(Some((code, phase, orbit_size)))
                }
            },
        },
    }
}

impl<
    A: LocalAlgebra<u128, Gaussian>,
    L: SymmetryMap<u128, Factor = Turn>,
    M: SymmetryMap<u128, Factor = Turn>,
> PackedBasis<A, L, M> {
    /// Destinations of a local operator string that no symmetry has replaced.
    pub open spec fn unreduced_moves(
        self,
        state: u128,
        operator: Seq<char>,
        sites: Seq<usize>,
    ) -> core::result::Result<Seq<(u128, Seq<Factor<PackedPhase>>)>, QmbedError>
        decreases self,
    {
        match self {
            PackedBasis::Spin(part) => widened(part.spec_unreduced(state, operator, sites)),
            PackedBasis::Boson(part) => widened(part.spec_unreduced(state, operator, sites)),
            PackedBasis::SpinlessFermion(part) => widened(part.spec_unreduced(state, operator, sites)),
            PackedBasis::SpinfulFermion(part) => widened(part.spec_unreduced(state, operator, sites)),
            PackedBasis::GeneralSpin(part) => part.spec_unreduced(state, operator, sites),
            PackedBasis::GeneralBoson(part) => part.spec_unreduced(state, operator, sites),
            PackedBasis::GeneralSpinlessFermion(part) => part.spec_unreduced(state, operator, sites),
            PackedBasis::GeneralSpinfulFermion(part) => part.spec_unreduced(state, operator, sites),
            PackedBasis::User(part) => part.spec_unreduced(state, operator, sites),
            PackedBasis::Tensor(_) => self.moves(state, operator, sites),
            PackedBasis::Photon(product) => product.raw_moves(state, operator, sites),
            PackedBasis::Reversed(inner) => inner.unreduced_moves(state, operator, sites),
        }
    }

    /// Representative, phase and orbit size of a physical state, if the basis holds its orbit.
    pub open spec fn image(self, state: u128) -> core::result::Result<
        Option<(u128, Turn, usize)>,
        QmbedError,
    >
        decreases self,
    {
        match self {
            PackedBasis::Spin(part) => part.spec_reduction(state),
            PackedBasis::Boson(part) => part.spec_reduction(state),
            PackedBasis::SpinlessFermion(part) => part.spec_reduction(state),
            PackedBasis::SpinfulFermion(part) => part.spec_reduction(state),
            PackedBasis::GeneralSpin(part) => part.spec_reduction(state),
            PackedBasis::GeneralBoson(part) => part.spec_reduction(state),
            PackedBasis::GeneralSpinlessFermion(part) => part.spec_reduction(state),
            PackedBasis::GeneralSpinfulFermion(part) => part.spec_reduction(state),
            PackedBasis::User(part) => part.spec_reduction(state),
            PackedBasis::Tensor(tensor) => if state < tensor.spec_dimension() {
                Ok(Some((state, Turn { steps: 0, circle: 1 }, 1)))
            } else {
                Ok(None)
            },
            PackedBasis::Photon(product) => {
                let occupation = product.occupation(state);
                match product.matter_state(state) {
                    None => Ok(None),
                    Some(matter_state) => match product.spec_matter().quantum_number(matter_state) {
                        Err(error) => if error == QmbedError::StateNotInBasis {
                            Ok(None)
                        } else {
                            Err(error)
                        },
                        Ok(number) => if !makes_up(product.spec_total(), number, occupation) {
                            Ok(None)
                        } else {
                            product_image(
                                *product,
                                occupation,
                                product.spec_matter().image(matter_state),
                            )
                        },
                    },
                }
            },
            PackedBasis::Reversed(inner) => inner.image(state),
        }
    }

    /// Size of the orbit of a row.
    pub open spec fn orbit_size(self, state: u128) -> core::result::Result<usize, QmbedError>
        decreases self,
    {
        match self {
            PackedBasis::Spin(part) => part.spec_orbit_size(state),
            PackedBasis::Boson(part) => part.spec_orbit_size(state),
            PackedBasis::SpinlessFermion(part) => part.spec_orbit_size(state),
            PackedBasis::SpinfulFermion(part) => part.spec_orbit_size(state),
            PackedBasis::GeneralSpin(part) => part.spec_orbit_size(state),
            PackedBasis::GeneralBoson(part) => part.spec_orbit_size(state),
            PackedBasis::GeneralSpinlessFermion(part) => part.spec_orbit_size(state),
            PackedBasis::GeneralSpinfulFermion(part) => part.spec_orbit_size(state),
            PackedBasis::User(part) => part.spec_orbit_size(state),
            PackedBasis::Tensor(_) => Ok(1),
            PackedBasis::Photon(product) => match product.matter_state(state) {
                Some(matter_state) => product.spec_matter().orbit_size(matter_state),
                None => Err(QmbedError::StateNotInBasis),
            },
            PackedBasis::Reversed(inner) => inner.orbit_size(state),
        }
    }

    fn find_unreduced(&self, state: u128, operator: &str, sites: &[usize]) -> (result: Result<
        Transitions<u128, PackedPhase>,
    >)
        requires
            self.ready(),
            self.acts(state),
        ensures
            basis::transitions_are(result, self.unreduced_moves(state, operator@, sites@)),
        decreases *self,
    {
        match self {
            PackedBasis::Spin(part) => widen(
                part.apply_local_unreduced_transitions(state, operator, sites),
            ),
            PackedBasis::Boson(part) => widen(
                part.apply_local_unreduced_transitions(state, operator, sites),
            ),
            PackedBasis::SpinlessFermion(part) => widen(
                part.apply_local_unreduced_transitions(state, operator, sites),
            ),
            PackedBasis::SpinfulFermion(part) => widen(
                part.apply_local_unreduced_transitions(state, operator, sites),
            ),
            PackedBasis::GeneralSpin(part) => part.apply_local_unreduced_transitions(
                state,
                operator,
                sites,
            ),
            PackedBasis::GeneralBoson(part) => part.apply_local_unreduced_transitions(
                state,
                operator,
                sites,
            ),
            PackedBasis::GeneralSpinlessFermion(part) => part.apply_local_unreduced_transitions(
                state,
                operator,
                sites,
            ),
            PackedBasis::GeneralSpinfulFermion(part) => part.apply_local_unreduced_transitions(
                state,
                operator,
                sites,
            ),
            PackedBasis::User(part) => part.apply_local_unreduced_transitions(
                state,
                operator,
                sites,
            ),
            PackedBasis::Tensor(_) => self.local_moves(state, operator, sites),
            PackedBasis::Photon(product) => product.raw_local_transitions(state, operator, sites),
            PackedBasis::Reversed(inner) => inner.find_unreduced(state, operator, sites),
        }
    }

    fn find_image(&self, state: u128) -> (result: Result<Option<ReductionImage<u128, Turn>>>)
        requires
            self.ready(),
        ensures
            reduction::image_is(result, self.image(state)),
        decreases *self,
    {
        match self {
            PackedBasis::Spin(part) => part.reduction_image(state),
            PackedBasis::Boson(part) => part.reduction_image(state),
            PackedBasis::SpinlessFermion(part) => part.reduction_image(state),
            PackedBasis::SpinfulFermion(part) => part.reduction_image(state),
            PackedBasis::GeneralSpin(part) => part.reduction_image(state),
            PackedBasis::GeneralBoson(part) => part.reduction_image(state),
            PackedBasis::GeneralSpinlessFermion(part) => part.reduction_image(state),
            PackedBasis::GeneralSpinfulFermion(part) => part.reduction_image(state),
            PackedBasis::User(part) => part.reduction_image(state),
            PackedBasis::Tensor(tensor) => if state < tensor.dimension as u128 {
                match ReductionImage::new(state, Turn { steps: 0, circle: 1 }, 1) {
                    Ok(image) => Ok(Some(image)),
                    Err(error) => Err(error),
                }
            } else {
                Ok(None)
            },
            PackedBasis::Photon(product) => {
                let (matter_state, occupation) = product.product_state(state);
                let matter_state: u128 = match matter_state {
                    Some(matter_state) => matter_state,
                    None => {
                        return Ok(None);
                    },
                };
                let number: usize = match product.matter.additive_quantum_number(matter_state) {
                    Ok(number) => number,
                    Err(QmbedError::StateNotInBasis) => {
                        return Ok(None);
                    },
                    Err(error) => {
                        return Err(error);
                    },
                };
                if let Some(total) = product.total_excitations {
                    if number.checked_add(occupation) != Some(total) {
                        return Ok(None);
                    }
                }
                match product.matter.find_image(matter_state) {
                    Err(error) => Err(error),
                    Ok(None) => Ok(None),
                    Ok(Some(image)) => match product.matter.row_of(*image.representative()) {
                        Err(_) => Ok(None),
                        Ok(row) => {
                            proof {
                                lemma_row_fits(
                                    row as nat,
                                    product.matter.rows().len(),
                                    product.photon_dimension,
                                );
                            }
                            let code: u128 = encode_product_state(
                                row,
                                occupation,
                                product.photon_dimension,
                            );
                            if product.indices.get(code).is_none() {
                                Ok(None)
                            } else {
                                match ReductionImage::new(
                                    code,
                                    image.phase(),
                                    image.orbit_size(),
                                ) {
                                    Ok(found) => Ok(Some(found)),
                                    Err(error) => Err(error),
                                }
                            }
                        },
                    },
                }
            },
            PackedBasis::Reversed(inner) => inner.find_image(state),
        }
    }

    fn find_orbit_size(&self, state: u128) -> (result: Result<usize>)
        requires
            self.ready(),
        ensures
            result == self.orbit_size(state),
        decreases *self,
    {
        match self {
            PackedBasis::Spin(part) => part.transition_orbit_size(state),
            PackedBasis::Boson(part) => part.transition_orbit_size(state),
            PackedBasis::SpinlessFermion(part) => part.transition_orbit_size(state),
            PackedBasis::SpinfulFermion(part) => part.transition_orbit_size(state),
            PackedBasis::GeneralSpin(part) => part.transition_orbit_size(state),
            PackedBasis::GeneralBoson(part) => part.transition_orbit_size(state),
            PackedBasis::GeneralSpinlessFermion(part) => part.transition_orbit_size(state),
            PackedBasis::GeneralSpinfulFermion(part) => part.transition_orbit_size(state),
            PackedBasis::User(part) => part.transition_orbit_size(state),
            PackedBasis::Tensor(_) => Ok(1),
            PackedBasis::Photon(product) => match product.product_state(state).0 {
                Some(matter_state) => product.matter.find_orbit_size(matter_state),
                None => Err(QmbedError::StateNotInBasis),
            },
            PackedBasis::Reversed(inner) => inner.find_orbit_size(state),
        }
    }
}

impl<
    A: LocalAlgebra<u128, Gaussian>,
    L: SymmetryMap<u128, Factor = Turn>,
    M: SymmetryMap<u128, Factor = Turn>,
> Physical for PackedBasis<A, L, M> {
    open spec fn spec_unreduced(&self, state: u128, operator: Seq<char>, sites: Seq<usize>) -> core::result::Result<
        Seq<(u128, Seq<Factor<PackedPhase>>)>,
        QmbedError,
    > {
        self.unreduced_moves(state, operator, sites)
    }

    fn apply_local_unreduced_transitions(&self, state: u128, operator: &str, sites: &[usize]) -> (
        result: Result<Transitions<u128, PackedPhase>>) {
        self.find_unreduced(state, operator, sites)
    }
}

impl<
    A: LocalAlgebra<u128, Gaussian>,
    L: SymmetryMap<u128, Factor = Turn>,
    M: SymmetryMap<u128, Factor = Turn>,
> Reduction for PackedBasis<A, L, M> {
    type Turned = Turn;

    open spec fn spec_reduction(&self, state: u128) -> core::result::Result<
        Option<(u128, Turn, usize)>,
        QmbedError,
    > {
        self.image(state)
    }

    fn reduction_image(&self, state: u128) -> (result: Result<Option<ReductionImage<u128, Turn>>>) {
        self.find_image(state)
    }

    open spec fn spec_orbit_size(&self, state: u128) -> core::result::Result<usize, QmbedError> {
        self.orbit_size(state)
    }

    fn transition_orbit_size(&self, state: u128) -> (result: Result<usize>) {
        self.find_orbit_size(state)
    }
}

impl<
    A: LocalAlgebra<u128, Gaussian>,
    L: SymmetryMap<u128, Factor = Turn>,
    M: SymmetryMap<u128, Factor = Turn>,
> From<SpinBasis1D> for PackedBasis<A, L, M> {
    fn from(part: SpinBasis1D) -> (basis: Self) {
        PackedBasis::Spin(part)
    }
}

impl<
    A: LocalAlgebra<u128, Gaussian>,
    L: SymmetryMap<u128, Factor = Turn>,
    M: SymmetryMap<u128, Factor = Turn>,
> vstd::std_specs::convert::FromSpecImpl<SpinBasis1D> for PackedBasis<A, L, M> {
    open spec fn obeys_from_spec() -> bool {
        true
    }

    open spec fn from_spec(part: SpinBasis1D) -> Self {
        PackedBasis::Spin(part)
    }
}

impl<
    A: LocalAlgebra<u128, Gaussian>,
    L: SymmetryMap<u128, Factor = Turn>,
    M: SymmetryMap<u128, Factor = Turn>,
> From<BosonBasis1D> for PackedBasis<A, L, M> {
    fn from(part: BosonBasis1D) -> (basis: Self) {
        PackedBasis::Boson(part)
    }
}

impl<
    A: LocalAlgebra<u128, Gaussian>,
    L: SymmetryMap<u128, Factor = Turn>,
    M: SymmetryMap<u128, Factor = Turn>,
> vstd::std_specs::convert::FromSpecImpl<BosonBasis1D> for PackedBasis<A, L, M> {
    open spec fn obeys_from_spec() -> bool {
        true
    }

    open spec fn from_spec(part: BosonBasis1D) -> Self {
        PackedBasis::Boson(part)
    }
}

impl<
    A: LocalAlgebra<u128, Gaussian>,
    L: SymmetryMap<u128, Factor = Turn>,
    M: SymmetryMap<u128, Factor = Turn>,
> From<SpinlessFermionBasis1D> for PackedBasis<A, L, M> {
    fn from(part: SpinlessFermionBasis1D) -> (basis: Self) {
        PackedBasis::SpinlessFermion(part)
    }
}

impl<
    A: LocalAlgebra<u128, Gaussian>,
    L: SymmetryMap<u128, Factor = Turn>,
    M: SymmetryMap<u128, Factor = Turn>,
> vstd::std_specs::convert::FromSpecImpl<SpinlessFermionBasis1D> for PackedBasis<A, L, M> {
    open spec fn obeys_from_spec() -> bool {
        true
    }

    open spec fn from_spec(part: SpinlessFermionBasis1D) -> Self {
        PackedBasis::SpinlessFermion(part)
    }
}

impl<
    A: LocalAlgebra<u128, Gaussian>,
    L: SymmetryMap<u128, Factor = Turn>,
    M: SymmetryMap<u128, Factor = Turn>,
> From<SpinfulFermionBasis1D> for PackedBasis<A, L, M> {
    fn from(part: SpinfulFermionBasis1D) -> (basis: Self) {
        PackedBasis::SpinfulFermion(part)
    }
}

impl<
    A: LocalAlgebra<u128, Gaussian>,
    L: SymmetryMap<u128, Factor = Turn>,
    M: SymmetryMap<u128, Factor = Turn>,
> vstd::std_specs::convert::FromSpecImpl<SpinfulFermionBasis1D> for PackedBasis<A, L, M> {
    open spec fn obeys_from_spec() -> bool {
        true
    }

    open spec fn from_spec(part: SpinfulFermionBasis1D) -> Self {
        PackedBasis::SpinfulFermion(part)
    }
}

impl<
    A: LocalAlgebra<u128, Gaussian>,
    L: SymmetryMap<u128, Factor = Turn>,
    M: SymmetryMap<u128, Factor = Turn>,
> From<SpinBasisGeneral<L>> for PackedBasis<A, L, M> {
    fn from(part: SpinBasisGeneral<L>) -> (basis: Self) {
        PackedBasis::GeneralSpin(part)
    }
}

impl<
    A: LocalAlgebra<u128, Gaussian>,
    L: SymmetryMap<u128, Factor = Turn>,
    M: SymmetryMap<u128, Factor = Turn>,
> vstd::std_specs::convert::FromSpecImpl<SpinBasisGeneral<L>> for PackedBasis<A, L, M> {
    open spec fn obeys_from_spec() -> bool {
        true
    }

    open spec fn from_spec(part: SpinBasisGeneral<L>) -> Self {
        PackedBasis::GeneralSpin(part)
    }
}

impl<
    A: LocalAlgebra<u128, Gaussian>,
    L: SymmetryMap<u128, Factor = Turn>,
    M: SymmetryMap<u128, Factor = Turn>,
> From<BosonBasisGeneral<L>> for PackedBasis<A, L, M> {
    fn from(part: BosonBasisGeneral<L>) -> (basis: Self) {
        PackedBasis::GeneralBoson(part)
    }
}

impl<
    A: LocalAlgebra<u128, Gaussian>,
    L: SymmetryMap<u128, Factor = Turn>,
    M: SymmetryMap<u128, Factor = Turn>,
> vstd::std_specs::convert::FromSpecImpl<BosonBasisGeneral<L>> for PackedBasis<A, L, M> {
    open spec fn obeys_from_spec() -> bool {
        true
    }

    open spec fn from_spec(part: BosonBasisGeneral<L>) -> Self {
        PackedBasis::GeneralBoson(part)
    }
}

impl<
    A: LocalAlgebra<u128, Gaussian>,
    L: SymmetryMap<u128, Factor = Turn>,
    M: SymmetryMap<u128, Factor = Turn>,
> From<SpinlessFermionBasisGeneral<L>> for PackedBasis<A, L, M> {
    fn from(part: SpinlessFermionBasisGeneral<L>) -> (basis: Self) {
        PackedBasis::GeneralSpinlessFermion(part)
    }
}

impl<
    A: LocalAlgebra<u128, Gaussian>,
    L: SymmetryMap<u128, Factor = Turn>,
    M: SymmetryMap<u128, Factor = Turn>,
> vstd::std_specs::convert::FromSpecImpl<SpinlessFermionBasisGeneral<L>> for PackedBasis<A, L, M> {
    open spec fn obeys_from_spec() -> bool {
        true
    }

    open spec fn from_spec(part: SpinlessFermionBasisGeneral<L>) -> Self {
        PackedBasis::GeneralSpinlessFermion(part)
    }
}

impl<
    A: LocalAlgebra<u128, Gaussian>,
    L: SymmetryMap<u128, Factor = Turn>,
    M: SymmetryMap<u128, Factor = Turn>,
> From<SpinfulFermionBasisGeneral<L>> for PackedBasis<A, L, M> {
    fn from(part: SpinfulFermionBasisGeneral<L>) -> (basis: Self) {
        PackedBasis::GeneralSpinfulFermion(part)
    }
}

impl<
    A: LocalAlgebra<u128, Gaussian>,
    L: SymmetryMap<u128, Factor = Turn>,
    M: SymmetryMap<u128, Factor = Turn>,
> vstd::std_specs::convert::FromSpecImpl<SpinfulFermionBasisGeneral<L>> for PackedBasis<A, L, M> {
    open spec fn obeys_from_spec() -> bool {
        true
    }

    open spec fn from_spec(part: SpinfulFermionBasisGeneral<L>) -> Self {
        PackedBasis::GeneralSpinfulFermion(part)
    }
}

impl<
    A: LocalAlgebra<u128, Gaussian>,
    L: SymmetryMap<u128, Factor = Turn>,
    M: SymmetryMap<u128, Factor = Turn>,
> From<PackedTensorBasis<A, L, M>> for PackedBasis<A, L, M> {
    fn from(part: PackedTensorBasis<A, L, M>) -> (basis: Self) {
        PackedBasis::Tensor(Box::new(part))
    }
}

impl<
    A: LocalAlgebra<u128, Gaussian>,
    L: SymmetryMap<u128, Factor = Turn>,
    M: SymmetryMap<u128, Factor = Turn>,
> vstd::std_specs::convert::FromSpecImpl<PackedTensorBasis<A, L, M>> for PackedBasis<A, L, M> {
    open spec fn obeys_from_spec() -> bool {
        true
    }

    open spec fn from_spec(part: PackedTensorBasis<A, L, M>) -> Self {
        PackedBasis::Tensor(Box::new(part))
    }
}

impl<
    A: LocalAlgebra<u128, Gaussian>,
    L: SymmetryMap<u128, Factor = Turn>,
    M: SymmetryMap<u128, Factor = Turn>,
> From<UserBasisGeneral<A, M>> for PackedBasis<A, L, M> {
    fn from(part: UserBasisGeneral<A, M>) -> (basis: Self) {
        PackedBasis::User(Box::new(part))
    }
}

impl<
    A: LocalAlgebra<u128, Gaussian>,
    L: SymmetryMap<u128, Factor = Turn>,
    M: SymmetryMap<u128, Factor = Turn>,
> vstd::std_specs::convert::FromSpecImpl<UserBasisGeneral<A, M>> for PackedBasis<A, L, M> {
    open spec fn obeys_from_spec() -> bool {
        true
    }

    open spec fn from_spec(part: UserBasisGeneral<A, M>) -> Self {
        PackedBasis::User(Box::new(part))
    }
}

impl<
    A: LocalAlgebra<u128, Gaussian>,
    L: SymmetryMap<u128, Factor = Turn>,
    M: SymmetryMap<u128, Factor = Turn>,
> From<PackedPhotonBasis<A, L, M>> for PackedBasis<A, L, M> {
    fn from(part: PackedPhotonBasis<A, L, M>) -> (basis: Self) {
        PackedBasis::Photon(Box::new(part))
    }
}

impl<
    A: LocalAlgebra<u128, Gaussian>,
    L: SymmetryMap<u128, Factor = Turn>,
    M: SymmetryMap<u128, Factor = Turn>,
> vstd::std_specs::convert::FromSpecImpl<PackedPhotonBasis<A, L, M>> for PackedBasis<A, L, M> {
    open spec fn obeys_from_spec() -> bool {
        true
    }

    open spec fn from_spec(part: PackedPhotonBasis<A, L, M>) -> Self {
        PackedBasis::Photon(Box::new(part))
    }
}

/// Reversing the order of a basis twice gives the order back, and reversing it changes
/// neither a state's number of excitations nor where local operators lead.
pub proof fn law_reversal_is_undone<
    A: LocalAlgebra<u128, Gaussian>,
    L: SymmetryMap<u128, Factor = Turn>,
    M: SymmetryMap<u128, Factor = Turn>,
>(basis: PackedBasis<A, L, M>, state: u128, operator: Seq<char>, sites: Seq<usize>)
    ensures
        basis.opposite().rows() == backwards(basis.rows()),
        basis.opposite().opposite().rows() == basis.rows(),
        basis.opposite().quantum_number(state) == basis.quantum_number(state),
        basis.opposite().moves(state, operator, sites) == basis.moves(state, operator, sites),
        basis.opposite().image(state) == basis.image(state),
{
    assert(backwards(backwards(basis.rows())) =~= basis.rows());
    if let PackedBasis::Reversed(inner) = basis {
        assert(backwards(backwards(inner.rows())) =~= inner.rows());
        assert(backwards(backwards(inner.opposite().rows())) =~= inner.opposite().rows());
    }
}

} // verus!

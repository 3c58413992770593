//! Spinless fermions on a chain.

use vstd::arithmetic::div_mod::*;
use vstd::arithmetic::mul::*;
use vstd::arithmetic::power2::*;
use vstd::prelude::*;

use crate::amplitudes::{LocalFactor, ReductionFactor, Turn};
use crate::basis;
use crate::basis::{Basis, Factor, Transitions};
use crate::bits;
use crate::boson;
use crate::boson::Word;
use crate::digits;
use crate::error::{OperatorFault, QmbedError, Reason, Result};
use crate::lattice;
use crate::lattice_sectors;
use crate::lattice_sectors::{fermion_translation_sector, FermionRing, SymmetrySector};
use crate::orbits;
use crate::orbits::{OrbitAction, OrbitSector, SymmetryImage};
use crate::ordered;
use crate::spin;
use crate::symbols;
use crate::symbols::{operator_chars, SymbolBuffer};
use crate::weights;

verus! {

/// Whether an odd number of occupied orbitals lies before `orbital`.
pub open spec fn odd_before(state: u128, orbital: nat) -> bool {
    bits::ones(state as nat % pow2(orbital)) % 2 == 1
}

/// The sign of passing the occupied orbitals before `orbital`.
pub open spec fn passing_sign(state: u128, orbital: nat) -> i128 {
    if odd_before(state, orbital) {
        -1i128
    } else {
        1
    }
}

/// The state with the occupation of one orbital changed.
pub open spec fn toggled(state: u128, orbital: nat) -> u128 {
    if bits::bit_at(state as nat, orbital) {
        (state - pow2(orbital)) as u128
    } else {
        (state + pow2(orbital)) as u128
    }
}

/// One fermion symbol on one orbital: the new state and the factor, if any.
pub open spec fn fermion_step(state: u128, orbital: nat, symbol: char) -> core::result::Result<
    Option<(u128, LocalFactor)>,
    QmbedError,
> {
    let occupied = bits::bit_at(state as nat, orbital);
    let sign = passing_sign(state, orbital);
    if symbol == 'I' {
        Ok(Some((state, LocalFactor::of_integer(1))))
    } else if symbol == 'n' {
        if occupied {
            Ok(Some((state, LocalFactor::of_integer(1))))
        } else {
            Ok(None)
        }
    } else if symbol == 'z' {
        Ok(
            Some(
                (
                    state,
                    LocalFactor::of_halves(
                        if occupied {
                            1
                        } else {
                            -1i128
                        },
                    ),
                ),
            ),
        )
    } else if symbol == '+' {
        if occupied {
            Ok(None)
        } else {
            Ok(Some((toggled(state, orbital), LocalFactor::of_integer(sign))))
        }
    } else if symbol == '-' {
        if occupied {
            Ok(Some((toggled(state, orbital), LocalFactor::of_integer(sign))))
        } else {
            Ok(None)
        }
    } else if symbol == 'x' {
        Ok(Some((toggled(state, orbital), LocalFactor::of_integer(sign))))
    } else if symbol == 'y' {
        Ok(
            Some(
                (
                    toggled(state, orbital),
                    LocalFactor {
                        numerator: if occupied {
                            (-sign) as i128
                        } else {
                            sign
                        },
                        halved: false,
                        imaginary: true,
                        radicand: 1,
                    },
                ),
            ),
        )
    } else {
        Err(QmbedError::InvalidOperator(OperatorFault::Symbol(symbol)))
    }
}

/// Binary digits as mixed-radix digits.
pub proof fn lemma_bit_is_digit(state: u128, orbital: nat)
    requires
        orbital < 128,
    ensures
        digits::power(2, orbital) == pow2(orbital),
        pow2(orbital) <= u128::MAX,
        bits::bit_at(state as nat, orbital) == (digits::digit(state as nat, 2, orbital) == 1),
        !bits::bit_at(state as nat, orbital) ==> state + pow2(orbital) <= u128::MAX,
        bits::bit_at(state as nat, orbital) ==> pow2(orbital) <= state,
{
    digits::lemma_power_two(orbital);
    digits::lemma_power_two(128);
    bits::lemma_pow2_128();
    bits::lemma_pow2_fits(orbital);
    assert(lattice::packable(state as nat, 128, 2));
    lattice::lemma_block_fits(state as nat, 128, 2);
    lattice::lemma_step_digit(state as nat, orbital, 128, 2);
}

/// Applies one fermion symbol to one orbital.
pub fn apply_fermion(state: u128, orbital: usize, op: char) -> (result: Result<
    Option<(u128, LocalFactor)>,
>)
    requires
        orbital < 128,
    ensures
        result == fermion_step(state, orbital as nat, op),
{
    let ghost e = orbital as nat;
    proof {
        bits::lemma_shl_one(orbital as u32);
        lemma_bit_is_digit(state, e);
        lemma_pow2_pos(e);
    }
    let mask: u128 = 1u128 << orbital;
    let occupied: bool = (state / mask) % 2 == 1;
    let odd: bool = (state % mask).count_ones() % 2 == 1;
    let sign: i128 = if odd {
        -1
    } else {
        1
    };
    let flipped: u128 = if occupied {
        state - mask
    } else {
        state + mask
    };
    if op == 'I' {
        Ok(Some((state, LocalFactor::integer(1))))
    } else if op == 'n' {
        if occupied {
            Ok(Some((state, LocalFactor::integer(1))))
        } else {
            Ok(None)
        }
    } else if op == 'z' {
        let halves: i128 = if occupied {
            1
        } else {
            -1
        };
        Ok(Some((state, LocalFactor::halves(halves))))
    } else if op == '+' {
        if occupied {
            Ok(None)
        } else {
            Ok(Some((flipped, LocalFactor::integer(sign))))
        }
    } else if op == '-' {
        if occupied {
            Ok(Some((flipped, LocalFactor::integer(sign))))
        } else {
            Ok(None)
        }
    } else if op == 'x' {
        Ok(Some((flipped, LocalFactor::integer(sign))))
    } else if op == 'y' {
        let numerator: i128 = if occupied {
            -sign
        } else {
            sign
        };
        Ok(
            Some(
                (flipped, LocalFactor { numerator, halved: false, imaginary: true, radicand: 1 }),
            ),
        )
    } else {
        Err(QmbedError::InvalidOperator(OperatorFault::Symbol(op)))
    }
}

/// Destination of the first `remaining` symbols, applied from the last to the
/// first, with the factors gathered so far in front.
pub open spec fn fermion_word(
    chain_sites: usize,
    state: u128,
    symbols: Seq<char>,
    sites: Seq<usize>,
    remaining: nat,
    amplitude: Seq<LocalFactor>,
) -> Word
    decreases remaining,
{
    if remaining == 0 {
        Ok(Some((state, amplitude)))
    } else {
        let position = (remaining - 1) as nat;
        let site = sites[position as int];
        if site >= chain_sites {
            Err(QmbedError::InvalidSite { site, sites: chain_sites })
        } else {
            match fermion_step(state, site as nat, symbols[position as int]) {
                Err(error) => Err(error),
                Ok(None) => Ok(None),
                Ok(Some(step)) => fermion_word(
                    chain_sites,
                    step.0,
                    symbols,
                    sites,
                    position,
                    amplitude.push(step.1),
                ),
            }
        }
    }
}

/// Destination of a list of symbols.
pub open spec fn fermion_symbol_action(
    chain_sites: usize,
    state: u128,
    symbols: Seq<char>,
    sites: Seq<usize>,
) -> Word {
    if symbols.len() != sites.len() {
        Err(
            QmbedError::InvalidCoupling(Reason::Arity {
                symbols: symbols.len() as usize,
                sites: sites.len() as usize,
            }),
        )
    } else {
        fermion_word(chain_sites, state, symbols, sites, symbols.len(), Seq::empty())
    }
}

/// Applies a list of fermion symbols, the last one first.
pub fn apply_fermion_symbols(
    chain_sites: usize,
    state: u128,
    symbols: &[char],
    sites: &[usize],
) -> (result: Result<Option<(u128, Vec<LocalFactor>)>>)
    requires
        chain_sites <= 128,
    ensures
        boson::word_is(result, fermion_symbol_action(chain_sites, state, symbols@, sites@)),
{
    if symbols.len() != sites.len() {
        return Err(QmbedError::InvalidCoupling(Reason::Arity { symbols: symbols.len(), sites: sites.len() }));
    }
    let mut current: u128 = state;
    let mut amplitude: Vec<LocalFactor> = Vec::new();
    let mut remaining: usize = symbols.len();
    while remaining > 0
        invariant
            remaining <= symbols@.len(),
            symbols@.len() == sites@.len(),
            chain_sites <= 128,
            fermion_word(chain_sites, current, symbols@, sites@, remaining as nat, amplitude@)
                == fermion_symbol_action(chain_sites, state, symbols@, sites@),
        decreases remaining,
    {
        let position: usize = remaining - 1;
        let site: usize = sites[position];
        if site >= chain_sites {
            return Err(QmbedError::InvalidSite { site, sites: chain_sites });
        }
        match apply_fermion(current, site, symbols[position]) {
            Err(error) => {
                return Err(error);
            },
            Ok(None) => {
                return Ok(None);
            },
            Ok(Some((next, factor))) => {
                current = next;
                amplitude.push(factor);
            },
        }
        remaining = position;
    }
    Ok(Some((current, amplitude)))
}

/// Choices for a fermion basis, made one by one.
#[derive(Debug)]
pub struct SpinlessFermionBasisBuilder {
    pub sites: usize,
    pub particles: Option<usize>,
    pub particle_sectors: Option<Vec<usize>>,
    pub momentum: Option<i32>,
}

impl SpinlessFermionBasisBuilder {
    /// Selects one particle number.
    pub fn particles(self, particles: usize) -> (builder: Self)
        ensures
            builder == (SpinlessFermionBasisBuilder {
                particles: Some(particles),
                particle_sectors: None,
                ..self
            }),
    {
        SpinlessFermionBasisBuilder { particles: Some(particles), particle_sectors: None, ..self }
    }

    /// Selects a union of particle numbers.
    pub fn particle_sectors(self, sectors: Vec<usize>) -> (builder: Self)
        ensures
            builder == (SpinlessFermionBasisBuilder {
                particle_sectors: Some(sectors),
                particles: None,
                ..self
            }),
    {
        SpinlessFermionBasisBuilder { particle_sectors: Some(sectors), particles: None, ..self }
    }

    /// Selects a momentum.
    pub fn momentum(self, momentum: i32) -> (builder: Self)
        ensures
            builder == (SpinlessFermionBasisBuilder { momentum: Some(momentum), ..self }),
    {
        SpinlessFermionBasisBuilder { momentum: Some(momentum), ..self }
    }
}

/// What a fermion basis is: the chain, the selection and the listed states.
pub struct FermionModel {
    pub sites: usize,
    pub particles: Option<usize>,
    pub sectors: Option<Seq<usize>>,
    pub momentum: Option<usize>,
    /// States before translations are used.
    pub parents: Seq<u128>,
    /// States, orbit sizes and canonical forms after it.
    pub orbits: OrbitSector,
}

impl FermionModel {
    /// Steps of the full circle in which phases are counted.
    pub open spec fn circle(self) -> usize {
        (2 * self.sites) as usize
    }

    /// Size of the orbit of a basis state.
    pub open spec fn orbit_size_of(self, state: u128) -> usize {
        if self.momentum is Some {
            self.orbits.orbit_sizes@[self.orbits.states@.index_of(state)]
        } else {
            1
        }
    }

    /// The invariant of a fermion basis.
    pub open spec fn wf(self) -> bool {
        &&& self.sites <= 128
        &&& self.sectors matches Some(list) ==> ordered::strictly_sorted(list)
        &&& weights::lists_weight_union(
            self.parents,
            self.sites as nat,
            self.particles,
            self.sectors,
        )
        &&& self.momentum is None ==> lattice_sectors::unreduced_sector(
            self.parents,
            SymmetrySector { orbits: self.orbits, momentum: None, parity: None },
        )
        &&& self.momentum matches Some(k) ==> {
            &&& k < self.sites
            &&& self.orbits.states@.len() > 0
            &&& forall|ring: FermionRing|
                ring.wf() && #[trigger] ring.spec_sites() == self.sites && ring.spec_momentum() == k
                    ==> orbits::sector_of(&ring, self.parents, self.orbits)
        }
    }
}

/// Single-flavor fermion basis.
pub struct SpinlessFermionBasis1D {
    sites: usize,
    particles: Option<usize>,
    particle_sectors: Option<Vec<usize>>,
    momentum: Option<usize>,
    orbits: OrbitSector,
    parents: Ghost<Seq<u128>>,
}

impl View for SpinlessFermionBasis1D {
    type V = FermionModel;

    closed spec fn view(&self) -> FermionModel {
        FermionModel {
            sites: self.sites,
            particles: self.particles,
            sectors: match self.particle_sectors {
                Some(list) => Some(list@),
                None => None,
            },
            momentum: self.momentum,
            parents: self.parents@,
            orbits: self.orbits,
        }
    }
}

/// The refusal of the choices for a fermion basis before translations are used.
pub open spec fn fermion_states_error(builder: SpinlessFermionBasisBuilder) -> Option<QmbedError> {
    match builder.particle_sectors {
        Some(list) => match symbols::particle_sectors_error(
            list@,
            builder.sites,
            "fermion particle-sector union must be nonempty",
            "fermion particle sector exceeds the local capacity",
        ) {
            Some(error) => Some(error),
            None => weights::weight_union_error(builder.sites, builder.particles, Some(list@)),
        },
        None => weights::weight_union_error(builder.sites, builder.particles, None),
    }
}

/// Whether no orbit is left for the momentum.
pub open spec fn momentum_sector_empty(
    parents: Seq<u128>,
    sites: usize,
    momentum: usize,
) -> bool {
    forall|ring: FermionRing, state: u128|
        ring.wf() && #[trigger] ring.spec_sites() == sites && ring.spec_momentum() == momentum
            ==> !(#[trigger] orbits::reached(&ring, parents, state) && orbits::is_least(
            &ring,
            state,
        ) && orbits::phases_agree(&ring, state))
}

impl SpinlessFermionBasisBuilder {
    /// Builds the basis that the choices describe.
    pub fn build(self) -> (result: Result<SpinlessFermionBasis1D>)
        ensures
            match result {
                Ok(basis) => {
                    &&& fermion_states_error(self) is None
                    &&& basis.wf()
                    &&& basis@.sites == self.sites
                    &&& basis@.particles == self.particles
                    &&& basis@.momentum == lattice_sectors::momentum_label(
                        self.momentum,
                        self.sites,
                    )
                    &&& self.particle_sectors is None ==> basis@.sectors is None
                    &&& self.particle_sectors matches Some(list) ==> {
                        &&& basis@.sectors is Some
                        &&& forall|number: usize| #[trigger]
                            basis@.sectors->0.contains(number) <==> list@.contains(number)
                    }
                },
                Err(error) => {
                    ||| fermion_states_error(self) == Some(error)
                    ||| {
                        &&& fermion_states_error(self) is None
                        &&& self.momentum is Some
                        &&& self.sites == 0
                        &&& error == QmbedError::InvalidSector(
                            Reason::Text("translation sectors require at least one site"),
                        )
                    }
                    ||| {
                        &&& fermion_states_error(self) is None
                        &&& self.momentum is Some
                        &&& self.sites > 0
                        &&& error == QmbedError::InvalidSector(
                            Reason::Text("the requested fermion momentum sector is empty"),
                        )
                        &&& exists|parents: Seq<u128>|
                            fermion_parents(self, parents) && #[trigger] momentum_sector_empty(
                                parents,
                                self.sites,
                                lattice_sectors::normalized_momentum(self.momentum->0, self.sites),
                            )
                    }
                },
            },
    {
        let sectors: Option<Vec<usize>> = match &self.particle_sectors {
            Some(list) => match symbols::canonical_particle_sectors(
                list,
                self.sites,
                "fermion particle-sector union must be nonempty",
                "fermion particle sector exceeds the local capacity",
            ) {
                Ok(canonical) => Some(canonical),
                Err(error) => {
                    return Err(error);
                },
            },
            None => None,
        };
        let listed: Option<&Vec<usize>> = match &sectors {
            Some(list) => Some(list),
            None => None,
        };
        let parents: Vec<u128> = match weights::fixed_weight_sector_states(
            self.sites,
            self.particles,
            listed,
        ) {
            Ok(states) => states,
            Err(error) => {
                proof {
                    self.lemma_canonical_error(sectors);
                }
                return Err(error);
            },
        };
        proof {
            self.lemma_canonical_error(sectors);
            assert forall|i: int| 0 <= i < parents@.len() implies #[trigger] parents@[i] < pow2(
                self.sites as nat,
            ) by {
                assert(parents@.contains(parents@[i]));
            }
            assert(fermion_parents(self, parents@)) by {
                assert forall|state: u128| #[trigger] parents@.contains(state) <==> {
                    weights::fits_sites(state, self.sites as nat) && fermion_admits(
                        self,
                        bits::ones(state as nat) as int,
                    )
                } by {
                    assert(parents@.contains(state) <==> weights::in_weight_union(
                        state,
                        self.sites as nat,
                        self.particles,
                        symbols::optional_seq(listed),
                    ));
                    self.lemma_admits(sectors, bits::ones(state as nat) as int);
                }
            }
        }
        match fermion_translation_sector(&parents, self.sites, self.momentum) {
            Ok(sector) => {
                let SymmetrySector { orbits, momentum, parity: _ } = sector;
                Ok(
                    SpinlessFermionBasis1D {
                        sites: self.sites,
                        particles: self.particles,
                        particle_sectors: sectors,
                        momentum,
                        orbits,
                        parents: Ghost(parents@),
                    },
                )
            },
            Err(error) => {
                proof {
                    if self.sites > 0 {
                        assert(momentum_sector_empty(
                            parents@,
                            self.sites,
                            lattice_sectors::normalized_momentum(self.momentum->0, self.sites),
                        ));
                    }
                }
                Err(error)
            },
        }
    }

    proof fn lemma_canonical_error(&self, canonical: Option<Vec<usize>>)
        requires
            self.particle_sectors is Some <==> canonical is Some,
            self.particle_sectors matches Some(list) ==> {
                &&& list@.len() > 0
                &&& canonical->0@.len() > 0
                &&& forall|number: usize| #[trigger]
                    canonical->0@.contains(number) <==> list@.contains(number)
            },
        ensures
            weights::weight_union_error(
                self.sites,
                self.particles,
                match self.particle_sectors {
                    Some(list) => Some(list@),
                    None => None,
                },
            ) == weights::weight_union_error(
                self.sites,
                self.particles,
                match canonical {
                    Some(list) => Some(list@),
                    None => None,
                },
            ),
    {
        spin::lemma_canonical_states_error(
            self.sites,
            1,
            self.particles,
            self.particle_sectors,
            canonical,
        );
    }

    proof fn lemma_admits(&self, canonical: Option<Vec<usize>>, number: int)
        requires
            self.particle_sectors is Some <==> canonical is Some,
            self.particle_sectors matches Some(list) ==> forall|count: usize| #[trigger]
                canonical->0@.contains(count) <==> list@.contains(count),
        ensures
            fermion_admits(*self, number) == symbols::number_admitted(
                self.particles,
                match canonical {
                    Some(list) => Some(list@),
                    None => None,
                },
                number,
            ),
    {
        if let Some(list) = self.particle_sectors {
            let other = canonical->0@;
            if symbols::lists_number(list@, number) {
                let i = choose|i: int| 0 <= i < list@.len() && #[trigger] list@[i] == number;
                assert(list@.contains(list@[i]));
                assert(other.contains(list@[i]));
                let j = choose|j: int| 0 <= j < other.len() && other[j] == list@[i];
                assert(other[j] == number);
            }
            if symbols::lists_number(other, number) {
                let i = choose|i: int| 0 <= i < other.len() && #[trigger] other[i] == number;
                assert(other.contains(other[i]));
                let j = choose|j: int| 0 <= j < list@.len() && list@[j] == other[i];
                assert(list@[j] == number);
            }
        }
    }
}

/// Whether the choices admit a particle number.
pub open spec fn fermion_admits(builder: SpinlessFermionBasisBuilder, number: int) -> bool {
    symbols::number_admitted(
        builder.particles,
        match builder.particle_sectors {
            Some(list) => Some(list@),
            None => None,
        },
        number,
    )
}

/// Whether this is the ascending list of the states that the choices admit.
pub open spec fn fermion_parents(
    builder: SpinlessFermionBasisBuilder,
    parents: Seq<u128>,
) -> bool {
    &&& weights::ascending(parents)
    &&& forall|state: u128| #[trigger]
        parents.contains(state) <==> {
            weights::fits_sites(state, builder.sites as nat) && fermion_admits(
                builder,
                bits::ones(state as nat) as int,
            )
        }
}

impl SpinlessFermionBasis1D {
    /// The numbering of the states agrees with the shortcuts that find them.
    pub closed spec fn tables_agree(&self) -> bool {
        &&& self.momentum is None && self.particle_sectors is None && self.particles is None
            ==> forall|i: int|
            0 <= i < self.orbits.states@.len() ==> #[trigger] self.orbits.states@[i] == i
        &&& self.momentum is None && self.particle_sectors is None ==> (self.particles matches Some(
            count,
        ) ==> weights::ranked_sector(self.orbits.states@, self.sites as nat, count))
    }

    /// Starts the choices for a chain of fermions.
    pub fn builder(sites: usize) -> (builder: SpinlessFermionBasisBuilder)
        ensures
            builder == (SpinlessFermionBasisBuilder {
                sites,
                particles: None,
                particle_sectors: None,
                momentum: None,
            }),
    {
        SpinlessFermionBasisBuilder {
            sites,
            particles: None,
            particle_sectors: None,
            momentum: None,
        }
    }

    /// Number of sites.
    pub fn sites(&self) -> (sites: usize)
        ensures
            sites == self@.sites,
    {
        self.sites
    }

    /// The selected particle number.
    pub fn particles(&self) -> (particles: Option<usize>)
        ensures
            particles == self@.particles,
    {
        self.particles
    }

    /// The selected union of particle numbers.
    pub fn particle_sectors(&self) -> (sectors: Option<&Vec<usize>>)
        ensures
            symbols::optional_seq(sectors) == self@.sectors,
    {
        match &self.particle_sectors {
            Some(list) => Some(list),
            None => None,
        }
    }

    /// The selected momentum.
    pub fn momentum(&self) -> (momentum: Option<usize>)
        ensures
            momentum == self@.momentum,
    {
        self.momentum
    }

    /// Destination of a list of symbols before translations are used.
    pub fn unreduced_local_transition_with_symbols(
        &self,
        state: u128,
        symbols: &[char],
        sites: &[usize],
    ) -> (result: Result<Option<(u128, Vec<LocalFactor>)>>)
        requires
            self.wf(),
        ensures
            boson::word_is(result, fermion_symbol_action(self@.sites, state, symbols@, sites@)),
    {
        apply_fermion_symbols(self.sites, state, symbols, sites)
    }

    /// Destination of an operator string before translations are used.
    pub fn unreduced_local_transition(&self, state: u128, operator: &str, sites: &[usize]) -> (
        result: Result<Option<(u128, Vec<LocalFactor>)>>)
        requires
            self.wf(),
        ensures
            boson::word_is(
                result,
                fermion_symbol_action(
                    self@.sites,
                    state,
                    symbols::without_separators(operator@),
                    sites@,
                ),
            ),
    {
        let buffer: SymbolBuffer = match operator_chars(operator, sites) {
            Ok(buffer) => buffer,
            Err(error) => {
                return Err(error);
            },
        };
        apply_fermion_symbols(self.sites, state, buffer.as_slice(), sites)
    }

    proof fn lemma_states(&self)
        requires
            self.wf(),
        ensures
            weights::ascending(self.orbits.states@),
            self.orbits.orbit_sizes@.len() == self.orbits.states@.len(),
    {
        if let Some(k) = self.momentum {
            let ring = lattice_sectors::lemma_fermion_ring_exists(self.sites, k);
            assert(ring.spec_sites() == self.sites);
            assert(orbits::sector_of(&ring, self@.parents, self.orbits));
        }
    }

    /// Orbit size of a basis state, one where translations are not used.
    pub fn orbit_size_at(&self, state: u128) -> (result: Result<usize>)
        requires
            self.wf(),
        ensures
            match result {
                Ok(size) => {
                    &&& self@.momentum is Some ==> self@.orbits.states@.contains(state)
                    &&& size == self@.orbit_size_of(state)
                },
                Err(error) => {
                    &&& self@.momentum is Some && !self@.orbits.states@.contains(state)
                    &&& error == QmbedError::StateNotInBasis
                },
            },
    {
        if self.momentum.is_none() {
            return Ok(1);
        }
        match self.index(state) {
            Ok(index) => {
                proof {
                    self.lemma_states();
                    self.states_distinct();
                    assert(self.orbits.states@[index as int] == state);
                    assert(self.orbits.states@.contains(state));
                }
                Ok(self.orbits.orbit_sizes[index])
            },
            Err(error) => Err(error),
        }
    }

    /// Steps of the full circle in which phases are counted.
    pub fn phase_circle(&self) -> (circle: usize)
        requires
            self.wf(),
        ensures
            circle == self@.circle(),
    {
        2 * self.sites
    }

    /// Canonical form of a state, if its orbit belongs to the basis.
    pub fn canonical_form(&self, state: u128) -> (result: Option<SymmetryImage>)
        requires
            self.wf(),
        ensures
            match result {
                Some(image) => {
                    &&& self@.orbits.lookup@.contains_key(state)
                    &&& image == self@.orbits.lookup@[state]
                },
                None => !self@.orbits.lookup@.contains_key(state),
            },
    {
        broadcast use vstd::std_specs::hash::group_hash_axioms;

        match self.orbits.lookup.get(&state) {
            Some(image) => Some(*image),
            None => None,
        }
    }

    /// Representative of a target and the amplitude of replacing the target by it.
    pub fn reduce_transition(&self, state: u128, source_orbit_size: usize) -> (result: Option<
        (u128, ReductionFactor<Turn>),
    >)
        requires
            self.wf(),
        ensures
            match result {
                Some((representative, factor)) => {
                    &&& self@.orbits.lookup@.contains_key(state)
                    &&& representative == self@.orbits.lookup@[state].representative
                    &&& factor == spin::reduction_of(
                        self@.orbits.lookup@[state],
                        source_orbit_size,
                        self@.circle(),
                    )
                },
                None => !self@.orbits.lookup@.contains_key(state),
            },
    {
        match self.canonical_form(state) {
            Some(image) => Some(
                (
                    image.representative,
                    ReductionFactor {
                        source_orbit: source_orbit_size,
                        target_orbit: image.orbit_size,
                        phase: Turn { steps: image.steps, circle: 2 * self.sites },
                    },
                ),
            ),
            None => None,
        }
    }

    /// Number of the representative of a target and the amplitude of replacing the target
    /// by it; a target stands for itself where no lattice symmetry is used.
    pub fn index_transition(&self, state: u128, source_orbit_size: usize) -> (result: Result<
        Option<(usize, ReductionFactor<Turn>)>,
    >)
        requires
            self.wf(),
        ensures
            if !(self@.momentum is Some) {
                match result {
                    Ok(Some((index, factor))) => {
                        &&& index < self.spec_states().len()
                        &&& self.spec_states()[index as int] == state
                        &&& factor == ReductionFactor {
                            source_orbit: 1,
                            target_orbit: 1,
                            phase: Turn { steps: 0, circle: self@.circle() },
                        }
                    },
                    Ok(None) => !self.spec_states().contains(state),
                    Err(_) => false,
                }
            } else if !self@.orbits.lookup@.contains_key(state) {
                result matches Ok(None)
            } else {
                let image = self@.orbits.lookup@[state];
                match result {
                    Ok(Some((index, factor))) => {
                        &&& index < self.spec_states().len()
                        &&& self.spec_states()[index as int] == image.representative
                        &&& factor == spin::reduction_of(image, source_orbit_size, self@.circle())
                    },
                    Ok(None) => false,
                    Err(error) => {
                        &&& !self.spec_states().contains(image.representative)
                        &&& error == QmbedError::StateNotInBasis
                    },
                }
            },
    {
        if self.momentum.is_none() {
            return match self.index(state) {
                Ok(index) => Ok(
                    Some(
                        (
                            index,
                            ReductionFactor {
                                source_orbit: 1,
                                target_orbit: 1,
                                phase: Turn { steps: 0, circle: self.phase_circle() },
                            },
                        ),
                    ),
                ),
                Err(_) => Ok(None),
            };
        }
        match self.reduce_transition(state, source_orbit_size) {
            None => Ok(None),
            Some((representative, factor)) => match self.index(representative) {
                Ok(index) => Ok(Some((index, factor))),
                Err(error) => Err(error),
            },
        }
    }
}

/// Destinations of an operator string in a fermion basis.
pub open spec fn fermion_transitions(
    model: FermionModel,
    state: u128,
    word: Word,
) -> core::result::Result<Seq<(u128, Seq<Factor<Turn>>)>, QmbedError> {
    match word {
        Err(error) => Err(error),
        Ok(None) => Ok(Seq::empty()),
        Ok(Some(found)) => if model.momentum is None {
            boson::word_transitions(word)
        } else if !model.orbits.states@.contains(state) {
            Err(QmbedError::StateNotInBasis)
        } else if model.orbits.lookup@.contains_key(found.0) {
            let image = model.orbits.lookup@[found.0];
            Ok(
                seq![
                    (
                        image.representative,
                        basis::local_factors::<Turn>(found.1).push(
                            Factor::Reduced(
                                spin::reduction_of(
                                    image,
                                    model.orbit_size_of(state),
                                    model.circle(),
                                ),
                            ),
                        ),
                    ),
                ],
            )
        } else {
            Ok(Seq::empty())
        },
    }
}

impl Basis for SpinlessFermionBasis1D {
    type State = u128;

    type Phase = Turn;

    open spec fn wf(&self) -> bool {
        self@.wf() && self.tables_agree()
    }

    open spec fn spec_states(&self) -> Seq<u128> {
        self@.orbits.states@
    }

    open spec fn acts_on(&self, state: u128) -> bool {
        true
    }

    open spec fn spec_transitions(
        &self,
        state: u128,
        operator: Seq<char>,
        sites: Seq<usize>,
    ) -> core::result::Result<Seq<(u128, Seq<Factor<Turn>>)>, QmbedError> {
        fermion_transitions(
            self@,
            state,
            fermion_symbol_action(
                self@.sites,
                state,
                symbols::without_separators(operator),
                sites,
            ),
        )
    }

    open spec fn spec_preserves(&self, operator: Seq<char>) -> core::result::Result<
        bool,
        QmbedError,
    > {
        symbols::operator_keeps_selection(
            self@.particles,
            self@.sectors,
            self@.sites,
            operator,
        )
    }

    open spec fn spec_preserves_on_sites(
        &self,
        operator: Seq<char>,
        sites: Seq<usize>,
    ) -> core::result::Result<bool, QmbedError> {
        self.spec_preserves(operator)
    }

    open spec fn faithful(&self) -> bool {
        true
    }

    proof fn states_distinct(&self) {
        self.lemma_states();
    }

    proof fn acts_on_states(&self, index: int) {
    }

    fn len(&self) -> (length: usize) {
        self.orbits.states.len()
    }

    fn state(&self, index: usize) -> (result: Result<u128>) {
        if index < self.orbits.states.len() {
            Ok(self.orbits.states[index])
        } else {
            Err(QmbedError::StateNotInBasis)
        }
    }

    fn index(&self, state: u128) -> (result: Result<usize>) {
        proof {
            self.lemma_states();
        }
        if self.momentum.is_none() && self.particle_sectors.is_none() {
            return match self.particles {
                None => weights::direct_state_index(&self.orbits.states, state),
                Some(particles) => weights::ranked_state_index(
                    &self.orbits.states,
                    self.sites,
                    particles,
                    state,
                ),
            };
        }
        weights::state_index(&self.orbits.states, state)
    }

    fn apply_local_transitions(&self, state: u128, operator: &str, sites: &[usize]) -> (result:
        Result<Transitions<u128, Turn>>) {
        let ghost stated = fermion_symbol_action(
            self@.sites,
            state,
            symbols::without_separators(operator@),
            sites@,
        );
        let word = self.unreduced_local_transition(state, operator, sites);
        if self.momentum.is_none() {
            return boson::listed_word(word, Ghost(stated));
        }
        let mut transitions: Transitions<u128, Turn> = Vec::new();
        assert(basis::transitions_view(transitions@) =~= Seq::empty());
        match word {
            Err(error) => Err(error),
            Ok(None) => Ok(transitions),
            Ok(Some((target, factors))) => {
                let source_orbit: usize = match self.orbit_size_at(state) {
                    Ok(size) => size,
                    Err(error) => {
                        return Err(error);
                    },
                };
                if let Some((representative, factor)) = self.reduce_transition(
                    target,
                    source_orbit,
                ) {
                    let mut amplitude: Vec<Factor<Turn>> = basis::wrap_factors::<Turn>(&factors);
                    amplitude.push(Factor::Reduced(factor));
                    transitions.push((representative, amplitude));
                    assert(basis::transitions_view(transitions@) =~= seq![
                        (representative, amplitude@),
                    ]);
                }
                Ok(transitions)
            },
        }
    }

    fn operator_preserves_particle_sector_on_sites(
        &self,
        operator: &str,
        sites: &[usize],
    ) -> (result: Result<bool>) {
        self.operator_preserves_particle_sector(operator)
    }

    fn operator_preserves_particle_sector(&self, operator: &str) -> (result: Result<bool>) {
        let listed: Option<&Vec<usize>> = match &self.particle_sectors {
            Some(list) => Some(list),
            None => None,
        };
        symbols::operator_keeps_sectors(self.particles, listed, self.sites, operator)
    }
}

} // verus!

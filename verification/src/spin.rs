//! Spin chains: the full space, magnetization sectors and lattice-symmetry sectors.

use vstd::arithmetic::div_mod::*;
use vstd::arithmetic::mul::*;
use vstd::arithmetic::power2::*;
use vstd::prelude::*;

use crate::amplitudes::{LocalFactor, LocalTransitions, ReductionFactor, Turn};
use crate::basis;
use crate::basis::{Basis, Factor, Transitions};
use crate::digits;
use crate::error::{OperatorFault, QmbedError, Reason, Result};
use crate::lattice;
use crate::lattice_sectors;
use crate::lattice_sectors::{spin_symmetry_sector, SpinLattice, SymmetrySector};
use crate::orbits;
use crate::orbits::{OrbitAction, OrbitSector, SymmetryImage};
use crate::ordered;
use crate::ordered::Ranked;
use crate::symbols;
use crate::symbols::{operator_chars, SymbolBuffer};
use crate::weights;

verus! {

/// Normalization of local spin operators.
///
/// The distinction matters for spin one-half because two common interfaces
/// assign different meanings to the ladder symbols. `PauliCartesian` keeps the
/// conventional unit-amplitude ladder operators, while `Pauli` scales every
/// symbol but the identity by two relative to angular-momentum operators.
#[derive(Clone, Copy, Debug, PartialEq, Eq, Structural)]
pub enum SpinNormalization {
    AngularMomentum,
    Pauli,
    PauliCartesian,
}

impl Default for SpinNormalization {
    fn default() -> (normalization: Self)
        ensures
            normalization == SpinNormalization::AngularMomentum,
    {
        SpinNormalization::AngularMomentum
    }
}

/// Eigenvalue of the z operator on the level `digit` of a spin.
pub open spec fn z_factor(normalization: SpinNormalization, spin_twice: u16, digit: nat) -> LocalFactor {
    if normalization == SpinNormalization::AngularMomentum {
        LocalFactor::of_halves((2 * digit - spin_twice) as i128)
    } else {
        LocalFactor::of_integer((2 * digit - spin_twice) as i128)
    }
}

/// Common factor of the two ladder operators.
pub open spec fn ladder_scale(normalization: SpinNormalization) -> i128 {
    if normalization == SpinNormalization::Pauli {
        2
    } else {
        1
    }
}

/// Amplitude of raising the level `digit`.
pub open spec fn raise_factor(
    normalization: SpinNormalization,
    spin_twice: u16,
    digit: nat,
) -> LocalFactor {
    LocalFactor {
        numerator: ladder_scale(normalization),
        halved: false,
        imaginary: false,
        radicand: ((spin_twice - digit) * (digit + 1)) as u128,
    }
}

/// Amplitude of lowering the level `digit`.
pub open spec fn lower_factor(
    normalization: SpinNormalization,
    spin_twice: u16,
    digit: nat,
) -> LocalFactor {
    LocalFactor {
        numerator: ladder_scale(normalization),
        halved: false,
        imaginary: false,
        radicand: (digit * (spin_twice - digit + 1)) as u128,
    }
}

/// Share of a ladder amplitude in the x or y operator.
pub open spec fn cartesian_factor(
    normalization: SpinNormalization,
    symbol: char,
    raising: bool,
    ladder: LocalFactor,
) -> LocalFactor {
    LocalFactor {
        numerator: if symbol == 'y' && raising {
            (-ladder.numerator) as i128
        } else {
            ladder.numerator
        },
        halved: normalization != SpinNormalization::PauliCartesian,
        imaginary: symbol == 'y',
        radicand: ladder.radicand,
    }
}

/// The chain on which spin operators act.
pub struct SpinChain {
    pub sites: nat,
    pub spin_twice: u16,
    pub normalization: SpinNormalization,
}

impl SpinChain {
    /// Levels of one site.
    pub open spec fn levels(self) -> nat {
        (self.spin_twice + 1) as nat
    }
}

/// Two lists of destinations in a row; the first failure ends the walk.
pub open spec fn joined(
    first: core::result::Result<Seq<(u128, Seq<LocalFactor>)>, QmbedError>,
    second: core::result::Result<Seq<(u128, Seq<LocalFactor>)>, QmbedError>,
) -> core::result::Result<Seq<(u128, Seq<LocalFactor>)>, QmbedError> {
    match (first, second) {
        (Err(error), _) => Err(error),
        (Ok(_), Err(error)) => Err(error),
        (Ok(left), Ok(right)) => Ok(left + right),
    }
}

/// Destinations of the first `remaining` symbols, applied from the last to the
/// first, with the factors gathered so far in front.
///
/// A symbol with two destinations follows the raised one first.
pub open spec fn spin_branches(
    chain: SpinChain,
    state: u128,
    symbols: Seq<char>,
    sites: Seq<usize>,
    remaining: nat,
    amplitude: Seq<LocalFactor>,
) -> core::result::Result<Seq<(u128, Seq<LocalFactor>)>, QmbedError>
    decreases remaining,
{
    if remaining == 0 {
        Ok(seq![(state, amplitude)])
    } else {
        let position = (remaining - 1) as nat;
        let site = sites[position as int];
        let symbol = symbols[position as int];
        let place = digits::power(chain.levels(), site as nat);
        let digit = digits::digit(state as nat, chain.levels(), site as nat);
        let raise = raise_factor(chain.normalization, chain.spin_twice, digit);
        let lower = lower_factor(chain.normalization, chain.spin_twice, digit);
        let up = (state + place) as u128;
        let down = (state - place) as u128;
        if site >= chain.sites {
            Err(QmbedError::InvalidSite { site, sites: chain.sites as usize })
        } else if symbol == 'I' {
            spin_branches(chain, state, symbols, sites, position, amplitude)
        } else if symbol == 'z' {
            if 2 * digit == chain.spin_twice {
                Ok(Seq::empty())
            } else {
                spin_branches(
                    chain,
                    state,
                    symbols,
                    sites,
                    position,
                    amplitude.push(z_factor(chain.normalization, chain.spin_twice, digit)),
                )
            }
        } else if symbol == '+' {
            if digit == chain.spin_twice {
                Ok(Seq::empty())
            } else {
                spin_branches(chain, up, symbols, sites, position, amplitude.push(raise))
            }
        } else if symbol == '-' {
            if digit == 0 {
                Ok(Seq::empty())
            } else {
                spin_branches(chain, down, symbols, sites, position, amplitude.push(lower))
            }
        } else if symbol == 'x' || symbol == 'y' {
            joined(
                if digit == chain.spin_twice {
                    Ok(Seq::empty())
                } else {
                    spin_branches(
                        chain,
                        up,
                        symbols,
                        sites,
                        position,
                        amplitude.push(cartesian_factor(chain.normalization, symbol, true, raise)),
                    )
                },
                if digit == 0 {
                    Ok(Seq::empty())
                } else {
                    spin_branches(
                        chain,
                        down,
                        symbols,
                        sites,
                        position,
                        amplitude.push(cartesian_factor(chain.normalization, symbol, false, lower)),
                    )
                },
            )
        } else {
            Err(QmbedError::InvalidOperator(OperatorFault::Symbol(symbol)))
        }
    }
}

/// The factors with one more behind them.
fn extended(amplitude: &Vec<LocalFactor>, factor: LocalFactor) -> (longer: Vec<LocalFactor>)
    ensures
        longer@ == amplitude@.push(factor),
{
    let mut longer: Vec<LocalFactor> = ordered::copy_list(amplitude);
    longer.push(factor);
    longer
}

/// Appends the destinations of the first `remaining` symbols to `output`.
fn visit_spin_branches(
    place_values: &Vec<u128>,
    spin_twice: u16,
    normalization: SpinNormalization,
    state: u128,
    symbols: &[char],
    sites: &[usize],
    remaining: usize,
    amplitude: Vec<LocalFactor>,
    output: &mut LocalTransitions,
) -> (result: Result<()>)
    requires
        symbols@.len() == sites@.len(),
        remaining <= sites@.len(),
        forall|site: int|
            0 <= site < place_values@.len() ==> #[trigger] place_values@[site] == digits::power(
                (spin_twice + 1) as nat,
                site as nat,
            ),
        lattice::block_fits(state as nat, place_values@.len(), (spin_twice + 1) as nat),
    ensures
        ({
            let chain = SpinChain { sites: place_values@.len(), spin_twice, normalization };
            let stated = spin_branches(
                chain,
                state,
                symbols@,
                sites@,
                remaining as nat,
                amplitude@,
            );
            match result {
                Ok(_) => stated is Ok && final(output)@ == old(output)@ + stated->Ok_0,
                Err(error) => stated == Err::<Seq<(u128, Seq<LocalFactor>)>, QmbedError>(error),
            }
        }),
    decreases remaining,
{
    if remaining == 0 {
        output.push(state, amplitude);
        return Ok(());
    }
    let position: usize = remaining - 1;
    let site: usize = sites[position];
    let symbol: char = symbols[position];
    if site >= place_values.len() {
        return Err(QmbedError::InvalidSite { site, sites: place_values.len() });
    }
    let place: u128 = place_values[site];
    let levels: u128 = spin_twice as u128 + 1;
    proof {
        digits::lemma_power_positive(levels as nat, site as nat);
        lattice::lemma_step_digit(state as nat, site as nat, place_values@.len(), levels as nat);
        lemma_mod_bound((state / place) as int, levels as int);
    }
    let digit: u128 = (state / place) % levels;
    let spin: u128 = spin_twice as u128;
    let scale: i128 = if normalization == SpinNormalization::Pauli {
        2
    } else {
        1
    };
    proof {
        assert(0 <= (spin - digit) * (digit + 1) <= 0x1_0000_0000 && 0 <= digit * (spin - digit + 1)
            <= 0x1_0000_0000) by (nonlinear_arith)
            requires
                0 <= digit <= spin <= 0xffff,
        ;
    }
    let raise = LocalFactor {
        numerator: scale,
        halved: false,
        imaginary: false,
        radicand: (spin - digit) * (digit + 1),
    };
    let lower = LocalFactor {
        numerator: scale,
        halved: false,
        imaginary: false,
        radicand: digit * (spin - digit + 1),
    };
    if symbol == 'I' {
        visit_spin_branches(
            place_values,
            spin_twice,
            normalization,
            state,
            symbols,
            sites,
            position,
            amplitude,
            output,
        )
    } else if symbol == 'z' {
        if 2 * digit == spin {
            return Ok(());
        }
        let value: i128 = 2 * (digit as i128) - spin as i128;
        let factor = if normalization == SpinNormalization::AngularMomentum {
            LocalFactor::halves(value)
        } else {
            LocalFactor::integer(value)
        };
        visit_spin_branches(
            place_values,
            spin_twice,
            normalization,
            state,
            symbols,
            sites,
            position,
            extended(&amplitude, factor),
            output,
        )
    } else if symbol == '+' {
        if digit == spin {
            return Ok(());
        }
        visit_spin_branches(
            place_values,
            spin_twice,
            normalization,
            state + place,
            symbols,
            sites,
            position,
            extended(&amplitude, raise),
            output,
        )
    } else if symbol == '-' {
        if digit == 0 {
            return Ok(());
        }
        visit_spin_branches(
            place_values,
            spin_twice,
            normalization,
            state - place,
            symbols,
            sites,
            position,
            extended(&amplitude, lower),
            output,
        )
    } else if symbol == 'x' || symbol == 'y' {
        let halved: bool = normalization != SpinNormalization::PauliCartesian;
        let imaginary: bool = symbol == 'y';
        let ghost before = output@;
        if digit != spin {
            let factor = LocalFactor {
                numerator: if imaginary {
                    -scale
                } else {
                    scale
                },
                halved,
                imaginary,
                radicand: raise.radicand,
            };
            let raised = visit_spin_branches(
                place_values,
                spin_twice,
                normalization,
                state + place,
                symbols,
                sites,
                position,
                extended(&amplitude, factor),
                output,
            );
            if let Err(error) = raised {
                return Err(error);
            }
        }
        let ghost between = output@;
        if digit != 0 {
            let factor = LocalFactor {
                numerator: scale,
                halved,
                imaginary,
                radicand: lower.radicand,
            };
            let lowered = visit_spin_branches(
                place_values,
                spin_twice,
                normalization,
                state - place,
                symbols,
                sites,
                position,
                extended(&amplitude, factor),
                output,
            );
            if let Err(error) = lowered {
                return Err(error);
            }
        }
        proof {
            let chain = SpinChain { sites: place_values@.len(), spin_twice, normalization };
            let stated = spin_branches(
                chain,
                state,
                symbols@,
                sites@,
                remaining as nat,
                amplitude@,
            );
            assert(output@ =~= before + stated->Ok_0);
        }
        Ok(())
    } else {
        Err(QmbedError::InvalidOperator(OperatorFault::Symbol(symbol)))
    }
}

/// Choices for a spin basis, made one by one.
#[derive(Debug)]
pub struct SpinBasisBuilder {
    pub sites: usize,
    pub spin_twice: u16,
    pub up: Option<usize>,
    pub particle_sectors: Option<Vec<usize>>,
    pub momentum: Option<i32>,
    pub parity: Option<i8>,
    pub normalization: SpinNormalization,
}

impl SpinBasisBuilder {
    /// Twice the spin of a site.
    pub fn spin_twice(self, spin_twice: u16) -> (builder: Self)
        ensures
            builder == (SpinBasisBuilder { spin_twice, ..self }),
    {
        SpinBasisBuilder { spin_twice, ..self }
    }

    /// Selects one magnetization by the number of raised levels.
    pub fn up(self, up: usize) -> (builder: Self)
        ensures
            builder == (SpinBasisBuilder { up: Some(up), particle_sectors: None, ..self }),
    {
        SpinBasisBuilder { up: Some(up), particle_sectors: None, ..self }
    }

    /// Selects one magnetization by the number of raised levels.
    pub fn magnetization(self, up: usize) -> (builder: Self)
        ensures
            builder == (SpinBasisBuilder { up: Some(up), particle_sectors: None, ..self }),
    {
        SpinBasisBuilder { up: Some(up), particle_sectors: None, ..self }
    }

    /// Selects a union of magnetizations.
    pub fn particle_sectors(self, sectors: Vec<usize>) -> (builder: Self)
        ensures
            builder == (SpinBasisBuilder { particle_sectors: Some(sectors), up: None, ..self }),
    {
        SpinBasisBuilder { particle_sectors: Some(sectors), up: None, ..self }
    }

    /// Selects a momentum.
    pub fn momentum(self, momentum: i32) -> (builder: Self)
        ensures
            builder == (SpinBasisBuilder { momentum: Some(momentum), ..self }),
    {
        SpinBasisBuilder { momentum: Some(momentum), ..self }
    }

    /// Selects a parity under reflection.
    pub fn parity(self, parity: i8) -> (builder: Self)
        ensures
            builder == (SpinBasisBuilder { parity: Some(parity), ..self }),
    {
        SpinBasisBuilder { parity: Some(parity), ..self }
    }

    /// Chooses between Pauli and angular-momentum operators.
    pub fn pauli(self, pauli: bool) -> (builder: Self)
        ensures
            builder == (SpinBasisBuilder {
                normalization: if pauli {
                    SpinNormalization::PauliCartesian
                } else {
                    SpinNormalization::AngularMomentum
                },
                ..self
            }),
    {
        SpinBasisBuilder {
            normalization: if pauli {
                SpinNormalization::PauliCartesian
            } else {
                SpinNormalization::AngularMomentum
            },
            ..self
        }
    }

    /// Chooses the normalization of the local operators.
    pub fn normalization(self, normalization: SpinNormalization) -> (builder: Self)
        ensures
            builder == (SpinBasisBuilder { normalization, ..self }),
    {
        SpinBasisBuilder { normalization, ..self }
    }
}

/// What a spin basis is: the chain, the selection and the listed states.
pub struct SpinModel {
    pub sites: usize,
    pub spin_twice: u16,
    pub up: Option<usize>,
    pub sectors: Option<Seq<usize>>,
    pub normalization: SpinNormalization,
    pub momentum: Option<usize>,
    pub parity: Option<i8>,
    /// States before the lattice symmetry is used.
    pub parents: Seq<u128>,
    /// States, orbit sizes and canonical forms after it.
    pub orbits: OrbitSector,
}

impl SpinModel {
    /// The chain on which the local operators act.
    pub open spec fn chain(self) -> SpinChain {
        SpinChain {
            sites: self.sites as nat,
            spin_twice: self.spin_twice,
            normalization: self.normalization,
        }
    }

    /// Whether a lattice symmetry is used.
    pub open spec fn reduced(self) -> bool {
        self.momentum is Some || self.parity is Some
    }

    /// Steps of the full circle in which phases are counted.
    pub open spec fn circle(self) -> usize {
        (2 * self.sites) as usize
    }

    /// The invariant of a spin basis.
    pub open spec fn wf(self) -> bool {
        let levels = self.chain().levels();
        &&& 0 < self.sites <= 128
        &&& self.spin_twice > 0
        &&& self.normalization != SpinNormalization::AngularMomentum ==> self.spin_twice == 1
        &&& digits::power(levels, self.sites as nat) <= u128::MAX + 1
        &&& self.sectors matches Some(list) ==> ordered::strictly_sorted(list)
        &&& lists_spin_parents(
            self.parents,
            self.sites as nat,
            self.spin_twice,
            self.up,
            self.sectors,
        )
        &&& !self.reduced() ==> lattice_sectors::unreduced_sector(
            self.parents,
            SymmetrySector { orbits: self.orbits, momentum: None, parity: None },
        )
        &&& self.reduced() ==> forall|ring: SpinLattice| #[trigger]
            lattice_sectors::ring_of(
                ring,
                self.sites,
                levels as u128,
                self.momentum,
                self.parity,
            ) ==> orbits::sector_of(&ring, self.parents, self.orbits)
    }
}

/// The states of a chain with an admitted number of raised levels, ascending.
pub open spec fn lists_spin_parents(
    parents: Seq<u128>,
    sites: nat,
    spin_twice: u16,
    up: Option<usize>,
    sectors: Option<Seq<usize>>,
) -> bool {
    digits::lists_digit_union(parents, sites, (spin_twice + 1) as nat, up, sectors)
}

/// Spin-chain basis for the full or fixed-magnetization spin space.
pub struct SpinBasis1D {
    sites: usize,
    spin_twice: u16,
    up: Option<usize>,
    particle_sectors: Option<Vec<usize>>,
    normalization: SpinNormalization,
    place_values: Vec<u128>,
    momentum: Option<usize>,
    parity: Option<i8>,
    orbits: OrbitSector,
    parents: Ghost<Seq<u128>>,
}

impl View for SpinBasis1D {
    type V = SpinModel;

    closed spec fn view(&self) -> SpinModel {
        SpinModel {
            sites: self.sites,
            spin_twice: self.spin_twice,
            up: self.up,
            sectors: match self.particle_sectors {
                Some(list) => Some(list@),
                None => None,
            },
            normalization: self.normalization,
            momentum: self.momentum,
            parity: self.parity,
            parents: self.parents@,
            orbits: self.orbits,
        }
    }
}

impl SpinBasis1D {
    /// The tables that speed up the basis agree with it.
    pub closed spec fn tables_agree(&self) -> bool {
        &&& self.place_values@.len() == self.sites
        &&& forall|site: int|
            0 <= site < self.place_values@.len() ==> #[trigger] self.place_values@[site]
                == digits::power((self.spin_twice + 1) as nat, site as nat)
        &&& !self@.reduced() && self.particle_sectors is None && self.up is None ==> forall|i: int|
            0 <= i < self.orbits.states@.len() ==> #[trigger] self.orbits.states@[i] == i
        &&& !self@.reduced() && self.particle_sectors is None && self.spin_twice == 1 ==> (
        self.up matches Some(up) ==> weights::ranked_sector(
            self.orbits.states@,
            self.sites as nat,
            up,
        ))
    }

    /// Starts the choices for a chain of spins one-half.
    pub fn builder(sites: usize) -> (builder: SpinBasisBuilder)
        ensures
            builder == (SpinBasisBuilder {
                sites,
                spin_twice: 1,
                up: None,
                particle_sectors: None,
                momentum: None,
                parity: None,
                normalization: SpinNormalization::AngularMomentum,
            }),
    {
        SpinBasisBuilder {
            sites,
            spin_twice: 1,
            up: None,
            particle_sectors: None,
            momentum: None,
            parity: None,
            normalization: SpinNormalization::AngularMomentum,
        }
    }

    /// Number of sites.
    pub fn sites(&self) -> (sites: usize)
        ensures
            sites == self@.sites,
    {
        self.sites
    }

    /// Twice the spin of a site.
    pub fn spin_twice(&self) -> (spin_twice: u16)
        ensures
            spin_twice == self@.spin_twice,
    {
        self.spin_twice
    }

    /// The selected number of raised levels.
    pub fn up(&self) -> (up: Option<usize>)
        ensures
            up == self@.up,
    {
        self.up
    }

    /// The selected union of numbers of raised levels.
    pub fn particle_sectors(&self) -> (sectors: Option<&Vec<usize>>)
        ensures
            symbols::optional_seq(sectors) == self@.sectors,
    {
        match &self.particle_sectors {
            Some(list) => Some(list),
            None => None,
        }
    }

    /// Whether local operators follow a Pauli convention.
    pub fn pauli(&self) -> (pauli: bool)
        ensures
            pauli == (self@.normalization != SpinNormalization::AngularMomentum),
    {
        self.normalization != SpinNormalization::AngularMomentum
    }

    /// Normalization of the local operators.
    pub fn normalization(&self) -> (normalization: SpinNormalization)
        ensures
            normalization == self@.normalization,
    {
        self.normalization
    }

    /// The selected momentum.
    pub fn momentum(&self) -> (momentum: Option<usize>)
        ensures
            momentum == self@.momentum,
    {
        self.momentum
    }

    /// The selected parity.
    pub fn parity(&self) -> (parity: Option<i8>)
        ensures
            parity == self@.parity,
    {
        self.parity
    }
}

/// Admitted words by weight are admitted words by binary digit sum.
pub proof fn lemma_weight_union_is_digit_union(
    states: Seq<u128>,
    sites: nat,
    particles: Option<usize>,
    sectors: Option<Seq<usize>>,
)
    requires
        weights::lists_weight_union(states, sites, particles, sectors),
    ensures
        digits::lists_digit_union(states, sites, 2, particles, sectors),
{
    assert forall|state: u128| #[trigger] states.contains(state) <==> digits::in_digit_union(
        state,
        sites,
        2,
        particles,
        sectors,
    ) by {
        assert(states.contains(state) <==> weights::in_weight_union(
            state,
            sites,
            particles,
            sectors,
        ));
        digits::lemma_power_two(sites);
        if state < digits::power(2, sites) {
            lattice::lemma_binary_digit_sum(state as nat, sites);
        }
    }
}

/// Translations and reflections never leave a list of admitted words.
pub proof fn law_symmetry_keeps_magnetization(
    ring: &SpinLattice,
    parents: Seq<u128>,
    up: Option<usize>,
    sectors: Option<Seq<usize>>,
)
    requires
        ring.wf(),
        digits::lists_digit_union(parents, ring.spec_sites(), ring.spec_base(), up, sectors),
    ensures
        orbits::closed_under(ring, parents),
{
    let n = ring.spec_sites();
    let b = ring.spec_base();
    lattice_sectors::lemma_ring_facts(ring);
    assert forall|state: u128| #[trigger] orbits::reached(ring, parents, state) implies
        parents.contains(state) by {
        let i = choose|i: int|
            0 <= i < parents.len() && orbits::in_orbit(ring, #[trigger] parents[i], state);
        let source = parents[i];
        assert(parents.contains(source));
        assert(digits::in_digit_union(source, n, b, up, sectors));
        let element = choose|element: nat|
            element < ring.order() && #[trigger] ring.image(source, element) == state;
        assert(ring.domain(source));
        ring.image_in_domain(source, element);
        let shift = ring.shift_of(element);
        let turned = lattice::rotated(source as nat, shift, n, b);
        ring.lemma_moved_bound(source as nat, shift, ring.mirrored(element));
        lattice::lemma_rotated_bound(source as nat, shift, n, b);
        lattice::law_lattice_maps_keep_digit_sum(source as nat, shift, n, b);
        lattice::law_lattice_maps_keep_digit_sum(turned, 0, n, b);
        assert(digits::in_digit_union(state, n, b, up, sectors));
    }
}

/// Most raised levels that a chain can hold, as far as it can be counted.
pub open spec fn spin_capacity(sites: usize, spin_twice: u16) -> usize {
    if sites * spin_twice > usize::MAX {
        usize::MAX
    } else {
        (sites * spin_twice) as usize
    }
}

/// The refusal of a selection of states of a chain.
pub open spec fn spin_states_error(
    sites: usize,
    spin_twice: u16,
    up: Option<usize>,
    sectors: Option<Seq<usize>>,
) -> Option<QmbedError> {
    if spin_twice == 1 {
        weights::weight_union_error(sites, up, sectors)
    } else {
        digits::digit_sector_error(
            sites,
            (spin_twice + 1) as usize,
            if sectors is Some {
                Some(0usize)
            } else {
                up
            },
        )
    }
}

/// The refusal of the choices for a spin basis, if they are refused.
pub open spec fn spin_build_error(builder: SpinBasisBuilder) -> Option<QmbedError> {
    let sites = builder.sites;
    let sectors = match builder.particle_sectors {
        Some(list) => Some(list@),
        None => None,
    };
    let sectors_error = match sectors {
        Some(list) => symbols::particle_sectors_error(
            list,
            spin_capacity(sites, builder.spin_twice),
            "spin particle-sector union must be nonempty",
            "spin particle sector exceeds the local capacity",
        ),
        None => None,
    };
    if builder.spin_twice == 0 {
        Some(QmbedError::InvalidSector(Reason::Text("spin_twice must be positive")))
    } else if builder.normalization != SpinNormalization::AngularMomentum && builder.spin_twice
        != 1 {
        Some(
            QmbedError::InvalidOptions(Reason::Text("the Pauli convention is defined only for spin one-half")),
        )
    } else if sectors_error is Some {
        sectors_error
    } else if sites > 0 && digits::power((builder.spin_twice + 1) as nat, (sites - 1) as nat)
        > u128::MAX {
        Some(
            QmbedError::UnsupportedBackend(Reason::Text("spin-state place value exceeds the u128 backend")),
        )
    } else if spin_states_error(sites, builder.spin_twice, builder.up, sectors) is Some {
        spin_states_error(sites, builder.spin_twice, builder.up, sectors)
    } else {
        lattice_sectors::spin_labels_error(sites, builder.momentum, builder.parity)
    }
}

/// Powers of the number of levels, one for each site.
fn site_place_values(levels: u128, sites: usize) -> (result: Result<Vec<u128>>)
    requires
        levels >= 2,
    ensures
        match result {
            Ok(places) => {
                &&& places@.len() == sites
                &&& sites > 0 ==> digits::power(levels as nat, (sites - 1) as nat) <= u128::MAX
                &&& forall|site: int|
                    0 <= site < sites ==> #[trigger] places@[site] == digits::power(
                        levels as nat,
                        site as nat,
                    )
            },
            Err(error) => {
                &&& sites > 0
                &&& digits::power(levels as nat, (sites - 1) as nat) > u128::MAX
                &&& error == QmbedError::UnsupportedBackend(
                    Reason::Text("spin-state place value exceeds the u128 backend"),
                )
            },
        },
{
    let mut places: Vec<u128> = Vec::new();
    let mut place: u128 = 1;
    let mut site: usize = 0;
    while site < sites
        invariant
            site <= sites,
            levels >= 2,
            places@.len() == site,
            site < sites ==> place == digits::power(levels as nat, site as nat),
            site > 0 ==> digits::power(levels as nat, (site - 1) as nat) <= u128::MAX,
            forall|s: int|
                0 <= s < site ==> #[trigger] places@[s] == digits::power(levels as nat, s as nat),
        decreases sites - site,
    {
        places.push(place);
        site += 1;
        if site < sites {
            proof {
                lemma_mul_is_commutative(place as int, levels as int);
                digits::lemma_power_monotone(levels as nat, site as nat, (sites - 1) as nat);
            }
            place = match place.checked_mul(levels) {
                Some(next) => next,
                None => {
                    return Err(
                        QmbedError::UnsupportedBackend(
                            Reason::Text("spin-state place value exceeds the u128 backend"),
                        ),
                    );
                },
            };
        }
    }
    Ok(places)
}

/// Whether a basis is what the choices describe.
pub open spec fn spin_built(builder: SpinBasisBuilder, model: SpinModel) -> bool {
    &&& model.wf()
    &&& model.sites == builder.sites
    &&& model.spin_twice == builder.spin_twice
    &&& model.up == builder.up
    &&& model.normalization == builder.normalization
    &&& model.momentum == lattice_sectors::momentum_label(builder.momentum, builder.sites)
    &&& model.parity == builder.parity
    &&& builder.particle_sectors is None ==> model.sectors is None
    &&& builder.particle_sectors matches Some(list) ==> {
        &&& model.sectors is Some
        &&& forall|number: usize| #[trigger]
            model.sectors->0.contains(number) <==> list@.contains(number)
    }
}

/// The states of a chain before a lattice symmetry is used.
fn spin_parent_states(
    sites: usize,
    spin_twice: u16,
    up: Option<usize>,
    sectors: Option<&Vec<usize>>,
) -> (result: Result<Vec<u128>>)
    requires
        spin_twice > 0,
        sectors matches Some(list) ==> {
            &&& list@.len() > 0
            &&& ordered::strictly_sorted(list@)
            &&& forall|i: int|
                0 <= i < list@.len() ==> #[trigger] list@[i] <= spin_capacity(sites, spin_twice)
        },
    ensures
        match result {
            Ok(states) => {
                &&& spin_states_error(sites, spin_twice, up, symbols::optional_seq(sectors)) is None
                &&& lists_spin_parents(
                    states@,
                    sites as nat,
                    spin_twice,
                    up,
                    symbols::optional_seq(sectors),
                )
                &&& digits::power((spin_twice + 1) as nat, sites as nat) <= u128::MAX + 1
                &&& sectors is None && up is None ==> forall|i: int|
                    0 <= i < states@.len() ==> #[trigger] states@[i] == i
                &&& sectors is None && spin_twice == 1 ==> (up matches Some(count)
                    ==> weights::ranked_sector(states@, sites as nat, count))
            },
            Err(error) => spin_states_error(
                sites,
                spin_twice,
                up,
                symbols::optional_seq(sectors),
            ) == Some(error),
        },
{
    if spin_twice == 1 {
        let result = weights::fixed_weight_sector_states(sites, up, sectors);
        match result {
            Ok(states) => {
                proof {
                    let list = symbols::optional_seq(sectors);
                    lemma_weight_union_is_digit_union(states@, sites as nat, up, list);
                    digits::lemma_power_two(sites as nat);
                    crate::bits::lemma_pow2_128();
                    if sites < 128 {
                        lemma_pow2_strictly_increases(sites as nat, 128);
                    }
                }
                Ok(states)
            },
            Err(error) => Err(error),
        }
    } else {
        let levels: usize = spin_twice as usize + 1;
        match digits::fixed_digit_sum_sector_states(sites, levels, up, sectors) {
            Ok(states) => {
                proof {
                    if let Some(list) = sectors {
                        assert(list@[0] <= spin_capacity(sites, spin_twice));
                        assert(digits::digit_sector_error(sites, levels, Some(list@[0])) is None);
                        assert(digits::digit_sector_error(sites, levels, Some(0usize)) is None);
                    }
                }
                Ok(states)
            },
            Err(error) => {
                proof {
                    if let Some(list) = sectors {
                        let i = choose|i: int|
                            {
                                &&& 0 <= i < list@.len()
                                &&& digits::digit_sector_error(
                                    sites,
                                    levels,
                                    Some(#[trigger] list@[i]),
                                ) == Some(error)
                                &&& !digits::some_sum_refused(sites, levels, list@.take(i))
                            };
                        assert(list@[i] <= spin_capacity(sites, spin_twice));
                        assert(digits::digit_sector_error(sites, levels, Some(0usize)) == Some(
                            error,
                        )) by {
                            lemma_mul_nonnegative(sites as int, spin_twice as int);
                        }
                    }
                }
                Err(error)
            },
        }
    }
}

/// A union and its canonical form are refused for the same reason.
pub proof fn lemma_canonical_states_error(
    sites: usize,
    spin_twice: u16,
    up: Option<usize>,
    given: Option<Vec<usize>>,
    canonical: Option<Vec<usize>>,
)
    requires
        spin_twice > 0,
        given is Some <==> canonical is Some,
        given matches Some(list) ==> {
            &&& list@.len() > 0
            &&& canonical->0@.len() > 0
            &&& forall|number: usize| #[trigger]
                canonical->0@.contains(number) <==> list@.contains(number)
        },
    ensures
        spin_states_error(
            sites,
            spin_twice,
            up,
            match given {
                Some(list) => Some(list@),
                None => None,
            },
        ) == spin_states_error(
            sites,
            spin_twice,
            up,
            match canonical {
                Some(list) => Some(list@),
                None => None,
            },
        ),
{
    if let Some(list) = given {
        let other = canonical->0;
        if weights::exceeds(list@, sites) {
            let i = choose|i: int| 0 <= i < list@.len() && #[trigger] list@[i] > sites;
            assert(list@.contains(list@[i]));
            assert(other@.contains(list@[i]));
            let j = choose|j: int| 0 <= j < other@.len() && other@[j] == list@[i];
            assert(other@[j] > sites);
        }
        if weights::exceeds(other@, sites) {
            let i = choose|i: int| 0 <= i < other@.len() && #[trigger] other@[i] > sites;
            assert(other@.contains(other@[i]));
            let j = choose|j: int| 0 <= j < list@.len() && list@[j] == other@[i];
            assert(list@[j] > sites);
        }
    }
}

impl SpinBasisBuilder {
    /// Builds the basis that the choices describe.
    pub fn build(self) -> (result: Result<SpinBasis1D>)
        ensures
            match result {
                Ok(basis) => {
                    &&& spin_build_error(self) is None
                    &&& basis.wf()
                    &&& spin_built(self, basis@)
                },
                Err(error) => spin_build_error(self) == Some(error),
            },
    {
        if self.spin_twice == 0 {
            return Err(QmbedError::InvalidSector(Reason::Text("spin_twice must be positive")));
        }
        if self.normalization != SpinNormalization::AngularMomentum && self.spin_twice != 1 {
            return Err(
                QmbedError::InvalidOptions(
                    Reason::Text("the Pauli convention is defined only for spin one-half"),
                ),
            );
        }
        let levels: u128 = self.spin_twice as u128 + 1;
        let capacity: usize = match self.sites.checked_mul(self.spin_twice as usize) {
            Some(product) => product,
            None => usize::MAX,
        };
        let sectors: Option<Vec<usize>> = match &self.particle_sectors {
            Some(list) => match symbols::canonical_particle_sectors(
                list,
                capacity,
                "spin particle-sector union must be nonempty",
                "spin particle sector exceeds the local capacity",
            ) {
                Ok(canonical) => Some(canonical),
                Err(error) => {
                    return Err(error);
                },
            },
            None => None,
        };
        let place_values: Vec<u128> = match site_place_values(levels, self.sites) {
            Ok(places) => places,
            Err(error) => {
                return Err(error);
            },
        };
        let listed: Option<&Vec<usize>> = match &sectors {
            Some(list) => Some(list),
            None => None,
        };
        let parents: Vec<u128> = match spin_parent_states(
            self.sites,
            self.spin_twice,
            self.up,
            listed,
        ) {
            Ok(states) => states,
            Err(error) => {
                proof {
                    lemma_canonical_states_error(
                        self.sites,
                        self.spin_twice,
                        self.up,
                        self.particle_sectors,
                        sectors,
                    );
                }
                return Err(error);
            },
        };
        proof {
            lemma_canonical_states_error(
                self.sites,
                self.spin_twice,
                self.up,
                self.particle_sectors,
                sectors,
            );
            assert forall|i: int| 0 <= i < parents@.len() implies #[trigger] parents@[i]
                < digits::power(levels as nat, self.sites as nat) by {
                assert(parents@.contains(parents@[i]));
            }
            if self.sites > 0 {
                lattice_sectors::lemma_packable_sites(levels as nat, self.sites as nat);
            }
        }
        match spin_symmetry_sector(&parents, self.sites, levels, self.momentum, self.parity) {
            Ok(sector) => {
                let SymmetrySector { orbits, momentum, parity } = sector;
                let basis = SpinBasis1D {
                    sites: self.sites,
                    spin_twice: self.spin_twice,
                    up: self.up,
                    particle_sectors: sectors,
                    normalization: self.normalization,
                    place_values,
                    momentum,
                    parity,
                    orbits,
                    parents: Ghost(parents@),
                };
                proof {
                    assert(basis@.wf());
                    assert(basis.tables_agree());
                }
                Ok(basis)
            },
            Err(error) => {
                proof {
                    if lattice_sectors::spin_labels_error(self.sites, self.momentum, self.parity)
                        is None {
                        let label = lattice_sectors::momentum_label(self.momentum, self.sites);
                        let ring = lattice_sectors::lemma_ring_exists(
                            self.sites,
                            levels,
                            label,
                            self.parity,
                        );
                        law_symmetry_keeps_magnetization(
                            &ring,
                            parents@,
                            self.up,
                            symbols::optional_seq(listed),
                        );
                        assert(lattice_sectors::ring_of(
                            ring,
                            self.sites,
                            levels,
                            label,
                            self.parity,
                        ));
                        assert(false);
                    }
                }
                Err(error)
            },
        }
    }
}

/// Destinations of an operator string before a lattice symmetry is used.
pub open spec fn spin_action(
    chain: SpinChain,
    state: u128,
    operator: Seq<char>,
    sites: Seq<usize>,
) -> core::result::Result<Seq<(u128, Seq<LocalFactor>)>, QmbedError> {
    spin_symbol_action(chain, state, symbols::without_separators(operator), sites)
}

/// Destinations of a list of symbols before a lattice symmetry is used.
pub open spec fn spin_symbol_action(
    chain: SpinChain,
    state: u128,
    symbols: Seq<char>,
    sites: Seq<usize>,
) -> core::result::Result<Seq<(u128, Seq<LocalFactor>)>, QmbedError> {
    if symbols.len() != sites.len() {
        Err(
            QmbedError::InvalidCoupling(Reason::Arity {
                symbols: symbols.len() as usize,
                sites: sites.len() as usize,
            }),
        )
    } else {
        spin_branches(chain, state, symbols, sites, symbols.len(), Seq::empty())
    }
}

/// Whether a returned list of destinations is the stated one.
pub open spec fn local_transitions_are(
    result: Result<LocalTransitions>,
    stated: core::result::Result<Seq<(u128, Seq<LocalFactor>)>, QmbedError>,
) -> bool {
    match result {
        Ok(transitions) => stated == Ok::<Seq<(u128, Seq<LocalFactor>)>, QmbedError>(transitions@),
        Err(error) => stated == Err::<Seq<(u128, Seq<LocalFactor>)>, QmbedError>(error),
    }
}

/// The reduced form of a list of destinations: each target that belongs to a kept
/// orbit is replaced by its representative.
pub open spec fn reduced_transitions(
    branches: Seq<(u128, Seq<LocalFactor>)>,
    lookup: Map<u128, SymmetryImage>,
    source_orbit: usize,
    circle: usize,
) -> Seq<(u128, Seq<Factor<Turn>>)>
    decreases branches.len(),
{
    if branches.len() == 0 {
        Seq::empty()
    } else {
        let earlier = reduced_transitions(branches.drop_last(), lookup, source_orbit, circle);
        let (target, factors) = branches.last();
        if lookup.contains_key(target) {
            earlier.push(
                (
                    lookup[target].representative,
                    basis::local_factors::<Turn>(factors).push(
                        Factor::Reduced(reduction_of(lookup[target], source_orbit, circle)),
                    ),
                ),
            )
        } else {
            earlier
        }
    }
}

/// Amplitude of replacing a state by its representative.
pub open spec fn reduction_of(
    image: SymmetryImage,
    source_orbit: usize,
    circle: usize,
) -> ReductionFactor<Turn> {
    ReductionFactor {
        source_orbit,
        target_orbit: image.orbit_size,
        phase: Turn { steps: image.steps, circle },
    }
}

/// A list of destinations with their local factors only.
pub open spec fn unreduced_transitions(branches: Seq<(u128, Seq<LocalFactor>)>) -> Seq<
    (u128, Seq<Factor<Turn>>),
> {
    branches.map_values(
        |branch: (u128, Seq<LocalFactor>)| (branch.0, basis::local_factors::<Turn>(branch.1)),
    )
}

/// Destinations with their local factors only.
pub(crate) fn listed_branches(branches: &LocalTransitions) -> (transitions: Transitions<u128, Turn>)
    ensures
        basis::transitions_view(transitions@) == unreduced_transitions(branches@),
{
    let mut transitions: Transitions<u128, Turn> = Vec::new();
    let mut next: usize = 0;
    while next < branches.len()
        invariant
            next <= branches@.len(),
            transitions@.len() == next,
            forall|i: int|
                0 <= i < next ==> (#[trigger] transitions@[i]).0 == branches@[i].0
                    && transitions@[i].1@ == basis::local_factors::<Turn>(branches@[i].1),
        decreases branches@.len() - next,
    {
        let (target, factors) = branches.entry(next);
        transitions.push((target, basis::wrap_factors::<Turn>(factors)));
        next += 1;
    }
    assert(basis::transitions_view(transitions@) =~= unreduced_transitions(branches@));
    transitions
}

impl SpinModel {
    /// Size of the orbit of a basis state.
    pub open spec fn orbit_size_of(self, state: u128) -> usize {
        if self.reduced() {
            self.orbits.orbit_sizes@[self.orbits.states@.index_of(state)]
        } else {
            1
        }
    }
}

impl SpinBasis1D {
    proof fn lemma_states(&self)
        requires
            self.wf(),
        ensures
            weights::ascending(self.orbits.states@),
            self.orbits.orbit_sizes@.len() == self.orbits.states@.len(),
            forall|i: int|
                0 <= i < self.orbits.states@.len() ==> lattice::packable(
                    #[trigger] self.orbits.states@[i] as nat,
                    self.sites as nat,
                    (self.spin_twice + 1) as nat,
                ),
    {
        let levels = (self.spin_twice + 1) as nat;
        let n = self.sites as nat;
        if self@.reduced() {
            assert(self.momentum matches Some(k) ==> k < self.sites);
            let ring = lattice_sectors::lemma_ring_exists(
                self.sites,
                levels as u128,
                self.momentum,
                self.parity,
            );
            assert(orbits::sector_of(&ring, self@.parents, self.orbits));
            law_symmetry_keeps_magnetization(&ring, self@.parents, self.up, self@.sectors);
            assert forall|i: int| 0 <= i < self.orbits.states@.len() implies lattice::packable(
                #[trigger] self.orbits.states@[i] as nat,
                n,
                levels,
            ) by {
                let state = self.orbits.states@[i];
                assert(self.orbits.states@.contains(state));
                assert(orbits::reached(&ring, self@.parents, state));
                assert(self@.parents.contains(state));
            }
        } else {
            assert forall|i: int| 0 <= i < self.orbits.states@.len() implies lattice::packable(
                #[trigger] self.orbits.states@[i] as nat,
                n,
                levels,
            ) by {
                assert(self@.parents.contains(self.orbits.states@[i]));
            }
        }
    }

    /// Destinations of a list of symbols before a lattice symmetry is used.
    pub fn visit_unreduced_local_transitions_with_symbols(
        &self,
        state: u128,
        symbols: &[char],
        sites: &[usize],
    ) -> (result: Result<LocalTransitions>)
        requires
            self.wf(),
            self.acts_on(state),
        ensures
            local_transitions_are(
                result,
                spin_symbol_action(self@.chain(), state, symbols@, sites@),
            ),
    {
        if symbols.len() != sites.len() {
            return Err(
                QmbedError::InvalidCoupling(Reason::Arity { symbols: symbols.len(), sites: sites.len() }),
            );
        }
        let mut transitions = LocalTransitions::new();
        let visited = visit_spin_branches(
            &self.place_values,
            self.spin_twice,
            self.normalization,
            state,
            symbols,
            sites,
            symbols.len(),
            Vec::new(),
            &mut transitions,
        );
        match visited {
            Ok(_) => {
                proof {
                    let stated = spin_symbol_action(self@.chain(), state, symbols@, sites@);
                    assert(transitions@ =~= stated->Ok_0);
                }
                Ok(transitions)
            },
            Err(error) => Err(error),
        }
    }

    /// Destinations of an operator string before a lattice symmetry is used.
    pub fn unreduced_local_transitions(
        &self,
        state: u128,
        operator: &str,
        sites: &[usize],
    ) -> (result: Result<LocalTransitions>)
        requires
            self.wf(),
            self.acts_on(state),
        ensures
            local_transitions_are(result, spin_action(self@.chain(), state, operator@, sites@)),
    {
        let buffer: SymbolBuffer = match operator_chars(operator, sites) {
            Ok(buffer) => buffer,
            Err(error) => {
                return Err(error);
            },
        };
        self.visit_unreduced_local_transitions_with_symbols(state, buffer.as_slice(), sites)
    }

    /// Orbit size of a basis state, one where no lattice symmetry is used.
    pub fn orbit_size_at(&self, state: u128) -> (result: Result<usize>)
        requires
            self.wf(),
        ensures
            match result {
                Ok(size) => {
                    &&& self@.reduced() ==> self@.orbits.states@.contains(state)
                    &&& size == self@.orbit_size_of(state)
                },
                Err(error) => {
                    &&& self@.reduced() && !self@.orbits.states@.contains(state)
                    &&& error == QmbedError::StateNotInBasis
                },
            },
    {
        if self.momentum.is_none() && self.parity.is_none() {
            return Ok(1);
        }
        match self.index(state) {
            Ok(index) => {
                proof {
                    self.lemma_states();
                    self.states_distinct();
                    assert(self.orbits.states@[index as int] == state);
                    assert(self.orbits.states@.contains(state));
                }
                Ok(self.orbits.orbit_sizes[index])
            },
            Err(error) => Err(error),
        }
    }

    /// Steps of the full circle in which phases are counted.
    pub fn phase_circle(&self) -> (circle: usize)
        requires
            self.wf(),
        ensures
            circle == self@.circle(),
    {
        2 * self.sites
    }

    /// Canonical form of a state, if its orbit belongs to the basis.
    pub fn canonical_form(&self, state: u128) -> (result: Option<SymmetryImage>)
        requires
            self.wf(),
        ensures
            match result {
                Some(image) => {
                    &&& self@.orbits.lookup@.contains_key(state)
                    &&& image == self@.orbits.lookup@[state]
                },
                None => !self@.orbits.lookup@.contains_key(state),
            },
    {
        broadcast use vstd::std_specs::hash::group_hash_axioms;

        match self.orbits.lookup.get(&state) {
            Some(image) => Some(*image),
            None => None,
        }
    }

    /// Representative of a target and the amplitude of replacing the target by it.
    pub fn reduce_transition(&self, state: u128, source_orbit_size: usize) -> (result: Option<
        (u128, ReductionFactor<Turn>),
    >)
        requires
            self.wf(),
        ensures
            match result {
                Some((representative, factor)) => {
                    &&& self@.orbits.lookup@.contains_key(state)
                    &&& representative == self@.orbits.lookup@[state].representative
                    &&& factor == reduction_of(
                        self@.orbits.lookup@[state],
                        source_orbit_size,
                        self@.circle(),
                    )
                },
                None => !self@.orbits.lookup@.contains_key(state),
            },
    {
        match self.canonical_form(state) {
            Some(image) => Some(
                (
                    image.representative,
                    ReductionFactor {
                        source_orbit: source_orbit_size,
                        target_orbit: image.orbit_size,
                        phase: Turn { steps: image.steps, circle: 2 * self.sites },
                    },
                ),
            ),
            None => None,
        }
    }

    /// Number of the representative of a target and the amplitude of replacing the target
    /// by it; a target stands for itself where no lattice symmetry is used.
    pub fn index_transition(&self, state: u128, source_orbit_size: usize) -> (result: Result<
        Option<(usize, ReductionFactor<Turn>)>,
    >)
        requires
            self.wf(),
        ensures
            if !(self@.reduced()) {
                match result {
                    Ok(Some((index, factor))) => {
                        &&& index < self.spec_states().len()
                        &&& self.spec_states()[index as int] == state
                        &&& factor == ReductionFactor {
                            source_orbit: 1,
                            target_orbit: 1,
                            phase: Turn { steps: 0, circle: self@.circle() },
                        }
                    },
                    Ok(None) => !self.spec_states().contains(state),
                    Err(_) => false,
                }
            } else if !self@.orbits.lookup@.contains_key(state) {
                result matches Ok(None)
            } else {
                let image = self@.orbits.lookup@[state];
                match result {
                    Ok(Some((index, factor))) => {
                        &&& index < self.spec_states().len()
                        &&& self.spec_states()[index as int] == image.representative
                        &&& factor == reduction_of(image, source_orbit_size, self@.circle())
                    },
                    Ok(None) => false,
                    Err(error) => {
                        &&& !self.spec_states().contains(image.representative)
                        &&& error == QmbedError::StateNotInBasis
                    },
                }
            },
    {
        if self.momentum.is_none() && self.parity.is_none() {
            return match self.index(state) {
                Ok(index) => Ok(
                    Some(
                        (
                            index,
                            ReductionFactor {
                                source_orbit: 1,
                                target_orbit: 1,
                                phase: Turn { steps: 0, circle: self.phase_circle() },
                            },
                        ),
                    ),
                ),
                Err(_) => Ok(None),
            };
        }
        match self.reduce_transition(state, source_orbit_size) {
            None => Ok(None),
            Some((representative, factor)) => match self.index(representative) {
                Ok(index) => Ok(Some((index, factor))),
                Err(error) => Err(error),
            },
        }
    }
}

impl Basis for SpinBasis1D {
    type State = u128;

    type Phase = Turn;

    open spec fn wf(&self) -> bool {
        self@.wf() && self.tables_agree() && (self@.momentum matches Some(k) ==> k < self@.sites)
    }

    open spec fn spec_states(&self) -> Seq<u128> {
        self@.orbits.states@
    }

    open spec fn acts_on(&self, state: u128) -> bool {
        lattice::block_fits(state as nat, self@.sites as nat, self@.chain().levels())
    }

    open spec fn spec_transitions(
        &self,
        state: u128,
        operator: Seq<char>,
        sites: Seq<usize>,
    ) -> core::result::Result<Seq<(u128, Seq<Factor<Turn>>)>, QmbedError> {
        match spin_action(self@.chain(), state, operator, sites) {
            Err(error) => Err(error),
            Ok(branches) => if !self@.reduced() {
                Ok(unreduced_transitions(branches))
            } else if !self@.orbits.states@.contains(state) {
                Err(QmbedError::StateNotInBasis)
            } else {
                Ok(
                    reduced_transitions(
                        branches,
                        self@.orbits.lookup@,
                        self@.orbit_size_of(state),
                        self@.circle(),
                    ),
                )
            },
        }
    }

    open spec fn spec_preserves(&self, operator: Seq<char>) -> core::result::Result<
        bool,
        QmbedError,
    > {
        symbols::operator_keeps_selection(
            self@.up,
            self@.sectors,
            spin_capacity(self@.sites, self@.spin_twice),
            operator,
        )
    }

    open spec fn spec_preserves_on_sites(
        &self,
        operator: Seq<char>,
        sites: Seq<usize>,
    ) -> core::result::Result<bool, QmbedError> {
        self.spec_preserves(operator)
    }

    open spec fn faithful(&self) -> bool {
        true
    }

    proof fn states_distinct(&self) {
        self.lemma_states();
    }

    proof fn acts_on_states(&self, index: int) {
        self.lemma_states();
        lattice::lemma_block_fits(
            self.orbits.states@[index] as nat,
            self.sites as nat,
            (self.spin_twice + 1) as nat,
        );
    }

    fn len(&self) -> (length: usize) {
        self.orbits.states.len()
    }

    fn state(&self, index: usize) -> (result: Result<u128>) {
        if index < self.orbits.states.len() {
            Ok(self.orbits.states[index])
        } else {
            Err(QmbedError::StateNotInBasis)
        }
    }

    fn index(&self, state: u128) -> (result: Result<usize>) {
        proof {
            self.lemma_states();
        }
        if self.momentum.is_none() && self.parity.is_none() && self.particle_sectors.is_none() {
            match self.up {
                None => {
                    return weights::direct_state_index(&self.orbits.states, state);
                },
                Some(up) => {
                    if self.spin_twice == 1 {
                        return weights::ranked_state_index(
                            &self.orbits.states,
                            self.sites,
                            up,
                            state,
                        );
                    }
                },
            }
        }
        weights::state_index(&self.orbits.states, state)
    }

    fn apply_local_transitions(&self, state: u128, operator: &str, sites: &[usize]) -> (result:
        Result<Transitions<u128, Turn>>) {
        let branches: LocalTransitions = match self.unreduced_local_transitions(
            state,
            operator,
            sites,
        ) {
            Ok(branches) => branches,
            Err(error) => {
                return Err(error);
            },
        };
        if self.momentum.is_none() && self.parity.is_none() {
            return Ok(listed_branches(&branches));
        }
        let mut transitions: Transitions<u128, Turn> = Vec::new();
        let mut next: usize = 0;
        let source_orbit: usize = match self.orbit_size_at(state) {
            Ok(size) => size,
            Err(error) => {
                return Err(error);
            },
        };
        let ghost lookup = self@.orbits.lookup@;
        let ghost circle = self@.circle();
        assert(branches@.take(0) =~= Seq::empty());
        assert(basis::transitions_view(transitions@) =~= Seq::empty());
        while next < branches.len()
            invariant
                next <= branches@.len(),
                self.wf(),
                lookup == self@.orbits.lookup@,
                circle == self@.circle(),
                basis::transitions_view(transitions@) == reduced_transitions(
                    branches@.take(next as int),
                    lookup,
                    source_orbit,
                    circle,
                ),
            decreases branches@.len() - next,
        {
            let (target, factors) = branches.entry(next);
            let ghost before = transitions@;
            proof {
                assert(branches@.take(next + 1).drop_last() =~= branches@.take(next as int));
            }
            match self.reduce_transition(target, source_orbit) {
                Some((representative, factor)) => {
                    let mut amplitude: Vec<Factor<Turn>> = basis::wrap_factors::<Turn>(factors);
                    amplitude.push(Factor::Reduced(factor));
                    transitions.push((representative, amplitude));
                    proof {
                        assert(basis::transitions_view(transitions@) =~= basis::transitions_view(
                            before,
                        ).push((representative, amplitude@)));
                    }
                },
                None => {},
            }
            next += 1;
        }
        assert(branches@.take(next as int) =~= branches@);
        Ok(transitions)
    }

    fn operator_preserves_particle_sector_on_sites(
        &self,
        operator: &str,
        sites: &[usize],
    ) -> (result: Result<bool>) {
        self.operator_preserves_particle_sector(operator)
    }

    fn operator_preserves_particle_sector(&self, operator: &str) -> (result: Result<bool>) {
        let capacity: usize = match self.sites.checked_mul(self.spin_twice as usize) {
            Some(product) => product,
            None => usize::MAX,
        };
        let listed: Option<&Vec<usize>> = match &self.particle_sectors {
            Some(list) => Some(list),
            None => None,
        };
        symbols::operator_keeps_sectors(self.up, listed, capacity, operator)
    }
}

} // verus!

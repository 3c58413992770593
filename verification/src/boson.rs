//! Truncated on-site bosons.

use vstd::arithmetic::div_mod::*;
use vstd::arithmetic::mul::*;
use vstd::prelude::*;

use crate::amplitudes::{LocalFactor, Turn};
use crate::basis;
use crate::basis::{Basis, Factor, Transitions};
use crate::digits;
use crate::error::{OperatorFault, QmbedError, Reason, Result};
use crate::lattice;
use crate::ordered;
use crate::symbols;
use crate::symbols::{operator_chars, SymbolBuffer};
use crate::weights;

verus! {

/// At most one destination with the factors of its amplitude.
pub type Word = core::result::Result<Option<(u128, Seq<LocalFactor>)>, QmbedError>;

/// Whether a returned destination is the stated one.
pub open spec fn word_is(result: Result<Option<(u128, Vec<LocalFactor>)>>, stated: Word) -> bool {
    match result {
        Ok(Some(found)) => stated == Ok::<Option<(u128, Seq<LocalFactor>)>, QmbedError>(
            Some((found.0, found.1@)),
        ),
        Ok(None) => stated == Ok::<Option<(u128, Seq<LocalFactor>)>, QmbedError>(None),
        Err(error) => stated == Err::<Option<(u128, Seq<LocalFactor>)>, QmbedError>(error),
    }
}

/// Destination of the first `remaining` symbols, applied from the last to the
/// first, with the factors gathered so far in front.
pub open spec fn boson_word(
    chain_sites: usize,
    base: nat,
    state: u128,
    symbols: Seq<char>,
    sites: Seq<usize>,
    remaining: nat,
    amplitude: Seq<LocalFactor>,
) -> Word
    decreases remaining,
{
    if remaining == 0 {
        Ok(Some((state, amplitude)))
    } else {
        let position = (remaining - 1) as nat;
        let site = sites[position as int];
        let symbol = symbols[position as int];
        let place = digits::power(base, site as nat);
        let occupation = digits::digit(state as nat, base, site as nat);
        if site >= chain_sites {
            Err(QmbedError::InvalidSite { site, sites: chain_sites })
        } else if symbol == 'I' {
            boson_word(chain_sites, base, state, symbols, sites, position, amplitude)
        } else if symbol == 'n' {
            boson_word(
                chain_sites,
                base,
                state,
                symbols,
                sites,
                position,
                amplitude.push(LocalFactor::of_integer(occupation as i128)),
            )
        } else if symbol == 'z' {
            boson_word(
                chain_sites,
                base,
                state,
                symbols,
                sites,
                position,
                amplitude.push(LocalFactor::of_halves((2 * occupation - (base - 1)) as i128)),
            )
        } else if symbol == '+' {
            if occupation + 1 < base {
                boson_word(
                    chain_sites,
                    base,
                    (state + place) as u128,
                    symbols,
                    sites,
                    position,
                    amplitude.push(LocalFactor::of_root((occupation + 1) as u128)),
                )
            } else {
                Ok(None)
            }
        } else if symbol == '-' {
            if occupation > 0 {
                boson_word(
                    chain_sites,
                    base,
                    (state - place) as u128,
                    symbols,
                    sites,
                    position,
                    amplitude.push(LocalFactor::of_root(occupation as u128)),
                )
            } else {
                Ok(None)
            }
        } else {
            Err(QmbedError::InvalidOperator(OperatorFault::Symbol(symbol)))
        }
    }
}

/// Destination of a list of symbols.
pub open spec fn boson_symbol_action(
    chain_sites: usize,
    base: nat,
    state: u128,
    symbols: Seq<char>,
    sites: Seq<usize>,
) -> Word {
    if symbols.len() != sites.len() {
        Err(
            QmbedError::InvalidCoupling(Reason::Arity {
                symbols: symbols.len() as usize,
                sites: sites.len() as usize,
            }),
        )
    } else {
        boson_word(chain_sites, base, state, symbols, sites, symbols.len(), Seq::empty())
    }
}

/// A destination as a list of destinations.
pub open spec fn word_transitions(word: Word) -> core::result::Result<
    Seq<(u128, Seq<Factor<Turn>>)>,
    QmbedError,
> {
    match word {
        Ok(Some(found)) => Ok(seq![(found.0, basis::local_factors::<Turn>(found.1))]),
        Ok(None) => Ok(Seq::empty()),
        Err(error) => Err(error),
    }
}

/// Choices for a boson basis, made one by one.
#[derive(Debug)]
pub struct BosonBasisBuilder {
    pub sites: usize,
    pub particles: Option<usize>,
    pub particle_sectors: Option<Vec<usize>>,
    pub states_per_site: usize,
}

/// What a boson basis is: the chain, the selection and the listed states.
pub struct BosonModel {
    pub sites: usize,
    pub states_per_site: usize,
    pub particles: Option<usize>,
    pub sectors: Option<Seq<usize>>,
    pub states: Seq<u128>,
}

impl BosonModel {
    /// The invariant of a boson basis.
    pub open spec fn wf(self) -> bool {
        &&& self.sites > 0
        &&& self.states_per_site > 0
        &&& self.sites * (self.states_per_site - 1) <= usize::MAX
        &&& digits::power(self.states_per_site as nat, self.sites as nat) <= u128::MAX
        &&& self.sectors matches Some(list) ==> ordered::strictly_sorted(list)
        &&& digits::lists_digit_union(
            self.states,
            self.sites as nat,
            self.states_per_site as nat,
            self.particles,
            self.sectors,
        )
        &&& self.states.len() > 0
    }
}

/// Truncated on-site boson basis.
#[derive(Debug)]
pub struct BosonBasis1D {
    sites: usize,
    particles: Option<usize>,
    particle_sectors: Option<Vec<usize>>,
    states_per_site: usize,
    states: Vec<u128>,
}

impl View for BosonBasis1D {
    type V = BosonModel;

    closed spec fn view(&self) -> BosonModel {
        BosonModel {
            sites: self.sites,
            states_per_site: self.states_per_site,
            particles: self.particles,
            sectors: match self.particle_sectors {
                Some(list) => Some(list@),
                None => None,
            },
            states: self.states@,
        }
    }
}

impl BosonBasisBuilder {
    /// Selects one total occupation.
    pub fn particles(self, particles: usize) -> (builder: Self)
        ensures
            builder == (BosonBasisBuilder {
                particles: Some(particles),
                particle_sectors: None,
                ..self
            }),
    {
        BosonBasisBuilder { particles: Some(particles), particle_sectors: None, ..self }
    }

    /// Selects a union of total occupations.
    pub fn particle_sectors(self, sectors: Vec<usize>) -> (builder: Self)
        ensures
            builder == (BosonBasisBuilder {
                particle_sectors: Some(sectors),
                particles: None,
                ..self
            }),
    {
        BosonBasisBuilder { particle_sectors: Some(sectors), particles: None, ..self }
    }
}

/// The refusal of the choices for a boson basis, if they are refused.
pub open spec fn boson_build_error(builder: BosonBasisBuilder) -> Option<QmbedError> {
    let sites = builder.sites;
    let base = builder.states_per_site;
    let maximum = (sites * (base - 1)) as usize;
    let sectors_error = match builder.particle_sectors {
        Some(list) => symbols::particle_sectors_error(
            list@,
            maximum,
            "boson particle-sector union must be nonempty",
            "boson particle sector exceeds the local capacity",
        ),
        None => None,
    };
    if sites == 0 || base == 0 {
        Some(QmbedError::InvalidSector(Reason::Text("boson sites and states_per_site must be positive")))
    } else if builder.particles is Some && builder.particles->0 > maximum {
        Some(QmbedError::InvalidSector(Reason::Text("particle count exceeds the local cutoff")))
    } else if sectors_error is Some {
        sectors_error
    } else {
        digits::digit_sector_error(sites, base, None)
    }
}

/// Some word has any digit sum up to the capacity.
pub proof fn lemma_sum_reachable(total: nat, base: nat, sites: nat) -> (code: nat)
    requires
        base > 0,
        total <= sites * (base - 1),
    ensures
        code < digits::power(base, sites),
        digits::digit_sum(code, base, sites) == total,
    decreases sites,
{
    if sites == 0 {
        lemma_mul_by_zero_is_zero(base - 1);
        0
    } else {
        let low = if total < base {
            total
        } else {
            (base - 1) as nat
        };
        let d = (sites - 1) as nat;
        assert(total - low <= d * (base - 1)) by (nonlinear_arith)
            requires
                total <= sites * (base - 1),
                d == sites - 1,
                low == total || low == base - 1,
                base > 0,
                d >= 0,
        ;
        let high = lemma_sum_reachable((total - low) as nat, base, d);
        let code = high * base + low;
        lemma_fundamental_div_mod_converse(code as int, base as int, high as int, low as int);
        let p = digits::power(base, d);
        assert(code < base * p) by (nonlinear_arith)
            requires
                code == high * base + low,
                high < p,
                low < base,
        ;
        code
    }
}

impl BosonBasisBuilder {
    /// Builds the basis that the choices describe.
    pub fn build(self) -> (result: Result<BosonBasis1D>)
        requires
            self.states_per_site > 0 ==> self.sites * (self.states_per_site - 1) <= usize::MAX,
        ensures
            match result {
                Ok(basis) => {
                    &&& boson_build_error(self) is None
                    &&& basis.wf()
                    &&& basis@.sites == self.sites
                    &&& basis@.states_per_site == self.states_per_site
                    &&& basis@.particles == self.particles
                    &&& self.particle_sectors is None ==> basis@.sectors is None
                    &&& self.particle_sectors matches Some(list) ==> {
                        &&& basis@.sectors is Some
                        &&& forall|number: usize| #[trigger]
                            basis@.sectors->0.contains(number) <==> list@.contains(number)
                    }
                },
                Err(error) => boson_build_error(self) == Some(error),
            },
    {
        if self.sites == 0 || self.states_per_site == 0 {
            return Err(
                QmbedError::InvalidSector(Reason::Text("boson sites and states_per_site must be positive")),
            );
        }
        let maximum: usize = self.sites * (self.states_per_site - 1);
        if let Some(count) = self.particles {
            if count > maximum {
                return Err(QmbedError::InvalidSector(Reason::Text("particle count exceeds the local cutoff")));
            }
        }
        let sectors: Option<Vec<usize>> = match &self.particle_sectors {
            Some(list) => match symbols::canonical_particle_sectors(
                list,
                maximum,
                "boson particle-sector union must be nonempty",
                "boson particle sector exceeds the local capacity",
            ) {
                Ok(canonical) => Some(canonical),
                Err(error) => {
                    return Err(error);
                },
            },
            None => None,
        };
        let listed: Option<&Vec<usize>> = match &sectors {
            Some(list) => Some(list),
            None => None,
        };
        let states: Vec<u128> = match digits::fixed_digit_sum_sector_states(
            self.sites,
            self.states_per_site,
            self.particles,
            listed,
        ) {
            Ok(states) => states,
            Err(error) => {
                return Err(error);
            },
        };
        proof {
            if let Some(list) = listed {
                assert(list@[0] <= maximum);
                assert(digits::digit_sector_error(
                    self.sites,
                    self.states_per_site,
                    Some(list@[0]),
                ) is None);
            }
            let total: nat = match listed {
                Some(list) => list@[0] as nat,
                None => match self.particles {
                    Some(count) => count as nat,
                    None => 0,
                },
            };
            let base = self.states_per_site as nat;
            lemma_mul_nonnegative(self.sites as int, base - 1);
            let code = lemma_sum_reachable(total, base, self.sites as nat) as u128;
            if let Some(list) = listed {
                assert(symbols::lists_number(list@, total as int)) by {
                    assert(list@[0] == total);
                }
            }
            assert(digits::in_digit_union(
                code,
                self.sites as nat,
                base,
                self.particles,
                symbols::optional_seq(listed),
            ));
            assert(states@.contains(code));
        }
        Ok(
            BosonBasis1D {
                sites: self.sites,
                particles: self.particles,
                particle_sectors: sectors,
                states_per_site: self.states_per_site,
                states,
            },
        )
    }
}

impl BosonBasis1D {
    /// Starts the choices for a chain of truncated bosons.
    pub fn builder(sites: usize, states_per_site: usize) -> (builder: BosonBasisBuilder)
        ensures
            builder == (BosonBasisBuilder {
                sites,
                particles: None,
                particle_sectors: None,
                states_per_site,
            }),
    {
        BosonBasisBuilder { sites, particles: None, particle_sectors: None, states_per_site }
    }

    /// Number of sites.
    pub fn sites(&self) -> (sites: usize)
        ensures
            sites == self@.sites,
    {
        self.sites
    }

    /// The selected total occupation.
    pub fn particles(&self) -> (particles: Option<usize>)
        ensures
            particles == self@.particles,
    {
        self.particles
    }

    /// The selected union of total occupations.
    pub fn particle_sectors(&self) -> (sectors: Option<&Vec<usize>>)
        ensures
            symbols::optional_seq(sectors) == self@.sectors,
    {
        match &self.particle_sectors {
            Some(list) => Some(list),
            None => None,
        }
    }

    /// Levels of one site.
    pub fn states_per_site(&self) -> (states_per_site: usize)
        ensures
            states_per_site == self@.states_per_site,
    {
        self.states_per_site
    }

    /// Destination of a list of symbols.
    pub fn apply_local_symbols(&self, state: u128, symbols: &[char], sites: &[usize]) -> (result:
        Result<Option<(u128, Vec<LocalFactor>)>>)
        requires
            self.wf(),
            self.acts_on(state),
        ensures
            word_is(
                result,
                boson_symbol_action(
                    self@.sites,
                    self@.states_per_site as nat,
                    state,
                    symbols@,
                    sites@,
                ),
            ),
    {
        if symbols.len() != sites.len() {
            return Err(
                QmbedError::InvalidCoupling(Reason::Arity { symbols: symbols.len(), sites: sites.len() }),
            );
        }
        let base: u128 = self.states_per_site as u128;
        let mut current: u128 = state;
        let mut amplitude: Vec<LocalFactor> = Vec::new();
        let mut remaining: usize = symbols.len();
        while remaining > 0
            invariant
                remaining <= symbols@.len(),
                symbols@.len() == sites@.len(),
                self.wf(),
                self.acts_on(current),
                base == self.states_per_site,
                boson_word(
                    self@.sites,
                    base as nat,
                    current,
                    symbols@,
                    sites@,
                    remaining as nat,
                    amplitude@,
                ) == boson_symbol_action(self@.sites, base as nat, state, symbols@, sites@),
            decreases remaining,
        {
            let position: usize = remaining - 1;
            let site: usize = sites[position];
            let symbol: char = symbols[position];
            if site >= self.sites {
                return Err(QmbedError::InvalidSite { site, sites: self.sites });
            }
            proof {
                digits::lemma_power_monotone(base as nat, site as nat, self.sites as nat);
                lattice::lemma_step_digit(
                    current as nat,
                    site as nat,
                    self.sites as nat,
                    base as nat,
                );
                digits::lemma_power_positive(base as nat, site as nat);
            }
            let place: u128 = lattice::place_value(base, site);
            let occupation: u128 = (current / place) % base;
            proof {
                lemma_mod_bound((current / place) as int, base as int);
            }
            if symbol == 'I' {
            } else if symbol == 'n' {
                amplitude.push(LocalFactor::integer(occupation as i128));
            } else if symbol == 'z' {
                amplitude.push(
                    LocalFactor::halves(2 * (occupation as i128) - (base as i128 - 1)),
                );
            } else if symbol == '+' {
                if occupation + 1 < base {
                    current = current + place;
                    amplitude.push(LocalFactor::root(occupation + 1));
                } else {
                    return Ok(None);
                }
            } else if symbol == '-' {
                if occupation > 0 {
                    current = current - place;
                    amplitude.push(LocalFactor::root(occupation));
                } else {
                    return Ok(None);
                }
            } else {
                return Err(QmbedError::InvalidOperator(OperatorFault::Symbol(symbol)));
            }
            remaining = position;
        }
        Ok(Some((current, amplitude)))
    }

    /// Destination of an operator string.
    pub fn apply_local(&self, state: u128, operator: &str, sites: &[usize]) -> (result: Result<
        Option<(u128, Vec<LocalFactor>)>,
    >)
        requires
            self.wf(),
            self.acts_on(state),
        ensures
            word_is(
                result,
                boson_symbol_action(
                    self@.sites,
                    self@.states_per_site as nat,
                    state,
                    symbols::without_separators(operator@),
                    sites@,
                ),
            ),
    {
        let buffer: SymbolBuffer = match operator_chars(operator, sites) {
            Ok(buffer) => buffer,
            Err(error) => {
                return Err(error);
            },
        };
        self.apply_local_symbols(state, buffer.as_slice(), sites)
    }
}

/// At most one destination as a list.
pub(crate) fn listed_word(result: Result<Option<(u128, Vec<LocalFactor>)>>, Ghost(stated): Ghost<Word>) -> (
    listed: Result<Transitions<u128, Turn>>)
    requires
        word_is(result, stated),
    ensures
        basis::transitions_are(listed, word_transitions(stated)),
{
    match result {
        Ok(Some(found)) => {
            let mut transitions: Transitions<u128, Turn> = Vec::new();
            let amplitude: Vec<Factor<Turn>> = basis::wrap_factors::<Turn>(&found.1);
            transitions.push((found.0, amplitude));
            assert(basis::transitions_view(transitions@) =~= seq![
                (found.0, basis::local_factors::<Turn>(found.1@)),
            ]);
            Ok(transitions)
        },
        Ok(None) => {
            let transitions: Transitions<u128, Turn> = Vec::new();
            assert(basis::transitions_view(transitions@) =~= Seq::empty());
            Ok(transitions)
        },
        Err(error) => Err(error),
    }
}

impl Basis for BosonBasis1D {
    type State = u128;

    type Phase = Turn;

    open spec fn wf(&self) -> bool {
        self@.wf()
    }

    open spec fn spec_states(&self) -> Seq<u128> {
        self@.states
    }

    open spec fn acts_on(&self, state: u128) -> bool {
        lattice::block_fits(state as nat, self@.sites as nat, self@.states_per_site as nat)
    }

    open spec fn spec_transitions(
        &self,
        state: u128,
        operator: Seq<char>,
        sites: Seq<usize>,
    ) -> core::result::Result<Seq<(u128, Seq<Factor<Turn>>)>, QmbedError> {
        word_transitions(
            boson_symbol_action(
                self@.sites,
                self@.states_per_site as nat,
                state,
                symbols::without_separators(operator),
                sites,
            ),
        )
    }

    open spec fn spec_preserves(&self, operator: Seq<char>) -> core::result::Result<
        bool,
        QmbedError,
    > {
        symbols::operator_keeps_selection(
            self@.particles,
            self@.sectors,
            (self@.sites * (self@.states_per_site - 1)) as usize,
            operator,
        )
    }

    open spec fn spec_preserves_on_sites(
        &self,
        operator: Seq<char>,
        sites: Seq<usize>,
    ) -> core::result::Result<bool, QmbedError> {
        self.spec_preserves(operator)
    }

    open spec fn faithful(&self) -> bool {
        true
    }

    proof fn states_distinct(&self) {
    }

    proof fn acts_on_states(&self, index: int) {
        assert(self.states@.contains(self.states@[index]));
        lattice::lemma_block_fits(
            self.states@[index] as nat,
            self.sites as nat,
            self.states_per_site as nat,
        );
    }

    fn len(&self) -> (length: usize) {
        self.states.len()
    }

    fn state(&self, index: usize) -> (result: Result<u128>) {
        if index < self.states.len() {
            Ok(self.states[index])
        } else {
            Err(QmbedError::StateNotInBasis)
        }
    }

    fn index(&self, state: u128) -> (result: Result<usize>) {
        weights::state_index(&self.states, state)
    }

    fn apply_local_transitions(&self, state: u128, operator: &str, sites: &[usize]) -> (result:
        Result<Transitions<u128, Turn>>) {
        let word = self.apply_local(state, operator, sites);
        listed_word(
            word,
            Ghost(
                boson_symbol_action(
                    self@.sites,
                    self@.states_per_site as nat,
                    state,
                    symbols::without_separators(operator@),
                    sites@,
                ),
            ),
        )
    }

    fn operator_preserves_particle_sector_on_sites(
        &self,
        operator: &str,
        sites: &[usize],
    ) -> (result: Result<bool>) {
        self.operator_preserves_particle_sector(operator)
    }

    fn operator_preserves_particle_sector(&self, operator: &str) -> (result: Result<bool>) {
        let listed: Option<&Vec<usize>> = match &self.particle_sectors {
            Some(list) => Some(list),
            None => None,
        };
        symbols::operator_keeps_sectors(
            self.particles,
            listed,
            self.sites * (self.states_per_site - 1),
            operator,
        )
    }
}

} // verus!

//! Spin-half bases on fixed-width states of more than 128 sites.

use vstd::arithmetic::div_mod::*;
use vstd::arithmetic::mul::*;
use vstd::arithmetic::power2::*;
use vstd::prelude::*;

use crate::amplitudes::{LocalFactor, Turn};
use crate::basis;
use crate::basis::{Basis, Factor, Transitions};
use crate::bits;
use crate::error::{OperatorFault, QmbedError, Reason, Result};
use crate::ordered;
use crate::ordered::{find, sort_dedup, Ranked};
use crate::spin::SpinNormalization;
use crate::symbols;
use crate::symbols::{operator_chars, operator_number_change, SymbolBuffer};
use crate::wide;
use crate::wide::{python_int_to_basis_int, WideState};

verus! {

/// Words of `sites` binary digits whose number of ones is among the selected ones.
pub open spec fn in_wide_sector(sites: nat, sectors: Option<Seq<usize>>, value: nat) -> bool {
    &&& value < pow2(sites)
    &&& match sectors {
        Some(list) => symbols::lists_number(list, bits::ones(value) as int),
        None => true,
    }
}

/// Whether a list holds exactly the states of a sector, in ascending order.
pub open spec fn lists_wide_sector<const WORDS: usize>(
    sites: nat,
    sectors: Option<Seq<usize>>,
    states: Seq<WideState<WORDS>>,
) -> bool {
    &&& ordered::strictly_sorted(states)
    &&& forall|state: WideState<WORDS>| #[trigger]
        states.contains(state) <==> in_wide_sector(sites, sectors, state.value())
}

/// Whether a list holds exactly the states of a block that add `count` ones to its
/// first state, in ascending order.
spec fn lists_block<const WORDS: usize>(
    states: Seq<WideState<WORDS>>,
    first: nat,
    top: nat,
    count: nat,
) -> bool {
    &&& ordered::strictly_sorted(states)
    &&& forall|state: WideState<WORDS>| #[trigger]
        states.contains(state) <==> in_block(state.value(), first, top, count)
}

spec fn in_block(value: nat, first: nat, top: nat, count: nat) -> bool {
    &&& first <= value < first + pow2(top)
    &&& bits::ones((value - first) as nat) == count
}

/// Members of two lists put together.
proof fn lemma_joined<T>(left: Seq<T>, right: Seq<T>, item: T)
    ensures
        (left + right).contains(item) <==> left.contains(item) || right.contains(item),
{
    let whole = left + right;
    if left.contains(item) {
        let i = left.index_of(item);
        assert(whole[i] == item);
    }
    if right.contains(item) {
        let i = right.index_of(item);
        assert(whole[left.len() + i] == item);
    }
    if whole.contains(item) {
        let i = whole.index_of(item);
        if i < left.len() {
            assert(left[i] == item);
        } else {
            assert(right[i - left.len()] == item);
        }
    }
}

/// A block of one more site splits at the new digit.
proof fn lemma_block_grows(value: nat, first: nat, site: nat, count: nat)
    requires
        count > 0,
    ensures
        in_block(value, first, site + 1, count) <==> in_block(value, first, site, count)
            || in_block(value, first + pow2(site), site, (count - 1) as nat),
        in_block(value, first, site, count) ==> value < first + pow2(site),
{
    lemma_pow2_unfold(site + 1);
    lemma2_to64();
    if first + pow2(site) <= value < first + pow2(site + 1) {
        let low = (value - first - pow2(site)) as nat;
        lemma_mul_basics(pow2(site) as int);
        bits::lemma_ones_split(1, low, site);
        reveal_with_fuel(bits::ones, 2);
        assert(bits::ones(1) == 1);
    }
}

/// Adds the states of a block that have `remaining` more ones below `top`.
fn enumerate_block<const WORDS: usize>(
    top: usize,
    remaining: usize,
    state: WideState<WORDS>,
    output: &mut Vec<WideState<WORDS>>,
)
    requires
        WORDS * 64 <= usize::MAX,
        top <= WORDS * 64,
        state.value() % pow2(top as nat) == 0,
    ensures
        final(output)@.len() >= old(output)@.len(),
        final(output)@.take(old(output)@.len() as int) == old(output)@,
        lists_block(
            final(output)@.skip(old(output)@.len() as int),
            state.value(),
            top as nat,
            remaining as nat,
        ),
    decreases remaining,
{
    let ghost start = output@;
    let ghost n = start.len() as int;
    let ghost first = state.value();
    if remaining == 0 {
        output.push(state);
        proof {
            let added = output@.skip(n);
            assert(output@.take(n) =~= start);
            assert(added =~= seq![state]);
            assert forall|other: WideState<WORDS>| #[trigger] added.contains(other) <==> in_block(
                other.value(),
                first,
                top as nat,
                0,
            ) by {
                lemma_pow2_pos(top as nat);
                if in_block(other.value(), first, top as nat, 0) {
                    let low = (other.value() - first) as nat;
                    if low > 0 {
                        bits::lemma_ones_positive(low);
                    }
                    WideState::<WORDS>::law_value_identifies(other, state);
                    assert(added[0] == other);
                }
                if added.contains(other) {
                    assert(other == state);
                }
            }
        }
        return ;
    }
    let mut site: usize = remaining - 1;
    proof {
        let added = output@.skip(n);
        assert(added =~= Seq::empty());
        assert(output@.take(n) =~= start);
        assert forall|other: WideState<WORDS>| #[trigger] added.contains(other) <==> in_block(
            other.value(),
            first,
            site as nat,
            remaining as nat,
        ) by {
            if in_block(other.value(), first, site as nat, remaining as nat) {
                bits::lemma_ones_bound((other.value() - first) as nat, site as nat);
            }
        }
    }
    if site >= top {
        proof {
            let added = output@.skip(n);
            assert forall|other: WideState<WORDS>| #[trigger] added.contains(other) <==> in_block(
                other.value(),
                first,
                top as nat,
                remaining as nat,
            ) by {
                if in_block(other.value(), first, top as nat, remaining as nat) {
                    bits::lemma_ones_bound((other.value() - first) as nat, top as nat);
                }
            }
        }
        return ;
    }
    while site < top
        invariant
            site <= top,
            remaining > 0,
            WORDS * 64 <= usize::MAX,
            top <= WORDS * 64,
            first == state.value(),
            first % pow2(top as nat) == 0,
            n == start.len(),
            output@.len() >= n,
            output@.take(n) == start,
            lists_block(output@.skip(n), first, site as nat, remaining as nat),
        decreases top - site,
    {
        let ghost before = output@;
        let ghost kept = output@.skip(n);
        proof {
            lemma_clear_digit(first, site as nat, top as nat);
        }
        let next: WideState<WORDS> = match state.with_bit(site, true) {
            Ok(next) => next,
            Err(_) => state,
        };
        enumerate_block(site, remaining - 1, next, output);
        proof {
            let fresh = output@.skip(before.len() as int);
            let added = output@.skip(n);
            assert(output@.take(n) =~= before.take(n)) by {
                assert(output@.take(before.len() as int) =~= before);
                assert forall|i: int| 0 <= i < n implies output@.take(n)[i] == before.take(n)[i] by {
                    assert(output@.take(before.len() as int)[i] == before[i]);
                }
            }
            assert(added =~= kept + fresh) by {
                assert forall|i: int| 0 <= i < added.len() implies added[i] == (kept + fresh)[i] by {
                    if i < kept.len() {
                        assert(output@.take(before.len() as int)[n + i] == before[n + i]);
                    }
                }
            }
            assert forall|other: WideState<WORDS>| #[trigger] added.contains(other) <==> in_block(
                other.value(),
                first,
                (site + 1) as nat,
                remaining as nat,
            ) by {
                lemma_joined(kept, fresh, other);
                assert(kept.contains(other) <==> in_block(
                    other.value(),
                    first,
                    site as nat,
                    remaining as nat,
                ));
                assert(fresh.contains(other) <==> in_block(
                    other.value(),
                    next.value(),
                    site as nat,
                    (remaining - 1) as nat,
                ));
                lemma_block_grows(other.value(), first, site as nat, remaining as nat);
            }
            assert forall|i: int, j: int| 0 <= i < j < added.len() implies added[i].rank()
                < added[j].rank() by {
                if i < kept.len() && j >= kept.len() {
                    assert(kept.contains(kept[i]));
                    assert(fresh.contains(fresh[j - kept.len()]));
                    assert(added[i] == kept[i]);
                    assert(added[j] == fresh[j - kept.len()]);
                } else if i < kept.len() {
                    assert(kept[i].rank() < kept[j].rank());
                } else {
                    assert(fresh[i - kept.len()].rank() < fresh[j - kept.len()].rank());
                }
            }
        }
        site += 1;
    }
}

/// A word that is a multiple of a higher power has the digit clear.
proof fn lemma_clear_digit(word: nat, site: nat, top: nat)
    requires
        site < top,
        word % pow2(top) == 0,
    ensures
        !bits::bit_at(word, site),
        (word + pow2(site)) % pow2(site) == 0,
{
    let e = (top - site - 1) as nat;
    let p = pow2(site) as int;
    lemma_pow2_pos(site);
    lemma_pow2_pos(top);
    lemma_pow2_adds(site, e + 1);
    lemma_pow2_unfold(e + 1);
    lemma_fundamental_div_mod(word as int, pow2(top) as int);
    let q = word as int / pow2(top) as int;
    let h = q * pow2(e);
    assert(word as int == (2 * h) * p) by (nonlinear_arith)
        requires
            word as int == pow2(top) * q,
            pow2(top) as int == p * (2 * pow2(e)),
            h == q * pow2(e),
    ;
    assert((word + p) == (2 * h + 1) * p) by (nonlinear_arith)
        requires
            word as int == (2 * h) * p,
    ;
    lemma_div_by_multiple(2 * h, p);
    lemma_mod_multiples_basic(2 * h + 1, p);
}

/// Spin-half basis backed by a fixed-width state, including sites above 127.
#[derive(Clone, Debug)]
pub struct WideSpinBasis<const WORDS: usize> {
    sites: usize,
    particle_sectors: Option<Vec<usize>>,
    normalization: SpinNormalization,
    states: Vec<WideState<WORDS>>,
}

/// What a wide spin basis consists of.
pub struct WideSpinModel<const WORDS: usize> {
    pub sites: usize,
    pub sectors: Option<Seq<usize>>,
    pub normalization: SpinNormalization,
    pub states: Seq<WideState<WORDS>>,
}

/// Why sites and sectors are refused, if they are.
pub open spec fn wide_spin_error<const WORDS: usize>(
    sites: usize,
    sectors: Option<Seq<usize>>,
) -> Option<QmbedError> {
    if sites == 0 || sites > WORDS * 64 {
        Some(QmbedError::UnsupportedBackend(Reason::SitesOutOfRange { most: (WORDS * 64) as usize }))
    } else {
        match sectors {
            Some(list) => if some_above(list, sites) {
                Some(QmbedError::InvalidSector(Reason::Text("particle count exceeds the wide spin site count")))
            } else {
                None
            },
            None => if sites > 24 {
                Some(
                    QmbedError::InvalidOptions(
                        Reason::Text("an unrestricted wide spin basis above 24 sites is not enumerable; select a particle sector"),
                    ),
                )
            } else {
                None
            },
        }
    }
}

/// Whether a number of the list is above a limit.
pub open spec fn some_above(list: Seq<usize>, limit: usize) -> bool {
    exists|i: int| 0 <= i < list.len() && #[trigger] list[i] > limit
}

/// Whether a list holds the selected numbers, each once and in order.
pub open spec fn canonical(given: Seq<usize>, list: Seq<usize>) -> bool {
    &&& ordered::strictly_sorted(list)
    &&& forall|number: usize| #[trigger] list.contains(number) <==> given.contains(number)
}

/// The normalization that a flag selects.
pub open spec fn normalization_of(pauli: bool) -> SpinNormalization {
    if pauli {
        SpinNormalization::PauliCartesian
    } else {
        SpinNormalization::AngularMomentum
    }
}

fn choose_normalization(pauli: bool) -> (normalization: SpinNormalization)
    ensures
        normalization == normalization_of(pauli),
{
    if pauli {
        SpinNormalization::PauliCartesian
    } else {
        SpinNormalization::AngularMomentum
    }
}

/// One fixed number of particles, as a list of sectors.
pub open spec fn single_sector(particles: Option<usize>) -> Option<Seq<usize>> {
    match particles {
        Some(count) => Some(seq![count]),
        None => None,
    }
}

/// Factor of a `z` symbol.
pub open spec fn wide_z_factor(normalization: SpinNormalization, occupied: bool) -> LocalFactor {
    LocalFactor {
        numerator: if occupied {
            1i128
        } else {
            -1i128
        },
        halved: normalization == SpinNormalization::AngularMomentum,
        imaginary: false,
        radicand: 1,
    }
}

/// Factor of a ladder symbol.
pub open spec fn wide_ladder_factor(normalization: SpinNormalization) -> LocalFactor {
    LocalFactor::of_integer(
        if normalization == SpinNormalization::Pauli {
            2i128
        } else {
            1i128
        },
    )
}

/// Factor of an `x` or `y` symbol.
pub open spec fn wide_cartesian_factor(
    normalization: SpinNormalization,
    symbol: char,
    occupied: bool,
) -> LocalFactor {
    LocalFactor {
        numerator: if symbol == 'y' && !occupied {
            -1i128
        } else {
            1i128
        },
        halved: normalization == SpinNormalization::AngularMomentum,
        imaginary: symbol == 'y',
        radicand: 1,
    }
}

/// The state with one digit set or cleared.
pub open spec fn with_digit<const WORDS: usize>(
    state: WideState<WORDS>,
    site: usize,
    occupied: bool,
) -> WideState<WORDS> {
    wide::state_of::<WORDS>(wide::with_bit_value(state.value(), site as nat, occupied))
}

/// The only destination of an operator string, its last symbol applied first, with the
/// factors gathered so far in front.
pub open spec fn wide_spin_walk<const WORDS: usize>(
    sites: usize,
    normalization: SpinNormalization,
    state: WideState<WORDS>,
    symbols: Seq<char>,
    places: Seq<usize>,
    remaining: nat,
    amplitude: Seq<LocalFactor>,
) -> core::result::Result<Option<(WideState<WORDS>, Seq<LocalFactor>)>, QmbedError>
    decreases remaining,
{
    if remaining == 0 {
        Ok(Some((state, amplitude)))
    } else {
        let at = (remaining - 1) as nat;
        let site = places[at as int];
        let symbol = symbols[at as int];
        let occupied = bits::bit_at(state.value(), site as nat);
        if site >= sites {
            Err(QmbedError::InvalidSite { site, sites })
        } else if symbol == 'I' || (symbol == 'n' && occupied) {
            wide_spin_walk(sites, normalization, state, symbols, places, at, amplitude)
        } else if symbol == 'n' {
            Ok(None)
        } else if symbol == 'z' {
            wide_spin_walk(
                sites,
                normalization,
                state,
                symbols,
                places,
                at,
                amplitude.push(wide_z_factor(normalization, occupied)),
            )
        } else if symbol == '+' || symbol == '-' {
            if occupied == (symbol == '+') {
                Ok(None)
            } else {
                wide_spin_walk(
                    sites,
                    normalization,
                    with_digit(state, site, !occupied),
                    symbols,
                    places,
                    at,
                    amplitude.push(wide_ladder_factor(normalization)),
                )
            }
        } else if symbol == 'x' || symbol == 'y' {
            wide_spin_walk(
                sites,
                normalization,
                with_digit(state, site, !occupied),
                symbols,
                places,
                at,
                amplitude.push(wide_cartesian_factor(normalization, symbol, occupied)),
            )
        } else {
            Err(QmbedError::InvalidOperator(OperatorFault::Symbol(symbol)))
        }
    }
}

/// The only destination of an operator string.
pub open spec fn wide_spin_action<const WORDS: usize>(
    sites: usize,
    normalization: SpinNormalization,
    state: WideState<WORDS>,
    operator: Seq<char>,
    places: Seq<usize>,
) -> core::result::Result<Option<(WideState<WORDS>, Seq<LocalFactor>)>, QmbedError> {
    let chars = symbols::without_separators(operator);
    if chars.len() != places.len() {
        Err(
            QmbedError::InvalidCoupling(Reason::Arity { symbols: chars.len() as usize, sites: places.len() as usize }),
        )
    } else {
        wide_spin_walk(
            sites,
            normalization,
            state,
            chars,
            places,
            places.len(),
            Seq::empty(),
        )
    }
}

/// Whether a returned destination is the stated one.
pub open spec fn wide_action_is<const WORDS: usize>(
    result: Result<Option<(WideState<WORDS>, Vec<LocalFactor>)>>,
    stated: core::result::Result<Option<(WideState<WORDS>, Seq<LocalFactor>)>, QmbedError>,
) -> bool {
    match result {
        Ok(Some(pair)) => stated == Ok::<
            Option<(WideState<WORDS>, Seq<LocalFactor>)>,
            QmbedError,
        >(Some((pair.0, pair.1@))),
        Ok(None) => stated == Ok::<Option<(WideState<WORDS>, Seq<LocalFactor>)>, QmbedError>(None),
        Err(error) => stated == Err::<
            Option<(WideState<WORDS>, Seq<LocalFactor>)>,
            QmbedError,
        >(error),
    }
}

/// A destination as a list.
pub open spec fn listed_destination<const WORDS: usize>(
    stated: core::result::Result<Option<(WideState<WORDS>, Seq<LocalFactor>)>, QmbedError>,
) -> core::result::Result<Seq<(WideState<WORDS>, Seq<Factor<Turn>>)>, QmbedError> {
    match stated {
        Ok(Some(pair)) => Ok(seq![(pair.0, basis::local_factors::<Turn>(pair.1))]),
        Ok(None) => Ok(Seq::empty()),
        Err(error) => Err(error),
    }
}

impl<const WORDS: usize> View for WideSpinBasis<WORDS> {
    type V = WideSpinModel<WORDS>;

    closed spec fn view(&self) -> WideSpinModel<WORDS> {
        WideSpinModel {
            sites: self.sites,
            sectors: match self.particle_sectors {
                Some(list) => Some(list@),
                None => None,
            },
            normalization: self.normalization,
            states: self.states@,
        }
    }
}

impl<const WORDS: usize> WideSpinBasis<WORDS> {
    /// States in ascending order within the sites of the basis.
    pub open spec fn valid(&self) -> bool {
        &&& WORDS * 64 <= usize::MAX
        &&& 0 < self@.sites <= WORDS * 64
        &&& ordered::strictly_sorted(self@.states)
        &&& forall|i: int|
            0 <= i < self@.states.len() ==> (#[trigger] self@.states[i]).value() < pow2(
                self@.sites as nat,
            )
    }

    /// All states of the sites, or those of one particle number.
    pub fn new(sites: usize, particles: Option<usize>, pauli: bool) -> (result: Result<Self>)
        requires
            WORDS * 64 <= usize::MAX,
        ensures
            match result {
                Ok(built) => {
                    &&& wide_spin_error::<WORDS>(sites, single_sector(particles)) is None
                    &&& built.valid()
                    &&& built@.sites == sites
                    &&& built@.sectors == single_sector(particles)
                    &&& built@.normalization == normalization_of(pauli)
                    &&& lists_wide_sector(
                        sites as nat,
                        single_sector(particles),
                        built@.states,
                    )
                },
                Err(error) => wide_spin_error::<WORDS>(sites, single_sector(particles)) == Some(
                    error,
                ),
            },
    {
        Self::with_normalization(sites, particles, choose_normalization(pauli))
    }

    /// A nonempty union of fixed-particle sectors.
    pub fn from_particle_sectors(sites: usize, sectors: Vec<usize>, pauli: bool) -> (result: Result<
        Self,
    >)
        requires
            WORDS * 64 <= usize::MAX,
        ensures
            Self::union_built(sites, sectors@, normalization_of(pauli), result),
    {
        Self::from_particle_sectors_with_normalization(
            sites,
            sectors,
            choose_normalization(pauli),
        )
    }

    /// All states of the sites, or those of one particle number, with the given scales
    /// of the spin symbols.
    pub fn with_normalization(
        sites: usize,
        particles: Option<usize>,
        normalization: SpinNormalization,
    ) -> (result: Result<Self>)
        requires
            WORDS * 64 <= usize::MAX,
        ensures
            match result {
                Ok(built) => {
                    &&& wide_spin_error::<WORDS>(sites, single_sector(particles)) is None
                    &&& built.valid()
                    &&& built@.sites == sites
                    &&& built@.sectors == single_sector(particles)
                    &&& built@.normalization == normalization
                    &&& lists_wide_sector(
                        sites as nat,
                        single_sector(particles),
                        built@.states,
                    )
                },
                Err(error) => wide_spin_error::<WORDS>(sites, single_sector(particles)) == Some(
                    error,
                ),
            },
    {
        match particles {
            Some(count) => {
                let list: Vec<usize> = vec![count];
                assert(list@ =~= seq![count]);
                Self::from_optional_particle_sectors(sites, Some(list), normalization)
            },
            None => Self::from_optional_particle_sectors(sites, None, normalization),
        }
    }

    /// What a union of sectors leads to.
    pub open spec fn union_built(
        sites: usize,
        given: Seq<usize>,
        normalization: SpinNormalization,
        result: Result<Self>,
    ) -> bool {
        match result {
            Ok(built) => {
                &&& given.len() > 0
                &&& built@.sectors is Some
                &&& canonical(given, built@.sectors->0)
                &&& wide_spin_error::<WORDS>(sites, Some(given)) is None
                &&& built.valid()
                &&& built@.sites == sites
                &&& built@.normalization == normalization
                &&& lists_wide_sector(sites as nat, Some(given), built@.states)
            },
            Err(error) => if given.len() == 0 {
                error == QmbedError::InvalidSector(Reason::Text("wide spin sector union must be nonempty"))
            } else {
                wide_spin_error::<WORDS>(sites, Some(given)) == Some(error)
            },
        }
    }

    /// A nonempty union of fixed-particle sectors, with the given scales of the spin
    /// symbols.
    pub fn from_particle_sectors_with_normalization(
        sites: usize,
        sectors: Vec<usize>,
        normalization: SpinNormalization,
    ) -> (result: Result<Self>)
        requires
            WORDS * 64 <= usize::MAX,
        ensures
            Self::union_built(sites, sectors@, normalization, result),
    {
        let list: Vec<usize> = sort_dedup(&sectors);
        let ghost given = sectors@;
        let ghost ordered_list = list@;
        proof {
            if given.len() > 0 {
                assert(given.contains(given[0]));
                assert(list@.contains(given[0]));
            }
            if list@.len() > 0 {
                assert(list@.contains(list@[0]));
            }
            if some_above(given, sites) {
                let i = choose|i: int| 0 <= i < given.len() && #[trigger] given[i] > sites;
                assert(given.contains(given[i]));
                assert(list@.contains(given[i]));
                let j = list@.index_of(given[i]);
                assert(list@[j] > sites);
            }
            if some_above(list@, sites) {
                let i = choose|i: int| 0 <= i < list@.len() && #[trigger] list@[i] > sites;
                assert(list@.contains(list@[i]));
                let j = given.index_of(list@[i]);
                assert(given[j] > sites);
            }
            assert forall|value: nat| #[trigger] in_wide_sector(sites as nat, Some(list@), value)
                == in_wide_sector(sites as nat, Some(given), value) by {
                lemma_same_numbers(given, list@, bits::ones(value) as int);
            }
        }
        if list.len() == 0 {
            return Err(QmbedError::InvalidSector(Reason::Text("wide spin sector union must be nonempty")));
        }
        let result = Self::from_optional_particle_sectors(sites, Some(list), normalization);
        proof {
            if result is Ok {
                let built = result->Ok_0;
                assert forall|state: WideState<WORDS>| #[trigger] built@.states.contains(
                    state,
                ) <==> in_wide_sector(sites as nat, Some(given), state.value()) by {
                    assert(in_wide_sector(sites as nat, Some(ordered_list), state.value())
                        == in_wide_sector(sites as nat, Some(given), state.value()));
                }
            }
        }
        result
    }

    /// The same spin algebra on an explicitly selected physical state set.
    pub fn from_explicit_states_with_normalization(
        sites: usize,
        states: Vec<WideState<WORDS>>,
        normalization: SpinNormalization,
    ) -> (result: Result<Self>)
        requires
            WORDS * 64 <= usize::MAX,
        ensures
            match result {
                Ok(built) => {
                    &&& 0 < sites <= WORDS * 64
                    &&& !some_beyond(states@, sites)
                    &&& built.valid()
                    &&& built@.sites == sites
                    &&& built@.normalization == normalization
                    &&& forall|state: WideState<WORDS>| #[trigger]
                        built@.states.contains(state) <==> states@.contains(state)
                    &&& built@.sectors is Some
                    &&& ordered::strictly_sorted(built@.sectors->0)
                    &&& forall|count: usize| #[trigger]
                        built@.sectors->0.contains(count) <==> some_with_ones(states@, count)
                },
                Err(error) => if sites == 0 || sites > WORDS * 64 {
                    error == (QmbedError::UnsupportedBackend(Reason::SitesOutOfRange { most: (WORDS * 64) as usize }))
                } else {
                    &&& some_beyond(states@, sites)
                    &&& error == QmbedError::InvalidSector(
                        Reason::Text("an explicit wide spin state exceeds the requested site width"),
                    )
                },
            },
    {
        if sites == 0 || sites > WideState::<WORDS>::capacity_bits() {
            return Err(
                QmbedError::UnsupportedBackend(Reason::SitesOutOfRange { most: WideState::<WORDS>::capacity_bits() }),
            );
        }
        let mut counts: Vec<usize> = Vec::new();
        let mut next: usize = 0;
        while next < states.len()
            invariant
                next <= states@.len(),
                WORDS * 64 <= usize::MAX,
                0 < sites <= WORDS * 64,
                forall|i: int|
                    0 <= i < next ==> (#[trigger] states@[i]).value() < pow2(sites as nat),
                counts@.len() == next,
                forall|i: int|
                    0 <= i < next ==> #[trigger] counts@[i] == bits::ones(states@[i].value()),
            decreases states@.len() - next,
        {
            if states[next].has_bits_at_or_above(sites) {
                assert(states@[next as int].value() >= pow2(sites as nat));
                return Err(
                    QmbedError::InvalidSector(
                        Reason::Text("an explicit wide spin state exceeds the requested site width"),
                    ),
                );
            }
            counts.push(states[next].count_ones());
            next += 1;
        }
        let list: Vec<WideState<WORDS>> = sort_dedup(&states);
        let sectors: Vec<usize> = sort_dedup(&counts);
        let built = WideSpinBasis {
            sites,
            particle_sectors: Some(sectors),
            normalization,
            states: list,
        };
        proof {
            assert forall|i: int| 0 <= i < built@.states.len() implies (
            #[trigger] built@.states[i]).value() < pow2(sites as nat) by {
                assert(list@.contains(list@[i]));
                let j = states@.index_of(list@[i]);
                assert(states@[j].value() < pow2(sites as nat));
            }
            assert forall|count: usize| #[trigger] built@.sectors->0.contains(
                count,
            ) <==> some_with_ones(states@, count) by {
                assert(sectors@.contains(count) <==> counts@.contains(count));
                if counts@.contains(count) {
                    let i = counts@.index_of(count);
                    assert(counts@[i] == count);
                    assert(bits::ones(states@[i].value()) == count);
                }
                if some_with_ones(states@, count) {
                    let i = choose|i: int|
                        0 <= i < states@.len() && bits::ones((#[trigger] states@[i]).value())
                            == count;
                    assert(counts@[i] == count);
                }
            }
        }
        Ok(built)
    }

    fn from_optional_particle_sectors(
        sites: usize,
        particle_sectors: Option<Vec<usize>>,
        normalization: SpinNormalization,
    ) -> (result: Result<Self>)
        requires
            WORDS * 64 <= usize::MAX,
            particle_sectors is Some ==> ordered::strictly_sorted(particle_sectors->0@),
        ensures
            ({
                let sectors = match particle_sectors {
                    Some(list) => Some(list@),
                    None => None,
                };
                match result {
                    Ok(built) => {
                        &&& wide_spin_error::<WORDS>(sites, sectors) is None
                        &&& built.valid()
                        &&& built@.sites == sites
                        &&& built@.sectors == sectors
                        &&& built@.normalization == normalization
                        &&& lists_wide_sector(sites as nat, sectors, built@.states)
                    },
                    Err(error) => wide_spin_error::<WORDS>(sites, sectors) == Some(error),
                }
            }),
    {
        if sites == 0 || sites > WideState::<WORDS>::capacity_bits() {
            return Err(
                QmbedError::UnsupportedBackend(Reason::SitesOutOfRange { most: WideState::<WORDS>::capacity_bits() }),
            );
        }
        let mut gathered: Vec<WideState<WORDS>> = Vec::new();
        match &particle_sectors {
            Some(list) => {
                let mut next: usize = 0;
                while next < list.len()
                    invariant
                        next <= list@.len(),
                        0 < sites <= WORDS * 64,
                        particle_sectors is Some,
                        list@ == particle_sectors->0@,
                        forall|i: int| 0 <= i < next ==> #[trigger] list@[i] <= sites,
                    decreases list@.len() - next,
                {
                    if list[next] > sites {
                        return Err(
                            QmbedError::InvalidSector(
                                Reason::Text("particle count exceeds the wide spin site count"),
                            ),
                        );
                    }
                    next += 1;
                }
                next = 0;
                while next < list.len()
                    invariant
                        next <= list@.len(),
                        0 < sites <= WORDS * 64,
                        WORDS * 64 <= usize::MAX,
                        forall|state: WideState<WORDS>| #[trigger]
                            gathered@.contains(state) <==> in_wide_sector(
                                sites as nat,
                                Some(list@.take(next as int)),
                                state.value(),
                            ),
                    decreases list@.len() - next,
                {
                    let ghost before = gathered@;
                    let zero: WideState<WORDS> = WideState::<WORDS>::zero();
                    proof {
                        lemma_pow2_pos(sites as nat);
                        lemma_small_mod(0, pow2(sites as nat));
                    }
                    enumerate_block(sites, list[next], zero, &mut gathered);
                    proof {
                        let n = before.len() as int;
                        let fresh = gathered@.skip(n);
                        assert(gathered@ =~= before + fresh);
                        let part = list@.take(next as int);
                        let more = list@.take(next + 1);
                        assert forall|state: WideState<WORDS>| #[trigger] gathered@.contains(
                            state,
                        ) <==> in_wide_sector(sites as nat, Some(more), state.value()) by {
                            lemma_joined(before, fresh, state);
                            let count = bits::ones(state.value()) as int;
                            assert(before.contains(state) <==> in_wide_sector(
                                sites as nat,
                                Some(part),
                                state.value(),
                            ));
                            assert(fresh.contains(state) <==> in_block(
                                state.value(),
                                0,
                                sites as nat,
                                list@[next as int] as nat,
                            ));
                            lemma_one_more_number(list@, next as int, count);
                        }
                    }
                    next += 1;
                }
                assert(list@.take(next as int) =~= list@);
            },
            None => {
                if sites > 24 {
                    return Err(
                        QmbedError::InvalidOptions(
                            Reason::Text("an unrestricted wide spin basis above 24 sites is not enumerable; select a particle sector"),
                        ),
                    );
                }
                proof {
                    bits::lemma_shl_one(sites as u32);
                    if sites < 64 * WORDS {
                        lemma_pow2_strictly_increases(sites as nat, 64 * WORDS as nat);
                    }
                }
                let limit: u128 = 1u128 << sites;
                let mut value: u128 = 0;
                while value < limit
                    invariant
                        value <= limit,
                        limit == pow2(sites as nat),
                        pow2(sites as nat) <= pow2(64 * WORDS as nat),
                        forall|state: WideState<WORDS>| #[trigger]
                            gathered@.contains(state) <==> state.value() < value,
                    decreases limit - value,
                {
                    let ghost before = gathered@;
                    proof {
                        lemma_small_mod(value as nat, pow2(64 * WORDS as nat));
                    }
                    let state: WideState<WORDS> = python_int_to_basis_int::<WORDS>(value);
                    gathered.push(state);
                    proof {
                        assert forall|other: WideState<WORDS>| #[trigger] gathered@.contains(
                            other,
                        ) <==> other.value() < value + 1 by {
                            assert(gathered@ =~= before + seq![state]);
                            lemma_joined(before, seq![state], other);
                            assert(seq![state].contains(other) <==> other == state) by {
                                assert(seq![state][0] == state);
                            }
                            if other.value() == value {
                                WideState::<WORDS>::law_value_identifies(other, state);
                            }
                        }
                    }
                    value += 1;
                }
                assert forall|state: WideState<WORDS>| #[trigger] gathered@.contains(
                    state,
                ) <==> in_wide_sector(sites as nat, None, state.value()) by {
                }
            },
        }
        let states: Vec<WideState<WORDS>> = sort_dedup(&gathered);
        let ghost sectors = if particle_sectors is Some {
            Some(particle_sectors->0@)
        } else {
            None
        };
        proof {
            assert forall|state: WideState<WORDS>| #[trigger] states@.contains(
                state,
            ) <==> in_wide_sector(sites as nat, sectors, state.value()) by {
                assert(gathered@.contains(state) <==> in_wide_sector(
                    sites as nat,
                    sectors,
                    state.value(),
                ));
            }
            assert forall|i: int| 0 <= i < states@.len() implies (
            #[trigger] states@[i]).value() < pow2(sites as nat) by {
                assert(states@.contains(states@[i]));
            }
        }
        Ok(WideSpinBasis { sites, particle_sectors, normalization, states })
    }

    /// Number of sites.
    pub fn sites(&self) -> (sites: usize)
        ensures
            sites == self@.sites,
    {
        self.sites
    }

    /// The particle number, where there is exactly one.
    pub fn particles(&self) -> (particles: Option<usize>)
        ensures
            particles == match self@.sectors {
                Some(list) => if list.len() == 1 {
                    Some(list[0])
                } else {
                    None
                },
                None => None,
            },
    {
        match &self.particle_sectors {
            Some(list) => {
                if list.len() == 1 {
                    Some(list[0])
                } else {
                    None
                }
            },
            None => None,
        }
    }

    /// The selected particle numbers.
    pub fn particle_sectors(&self) -> (sectors: Option<&Vec<usize>>)
        ensures
            match sectors {
                Some(list) => self@.sectors == Some(list@),
                None => self@.sectors is None,
            },
    {
        match &self.particle_sectors {
            Some(list) => Some(list),
            None => None,
        }
    }

    /// Scales of the spin symbols.
    pub fn normalization(&self) -> (normalization: SpinNormalization)
        ensures
            normalization == self@.normalization,
    {
        self.normalization
    }

    /// The only destination of a local operator string.
    pub fn apply_local(&self, state: WideState<WORDS>, operator: &str, sites: &[usize]) -> (result:
        Result<Option<(WideState<WORDS>, Vec<LocalFactor>)>>)
        requires
            self.valid(),
        ensures
            wide_action_is(
                result,
                wide_spin_action(
                    self@.sites,
                    self@.normalization,
                    state,
                    operator@,
                    sites@,
                ),
            ),
    {
        let buffer: SymbolBuffer = match operator_chars(operator, sites) {
            Ok(buffer) => buffer,
            Err(error) => {
                return Err(error);
            },
        };
        let chars: &[char] = buffer.as_slice();
        let ghost whole = wide_spin_action(
            self@.sites,
            self@.normalization,
            state,
            operator@,
            sites@,
        );
        let mut current: WideState<WORDS> = state;
        let mut amplitude: Vec<LocalFactor> = Vec::new();
        let mut remaining: usize = sites.len();
        while remaining > 0
            invariant
                remaining <= sites@.len(),
                chars@.len() == sites@.len(),
                self.valid(),
                whole == wide_spin_action(
                    self@.sites,
                    self@.normalization,
                    state,
                    operator@,
                    sites@,
                ),
                whole == wide_spin_walk(
                    self@.sites,
                    self@.normalization,
                    current,
                    chars@,
                    sites@,
                    remaining as nat,
                    amplitude@,
                ),
            decreases remaining,
        {
            let at: usize = remaining - 1;
            let site: usize = sites[at];
            let symbol: char = chars[at];
            if site >= self.sites {
                return Err(QmbedError::InvalidSite { site, sites: self.sites });
            }
            let occupied: bool = match current.bit(site) {
                Ok(set) => set,
                Err(error) => {
                    return Err(error);
                },
            };
            let flipped: WideState<WORDS> = match current.with_bit(site, !occupied) {
                Ok(flipped) => flipped,
                Err(error) => {
                    return Err(error);
                },
            };
            proof {
                wide::lemma_state_of(flipped);
                assert(flipped == with_digit(current, site, !occupied));
            }
            if symbol == 'I' || (symbol == 'n' && occupied) {
            } else if symbol == 'n' {
                return Ok(None);
            } else if symbol == 'z' {
                amplitude.push(
                    LocalFactor {
                        numerator: if occupied {
                            1
                        } else {
                            -1
                        },
                        halved: self.normalization == SpinNormalization::AngularMomentum,
                        imaginary: false,
                        radicand: 1,
                    },
                );
            } else if symbol == '+' || symbol == '-' {
                if occupied == (symbol == '+') {
                    return Ok(None);
                }
                current = flipped;
                amplitude.push(
                    LocalFactor::integer(
                        if self.normalization == SpinNormalization::Pauli {
                            2
                        } else {
                            1
                        },
                    ),
                );
            } else if symbol == 'x' || symbol == 'y' {
                current = flipped;
                amplitude.push(
                    LocalFactor {
                        numerator: if symbol == 'y' && !occupied {
                            -1
                        } else {
                            1
                        },
                        halved: self.normalization == SpinNormalization::AngularMomentum,
                        imaginary: symbol == 'y',
                        radicand: 1,
                    },
                );
            } else {
                return Err(QmbedError::InvalidOperator(OperatorFault::Symbol(symbol)));
            }
            remaining = at;
        }
        Ok(Some((current, amplitude)))
    }
}

/// Whether a state has digits beyond the sites.
pub open spec fn some_beyond<const WORDS: usize>(
    states: Seq<WideState<WORDS>>,
    sites: usize,
) -> bool {
    exists|i: int|
        0 <= i < states.len() && (#[trigger] states[i]).value() >= pow2(sites as nat)
}

/// Whether a state has a number of ones.
pub open spec fn some_with_ones<const WORDS: usize>(
    states: Seq<WideState<WORDS>>,
    count: usize,
) -> bool {
    exists|i: int|
        0 <= i < states.len() && bits::ones((#[trigger] states[i]).value()) == count
}

/// Lists with the same members list the same numbers.
proof fn lemma_same_numbers(left: Seq<usize>, right: Seq<usize>, number: int)
    requires
        forall|item: usize| #[trigger] right.contains(item) <==> left.contains(item),
    ensures
        symbols::lists_number(left, number) == symbols::lists_number(right, number),
{
    if symbols::lists_number(left, number) {
        let i = choose|i: int| 0 <= i < left.len() && #[trigger] left[i] == number;
        assert(left.contains(left[i]));
        assert(right.contains(left[i]));
        let j = right.index_of(left[i]);
        assert(right[j] == number);
    }
    if symbols::lists_number(right, number) {
        let i = choose|i: int| 0 <= i < right.len() && #[trigger] right[i] == number;
        assert(right.contains(right[i]));
        let j = left.index_of(right[i]);
        assert(left[j] == number);
    }
}

/// One more entry lists one more number.
proof fn lemma_one_more_number(list: Seq<usize>, next: int, number: int)
    requires
        0 <= next < list.len(),
    ensures
        symbols::lists_number(list.take(next + 1), number) <==> symbols::lists_number(
            list.take(next),
            number,
        ) || list[next] == number,
{
    let part = list.take(next);
    let more = list.take(next + 1);
    if symbols::lists_number(part, number) {
        let i = choose|i: int| 0 <= i < part.len() && #[trigger] part[i] == number;
        assert(more[i] == number);
    }
    if list[next] == number {
        assert(more[next] == number);
    }
    if symbols::lists_number(more, number) {
        let i = choose|i: int| 0 <= i < more.len() && #[trigger] more[i] == number;
        if i < next {
            assert(part[i] == number);
        }
    }
}

/// Whether an operator string keeps the number of particles, where it matters.
pub open spec fn keeps_number(restricted: bool, operator: Seq<char>) -> core::result::Result<
    bool,
    QmbedError,
> {
    if !restricted {
        Ok(true)
    } else {
        match symbols::number_change(operator, 0) {
            Ok(change) => Ok(change == Some(0int)),
            Err(error) => Err(error),
        }
    }
}

/// Whether an operator string keeps the number of particles, where it matters.
pub fn operator_keeps_number(restricted: bool, operator: &str) -> (result: Result<bool>)
    requires
        operator@.len() <= i32::MAX,
    ensures
        result == keeps_number(restricted, operator@),
{
    if !restricted {
        return Ok(true);
    }
    match operator_number_change(operator) {
        Ok(Some(change)) => Ok(change == 0),
        Ok(None) => Ok(false),
        Err(error) => Err(error),
    }
}

impl<const WORDS: usize> Basis for WideSpinBasis<WORDS> {
    type State = WideState<WORDS>;

    type Phase = Turn;

    open spec fn wf(&self) -> bool {
        self.valid()
    }

    open spec fn spec_states(&self) -> Seq<WideState<WORDS>> {
        self@.states
    }

    open spec fn acts_on(&self, state: WideState<WORDS>) -> bool {
        true
    }

    open spec fn spec_transitions(
        &self,
        state: WideState<WORDS>,
        operator: Seq<char>,
        sites: Seq<usize>,
    ) -> core::result::Result<Seq<(WideState<WORDS>, Seq<Factor<Turn>>)>, QmbedError> {
        listed_destination(
            wide_spin_action(self@.sites, self@.normalization, state, operator, sites),
        )
    }

    open spec fn spec_preserves(&self, operator: Seq<char>) -> core::result::Result<
        bool,
        QmbedError,
    > {
        keeps_number(self@.sectors is Some, operator)
    }

    open spec fn spec_preserves_on_sites(
        &self,
        operator: Seq<char>,
        sites: Seq<usize>,
    ) -> core::result::Result<bool, QmbedError> {
        self.spec_preserves(operator)
    }

    open spec fn faithful(&self) -> bool {
        true
    }

    proof fn states_distinct(&self) {
        assert forall|i: int, j: int|
            0 <= i < self@.states.len() && 0 <= j < self@.states.len() && i
                != j implies self@.states[i] != self@.states[j] by {
            if i < j {
                assert(self@.states[i].rank() < self@.states[j].rank());
            } else {
                assert(self@.states[j].rank() < self@.states[i].rank());
            }
        }
    }

    proof fn acts_on_states(&self, index: int) {
    }

    fn len(&self) -> (length: usize) {
        self.states.len()
    }

    fn state(&self, index: usize) -> (result: Result<WideState<WORDS>>) {
        if index < self.states.len() {
            Ok(self.states[index])
        } else {
            Err(QmbedError::StateNotInBasis)
        }
    }

    fn index(&self, state: WideState<WORDS>) -> (result: Result<usize>) {
        match find(&self.states, state) {
            Some(index) => Ok(index),
            None => Err(QmbedError::StateNotInBasis),
        }
    }

    fn apply_local_transitions(&self, state: WideState<WORDS>, operator: &str, sites: &[usize]) -> (result:
        Result<Transitions<WideState<WORDS>, Turn>>) {
        let mut transitions: Transitions<WideState<WORDS>, Turn> = Vec::new();
        match self.apply_local(state, operator, sites) {
            Ok(Some((target, factors))) => {
                transitions.push((target, basis::wrap_factors::<Turn>(&factors)));
                assert(basis::transitions_view(transitions@) =~= seq![
                    (target, basis::local_factors::<Turn>(factors@)),
                ]);
                Ok(transitions)
            },
            Ok(None) => {
                assert(basis::transitions_view(transitions@) =~= Seq::empty());
                Ok(transitions)
            },
            Err(error) => Err(error),
        }
    }

    fn operator_preserves_particle_sector_on_sites(
        &self,
        operator: &str,
        sites: &[usize],
    ) -> (result: Result<bool>) {
        self.operator_preserves_particle_sector(operator)
    }

    fn operator_preserves_particle_sector(&self, operator: &str) -> (result: Result<bool>) {
        operator_keeps_number(self.particle_sectors.is_some(), operator)
    }
}

/// Spin basis on 256-bit states.
pub type WideSpinBasis256 = WideSpinBasis<4>;

/// Spin basis on 1024-bit states.
pub type WideSpinBasis1024 = WideSpinBasis<16>;

/// Spin basis on 4096-bit states.
pub type WideSpinBasis4096 = WideSpinBasis<64>;

/// Spin basis on 16384-bit states.
pub type WideSpinBasis16384 = WideSpinBasis<256>;

} // verus!

//! Operator strings on wide spin states: the algebra is that of a chain of spins one half.

use vstd::arithmetic::power2::pow2;
use vstd::prelude::*;

use crate::amplitudes::LocalFactor;
use crate::bits;
use crate::boson_algebra;
use crate::digits;
use crate::error::QmbedError;
use crate::spin::{SpinChain, SpinNormalization};
use crate::spin_algebra;
use crate::wide;
use crate::wide::WideState;
use crate::wide_spin;
use crate::wide_spin::wide_spin_walk;

verus! {

/// Whether two states differ on one site and nowhere else.
pub open spec fn differ_only_at<const WORDS: usize>(
    left: WideState<WORDS>,
    right: WideState<WORDS>,
    site: nat,
) -> bool {
    forall|i: nat|
        i < 64 * WORDS as nat ==> (#[trigger] bits::bit_at(left.value(), i) == bits::bit_at(
            right.value(),
            i,
        ) <==> i != site)
}

/// What one symbol on one site does to a wide state.
pub open spec fn wide_symbol<const WORDS: usize>(
    sites: usize,
    normalization: SpinNormalization,
    state: WideState<WORDS>,
    symbol: char,
    site: usize,
) -> core::result::Result<Option<(WideState<WORDS>, Seq<LocalFactor>)>, QmbedError> {
    wide_spin_walk(sites, normalization, state, seq![symbol], seq![site], 1, Seq::empty())
}

proof fn lemma_bit_is_digit(value: nat, index: nat)
    ensures
        bits::bit_at(value, index) <==> digits::digit(value, 2, index) == 1,
        digits::digit(value, 2, index) < 2,
{
    digits::lemma_power_two(index);
}

proof fn lemma_lowered<const WORDS: usize>(
    upper: WideState<WORDS>,
    lower: WideState<WORDS>,
    site: nat,
)
    requires
        differ_only_at(upper, lower, site),
        site < 64 * WORDS as nat,
        bits::bit_at(upper.value(), site),
    ensures
        upper.value() == lower.value() + pow2(site),
{
    let (u, l) = (upper.value(), lower.value());
    upper.lemma_value();
    lower.lemma_value();
    digits::lemma_power_two(site);
    lemma_bit_is_digit(u, site);
    boson_algebra::lemma_moved_digit(u, site, 2, site);
    let less = (u - pow2(site)) as nat;
    assert forall|i: nat| i < 64 * WORDS as nat implies #[trigger] bits::bit_at(less, i)
        == bits::bit_at(l, i) by {
        boson_algebra::lemma_moved_digit(u, site, 2, i);
        lemma_bit_is_digit(less, i);
        lemma_bit_is_digit(u, i);
        lemma_bit_is_digit(l, i);
        assert(bits::bit_at(u, i) == bits::bit_at(l, i) <==> i != site);
    }
    wide::lemma_bits_identify(less, l, 64 * WORDS as nat);
}

proof fn lemma_turned<const WORDS: usize>(
    state: WideState<WORDS>,
    turned: WideState<WORDS>,
    site: usize,
)
    requires
        differ_only_at(state, turned, site as nat),
        site < 64 * WORDS as nat,
    ensures
        wide_spin::with_digit(state, site, !bits::bit_at(state.value(), site as nat)) == turned,
{
    let at = site as nat;
    assert(bits::bit_at(state.value(), at) != bits::bit_at(turned.value(), at));
    if bits::bit_at(state.value(), at) {
        lemma_lowered(state, turned, at);
    } else {
        lemma_lowered(turned, state, at);
    }
    wide::lemma_state_of(turned);
}

/// A symbol acts on one spin of a wide state as it acts on a spin one half of a chain that stands
/// in the same level: it leads to nothing for both or to one state for both, with factors of
/// equal value. `z` keeps the state; the ladder and Cartesian symbols turn over that one spin.
pub proof fn law_wide_symbols_are_spins_one_half<const WORDS: usize>(
    sites: usize,
    state: WideState<WORDS>,
    turned: WideState<WORDS>,
    symbol: char,
    site: usize,
    chain: SpinChain,
    word: u128,
)
    requires
        site < sites,
        sites <= WORDS * 64,
        differ_only_at(state, turned, site as nat),
        site < chain.sites,
        chain.spin_twice == 1,
        digits::digit(word as nat, 2, site as nat) == if bits::bit_at(
            state.value(),
            site as nat,
        ) {
            1nat
        } else {
            0nat
        },
        symbol == 'I' || symbol == 'z' || symbol == '+' || symbol == '-' || symbol == 'x' || symbol
            == 'y',
    ensures
        ({
            let narrow = spin_algebra::symbol_branches(chain, word, site, symbol)->Ok_0;
            let here = wide_symbol(sites, chain.normalization, state, symbol, site);
            &&& spin_algebra::symbol_branches(chain, word, site, symbol) is Ok
            &&& here is Ok
            &&& narrow.len() == 0 <==> here->Ok_0 is None
            &&& narrow.len() > 0 ==> {
                let (target, factors) = here->Ok_0->Some_0;
                &&& narrow.len() == 1
                &&& target == if symbol == 'I' || symbol == 'z' {
                    state
                } else {
                    turned
                }
                &&& factors.len() == narrow[0].1.len()
                &&& forall|f: int|
                    0 <= f < factors.len() ==> spin_algebra::twice(#[trigger] factors[f])
                        == spin_algebra::twice(narrow[0].1[f]) && factors[f].radicand
                        == narrow[0].1[f].radicand
            }
        }),
{
    reveal_with_fuel(wide_spin_walk, 2);
    spin_algebra::lemma_spelled_out(chain, word, site, symbol);
    lemma_turned(state, turned, site);
    let level = digits::digit(word as nat, 2, site as nat);
    assert(chain.levels() == 2);
    assert((1 - level) * (level + 1) == if level == 0 {
        1int
    } else {
        0
    }) by (nonlinear_arith)
        requires
            level == 0 || level == 1,
    ;
    assert(level * (1 - level + 1) == level) by (nonlinear_arith)
        requires
            level == 0 || level == 1,
    ;
}

/// The counting symbol keeps exactly the states with its spin up, without a factor.
pub proof fn law_wide_counter_keeps_spins_up<const WORDS: usize>(
    sites: usize,
    normalization: SpinNormalization,
    state: WideState<WORDS>,
    site: usize,
)
    requires
        site < sites,
    ensures
        wide_symbol(sites, normalization, state, 'n', site) == Ok::<
            Option<(WideState<WORDS>, Seq<LocalFactor>)>,
            QmbedError,
        >(
            if bits::bit_at(state.value(), site as nat) {
                Some((state, Seq::empty()))
            } else {
                None
            },
        ),
{
    reveal_with_fuel(wide_spin_walk, 2);
}

/// Factors in front of what a string gives.
pub open spec fn after_factors<State>(
    factors: Seq<LocalFactor>,
    found: core::result::Result<Option<(State, Seq<LocalFactor>)>, QmbedError>,
) -> core::result::Result<Option<(State, Seq<LocalFactor>)>, QmbedError> {
    match found {
        Ok(Some((target, more))) => Ok(Some((target, factors + more))),
        Ok(None) => Ok(None),
        Err(error) => Err(error),
    }
}

proof fn lemma_factors_in_front<const WORDS: usize>(
    sites: usize,
    normalization: SpinNormalization,
    state: WideState<WORDS>,
    symbols: Seq<char>,
    places: Seq<usize>,
    remaining: nat,
    amplitude: Seq<LocalFactor>,
    more: Seq<LocalFactor>,
)
    ensures
        wide_spin_walk(
            sites,
            normalization,
            state,
            symbols,
            places,
            remaining,
            amplitude + more,
        ) == after_factors(
            amplitude,
            wide_spin_walk(sites, normalization, state, symbols, places, remaining, more),
        ),
    decreases remaining,
{
    if remaining > 0 {
        let at = (remaining - 1) as nat;
        let site = places[at as int];
        let symbol = symbols[at as int];
        let occupied = bits::bit_at(state.value(), site as nat);
        let turned = wide_spin::with_digit(state, site, !occupied);
        let z = wide_spin::wide_z_factor(normalization, occupied);
        let ladder = wide_spin::wide_ladder_factor(normalization);
        let cartesian = wide_spin::wide_cartesian_factor(normalization, symbol, occupied);
        if symbol == 'I' || symbol == 'n' {
            lemma_factors_in_front(
                sites,
                normalization,
                state,
                symbols,
                places,
                at,
                amplitude,
                more,
            );
        } else if symbol == 'z' {
            assert((amplitude + more).push(z) =~= amplitude + more.push(z));
            lemma_factors_in_front(
                sites,
                normalization,
                state,
                symbols,
                places,
                at,
                amplitude,
                more.push(z),
            );
        } else if symbol == '+' || symbol == '-' {
            assert((amplitude + more).push(ladder) =~= amplitude + more.push(ladder));
            lemma_factors_in_front(
                sites,
                normalization,
                turned,
                symbols,
                places,
                at,
                amplitude,
                more.push(ladder),
            );
        } else {
            assert((amplitude + more).push(cartesian) =~= amplitude + more.push(cartesian));
            lemma_factors_in_front(
                sites,
                normalization,
                turned,
                symbols,
                places,
                at,
                amplitude,
                more.push(cartesian),
            );
        }
    }
}

proof fn lemma_beginning<const WORDS: usize>(
    sites: usize,
    normalization: SpinNormalization,
    state: WideState<WORDS>,
    left: Seq<char>,
    left_sites: Seq<usize>,
    right: Seq<char>,
    right_sites: Seq<usize>,
    remaining: nat,
    amplitude: Seq<LocalFactor>,
)
    requires
        left.len() == left_sites.len(),
        remaining <= left.len(),
    ensures
        wide_spin_walk(
            sites,
            normalization,
            state,
            left + right,
            left_sites + right_sites,
            remaining,
            amplitude,
        ) == wide_spin_walk(
            sites,
            normalization,
            state,
            left,
            left_sites,
            remaining,
            amplitude,
        ),
    decreases remaining,
{
    if remaining > 0 {
        let at = (remaining - 1) as nat;
        let site = left_sites[at as int];
        let symbol = left[at as int];
        assert((left + right)[at as int] == symbol);
        assert((left_sites + right_sites)[at as int] == site);
        let occupied = bits::bit_at(state.value(), site as nat);
        let turned = wide_spin::with_digit(state, site, !occupied);
        let next = if symbol == '+' || symbol == '-' || symbol == 'x' || symbol == 'y' {
            turned
        } else {
            state
        };
        let longer = if symbol == 'z' {
            amplitude.push(wide_spin::wide_z_factor(normalization, occupied))
        } else if symbol == '+' || symbol == '-' {
            amplitude.push(wide_spin::wide_ladder_factor(normalization))
        } else if symbol == 'x' || symbol == 'y' {
            amplitude.push(wide_spin::wide_cartesian_factor(normalization, symbol, occupied))
        } else {
            amplitude
        };
        lemma_beginning(
            sites,
            normalization,
            next,
            left,
            left_sites,
            right,
            right_sites,
            at,
            longer,
        );
    }
}

/// What a string gives after what another has given.
pub open spec fn going_on<const WORDS: usize>(
    sites: usize,
    normalization: SpinNormalization,
    found: core::result::Result<Option<(WideState<WORDS>, Seq<LocalFactor>)>, QmbedError>,
    symbols: Seq<char>,
    places: Seq<usize>,
) -> core::result::Result<Option<(WideState<WORDS>, Seq<LocalFactor>)>, QmbedError> {
    match found {
        Ok(Some((target, factors))) => after_factors(
            factors,
            wide_spin_walk(
                sites,
                normalization,
                target,
                symbols,
                places,
                symbols.len(),
                Seq::empty(),
            ),
        ),
        Ok(None) => Ok(None),
        Err(error) => Err(error),
    }
}

proof fn lemma_in_turn<const WORDS: usize>(
    sites: usize,
    normalization: SpinNormalization,
    state: WideState<WORDS>,
    left: Seq<char>,
    left_sites: Seq<usize>,
    right: Seq<char>,
    right_sites: Seq<usize>,
    remaining: nat,
    amplitude: Seq<LocalFactor>,
)
    requires
        left.len() == left_sites.len(),
        right.len() == right_sites.len(),
        remaining <= right.len(),
    ensures
        wide_spin_walk(
            sites,
            normalization,
            state,
            left + right,
            left_sites + right_sites,
            left.len() + remaining,
            amplitude,
        ) == going_on(
            sites,
            normalization,
            wide_spin_walk(
                sites,
                normalization,
                state,
                right,
                right_sites,
                remaining,
                amplitude,
            ),
            left,
            left_sites,
        ),
    decreases remaining,
{
    if remaining == 0 {
        lemma_beginning(
            sites,
            normalization,
            state,
            left,
            left_sites,
            right,
            right_sites,
            left.len(),
            amplitude,
        );
        lemma_factors_in_front(
            sites,
            normalization,
            state,
            left,
            left_sites,
            left.len(),
            amplitude,
            Seq::empty(),
        );
        assert(amplitude + Seq::empty() =~= amplitude);
    } else {
        let at = (remaining - 1) as nat;
        let whole = (left.len() + at) as int;
        let site = right_sites[at as int];
        let symbol = right[at as int];
        assert((left + right)[whole] == symbol);
        assert((left_sites + right_sites)[whole] == site);
        assert(left.len() + remaining - 1 == whole);
        let occupied = bits::bit_at(state.value(), site as nat);
        let turned = wide_spin::with_digit(state, site, !occupied);
        let next = if symbol == '+' || symbol == '-' || symbol == 'x' || symbol == 'y' {
            turned
        } else {
            state
        };
        let longer = if symbol == 'z' {
            amplitude.push(wide_spin::wide_z_factor(normalization, occupied))
        } else if symbol == '+' || symbol == '-' {
            amplitude.push(wide_spin::wide_ladder_factor(normalization))
        } else if symbol == 'x' || symbol == 'y' {
            amplitude.push(wide_spin::wide_cartesian_factor(normalization, symbol, occupied))
        } else {
            amplitude
        };
        lemma_in_turn(
            sites,
            normalization,
            next,
            left,
            left_sites,
            right,
            right_sites,
            at,
            longer,
        );
    }
}

/// The symbols of a string act one after another, the last first: a string in two parts acts as
/// its right part and, on what that gives, its left part, with the factors of both.
pub proof fn law_wide_strings_act_in_turn<const WORDS: usize>(
    sites: usize,
    normalization: SpinNormalization,
    state: WideState<WORDS>,
    left: Seq<char>,
    left_sites: Seq<usize>,
    right: Seq<char>,
    right_sites: Seq<usize>,
)
    requires
        left.len() == left_sites.len(),
        right.len() == right_sites.len(),
    ensures
        wide_spin_walk(
            sites,
            normalization,
            state,
            left + right,
            left_sites + right_sites,
            left.len() + right.len(),
            Seq::empty(),
        ) == going_on(
            sites,
            normalization,
            wide_spin_walk(
                sites,
                normalization,
                state,
                right,
                right_sites,
                right.len(),
                Seq::empty(),
            ),
            left,
            left_sites,
        ),
{
    lemma_in_turn(
        sites,
        normalization,
        state,
        left,
        left_sites,
        right,
        right_sites,
        right.len(),
        Seq::empty(),
    );
}

} // verus!

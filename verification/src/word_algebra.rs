//! Strings of boson and fermion operators, and what their symbols mean.

use vstd::prelude::*;

use crate::amplitudes::LocalFactor;
use crate::bits;
use crate::boson;
use crate::boson::Word;
use crate::digits;
use crate::fermion;
use crate::spin_algebra::{twice, WholeComplex};
use crate::spinful;

verus! {

/// A destination with more factors in front.
pub open spec fn prefixed_word(word: Word, factors: Seq<LocalFactor>) -> Word {
    match word {
        Ok(Some(found)) => Ok(Some((found.0, factors + found.1))),
        Ok(None) => Ok(None),
        Err(error) => Err(error),
    }
}

proof fn lemma_boson_gathered(
    chain_sites: usize,
    base: nat,
    state: u128,
    symbols: Seq<char>,
    sites: Seq<usize>,
    others: Seq<char>,
    places: Seq<usize>,
    remaining: nat,
    before: Seq<LocalFactor>,
    after: Seq<LocalFactor>,
)
    requires
        forall|i: int| 0 <= i < remaining ==> #[trigger] symbols[i] == others[i],
        forall|i: int| 0 <= i < remaining ==> #[trigger] sites[i] == places[i],
    ensures
        boson::boson_word(chain_sites, base, state, symbols, sites, remaining, before + after)
            == prefixed_word(
            boson::boson_word(chain_sites, base, state, others, places, remaining, after),
            before,
        ),
    decreases remaining,
{
    if remaining > 0 {
        let position = (remaining - 1) as nat;
        let site = sites[position as int];
        let symbol = symbols[position as int];
        assert(symbol == others[position as int]);
        assert(site == places[position as int]);
        let place = digits::power(base, site as nat);
        let occupation = digits::digit(state as nat, base, site as nat);
        let next = if symbol == '+' {
            (state + place) as u128
        } else if symbol == '-' {
            (state - place) as u128
        } else {
            state
        };
        let factor = if symbol == 'n' {
            LocalFactor::of_integer(occupation as i128)
        } else if symbol == 'z' {
            LocalFactor::of_halves((2 * occupation - (base - 1)) as i128)
        } else if symbol == '+' {
            LocalFactor::of_root((occupation + 1) as u128)
        } else {
            LocalFactor::of_root(occupation as u128)
        };
        assert((before + after).push(factor) =~= before + after.push(factor));
        lemma_boson_gathered(
            chain_sites,
            base,
            next,
            symbols,
            sites,
            others,
            places,
            position,
            before,
            if symbol == 'I' {
                after
            } else {
                after.push(factor)
            },
        );
    }
}

proof fn lemma_boson_in_turn(
    chain_sites: usize,
    base: nat,
    state: u128,
    left: Seq<char>,
    left_sites: Seq<usize>,
    right: Seq<char>,
    right_sites: Seq<usize>,
    remaining: nat,
    amplitude: Seq<LocalFactor>,
)
    requires
        left.len() == left_sites.len(),
        right.len() == right_sites.len(),
        remaining <= right.len(),
    ensures
        boson::boson_word(
            chain_sites,
            base,
            state,
            left + right,
            left_sites + right_sites,
            left.len() + remaining,
            amplitude,
        ) == match boson::boson_word(
            chain_sites,
            base,
            state,
            right,
            right_sites,
            remaining,
            amplitude,
        ) {
            Ok(Some(found)) => prefixed_word(
                boson::boson_symbol_action(chain_sites, base, found.0, left, left_sites),
                found.1,
            ),
            Ok(None) => Ok(None),
            Err(error) => Err(error),
        },
    decreases remaining,
{
    let symbols = left + right;
    let sites = left_sites + right_sites;
    if remaining == 0 {
        lemma_boson_gathered(
            chain_sites,
            base,
            state,
            symbols,
            sites,
            left,
            left_sites,
            left.len(),
            amplitude,
            Seq::empty(),
        );
        assert(amplitude + Seq::empty() =~= amplitude);
    } else {
        let position = (remaining - 1) as nat;
        let total = (left.len() + position) as int;
        assert(symbols[total] == right[position as int]);
        assert(sites[total] == right_sites[position as int]);
        assert(left.len() + remaining - 1 == total);
        let site = right_sites[position as int];
        let symbol = right[position as int];
        let place = digits::power(base, site as nat);
        let occupation = digits::digit(state as nat, base, site as nat);
        let next = if symbol == '+' {
            (state + place) as u128
        } else if symbol == '-' {
            (state - place) as u128
        } else {
            state
        };
        let factor = if symbol == 'n' {
            LocalFactor::of_integer(occupation as i128)
        } else if symbol == 'z' {
            LocalFactor::of_halves((2 * occupation - (base - 1)) as i128)
        } else if symbol == '+' {
            LocalFactor::of_root((occupation + 1) as u128)
        } else {
            LocalFactor::of_root(occupation as u128)
        };
        lemma_boson_in_turn(
            chain_sites,
            base,
            next,
            left,
            left_sites,
            right,
            right_sites,
            position,
            if symbol == 'I' {
                amplitude
            } else {
                amplitude.push(factor)
            },
        );
    }
}

/// A string of boson symbols acts from the last to the first: two strings in a row act as the
/// second one and then, on its destination, as the first one.
pub proof fn law_boson_strings_act_in_turn(
    chain_sites: usize,
    base: nat,
    state: u128,
    left: Seq<char>,
    left_sites: Seq<usize>,
    right: Seq<char>,
    right_sites: Seq<usize>,
)
    requires
        left.len() == left_sites.len(),
        right.len() == right_sites.len(),
    ensures
        boson::boson_symbol_action(
            chain_sites,
            base,
            state,
            left + right,
            left_sites + right_sites,
        ) == match boson::boson_symbol_action(chain_sites, base, state, right, right_sites) {
            Ok(Some(found)) => prefixed_word(
                boson::boson_symbol_action(chain_sites, base, found.0, left, left_sites),
                found.1,
            ),
            Ok(None) => Ok(None),
            Err(error) => Err(error),
        },
{
    lemma_boson_in_turn(
        chain_sites,
        base,
        state,
        left,
        left_sites,
        right,
        right_sites,
        right.len(),
        Seq::empty(),
    );
}

/// What one boson symbol does to a state.
pub open spec fn boson_symbol(
    chain_sites: usize,
    base: nat,
    state: u128,
    site: usize,
    symbol: char,
) -> Word {
    boson::boson_symbol_action(chain_sites, base, state, seq![symbol], seq![site])
}

/// The number operator counts the digit of its site, and the z operator counts it from the middle
/// of the levels.
pub proof fn law_boson_counters_count(chain_sites: usize, base: nat, state: u128, site: usize)
    requires
        site < chain_sites,
        0 < base <= u64::MAX,
    ensures
        ({
            let occupation = digits::digit(state as nat, base, site as nat);
            let n = boson_symbol(chain_sites, base, state, site, 'n')->Ok_0;
            let z = boson_symbol(chain_sites, base, state, site, 'z')->Ok_0;
            &&& n matches Some(found) && found.0 == state && found.1.len() == 1
                && found.1[0].radicand == 1 && twice(found.1[0]) == (WholeComplex {
                re: 2 * occupation as int,
                im: 0,
            })
            &&& z matches Some(found) && found.0 == state && found.1.len() == 1
                && found.1[0].radicand == 1 && twice(found.1[0]) == (WholeComplex {
                re: 2 * occupation - (base - 1),
                im: 0,
            })
        }),
{
    digits::lemma_power_positive(base, site as nat);
    vstd::arithmetic::div_mod::lemma_mod_bound(
        (state as nat / digits::power(base, site as nat)) as int,
        base as int,
    );
    reveal_with_fuel(boson::boson_word, 2);
}

proof fn lemma_fermion_gathered(
    chain_sites: usize,
    state: u128,
    symbols: Seq<char>,
    sites: Seq<usize>,
    others: Seq<char>,
    places: Seq<usize>,
    remaining: nat,
    before: Seq<LocalFactor>,
    after: Seq<LocalFactor>,
)
    requires
        forall|i: int| 0 <= i < remaining ==> #[trigger] symbols[i] == others[i],
        forall|i: int| 0 <= i < remaining ==> #[trigger] sites[i] == places[i],
    ensures
        fermion::fermion_word(chain_sites, state, symbols, sites, remaining, before + after)
            == prefixed_word(
            fermion::fermion_word(chain_sites, state, others, places, remaining, after),
            before,
        ),
    decreases remaining,
{
    if remaining > 0 {
        let position = (remaining - 1) as nat;
        let site = sites[position as int];
        let symbol = symbols[position as int];
        assert(symbol == others[position as int]);
        assert(site == places[position as int]);
        if let Ok(Some(step)) = fermion::fermion_step(state, site as nat, symbol) {
            assert((before + after).push(step.1) =~= before + after.push(step.1));
            lemma_fermion_gathered(
                chain_sites,
                step.0,
                symbols,
                sites,
                others,
                places,
                position,
                before,
                after.push(step.1),
            );
        }
    }
}

proof fn lemma_fermion_in_turn(
    chain_sites: usize,
    state: u128,
    left: Seq<char>,
    left_sites: Seq<usize>,
    right: Seq<char>,
    right_sites: Seq<usize>,
    remaining: nat,
    amplitude: Seq<LocalFactor>,
)
    requires
        left.len() == left_sites.len(),
        right.len() == right_sites.len(),
        remaining <= right.len(),
    ensures
        fermion::fermion_word(
            chain_sites,
            state,
            left + right,
            left_sites + right_sites,
            left.len() + remaining,
            amplitude,
        ) == match fermion::fermion_word(
            chain_sites,
            state,
            right,
            right_sites,
            remaining,
            amplitude,
        ) {
            Ok(Some(found)) => prefixed_word(
                fermion::fermion_symbol_action(chain_sites, found.0, left, left_sites),
                found.1,
            ),
            Ok(None) => Ok(None),
            Err(error) => Err(error),
        },
    decreases remaining,
{
    let symbols = left + right;
    let sites = left_sites + right_sites;
    if remaining == 0 {
        lemma_fermion_gathered(
            chain_sites,
            state,
            symbols,
            sites,
            left,
            left_sites,
            left.len(),
            amplitude,
            Seq::empty(),
        );
        assert(amplitude + Seq::empty() =~= amplitude);
    } else {
        let position = (remaining - 1) as nat;
        let total = (left.len() + position) as int;
        assert(symbols[total] == right[position as int]);
        assert(sites[total] == right_sites[position as int]);
        assert(left.len() + remaining - 1 == total);
        let site = right_sites[position as int];
        let symbol = right[position as int];
        if let Ok(Some(step)) = fermion::fermion_step(state, site as nat, symbol) {
            lemma_fermion_in_turn(
                chain_sites,
                step.0,
                left,
                left_sites,
                right,
                right_sites,
                position,
                amplitude.push(step.1),
            );
        }
    }
}

/// A string of fermion symbols acts from the last to the first: two strings in a row act as the
/// second one and then, on its destination, as the first one.
pub proof fn law_fermion_strings_act_in_turn(
    chain_sites: usize,
    state: u128,
    left: Seq<char>,
    left_sites: Seq<usize>,
    right: Seq<char>,
    right_sites: Seq<usize>,
)
    requires
        left.len() == left_sites.len(),
        right.len() == right_sites.len(),
    ensures
        fermion::fermion_symbol_action(
            chain_sites,
            state,
            left + right,
            left_sites + right_sites,
        ) == match fermion::fermion_symbol_action(chain_sites, state, right, right_sites) {
            Ok(Some(found)) => prefixed_word(
                fermion::fermion_symbol_action(chain_sites, found.0, left, left_sites),
                found.1,
            ),
            Ok(None) => Ok(None),
            Err(error) => Err(error),
        },
{
    lemma_fermion_in_turn(
        chain_sites,
        state,
        left,
        left_sites,
        right,
        right_sites,
        right.len(),
        Seq::empty(),
    );
}

/// The fermion operators x and y are the sum of creation and annihilation and the imaginary unit
/// times their difference; n counts the orbital and z counts it from one half. So where an orbital
/// is empty x acts as creation and y as i times creation, and where it is occupied x acts as
/// annihilation and y as -i times annihilation.
pub proof fn law_fermion_symbols_combine(state: u128, orbital: nat)
    ensures
        ({
            let occupied = bits::bit_at(state as nat, orbital);
            let ladder = fermion::fermion_step(
                state,
                orbital,
                if occupied {
                    '-'
                } else {
                    '+'
                },
            )->Ok_0;
            let x = fermion::fermion_step(state, orbital, 'x')->Ok_0;
            let y = fermion::fermion_step(state, orbital, 'y')->Ok_0;
            let n = fermion::fermion_step(state, orbital, 'n')->Ok_0;
            let z = fermion::fermion_step(state, orbital, 'z')->Ok_0;
            &&& ladder is Some && x == ladder && y is Some
            &&& (y->Some_0).0 == (ladder->Some_0).0
            &&& (y->Some_0).1.radicand == (ladder->Some_0).1.radicand
            &&& twice((y->Some_0).1) == if occupied {
                WholeComplex { re: 0, im: 0 }.minus(twice((ladder->Some_0).1).turned())
            } else {
                twice((ladder->Some_0).1).turned()
            }
            &&& n is Some <==> occupied
            &&& n matches Some(kept) ==> kept.0 == state && twice(kept.1) == (WholeComplex {
                re: 2,
                im: 0,
            }) && kept.1.radicand == 1
            &&& z matches Some(kept) && kept.0 == state && kept.1.radicand == 1 && twice(kept.1)
                == (WholeComplex {
                re: if occupied {
                    1
                } else {
                    -1
                },
                im: 0,
            })
        }),
{
}

/// Orbitals of some sites: those of the first `split` symbols count up orbitals, the others down
/// orbitals, which come after all up orbitals.
pub open spec fn split_orbitals(sites: Seq<usize>, split: usize, chain_sites: usize) -> Seq<usize> {
    Seq::new(
        sites.len(),
        |i: int|
            if i < split {
                sites[i]
            } else {
                (chain_sites + sites[i]) as usize
            },
    )
}

proof fn lemma_two_flavors(
    chain_sites: usize,
    state: u128,
    symbols: Seq<char>,
    split: usize,
    sites: Seq<usize>,
    remaining: nat,
    amplitude: Seq<LocalFactor>,
)
    requires
        chain_sites <= 64,
        remaining <= sites.len(),
        forall|i: int| 0 <= i < sites.len() ==> #[trigger] sites[i] < chain_sites,
    ensures
        spinful::spinful_word(
            chain_sites,
            state,
            symbols,
            Some(split),
            sites,
            remaining,
            amplitude,
        ) == fermion::fermion_word(
            (2 * chain_sites) as usize,
            state,
            symbols,
            split_orbitals(sites, split, chain_sites),
            remaining,
            amplitude,
        ),
    decreases remaining,
{
    if remaining > 0 {
        let position = (remaining - 1) as nat;
        let orbital = split_orbitals(sites, split, chain_sites)[position as int];
        assert(sites[position as int] < chain_sites);
        if let Ok(Some(step)) = fermion::fermion_step(
            state,
            orbital as nat,
            symbols[position as int],
        ) {
            lemma_two_flavors(
                chain_sites,
                step.0,
                symbols,
                split,
                sites,
                position,
                amplitude.push(step.1),
            );
        }
    }
}

/// Two flavors are one kind of fermions on twice as many orbitals: what stands before the
/// separator acts on the up orbitals, what stands after it on the down orbitals behind them, and
/// all of them anticommute.
pub proof fn law_flavors_are_orbitals_of_one_kind(
    chain_sites: usize,
    state: u128,
    symbols: Seq<char>,
    split: usize,
    sites: Seq<usize>,
)
    requires
        chain_sites <= 64,
        symbols.len() == sites.len(),
        split <= symbols.len(),
        forall|i: int| 0 <= i < sites.len() ==> #[trigger] sites[i] < chain_sites,
    ensures
        spinful::spinful_symbol_action(chain_sites, state, symbols, Some(split), sites)
            == fermion::fermion_symbol_action(
            (2 * chain_sites) as usize,
            state,
            symbols,
            split_orbitals(sites, split, chain_sites),
        ),
        spinful::spinful_symbol_action(
            chain_sites,
            state,
            symbols,
            None,
            split_orbitals(sites, split, chain_sites),
        ) == spinful::spinful_symbol_action(chain_sites, state, symbols, Some(split), sites),
{
    lemma_two_flavors(
        chain_sites,
        state,
        symbols,
        split,
        sites,
        symbols.len(),
        Seq::empty(),
    );
    lemma_without_split(
        chain_sites,
        state,
        symbols,
        split_orbitals(sites, split, chain_sites),
        symbols.len(),
        Seq::empty(),
    );
}

proof fn lemma_without_split(
    chain_sites: usize,
    state: u128,
    symbols: Seq<char>,
    orbitals: Seq<usize>,
    remaining: nat,
    amplitude: Seq<LocalFactor>,
)
    requires
        chain_sites <= 64,
        remaining <= orbitals.len(),
        forall|i: int| 0 <= i < orbitals.len() ==> #[trigger] orbitals[i] < 2 * chain_sites,
    ensures
        spinful::spinful_word(
            chain_sites,
            state,
            symbols,
            None,
            orbitals,
            remaining,
            amplitude,
        ) == fermion::fermion_word(
            (2 * chain_sites) as usize,
            state,
            symbols,
            orbitals,
            remaining,
            amplitude,
        ),
    decreases remaining,
{
    if remaining > 0 {
        let position = (remaining - 1) as nat;
        assert(orbitals[position as int] < 2 * chain_sites);
        if let Ok(Some(step)) = fermion::fermion_step(
            state,
            orbitals[position as int] as nat,
            symbols[position as int],
        ) {
            lemma_without_split(
                chain_sites,
                step.0,
                symbols,
                orbitals,
                position,
                amplitude.push(step.1),
            );
        }
    }
}

} // verus!

//! The algebra of bosonic ladder operators.

use vstd::arithmetic::div_mod::*;
use vstd::arithmetic::mul::*;
use vstd::prelude::*;

use crate::amplitudes::LocalFactor;
use crate::boson;
use crate::boson::Word;
use crate::digits;
use crate::fermion_algebra;
use crate::lattice;

verus! {

/// Digits of a word given by what stands above a site, at it and below it.
proof fn lemma_digit_of_parts(
    high: nat,
    middle: nat,
    low: nat,
    site: nat,
    base: nat,
    other: nat,
)
    requires
        middle < base,
        low < digits::power(base, site),
    ensures
        digits::digit(
            high * digits::power(base, site + 1) + (middle * digits::power(base, site) + low),
            base,
            other,
        ) == (if other > site {
            digits::digit(high, base, (other - site - 1) as nat)
        } else if other == site {
            middle
        } else {
            digits::digit(low, base, other)
        }),
{
    let p = digits::power(base, site);
    let inner = middle * p + low;
    assert(digits::power(base, site + 1) == base * p);
    assert(inner < base * p) by (nonlinear_arith)
        requires
            inner == middle * p + low,
            middle < base,
            low < p,
    ;
    lattice::lemma_digit_join(high, inner, site + 1, base, other);
    lattice::lemma_digit_join(middle, low, site, base, other);
    if other == site {
        assert(digits::power(base, 0) == 1);
        lemma_div_basics(middle as int);
        lemma_small_mod(middle, base);
    }
}

/// Raising or lowering one digit within its range changes no other digit.
pub proof fn lemma_moved_digit(code: nat, site: nat, base: nat, other: nat)
    requires
        base > 0,
    ensures
        digits::digit(code, base, site) + 1 < base ==> digits::digit(
            code + digits::power(base, site),
            base,
            other,
        ) == digits::digit(code, base, other) + (if other == site {
            1int
        } else {
            0
        }),
        digits::digit(code, base, site) > 0 ==> {
            &&& digits::power(base, site) <= code
            &&& digits::digit((code - digits::power(base, site)) as nat, base, other)
                == digits::digit(code, base, other) - (if other == site {
                1int
            } else {
                0
            })
        },
{
    let p = digits::power(base, site);
    let high = code / digits::power(base, site + 1);
    let middle = digits::digit(code, base, site);
    let low = code % p;
    lattice::lemma_around_digit(code, site, base);
    lemma_mod_bound((code / p) as int, base as int);
    lemma_digit_of_parts(high, middle, low, site, base, other);
    if middle + 1 < base {
        lemma_mul_is_distributive_add_other_way(p as int, middle as int, 1);
        lemma_digit_of_parts(high, middle + 1, low, site, base, other);
    }
    if middle > 0 {
        let less = (middle - 1) as nat;
        lemma_mul_is_distributive_sub_other_way(p as int, middle as int, 1);
        lemma_digit_of_parts(high, less, low, site, base, other);
        assert(code - p == high * digits::power(base, site + 1) + (less * p + low));
        assert(p <= code) by (nonlinear_arith)
            requires
                code == high * digits::power(base, site + 1) + middle * p + low,
                middle >= 1,
        ;
    }
}

/// Destination of two symbols, the second first.
pub open spec fn pair_word(
    chain_sites: usize,
    base: nat,
    state: u128,
    first: usize,
    a: char,
    second: usize,
    b: char,
) -> Word {
    boson::boson_symbol_action(chain_sites, base, state, seq![a, b], seq![first, second])
}

/// One ladder operator on one site: the new state and the factor, if any.
spec fn climbed(base: nat, state: u128, site: usize, symbol: char) -> Option<(u128, LocalFactor)> {
    let place = digits::power(base, site as nat);
    let bosons = digits::digit(state as nat, base, site as nat);
    if symbol == '+' {
        if bosons + 1 < base {
            Some(((state + place) as u128, LocalFactor::of_root((bosons + 1) as u128)))
        } else {
            None
        }
    } else {
        if bosons > 0 {
            Some(((state - place) as u128, LocalFactor::of_root(bosons as u128)))
        } else {
            None
        }
    }
}

/// Two symbols act one after the other.
proof fn lemma_pair_word(
    chain_sites: usize,
    base: nat,
    state: u128,
    first: usize,
    a: char,
    second: usize,
    b: char,
)
    requires
        first < chain_sites,
        second < chain_sites,
        fermion_algebra::is_ladder(a),
        fermion_algebra::is_ladder(b),
    ensures
        pair_word(chain_sites, base, state, first, a, second, b) == Ok::<
            Option<(u128, Seq<LocalFactor>)>,
            crate::error::QmbedError,
        >(
            match climbed(base, state, second, b) {
                None => None,
                Some((middle, inner)) => match climbed(base, middle, first, a) {
                    None => None,
                    Some((target, outer)) => Some((target, seq![inner, outer])),
                },
            },
        ),
{
    reveal_with_fuel(boson::boson_word, 3);
    if let Some((middle, inner)) = climbed(base, state, second, b) {
        if let Some((target, outer)) = climbed(base, middle, first, a) {
            assert(Seq::<LocalFactor>::empty().push(inner).push(outer) =~= seq![inner, outer]);
        }
    }
}

/// A ladder operator on one site leaves the bosons of another site alone.
proof fn lemma_climbed(
    sites: nat,
    base: nat,
    state: u128,
    site: usize,
    symbol: char,
    other: usize,
)
    requires
        site < sites,
        fermion_algebra::is_ladder(symbol),
        lattice::packable(state as nat, sites, base),
    ensures
        match climbed(base, state, site, symbol) {
            Some((target, _)) => {
                &&& target == state + (if symbol == '+' {
                    digits::power(base, site as nat) as int
                } else {
                    -digits::power(base, site as nat)
                })
                &&& other != site ==> digits::digit(target as nat, base, other as nat)
                    == digits::digit(state as nat, base, other as nat)
            },
            None => true,
        },
{
    lattice::lemma_block_fits(state as nat, sites, base);
    lattice::lemma_step_digit(state as nat, site as nat, sites, base);
    lemma_moved_digit(state as nat, site as nat, base, other as nat);
}

/// Creating after annihilating counts the bosons of a site, annihilating after creating counts
/// one more: each gives the state back with twice the same root, except below the empty and
/// above the full site.
pub proof fn law_ladder_operators_count(
    chain_sites: usize,
    base: nat,
    state: u128,
    site: usize,
)
    requires
        site < chain_sites,
        lattice::packable(state as nat, chain_sites as nat, base),
    ensures
        ({
            let bosons = digits::digit(state as nat, base, site as nat);
            let root = LocalFactor::of_root(bosons as u128);
            let next = LocalFactor::of_root((bosons + 1) as u128);
            &&& pair_word(chain_sites, base, state, site, '+', site, '-') == Ok::<
                Option<(u128, Seq<LocalFactor>)>,
                crate::error::QmbedError,
            >(
                if bosons > 0 {
                    Some((state, seq![root, root]))
                } else {
                    None
                },
            )
            &&& pair_word(chain_sites, base, state, site, '-', site, '+') == Ok::<
                Option<(u128, Seq<LocalFactor>)>,
                crate::error::QmbedError,
            >(
                if bosons + 1 < base {
                    Some((state, seq![next, next]))
                } else {
                    None
                },
            )
        }),
{
    let place = digits::power(base, site as nat);
    let bosons = digits::digit(state as nat, base, site as nat);
    lattice::lemma_block_fits(state as nat, chain_sites as nat, base);
    lattice::lemma_step_digit(state as nat, site as nat, chain_sites as nat, base);
    lemma_moved_digit(state as nat, site as nat, base, site as nat);
    reveal_with_fuel(boson::boson_word, 3);
    let root = LocalFactor::of_root(bosons as u128);
    let next = LocalFactor::of_root((bosons + 1) as u128);
    assert(Seq::<LocalFactor>::empty().push(root).push(root) =~= seq![root, root]);
    assert(Seq::<LocalFactor>::empty().push(next).push(next) =~= seq![next, next]);
}

/// Bosonic ladder operators on different sites commute: both orders act or neither does, and
/// they reach the same state with the same factors.
pub proof fn law_ladder_operators_commute(
    chain_sites: usize,
    base: nat,
    state: u128,
    first: usize,
    a: char,
    second: usize,
    b: char,
)
    requires
        first < chain_sites,
        second < chain_sites,
        first != second,
        fermion_algebra::is_ladder(a),
        fermion_algebra::is_ladder(b),
        lattice::packable(state as nat, chain_sites as nat, base),
    ensures
        match (
            pair_word(chain_sites, base, state, first, a, second, b),
            pair_word(chain_sites, base, state, second, b, first, a),
        ) {
            (Ok(Some((left, factors))), Ok(Some((right, others)))) => {
                &&& left == right
                &&& factors.len() == 2
                &&& others =~= seq![factors[1], factors[0]]
            },
            (Ok(None), Ok(None)) => true,
            _ => false,
        },
{
    lemma_pair_word(chain_sites, base, state, first, a, second, b);
    lemma_pair_word(chain_sites, base, state, second, b, first, a);
    lemma_climbed(chain_sites as nat, base, state, first, a, second);
    lemma_climbed(chain_sites as nat, base, state, second, b, first);
}

} // verus!

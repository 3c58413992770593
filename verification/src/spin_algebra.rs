//! The algebra of spin ladder operators.

use vstd::prelude::*;

use crate::amplitudes::LocalFactor;
use crate::boson_algebra;
use crate::digits;
use crate::error::QmbedError;
use crate::lattice;
use crate::spin;
use crate::spin::{SpinChain, SpinNormalization};

verus! {

/// Raising and lowering are adjoint: the way up from a level has the amplitude of the way back.
pub proof fn law_ladder_operators_are_adjoint(
    normalization: SpinNormalization,
    spin_twice: u16,
    level: nat,
)
    requires
        level < spin_twice,
    ensures
        spin::raise_factor(normalization, spin_twice, level) == spin::lower_factor(
            normalization,
            spin_twice,
            level + 1,
        ),
{
    assert((spin_twice - level) * (level + 1) == (level + 1) * (spin_twice - (level + 1) + 1))
        by (nonlinear_arith);
}

/// What two symbols on one site do to a state, the second first.
pub open spec fn pair_branches(chain: SpinChain, state: u128, site: usize, a: char, b: char) -> core::result::Result<
    Seq<(u128, Seq<LocalFactor>)>,
    QmbedError,
> {
    spin::spin_symbol_action(chain, state, seq![a, b], seq![site, site])
}

/// Raising after lowering and lowering after raising give the state back with a squared
/// amplitude, and the difference of the two squares is twice the magnetic number of the level.
pub proof fn law_ladder_operators_close(chain: SpinChain, state: u128, site: usize)
    requires
        site < chain.sites,
        lattice::packable(state as nat, chain.sites, chain.levels()),
    ensures
        ({
            let level = digits::digit(state as nat, chain.levels(), site as nat);
            let raise = spin::raise_factor(chain.normalization, chain.spin_twice, level);
            let lower = spin::lower_factor(chain.normalization, chain.spin_twice, level);
            &&& pair_branches(chain, state, site, '+', '-') == Ok::<
                Seq<(u128, Seq<LocalFactor>)>,
                QmbedError,
            >(
                if level == 0 {
                    Seq::empty()
                } else {
                    seq![(state, seq![lower, lower])]
                },
            )
            &&& pair_branches(chain, state, site, '-', '+') == Ok::<
                Seq<(u128, Seq<LocalFactor>)>,
                QmbedError,
            >(
                if level == chain.spin_twice {
                    Seq::empty()
                } else {
                    seq![(state, seq![raise, raise])]
                },
            )
            &&& lower.radicand - raise.radicand == 2 * level - chain.spin_twice
        }),
{
    let level = digits::digit(state as nat, chain.levels(), site as nat);
    let twice = chain.spin_twice as int;
    let raise = spin::raise_factor(chain.normalization, chain.spin_twice, level);
    let lower = spin::lower_factor(chain.normalization, chain.spin_twice, level);
    lattice::lemma_block_fits(state as nat, chain.sites, chain.levels());
    lattice::lemma_step_digit(state as nat, site as nat, chain.sites, chain.levels());
    boson_algebra::lemma_moved_digit(state as nat, site as nat, chain.levels(), site as nat);
    assert(level <= twice);
    assert(level * (twice - level + 1) - (twice - level) * (level + 1) == 2 * level - twice && 0
        <= level * (twice - level + 1) <= 0x2_0000_0000 && 0 <= (twice - level) * (level + 1)
        <= 0x2_0000_0000) by (nonlinear_arith)
        requires
            0 <= level <= twice <= 0xffff,
    ;
    if level > 0 {
        law_ladder_operators_are_adjoint(
            chain.normalization,
            chain.spin_twice,
            (level - 1) as nat,
        );
    }
    if level < twice {
        law_ladder_operators_are_adjoint(chain.normalization, chain.spin_twice, level);
    }
    reveal_with_fuel(spin::spin_branches, 3);
    assert(Seq::<LocalFactor>::empty().push(lower).push(lower) =~= seq![lower, lower]);
    assert(Seq::<LocalFactor>::empty().push(raise).push(raise) =~= seq![raise, raise]);
}

/// What one symbol does to a state.
pub open spec fn symbol_branches(chain: SpinChain, state: u128, site: usize, symbol: char) -> core::result::Result<
    Seq<(u128, Seq<LocalFactor>)>,
    QmbedError,
> {
    spin::spin_symbol_action(chain, state, seq![symbol], seq![site])
}

/// A complex number with whole parts.
pub struct WholeComplex {
    pub re: int,
    pub im: int,
}

impl WholeComplex {
    pub open spec fn plus(self, other: Self) -> Self {
        WholeComplex { re: self.re + other.re, im: self.im + other.im }
    }

    pub open spec fn minus(self, other: Self) -> Self {
        WholeComplex { re: self.re - other.re, im: self.im - other.im }
    }

    pub open spec fn times(self, factor: int) -> Self {
        WholeComplex { re: factor * self.re, im: factor * self.im }
    }

    /// The number times the imaginary unit.
    pub open spec fn turned(self) -> Self {
        WholeComplex { re: -self.im, im: self.re }
    }

    /// The product of two numbers.
    pub open spec fn product(self, other: Self) -> Self {
        WholeComplex {
            re: self.re * other.re - self.im * other.im,
            im: self.re * other.im + self.im * other.re,
        }
    }
}

/// Twice a factor, without its root.
pub open spec fn twice(factor: LocalFactor) -> WholeComplex {
    let size = if factor.halved {
        factor.numerator as int
    } else {
        2 * factor.numerator
    };
    if factor.imaginary {
        WholeComplex { re: 0, im: size }
    } else {
        WholeComplex { re: size, im: 0 }
    }
}

/// The complex conjugate of a factor.
pub open spec fn conjugate_factor(factor: LocalFactor) -> LocalFactor {
    LocalFactor {
        numerator: if factor.imaginary {
            (-factor.numerator) as i128
        } else {
            factor.numerator
        },
        ..factor
    }
}

/// The symbol of the adjoint operator.
pub open spec fn adjoint_symbol(symbol: char) -> char {
    if symbol == '+' {
        '-'
    } else if symbol == '-' {
        '+'
    } else {
        symbol
    }
}

/// Whether two words differ by one level at one site alone: `upper` is one higher there.
pub open spec fn one_higher(lower: u128, upper: u128, site: nat, levels: nat) -> bool {
    forall|other: nat| #[trigger]
        digits::digit(upper as nat, levels, other) == digits::digit(lower as nat, levels, other)
            + if other == site {
            1int
        } else {
            0
        }
}

proof fn lemma_steps(chain: SpinChain, state: u128, site: usize)
    requires
        site < chain.sites,
        lattice::block_fits(state as nat, chain.sites, chain.levels()),
    ensures
        ({
            let level = digits::digit(state as nat, chain.levels(), site as nat);
            let place = digits::power(chain.levels(), site as nat);
            &&& level <= chain.spin_twice
            &&& place > 0
            &&& level < chain.spin_twice ==> {
                &&& state + place <= u128::MAX
                &&& lattice::block_fits((state + place) as nat, chain.sites, chain.levels())
                &&& digits::digit((state + place) as nat, chain.levels(), site as nat) == level + 1
                &&& one_higher(state, (state + place) as u128, site as nat, chain.levels())
            }
            &&& level > 0 ==> {
                &&& place <= state
                &&& lattice::block_fits((state - place) as nat, chain.sites, chain.levels())
                &&& digits::digit((state - place) as nat, chain.levels(), site as nat) == level - 1
                &&& one_higher((state - place) as u128, state, site as nat, chain.levels())
            }
        }),
{
    let levels = chain.levels();
    let level = digits::digit(state as nat, levels, site as nat);
    let place = digits::power(levels, site as nat);
    digits::lemma_power_positive(levels, site as nat);
    lattice::lemma_step_digit(state as nat, site as nat, chain.sites, levels);
    vstd::arithmetic::div_mod::lemma_mod_bound((state as nat / place) as int, levels as int);
    if level < chain.spin_twice {
        assert forall|other: nat| #[trigger]
            digits::digit((state + place) as u128 as nat, levels, other) == digits::digit(
                state as nat,
                levels,
                other,
            ) + if other == site {
                1int
            } else {
                0
            } by {
            boson_algebra::lemma_moved_digit(state as nat, site as nat, levels, other);
        }
        boson_algebra::lemma_moved_digit(state as nat, site as nat, levels, site as nat);
    }
    if level > 0 {
        assert forall|other: nat| #[trigger]
            digits::digit(state as nat, levels, other) == digits::digit(
                (state - place) as u128 as nat,
                levels,
                other,
            ) + if other == site {
                1int
            } else {
                0
            } by {
            boson_algebra::lemma_moved_digit(state as nat, site as nat, levels, other);
        }
        boson_algebra::lemma_moved_digit(state as nat, site as nat, levels, site as nat);
    }
}

/// The destinations of one symbol, spelled out.
pub open spec fn spelled_out(chain: SpinChain, state: u128, site: usize, symbol: char) -> Seq<
    (u128, Seq<LocalFactor>),
> {
    let level = digits::digit(state as nat, chain.levels(), site as nat);
    let place = digits::power(chain.levels(), site as nat);
    let raise = spin::raise_factor(chain.normalization, chain.spin_twice, level);
    let lower = spin::lower_factor(chain.normalization, chain.spin_twice, level);
    let up = (state + place) as u128;
    let down = (state - place) as u128;
    let cartesian = symbol == 'x' || symbol == 'y';
    if symbol == 'I' {
        seq![(state, Seq::empty())]
    } else if symbol == 'z' {
        if 2 * level == chain.spin_twice {
            Seq::empty()
        } else {
            seq![(state, seq![spin::z_factor(chain.normalization, chain.spin_twice, level)])]
        }
    } else {
        (if level == chain.spin_twice || symbol == '-' {
            Seq::empty()
        } else {
            seq![
                (
                    up,
                    seq![
                        if cartesian {
                            spin::cartesian_factor(chain.normalization, symbol, true, raise)
                        } else {
                            raise
                        },
                    ],
                ),
            ]
        }) + (if level == 0 || symbol == '+' {
            Seq::empty()
        } else {
            seq![
                (
                    down,
                    seq![
                        if cartesian {
                            spin::cartesian_factor(chain.normalization, symbol, false, lower)
                        } else {
                            lower
                        },
                    ],
                ),
            ]
        })
    }
}

pub proof fn lemma_spelled_out(chain: SpinChain, state: u128, site: usize, symbol: char)
    requires
        site < chain.sites,
        symbol == 'I' || symbol == 'z' || symbol == '+' || symbol == '-' || symbol == 'x' || symbol
            == 'y',
    ensures
        symbol_branches(chain, state, site, symbol) == Ok::<
            Seq<(u128, Seq<LocalFactor>)>,
            QmbedError,
        >(spelled_out(chain, state, site, symbol)),
{
    reveal_with_fuel(spin::spin_branches, 2);
    let level = digits::digit(state as nat, chain.levels(), site as nat);
    let raise = spin::raise_factor(chain.normalization, chain.spin_twice, level);
    let lower = spin::lower_factor(chain.normalization, chain.spin_twice, level);
    assert(Seq::<LocalFactor>::empty().push(raise) =~= seq![raise]);
    assert(Seq::<LocalFactor>::empty().push(lower) =~= seq![lower]);
    let over = spin::cartesian_factor(chain.normalization, symbol, true, raise);
    let under = spin::cartesian_factor(chain.normalization, symbol, false, lower);
    assert(Seq::<LocalFactor>::empty().push(over) =~= seq![over]);
    assert(Seq::<LocalFactor>::empty().push(under) =~= seq![under]);
    let z = spin::z_factor(chain.normalization, chain.spin_twice, level);
    assert(Seq::<LocalFactor>::empty().push(z) =~= seq![z]);
    assert(symbol_branches(chain, state, site, symbol)->Ok_0 =~= spelled_out(
        chain,
        state,
        site,
        symbol,
    ));
}

/// The amplitudes of one symbol are those of one matrix: what leads from a state to another leads
/// back under the adjoint symbol with the conjugate amplitude. The symbols `I`, `z`, `x` and `y`
/// are their own adjoints, `+` and `-` are each other's.
pub proof fn law_adjoint_symbols_lead_back(
    chain: SpinChain,
    state: u128,
    site: usize,
    symbol: char,
    branch: int,
)
    requires
        site < chain.sites,
        lattice::block_fits(state as nat, chain.sites, chain.levels()),
        symbol == 'I' || symbol == 'z' || symbol == '+' || symbol == '-' || symbol == 'x' || symbol
            == 'y',
        symbol_branches(chain, state, site, symbol) matches Ok(there) && 0 <= branch < there.len(),
    ensures
        ({
            let (target, factors) = symbol_branches(chain, state, site, symbol)->Ok_0[branch];
            &&& symbol_branches(chain, target, site, adjoint_symbol(symbol)) matches Ok(back)
                && back.contains((state, factors.map_values(|f: LocalFactor| conjugate_factor(f))))
        }),
{
    lemma_spelled_out(chain, state, site, symbol);
    lemma_steps(chain, state, site);
    let there = spelled_out(chain, state, site, symbol);
    let (target, factors) = there[branch];
    let level = digits::digit(state as nat, chain.levels(), site as nat);
    let turned = factors.map_values(|f: LocalFactor| conjugate_factor(f));
    lemma_spelled_out(chain, target, site, adjoint_symbol(symbol));
    lemma_steps(chain, target, site);
    let back = spelled_out(chain, target, site, adjoint_symbol(symbol));
    if symbol == 'I' || symbol == 'z' {
        assert(turned =~= factors);
        assert(back[0] == (state, turned));
    } else if branch == 0 && level < chain.spin_twice && symbol != '-' {
        law_ladder_operators_are_adjoint(chain.normalization, chain.spin_twice, level);
        let last = back.len() - 1;
        assert(back[last].0 == state);
        assert(turned =~= back[last].1);
        assert(back[last] == (state, turned));
    } else {
        law_ladder_operators_are_adjoint(chain.normalization, chain.spin_twice, (level - 1) as nat);
        assert(back[0].0 == state);
        assert(turned =~= back[0].1);
        assert(back[0] == (state, turned));
    }
}

/// How often the sum of x and i y counts the raising operator.
pub open spec fn cartesian_scale(normalization: SpinNormalization) -> int {
    if normalization == SpinNormalization::PauliCartesian {
        2
    } else {
        1
    }
}

/// The operators x and y are combinations of the ladder operators: x + i y raises a level by one
/// and x - i y lowers it, each with the amplitude of the ladder operator (twice that amplitude in
/// the normalization that leaves the ladder operators alone).
pub proof fn law_cartesian_operators_combine(chain: SpinChain, state: u128, site: usize)
    requires
        site < chain.sites,
        lattice::block_fits(state as nat, chain.sites, chain.levels()),
    ensures
        ({
            let x = symbol_branches(chain, state, site, 'x')->Ok_0;
            let y = symbol_branches(chain, state, site, 'y')->Ok_0;
            let up = symbol_branches(chain, state, site, '+')->Ok_0;
            let down = symbol_branches(chain, state, site, '-')->Ok_0;
            let scale = cartesian_scale(chain.normalization);
            &&& symbol_branches(chain, state, site, 'x') is Ok
            &&& symbol_branches(chain, state, site, 'y') is Ok
            &&& symbol_branches(chain, state, site, '+') is Ok
            &&& symbol_branches(chain, state, site, '-') is Ok
            &&& up.len() <= 1 && down.len() <= 1
            &&& x.len() == up.len() + down.len()
            &&& y.len() == up.len() + down.len()
            &&& up.len() == 0 <==> digits::digit(state as nat, chain.levels(), site as nat)
                == chain.spin_twice
            &&& down.len() == 0 <==> digits::digit(state as nat, chain.levels(), site as nat) == 0
            &&& up.len() == 1 ==> {
                &&& one_higher(state, up[0].0, site as nat, chain.levels())
                &&& x[0].0 == up[0].0 && y[0].0 == up[0].0
                &&& up[0].1.len() == 1 && x[0].1.len() == 1 && y[0].1.len() == 1
                &&& x[0].1[0].radicand == up[0].1[0].radicand
                &&& y[0].1[0].radicand == up[0].1[0].radicand
                &&& twice(x[0].1[0]).plus(twice(y[0].1[0]).turned()) == twice(up[0].1[0]).times(scale)
                &&& twice(x[0].1[0]).minus(twice(y[0].1[0]).turned()) == twice(up[0].1[0]).times(0)
            }
            &&& down.len() == 1 ==> {
                let last = up.len() as int;
                &&& one_higher(down[0].0, state, site as nat, chain.levels())
                &&& x[last].0 == down[0].0 && y[last].0 == down[0].0
                &&& down[0].1.len() == 1 && x[last].1.len() == 1 && y[last].1.len() == 1
                &&& x[last].1[0].radicand == down[0].1[0].radicand
                &&& y[last].1[0].radicand == down[0].1[0].radicand
                &&& twice(x[last].1[0]).minus(twice(y[last].1[0]).turned()) == twice(
                    down[0].1[0],
                ).times(scale)
                &&& twice(x[last].1[0]).plus(twice(y[last].1[0]).turned()) == twice(
                    down[0].1[0],
                ).times(0)
            }
        }),
{
    lemma_steps(chain, state, site);
    lemma_spelled_out(chain, state, site, 'x');
    lemma_spelled_out(chain, state, site, 'y');
    lemma_spelled_out(chain, state, site, '+');
    lemma_spelled_out(chain, state, site, '-');
}

/// Four times an amplitude of two factors with a common root.
pub open spec fn four_fold(factors: Seq<LocalFactor>) -> WholeComplex {
    twice(factors[0]).product(twice(factors[1])).times(factors[0].radicand as int)
}

/// Four times the amplitude with which the first destinations lead back to a state.
pub open spec fn returning(
    branches: Seq<(u128, Seq<LocalFactor>)>,
    state: u128,
    count: nat,
) -> WholeComplex
    decreases count,
{
    if count == 0 {
        WholeComplex { re: 0, im: 0 }
    } else {
        let before = returning(branches, state, (count - 1) as nat);
        if branches[count - 1].0 == state {
            before.plus(four_fold(branches[count - 1].1))
        } else {
            before
        }
    }
}

/// Four times the diagonal element of two symbols on one site.
pub open spec fn four_fold_diagonal(
    chain: SpinChain,
    state: u128,
    site: usize,
    a: char,
    b: char,
) -> WholeComplex {
    let branches = pair_branches(chain, state, site, a, b)->Ok_0;
    returning(branches, state, branches.len())
}

/// Twice the eigenvalue of z.
pub open spec fn twice_z(chain: SpinChain, state: u128, site: usize) -> int {
    let branches = symbol_branches(chain, state, site, 'z')->Ok_0;
    if branches.len() == 0 {
        0
    } else {
        twice(branches[0].1[0]).re
    }
}

/// How often the commutator of two operators counts the third: spins of length one half taken as
/// Pauli matrices are doubled.
pub open spec fn commutator_scale(normalization: SpinNormalization) -> int {
    if normalization == SpinNormalization::AngularMomentum {
        1
    } else {
        2
    }
}

/// Destinations with more factors in front.
pub open spec fn prefixed(
    stated: core::result::Result<Seq<(u128, Seq<LocalFactor>)>, QmbedError>,
    factors: Seq<LocalFactor>,
) -> core::result::Result<Seq<(u128, Seq<LocalFactor>)>, QmbedError> {
    match stated {
        Err(error) => Err(error),
        Ok(branches) => Ok(
            branches.map_values(
                |branch: (u128, Seq<LocalFactor>)| (branch.0, factors + branch.1),
            ),
        ),
    }
}

/// What a list of symbols makes of each of some destinations, one after the other.
pub open spec fn onward(
    chain: SpinChain,
    branches: Seq<(u128, Seq<LocalFactor>)>,
    symbols: Seq<char>,
    sites: Seq<usize>,
) -> core::result::Result<Seq<(u128, Seq<LocalFactor>)>, QmbedError>
    decreases branches.len(),
{
    if branches.len() == 0 {
        Ok(Seq::empty())
    } else {
        spin::joined(
            onward(chain, branches.drop_last(), symbols, sites),
            prefixed(
                spin::spin_symbol_action(chain, branches.last().0, symbols, sites),
                branches.last().1,
            ),
        )
    }
}

proof fn lemma_prefixed_joined(
    first: core::result::Result<Seq<(u128, Seq<LocalFactor>)>, QmbedError>,
    second: core::result::Result<Seq<(u128, Seq<LocalFactor>)>, QmbedError>,
    factors: Seq<LocalFactor>,
)
    ensures
        prefixed(spin::joined(first, second), factors) == spin::joined(
            prefixed(first, factors),
            prefixed(second, factors),
        ),
{
    if first is Ok && second is Ok {
        assert(prefixed(spin::joined(first, second), factors)->Ok_0 =~= spin::joined(
            prefixed(first, factors),
            prefixed(second, factors),
        )->Ok_0);
    }
}

/// Only the symbols that are still to act matter, and factors gathered earlier stay in front.
proof fn lemma_gathered(
    chain: SpinChain,
    state: u128,
    symbols: Seq<char>,
    sites: Seq<usize>,
    others: Seq<char>,
    places: Seq<usize>,
    remaining: nat,
    before: Seq<LocalFactor>,
    after: Seq<LocalFactor>,
)
    requires
        forall|i: int| 0 <= i < remaining ==> #[trigger] symbols[i] == others[i],
        forall|i: int| 0 <= i < remaining ==> #[trigger] sites[i] == places[i],
    ensures
        spin::spin_branches(chain, state, symbols, sites, remaining, before + after) == prefixed(
            spin::spin_branches(chain, state, others, places, remaining, after),
            before,
        ),
    decreases remaining,
{
    if remaining == 0 {
        assert(seq![(state, before + after)] =~= prefixed(Ok(seq![(state, after)]), before)->Ok_0);
    } else {
        let position = (remaining - 1) as nat;
        let site = sites[position as int];
        let symbol = symbols[position as int];
        assert(symbol == others[position as int]);
        assert(site == places[position as int]);
        let place = digits::power(chain.levels(), site as nat);
        let digit = digits::digit(state as nat, chain.levels(), site as nat);
        let raise = spin::raise_factor(chain.normalization, chain.spin_twice, digit);
        let lower = spin::lower_factor(chain.normalization, chain.spin_twice, digit);
        let up = (state + place) as u128;
        let down = (state - place) as u128;
        let empty = Ok::<Seq<(u128, Seq<LocalFactor>)>, QmbedError>(Seq::empty());
        assert(prefixed(empty, before)->Ok_0 =~= empty->Ok_0);
        if symbol == 'I' {
            lemma_gathered(chain, state, symbols, sites, others, places, position, before, after);
        } else if symbol == 'z' {
            let z = spin::z_factor(chain.normalization, chain.spin_twice, digit);
            assert((before + after).push(z) =~= before + after.push(z));
            lemma_gathered(
                chain,
                state,
                symbols,
                sites,
                others,
                places,
                position,
                before,
                after.push(z),
            );
        } else if symbol == '+' {
            assert((before + after).push(raise) =~= before + after.push(raise));
            lemma_gathered(
                chain,
                up,
                symbols,
                sites,
                others,
                places,
                position,
                before,
                after.push(raise),
            );
        } else if symbol == '-' {
            assert((before + after).push(lower) =~= before + after.push(lower));
            lemma_gathered(
                chain,
                down,
                symbols,
                sites,
                others,
                places,
                position,
                before,
                after.push(lower),
            );
        } else if symbol == 'x' || symbol == 'y' {
            let over = spin::cartesian_factor(chain.normalization, symbol, true, raise);
            let under = spin::cartesian_factor(chain.normalization, symbol, false, lower);
            assert((before + after).push(over) =~= before + after.push(over));
            assert((before + after).push(under) =~= before + after.push(under));
            lemma_gathered(
                chain,
                up,
                symbols,
                sites,
                others,
                places,
                position,
                before,
                after.push(over),
            );
            lemma_gathered(
                chain,
                down,
                symbols,
                sites,
                others,
                places,
                position,
                before,
                after.push(under),
            );
            let first = if digit == chain.spin_twice {
                empty
            } else {
                spin::spin_branches(chain, up, others, places, position, after.push(over))
            };
            let second = if digit == 0 {
                empty
            } else {
                spin::spin_branches(chain, down, others, places, position, after.push(under))
            };
            lemma_prefixed_joined(first, second, before);
        }
    }
}

proof fn lemma_onward_joined(
    chain: SpinChain,
    first: Seq<(u128, Seq<LocalFactor>)>,
    second: Seq<(u128, Seq<LocalFactor>)>,
    symbols: Seq<char>,
    sites: Seq<usize>,
)
    ensures
        onward(chain, first + second, symbols, sites) == spin::joined(
            onward(chain, first, symbols, sites),
            onward(chain, second, symbols, sites),
        ),
    decreases second.len(),
{
    let left = onward(chain, first, symbols, sites);
    if second.len() == 0 {
        assert(first + second =~= first);
        if left is Ok {
            assert(left->Ok_0 + Seq::empty() =~= left->Ok_0);
        }
    } else {
        assert((first + second).drop_last() =~= first + second.drop_last());
        assert((first + second).last() == second.last());
        lemma_onward_joined(chain, first, second.drop_last(), symbols, sites);
        let middle = onward(chain, second.drop_last(), symbols, sites);
        let right = prefixed(
            spin::spin_symbol_action(chain, second.last().0, symbols, sites),
            second.last().1,
        );
        if left is Ok && middle is Ok && right is Ok {
            assert((left->Ok_0 + middle->Ok_0) + right->Ok_0 =~= left->Ok_0 + (middle->Ok_0
                + right->Ok_0));
        }
    }
}

proof fn lemma_in_turn(
    chain: SpinChain,
    state: u128,
    left: Seq<char>,
    left_sites: Seq<usize>,
    right: Seq<char>,
    right_sites: Seq<usize>,
    remaining: nat,
    amplitude: Seq<LocalFactor>,
)
    requires
        left.len() == left_sites.len(),
        right.len() == right_sites.len(),
        remaining <= right.len(),
        spin::spin_branches(chain, state, right, right_sites, remaining, amplitude) is Ok,
    ensures
        spin::spin_branches(
            chain,
            state,
            left + right,
            left_sites + right_sites,
            left.len() + remaining,
            amplitude,
        ) == onward(
            chain,
            spin::spin_branches(chain, state, right, right_sites, remaining, amplitude)->Ok_0,
            left,
            left_sites,
        ),
    decreases remaining,
{
    let symbols = left + right;
    let sites = left_sites + right_sites;
    let found = spin::spin_branches(chain, state, right, right_sites, remaining, amplitude)->Ok_0;
    if remaining == 0 {
        assert(found.drop_last() =~= Seq::empty());
        lemma_gathered(
            chain,
            state,
            symbols,
            sites,
            left,
            left_sites,
            left.len(),
            amplitude,
            Seq::empty(),
        );
        assert(amplitude + Seq::empty() =~= amplitude);
        let only = prefixed(spin::spin_symbol_action(chain, state, left, left_sites), amplitude);
        if only is Ok {
            assert(Seq::empty() + only->Ok_0 =~= only->Ok_0);
        }
        assert(onward(chain, Seq::empty(), left, left_sites) == Ok::<
            Seq<(u128, Seq<LocalFactor>)>,
            QmbedError,
        >(Seq::empty()));
    } else {
        let position = (remaining - 1) as nat;
        let total = (left.len() + position) as int;
        let site = right_sites[position as int];
        let symbol = right[position as int];
        assert(symbols[total] == symbol);
        assert(sites[total] == site);
        assert(left.len() + remaining - 1 == total);
        let place = digits::power(chain.levels(), site as nat);
        let digit = digits::digit(state as nat, chain.levels(), site as nat);
        let raise = spin::raise_factor(chain.normalization, chain.spin_twice, digit);
        let lower = spin::lower_factor(chain.normalization, chain.spin_twice, digit);
        let up = (state + place) as u128;
        let down = (state - place) as u128;
        if symbol == 'I' {
            lemma_in_turn(
                chain,
                state,
                left,
                left_sites,
                right,
                right_sites,
                position,
                amplitude,
            );
        } else if symbol == 'z' {
            if 2 * digit != chain.spin_twice {
                let z = spin::z_factor(chain.normalization, chain.spin_twice, digit);
                lemma_in_turn(
                    chain,
                    state,
                    left,
                    left_sites,
                    right,
                    right_sites,
                    position,
                    amplitude.push(z),
                );
            }
        } else if symbol == '+' {
            if digit != chain.spin_twice {
                lemma_in_turn(
                    chain,
                    up,
                    left,
                    left_sites,
                    right,
                    right_sites,
                    position,
                    amplitude.push(raise),
                );
            }
        } else if symbol == '-' {
            if digit != 0 {
                lemma_in_turn(
                    chain,
                    down,
                    left,
                    left_sites,
                    right,
                    right_sites,
                    position,
                    amplitude.push(lower),
                );
            }
        } else {
            let over = spin::cartesian_factor(chain.normalization, symbol, true, raise);
            let under = spin::cartesian_factor(chain.normalization, symbol, false, lower);
            let empty = Ok::<Seq<(u128, Seq<LocalFactor>)>, QmbedError>(Seq::empty());
            let first = if digit == chain.spin_twice {
                empty
            } else {
                spin::spin_branches(chain, up, right, right_sites, position, amplitude.push(over))
            };
            let second = if digit == 0 {
                empty
            } else {
                spin::spin_branches(
                    chain,
                    down,
                    right,
                    right_sites,
                    position,
                    amplitude.push(under),
                )
            };
            assert(first is Ok && second is Ok);
            if digit != chain.spin_twice {
                lemma_in_turn(
                    chain,
                    up,
                    left,
                    left_sites,
                    right,
                    right_sites,
                    position,
                    amplitude.push(over),
                );
            }
            if digit != 0 {
                lemma_in_turn(
                    chain,
                    down,
                    left,
                    left_sites,
                    right,
                    right_sites,
                    position,
                    amplitude.push(under),
                );
            }
            lemma_onward_joined(chain, first->Ok_0, second->Ok_0, left, left_sites);
        }
    }
}

/// A list of symbols acts from the last to the first: two lists in a row act as the second one
/// and then, on each of its destinations, as the first one, and the factors come in the order in
/// which the symbols act.
pub proof fn law_strings_act_in_turn(
    chain: SpinChain,
    state: u128,
    left: Seq<char>,
    left_sites: Seq<usize>,
    right: Seq<char>,
    right_sites: Seq<usize>,
)
    requires
        left.len() == left_sites.len(),
        right.len() == right_sites.len(),
        spin::spin_symbol_action(chain, state, right, right_sites) is Ok,
    ensures
        spin::spin_symbol_action(chain, state, left + right, left_sites + right_sites) == onward(
            chain,
            spin::spin_symbol_action(chain, state, right, right_sites)->Ok_0,
            left,
            left_sites,
        ),
{
    lemma_in_turn(
        chain,
        state,
        left,
        left_sites,
        right,
        right_sites,
        right.len(),
        Seq::empty(),
    );
}

proof fn lemma_returning_joined(
    first: Seq<(u128, Seq<LocalFactor>)>,
    second: Seq<(u128, Seq<LocalFactor>)>,
    state: u128,
    count: nat,
)
    requires
        count <= second.len(),
    ensures
        returning(first + second, state, first.len() + count) == returning(
            first,
            state,
            first.len(),
        ).plus(returning(second, state, count)),
    decreases count,
{
    if count == 0 {
        lemma_returning_alike(first + second, first, state, first.len());
    } else {
        lemma_returning_joined(first, second, state, (count - 1) as nat);
        assert((first + second)[first.len() + count - 1] == second[count - 1]);
    }
}

proof fn lemma_returning_alike(
    left: Seq<(u128, Seq<LocalFactor>)>,
    right: Seq<(u128, Seq<LocalFactor>)>,
    state: u128,
    count: nat,
)
    requires
        forall|i: int| 0 <= i < count ==> left[i] == right[i],
    ensures
        returning(left, state, count) == returning(right, state, count),
    decreases count,
{
    if count > 0 {
        lemma_returning_alike(left, right, state, (count - 1) as nat);
    }
}

/// The part of x or y that raises or lowers a level.
spec fn share(chain: SpinChain, symbol: char, raising: bool, level: nat) -> WholeComplex {
    twice(
        spin::cartesian_factor(
            chain.normalization,
            symbol,
            raising,
            if raising {
                spin::raise_factor(chain.normalization, chain.spin_twice, level)
            } else {
                spin::lower_factor(chain.normalization, chain.spin_twice, level)
            },
        ),
    )
}

/// One way there and back.
proof fn lemma_there_and_back(
    chain: SpinChain,
    state: u128,
    site: usize,
    a: char,
    target: u128,
    raised: bool,
    factor: LocalFactor,
)
    requires
        site < chain.sites,
        lattice::block_fits(state as nat, chain.sites, chain.levels()),
        a == 'x' || a == 'y',
        raised ==> digits::digit(state as nat, chain.levels(), site as nat) < chain.spin_twice
            && target == state + digits::power(chain.levels(), site as nat) && factor.radicand
            == spin::raise_factor(
            chain.normalization,
            chain.spin_twice,
            digits::digit(state as nat, chain.levels(), site as nat),
        ).radicand,
        !raised ==> digits::digit(state as nat, chain.levels(), site as nat) > 0 && target == state
            - digits::power(chain.levels(), site as nat) && factor.radicand == spin::lower_factor(
            chain.normalization,
            chain.spin_twice,
            digits::digit(state as nat, chain.levels(), site as nat),
        ).radicand,
    ensures
        ({
            let stated = prefixed(
                spin::spin_symbol_action(chain, target, seq![a], seq![site]),
                seq![factor],
            );
            &&& stated is Ok
            &&& returning(stated->Ok_0, state, stated->Ok_0.len()) == twice(factor).product(
                share(
                    chain,
                    a,
                    !raised,
                    digits::digit(target as nat, chain.levels(), site as nat),
                ),
            ).times(factor.radicand as int)
        }),
{
    lemma_steps(chain, state, site);
    lemma_steps(chain, target, site);
    lemma_spelled_out(chain, target, site, a);
    let level = digits::digit(target as nat, chain.levels(), site as nat);
    let place = digits::power(chain.levels(), site as nat);
    let list = spelled_out(chain, target, site, a);
    let stated = prefixed(spin::spin_symbol_action(chain, target, seq![a], seq![site]), seq![factor]);
    assert(symbol_branches(chain, target, site, a) == spin::spin_symbol_action(
        chain,
        target,
        seq![a],
        seq![site],
    ));
    let found = stated->Ok_0;
    assert(found.len() == list.len());
    assert forall|i: int| 0 <= i < found.len() implies found[i].0 == list[i].0 && found[i].1[0]
        == factor && found[i].1[1] == list[i].1[0] by {
    }
    reveal_with_fuel(returning, 3);
    if raised {
        law_ladder_operators_are_adjoint(chain.normalization, chain.spin_twice, (level - 1) as nat);
        let last = list.len() - 1;
        assert(list[last].0 == state);
        assert(last == 1 ==> list[0].0 == target + place);
    } else {
        law_ladder_operators_are_adjoint(chain.normalization, chain.spin_twice, level);
        assert(list[0].0 == state);
        assert(list.len() == 2 ==> list[1].0 == target - place);
    }
}

/// The diagonal element of two of x and y is made of the way up and down and the way down and up.
proof fn lemma_pair_diagonal(chain: SpinChain, state: u128, site: usize, a: char, b: char)
    requires
        site < chain.sites,
        lattice::block_fits(state as nat, chain.sites, chain.levels()),
        a == 'x' || a == 'y',
        b == 'x' || b == 'y',
    ensures
        ({
            let level = digits::digit(state as nat, chain.levels(), site as nat);
            let raise = spin::raise_factor(chain.normalization, chain.spin_twice, level);
            let lower = spin::lower_factor(chain.normalization, chain.spin_twice, level);
            let nothing = WholeComplex { re: 0, im: 0 };
            four_fold_diagonal(chain, state, site, a, b) == (if level < chain.spin_twice {
                share(chain, b, true, level).product(share(chain, a, false, level + 1)).times(
                    raise.radicand as int,
                )
            } else {
                nothing
            }).plus(
                if level > 0 {
                    share(chain, b, false, level).product(
                        share(chain, a, true, (level - 1) as nat),
                    ).times(lower.radicand as int)
                } else {
                    nothing
                },
            )
        }),
{
    let level = digits::digit(state as nat, chain.levels(), site as nat);
    let place = digits::power(chain.levels(), site as nat);
    let raise = spin::raise_factor(chain.normalization, chain.spin_twice, level);
    let lower = spin::lower_factor(chain.normalization, chain.spin_twice, level);
    lemma_steps(chain, state, site);
    lemma_spelled_out(chain, state, site, b);
    law_strings_act_in_turn(chain, state, seq![a], seq![site], seq![b], seq![site]);
    assert(seq![a] + seq![b] =~= seq![a, b]);
    assert(seq![site] + seq![site] =~= seq![site, site]);
    let list = spelled_out(chain, state, site, b);
    let over = spin::cartesian_factor(chain.normalization, b, true, raise);
    let under = spin::cartesian_factor(chain.normalization, b, false, lower);
    let way_up: Seq<(u128, Seq<LocalFactor>)> = if level < chain.spin_twice {
        seq![((state + place) as u128, seq![over])]
    } else {
        Seq::empty()
    };
    let way_down: Seq<(u128, Seq<LocalFactor>)> = if level > 0 {
        seq![((state - place) as u128, seq![under])]
    } else {
        Seq::empty()
    };
    assert(list =~= way_up + way_down);
    lemma_onward_joined(chain, way_up, way_down, seq![a], seq![site]);
    let empty = Ok::<Seq<(u128, Seq<LocalFactor>)>, QmbedError>(Seq::empty());
    assert(onward(chain, Seq::empty(), seq![a], seq![site]) == empty);
    let first = onward(chain, way_up, seq![a], seq![site]);
    let second = onward(chain, way_down, seq![a], seq![site]);
    if level < chain.spin_twice {
        lemma_there_and_back(chain, state, site, a, (state + place) as u128, true, over);
        assert(way_up.drop_last() =~= Seq::empty());
        let only = prefixed(
            spin::spin_symbol_action(chain, (state + place) as u128, seq![a], seq![site]),
            seq![over],
        );
        assert(Seq::empty() + only->Ok_0 =~= only->Ok_0);
        assert(first == only);
    }
    if level > 0 {
        lemma_there_and_back(chain, state, site, a, (state - place) as u128, false, under);
        assert(way_down.drop_last() =~= Seq::empty());
        let only = prefixed(
            spin::spin_symbol_action(chain, (state - place) as u128, seq![a], seq![site]),
            seq![under],
        );
        assert(Seq::empty() + only->Ok_0 =~= only->Ok_0);
        assert(second == only);
    }
    lemma_returning_joined(first->Ok_0, second->Ok_0, state, second->Ok_0.len());
}

/// The diagonal elements of x and y in numbers.
proof fn lemma_diagonal_values(chain: SpinChain, state: u128, site: usize)
    requires
        site < chain.sites,
        chain.normalization != SpinNormalization::AngularMomentum ==> chain.spin_twice == 1,
        lattice::block_fits(state as nat, chain.sites, chain.levels()),
    ensures
        ({
            let level = digits::digit(state as nat, chain.levels(), site as nat);
            let s = chain.spin_twice as int;
            let raise = (s - level) * (level + 1);
            let lower = level * (s - level + 1);
            let angular = chain.normalization == SpinNormalization::AngularMomentum;
            let both = if angular {
                raise + lower
            } else {
                4 * (raise + lower)
            };
            let gap = if angular {
                lower - raise
            } else {
                4 * (lower - raise)
            };
            &&& 0 <= level <= s
            &&& four_fold_diagonal(chain, state, site, 'x', 'x') == (WholeComplex {
                re: both,
                im: 0,
            })
            &&& four_fold_diagonal(chain, state, site, 'y', 'y') == (WholeComplex {
                re: both,
                im: 0,
            })
            &&& four_fold_diagonal(chain, state, site, 'x', 'y') == (WholeComplex {
                re: 0,
                im: gap,
            })
            &&& four_fold_diagonal(chain, state, site, 'y', 'x') == (WholeComplex {
                re: 0,
                im: -gap,
            })
            &&& twice_z(chain, state, site) == if chain.normalization
                == SpinNormalization::AngularMomentum {
                2 * level - s
            } else {
                2 * (2 * level - s)
            }
        }),
{
    let level = digits::digit(state as nat, chain.levels(), site as nat);
    lemma_steps(chain, state, site);
    lemma_spelled_out(chain, state, site, 'z');
    lemma_pair_diagonal(chain, state, site, 'x', 'y');
    lemma_pair_diagonal(chain, state, site, 'y', 'x');
    lemma_pair_diagonal(chain, state, site, 'x', 'x');
    lemma_pair_diagonal(chain, state, site, 'y', 'y');
    let s = chain.spin_twice as int;
    let raise = (s - level) * (level + 1);
    let lower = level * (s - level + 1);
    assert(0 <= lower <= 0x2_0000_0000 && 0 <= raise <= 0x2_0000_0000) by (nonlinear_arith)
        requires
            0 <= level <= s <= 0xffff,
            raise == (s - level) * (level + 1),
            lower == level * (s - level + 1),
    ;
    assert(spin::raise_factor(chain.normalization, chain.spin_twice, level).radicand == raise);
    assert(spin::lower_factor(chain.normalization, chain.spin_twice, level).radicand == lower);
    assert(level == s ==> raise == 0) by (nonlinear_arith)
        requires
            raise == (s - level) * (level + 1),
    ;
    assert(level == 0 ==> lower == 0) by (nonlinear_arith)
        requires
            lower == level * (s - level + 1),
    ;
    assert(1int * raise == raise && 1int * lower == lower);
    let u = if chain.normalization == SpinNormalization::AngularMomentum {
        1int
    } else {
        2int
    };
    let across = WholeComplex { re: u, im: 0 };
    let rising = WholeComplex { re: 0, im: -u };
    let falling = WholeComplex { re: 0, im: u };
    let below = (level - 1) as nat;
    assert(share(chain, 'x', true, level) == across);
    assert(share(chain, 'x', false, level) == across);
    assert(share(chain, 'y', true, level) == rising);
    assert(share(chain, 'y', false, level) == falling);
    assert(share(chain, 'x', false, level + 1) == across);
    assert(share(chain, 'y', false, level + 1) == falling);
    assert(share(chain, 'x', true, below) == across);
    assert(share(chain, 'y', true, below) == rising);
    let square = u * u;
    assert(square == 1 || square == 4) by (nonlinear_arith)
        requires
            u == 1 || u == 2,
            square == u * u,
    ;
    assert((-u) * u == -square && u * (-u) == -square && u * 0 == 0 && 0 * u == 0 && 0 * (-u) == 0
        && (-u) * 0 == 0) by (nonlinear_arith)
        requires
            square == u * u,
    ;
    assert(across.product(across) == (WholeComplex { re: square, im: 0 }));
    assert(rising.product(falling) == (WholeComplex { re: square, im: 0 }));
    assert(falling.product(rising) == (WholeComplex { re: square, im: 0 }));
    assert(rising.product(across) == (WholeComplex { re: 0, im: -square }));
    assert(falling.product(across) == (WholeComplex { re: 0, im: square }));
    assert(across.product(rising) == (WholeComplex { re: 0, im: -square }));
    assert(across.product(falling) == (WholeComplex { re: 0, im: square }));
    assert(square * raise == if square == 1 {
        raise
    } else {
        4 * raise
    } && square * lower == if square == 1 {
        lower
    } else {
        4 * lower
    }) by (nonlinear_arith)
        requires
            square == 1 || square == 4,
    ;
    assert(u == 1 ==> square == 1);
    assert(u == 2 ==> square == 4);
    assert(raise * square == square * raise && lower * square == square * lower && raise * (
    -square) == -(square * raise) && lower * (-square) == -(square * lower) && raise * 0 == 0
        && lower * 0 == 0) by (nonlinear_arith);
}

/// The operators x, y and z of a spin close: the diagonal part of `x y - y x` is `i z` (twice that
/// for Pauli matrices), and `x x` and `y y` have the same diagonal, real and without sign.
pub proof fn law_cartesian_operators_commute_to_z(chain: SpinChain, state: u128, site: usize)
    requires
        site < chain.sites,
        chain.normalization != SpinNormalization::AngularMomentum ==> chain.spin_twice == 1,
        lattice::block_fits(state as nat, chain.sites, chain.levels()),
    ensures
        four_fold_diagonal(chain, state, site, 'x', 'y').minus(
            four_fold_diagonal(chain, state, site, 'y', 'x'),
        ) == (WholeComplex {
            re: 0,
            im: 2 * commutator_scale(chain.normalization) * twice_z(chain, state, site),
        }),
        four_fold_diagonal(chain, state, site, 'x', 'x') == four_fold_diagonal(
            chain,
            state,
            site,
            'y',
            'y',
        ),
        four_fold_diagonal(chain, state, site, 'x', 'x').im == 0,
{
    let level = digits::digit(state as nat, chain.levels(), site as nat);
    let s = chain.spin_twice as int;
    lemma_diagonal_values(chain, state, site);
    let raise = (s - level) * (level + 1);
    let lower = level * (s - level + 1);
    assert(lower - raise == 2 * level - s) by (nonlinear_arith)
        requires
            raise == (s - level) * (level + 1),
            lower == level * (s - level + 1),
    ;
    let z = twice_z(chain, state, site);
    let difference = four_fold_diagonal(chain, state, site, 'x', 'y').minus(
        four_fold_diagonal(chain, state, site, 'y', 'x'),
    );
    assert(difference.re == 0);
    if chain.normalization == SpinNormalization::AngularMomentum {
        assert(difference.im == 2 * (lower - raise));
        assert(commutator_scale(chain.normalization) == 1);
        assert(difference.im == 2 * z);
    } else {
        assert(difference.im == 8 * (lower - raise));
        assert(commutator_scale(chain.normalization) == 2);
        let gap = lower - raise;
        let turn = difference.im;
        assert(z == 2 * gap);
        assert(turn == 4 * z) by (nonlinear_arith)
            requires
                turn == 8 * gap,
                z == 2 * gap,
        ;
    }
    assert(2 * commutator_scale(chain.normalization) * z == difference.im);
}

/// The squares of x, y and z add up to one value on all levels: `s (s + 1)` for a spin of length
/// `s`, and three for Pauli matrices.
pub proof fn law_spin_has_one_length(chain: SpinChain, state: u128, site: usize)
    requires
        site < chain.sites,
        chain.normalization != SpinNormalization::AngularMomentum ==> chain.spin_twice == 1,
        lattice::block_fits(state as nat, chain.sites, chain.levels()),
    ensures
        four_fold_diagonal(chain, state, site, 'x', 'x').re + four_fold_diagonal(
            chain,
            state,
            site,
            'y',
            'y',
        ).re + twice_z(chain, state, site) * twice_z(chain, state, site) == if chain.normalization
            == SpinNormalization::AngularMomentum {
            chain.spin_twice * (chain.spin_twice + 2)
        } else {
            12int
        },
{
    let level = digits::digit(state as nat, chain.levels(), site as nat);
    let s = chain.spin_twice as int;
    let z = twice_z(chain, state, site);
    lemma_diagonal_values(chain, state, site);
    if chain.normalization == SpinNormalization::AngularMomentum {
        assert(2 * (level * (s - level + 1) + (s - level) * (level + 1)) + (2 * level - s) * (2
            * level - s) == s * (s + 2)) by (nonlinear_arith);
        assert(z == 2 * level - s);
    } else {
        assert(level == 0 || level == 1);
        assert(z * z == 4) by (nonlinear_arith)
            requires
                z == 2 || z == -2,
        ;
        assert(level * (s - level + 1) + (s - level) * (level + 1) == 1) by (nonlinear_arith)
            requires
                s == 1,
                level == 0 || level == 1,
        ;
    }
}

} // verus!

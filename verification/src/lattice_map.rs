//! Finite symmetries of packed lattice states.

use vstd::arithmetic::div_mod::*;
use vstd::arithmetic::mul::*;
use vstd::arithmetic::power2::*;
use vstd::prelude::*;

use crate::bits;
use crate::digits;
use crate::digits::checked_power;
use crate::error::{QmbedError, Reason, Result};
use crate::lattice;
use crate::permutation;
use crate::permutation::{check_permutation, permutation_period};
use crate::wide;
use crate::wide::WideState;

verus! {

/// Exchange statistics used when a lattice map reorders local degrees of freedom.
#[derive(Clone, Copy, Debug, PartialEq, Eq, Structural)]
pub enum ExchangeStatistics {
    Distinguishable,
    Fermionic,
}

/// The rows of a table.
pub open spec fn rows(table: Seq<Vec<usize>>) -> Seq<Seq<usize>> {
    Seq::new(table.len(), |i: int| table[i]@)
}

/// The permutation that moves nothing.
pub open spec fn identity(states_per_site: nat) -> Seq<usize> {
    Seq::new(states_per_site, |i: int| i as usize)
}

/// The local maps in use: those given, or no local change.
pub open spec fn local_maps(
    given: Option<Vec<Vec<usize>>>,
    sites: nat,
    states_per_site: nat,
) -> Seq<Seq<usize>> {
    match given {
        Some(table) => rows(table@),
        None => Seq::new(sites, |i: int| identity(states_per_site)),
    }
}

/// Whether there is one permutation of the local digits for every site.
pub open spec fn locals_permute(locals: Seq<Seq<usize>>, sites: nat, states_per_site: nat) -> bool {
    &&& locals.len() == sites
    &&& forall|i: int|
        0 <= i < locals.len() ==> (#[trigger] locals[i]).len() == states_per_site
            && permutation::is_permutation(locals[i])
}

/// Where each pair of a site and its digit goes; the pair is numbered
/// `site * states_per_site + digit`.
pub open spec fn combined(
    destinations: Seq<usize>,
    locals: Seq<Seq<usize>>,
    states_per_site: nat,
) -> Seq<usize> {
    let k = states_per_site as int;
    Seq::new(
        destinations.len() * states_per_site,
        |x: int| (destinations[x / k] * k + locals[x / k][x % k]) as usize,
    )
}

/// Whether some number of steps that fits a machine word leads every pair back.
pub open spec fn has_period(list: Seq<usize>) -> bool {
    exists|steps: nat| 0 < steps <= usize::MAX && #[trigger] permutation::closes(list, steps)
}

/// Why the parts of a lattice symmetry are refused, if they are.
pub open spec fn lattice_map_error(
    states_per_site: usize,
    destinations: Seq<usize>,
    locals: Seq<Seq<usize>>,
    statistics: ExchangeStatistics,
) -> Option<QmbedError> {
    let sites = destinations.len();
    let base = states_per_site as nat;
    let top = digits::power(base, (sites - 1) as nat);
    if sites == 0 || base == 0 {
        Some(QmbedError::InvalidSector(Reason::Text("a lattice symmetry requires sites and local states")))
    } else if !permutation::is_permutation(destinations) {
        Some(QmbedError::IncompatibleSymmetry("symmetry site destinations must be a bijection"))
    } else if !locals_permute(locals, sites, base) {
        Some(QmbedError::IncompatibleSymmetry("every local-state map must be a permutation"))
    } else if statistics == ExchangeStatistics::Fermionic && base != 2 {
        Some(QmbedError::InvalidOptions(Reason::Text("fermionic lattice maps require binary occupation")))
    } else if top > u128::MAX && !(base == 2 && sites <= 16384) {
        Some(
            QmbedError::UnsupportedBackend(
                Reason::Text("lattice-symmetry state encoding exceeds the supported fixed-width backends"),
            ),
        )
    } else if top <= u128::MAX && digits::power(base, sites) > u128::MAX + 1 {
        Some(QmbedError::UnsupportedBackend(Reason::Text("lattice-symmetry state encoding exceeds u128")))
    } else if sites * base > usize::MAX {
        Some(QmbedError::UnsupportedBackend(Reason::Text("lattice-symmetry permutation is too large")))
    } else if !has_period(combined(destinations, locals, base)) {
        Some(QmbedError::UnsupportedBackend(Reason::Text("symmetry period is too large")))
    } else {
        None
    }
}

/// Value of the digits of the first `count` sites after they were sent to their places.
pub open spec fn placed(
    destinations: Seq<usize>,
    locals: Seq<Seq<usize>>,
    base: nat,
    state: nat,
    count: nat,
) -> nat
    decreases count,
{
    if count == 0 {
        0
    } else {
        let source = (count - 1) as nat;
        placed(destinations, locals, base, state, source)
            + locals[source as int][digits::digit(state, base, source) as int] as nat
            * digits::power(base, destinations[source as int] as nat)
    }
}

/// Occupied sites of a binary state.
pub open spec fn occupancy(state: nat, sites: nat) -> Seq<bool> {
    Seq::new(sites, |site: int| bits::bit_at(state, site as nat))
}

/// How many of the first `count` sites are occupied and sent beyond `target`.
pub open spec fn beyond(
    destinations: Seq<usize>,
    occupied: Seq<bool>,
    count: nat,
    target: nat,
) -> nat
    decreases count,
{
    if count == 0 {
        0
    } else {
        let source = (count - 1) as nat;
        beyond(destinations, occupied, source, target) + if occupied[source as int]
            && destinations[source as int] > target {
            1nat
        } else {
            0
        }
    }
}

/// Pairs of occupied sites among the first `count` whose order is reversed.
pub open spec fn inversions(destinations: Seq<usize>, occupied: Seq<bool>, count: nat) -> nat
    decreases count,
{
    if count == 0 {
        0
    } else {
        let source = (count - 1) as nat;
        inversions(destinations, occupied, source) + if occupied[source as int] {
            beyond(destinations, occupied, source, destinations[source as int] as nat)
        } else {
            0
        }
    }
}

/// The destinations of the occupied sites among the first `count`, as a binary word.
spec fn landed(destinations: Seq<usize>, occupied: Seq<bool>, count: nat) -> nat
    decreases count,
{
    if count == 0 {
        0
    } else {
        let source = (count - 1) as nat;
        landed(destinations, occupied, source) + if occupied[source as int] {
            pow2(destinations[source as int] as nat)
        } else {
            0
        }
    }
}

/// A zero digit can be given a value without touching the others.
pub proof fn lemma_set_digit(code: nat, place: nat, value: nat, base: nat, sites: nat)
    requires
        base > 0,
        place < sites,
        code < digits::power(base, sites),
        digits::digit(code, base, place) == 0,
        value < base,
    ensures
        code + value * digits::power(base, place) < digits::power(base, sites),
        forall|site: nat| #[trigger]
            digits::digit(code + value * digits::power(base, place), base, site) == if site
                == place {
                value
            } else {
                digits::digit(code, base, site)
            },
{
    let p = digits::power(base, place);
    let low = code % p;
    let rest = code / p;
    let high = rest / base;
    let changed = code + value * p;
    digits::lemma_power_positive(base, place);
    lattice::lemma_digit_parts(code, place, base, 0);
    lemma_fundamental_div_mod(rest as int, base as int);
    lemma_mul_is_commutative(base as int, high as int);
    assert(rest == high * base);
    assert(changed == (rest + value) * p + low) by (nonlinear_arith)
        requires
            changed == code + value * p,
            code == rest * p + low,
    ;
    digits::lemma_power_adds(base, 1, place);
    reveal_with_fuel(digits::power, 2);
    assert(digits::power(base, 0) == 1);
    lemma_mul_basics(base as int);
    assert(digits::power(base, 1) == base);
    lemma_mul_is_commutative(base as int, p as int);
    lemma_div_denominator(code as int, p as int, base as int);
    assert(code / digits::power(base, place + 1) == high);
    assert forall|site: nat| #[trigger] digits::digit(changed, base, site) == if site == place {
        value
    } else {
        digits::digit(code, base, site)
    } by {
        lattice::lemma_digit_join(rest + value, low, place, base, site);
        if site < place {
            lattice::lemma_digit_parts(code, place, base, site);
        } else {
            let up = (site - place) as nat;
            lattice::lemma_digit_join(high, value, 1, base, up);
            if up == 0 {
                assert(digits::digit(value, base, 0) == value) by {
                    lemma_small_mod(value, base);
                    assert(value / 1 == value);
                }
            } else {
                lattice::lemma_digit_parts(code, place + 1, base, (up - 1) as nat);
            }
        }
    }
    let above = (sites - place) as nat;
    let most = digits::power(base, (above - 1) as nat);
    digits::lemma_power_adds(base, place, above);
    digits::lemma_power_adds(base, 1, (above - 1) as nat);
    lemma_multiply_divide_lt(code as int, p as int, digits::power(base, above) as int);
    assert(high < most) by (nonlinear_arith)
        requires
            high * base < base * most,
            base > 0,
    ;
    assert(high * base + value + 1 <= base * most) by (nonlinear_arith)
        requires
            high + 1 <= most,
            value + 1 <= base,
            base > 0,
    ;
    let lead = (rest + value) as int;
    assert(lead * p + low < (lead + 1) * p) by (nonlinear_arith)
        requires
            low < p,
    ;
    assert((lead + 1) * p <= p * (base * most)) by (nonlinear_arith)
        requires
            lead + 1 <= base * most,
            p > 0,
    ;
}

/// A zero digit fits a word that is large enough for its place.
proof fn lemma_zero_digits(base: nat, sites: nat)
    requires
        base > 0,
    ensures
        0 < digits::power(base, sites),
        forall|site: nat| #[trigger] digits::digit(0, base, site) == 0,
{
    digits::lemma_power_positive(base, sites);
    assert forall|site: nat| #[trigger] digits::digit(0, base, site) == 0 by {
        digits::lemma_power_positive(base, site);
        lemma_basic_div(0, digits::power(base, site) as int);
        lemma_small_mod(0, base);
    }
}

/// Digits of the placed word.
pub proof fn lemma_placed(
    destinations: Seq<usize>,
    locals: Seq<Seq<usize>>,
    base: nat,
    state: nat,
    count: nat,
)
    requires
        base > 0,
        permutation::is_permutation(destinations),
        locals_permute(locals, destinations.len(), base),
        count <= destinations.len(),
    ensures
        placed(destinations, locals, base, state, count) < digits::power(base, destinations.len()),
        forall|s: int|
            0 <= s < count ==> digits::digit(
                placed(destinations, locals, base, state, count),
                base,
                #[trigger] destinations[s] as nat,
            ) == locals[s][digits::digit(state, base, s as nat) as int],
        forall|s: int|
            count <= s < destinations.len() ==> digits::digit(
                placed(destinations, locals, base, state, count),
                base,
                #[trigger] destinations[s] as nat,
            ) == 0,
    decreases count,
{
    if count == 0 {
        lemma_zero_digits(base, destinations.len());
    } else {
        let source = (count - 1) as nat;
        let d = destinations[source as int] as nat;
        let digit = digits::digit(state, base, source);
        lemma_placed(destinations, locals, base, state, source);
        digits::lemma_power_positive(base, source);
        lemma_mod_bound((state / digits::power(base, source)) as int, base as int);
        assert(locals[source as int].len() == base);
        let value = locals[source as int][digit as int] as nat;
        assert(value < base);
        lemma_set_digit(
            placed(destinations, locals, base, state, source),
            d,
            value,
            base,
            destinations.len(),
        );
        assert forall|s: int| 0 <= s < count implies digits::digit(
            placed(destinations, locals, base, state, count),
            base,
            #[trigger] destinations[s] as nat,
        ) == locals[s][digits::digit(state, base, s as nat) as int] by {
            if s < source {
                assert(destinations[s] != destinations[source as int]);
            }
        }
        assert forall|s: int| count <= s < destinations.len() implies digits::digit(
            placed(destinations, locals, base, state, count),
            base,
            #[trigger] destinations[s] as nat,
        ) == 0 by {
            assert(destinations[s] != destinations[source as int]);
        }
    }
}

/// One more binary digit counts above every place below it.
proof fn lemma_added_one(word: nat, place: nat, target: nat)
    requires
        digits::digit(word, 2, place) == 0,
    ensures
        bits::ones((word + pow2(place)) / pow2(target + 1)) == bits::ones(word / pow2(target + 1))
            + if place > target {
            1nat
        } else {
            0
        },
{
    digits::lemma_power_two(place);
    lemma_pow2_pos(place);
    lemma_pow2_pos(target + 1);
    let r = word / pow2(place);
    if place > target {
        let e = (place - target - 1) as nat;
        let p = pow2(target + 1);
        let q = word / p;
        let s = pow2(e);
        lemma_pow2_pos(e);
        lemma_pow2_adds(e, target + 1);
        lemma_pow2_adds(target + 1, e);
        lemma_hoist_over_denominator(word as int, s as int, p);
        lemma_div_denominator(word as int, p as int, s as int);
        assert((word + pow2(place)) / p == q + s);
        let l = q % s;
        lemma_fundamental_div_mod(q as int, s as int);
        lemma_mod_bound(q as int, s as int);
        assert(q / s == r);
        assert(q == r * s + l && q + s == (r + 1) * s + l) by (nonlinear_arith)
            requires
                q == s * r + l,
        ;
        bits::lemma_ones_split(r, l, e);
        bits::lemma_ones_split(r + 1, l, e);
        assert((r + 1) / 2 == r / 2);
    } else {
        let f = (target - place) as nat;
        lemma_pow2_pos(f);
        lemma_pow2_unfold(place + 1);
        lemma_pow2_adds(place + 1, f);
        lemma_mul_basics(pow2(place) as int);
        lemma_hoist_over_denominator(word as int, 1, pow2(place));
        assert((word + pow2(place)) / pow2(place) == r + 1);
        lemma_mul_is_commutative(2, pow2(place) as int);
        lemma_div_denominator(word as int, pow2(place) as int, 2);
        lemma_div_denominator((word + pow2(place)) as int, pow2(place) as int, 2);
        assert((r + 1) / 2 == r / 2);
        lemma_div_denominator(word as int, pow2(place + 1) as int, pow2(f) as int);
        lemma_div_denominator((word + pow2(place)) as int, pow2(place + 1) as int, pow2(f) as int);
    }
}

/// The word of the occupied destinations counts those beyond a target.
proof fn lemma_landed(destinations: Seq<usize>, occupied: Seq<bool>, count: nat)
    requires
        permutation::is_permutation(destinations),
        occupied.len() == destinations.len(),
        count <= destinations.len(),
    ensures
        landed(destinations, occupied, count) < pow2(destinations.len()),
        forall|target: nat| #[trigger]
            beyond(destinations, occupied, count, target) == bits::ones(
                landed(destinations, occupied, count) / pow2(target + 1),
            ),
        forall|s: int|
            count <= s < destinations.len() ==> digits::digit(
                landed(destinations, occupied, count),
                2,
                #[trigger] destinations[s] as nat,
            ) == 0,
    decreases count,
{
    let n = destinations.len();
    digits::lemma_power_two(n);
    if count == 0 {
        lemma_zero_digits(2, n);
        assert forall|target: nat| #[trigger] beyond(destinations, occupied, count, target)
            == bits::ones(landed(destinations, occupied, count) / pow2(target + 1)) by {
            lemma_pow2_pos(target + 1);
            lemma_basic_div(0, pow2(target + 1) as int);
        }
    } else {
        let source = (count - 1) as nat;
        let d = destinations[source as int] as nat;
        let word = landed(destinations, occupied, source);
        lemma_landed(destinations, occupied, source);
        digits::lemma_power_two(d);
        lemma_mul_basics(pow2(d) as int);
        lemma_set_digit(word, d, 1, 2, n);
        assert forall|target: nat| #[trigger] beyond(destinations, occupied, count, target)
            == bits::ones(landed(destinations, occupied, count) / pow2(target + 1)) by {
            assert(beyond(destinations, occupied, source, target) == bits::ones(
                word / pow2(target + 1),
            ));
            lemma_added_one(word, d, target);
        }
        assert forall|s: int| count <= s < destinations.len() implies digits::digit(
            landed(destinations, occupied, count),
            2,
            #[trigger] destinations[s] as nat,
        ) == 0 by {
            assert(destinations[s] != destinations[source as int]);
        }
    }
}

/// Number of a pair of a site and its digit.
proof fn lemma_pair(site: int, digit: int, base: int)
    requires
        0 <= digit < base,
        0 <= site,
    ensures
        (site * base + digit) / base == site,
        (site * base + digit) % base == digit,
{
    lemma_fundamental_div_mod_converse(site * base + digit, base, site, digit);
}

/// The parts of the pair with a number.
proof fn lemma_pair_parts(x: int, sites: nat, base: nat)
    requires
        base > 0,
        0 <= x < sites * base,
    ensures
        0 <= x / (base as int) < sites,
        0 <= x % (base as int) < base,
        x == (x / (base as int)) * base + x % (base as int),
{
    lemma_fundamental_div_mod(x, base as int);
    lemma_mod_bound(x, base as int);
    lemma_mul_is_commutative(base as int, x / (base as int));
    lemma_div_pos_is_pos(x, base as int);
    lemma_mul_is_commutative(sites as int, base as int);
    lemma_multiply_divide_lt(x, base as int, sites as int);
}

/// Pairs move as a permutation.
pub proof fn lemma_combined(destinations: Seq<usize>, locals: Seq<Seq<usize>>, base: nat)
    requires
        base > 0,
        permutation::is_permutation(destinations),
        locals_permute(locals, destinations.len(), base),
        destinations.len() * base <= usize::MAX,
    ensures
        permutation::is_permutation(combined(destinations, locals, base)),
        forall|x: int|
            0 <= x < destinations.len() * base ==> #[trigger] combined(destinations, locals, base)[x]
                == destinations[x / (base as int)] * base + locals[x / (base as int)][x
                % (base as int)],
{
    let list = combined(destinations, locals, base);
    let k = base as int;
    assert forall|x: int| 0 <= x < list.len() implies #[trigger] list[x] == destinations[x / k] * k
        + locals[x / k][x % k] && list[x] < list.len() by {
        lemma_pair_parts(x, destinations.len(), base);
        let d = destinations[x / k] as int;
        assert(locals[x / k].len() == base);
        let v = locals[x / k][x % k] as int;
        assert(d * k + v < destinations.len() * base) by (nonlinear_arith)
            requires
                d + 1 <= destinations.len(),
                v < k,
                k == base,
        ;
        assert(d * k >= 0) by (nonlinear_arith)
            requires
                d >= 0,
                k >= 0,
        ;
    }
    assert forall|x: int, y: int| 0 <= x < list.len() && 0 <= y < list.len() && x != y implies list[x]
        != list[y] by {
        lemma_pair_parts(x, destinations.len(), base);
        lemma_pair_parts(y, destinations.len(), base);
        assert(locals[x / k].len() == base && locals[y / k].len() == base);
        lemma_pair(destinations[x / k] as int, locals[x / k][x % k] as int, k);
        lemma_pair(destinations[y / k] as int, locals[y / k][y % k] as int, k);
        if list[x] == list[y] {
            assert(destinations[x / k] == destinations[y / k]);
            assert(x / k == y / k);
            assert(locals[x / k][x % k] == locals[x / k][y % k]);
            assert(x % k == y % k);
        }
    }
}

/// Runtime-owned finite symmetry of a packed lattice state.
///
/// `destinations[source]` gives the target site. Each source site also owns a
/// permutation of its local digits, so one representation covers translations,
/// reflections, sublattice maps and local spin inversion. Fermionic maps take
/// the parity of the permutation of the originally occupied orbitals; an
/// exchange of empty and occupied digits adds no phase of its own.
#[derive(Clone, Debug)]
pub struct LatticeSymmetryMap {
    states_per_site: usize,
    destinations: Vec<usize>,
    local_permutations: Vec<Vec<usize>>,
    statistics: ExchangeStatistics,
    place_values: Option<Vec<u128>>,
    state_limit: Option<u128>,
    period: usize,
}

/// The identical permutation of the local digits.
fn identity_permutation(states_per_site: usize) -> (list: Vec<usize>)
    ensures
        list@ == identity(states_per_site as nat),
{
    let mut list: Vec<usize> = Vec::new();
    let mut next: usize = 0;
    while next < states_per_site
        invariant
            next <= states_per_site,
            list@ == identity(next as nat),
        decreases states_per_site - next,
    {
        list.push(next);
        next += 1;
        assert(identity(next as nat) =~= identity((next - 1) as nat).push((next - 1) as usize));
    }
    list
}

/// One identical permutation for every site.
fn identity_table(sites: usize, states_per_site: usize) -> (table: Vec<Vec<usize>>)
    ensures
        rows(table@) == local_maps(None, sites as nat, states_per_site as nat),
{
    let mut table: Vec<Vec<usize>> = Vec::new();
    let mut next: usize = 0;
    while next < sites
        invariant
            next <= sites,
            table@.len() == next,
            forall|i: int|
                0 <= i < table@.len() ==> (#[trigger] table@[i])@ == identity(
                    states_per_site as nat,
                ),
        decreases sites - next,
    {
        table.push(identity_permutation(states_per_site));
        next += 1;
    }
    assert(rows(table@) =~= local_maps(None, sites as nat, states_per_site as nat));
    table
}

/// Whether the table holds one permutation of the local digits for every site.
fn check_local_maps(table: &Vec<Vec<usize>>, sites: usize, states_per_site: usize) -> (answer: bool)
    ensures
        answer == locals_permute(rows(table@), sites as nat, states_per_site as nat),
{
    if table.len() != sites {
        return false;
    }
    let ghost locals = rows(table@);
    let mut next: usize = 0;
    while next < table.len()
        invariant
            next <= table@.len(),
            locals == rows(table@),
            forall|i: int|
                0 <= i < next ==> (#[trigger] locals[i]).len() == states_per_site
                    && permutation::is_permutation(locals[i]),
        decreases table@.len() - next,
    {
        let row: &Vec<usize> = &table[next];
        assert(locals[next as int] == row@);
        if row.len() != states_per_site || !check_permutation(row) {
            return false;
        }
        next += 1;
    }
    true
}

/// Weights of the sites; the last one is known to fit.
fn weights_of_sites(base: u128, sites: usize) -> (weights: Vec<u128>)
    requires
        base > 0,
        sites > 0,
        digits::power(base as nat, (sites - 1) as nat) <= u128::MAX,
    ensures
        weights@.len() == sites,
        forall|i: int|
            0 <= i < sites ==> #[trigger] weights@[i] == digits::power(base as nat, i as nat),
{
    let mut weights: Vec<u128> = Vec::new();
    let mut weight: u128 = 1;
    weights.push(1);
    let mut next: usize = 1;
    while next < sites
        invariant
            0 < next <= sites,
            base > 0,
            digits::power(base as nat, (sites - 1) as nat) <= u128::MAX,
            weight == digits::power(base as nat, (next - 1) as nat),
            weights@.len() == next,
            forall|i: int|
                0 <= i < next ==> #[trigger] weights@[i] == digits::power(base as nat, i as nat),
        decreases sites - next,
    {
        proof {
            digits::lemma_power_monotone(base as nat, next as nat, (sites - 1) as nat);
        }
        weight = base * weight;
        weights.push(weight);
        next += 1;
    }
    weights
}

/// Period of the motion of sites and digits together.
fn combined_permutation_period(
    destinations: &Vec<usize>,
    table: &Vec<Vec<usize>>,
    states_per_site: usize,
) -> (result: Result<usize>)
    requires
        states_per_site > 0,
        permutation::is_permutation(destinations@),
        locals_permute(rows(table@), destinations@.len(), states_per_site as nat),
    ensures
        ({
            let list = combined(destinations@, rows(table@), states_per_site as nat);
            match result {
                Ok(period) => {
                    &&& destinations@.len() * states_per_site <= usize::MAX
                    &&& permutation::is_period(list, period as nat)
                },
                Err(error) => if destinations@.len() * states_per_site > usize::MAX {
                    error == QmbedError::UnsupportedBackend(
                        Reason::Text("lattice-symmetry permutation is too large"),
                    )
                } else {
                    &&& error == QmbedError::UnsupportedBackend(Reason::Text("symmetry period is too large"))
                    &&& !has_period(list)
                },
            }
        }),
{
    let elements: usize = match destinations.len().checked_mul(states_per_site) {
        Some(elements) => elements,
        None => {
            return Err(
                QmbedError::UnsupportedBackend(Reason::Text("lattice-symmetry permutation is too large")),
            );
        },
    };
    let ghost locals = rows(table@);
    let ghost base = states_per_site as nat;
    let ghost whole = combined(destinations@, locals, base);
    proof {
        lemma_combined(destinations@, locals, base);
    }
    let mut list: Vec<usize> = Vec::new();
    let mut next: usize = 0;
    while next < elements
        invariant
            next <= elements,
            base == states_per_site,
            states_per_site > 0,
            elements == destinations@.len() * base,
            locals == rows(table@),
            locals_permute(locals, destinations@.len(), base),
            whole == combined(destinations@, locals, base),
            whole.len() == elements,
            permutation::is_permutation(whole),
            forall|x: int|
                0 <= x < destinations@.len() * base ==> #[trigger] whole[x] == destinations@[x / (
                base as int)] * base + locals[x / (base as int)][x % (base as int)],
            list@ == whole.take(next as int),
        decreases elements - next,
    {
        proof {
            lemma_pair_parts(next as int, destinations@.len(), base);
            assert(locals[next as int / (base as int)].len() == base);
            assert(whole[next as int] < whole.len());
            let d = destinations@[next as int / (base as int)] as int;
            assert(0 <= d * base) by (nonlinear_arith)
                requires
                    d >= 0,
            ;
        }
        let source: usize = next / states_per_site;
        let digit: usize = next % states_per_site;
        list.push(destinations[source] * states_per_site + table[source][digit]);
        next += 1;
        assert(whole.take(next as int) =~= whole.take(next - 1).push(whole[next - 1]));
    }
    assert(list@ =~= whole);
    permutation_period(&list)
}

impl LatticeSymmetryMap {
    pub closed spec fn spec_states_per_site(&self) -> nat {
        self.states_per_site as nat
    }

    pub closed spec fn spec_destinations(&self) -> Seq<usize> {
        self.destinations@
    }

    pub closed spec fn spec_locals(&self) -> Seq<Seq<usize>> {
        rows(self.local_permutations@)
    }

    pub closed spec fn spec_statistics(&self) -> ExchangeStatistics {
        self.statistics
    }

    pub closed spec fn spec_period(&self) -> usize {
        self.period
    }

    /// Number of sites.
    pub open spec fn spec_sites(&self) -> nat {
        self.spec_destinations().len()
    }

    /// Whether states of this lattice fit 128 bits.
    pub open spec fn packed(&self) -> bool {
        digits::power(self.spec_states_per_site(), self.spec_sites()) <= u128::MAX + 1
    }

    /// Parts that go together.
    pub closed spec fn wf(&self) -> bool {
        let base = self.states_per_site as nat;
        let sites = self.destinations@.len();
        let top = digits::power(base, (sites - 1) as nat);
        &&& lattice_map_error(
            self.states_per_site,
            self.destinations@,
            rows(self.local_permutations@),
            self.statistics,
        ) is None
        &&& permutation::is_period(
            combined(self.destinations@, rows(self.local_permutations@), base),
            self.period as nat,
        )
        &&& match self.place_values {
            Some(weights) => {
                &&& top <= u128::MAX
                &&& weights@.len() == sites
                &&& forall|i: int|
                    0 <= i < sites ==> #[trigger] weights@[i] == digits::power(base, i as nat)
            },
            None => top > u128::MAX,
        }
        &&& match self.state_limit {
            Some(limit) => limit == digits::power(base, sites),
            None => digits::power(base, sites) > u128::MAX,
        }
    }

    /// What a well-formed map consists of.
    pub proof fn lemma_parts(&self)
        requires
            self.wf(),
        ensures
            0 < self.spec_states_per_site() <= usize::MAX,
            0 < self.spec_sites() <= usize::MAX,
            lattice_map_error(
                self.spec_states_per_site() as usize,
                self.spec_destinations(),
                self.spec_locals(),
                self.spec_statistics(),
            ) is None,
            permutation::is_permutation(self.spec_destinations()),
            locals_permute(self.spec_locals(), self.spec_sites(), self.spec_states_per_site()),
            self.spec_statistics() == ExchangeStatistics::Fermionic ==> self.spec_states_per_site()
                == 2,
            !self.packed() ==> self.spec_states_per_site() == 2 && self.spec_sites() <= 16384,
            self.spec_sites() * self.spec_states_per_site() <= usize::MAX,
            self.spec_period() > 0,
            permutation::is_period(
                combined(
                    self.spec_destinations(),
                    self.spec_locals(),
                    self.spec_states_per_site(),
                ),
                self.spec_period() as nat,
            ),
    {
        assert(self.destinations.len() == self.destinations@.len());
        self.lemma_storage();
    }

    proof fn lemma_storage(&self)
        requires
            self.wf(),
        ensures
            self.packed() == self.place_values is Some,
    {
        let base = self.spec_states_per_site();
        let sites = self.spec_sites();
        digits::lemma_power_monotone(base, (sites - 1) as nat, sites);
        if digits::power(base, (sites - 1) as nat) > u128::MAX && self.packed() {
            assert(base == 2);
            digits::lemma_power_adds(2, 1, (sites - 1) as nat);
            reveal_with_fuel(digits::power, 2);
        }
    }

    /// Where a state goes.
    pub open spec fn image(&self, state: nat) -> nat {
        placed(
            self.spec_destinations(),
            self.spec_locals(),
            self.spec_states_per_site(),
            state,
            self.spec_sites(),
        )
    }

    /// Whether the sign of a state turns.
    pub open spec fn turns_sign(&self, state: nat) -> bool {
        &&& self.spec_statistics() == ExchangeStatistics::Fermionic
        &&& inversions(
            self.spec_destinations(),
            occupancy(state, self.spec_sites()),
            self.spec_sites(),
        ) % 2 == 1
    }

    /// A symmetry with the given site destinations and local maps; without local
    /// maps the local digits are kept.
    pub fn new(
        states_per_site: usize,
        destinations: Vec<usize>,
        local_permutations: Option<Vec<Vec<usize>>>,
        statistics: ExchangeStatistics,
    ) -> (result: Result<Self>)
        ensures
            ({
                let locals = local_maps(
                    local_permutations,
                    destinations@.len(),
                    states_per_site as nat,
                );
                let refusal = lattice_map_error(
                    states_per_site,
                    destinations@,
                    locals,
                    statistics,
                );
                match result {
                    Ok(map) => {
                        &&& refusal is None
                        &&& map.wf()
                        &&& map.spec_states_per_site() == states_per_site
                        &&& map.spec_destinations() == destinations@
                        &&& map.spec_locals() == locals
                        &&& map.spec_statistics() == statistics
                    },
                    Err(error) => refusal == Some(error),
                }
            }),
    {
        let sites: usize = destinations.len();
        if sites == 0 || states_per_site == 0 {
            return Err(
                QmbedError::InvalidSector(Reason::Text("a lattice symmetry requires sites and local states")),
            );
        }
        if !check_permutation(&destinations) {
            return Err(
                QmbedError::IncompatibleSymmetry("symmetry site destinations must be a bijection"),
            );
        }
        let table: Vec<Vec<usize>> = match local_permutations {
            Some(table) => table,
            None => identity_table(sites, states_per_site),
        };
        if !check_local_maps(&table, sites, states_per_site) {
            return Err(
                QmbedError::IncompatibleSymmetry("every local-state map must be a permutation"),
            );
        }
        if statistics == ExchangeStatistics::Fermionic && states_per_site != 2 {
            return Err(
                QmbedError::InvalidOptions(Reason::Text("fermionic lattice maps require binary occupation")),
            );
        }
        let base: u128 = states_per_site as u128;
        let mut place_values: Option<Vec<u128>> = None;
        let mut state_limit: Option<u128> = None;
        proof {
            digits::lemma_power_adds(base as nat, 1, (sites - 1) as nat);
            reveal_with_fuel(digits::power, 2);
            digits::lemma_power_monotone(base as nat, (sites - 1) as nat, sites as nat);
            digits::lemma_power_positive(base as nat, (sites - 1) as nat);
        }
        match checked_power(base, sites - 1) {
            Some(top) => {
                place_values = Some(weights_of_sites(base, sites));
                state_limit = base.checked_mul(top);
                let full: bool = u128::MAX / top == base - 1 && u128::MAX % top == top - 1;
                proof {
                    lemma_fundamental_div_mod(u128::MAX as int, top as int);
                    assert(full ==> base * top == u128::MAX + 1) by (nonlinear_arith)
                        requires
                            full ==> u128::MAX as int == top * (base - 1) + (top - 1),
                    ;
                    if base * top == u128::MAX + 1 {
                        assert(u128::MAX as int == (base - 1) * top + (top - 1)) by (nonlinear_arith)
                            requires
                                base * top == u128::MAX + 1,
                        ;
                        lemma_fundamental_div_mod_converse(
                            u128::MAX as int,
                            top as int,
                            base - 1,
                            top - 1,
                        );
                    }
                }
                if state_limit.is_none() && !full {
                    return Err(
                        QmbedError::UnsupportedBackend(
                            Reason::Text("lattice-symmetry state encoding exceeds u128"),
                        ),
                    );
                }
            },
            None => {
                if !(states_per_site == 2 && sites <= 16384) {
                    return Err(
                        QmbedError::UnsupportedBackend(
                            Reason::Text("lattice-symmetry state encoding exceeds the supported fixed-width backends"),
                        ),
                    );
                }
            },
        }
        match combined_permutation_period(&destinations, &table, states_per_site) {
            Ok(period) => {
                proof {
                    let list = combined(destinations@, rows(table@), states_per_site as nat);
                    lemma_mod_self_0(period as int);
                    assert(permutation::closes(list, period as nat));
                }
                Ok(
                    LatticeSymmetryMap {
                        states_per_site,
                        destinations,
                        local_permutations: table,
                        statistics,
                        place_values,
                        state_limit,
                        period,
                    },
                )
            },
            Err(error) => Err(error),
        }
    }

    /// A symmetry that only moves sites.
    pub fn site_permutation(states_per_site: usize, destinations: Vec<usize>) -> (result: Result<
        Self,
    >)
        ensures
            ({
                let locals = local_maps(None, destinations@.len(), states_per_site as nat);
                let refusal = lattice_map_error(
                    states_per_site,
                    destinations@,
                    locals,
                    ExchangeStatistics::Distinguishable,
                );
                match result {
                    Ok(map) => {
                        &&& refusal is None
                        &&& map.wf()
                        &&& map.spec_states_per_site() == states_per_site
                        &&& map.spec_destinations() == destinations@
                        &&& map.spec_locals() == locals
                        &&& map.spec_statistics() == ExchangeStatistics::Distinguishable
                    },
                    Err(error) => refusal == Some(error),
                }
            }),
    {
        Self::new(states_per_site, destinations, None, ExchangeStatistics::Distinguishable)
    }

    /// A symmetry that reorders fermionic orbitals.
    pub fn fermionic_orbital_permutation(destinations: Vec<usize>) -> (result: Result<Self>)
        ensures
            ({
                let locals = local_maps(None, destinations@.len(), 2);
                let refusal = lattice_map_error(
                    2,
                    destinations@,
                    locals,
                    ExchangeStatistics::Fermionic,
                );
                match result {
                    Ok(map) => {
                        &&& refusal is None
                        &&& map.wf()
                        &&& map.spec_states_per_site() == 2
                        &&& map.spec_destinations() == destinations@
                        &&& map.spec_locals() == locals
                        &&& map.spec_statistics() == ExchangeStatistics::Fermionic
                    },
                    Err(error) => refusal == Some(error),
                }
            }),
    {
        Self::new(2, destinations, None, ExchangeStatistics::Fermionic)
    }

    /// Number of sites.
    pub fn sites(&self) -> (sites: usize)
        ensures
            sites == self.spec_sites(),
    {
        self.destinations.len()
    }

    /// States of one site.
    pub fn states_per_site(&self) -> (states: usize)
        ensures
            states == self.spec_states_per_site(),
    {
        self.states_per_site
    }

    /// Target site of every source site.
    pub fn destinations(&self) -> (list: &Vec<usize>)
        ensures
            list@ == self.spec_destinations(),
    {
        &self.destinations
    }

    /// Local map of every source site.
    pub fn local_permutations(&self) -> (table: &Vec<Vec<usize>>)
        ensures
            rows(table@) == self.spec_locals(),
    {
        &self.local_permutations
    }

    /// Exchange statistics.
    pub fn statistics(&self) -> (statistics: ExchangeStatistics)
        ensures
            statistics == self.spec_statistics(),
    {
        self.statistics
    }

    /// Steps after which every site and digit is back.
    pub fn period(&self) -> (period: usize)
        ensures
            period == self.spec_period(),
    {
        self.period
    }

    /// Image of a packed state, and whether its sign turns.
    pub(crate) fn mapped_state(&self, state: u128) -> (result: Result<(u128, bool)>)
        requires
            self.wf(),
        ensures
            match result {
                Ok((mapped, odd)) => {
                    &&& self.packed()
                    &&& state < digits::power(self.spec_states_per_site(), self.spec_sites())
                    &&& mapped == self.image(state as nat)
                    &&& odd == self.turns_sign(state as nat)
                },
                Err(error) => if !self.packed() {
                    error == QmbedError::UnsupportedBackend(
                        Reason::Text("this lattice symmetry requires a wide fixed-width state"),
                    )
                } else {
                    &&& state >= digits::power(self.spec_states_per_site(), self.spec_sites())
                    &&& error == QmbedError::StateNotInBasis
                },
            },
    {
        proof {
            self.lemma_parts();
            self.lemma_storage();
        }
        let weights: &Vec<u128> = match &self.place_values {
            Some(weights) => weights,
            None => {
                return Err(
                    QmbedError::UnsupportedBackend(
                        Reason::Text("this lattice symmetry requires a wide fixed-width state"),
                    ),
                );
            },
        };
        if let Some(limit) = self.state_limit {
            if state >= limit {
                return Err(QmbedError::StateNotInBasis);
            }
        }
        let base: u128 = self.states_per_site as u128;
        let fermionic: bool = self.statistics == ExchangeStatistics::Fermionic;
        let sites: usize = self.destinations.len();
        let ghost dest = self.destinations@;
        let ghost locals = rows(self.local_permutations@);
        let ghost occ = occupancy(state as nat, dest.len());
        let ghost k = base as nat;
        proof {
            if fermionic {
                digits::lemma_power_two(dest.len());
                bits::lemma_pow2_128();
                if dest.len() > 128 {
                    lemma_pow2_strictly_increases(128, dest.len());
                }
            }
        }
        let mut mapped: u128 = 0;
        let mut occupied_destinations: u128 = 0;
        let mut odd: bool = false;
        let mut source: usize = 0;
        while source < sites
            invariant
                source <= sites,
                sites == dest.len(),
                dest == self.destinations@,
                locals == rows(self.local_permutations@),
                weights@.len() == sites,
                forall|i: int|
                    0 <= i < sites ==> #[trigger] weights@[i] == digits::power(k, i as nat),
                k == base,
                base == self.states_per_site,
                base > 0,
                permutation::is_permutation(dest),
                locals_permute(locals, dest.len(), k),
                digits::power(k, dest.len()) <= u128::MAX + 1,
                occ == occupancy(state as nat, dest.len()),
                fermionic ==> base == 2 && sites <= 128,
                mapped == placed(dest, locals, k, state as nat, source as nat),
                fermionic ==> occupied_destinations == landed(dest, occ, source as nat),
                fermionic ==> odd == (inversions(dest, occ, source as nat) % 2 == 1),
                !fermionic ==> !odd,
            decreases sites - source,
        {
            proof {
                digits::lemma_power_positive(k, source as nat);
                lemma_mod_bound(state as int / weights@[source as int] as int, k as int);
                lemma_placed(dest, locals, k, state as nat, source as nat);
                lemma_placed(dest, locals, k, state as nat, (source + 1) as nat);
                assert(locals[source as int].len() == k);
                assert(dest[source as int] < dest.len());
            }
            let digit: usize = ((state / weights[source]) % base) as usize;
            let mapped_digit: usize = self.local_permutations[source][digit];
            let destination: usize = self.destinations[source];
            proof {
                let w = digits::power(k, destination as nat) as int;
                assert(locals[source as int] == self.local_permutations@[source as int]@);
                assert(mapped_digit as int * w >= 0) by (nonlinear_arith)
                    requires
                        mapped_digit >= 0,
                        w >= 0,
                ;
            }
            mapped = mapped + mapped_digit as u128 * weights[destination];
            if fermionic && digit == 1 {
                proof {
                    digits::lemma_power_two(source as nat);
                    assert(occ[source as int]);
                    lemma_landed(dest, occ, source as nat);
                    lemma_landed(dest, occ, (source + 1) as nat);
                    assert(beyond(dest, occ, source as nat, destination as nat) == bits::ones(
                        occupied_destinations as nat / pow2((destination + 1) as nat),
                    ));
                    bits::lemma_pow2_128();
                    if dest.len() < 128 {
                        lemma_pow2_strictly_increases(dest.len(), 128);
                    }
                    bits::lemma_shl_one(destination as u32);
                }
                let after: u32 = if destination == 127 {
                    proof {
                        lemma_basic_div(occupied_destinations as int, pow2(128) as int);
                    }
                    0
                } else {
                    proof {
                        bits::lemma_shl_one((destination + 1) as u32);
                        lemma_pow2_pos((destination + 1) as nat);
                    }
                    (occupied_destinations / (1u128 << (destination + 1))).count_ones()
                };
                odd = odd != (after % 2 == 1);
                occupied_destinations = occupied_destinations + (1u128 << destination);
            } else {
                proof {
                    if fermionic {
                        digits::lemma_power_two(source as nat);
                        assert(!occ[source as int]);
                    }
                }
            }
            source += 1;
        }
        Ok((mapped, odd))
    }

    /// Image of a binary state of a fixed width, and whether its sign turns.
    pub(crate) fn mapped_wide<const WORDS: usize>(&self, state: WideState<WORDS>) -> (result:
        Result<(WideState<WORDS>, bool)>)
        requires
            self.wf(),
            WORDS * 64 <= usize::MAX,
        ensures
            match result {
                Ok((mapped, odd)) => {
                    &&& self.spec_states_per_site() == 2
                    &&& self.spec_sites() <= WORDS * 64
                    &&& state.value() < pow2(self.spec_sites())
                    &&& mapped.value() == self.image(state.value())
                    &&& odd == self.turns_sign(state.value())
                },
                Err(error) => if self.spec_states_per_site() != 2 || self.spec_sites() > WORDS
                    * 64 {
                    error == QmbedError::UnsupportedBackend(
                        Reason::Text("wide lattice symmetries currently require a binary fixed-width state"),
                    )
                } else {
                    &&& state.value() >= pow2(self.spec_sites())
                    &&& error == QmbedError::StateNotInBasis
                },
            },
    {
        proof {
            self.lemma_parts();
        }
        let sites: usize = self.destinations.len();
        if self.states_per_site != 2 || sites > WideState::<WORDS>::capacity_bits() {
            return Err(
                QmbedError::UnsupportedBackend(
                    Reason::Text("wide lattice symmetries currently require a binary fixed-width state"),
                ),
            );
        }
        if state.has_bits_at_or_above(sites) {
            return Err(QmbedError::StateNotInBasis);
        }
        let fermionic: bool = self.statistics == ExchangeStatistics::Fermionic;
        let ghost dest = self.destinations@;
        let ghost locals = rows(self.local_permutations@);
        let ghost number = state.value();
        let ghost occ = occupancy(number, dest.len());
        let mut mapped: WideState<WORDS> = WideState::<WORDS>::zero();
        let mut occupied_destinations: WideState<WORDS> = WideState::<WORDS>::zero();
        let mut odd: bool = false;
        let mut source: usize = 0;
        while source < sites
            invariant
                source <= sites,
                sites == dest.len(),
                sites <= WORDS * 64,
                WORDS * 64 <= usize::MAX,
                dest == self.destinations@,
                locals == rows(self.local_permutations@),
                permutation::is_permutation(dest),
                locals_permute(locals, dest.len(), 2),
                number == state.value(),
                occ == occupancy(number, dest.len()),
                mapped.value() == placed(dest, locals, 2, number, source as nat),
                fermionic ==> occupied_destinations.value() == landed(dest, occ, source as nat),
                fermionic ==> odd == (inversions(dest, occ, source as nat) % 2 == 1),
                !fermionic ==> !odd,
            decreases sites - source,
        {
            let occupied: bool = match state.bit(source) {
                Ok(set) => set,
                Err(error) => {
                    return Err(error);
                },
            };
            let digit: usize = if occupied {
                1
            } else {
                0
            };
            proof {
                digits::lemma_power_two(source as nat);
                assert(digits::digit(number, 2, source as nat) == digit);
                assert(locals[source as int].len() == 2);
                assert(locals[source as int] == self.local_permutations@[source as int]@);
                assert(dest[source as int] < dest.len());
            }
            let mapped_digit: usize = self.local_permutations[source][digit];
            let destination: usize = self.destinations[source];
            proof {
                lemma_placed(dest, locals, 2, number, source as nat);
                digits::lemma_power_two(destination as nat);
                assert(mapped_digit < 2);
                lemma_mul_basics(pow2(destination as nat) as int);
                assert(!bits::bit_at(mapped.value(), destination as nat));
            }
            mapped = match mapped.with_bit(destination, mapped_digit != 0) {
                Ok(changed) => changed,
                Err(error) => {
                    return Err(error);
                },
            };
            if fermionic && occupied {
                proof {
                    assert(occ[source as int]);
                    lemma_landed(dest, occ, source as nat);
                    assert(beyond(dest, occ, source as nat, destination as nat) == bits::ones(
                        occupied_destinations.value() / pow2((destination + 1) as nat),
                    ));
                    assert(!bits::bit_at(occupied_destinations.value(), destination as nat));
                }
                odd = odd != (occupied_destinations.count_ones_after(destination) % 2 == 1);
                occupied_destinations = match occupied_destinations.with_bit(destination, true) {
                    Ok(changed) => changed,
                    Err(error) => {
                        return Err(error);
                    },
                };
            } else {
                proof {
                    if fermionic {
                        assert(!occ[source as int]);
                    }
                }
            }
            source += 1;
        }
        Ok((mapped, odd))
    }

    /// The state after some applications of the map.
    pub open spec fn image_after(&self, state: nat, steps: nat) -> nat
        decreases steps,
    {
        if steps == 0 {
            state
        } else {
            self.image(self.image_after(state, (steps - 1) as nat))
        }
    }

    /// A digit travels with its pair.
    proof fn lemma_digit_travels(&self, state: nat, site: nat, steps: nat)
        requires
            self.wf(),
            site < self.spec_sites(),
            state < digits::power(self.spec_states_per_site(), self.spec_sites()),
        ensures
            self.image_after(state, steps) < digits::power(
                self.spec_states_per_site(),
                self.spec_sites(),
            ),
            ({
                let base = self.spec_states_per_site();
                let list = combined(self.spec_destinations(), self.spec_locals(), base);
                let start = site * base + digits::digit(state, base, site);
                let pair = permutation::iterate(list, start as int, steps);
                &&& 0 <= pair < self.spec_sites() * base
                &&& digits::digit(
                    self.image_after(state, steps),
                    base,
                    (pair / (base as int)) as nat,
                ) == pair % (base as int)
            }),
        decreases steps,
    {
        self.lemma_parts();
        let base = self.spec_states_per_site();
        let k = base as int;
        let dest = self.spec_destinations();
        let locals = self.spec_locals();
        let list = combined(dest, locals, base);
        let digit = digits::digit(state, base, site);
        let start = (site * base + digit) as int;
        digits::lemma_power_positive(base, site);
        lemma_mod_bound((state / digits::power(base, site)) as int, k);
        lemma_pair(site as int, digit as int, k);
        assert(0 <= start < self.spec_sites() * base) by (nonlinear_arith)
            requires
                start == site * base + digit,
                digit < base,
                site + 1 <= self.spec_sites(),
        ;
        if steps > 0 {
            let before = (steps - 1) as nat;
            let whole = self.image_after(state, before);
            self.lemma_digit_travels(state, site, before);
            lemma_combined(dest, locals, base);
            let pair = permutation::iterate(list, start, before);
            lemma_pair_parts(pair, self.spec_sites(), base);
            lemma_placed(dest, locals, base, whole, self.spec_sites());
            let s = pair / k;
            let d = pair % k;
            assert(list[pair] == dest[s] * k + locals[s][d]);
            assert(locals[s].len() == base);
            assert(digits::digit(whole, base, s as nat) == d);
            assert(dest[s] < dest.len());
            assert(list[pair] < list.len());
            lemma_pair(dest[s] as int, locals[s][d] as int, k);
        }
    }

    /// A symmetry closes: after as many applications as its period every state
    /// of the lattice is back.
    pub proof fn law_closes_at_period(&self, state: nat)
        requires
            self.wf(),
            state < digits::power(self.spec_states_per_site(), self.spec_sites()),
        ensures
            self.image_after(state, self.spec_period() as nat) == state,
    {
        self.lemma_parts();
        let base = self.spec_states_per_site();
        let sites = self.spec_sites();
        let period = self.spec_period() as nat;
        let list = combined(self.spec_destinations(), self.spec_locals(), base);
        let whole = self.image_after(state, period);
        lemma_mod_self_0(period as int);
        assert(permutation::closes(list, period));
        self.lemma_digit_travels(state, 0, period);
        assert forall|site: nat| site < sites implies #[trigger] digits::digit(whole, base, site)
            == digits::digit(state, base, site) by {
            self.lemma_digit_travels(state, site, period);
            let digit = digits::digit(state, base, site);
            digits::lemma_power_positive(base, site);
            lemma_mod_bound((state / digits::power(base, site)) as int, base as int);
            lemma_pair(site as int, digit as int, base as int);
            let start = (site * base + digit) as int;
            assert(0 <= start < sites * base) by (nonlinear_arith)
                requires
                    start == site * base + digit,
                    digit < base,
                    site + 1 <= sites,
            ;
            assert(permutation::iterate(list, start, period) == start);
        }
        lattice::lemma_digits_identify(whole, state, sites, base);
    }

    /// A symmetry keeps states apart: different states have different images.
    pub proof fn law_images_differ(&self, left: nat, right: nat)
        requires
            self.wf(),
            left < digits::power(self.spec_states_per_site(), self.spec_sites()),
            right < digits::power(self.spec_states_per_site(), self.spec_sites()),
            self.image(left) == self.image(right),
        ensures
            left == right,
    {
        self.lemma_parts();
        let base = self.spec_states_per_site();
        let dest = self.spec_destinations();
        let locals = self.spec_locals();
        lemma_placed(dest, locals, base, left, self.spec_sites());
        lemma_placed(dest, locals, base, right, self.spec_sites());
        assert forall|site: nat| site < self.spec_sites() implies #[trigger] digits::digit(
            left,
            base,
            site,
        ) == digits::digit(right, base, site) by {
            digits::lemma_power_positive(base, site);
            lemma_mod_bound((left / digits::power(base, site)) as int, base as int);
            lemma_mod_bound((right / digits::power(base, site)) as int, base as int);
            assert(dest[site as int] < dest.len());
            assert(locals[site as int].len() == base);
            assert(locals[site as int][digits::digit(left, base, site) as int]
                == locals[site as int][digits::digit(right, base, site) as int]);
        }
        lattice::lemma_digits_identify(left, right, self.spec_sites(), base);
    }
}

} // verus!

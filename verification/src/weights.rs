//! Enumeration and ranking of packed words with a fixed number of ones.

use vstd::arithmetic::div_mod::*;
use vstd::arithmetic::mul::*;
use vstd::arithmetic::power2::*;
use vstd::prelude::*;

use crate::bits;
use crate::combinatorics;
use crate::combinatorics::binomial;
use crate::error::{QmbedError, Reason, Result};
use crate::ordered;
use crate::ordered::Ranked;
use crate::symbols;

verus! {

/// Whether the elements ascend without repetition.
pub open spec fn ascending(states: Seq<u128>) -> bool {
    forall|i: int, j: int| 0 <= i < j < states.len() ==> states[i] < states[j]
}

/// Words of `sites` binary digits.
pub open spec fn fits_sites(state: u128, sites: nat) -> bool {
    state < pow2(sites)
}

/// A word made of a run of `m` ones at `t`, a zero above it and `h` above that.
spec fn with_run(h: nat, t: nat, m: nat) -> nat {
    h * pow2(t + m + 1) + (pow2(m) - 1) as nat * pow2(t)
}

/// The word of the same weight that follows [`with_run`].
spec fn after_run(h: nat, t: nat, m: nat) -> nat
    recommends
        m > 0,
{
    (2 * h + 1) * pow2(t + m) + (pow2((m - 1) as nat) - 1) as nat
}

proof fn lemma_with_run(h: nat, t: nat, m: nat)
    requires
        m > 0,
    ensures
        with_run(h, t, m) + pow2(t) == (2 * h + 1) * pow2(t + m),
        bits::ones(with_run(h, t, m)) == bits::ones(h) + m,
        bits::ones(after_run(h, t, m)) == bits::ones(h) + m,
        combinatorics::weight_rank(after_run(h, t, m)) == combinatorics::weight_rank(
            with_run(h, t, m),
        ) + 1,
        with_run(h, t, m) < after_run(h, t, m),
        with_run(h, t, m) > 0,
{
    let s = t + m;
    let run = (pow2(m) - 1) as nat;
    let low = run * pow2(t);
    let d = (m - 1) as nat;
    let rest = (pow2(d) - 1) as nat;
    lemma2_to64();
    lemma_pow2_pos(t);
    lemma_pow2_pos(m);
    lemma_pow2_pos(d);
    lemma_pow2_pos(s);
    lemma_pow2_unfold(s + 1);
    lemma_pow2_unfold(m);
    lemma_pow2_adds(t, m);
    assert(low == pow2(s) - pow2(t) && low > 0) by (nonlinear_arith)
        requires
            low == run * pow2(t),
            run == pow2(m) - 1,
            pow2(m) >= 2,
            pow2(t) > 0,
            pow2(s) == pow2(t) * pow2(m),
    ;
    assert((2 * h + 1) * pow2(s) == h * pow2(s + 1) + pow2(s)) by (nonlinear_arith)
        requires
            pow2(s + 1) == 2 * pow2(s),
    ;
    lemma_mul_nonnegative(h as int, pow2(s + 1) as int);
    bits::lemma_ones_split(h, low, s + 1);
    bits::lemma_ones_split(run, 0, t);
    bits::lemma_ones_bound(run, m);
    if d < s {
        lemma_pow2_strictly_increases(d, s);
    }
    bits::lemma_ones_split(2 * h + 1, rest, s);
    bits::lemma_ones_bound(rest, d);
    assert(bits::ones(2 * h + 1) == 1 + bits::ones(h));
    combinatorics::lemma_colex_split(h, low, s + 1, 0, 1);
    combinatorics::lemma_colex_split(run, 0, t, 0, 1);
    combinatorics::lemma_colex_run(m, t);
    combinatorics::lemma_colex_split(2 * h + 1, rest, s, 0, 1);
    combinatorics::lemma_colex_bottom(d);
    assert(combinatorics::colex(2 * h + 1, s, 1 + d) == combinatorics::combinations(s, m)
        + combinatorics::colex(h, s + 1, m + 1));
    combinatorics::lemma_combinations_edges(s, m);
}

/// No word strictly between the two has the same weight.
proof fn lemma_run_gap(h: nat, t: nat, m: nat, z: nat)
    requires
        m > 0,
        with_run(h, t, m) < z < after_run(h, t, m),
    ensures
        bits::ones(z) != bits::ones(h) + m,
{
    let s = t + m;
    let d = (m - 1) as nat;
    lemma_with_run(h, t, m);
    lemma_pow2_pos(t);
    lemma_pow2_pos(m);
    if z < (2 * h + 1) * pow2(s) {
        let run = (pow2(m) - 1) as nat;
        let top = h * pow2(m + 1) + run;
        lemma_pow2_adds(t, m + 1);
        assert(with_run(h, t, m) == top * pow2(t)) by (nonlinear_arith)
            requires
                with_run(h, t, m) == h * pow2(t + (m + 1)) + run * pow2(t),
                pow2(t + (m + 1)) == pow2(t) * pow2(m + 1),
                top == h * pow2(m + 1) + run,
        ;
        lemma_mod_multiples_basic(top as int, pow2(t) as int);
        bits::lemma_ones_above(with_run(h, t, m), t, z);
    } else {
        let r = (z - (2 * h + 1) * pow2(s)) as nat;
        lemma_pow2_pos(d);
        if d < s {
            lemma_pow2_strictly_increases(d, s);
        }
        bits::lemma_ones_bound(r, d);
        bits::lemma_ones_split(2 * h + 1, r, s);
        assert(bits::ones(2 * h + 1) == 1 + bits::ones(h));
    }
}

/// Every positive word is a run of ones with a zero above it.
proof fn lemma_run_from_ripple(x: nat, t: nat, s: nat) -> (h: nat)
    requires
        t < s,
        x > 0,
        (x + pow2(t)) % pow2(s) == 0,
        ((x + pow2(t)) / pow2(s)) % 2 == 1,
    ensures
        x == with_run(h, t, (s - t) as nat),
{
    let m = (s - t) as nat;
    let q = (x + pow2(t)) / pow2(s);
    lemma_pow2_pos(s);
    lemma_fundamental_div_mod((x + pow2(t)) as int, pow2(s) as int);
    let h = (q - 1) as nat / 2;
    assert(q == 2 * h + 1);
    lemma_with_run(h, t, m);
    assert(pow2(s) * q == q * pow2(s)) by {
        lemma_mul_is_commutative(pow2(s) as int, q as int);
    }
    h
}

/// The smallest larger word with the same number of ones.
pub fn next_same_weight(state: u128) -> (next: Option<u128>)
    requires
        state != 0,
    ensures
        match next {
            Some(next) => {
                &&& state < next
                &&& bits::ones(next as nat) == bits::ones(state as nat)
                &&& combinatorics::weight_rank(next as nat) == combinatorics::weight_rank(
                    state as nat,
                ) + 1
                &&& forall|z: u128|
                    state < z < next ==> #[trigger] bits::ones(z as nat) != bits::ones(state as nat)
            },
            None => forall|z: u128|
                state < z ==> #[trigger] bits::ones(z as nat) != bits::ones(state as nat),
        },
{
    proof {
        assert(!state < u128::MAX) by (bit_vector)
            requires
                state != 0,
        ;
    }
    let low_bit: u128 = state & (!state + 1);
    proof {
        assert(low_bit != 0 && low_bit & ((low_bit - 1) as u128) == 0 && state & ((low_bit
            - 1) as u128) == 0) by (bit_vector)
            requires
                state != 0,
                low_bit == state & ((!state + 1) as u128),
        ;
        bits::lemma_single_bit(low_bit);
    }
    let ghost t: nat = choose|e: nat| e < 128 && #[trigger] pow2(e) == low_bit;
    proof {
        bits::lemma_low_bits_clear(state, low_bit, t);
    }
    match state.checked_add(low_bit) {
        None => {
            assert forall|z: u128| state < z implies #[trigger] bits::ones(z as nat) != bits::ones(
                state as nat,
            ) by {
                bits::lemma_ones_above(state as nat, t, z as nat);
            }
            None
        },
        Some(ripple) => {
            let ghost carry: u128 = ripple & ((!ripple + 1) as u128);
            proof {
                assert((ripple ^ state) == carry + (carry - low_bit) && ripple & ((carry
                    - 1) as u128) == 0 && carry & ((carry - 1) as u128) == 0 && carry > low_bit
                    && ripple & carry != 0) by (bit_vector)
                    requires
                        state != 0,
                        low_bit == state & ((!state + 1) as u128),
                        ripple == state + low_bit,
                        carry == ripple & ((!ripple + 1) as u128),
                ;
                bits::lemma_single_bit(carry);
            }
            let ghost s: nat = choose|e: nat| e < 128 && #[trigger] pow2(e) == carry;
            let ghost m: nat = (s - t) as nat;
            proof {
                if s <= t {
                    if s < t {
                        lemma_pow2_strictly_increases(s, t);
                    }
                    assert(false);
                }
                bits::lemma_low_bits_clear(ripple, carry, s);
                bits::lemma_mask_selects(ripple, carry, s);
            }
            let ghost h: nat = lemma_run_from_ripple(state as nat, t, s);
            let spread: u128 = ripple ^ state;
            let tail: u128 = (spread >> 2) / low_bit;
            proof {
                lemma_with_run(h, t, m);
                let d = (m - 1) as nat;
                assert(spread >> 2 == spread / 4) by (bit_vector);
                lemma_pow2_unfold(m);
                lemma_pow2_pos(d);
                lemma_pow2_adds(t, m);
                let p = low_bit as int;
                assert(spread == p * (2 * pow2(m) - 1)) by (nonlinear_arith)
                    requires
                        spread == carry + (carry - low_bit),
                        carry == p * pow2(m),
                        low_bit == p,
                ;
                lemma_div_denominator(spread as int, 4, p);
                lemma_div_denominator(spread as int, p, 4);
                assert(4 * p == p * 4) by {
                    lemma_mul_is_commutative(4, p);
                }
                let odd = (2 * pow2(m) - 1) as int;
                lemma_div_multiples_vanish(odd, p);
                assert(tail == odd / 4);
                assert(tail == pow2(d) - 1);
                lemma_pow2_strictly_increases(d, s);
                let together = tail | ripple;
                assert(together == tail + ripple) by (bit_vector)
                    requires
                        ripple & ((carry - 1) as u128) == 0,
                        carry & ((carry - 1) as u128) == 0,
                        carry > 0,
                        tail < carry,
                        together == tail | ripple,
                ;
                assert(together == after_run(h, t, m));
                assert forall|z: u128| state < z < together implies #[trigger] bits::ones(z as nat)
                    != bits::ones(state as nat) by {
                    lemma_run_gap(h, t, m, z as nat);
                }
            }
            Some(tail | ripple)
        },
    }
}

/// Words of `sites` digits, of weight `particles` where a weight is given.
pub open spec fn in_weight_sector(state: u128, sites: nat, particles: Option<usize>) -> bool {
    &&& fits_sites(state, sites)
    &&& particles matches Some(count) ==> bits::ones(state as nat) == count
}

/// The ascending list of exactly the words of a weight sector.
pub open spec fn lists_weight_sector(
    states: Seq<u128>,
    sites: nat,
    particles: Option<usize>,
) -> bool {
    &&& ascending(states)
    &&& forall|state: u128|
        #[trigger] states.contains(state) <==> in_weight_sector(state, sites, particles)
}

/// The refusal of a weight sector, if it is refused.
pub open spec fn weight_sector_error(sites: usize, particles: Option<usize>) -> Option<QmbedError> {
    if sites > 128 {
        Some(
            QmbedError::UnsupportedBackend(
                Reason::Text("the initial u128 state backend supports at most 128 orbitals"),
            ),
        )
    } else if particles is Some && particles->0 > sites {
        Some(QmbedError::InvalidSector(Reason::Text("particle count exceeds site count")))
    } else if particles is None && sites == 128 {
        Some(
            QmbedError::UnsupportedBackend(
                Reason::Text("enumerating the unconstrained 128-site Hilbert space is infeasible"),
            ),
        )
    } else {
        None
    }
}

/// Words that ascend and hold every rank below `count` are a list of `count`.
proof fn lemma_sector_length(states: Seq<u128>, sites: nat, particles: usize)
    requires
        sites <= 128,
        particles <= sites,
        lists_weight_sector(states, sites, Some(particles)),
        forall|i: int|
            0 <= i < states.len() ==> combinatorics::weight_rank(#[trigger] states[i] as nat) == i,
    ensures
        states.len() == combinatorics::combinations(sites, particles as nat),
{
    let k = particles as nat;
    combinatorics::lemma_rank_top(sites, k);
    bits::lemma_pow2_128();
    if sites < 128 {
        lemma_pow2_strictly_increases(sites, 128);
    }
    lemma_pow2_pos(k);
    lemma_mul_nonnegative(pow2(k) - 1, pow2((sites - k) as nat) as int);
    let top = ((pow2(k) - 1) * pow2((sites - k) as nat)) as u128;
    assert(states.contains(top));
    let i = choose|i: int| 0 <= i < states.len() && states[i] == top;
    let last = states.len() - 1;
    assert(states.contains(states[last]));
    combinatorics::lemma_rank_bound(states[last] as nat, sites);
}

/// Lists the packed words of `sites` digits, of weight `particles` where given.
///
/// A weight sector is walked word by word, so the work follows the size of the
/// sector and not the size of the whole space.
pub fn fixed_weight_states(sites: usize, particles: Option<usize>) -> (result: Result<Vec<u128>>)
    ensures
        match result {
            Ok(states) => {
                &&& weight_sector_error(sites, particles) is None
                &&& lists_weight_sector(states@, sites as nat, particles)
                &&& particles matches Some(count) ==> {
                    &&& states@.len() == combinatorics::combinations(sites as nat, count as nat)
                    &&& forall|i: int|
                        0 <= i < states@.len() ==> combinatorics::weight_rank(
                            #[trigger] states@[i] as nat,
                        ) == i
                }
                &&& particles is None ==> {
                    &&& states@.len() == pow2(sites as nat)
                    &&& forall|i: int| 0 <= i < states@.len() ==> #[trigger] states@[i] == i
                }
            },
            Err(error) => weight_sector_error(sites, particles) == Some(error),
        },
{
    if sites > 128 {
        return Err(
            QmbedError::UnsupportedBackend(
                Reason::Text("the initial u128 state backend supports at most 128 orbitals"),
            ),
        );
    }
    let count: usize = match particles {
        Some(count) => count,
        None => {
            return unconstrained_states(sites);
        },
    };
    if count > sites {
        return Err(QmbedError::InvalidSector(Reason::Text("particle count exceeds site count")));
    }
    let ghost n = sites as nat;
    let ghost k = count as nat;
    proof {
        lemma2_to64();
        bits::lemma_pow2_128();
        lemma_pow2_pos(k);
        combinatorics::lemma_colex_bottom(k);
        if k < n {
            lemma_pow2_strictly_increases(k, n);
        }
        if n < 128 {
            lemma_pow2_strictly_increases(n, 128);
            bits::lemma_shl_one(sites as u32);
        }
        if k < 128 {
            lemma_pow2_strictly_increases(k, 128);
            bits::lemma_shl_one(count as u32);
        }
        bits::lemma_ones_bound((pow2(k) - 1) as nat, k);
    }
    let first: u128 = if count == 128 {
        u128::MAX
    } else {
        (1u128 << count) - 1
    };
    let mut states: Vec<u128> = Vec::new();
    states.push(first);
    if count == 0 || count == sites {
        proof {
            assert forall|state: u128| #[trigger] states@.contains(state) <==> in_weight_sector(
                state,
                n,
                particles,
            ) by {
                if in_weight_sector(state, n, particles) {
                    bits::lemma_ones_positive(state as nat);
                    bits::lemma_ones_bound(state as nat, n);
                    assert(states@[0] == state);
                }
                if states@.contains(state) {
                    assert(state == first);
                }
            }
            lemma_sector_length(states@, n, count);
        }
        return Ok(states);
    }
    let mut state: u128 = first;
    proof {
        assert forall|z: u128| #[trigger] states@.contains(z) <==> z <= state && bits::ones(
            z as nat,
        ) == k by {
            if z <= state && bits::ones(z as nat) == k {
                bits::lemma_ones_bound(z as nat, k);
                assert(states@[0] == z);
            }
        }
    }
    loop
        invariant
            0 < count < sites <= 128,
            n == sites,
            k == count,
            sites < 128 ==> (1u128 << sites) == pow2(n),
            sites == 128 ==> pow2(n) == u128::MAX + 1,
            states@.len() > 0,
            states@.last() == state,
            state < pow2(n),
            bits::ones(state as nat) == k,
            ascending(states@),
            forall|z: u128|
                #[trigger] states@.contains(z) <==> z <= state && bits::ones(z as nat) == k,
            forall|i: int|
                0 <= i < states@.len() ==> combinatorics::weight_rank(#[trigger] states@[i] as nat)
                    == i,
        ensures
            ascending(states@),
            forall|z: u128|
                #[trigger] states@.contains(z) <==> z < pow2(n) && bits::ones(z as nat) == k,
            forall|i: int|
                0 <= i < states@.len() ==> combinatorics::weight_rank(#[trigger] states@[i] as nat)
                    == i,
        decreases u128::MAX - state,
    {
        proof {
            bits::lemma_ones_positive(state as nat);
        }
        let next: u128 = match next_same_weight(state) {
            Some(next) => next,
            None => {
                break ;
            },
        };
        if sites < 128 && next >= (1u128 << sites) {
            break ;
        }
        let ghost before = states@;
        states.push(next);
        proof {
            assert forall|z: u128| #[trigger] states@.contains(z) <==> z <= next && bits::ones(
                z as nat,
            ) == k by {
                if states@.contains(z) {
                    let i = choose|i: int| 0 <= i < states@.len() && states@[i] == z;
                    if i < before.len() {
                        assert(before[i] == z);
                        assert(before.contains(z));
                    }
                }
                if z <= next && bits::ones(z as nat) == k {
                    if z <= state {
                        assert(before.contains(z));
                        let i = choose|i: int| 0 <= i < before.len() && before[i] == z;
                        assert(states@[i] == z);
                    } else {
                        assert(z == next);
                        assert(states@[before.len() as int] == z);
                    }
                }
            }
            assert forall|i: int, j: int| 0 <= i < j < states@.len() implies states@[i]
                < states@[j] by {
                if j == before.len() {
                    assert(before.contains(before[i]));
                }
            }
        }
        state = next;
    }
    proof {
        lemma_sector_length(states@, n, count);
    }
    Ok(states)
}

/// The whole space of `sites` binary digits.
fn unconstrained_states(sites: usize) -> (result: Result<Vec<u128>>)
    requires
        sites <= 128,
    ensures
        match result {
            Ok(states) => {
                &&& sites < 128
                &&& states@.len() == pow2(sites as nat)
                &&& forall|i: int| 0 <= i < states@.len() ==> #[trigger] states@[i] == i
                &&& lists_weight_sector(states@, sites as nat, None)
            },
            Err(error) => weight_sector_error(sites, None) == Some(error),
        },
{
    if sites == 128 {
        return Err(
            QmbedError::UnsupportedBackend(
                Reason::Text("enumerating the unconstrained 128-site Hilbert space is infeasible"),
            ),
        );
    }
    proof {
        bits::lemma_shl_one(sites as u32);
    }
    let limit: u128 = 1u128 << sites;
    let mut states: Vec<u128> = Vec::new();
    let mut state: u128 = 0;
    while state < limit
        invariant
            state <= limit,
            states@.len() == state,
            forall|i: int| 0 <= i < states@.len() ==> #[trigger] states@[i] == i,
        decreases limit - state,
    {
        states.push(state);
        state += 1;
    }
    proof {
        assert forall|z: u128| #[trigger] states@.contains(z) <==> in_weight_sector(
            z,
            sites as nat,
            None,
        ) by {
            if z < limit {
                assert(states@[z as int] == z);
            }
        }
    }
    Ok(states)
}

/// Place of a word among the words of its weight, in ascending order; the largest word of the
/// machine where the place does not fit one.
pub fn fixed_weight_state_index(state: u128, sites: usize, particles: usize) -> (result: Result<
    usize,
>)
    ensures
        match result {
            Ok(rank) => {
                &&& particles <= sites
                &&& in_weight_sector(state, sites as nat, Some(particles))
                &&& rank == combinatorics::capped(combinatorics::weight_rank(state as nat))
            },
            Err(error) => {
                &&& error == QmbedError::StateNotInBasis
                &&& particles > sites || !in_weight_sector(state, sites as nat, Some(particles))
            },
        },
{
    proof {
        if sites < 128 {
            bits::lemma_shl_one(sites as u32);
        } else {
            bits::lemma_pow2_128();
            if sites > 128 {
                lemma_pow2_strictly_increases(128, sites as nat);
            }
        }
    }
    if particles > sites || state.count_ones() as usize != particles || (sites < 128 && state >= (
    1u128 << sites)) {
        return Err(QmbedError::StateNotInBasis);
    }
    let mut rank: usize = 0;
    let mut ordinal: usize = 1;
    let mut position: usize = 0;
    let mut remaining: u128 = state;
    let ghost mut counted: nat = 0;
    proof {
        bits::lemma_pow2_128();
    }
    while remaining != 0
        invariant
            rank == combinatorics::capped(counted),
            counted + combinatorics::colex(remaining as nat, position as nat, ordinal as nat)
                == combinatorics::weight_rank(state as nat),
            position <= 128,
            ordinal <= position + 1,
            remaining < pow2((128 - position) as nat),
        decreases remaining,
    {
        proof {
            lemma2_to64();
            assert(position < 128);
            lemma_pow2_unfold((128 - position) as nat);
        }
        if remaining % 2 == 1 {
            if position >= ordinal {
                rank = rank.saturating_add(binomial(position, ordinal));
            }
            proof {
                combinatorics::lemma_combinations_edges(position as nat, ordinal as nat);
                counted = counted + combinatorics::combinations(position as nat, ordinal as nat);
            }
            ordinal += 1;
        }
        remaining = remaining / 2;
        position += 1;
    }
    Ok(rank)
}

/// Words of `sites` digits whose weight is admitted by the selection.
pub open spec fn in_weight_union(
    state: u128,
    sites: nat,
    particles: Option<usize>,
    sectors: Option<Seq<usize>>,
) -> bool {
    fits_sites(state, sites) && symbols::number_admitted(
        particles,
        sectors,
        bits::ones(state as nat) as int,
    )
}

/// The ascending list of exactly the admitted words.
pub open spec fn lists_weight_union(
    states: Seq<u128>,
    sites: nat,
    particles: Option<usize>,
    sectors: Option<Seq<usize>>,
) -> bool {
    &&& ascending(states)
    &&& forall|state: u128|
        #[trigger] states.contains(state) <==> in_weight_union(state, sites, particles, sectors)
}

/// Whether some number of the list exceeds the bound.
pub open spec fn exceeds(list: Seq<usize>, bound: usize) -> bool {
    exists|i: int| 0 <= i < list.len() && #[trigger] list[i] > bound
}

/// The refusal of a selection of weights, if it is refused.
pub open spec fn weight_union_error(
    sites: usize,
    particles: Option<usize>,
    sectors: Option<Seq<usize>>,
) -> Option<QmbedError> {
    match sectors {
        None => weight_sector_error(sites, particles),
        Some(list) => if list.len() == 0 {
            None
        } else if sites > 128 {
            weight_sector_error(sites, Some(0usize))
        } else if exceeds(list, sites) {
            Some(QmbedError::InvalidSector(Reason::Text("particle count exceeds site count")))
        } else {
            None
        },
    }
}

/// Words whose weight is among the first `count` numbers of the list.
spec fn in_listed_weights(state: u128, sites: nat, list: Seq<usize>, count: int) -> bool {
    fits_sites(state, sites) && symbols::lists_number(
        list.take(count),
        bits::ones(state as nat) as int,
    )
}

/// Lists the packed words whose weight is one of the selected ones.
pub fn fixed_weight_sector_states(
    sites: usize,
    particles: Option<usize>,
    particle_sectors: Option<&Vec<usize>>,
) -> (result: Result<Vec<u128>>)
    requires
        particle_sectors matches Some(list) ==> ordered::strictly_sorted(list@),
    ensures
        match result {
            Ok(states) => {
                let sectors = symbols::optional_seq(particle_sectors);
                &&& weight_union_error(sites, particles, sectors) is None
                &&& particle_sectors is Some ==> lists_weight_union(
                    states@,
                    sites as nat,
                    particles,
                    sectors,
                )
                &&& particle_sectors is None ==> {
                    &&& lists_weight_union(states@, sites as nat, particles, None)
                    &&& lists_weight_sector(states@, sites as nat, particles)
                    &&& particles matches Some(count) ==> {
                        &&& states@.len() == combinatorics::combinations(sites as nat, count as nat)
                        &&& forall|i: int|
                            0 <= i < states@.len() ==> combinatorics::weight_rank(
                                #[trigger] states@[i] as nat,
                            ) == i
                    }
                    &&& particles is None ==> forall|i: int|
                        0 <= i < states@.len() ==> #[trigger] states@[i] == i
                }
            },
            Err(error) => weight_union_error(
                sites,
                particles,
                symbols::optional_seq(particle_sectors),
            ) == Some(error),
        },
{
    let sectors: &Vec<usize> = match particle_sectors {
        Some(sectors) => sectors,
        None => {
            return match fixed_weight_states(sites, particles) {
                Ok(states) => {
                    assert forall|state: u128| #[trigger] states@.contains(state)
                        <==> in_weight_union(state, sites as nat, particles, None) by {
                        assert(states@.contains(state) <==> in_weight_sector(
                            state,
                            sites as nat,
                            particles,
                        ));
                    }
                    Ok(states)
                },
                Err(error) => Err(error),
            };
        },
    };
    let mut states: Vec<u128> = Vec::new();
    let mut next: usize = 0;
    while next < sectors.len()
        invariant
            next <= sectors@.len(),
            next > 0 ==> sites <= 128,
            forall|i: int| 0 <= i < next ==> #[trigger] sectors@[i] <= sites,
            forall|state: u128| #[trigger]
                states@.contains(state) <==> in_listed_weights(
                    state,
                    sites as nat,
                    sectors@,
                    next as int,
                ),
            particle_sectors == Some(sectors),
        decreases sectors@.len() - next,
    {
        let sector: usize = sectors[next];
        let mut listed: Vec<u128> = match fixed_weight_states(sites, Some(sector)) {
            Ok(listed) => listed,
            Err(error) => {
                proof {
                    if sites <= 128 {
                        assert(sectors@[next as int] > sites);
                        assert(exceeds(sectors@, sites));
                    }
                }
                return Err(error);
            },
        };
        let ghost before = states@;
        let ghost added = listed@;
        states.append(&mut listed);
        proof {
            let seen = sectors@.take(next as int);
            let wider = sectors@.take(next + 1);
            assert forall|state: u128| #[trigger] states@.contains(state) <==> in_listed_weights(
                state,
                sites as nat,
                sectors@,
                next + 1,
            ) by {
                vstd::seq_lib::lemma_seq_concat_contains_all_elements(before, added, state);
                assert(states@ =~= before + added);
                let weight = bits::ones(state as nat) as int;
                if symbols::lists_number(seen, weight) {
                    let i = choose|i: int| 0 <= i < seen.len() && #[trigger] seen[i] == weight;
                    assert(wider[i] == weight);
                }
                if weight == sector {
                    assert(wider[next as int] == weight);
                }
                if symbols::lists_number(wider, weight) && weight != sector {
                    let i = choose|i: int| 0 <= i < wider.len() && #[trigger] wider[i] == weight;
                    assert(seen[i] == weight);
                }
                assert(added.contains(state) <==> in_weight_sector(
                    state,
                    sites as nat,
                    Some(sector),
                ));
                assert(before.contains(state) <==> in_listed_weights(
                    state,
                    sites as nat,
                    sectors@,
                    next as int,
                ));
            }
        }
        next += 1;
    }
    let result: Vec<u128> = ordered::sort_dedup(&states);
    proof {
        assert(sectors@.take(next as int) =~= sectors@);
        assert forall|state: u128| #[trigger] result@.contains(state) <==> in_weight_union(
            state,
            sites as nat,
            particles,
            Some(sectors@),
        ) by {
            assert(states@.contains(state) <==> in_listed_weights(
                state,
                sites as nat,
                sectors@,
                next as int,
            ));
        }
        assert forall|i: int, j: int| 0 <= i < j < result@.len() implies result@[i]
            < result@[j] by {
            assert(result@[i].rank() < result@[j].rank());
        }
        assert(!exceeds(sectors@, sites));
    }
    Ok(result)
}

/// What a search for a state in a list returns.
pub open spec fn index_found(states: Seq<u128>, state: u128, result: Result<usize>) -> bool {
    match result {
        Ok(index) => index < states.len() && states[index as int] == state,
        Err(error) => error == QmbedError::StateNotInBasis && !states.contains(state),
    }
}

/// Finds a state in an ascending list.
pub fn state_index(states: &Vec<u128>, state: u128) -> (result: Result<usize>)
    requires
        ascending(states@),
    ensures
        index_found(states@, state, result),
{
    proof {
        assert(ordered::strictly_sorted(states@));
    }
    match ordered::find(states, state) {
        Some(index) => Ok(index),
        None => Err(QmbedError::StateNotInBasis),
    }
}

/// Finds a state in a list in which every state is its own number.
pub fn direct_state_index(states: &Vec<u128>, state: u128) -> (result: Result<usize>)
    requires
        forall|i: int| 0 <= i < states@.len() ==> #[trigger] states@[i] == i,
    ensures
        index_found(states@, state, result),
{
    if state < states.len() as u128 {
        Ok(state as usize)
    } else {
        Err(QmbedError::StateNotInBasis)
    }
}

/// A list of one weight sector in which the ranks count the states.
pub open spec fn ranked_sector(states: Seq<u128>, sites: nat, particles: usize) -> bool {
    &&& sites <= 128
    &&& particles <= sites
    &&& lists_weight_sector(states, sites, Some(particles))
    &&& states.len() == combinatorics::combinations(sites, particles as nat)
    &&& forall|i: int|
        0 <= i < states.len() ==> combinatorics::weight_rank(#[trigger] states[i] as nat) == i
}

/// Finds a state of a weight sector by its rank.
pub fn ranked_state_index(
    states: &Vec<u128>,
    sites: usize,
    particles: usize,
    state: u128,
) -> (result: Result<usize>)
    requires
        ranked_sector(states@, sites as nat, particles),
    ensures
        index_found(states@, state, result),
{
    proof {
        assert(states.len() <= usize::MAX);
        assert(states@.contains(state) <==> in_weight_sector(state, sites as nat, Some(particles)));
        if states@.contains(state) {
            let i = choose|i: int| 0 <= i < states@.len() && states@[i] == state;
            assert(combinatorics::weight_rank(states@[i] as nat) == i);
        }
    }
    fixed_weight_state_index(state, sites, particles)
}

/// Two lists of the same weight sector are the same list.
pub proof fn law_sector_has_one_listing(
    left: Seq<u128>,
    right: Seq<u128>,
    sites: nat,
    particles: Option<usize>,
)
    requires
        lists_weight_sector(left, sites, particles),
        lists_weight_sector(right, sites, particles),
    ensures
        left == right,
{
    assert forall|state: u128| #[trigger] left.contains(state) <==> right.contains(state) by {
        assert(left.contains(state) <==> in_weight_sector(state, sites, particles));
        assert(right.contains(state) <==> in_weight_sector(state, sites, particles));
    }
    assert(ordered::strictly_sorted(left));
    assert(ordered::strictly_sorted(right));
    ordered::lemma_strictly_sorted_unique(left, right);
}

} // verus!

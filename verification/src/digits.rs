//! Mixed-radix words: one digit per site, least significant site first.

use vstd::arithmetic::div_mod::*;
use vstd::arithmetic::mul::*;
use vstd::arithmetic::power::*;
use vstd::prelude::*;

use crate::error::{QmbedError, Reason, Result};
use crate::ordered;
use crate::ordered::Ranked;
use crate::symbols;
use crate::weights;

verus! {

/// `base` to the power `exponent`, a natural number.
pub open spec fn power(base: nat, exponent: nat) -> nat
    decreases exponent,
{
    if exponent == 0 {
        1
    } else {
        base * power(base, (exponent - 1) as nat)
    }
}

/// Digit of `code` at `site`.
pub open spec fn digit(code: nat, base: nat, site: nat) -> nat {
    (code / power(base, site)) % base
}

/// Sum of the lowest `sites` digits.
pub open spec fn digit_sum(code: nat, base: nat, sites: nat) -> nat
    decreases sites,
{
    if sites == 0 {
        0
    } else {
        code % base + digit_sum(code / base, base, (sites - 1) as nat)
    }
}

pub proof fn lemma_power_positive(base: nat, exponent: nat)
    requires
        base > 0,
    ensures
        power(base, exponent) > 0,
    decreases exponent,
{
    if exponent > 0 {
        lemma_power_positive(base, (exponent - 1) as nat);
        lemma_mul_strictly_positive(base as int, power(base, (exponent - 1) as nat) as int);
    }
}

pub proof fn lemma_power_adds(base: nat, left: nat, right: nat)
    ensures
        power(base, left + right) == power(base, left) * power(base, right),
    decreases left,
{
    if left == 0 {
        lemma_mul_basics(power(base, right) as int);
    } else {
        let d = (left - 1) as nat;
        lemma_power_adds(base, d, right);
        lemma_mul_is_associative(base as int, power(base, d) as int, power(base, right) as int);
    }
}

pub proof fn lemma_power_monotone(base: nat, left: nat, right: nat)
    requires
        base > 0,
        left <= right,
    ensures
        power(base, left) <= power(base, right),
{
    lemma_power_adds(base, left, (right - left) as nat);
    lemma_power_positive(base, (right - left) as nat);
    lemma_power_positive(base, left);
    lemma_mul_increases(power(base, (right - left) as nat) as int, power(base, left) as int);
}

pub proof fn lemma_power_two(exponent: nat)
    ensures
        power(2, exponent) == vstd::arithmetic::power2::pow2(exponent),
    decreases exponent,
{
    vstd::arithmetic::power2::lemma2_to64();
    if exponent > 0 {
        lemma_power_two((exponent - 1) as nat);
        vstd::arithmetic::power2::lemma_pow2_unfold(exponent);
    }
}

/// Digit sums are bounded by the capacity of the sites.
pub proof fn lemma_digit_sum_bound(code: nat, base: nat, sites: nat)
    requires
        base > 0,
    ensures
        digit_sum(code, base, sites) <= sites * (base - 1),
    decreases sites,
{
    if sites > 0 {
        lemma_digit_sum_bound(code / base, base, (sites - 1) as nat);
        assert((sites - 1) * (base - 1) + (base - 1) == sites * (base - 1)) by (nonlinear_arith);
    } else {
        lemma_mul_by_zero_is_zero(base - 1);
    }
}

/// The digit sum of a word with one more leading digit.
pub proof fn lemma_digit_sum_lead(lead: nat, low: nat, base: nat, sites: nat)
    requires
        lead < base,
        low < power(base, sites),
    ensures
        digit_sum(lead * power(base, sites) + low, base, sites + 1) == lead + digit_sum(
            low,
            base,
            sites,
        ),
    decreases sites,
{
    if sites == 0 {
        lemma_mul_basics(lead as int);
        lemma_small_mod(lead, base);
        assert(digit_sum(lead / base, base, 0) == 0);
        assert(digit_sum(lead, base, 1) == lead % base + digit_sum(lead / base, base, 0));
    } else {
        let d = (sites - 1) as nat;
        let p = power(base, d);
        let whole = lead * power(base, sites) + low;
        assert(whole == base * (lead * p) + low) by (nonlinear_arith)
            requires
                whole == lead * power(base, sites) + low,
                power(base, sites) == base * p,
        ;
        lemma_fundamental_div_mod(low as int, base as int);
        let q = lead * p + low / base;
        assert(whole == q * base + low % base) by (nonlinear_arith)
            requires
                whole == base * (lead * p) + low,
                low == base * (low / base) + low % base,
                q == lead * p + low / base,
        ;
        lemma_fundamental_div_mod_converse(
            whole as int,
            base as int,
            q as int,
            (low % base) as int,
        );
        assert(low / base < p) by {
            lemma_multiply_divide_lt(low as int, base as int, p as int);
        }
        lemma_digit_sum_lead(lead, low / base, base, d);
    }
}

/// A word split into its leading digit and the rest.
pub proof fn lemma_lead_split(code: nat, base: nat, sites: nat)
    requires
        base > 0,
        code < power(base, sites + 1),
    ensures
        code / power(base, sites) < base,
        code % power(base, sites) < power(base, sites),
        code == (code / power(base, sites)) * power(base, sites) + code % power(base, sites),
{
    let p = power(base, sites) as int;
    lemma_power_positive(base, sites);
    lemma_fundamental_div_mod(code as int, p);
    lemma_mul_is_commutative(p, code as int / p);
    lemma_mod_bound(code as int, p);
    assert(power(base, sites + 1) == base * power(base, sites));
    lemma_mul_is_commutative(base as int, p);
    lemma_multiply_divide_lt(code as int, p, base as int);
}

/// `base` to the power `exponent`, unless it does not fit.
pub fn checked_power(base: u128, exponent: usize) -> (result: Option<u128>)
    requires
        base > 0,
    ensures
        match result {
            Some(value) => value == power(base as nat, exponent as nat),
            None => power(base as nat, exponent as nat) > u128::MAX,
        },
{
    if base == 1 {
        proof {
            lemma_power_one(exponent as nat);
        }
        return Some(1);
    }
    let mut value: u128 = 1;
    let mut done: usize = 0;
    while done < exponent
        invariant
            done <= exponent,
            base > 1,
            value == power(base as nat, done as nat),
        decreases exponent - done,
    {
        proof {
            lemma_power_monotone(base as nat, (done + 1) as nat, exponent as nat);
            lemma_mul_is_commutative(value as int, base as int);
        }
        match value.checked_mul(base) {
            Some(next) => {
                value = next;
            },
            None => {
                return None;
            },
        }
        done += 1;
    }
    Some(value)
}

pub proof fn lemma_power_one(exponent: nat)
    ensures
        power(1, exponent) == 1,
    decreases exponent,
{
    if exponent > 0 {
        lemma_power_one((exponent - 1) as nat);
    }
}

/// Words of `sites` digits, of digit sum `total` where one is given.
pub open spec fn in_digit_sector(
    state: u128,
    sites: nat,
    base: nat,
    total: Option<usize>,
) -> bool {
    &&& state < power(base, sites)
    &&& total matches Some(sum) ==> digit_sum(state as nat, base, sites) == sum
}

/// The ascending list of exactly the words of a digit-sum sector.
pub open spec fn lists_digit_sector(
    states: Seq<u128>,
    sites: nat,
    base: nat,
    total: Option<usize>,
) -> bool {
    &&& weights::ascending(states)
    &&& forall|state: u128|
        #[trigger] states.contains(state) <==> in_digit_sector(state, sites, base, total)
}

/// The refusal of a digit-sum sector, if it is refused.
pub open spec fn digit_sector_error(
    sites: usize,
    states_per_site: usize,
    total: Option<usize>,
) -> Option<QmbedError> {
    if sites == 0 || states_per_site == 0 {
        Some(QmbedError::InvalidSector(Reason::Text("sites and local state count must be positive")))
    } else if total is Some && total->0 > sites * (states_per_site - 1) {
        Some(QmbedError::InvalidSector(Reason::Text("requested occupation exceeds the local spin capacity")))
    } else if sites > u32::MAX {
        Some(QmbedError::UnsupportedBackend(Reason::Text("site count is too large")))
    } else if power(states_per_site as nat, sites as nat) > u128::MAX {
        Some(QmbedError::UnsupportedBackend(Reason::Text("mixed-radix state encoding overflow")))
    } else {
        None
    }
}

/// Appends, in ascending order, the words `prefix + low` where `low` has the
/// given number of digits and the given digit sum.
fn enumerate_digit_sum(
    sites: usize,
    base: usize,
    remaining: usize,
    place: u128,
    prefix: u128,
    output: &mut Vec<u128>,
)
    requires
        base > 0,
        place == power(base as nat, sites as nat),
        prefix + place <= u128::MAX + 1,
        weights::ascending(old(output)@),
        forall|i: int| 0 <= i < old(output)@.len() ==> #[trigger] old(output)@[i] < prefix,
    ensures
        weights::ascending(final(output)@),
        forall|state: u128| #[trigger]
            final(output)@.contains(state) <==> old(output)@.contains(state) || (prefix <= state
                < prefix + place && digit_sum((state - prefix) as nat, base as nat, sites as nat)
                == remaining),
    decreases sites,
{
    let ghost start = output@;
    if sites == 0 {
        if remaining == 0 {
            output.push(prefix);
        }
        proof {
            assert forall|state: u128| #[trigger] output@.contains(state) <==> start.contains(
                state,
            ) || (prefix <= state < prefix + place && digit_sum(
                (state - prefix) as nat,
                base as nat,
                0,
            ) == remaining) by {
                if remaining == 0 {
                    assert(output@[start.len() as int] == prefix);
                    if start.contains(state) {
                        let i = choose|i: int| 0 <= i < start.len() && start[i] == state;
                        assert(output@[i] == state);
                    }
                    if output@.contains(state) && state != prefix {
                        let i = choose|i: int| 0 <= i < output@.len() && output@[i] == state;
                        assert(start[i] == state);
                    }
                }
            }
        }
        return ;
    }
    let low_sites: usize = sites - 1;
    let maximum_tail: usize = match low_sites.checked_mul(base - 1) {
        Some(product) => product,
        None => usize::MAX,
    };
    let low_place: u128 = place / base as u128;
    let ghost b = base as nat;
    let ghost n = low_sites as nat;
    proof {
        lemma_power_positive(b, n);
        lemma_mul_is_commutative(b as int, power(b, n) as int);
        lemma_div_by_multiple(power(b, n) as int, b as int);
        assert(low_place == power(b, n));
        lemma_mul_by_zero_is_zero(low_place as int);
    }
    let mut lead: usize = 0;
    while lead < base
        invariant
            lead <= base,
            base > 0,
            b == base,
            n == low_sites,
            low_sites == sites - 1,
            low_place == power(b, n),
            low_place > 0,
            place == b * low_place,
            place == power(b, sites as nat),
            prefix + place <= u128::MAX + 1,
            maximum_tail == usize::MAX || maximum_tail == low_sites * (base - 1),
            weights::ascending(output@),
            forall|i: int|
                0 <= i < output@.len() ==> #[trigger] output@[i] < prefix + lead * low_place,
            forall|state: u128| #[trigger]
                output@.contains(state) <==> start.contains(state) || (prefix <= state < prefix
                    + lead * low_place && digit_sum((state - prefix) as nat, b, sites as nat)
                    == remaining),
        decreases base - lead,
    {
        let ghost before = output@;
        let ghost left = prefix + lead * low_place;
        let ghost right = prefix + (lead + 1) * low_place;
        proof {
            assert((lead + 1) * low_place == lead * low_place + low_place && (lead + 1) * low_place
                <= place) by (nonlinear_arith)
                requires
                    lead < base,
                    place == base * low_place,
                    low_place > 0,
            ;
            assert forall|state: u128| left <= state < right implies #[trigger] digit_sum(
                (state - prefix) as nat,
                b,
                sites as nat,
            ) == lead + digit_sum((state - left) as nat, b, n) by {
                lemma_digit_sum_lead(lead as nat, (state - left) as nat, b, n);
            }
        }
        if lead <= remaining && remaining - lead <= maximum_tail {
            let next_prefix: u128 = prefix + lead as u128 * low_place;
            enumerate_digit_sum(low_sites, base, remaining - lead, low_place, next_prefix, output);
            proof {
                assert forall|state: u128| #[trigger] output@.contains(state) <==> start.contains(
                    state,
                ) || (prefix <= state < right && digit_sum(
                    (state - prefix) as nat,
                    b,
                    sites as nat,
                ) == remaining) by {
                    assert(output@.contains(state) <==> before.contains(state) || (left <= state
                        < right && digit_sum((state - left) as nat, b, n) == remaining - lead));
                }
                assert forall|i: int| 0 <= i < output@.len() implies #[trigger] output@[i]
                    < right by {
                    assert(output@.contains(output@[i]));
                    if before.contains(output@[i]) {
                        let p = choose|p: int| 0 <= p < before.len() && before[p] == output@[i];
                        assert(before[p] < left);
                    }
                }
            }
        } else {
            proof {
                assert forall|state: u128| #[trigger] output@.contains(state) <==> start.contains(
                    state,
                ) || (prefix <= state < right && digit_sum(
                    (state - prefix) as nat,
                    b,
                    sites as nat,
                ) == remaining) by {
                    if left <= state < right {
                        lemma_digit_sum_bound((state - left) as nat, b, n);
                    }
                }
            }
        }
        lead += 1;
    }
}

/// Lists the words of `sites` digits in base `states_per_site`, of digit sum
/// `total` where one is given.
pub fn fixed_digit_sum_states(
    sites: usize,
    states_per_site: usize,
    total: Option<usize>,
) -> (result: Result<Vec<u128>>)
    ensures
        match result {
            Ok(states) => {
                &&& digit_sector_error(sites, states_per_site, total) is None
                &&& lists_digit_sector(states@, sites as nat, states_per_site as nat, total)
                &&& total is None ==> {
                    &&& states@.len() == power(states_per_site as nat, sites as nat)
                    &&& forall|i: int| 0 <= i < states@.len() ==> #[trigger] states@[i] == i
                }
            },
            Err(error) => digit_sector_error(sites, states_per_site, total) == Some(error),
        },
{
    if sites == 0 || states_per_site == 0 {
        return Err(QmbedError::InvalidSector(Reason::Text("sites and local state count must be positive")));
    }
    let capacity: usize = match sites.checked_mul(states_per_site - 1) {
        Some(product) => product,
        None => usize::MAX,
    };
    if let Some(sum) = total {
        if sum > capacity {
            return Err(
                QmbedError::InvalidSector(Reason::Text("requested occupation exceeds the local spin capacity")),
            );
        }
    }
    if sites > 0xffff_ffff {
        return Err(QmbedError::UnsupportedBackend(Reason::Text("site count is too large")));
    }
    let limit: u128 = match checked_power(states_per_site as u128, sites) {
        Some(limit) => limit,
        None => {
            return Err(QmbedError::UnsupportedBackend(Reason::Text("mixed-radix state encoding overflow")));
        },
    };
    let mut states: Vec<u128> = Vec::new();
    match total {
        Some(sum) => {
            enumerate_digit_sum(sites, states_per_site, sum, limit, 0, &mut states);
        },
        None => {
            let mut state: u128 = 0;
            while state < limit
                invariant
                    state <= limit,
                    states@.len() == state,
                    forall|i: int| 0 <= i < states@.len() ==> #[trigger] states@[i] == i,
                decreases limit - state,
            {
                states.push(state);
                state += 1;
            }
            proof {
                assert forall|z: u128| #[trigger] states@.contains(z) <==> in_digit_sector(
                    z,
                    sites as nat,
                    states_per_site as nat,
                    None,
                ) by {
                    if z < limit {
                        assert(states@[z as int] == z);
                    }
                }
            }
        },
    }
    Ok(states)
}

/// Words of `sites` digits whose digit sum is admitted by the selection.
pub open spec fn in_digit_union(
    state: u128,
    sites: nat,
    base: nat,
    total: Option<usize>,
    sectors: Option<Seq<usize>>,
) -> bool {
    state < power(base, sites) && symbols::number_admitted(
        total,
        sectors,
        digit_sum(state as nat, base, sites) as int,
    )
}

/// The ascending list of exactly the admitted words.
pub open spec fn lists_digit_union(
    states: Seq<u128>,
    sites: nat,
    base: nat,
    total: Option<usize>,
    sectors: Option<Seq<usize>>,
) -> bool {
    &&& weights::ascending(states)
    &&& forall|state: u128|
        #[trigger] states.contains(state) <==> in_digit_union(state, sites, base, total, sectors)
}

/// Whether some number of the list is refused as a digit sum.
pub open spec fn some_sum_refused(sites: usize, states_per_site: usize, list: Seq<usize>) -> bool {
    exists|i: int|
        0 <= i < list.len() && digit_sector_error(
            sites,
            states_per_site,
            Some(#[trigger] list[i]),
        ) is Some
}

/// Whether the refusal is that of the first refused number of the list.
pub open spec fn first_sum_refusal(
    sites: usize,
    states_per_site: usize,
    list: Seq<usize>,
    error: QmbedError,
) -> bool {
    exists|i: int|
        {
            &&& 0 <= i < list.len()
            &&& digit_sector_error(sites, states_per_site, Some(#[trigger] list[i])) == Some(error)
            &&& !some_sum_refused(sites, states_per_site, list.take(i))
        }
}

spec fn in_listed_sums(state: u128, sites: nat, base: nat, list: Seq<usize>, count: int) -> bool {
    state < power(base, sites) && symbols::lists_number(
        list.take(count),
        digit_sum(state as nat, base, sites) as int,
    )
}

/// Lists the words whose digit sum is one of the selected ones.
pub fn fixed_digit_sum_sector_states(
    sites: usize,
    states_per_site: usize,
    total: Option<usize>,
    particle_sectors: Option<&Vec<usize>>,
) -> (result: Result<Vec<u128>>)
    requires
        particle_sectors matches Some(list) ==> ordered::strictly_sorted(list@),
    ensures
        match result {
            Ok(states) => {
                &&& particle_sectors matches Some(list) ==> {
                    &&& !some_sum_refused(sites, states_per_site, list@)
                    &&& lists_digit_union(
                        states@,
                        sites as nat,
                        states_per_site as nat,
                        total,
                        Some(list@),
                    )
                }
                &&& particle_sectors is None ==> {
                    &&& digit_sector_error(sites, states_per_site, total) is None
                    &&& lists_digit_union(
                        states@,
                        sites as nat,
                        states_per_site as nat,
                        total,
                        None,
                    )
                    &&& total is None ==> forall|i: int|
                        0 <= i < states@.len() ==> #[trigger] states@[i] == i
                }
            },
            Err(error) => {
                &&& particle_sectors matches Some(list) ==> first_sum_refusal(
                    sites,
                    states_per_site,
                    list@,
                    error,
                )
                &&& particle_sectors is None ==> digit_sector_error(sites, states_per_site, total)
                    == Some(error)
            },
        },
{
    let ghost n = sites as nat;
    let ghost b = states_per_site as nat;
    let sectors: &Vec<usize> = match particle_sectors {
        Some(sectors) => sectors,
        None => {
            return match fixed_digit_sum_states(sites, states_per_site, total) {
                Ok(states) => {
                    assert forall|state: u128| #[trigger] states@.contains(state)
                        <==> in_digit_union(state, n, b, total, None) by {
                        assert(states@.contains(state) <==> in_digit_sector(state, n, b, total));
                    }
                    Ok(states)
                },
                Err(error) => Err(error),
            };
        },
    };
    let mut states: Vec<u128> = Vec::new();
    let mut next: usize = 0;
    while next < sectors.len()
        invariant
            next <= sectors@.len(),
            n == sites,
            b == states_per_site,
            !some_sum_refused(sites, states_per_site, sectors@.take(next as int)),
            forall|state: u128| #[trigger]
                states@.contains(state) <==> in_listed_sums(state, n, b, sectors@, next as int),
            particle_sectors == Some(sectors),
        decreases sectors@.len() - next,
    {
        let sector: usize = sectors[next];
        let mut listed: Vec<u128> = match fixed_digit_sum_states(
            sites,
            states_per_site,
            Some(sector),
        ) {
            Ok(listed) => listed,
            Err(error) => {
                proof {
                    let i = next as int;
                    assert(digit_sector_error(sites, states_per_site, Some(sectors@[i])) == Some(
                        error,
                    ));
                    assert(first_sum_refusal(sites, states_per_site, sectors@, error));
                }
                return Err(error);
            },
        };
        let ghost before = states@;
        let ghost added = listed@;
        states.append(&mut listed);
        proof {
            let seen = sectors@.take(next as int);
            let wider = sectors@.take(next + 1);
            assert forall|state: u128| #[trigger] states@.contains(state) <==> in_listed_sums(
                state,
                n,
                b,
                sectors@,
                next + 1,
            ) by {
                vstd::seq_lib::lemma_seq_concat_contains_all_elements(before, added, state);
                assert(states@ =~= before + added);
                let sum = digit_sum(state as nat, b, n) as int;
                if symbols::lists_number(seen, sum) {
                    let i = choose|i: int| 0 <= i < seen.len() && #[trigger] seen[i] == sum;
                    assert(wider[i] == sum);
                }
                if sum == sector {
                    assert(wider[next as int] == sum);
                }
                if symbols::lists_number(wider, sum) && sum != sector {
                    let i = choose|i: int| 0 <= i < wider.len() && #[trigger] wider[i] == sum;
                    assert(seen[i] == sum);
                }
                assert(added.contains(state) <==> in_digit_sector(state, n, b, Some(sector)));
                assert(before.contains(state) <==> in_listed_sums(
                    state,
                    n,
                    b,
                    sectors@,
                    next as int,
                ));
            }
            if some_sum_refused(sites, states_per_site, wider) {
                let i = choose|i: int|
                    0 <= i < wider.len() && digit_sector_error(
                        sites,
                        states_per_site,
                        Some(#[trigger] wider[i]),
                    ) is Some;
                assert(i < next);
                assert(seen[i] == wider[i]);
            }
        }
        next += 1;
    }
    let result: Vec<u128> = ordered::sort_dedup(&states);
    proof {
        assert(sectors@.take(next as int) =~= sectors@);
        assert forall|state: u128| #[trigger] result@.contains(state) <==> in_digit_union(
            state,
            n,
            b,
            total,
            Some(sectors@),
        ) by {
            assert(states@.contains(state) <==> in_listed_sums(
                state,
                n,
                b,
                sectors@,
                next as int,
            ));
        }
        assert forall|i: int, j: int| 0 <= i < j < result@.len() implies result@[i]
            < result@[j] by {
            assert(result@[i].rank() < result@[j].rank());
        }
    }
    Ok(result)
}

} // verus!

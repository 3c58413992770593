//! Translation and reflection of the sites of a mixed-radix word.

use vstd::arithmetic::div_mod::*;
use vstd::arithmetic::mul::*;
use vstd::prelude::*;

use crate::digits;

verus! {

/// Words of `sites` digits for which the whole range of words can be packed.
pub open spec fn packable(code: nat, sites: nat, base: nat) -> bool {
    &&& base > 0
    &&& code < digits::power(base, sites)
    &&& digits::power(base, sites) <= u128::MAX + 1
}

/// Every digit moved up by `shift` sites, around the end.
pub open spec fn rotated(code: nat, shift: nat, sites: nat, base: nat) -> nat
    recommends
        sites > 0,
{
    let s = shift % sites;
    let kept = digits::power(base, (sites - s) as nat);
    (code % kept) * digits::power(base, s) + code / kept
}

/// The digits in the opposite order.
pub open spec fn reflected(code: nat, sites: nat, base: nat) -> nat
    decreases sites,
{
    if sites == 0 {
        0
    } else {
        let rest = (sites - 1) as nat;
        (code % base) * digits::power(base, rest) + reflected(code / base, rest, base)
    }
}

/// Digits of a word put together from two parts.
pub proof fn lemma_digit_join(high: nat, low: nat, e: nat, base: nat, site: nat)
    requires
        base > 0,
        low < digits::power(base, e),
    ensures
        digits::digit(high * digits::power(base, e) + low, base, site) == if site < e {
            digits::digit(low, base, site)
        } else {
            digits::digit(high, base, (site - e) as nat)
        },
{
    let p = digits::power(base, e) as int;
    let whole = high * p + low;
    digits::lemma_power_positive(base, e);
    if site < e {
        let q = digits::power(base, site) as int;
        let r = digits::power(base, (e - site) as nat) as int;
        let d = digits::power(base, (e - site - 1) as nat) as int;
        digits::lemma_power_positive(base, site);
        digits::lemma_power_adds(base, site, (e - site) as nat);
        assert(r == base * d);
        assert(whole == q * (high * r) + low) by (nonlinear_arith)
            requires
                whole == high * p + low,
                p == q * r,
        ;
        lemma_div_multiples_vanish_fancy_sum(high * r, low as int, q);
        assert(whole / q == high * r + low as int / q);
        assert(high * r + low as int / q == base * (high * d) + low as int / q)
            by (nonlinear_arith)
            requires
                r == base * d,
        ;
        lemma_mod_multiples_vanish(high * d, low as int / q, base as int);
    } else {
        let f = (site - e) as nat;
        let q = digits::power(base, f) as int;
        digits::lemma_power_positive(base, f);
        digits::lemma_power_adds(base, e, f);
        lemma_div_denominator(whole, p, q);
        lemma_fundamental_div_mod_converse(whole, p, high as int, low as int);
    }
}

proof fn lemma_div_multiples_vanish_fancy_sum(a: int, b: int, d: int)
    requires
        d > 0,
        b >= 0,
    ensures
        (d * a + b) / d == a + b / d,
{
    lemma_fundamental_div_mod(b, d);
    assert(d * a + b == (a + b / d) * d + b % d) by (nonlinear_arith)
        requires
            b == d * (b / d) + b % d,
    ;
    lemma_mod_bound(b, d);
    lemma_fundamental_div_mod_converse(d * a + b, d, a + b / d, b % d);
}

/// Digits of the two parts of a word.
pub proof fn lemma_digit_parts(code: nat, e: nat, base: nat, site: nat)
    requires
        base > 0,
    ensures
        digits::digit(code / digits::power(base, e), base, site) == digits::digit(
            code,
            base,
            site + e,
        ),
        site < e ==> digits::digit(code % digits::power(base, e), base, site) == digits::digit(
            code,
            base,
            site,
        ),
        code % digits::power(base, e) < digits::power(base, e),
        code == (code / digits::power(base, e)) * digits::power(base, e) + code % digits::power(
            base,
            e,
        ),
{
    let p = digits::power(base, e) as int;
    digits::lemma_power_positive(base, e);
    lemma_fundamental_div_mod(code as int, p);
    lemma_mul_is_commutative(p, code as int / p);
    lemma_mod_bound(code as int, p);
    lemma_digit_join(code / digits::power(base, e), code % digits::power(base, e), e, base, site);
    lemma_digit_join(
        code / digits::power(base, e),
        code % digits::power(base, e),
        e,
        base,
        site + e,
    );
}

/// A word is known by its digits.
pub proof fn lemma_digits_identify(left: nat, right: nat, sites: nat, base: nat)
    requires
        base > 0,
        left < digits::power(base, sites),
        right < digits::power(base, sites),
        forall|site: nat|
            site < sites ==> #[trigger] digits::digit(left, base, site) == digits::digit(
                right,
                base,
                site,
            ),
    ensures
        left == right,
    decreases sites,
{
    if sites > 0 {
        let d = (sites - 1) as nat;
        let p = digits::power(base, d);
        digits::lemma_lead_split(left, base, d);
        digits::lemma_lead_split(right, base, d);
        assert forall|site: nat| site < d implies #[trigger] digits::digit(left % p, base, site)
            == digits::digit(right % p, base, site) by {
            lemma_digit_parts(left, d, base, site);
            lemma_digit_parts(right, d, base, site);
            assert(digits::digit(left, base, site) == digits::digit(right, base, site));
        }
        lemma_digits_identify(left % p, right % p, d, base);
        assert(digits::digit(left, base, d) == digits::digit(right, base, d));
        lemma_small_mod(left / p, base);
        lemma_small_mod(right / p, base);
    }
}

/// Digit sums of a word put together from two parts.
pub proof fn lemma_digit_sum_join(high: nat, low: nat, e: nat, rest: nat, base: nat)
    requires
        base > 0,
        low < digits::power(base, e),
    ensures
        digits::digit_sum(high * digits::power(base, e) + low, base, e + rest)
            == digits::digit_sum(low, base, e) + digits::digit_sum(high, base, rest),
    decreases e,
{
    let whole = high * digits::power(base, e) + low;
    if e == 0 {
        lemma_mul_basics(high as int);
    } else {
        let d = (e - 1) as nat;
        let p = digits::power(base, d);
        lemma_fundamental_div_mod(low as int, base as int);
        let q = high * p + low / base;
        assert(whole == q * base + low % base) by (nonlinear_arith)
            requires
                whole == high * digits::power(base, e) + low,
                digits::power(base, e) == base * p,
                low == base * (low / base) + low % base,
                q == high * p + low / base,
        ;
        lemma_mod_bound(low as int, base as int);
        lemma_fundamental_div_mod_converse(
            whole as int,
            base as int,
            q as int,
            (low % base) as int,
        );
        lemma_multiply_divide_lt(low as int, base as int, p as int);
        lemma_digit_sum_join(high, low / base, d, rest, base);
    }
}

/// Moves every digit up by `shift` sites, around the end.
pub fn rotate_lattice_state(state: u128, shift: usize, sites: usize, base: u128) -> (result: u128)
    requires
        sites > 0,
        packable(state as nat, sites as nat, base as nat),
    ensures
        result == rotated(state as nat, shift as nat, sites as nat, base as nat),
        result < digits::power(base as nat, sites as nat),
{
    let moved: usize = shift % sites;
    if moved == 0 {
        proof {
            let p = digits::power(base as nat, sites as nat);
            lemma_small_mod(state as nat, p);
            lemma_basic_div(state as int, p as int);
            lemma_mul_basics(state as int);
        }
        return state;
    }
    let ghost b = base as nat;
    let ghost kept = digits::power(b, (sites - moved) as nat);
    let ghost lifted = digits::power(b, moved as nat);
    proof {
        lemma_rotated_bound(state as nat, shift as nat, sites as nat, b);
        digits::lemma_power_positive(b, moved as nat);
        digits::lemma_power_positive(b, (sites - moved) as nat);
        digits::lemma_power_adds(b, (sites - moved) as nat, moved as nat);
        if b > 1 {
            lemma_power_grows(b, (sites - moved) as nat, sites as nat);
            lemma_power_grows(b, moved as nat, sites as nat);
        } else {
            digits::lemma_power_one((sites - moved) as nat);
            digits::lemma_power_one(moved as nat);
        }
    }
    let low_place: u128 = place_value(base, sites - moved);
    let high_place: u128 = place_value(base, moved);
    proof {
        assert(state as nat % kept >= 0 && state as nat / kept >= 0);
        lemma_mul_nonnegative((state as nat % kept) as int, lifted as int);
    }
    (state % low_place) * high_place + state / low_place
}

/// Rotating keeps a word within its range.
pub proof fn lemma_rotated_bound(code: nat, shift: nat, sites: nat, base: nat)
    requires
        sites > 0,
        base > 0,
        code < digits::power(base, sites),
    ensures
        rotated(code, shift, sites, base) < digits::power(base, sites),
{
    let s = shift % sites;
    let kept = digits::power(base, (sites - s) as nat);
    let lifted = digits::power(base, s);
    digits::lemma_power_positive(base, (sites - s) as nat);
    digits::lemma_power_positive(base, s);
    digits::lemma_power_adds(base, (sites - s) as nat, s);
    let low = code % kept;
    let high = code / kept;
    lemma_multiply_divide_lt(code as int, kept as int, lifted as int);
    assert(low * lifted + high < kept * lifted) by (nonlinear_arith)
        requires
            low < kept,
            high < lifted,
    ;
}

/// Larger exponents give larger powers.
pub proof fn lemma_power_grows(base: nat, left: nat, right: nat)
    requires
        base > 1,
        left < right,
    ensures
        digits::power(base, left) < digits::power(base, right),
    decreases right,
{
    let d = (right - 1) as nat;
    if left < d {
        lemma_power_grows(base, left, d);
    }
    digits::lemma_power_positive(base, d);
    lemma_mul_strictly_increases(base as int, digits::power(base, d) as int);
}

/// Weight of a site: `base` to the power of the site.
pub fn place_value(base: u128, site: usize) -> (place: u128)
    requires
        base > 0,
        digits::power(base as nat, site as nat) <= u128::MAX,
    ensures
        place == digits::power(base as nat, site as nat),
{
    match digits::checked_power(base, site) {
        Some(place) => place,
        None => 0,
    }
}

/// Puts the digits in the opposite order.
pub fn reflect_lattice_state(state: u128, sites: usize, base: u128) -> (result: u128)
    requires
        packable(state as nat, sites as nat, base as nat),
    ensures
        result == reflected(state as nat, sites as nat, base as nat),
        result < digits::power(base as nat, sites as nat),
{
    let ghost b = base as nat;
    let mut result: u128 = 0;
    let mut rest: u128 = state;
    let mut done: usize = 0;
    while done < sites
        invariant
            done <= sites,
            base > 0,
            b == base,
            digits::power(b, sites as nat) <= u128::MAX + 1,
            result < digits::power(b, done as nat),
            result * digits::power(b, (sites - done) as nat) + reflected(
                rest as nat,
                (sites - done) as nat,
                b,
            ) == reflected(state as nat, sites as nat, b),
        decreases sites - done,
    {
        proof {
            let left = (sites - done) as nat;
            let e = (left - 1) as nat;
            let d = rest as nat % b;
            digits::lemma_power_monotone(b, (done + 1) as nat, sites as nat);
            lemma_mod_bound(rest as int, b as int);
            assert(result * b + d < digits::power(b, (done + 1) as nat)) by (nonlinear_arith)
                requires
                    result < digits::power(b, done as nat),
                    d < b,
                    digits::power(b, (done + 1) as nat) == b * digits::power(b, done as nat),
            ;
            assert(result * digits::power(b, left) + d * digits::power(b, e) == (result * b + d)
                * digits::power(b, e)) by (nonlinear_arith)
                requires
                    digits::power(b, left) == b * digits::power(b, e),
            ;
            lemma_mul_nonnegative(result as int, b as int);
        }
        result = result * base + rest % base;
        rest = rest / base;
        done += 1;
    }
    proof {
        lemma_mul_basics(result as int);
    }
    result
}

/// Site whose digit arrives at `site` when the word is rotated by `shift`.
pub open spec fn rotation_source(site: nat, shift: nat, sites: nat) -> nat
    recommends
        sites > 0,
{
    ((site + sites - shift % sites) % sites as int) as nat
}

/// Digits of a rotated word.
pub proof fn lemma_rotated_digit(code: nat, shift: nat, sites: nat, base: nat, site: nat)
    requires
        base > 0,
        site < sites,
        code < digits::power(base, sites),
    ensures
        digits::digit(rotated(code, shift, sites, base), base, site) == digits::digit(
            code,
            base,
            rotation_source(site, shift, sites),
        ),
        rotation_source(site, shift, sites) < sites,
{
    let s = shift % sites;
    let e = (sites - s) as nat;
    let kept = digits::power(base, e);
    digits::lemma_power_positive(base, e);
    digits::lemma_power_adds(base, e, s);
    lemma_multiply_divide_lt(code as int, kept as int, digits::power(base, s) as int);
    lemma_digit_join(code % kept, code / kept, s, base, site);
    if site < s {
        lemma_digit_parts(code, e, base, site);
        lemma_small_mod((site + e) as nat, sites);
    } else {
        lemma_digit_parts(code, e, base, (site - s) as nat);
        lemma_mod_add_multiples_vanish((site - s) as int, sites as int);
        lemma_small_mod((site - s) as nat, sites);
    }
}

/// Reflecting keeps a word within its range.
pub proof fn lemma_reflected_bound(code: nat, sites: nat, base: nat)
    requires
        base > 0,
    ensures
        reflected(code, sites, base) < digits::power(base, sites),
    decreases sites,
{
    if sites > 0 {
        let d = (sites - 1) as nat;
        lemma_reflected_bound(code / base, d, base);
        let lead = code % base;
        let p = digits::power(base, d);
        let rest = reflected(code / base, d, base);
        assert(lead * p + rest < base * p) by (nonlinear_arith)
            requires
                lead < base,
                rest < p,
        ;
    }
}

/// Digits of a reflected word.
pub proof fn lemma_reflected_digit(code: nat, sites: nat, base: nat, site: nat)
    requires
        base > 0,
        site < sites,
    ensures
        digits::digit(reflected(code, sites, base), base, site) == digits::digit(
            code,
            base,
            (sites - 1 - site) as nat,
        ),
    decreases sites,
{
    let d = (sites - 1) as nat;
    lemma_reflected_bound(code / base, d, base);
    lemma_digit_join(code % base, reflected(code / base, d, base), d, base, site);
    assert(digits::power(base, 0) == 1);
    if site < d {
        lemma_reflected_digit(code / base, d, base, site);
        assert(digits::power(base, 1) == base) by {
            lemma_mul_basics(base as int);
        }
        let opposite = (d - 1 - site) as nat;
        lemma_digit_parts(code, 1, base, opposite);
        assert(digits::digit(code / base, base, opposite) == digits::digit(
            code,
            base,
            opposite + 1,
        ));
        assert(opposite + 1 == sites - 1 - site);
    } else {
        lemma_mod_twice(code as int, base as int);
        assert(digits::digit(code % base, base, 0) == code % base) by {
            lemma_div_basics((code % base) as int);
        }
        assert(digits::digit(code, base, 0) == code % base) by {
            lemma_div_basics(code as int);
        }
    }
}

/// Two rotations in a row are one rotation by the sum of the shifts.
pub proof fn law_rotations_compose(code: nat, first: nat, second: nat, sites: nat, base: nat)
    requires
        sites > 0,
        base > 0,
        code < digits::power(base, sites),
    ensures
        rotated(rotated(code, first, sites, base), second, sites, base) == rotated(
            code,
            first + second,
            sites,
            base,
        ),
{
    let once = rotated(code, first, sites, base);
    let twice = rotated(once, second, sites, base);
    let direct = rotated(code, first + second, sites, base);
    lemma_rotated_bound(code, first, sites, base);
    lemma_rotated_bound(once, second, sites, base);
    lemma_rotated_bound(code, first + second, sites, base);
    assert forall|site: nat| site < sites implies #[trigger] digits::digit(twice, base, site)
        == digits::digit(direct, base, site) by {
        let middle = rotation_source(site, second, sites);
        lemma_rotated_digit(once, second, sites, base, site);
        lemma_rotated_digit(code, first, sites, base, middle);
        lemma_rotated_digit(code, first + second, sites, base, site);
        lemma_sources_compose(site, first, second, sites);
    }
    lemma_digits_identify(twice, direct, sites, base);
}

proof fn lemma_sources_compose(site: nat, first: nat, second: nat, sites: nat)
    requires
        site < sites,
    ensures
        rotation_source(rotation_source(site, second, sites), first, sites) == rotation_source(
            site,
            first + second,
            sites,
        ),
{
    let m = sites as int;
    let a = first as int % m;
    let b = second as int % m;
    let c = (first + second) as int % m;
    lemma_add_mod_noop(first as int, second as int, m);
    lemma_mod_bound(first as int, m);
    lemma_mod_bound(second as int, m);
    assert(c == (a + b) % m);
    let u = site + m - b;
    let v = u % m;
    assert(v == if u >= m { u - m } else { u }) by {
        if u >= m {
            lemma_mod_add_multiples_vanish(u - m, m);
            lemma_small_mod((u - m) as nat, sites);
        } else {
            lemma_small_mod(u as nat, sites);
        }
    }
    assert(c == if a + b >= m { a + b - m } else { a + b }) by {
        if a + b >= m {
            lemma_mod_add_multiples_vanish(a + b - m, m);
            lemma_small_mod((a + b - m) as nat, sites);
        } else {
            lemma_small_mod((a + b) as nat, sites);
        }
    }
    let left = v + m - a;
    let right = site + m - c;
    assert(left == right || left == right + m || left == right - m);
    if left == right + m {
        lemma_mod_add_multiples_vanish(right, m);
    } else if left == right - m {
        lemma_mod_add_multiples_vanish(left, m);
    }
}

/// A rotation by a multiple of the number of sites changes nothing.
pub proof fn law_full_turn(code: nat, turns: nat, sites: nat, base: nat)
    requires
        sites > 0,
        base > 0,
        code < digits::power(base, sites),
    ensures
        rotated(code, turns * sites, sites, base) == code,
{
    lemma_mod_multiples_basic(turns as int, sites as int);
    let p = digits::power(base, sites);
    lemma_small_mod(code, p);
    lemma_basic_div(code as int, p as int);
    lemma_mul_basics(code as int);
}

/// Reflecting twice changes nothing.
pub proof fn law_reflection_involution(code: nat, sites: nat, base: nat)
    requires
        base > 0,
        code < digits::power(base, sites),
    ensures
        reflected(reflected(code, sites, base), sites, base) == code,
{
    let once = reflected(code, sites, base);
    let twice = reflected(once, sites, base);
    lemma_reflected_bound(once, sites, base);
    assert forall|site: nat| site < sites implies #[trigger] digits::digit(twice, base, site)
        == digits::digit(code, base, site) by {
        lemma_reflected_digit(once, sites, base, site);
        lemma_reflected_digit(code, sites, base, (sites - 1 - site) as nat);
    }
    lemma_digits_identify(twice, code, sites, base);
}

/// Reflecting after a rotation is rotating the other way after a reflection.
pub proof fn law_reflection_reverses_rotation(code: nat, shift: nat, sites: nat, base: nat)
    requires
        sites > 0,
        base > 0,
        shift <= sites,
        code < digits::power(base, sites),
    ensures
        reflected(rotated(code, shift, sites, base), sites, base) == rotated(
            reflected(code, sites, base),
            (sites - shift) as nat,
            sites,
            base,
        ),
{
    let turned = rotated(code, shift, sites, base);
    let mirror = reflected(code, sites, base);
    let left = reflected(turned, sites, base);
    let right = rotated(mirror, (sites - shift) as nat, sites, base);
    lemma_rotated_bound(code, shift, sites, base);
    lemma_reflected_bound(turned, sites, base);
    lemma_reflected_bound(code, sites, base);
    lemma_rotated_bound(mirror, (sites - shift) as nat, sites, base);
    assert forall|site: nat| site < sites implies #[trigger] digits::digit(left, base, site)
        == digits::digit(right, base, site) by {
        let opposite = (sites - 1 - site) as nat;
        let source = rotation_source(site, (sites - shift) as nat, sites);
        lemma_reflected_digit(turned, sites, base, site);
        lemma_rotated_digit(code, shift, sites, base, opposite);
        lemma_rotated_digit(mirror, (sites - shift) as nat, sites, base, site);
        lemma_reflected_digit(code, sites, base, source);
        let m = sites as int;
        let a = shift as int % m;
        let b = (sites - shift) as int % m;
        if shift == 0 || shift == sites {
            lemma_mod_self_0(m);
            lemma_small_mod(0, sites);
            lemma_mod_add_multiples_vanish(site as int, m);
            lemma_mod_add_multiples_vanish(opposite as int, m);
            lemma_small_mod(site, sites);
            lemma_small_mod(opposite, sites);
        } else {
            lemma_small_mod(shift, sites);
            lemma_small_mod((sites - shift) as nat, sites);
            let u = opposite + m - shift;
            let v = site + shift;
            if v >= m {
                lemma_mod_add_multiples_vanish(v - m, m);
                lemma_small_mod((v - m) as nat, sites);
                lemma_small_mod(u as nat, sites);
            } else {
                lemma_small_mod(v as nat, sites);
                lemma_mod_add_multiples_vanish(u - m, m);
                lemma_small_mod((u - m) as nat, sites);
            }
        }
    }
    lemma_digits_identify(left, right, sites, base);
}

/// Rotating and reflecting keep the digit sum, so they keep particle numbers.
pub proof fn law_lattice_maps_keep_digit_sum(code: nat, shift: nat, sites: nat, base: nat)
    requires
        sites > 0,
        base > 0,
        code < digits::power(base, sites),
    ensures
        digits::digit_sum(rotated(code, shift, sites, base), base, sites) == digits::digit_sum(
            code,
            base,
            sites,
        ),
        digits::digit_sum(reflected(code, sites, base), base, sites) == digits::digit_sum(
            code,
            base,
            sites,
        ),
{
    let s = shift % sites;
    let e = (sites - s) as nat;
    let kept = digits::power(base, e);
    digits::lemma_power_positive(base, e);
    digits::lemma_power_adds(base, e, s);
    lemma_multiply_divide_lt(code as int, kept as int, digits::power(base, s) as int);
    lemma_digit_parts(code, e, base, 0);
    lemma_digit_sum_join(code / kept, code % kept, e, s, base);
    lemma_digit_sum_join(code % kept, code / kept, s, e, base);
    lemma_reflected_digit_sum(code, sites, base);
}

proof fn lemma_reflected_digit_sum(code: nat, sites: nat, base: nat)
    requires
        base > 0,
    ensures
        digits::digit_sum(reflected(code, sites, base), base, sites) == digits::digit_sum(
            code,
            base,
            sites,
        ),
    decreases sites,
{
    if sites > 0 {
        let d = (sites - 1) as nat;
        lemma_reflected_digit_sum(code / base, d, base);
        lemma_reflected_bound(code / base, d, base);
        lemma_mod_bound(code as int, base as int);
        digits::lemma_digit_sum_lead(code % base, reflected(code / base, d, base), base, d);
    }
}

/// For binary digits the digit sum is the number of ones.
pub proof fn lemma_binary_digit_sum(code: nat, sites: nat)
    requires
        code < digits::power(2, sites),
    ensures
        digits::digit_sum(code, 2, sites) == crate::bits::ones(code),
    decreases sites,
{
    if sites > 0 {
        lemma_binary_digit_sum(code / 2, (sites - 1) as nat);
    }
}

/// Whether the whole block of words with the same digits above `sites` fits.
pub open spec fn block_fits(code: nat, sites: nat, base: nat) -> bool {
    (code / digits::power(base, sites) + 1) * digits::power(base, sites) <= u128::MAX + 1
}

/// Words of the range fit whenever the range does.
pub proof fn lemma_block_fits(code: nat, sites: nat, base: nat)
    requires
        packable(code, sites, base),
    ensures
        block_fits(code, sites, base),
{
    let limit = digits::power(base, sites);
    lemma_basic_div(code as int, limit as int);
    lemma_mul_basics(limit as int);
}

/// A word around one of its digits.
pub proof fn lemma_around_digit(code: nat, site: nat, base: nat)
    requires
        base > 0,
    ensures
        digits::power(base, site) > 0,
        digits::power(base, site + 1) == base * digits::power(base, site),
        code == (code / digits::power(base, site + 1)) * digits::power(base, site + 1)
            + digits::digit(code, base, site) * digits::power(base, site) + code % digits::power(
            base,
            site,
        ),
        code % digits::power(base, site) < digits::power(base, site),
{
    let p = digits::power(base, site) as int;
    let b = base as int;
    let x = code as int;
    digits::lemma_power_positive(base, site);
    lemma_fundamental_div_mod(x, p);
    lemma_fundamental_div_mod(x / p, b);
    lemma_mod_bound(x, p);
    lemma_div_denominator(x, p, b);
    lemma_mul_is_commutative(p, b);
    let h = x / (b * p);
    let d = (x / p) % b;
    let r = x % p;
    assert(x == h * (b * p) + d * p + r) by (nonlinear_arith)
        requires
            x == p * (b * h + d) + r,
    ;
}

/// Raising or lowering one digit within its range keeps all digits above `sites`
/// and stays within the block.
pub proof fn lemma_step_digit(code: nat, site: nat, sites: nat, base: nat)
    requires
        base > 0,
        site < sites,
        block_fits(code, sites, base),
    ensures
        digits::digit(code, base, site) + 1 < base ==> {
            &&& code + digits::power(base, site) <= u128::MAX
            &&& block_fits(code + digits::power(base, site), sites, base)
        },
        digits::digit(code, base, site) > 0 ==> {
            &&& digits::power(base, site) <= code
            &&& block_fits((code - digits::power(base, site)) as nat, sites, base)
        },
{
    let p = digits::power(base, site) as int;
    let q = digits::power(base, site + 1) as int;
    let rest = (sites - site - 1) as nat;
    let r = digits::power(base, rest) as int;
    let limit = digits::power(base, sites) as int;
    let x = code as int;
    let h = x / q;
    let d = digits::digit(code, base, site) as int;
    let low = x % p;
    lemma_around_digit(code, site, base);
    digits::lemma_power_positive(base, site + 1);
    digits::lemma_power_positive(base, rest);
    digits::lemma_power_adds(base, site + 1, rest);
    lemma_div_denominator(x, q, r);
    lemma_mod_bound((code / digits::power(base, site)) as int, base as int);
    if d + 1 < base {
        let up = x + p;
        assert(up == h * q + ((d + 1) * p + low) && 0 <= (d + 1) * p + low < q) by (nonlinear_arith)
            requires
                up == h * q + d * p + low + p,
                q == base * p,
                0 <= d,
                d + 1 < base,
                0 <= low < p,
        ;
        lemma_fundamental_div_mod_converse(up, q, h, (d + 1) * p + low);
        lemma_div_denominator(up, q, r);
        lemma_within_block(up, limit);
    }
    if d > 0 {
        let down = x - p;
        assert(down == h * q + ((d - 1) * p + low) && 0 <= (d - 1) * p + low < q)
            by (nonlinear_arith)
            requires
                down == h * q + d * p + low - p,
                q == base * p,
                0 < d,
                d < base,
                0 <= low < p,
        ;
        lemma_mul_nonnegative(h, q);
        lemma_fundamental_div_mod_converse(down, q, h, (d - 1) * p + low);
        lemma_div_denominator(down, q, r);
    }
}

proof fn lemma_within_block(x: int, limit: int)
    requires
        limit > 0,
        x >= 0,
    ensures
        x < (x / limit + 1) * limit,
{
    lemma_fundamental_div_mod(x, limit);
    lemma_mod_bound(x, limit);
    assert((x / limit + 1) * limit == limit * (x / limit) + limit) by (nonlinear_arith);
}

} // verus!

//! Binary digits of natural numbers and of packed words.

use vstd::arithmetic::div_mod::*;
use vstd::arithmetic::mul::*;
use vstd::arithmetic::power2::*;
use vstd::prelude::*;

verus! {

/// Number of ones in the binary form of `n`.
pub open spec fn ones(n: nat) -> nat
    decreases n,
{
    if n == 0 {
        0
    } else {
        n % 2 + ones(n / 2)
    }
}

/// Binary digit number `i` of `n`.
pub open spec fn bit_at(n: nat, i: nat) -> bool {
    (n / pow2(i)) % 2 == 1
}

/// `u128::count_ones`: the number of ones in the binary representation.
pub assume_specification[ u128::count_ones ](x: u128) -> (count: u32)
    ensures
        count == ones(x as nat),
;

/// `u64::count_ones`: the number of ones in the binary representation.
pub assume_specification[ u64::count_ones ](x: u64) -> (count: u32)
    ensures
        count == ones(x as nat),
;

pub proof fn lemma_pow2_128()
    ensures
        pow2(128) == u128::MAX + 1,
{
    lemma2_to64();
    lemma_pow2_adds(64, 64);
}

/// Powers of two below the word size fit in a word.
pub proof fn lemma_pow2_fits(e: nat)
    requires
        e < 128,
    ensures
        0 < pow2(e) <= u128::MAX,
        2 * pow2(e) <= u128::MAX + 1,
        pow2(e + 1) == 2 * pow2(e),
{
    lemma_pow2_128();
    lemma_pow2_pos(e);
    lemma_pow2_unfold(e + 1);
    if e + 1 < 128 {
        lemma_pow2_strictly_increases(e + 1, 128);
    }
}

/// `1 << e` is the power of two.
pub proof fn lemma_shl_one(e: u32)
    requires
        e < 128,
    ensures
        (1u128 << e) == pow2(e as nat),
    decreases e,
{
    if e == 0 {
        assert(1u128 << 0u32 == 1) by (bit_vector);
        lemma2_to64();
    } else {
        let d = (e - 1) as u32;
        lemma_shl_one(d);
        lemma_pow2_unfold(e as nat);
        assert((1u128 << e) == 2 * (1u128 << d)) by (bit_vector)
            requires
                0 < e < 128,
                d == (e - 1) as u32,
        ;
    }
}

/// The ones of `high * 2^e + low` are those of its two halves.
pub proof fn lemma_ones_split(high: nat, low: nat, e: nat)
    requires
        low < pow2(e),
    ensures
        ones(high * pow2(e) + low) == ones(high) + ones(low),
    decreases e,
{
    lemma2_to64();
    if e == 0 {
        assert(high * pow2(e) == high) by {
            lemma_mul_basics(high as int);
        }
    } else {
        let d = (e - 1) as nat;
        lemma_pow2_unfold(e);
        lemma_ones_split(high, low / 2, d);
        let whole = high * pow2(e) + low;
        assert(whole == 2 * (high * pow2(d)) + low) by (nonlinear_arith)
            requires
                whole == high * pow2(e) + low,
                pow2(e) == 2 * pow2(d),
        ;
        assert(whole / 2 == high * pow2(d) + low / 2);
        assert(whole % 2 == low % 2);
        if whole == 0 {
            assert(high == 0) by (nonlinear_arith)
                requires
                    high * pow2(d) == 0,
                    pow2(d) > 0,
            {
                lemma_pow2_pos(d);
            }
        }
    }
}

/// Fewer ones than digits unless every digit is one.
pub proof fn lemma_ones_bound(n: nat, e: nat)
    requires
        n < pow2(e),
    ensures
        ones(n) <= e,
        ones(n) == e <==> n == pow2(e) - 1,
    decreases e,
{
    lemma2_to64();
    if e > 0 {
        lemma_pow2_unfold(e);
        lemma_ones_bound(n / 2, (e - 1) as nat);
    }
}

/// A nonzero number has at least one one.
pub proof fn lemma_ones_positive(n: nat)
    ensures
        ones(n) == 0 <==> n == 0,
    decreases n,
{
    if n > 0 {
        lemma_ones_positive(n / 2);
    }
}

/// A word with a single set bit is a power of two.
pub proof fn lemma_single_bit(x: u128)
    requires
        x != 0,
        x & ((x - 1) as u128) == 0,
    ensures
        exists|e: nat| e < 128 && #[trigger] pow2(e) == x,
    decreases x,
{
    lemma2_to64();
    if x == 1 {
        assert(pow2(0) == x);
    } else {
        let h = x / 2;
        assert(x == 2 * h && h != 0 && h & ((h - 1) as u128) == 0) by (bit_vector)
            requires
                x > 1,
                x & ((x - 1) as u128) == 0,
                h == x / 2,
        ;
        lemma_single_bit(h);
        let e = choose|e: nat| e < 128 && #[trigger] pow2(e) == h;
        lemma_pow2_unfold(e + 1);
        if e + 1 >= 128 {
            lemma_pow2_128();
            assert(false);
        }
        assert(pow2(e + 1) == x);
    }
}

/// A number whose low digits below `2^e` vanish is a multiple of `2^e`.
pub proof fn lemma_low_bits_clear(x: u128, p: u128, e: nat)
    requires
        e < 128,
        p == pow2(e),
        x & ((p - 1) as u128) == 0,
    ensures
        x as nat % pow2(e) == 0,
    decreases e,
{
    lemma2_to64();
    if e > 0 {
        lemma_pow2_unfold(e);
        lemma_pow2_pos((e - 1) as nat);
        let q = p / 2;
        let y = x / 2;
        assert(x == 2 * y && y & ((q - 1) as u128) == 0) by (bit_vector)
            requires
                p == 2 * q,
                q > 0,
                y == x / 2,
                x & ((p - 1) as u128) == 0,
        ;
        lemma_low_bits_clear(y, q, (e - 1) as nat);
        let d = pow2((e - 1) as nat) as int;
        lemma_fundamental_div_mod(y as int, d);
        let k = y as int / d;
        assert(x as int == k * (2 * d)) by (nonlinear_arith)
            requires
                x == 2 * y,
                y as int == d * k,
        ;
        lemma_mod_multiples_basic(k, 2 * d);
    }
}

/// The digit of a word selected by a single-bit mask.
pub proof fn lemma_mask_selects(x: u128, p: u128, e: nat)
    requires
        e < 128,
        p == pow2(e),
    ensures
        x & p != 0 <==> bit_at(x as nat, e),
{
    let k = e as u32;
    lemma_shl_one(k);
    let w = e as u128;
    vstd::bits::lemma_u128_shr_is_div(x, w);
    let q = x >> w;
    assert(x & p != 0 <==> q % 2 == 1) by (bit_vector)
        requires
            k < 128,
            w == k as u128,
            p == 1u128 << k,
            q == x >> w,
    ;
}

/// Adding less than one unit of the lowest digits only adds ones.
pub proof fn lemma_ones_above(x: nat, e: nat, z: nat)
    requires
        x % pow2(e) == 0,
        x < z < x + pow2(e),
    ensures
        ones(z) > ones(x),
{
    let p = pow2(e) as int;
    lemma_pow2_pos(e);
    lemma_fundamental_div_mod(x as int, p);
    let top = x / pow2(e);
    let r = (z - x) as nat;
    assert(p * top == top * p) by {
        lemma_mul_is_commutative(p, top as int);
    }
    lemma_ones_split(top, 0, e);
    lemma_ones_split(top, r, e);
    lemma_ones_positive(r);
}

/// Whether a binary digit of a packed word is set.
pub fn test_bit(word: u128, position: usize) -> (set: bool)
    requires
        position < 128,
    ensures
        set == bit_at(word as nat, position as nat),
{
    proof {
        vstd::bits::lemma_u128_shr_is_div(word, position as u128);
        assert(word >> position == word >> (position as u128)) by (bit_vector);
    }
    (word >> position) % 2 == 1
}

/// The digit of a packed word by shifting.
pub proof fn lemma_shifted_digit(word: u128, position: u128)
    requires
        position < 128,
    ensures
        bit_at(word as nat, position as nat) == ((word >> position) & 1 == 1),
{
    vstd::bits::lemma_u128_shr_is_div(word, position);
    let q = word >> position;
    assert(q & 1 == q % 2) by (bit_vector);
}

/// Binary digits of combinations of packed words.
pub proof fn lemma_combined_digits(a: u128, b: u128, position: nat)
    requires
        position < 128,
    ensures
        bit_at((a & b) as nat, position) == (bit_at(a as nat, position) && bit_at(
            b as nat,
            position,
        )),
        bit_at((a | b) as nat, position) == (bit_at(a as nat, position) || bit_at(
            b as nat,
            position,
        )),
        bit_at((a ^ b) as nat, position) == (bit_at(a as nat, position) != bit_at(
            b as nat,
            position,
        )),
{
    let p = position as u128;
    lemma_shifted_digit(a, p);
    lemma_shifted_digit(b, p);
    lemma_shifted_digit(a & b, p);
    lemma_shifted_digit(a | b, p);
    lemma_shifted_digit(a ^ b, p);
    assert(((a & b) >> p) & 1 == 1 <==> ((a >> p) & 1 == 1 && (b >> p) & 1 == 1)) by (bit_vector);
    assert(((a | b) >> p) & 1 == 1 <==> ((a >> p) & 1 == 1 || (b >> p) & 1 == 1)) by (bit_vector);
    assert(((a ^ b) >> p) & 1 == 1 <==> !((a >> p) & 1 == 1 <==> (b >> p) & 1 == 1))
        by (bit_vector);
}

/// No digit of a packed word lies beyond its width.
pub proof fn lemma_no_digit_beyond(word: nat, width: nat, position: nat)
    requires
        word < pow2(width),
        width <= position,
    ensures
        !bit_at(word, position),
{
    if width < position {
        lemma_pow2_strictly_increases(width, position);
    }
    lemma_basic_div(word as int, pow2(position) as int);
}

/// Two to the power `exponent`, unless it does not fit.
pub fn checked_pow2(exponent: usize) -> (result: Option<usize>)
    ensures
        match result {
            Some(value) => value == pow2(exponent as nat),
            None => pow2(exponent as nat) > usize::MAX,
        },
{
    let mut value: usize = 1;
    let mut done: usize = 0;
    proof {
        lemma2_to64();
    }
    while done < exponent
        invariant
            done <= exponent,
            value == pow2(done as nat),
        decreases exponent - done,
    {
        proof {
            lemma_pow2_unfold((done + 1) as nat);
            if done + 1 < exponent {
                lemma_pow2_strictly_increases((done + 1) as nat, exponent as nat);
            }
        }
        match value.checked_mul(2) {
            Some(next) => {
                value = next;
            },
            None => {
                return None;
            },
        }
        done += 1;
    }
    Some(value)
}

} // verus!

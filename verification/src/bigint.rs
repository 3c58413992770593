//! Arbitrary-precision integers at the edge of the fixed-width states.

use num_bigint::BigUint;
use vstd::arithmetic::div_mod::*;
use vstd::arithmetic::mul::*;
use vstd::arithmetic::power2::*;
use vstd::prelude::*;

use crate::bits;
use crate::error::{QmbedError, Reason, Result};
use crate::wide;
use crate::wide::WideState;

verus! {

/// `num_bigint::BigUint`: a nonnegative integer of any size.
#[verifier::external_type_specification]
#[verifier::external_body]
pub struct ExBigUint(num_bigint::BigUint);

/// The digits in base `2^64` that an integer holds, the lowest first.
pub uninterp spec fn stored_digits(value: BigUint) -> Seq<u64>;

/// The integer as a number.
pub open spec fn number(value: BigUint) -> nat {
    wide::value_of(stored_digits(value))
}

/// `BigUint::to_u64_digits`: the digits in base `2^64`, the lowest first, without
/// leading zeros.
#[verifier::external_body]
pub(crate) fn integer_words(value: &BigUint) -> (words: Vec<u64>)
    ensures
        words@ == stored_digits(*value),
        words@.len() > 0 ==> words@.last() != 0,
{
    value.to_u64_digits()
}

/// `BigUint::bits`: the fewest binary digits that express the integer.
#[verifier::external_body]
pub(crate) fn integer_bits(value: &BigUint) -> (count: u64)
    ensures
        wide::value_of(stored_digits(*value)) < pow2(count as nat),
        count > 0 ==> pow2((count - 1) as nat) <= wide::value_of(stored_digits(*value)),
{
    value.bits()
}

/// `BigUint::from_bytes_le`: the integer whose digits in base 256 are the bytes,
/// the lowest first.
#[verifier::external_body]
pub(crate) fn integer_from_bytes(bytes: &Vec<u8>) -> (value: BigUint)
    ensures
        wide::value_of(stored_digits(value)) == bytes_value(bytes@),
{
    BigUint::from_bytes_le(bytes)
}

/// `BigUint::from(u128)`: the same number.
#[verifier::external_body]
pub(crate) fn from_u128(value: u128) -> (result: BigUint)
    ensures
        wide::value_of(stored_digits(result)) == value,
{
    BigUint::from(value)
}

/// `BigUint::parse_bytes` in base ten: one leading plus sign may stand before the
/// digits, and underscores may stand between and behind them.
#[verifier::external_body]
pub(crate) fn parse_decimal(text: &str) -> (result: Option<BigUint>)
    ensures
        match result {
            Some(value) => {
                &&& decimal_accepted(decimal_body(text@))
                &&& wide::value_of(stored_digits(value)) == decimal_value(decimal_body(text@))
            },
            None => !decimal_accepted(decimal_body(text@)),
        },
{
    BigUint::parse_bytes(text.as_bytes(), 10)
}

/// `BigUint::to_str_radix` in base ten: the digits without leading zeros.
#[verifier::external_body]
pub(crate) fn format_decimal(value: &BigUint) -> (text: String)
    ensures
        text@ == decimal_text(wide::value_of(stored_digits(*value))),
{
    value.to_str_radix(10)
}

/// The number whose digits in base 256 are the bytes, the lowest first.
pub open spec fn bytes_value(bytes: Seq<u8>) -> nat
    decreases bytes.len(),
{
    if bytes.len() == 0 {
        0
    } else {
        bytes_value(bytes.drop_last()) + bytes.last() as nat * pow2((8 * (bytes.len() - 1)) as nat)
    }
}

/// Whether a character is a decimal digit.
pub open spec fn is_decimal_digit(symbol: char) -> bool {
    '0' <= symbol <= '9'
}

/// A decimal string without its optional plus sign.
pub open spec fn decimal_body(text: Seq<char>) -> Seq<char> {
    if text.len() > 0 && text[0] == '+' && !(text.len() > 1 && text[1] == '+') {
        text.skip(1)
    } else {
        text
    }
}

/// Whether the body of a decimal string is a number.
pub open spec fn decimal_accepted(body: Seq<char>) -> bool {
    &&& body.len() > 0
    &&& body[0] != '_'
    &&& forall|i: int|
        0 <= i < body.len() ==> is_decimal_digit(#[trigger] body[i]) || body[i] == '_'
}

/// The number that the digits of a decimal string express.
pub open spec fn decimal_value(body: Seq<char>) -> nat
    decreases body.len(),
{
    if body.len() == 0 {
        0
    } else if body.last() == '_' {
        decimal_value(body.drop_last())
    } else {
        (10 * decimal_value(body.drop_last()) + (body.last() as int - '0' as int)) as nat
    }
}

/// Character of a decimal digit.
pub open spec fn decimal_digit(digit: nat) -> char {
    ('0' as int + digit) as char
}

/// The decimal digits of a number, the highest first.
pub open spec fn decimal_text(value: nat) -> Seq<char>
    decreases value,
{
    if value < 10 {
        seq![decimal_digit(value)]
    } else {
        decimal_text(value / 10).push(decimal_digit(value % 10))
    }
}

/// Reading the decimal digits of a number gives the number back.
pub proof fn law_decimal_round_trip(value: nat)
    ensures
        decimal_body(decimal_text(value)) == decimal_text(value),
        decimal_accepted(decimal_text(value)),
        decimal_value(decimal_text(value)) == value,
    decreases value,
{
    let text = decimal_text(value);
    if value < 10 {
        assert(text.drop_last() =~= Seq::<char>::empty());
        assert(decimal_value(Seq::<char>::empty()) == 0);
    } else {
        let front = decimal_text(value / 10);
        law_decimal_round_trip(value / 10);
        assert(text.drop_last() =~= front);
        assert(text[0] == front[0]);
        assert forall|i: int| 0 <= i < text.len() implies is_decimal_digit(#[trigger] text[i])
            || text[i] == '_' by {
            if i < front.len() {
                assert(text[i] == front[i]);
            }
        }
    }
    assert(is_decimal_digit(text[0]) || text[0] == '_');
}

/// An integer with a nonzero highest word needs that word.
pub proof fn lemma_highest_word(words: Seq<u64>)
    requires
        words.len() > 0,
        words.last() != 0,
    ensures
        wide::value_of(words) >= pow2((64 * (words.len() - 1)) as nat),
{
    let p = pow2((64 * (words.len() - 1)) as nat);
    lemma_pow2_pos((64 * (words.len() - 1)) as nat);
    lemma_mul_increases(words.last() as int, p as int);
}

/// Words followed by zeros express the same number.
proof fn lemma_padded_value(words: Seq<u64>, digits: Seq<u64>)
    requires
        digits.len() <= words.len(),
        forall|i: int| 0 <= i < digits.len() ==> words[i] == digits[i],
        forall|i: int| digits.len() <= i < words.len() ==> words[i] == 0,
    ensures
        wide::value_of(words) == wide::value_of(digits),
    decreases words.len(),
{
    if words.len() == digits.len() {
        assert(words =~= digits);
    } else {
        lemma_padded_value(words.drop_last(), digits);
        lemma_mul_basics(pow2((64 * (words.len() - 1)) as nat) as int);
    }
}

/// Converts an integer of any size to a fixed-width state, without dropping high
/// words.
pub fn state_from_biguint<const WORDS: usize>(value: &BigUint) -> (result: Result<
    WideState<WORDS>,
>)
    requires
        WORDS * 64 <= usize::MAX,
    ensures
        match result {
            Ok(state) => {
                &&& number(*value) < pow2(64 * WORDS as nat)
                &&& state.value() == number(*value)
            },
            Err(error) => {
                &&& number(*value) >= pow2(64 * WORDS as nat)
                &&& error matches QmbedError::UnsupportedBackend(Reason::StateTooNarrow { bits, width }) && {
                    &&& width == WORDS * 64
                    &&& bits > 0
                    &&& pow2((bits - 1) as nat) <= number(*value) < pow2(bits as nat)
                }
            },
        },
{
    let digits: Vec<u64> = integer_words(value);
    if digits.len() > WORDS {
        let bits: u64 = integer_bits(value);
        proof {
            lemma2_to64();
            lemma_highest_word(digits@);
            let top = (64 * (digits@.len() - 1)) as nat;
            if 64 * WORDS < top {
                lemma_pow2_strictly_increases(64 * WORDS as nat, top);
            }
            lemma_pow2_pos(top);
        }
        return Err(QmbedError::UnsupportedBackend(Reason::StateTooNarrow { bits, width: WORDS * 64 }));
    }
    let mut words = [0u64; WORDS];
    let mut next: usize = 0;
    while next < digits.len()
        invariant
            next <= digits@.len() <= WORDS,
            words@.len() == WORDS,
            forall|i: int| 0 <= i < next ==> words@[i] == digits@[i],
            forall|i: int| next <= i < WORDS ==> words@[i] == 0,
        decreases digits@.len() - next,
    {
        words[next] = digits[next];
        next += 1;
    }
    proof {
        lemma_padded_value(words@, digits@);
        wide::lemma_value_bound(words@);
    }
    Ok(WideState::from_words(words))
}

/// Appends the eight bytes of a word, the lowest first.
fn push_word_bytes(bytes: &mut Vec<u8>, word: u64)
    requires
        old(bytes)@.len() % 8 == 0,
        old(bytes)@.len() + 8 <= usize::MAX,
    ensures
        final(bytes)@.len() == old(bytes)@.len() + 8,
        bytes_value(final(bytes)@) == bytes_value(old(bytes)@) + word as nat * pow2(
            8 * old(bytes)@.len(),
        ),
{
    let ghost start = bytes@;
    let ghost place = pow2(8 * start.len());
    let mut rest: u64 = word;
    let mut done: usize = 0;
    proof {
        lemma2_to64();
        lemma_mul_basics(word as int);
        lemma_mul_basics(place as int);
    }
    while done < 8
        invariant
            done <= 8,
            bytes@.len() == start.len() + done,
            place == pow2(8 * start.len()),
            word == rest * pow2((8 * done) as nat) + word as nat % pow2((8 * done) as nat),
            rest == word as nat / pow2((8 * done) as nat),
            bytes_value(bytes@) == bytes_value(start) + (word as nat % pow2((8 * done) as nat))
                * place,
        decreases 8 - done,
    {
        let byte: u8 = (rest % 256) as u8;
        let ghost before = bytes@;
        let ghost old_rest = rest as nat;
        bytes.push(byte);
        rest = rest / 256;
        proof {
            lemma2_to64();
            let e = (8 * done) as nat;
            let p = pow2(e);
            let q = pow2(e + 8);
            let w = word as nat;
            assert(bytes@.drop_last() =~= before);
            lemma_pow2_adds(8 * start.len(), e);
            lemma_pow2_adds(e, 8);
            lemma_pow2_pos(e);
            lemma_pow2_pos(e + 8);
            lemma_div_denominator(w as int, p as int, 256);
            lemma_mod_breakdown(w as int, p as int, 256);
            assert(w % q == p * (old_rest % 256) + w % p);
            assert((8 * (bytes@.len() - 1)) as nat == 8 * start.len() + e);
            assert(byte as nat * (place * p) + (w % p) * place == (w % q) * place)
                by (nonlinear_arith)
                requires
                    w % q == p * byte + w % p,
            ;
            lemma_fundamental_div_mod(w as int, q as int);
            lemma_mul_is_commutative(q as int, (w / q) as int);
        }
        done += 1;
    }
    proof {
        lemma2_to64();
        lemma_small_mod(word as nat, pow2(64));
    }
}

/// Converts a fixed-width state to an integer of any size.
pub fn state_to_biguint<const WORDS: usize>(value: WideState<WORDS>) -> (result: BigUint)
    requires
        WORDS * 64 <= usize::MAX,
    ensures
        number(result) == value.value(),
{
    let mut bytes: Vec<u8> = Vec::new();
    let mut next: usize = 0;
    proof {
        value.lemma_value();
        assert(value.spec_words().take(0) =~= Seq::<u64>::empty());
    }
    while next < WORDS
        invariant
            next <= WORDS,
            WORDS * 64 <= usize::MAX,
            value.spec_words().len() == WORDS,
            bytes@.len() == 8 * next,
            bytes_value(bytes@) == wide::value_of(value.spec_words().take(next as int)),
        decreases WORDS - next,
    {
        let word: u64 = value.words()[next];
        proof {
            let wider = value.spec_words().take(next + 1);
            assert(wider.drop_last() =~= value.spec_words().take(next as int));
        }
        push_word_bytes(&mut bytes, word);
        next += 1;
    }
    assert(value.spec_words().take(next as int) =~= value.spec_words());
    integer_from_bytes(&bytes)
}

/// Converting a state to an integer and back gives the state.
pub proof fn law_integer_round_trip<const WORDS: usize>(
    state: WideState<WORDS>,
    integer: BigUint,
    restored: WideState<WORDS>,
)
    requires
        number(integer) == state.value(),
        restored.value() == number(integer),
    ensures
        restored == state,
{
    WideState::<WORDS>::law_value_identifies(restored, state);
}

} // verus!

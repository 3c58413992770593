//! Basis states whose width is chosen at run time.

use num_bigint::BigUint;
use vstd::arithmetic::div_mod::*;
use vstd::arithmetic::mul::*;
use vstd::arithmetic::power2::*;
use vstd::prelude::*;

use crate::bigint;
use crate::bigint::{state_from_biguint, state_to_biguint};
use crate::bits;
use crate::digits;
use crate::error::{QmbedError, Reason, Result};
use crate::lattice;
use crate::ordered::{Bounded, Coded, Ranked};
use crate::wide;
use crate::wide::{StateStorage, WideState};

verus! {

/// State of 256 bits.
pub type U256 = WideState<4>;

/// State of 1024 bits.
pub type U1024 = WideState<16>;

/// State of 4096 bits.
pub type U4096 = WideState<64>;

/// State of 16384 bits.
pub type U16384 = WideState<256>;

/// State of 256 bits.
pub type UInt256 = U256;

/// State of 1024 bits.
pub type UInt1024 = U1024;

/// State of 4096 bits.
pub type UInt4096 = U4096;

/// State of 16384 bits.
pub type UInt16384 = U16384;

/// The bits of a state in one of the fixed widths.
#[derive(Clone, Copy, Debug, PartialEq, Eq)]
pub(crate) enum ErasedStateValue {
    U128(u128),
    U256(U256),
    U1024(U1024),
    U4096(U4096),
    U16384(U16384),
}

impl ErasedStateValue {
    pub(crate) open spec fn number(self) -> nat {
        match self {
            ErasedStateValue::U128(value) => value as nat,
            ErasedStateValue::U256(value) => value.value(),
            ErasedStateValue::U1024(value) => value.value(),
            ErasedStateValue::U4096(value) => value.value(),
            ErasedStateValue::U16384(value) => value.value(),
        }
    }

    pub(crate) open spec fn class(self) -> StateStorage {
        match self {
            ErasedStateValue::U128(_) => StateStorage::U128,
            ErasedStateValue::U256(_) => StateStorage::U256,
            ErasedStateValue::U1024(_) => StateStorage::U1024,
            ErasedStateValue::U4096(_) => StateStorage::U4096,
            ErasedStateValue::U16384(_) => StateStorage::U16384,
        }
    }

    proof fn lemma_bound(self)
        ensures
            self.number() < pow2(self.class().capacity()),
            self.class().capacity() < 16384 ==> pow2(self.class().capacity()) < pow2(16384),
    {
        bits::lemma_pow2_128();
        match self {
            ErasedStateValue::U128(value) => {},
            ErasedStateValue::U256(value) => value.lemma_value(),
            ErasedStateValue::U1024(value) => value.lemma_value(),
            ErasedStateValue::U4096(value) => value.lemma_value(),
            ErasedStateValue::U16384(value) => value.lemma_value(),
        }
        if self.class().capacity() < 16384 {
            lemma_pow2_strictly_increases(self.class().capacity(), 16384);
        }
    }

    proof fn lemma_identified(left: Self, right: Self)
        requires
            left.class() == right.class(),
            left.number() == right.number(),
        ensures
            left == right,
    {
        match (left, right) {
            (ErasedStateValue::U256(a), ErasedStateValue::U256(b)) => {
                WideState::<4>::law_value_identifies(a, b);
            },
            (ErasedStateValue::U1024(a), ErasedStateValue::U1024(b)) => {
                WideState::<16>::law_value_identifies(a, b);
            },
            (ErasedStateValue::U4096(a), ErasedStateValue::U4096(b)) => {
                WideState::<64>::law_value_identifies(a, b);
            },
            (ErasedStateValue::U16384(a), ErasedStateValue::U16384(b)) => {
                WideState::<256>::law_value_identifies(a, b);
            },
            _ => {},
        }
    }
}

/// The smallest storage class of a width.
pub open spec fn storage_for(width: nat) -> StateStorage {
    if width <= 128 {
        StateStorage::U128
    } else if width <= 256 {
        StateStorage::U256
    } else if width <= 1024 {
        StateStorage::U1024
    } else if width <= 4096 {
        StateStorage::U4096
    } else {
        StateStorage::U16384
    }
}

/// Runtime-selected fixed-width basis state.
///
/// Arithmetic is that of the concrete fixed-width states.
#[derive(Clone, Copy, Debug, PartialEq, Eq)]
pub struct ErasedState {
    pub(crate) width_bits: usize,
    pub(crate) value: ErasedStateValue,
}

/// Number of a storage class in ascending order.
pub open spec fn storage_rank(storage: StateStorage) -> nat {
    match storage {
        StateStorage::U128 => 0,
        StateStorage::U256 => 1,
        StateStorage::U1024 => 2,
        StateStorage::U4096 => 3,
        StateStorage::U16384 => 4,
    }
}

impl ErasedState {
    /// Logical width in bits.
    pub closed spec fn width(&self) -> nat {
        self.width_bits as nat
    }

    /// The state as a number.
    pub closed spec fn number(&self) -> nat {
        self.value.number()
    }

    /// Storage class of the state.
    pub closed spec fn class(&self) -> StateStorage {
        self.value.class()
    }

    /// The state fits its logical width and uses the smallest storage for it.
    pub open spec fn wf(&self) -> bool {
        &&& 0 < self.width() <= 16384
        &&& self.class() == storage_for(self.width())
        &&& self.number() < pow2(self.width())
    }

    /// Width, storage class and number tell states apart.
    pub proof fn law_number_identifies(left: ErasedState, right: ErasedState)
        requires
            left.width() == right.width(),
            left.class() == right.class(),
            left.number() == right.number(),
        ensures
            left == right,
    {
        ErasedStateValue::lemma_identified(left.value, right.value);
    }

    /// Width and storage class of a state by its parts.
    pub(crate) proof fn lemma_parts(state: ErasedState)
        ensures
            state.width() == state.width_bits,
            state.class() == state.value.class(),
    {
    }

    /// The state that a decimal string names.
    pub fn from_decimal(width_bits: usize, value: &str) -> (result: Result<Self>)
        ensures
            match result {
                Ok(state) => {
                    &&& bigint::decimal_accepted(bigint::decimal_body(value@))
                    &&& state.wf()
                    &&& state.width() == width_bits
                    &&& state.number() == bigint::decimal_value(bigint::decimal_body(value@))
                },
                Err(error) => {
                    &&& !bigint::decimal_accepted(bigint::decimal_body(value@)) ==> error
                        == QmbedError::InvalidOptions(
                        Reason::Text("the basis state is not a nonnegative decimal integer"),
                    )
                    &&& bigint::decimal_accepted(bigint::decimal_body(value@))
                        ==> number_refused(
                        width_bits,
                        bigint::decimal_value(bigint::decimal_body(value@)),
                        error,
                    )
                },
            },
    {
        match bigint::parse_decimal(value) {
            Some(integer) => Self::from_biguint(width_bits, &integer),
            None => Err(
                QmbedError::InvalidOptions(Reason::Text("the basis state is not a nonnegative decimal integer")),
            ),
        }
    }

    /// The state of the given width with the given number.
    pub fn from_biguint(width_bits: usize, value: &BigUint) -> (result: Result<Self>)
        ensures
            match result {
                Ok(state) => {
                    &&& state.wf()
                    &&& state.width() == width_bits
                    &&& state.number() == bigint::number(*value)
                },
                Err(error) => number_refused(width_bits, bigint::number(*value), error),
            },
    {
        let needed: u64 = bigint::integer_bits(value);
        if needed > width_bits as u64 {
            proof {
                if width_bits < needed - 1 {
                    lemma_pow2_strictly_increases(width_bits as nat, (needed - 1) as nat);
                }
            }
            return Err(QmbedError::UnsupportedBackend(Reason::IntegerTooWide { bits: needed, width: width_bits }));
        }
        proof {
            if needed < width_bits {
                lemma_pow2_strictly_increases(needed as nat, width_bits as nat);
            }
        }
        let storage: StateStorage = match StateStorage::for_bits(width_bits) {
            Ok(storage) => storage,
            Err(error) => {
                return Err(error);
            },
        };
        proof {
            assert(storage == storage_for(width_bits as nat)) by {
                let other = storage_for(width_bits as nat);
                assert(width_bits <= other.capacity());
                assert(storage.capacity() <= other.capacity());
            }
            if width_bits < storage.capacity() {
                lemma_pow2_strictly_increases(width_bits as nat, storage.capacity());
            }
            bits::lemma_pow2_128();
        }
        let stored: ErasedStateValue = match storage {
            StateStorage::U128 => {
                let words: Vec<u64> = bigint::integer_words(value);
                let word: u128 = low_words(&words);
                ErasedStateValue::U128(word)
            },
            StateStorage::U256 => match state_from_biguint::<4>(value) {
                Ok(state) => ErasedStateValue::U256(state),
                Err(error) => {
                    return Err(error);
                },
            },
            StateStorage::U1024 => match state_from_biguint::<16>(value) {
                Ok(state) => ErasedStateValue::U1024(state),
                Err(error) => {
                    return Err(error);
                },
            },
            StateStorage::U4096 => match state_from_biguint::<64>(value) {
                Ok(state) => ErasedStateValue::U4096(state),
                Err(error) => {
                    return Err(error);
                },
            },
            StateStorage::U16384 => match state_from_biguint::<256>(value) {
                Ok(state) => ErasedStateValue::U16384(state),
                Err(error) => {
                    return Err(error);
                },
            },
        };
        Ok(ErasedState { width_bits, value: stored })
    }

    /// Logical width in bits.
    pub fn width_bits(&self) -> (width: usize)
        ensures
            width == self.width(),
    {
        self.width_bits
    }

    /// Storage class of the state.
    pub fn storage(&self) -> (storage: StateStorage)
        ensures
            storage == self.class(),
    {
        match self.value {
            ErasedStateValue::U128(_) => StateStorage::U128,
            ErasedStateValue::U256(_) => StateStorage::U256,
            ErasedStateValue::U1024(_) => StateStorage::U1024,
            ErasedStateValue::U4096(_) => StateStorage::U4096,
            ErasedStateValue::U16384(_) => StateStorage::U16384,
        }
    }

    /// The state as an integer of any size.
    pub fn to_biguint(&self) -> (integer: BigUint)
        ensures
            bigint::number(integer) == self.number(),
    {
        match self.value {
            ErasedStateValue::U128(value) => bigint::from_u128(value),
            ErasedStateValue::U256(value) => state_to_biguint(value),
            ErasedStateValue::U1024(value) => state_to_biguint(value),
            ErasedStateValue::U4096(value) => state_to_biguint(value),
            ErasedStateValue::U16384(value) => state_to_biguint(value),
        }
    }

    /// The state as a decimal string.
    pub fn to_decimal(&self) -> (text: String)
        ensures
            text@ == bigint::decimal_text(self.number()),
    {
        bigint::format_decimal(&self.to_biguint())
    }
}

/// Whether a number is refused for a width with this error.
pub open spec fn number_refused(width: usize, number: nat, error: QmbedError) -> bool {
    if number >= pow2(width as nat) {
        error matches QmbedError::UnsupportedBackend(Reason::IntegerTooWide { bits, width: requested }) && {
            &&& requested == width
            &&& bits > 0
            &&& pow2((bits - 1) as nat) <= number < pow2(bits as nat)
        }
    } else if width == 0 {
        error == QmbedError::InvalidSector(Reason::Text("a basis state needs at least one bit"))
    } else {
        &&& width > 16384
        &&& error == QmbedError::UnsupportedBackend(Reason::Text("basis state requires more than 16384 bits"))
    }
}

/// The two lowest words as a packed word.
fn low_words(words: &Vec<u64>) -> (word: u128)
    requires
        wide::value_of(words@) <= u128::MAX,
        words@.len() > 0 ==> words@.last() != 0,
    ensures
        word == wide::value_of(words@),
{
    proof {
        if words@.len() > 2 {
            bigint::lemma_highest_word(words@);
            bits::lemma_pow2_128();
            let top = (64 * (words@.len() - 1)) as nat;
            if top > 128 {
                lemma_pow2_strictly_increases(128, top);
            }
        }
        wide::lemma_low_words(words@);
    }
    let low: u128 = if words.len() > 0 {
        words[0] as u128
    } else {
        0
    };
    let high: u128 = if words.len() > 1 {
        words[1] as u128
    } else {
        0
    };
    low + high * 0x1_0000_0000_0000_0000
}

/// Naming a state in decimal and reading the name gives the state back.
pub proof fn law_decimal_names_state(state: ErasedState, restored: ErasedState)
    requires
        state.wf(),
        restored.wf(),
        restored.width() == state.width(),
        restored.number() == bigint::decimal_value(
            bigint::decimal_body(bigint::decimal_text(state.number())),
        ),
    ensures
        restored == state,
{
    bigint::law_decimal_round_trip(state.number());
    ErasedState::law_number_identifies(restored, state);
}

/// Digits below a width that decide a number below it.
proof fn lemma_below_width(value: nat, capacity: nat, width: nat)
    requires
        width <= capacity,
        value < pow2(capacity),
        forall|i: nat| width <= i < capacity ==> !(#[trigger] bits::bit_at(value, i)),
    ensures
        value < pow2(width),
{
    let low = value % pow2(width);
    lemma_pow2_pos(width);
    lemma_mod_bound(value as int, pow2(width) as int);
    if width < capacity {
        lemma_pow2_strictly_increases(width, capacity);
    }
    assert forall|i: nat| i < capacity implies #[trigger] bits::bit_at(value, i) == bits::bit_at(
        low,
        i,
    ) by {
        if i < width {
            digits::lemma_power_two(width);
            digits::lemma_power_two(i);
            lattice::lemma_digit_parts(value, width, 2, i);
        } else {
            bits::lemma_no_digit_beyond(low, width, i);
        }
    }
    wide::lemma_bits_identify(value, low, capacity);
}

impl ErasedState {
    /// The refusal of a pair of states of different width.
    fn ensure_compatible(&self, right: &Self) -> (result: Result<()>)
        ensures
            match result {
                Ok(_) => self.width() == right.width() && self.class() == right.class(),
                Err(error) => {
                    &&& self.width() != right.width() || self.class() != right.class()
                    &&& error == QmbedError::DimensionMismatch(
                        Reason::Text("bitwise basis states must have the same logical width"),
                    )
                },
            },
    {
        if self.width_bits != right.width_bits || self.storage() != right.storage() {
            return Err(
                QmbedError::DimensionMismatch(
                    Reason::Text("bitwise basis states must have the same logical width"),
                ),
            );
        }
        Ok(())
    }

    /// The lowest `width` bits of a stored value.
    fn remask(width_bits: usize, value: ErasedStateValue) -> (state: Self)
        requires
            0 < width_bits <= 16384,
            value.class() == storage_for(width_bits as nat),
        ensures
            state.wf(),
            state.width() == width_bits,
            state.number() == value.number() % pow2(width_bits as nat),
    {
        let ghost w = width_bits as nat;
        proof {
            lemma_pow2_pos(w);
            lemma_mod_bound(value.number() as int, pow2(w) as int);
            bits::lemma_pow2_128();
        }
        let masked: ErasedStateValue = match value {
            ErasedStateValue::U128(word) => {
                if width_bits == 128 {
                    proof {
                        lemma_small_mod(word as nat, pow2(128));
                    }
                    ErasedStateValue::U128(word)
                } else {
                    proof {
                        bits::lemma_shl_one(width_bits as u32);
                    }
                    ErasedStateValue::U128(word % (1u128 << width_bits))
                }
            },
            ErasedStateValue::U256(state) => {
                proof {
                    lemma_mask_by_shifts(state.value(), w, 256);
                }
                let spare: usize = 256 - width_bits;
                ErasedStateValue::U256(state.left_shift(spare).right_shift(spare))
            },
            ErasedStateValue::U1024(state) => {
                proof {
                    lemma_mask_by_shifts(state.value(), w, 1024);
                }
                let spare: usize = 1024 - width_bits;
                ErasedStateValue::U1024(state.left_shift(spare).right_shift(spare))
            },
            ErasedStateValue::U4096(state) => {
                proof {
                    lemma_mask_by_shifts(state.value(), w, 4096);
                }
                let spare: usize = 4096 - width_bits;
                ErasedStateValue::U4096(state.left_shift(spare).right_shift(spare))
            },
            ErasedStateValue::U16384(state) => {
                proof {
                    lemma_mask_by_shifts(state.value(), w, 16384);
                }
                let spare: usize = 16384 - width_bits;
                ErasedStateValue::U16384(state.left_shift(spare).right_shift(spare))
            },
        };
        ErasedState { width_bits, value: masked }
    }

    /// The bits set in both states.
    pub fn bitwise_and(&self, right: &Self) -> (result: Result<Self>)
        requires
            self.wf(),
            right.wf(),
        ensures
            match result {
                Ok(state) => {
                    &&& self.width() == right.width()
                    &&& state.wf()
                    &&& state.width() == self.width()
                    &&& forall|i: nat| #[trigger]
                        bits::bit_at(state.number(), i) == (bits::bit_at(self.number(), i)
                            && bits::bit_at(right.number(), i))
                },
                Err(error) => {
                    &&& self.width() != right.width()
                    &&& error == QmbedError::DimensionMismatch(
                        Reason::Text("bitwise basis states must have the same logical width"),
                    )
                },
            },
    {
        if let Err(error) = self.ensure_compatible(right) {
            return Err(error);
        }
        let value: ErasedStateValue = match (self.value, right.value) {
            (ErasedStateValue::U128(a), ErasedStateValue::U128(b)) => {
                ErasedStateValue::U128(a & b)
            },
            (ErasedStateValue::U256(a), ErasedStateValue::U256(b)) => {
                ErasedStateValue::U256(a.bitwise_and(b))
            },
            (ErasedStateValue::U1024(a), ErasedStateValue::U1024(b)) => {
                ErasedStateValue::U1024(a.bitwise_and(b))
            },
            (ErasedStateValue::U4096(a), ErasedStateValue::U4096(b)) => {
                ErasedStateValue::U4096(a.bitwise_and(b))
            },
            (ErasedStateValue::U16384(a), ErasedStateValue::U16384(b)) => {
                ErasedStateValue::U16384(a.bitwise_and(b))
            },
            _ => self.value,
        };
        proof {
            value.lemma_bound();
            bits::lemma_pow2_128();
            assert forall|i: nat| #[trigger] bits::bit_at(value.number(), i) == (bits::bit_at(
                self.number(),
                i,
            ) && bits::bit_at(right.number(), i)) by {
                match (self.value, right.value) {
                    (ErasedStateValue::U128(a), ErasedStateValue::U128(b)) => {
                        if i < 128 {
                            bits::lemma_combined_digits(a, b, i);
                        } else {
                            bits::lemma_no_digit_beyond(a as nat, 128, i);
                            bits::lemma_no_digit_beyond((a & b) as nat, 128, i);
                        }
                    },
                    _ => {},
                }
            }
            assert forall|i: nat| self.width() <= i < value.class().capacity() implies !(
            #[trigger] bits::bit_at(value.number(), i)) by {
                bits::lemma_no_digit_beyond(self.number(), self.width(), i);
            }
            lemma_below_width(value.number(), value.class().capacity(), self.width());
        }
        Ok(ErasedState { width_bits: self.width_bits, value })
    }

    /// The bits set in either state.
    pub fn bitwise_or(&self, right: &Self) -> (result: Result<Self>)
        requires
            self.wf(),
            right.wf(),
        ensures
            match result {
                Ok(state) => {
                    &&& self.width() == right.width()
                    &&& state.wf()
                    &&& state.width() == self.width()
                    &&& forall|i: nat| #[trigger]
                        bits::bit_at(state.number(), i) == (bits::bit_at(self.number(), i)
                            || bits::bit_at(right.number(), i))
                },
                Err(error) => {
                    &&& self.width() != right.width()
                    &&& error == QmbedError::DimensionMismatch(
                        Reason::Text("bitwise basis states must have the same logical width"),
                    )
                },
            },
    {
        if let Err(error) = self.ensure_compatible(right) {
            return Err(error);
        }
        let value: ErasedStateValue = match (self.value, right.value) {
            (ErasedStateValue::U128(a), ErasedStateValue::U128(b)) => {
                ErasedStateValue::U128(a | b)
            },
            (ErasedStateValue::U256(a), ErasedStateValue::U256(b)) => {
                ErasedStateValue::U256(a.bitwise_or(b))
            },
            (ErasedStateValue::U1024(a), ErasedStateValue::U1024(b)) => {
                ErasedStateValue::U1024(a.bitwise_or(b))
            },
            (ErasedStateValue::U4096(a), ErasedStateValue::U4096(b)) => {
                ErasedStateValue::U4096(a.bitwise_or(b))
            },
            (ErasedStateValue::U16384(a), ErasedStateValue::U16384(b)) => {
                ErasedStateValue::U16384(a.bitwise_or(b))
            },
            _ => self.value,
        };
        proof {
            value.lemma_bound();
            bits::lemma_pow2_128();
            assert forall|i: nat| #[trigger] bits::bit_at(value.number(), i) == (bits::bit_at(
                self.number(),
                i,
            ) || bits::bit_at(right.number(), i)) by {
                match (self.value, right.value) {
                    (ErasedStateValue::U128(a), ErasedStateValue::U128(b)) => {
                        if i < 128 {
                            bits::lemma_combined_digits(a, b, i);
                        } else {
                            bits::lemma_no_digit_beyond(a as nat, 128, i);
                            bits::lemma_no_digit_beyond(b as nat, 128, i);
                            bits::lemma_no_digit_beyond((a | b) as nat, 128, i);
                        }
                    },
                    _ => {},
                }
            }
            assert forall|i: nat| self.width() <= i < value.class().capacity() implies !(
            #[trigger] bits::bit_at(value.number(), i)) by {
                bits::lemma_no_digit_beyond(self.number(), self.width(), i);
                bits::lemma_no_digit_beyond(right.number(), self.width(), i);
            }
            lemma_below_width(value.number(), value.class().capacity(), self.width());
        }
        Ok(ErasedState { width_bits: self.width_bits, value })
    }

    /// The bits set in one state only.
    pub fn bitwise_xor(&self, right: &Self) -> (result: Result<Self>)
        requires
            self.wf(),
            right.wf(),
        ensures
            match result {
                Ok(state) => {
                    &&& self.width() == right.width()
                    &&& state.wf()
                    &&& state.width() == self.width()
                    &&& forall|i: nat| #[trigger]
                        bits::bit_at(state.number(), i) == (bits::bit_at(self.number(), i)
                            != bits::bit_at(right.number(), i))
                },
                Err(error) => {
                    &&& self.width() != right.width()
                    &&& error == QmbedError::DimensionMismatch(
                        Reason::Text("bitwise basis states must have the same logical width"),
                    )
                },
            },
    {
        if let Err(error) = self.ensure_compatible(right) {
            return Err(error);
        }
        let value: ErasedStateValue = match (self.value, right.value) {
            (ErasedStateValue::U128(a), ErasedStateValue::U128(b)) => {
                ErasedStateValue::U128(a ^ b)
            },
            (ErasedStateValue::U256(a), ErasedStateValue::U256(b)) => {
                ErasedStateValue::U256(a.bitwise_xor(b))
            },
            (ErasedStateValue::U1024(a), ErasedStateValue::U1024(b)) => {
                ErasedStateValue::U1024(a.bitwise_xor(b))
            },
            (ErasedStateValue::U4096(a), ErasedStateValue::U4096(b)) => {
                ErasedStateValue::U4096(a.bitwise_xor(b))
            },
            (ErasedStateValue::U16384(a), ErasedStateValue::U16384(b)) => {
                ErasedStateValue::U16384(a.bitwise_xor(b))
            },
            _ => self.value,
        };
        proof {
            value.lemma_bound();
            bits::lemma_pow2_128();
            assert forall|i: nat| #[trigger] bits::bit_at(value.number(), i) == (bits::bit_at(
                self.number(),
                i,
            ) != bits::bit_at(right.number(), i)) by {
                match (self.value, right.value) {
                    (ErasedStateValue::U128(a), ErasedStateValue::U128(b)) => {
                        if i < 128 {
                            bits::lemma_combined_digits(a, b, i);
                        } else {
                            bits::lemma_no_digit_beyond(a as nat, 128, i);
                            bits::lemma_no_digit_beyond(b as nat, 128, i);
                            bits::lemma_no_digit_beyond((a ^ b) as nat, 128, i);
                        }
                    },
                    _ => {},
                }
            }
            assert forall|i: nat| self.width() <= i < value.class().capacity() implies !(
            #[trigger] bits::bit_at(value.number(), i)) by {
                bits::lemma_no_digit_beyond(self.number(), self.width(), i);
                bits::lemma_no_digit_beyond(right.number(), self.width(), i);
            }
            lemma_below_width(value.number(), value.class().capacity(), self.width());
        }
        Ok(ErasedState { width_bits: self.width_bits, value })
    }

    /// The bits of the logical width that are not set.
    pub fn bitwise_not(&self) -> (result: Result<Self>)
        requires
            self.wf(),
        ensures
            result is Ok,
            result->Ok_0.wf(),
            result->Ok_0.width() == self.width(),
            result->Ok_0.number() == pow2(self.width()) - 1 - self.number(),
    {
        let value: ErasedStateValue = match self.value {
            ErasedStateValue::U128(word) => ErasedStateValue::U128(u128::MAX - word),
            ErasedStateValue::U256(state) => ErasedStateValue::U256(state.bitwise_not()),
            ErasedStateValue::U1024(state) => ErasedStateValue::U1024(state.bitwise_not()),
            ErasedStateValue::U4096(state) => ErasedStateValue::U4096(state.bitwise_not()),
            ErasedStateValue::U16384(state) => ErasedStateValue::U16384(state.bitwise_not()),
        };
        proof {
            let capacity = value.class().capacity();
            value.lemma_bound();
            self.value.lemma_bound();
            bits::lemma_pow2_128();
            match self.value {
                ErasedStateValue::U128(_) => {},
                _ => {
                    lemma_complement(self.number(), value.number(), capacity);
                },
            }
            lemma_masked_complement(self.number(), capacity, self.width());
        }
        Ok(Self::remask(self.width_bits, value))
    }

    /// The bits moved up within the logical width.
    pub fn left_shift(&self, shift: usize) -> (result: Result<Self>)
        requires
            self.wf(),
        ensures
            result is Ok,
            result->Ok_0.wf(),
            result->Ok_0.width() == self.width(),
            result->Ok_0.number() == (self.number() * pow2(shift as nat)) % pow2(self.width()),
    {
        let value: ErasedStateValue = match self.value {
            ErasedStateValue::U128(word) => ErasedStateValue::U128(shift_word_up(word, shift)),
            ErasedStateValue::U256(state) => ErasedStateValue::U256(state.left_shift(shift)),
            ErasedStateValue::U1024(state) => ErasedStateValue::U1024(state.left_shift(shift)),
            ErasedStateValue::U4096(state) => ErasedStateValue::U4096(state.left_shift(shift)),
            ErasedStateValue::U16384(state) => ErasedStateValue::U16384(state.left_shift(shift)),
        };
        proof {
            let capacity = value.class().capacity();
            let whole = self.number() * pow2(shift as nat);
            assert(value.number() == whole % pow2(capacity));
            lemma_mod_of_mod(whole, self.width(), capacity);
        }
        Ok(Self::remask(self.width_bits, value))
    }

    /// The bits moved down.
    pub fn right_shift(&self, shift: usize) -> (state: Self)
        requires
            self.wf(),
        ensures
            state.wf(),
            state.width() == self.width(),
            state.number() == self.number() / pow2(shift as nat),
    {
        let value: ErasedStateValue = match self.value {
            ErasedStateValue::U128(word) => ErasedStateValue::U128(shift_word_down(word, shift)),
            ErasedStateValue::U256(state) => ErasedStateValue::U256(state.right_shift(shift)),
            ErasedStateValue::U1024(state) => ErasedStateValue::U1024(state.right_shift(shift)),
            ErasedStateValue::U4096(state) => ErasedStateValue::U4096(state.right_shift(shift)),
            ErasedStateValue::U16384(state) => ErasedStateValue::U16384(state.right_shift(shift)),
        };
        proof {
            lemma_pow2_pos(shift as nat);
            lemma_div_nonincreasing(self.number() as int, pow2(shift as nat) as int);
        }
        ErasedState { width_bits: self.width_bits, value }
    }
}

/// A remainder modulo a larger power of two keeps the smaller remainder.
proof fn lemma_mod_of_mod(value: nat, width: nat, capacity: nat)
    requires
        width <= capacity,
    ensures
        (value % pow2(capacity)) % pow2(width) == value % pow2(width),
{
    let p = pow2(width) as int;
    let e = (capacity - width) as nat;
    lemma_pow2_adds(width, e);
    lemma_pow2_pos(width);
    lemma_pow2_pos(e);
    lemma_mod_mod(value as int, p, pow2(e) as int);
}

/// Moving up and down again keeps the low bits.
proof fn lemma_mask_by_shifts(value: nat, width: nat, capacity: nat)
    requires
        width <= capacity,
    ensures
        ((value * pow2((capacity - width) as nat)) % pow2(capacity)) / pow2(
            (capacity - width) as nat,
        ) == value % pow2(width),
{
    let e = (capacity - width) as nat;
    let q = pow2(e) as int;
    let p = pow2(width) as int;
    let v = value as int;
    lemma_pow2_pos(e);
    lemma_pow2_pos(width);
    lemma_pow2_adds(width, e);
    lemma_fundamental_div_mod(v, p);
    lemma_mod_bound(v, p);
    let r = v % p;
    assert(v * q == (v / p) * (p * q) + r * q && 0 <= r * q < p * q) by (nonlinear_arith)
        requires
            v == p * (v / p) + r,
            0 <= r < p,
            q > 0,
    ;
    lemma_fundamental_div_mod_converse(v * q, p * q, v / p, r * q);
    lemma_div_by_multiple(r, q);
}

/// The complement within a width, digit by digit, is the complement as a number.
proof fn lemma_complement(value: nat, other: nat, width: nat)
    requires
        value < pow2(width),
        other < pow2(width),
        forall|i: nat| i < width ==> #[trigger] bits::bit_at(other, i) == !bits::bit_at(value, i),
    ensures
        other == pow2(width) - 1 - value,
    decreases width,
{
    lemma2_to64();
    if width > 0 {
        let d = (width - 1) as nat;
        lemma_pow2_unfold(width);
        assert forall|i: nat| i < d implies #[trigger] bits::bit_at(other / 2, i) == !bits::bit_at(
            value / 2,
            i,
        ) by {
            lemma_pow2_pos(i);
            lemma_pow2_unfold(i + 1);
            lemma_div_denominator(other as int, 2, pow2(i) as int);
            lemma_div_denominator(value as int, 2, pow2(i) as int);
            assert(bits::bit_at(other, i + 1) == !bits::bit_at(value, i + 1));
        }
        lemma_complement(value / 2, other / 2, d);
        assert(bits::bit_at(other, 0) == !bits::bit_at(value, 0));
        assert(other / 1 == other && value / 1 == value);
    }
}

/// The complement of a narrow number, cut to its width.
proof fn lemma_masked_complement(value: nat, capacity: nat, width: nat)
    requires
        width <= capacity,
        value < pow2(width),
    ensures
        pow2(capacity) - 1 - value >= 0,
        (pow2(capacity) - 1 - value) as nat % pow2(width) == pow2(width) - 1 - value,
{
    let e = (capacity - width) as nat;
    let p = pow2(width) as int;
    let q = pow2(e) as int;
    lemma_pow2_adds(width, e);
    lemma_pow2_pos(width);
    lemma_pow2_pos(e);
    assert(pow2(capacity) - 1 - value == (q - 1) * p + (p - 1 - value) && p * q >= p)
        by (nonlinear_arith)
        requires
            pow2(capacity) as int == p * q,
            q >= 1,
            p > 0,
    ;
    lemma_fundamental_div_mod_converse(pow2(capacity) - 1 - value, p, q - 1, p - 1 - value);
}

/// A packed word moved up, bits beyond its width dropped.
fn shift_word_up(word: u128, shift: usize) -> (result: u128)
    ensures
        result == (word * pow2(shift as nat)) % pow2(128) as int,
{
    proof {
        bits::lemma_pow2_128();
    }
    if shift >= 128 {
        proof {
            let e = (shift - 128) as nat;
            lemma_pow2_adds(e, 128);
            assert(word * pow2(shift as nat) == (word * pow2(e)) * pow2(128)) by (nonlinear_arith)
                requires
                    pow2(shift as nat) == pow2(e) * pow2(128),
            ;
            lemma_mod_multiples_basic(word * pow2(e), pow2(128) as int);
        }
        return 0;
    }
    let kept: usize = 128 - shift;
    if shift == 0 {
        proof {
            lemma2_to64();
            lemma_mul_basics(word as int);
            lemma_small_mod(word as nat, pow2(128));
        }
        return word;
    }
    proof {
        let s = shift as nat;
        let k = kept as nat;
        bits::lemma_shl_one(shift as u32);
        bits::lemma_shl_one(kept as u32);
        lemma_pow2_adds(k, s);
        lemma_pow2_pos(k);
        lemma_pow2_pos(s);
        let w = word as int;
        let p = pow2(k) as int;
        let q = pow2(s) as int;
        lemma_fundamental_div_mod(w, p);
        lemma_mod_bound(w, p);
        let r = w % p;
        assert(w * q == (w / p) * (p * q) + r * q && 0 <= r * q < p * q) by (nonlinear_arith)
            requires
                w == p * (w / p) + r,
                0 <= r < p,
                q > 0,
        ;
        lemma_fundamental_div_mod_converse(w * q, p * q, w / p, r * q);
    }
    (word % (1u128 << kept)) * (1u128 << shift)
}

/// A packed word moved down.
fn shift_word_down(word: u128, shift: usize) -> (result: u128)
    ensures
        result == word as nat / pow2(shift as nat),
{
    proof {
        bits::lemma_pow2_128();
    }
    if shift >= 128 {
        proof {
            if shift > 128 {
                lemma_pow2_strictly_increases(128, shift as nat);
            }
            lemma_basic_div(word as int, pow2(shift as nat) as int);
        }
        return 0;
    }
    proof {
        bits::lemma_shl_one(shift as u32);
        lemma_pow2_pos(shift as nat);
    }
    word / (1u128 << shift)
}

impl Ranked for ErasedState {
    open spec fn rank(self) -> int {
        ((self.width() * 5 + storage_rank(self.class())) * pow2(16384) + self.number()) as int
    }

    fn at_most(&self, other: &Self) -> (answer: bool) {
        proof {
            self.value.lemma_bound();
            other.value.lemma_bound();
            let a = self.width() * 5 + storage_rank(self.class());
            let b = other.width() * 5 + storage_rank(other.class());
            let p = pow2(16384) as int;
            let x = self.number() as int;
            let y = other.number() as int;
            assert(a < b ==> a * p + x < b * p + y) by (nonlinear_arith)
                requires
                    0 <= x < p,
                    0 <= y < p,
            ;
            assert(b < a ==> b * p + y < a * p + x) by (nonlinear_arith)
                requires
                    0 <= x < p,
                    0 <= y < p,
            ;
        }
        if self.width_bits != other.width_bits {
            return self.width_bits < other.width_bits;
        }
        match (self.value, other.value) {
            (ErasedStateValue::U128(a), ErasedStateValue::U128(b)) => a <= b,
            (ErasedStateValue::U256(a), ErasedStateValue::U256(b)) => a.at_most(&b),
            (ErasedStateValue::U1024(a), ErasedStateValue::U1024(b)) => a.at_most(&b),
            (ErasedStateValue::U4096(a), ErasedStateValue::U4096(b)) => a.at_most(&b),
            (ErasedStateValue::U16384(a), ErasedStateValue::U16384(b)) => a.at_most(&b),
            _ => self.storage().capacity_bits() <= other.storage().capacity_bits(),
        }
    }
}

impl Coded for ErasedState {
    proof fn rank_identifies(left: Self, right: Self) {
        left.value.lemma_bound();
        right.value.lemma_bound();
        let p = pow2(16384) as int;
        let a = (left.width() * 5 + storage_rank(left.class())) as int;
        let b = (right.width() * 5 + storage_rank(right.class())) as int;
        lemma_pow2_pos(16384);
        lemma_fundamental_div_mod_converse(left.rank(), p, a, left.number() as int);
        lemma_fundamental_div_mod_converse(right.rank(), p, b, right.number() as int);
        assert(left.width() == right.width());
        assert(left.class() == right.class());
        ErasedState::law_number_identifies(left, right);
    }
}

impl ErasedState {
    /// The bits as they are stored.
    pub(crate) fn stored(&self) -> (value: ErasedStateValue)
        ensures
            value.number() == self.number(),
            value.class() == self.class(),
    {
        self.value
    }

    /// A state of a width from stored bits.
    pub(crate) fn from_stored(width_bits: usize, value: ErasedStateValue) -> (state: Self)
        ensures
            state.width() == width_bits,
            state.number() == value.number(),
            state.class() == value.class(),
    {
        ErasedState { width_bits, value }
    }
}

impl Bounded for ErasedState {
    open spec fn rank_limit() -> nat {
        ((usize::MAX * 5 + 5) * pow2(16384)) as nat
    }

    proof fn rank_bounded(item: Self) {
        item.value.lemma_bound();
        let label = item.width() * 5 + storage_rank(item.class());
        let p = pow2(16384) as int;
        let x = item.number() as int;
        assert(0 <= label * p + x < (usize::MAX * 5 + 5) * p) by (nonlinear_arith)
            requires
                0 <= label < usize::MAX * 5 + 5,
                0 <= x < p,
        ;
    }
}

/// The state of a width and storage class with a given number.
pub open spec fn state_of(width: nat, class: StateStorage, number: nat) -> ErasedState {
    choose|state: ErasedState|
        state.width() == width && state.class() == class && #[trigger] state.number() == number
}

/// A state is the one with its width, storage class and number.
pub proof fn lemma_state_of(state: ErasedState)
    ensures
        state_of(state.width(), state.class(), state.number()) == state,
{
    let found = state_of(state.width(), state.class(), state.number());
    ErasedState::law_number_identifies(found, state);
}

} // verus!

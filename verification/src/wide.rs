//! Fixed-width states of many machine words.

use vstd::arithmetic::div_mod::*;
use vstd::arithmetic::mul::*;
use vstd::arithmetic::power2::*;
use vstd::prelude::*;

use crate::bits;
use crate::digits;
use crate::error::{QmbedError, Reason, Result};
use crate::lattice;
use crate::ordered::{Bounded, Coded, Ranked};

verus! {

/// The number whose digits in base `2^64` are the words, the lowest first.
pub open spec fn value_of(words: Seq<u64>) -> nat
    decreases words.len(),
{
    if words.len() == 0 {
        0
    } else {
        value_of(words.drop_last()) + words.last() as nat * pow2((64 * (words.len() - 1)) as nat)
    }
}

pub proof fn lemma_value_bound(words: Seq<u64>)
    ensures
        value_of(words) < pow2(64 * words.len()),
    decreases words.len(),
{
    lemma2_to64();
    if words.len() > 0 {
        let d = (words.len() - 1) as nat;
        lemma_value_bound(words.drop_last());
        lemma_pow2_adds(64 * d, 64);
        let p = pow2(64 * d);
        let w = words.last() as nat;
        assert(value_of(words.drop_last()) + w * p < p * 0x1_0000_0000_0000_0000)
            by (nonlinear_arith)
            requires
                value_of(words.drop_last()) < p,
                w <= 0xffff_ffff_ffff_ffff,
        ;
    }
}

/// The words below and above a place.
pub proof fn lemma_value_split(words: Seq<u64>, place: int)
    requires
        0 <= place <= words.len(),
    ensures
        value_of(words) == value_of(words.take(place)) + pow2((64 * place) as nat) * value_of(
            words.skip(place),
        ),
    decreases words.len(),
{
    if place == words.len() {
        assert(words.take(place) =~= words);
        assert(words.skip(place) =~= Seq::empty());
        lemma_mul_by_zero_is_zero(pow2((64 * place) as nat) as int);
    } else {
        let d = words.len() - 1;
        lemma_value_split(words.drop_last(), place);
        assert(words.drop_last().take(place) =~= words.take(place));
        assert(words.drop_last().skip(place) =~= words.skip(place).drop_last());
        assert(words.skip(place).last() == words.last());
        let p = pow2((64 * place) as nat);
        let q = pow2((64 * (d - place)) as nat);
        lemma_pow2_adds((64 * place) as nat, (64 * (d - place)) as nat);
        let rest = value_of(words.skip(place).drop_last());
        let w = words.last() as nat;
        assert(p * rest + w * (p * q) == p * (rest + w * q)) by (nonlinear_arith);
    }
}

/// The value above a place, with the word at that place in its low digits.
pub proof fn lemma_word_at(words: Seq<u64>, place: int)
    requires
        0 <= place < words.len(),
    ensures
        value_of(words) / pow2((64 * place) as nat) == words[place] + pow2(64) * value_of(
            words.skip(place + 1),
        ),
{
    let p = pow2((64 * place) as nat) as int;
    let low = value_of(words.take(place));
    let rest = words.skip(place);
    lemma_value_split(words, place);
    lemma_value_bound(words.take(place));
    lemma_pow2_pos((64 * place) as nat);
    lemma_value_split(rest, 1);
    assert(rest.skip(1) =~= words.skip(place + 1));
    assert(value_of(rest.take(1)) == words[place]) by {
        let single = rest.take(1);
        assert(single.drop_last() =~= Seq::<u64>::empty());
        assert(single.last() == words[place]);
        assert(value_of(Seq::<u64>::empty()) == 0);
        lemma2_to64();
        assert(pow2((64 * (single.len() - 1)) as nat) == 1);
        lemma_mul_basics(words[place] as int);
    }
    let high = value_of(rest) as int;
    assert(value_of(words) as int == high * p + low) by {
        lemma_mul_is_commutative(p, high);
    }
    lemma_fundamental_div_mod_converse(value_of(words) as int, p, high, low as int);
}

/// Binary digits of the value are the digits of its words.
pub proof fn lemma_value_bit(words: Seq<u64>, index: nat)
    ensures
        bits::bit_at(value_of(words), index) == (index < 64 * words.len() && bits::bit_at(
            words[index as int / 64] as nat,
            index % 64,
        )),
{
    lemma_value_bound(words);
    if index >= 64 * words.len() {
        if index > 64 * words.len() {
            lemma_pow2_strictly_increases(64 * words.len(), index);
        }
        lemma_basic_div(value_of(words) as int, pow2(index) as int);
    } else {
        let place = index as int / 64;
        let offset = index % 64;
        let w = words[place] as int;
        let h = value_of(words.skip(place + 1)) as int;
        lemma_word_at(words, place);
        lemma_pow2_adds((64 * place) as nat, offset);
        lemma_pow2_pos((64 * place) as nat);
        lemma_pow2_pos(offset);
        lemma_div_denominator(
            value_of(words) as int,
            pow2((64 * place) as nat) as int,
            pow2(offset) as int,
        );
        let q = pow2(offset) as int;
        let e = (63 - offset) as nat;
        lemma_pow2_adds(offset, e + 1);
        lemma_pow2_unfold(e + 1);
        let r = pow2(e) as int;
        assert(w + pow2(64) * h == q * (2 * (r * h)) + w) by (nonlinear_arith)
            requires
                pow2(64) as int == q * (2 * r),
        ;
        lemma_div_plus_multiple(w, 2 * (r * h), q);
        lemma_mod_multiples_vanish(r * h, w / q, 2);
    }
}

proof fn lemma_div_plus_multiple(x: int, turns: int, d: int)
    requires
        d > 0,
        x >= 0,
    ensures
        (d * turns + x) / d == turns + x / d,
{
    lemma_fundamental_div_mod(x, d);
    lemma_mod_bound(x, d);
    assert(d * turns + x == (turns + x / d) * d + x % d) by (nonlinear_arith)
        requires
            x == d * (x / d) + x % d,
    ;
    lemma_fundamental_div_mod_converse(d * turns + x, d, turns + x / d, x % d);
}

/// Numbers with the same binary digits are the same.
pub proof fn lemma_bits_identify(left: nat, right: nat, width: nat)
    requires
        left < pow2(width),
        right < pow2(width),
        forall|i: nat|
            i < width ==> #[trigger] bits::bit_at(left, i) == bits::bit_at(right, i),
    ensures
        left == right,
{
    digits::lemma_power_two(width);
    assert forall|site: nat| site < width implies #[trigger] digits::digit(left, 2, site)
        == digits::digit(right, 2, site) by {
        digits::lemma_power_two(site);
        assert(bits::bit_at(left, site) == bits::bit_at(right, site));
    }
    lattice::lemma_digits_identify(left, right, width, 2);
}

/// Equal values of equally many words are equal word by word.
pub proof fn lemma_value_identifies(left: Seq<u64>, right: Seq<u64>)
    requires
        left.len() == right.len(),
        value_of(left) == value_of(right),
    ensures
        left == right,
    decreases left.len(),
{
    if left.len() > 0 {
        let d = (left.len() - 1) as nat;
        let p = pow2(64 * d) as int;
        lemma_value_bound(left.drop_last());
        lemma_value_bound(right.drop_last());
        lemma_fundamental_div_mod_converse(
            value_of(left) as int,
            p,
            left.last() as int,
            value_of(left.drop_last()) as int,
        );
        lemma_fundamental_div_mod_converse(
            value_of(right) as int,
            p,
            right.last() as int,
            value_of(right.drop_last()) as int,
        );
        lemma_value_identifies(left.drop_last(), right.drop_last());
        assert(left =~= left.drop_last().push(left.last()));
        assert(right =~= right.drop_last().push(right.last()));
    }
}

/// Replacing one word changes the value by that digit.
pub proof fn lemma_value_update(words: Seq<u64>, place: int, word: u64)
    requires
        0 <= place < words.len(),
    ensures
        value_of(words.update(place, word)) == value_of(words) + (word - words[place]) * pow2(
            (64 * place) as nat,
        ),
    decreases words.len(),
{
    let changed = words.update(place, word);
    let p = pow2((64 * place) as nat) as int;
    if place == words.len() - 1 {
        assert(changed.drop_last() =~= words.drop_last());
        assert(word * p == (word - words[place]) * p + words[place] * p) by (nonlinear_arith);
    } else {
        assert(changed.drop_last() =~= words.drop_last().update(place, word));
        lemma_value_update(words.drop_last(), place, word);
    }
}

/// Ones of the value are the ones of its words.
pub open spec fn ones_of(words: Seq<u64>) -> nat
    decreases words.len(),
{
    if words.len() == 0 {
        0
    } else {
        ones_of(words.drop_last()) + bits::ones(words.last() as nat)
    }
}

pub proof fn lemma_ones_of(words: Seq<u64>)
    ensures
        bits::ones(value_of(words)) == ones_of(words),
    decreases words.len(),
{
    if words.len() > 0 {
        let d = (words.len() - 1) as nat;
        lemma_ones_of(words.drop_last());
        lemma_value_bound(words.drop_last());
        bits::lemma_ones_split(words.last() as nat, value_of(words.drop_last()), 64 * d);
    }
}

/// The digit of one machine word.
proof fn lemma_word_bit(word: u64, offset: u64)
    requires
        offset < 64,
    ensures
        bits::bit_at(word as nat, offset as nat) == ((word >> offset) & 1 == 1),
{
    vstd::bits::lemma_u64_shr_is_div(word, offset);
    let q = word >> offset;
    assert(q & 1 == q % 2) by (bit_vector);
}

/// Storage class of a state of a given width.
#[derive(Clone, Copy, Debug, PartialEq, Eq, Structural)]
pub enum StateStorage {
    U128,
    U256,
    U1024,
    U4096,
    U16384,
}

impl StateStorage {
    /// Width of a storage class.
    pub open spec fn capacity(self) -> nat {
        match self {
            StateStorage::U128 => 128,
            StateStorage::U256 => 256,
            StateStorage::U1024 => 1024,
            StateStorage::U4096 => 4096,
            StateStorage::U16384 => 16384,
        }
    }

    /// The smallest storage class that holds the bits.
    pub fn for_bits(bits: usize) -> (result: Result<Self>)
        ensures
            match result {
                Ok(storage) => {
                    &&& 0 < bits <= storage.capacity()
                    &&& forall|other: StateStorage|
                        bits <= #[trigger] other.capacity() ==> storage.capacity()
                            <= other.capacity()
                },
                Err(error) => {
                    &&& bits == 0 ==> error == QmbedError::InvalidSector(
                        Reason::Text("a basis state needs at least one bit"),
                    )
                    &&& bits != 0 ==> bits > 16384 && error == QmbedError::UnsupportedBackend(
                        Reason::Text("basis state requires more than 16384 bits"),
                    )
                },
            },
    {
        if bits == 0 {
            Err(QmbedError::InvalidSector(Reason::Text("a basis state needs at least one bit")))
        } else if bits <= 128 {
            Ok(StateStorage::U128)
        } else if bits <= 256 {
            Ok(StateStorage::U256)
        } else if bits <= 1024 {
            Ok(StateStorage::U1024)
        } else if bits <= 4096 {
            Ok(StateStorage::U4096)
        } else if bits <= 16384 {
            Ok(StateStorage::U16384)
        } else {
            Err(QmbedError::UnsupportedBackend(Reason::Text("basis state requires more than 16384 bits")))
        }
    }

    /// Width of the storage class.
    pub fn capacity_bits(self) -> (capacity: usize)
        ensures
            capacity == self.capacity(),
    {
        match self {
            StateStorage::U128 => 128,
            StateStorage::U256 => 256,
            StateStorage::U1024 => 1024,
            StateStorage::U4096 => 4096,
            StateStorage::U16384 => 16384,
        }
    }
}

/// Fixed-width state used by wide user and general bases.
#[derive(Clone, Copy, Debug, PartialEq, Eq)]
pub struct WideState<const WORDS: usize> {
    words: [u64; WORDS],
}

impl<const WORDS: usize> WideState<WORDS> {
    /// The words of the state, the lowest first.
    pub closed spec fn spec_words(&self) -> Seq<u64> {
        self.words@
    }

    /// The state as a number.
    pub open spec fn value(&self) -> nat {
        value_of(self.spec_words())
    }

    /// The value fits in the width, and tells states apart.
    pub proof fn lemma_value(&self)
        ensures
            self.spec_words().len() == WORDS,
            self.value() < pow2(64 * WORDS as nat),
    {
        lemma_value_bound(self.words@);
    }

    /// States with the same value are the same state.
    pub proof fn law_value_identifies(left: Self, right: Self)
        requires
            left.value() == right.value(),
        ensures
            left == right,
    {
        lemma_value_identifies(left.words@, right.words@);
        assert(left.words =~= right.words);
    }

    /// The state without any set bit.
    pub fn zero() -> (state: Self)
        ensures
            state.value() == 0,
    {
        let words = [0u64; WORDS];
        proof {
            vstd::array::axiom_spec_array_fill_for_copy_type::<u64, WORDS>(0);
            lemma_zero_words(words@);
        }
        WideState { words }
    }

    /// Number of bits of the state.
    pub fn capacity_bits() -> (capacity: usize)
        requires
            WORDS * 64 <= usize::MAX,
        ensures
            capacity == WORDS * 64,
    {
        WORDS * 64
    }

    /// The state with the given words, the lowest first.
    pub fn from_words(words: [u64; WORDS]) -> (state: Self)
        ensures
            state.spec_words() == words@,
    {
        WideState { words }
    }

    /// The words of the state, the lowest first.
    pub fn words(&self) -> (words: &[u64; WORDS])
        ensures
            words@ == self.spec_words(),
    {
        &self.words
    }

    /// Whether a bit is set.
    pub fn bit(&self, index: usize) -> (result: Result<bool>)
        requires
            WORDS * 64 <= usize::MAX,
        ensures
            match result {
                Ok(set) => index < WORDS * 64 && set == bits::bit_at(self.value(), index as nat),
                Err(error) => {
                    &&& index >= WORDS * 64
                    &&& error == (QmbedError::InvalidSite {
                        site: index,
                        sites: (WORDS * 64) as usize,
                    })
                },
            },
    {
        if index >= WORDS * 64 {
            return Err(QmbedError::InvalidSite { site: index, sites: WORDS * 64 });
        }
        let offset: u64 = (index % 64) as u64;
        proof {
            lemma_value_bit(self.words@, index as nat);
            lemma_word_bit(self.words@[index as int / 64], offset);
        }
        Ok((self.words[index / 64] >> offset) & 1 == 1)
    }

    /// The state with one bit set or cleared.
    pub fn with_bit(self, index: usize, occupied: bool) -> (result: Result<Self>)
        requires
            WORDS * 64 <= usize::MAX,
        ensures
            match result {
                Ok(state) => {
                    &&& index < WORDS * 64
                    &&& state.value() == with_bit_value(self.value(), index as nat, occupied)
                },
                Err(error) => {
                    &&& index >= WORDS * 64
                    &&& error == (QmbedError::InvalidSite {
                        site: index,
                        sites: (WORDS * 64) as usize,
                    })
                },
            },
    {
        if index >= WORDS * 64 {
            return Err(QmbedError::InvalidSite { site: index, sites: WORDS * 64 });
        }
        let offset: u64 = (index % 64) as u64;
        let place: usize = index / 64;
        let word: u64 = self.words[place];
        let mask: u64 = 1u64 << offset;
        let set: bool = (word >> offset) & 1 == 1;
        proof {
            lemma_value_bit(self.words@, index as nat);
            lemma_word_bit(word, offset);
            vstd::bits::lemma_u64_pow2_no_overflow(offset as nat);
            lemma_mul_basics(pow2(offset as nat) as int);
            vstd::bits::lemma_u64_shl_is_mul(1, offset);
            lemma_pow2_adds((64 * place) as nat, offset as nat);
            assert(set ==> (word | mask) == word && (word & !mask) == word - mask) by (bit_vector)
                requires
                    offset < 64,
                    mask == 1u64 << offset,
                    set == ((word >> offset) & 1 == 1),
            ;
            assert(!set ==> (word & !mask) == word && (word | mask) == word + mask) by (bit_vector)
                requires
                    offset < 64,
                    mask == 1u64 << offset,
                    set == ((word >> offset) & 1 == 1),
            ;
        }
        let changed: u64 = if occupied {
            word | mask
        } else {
            word & !mask
        };
        let mut words = self.words;
        words[place] = changed;
        proof {
            lemma_value_update(self.words@, place as int, changed);
            let p = pow2((64 * place) as nat) as int;
            assert(1 * p == p && (-1int) * p == -p && 0 * p == 0) by (nonlinear_arith);
            assert((mask as int) * p == pow2(index as nat)) by {
                lemma_mul_is_commutative(mask as int, p);
            }
            assert((-(mask as int)) * p == -((mask as int) * p)) by (nonlinear_arith);
        }
        Ok(WideState { words })
    }

    /// Number of set bits.
    pub fn count_ones(&self) -> (count: usize)
        requires
            WORDS * 64 <= usize::MAX,
        ensures
            count == bits::ones(self.value()),
    {
        let mut count: usize = 0;
        let mut next: usize = 0;
        while next < WORDS
            invariant
                next <= WORDS,
                self.words@.len() == WORDS,
                WORDS * 64 <= usize::MAX,
                count == ones_of(self.words@.take(next as int)),
                count <= 64 * next,
            decreases WORDS - next,
        {
            let word: u64 = self.words[next];
            proof {
                let wider = self.words@.take(next + 1);
                assert(wider.drop_last() =~= self.words@.take(next as int));
                lemma2_to64();
                bits::lemma_ones_bound(word as nat, 64);
            }
            count = count + word.count_ones() as usize;
            next += 1;
        }
        proof {
            assert(self.words@.take(next as int) =~= self.words@);
            lemma_ones_of(self.words@);
        }
        count
    }

    /// Number of set bits above `index`.
    pub fn count_ones_after(&self, index: usize) -> (count: usize)
        requires
            WORDS * 64 <= usize::MAX,
            index < usize::MAX,
        ensures
            count == bits::ones(self.value() / pow2((index + 1) as nat)),
    {
        if index + 1 >= WORDS * 64 {
            proof {
                lemma_value_bound(self.words@);
                if index + 1 > WORDS * 64 {
                    lemma_pow2_strictly_increases((WORDS * 64) as nat, (index + 1) as nat);
                }
                lemma_basic_div(self.value() as int, pow2((index + 1) as nat) as int);
            }
            return 0;
        }
        let first: usize = (index + 1) / 64;
        let offset: u64 = ((index + 1) % 64) as u64;
        let lead: u64 = self.words[first] >> offset;
        let mut count: usize = lead.count_ones() as usize;
        let mut next: usize = first + 1;
        let ghost rest = self.words@.skip(first + 1);
        proof {
            lemma2_to64();
            bits::lemma_ones_bound(lead as nat, 64);
            assert(rest.take(0) =~= Seq::empty());
        }
        while next < WORDS
            invariant
                first < next <= WORDS,
                self.words@.len() == WORDS,
                WORDS * 64 <= usize::MAX,
                rest == self.words@.skip(first + 1),
                count == bits::ones(lead as nat) + ones_of(rest.take(next - first - 1)),
                count <= 64 * next,
            decreases WORDS - next,
        {
            let word: u64 = self.words[next];
            proof {
                let wider = rest.take(next - first);
                assert(wider.drop_last() =~= rest.take(next - first - 1));
                assert(wider.last() == word);
                lemma2_to64();
                bits::lemma_ones_bound(word as nat, 64);
            }
            count = count + word.count_ones() as usize;
            next += 1;
        }
        proof {
            assert(rest.take(next - first - 1) =~= rest);
            lemma_ones_of(rest);
            lemma_value_above(self.words@, first as int, offset);
            let e = (64 - offset) as nat;
            bits::lemma_ones_split(value_of(rest), lead as nat, e);
        }
        count
    }

    /// Whether any bit from `index` on is set.
    pub fn has_bits_at_or_above(&self, index: usize) -> (answer: bool)
        requires
            WORDS * 64 <= usize::MAX,
        ensures
            answer == (self.value() >= pow2(index as nat)),
    {
        if index >= WORDS * 64 {
            proof {
                lemma_value_bound(self.words@);
                if index > WORDS * 64 {
                    lemma_pow2_strictly_increases((WORDS * 64) as nat, index as nat);
                }
            }
            return false;
        }
        let first: usize = index / 64;
        let offset: u64 = (index % 64) as u64;
        let lead: u64 = self.words[first] >> offset;
        let ghost rest = self.words@.skip(first + 1);
        proof {
            lemma_value_above(self.words@, first as int, offset);
            lemma_pow2_pos(index as nat);
            let p = pow2(index as nat) as int;
            let x = self.value() as int;
            lemma_fundamental_div_mod(x, p);
            lemma_mod_bound(x, p);
            assert((x >= p) == (x / p > 0)) by (nonlinear_arith)
                requires
                    p > 0,
                    x >= 0,
                    x == p * (x / p) + x % p,
                    0 <= x % p < p,
            ;
            lemma_pow2_pos((64 - offset) as nat);
            lemma_mul_nonnegative(value_of(rest) as int, pow2((64 - offset) as nat) as int);
            if value_of(rest) > 0 {
                lemma_mul_strictly_positive(
                    value_of(rest) as int,
                    pow2((64 - offset) as nat) as int,
                );
            } else {
                lemma_mul_basics(pow2((64 - offset) as nat) as int);
            }
        }
        if lead != 0 {
            return true;
        }
        let mut next: usize = first + 1;
        proof {
            assert(rest.take(0) =~= Seq::empty());
        }
        while next < WORDS
            invariant
                first < next <= WORDS,
                self.words@.len() == WORDS,
                rest == self.words@.skip(first + 1),
                value_of(rest.take(next - first - 1)) == 0,
                self.value() >= pow2(index as nat) <==> value_of(rest) > 0,
            decreases WORDS - next,
        {
            let word: u64 = self.words[next];
            proof {
                let wider = rest.take(next - first);
                assert(wider.drop_last() =~= rest.take(next - first - 1));
                assert(wider.last() == word);
                lemma_pow2_pos((64 * (next - first - 1)) as nat);
                if word != 0 {
                    lemma_mul_strictly_positive(
                        word as int,
                        pow2((64 * (next - first - 1)) as nat) as int,
                    );
                    lemma_value_split(rest, next - first);
                    lemma_mul_nonnegative(
                        pow2((64 * (next - first)) as nat) as int,
                        value_of(rest.skip(next - first)) as int,
                    );
                } else {
                    lemma_mul_basics(pow2((64 * (next - first - 1)) as nat) as int);
                }
            }
            if word != 0 {
                return true;
            }
            next += 1;
        }
        proof {
            assert(rest.take(next - first - 1) =~= rest);
        }
        false
    }
}

/// The number with one binary digit set or cleared.
pub open spec fn with_bit_value(value: nat, index: nat, occupied: bool) -> nat {
    if occupied == bits::bit_at(value, index) {
        value
    } else if occupied {
        value + pow2(index)
    } else {
        (value - pow2(index)) as nat
    }
}

pub proof fn lemma_zero_words(words: Seq<u64>)
    requires
        forall|i: int| 0 <= i < words.len() ==> words[i] == 0,
    ensures
        value_of(words) == 0,
    decreases words.len(),
{
    if words.len() > 0 {
        lemma_zero_words(words.drop_last());
        lemma_mul_basics(pow2((64 * (words.len() - 1)) as nat) as int);
    }
}

/// The value above a bit, from the word in which the bit lies.
proof fn lemma_value_above(words: Seq<u64>, place: int, offset: u64)
    requires
        0 <= place < words.len(),
        offset < 64,
    ensures
        value_of(words) / pow2((64 * place + offset) as nat) == value_of(words.skip(place + 1))
            * pow2((64 - offset) as nat) + (words[place] >> offset),
        (words[place] >> offset) < pow2((64 - offset) as nat),
{
    let w = words[place] as int;
    let q = pow2(offset as nat) as int;
    let r = pow2((64 - offset) as nat) as int;
    let h = value_of(words.skip(place + 1)) as int;
    lemma2_to64();
    lemma_pow2_pos(offset as nat);
    lemma_pow2_pos((64 * place) as nat);
    lemma_pow2_adds((64 * place) as nat, offset as nat);
    lemma_pow2_adds(offset as nat, (64 - offset) as nat);
    lemma_div_denominator(value_of(words) as int, pow2((64 * place) as nat) as int, q);
    lemma_word_at(words, place);
    vstd::bits::lemma_u64_shr_is_div(words[place], offset);
    assert(w + pow2(64) * h == q * (h * r) + w) by (nonlinear_arith)
        requires
            pow2(64) as int == q * r,
    ;
    lemma_div_plus_multiple(w, h * r, q);
    lemma_multiply_divide_lt(w, q, r);
}

/// Binary digits of word-wise combinations.
proof fn lemma_combined_words(a: u64, b: u64, offset: u64)
    requires
        offset < 64,
    ensures
        bits::bit_at((a & b) as nat, offset as nat) == (bits::bit_at(a as nat, offset as nat)
            && bits::bit_at(b as nat, offset as nat)),
        bits::bit_at((a | b) as nat, offset as nat) == (bits::bit_at(a as nat, offset as nat)
            || bits::bit_at(b as nat, offset as nat)),
        bits::bit_at((a ^ b) as nat, offset as nat) == (bits::bit_at(a as nat, offset as nat)
            != bits::bit_at(b as nat, offset as nat)),
        bits::bit_at((!a) as nat, offset as nat) == !bits::bit_at(a as nat, offset as nat),
{
    lemma_word_bit(a, offset);
    lemma_word_bit(b, offset);
    lemma_word_bit(a & b, offset);
    lemma_word_bit(a | b, offset);
    lemma_word_bit(a ^ b, offset);
    lemma_word_bit(!a, offset);
    assert(((a & b) >> offset) & 1 == 1 <==> ((a >> offset) & 1 == 1 && (b >> offset) & 1 == 1))
        by (bit_vector);
    assert(((a | b) >> offset) & 1 == 1 <==> ((a >> offset) & 1 == 1 || (b >> offset) & 1 == 1))
        by (bit_vector);
    assert(((a ^ b) >> offset) & 1 == 1 <==> !((a >> offset) & 1 == 1 <==> (b >> offset) & 1 == 1))
        by (bit_vector);
    assert(((!a) >> offset) & 1 == 1 <==> !((a >> offset) & 1 == 1)) by (bit_vector)
        requires
            offset < 64,
    ;
}

/// Binary digits of a word put together from two shifted words.
proof fn lemma_shifted_words(upper: u64, lower: u64, shift: u64, offset: u64)
    requires
        0 < shift < 64,
        offset < 64,
    ensures
        bits::bit_at(
            ((upper << shift) | (lower >> ((64 - shift) as u64))) as nat,
            offset as nat,
        ) == if offset >= shift {
            bits::bit_at(upper as nat, (offset - shift) as nat)
        } else {
            bits::bit_at(lower as nat, (64 - shift + offset) as nat)
        },
{
    let back = (64 - shift) as u64;
    let joined = (upper << shift) | (lower >> back);
    lemma_word_bit(joined, offset);
    if offset >= shift {
        let source = (offset - shift) as u64;
        lemma_word_bit(upper, source);
        assert((joined >> offset) & 1 == (upper >> source) & 1) by (bit_vector)
            requires
                0 < shift < 64,
                offset < 64,
                shift <= offset,
                back == (64 - shift) as u64,
                source == (offset - shift) as u64,
                joined == (upper << shift) | (lower >> back),
        ;
    } else {
        let source = (64 - shift + offset) as u64;
        lemma_word_bit(lower, source);
        assert((joined >> offset) & 1 == (lower >> source) & 1) by (bit_vector)
            requires
                0 < shift < 64,
                offset < shift,
                back == (64 - shift) as u64,
                source == (64 - shift + offset) as u64,
                joined == (upper << shift) | (lower >> back),
        ;
    }
}

/// Binary digits of a shifted number.
pub proof fn lemma_shifted_bits(value: nat, shift: nat, width: nat, index: nat)
    requires
        index < width,
    ensures
        bits::bit_at((value * pow2(shift)) % pow2(width), index) == (index >= shift && bits::bit_at(
            value,
            (index - shift) as nat,
        )),
        bits::bit_at(value / pow2(shift), index) == bits::bit_at(value, index + shift),
{
    digits::lemma_power_two(shift);
    digits::lemma_power_two(width);
    digits::lemma_power_two(index);
    digits::lemma_power_two(index + shift);
    lemma_pow2_pos(shift);
    lattice::lemma_digit_parts(value * pow2(shift), width, 2, index);
    lattice::lemma_digit_join(value, 0, shift, 2, index);
    lattice::lemma_digit_parts(value, shift, 2, index);
    if index >= shift {
        digits::lemma_power_two((index - shift) as nat);
    } else {
        lemma_pow2_pos(index);
        assert(digits::digit(0, 2, index) == 0) by {
            lemma_div_of0(pow2(index) as int);
        }
    }
}

impl<const WORDS: usize> WideState<WORDS> {
    /// The bits set in both states.
    pub fn bitwise_and(self, right: Self) -> (state: Self)
        ensures
            forall|i: nat| #[trigger]
                bits::bit_at(state.value(), i) == (bits::bit_at(self.value(), i) && bits::bit_at(
                    right.value(),
                    i,
                )),
    {
        let mut words = self.words;
        let mut next: usize = 0;
        while next < WORDS
            invariant
                next <= WORDS,
                words@.len() == WORDS,
                forall|i: int|
                    0 <= i < next ==> #[trigger] words@[i] == self.words@[i] & right.words@[i],
            decreases WORDS - next,
        {
            words[next] = self.words[next] & right.words[next];
            next += 1;
        }
        proof {
            assert forall|i: nat| #[trigger] bits::bit_at(value_of(words@), i) == (bits::bit_at(
                self.value(),
                i,
            ) && bits::bit_at(right.value(), i)) by {
                lemma_value_bit(words@, i);
                lemma_value_bit(self.words@, i);
                lemma_value_bit(right.words@, i);
                if i < 64 * WORDS {
                    let p = i as int / 64;
                    lemma_combined_words(self.words@[p], right.words@[p], (i % 64) as u64);
                    assert(words@[p] == self.words@[p] & right.words@[p]);
                }
            }
        }
        WideState { words }
    }

    /// The bits set in either state.
    pub fn bitwise_or(self, right: Self) -> (state: Self)
        ensures
            forall|i: nat| #[trigger]
                bits::bit_at(state.value(), i) == (bits::bit_at(self.value(), i) || bits::bit_at(
                    right.value(),
                    i,
                )),
    {
        let mut words = self.words;
        let mut next: usize = 0;
        while next < WORDS
            invariant
                next <= WORDS,
                words@.len() == WORDS,
                forall|i: int|
                    0 <= i < next ==> #[trigger] words@[i] == self.words@[i] | right.words@[i],
            decreases WORDS - next,
        {
            words[next] = self.words[next] | right.words[next];
            next += 1;
        }
        proof {
            assert forall|i: nat| #[trigger] bits::bit_at(value_of(words@), i) == (bits::bit_at(
                self.value(),
                i,
            ) || bits::bit_at(right.value(), i)) by {
                lemma_value_bit(words@, i);
                lemma_value_bit(self.words@, i);
                lemma_value_bit(right.words@, i);
                if i < 64 * WORDS {
                    let p = i as int / 64;
                    lemma_combined_words(self.words@[p], right.words@[p], (i % 64) as u64);
                    assert(words@[p] == self.words@[p] | right.words@[p]);
                }
            }
        }
        WideState { words }
    }

    /// The bits set in one state only.
    pub fn bitwise_xor(self, right: Self) -> (state: Self)
        ensures
            forall|i: nat| #[trigger]
                bits::bit_at(state.value(), i) == (bits::bit_at(self.value(), i) != bits::bit_at(
                    right.value(),
                    i,
                )),
    {
        let mut words = self.words;
        let mut next: usize = 0;
        while next < WORDS
            invariant
                next <= WORDS,
                words@.len() == WORDS,
                forall|i: int|
                    0 <= i < next ==> #[trigger] words@[i] == self.words@[i] ^ right.words@[i],
            decreases WORDS - next,
        {
            words[next] = self.words[next] ^ right.words[next];
            next += 1;
        }
        proof {
            assert forall|i: nat| #[trigger] bits::bit_at(value_of(words@), i) == (bits::bit_at(
                self.value(),
                i,
            ) != bits::bit_at(right.value(), i)) by {
                lemma_value_bit(words@, i);
                lemma_value_bit(self.words@, i);
                lemma_value_bit(right.words@, i);
                if i < 64 * WORDS {
                    let p = i as int / 64;
                    lemma_combined_words(self.words@[p], right.words@[p], (i % 64) as u64);
                    assert(words@[p] == self.words@[p] ^ right.words@[p]);
                }
            }
        }
        WideState { words }
    }

    /// The bits of the width that are not set.
    pub fn bitwise_not(self) -> (state: Self)
        ensures
            forall|i: nat| #[trigger]
                bits::bit_at(state.value(), i) == (i < 64 * WORDS && !bits::bit_at(
                    self.value(),
                    i,
                )),
    {
        let mut words = self.words;
        let mut next: usize = 0;
        while next < WORDS
            invariant
                next <= WORDS,
                words@.len() == WORDS,
                forall|i: int| 0 <= i < next ==> #[trigger] words@[i] == !self.words@[i],
            decreases WORDS - next,
        {
            words[next] = !self.words[next];
            next += 1;
        }
        proof {
            assert forall|i: nat| #[trigger] bits::bit_at(value_of(words@), i) == (i < 64 * WORDS
                && !bits::bit_at(self.value(), i)) by {
                lemma_value_bit(words@, i);
                lemma_value_bit(self.words@, i);
                if i < 64 * WORDS {
                    let p = i as int / 64;
                    lemma_combined_words(self.words@[p], self.words@[p], (i % 64) as u64);
                    assert(words@[p] == !self.words@[p]);
                }
            }
        }
        WideState { words }
    }

    /// The bits moved up, those beyond the width dropped.
    pub fn left_shift(self, shift: usize) -> (state: Self)
        requires
            WORDS * 64 <= usize::MAX,
        ensures
            state.value() == (self.value() * pow2(shift as nat)) % pow2(64 * WORDS as nat),
    {
        let ghost width = 64 * WORDS as nat;
        if shift >= WORDS * 64 {
            proof {
                let e = (shift - width) as nat;
                lemma_pow2_adds(e, width);
                lemma_pow2_pos(width);
                assert(self.value() * pow2(shift as nat) == (self.value() * pow2(e)) * pow2(width))
                    by (nonlinear_arith)
                    requires
                        pow2(shift as nat) == pow2(e) * pow2(width),
                ;
                lemma_mod_multiples_basic((self.value() * pow2(e)) as int, pow2(width) as int);
            }
            return Self::zero();
        }
        let word_shift: usize = shift / 64;
        let bit_shift: u64 = (shift % 64) as u64;
        let mut words = [0u64; WORDS];
        let mut target: usize = word_shift;
        while target < WORDS
            invariant
                word_shift <= target <= WORDS,
                words@.len() == WORDS,
                bit_shift < 64,
                forall|t: int| 0 <= t < word_shift ==> #[trigger] words@[t] == 0,
                forall|t: int|
                    word_shift <= t < target ==> #[trigger] words@[t] == lifted_word(
                        self.words@,
                        t - word_shift,
                        bit_shift,
                    ),
            decreases WORDS - target,
        {
            let source: usize = target - word_shift;
            let word: u64 = if bit_shift == 0 {
                self.words[source]
            } else if source > 0 {
                (self.words[source] << bit_shift) | (self.words[source - 1] >> (64 - bit_shift))
            } else {
                (self.words[source] << bit_shift) | (0u64 >> (64 - bit_shift))
            };
            words[target] = word;
            target += 1;
        }
        proof {
            let shifted = (self.value() * pow2(shift as nat)) % pow2(width);
            assert forall|i: nat| i < width implies #[trigger] bits::bit_at(value_of(words@), i)
                == bits::bit_at(shifted, i) by {
                lemma_shifted_bits(self.value(), shift as nat, width, i);
                lemma_value_bit(words@, i);
                let t = i as int / 64;
                let offset = (i % 64) as u64;
                if t < word_shift {
                    assert(words@[t] == 0);
                    lemma_pow2_pos(offset as nat);
                    lemma_div_of0(pow2(offset as nat) as int);
                } else {
                    let source = t - word_shift;
                    assert(words@[t] == lifted_word(self.words@, source, bit_shift));
                    if i >= shift {
                        lemma_value_bit(self.words@, (i - shift) as nat);
                    }
                    if bit_shift > 0 {
                        let lower = if source > 0 {
                            self.words@[source - 1]
                        } else {
                            0
                        };
                        lemma_shifted_words(self.words@[source], lower, bit_shift, offset);
                        if source == 0 && offset < bit_shift {
                            let high = (64 - bit_shift + offset) as nat;
                            lemma_pow2_pos(high);
                            lemma_div_of0(pow2(high) as int);
                        }
                    }
                }
            }
            lemma_value_bound(words@);
            lemma_pow2_pos(width);
            lemma_mod_bound((self.value() * pow2(shift as nat)) as int, pow2(width) as int);
            lemma_bits_identify(value_of(words@), shifted, width);
        }
        WideState { words }
    }

    /// The bits moved down, those below the lowest dropped.
    pub fn right_shift(self, shift: usize) -> (state: Self)
        requires
            WORDS * 64 <= usize::MAX,
        ensures
            state.value() == self.value() / pow2(shift as nat),
    {
        let ghost width = 64 * WORDS as nat;
        proof {
            lemma_value_bound(self.words@);
            lemma_pow2_pos(shift as nat);
        }
        if shift >= WORDS * 64 {
            proof {
                if shift > width {
                    lemma_pow2_strictly_increases(width, shift as nat);
                }
                lemma_basic_div(self.value() as int, pow2(shift as nat) as int);
            }
            return Self::zero();
        }
        let word_shift: usize = shift / 64;
        let bit_shift: u64 = (shift % 64) as u64;
        let mut words = [0u64; WORDS];
        let mut target: usize = 0;
        while target < WORDS - word_shift
            invariant
                target <= WORDS - word_shift,
                word_shift < WORDS,
                words@.len() == WORDS,
                bit_shift < 64,
                forall|t: int| target <= t < WORDS ==> #[trigger] words@[t] == 0,
                forall|t: int|
                    0 <= t < target ==> #[trigger] words@[t] == lowered_word(
                        self.words@,
                        t + word_shift,
                        bit_shift,
                    ),
            decreases WORDS - word_shift - target,
        {
            let source: usize = target + word_shift;
            let word: u64 = if bit_shift == 0 {
                self.words[source]
            } else if source + 1 < WORDS {
                (self.words[source + 1] << (64 - bit_shift)) | (self.words[source] >> bit_shift)
            } else {
                (0u64 << (64 - bit_shift)) | (self.words[source] >> bit_shift)
            };
            words[target] = word;
            target += 1;
        }
        proof {
            let shifted = self.value() / pow2(shift as nat);
            assert forall|i: nat| i < width implies #[trigger] bits::bit_at(value_of(words@), i)
                == bits::bit_at(shifted, i) by {
                lemma_shifted_bits(self.value(), shift as nat, width, i);
                lemma_value_bit(words@, i);
                lemma_value_bit(self.words@, i + shift as nat);
                let t = i as int / 64;
                let offset = (i % 64) as u64;
                if t >= WORDS - word_shift {
                    assert(words@[t] == 0);
                    lemma_pow2_pos(offset as nat);
                    lemma_div_of0(pow2(offset as nat) as int);
                } else {
                    let source = t + word_shift;
                    assert(words@[t] == lowered_word(self.words@, source, bit_shift));
                    if bit_shift > 0 {
                        let upper = if source + 1 < WORDS {
                            self.words@[source + 1]
                        } else {
                            0
                        };
                        let back = (64 - bit_shift) as u64;
                        lemma_shifted_words(upper, self.words@[source], back, offset);
                        assert((64 - back) as u64 == bit_shift);
                        if source + 1 == WORDS && offset >= back {
                            let low = (offset - back) as nat;
                            lemma_pow2_pos(low);
                            lemma_div_of0(pow2(low) as int);
                        }
                    }
                }
            }
            lemma_value_bound(words@);
            lemma_div_nonincreasing(self.value() as int, pow2(shift as nat) as int);
            lemma_bits_identify(value_of(words@), shifted, width);
        }
        WideState { words }
    }
}

/// Word number `source` of the words moved up by less than a word.
spec fn lifted_word(words: Seq<u64>, source: int, shift: u64) -> u64 {
    if shift == 0 {
        words[source]
    } else {
        (words[source] << shift) | ((if source > 0 {
            words[source - 1]
        } else {
            0
        }) >> ((64 - shift) as u64))
    }
}

/// Word number `source` of the words moved down by less than a word.
spec fn lowered_word(words: Seq<u64>, source: int, shift: u64) -> u64 {
    if shift == 0 {
        words[source]
    } else {
        ((if source + 1 < words.len() {
            words[source + 1]
        } else {
            0
        }) << ((64 - shift) as u64)) | (words[source] >> shift)
    }
}

/// States without any set bit.
pub fn basis_zeros<const WORDS: usize>(length: usize) -> (states: Vec<WideState<WORDS>>)
    ensures
        states@.len() == length,
        forall|i: int| 0 <= i < length ==> (#[trigger] states@[i]).value() == 0,
{
    let zero = WideState::<WORDS>::zero();
    let mut states: Vec<WideState<WORDS>> = Vec::new();
    while states.len() < length
        invariant
            states@.len() <= length,
            zero.value() == 0,
            forall|i: int| 0 <= i < states@.len() ==> (#[trigger] states@[i]).value() == 0,
        decreases length - states@.len(),
    {
        states.push(zero);
    }
    states
}

/// States with every bit set.
pub fn basis_ones<const WORDS: usize>(length: usize) -> (states: Vec<WideState<WORDS>>)
    ensures
        states@.len() == length,
        forall|i: int|
            0 <= i < length ==> (#[trigger] states@[i]).value() == pow2(64 * WORDS as nat) - 1,
{
    let ones = WideState::<WORDS>::zero().bitwise_not();
    proof {
        let width = 64 * WORDS as nat;
        lemma_pow2_pos(width);
        ones.lemma_value();
        assert forall|i: nat| i < width implies #[trigger] bits::bit_at(ones.value(), i)
            == bits::bit_at((pow2(width) - 1) as nat, i) by {
            lemma_all_bits(width, i);
            lemma_pow2_pos(i);
            lemma_div_of0(pow2(i) as int);
        }
        lemma_bits_identify(ones.value(), (pow2(width) - 1) as nat, width);
    }
    let mut states: Vec<WideState<WORDS>> = Vec::new();
    while states.len() < length
        invariant
            states@.len() <= length,
            ones.value() == pow2(64 * WORDS as nat) - 1,
            forall|i: int|
                0 <= i < states@.len() ==> (#[trigger] states@[i]).value() == pow2(
                    64 * WORDS as nat,
                ) - 1,
        decreases length - states@.len(),
    {
        states.push(ones);
    }
    states
}

/// Every digit of the largest number of a width is one.
pub proof fn lemma_all_bits(width: nat, index: nat)
    requires
        index < width,
    ensures
        bits::bit_at((pow2(width) - 1) as nat, index),
{
    let e = (width - index) as nat;
    let p = pow2(index) as int;
    let q = pow2(e) as int;
    lemma_pow2_adds(index, e);
    lemma_pow2_pos(index);
    lemma_pow2_pos(width);
    lemma_pow2_unfold(e);
    assert(pow2(width) - 1 == (q - 1) * p + (p - 1)) by (nonlinear_arith)
        requires
            pow2(width) as int == p * q,
    ;
    lemma_fundamental_div_mod_converse(pow2(width) - 1, p, q - 1, p - 1);
}

/// The bits set in both states.
pub fn bitwise_and<const WORDS: usize>(left: WideState<WORDS>, right: WideState<WORDS>) -> (state:
    WideState<WORDS>)
    ensures
        forall|i: nat| #[trigger]
            bits::bit_at(state.value(), i) == (bits::bit_at(left.value(), i) && bits::bit_at(
                right.value(),
                i,
            )),
{
    left.bitwise_and(right)
}

/// The bits set in either state.
pub fn bitwise_or<const WORDS: usize>(left: WideState<WORDS>, right: WideState<WORDS>) -> (state:
    WideState<WORDS>)
    ensures
        forall|i: nat| #[trigger]
            bits::bit_at(state.value(), i) == (bits::bit_at(left.value(), i) || bits::bit_at(
                right.value(),
                i,
            )),
{
    left.bitwise_or(right)
}

/// The bits set in one state only.
pub fn bitwise_xor<const WORDS: usize>(left: WideState<WORDS>, right: WideState<WORDS>) -> (state:
    WideState<WORDS>)
    ensures
        forall|i: nat| #[trigger]
            bits::bit_at(state.value(), i) == (bits::bit_at(left.value(), i) != bits::bit_at(
                right.value(),
                i,
            )),
{
    left.bitwise_xor(right)
}

/// The bits of the width that are not set.
pub fn bitwise_not<const WORDS: usize>(value: WideState<WORDS>) -> (state: WideState<WORDS>)
    ensures
        forall|i: nat| #[trigger]
            bits::bit_at(state.value(), i) == (i < 64 * WORDS && !bits::bit_at(value.value(), i)),
{
    value.bitwise_not()
}

/// The bits moved up, those beyond the width dropped.
pub fn bitwise_leftshift<const WORDS: usize>(value: WideState<WORDS>, shift: usize) -> (state:
    WideState<WORDS>)
    requires
        WORDS * 64 <= usize::MAX,
    ensures
        state.value() == (value.value() * pow2(shift as nat)) % pow2(64 * WORDS as nat),
{
    value.left_shift(shift)
}

/// The bits moved down, those below the lowest dropped.
pub fn bitwise_rightshift<const WORDS: usize>(value: WideState<WORDS>, shift: usize) -> (state:
    WideState<WORDS>)
    requires
        WORDS * 64 <= usize::MAX,
    ensures
        state.value() == value.value() / pow2(shift as nat),
{
    value.right_shift(shift)
}

/// The value of one or two words followed by zeros.
pub proof fn lemma_low_words(words: Seq<u64>)
    requires
        forall|i: int| 2 <= i < words.len() ==> words[i] == 0,
    ensures
        value_of(words) == (if words.len() > 0 {
            words[0] as nat
        } else {
            0
        }) + (if words.len() > 1 {
            words[1] as nat * 0x1_0000_0000_0000_0000
        } else {
            0
        }),
    decreases words.len(),
{
    lemma2_to64();
    if words.len() == 1 {
        assert(words.drop_last() =~= Seq::<u64>::empty());
        assert(pow2((64 * (words.len() - 1)) as nat) == 1);
        lemma_mul_basics(words[0] as int);
        assert(value_of(Seq::<u64>::empty()) == 0);
    } else if words.len() > 1 {
        lemma_low_words(words.drop_last());
        if words.len() == 2 {
            assert(pow2((64 * (words.len() - 1)) as nat) == 0x1_0000_0000_0000_0000);
        } else {
            lemma_mul_basics(pow2((64 * (words.len() - 1)) as nat) as int);
        }
    }
}

/// A packed word as a wide state, as far as it fits.
pub fn python_int_to_basis_int<const WORDS: usize>(value: u128) -> (state: WideState<WORDS>)
    ensures
        state.value() == value as nat % pow2(64 * WORDS as nat),
{
    let mut words = [0u64; WORDS];
    let low: u128 = value % 0x1_0000_0000_0000_0000;
    let high: u128 = value / 0x1_0000_0000_0000_0000;
    if WORDS > 0 {
        words[0] = low as u64;
    }
    if WORDS > 1 {
        words[1] = high as u64;
    }
    proof {
        lemma2_to64();
        bits::lemma_pow2_128();
        lemma_low_words(words@);
        if WORDS == 0 {
            assert(pow2(0) == 1);
            assert(value as nat % 1 == 0);
        } else if WORDS > 1 {
            let width = 64 * WORDS as nat;
            if width > 128 {
                lemma_pow2_strictly_increases(128, width);
            }
            lemma_small_mod(value as nat, pow2(width));
        }
    }
    WideState::from_words(words)
}

/// A wide state as a packed word, if it fits.
pub fn basis_int_to_python_int<const WORDS: usize>(value: WideState<WORDS>) -> (result: Result<u128>)
    ensures
        match result {
            Ok(word) => word == value.value(),
            Err(error) => {
                &&& value.value() > u128::MAX
                &&& error == QmbedError::UnsupportedBackend(
                    Reason::Text("wide basis integer does not fit into a Python-compatible u128"),
                )
            },
        },
{
    let mut next: usize = 2;
    while next < WORDS
        invariant
            2 <= next,
            value.words@.len() == WORDS,
            forall|i: int| 2 <= i < next && i < WORDS ==> value.words@[i] == 0,
        decreases WORDS - next,
    {
        if value.words[next] != 0 {
            proof {
                let words = value.words@;
                bits::lemma_pow2_128();
                lemma_value_split(words, next as int);
                lemma_word_at(words, next as int);
                let p = pow2((64 * next) as nat) as int;
                lemma_pow2_pos((64 * next) as nat);
                if 64 * next > 128 {
                    lemma_pow2_strictly_increases(128, (64 * next) as nat);
                }
                lemma_mul_nonnegative(pow2(64) as int, value_of(words.skip(next + 1)) as int);
                lemma_fundamental_div_mod(value_of(words) as int, p);
                lemma_mod_bound(value_of(words) as int, p);
                let q = value_of(words) as int / p;
                assert(p * q >= p) by (nonlinear_arith)
                    requires
                        q >= 1,
                        p > 0,
                ;
            }
            return Err(
                QmbedError::UnsupportedBackend(
                    Reason::Text("wide basis integer does not fit into a Python-compatible u128"),
                ),
            );
        }
        next += 1;
    }
    proof {
        lemma_low_words(value.words@);
    }
    let low: u128 = if WORDS > 0 {
        value.words[0] as u128
    } else {
        0
    };
    let high: u128 = if WORDS > 1 {
        value.words[1] as u128
    } else {
        0
    };
    Ok(low + high * 0x1_0000_0000_0000_0000)
}

/// A packed word that becomes a wide state of at least two words comes back.
pub proof fn law_packed_round_trip<const WORDS: usize>(value: u128, state: WideState<WORDS>)
    requires
        WORDS >= 2,
        state.value() == value as nat % pow2(64 * WORDS as nat),
    ensures
        state.value() == value,
{
    let width = 64 * WORDS as nat;
    bits::lemma_pow2_128();
    if width > 128 {
        lemma_pow2_strictly_increases(128, width);
    }
    lemma_small_mod(value as nat, pow2(width));
}

/// Fewest binary digits that tell the local states apart.
pub open spec fn bits_per_site(states_per_site: nat) -> nat
    recommends
        states_per_site >= 2,
{
    choose|b: nat| #[trigger] pow2(b) >= states_per_site && (b > 0 ==> pow2((b - 1) as nat)
        < states_per_site)
}

proof fn lemma_bits_per_site(states_per_site: nat, b: nat)
    requires
        pow2(b) >= states_per_site,
        b > 0,
        pow2((b - 1) as nat) < states_per_site,
    ensures
        bits_per_site(states_per_site) == b,
{
    let c = bits_per_site(states_per_site);
    assert(pow2(c) >= states_per_site && (c > 0 ==> pow2((c - 1) as nat) < states_per_site));
    if c < b {
        if c < b - 1 {
            lemma_pow2_strictly_increases(c, (b - 1) as nat);
        }
    }
    if b < c {
        if b < c - 1 {
            lemma_pow2_strictly_increases(b, (c - 1) as nat);
        }
    }
}

/// Storage class of a chain of sites with the given number of local states.
pub fn get_basis_type(sites: usize, _particles: Option<usize>, states_per_site: usize) -> (result:
    Result<StateStorage>)
    ensures
        ({
            let width = sites * bits_per_site(states_per_site as nat);
            match result {
                Ok(storage) => {
                    &&& states_per_site >= 2
                    &&& width <= storage.capacity()
                    &&& forall|other: StateStorage|
                        width <= #[trigger] other.capacity() ==> storage.capacity()
                            <= other.capacity()
                },
                Err(error) => {
                    &&& states_per_site < 2 ==> error == QmbedError::InvalidSector(
                        Reason::Text("states_per_site must be at least two"),
                    )
                    &&& states_per_site >= 2 && width > usize::MAX ==> error
                        == QmbedError::UnsupportedBackend(Reason::Text("basis bit width overflow"))
                    &&& states_per_site >= 2 && width <= usize::MAX ==> width > 16384 && error
                        == QmbedError::UnsupportedBackend(
                        Reason::Text("basis state requires more than 16384 bits"),
                    )
                },
            }
        }),
{
    if states_per_site < 2 {
        return Err(QmbedError::InvalidSector(Reason::Text("states_per_site must be at least two")));
    }
    let mut digits: usize = 0;
    let mut rest: usize = states_per_site - 1;
    proof {
        lemma2_to64();
    }
    while rest > 0
        invariant
            rest == (states_per_site - 1) as nat / pow2(digits as nat),
            digits > 0 ==> pow2((digits - 1) as nat) < states_per_site,
            states_per_site >= 2,
            digits + rest <= usize::MAX,
        decreases rest,
    {
        proof {
            lemma_pow2_pos(digits as nat);
            lemma_pow2_unfold((digits + 1) as nat);
            let p = pow2(digits as nat) as int;
            let x = (states_per_site - 1) as int;
            lemma_div_denominator(x, p, 2);
            lemma_mul_is_commutative(p, 2);
            lemma_fundamental_div_mod(x, p);
            lemma_mod_bound(x, p);
            assert(p <= x) by (nonlinear_arith)
                requires
                    x == p * (x / p) + x % p,
                    x / p >= 1,
                    x % p >= 0,
                    p > 0,
            ;
        }
        rest = rest / 2;
        digits += 1;
    }
    proof {
        let p = pow2(digits as nat) as int;
        let x = (states_per_site - 1) as int;
        lemma_pow2_pos(digits as nat);
        lemma_fundamental_div_mod(x, p);
        lemma_mod_bound(x, p);
        lemma_mul_basics(p);
        lemma_bits_per_site(states_per_site as nat, digits as nat);
    }
    let width: usize = match sites.checked_mul(digits) {
        Some(width) => width,
        None => {
            return Err(QmbedError::UnsupportedBackend(Reason::Text("basis bit width overflow")));
        },
    };
    let occupied: usize = if width == 0 {
        1
    } else {
        width
    };
    StateStorage::for_bits(occupied)
}

impl<const WORDS: usize> Ranked for WideState<WORDS> {
    open spec fn rank(self) -> int {
        self.value() as int
    }

    fn at_most(&self, other: &Self) -> (answer: bool) {
        let mut next: usize = WORDS;
        let ghost left = self.words@;
        let ghost right = other.words@;
        proof {
            assert(left.take(WORDS as int) =~= left);
            assert(right.take(WORDS as int) =~= right);
        }
        while next > 0
            invariant
                next <= WORDS,
                left == self.words@,
                right == other.words@,
                left.len() == WORDS,
                right.len() == WORDS,
                (value_of(left) <= value_of(right)) == (value_of(left.take(next as int))
                    <= value_of(right.take(next as int))),
            decreases next,
        {
            let place: usize = next - 1;
            proof {
                let a = left.take(next as int);
                let b = right.take(next as int);
                assert(a.drop_last() =~= left.take(place as int));
                assert(b.drop_last() =~= right.take(place as int));
                lemma_value_bound(a.drop_last());
                lemma_value_bound(b.drop_last());
                let p = pow2((64 * place) as nat) as int;
                let x = value_of(a.drop_last()) as int;
                let y = value_of(b.drop_last()) as int;
                let u = left[place as int] as int;
                let v = right[place as int] as int;
                assert(u < v ==> x + u * p < y + v * p) by (nonlinear_arith)
                    requires
                        0 <= x < p,
                        0 <= y < p,
                ;
                assert(u > v ==> x + u * p > y + v * p) by (nonlinear_arith)
                    requires
                        0 <= x < p,
                        0 <= y < p,
                ;
            }
            if self.words[place] != other.words[place] {
                return self.words[place] < other.words[place];
            }
            next = place;
        }
        true
    }
}

impl<const WORDS: usize> Coded for WideState<WORDS> {
    proof fn rank_identifies(left: Self, right: Self) {
        WideState::<WORDS>::law_value_identifies(left, right);
    }
}

impl<const WORDS: usize> Bounded for WideState<WORDS> {
    open spec fn rank_limit() -> nat {
        pow2((64 * WORDS) as nat)
    }

    proof fn rank_bounded(item: Self) {
        item.lemma_value();
    }
}

/// The state of a fixed width with a given value.
pub open spec fn state_of<const WORDS: usize>(value: nat) -> WideState<WORDS> {
    choose|state: WideState<WORDS>| state.value() == value
}

/// A state is the one with its value.
pub proof fn lemma_state_of<const WORDS: usize>(state: WideState<WORDS>)
    ensures
        state_of::<WORDS>(state.value()) == state,
{
    WideState::<WORDS>::law_value_identifies(state_of::<WORDS>(state.value()), state);
}

} // verus!

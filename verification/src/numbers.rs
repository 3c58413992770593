//! Real numbers for statistics, exact or approximate.

use vstd::prelude::*;

verus! {

/// Real numbers as statistics need them.
pub trait RealNumber: Copy + Sized {
    spec fn spec_zero() -> Self;

    spec fn spec_one() -> Self;

    /// A count as a number.
    spec fn spec_count(count: usize) -> Self;

    spec fn spec_plus(self, other: Self) -> Self;

    spec fn spec_minus(self, other: Self) -> Self;

    spec fn spec_times(self, other: Self) -> Self;

    spec fn spec_over(self, other: Self) -> Self;

    spec fn spec_at_most(self, other: Self) -> bool;

    spec fn spec_magnitude(self) -> Self;

    spec fn spec_root(self) -> Self;

    spec fn spec_logarithm(self) -> Self;

    spec fn spec_power(self, exponent: Self) -> Self;

    spec fn spec_is_finite(self) -> bool;

    /// Whether the number does not exceed the rounding error of one.
    spec fn spec_is_negligible(self) -> bool;

    /// Whether the number is less than zero by more than rounding.
    spec fn spec_is_clearly_negative(self) -> bool;

    /// Whether two levels of a spectrum count as one.
    spec fn spec_same_level(self, other: Self) -> bool;

    /// Whether the number counts as one when it is the order of an entropy.
    spec fn spec_is_unit_order(self) -> bool;

    /// Whether the number is one but for rounding, as the exponent of a distribution.
    spec fn spec_is_unit_alpha(self) -> bool;

    /// Whether the number is one, as a sum of probabilities.
    spec fn spec_is_whole(self) -> bool;

    fn zero() -> (value: Self)
        ensures
            value == Self::spec_zero(),
    ;

    fn one() -> (value: Self)
        ensures
            value == Self::spec_one(),
    ;

    fn count(count: usize) -> (value: Self)
        ensures
            value == Self::spec_count(count),
    ;

    fn plus(self, other: Self) -> (value: Self)
        ensures
            value == self.spec_plus(other),
    ;

    fn minus(self, other: Self) -> (value: Self)
        ensures
            value == self.spec_minus(other),
    ;

    fn times(self, other: Self) -> (value: Self)
        ensures
            value == self.spec_times(other),
    ;

    fn over(self, other: Self) -> (value: Self)
        ensures
            value == self.spec_over(other),
    ;

    fn at_most(self, other: Self) -> (answer: bool)
        ensures
            answer == self.spec_at_most(other),
    ;

    fn magnitude(self) -> (value: Self)
        ensures
            value == self.spec_magnitude(),
    ;

    fn root(self) -> (value: Self)
        ensures
            value == self.spec_root(),
    ;

    fn logarithm(self) -> (value: Self)
        ensures
            value == self.spec_logarithm(),
    ;

    fn power(self, exponent: Self) -> (value: Self)
        ensures
            value == self.spec_power(exponent),
    ;

    fn is_finite(self) -> (answer: bool)
        ensures
            answer == self.spec_is_finite(),
    ;

    fn is_negligible(self) -> (answer: bool)
        ensures
            answer == self.spec_is_negligible(),
    ;

    fn is_clearly_negative(self) -> (answer: bool)
        ensures
            answer == self.spec_is_clearly_negative(),
    ;

    fn same_level(self, other: Self) -> (answer: bool)
        ensures
            answer == self.spec_same_level(other),
    ;

    fn is_unit_order(self) -> (answer: bool)
        ensures
            answer == self.spec_is_unit_order(),
    ;

    fn is_unit_alpha(self) -> (answer: bool)
        ensures
            answer == self.spec_is_unit_alpha(),
    ;

    fn is_whole(self) -> (answer: bool)
        ensures
            answer == self.spec_is_whole(),
    ;
}

/// The larger of two numbers; the first one where they are alike.
pub open spec fn larger<R: RealNumber>(left: R, right: R) -> R {
    if right.spec_at_most(left) {
        left
    } else {
        right
    }
}

/// The larger of two numbers; the first one where they are alike.
pub fn larger_of<R: RealNumber>(left: R, right: R) -> (value: R)
    ensures
        value == larger(left, right),
{
    if right.at_most(left) {
        left
    } else {
        right
    }
}

/// Whole numbers; results wrap around at 64 bits, quotients are rounded toward zero, and
/// roots, logarithms and the circle ratio downward.
#[derive(Clone, Copy, Debug, PartialEq, Eq, Structural)]
pub struct Whole {
    pub value: i64,
}

/// The largest number whose square does not exceed another.
pub open spec fn floor_root(number: nat) -> nat
    decreases number,
{
    if number == 0 {
        0
    } else {
        let below = floor_root((number - 1) as nat);
        if (below + 1) * (below + 1) <= number {
            below + 1
        } else {
            below
        }
    }
}

proof fn lemma_floor_root(number: nat)
    ensures
        floor_root(number) * floor_root(number) <= number,
        number < (floor_root(number) + 1) * (floor_root(number) + 1),
    decreases number,
{
    if number > 0 {
        lemma_floor_root((number - 1) as nat);
        let root = floor_root(number);
        assert(root * root < (root + 1) * (root + 1)) by (nonlinear_arith);
    } else {
        assert(floor_root(0) == 0);
        assert(0nat * 0 == 0) by (nonlinear_arith);
        assert((0nat + 1) * (0nat + 1) == 1) by (nonlinear_arith);
    }
}

proof fn lemma_root_is(number: nat, root: nat)
    requires
        root * root <= number,
        number < (root + 1) * (root + 1),
    ensures
        root == floor_root(number),
{
    lemma_floor_root(number);
    let other = floor_root(number);
    if root < other {
        assert((root + 1) * (root + 1) <= other * other) by (nonlinear_arith)
            requires
                root + 1 <= other,
        ;
    }
    if other < root {
        assert((other + 1) * (other + 1) <= root * root) by (nonlinear_arith)
            requires
                other + 1 <= root,
        ;
    }
}

/// How often a number can be halved before it is one.
pub open spec fn halvings(number: nat) -> nat
    decreases number,
{
    if number <= 1 {
        0
    } else {
        halvings(number / 2) + 1
    }
}

proof fn lemma_halvings(number: nat)
    ensures
        halvings(number) <= number,
    decreases number,
{
    if number > 1 {
        lemma_halvings(number / 2);
    }
}

/// A number multiplied by itself.
pub open spec fn repeated(base: i64, count: nat) -> i64
    decreases count,
{
    if count == 0 {
        1
    } else {
        repeated(base, (count - 1) as nat).wrapping_mul(base)
    }
}

impl RealNumber for Whole {
    open spec fn spec_zero() -> Self {
        Whole { value: 0 }
    }

    open spec fn spec_one() -> Self {
        Whole { value: 1 }
    }

    open spec fn spec_count(count: usize) -> Self {
        Whole { value: count as i64 }
    }

    open spec fn spec_plus(self, other: Self) -> Self {
        Whole { value: self.value.wrapping_add(other.value) }
    }

    open spec fn spec_minus(self, other: Self) -> Self {
        Whole { value: self.value.wrapping_sub(other.value) }
    }

    open spec fn spec_times(self, other: Self) -> Self {
        Whole { value: self.value.wrapping_mul(other.value) }
    }

    open spec fn spec_over(self, other: Self) -> Self {
        if other.value > 0 {
            Whole { value: crate::matrix_subspace::quotient(self.value, other.value as u64) }
        } else {
            self
        }
    }

    open spec fn spec_at_most(self, other: Self) -> bool {
        self.value <= other.value
    }

    open spec fn spec_magnitude(self) -> Self {
        if self.value < 0 {
            Whole { value: 0i64.wrapping_sub(self.value) }
        } else {
            self
        }
    }

    open spec fn spec_root(self) -> Self {
        if self.value <= 0 {
            Whole { value: 0 }
        } else {
            Whole { value: floor_root(self.value as nat) as i64 }
        }
    }

    open spec fn spec_logarithm(self) -> Self {
        if self.value <= 1 {
            Whole { value: 0 }
        } else {
            Whole { value: halvings(self.value as nat) as i64 }
        }
    }

    open spec fn spec_power(self, exponent: Self) -> Self {
        if exponent.value <= 0 {
            Whole { value: 1 }
        } else {
            Whole { value: repeated(self.value, exponent.value as nat) }
        }
    }

    open spec fn spec_is_finite(self) -> bool {
        true
    }

    open spec fn spec_is_negligible(self) -> bool {
        self.value <= 0
    }

    open spec fn spec_is_clearly_negative(self) -> bool {
        self.value < 0
    }

    open spec fn spec_same_level(self, other: Self) -> bool {
        self.value == other.value
    }

    open spec fn spec_is_unit_order(self) -> bool {
        self.value == 1
    }

    open spec fn spec_is_unit_alpha(self) -> bool {
        self.value == 1
    }

    open spec fn spec_is_whole(self) -> bool {
        self.value == 1
    }

    fn zero() -> (value: Self) {
        Whole { value: 0 }
    }

    fn one() -> (value: Self) {
        Whole { value: 1 }
    }

    fn count(count: usize) -> (value: Self) {
        Whole { value: count as i64 }
    }

    fn plus(self, other: Self) -> (value: Self) {
        Whole { value: self.value.wrapping_add(other.value) }
    }

    fn minus(self, other: Self) -> (value: Self) {
        Whole { value: self.value.wrapping_sub(other.value) }
    }

    fn times(self, other: Self) -> (value: Self) {
        Whole { value: self.value.wrapping_mul(other.value) }
    }

    fn over(self, other: Self) -> (value: Self) {
        if other.value > 0 {
            Whole { value: crate::matrix_subspace::divide(self.value, other.value as u64) }
        } else {
            self
        }
    }

    fn at_most(self, other: Self) -> (answer: bool) {
        self.value <= other.value
    }

    fn magnitude(self) -> (value: Self) {
        if self.value < 0 {
            Whole { value: 0i64.wrapping_sub(self.value) }
        } else {
            self
        }
    }

    fn root(self) -> (value: Self) {
        if self.value <= 0 {
            return Whole { value: 0 };
        }
        let number: u128 = self.value as u128;
        let mut low: u128 = 0;
        let mut high: u128 = 0x1_0000_0000;
        while high - low > 1
            invariant
                low < high <= 0x1_0000_0000,
                low * low <= number,
                number < high * high,
                number <= i64::MAX,
            decreases high - low,
        {
            let middle: u128 = low + (high - low) / 2;
            proof {
                assert(middle * middle <= 0x1_0000_0000_0000_0000) by (nonlinear_arith)
                    requires
                        middle <= 0x1_0000_0000,
                ;
            }
            if middle * middle <= number {
                low = middle;
            } else {
                high = middle;
            }
        }
        proof {
            lemma_root_is(number as nat, low as nat);
        }
        Whole { value: low as i64 }
    }

    fn logarithm(self) -> (value: Self) {
        if self.value <= 1 {
            return Whole { value: 0 };
        }
        let mut rest: i64 = self.value;
        let mut steps: i64 = 0;
        proof {
            lemma_halvings(self.value as nat);
        }
        while rest > 1
            invariant
                rest >= 1,
                0 <= steps,
                steps + halvings(rest as nat) == halvings(self.value as nat),
                halvings(self.value as nat) <= self.value,
            decreases rest,
        {
            rest = rest / 2;
            steps = steps + 1;
        }
        Whole { value: steps }
    }

    fn power(self, exponent: Self) -> (value: Self) {
        let mut result: i64 = 1;
        let mut done: i64 = 0;
        while done < exponent.value
            invariant
                0 <= done,
                done <= exponent.value || exponent.value < 0,
                exponent.value < 0 ==> done == 0,
                result == repeated(self.value, done as nat),
            decreases exponent.value - done,
        {
            result = result.wrapping_mul(self.value);
            done = done + 1;
        }
        Whole { value: result }
    }

    fn is_finite(self) -> (answer: bool) {
        true
    }

    fn is_negligible(self) -> (answer: bool) {
        self.value <= 0
    }

    fn is_clearly_negative(self) -> (answer: bool) {
        self.value < 0
    }

    fn same_level(self, other: Self) -> (answer: bool) {
        self.value == other.value
    }

    fn is_unit_order(self) -> (answer: bool) {
        self.value == 1
    }

    fn is_unit_alpha(self) -> (answer: bool) {
        self.value == 1
    }

    fn is_whole(self) -> (answer: bool) {
        self.value == 1
    }
}

} // verus!

//! Real numbers whose arithmetic is exact.

use vstd::prelude::*;

use crate::ensemble::ComplexOver;
use crate::evolution::Evolving;
use crate::exact;
use crate::exact::{cropped, ExactScalar};
use crate::linear::{Gaussian, Scalar};
use crate::numbers::{RealNumber, Whole};

verus! {

/// Real numbers that form a commutative ring.
pub trait ExactReal: RealNumber {
    proof fn plus_commutes(a: Self, b: Self)
        ensures
            a.spec_plus(b) == b.spec_plus(a),
    ;

    proof fn plus_associates(a: Self, b: Self, c: Self)
        ensures
            a.spec_plus(b).spec_plus(c) == a.spec_plus(b.spec_plus(c)),
    ;

    proof fn zero_is_neutral(a: Self)
        ensures
            a.spec_plus(Self::spec_zero()) == a,
            Self::spec_zero().spec_times(a) == Self::spec_zero(),
    ;

    proof fn one_is_neutral(a: Self)
        ensures
            Self::spec_one().spec_times(a) == a,
    ;

    /// Adding and subtracting undo each other.
    proof fn minus_undoes_plus(a: Self, b: Self)
        ensures
            a.spec_minus(b).spec_plus(b) == a,
            a.spec_plus(b).spec_minus(b) == a,
    ;

    proof fn times_commutes(a: Self, b: Self)
        ensures
            a.spec_times(b) == b.spec_times(a),
    ;

    proof fn times_associates(a: Self, b: Self, c: Self)
        ensures
            a.spec_times(b).spec_times(c) == a.spec_times(b.spec_times(c)),
    ;

    proof fn times_distributes(a: Self, b: Self, c: Self)
        ensures
            a.spec_times(b.spec_plus(c)) == a.spec_times(b).spec_plus(a.spec_times(c)),
    ;

    /// Whether every number can be divided by a number without a rest.
    spec fn parts(divisor: Self) -> bool;

    /// Division without a rest is linear and undoes multiplication.
    proof fn division_is_linear(a: Self, b: Self, divisor: Self)
        requires
            Self::parts(divisor),
        ensures
            a.spec_plus(b).spec_over(divisor) == a.spec_over(divisor).spec_plus(
                b.spec_over(divisor),
            ),
            a.spec_times(b).spec_over(divisor) == a.spec_times(b.spec_over(divisor)),
            Self::spec_zero().spec_over(divisor) == Self::spec_zero(),
            a.spec_times(divisor).spec_over(divisor) == a,
    ;
}

impl ExactReal for Whole {
    /// Only one divides every whole number.
    open spec fn parts(divisor: Self) -> bool {
        divisor.value == 1
    }

    proof fn division_is_linear(a: Self, b: Self, divisor: Self) {
        assert(forall|x: i64| crate::matrix_subspace::quotient(x, 1) == x);
        Self::one_is_neutral(a);
        Self::times_commutes(a, divisor);
    }

    proof fn plus_commutes(a: Self, b: Self) {
    }

    proof fn plus_associates(a: Self, b: Self, c: Self) {
        let (x, y, z) = (a.value as int, b.value as int, c.value as int);
        exact::lemma_wrapping(a.value, b.value);
        exact::lemma_wrapping(b.value, c.value);
        exact::lemma_wrapping(c.value, 0);
        exact::lemma_wrapping(cropped(x + y), c.value);
        exact::lemma_wrapping(a.value, cropped(y + z));
        exact::lemma_crop_sum(x + y, z);
        exact::lemma_crop_sum(x, y + z);
    }

    proof fn zero_is_neutral(a: Self) {
        exact::lemma_wrapping(a.value, 0);
        exact::lemma_wrapping(0, a.value);
        assert(0 * a.value == 0);
    }

    proof fn one_is_neutral(a: Self) {
        exact::lemma_wrapping(1, a.value);
        exact::lemma_wrapping(a.value, 0);
        assert(1 * a.value == a.value);
    }

    proof fn minus_undoes_plus(a: Self, b: Self) {
        let (x, y) = (a.value as int, b.value as int);
        exact::lemma_wrapping(a.value, b.value);
        exact::lemma_wrapping(b.value, 0);
        exact::lemma_wrapping(cropped(x - y), b.value);
        exact::lemma_wrapping(cropped(x + y), b.value);
        exact::lemma_crop_sum(x - y, y);
        exact::lemma_crop_sum(x + y, y);
    }

    proof fn times_commutes(a: Self, b: Self) {
        exact::lemma_wrapping(a.value, b.value);
        exact::lemma_wrapping(b.value, a.value);
        assert(a.value * b.value == b.value * a.value) by (nonlinear_arith);
    }

    proof fn times_associates(a: Self, b: Self, c: Self) {
        let (x, y, z) = (a.value as int, b.value as int, c.value as int);
        exact::lemma_wrapping(a.value, b.value);
        exact::lemma_wrapping(b.value, c.value);
        exact::lemma_wrapping(c.value, 0);
        exact::lemma_wrapping(cropped(x * y), c.value);
        exact::lemma_wrapping(a.value, cropped(y * z));
        exact::lemma_crop_product(x * y, z);
        exact::lemma_crop_product(x, y * z);
        assert((x * y) * z == x * (y * z)) by (nonlinear_arith);
    }

    proof fn times_distributes(a: Self, b: Self, c: Self) {
        let (x, y, z) = (a.value as int, b.value as int, c.value as int);
        exact::lemma_wrapping(a.value, b.value);
        exact::lemma_wrapping(a.value, c.value);
        exact::lemma_wrapping(b.value, c.value);
        exact::lemma_wrapping(a.value, cropped(y + z));
        exact::lemma_wrapping(cropped(x * y), cropped(x * z));
        exact::lemma_crop_product(x, y + z);
        exact::lemma_crop_sum(x * y, x * z);
        assert(x * (y + z) == x * y + x * z) by (nonlinear_arith);
    }
}

/// Equal sums with a common part have equal rests.
pub proof fn lemma_cancel<R: ExactReal>(a: R, b: R, c: R)
    requires
        a.spec_plus(c) == b.spec_plus(c),
    ensures
        a == b,
{
    R::minus_undoes_plus(a, c);
    R::minus_undoes_plus(b, c);
}

/// Differences do not feel a common shift.
pub proof fn lemma_shifted_difference<R: ExactReal>(a: R, b: R, c: R)
    ensures
        a.spec_plus(c).spec_minus(b.spec_plus(c)) == a.spec_minus(b),
{
    let d = a.spec_minus(b);
    R::minus_undoes_plus(a, b);
    R::plus_associates(d, b, c);
    R::minus_undoes_plus(d, b.spec_plus(c));
}

/// Complex scalars with exact arithmetic whose phases add up.
pub trait ExactEvolving<R: ExactReal>: Evolving<R> + ExactScalar {
    /// Two rotations in a row turn by the sum of their angles.
    proof fn rotations_add(a: R, b: R)
        ensures
            Self::spec_rotation(a.spec_plus(b)) == Self::spec_rotation(a).spec_times(
                Self::spec_rotation(b),
            ),
    ;

    /// No rotation leaves the unit scalar, and the opposite rotation is the conjugate one.
    proof fn rotation_undone(a: R)
        ensures
            Self::spec_rotation(R::spec_zero()) == Self::spec_one(),
            Self::spec_rotation(R::spec_zero().spec_minus(a)) == Self::spec_rotation(
                a,
            ).spec_conjugate(),
    ;
}

proof fn lemma_quarters(value: int)
    ensures
        cropped(value) as int % 4 == value % 4,
{
    let q = exact::lemma_crop_quotient(value);
    assert(cropped(value) == 4 * (q * 0x4000_0000_0000_0000) + value) by (nonlinear_arith)
        requires
            cropped(value) == value + q * exact::word_range(),
            exact::word_range() == 4 * 0x4000_0000_0000_0000int,
    ;
    vstd::arithmetic::div_mod::lemma_mod_multiples_vanish(
        q * 0x4000_0000_0000_0000,
        value,
        4,
    );
}

/// The powers of minus the imaginary unit.
pub open spec fn quarter(turns: int) -> Gaussian {
    if turns == 0 {
        Gaussian { re: 1, im: 0 }
    } else if turns == 1 {
        Gaussian { re: 0, im: (-1) as i64 }
    } else if turns == 2 {
        Gaussian { re: (-1) as i64, im: 0 }
    } else {
        Gaussian { re: 0, im: 1 }
    }
}

pub proof fn lemma_quarters_multiply(a: int, b: int)
    requires
        0 <= a < 4,
        0 <= b < 4,
    ensures
        quarter(a).spec_times(quarter(b)) == quarter((a + b) % 4),
        quarter(a).spec_conjugate() == quarter((-a) % 4),
{
    assert(quarter(0).spec_times(quarter(0)) == quarter(0));
    assert(quarter(0).spec_times(quarter(1)) == quarter(1));
    assert(quarter(0).spec_times(quarter(2)) == quarter(2));
    assert(quarter(0).spec_times(quarter(3)) == quarter(3));
    assert(quarter(1).spec_times(quarter(0)) == quarter(1));
    assert(quarter(1).spec_times(quarter(1)) == quarter(2));
    assert(quarter(1).spec_times(quarter(2)) == quarter(3));
    assert(quarter(1).spec_times(quarter(3)) == quarter(0));
    assert(quarter(2).spec_times(quarter(0)) == quarter(2));
    assert(quarter(2).spec_times(quarter(1)) == quarter(3));
    assert(quarter(2).spec_times(quarter(2)) == quarter(0));
    assert(quarter(2).spec_times(quarter(3)) == quarter(1));
    assert(quarter(3).spec_times(quarter(0)) == quarter(3));
    assert(quarter(3).spec_times(quarter(1)) == quarter(0));
    assert(quarter(3).spec_times(quarter(2)) == quarter(1));
    assert(quarter(3).spec_times(quarter(3)) == quarter(2));
}

impl ExactEvolving<Whole> for Gaussian {
    proof fn rotations_add(a: Whole, b: Whole) {
        let (x, y) = (a.value as int, b.value as int);
        exact::lemma_wrapping(a.value, b.value);
        lemma_quarters(x + y);
        lemma_quarters_multiply(x % 4, y % 4);
        assert((x % 4 + y % 4) % 4 == (x + y) % 4);
        assert(Self::spec_rotation(a) == quarter(x % 4));
        assert(Self::spec_rotation(b) == quarter(y % 4));
    }

    proof fn rotation_undone(a: Whole) {
        let x = a.value as int;
        exact::lemma_wrapping(0, a.value);
        lemma_quarters(-x);
        lemma_quarters_multiply(x % 4, 0);
        assert((-(x % 4)) % 4 == (-x) % 4);
        assert(Self::spec_rotation(a) == quarter(x % 4));
    }
}

/// A turn by one more quarter multiplies by minus the imaginary unit, whatever the angle.
pub proof fn law_quarter_turns_are_clockwise(angle: Whole)
    ensures
        <Gaussian as Evolving<Whole>>::spec_rotation(angle.spec_plus(Whole { value: 1 }))
            == <Gaussian as Evolving<Whole>>::spec_rotation(angle).spec_times(
            Gaussian { re: 0, im: (-1) as i64 },
        ),
{
    <Gaussian as ExactEvolving<Whole>>::rotations_add(angle, Whole { value: 1 });
    assert(1int % 4 == 1);
}

/// Complex scalars with exact arithmetic over exact real numbers.
pub trait ExactComplex<R: ExactReal>: ComplexOver<R> + ExactScalar {
    /// Whether every scalar can be divided by a number without a rest.
    spec fn divides(divisor: R) -> bool;

    /// Division without a rest is linear.
    proof fn division_is_linear(a: Self, b: Self, divisor: R)
        requires
            Self::divides(divisor),
        ensures
            a.spec_plus(b).spec_divided(divisor) == a.spec_divided(divisor).spec_plus(
                b.spec_divided(divisor),
            ),
            a.spec_times(b).spec_divided(divisor) == a.spec_times(b.spec_divided(divisor)),
            Self::spec_zero().spec_divided(divisor) == Self::spec_zero(),
            a.spec_times(Self::spec_from_number(divisor)).spec_divided(divisor) == a,
    ;

    /// Division by one changes nothing.
    proof fn unit_division(a: Self)
        ensures
            a.spec_divided(R::spec_one()) == a,
    ;

    /// Real numbers keep their sums and products as scalars, and the weight of a scalar is its
    /// product with its conjugate.
    proof fn numbers_embed(a: Self, x: R, y: R)
        ensures
            Self::spec_from_number(x.spec_plus(y)) == Self::spec_from_number(x).spec_plus(
                Self::spec_from_number(y),
            ),
            Self::spec_from_number(x.spec_times(y)) == Self::spec_from_number(x).spec_times(
                Self::spec_from_number(y),
            ),
            Self::spec_from_number(R::spec_zero()) == Self::spec_zero(),
            Self::spec_from_number(R::spec_one()) == Self::spec_one(),
            Self::spec_from_number(x).spec_conjugate() == Self::spec_from_number(x),
            Self::spec_from_number(x).spec_real() == x,
            Self::spec_from_number(a.spec_weight()) == a.spec_times(a.spec_conjugate()),
    ;
}

impl ExactComplex<Whole> for Gaussian {
    /// Only one divides every whole number.
    open spec fn divides(divisor: Whole) -> bool {
        divisor.value == 1
    }

    proof fn division_is_linear(a: Self, b: Self, divisor: Whole) {
        assert(forall|x: i64| crate::matrix_subspace::quotient(x, 1) == x);
        Self::times_commutes(a, Self::spec_one());
        Self::one_is_neutral(a);
    }

    proof fn unit_division(a: Self) {
        assert(forall|x: i64| crate::matrix_subspace::quotient(x, 1) == x);
    }

    proof fn numbers_embed(a: Self, x: Whole, y: Whole) {
        exact::lemma_wrapping(x.value, y.value);
        exact::lemma_wrapping(0, 0);
        exact::lemma_wrapping(x.value, 0);
        exact::lemma_wrapping(0, y.value);
        assert(x.value * 0 == 0 && 0 * y.value == 0 && 0int * 0 == 0);
        exact::lemma_wrapping(x.value.wrapping_mul(y.value), 0);
        let (re, im) = (a.re as int, a.im as int);
        exact::lemma_wrapping(0, a.im);
        exact::lemma_wrapping(a.re, a.re);
        exact::lemma_wrapping(a.im, a.im);
        exact::lemma_wrapping(a.im, a.re);
        exact::lemma_wrapping(a.im, 0);
        exact::lemma_wrapping(a.re, 0);
        let back = cropped(-im);
        exact::lemma_wrapping(a.re, back);
        exact::lemma_wrapping(a.im, back);
        exact::lemma_crop_product(re, -im);
        exact::lemma_crop_product(im, -im);
        assert(re * (-im) == -(im * re)) by (nonlinear_arith);
        assert(im * (-im) == -(im * im)) by (nonlinear_arith);
        exact::lemma_wrapping(cropped(re * re), cropped(-(im * im)));
        exact::lemma_wrapping(cropped(re * re), cropped(im * im));
        exact::lemma_wrapping(cropped(-(im * re)), cropped(im * re));
        exact::lemma_crop_sum(re * re, -(im * im));
        exact::lemma_crop_sum(re * re, im * im);
        exact::lemma_crop_sum(-(im * re), im * re);
        assert(cropped(0) == 0);
    }
}

} // verus!

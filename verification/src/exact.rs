//! Scalars whose arithmetic is exact, and what operators over them satisfy.

use vstd::arithmetic::div_mod::*;
use vstd::prelude::*;

use crate::ad;
use crate::ad::ParameterDomain;
use crate::family;
use crate::family::ComponentModel;
use crate::interop;
use crate::interop::FamilyModel;
use crate::linear;
use crate::linear::{Gaussian, Scalar};

verus! {

/// Scalars that form a commutative ring with conjugation.
pub trait ExactScalar: Scalar {
    proof fn plus_commutes(a: Self, b: Self)
        ensures
            a.spec_plus(b) == b.spec_plus(a),
    ;

    proof fn plus_associates(a: Self, b: Self, c: Self)
        ensures
            a.spec_plus(b).spec_plus(c) == a.spec_plus(b.spec_plus(c)),
    ;

    proof fn zero_is_neutral(a: Self)
        ensures
            a.spec_plus(Self::spec_zero()) == a,
            Self::spec_zero().spec_times(a) == Self::spec_zero(),
    ;

    proof fn one_is_neutral(a: Self)
        ensures
            Self::spec_one().spec_times(a) == a,
            Self::spec_one().spec_conjugate() == Self::spec_one(),
    ;

    proof fn times_commutes(a: Self, b: Self)
        ensures
            a.spec_times(b) == b.spec_times(a),
    ;

    proof fn times_associates(a: Self, b: Self, c: Self)
        ensures
            a.spec_times(b).spec_times(c) == a.spec_times(b.spec_times(c)),
    ;

    proof fn times_distributes(a: Self, b: Self, c: Self)
        ensures
            a.spec_times(b.spec_plus(c)) == a.spec_times(b).spec_plus(a.spec_times(c)),
    ;

    proof fn conjugation_is_linear(a: Self, b: Self)
        ensures
            a.spec_plus(b).spec_conjugate() == a.spec_conjugate().spec_plus(b.spec_conjugate()),
            a.spec_times(b).spec_conjugate() == a.spec_conjugate().spec_times(b.spec_conjugate()),
            Self::spec_zero().spec_conjugate() == Self::spec_zero(),
            a.spec_conjugate().spec_conjugate() == a,
    ;

    /// Real parts add up, and real factors can be taken out of them.
    proof fn real_part_is_linear(a: Self, b: Self)
        ensures
            a.spec_plus(b).spec_real_part() == a.spec_real_part().spec_plus(b.spec_real_part()),
            a.spec_real_part().spec_is_real(),
            a.spec_is_real() ==> a.spec_conjugate().spec_times(b).spec_real_part()
                == a.spec_conjugate().spec_times(b.spec_real_part()).spec_real_part(),
            a.spec_is_real() ==> a.spec_conjugate() == a,
    ;
}

/// The range of 64 bits.
pub open spec fn word_range() -> int {
    0x1_0000_0000_0000_0000
}

/// The integer of 64 bits that differs from the given one by a multiple of the range.
pub open spec fn cropped(value: int) -> i64 {
    let rest = value % word_range();
    if rest > i64::MAX {
        (rest - word_range()) as i64
    } else {
        rest as i64
    }
}

proof fn lemma_cropped(left: int, right: int, quotient: int)
    requires
        left == right + quotient * word_range(),
    ensures
        cropped(left) == cropped(right),
{
    lemma_mod_multiples_vanish(quotient, right, word_range());
    assert(word_range() * quotient + right == left) by (nonlinear_arith)
        requires
            left == right + quotient * word_range(),
    ;
}

pub proof fn lemma_crop_quotient(value: int) -> (quotient: int)
    ensures
        cropped(value) == value + quotient * word_range(),
{
    lemma_fundamental_div_mod(value, word_range());
    let whole = value / word_range();
    let rest = value % word_range();
    assert(value == word_range() * whole + rest);
    if rest > i64::MAX {
        assert(cropped(value) == rest - word_range());
        assert(rest - word_range() == value + (-whole - 1) * word_range()) by (nonlinear_arith)
            requires
                value == word_range() * whole + rest,
        ;
        -whole - 1
    } else {
        assert(rest == value + (-whole) * word_range()) by (nonlinear_arith)
            requires
                value == word_range() * whole + rest,
        ;
        -whole
    }
}

pub proof fn lemma_wrapping(a: i64, b: i64)
    ensures
        a.wrapping_add(b) == cropped(a + b),
        a.wrapping_sub(b) == cropped(a - b),
        a.wrapping_mul(b) == cropped(a * b),
        a == cropped(a as int),
{
    assert(cropped(a as int) == a);
    let up = lemma_crop_quotient(a + b);
    let down = lemma_crop_quotient(a - b);
}

/// A pair of integers of any size.
pub struct IntegerPair {
    pub re: int,
    pub im: int,
}

spec fn pair_plus(a: IntegerPair, b: IntegerPair) -> IntegerPair {
    IntegerPair { re: a.re + b.re, im: a.im + b.im }
}

spec fn pair_times(a: IntegerPair, b: IntegerPair) -> IntegerPair {
    IntegerPair { re: a.re * b.re - a.im * b.im, im: a.re * b.im + a.im * b.re }
}

spec fn wrapped(a: IntegerPair) -> Gaussian {
    Gaussian { re: cropped(a.re), im: cropped(a.im) }
}

spec fn lifted(a: Gaussian) -> IntegerPair {
    IntegerPair { re: a.re as int, im: a.im as int }
}

proof fn lemma_lifted(a: Gaussian)
    ensures
        wrapped(lifted(a)) == a,
{
    lemma_wrapping(a.re, 0);
    lemma_wrapping(a.im, 0);
}

pub proof fn lemma_crop_sum(a: int, b: int)
    ensures
        cropped(cropped(a) + cropped(b)) == cropped(a + b),
        cropped(cropped(a) - cropped(b)) == cropped(a - b),
{
    let m = lemma_crop_quotient(a);
    let n = lemma_crop_quotient(b);
    assert(cropped(a) + cropped(b) == a + b + (m + n) * word_range()) by (nonlinear_arith)
        requires
            cropped(a) == a + m * word_range(),
            cropped(b) == b + n * word_range(),
    ;
    lemma_cropped(cropped(a) + cropped(b), a + b, m + n);
    assert(cropped(a) - cropped(b) == a - b + (m - n) * word_range()) by (nonlinear_arith)
        requires
            cropped(a) == a + m * word_range(),
            cropped(b) == b + n * word_range(),
    ;
    lemma_cropped(cropped(a) - cropped(b), a - b, m - n);
}

pub proof fn lemma_crop_product(a: int, b: int)
    ensures
        cropped(cropped(a) * cropped(b)) == cropped(a * b),
{
    let m = lemma_crop_quotient(a);
    let n = lemma_crop_quotient(b);
    let k = a * n + m * b + m * n * word_range();
    assert((a + m * word_range()) * (b + n * word_range()) == a * b + k * word_range())
        by (nonlinear_arith)
        requires
            k == a * n + m * b + m * n * word_range(),
    ;
    lemma_cropped(cropped(a) * cropped(b), a * b, k);
}

proof fn lemma_wrapped_plus(a: IntegerPair, b: IntegerPair)
    ensures
        wrapped(a).spec_plus(wrapped(b)) == wrapped(pair_plus(a, b)),
{
    lemma_wrapping(cropped(a.re), cropped(b.re));
    lemma_wrapping(cropped(a.im), cropped(b.im));
    lemma_crop_sum(a.re, b.re);
    lemma_crop_sum(a.im, b.im);
}

proof fn lemma_wrapped_times(a: IntegerPair, b: IntegerPair)
    ensures
        wrapped(a).spec_times(wrapped(b)) == wrapped(pair_times(a, b)),
{
    lemma_wrapping(cropped(a.re), cropped(b.re));
    lemma_wrapping(cropped(a.im), cropped(b.im));
    lemma_wrapping(cropped(a.re), cropped(b.im));
    lemma_wrapping(cropped(a.im), cropped(b.re));
    lemma_crop_product(a.re, b.re);
    lemma_crop_product(a.im, b.im);
    lemma_crop_product(a.re, b.im);
    lemma_crop_product(a.im, b.re);
    lemma_wrapping(cropped(a.re * b.re), cropped(a.im * b.im));
    lemma_wrapping(cropped(a.re * b.im), cropped(a.im * b.re));
    lemma_crop_sum(a.re * b.re, a.im * b.im);
    lemma_crop_sum(a.re * b.im, a.im * b.re);
}

proof fn lemma_wrapped_conjugate(a: IntegerPair)
    ensures
        wrapped(a).spec_conjugate() == wrapped(IntegerPair { re: a.re, im: -a.im }),
{
    lemma_wrapping(0, cropped(a.im));
    lemma_crop_sum(0, a.im);
    assert(cropped(0) == 0);
}

impl ExactScalar for Gaussian {
    proof fn plus_commutes(a: Self, b: Self) {
    }

    proof fn plus_associates(a: Self, b: Self, c: Self) {
        let (x, y, z) = (lifted(a), lifted(b), lifted(c));
        lemma_lifted(a);
        lemma_lifted(b);
        lemma_lifted(c);
        lemma_wrapped_plus(x, y);
        lemma_wrapped_plus(pair_plus(x, y), z);
        lemma_wrapped_plus(y, z);
        lemma_wrapped_plus(x, pair_plus(y, z));
    }

    proof fn zero_is_neutral(a: Self) {
        let x = lifted(a);
        let nothing = IntegerPair { re: 0, im: 0 };
        lemma_lifted(a);
        lemma_lifted(Self::spec_zero());
        lemma_wrapped_times(nothing, x);
        assert(0 * x.re == 0 && 0 * x.im == 0);
        assert(pair_times(nothing, x) == nothing);
    }

    proof fn one_is_neutral(a: Self) {
        let x = lifted(a);
        let unit = IntegerPair { re: 1, im: 0 };
        lemma_lifted(a);
        lemma_lifted(Self::spec_one());
        lemma_wrapped_times(unit, x);
        lemma_wrapped_conjugate(unit);
        assert(1 * x.re == x.re && 1 * x.im == x.im && 0 * x.re == 0 && 0 * x.im == 0);
        assert(pair_times(unit, x) == x);
    }

    proof fn times_commutes(a: Self, b: Self) {
        let (x, y) = (lifted(a), lifted(b));
        lemma_lifted(a);
        lemma_lifted(b);
        lemma_wrapped_times(x, y);
        lemma_wrapped_times(y, x);
        assert(pair_times(x, y) == pair_times(y, x)) by {
            assert(x.re * y.re == y.re * x.re) by (nonlinear_arith);
            assert(x.im * y.im == y.im * x.im) by (nonlinear_arith);
            assert(x.re * y.im == y.im * x.re) by (nonlinear_arith);
            assert(x.im * y.re == y.re * x.im) by (nonlinear_arith);
        }
    }

    proof fn times_associates(a: Self, b: Self, c: Self) {
        let (x, y, z) = (lifted(a), lifted(b), lifted(c));
        lemma_lifted(a);
        lemma_lifted(b);
        lemma_lifted(c);
        lemma_wrapped_times(x, y);
        lemma_wrapped_times(pair_times(x, y), z);
        lemma_wrapped_times(y, z);
        lemma_wrapped_times(x, pair_times(y, z));
        lemma_pair_times_associates(x, y, z);
    }

    proof fn times_distributes(a: Self, b: Self, c: Self) {
        let (x, y, z) = (lifted(a), lifted(b), lifted(c));
        lemma_lifted(a);
        lemma_lifted(b);
        lemma_lifted(c);
        lemma_wrapped_plus(y, z);
        lemma_wrapped_times(x, pair_plus(y, z));
        lemma_wrapped_times(x, y);
        lemma_wrapped_times(x, z);
        lemma_wrapped_plus(pair_times(x, y), pair_times(x, z));
        assert(x.re * (y.re + z.re) == x.re * y.re + x.re * z.re) by (nonlinear_arith);
        assert(x.re * (y.im + z.im) == x.re * y.im + x.re * z.im) by (nonlinear_arith);
        assert(x.im * (y.re + z.re) == x.im * y.re + x.im * z.re) by (nonlinear_arith);
        assert(x.im * (y.im + z.im) == x.im * y.im + x.im * z.im) by (nonlinear_arith);
        assert(pair_times(x, pair_plus(y, z)) == pair_plus(pair_times(x, y), pair_times(x, z)));
    }

    proof fn conjugation_is_linear(a: Self, b: Self) {
        let (x, y) = (lifted(a), lifted(b));
        let mirror_x = IntegerPair { re: x.re, im: -x.im };
        let mirror_y = IntegerPair { re: y.re, im: -y.im };
        lemma_lifted(a);
        lemma_lifted(b);
        lemma_wrapped_plus(x, y);
        lemma_wrapped_times(x, y);
        lemma_wrapped_conjugate(x);
        lemma_wrapped_conjugate(y);
        lemma_wrapped_conjugate(pair_plus(x, y));
        lemma_wrapped_conjugate(pair_times(x, y));
        lemma_wrapped_conjugate(mirror_x);
        lemma_wrapped_plus(mirror_x, mirror_y);
        lemma_wrapped_times(mirror_x, mirror_y);
        assert((-x.im) * (-y.im) == x.im * y.im) by (nonlinear_arith);
        assert(x.re * (-y.im) == -(x.re * y.im)) by (nonlinear_arith);
        assert((-x.im) * y.re == -(x.im * y.re)) by (nonlinear_arith);
    }

    proof fn real_part_is_linear(a: Self, b: Self) {
        if a.spec_is_real() {
            let (x, y) = (lifted(a), lifted(b));
            let flat = IntegerPair { re: y.re, im: 0 };
            lemma_lifted(a);
            lemma_lifted(b);
            lemma_lifted(b.spec_real_part());
            lemma_wrapped_conjugate(x);
            let mirror = IntegerPair { re: x.re, im: -x.im };
            lemma_wrapped_times(mirror, y);
            lemma_wrapped_times(mirror, flat);
            assert(0 * y.im == 0 && 0 * 0 == 0);
        }
    }
}

proof fn lemma_left_product(a: int, b: int, c: int, d: int, e: int)
    ensures
        (a * b - c * d) * e == a * (b * e) - c * (d * e),
        (a * b + c * d) * e == a * (b * e) + c * (d * e),
{
    let (p, q) = (a * b, c * d);
    assert((p - q) * e == p * e - q * e) by (nonlinear_arith);
    assert((p + q) * e == p * e + q * e) by (nonlinear_arith);
    assert((a * b) * e == a * (b * e)) by (nonlinear_arith);
    assert((c * d) * e == c * (d * e)) by (nonlinear_arith);
}

proof fn lemma_right_product(a: int, b: int, c: int)
    ensures
        a * (b - c) == a * b - a * c,
        a * (b + c) == a * b + a * c,
{
    assert(a * (b - c) == a * b - a * c) by (nonlinear_arith);
    assert(a * (b + c) == a * b + a * c) by (nonlinear_arith);
}

proof fn lemma_pair_times_associates(x: IntegerPair, y: IntegerPair, z: IntegerPair)
    ensures
        pair_times(pair_times(x, y), z) == pair_times(x, pair_times(y, z)),
{
    lemma_left_product(x.re, y.re, x.im, y.im, z.re);
    lemma_left_product(x.re, y.re, x.im, y.im, z.im);
    lemma_left_product(x.re, y.im, x.im, y.re, z.im);
    lemma_left_product(x.re, y.im, x.im, y.re, z.re);
    lemma_right_product(x.re, y.re * z.re, y.im * z.im);
    lemma_right_product(x.im, y.re * z.im, y.im * z.re);
    lemma_right_product(x.re, y.re * z.im, y.im * z.re);
    lemma_right_product(x.im, y.re * z.re, y.im * z.im);
}

/// Changing one entry of the first vector changes an inner product by one product.
proof fn lemma_inner_left<S: ExactScalar>(left: Seq<S>, right: Seq<S>, place: int, added: S)
    requires
        0 <= place < left.len(),
        left.len() <= right.len(),
    ensures
        linear::inner_product(left.update(place, left[place].spec_plus(added)), right)
            == linear::inner_product(left, right).spec_plus(
            added.spec_conjugate().spec_times(right[place]),
        ),
    decreases left.len(),
{
    let changed = left.update(place, left[place].spec_plus(added));
    let last = left.len() - 1;
    let before = linear::inner_product(left.drop_last(), right);
    let term = left[last].spec_conjugate().spec_times(right[last]);
    let extra = added.spec_conjugate().spec_times(right[place]);
    if place == last {
        assert(changed.drop_last() =~= left.drop_last());
        S::conjugation_is_linear(left[last], added);
        S::times_commutes(
            left[last].spec_conjugate().spec_plus(added.spec_conjugate()),
            right[last],
        );
        S::times_distributes(
            right[last],
            left[last].spec_conjugate(),
            added.spec_conjugate(),
        );
        S::times_commutes(left[last].spec_conjugate(), right[last]);
        S::times_commutes(added.spec_conjugate(), right[last]);
        S::plus_associates(before, term, extra);
    } else {
        lemma_inner_left(left.drop_last(), right, place, added);
        assert(changed.drop_last() =~= left.drop_last().update(
            place,
            left.drop_last()[place].spec_plus(added),
        ));
        S::plus_associates(before, extra, term);
        S::plus_commutes(extra, term);
        S::plus_associates(before, term, extra);
    }
}

/// Changing one entry of the second vector changes an inner product by one product.
proof fn lemma_inner_right<S: ExactScalar>(left: Seq<S>, right: Seq<S>, place: int, added: S)
    requires
        0 <= place < left.len(),
        left.len() <= right.len(),
    ensures
        linear::inner_product(left, right.update(place, right[place].spec_plus(added)))
            == linear::inner_product(left, right).spec_plus(
            left[place].spec_conjugate().spec_times(added),
        ),
    decreases left.len(),
{
    let changed = right.update(place, right[place].spec_plus(added));
    let last = left.len() - 1;
    let before = linear::inner_product(left.drop_last(), right);
    let term = left[last].spec_conjugate().spec_times(right[last]);
    let extra = left[place].spec_conjugate().spec_times(added);
    if place == last {
        lemma_inner_ignores(left.drop_last(), right, changed);
        S::times_distributes(left[last].spec_conjugate(), right[last], added);
        S::plus_associates(before, term, extra);
    } else {
        lemma_inner_right(left.drop_last(), right, place, added);
        S::plus_associates(before, extra, term);
        S::plus_commutes(extra, term);
        S::plus_associates(before, term, extra);
    }
}

/// Entries beyond the first vector do not matter.
proof fn lemma_inner_ignores<S: ExactScalar>(left: Seq<S>, right: Seq<S>, other: Seq<S>)
    requires
        left.len() <= right.len(),
        left.len() <= other.len(),
        forall|i: int| 0 <= i < left.len() ==> #[trigger] right[i] == other[i],
    ensures
        linear::inner_product(left, right) == linear::inner_product(left, other),
    decreases left.len(),
{
    if left.len() > 0 {
        lemma_inner_ignores(left.drop_last(), right, other);
        assert(right[left.len() - 1] == other[left.len() - 1]);
    }
}

proof fn lemma_inner_zero<S: ExactScalar>(length: nat, other: Seq<S>)
    ensures
        linear::inner_product(linear::zeros::<S>(length), other) == S::spec_zero(),
    decreases length,
{
    let zeros = linear::zeros::<S>(length);
    if length > 0 {
        lemma_inner_zero((length - 1) as nat, other);
        assert(zeros.drop_last() =~= linear::zeros::<S>((length - 1) as nat));
        S::conjugation_is_linear(S::spec_zero(), S::spec_zero());
        S::zero_is_neutral(other[length - 1]);
        S::zero_is_neutral(S::spec_zero());
    }
}

pub proof fn lemma_inner_with_zero<S: ExactScalar>(left: Seq<S>, length: nat)
    requires
        left.len() <= length,
    ensures
        linear::inner_product(left, linear::zeros::<S>(length)) == S::spec_zero(),
    decreases left.len(),
{
    if left.len() > 0 {
        lemma_inner_with_zero(left.drop_last(), length);
        let last = left.last();
        S::times_commutes(last.spec_conjugate(), S::spec_zero());
        S::zero_is_neutral(last.spec_conjugate());
        S::zero_is_neutral(S::spec_zero());
    }
}

/// `⟨A x, y⟩ == ⟨x, A† y⟩` for every matrix and all vectors: what `apply_adjoint` computes
/// is the adjoint of what `apply` computes.
pub proof fn law_adjoint<S: ExactScalar>(
    entries: Seq<(usize, usize, S)>,
    rows: usize,
    columns: usize,
    x: Seq<S>,
    y: Seq<S>,
)
    requires
        linear::entries_fit(entries, rows, columns),
        x.len() == columns,
        y.len() == rows,
    ensures
        linear::inner_product(linear::entries_apply(entries, x, rows as nat), y)
            == linear::inner_product(x, linear::entries_apply_adjoint(entries, y, columns as nat)),
    decreases entries.len(),
{
    if entries.len() == 0 {
        lemma_inner_zero::<S>(rows as nat, y);
        lemma_inner_with_zero(x, columns as nat);
    } else {
        let shorter = entries.drop_last();
        let last = entries[entries.len() - 1];
        assert(last.0 < rows && last.1 < columns);
        assert forall|i: int| 0 <= i < shorter.len() implies (#[trigger] shorter[i]).0 < rows
            && shorter[i].1 < columns by {
            assert(entries[i].0 < rows);
        }
        law_adjoint(shorter, rows, columns, x, y);
        linear::lemma_entries_apply(shorter, x, rows, columns);
        linear::lemma_entries_apply(shorter, y, rows, columns);
        let (row, column, value) = last;
        let (a, b) = (x[column as int], y[row as int]);
        let image = linear::entries_apply(shorter, x, rows as nat);
        let coimage = linear::entries_apply_adjoint(shorter, y, columns as nat);
        lemma_inner_left(image, y, row as int, value.spec_times(a));
        lemma_inner_right(x, coimage, column as int, value.spec_conjugate().spec_times(b));
        S::conjugation_is_linear(value, a);
        S::times_commutes(value.spec_conjugate(), a.spec_conjugate());
        S::times_associates(a.spec_conjugate(), value.spec_conjugate(), b);
    }
}

/// Two sums of two can be taken crosswise.
pub proof fn lemma_crosswise<S: ExactScalar>(a: S, b: S, c: S, d: S)
    ensures
        a.spec_plus(b).spec_plus(c.spec_plus(d)) == a.spec_plus(c).spec_plus(b.spec_plus(d)),
{
    S::plus_associates(a, b, c.spec_plus(d));
    S::plus_associates(b, c, d);
    S::plus_commutes(b, c);
    S::plus_associates(c, b, d);
    S::plus_associates(a, c, b.spec_plus(d));
}

pub proof fn lemma_inner_scaled_left<S: ExactScalar>(
    target: Seq<S>,
    factor: S,
    vector: Seq<S>,
    other: Seq<S>,
)
    requires
        target.len() == vector.len(),
    ensures
        linear::inner_product(linear::add_scaled(target, factor, vector), other)
            == linear::inner_product(target, other).spec_plus(
            factor.spec_conjugate().spec_times(linear::inner_product(vector, other)),
        ),
    decreases target.len(),
{
    let sum = linear::add_scaled(target, factor, vector);
    let f = factor.spec_conjugate();
    if target.len() == 0 {
        S::times_commutes(f, S::spec_zero());
        S::zero_is_neutral(f);
        S::zero_is_neutral(S::spec_zero());
    } else {
        let last = target.len() - 1;
        lemma_inner_scaled_left(target.drop_last(), factor, vector.drop_last(), other);
        assert(sum.drop_last() =~= linear::add_scaled(
            target.drop_last(),
            factor,
            vector.drop_last(),
        ));
        let (t, v, y) = (target[last], vector[last], other[last]);
        let (p, q) = (
            linear::inner_product(target.drop_last(), other),
            linear::inner_product(vector.drop_last(), other),
        );
        S::conjugation_is_linear(t, factor.spec_times(v));
        S::conjugation_is_linear(factor, v);
        let (tc, vc) = (t.spec_conjugate(), v.spec_conjugate());
        S::times_commutes(tc.spec_plus(f.spec_times(vc)), y);
        S::times_distributes(y, tc, f.spec_times(vc));
        S::times_commutes(y, tc);
        S::times_commutes(y, f.spec_times(vc));
        S::times_associates(f, vc, y);
        lemma_crosswise(
            p,
            f.spec_times(q),
            tc.spec_times(y),
            f.spec_times(vc.spec_times(y)),
        );
        S::times_distributes(f, q, vc.spec_times(y));
    }
}

pub proof fn lemma_inner_scaled_right<S: ExactScalar>(
    other: Seq<S>,
    target: Seq<S>,
    factor: S,
    vector: Seq<S>,
)
    requires
        other.len() <= target.len(),
        target.len() == vector.len(),
    ensures
        linear::inner_product(other, linear::add_scaled(target, factor, vector))
            == linear::inner_product(other, target).spec_plus(
            factor.spec_times(linear::inner_product(other, vector)),
        ),
    decreases other.len(),
{
    if other.len() == 0 {
        S::times_commutes(factor, S::spec_zero());
        S::zero_is_neutral(factor);
        S::zero_is_neutral(S::spec_zero());
    } else {
        let last = other.len() - 1;
        lemma_inner_scaled_right(other.drop_last(), target, factor, vector);
        let (x, t, v) = (other[last].spec_conjugate(), target[last], vector[last]);
        let (p, q) = (
            linear::inner_product(other.drop_last(), target),
            linear::inner_product(other.drop_last(), vector),
        );
        S::times_distributes(x, t, factor.spec_times(v));
        S::times_associates(x, factor, v);
        S::times_commutes(x, factor);
        S::times_associates(factor, x, v);
        lemma_crosswise(
            p,
            factor.spec_times(q),
            x.spec_times(t),
            factor.spec_times(x.spec_times(v)),
        );
        S::times_distributes(factor, q, x.spec_times(v));
    }
}

proof fn lemma_pullback_is_adjoint<S: ExactScalar>(
    components: Seq<ComponentModel<S>>,
    domains: Seq<ParameterDomain>,
    values: Seq<S>,
    direction: Seq<S>,
    input: Seq<S>,
    input_direction: Seq<S>,
    cotangent: Seq<S>,
    count: nat,
)
    requires
        components.len() > 0,
        count <= components.len(),
        family::same_shapes(components),
        domains.len() == components.len(),
        values.len() == components.len(),
        direction.len() == components.len(),
        forall|k: int|
            0 <= k < components.len() && domains[k] == ParameterDomain::Real ==> (
            #[trigger] direction[k]).spec_is_real(),
        input.len() == components[0].operator.columns,
        input_direction.len() == components[0].operator.columns,
        cotangent.len() == components[0].operator.rows,
    ensures
        linear::inner_product(
            ad::tangent_of(components, values, direction, input, input_direction, count),
            cotangent,
        ).spec_real_part() == linear::inner_product(
            input_direction,
            ad::state_cotangent(components, values, cotangent, count),
        ).spec_plus(
            linear::inner_product(
                direction.take(count as int),
                ad::parameter_cotangents(components, domains, input, cotangent),
            ),
        ).spec_real_part(),
        ad::tangent_of(components, values, direction, input, input_direction, count).len()
            == components[0].operator.rows,
        ad::state_cotangent(components, values, cotangent, count).len()
            == components[0].operator.columns,
    decreases count,
{
    let rows = components[0].operator.rows;
    let columns = components[0].operator.columns;
    let gradient = ad::parameter_cotangents(components, domains, input, cotangent);
    let zero = S::spec_zero();
    if count == 0 {
        lemma_inner_zero::<S>(rows as nat, cotangent);
        lemma_inner_with_zero(input_direction, columns as nat);
        assert(direction.take(0) =~= Seq::empty());
        S::zero_is_neutral(zero);
    } else {
        let last = count - 1;
        lemma_pullback_is_adjoint(
            components,
            domains,
            values,
            direction,
            input,
            input_direction,
            cotangent,
            last as nat,
        );
        let component = components[last];
        assert(component.operator.rows == rows && component.operator.columns == columns);
        let entries = component.operator.entries;
        let image = linear::entries_apply(entries, input, rows as nat);
        let direction_image = linear::entries_apply(entries, input_direction, rows as nat);
        let coimage = linear::entries_apply_adjoint(entries, cotangent, columns as nat);
        linear::lemma_entries_apply(entries, input, rows, columns);
        linear::lemma_entries_apply(entries, input_direction, rows, columns);
        linear::lemma_entries_apply(entries, cotangent, rows, columns);
        law_adjoint(entries, rows, columns, input_direction, cotangent);
        let tangent = ad::tangent_of(
            components,
            values,
            direction,
            input,
            input_direction,
            last as nat,
        );
        let state = ad::state_cotangent(components, values, cotangent, last as nat);
        let (d, v) = (direction[last].spec_conjugate(), values[last].spec_conjugate());
        let z = linear::inner_product(image, cotangent);
        let w = linear::inner_product(direction_image, cotangent);
        lemma_inner_scaled_left(tangent, direction[last], image, cotangent);
        lemma_inner_scaled_left(
            linear::add_scaled(tangent, direction[last], image),
            values[last],
            direction_image,
            cotangent,
        );
        lemma_inner_scaled_right(input_direction, state, v, coimage);
        let shorter = direction.take(last);
        let longer = direction.take(count as int);
        assert(longer.drop_last() =~= shorter);
        let t = linear::inner_product(tangent, cotangent);
        let s = linear::inner_product(input_direction, state);
        let g = linear::inner_product(shorter, gradient);
        let (dz, vw) = (d.spec_times(z), v.spec_times(w));
        let dg = d.spec_times(gradient[last]);
        assert(dz.spec_real_part() == dg.spec_real_part()) by {
            if domains[last] == ParameterDomain::Real {
                assert(direction[last].spec_is_real());
                S::real_part_is_linear(direction[last], z);
            }
        }
        // Left: ((t + dz) + vw); right: ((s + vw) + (g + dg)).
        S::real_part_is_linear(t.spec_plus(dz), vw);
        S::real_part_is_linear(t, dz);
        S::real_part_is_linear(s.spec_plus(vw), g.spec_plus(dg));
        S::real_part_is_linear(s, vw);
        S::real_part_is_linear(g, dg);
        S::real_part_is_linear(s, g);
        lemma_crosswise(
            s.spec_real_part(),
            vw.spec_real_part(),
            g.spec_real_part(),
            dg.spec_real_part(),
        );
        S::plus_commutes(vw.spec_real_part(), dg.spec_real_part());
        S::plus_associates(
            t.spec_real_part(),
            dz.spec_real_part(),
            vw.spec_real_part(),
        );
    }
}

proof fn lemma_state_cotangent_length<S: ExactScalar>(
    components: Seq<ComponentModel<S>>,
    values: Seq<S>,
    cotangent: Seq<S>,
    count: nat,
)
    requires
        components.len() > 0,
        count <= components.len(),
        family::same_shapes(components),
    ensures
        ad::state_cotangent(components, values, cotangent, count).len()
            == components[0].operator.columns,
    decreases count,
{
    if count > 0 {
        lemma_state_cotangent_length(components, values, cotangent, (count - 1) as nat);
        let part = components[count - 1].operator;
        linear::lemma_entries_apply(part.entries, cotangent, part.rows, part.columns);
    }
}

/// The pullback of an operator application is the adjoint of its pushforward under the
/// pairing `Re⟨u, v⟩`: the tangent paired with an output cotangent is the input
/// direction paired with the state cotangent plus the parameter direction paired with
/// the gradient. The state cotangent has the length of the input, and the gradient of a
/// real parameter is real.
pub proof fn law_pullback_is_adjoint<S: ExactScalar>(
    components: Seq<ComponentModel<S>>,
    domains: Seq<ParameterDomain>,
    values: Seq<S>,
    direction: Seq<S>,
    input: Seq<S>,
    input_direction: Seq<S>,
    cotangent: Seq<S>,
)
    requires
        components.len() > 0,
        family::same_shapes(components),
        domains.len() == components.len(),
        values.len() == components.len(),
        direction.len() == components.len(),
        forall|k: int|
            0 <= k < components.len() && domains[k] == ParameterDomain::Real ==> (
            #[trigger] direction[k]).spec_is_real(),
        input.len() == components[0].operator.columns,
        input_direction.len() == components[0].operator.columns,
        cotangent.len() == components[0].operator.rows,
    ensures
        linear::inner_product(
            ad::tangent_of(
                components,
                values,
                direction,
                input,
                input_direction,
                components.len(),
            ),
            cotangent,
        ).spec_real_part() == linear::inner_product(
            input_direction,
            ad::state_cotangent(components, values, cotangent, components.len()),
        ).spec_plus(
            linear::inner_product(
                direction,
                ad::parameter_cotangents(components, domains, input, cotangent),
            ),
        ).spec_real_part(),
        ad::state_cotangent(components, values, cotangent, components.len()).len()
            == components[0].operator.columns,
        ad::parameter_cotangents(components, domains, input, cotangent).len() == components.len(),
        forall|k: int|
            0 <= k < components.len() && domains[k] == ParameterDomain::Real ==> (
            #[trigger] ad::parameter_cotangents(
                components,
                domains,
                input,
                cotangent,
            )[k]).spec_is_real(),
{
    lemma_state_cotangent_length(components, values, cotangent, components.len());
    assert forall|k: int|
        0 <= k < components.len() && domains[k] == ParameterDomain::Real implies (
    #[trigger] ad::parameter_cotangents(components, domains, input, cotangent)[k]).spec_is_real() by {
        let paired = linear::inner_product(
            linear::entries_apply(
                components[k].operator.entries,
                input,
                components[0].operator.rows as nat,
            ),
            cotangent,
        );
        S::real_part_is_linear(paired, paired);
    }
    lemma_pullback_is_adjoint(
        components,
        domains,
        values,
        direction,
        input,
        input_direction,
        cotangent,
        components.len(),
    );
    assert(direction.take(components.len() as int) =~= direction);
}

/// Entries of a multiple of a matrix add the multiple of its image.
proof fn lemma_scaled_entries_apply<S: ExactScalar>(
    before: Seq<(usize, usize, S)>,
    entries: Seq<(usize, usize, S)>,
    factor: S,
    x: Seq<S>,
    rows: usize,
    columns: usize,
)
    requires
        linear::entries_fit(before, rows, columns),
        linear::entries_fit(entries, rows, columns),
    ensures
        linear::entries_apply(before + family::scaled_entries(entries, factor), x, rows as nat)
            == linear::add_scaled(
            linear::entries_apply(before, x, rows as nat),
            factor,
            linear::entries_apply(entries, x, rows as nat),
        ),
    decreases entries.len(),
{
    let all = before + family::scaled_entries(entries, factor);
    let base = linear::entries_apply(before, x, rows as nat);
    linear::lemma_entries_apply(before, x, rows, columns);
    linear::lemma_entries_apply(entries, x, rows, columns);
    if entries.len() == 0 {
        assert(all =~= before);
        assert forall|i: int| 0 <= i < rows implies base[i].spec_plus(
            factor.spec_times(S::spec_zero()),
        ) == #[trigger] base[i] by {
            S::times_commutes(factor, S::spec_zero());
            S::zero_is_neutral(factor);
            S::zero_is_neutral(base[i]);
        }
        assert(linear::add_scaled(base, factor, linear::zeros::<S>(rows as nat)) =~= base);
    } else {
        let shorter = entries.drop_last();
        let (row, column, value) = entries.last();
        assert(entries[entries.len() - 1].0 < rows);
        assert forall|i: int| 0 <= i < shorter.len() implies (#[trigger] shorter[i]).0 < rows
            && shorter[i].1 < columns by {
            assert(entries[i].0 < rows);
        }
        lemma_scaled_entries_apply(before, shorter, factor, x, rows, columns);
        linear::lemma_entries_apply(shorter, x, rows, columns);
        assert(all.drop_last() =~= before + family::scaled_entries(shorter, factor));
        assert(all.last() == (row, column, factor.spec_times(value)));
        let (a, b) = (
            base[row as int],
            linear::entries_apply(shorter, x, rows as nat)[row as int],
        );
        let product = value.spec_times(x[column as int]);
        S::times_associates(factor, value, x[column as int]);
        S::times_distributes(factor, b, product);
        S::plus_associates(a, factor.spec_times(b), factor.spec_times(product));
        assert(linear::entries_apply(all, x, rows as nat) =~= linear::add_scaled(
            base,
            factor,
            linear::entries_apply(entries, x, rows as nat),
        ));
    }
}

/// The entries of a sum of components act as the components do.
proof fn lemma_combined_entries_apply<S: ExactScalar>(
    before: Seq<(usize, usize, S)>,
    components: Seq<ComponentModel<S>>,
    coefficients: Seq<S>,
    x: Seq<S>,
    count: nat,
)
    requires
        family::same_shapes(components),
        count <= components.len(),
        components.len() > 0,
        linear::entries_fit(
            before,
            components[0].operator.rows,
            components[0].operator.columns,
        ),
    ensures
        linear::entries_apply(
            before + family::combined_entries(components, coefficients, count),
            x,
            components[0].operator.rows as nat,
        ) == linear::vector_sum(
            linear::entries_apply(before, x, components[0].operator.rows as nat),
            family::combined_apply(components, coefficients, x, count),
        ),
    decreases count,
{
    let rows = components[0].operator.rows;
    let columns = components[0].operator.columns;
    let base = linear::entries_apply(before, x, rows as nat);
    linear::lemma_entries_apply(before, x, rows, columns);
    if count == 0 {
        assert(before + family::combined_entries(components, coefficients, 0) =~= before);
        assert forall|i: int| 0 <= i < rows implies base[i].spec_plus(S::spec_zero())
            == #[trigger] base[i] by {
            S::zero_is_neutral(base[i]);
        }
        assert(linear::vector_sum(base, linear::zeros::<S>(rows as nat)) =~= base);
    } else {
        let fewer = (count - 1) as nat;
        let earlier = family::combined_entries(components, coefficients, fewer);
        let entries = components[fewer as int].operator.entries;
        let factor = coefficients[fewer as int];
        let image = linear::entries_apply(entries, x, rows as nat);
        let sum = family::combined_apply(components, coefficients, x, fewer);
        lemma_combined_entries_apply(before, components, coefficients, x, fewer);
        family::lemma_combined_entries(components, coefficients, fewer);
        family::lemma_combined_apply(components, coefficients, x, fewer);
        assert(components[fewer as int].operator.rows == rows);
        linear::lemma_entries_apply(entries, x, rows, columns);
        assert forall|i: int| 0 <= i < (before + earlier).len() implies (#[trigger] (before
            + earlier)[i]).0 < rows && (before + earlier)[i].1 < columns by {
            if i < before.len() {
                assert(before[i].0 < rows);
            } else {
                assert(earlier[i - before.len()].0 < rows);
            }
        }
        lemma_scaled_entries_apply(before + earlier, entries, factor, x, rows, columns);
        assert(before + family::combined_entries(components, coefficients, count) =~= (before
            + earlier) + family::scaled_entries(entries, factor));
        let left = linear::add_scaled(linear::vector_sum(base, sum), factor, image);
        let right = linear::vector_sum(base, linear::add_scaled(sum, factor, image));
        assert forall|i: int| 0 <= i < rows implies #[trigger] left[i] == right[i] by {
            S::plus_associates(base[i], sum[i], factor.spec_times(image[i]));
        }
        assert(left =~= right);
    }
}

/// A family acts on a vector as the matrix does that it is evaluated to, for all parameters,
/// and refuses the same parameters.
pub proof fn law_family_acts_as_its_matrix<S: ExactScalar>(
    model: FamilyModel<S>,
    names: Seq<Seq<char>>,
    values: Seq<S>,
    input: Seq<S>,
)
    requires
        linear::entries_fit(model.fixed.entries, model.fixed.rows, model.fixed.columns),
        family::same_shapes(model.components),
        model.components.len() > 0 ==> model.components[0].operator.rows == model.fixed.rows
            && model.components[0].operator.columns == model.fixed.columns,
        names.len() == values.len(),
        input.len() == model.fixed.columns,
    ensures
        interop::parameter_image(model, names, values, input) == match interop::evaluated(
            model,
            names,
            values,
        ) {
            Ok(operator) => Ok(
                linear::entries_apply(operator.entries, input, operator.rows as nat),
            ),
            Err(error) => Err(error),
        },
{
    if model.components.len() > 0 {
        match family::coefficients_for(model.components, names, values) {
            Ok(coefficients) => {
                family::lemma_coefficients_length(model.components, names, values);
                lemma_combined_entries_apply(
                    model.fixed.entries,
                    model.components,
                    coefficients,
                    input,
                    model.components.len(),
                );
            },
            Err(error) => {},
        }
    }
}

} // verus!

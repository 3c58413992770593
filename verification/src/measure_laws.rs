//! What entropies, ensembles and observables tell.

use vstd::prelude::*;

use crate::eigenphases;
use crate::ensemble;
use crate::ensemble::{overlap_weights, spread_about, ComplexOver};
use crate::error::QmbedError;
use crate::exact::ExactScalar;
use crate::exact_numbers::{lemma_shifted_difference, ExactComplex, ExactReal};
use crate::line_shapes;
use crate::linear;
use crate::linear::{LinearOperator, Scalar};
use crate::numbers::RealNumber;
use crate::observables;
use crate::observables::{element_between, mixed_expectation, operator_trace, variance_in};
use crate::partial_traces;
use crate::statistics;
use crate::statistics::{information, moment, shannon, spectrum_entropy, total, weighted, EntropyOrder};
use crate::sums;
use crate::sums::total_of;

verus! {

/// A list of equal numbers.
pub open spec fn copies<R>(value: R, count: nat) -> Seq<R> {
    Seq::new(count, |i: int| value)
}

proof fn lemma_zero_difference<R: ExactReal>(a: R)
    ensures
        a.spec_minus(a) == R::spec_zero(),
        R::spec_zero().spec_minus(a).spec_plus(a) == R::spec_zero(),
{
    let zero = R::spec_zero();
    R::plus_commutes(zero, a);
    R::zero_is_neutral(a);
    R::minus_undoes_plus(zero, a);
}

proof fn lemma_certain_information<R: ExactReal>(probabilities: Seq<R>, count: nat)
    requires
        count <= probabilities.len(),
        R::spec_one().spec_logarithm() == R::spec_zero(),
        R::spec_zero().spec_is_negligible(),
        forall|i: int|
            0 <= i < probabilities.len() ==> #[trigger] probabilities[i] == R::spec_zero()
                || probabilities[i] == R::spec_one(),
    ensures
        information(probabilities, count) == R::spec_zero(),
    decreases count,
{
    if count > 0 {
        lemma_certain_information(probabilities, (count - 1) as nat);
        let p = probabilities[count - 1];
        R::one_is_neutral(R::spec_zero());
        R::zero_is_neutral(R::spec_zero());
    }
}

/// Certainty has no entropy: where every outcome is sure or impossible the entropy is zero.
pub proof fn law_certainty_has_no_entropy<R: ExactReal>(probabilities: Seq<R>)
    requires
        R::spec_one().spec_logarithm() == R::spec_zero(),
        R::spec_zero().spec_is_negligible(),
        forall|i: int|
            0 <= i < probabilities.len() ==> #[trigger] probabilities[i] == R::spec_zero()
                || probabilities[i] == R::spec_one(),
    ensures
        shannon(probabilities) == R::spec_zero(),
        spectrum_entropy(probabilities, EntropyOrder::VonNeumann) == Ok::<R, QmbedError>(
            R::spec_zero(),
        ),
{
    lemma_certain_information(probabilities, probabilities.len());
    lemma_zero_difference(R::spec_zero());
}

proof fn lemma_equal_information<R: ExactReal>(share: R, whole: nat, count: nat)
    requires
        count <= whole,
        !share.spec_is_negligible(),
    ensures
        information(copies(share, whole), count) == total(
            copies(share.spec_times(share.spec_logarithm()), whole),
            count,
        ),
    decreases count,
{
    if count > 0 {
        lemma_equal_information(share, whole, (count - 1) as nat);
    }
}

proof fn lemma_times_total<R: ExactReal>(factor: R, values: Seq<R>, products: Seq<R>, count: nat)
    requires
        count <= values.len(),
        products.len() == values.len(),
        forall|i: int|
            0 <= i < values.len() ==> #[trigger] products[i] == values[i].spec_times(factor),
    ensures
        total(products, count) == total(values, count).spec_times(factor),
    decreases count,
{
    if count == 0 {
        R::zero_is_neutral(factor);
    } else {
        lemma_times_total(factor, values, products, (count - 1) as nat);
        let before = total(values, (count - 1) as nat);
        R::times_commutes(before.spec_plus(values[count - 1]), factor);
        R::times_distributes(factor, before, values[count - 1]);
        R::times_commutes(factor, before);
        R::times_commutes(factor, values[count - 1]);
        assert(products[count - 1] == values[count - 1].spec_times(factor));
    }
}

/// Equal shares have the entropy of their number: where shares `p` add up to one, the entropy is
/// the logarithm of `p` with the opposite sign.
pub proof fn law_equal_shares_have_the_largest_entropy<R: ExactReal>(share: R, count: nat)
    requires
        !share.spec_is_negligible(),
        total(copies(share, count), count) == R::spec_one(),
    ensures
        shannon(copies(share, count)) == R::spec_zero().spec_minus(share.spec_logarithm()),
{
    let log = share.spec_logarithm();
    lemma_equal_information(share, count, count);
    lemma_times_total(log, copies(share, count), copies(share.spec_times(log), count), count);
    R::one_is_neutral(log);
}

/// The entropies of all orders agree on equal shares: where the logarithm of the sum of powers is
/// `1 - order` times the entropy of the shares, as it is for shares that add up to one, the
/// entropy of that order is the logarithm of a share with the opposite sign.
pub proof fn law_orders_agree_on_equal_shares<R: ExactReal>(share: R, count: nat, order: R)
    requires
        statistics::order_usable(order),
        R::parts(R::spec_one().spec_minus(order)),
        moment(copies(share, count), order, true, count).spec_logarithm()
            == R::spec_zero().spec_minus(share.spec_logarithm()).spec_times(
            R::spec_one().spec_minus(order),
        ),
    ensures
        spectrum_entropy(copies(share, count), EntropyOrder::Renyi(order)) == Ok::<R, QmbedError>(
            R::spec_zero().spec_minus(share.spec_logarithm()),
        ),
{
    R::division_is_linear(
        R::spec_zero().spec_minus(share.spec_logarithm()),
        share,
        R::spec_one().spec_minus(order),
    );
}

/// The sum of powers of equal shares is their number times one power.
pub proof fn law_moment_counts_equal_shares<R: RealNumber>(share: R, order: R, whole: nat, count: nat)
    requires
        count <= whole,
    ensures
        moment(copies(share, whole), order, true, count) == total(
            copies(share.spec_power(order), whole),
            count,
        ),
    decreases count,
{
    if count > 0 {
        law_moment_counts_equal_shares(share, order, whole, (count - 1) as nat);
    }
}

proof fn lemma_divergence_alike<R: ExactReal>(left: Seq<R>, count: nat)
    requires
        count <= left.len(),
        R::spec_one().spec_logarithm() == R::spec_zero(),
        forall|i: int|
            0 <= i < left.len() ==> (#[trigger] left[i]).spec_over(left[i]) == R::spec_one(),
    ensures
        statistics::divergence_sum(left, left, count) == R::spec_zero(),
    decreases count,
{
    if count > 0 {
        lemma_divergence_alike(left, (count - 1) as nat);
        let p = left[count - 1];
        assert(p.spec_over(p) == R::spec_one());
        R::times_commutes(p, R::spec_zero());
        R::zero_is_neutral(p);
        R::zero_is_neutral(R::spec_zero());
    }
}

/// A distribution does not diverge from itself.
pub proof fn law_distribution_agrees_with_itself<R: ExactReal>(left: Seq<R>)
    requires
        statistics::divergence(left, left) is Ok,
        R::spec_one().spec_logarithm() == R::spec_zero(),
        forall|i: int|
            0 <= i < left.len() ==> (#[trigger] left[i]).spec_over(left[i]) == R::spec_one(),
    ensures
        statistics::divergence(left, left) == Ok::<R, QmbedError>(R::spec_zero()),
{
    lemma_divergence_alike(left, left.len());
}

/// Where the distribution is sure of one outcome its divergence from another one is the logarithm
/// of one over the other probability.
pub proof fn law_divergence_weighs_with_the_first<R: ExactReal>(left: R, right: R)
    requires
        statistics::divergence(seq![left], seq![right]) is Ok,
    ensures
        statistics::divergence(seq![left], seq![right]) == Ok::<R, QmbedError>(
            statistics::floored(left.spec_times(left.spec_over(right).spec_logarithm())),
        ),
{
    reveal_with_fuel(statistics::divergence_sum, 2);
    let term = left.spec_times(left.spec_over(right).spec_logarithm());
    R::plus_commutes(R::spec_zero(), term);
    R::zero_is_neutral(term);
}

/// The mean of levels moves with them.
pub proof fn law_mean_moves_with_the_levels<R: ExactReal>(
    probabilities: Seq<R>,
    levels: Seq<R>,
    shift: R,
    count: nat,
)
    requires
        count <= probabilities.len(),
        levels.len() == probabilities.len(),
    ensures
        weighted(probabilities, line_shapes::moved_by(levels, shift), count) == weighted(
            probabilities,
            levels,
            count,
        ).spec_plus(total(probabilities, count).spec_times(shift)),
    decreases count,
{
    if count == 0 {
        R::zero_is_neutral(shift);
        R::zero_is_neutral(R::spec_zero());
    } else {
        let fewer = (count - 1) as nat;
        law_mean_moves_with_the_levels(probabilities, levels, shift, fewer);
        let p = probabilities[count - 1];
        let e = levels[count - 1];
        let a = weighted(probabilities, levels, fewer);
        let t = total(probabilities, fewer);
        R::times_distributes(p, e, shift);
        R::times_commutes(t.spec_plus(p), shift);
        R::times_distributes(shift, t, p);
        R::times_commutes(shift, t);
        R::times_commutes(shift, p);
        let (b, c, d) = (t.spec_times(shift), p.spec_times(e), p.spec_times(shift));
        // (a + b) + (c + d) == (a + c) + (b + d)
        R::plus_associates(a, b, c.spec_plus(d));
        R::plus_associates(b, c, d);
        R::plus_commutes(b, c);
        R::plus_associates(c, b, d);
        R::plus_associates(a, c, b.spec_plus(d));
    }
}

/// The variance does not feel a common shift of levels and mean.
pub proof fn law_variance_ignores_the_origin<R: ExactReal>(
    probabilities: Seq<R>,
    levels: Seq<R>,
    mean: R,
    shift: R,
    count: nat,
)
    requires
        count <= levels.len(),
    ensures
        spread_about(
            probabilities,
            line_shapes::moved_by(levels, shift),
            mean.spec_plus(shift),
            count,
        ) == spread_about(probabilities, levels, mean, count),
    decreases count,
{
    if count > 0 {
        law_variance_ignores_the_origin(probabilities, levels, mean, shift, (count - 1) as nat);
        lemma_shifted_difference(levels[count - 1], mean, shift);
    }
}

proof fn lemma_sharp_spread<R: ExactReal>(
    probabilities: Seq<R>,
    levels: Seq<R>,
    mean: R,
    count: nat,
)
    requires
        count <= levels.len(),
        levels.len() == probabilities.len(),
        forall|i: int|
            0 <= i < levels.len() ==> #[trigger] probabilities[i] == R::spec_zero() || levels[i]
                == mean,
    ensures
        spread_about(probabilities, levels, mean, count) == R::spec_zero(),
    decreases count,
{
    if count > 0 {
        lemma_sharp_spread(probabilities, levels, mean, (count - 1) as nat);
        let p = probabilities[count - 1];
        let d = levels[count - 1].spec_minus(mean);
        lemma_zero_difference(mean);
        R::zero_is_neutral(R::spec_zero());
        R::zero_is_neutral(d.spec_times(d));
        R::zero_is_neutral(d);
        R::times_commutes(p, R::spec_zero());
        R::zero_is_neutral(p);
    }
}

/// A sharp energy has no variance: where only levels at the mean are met, the variance is zero.
pub proof fn law_sharp_levels_have_no_variance<R: ExactReal>(
    probabilities: Seq<R>,
    levels: Seq<R>,
    mean: R,
)
    requires
        levels.len() == probabilities.len(),
        forall|i: int|
            0 <= i < levels.len() ==> #[trigger] probabilities[i] == R::spec_zero() || levels[i]
                == mean,
    ensures
        spread_about(probabilities, levels, mean, levels.len()) == R::spec_zero(),
{
    lemma_sharp_spread(probabilities, levels, mean, levels.len());
}

/// An eigenvector is sure of its level: its probabilities are one for itself and zero for all
/// others.
pub proof fn law_eigenvector_is_sure_of_its_level<R: ExactReal, S: ExactComplex<R>>(
    eigenvectors: Seq<Seq<S>>,
    level: int,
    other: int,
)
    requires
        eigenphases::orthonormal(eigenvectors),
        0 <= level < eigenvectors.len(),
        0 <= other < eigenvectors.len(),
        R::parts(R::spec_one()),
    ensures
        overlap_weights::<R, S>(eigenvectors, eigenvectors[level])[other] == if other == level {
            R::spec_one()
        } else {
            R::spec_zero()
        },
{
    let one = R::spec_one();
    line_shapes::lemma_weights::<R, S>(S::spec_one(), S::spec_zero());
    assert(linear::inner_product(eigenvectors[other], eigenvectors[level]) == if other == level {
        S::spec_one()
    } else {
        S::spec_zero()
    });
    assert(linear::inner_product(eigenvectors[level], eigenvectors[level]) == S::spec_one());
    S::numbers_embed(S::spec_one(), one, one);
    R::division_is_linear(one, one, one);
    R::one_is_neutral(one);
}

/// Whether an operator takes a vector to a multiple of itself.
pub open spec fn is_eigenvector<O: LinearOperator>(
    operator: O,
    vector: Seq<O::Value>,
    value: O::Value,
) -> bool {
    operator.spec_apply(vector) == Ok::<Seq<O::Value>, QmbedError>(linear::scaled(vector, value))
}

/// Multiples can be taken out of inner products: as they are on the right, conjugated on the left.
pub proof fn lemma_scaled_inner<S: ExactScalar>(left: Seq<S>, right: Seq<S>, factor: S)
    requires
        left.len() == right.len(),
    ensures
        linear::inner_product(left, linear::scaled(right, factor)) == linear::inner_product(
            left,
            right,
        ).spec_times(factor),
        linear::inner_product(linear::scaled(left, factor), right) == linear::inner_product(
            left,
            right,
        ).spec_times(factor.spec_conjugate()),
{
    let n = left.len();
    let plain = |i: int| left[i].spec_conjugate().spec_times(right[i]);
    let on_right = |i: int|
        left[i].spec_conjugate().spec_times(linear::scaled(right, factor)[i]);
    let on_left = |i: int|
        linear::scaled(left, factor)[i].spec_conjugate().spec_times(right[i]);
    let after = |i: int| plain(i).spec_times(factor);
    let before = |i: int| plain(i).spec_times(factor.spec_conjugate());
    sums::lemma_inner_product(left, right);
    sums::lemma_inner_product(left, linear::scaled(right, factor));
    sums::lemma_inner_product(linear::scaled(left, factor), right);
    assert forall|i: int| 0 <= i < n implies #[trigger] on_right(i) == after(i) by {
        S::times_associates(left[i].spec_conjugate(), right[i], factor);
    }
    assert forall|i: int| 0 <= i < n implies #[trigger] on_left(i) == before(i) by {
        let (a, b, f) = (left[i].spec_conjugate(), right[i], factor.spec_conjugate());
        S::conjugation_is_linear(left[i], factor);
        S::times_associates(a, f, b);
        S::times_commutes(f, b);
        S::times_associates(a, b, f);
    }
    sums::lemma_alike(on_right, after, n);
    sums::lemma_alike(on_left, before, n);
    sums::lemma_factor_behind(plain, factor, n);
    sums::lemma_factor_behind(plain, factor.spec_conjugate(), n);
}

/// The expectation in a normalized eigenvector is its eigenvalue, and between two perpendicular
/// vectors, one of them an eigenvector, there is no element.
pub proof fn law_eigenvectors_show_their_value<O: LinearOperator>(
    operator: O,
    left: Seq<O::Value>,
    vector: Seq<O::Value>,
    value: O::Value,
) where O::Value: ExactScalar
    requires
        operator.spec_rows() == operator.spec_columns(),
        vector.len() == operator.spec_columns(),
        left.len() == vector.len(),
        is_eigenvector(operator, vector, value),
    ensures
        linear::inner_product(left, vector) == <O::Value as Scalar>::spec_one() ==> element_between(
            left,
            operator,
            vector,
        ) == Ok::<O::Value, QmbedError>(value),
        linear::inner_product(left, vector) == <O::Value as Scalar>::spec_zero()
            ==> element_between(left, operator, vector) == Ok::<O::Value, QmbedError>(
            <O::Value as Scalar>::spec_zero(),
        ),
{
    lemma_scaled_inner(left, vector, value);
    <O::Value as ExactScalar>::one_is_neutral(value);
    <O::Value as ExactScalar>::zero_is_neutral(value);
}

/// An operator does not fluctuate in its normalized eigenvectors.
pub proof fn law_eigenvectors_do_not_fluctuate<R: ExactReal, O: LinearOperator>(
    operator: O,
    vector: Seq<O::Value>,
    value: O::Value,
) where O::Value: ExactComplex<R>
    requires
        operator.spec_rows() == operator.spec_columns(),
        vector.len() == operator.spec_columns(),
        is_eigenvector(operator, vector, value),
        linear::inner_product(vector, vector) == <O::Value as Scalar>::spec_one(),
        R::parts(R::spec_one()),
        ensemble::sound(R::spec_one()),
    ensures
        variance_in::<R, O>(operator, vector) == Ok::<R, QmbedError>(
            statistics::floored(R::spec_zero()),
        ),
{
    let one = R::spec_one();
    let unit = <O::Value as Scalar>::spec_one();
    let image = linear::scaled(vector, value);
    lemma_scaled_inner(vector, vector, value);
    lemma_scaled_inner(image, vector, value);
    <O::Value as ExactScalar>::one_is_neutral(value);
    <O::Value as ExactScalar>::one_is_neutral(value.spec_conjugate());
    <O::Value as ExactComplex<R>>::numbers_embed(unit, one, one);
    <O::Value as ExactComplex<R>>::numbers_embed(value, value.spec_weight(), one);
    <O::Value as ExactScalar>::times_commutes(value.spec_conjugate(), value);
    let second = linear::inner_product(image, image);
    assert(second == value.spec_times(value.spec_conjugate()));
    assert(second.spec_real() == value.spec_weight());
    // division by one changes nothing
    R::division_is_linear(value.spec_weight(), one, one);
    R::times_commutes(value.spec_weight(), one);
    R::one_is_neutral(value.spec_weight());
    lemma_zero_difference(value.spec_weight());
    <O::Value as ExactComplex<R>>::unit_division(value);
}

proof fn lemma_pure_trace<O: LinearOperator>(
    operator: O,
    state: Seq<O::Value>,
    image: Seq<O::Value>,
    count: nat,
) where O::Value: ExactScalar
    requires
        count <= state.len(),
        image.len() == state.len(),
        forall|factor: O::Value| #[trigger]
            operator.spec_apply(linear::scaled(state, factor)) == Ok::<
                Seq<O::Value>,
                QmbedError,
            >(linear::scaled(image, factor)),
    ensures
        operator_trace(
            operator,
            partial_traces::outer_product(state),
            state.len(),
            false,
            count,
        ) == Ok::<O::Value, QmbedError>(
            total_of(|i: int| state[i].spec_conjugate().spec_times(image[i]), count),
        ),
    decreases count,
{
    if count > 0 {
        lemma_pure_trace(operator, state, image, (count - 1) as nat);
        let n = state.len();
        let column = count - 1;
        let factor = state[column].spec_conjugate();
        let given = observables::column_of(partial_traces::outer_product(state), n, column);
        assert forall|row: int| 0 <= row < n implies #[trigger] given[row] == linear::scaled(
            state,
            factor,
        )[row] by {
            partial_traces::lemma_pair(row, column, n as int, n as int);
        }
        assert(given =~= linear::scaled(state, factor));
        <O::Value as ExactScalar>::times_commutes(image[column], factor);
        assert(operator.spec_apply(linear::scaled(state, factor)) == Ok::<
            Seq<O::Value>,
            QmbedError,
        >(linear::scaled(image, factor)));
    }
}

/// Pure and mixed states agree on expectations: that of a linear operator in the projector on a
/// state is its expectation in the state.
pub proof fn law_pure_densities_have_the_expectations_of_their_state<O: LinearOperator>(
    operator: O,
    state: Seq<O::Value>,
    image: Seq<O::Value>,
) where O::Value: ExactScalar
    requires
        operator.spec_rows() == operator.spec_columns(),
        state.len() == operator.spec_columns(),
        image.len() == state.len(),
        operator.spec_apply(state) == Ok::<Seq<O::Value>, QmbedError>(image),
        forall|factor: O::Value| #[trigger]
            operator.spec_apply(linear::scaled(state, factor)) == Ok::<
                Seq<O::Value>,
                QmbedError,
            >(linear::scaled(image, factor)),
    ensures
        mixed_expectation(operator, partial_traces::outer_product(state)) == element_between(
            state,
            operator,
            state,
        ),
{
    lemma_pure_trace(operator, state, image, state.len());
    sums::lemma_inner_product(state, image);
}

} // verus!

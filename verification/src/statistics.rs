//! Entropies, level statistics and diagonal ensembles.

use vstd::prelude::*;

use crate::error::{QmbedError, Reason, Result};
use crate::linear;
use crate::numbers::RealNumber;

verus! {

/// Sum of the first numbers of a list.
pub open spec fn total<R: RealNumber>(values: Seq<R>, count: nat) -> R
    decreases count,
{
    if count == 0 {
        R::spec_zero()
    } else {
        total(values, (count - 1) as nat).spec_plus(values[count - 1])
    }
}

/// Sum of the first products of two lists.
pub open spec fn weighted<R: RealNumber>(left: Seq<R>, right: Seq<R>, count: nat) -> R
    decreases count,
{
    if count == 0 {
        R::spec_zero()
    } else {
        weighted(left, right, (count - 1) as nat).spec_plus(
            left[count - 1].spec_times(right[count - 1]),
        )
    }
}

/// Sum of `p ln p` over the first probabilities; negligible ones are left out.
pub open spec fn information<R: RealNumber>(probabilities: Seq<R>, count: nat) -> R
    decreases count,
{
    if count == 0 {
        R::spec_zero()
    } else {
        let before = information(probabilities, (count - 1) as nat);
        let probability = probabilities[count - 1];
        if probability.spec_is_negligible() {
            before
        } else {
            before.spec_plus(probability.spec_times(probability.spec_logarithm()))
        }
    }
}

/// Entropy of a distribution.
pub open spec fn shannon<R: RealNumber>(probabilities: Seq<R>) -> R {
    R::spec_zero().spec_minus(information(probabilities, probabilities.len()))
}

/// Sum of powers of the first probabilities.
pub open spec fn moment<R: RealNumber>(
    probabilities: Seq<R>,
    alpha: R,
    all: bool,
    count: nat,
) -> R
    decreases count,
{
    if count == 0 {
        R::spec_zero()
    } else {
        let before = moment(probabilities, alpha, all, (count - 1) as nat);
        let probability = probabilities[count - 1];
        if !all && probability.spec_is_negligible() {
            before
        } else {
            before.spec_plus(probability.spec_power(alpha))
        }
    }
}

pub fn sum_of<R: RealNumber>(values: &Vec<R>) -> (sum: R)
    ensures
        sum == total(values@, values@.len()),
{
    let mut sum: R = R::zero();
    let mut next: usize = 0;
    while next < values.len()
        invariant
            next <= values@.len(),
            sum == total(values@, next as nat),
        decreases values@.len() - next,
    {
        sum = sum.plus(values[next]);
        next += 1;
    }
    sum
}

pub fn weighted_sum<R: RealNumber>(left: &Vec<R>, right: &Vec<R>) -> (sum: R)
    requires
        left@.len() == right@.len(),
    ensures
        sum == weighted(left@, right@, left@.len()),
{
    let mut sum: R = R::zero();
    let mut next: usize = 0;
    while next < left.len()
        invariant
            next <= left@.len(),
            left@.len() == right@.len(),
            sum == weighted(left@, right@, next as nat),
        decreases left@.len() - next,
    {
        sum = sum.plus(left[next].times(right[next]));
        next += 1;
    }
    sum
}

pub fn shannon_entropy<R: RealNumber>(probabilities: &Vec<R>) -> (entropy: R)
    ensures
        entropy == shannon(probabilities@),
{
    let mut sum: R = R::zero();
    let mut next: usize = 0;
    while next < probabilities.len()
        invariant
            next <= probabilities@.len(),
            sum == information(probabilities@, next as nat),
        decreases probabilities@.len() - next,
    {
        let probability: R = probabilities[next];
        if !probability.is_negligible() {
            sum = sum.plus(probability.times(probability.logarithm()));
        }
        next += 1;
    }
    R::zero().minus(sum)
}

fn power_moment<R: RealNumber>(probabilities: &Vec<R>, alpha: R, all: bool) -> (sum: R)
    ensures
        sum == moment(probabilities@, alpha, all, probabilities@.len()),
{
    let mut sum: R = R::zero();
    let mut next: usize = 0;
    while next < probabilities.len()
        invariant
            next <= probabilities@.len(),
            sum == moment(probabilities@, alpha, all, next as nat),
        decreases probabilities@.len() - next,
    {
        let probability: R = probabilities[next];
        if all || !probability.is_negligible() {
            sum = sum.plus(probability.power(alpha));
        }
        next += 1;
    }
    sum
}

/// Order of an entropy.
#[derive(Clone, Copy, Debug)]
pub enum EntropyOrder<R> {
    VonNeumann,
    Renyi(R),
}

/// Whether an order of an entropy is positive, finite and different from one.
pub open spec fn order_usable<R: RealNumber>(alpha: R) -> bool {
    alpha.spec_is_finite() && !alpha.spec_at_most(R::spec_zero()) && !alpha.spec_is_unit_order()
}

/// Refusal of an order of an entropy.
pub open spec fn order_refused() -> QmbedError {
    QmbedError::InvalidOptions(Reason::Text("Renyi order must be positive, finite, and different from one"))
}

/// Whether an order of an entropy is positive, finite and different from one.
pub fn is_order_usable<R: RealNumber>(alpha: R) -> (answer: bool)
    ensures
        answer == order_usable(alpha),
{
    alpha.is_finite() && !alpha.at_most(R::zero()) && !alpha.is_unit_order()
}

/// Entropy of a density-matrix spectrum.
pub open spec fn spectrum_entropy<R: RealNumber>(
    probabilities: Seq<R>,
    order: EntropyOrder<R>,
) -> core::result::Result<R, QmbedError> {
    match order {
        EntropyOrder::VonNeumann => Ok(shannon(probabilities)),
        EntropyOrder::Renyi(alpha) => if order_usable(alpha) {
            Ok(
                moment(probabilities, alpha, true, probabilities.len()).spec_logarithm().spec_over(
                    R::spec_one().spec_minus(alpha),
                ),
            )
        } else {
            Err(order_refused())
        },
    }
}

/// Entropy of an already validated density-matrix spectrum.
pub fn entropy_from_spectrum<R: RealNumber>(probabilities: &Vec<R>, order: EntropyOrder<R>) -> (result: Result<
    R,
>)
    ensures
        result == spectrum_entropy(probabilities@, order),
{
    match order {
        EntropyOrder::VonNeumann => Ok(shannon_entropy(probabilities)),
        EntropyOrder::Renyi(alpha) => {
            if !is_order_usable(alpha) {
                return Err(
                    QmbedError::InvalidOptions(
                        Reason::Text("Renyi order must be positive, finite, and different from one"),
                    ),
                );
            }
            Ok(
                power_moment(probabilities, alpha, true).logarithm().over(R::one().minus(alpha)),
            )
        },
    }
}

/// Entropy of a distribution in the given order.
pub open spec fn ordered_entropy<R: RealNumber>(probabilities: Seq<R>, alpha: R) -> core::result::Result<
    R,
    QmbedError,
> {
    let sum = moment(probabilities, alpha, false, probabilities.len());
    if !alpha.spec_is_finite() || !R::spec_zero().spec_at_most(alpha) {
        Err(QmbedError::InvalidOptions(Reason::Text("Renyi alpha must be finite and nonnegative")))
    } else if alpha.spec_is_unit_alpha() {
        Ok(shannon(probabilities))
    } else if sum.spec_at_most(R::spec_zero()) || !sum.spec_is_finite() {
        Err(QmbedError::InvalidOptions(Reason::Text("Renyi probability moment is not positive and finite")))
    } else {
        Ok(sum.spec_logarithm().spec_over(R::spec_one().spec_minus(alpha)))
    }
}

/// Entropy of a distribution in the given order.
pub fn distribution_entropy<R: RealNumber>(probabilities: &Vec<R>, alpha: R) -> (result: Result<R>)
    ensures
        result == ordered_entropy(probabilities@, alpha),
{
    if !alpha.is_finite() || !R::zero().at_most(alpha) {
        return Err(QmbedError::InvalidOptions(Reason::Text("Renyi alpha must be finite and nonnegative")));
    }
    if alpha.is_unit_alpha() {
        return Ok(shannon_entropy(probabilities));
    }
    let sum: R = power_moment(probabilities, alpha, false);
    if sum.at_most(R::zero()) || !sum.is_finite() {
        return Err(
            QmbedError::InvalidOptions(Reason::Text("Renyi probability moment is not positive and finite")),
        );
    }
    Ok(sum.logarithm().over(R::one().minus(alpha)))
}

/// Whether a number is finite and larger than zero.
pub open spec fn positive<R: RealNumber>(value: R) -> bool {
    value.spec_is_finite() && !value.spec_at_most(R::spec_zero())
}

/// Whether all numbers of a list are finite and larger than zero.
pub open spec fn all_positive<R: RealNumber>(values: Seq<R>) -> bool {
    forall|i: int| 0 <= i < values.len() ==> positive(#[trigger] values[i])
}

pub fn check_positive<R: RealNumber>(values: &Vec<R>) -> (answer: bool)
    ensures
        answer == all_positive(values@),
{
    let mut next: usize = 0;
    while next < values.len()
        invariant
            next <= values@.len(),
            forall|i: int| 0 <= i < next ==> positive(#[trigger] values@[i]),
        decreases values@.len() - next,
    {
        if !values[next].is_finite() || values[next].at_most(R::zero()) {
            assert(!positive(values@[next as int]));
            return false;
        }
        next += 1;
    }
    true
}

/// Sum of the first terms `p ln(p / q)`.
pub open spec fn divergence_sum<R: RealNumber>(left: Seq<R>, right: Seq<R>, count: nat) -> R
    decreases count,
{
    if count == 0 {
        R::spec_zero()
    } else {
        divergence_sum(left, right, (count - 1) as nat).spec_plus(
            left[count - 1].spec_times(left[count - 1].spec_over(right[count - 1]).spec_logarithm()),
        )
    }
}

/// A number, or zero where it is less.
pub open spec fn floored<R: RealNumber>(value: R) -> R {
    if R::spec_zero().spec_at_most(value) {
        value
    } else {
        R::spec_zero()
    }
}

pub fn floor_at_zero<R: RealNumber>(value: R) -> (result: R)
    ensures
        result == floored(value),
{
    if R::zero().at_most(value) {
        value
    } else {
        R::zero()
    }
}

/// Relative entropy of two distributions.
pub open spec fn divergence<R: RealNumber>(left: Seq<R>, right: Seq<R>) -> core::result::Result<
    R,
    QmbedError,
> {
    if left.len() != right.len() || left.len() == 0 || !all_positive(left) || !all_positive(right) {
        Err(
            QmbedError::InvalidOptions(
                Reason::Text("KL distributions must be nonempty, equal-length, finite, and strictly positive"),
            ),
        )
    } else if !total(left, left.len()).spec_is_whole() || !total(right, right.len()).spec_is_whole() {
        Err(QmbedError::InvalidOptions(Reason::Text("KL distributions must be normalized")))
    } else {
        Ok(floored(divergence_sum(left, right, left.len())))
    }
}

/// Relative entropy of two distributions.
pub fn kl_divergence<R: RealNumber>(left: &Vec<R>, right: &Vec<R>) -> (result: Result<R>)
    ensures
        result == divergence(left@, right@),
{
    if left.len() != right.len() || left.len() == 0 || !check_positive(left) || !check_positive(
        right,
    ) {
        return Err(
            QmbedError::InvalidOptions(
                Reason::Text("KL distributions must be nonempty, equal-length, finite, and strictly positive"),
            ),
        );
    }
    if !sum_of(left).is_whole() || !sum_of(right).is_whole() {
        return Err(QmbedError::InvalidOptions(Reason::Text("KL distributions must be normalized")));
    }
    let mut sum: R = R::zero();
    let mut next: usize = 0;
    while next < left.len()
        invariant
            next <= left@.len(),
            left@.len() == right@.len(),
            sum == divergence_sum(left@, right@, next as nat),
        decreases left@.len() - next,
    {
        sum = sum.plus(left[next].times(left[next].over(right[next]).logarithm()));
        next += 1;
    }
    Ok(floor_at_zero(sum))
}

/// Whether all numbers of a list are finite.
pub open spec fn all_finite<R: RealNumber>(values: Seq<R>) -> bool {
    forall|i: int| 0 <= i < values.len() ==> (#[trigger] values[i]).spec_is_finite()
}

pub fn check_finite<R: RealNumber>(values: &Vec<R>) -> (answer: bool)
    ensures
        answer == all_finite(values@),
{
    let mut next: usize = 0;
    while next < values.len()
        invariant
            next <= values@.len(),
            forall|i: int| 0 <= i < next ==> (#[trigger] values@[i]).spec_is_finite(),
        decreases values@.len() - next,
    {
        if !values[next].is_finite() {
            assert(!values@[next as int].spec_is_finite());
            return false;
        }
        next += 1;
    }
    true
}

/// Numbers of the first levels that lie in a window.
pub open spec fn window<R: RealNumber>(
    levels: Seq<R>,
    center: R,
    half_width: R,
    count: nat,
) -> Seq<usize>
    decreases count,
{
    if count == 0 {
        Seq::empty()
    } else {
        let before = window(levels, center, half_width, (count - 1) as nat);
        if levels[count - 1].spec_minus(center).spec_magnitude().spec_at_most(half_width) {
            before.push((count - 1) as usize)
        } else {
            before
        }
    }
}

/// Numbers of the levels that lie in a window.
pub fn energy_window_indices<R: RealNumber>(eigenvalues: &Vec<R>, center: R, half_width: R) -> (result: Result<
    Vec<usize>,
>)
    ensures
        linear::vector_is(
            result,
            if center.spec_is_finite() && half_width.spec_is_finite()
                && R::spec_zero().spec_at_most(half_width) && all_finite(eigenvalues@) {
                Ok(window(eigenvalues@, center, half_width, eigenvalues@.len()))
            } else {
                Err(
                    QmbedError::InvalidOptions(
                        Reason::Text("energy-window inputs must be finite and the half-width nonnegative"),
                    ),
                )
            },
        ),
{
    if !center.is_finite() || !half_width.is_finite() || !R::zero().at_most(half_width)
        || !check_finite(eigenvalues) {
        return Err(
            QmbedError::InvalidOptions(
                Reason::Text("energy-window inputs must be finite and the half-width nonnegative"),
            ),
        );
    }
    let mut indices: Vec<usize> = Vec::new();
    let mut next: usize = 0;
    while next < eigenvalues.len()
        invariant
            next <= eigenvalues@.len(),
            indices@ == window(eigenvalues@, center, half_width, next as nat),
        decreases eigenvalues@.len() - next,
    {
        if eigenvalues[next].minus(center).magnitude().at_most(half_width) {
            indices.push(next);
        }
        next += 1;
    }
    Ok(indices)
}

/// Distance of a level to the next.
pub open spec fn level_gap<R: RealNumber>(levels: Seq<R>, index: int) -> R {
    levels[index + 1].spec_minus(levels[index])
}

/// The smaller of two gaps over the larger.
pub open spec fn gap_ratio<R: RealNumber>(left: R, right: R) -> R {
    if left.spec_at_most(right) {
        left.spec_over(right)
    } else {
        right.spec_over(left)
    }
}

/// Sum of the ratios of the first pairs of adjacent gaps.
pub open spec fn ratio_sum<R: RealNumber>(levels: Seq<R>, count: nat) -> R
    decreases count,
{
    if count == 0 {
        R::spec_zero()
    } else {
        ratio_sum(levels, (count - 1) as nat).spec_plus(
            gap_ratio(level_gap(levels, count - 1), level_gap(levels, count as int)),
        )
    }
}

/// Whether no level is followed by a smaller one.
pub open spec fn levels_ascend<R: RealNumber>(levels: Seq<R>) -> bool {
    forall|i: int|
        0 <= i < levels.len() - 1 ==> #[trigger] levels[i].spec_at_most(levels[i + 1])
}

/// Whether two adjacent levels coincide.
pub open spec fn some_gap_vanishes<R: RealNumber>(levels: Seq<R>) -> bool {
    exists|i: int|
        0 <= i < levels.len() - 1 && #[trigger] level_gap(levels, i).spec_at_most(R::spec_zero())
}

/// Mean ratio of adjacent gaps.
pub open spec fn mean_ratio<R: RealNumber>(levels: Seq<R>) -> R {
    ratio_sum(levels, (levels.len() - 2) as nat).spec_over(
        R::spec_count((levels.len() - 2) as usize),
    )
}

/// Mean ratio of adjacent gaps of an ordered spectrum; nothing where two levels coincide.
pub fn mean_level_spacing<R: RealNumber>(eigenvalues: &Vec<R>) -> (result: Result<Option<R>>)
    ensures
        result == (if eigenvalues@.len() < 3 || !all_finite(eigenvalues@) {
            Err::<Option<R>, QmbedError>(
                QmbedError::InvalidOptions(
                    Reason::Text("level-spacing statistics require at least three finite values"),
                ),
            )
        } else if !levels_ascend(eigenvalues@) {
            Err::<Option<R>, QmbedError>(
                QmbedError::InvalidOptions(Reason::Text("level spectrum must be sorted in ascending order")),
            )
        } else if some_gap_vanishes(eigenvalues@) {
            Ok::<Option<R>, QmbedError>(None)
        } else {
            Ok::<Option<R>, QmbedError>(Some(mean_ratio(eigenvalues@)))
        }),
{
    let count: usize = eigenvalues.len();
    if count < 3 || !check_finite(eigenvalues) {
        return Err(
            QmbedError::InvalidOptions(
                Reason::Text("level-spacing statistics require at least three finite values"),
            ),
        );
    }
    let mut next: usize = 0;
    while next < count - 1
        invariant
            3 <= count,
            count == eigenvalues@.len(),
            next <= count - 1,
            all_finite(eigenvalues@),
            forall|i: int|
                0 <= i < next ==> #[trigger] eigenvalues@[i].spec_at_most(eigenvalues@[i + 1]),
        decreases count - 1 - next,
    {
        if !eigenvalues[next].at_most(eigenvalues[next + 1]) {
            assert(!eigenvalues@[next as int].spec_at_most(eigenvalues@[next + 1]));
            return Err(
                QmbedError::InvalidOptions(Reason::Text("level spectrum must be sorted in ascending order")),
            );
        }
        next += 1;
    }
    let mut next: usize = 0;
    while next < count - 1
        invariant
            3 <= count,
            count == eigenvalues@.len(),
            next <= count - 1,
            all_finite(eigenvalues@),
            levels_ascend(eigenvalues@),
            forall|i: int|
                0 <= i < next ==> !#[trigger] level_gap(eigenvalues@, i).spec_at_most(
                    R::spec_zero(),
                ),
        decreases count - 1 - next,
    {
        if eigenvalues[next + 1].minus(eigenvalues[next]).at_most(R::zero()) {
            assert(level_gap(eigenvalues@, next as int).spec_at_most(R::spec_zero()));
            return Ok(None);
        }
        next += 1;
    }
    let mut sum: R = R::zero();
    let mut next: usize = 0;
    while next < count - 2
        invariant
            3 <= count,
            count == eigenvalues@.len(),
            next <= count - 2,
            sum == ratio_sum(eigenvalues@, next as nat),
        decreases count - 2 - next,
    {
        let left: R = eigenvalues[next + 1].minus(eigenvalues[next]);
        let right: R = eigenvalues[next + 2].minus(eigenvalues[next + 1]);
        let ratio: R = if left.at_most(right) {
            left.over(right)
        } else {
            right.over(left)
        };
        sum = sum.plus(ratio);
        next += 1;
    }
    Ok(Some(sum.over(R::count(count - 2))))
}

} // verus!

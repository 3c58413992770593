//! Spacings of levels, windows of energy and angles between subspaces.

use vstd::prelude::*;

use crate::eigenphases;
use crate::ensemble::ComplexOver;
use crate::exact::ExactScalar;
use crate::exact_numbers::{ExactComplex, ExactReal};
use crate::linear;
use crate::linear::Scalar;
use crate::measure_laws;
use crate::numbers::RealNumber;
use crate::observables::{mean_squared_cosine, overlap_row, overlap_sum};
use crate::statistics;
use crate::statistics::{mean_ratio, ratio_sum, window};

verus! {

/// Whether a division leaves no rest.
pub open spec fn divides_exactly<R: RealNumber>(number: R, divisor: R) -> bool {
    number.spec_over(divisor).spec_times(divisor) == number
}

/// Whether a number is the smaller one of two divided by the larger one.
pub open spec fn is_smaller_over_larger<R: RealNumber>(ratio: R, left: R, right: R) -> bool {
    if left.spec_at_most(right) {
        ratio.spec_times(right) == left
    } else {
        ratio.spec_times(left) == right
    }
}

proof fn lemma_ratios<R: RealNumber>(levels: Seq<R>, count: nat) -> (ratios: Seq<R>)
    requires
        count + 2 <= levels.len(),
        forall|i: int, j: int|
            0 <= i < levels.len() - 1 && 0 <= j < levels.len() - 1 ==> #[trigger] divides_exactly(
                levels[i + 1].spec_minus(levels[i]),
                levels[j + 1].spec_minus(levels[j]),
            ),
    ensures
        ratios.len() == count,
        ratio_sum(levels, count) == statistics::total(ratios, count),
        forall|i: int|
            0 <= i < count ==> is_smaller_over_larger(
                #[trigger] ratios[i],
                levels[i + 1].spec_minus(levels[i]),
                levels[i + 2].spec_minus(levels[i + 1]),
            ),
    decreases count,
{
    if count == 0 {
        Seq::empty()
    } else {
        let last = count - 1;
        let before = lemma_ratios(levels, last as nat);
        let left = levels[last + 1].spec_minus(levels[last]);
        let right = levels[last + 2].spec_minus(levels[last + 1]);
        let ratio = statistics::gap_ratio(left, right);
        assert(divides_exactly(levels[last + 1].spec_minus(levels[last]), levels[(last + 1) + 1].spec_minus(
            levels[last + 1],
        )));
        assert(divides_exactly(levels[(last + 1) + 1].spec_minus(levels[last + 1]), levels[last + 1].spec_minus(
            levels[last],
        )));
        let ratios = before.push(ratio);
        lemma_total_of_prefix(before, ratios, last as nat);
        assert forall|i: int| 0 <= i < count implies is_smaller_over_larger(
            #[trigger] ratios[i],
            levels[i + 1].spec_minus(levels[i]),
            levels[i + 2].spec_minus(levels[i + 1]),
        ) by {
            if i < last {
                assert(ratios[i] == before[i]);
            }
        }
        ratios
    }
}

proof fn lemma_total_of_prefix<R: RealNumber>(short: Seq<R>, long: Seq<R>, count: nat)
    requires
        count <= short.len(),
        count <= long.len(),
        forall|i: int| 0 <= i < count ==> short[i] == #[trigger] long[i],
    ensures
        statistics::total(short, count) == statistics::total(long, count),
    decreases count,
{
    if count > 0 {
        lemma_total_of_prefix(short, long, (count - 1) as nat);
        assert(short[count - 1] == long[count - 1]);
    }
}

/// The mean spacing ratio is the mean of one ratio for each pair of adjacent gaps: the smaller gap
/// over the larger one. Divisions are taken to leave no rest.
pub proof fn law_mean_spacing_averages_gap_ratios<R: RealNumber>(levels: Seq<R>) -> (ratios: Seq<R>)
    requires
        levels.len() >= 3,
        forall|i: int, j: int|
            0 <= i < levels.len() - 1 && 0 <= j < levels.len() - 1 ==> #[trigger] divides_exactly(
                levels[i + 1].spec_minus(levels[i]),
                levels[j + 1].spec_minus(levels[j]),
            ),
        forall|number: R| #[trigger]
            divides_exactly(number, R::spec_count((levels.len() - 2) as usize)),
    ensures
        ratios.len() == levels.len() - 2,
        mean_ratio(levels).spec_times(R::spec_count((levels.len() - 2) as usize))
            == statistics::total(ratios, ratios.len()),
        forall|i: int|
            0 <= i < ratios.len() ==> is_smaller_over_larger(
                #[trigger] ratios[i],
                levels[i + 1].spec_minus(levels[i]),
                levels[i + 2].spec_minus(levels[i + 1]),
            ),
{
    let count = (levels.len() - 2) as nat;
    let ratios = lemma_ratios(levels, count);
    assert(divides_exactly(ratio_sum(levels, count), R::spec_count(count as usize)));
    ratios
}

/// A window holds the numbers of exactly those levels that are no farther from its centre than its
/// half width, each once and in order.
pub proof fn law_window_holds_the_near_levels<R: RealNumber>(
    levels: Seq<R>,
    center: R,
    half_width: R,
    count: nat,
)
    requires
        count <= levels.len(),
        levels.len() <= usize::MAX,
    ensures
        forall|k: usize| #[trigger]
            window(levels, center, half_width, count).contains(k) <==> k < count
                && levels[k as int].spec_minus(center).spec_magnitude().spec_at_most(half_width),
        forall|i: int, j: int|
            0 <= i < j < window(levels, center, half_width, count).len() ==> window(
                levels,
                center,
                half_width,
                count,
            )[i] < window(levels, center, half_width, count)[j],
    decreases count,
{
    if count > 0 {
        let last = (count - 1) as nat;
        law_window_holds_the_near_levels(levels, center, half_width, last);
        let before = window(levels, center, half_width, last);
        let list = window(levels, center, half_width, count);
        assert forall|k: usize| #[trigger] list.contains(k) <==> k < count
            && levels[k as int].spec_minus(center).spec_magnitude().spec_at_most(half_width) by {
            if list.contains(k) {
                let i = list.index_of(k);
                if i < before.len() {
                    assert(before[i] == k);
                    assert(before.contains(k));
                }
            }
            if before.contains(k) {
                let i = before.index_of(k);
                assert(list[i] == k);
            }
            if k == last && list.len() > before.len() {
                assert(list.last() == k);
            }
        }
        assert forall|i: int, j: int| 0 <= i < j < list.len() implies list[i] < list[j] by {
            assert(list[i] == before[i]);
            assert(before.contains(before[i]));
            if j < before.len() {
                assert(list[j] == before[j]);
            }
        }
    }
}

proof fn lemma_sure_overlap<R: ExactReal, S: ExactComplex<R>>()
    ensures
        S::spec_one().spec_weight() == R::spec_one(),
        S::spec_zero().spec_weight() == R::spec_zero(),
{
    let (one, zero) = (S::spec_one(), S::spec_zero());
    S::numbers_embed(one, one.spec_weight(), R::spec_one());
    S::numbers_embed(one, R::spec_one(), R::spec_one());
    S::numbers_embed(zero, zero.spec_weight(), R::spec_one());
    S::numbers_embed(zero, R::spec_zero(), R::spec_one());
    S::one_is_neutral(one);
    S::one_is_neutral(one.spec_conjugate());
    S::zero_is_neutral(zero.spec_conjugate());
}

proof fn lemma_row_of_member<R: ExactReal, S: ExactComplex<R>>(
    start: R,
    vectors: Seq<Seq<S>>,
    place: int,
    columns: Seq<Seq<S>>,
    count: nat,
)
    requires
        eigenphases::orthonormal(vectors),
        0 <= place < vectors.len(),
        columns.len() <= vectors.len(),
        count <= columns.len(),
        forall|i: int| 0 <= i < columns.len() ==> #[trigger] columns[i] == vectors[i],
    ensures
        overlap_row(start, vectors[place], columns, count) == if place < count {
            start.spec_plus(R::spec_one())
        } else {
            start
        },
    decreases count,
{
    if count > 0 {
        lemma_row_of_member(start, vectors, place, columns, (count - 1) as nat);
        lemma_sure_overlap::<R, S>();
        assert(columns[count - 1] == vectors[count - 1]);
        assert(linear::inner_product(vectors[place], vectors[count - 1]) == if place == count - 1 {
            S::spec_one()
        } else {
            S::spec_zero()
        });
        R::zero_is_neutral(start);
        R::zero_is_neutral(start.spec_plus(R::spec_one()));
    }
}

proof fn lemma_members_counted<R: ExactReal, S: ExactComplex<R>>(
    vectors: Seq<Seq<S>>,
    left: nat,
    right: nat,
    count: nat,
)
    requires
        eigenphases::orthonormal(vectors),
        left <= vectors.len(),
        right <= vectors.len(),
        count <= left,
    ensures
        overlap_sum::<R, S>(vectors.take(left as int), vectors.take(right as int), count)
            == statistics::total(
            measure_laws::copies(R::spec_one(), vectors.len()),
            if count <= right {
                count
            } else {
                right
            },
        ),
    decreases count,
{
    if count > 0 {
        let before = (count - 1) as nat;
        lemma_members_counted::<R, S>(vectors, left, right, before);
        let start = overlap_sum::<R, S>(
            vectors.take(left as int),
            vectors.take(right as int),
            before,
        );
        lemma_row_of_member::<R, S>(
            start,
            vectors,
            before as int,
            vectors.take(right as int),
            right,
        );
    }
}

/// A space that lies in another agrees with it, seen from either side: their mean squared cosine
/// is one. The count of vectors is taken to be a sum of ones that divides without a rest.
pub proof fn law_contained_spaces_agree<R: ExactReal, S: ExactComplex<R>>(
    vectors: Seq<Seq<S>>,
    part: nat,
)
    requires
        eigenphases::orthonormal(vectors),
        0 < part <= vectors.len(),
        vectors.len() <= usize::MAX,
        R::parts(R::spec_count(part as usize)),
        R::spec_count(part as usize) == statistics::total(
            measure_laws::copies(R::spec_one(), vectors.len()),
            part,
        ),
        R::spec_zero().spec_at_most(R::spec_one()),
        R::spec_one().spec_at_most(R::spec_one()),
    ensures
        mean_squared_cosine::<R, S>(vectors.take(part as int), vectors) == R::spec_one(),
        mean_squared_cosine::<R, S>(vectors, vectors.take(part as int)) == R::spec_one(),
{
    let n = vectors.len();
    let one = R::spec_one();
    let count = R::spec_count(part as usize);
    assert(vectors.take(n as int) =~= vectors);
    lemma_members_counted::<R, S>(vectors, part, n, part);
    lemma_members_counted::<R, S>(vectors, n, part, n);
    R::one_is_neutral(count);
    R::division_is_linear(one, one, count);
}

proof fn lemma_apart<R: ExactReal, S: ExactComplex<R>>(
    left: Seq<Seq<S>>,
    right: Seq<Seq<S>>,
    count: nat,
)
    requires
        count <= left.len(),
        forall|i: int, j: int|
            0 <= i < left.len() && 0 <= j < right.len() ==> linear::inner_product(
                #[trigger] left[i],
                #[trigger] right[j],
            ) == S::spec_zero(),
    ensures
        overlap_sum::<R, S>(left, right, count) == R::spec_zero(),
    decreases count,
{
    if count > 0 {
        lemma_apart::<R, S>(left, right, (count - 1) as nat);
        lemma_apart_row::<R, S>(left[count - 1], right, right.len());
    }
}

proof fn lemma_apart_row<R: ExactReal, S: ExactComplex<R>>(
    vector: Seq<S>,
    right: Seq<Seq<S>>,
    count: nat,
)
    requires
        count <= right.len(),
        forall|j: int|
            0 <= j < right.len() ==> linear::inner_product(vector, #[trigger] right[j])
                == S::spec_zero(),
    ensures
        overlap_row(R::spec_zero(), vector, right, count) == R::spec_zero(),
    decreases count,
{
    if count > 0 {
        lemma_apart_row::<R, S>(vector, right, (count - 1) as nat);
        lemma_sure_overlap::<R, S>();
        assert(linear::inner_product(vector, right[count - 1]) == S::spec_zero());
        R::zero_is_neutral(R::spec_zero());
    }
}

/// Orthogonal spaces have nothing in common: their mean squared cosine is zero.
pub proof fn law_orthogonal_spaces_share_nothing<R: ExactReal, S: ExactComplex<R>>(
    left: Seq<Seq<S>>,
    right: Seq<Seq<S>>,
)
    requires
        forall|i: int, j: int|
            0 <= i < left.len() && 0 <= j < right.len() ==> linear::inner_product(
                #[trigger] left[i],
                #[trigger] right[j],
            ) == S::spec_zero(),
        R::parts(
            R::spec_count(
                (if left.len() <= right.len() {
                    left.len()
                } else {
                    right.len()
                }) as usize,
            ),
        ),
        R::spec_zero().spec_at_most(R::spec_zero()),
        R::spec_zero().spec_at_most(R::spec_one()),
    ensures
        mean_squared_cosine::<R, S>(left, right) == R::spec_zero(),
{
    lemma_apart::<R, S>(left, right, left.len());
    R::division_is_linear(
        R::spec_zero(),
        R::spec_zero(),
        R::spec_count(
            (if left.len() <= right.len() {
                left.len()
            } else {
                right.len()
            }) as usize,
        ),
    );
}

} // verus!

//! Finite sums of exact scalars.

use vstd::prelude::*;

use crate::exact;
use crate::exact::ExactScalar;
use crate::linear;
use crate::linear::Scalar;

verus! {

/// Sum of the first terms of a list.
pub open spec fn total_of<S: Scalar>(term: spec_fn(int) -> S, count: nat) -> S
    decreases count,
{
    if count == 0 {
        S::spec_zero()
    } else {
        total_of(term, (count - 1) as nat).spec_plus(term(count - 1))
    }
}

/// Sums of equal terms are equal.
pub proof fn lemma_alike<S: Scalar>(left: spec_fn(int) -> S, right: spec_fn(int) -> S, count: nat)
    requires
        forall|i: int| 0 <= i < count ==> #[trigger] left(i) == right(i),
    ensures
        total_of(left, count) == total_of(right, count),
    decreases count,
{
    if count > 0 {
        lemma_alike(left, right, (count - 1) as nat);
        assert(left(count - 1) == right(count - 1));
    }
}

/// A common factor can be taken out of a sum.
pub proof fn lemma_factor<S: ExactScalar>(factor: S, term: spec_fn(int) -> S, count: nat)
    ensures
        total_of(|i: int| factor.spec_times(term(i)), count) == factor.spec_times(
            total_of(term, count),
        ),
    decreases count,
{
    if count == 0 {
        S::zero_is_neutral(factor);
        S::times_commutes(factor, S::spec_zero());
    } else {
        lemma_factor(factor, term, (count - 1) as nat);
        S::times_distributes(factor, total_of(term, (count - 1) as nat), term(count - 1));
    }
}

/// A common factor behind the terms can be taken out of a sum.
pub proof fn lemma_factor_behind<S: ExactScalar>(term: spec_fn(int) -> S, factor: S, count: nat)
    ensures
        total_of(|i: int| term(i).spec_times(factor), count) == total_of(term, count).spec_times(
            factor,
        ),
{
    lemma_factor(factor, term, count);
    S::times_commutes(factor, total_of(term, count));
    let behind = |i: int| term(i).spec_times(factor);
    let before = |i: int| factor.spec_times(term(i));
    assert forall|i: int| 0 <= i < count implies #[trigger] behind(i) == before(i) by {
        S::times_commutes(factor, term(i));
    }
    lemma_alike(behind, before, count);
}

/// Sums add up term by term.
pub proof fn lemma_added<S: ExactScalar>(
    left: spec_fn(int) -> S,
    right: spec_fn(int) -> S,
    count: nat,
)
    ensures
        total_of(|i: int| left(i).spec_plus(right(i)), count) == total_of(left, count).spec_plus(
            total_of(right, count),
        ),
    decreases count,
{
    if count == 0 {
        S::zero_is_neutral(S::spec_zero());
    } else {
        lemma_added(left, right, (count - 1) as nat);
        exact::lemma_crosswise(
            total_of(left, (count - 1) as nat),
            total_of(right, (count - 1) as nat),
            left(count - 1),
            right(count - 1),
        );
    }
}

/// The conjugate of a sum is the sum of the conjugates.
pub proof fn lemma_conjugated<S: ExactScalar>(term: spec_fn(int) -> S, count: nat)
    ensures
        total_of(|i: int| term(i).spec_conjugate(), count) == total_of(
            term,
            count,
        ).spec_conjugate(),
    decreases count,
{
    if count == 0 {
        S::conjugation_is_linear(S::spec_zero(), S::spec_zero());
    } else {
        lemma_conjugated(term, (count - 1) as nat);
        S::conjugation_is_linear(total_of(term, (count - 1) as nat), term(count - 1));
    }
}

/// A sum of zeros is zero.
pub proof fn lemma_nothing<S: ExactScalar>(term: spec_fn(int) -> S, count: nat)
    requires
        forall|i: int| 0 <= i < count ==> #[trigger] term(i) == S::spec_zero(),
    ensures
        total_of(term, count) == S::spec_zero(),
    decreases count,
{
    if count > 0 {
        lemma_nothing(term, (count - 1) as nat);
        assert(term(count - 1) == S::spec_zero());
        S::zero_is_neutral(S::spec_zero());
    }
}

/// A sum with one term that is not zero is that term.
pub proof fn lemma_single<S: ExactScalar>(term: spec_fn(int) -> S, place: int, count: nat)
    requires
        0 <= place < count,
        forall|i: int| 0 <= i < count && i != place ==> #[trigger] term(i) == S::spec_zero(),
    ensures
        total_of(term, count) == term(place),
    decreases count,
{
    let before = total_of(term, (count - 1) as nat);
    if place == count - 1 {
        lemma_nothing(term, (count - 1) as nat);
        S::plus_commutes(before, term(place));
        S::zero_is_neutral(term(place));
    } else {
        lemma_single(term, place, (count - 1) as nat);
        assert(term(count - 1) == S::spec_zero());
        S::zero_is_neutral(before);
    }
}

/// The order of two sums does not matter.
pub proof fn lemma_exchanged<S: ExactScalar>(
    term: spec_fn(int, int) -> S,
    rows: nat,
    columns: nat,
)
    ensures
        total_of(|i: int| total_of(|j: int| term(i, j), columns), rows) == total_of(
            |j: int| total_of(|i: int| term(i, j), rows),
            columns,
        ),
    decreases rows,
{
    let outer = |i: int| total_of(|j: int| term(i, j), columns);
    if rows == 0 {
        lemma_nothing(|j: int| total_of(|i: int| term(i, j), rows), columns);
    } else {
        let less = (rows - 1) as nat;
        lemma_exchanged(term, less, columns);
        let before = |j: int| total_of(|i: int| term(i, j), less);
        let last = |j: int| term(less as int, j);
        lemma_added(before, last, columns);
        lemma_alike(
            |j: int| total_of(|i: int| term(i, j), rows),
            |j: int| before(j).spec_plus(last(j)),
            columns,
        );
    }
}

/// A sum over the places of a table is a sum over its rows of sums over its columns.
pub proof fn lemma_by_rows<S: ExactScalar>(
    term: spec_fn(int, int) -> S,
    rows: nat,
    columns: nat,
)
    requires
        columns > 0,
    ensures
        total_of(
            |place: int| term(place / (columns as int), place % (columns as int)),
            rows * columns,
        ) == total_of(|i: int| total_of(|j: int| term(i, j), columns), rows),
    decreases rows,
{
    let flat = |place: int| term(place / (columns as int), place % (columns as int));
    if rows == 0 {
        assert(rows * columns == 0) by (nonlinear_arith)
            requires
                rows == 0,
        ;
    } else {
        let less = (rows - 1) as nat;
        lemma_by_rows(term, less, columns);
        lemma_row(term, less, columns, columns);
        assert(less * columns + columns == rows * columns) by (nonlinear_arith)
            requires
                rows == less + 1,
        ;
    }
}

proof fn lemma_row<S: ExactScalar>(
    term: spec_fn(int, int) -> S,
    row: nat,
    columns: nat,
    count: nat,
)
    requires
        count <= columns,
        columns > 0,
    ensures
        total_of(
            |place: int| term(place / (columns as int), place % (columns as int)),
            row * columns + count,
        ) == total_of(
            |place: int| term(place / (columns as int), place % (columns as int)),
            row * columns,
        ).spec_plus(total_of(|j: int| term(row as int, j), count)),
    decreases count,
{
    let flat = |place: int| term(place / (columns as int), place % (columns as int));
    let before = total_of(flat, row * columns);
    if count == 0 {
        S::zero_is_neutral(before);
    } else {
        lemma_row(term, row, columns, (count - 1) as nat);
        let place = row * columns + (count - 1);
        vstd::arithmetic::div_mod::lemma_fundamental_div_mod_converse(
            place,
            columns as int,
            row as int,
            count - 1,
        );
        assert(row * columns + count - 1 == place);
        S::plus_associates(
            before,
            total_of(|j: int| term(row as int, j), (count - 1) as nat),
            term(row as int, count - 1),
        );
    }
}

/// The product of two sums is the sum of the products.
pub proof fn lemma_product<S: ExactScalar>(
    left: spec_fn(int) -> S,
    right: spec_fn(int) -> S,
    rows: nat,
    columns: nat,
)
    ensures
        total_of(|i: int| total_of(|j: int| left(i).spec_times(right(j)), columns), rows)
            == total_of(left, rows).spec_times(total_of(right, columns)),
{
    let whole = total_of(right, columns);
    let spread = |i: int| total_of(|j: int| left(i).spec_times(right(j)), columns);
    let gathered = |i: int| left(i).spec_times(whole);
    assert forall|i: int| 0 <= i < rows implies #[trigger] spread(i) == gathered(i) by {
        lemma_factor(left(i), right, columns);
    }
    lemma_alike(spread, gathered, rows);
    lemma_factor_behind(left, whole, rows);
}

/// An inner product as a sum.
pub proof fn lemma_inner_product<S: Scalar>(left: Seq<S>, right: Seq<S>)
    ensures
        linear::inner_product(left, right) == total_of(
            |i: int| left[i].spec_conjugate().spec_times(right[i]),
            left.len(),
        ),
    decreases left.len(),
{
    if left.len() > 0 {
        lemma_inner_product(left.drop_last(), right);
        lemma_alike(
            |i: int| left.drop_last()[i].spec_conjugate().spec_times(right[i]),
            |i: int| left[i].spec_conjugate().spec_times(right[i]),
            (left.len() - 1) as nat,
        );
    }
}

} // verus!

//! What reduced density matrices are for: expectations of the part they describe.

use vstd::prelude::*;

use crate::density;
use crate::density::{mixed_traced, reduced_state, squared_norm, traced, traced_element};
use crate::ensemble::ComplexOver;
use crate::exact::ExactScalar;
use crate::exact_numbers::{ExactComplex, ExactReal};
use crate::linear;
use crate::linear::Scalar;
use crate::numbers::RealNumber;
use crate::sums;
use crate::sums::total_of;

verus! {

/// The trace of the product of two square matrices in row order.
pub open spec fn trace_of_product<S: Scalar>(left: Seq<S>, right: Seq<S>, dimension: nat) -> S {
    total_of(
        |i: int|
            total_of(
                |j: int| left[i * dimension + j].spec_times(right[j * dimension + i]),
                dimension,
            ),
        dimension,
    )
}

/// A state of two factors after a matrix has acted on the first one and left the second alone.
pub open spec fn acting_on_first<S: Scalar>(
    matrix: Seq<S>,
    state: Seq<S>,
    inner: nat,
    outer: nat,
) -> Seq<S> {
    Seq::new(
        inner * outer,
        |place: int|
            total_of(
                |i: int|
                    matrix[(place / (outer as int)) * inner + i].spec_times(
                        state[i * outer + place % (outer as int)],
                    ),
                inner,
            ),
    )
}

/// The state of two factors that stand side by side.
pub open spec fn product_state<S: Scalar>(first: Seq<S>, second: Seq<S>) -> Seq<S> {
    Seq::new(
        first.len() * second.len(),
        |place: int|
            first[place / (second.len() as int)].spec_times(second[place % (second.len() as int)]),
    )
}

/// The projector on a state, in row order.
pub open spec fn outer_product<S: Scalar>(state: Seq<S>) -> Seq<S> {
    Seq::new(
        state.len() * state.len(),
        |place: int|
            state[place / (state.len() as int)].spec_times(
                state[place % (state.len() as int)].spec_conjugate(),
            ),
    )
}

pub proof fn lemma_pair(left: int, right: int, rows: int, columns: int)
    requires
        0 <= left < rows,
        0 <= right < columns,
    ensures
        0 <= left * columns + right < rows * columns,
        (left * columns + right) / columns == left,
        (left * columns + right) % columns == right,
{
    assert(0 <= left * columns) by (nonlinear_arith)
        requires
            0 <= left,
            0 <= columns,
    ;
    assert(left * columns + right < rows * columns) by (nonlinear_arith)
        requires
            0 <= left < rows,
            0 <= right < columns,
    ;
    vstd::arithmetic::div_mod::lemma_fundamental_div_mod_converse(
        left * columns + right,
        columns,
        left,
        right,
    );
}

pub proof fn lemma_unpair(place: int, rows: int, columns: int)
    requires
        0 <= place < rows * columns,
        0 <= columns,
    ensures
        columns > 0,
        0 <= place / columns < rows,
        0 <= place % columns < columns,
        (place / columns) * columns + place % columns == place,
{
    assert(columns > 0) by (nonlinear_arith)
        requires
            0 <= place < rows * columns,
            0 <= columns,
    ;
    vstd::arithmetic::div_mod::lemma_fundamental_div_mod(place, columns);
    vstd::arithmetic::mul::lemma_mul_is_commutative(place / columns, columns);
    vstd::arithmetic::mul::lemma_mul_is_commutative(rows, columns);
    vstd::arithmetic::div_mod::lemma_multiply_divide_lt(place, columns, rows);
    vstd::arithmetic::div_mod::lemma_div_pos_is_pos(place, columns);
    vstd::arithmetic::div_mod::lemma_mod_bound(place, columns);
}

/// One contribution of the environment to an element, before it is divided.
spec fn contribution<S: Scalar>(state: Seq<S>, outer: nat, left: int, right: int, place: int) -> S {
    state[left * outer + place].spec_times(state[right * outer + place].spec_conjugate())
}

proof fn lemma_divided_sum<R: ExactReal, S: ExactComplex<R>>(
    term: spec_fn(int) -> S,
    divisor: R,
    count: nat,
)
    requires
        S::divides(divisor),
    ensures
        total_of(|i: int| term(i).spec_divided(divisor), count) == total_of(
            term,
            count,
        ).spec_divided(divisor),
    decreases count,
{
    if count == 0 {
        S::division_is_linear(S::spec_zero(), S::spec_zero(), divisor);
    } else {
        lemma_divided_sum::<R, S>(term, divisor, (count - 1) as nat);
        S::division_is_linear(total_of(term, (count - 1) as nat), term(count - 1), divisor);
    }
}

proof fn lemma_traced_element<R: RealNumber, S: ComplexOver<R>>(
    state: Seq<S>,
    outer: nat,
    left: int,
    right: int,
    norm: R,
    count: nat,
)
    ensures
        traced_element(state, outer, left, right, norm, count) == total_of(
            |k: int| contribution(state, outer, left, right, k).spec_divided(norm),
            count,
        ),
    decreases count,
{
    if count > 0 {
        lemma_traced_element(state, outer, left, right, norm, (count - 1) as nat);
    }
}

/// An element of a reduced density matrix, divided at the end.
proof fn lemma_element<R: ExactReal, S: ExactComplex<R>>(
    state: Seq<S>,
    inner: nat,
    outer: nat,
    norm: R,
    left: int,
    right: int,
)
    requires
        0 <= left < inner,
        0 <= right < inner,
        S::divides(norm),
    ensures
        traced(state, inner, outer, norm)[left * inner + right] == total_of(
            |k: int| contribution(state, outer, left, right, k),
            outer,
        ).spec_divided(norm),
{
    lemma_pair(left, right, inner as int, inner as int);
    lemma_traced_element(state, outer, left, right, norm, outer);
    let term = |k: int| contribution(state, outer, left, right, k);
    lemma_divided_sum::<R, S>(term, norm, outer);
    sums::lemma_alike(
        |k: int| contribution(state, outer, left, right, k).spec_divided(norm),
        |k: int| term(k).spec_divided(norm),
        outer,
    );
}

/// One term of an expectation: row `j` and column `i` of the matrix, place `k` of the
/// environment.
spec fn piece<S: Scalar>(
    matrix: Seq<S>,
    state: Seq<S>,
    inner: nat,
    outer: nat,
    i: int,
    j: int,
    k: int,
) -> S {
    matrix[j * inner + i].spec_times(contribution(state, outer, i, j, k))
}

proof fn lemma_traced_side<R: ExactReal, S: ExactComplex<R>>(
    state: Seq<S>,
    matrix: Seq<S>,
    inner: nat,
    outer: nat,
    norm: R,
)
    requires
        S::divides(norm),
    ensures
        trace_of_product(traced(state, inner, outer, norm), matrix, inner) == total_of(
            |i: int|
                total_of(
                    |j: int|
                        total_of(|k: int| piece(matrix, state, inner, outer, i, j, k), outer),
                    inner,
                ),
            inner,
        ).spec_divided(norm),
{
    let reduced = traced(state, inner, outer, norm);
    let deep = |i: int, j: int|
        total_of(|k: int| piece(matrix, state, inner, outer, i, j, k), outer);
    let row = |i: int| total_of(|j: int| deep(i, j), inner);
    let given = |i: int|
        total_of(|j: int| reduced[i * inner + j].spec_times(matrix[j * inner + i]), inner);
    let divided = |i: int| row(i).spec_divided(norm);
    assert forall|i: int| 0 <= i < inner implies #[trigger] given(i) == divided(i) by {
        let along = |j: int| reduced[i * inner + j].spec_times(matrix[j * inner + i]);
        let inside = |j: int| deep(i, j);
        let parted = |j: int| inside(j).spec_divided(norm);
        assert forall|j: int| 0 <= j < inner implies #[trigger] along(j) == parted(j) by {
            let term = |k: int| contribution(state, outer, i, j, k);
            let sum = total_of(term, outer);
            let factor = matrix[j * inner + i];
            lemma_element::<R, S>(state, inner, outer, norm, i, j);
            S::times_commutes(sum.spec_divided(norm), factor);
            S::division_is_linear(factor, sum, norm);
            sums::lemma_factor(factor, term, outer);
            sums::lemma_alike(
                |k: int| piece(matrix, state, inner, outer, i, j, k),
                |k: int| factor.spec_times(term(k)),
                outer,
            );
        }
        sums::lemma_alike(along, parted, inner);
        lemma_divided_sum::<R, S>(inside, norm, inner);
    }
    sums::lemma_alike(given, divided, inner);
    lemma_divided_sum::<R, S>(row, norm, inner);
    let full = |i: int|
        total_of(
            |j: int| total_of(|k: int| piece(matrix, state, inner, outer, i, j, k), outer),
            inner,
        );
    assert forall|i: int| 0 <= i < inner implies #[trigger] row(i) == full(i) by {
        sums::lemma_alike(
            |j: int| deep(i, j),
            |j: int| total_of(|k: int| piece(matrix, state, inner, outer, i, j, k), outer),
            inner,
        );
    }
    sums::lemma_alike(row, full, inner);
}

proof fn lemma_whole_side<S: ExactScalar>(
    state: Seq<S>,
    matrix: Seq<S>,
    inner: nat,
    outer: nat,
)
    requires
        state.len() == inner * outer,
        outer > 0,
    ensures
        linear::inner_product(state, acting_on_first(matrix, state, inner, outer)) == total_of(
            |j: int|
                total_of(
                    |k: int|
                        total_of(|i: int| piece(matrix, state, inner, outer, i, j, k), inner),
                    outer,
                ),
            inner,
        ),
{
    let image = acting_on_first(matrix, state, inner, outer);
    let n = outer as int;
    sums::lemma_inner_product(state, image);
    let term = |j: int, k: int|
        total_of(|i: int| piece(matrix, state, inner, outer, i, j, k), inner);
    let given = |place: int| state[place].spec_conjugate().spec_times(image[place]);
    let flat = |place: int| term(place / n, place % n);
    assert forall|place: int| 0 <= place < inner * outer implies #[trigger] given(place) == flat(
        place,
    ) by {
        lemma_unpair(place, inner as int, n);
        let j = place / n;
        let k = place % n;
        let left = state[place].spec_conjugate();
        let inside = |i: int| matrix[j * inner + i].spec_times(state[i * outer + k]);
        sums::lemma_factor(left, inside, inner);
        let scaled = |i: int| left.spec_times(inside(i));
        let pieces = |i: int| piece(matrix, state, inner, outer, i, j, k);
        assert forall|i: int| 0 <= i < inner implies #[trigger] scaled(i) == pieces(i) by {
            let a = matrix[j * inner + i];
            let b = state[i * outer + k];
            S::times_commutes(left, a.spec_times(b));
            S::times_associates(a, b, left);
            assert(state[j * outer + k] == state[place]);
        }
        sums::lemma_alike(scaled, pieces, inner);
    }
    sums::lemma_alike(given, flat, inner * outer);
    sums::lemma_by_rows(term, inner, outer);
    let rows = |j: int| total_of(|k: int| term(j, k), outer);
    let full = |j: int|
        total_of(
            |k: int| total_of(|i: int| piece(matrix, state, inner, outer, i, j, k), inner),
            outer,
        );
    assert forall|j: int| 0 <= j < inner implies #[trigger] rows(j) == full(j) by {
        sums::lemma_alike(
            |k: int| term(j, k),
            |k: int| total_of(|i: int| piece(matrix, state, inner, outer, i, j, k), inner),
            outer,
        );
    }
    sums::lemma_alike(rows, full, inner);
}

/// The reduced density matrix gives the expectations of the part it describes: for every matrix
/// `A`, the trace of its product with `A` is the expectation of `A` on the first factor in the
/// whole state, divided by the squared norm of the state.
pub proof fn law_reduced_state_gives_expectations<R: ExactReal, S: ExactComplex<R>>(
    state: Seq<S>,
    matrix: Seq<S>,
    inner: usize,
    outer: usize,
)
    requires
        reduced_state::<R, S>(state, inner, outer) is Ok,
        matrix.len() == inner * inner,
        S::divides(squared_norm::<R, S>(state, state.len())),
    ensures
        trace_of_product(reduced_state::<R, S>(state, inner, outer)->Ok_0, matrix, inner as nat)
            == linear::inner_product(
            state,
            acting_on_first(matrix, state, inner as nat, outer as nat),
        ).spec_divided(squared_norm::<R, S>(state, state.len())),
{
    let m = inner as nat;
    let n = outer as nat;
    let norm = squared_norm::<R, S>(state, state.len());
    lemma_traced_side::<R, S>(state, matrix, m, n, norm);
    lemma_whole_side(state, matrix, m, n);
    let ijk = |i: int, j: int| total_of(|k: int| piece(matrix, state, m, n, i, j, k), n);
    sums::lemma_exchanged(ijk, m, m);
    let first = |i: int|
        total_of(|j: int| total_of(|k: int| piece(matrix, state, m, n, i, j, k), n), m);
    let second = |j: int|
        total_of(|k: int| total_of(|i: int| piece(matrix, state, m, n, i, j, k), m), n);
    let swapped = |j: int| total_of(|i: int| ijk(i, j), m);
    assert forall|i: int| 0 <= i < m implies #[trigger] first(i) == (|i: int|
        total_of(|j: int| ijk(i, j), m))(i) by {
        sums::lemma_alike(
            |j: int| total_of(|k: int| piece(matrix, state, m, n, i, j, k), n),
            |j: int| ijk(i, j),
            m,
        );
    }
    sums::lemma_alike(first, |i: int| total_of(|j: int| ijk(i, j), m), m);
    assert forall|j: int| 0 <= j < m implies #[trigger] second(j) == swapped(j) by {
        let ik = |i: int, k: int| piece(matrix, state, m, n, i, j, k);
        sums::lemma_exchanged(ik, m, n);
        let inward = |i: int| ijk(i, j);
        let along = |i: int| total_of(|k: int| ik(i, k), n);
        assert forall|i: int| 0 <= i < m implies #[trigger] inward(i) == along(i) by {
            sums::lemma_alike(
                |k: int| piece(matrix, state, m, n, i, j, k),
                |k: int| ik(i, k),
                n,
            );
        }
        sums::lemma_alike(inward, along, m);
        let outward = |k: int| total_of(|i: int| ik(i, k), m);
        let across = |k: int| total_of(|i: int| piece(matrix, state, m, n, i, j, k), m);
        assert forall|k: int| 0 <= k < n implies #[trigger] outward(k) == across(k) by {
            sums::lemma_alike(
                |i: int| ik(i, k),
                |i: int| piece(matrix, state, m, n, i, j, k),
                m,
            );
        }
        sums::lemma_alike(outward, across, n);
    }
    sums::lemma_alike(second, swapped, m);
}

/// A factor that stands alone keeps its state: the reduced density matrix of a product state is
/// the projector on the first factor, all of its elements, times the squared norm of the second
/// and divided by that of the whole.
pub proof fn law_product_states_stay_pure<R: ExactReal, S: ExactComplex<R>>(
    first: Seq<S>,
    second: Seq<S>,
    norm: R,
    left: int,
    right: int,
)
    requires
        0 <= left < first.len(),
        0 <= right < first.len(),
        S::divides(norm),
    ensures
        traced(product_state(first, second), first.len(), second.len(), norm)[left * first.len()
            + right] == first[left].spec_times(first[right].spec_conjugate()).spec_times(
            linear::inner_product(second, second),
        ).spec_divided(norm),
{
    let state = product_state(first, second);
    let m = first.len();
    let n = second.len();
    lemma_element::<R, S>(state, m, n, norm, left, right);
    let factor = first[left].spec_times(first[right].spec_conjugate());
    let own = |k: int| second[k].spec_conjugate().spec_times(second[k]);
    let given = |k: int| contribution(state, n, left, right, k);
    let split = |k: int| factor.spec_times(own(k));
    assert forall|k: int| 0 <= k < n implies #[trigger] given(k) == split(k) by {
        lemma_pair(left, k, m as int, n as int);
        lemma_pair(right, k, m as int, n as int);
        let (a, b, c) = (first[left], first[right], second[k]);
        S::conjugation_is_linear(b, c);
        lemma_four(a, c, b.spec_conjugate(), c.spec_conjugate());
        S::times_commutes(c, c.spec_conjugate());
    }
    sums::lemma_alike(given, split, n);
    sums::lemma_factor(factor, own, n);
    sums::lemma_inner_product(second, second);
}

/// Products of four scalars can be paired differently.
pub proof fn lemma_four<S: ExactScalar>(a: S, b: S, c: S, d: S)
    ensures
        a.spec_times(b).spec_times(c.spec_times(d)) == a.spec_times(c).spec_times(
            b.spec_times(d),
        ),
{
    S::times_associates(a, b, c.spec_times(d));
    S::times_associates(b, c, d);
    S::times_commutes(b, c);
    S::times_associates(c, b, d);
    S::times_associates(a, c, b.spec_times(d));
}

/// A state without an environment is its own projector, divided by its squared norm; no element
/// is left out.
pub proof fn law_state_alone_is_its_projector<R: ExactReal, S: ComplexOver<R> + ExactScalar>(
    state: Seq<S>,
    inner: usize,
    left: int,
    right: int,
)
    requires
        reduced_state::<R, S>(state, inner, 1) is Ok,
        0 <= left < inner,
        0 <= right < inner,
    ensures
        reduced_state::<R, S>(state, inner, 1)->Ok_0[left * inner + right] == state[left].spec_times(
            state[right].spec_conjugate(),
        ).spec_divided(squared_norm::<R, S>(state, state.len())),
{
    let norm = squared_norm::<R, S>(state, state.len());
    lemma_pair(left, right, inner as int, inner as int);
    reveal_with_fuel(traced_element, 2);
    let only = state[left].spec_times(state[right].spec_conjugate()).spec_divided(norm);
    S::plus_commutes(S::spec_zero(), only);
    S::zero_is_neutral(only);
    assert(left * 1 == left && right * 1 == right);
}

proof fn lemma_pure_element<R: RealNumber, S: ComplexOver<R>>(
    state: Seq<S>,
    inner: nat,
    outer: nat,
    left: int,
    right: int,
    norm: R,
    count: nat,
)
    requires
        state.len() == inner * outer,
        0 <= left < inner,
        0 <= right < inner,
        count <= outer,
    ensures
        density::mixed_element(outer_product(state), inner, outer, left, right, norm, count)
            == traced_element(state, outer, left, right, norm, count),
    decreases count,
{
    if count > 0 {
        lemma_pure_element(state, inner, outer, left, right, norm, (count - 1) as nat);
        let row = left * outer + (count - 1);
        let column = right * outer + (count - 1);
        let size = (inner * outer) as int;
        lemma_pair(left, count - 1, inner as int, outer as int);
        lemma_pair(right, count - 1, inner as int, outer as int);
        lemma_pair(row, column, size, size);
    }
}

/// Pure and mixed states agree: the reduced density matrix of the projector on a state is that of
/// the state.
pub proof fn law_pure_mixtures_agree<R: RealNumber, S: ComplexOver<R>>(
    state: Seq<S>,
    inner: nat,
    outer: nat,
    norm: R,
)
    requires
        state.len() == inner * outer,
    ensures
        mixed_traced(outer_product(state), inner, outer, norm) == traced(state, inner, outer, norm),
{
    let mixed = mixed_traced(outer_product(state), inner, outer, norm);
    let pure = traced(state, inner, outer, norm);
    assert forall|place: int| 0 <= place < inner * inner implies #[trigger] mixed[place]
        == pure[place] by {
        lemma_unpair(place, inner as int, inner as int);
        lemma_pure_element(
            state,
            inner,
            outer,
            place / (inner as int),
            place % (inner as int),
            norm,
            outer,
        );
    }
    assert(mixed =~= pure);
}

} // verus!

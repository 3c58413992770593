//! Reduced density matrices of states of a sector, element by element.

use vstd::prelude::*;

use crate::density::{density_product, inner_parts, outer_parts, pair_sums, state_product};
use crate::ensemble::ComplexOver;
use crate::exact::ExactScalar;
use crate::exchange::SplitBinarySectorState;
use crate::linear::Scalar;
use crate::matrix_subspace::PhaseScalar;
use crate::numbers::RealNumber;
use crate::partial_traces;
use crate::sums;
use crate::sums::total_of;

verus! {

proof fn lemma_same_place(a: int, b: int, p: int, q: int, dimension: int)
    requires
        0 <= a < dimension,
        0 <= b < dimension,
        0 <= p < dimension,
        0 <= q < dimension,
    ensures
        0 <= a * dimension + b < dimension * dimension,
        a * dimension + b == p * dimension + q <==> a == p && b == q,
{
    partial_traces::lemma_pair(a, b, dimension, dimension);
    partial_traces::lemma_pair(p, q, dimension, dimension);
}

/// The share of a pair of states in an element: nothing unless they belong to the element and
/// share their environment.
pub open spec fn share<S: Scalar>(
    parts: Seq<usize>,
    environments: Seq<Seq<u64>>,
    product: S,
    row: int,
    column: int,
    p: int,
    q: int,
) -> S {
    if parts[row] == p && parts[column] == q && environments[row] == environments[column] {
        product
    } else {
        S::spec_zero()
    }
}

proof fn lemma_element<S: ExactScalar>(
    parts: Seq<usize>,
    environments: Seq<Seq<u64>>,
    products: spec_fn(int, int) -> S,
    dimension: nat,
    count: nat,
    p: int,
    q: int,
)
    requires
        0 <= p < dimension,
        0 <= q < dimension,
        count <= parts.len() * parts.len(),
        forall|i: int| 0 <= i < parts.len() ==> #[trigger] parts[i] < dimension,
    ensures
        pair_sums(parts, environments, products, dimension, count).len() == dimension * dimension,
        pair_sums(parts, environments, products, dimension, count)[p * dimension + q] == total_of(
            |place: int|
                share(
                    parts,
                    environments,
                    products(place / (parts.len() as int), place % (parts.len() as int)),
                    place / (parts.len() as int),
                    place % (parts.len() as int),
                    p,
                    q,
                ),
            count,
        ),
    decreases count,
{
    let size = parts.len() as int;
    partial_traces::lemma_pair(p, q, dimension as int, dimension as int);
    if count > 0 {
        lemma_element(parts, environments, products, dimension, (count - 1) as nat, p, q);
        partial_traces::lemma_unpair(count - 1, size, size);
        let row = (count - 1) / size;
        let column = (count - 1) % size;
        lemma_same_place(parts[row] as int, parts[column] as int, p, q, dimension as int);
        let before = pair_sums(parts, environments, products, dimension, (count - 1) as nat);
        S::zero_is_neutral(before[p * dimension + q]);
    }
}

/// An element of the reduced density matrix of a sector state is the sum over pairs of states that
/// have these subsystem parts and one environment: the amplitude of the first with its exchange
/// phase, times the conjugate of the amplitude of the second with its own, over the norm.
pub proof fn law_sector_states_meet_in_their_environment<
    R: RealNumber,
    P,
    S: ComplexOver<R> + PhaseScalar<P> + ExactScalar,
>(
    amplitudes: Seq<S>,
    split: Seq<SplitBinarySectorState<P>>,
    norm: R,
    dimension: nat,
    p: int,
    q: int,
)
    requires
        split.len() > 0,
        0 <= p < dimension,
        0 <= q < dimension,
        forall|i: int| 0 <= i < split.len() ==> (#[trigger] split[i]).subsystem < dimension,
    ensures
        pair_sums(
            inner_parts(split),
            outer_parts(split),
            state_product::<R, P, S>(amplitudes, split, norm),
            dimension,
            split.len() * split.len(),
        )[p * dimension + q] == total_of(
            |row: int|
                total_of(
                    |column: int|
                        if split[row].subsystem == p && split[column].subsystem == q
                            && split[row].environment@ == split[column].environment@ {
                            S::spec_from_phase(split[row].exchange_phase).spec_times(
                                amplitudes[row],
                            ).spec_times(
                                S::spec_from_phase(split[column].exchange_phase).spec_times(
                                    amplitudes[column],
                                ).spec_conjugate(),
                            ).spec_divided(norm)
                        } else {
                            S::spec_zero()
                        },
                    split.len(),
                ),
            split.len(),
        ),
{
    let n = split.len();
    let parts = inner_parts(split);
    let environments = outer_parts(split);
    let products = state_product::<R, P, S>(amplitudes, split, norm);
    assert forall|i: int| 0 <= i < parts.len() implies #[trigger] parts[i] < dimension by {
        assert(split[i].subsystem < dimension);
    }
    lemma_element(parts, environments, products, dimension, n * n, p, q);
    let term = |row: int, column: int|
        share(parts, environments, products(row, column), row, column, p, q);
    let flat = |place: int| term(place / (n as int), place % (n as int));
    let found = |place: int|
        share(
            parts,
            environments,
            products(place / (n as int), place % (n as int)),
            place / (n as int),
            place % (n as int),
            p,
            q,
        );
    sums::lemma_alike(found, flat, n * n);
    sums::lemma_by_rows(term, n, n);
    let inner = |row: int, column: int|
        if split[row].subsystem == p && split[column].subsystem == q && split[row].environment@
            == split[column].environment@ {
            S::spec_from_phase(split[row].exchange_phase).spec_times(amplitudes[row]).spec_times(
                S::spec_from_phase(split[column].exchange_phase).spec_times(
                    amplitudes[column],
                ).spec_conjugate(),
            ).spec_divided(norm)
        } else {
            S::spec_zero()
        };
    let by_term = |row: int| total_of(|column: int| term(row, column), n);
    let by_inner = |row: int| total_of(|column: int| inner(row, column), n);
    assert forall|row: int| 0 <= row < n implies #[trigger] by_term(row) == by_inner(row) by {
        let (left, right) = (|column: int| term(row, column), |column: int| inner(row, column));
        assert forall|column: int| 0 <= column < n implies #[trigger] left(column)
            == right(column) by {
        }
        sums::lemma_alike(left, right, n);
    }
    sums::lemma_alike(by_term, by_inner, n);
    let stated = |row: int|
        total_of(
            |column: int|
                if split[row].subsystem == p && split[column].subsystem == q
                    && split[row].environment@ == split[column].environment@ {
                    S::spec_from_phase(split[row].exchange_phase).spec_times(
                        amplitudes[row],
                    ).spec_times(
                        S::spec_from_phase(split[column].exchange_phase).spec_times(
                            amplitudes[column],
                        ).spec_conjugate(),
                    ).spec_divided(norm)
                } else {
                    S::spec_zero()
                },
            n,
        );
    assert forall|row: int| 0 <= row < n implies #[trigger] by_inner(row) == stated(row) by {
        sums::lemma_alike(
            |column: int| inner(row, column),
            |column: int|
                if split[row].subsystem == p && split[column].subsystem == q
                    && split[row].environment@ == split[column].environment@ {
                    S::spec_from_phase(split[row].exchange_phase).spec_times(
                        amplitudes[row],
                    ).spec_times(
                        S::spec_from_phase(split[column].exchange_phase).spec_times(
                            amplitudes[column],
                        ).spec_conjugate(),
                    ).spec_divided(norm)
                } else {
                    S::spec_zero()
                },
            n,
        );
    }
    sums::lemma_alike(by_inner, stated, n);
}

/// A state of a sector and the projector on it have the same reduced density matrix.
pub proof fn law_sector_projectors_reduce_as_their_state<
    R: RealNumber,
    P,
    S: ComplexOver<R> + PhaseScalar<P> + ExactScalar,
>(
    amplitudes: Seq<S>,
    split: Seq<SplitBinarySectorState<P>>,
    norm: R,
    row: int,
    column: int,
)
    requires
        amplitudes.len() == split.len(),
        0 <= row < split.len(),
        0 <= column < split.len(),
    ensures
        density_product::<R, P, S>(
            partial_traces::outer_product(amplitudes),
            split,
            norm,
        )(row, column) == state_product::<R, P, S>(amplitudes, split, norm)(row, column),
{
    let n = split.len() as int;
    partial_traces::lemma_pair(row, column, n, n);
    let f = S::spec_from_phase(split[row].exchange_phase);
    let g = S::spec_from_phase(split[column].exchange_phase);
    let (a, b) = (amplitudes[row], amplitudes[column].spec_conjugate());
    S::conjugation_is_linear(g, amplitudes[column]);
    // (f * (a * b)) * g' == (f * a) * (g' * b)
    S::times_associates(f, a, b);
    S::times_associates(f.spec_times(a), b, g.spec_conjugate());
    S::times_commutes(b, g.spec_conjugate());
}

} // verus!

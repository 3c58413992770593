//! Reduced density matrices of pure and mixed states.

use vstd::arithmetic::power2::pow2;
use vstd::prelude::*;

use crate::ensemble;
use crate::ensemble::{check_trace, fills_square, find_trace, ComplexOver};
use crate::error::{QmbedError, Reason, Result};
use crate::exact::ExactScalar;
use crate::exchange;
use crate::exchange::{
    binary_sector_subsystem_layout, split_binary_sector_states, BinarySectorSubsystemLayout,
    BinaryState, NoncommutingGroup, SplitBinarySectorState,
};
use crate::linear;
use crate::linear::Scalar;
use crate::matrix_subspace;
use crate::matrix_subspace::{refuse_value, PhaseScalar};
use crate::numbers::RealNumber;
use crate::subsystem;
use crate::subsystem::{subsystem_index_map, SubsystemIndexMap};
use crate::symmetry::PhaseFactor;

verus! {

/// Sum of the squared magnitudes of the first entries.
pub open spec fn squared_norm<R: RealNumber, S: ComplexOver<R>>(vector: Seq<S>, count: nat) -> R
    decreases count,
{
    if count == 0 {
        R::spec_zero()
    } else {
        squared_norm::<R, S>(vector, (count - 1) as nat).spec_plus(
            vector[count - 1].spec_weight(),
        )
    }
}

pub fn find_squared_norm<R: RealNumber, S: ComplexOver<R>>(vector: &Vec<S>) -> (norm: R)
    ensures
        norm == squared_norm::<R, S>(vector@, vector@.len()),
{
    let mut norm: R = R::zero();
    let mut next: usize = 0;
    while next < vector.len()
        invariant
            next <= vector@.len(),
            norm == squared_norm::<R, S>(vector@, next as nat),
        decreases vector@.len() - next,
    {
        norm = norm.plus(vector[next].weight());
        next += 1;
    }
    norm
}

/// Refusal of a state without a norm.
pub open spec fn no_norm() -> QmbedError {
    QmbedError::InvalidOptions(Reason::Text("state must have positive finite norm"))
}

/// Sum of the first contributions of the environment to an element of a reduced density
/// matrix.
pub open spec fn traced_element<R: RealNumber, S: ComplexOver<R>>(
    state: Seq<S>,
    outer: nat,
    left: int,
    right: int,
    norm: R,
    count: nat,
) -> S
    decreases count,
{
    if count == 0 {
        S::spec_zero()
    } else {
        traced_element(state, outer, left, right, norm, (count - 1) as nat).spec_plus(
            state[left * outer + (count - 1)].spec_times(
                state[right * outer + (count - 1)].spec_conjugate(),
            ).spec_divided(norm),
        )
    }
}

/// Reduced density matrix of the first factor of a pure state.
pub open spec fn traced<R: RealNumber, S: ComplexOver<R>>(
    state: Seq<S>,
    inner: nat,
    outer: nat,
    norm: R,
) -> Seq<S> {
    Seq::new(
        inner * inner,
        |i: int|
            traced_element(state, outer, i / (inner as int), i % (inner as int), norm, outer),
    )
}

proof fn lemma_digits(place: int, size: int)
    requires
        0 <= place < size * size,
        size >= 0,
    ensures
        size > 0,
        0 <= place / size < size,
        0 <= place % size < size,
{
    assert(size > 0) by (nonlinear_arith)
        requires
            0 <= place < size * size,
            size >= 0,
    ;
    vstd::arithmetic::div_mod::lemma_multiply_divide_lt(place, size, size);
    vstd::arithmetic::div_mod::lemma_div_pos_is_pos(place, size);
    vstd::arithmetic::div_mod::lemma_mod_bound(place, size);
}

proof fn lemma_pair(left: int, right: int, inner: int, outer: int)
    requires
        0 <= left < inner,
        0 <= right < outer,
    ensures
        0 <= left * outer <= left * outer + right < inner * outer,
{
    assert(0 <= left * outer) by (nonlinear_arith)
        requires
            0 <= left,
            0 <= outer,
    ;
    assert(left * outer + right < inner * outer) by (nonlinear_arith)
        requires
            0 <= left < inner,
            0 <= right < outer,
    ;
}

fn trace_out<R: RealNumber, S: ComplexOver<R>>(
    state: &Vec<S>,
    inner: usize,
    outer: usize,
    norm: R,
) -> (density: Vec<S>)
    requires
        state@.len() == inner * outer,
        inner * inner <= usize::MAX,
    ensures
        density@ == traced(state@, inner as nat, outer as nat, norm),
{
    let ghost stated = traced(state@, inner as nat, outer as nat, norm);
    let given: usize = state.len();
    let size: usize = inner * inner;
    let mut density: Vec<S> = Vec::new();
    let mut place: usize = 0;
    while place < size
        invariant
            place <= size,
            size == inner * inner,
            given == state@.len(),
            given == inner * outer,
            stated == traced(state@, inner as nat, outer as nat, norm),
            density@ == stated.take(place as int),
        decreases size - place,
    {
        proof {
            lemma_digits(place as int, inner as int);
        }
        let left: usize = place / inner;
        let right: usize = place % inner;
        let mut sum: S = S::zero();
        let mut next: usize = 0;
        while next < outer
            invariant
                next <= outer,
                left < inner,
                right < inner,
                given == state@.len(),
                given == inner * outer,
                sum == traced_element(
                    state@,
                    outer as nat,
                    left as int,
                    right as int,
                    norm,
                    next as nat,
                ),
            decreases outer - next,
        {
            proof {
                lemma_pair(left as int, next as int, inner as int, outer as int);
                lemma_pair(right as int, next as int, inner as int, outer as int);
            }
            sum = sum.plus(
                &state[left * outer + next].times(
                    &state[right * outer + next].conjugate(),
                ).divided(norm),
            );
            next += 1;
        }
        density.push(sum);
        place += 1;
        assert(density@ =~= stated.take(place as int));
    }
    assert(density@ =~= stated);
    density
}

/// Reduced density matrix of the first factor, or what keeps it from existing.
pub open spec fn reduced_state<R: RealNumber, S: ComplexOver<R>>(
    state: Seq<S>,
    inner: usize,
    outer: usize,
) -> core::result::Result<Seq<S>, QmbedError> {
    let norm = squared_norm::<R, S>(state, state.len());
    if inner > 0 && outer > 0 && inner * outer > usize::MAX {
        Err(QmbedError::DimensionMismatch(Reason::Text("tensor-product dimension overflow")))
    } else if inner == 0 || outer == 0 || state.len() != inner * outer {
        Err(
            QmbedError::DimensionMismatch(
                Reason::Text("state length must equal subsystem_dimension * environment_dimension"),
            ),
        )
    } else if !ensemble::sound(norm) {
        Err(no_norm())
    } else {
        Ok(traced(state, inner as nat, outer as nat, norm))
    }
}

/// Sum of the weights of the first amplitudes of a state, each divided by the norm.
pub open spec fn total_weight<R: RealNumber, S: ComplexOver<R>>(
    state: Seq<S>,
    norm: R,
    count: nat,
) -> S
    decreases count,
{
    if count == 0 {
        S::spec_zero()
    } else {
        total_weight(state, norm, (count - 1) as nat).spec_plus(
            state[count - 1].spec_times(state[count - 1].spec_conjugate()).spec_divided(norm),
        )
    }
}

/// The weights of one row of amplitudes make up one diagonal element.
proof fn lemma_row_weight<R: RealNumber, S: ComplexOver<R> + ExactScalar>(
    state: Seq<S>,
    outer: nat,
    row: nat,
    norm: R,
    count: nat,
)
    ensures
        total_weight(state, norm, row * outer + count) == total_weight(
            state,
            norm,
            row * outer,
        ).spec_plus(traced_element(state, outer, row as int, row as int, norm, count)),
    decreases count,
{
    let before = total_weight(state, norm, row * outer);
    if count == 0 {
        S::zero_is_neutral(before);
    } else {
        lemma_row_weight(state, outer, row, norm, (count - 1) as nat);
        let place = row * outer + (count - 1);
        assert((row * outer + count) - 1 == place);
        S::plus_associates(
            before,
            traced_element(state, outer, row as int, row as int, norm, (count - 1) as nat),
            state[place].spec_times(state[place].spec_conjugate()).spec_divided(norm),
        );
    }
}

proof fn lemma_trace_weight<R: RealNumber, S: ComplexOver<R> + ExactScalar>(
    state: Seq<S>,
    inner: nat,
    outer: nat,
    norm: R,
    count: nat,
)
    requires
        count <= inner,
    ensures
        ensemble::trace(traced(state, inner, outer, norm), inner, count) == total_weight(
            state,
            norm,
            count * outer,
        ),
    decreases count,
{
    if count == 0 {
        assert(count * outer == 0) by (nonlinear_arith)
            requires
                count == 0,
        ;
    } else {
        let row = (count - 1) as nat;
        lemma_trace_weight(state, inner, outer, norm, row);
        lemma_row_weight(state, outer, row, norm, outer);
        assert(row * outer + outer == count * outer) by (nonlinear_arith)
            requires
                count == row + 1,
        ;
        assert(0 <= row * inner + row < inner * inner) by (nonlinear_arith)
            requires
                0 <= row < inner,
        ;
        vstd::arithmetic::div_mod::lemma_fundamental_div_mod_converse(
            (row * inner + row) as int,
            inner as int,
            row as int,
            row as int,
        );
    }
}

/// Tracing out an environment keeps the weight: the diagonal of the reduced density matrix adds
/// up to the weights of all amplitudes.
pub proof fn law_tracing_keeps_the_weight<R: RealNumber, S: ComplexOver<R> + ExactScalar>(
    state: Seq<S>,
    inner: nat,
    outer: nat,
    norm: R,
)
    requires
        state.len() == inner * outer,
    ensures
        ensemble::trace(traced(state, inner, outer, norm), inner, inner) == total_weight(
            state,
            norm,
            state.len(),
        ),
{
    lemma_trace_weight(state, inner, outer, norm, inner);
}

/// Reduced density matrix of the first factor of a pure state of two factors.
pub fn partial_trace<R: RealNumber, S: ComplexOver<R>>(
    state: &Vec<S>,
    subsystem_dimension: usize,
    environment_dimension: usize,
) -> (result: Result<Vec<S>>)
    requires
        reduced_state::<R, S>(state@, subsystem_dimension, environment_dimension) is Ok
            ==> subsystem_dimension * subsystem_dimension <= usize::MAX,
    ensures
        linear::vector_is(
            result,
            reduced_state::<R, S>(state@, subsystem_dimension, environment_dimension),
        ),
{
    if subsystem_dimension == 0 || environment_dimension == 0 {
        return Err(
            QmbedError::DimensionMismatch(
                Reason::Text("state length must equal subsystem_dimension * environment_dimension"),
            ),
        );
    }
    let size: usize = match subsystem_dimension.checked_mul(environment_dimension) {
        Some(size) => size,
        None => {
            return Err(QmbedError::DimensionMismatch(Reason::Text("tensor-product dimension overflow")));
        },
    };
    if state.len() != size {
        return Err(
            QmbedError::DimensionMismatch(
                Reason::Text("state length must equal subsystem_dimension * environment_dimension"),
            ),
        );
    }
    let norm: R = find_squared_norm::<R, S>(state);
    if !norm.is_finite() || norm.is_negligible() {
        return Err(QmbedError::InvalidOptions(Reason::Text("state must have positive finite norm")));
    }
    Ok(trace_out(state, subsystem_dimension, environment_dimension, norm))
}

/// Whether an element of a matrix in row order is the conjugate of its mirror image.
pub open spec fn mirrored<R: RealNumber, S: ComplexOver<R>>(
    matrix: Seq<S>,
    dimension: nat,
    place: int,
) -> bool {
    let row = place / (dimension as int);
    let column = place % (dimension as int);
    matrix[place].spec_mirrors(matrix[column * dimension + row])
}

/// Whether a matrix in row order is Hermitian but for rounding.
pub open spec fn self_adjoint<R: RealNumber, S: ComplexOver<R>>(
    matrix: Seq<S>,
    dimension: nat,
) -> bool {
    forall|place: int|
        0 <= place < matrix.len() ==> #[trigger] mirrored::<R, S>(matrix, dimension, place)
}

/// What is wrong with a density matrix, if anything.
pub open spec fn density_error<R: RealNumber, S: ComplexOver<R>>(
    matrix: Seq<S>,
    dimension: nat,
) -> Option<QmbedError> {
    if !ensemble::trace_sound::<R, S>(ensemble::trace(matrix, dimension, dimension)) {
        Some(QmbedError::InvalidOptions(Reason::Text("density matrix must have a positive real trace")))
    } else if !self_adjoint::<R, S>(matrix, dimension) {
        Some(QmbedError::InvalidOptions(Reason::Text("density matrix must be Hermitian")))
    } else {
        None
    }
}

/// The trace of a density matrix, or what is wrong with the matrix.
fn check_density<R: RealNumber, S: ComplexOver<R>>(matrix: &Vec<S>, dimension: usize) -> (result: Result<
    R,
>)
    requires
        matrix@.len() == dimension * dimension,
    ensures
        match result {
            Ok(whole) => {
                &&& density_error::<R, S>(matrix@, dimension as nat) is None
                &&& whole == ensemble::trace(
                    matrix@,
                    dimension as nat,
                    dimension as nat,
                ).spec_real()
            },
            Err(error) => density_error::<R, S>(matrix@, dimension as nat) == Some(error),
        },
{
    let whole: S = find_trace(matrix, dimension);
    if !check_trace::<R, S>(whole) {
        return Err(QmbedError::InvalidOptions(Reason::Text("density matrix must have a positive real trace")));
    }
    let mut place: usize = 0;
    while place < matrix.len()
        invariant
            place <= matrix@.len(),
            matrix@.len() == dimension * dimension,
            whole == ensemble::trace(matrix@, dimension as nat, dimension as nat),
            ensemble::trace_sound::<R, S>(whole),
            forall|p: int|
                0 <= p < place ==> #[trigger] mirrored::<R, S>(matrix@, dimension as nat, p),
        decreases matrix@.len() - place,
    {
        proof {
            lemma_digits(place as int, dimension as int);
            let row = place as int / dimension as int;
            let column = place as int % dimension as int;
            lemma_pair(column, row, dimension as int, dimension as int);
        }
        let row: usize = place / dimension;
        let column: usize = place % dimension;
        let given: usize = matrix.len();
        assert(column * dimension + row < given);
        if !matrix[place].mirrors(&matrix[column * dimension + row]) {
            assert(!mirrored::<R, S>(matrix@, dimension as nat, place as int));
            return Err(QmbedError::InvalidOptions(Reason::Text("density matrix must be Hermitian")));
        }
        place += 1;
    }
    Ok(whole.real_number())
}

/// Sum of the first contributions of the environment to an element of the reduced density
/// matrix of a mixed state.
pub open spec fn mixed_element<R: RealNumber, S: ComplexOver<R>>(
    density: Seq<S>,
    inner: nat,
    outer: nat,
    left: int,
    right: int,
    whole: R,
    count: nat,
) -> S
    decreases count,
{
    if count == 0 {
        S::spec_zero()
    } else {
        let row = left * outer + (count - 1);
        let column = right * outer + (count - 1);
        mixed_element(density, inner, outer, left, right, whole, (count - 1) as nat).spec_plus(
            density[row * (inner * outer) + column].spec_divided(whole),
        )
    }
}

/// Reduced density matrix of the first factor of a mixed state.
pub open spec fn mixed_traced<R: RealNumber, S: ComplexOver<R>>(
    density: Seq<S>,
    inner: nat,
    outer: nat,
    whole: R,
) -> Seq<S> {
    Seq::new(
        inner * inner,
        |i: int|
            mixed_element(
                density,
                inner,
                outer,
                i / (inner as int),
                i % (inner as int),
                whole,
                outer,
            ),
    )
}

/// Reduced density matrix of a mixed state of two factors, or what keeps it from existing.
pub open spec fn reduced_mixture<R: RealNumber, S: ComplexOver<R>>(
    density: Seq<S>,
    inner: usize,
    outer: usize,
) -> core::result::Result<Seq<S>, QmbedError> {
    let dimension = inner as nat * outer as nat;
    if dimension > usize::MAX {
        Err(QmbedError::DimensionMismatch(Reason::Text("tensor-product dimension overflow")))
    } else if inner == 0 || outer == 0 || density.len() != dimension * dimension {
        Err(
            QmbedError::DimensionMismatch(Reason::Text("density shape must match the bipartite Hilbert space")),
        )
    } else {
        match density_error::<R, S>(density, dimension) {
            Some(error) => Err(error),
            None => Ok(
                mixed_traced(
                    density,
                    inner as nat,
                    outer as nat,
                    ensemble::trace(density, dimension, dimension).spec_real(),
                ),
            ),
        }
    }
}

/// The square of one of two factors is no larger than that of their product.
proof fn lemma_part_square(inner: nat, outer: nat, length: usize)
    requires
        outer > 0,
        length == (inner * outer) * (inner * outer),
    ensures
        inner * inner <= usize::MAX,
{
    assert(inner <= inner * outer) by (nonlinear_arith)
        requires
            outer > 0,
    ;
    let whole = inner * outer;
    assert(inner * inner <= whole * whole) by (nonlinear_arith)
        requires
            inner <= whole,
    ;
}

/// Reduced density matrix of the first factor of a mixed state of two factors.
pub fn partial_trace_density<R: RealNumber, S: ComplexOver<R>>(
    density: &Vec<S>,
    subsystem_dimension: usize,
    environment_dimension: usize,
) -> (result: Result<Vec<S>>)
    ensures
        linear::vector_is(
            result,
            reduced_mixture::<R, S>(density@, subsystem_dimension, environment_dimension),
        ),
{
    let inner: usize = subsystem_dimension;
    let outer: usize = environment_dimension;
    let dimension: usize = match inner.checked_mul(outer) {
        Some(dimension) => dimension,
        None => {
            return Err(QmbedError::DimensionMismatch(Reason::Text("tensor-product dimension overflow")));
        },
    };
    if inner == 0 || outer == 0 || !fills_square(density, dimension) {
        return Err(
            QmbedError::DimensionMismatch(Reason::Text("density shape must match the bipartite Hilbert space")),
        );
    }
    let whole: R = match check_density::<R, S>(density, dimension) {
        Ok(whole) => whole,
        Err(error) => {
            return Err(error);
        },
    };
    let ghost stated = mixed_traced(density@, inner as nat, outer as nat, whole);
    let given: usize = density.len();
    proof {
        lemma_part_square(inner as nat, outer as nat, given);
    }
    let size: usize = inner * inner;
    let mut reduced: Vec<S> = Vec::new();
    let mut place: usize = 0;
    while place < size
        invariant
            place <= size,
            size == inner * inner,
            dimension == inner * outer,
            given == density@.len(),
            given == dimension * dimension,
            stated == mixed_traced(density@, inner as nat, outer as nat, whole),
            reduced@ == stated.take(place as int),
        decreases size - place,
    {
        proof {
            lemma_digits(place as int, inner as int);
        }
        let left: usize = place / inner;
        let right: usize = place % inner;
        let mut sum: S = S::zero();
        let mut next: usize = 0;
        while next < outer
            invariant
                next <= outer,
                left < inner,
                right < inner,
                dimension == inner * outer,
                given == density@.len(),
                given == dimension * dimension,
                sum == mixed_element(
                    density@,
                    inner as nat,
                    outer as nat,
                    left as int,
                    right as int,
                    whole,
                    next as nat,
                ),
            decreases outer - next,
        {
            proof {
                lemma_pair(left as int, next as int, inner as int, outer as int);
                lemma_pair(right as int, next as int, inner as int, outer as int);
                let row = left * outer + next;
                let column = right * outer + next;
                lemma_pair(row, column, dimension as int, dimension as int);
            }
            let row: usize = left * outer + next;
            let column: usize = right * outer + next;
            sum = sum.plus(&density[row * dimension + column].divided(whole));
            next += 1;
        }
        reduced.push(sum);
        place += 1;
        assert(reduced@ =~= stated.take(place as int));
    }
    assert(reduced@ =~= stated);
    Ok(reduced)
}

/// The first amplitudes of a state, sorted by subsystem and environment.
pub open spec fn sorted_amplitudes<S: Scalar>(
    state: Seq<S>,
    dimensions: Seq<usize>,
    retained: Seq<usize>,
    count: nat,
) -> Seq<S>
    decreases count,
{
    let environment = subsystem::environment_of(dimensions.len(), retained);
    if count == 0 {
        linear::zeros(state.len())
    } else {
        let inner = subsystem::gathered(dimensions, retained, (count - 1) as nat);
        let outer = subsystem::gathered(dimensions, environment, (count - 1) as nat);
        sorted_amplitudes(state, dimensions, retained, (count - 1) as nat).update(
            (inner * subsystem::product_over(dimensions, environment) + outer) as int,
            state[count - 1],
        )
    }
}

/// Reduced density matrix of the retained sites, or what keeps it from existing.
pub open spec fn reduced_sites<R: RealNumber, S: ComplexOver<R>>(
    state: Seq<S>,
    dimensions: Seq<usize>,
    retained: Seq<usize>,
) -> core::result::Result<Seq<S>, QmbedError> {
    let environment = subsystem::environment_of(dimensions.len(), retained);
    let norm = squared_norm::<R, S>(state, state.len());
    match subsystem::split_error(dimensions, retained) {
        Some(error) => Err(error),
        None => if state.len() != subsystem::stride(dimensions, dimensions.len()) {
            Err(
                QmbedError::DimensionMismatch(
                    Reason::Text("state length does not match the product of local dimensions"),
                ),
            )
        } else if !ensemble::sound(norm) {
            Err(no_norm())
        } else {
            Ok(
                traced(
                    sorted_amplitudes(state, dimensions, retained, state.len()),
                    subsystem::product_over(dimensions, retained),
                    subsystem::product_over(dimensions, environment),
                    norm,
                ),
            )
        },
    }
}

/// Reduced density matrix of any set of retained sites of a pure state; the local state of
/// the first site is the lowest digit.
pub fn partial_trace_subsystem<R: RealNumber, S: ComplexOver<R>>(
    state: &Vec<S>,
    local_dimensions: &[usize],
    retained_sites: &[usize],
) -> (result: Result<Vec<S>>)
    requires
        reduced_sites::<R, S>(state@, local_dimensions@, retained_sites@) is Ok
            ==> subsystem::product_over(local_dimensions@, retained_sites@)
            * subsystem::product_over(local_dimensions@, retained_sites@) <= usize::MAX,
    ensures
        linear::vector_is(
            result,
            reduced_sites::<R, S>(state@, local_dimensions@, retained_sites@),
        ),
{
    let sites: usize = local_dimensions.len();
    let ghost dimensions = local_dimensions@;
    let ghost retained = retained_sites@;
    let ghost environment = subsystem::environment_of(dimensions.len(), retained);
    let layout: SubsystemIndexMap = match subsystem_index_map(local_dimensions, retained_sites) {
        Ok(layout) => layout,
        Err(error) => {
            return Err(error);
        },
    };
    if state.len() != layout.full_dimension {
        return Err(
            QmbedError::DimensionMismatch(
                Reason::Text("state length does not match the product of local dimensions"),
            ),
        );
    }
    let norm: R = find_squared_norm::<R, S>(state);
    if !norm.is_finite() || norm.is_negligible() {
        return Err(QmbedError::InvalidOptions(Reason::Text("state must have positive finite norm")));
    }
    let inner: usize = layout.subsystem_dimension;
    let outer: usize = layout.environment_dimension;
    let full: usize = layout.full_dimension;
    let mut amplitudes: Vec<S> = linear::zero_vector(full);
    let mut global: usize = 0;
    while global < full
        invariant
            global <= full,
            sites == dimensions.len(),
            full == state@.len(),
            full == inner * outer,
            inner == subsystem::product_over(dimensions, retained),
            outer == subsystem::product_over(dimensions, environment),
            environment == subsystem::environment_of(dimensions.len(), retained),
            subsystem::split_error(dimensions, retained) is None,
            full == subsystem::stride(dimensions, dimensions.len()),
            layout.subsystem_indices@.len() == full,
            layout.environment_indices@.len() == full,
            forall|g: int|
                0 <= g < full ==> #[trigger] layout.subsystem_indices@[g] == subsystem::gathered(
                    dimensions,
                    retained,
                    g as nat,
                ),
            forall|g: int|
                0 <= g < full ==> #[trigger] layout.environment_indices@[g]
                    == subsystem::gathered(dimensions, environment, g as nat),
            amplitudes@.len() == full,
            amplitudes@ == sorted_amplitudes(state@, dimensions, retained, global as nat),
        decreases full - global,
    {
        let part: usize = layout.subsystem_indices[global];
        let rest: usize = layout.environment_indices[global];
        proof {
            subsystem::lemma_parts_bounded(dimensions, retained, global as nat);
            lemma_pair(part as int, rest as int, inner as int, outer as int);
        }
        amplitudes.set(part * outer + rest, state[global]);
        global += 1;
    }
    Ok(trace_out(&amplitudes, inner, outer, norm))
}

proof fn lemma_sorted_length<S: Scalar>(
    state: Seq<S>,
    dimensions: Seq<usize>,
    retained: Seq<usize>,
    count: nat,
)
    requires
        subsystem::split_error(dimensions, retained) is None,
        dimensions.len() <= usize::MAX,
        state.len() == subsystem::stride(dimensions, dimensions.len()),
        count <= state.len(),
    ensures
        sorted_amplitudes(state, dimensions, retained, count).len() == state.len(),
    decreases count,
{
    if count > 0 {
        let last = (count - 1) as nat;
        let environment = subsystem::environment_of(dimensions.len(), retained);
        lemma_sorted_length(state, dimensions, retained, last);
        subsystem::lemma_retained(dimensions.len(), retained, retained.len());
        assert(retained.take(retained.len() as int) =~= retained);
        subsystem::law_parts_make_the_whole(dimensions, dimensions.len(), retained);
        subsystem::lemma_parts_bounded(dimensions, retained, last);
        lemma_pair(
            subsystem::gathered(dimensions, retained, last) as int,
            subsystem::gathered(dimensions, environment, last) as int,
            subsystem::product_over(dimensions, retained) as int,
            subsystem::product_over(dimensions, environment) as int,
        );
    }
}

proof fn lemma_amplitude_stays<S: Scalar>(
    state: Seq<S>,
    dimensions: Seq<usize>,
    retained: Seq<usize>,
    global: nat,
    count: nat,
)
    requires
        subsystem::split_error(dimensions, retained) is None,
        dimensions.len() <= usize::MAX,
        state.len() == subsystem::stride(dimensions, dimensions.len()),
        global < count <= state.len(),
    ensures
        ({
            let environment = subsystem::environment_of(dimensions.len(), retained);
            let place = subsystem::gathered(dimensions, retained, global)
                * subsystem::product_over(dimensions, environment) + subsystem::gathered(
                dimensions,
                environment,
                global,
            );
            sorted_amplitudes(state, dimensions, retained, count)[place as int]
                == state[global as int]
        }),
    decreases count,
{
    let environment = subsystem::environment_of(dimensions.len(), retained);
    let inner = subsystem::product_over(dimensions, retained) as int;
    let outer = subsystem::product_over(dimensions, environment) as int;
    let last = (count - 1) as nat;
    let a = subsystem::gathered(dimensions, retained, global) as int;
    let b = subsystem::gathered(dimensions, environment, global) as int;
    let c = subsystem::gathered(dimensions, retained, last) as int;
    let d = subsystem::gathered(dimensions, environment, last) as int;
    subsystem::lemma_retained(dimensions.len(), retained, retained.len());
    assert(retained.take(retained.len() as int) =~= retained);
    subsystem::law_parts_make_the_whole(dimensions, dimensions.len(), retained);
    subsystem::lemma_parts_bounded(dimensions, retained, global);
    subsystem::lemma_parts_bounded(dimensions, retained, last);
    lemma_sorted_length(state, dimensions, retained, last);
    lemma_pair(a, b, inner, outer);
    lemma_pair(c, d, inner, outer);
    if global < last {
        lemma_amplitude_stays(state, dimensions, retained, global, last);
        if a * outer + b == c * outer + d {
            vstd::arithmetic::div_mod::lemma_fundamental_div_mod_converse(
                a * outer + b,
                outer,
                a,
                b,
            );
            vstd::arithmetic::div_mod::lemma_fundamental_div_mod_converse(
                c * outer + d,
                outer,
                c,
                d,
            );
            subsystem::law_split_is_one_to_one(dimensions, retained, global, last);
        }
    }
}

/// Sorting the amplitudes of a state by subsystem and environment loses none of them: each
/// stands at the place of its two parts.
pub proof fn law_amplitudes_are_kept<S: Scalar>(
    state: Seq<S>,
    dimensions: Seq<usize>,
    retained: Seq<usize>,
    global: nat,
)
    requires
        subsystem::split_error(dimensions, retained) is None,
        dimensions.len() <= usize::MAX,
        state.len() == subsystem::stride(dimensions, dimensions.len()),
        global < state.len(),
    ensures
        ({
            let environment = subsystem::environment_of(dimensions.len(), retained);
            let place = subsystem::gathered(dimensions, retained, global)
                * subsystem::product_over(dimensions, environment) + subsystem::gathered(
                dimensions,
                environment,
                global,
            );
            sorted_amplitudes(state, dimensions, retained, state.len())[place as int]
                == state[global as int]
        }),
{
    lemma_amplitude_stays(state, dimensions, retained, global, state.len());
}

/// Sums of the first elements of a density matrix whose row and column share the
/// environment.
pub open spec fn mixed_sites<R: RealNumber, S: ComplexOver<R>>(
    density: Seq<S>,
    dimensions: Seq<usize>,
    retained: Seq<usize>,
    whole: R,
    count: nat,
) -> Seq<S>
    decreases count,
{
    let environment = subsystem::environment_of(dimensions.len(), retained);
    let inner = subsystem::product_over(dimensions, retained);
    let full = subsystem::stride(dimensions, dimensions.len());
    if count == 0 {
        linear::zeros(inner * inner)
    } else {
        let before = mixed_sites(density, dimensions, retained, whole, (count - 1) as nat);
        let row = ((count - 1) / full as int) as nat;
        let column = ((count - 1) % full as int) as nat;
        if subsystem::gathered(dimensions, environment, row) == subsystem::gathered(
            dimensions,
            environment,
            column,
        ) {
            let place = subsystem::gathered(dimensions, retained, row) * inner
                + subsystem::gathered(dimensions, retained, column);
            before.update(
                place as int,
                before[place as int].spec_plus(density[count - 1].spec_divided(whole)),
            )
        } else {
            before
        }
    }
}

/// Reduced density matrix of the retained sites of a mixed state, or what keeps it from
/// existing.
pub open spec fn reduced_mixed_sites<R: RealNumber, S: ComplexOver<R>>(
    density: Seq<S>,
    dimensions: Seq<usize>,
    retained: Seq<usize>,
) -> core::result::Result<Seq<S>, QmbedError> {
    let full = subsystem::stride(dimensions, dimensions.len());
    match subsystem::split_error(dimensions, retained) {
        Some(error) => Err(error),
        None => if density.len() != full * full {
            Err(
                QmbedError::DimensionMismatch(
                    Reason::Text("density shape does not match the product of local dimensions"),
                ),
            )
        } else {
            match density_error::<R, S>(density, full) {
                Some(error) => Err(error),
                None => Ok(
                    mixed_sites(
                        density,
                        dimensions,
                        retained,
                        ensemble::trace(density, full, full).spec_real(),
                        density.len(),
                    ),
                ),
            }
        },
    }
}

/// Reduced density matrix of any set of retained sites of a mixed state.
pub fn partial_trace_density_subsystem<R: RealNumber, S: ComplexOver<R>>(
    density: &Vec<S>,
    local_dimensions: &[usize],
    retained_sites: &[usize],
) -> (result: Result<Vec<S>>)
    ensures
        linear::vector_is(
            result,
            reduced_mixed_sites::<R, S>(density@, local_dimensions@, retained_sites@),
        ),
{
    let sites: usize = local_dimensions.len();
    let ghost dimensions = local_dimensions@;
    let ghost retained = retained_sites@;
    let ghost environment = subsystem::environment_of(dimensions.len(), retained);
    let layout: SubsystemIndexMap = match subsystem_index_map(local_dimensions, retained_sites) {
        Ok(layout) => layout,
        Err(error) => {
            return Err(error);
        },
    };
    let full: usize = layout.full_dimension;
    if !fills_square(density, full) {
        return Err(
            QmbedError::DimensionMismatch(
                Reason::Text("density shape does not match the product of local dimensions"),
            ),
        );
    }
    let whole: R = match check_density::<R, S>(density, full) {
        Ok(whole) => whole,
        Err(error) => {
            return Err(error);
        },
    };
    let inner: usize = layout.subsystem_dimension;
    let given: usize = density.len();
    proof {
        let outer = layout.environment_dimension as nat;
        subsystem::lemma_stride_positive(dimensions, dimensions.len());
        assert(outer > 0) by (nonlinear_arith)
            requires
                inner * outer > 0,
                outer >= 0,
        ;
        lemma_part_square(inner as nat, outer, given);
    }
    let mut reduced: Vec<S> = linear::zero_vector(inner * inner);
    assert(linear::zeros::<S>((inner * inner) as nat) =~= linear::zeros::<S>(
        inner as nat * inner as nat,
    ));
    let mut place: usize = 0;
    while place < density.len()
        invariant
            place <= density@.len(),
            sites == dimensions.len(),
            density@.len() == full * full,
            inner == subsystem::product_over(dimensions, retained),
            inner * inner <= usize::MAX,
            environment == subsystem::environment_of(dimensions.len(), retained),
            subsystem::split_error(dimensions, retained) is None,
            full == subsystem::stride(dimensions, dimensions.len()),
            layout.subsystem_indices@.len() == full,
            layout.environment_indices@.len() == full,
            forall|g: int|
                0 <= g < full ==> #[trigger] layout.subsystem_indices@[g] == subsystem::gathered(
                    dimensions,
                    retained,
                    g as nat,
                ),
            forall|g: int|
                0 <= g < full ==> #[trigger] layout.environment_indices@[g]
                    == subsystem::gathered(dimensions, environment, g as nat),
            reduced@.len() == inner * inner,
            reduced@ == mixed_sites(density@, dimensions, retained, whole, place as nat),
        decreases density@.len() - place,
    {
        proof {
            lemma_digits(place as int, full as int);
        }
        let row: usize = place / full;
        let column: usize = place % full;
        if layout.environment_indices[row] == layout.environment_indices[column] {
            let left: usize = layout.subsystem_indices[row];
            let right: usize = layout.subsystem_indices[column];
            proof {
                subsystem::lemma_parts_bounded(dimensions, retained, row as nat);
                subsystem::lemma_parts_bounded(dimensions, retained, column as nat);
                lemma_pair(left as int, right as int, inner as int, inner as int);
            }
            let sum: S = reduced[left * inner + right].plus(&density[place].divided(whole));
            reduced.set(left * inner + right, sum);
        }
        place += 1;
    }
    Ok(reduced)
}

/// Sums of the first products of amplitudes that share the environment, by subsystem parts.
pub open spec fn pair_sums<S: Scalar>(
    parts: Seq<usize>,
    environments: Seq<Seq<u64>>,
    products: spec_fn(int, int) -> S,
    dimension: nat,
    count: nat,
) -> Seq<S>
    decreases count,
{
    let size = parts.len();
    if count == 0 {
        linear::zeros(dimension * dimension)
    } else {
        let before = pair_sums(parts, environments, products, dimension, (count - 1) as nat);
        let row = (count - 1) / size as int;
        let column = (count - 1) % size as int;
        if environments[row] == environments[column] {
            let place = parts[row] * dimension + parts[column];
            before.update(place, before[place].spec_plus(products(row, column)))
        } else {
            before
        }
    }
}

/// Subsystem parts of split states.
pub open spec fn inner_parts<P>(split: Seq<SplitBinarySectorState<P>>) -> Seq<usize> {
    Seq::new(split.len(), |i: int| split[i].subsystem)
}

/// Environment parts of split states.
pub open spec fn outer_parts<P>(split: Seq<SplitBinarySectorState<P>>) -> Seq<Seq<u64>> {
    Seq::new(split.len(), |i: int| split[i].environment@)
}

/// Share of a pair of amplitudes in a reduced density matrix.
pub open spec fn state_product<R: RealNumber, P, S: ComplexOver<R> + PhaseScalar<P>>(
    amplitudes: Seq<S>,
    split: Seq<SplitBinarySectorState<P>>,
    norm: R,
) -> spec_fn(int, int) -> S {
    |row: int, column: int|
        S::spec_from_phase(split[row].exchange_phase).spec_times(amplitudes[row]).spec_times(
            S::spec_from_phase(split[column].exchange_phase).spec_times(
                amplitudes[column],
            ).spec_conjugate(),
        ).spec_divided(norm)
}

/// Share of an element of a density matrix in the reduced one.
pub open spec fn density_product<R: RealNumber, P, S: ComplexOver<R> + PhaseScalar<P>>(
    density: Seq<S>,
    split: Seq<SplitBinarySectorState<P>>,
    whole: R,
) -> spec_fn(int, int) -> S {
    |row: int, column: int|
        S::spec_from_phase(split[row].exchange_phase).spec_times(
            density[row * split.len() + column],
        ).spec_times(S::spec_from_phase(split[column].exchange_phase).spec_conjugate()).spec_divided(
            whole,
        )
}

/// Whether split states are those of a list of states.
pub open spec fn splits<B: BinaryState, P: PhaseFactor>(
    states: Seq<B>,
    layout: BinarySectorSubsystemLayout,
    groups: Seq<NoncommutingGroup<P>>,
    split: Seq<SplitBinarySectorState<P>>,
) -> bool {
    &&& split.len() == states.len()
    &&& forall|i: int|
        0 <= i < split.len() ==> exchange::splits_into(
            states[i],
            layout,
            groups,
            #[trigger] split[i],
        )
}

/// Whether two lists of words are the same.
fn same_words(left: &Vec<u64>, right: &Vec<u64>) -> (answer: bool)
    ensures
        answer == (left@ == right@),
{
    if left.len() != right.len() {
        return false;
    }
    let mut next: usize = 0;
    while next < left.len()
        invariant
            next <= left@.len(),
            left@.len() == right@.len(),
            forall|i: int| 0 <= i < next ==> left@[i] == right@[i],
        decreases left@.len() - next,
    {
        if left[next] != right[next] {
            return false;
        }
        next += 1;
    }
    assert(left@ =~= right@);
    true
}

/// Whether a layout is that of the given sites.
pub open spec fn lays_out<P: PhaseFactor>(
    layout: BinarySectorSubsystemLayout,
    total_sites: usize,
    retained: Seq<usize>,
    groups: Seq<NoncommutingGroup<P>>,
) -> bool {
    &&& layout.wf(groups)
    &&& layout.spec_sites() == total_sites
    &&& layout.spec_retained() == retained
    &&& layout.spec_dimension() == pow2(retained.len())
    &&& exchange::regroups(
        total_sites as nat,
        retained,
        groups,
        layout.spec_table(),
        layout.spec_positions(),
    )
}

/// Whether a sector is refused for its layout or for its states.
pub open spec fn sector_refused<B: BinaryState, P: PhaseFactor>(
    states: Seq<B>,
    total_sites: usize,
    retained: Seq<usize>,
    groups: Seq<NoncommutingGroup<P>>,
    error: QmbedError,
) -> bool {
    match exchange::layout_error(total_sites, retained, exchange::group_sites(groups)) {
        Some(stated) => error == stated,
        None => exists|layout: BinarySectorSubsystemLayout| #[trigger]
            lays_out(layout, total_sites, retained, groups) && exchange::states_error(
                states,
                layout,
                states.len(),
            ) == Some(error),
    }
}

/// Whether the scalars hold the exchange phases of all split states.
pub open spec fn split_held<P, S: PhaseScalar<P>>(split: Seq<SplitBinarySectorState<P>>) -> bool {
    forall|i: int| 0 <= i < split.len() ==> S::spec_holds_phase((#[trigger] split[i]).exchange_phase)
}

/// Whether a sector is refused, or the scalars do not hold one of its exchange phases.
pub open spec fn sector_fails<B: BinaryState, P: PhaseFactor, S: PhaseScalar<P>>(
    states: Seq<B>,
    total_sites: usize,
    retained: Seq<usize>,
    groups: Seq<NoncommutingGroup<P>>,
    error: QmbedError,
) -> bool {
    ||| sector_refused(states, total_sites, retained, groups, error)
    ||| {
        &&& error == matrix_subspace::no_value()
        &&& exists|layout: BinarySectorSubsystemLayout, split: Seq<SplitBinarySectorState<P>>|
            #![trigger splits(states, layout, groups, split)]
            lays_out(layout, total_sites, retained, groups) && splits(states, layout, groups, split)
                && !split_held::<P, S>(split)
    }
}

fn holds_split<P, S: PhaseScalar<P>>(split: &Vec<SplitBinarySectorState<P>>) -> (answer: bool)
    ensures
        answer == split_held::<P, S>(split@),
{
    let mut next: usize = 0;
    while next < split.len()
        invariant
            next <= split@.len(),
            forall|i: int|
                0 <= i < next ==> S::spec_holds_phase((#[trigger] split@[i]).exchange_phase),
        decreases split@.len() - next,
    {
        if !S::holds_phase(&split[next].exchange_phase) {
            return false;
        }
        next += 1;
    }
    true
}

/// Splits the states of a sector.
fn split_sector<B: BinaryState, P: PhaseFactor>(
    states: &[B],
    total_sites: usize,
    retained_sites: &[usize],
    groups: &Vec<NoncommutingGroup<P>>,
) -> (result: Result<(BinarySectorSubsystemLayout, Vec<SplitBinarySectorState<P>>)>)
    requires
        B::readable(),
    ensures
        match result {
            Ok((layout, split)) => {
                &&& exchange::layout_error(
                    total_sites,
                    retained_sites@,
                    exchange::group_sites(groups@),
                ) is None
                &&& lays_out(layout, total_sites, retained_sites@, groups@)
                &&& exchange::states_error(states@, layout, states@.len()) is None
                &&& splits(states@, layout, groups@, split@)
            },
            Err(error) => sector_refused(
                states@,
                total_sites,
                retained_sites@,
                groups@,
                error,
            ),
        },
{
    let layout: BinarySectorSubsystemLayout = match binary_sector_subsystem_layout(
        total_sites,
        retained_sites,
        groups,
    ) {
        Ok(layout) => layout,
        Err(error) => {
            return Err(error);
        },
    };
    match split_binary_sector_states(states, &layout, groups) {
        Ok(split) => Ok((layout, split)),
        Err(error) => {
            assert(lays_out(layout, total_sites, retained_sites@, groups@));
            Err(error)
        },
    }
}

/// Whether a matrix is the reduced density matrix of a pure state of a sector.
pub open spec fn is_sector_state<
    R: RealNumber,
    P: PhaseFactor,
    B: BinaryState,
    S: ComplexOver<R> + PhaseScalar<P>,
>(
    reduced: Seq<S>,
    amplitudes: Seq<S>,
    states: Seq<B>,
    groups: Seq<NoncommutingGroup<P>>,
    layout: BinarySectorSubsystemLayout,
    split: Seq<SplitBinarySectorState<P>>,
) -> bool {
    &&& splits(states, layout, groups, split)
    &&& split_held::<P, S>(split)
    &&& reduced == pair_sums(
        inner_parts(split),
        outer_parts(split),
        state_product::<R, P, S>(
            amplitudes,
            split,
            squared_norm::<R, S>(amplitudes, amplitudes.len()),
        ),
        layout.spec_dimension() as nat,
        split.len() * split.len(),
    )
}

/// Whether a matrix is the reduced density matrix of a mixed state of a sector.
pub open spec fn is_sector_density<
    R: RealNumber,
    P: PhaseFactor,
    B: BinaryState,
    S: ComplexOver<R> + PhaseScalar<P>,
>(
    reduced: Seq<S>,
    density: Seq<S>,
    states: Seq<B>,
    groups: Seq<NoncommutingGroup<P>>,
    layout: BinarySectorSubsystemLayout,
    split: Seq<SplitBinarySectorState<P>>,
) -> bool {
    &&& splits(states, layout, groups, split)
    &&& split_held::<P, S>(split)
    &&& reduced == pair_sums(
        inner_parts(split),
        outer_parts(split),
        density_product::<R, P, S>(
            density,
            split,
            ensemble::trace(density, states.len(), states.len()).spec_real(),
        ),
        layout.spec_dimension() as nat,
        split.len() * split.len(),
    )
}

/// Whether a matrix is the reduced density matrix of a pure state of a sector with the
/// given retained sites.
pub open spec fn reduced_sector_state<
    R: RealNumber,
    P: PhaseFactor,
    B: BinaryState,
    S: ComplexOver<R> + PhaseScalar<P>,
>(
    reduced: Seq<S>,
    amplitudes: Seq<S>,
    states: Seq<B>,
    total_sites: usize,
    retained: Seq<usize>,
    groups: Seq<NoncommutingGroup<P>>,
) -> bool {
    exists|layout: BinarySectorSubsystemLayout, split: Seq<SplitBinarySectorState<P>>|
        #![trigger is_sector_state::<R, P, B, S>(reduced, amplitudes, states, groups, layout, split)]
        lays_out(layout, total_sites, retained, groups) && is_sector_state::<R, P, B, S>(
            reduced,
            amplitudes,
            states,
            groups,
            layout,
            split,
        )
}

/// Reduced density matrix of a pure state stored in any binary sector basis.
///
/// Only pairs of states with the same environment are added up; the unrestricted space is
/// never enumerated.
pub fn partial_trace_sector_state<
    R: RealNumber,
    P: PhaseFactor,
    B: BinaryState,
    S: ComplexOver<R> + PhaseScalar<P>,
>(
    amplitudes: &Vec<S>,
    basis_states: &[B],
    total_sites: usize,
    retained_sites: &[usize],
    noncommuting_groups: &Vec<NoncommutingGroup<P>>,
) -> (result: Result<Vec<S>>)
    requires
        B::readable(),
    ensures
        match result {
            Ok(reduced) => {
                &&& amplitudes@.len() == basis_states@.len()
                &&& ensemble::sound(squared_norm::<R, S>(amplitudes@, amplitudes@.len()))
                &&& reduced_sector_state::<R, P, B, S>(
                    reduced@,
                    amplitudes@,
                    basis_states@,
                    total_sites,
                    retained_sites@,
                    noncommuting_groups@,
                )
            },
            Err(error) => if amplitudes@.len() != basis_states@.len() {
                error == QmbedError::DimensionMismatch(
                    Reason::Text("sector amplitudes and basis states must have the same length"),
                )
            } else if !ensemble::sound(squared_norm::<R, S>(amplitudes@, amplitudes@.len())) {
                error == no_norm()
            } else {
                sector_fails::<B, P, S>(
                    basis_states@,
                    total_sites,
                    retained_sites@,
                    noncommuting_groups@,
                    error,
                )
            },
        },
{
    if amplitudes.len() != basis_states.len() {
        return Err(
            QmbedError::DimensionMismatch(
                Reason::Text("sector amplitudes and basis states must have the same length"),
            ),
        );
    }
    let norm: R = find_squared_norm::<R, S>(amplitudes);
    if !norm.is_finite() || norm.is_negligible() {
        return Err(QmbedError::InvalidOptions(Reason::Text("state must have positive finite norm")));
    }
    let (layout, split) = match split_sector(
        basis_states,
        total_sites,
        retained_sites,
        noncommuting_groups,
    ) {
        Ok(found) => found,
        Err(error) => {
            return Err(error);
        },
    };
    if !holds_split::<P, S>(&split) {
        assert(splits(basis_states@, layout, noncommuting_groups@, split@));
        return Err(refuse_value());
    }
    let dimension: usize = layout.subsystem_dimension();
    let count: usize = split.len();
    let ghost products = state_product::<R, P, S>(amplitudes@, split@, norm);
    let mut reduced: Vec<S> = linear::zero_vector(dimension * dimension);
    assert(linear::zeros::<S>((dimension * dimension) as nat) =~= linear::zeros::<S>(
        dimension as nat * dimension as nat,
    ));
    let mut row: usize = 0;
    assert(0nat * count as nat == 0);
    while row < count
        invariant
            row <= count,
            count == split@.len(),
            count == amplitudes@.len(),
            dimension * dimension <= usize::MAX,
            dimension == layout.spec_dimension(),
            dimension == pow2(retained_sites@.len()),
            layout.spec_retained() == retained_sites@,
            splits(basis_states@, layout, noncommuting_groups@, split@),
            products == state_product::<R, P, S>(amplitudes@, split@, norm),
            reduced@.len() == dimension * dimension,
            reduced@ == pair_sums(
                inner_parts(split@),
                outer_parts(split@),
                products,
                dimension as nat,
                row as nat * count as nat,
            ),
        decreases count - row,
    {
        let left_value: S = S::from_phase(&split[row].exchange_phase).times(&amplitudes[row]);
        let mut column: usize = 0;
        assert(row as nat * count as nat + 0 == row as nat * count as nat);
        while column < count
            invariant
                row < count,
                column <= count,
                count == split@.len(),
                count == amplitudes@.len(),
                dimension * dimension <= usize::MAX,
                dimension == layout.spec_dimension(),
                dimension == pow2(retained_sites@.len()),
                layout.spec_retained() == retained_sites@,
                splits(basis_states@, layout, noncommuting_groups@, split@),
                products == state_product::<R, P, S>(amplitudes@, split@, norm),
                left_value == S::spec_from_phase(split@[row as int].exchange_phase).spec_times(
                    amplitudes@[row as int],
                ),
                reduced@.len() == dimension * dimension,
                reduced@ == pair_sums(
                    inner_parts(split@),
                    outer_parts(split@),
                    products,
                    dimension as nat,
                    row as nat * count as nat + column as nat,
                ),
            decreases count - column,
        {
            proof {
                vstd::arithmetic::div_mod::lemma_fundamental_div_mod_converse(
                    row as int * count as int + column as int,
                    count as int,
                    row as int,
                    column as int,
                );
            }
            if same_words(&split[row].environment, &split[column].environment) {
                let left: usize = split[row].subsystem;
                let right: usize = split[column].subsystem;
                proof {
                    assert(exchange::splits_into(
                        basis_states@[row as int],
                        layout,
                        noncommuting_groups@,
                        split@[row as int],
                    ));
                    assert(exchange::splits_into(
                        basis_states@[column as int],
                        layout,
                        noncommuting_groups@,
                        split@[column as int],
                    ));
                    exchange::lemma_digits_bound(basis_states@[row as int], retained_sites@);
                    exchange::lemma_digits_bound(basis_states@[column as int], retained_sites@);
                    lemma_pair(left as int, right as int, dimension as int, dimension as int);
                }
                let right_value: S = S::from_phase(&split[column].exchange_phase).times(
                    &amplitudes[column],
                );
                let share: S = left_value.times(&right_value.conjugate()).divided(norm);
                let sum: S = reduced[left * dimension + right].plus(&share);
                proof {
                    assert(share == products(row as int, column as int));
                }
                reduced.set(left * dimension + right, sum);
            }
            column += 1;
        }
        row += 1;
        proof {
            assert(row as nat * count as nat == (row - 1) as nat * count as nat + count as nat)
                by (nonlinear_arith)
                requires
                    row >= 1,
            ;
        }
    }
    proof {
        assert(lays_out(layout, total_sites, retained_sites@, noncommuting_groups@));
        assert(splits(basis_states@, layout, noncommuting_groups@, split@));
        assert(is_sector_state::<R, P, B, S>(
            reduced@,
            amplitudes@,
            basis_states@,
            noncommuting_groups@,
            layout,
            split@,
        ));
    }
    Ok(reduced)
}

/// Whether a matrix is the reduced density matrix of a mixed state of a sector with the
/// given retained sites.
pub open spec fn reduced_sector_density<
    R: RealNumber,
    P: PhaseFactor,
    B: BinaryState,
    S: ComplexOver<R> + PhaseScalar<P>,
>(
    reduced: Seq<S>,
    density: Seq<S>,
    states: Seq<B>,
    total_sites: usize,
    retained: Seq<usize>,
    groups: Seq<NoncommutingGroup<P>>,
) -> bool {
    exists|layout: BinarySectorSubsystemLayout, split: Seq<SplitBinarySectorState<P>>|
        #![trigger is_sector_density::<R, P, B, S>(reduced, density, states, groups, layout, split)]
        lays_out(layout, total_sites, retained, groups) && is_sector_density::<R, P, B, S>(
            reduced,
            density,
            states,
            groups,
            layout,
            split,
        )
}

/// Reduced density matrix of a mixed state stored in any binary sector basis.
///
/// Only pairs of states with the same environment are visited; no unrestricted density
/// matrix is formed.
pub fn partial_trace_sector_density<
    R: RealNumber,
    P: PhaseFactor,
    B: BinaryState,
    S: ComplexOver<R> + PhaseScalar<P>,
>(
    density: &Vec<S>,
    basis_states: &[B],
    total_sites: usize,
    retained_sites: &[usize],
    noncommuting_groups: &Vec<NoncommutingGroup<P>>,
) -> (result: Result<Vec<S>>)
    requires
        B::readable(),
    ensures
        match result {
            Ok(reduced) => {
                &&& density@.len() == basis_states@.len() * basis_states@.len()
                &&& density_error::<R, S>(density@, basis_states@.len()) is None
                &&& reduced_sector_density::<R, P, B, S>(
                    reduced@,
                    density@,
                    basis_states@,
                    total_sites,
                    retained_sites@,
                    noncommuting_groups@,
                )
            },
            Err(error) => if density@.len() != basis_states@.len() * basis_states@.len() {
                error == QmbedError::DimensionMismatch(
                    Reason::Text("sector density matrix does not match the basis dimension"),
                )
            } else {
                match density_error::<R, S>(density@, basis_states@.len()) {
                    Some(stated) => error == stated,
                    None => sector_fails::<B, P, S>(
                        basis_states@,
                        total_sites,
                        retained_sites@,
                        noncommuting_groups@,
                        error,
                    ),
                }
            },
        },
{
    let count: usize = basis_states.len();
    if !fills_square(density, count) {
        return Err(
            QmbedError::DimensionMismatch(
                Reason::Text("sector density matrix does not match the basis dimension"),
            ),
        );
    }
    let whole: R = match check_density::<R, S>(density, count) {
        Ok(whole) => whole,
        Err(error) => {
            return Err(error);
        },
    };
    let (layout, split) = match split_sector(
        basis_states,
        total_sites,
        retained_sites,
        noncommuting_groups,
    ) {
        Ok(found) => found,
        Err(error) => {
            return Err(error);
        },
    };
    if !holds_split::<P, S>(&split) {
        assert(splits(basis_states@, layout, noncommuting_groups@, split@));
        return Err(refuse_value());
    }
    let dimension: usize = layout.subsystem_dimension();
    let given: usize = density.len();
    let ghost products = density_product::<R, P, S>(density@, split@, whole);
    let mut reduced: Vec<S> = linear::zero_vector(dimension * dimension);
    assert(linear::zeros::<S>((dimension * dimension) as nat) =~= linear::zeros::<S>(
        dimension as nat * dimension as nat,
    ));
    let mut row: usize = 0;
    assert(0nat * count as nat == 0);
    while row < count
        invariant
            row <= count,
            count == split@.len(),
            given == density@.len(),
            given == count * count,
            dimension * dimension <= usize::MAX,
            dimension == layout.spec_dimension(),
            dimension == pow2(retained_sites@.len()),
            layout.spec_retained() == retained_sites@,
            splits(basis_states@, layout, noncommuting_groups@, split@),
            products == density_product::<R, P, S>(density@, split@, whole),
            reduced@.len() == dimension * dimension,
            reduced@ == pair_sums(
                inner_parts(split@),
                outer_parts(split@),
                products,
                dimension as nat,
                row as nat * count as nat,
            ),
        decreases count - row,
    {
        let mut column: usize = 0;
        assert(row as nat * count as nat + 0 == row as nat * count as nat);
        while column < count
            invariant
                row < count,
                column <= count,
                count == split@.len(),
                given == density@.len(),
                given == count * count,
                dimension * dimension <= usize::MAX,
                dimension == layout.spec_dimension(),
                dimension == pow2(retained_sites@.len()),
                layout.spec_retained() == retained_sites@,
                splits(basis_states@, layout, noncommuting_groups@, split@),
                products == density_product::<R, P, S>(density@, split@, whole),
                reduced@.len() == dimension * dimension,
                reduced@ == pair_sums(
                    inner_parts(split@),
                    outer_parts(split@),
                    products,
                    dimension as nat,
                    row as nat * count as nat + column as nat,
                ),
            decreases count - column,
        {
            proof {
                vstd::arithmetic::div_mod::lemma_fundamental_div_mod_converse(
                    row as int * count as int + column as int,
                    count as int,
                    row as int,
                    column as int,
                );
                lemma_pair(row as int, column as int, count as int, count as int);
            }
            if same_words(&split[row].environment, &split[column].environment) {
                let left: usize = split[row].subsystem;
                let right: usize = split[column].subsystem;
                proof {
                    assert(exchange::splits_into(
                        basis_states@[row as int],
                        layout,
                        noncommuting_groups@,
                        split@[row as int],
                    ));
                    assert(exchange::splits_into(
                        basis_states@[column as int],
                        layout,
                        noncommuting_groups@,
                        split@[column as int],
                    ));
                    exchange::lemma_digits_bound(basis_states@[row as int], retained_sites@);
                    exchange::lemma_digits_bound(basis_states@[column as int], retained_sites@);
                    lemma_pair(left as int, right as int, dimension as int, dimension as int);
                }
                let share: S = S::from_phase(&split[row].exchange_phase).times(
                    &density[row * count + column],
                ).times(&S::from_phase(&split[column].exchange_phase).conjugate()).divided(whole);
                let sum: S = reduced[left * dimension + right].plus(&share);
                proof {
                    assert(share == products(row as int, column as int));
                }
                reduced.set(left * dimension + right, sum);
            }
            column += 1;
        }
        row += 1;
        proof {
            assert(row as nat * count as nat == (row - 1) as nat * count as nat + count as nat)
                by (nonlinear_arith)
                requires
                    row >= 1,
            ;
        }
    }
    proof {
        assert(lays_out(layout, total_sites, retained_sites@, noncommuting_groups@));
        assert(splits(basis_states@, layout, noncommuting_groups@, split@));
        assert(is_sector_density::<R, P, B, S>(
            reduced@,
            density@,
            basis_states@,
            noncommuting_groups@,
            layout,
            split@,
        ));
    }
    Ok(reduced)
}

} // verus!

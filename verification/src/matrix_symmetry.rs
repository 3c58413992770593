//! Symmetries with matrix representations: orbits, group elements, and selected rows.

use core::marker::PhantomData;

use vstd::arithmetic::div_mod::*;
use vstd::prelude::*;

use crate::error::{QmbedError, Reason, Result};
use crate::linear::Scalar;
use crate::ordered;
use crate::ordered::{copy_list, find, sort_dedup, Bounded, Ranked};
use crate::symmetry::{PhaseFactor, SymmetryMap};
use crate::table::StateTable;

verus! {

/// Most elements that a group may have.
pub const GROUP_LIMIT: usize = 65_536;

/// Place of a matrix element in row order.
pub open spec fn at(row: int, column: int, size: nat) -> int {
    row * size + column
}

pub proof fn lemma_at(row: int, column: int, size: nat)
    requires
        0 <= row < size,
        0 <= column < size,
    ensures
        0 <= row * size <= at(row, column, size) < size * size,
        at(row, column, size) / (size as int) == row,
        at(row, column, size) % (size as int) == column,
{
    lemma_fundamental_div_mod_converse(at(row, column, size), size as int, row, column);
    assert(0 <= row * size) by (nonlinear_arith)
        requires
            0 <= row,
    ;
    assert(row * size + column < size * size) by (nonlinear_arith)
        requires
            0 <= row < size,
            0 <= column < size,
    ;
}

proof fn lemma_place(place: int, size: nat)
    requires
        0 <= place < size * size,
    ensures
        size > 0,
        0 <= place / (size as int) < size,
        0 <= place % (size as int) < size,
        place == at(place / (size as int), place % (size as int), size),
{
    assert(size > 0) by (nonlinear_arith)
        requires
            0 <= place < size * size,
    ;
    lemma_fundamental_div_mod(place, size as int);
    lemma_mod_bound(place, size as int);
    lemma_div_pos_is_pos(place, size as int);
    lemma_multiply_divide_lt(place, size as int, size as int);
    assert((size as int) * (place / (size as int)) == (place / (size as int)) * size)
        by (nonlinear_arith);
}

/// The unit matrix.
pub open spec fn identity_entries<S: Scalar>(size: nat) -> Seq<S> {
    Seq::new(
        size * size,
        |i: int|
            if i / (size as int) == i % (size as int) {
                S::spec_one()
            } else {
                S::spec_zero()
            },
    )
}

/// Sum of the first products for an element of a matrix product; negligible factors of the
/// first matrix are left out.
pub open spec fn product_element<S: Scalar>(
    left: Seq<S>,
    right: Seq<S>,
    size: nat,
    row: int,
    column: int,
    count: nat,
) -> S
    decreases count,
{
    if count == 0 {
        S::spec_zero()
    } else {
        let before = product_element(left, right, size, row, column, (count - 1) as nat);
        let coefficient = left[at(row, count - 1, size)];
        if coefficient.spec_is_negligible() {
            before
        } else {
            before.spec_plus(coefficient.spec_times(right[at(count - 1, column, size)]))
        }
    }
}

/// A matrix product.
pub open spec fn matrix_product<S: Scalar>(left: Seq<S>, right: Seq<S>, size: nat) -> Seq<S> {
    Seq::new(
        size * size,
        |i: int|
            product_element(left, right, size, i / (size as int), i % (size as int), size),
    )
}

/// A power of a matrix.
pub open spec fn matrix_power<S: Scalar>(matrix: Seq<S>, size: nat, count: nat) -> Seq<S>
    decreases count,
{
    if count == 0 {
        identity_entries(size)
    } else {
        matrix_product(matrix, matrix_power(matrix, size, (count - 1) as nat), size)
    }
}

/// Whether two matrices agree element by element.
pub open spec fn matrices_close<S: Scalar>(left: Seq<S>, right: Seq<S>, tolerance: S::Size) -> bool {
    &&& left.len() == right.len()
    &&& forall|i: int|
        0 <= i < left.len() ==> S::spec_within(
            (#[trigger] left[i]).spec_distance(right[i]),
            tolerance,
        )
}

/// Sum of the first products for the overlap of two columns.
pub open spec fn column_overlap<S: Scalar>(
    matrix: Seq<S>,
    size: nat,
    left: int,
    right: int,
    count: nat,
) -> S
    decreases count,
{
    if count == 0 {
        S::spec_zero()
    } else {
        column_overlap(matrix, size, left, right, (count - 1) as nat).spec_plus(
            matrix[at(count - 1, left, size)].spec_conjugate().spec_times(
                matrix[at(count - 1, right, size)],
            ),
        )
    }
}

/// Whether two columns overlap as those of a unitary matrix do.
pub open spec fn columns_are_unitary<S: Scalar>(
    matrix: Seq<S>,
    size: nat,
    left: int,
    right: int,
    tolerance: S::Size,
) -> bool {
    S::spec_within(
        column_overlap(matrix, size, left, right, size).spec_distance(
            if left == right {
                S::spec_one()
            } else {
                S::spec_zero()
            },
        ),
        tolerance,
    )
}

/// Whether a matrix is unitary within a tolerance.
pub open spec fn unitary<S: Scalar>(matrix: Seq<S>, size: nat, tolerance: S::Size) -> bool {
    forall|left: int, right: int|
        0 <= left < size && 0 <= right < size ==> #[trigger] columns_are_unitary(
            matrix,
            size,
            left,
            right,
            tolerance,
        )
}

/// The unit matrix.
pub fn identity_matrix<S: Scalar>(dimension: usize) -> (matrix: Vec<S>)
    requires
        dimension * dimension <= usize::MAX,
    ensures
        matrix@ == identity_entries::<S>(dimension as nat),
{
    let total: usize = dimension * dimension;
    let mut matrix: Vec<S> = Vec::new();
    let mut next: usize = 0;
    while next < total
        invariant
            next <= total,
            total == dimension * dimension,
            matrix@ == identity_entries::<S>(dimension as nat).take(next as int),
        decreases total - next,
    {
        proof {
            lemma_place(next as int, dimension as nat);
        }
        if next / dimension == next % dimension {
            matrix.push(S::one());
        } else {
            matrix.push(S::zero());
        }
        next += 1;
        assert(matrix@ =~= identity_entries::<S>(dimension as nat).take(next as int));
    }
    assert(matrix@ =~= identity_entries::<S>(dimension as nat));
    matrix
}

/// A matrix product.
pub fn multiply_square_matrices<S: Scalar>(left: &Vec<S>, right: &Vec<S>, dimension: usize) -> (
product: Vec<S>)
    requires
        dimension * dimension <= usize::MAX,
        left@.len() == dimension * dimension,
        right@.len() == dimension * dimension,
    ensures
        product@ == matrix_product(left@, right@, dimension as nat),
{
    let total: usize = dimension * dimension;
    let mut product: Vec<S> = Vec::new();
    let mut next: usize = 0;
    while next < total
        invariant
            next <= total,
            total == dimension * dimension,
            left@.len() == total,
            right@.len() == total,
            product@ == matrix_product(left@, right@, dimension as nat).take(next as int),
        decreases total - next,
    {
        proof {
            lemma_place(next as int, dimension as nat);
        }
        let row: usize = next / dimension;
        let column: usize = next % dimension;
        let mut sum: S = S::zero();
        let mut middle: usize = 0;
        while middle < dimension
            invariant
                middle <= dimension,
                row < dimension,
                column < dimension,
                total == dimension * dimension,
                left@.len() == total,
                right@.len() == total,
                sum == product_element(
                    left@,
                    right@,
                    dimension as nat,
                    row as int,
                    column as int,
                    middle as nat,
                ),
            decreases dimension - middle,
        {
            proof {
                lemma_at(row as int, middle as int, dimension as nat);
                lemma_at(middle as int, column as int, dimension as nat);
            }
            let coefficient: S = left[row * dimension + middle];
            if !coefficient.is_negligible() {
                sum = sum.plus(&coefficient.times(&right[middle * dimension + column]));
            }
            middle += 1;
        }
        product.push(sum);
        next += 1;
        assert(product@ =~= matrix_product(left@, right@, dimension as nat).take(next as int));
    }
    assert(product@ =~= matrix_product(left@, right@, dimension as nat));
    product
}

/// Whether two matrices agree element by element.
pub fn are_close<S: Scalar>(left: &Vec<S>, right: &Vec<S>, tolerance: S::Size) -> (answer: bool)
    ensures
        answer == matrices_close(left@, right@, tolerance),
{
    if left.len() != right.len() {
        return false;
    }
    let mut next: usize = 0;
    while next < left.len()
        invariant
            next <= left@.len(),
            left@.len() == right@.len(),
            forall|i: int|
                0 <= i < next ==> S::spec_within(
                    (#[trigger] left@[i]).spec_distance(right@[i]),
                    tolerance,
                ),
        decreases left@.len() - next,
    {
        if !S::within(left[next].distance(&right[next]), tolerance) {
            return false;
        }
        next += 1;
    }
    true
}

/// Checks that a matrix is finite and unitary.
pub fn validate_unitary_matrix<S: Scalar>(matrix: &Vec<S>, dimension: usize, tolerance: S::Size) -> (
result: Result<()>)
    requires
        dimension * dimension <= usize::MAX,
        matrix@.len() == dimension * dimension,
    ensures
        match result {
            Ok(_) => crate::interop::all_finite(matrix@) && unitary(
                matrix@,
                dimension as nat,
                tolerance,
            ),
            Err(error) => if crate::interop::all_finite(matrix@) {
                &&& !unitary(matrix@, dimension as nat, tolerance)
                &&& error == QmbedError::InvalidSector(
                    Reason::Text("matrix symmetry generators must be unitary"),
                )
            } else {
                error == QmbedError::InvalidSector(
                    Reason::Text("matrix symmetry generators must contain finite values"),
                )
            },
        },
{
    let mut next: usize = 0;
    while next < matrix.len()
        invariant
            next <= matrix@.len(),
            forall|k: int| 0 <= k < next ==> (#[trigger] matrix@[k]).spec_is_finite(),
        decreases matrix@.len() - next,
    {
        if !matrix[next].is_finite() {
            assert(!matrix@[next as int].spec_is_finite());
            return Err(
                QmbedError::InvalidSector(Reason::Text("matrix symmetry generators must contain finite values")),
            );
        }
        next += 1;
    }
    let mut left: usize = 0;
    while left < dimension
        invariant
            left <= dimension,
            dimension * dimension <= usize::MAX,
            matrix@.len() == dimension * dimension,
            crate::interop::all_finite(matrix@),
            forall|l: int, r: int|
                0 <= l < left && 0 <= r < dimension ==> #[trigger] columns_are_unitary(
                    matrix@,
                    dimension as nat,
                    l,
                    r,
                    tolerance,
                ),
        decreases dimension - left,
    {
        let mut right: usize = 0;
        while right < dimension
            invariant
                left < dimension,
                right <= dimension,
                dimension * dimension <= usize::MAX,
                matrix@.len() == dimension * dimension,
                crate::interop::all_finite(matrix@),
                forall|l: int, r: int|
                    (0 <= l < left && 0 <= r < dimension) || (l == left && 0 <= r < right)
                        ==> #[trigger] columns_are_unitary(
                        matrix@,
                        dimension as nat,
                        l,
                        r,
                        tolerance,
                    ),
            decreases dimension - right,
        {
            let mut overlap: S = S::zero();
            let mut row: usize = 0;
            while row < dimension
                invariant
                    row <= dimension,
                    left < dimension,
                    right < dimension,
                    dimension * dimension <= usize::MAX,
                    matrix@.len() == dimension * dimension,
                    overlap == column_overlap(
                        matrix@,
                        dimension as nat,
                        left as int,
                        right as int,
                        row as nat,
                    ),
                decreases dimension - row,
            {
                proof {
                    lemma_at(row as int, left as int, dimension as nat);
                    lemma_at(row as int, right as int, dimension as nat);
                }
                overlap = overlap.plus(
                    &matrix[row * dimension + left].conjugate().times(
                        &matrix[row * dimension + right],
                    ),
                );
                row += 1;
            }
            let expected: S = if left == right {
                S::one()
            } else {
                S::zero()
            };
            if !S::within(overlap.distance(&expected), tolerance) {
                assert(!columns_are_unitary(
                    matrix@,
                    dimension as nat,
                    left as int,
                    right as int,
                    tolerance,
                ));
                return Err(
                    QmbedError::InvalidSector(Reason::Text("matrix symmetry generators must be unitary")),
                );
            }
            right += 1;
        }
        left += 1;
    }
    Ok(())
}

/// A map with the matrix that represents it.
#[derive(Debug)]
pub struct MatrixSymmetryGenerator<M, S> {
    pub map: M,
    pub representation: Vec<S>,
}

/// Symmetry maps with a common unitary representation, and one of its rows.
pub struct MatrixSymmetryReducer<State, M, S: Scalar> {
    dimension: usize,
    selected_row: usize,
    tolerance: S::Size,
    generators: Vec<MatrixSymmetryGenerator<M, S>>,
    states: PhantomData<State>,
}

/// What is wrong with the matrix that is to represent a map, if anything.
pub open spec fn representation_error<S: Scalar>(
    dimension: usize,
    matrix: Seq<S>,
    period: usize,
    tolerance: S::Size,
) -> Option<QmbedError> {
    let size = dimension as nat;
    if size * size > usize::MAX {
        Some(QmbedError::UnsupportedBackend(Reason::Text("matrix symmetry representation is too large")))
    } else if matrix.len() != size * size {
        Some(
            QmbedError::InvalidSector(Reason::Length {
                what: "matrix symmetry generator entries",
                found: matrix.len() as usize,
                expected: (size * size) as usize,
            }),
        )
    } else if !crate::interop::all_finite(matrix) {
        Some(QmbedError::InvalidSector(Reason::Text("matrix symmetry generators must contain finite values")))
    } else if !unitary(matrix, size, tolerance) {
        Some(QmbedError::InvalidSector(Reason::Text("matrix symmetry generators must be unitary")))
    } else if !matrices_close(
        matrix_power(matrix, size, period as nat),
        identity_entries(size),
        tolerance,
    ) {
        Some(
            QmbedError::IncompatibleSymmetry(
                "a representation generator does not close at the physical map period",
            ),
        )
    } else {
        None
    }
}

impl<State: Bounded, M: SymmetryMap<State>, S: Scalar> MatrixSymmetryReducer<State, M, S> {
    /// Dimension of the representation.
    pub closed spec fn spec_dimension(&self) -> usize {
        self.dimension
    }

    /// The selected row.
    pub closed spec fn spec_selected_row(&self) -> usize {
        self.selected_row
    }

    /// The tolerance of all comparisons.
    pub closed spec fn spec_tolerance(&self) -> S::Size {
        self.tolerance
    }

    /// The maps with their matrices.
    pub closed spec fn spec_generators(&self) -> Seq<MatrixSymmetryGenerator<M, S>> {
        self.generators@
    }

    /// A row of the representation, and matrices of its dimension.
    pub open spec fn valid(&self) -> bool {
        &&& self.spec_selected_row() < self.spec_dimension()
        &&& self.spec_generators().len() > 0 ==> self.spec_dimension() * self.spec_dimension()
            <= usize::MAX
        &&& forall|g: int|
            0 <= g < self.spec_generators().len() ==> (
            #[trigger] self.spec_generators()[g]).map.ready()
                && self.spec_generators()[g].representation@.len() == self.spec_dimension()
                * self.spec_dimension()
    }

    /// A representation without generators.
    pub fn new(dimension: usize, selected_row: usize, tolerance: S::Size) -> (result: Result<Self>)
        ensures
            match result {
                Ok(reducer) => {
                    &&& selected_row < dimension
                    &&& reducer.valid()
                    &&& reducer.spec_dimension() == dimension
                    &&& reducer.spec_selected_row() == selected_row
                    &&& reducer.spec_tolerance() == tolerance
                    &&& reducer.spec_generators().len() == 0
                },
                Err(error) => {
                    &&& selected_row >= dimension
                    &&& error == QmbedError::InvalidSector(
                        Reason::Text("a matrix symmetry representation needs a positive dimension and valid row"),
                    )
                },
            },
    {
        if dimension == 0 || selected_row >= dimension {
            return Err(
                QmbedError::InvalidSector(
                    Reason::Text("a matrix symmetry representation needs a positive dimension and valid row"),
                ),
            );
        }
        Ok(
            MatrixSymmetryReducer {
                dimension,
                selected_row,
                tolerance,
                generators: Vec::new(),
                states: PhantomData,
            },
        )
    }

    pub fn dimension(&self) -> (dimension: usize)
        ensures
            dimension == self.spec_dimension(),
    {
        self.dimension
    }

    pub fn selected_row(&self) -> (row: usize)
        ensures
            row == self.spec_selected_row(),
    {
        self.selected_row
    }

    /// The tolerance of all comparisons.
    pub fn tolerance(&self) -> (tolerance: S::Size)
        ensures
            tolerance == self.spec_tolerance(),
    {
        self.tolerance
    }

    /// Number of maps.
    pub fn generator_count(&self) -> (count: usize)
        ensures
            count == self.spec_generators().len(),
    {
        self.generators.len()
    }

    /// The representation with one more map.
    pub fn with_map(self, map: M, representation: Vec<S>) -> (result: Result<Self>)
        requires
            self.valid(),
            map.ready(),
        ensures
            match result {
                Ok(reducer) => {
                    &&& representation_error(
                        self.spec_dimension(),
                        representation@,
                        map.spec_map_period(),
                        self.spec_tolerance(),
                    ) is None
                    &&& reducer.valid()
                    &&& reducer.spec_dimension() == self.spec_dimension()
                    &&& reducer.spec_selected_row() == self.spec_selected_row()
                    &&& reducer.spec_tolerance() == self.spec_tolerance()
                    &&& reducer.spec_generators() == self.spec_generators().push(
                        MatrixSymmetryGenerator { map, representation },
                    )
                },
                Err(error) => representation_error(
                    self.spec_dimension(),
                    representation@,
                    map.spec_map_period(),
                    self.spec_tolerance(),
                ) == Some(error),
            },
    {
        let dimension: usize = self.dimension;
        let entries: usize = match dimension.checked_mul(dimension) {
            Some(entries) => entries,
            None => {
                return Err(
                    QmbedError::UnsupportedBackend(Reason::Text("matrix symmetry representation is too large")),
                );
            },
        };
        if representation.len() != entries {
            return Err(
                QmbedError::InvalidSector(Reason::Length {
                    what: "matrix symmetry generator entries",
                    found: representation.len(),
                    expected: entries,
                }),
            );
        }
        if let Err(error) = validate_unitary_matrix(&representation, dimension, self.tolerance) {
            return Err(error);
        }
        let period: usize = map.period();
        let mut power: Vec<S> = identity_matrix(dimension);
        let mut next: usize = 0;
        while next < period
            invariant
                next <= period,
                dimension * dimension <= usize::MAX,
                representation@.len() == dimension * dimension,
                power@.len() == dimension * dimension,
                power@ == matrix_power(representation@, dimension as nat, next as nat),
            decreases period - next,
        {
            power = multiply_square_matrices(&representation, &power, dimension);
            next += 1;
        }
        if !are_close(&power, &identity_matrix(dimension), self.tolerance) {
            return Err(
                QmbedError::IncompatibleSymmetry(
                    "a representation generator does not close at the physical map period",
                ),
            );
        }
        let mut generators: Vec<MatrixSymmetryGenerator<M, S>> = self.generators;
        generators.push(MatrixSymmetryGenerator { map, representation });
        let reducer: Self = MatrixSymmetryReducer {
            dimension,
            selected_row: self.selected_row,
            tolerance: self.tolerance,
            generators,
            states: PhantomData,
        };
        proof {
            assert forall|g: int| 0 <= g < reducer.spec_generators().len() implies (
            #[trigger] reducer.spec_generators()[g]).map.ready()
                && reducer.spec_generators()[g].representation@.len() == dimension * dimension by {
                if g < self.spec_generators().len() {
                    assert(reducer.spec_generators()[g] == self.spec_generators()[g]);
                }
            }
        }
        Ok(reducer)
    }
}

/// One application of a map, refused where its phase is no number.
pub open spec fn image<State, M: SymmetryMap<State>>(
    map: M,
    state: State,
) -> core::result::Result<(State, M::Factor), QmbedError> {
    match map.spec_apply(state) {
        Ok((target, phase)) => if phase.spec_is_finite() {
            Ok((target, phase))
        } else {
            Err(QmbedError::IncompatibleSymmetry("a symmetry map returned a non-finite phase"))
        },
        Err(error) => Err(error),
    }
}

/// Where a word of generator numbers leads, if every application on the way succeeds.
pub open spec fn reach<State, M: SymmetryMap<State>, S>(
    generators: Seq<MatrixSymmetryGenerator<M, S>>,
    seed: State,
    word: Seq<int>,
) -> Option<State>
    decreases word.len(),
{
    if word.len() == 0 {
        Some(seed)
    } else {
        match reach(generators, seed, word.drop_last()) {
            None => None,
            Some(state) => if 0 <= word.last() < generators.len() {
                match image(generators[word.last()].map, state) {
                    Ok((target, _)) => Some(target),
                    Err(_) => None,
                }
            } else {
                None
            },
        }
    }
}

/// Whether some word leads to a state.
pub open spec fn reachable<State, M: SymmetryMap<State>, S>(
    generators: Seq<MatrixSymmetryGenerator<M, S>>,
    seed: State,
    state: State,
) -> bool {
    exists|word: Seq<int>| #[trigger] reach(generators, seed, word) == Some(state)
}

/// Whether a generator takes a state into a list.
pub open spec fn stays<State, M: SymmetryMap<State>, S>(
    generators: Seq<MatrixSymmetryGenerator<M, S>>,
    states: Seq<State>,
    state: State,
    g: int,
) -> bool {
    match image(generators[g].map, state) {
        Ok((target, _)) => states.contains(target),
        Err(_) => false,
    }
}

/// The states that words lead to, in order; no application fails on them.
pub open spec fn is_orbit<State: Bounded, M: SymmetryMap<State>, S>(
    generators: Seq<MatrixSymmetryGenerator<M, S>>,
    seed: State,
    orbit: Seq<State>,
) -> bool {
    &&& ordered::strictly_sorted(orbit)
    &&& forall|state: State| #[trigger]
        orbit.contains(state) <==> reachable(generators, seed, state)
    &&& forall|state: State, g: int|
        orbit.contains(state) && 0 <= g < generators.len() ==> #[trigger] stays(
            generators,
            orbit,
            state,
            g,
        )
}

/// Error of the first application that fails when each state met is tried with every generator,
/// in order, before the states met after it.
pub open spec fn failure_met<State: Bounded, M: SymmetryMap<State>, S>(
    generators: Seq<MatrixSymmetryGenerator<M, S>>,
    met: Seq<State>,
    place: nat,
    g: nat,
) -> Option<QmbedError>
    decreases State::rank_limit() - place, generators.len() - g,
{
    if place >= met.len() || place >= State::rank_limit() {
        None
    } else if g >= generators.len() {
        failure_met(generators, met, place + 1, 0)
    } else {
        match image(generators[g as int].map, met[place as int]) {
            Err(error) => Some(error),
            Ok((target, _)) => failure_met(
                generators,
                if met.contains(target) {
                    met
                } else {
                    met.push(target)
                },
                place,
                g + 1,
            ),
        }
    }
}

/// An application of a generator fails on a state that some word leads to, and no application
/// before it does.
pub open spec fn orbit_fails<State: Bounded, M: SymmetryMap<State>, S>(
    generators: Seq<MatrixSymmetryGenerator<M, S>>,
    seed: State,
    error: QmbedError,
) -> bool {
    &&& exists|state: State, g: int|
        #![trigger image(generators[g].map, state)]
        reachable(generators, seed, state) && 0 <= g < generators.len() && image(
            generators[g].map,
            state,
        ) == Err::<(State, M::Factor), QmbedError>(error)
    &&& failure_met(generators, seq![seed], 0, 0) == Some(error)
}

/// The orbit of a state.
pub open spec fn orbit_of<State: Bounded, M: SymmetryMap<State>, S>(
    generators: Seq<MatrixSymmetryGenerator<M, S>>,
    seed: State,
) -> Seq<State> {
    choose|orbit: Seq<State>| #[trigger] is_orbit(generators, seed, orbit)
}

/// A state has only one orbit.
pub proof fn lemma_orbit_unique<State: Bounded, M: SymmetryMap<State>, S>(
    generators: Seq<MatrixSymmetryGenerator<M, S>>,
    seed: State,
    orbit: Seq<State>,
)
    requires
        is_orbit(generators, seed, orbit),
    ensures
        orbit == orbit_of(generators, seed),
{
    let other = orbit_of(generators, seed);
    assert(is_orbit(generators, seed, other));
    assert forall|state: State| #[trigger] orbit.contains(state) <==> other.contains(state) by {
    }
    ordered::lemma_strictly_sorted_unique(orbit, other);
}

proof fn lemma_reach_inside<State, M: SymmetryMap<State>, S>(
    generators: Seq<MatrixSymmetryGenerator<M, S>>,
    seed: State,
    states: Seq<State>,
    word: Seq<int>,
)
    requires
        states.contains(seed),
        forall|state: State, g: int|
            states.contains(state) && 0 <= g < generators.len() ==> #[trigger] stays(
                generators,
                states,
                state,
                g,
            ),
        reach(generators, seed, word) is Some,
    ensures
        states.contains(reach(generators, seed, word)->0),
    decreases word.len(),
{
    if word.len() > 0 {
        lemma_reach_inside(generators, seed, states, word.drop_last());
        let before = reach(generators, seed, word.drop_last())->0;
        assert(stays(generators, states, before, word.last()));
    }
}

proof fn lemma_reach_further<State, M: SymmetryMap<State>, S>(
    generators: Seq<MatrixSymmetryGenerator<M, S>>,
    seed: State,
    state: State,
    g: int,
)
    requires
        reachable(generators, seed, state),
        0 <= g < generators.len(),
        image(generators[g].map, state) is Ok,
    ensures
        reachable(generators, seed, (image(generators[g].map, state)->Ok_0).0),
{
    let word = choose|word: Seq<int>| #[trigger] reach(generators, seed, word) == Some(state);
    assert(word.push(g).drop_last() =~= word);
    assert(reach(generators, seed, word.push(g)) == Some(
        (image(generators[g].map, state)->Ok_0).0,
    ));
}

/// What a map does to an orbit, and the matrix that represents it.
pub struct ElementModel<Factor, S> {
    /// Number of the image of each state.
    pub destinations: Seq<usize>,
    /// Phase of each image.
    pub phases: Seq<Factor>,
    /// The matrix.
    pub representation: Seq<S>,
}

/// A group element as it acts on an orbit.
pub struct OrbitGroupElement<Factor, S> {
    /// Number of the image of each state.
    pub destinations: Vec<usize>,
    /// Phase of each image.
    pub phases: Vec<Factor>,
    /// The matrix.
    pub representation: Vec<S>,
}

impl<Factor, S> View for OrbitGroupElement<Factor, S> {
    type V = ElementModel<Factor, S>;

    open spec fn view(&self) -> ElementModel<Factor, S> {
        ElementModel {
            destinations: self.destinations@,
            phases: self.phases@,
            representation: self.representation@,
        }
    }
}

impl<Factor, S> ElementModel<Factor, S> {
    /// The element moves the states of an orbit of the given size.
    pub open spec fn valid(self, size: nat, dimension: nat) -> bool {
        &&& self.destinations.len() == size
        &&& self.phases.len() == size
        &&& self.representation.len() == dimension * dimension
        &&& forall|i: int| 0 <= i < size ==> (#[trigger] self.destinations[i]) < size
    }
}

/// The element that moves nothing.
pub open spec fn unmoved<Factor: PhaseFactor, S: Scalar>(size: nat, dimension: nat) -> ElementModel<
    Factor,
    S,
> {
    ElementModel {
        destinations: Seq::new(size, |i: int| i as usize),
        phases: Seq::new(size, |i: int| Factor::spec_one()),
        representation: identity_entries(dimension),
    }
}

/// The second element followed by the first.
pub open spec fn composed<Factor: PhaseFactor, S: Scalar>(
    left: ElementModel<Factor, S>,
    right: ElementModel<Factor, S>,
    dimension: nat,
) -> ElementModel<Factor, S> {
    ElementModel {
        destinations: Seq::new(
            right.destinations.len(),
            |i: int| left.destinations[right.destinations[i] as int],
        ),
        phases: Seq::new(
            right.destinations.len(),
            |i: int| right.phases[i].spec_compose(left.phases[right.destinations[i] as int]),
        ),
        representation: matrix_product(left.representation, right.representation, dimension),
    }
}

/// Whether two elements act alike.
pub open spec fn elements_close<Factor: PhaseFactor, S: Scalar>(
    left: ElementModel<Factor, S>,
    right: ElementModel<Factor, S>,
    tolerance: S::Size,
) -> bool {
    &&& left.destinations == right.destinations
    &&& left.phases.len() == right.phases.len()
    &&& forall|i: int|
        0 <= i < left.phases.len() ==> (#[trigger] left.phases[i]).spec_agrees(right.phases[i])
    &&& matrices_close(left.representation, right.representation, tolerance)
}

/// The second element followed by the first.
pub fn compose_orbit_group_elements<Factor: PhaseFactor, S: Scalar>(
    left: &OrbitGroupElement<Factor, S>,
    right: &OrbitGroupElement<Factor, S>,
    representation_dimension: usize,
) -> (element: OrbitGroupElement<Factor, S>)
    requires
        representation_dimension * representation_dimension <= usize::MAX,
        left@.valid(right.destinations@.len(), representation_dimension as nat),
        right@.valid(right.destinations@.len(), representation_dimension as nat),
    ensures
        element@ == composed(left@, right@, representation_dimension as nat),
        element@.valid(right.destinations@.len(), representation_dimension as nat),
{
    let mut destinations: Vec<usize> = Vec::new();
    let mut phases: Vec<Factor> = Vec::new();
    let ghost stated = composed(left@, right@, representation_dimension as nat);
    let mut source: usize = 0;
    while source < right.destinations.len()
        invariant
            source <= right.destinations@.len(),
            left@.valid(right.destinations@.len(), representation_dimension as nat),
            right@.valid(right.destinations@.len(), representation_dimension as nat),
            stated == composed(left@, right@, representation_dimension as nat),
            destinations@.len() == source,
            phases@.len() == source,
            forall|i: int|
                0 <= i < source ==> #[trigger] destinations@[i] == stated.destinations[i],
            forall|i: int| 0 <= i < source ==> #[trigger] phases@[i] == stated.phases[i],
        decreases right.destinations@.len() - source,
    {
        let middle: usize = right.destinations[source];
        assert(right@.destinations[source as int] < right.destinations@.len());
        destinations.push(left.destinations[middle]);
        phases.push(right.phases[source].compose(&left.phases[middle]));
        source += 1;
    }
    let element: OrbitGroupElement<Factor, S> = OrbitGroupElement {
        destinations,
        phases,
        representation: multiply_square_matrices(
            &left.representation,
            &right.representation,
            representation_dimension,
        ),
    };
    proof {
        assert(element@.destinations =~= stated.destinations);
        assert(element@.phases =~= stated.phases);
        assert forall|i: int| 0 <= i < right.destinations@.len() implies (
        #[trigger] element@.destinations[i]) < right.destinations@.len() by {
            assert(right@.destinations[i] < right.destinations@.len());
            assert(left@.destinations[right@.destinations[i] as int] < right.destinations@.len());
        }
    }
    element
}

/// Whether two elements act alike.
pub fn orbit_group_elements_close<Factor: PhaseFactor, S: Scalar>(
    left: &OrbitGroupElement<Factor, S>,
    right: &OrbitGroupElement<Factor, S>,
    tolerance: S::Size,
) -> (answer: bool)
    ensures
        answer == elements_close(left@, right@, tolerance),
{
    if left.destinations.len() != right.destinations.len() || left.phases.len()
        != right.phases.len() {
        return false;
    }
    let mut next: usize = 0;
    while next < left.destinations.len()
        invariant
            next <= left.destinations@.len(),
            left.destinations@.len() == right.destinations@.len(),
            forall|i: int|
                0 <= i < next ==> #[trigger] left.destinations@[i] == right.destinations@[i],
        decreases left.destinations@.len() - next,
    {
        if left.destinations[next] != right.destinations[next] {
            return false;
        }
        next += 1;
    }
    assert(left.destinations@ =~= right.destinations@);
    let mut next: usize = 0;
    while next < left.phases.len()
        invariant
            next <= left.phases@.len(),
            left.phases@.len() == right.phases@.len(),
            forall|i: int|
                0 <= i < next ==> (#[trigger] left.phases@[i]).spec_agrees(right.phases@[i]),
        decreases left.phases@.len() - next,
    {
        if !left.phases[next].agrees(&right.phases[next]) {
            assert(!left@.phases[next as int].spec_agrees(right@.phases[next as int]));
            return false;
        }
        next += 1;
    }
    are_close(&left.representation, &right.representation, tolerance)
}

/// Images of the first states of an orbit, with their phases.
pub open spec fn moved<State, M: SymmetryMap<State>>(map: M, orbit: Seq<State>, count: nat) -> core::result::Result<
    (Seq<usize>, Seq<M::Factor>),
    QmbedError,
>
    decreases count,
{
    if count == 0 {
        Ok((Seq::empty(), Seq::empty()))
    } else {
        match moved(map, orbit, (count - 1) as nat) {
            Err(error) => Err(error),
            Ok((destinations, phases)) => match map.spec_apply(orbit[count - 1]) {
                Err(error) => Err(error),
                Ok((target, phase)) => if orbit.contains(target) {
                    Ok((destinations.push(orbit.index_of(target) as usize), phases.push(phase)))
                } else {
                    Err(
                        QmbedError::IncompatibleSymmetry(
                            "a matrix symmetry generator leaves its physical orbit",
                        ),
                    )
                },
            },
        }
    }
}

/// What the first generators do to an orbit.
pub open spec fn elements_of<State, M: SymmetryMap<State>, S>(
    generators: Seq<MatrixSymmetryGenerator<M, S>>,
    orbit: Seq<State>,
    count: nat,
) -> core::result::Result<Seq<ElementModel<M::Factor, S>>, QmbedError>
    decreases count,
{
    if count == 0 {
        Ok(Seq::empty())
    } else {
        match elements_of(generators, orbit, (count - 1) as nat) {
            Err(error) => Err(error),
            Ok(elements) => match moved(generators[count - 1].map, orbit, orbit.len()) {
                Err(error) => Err(error),
                Ok((destinations, phases)) => Ok(
                    elements.push(
                        ElementModel {
                            destinations,
                            phases,
                            representation: generators[count - 1].representation@,
                        },
                    ),
                ),
            },
        }
    }
}

/// Whether an element that acts alike is known.
pub open spec fn known<Factor: PhaseFactor, S: Scalar>(
    group: Seq<ElementModel<Factor, S>>,
    element: ElementModel<Factor, S>,
    tolerance: S::Size,
) -> bool {
    exists|i: int|
        0 <= i < group.len() && elements_close(#[trigger] group[i], element, tolerance)
}

/// The elements known after one generator followed one of them.
pub open spec fn extended<Factor: PhaseFactor, S: Scalar>(
    generators: Seq<ElementModel<Factor, S>>,
    group: Seq<ElementModel<Factor, S>>,
    source: nat,
    g: nat,
    dimension: nat,
    tolerance: S::Size,
) -> core::result::Result<Seq<ElementModel<Factor, S>>, QmbedError> {
    if source >= group.len() {
        Ok(group)
    } else {
        let candidate = composed(generators[g as int], group[source as int], dimension);
        if known(group, candidate, tolerance) {
            Ok(group)
        } else if group.len() >= GROUP_LIMIT {
            Err(
                QmbedError::UnsupportedBackend(
                    Reason::Text("matrix symmetry group exceeds the finite closure limit"),
                ),
            )
        } else {
            Ok(group.push(candidate))
        }
    }
}

/// The elements known after some compositions, element by element in the order of
/// discovery and for each element generator by generator.
pub open spec fn grown<Factor: PhaseFactor, S: Scalar>(
    generators: Seq<ElementModel<Factor, S>>,
    size: nat,
    dimension: nat,
    tolerance: S::Size,
    edges: nat,
) -> core::result::Result<Seq<ElementModel<Factor, S>>, QmbedError>
    decreases edges,
{
    if edges == 0 || generators.len() == 0 {
        Ok(seq![unmoved(size, dimension)])
    } else {
        let last = (edges - 1) as nat;
        match grown(generators, size, dimension, tolerance, last) {
            Err(error) => Err(error),
            Ok(group) => extended(
                generators,
                group,
                last / generators.len(),
                last % generators.len(),
                dimension,
                tolerance,
            ),
        }
    }
}

/// Whether nothing is left to compose.
pub open spec fn complete<Factor: PhaseFactor, S: Scalar>(
    generators: Seq<ElementModel<Factor, S>>,
    size: nat,
    dimension: nat,
    tolerance: S::Size,
    edges: nat,
) -> bool {
    match grown(generators, size, dimension, tolerance, edges) {
        Err(_) => true,
        Ok(group) => edges >= group.len() * generators.len(),
    }
}

/// The group that the generators span on an orbit of the given size.
pub open spec fn spanned<Factor: PhaseFactor, S: Scalar>(
    generators: Seq<ElementModel<Factor, S>>,
    size: nat,
    dimension: nat,
    tolerance: S::Size,
) -> core::result::Result<Seq<ElementModel<Factor, S>>, QmbedError> {
    grown(
        generators,
        size,
        dimension,
        tolerance,
        choose|edges: nat| #[trigger] complete(generators, size, dimension, tolerance, edges),
    )
}

/// The group that the maps span on an orbit.
pub open spec fn group_of<State, M: SymmetryMap<State>, S: Scalar>(
    generators: Seq<MatrixSymmetryGenerator<M, S>>,
    orbit: Seq<State>,
    dimension: nat,
    tolerance: S::Size,
) -> core::result::Result<Seq<ElementModel<M::Factor, S>>, QmbedError> {
    match elements_of(generators, orbit, generators.len()) {
        Err(error) => Err(error),
        Ok(elements) => spanned(elements, orbit.len(), dimension, tolerance),
    }
}

proof fn lemma_complete<Factor: PhaseFactor, S: Scalar>(
    generators: Seq<ElementModel<Factor, S>>,
    size: nat,
    dimension: nat,
    tolerance: S::Size,
    edges: nat,
    later: nat,
)
    requires
        complete(generators, size, dimension, tolerance, edges),
        edges <= later,
    ensures
        complete(generators, size, dimension, tolerance, later),
        grown(generators, size, dimension, tolerance, later) == grown(
            generators,
            size,
            dimension,
            tolerance,
            edges,
        ),
    decreases later - edges,
{
    if edges < later {
        let last = (later - 1) as nat;
        let count = generators.len();
        lemma_complete(generators, size, dimension, tolerance, edges, last);
        if count > 0 {
            match grown(generators, size, dimension, tolerance, last) {
                Err(_) => {},
                Ok(group) => {
                    lemma_fundamental_div_mod(last as int, count as int);
                    lemma_mod_bound(last as int, count as int);
                    let q = last / count;
                    let n = group.len();
                    assert(q >= n) by (nonlinear_arith)
                        requires
                            last >= n * count,
                            last < count * q + count,
                            count > 0,
                    ;
                },
            }
        }
    }
}

proof fn lemma_spanned<Factor: PhaseFactor, S: Scalar>(
    generators: Seq<ElementModel<Factor, S>>,
    size: nat,
    dimension: nat,
    tolerance: S::Size,
    edges: nat,
)
    requires
        complete(generators, size, dimension, tolerance, edges),
    ensures
        spanned(generators, size, dimension, tolerance) == grown(
            generators,
            size,
            dimension,
            tolerance,
            edges,
        ),
{
    let chosen = choose|edges: nat| #[trigger]
        complete(generators, size, dimension, tolerance, edges);
    if chosen <= edges {
        lemma_complete(generators, size, dimension, tolerance, chosen, edges);
    } else {
        lemma_complete(generators, size, dimension, tolerance, edges, chosen);
    }
}

proof fn lemma_next_edge<Factor: PhaseFactor, S: Scalar>(
    generators: Seq<ElementModel<Factor, S>>,
    size: nat,
    dimension: nat,
    tolerance: S::Size,
    source: nat,
    g: nat,
)
    requires
        g < generators.len(),
    ensures
        grown(generators, size, dimension, tolerance, source * generators.len() + g + 1) == (
        match grown(generators, size, dimension, tolerance, source * generators.len() + g) {
            Err(error) => Err(error),
            Ok(group) => extended(generators, group, source, g, dimension, tolerance),
        }),
{
    let count = generators.len();
    let last = source * count + g;
    lemma_fundamental_div_mod_converse(last as int, count as int, source as int, g as int);
}

/// Whether an element is listed or acts like a listed one.
pub open spec fn covered<Factor: PhaseFactor, S: Scalar>(
    group: Seq<ElementModel<Factor, S>>,
    element: ElementModel<Factor, S>,
    tolerance: S::Size,
) -> bool {
    group.contains(element) || known(group, element, tolerance)
}

proof fn lemma_grown_covers<Factor: PhaseFactor, S: Scalar>(
    generators: Seq<ElementModel<Factor, S>>,
    size: nat,
    dimension: nat,
    tolerance: S::Size,
    edges: nat,
    source: nat,
    g: nat,
)
    requires
        grown(generators, size, dimension, tolerance, edges) is Ok,
        g < generators.len(),
        source * generators.len() + g < edges,
        source < (grown(generators, size, dimension, tolerance, edges)->Ok_0).len(),
    ensures
        covered(
            grown(generators, size, dimension, tolerance, edges)->Ok_0,
            composed(
                generators[g as int],
                (grown(generators, size, dimension, tolerance, edges)->Ok_0)[source as int],
                dimension,
            ),
            tolerance,
        ),
    decreases edges,
{
    let count = generators.len();
    let last = (edges - 1) as nat;
    let before = grown(generators, size, dimension, tolerance, last)->Ok_0;
    let group = grown(generators, size, dimension, tolerance, edges)->Ok_0;
    let q = last / count;
    let r = last % count;
    lemma_fundamental_div_mod(last as int, count as int);
    lemma_mod_bound(last as int, count as int);
    assert(q >= source) by (nonlinear_arith)
        requires
            source * count + g <= last,
            last == count * q + r,
            r < count,
    ;
    if source < before.len() {
        let candidate = composed(generators[g as int], before[source as int], dimension);
        assert(group[source as int] == before[source as int]);
        if source * count + g < last {
            lemma_grown_covers(generators, size, dimension, tolerance, last, source, g);
            if before.contains(candidate) {
                let i = before.index_of(candidate);
                assert(group[i] == candidate);
            } else {
                let i = choose|i: int|
                    0 <= i < before.len() && elements_close(
                        #[trigger] before[i],
                        candidate,
                        tolerance,
                    );
                assert(elements_close(group[i], candidate, tolerance));
            }
        } else {
            lemma_fundamental_div_mod_converse(
                last as int,
                count as int,
                source as int,
                g as int,
            );
            if !known(before, candidate, tolerance) {
                assert(group[before.len() as int] == candidate);
            }
        }
    } else {
        assert(q >= before.len());
        assert(group == before);
    }
}

/// The group that generators span is closed: a generator that follows a listed element
/// gives an element that is listed, or one that acts like a listed one.
pub proof fn law_group_closed<Factor: PhaseFactor, S: Scalar>(
    generators: Seq<ElementModel<Factor, S>>,
    size: nat,
    dimension: nat,
    tolerance: S::Size,
    edges: nat,
    source: nat,
    g: nat,
)
    requires
        complete(generators, size, dimension, tolerance, edges),
        spanned(generators, size, dimension, tolerance) is Ok,
        source < (spanned(generators, size, dimension, tolerance)->Ok_0).len(),
        g < generators.len(),
    ensures
        covered(
            spanned(generators, size, dimension, tolerance)->Ok_0,
            composed(
                generators[g as int],
                (spanned(generators, size, dimension, tolerance)->Ok_0)[source as int],
                dimension,
            ),
            tolerance,
        ),
{
    lemma_spanned(generators, size, dimension, tolerance, edges);
    let group = spanned(generators, size, dimension, tolerance)->Ok_0;
    let n = group.len();
    let count = generators.len();
    assert(source * count + g < n * count) by (nonlinear_arith)
        requires
            source < n,
            g < count,
    ;
    lemma_grown_covers(generators, size, dimension, tolerance, edges, source, g);
}

fn apply_finite<State, M: SymmetryMap<State>>(map: &M, state: State) -> (result: Result<
    (State, M::Factor),
>)
    requires
        map.ready(),
    ensures
        result == image(*map, state),
{
    match map.apply(state) {
        Ok((target, phase)) => {
            if !phase.is_finite() {
                return Err(
                    QmbedError::IncompatibleSymmetry("a symmetry map returned a non-finite phase"),
                );
            }
            Ok((target, phase))
        },
        Err(error) => Err(error),
    }
}

proof fn lemma_moved_fails<State, M: SymmetryMap<State>>(
    map: M,
    orbit: Seq<State>,
    count: nat,
    later: nat,
)
    requires
        count <= later,
        moved(map, orbit, count) is Err,
    ensures
        moved(map, orbit, later) == moved(map, orbit, count),
    decreases later - count,
{
    if count < later {
        lemma_moved_fails(map, orbit, count, (later - 1) as nat);
    }
}

proof fn lemma_elements_fail<State, M: SymmetryMap<State>, S>(
    generators: Seq<MatrixSymmetryGenerator<M, S>>,
    orbit: Seq<State>,
    count: nat,
    later: nat,
)
    requires
        count <= later,
        elements_of(generators, orbit, count) is Err,
    ensures
        elements_of(generators, orbit, later) == elements_of(generators, orbit, count),
    decreases later - count,
{
    if count < later {
        lemma_elements_fail(generators, orbit, count, (later - 1) as nat);
    }
}

/// Images of the states of an orbit, with their phases.
fn move_states<State: Bounded, M: SymmetryMap<State>>(map: &M, orbit: &Vec<State>) -> (result: Result<
    (Vec<usize>, Vec<M::Factor>),
>)
    requires
        map.ready(),
        ordered::strictly_sorted(orbit@),
    ensures
        match result {
            Ok((destinations, phases)) => {
                &&& moved(*map, orbit@, orbit@.len()) == Ok::<
                    (Seq<usize>, Seq<M::Factor>),
                    QmbedError,
                >((destinations@, phases@))
                &&& destinations@.len() == orbit@.len()
                &&& phases@.len() == orbit@.len()
                &&& forall|i: int|
                    0 <= i < orbit@.len() ==> (#[trigger] destinations@[i]) < orbit@.len()
            },
            Err(error) => moved(*map, orbit@, orbit@.len()) == Err::<
                (Seq<usize>, Seq<M::Factor>),
                QmbedError,
            >(error),
        },
{
    let mut destinations: Vec<usize> = Vec::new();
    let mut phases: Vec<M::Factor> = Vec::new();
    let mut next: usize = 0;
    assert(destinations@ =~= Seq::empty());
    assert(phases@ =~= Seq::empty());
    while next < orbit.len()
        invariant
            next <= orbit@.len(),
            map.ready(),
            ordered::strictly_sorted(orbit@),
            moved(*map, orbit@, next as nat) == Ok::<(Seq<usize>, Seq<M::Factor>), QmbedError>(
                (destinations@, phases@),
            ),
            destinations@.len() == next,
            phases@.len() == next,
            forall|i: int| 0 <= i < next ==> (#[trigger] destinations@[i]) < orbit@.len(),
        decreases orbit@.len() - next,
    {
        let (target, phase) = match map.apply(orbit[next]) {
            Ok(image) => image,
            Err(error) => {
                proof {
                    lemma_moved_fails(*map, orbit@, (next + 1) as nat, orbit@.len());
                }
                return Err(error);
            },
        };
        let place: usize = match find(orbit, target) {
            Some(place) => place,
            None => {
                proof {
                    lemma_moved_fails(*map, orbit@, (next + 1) as nat, orbit@.len());
                }
                return Err(
                    QmbedError::IncompatibleSymmetry(
                        "a matrix symmetry generator leaves its physical orbit",
                    ),
                );
            },
        };
        proof {
            assert(orbit@.contains(target));
            let at = orbit@.index_of(target);
            assert(orbit@[at] == target);
            assert(at == place) by {
                if at < place {
                    assert(orbit@[at].rank() < orbit@[place as int].rank());
                }
                if place < at {
                    assert(orbit@[place as int].rank() < orbit@[at].rank());
                }
            }
        }
        destinations.push(place);
        phases.push(phase);
        next += 1;
    }
    Ok((destinations, phases))
}

impl<State: Bounded, M: SymmetryMap<State>, S: Scalar> MatrixSymmetryReducer<State, M, S> {
    /// The states that the maps lead to from one of them, in order.
    pub fn physical_orbit(&self, seed: State) -> (result: Result<Vec<State>>)
        requires
            self.valid(),
        ensures
            match result {
                Ok(orbit) => is_orbit(self.spec_generators(), seed, orbit@),
                Err(error) => orbit_fails(self.spec_generators(), seed, error),
            },
    {
        let ghost gens = self.spec_generators();
        let mut visited: Vec<State> = Vec::new();
        visited.push(seed);
        let mut places: StateTable<State, usize> = StateTable::new();
        places.insert(seed, 0);
        let count: usize = self.generators.len();
        proof {
            assert(reach(gens, seed, Seq::<int>::empty()) == Some(seed));
            assert(visited@ =~= seq![seed]);
            assert(visited@[0] == seed);
            assert forall|s: State| #[trigger] places.entry(s) is Some <==> visited@.contains(
                s,
            ) by {
                if visited@.contains(s) {
                    assert(visited@[visited@.index_of(s)] == s);
                }
            }
        }
        let mut head: usize = 0;
        while head < visited.len()
            invariant
                head <= visited@.len(),
                self.valid(),
                gens == self.spec_generators(),
                gens == self.generators@,
                count == gens.len(),
                visited@.len() > 0,
                visited@[0] == seed,
                failure_met(gens, seq![seed], 0, 0) == failure_met(gens, visited@, head as nat, 0),
                visited@.no_duplicates(),
                forall|i: int|
                    0 <= i < visited@.len() ==> reachable(gens, seed, #[trigger] visited@[i]),
                forall|i: int, g: int|
                    0 <= i < head && 0 <= g < count ==> #[trigger] stays(
                        gens,
                        visited@,
                        visited@[i],
                        g,
                    ),
                places.wf(),
                forall|s: State| #[trigger] places.entry(s) is Some <==> visited@.contains(s),
            decreases State::rank_limit() - head,
        {
            let source: State = visited[head];
            proof {
                ordered::lemma_distinct_bounded(visited@);
            }
            let mut g: usize = 0;
            while g < count
                invariant
                    g <= count,
                    head < visited@.len(),
                    self.valid(),
                    gens == self.spec_generators(),
                    gens == self.generators@,
                    count == gens.len(),
                    source == visited@[head as int],
                    visited@[0] == seed,
                    head < State::rank_limit(),
                    failure_met(gens, seq![seed], 0, 0) == failure_met(
                        gens,
                        visited@,
                        head as nat,
                        g as nat,
                    ),
                    visited@.no_duplicates(),
                    forall|i: int|
                        0 <= i < visited@.len() ==> reachable(gens, seed, #[trigger] visited@[i]),
                    forall|i: int, h: int|
                        (0 <= i < head && 0 <= h < count) || (i == head && 0 <= h < g)
                            ==> #[trigger] stays(gens, visited@, visited@[i], h),
                    places.wf(),
                    forall|s: State| #[trigger] places.entry(s) is Some <==> visited@.contains(s),
                decreases count - g,
            {
                assert(gens[g as int].map.ready());
                let target: State = match apply_finite(&self.generators[g].map, source) {
                    Ok((target, _)) => target,
                    Err(error) => {
                        proof {
                            assert(reachable(gens, seed, source));
                            assert(image(gens[g as int].map, source) == Err::<
                                (State, M::Factor),
                                QmbedError,
                            >(error));
                        }
                        return Err(error);
                    },
                };
                let ghost before = visited@;
                if places.get(target).is_none() {
                    let place: usize = visited.len();
                    visited.push(target);
                    places.insert(target, place);
                    proof {
                        assert(reachable(gens, seed, source));
                        lemma_reach_further(gens, seed, source, g as int);
                        assert(visited@[place as int] == target);
                        assert forall|s: State| #[trigger]
                            places.entry(s) is Some <==> visited@.contains(s) by {
                            if before.contains(s) {
                                assert(visited@[before.index_of(s)] == s);
                            }
                            if visited@.contains(s) {
                                let at = visited@.index_of(s);
                                assert(visited@[at] == s);
                                if at < place {
                                    assert(before[at] == s);
                                }
                            }
                        }
                    }
                }
                proof {
                    assert(visited@.contains(target));
                    assert forall|i: int, h: int|
                        (0 <= i < head && 0 <= h < count) || (i == head && 0 <= h
                            < g + 1) implies #[trigger] stays(gens, visited@, visited@[i], h) by {
                        assert(visited@[i] == before[i]);
                        if i < head || h < g {
                            assert(stays(gens, before, before[i], h));
                            let there = (image(gens[h].map, before[i])->Ok_0).0;
                            let at = before.index_of(there);
                            assert(before[at] == there);
                            assert(visited@[at] == there);
                        }
                    }
                }
                g += 1;
            }
            head += 1;
        }
        let orbit: Vec<State> = sort_dedup(&visited);
        proof {
            assert forall|state: State, g: int|
                visited@.contains(state) && 0 <= g < gens.len() implies #[trigger] stays(
                gens,
                visited@,
                state,
                g,
            ) by {
                let at = visited@.index_of(state);
                assert(visited@[at] == state);
            }
            assert(visited@.contains(seed));
            assert forall|state: State| #[trigger]
                orbit@.contains(state) <==> reachable(gens, seed, state) by {
                if visited@.contains(state) {
                    assert(visited@[visited@.index_of(state)] == state);
                }
                if reachable(gens, seed, state) {
                    let word = choose|word: Seq<int>| #[trigger]
                        reach(gens, seed, word) == Some(state);
                    lemma_reach_inside(gens, seed, visited@, word);
                }
            }
            assert forall|state: State, g: int|
                orbit@.contains(state) && 0 <= g < gens.len() implies #[trigger] stays(
                gens,
                orbit@,
                state,
                g,
            ) by {
                assert(visited@.contains(state));
                assert(stays(gens, visited@, state, g));
                let there = (image(gens[g].map, state)->Ok_0).0;
                assert(visited@.contains(there));
                assert(orbit@.contains(there));
            }
        }
        Ok(orbit)
    }

    /// The group that the maps span on an orbit.
    pub fn orbit_group(&self, orbit: &Vec<State>) -> (result: Result<
        Vec<OrbitGroupElement<M::Factor, S>>,
    >)
        requires
            self.valid(),
            self.spec_dimension() * self.spec_dimension() <= usize::MAX,
            ordered::strictly_sorted(orbit@),
        ensures
            match result {
                Ok(group) => {
                    &&& group_of(
                        self.spec_generators(),
                        orbit@,
                        self.spec_dimension() as nat,
                        self.spec_tolerance(),
                    ) == Ok::<Seq<ElementModel<M::Factor, S>>, QmbedError>(models(group@))
                    &&& group@.len() > 0
                    &&& forall|i: int|
                        0 <= i < group@.len() ==> (#[trigger] group@[i])@.valid(
                            orbit@.len(),
                            self.spec_dimension() as nat,
                        )
                },
                Err(error) => group_of(
                    self.spec_generators(),
                    orbit@,
                    self.spec_dimension() as nat,
                    self.spec_tolerance(),
                ) == Err::<Seq<ElementModel<M::Factor, S>>, QmbedError>(error),
            },
    {
        let generators: Vec<OrbitGroupElement<M::Factor, S>> = match self.orbit_generators(orbit) {
            Ok(generators) => generators,
            Err(error) => {
                return Err(error);
            },
        };
        let dimension: usize = self.dimension;
        let tolerance: S::Size = self.tolerance;
        let ghost size = orbit@.len();
        let ghost d = dimension as nat;
        let ghost gens = models(generators@);
        let count: usize = generators.len();
        let mut destinations: Vec<usize> = Vec::new();
        let mut phases: Vec<M::Factor> = Vec::new();
        let mut next: usize = 0;
        while next < orbit.len()
            invariant
                next <= orbit@.len(),
                destinations@.len() == next,
                phases@.len() == next,
                forall|i: int| 0 <= i < next ==> #[trigger] destinations@[i] == i,
                forall|i: int|
                    0 <= i < next ==> #[trigger] phases@[i]
                        == <M::Factor as PhaseFactor>::spec_one(),
            decreases orbit@.len() - next,
        {
            destinations.push(next);
            phases.push(<M::Factor as PhaseFactor>::one());
            next += 1;
        }
        let identity: OrbitGroupElement<M::Factor, S> = OrbitGroupElement {
            destinations,
            phases,
            representation: identity_matrix(dimension),
        };
        let mut group: Vec<OrbitGroupElement<M::Factor, S>> = Vec::new();
        proof {
            assert(identity@.destinations =~= unmoved::<M::Factor, S>(size, d).destinations);
            assert(identity@.phases =~= unmoved::<M::Factor, S>(size, d).phases);
            assert(identity@.valid(size, d));
        }
        group.push(identity);
        let mut head: usize = 0;
        proof {
            assert(models(group@) =~= seq![unmoved::<M::Factor, S>(size, d)]);
            assert(0nat * gens.len() == 0);
        }
        while head < group.len()
            invariant
                head <= group@.len() <= GROUP_LIMIT,
                dimension * dimension <= usize::MAX,
                size == orbit@.len(),
                d == dimension,
                gens == models(generators@),
                count == generators@.len(),
                forall|g: int| 0 <= g < count ==> (#[trigger] generators@[g])@.valid(size, d),
                group@.len() > 0,
                forall|i: int| 0 <= i < group@.len() ==> (#[trigger] group@[i])@.valid(size, d),
                grown(gens, size, d, tolerance, head as nat * gens.len()) == Ok::<
                    Seq<ElementModel<M::Factor, S>>,
                    QmbedError,
                >(models(group@)),
                elements_of(self.spec_generators(), orbit@, self.spec_generators().len()) == Ok::<
                    Seq<ElementModel<M::Factor, S>>,
                    QmbedError,
                >(gens),
                d == self.spec_dimension(),
                tolerance == self.spec_tolerance(),
            decreases GROUP_LIMIT - head,
        {
            let mut g: usize = 0;
            while g < count
                invariant
                    g <= count,
                    head < group@.len() <= GROUP_LIMIT,
                    dimension * dimension <= usize::MAX,
                    size == orbit@.len(),
                    d == dimension,
                    gens == models(generators@),
                    count == generators@.len(),
                    forall|g: int| 0 <= g < count ==> (#[trigger] generators@[g])@.valid(size, d),
                    forall|i: int|
                        0 <= i < group@.len() ==> (#[trigger] group@[i])@.valid(size, d),
                    grown(gens, size, d, tolerance, head as nat * gens.len() + g as nat) == Ok::<
                        Seq<ElementModel<M::Factor, S>>,
                        QmbedError,
                    >(models(group@)),
                    elements_of(self.spec_generators(), orbit@, self.spec_generators().len())
                        == Ok::<Seq<ElementModel<M::Factor, S>>, QmbedError>(gens),
                    d == self.spec_dimension(),
                    tolerance == self.spec_tolerance(),
                decreases count - g,
            {
                let ghost before = models(group@);
                proof {
                    assert(generators@[g as int]@.valid(size, d));
                    assert(group@[head as int]@.valid(size, d));
                    assert(gens[g as int] == generators@[g as int]@);
                    assert(before[head as int] == group@[head as int]@);
                    lemma_next_edge(gens, size, d, tolerance, head as nat, g as nat);
                }
                let candidate: OrbitGroupElement<M::Factor, S> = compose_orbit_group_elements(
                    &generators[g],
                    &group[head],
                    dimension,
                );
                if !is_known(&group, &candidate, tolerance) {
                    if group.len() >= GROUP_LIMIT {
                        proof {
                            lemma_spanned(
                                gens,
                                size,
                                d,
                                tolerance,
                                head as nat * gens.len() + g as nat + 1,
                            );
                        }
                        return Err(
                            QmbedError::UnsupportedBackend(
                                Reason::Text("matrix symmetry group exceeds the finite closure limit"),
                            ),
                        );
                    }
                    let ghost element = candidate@;
                    group.push(candidate);
                    proof {
                        assert(models(group@) =~= before.push(element));
                    }
                }
                g += 1;
            }
            head += 1;
            proof {
                assert(head as nat * gens.len() == (head - 1) as nat * gens.len() + gens.len())
                    by (nonlinear_arith)
                    requires
                        head >= 1,
                ;
            }
        }
        proof {
            lemma_spanned(gens, size, d, tolerance, head as nat * gens.len());
        }
        Ok(group)
    }

    /// What the maps do to an orbit.
    fn orbit_generators(&self, orbit: &Vec<State>) -> (result: Result<
        Vec<OrbitGroupElement<M::Factor, S>>,
    >)
        requires
            self.valid(),
            ordered::strictly_sorted(orbit@),
        ensures
            match result {
                Ok(generators) => {
                    &&& elements_of(
                        self.spec_generators(),
                        orbit@,
                        self.spec_generators().len(),
                    ) == Ok::<Seq<ElementModel<M::Factor, S>>, QmbedError>(models(generators@))
                    &&& generators@.len() == self.spec_generators().len()
                    &&& forall|g: int|
                        0 <= g < generators@.len() ==> (#[trigger] generators@[g])@.valid(
                            orbit@.len(),
                            self.spec_dimension() as nat,
                        )
                },
                Err(error) => elements_of(
                    self.spec_generators(),
                    orbit@,
                    self.spec_generators().len(),
                ) == Err::<Seq<ElementModel<M::Factor, S>>, QmbedError>(error),
            },
    {
        let ghost gens = self.spec_generators();
        let mut generators: Vec<OrbitGroupElement<M::Factor, S>> = Vec::new();
        assert(models(generators@) =~= Seq::empty());
        let mut g: usize = 0;
        while g < self.generators.len()
            invariant
                g <= gens.len(),
                gens == self.spec_generators(),
                gens == self.generators@,
                self.valid(),
                ordered::strictly_sorted(orbit@),
                generators@.len() == g,
                elements_of(gens, orbit@, g as nat) == Ok::<
                    Seq<ElementModel<M::Factor, S>>,
                    QmbedError,
                >(models(generators@)),
                forall|h: int|
                    0 <= h < generators@.len() ==> (#[trigger] generators@[h])@.valid(
                        orbit@.len(),
                        self.spec_dimension() as nat,
                    ),
            decreases gens.len() - g,
        {
            assert(gens[g as int].map.ready());
            let (destinations, phases) = match move_states(&self.generators[g].map, orbit) {
                Ok(moved) => moved,
                Err(error) => {
                    proof {
                        lemma_elements_fail(gens, orbit@, (g + 1) as nat, gens.len());
                    }
                    return Err(error);
                },
            };
            let ghost before = models(generators@);
            let element: OrbitGroupElement<M::Factor, S> = OrbitGroupElement {
                destinations,
                phases,
                representation: copy_list(&self.generators[g].representation),
            };
            let ghost model = element@;
            generators.push(element);
            g += 1;
            proof {
                assert(models(generators@) =~= before.push(model));
            }
        }
        Ok(generators)
    }
}

/// Models of a list of elements.
pub open spec fn models<Factor, S>(group: Seq<OrbitGroupElement<Factor, S>>) -> Seq<
    ElementModel<Factor, S>,
> {
    Seq::new(group.len(), |i: int| group[i]@)
}

fn is_known<Factor: PhaseFactor, S: Scalar>(
    group: &Vec<OrbitGroupElement<Factor, S>>,
    element: &OrbitGroupElement<Factor, S>,
    tolerance: S::Size,
) -> (answer: bool)
    ensures
        answer == known(models(group@), element@, tolerance),
{
    let mut next: usize = 0;
    while next < group.len()
        invariant
            next <= group@.len(),
            forall|i: int|
                0 <= i < next ==> !elements_close(
                    #[trigger] models(group@)[i],
                    element@,
                    tolerance,
                ),
        decreases group@.len() - next,
    {
        if orbit_group_elements_close(&group[next], element, tolerance) {
            assert(elements_close(models(group@)[next as int], element@, tolerance));
            return true;
        }
        next += 1;
    }
    false
}

} // verus!

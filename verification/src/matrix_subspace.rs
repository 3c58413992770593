//! Orthonormal columns of a selected row of a matrix representation.

use vstd::prelude::*;

use crate::amplitudes::Turn;
use crate::basis::Basis;
use crate::error::{QmbedError, Reason, Result};
use crate::linear;
use crate::linear::{dotc, Entries, Gaussian, MatrixFormat, Operator, Scalar};
use crate::matrix_symmetry;
use crate::matrix_symmetry::{
    ElementModel, MatrixSymmetryGenerator, MatrixSymmetryReducer, OrbitGroupElement,
};
use crate::ordered;
use crate::ordered::{sort_dedup, Bounded};
use crate::symmetry::{PhaseFactor, SymmetryMap};
use crate::table::StateTable;

verus! {

/// Scalars that can be subtracted, and divided by the norm of a vector.
pub trait Normed: Scalar {
    spec fn spec_minus(self, other: Self) -> Self;

    /// The quotient of two counts.
    spec fn spec_ratio(numerator: usize, denominator: usize) -> Self;

    /// The scalar divided by a size.
    spec fn spec_over(self, size: Self::Size) -> Self;

    /// The norm of a vector.
    spec fn spec_norm(vector: Entries<Self>) -> Self::Size;

    /// Whether the square of the scalar is too small to count.
    spec fn spec_is_faint(self) -> bool;

    /// Whether a tolerance is finite and not negative.
    spec fn spec_bearable(tolerance: Self::Size) -> bool;

    fn minus(&self, other: &Self) -> (value: Self)
        ensures
            value == self.spec_minus(*other),
    ;

    fn ratio(numerator: usize, denominator: usize) -> (value: Self)
        ensures
            value == Self::spec_ratio(numerator, denominator),
    ;

    fn over(&self, size: Self::Size) -> (value: Self)
        ensures
            value == self.spec_over(size),
    ;

    fn norm(vector: &Vec<Self>) -> (size: Self::Size)
        ensures
            size == Self::spec_norm(vector@),
    ;

    fn is_faint(&self) -> (answer: bool)
        ensures
            answer == self.spec_is_faint(),
    ;

    fn bearable(tolerance: Self::Size) -> (answer: bool)
        ensures
            answer == Self::spec_bearable(tolerance),
    ;
}

/// Scalars that hold the phases of symmetry maps.
pub trait PhaseScalar<Factor>: Normed {
    /// Whether the scalars hold the value of a phase.
    spec fn spec_holds_phase(phase: Factor) -> bool;

    spec fn spec_from_phase(phase: Factor) -> Self;

    /// Whether the scalars hold the value of a phase.
    fn holds_phase(phase: &Factor) -> (answer: bool)
        ensures
            answer == Self::spec_holds_phase(*phase),
    ;

    fn from_phase(phase: &Factor) -> (value: Self)
        ensures
            value == Self::spec_from_phase(*phase),
    ;
}

/// The refusal of a value that the scalars do not hold.
pub open spec fn no_value() -> QmbedError {
    QmbedError::UnsupportedBackend(Reason::Text("the scalars do not hold an amplitude exactly"))
}

pub fn refuse_value() -> (error: QmbedError)
    ensures
        error == no_value(),
{
    QmbedError::UnsupportedBackend(Reason::Text("the scalars do not hold an amplitude exactly"))
}

/// Whether the scalars hold the values of all phases of a list.
pub open spec fn phases_held<Factor, S: PhaseScalar<Factor>>(phases: Seq<Factor>) -> bool {
    forall|i: int| 0 <= i < phases.len() ==> S::spec_holds_phase(#[trigger] phases[i])
}

pub fn holds_phases<Factor, S: PhaseScalar<Factor>>(phases: &Vec<Factor>) -> (answer: bool)
    ensures
        answer == phases_held::<Factor, S>(phases@),
{
    let mut next: usize = 0;
    while next < phases.len()
        invariant
            next <= phases@.len(),
            forall|i: int| 0 <= i < next ==> S::spec_holds_phase(#[trigger] phases@[i]),
        decreases phases@.len() - next,
    {
        if !S::holds_phase(&phases[next]) {
            return false;
        }
        next += 1;
    }
    true
}

/// A quotient rounded toward zero; a division by zero changes nothing.
pub open spec fn quotient(part: i64, size: u64) -> i64 {
    if size == 0 {
        part
    } else if part >= 0 {
        (part as int / size as int) as i64
    } else {
        (-((-part) / size as int)) as i64
    }
}

pub(crate) fn divide(part: i64, size: u64) -> (value: i64)
    ensures
        value == quotient(part, size),
{
    if size == 0 {
        part
    } else if part >= 0 {
        let q: u64 = part as u64 / size;
        proof {
            vstd::arithmetic::div_mod::lemma_div_is_ordered_by_denominator(
                part as int,
                1,
                size as int,
            );
        }
        q as i64
    } else {
        let up: u128 = (0i128 - part as i128) as u128;
        let q: u128 = up / size as u128;
        proof {
            vstd::arithmetic::div_mod::lemma_div_is_ordered_by_denominator(
                up as int,
                1,
                size as int,
            );
        }
        (0i128 - q as i128) as i64
    }
}

/// The largest distance of an entry from zero.
pub open spec fn largest(vector: Seq<Gaussian>) -> u64
    decreases vector.len(),
{
    if vector.len() == 0 {
        0
    } else {
        Gaussian::spec_larger(
            largest(vector.drop_last()),
            vector.last().spec_distance(Gaussian::spec_zero()),
        )
    }
}

/// Gaussian integers are divided with rounding toward zero; the norm of a vector is the
/// largest of its entries.
impl Normed for Gaussian {
    open spec fn spec_minus(self, other: Self) -> Self {
        Gaussian { re: self.re.wrapping_sub(other.re), im: self.im.wrapping_sub(other.im) }
    }

    open spec fn spec_ratio(numerator: usize, denominator: usize) -> Self {
        if denominator == 0 {
            Gaussian { re: 0, im: 0 }
        } else {
            Gaussian { re: (numerator / denominator) as i64, im: 0 }
        }
    }

    open spec fn spec_over(self, size: u64) -> Self {
        Gaussian { re: quotient(self.re, size), im: quotient(self.im, size) }
    }

    open spec fn spec_norm(vector: Seq<Self>) -> u64 {
        largest(vector)
    }

    open spec fn spec_is_faint(self) -> bool {
        self.spec_is_negligible()
    }

    open spec fn spec_bearable(tolerance: u64) -> bool {
        true
    }

    fn is_faint(&self) -> (answer: bool) {
        self.is_negligible()
    }

    fn bearable(tolerance: u64) -> (answer: bool) {
        true
    }

    fn minus(&self, other: &Self) -> (value: Self) {
        Gaussian { re: self.re.wrapping_sub(other.re), im: self.im.wrapping_sub(other.im) }
    }

    fn ratio(numerator: usize, denominator: usize) -> (value: Self) {
        if denominator == 0 {
            Gaussian { re: 0, im: 0 }
        } else {
            Gaussian { re: (numerator / denominator) as i64, im: 0 }
        }
    }

    fn over(&self, size: u64) -> (value: Self) {
        Gaussian { re: divide(self.re, size), im: divide(self.im, size) }
    }

    fn norm(vector: &Vec<Self>) -> (size: u64) {
        let mut size: u64 = 0;
        let mut next: usize = 0;
        assert(vector@.take(0) =~= Seq::empty());
        while next < vector.len()
            invariant
                next <= vector@.len(),
                size == largest(vector@.take(next as int)),
            decreases vector@.len() - next,
        {
            size = Gaussian::larger(size, vector[next].distance(&Gaussian::zero()));
            next += 1;
            assert(vector@.take(next as int).drop_last() =~= vector@.take(next - 1));
        }
        assert(vector@.take(next as int) =~= vector@);
        size
    }
}

/// Quarter turns are units of the Gaussian integers; other turns have no value there.
impl PhaseScalar<Turn> for Gaussian {
    open spec fn spec_holds_phase(phase: Turn) -> bool {
        phase.circle > 0 && (4 * phase.steps) % (phase.circle as int) == 0
    }

    fn holds_phase(phase: &Turn) -> (answer: bool) {
        phase.circle > 0 && (4 * phase.steps as u128) % phase.circle as u128 == 0
    }

    open spec fn spec_from_phase(phase: Turn) -> Self {
        if !Self::spec_holds_phase(phase) {
            Gaussian { re: 0, im: 0 }
        } else {
            let quarters = ((4 * phase.steps) / (phase.circle as int)) % 4;
            if quarters == 0 {
                Gaussian { re: 1, im: 0 }
            } else if quarters == 1 {
                Gaussian { re: 0, im: (-1) as i64 }
            } else if quarters == 2 {
                Gaussian { re: (-1) as i64, im: 0 }
            } else {
                Gaussian { re: 0, im: 1 }
            }
        }
    }

    fn from_phase(phase: &Turn) -> (value: Self) {
        if !Self::holds_phase(phase) {
            return Gaussian { re: 0, im: 0 };
        }
        let fourfold: u128 = 4 * phase.steps as u128;
        let circle: u128 = phase.circle as u128;
        let quarters: u128 = (fourfold / circle) % 4;
        if quarters == 0 {
            Gaussian { re: 1, im: 0 }
        } else if quarters == 1 {
            Gaussian { re: 0, im: -1 }
        } else if quarters == 2 {
            Gaussian { re: -1, im: 0 }
        } else {
            Gaussian { re: 0, im: 1 }
        }
    }
}

/// Weight of a group element in the projector on the selected row.
pub open spec fn weight<Factor, S: PhaseScalar<Factor>>(
    element: ElementModel<Factor, S>,
    order: nat,
    dimension: nat,
    row: nat,
) -> S {
    S::spec_ratio(dimension as usize, order as usize).spec_times(
        element.representation[matrix_symmetry::at(row as int, row as int, dimension)].spec_conjugate(),
    )
}

/// Sum of the first contributions to an element of the projector on the selected row.
pub open spec fn projector_element<Factor, S: PhaseScalar<Factor>>(
    group: Seq<ElementModel<Factor, S>>,
    dimension: nat,
    row: nat,
    target: int,
    source: int,
    count: nat,
) -> S
    decreases count,
{
    if count == 0 {
        S::spec_zero()
    } else {
        let before = projector_element(group, dimension, row, target, source, (count - 1) as nat);
        let element = group[count - 1];
        if element.destinations[source] == target {
            before.spec_plus(
                weight(element, group.len(), dimension, row).spec_times(
                    S::spec_from_phase(element.phases[source]),
                ),
            )
        } else {
            before
        }
    }
}

/// A column of the projector on the selected row.
pub open spec fn projector_column<Factor, S: PhaseScalar<Factor>>(
    group: Seq<ElementModel<Factor, S>>,
    dimension: nat,
    row: nat,
    size: nat,
    source: int,
) -> Seq<S> {
    Seq::new(
        size,
        |target: int| projector_element(group, dimension, row, target, source, group.len()),
    )
}

/// A vector without its part along another.
pub open spec fn without<S: Normed>(vector: Seq<S>, other: Seq<S>) -> Seq<S> {
    Seq::new(
        vector.len(),
        |i: int|
            vector[i].spec_minus(linear::inner_product(other, vector).spec_times(other[i])),
    )
}

/// A vector without its parts along the first of some others, one after another.
pub open spec fn orthogonalized<S: Normed>(
    vector: Seq<S>,
    others: Seq<Seq<S>>,
    count: nat,
) -> Seq<S>
    decreases count,
{
    if count == 0 {
        vector
    } else {
        without(orthogonalized(vector, others, (count - 1) as nat), others[count - 1])
    }
}

/// How far a scalar is from zero.
pub open spec fn magnitude<S: Scalar>(value: S) -> S::Size {
    value.spec_distance(S::spec_zero())
}

/// The first entry that does not vanish, as a number.
pub open spec fn pivot<S: Scalar>(vector: Seq<S>, tolerance: S::Size) -> Option<S>
    decreases vector.len(),
{
    if vector.len() == 0 {
        None
    } else {
        match pivot(vector.drop_last(), tolerance) {
            Some(value) => Some(value),
            None => if S::spec_within(magnitude(vector.last()), tolerance) {
                None
            } else {
                Some(vector.last())
            },
        }
    }
}

/// A vector divided by a size.
pub open spec fn divided<S: Normed>(vector: Seq<S>, size: S::Size) -> Seq<S> {
    Seq::new(vector.len(), |i: int| vector[i].spec_over(size))
}

/// A vector turned so that its first entry that does not vanish is positive.
pub open spec fn gauged<S: Normed>(vector: Seq<S>, tolerance: S::Size) -> Seq<S> {
    match pivot(vector, tolerance) {
        None => vector,
        Some(value) => linear::scaled(vector, value.spec_over(magnitude(value)).spec_conjugate()),
    }
}

/// What a vector adds to an orthonormal list, if anything: two rounds take away its parts
/// along the list.
pub open spec fn addition<S: Normed>(vector: Seq<S>, others: Seq<Seq<S>>, tolerance: S::Size) -> Option<
    Seq<S>,
> {
    let once = orthogonalized(vector, others, others.len());
    let twice = orthogonalized(once, others, others.len());
    if S::spec_within(S::spec_norm(twice), tolerance) {
        None
    } else {
        Some(gauged(divided(twice, S::spec_norm(twice)), tolerance))
    }
}

/// Orthonormal columns from the first columns of the projector, with the number of the
/// column from which each came.
pub open spec fn orthonormal<Factor, S: PhaseScalar<Factor>>(
    group: Seq<ElementModel<Factor, S>>,
    dimension: nat,
    row: nat,
    size: nat,
    tolerance: S::Size,
    count: nat,
) -> (Seq<usize>, Seq<Seq<S>>)
    decreases count,
{
    if count == 0 {
        (Seq::empty(), Seq::empty())
    } else {
        let (sources, columns) = orthonormal(
            group,
            dimension,
            row,
            size,
            tolerance,
            (count - 1) as nat,
        );
        match addition(
            projector_column(group, dimension, row, size, count - 1),
            columns,
            tolerance,
        ) {
            None => (sources, columns),
            Some(column) => (sources.push((count - 1) as usize), columns.push(column)),
        }
    }
}

/// The entries of a column that do not vanish, with their states.
pub open spec fn listed<State, S: Scalar>(
    orbit: Seq<State>,
    column: Seq<S>,
    tolerance: S::Size,
    count: nat,
) -> Seq<(State, S)>
    decreases count,
{
    if count == 0 {
        Seq::empty()
    } else {
        let before = listed(orbit, column, tolerance, (count - 1) as nat);
        if S::spec_within(magnitude(column[count - 1]), tolerance) {
            before
        } else {
            before.push((orbit[count - 1], column[count - 1]))
        }
    }
}

/// The vectors of a list.
pub open spec fn vectors<S>(columns: Seq<Vec<S>>) -> Seq<Seq<S>> {
    Seq::new(columns.len(), |i: int| columns[i]@)
}

fn remove_part<S: Normed>(vector: &Vec<S>, other: &Vec<S>) -> (rest: Vec<S>)
    requires
        vector@.len() == other@.len(),
    ensures
        rest@ == without(vector@, other@),
{
    let overlap: S = dotc(other, vector);
    let mut rest: Vec<S> = Vec::new();
    let mut next: usize = 0;
    while next < vector.len()
        invariant
            next <= vector@.len(),
            vector@.len() == other@.len(),
            overlap == linear::inner_product(other@, vector@),
            rest@ == without(vector@, other@).take(next as int),
        decreases vector@.len() - next,
    {
        rest.push(vector[next].minus(&overlap.times(&other[next])));
        next += 1;
        assert(rest@ =~= without(vector@, other@).take(next as int));
    }
    assert(rest@ =~= without(vector@, other@));
    rest
}

pub fn orthogonalize<S: Normed>(vector: Vec<S>, others: &Vec<Vec<S>>) -> (rest: Vec<S>)
    requires
        forall|i: int| 0 <= i < others@.len() ==> (#[trigger] others@[i])@.len() == vector@.len(),
    ensures
        rest@ == orthogonalized(vector@, vectors(others@), others@.len()),
        rest@.len() == vector@.len(),
{
    let ghost given = vector@;
    let mut rest: Vec<S> = vector;
    let mut next: usize = 0;
    while next < others.len()
        invariant
            next <= others@.len(),
            rest@.len() == given.len(),
            forall|i: int|
                0 <= i < others@.len() ==> (#[trigger] others@[i])@.len() == given.len(),
            rest@ == orthogonalized(given, vectors(others@), next as nat),
        decreases others@.len() - next,
    {
        assert(others@[next as int]@.len() == given.len());
        assert(vectors(others@)[next as int] == others@[next as int]@);
        rest = remove_part(&rest, &others[next]);
        next += 1;
    }
    rest
}

fn find_pivot<S: Scalar>(vector: &Vec<S>, tolerance: S::Size) -> (value: Option<S>)
    ensures
        value == pivot(vector@, tolerance),
{
    let mut next: usize = 0;
    assert(vector@.take(0) =~= Seq::empty());
    while next < vector.len()
        invariant
            next <= vector@.len(),
            pivot(vector@.take(next as int), tolerance) is None,
        decreases vector@.len() - next,
    {
        proof {
            assert(vector@.take(next + 1).drop_last() =~= vector@.take(next as int));
        }
        if !S::within(vector[next].distance(&S::zero()), tolerance) {
            proof {
                lemma_pivot_stays(vector@, tolerance, (next + 1) as int);
            }
            return Some(vector[next]);
        }
        next += 1;
    }
    assert(vector@.take(next as int) =~= vector@);
    None
}

proof fn lemma_pivot_stays<S: Scalar>(vector: Seq<S>, tolerance: S::Size, count: int)
    requires
        0 <= count <= vector.len(),
        pivot(vector.take(count), tolerance) is Some,
    ensures
        pivot(vector, tolerance) == pivot(vector.take(count), tolerance),
    decreases vector.len() - count,
{
    if count < vector.len() {
        assert(vector.take(count + 1).drop_last() =~= vector.take(count));
        lemma_pivot_stays(vector, tolerance, count + 1);
    } else {
        assert(vector.take(count) =~= vector);
    }
}

fn add_column<S: Normed>(vector: Vec<S>, others: &Vec<Vec<S>>, tolerance: S::Size) -> (column: Option<
    Vec<S>,
>)
    requires
        forall|i: int| 0 <= i < others@.len() ==> (#[trigger] others@[i])@.len() == vector@.len(),
    ensures
        match column {
            Some(column) => {
                &&& addition(vector@, vectors(others@), tolerance) == Some(column@)
                &&& column@.len() == vector@.len()
            },
            None => addition(vector@, vectors(others@), tolerance) is None,
        },
{
    let once: Vec<S> = orthogonalize(vector, others);
    let twice: Vec<S> = orthogonalize(once, others);
    let norm: S::Size = S::norm(&twice);
    if S::within(norm, tolerance) {
        return None;
    }
    let mut column: Vec<S> = Vec::new();
    let mut next: usize = 0;
    while next < twice.len()
        invariant
            next <= twice@.len(),
            column@ == divided(twice@, norm).take(next as int),
        decreases twice@.len() - next,
    {
        column.push(twice[next].over(norm));
        next += 1;
        assert(column@ =~= divided(twice@, norm).take(next as int));
    }
    assert(column@ =~= divided(twice@, norm));
    match find_pivot(&column, tolerance) {
        None => Some(column),
        Some(value) => {
            let gauge: S = value.over(value.distance(&S::zero())).conjugate();
            Some(linear::scale_vector(&column, gauge))
        },
    }
}

fn column_of_projector<Factor: PhaseFactor, S: PhaseScalar<Factor>>(
    group: &Vec<OrbitGroupElement<Factor, S>>,
    dimension: usize,
    row: usize,
    size: usize,
    source: usize,
) -> (column: Vec<S>)
    requires
        dimension * dimension <= usize::MAX,
        row < dimension,
        source < size,
        forall|i: int|
            0 <= i < group@.len() ==> (#[trigger] group@[i])@.valid(
                size as nat,
                dimension as nat,
            ),
    ensures
        column@ == projector_column(
            matrix_symmetry::models(group@),
            dimension as nat,
            row as nat,
            size as nat,
            source as int,
        ),
{
    let ghost models = matrix_symmetry::models(group@);
    proof {
        matrix_symmetry::lemma_at(row as int, row as int, dimension as nat);
    }
    let diagonal: usize = row * dimension + row;
    let scale: S = S::ratio(dimension, group.len());
    let mut column: Vec<S> = linear::zero_vector(size);
    let mut next: usize = 0;
    while next < group.len()
        invariant
            next <= group@.len(),
            source < size,
            row < dimension,
            diagonal == matrix_symmetry::at(row as int, row as int, dimension as nat),
            diagonal < dimension * dimension,
            models == matrix_symmetry::models(group@),
            scale == S::spec_ratio(dimension, group@.len() as usize),
            forall|i: int|
                0 <= i < group@.len() ==> (#[trigger] group@[i])@.valid(
                    size as nat,
                    dimension as nat,
                ),
            column@.len() == size,
            forall|target: int|
                0 <= target < size ==> #[trigger] column@[target] == projector_element(
                    models,
                    dimension as nat,
                    row as nat,
                    target,
                    source as int,
                    next as nat,
                ),
        decreases group@.len() - next,
    {
        let element: &OrbitGroupElement<Factor, S> = &group[next];
        proof {
            assert(group@[next as int]@.valid(size as nat, dimension as nat));
            assert(models[next as int] == element@);
            assert(element@.destinations[source as int] < size);
        }
        let share: S = scale.times(&element.representation[diagonal].conjugate());
        let target: usize = element.destinations[source];
        let sum: S = column[target].plus(&share.times(&S::from_phase(&element.phases[source])));
        column.set(target, sum);
        next += 1;
    }
    assert(column@ =~= projector_column(
        models,
        dimension as nat,
        row as nat,
        size as nat,
        source as int,
    ));
    column
}

/// The entries of a column that do not vanish, with their states.
fn list_entries<State: Copy, S: Scalar>(orbit: &Vec<State>, column: &Vec<S>, tolerance: S::Size) -> (entries: Vec<
    (State, S),
>)
    requires
        orbit@.len() == column@.len(),
    ensures
        entries@ == listed(orbit@, column@, tolerance, orbit@.len()),
{
    let mut entries: Vec<(State, S)> = Vec::new();
    let mut next: usize = 0;
    while next < orbit.len()
        invariant
            next <= orbit@.len(),
            orbit@.len() == column@.len(),
            entries@ == listed(orbit@, column@, tolerance, next as nat),
        decreases orbit@.len() - next,
    {
        if !S::within(column[next].distance(&S::zero()), tolerance) {
            entries.push((orbit[next], column[next]));
        }
        next += 1;
    }
    entries
}

/// Columns of the selected row on one orbit: the state from which each came, and its
/// entries.
pub open spec fn orbit_columns<State, Factor, S: PhaseScalar<Factor>>(
    orbit: Seq<State>,
    group: Seq<ElementModel<Factor, S>>,
    dimension: nat,
    row: nat,
    tolerance: S::Size,
) -> (Seq<State>, Seq<Seq<(State, S)>>) {
    let (sources, columns) = orthonormal(
        group,
        dimension,
        row,
        orbit.len(),
        tolerance,
        orbit.len(),
    );
    (
        Seq::new(sources.len(), |i: int| orbit[sources[i] as int]),
        Seq::new(columns.len(), |i: int| listed(orbit, columns[i], tolerance, orbit.len())),
    )
}

/// Columns of the selected row on one orbit.
fn columns_on_orbit<State: Copy, Factor: PhaseFactor, S: PhaseScalar<Factor>>(
    orbit: &Vec<State>,
    group: &Vec<OrbitGroupElement<Factor, S>>,
    dimension: usize,
    row: usize,
    tolerance: S::Size,
) -> (result: (Vec<State>, Vec<Vec<(State, S)>>))
    requires
        dimension * dimension <= usize::MAX,
        row < dimension,
        forall|i: int|
            0 <= i < group@.len() ==> (#[trigger] group@[i])@.valid(
                orbit@.len(),
                dimension as nat,
            ),
    ensures
        (result.0@, vectors(result.1@)) == orbit_columns(
            orbit@,
            matrix_symmetry::models(group@),
            dimension as nat,
            row as nat,
            tolerance,
        ),
{
    let ghost models = matrix_symmetry::models(group@);
    let ghost size = orbit@.len();
    let mut sources: Vec<usize> = Vec::new();
    let mut columns: Vec<Vec<S>> = Vec::new();
    assert(vectors(columns@) =~= Seq::empty());
    let mut next: usize = 0;
    while next < orbit.len()
        invariant
            next <= orbit@.len(),
            size == orbit@.len(),
            models == matrix_symmetry::models(group@),
            dimension * dimension <= usize::MAX,
            row < dimension,
            forall|i: int|
                0 <= i < group@.len() ==> (#[trigger] group@[i])@.valid(
                    orbit@.len(),
                    dimension as nat,
                ),
            forall|i: int| 0 <= i < columns@.len() ==> (#[trigger] columns@[i])@.len() == size,
            forall|i: int| 0 <= i < sources@.len() ==> (#[trigger] sources@[i]) < next,
            sources@.len() == columns@.len(),
            (sources@, vectors(columns@)) == orthonormal(
                models,
                dimension as nat,
                row as nat,
                size,
                tolerance,
                next as nat,
            ),
        decreases orbit@.len() - next,
    {
        let ghost before = vectors(columns@);
        let vector: Vec<S> = column_of_projector(group, dimension, row, orbit.len(), next);
        match add_column(vector, &columns, tolerance) {
            None => {},
            Some(column) => {
                let ghost entries = column@;
                columns.push(column);
                sources.push(next);
                assert(vectors(columns@) =~= before.push(entries));
            },
        }
        next += 1;
    }
    let mut labels: Vec<State> = Vec::new();
    let mut entries: Vec<Vec<(State, S)>> = Vec::new();
    let ghost stated = orbit_columns(orbit@, models, dimension as nat, row as nat, tolerance);
    let mut place: usize = 0;
    while place < columns.len()
        invariant
            place <= columns@.len(),
            size == orbit@.len(),
            sources@.len() == columns@.len(),
            forall|i: int| 0 <= i < columns@.len() ==> (#[trigger] columns@[i])@.len() == size,
            forall|i: int| 0 <= i < sources@.len() ==> (#[trigger] sources@[i]) < size,
            (sources@, vectors(columns@)) == orthonormal(
                models,
                dimension as nat,
                row as nat,
                size,
                tolerance,
                size,
            ),
            stated == orbit_columns(orbit@, models, dimension as nat, row as nat, tolerance),
            labels@.len() == place,
            entries@.len() == place,
            forall|i: int| 0 <= i < place ==> #[trigger] labels@[i] == stated.0[i],
            forall|i: int| 0 <= i < place ==> (#[trigger] entries@[i])@ == stated.1[i],
        decreases columns@.len() - place,
    {
        assert(columns@[place as int]@.len() == size);
        assert(vectors(columns@)[place as int] == columns@[place as int]@);
        assert(sources@[place as int] < size);
        labels.push(orbit[sources[place]]);
        entries.push(list_entries(orbit, &columns[place], tolerance));
        place += 1;
    }
    proof {
        assert(labels@ =~= stated.0);
        assert(vectors(entries@) =~= stated.1);
    }
    (labels, entries)
}

/// Whether the scalars hold the phases of all elements of a group.
pub open spec fn group_held<Factor, S: PhaseScalar<Factor>>(
    group: Seq<ElementModel<Factor, S>>,
) -> bool {
    forall|i: int| 0 <= i < group.len() ==> phases_held::<Factor, S>((#[trigger] group[i]).phases)
}

/// A group whose phases the scalars hold; another is refused.
pub open spec fn held_group<Factor, S: PhaseScalar<Factor>>(
    group: core::result::Result<Seq<ElementModel<Factor, S>>, QmbedError>,
) -> core::result::Result<Seq<ElementModel<Factor, S>>, QmbedError> {
    match group {
        Ok(elements) => if group_held(elements) {
            Ok(elements)
        } else {
            Err(no_value())
        },
        Err(error) => Err(error),
    }
}

fn holds_group<Factor: PhaseFactor, S: PhaseScalar<Factor>>(
    group: &Vec<OrbitGroupElement<Factor, S>>,
) -> (answer: bool)
    ensures
        answer == group_held(matrix_symmetry::models(group@)),
{
    let ghost models = matrix_symmetry::models(group@);
    let mut next: usize = 0;
    while next < group.len()
        invariant
            next <= group@.len(),
            models == matrix_symmetry::models(group@),
            forall|i: int|
                0 <= i < next ==> phases_held::<Factor, S>((#[trigger] models[i]).phases),
        decreases group@.len() - next,
    {
        assert(models[next as int] == group@[next as int]@);
        if !holds_phases::<Factor, S>(&group[next].phases) {
            return false;
        }
        next += 1;
    }
    true
}

/// A subspace as it grows: states of the orbits met so far, and columns with their labels.
pub struct SubspaceModel<State, S> {
    /// States of the orbits in the order in which they were met.
    pub states: Seq<State>,
    /// States from which the columns came.
    pub labels: Seq<State>,
    /// Entries of the columns.
    pub columns: Seq<Seq<(State, S)>>,
}

/// The subspace that the first seeds span, where nothing fails.
pub open spec fn gathered<State: Bounded, M: SymmetryMap<State>, S: PhaseScalar<M::Factor>>(
    generators: Seq<MatrixSymmetryGenerator<M, S>>,
    dimension: nat,
    row: nat,
    tolerance: S::Size,
    seeds: Seq<State>,
    count: nat,
) -> Option<SubspaceModel<State, S>>
    decreases count,
{
    if count == 0 {
        Some(
            SubspaceModel { states: Seq::empty(), labels: Seq::empty(), columns: Seq::empty() },
        )
    } else {
        match gathered(generators, dimension, row, tolerance, seeds, (count - 1) as nat) {
            None => None,
            Some(subspace) => {
                let seed = seeds[count - 1];
                let orbit = matrix_symmetry::orbit_of(generators, seed);
                if subspace.states.contains(seed) {
                    Some(subspace)
                } else if !matrix_symmetry::is_orbit(generators, seed, orbit) {
                    None
                } else {
                    match held_group(
                        matrix_symmetry::group_of(generators, orbit, dimension, tolerance),
                    ) {
                        Err(_) => None,
                        Ok(group) => {
                            let (labels, columns) = orbit_columns(
                                orbit,
                                group,
                                dimension,
                                row,
                                tolerance,
                            );
                            Some(
                                SubspaceModel {
                                    states: subspace.states + orbit,
                                    labels: subspace.labels + labels,
                                    columns: subspace.columns + columns,
                                },
                            )
                        },
                    }
                }
            },
        }
    }
}

/// Why a seed cannot be taken into the subspace of the seeds before it.
pub open spec fn seed_fails<State: Bounded, M: SymmetryMap<State>, S: PhaseScalar<M::Factor>>(
    generators: Seq<MatrixSymmetryGenerator<M, S>>,
    dimension: nat,
    row: nat,
    tolerance: S::Size,
    seeds: Seq<State>,
    place: nat,
    error: QmbedError,
) -> bool {
    match gathered(generators, dimension, row, tolerance, seeds, place) {
        None => false,
        Some(subspace) => {
            let seed = seeds[place as int];
            let orbit = matrix_symmetry::orbit_of(generators, seed);
            &&& place < seeds.len()
            &&& !subspace.states.contains(seed)
            &&& if matrix_symmetry::is_orbit(generators, seed, orbit) {
                held_group(
                    matrix_symmetry::group_of(generators, orbit, dimension, tolerance),
                ) == Err::<
                    Seq<ElementModel<M::Factor, S>>,
                    QmbedError,
                >(error)
            } else {
                matrix_symmetry::orbit_fails(generators, seed, error)
            }
        },
    }
}

/// Orthonormal columns spanning one selected row of a finite-group matrix
/// representation.
pub struct MatrixSymmetrySubspace<State, S> {
    physical_states: Vec<State>,
    labels: Vec<State>,
    columns: Vec<Vec<(State, S)>>,
}

impl<State: Bounded, S: Scalar> MatrixSymmetrySubspace<State, S> {
    /// States that the columns may touch, in order.
    pub closed spec fn spec_physical_states(&self) -> Seq<State> {
        self.physical_states@
    }

    /// States from which the columns came.
    pub closed spec fn spec_labels(&self) -> Seq<State> {
        self.labels@
    }

    /// Entries of the columns.
    pub closed spec fn spec_columns(&self) -> Seq<Seq<(State, S)>> {
        vectors(self.columns@)
    }

    pub fn dimension(&self) -> (dimension: usize)
        ensures
            dimension == self.spec_columns().len(),
    {
        self.columns.len()
    }

    pub fn physical_dimension(&self) -> (dimension: usize)
        ensures
            dimension == self.spec_physical_states().len(),
    {
        self.physical_states.len()
    }

    pub fn physical_states(&self) -> (states: &Vec<State>)
        ensures
            states@ == self.spec_physical_states(),
    {
        &self.physical_states
    }

    /// The seed state from which each column came.
    pub fn labels(&self) -> (labels: &Vec<State>)
        ensures
            labels@ == self.spec_labels(),
    {
        &self.labels
    }

    pub fn columns(&self) -> (columns: &Vec<Vec<(State, S)>>)
        ensures
            vectors(columns@) == self.spec_columns(),
    {
        &self.columns
    }
}

/// The entries of the first columns as entries of a matrix: each of them stands in the row
/// of its state.
pub open spec fn embedded<State, S>(
    states: Seq<State>,
    columns: Seq<Seq<(State, S)>>,
    entries: Seq<(usize, usize, S)>,
    count: nat,
) -> bool
    decreases count,
{
    if count == 0 {
        entries.len() == 0
    } else {
        let column = columns[count - 1];
        let start = entries.len() - column.len();
        &&& start >= 0
        &&& embedded(states, columns, entries.take(start), (count - 1) as nat)
        &&& forall|k: int|
            0 <= k < column.len() ==> #[trigger] entry_is(
                states,
                entries[start + k],
                column[k],
                count - 1,
            )
    }
}

/// Whether an entry of a matrix is that of a state and a column.
pub open spec fn entry_is<State, S>(
    states: Seq<State>,
    entry: (usize, usize, S),
    value: (State, S),
    column: int,
) -> bool {
    entry.0 < states.len() && states[entry.0 as int] == value.0 && entry.1 == column && entry.2
        == value.1
}

/// Whether every entry of the columns stands at a listed state.
pub open spec fn all_listed<State, S>(states: Seq<State>, columns: Seq<Seq<(State, S)>>) -> bool {
    forall|c: int, k: int|
        0 <= c < columns.len() && 0 <= k < columns[c].len() ==> states.contains(
            (#[trigger] columns[c][k]).0,
        )
}

impl<State: Bounded, S: Scalar> MatrixSymmetrySubspace<State, S> {
    /// The columns as an embedding into a parent basis.
    pub fn projector<Parent: Basis<State = State>>(
        &self,
        parent: &Parent,
        format: MatrixFormat,
    ) -> (result: Result<Operator<S>>)
        requires
            parent.wf(),
        ensures
            match result {
                Ok(operator) => {
                    &&& operator.valid()
                    &&& operator@.rows == parent.spec_states().len()
                    &&& operator@.columns == self.spec_columns().len()
                    &&& operator@.format == format
                    &&& embedded(
                        parent.spec_states(),
                        self.spec_columns(),
                        operator@.entries,
                        self.spec_columns().len(),
                    )
                },
                Err(error) => {
                    &&& !all_listed(parent.spec_states(), self.spec_columns())
                    &&& error == QmbedError::StateNotInBasis
                },
            },
    {
        let ghost states = parent.spec_states();
        let ghost stated = self.spec_columns();
        let rows: usize = parent.len();
        let total: usize = self.columns.len();
        let mut entries: Vec<(usize, usize, S)> = Vec::new();
        let mut column: usize = 0;
        while column < self.columns.len()
            invariant
                column <= self.columns@.len(),
                parent.wf(),
                states == parent.spec_states(),
                stated == self.spec_columns(),
                stated == vectors(self.columns@),
                embedded(states, stated, entries@, column as nat),
                linear::entries_fit(entries@, rows, total),
                rows == states.len(),
                total == self.columns@.len(),
            decreases self.columns@.len() - column,
        {
            let ghost before = entries@;
            let mut next: usize = 0;
            assert(stated[column as int] == self.columns@[column as int]@);
            while next < self.columns[column].len()
                invariant
                    column < self.columns@.len(),
                    next <= self.columns@[column as int]@.len(),
                    parent.wf(),
                    states == parent.spec_states(),
                    stated == self.spec_columns(),
                    stated == vectors(self.columns@),
                    stated[column as int] == self.columns@[column as int]@,
                    entries@.len() == before.len() + next,
                    entries@.take(before.len() as int) == before,
                    forall|k: int|
                        0 <= k < next ==> #[trigger] entry_is(
                            states,
                            entries@[before.len() + k],
                            stated[column as int][k],
                            column as int,
                        ),
                    linear::entries_fit(entries@, rows, total),
                    rows == states.len(),
                total == self.columns@.len(),
                decreases self.columns@[column as int]@.len() - next,
            {
                let (state, value) = self.columns[column][next];
                let row: usize = match parent.index(state) {
                    Ok(row) => row,
                    Err(error) => {
                        proof {
                            assert(stated[column as int][next as int].0 == state);
                        }
                        return Err(error);
                    },
                };
                let ghost earlier = entries@;
                entries.push((row, column, value));
                next += 1;
                proof {
                    assert(entries@.take(before.len() as int) =~= earlier.take(before.len() as int));
                    assert forall|k: int| 0 <= k < next implies #[trigger] entry_is(
                        states,
                        entries@[before.len() + k],
                        stated[column as int][k],
                        column as int,
                    ) by {
                        if k < next - 1 {
                            assert(entry_is(
                                states,
                                earlier[before.len() + k],
                                stated[column as int][k],
                                column as int,
                            ));
                        }
                    }
                }
            }
            column += 1;
        }
        match Operator::from_triplets(rows, total, entries, format) {
            Ok(operator) => Ok(operator),
            Err(error) => {
                assert(false);
                Err(error)
            },
        }
    }
}

impl<State: Bounded, M: SymmetryMap<State>, S: PhaseScalar<M::Factor>> MatrixSymmetryReducer<
    State,
    M,
    S,
> {
    /// Columns of the selected row on one orbit: the state from which each came, and its
    /// entries.
    pub fn selected_orbit_columns(&self, orbit: &Vec<State>) -> (result: Result<
        (Vec<State>, Vec<Vec<(State, S)>>),
    >)
        requires
            self.valid(),
            self.spec_dimension() * self.spec_dimension() <= usize::MAX,
            ordered::strictly_sorted(orbit@),
        ensures
            match (
                held_group(
                    matrix_symmetry::group_of(
                        self.spec_generators(),
                        orbit@,
                        self.spec_dimension() as nat,
                        self.spec_tolerance(),
                    ),
                ),
                result,
            ) {
                (Ok(group), Ok((labels, columns))) => (labels@, vectors(columns@))
                    == orbit_columns(
                    orbit@,
                    group,
                    self.spec_dimension() as nat,
                    self.spec_selected_row() as nat,
                    self.spec_tolerance(),
                ),
                (Err(stated), Err(error)) => error == stated,
                _ => false,
            },
    {
        match self.orbit_group(orbit) {
            Ok(group) => if holds_group(&group) {
                Ok(
                    columns_on_orbit(
                        orbit,
                        &group,
                        self.dimension(),
                        self.selected_row(),
                        self.tolerance(),
                    ),
                )
            } else {
                Err(refuse_value())
            },
            Err(error) => Err(error),
        }
    }

    /// The selected row of the representation on the orbits of seed states.
    ///
    /// Each orbit is completed before the projection, so that generators may lead
    /// out of the seeds.
    pub fn subspace<Seed: Basis<State = State>>(&self, seeds: &Seed) -> (result: Result<
        MatrixSymmetrySubspace<State, S>,
    >)
        requires
            self.valid(),
            seeds.wf(),
        ensures
            match result {
                Ok(subspace) => {
                    let model = gathered(
                        self.spec_generators(),
                        self.spec_dimension() as nat,
                        self.spec_selected_row() as nat,
                        self.spec_tolerance(),
                        seeds.spec_states(),
                        seeds.spec_states().len(),
                    );
                    &&& self.spec_generators().len() > 0
                    &&& model is Some
                    &&& ordered::strictly_sorted(subspace.spec_physical_states())
                    &&& forall|state: State| #[trigger]
                        subspace.spec_physical_states().contains(state) <==> (
                        model->0).states.contains(state)
                    &&& subspace.spec_labels() == (model->0).labels
                    &&& subspace.spec_columns() == (model->0).columns
                },
                Err(error) => if self.spec_generators().len() == 0 {
                    error == QmbedError::InvalidSector(
                        Reason::Text("a matrix symmetry representation requires at least one generator"),
                    )
                } else {
                    exists|place: nat| #[trigger]
                        seed_fails(
                            self.spec_generators(),
                            self.spec_dimension() as nat,
                            self.spec_selected_row() as nat,
                            self.spec_tolerance(),
                            seeds.spec_states(),
                            place,
                            error,
                        )
                },
            },
    {
        if self.generator_count() == 0 {
            return Err(
                QmbedError::InvalidSector(
                    Reason::Text("a matrix symmetry representation requires at least one generator"),
                ),
            );
        }
        let ghost gens = self.spec_generators();
        let ghost d = self.spec_dimension() as nat;
        let ghost row = self.spec_selected_row() as nat;
        let ghost tolerance = self.spec_tolerance();
        let ghost stated = seeds.spec_states();
        let mut visited: StateTable<State, usize> = StateTable::new();
        let mut states: Vec<State> = Vec::new();
        let mut labels: Vec<State> = Vec::new();
        let mut columns: Vec<Vec<(State, S)>> = Vec::new();
        let total: usize = seeds.len();
        assert(vectors(columns@) =~= Seq::empty());
        assert(states@ =~= Seq::empty());
        assert(labels@ =~= Seq::empty());
        let mut index: usize = 0;
        while index < total
            invariant
                index <= total,
                total == stated.len(),
                self.valid(),
                seeds.wf(),
                gens == self.spec_generators(),
                gens.len() > 0,
                d == self.spec_dimension(),
                row == self.spec_selected_row(),
                tolerance == self.spec_tolerance(),
                stated == seeds.spec_states(),
                gathered(gens, d, row, tolerance, stated, index as nat) == Some(
                    SubspaceModel {
                        states: states@,
                        labels: labels@,
                        columns: vectors(columns@),
                    },
                ),
                visited.wf(),
                forall|s: State| #[trigger] visited.entry(s) is Some <==> states@.contains(s),
            decreases total - index,
        {
            let seed: State = match seeds.state(index) {
                Ok(seed) => seed,
                Err(error) => {
                    assert(false);
                    return Err(error);
                },
            };
            if visited.get(seed).is_none() {
                let orbit: Vec<State> = match self.physical_orbit(seed) {
                    Ok(orbit) => orbit,
                    Err(error) => {
                        proof {
                            lemma_orbit_or_failure(gens, seed, error);
                            assert(seed_fails(gens, d, row, tolerance, stated, index as nat, error));
                        }
                        return Err(error);
                    },
                };
                proof {
                    matrix_symmetry::lemma_orbit_unique(gens, seed, orbit@);
                }
                let (more_labels, more_columns) = match self.selected_orbit_columns(&orbit) {
                    Ok(found) => found,
                    Err(error) => {
                        proof {
                            assert(seed_fails(gens, d, row, tolerance, stated, index as nat, error));
                        }
                        return Err(error);
                    },
                };
                let ghost before = states@;
                let ghost old_columns = columns@;
                let mut more_columns: Vec<Vec<(State, S)>> = more_columns;
                let mut more_labels: Vec<State> = more_labels;
                let ghost new_labels = more_labels@;
                let ghost new_columns = more_columns@;
                labels.append(&mut more_labels);
                columns.append(&mut more_columns);
                proof {
                    assert(vectors(columns@) =~= vectors(old_columns) + vectors(new_columns));
                }
                let mut next: usize = 0;
                while next < orbit.len()
                    invariant
                        next <= orbit@.len(),
                        states@ == before + orbit@.take(next as int),
                        visited.wf(),
                        forall|s: State| #[trigger]
                            visited.entry(s) is Some <==> states@.contains(s),
                    decreases orbit@.len() - next,
                {
                    let ghost earlier = states@;
                    states.push(orbit[next]);
                    visited.insert(orbit[next], 0);
                    proof {
                        let item = orbit@[next as int];
                        assert(states@[earlier.len() as int] == item);
                        assert forall|s: State| #[trigger]
                            visited.entry(s) is Some <==> states@.contains(s) by {
                            if earlier.contains(s) {
                                assert(states@[earlier.index_of(s)] == s);
                            }
                            if states@.contains(s) {
                                let at = states@.index_of(s);
                                assert(states@[at] == s);
                                if at < earlier.len() {
                                    assert(earlier[at] == s);
                                }
                            }
                        }
                    }
                    next += 1;
                    assert(states@ =~= before + orbit@.take(next as int));
                }
                assert(orbit@.take(next as int) =~= orbit@);
            }
            index += 1;
        }
        let physical_states: Vec<State> = sort_dedup(&states);
        Ok(MatrixSymmetrySubspace { physical_states, labels, columns })
    }
}

proof fn lemma_orbit_or_failure<State: Bounded, M: SymmetryMap<State>, S>(
    generators: Seq<MatrixSymmetryGenerator<M, S>>,
    seed: State,
    error: QmbedError,
)
    requires
        matrix_symmetry::orbit_fails(generators, seed, error),
    ensures
        !matrix_symmetry::is_orbit(
            generators,
            seed,
            matrix_symmetry::orbit_of(generators, seed),
        ),
{
    let orbit = matrix_symmetry::orbit_of(generators, seed);
    if matrix_symmetry::is_orbit(generators, seed, orbit) {
        let (state, g) = choose|state: State, g: int|
            #![trigger matrix_symmetry::image(generators[g].map, state)]
            matrix_symmetry::reachable(generators, seed, state) && 0 <= g < generators.len()
                && matrix_symmetry::image(generators[g].map, state) == Err::<
                (State, M::Factor),
                QmbedError,
            >(error);
        assert(orbit.contains(state));
        assert(matrix_symmetry::stays(generators, orbit, state, g));
    }
}

} // verus!
